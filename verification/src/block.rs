//! Block headers, their hash, and the proof-of-work rules.
//!
//! Decoding, hashing and 256-bit arithmetic are done by the `bitcoin` crate;
//! the functions that call it are marked as not proved, and what is proved
//! rests on their contracts.

use vstd::prelude::*;
use vstd::arithmetic::power2::pow2;
use vstd::bytes::spec_u32_to_le_bytes;
use vstd::bytes::lemma_auto_spec_u32_to_from_le_bytes;
use vstd::arithmetic::power2::lemma2_to64;
use vstd::arithmetic::power2::lemma_pow2_unfold;
use vstd::arithmetic::power2::lemma_pow2_strictly_increases;
use vstd::arithmetic::div_mod::lemma_mod_mod;
use vstd::arithmetic::div_mod::lemma_mod_multiples_basic;
use vstd::arithmetic::div_mod::lemma_small_mod;
use vstd::arithmetic::div_mod::lemma_mod_sub_multiples_vanish;
use crate::bytes::lemma_be_value_256;
use bitcoin::util::uint::Uint256;
use crate::bytes::be_value;
use crate::bytes::le_value;
use crate::bytes::be_le;
use crate::bytes::bytes_eq;

verus! {

/// A block header: the six fields of its 80 bytes.
#[derive(Clone, Copy, Debug, PartialEq, Eq)]
pub struct BlockHeader {
    pub version: i32,
    /// The hash of the parent block.
    pub prev_blockhash: [u8; 32],
    /// The root of the tree of the block's transactions.
    pub merkle_root: [u8; 32],
    pub time: u32,
    /// The target in its compact form.
    pub bits: u32,
    pub nonce: u32,
}

/// The Bitcoin network whose rules apply.
#[derive(Clone, Copy, Debug, PartialEq, Eq)]
pub enum Network {
    Mainnet,
    Testnet,
    Signet,
    Regtest,
}

/// What the proof-of-work rules read of a network.
#[derive(Clone, Copy, Debug, PartialEq, Eq)]
pub struct ChainParams {
    /// The highest target a header may claim, most significant byte first.
    pub pow_limit: [u8; 32],
    /// Whether a header may fall back to the lowest difficulty.
    pub allow_min_difficulty_blocks: bool,
}

/// The 80 bytes of a header: the integers least significant byte first, the
/// two hashes as they are.
pub open spec fn serialized(header: BlockHeader) -> Seq<u8> {
    spec_u32_to_le_bytes(header.version as u32) + header.prev_blockhash@ + header.merkle_root@
        + spec_u32_to_le_bytes(header.time) + spec_u32_to_le_bytes(header.bits)
        + spec_u32_to_le_bytes(header.nonce)
}

/// The double SHA-256 digest of `data`.
pub uninterp spec fn sha256d(data: Seq<u8>) -> Seq<u8>;

/// The hash of the block with this header.
pub open spec fn block_hash_of(header: BlockHeader) -> Seq<u8> {
    sha256d(serialized(header))
}

/// What is left of a number in 256 bits.
pub open spec fn low_256_bits(n: int) -> nat {
    (n % (pow2(256) as int)) as nat
}

/// The mantissa of a compact target.
pub open spec fn compact_mantissa(bits: u32) -> nat {
    if bits >> 24 <= 3 {
        ((bits & 0xFFFFFF) >> ((8 * (3 - (bits >> 24))) as u32)) as nat
    } else {
        (bits & 0xFFFFFF) as nat
    }
}

/// The number of bits by which the mantissa of a compact target is shifted up.
pub open spec fn compact_shift(bits: u32) -> nat {
    if bits >> 24 <= 3 {
        0
    } else {
        (8 * ((bits >> 24) - 3)) as nat
    }
}

/// The target that `bits` stands for: the mantissa shifted up within 256
/// bits, and zero where the mantissa has its sign bit set.
pub open spec fn target_of_bits(bits: u32) -> nat {
    if compact_mantissa(bits) > 0x7FFFFF {
        0
    } else {
        low_256_bits((compact_mantissa(bits) * pow2(compact_shift(bits))) as int)
    }
}

/// The work that a header with the target `bits` adds to a chain: `2^256`
/// over the target and one, rounded down, as it comes out within 256 bits.
pub open spec fn work_of_bits(bits: u32) -> nat {
    low_256_bits(
        (pow2(256) - 1 - target_of_bits(bits)) / (target_of_bits(bits) + 1) as int + 1,
    )
}

/// The highest target a header of this network may claim.
pub open spec fn pow_limit_of(network: Network) -> nat {
    match network {
        Network::Mainnet => 0xffff * pow2(208),
        Network::Testnet => 0xffff * pow2(208),
        Network::Signet => 0x377ae * pow2(216),
        Network::Regtest => 0x7fffff * pow2(232),
    }
}

/// Whether the network lets a header fall back to the lowest difficulty.
pub open spec fn allows_min_difficulty(network: Network) -> bool {
    network == Network::Testnet || network == Network::Regtest
}

/// `bitcoin::consensus::deserialize` for a block header: it succeeds on
/// exactly 80 bytes, and these are then the bytes of the header returned.
#[verifier::external_body]
pub(crate) fn decode_header(raw: &[u8]) -> (header: Option<BlockHeader>)
    ensures
        (header is Some) == (raw@.len() == 80),
        header matches Some(h) ==> serialized(h) == raw@,
{
    let h: bitcoin::BlockHeader = bitcoin::consensus::deserialize(raw).ok()?;
    Some(
        BlockHeader {
            version: h.version,
            prev_blockhash: bitcoin::hashes::Hash::into_inner(h.prev_blockhash),
            merkle_root: bitcoin::hashes::Hash::into_inner(h.merkle_root),
            time: h.time,
            bits: h.bits,
            nonce: h.nonce,
        },
    )
}

/// `bitcoin::BlockHeader::block_hash`: the double SHA-256 digest of the 80
/// bytes of the header.
#[verifier::external_body]
pub(crate) fn block_hash(header: &BlockHeader) -> (hash: [u8; 32])
    ensures
        hash@ == block_hash_of(*header),
{
    let h = bitcoin::BlockHeader {
        version: header.version,
        prev_blockhash: bitcoin::hashes::Hash::from_inner(header.prev_blockhash),
        merkle_root: bitcoin::hashes::Hash::from_inner(header.merkle_root),
        time: header.time,
        bits: header.bits,
        nonce: header.nonce,
    };
    bitcoin::hashes::Hash::into_inner(h.block_hash())
}

/// `bitcoin::hashes::sha256d::Hash::hash`: the double SHA-256 digest of `data`.
#[verifier::external_body]
pub(crate) fn double_sha256(data: &[u8]) -> (digest: [u8; 32])
    ensures
        digest@ == sha256d(data@),
{
    let digest: bitcoin::hashes::sha256d::Hash = bitcoin::hashes::Hash::hash(data);
    bitcoin::hashes::Hash::into_inner(digest)
}

/// `bitcoin::BlockHeader::validate_pow`, asked with the header's own target:
/// whether the block hash, read as a number least significant byte first, is
/// at most that target.
#[verifier::external_body]
fn validate_pow(header: &BlockHeader) -> (met: bool)
    ensures
        met == (le_value(block_hash_of(*header)) <= target_of_bits(header.bits)),
{
    let h = bitcoin::BlockHeader {
        version: header.version,
        prev_blockhash: bitcoin::hashes::Hash::from_inner(header.prev_blockhash),
        merkle_root: bitcoin::hashes::Hash::from_inner(header.merkle_root),
        time: header.time,
        bits: header.bits,
        nonce: header.nonce,
    };
    h.validate_pow(&h.target()).is_ok()
}

/// `bitcoin::BlockHeader::u256_from_compact_target`: the target that `bits`
/// stands for, most significant byte first.
#[verifier::external_body]
fn compact_target(bits: u32) -> (target: [u8; 32])
    ensures
        be_value(target@) == target_of_bits(bits),
{
    bitcoin::BlockHeader::u256_from_compact_target(bits).to_be_bytes()
}

/// `bitcoin::consensus::Params::new`: the proof-of-work limit of the network
/// and whether it allows blocks of the lowest difficulty.
#[verifier::external_body]
pub(crate) fn get_chain_params(network: Network) -> (params: ChainParams)
    ensures
        be_value(params.pow_limit@) == pow_limit_of(network),
        params.allow_min_difficulty_blocks == allows_min_difficulty(network),
{
    let params = bitcoin::consensus::Params::new(
        match network {
            Network::Mainnet => bitcoin::Network::Bitcoin,
            Network::Testnet => bitcoin::Network::Testnet,
            Network::Signet => bitcoin::Network::Signet,
            Network::Regtest => bitcoin::Network::Regtest,
        },
    );
    ChainParams {
        pow_limit: params.pow_limit.to_be_bytes(),
        allow_min_difficulty_blocks: params.allow_min_difficulty_blocks,
    }
}

/// `Mul::mul` of `bitcoin::util::uint::Uint256`, with `Uint256::from_u64` of
/// the factor: the low 256 bits of the product.
#[verifier::external_body]
fn u256_times(a: &[u8; 32], factor: u64) -> (product: [u8; 32])
    ensures
        be_value(product@) == low_256_bits(be_value(a@) * factor),
{
    (Uint256::from_be_bytes(*a) * Uint256::from_u64(factor).unwrap()).to_be_bytes()
}

/// `Div::div` of `bitcoin::util::uint::Uint256`, with `Uint256::from_u64` of
/// the divisor, which must not be zero: the quotient, rounded down.
#[verifier::external_body]
fn u256_over(a: &[u8; 32], divisor: u64) -> (quotient: [u8; 32])
    requires
        divisor > 0,
    ensures
        be_value(quotient@) == be_value(a@) / divisor as nat,
{
    (Uint256::from_be_bytes(*a) / Uint256::from_u64(divisor).unwrap()).to_be_bytes()
}

/// `BlockHeader::work` of the `bitcoin` crate: what 256 bits hold of all ones
/// less the target, over the target and one, and one. The division stops the
/// program where the target is all ones, which the caller rules out.
#[verifier::external_body]
fn header_work(header: &BlockHeader) -> (work: [u8; 32])
    requires
        target_of_bits(header.bits) + 1 < pow2(256),
    ensures
        be_value(work@) == work_of_bits(header.bits),
{
    let h = bitcoin::BlockHeader {
        version: header.version,
        prev_blockhash: bitcoin::hashes::Hash::from_inner(header.prev_blockhash),
        merkle_root: bitcoin::hashes::Hash::from_inner(header.merkle_root),
        time: header.time,
        bits: header.bits,
        nonce: header.nonce,
    };
    h.work().to_be_bytes()
}

/// `Add::add` of `bitcoin::util::uint::Uint256`: the low 256 bits of the sum.
#[verifier::external_body]
fn u256_plus(a: &[u8; 32], b: &[u8; 32]) -> (sum: [u8; 32])
    ensures
        be_value(sum@) == low_256_bits((be_value(a@) + be_value(b@)) as int),
{
    (Uint256::from_be_bytes(*a) + Uint256::from_be_bytes(*b)).to_be_bytes()
}

/// No compact target stands for the number of all ones in 256 bits.
pub proof fn lemma_target_leaves_room(bits: u32)
    ensures
        target_of_bits(bits) + 1 < pow2(256),
{
    lemma2_to64();
    lemma_pow2_strictly_increases(64, 256);
    lemma_pow2_unfold(256);
    let m = compact_mantissa(bits);
    let s = compact_shift(bits);
    let modulus = pow2(256) as int;
    if m <= 0x7FFFFF {
        let x = (m * pow2(s)) as int;
        if s == 0 {
            assert(pow2(0) == 1);
            assert(x == m) by (nonlinear_arith)
                requires
                    x == m * pow2(s),
                    pow2(s) == 1,
            ;
            lemma_small_mod(x as nat, modulus as nat);
        } else {
            lemma_pow2_unfold(s);
            let half = (m * pow2((s - 1) as nat)) as int;
            assert(x == half * 2) by (nonlinear_arith)
                requires
                    x == m * pow2(s),
                    pow2(s) == 2 * pow2((s - 1) as nat),
                    half == m * pow2((s - 1) as nat),
            ;
            lemma_mod_multiples_basic(half, 2);
            lemma_mod_mod(x, 2, pow2(255) as int);
            assert(modulus == 2 * pow2(255));
            assert((x % modulus) % 2 == 0);
        }
    }
}

/// Whether `work` is `prev_work` and the work of `header` together.
pub fn work_follows(prev_work: &[u8; 32], header: &BlockHeader, work: &[u8; 32]) -> (ok: bool)
    ensures
        ok == (be_value(work@) == be_value(prev_work@) + work_of_bits(header.bits)),
{
    proof {
        lemma_target_leaves_room(header.bits);
    }
    let added = header_work(header);
    let sum = u256_plus(prev_work, &added);
    proof {
        let modulus = pow2(256) as int;
        let a = be_value(prev_work@) as int;
        let b = be_value(added@) as int;
        lemma_be_value_256(prev_work@);
        lemma_be_value_256(added@);
        lemma_be_value_256(work@);
        if a + b < modulus {
            lemma_small_mod((a + b) as nat, modulus as nat);
        } else {
            lemma_mod_sub_multiples_vanish(a + b, modulus);
            lemma_small_mod((a + b - modulus) as nat, modulus as nat);
        }
    }
    be_le(prev_work, &sum) && be_le(&sum, work) && be_le(work, &sum)
}

/// The header whose 80 bytes `raw` is; `None` where `raw` is not 80 bytes long.
pub open spec fn decoded_header(raw: Seq<u8>) -> Option<BlockHeader> {
    if raw.len() == 80 {
        Some(choose|h: BlockHeader| serialized(h) == raw)
    } else {
        None
    }
}

/// Two headers with the same 80 bytes are one header.
pub proof fn lemma_serialized_injective(a: BlockHeader, b: BlockHeader)
    requires
        serialized(a) == serialized(b),
    ensures
        a == b,
{
    lemma_auto_spec_u32_to_from_le_bytes();
    let sa = serialized(a);
    let sb = serialized(b);
    assert(sa.subrange(0, 4) =~= spec_u32_to_le_bytes(a.version as u32));
    assert(sb.subrange(0, 4) =~= spec_u32_to_le_bytes(b.version as u32));
    assert(sa.subrange(4, 36) =~= a.prev_blockhash@);
    assert(sb.subrange(4, 36) =~= b.prev_blockhash@);
    assert(sa.subrange(36, 68) =~= a.merkle_root@);
    assert(sb.subrange(36, 68) =~= b.merkle_root@);
    assert(sa.subrange(68, 72) =~= spec_u32_to_le_bytes(a.time));
    assert(sb.subrange(68, 72) =~= spec_u32_to_le_bytes(b.time));
    assert(sa.subrange(72, 76) =~= spec_u32_to_le_bytes(a.bits));
    assert(sb.subrange(72, 76) =~= spec_u32_to_le_bytes(b.bits));
    assert(sa.subrange(76, 80) =~= spec_u32_to_le_bytes(a.nonce));
    assert(sb.subrange(76, 80) =~= spec_u32_to_le_bytes(b.nonce));
    let va = a.version;
    let vb = b.version;
    assert(va as u32 == vb as u32 ==> va == vb) by (bit_vector);
    assert(a.prev_blockhash =~= b.prev_blockhash);
    assert(a.merkle_root =~= b.merkle_root);
}

impl BlockHeader {
    /// Reads a header from its 80 bytes.
    pub fn decode(raw: &[u8]) -> (header: Option<BlockHeader>)
        ensures
            header == decoded_header(raw@),
    {
        let header = decode_header(raw);
        proof {
            if let Some(h) = header {
                lemma_serialized_injective(h, choose|c: BlockHeader| serialized(c) == raw@);
            }
        }
        header
    }

    /// The hash of the block with this header.
    pub fn hash(&self) -> (hash: [u8; 32])
        ensures
            hash@ == block_hash_of(*self),
    {
        block_hash(self)
    }
}

/// By how much a target may differ from that of the parent header.
pub const RETARGET_ADJUSTMENT_FACTOR: u64 = 4;

/// Whether a header meets its own target, and that target the limit.
pub open spec fn header_pow_ok(pow_limit: nat, header: BlockHeader) -> bool {
    &&& target_of_bits(header.bits) <= pow_limit
    &&& le_value(block_hash_of(header)) <= target_of_bits(header.bits)
}

/// Whether a target is within the adjustment factor of the parent's, the upper
/// end taken within 256 bits.
pub open spec fn retarget_ok(parent_bits: u32, bits: u32) -> bool {
    &&& target_of_bits(bits) <= low_256_bits(
        target_of_bits(parent_bits) * RETARGET_ADJUSTMENT_FACTOR,
    )
    &&& target_of_bits(bits) >= target_of_bits(parent_bits) / RETARGET_ADJUSTMENT_FACTOR as nat
}

/// Whether `header` may follow `parent`: it names the parent's hash, meets
/// its proof of work and, where the network holds difficulty steady, keeps
/// its target near the parent's.
pub open spec fn next_header_ok(
    pow_limit: nat,
    allow_min_difficulty: bool,
    parent: BlockHeader,
    header: BlockHeader,
) -> bool {
    &&& header.prev_blockhash@ == block_hash_of(parent)
    &&& header_pow_ok(pow_limit, header)
    &&& allow_min_difficulty || retarget_ok(parent.bits, header.bits)
}

/// Checks the proof of work of one header.
pub fn verify_header_pow(params: &ChainParams, header: &BlockHeader) -> (ok: bool)
    ensures
        ok == header_pow_ok(be_value(params.pow_limit@), *header),
{
    let target = compact_target(header.bits);
    if !be_le(&target, &params.pow_limit) {
        return false;
    }
    validate_pow(header)
}

/// Checks that `header` may follow `parent`.
pub fn verify_next_header_pow(
    params: &ChainParams,
    parent: &BlockHeader,
    header: &BlockHeader,
) -> (ok: bool)
    ensures
        ok == next_header_ok(
            be_value(params.pow_limit@),
            params.allow_min_difficulty_blocks,
            *parent,
            *header,
        ),
{
    let parent_hash = block_hash(parent);
    if !bytes_eq(parent_hash.as_slice(), header.prev_blockhash.as_slice()) {
        return false;
    }
    if !verify_header_pow(params, header) {
        return false;
    }
    if !params.allow_min_difficulty_blocks {
        let old_target = compact_target(parent.bits);
        let cur_target = compact_target(header.bits);
        let max_cur_target = u256_times(&old_target, RETARGET_ADJUSTMENT_FACTOR);
        let min_cur_target = u256_over(&old_target, RETARGET_ADJUSTMENT_FACTOR);
        if !be_le(&cur_target, &max_cur_target) || !be_le(&min_cur_target, &cur_target) {
            return false;
        }
    }
    true
}

} // verus!
