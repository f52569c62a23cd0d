use bitcoin::blockdata::constants::genesis_block;
use btc_header_chain::block::{
    verify_header_pow, verify_next_header_pow, work_follows, BlockHeader, ChainParams,
};

fn ours(header: &bitcoin::BlockHeader) -> BlockHeader {
    BlockHeader {
        version: header.version,
        prev_blockhash: bitcoin::hashes::Hash::into_inner(header.prev_blockhash),
        merkle_root: bitcoin::hashes::Hash::into_inner(header.merkle_root),
        time: header.time,
        bits: header.bits,
        nonce: header.nonce,
    }
}

fn params(network: bitcoin::Network) -> ChainParams {
    let params = bitcoin::consensus::Params::new(network);
    ChainParams {
        pow_limit: params.pow_limit.to_be_bytes(),
        allow_min_difficulty_blocks: params.allow_min_difficulty_blocks,
    }
}

/// Rules that admit any target and hold the difficulty steady.
fn steady() -> ChainParams {
    ChainParams { pow_limit: [0xff; 32], allow_min_difficulty_blocks: false }
}

fn mine(parent: &bitcoin::BlockHeader, bits: u32) -> bitcoin::BlockHeader {
    let mut header = bitcoin::BlockHeader {
        version: 1,
        prev_blockhash: parent.block_hash(),
        merkle_root: bitcoin::hashes::Hash::from_inner([5; 32]),
        time: parent.time + 1,
        bits,
        nonce: 0,
    };
    while header.validate_pow(&header.target()).is_err() {
        header.nonce += 1;
    }
    header
}

fn mainnet_block_1() -> bitcoin::BlockHeader {
    bitcoin::BlockHeader {
        version: 1,
        prev_blockhash: genesis_block(bitcoin::Network::Bitcoin).header.block_hash(),
        merkle_root: "0e3e2357e806b6cdb1f70b54c3a3a17b6714ee1f0e68bebb44a74b1efd512098".parse().unwrap(),
        time: 1231469665,
        bits: 0x1d00ffff,
        nonce: 2573394689,
    }
}

#[test]
fn decode_reads_the_six_fields() {
    let mut raw = Vec::new();
    raw.extend_from_slice(&[0xfe, 0xff, 0xff, 0xff]);
    raw.extend_from_slice(&[0x11; 32]);
    raw.extend_from_slice(&[0x22; 32]);
    raw.extend_from_slice(&[0x01, 0x02, 0x03, 0x04]);
    raw.extend_from_slice(&[0xff, 0xff, 0x7f, 0x20]);
    raw.extend_from_slice(&[0x00, 0x00, 0x00, 0x80]);
    assert_eq!(
        BlockHeader::decode(&raw),
        Some(BlockHeader {
            version: -2,
            prev_blockhash: [0x11; 32],
            merkle_root: [0x22; 32],
            time: 0x04030201,
            bits: 0x207fffff,
            nonce: 0x80000000,
        })
    );
}

#[test]
fn decode_wants_eighty_bytes() {
    let raw = bitcoin::consensus::serialize(&genesis_block(bitcoin::Network::Regtest).header);
    assert_eq!(raw.len(), 80);
    assert!(BlockHeader::decode(&raw).is_some());
    assert_eq!(BlockHeader::decode(&raw[..79]), None);
    assert_eq!(BlockHeader::decode(&[]), None);
    let mut longer = raw.clone();
    longer.push(0);
    assert_eq!(BlockHeader::decode(&longer), None);
}

#[test]
fn hash_is_the_block_hash() {
    let genesis = genesis_block(bitcoin::Network::Bitcoin).header;
    let decoded = BlockHeader::decode(&bitcoin::consensus::serialize(&genesis)).unwrap();
    assert_eq!(decoded, ours(&genesis));
    let mut expected =
        hex::decode("000000000019d6689c085ae165831e934ff763ae46a2a6c172b3f1b60a8ce26f").unwrap();
    expected.reverse();
    assert_eq!(decoded.hash().to_vec(), expected);
    let block_1 = mainnet_block_1();
    let mut expected =
        hex::decode("00000000839a8e6886ab5951d76f411475428afc90947ee320161bbf18eb6048").unwrap();
    expected.reverse();
    assert_eq!(ours(&block_1).hash().to_vec(), expected);
}

#[test]
fn header_pow_on_its_own_network() {
    let mainnet = genesis_block(bitcoin::Network::Bitcoin).header;
    let regtest = genesis_block(bitcoin::Network::Regtest).header;
    let signet = genesis_block(bitcoin::Network::Signet).header;
    assert!(verify_header_pow(&params(bitcoin::Network::Bitcoin), &ours(&mainnet)));
    assert!(verify_header_pow(&params(bitcoin::Network::Testnet), &ours(&mainnet)));
    assert!(verify_header_pow(&params(bitcoin::Network::Regtest), &ours(&regtest)));
    assert!(verify_header_pow(&params(bitcoin::Network::Signet), &ours(&signet)));
    // the target of a regtest header is above the limit of the other networks
    assert!(!verify_header_pow(&params(bitcoin::Network::Bitcoin), &ours(&regtest)));
    assert!(!verify_header_pow(&params(bitcoin::Network::Signet), &ours(&regtest)));
    // the target of a signet header is above the limit of mainnet
    assert!(!verify_header_pow(&params(bitcoin::Network::Bitcoin), &ours(&signet)));
}

#[test]
fn header_pow_fails_on_a_hash_above_the_target() {
    let mut header = genesis_block(bitcoin::Network::Bitcoin).header;
    header.nonce += 1;
    assert!(!verify_header_pow(&params(bitcoin::Network::Bitcoin), &ours(&header)));
    let mut header = genesis_block(bitcoin::Network::Regtest).header;
    while header.validate_pow(&header.target()).is_ok() {
        header.nonce += 1;
    }
    assert!(!verify_header_pow(&params(bitcoin::Network::Regtest), &ours(&header)));
}

#[test]
fn header_pow_with_the_target_at_the_limit() {
    let header = genesis_block(bitcoin::Network::Regtest).header;
    let at = ChainParams {
        pow_limit: header.target().to_be_bytes(),
        allow_min_difficulty_blocks: true,
    };
    assert!(verify_header_pow(&at, &ours(&header)));
    let mut below = at;
    below.pow_limit[31] = 0;
    below.pow_limit[2] = 0xfe;
    assert!(!verify_header_pow(&below, &ours(&header)));
}

#[test]
fn the_target_of_the_first_mainnet_block() {
    // bits 0x1d00ffff stand for 0xffff shifted up by 208 bits
    let header = genesis_block(bitcoin::Network::Bitcoin).header;
    let mut limit = [0u8; 32];
    limit[4] = 0xff;
    limit[5] = 0xff;
    let at = ChainParams { pow_limit: limit, allow_min_difficulty_blocks: false };
    assert!(verify_header_pow(&at, &ours(&header)));
    let mut limit = [0xffu8; 32];
    limit[0] = 0;
    limit[1] = 0;
    limit[2] = 0;
    limit[3] = 0;
    limit[5] = 0xfe;
    let below = ChainParams { pow_limit: limit, allow_min_difficulty_blocks: false };
    assert!(!verify_header_pow(&below, &ours(&header)));
}

#[test]
fn a_negative_mantissa_gives_the_target_zero() {
    let genesis = genesis_block(bitcoin::Network::Regtest).header;
    let mut header = genesis;
    header.bits = 0x20800000;
    assert!(!verify_header_pow(&steady(), &ours(&header)));
}

fn number(n: u64) -> [u8; 32] {
    let mut bytes = [0u8; 32];
    bytes[24..].copy_from_slice(&n.to_be_bytes());
    bytes
}

#[test]
fn work_of_a_header_is_added() {
    // a regtest header adds 2, the first mainnet header 2^32 + 2^16 + 1
    let regtest = ours(&genesis_block(bitcoin::Network::Regtest).header);
    let mainnet = ours(&genesis_block(bitcoin::Network::Bitcoin).header);
    assert!(work_follows(&number(0), &regtest, &number(2)));
    assert!(work_follows(&number(40), &regtest, &number(42)));
    assert!(!work_follows(&number(40), &regtest, &number(41)));
    assert!(!work_follows(&number(40), &regtest, &number(43)));
    assert!(!work_follows(&number(40), &regtest, &number(40)));
    assert!(work_follows(&number(0), &mainnet, &number(0x1_0001_0001)));
    assert!(work_follows(&number(7), &mainnet, &number(0x1_0001_0008)));
    assert!(!work_follows(&number(7), &mainnet, &number(9)));
    // the sum does not wrap around
    let mut top = [0xffu8; 32];
    assert!(!work_follows(&top, &regtest, &number(1)));
    top[31] = 0xfd;
    assert!(work_follows(&top, &regtest, &[0xff; 32]));
    // a target of zero adds what 256 bits hold of 2^256: nothing
    let mut zero = regtest;
    zero.bits = 0x20800000;
    assert!(work_follows(&number(5), &zero, &number(5)));
}

#[test]
fn next_header_on_mainnet() {
    let genesis = genesis_block(bitcoin::Network::Bitcoin).header;
    let block_1 = mainnet_block_1();
    let rules = params(bitcoin::Network::Bitcoin);
    assert!(verify_next_header_pow(&rules, &ours(&genesis), &ours(&block_1)));
    // not the other way round
    assert!(!verify_next_header_pow(&rules, &ours(&block_1), &ours(&genesis)));
    // nor on itself
    assert!(!verify_next_header_pow(&rules, &ours(&block_1), &ours(&block_1)));
}

#[test]
fn next_header_must_name_its_parent() {
    let genesis = genesis_block(bitcoin::Network::Regtest).header;
    let child = mine(&genesis, 0x207fffff);
    let grandchild = mine(&child, 0x207fffff);
    let rules = params(bitcoin::Network::Regtest);
    assert!(verify_next_header_pow(&rules, &ours(&genesis), &ours(&child)));
    assert!(verify_next_header_pow(&rules, &ours(&child), &ours(&grandchild)));
    assert!(!verify_next_header_pow(&rules, &ours(&genesis), &ours(&grandchild)));
}

#[test]
fn next_header_must_meet_its_proof_of_work() {
    let genesis = genesis_block(bitcoin::Network::Regtest).header;
    let mut child = mine(&genesis, 0x207fffff);
    while child.validate_pow(&child.target()).is_ok() {
        child.nonce += 1;
    }
    assert!(!verify_next_header_pow(&params(bitcoin::Network::Regtest), &ours(&genesis), &ours(&child)));
}

#[test]
fn target_may_double_and_halve_where_difficulty_is_steady() {
    let genesis = genesis_block(bitcoin::Network::Regtest).header;
    let low = mine(&genesis, 0x203fffff);
    let doubled = mine(&low, 0x207fffff);
    assert!(verify_next_header_pow(&steady(), &ours(&low), &ours(&doubled)));
    let halved = mine(&doubled, 0x203fffff);
    assert!(verify_next_header_pow(&steady(), &ours(&doubled), &ours(&halved)));
}

#[test]
fn target_may_move_by_the_factor_four_and_no_more() {
    let genesis = genesis_block(bitcoin::Network::Regtest).header;
    // targets 0x10 << 232, 0x40 << 232, 0x41 << 232 and 0x0f << 232
    let parent = mine(&genesis, 0x1f100000);
    let four_times = mine(&parent, 0x1f400000);
    let above = mine(&parent, 0x1f410000);
    assert!(verify_next_header_pow(&steady(), &ours(&parent), &ours(&four_times)));
    assert!(!verify_next_header_pow(&steady(), &ours(&parent), &ours(&above)));
    let quarter = mine(&four_times, 0x1f100000);
    let below = mine(&four_times, 0x1f0f0000);
    assert!(verify_next_header_pow(&steady(), &ours(&four_times), &ours(&quarter)));
    assert!(!verify_next_header_pow(&steady(), &ours(&four_times), &ours(&below)));
    // where blocks of the lowest difficulty are allowed, the target is free
    let free = ChainParams { pow_limit: [0xff; 32], allow_min_difficulty_blocks: true };
    assert!(verify_next_header_pow(&free, &ours(&parent), &ours(&above)));
    assert!(verify_next_header_pow(&free, &ours(&four_times), &ours(&below)));
}
