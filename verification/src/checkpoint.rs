//! The inclusion of a transaction in a block, and the checkpoint payload that
//! the transaction carries.

use vstd::prelude::*;
use crate::block::BlockHeader;
use crate::block::block_hash;
use crate::block::block_hash_of;
use crate::bytes::bytes_eq;
use crate::bytes::copy_range;
use crate::merkle::MERKLE_PROOF_ELEM_SIZE;
use crate::merkle::merkle_root_of;
use crate::merkle::verify_merkle_proof;
use crate::op_return::extract_op_return_data;
use crate::op_return::op_return_data_of;
use crate::op_return::same_bytes_result;
use crate::transaction::Transaction;
use crate::transaction::TransactionView;
use crate::transaction::TxOutView;
use crate::transaction::decoded_transaction;

verus! {

/// The length of the tag that opens a payload.
pub const TAG_LEN: usize = 4;

/// The highest version of the payload format that is understood.
pub const CURRENT_VERSION: u8 = 0;

/// The length of what precedes the data in a payload: the tag, and one byte
/// for version and part.
pub const HEADER_LEN: usize = TAG_LEN + 1;

/// The length of the payload that carries the first half of a checkpoint.
pub const FIRST_PART_LEN: usize = 78;

/// The length of the payload that carries the second half of a checkpoint.
pub const SECOND_PART_LEN: usize = 63;

/// Where a transaction lies: the hash of its block and its position in it.
#[derive(Clone, Debug, PartialEq, Eq)]
pub struct TransactionKey {
    pub index: u32,
    pub hash: Vec<u8>,
}

/// A transaction with the evidence that a block includes it.
#[derive(Clone, Debug, PartialEq, Eq)]
pub struct TransactionInfo {
    pub key: Option<TransactionKey>,
    /// The transaction in its wire form.
    pub transaction: Vec<u8>,
    /// The sibling hashes from the transaction up to the root, one after another.
    pub proof: Vec<u8>,
}

/// A `TransactionKey` as plain values.
pub struct TransactionKeyView {
    pub index: u32,
    pub hash: Seq<u8>,
}

/// A `TransactionInfo` as plain values.
pub struct TransactionInfoView {
    pub key: Option<TransactionKeyView>,
    pub transaction: Seq<u8>,
    pub proof: Seq<u8>,
}

impl View for TransactionKey {
    type V = TransactionKeyView;

    open spec fn view(&self) -> TransactionKeyView {
        TransactionKeyView { index: self.index, hash: self.hash@ }
    }
}

impl View for TransactionInfo {
    type V = TransactionInfoView;

    open spec fn view(&self) -> TransactionInfoView {
        TransactionInfoView {
            key: match self.key {
                Some(k) => Some(k@),
                None => None,
            },
            transaction: self.transaction@,
            proof: self.proof@,
        }
    }
}

/// What `parse_tx_info` returns: the decoded transaction where the proof has
/// whole sibling hashes, the key is there and names the hash of `header`, the
/// transaction decodes and the proof leads from it to the root in `header`;
/// else the message of the first of these that fails.
pub open spec fn tx_info_result(info: TransactionInfoView, header: BlockHeader) -> Result<
    TransactionView,
    Seq<char>,
> {
    if info.proof.len() % 32 != 0 {
        Err("proof has a remainder"@)
    } else if info.key is None {
        Err("empty tx key"@)
    } else if block_hash_of(header) != info.key.unwrap().hash {
        Err("BTC header does not match"@)
    } else {
        match decoded_transaction(info.transaction) {
            None => Err("failed to decode BTC tx"@),
            Some(tx) => if merkle_root_of(tx.txid, info.proof, info.key.unwrap().index as nat)
                != header.merkle_root@ {
                Err("failed to verify Bitcoin Merkle proof"@)
            } else {
                Ok(tx)
            },
        }
    }
}

/// Checks `tx_info` against `btc_header`: that its key names the header's
/// hash and that its proof commits its transaction to the header. Returns
/// the decoded transaction.
pub fn parse_tx_info(tx_info: &TransactionInfo, btc_header: &BlockHeader) -> (parsed: Result<
    Transaction,
    String,
>)
    ensures
        match tx_info_result(tx_info@, *btc_header) {
            Ok(tx) => parsed matches Ok(t) && t@ == tx,
            Err(text) => parsed matches Err(e) && e@ == text,
        },
{
    if tx_info.proof.len() % MERKLE_PROOF_ELEM_SIZE != 0 {
        return Err("proof has a remainder".to_owned());
    }
    let tx_key = match &tx_info.key {
        Some(key) => key,
        None => { return Err("empty tx key".to_owned()); },
    };
    let header_hash = block_hash(btc_header);
    if !bytes_eq(header_hash.as_slice(), tx_key.hash.as_slice()) {
        return Err("BTC header does not match".to_owned());
    }
    let btc_tx = match Transaction::decode(tx_info.transaction.as_slice()) {
        Some(tx) => tx,
        None => { return Err("failed to decode BTC tx".to_owned()); },
    };
    if !verify_merkle_proof(
        &btc_tx,
        tx_info.proof.as_slice(),
        tx_key.index as usize,
        &btc_header.merkle_root,
    ) {
        return Err("failed to verify Bitcoin Merkle proof".to_owned());
    }
    Ok(btc_tx)
}

/// The text that reports a payload under another tag than the expected one.
pub uninterp spec fn tag_mismatch_text(expected: Seq<u8>, got: Seq<u8>) -> Seq<char>;

/// `format!` of std, with the two tags in their `Debug` form: the text
/// depends on the two tags alone.
#[verifier::external_body]
fn tag_mismatch_message(expected: &[u8], got: &[u8]) -> (text: String)
    ensures
        text@ == tag_mismatch_text(expected@, got@),
{
    format!("data does not have expected tag, expected tag: {:?}, got tag: {:?}", expected, got)
}

/// What a payload holds for the part `idx` under `tag`: the bytes after its
/// header, where `idx` is one of the two parts, the length of the payload is
/// that of the part, it opens with the tag, its version is understood and the
/// part it names is `idx`; else the message of the first of these that fails.
pub open spec fn checkpoint_data_of(payload: Seq<u8>, tag: Seq<u8>, idx: nat) -> Result<
    Seq<u8>,
    Seq<char>,
> {
    if idx > 1 {
        Err("header have invalid part number"@)
    } else if idx == 0 && payload.len() != FIRST_PART_LEN {
        Err("invalid length. First part should have 78 bytes"@)
    } else if idx == 1 && payload.len() != SECOND_PART_LEN {
        Err("invalid length. Second part should have 63 bytes"@)
    } else if tag != payload.subrange(0, TAG_LEN as int) {
        Err(tag_mismatch_text(tag, payload.subrange(0, TAG_LEN as int)))
    } else if payload[TAG_LEN as int] & 0xf > CURRENT_VERSION {
        Err("header have invalid version"@)
    } else if idx != (payload[TAG_LEN as int] >> 4) as nat {
        Err("header have invalid part number"@)
    } else {
        Ok(payload.skip(HEADER_LEN as int))
    }
}

/// Reads the checkpoint data of part `idx` out of a payload.
pub fn parse_checkpoint_payload(payload: &[u8], tag: &[u8], idx: usize) -> (data: Result<
    Vec<u8>,
    String,
>)
    ensures
        same_bytes_result(data, checkpoint_data_of(payload@, tag@, idx as nat)),
{
    if idx > 1 {
        return Err("header have invalid part number".to_owned());
    }
    if idx == 0 && payload.len() != FIRST_PART_LEN {
        return Err("invalid length. First part should have 78 bytes".to_owned());
    }
    if idx == 1 && payload.len() != SECOND_PART_LEN {
        return Err("invalid length. Second part should have 63 bytes".to_owned());
    }
    let got_tag = copy_range(payload, 0, TAG_LEN);
    if !bytes_eq(tag, got_tag.as_slice()) {
        return Err(tag_mismatch_message(tag, got_tag.as_slice()));
    }
    let ver_half: u8 = payload[TAG_LEN];
    let version: u8 = ver_half & 0xf;
    if version > CURRENT_VERSION {
        return Err("header have invalid version".to_owned());
    }
    let part: u8 = ver_half >> 4;
    if idx != part as usize {
        return Err("header have invalid part number".to_owned());
    }
    let data = copy_range(payload, HEADER_LEN, payload.len());
    assert(payload@.subrange(HEADER_LEN as int, payload@.len() as int) =~= payload@.skip(
        HEADER_LEN as int,
    ));
    Ok(data)
}

/// What `extract_checkpoint_data` returns for these outputs.
pub open spec fn checkpoint_of_outputs(outputs: Seq<TxOutView>, tag: Seq<u8>, idx: nat) -> Result<
    Seq<u8>,
    Seq<char>,
> {
    match op_return_data_of(outputs) {
        Err(text) => Err(text),
        Ok(payload) => checkpoint_data_of(payload, tag, idx),
    }
}

/// Extracts the checkpoint data of part `idx` from the null-data output of
/// `btc_tx`.
pub fn extract_checkpoint_data(btc_tx: &Transaction, tag: &[u8], idx: usize) -> (data: Result<
    Vec<u8>,
    String,
>)
    ensures
        same_bytes_result(data, checkpoint_of_outputs(btc_tx@.output, tag@, idx as nat)),
{
    match extract_op_return_data(btc_tx) {
        Err(text) => Err(text),
        Ok(payload) => parse_checkpoint_payload(payload.as_slice(), tag, idx),
    }
}

/// The byte that holds a version in its low half and a part in its high half.
pub open spec fn version_and_part(version: u8, part: u8) -> u8 {
    (part << 4) | version
}

/// A payload: the tag, the byte of version and part, and the data.
pub open spec fn payload_of(tag: Seq<u8>, version: u8, part: u8, data: Seq<u8>) -> Seq<u8> {
    tag + seq![version_and_part(version, part)] + data
}

/// The length that the payload of a part must have.
pub open spec fn part_len(part: u8) -> nat {
    if part == 0 {
        FIRST_PART_LEN as nat
    } else {
        SECOND_PART_LEN as nat
    }
}

/// Whether tag, version, part and data make up a payload that is read back.
pub open spec fn payload_parts_ok(tag: Seq<u8>, version: u8, part: u8, data: Seq<u8>) -> bool {
    &&& tag.len() == TAG_LEN
    &&& version <= CURRENT_VERSION
    &&& part <= 1
    &&& HEADER_LEN + data.len() == part_len(part)
}

proof fn lemma_version_and_part(version: u8, part: u8)
    requires
        version <= 15,
        part <= 15,
    ensures
        version_and_part(version, part) & 0xf == version,
        version_and_part(version, part) >> 4 == part,
{
    assert(((part << 4) | version) & 0xf == version && ((part << 4) | version) >> 4 == part)
        by (bit_vector)
        requires
            version <= 15,
            part <= 15,
    ;
}

/// A payload built from a tag, a version, a part and data of the fitting
/// length gives back exactly that data when read under the same tag and part.
pub proof fn lemma_checkpoint_round_trip(tag: Seq<u8>, version: u8, part: u8, data: Seq<u8>)
    requires
        payload_parts_ok(tag, version, part, data),
    ensures
        checkpoint_data_of(payload_of(tag, version, part, data), tag, part as nat) == Ok::<
            Seq<u8>,
            Seq<char>,
        >(data),
{
    let payload = payload_of(tag, version, part, data);
    lemma_version_and_part(version, part);
    assert(payload.subrange(0, TAG_LEN as int) =~= tag);
    assert(payload[TAG_LEN as int] == version_and_part(version, part));
    assert(payload.skip(HEADER_LEN as int) =~= data);
}

/// What is read out of a payload was asked for as one of the two parts, from
/// a payload of the length of that part which opens with the tag, has a
/// version that is understood and names that part; it is the bytes after the
/// header.
pub proof fn lemma_checkpoint_accepted(payload: Seq<u8>, tag: Seq<u8>, idx: nat, data: Seq<u8>)
    requires
        checkpoint_data_of(payload, tag, idx) == Ok::<Seq<u8>, Seq<char>>(data),
    ensures
        idx <= 1,
        payload.len() == if idx == 0 {
            FIRST_PART_LEN
        } else {
            SECOND_PART_LEN
        },
        payload.subrange(0, TAG_LEN as int) == tag,
        payload[TAG_LEN as int] & 0xf <= CURRENT_VERSION,
        (payload[TAG_LEN as int] >> 4) as nat == idx,
        data == payload.skip(HEADER_LEN as int),
{
}

/// A payload is rejected under a tag other than its own, with a version past
/// the understood one, and under the other part index.
pub proof fn lemma_checkpoint_rejections(
    tag: Seq<u8>,
    version: u8,
    part: u8,
    data: Seq<u8>,
    other_tag: Seq<u8>,
    other_part: nat,
)
    requires
        tag.len() == TAG_LEN,
        version <= 15,
        part <= 1,
        HEADER_LEN + data.len() == part_len(part),
    ensures
        other_tag != tag ==> checkpoint_data_of(
            payload_of(tag, version, part, data),
            other_tag,
            part as nat,
        ) is Err,
        version > CURRENT_VERSION ==> checkpoint_data_of(
            payload_of(tag, version, part, data),
            tag,
            part as nat,
        ) is Err,
        other_part != part ==> checkpoint_data_of(
            payload_of(tag, version, part, data),
            tag,
            other_part,
        ) is Err,
{
    let payload = payload_of(tag, version, part, data);
    lemma_version_and_part(version, part);
    assert(payload.subrange(0, TAG_LEN as int) =~= tag);
    assert(payload[TAG_LEN as int] == version_and_part(version, part));
}

/// A proof that leads from the decoded transaction to the root of the header,
/// under a key that names the header's hash, is accepted, and the decoded
/// transaction is returned.
pub proof fn lemma_inclusion_accepted(
    info: TransactionInfoView,
    header: BlockHeader,
    tx: TransactionView,
)
    requires
        info.proof.len() % 32 == 0,
        info.key is Some,
        info.key.unwrap().hash == block_hash_of(header),
        decoded_transaction(info.transaction) == Some(tx),
        merkle_root_of(tx.txid, info.proof, info.key.unwrap().index as nat) == header.merkle_root@,
    ensures
        tx_info_result(info, header) == Ok::<TransactionView, Seq<char>>(tx),
{
}

/// What is accepted against one header is rejected against any header with
/// another root; and with another proof it is rejected unless that proof
/// leads to the same root.
pub proof fn lemma_inclusion_rejections(
    info: TransactionInfoView,
    header: BlockHeader,
    tx: TransactionView,
    other_header: BlockHeader,
    other_proof: Seq<u8>,
)
    requires
        tx_info_result(info, header) == Ok::<TransactionView, Seq<char>>(tx),
    ensures
        other_header.merkle_root@ != header.merkle_root@ ==> tx_info_result(info, other_header)
            is Err,
        merkle_root_of(tx.txid, other_proof, info.key.unwrap().index as nat)
            != header.merkle_root@ ==> tx_info_result(
            TransactionInfoView { proof: other_proof, ..info },
            header,
        ) is Err,
{
}

} // verus!
