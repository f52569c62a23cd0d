//! Transactions, as far as the inclusion check and the checkpoint payload read them.

use vstd::prelude::*;

verus! {

/// An output of a transaction.
#[derive(Clone, Debug, PartialEq, Eq)]
pub struct TxOut {
    /// The amount, in satoshi.
    pub value: u64,
    /// The script that locks the amount, as raw bytes.
    pub script_pubkey: Vec<u8>,
}

/// A decoded transaction.
#[derive(Clone, Debug, PartialEq, Eq)]
pub struct Transaction {
    /// The id under which the tree of the block holds the transaction.
    pub txid: [u8; 32],
    pub version: i32,
    pub lock_time: u32,
    pub output: Vec<TxOut>,
}

/// A `TxOut` as plain values.
pub struct TxOutView {
    pub value: u64,
    pub script_pubkey: Seq<u8>,
}

/// A `Transaction` as plain values.
pub struct TransactionView {
    pub txid: Seq<u8>,
    pub version: i32,
    pub lock_time: u32,
    pub output: Seq<TxOutView>,
}

impl View for TxOut {
    type V = TxOutView;

    open spec fn view(&self) -> TxOutView {
        TxOutView { value: self.value, script_pubkey: self.script_pubkey@ }
    }
}

impl View for Transaction {
    type V = TransactionView;

    open spec fn view(&self) -> TransactionView {
        TransactionView {
            txid: self.txid@,
            version: self.version,
            lock_time: self.lock_time,
            output: self.output@.map_values(|o: TxOut| o@),
        }
    }
}

/// The version, the lock time and the outputs of the transaction that `raw`
/// is the wire form of; `None` where `raw` is not the wire form of a
/// transaction.
pub uninterp spec fn decoded_body(raw: Seq<u8>) -> Option<(i32, u32, Seq<TxOutView>)>;

/// The id of the transaction that `raw` is the wire form of.
pub uninterp spec fn transaction_id(raw: Seq<u8>) -> Seq<u8>;

/// The transaction that `raw` is the wire form of, with its id; `None` where
/// `raw` is not the wire form of a transaction.
pub open spec fn decoded_transaction(raw: Seq<u8>) -> Option<TransactionView> {
    match decoded_body(raw) {
        Some((version, lock_time, output)) => Some(
            TransactionView { txid: transaction_id(raw), version, lock_time, output },
        ),
        None => None,
    }
}

/// The views of outputs.
pub open spec fn output_views(output: Seq<TxOut>) -> Seq<TxOutView> {
    output.map_values(|o: TxOut| o@)
}

/// `bitcoin::consensus::deserialize` for a transaction: its version, lock
/// time and outputs, which depend on the bytes alone.
#[verifier::external_body]
fn decode_body(raw: &[u8]) -> (body: Option<(i32, u32, Vec<TxOut>)>)
    ensures
        match body {
            Some((version, lock_time, output)) => decoded_body(raw@) == Some(
                (version, lock_time, output_views(output@)),
            ),
            None => decoded_body(raw@) is None,
        },
{
    let tx: bitcoin::Transaction = bitcoin::consensus::deserialize(raw).ok()?;
    let output = tx.output.iter().map(
        |o| TxOut { value: o.value, script_pubkey: o.script_pubkey.to_bytes() },
    ).collect();
    Some((tx.version, tx.lock_time.0, output))
}

/// `bitcoin::Transaction::txid`, of what `bitcoin::consensus::deserialize`
/// reads from the bytes: the id is there exactly where the bytes decode, and
/// depends on the bytes alone.
#[verifier::external_body]
fn txid_of(raw: &[u8]) -> (id: Option<[u8; 32]>)
    ensures
        (id is Some) == (decoded_body(raw@) is Some),
        id matches Some(i) ==> i@ == transaction_id(raw@),
{
    let tx: bitcoin::Transaction = bitcoin::consensus::deserialize(raw).ok()?;
    Some(bitcoin::hashes::Hash::into_inner(tx.txid()))
}

impl Transaction {
    /// Reads a transaction from its wire form.
    pub fn decode(raw: &[u8]) -> (tx: Option<Transaction>)
        ensures
            match tx {
                Some(t) => decoded_transaction(raw@) == Some(t@),
                None => decoded_transaction(raw@) is None,
            },
    {
        let (version, lock_time, output) = match decode_body(raw) {
            Some(body) => body,
            None => { return None; },
        };
        match txid_of(raw) {
            Some(txid) => Some(Transaction { txid, version, lock_time, output }),
            None => None,
        }
    }
}

} // verus!
