//! The data that a transaction carries in a null-data output.

use vstd::prelude::*;
use crate::bytes::copy_range;
use crate::transaction::Transaction;
use crate::transaction::TxOutView;

verus! {

/// The opcode that opens a null-data script.
pub const OP_RETURN: u8 = 0x6a;

/// The opcode that announces a one-byte length before the data.
pub const OP_PUSHDATA1: u8 = 0x4c;

/// Whether a script is a null-data script: it begins with `OP_RETURN`.
pub open spec fn is_op_return(script: Seq<u8>) -> bool {
    script.len() > 0 && script[0] == OP_RETURN
}

/// The data of a null-data script: what follows the opcode and the push, a
/// push being one byte, or two where it is `OP_PUSHDATA1` with its length.
/// `None` where the script ends before the data could begin.
pub open spec fn op_return_payload(script: Seq<u8>) -> Option<Seq<u8>> {
    if script.len() < 2 {
        None
    } else if script[1] == OP_PUSHDATA1 {
        if script.len() < 3 {
            None
        } else {
            Some(script.skip(3))
        }
    } else {
        Some(script.skip(2))
    }
}

/// The first null-data output among `outputs` from `from` on, if there is one.
pub open spec fn first_op_return(outputs: Seq<TxOutView>, from: int) -> Option<int>
    decreases outputs.len() - from,
{
    if from < 0 || from >= outputs.len() {
        None
    } else if is_op_return(outputs[from].script_pubkey) {
        Some(from)
    } else {
        first_op_return(outputs, from + 1)
    }
}

/// What `extract_op_return_data` returns for these outputs.
pub open spec fn op_return_data_of(outputs: Seq<TxOutView>) -> Result<Seq<u8>, Seq<char>> {
    match first_op_return(outputs, 0) {
        None => Err("no op_return data in this BTC tx"@),
        Some(i) => match op_return_payload(outputs[i].script_pubkey) {
            None => Err("malformed op_return data in this BTC tx"@),
            Some(data) => Ok(data),
        },
    }
}

/// The views of a result and of what it should be agree.
pub open spec fn same_bytes_result(got: Result<Vec<u8>, String>, want: Result<Seq<u8>, Seq<char>>) -> bool {
    match want {
        Ok(data) => got matches Ok(d) && d@ == data,
        Err(text) => got matches Err(e) && e@ == text,
    }
}

/// The data of the first null-data output of a transaction.
pub fn extract_op_return_data(tx: &Transaction) -> (data: Result<Vec<u8>, String>)
    ensures
        same_bytes_result(data, op_return_data_of(tx@.output)),
{
    let mut i: usize = 0;
    while i < tx.output.len()
        invariant
            i <= tx.output.len(),
            first_op_return(tx@.output, 0) == first_op_return(tx@.output, i as int),
        decreases tx.output.len() - i,
    {
        let script = &tx.output[i].script_pubkey;
        assert(tx@.output[i as int].script_pubkey == script@);
        if script.len() > 0 && script[0] == OP_RETURN {
            if script.len() < 2 {
                return Err("malformed op_return data in this BTC tx".to_owned());
            }
            let start: usize = if script[1] == OP_PUSHDATA1 {
                3
            } else {
                2
            };
            if script.len() < start {
                return Err("malformed op_return data in this BTC tx".to_owned());
            }
            let data = copy_range(script.as_slice(), start, script.len());
            assert(script@.subrange(start as int, script@.len() as int) =~= script@.skip(
                start as int,
            ));
            return Ok(data);
        }
        i += 1;
    }
    Err("no op_return data in this BTC tx".to_owned())
}

} // verus!
