//! The errors of the header chain.

use vstd::prelude::*;
use crate::bytes::be_value;

verus! {

/// Why an operation on the header chain failed.
#[derive(Clone, Debug, PartialEq, Eq)]
pub enum BTCLightclientError {
    /// The record that the operation starts from was never written.
    NotInitialized,
    /// The base or tip record does not hold a persisted header.
    DecodeError,
    /// The chain is initialised already, or too few headers were given to
    /// initialise it.
    InitError,
    /// The 80 bytes of a header, or the record stored under a hash, could not
    /// be decoded.
    BTCHeaderDecodeError,
    /// A header does not carry its own hash, does not follow its parent,
    /// fails its proof of work, is not one higher than its parent, or has
    /// another accumulated work than that of its parent and its own together.
    BTCHeaderError,
    /// No header was given.
    BTCHeaderEmpty,
    /// No header is stored under the hash, given here in hexadecimal.
    BTCHeaderNotFoundError { hash: String },
    /// The accumulated work of a header is not a number.
    WorkError,
    /// A fork whose accumulated work, the first number, is not above that of
    /// the current tip, the second; both most significant byte first.
    BTCChainWithNotEnoughWork([u8; 32], [u8; 32]),
}

/// A `BTCLightclientError` as plain values.
pub enum ErrorView {
    NotInitialized,
    DecodeError,
    InitError,
    BTCHeaderDecodeError,
    BTCHeaderError,
    BTCHeaderEmpty,
    BTCHeaderNotFoundError { hash: Seq<char> },
    WorkError,
    BTCChainWithNotEnoughWork(nat, nat),
}

impl View for BTCLightclientError {
    type V = ErrorView;

    open spec fn view(&self) -> ErrorView {
        match self {
            BTCLightclientError::NotInitialized => ErrorView::NotInitialized,
            BTCLightclientError::DecodeError => ErrorView::DecodeError,
            BTCLightclientError::InitError => ErrorView::InitError,
            BTCLightclientError::BTCHeaderDecodeError => ErrorView::BTCHeaderDecodeError,
            BTCLightclientError::BTCHeaderError => ErrorView::BTCHeaderError,
            BTCLightclientError::BTCHeaderEmpty => ErrorView::BTCHeaderEmpty,
            BTCLightclientError::BTCHeaderNotFoundError { hash } => ErrorView::BTCHeaderNotFoundError {
                hash: hash@,
            },
            BTCLightclientError::WorkError => ErrorView::WorkError,
            BTCLightclientError::BTCChainWithNotEnoughWork(new, cur) => ErrorView::BTCChainWithNotEnoughWork(
                be_value(new@),
                be_value(cur@),
            ),
        }
    }
}

/// The digit for a number below sixteen.
pub open spec fn hex_digit(n: u8) -> char {
    if n < 10 {
        (48 + n) as char
    } else {
        (87 + n) as char
    }
}

/// The bytes in hexadecimal: two lower-case digits a byte, the high half first.
pub open spec fn hex_text(bytes: Seq<u8>) -> Seq<char> {
    Seq::new(
        2 * bytes.len(),
        |i: int|
            if i % 2 == 0 {
                hex_digit(bytes[i / 2] / 16)
            } else {
                hex_digit(bytes[i / 2] % 16)
            },
    )
}

/// `hex::encode`: the bytes in hexadecimal, two lower-case digits a byte.
#[verifier::external_body]
pub(crate) fn hex_encode(bytes: &[u8]) -> (text: String)
    ensures
        text@ == hex_text(bytes@),
{
    hex::encode(bytes)
}

} // verus!
