//! A stored header with its derived data, and the bytes it is persisted as.

use vstd::prelude::*;
use crate::bytes::copy_bytes;
use crate::bytes::copy_range;
use crate::wire::varint;
use crate::wire::varint_at;
use crate::wire::put_varint;
use crate::wire::take_varint;
use crate::wire::lemma_varint_round_trip;
use crate::wire::lemma_varint_at_end;
use crate::wire::lemma_varint_spelling;

verus! {

/// A Bitcoin header as the chain keeps it.
#[derive(Clone, Debug, PartialEq, Eq)]
pub struct HeaderInfo {
    /// The 80 bytes of the header.
    pub header: Vec<u8>,
    /// The block hash, in the byte order in which a child header names its parent.
    pub hash: Vec<u8>,
    /// The height in the chain.
    pub height: u64,
    /// The work accumulated from the base header up to this one, in decimal digits.
    pub work: Vec<u8>,
}

/// A `HeaderInfo` as plain values.
pub struct HeaderInfoView {
    pub header: Seq<u8>,
    pub hash: Seq<u8>,
    pub height: u64,
    pub work: Seq<u8>,
}

impl View for HeaderInfo {
    type V = HeaderInfoView;

    open spec fn view(&self) -> HeaderInfoView {
        HeaderInfoView {
            header: self.header@,
            hash: self.hash@,
            height: self.height,
            work: self.work@,
        }
    }
}

/// The views of a run of headers.
pub open spec fn views(headers: Seq<HeaderInfo>) -> Seq<HeaderInfoView> {
    headers.map_values(|h: HeaderInfo| h@)
}

pub const KEY_HEADER: u8 = 0x0a;

pub const KEY_HASH: u8 = 0x12;

pub const KEY_HEIGHT: u8 = 0x18;

pub const KEY_WORK: u8 = 0x22;

/// A field of bytes: nothing where `data` is empty, else the key, the length
/// and the bytes.
pub open spec fn bytes_field(key: u8, data: Seq<u8>) -> Seq<u8> {
    if data.len() == 0 {
        Seq::empty()
    } else {
        seq![key] + varint(data.len()) + data
    }
}

/// A field holding a number: nothing where it is zero, else the key and the number.
pub open spec fn uint_field(key: u8, value: u64) -> Seq<u8> {
    if value == 0 {
        Seq::empty()
    } else {
        seq![key] + varint(value as nat)
    }
}

/// The bytes a header is persisted as: its four fields in order, each left
/// out where it is empty or zero.
pub open spec fn encoded(info: HeaderInfoView) -> Seq<u8> {
    bytes_field(KEY_HEADER, info.header) + bytes_field(KEY_HASH, info.hash) + uint_field(
        KEY_HEIGHT,
        info.height,
    ) + bytes_field(KEY_WORK, info.work)
}

/// The field of bytes with this key at `pos`, and the position after it. A
/// field that is not there reads as empty; one that is there and empty, or
/// runs past the input, is `None`.
pub open spec fn bytes_field_at(b: Seq<u8>, pos: int, key: u8) -> Option<(Seq<u8>, int)> {
    if 0 <= pos < b.len() && b[pos] == key {
        match varint_at(b, pos + 1) {
            Some((len, start)) => if 0 < len && start + len <= b.len() {
                Some((b.subrange(start, start + len), start + len))
            } else {
                None
            },
            None => None,
        }
    } else {
        Some((Seq::empty(), pos))
    }
}

/// The number with this key at `pos`, and the position after it. A field that
/// is not there reads as zero; one that is there and zero, or past 64 bits, is
/// `None`.
pub open spec fn uint_field_at(b: Seq<u8>, pos: int, key: u8) -> Option<(u64, int)> {
    if 0 <= pos < b.len() && b[pos] == key {
        match varint_at(b, pos + 1) {
            Some((value, end)) => if 0 < value <= u64::MAX {
                Some((value as u64, end))
            } else {
                None
            },
            None => None,
        }
    } else {
        Some((0u64, pos))
    }
}

/// The header that `b` is the persisted form of; `None` where `b` is not the
/// four fields in order, each in its one spelling, and nothing after them.
pub open spec fn decoded(b: Seq<u8>) -> Option<HeaderInfoView> {
    match bytes_field_at(b, 0, KEY_HEADER) {
        Some((header, end_header)) => match bytes_field_at(b, end_header, KEY_HASH) {
            Some((hash, end_hash)) => match uint_field_at(b, end_hash, KEY_HEIGHT) {
                Some((height, end_height)) => match bytes_field_at(b, end_height, KEY_WORK) {
                    Some((work, end_work)) => if end_work == b.len() {
                        Some(HeaderInfoView { header, hash, height, work })
                    } else {
                        None
                    },
                    None => None,
                },
                None => None,
            },
            None => None,
        },
        None => None,
    }
}

/// Whether `after` does not begin with `key`.
pub open spec fn no_key_ahead(after: Seq<u8>, key: u8) -> bool {
    after.len() == 0 || after[0] != key
}

proof fn lemma_bytes_field_round_trip(before: Seq<u8>, key: u8, data: Seq<u8>, after: Seq<u8>)
    requires
        no_key_ahead(after, key),
    ensures
        bytes_field_at(before + bytes_field(key, data) + after, before.len() as int, key) == Some(
            (data, (before.len() + bytes_field(key, data).len()) as int),
        ),
{
    let b = before + bytes_field(key, data) + after;
    let pos = before.len() as int;
    if data.len() == 0 {
        assert(b =~= before + after);
    } else {
        let n = data.len();
        lemma_varint_round_trip(before.push(key), n, data + after);
        assert(before.push(key) + varint(n) + (data + after) =~= b);
        let start = pos + 1 + varint(n).len();
        assert(b.subrange(start, start + n) =~= data);
    }
}

proof fn lemma_uint_field_round_trip(before: Seq<u8>, key: u8, value: u64, after: Seq<u8>)
    requires
        no_key_ahead(after, key),
    ensures
        uint_field_at(before + uint_field(key, value) + after, before.len() as int, key) == Some(
            (value, (before.len() + uint_field(key, value).len()) as int),
        ),
{
    let b = before + uint_field(key, value) + after;
    if value == 0 {
        assert(b =~= before + after);
    } else {
        lemma_varint_round_trip(before.push(key), value as nat, after);
        assert(before.push(key) + varint(value as nat) + after =~= b);
    }
}

/// A field begins with its key, where it is there at all.
proof fn lemma_field_starts(key: u8, data: Seq<u8>, value: u64)
    ensures
        bytes_field(key, data).len() > 0 ==> bytes_field(key, data)[0] == key,
        uint_field(key, value).len() > 0 ==> uint_field(key, value)[0] == key,
{
}

/// What was persisted is read back as it was.
pub proof fn lemma_decoded_encoded(info: HeaderInfoView)
    ensures
        decoded(encoded(info)) == Some(info),
{
    let f1 = bytes_field(KEY_HEADER, info.header);
    let f2 = bytes_field(KEY_HASH, info.hash);
    let f3 = uint_field(KEY_HEIGHT, info.height);
    let f4 = bytes_field(KEY_WORK, info.work);
    let b = encoded(info);
    let e = Seq::<u8>::empty();
    lemma_field_starts(KEY_HASH, info.hash, 0);
    lemma_field_starts(KEY_HEIGHT, e, info.height);
    lemma_field_starts(KEY_WORK, info.work, 0);
    assert(no_key_ahead(f2 + f3 + f4, KEY_HEADER));
    assert(no_key_ahead(f3 + f4, KEY_HASH));
    assert(no_key_ahead(f4, KEY_HEIGHT));
    lemma_bytes_field_round_trip(e, KEY_HEADER, info.header, f2 + f3 + f4);
    assert(e + f1 + (f2 + f3 + f4) =~= b);
    lemma_bytes_field_round_trip(f1, KEY_HASH, info.hash, f3 + f4);
    assert(f1 + f2 + (f3 + f4) =~= b);
    lemma_uint_field_round_trip(f1 + f2, KEY_HEIGHT, info.height, f4);
    assert(f1 + f2 + f3 + f4 =~= b);
    lemma_bytes_field_round_trip(f1 + f2 + f3, KEY_WORK, info.work, e);
    assert(f1 + f2 + f3 + f4 + e =~= b);
}

proof fn lemma_bytes_field_spelling(b: Seq<u8>, pos: int, key: u8)
    requires
        0 <= pos <= b.len(),
        bytes_field_at(b, pos, key) is Some,
    ensures
        pos <= bytes_field_at(b, pos, key)->Some_0.1 <= b.len(),
        b.subrange(pos, bytes_field_at(b, pos, key)->Some_0.1) == bytes_field(
            key,
            bytes_field_at(b, pos, key)->Some_0.0,
        ),
{
    let read = bytes_field_at(b, pos, key)->Some_0;
    if pos < b.len() && b[pos] == key {
        lemma_varint_at_end(b, pos + 1);
        lemma_varint_spelling(b, pos + 1);
        let len = varint_at(b, pos + 1)->Some_0;
        assert(b.subrange(pos, read.1) =~= seq![key] + b.subrange(pos + 1, len.1) + read.0);
    } else {
        assert(b.subrange(pos, pos) =~= Seq::<u8>::empty());
    }
}

proof fn lemma_uint_field_spelling(b: Seq<u8>, pos: int, key: u8)
    requires
        0 <= pos <= b.len(),
        uint_field_at(b, pos, key) is Some,
    ensures
        pos <= uint_field_at(b, pos, key)->Some_0.1 <= b.len(),
        b.subrange(pos, uint_field_at(b, pos, key)->Some_0.1) == uint_field(
            key,
            uint_field_at(b, pos, key)->Some_0.0,
        ),
{
    let read = uint_field_at(b, pos, key)->Some_0;
    if pos < b.len() && b[pos] == key {
        lemma_varint_at_end(b, pos + 1);
        lemma_varint_spelling(b, pos + 1);
        let value = varint_at(b, pos + 1)->Some_0;
        assert(b.subrange(pos, read.1) =~= seq![key] + b.subrange(pos + 1, value.1));
    } else {
        assert(b.subrange(pos, pos) =~= Seq::<u8>::empty());
    }
}

/// What is read as a header was persisted from that header: no other bytes
/// are read as it.
pub proof fn lemma_encoded_decoded(b: Seq<u8>)
    requires
        decoded(b) is Some,
    ensures
        encoded(decoded(b)->Some_0) == b,
{
    lemma_bytes_field_spelling(b, 0, KEY_HEADER);
    let end_header = bytes_field_at(b, 0, KEY_HEADER)->Some_0.1;
    lemma_bytes_field_spelling(b, end_header, KEY_HASH);
    let end_hash = bytes_field_at(b, end_header, KEY_HASH)->Some_0.1;
    lemma_uint_field_spelling(b, end_hash, KEY_HEIGHT);
    let end_height = uint_field_at(b, end_hash, KEY_HEIGHT)->Some_0.1;
    lemma_bytes_field_spelling(b, end_height, KEY_WORK);
    assert(b =~= b.subrange(0, end_header) + b.subrange(end_header, end_hash) + b.subrange(
        end_hash,
        end_height,
    ) + b.subrange(end_height, b.len() as int));
}

fn put_bytes_field(out: &mut Vec<u8>, key: u8, data: &Vec<u8>)
    ensures
        final(out)@ == old(out)@ + bytes_field(key, data@),
{
    if data.len() > 0 {
        out.push(key);
        put_varint(out, data.len() as u64);
        out.extend_from_slice(data.as_slice());
        assert(out@ =~= old(out)@ + bytes_field(key, data@));
    } else {
        assert(out@ =~= old(out)@ + bytes_field(key, data@));
    }
}

fn put_uint_field(out: &mut Vec<u8>, key: u8, value: u64)
    ensures
        final(out)@ == old(out)@ + uint_field(key, value),
{
    if value > 0 {
        out.push(key);
        put_varint(out, value);
        assert(out@ =~= old(out)@ + uint_field(key, value));
    } else {
        assert(out@ =~= old(out)@ + uint_field(key, value));
    }
}

fn take_bytes_field(b: &[u8], pos: usize, key: u8) -> (read: Option<(Vec<u8>, usize)>)
    requires
        pos <= b.len(),
    ensures
        match bytes_field_at(b@, pos as int, key) {
            Some((data, end)) => read matches Some((d, e)) && d@ == data && e == end && pos <= e
                <= b.len(),
            None => read is None,
        },
{
    if pos < b.len() && b[pos] == key {
        proof {
            lemma_varint_at_end(b@, pos + 1);
        }
        match take_varint(b, pos + 1) {
            Some((len, start)) => {
                if len == 0 || len > (b.len() - start) as u64 {
                    None
                } else {
                    let end: usize = start + len as usize;
                    Some((copy_range(b, start, end), end))
                }
            },
            None => None,
        }
    } else {
        let nothing: Vec<u8> = Vec::new();
        assert(nothing@ =~= Seq::<u8>::empty());
        Some((nothing, pos))
    }
}

fn take_uint_field(b: &[u8], pos: usize, key: u8) -> (read: Option<(u64, usize)>)
    requires
        pos <= b.len(),
    ensures
        match uint_field_at(b@, pos as int, key) {
            Some((value, end)) => read == Some((value, end as usize)) && pos <= end <= b.len(),
            None => read is None,
        },
{
    if pos < b.len() && b[pos] == key {
        proof {
            lemma_varint_at_end(b@, pos + 1);
        }
        match take_varint(b, pos + 1) {
            Some((value, end)) => if value == 0 {
                None
            } else {
                Some((value, end))
            },
            None => None,
        }
    } else {
        Some((0, pos))
    }
}

/// The view of what was decoded, if anything was.
pub open spec fn view_of(info: Option<HeaderInfo>) -> Option<HeaderInfoView> {
    match info {
        Some(i) => Some(i@),
        None => None,
    }
}

impl HeaderInfo {
    /// A copy of this header.
    pub fn copy(&self) -> (same: HeaderInfo)
        ensures
            same@ == self@,
    {
        HeaderInfo {
            header: copy_bytes(self.header.as_slice()),
            hash: copy_bytes(self.hash.as_slice()),
            height: self.height,
            work: copy_bytes(self.work.as_slice()),
        }
    }

    /// The bytes this header is persisted as.
    pub fn encode(&self) -> (bytes: Vec<u8>)
        ensures
            bytes@ == encoded(self@),
            decoded(bytes@) == Some(self@),
    {
        proof {
            lemma_decoded_encoded(self@);
        }
        let mut out: Vec<u8> = Vec::new();
        put_bytes_field(&mut out, KEY_HEADER, &self.header);
        put_bytes_field(&mut out, KEY_HASH, &self.hash);
        put_uint_field(&mut out, KEY_HEIGHT, self.height);
        put_bytes_field(&mut out, KEY_WORK, &self.work);
        assert(out@ =~= encoded(self@));
        out
    }

    /// The header that `bytes` is the persisted form of, if it is one.
    pub fn decode(bytes: &[u8]) -> (info: Option<HeaderInfo>)
        ensures
            view_of(info) == decoded(bytes@),
            info matches Some(i) ==> encoded(i@) == bytes@,
    {
        proof {
            if decoded(bytes@) is Some {
                lemma_encoded_decoded(bytes@);
            }
        }
        let (header, end_header) = match take_bytes_field(bytes, 0, KEY_HEADER) {
            Some(read) => read,
            None => { return None; },
        };
        let (hash, end_hash) = match take_bytes_field(bytes, end_header, KEY_HASH) {
            Some(read) => read,
            None => { return None; },
        };
        let (height, end_height) = match take_uint_field(bytes, end_hash, KEY_HEIGHT) {
            Some(read) => read,
            None => { return None; },
        };
        let (work, end_work) = match take_bytes_field(bytes, end_height, KEY_WORK) {
            Some(read) => read,
            None => { return None; },
        };
        if end_work != bytes.len() {
            return None;
        }
        Some(HeaderInfo { header, hash, height, work })
    }
}

} // verus!
