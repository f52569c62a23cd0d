//! Base-128 variable-length integers, as the stored records frame their fields.

use vstd::prelude::*;

verus! {

/// The bytes of `n`: seven bits a byte, least significant group first, the high
/// bit set on every byte but the last.
pub open spec fn varint(n: nat) -> Seq<u8>
    decreases n,
{
    if n < 128 {
        seq![n as u8]
    } else {
        seq![(n % 128 + 128) as u8] + varint(n / 128)
    }
}

/// The integer that starts at `pos` in `b`, with the position after it. Only
/// the shortest spelling of a number is read: a group of zeros at the end is
/// `None`, as is input that ends inside the number.
pub open spec fn varint_at(b: Seq<u8>, pos: int) -> Option<(nat, int)>
    decreases b.len() - pos,
{
    if pos < 0 || pos >= b.len() {
        None
    } else if b[pos] < 128 {
        Some((b[pos] as nat, pos + 1))
    } else {
        match varint_at(b, pos + 1) {
            Some((v, end)) => if v > 0 {
                Some(((b[pos] - 128) as nat + 128 * v, end))
            } else {
                None
            },
            None => None,
        }
    }
}

/// What was written as `varint(n)` is read back as `n`.
pub proof fn lemma_varint_round_trip(before: Seq<u8>, n: nat, after: Seq<u8>)
    ensures
        varint_at(before + varint(n) + after, before.len() as int) == Some(
            (n, (before.len() + varint(n).len()) as int),
        ),
    decreases n,
{
    let b = before + varint(n) + after;
    let pos = before.len() as int;
    if n < 128 {
        assert(b[pos] == n as u8);
    } else {
        let first = (n % 128 + 128) as u8;
        assert(b[pos] == first);
        let before2 = before.push(first);
        lemma_varint_round_trip(before2, n / 128, after);
        assert(before2 + varint(n / 128) + after =~= b);
    }
}

/// What is read as a number was written as that number.
pub proof fn lemma_varint_spelling(b: Seq<u8>, pos: int)
    requires
        varint_at(b, pos) is Some,
    ensures
        b.subrange(pos, varint_at(b, pos)->Some_0.1) == varint(varint_at(b, pos)->Some_0.0),
    decreases b.len() - pos,
{
    lemma_varint_at_end(b, pos);
    let read = varint_at(b, pos)->Some_0;
    if b[pos] < 128 {
        assert(b.subrange(pos, pos + 1) =~= seq![b[pos]]);
    } else {
        lemma_varint_at_end(b, pos + 1);
        lemma_varint_spelling(b, pos + 1);
        let inner = varint_at(b, pos + 1)->Some_0;
        let v = read.0;
        assert(v == (b[pos] - 128) + 128 * inner.0);
        assert(v % 128 == b[pos] - 128 && v / 128 == inner.0);
        assert(b.subrange(pos, read.1) =~= seq![b[pos]] + b.subrange(pos + 1, inner.1));
    }
}

/// A number is read from within the input, and ends after it starts.
pub proof fn lemma_varint_at_end(b: Seq<u8>, pos: int)
    ensures
        varint_at(b, pos) matches Some((_, end)) ==> pos < end <= b.len(),
    decreases b.len() - pos,
{
    if 0 <= pos < b.len() && b[pos] >= 128 {
        lemma_varint_at_end(b, pos + 1);
    }
}

spec fn pow128(k: nat) -> nat
    decreases k,
{
    if k == 0 {
        1
    } else {
        128 * pow128((k - 1) as nat)
    }
}

/// After `k` bytes with the high bit set, the number read is at least `128^k`,
/// which from ten bytes on is past what 64 bits hold.
proof fn lemma_varint_long_bound(b: Seq<u8>, pos: int, k: nat)
    requires
        0 <= pos,
        k >= 1,
        pos + k <= b.len(),
        forall|i: int| pos <= i < pos + k ==> b[i] >= 128,
    ensures
        varint_at(b, pos) matches Some((v, _)) ==> v >= pow128(k),
        k >= 10 ==> pow128(k) > u64::MAX,
    decreases k,
{
    if k == 1 {
        assert(pow128(1) == 128) by {
            reveal_with_fuel(pow128, 2);
        }
    } else {
        lemma_varint_long_bound(b, pos + 1, (k - 1) as nat);
    }
    if k >= 10 {
        lemma_pow128_grows(10, k);
        assert(pow128(10) == 1180591620717411303424) by {
            reveal_with_fuel(pow128, 11);
        }
    }
}

proof fn lemma_pow128_grows(i: nat, j: nat)
    requires
        i <= j,
    ensures
        pow128(i) <= pow128(j),
        pow128(i) >= 1,
    decreases j,
{
    if i < j {
        lemma_pow128_grows(i, (j - 1) as nat);
    } else if i > 0 {
        lemma_pow128_grows((i - 1) as nat, (i - 1) as nat);
    }
}

/// Appends `varint(n)` to `out`.
pub fn put_varint(out: &mut Vec<u8>, n: u64)
    ensures
        final(out)@ == old(out)@ + varint(n as nat),
{
    let mut rest: u64 = n;
    while rest >= 128
        invariant
            out@ + varint(rest as nat) == old(out)@ + varint(n as nat),
        decreases rest,
    {
        let group: u8 = (rest % 128 + 128) as u8;
        proof {
            assert(out@.push(group) + varint((rest / 128) as nat) =~= out@ + varint(rest as nat));
        }
        out.push(group);
        rest = rest / 128;
    }
    proof {
        assert(out@.push(rest as u8) =~= out@ + varint(rest as nat));
    }
    out.push(rest as u8);
}

/// Reads the integer that starts at `pos`, where it fits in 64 bits.
pub fn take_varint(b: &[u8], pos: usize) -> (read: Option<(u64, usize)>)
    ensures
        read == match varint_at(b@, pos as int) {
            Some((v, end)) => if v <= u64::MAX {
                Some((v as u64, end as usize))
            } else {
                None
            },
            None => None,
        },
        read matches Some((_, end)) ==> pos < end <= b.len(),
{
    if pos > b.len() {
        return None;
    }
    let mut last: usize = pos;
    while last < b.len() && last - pos < 10 && b[last] >= 128
        invariant
            pos <= last <= b.len(),
            last - pos <= 10,
            forall|i: int| pos <= i < last ==> b@[i] >= 128,
        decreases b.len() - last,
    {
        last += 1;
    }
    if last >= b.len() {
        proof {
            lemma_varint_runs_out(b@, pos as int);
        }
        return None;
    }
    if last - pos >= 10 {
        proof {
            lemma_varint_long_bound(b@, pos as int, 10);
        }
        return None;
    }
    let mut value: u64 = b[last] as u64;
    let mut at: usize = last;
    proof {
        lemma_varint_at_end(b@, pos as int);
    }
    while at > pos
        invariant
            pos <= at <= last < b.len(),
            forall|i: int| pos <= i < last ==> b@[i] >= 128,
            varint_at(b@, at as int) == Some((value as nat, last + 1)),
        decreases at,
    {
        if value == 0 || value > (u64::MAX - 127) / 128 {
            proof {
                lemma_varint_outer(b@, pos as int, at as int);
            }
            return None;
        }
        at -= 1;
        value = (b[at] - 128) as u64 + 128 * value;
    }
    Some((value, last + 1))
}

/// Input whose bytes all have the high bit set from `pos` on holds no number there.
proof fn lemma_varint_runs_out(b: Seq<u8>, pos: int)
    requires
        0 <= pos <= b.len(),
        forall|i: int| pos <= i < b.len() ==> b[i] >= 128,
    ensures
        varint_at(b, pos) is None,
    decreases b.len() - pos,
{
    if pos < b.len() {
        lemma_varint_runs_out(b, pos + 1);
    }
}

/// Where the number read at `at` is zero or past what 64 bits hold after one
/// more group, nothing that fits in 64 bits is read further out at `pos`.
proof fn lemma_varint_outer(b: Seq<u8>, pos: int, at: int)
    requires
        0 <= pos < at < b.len(),
        forall|i: int| pos <= i < at ==> b[i] >= 128,
        varint_at(b, at) matches Some((v, _)) && (v == 0 || v > (u64::MAX - 127) / 128),
    ensures
        varint_at(b, pos) matches Some((v, _)) ==> v > u64::MAX,
    decreases at - pos,
{
    if pos + 1 < at {
        lemma_varint_outer(b, pos + 1, at);
    }
}

} // verus!
