//! Byte strings read as numbers, and their comparison.

use vstd::prelude::*;
use vstd::arithmetic::power::pow;
use vstd::arithmetic::power::lemma_pow0;
use vstd::arithmetic::power::lemma_pow_multiplies;
use vstd::arithmetic::power2::pow2;
use vstd::arithmetic::power2::lemma_pow2;
use vstd::arithmetic::power2::lemma2_to64;

verus! {

/// The number that `s` spells when read most significant byte first.
pub open spec fn be_value(s: Seq<u8>) -> nat
    decreases s.len(),
{
    if s.len() == 0 {
        0
    } else {
        be_value(s.drop_last()) * 256 + s.last() as nat
    }
}

/// The number that `s` spells when read least significant byte first.
pub open spec fn le_value(s: Seq<u8>) -> nat
    decreases s.len(),
{
    if s.len() == 0 {
        0
    } else {
        s[0] as nat + 256 * le_value(s.drop_first())
    }
}

/// A byte string of length `n` spells a number below `256^n`.
pub proof fn lemma_be_value_bound(s: Seq<u8>)
    ensures
        be_value(s) < pow(256, s.len()),
    decreases s.len(),
{
    if s.len() == 0 {
        lemma_pow0(256);
    } else {
        lemma_be_value_bound(s.drop_last());
        let n = (s.len() - 1) as nat;
        assert(pow(256, s.len()) == 256 * pow(256, n)) by {
            reveal(pow);
        }
    }
}

/// A string of 32 bytes spells a number below `2^256`.
pub proof fn lemma_be_value_256(s: Seq<u8>)
    requires
        s.len() == 32,
    ensures
        be_value(s) < pow2(256),
{
    lemma_be_value_bound(s);
    lemma_pow2(256);
    lemma_pow2(8);
    lemma2_to64();
    lemma_pow_multiplies(2, 8, 32);
    assert(pow(2, 8) == 256);
    assert(pow(256, 32) == pow(2, 256));
}

/// Splits a big-endian number at its leading byte.
pub proof fn lemma_be_value_front(s: Seq<u8>)
    requires
        s.len() > 0,
    ensures
        be_value(s) == s[0] as nat * pow(256, (s.len() - 1) as nat) + be_value(s.drop_first()),
    decreases s.len(),
{
    if s.len() == 1 {
        lemma_pow0(256);
        assert(s.drop_last().len() == 0);
        assert(s.drop_first().len() == 0);
        assert(be_value(s.drop_last()) == 0);
        assert(be_value(s.drop_first()) == 0);
    } else {
        let init = s.drop_last();
        let n = (s.len() - 1) as nat;
        lemma_be_value_front(init);
        assert(init.drop_first() =~= s.drop_first().drop_last());
        assert(init[0] == s[0]);
        assert(s.drop_first().last() == s.last());
        let p = pow(256, (n - 1) as nat);
        assert(pow(256, n) == 256 * p) by {
            reveal(pow);
        }
        let a = s[0] as nat;
        let r = be_value(init.drop_first());
        assert(be_value(init) == a * p + r);
        assert(be_value(s.drop_first()) == r * 256 + s.last() as nat);
        assert((a * p + r) * 256 == a * (256 * p) + r * 256) by (nonlinear_arith);
    }
}

/// Two byte strings of one length are ordered as numbers by their first
/// differing byte.
pub proof fn lemma_be_value_order(a: Seq<u8>, b: Seq<u8>, i: int)
    requires
        a.len() == b.len(),
        0 <= i < a.len(),
        a.take(i) == b.take(i),
        a[i] < b[i],
    ensures
        be_value(a) < be_value(b),
    decreases i,
{
    let n = (a.len() - 1) as nat;
    lemma_be_value_front(a);
    lemma_be_value_front(b);
    if i == 0 {
        lemma_be_value_bound(a.drop_first());
        let p = pow(256, n);
        let x = a[0] as nat;
        let y = b[0] as nat;
        assert(x * p + p <= y * p) by (nonlinear_arith)
            requires
                x < y,
                p >= 0,
        ;
    } else {
        assert(a[0] == a.take(i)[0]);
        assert(b[0] == b.take(i)[0]);
        assert(a.drop_first().take(i - 1) =~= a.take(i).drop_first());
        assert(b.drop_first().take(i - 1) =~= b.take(i).drop_first());
        lemma_be_value_order(a.drop_first(), b.drop_first(), i - 1);
    }
}

/// Whether two byte strings hold the same bytes.
pub fn bytes_eq(a: &[u8], b: &[u8]) -> (same: bool)
    ensures
        same == (a@ == b@),
{
    if a.len() != b.len() {
        return false;
    }
    let mut i: usize = 0;
    while i < a.len()
        invariant
            a.len() == b.len(),
            i <= a.len(),
            a@.take(i as int) == b@.take(i as int),
        decreases a.len() - i,
    {
        if a[i] != b[i] {
            return false;
        }
        assert(a@.take(i + 1) =~= a@.take(i as int).push(a@[i as int]));
        assert(b@.take(i + 1) =~= b@.take(i as int).push(b@[i as int]));
        i += 1;
    }
    assert(a@ =~= a@.take(i as int));
    assert(b@ =~= b@.take(i as int));
    true
}

/// A copy of the bytes of `b` from `from` up to `to`.
pub(crate) fn copy_range(b: &[u8], from: usize, to: usize) -> (copy: Vec<u8>)
    requires
        from <= to <= b.len(),
    ensures
        copy@ == b@.subrange(from as int, to as int),
{
    let mut copy: Vec<u8> = Vec::new();
    let mut i: usize = from;
    while i < to
        invariant
            from <= i <= to <= b.len(),
            copy@ == b@.subrange(from as int, i as int),
        decreases to - i,
    {
        copy.push(b[i]);
        assert(b@.subrange(from as int, i + 1) =~= b@.subrange(from as int, i as int).push(
            b@[i as int],
        ));
        i += 1;
    }
    copy
}

/// A copy of the bytes of `b`.
pub fn copy_bytes(b: &[u8]) -> (copy: Vec<u8>)
    ensures
        copy@ == b@,
{
    let copy = copy_range(b, 0, b.len());
    assert(b@.subrange(0, b.len() as int) =~= b@);
    copy
}

/// Whether the 256-bit number `a` is at most the 256-bit number `b`, both
/// most significant byte first.
pub fn be_le(a: &[u8; 32], b: &[u8; 32]) -> (le: bool)
    ensures
        le == (be_value(a@) <= be_value(b@)),
{
    let mut i: usize = 0;
    while i < a.len()
        invariant
            a.len() == b.len(),
            i <= a.len(),
            a@.take(i as int) == b@.take(i as int),
        decreases a.len() - i,
    {
        if a[i] < b[i] {
            proof {
                lemma_be_value_order(a@, b@, i as int);
            }
            return true;
        }
        if a[i] > b[i] {
            proof {
                lemma_be_value_order(b@, a@, i as int);
            }
            return false;
        }
        assert(a@.take(i + 1) =~= a@.take(i as int).push(a@[i as int]));
        assert(b@.take(i + 1) =~= b@.take(i as int).push(b@[i as int]));
        i += 1;
    }
    assert(a@ =~= a@.take(i as int));
    assert(b@ =~= b@.take(i as int));
    true
}

} // verus!
