//! Little-endian byte strings read as natural numbers.

use vstd::prelude::*;
use vstd::arithmetic::power::{pow, lemma_pow0, lemma_pow_positive};

verus! {

/// The natural number that `bytes` encodes, least significant byte first.
pub open spec fn le_value(bytes: Seq<u8>) -> nat
    decreases bytes.len(),
{
    if bytes.len() == 0 {
        0
    } else {
        bytes[0] as nat + 256 * le_value(bytes.skip(1))
    }
}

/// `256^(k + 1) == 256 * 256^k`, and the power is positive.
pub proof fn lemma_pow256_step(k: nat)
    ensures
        pow(256, k + 1) == 256 * pow(256, k),
        pow(256, k) > 0,
{
    reveal(pow);
    lemma_pow_positive(256, k);
}

/// One more byte adds that byte, weighted by its place.
pub proof fn lemma_le_value_extend(bytes: Seq<u8>, k: int)
    requires
        0 <= k < bytes.len(),
    ensures
        le_value(bytes.take(k + 1)) == le_value(bytes.take(k)) + bytes[k] * pow(256, k as nat),
    decreases k,
{
    if k == 0 {
        lemma_pow0(256);
        assert(bytes.take(1).skip(1) =~= Seq::<u8>::empty());
        assert(bytes.take(0) =~= Seq::<u8>::empty());
        assert(le_value(bytes.take(1)) == bytes[0] as nat + 256 * le_value(
            bytes.take(1).skip(1),
        ));
    } else {
        let rest = bytes.skip(1);
        lemma_le_value_extend(rest, k - 1);
        assert(bytes.take(k + 1).skip(1) =~= rest.take(k));
        assert(bytes.take(k).skip(1) =~= rest.take(k - 1));
        assert(rest[k - 1] == bytes[k]);
        lemma_pow256_step((k - 1) as nat);
        let p = pow(256, (k - 1) as nat);
        let b = bytes[k] as int;
        assert(256 * (b * p) == b * (256 * p)) by (nonlinear_arith);
    }
}

/// A byte string of length `n` encodes a number below `256^n`.
pub proof fn lemma_le_value_bound(bytes: Seq<u8>)
    ensures
        le_value(bytes) < pow(256, bytes.len()),
    decreases bytes.len(),
{
    if bytes.len() == 0 {
        lemma_pow0(256);
    } else {
        lemma_le_value_bound(bytes.skip(1));
        lemma_pow256_step((bytes.len() - 1) as nat);
    }
}

/// Byte strings of one length that encode the same number are the same.
pub proof fn lemma_le_value_injective(a: Seq<u8>, b: Seq<u8>)
    requires
        a.len() == b.len(),
        le_value(a) == le_value(b),
    ensures
        a == b,
    decreases a.len(),
{
    if a.len() > 0 {
        lemma_le_value_injective(a.skip(1), b.skip(1));
        assert(a =~= seq![a[0]] + a.skip(1));
        assert(b =~= seq![b[0]] + b.skip(1));
    }
    assert(a =~= b);
}

/// What is left of a byte string without its first bytes encodes no more
/// than the whole.
pub proof fn lemma_le_value_suffix(bytes: Seq<u8>, i: int)
    requires
        0 <= i <= bytes.len(),
    ensures
        le_value(bytes.skip(i)) <= le_value(bytes),
    decreases i,
{
    if i > 0 {
        lemma_le_value_suffix(bytes.skip(1), i - 1);
        assert(bytes.skip(1).skip(i - 1) =~= bytes.skip(i));
    } else {
        assert(bytes.skip(0) =~= bytes);
    }
}

/// The number that 32 bytes encode, where it is below `2^120`.
pub fn small_value(bytes: &[u8; 32]) -> (r: Option<u128>)
    ensures
        r is Some <==> le_value(bytes@) < 0x1000000000000000000000000000000,
        r is Some ==> r->Some_0 == le_value(bytes@),
{
    let mut acc: u128 = 0;
    let mut i: usize = 32;
    proof {
        assert(bytes@.skip(32) =~= Seq::<u8>::empty());
    }
    while i > 0
        invariant
            i <= 32,
            acc == le_value(bytes@.skip(i as int)),
            acc < 0x1000000000000000000000000000000,
        decreases i,
    {
        proof {
            let rest = bytes@.skip(i - 1);
            assert(rest.skip(1) =~= bytes@.skip(i as int));
            assert(rest[0] == bytes@[i - 1]);
            lemma_le_value_suffix(bytes@, i - 1);
        }
        if acc >= 0x10000000000000000000000000000 {
            return None;
        }
        i -= 1;
        acc = acc * 256 + bytes[i] as u128;
    }
    proof {
        assert(bytes@.skip(0) =~= bytes@);
    }
    Some(acc)
}

/// Copies a slice of 32 bytes into an array.
pub fn array_of_32(bytes: &[u8]) -> (r: [u8; 32])
    requires
        bytes@.len() == 32,
    ensures
        r@ == bytes@,
{
    let mut r = [0u8; 32];
    let mut i: usize = 0;
    while i < 32
        invariant
            i <= 32,
            bytes@.len() == 32,
            forall|j: int| 0 <= j < i ==> r@[j] == bytes@[j],
        decreases 32 - i,
    {
        r[i] = bytes[i];
        i += 1;
    }
    assert(r@ =~= bytes@);
    r
}

/// Copies a slice of bytes into a vector.
pub fn vec_of_bytes(bytes: &[u8]) -> (v: Vec<u8>)
    ensures
        v@ == bytes@,
{
    let mut v: Vec<u8> = Vec::new();
    let mut i: usize = 0;
    while i < bytes.len()
        invariant
            i <= bytes@.len(),
            v@.len() == i,
            forall|j: int| 0 <= j < i ==> v@[j] == bytes@[j],
        decreases bytes@.len() - i,
    {
        v.push(bytes[i]);
        i += 1;
    }
    assert(v@ =~= bytes@);
    v
}

/// Whether two byte strings are the same, byte for byte.
pub fn same_bytes(a: &[u8], b: &[u8]) -> (r: bool)
    ensures
        r == (a@ == b@),
{
    if a.len() != b.len() {
        return false;
    }
    let mut i: usize = 0;
    while i < a.len()
        invariant
            i <= a@.len(),
            a@.len() == b@.len(),
            forall|j: int| 0 <= j < i ==> a@[j] == b@[j],
        decreases a@.len() - i,
    {
        if a[i] != b[i] {
            return false;
        }
        i += 1;
    }
    assert(a@ =~= b@);
    true
}

/// Whether `a` comes before `b` in the order of dictionaries: at the first
/// place where they differ `a` has the smaller byte, or `a` ends there and `b`
/// goes on.
pub open spec fn comes_before(a: Seq<u8>, b: Seq<u8>) -> bool
    decreases a.len(),
{
    if b.len() == 0 {
        false
    } else if a.len() == 0 {
        true
    } else if a[0] != b[0] {
        a[0] < b[0]
    } else {
        comes_before(a.skip(1), b.skip(1))
    }
}

/// Orders two byte strings as dictionaries do: the result is below zero where
/// the first comes before the second, above zero where the second comes before
/// the first, and zero where they are the same.
pub fn order_of_bytes(a: &[u8], b: &[u8]) -> (r: i8)
    ensures
        -1 <= r <= 1,
        r < 0 <==> comes_before(a@, b@),
        r > 0 <==> comes_before(b@, a@),
        r == 0 <==> a@ == b@,
{
    let mut i: usize = 0;
    proof {
        assert(a@.skip(0) =~= a@);
        assert(b@.skip(0) =~= b@);
    }
    while i < a.len() && i < b.len()
        invariant
            i <= a@.len(),
            i <= b@.len(),
            forall|j: int| 0 <= j < i ==> a@[j] == b@[j],
            comes_before(a@, b@) == comes_before(a@.skip(i as int), b@.skip(i as int)),
            comes_before(b@, a@) == comes_before(b@.skip(i as int), a@.skip(i as int)),
        decreases a@.len() - i,
    {
        proof {
            assert(a@.skip(i as int)[0] == a@[i as int]);
            assert(b@.skip(i as int)[0] == b@[i as int]);
            assert(a@.skip(i as int).skip(1) =~= a@.skip(i + 1));
            assert(b@.skip(i as int).skip(1) =~= b@.skip(i + 1));
        }
        if a[i] < b[i] {
            return -1;
        }
        if a[i] > b[i] {
            return 1;
        }
        i += 1;
    }
    proof {
        if a@.len() == b@.len() {
            assert(a@ =~= b@);
        }
    }
    if a.len() < b.len() {
        -1
    } else if a.len() > b.len() {
        1
    } else {
        0
    }
}

} // verus!
