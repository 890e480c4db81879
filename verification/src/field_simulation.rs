//! Integers of up to 258 bits held as six limbs of 43 bits, each limb an
//! element of the scalar field of BLS12-381: the form in which a scalar of the
//! Ristretto group is reckoned with inside a constraint system over that field.

use vstd::prelude::*;
use vstd::arithmetic::div_mod::lemma_small_mod;
use vstd::arithmetic::power::{pow, lemma_pow_multiplies};
use vstd::arithmetic::power2::{pow2, lemma2_to64, lemma2_to64_rest, lemma_pow2, lemma_pow2_adds};
use crate::bigint::{big_add, big_shl};
use crate::bls12_381::{bls_scalar_order, BLSScalar};
use crate::bytes::le_value;
use crate::errors::ZeiError;
use crate::groups::Scalar;
use crate::radix::{
    digit_of, digits_in_range, ints_of_nat, ints_of_u64, lemma_digits_are_digits,
    lemma_radix_value_bound, lemma_radix_value_split, lemma_radix_value_zero, radix_value,
    windows_of_bytes,
};
use crate::rescue::values_of;
use crate::ristretto::ristretto_order;

verus! {

/// The number of limbs of a simulated field element.
pub const NUM_OF_LIMBS: usize = 6;

/// The number of bits of a limb.
pub const BIT_PER_LIMB: usize = 43;

/// The number of limbs of a product of two simulated field elements.
pub const NUM_OF_LIMBS_MUL: usize = 11;

/// The radix of the limbs, `2^43`.
pub open spec fn limb_radix() -> nat {
    8796093022208nat
}

/// The number that limbs stand for: limb `i` weighs `2^(43 i)`.
pub open spec fn limbs_value(limbs: Seq<nat>) -> nat {
    radix_value(ints_of_nat(limbs), limb_radix() as int, 0) as nat
}

/// The six limbs of the number `n`: its digits in radix `2^43`.
pub open spec fn limbs_of(n: nat) -> Seq<nat> {
    Seq::new(NUM_OF_LIMBS as nat, |i: int| digit_of(n, limb_radix(), i as nat))
}

/// The limbs hold two bits more than the order of the Ristretto group has:
/// the order has 253 bits, the limbs hold 258.
pub proof fn lemma_limbs_hold_the_order()
    ensures
        pow2(252) <= ristretto_order() < pow2(253),
        NUM_OF_LIMBS * BIT_PER_LIMB >= 253 + 2,
        limb_radix() == pow2(BIT_PER_LIMB as nat),
        pow(limb_radix() as int, NUM_OF_LIMBS as nat) == pow2(258),
{
    lemma_pow2_values();
}

/// The powers of two that the limbs are measured by.
pub proof fn lemma_pow2_values()
    ensures
        pow2(43) == 8796093022208,
        pow2(64) == 0x10000000000000000,
        pow2(128) == 0x100000000000000000000000000000000,
        pow2(252) == 0x1000000000000000000000000000000000000000000000000000000000000000,
        pow2(253) == 0x2000000000000000000000000000000000000000000000000000000000000000,
        pow2(258) == 0x40000000000000000000000000000000000000000000000000000000000000000,
        pow(limb_radix() as int, 6) == pow2(258),
{
    lemma2_to64();
    lemma2_to64_rest();
    lemma_pow2_adds(64, 64);
    lemma_pow2_adds(128, 64);
    lemma_pow2_adds(192, 60);
    lemma_pow2_adds(252, 1);
    lemma_pow2_adds(252, 6);
    assert(pow2(128) == 0x100000000000000000000000000000000) by (nonlinear_arith)
        requires
            pow2(64) == 0x10000000000000000,
            pow2(128) == pow2(64) * pow2(64),
    ;
    assert(pow2(192) == 0x1000000000000000000000000000000000000000000000000) by (nonlinear_arith)
        requires
            pow2(64) == 0x10000000000000000,
            pow2(128) == 0x100000000000000000000000000000000,
            pow2(192) == pow2(128) * pow2(64),
    ;
    assert(pow2(252) == 0x1000000000000000000000000000000000000000000000000000000000000000)
        by (nonlinear_arith)
        requires
            pow2(60) == 0x1000000000000000,
            pow2(192) == 0x1000000000000000000000000000000000000000000000000,
            pow2(252) == pow2(192) * pow2(60),
    ;
    lemma_pow2(43);
    lemma_pow2(258);
    lemma_pow_multiplies(2, 43, 6);
}

/// An integer of up to 258 bits in limbs.
#[derive(Clone, Copy, Debug, PartialEq, Eq)]
pub struct SimFr {
    /// The limbs, the lowest first.
    pub limbs: [BLSScalar; NUM_OF_LIMBS],
}

impl SimFr {
    /// The integers that the limbs stand for.
    pub open spec fn limb_values(&self) -> Seq<nat> {
        values_of(self.limbs@)
    }

    /// The integer that the limbs stand for together.
    pub open spec fn value(&self) -> nat {
        limbs_value(self.limb_values())
    }

    /// Whether every limb is below `2^43`.
    pub open spec fn is_normal(&self) -> bool {
        forall|i: int| 0 <= i < NUM_OF_LIMBS ==> (#[trigger] self.limb_values()[i]) < limb_radix()
    }

    /// The limbs of the number that `bytes` encodes, least significant byte
    /// first. A number of more than 258 bits has no limbs.
    pub fn from_biguint(bytes: &[u8]) -> (r: Result<SimFr, ZeiError>)
        ensures
            r is Ok <==> le_value(bytes@) < pow2(258),
            r is Ok ==> r->Ok_0.is_normal() && r->Ok_0.value() == le_value(bytes@) && forall|
                i: int,
            |
                0 <= i < NUM_OF_LIMBS ==> (#[trigger] r->Ok_0.limb_values()[i]) == digit_of(
                    le_value(bytes@),
                    limb_radix(),
                    i as nat,
                ),
            r is Err ==> r->Err_0 == ZeiError::DeserializationError,
    {
        let windows = windows_of_bytes(bytes, BIT_PER_LIMB);
        let ghost n = le_value(bytes@);
        let ghost digits = ints_of_u64(windows@);
        let ghost radix = limb_radix() as int;
        proof {
            lemma_pow2_values();
            assert(digits_in_range(digits, radix));
            lemma_radix_value_bound(digits, radix, 0);
        }
        let mut j: usize = NUM_OF_LIMBS;
        while j < windows.len()
            invariant
                NUM_OF_LIMBS <= j,
                j <= windows@.len() || windows@.len() < NUM_OF_LIMBS,
                forall|k: int| NUM_OF_LIMBS <= k < j && k < windows@.len() ==> windows@[k] == 0,
                digits == ints_of_u64(windows@),
                radix == limb_radix(),
                digits_in_range(digits, radix),
                n == radix_value(digits, radix, 0),
                n == le_value(bytes@),
            decreases windows@.len() - j,
        {
            if windows[j] != 0 {
                proof {
                    lemma_pow2_values();
                    lemma_radix_value_split(digits, radix, NUM_OF_LIMBS as int, 0);
                    lemma_radix_value_zero(digits, radix, NUM_OF_LIMBS as int);
                    lemma_radix_value_bound(digits, radix, NUM_OF_LIMBS as int);
                    lemma_radix_value_bound(digits.take(NUM_OF_LIMBS as int), radix, 0);
                    assert(digits[j as int] != 0);
                    let tail = radix_value(digits, radix, NUM_OF_LIMBS as int);
                    let head = radix_value(digits.take(NUM_OF_LIMBS as int), radix, 0);
                    let p = pow(radix, 6);
                    assert(tail >= 1);
                    assert(head + p * tail >= p) by (nonlinear_arith)
                        requires
                            tail >= 1,
                            head >= 0,
                            p > 0,
                    ;
                }
                return Err(ZeiError::DeserializationError);
            }
            j += 1;
        }
        let zero = BLSScalar::zero();
        let mut limbs = [zero, zero, zero, zero, zero, zero];
        let mut i: usize = 0;
        while i < NUM_OF_LIMBS
            invariant
                i <= NUM_OF_LIMBS,
                digits == ints_of_u64(windows@),
                radix == limb_radix(),
                digits_in_range(digits, radix),
                forall|k: int|
                    0 <= k < i ==> (#[trigger] limbs@[k]).value() == (if k < windows@.len() {
                        windows@[k] as nat
                    } else {
                        0nat
                    }),
                forall|k: int| i <= k < NUM_OF_LIMBS ==> (#[trigger] limbs@[k]).value() == 0,
            decreases NUM_OF_LIMBS - i,
        {
            if i < windows.len() {
                proof {
                    assert(0 <= digits[i as int] < radix);
                    lemma_small_mod(windows@[i as int] as nat, bls_scalar_order());
                }
                limbs[i] = BLSScalar::from_u64(windows[i]);
            }
            i += 1;
        }
        let r = SimFr { limbs };
        proof {
            let got = ints_of_nat(r.limb_values());
            assert forall|k: int| 0 <= k < NUM_OF_LIMBS implies (#[trigger] r.limb_values()[k])
                == digit_of(n, limb_radix(), k as nat) && r.limb_values()[k] < limb_radix() by {
                lemma_digits_are_digits(digits, radix, 0, k as nat);
                if k < windows@.len() {
                    assert(0 <= digits[k] < radix);
                }
            }
            if windows@.len() <= NUM_OF_LIMBS {
                lemma_values_padded(digits, got, radix, 0);
                lemma_radix_value_bound(got, radix, 0);
            } else {
                lemma_radix_value_split(digits, radix, NUM_OF_LIMBS as int, 0);
                lemma_radix_value_zero(digits, radix, NUM_OF_LIMBS as int);
                assert(digits.take(NUM_OF_LIMBS as int) =~= got);
                lemma_radix_value_bound(got, radix, 0);
            }
        }
        Ok(r)
    }

    /// The little-endian bytes of the number that the limbs stand for.
    pub fn to_biguint(&self) -> (bytes: Vec<u8>)
        ensures
            le_value(bytes@) == self.value(),
    {
        let ghost limbs = ints_of_nat(self.limb_values());
        let ghost radix = limb_radix() as int;
        let mut acc: Vec<u8> = Vec::new();
        let mut i: usize = NUM_OF_LIMBS;
        proof {
            lemma_pow2_values();
            assert(le_value(acc@) == 0);
            assert(radix_value(limbs, radix, 6) == 0);
        }
        while i > 0
            invariant
                i <= NUM_OF_LIMBS,
                limbs == ints_of_nat(self.limb_values()),
                radix == limb_radix(),
                radix == pow2(43),
                le_value(acc@) == radix_value(limbs, radix, i as int),
            decreases i,
        {
            i -= 1;
            let shifted = big_shl(acc.as_slice(), BIT_PER_LIMB);
            let limb = self.limbs[i].as_bytes();
            acc = big_add(&limb, shifted.as_slice());
            proof {
                assert(limbs[i as int] == self.limbs@[i as int].value());
                assert(le_value(shifted@) == radix * radix_value(limbs, radix, i + 1))
                    by (nonlinear_arith)
                    requires
                        le_value(shifted@) == radix_value(limbs, radix, i + 1) * pow2(43),
                        radix == pow2(43),
                ;
            }
        }
        acc
    }
}

/// The limbs of a scalar of the Ristretto group.
pub fn sim_fr_of_scalar(s: &crate::ristretto::RistrettoScalar) -> (r: SimFr)
    ensures
        r.is_normal(),
        r.value() == s.value(),
        r.limb_values() == limbs_of(s.value()),
{
    let bytes = s.as_bytes();
    proof {
        lemma_pow2_values();
    }
    match SimFr::from_biguint(&bytes) {
        Ok(r) => {
            proof {
                assert(r.limb_values() =~= limbs_of(s.value()));
            }
            r
        },
        Err(_) => {
            let zero = BLSScalar::zero();
            SimFr { limbs: [zero, zero, zero, zero, zero, zero] }
        },
    }
}

/// Digits followed by zeros stand for the same number.
pub proof fn lemma_values_padded(digits: Seq<int>, padded: Seq<int>, radix: int, from: int)
    requires
        digits.len() <= padded.len(),
        0 <= from,
        forall|k: int| 0 <= k < digits.len() ==> digits[k] == padded[k],
        forall|k: int| digits.len() <= k < padded.len() ==> padded[k] == 0,
    ensures
        radix_value(digits, radix, from) == radix_value(padded, radix, from),
    decreases padded.len() - from,
{
    if from < padded.len() {
        lemma_values_padded(digits, padded, radix, from + 1);
        if from >= digits.len() {
            assert(radix_value(digits, radix, from + 1) == 0);
            assert(radix * radix_value(padded, radix, from + 1) == 0) by (nonlinear_arith)
                requires
                    radix_value(padded, radix, from + 1) == 0,
            ;
        }
    }
}

/// A number below `2^258` is the number that its limbs stand for, and limbs
/// below `2^43` are the limbs of the number they stand for: to limbs and back
/// loses nothing, either way round.
pub proof fn lemma_limbs_round_trip(n: nat, limbs: Seq<nat>)
    requires
        limbs.len() == NUM_OF_LIMBS,
    ensures
        (n < pow2(258) && forall|i: int|
            0 <= i < NUM_OF_LIMBS ==> limbs[i] == digit_of(n, limb_radix(), i as nat))
            ==> limbs_value(limbs) == n,
        (forall|i: int| 0 <= i < NUM_OF_LIMBS ==> limbs[i] < limb_radix()) ==> forall|i: int|
            0 <= i < NUM_OF_LIMBS ==> limbs[i] == digit_of(
                limbs_value(limbs),
                limb_radix(),
                i as nat,
            ),
{
    let radix = limb_radix() as int;
    let digits = ints_of_nat(limbs);
    lemma_pow2_values();
    if forall|i: int| 0 <= i < NUM_OF_LIMBS ==> limbs[i] < limb_radix() {
        assert(digits_in_range(digits, radix));
        assert forall|i: int| 0 <= i < NUM_OF_LIMBS implies limbs[i] == digit_of(
            limbs_value(limbs),
            limb_radix(),
            i as nat,
        ) by {
            lemma_digits_are_digits(digits, radix, 0, i as nat);
        }
    }
    if n < pow2(258) && forall|i: int|
        0 <= i < NUM_OF_LIMBS ==> limbs[i] == digit_of(n, limb_radix(), i as nat) {
        lemma_number_is_its_digits(n, limb_radix(), NUM_OF_LIMBS as nat);
        let own = Seq::new(NUM_OF_LIMBS as nat, |i: int| digit_of(n, limb_radix(), i as nat) as int);
        assert(own =~= digits);
    }
}

/// A number below the radix to the power `k` is what its first `k` digits
/// stand for.
pub proof fn lemma_number_is_its_digits(n: nat, radix: nat, k: nat)
    requires
        radix > 0,
        n < pow(radix as int, k),
    ensures
        radix_value(Seq::new(k, |i: int| digit_of(n, radix, i as nat) as int), radix as int, 0)
            == n,
    decreases k,
{
    let digits = Seq::new(k, |i: int| digit_of(n, radix, i as nat) as int);
    if k == 0 {
        reveal(pow);
    } else {
        let less = (k - 1) as nat;
        let rest = n / radix;
        reveal(pow);
        assert(rest < pow(radix as int, less)) by (nonlinear_arith)
            requires
                n < radix * pow(radix as int, less),
                rest == n / radix,
                radix > 0,
        ;
        lemma_number_is_its_digits(rest, radix, less);
        let rest_digits = Seq::new(less, |i: int| digit_of(rest, radix, i as nat) as int);
        lemma_radix_value_shift(digits, rest_digits, radix as int, 0);
        assert(n == radix * rest + n % radix) by (nonlinear_arith)
            requires
                rest == n / radix,
                radix > 0,
        ;
    }
}

/// Digits read from place `from + 1` on are the digits without the first, read
/// from place `from` on.
pub proof fn lemma_radix_value_shift(digits: Seq<int>, rest: Seq<int>, radix: int, from: int)
    requires
        0 <= from,
        digits.len() == rest.len() + 1,
        forall|i: int| 0 <= i < rest.len() ==> rest[i] == digits[i + 1],
    ensures
        radix_value(digits, radix, from + 1) == radix_value(rest, radix, from),
    decreases rest.len() - from,
{
    if from < rest.len() {
        lemma_radix_value_shift(digits, rest, radix, from + 1);
    }
}

} // verus!
