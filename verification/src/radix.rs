//! Numbers written in a radix that is a power of two: unsigned windows of a
//! byte string, and signed digits centred on zero.

use vstd::prelude::*;
use vstd::arithmetic::div_mod::lemma_fundamental_div_mod_converse;
use vstd::arithmetic::power::{pow, lemma_pow0, lemma_pow_positive};
use vstd::arithmetic::power2::{
    pow2, lemma_pow2_unfold, lemma_pow2_pos, lemma2_to64, lemma2_to64_rest,
};
use crate::bytes::{le_value, lemma_le_value_extend, lemma_pow256_step};

verus! {

/// The integer that the digits from place `from` upwards stand for, the digit at
/// `from` weighing one: `digits[from] + radix * digits[from + 1] + ...`.
pub open spec fn radix_value(digits: Seq<int>, radix: int, from: int) -> int
    decreases digits.len() - from,
{
    if from < 0 || from >= digits.len() {
        0
    } else {
        digits[from] + radix * radix_value(digits, radix, from + 1)
    }
}

/// Unsigned windows as integers.
pub open spec fn ints_of_u64(windows: Seq<u64>) -> Seq<int> {
    Seq::new(windows.len(), |i: int| windows[i] as int)
}

/// Signed digits as integers.
pub open spec fn ints_of_i8(digits: Seq<i8>) -> Seq<int> {
    Seq::new(digits.len(), |i: int| digits[i] as int)
}

/// `radix^(k + 1) == radix * radix^k`.
pub proof fn lemma_pow_step(radix: int, k: nat)
    ensures
        pow(radix, k + 1) == radix * pow(radix, k),
{
    reveal(pow);
}

/// A digit put on top adds itself, weighted by its place.
pub proof fn lemma_radix_value_push(digits: Seq<int>, radix: int, top: int, from: int)
    requires
        0 <= from <= digits.len(),
    ensures
        radix_value(digits.push(top), radix, from) == radix_value(digits, radix, from) + top * pow(
            radix,
            (digits.len() - from) as nat,
        ),
    decreases digits.len() - from,
{
    let longer = digits.push(top);
    if from == digits.len() {
        lemma_pow0(radix);
        assert(radix_value(longer, radix, from + 1) == 0);
        assert(radix_value(digits, radix, from) == 0);
        assert(longer[from] == top);
    } else {
        lemma_radix_value_push(digits, radix, top, from + 1);
        let e = (digits.len() - from - 1) as nat;
        lemma_pow_step(radix, e);
        let p = pow(radix, e);
        assert(longer[from] == digits[from]);
        assert(radix * (top * p) == top * (radix * p)) by (nonlinear_arith);
        assert(radix * (radix_value(digits, radix, from + 1) + top * p) == radix * radix_value(
            digits,
            radix,
            from + 1,
        ) + radix * (top * p)) by (nonlinear_arith);
    }
}

/// Two to the power `w`, for `w` below 64.
pub fn two_to_the(w: usize) -> (r: u64)
    requires
        w <= 63,
    ensures
        r == pow2(w as nat),
        w >= 1 ==> r / 2 == pow2((w - 1) as nat),
{
    let mut r: u64 = 1;
    let mut i: usize = 0;
    proof {
        lemma2_to64();
    }
    while i < w
        invariant
            i <= w <= 63,
            r == pow2(i as nat),
            r <= 0x8000_0000_0000_0000u64,
            i < 63 ==> r <= 0x4000_0000_0000_0000u64,
            i >= 1 ==> r / 2 == pow2((i - 1) as nat),
        decreases w - i,
    {
        proof {
            lemma_pow2_unfold((i + 1) as nat);
            lemma_pow2_le(i as nat, 62);
            if i + 1 <= 62 {
                lemma_pow2_le((i + 1) as nat, 62);
            }
            lemma2_to64_rest();
        }
        r = r * 2;
        i += 1;
    }
    r
}

/// Cuts the number that `bytes` encodes into windows of `w` bits, the lowest
/// first. The last window holds what is left of the top byte.
pub fn windows_of_bytes(bytes: &[u8], w: usize) -> (windows: Vec<u64>)
    requires
        1 <= w <= 63,
    ensures
        radix_value(ints_of_u64(windows@), pow2(w as nat) as int, 0) == le_value(bytes@),
        forall|i: int| 0 <= i < windows@.len() ==> (#[trigger] windows@[i]) < pow2(w as nat),
        windows@.len() * w >= 8 * bytes@.len(),
        windows@.len() * w < 8 * bytes@.len() + w,
{
    let radix = two_to_the(w);
    let mut windows: Vec<u64> = Vec::new();
    let mut acc: u64 = 0;
    let mut unit: u64 = 1;
    let mut pending: usize = 0;
    let ghost mut weight: int = 1;
    let ghost mut place: int = 1;
    let mut k: usize = 0;
    proof {
        lemma_pow0(radix as int);
        lemma_pow0(256);
        lemma2_to64();
        assert(bytes@.take(0) =~= Seq::<u8>::empty());
        assert(radix_value(ints_of_u64(windows@), radix as int, 0) == 0);
        lemma_pow2_pos(w as nat);
        if w >= 1 {
            lemma_pow2_unfold(w as nat);
        }
    }
    while k < bytes.len()
        invariant
            1 <= w <= 63,
            radix == pow2(w as nat),
            radix >= 2,
            k <= bytes@.len(),
            pending < w,
            acc < unit,
            unit < radix,
            unit == pow2(pending as nat),
            weight == pow(radix as int, windows@.len()),
            weight > 0,
            place == pow(256, k as nat),
            place == weight * unit,
            windows@.len() * w + pending == 8 * k,
            le_value(bytes@.take(k as int)) == radix_value(
                ints_of_u64(windows@),
                radix as int,
                0,
            ) + acc * weight,
            forall|i: int| 0 <= i < windows@.len() ==> (#[trigger] windows@[i]) < radix,
        decreases bytes@.len() - k,
    {
        let byte = bytes[k];
        let mut rest: u64 = byte as u64;
        let ghost mut low: int = 0;
        let ghost mut bit_weight: int = 1;
        let mut j: usize = 0;
        proof {
            lemma2_to64();
        }
        while j < 8
            invariant
                1 <= w <= 63,
                radix == pow2(w as nat),
                radix >= 2,
                k < bytes@.len(),
                j <= 8,
                pending < w,
                acc < unit,
                unit < radix,
                unit == pow2(pending as nat),
                weight == pow(radix as int, windows@.len()),
                weight > 0,
                place == pow(256, k as nat),
                place * bit_weight == weight * unit,
                bit_weight > 0,
                (j == 8) == (bit_weight == 256),
                0 <= low < bit_weight,
                byte == rest * bit_weight + low,
                windows@.len() * w + pending == 8 * k + j,
                le_value(bytes@.take(k as int)) + low * place == radix_value(
                    ints_of_u64(windows@),
                    radix as int,
                    0,
                ) + acc * weight,
                forall|i: int| 0 <= i < windows@.len() ==> (#[trigger] windows@[i]) < radix,
                bit_weight == pow2(j as nat),
            decreases 8 - j,
        {
            let bit: u64 = rest % 2;
            rest = rest / 2;
            proof {
                lemma_pow2_unfold((j + 1) as nat);
                lemma2_to64();
                let b = bit as int;
                let u = unit as int;
                let a = acc as int;
                let r = rest as int;
                assert((2 * r + b) * bit_weight + low == r * (2 * bit_weight) + (low + b
                    * bit_weight)) by (nonlinear_arith);
                assert((windows@.len() + 1) * w == windows@.len() * w + w) by (nonlinear_arith);
                assert((low + b * bit_weight) * place == low * place + b * (place * bit_weight))
                    by (nonlinear_arith);
                assert((a + b * u) * weight == a * weight + b * (weight * u)) by (nonlinear_arith);
                assert(place * (2 * bit_weight) == weight * (2 * u)) by (nonlinear_arith)
                    requires
                        place * bit_weight == weight * u,
                ;
                if bit == 1 {
                    assert(b * u == u);
                } else {
                    assert(b * u == 0);
                }
                assert(2 * u <= radix) by {
                    lemma_pow2_unfold((pending + 1) as nat);
                    lemma_pow2_le((pending + 1) as nat, w as nat);
                }
                low = low + b * bit_weight;
                bit_weight = 2 * bit_weight;
            }
            if bit == 1 {
                acc = acc + unit;
            }
            pending += 1;
            j += 1;
            if pending == w {
                proof {
                    lemma_pow2_unfold(w as nat);
                    let old_windows = ints_of_u64(windows@);
                    lemma_radix_value_push(old_windows, radix as int, acc as int, 0);
                    lemma_pow_step(radix as int, windows@.len());
                    assert(ints_of_u64(windows@.push(acc)) =~= old_windows.push(acc as int));
                    assert(weight * (2 * (unit as int)) == (radix * weight) * 1) by (nonlinear_arith)
                        requires
                            2 * (unit as int) == radix as int,
                    ;
                    lemma_pow_positive(radix as int, windows@.len() + 1);
                    weight = radix * weight;
                }
                windows.push(acc);
                acc = 0;
                unit = 1;
                pending = 0;
            } else {
                proof {
                    lemma_pow2_unfold(pending as nat);
                    lemma_pow2_unfold((pending + 1) as nat);
                    lemma_pow2_le((pending + 1) as nat, w as nat);
                }
                unit = unit * 2;
            }
        }
        proof {
            lemma_le_value_extend(bytes@, k as int);
            lemma_pow256_step(k as nat);
            assert(rest == 0);
            assert(low == byte);
            assert(place * 256 == 256 * place);
            place = 256 * place;
        }
        k += 1;
    }
    proof {
        assert(bytes@.take(bytes@.len() as int) =~= bytes@);
    }
    if pending > 0 {
        proof {
            assert((windows@.len() + 1) * w == windows@.len() * w + w) by (nonlinear_arith);
            let old_windows = ints_of_u64(windows@);
            lemma_radix_value_push(old_windows, radix as int, acc as int, 0);
            assert(ints_of_u64(windows@.push(acc)) =~= old_windows.push(acc as int));
        }
        windows.push(acc);
    } else {
        proof {
            lemma2_to64();
            assert(acc == 0);
            assert(acc * weight == 0);
        }
    }
    windows
}

/// Recentres windows below `2^w` into signed digits from `-2^(w-1)` up to, but
/// not including, `2^(w-1)`: a window in the upper half gives up `2^w` and
/// carries one into the next place. One digit more than there are windows holds
/// the last carry, zero or one.
pub fn signed_digits(windows: &Vec<u64>, w: usize) -> (digits: Vec<i8>)
    requires
        1 <= w <= 8,
        forall|i: int| 0 <= i < windows@.len() ==> (#[trigger] windows@[i]) < pow2(w as nat),
    ensures
        digits@.len() == windows@.len() + 1,
        radix_value(ints_of_i8(digits@), pow2(w as nat) as int, 0) == radix_value(
            ints_of_u64(windows@),
            pow2(w as nat) as int,
            0,
        ),
        forall|i: int|
            0 <= i < digits@.len() - 1 ==> -pow2((w - 1) as nat) <= (#[trigger] digits@[i]) < pow2(
                (w - 1) as nat,
            ),
        0 <= digits@[digits@.len() - 1] <= 1,
{
    let radix = two_to_the(w);
    let half = radix / 2;
    let mut digits: Vec<i8> = Vec::new();
    let mut carry: u64 = 0;
    let mut i: usize = 0;
    proof {
        lemma2_to64();
        lemma_pow2_le(w as nat, 8);
        lemma_pow2_unfold(w as nat);
        lemma_pow0(radix as int);
        assert(windows@.take(0) =~= Seq::<u64>::empty());
        assert(ints_of_u64(windows@.take(0)) =~= Seq::<int>::empty());
    }
    while i < windows.len()
        invariant
            1 <= w <= 8,
            i <= windows@.len(),
            radix == pow2(w as nat),
            half == pow2((w - 1) as nat),
            radix == 2 * half,
            2 <= radix <= 256,
            carry <= 1,
            digits@.len() == i,
            forall|j: int| 0 <= j < windows@.len() ==> (#[trigger] windows@[j]) < radix,
            forall|j: int| 0 <= j < digits@.len() ==> -half <= (#[trigger] digits@[j]) < half,
            radix_value(ints_of_u64(windows@.take(i as int)), radix as int, 0) == radix_value(
                ints_of_i8(digits@),
                radix as int,
                0,
            ) + carry * pow(radix as int, i as nat),
        decreases windows@.len() - i,
    {
        let coef: u64 = carry + windows[i];
        let ghost before = ints_of_i8(digits@);
        let ghost weight = pow(radix as int, i as nat);
        let ghost old_carry = carry as int;
        let digit: i8 = if coef >= half {
            carry = 1;
            (coef as i64 - radix as i64) as i8
        } else {
            carry = 0;
            coef as i8
        };
        proof {
            let prefix = ints_of_u64(windows@.take(i as int));
            lemma_radix_value_push(prefix, radix as int, windows@[i as int] as int, 0);
            assert(ints_of_u64(windows@.take(i + 1)) =~= prefix.push(windows@[i as int] as int));
            lemma_radix_value_push(before, radix as int, digit as int, 0);
            assert(ints_of_i8(digits@.push(digit)) =~= before.push(digit as int));
            lemma_pow_step(radix as int, i as nat);
            let win = windows@[i as int] as int;
            let d = digit as int;
            let c = carry as int;
            let r = radix as int;
            assert(old_carry + win == d + c * r);
            assert(old_carry * weight + win * weight == d * weight + c * (r * weight))
                by (nonlinear_arith)
                requires
                    old_carry + win == d + c * r,
            ;
        }
        digits.push(digit);
        i += 1;
    }
    proof {
        assert(windows@.take(windows@.len() as int) =~= windows@);
        let before = ints_of_i8(digits@);
        lemma_radix_value_push(before, radix as int, carry as int, 0);
        assert(ints_of_i8(digits@.push(carry as i8)) =~= before.push(carry as int));
    }
    digits.push(carry as i8);
    digits
}

/// Natural numbers as integers.
pub open spec fn ints_of_nat(digits: Seq<nat>) -> Seq<int> {
    Seq::new(digits.len(), |i: int| digits[i] as int)
}

/// The digit of `n` at place `i` in the given radix.
pub open spec fn digit_of(n: nat, radix: nat, i: nat) -> nat
    decreases i,
{
    if i == 0 {
        n % radix
    } else {
        digit_of(n / radix, radix, (i - 1) as nat)
    }
}

/// Whether every digit is at least zero and below the radix.
pub open spec fn digits_in_range(digits: Seq<int>, radix: int) -> bool {
    forall|i: int| 0 <= i < digits.len() ==> 0 <= #[trigger] digits[i] < radix
}

/// Digits in range stand for a number that is at least zero and below the
/// radix to the power of their count.
pub proof fn lemma_radix_value_bound(digits: Seq<int>, radix: int, from: int)
    requires
        radix > 0,
        digits_in_range(digits, radix),
        0 <= from <= digits.len(),
    ensures
        0 <= radix_value(digits, radix, from) < pow(radix, (digits.len() - from) as nat),
    decreases digits.len() - from,
{
    if from == digits.len() {
        lemma_pow0(radix);
    } else {
        lemma_radix_value_bound(digits, radix, from + 1);
        let e = (digits.len() - from - 1) as nat;
        lemma_pow_step(radix, e);
        let rest = radix_value(digits, radix, from + 1);
        let p = pow(radix, e);
        assert(0 <= digits[from] < radix);
        assert(digits[from] + radix * rest < radix * p) by (nonlinear_arith)
            requires
                0 <= digits[from] < radix,
                0 <= rest < p,
        ;
        assert(0 <= radix * rest) by (nonlinear_arith)
            requires
                0 <= rest,
                radix > 0,
        ;
    }
}

/// Digits in range are the digits of the number they stand for; beyond them
/// its digits are zero.
pub proof fn lemma_digits_are_digits(digits: Seq<int>, radix: int, from: int, i: nat)
    requires
        radix > 0,
        digits_in_range(digits, radix),
        0 <= from <= digits.len(),
    ensures
        radix_value(digits, radix, from) >= 0,
        digit_of(radix_value(digits, radix, from) as nat, radix as nat, i) == (if from + i
            < digits.len() {
            digits[from + i]
        } else {
            0
        }),
    decreases i,
{
    lemma_radix_value_bound(digits, radix, from);
    let v = radix_value(digits, radix, from);
    if from == digits.len() {
        assert(v == 0);
        if i > 0 {
            assert(0nat / (radix as nat) == 0) by (nonlinear_arith)
                requires
                    radix > 0,
            ;
            lemma_digits_are_digits(digits, radix, from, (i - 1) as nat);
        } else {
            assert(0nat % (radix as nat) == 0) by (nonlinear_arith)
                requires
                    radix > 0,
            ;
        }
    } else {
        let rest = radix_value(digits, radix, from + 1);
        lemma_radix_value_bound(digits, radix, from + 1);
        assert(0 <= digits[from] < radix);
        assert(v == rest * radix + digits[from]) by (nonlinear_arith)
            requires
                v == digits[from] + radix * rest,
        ;
        lemma_fundamental_div_mod_converse(v, radix, rest, digits[from]);
        if i > 0 {
            lemma_digits_are_digits(digits, radix, from + 1, (i - 1) as nat);
        }
    }
}

/// The digits up to place `k` and those from `k` on add up to the whole, the
/// second weighted by the radix to the power `k`.
pub proof fn lemma_radix_value_split(digits: Seq<int>, radix: int, k: int, from: int)
    requires
        0 <= from <= k <= digits.len(),
    ensures
        radix_value(digits, radix, from) == radix_value(digits.take(k), radix, from) + pow(
            radix,
            (k - from) as nat,
        ) * radix_value(digits, radix, k),
    decreases k - from,
{
    if from == k {
        lemma_pow0(radix);
        assert(radix_value(digits.take(k), radix, from) == 0);
    } else {
        lemma_radix_value_split(digits, radix, k, from + 1);
        let e = (k - from - 1) as nat;
        lemma_pow_step(radix, e);
        let p = pow(radix, e);
        let head = radix_value(digits.take(k), radix, from + 1);
        let tail = radix_value(digits, radix, k);
        assert(digits.take(k)[from] == digits[from]);
        assert(radix * (head + p * tail) == radix * head + (radix * p) * tail)
            by (nonlinear_arith);
    }
}

/// Digits in range stand for zero only where each of them is zero.
pub proof fn lemma_radix_value_zero(digits: Seq<int>, radix: int, from: int)
    requires
        radix > 0,
        digits_in_range(digits, radix),
        0 <= from <= digits.len(),
    ensures
        (radix_value(digits, radix, from) == 0) == (forall|j: int|
            from <= j < digits.len() ==> digits[j] == 0),
    decreases digits.len() - from,
{
    if from < digits.len() {
        lemma_radix_value_zero(digits, radix, from + 1);
        lemma_radix_value_bound(digits, radix, from + 1);
        let rest = radix_value(digits, radix, from + 1);
        assert(0 <= digits[from] < radix);
        assert(radix * rest >= 0) by (nonlinear_arith)
            requires
                radix > 0,
                rest >= 0,
        ;
        if rest > 0 {
            assert(radix * rest > 0) by (nonlinear_arith)
                requires
                    radix > 0,
                    rest > 0,
            ;
        } else {
            assert(radix * rest == 0) by (nonlinear_arith)
                requires
                    rest == 0,
            ;
        }
        if radix_value(digits, radix, from) == 0 {
            assert forall|j: int| from <= j < digits.len() implies digits[j] == 0 by {
                if j > from {
                    assert(digits[j] == 0);
                }
            }
        }
    }
}

/// Powers of two grow with the exponent.
proof fn lemma_pow2_le(a: nat, b: nat)
    requires
        a <= b,
    ensures
        pow2(a) <= pow2(b),
    decreases b - a,
{
    if a < b {
        lemma_pow2_le(a, (b - 1) as nat);
        lemma_pow2_unfold(b);
    }
}

} // verus!
