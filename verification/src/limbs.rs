//! Sums, multiples and products of numbers written in limbs, reckoned limb by
//! limb without carrying.

use vstd::prelude::*;
use vstd::arithmetic::power::{pow, lemma_pow0};
use vstd::arithmetic::div_mod::lemma_fundamental_div_mod_converse;
use crate::radix::{lemma_pow_step, lemma_radix_value_push, lemma_radix_value_split, radix_value};

verus! {

/// The limb at place `k` of the product of `a` and `b`, taking the first `upto`
/// limbs of `a` into account: the sum of `a[i] * b[k - i]` over the places `i`
/// below `upto` for which `b` has a limb at `k - i`.
pub open spec fn convolution(a: Seq<int>, b: Seq<int>, k: int, upto: int) -> int
    decreases upto,
{
    if upto <= 0 {
        0
    } else {
        convolution(a, b, k, upto - 1) + (if 0 <= k - (upto - 1) < b.len() {
            a[upto - 1] * b[k - (upto - 1)]
        } else {
            0
        })
    }
}

/// Limbs that are all zero stand for zero.
pub proof fn lemma_radix_value_of_zeros(c: Seq<int>, radix: int, from: int)
    requires
        0 <= from,
        forall|i: int| from <= i < c.len() ==> c[i] == 0,
    ensures
        radix_value(c, radix, from) == 0,
    decreases c.len() - from,
{
    if from < c.len() {
        lemma_radix_value_of_zeros(c, radix, from + 1);
        assert(radix * radix_value(c, radix, from + 1) == 0) by (nonlinear_arith)
            requires
                radix_value(c, radix, from + 1) == 0,
        ;
    }
}

/// Where `c` is `a` plus `s` times `b`, limb by limb, it stands for the number
/// of `a` plus `s` times the number of `b`. A limb that `a` or `b` lacks counts
/// as zero.
pub proof fn lemma_radix_value_linear(
    a: Seq<int>,
    b: Seq<int>,
    c: Seq<int>,
    s: int,
    radix: int,
    from: int,
)
    requires
        0 <= from,
        a.len() <= c.len(),
        b.len() <= c.len(),
        forall|i: int|
            from <= i < c.len() ==> c[i] == (if i < a.len() {
                a[i]
            } else {
                0
            }) + s * (if i < b.len() {
                b[i]
            } else {
                0
            }),
    ensures
        radix_value(c, radix, from) == radix_value(a, radix, from) + s * radix_value(
            b,
            radix,
            from,
        ),
    decreases c.len() - from,
{
    if from < c.len() {
        lemma_radix_value_linear(a, b, c, s, radix, from + 1);
        let x = radix_value(a, radix, from + 1);
        let y = radix_value(b, radix, from + 1);
        assert(radix * (x + s * y) == radix * x + s * (radix * y)) by (nonlinear_arith);
        if from >= a.len() {
            assert(radix_value(a, radix, from) == 0);
            assert(x == 0);
        }
        if from >= b.len() {
            assert(radix_value(b, radix, from) == 0);
            assert(y == 0);
        }
        let bv = if from < b.len() {
            b[from]
        } else {
            0
        };
        assert(s * (bv + radix * y) == s * bv + s * (radix * y)) by (nonlinear_arith);
    } else {
        assert(radix_value(a, radix, from) == 0);
        assert(radix_value(b, radix, from) == 0);
    }
}

/// The limbs of `b`, each multiplied by `factor` and moved up by `shift`
/// places, among `len` limbs.
pub open spec fn shifted(b: Seq<int>, factor: int, shift: int, len: nat) -> Seq<int> {
    Seq::new(
        len,
        |k: int|
            if 0 <= k - shift < b.len() {
                factor * b[k - shift]
            } else {
                0
            },
    )
}

/// Limbs multiplied by a factor and moved up stand for the number times the
/// factor times the radix to the power of the shift.
pub proof fn lemma_radix_value_shifted(
    b: Seq<int>,
    factor: int,
    shift: int,
    len: nat,
    radix: int,
    from: int,
)
    requires
        0 <= from <= shift,
        shift + b.len() <= len,
    ensures
        radix_value(shifted(b, factor, shift, len), radix, from) == factor * pow(
            radix,
            (shift - from) as nat,
        ) * radix_value(b, radix, 0),
    decreases shift - from,
{
    let s = shifted(b, factor, shift, len);
    if from == shift {
        lemma_pow0(radix);
        lemma_shifted_at(b, factor, shift, len, radix, 0);
    } else {
        lemma_radix_value_shifted(b, factor, shift, len, radix, from + 1);
        let e = (shift - from - 1) as nat;
        lemma_pow_step(radix, e);
        let p = pow(radix, e);
        let v = radix_value(b, radix, 0);
        assert(s[from] == 0);
        assert(radix * (factor * p * v) == factor * (radix * p) * v) by (nonlinear_arith);
    }
}

/// From the place of its first limb on, the moved limbs stand for the factor
/// times what the limbs stand for.
proof fn lemma_shifted_at(b: Seq<int>, factor: int, shift: int, len: nat, radix: int, i: int)
    requires
        0 <= shift,
        0 <= i,
        shift + b.len() <= len,
    ensures
        radix_value(shifted(b, factor, shift, len), radix, shift + i) == factor * radix_value(
            b,
            radix,
            i,
        ),
    decreases len - shift - i,
{
    let s = shifted(b, factor, shift, len);
    if shift + i < len {
        lemma_shifted_at(b, factor, shift, len, radix, i + 1);
        let rest = radix_value(b, radix, i + 1);
        if i < b.len() {
            assert(s[shift + i] == factor * b[i]);
            assert(factor * b[i] + radix * (factor * rest) == factor * (b[i] + radix * rest))
                by (nonlinear_arith);
        } else {
            assert(s[shift + i] == 0);
            assert(radix_value(b, radix, i) == 0);
            assert(rest == 0);
            assert(radix * (factor * rest) == 0) by (nonlinear_arith)
                requires
                    rest == 0,
            ;
            assert(factor * 0 == 0);
        }
    } else {
        assert(radix_value(b, radix, i) == 0) by {
            assert(i >= b.len());
        }
        assert(factor * 0 == 0);
    }
}

/// The limbs of a product, by places of the first factor taken into account.
pub open spec fn product_limbs(a: Seq<int>, b: Seq<int>, len: nat, upto: int) -> Seq<int> {
    Seq::new(len, |k: int| convolution(a, b, k, upto))
}

/// The limbs of the product stand for the product of the numbers.
pub proof fn lemma_radix_value_product(a: Seq<int>, b: Seq<int>, len: nat, radix: int, upto: int)
    requires
        0 <= upto <= a.len(),
        a.len() + b.len() <= len + 1,
        b.len() >= 1,
    ensures
        radix_value(product_limbs(a, b, len, upto), radix, 0) == radix_value(
            a.take(upto),
            radix,
            0,
        ) * radix_value(b, radix, 0),
    decreases upto,
{
    let c = product_limbs(a, b, len, upto);
    let bv = radix_value(b, radix, 0);
    if upto == 0 {
        lemma_radix_value_of_zeros(c, radix, 0);
        assert(radix_value(a.take(0), radix, 0) == 0);
        assert(0 * bv == 0);
    } else {
        let less = upto - 1;
        lemma_radix_value_product(a, b, len, radix, less);
        let before = product_limbs(a, b, len, less);
        let term = shifted(b, a[less], less, len);
        lemma_radix_value_shifted(b, a[less], less, len, radix, 0);
        lemma_radix_value_linear(before, term, c, 1, radix, 0);
        lemma_radix_value_push(a.take(less), radix, a[less], 0);
        assert(a.take(less).push(a[less]) =~= a.take(upto));
        let head = radix_value(a.take(less), radix, 0);
        let p = pow(radix, less as nat);
        assert((head + a[less] * p) * bv == head * bv + a[less] * p * bv) by (nonlinear_arith);
        assert(1 * radix_value(term, radix, 0) == radix_value(term, radix, 0));
    }
}

/// The quotient of `t` by `radix`, rounded towards zero.
pub open spec fn quotient_towards_zero(t: int, radix: int) -> int {
    if t >= 0 {
        t / radix
    } else {
        -((-t) / radix)
    }
}

/// The carry out of place `m` when the limbs `d` are added up from the lowest:
/// what the limb and the carry into the place leave after division by the
/// radix. Into the lowest place nothing is carried.
pub open spec fn carry_out(d: Seq<int>, radix: int, m: int) -> int
    decreases m + 1,
{
    if m < 0 {
        0
    } else {
        quotient_towards_zero(d[m] + carry_out(d, radix, m - 1), radix)
    }
}

/// Whether, at each place below `upto`, the limb and the carry into the place
/// are the radix times the carry out of it.
pub open spec fn carries_exactly(d: Seq<int>, radix: int, upto: int) -> bool {
    forall|m: int|
        0 <= m < upto ==> d[m] + carry_out(d, radix, m - 1) == radix * #[trigger] carry_out(
            d,
            radix,
            m,
        )
}

/// Where the carries are exact below `m`, the limbs below `m` stand for the
/// carry into place `m`, weighted by that place.
pub proof fn lemma_carried(d: Seq<int>, radix: int, m: int)
    requires
        0 <= m <= d.len(),
        carries_exactly(d, radix, m),
    ensures
        radix_value(d.take(m), radix, 0) == carry_out(d, radix, m - 1) * pow(radix, m as nat),
    decreases m,
{
    if m == 0 {
        assert(radix_value(d.take(0), radix, 0) == 0);
        assert(carry_out(d, radix, -1) == 0);
    } else {
        let less = m - 1;
        assert(carries_exactly(d, radix, less));
        lemma_carried(d, radix, less);
        lemma_radix_value_push(d.take(less), radix, d[less], 0);
        assert(d.take(less).push(d[less]) =~= d.take(m));
        lemma_pow_step(radix, less as nat);
        let p = pow(radix, less as nat);
        let c_in = carry_out(d, radix, less - 1);
        let c_out = carry_out(d, radix, less);
        assert(d[less] + c_in == radix * c_out);
        assert(c_in * p + d[less] * p == c_out * (radix * p)) by (nonlinear_arith)
            requires
                d[less] + c_in == radix * c_out,
        ;
    }
}

/// Where the carries are exact and the top limb takes up the last carry, the
/// limbs stand for zero.
pub proof fn lemma_carries_to_zero(d: Seq<int>, radix: int)
    requires
        d.len() >= 1,
        carries_exactly(d, radix, d.len() - 1),
        d[d.len() - 1] + carry_out(d, radix, d.len() - 2) == 0,
    ensures
        radix_value(d, radix, 0) == 0,
{
    let top = d.len() - 1;
    lemma_carried(d, radix, top);
    lemma_radix_value_split(d, radix, top, 0);
    assert(radix_value(d, radix, top) == d[top]) by {
        assert(radix_value(d, radix, top + 1) == 0);
        assert(radix * 0 == 0);
    }
    let p = pow(radix, top as nat);
    let c = carry_out(d, radix, top - 1);
    assert(c * p + p * d[top] == 0) by (nonlinear_arith)
        requires
            d[top] + c == 0,
    ;
}

/// Where the limbs stand for zero, the carry out of each place is the negative
/// of what the limbs above it stand for, and the carries are exact.
pub proof fn lemma_zero_carries(d: Seq<int>, radix: int, m: int)
    requires
        radix > 0,
        radix_value(d, radix, 0) == 0,
        -1 <= m < d.len(),
    ensures
        carry_out(d, radix, m) == -radix_value(d, radix, m + 1),
        carries_exactly(d, radix, m + 1),
    decreases m + 1,
{
    if m >= 0 {
        lemma_zero_carries(d, radix, m - 1);
        let above = radix_value(d, radix, m + 1);
        let t = d[m] + carry_out(d, radix, m - 1);
        assert(radix_value(d, radix, m) == d[m] + radix * above);
        assert(t == -(radix * above));
        if t >= 0 {
            assert(t == (-above) * radix + 0) by (nonlinear_arith)
                requires
                    t == -(radix * above),
            ;
            lemma_fundamental_div_mod_converse(t, radix, -above, 0);
        } else {
            assert(-t == above * radix + 0) by (nonlinear_arith)
                requires
                    t == -(radix * above),
            ;
            lemma_fundamental_div_mod_converse(-t, radix, above, 0);
        }
        assert(carry_out(d, radix, m) == -above);
        assert(t == radix * (-above)) by (nonlinear_arith)
            requires
                t == -(radix * above),
        ;
        assert forall|k: int| 0 <= k < m + 1 implies d[k] + carry_out(d, radix, k - 1) == radix
            * #[trigger] carry_out(d, radix, k) by {
            if k < m {
                assert(carries_exactly(d, radix, m));
            }
        }
    } else {
        assert(carry_out(d, radix, -1) == 0);
    }
}

/// The limbs stand for zero exactly where the carries are exact and the top
/// limb takes up the last carry.
pub proof fn lemma_zero_is_carried(d: Seq<int>, radix: int)
    requires
        radix > 0,
        d.len() >= 1,
    ensures
        (radix_value(d, radix, 0) == 0) == (carries_exactly(d, radix, d.len() - 1) && d[d.len()
            - 1] + carry_out(d, radix, d.len() - 2) == 0),
{
    let top = d.len() - 1;
    if radix_value(d, radix, 0) == 0 {
        lemma_zero_carries(d, radix, top - 1);
        assert(radix_value(d, radix, top) == d[top]) by {
            assert(radix_value(d, radix, top + 1) == 0);
            assert(radix * 0 == 0);
        }
    }
    if carries_exactly(d, radix, top) && d[top] + carry_out(d, radix, top - 1) == 0 {
        lemma_carries_to_zero(d, radix);
    }
}

/// A quotient rounded towards zero is no larger in size than the quotient of
/// the bound.
pub proof fn lemma_quotient_bound(t: int, radix: int, bound: int)
    requires
        radix > 0,
        bound > 0,
        -(bound * radix) < t < bound * radix,
    ensures
        -bound < quotient_towards_zero(t, radix) < bound,
{
    if t >= 0 {
        assert(t / radix < bound) by (nonlinear_arith)
            requires
                0 <= t < bound * radix,
                radix > 0,
        ;
        assert(t / radix >= 0) by (nonlinear_arith)
            requires
                0 <= t,
                radix > 0,
        ;
    } else {
        assert((-t) / radix < bound) by (nonlinear_arith)
            requires
                0 <= -t < bound * radix,
                radix > 0,
        ;
        assert((-t) / radix >= 0) by (nonlinear_arith)
            requires
                0 <= -t,
                radix > 0,
        ;
    }
}

} // verus!
