//! Sums of scalar multiples of group elements: one multiple after the other, and
//! by Pippenger's bucket method.

use vstd::prelude::*;
use vstd::arithmetic::div_mod::lemma_small_mod;
use vstd::arithmetic::power2::{pow2, lemma2_to64, lemma_pow2_unfold};
use crate::group_laws::{
    all_elements, coeffs_scaled, coeffs_sum, coeffs_unit, coeffs_zero, combination, group_acts,
    is_commutative_group, lemma_represents_difference, lemma_represents_identity,
    lemma_represents_is, lemma_represents_multiple, lemma_represents_point, lemma_represents_sum,
    represents, scalars_count, times,
};
use crate::groups::{scalar_to_radix_2_power_w, Group, Scalar};
use crate::radix::{ints_of_i8, radix_value, two_to_the};

verus! {

/// The integers that the scalars stand for.
pub open spec fn scalar_values<S: Scalar>(scalars: Seq<&S>) -> Seq<nat> {
    Seq::new(scalars.len(), |i: int| scalars[i].value())
}

/// The encodings of the elements.
pub open spec fn encodings<S: Scalar, G: Group<S>>(elems: Seq<&G>) -> Seq<Seq<u8>> {
    Seq::new(elems.len(), |i: int| elems[i].encoding())
}

/// The shorter of two lengths.
pub open spec fn shorter(a: nat, b: nat) -> nat {
    if a < b {
        a
    } else {
        b
    }
}

/// The sum of the first `n` points, each multiplied by its scalar, taken up in
/// order from the neutral element.
pub open spec fn multi_exp_value<S: Scalar, G: Group<S>>(
    values: Seq<nat>,
    points: Seq<Seq<u8>>,
    n: nat,
) -> Seq<u8>
    decreases n,
{
    if n == 0 {
        G::identity()
    } else {
        G::sum(
            multi_exp_value::<S, G>(values, points, (n - 1) as nat),
            G::multiple(points[n - 1], values[n - 1]),
        )
    }
}

/// Sums of scalar multiples, for every group.
pub trait MultiExp<S: Scalar>: Group<S> {
    /// One multiple after the other; where one list is longer, what is beyond
    /// the other's end is left out.
    fn naive_multi_exp(scalars: &[&S], points: &[&Self]) -> (r: Self)
        ensures
            r.encoding() == multi_exp_value::<S, Self>(
                scalar_values(scalars@),
                encodings::<S, Self>(points@),
                shorter(scalars@.len(), points@.len()),
            ),
    ;

    /// The same sum as `naive_multi_exp`.
    fn multi_exp(scalars: &[&S], points: &[&Self]) -> (r: Self)
        ensures
            r.encoding() == multi_exp_value::<S, Self>(
                scalar_values(scalars@),
                encodings::<S, Self>(points@),
                shorter(scalars@.len(), points@.len()),
            ),
    ;

    /// The same sum by Pippenger's method, in time that depends on the scalars.
    /// That it is the same sum rests on the group laws; of no pairs at all it
    /// is the neutral element whatever the laws.
    fn vartime_multi_exp(scalars: &[&S], points: &[&Self]) -> (r: Self)
        ensures
            Self::is_element(r.encoding()),
            shorter(scalars@.len(), points@.len()) == 0 ==> r.encoding() == Self::identity(),
            group_acts::<S, Self>() && all_elements::<S, Self>(encodings::<S, Self>(points@))
                ==> r.encoding() == multi_exp_value::<S, Self>(
                scalar_values(scalars@),
                encodings::<S, Self>(points@),
                shorter(scalars@.len(), points@.len()),
            ),
    ;
}

impl<S: Scalar, G: Group<S>> MultiExp<S> for G {
    fn naive_multi_exp(scalars: &[&S], points: &[&Self]) -> (r: Self) {
        let n = if points.len() < scalars.len() {
            points.len()
        } else {
            scalars.len()
        };
        let mut r = Self::get_identity();
        let mut i: usize = 0;
        while i < n
            invariant
                i <= n,
                n == shorter(scalars@.len(), points@.len()),
                r.encoding() == multi_exp_value::<S, Self>(
                    scalar_values(scalars@),
                    encodings::<S, Self>(points@),
                    i as nat,
                ),
            decreases n - i,
        {
            r = r.add(&points[i].mul(scalars[i]));
            i += 1;
        }
        r
    }

    fn multi_exp(scalars: &[&S], points: &[&Self]) -> (r: Self) {
        Self::naive_multi_exp(scalars, points)
    }

    fn vartime_multi_exp(scalars: &[&S], points: &[&Self]) -> (r: Self) {
        pippenger::<S, G>(scalars, points)
    }
}

/// The digit of scalar `i` at place `j`; beyond a scalar's last digit it is zero.
pub open spec fn digit_at(digits: Seq<Vec<i8>>, i: int, j: int) -> int {
    if 0 <= j < digits[i]@.len() {
        digits[i]@[j] as int
    } else {
        0
    }
}

/// How often the first `t` points went into bucket `b` at place `j`.
pub open spec fn bucket_plus(digits: Seq<Vec<i8>>, j: int, n: nat, t: int, b: int) -> Seq<nat> {
    Seq::new(
        n,
        |i: int|
            if i < t && digit_at(digits, i, j) == b + 1 {
                1nat
            } else {
                0nat
            },
    )
}

/// How often the first `t` points were taken out of bucket `b` at place `j`.
pub open spec fn bucket_minus(digits: Seq<Vec<i8>>, j: int, n: nat, t: int, b: int) -> Seq<nat> {
    Seq::new(
        n,
        |i: int|
            if i < t && digit_at(digits, i, j) == -(b + 1) {
                1nat
            } else {
                0nat
            },
    )
}

/// What the buckets above `c` hold together, as coefficients of the points:
/// the points whose digit exceeds `c`.
pub open spec fn above_plus(digits: Seq<Vec<i8>>, j: int, n: nat, c: int) -> Seq<nat> {
    Seq::new(
        n,
        |i: int|
            if digit_at(digits, i, j) > c {
                1nat
            } else {
                0nat
            },
    )
}

/// As `above_plus`, for the points whose digit is below `-c`.
pub open spec fn above_minus(digits: Seq<Vec<i8>>, j: int, n: nat, c: int) -> Seq<nat> {
    Seq::new(
        n,
        |i: int|
            if -digit_at(digits, i, j) > c {
                1nat
            } else {
                0nat
            },
    )
}

/// The running total of the bucket sums down to bucket `c`: each point as often
/// as its digit exceeds `c`.
pub open spec fn excess_plus(digits: Seq<Vec<i8>>, j: int, n: nat, c: int) -> Seq<nat> {
    Seq::new(
        n,
        |i: int|
            if digit_at(digits, i, j) > c {
                (digit_at(digits, i, j) - c) as nat
            } else {
                0nat
            },
    )
}

/// As `excess_plus`, for the negative digits.
pub open spec fn excess_minus(digits: Seq<Vec<i8>>, j: int, n: nat, c: int) -> Seq<nat> {
    Seq::new(
        n,
        |i: int|
            if -digit_at(digits, i, j) > c {
                (-digit_at(digits, i, j) - c) as nat
            } else {
                0nat
            },
    )
}

/// The sum over the first `n` points of each point times its digit at place
/// `index`, by the bucket method: a point goes into the bucket of its digit's
/// size, or is taken out of it where the digit is negative, and the buckets are
/// then summed, each weighted by its number, with two running sums.
fn bucket_column<S: Scalar, G: Group<S>>(
    buckets: &mut Vec<G>,
    digits: &Vec<Vec<i8>>,
    elems: &[&G],
    n: usize,
    index: usize,
) -> (col: G)
    requires
        1 <= old(buckets)@.len() <= 128,
        n <= elems@.len(),
        digits@.len() == n,
        forall|i: int, j: int|
            0 <= i < n && 0 <= j < digits@[i]@.len() ==> -old(buckets)@.len() <= (
            #[trigger] digits@[i]@[j]) <= old(buckets)@.len(),
    ensures
        final(buckets)@.len() == old(buckets)@.len(),
        G::is_element(col.encoding()),
        is_commutative_group::<S, G>() && all_elements::<S, G>(
            encodings::<S, G>(elems@).take(n as int),
        ) ==> represents::<S, G>(
            col.encoding(),
            encodings::<S, G>(elems@).take(n as int),
            excess_plus(digits@, index as int, n as nat, 0),
            excess_minus(digits@, index as int, n as nat, 0),
        ),
{
    let count = buckets.len();
    let ghost points = encodings::<S, G>(elems@).take(n as int);
    let ghost laws = is_commutative_group::<S, G>() && all_elements::<S, G>(points);
    let ghost j = index as int;
    let ghost len = n as nat;
    let mut b: usize = 0;
    while b < count
        invariant
            b <= count,
            buckets@.len() == count,
            forall|k: int| 0 <= k < b ==> (#[trigger] buckets@[k]).encoding() == G::identity(),
            forall|k: int| 0 <= k < b ==> G::is_element((#[trigger] buckets@[k]).encoding()),
        decreases count - b,
    {
        buckets[b] = G::get_identity();
        b += 1;
    }
    proof {
        if laws {
            lemma_represents_identity::<S, G>(points);
            assert forall|k: int| 0 <= k < count implies represents::<S, G>(
                (#[trigger] buckets@[k]).encoding(),
                points,
                bucket_plus(digits@, j, len, 0, k),
                bucket_minus(digits@, j, len, 0, k),
            ) by {
                assert(bucket_plus(digits@, j, len, 0, k) =~= coeffs_zero(len));
                assert(bucket_minus(digits@, j, len, 0, k) =~= coeffs_zero(len));
            }
        }
    }
    let mut t: usize = 0;
    while t < n
        invariant
            t <= n,
            n <= elems@.len(),
            digits@.len() == n,
            1 <= count <= 128,
            buckets@.len() == count,
            points == encodings::<S, G>(elems@).take(n as int),
            laws == (is_commutative_group::<S, G>() && all_elements::<S, G>(points)),
            j == index,
            len == n,
            forall|i: int, k: int|
                0 <= i < n && 0 <= k < digits@[i]@.len() ==> -count <= (
                #[trigger] digits@[i]@[k]) <= count,
            forall|k: int| 0 <= k < count ==> G::is_element((#[trigger] buckets@[k]).encoding()),
            laws ==> forall|k: int|
                0 <= k < count ==> represents::<S, G>(
                    (#[trigger] buckets@[k]).encoding(),
                    points,
                    bucket_plus(digits@, j, len, t as int, k),
                    bucket_minus(digits@, j, len, t as int, k),
                ),
        decreases n - t,
    {
        let ghost before = buckets@;
        let ghost target: int = -1;
        let mut digit: i16 = 0;
        if index < digits[t].len() {
            digit = digits[t][index] as i16;
        }
        assert(digit == digit_at(digits@, t as int, j));
        if digit > 0 {
            let at = (digit - 1) as usize;
            let moved = buckets[at].add(elems[t]);
            buckets[at] = moved;
            proof {
                target = at as int;
                if laws {
                    assert(points[t as int] == elems@[t as int].encoding());
                    lemma_represents_point::<S, G>(points, t as int);
                    lemma_represents_sum::<S, G>(
                        before[target].encoding(),
                        points[t as int],
                        points,
                        bucket_plus(digits@, j, len, t as int, target),
                        bucket_minus(digits@, j, len, t as int, target),
                        coeffs_unit(len, t as int),
                        coeffs_zero(len),
                    );
                    assert(coeffs_sum(
                        bucket_plus(digits@, j, len, t as int, target),
                        coeffs_unit(len, t as int),
                    ) =~= bucket_plus(digits@, j, len, t + 1, target));
                    assert(coeffs_sum(
                        bucket_minus(digits@, j, len, t as int, target),
                        coeffs_zero(len),
                    ) =~= bucket_minus(digits@, j, len, t + 1, target));
                }
            }
        }
        if digit < 0 {
            let at = (-digit - 1) as usize;
            let moved = buckets[at].sub(elems[t]);
            buckets[at] = moved;
            proof {
                target = at as int;
                if laws {
                    assert(points[t as int] == elems@[t as int].encoding());
                    lemma_represents_point::<S, G>(points, t as int);
                    lemma_represents_difference::<S, G>(
                        before[target].encoding(),
                        points[t as int],
                        points,
                        bucket_plus(digits@, j, len, t as int, target),
                        bucket_minus(digits@, j, len, t as int, target),
                        coeffs_unit(len, t as int),
                        coeffs_zero(len),
                    );
                    assert(coeffs_sum(
                        bucket_plus(digits@, j, len, t as int, target),
                        coeffs_zero(len),
                    ) =~= bucket_plus(digits@, j, len, t + 1, target));
                    assert(coeffs_sum(
                        bucket_minus(digits@, j, len, t as int, target),
                        coeffs_unit(len, t as int),
                    ) =~= bucket_minus(digits@, j, len, t + 1, target));
                }
            }
        }
        proof {
            if laws {
                assert forall|k: int| 0 <= k < count implies represents::<S, G>(
                    (#[trigger] buckets@[k]).encoding(),
                    points,
                    bucket_plus(digits@, j, len, t + 1, k),
                    bucket_minus(digits@, j, len, t + 1, k),
                ) by {
                    if k != target {
                        assert(buckets@[k] == before[k]);
                        assert(bucket_plus(digits@, j, len, t + 1, k) =~= bucket_plus(
                            digits@,
                            j,
                            len,
                            t as int,
                            k,
                        ));
                        assert(bucket_minus(digits@, j, len, t + 1, k) =~= bucket_minus(
                            digits@,
                            j,
                            len,
                            t as int,
                            k,
                        ));
                    }
                }
            }
        }
        t += 1;
    }
    let mut c: usize = count - 1;
    let mut intermediate_sum = buckets[c];
    let mut sum = buckets[c];
    proof {
        if laws {
            assert(bucket_plus(digits@, j, len, n as int, c as int) =~= above_plus(
                digits@,
                j,
                len,
                c as int,
            ));
            assert(bucket_minus(digits@, j, len, n as int, c as int) =~= above_minus(
                digits@,
                j,
                len,
                c as int,
            ));
            assert(above_plus(digits@, j, len, c as int) =~= excess_plus(
                digits@,
                j,
                len,
                c as int,
            ));
            assert(above_minus(digits@, j, len, c as int) =~= excess_minus(
                digits@,
                j,
                len,
                c as int,
            ));
        }
    }
    while c > 0
        invariant
            c < count,
            buckets@.len() == count,
            digits@.len() == n,
            points == encodings::<S, G>(elems@).take(n as int),
            laws == (is_commutative_group::<S, G>() && all_elements::<S, G>(points)),
            j == index,
            len == n,
            G::is_element(sum.encoding()),
            laws ==> forall|k: int|
                0 <= k < count ==> represents::<S, G>(
                    (#[trigger] buckets@[k]).encoding(),
                    points,
                    bucket_plus(digits@, j, len, n as int, k),
                    bucket_minus(digits@, j, len, n as int, k),
                ),
            laws ==> represents::<S, G>(
                intermediate_sum.encoding(),
                points,
                above_plus(digits@, j, len, c as int),
                above_minus(digits@, j, len, c as int),
            ),
            laws ==> represents::<S, G>(
                sum.encoding(),
                points,
                excess_plus(digits@, j, len, c as int),
                excess_minus(digits@, j, len, c as int),
            ),
        decreases c,
    {
        let ghost previous = intermediate_sum.encoding();
        let ghost total = sum.encoding();
        c -= 1;
        intermediate_sum = intermediate_sum.add(&buckets[c]);
        sum = sum.add(&intermediate_sum);
        proof {
            if laws {
                lemma_represents_sum::<S, G>(
                    previous,
                    buckets@[c as int].encoding(),
                    points,
                    above_plus(digits@, j, len, c + 1),
                    above_minus(digits@, j, len, c + 1),
                    bucket_plus(digits@, j, len, n as int, c as int),
                    bucket_minus(digits@, j, len, n as int, c as int),
                );
                assert(coeffs_sum(
                    above_plus(digits@, j, len, c + 1),
                    bucket_plus(digits@, j, len, n as int, c as int),
                ) =~= above_plus(digits@, j, len, c as int));
                assert(coeffs_sum(
                    above_minus(digits@, j, len, c + 1),
                    bucket_minus(digits@, j, len, n as int, c as int),
                ) =~= above_minus(digits@, j, len, c as int));
                lemma_represents_sum::<S, G>(
                    total,
                    intermediate_sum.encoding(),
                    points,
                    excess_plus(digits@, j, len, c + 1),
                    excess_minus(digits@, j, len, c + 1),
                    above_plus(digits@, j, len, c as int),
                    above_minus(digits@, j, len, c as int),
                );
                assert(coeffs_sum(
                    excess_plus(digits@, j, len, c + 1),
                    above_plus(digits@, j, len, c as int),
                ) =~= excess_plus(digits@, j, len, c as int));
                assert(coeffs_sum(
                    excess_minus(digits@, j, len, c + 1),
                    above_minus(digits@, j, len, c as int),
                ) =~= excess_minus(digits@, j, len, c as int));
            }
        }
    }
    sum
}

/// Pippenger's method. The window is 6 bits wide below 500 scalars, 7 below
/// 800 and 8 from there on. Each scalar is cut into signed digits of that
/// width; for each place, from the highest down, the points are summed by
/// `bucket_column`, and the columns are joined by Horner's rule. Of no pairs at
/// all the sum is the neutral element.
pub fn pippenger<S: Scalar, G: Group<S>>(scalars: &[&S], elems: &[&G]) -> (r: G)
    ensures
        G::is_element(r.encoding()),
        shorter(scalars@.len(), elems@.len()) == 0 ==> r.encoding() == G::identity(),
        group_acts::<S, G>() && all_elements::<S, G>(encodings::<S, G>(elems@)) ==> r.encoding()
            == multi_exp_value::<S, G>(
            scalar_values(scalars@),
            encodings::<S, G>(elems@),
            shorter(scalars@.len(), elems@.len()),
        ),
{
    let size = scalars.len();
    let n = if elems.len() < size {
        elems.len()
    } else {
        size
    };
    if n == 0 {
        return G::get_identity();
    }
    let w: usize = if size < 500 {
        6
    } else if size < 800 {
        7
    } else {
        8
    };
    let two_power_w = two_to_the(w);
    let bucket_count: usize = (two_power_w / 2) as usize;
    let ghost points = encodings::<S, G>(elems@).take(n as int);
    let ghost values = scalar_values(scalars@);
    let ghost laws = group_acts::<S, G>() && all_elements::<S, G>(encodings::<S, G>(elems@));
    let ghost radix = two_power_w as int;
    proof {
        lemma2_to64();
        lemma_pow2_unfold(w as nat);
    }
    let mut digits_vec: Vec<Vec<i8>> = Vec::new();
    let mut digits_count: usize = 0;
    let mut i: usize = 0;
    while i < n
        invariant
            i <= n,
            n <= scalars@.len(),
            6 <= w <= 8,
            radix == pow2(w as nat),
            bucket_count == pow2((w - 1) as nat),
            digits_vec@.len() == i,
            i > 0 ==> digits_count >= 1,
            forall|k: int|
                0 <= k < i ==> radix_value(ints_of_i8((#[trigger] digits_vec@[k])@), radix, 0)
                    == scalars@[k].value(),
            forall|k: int| 0 <= k < i ==> (#[trigger] scalars@[k]).value() < S::modulus(),
            forall|k: int| 0 <= k < i ==> (#[trigger] digits_vec@[k])@.len() <= digits_count,
            forall|k: int, j: int|
                0 <= k < i && 0 <= j < digits_vec@[k]@.len() ==> -bucket_count <= (
                #[trigger] digits_vec@[k]@[j]) <= bucket_count,
        decreases n - i,
    {
        let digits = scalar_to_radix_2_power_w::<S>(scalars[i], w);
        proof {
            lemma2_to64();
            assert forall|j: int| 0 <= j < digits@.len() implies -bucket_count <= (
            #[trigger] digits@[j]) <= bucket_count by {
                if j == digits@.len() - 1 {
                    assert(0 <= digits@[digits@.len() - 1] <= 1);
                }
            }
        }
        if digits.len() > digits_count {
            digits_count = digits.len();
        }
        digits_vec.push(digits);
        i += 1;
    }
    let mut buckets: Vec<G> = Vec::new();
    let mut b: usize = 0;
    while b < bucket_count
        invariant
            b <= bucket_count,
            buckets@.len() == b,
        decreases bucket_count - b,
    {
        buckets.push(G::get_identity());
        b += 1;
    }
    let two_power_w_int = S::from_u64(two_power_w);
    let mut index: usize = digits_count - 1;
    let mut total = bucket_column::<S, G>(&mut buckets, &digits_vec, elems, n, index);
    let ghost mut plus = excess_plus(digits_vec@, index as int, n as nat, 0);
    let ghost mut minus = excess_minus(digits_vec@, index as int, n as nat, 0);
    proof {
        if laws {
            assert forall|k: int| 0 <= k < points.len() implies G::is_element(
                #[trigger] points[k],
            ) by {
                assert(points[k] == encodings::<S, G>(elems@)[k]);
            }
            assert forall|k: int| 0 <= k < n implies plus[k] - minus[k] == radix_value(
                ints_of_i8(digits_vec@[k]@),
                radix,
                index as int,
            ) by {
                lemma_radix_value_at(ints_of_i8(digits_vec@[k]@), radix, index as int);
                assert(radix_value(ints_of_i8(digits_vec@[k]@), radix, index + 1) == 0);
            }
        }
    }
    while index > 0
        invariant
            n >= 1,
            n <= elems@.len(),
            n <= scalars@.len(),
            digits_vec@.len() == n,
            buckets@.len() == bucket_count,
            1 <= bucket_count <= 128,
            2 <= radix <= 256,
            radix == two_power_w,
            points == encodings::<S, G>(elems@).take(n as int),
            laws == (group_acts::<S, G>() && all_elements::<S, G>(encodings::<S, G>(elems@))),
            two_power_w_int.value() == (two_power_w as nat) % S::modulus(),
            G::is_element(total.encoding()),
            forall|k: int, j: int|
                0 <= k < n && 0 <= j < digits_vec@[k]@.len() ==> -bucket_count <= (
                #[trigger] digits_vec@[k]@[j]) <= bucket_count,
            forall|k: int|
                0 <= k < n ==> radix_value(ints_of_i8((#[trigger] digits_vec@[k])@), radix, 0)
                    == scalars@[k].value(),
            forall|k: int| 0 <= k < n ==> (#[trigger] scalars@[k]).value() < S::modulus(),
            laws ==> all_elements::<S, G>(points),
            laws ==> represents::<S, G>(total.encoding(), points, plus, minus),
            laws ==> forall|k: int|
                0 <= k < n ==> plus[k] - minus[k] == radix_value(
                    ints_of_i8((#[trigger] digits_vec@[k])@),
                    radix,
                    index as int,
                ),
        decreases index,
    {
        index -= 1;
        let col = bucket_column::<S, G>(&mut buckets, &digits_vec, elems, n, index);
        let ghost before = total.encoding();
        let shifted = total.mul(&two_power_w_int);
        total = shifted.add(&col);
        proof {
            if laws {
                reveal(scalars_count);
                lemma_small_mod(two_power_w as nat, S::modulus());
                lemma_represents_multiple::<S, G>(before, points, plus, minus, radix as nat);
                let col_plus = excess_plus(digits_vec@, index as int, n as nat, 0);
                let col_minus = excess_minus(digits_vec@, index as int, n as nat, 0);
                lemma_represents_sum::<S, G>(
                    shifted.encoding(),
                    col.encoding(),
                    points,
                    coeffs_scaled(plus, radix as nat),
                    coeffs_scaled(minus, radix as nat),
                    col_plus,
                    col_minus,
                );
                let new_plus = coeffs_sum(coeffs_scaled(plus, radix as nat), col_plus);
                let new_minus = coeffs_sum(coeffs_scaled(minus, radix as nat), col_minus);
                assert forall|k: int| 0 <= k < n implies new_plus[k] - new_minus[k] == radix_value(
                    ints_of_i8((#[trigger] digits_vec@[k])@),
                    radix,
                    index as int,
                ) by {
                    let d = ints_of_i8(digits_vec@[k]@);
                    lemma_radix_value_at(d, radix, index as int);
                    let p = plus[k] as int;
                    let m = minus[k] as int;
                    assert(p * radix - m * radix == radix * (p - m)) by (nonlinear_arith);
                    if index >= d.len() {
                        assert(radix_value(d, radix, index + 1) == 0);
                    }
                }
                plus = new_plus;
                minus = new_minus;
            }
        }
    }
    proof {
        if laws {
            assert(plus.len() == n && minus.len() == n);
            let target = values.take(n as int);
            assert forall|k: int| 0 <= k < points.len() implies plus[k] == minus[k]
                + target[k] by {
                assert(radix_value(ints_of_i8(digits_vec@[k]@), radix, 0) == scalars@[k].value());
                assert(target[k] == scalars@[k].value());
            }
            lemma_represents_is::<S, G>(total.encoding(), points, plus, minus, target);
            lemma_combination_is_multi_exp::<S, G>(
                values,
                encodings::<S, G>(elems@),
                target,
                points,
                n as nat,
            );
        }
    }
    total
}

/// The value from a place on is the digit there and `radix` times the value
/// from the next place; beyond the last digit it is zero.
proof fn lemma_radix_value_at(digits: Seq<int>, radix: int, from: int)
    requires
        0 <= from,
    ensures
        radix_value(digits, radix, from) == (if from < digits.len() {
            digits[from]
        } else {
            0
        }) + radix * radix_value(digits, radix, from + 1),
{
    if from >= digits.len() {
        assert(radix_value(digits, radix, from + 1) == 0);
    }
}

/// A combination by the scalars' integers is the sum of the scalar multiples.
proof fn lemma_combination_is_multi_exp<S: Scalar, G: Group<S>>(
    values: Seq<nat>,
    all_points: Seq<Seq<u8>>,
    target: Seq<nat>,
    points: Seq<Seq<u8>>,
    n: nat,
)
    requires
        group_acts::<S, G>(),
        all_elements::<S, G>(all_points),
        n <= all_points.len(),
        n <= values.len(),
        points == all_points.take(n as int),
        target == values.take(n as int),
        forall|i: int| 0 <= i < n ==> values[i] < S::modulus(),
    ensures
        combination::<S, G>(points, target, n) == multi_exp_value::<S, G>(values, all_points, n),
    decreases n,
{
    if n > 0 {
        let less = (n - 1) as nat;
        lemma_combination_is_multi_exp::<S, G>(
            values,
            all_points,
            values.take(less as int),
            all_points.take(less as int),
            less,
        );
        lemma_combination_prefix::<S, G>(
            points,
            target,
            all_points.take(less as int),
            values.take(less as int),
            less,
        );
        reveal(scalars_count);
        assert(points[n - 1] == all_points[n - 1]);
        assert(target[n - 1] == values[n - 1]);
    }
}

/// A combination over the first `n` places reads only those places.
proof fn lemma_combination_prefix<S: Scalar, G: Group<S>>(
    points: Seq<Seq<u8>>,
    coeffs: Seq<nat>,
    other_points: Seq<Seq<u8>>,
    other_coeffs: Seq<nat>,
    n: nat,
)
    requires
        forall|i: int| 0 <= i < n ==> points[i] == other_points[i],
        forall|i: int| 0 <= i < n ==> coeffs[i] == other_coeffs[i],
    ensures
        combination::<S, G>(points, coeffs, n) == combination::<S, G>(
            other_points,
            other_coeffs,
            n,
        ),
    decreases n,
{
    if n > 0 {
        lemma_combination_prefix::<S, G>(
            points,
            coeffs,
            other_points,
            other_coeffs,
            (n - 1) as nat,
        );
    }
}

} // verus!
