//! What follows when the operations of a `Group` obey the laws of a
//! commutative group: sums of multiples of given points can be reckoned with
//! by their coefficients alone.
//!
//! The operations of the groups of this library are computed outside of it, so
//! the laws are a hypothesis here, `group_acts`, and never a fact.

use vstd::prelude::*;
use vstd::arithmetic::div_mod::lemma_fundamental_div_mod;
use crate::groups::{Group, Scalar};

verus! {

/// `a` added to itself `k` times, from the neutral element.
pub open spec fn times<S: Scalar, G: Group<S>>(a: Seq<u8>, k: nat) -> Seq<u8>
    decreases k,
{
    if k == 0 {
        G::identity()
    } else {
        G::sum(times::<S, G>(a, (k - 1) as nat), a)
    }
}

/// The laws of a commutative group, on the encodings that are elements.
#[verifier::opaque]
pub open spec fn is_commutative_group<S: Scalar, G: Group<S>>() -> bool {
    &&& G::is_element(G::identity())
    &&& forall|a: Seq<u8>, b: Seq<u8>|
        G::is_element(a) && G::is_element(b) ==> G::is_element(#[trigger] G::sum(a, b))
    &&& forall|a: Seq<u8>, b: Seq<u8>|
        G::is_element(a) && G::is_element(b) ==> G::is_element(#[trigger] G::difference(a, b))
    &&& forall|a: Seq<u8>, b: Seq<u8>|
        G::is_element(a) && G::is_element(b) ==> #[trigger] G::sum(a, b) == G::sum(b, a)
    &&& forall|a: Seq<u8>, b: Seq<u8>, c: Seq<u8>|
        G::is_element(a) && G::is_element(b) && G::is_element(c) ==> #[trigger] G::sum(
            G::sum(a, b),
            c,
        ) == G::sum(a, G::sum(b, c))
    &&& forall|a: Seq<u8>| G::is_element(a) ==> #[trigger] G::sum(a, G::identity()) == a
    &&& forall|a: Seq<u8>, b: Seq<u8>|
        G::is_element(a) && G::is_element(b) ==> G::sum(#[trigger] G::difference(a, b), b) == a
}

/// Multiplying by a scalar is adding that many times, and the scalars reach
/// beyond 256.
#[verifier::opaque]
pub open spec fn scalars_count<S: Scalar, G: Group<S>>() -> bool {
    &&& S::modulus() > 256
    &&& forall|a: Seq<u8>, k: nat|
        G::is_element(a) && k < S::modulus() ==> #[trigger] G::multiple(a, k) == times::<S, G>(
            a,
            k,
        )
}

/// The hypothesis under which this library's sums of multiples are what they
/// are meant to be: the group laws hold, and scalars count additions.
pub open spec fn group_acts<S: Scalar, G: Group<S>>() -> bool {
    is_commutative_group::<S, G>() && scalars_count::<S, G>()
}

/// Every entry of `points` is an element.
pub open spec fn all_elements<S: Scalar, G: Group<S>>(points: Seq<Seq<u8>>) -> bool {
    forall|i: int| 0 <= i < points.len() ==> G::is_element(#[trigger] points[i])
}

/// The sum of `coeffs[i]` times `points[i]` over the first `n` places.
pub open spec fn combination<S: Scalar, G: Group<S>>(
    points: Seq<Seq<u8>>,
    coeffs: Seq<nat>,
    n: nat,
) -> Seq<u8>
    decreases n,
{
    if n == 0 {
        G::identity()
    } else {
        G::sum(
            combination::<S, G>(points, coeffs, (n - 1) as nat),
            times::<S, G>(points[n - 1], coeffs[n - 1]),
        )
    }
}

/// Coefficients added place by place.
pub open spec fn coeffs_sum(p: Seq<nat>, q: Seq<nat>) -> Seq<nat> {
    Seq::new(p.len(), |i: int| p[i] + q[i])
}

/// Coefficients multiplied by `k`.
pub open spec fn coeffs_scaled(p: Seq<nat>, k: nat) -> Seq<nat> {
    Seq::new(p.len(), |i: int| p[i] * k)
}

/// All coefficients zero.
pub open spec fn coeffs_zero(n: nat) -> Seq<nat> {
    Seq::new(n, |i: int| 0nat)
}

/// One at place `at`, zero elsewhere.
pub open spec fn coeffs_unit(n: nat, at: int) -> Seq<nat> {
    Seq::new(
        n,
        |i: int|
            if i == at {
                1nat
            } else {
                0nat
            },
    )
}

/// `x` is the combination with coefficients `plus` less the one with
/// coefficients `minus`, said without subtracting: `x` and the second add up to
/// the first.
pub open spec fn represents<S: Scalar, G: Group<S>>(
    x: Seq<u8>,
    points: Seq<Seq<u8>>,
    plus: Seq<nat>,
    minus: Seq<nat>,
) -> bool {
    &&& G::is_element(x)
    &&& plus.len() == points.len()
    &&& minus.len() == points.len()
    &&& G::sum(x, combination::<S, G>(points, minus, points.len())) == combination::<S, G>(
        points,
        plus,
        points.len(),
    )
}

/// The neutral element is an element.
pub proof fn lemma_identity_element<S: Scalar, G: Group<S>>()
    requires
        is_commutative_group::<S, G>(),
    ensures
        G::is_element(G::identity()),
{
    reveal(is_commutative_group);
}

/// The sum of two elements is an element.
pub proof fn lemma_sum_element<S: Scalar, G: Group<S>>(a: Seq<u8>, b: Seq<u8>)
    requires
        is_commutative_group::<S, G>(),
        G::is_element(a),
        G::is_element(b),
    ensures
        G::is_element(G::sum(a, b)),
{
    reveal(is_commutative_group);
}

/// The difference of two elements is an element, and with what was taken
/// away it adds up to what it was taken from.
pub proof fn lemma_difference_element<S: Scalar, G: Group<S>>(a: Seq<u8>, b: Seq<u8>)
    requires
        is_commutative_group::<S, G>(),
        G::is_element(a),
        G::is_element(b),
    ensures
        G::is_element(G::difference(a, b)),
        G::sum(G::difference(a, b), b) == a,
{
    reveal(is_commutative_group);
}

/// A sum is the same in either order.
pub proof fn lemma_sum_commutes<S: Scalar, G: Group<S>>(a: Seq<u8>, b: Seq<u8>)
    requires
        is_commutative_group::<S, G>(),
        G::is_element(a),
        G::is_element(b),
    ensures
        G::sum(a, b) == G::sum(b, a),
{
    reveal(is_commutative_group);
}

/// A sum of three is the same however it is bracketed.
pub proof fn lemma_sum_associates<S: Scalar, G: Group<S>>(a: Seq<u8>, b: Seq<u8>, c: Seq<u8>)
    requires
        is_commutative_group::<S, G>(),
        G::is_element(a),
        G::is_element(b),
        G::is_element(c),
    ensures
        G::sum(G::sum(a, b), c) == G::sum(a, G::sum(b, c)),
        G::is_element(G::sum(a, b)),
        G::is_element(G::sum(b, c)),
        G::is_element(G::sum(G::sum(a, b), c)),
{
    reveal(is_commutative_group);
}

/// The neutral element changes nothing in a sum.
pub proof fn lemma_sum_identity<S: Scalar, G: Group<S>>(a: Seq<u8>)
    requires
        is_commutative_group::<S, G>(),
        G::is_element(a),
    ensures
        G::sum(a, G::identity()) == a,
        G::sum(G::identity(), a) == a,
{
    reveal(is_commutative_group);
}

/// In a sum of two sums the inner terms may change places.
pub proof fn lemma_sum_interchange<S: Scalar, G: Group<S>>(
    a: Seq<u8>,
    b: Seq<u8>,
    c: Seq<u8>,
    d: Seq<u8>,
)
    requires
        is_commutative_group::<S, G>(),
        G::is_element(a),
        G::is_element(b),
        G::is_element(c),
        G::is_element(d),
    ensures
        G::sum(G::sum(a, b), G::sum(c, d)) == G::sum(G::sum(a, c), G::sum(b, d)),
{
    let cd = G::sum(c, d);
    let bd = G::sum(b, d);
    lemma_sum_element::<S, G>(c, d);
    lemma_sum_element::<S, G>(b, d);
    lemma_sum_associates::<S, G>(a, b, cd);
    lemma_sum_associates::<S, G>(b, c, d);
    lemma_sum_commutes::<S, G>(b, c);
    lemma_sum_associates::<S, G>(c, b, d);
    lemma_sum_associates::<S, G>(a, c, bd);
}

/// What is added can be taken away again.
pub proof fn lemma_sum_cancels<S: Scalar, G: Group<S>>(a: Seq<u8>, b: Seq<u8>, c: Seq<u8>)
    requires
        is_commutative_group::<S, G>(),
        G::is_element(a),
        G::is_element(b),
        G::is_element(c),
        G::sum(a, c) == G::sum(b, c),
    ensures
        a == b,
{
    let zero = G::identity();
    lemma_identity_element::<S, G>();
    let opposite = G::difference(zero, c);
    lemma_difference_element::<S, G>(zero, c);
    lemma_sum_commutes::<S, G>(opposite, c);
    lemma_sum_associates::<S, G>(a, c, opposite);
    lemma_sum_associates::<S, G>(b, c, opposite);
    lemma_sum_identity::<S, G>(a);
    lemma_sum_identity::<S, G>(b);
}

/// A multiple of an element is an element.
pub proof fn lemma_times_element<S: Scalar, G: Group<S>>(a: Seq<u8>, k: nat)
    requires
        is_commutative_group::<S, G>(),
        G::is_element(a),
    ensures
        G::is_element(times::<S, G>(a, k)),
    decreases k,
{
    if k == 0 {
        lemma_identity_element::<S, G>();
    } else {
        lemma_times_element::<S, G>(a, (k - 1) as nat);
        lemma_sum_element::<S, G>(times::<S, G>(a, (k - 1) as nat), a);
    }
}

/// One time an element is the element.
pub proof fn lemma_times_one<S: Scalar, G: Group<S>>(a: Seq<u8>)
    requires
        is_commutative_group::<S, G>(),
        G::is_element(a),
    ensures
        times::<S, G>(a, 1) == a,
        times::<S, G>(a, 0) == G::identity(),
{
    lemma_sum_identity::<S, G>(a);
    assert(times::<S, G>(a, 0) == G::identity());
    assert(times::<S, G>(a, 1) == G::sum(times::<S, G>(a, 0), a));
}

/// Multiples of one element add up as their counts do.
pub proof fn lemma_times_adds<S: Scalar, G: Group<S>>(a: Seq<u8>, m: nat, n: nat)
    requires
        is_commutative_group::<S, G>(),
        G::is_element(a),
    ensures
        times::<S, G>(a, m + n) == G::sum(times::<S, G>(a, m), times::<S, G>(a, n)),
    decreases n,
{
    lemma_times_element::<S, G>(a, m);
    if n == 0 {
        lemma_sum_identity::<S, G>(times::<S, G>(a, m));
    } else {
        let less = (n - 1) as nat;
        lemma_times_adds::<S, G>(a, m, less);
        lemma_times_element::<S, G>(a, less);
        lemma_sum_associates::<S, G>(times::<S, G>(a, m), times::<S, G>(a, less), a);
        assert(times::<S, G>(a, m + n) == G::sum(times::<S, G>(a, (m + n - 1) as nat), a));
    }
}

/// A multiple of a sum is the sum of the multiples.
pub proof fn lemma_times_of_sum<S: Scalar, G: Group<S>>(a: Seq<u8>, b: Seq<u8>, k: nat)
    requires
        is_commutative_group::<S, G>(),
        G::is_element(a),
        G::is_element(b),
    ensures
        times::<S, G>(G::sum(a, b), k) == G::sum(times::<S, G>(a, k), times::<S, G>(b, k)),
    decreases k,
{
    if k == 0 {
        lemma_identity_element::<S, G>();
        lemma_sum_identity::<S, G>(G::identity());
    } else {
        let less = (k - 1) as nat;
        lemma_times_of_sum::<S, G>(a, b, less);
        lemma_times_element::<S, G>(a, less);
        lemma_times_element::<S, G>(b, less);
        lemma_sum_interchange::<S, G>(times::<S, G>(a, less), a, times::<S, G>(b, less), b);
    }
}

/// A multiple of a multiple is the multiple by the product of the counts.
pub proof fn lemma_times_of_times<S: Scalar, G: Group<S>>(a: Seq<u8>, m: nat, k: nat)
    requires
        is_commutative_group::<S, G>(),
        G::is_element(a),
    ensures
        times::<S, G>(times::<S, G>(a, m), k) == times::<S, G>(a, m * k),
    decreases k,
{
    if k == 0 {
        assert(m * k == 0) by (nonlinear_arith)
            requires
                k == 0,
        ;
    } else {
        let less = (k - 1) as nat;
        lemma_times_of_times::<S, G>(a, m, less);
        lemma_times_adds::<S, G>(a, m * less, m);
        assert(m * less + m == m * k) by (nonlinear_arith)
            requires
                less + 1 == k,
        ;
    }
}

/// Every multiple of the neutral element is the neutral element.
pub proof fn lemma_times_of_identity<S: Scalar, G: Group<S>>(k: nat)
    requires
        is_commutative_group::<S, G>(),
    ensures
        times::<S, G>(G::identity(), k) == G::identity(),
    decreases k,
{
    if k > 0 {
        lemma_times_of_identity::<S, G>((k - 1) as nat);
        lemma_identity_element::<S, G>();
        lemma_sum_identity::<S, G>(G::identity());
    }
}

/// A combination of elements is an element.
pub proof fn lemma_combination_element<S: Scalar, G: Group<S>>(
    points: Seq<Seq<u8>>,
    coeffs: Seq<nat>,
    n: nat,
)
    requires
        is_commutative_group::<S, G>(),
        all_elements::<S, G>(points),
        n <= points.len(),
    ensures
        G::is_element(combination::<S, G>(points, coeffs, n)),
    decreases n,
{
    if n == 0 {
        lemma_identity_element::<S, G>();
    } else {
        lemma_combination_element::<S, G>(points, coeffs, (n - 1) as nat);
        lemma_times_element::<S, G>(points[n - 1], coeffs[n - 1]);
        lemma_sum_element::<S, G>(
            combination::<S, G>(points, coeffs, (n - 1) as nat),
            times::<S, G>(points[n - 1], coeffs[n - 1]),
        );
    }
}

/// A combination depends on its first `n` coefficients only.
pub proof fn lemma_combination_depends<S: Scalar, G: Group<S>>(
    points: Seq<Seq<u8>>,
    p: Seq<nat>,
    q: Seq<nat>,
    n: nat,
)
    requires
        forall|i: int| 0 <= i < n ==> p[i] == q[i],
    ensures
        combination::<S, G>(points, p, n) == combination::<S, G>(points, q, n),
    decreases n,
{
    if n > 0 {
        lemma_combination_depends::<S, G>(points, p, q, (n - 1) as nat);
    }
}

/// Combinations add up as their coefficients do.
pub proof fn lemma_combination_adds<S: Scalar, G: Group<S>>(
    points: Seq<Seq<u8>>,
    p: Seq<nat>,
    q: Seq<nat>,
    n: nat,
)
    requires
        is_commutative_group::<S, G>(),
        all_elements::<S, G>(points),
        n <= points.len(),
        p.len() == points.len(),
        q.len() == points.len(),
    ensures
        combination::<S, G>(points, coeffs_sum(p, q), n) == G::sum(
            combination::<S, G>(points, p, n),
            combination::<S, G>(points, q, n),
        ),
    decreases n,
{
    if n == 0 {
        lemma_identity_element::<S, G>();
        lemma_sum_identity::<S, G>(G::identity());
    } else {
        let less = (n - 1) as nat;
        let point = points[n - 1];
        lemma_combination_adds::<S, G>(points, p, q, less);
        lemma_combination_element::<S, G>(points, p, less);
        lemma_combination_element::<S, G>(points, q, less);
        lemma_times_element::<S, G>(point, p[n - 1]);
        lemma_times_element::<S, G>(point, q[n - 1]);
        lemma_times_adds::<S, G>(point, p[n - 1], q[n - 1]);
        lemma_sum_interchange::<S, G>(
            combination::<S, G>(points, p, less),
            combination::<S, G>(points, q, less),
            times::<S, G>(point, p[n - 1]),
            times::<S, G>(point, q[n - 1]),
        );
    }
}

/// A multiple of a combination is the combination with the coefficients
/// multiplied.
pub proof fn lemma_combination_scales<S: Scalar, G: Group<S>>(
    points: Seq<Seq<u8>>,
    p: Seq<nat>,
    k: nat,
    n: nat,
)
    requires
        is_commutative_group::<S, G>(),
        all_elements::<S, G>(points),
        n <= points.len(),
        p.len() == points.len(),
    ensures
        times::<S, G>(combination::<S, G>(points, p, n), k) == combination::<S, G>(
            points,
            coeffs_scaled(p, k),
            n,
        ),
    decreases n,
{
    if n == 0 {
        lemma_times_of_identity::<S, G>(k);
    } else {
        let less = (n - 1) as nat;
        let point = points[n - 1];
        lemma_combination_scales::<S, G>(points, p, k, less);
        lemma_combination_element::<S, G>(points, p, less);
        lemma_times_element::<S, G>(point, p[n - 1]);
        lemma_times_of_sum::<S, G>(
            combination::<S, G>(points, p, less),
            times::<S, G>(point, p[n - 1]),
            k,
        );
        lemma_times_of_times::<S, G>(point, p[n - 1], k);
    }
}

/// With all coefficients zero the combination is the neutral element.
pub proof fn lemma_combination_zero<S: Scalar, G: Group<S>>(points: Seq<Seq<u8>>, n: nat)
    requires
        is_commutative_group::<S, G>(),
        n <= points.len(),
    ensures
        combination::<S, G>(points, coeffs_zero(points.len()), n) == G::identity(),
    decreases n,
{
    if n > 0 {
        lemma_combination_zero::<S, G>(points, (n - 1) as nat);
        lemma_identity_element::<S, G>();
        lemma_sum_identity::<S, G>(G::identity());
        assert(times::<S, G>(points[n - 1], 0) == G::identity());
    }
}

/// With one coefficient one and the others zero the combination is that point.
pub proof fn lemma_combination_unit<S: Scalar, G: Group<S>>(
    points: Seq<Seq<u8>>,
    at: int,
    n: nat,
)
    requires
        is_commutative_group::<S, G>(),
        all_elements::<S, G>(points),
        n <= points.len(),
        0 <= at < points.len(),
    ensures
        combination::<S, G>(points, coeffs_unit(points.len(), at), n) == (if at < n {
            points[at]
        } else {
            G::identity()
        }),
    decreases n,
{
    if n > 0 {
        let less = (n - 1) as nat;
        let point = points[n - 1];
        lemma_combination_unit::<S, G>(points, at, less);
        lemma_identity_element::<S, G>();
        lemma_times_one::<S, G>(point);
        lemma_sum_identity::<S, G>(G::identity());
        lemma_sum_identity::<S, G>(point);
        lemma_sum_identity::<S, G>(points[at]);
    }
}

/// The neutral element stands for no point at all.
pub proof fn lemma_represents_identity<S: Scalar, G: Group<S>>(points: Seq<Seq<u8>>)
    requires
        is_commutative_group::<S, G>(),
        all_elements::<S, G>(points),
    ensures
        represents::<S, G>(
            G::identity(),
            points,
            coeffs_zero(points.len()),
            coeffs_zero(points.len()),
        ),
{
    lemma_identity_element::<S, G>();
    lemma_combination_zero::<S, G>(points, points.len());
    lemma_sum_identity::<S, G>(G::identity());
}

/// A point stands for itself.
pub proof fn lemma_represents_point<S: Scalar, G: Group<S>>(points: Seq<Seq<u8>>, at: int)
    requires
        is_commutative_group::<S, G>(),
        all_elements::<S, G>(points),
        0 <= at < points.len(),
    ensures
        represents::<S, G>(
            points[at],
            points,
            coeffs_unit(points.len(), at),
            coeffs_zero(points.len()),
        ),
{
    lemma_combination_zero::<S, G>(points, points.len());
    lemma_combination_unit::<S, G>(points, at, points.len());
    lemma_sum_identity::<S, G>(points[at]);
}

/// The sum of two represented elements has the coefficients added.
pub proof fn lemma_represents_sum<S: Scalar, G: Group<S>>(
    x: Seq<u8>,
    y: Seq<u8>,
    points: Seq<Seq<u8>>,
    x_plus: Seq<nat>,
    x_minus: Seq<nat>,
    y_plus: Seq<nat>,
    y_minus: Seq<nat>,
)
    requires
        is_commutative_group::<S, G>(),
        all_elements::<S, G>(points),
        represents::<S, G>(x, points, x_plus, x_minus),
        represents::<S, G>(y, points, y_plus, y_minus),
    ensures
        represents::<S, G>(
            G::sum(x, y),
            points,
            coeffs_sum(x_plus, y_plus),
            coeffs_sum(x_minus, y_minus),
        ),
{
    let n = points.len();
    lemma_sum_element::<S, G>(x, y);
    lemma_combination_adds::<S, G>(points, x_plus, y_plus, n);
    lemma_combination_adds::<S, G>(points, x_minus, y_minus, n);
    lemma_combination_element::<S, G>(points, x_minus, n);
    lemma_combination_element::<S, G>(points, y_minus, n);
    lemma_sum_interchange::<S, G>(
        x,
        y,
        combination::<S, G>(points, x_minus, n),
        combination::<S, G>(points, y_minus, n),
    );
}

/// The difference of two represented elements has the coefficients crossed.
pub proof fn lemma_represents_difference<S: Scalar, G: Group<S>>(
    x: Seq<u8>,
    y: Seq<u8>,
    points: Seq<Seq<u8>>,
    x_plus: Seq<nat>,
    x_minus: Seq<nat>,
    y_plus: Seq<nat>,
    y_minus: Seq<nat>,
)
    requires
        is_commutative_group::<S, G>(),
        all_elements::<S, G>(points),
        represents::<S, G>(x, points, x_plus, x_minus),
        represents::<S, G>(y, points, y_plus, y_minus),
    ensures
        represents::<S, G>(
            G::difference(x, y),
            points,
            coeffs_sum(x_plus, y_minus),
            coeffs_sum(x_minus, y_plus),
        ),
{
    let n = points.len();
    let d = G::difference(x, y);
    let xm = combination::<S, G>(points, x_minus, n);
    let ym = combination::<S, G>(points, y_minus, n);
    let xp = combination::<S, G>(points, x_plus, n);
    let yp = combination::<S, G>(points, y_plus, n);
    lemma_difference_element::<S, G>(x, y);
    lemma_combination_adds::<S, G>(points, x_plus, y_minus, n);
    lemma_combination_adds::<S, G>(points, x_minus, y_plus, n);
    lemma_combination_element::<S, G>(points, x_minus, n);
    lemma_combination_element::<S, G>(points, y_minus, n);
    // d + (xm + yp) == d + (xm + (y + ym)) == (d + y) + (xm + ym) == x + (xm + ym)
    //              == (x + xm) + ym == xp + ym
    lemma_sum_interchange::<S, G>(d, y, xm, ym);
    lemma_sum_commutes::<S, G>(y, xm);
    lemma_sum_associates::<S, G>(xm, y, ym);
    lemma_sum_associates::<S, G>(y, xm, ym);
    lemma_sum_element::<S, G>(xm, ym);
    lemma_sum_element::<S, G>(y, ym);
    lemma_sum_associates::<S, G>(d, y, G::sum(xm, ym));
    lemma_sum_associates::<S, G>(x, xm, ym);
    assert(G::sum(xm, yp) == G::sum(y, G::sum(xm, ym)));
    assert(G::sum(d, G::sum(y, G::sum(xm, ym))) == G::sum(G::sum(d, y), G::sum(xm, ym)));
}

/// A multiple of a represented element has the coefficients scaled.
pub proof fn lemma_represents_multiple<S: Scalar, G: Group<S>>(
    x: Seq<u8>,
    points: Seq<Seq<u8>>,
    plus: Seq<nat>,
    minus: Seq<nat>,
    k: nat,
)
    requires
        group_acts::<S, G>(),
        all_elements::<S, G>(points),
        represents::<S, G>(x, points, plus, minus),
        k < S::modulus(),
    ensures
        represents::<S, G>(
            G::multiple(x, k),
            points,
            coeffs_scaled(plus, k),
            coeffs_scaled(minus, k),
        ),
{
    let n = points.len();
    reveal(scalars_count);
    lemma_times_element::<S, G>(x, k);
    lemma_combination_element::<S, G>(points, minus, n);
    lemma_times_of_sum::<S, G>(x, combination::<S, G>(points, minus, n), k);
    lemma_combination_scales::<S, G>(points, plus, k, n);
    lemma_combination_scales::<S, G>(points, minus, k, n);
}

/// Where the coefficients differ by `target` place by place, the represented
/// element is the combination with coefficients `target`.
pub proof fn lemma_represents_is<S: Scalar, G: Group<S>>(
    x: Seq<u8>,
    points: Seq<Seq<u8>>,
    plus: Seq<nat>,
    minus: Seq<nat>,
    target: Seq<nat>,
)
    requires
        is_commutative_group::<S, G>(),
        all_elements::<S, G>(points),
        represents::<S, G>(x, points, plus, minus),
        target.len() == points.len(),
        forall|i: int| 0 <= i < points.len() ==> plus[i] == minus[i] + target[i],
    ensures
        x == combination::<S, G>(points, target, points.len()),
{
    let n = points.len();
    lemma_combination_adds::<S, G>(points, target, minus, n);
    lemma_combination_depends::<S, G>(points, plus, coeffs_sum(target, minus), n);
    lemma_combination_element::<S, G>(points, target, n);
    lemma_combination_element::<S, G>(points, minus, n);
    lemma_sum_cancels::<S, G>(
        x,
        combination::<S, G>(points, target, n),
        combination::<S, G>(points, minus, n),
    );
}

/// A multiple of an element by a scalar is an element.
pub proof fn lemma_multiple_element<S: Scalar, G: Group<S>>(a: Seq<u8>, k: nat)
    requires
        group_acts::<S, G>(),
        G::is_element(a),
        k < S::modulus(),
    ensures
        G::is_element(G::multiple(a, k)),
{
    reveal(scalars_count);
    lemma_times_element::<S, G>(a, k);
}

/// Adding an element as often as there are scalars gives the neutral element:
/// the scalars count modulo their number.
#[verifier::opaque]
pub open spec fn scalars_wrap<S: Scalar, G: Group<S>>() -> bool {
    forall|a: Seq<u8>| G::is_element(a) ==> #[trigger] times::<S, G>(a, S::modulus()) == G::identity()
}

/// Multiples may be counted modulo the number of scalars.
pub proof fn lemma_times_wraps<S: Scalar, G: Group<S>>(a: Seq<u8>, k: nat)
    requires
        is_commutative_group::<S, G>(),
        scalars_wrap::<S, G>(),
        G::is_element(a),
        S::modulus() > 0,
    ensures
        times::<S, G>(a, k % S::modulus()) == times::<S, G>(a, k),
{
    let m = S::modulus();
    let q = k / m;
    let r = k % m;
    reveal(scalars_wrap);
    lemma_fundamental_div_mod(k as int, m as int);
    lemma_times_of_times::<S, G>(a, m, q);
    lemma_times_of_identity::<S, G>(q);
    lemma_times_adds::<S, G>(a, m * q, r);
    lemma_times_element::<S, G>(a, r);
    lemma_sum_identity::<S, G>(times::<S, G>(a, r));
}

/// The sum of the multiples of two elements by `k x + a` and `k y + c`, counted
/// modulo the number of scalars, is `k` times the sum of their multiples by
/// `x` and `y`, and the sum of their multiples by `a` and `c`.
pub proof fn lemma_answer_combines<S: Scalar, G: Group<S>>(
    g: Seq<u8>,
    h: Seq<u8>,
    k: nat,
    x: nat,
    y: nat,
    a: nat,
    c: nat,
)
    requires
        group_acts::<S, G>(),
        scalars_wrap::<S, G>(),
        G::is_element(g),
        G::is_element(h),
        k < S::modulus(),
        x < S::modulus(),
        y < S::modulus(),
        a < S::modulus(),
        c < S::modulus(),
    ensures
        G::sum(
            G::multiple(g, (k * x + a) % S::modulus()),
            G::multiple(h, (k * y + c) % S::modulus()),
        ) == G::sum(
            G::multiple(G::sum(G::multiple(g, x), G::multiple(h, y)), k),
            G::sum(G::multiple(g, a), G::multiple(h, c)),
        ),
{
    reveal(scalars_count);
    let m = S::modulus();
    let gx = times::<S, G>(g, x);
    let hy = times::<S, G>(h, y);
    let ga = times::<S, G>(g, a);
    let hc = times::<S, G>(h, c);
    lemma_times_element::<S, G>(g, x);
    lemma_times_element::<S, G>(h, y);
    lemma_times_element::<S, G>(g, a);
    lemma_times_element::<S, G>(h, c);
    lemma_sum_element::<S, G>(gx, hy);
    let gxk = times::<S, G>(gx, k);
    let hyk = times::<S, G>(hy, k);
    lemma_times_element::<S, G>(gx, k);
    lemma_times_element::<S, G>(hy, k);
    // the left side
    assert((k * x + a) % m < m && (k * y + c) % m < m) by (nonlinear_arith)
        requires
            m > 0,
    ;
    lemma_times_wraps::<S, G>(g, k * x + a);
    lemma_times_wraps::<S, G>(h, k * y + c);
    lemma_times_adds::<S, G>(g, k * x, a);
    lemma_times_adds::<S, G>(h, k * y, c);
    lemma_times_of_times::<S, G>(g, x, k);
    lemma_times_of_times::<S, G>(h, y, k);
    assert(x * k == k * x) by (nonlinear_arith);
    assert(y * k == k * y) by (nonlinear_arith);
    // the right side
    lemma_times_of_sum::<S, G>(gx, hy, k);
    lemma_sum_interchange::<S, G>(gxk, hyk, ga, hc);
}

} // verus!
