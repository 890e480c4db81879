//! Simulated field elements inside a constraint system: six variables for the
//! limbs of a number, eleven for the limbs of a product, and the gates that
//! add, subtract and multiply them limb by limb, without carrying.
//!
//! The values of the limb variables are read as integers around zero. A
//! counter on each simulated element bounds the size of its limbs, so that no
//! sum or product of limbs comes near the order of the field.

use vstd::prelude::*;
use vstd::arithmetic::power2::pow2;
use crate::bls12_381::{bls_scalar_order, BLSScalar};
use crate::field_simulation::{
    lemma_pow2_values, limb_radix, SimFr, BIT_PER_LIMB, NUM_OF_LIMBS, NUM_OF_LIMBS_MUL,
};
use crate::groups::Scalar;
use crate::limbs::{convolution, lemma_radix_value_linear, lemma_radix_value_product, product_limbs};
use crate::radix::radix_value;
use crate::rescue::values_of;
use crate::signed::{integer_sum, lemma_gate_over_integers, signed, signed_all};
use crate::turbo_cs::{
    arithmetic_sum, lemma_admitted_before, lemma_admitted_zero, lemma_grown_twice, TurboCS,
    VarIndex,
};

verus! {

/// The number of gates, and of new variables, of a product: one for each pair
/// of limbs.
pub const PRODUCT_GATES: usize = 36;

/// The number of products of two limbs that go into limb `k` of a product,
/// counting only the first `i` limbs of the first factor.
pub open spec fn products_within(k: int, i: int) -> int
    decreases i,
{
    if i <= 0 {
        0
    } else {
        products_within(k, i - 1) + (if 0 <= k - (i - 1) < 6 {
            1int
        } else {
            0int
        })
    }
}

/// The number of products of two limbs that go into the limbs below `k` of a
/// product.
pub open spec fn products_before(k: int) -> int
    decreases k,
{
    if k <= 0 {
        0
    } else {
        products_before(k - 1) + products_within(k - 1, 6)
    }
}

/// A product has as many products of two limbs as two numbers have pairs of
/// limbs.
pub proof fn lemma_products_counted()
    ensures
        products_before(11) == PRODUCT_GATES,
{
    reveal_with_fuel(products_within, 7);
    assert(products_within(0, 6) == 1);
    assert(products_within(1, 6) == 2);
    assert(products_within(2, 6) == 3);
    assert(products_within(3, 6) == 4);
    assert(products_within(4, 6) == 5);
    assert(products_within(5, 6) == 6);
    assert(products_within(6, 6) == 5);
    assert(products_within(7, 6) == 4);
    assert(products_within(8, 6) == 3);
    assert(products_within(9, 6) == 2);
    assert(products_within(10, 6) == 1);
    reveal_with_fuel(products_before, 12);
}

/// The most additions over normal form that a simulated element may carry.
pub const MAX_ADDITIONS: u64 = 0xffff;

/// The most that the counter of a product may reach.
pub const MAX_PRODUCT: u64 = 0xffff_ffff_ffff;

/// The bound on a limb of a product whose counter is one: `2^89`, above six
/// products of two limbs of 43 bits.
pub open spec fn product_unit() -> int {
    618970019642690137449562112int
}

/// A simulated field element in a constraint system.
#[derive(Clone, Copy, Debug, PartialEq, Eq)]
pub struct SimFrVar {
    /// The variables of the limbs, the lowest first.
    pub var: [VarIndex; NUM_OF_LIMBS],
    /// How many additions or subtractions of normal elements went into this one.
    pub num_of_additions_over_normal_form: u64,
}

/// The product of simulated field elements in a constraint system, or a sum of
/// such products.
#[derive(Clone, Copy, Debug, PartialEq, Eq)]
pub struct SimFrMulVar {
    /// The variables of the limbs, the lowest first.
    pub var: [VarIndex; NUM_OF_LIMBS_MUL],
    /// The sum, over the products that went into this one, of the product of
    /// their factors' counters, each counted from one.
    pub prod_of_num_of_additions: u64,
}

/// The integers that the values of the variables `vars` stand for.
pub open spec fn limbs_in(cs: &TurboCS, vars: Seq<VarIndex>) -> Seq<int> {
    Seq::new(vars.len(), |i: int| signed(cs.value(vars[i])))
}

/// The integers that the values of the variables `vars` stand for in the
/// assignment `w`.
pub open spec fn limbs_at(vars: Seq<VarIndex>, w: Seq<nat>) -> Seq<int> {
    Seq::new(vars.len(), |i: int| signed(w[vars[i] as int]))
}

impl SimFrVar {
    /// The integers that the limbs stand for in `cs`.
    pub open spec fn limbs(&self, cs: &TurboCS) -> Seq<int> {
        limbs_in(cs, self.var@)
    }

    /// The integers that the limbs stand for in the assignment `w`.
    pub open spec fn limbs_at(&self, w: Seq<nat>) -> Seq<int> {
        limbs_at(self.var@, w)
    }

    /// The integer that the element stands for in the assignment `w`.
    pub open spec fn int_value_at(&self, w: Seq<nat>) -> int {
        radix_value(self.limbs_at(w), limb_radix() as int, 0)
    }

    /// Whether, in the assignment `w`, each limb is smaller than the counter
    /// allows.
    pub open spec fn bounded_at(&self, w: Seq<nat>) -> bool {
        forall|i: int|
            0 <= i < NUM_OF_LIMBS ==> -(self.num_of_additions_over_normal_form + 1) * limb_radix()
                < (#[trigger] self.limbs_at(w)[i]) < (self.num_of_additions_over_normal_form + 1)
                * limb_radix()
    }

    /// Whether, in the assignment `w`, each limb is below `2^43`.
    pub open spec fn normal_at(&self, w: Seq<nat>) -> bool {
        forall|i: int| 0 <= i < NUM_OF_LIMBS ==> w[(#[trigger] self.var@[i]) as int] < limb_radix()
    }

    /// The integer that the element stands for in `cs`.
    pub open spec fn int_value(&self, cs: &TurboCS) -> int {
        radix_value(self.limbs(cs), limb_radix() as int, 0)
    }

    /// The variables exist in `cs`, and each limb is smaller than the counter
    /// allows: `2^43` for each addition and once more.
    pub open spec fn wf(&self, cs: &TurboCS) -> bool {
        &&& self.num_of_additions_over_normal_form <= MAX_ADDITIONS
        &&& forall|i: int| 0 <= i < NUM_OF_LIMBS ==> (#[trigger] self.var@[i]) < cs.num_vars
        &&& forall|i: int|
            0 <= i < NUM_OF_LIMBS ==> -(self.num_of_additions_over_normal_form + 1) * limb_radix()
                < (#[trigger] self.limbs(cs)[i]) < (self.num_of_additions_over_normal_form + 1)
                * limb_radix()
    }
}

impl SimFrMulVar {
    /// The integers that the limbs stand for in `cs`.
    pub open spec fn limbs(&self, cs: &TurboCS) -> Seq<int> {
        limbs_in(cs, self.var@)
    }

    /// The integers that the limbs stand for in the assignment `w`.
    pub open spec fn limbs_at(&self, w: Seq<nat>) -> Seq<int> {
        limbs_at(self.var@, w)
    }

    /// The integer that the element stands for in the assignment `w`.
    pub open spec fn int_value_at(&self, w: Seq<nat>) -> int {
        radix_value(self.limbs_at(w), limb_radix() as int, 0)
    }

    /// Whether, in the assignment `w`, each limb is smaller than the counter
    /// allows.
    pub open spec fn bounded_at(&self, w: Seq<nat>) -> bool {
        forall|i: int|
            0 <= i < NUM_OF_LIMBS_MUL ==> -(self.prod_of_num_of_additions * product_unit()) < (
            #[trigger] self.limbs_at(w)[i]) < self.prod_of_num_of_additions * product_unit()
    }

    /// The integer that the element stands for in `cs`.
    pub open spec fn int_value(&self, cs: &TurboCS) -> int {
        radix_value(self.limbs(cs), limb_radix() as int, 0)
    }

    /// The variables exist in `cs`, and each limb is smaller than the counter
    /// allows: `2^89` for each unit of it.
    pub open spec fn wf(&self, cs: &TurboCS) -> bool {
        &&& 1 <= self.prod_of_num_of_additions <= MAX_PRODUCT
        &&& forall|i: int| 0 <= i < NUM_OF_LIMBS_MUL ==> (#[trigger] self.var@[i]) < cs.num_vars
        &&& forall|i: int|
            0 <= i < NUM_OF_LIMBS_MUL ==> -(self.prod_of_num_of_additions * product_unit()) < (
            #[trigger] self.limbs(cs)[i]) < self.prod_of_num_of_additions * product_unit()
    }
}

impl SimFrMulVar {
    /// The sum of two products, limb by limb.
    pub fn add(&self, cs: &mut TurboCS, other: &SimFrMulVar) -> (r: SimFrMulVar)
        requires
            old(cs).assigned(),
            old(cs).has_room(11),
            self.wf(old(cs)),
            other.wf(old(cs)),
            self.prod_of_num_of_additions + other.prod_of_num_of_additions <= MAX_PRODUCT,
        ensures
            old(cs).grown_into(final(cs)),
            final(cs).num_vars == old(cs).num_vars + 11,
            final(cs).size == old(cs).size + 11,
            final(cs).holds() == old(cs).holds(),
            r.wf(final(cs)),
            r.prod_of_num_of_additions == self.prod_of_num_of_additions
                + other.prod_of_num_of_additions,
            forall|i: int|
                0 <= i < NUM_OF_LIMBS_MUL ==> (#[trigger] r.limbs(final(cs))[i]) == self.limbs(
                    old(cs),
                )[i] + other.limbs(old(cs))[i],
            r.int_value(final(cs)) == self.int_value(old(cs)) + other.int_value(old(cs)),
            forall|w: Seq<nat>| #[trigger]
                final(cs).admits(w) && self.bounded_at(w) && other.bounded_at(w) ==> r.bounded_at(
                    w,
                ) && r.int_value_at(w) == self.int_value_at(w) + other.int_value_at(w),
    {
        let zero = BLSScalar::zero();
        let one = BLSScalar::one();
        let q = [one, one, zero, zero, zero, zero, zero];
        let mut var: [VarIndex; 11] = [0, 0, 0, 0, 0, 0, 0, 0, 0, 0, 0];
        let total = self.prod_of_num_of_additions + other.prod_of_num_of_additions;
        let mut i: usize = 0;
        while i < 11
            invariant
                i <= 11,
                old(cs).assigned(),
                old(cs).has_room(11),
                old(cs).grown_into(cs),
                self.wf(old(cs)),
                other.wf(old(cs)),
                total == self.prod_of_num_of_additions + other.prod_of_num_of_additions,
                total <= MAX_PRODUCT,
                signed_all(values_of(q@)) == seq![1int, 1int, 0int, 0int, 0int, 0int, 0int],
                cs.num_vars == old(cs).num_vars + i,
                cs.size == old(cs).size + i,
                cs.holds() == old(cs).holds(),
                forall|k: int| 0 <= k < i ==> var@[k] == old(cs).num_vars + k,
                forall|k: int|
                    0 <= k < i ==> signed(cs.value(#[trigger] var@[k])) == self.limbs(old(cs))[k]
                        + other.limbs(old(cs))[k],
                forall|w: Seq<nat>| #[trigger]
                    cs.admits(w) && self.bounded_at(w) && other.bounded_at(w) ==> forall|k: int|
                        0 <= k < i ==> signed(w[(#[trigger] var@[k]) as int]) == self.limbs_at(
                            w,
                        )[k] + other.limbs_at(w)[k],
            decreases 11 - i,
        {
            let ghost before = *cs;
            let ghost earlier = var@;
            let wires = [self.var[i], other.var[i], 0, 0];
            proof {
                let x = self.limbs(old(cs))[i as int];
                let y = other.limbs(old(cs))[i as int];
                assert(cs.witness@[self.var@[i as int] as int] == old(
                    cs,
                ).witness@[self.var@[i as int] as int]);
                assert(cs.witness@[other.var@[i as int] as int] == old(
                    cs,
                ).witness@[other.var@[i as int] as int]);
                assert(signed(cs.value(wires@[0])) == x);
                assert(signed(cs.value(wires@[1])) == y);
                let z = signed(cs.value(0));
                let sq = signed_all(values_of(q@));
                assert(integer_sum(sq, x, y, z, z) == x + y) by (nonlinear_arith)
                    requires
                        sq[0] == 1,
                        sq[1] == 1,
                        sq[2] == 0,
                        sq[3] == 0,
                        sq[4] == 0,
                        sq[5] == 0,
                        sq[6] == 0,
                        integer_sum(sq, x, y, z, z) == sq[0] * x + sq[1] * y + sq[2] * z + sq[3]
                            * z + sq[4] * (x * y) + sq[5] * (z * z) + sq[6],
                ;
                lemma_product_sum_bound(
                    x,
                    y,
                    self.prod_of_num_of_additions as int,
                    other.prod_of_num_of_additions as int,
                );
            }
            let v = integer_gate(cs, &wires, &q);
            var[i] = v;
            proof {
                assert forall|w: Seq<nat>| #[trigger]
                    cs.admits(w) && self.bounded_at(w) && other.bounded_at(w) implies forall|
                    k: int,
                |
                    0 <= k < i + 1 ==> signed(w[(#[trigger] var@[k]) as int]) == self.limbs_at(
                        w,
                    )[k] + other.limbs_at(w)[k] by {
                    lemma_admitted_before(&before, cs, w);
                    let x = self.limbs_at(w)[i as int];
                    let y = other.limbs_at(w)[i as int];
                    let z = signed(w[0]);
                    let sq = signed_all(values_of(q@));
                    assert(integer_sum(sq, x, y, z, z) == x + y) by (nonlinear_arith)
                        requires
                            sq[0] == 1,
                            sq[1] == 1,
                            sq[2] == 0,
                            sq[3] == 0,
                            sq[4] == 0,
                            sq[5] == 0,
                            sq[6] == 0,
                            integer_sum(sq, x, y, z, z) == sq[0] * x + sq[1] * y + sq[2] * z
                                + sq[3] * z + sq[4] * (x * y) + sq[5] * (z * z) + sq[6],
                    ;
                    lemma_product_sum_bound(
                        x,
                        y,
                        self.prod_of_num_of_additions as int,
                        other.prod_of_num_of_additions as int,
                    );
                    assert(signed(w[wires@[0] as int]) == x);
                    assert(signed(w[wires@[1] as int]) == y);
                    assert(signed(w[v as int]) == x + y);
                    assert forall|k: int| 0 <= k < i + 1 implies signed(
                        w[(#[trigger] var@[k]) as int],
                    ) == self.limbs_at(w)[k] + other.limbs_at(w)[k] by {
                        if k < i {
                            assert(var@[k] == earlier[k]);
                        }
                    }
                }
                assert forall|k: int| 0 <= k < i implies signed(cs.value(#[trigger] var@[k]))
                    == self.limbs(old(cs))[k] + other.limbs(old(cs))[k] by {
                    assert(cs.witness@[var@[k] as int] == before.witness@[var@[k] as int]);
                }
                assert forall|u: int| 0 <= u < old(cs).num_vars implies (#[trigger] cs.witness@[u])
                    == old(cs).witness@[u] by {
                    assert(before.witness@[u] == old(cs).witness@[u]);
                }
            }
            i += 1;
        }
        let r = SimFrMulVar { var, prod_of_num_of_additions: total };
        proof {
            assert forall|k: int| 0 <= k < NUM_OF_LIMBS_MUL implies (#[trigger] r.limbs(cs)[k])
                == self.limbs(old(cs))[k] + other.limbs(old(cs))[k] && -(total * product_unit())
                < r.limbs(cs)[k] < total * product_unit() by {
                assert(signed(cs.value(var@[k])) == self.limbs(old(cs))[k] + other.limbs(
                    old(cs),
                )[k]);
                lemma_product_sum_bound(
                    self.limbs(old(cs))[k],
                    other.limbs(old(cs))[k],
                    self.prod_of_num_of_additions as int,
                    other.prod_of_num_of_additions as int,
                );
            }
            lemma_radix_value_linear(
                self.limbs(old(cs)),
                other.limbs(old(cs)),
                r.limbs(cs),
                1,
                limb_radix() as int,
                0,
            );
            assert forall|w: Seq<nat>| #[trigger]
                cs.admits(w) && self.bounded_at(w) && other.bounded_at(w) implies r.bounded_at(w)
                && r.int_value_at(w) == self.int_value_at(w) + other.int_value_at(w) by {
                assert forall|k: int| 0 <= k < NUM_OF_LIMBS_MUL implies (
                #[trigger] r.limbs_at(w)[k]) == self.limbs_at(w)[k] + other.limbs_at(w)[k] && -(
                total * product_unit()) < r.limbs_at(w)[k] < total * product_unit() by {
                    assert(signed(w[var@[k] as int]) == self.limbs_at(w)[k] + other.limbs_at(
                        w,
                    )[k]);
                    lemma_product_sum_bound(
                        self.limbs_at(w)[k],
                        other.limbs_at(w)[k],
                        self.prod_of_num_of_additions as int,
                        other.prod_of_num_of_additions as int,
                    );
                }
                lemma_radix_value_linear(
                    self.limbs_at(w),
                    other.limbs_at(w),
                    r.limbs_at(w),
                    1,
                    limb_radix() as int,
                    0,
                );
            }
        }
        r
    }

    /// A product less a simulated element, limb by limb: the limbs above the
    /// sixth stay as they are.
    pub fn sub(&self, cs: &mut TurboCS, other: &SimFrVar) -> (r: SimFrMulVar)
        requires
            old(cs).assigned(),
            old(cs).has_room(6),
            self.wf(old(cs)),
            other.wf(old(cs)),
            self.prod_of_num_of_additions + other.num_of_additions_over_normal_form + 1
                <= MAX_PRODUCT,
        ensures
            old(cs).grown_into(final(cs)),
            final(cs).num_vars == old(cs).num_vars + 6,
            final(cs).size == old(cs).size + 6,
            final(cs).holds() == old(cs).holds(),
            r.wf(final(cs)),
            r.prod_of_num_of_additions == self.prod_of_num_of_additions
                + other.num_of_additions_over_normal_form + 1,
            forall|i: int|
                0 <= i < NUM_OF_LIMBS_MUL ==> (#[trigger] r.limbs(final(cs))[i]) == self.limbs(
                    old(cs),
                )[i] - (if i < NUM_OF_LIMBS {
                    other.limbs(old(cs))[i]
                } else {
                    0
                }),
            r.int_value(final(cs)) == self.int_value(old(cs)) - other.int_value(old(cs)),
            forall|w: Seq<nat>| #[trigger]
                final(cs).admits(w) && self.bounded_at(w) && other.bounded_at(w) ==> r.bounded_at(
                    w,
                ) && r.int_value_at(w) == self.int_value_at(w) - other.int_value_at(w),
    {
        let zero = BLSScalar::zero();
        let one = BLSScalar::one();
        let minus_one = zero.sub(&one);
        let q = [one, minus_one, zero, zero, zero, zero, zero];
        let mut var: [VarIndex; 11] = self.var;
        let total = self.prod_of_num_of_additions + other.num_of_additions_over_normal_form + 1;
        let mut i: usize = 0;
        while i < 6
            invariant
                i <= 6,
                old(cs).assigned(),
                old(cs).has_room(6),
                old(cs).grown_into(cs),
                self.wf(old(cs)),
                other.wf(old(cs)),
                total == self.prod_of_num_of_additions + other.num_of_additions_over_normal_form
                    + 1,
                total <= MAX_PRODUCT,
                signed_all(values_of(q@)) == seq![1int, -1int, 0int, 0int, 0int, 0int, 0int],
                cs.num_vars == old(cs).num_vars + i,
                cs.size == old(cs).size + i,
                cs.holds() == old(cs).holds(),
                forall|k: int| 0 <= k < i ==> var@[k] == old(cs).num_vars + k,
                forall|k: int| i <= k < 11 ==> var@[k] == self.var@[k],
                forall|k: int|
                    0 <= k < i ==> signed(cs.value(#[trigger] var@[k])) == self.limbs(old(cs))[k]
                        - other.limbs(old(cs))[k],
                forall|w: Seq<nat>| #[trigger]
                    cs.admits(w) && self.bounded_at(w) && other.bounded_at(w) ==> forall|k: int|
                        0 <= k < i ==> signed(w[(#[trigger] var@[k]) as int]) == self.limbs_at(
                            w,
                        )[k] - other.limbs_at(w)[k],
            decreases 6 - i,
        {
            let ghost before = *cs;
            let ghost earlier = var@;
            let wires = [self.var[i], other.var[i], 0, 0];
            proof {
                let x = self.limbs(old(cs))[i as int];
                let y = other.limbs(old(cs))[i as int];
                assert(cs.witness@[self.var@[i as int] as int] == old(
                    cs,
                ).witness@[self.var@[i as int] as int]);
                assert(cs.witness@[other.var@[i as int] as int] == old(
                    cs,
                ).witness@[other.var@[i as int] as int]);
                assert(signed(cs.value(wires@[0])) == x);
                assert(signed(cs.value(wires@[1])) == y);
                let z = signed(cs.value(0));
                let sq = signed_all(values_of(q@));
                assert(integer_sum(sq, x, y, z, z) == x - y) by (nonlinear_arith)
                    requires
                        sq[0] == 1,
                        sq[1] == -1,
                        sq[2] == 0,
                        sq[3] == 0,
                        sq[4] == 0,
                        sq[5] == 0,
                        sq[6] == 0,
                        integer_sum(sq, x, y, z, z) == sq[0] * x + sq[1] * y + sq[2] * z + sq[3]
                            * z + sq[4] * (x * y) + sq[5] * (z * z) + sq[6],
                ;
                lemma_product_less_bound(
                    x,
                    y,
                    self.prod_of_num_of_additions as int,
                    other.num_of_additions_over_normal_form as int,
                );
            }
            let v = integer_gate(cs, &wires, &q);
            var[i] = v;
            proof {
                assert forall|w: Seq<nat>| #[trigger]
                    cs.admits(w) && self.bounded_at(w) && other.bounded_at(w) implies forall|
                    k: int,
                |
                    0 <= k < i + 1 ==> signed(w[(#[trigger] var@[k]) as int]) == self.limbs_at(
                        w,
                    )[k] - other.limbs_at(w)[k] by {
                    lemma_admitted_before(&before, cs, w);
                    let x = self.limbs_at(w)[i as int];
                    let y = other.limbs_at(w)[i as int];
                    let z = signed(w[0]);
                    let sq = signed_all(values_of(q@));
                    assert(integer_sum(sq, x, y, z, z) == x - y) by (nonlinear_arith)
                        requires
                            sq[0] == 1,
                            sq[1] == -1,
                            sq[2] == 0,
                            sq[3] == 0,
                            sq[4] == 0,
                            sq[5] == 0,
                            sq[6] == 0,
                            integer_sum(sq, x, y, z, z) == sq[0] * x + sq[1] * y + sq[2] * z
                                + sq[3] * z + sq[4] * (x * y) + sq[5] * (z * z) + sq[6],
                    ;
                    lemma_product_less_bound(
                        x,
                        y,
                        self.prod_of_num_of_additions as int,
                        other.num_of_additions_over_normal_form as int,
                    );
                    assert(signed(w[wires@[0] as int]) == x);
                    assert(signed(w[wires@[1] as int]) == y);
                    assert(signed(w[v as int]) == x - y);
                    assert forall|k: int| 0 <= k < i + 1 implies signed(
                        w[(#[trigger] var@[k]) as int],
                    ) == self.limbs_at(w)[k] - other.limbs_at(w)[k] by {
                        if k < i {
                            assert(var@[k] == earlier[k]);
                        }
                    }
                }
                assert forall|k: int| 0 <= k < i implies signed(cs.value(#[trigger] var@[k]))
                    == self.limbs(old(cs))[k] - other.limbs(old(cs))[k] by {
                    assert(cs.witness@[var@[k] as int] == before.witness@[var@[k] as int]);
                }
                assert forall|u: int| 0 <= u < old(cs).num_vars implies (#[trigger] cs.witness@[u])
                    == old(cs).witness@[u] by {
                    assert(before.witness@[u] == old(cs).witness@[u]);
                }
            }
            i += 1;
        }
        let r = SimFrMulVar { var, prod_of_num_of_additions: total };
        proof {
            assert forall|k: int| 0 <= k < NUM_OF_LIMBS_MUL implies (#[trigger] r.limbs(cs)[k])
                == self.limbs(old(cs))[k] - (if k < NUM_OF_LIMBS {
                other.limbs(old(cs))[k]
            } else {
                0
            }) && -(total * product_unit()) < r.limbs(cs)[k] < total * product_unit()
                && r.var@[k] < cs.num_vars by {
                if k < 6 {
                    assert(signed(cs.value(var@[k])) == self.limbs(old(cs))[k] - other.limbs(
                        old(cs),
                    )[k]);
                    lemma_product_less_bound(
                        self.limbs(old(cs))[k],
                        other.limbs(old(cs))[k],
                        self.prod_of_num_of_additions as int,
                        other.num_of_additions_over_normal_form as int,
                    );
                } else {
                    assert(var@[k] == self.var@[k]);
                    assert(cs.witness@[self.var@[k] as int] == old(cs).witness@[self.var@[k] as int]);
                    lemma_product_less_bound(
                        self.limbs(old(cs))[k],
                        0,
                        self.prod_of_num_of_additions as int,
                        other.num_of_additions_over_normal_form as int,
                    );
                }
            }
            lemma_radix_value_linear(
                self.limbs(old(cs)),
                other.limbs(old(cs)),
                r.limbs(cs),
                -1,
                limb_radix() as int,
                0,
            );
            assert forall|w: Seq<nat>| #[trigger]
                cs.admits(w) && self.bounded_at(w) && other.bounded_at(w) implies r.bounded_at(w)
                && r.int_value_at(w) == self.int_value_at(w) - other.int_value_at(w) by {
                assert forall|k: int| 0 <= k < NUM_OF_LIMBS_MUL implies (
                #[trigger] r.limbs_at(w)[k]) == self.limbs_at(w)[k] - (if k < NUM_OF_LIMBS {
                    other.limbs_at(w)[k]
                } else {
                    0
                }) && -(total * product_unit()) < r.limbs_at(w)[k] < total * product_unit() by {
                    if k < 6 {
                        assert(signed(w[var@[k] as int]) == self.limbs_at(w)[k] - other.limbs_at(
                            w,
                        )[k]);
                        lemma_product_less_bound(
                            self.limbs_at(w)[k],
                            other.limbs_at(w)[k],
                            self.prod_of_num_of_additions as int,
                            other.num_of_additions_over_normal_form as int,
                        );
                    } else {
                        assert(var@[k] == self.var@[k]);
                        lemma_product_less_bound(
                            self.limbs_at(w)[k],
                            0,
                            self.prod_of_num_of_additions as int,
                            other.num_of_additions_over_normal_form as int,
                        );
                    }
                }
                lemma_radix_value_linear(
                    self.limbs_at(w),
                    other.limbs_at(w),
                    r.limbs_at(w),
                    -1,
                    limb_radix() as int,
                    0,
                );
            }
        }
        r
    }
}

/// The sum of two limbs of products is within the sum of their bounds, and far
/// below half the order of the field.
pub proof fn lemma_product_sum_bound(x: int, y: int, pa: int, pb: int)
    requires
        1 <= pa,
        1 <= pb,
        pa + pb <= MAX_PRODUCT,
        -(pa * product_unit()) < x < pa * product_unit(),
        -(pb * product_unit()) < y < pb * product_unit(),
    ensures
        -((pa + pb) * product_unit()) < x + y < (pa + pb) * product_unit(),
        -bls_scalar_order() < 2 * (x + y) < bls_scalar_order(),
{
}

/// A limb of a product less a limb of an element is within the sum of their
/// bounds, and far below half the order of the field.
pub proof fn lemma_product_less_bound(x: int, y: int, pa: int, cb: int)
    requires
        1 <= pa,
        0 <= cb,
        pa + cb + 1 <= MAX_PRODUCT,
        -(pa * product_unit()) < x < pa * product_unit(),
        -((cb + 1) * limb_radix()) < y < (cb + 1) * limb_radix(),
    ensures
        -((pa + cb + 1) * product_unit()) < x - y < (pa + cb + 1) * product_unit(),
        -bls_scalar_order() < 2 * (x - y) < bls_scalar_order(),
{
}

/// Variables for the limbs of `val`, each held below `2^bits[i]`.
fn alloc_limbs(cs: &mut TurboCS, val: &SimFr, bits: &[usize; 6]) -> (var: [VarIndex; 6])
    requires
        old(cs).assigned(),
        old(cs).has_room(6),
    ensures
        old(cs).grown_into(final(cs)),
        final(cs).num_vars == old(cs).num_vars + 6,
        final(cs).size == old(cs).size + 6,
        forall|i: int| 0 <= i < 6 ==> var@[i] == old(cs).num_vars + i,
        forall|i: int| 0 <= i < 6 ==> final(cs).value(#[trigger] var@[i]) == val.limb_values()[i],
        final(cs).holds() == (old(cs).holds() && forall|i: int|
            0 <= i < 6 ==> (#[trigger] val.limb_values()[i]) < pow2(bits@[i] as nat)),
        forall|w: Seq<nat>| #[trigger]
            final(cs).admits(w) ==> forall|i: int|
                0 <= i < 6 ==> w[(#[trigger] var@[i]) as int] < pow2(bits@[i] as nat),
{
    let mut var: [VarIndex; 6] = [0, 0, 0, 0, 0, 0];
    let mut i: usize = 0;
    while i < 6
        invariant
            i <= 6,
            old(cs).assigned(),
            old(cs).has_room(6),
            old(cs).grown_into(cs),
            forall|w: Seq<nat>| #[trigger]
                cs.admits(w) ==> forall|k: int|
                    0 <= k < i ==> w[(#[trigger] var@[k]) as int] < pow2(bits@[k] as nat),
            cs.num_vars == old(cs).num_vars + i,
            cs.size == old(cs).size + i,
            forall|k: int| 0 <= k < i ==> var@[k] == old(cs).num_vars + k,
            forall|k: int| 0 <= k < i ==> cs.value(#[trigger] var@[k]) == val.limb_values()[k],
            cs.holds() == (old(cs).holds() && forall|k: int|
                0 <= k < i ==> (#[trigger] val.limb_values()[k]) < pow2(bits@[k] as nat)),
        decreases 6 - i,
    {
        let ghost before = *cs;
        let ghost earlier = var@;
        let v = cs.new_variable(val.limbs[i]);
        let ghost middle = *cs;
        cs.range_check(v, bits[i]);
        var[i] = v;
        proof {
            lemma_grown_twice(&before, &middle, cs);
            assert forall|w: Seq<nat>| #[trigger] cs.admits(w) implies forall|k: int|
                0 <= k < i + 1 ==> w[(#[trigger] var@[k]) as int] < pow2(bits@[k] as nat) by {
                lemma_admitted_before(&before, cs, w);
                assert(before.admits(w));
                assert forall|k: int| 0 <= k < i + 1 implies w[(#[trigger] var@[k]) as int] < pow2(
                    bits@[k] as nat,
                ) by {
                    if k < i {
                        assert(var@[k] == earlier[k]);
                    }
                }
            }
            assert(cs.value(v) == val.limb_values()[i as int]);
            assert forall|k: int| 0 <= k < i implies cs.value(#[trigger] var@[k])
                == val.limb_values()[k] by {
                assert(cs.witness@[var@[k] as int] == before.witness@[var@[k] as int]);
            }
            assert forall|u: int| 0 <= u < old(cs).num_vars implies (#[trigger] cs.witness@[u])
                == old(cs).witness@[u] by {
                assert(before.witness@[u] == old(cs).witness@[u]);
            }
        }
        i += 1;
    }
    var
}

/// A simulated product stays what it is where the system grows.
pub proof fn lemma_product_grown(before: &TurboCS, after: &TurboCS, product: SimFrMulVar)
    requires
        before.grown_into(after),
        product.wf(before),
    ensures
        product.wf(after),
        product.limbs(after) == product.limbs(before),
        product.int_value(after) == product.int_value(before),
{
    assert forall|i: int| 0 <= i < NUM_OF_LIMBS_MUL implies (#[trigger] product.limbs(after)[i])
        == product.limbs(before)[i] by {
        assert(product.var@[i] < before.num_vars);
        assert(after.witness@[product.var@[i] as int] == before.witness@[product.var@[i] as int]);
    }
    assert(product.limbs(after) =~= product.limbs(before));
    assert forall|i: int| 0 <= i < NUM_OF_LIMBS_MUL implies (#[trigger] product.var@[i])
        < after.num_vars by {
        assert(product.var@[i] < before.num_vars);
    }
}

/// An arithmetic gate whose left side is small over the integers: the new
/// variable stands for that integer.
pub fn integer_gate(cs: &mut TurboCS, wires: &[VarIndex; 4], q: &[BLSScalar; 7]) -> (out: VarIndex)
    requires
        old(cs).assigned(),
        old(cs).has_room(1),
        forall|i: int| 0 <= i < 4 ==> wires@[i] < old(cs).num_vars,
        -bls_scalar_order() < 2 * integer_sum(
            signed_all(values_of(q@)),
            signed(old(cs).value(wires@[0])),
            signed(old(cs).value(wires@[1])),
            signed(old(cs).value(wires@[2])),
            signed(old(cs).value(wires@[3])),
        ) < bls_scalar_order(),
    ensures
        old(cs).grown_into(final(cs)),
        out == old(cs).num_vars,
        final(cs).num_vars == old(cs).num_vars + 1,
        final(cs).size == old(cs).size + 1,
        final(cs).holds() == old(cs).holds(),
        signed(final(cs).value(out)) == integer_sum(
            signed_all(values_of(q@)),
            signed(old(cs).value(wires@[0])),
            signed(old(cs).value(wires@[1])),
            signed(old(cs).value(wires@[2])),
            signed(old(cs).value(wires@[3])),
        ),
        forall|w: Seq<nat>| #[trigger]
            final(cs).admits(w) ==> w[out as int] == arithmetic_sum(
                values_of(q@),
                w[wires@[0] as int],
                w[wires@[1] as int],
                w[wires@[2] as int],
                w[wires@[3] as int],
            ) % bls_scalar_order(),
        forall|w: Seq<nat>| #[trigger]
            final(cs).admits(w) && -bls_scalar_order() < 2 * integer_sum(
                signed_all(values_of(q@)),
                signed(w[wires@[0] as int]),
                signed(w[wires@[1] as int]),
                signed(w[wires@[2] as int]),
                signed(w[wires@[3] as int]),
            ) < bls_scalar_order() ==> signed(w[out as int]) == integer_sum(
                signed_all(values_of(q@)),
                signed(w[wires@[0] as int]),
                signed(w[wires@[1] as int]),
                signed(w[wires@[2] as int]),
                signed(w[wires@[3] as int]),
            ),
{
    let _ = q[0].as_bytes();
    let _ = q[1].as_bytes();
    let _ = q[2].as_bytes();
    let _ = q[3].as_bytes();
    let _ = q[4].as_bytes();
    let _ = q[5].as_bytes();
    let _ = q[6].as_bytes();
    let out = cs.arithmetic_gate(wires, q);
    proof {
        lemma_gate_over_integers(
            values_of(q@),
            old(cs).value(wires@[0]),
            old(cs).value(wires@[1]),
            old(cs).value(wires@[2]),
            old(cs).value(wires@[3]),
            cs.value(out),
        );
        assert forall|w: Seq<nat>| #[trigger]
            cs.admits(w) && -bls_scalar_order() < 2 * integer_sum(
                signed_all(values_of(q@)),
                signed(w[wires@[0] as int]),
                signed(w[wires@[1] as int]),
                signed(w[wires@[2] as int]),
                signed(w[wires@[3] as int]),
            ) < bls_scalar_order() implies signed(w[out as int]) == integer_sum(
            signed_all(values_of(q@)),
            signed(w[wires@[0] as int]),
            signed(w[wires@[1] as int]),
            signed(w[wires@[2] as int]),
            signed(w[wires@[3] as int]),
        ) by {
            lemma_gate_over_integers(
                values_of(q@),
                w[wires@[0] as int],
                w[wires@[1] as int],
                w[wires@[2] as int],
                w[wires@[3] as int],
                w[out as int],
            );
        }
    }
    out
}

/// The limbs of `a` and `sign` times the limbs of `b`, limb by limb; `sign` is
/// one or minus one.
fn combine(
    a: &SimFrVar,
    cs: &mut TurboCS,
    b: &SimFrVar,
    sign: BLSScalar,
    Ghost(s): Ghost<int>,
) -> (r: SimFrVar)
    requires
        old(cs).assigned(),
        old(cs).has_room(6),
        a.wf(old(cs)),
        b.wf(old(cs)),
        a.num_of_additions_over_normal_form + b.num_of_additions_over_normal_form + 1
            <= MAX_ADDITIONS,
        s == 1 || s == -1,
        signed(sign.value()) == s,
    ensures
        old(cs).grown_into(final(cs)),
        final(cs).num_vars == old(cs).num_vars + 6,
        final(cs).size == old(cs).size + 6,
        final(cs).holds() == old(cs).holds(),
        r.wf(final(cs)),
        r.num_of_additions_over_normal_form == a.num_of_additions_over_normal_form
            + b.num_of_additions_over_normal_form + 1,
        forall|i: int|
            0 <= i < 6 ==> (#[trigger] r.limbs(final(cs))[i]) == a.limbs(old(cs))[i] + s * b.limbs(
                old(cs),
            )[i],
        r.int_value(final(cs)) == a.int_value(old(cs)) + s * b.int_value(old(cs)),
        forall|w: Seq<nat>| #[trigger]
            final(cs).admits(w) && a.bounded_at(w) && b.bounded_at(w) ==> r.bounded_at(w)
                && r.int_value_at(w) == a.int_value_at(w) + s * b.int_value_at(w),
{
    let zero = BLSScalar::zero();
    let one = BLSScalar::one();
    let q = [one, sign, zero, zero, zero, zero, zero];
    let mut var: [VarIndex; 6] = [0, 0, 0, 0, 0, 0];
    let total = a.num_of_additions_over_normal_form + b.num_of_additions_over_normal_form + 1;
    let mut i: usize = 0;
    while i < 6
        invariant
            i <= 6,
            old(cs).assigned(),
            old(cs).has_room(6),
            old(cs).grown_into(cs),
            a.wf(old(cs)),
            b.wf(old(cs)),
            total == a.num_of_additions_over_normal_form + b.num_of_additions_over_normal_form + 1,
            total <= MAX_ADDITIONS,
            s == 1 || s == -1,
            signed_all(values_of(q@)) == seq![1int, s, 0int, 0int, 0int, 0int, 0int],
            cs.num_vars == old(cs).num_vars + i,
            cs.size == old(cs).size + i,
            cs.holds() == old(cs).holds(),
            forall|k: int| 0 <= k < i ==> var@[k] == old(cs).num_vars + k,
            forall|k: int|
                0 <= k < i ==> signed(cs.value(#[trigger] var@[k])) == a.limbs(old(cs))[k] + s
                    * b.limbs(old(cs))[k],
            forall|w: Seq<nat>| #[trigger]
                cs.admits(w) && a.bounded_at(w) && b.bounded_at(w) ==> forall|k: int|
                    0 <= k < i ==> signed(w[(#[trigger] var@[k]) as int]) == a.limbs_at(w)[k] + s
                        * b.limbs_at(w)[k],
        decreases 6 - i,
    {
        let ghost before = *cs;
        let ghost earlier = var@;
        let wires = [a.var[i], b.var[i], 0, 0];
        proof {
            lemma_pow2_values();
            let x = a.limbs(old(cs))[i as int];
            let y = b.limbs(old(cs))[i as int];
            assert(cs.witness@[a.var@[i as int] as int] == old(cs).witness@[a.var@[i as int] as int]);
            assert(cs.witness@[b.var@[i as int] as int] == old(cs).witness@[b.var@[i as int] as int]);
            assert(signed(cs.value(wires@[0])) == x);
            assert(signed(cs.value(wires@[1])) == y);
            let z = signed(cs.value(0));
            let sq = signed_all(values_of(q@));
            assert(integer_sum(sq, x, y, z, z) == x + s * y) by (nonlinear_arith)
                requires
                    sq[0] == 1,
                    sq[1] == s,
                    sq[2] == 0,
                    sq[3] == 0,
                    sq[4] == 0,
                    sq[5] == 0,
                    sq[6] == 0,
                    integer_sum(sq, x, y, z, z) == sq[0] * x + sq[1] * y + sq[2] * z + sq[3] * z
                        + sq[4] * (x * y) + sq[5] * (z * z) + sq[6],
            ;
            assert(-(total + 1) * limb_radix() < x + s * y < (total + 1) * limb_radix())
                by (nonlinear_arith)
                requires
                    s == 1 || s == -1,
                    -(a.num_of_additions_over_normal_form + 1) * limb_radix() < x < (
                    a.num_of_additions_over_normal_form + 1) * limb_radix(),
                    -(b.num_of_additions_over_normal_form + 1) * limb_radix() < y < (
                    b.num_of_additions_over_normal_form + 1) * limb_radix(),
                    total == a.num_of_additions_over_normal_form
                        + b.num_of_additions_over_normal_form + 1,
            ;
        }
        let v = integer_gate(cs, &wires, &q);
        var[i] = v;
        proof {
            assert forall|w: Seq<nat>| #[trigger]
                cs.admits(w) && a.bounded_at(w) && b.bounded_at(w) implies forall|k: int|
                0 <= k < i + 1 ==> signed(w[(#[trigger] var@[k]) as int]) == a.limbs_at(w)[k] + s
                    * b.limbs_at(w)[k] by {
                lemma_admitted_before(&before, cs, w);
                let x = a.limbs_at(w)[i as int];
                let y = b.limbs_at(w)[i as int];
                let z = signed(w[0]);
                let sq = signed_all(values_of(q@));
                assert(integer_sum(sq, x, y, z, z) == x + s * y) by (nonlinear_arith)
                    requires
                        sq[0] == 1,
                        sq[1] == s,
                        sq[2] == 0,
                        sq[3] == 0,
                        sq[4] == 0,
                        sq[5] == 0,
                        sq[6] == 0,
                        integer_sum(sq, x, y, z, z) == sq[0] * x + sq[1] * y + sq[2] * z + sq[3]
                            * z + sq[4] * (x * y) + sq[5] * (z * z) + sq[6],
                ;
                assert(-(total + 1) * limb_radix() < x + s * y < (total + 1) * limb_radix())
                    by (nonlinear_arith)
                    requires
                        s == 1 || s == -1,
                        -(a.num_of_additions_over_normal_form + 1) * limb_radix() < x < (
                        a.num_of_additions_over_normal_form + 1) * limb_radix(),
                        -(b.num_of_additions_over_normal_form + 1) * limb_radix() < y < (
                        b.num_of_additions_over_normal_form + 1) * limb_radix(),
                        total == a.num_of_additions_over_normal_form
                            + b.num_of_additions_over_normal_form + 1,
                ;
                assert(signed(w[wires@[0] as int]) == x);
                assert(signed(w[wires@[1] as int]) == y);
                assert(signed(w[v as int]) == x + s * y);
                assert forall|k: int| 0 <= k < i + 1 implies signed(
                    w[(#[trigger] var@[k]) as int],
                ) == a.limbs_at(w)[k] + s * b.limbs_at(w)[k] by {
                    if k < i {
                        assert(var@[k] == earlier[k]);
                    }
                }
            }
            assert forall|k: int| 0 <= k < i implies signed(cs.value(#[trigger] var@[k]))
                == a.limbs(old(cs))[k] + s * b.limbs(old(cs))[k] by {
                assert(cs.witness@[var@[k] as int] == before.witness@[var@[k] as int]);
            }
            assert forall|u: int| 0 <= u < old(cs).num_vars implies (#[trigger] cs.witness@[u])
                == old(cs).witness@[u] by {
                assert(before.witness@[u] == old(cs).witness@[u]);
            }
        }
        i += 1;
    }
    let r = SimFrVar { var, num_of_additions_over_normal_form: total };
    proof {
        lemma_pow2_values();
        assert forall|k: int| 0 <= k < 6 implies (#[trigger] r.limbs(cs)[k]) == a.limbs(old(cs))[k]
            + s * b.limbs(old(cs))[k] by {
            assert(signed(cs.value(var@[k])) == a.limbs(old(cs))[k] + s * b.limbs(old(cs))[k]);
        }
        assert forall|k: int| 0 <= k < NUM_OF_LIMBS implies -(total + 1) * limb_radix() < (
        #[trigger] r.limbs(cs)[k]) < (total + 1) * limb_radix() by {
            let x = a.limbs(old(cs))[k];
            let y = b.limbs(old(cs))[k];
            assert(-(total + 1) * limb_radix() < x + s * y < (total + 1) * limb_radix())
                by (nonlinear_arith)
                requires
                    s == 1 || s == -1,
                    -(a.num_of_additions_over_normal_form + 1) * limb_radix() < x < (
                    a.num_of_additions_over_normal_form + 1) * limb_radix(),
                    -(b.num_of_additions_over_normal_form + 1) * limb_radix() < y < (
                    b.num_of_additions_over_normal_form + 1) * limb_radix(),
                    total == a.num_of_additions_over_normal_form
                        + b.num_of_additions_over_normal_form + 1,
            ;
        }
        lemma_radix_value_linear(
            a.limbs(old(cs)),
            b.limbs(old(cs)),
            r.limbs(cs),
            s,
            limb_radix() as int,
            0,
        );
        assert forall|w: Seq<nat>| #[trigger]
            cs.admits(w) && a.bounded_at(w) && b.bounded_at(w) implies r.bounded_at(w)
            && r.int_value_at(w) == a.int_value_at(w) + s * b.int_value_at(w) by {
            assert forall|k: int| 0 <= k < NUM_OF_LIMBS implies (#[trigger] r.limbs_at(w)[k])
                == a.limbs_at(w)[k] + s * b.limbs_at(w)[k] && -(total + 1) * limb_radix()
                < r.limbs_at(w)[k] < (total + 1) * limb_radix() by {
                assert(signed(w[var@[k] as int]) == a.limbs_at(w)[k] + s * b.limbs_at(w)[k]);
                let x = a.limbs_at(w)[k];
                let y = b.limbs_at(w)[k];
                assert(-(total + 1) * limb_radix() < x + s * y < (total + 1) * limb_radix())
                    by (nonlinear_arith)
                    requires
                        s == 1 || s == -1,
                        -(a.num_of_additions_over_normal_form + 1) * limb_radix() < x < (
                        a.num_of_additions_over_normal_form + 1) * limb_radix(),
                        -(b.num_of_additions_over_normal_form + 1) * limb_radix() < y < (
                        b.num_of_additions_over_normal_form + 1) * limb_radix(),
                        total == a.num_of_additions_over_normal_form
                            + b.num_of_additions_over_normal_form + 1,
                ;
            }
            lemma_radix_value_linear(
                a.limbs_at(w),
                b.limbs_at(w),
                r.limbs_at(w),
                s,
                limb_radix() as int,
                0,
            );
        }
    }
    r
}

impl SimFrVar {
    /// Variables for the limbs of `val`, each held below `2^43`.
    pub fn alloc_witness(cs: &mut TurboCS, val: &SimFr) -> (r: SimFrVar)
        requires
            old(cs).assigned(),
            old(cs).has_room(6),
        ensures
            old(cs).grown_into(final(cs)),
            final(cs).num_vars == old(cs).num_vars + 6,
            final(cs).size == old(cs).size + 6,
            forall|i: int| 0 <= i < 6 ==> r.var@[i] == old(cs).num_vars + i,
            forall|i: int| 0 <= i < 6 ==> final(cs).value(#[trigger] r.var@[i]) == val.limb_values()[i],
            r.num_of_additions_over_normal_form == 0,
            final(cs).holds() == (old(cs).holds() && val.is_normal()),
            val.is_normal() ==> r.wf(final(cs)) && r.int_value(final(cs)) == val.value(),
            forall|w: Seq<nat>| #[trigger] final(cs).admits(w) ==> r.normal_at(w),
    {
        let bits = [BIT_PER_LIMB, BIT_PER_LIMB, BIT_PER_LIMB, BIT_PER_LIMB, BIT_PER_LIMB, BIT_PER_LIMB];
        let var = alloc_limbs(cs, val, &bits);
        let r = SimFrVar { var, num_of_additions_over_normal_form: 0 };
        proof {
            lemma_pow2_values();
            if val.is_normal() {
                lemma_normal_limbs(cs, r, val);
            }
            assert forall|w: Seq<nat>| #[trigger] cs.admits(w) implies r.normal_at(w) by {
                assert forall|i: int| 0 <= i < NUM_OF_LIMBS implies w[(
                #[trigger] r.var@[i]) as int] < limb_radix() by {
                    assert(w[var@[i] as int] < pow2(bits@[i] as nat));
                }
            }
        }
        r
    }

    /// Variables for the limbs of `val`, held so that the whole stays below
    /// `2^total_bits`: each limb is held to the bits that are left to it.
    pub fn alloc_witness_bounded_total_bits(
        cs: &mut TurboCS,
        val: &SimFr,
        total_bits: usize,
    ) -> (r: SimFrVar)
        requires
            old(cs).assigned(),
            old(cs).has_room(6),
        ensures
            old(cs).grown_into(final(cs)),
            final(cs).num_vars == old(cs).num_vars + 6,
            final(cs).size == old(cs).size + 6,
            forall|i: int| 0 <= i < 6 ==> r.var@[i] == old(cs).num_vars + i,
            forall|i: int| 0 <= i < 6 ==> final(cs).value(#[trigger] r.var@[i]) == val.limb_values()[i],
            r.num_of_additions_over_normal_form == 0,
            final(cs).holds() == (old(cs).holds() && val.is_normal() && val.value() < pow2(
                total_bits as nat,
            )),
            val.is_normal() ==> r.wf(final(cs)) && r.int_value(final(cs)) == val.value(),
            forall|w: Seq<nat>| #[trigger]
                final(cs).admits(w) ==> r.normal_at(w) && r.int_value_at(w) < pow2(
                    total_bits as nat,
                ),
    {
        let mut bits = [0usize, 0usize, 0usize, 0usize, 0usize, 0usize];
        let mut i: usize = 0;
        while i < 6
            invariant
                i <= 6,
                forall|k: int| 0 <= k < i ==> bits@[k] == bits_of_limb(total_bits as nat, k as nat),
            decreases 6 - i,
        {
            bits[i] = if total_bits >= BIT_PER_LIMB * (i + 1) {
                BIT_PER_LIMB
            } else if total_bits > BIT_PER_LIMB * i {
                total_bits - BIT_PER_LIMB * i
            } else {
                0
            };
            i += 1;
        }
        let var = alloc_limbs(cs, val, &bits);
        let r = SimFrVar { var, num_of_additions_over_normal_form: 0 };
        proof {
            lemma_pow2_values();
            let limbs = crate::radix::ints_of_nat(val.limb_values());
            let kept = forall|k: int|
                0 <= k < 6 ==> (#[trigger] val.limb_values()[k]) < pow2(bits@[k] as nat);
            if val.is_normal() {
                lemma_normal_limbs(cs, r, val);
                lemma_bits_of_limbs(limbs, total_bits as nat, 0);
                crate::radix::lemma_radix_value_bound(limbs, limb_radix() as int, 0);
                assert(kept == (val.value() < pow2(total_bits as nat))) by {
                    if kept {
                        assert forall|k: int| 0 <= k < NUM_OF_LIMBS implies (#[trigger] limbs[k])
                            < pow2(bits_of_limb(total_bits as nat, k as nat)) by {
                            assert(val.limb_values()[k] < pow2(bits@[k] as nat));
                        }
                    }
                    if val.value() < pow2(total_bits as nat) {
                        assert forall|k: int| 0 <= k < 6 implies (#[trigger] val.limb_values()[k])
                            < pow2(bits@[k] as nat) by {
                            assert(limbs[k] < pow2(bits_of_limb(total_bits as nat, k as nat)));
                        }
                    }
                }
            } else {
                let k = choose|k: int|
                    0 <= k < NUM_OF_LIMBS && !((#[trigger] val.limb_values()[k]) < limb_radix());
                assert(bits@[k] <= BIT_PER_LIMB);
                crate::turbo_cs::lemma_pow2_grows(bits@[k] as nat, BIT_PER_LIMB as nat);
                assert(!(val.limb_values()[k] < pow2(bits@[k] as nat)));
            }
            assert forall|w: Seq<nat>| #[trigger] cs.admits(w) implies r.normal_at(w)
                && r.int_value_at(w) < pow2(total_bits as nat) by {
                assert forall|i: int| 0 <= i < NUM_OF_LIMBS implies w[(
                #[trigger] r.var@[i]) as int] < limb_radix() by {
                    assert(w[var@[i] as int] < pow2(bits@[i] as nat));
                    assert(bits@[i] <= BIT_PER_LIMB);
                    crate::turbo_cs::lemma_pow2_grows(bits@[i] as nat, BIT_PER_LIMB as nat);
                }
                lemma_normal_at(r, w);
                let held = r.limbs_at(w);
                lemma_bits_of_limbs(held, total_bits as nat, 0);
                assert forall|k: int| 0 <= k < NUM_OF_LIMBS implies (#[trigger] held[k]) < pow2(
                    bits_of_limb(total_bits as nat, k as nat),
                ) by {
                    assert(w[var@[k] as int] < pow2(bits@[k] as nat));
                    assert(held[k] == w[r.var@[k] as int]);
                }
            }
        }
        r
    }

    /// The sum of two simulated elements, limb by limb.
    pub fn add(&self, cs: &mut TurboCS, other: &SimFrVar) -> (r: SimFrVar)
        requires
            old(cs).assigned(),
            old(cs).has_room(6),
            self.wf(old(cs)),
            other.wf(old(cs)),
            self.num_of_additions_over_normal_form + other.num_of_additions_over_normal_form + 1
                <= MAX_ADDITIONS,
        ensures
            old(cs).grown_into(final(cs)),
            final(cs).num_vars == old(cs).num_vars + 6,
            final(cs).size == old(cs).size + 6,
            final(cs).holds() == old(cs).holds(),
            r.wf(final(cs)),
            r.num_of_additions_over_normal_form == self.num_of_additions_over_normal_form
                + other.num_of_additions_over_normal_form + 1,
            forall|i: int|
                0 <= i < 6 ==> (#[trigger] r.limbs(final(cs))[i]) == self.limbs(old(cs))[i]
                    + other.limbs(old(cs))[i],
            r.int_value(final(cs)) == self.int_value(old(cs)) + other.int_value(old(cs)),
            forall|w: Seq<nat>| #[trigger]
                final(cs).admits(w) && self.bounded_at(w) && other.bounded_at(w) ==> r.bounded_at(
                    w,
                ) && r.int_value_at(w) == self.int_value_at(w) + other.int_value_at(w),
    {
        let one = BLSScalar::one();
        combine(self, cs, other, one, Ghost(1))
    }

    /// The difference of two simulated elements, limb by limb.
    pub fn sub(&self, cs: &mut TurboCS, other: &SimFrVar) -> (r: SimFrVar)
        requires
            old(cs).assigned(),
            old(cs).has_room(6),
            self.wf(old(cs)),
            other.wf(old(cs)),
            self.num_of_additions_over_normal_form + other.num_of_additions_over_normal_form + 1
                <= MAX_ADDITIONS,
        ensures
            old(cs).grown_into(final(cs)),
            final(cs).num_vars == old(cs).num_vars + 6,
            final(cs).size == old(cs).size + 6,
            final(cs).holds() == old(cs).holds(),
            r.wf(final(cs)),
            r.num_of_additions_over_normal_form == self.num_of_additions_over_normal_form
                + other.num_of_additions_over_normal_form + 1,
            forall|i: int|
                0 <= i < 6 ==> (#[trigger] r.limbs(final(cs))[i]) == self.limbs(old(cs))[i]
                    - other.limbs(old(cs))[i],
            r.int_value(final(cs)) == self.int_value(old(cs)) - other.int_value(old(cs)),
            forall|w: Seq<nat>| #[trigger]
                final(cs).admits(w) && self.bounded_at(w) && other.bounded_at(w) ==> r.bounded_at(
                    w,
                ) && r.int_value_at(w) == self.int_value_at(w) - other.int_value_at(w),
    {
        let minus_one = BLSScalar::zero().sub(&BLSScalar::one());
        combine(self, cs, other, minus_one, Ghost(-1))
    }

    /// The product of two simulated elements: eleven limbs, the limb at place
    /// `k` being the sum of the products of the limbs whose places add up to `k`.
    pub fn mul(&self, cs: &mut TurboCS, other: &SimFrVar) -> (r: SimFrMulVar)
        requires
            old(cs).assigned(),
            old(cs).has_room(66),
            self.wf(old(cs)),
            other.wf(old(cs)),
        ensures
            old(cs).grown_into(final(cs)),
            final(cs).num_vars == old(cs).num_vars + PRODUCT_GATES,
            final(cs).size == old(cs).size + PRODUCT_GATES,
            final(cs).holds() == old(cs).holds(),
            r.wf(final(cs)),
            r.prod_of_num_of_additions == (self.num_of_additions_over_normal_form + 1) * (
            other.num_of_additions_over_normal_form + 1),
            forall|k: int|
                0 <= k < NUM_OF_LIMBS_MUL ==> (#[trigger] r.limbs(final(cs))[k]) == convolution(
                    self.limbs(old(cs)),
                    other.limbs(old(cs)),
                    k,
                    NUM_OF_LIMBS as int,
                ),
            r.int_value(final(cs)) == self.int_value(old(cs)) * other.int_value(old(cs)),
            forall|w: Seq<nat>| #[trigger]
                final(cs).admits(w) && self.bounded_at(w) && other.bounded_at(w) ==> r.bounded_at(
                    w,
                ) && r.int_value_at(w) == self.int_value_at(w) * other.int_value_at(w),
    {
        let zero = BLSScalar::zero();
        let one = BLSScalar::one();
        let q = [one, zero, zero, zero, zero, one, zero];
        let ca = self.num_of_additions_over_normal_form + 1;
        let cb = other.num_of_additions_over_normal_form + 1;
        let ghost al = self.limbs(old(cs));
        let ghost bl = other.limbs(old(cs));
        let ghost unit = (ca * cb) * limb_radix_squared();
        let mut var: [VarIndex; 11] = [0, 0, 0, 0, 0, 0, 0, 0, 0, 0, 0];
        let mut k: usize = 0;
        proof {
            assert(ca * cb <= 0x10000 * 0x10000) by (nonlinear_arith)
                requires
                    1 <= ca <= 0x10000,
                    1 <= cb <= 0x10000,
            ;
            assert(1 <= ca * cb) by (nonlinear_arith)
                requires
                    1 <= ca,
                    1 <= cb,
            ;
        }
        let prod = ca * cb;
        while k < 11
            invariant
                k <= 11,
                old(cs).assigned(),
                old(cs).has_room(66),
                old(cs).grown_into(cs),
                self.wf(old(cs)),
                other.wf(old(cs)),
                al == self.limbs(old(cs)),
                bl == other.limbs(old(cs)),
                ca == self.num_of_additions_over_normal_form + 1,
                cb == other.num_of_additions_over_normal_form + 1,
                unit == (ca * cb) * limb_radix_squared(),
                1 <= ca * cb <= 0x1_0000_0000,
                signed_all(values_of(q@)) == seq![1int, 0int, 0int, 0int, 0int, 1int, 0int],
                cs.num_vars <= old(cs).num_vars + 6 * k,
                cs.size <= old(cs).size + 6 * k,
                cs.num_vars == old(cs).num_vars + products_before(k as int),
                cs.size == old(cs).size + products_before(k as int),
                cs.holds() == old(cs).holds(),
                forall|m: int| 0 <= m < k ==> (#[trigger] var@[m]) < cs.num_vars,
                forall|m: int|
                    0 <= m < k ==> signed(cs.value(#[trigger] var@[m])) == convolution(
                        al,
                        bl,
                        m,
                        6,
                    ),
                forall|m: int|
                    0 <= m < k ==> -(6 * unit) <= (#[trigger] convolution(al, bl, m, 6)) <= 6
                        * unit,
                forall|w: Seq<nat>| #[trigger]
                    cs.admits(w) && self.bounded_at(w) && other.bounded_at(w) ==> forall|m: int|
                        0 <= m < k ==> signed(w[(#[trigger] var@[m]) as int]) == convolution(
                            self.limbs_at(w),
                            other.limbs_at(w),
                            m,
                            6,
                        ),
            decreases 11 - k,
        {
            let mut acc: VarIndex = 0;
            let mut i: usize = 0;
            let ghost start = *cs;
            let ghost settled = var@;
            proof {
                assert(cs.witness@[0] == old(cs).witness@[0]);
                assert forall|w: Seq<nat>| #[trigger]
                    cs.admits(w) && self.bounded_at(w) && other.bounded_at(w) implies signed(
                    w[acc as int],
                ) == convolution(self.limbs_at(w), other.limbs_at(w), k as int, 0) by {
                    lemma_admitted_zero(cs, w);
                }
            }
            while i < 6
                invariant
                    i <= 6,
                    k < 11,
                    old(cs).assigned(),
                    old(cs).has_room(66),
                    old(cs).grown_into(cs),
                    start.grown_into(cs),
                    old(cs).grown_into(&start),
                    self.wf(old(cs)),
                    other.wf(old(cs)),
                    al == self.limbs(old(cs)),
                    bl == other.limbs(old(cs)),
                    ca == self.num_of_additions_over_normal_form + 1,
                    cb == other.num_of_additions_over_normal_form + 1,
                    unit == (ca * cb) * limb_radix_squared(),
                    1 <= ca * cb <= 0x1_0000_0000,
                    signed_all(values_of(q@)) == seq![1int, 0int, 0int, 0int, 0int, 1int, 0int],
                    cs.num_vars <= old(cs).num_vars + 6 * k + i,
                    cs.size <= old(cs).size + 6 * k + i,
                    cs.num_vars == old(cs).num_vars + products_before(k as int) + products_within(
                        k as int,
                        i as int,
                    ),
                    cs.size == old(cs).size + products_before(k as int) + products_within(
                        k as int,
                        i as int,
                    ),
                    cs.num_vars <= start.num_vars + i,
                    cs.holds() == old(cs).holds(),
                    acc < cs.num_vars,
                    signed(cs.value(acc)) == convolution(al, bl, k as int, i as int),
                    -(i * unit) <= convolution(al, bl, k as int, i as int) <= i * unit,
                    forall|w: Seq<nat>| #[trigger]
                        cs.admits(w) && self.bounded_at(w) && other.bounded_at(w) ==> signed(
                            w[acc as int],
                        ) == convolution(
                            self.limbs_at(w),
                            other.limbs_at(w),
                            k as int,
                            i as int,
                        ),
                decreases 6 - i,
            {
                if k >= i && k - i < 6 {
                    let j = k - i;
                    let ghost before = *cs;
                    let wires = [acc, 0, self.var[i], other.var[j]];
                    proof {
                        lemma_pow2_values();
                        let x = al[i as int];
                        let y = bl[j as int];
                        let t = convolution(al, bl, k as int, i as int);
                        assert(cs.witness@[self.var@[i as int] as int] == old(
                            cs,
                        ).witness@[self.var@[i as int] as int]);
                        assert(cs.witness@[other.var@[j as int] as int] == old(
                            cs,
                        ).witness@[other.var@[j as int] as int]);
                        assert(signed(cs.value(wires@[2])) == x);
                        assert(signed(cs.value(wires@[3])) == y);
                        let z = signed(cs.value(0));
                        let sq = signed_all(values_of(q@));
                        assert(integer_sum(sq, t, z, x, y) == t + x * y) by (nonlinear_arith)
                            requires
                                sq[0] == 1,
                                sq[1] == 0,
                                sq[2] == 0,
                                sq[3] == 0,
                                sq[4] == 0,
                                sq[5] == 1,
                                sq[6] == 0,
                                integer_sum(sq, t, z, x, y) == sq[0] * t + sq[1] * z + sq[2] * x
                                    + sq[3] * y + sq[4] * (t * z) + sq[5] * (x * y) + sq[6],
                        ;
                        lemma_product_bound(x, y, ca as int, cb as int);
                        assert(-((i + 1) * unit) <= t + x * y <= (i + 1) * unit)
                            by (nonlinear_arith)
                            requires
                                -(i * unit) <= t <= i * unit,
                                -unit <= x * y <= unit,
                        ;
                        lemma_unit_is_small(ca * cb, (i + 1) as int, t + x * y);
                        assert(-bls_scalar_order() < 2 * (t + x * y) < bls_scalar_order());
                        assert(signed(cs.value(wires@[0])) == t);
                        assert(signed(cs.value(wires@[1])) == z);
                        assert(integer_sum(
                            sq,
                            signed(cs.value(wires@[0])),
                            signed(cs.value(wires@[1])),
                            signed(cs.value(wires@[2])),
                            signed(cs.value(wires@[3])),
                        ) == t + x * y);
                    }
                    let ghost previous = acc;
                    acc = integer_gate(cs, &wires, &q);
                    proof {
                        assert forall|w: Seq<nat>| #[trigger]
                            cs.admits(w) && self.bounded_at(w) && other.bounded_at(w) implies signed(
                            w[acc as int],
                        ) == convolution(
                            self.limbs_at(w),
                            other.limbs_at(w),
                            k as int,
                            i + 1,
                        ) by {
                            lemma_admitted_before(&before, cs, w);
                            let aw = self.limbs_at(w);
                            let bw = other.limbs_at(w);
                            let x = aw[i as int];
                            let y = bw[j as int];
                            let t = convolution(aw, bw, k as int, i as int);
                            let z = signed(w[0]);
                            let sq = signed_all(values_of(q@));
                            assert(signed(w[previous as int]) == t);
                            assert(integer_sum(sq, t, z, x, y) == t + x * y) by (nonlinear_arith)
                                requires
                                    sq[0] == 1,
                                    sq[1] == 0,
                                    sq[2] == 0,
                                    sq[3] == 0,
                                    sq[4] == 0,
                                    sq[5] == 1,
                                    sq[6] == 0,
                                    integer_sum(sq, t, z, x, y) == sq[0] * t + sq[1] * z + sq[2]
                                        * x + sq[3] * y + sq[4] * (t * z) + sq[5] * (x * y)
                                        + sq[6],
                            ;
                            lemma_convolution_within(aw, bw, k as int, i + 1, ca as int, cb as int);
                            lemma_unit_is_small(ca * cb, (i + 1) as int, t + x * y);
                            assert(signed(w[wires@[0] as int]) == t);
                            assert(signed(w[wires@[2] as int]) == x);
                            assert(signed(w[wires@[3] as int]) == y);
                        }
                        assert forall|u: int| 0 <= u < old(cs).num_vars implies (
                        #[trigger] cs.witness@[u]) == old(cs).witness@[u] by {
                            assert(before.witness@[u] == old(cs).witness@[u]);
                        }
                        assert forall|u: int| 0 <= u < start.num_vars implies (
                        #[trigger] cs.witness@[u]) == start.witness@[u] by {
                            assert(before.witness@[u] == start.witness@[u]);
                        }
                    }
                } else {
                    proof {
                        assert(-((i + 1) * unit) <= convolution(al, bl, k as int, i as int) <= (
                        i + 1) * unit) by (nonlinear_arith)
                            requires
                                -(i * unit) <= convolution(al, bl, k as int, i as int) <= i
                                    * unit,
                                unit >= 0,
                        ;
                    }
                }
                i += 1;
            }
            var[k] = acc;
            proof {
                assert forall|m: int| 0 <= m < k implies signed(cs.value(#[trigger] var@[m]))
                    == convolution(al, bl, m, 6) by {
                    assert(cs.witness@[var@[m] as int] == start.witness@[var@[m] as int]);
                }
                assert forall|w: Seq<nat>| #[trigger]
                    cs.admits(w) && self.bounded_at(w) && other.bounded_at(w) implies forall|
                    m: int,
                |
                    0 <= m < k + 1 ==> signed(w[(#[trigger] var@[m]) as int]) == convolution(
                        self.limbs_at(w),
                        other.limbs_at(w),
                        m,
                        6,
                    ) by {
                    lemma_admitted_before(&start, cs, w);
                    assert forall|m: int| 0 <= m < k + 1 implies signed(
                        w[(#[trigger] var@[m]) as int],
                    ) == convolution(self.limbs_at(w), other.limbs_at(w), m, 6) by {
                        if m < k {
                            assert(var@[m] == settled[m]);
                        }
                    }
                }
            }
            k += 1;
        }
        let r = SimFrMulVar { var, prod_of_num_of_additions: prod };
        proof {
            lemma_products_counted();
            assert forall|m: int| 0 <= m < NUM_OF_LIMBS_MUL implies (#[trigger] r.limbs(cs)[m])
                == convolution(al, bl, m, 6) by {
                assert(signed(cs.value(var@[m])) == convolution(al, bl, m, 6));
                lemma_unit_is_small(ca * cb, 6, convolution(al, bl, m, 6));
            }
            assert(r.limbs(cs) =~= product_limbs(al, bl, 11, 6));
            lemma_radix_value_product(al, bl, 11, limb_radix() as int, 6);
            assert(al.take(6) =~= al);
            assert forall|w: Seq<nat>| #[trigger]
                cs.admits(w) && self.bounded_at(w) && other.bounded_at(w) implies r.bounded_at(w)
                && r.int_value_at(w) == self.int_value_at(w) * other.int_value_at(w) by {
                let aw = self.limbs_at(w);
                let bw = other.limbs_at(w);
                assert forall|m: int| 0 <= m < NUM_OF_LIMBS_MUL implies (
                #[trigger] r.limbs_at(w)[m]) == convolution(aw, bw, m, 6) && -(prod
                    * product_unit()) < r.limbs_at(w)[m] < prod * product_unit() by {
                    assert(signed(w[var@[m] as int]) == convolution(aw, bw, m, 6));
                    lemma_convolution_within(aw, bw, m, 6, ca as int, cb as int);
                    lemma_unit_is_small(ca * cb, 6, convolution(aw, bw, m, 6));
                }
                assert(r.limbs_at(w) =~= product_limbs(aw, bw, 11, 6));
                lemma_radix_value_product(aw, bw, 11, limb_radix() as int, 6);
                assert(aw.take(6) =~= aw);
            }
        }
        r
    }

    /// Variables for the limbs of `val`, each held below `2^43`, for a value
    /// that is to be public. Making the variables public is left to the caller,
    /// who decides on the order of the public inputs.
    pub fn alloc_input(cs: &mut TurboCS, val: &SimFr) -> (r: SimFrVar)
        requires
            old(cs).assigned(),
            old(cs).has_room(6),
        ensures
            old(cs).grown_into(final(cs)),
            final(cs).num_vars == old(cs).num_vars + 6,
            final(cs).size == old(cs).size + 6,
            forall|i: int| 0 <= i < 6 ==> r.var@[i] == old(cs).num_vars + i,
            forall|i: int| 0 <= i < 6 ==> final(cs).value(#[trigger] r.var@[i]) == val.limb_values()[i],
            r.num_of_additions_over_normal_form == 0,
            final(cs).holds() == (old(cs).holds() && val.is_normal()),
            val.is_normal() ==> r.wf(final(cs)) && r.int_value(final(cs)) == val.value(),
            forall|w: Seq<nat>| #[trigger] final(cs).admits(w) ==> r.normal_at(w),
    {
        SimFrVar::alloc_witness(cs, val)
    }
}

/// The square of the radix of the limbs, `2^86`.
pub open spec fn limb_radix_squared() -> int {
    77371252455336267181195264int
}

/// The product of two limbs is within the product of their bounds.
pub proof fn lemma_product_bound(x: int, y: int, ca: int, cb: int)
    requires
        ca >= 1,
        cb >= 1,
        -ca * limb_radix() < x < ca * limb_radix(),
        -cb * limb_radix() < y < cb * limb_radix(),
    ensures
        -((ca * cb) * limb_radix_squared()) <= x * y <= (ca * cb) * limb_radix_squared(),
{
    let a = ca * limb_radix();
    let b = cb * limb_radix();
    assert(-(a * b) <= x * y <= a * b) by (nonlinear_arith)
        requires
            -a < x < a,
            -b < y < b,
    ;
    assert(a * b == (ca * cb) * limb_radix_squared()) by (nonlinear_arith)
        requires
            a == ca * 8796093022208,
            b == cb * 8796093022208,
            limb_radix_squared() == 77371252455336267181195264int,
    ;
}

/// A limb of a product of elements within their bounds is within as many
/// products of the bounds as there are terms in it.
pub proof fn lemma_convolution_within(
    a: Seq<int>,
    b: Seq<int>,
    k: int,
    upto: int,
    ca: int,
    cb: int,
)
    requires
        ca >= 1,
        cb >= 1,
        0 <= upto <= a.len(),
        forall|i: int| 0 <= i < a.len() ==> -ca * limb_radix() < #[trigger] a[i] < ca * limb_radix(),
        forall|i: int| 0 <= i < b.len() ==> -cb * limb_radix() < #[trigger] b[i] < cb * limb_radix(),
    ensures
        -(upto * ((ca * cb) * limb_radix_squared())) <= convolution(a, b, k, upto) <= upto * ((ca
            * cb) * limb_radix_squared()),
    decreases upto,
{
    let unit = (ca * cb) * limb_radix_squared();
    if upto > 0 {
        let less = upto - 1;
        lemma_convolution_within(a, b, k, less, ca, cb);
        let t = convolution(a, b, k, less);
        assert(unit >= 0) by (nonlinear_arith)
            requires
                ca >= 1,
                cb >= 1,
                unit == (ca * cb) * 77371252455336267181195264int,
        ;
        if 0 <= k - less < b.len() {
            let x = a[less];
            let y = b[k - less];
            lemma_product_bound(x, y, ca, cb);
            assert(-(upto * unit) <= t + x * y <= upto * unit) by (nonlinear_arith)
                requires
                    -(less * unit) <= t <= less * unit,
                    -unit <= x * y <= unit,
                    upto == less + 1,
            ;
        } else {
            assert(-(upto * unit) <= t <= upto * unit) by (nonlinear_arith)
                requires
                    -(less * unit) <= t <= less * unit,
                    unit >= 0,
                    upto == less + 1,
            ;
        }
    } else {
        assert(upto * unit == 0) by (nonlinear_arith)
            requires
                upto == 0,
        ;
    }
}

/// Up to six products of limbs stay below the bound of a product's limb, and
/// far below half the order of the field.
pub proof fn lemma_unit_is_small(p: int, n: int, s: int)
    requires
        1 <= p <= 0x1_0000_0000,
        0 <= n <= 6,
        -(n * (p * limb_radix_squared())) <= s <= n * (p * limb_radix_squared()),
    ensures
        -(p * product_unit()) < s < p * product_unit(),
        -bls_scalar_order() < 2 * s < bls_scalar_order(),
{
    let m = p * limb_radix_squared();
    let top = p * product_unit();
    assert(n * m < top) by (nonlinear_arith)
        requires
            0 <= n <= 6,
            p >= 1,
            m == p * 77371252455336267181195264int,
            top == p * 618970019642690137449562112int,
    ;
    assert(2 * top
        < 52435875175126190479447740508185965837690552500527637822603658699938581184513int)
        by (nonlinear_arith)
        requires
            1 <= p <= 0x1_0000_0000,
            top == p * 618970019642690137449562112int,
    ;
}

/// The number of bits left to limb `i` when the whole is to stay below
/// `2^total`: 43 below the limb that holds bit `total`, what is left of the 43
/// in that limb, and none above it.
pub open spec fn bits_of_limb(total: nat, i: nat) -> nat {
    if total >= BIT_PER_LIMB * (i + 1) {
        BIT_PER_LIMB as nat
    } else if total > BIT_PER_LIMB * i {
        (total - BIT_PER_LIMB * i) as nat
    } else {
        0
    }
}

/// The bits left from limb `i` on when the whole is to stay below `2^total`.
pub open spec fn bits_from_limb(total: nat, i: nat) -> nat {
    if total >= BIT_PER_LIMB * i {
        (total - BIT_PER_LIMB * i) as nat
    } else {
        0
    }
}

/// Limbs below `2^43` stay, from limb `i` on, below two to the power of the
/// bits left from there exactly where each of them keeps to the bits left to it.
pub proof fn lemma_bits_of_limbs(limbs: Seq<int>, total: nat, i: nat)
    requires
        limbs.len() == NUM_OF_LIMBS,
        i <= NUM_OF_LIMBS,
        forall|k: int| 0 <= k < NUM_OF_LIMBS ==> 0 <= #[trigger] limbs[k] < limb_radix(),
    ensures
        (radix_value(limbs, limb_radix() as int, i as int) < pow2(bits_from_limb(total, i)))
            == (forall|k: int|
            i <= k < NUM_OF_LIMBS ==> (#[trigger] limbs[k]) < pow2(bits_of_limb(total, k as nat))),
    decreases NUM_OF_LIMBS - i,
{
    let radix = limb_radix() as int;
    lemma_pow2_values();
    vstd::arithmetic::power2::lemma2_to64();
    let rest = bits_from_limb(total, i);
    vstd::arithmetic::power2::lemma_pow2_pos(rest);
    let all = forall|k: int|
        i <= k < NUM_OF_LIMBS ==> (#[trigger] limbs[k]) < pow2(bits_of_limb(total, k as nat));
    let later = forall|k: int|
        i + 1 <= k < NUM_OF_LIMBS ==> (#[trigger] limbs[k]) < pow2(bits_of_limb(total, k as nat));
    if i < NUM_OF_LIMBS {
        lemma_bits_of_limbs(limbs, total, i + 1);
        crate::radix::lemma_radix_value_bound(limbs, radix, i as int + 1);
        let above = radix_value(limbs, radix, i as int + 1);
        let here = limbs[i as int];
        let value = radix_value(limbs, radix, i as int);
        assert(value == here + radix * above);
        assert(0 <= here < radix);
        assert(all == (later && here < pow2(bits_of_limb(total, i)))) by {
            if later && here < pow2(bits_of_limb(total, i)) {
                assert forall|k: int| i <= k < NUM_OF_LIMBS implies (#[trigger] limbs[k]) < pow2(
                    bits_of_limb(total, k as nat),
                ) by {
                    if k > i {
                        assert(i + 1 <= k);
                    }
                }
            }
            if all {
                assert(limbs[i as int] < pow2(bits_of_limb(total, i)));
                assert forall|k: int| i + 1 <= k < NUM_OF_LIMBS implies (#[trigger] limbs[k])
                    < pow2(bits_of_limb(total, k as nat)) by {
                    assert(i <= k);
                }
            }
        }
        assert(later == (above < pow2(bits_from_limb(total, i + 1))));
        if rest >= BIT_PER_LIMB {
            let next = (rest - BIT_PER_LIMB) as nat;
            assert(next == bits_from_limb(total, i + 1));
            vstd::arithmetic::power2::lemma_pow2_adds(BIT_PER_LIMB as nat, next);
            let m = pow2(next) as int;
            assert(pow2(rest) == radix * m);
            assert((here + radix * above < radix * m) == (above < m)) by (nonlinear_arith)
                requires
                    0 <= here < radix,
            ;
            assert(bits_of_limb(total, i) == BIT_PER_LIMB);
        } else {
            vstd::arithmetic::power2::lemma_pow2_strictly_increases(rest, BIT_PER_LIMB as nat);
            assert(bits_of_limb(total, i) == rest);
            assert(bits_from_limb(total, i + 1) == 0);
            let small = pow2(rest) as int;
            assert((here + radix * above < small) == (above == 0 && here < small))
                by (nonlinear_arith)
                requires
                    0 <= here < radix,
                    0 <= above,
                    0 < small < radix,
            ;
            assert(pow2(0) == 1);
        }
    }
}

/// In an assignment in which the limbs of an element are below `2^43`, the
/// element is within its bounds and stands for a number below `2^258`.
pub proof fn lemma_normal_at(r: SimFrVar, w: Seq<nat>)
    requires
        r.normal_at(w),
    ensures
        r.bounded_at(w),
        0 <= r.int_value_at(w) < pow2(258),
        forall|i: int| 0 <= i < NUM_OF_LIMBS ==> (#[trigger] r.limbs_at(w)[i]) == w[r.var@[i] as int],
{
    lemma_pow2_values();
    assert forall|i: int| 0 <= i < NUM_OF_LIMBS implies (#[trigger] r.limbs_at(w)[i])
        == w[r.var@[i] as int] && 0 <= r.limbs_at(w)[i] < limb_radix() by {
        assert(w[r.var@[i] as int] < limb_radix());
    }
    assert(crate::radix::digits_in_range(r.limbs_at(w), limb_radix() as int));
    crate::radix::lemma_radix_value_bound(r.limbs_at(w), limb_radix() as int, 0);
}

/// Variables that hold normal limbs stand for those limbs.
pub proof fn lemma_normal_limbs(cs: &TurboCS, r: SimFrVar, val: &SimFr)
    requires
        val.is_normal(),
        forall|i: int| 0 <= i < 6 ==> cs.value(#[trigger] r.var@[i]) == val.limb_values()[i],
        forall|i: int| 0 <= i < 6 ==> (#[trigger] r.var@[i]) < cs.num_vars,
        r.num_of_additions_over_normal_form == 0,
    ensures
        r.wf(cs),
        r.limbs(cs) == crate::radix::ints_of_nat(val.limb_values()),
        r.int_value(cs) == val.value(),
{
    lemma_pow2_values();
    assert forall|i: int| 0 <= i < 6 implies (#[trigger] r.limbs(cs)[i]) == val.limb_values()[i] by {
        assert(val.limb_values()[i] < limb_radix());
        assert(cs.value(r.var@[i]) == val.limb_values()[i]);
    }
    assert(r.limbs(cs) =~= crate::radix::ints_of_nat(val.limb_values()));
    crate::radix::lemma_radix_value_bound(r.limbs(cs), limb_radix() as int, 0);
}

} // verus!
