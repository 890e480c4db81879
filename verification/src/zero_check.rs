//! The check that a simulated product stands for a multiple of the order of the
//! Ristretto group: the one place where that order enters a constraint system.
//!
//! The multiple is given as a witness of six limbs. Its product with the order
//! is formed limb by limb and taken from the product that is checked; what is
//! left must be zero, which is asked place by place, with a carry from each
//! place into the next.

use vstd::prelude::*;
use vstd::arithmetic::div_mod::lemma_small_mod;
use vstd::arithmetic::power2::pow2;
use crate::bigint::{big_add, big_div, big_less, big_shl, big_sub};
use crate::bls12_381::{bls_scalar_order, BLSScalar};
use crate::bytes::le_value;
use crate::field_simulation::{
    lemma_pow2_values, limb_radix, SimFr, BIT_PER_LIMB, NUM_OF_LIMBS, NUM_OF_LIMBS_MUL,
};
use crate::groups::Scalar;
use crate::limbs::{
    carries_exactly, carry_out, lemma_carries_to_zero, lemma_quotient_bound,
    lemma_radix_value_linear, lemma_radix_value_of_zeros, lemma_radix_value_product,
    lemma_zero_is_carried, product_limbs, quotient_towards_zero,
};
use crate::radix::{ints_of_nat, lemma_radix_value_bound, radix_value};
use crate::rescue::values_of;
use crate::ristretto::{ristretto_order, ristretto_order_bytes};
use crate::signed::{
    integer_sum, lemma_constraint_over_integers, scalar_of_i64, signed, signed_all, signed_small,
};
use crate::sim_fr_var::{integer_gate, lemma_normal_at, product_unit, SimFrMulVar, SimFrVar};
use crate::turbo_cs::{
    arithmetic_sum, lemma_admitted_before, lemma_admitted_zero, TurboCS, VarIndex,
};

verus! {

/// The number of new variables of the check: six limbs each for the quotient
/// and the order, one for each pair of their limbs, and two for each of ten
/// carries.
pub const ZERO_CHECK_VARS: usize = 68;

/// The number of gates of the check: six each for the quotient and the order,
/// one for each pair of their limbs, three for each of ten carries, and one
/// for the top place.
pub const ZERO_CHECK_GATES: usize = 79;

/// The quotient of `e` by the order of the Ristretto group where `e` is not
/// negative and the quotient is below `2^258`, and zero otherwise.
pub open spec fn quotient_or_zero(e: int) -> nat {
    if 0 <= e && e / (ristretto_order() as int) < pow2(258) {
        (e / (ristretto_order() as int)) as nat
    } else {
        0
    }
}

/// The limbs of `a` less those of `b`.
pub open spec fn limbs_less(a: Seq<int>, b: Seq<int>) -> Seq<int> {
    Seq::new(a.len(), |m: int| a[m] - b[m])
}

/// The simulated element zero.
fn zero_element() -> (r: SimFr)
    ensures
        r.is_normal(),
        r.value() == 0,
{
    let zero = BLSScalar::zero();
    let r = SimFr { limbs: [zero, zero, zero, zero, zero, zero] };
    proof {
        lemma_radix_value_of_zeros(ints_of_nat(r.limb_values()), limb_radix() as int, 0);
    }
    r
}

/// The limbs of the quotient of what `e` stands for by the order of the
/// Ristretto group: the witness that `enforce_zero` needs.
fn quotient_witness(cs: &TurboCS, e: &SimFrMulVar) -> (k: SimFr)
    requires
        cs.assigned(),
        e.wf(cs),
        e.prod_of_num_of_additions <= 0xffff,
    ensures
        k.is_normal(),
        k.value() == quotient_or_zero(e.int_value(cs)),
{
    let zero = BLSScalar::zero();
    let nothing = zero.as_bytes();
    let mut plus: Vec<u8> = Vec::new();
    let mut minus: Vec<u8> = Vec::new();
    let ghost el = e.limbs(cs);
    let ghost pl = Seq::new(11, |i: int| if el[i] >= 0 { el[i] } else { 0 });
    let ghost nl = Seq::new(11, |i: int| if el[i] >= 0 { 0 } else { -el[i] });
    let ghost radix = limb_radix() as int;
    let mut m: usize = NUM_OF_LIMBS_MUL;
    proof {
        lemma_pow2_values();
        assert(radix_value(pl, radix, 11) == 0);
        assert(radix_value(nl, radix, 11) == 0);
    }
    while m > 0
        invariant
            m <= NUM_OF_LIMBS_MUL,
            cs.assigned(),
            e.wf(cs),
            e.prod_of_num_of_additions <= 0xffff,
            el == e.limbs(cs),
            pl == Seq::new(11, |i: int| if el[i] >= 0 { el[i] } else { 0 }),
            nl == Seq::new(11, |i: int| if el[i] >= 0 { 0 } else { -el[i] }),
            radix == limb_radix(),
            radix == pow2(43),
            zero.value() == 0,
            le_value(nothing@) == 0,
            le_value(plus@) == radix_value(pl, radix, m as int),
            le_value(minus@) == radix_value(nl, radix, m as int),
        decreases m,
    {
        m -= 1;
        let x = cs.witness[e.var[m]];
        let xb = x.as_bytes();
        let opposite = zero.sub(&x);
        let ob = opposite.as_bytes();
        let negative = match signed_small(&x) {
            Some(v) => v < 0,
            None => false,
        };
        proof {
            assert(el[m as int] == signed(x.value()));
            assert(-(e.prod_of_num_of_additions * product_unit()) < el[m as int]
                < e.prod_of_num_of_additions * product_unit());
            assert(-0x1000000000000000000000000000000 < el[m as int]
                < 0x1000000000000000000000000000000) by (nonlinear_arith)
                requires
                    -(e.prod_of_num_of_additions * 618970019642690137449562112int) < el[m as int]
                        < e.prod_of_num_of_additions * 618970019642690137449562112int,
                    1 <= e.prod_of_num_of_additions <= 0xffff,
            ;
            assert(negative == (el[m as int] < 0));
            if negative {
                let order = bls_scalar_order() as int;
                let v = x.value() as int;
                lemma_small_mod((order - v) as nat, bls_scalar_order());
                vstd::arithmetic::div_mod::lemma_mod_multiples_vanish(1, -v, order);
                assert(le_value(ob@) == -el[m as int]);
            } else {
                assert(le_value(xb@) == el[m as int]);
            }
        }
        let shifted_plus = big_shl(plus.as_slice(), BIT_PER_LIMB);
        let shifted_minus = big_shl(minus.as_slice(), BIT_PER_LIMB);
        if negative {
            plus = big_add(&nothing, shifted_plus.as_slice());
            minus = big_add(&ob, shifted_minus.as_slice());
        } else {
            plus = big_add(&xb, shifted_plus.as_slice());
            minus = big_add(&nothing, shifted_minus.as_slice());
        }
        proof {
            let pa = radix_value(pl, radix, m + 1);
            let na = radix_value(nl, radix, m + 1);
            assert(le_value(shifted_plus@) == radix * pa) by (nonlinear_arith)
                requires
                    le_value(shifted_plus@) == pa * pow2(43),
                    radix == pow2(43),
            ;
            assert(le_value(shifted_minus@) == radix * na) by (nonlinear_arith)
                requires
                    le_value(shifted_minus@) == na * pow2(43),
                    radix == pow2(43),
            ;
        }
    }
    proof {
        lemma_radix_value_linear(pl, nl, el, -1, radix, 0);
    }
    if big_less(plus.as_slice(), minus.as_slice()) {
        return zero_element();
    }
    let value = big_sub(plus.as_slice(), minus.as_slice());
    let order = ristretto_order_bytes();
    let quotient = big_div(value.as_slice(), &order);
    match SimFr::from_biguint(quotient.as_slice()) {
        Ok(k) => k,
        Err(_) => zero_element(),
    }
}

/// Variables held to the limbs of `val` by the selectors of their gates.
fn constant_element(cs: &mut TurboCS, val: &SimFr) -> (r: SimFrVar)
    requires
        old(cs).assigned(),
        old(cs).has_room(6),
        val.is_normal(),
    ensures
        old(cs).grown_into(final(cs)),
        final(cs).num_vars == old(cs).num_vars + 6,
        final(cs).size == old(cs).size + 6,
        final(cs).holds() == old(cs).holds(),
        r.wf(final(cs)),
        r.num_of_additions_over_normal_form == 0,
        r.limbs(final(cs)) == ints_of_nat(val.limb_values()),
        forall|w: Seq<nat>| #[trigger]
            final(cs).admits(w) ==> r.bounded_at(w) && r.int_value_at(w) == val.value(),
{
    let zero = BLSScalar::zero();
    let mut var: [VarIndex; 6] = [0, 0, 0, 0, 0, 0];
    let mut i: usize = 0;
    while i < 6
        invariant
            i <= 6,
            old(cs).assigned(),
            old(cs).has_room(6),
            old(cs).grown_into(cs),
            val.is_normal(),
            zero.value() == 0,
            cs.num_vars == old(cs).num_vars + i,
            cs.size == old(cs).size + i,
            cs.holds() == old(cs).holds(),
            forall|k: int| 0 <= k < i ==> var@[k] == old(cs).num_vars + k,
            forall|k: int|
                0 <= k < i ==> signed(cs.value(#[trigger] var@[k])) == val.limb_values()[k],
            forall|w: Seq<nat>| #[trigger]
                cs.admits(w) ==> forall|k: int|
                    0 <= k < i ==> signed(w[(#[trigger] var@[k]) as int]) == val.limb_values()[k],
        decreases 6 - i,
    {
        let ghost before = *cs;
        let ghost earlier = var@;
        let wires = [0, 0, 0, 0];
        let q = [zero, zero, zero, zero, zero, zero, val.limbs[i]];
        proof {
            lemma_pow2_values();
            let c = val.limb_values()[i as int];
            assert(c < limb_radix());
            let z = signed(cs.value(0));
            let sq = signed_all(values_of(q@));
            assert(sq[6] == c);
            assert(integer_sum(sq, z, z, z, z) == c) by (nonlinear_arith)
                requires
                    sq[0] == 0,
                    sq[1] == 0,
                    sq[2] == 0,
                    sq[3] == 0,
                    sq[4] == 0,
                    sq[5] == 0,
                    sq[6] == c,
                    integer_sum(sq, z, z, z, z) == sq[0] * z + sq[1] * z + sq[2] * z + sq[3] * z
                        + sq[4] * (z * z) + sq[5] * (z * z) + sq[6],
            ;
        }
        let v = integer_gate(cs, &wires, &q);
        var[i] = v;
        proof {
            assert forall|w: Seq<nat>| #[trigger] cs.admits(w) implies forall|k: int|
                0 <= k < i + 1 ==> signed(w[(#[trigger] var@[k]) as int])
                    == val.limb_values()[k] by {
                lemma_admitted_before(&before, cs, w);
                let c = val.limb_values()[i as int];
                let z = signed(w[0]);
                let sq = signed_all(values_of(q@));
                assert(integer_sum(sq, z, z, z, z) == c) by (nonlinear_arith)
                    requires
                        sq[0] == 0,
                        sq[1] == 0,
                        sq[2] == 0,
                        sq[3] == 0,
                        sq[4] == 0,
                        sq[5] == 0,
                        sq[6] == c,
                        integer_sum(sq, z, z, z, z) == sq[0] * z + sq[1] * z + sq[2] * z + sq[3]
                            * z + sq[4] * (z * z) + sq[5] * (z * z) + sq[6],
                ;
                assert(signed(w[v as int]) == c);
                assert forall|k: int| 0 <= k < i + 1 implies signed(
                    w[(#[trigger] var@[k]) as int],
                ) == val.limb_values()[k] by {
                    if k < i {
                        assert(var@[k] == earlier[k]);
                    }
                }
            }
            assert forall|k: int| 0 <= k < i implies signed(cs.value(#[trigger] var@[k]))
                == val.limb_values()[k] by {
                assert(cs.witness@[var@[k] as int] == before.witness@[var@[k] as int]);
            }
            assert forall|u: int| 0 <= u < old(cs).num_vars implies (#[trigger] cs.witness@[u])
                == old(cs).witness@[u] by {
                assert(before.witness@[u] == old(cs).witness@[u]);
            }
        }
        i += 1;
    }
    let r = SimFrVar { var, num_of_additions_over_normal_form: 0 };
    proof {
        lemma_pow2_values();
        assert forall|k: int| 0 <= k < 6 implies (#[trigger] r.limbs(cs)[k])
            == val.limb_values()[k] && r.limbs(cs)[k] < limb_radix() by {
            assert(signed(cs.value(var@[k])) == val.limb_values()[k]);
            assert(val.limb_values()[k] < limb_radix());
        }
        assert(r.limbs(cs) =~= ints_of_nat(val.limb_values()));
        assert forall|w: Seq<nat>| #[trigger] cs.admits(w) implies r.bounded_at(w)
            && r.int_value_at(w) == val.value() by {
            assert forall|k: int| 0 <= k < 6 implies (#[trigger] r.limbs_at(w)[k])
                == val.limb_values()[k] && r.limbs_at(w)[k] < limb_radix() by {
                assert(signed(w[var@[k] as int]) == val.limb_values()[k]);
                assert(val.limb_values()[k] < limb_radix());
            }
            assert(r.limbs_at(w) =~= ints_of_nat(val.limb_values()));
            assert(crate::radix::digits_in_range(r.limbs_at(w), limb_radix() as int));
            lemma_radix_value_bound(r.limbs_at(w), limb_radix() as int, 0);
            assert(r.int_value_at(w) == val.value());
            assert(r.bounded_at(w)) by {
                assert forall|k: int| 0 <= k < NUM_OF_LIMBS implies -(
                r.num_of_additions_over_normal_form + 1) * limb_radix() < (
                #[trigger] r.limbs_at(w)[k]) < (r.num_of_additions_over_normal_form + 1)
                    * limb_radix() by {
                    assert(0 <= r.limbs_at(w)[k] < limb_radix());
                }
            }
        }
    }
    r
}

/// The carries are exact below `m + 1` where they are below `m` and at `m`.
proof fn lemma_carries_exactly_step(d: Seq<int>, radix: int, m: int)
    requires
        0 <= m,
    ensures
        carries_exactly(d, radix, m + 1) == (carries_exactly(d, radix, m) && d[m] + carry_out(
            d,
            radix,
            m - 1,
        ) == radix * carry_out(d, radix, m)),
{
    if carries_exactly(d, radix, m) && d[m] + carry_out(d, radix, m - 1) == radix * carry_out(
        d,
        radix,
        m,
    ) {
        assert forall|k: int| 0 <= k < m + 1 implies d[k] + carry_out(d, radix, k - 1) == radix
            * #[trigger] carry_out(d, radix, k) by {
            if k < m {
            }
        }
    }
    if carries_exactly(d, radix, m + 1) {
        assert(d[m] + carry_out(d, radix, m - 1) == radix * carry_out(d, radix, m));
        assert forall|k: int| 0 <= k < m implies d[k] + carry_out(d, radix, k - 1) == radix
            * #[trigger] carry_out(d, radix, k) by {
            assert(k < m + 1);
        }
    }
}

/// One place of the chain: a new variable takes the carry out of the place,
/// which is held within 64 bits around zero, and a gate asks that the limbs'
/// difference and the carry into the place are `2^43` times the carry out.
fn carry_place(
    cs: &mut TurboCS,
    x_var: VarIndex,
    y_var: VarIndex,
    carry_var: VarIndex,
    a: i128,
    b: i128,
    carry: i128,
) -> (r: (VarIndex, i128))
    requires
        old(cs).assigned(),
        old(cs).has_room(3),
        x_var < old(cs).num_vars,
        y_var < old(cs).num_vars,
        carry_var < old(cs).num_vars,
        signed(old(cs).value(x_var)) == a,
        signed(old(cs).value(y_var)) == b,
        signed(old(cs).value(carry_var)) == carry,
        -0x1000000000000000000000000000000 < a < 0x1000000000000000000000000000000,
        -0x1000000000000000000000000000000 < b < 0x1000000000000000000000000000000,
        -0x8000_0000_0000_0000 < carry < 0x8000_0000_0000_0000,
        -(0x8000_0000_0000_0000 * 8796093022208) < a - b + carry < 0x8000_0000_0000_0000
            * 8796093022208,
    ensures
        old(cs).grown_into(final(cs)),
        final(cs).num_vars == old(cs).num_vars + 2,
        final(cs).size == old(cs).size + 3,
        r.0 == old(cs).num_vars,
        signed(final(cs).value(r.0)) == r.1,
        r.1 == quotient_towards_zero(a - b + carry, limb_radix() as int),
        -0x8000_0000_0000_0000 < r.1 < 0x8000_0000_0000_0000,
        final(cs).holds() == (old(cs).holds() && a - b + carry == limb_radix() * r.1),
        forall|w: Seq<nat>| #[trigger]
            final(cs).admits(w) && within_chain(
                signed(w[x_var as int]),
                signed(w[y_var as int]),
                signed(w[carry_var as int]),
            ) ==> -0x8000_0000_0000_0000 <= signed(w[r.0 as int]) < 0x8000_0000_0000_0000 && signed(
                w[x_var as int],
            ) - signed(w[y_var as int]) + signed(w[carry_var as int]) == limb_radix() * signed(
                w[r.0 as int],
            ),
{
    let zero = BLSScalar::zero();
    let one = BLSScalar::one();
    let minus_one = scalar_of_i64(-1);
    let minus_radix = scalar_of_i64(-0x80000000000i64);
    let offset = BLSScalar::from_u64(0x8000_0000_0000_0000u64);
    let q_carry = [one, minus_one, one, minus_radix, zero, zero, zero, zero];
    let q_offset = [one, zero, zero, zero, zero, zero, offset];
    let _ = zero.as_bytes();
    let _ = one.as_bytes();
    let _ = minus_one.as_bytes();
    let _ = minus_radix.as_bytes();
    let _ = offset.as_bytes();
    let ghost radix = limb_radix() as int;
    let ghost start = *cs;
    let t: i128 = a - b + carry;
    let c: i128 = if t >= 0 {
        (t as u128 / 0x80000000000u128) as i128
    } else {
        -(((-t) as u128 / 0x80000000000u128) as i128)
    };
    proof {
        lemma_pow2_values();
        lemma_small_mod(0x8000_0000_0000_0000nat, bls_scalar_order());
        assert(c == quotient_towards_zero(t as int, radix));
        lemma_quotient_bound(t as int, radix, 0x8000_0000_0000_0000);
        assert(signed_all(values_of(q_carry@)) =~= seq![
            1int,
            -1int,
            1int,
            -8796093022208int,
            0int,
            0int,
            0int,
            0int,
        ]);
        assert(signed_all(values_of(q_offset@)) =~= seq![
            1int,
            0int,
            0int,
            0int,
            0int,
            0int,
            0x8000_0000_0000_0000int,
        ]);
    }
    let c_scalar = scalar_of_i64(c as i64);
    let c_var = cs.new_variable(c_scalar);
    let ghost with_carry = *cs;
    let wires_offset = [c_var, 0, 0, 0];
    proof {
        let z = signed(cs.value(0));
        let sq = signed_all(values_of(q_offset@));
        assert(integer_sum(sq, c as int, z, z, z) == c + 0x8000_0000_0000_0000) by (nonlinear_arith)
            requires
                sq[0] == 1,
                sq[1] == 0,
                sq[2] == 0,
                sq[3] == 0,
                sq[4] == 0,
                sq[5] == 0,
                sq[6] == 0x8000_0000_0000_0000,
                integer_sum(sq, c as int, z, z, z) == sq[0] * c + sq[1] * z + sq[2] * z + sq[3] * z
                    + sq[4] * (c * z) + sq[5] * (z * z) + sq[6],
        ;
    }
    let moved = integer_gate(cs, &wires_offset, &q_offset);
    let ghost gated = *cs;
    proof {
        let v = cs.value(moved);
        assert(signed(v) == c + 0x8000_0000_0000_0000);
        assert(v == c + 0x8000_0000_0000_0000);
        assert(pow2(64) == 0x10000000000000000);
        assert(v < pow2(64));
    }
    cs.range_check(moved, 64);
    let ghost ranged = *cs;
    let wires = [x_var, y_var, carry_var, c_var, 0];
    proof {
        assert forall|u: int| 0 <= u < start.num_vars implies (#[trigger] cs.witness@[u])
            == start.witness@[u] by {
            assert(with_carry.witness@[u] == start.witness@[u]);
        }
        let w = cs.values();
        assert(signed(w[wires@[0] as int]) == a);
        assert(signed(w[wires@[1] as int]) == b);
        assert(signed(w[wires@[2] as int]) == carry);
        assert(cs.witness@[c_var as int] == with_carry.witness@[c_var as int]);
        assert(signed(w[wires@[3] as int]) == c);
        lemma_carry_sum(signed_all(values_of(q_carry@)), a as int, b as int, carry as int, c as int);
        lemma_constraint_over_integers(wires@, values_of(q_carry@), w);
    }
    cs.constrain(&wires, &q_carry);
    proof {
        assert forall|w: Seq<nat>| #[trigger]
            cs.admits(w) && within_chain(
                signed(w[x_var as int]),
                signed(w[y_var as int]),
                signed(w[carry_var as int]),
            ) implies -0x8000_0000_0000_0000 <= signed(w[c_var as int]) < 0x8000_0000_0000_0000
            && signed(w[x_var as int]) - signed(w[y_var as int]) + signed(w[carry_var as int])
            == limb_radix() * signed(w[c_var as int]) by {
            lemma_admitted_before(&ranged, cs, w);
            lemma_admitted_before(&gated, &ranged, w);
            lemma_carry_in_range(values_of(q_offset@), w[c_var as int], w[0], w[moved as int]);
            lemma_carry_sum(
                signed_all(values_of(q_carry@)),
                signed(w[x_var as int]),
                signed(w[y_var as int]),
                signed(w[carry_var as int]),
                signed(w[c_var as int]),
            );
            lemma_constraint_over_integers(wires@, values_of(q_carry@), w);
        }
    }
    (c_var, c)
}

/// Whether two limbs and a carry are of the sizes that the chain works with:
/// the limbs below `2^120` and the carry within 64 bits, around zero.
pub open spec fn within_chain(x: int, y: int, carry: int) -> bool {
    &&& -0x1000000000000000000000000000000 < x < 0x1000000000000000000000000000000
    &&& -0x1000000000000000000000000000000 < y < 0x1000000000000000000000000000000
    &&& -0x8000_0000_0000_0000 <= carry < 0x8000_0000_0000_0000
}

/// The left side of a place's gate over the integers, and its size.
proof fn lemma_carry_sum(sq: Seq<int>, x: int, y: int, c_in: int, c_out: int)
    requires
        sq == seq![1int, -1int, 1int, -8796093022208int, 0int, 0int, 0int, 0int],
        within_chain(x, y, c_in),
        -0x8000_0000_0000_0000 <= c_out < 0x8000_0000_0000_0000,
    ensures
        integer_sum(sq, x, y, c_in, c_out) == x - y + c_in - limb_radix() * c_out,
        -bls_scalar_order() < integer_sum(sq, x, y, c_in, c_out) < bls_scalar_order(),
{
    lemma_pow2_values();
    let radix = limb_radix() as int;
    assert(integer_sum(sq, x, y, c_in, c_out) == x - y + c_in - radix * c_out) by (nonlinear_arith)
        requires
            sq[0] == 1,
            sq[1] == -1,
            sq[2] == 1,
            sq[3] == -radix,
            sq[4] == 0,
            sq[5] == 0,
            sq[6] == 0,
            integer_sum(sq, x, y, c_in, c_out) == sq[0] * x + sq[1] * y + sq[2] * c_in + sq[3]
                * c_out + sq[4] * (x * y) + sq[5] * (c_in * c_out) + sq[6],
    ;
    assert(-bls_scalar_order() < x - y + c_in - radix * c_out < bls_scalar_order())
        by (nonlinear_arith)
        requires
            -0x1000000000000000000000000000000 < x < 0x1000000000000000000000000000000,
            -0x1000000000000000000000000000000 < y < 0x1000000000000000000000000000000,
            -0x8000_0000_0000_0000 <= c_in < 0x8000_0000_0000_0000,
            -0x8000_0000_0000_0000 <= c_out < 0x8000_0000_0000_0000,
            radix == 8796093022208,
            bls_scalar_order()
                == 52435875175126190479447740508185965837690552500527637822603658699938581184513nat,
    ;
}

/// Asks that the limbs of `e` less those of `kq` stand for zero: at each place
/// a new variable takes the carry, held within 64 bits around zero, and a gate
/// asks that limb and carry in are `2^43` times the carry out; the top place
/// must take up the last carry.
fn carry_chain(cs: &mut TurboCS, e: &SimFrMulVar, kq: &SimFrMulVar)
    requires
        old(cs).assigned(),
        old(cs).has_room(31),
        e.wf(old(cs)),
        kq.wf(old(cs)),
        e.prod_of_num_of_additions <= 0xffff,
        kq.prod_of_num_of_additions == 1,
    ensures
        old(cs).grown_into(final(cs)),
        final(cs).num_vars == old(cs).num_vars + 20,
        final(cs).size == old(cs).size + 31,
        final(cs).holds() == (old(cs).holds() && radix_value(
            limbs_less(e.limbs(old(cs)), kq.limbs(old(cs))),
            limb_radix() as int,
            0,
        ) == 0),
        forall|w: Seq<nat>| #[trigger]
            final(cs).admits(w) && e.bounded_at(w) && kq.bounded_at(w) ==> radix_value(
                limbs_less(e.limbs_at(w), kq.limbs_at(w)),
                limb_radix() as int,
                0,
            ) == 0,
{
    let zero = BLSScalar::zero();
    let one = BLSScalar::one();
    let minus_one = scalar_of_i64(-1);
    let q_last = [one, minus_one, one, zero, zero, zero, zero, zero];
    let _ = zero.as_bytes();
    let _ = one.as_bytes();
    let _ = minus_one.as_bytes();
    let ghost el = e.limbs(old(cs));
    let ghost kl = kq.limbs(old(cs));
    let ghost d = limbs_less(el, kl);
    let ghost radix = limb_radix() as int;
    let mut carry_var: VarIndex = 0;
    let mut carry: i128 = 0;
    let mut m: usize = 0;
    proof {
        assert(carry_out(d, radix, -1) == 0);
        assert forall|w: Seq<nat>| #[trigger]
            cs.admits(w) && e.bounded_at(w) && kq.bounded_at(w) implies carried_at(
            limbs_less(e.limbs_at(w), kq.limbs_at(w)),
            signed(w[carry_var as int]),
            0,
        ) by {
            lemma_admitted_zero(cs, w);
        }
    }
    while m < 10
        invariant
            m <= 10,
            old(cs).assigned(),
            old(cs).has_room(31),
            old(cs).grown_into(cs),
            e.wf(old(cs)),
            kq.wf(old(cs)),
            e.prod_of_num_of_additions <= 0xffff,
            kq.prod_of_num_of_additions == 1,
            el == e.limbs(old(cs)),
            kl == kq.limbs(old(cs)),
            d == limbs_less(el, kl),
            radix == limb_radix(),
            cs.num_vars == old(cs).num_vars + 2 * m,
            cs.size == old(cs).size + 3 * m,
            carry_var < cs.num_vars,
            signed(cs.value(carry_var)) == carry,
            carry == carry_out(d, radix, m - 1),
            -0x8000_0000_0000_0000 < carry < 0x8000_0000_0000_0000,
            cs.holds() == (old(cs).holds() && carries_exactly(d, radix, m as int)),
            forall|w: Seq<nat>| #[trigger]
                cs.admits(w) && e.bounded_at(w) && kq.bounded_at(w) ==> carried_at(
                    limbs_less(e.limbs_at(w), kq.limbs_at(w)),
                    signed(w[carry_var as int]),
                    m as int,
                ),
        decreases 10 - m,
    {
        let ghost start = *cs;
        let a = match signed_small(&cs.witness[e.var[m]]) {
            Some(v) => v,
            None => 0,
        };
        let b = match signed_small(&cs.witness[kq.var[m]]) {
            Some(v) => v,
            None => 0,
        };
        proof {
            assert(cs.witness@[e.var@[m as int] as int] == old(cs).witness@[e.var@[m as int] as int]);
            assert(cs.witness@[kq.var@[m as int] as int] == old(
                cs,
            ).witness@[kq.var@[m as int] as int]);
            lemma_limb_sizes(el[m as int], kl[m as int], e.prod_of_num_of_additions as int);
            assert(a == el[m as int]);
            assert(b == kl[m as int]);
            assert(d[m as int] == a - b);
            lemma_carries_exactly_step(d, radix, m as int);
        }
        let (c_var, c) = carry_place(cs, e.var[m], kq.var[m], carry_var, a, b, carry);
        proof {
            assert(c == carry_out(d, radix, m as int));
            assert forall|u: int| 0 <= u < old(cs).num_vars implies (#[trigger] cs.witness@[u])
                == old(cs).witness@[u] by {
                assert(start.witness@[u] == old(cs).witness@[u]);
            }
            assert forall|w: Seq<nat>| #[trigger]
                cs.admits(w) && e.bounded_at(w) && kq.bounded_at(w) implies carried_at(
                limbs_less(e.limbs_at(w), kq.limbs_at(w)),
                signed(w[c_var as int]),
                m + 1,
            ) by {
                lemma_admitted_before(&start, cs, w);
                let dw = limbs_less(e.limbs_at(w), kq.limbs_at(w));
                let x = e.limbs_at(w)[m as int];
                let y = kq.limbs_at(w)[m as int];
                assert(carried_at(dw, signed(w[carry_var as int]), m as int));
                lemma_limb_sizes(x, y, e.prod_of_num_of_additions as int);
                assert(within_chain(
                    signed(w[e.var@[m as int] as int]),
                    signed(w[kq.var@[m as int] as int]),
                    signed(w[carry_var as int]),
                ));
                assert(dw[m as int] == x - y);
                lemma_exact_carry(dw, radix, m as int, signed(w[c_var as int]));
                lemma_carries_exactly_step(dw, radix, m as int);
            }
        }
        carry_var = c_var;
        carry = c;
        m += 1;
    }
    let wires = [e.var[10], kq.var[10], carry_var, 0, 0];
    let a = match signed_small(&cs.witness[e.var[10]]) {
        Some(v) => v,
        None => 0,
    };
    let b = match signed_small(&cs.witness[kq.var[10]]) {
        Some(v) => v,
        None => 0,
    };
    let _ = q_last[0].as_bytes();
    proof {
        lemma_pow2_values();
        assert(cs.witness@[e.var@[10] as int] == old(cs).witness@[e.var@[10] as int]);
        assert(cs.witness@[kq.var@[10] as int] == old(cs).witness@[kq.var@[10] as int]);
        lemma_limb_sizes(el[10], kl[10], e.prod_of_num_of_additions as int);
        let w = cs.values();
        let z = signed(cs.value(0));
        assert(signed(w[wires@[0] as int]) == a);
        assert(signed(w[wires@[1] as int]) == b);
        assert(signed(w[wires@[2] as int]) == carry);
        assert(signed(w[wires@[3] as int]) == z);
        assert(d[10] == a - b);
        let sq = signed_all(values_of(q_last@));
        assert(sq =~= seq![1int, -1int, 1int, 0int, 0int, 0int, 0int, 0int]);
        assert(integer_sum(sq, a as int, b as int, carry as int, z) == a - b + carry)
            by (nonlinear_arith)
            requires
                sq[0] == 1,
                sq[1] == -1,
                sq[2] == 1,
                sq[3] == 0,
                sq[4] == 0,
                sq[5] == 0,
                sq[6] == 0,
                integer_sum(sq, a as int, b as int, carry as int, z) == sq[0] * a + sq[1] * b
                    + sq[2] * carry + sq[3] * z + sq[4] * (a * b) + sq[5] * (carry * z) + sq[6],
        ;
        lemma_constraint_over_integers(wires@, values_of(q_last@), w);
        lemma_zero_is_carried(d, radix);
    }
    let ghost chained = *cs;
    cs.constrain(&wires, &q_last);
    proof {
        assert forall|w: Seq<nat>| #[trigger]
            cs.admits(w) && e.bounded_at(w) && kq.bounded_at(w) implies radix_value(
            limbs_less(e.limbs_at(w), kq.limbs_at(w)),
            limb_radix() as int,
            0,
        ) == 0 by {
            lemma_pow2_values();
            lemma_admitted_before(&chained, cs, w);
            lemma_admitted_zero(cs, w);
            let dw = limbs_less(e.limbs_at(w), kq.limbs_at(w));
            let x = e.limbs_at(w)[10];
            let y = kq.limbs_at(w)[10];
            let c_in = signed(w[carry_var as int]);
            let z = signed(w[0]);
            assert(carried_at(dw, c_in, 10));
            lemma_limb_sizes(x, y, e.prod_of_num_of_additions as int);
            assert(signed(w[wires@[0] as int]) == x);
            assert(signed(w[wires@[1] as int]) == y);
            let sq = signed_all(values_of(q_last@));
            assert(sq =~= seq![1int, -1int, 1int, 0int, 0int, 0int, 0int, 0int]);
            assert(integer_sum(sq, x, y, c_in, z) == x - y + c_in) by (nonlinear_arith)
                requires
                    sq[0] == 1,
                    sq[1] == -1,
                    sq[2] == 1,
                    sq[3] == 0,
                    sq[4] == 0,
                    sq[5] == 0,
                    sq[6] == 0,
                    integer_sum(sq, x, y, c_in, z) == sq[0] * x + sq[1] * y + sq[2] * c_in + sq[3]
                        * z + sq[4] * (x * y) + sq[5] * (c_in * z) + sq[6],
            ;
            assert(x - y + c_in == (x - y + c_in));
            lemma_constraint_over_integers(wires@, values_of(q_last@), w);
            assert(dw[10] == x - y);
            lemma_carries_to_zero(dw, radix);
        }
    }
}

/// Whether `carry` is what the limbs `d` carry into place `m`, exactly at each
/// place below, and fits in 64 bits around zero.
pub open spec fn carried_at(d: Seq<int>, carry: int, m: int) -> bool {
    &&& -0x8000_0000_0000_0000 <= carry < 0x8000_0000_0000_0000
    &&& carry == carry_out(d, limb_radix() as int, m - 1)
    &&& carries_exactly(d, limb_radix() as int, m)
}

/// A value that, moved up by `2^63` in the field, is below `2^64` stands for an
/// integer of 64 bits around zero.
proof fn lemma_carry_in_range(q: Seq<nat>, x: nat, z: nat, moved: nat)
    requires
        q.len() == 7,
        q[0] == 1,
        forall|i: int| 1 <= i < 6 ==> (#[trigger] q[i]) == 0,
        q[6] == 0x8000_0000_0000_0000,
        x < bls_scalar_order(),
        moved == arithmetic_sum(q, x, z, z, z) % bls_scalar_order(),
        moved < pow2(64),
    ensures
        -0x8000_0000_0000_0000 <= signed(x) < 0x8000_0000_0000_0000,
{
    lemma_pow2_values();
    let order = bls_scalar_order() as int;
    let sum = x as int + 0x8000_0000_0000_0000;
    assert(arithmetic_sum(q, x, z, z, z) == sum) by (nonlinear_arith)
        requires
            q[0] == 1,
            q[1] == 0,
            q[2] == 0,
            q[3] == 0,
            q[4] == 0,
            q[5] == 0,
            q[6] == 0x8000_0000_0000_0000,
            sum == x + 0x8000_0000_0000_0000,
            arithmetic_sum(q, x, z, z, z) == q[0] * x + q[1] * z + q[2] * z + q[3] * z + q[4] * (x
                * z) + q[5] * (z * z) + q[6],
    ;
    if sum < order {
        lemma_small_mod(sum as nat, bls_scalar_order());
    } else {
        lemma_small_mod((sum - order) as nat, bls_scalar_order());
        vstd::arithmetic::div_mod::lemma_mod_multiples_vanish(-1, sum, order);
    }
}

/// Where a limb and the carry into its place are the radix times a number, that
/// number is the carry out of the place.
proof fn lemma_exact_carry(d: Seq<int>, radix: int, m: int, c: int)
    requires
        radix > 0,
        0 <= m < d.len(),
        d[m] + carry_out(d, radix, m - 1) == radix * c,
    ensures
        carry_out(d, radix, m) == c,
{
    let t = d[m] + carry_out(d, radix, m - 1);
    assert(-t == radix * (-c)) by (nonlinear_arith)
        requires
            t == radix * c,
    ;
    if t >= 0 {
        assert(t / radix == c) by (nonlinear_arith)
            requires
                t == radix * c,
                radix > 0,
        ;
    } else {
        assert((-t) / radix == -c) by (nonlinear_arith)
            requires
                -t == radix * (-c),
                radix > 0,
        ;
    }
}

/// Limbs within the bounds of a checked product and of a product of normal
/// elements are smaller than `2^120`, and so is what is carried between them.
proof fn lemma_limb_sizes(a: int, b: int, p: int)
    requires
        1 <= p <= 0xffff,
        -(p * product_unit()) < a < p * product_unit(),
        -(1 * product_unit()) < b < 1 * product_unit(),
    ensures
        -0x1000000000000000000000000000000 < a < 0x1000000000000000000000000000000,
        -0x1000000000000000000000000000000 < b < 0x1000000000000000000000000000000,
        forall|c: int|
            -0x8000_0000_0000_0000 <= c < 0x8000_0000_0000_0000 ==> -(0x8000_0000_0000_0000
                * 8796093022208) < #[trigger] (a - b + c) < 0x8000_0000_0000_0000
                * 8796093022208,
{
    assert(p * product_unit() <= 0xffff * 618970019642690137449562112int) by (nonlinear_arith)
        requires
            1 <= p <= 0xffff,
            product_unit() == 618970019642690137449562112int,
    ;
}

impl SimFrMulVar {
    /// Asks that the product stands for a multiple of the order of the Ristretto
    /// group that is not negative and has a quotient below `2^258`.
    pub fn enforce_zero(&self, cs: &mut TurboCS)
        requires
            old(cs).assigned(),
            old(cs).has_room(120),
            self.wf(old(cs)),
            self.prod_of_num_of_additions <= 0xffff,
        ensures
            old(cs).grown_into(final(cs)),
            final(cs).num_vars == old(cs).num_vars + ZERO_CHECK_VARS,
            final(cs).size == old(cs).size + ZERO_CHECK_GATES,
            final(cs).holds() == (old(cs).holds() && 0 <= self.int_value(old(cs))
                && self.int_value(old(cs)) % (ristretto_order() as int) == 0 && self.int_value(
                old(cs),
            ) / (ristretto_order() as int) < pow2(258)),
            forall|w: Seq<nat>| #[trigger]
                final(cs).admits(w) && self.bounded_at(w) ==> 0 <= self.int_value_at(w)
                    && self.int_value_at(w) % (ristretto_order() as int) == 0
                    && self.int_value_at(w) / (ristretto_order() as int) < pow2(258),
    {
        let ghost e = self.int_value(old(cs));
        let ghost el = self.limbs(old(cs));
        let ghost radix = limb_radix() as int;
        let k = quotient_witness(cs, self);
        let order = ristretto_order_bytes();
        proof {
            lemma_pow2_values();
        }
        let order_limbs = match SimFr::from_biguint(&order) {
            Ok(limbs) => limbs,
            Err(_) => zero_element(),
        };
        let k_var = SimFrVar::alloc_witness(cs, &k);
        let ghost first = *cs;
        let order_var = constant_element(cs, &order_limbs);
        let ghost second = *cs;
        proof {
            assert forall|i: int| 0 <= i < 6 implies (#[trigger] k_var.limbs(cs)[i])
                == k_var.limbs(&first)[i] by {
                assert(cs.witness@[k_var.var@[i] as int] == first.witness@[k_var.var@[i] as int]);
            }
            assert(k_var.limbs(cs) =~= k_var.limbs(&first));
        }
        let product = k_var.mul(cs, &order_var);
        let ghost third = *cs;
        proof {
            assert forall|u: int| 0 <= u < old(cs).num_vars implies (#[trigger] cs.witness@[u])
                == old(cs).witness@[u] by {
                assert(second.witness@[u] == first.witness@[u]);
                assert(first.witness@[u] == old(cs).witness@[u]);
            }
            assert forall|i: int| 0 <= i < 11 implies (#[trigger] self.limbs(cs)[i]) == el[i] by {
                assert(cs.witness@[self.var@[i] as int] == old(cs).witness@[self.var@[i] as int]);
            }
            assert(self.limbs(cs) =~= el);
        }
        carry_chain(cs, self, &product);
        proof {
            let kl = k_var.limbs(&second);
            let ol = order_var.limbs(&second);
            let pl = product.limbs(&third);
            let d = limbs_less(el, pl);
            assert(kl == ints_of_nat(k.limb_values()));
            assert(ol == ints_of_nat(order_limbs.limb_values()));
            assert(pl =~= product_limbs(kl, ol, 11, 6));
            lemma_radix_value_product(kl, ol, 11, radix, 6);
            assert(kl.take(6) =~= kl);
            let kv = k.value() as int;
            let q = ristretto_order() as int;
            assert(crate::radix::digits_in_range(kl, radix)) by {
                assert forall|i: int| 0 <= i < kl.len() implies 0 <= #[trigger] kl[i] < radix by {
                    assert(k.limb_values()[i] < limb_radix());
                }
            }
            assert(crate::radix::digits_in_range(ol, radix)) by {
                assert forall|i: int| 0 <= i < ol.len() implies 0 <= #[trigger] ol[i] < radix by {
                    assert(order_limbs.limb_values()[i] < limb_radix());
                }
            }
            lemma_radix_value_bound(kl, radix, 0);
            lemma_radix_value_bound(ol, radix, 0);
            assert(radix_value(kl, radix, 0) == kv);
            assert(radix_value(ol, radix, 0) == q);
            assert(radix_value(pl, radix, 0) == kv * q);
            lemma_radix_value_linear(el, pl, d, -1, radix, 0);
            assert(radix_value(d, radix, 0) == e - kv * q);
            lemma_quotient_is_exact(e, q, kv);
            assert forall|w: Seq<nat>| #[trigger]
                cs.admits(w) && self.bounded_at(w) implies 0 <= self.int_value_at(w)
                && self.int_value_at(w) % q == 0 && self.int_value_at(w) / q < pow2(258) by {
                lemma_admitted_before(&third, cs, w);
                lemma_admitted_before(&second, &third, w);
                lemma_admitted_before(&first, &second, w);
                lemma_normal_at(k_var, w);
                let found = k_var.int_value_at(w);
                let whole = self.int_value_at(w);
                assert(product.int_value_at(w) == found * q);
                lemma_radix_value_linear(
                    self.limbs_at(w),
                    product.limbs_at(w),
                    limbs_less(self.limbs_at(w), product.limbs_at(w)),
                    -1,
                    radix,
                    0,
                );
                assert(whole == found * q + 0);
                vstd::arithmetic::div_mod::lemma_fundamental_div_mod_converse(whole, q, found, 0);
                assert(0 <= found * q) by (nonlinear_arith)
                    requires
                        0 <= found,
                        0 < q,
                ;
            }
        }
    }
}

/// A number is `k` times `q`, for the quotient `k` that was found for it or
/// zero where none was found, exactly where it is a multiple of `q` that is not
/// negative and has a quotient below `2^258`.
proof fn lemma_quotient_is_exact(e: int, q: int, k: int)
    requires
        q == ristretto_order(),
        k == quotient_or_zero(e),
    ensures
        (e - k * q == 0) == (0 <= e && e % q == 0 && e / q < pow2(258)),
{
    lemma_pow2_values();
    if 0 <= e && e / q < pow2(258) {
        vstd::arithmetic::div_mod::lemma_fundamental_div_mod(e, q);
        assert(q * (e / q) == k * q) by (nonlinear_arith)
            requires
                k == e / q,
        ;
    } else {
        assert(k * q == 0) by (nonlinear_arith)
            requires
                k == 0,
        ;
        if e == 0 {
            assert(0int / q == 0) by (nonlinear_arith)
                requires
                    q > 0,
            ;
        }
    }
}

} // verus!
