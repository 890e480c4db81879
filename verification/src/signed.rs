//! Elements of the scalar field of BLS12-381 read as integers around zero, so
//! that sums, differences and products of small integers can be reckoned with
//! in the field.

use vstd::prelude::*;
use vstd::arithmetic::div_mod::{
    lemma_add_mod_noop, lemma_mod_multiples_vanish, lemma_mul_mod_noop_general, lemma_small_mod,
};
use crate::bls12_381::{bls_scalar_order, BLSScalar};
use crate::bytes::small_value;
use crate::groups::Scalar;
use crate::turbo_cs::{arithmetic_holds, arithmetic_sum, VarIndex};

verus! {

/// The integer nearest zero that the field element `v` stands for.
pub open spec fn signed(v: nat) -> int {
    if 2 * v < bls_scalar_order() {
        v as int
    } else {
        v - bls_scalar_order()
    }
}

/// The left side of an arithmetic gate over integers.
pub open spec fn integer_sum(q: Seq<int>, w1: int, w2: int, w3: int, w4: int) -> int {
    q[0] * w1 + q[1] * w2 + q[2] * w3 + q[3] * w4 + q[4] * (w1 * w2) + q[5] * (w3 * w4) + q[6]
}

/// Field elements as integers around zero.
pub open spec fn signed_all(values: Seq<nat>) -> Seq<int> {
    Seq::new(values.len(), |i: int| signed(values[i]))
}

/// A field element and the integer it stands for leave the same remainder.
pub proof fn lemma_signed_congruent(v: nat)
    requires
        v < bls_scalar_order(),
    ensures
        signed(v) % (bls_scalar_order() as int) == v,
{
    let m = bls_scalar_order() as int;
    lemma_small_mod(v, bls_scalar_order());
    if 2 * v >= bls_scalar_order() {
        lemma_mod_multiples_vanish(-1, v as int, m);
    }
}

/// An integer of less than half the field's order in size is the integer that
/// its remainder stands for.
pub proof fn lemma_signed_of_remainder(s: int)
    requires
        -bls_scalar_order() < 2 * s < bls_scalar_order(),
    ensures
        signed((s % (bls_scalar_order() as int)) as nat) == s,
{
    let m = bls_scalar_order() as int;
    if s >= 0 {
        lemma_small_mod(s as nat, bls_scalar_order());
    } else {
        lemma_small_mod((s + m) as nat, bls_scalar_order());
        lemma_mod_multiples_vanish(1, s, m);
    }
}

/// Products of numbers that leave the same remainders leave the same remainder.
pub proof fn lemma_product_congruent(a: int, b: int, c: int, d: int)
    requires
        a % (bls_scalar_order() as int) == c % (bls_scalar_order() as int),
        b % (bls_scalar_order() as int) == d % (bls_scalar_order() as int),
    ensures
        (a * b) % (bls_scalar_order() as int) == (c * d) % (bls_scalar_order() as int),
{
    let m = bls_scalar_order() as int;
    lemma_mul_mod_noop_general(a, b, m);
    lemma_mul_mod_noop_general(c, d, m);
}

/// Sums of numbers that leave the same remainders leave the same remainder.
pub proof fn lemma_sum_congruent(a: int, b: int, c: int, d: int)
    requires
        a % (bls_scalar_order() as int) == c % (bls_scalar_order() as int),
        b % (bls_scalar_order() as int) == d % (bls_scalar_order() as int),
    ensures
        (a + b) % (bls_scalar_order() as int) == (c + d) % (bls_scalar_order() as int),
{
    let m = bls_scalar_order() as int;
    lemma_add_mod_noop(a, b, m);
    lemma_add_mod_noop(c, d, m);
}

/// The left side of an arithmetic gate in the field and the same sum over the
/// integers that the selectors and values stand for leave the same remainder.
pub proof fn lemma_sums_congruent(q: Seq<nat>, w1: nat, w2: nat, w3: nat, w4: nat)
    requires
        q.len() >= 7,
        forall|i: int| 0 <= i < 7 ==> q[i] < bls_scalar_order(),
        w1 < bls_scalar_order(),
        w2 < bls_scalar_order(),
        w3 < bls_scalar_order(),
        w4 < bls_scalar_order(),
    ensures
        arithmetic_sum(q, w1, w2, w3, w4) % bls_scalar_order() == integer_sum(
            signed_all(q),
            signed(w1),
            signed(w2),
            signed(w3),
            signed(w4),
        ) % (bls_scalar_order() as int),
{
    let m = bls_scalar_order() as int;
    let s = signed_all(q);
    let (a1, a2, a3, a4) = (signed(w1), signed(w2), signed(w3), signed(w4));
    lemma_signed_congruent(w1);
    lemma_signed_congruent(w2);
    lemma_signed_congruent(w3);
    lemma_signed_congruent(w4);
    assert forall|i: int| 0 <= i < 7 implies s[i] % m == q[i] % (m as nat) by {
        lemma_signed_congruent(q[i]);
        lemma_small_mod(q[i], bls_scalar_order());
    }
    lemma_small_mod(w1, bls_scalar_order());
    lemma_small_mod(w2, bls_scalar_order());
    lemma_small_mod(w3, bls_scalar_order());
    lemma_small_mod(w4, bls_scalar_order());
    lemma_product_congruent(q[0] as int, w1 as int, s[0], a1);
    lemma_product_congruent(q[1] as int, w2 as int, s[1], a2);
    lemma_product_congruent(q[2] as int, w3 as int, s[2], a3);
    lemma_product_congruent(q[3] as int, w4 as int, s[3], a4);
    lemma_product_congruent(w1 as int, w2 as int, a1, a2);
    lemma_product_congruent(w3 as int, w4 as int, a3, a4);
    lemma_product_congruent(q[4] as int, (w1 * w2) as int, s[4], a1 * a2);
    lemma_product_congruent(q[5] as int, (w3 * w4) as int, s[5], a3 * a4);
    let t1 = (q[0] * w1) as int;
    let t2 = (q[1] * w2) as int;
    let t3 = (q[2] * w3) as int;
    let t4 = (q[3] * w4) as int;
    let t5 = (q[4] * (w1 * w2)) as int;
    let t6 = (q[5] * (w3 * w4)) as int;
    let u1 = s[0] * a1;
    let u2 = s[1] * a2;
    let u3 = s[2] * a3;
    let u4 = s[3] * a4;
    let u5 = s[4] * (a1 * a2);
    let u6 = s[5] * (a3 * a4);
    lemma_sum_congruent(t1, t2, u1, u2);
    lemma_sum_congruent(t1 + t2, t3, u1 + u2, u3);
    lemma_sum_congruent(t1 + t2 + t3, t4, u1 + u2 + u3, u4);
    lemma_sum_congruent(t1 + t2 + t3 + t4, t5, u1 + u2 + u3 + u4, u5);
    lemma_sum_congruent(t1 + t2 + t3 + t4 + t5, t6, u1 + u2 + u3 + u4 + u5, u6);
    lemma_sum_congruent(
        t1 + t2 + t3 + t4 + t5 + t6,
        q[6] as int,
        u1 + u2 + u3 + u4 + u5 + u6,
        s[6],
    );
}

/// Where the left side of an arithmetic gate is small over the integers, the
/// value that the field gives it stands for that integer.
pub proof fn lemma_gate_over_integers(q: Seq<nat>, w1: nat, w2: nat, w3: nat, w4: nat, out: nat)
    requires
        q.len() >= 7,
        forall|i: int| 0 <= i < 7 ==> q[i] < bls_scalar_order(),
        w1 < bls_scalar_order(),
        w2 < bls_scalar_order(),
        w3 < bls_scalar_order(),
        w4 < bls_scalar_order(),
        out == arithmetic_sum(q, w1, w2, w3, w4) % bls_scalar_order(),
        -bls_scalar_order() < 2 * integer_sum(
            signed_all(q),
            signed(w1),
            signed(w2),
            signed(w3),
            signed(w4),
        ) < bls_scalar_order(),
    ensures
        signed(out) == integer_sum(signed_all(q), signed(w1), signed(w2), signed(w3), signed(w4)),
{
    lemma_sums_congruent(q, w1, w2, w3, w4);
    lemma_signed_of_remainder(
        integer_sum(signed_all(q), signed(w1), signed(w2), signed(w3), signed(w4)),
    );
}

/// An arithmetic gate without output, whose left side is smaller than the
/// order of the field over the integers, holds exactly where that left side is
/// zero.
pub proof fn lemma_constraint_over_integers(wires: Seq<VarIndex>, q: Seq<nat>, w: Seq<nat>)
    requires
        q.len() == 8,
        wires.len() == 5,
        forall|i: int| 0 <= i < 8 ==> q[i] < bls_scalar_order(),
        forall|i: int| 0 <= i < 5 ==> wires[i] < w.len(),
        forall|i: int| 0 <= i < w.len() ==> w[i] < bls_scalar_order(),
        q[7] == 0,
        -bls_scalar_order() < integer_sum(
            signed_all(q),
            signed(w[wires[0] as int]),
            signed(w[wires[1] as int]),
            signed(w[wires[2] as int]),
            signed(w[wires[3] as int]),
        ) < bls_scalar_order(),
    ensures
        arithmetic_holds(wires, q, w) == (integer_sum(
            signed_all(q),
            signed(w[wires[0] as int]),
            signed(w[wires[1] as int]),
            signed(w[wires[2] as int]),
            signed(w[wires[3] as int]),
        ) == 0),
{
    let m = bls_scalar_order() as int;
    let w1 = w[wires[0] as int];
    let w2 = w[wires[1] as int];
    let w3 = w[wires[2] as int];
    let w4 = w[wires[3] as int];
    let s = integer_sum(signed_all(q), signed(w1), signed(w2), signed(w3), signed(w4));
    lemma_sums_congruent(q, w1, w2, w3, w4);
    assert(q[7] * w[wires[4] as int] == 0) by (nonlinear_arith)
        requires
            q[7] == 0,
    ;
    lemma_small_mod(0, bls_scalar_order());
    if s > 0 {
        lemma_small_mod(s as nat, bls_scalar_order());
    } else if s < 0 {
        lemma_small_mod((s + m) as nat, bls_scalar_order());
        lemma_mod_multiples_vanish(1, s, m);
    }
}

/// The field element that stands for the integer `v`.
pub fn scalar_of_i64(v: i64) -> (r: BLSScalar)
    ensures
        signed(r.value()) == v,
{
    if v >= 0 {
        let r = BLSScalar::from_u64(v as u64);
        proof {
            lemma_small_mod(v as nat, bls_scalar_order());
        }
        r
    } else {
        let size: u64 = if v == i64::MIN {
            0x8000_0000_0000_0000u64
        } else {
            (-v) as u64
        };
        let positive = BLSScalar::from_u64(size);
        let r = BLSScalar::zero().sub(&positive);
        proof {
            lemma_small_mod(size as nat, bls_scalar_order());
            lemma_signed_of_remainder(v as int);
        }
        r
    }
}

/// The integer that `x` stands for, where it is smaller than `2^120`.
pub fn signed_small(x: &BLSScalar) -> (r: Option<i128>)
    ensures
        r is Some <==> -0x1000000000000000000000000000000 < signed(x.value())
            < 0x1000000000000000000000000000000,
        r is Some ==> r->Some_0 == signed(x.value()),
{
    let bytes = x.as_bytes();
    match small_value(&bytes) {
        Some(v) => Some(v as i128),
        None => {
            let opposite = BLSScalar::zero().sub(x);
            let other = opposite.as_bytes();
            proof {
                let m = bls_scalar_order() as int;
                let v = x.value() as int;
                lemma_small_mod((m - v) as nat, bls_scalar_order());
                lemma_mod_multiples_vanish(1, -v, m);
            }
            match small_value(&other) {
                Some(v) => Some(-(v as i128)),
                None => None,
            }
        },
    }
}

} // verus!
