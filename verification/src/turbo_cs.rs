//! A constraint system over the scalar field of BLS12-381: variables, the
//! values assigned to them, and gates that relate the values.
//!
//! There are three kinds of gate. An arithmetic gate has five wires and eight
//! selectors and asks that
//! `q1*w1 + q2*w2 + q3*w3 + q4*w4 + qm1*w1*w2 + qm2*w3*w4 + qc = qo*wo` in the
//! field. A range gate asks that a value is below a power of two. A hash gate
//! asks that four values are the Rescue permutation of four others.

use vstd::prelude::*;
use vstd::arithmetic::div_mod::{
    lemma_add_mod_noop, lemma_mod_twice, lemma_mul_mod_noop_general, lemma_small_mod,
};
use vstd::arithmetic::power2::{
    pow2, lemma2_to64, lemma2_to64_rest, lemma_pow2_adds, lemma_pow2_unfold,
};
use crate::bigint::{big_less, big_shl};
use crate::bytes::le_value;
use crate::bls12_381::{bls_add, bls_mul, bls_scalar_order, BLSScalar};
use crate::errors::ZeiError;
use crate::groups::Scalar;

use crate::rescue::{values_of, RescueInstance};

verus! {

/// The number of a variable.
pub type VarIndex = usize;

/// A relation between the values of some variables.
#[derive(Clone, Copy, Debug, PartialEq, Eq)]
pub enum Gate {
    /// `q[0]*w1 + q[1]*w2 + q[2]*w3 + q[3]*w4 + q[4]*w1*w2 + q[5]*w3*w4 + q[6]
    /// = q[7]*wo`, the wires being `w1, w2, w3, w4, wo`.
    Arithmetic { wires: [VarIndex; 5], q: [BLSScalar; 8] },
    /// The value of `var` is below `2^bits`.
    Range { var: VarIndex, bits: usize },
    /// The values of `output` are the Rescue permutation of those of `input`.
    Hash { input: [VarIndex; 4], output: [VarIndex; 4] },
}

/// The left side of an arithmetic gate, before reduction.
pub open spec fn arithmetic_sum(q: Seq<nat>, w1: nat, w2: nat, w3: nat, w4: nat) -> nat {
    q[0] * w1 + q[1] * w2 + q[2] * w3 + q[3] * w4 + q[4] * (w1 * w2) + q[5] * (w3 * w4) + q[6]
}

/// Whether an arithmetic gate holds of the values `w`.
pub open spec fn arithmetic_holds(wires: Seq<VarIndex>, q: Seq<nat>, w: Seq<nat>) -> bool {
    arithmetic_sum(
        q,
        w[wires[0] as int],
        w[wires[1] as int],
        w[wires[2] as int],
        w[wires[3] as int],
    ) % bls_scalar_order() == (q[7] * w[wires[4] as int]) % bls_scalar_order()
}

/// The values of four variables.
pub open spec fn values_at(vars: Seq<VarIndex>, w: Seq<nat>) -> Seq<nat> {
    Seq::new(vars.len(), |i: int| w[vars[i] as int])
}

/// Whether a gate holds of the values `w`.
pub open spec fn gate_holds(gate: Gate, w: Seq<nat>, rescue: RescueInstance) -> bool {
    match gate {
        Gate::Arithmetic { wires, q } => arithmetic_holds(wires@, values_of(q@), w),
        Gate::Range { var, bits } => w[var as int] < pow2(bits as nat),
        Gate::Hash { input, output } => values_at(output@, w) == rescue.permuted(
            values_at(input@, w),
        ),
    }
}

/// Whether a gate reads only the first `n` variables.
pub open spec fn gate_within(gate: Gate, n: nat) -> bool {
    match gate {
        Gate::Arithmetic { wires, q } => forall|i: int| 0 <= i < 5 ==> wires@[i] < n,
        Gate::Range { var, bits } => var < n,
        Gate::Hash { input, output } => forall|i: int|
            0 <= i < 4 ==> input@[i] < n && output@[i] < n,
    }
}

/// Whether every gate holds of the values `w`.
pub open spec fn gates_hold(gates: Seq<Gate>, w: Seq<nat>, rescue: RescueInstance) -> bool {
    forall|k: int| 0 <= k < gates.len() ==> gate_holds(#[trigger] gates[k], w, rescue)
}

/// Whether every value is an element of the field.
pub open spec fn in_field(w: Seq<nat>) -> bool {
    forall|i: int| 0 <= i < w.len() ==> (#[trigger] w[i]) < bls_scalar_order()
}

/// Whether a gate asks that variable 0 is zero.
pub open spec fn asks_zero(gate: Gate) -> bool {
    match gate {
        Gate::Arithmetic { wires, q } => wires@ == seq![0usize, 0usize, 0usize, 0usize, 0usize]
            && values_of(q@) == seq![1nat, 0nat, 0nat, 0nat, 0nat, 0nat, 0nat, 0nat],
        _ => false,
    }
}

/// Whether `n` is a power of two.
pub open spec fn is_power_of_two(n: nat) -> bool {
    exists|e: nat| n == pow2(e)
}

/// A gate that reads only the first `n` values holds of two assignments alike
/// where they agree on those.
pub proof fn lemma_gate_reads_its_wires(
    gate: Gate,
    w: Seq<nat>,
    v: Seq<nat>,
    n: nat,
    rescue: RescueInstance,
)
    requires
        gate_within(gate, n),
        n <= w.len(),
        n <= v.len(),
        forall|i: int| 0 <= i < n ==> w[i] == v[i],
    ensures
        gate_holds(gate, w, rescue) == gate_holds(gate, v, rescue),
{
    match gate {
        Gate::Arithmetic { wires, q } => {
            assert(wires@[0] < n && wires@[1] < n && wires@[2] < n && wires@[3] < n && wires@[4]
                < n);
        },
        Gate::Range { var, bits } => {},
        Gate::Hash { input, output } => {
            assert(values_at(input@, w) =~= values_at(input@, v)) by {
                assert forall|i: int| 0 <= i < 4 implies w[input@[i] as int] == v[input@[i] as int] by {
                    assert(input@[i] < n);
                }
            }
            assert(values_at(output@, w) =~= values_at(output@, v)) by {
                assert forall|i: int| 0 <= i < 4 implies w[output@[i] as int] == v[output@[i] as int] by {
                    assert(output@[i] < n);
                }
            }
        },
    }
}

/// A constraint system together with the values assigned to its variables.
pub struct TurboCS {
    /// The permutation that the hash gates speak of.
    pub rescue: RescueInstance,
    /// The gates, in the order in which they were added.
    pub gates: Vec<Gate>,
    /// The number of variables.
    pub num_vars: usize,
    /// The variables whose values are public, in the order of the public inputs.
    pub public_vars_witness_indices: Vec<VarIndex>,
    /// The values of the variables; empty once they were taken out.
    pub witness: Vec<BLSScalar>,
    /// The number of gates.
    pub size: usize,
}

impl TurboCS {
    /// The system is consistent: the gates and the public variables speak of
    /// variables that exist, variable 0 exists, and the first gate asks that it
    /// is zero.
    pub open spec fn wf(&self) -> bool {
        &&& self.num_vars >= 1
        &&& self.size == self.gates@.len()
        &&& self.gates@.len() >= 1
        &&& asks_zero(self.gates@[0])
        &&& forall|k: int|
            0 <= k < self.gates@.len() ==> gate_within(#[trigger] self.gates@[k], self.num_vars as nat)
        &&& forall|k: int|
            0 <= k < self.public_vars_witness_indices@.len()
                ==> #[trigger] self.public_vars_witness_indices@[k] < self.num_vars
    }

    /// The system is consistent and every variable has its value.
    pub open spec fn assigned(&self) -> bool {
        &&& self.wf()
        &&& self.witness@.len() == self.num_vars
        &&& self.witness@[0].value() == 0
        &&& forall|i: int|
            0 <= i < self.witness@.len() ==> (#[trigger] self.witness@[i]).value()
                < bls_scalar_order()
    }

    /// The values of the variables.
    pub open spec fn values(&self) -> Seq<nat> {
        values_of(self.witness@)
    }

    /// The value of one variable.
    pub open spec fn value(&self, var: VarIndex) -> nat {
        self.witness@[var as int].value()
    }

    /// Whether there is room for `n` more variables and `n` more gates.
    pub open spec fn has_room(&self, n: nat) -> bool {
        self.num_vars + n <= 0x1000_0000 && self.size + n <= 0x1000_0000
    }

    /// Whether `later` is this system with variables and gates added: the
    /// variables that were there have kept their values, the gates that were
    /// there are the first gates, and the public variables and the permutation
    /// are the same.
    pub open spec fn grown_into(&self, later: &TurboCS) -> bool {
        &&& later.assigned()
        &&& self.num_vars <= later.num_vars
        &&& self.size <= later.size
        &&& self.gates@.len() <= later.gates@.len()
        &&& forall|k: int|
            0 <= k < self.gates@.len() ==> (#[trigger] later.gates@[k]) == self.gates@[k]
        &&& forall|v: int|
            0 <= v < self.num_vars ==> (#[trigger] later.witness@[v]) == self.witness@[v]
        &&& later.public_vars_witness_indices@ == self.public_vars_witness_indices@
        &&& later.rescue == self.rescue
    }

    /// Whether `w` could be a witness of this system: it has a value in the
    /// field for every variable, and every gate holds of it. Values beyond the
    /// variables of the system are not looked at.
    pub open spec fn admits(&self, w: Seq<nat>) -> bool {
        &&& w.len() >= self.num_vars
        &&& in_field(w)
        &&& gates_hold(self.gates@, w, self.rescue)
    }

    /// Whether every gate holds of the values assigned.
    pub open spec fn holds(&self) -> bool {
        gates_hold(self.gates@, self.values(), self.rescue)
    }

    /// Whether the assignment `w` with the public inputs `online` satisfies the
    /// system: there is a value for each variable and an input for each public
    /// variable, the public variables have the values of the inputs, and every
    /// gate holds.
    pub open spec fn satisfied_by(&self, w: Seq<nat>, online: Seq<nat>) -> bool {
        &&& w.len() == self.num_vars
        &&& online.len() == self.public_vars_witness_indices@.len()
        &&& forall|i: int|
            0 <= i < online.len() ==> w[self.public_vars_witness_indices@[i] as int]
                == #[trigger] online[i]
        &&& gates_hold(self.gates@, w, self.rescue)
    }

    /// A system with one variable, variable 0, whose value is zero and is held
    /// to zero by the first gate.
    pub fn new(rescue: RescueInstance) -> (cs: Self)
        ensures
            cs.assigned(),
            cs.holds(),
            cs.num_vars == 1,
            cs.size == 1,
            cs.value(0) == 0,
            cs.public_vars_witness_indices@.len() == 0,
            cs.rescue == rescue,
    {
        let zero = BLSScalar::zero();
        let one = BLSScalar::one();
        let mut cs = TurboCS {
            rescue,
            gates: Vec::new(),
            num_vars: 1,
            public_vars_witness_indices: Vec::new(),
            witness: Vec::new(),
            size: 0,
        };
        cs.witness.push(zero);
        let gate = Gate::Arithmetic {
            wires: [0, 0, 0, 0, 0],
            q: [one, zero, zero, zero, zero, zero, zero, zero],
        };
        cs.gates.push(gate);
        cs.size = 1;
        proof {
            let q = values_of(seq![one, zero, zero, zero, zero, zero, zero, zero]);
            assert(arithmetic_sum(q, 0, 0, 0, 0) == 0) by (nonlinear_arith)
                requires
                    q[6] == 0,
            ;
            assert(q[7] * 0 == 0) by (nonlinear_arith);
            assert(arithmetic_holds(seq![0usize, 0usize, 0usize, 0usize, 0usize], q, cs.values()));
            match gate {
                Gate::Arithmetic { wires, q: selectors } => {
                    assert(wires@ =~= seq![0usize, 0usize, 0usize, 0usize, 0usize]);
                    assert(values_of(selectors@) =~= q);
                    assert(q =~= seq![1nat, 0nat, 0nat, 0nat, 0nat, 0nat, 0nat, 0nat]);
                },
                _ => {},
            }
            assert(asks_zero(gate));
            assert(cs.gates@[0] == gate);
        }
        cs
    }

    /// The variable whose value is zero.
    pub fn zero_var(&self) -> (var: VarIndex)
        ensures
            var == 0,
    {
        0
    }

    /// A new variable with the given value.
    pub fn new_variable(&mut self, value: BLSScalar) -> (var: VarIndex)
        requires
            old(self).assigned(),
            old(self).num_vars < usize::MAX,
        ensures
            final(self).assigned(),
            old(self).grown_into(final(self)),
            var == old(self).num_vars,
            final(self).num_vars == old(self).num_vars + 1,
            final(self).size == old(self).size,
            final(self).witness@ == old(self).witness@.push(value),
            final(self).gates@ == old(self).gates@,
            final(self).public_vars_witness_indices@ == old(self).public_vars_witness_indices@,
            final(self).rescue == old(self).rescue,
            final(self).holds() == old(self).holds(),
    {
        let _ = value.as_bytes();
        let var = self.num_vars;
        self.witness.push(value);
        self.num_vars = self.num_vars + 1;
        proof {
            lemma_gates_keep(
                self.gates@,
                old(self).values(),
                self.values(),
                old(self).num_vars as nat,
                self.rescue,
            );
        }
        var
    }
}

impl TurboCS {
    /// Adds an arithmetic gate whose output is a new variable, with the value
    /// that makes it hold: the left side, the output selector being one.
    pub fn arithmetic_gate(&mut self, wires: &[VarIndex; 4], q: &[BLSScalar; 7]) -> (out: VarIndex)
        requires
            old(self).assigned(),
            old(self).num_vars < usize::MAX,
            old(self).size < usize::MAX,
            forall|i: int| 0 <= i < 4 ==> wires@[i] < old(self).num_vars,
        ensures
            final(self).assigned(),
            old(self).grown_into(final(self)),
            out == old(self).num_vars,
            final(self).num_vars == old(self).num_vars + 1,
            final(self).size == old(self).size + 1,
            final(self).witness@.len() == old(self).witness@.len() + 1,
            forall|i: int|
                0 <= i < old(self).witness@.len() ==> final(self).witness@[i] == old(
                    self,
                ).witness@[i],
            final(self).value(out) == arithmetic_sum(
                values_of(q@),
                old(self).value(wires@[0]),
                old(self).value(wires@[1]),
                old(self).value(wires@[2]),
                old(self).value(wires@[3]),
            ) % bls_scalar_order(),
            final(self).gates@.len() == old(self).gates@.len() + 1,
            final(self).public_vars_witness_indices@ == old(self).public_vars_witness_indices@,
            final(self).rescue == old(self).rescue,
            final(self).holds() == old(self).holds(),
            forall|w: Seq<nat>| #[trigger]
                final(self).admits(w) ==> w[out as int] == arithmetic_sum(
                    values_of(q@),
                    w[wires@[0] as int],
                    w[wires@[1] as int],
                    w[wires@[2] as int],
                    w[wires@[3] as int],
                ) % bls_scalar_order(),
    {
        let one = BLSScalar::one();
        let all = [q[0], q[1], q[2], q[3], q[4], q[5], q[6], one];
        let value = gate_left(
            &all,
            &self.witness[wires[0]],
            &self.witness[wires[1]],
            &self.witness[wires[2]],
            &self.witness[wires[3]],
        );
        proof {
            assert(values_of(all@).take(7) =~= values_of(q@));
        }
        let out = self.num_vars;
        let _ = value.as_bytes();
        self.witness.push(value);
        self.num_vars = self.num_vars + 1;
        let gate = Gate::Arithmetic {
            wires: [wires[0], wires[1], wires[2], wires[3], out],
            q: [q[0], q[1], q[2], q[3], q[4], q[5], q[6], one],
        };
        self.gates.push(gate);
        self.size = self.size + 1;
        proof {
            let before = old(self).values();
            let after = self.values();
            lemma_gates_keep(old(self).gates@, before, after, old(self).num_vars as nat, self.rescue);
            match gate {
                Gate::Arithmetic { wires: all, q: selectors } => {
                    assert(values_of(selectors@).take(7) =~= values_of(q@));
                    assert(arithmetic_sum(
                        values_of(selectors@),
                        after[all@[0] as int],
                        after[all@[1] as int],
                        after[all@[2] as int],
                        after[all@[3] as int],
                    ) == arithmetic_sum(
                        values_of(q@),
                        before[wires@[0] as int],
                        before[wires@[1] as int],
                        before[wires@[2] as int],
                        before[wires@[3] as int],
                    ));
                    let v = after[out as int];
                    assert(values_of(selectors@)[7] * v == v) by (nonlinear_arith)
                        requires
                            values_of(selectors@)[7] == 1,
                    ;
                    lemma_small_mod(v, bls_scalar_order());
                    assert(gate_holds(gate, after, self.rescue));
                },
                _ => {},
            }
            assert forall|k: int| 0 <= k < self.gates@.len() implies gate_within(
                #[trigger] self.gates@[k],
                self.num_vars as nat,
            ) by {
                if k < old(self).gates@.len() {
                    assert(self.gates@[k] == old(self).gates@[k]);
                    lemma_within_more(old(self).gates@[k], old(self).num_vars as nat, self.num_vars as nat);
                }
            }
            assert(self.holds() == old(self).holds()) by {
                if old(self).holds() {
                    assert forall|k: int| 0 <= k < self.gates@.len() implies gate_holds(
                        #[trigger] self.gates@[k],
                        after,
                        self.rescue,
                    ) by {
                        if k < old(self).gates@.len() {
                            assert(self.gates@[k] == old(self).gates@[k]);
                        }
                    }
                }
                if self.holds() {
                    assert forall|k: int| 0 <= k < old(self).gates@.len() implies gate_holds(
                        #[trigger] old(self).gates@[k],
                        after,
                        self.rescue,
                    ) by {
                        assert(self.gates@[k] == old(self).gates@[k]);
                    }
                }
            }
            assert forall|w: Seq<nat>| #[trigger] self.admits(w) implies w[out as int]
                == arithmetic_sum(
                values_of(q@),
                w[wires@[0] as int],
                w[wires@[1] as int],
                w[wires@[2] as int],
                w[wires@[3] as int],
            ) % bls_scalar_order() by {
                lemma_gates_push(old(self).gates@, gate, w, self.rescue);
                match gate {
                    Gate::Arithmetic { wires: all, q: selectors } => {
                        let v = w[out as int];
                        assert(values_of(selectors@)[7] * v == v) by (nonlinear_arith)
                            requires
                                values_of(selectors@)[7] == 1,
                        ;
                        lemma_small_mod(v, bls_scalar_order());
                        assert(arithmetic_sum(
                            values_of(selectors@),
                            w[all@[0] as int],
                            w[all@[1] as int],
                            w[all@[2] as int],
                            w[all@[3] as int],
                        ) == arithmetic_sum(
                            values_of(q@),
                            w[wires@[0] as int],
                            w[wires@[1] as int],
                            w[wires@[2] as int],
                            w[wires@[3] as int],
                        ));
                    },
                    _ => {},
                }
            }
        }
        out
    }

    /// Adds an arithmetic gate on variables that exist.
    pub fn constrain(&mut self, wires: &[VarIndex; 5], q: &[BLSScalar; 8])
        requires
            old(self).assigned(),
            old(self).size < usize::MAX,
            forall|i: int| 0 <= i < 5 ==> wires@[i] < old(self).num_vars,
        ensures
            final(self).assigned(),
            old(self).grown_into(final(self)),
            final(self).num_vars == old(self).num_vars,
            final(self).size == old(self).size + 1,
            final(self).witness@ == old(self).witness@,
            final(self).gates@ == old(self).gates@.push(Gate::Arithmetic { wires: *wires, q: *q }),
            final(self).public_vars_witness_indices@ == old(self).public_vars_witness_indices@,
            final(self).rescue == old(self).rescue,
            final(self).holds() == (old(self).holds() && arithmetic_holds(
                wires@,
                values_of(q@),
                old(self).values(),
            )),
            forall|w: Seq<nat>| #[trigger]
                final(self).admits(w) ==> arithmetic_holds(wires@, values_of(q@), w),
    {
        let gate = Gate::Arithmetic { wires: *wires, q: *q };
        self.gates.push(gate);
        self.size = self.size + 1;
        proof {
            lemma_gates_push(old(self).gates@, gate, self.values(), self.rescue);
            assert forall|w: Seq<nat>| #[trigger] self.admits(w) implies arithmetic_holds(
                wires@,
                values_of(q@),
                w,
            ) by {
                lemma_gates_push(old(self).gates@, gate, w, self.rescue);
            }
        }
    }

    /// A new variable whose value is the sum of four variables, each times a
    /// constant.
    pub fn linear_combine(
        &mut self,
        vars: &[VarIndex; 4],
        c1: BLSScalar,
        c2: BLSScalar,
        c3: BLSScalar,
        c4: BLSScalar,
    ) -> (out: VarIndex)
        requires
            old(self).assigned(),
            old(self).has_room(1),
            forall|i: int| 0 <= i < 4 ==> vars@[i] < old(self).num_vars,
        ensures
            old(self).grown_into(final(self)),
            out == old(self).num_vars,
            final(self).num_vars == old(self).num_vars + 1,
            final(self).size == old(self).size + 1,
            final(self).holds() == old(self).holds(),
            final(self).value(out) == (c1.value() * old(self).value(vars@[0]) + c2.value() * old(
                self,
            ).value(vars@[1]) + c3.value() * old(self).value(vars@[2]) + c4.value() * old(
                self,
            ).value(vars@[3])) % bls_scalar_order(),
            forall|w: Seq<nat>| #[trigger]
                final(self).admits(w) ==> w[out as int] == (c1.value() * w[vars@[0] as int]
                    + c2.value() * w[vars@[1] as int] + c3.value() * w[vars@[2] as int]
                    + c4.value() * w[vars@[3] as int]) % bls_scalar_order(),
    {
        let zero = BLSScalar::zero();
        let q = [c1, c2, c3, c4, zero, zero, zero];
        let out = self.arithmetic_gate(vars, &q);
        proof {
            assert forall|w: Seq<nat>| #[trigger] self.admits(w) implies w[out as int] == (
            c1.value() * w[vars@[0] as int] + c2.value() * w[vars@[1] as int] + c3.value()
                * w[vars@[2] as int] + c4.value() * w[vars@[3] as int]) % bls_scalar_order() by {
                let qv = values_of(q@);
                let w1 = w[vars@[0] as int];
                let w2 = w[vars@[1] as int];
                let w3 = w[vars@[2] as int];
                let w4 = w[vars@[3] as int];
                assert(arithmetic_sum(qv, w1, w2, w3, w4) == qv[0] * w1 + qv[1] * w2 + qv[2] * w3
                    + qv[3] * w4) by (nonlinear_arith)
                    requires
                        qv[4] == 0,
                        qv[5] == 0,
                        qv[6] == 0,
                        arithmetic_sum(qv, w1, w2, w3, w4) == qv[0] * w1 + qv[1] * w2 + qv[2]
                            * w3 + qv[3] * w4 + qv[4] * (w1 * w2) + qv[5] * (w3 * w4) + qv[6],
                ;
            }
            let qv = values_of(q@);
            let w1 = old(self).value(vars@[0]);
            let w2 = old(self).value(vars@[1]);
            let w3 = old(self).value(vars@[2]);
            let w4 = old(self).value(vars@[3]);
            assert(arithmetic_sum(qv, w1, w2, w3, w4) == qv[0] * w1 + qv[1] * w2 + qv[2] * w3
                + qv[3] * w4) by (nonlinear_arith)
                requires
                    qv[4] == 0,
                    qv[5] == 0,
                    qv[6] == 0,
                    arithmetic_sum(qv, w1, w2, w3, w4) == qv[0] * w1 + qv[1] * w2 + qv[2] * w3
                        + qv[3] * w4 + qv[4] * (w1 * w2) + qv[5] * (w3 * w4) + qv[6],
            ;
        }
        out
    }

    /// Asks that two variables have the same value.
    pub fn equal(&mut self, left: VarIndex, right: VarIndex)
        requires
            old(self).assigned(),
            old(self).size < usize::MAX,
            left < old(self).num_vars,
            right < old(self).num_vars,
        ensures
            final(self).assigned(),
            old(self).grown_into(final(self)),
            final(self).size == old(self).size + 1,
            final(self).num_vars == old(self).num_vars,
            final(self).witness@ == old(self).witness@,
            final(self).gates@.len() == old(self).gates@.len() + 1,
            final(self).public_vars_witness_indices@ == old(self).public_vars_witness_indices@,
            final(self).rescue == old(self).rescue,
            final(self).holds() == (old(self).holds() && old(self).value(left) == old(self).value(
                right,
            )),
            forall|w: Seq<nat>| #[trigger] final(self).admits(w) ==> w[left as int] == w[right as int],
    {
        let zero = BLSScalar::zero();
        let one = BLSScalar::one();
        let wires = [left, 0, 0, 0, right];
        let q = [one, zero, zero, zero, zero, zero, zero, one];
        self.constrain(&wires, &q);
        proof {
            assert forall|w: Seq<nat>| #[trigger] self.admits(w) implies w[left as int]
                == w[right as int] by {
                let a = w[left as int];
                let b = w[right as int];
                let z = w[0];
                let qv = values_of(q@);
                assert(arithmetic_holds(wires@, qv, w));
                assert(arithmetic_sum(qv, a, z, z, z) == a) by (nonlinear_arith)
                    requires
                        qv[0] == 1,
                        qv[1] == 0,
                        qv[2] == 0,
                        qv[3] == 0,
                        qv[4] == 0,
                        qv[5] == 0,
                        qv[6] == 0,
                        arithmetic_sum(qv, a, z, z, z) == qv[0] * a + qv[1] * z + qv[2] * z
                            + qv[3] * z + qv[4] * (a * z) + qv[5] * (z * z) + qv[6],
                ;
                assert(qv[7] * b == b) by (nonlinear_arith)
                    requires
                        qv[7] == 1,
                ;
                lemma_small_mod(a, bls_scalar_order());
                lemma_small_mod(b, bls_scalar_order());
            }
            let w = old(self).values();
            let a = w[left as int];
            let b = w[right as int];
            let z = w[0];
            let qv = values_of(q@);
            assert(arithmetic_sum(qv, a, z, z, z) == a) by (nonlinear_arith)
                requires
                    qv[0] == 1,
                    qv[1] == 0,
                    qv[2] == 0,
                    qv[3] == 0,
                    qv[4] == 0,
                    qv[5] == 0,
                    qv[6] == 0,
                    arithmetic_sum(qv, a, z, z, z) == qv[0] * a + qv[1] * z + qv[2] * z + qv[3] * z
                        + qv[4] * (a * z) + qv[5] * (z * z) + qv[6],
            ;
            assert(qv[7] * b == b) by (nonlinear_arith)
                requires
                    qv[7] == 1,
            ;
            lemma_small_mod(a, bls_scalar_order());
            lemma_small_mod(b, bls_scalar_order());
        }
    }

    /// Asks that the value of a variable is below `2^bits`.
    pub fn range_check(&mut self, var: VarIndex, bits: usize)
        requires
            old(self).assigned(),
            old(self).size < usize::MAX,
            var < old(self).num_vars,
        ensures
            final(self).assigned(),
            old(self).grown_into(final(self)),
            final(self).size == old(self).size + 1,
            final(self).num_vars == old(self).num_vars,
            final(self).witness@ == old(self).witness@,
            final(self).gates@.len() == old(self).gates@.len() + 1,
            final(self).public_vars_witness_indices@ == old(self).public_vars_witness_indices@,
            final(self).rescue == old(self).rescue,
            final(self).holds() == (old(self).holds() && old(self).value(var) < pow2(bits as nat)),
            final(self).gates@ == old(self).gates@.push(Gate::Range { var, bits }),
            forall|w: Seq<nat>| #[trigger] final(self).admits(w) ==> w[var as int] < pow2(bits as nat),
    {
        let gate = Gate::Range { var, bits };
        self.gates.push(gate);
        self.size = self.size + 1;
        proof {
            lemma_gates_push(old(self).gates@, gate, self.values(), self.rescue);
            assert forall|w: Seq<nat>| #[trigger] self.admits(w) implies w[var as int] < pow2(
                bits as nat,
            ) by {
                lemma_gates_push(old(self).gates@, gate, w, self.rescue);
            }
        }
    }

    /// Four new variables whose values are the Rescue permutation of the
    /// values of `input`, and a gate that says so.
    pub fn rescue_hash(&mut self, input: &[VarIndex; 4]) -> (output: [VarIndex; 4])
        requires
            old(self).assigned(),
            old(self).num_vars < usize::MAX - 4,
            old(self).size < usize::MAX,
            forall|i: int| 0 <= i < 4 ==> input@[i] < old(self).num_vars,
        ensures
            final(self).assigned(),
            old(self).grown_into(final(self)),
            final(self).size == old(self).size + 1,
            final(self).num_vars == old(self).num_vars + 4,
            forall|i: int| 0 <= i < 4 ==> output@[i] == old(self).num_vars + i,
            final(self).witness@.len() == old(self).witness@.len() + 4,
            forall|i: int|
                0 <= i < old(self).witness@.len() ==> final(self).witness@[i] == old(
                    self,
                ).witness@[i],
            values_at(output@, final(self).values()) == old(self).rescue.permuted(
                values_at(input@, old(self).values()),
            ),
            final(self).gates@ == old(self).gates@.push(Gate::Hash { input: *input, output }),
            final(self).public_vars_witness_indices@ == old(self).public_vars_witness_indices@,
            final(self).rescue == old(self).rescue,
            final(self).holds() == old(self).holds(),
            forall|w: Seq<nat>| #[trigger]
                final(self).admits(w) ==> values_at(output@, w) == old(self).rescue.permuted(
                    values_at(input@, w),
                ),
    {
        let state = [
            self.witness[input[0]],
            self.witness[input[1]],
            self.witness[input[2]],
            self.witness[input[3]],
        ];
        let hashed = self.rescue.rescue(&state);
        let first = self.num_vars;
        let _ = hashed[0].as_bytes();
        let _ = hashed[1].as_bytes();
        let _ = hashed[2].as_bytes();
        let _ = hashed[3].as_bytes();
        self.witness.push(hashed[0]);
        self.witness.push(hashed[1]);
        self.witness.push(hashed[2]);
        self.witness.push(hashed[3]);
        self.num_vars = self.num_vars + 4;
        let output = [first, first + 1, first + 2, first + 3];
        let gate = Gate::Hash { input: *input, output };
        self.gates.push(gate);
        self.size = self.size + 1;
        proof {
            let before = old(self).values();
            let after = self.values();
            lemma_gates_keep(old(self).gates@, before, after, old(self).num_vars as nat, self.rescue);
            assert(values_of(state@) =~= values_at(input@, before));
            assert(values_at(input@, after) =~= values_at(input@, before));
            assert(values_at(output@, after) =~= values_of(hashed@));
            assert(gate_holds(gate, after, self.rescue));
            assert forall|w: Seq<nat>| #[trigger] self.admits(w) implies values_at(output@, w)
                == old(self).rescue.permuted(values_at(input@, w)) by {
                lemma_gates_push(old(self).gates@, gate, w, self.rescue);
            }
            assert forall|k: int| 0 <= k < self.gates@.len() implies gate_within(
                #[trigger] self.gates@[k],
                self.num_vars as nat,
            ) by {
                if k < old(self).gates@.len() {
                    assert(self.gates@[k] == old(self).gates@[k]);
                    lemma_within_more(old(self).gates@[k], old(self).num_vars as nat, self.num_vars as nat);
                }
            }
            assert(self.holds() == old(self).holds()) by {
                if old(self).holds() {
                    assert forall|k: int| 0 <= k < self.gates@.len() implies gate_holds(
                        #[trigger] self.gates@[k],
                        after,
                        self.rescue,
                    ) by {
                        if k < old(self).gates@.len() {
                            assert(self.gates@[k] == old(self).gates@[k]);
                        }
                    }
                }
                if self.holds() {
                    assert forall|k: int| 0 <= k < old(self).gates@.len() implies gate_holds(
                        #[trigger] old(self).gates@[k],
                        after,
                        self.rescue,
                    ) by {
                        assert(self.gates@[k] == old(self).gates@[k]);
                    }
                }
            }
        }
        output
    }

    /// Makes the value of a variable public: it is the next public input.
    pub fn prepare_pi_variable(&mut self, var: VarIndex)
        requires
            old(self).assigned(),
            var < old(self).num_vars,
        ensures
            final(self).assigned(),
            final(self).num_vars == old(self).num_vars,
            final(self).witness@ == old(self).witness@,
            final(self).gates@ == old(self).gates@,
            final(self).public_vars_witness_indices@ == old(self).public_vars_witness_indices@.push(
                var,
            ),
            final(self).rescue == old(self).rescue,
            final(self).size == old(self).size,
            final(self).holds() == old(self).holds(),
    {
        self.public_vars_witness_indices.push(var);
    }

    /// Adds gates that hold of everything until the number of gates is a power
    /// of two: the least one that is not below the number there was.
    pub fn pad(&mut self)
        requires
            old(self).assigned(),
            old(self).size <= 0x4000_0000,
        ensures
            final(self).assigned(),
            final(self).size >= old(self).size,
            forall|p: nat|
                #[trigger] is_power_of_two(p) && p >= old(self).size ==> p >= final(self).size,
            final(self).num_vars == old(self).num_vars,
            final(self).witness@ == old(self).witness@,
            final(self).gates@.len() >= old(self).gates@.len(),
            is_power_of_two(final(self).gates@.len()),
            final(self).size == final(self).gates@.len(),
            old(self).grown_into(final(self)),
            final(self).public_vars_witness_indices@ == old(self).public_vars_witness_indices@,
            final(self).rescue == old(self).rescue,
            final(self).holds() == old(self).holds(),
    {
        let mut target: usize = 1;
        proof {
            lemma2_to64();
        }
        let ghost mut e: nat = 0;
        while target < self.size
            invariant
                target == pow2(e),
                1 <= target <= 0x8000_0000,
                self.size <= 0x4000_0000,
                self.size == old(self).size,
                e == 0 || pow2((e - 1) as nat) < self.size,
            decreases 0x1_0000_0000 - target,
        {
            proof {
                lemma_pow2_unfold(e + 1);
                e = e + 1;
            }
            target = target * 2;
        }
        let zero = BLSScalar::zero();
        while self.size < target
            invariant
                self.assigned(),
                self.size <= target <= 0x8000_0000,
                target == pow2(e),
                old(self).size <= self.size,
                e == 0 || pow2((e - 1) as nat) < old(self).size,
                self.num_vars == old(self).num_vars,
                self.witness@ == old(self).witness@,
                self.gates@.len() >= old(self).gates@.len(),
                self.public_vars_witness_indices@ == old(self).public_vars_witness_indices@,
                self.rescue == old(self).rescue,
                self.holds() == old(self).holds(),
                old(self).grown_into(self),
                zero.value() == 0,
            decreases target - self.size,
        {
            let ghost before = *self;
            let wires = [0, 0, 0, 0, 0];
            let q = [zero, zero, zero, zero, zero, zero, zero, zero];
            proof {
                let w = self.values();
                let z = w[0];
                let qv = values_of(q@);
                assert(arithmetic_sum(qv, z, z, z, z) == 0) by (nonlinear_arith)
                    requires
                        qv[0] == 0,
                        qv[1] == 0,
                        qv[2] == 0,
                        qv[3] == 0,
                        qv[4] == 0,
                        qv[5] == 0,
                        qv[6] == 0,
                        arithmetic_sum(qv, z, z, z, z) == qv[0] * z + qv[1] * z + qv[2] * z + qv[3]
                            * z + qv[4] * (z * z) + qv[5] * (z * z) + qv[6],
                ;
                assert(qv[7] * z == 0) by (nonlinear_arith)
                    requires
                        qv[7] == 0,
                ;
            }
            self.constrain(&wires, &q);
            proof {
                lemma_grown_twice(old(self), &before, self);
            }
        }
        proof {
            assert forall|p: nat| #[trigger]
                is_power_of_two(p) && p >= old(self).size implies p >= self.size by {
                let k = choose|k: nat| p == pow2(k);
                if k < e {
                    lemma_pow2_grows(k, (e - 1) as nat);
                } else {
                    lemma_pow2_grows(e, k);
                }
            }
        }
    }

    /// Whether the values `witness` with the public inputs `online_inputs`
    /// satisfy the system.
    pub fn verify_witness(&self, witness: &[BLSScalar], online_inputs: &[BLSScalar]) -> (r: Result<
        (),
        ZeiError,
    >)
        requires
            self.wf(),
        ensures
            r is Ok <==> self.satisfied_by(values_of(witness@), values_of(online_inputs@)),
            r is Err ==> r->Err_0 == ZeiError::ZKProofVerificationError,
    {
        let ghost w = values_of(witness@);
        let ghost online = values_of(online_inputs@);
        if witness.len() != self.num_vars {
            return Err(ZeiError::ZKProofVerificationError);
        }
        if online_inputs.len() != self.public_vars_witness_indices.len() {
            return Err(ZeiError::ZKProofVerificationError);
        }
        let mut i: usize = 0;
        while i < online_inputs.len()
            invariant
                self.wf(),
                i <= online_inputs@.len(),
                witness@.len() == self.num_vars,
                online_inputs@.len() == self.public_vars_witness_indices@.len(),
                w == values_of(witness@),
                online == values_of(online_inputs@),
                forall|k: int|
                    0 <= k < i ==> w[self.public_vars_witness_indices@[k] as int]
                        == #[trigger] online[k],
            decreases online_inputs@.len() - i,
        {
            let var = self.public_vars_witness_indices[i];
            if !witness[var].is_equal(&online_inputs[i]) {
                assert(w[self.public_vars_witness_indices@[i as int] as int] != online[i as int]);
                return Err(ZeiError::ZKProofVerificationError);
            }
            i += 1;
        }
        let mut k: usize = 0;
        while k < self.gates.len()
            invariant
                self.wf(),
                k <= self.gates@.len(),
                witness@.len() == self.num_vars,
                w == values_of(witness@),
                forall|j: int| 0 <= j < k ==> gate_holds(#[trigger] self.gates@[j], w, self.rescue),
            decreases self.gates@.len() - k,
        {
            let gate = self.gates[k];
            assert(gate_within(self.gates@[k as int], self.num_vars as nat));
            let ok = match gate {
                Gate::Arithmetic { wires, q } => {
                    assert(wires@[0] < self.num_vars && wires@[1] < self.num_vars && wires@[2]
                        < self.num_vars && wires@[3] < self.num_vars && wires@[4]
                        < self.num_vars);
                    let left = gate_left(
                        &q,
                        &witness[wires[0]],
                        &witness[wires[1]],
                        &witness[wires[2]],
                        &witness[wires[3]],
                    );
                    let right = q[7].mul(&witness[wires[4]]);
                    left.is_equal(&right)
                },
                Gate::Range { var, bits } => is_below_power_of_two(&witness[var], bits),
                Gate::Hash { input, output } => {
                    assert(input@[0] < self.num_vars && input@[1] < self.num_vars && input@[2]
                        < self.num_vars && input@[3] < self.num_vars);
                    assert(output@[0] < self.num_vars && output@[1] < self.num_vars && output@[2]
                        < self.num_vars && output@[3] < self.num_vars);
                    let state = [
                        witness[input[0]],
                        witness[input[1]],
                        witness[input[2]],
                        witness[input[3]],
                    ];
                    let hashed = self.rescue.rescue(&state);
                    let same = hashed[0].is_equal(&witness[output[0]]) && hashed[1].is_equal(
                        &witness[output[1]],
                    ) && hashed[2].is_equal(&witness[output[2]]) && hashed[3].is_equal(
                        &witness[output[3]],
                    );
                    proof {
                        assert(values_of(state@) =~= values_at(input@, w));
                        let out = values_at(output@, w);
                        let got = values_of(hashed@);
                        if same {
                            assert(out =~= got);
                        } else {
                            assert(out[0] != got[0] || out[1] != got[1] || out[2] != got[2]
                                || out[3] != got[3]);
                        }
                    }
                    same
                },
            };
            assert(ok == gate_holds(gate, w, self.rescue));
            if !ok {
                return Err(ZeiError::ZKProofVerificationError);
            }
            k += 1;
        }
        Ok(())
    }

    /// Takes the values of the variables out of the system.
    pub fn get_and_clear_witness(&mut self) -> (witness: Vec<BLSScalar>)
        requires
            old(self).assigned(),
        ensures
            witness@ == old(self).witness@,
            final(self).wf(),
            final(self).witness@.len() == 0,
            final(self).num_vars == old(self).num_vars,
            final(self).gates@ == old(self).gates@,
            final(self).public_vars_witness_indices@ == old(self).public_vars_witness_indices@,
            final(self).rescue == old(self).rescue,
    {
        let mut taken: Vec<BLSScalar> = Vec::new();
        let mut i: usize = 0;
        while i < self.witness.len()
            invariant
                i <= self.witness@.len(),
                taken@.len() == i,
                self.witness@ == old(self).witness@,
                self.num_vars == old(self).num_vars,
                self.gates@ == old(self).gates@,
                self.size == old(self).size,
                self.public_vars_witness_indices@ == old(self).public_vars_witness_indices@,
                self.rescue == old(self).rescue,
                forall|k: int| 0 <= k < i ==> taken@[k] == self.witness@[k],
            decreases self.witness@.len() - i,
        {
            taken.push(self.witness[i]);
            i += 1;
        }
        self.witness = Vec::new();
        assert(taken@ =~= old(self).witness@);
        taken
    }
}

/// The left side of an arithmetic gate with the selectors `q`, computed in the
/// field.
pub fn gate_left(
    q: &[BLSScalar; 8],
    w1: &BLSScalar,
    w2: &BLSScalar,
    w3: &BLSScalar,
    w4: &BLSScalar,
) -> (r: BLSScalar)
    ensures
        r.value() == arithmetic_sum(values_of(q@), w1.value(), w2.value(), w3.value(), w4.value())
            % bls_scalar_order(),
{
    let t1 = q[0].mul(w1);
    let t2 = q[1].mul(w2);
    let t3 = q[2].mul(w3);
    let t4 = q[3].mul(w4);
    let t5 = q[4].mul(&w1.mul(w2));
    let t6 = q[5].mul(&w3.mul(w4));
    let r = t1.add(&t2).add(&t3).add(&t4).add(&t5).add(&t6).add(&q[6]);
    proof {
        lemma_left_side(values_of(q@), w1.value(), w2.value(), w3.value(), w4.value());
    }
    r
}

/// Whether the value of `x` is below `2^bits`.
pub fn is_below_power_of_two(x: &BLSScalar, bits: usize) -> (r: bool)
    ensures
        r == (x.value() < pow2(bits as nat)),
{
    let bytes = x.as_bytes();
    if bits >= 256 {
        proof {
            lemma_order_below_pow2_255();
            lemma_pow2_grows(255, bits as nat);
        }
        return true;
    }
    let one: [u8; 1] = [1];
    proof {
        assert(le_value(one@) == 1) by {
            reveal_with_fuel(le_value, 2);
        }
        assert(1 * pow2(bits as nat) == pow2(bits as nat));
    }
    let bound = big_shl(&one, bits);
    big_less(&bytes, bound.as_slice())
}

/// The order of the scalar field is below `2^255`.
pub proof fn lemma_order_below_pow2_255()
    ensures
        bls_scalar_order() < pow2(255),
        pow2(255) == 0x8000000000000000000000000000000000000000000000000000000000000000,
{
    lemma2_to64();
    lemma2_to64_rest();
    lemma_pow2_adds(64, 64);
    lemma_pow2_adds(128, 64);
    lemma_pow2_adds(192, 63);
    assert(pow2(128) == 0x100000000000000000000000000000000) by (nonlinear_arith)
        requires
            pow2(64) == 0x10000000000000000,
            pow2(128) == pow2(64) * pow2(64),
    ;
    assert(pow2(192) == 0x1000000000000000000000000000000000000000000000000) by (nonlinear_arith)
        requires
            pow2(64) == 0x10000000000000000,
            pow2(128) == 0x100000000000000000000000000000000,
            pow2(192) == pow2(128) * pow2(64),
    ;
    assert(pow2(255) == 0x8000000000000000000000000000000000000000000000000000000000000000)
        by (nonlinear_arith)
        requires
            pow2(63) == 0x8000000000000000,
            pow2(192) == 0x1000000000000000000000000000000000000000000000000,
            pow2(255) == pow2(192) * pow2(63),
    ;
}

/// The least power of two that is not below `size` is `2^e` where `size` is
/// above `2^(e - 1)` and not above `2^e`.
pub proof fn lemma_least_power(size: nat, padded: nat, e: nat)
    requires
        is_power_of_two(padded),
        padded >= size,
        forall|p: nat| #[trigger] is_power_of_two(p) && p >= size ==> p >= padded,
        e >= 1,
        pow2((e - 1) as nat) < size <= pow2(e),
    ensures
        padded == pow2(e),
{
    assert(is_power_of_two(pow2(e)));
    let k = choose|k: nat| padded == pow2(k);
    if k < e {
        lemma_pow2_grows(k, (e - 1) as nat);
    } else {
        lemma_pow2_grows(e, k);
    }
}

/// Powers of two grow with the exponent.
pub proof fn lemma_pow2_grows(a: nat, b: nat)
    requires
        a <= b,
    ensures
        pow2(a) <= pow2(b),
    decreases b - a,
{
    if a < b {
        lemma_pow2_grows(a, (b - 1) as nat);
        lemma_pow2_unfold(b);
    }
}

/// A gate within the first `n` variables is within the first `m` where `m` is
/// not less.
pub proof fn lemma_within_more(gate: Gate, n: nat, m: nat)
    requires
        gate_within(gate, n),
        n <= m,
    ensures
        gate_within(gate, m),
{
}

/// With one gate more, all gates hold where the earlier ones and the new one do.
pub proof fn lemma_gates_push(gates: Seq<Gate>, gate: Gate, w: Seq<nat>, rescue: RescueInstance)
    ensures
        gates_hold(gates.push(gate), w, rescue) == (gates_hold(gates, w, rescue) && gate_holds(
            gate,
            w,
            rescue,
        )),
{
    let longer = gates.push(gate);
    if gates_hold(longer, w, rescue) {
        assert forall|k: int| 0 <= k < gates.len() implies gate_holds(
            #[trigger] gates[k],
            w,
            rescue,
        ) by {
            assert(longer[k] == gates[k]);
        }
        assert(longer[gates.len() as int] == gate);
    }
    if gates_hold(gates, w, rescue) && gate_holds(gate, w, rescue) {
        assert forall|k: int| 0 <= k < longer.len() implies gate_holds(
            #[trigger] longer[k],
            w,
            rescue,
        ) by {
            if k < gates.len() {
                assert(longer[k] == gates[k]);
            }
        }
    }
}

/// The left side of an arithmetic gate, computed step by step in the field, is
/// the sum reduced once.
pub proof fn lemma_left_side(q: Seq<nat>, w1: nat, w2: nat, w3: nat, w4: nat)
    requires
        q.len() >= 7,
    ensures
        bls_add(
            bls_add(
                bls_add(
                    bls_add(
                        bls_add(
                            bls_add(bls_mul(q[0], w1), bls_mul(q[1], w2)),
                            bls_mul(q[2], w3),
                        ),
                        bls_mul(q[3], w4),
                    ),
                    bls_mul(q[4], bls_mul(w1, w2)),
                ),
                bls_mul(q[5], bls_mul(w3, w4)),
            ),
            q[6],
        ) == arithmetic_sum(q, w1, w2, w3, w4) % bls_scalar_order(),
{
    let m = bls_scalar_order() as int;
    let a = (q[0] * w1) as int;
    let b = (q[1] * w2) as int;
    let c = (q[2] * w3) as int;
    let d = (q[3] * w4) as int;
    let e = (q[4] * (w1 * w2)) as int;
    let f = (q[5] * (w3 * w4)) as int;
    let g = q[6] as int;
    lemma_mul_mod_noop_general(q[4] as int, (w1 * w2) as int, m);
    lemma_mul_mod_noop_general(q[5] as int, (w3 * w4) as int, m);
    lemma_add_mod_noop(a, b, m);
    lemma_add_mod_noop(a + b, c, m);
    lemma_add_mod_noop(a + b + c, d, m);
    lemma_add_mod_noop(a + b + c + d, e, m);
    lemma_add_mod_noop(a + b + c + d + e, f, m);
    lemma_add_mod_noop(a + b + c + d + e + f, g, m);
    lemma_mod_twice(a, m);
    lemma_mod_twice(b, m);
    lemma_mod_twice(c, m);
    lemma_mod_twice(d, m);
    lemma_mod_twice(e, m);
    lemma_mod_twice(f, m);
    lemma_mod_twice(a + b, m);
    lemma_mod_twice(a + b + c, m);
    lemma_mod_twice(a + b + c + d, m);
    lemma_mod_twice(a + b + c + d + e, m);
    lemma_mod_twice(a + b + c + d + e + f, m);
    lemma_add_mod_noop((a + b) % m, c, m);
    lemma_add_mod_noop((a + b + c) % m, d, m);
    lemma_add_mod_noop((a + b + c + d) % m, e, m);
    lemma_add_mod_noop((a + b + c + d + e) % m, f, m);
    lemma_add_mod_noop((a + b + c + d + e + f) % m, g, m);
}

/// A witness fixes the public inputs that it satisfies a system with: where it
/// satisfies the system with some public inputs, it satisfies it with no
/// others, so that a change to any of the public inputs is found out.
pub proof fn lemma_public_inputs_are_bound(
    cs: &TurboCS,
    w: Seq<nat>,
    online: Seq<nat>,
    changed: Seq<nat>,
)
    requires
        cs.satisfied_by(w, online),
        changed != online,
    ensures
        !cs.satisfied_by(w, changed),
{
    if cs.satisfied_by(w, changed) {
        assert(changed =~= online);
    }
}

/// A system that has grown twice has grown.
pub proof fn lemma_grown_twice(a: &TurboCS, b: &TurboCS, c: &TurboCS)
    requires
        a.grown_into(b),
        b.grown_into(c),
    ensures
        a.grown_into(c),
{
    assert forall|v: int| 0 <= v < a.num_vars implies (#[trigger] c.witness@[v]) == a.witness@[v] by {
        assert(b.witness@[v] == a.witness@[v]);
    }
    assert forall|k: int| 0 <= k < a.gates@.len() implies (#[trigger] c.gates@[k]) == a.gates@[k] by {
        assert(b.gates@[k] == a.gates@[k]);
    }
}

/// What a system admits after it has grown, it admitted before.
pub proof fn lemma_admitted_before(before: &TurboCS, after: &TurboCS, w: Seq<nat>)
    requires
        before.grown_into(after),
        after.admits(w),
    ensures
        before.admits(w),
{
    assert forall|k: int| 0 <= k < before.gates@.len() implies gate_holds(
        #[trigger] before.gates@[k],
        w,
        before.rescue,
    ) by {
        assert(after.gates@[k] == before.gates@[k]);
    }
}

/// In what a consistent system admits, variable 0 is zero.
pub proof fn lemma_admitted_zero(cs: &TurboCS, w: Seq<nat>)
    requires
        cs.wf(),
        cs.admits(w),
    ensures
        w[0] == 0,
{
    let gate = cs.gates@[0];
    assert(gate_holds(gate, w, cs.rescue));
    match gate {
        Gate::Arithmetic { wires, q } => {
            let qv = values_of(q@);
            let z = w[0];
            assert(wires@[0] == 0 && wires@[1] == 0 && wires@[2] == 0 && wires@[3] == 0
                && wires@[4] == 0);
            assert(arithmetic_sum(qv, z, z, z, z) == z) by (nonlinear_arith)
                requires
                    qv[0] == 1,
                    qv[1] == 0,
                    qv[2] == 0,
                    qv[3] == 0,
                    qv[4] == 0,
                    qv[5] == 0,
                    qv[6] == 0,
                    arithmetic_sum(qv, z, z, z, z) == qv[0] * z + qv[1] * z + qv[2] * z + qv[3] * z
                        + qv[4] * (z * z) + qv[5] * (z * z) + qv[6],
            ;
            assert(qv[7] * z == 0) by (nonlinear_arith)
                requires
                    qv[7] == 0,
            ;
            lemma_small_mod(z, bls_scalar_order());
            lemma_small_mod(0, bls_scalar_order());
        },
        _ => {},
    }
}

/// Gates that read only the first `n` values hold of two assignments alike
/// where they agree on those.
pub proof fn lemma_gates_keep(
    gates: Seq<Gate>,
    w: Seq<nat>,
    v: Seq<nat>,
    n: nat,
    rescue: RescueInstance,
)
    requires
        forall|k: int| 0 <= k < gates.len() ==> gate_within(#[trigger] gates[k], n),
        n <= w.len(),
        n <= v.len(),
        forall|i: int| 0 <= i < n ==> w[i] == v[i],
    ensures
        gates_hold(gates, w, rescue) == gates_hold(gates, v, rescue),
{
    assert forall|k: int| 0 <= k < gates.len() implies gate_holds(gates[k], w, rescue)
        == gate_holds(gates[k], v, rescue) by {
        lemma_gate_reads_its_wires(gates[k], w, v, n, rescue);
    }
}

} // verus!
