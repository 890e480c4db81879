//! The Rescue permutation on four elements of the scalar field of BLS12-381.
//!
//! An instance is made of its constants: a mixing matrix, the round keys and
//! the two exponents of the substitution boxes. The permutation adds the first
//! round key, then alternates the two boxes, each followed by the matrix and a
//! round key.

use vstd::prelude::*;
use crate::bls12_381::{bls_add, bls_mul, bls_pow, limbs64_value, BLSScalar};
use crate::groups::Scalar;

verus! {

/// The number of field elements that the permutation works on.
pub const WIDTH: usize = 4;

/// The integers that a list of field elements stands for.
pub open spec fn values_of(elements: Seq<BLSScalar>) -> Seq<nat> {
    Seq::new(elements.len(), |i: int| elements[i].value())
}

/// Every entry of the state raised to the power `e`.
pub open spec fn boxed(state: Seq<nat>, e: nat) -> Seq<nat> {
    Seq::new(WIDTH as nat, |i: int| bls_pow(state[i], e))
}

/// Row `i` of the matrix applied to the state, with entry `i` of the round key
/// added: the key, then each product in turn.
pub open spec fn mixed_entry(
    mds: Seq<nat>,
    keys: Seq<nat>,
    round: int,
    state: Seq<nat>,
    i: int,
    upto: int,
) -> nat
    decreases upto,
{
    if upto <= 0 {
        keys[WIDTH * round + i]
    } else {
        bls_add(
            mixed_entry(mds, keys, round, state, i, upto - 1),
            bls_mul(mds[WIDTH * i + upto - 1], state[upto - 1]),
        )
    }
}

/// The matrix applied to the state, with the round key added.
pub open spec fn mixed(mds: Seq<nat>, keys: Seq<nat>, round: int, state: Seq<nat>) -> Seq<nat> {
    Seq::new(WIDTH as nat, |i: int| mixed_entry(mds, keys, round, state, i, WIDTH as int))
}

/// The state after `step` half rounds. The odd half rounds use the inverse
/// exponent, the even ones the exponent itself.
pub open spec fn state_after(
    mds: Seq<nat>,
    keys: Seq<nat>,
    alpha: nat,
    alpha_inv: nat,
    input: Seq<nat>,
    step: nat,
) -> Seq<nat>
    decreases step,
{
    if step == 0 {
        Seq::new(WIDTH as nat, |i: int| bls_add(input[i], keys[i]))
    } else {
        let before = state_after(mds, keys, alpha, alpha_inv, input, (step - 1) as nat);
        let e = if step % 2 == 1 {
            alpha_inv
        } else {
            alpha
        };
        mixed(mds, keys, step as int, boxed(before, e))
    }
}

/// The constants of a Rescue permutation.
pub struct RescueInstance {
    mds: Vec<BLSScalar>,
    round_keys: Vec<BLSScalar>,
    num_rounds: usize,
    alpha: u64,
    alpha_inv: [u64; 4],
}

impl RescueInstance {
    #[verifier::type_invariant]
    spec fn sized(self) -> bool {
        &&& self.mds@.len() == WIDTH * WIDTH
        &&& self.num_rounds < 0x1000_0000
        &&& self.round_keys@.len() == WIDTH * (2 * self.num_rounds + 1)
    }

    /// The mixing matrix, row by row.
    pub closed spec fn mds_values(&self) -> Seq<nat> {
        values_of(self.mds@)
    }

    /// The round keys, one after the other.
    pub closed spec fn key_values(&self) -> Seq<nat> {
        values_of(self.round_keys@)
    }

    /// The number of rounds; each is two half rounds.
    pub closed spec fn rounds(&self) -> nat {
        self.num_rounds as nat
    }

    /// The exponent of the forward box.
    pub closed spec fn exponent(&self) -> nat {
        self.alpha as nat
    }

    /// The exponent of the inverse box.
    pub closed spec fn inverse_exponent(&self) -> nat {
        limbs64_value(self.alpha_inv@)
    }

    /// What the permutation makes of `input`.
    pub open spec fn permuted(&self, input: Seq<nat>) -> Seq<nat> {
        state_after(
            self.mds_values(),
            self.key_values(),
            self.exponent(),
            self.inverse_exponent(),
            input,
            2 * self.rounds(),
        )
    }

    /// An instance of the given constants: sixteen matrix entries row by row, and
    /// four entries of round key for the start and for each half round. Constants
    /// of another number are refused.
    pub fn new(
        mds: Vec<BLSScalar>,
        round_keys: Vec<BLSScalar>,
        num_rounds: usize,
        alpha: u64,
        alpha_inv: [u64; 4],
    ) -> (r: Option<Self>)
        ensures
            r is Some <==> mds@.len() == WIDTH * WIDTH && num_rounds < 0x1000_0000
                && round_keys@.len() == WIDTH * (2 * num_rounds + 1),
            r is Some ==> r->Some_0.mds_values() == values_of(mds@) && r->Some_0.key_values()
                == values_of(round_keys@) && r->Some_0.rounds() == num_rounds
                && r->Some_0.exponent() == alpha && r->Some_0.inverse_exponent()
                == limbs64_value(alpha_inv@),
    {
        if mds.len() != WIDTH * WIDTH || num_rounds >= 0x1000_0000 {
            return None;
        }
        if round_keys.len() != WIDTH * (2 * num_rounds + 1) {
            return None;
        }
        Some(RescueInstance { mds, round_keys, num_rounds, alpha, alpha_inv })
    }

    /// The matrix applied to `state`, with the key of half round `round` added.
    fn mix(&self, state: &[BLSScalar; 4], round: usize) -> (r: [BLSScalar; 4])
        requires
            round <= 2 * self.rounds(),
        ensures
            values_of(r@) == mixed(
                self.mds_values(),
                self.key_values(),
                round as int,
                values_of(state@),
            ),
    {
        proof {
            use_type_invariant(self);
        }
        let zero = BLSScalar::zero();
        let mut r = [zero, zero, zero, zero];
        let mut i: usize = 0;
        while i < WIDTH
            invariant
                i <= WIDTH,
                round <= 2 * self.rounds(),
                self.mds@.len() == WIDTH * WIDTH,
                self.round_keys@.len() == WIDTH * (2 * self.num_rounds + 1),
                self.num_rounds < 0x1000_0000,
                forall|k: int|
                    0 <= k < i ==> (#[trigger] r@[k]).value() == mixed_entry(
                        self.mds_values(),
                        self.key_values(),
                        round as int,
                        values_of(state@),
                        k,
                        WIDTH as int,
                    ),
            decreases WIDTH - i,
        {
            let mut acc = self.round_keys[WIDTH * round + i];
            let mut j: usize = 0;
            while j < WIDTH
                invariant
                    i < WIDTH,
                    j <= WIDTH,
                    round <= 2 * self.rounds(),
                    self.mds@.len() == WIDTH * WIDTH,
                    self.round_keys@.len() == WIDTH * (2 * self.num_rounds + 1),
                    acc.value() == mixed_entry(
                        self.mds_values(),
                        self.key_values(),
                        round as int,
                        values_of(state@),
                        i as int,
                        j as int,
                    ),
                decreases WIDTH - j,
            {
                let term = self.mds[WIDTH * i + j].mul(&state[j]);
                acc = acc.add(&term);
                j += 1;
            }
            r[i] = acc;
            i += 1;
        }
        proof {
            assert(values_of(r@) =~= mixed(
                self.mds_values(),
                self.key_values(),
                round as int,
                values_of(state@),
            ));
        }
        r
    }

    /// The permutation.
    pub fn rescue(&self, input: &[BLSScalar; 4]) -> (r: [BLSScalar; 4])
        ensures
            values_of(r@) == self.permuted(values_of(input@)),
    {
        proof {
            use_type_invariant(self);
        }
        let mut state = [
            input[0].add(&self.round_keys[0]),
            input[1].add(&self.round_keys[1]),
            input[2].add(&self.round_keys[2]),
            input[3].add(&self.round_keys[3]),
        ];
        let forward: [u64; 4] = [self.alpha, 0, 0, 0];
        proof {
            assert(values_of(state@) =~= state_after(
                self.mds_values(),
                self.key_values(),
                self.exponent(),
                self.inverse_exponent(),
                values_of(input@),
                0,
            ));
            lemma_one_limb(forward@);
        }
        let mut step: usize = 0;
        while step < 2 * self.num_rounds
            invariant
                step <= 2 * self.num_rounds,
                self.num_rounds < 0x1000_0000,
                limbs64_value(forward@) == self.alpha,
                values_of(state@) == state_after(
                    self.mds_values(),
                    self.key_values(),
                    self.exponent(),
                    self.inverse_exponent(),
                    values_of(input@),
                    step as nat,
                ),
            decreases 2 * self.num_rounds - step,
        {
            step += 1;
            let ghost before = values_of(state@);
            let boxes = if step % 2 == 1 {
                [
                    state[0].pow(&self.alpha_inv),
                    state[1].pow(&self.alpha_inv),
                    state[2].pow(&self.alpha_inv),
                    state[3].pow(&self.alpha_inv),
                ]
            } else {
                [
                    state[0].pow(&forward),
                    state[1].pow(&forward),
                    state[2].pow(&forward),
                    state[3].pow(&forward),
                ]
            };
            proof {
                let e = if step % 2 == 1 {
                    self.inverse_exponent()
                } else {
                    self.exponent()
                };
                assert(values_of(boxes@) =~= boxed(before, e));
            }
            state = self.mix(&boxes, step);
        }
        state
    }
}

/// Limbs of which only the lowest is not zero stand for that limb.
proof fn lemma_one_limb(limbs: Seq<u64>)
    requires
        limbs.len() == 4,
        limbs[1] == 0,
        limbs[2] == 0,
        limbs[3] == 0,
    ensures
        limbs64_value(limbs) == limbs[0],
{
    reveal_with_fuel(crate::radix::radix_value, 6);
}

} // verus!
