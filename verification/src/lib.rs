//! Conversion of a confidential asset record into an anonymous one: the algebra
//! and the cross-curve equality proof that the conversion rests on.
//!
//! A confidential record holds Pedersen commitments to an amount and an asset
//! type in the Ristretto group; an anonymous record holds one Rescue commitment
//! over the scalar field of BLS12-381. That both hold the same amount and
//! asset type is shown in two parts: a delegated Chaum-Pedersen proof in the
//! Ristretto group, and a constraint system over the other field that opens the
//! commitment of that proof, reckons its relation with simulated field elements
//! and ties the values to the anonymous record.
//!
//! What is proved here, and what is taken on trust:
//!
//! - Scalars are held as canonical bytes and stand for integers; their
//!   arithmetic is that of `curve25519_dalek`, `ark_bls12_381` and
//!   `ark_ed25519`, taken on trust as arithmetic modulo the order.
//! - Group elements are held as encodings. What the outside crates make of
//!   encodings is known by name only; the group laws are a hypothesis,
//!   `group_laws::group_acts`, wherever a statement needs them.
//! - Under that hypothesis Pippenger's method gives the sum that multiplying
//!   and adding one by one gives (`multi_exp`), and the proof that the owner of
//!   a record makes is accepted for the record (`confidential_to_anonymous`).
//! - The constraint system of a conversion holds of the prover's values
//!   exactly where they are as a conversion has them, and whatever satisfies
//!   it holds values that the public inputs commit to (`bar_to_abar_cs`).
//!
//! Random choices, signatures, serialisation and the proof system for the
//! constraint system are not part of this crate: its functions take what was
//! drawn and hand out what is to be proved or checked.

pub mod bar_to_abar_cs;
pub mod bigint;
pub mod bls12_381;
pub mod bytes;
pub mod confidential_to_anonymous;
pub mod delegated_chaum_pedersen;
pub mod ed25519;
pub mod errors;
pub mod field_simulation;
pub mod group_laws;
pub mod groups;
pub mod limbs;
pub mod multi_exp;
pub mod pedersen;
pub mod radix;
pub mod rescue;
pub mod rescue_commitment;
pub mod ristretto;
pub mod signed;
pub mod sim_fr_var;
pub mod transcript;
pub mod turbo_cs;
pub mod zero_check;
