//! Transcripts of a proof, kept by `merlin`: what prover and verifier have
//! said so far, and the challenges that follow from it.

use vstd::prelude::*;

verus! {

/// `merlin::Transcript`, carried through as it is; what it holds is spoken of
/// only through `transcript_log`.
#[verifier::external_type_specification]
#[verifier::external_body]
pub struct ExTranscript(merlin::Transcript);

/// What has gone into a transcript, in order. A message is entered as
/// `(false, label, message)`, a challenge of 64 bytes that was drawn as
/// `(true, label, empty)`.
pub uninterp spec fn transcript_log(t: merlin::Transcript) -> Seq<(bool, Seq<u8>, Seq<u8>)>;

/// The 64 bytes that a transcript with the given contents answers to a
/// challenge with the given label.
pub uninterp spec fn merlin_challenge(log: Seq<(bool, Seq<u8>, Seq<u8>)>, label: Seq<u8>) -> Seq<
    u8,
>;

/// The label under which `merlin` enters the label of a new transcript.
pub open spec fn domain_separator() -> Seq<u8> {
    seq![0x64u8, 0x6fu8, 0x6du8, 0x2du8, 0x73u8, 0x65u8, 0x70u8]
}

/// `Transcript::new` of `merlin`: a transcript that holds the label, entered
/// as a message under `dom-sep`. The length of a message must fit in 32 bits.
#[verifier::external_body]
pub(crate) fn transcript_new(label: &'static [u8]) -> (t: merlin::Transcript)
    requires
        label@.len() <= u32::MAX,
    ensures
        transcript_log(t) == seq![(false, domain_separator(), label@)],
{
    merlin::Transcript::new(label)
}

/// `Transcript::append_message` of `merlin`: the message is entered under its
/// label.
#[verifier::external_body]
pub(crate) fn transcript_append(t: &mut merlin::Transcript, label: &'static [u8], message: &[u8])
    requires
        message@.len() <= u32::MAX,
    ensures
        transcript_log(*final(t)) == transcript_log(*old(t)).push((false, label@, message@)),
{
    t.append_message(label, message)
}

/// `Transcript::challenge_bytes` of `merlin`, for 64 bytes: the bytes follow
/// from what the transcript holds and from the label, and the draw is entered.
#[verifier::external_body]
pub(crate) fn transcript_challenge(t: &mut merlin::Transcript, label: &'static [u8]) -> (r: [u8; 64])
    ensures
        r@ == merlin_challenge(transcript_log(*old(t)), label@),
        transcript_log(*final(t)) == transcript_log(*old(t)).push(
            (true, label@, Seq::<u8>::empty()),
        ),
{
    let mut r = [0u8; 64];
    t.challenge_bytes(label, &mut r);
    r
}

/// The label of the transcript of a conversion proof: the ASCII bytes of
/// `BAR to ABAR proof`.
pub const BAR_TO_ABAR_TRANSCRIPT: [u8; 17] = [
    0x42, 0x41, 0x52, 0x20, 0x74, 0x6f, 0x20, 0x41, 0x42, 0x41, 0x52, 0x20, 0x70, 0x72, 0x6f,
    0x6f, 0x66,
];

} // verus!
