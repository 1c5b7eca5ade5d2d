//! The Fiat-Shamir transcript: accumulates byte-serialized protocol
//! messages in a running Keccak-256 state and derives deterministic field
//! challenges from it, replacing verifier randomness. Two transcripts fed
//! byte-identical messages in the same order derive identical challenges,
//! and deriving a challenge does not change the absorbed history.

use vstd::prelude::*;

use crate::field::{be_mod_spec, Fp};

verus! {

/// The running hash state, wrapping a Keccak-256 hasher of the `sha3` crate.
#[verifier::external_body]
pub struct KeccakState {
    inner: sha3::Keccak256,
}

/// The byte stream a hash state has absorbed since it was created.
pub uninterp spec fn absorbed_of(h: KeccakState) -> Seq<u8>;

/// The 32-byte Keccak-256 digest of a byte stream, a function of the bytes
/// alone.
pub uninterp spec fn keccak_of(s: Seq<u8>) -> Seq<u8>;

/// Relies on `sha3::Keccak256::new` (`Digest::new`): a fresh hasher that has
/// absorbed nothing.
#[verifier::external_body]
fn keccak_init() -> (h: KeccakState)
    ensures
        absorbed_of(h) == Seq::<u8>::empty(),
{
    KeccakState { inner: <sha3::Keccak256 as sha3::Digest>::new() }
}

/// Relies on `sha3::Digest::update`: appends the given bytes to the absorbed
/// stream and has no other effect.
#[verifier::external_body]
fn keccak_absorb(h: &mut KeccakState, data: &[u8])
    ensures
        absorbed_of(*final(h)) == absorbed_of(*old(h)) + data@,
{
    sha3::Digest::update(&mut h.inner, data);
}

/// Relies on `sha3::Digest::finalize`: the 32-byte Keccak-256 digest of the
/// absorbed stream, depending on those bytes alone; finalizing a clone
/// leaves the running state untouched.
#[verifier::external_body]
fn keccak_digest(h: &KeccakState) -> (r: Vec<u8>)
    ensures
        r@ == keccak_of(absorbed_of(*h)),
        r@.len() == 32,
{
    sha3::Digest::finalize(h.inner.clone()).to_vec()
}

/// The challenge derived from an absorbed byte stream: the double Keccak-256
/// digest of the stream, read big-endian and reduced into the field.
pub open spec fn challenge_of(s: Seq<u8>) -> int {
    be_mod_spec(keccak_of(keccak_of(s)))
}

/// A Fiat-Shamir transcript. Its view is the byte stream absorbed so far.
pub struct Transcript {
    state: KeccakState,
}

impl View for Transcript {
    type V = Seq<u8>;

    closed spec fn view(&self) -> Seq<u8> {
        absorbed_of(self.state)
    }
}

impl Transcript {
    /// A transcript over an empty hash state.
    pub fn init() -> (t: Transcript)
        ensures
            t@ == Seq::<u8>::empty(),
    {
        Transcript { state: keccak_init() }
    }

    /// Absorbs a protocol message into the running hash state.
    pub fn append(&mut self, data: &[u8])
        ensures
            final(self)@ == old(self)@ + data@,
    {
        keccak_absorb(&mut self.state, data);
    }

    /// Derives a field-element challenge from the absorbed history: the
    /// double digest of the history, reduced modulo the field order. The
    /// history is not changed, so repeated calls yield the same challenge.
    pub fn hash(&self) -> (r: Fp)
        ensures
            r@ == challenge_of(self@),
    {
        let first = keccak_digest(&self.state);
        let mut again = keccak_init();
        keccak_absorb(&mut again, first.as_slice());
        let second = keccak_digest(&again);
        proof {
            assert(Seq::<u8>::empty() + first@ =~= first@);
        }
        Fp::from_be_bytes_mod_order(second.as_slice())
    }
}

/// Transcript determinism: two transcripts that have absorbed the same byte
/// stream derive the same challenge, and a transcript extended by the same
/// message as another keeps agreeing with it; this is what lets the verifier
/// reproduce the prover's challenges without interaction.
pub proof fn lemma_transcript_determinism(s1: Seq<u8>, s2: Seq<u8>, data: Seq<u8>)
    requires
        s1 == s2,
    ensures
        challenge_of(s1) == challenge_of(s2),
        challenge_of(s1 + data) == challenge_of(s2 + data),
{
}

} // verus!
