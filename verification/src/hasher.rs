//! A hasher whose digests stay the same across releases and processes.
//!
//! The hasher is fast and collisions are unlikely, but it is not meant for
//! cryptographic purposes.
#![allow(deprecated)]

use std::hash::Hasher;
use std::hash::SipHasher;
use vstd::prelude::*;

verus! {

/// `std::hash::SipHasher`, of which nothing is known but what the
/// functions below say.
#[verifier::external_type_specification]
#[verifier::external_body]
pub struct ExSipHasher(SipHasher);

/// The bytes that have been fed to a `SipHasher` since it was created.
pub uninterp spec fn sip_written(h: SipHasher) -> Seq<u8>;

/// The SipHash digest, under the two zero keys, of a byte stream.
pub uninterp spec fn sip_digest(bytes: Seq<u8>) -> u64;

/// `SipHasher::new`: a hasher with both keys zero, to which nothing has
/// been written yet.
#[verifier::external_body]
fn sip_new() -> (h: SipHasher)
    ensures
        sip_written(h) == Seq::<u8>::empty(),
{
    SipHasher::new()
}

/// `Hasher::write` on a `SipHasher`: the bytes are appended to the stream
/// hashed so far; how the stream is cut into calls makes no difference.
#[verifier::external_body]
fn sip_write(h: &mut SipHasher, bytes: &[u8])
    ensures
        sip_written(*final(h)) == sip_written(*old(h)) + bytes@,
{
    h.write(bytes)
}

/// `Hasher::finish` on a `SipHasher`: the digest of everything written so
/// far. The hasher itself is left as it was.
#[verifier::external_body]
fn sip_finish(h: &SipHasher) -> (digest: u64)
    ensures
        digest == sip_digest(sip_written(*h)),
{
    h.finish()
}

/// A hasher that produces the same value for the same bytes everywhere.
pub struct StableHasher(SipHasher);

impl View for StableHasher {
    type V = Seq<u8>;

    /// All bytes written to the hasher, in order.
    closed spec fn view(&self) -> Seq<u8> {
        sip_written(self.0)
    }
}

/// The digest that a `StableHasher` reports after `bytes` went through it.
pub open spec fn stable_digest(bytes: Seq<u8>) -> u64 {
    sip_digest(bytes)
}

/// The concatenation of the first `n` chunks.
pub open spec fn concatenation(chunks: Seq<Vec<u8>>, n: int) -> Seq<u8>
    decreases n,
{
    if n <= 0 {
        Seq::empty()
    } else {
        concatenation(chunks, n - 1) + chunks[n - 1]@
    }
}

impl StableHasher {
    pub fn new() -> (hasher: StableHasher)
        ensures
            hasher@ == Seq::<u8>::empty(),
    {
        StableHasher(sip_new())
    }

    /// Feeds `bytes` to the hasher.
    pub fn write(&mut self, bytes: &[u8])
        ensures
            final(self)@ == old(self)@ + bytes@,
    {
        sip_write(&mut self.0, bytes)
    }

    /// The digest of all bytes written so far.
    pub fn finish(&self) -> (digest: u64)
        ensures
            digest == stable_digest(self@),
    {
        sip_finish(&self.0)
    }

    /// Hashes a stream that arrives in chunks, as the contents of a file do
    /// when they are read block by block.
    pub fn hash_chunks(chunks: &Vec<Vec<u8>>) -> (digest: u64)
        ensures
            digest == stable_digest(concatenation(chunks@, chunks@.len() as int)),
    {
        let mut hasher = StableHasher::new();
        let mut i: usize = 0;
        while i < chunks.len()
            invariant
                i <= chunks.len(),
                hasher@ == concatenation(chunks@, i as int),
            decreases chunks.len() - i,
        {
            hasher.write(chunks[i].as_slice());
            i += 1;
        }
        hasher.finish()
    }
}

} // verus!
