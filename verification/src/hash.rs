//! Content digests.

use vstd::prelude::*;

use crate::filesystem::ContentId;
use crate::identity::Digest;

verus! {

/// The BLAKE3 digest of some bytes, as `blake3::hash` returns it.
pub uninterp spec fn digest_of(bytes: Seq<u8>) -> Seq<u8>;

/// The bytes that a hasher has taken in since it was made.
pub uninterp spec fn absorbed(hasher: blake3::Hasher) -> Seq<u8>;

#[verifier::external_type_specification]
#[verifier::external_body]
pub struct ExHasher(blake3::Hasher);

/// The digest of some bytes.
///
/// Trusted: `blake3::hash` returns thirty-two bytes that depend on its argument alone.
#[verifier::external_body]
fn hash_bytes(bytes: &[u8]) -> (digest: [u8; 32])
    ensures
        digest@ == digest_of(bytes@),
{
    *blake3::hash(bytes).as_bytes()
}

/// A hasher that has taken in nothing.
///
/// Trusted: `blake3::Hasher::new` starts the regular hash of no bytes.
#[verifier::external_body]
fn new_hasher() -> (hasher: blake3::Hasher)
    ensures
        absorbed(hasher) == Seq::<u8>::empty(),
{
    blake3::Hasher::new()
}

/// Let a hasher take in some bytes.
///
/// Trusted: `blake3::Hasher::update` adds its argument behind what was added before.
#[verifier::external_body]
fn update_hasher(hasher: &mut blake3::Hasher, bytes: &[u8])
    ensures
        absorbed(*final(hasher)) == absorbed(*old(hasher)) + bytes@,
{
    hasher.update(bytes);
}

/// The digest of what a hasher has taken in.
///
/// Trusted: `blake3::Hasher::finalize` returns what `blake3::hash` returns for all the
/// bytes that the hasher was given.
#[verifier::external_body]
fn finish_hasher(hasher: &blake3::Hasher) -> (digest: [u8; 32])
    ensures
        digest@ == digest_of(absorbed(*hasher)),
{
    *hasher.finalize().as_bytes()
}

/// The content identity of some bytes: their digest and their number.
pub open spec fn is_content_of(content: ContentId, bytes: Seq<u8>) -> bool {
    content.digest@ == digest_of(bytes) && content.length == bytes.len()
}

/// The content identity of the bytes.
pub fn content_id(bytes: &[u8]) -> (content: ContentId)
    ensures
        is_content_of(content, bytes@),
{
    ContentId::new(Digest::from_bytes(hash_bytes(bytes)), bytes.len() as u64)
}

/// The digest of the bytes.
pub fn digest(bytes: &[u8]) -> (digest: Digest)
    ensures
        digest@ == digest_of(bytes@),
{
    Digest::from_bytes(hash_bytes(bytes))
}

/// Bytes have one content identity.
pub proof fn content_is_unique(left: ContentId, right: ContentId, bytes: Seq<u8>)
    requires
        is_content_of(left, bytes),
        is_content_of(right, bytes),
    ensures
        left == right,
{
    Digest::identified(left.digest, right.digest);
}

/// The digest of bytes that come in pieces.
pub struct StreamHasher {
    hasher: blake3::Hasher,
}

impl StreamHasher {
    /// The bytes taken in so far.
    pub closed spec fn view(&self) -> Seq<u8> {
        absorbed(self.hasher)
    }

    pub fn new() -> (hasher: Self)
        ensures
            hasher@ == Seq::<u8>::empty(),
    {
        StreamHasher { hasher: new_hasher() }
    }

    pub fn update(&mut self, bytes: &[u8])
        ensures
            final(self)@ == old(self)@ + bytes@,
    {
        update_hasher(&mut self.hasher, bytes);
    }

    pub fn digest(&self) -> (digest: Digest)
        ensures
            digest@ == digest_of(self@),
    {
        Digest::from_bytes(finish_hasher(&self.hasher))
    }
}

} // verus!
