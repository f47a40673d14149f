//! Identities and counters.

use vstd::prelude::*;

use crate::error::{corrupt, Error};
use crate::order::Ranked;
use crate::text::{bytes_precede, bytes_rank, hex_of, same_bytes, to_hex};

verus! {

/// Sixteen random bytes with the marks of a random identity.
///
/// Trusted: `uuid::Uuid::new_v4` sets the version nibble to four and the two
/// variant bits to binary ten; the other bits come from the operating system.
#[verifier::external_body]
fn random_identity() -> (bytes: [u8; 16])
    ensures
        marked_random(bytes@),
{
    *uuid::Uuid::new_v4().as_bytes()
}

/// The version and variant marks of a random identity.
pub open spec fn marked_random(bytes: Seq<u8>) -> bool {
    &&& bytes.len() == 16
    &&& 0x40 <= bytes[6] < 0x50
    &&& 0x80 <= bytes[8] < 0xc0
}

/// The identity of one filesystem.
#[derive(Clone, Copy, Debug)]
pub struct FsId {
    bytes: [u8; 16],
}

impl FsId {
    /// The bytes of the identity.
    pub closed spec fn view(&self) -> Seq<u8> {
        self.bytes@
    }

    pub fn from_bytes(bytes: [u8; 16]) -> (identity: Self)
        ensures
            identity@ == bytes@,
    {
        FsId { bytes }
    }

    pub fn as_bytes(&self) -> (bytes: &[u8; 16])
        ensures
            bytes@ == self@,
    {
        &self.bytes
    }

    /// The identity in lowercase hexadecimal.
    pub fn to_text(&self) -> (text: String)
        ensures
            text@ == hex_of(self@),
    {
        to_hex(self.bytes.as_slice())
    }

    /// Identities with the same bytes are the same.
    pub proof fn identified(a: Self, b: Self)
        ensures
            a@ == b@ <==> a == b,
            a@.len() == 16,
    {
        if a@ == b@ {
            assert(a.bytes == b.bytes);
        }
    }

    /// A new random identity.
    pub fn generate() -> (identity: Self)
        ensures
            marked_random(identity@),
    {
        Self::from_bytes(random_identity())
    }
}

impl PartialEq for FsId {
    fn eq(&self, other: &Self) -> (result: bool) {
        proof {
            Self::identified(*self, *other);
        }
        same_bytes(self.bytes.as_slice(), other.bytes.as_slice())
    }
}

impl vstd::std_specs::cmp::PartialEqSpecImpl for FsId {
    open spec fn obeys_eq_spec() -> bool {
        true
    }

    open spec fn eq_spec(&self, other: &Self) -> bool {
        *self == *other
    }
}

impl Eq for FsId {

}

impl Ranked for FsId {
    open spec fn rank(&self) -> Seq<int> {
        bytes_rank(self@)
    }

    fn precedes(&self, other: &Self) -> (result: bool) {
        assert(self.rank() == bytes_rank(self@) && other.rank() == bytes_rank(other@));
        bytes_precede(self.bytes.as_slice(), other.bytes.as_slice())
    }
}

/// The identity of one node through all its versions.
#[derive(Clone, Copy, Debug)]
pub struct NodeId {
    bytes: [u8; 16],
}

impl NodeId {
    /// The bytes of the identity.
    pub closed spec fn view(&self) -> Seq<u8> {
        self.bytes@
    }

    pub fn from_bytes(bytes: [u8; 16]) -> (identity: Self)
        ensures
            identity@ == bytes@,
    {
        NodeId { bytes }
    }

    pub fn as_bytes(&self) -> (bytes: &[u8; 16])
        ensures
            bytes@ == self@,
    {
        &self.bytes
    }

    /// The identity in lowercase hexadecimal.
    pub fn to_text(&self) -> (text: String)
        ensures
            text@ == hex_of(self@),
    {
        to_hex(self.bytes.as_slice())
    }

    /// Identities with the same bytes are the same.
    pub proof fn identified(a: Self, b: Self)
        ensures
            a@ == b@ <==> a == b,
            a@.len() == 16,
    {
        if a@ == b@ {
            assert(a.bytes == b.bytes);
        }
    }

    /// A new random identity.
    pub fn generate() -> (identity: Self)
        ensures
            marked_random(identity@),
    {
        Self::from_bytes(random_identity())
    }
}

impl PartialEq for NodeId {
    fn eq(&self, other: &Self) -> (result: bool) {
        proof {
            Self::identified(*self, *other);
        }
        same_bytes(self.bytes.as_slice(), other.bytes.as_slice())
    }
}

impl vstd::std_specs::cmp::PartialEqSpecImpl for NodeId {
    open spec fn obeys_eq_spec() -> bool {
        true
    }

    open spec fn eq_spec(&self, other: &Self) -> bool {
        *self == *other
    }
}

impl Eq for NodeId {

}

impl Ranked for NodeId {
    open spec fn rank(&self) -> Seq<int> {
        bytes_rank(self@)
    }

    fn precedes(&self, other: &Self) -> (result: bool) {
        assert(self.rank() == bytes_rank(self@) && other.rank() == bytes_rank(other@));
        bytes_precede(self.bytes.as_slice(), other.bytes.as_slice())
    }
}

/// The identity of one published content of a file.
#[derive(Clone, Copy, Debug)]
pub struct FileVersionId {
    bytes: [u8; 16],
}

impl FileVersionId {
    /// The bytes of the identity.
    pub closed spec fn view(&self) -> Seq<u8> {
        self.bytes@
    }

    pub fn from_bytes(bytes: [u8; 16]) -> (identity: Self)
        ensures
            identity@ == bytes@,
    {
        FileVersionId { bytes }
    }

    pub fn as_bytes(&self) -> (bytes: &[u8; 16])
        ensures
            bytes@ == self@,
    {
        &self.bytes
    }

    /// The identity in lowercase hexadecimal.
    pub fn to_text(&self) -> (text: String)
        ensures
            text@ == hex_of(self@),
    {
        to_hex(self.bytes.as_slice())
    }

    /// Identities with the same bytes are the same.
    pub proof fn identified(a: Self, b: Self)
        ensures
            a@ == b@ <==> a == b,
            a@.len() == 16,
    {
        if a@ == b@ {
            assert(a.bytes == b.bytes);
        }
    }

    /// A new random identity.
    pub fn generate() -> (identity: Self)
        ensures
            marked_random(identity@),
    {
        Self::from_bytes(random_identity())
    }
}

impl PartialEq for FileVersionId {
    fn eq(&self, other: &Self) -> (result: bool) {
        proof {
            Self::identified(*self, *other);
        }
        same_bytes(self.bytes.as_slice(), other.bytes.as_slice())
    }
}

impl vstd::std_specs::cmp::PartialEqSpecImpl for FileVersionId {
    open spec fn obeys_eq_spec() -> bool {
        true
    }

    open spec fn eq_spec(&self, other: &Self) -> bool {
        *self == *other
    }
}

impl Eq for FileVersionId {

}

impl Ranked for FileVersionId {
    open spec fn rank(&self) -> Seq<int> {
        bytes_rank(self@)
    }

    fn precedes(&self, other: &Self) -> (result: bool) {
        assert(self.rank() == bytes_rank(self@) && other.rank() == bytes_rank(other@));
        bytes_precede(self.bytes.as_slice(), other.bytes.as_slice())
    }
}

/// The identity of one publication attempt, chosen by the caller.
#[derive(Clone, Copy, Debug)]
pub struct CommitId {
    bytes: [u8; 16],
}

impl CommitId {
    /// The bytes of the identity.
    pub closed spec fn view(&self) -> Seq<u8> {
        self.bytes@
    }

    pub fn from_bytes(bytes: [u8; 16]) -> (identity: Self)
        ensures
            identity@ == bytes@,
    {
        CommitId { bytes }
    }

    pub fn as_bytes(&self) -> (bytes: &[u8; 16])
        ensures
            bytes@ == self@,
    {
        &self.bytes
    }

    /// The identity in lowercase hexadecimal.
    pub fn to_text(&self) -> (text: String)
        ensures
            text@ == hex_of(self@),
    {
        to_hex(self.bytes.as_slice())
    }

    /// Identities with the same bytes are the same.
    pub proof fn identified(a: Self, b: Self)
        ensures
            a@ == b@ <==> a == b,
            a@.len() == 16,
    {
        if a@ == b@ {
            assert(a.bytes == b.bytes);
        }
    }

    /// A new random identity.
    pub fn generate() -> (identity: Self)
        ensures
            marked_random(identity@),
    {
        Self::from_bytes(random_identity())
    }
}

impl PartialEq for CommitId {
    fn eq(&self, other: &Self) -> (result: bool) {
        proof {
            Self::identified(*self, *other);
        }
        same_bytes(self.bytes.as_slice(), other.bytes.as_slice())
    }
}

impl vstd::std_specs::cmp::PartialEqSpecImpl for CommitId {
    open spec fn obeys_eq_spec() -> bool {
        true
    }

    open spec fn eq_spec(&self, other: &Self) -> bool {
        *self == *other
    }
}

impl Eq for CommitId {

}

impl Ranked for CommitId {
    open spec fn rank(&self) -> Seq<int> {
        bytes_rank(self@)
    }

    fn precedes(&self, other: &Self) -> (result: bool) {
        assert(self.rank() == bytes_rank(self@) && other.rank() == bytes_rank(other@));
        bytes_precede(self.bytes.as_slice(), other.bytes.as_slice())
    }
}

/// The identity of one format extension.
#[derive(Clone, Copy, Debug)]
pub struct ExtensionId {
    bytes: [u8; 16],
}

impl ExtensionId {
    /// The bytes of the identity.
    pub closed spec fn view(&self) -> Seq<u8> {
        self.bytes@
    }

    pub fn from_bytes(bytes: [u8; 16]) -> (identity: Self)
        ensures
            identity@ == bytes@,
    {
        ExtensionId { bytes }
    }

    pub fn as_bytes(&self) -> (bytes: &[u8; 16])
        ensures
            bytes@ == self@,
    {
        &self.bytes
    }

    /// The identity in lowercase hexadecimal.
    pub fn to_text(&self) -> (text: String)
        ensures
            text@ == hex_of(self@),
    {
        to_hex(self.bytes.as_slice())
    }

    /// Identities with the same bytes are the same.
    pub proof fn identified(a: Self, b: Self)
        ensures
            a@ == b@ <==> a == b,
            a@.len() == 16,
    {
        if a@ == b@ {
            assert(a.bytes == b.bytes);
        }
    }
}

impl PartialEq for ExtensionId {
    fn eq(&self, other: &Self) -> (result: bool) {
        proof {
            Self::identified(*self, *other);
        }
        same_bytes(self.bytes.as_slice(), other.bytes.as_slice())
    }
}

impl vstd::std_specs::cmp::PartialEqSpecImpl for ExtensionId {
    open spec fn obeys_eq_spec() -> bool {
        true
    }

    open spec fn eq_spec(&self, other: &Self) -> bool {
        *self == *other
    }
}

impl Eq for ExtensionId {

}

impl Ranked for ExtensionId {
    open spec fn rank(&self) -> Seq<int> {
        bytes_rank(self@)
    }

    fn precedes(&self, other: &Self) -> (result: bool) {
        assert(self.rank() == bytes_rank(self@) && other.rank() == bytes_rank(other@));
        bytes_precede(self.bytes.as_slice(), other.bytes.as_slice())
    }
}

/// The identity of one namespace authority.
#[derive(Clone, Copy, Debug)]
pub struct AuthorityId {
    bytes: [u8; 16],
}

impl AuthorityId {
    /// The bytes of the identity.
    pub closed spec fn view(&self) -> Seq<u8> {
        self.bytes@
    }

    pub fn from_bytes(bytes: [u8; 16]) -> (identity: Self)
        ensures
            identity@ == bytes@,
    {
        AuthorityId { bytes }
    }

    pub fn as_bytes(&self) -> (bytes: &[u8; 16])
        ensures
            bytes@ == self@,
    {
        &self.bytes
    }

    /// The identity in lowercase hexadecimal.
    pub fn to_text(&self) -> (text: String)
        ensures
            text@ == hex_of(self@),
    {
        to_hex(self.bytes.as_slice())
    }

    /// Identities with the same bytes are the same.
    pub proof fn identified(a: Self, b: Self)
        ensures
            a@ == b@ <==> a == b,
            a@.len() == 16,
    {
        if a@ == b@ {
            assert(a.bytes == b.bytes);
        }
    }

    /// A new random identity.
    pub fn generate() -> (identity: Self)
        ensures
            marked_random(identity@),
    {
        Self::from_bytes(random_identity())
    }
}

impl PartialEq for AuthorityId {
    fn eq(&self, other: &Self) -> (result: bool) {
        proof {
            Self::identified(*self, *other);
        }
        same_bytes(self.bytes.as_slice(), other.bytes.as_slice())
    }
}

impl vstd::std_specs::cmp::PartialEqSpecImpl for AuthorityId {
    open spec fn obeys_eq_spec() -> bool {
        true
    }

    open spec fn eq_spec(&self, other: &Self) -> bool {
        *self == *other
    }
}

impl Eq for AuthorityId {

}

impl Ranked for AuthorityId {
    open spec fn rank(&self) -> Seq<int> {
        bytes_rank(self@)
    }

    fn precedes(&self, other: &Self) -> (result: bool) {
        assert(self.rank() == bytes_rank(self@) && other.rank() == bytes_rank(other@));
        bytes_precede(self.bytes.as_slice(), other.bytes.as_slice())
    }
}

/// The identity of one managed volume.
#[derive(Clone, Copy, Debug)]
pub struct VolumeId {
    bytes: [u8; 16],
}

impl VolumeId {
    /// The bytes of the identity.
    pub closed spec fn view(&self) -> Seq<u8> {
        self.bytes@
    }

    pub fn from_bytes(bytes: [u8; 16]) -> (identity: Self)
        ensures
            identity@ == bytes@,
    {
        VolumeId { bytes }
    }

    pub fn as_bytes(&self) -> (bytes: &[u8; 16])
        ensures
            bytes@ == self@,
    {
        &self.bytes
    }

    /// The identity in lowercase hexadecimal.
    pub fn to_text(&self) -> (text: String)
        ensures
            text@ == hex_of(self@),
    {
        to_hex(self.bytes.as_slice())
    }

    /// Identities with the same bytes are the same.
    pub proof fn identified(a: Self, b: Self)
        ensures
            a@ == b@ <==> a == b,
            a@.len() == 16,
    {
        if a@ == b@ {
            assert(a.bytes == b.bytes);
        }
    }

    /// A new random identity.
    pub fn generate() -> (identity: Self)
        ensures
            marked_random(identity@),
    {
        Self::from_bytes(random_identity())
    }
}

impl PartialEq for VolumeId {
    fn eq(&self, other: &Self) -> (result: bool) {
        proof {
            Self::identified(*self, *other);
        }
        same_bytes(self.bytes.as_slice(), other.bytes.as_slice())
    }
}

impl vstd::std_specs::cmp::PartialEqSpecImpl for VolumeId {
    open spec fn obeys_eq_spec() -> bool {
        true
    }

    open spec fn eq_spec(&self, other: &Self) -> bool {
        *self == *other
    }
}

impl Eq for VolumeId {

}

impl Ranked for VolumeId {
    open spec fn rank(&self) -> Seq<int> {
        bytes_rank(self@)
    }

    fn precedes(&self, other: &Self) -> (result: bool) {
        assert(self.rank() == bytes_rank(self@) && other.rank() == bytes_rank(other@));
        bytes_precede(self.bytes.as_slice(), other.bytes.as_slice())
    }
}

/// The identity of one publication of a managed namespace.
#[derive(Clone, Copy, Debug)]
pub struct OperationId {
    bytes: [u8; 16],
}

impl OperationId {
    /// The bytes of the identity.
    pub closed spec fn view(&self) -> Seq<u8> {
        self.bytes@
    }

    pub fn from_bytes(bytes: [u8; 16]) -> (identity: Self)
        ensures
            identity@ == bytes@,
    {
        OperationId { bytes }
    }

    pub fn as_bytes(&self) -> (bytes: &[u8; 16])
        ensures
            bytes@ == self@,
    {
        &self.bytes
    }

    /// The identity in lowercase hexadecimal.
    pub fn to_text(&self) -> (text: String)
        ensures
            text@ == hex_of(self@),
    {
        to_hex(self.bytes.as_slice())
    }

    /// Identities with the same bytes are the same.
    pub proof fn identified(a: Self, b: Self)
        ensures
            a@ == b@ <==> a == b,
            a@.len() == 16,
    {
        if a@ == b@ {
            assert(a.bytes == b.bytes);
        }
    }

    /// A new random identity.
    pub fn generate() -> (identity: Self)
        ensures
            marked_random(identity@),
    {
        Self::from_bytes(random_identity())
    }
}

impl PartialEq for OperationId {
    fn eq(&self, other: &Self) -> (result: bool) {
        proof {
            Self::identified(*self, *other);
        }
        same_bytes(self.bytes.as_slice(), other.bytes.as_slice())
    }
}

impl vstd::std_specs::cmp::PartialEqSpecImpl for OperationId {
    open spec fn obeys_eq_spec() -> bool {
        true
    }

    open spec fn eq_spec(&self, other: &Self) -> bool {
        *self == *other
    }
}

impl Eq for OperationId {

}

impl Ranked for OperationId {
    open spec fn rank(&self) -> Seq<int> {
        bytes_rank(self@)
    }

    fn precedes(&self, other: &Self) -> (result: bool) {
        assert(self.rank() == bytes_rank(self@) && other.rank() == bytes_rank(other@));
        bytes_precede(self.bytes.as_slice(), other.bytes.as_slice())
    }
}

/// The identity of one stored object within its class and epoch.
#[derive(Clone, Copy, Debug)]
pub struct ObjectId {
    bytes: [u8; 16],
}

impl ObjectId {
    /// The bytes of the identity.
    pub closed spec fn view(&self) -> Seq<u8> {
        self.bytes@
    }

    pub fn from_bytes(bytes: [u8; 16]) -> (identity: Self)
        ensures
            identity@ == bytes@,
    {
        ObjectId { bytes }
    }

    pub fn as_bytes(&self) -> (bytes: &[u8; 16])
        ensures
            bytes@ == self@,
    {
        &self.bytes
    }

    /// The identity in lowercase hexadecimal.
    pub fn to_text(&self) -> (text: String)
        ensures
            text@ == hex_of(self@),
    {
        to_hex(self.bytes.as_slice())
    }

    /// Identities with the same bytes are the same.
    pub proof fn identified(a: Self, b: Self)
        ensures
            a@ == b@ <==> a == b,
            a@.len() == 16,
    {
        if a@ == b@ {
            assert(a.bytes == b.bytes);
        }
    }

    /// A new random identity.
    pub fn generate() -> (identity: Self)
        ensures
            marked_random(identity@),
    {
        Self::from_bytes(random_identity())
    }
}

impl PartialEq for ObjectId {
    fn eq(&self, other: &Self) -> (result: bool) {
        proof {
            Self::identified(*self, *other);
        }
        same_bytes(self.bytes.as_slice(), other.bytes.as_slice())
    }
}

impl vstd::std_specs::cmp::PartialEqSpecImpl for ObjectId {
    open spec fn obeys_eq_spec() -> bool {
        true
    }

    open spec fn eq_spec(&self, other: &Self) -> bool {
        *self == *other
    }
}

impl Eq for ObjectId {

}

impl Ranked for ObjectId {
    open spec fn rank(&self) -> Seq<int> {
        bytes_rank(self@)
    }

    fn precedes(&self, other: &Self) -> (result: bool) {
        assert(self.rank() == bytes_rank(self@) && other.rank() == bytes_rank(other@));
        bytes_precede(self.bytes.as_slice(), other.bytes.as_slice())
    }
}

/// The identity of some bytes: their BLAKE3 hash.
#[derive(Clone, Copy, Debug)]
pub struct Digest {
    bytes: [u8; 32],
}

impl Digest {
    /// The bytes of the identity.
    pub closed spec fn view(&self) -> Seq<u8> {
        self.bytes@
    }

    pub fn from_bytes(bytes: [u8; 32]) -> (identity: Self)
        ensures
            identity@ == bytes@,
    {
        Digest { bytes }
    }

    pub fn as_bytes(&self) -> (bytes: &[u8; 32])
        ensures
            bytes@ == self@,
    {
        &self.bytes
    }

    /// The identity in lowercase hexadecimal.
    pub fn to_text(&self) -> (text: String)
        ensures
            text@ == hex_of(self@),
    {
        to_hex(self.bytes.as_slice())
    }

    /// Identities with the same bytes are the same.
    pub proof fn identified(a: Self, b: Self)
        ensures
            a@ == b@ <==> a == b,
            a@.len() == 32,
    {
        if a@ == b@ {
            assert(a.bytes == b.bytes);
        }
    }
}

impl PartialEq for Digest {
    fn eq(&self, other: &Self) -> (result: bool) {
        proof {
            Self::identified(*self, *other);
        }
        same_bytes(self.bytes.as_slice(), other.bytes.as_slice())
    }
}

impl vstd::std_specs::cmp::PartialEqSpecImpl for Digest {
    open spec fn obeys_eq_spec() -> bool {
        true
    }

    open spec fn eq_spec(&self, other: &Self) -> bool {
        *self == *other
    }
}

impl Eq for Digest {

}

impl Ranked for Digest {
    open spec fn rank(&self) -> Seq<int> {
        bytes_rank(self@)
    }

    fn precedes(&self, other: &Self) -> (result: bool) {
        assert(self.rank() == bytes_rank(self@) && other.rank() == bytes_rank(other@));
        bytes_precede(self.bytes.as_slice(), other.bytes.as_slice())
    }
}

/// How often a node or the entries of a directory have changed.
#[derive(Clone, Copy, Debug, PartialEq, Eq, Structural)]
pub struct Generation {
    value: u64,
}

impl Generation {
    /// The number that the counter stands at.
    pub closed spec fn view(&self) -> u64 {
        self.value
    }

    pub fn zero() -> (counter: Self)
        ensures
            counter@ == 0,
    {
        Generation { value: 0 }
    }

    pub fn from_value(value: u64) -> (counter: Self)
        ensures
            counter@ == value,
    {
        Generation { value }
    }

    pub fn value(self) -> (value: u64)
        ensures
            value == self@,
    {
        self.value
    }

    /// The counter that follows this one.
    pub fn next(self) -> (result: Result<Self, Error>)
        ensures
            match result {
                Ok(counter) => counter@ == self@ + 1,
                Err(error) => self@ == u64::MAX && error.fault() == counter_overflow(),
            },
    {
        if self.value == u64::MAX {
            return Err(Error::corrupt("advance YinYang counter", "counter overflows"));
        }
        Ok(Generation { value: self.value + 1 })
    }

    /// Counters that stand at the same number are the same.
    pub proof fn counted(a: Self, b: Self)
        ensures
            a@ == b@ <==> a == b,
    {
    }

    /// The generation of a node that was just created.
    pub fn first() -> (counter: Self)
        ensures
            counter@ == 1,
    {
        Generation { value: 1 }
    }
}

/// The place of one version in the history of its filesystem.
#[derive(Clone, Copy, Debug, PartialEq, Eq, Structural)]
pub struct VersionNumber {
    value: u64,
}

impl VersionNumber {
    /// The number that the counter stands at.
    pub closed spec fn view(&self) -> u64 {
        self.value
    }

    pub fn zero() -> (counter: Self)
        ensures
            counter@ == 0,
    {
        VersionNumber { value: 0 }
    }

    pub fn from_value(value: u64) -> (counter: Self)
        ensures
            counter@ == value,
    {
        VersionNumber { value }
    }

    pub fn value(self) -> (value: u64)
        ensures
            value == self@,
    {
        self.value
    }

    /// The counter that follows this one.
    pub fn next(self) -> (result: Result<Self, Error>)
        ensures
            match result {
                Ok(counter) => counter@ == self@ + 1,
                Err(error) => self@ == u64::MAX && error.fault() == counter_overflow(),
            },
    {
        if self.value == u64::MAX {
            return Err(Error::corrupt("advance YinYang counter", "counter overflows"));
        }
        Ok(VersionNumber { value: self.value + 1 })
    }

    /// Counters that stand at the same number are the same.
    pub proof fn counted(a: Self, b: Self)
        ensures
            a@ == b@ <==> a == b,
    {
    }
}

/// The upload epoch that separates live objects from collectable ones.
#[derive(Clone, Copy, Debug, PartialEq, Eq, Structural)]
pub struct GcEpoch {
    value: u64,
}

impl GcEpoch {
    /// The number that the counter stands at.
    pub closed spec fn view(&self) -> u64 {
        self.value
    }

    pub fn zero() -> (counter: Self)
        ensures
            counter@ == 0,
    {
        GcEpoch { value: 0 }
    }

    pub fn from_value(value: u64) -> (counter: Self)
        ensures
            counter@ == value,
    {
        GcEpoch { value }
    }

    pub fn value(self) -> (value: u64)
        ensures
            value == self@,
    {
        self.value
    }

    /// The counter that follows this one.
    pub fn next(self) -> (result: Result<Self, Error>)
        ensures
            match result {
                Ok(counter) => counter@ == self@ + 1,
                Err(error) => self@ == u64::MAX && error.fault() == counter_overflow(),
            },
    {
        if self.value == u64::MAX {
            return Err(Error::corrupt("advance YinYang counter", "counter overflows"));
        }
        Ok(GcEpoch { value: self.value + 1 })
    }

    /// Counters that stand at the same number are the same.
    pub proof fn counted(a: Self, b: Self)
        ensures
            a@ == b@ <==> a == b,
    {
    }
}

/// The fault of a counter that stands at its last number.
pub open spec fn counter_overflow() -> crate::error::Fault {
    corrupt("advance YinYang counter", "counter overflows")
}

/// Counters go up by one and never around.
pub proof fn counters_go_up_by_one(
    generation: Generation,
    next_generation: Result<Generation, Error>,
    epoch: GcEpoch,
    next_epoch: Result<GcEpoch, Error>,
    version: VersionNumber,
    next_version: Result<VersionNumber, Error>,
)
    requires
        call_ensures(Generation::next, (generation,), next_generation),
        call_ensures(GcEpoch::next, (epoch,), next_epoch),
        call_ensures(VersionNumber::next, (version,), next_version),
    ensures
        next_generation is Ok <==> generation@ < u64::MAX,
        next_generation matches Ok(next) ==> next@ - generation@ == 1,
        next_epoch is Ok <==> epoch@ < u64::MAX,
        next_epoch matches Ok(next) ==> next@ - epoch@ == 1,
        next_version is Ok <==> version@ < u64::MAX,
        next_version matches Ok(next) ==> next@ - version@ == 1,
{
}

} // verus!
