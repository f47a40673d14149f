//! The values of the managed format: cursors, object references and commits.

use vstd::prelude::*;

use crate::error::{corrupt, Error, Fault};
use crate::identity::{marked_random, Digest, GcEpoch, ObjectId, OperationId, VolumeId};
use crate::order::{before, before_irreflexive, before_of_pairs, Ranked};
use crate::text::{bytes_rank, bytes_rank_is_injective};

verus! {

/// The place of one namespace in the sequence of changes of its authority.
#[derive(Clone, Copy, Debug, PartialEq, Eq, Structural)]
pub struct ChangeCursor {
    pub sequence: u64,
}

impl ChangeCursor {
    /// The cursor before any change.
    pub fn genesis() -> (cursor: Self)
        ensures
            cursor.sequence == 0,
    {
        ChangeCursor { sequence: 0 }
    }

    pub fn from_sequence(sequence: u64) -> (cursor: Self)
        ensures
            cursor.sequence == sequence,
    {
        ChangeCursor { sequence }
    }

    pub fn sequence(self) -> (sequence: u64)
        ensures
            sequence == self.sequence,
    {
        self.sequence
    }
}

/// What an object holds.
#[derive(Clone, Copy, Debug, PartialEq, Eq, Structural)]
pub enum ObjectClass {
    NamespaceCommit,
    NamespaceSegment,
    OperationReceiptSegment,
    FileExtentSegment,
    DataSegment,
}

impl ObjectClass {
    pub open spec fn number(self) -> int {
        match self {
            ObjectClass::NamespaceCommit => 0,
            ObjectClass::NamespaceSegment => 1,
            ObjectClass::OperationReceiptSegment => 2,
            ObjectClass::FileExtentSegment => 3,
            ObjectClass::DataSegment => 4,
        }
    }

    pub fn index(self) -> (index: u8)
        ensures
            index == self.number(),
    {
        match self {
            ObjectClass::NamespaceCommit => 0,
            ObjectClass::NamespaceSegment => 1,
            ObjectClass::OperationReceiptSegment => 2,
            ObjectClass::FileExtentSegment => 3,
            ObjectClass::DataSegment => 4,
        }
    }
}

/// What the records of a stream are.
#[derive(Clone, Copy, Debug, PartialEq, Eq, Structural)]
pub enum StreamKind {
    NamespaceSnapshot,
    NamespaceChanges,
    OperationReceipts,
    FileExtents,
    DataSegment,
}

/// The name of one stored object.
#[derive(Clone, Copy, Debug)]
pub struct ObjectLocator {
    pub gc_epoch: GcEpoch,
    pub class: ObjectClass,
    pub id: ObjectId,
}

impl ObjectLocator {
    /// A new name in the given epoch and class.
    pub fn generate(gc_epoch: GcEpoch, class: ObjectClass) -> (locator: Self)
        ensures
            locator.gc_epoch == gc_epoch,
            locator.class == class,
            marked_random(locator.id@),
    {
        ObjectLocator { gc_epoch, class, id: ObjectId::generate() }
    }
}

impl PartialEq for ObjectLocator {
    fn eq(&self, other: &Self) -> (result: bool) {
        self.gc_epoch == other.gc_epoch && self.class == other.class && self.id == other.id
    }
}

impl vstd::std_specs::cmp::PartialEqSpecImpl for ObjectLocator {
    open spec fn obeys_eq_spec() -> bool {
        true
    }

    open spec fn eq_spec(&self, other: &Self) -> bool {
        *self == *other
    }
}

impl Eq for ObjectLocator {

}

impl Ranked for ObjectLocator {
    open spec fn rank(&self) -> Seq<int> {
        seq![self.gc_epoch@ as int, self.class.number()] + bytes_rank(self.id@)
    }

    fn precedes(&self, other: &Self) -> (result: bool) {
        proof {
            locator_order(*self, *other);
        }
        if self.gc_epoch != other.gc_epoch {
            proof {
                GcEpoch::counted(self.gc_epoch, other.gc_epoch);
            }
            self.gc_epoch.value() < other.gc_epoch.value()
        } else if self.class != other.class {
            self.class.index() < other.class.index()
        } else {
            self.id.precedes(&other.id)
        }
    }
}

/// Locators compare by epoch, class and identity.
pub proof fn locator_order(a: ObjectLocator, b: ObjectLocator)
    ensures
        before(a.rank(), b.rank()) == (a.gc_epoch@ < b.gc_epoch@ || (a.gc_epoch@ == b.gc_epoch@ && (
        a.class.number() < b.class.number() || (a.class == b.class && before(
            bytes_rank(a.id@),
            bytes_rank(b.id@),
        ))))),
        a.rank() == b.rank() <==> a == b,
{
    reveal_with_fuel(before, 3);
    let x = seq![a.gc_epoch@ as int, a.class.number()];
    let y = seq![b.gc_epoch@ as int, b.class.number()];
    before_of_pairs(x, bytes_rank(a.id@), y, bytes_rank(b.id@));
    assert(x[0] == a.gc_epoch@ && x[1] == a.class.number());
    assert(y[0] == b.gc_epoch@ && y[1] == b.class.number());
    assert(x.skip(1)[0] == x[1] && y.skip(1)[0] == y[1]);
    assert(x == y <==> x[0] == y[0] && x[1] == y[1]) by {
        if x[0] == y[0] && x[1] == y[1] {
            assert(x =~= y);
        }
    }
    before_irreflexive(x);
    GcEpoch::counted(a.gc_epoch, b.gc_epoch);
    ObjectId::identified(a.id, b.id);
    bytes_rank_is_injective(a.id@, b.id@);
    if a.rank() == b.rank() {
        assert(a.rank()[0] == a.gc_epoch@ && b.rank()[0] == b.gc_epoch@);
        assert(a.rank()[1] == a.class.number() && b.rank()[1] == b.class.number());
        assert(a.rank().skip(2) =~= bytes_rank(a.id@));
        assert(b.rank().skip(2) =~= bytes_rank(b.id@));
    }
}

/// A stored object with its length and digest.
#[derive(Clone, Copy, Debug)]
pub struct ObjectRef {
    pub locator: ObjectLocator,
    pub encoded_length: u64,
    pub digest: Digest,
}

impl PartialEq for ObjectRef {
    fn eq(&self, other: &Self) -> (result: bool) {
        self.locator == other.locator && self.encoded_length == other.encoded_length && self.digest
            == other.digest
    }
}

impl vstd::std_specs::cmp::PartialEqSpecImpl for ObjectRef {
    open spec fn obeys_eq_spec() -> bool {
        true
    }

    open spec fn eq_spec(&self, other: &Self) -> bool {
        *self == *other
    }
}

impl Eq for ObjectRef {

}

/// One published namespace: its commit object and its cursor.
#[derive(Clone, Copy, Debug)]
pub struct NamespaceRevision {
    pub object: ObjectRef,
    pub change_cursor: ChangeCursor,
}

impl NamespaceRevision {
    pub fn cursor(&self) -> (cursor: ChangeCursor)
        ensures
            cursor == self.change_cursor,
    {
        self.change_cursor
    }

    /// The sequence number of the revision.
    pub open spec fn sequence(self) -> u64 {
        self.change_cursor.sequence
    }
}

impl PartialEq for NamespaceRevision {
    fn eq(&self, other: &Self) -> (result: bool) {
        self.object == other.object && self.change_cursor == other.change_cursor
    }
}

impl vstd::std_specs::cmp::PartialEqSpecImpl for NamespaceRevision {
    open spec fn obeys_eq_spec() -> bool {
        true
    }

    open spec fn eq_spec(&self, other: &Self) -> bool {
        *self == *other
    }
}

impl Eq for NamespaceRevision {

}

/// A stored stream of records.
#[derive(Clone, Copy, Debug)]
pub struct StreamRef {
    pub kind: StreamKind,
    pub object: ObjectRef,
    pub payload_length: u64,
    pub payload_digest: Digest,
}

impl PartialEq for StreamRef {
    fn eq(&self, other: &Self) -> (result: bool) {
        self.kind == other.kind && self.object == other.object && self.payload_length
            == other.payload_length && self.payload_digest == other.payload_digest
    }
}

impl vstd::std_specs::cmp::PartialEqSpecImpl for StreamRef {
    open spec fn obeys_eq_spec() -> bool {
        true
    }

    open spec fn eq_spec(&self, other: &Self) -> bool {
        *self == *other
    }
}

impl Eq for StreamRef {

}

pub open spec fn wrong_stream() -> Fault {
    corrupt("read Managed stream", "stream reference has the wrong kind or class")
}

impl StreamRef {
    /// Check that the stream holds records of a kind in an object of a class.
    pub fn require(&self, kind: StreamKind, class: ObjectClass) -> (result: Result<(), Error>)
        ensures
            match result {
                Ok(()) => self.kind == kind && self.object.locator.class == class,
                Err(error) => (self.kind != kind || self.object.locator.class != class)
                    && error.fault() == wrong_stream(),
            },
    {
        if self.kind != kind || self.object.locator.class != class {
            return Err(
                Error::corrupt(
                    "read Managed stream",
                    "stream reference has the wrong kind or class",
                ),
            );
        }
        Ok(())
    }
}

/// A whole namespace at one cursor.
#[derive(Clone, Copy, Debug)]
pub struct NamespaceSnapshot {
    pub change_cursor: ChangeCursor,
    pub stream: StreamRef,
}

/// The changes of a namespace up to one cursor.
#[derive(Clone, Copy, Debug)]
pub struct NamespaceChangeSegment {
    pub end_cursor: ChangeCursor,
    pub compaction_weight_bytes: u64,
    pub stream: StreamRef,
}

/// The fact that an operation was published at a cursor.
#[derive(Clone, Copy, Debug)]
pub struct OperationReceipt {
    pub change_cursor: ChangeCursor,
    pub operation_id: OperationId,
}

/// The receipts of a range of cursors, newest first.
#[derive(Clone, Copy, Debug)]
pub struct OperationReceiptSegment {
    pub first_cursor: ChangeCursor,
    pub last_cursor: ChangeCursor,
    pub compaction_weight_bytes: u64,
    pub stream: StreamRef,
}

pub ghost struct NamespaceCommitView {
    pub volume_id: VolumeId,
    pub change_cursor: ChangeCursor,
    pub namespace_snapshot: NamespaceSnapshot,
    pub namespace_changes: Seq<NamespaceChangeSegment>,
    pub operation_receipts: Seq<OperationReceiptSegment>,
}

/// One published state of a namespace: a snapshot, changes since, and receipts.
#[derive(Debug)]
pub struct NamespaceCommit {
    pub volume_id: VolumeId,
    pub change_cursor: ChangeCursor,
    pub namespace_snapshot: NamespaceSnapshot,
    pub namespace_changes: Vec<NamespaceChangeSegment>,
    pub operation_receipts: Vec<OperationReceiptSegment>,
}

impl Clone for NamespaceCommit {
    fn clone(&self) -> (commit: Self)
        ensures
            commit@ == self@,
    {
        let namespace_changes = self.namespace_changes.clone();
        let operation_receipts = self.operation_receipts.clone();
        assert(namespace_changes@ =~= self.namespace_changes@);
        assert(operation_receipts@ =~= self.operation_receipts@);
        NamespaceCommit {
            volume_id: self.volume_id,
            change_cursor: self.change_cursor,
            namespace_snapshot: self.namespace_snapshot,
            namespace_changes,
            operation_receipts,
        }
    }
}

impl NamespaceCommit {
    pub open spec fn view(&self) -> NamespaceCommitView {
        NamespaceCommitView {
            volume_id: self.volume_id,
            change_cursor: self.change_cursor,
            namespace_snapshot: self.namespace_snapshot,
            namespace_changes: self.namespace_changes@,
            operation_receipts: self.operation_receipts@,
        }
    }

    /// The commit of a volume that nothing was published in.
    pub fn genesis(volume_id: VolumeId, stream: StreamRef) -> (commit: Self)
        ensures
            commit.volume_id == volume_id,
            commit.change_cursor.sequence == 0,
            commit.namespace_snapshot.change_cursor.sequence == 0,
            commit.namespace_snapshot.stream == stream,
            commit.namespace_changes@.len() == 0,
            commit.operation_receipts@.len() == 0,
    {
        NamespaceCommit {
            volume_id,
            change_cursor: ChangeCursor::genesis(),
            namespace_snapshot: NamespaceSnapshot {
                change_cursor: ChangeCursor::genesis(),
                stream,
            },
            namespace_changes: Vec::new(),
            operation_receipts: Vec::new(),
        }
    }

    /// Check that the commit belongs to a volume and to a cursor.
    pub fn validate(&self, volume_id: VolumeId, cursor: ChangeCursor) -> (result: Result<(), Error>)
        ensures
            match result {
                Ok(()) => self.volume_id == volume_id && self.change_cursor == cursor,
                Err(error) => (self.volume_id != volume_id || self.change_cursor != cursor)
                    && error.fault() == corrupt(
                    "read Managed namespace",
                    "commit does not match its reference",
                ),
            },
    {
        if self.volume_id != volume_id || self.change_cursor != cursor {
            return Err(
                Error::corrupt("read Managed namespace", "commit does not match its reference"),
            );
        }
        Ok(())
    }
}

} // verus!
