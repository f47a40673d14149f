//! Collecting objects that nothing reaches any more.

use vstd::prelude::*;

use crate::authority::{AuthorityHead, AuthorityRoot};
use crate::error::{conflict, corrupt, Error, Fault};
use crate::identity::GcEpoch;
use crate::model::{locator_order, NamespaceRevision, ObjectLocator};
use crate::order::{before_irreflexive, lower_bound, same_by_key, sort, sorted, Ranked};

verus! {

/// What a collection did.
#[derive(Clone, Copy, Debug, PartialEq, Eq, Structural)]
pub struct GcOutcome {
    pub scanned: u64,
    pub deleted: u64,
    pub deleted_bytes: u64,
}

impl Default for GcOutcome {
    fn default() -> (outcome: Self)
        ensures
            outcome == (GcOutcome { scanned: 0, deleted: 0, deleted_bytes: 0 }),
    {
        GcOutcome { scanned: 0, deleted: 0, deleted_bytes: 0 }
    }
}

pub open spec fn count_fault(message: &str) -> Fault {
    corrupt("collect Managed objects", message)
}

impl GcOutcome {
    /// Count an object that was looked at.
    pub fn count_scanned(&mut self) -> (result: Result<(), Error>)
        ensures
            match result {
                Ok(()) => {
                    &&& final(self).scanned == old(self).scanned + 1
                    &&& final(self).deleted == old(self).deleted
                    &&& final(self).deleted_bytes == old(self).deleted_bytes
                },
                Err(error) => {
                    &&& old(self).scanned == u64::MAX
                    &&& error.fault() == count_fault("scanned object count overflows")
                    &&& *final(self) == *old(self)
                },
            },
    {
        match self.scanned.checked_add(1) {
            Some(scanned) => {
                self.scanned = scanned;
                Ok(())
            },
            None => Err(
                Error::corrupt("collect Managed objects", "scanned object count overflows"),
            ),
        }
    }

    /// Count an object that was deleted.
    pub fn count_deleted(&mut self, length: u64) -> (result: Result<(), Error>)
        ensures
            match result {
                Ok(()) => {
                    &&& final(self).scanned == old(self).scanned
                    &&& final(self).deleted == old(self).deleted + 1
                    &&& final(self).deleted_bytes == old(self).deleted_bytes + length
                },
                Err(error) => if old(self).deleted == u64::MAX {
                    &&& error.fault() == count_fault("deleted object count overflows")
                    &&& *final(self) == *old(self)
                } else {
                    &&& old(self).deleted_bytes + length > u64::MAX
                    &&& error.fault() == count_fault("deleted byte count overflows")
                    &&& final(self).scanned == old(self).scanned
                    &&& final(self).deleted == old(self).deleted + 1
                    &&& final(self).deleted_bytes == old(self).deleted_bytes
                },
            },
    {
        match self.deleted.checked_add(1) {
            Some(deleted) => {
                self.deleted = deleted;
            },
            None => {
                return Err(
                    Error::corrupt("collect Managed objects", "deleted object count overflows"),
                );
            },
        }
        match self.deleted_bytes.checked_add(length) {
            Some(bytes) => {
                self.deleted_bytes = bytes;
                Ok(())
            },
            None => Err(Error::corrupt("collect Managed objects", "deleted byte count overflows")),
        }
    }
}

/// The root of an authority once its commit was compacted: nothing older can be read.
pub fn compacted_root(root: AuthorityRoot, commit: NamespaceRevision, epoch: GcEpoch) -> (compacted:
    AuthorityRoot)
    ensures
        compacted.id == root.id,
        compacted.name@ == root.name@,
        compacted.head == (AuthorityHead {
            current_commit: commit,
            gc_epoch: epoch,
            minimum_retained_cursor: commit.change_cursor,
        }),
{
    AuthorityRoot {
        id: root.id,
        name: root.name,
        head: AuthorityHead {
            current_commit: commit,
            gc_epoch: epoch,
            minimum_retained_cursor: commit.cursor(),
        },
    }
}

/// Check that the compacted roots replaced the ones that were read.
pub fn require_replaced(replaced: bool) -> (result: Result<(), Error>)
    ensures
        match result {
            Ok(()) => replaced,
            Err(error) => !replaced && error.fault() == conflict(
                "collect Managed objects",
                "namespace authority changed while publishing compacted roots",
            ),
        },
{
    if !replaced {
        return Err(
            Error::conflict(
                "collect Managed objects",
                "namespace authority changed while publishing compacted roots",
            ),
        );
    }
    Ok(())
}

/// A stored object and its length.
#[derive(Clone, Copy, Debug)]
pub struct ObjectRecord {
    pub identity: ObjectLocator,
    pub length: u64,
}

impl Ranked for ObjectRecord {
    open spec fn rank(&self) -> Seq<int> {
        self.identity.rank()
    }

    fn precedes(&self, other: &Self) -> (result: bool) {
        self.identity.precedes(&other.identity)
    }
}

/// Whether a listed entry is a candidate for deletion. Only files of earlier epochs are;
/// `identity` is absent where the key names no object.
pub fn inventory_candidate(
    is_file: bool,
    identity: Option<ObjectLocator>,
    length: u64,
    epoch: GcEpoch,
) -> (result: Result<Option<ObjectRecord>, Error>)
    ensures
        match result {
            Ok(Some(record)) => is_file && identity == Some(record.identity) && record.length
                == length && record.identity.gc_epoch@ < epoch@,
            Ok(None) => !is_file || (identity is Some && identity->0.gc_epoch@ >= epoch@),
            Err(error) => is_file && identity is None && error.fault() == corrupt(
                "collect Managed objects",
                "object key is invalid",
            ),
        },
{
    if !is_file {
        return Ok(None);
    }
    let identity = match identity {
        Some(identity) => identity,
        None => {
            return Err(Error::corrupt("collect Managed objects", "object key is invalid"));
        },
    };
    proof {
        GcEpoch::counted(identity.gc_epoch, epoch);
    }
    if identity.gc_epoch.value() >= epoch.value() {
        return Ok(None);
    }
    Ok(Some(ObjectRecord { identity, length }))
}

/// The test for objects that no mark names.
pub open spec fn is_unmarked(marks: Seq<ObjectLocator>) -> spec_fn(ObjectRecord) -> bool {
    |record: ObjectRecord| !marks.contains(record.identity)
}

/// The unmarked candidates, in the order of their names.
pub open spec fn is_sweep(
    marks: Seq<ObjectLocator>,
    candidates: Seq<ObjectRecord>,
    ordered: Seq<ObjectRecord>,
    unreachable: Seq<ObjectRecord>,
) -> bool {
    &&& sorted(ordered)
    &&& same_by_key(candidates, ordered)
    &&& unreachable == ordered.filter(is_unmarked(marks))
}

/// The candidates that no mark names, which are to be deleted.
pub fn plan_sweep(marks: Vec<ObjectLocator>, candidates: Vec<ObjectRecord>) -> (unreachable: Vec<
    ObjectRecord,
>)
    ensures
        exists|ordered: Seq<ObjectRecord>| #[trigger]
            is_sweep(marks@, candidates@, ordered, unreachable@),
{
    let ghost named = marks@;
    let ghost given = candidates@;
    let marks = sort(marks);
    let candidates = sort(candidates);
    let ghost ordered = candidates@;
    proof {
        crate::order::same_by_key_same_items(named, marks@);
    }
    let mut unreachable: Vec<ObjectRecord> = Vec::new();
    let mut index: usize = 0;
    proof {
        reveal(Seq::filter);
        assert(ordered.take(0).filter(is_unmarked(named)) =~= Seq::empty());
    }
    while index < candidates.len()
        invariant
            index <= candidates@.len(),
            ordered == candidates@,
            sorted(marks@),
            forall|mark: ObjectLocator|
                #[trigger] named.contains(mark) <==> marks@.contains(mark),
            unreachable@ == ordered.take(index as int).filter(is_unmarked(named)),
        decreases candidates@.len() - index,
    {
        let record = candidates[index];
        let place: usize = lower_bound(&marks, &record.identity);
        let marked = place < marks.len() && !record.identity.precedes(&marks[place]);
        proof {
            reveal(Seq::filter);
            if place < marks@.len() {
                crate::order::before_total(record.identity.rank(), marks@[place as int].rank());
                locator_order(marks@[place as int], record.identity);
                before_irreflexive(record.identity.rank());
            }
            assert(ordered.take(index + 1).drop_last() =~= ordered.take(index as int));
            assert(ordered.take(index + 1).last() == record);
            if named.contains(record.identity) {
                assert(marks@.contains(record.identity));
                let k = choose|k: int| 0 <= k < marks@.len() && marks@[k] == record.identity;
                before_irreflexive(record.identity.rank());
                assert(marks@[k].rank() == record.identity.rank());
                assert(place <= k);
                if place < k {
                    assert(!crate::order::before(
                        marks@[place as int].rank(),
                        record.identity.rank(),
                    ));
                    assert(crate::order::not_after(marks@[place as int].rank(), marks@[k].rank()));
                    crate::order::before_total(marks@[place as int].rank(), marks@[k].rank());
                    locator_order(marks@[place as int], marks@[k]);
                }
                assert(marked);
            }
            if marked {
                assert(marks@.contains(record.identity));
                assert(named.contains(record.identity));
            }
        }
        if !marked {
            unreachable.push(record);
        }
        index += 1;
    }
    proof {
        assert(ordered.take(index as int) =~= ordered);
        assert(is_sweep(named, given, ordered, unreachable@));
    }
    unreachable
}

/// A sweep deletes nothing that a mark names, and every candidate that none names.
pub proof fn sweeps_delete_what_is_unreachable(
    marks: Seq<ObjectLocator>,
    candidates: Seq<ObjectRecord>,
    ordered: Seq<ObjectRecord>,
    unreachable: Seq<ObjectRecord>,
)
    requires
        is_sweep(marks, candidates, ordered, unreachable),
    ensures
        forall|record: ObjectRecord|
            #[trigger] unreachable.contains(record) <==> candidates.contains(record)
                && !marks.contains(record.identity),
{
    crate::order::same_by_key_same_items(candidates, ordered);
    assert forall|record: ObjectRecord|
        #[trigger] unreachable.contains(record) <==> candidates.contains(record)
            && !marks.contains(record.identity) by {
        if unreachable.contains(record) {
            ordered.lemma_filter_contains_rev(is_unmarked(marks), record);
            let i = choose|i: int| 0 <= i < unreachable.len() && unreachable[i] == record;
            ordered.lemma_filter_pred(is_unmarked(marks), i);
            assert(ordered.contains(record));
            assert(candidates.contains(record));
        }
        if candidates.contains(record) && !marks.contains(record.identity) {
            assert(ordered.contains(record));
            let i = choose|i: int| 0 <= i < ordered.len() && ordered[i] == record;
            ordered.lemma_filter_contains(is_unmarked(marks), i);
        }
    }
}

/// What a sweep deletes are candidates that no mark names, all of them, and nothing else.
pub proof fn a_sweep_leaves_what_is_marked(
    marks: Vec<ObjectLocator>,
    candidates: Vec<ObjectRecord>,
    unreachable: Vec<ObjectRecord>,
    record: ObjectRecord,
)
    requires
        call_ensures(plan_sweep, (marks, candidates), unreachable),
    ensures
        unreachable@.contains(record) <==> candidates@.contains(record) && !marks@.contains(
            record.identity,
        ),
{
    let ordered = choose|ordered: Seq<ObjectRecord>| #[trigger]
        is_sweep(marks@, candidates@, ordered, unreachable@);
    sweeps_delete_what_is_unreachable(marks@, candidates@, ordered, unreachable@);
}

/// An object of the running epoch or a later one is never a candidate, so what is published
/// meanwhile stays; a file of an earlier epoch is one, as it was listed.
pub proof fn objects_of_the_epoch_are_no_candidates(
    is_file: bool,
    identity: Option<ObjectLocator>,
    length: u64,
    epoch: GcEpoch,
    result: Result<Option<ObjectRecord>, Error>,
)
    requires
        call_ensures(inventory_candidate, (is_file, identity, length, epoch), result),
    ensures
        result is Err <==> is_file && identity is None,
        result is Ok && result->Ok_0 is Some <==> is_file && identity is Some
            && identity->0.gc_epoch@ < epoch@,
        result matches Ok(Some(record)) ==> record.identity == identity->0 && record.length
            == length,
{
}

/// A compacted authority keeps its identity and name and publishes the compacted commit, behind
/// which nothing is kept.
pub proof fn a_compacted_root_keeps_one_revision(
    root: AuthorityRoot,
    commit: NamespaceRevision,
    epoch: GcEpoch,
    compacted: AuthorityRoot,
)
    requires
        call_ensures(compacted_root, (root, commit, epoch), compacted),
    ensures
        compacted.id == root.id,
        compacted.name@ == root.name@,
        compacted.head.current_commit == commit,
        compacted.head.gc_epoch == epoch,
        forall|revision: NamespaceRevision|
            #[trigger] crate::volume::is_kept(compacted.head, revision) <==> revision.sequence()
                == commit.sequence(),
{
}

/// Every object that is looked at or deleted counts once, with its length.
pub proof fn every_object_counts_once(
    seen: &mut GcOutcome,
    first: Result<(), Error>,
    gone: &mut GcOutcome,
    length: u64,
    second: Result<(), Error>,
)
    requires
        call_ensures(GcOutcome::count_scanned, (seen,), first),
        call_ensures(GcOutcome::count_deleted, (gone, length), second),
    ensures
        first is Ok <==> old(seen).scanned < u64::MAX,
        first is Ok ==> final(seen).scanned - old(seen).scanned == 1,
        final(seen).deleted == old(seen).deleted,
        final(seen).deleted_bytes == old(seen).deleted_bytes,
        second is Ok <==> old(gone).deleted < u64::MAX && old(gone).deleted_bytes + length
            <= u64::MAX,
        second is Ok ==> final(gone).deleted - old(gone).deleted == 1 && final(gone).deleted_bytes
            - old(gone).deleted_bytes == length,
        final(gone).scanned == old(gone).scanned,
{
}

} // verus!
