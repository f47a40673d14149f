//! Publication of namespaces: the next commit, its receipts, and the head that names it.

use vstd::prelude::*;

use crate::authority::AuthorityHead;
use crate::error::{conflict, corrupt, invalid, Error, Fault};
use crate::identity::{NodeId, OperationId, VolumeId};
use crate::model::{
    ChangeCursor, NamespaceChangeSegment, NamespaceCommit, NamespaceCommitView, NamespaceRevision,
    NamespaceSnapshot, ObjectClass, OperationReceipt, OperationReceiptSegment, StreamRef,
};
use crate::namespace::{
    delta_leads_to_target, delta_of, has_path, increasing, plan_delta, records_view, value_at,
    Namespace, NamespaceRecord,
};

verus! {

/// Something that weighs a number of bytes.
pub trait Weighted {
    spec fn weight(&self) -> u64;

    fn weight_bytes(&self) -> (bytes: u64)
        ensures
            bytes == self.weight(),
    ;
}

impl Weighted for NamespaceChangeSegment {
    open spec fn weight(&self) -> u64 {
        self.compaction_weight_bytes
    }

    fn weight_bytes(&self) -> (bytes: u64) {
        self.compaction_weight_bytes
    }
}

impl Weighted for OperationReceiptSegment {
    open spec fn weight(&self) -> u64 {
        self.compaction_weight_bytes
    }

    fn weight_bytes(&self) -> (bytes: u64) {
        self.compaction_weight_bytes
    }
}

/// How many of the last segments a new one of some weight absorbs, and what it then weighs:
/// each that weighs less than twice as much. Nothing if the weight cannot be counted.
pub open spec fn merge_tail<T: Weighted>(segments: Seq<T>, weight: u64) -> Option<(nat, u64)>
    decreases segments.len(),
{
    if segments.len() == 0 || segments.last().weight() / 2 >= weight {
        Some((0, weight))
    } else if weight + segments.last().weight() > u64::MAX {
        None
    } else {
        match merge_tail(segments.drop_last(), (weight + segments.last().weight()) as u64) {
            Some((count, total)) => Some((count + 1, total)),
            None => None,
        }
    }
}

/// The segments that stay, those that are absorbed, newest first, and the weight of all.
pub struct MergeTail<T> {
    pub kept: Vec<T>,
    pub merged: Vec<T>,
    pub weight: u64,
}

/// Absorb older compacted segments whose weight is less than twice the newest.
pub fn take_merge_tail<T: Weighted>(segments: Vec<T>, weight: u64) -> (result: Result<
    MergeTail<T>,
    Error,
>)
    ensures
        match result {
            Ok(tail) => match merge_tail(segments@, weight) {
                Some((count, total)) => {
                    &&& count <= segments@.len()
                    &&& tail.kept@ == segments@.take(segments@.len() - count)
                    &&& tail.merged@ == segments@.skip(segments@.len() - count).reverse()
                    &&& tail.weight == total
                },
                None => false,
            },
            Err(error) => merge_tail(segments@, weight) is None && error.fault() == corrupt(
                "compact Managed streams",
                "compaction weight overflows",
            ),
        },
{
    let ghost given = segments@;
    let mut kept = segments;
    let mut merged: Vec<T> = Vec::new();
    let mut total: u64 = weight;
    assert(given.take(given.len() as int) =~= given);
    loop
        invariant
            given == segments@,
            kept@.len() + merged@.len() == given.len(),
            kept@ == given.take(kept@.len() as int),
            merged@ == given.skip(kept@.len() as int).reverse(),
            merge_tail(given, weight) == (match merge_tail(kept@, total) {
                Some((count, last)) => Some((count + merged@.len(), last)),
                None => None,
            }),
        ensures
            kept@.len() + merged@.len() == given.len(),
            kept@ == given.take(kept@.len() as int),
            merged@ == given.skip(kept@.len() as int).reverse(),
            merge_tail(given, weight) == Some((merged@.len(), total)),
        decreases kept@.len(),
    {
        let count: usize = kept.len();
        if count == 0 || kept[count - 1].weight_bytes() / 2 >= total {
            break ;
        }
        let bytes: u64 = kept[count - 1].weight_bytes();
        let ghost before = kept@;
        total =
        match total.checked_add(bytes) {
            Some(total) => total,
            None => {
                return Err(
                    Error::corrupt("compact Managed streams", "compaction weight overflows"),
                );
            },
        };
        let segment = kept.pop().unwrap();
        merged.push(segment);
        proof {
            assert(kept@ =~= before.drop_last());
            assert(kept@ =~= given.take(kept@.len() as int));
            assert(merged@ =~= given.skip(kept@.len() as int).reverse());
        }
    }
    Ok(MergeTail { kept, merged, weight: total })
}

/// Each segment weighs at most half of the one before it.
pub open spec fn halving<T: Weighted>(segments: Seq<T>) -> bool {
    forall|i: int, j: int|
        0 <= i && j == i + 1 && j < segments.len() ==> (#[trigger] segments[j]).weight() <= (
        #[trigger] segments[i]).weight() / 2
}

/// Segments whose weights halve still do when a new one has absorbed the lighter ones, so
/// their number stays within that of the bits of a weight.
pub proof fn merging_keeps_halving<T: Weighted>(segments: Seq<T>, weight: u64, added: T)
    requires
        halving(segments),
        merge_tail(segments, weight) is Some,
        ({
            let (count, total) = merge_tail(segments, weight)->0;
            added.weight() == total
        }),
    ensures
        ({
            let (count, total) = merge_tail(segments, weight)->0;
            count <= segments.len() && halving(
                segments.take(segments.len() - count as int).push(added),
            )
        }),
    decreases segments.len(),
{
    let (count, total) = merge_tail(segments, weight)->0;
    if segments.len() == 0 || segments.last().weight() / 2 >= weight {
        let kept = segments.take(segments.len() as int);
        assert(kept =~= segments);
        let all = kept.push(added);
        assert forall|i: int, j: int| 0 <= i && j == i + 1 && j < all.len() implies (
        #[trigger] all[j]).weight() <= (#[trigger] all[i]).weight() / 2 by {
            if j < segments.len() {
                assert(segments[j].weight() <= segments[i].weight() / 2);
            }
        }
    } else {
        let front = segments.drop_last();
        assert forall|i: int, j: int| 0 <= i && j == i + 1 && j < front.len() implies (
        #[trigger] front[j]).weight() <= (#[trigger] front[i]).weight() / 2 by {
            assert(segments[j].weight() <= segments[i].weight() / 2);
        }
        merging_keeps_halving(front, (weight + segments.last().weight()) as u64, added);
        assert(front.take(front.len() - (count - 1)) =~= segments.take(segments.len() - count));
    }
}

/// What a publication has to write.
pub enum PublicationPlan {
    /// The whole target: nothing was published before.
    Snapshot,
    /// The changes that lead to the target.
    Delta(Vec<NamespaceRecord>),
}

/// The target follows what was observed, in the same volume.
pub open spec fn is_successor(
    volume_id: VolumeId,
    root: NodeId,
    observed: &Namespace,
    target: &Namespace,
) -> bool {
    &&& target@.volume_id == volume_id
    &&& target@.root == root
    &&& target@.cursor.sequence == observed@.cursor.sequence + 1
}

/// Plan the publication of a namespace that follows an observed one.
pub fn plan_publication(
    volume_id: VolumeId,
    root: NodeId,
    observed: &Namespace,
    target: &Namespace,
) -> (result: Result<PublicationPlan, Error>)
    ensures
        ({
            let delta = delta_of(observed@.records, target@.records);
            let first = observed@.cursor.sequence == 0;
            match result {
                Ok(PublicationPlan::Snapshot) => is_successor(volume_id, root, observed, target)
                    && first,
                Ok(PublicationPlan::Delta(records)) => {
                    &&& is_successor(volume_id, root, observed, target)
                    &&& !first
                    &&& delta.len() > 0
                    &&& records_view(records@) == delta
                },
                Err(error) => if !is_successor(volume_id, root, observed, target) {
                    error.fault() == invalid(
                        "publish Managed namespace",
                        "publication ancestry is invalid",
                    )
                } else {
                    !first && delta.len() == 0 && error.fault() == invalid(
                        "publish Managed namespace",
                        "publication contains no namespace change",
                    )
                },
            }
        }),
{
    let follows = match observed.cursor().sequence().checked_add(1) {
        Some(next) => target.cursor().sequence() == next,
        None => false,
    };
    if target.volume_id() != volume_id || target.root() != root || !follows {
        return Err(
            Error::invalid("publish Managed namespace", "publication ancestry is invalid"),
        );
    }
    if observed.cursor().sequence() == 0 {
        return Ok(PublicationPlan::Snapshot);
    }
    match plan_delta(observed, target) {
        Some(records) => Ok(PublicationPlan::Delta(records)),
        None => Err(
            Error::invalid(
                "publish Managed namespace",
                "publication contains no namespace change",
            ),
        ),
    }
}

/// The commit of a first publication: a snapshot of the whole target.
pub fn commit_snapshot(observed: NamespaceCommit, cursor: ChangeCursor, stream: StreamRef) -> (
commit: NamespaceCommit)
    ensures
        commit@ == (NamespaceCommitView {
            change_cursor: cursor,
            namespace_snapshot: NamespaceSnapshot { change_cursor: cursor, stream },
            namespace_changes: Seq::empty(),
            ..observed@
        }),
{
    let commit = NamespaceCommit {
        volume_id: observed.volume_id,
        change_cursor: cursor,
        namespace_snapshot: NamespaceSnapshot { change_cursor: cursor, stream },
        namespace_changes: Vec::new(),
        operation_receipts: observed.operation_receipts,
    };
    assert(commit@.namespace_changes =~= Seq::empty());
    commit
}

/// The commit of a later publication: the changes that stay, and the segment of the new ones
/// with those that it absorbed.
pub fn commit_changes(
    observed: NamespaceCommit,
    kept: Vec<NamespaceChangeSegment>,
    cursor: ChangeCursor,
    weight: u64,
    stream: StreamRef,
) -> (commit: NamespaceCommit)
    ensures
        commit@ == (NamespaceCommitView {
            change_cursor: cursor,
            namespace_changes: kept@.push(
                NamespaceChangeSegment {
                    end_cursor: cursor,
                    compaction_weight_bytes: weight,
                    stream,
                },
            ),
            ..observed@
        }),
{
    let mut namespace_changes = kept;
    namespace_changes.push(
        NamespaceChangeSegment { end_cursor: cursor, compaction_weight_bytes: weight, stream },
    );
    NamespaceCommit {
        volume_id: observed.volume_id,
        change_cursor: cursor,
        namespace_snapshot: observed.namespace_snapshot,
        namespace_changes,
        operation_receipts: observed.operation_receipts,
    }
}

pub open spec fn receipts_view(streams: Seq<Vec<OperationReceipt>>) -> Seq<Seq<OperationReceipt>> {
    Seq::new(streams.len(), |i: int| streams[i]@)
}

/// The records of streams, one stream after the other.
pub open spec fn joined_receipts(streams: Seq<Seq<OperationReceipt>>) -> Seq<OperationReceipt>
    decreases streams.len(),
{
    if streams.len() == 0 {
        Seq::empty()
    } else {
        joined_receipts(streams.drop_last()) + streams.last()
    }
}

/// The receipts of a segment: the new one, then those that it absorbs, newest first.
pub fn merge_receipts(receipt: OperationReceipt, older: Vec<Vec<OperationReceipt>>) -> (receipts:
    Vec<OperationReceipt>)
    ensures
        receipts@ == seq![receipt] + joined_receipts(receipts_view(older@)),
{
    let ghost views = receipts_view(older@);
    let mut receipts: Vec<OperationReceipt> = Vec::new();
    receipts.push(receipt);
    let mut index: usize = 0;
    proof {
        assert(views.take(0) =~= Seq::empty());
        assert(receipts@ =~= seq![receipt] + joined_receipts(views.take(0)));
    }
    while index < older.len()
        invariant
            views == receipts_view(older@),
            index <= older@.len(),
            receipts@ == seq![receipt] + joined_receipts(views.take(index as int)),
        decreases older@.len() - index,
    {
        let ghost before = receipts@;
        let stream = &older[index];
        let mut place: usize = 0;
        while place < stream.len()
            invariant
                place <= stream@.len(),
                receipts@ == before + stream@.take(place as int),
            decreases stream@.len() - place,
        {
            receipts.push(stream[place]);
            place += 1;
            assert(receipts@ =~= before + stream@.take(place as int));
        }
        proof {
            let now = views.take(index + 1);
            assert(now.drop_last() =~= views.take(index as int));
            assert(now.last() == stream@);
            assert(stream@.take(place as int) =~= stream@);
            assert(receipts@ =~= seq![receipt] + joined_receipts(now));
        }
        index += 1;
    }
    assert(views.take(index as int) =~= views);
    receipts
}

/// The commit with the segment of a new receipt behind those that stay.
pub fn commit_receipts(
    observed: NamespaceCommit,
    tail: MergeTail<OperationReceiptSegment>,
    receipt: OperationReceipt,
    stream: StreamRef,
) -> (commit: NamespaceCommit)
    ensures
        commit@ == (NamespaceCommitView {
            operation_receipts: tail.kept@.push(
                OperationReceiptSegment {
                    first_cursor: if tail.merged@.len() == 0 {
                        receipt.change_cursor
                    } else {
                        tail.merged@.last().first_cursor
                    },
                    last_cursor: receipt.change_cursor,
                    compaction_weight_bytes: tail.weight,
                    stream,
                },
            ),
            ..observed@
        }),
{
    let count: usize = tail.merged.len();
    let first_cursor = if count == 0 {
        receipt.change_cursor
    } else {
        tail.merged[count - 1].first_cursor
    };
    let mut operation_receipts = tail.kept;
    operation_receipts.push(
        OperationReceiptSegment {
            first_cursor,
            last_cursor: receipt.change_cursor,
            compaction_weight_bytes: tail.weight,
            stream,
        },
    );
    NamespaceCommit {
        volume_id: observed.volume_id,
        change_cursor: observed.change_cursor,
        namespace_snapshot: observed.namespace_snapshot,
        namespace_changes: observed.namespace_changes,
        operation_receipts,
    }
}

/// The head that names a prepared commit.
pub fn publication_head(
    observed: ChangeCursor,
    current: AuthorityHead,
    target: NamespaceRevision,
) -> (result: Result<AuthorityHead, Error>)
    ensures
        ({
            let follows = target.change_cursor.sequence == observed.sequence + 1;
            match result {
                Ok(head) => {
                    &&& follows
                    &&& head.current_commit == target
                    &&& head.gc_epoch == current.gc_epoch
                    &&& head.minimum_retained_cursor == current.minimum_retained_cursor
                },
                Err(error) => !follows && error.fault() == invalid(
                    "publish Managed namespace",
                    "prepared publication ancestry is invalid",
                ),
            }
        }),
{
    let follows = match observed.sequence().checked_add(1) {
        Some(next) => target.change_cursor.sequence() == next,
        None => false,
    };
    if !follows {
        return Err(
            Error::invalid("publish Managed namespace", "prepared publication ancestry is invalid"),
        );
    }
    Ok(
        AuthorityHead {
            current_commit: target,
            gc_epoch: current.gc_epoch,
            minimum_retained_cursor: current.minimum_retained_cursor,
        },
    )
}

/// How a publication ended: the head was replaced, or else it counts if the operation is
/// among those that are committed now.
pub fn commit_publication(replaced: bool, committed: bool) -> (result: Result<(), Error>)
    ensures
        match result {
            Ok(()) => replaced || committed,
            Err(error) => !replaced && !committed && error.fault() == conflict(
                "publish Managed namespace",
                "observed generation changed",
            ),
        },
{
    if replaced || committed {
        Ok(())
    } else {
        Err(Error::conflict("publish Managed namespace", "observed generation changed"))
    }
}

/// Check that a revision names a commit object.
pub fn require_commit(reference: NamespaceRevision) -> (result: Result<(), Error>)
    ensures
        match result {
            Ok(()) => reference.object.locator.class == ObjectClass::NamespaceCommit,
            Err(error) => reference.object.locator.class != ObjectClass::NamespaceCommit
                && error.fault() == corrupt(
                "read Managed namespace",
                "commit reference has the wrong object class",
            ),
        },
{
    if reference.object.locator.class != ObjectClass::NamespaceCommit {
        return Err(
            Error::corrupt(
                "read Managed namespace",
                "commit reference has the wrong object class",
            ),
        );
    }
    Ok(())
}

/// The segment has the receipts of a cursor.
pub open spec fn spans(segment: OperationReceiptSegment, cursor: ChangeCursor) -> bool {
    segment.first_cursor.sequence <= cursor.sequence <= segment.last_cursor.sequence
}

/// The first segment that has the receipts of a cursor.
pub open spec fn receipt_segment(
    segments: Seq<OperationReceiptSegment>,
    cursor: ChangeCursor,
) -> Option<OperationReceiptSegment>
    decreases segments.len(),
{
    if segments.len() == 0 {
        None
    } else if spans(segments[0], cursor) {
        Some(segments[0])
    } else {
        receipt_segment(segments.skip(1), cursor)
    }
}

/// The segment of a commit that has the receipts of a cursor.
pub fn find_receipt_segment(commit: &NamespaceCommit, cursor: ChangeCursor) -> (result: Option<
    OperationReceiptSegment,
>)
    ensures
        result == receipt_segment(commit@.operation_receipts, cursor),
{
    let ghost segments = commit.operation_receipts@;
    let mut index: usize = 0;
    assert(segments.skip(0) =~= segments);
    while index < commit.operation_receipts.len()
        invariant
            segments == commit.operation_receipts@,
            index <= segments.len(),
            receipt_segment(segments, cursor) == receipt_segment(
                segments.skip(index as int),
                cursor,
            ),
        decreases segments.len() - index,
    {
        let segment = commit.operation_receipts[index];
        proof {
            assert(segments.skip(index as int)[0] == segment);
            assert(segments.skip(index as int).skip(1) =~= segments.skip(index + 1));
        }
        if segment.first_cursor.sequence() <= cursor.sequence() && cursor.sequence()
            <= segment.last_cursor.sequence() {
            return Some(segment);
        }
        index += 1;
    }
    None
}

pub open spec fn receipt_corrupt(message: &str) -> Fault {
    corrupt("read Managed operation receipt", message)
}

/// What reading the receipts of a segment finds for a cursor.
pub open spec fn scan(
    receipts: Seq<OperationReceipt>,
    previous: Option<u64>,
    segment: OperationReceiptSegment,
    cursor: ChangeCursor,
) -> Result<OperationReceipt, Fault>
    decreases receipts.len(),
{
    if receipts.len() == 0 {
        Err(receipt_corrupt("operation receipt segment does not contain its cursor range"))
    } else {
        let receipt = receipts[0];
        let place = receipt.change_cursor.sequence;
        if (previous is Some && previous->0 <= place) || !spans(segment, receipt.change_cursor) {
            Err(receipt_corrupt("operation receipts are not newest first"))
        } else if receipt.change_cursor == cursor {
            Ok(receipt)
        } else {
            scan(receipts.skip(1), Some(place), segment, cursor)
        }
    }
}

/// Find the receipt of a cursor in its segment.
pub fn scan_receipts(
    receipts: &Vec<OperationReceipt>,
    segment: OperationReceiptSegment,
    cursor: ChangeCursor,
) -> (result: Result<OperationReceipt, Error>)
    ensures
        match result {
            Ok(receipt) => scan(receipts@, None, segment, cursor) == Ok::<OperationReceipt, Fault>(
                receipt,
            ),
            Err(error) => scan(receipts@, None, segment, cursor) == Err::<OperationReceipt, Fault>(
                error.fault(),
            ),
        },
{
    let mut previous: Option<u64> = None;
    let mut index: usize = 0;
    assert(receipts@.skip(0) =~= receipts@);
    while index < receipts.len()
        invariant
            index <= receipts@.len(),
            scan(receipts@, None, segment, cursor) == scan(
                receipts@.skip(index as int),
                previous,
                segment,
                cursor,
            ),
        decreases receipts@.len() - index,
    {
        let receipt = receipts[index];
        proof {
            assert(receipts@.skip(index as int)[0] == receipt);
            assert(receipts@.skip(index as int).skip(1) =~= receipts@.skip(index + 1));
        }
        let place: u64 = receipt.change_cursor.sequence();
        let unordered = match previous {
            Some(previous) => previous <= place,
            None => false,
        };
        if unordered || place < segment.first_cursor.sequence() || place
            > segment.last_cursor.sequence() {
            return Err(
                Error::corrupt(
                    "read Managed operation receipt",
                    "operation receipts are not newest first",
                ),
            );
        }
        if receipt.change_cursor == cursor {
            return Ok(receipt);
        }
        previous = Some(place);
        index += 1;
    }
    assert(receipts@.skip(index as int).len() == 0);
    Err(
        Error::corrupt(
            "read Managed operation receipt",
            "operation receipt segment does not contain its cursor range",
        ),
    )
}

/// Whether the receipt of the cursor, if a segment has it, is that of the operation.
pub fn operation_in_commit(operation: OperationId, receipt: Option<OperationReceipt>) -> (result:
    bool)
    ensures
        result == (receipt is Some && receipt->0.operation_id == operation),
{
    match receipt {
        Some(receipt) => receipt.operation_id == operation,
        None => false,
    }
}

/// An operation that was published is found: the commit has a segment for its cursor, and
/// that segment's receipts begin with its own.
pub proof fn published_operation_is_found(
    kept: Seq<OperationReceiptSegment>,
    segment: OperationReceiptSegment,
    receipt: OperationReceipt,
    older: Seq<OperationReceipt>,
)
    requires
        forall|i: int|
            0 <= i < kept.len() ==> (#[trigger] kept[i]).last_cursor.sequence
                < receipt.change_cursor.sequence,
        segment.last_cursor == receipt.change_cursor,
        segment.first_cursor.sequence <= receipt.change_cursor.sequence,
    ensures
        receipt_segment(kept.push(segment), receipt.change_cursor) == Some(segment),
        scan(seq![receipt] + older, None, segment, receipt.change_cursor) == Ok::<
            OperationReceipt,
            Fault,
        >(receipt),
    decreases kept.len(),
{
    let all = kept.push(segment);
    if kept.len() == 0 {
        assert(all[0] == segment);
    } else {
        assert(all[0] == kept[0]);
        assert(all.skip(1) =~= kept.skip(1).push(segment));
        let rest = kept.skip(1);
        assert forall|i: int| 0 <= i < rest.len() implies (#[trigger] rest[i]).last_cursor.sequence
            < receipt.change_cursor.sequence by {
            assert(kept[i + 1].last_cursor.sequence < receipt.change_cursor.sequence);
        }
        published_operation_is_found(rest, segment, receipt, older);
    }
    assert((seq![receipt] + older)[0] == receipt);
}

/// The receipts are newest first and within a segment's range.
pub open spec fn newest_first(
    receipts: Seq<OperationReceipt>,
    segment: OperationReceiptSegment,
) -> bool {
    &&& forall|i: int| 0 <= i < receipts.len() ==> spans(
        segment,
        (#[trigger] receipts[i]).change_cursor,
    )
    &&& forall|i: int, j: int|
        0 <= i < j < receipts.len() ==> (#[trigger] receipts[i]).change_cursor.sequence > (
        #[trigger] receipts[j]).change_cursor.sequence
}

/// In receipts that are newest first every one is found under its cursor.
pub proof fn every_receipt_is_found(
    receipts: Seq<OperationReceipt>,
    segment: OperationReceiptSegment,
    previous: Option<u64>,
    place: int,
)
    requires
        newest_first(receipts, segment),
        previous is Some && receipts.len() > 0 ==> previous->0
            > receipts[0].change_cursor.sequence,
        0 <= place < receipts.len(),
    ensures
        scan(receipts, previous, segment, receipts[place].change_cursor) == Ok::<
            OperationReceipt,
            Fault,
        >(receipts[place]),
    decreases receipts.len(),
{
    assert(spans(segment, receipts[0].change_cursor));
    if place > 0 {
        assert(receipts[0].change_cursor.sequence > receipts[place].change_cursor.sequence);
        let rest = receipts.skip(1);
        assert forall|i: int, j: int| 0 <= i < j < rest.len() implies (
        #[trigger] rest[i]).change_cursor.sequence > (#[trigger] rest[j]).change_cursor.sequence by {
            assert(receipts[i + 1].change_cursor.sequence > receipts[j + 1].change_cursor.sequence);
        }
        assert forall|i: int| 0 <= i < rest.len() implies spans(
            segment,
            (#[trigger] rest[i]).change_cursor,
        ) by {
            assert(spans(segment, receipts[i + 1].change_cursor));
        }
        assert(receipts[0].change_cursor.sequence > receipts[1].change_cursor.sequence);
        every_receipt_is_found(
            rest,
            segment,
            Some(receipts[0].change_cursor.sequence),
            place - 1,
        );
    }
}

// What publications keep.

/// What the first items weigh together.
pub open spec fn weight_of<T: Weighted>(items: Seq<T>) -> int
    decreases items.len(),
{
    if items.len() == 0 {
        0
    } else {
        weight_of(items.drop_last()) + items.last().weight()
    }
}

proof fn tail_weighs<T: Weighted>(segments: Seq<T>, weight: u64)
    requires
        merge_tail(segments, weight) is Some,
    ensures
        ({
            let (count, total) = merge_tail(segments, weight)->0;
            &&& count <= segments.len()
            &&& total == weight + weight_of(segments) - weight_of(
                segments.take(segments.len() - count as int),
            )
            &&& count < segments.len() ==> segments[segments.len() - count as int - 1].weight() / 2
                >= total
        }),
    decreases segments.len(),
{
    let (count, total) = merge_tail(segments, weight)->0;
    if segments.len() == 0 || segments.last().weight() / 2 >= weight {
        assert(segments.take(segments.len() as int) =~= segments);
    } else {
        let front = segments.drop_last();
        tail_weighs(front, (weight + segments.last().weight()) as u64);
        assert(front.take(front.len() - (count - 1)) =~= segments.take(segments.len() - count));
        if count < segments.len() {
            assert(front[front.len() - (count - 1) - 1] == segments[segments.len() - count - 1]);
        }
    }
}

proof fn tail_needs_merging<T: Weighted>(segments: Seq<T>, weight: u64, place: int)
    requires
        merge_tail(segments, weight) is Some,
        ({
            let (count, _) = merge_tail(segments, weight)->0;
            0 <= place && segments.len() - count <= place < segments.len()
        }),
    ensures
        segments[place].weight() / 2 < weight + weight_of(segments) - weight_of(
            segments.take(place + 1),
        ),
    decreases segments.len(),
{
    let front = segments.drop_last();
    if place == segments.len() - 1 {
        assert(segments.take(place + 1) =~= segments);
    } else {
        tail_needs_merging(front, (weight + segments.last().weight()) as u64, place);
        assert(front.take(place + 1) =~= segments.take(place + 1));
    }
}

/// Merging loses no segment and no weight: what is kept and what is absorbed make up the
/// segments, and the new one weighs what it brings and what it absorbs. The last that is kept
/// weighs at least twice as much as the new one, and each that is absorbed less than twice as
/// much as what there was to absorb it.
pub proof fn merging_loses_nothing<T: Weighted>(
    segments: Vec<T>,
    weight: u64,
    result: Result<MergeTail<T>, Error>,
    place: int,
)
    requires
        call_ensures(take_merge_tail::<T>, (segments, weight), result),
    ensures
        result matches Ok(tail) ==> {
            &&& tail.kept@ + tail.merged@.reverse() == segments@
            &&& tail.weight == weight + weight_of(segments@) - weight_of(tail.kept@)
            &&& tail.kept@.len() > 0 ==> tail.kept@.last().weight() / 2 >= tail.weight
            &&& tail.kept@.len() <= place < segments@.len() ==> segments@[place].weight() / 2 < weight
                + weight_of(segments@) - weight_of(segments@.take(place + 1))
        },
{
    if let Ok(tail) = result {
        tail_weighs(segments@, weight);
        let (count, total) = merge_tail(segments@, weight)->0;
        if tail.kept@.len() <= place < segments@.len() {
            tail_needs_merging(segments@, weight, place);
        }
        assert(tail.merged@.reverse() =~= segments@.skip(segments@.len() - count as int));
        assert(tail.kept@ + tail.merged@.reverse() =~= segments@);
    }
}

/// A publication is planned exactly for the next namespace of the volume. The first one writes
/// the whole target; a later one writes changes, of which there is at least one, that lead from
/// what was observed to the target.
pub proof fn a_publication_leads_to_its_target(
    volume_id: VolumeId,
    root: NodeId,
    observed: &Namespace,
    target: &Namespace,
    result: Result<PublicationPlan, Error>,
    path: Seq<char>,
)
    requires
        call_ensures(plan_publication, (volume_id, root, observed, target), result),
        increasing(observed@.records),
        increasing(target@.records),
        observed@.records.len() <= usize::MAX,
        target@.records.len() <= usize::MAX,
    ensures
        result is Ok ==> target@.volume_id == volume_id && target@.root == root
            && target@.cursor.sequence == observed@.cursor.sequence + 1,
        result matches Ok(PublicationPlan::Snapshot) ==> observed@.cursor.sequence == 0,
        result matches Ok(PublicationPlan::Delta(records)) ==> {
            let changes = records_view(records@);
            &&& observed@.cursor.sequence > 0
            &&& changes.len() > 0
            &&& increasing(changes)
            &&& value_at(target@.records, path) == if has_path(changes, path) {
                value_at(changes, path)
            } else {
                value_at(observed@.records, path)
            }
        },
        target@.volume_id == volume_id && target@.root == root && target@.cursor.sequence
            == observed@.cursor.sequence + 1 && (observed@.cursor.sequence == 0 || value_at(
            observed@.records,
            path,
        ) != value_at(target@.records, path)) ==> result is Ok,
{
    delta_leads_to_target(observed@.records, target@.records, path);
}

/// A first publication moves to its cursor and snapshot and keeps the receipts, without changes.
/// A later one keeps the snapshot and the receipts, and the new changes come behind those that
/// stay and end at its cursor.
pub proof fn a_commit_keeps_what_it_does_not_write(
    observed: NamespaceCommit,
    kept: Vec<NamespaceChangeSegment>,
    cursor: ChangeCursor,
    weight: u64,
    stream: StreamRef,
    first: NamespaceCommit,
    later: NamespaceCommit,
)
    requires
        call_ensures(commit_snapshot, (observed, cursor, stream), first),
        call_ensures(commit_changes, (observed, kept, cursor, weight, stream), later),
    ensures
        first@.volume_id == observed@.volume_id,
        first@.change_cursor == cursor,
        first@.namespace_snapshot.change_cursor == cursor,
        first@.namespace_snapshot.stream == stream,
        first@.namespace_changes.len() == 0,
        first@.operation_receipts == observed@.operation_receipts,
        later@.volume_id == observed@.volume_id,
        later@.change_cursor == cursor,
        later@.namespace_snapshot == observed@.namespace_snapshot,
        later@.namespace_changes.len() == kept@.len() + 1,
        later@.namespace_changes.drop_last() == kept@,
        later@.namespace_changes.last().end_cursor == cursor,
        later@.namespace_changes.last().compaction_weight_bytes == weight,
        later@.namespace_changes.last().stream == stream,
        later@.operation_receipts == observed@.operation_receipts,
{
    assert(later@.namespace_changes.drop_last() =~= kept@);
}

/// The receipt of a publication is written in front of those that its segment absorbs, and the
/// segment spans all of them; nothing but the receipts of the commit changes.
pub proof fn receipts_span_what_they_absorb(
    observed: NamespaceCommit,
    tail: MergeTail<OperationReceiptSegment>,
    receipt: OperationReceipt,
    older: Vec<Vec<OperationReceipt>>,
    stream: StreamRef,
    written: Vec<OperationReceipt>,
    commit: NamespaceCommit,
)
    requires
        call_ensures(merge_receipts, (receipt, older), written),
        call_ensures(commit_receipts, (observed, tail, receipt, stream), commit),
    ensures
        written@.len() > 0,
        written@[0] == receipt,
        commit@.volume_id == observed@.volume_id,
        commit@.change_cursor == observed@.change_cursor,
        commit@.namespace_snapshot == observed@.namespace_snapshot,
        commit@.namespace_changes == observed@.namespace_changes,
        commit@.operation_receipts.drop_last() == tail.kept@,
        commit@.operation_receipts.last().last_cursor == receipt.change_cursor,
        commit@.operation_receipts.last().compaction_weight_bytes == tail.weight,
        commit@.operation_receipts.last().stream == stream,
        tail.merged@.len() == 0 ==> commit@.operation_receipts.last().first_cursor
            == receipt.change_cursor,
        tail.merged@.len() > 0 ==> commit@.operation_receipts.last().first_cursor
            == tail.merged@[tail.merged@.len() - 1].first_cursor,
{
    assert(commit@.operation_receipts.drop_last() =~= tail.kept@);
}

/// Every receipt that a segment absorbs is written again.
pub proof fn absorbed_receipts_are_written_again(
    receipt: OperationReceipt,
    older: Vec<Vec<OperationReceipt>>,
    written: Vec<OperationReceipt>,
    stream: int,
    place: int,
)
    requires
        call_ensures(merge_receipts, (receipt, older), written),
        0 <= stream < older@.len(),
        0 <= place < older@[stream]@.len(),
    ensures
        written@.contains(older@[stream]@[place]),
{
    let views = receipts_view(older@);
    assert(views[stream] == older@[stream]@);
    joined_has(views, stream, place);
    let all = joined_receipts(views);
    let n = choose|n: int| 0 <= n < all.len() && all[n] == older@[stream]@[place];
    assert(written@[n + 1] == all[n]);
}

proof fn joined_has(streams: Seq<Seq<OperationReceipt>>, stream: int, place: int)
    requires
        0 <= stream < streams.len(),
        0 <= place < streams[stream].len(),
    ensures
        joined_receipts(streams).contains(streams[stream][place]),
    decreases streams.len(),
{
    let rest = streams.drop_last();
    let all = joined_receipts(streams);
    if stream < rest.len() {
        joined_has(rest, stream, place);
        let less = joined_receipts(rest);
        let n = choose|n: int| 0 <= n < less.len() && less[n] == streams[stream][place];
        assert(all[n] == less[n]);
    } else {
        assert(all[joined_receipts(rest).len() + place] == streams[stream][place]);
    }
}

/// The head that publishes a revision keeps the epoch and the oldest kept cursor, and is made
/// exactly if the revision follows what was observed.
pub proof fn a_published_head_moves_one_on(
    observed: ChangeCursor,
    current: AuthorityHead,
    target: NamespaceRevision,
    result: Result<AuthorityHead, Error>,
)
    requires
        call_ensures(publication_head, (observed, current, target), result),
    ensures
        result is Ok <==> target.change_cursor.sequence == observed.sequence + 1,
        result matches Ok(head) ==> {
            &&& head.current_commit == target
            &&& head.gc_epoch == current.gc_epoch
            &&& head.minimum_retained_cursor == current.minimum_retained_cursor
        },
{
}

/// A publication went through exactly if its head was put in place or its receipt is there.
pub proof fn a_publication_counts_if_it_shows(
    replaced: bool,
    committed: bool,
    result: Result<(), Error>,
)
    requires
        call_ensures(commit_publication, (replaced, committed), result),
    ensures
        result is Ok <==> replaced || committed,
{
}

/// The segment that is looked up has the cursor in its range, and one is found wherever some
/// segment has.
pub proof fn receipts_are_looked_up_by_range(
    commit: &NamespaceCommit,
    cursor: ChangeCursor,
    result: Option<OperationReceiptSegment>,
)
    requires
        call_ensures(find_receipt_segment, (commit, cursor), result),
    ensures
        result matches Some(segment) ==> {
            &&& commit@.operation_receipts.contains(segment)
            &&& segment.first_cursor.sequence <= cursor.sequence
            &&& cursor.sequence <= segment.last_cursor.sequence
        },
        result is None ==> forall|i: int|
            0 <= i < commit@.operation_receipts.len() ==> cursor.sequence < (
            #[trigger] commit@.operation_receipts[i]).first_cursor.sequence
                || commit@.operation_receipts[i].last_cursor.sequence < cursor.sequence,
{
    segment_is_found(commit@.operation_receipts, cursor);
}

proof fn segment_is_found(segments: Seq<OperationReceiptSegment>, cursor: ChangeCursor)
    ensures
        match receipt_segment(segments, cursor) {
            Some(segment) => {
                &&& segments.contains(segment)
                &&& segment.first_cursor.sequence <= cursor.sequence
                &&& cursor.sequence <= segment.last_cursor.sequence
            },
            None => forall|i: int|
                0 <= i < segments.len() ==> cursor.sequence < (
                #[trigger] segments[i]).first_cursor.sequence || segments[i].last_cursor.sequence
                    < cursor.sequence,
        },
    decreases segments.len(),
{
    if segments.len() > 0 {
        let rest = segments.skip(1);
        if !spans(segments[0], cursor) {
            segment_is_found(rest, cursor);
            match receipt_segment(rest, cursor) {
                Some(segment) => {
                    let n = choose|n: int| 0 <= n < rest.len() && rest[n] == segment;
                    assert(segments[n + 1] == segment);
                },
                None => {
                    assert forall|i: int| 0 <= i < segments.len() implies cursor.sequence < (
                    #[trigger] segments[i]).first_cursor.sequence
                        || segments[i].last_cursor.sequence < cursor.sequence by {
                        if i > 0 {
                            assert(rest[i - 1] == segments[i]);
                        }
                    }
                },
            }
        } else {
            assert(segments[0] == segments[0]);
        }
    }
}

/// A receipt that is found is one of the segment's, at the cursor that was asked for and within
/// the segment's range; an operation counts as published only by its own receipt.
pub proof fn a_found_receipt_is_the_cursors(
    receipts: &Vec<OperationReceipt>,
    segment: OperationReceiptSegment,
    cursor: ChangeCursor,
    found: Result<OperationReceipt, Error>,
    operation: OperationId,
    published: bool,
)
    requires
        call_ensures(scan_receipts, (receipts, segment, cursor), found),
        found is Ok ==> call_ensures(operation_in_commit, (operation, Some(found->Ok_0)), published),
    ensures
        found matches Ok(receipt) ==> {
            &&& receipts@.contains(receipt)
            &&& receipt.change_cursor == cursor
            &&& segment.first_cursor.sequence <= cursor.sequence <= segment.last_cursor.sequence
            &&& published <==> receipt.operation_id == operation
        },
{
    if found is Ok {
        scanned_receipt(receipts@, None, segment, cursor);
    }
}

proof fn scanned_receipt(
    receipts: Seq<OperationReceipt>,
    previous: Option<u64>,
    segment: OperationReceiptSegment,
    cursor: ChangeCursor,
)
    requires
        scan(receipts, previous, segment, cursor) is Ok,
    ensures
        ({
            let receipt = scan(receipts, previous, segment, cursor)->Ok_0;
            &&& receipts.contains(receipt)
            &&& receipt.change_cursor == cursor
            &&& segment.first_cursor.sequence <= cursor.sequence <= segment.last_cursor.sequence
        }),
    decreases receipts.len(),
{
    if receipts[0].change_cursor != cursor {
        let rest = receipts.skip(1);
        scanned_receipt(rest, Some(receipts[0].change_cursor.sequence), segment, cursor);
        let receipt = scan(receipts, previous, segment, cursor)->Ok_0;
        let n = choose|n: int| 0 <= n < rest.len() && rest[n] == receipt;
        assert(receipts[n + 1] == receipt);
    }
}

} // verus!
