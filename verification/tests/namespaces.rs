use yinyang::assembly::{finish_view, plan_views, read_view, validate_view, DownloadedChange};
use yinyang::authority::AuthorityHead;
use yinyang::changes::{check_increasing, merge_changes, require_increasing_path};
use yinyang::commits::{
    commit_changes, commit_publication, commit_receipts, commit_snapshot, find_receipt_segment,
    merge_receipts, operation_in_commit, plan_publication, publication_head, require_commit,
    scan_receipts, take_merge_tail, PublicationPlan,
};
use yinyang::error::ErrorKind;
use yinyang::identity::{Digest, GcEpoch, NodeId, ObjectId, OperationId, VolumeId};
use yinyang::model::{
    ChangeCursor, NamespaceChangeSegment, NamespaceCommit, NamespaceRevision, ObjectClass,
    ObjectLocator, ObjectRef, OperationReceipt, OperationReceiptSegment, StreamKind, StreamRef,
};
use yinyang::namespace::{
    check_records, find_record, genesis_records, plan_delta, Namespace, NamespaceNode,
    NamespaceRecord, NamespaceValue, NodeAttributes,
};
use yinyang::views::{select_record, versioned, VersionedRecord};
use yinyang::work::WorkBudget;

fn volume() -> VolumeId {
    VolumeId::from_bytes([1; 16])
}

fn root() -> NodeId {
    NodeId::from_bytes([2; 16])
}

fn directory(fill: u8) -> NamespaceNode {
    NamespaceNode {
        node_id: NodeId::from_bytes([fill; 16]),
        generation: 1,
        attributes: NodeAttributes { executable: false },
        value: NamespaceValue::Directory { generation: 1 },
    }
}

fn root_record() -> NamespaceRecord {
    NamespaceRecord {
        path: String::new(),
        value: Some(NamespaceNode {
            node_id: root(),
            ..directory(0)
        }),
    }
}

fn record(path: &str, fill: u8) -> NamespaceRecord {
    NamespaceRecord {
        path: path.to_owned(),
        value: Some(directory(fill)),
    }
}

fn removal(path: &str) -> NamespaceRecord {
    NamespaceRecord {
        path: path.to_owned(),
        value: None,
    }
}

fn namespace(sequence: u64, members: Vec<NamespaceRecord>) -> Namespace {
    let mut records = vec![root_record()];
    records.extend(members);
    Namespace::new(volume(), ChangeCursor::from_sequence(sequence), root(), records).unwrap()
}

fn paths(records: &[NamespaceRecord]) -> Vec<&str> {
    records.iter().map(|record| record.path.as_str()).collect()
}

fn stream(fill: u8, kind: StreamKind, class: ObjectClass) -> StreamRef {
    StreamRef {
        kind,
        object: ObjectRef {
            locator: ObjectLocator {
                gc_epoch: GcEpoch::zero(),
                class,
                id: ObjectId::from_bytes([fill; 16]),
            },
            encoded_length: 100,
            digest: Digest::from_bytes([fill; 32]),
        },
        payload_length: 80,
        payload_digest: Digest::from_bytes([fill; 32]),
    }
}

fn change_stream(fill: u8) -> StreamRef {
    stream(fill, StreamKind::NamespaceChanges, ObjectClass::NamespaceSegment)
}

fn snapshot_stream(fill: u8) -> StreamRef {
    stream(fill, StreamKind::NamespaceSnapshot, ObjectClass::NamespaceSegment)
}

fn receipt_stream(fill: u8) -> StreamRef {
    stream(fill, StreamKind::OperationReceipts, ObjectClass::OperationReceiptSegment)
}

fn change(end: u64, weight: u64, fill: u8) -> NamespaceChangeSegment {
    NamespaceChangeSegment {
        end_cursor: ChangeCursor::from_sequence(end),
        compaction_weight_bytes: weight,
        stream: change_stream(fill),
    }
}

fn commit(sequence: u64, changes: Vec<NamespaceChangeSegment>) -> NamespaceCommit {
    let mut commit = NamespaceCommit::genesis(volume(), snapshot_stream(7));
    commit.change_cursor = ChangeCursor::from_sequence(sequence);
    commit.namespace_changes = changes;
    commit
}

fn budget() -> WorkBudget {
    WorkBudget::new(1024, 2).unwrap()
}

fn at(records: Vec<NamespaceRecord>, sequence: u64) -> Vec<VersionedRecord> {
    versioned(records, ChangeCursor::from_sequence(sequence)).unwrap()
}

#[test]
fn namespaces_hold_ordered_portable_paths() {
    let ordered = vec![root_record(), record("a", 3), record("a/b", 4)];
    assert!(check_records(&ordered).is_ok());
    let twice = vec![record("a", 3), record("a", 4)];
    assert_eq!(check_records(&twice).unwrap_err().kind(), ErrorKind::Corrupt);
    let bad = vec![record("a?", 3)];
    assert_eq!(check_records(&bad).unwrap_err().kind(), ErrorKind::Invalid);
    let found = find_record(&ordered, &removal("a/b")).unwrap();
    assert!(found.value.as_ref().unwrap().same(&directory(4)));
    assert!(find_record(&ordered, &removal("a/c")).is_none());
    let genesis = genesis_records(root());
    assert_eq!(paths(&genesis), vec![""]);
}

#[test]
fn deltas_lead_from_one_namespace_to_the_next() {
    let before = namespace(1, vec![record("a", 3), record("b", 4), record("c", 5)]);
    let after = namespace(2, vec![record("a", 3), record("b", 9), record("d", 6)]);
    let delta = plan_delta(&before, &after).unwrap();
    assert_eq!(paths(&delta), vec!["b", "c", "d"]);
    assert!(delta[1].value.is_none());
    assert!(plan_delta(&before, &before).is_none());

    let merged = merge_changes(vec![delta, before.records().clone()]).unwrap();
    let kept: Vec<&str> = merged
        .iter()
        .filter(|record| record.value.is_some())
        .map(|record| record.path.as_str())
        .collect();
    assert_eq!(kept, vec!["", "a", "b", "d"]);
}

#[test]
fn newer_changes_win() {
    let newer = vec![record("a", 9), removal("b")];
    let older = vec![record("a", 1), record("b", 2), record("c", 3)];
    let merged = merge_changes(vec![newer, older]).unwrap();
    assert_eq!(paths(&merged), vec!["a", "b", "c"]);
    assert!(merged[0].value.as_ref().unwrap().same(&directory(9)));
    assert!(merged[1].value.is_none());
    assert!(merge_changes(vec![vec![record("b", 1), record("a", 1)]]).is_err());
    assert!(check_increasing(&vec![record("a", 1), record("b", 1)]).is_ok());
    assert!(require_increasing_path(None, "a").is_ok());
    assert!(require_increasing_path(Some("a"), "b").is_ok());
    assert!(require_increasing_path(Some("b"), "b").is_err());
}

#[test]
fn views_are_read_from_a_snapshot_and_its_changes() {
    let commit = commit(3, vec![change(2, 50, 8), change(3, 10, 9)]);
    let cursor = ChangeCursor::from_sequence(3);
    validate_view(&commit, cursor).unwrap();
    let snapshot = at(vec![root_record(), record("a", 3), record("b", 4)], 0);
    let changes = vec![
        DownloadedChange {
            end_cursor: ChangeCursor::from_sequence(2),
            stream: change_stream(8),
            records: at(vec![record("a", 5), record("c", 6)], 2),
        },
        DownloadedChange {
            end_cursor: cursor,
            stream: change_stream(9),
            records: at(vec![removal("b"), record("c", 7)], 3),
        },
    ];
    let view = read_view(&commit, cursor, root(), 0, &snapshot, &changes, budget()).unwrap();
    assert_eq!(paths(view.records()), vec!["", "a", "c"]);
    assert!(view.records()[1].value.as_ref().unwrap().same(&directory(5)));
    assert!(view.records()[2].value.as_ref().unwrap().same(&directory(7)));
    assert_eq!(view.cursor().sequence(), 3);

    let base = ChangeCursor::genesis();
    let at_base = read_view(&commit, base, root(), 0, &snapshot, &changes, budget()).unwrap();
    assert_eq!(paths(at_base.records()), vec!["", "a", "b"]);
}

#[test]
fn views_need_fitting_commits() {
    let cursor = ChangeCursor::from_sequence(3);
    let none = commit(3, Vec::new());
    assert_eq!(
        validate_view(&none, cursor).unwrap_err().message(),
        "namespace commit has no change stream for its cursor"
    );
    let weightless = commit(3, vec![change(3, 0, 8)]);
    assert_eq!(
        validate_view(&weightless, cursor).unwrap_err().message(),
        "namespace change descriptor is invalid"
    );
    assert_eq!(
        validate_view(&weightless, ChangeCursor::from_sequence(2))
            .unwrap_err()
            .message(),
        "commit cursor does not match the requested view"
    );
    let groups = plan_views(&vec![
        (commit(3, vec![change(2, 5, 8), change(3, 5, 9)]), cursor),
        (commit(2, vec![change(2, 5, 8)]), ChangeCursor::from_sequence(2)),
    ])
    .unwrap();
    assert_eq!(groups.len(), 1);
    assert_eq!(groups[0].members.len(), 2);
    assert_eq!(groups[0].segments.len(), 2);

    // Groups stand in the order of their first views.
    let mut other = commit(2, vec![change(2, 5, 8)]);
    other.namespace_snapshot.stream = snapshot_stream(77);
    let groups = plan_views(&vec![
        (commit(3, vec![change(2, 5, 8), change(3, 5, 9)]), cursor),
        (other, ChangeCursor::from_sequence(2)),
        (commit(3, vec![change(3, 5, 9), change(1, 5, 4)]), cursor),
    ])
    .unwrap();
    let members: Vec<Vec<usize>> = groups.iter().map(|group| group.members.clone()).collect();
    assert_eq!(members, vec![vec![0, 2], vec![1]]);
    let ends: Vec<u64> = groups[0]
        .segments
        .iter()
        .map(|segment| segment.end_cursor.sequence())
        .collect();
    assert_eq!(ends, vec![2, 3, 1]);
    assert!(none.validate(volume(), cursor).is_ok());
    assert!(none.validate(VolumeId::from_bytes([9; 16]), cursor).is_err());
}

#[test]
fn views_must_be_whole_trees() {
    let commit = commit(0, Vec::new());
    let cursor = ChangeCursor::genesis();
    let whole = at(vec![root_record(), record("a", 3)], 0);
    assert!(finish_view(&commit, cursor, root(), 0, whole).is_ok());
    let rootless = at(vec![record("a", 3)], 0);
    assert_eq!(
        finish_view(&commit, cursor, root(), 0, rootless).unwrap_err().kind(),
        ErrorKind::Corrupt
    );
}

#[test]
fn the_newer_record_of_a_path_is_selected() {
    let old = at(vec![record("a", 1)], 1).pop().unwrap();
    let new = at(vec![record("a", 2)], 2).pop().unwrap();
    let selected = select_record(Some(old.clone()), new).unwrap();
    assert_eq!(selected.change_cursor.sequence(), 2);
    let clash = at(vec![record("a", 3)], 1).pop().unwrap();
    assert_eq!(select_record(Some(old), clash).unwrap_err().kind(), ErrorKind::Corrupt);
}

#[test]
fn publications_follow_what_was_observed() {
    let genesis = namespace(0, Vec::new());
    let first = namespace(1, vec![record("a", 3)]);
    let second = namespace(2, vec![record("a", 3), record("b", 4)]);
    assert!(matches!(
        plan_publication(volume(), root(), &genesis, &first).unwrap(),
        PublicationPlan::Snapshot
    ));
    match plan_publication(volume(), root(), &first, &second).unwrap() {
        PublicationPlan::Delta(records) => assert_eq!(paths(&records), vec!["b"]),
        PublicationPlan::Snapshot => panic!("something was published before"),
    }
    assert_eq!(
        plan_publication(volume(), root(), &genesis, &second).err().unwrap().message(),
        "publication ancestry is invalid"
    );
    let same = namespace(2, vec![record("a", 3)]);
    assert_eq!(
        plan_publication(volume(), root(), &first, &same).err().unwrap().message(),
        "publication contains no namespace change"
    );
}

#[test]
fn small_segments_are_merged_at_the_tail() {
    let segments = vec![change(1, 200, 1), change(2, 30, 2), change(3, 10, 3)];
    let tail = take_merge_tail(segments, 12).unwrap();
    assert_eq!(tail.kept.len(), 1);
    assert_eq!(tail.merged.len(), 2);
    assert_eq!(tail.weight, 52);
    let none = take_merge_tail(vec![change(1, 100, 1)], 40).unwrap();
    assert_eq!((none.kept.len(), none.merged.len(), none.weight), (1, 0, 40));
    assert!(take_merge_tail(vec![change(1, 1, 1)], u64::MAX).is_err());
}

#[test]
fn commits_name_their_streams() {
    let cursor = ChangeCursor::from_sequence(1);
    let whole = commit_snapshot(commit(0, Vec::new()), cursor, snapshot_stream(3));
    assert_eq!(whole.change_cursor.sequence(), 1);
    assert_eq!(whole.namespace_snapshot.change_cursor.sequence(), 1);
    let next = commit_changes(
        whole,
        Vec::new(),
        ChangeCursor::from_sequence(2),
        40,
        change_stream(4),
    );
    assert_eq!(next.namespace_changes.len(), 1);
    assert_eq!(next.namespace_changes[0].compaction_weight_bytes, 40);
    assert_eq!(next.namespace_changes[0].end_cursor.sequence(), 2);
}

fn receipt(sequence: u64) -> OperationReceipt {
    OperationReceipt {
        change_cursor: ChangeCursor::from_sequence(sequence),
        operation_id: OperationId::from_bytes([sequence as u8; 16]),
    }
}

fn receipts(first: u64, last: u64) -> OperationReceiptSegment {
    OperationReceiptSegment {
        first_cursor: ChangeCursor::from_sequence(first),
        last_cursor: ChangeCursor::from_sequence(last),
        compaction_weight_bytes: 10,
        stream: receipt_stream(first as u8),
    }
}

#[test]
fn published_operations_are_found_again() {
    let merged = merge_receipts(receipt(3), vec![vec![receipt(2), receipt(1)]]);
    let sequences: Vec<u64> = merged
        .iter()
        .map(|receipt| receipt.change_cursor.sequence())
        .collect();
    assert_eq!(sequences, vec![3, 2, 1]);
    let mut observed = commit(3, Vec::new());
    observed.operation_receipts = vec![receipts(1, 2)];
    let tail = take_merge_tail(observed.operation_receipts.clone(), 10).unwrap();
    let next = commit_receipts(observed, tail, receipt(3), receipt_stream(9));
    let cursor = ChangeCursor::from_sequence(2);
    let segment = find_receipt_segment(&next, cursor).unwrap();
    let found = scan_receipts(&merged, segment, cursor).unwrap();
    assert!(operation_in_commit(OperationId::from_bytes([2; 16]), Some(found)));
    assert!(!operation_in_commit(OperationId::from_bytes([5; 16]), Some(found)));
    assert!(!operation_in_commit(OperationId::from_bytes([2; 16]), None));
    assert!(find_receipt_segment(&next, ChangeCursor::from_sequence(9)).is_none());
    assert!(scan_receipts(&vec![receipt(3)], receipts(1, 3), cursor).is_err());
}

#[test]
fn heads_advance_by_one_publication() {
    let target = |sequence: u64, class: ObjectClass| NamespaceRevision {
        object: ObjectRef {
            locator: ObjectLocator {
                gc_epoch: GcEpoch::zero(),
                class,
                id: ObjectId::from_bytes([4; 16]),
            },
            encoded_length: 1,
            digest: Digest::from_bytes([4; 32]),
        },
        change_cursor: ChangeCursor::from_sequence(sequence),
    };
    let head = AuthorityHead {
        current_commit: target(4, ObjectClass::NamespaceCommit),
        gc_epoch: GcEpoch::from_value(6),
        minimum_retained_cursor: ChangeCursor::from_sequence(2),
    };
    let observed = ChangeCursor::from_sequence(4);
    let next = publication_head(observed, head, target(5, ObjectClass::NamespaceCommit)).unwrap();
    assert_eq!(next.gc_epoch.value(), 6);
    assert_eq!(next.minimum_retained_cursor.sequence(), 2);
    assert_eq!(next.current_commit.cursor().sequence(), 5);
    assert!(publication_head(observed, head, target(6, ObjectClass::NamespaceCommit)).is_err());
    assert!(commit_publication(true, false).is_ok());
    assert!(commit_publication(false, true).is_ok());
    assert_eq!(commit_publication(false, false).unwrap_err().kind(), ErrorKind::Conflict);
    assert!(require_commit(target(1, ObjectClass::NamespaceCommit)).is_ok());
    assert!(require_commit(target(1, ObjectClass::DataSegment)).is_err());
}
