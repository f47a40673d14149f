use yinyang::authority::{AuthorityHead, AuthorityObservation, AuthorityRoot};
use yinyang::collection::{
    compacted_root, inventory_candidate, plan_sweep, require_replaced, GcOutcome, ObjectRecord,
};
use yinyang::engine::{
    attach, conservative_rebase, finish_install, install_committed_publication, pending_question,
    recover_install, recover_pending, require_plain, NamespaceSource, PendingStep, RebaseStep,
    SyncOutcome,
};
use yinyang::error::ErrorKind;
use yinyang::extents::{ExtentMapping, ExtentRef, SegmentRangeRef};
use yinyang::filesystem::{ContentId, FileRange};
use yinyang::identity::{
    AuthorityId, Digest, FileVersionId, GcEpoch, NodeId, ObjectId, OperationId, VolumeId,
};
use yinyang::input::{
    ConflictResolution, FileChangeSet, FileChangeSetEntry, LocalChangeHint, SyncRequest,
};
use yinyang::install::{
    directory_action, durable_order, installation_removals, plan_segments, CurrentPaths,
    DirectoryAction, InstallStep, InstallWalk, SegmentInstallation,
};
use yinyang::layers::{ExtentRunRef, FileExtentMap};
use yinyang::model::{ChangeCursor, NamespaceCommit, NamespaceRevision, ObjectClass, ObjectLocator,
    ObjectRef, StreamKind, StreamRef};
use yinyang::namespace::{
    Namespace, NamespaceNode, NamespaceRecord, NamespaceValue, NodeAttributes, NodeKind,
};
use yinyang::paths::PathSet;
use yinyang::plan::{ScannedTree, SyncPlan};
use yinyang::reconcile::{
    changed_paths, directory_conflicts, entries_agree, is_descendant, reconcile, ReconcilePlan,
};
use yinyang::renames::{next_generation, LocalFile, LocalRecord, RenameCandidates};
use yinyang::replica::{
    validate_authority, validate_binding, PublicationOrigin, ReplicaState, StoredPath, SyncPhase,
};
use yinyang::scan::{local_entry, may_match, LocalScan, NativeFacts};
use yinyang::threeway::merge_groups;
use yinyang::volume::{
    adopt_layout, base_commit, genesis_head, require_control_capabilities, require_volume_format,
    validate_access, AccessDescription, Capabilities, CreateOptions, ExtensionDescriptor,
    FileDataLayout, ManagedObservation, ManagedVolume, VolumeFormat, VolumeRuntime,
};

fn volume() -> VolumeId {
    VolumeId::from_bytes([1; 16])
}

fn root() -> NodeId {
    NodeId::from_bytes([2; 16])
}

fn locator(epoch: u64, class: ObjectClass, fill: u8) -> ObjectLocator {
    ObjectLocator {
        gc_epoch: GcEpoch::from_value(epoch),
        class,
        id: ObjectId::from_bytes([fill; 16]),
    }
}

fn revision_in(epoch: u64, sequence: u64) -> NamespaceRevision {
    NamespaceRevision {
        object: ObjectRef {
            locator: locator(epoch, ObjectClass::NamespaceCommit, sequence as u8),
            encoded_length: 1,
            digest: Digest::from_bytes([sequence as u8; 32]),
        },
        change_cursor: ChangeCursor::from_sequence(sequence),
    }
}

fn revision(sequence: u64) -> NamespaceRevision {
    revision_in(0, sequence)
}

fn content(fill: u8, length: u64) -> ContentId {
    ContentId::new(Digest::from_bytes([fill; 32]), length)
}

fn extent(fill: u8, offset: u64, length: u64) -> ExtentRef {
    ExtentRef {
        stored_range: SegmentRangeRef {
            segment: locator(0, ObjectClass::DataSegment, fill),
            offset,
            stored_content: content(fill, length),
        },
        decoding_outputs: Vec::new(),
    }
}

fn single(fill: u8, length: u64) -> FileExtentMap {
    FileExtentMap::from_base(ExtentRunRef {
        span: FileRange::new(0, length).unwrap(),
        inline_extent: ExtentMapping::complete(0, extent(fill, 0, length)).unwrap(),
        continuation: None,
    })
}

fn node(fill: u8, value: NamespaceValue) -> NamespaceNode {
    NamespaceNode {
        node_id: NodeId::from_bytes([fill; 16]),
        generation: 1,
        attributes: NodeAttributes { executable: false },
        value,
    }
}

fn directory(path: &str, fill: u8) -> NamespaceRecord {
    NamespaceRecord {
        path: path.to_owned(),
        value: Some(node(fill, NamespaceValue::Directory { generation: 1 })),
    }
}

fn file(path: &str, fill: u8, version: u8) -> NamespaceRecord {
    NamespaceRecord {
        path: path.to_owned(),
        value: Some(node(
            fill,
            NamespaceValue::RegularFile {
                version: FileVersionId::from_bytes([version; 16]),
                content: content(version, 8),
                data: single(version, 8),
            },
        )),
    }
}

fn namespace(sequence: u64, members: Vec<NamespaceRecord>) -> Namespace {
    let mut records = vec![directory("", 2)];
    records.extend(members);
    Namespace::new(volume(), ChangeCursor::from_sequence(sequence), root(), records).unwrap()
}

fn none() -> PathSet {
    PathSet::from_paths(Vec::new())
}

fn set(paths: &[&str]) -> PathSet {
    PathSet::from_paths(paths.iter().map(|path| (*path).to_owned()).collect())
}

fn paths(records: &[NamespaceRecord]) -> Vec<&str> {
    records.iter().map(|record| record.path.as_str()).collect()
}

#[test]
fn changes_of_both_sides_are_joined() {
    let common = namespace(1, vec![file("a", 3, 1), file("b", 4, 2)]);
    let local = namespace(1, vec![file("a", 3, 5), file("b", 4, 2)]);
    let remote = namespace(2, vec![file("a", 3, 1), file("b", 4, 6), file("c", 7, 7)]);
    match reconcile(&common, &local, &remote, &none()).unwrap() {
        ReconcilePlan::Publish(target) => {
            assert_eq!(paths(target.records()), vec!["", "a", "b", "c"]);
            assert_eq!(target.cursor().sequence(), 3);
            assert!(target.records()[1].value.as_ref().unwrap().same(
                local.records()[1].value.as_ref().unwrap()
            ));
            assert!(target.records()[2].value.as_ref().unwrap().same(
                remote.records()[2].value.as_ref().unwrap()
            ));
        }
        _ => panic!("nothing conflicts"),
    }
    assert!(matches!(
        reconcile(&common, &common, &remote, &none()).unwrap(),
        ReconcilePlan::Remote
    ));
}

#[test]
fn one_sided_and_equal_changes_need_no_resolution() {
    let common = namespace(1, vec![file("a", 3, 1), file("b", 4, 2)]);
    let local = namespace(1, vec![file("a", 3, 5), file("c", 6, 6)]);
    let same = namespace(2, vec![file("a", 3, 5), file("c", 6, 6)]);
    assert!(matches!(
        reconcile(&common, &local, &same, &none()).unwrap(),
        ReconcilePlan::Remote
    ));
    let untouched = namespace(2, vec![file("a", 3, 1), file("b", 4, 2)]);
    match reconcile(&common, &local, &untouched, &none()).unwrap() {
        ReconcilePlan::Publish(target) => {
            assert_eq!(paths(target.records()), vec!["", "a", "c"]);
            assert!(entries_agree(&target.records()[1].value, &local.records()[1].value));
            assert!(entries_agree(&target.records()[2].value, &local.records()[2].value));
        }
        _ => panic!("only the replica changed"),
    }
}

#[test]
fn conflicts_stay_until_they_are_resolved() {
    let common = namespace(1, vec![file("a", 3, 1)]);
    let local = namespace(1, vec![file("a", 3, 5)]);
    let remote = namespace(2, vec![file("a", 3, 6)]);
    match reconcile(&common, &local, &remote, &none()).unwrap() {
        ReconcilePlan::Conflicted(conflicts) => assert_eq!(conflicts, vec!["a".to_owned()]),
        _ => panic!("both sides changed one file"),
    }
    match reconcile(&common, &local, &remote, &set(&["a"])).unwrap() {
        ReconcilePlan::Publish(target) => assert!(target.records()[1]
            .value
            .as_ref()
            .unwrap()
            .same(local.records()[1].value.as_ref().unwrap())),
        _ => panic!("the conflict is resolved"),
    }
    let error = reconcile(&common, &local, &remote, &set(&["a", "x"])).err().unwrap();
    assert_eq!(error.kind(), ErrorKind::Invalid);
    assert_eq!(error.message(), "no unresolved conflict exists for [\"x\"]");
    let older = namespace(0, Vec::new());
    assert_eq!(
        reconcile(&common, &local, &older, &none()).err().unwrap().kind(),
        ErrorKind::Corrupt
    );
    let foreign = Namespace::new(
        VolumeId::from_bytes([9; 16]),
        ChangeCursor::from_sequence(2),
        root(),
        vec![directory("", 2)],
    )
    .unwrap();
    assert!(reconcile(&common, &local, &foreign, &none()).is_err());
}

#[test]
fn a_directory_that_one_side_removed_and_the_other_changed_conflicts() {
    let common = namespace(1, vec![directory("d", 3), file("d/f", 4, 1)]);
    let local = namespace(1, Vec::new());
    let remote = namespace(2, vec![directory("d", 3), file("d/f", 4, 2)]);
    let groups = merge_groups(&common, &local, &remote);
    assert_eq!(directory_conflicts(&groups), vec![false, true, false]);
    match reconcile(&common, &local, &remote, &none()).unwrap() {
        ReconcilePlan::Conflicted(conflicts) => assert!(conflicts.contains(&"d".to_owned())),
        _ => panic!("the directory is torn"),
    }
    assert!(is_descendant("d", "d/f") && !is_descendant("d", "d-f"));
    assert!(entries_agree(&common.records()[1].value, &remote.records()[1].value));
    assert!(!entries_agree(&common.records()[2].value, &remote.records()[2].value));
    assert!(changed_paths(&common, &remote).unwrap().same(&set(&["d/f"])));
}

#[test]
fn plans_follow_from_what_changed() {
    let base = namespace(1, vec![file("a", 3, 1)]);
    let local = namespace(1, vec![file("a", 3, 5)]);
    let remote = namespace(2, vec![file("a", 3, 1), file("b", 4, 2)]);
    let build = |scanned, revision, resolved: &PathSet| {
        SyncPlan::build(&base, scanned, &remote, revision, resolved)
    };
    assert!(matches!(
        build(ScannedTree::Unchanged, revision(1), &none()).unwrap(),
        SyncPlan::Unchanged
    ));
    match build(ScannedTree::Changed(local.clone()), revision(1), &none()).unwrap() {
        SyncPlan::Converge(plan) => {
            assert!(plan.committed.is_none() && plan.install_from.is_none());
        }
        _ => panic!("the replica changed"),
    }
    match build(ScannedTree::Unchanged, revision(2), &none()).unwrap() {
        SyncPlan::Converge(plan) => {
            assert!(plan.committed == Some(revision(2)));
            assert_eq!(plan.install_from.unwrap().cursor().sequence(), 1);
        }
        _ => panic!("the remote changed"),
    }
    match build(ScannedTree::Changed(local.clone()), revision(2), &none()).unwrap() {
        SyncPlan::Converge(plan) => assert_eq!(paths(plan.target.records()), vec!["", "a", "b"]),
        _ => panic!("both changed"),
    }
    let needless = build(ScannedTree::Unchanged, revision(2), &set(&["a"])).err().unwrap();
    assert_eq!(
        needless.message(),
        "--resolve requires a current local and remote conflict"
    );
}

fn stored_path(text: &str) -> StoredPath {
    StoredPath::from_bytes(text.as_bytes().to_vec())
}

fn state() -> ReplicaState {
    ReplicaState::new(
        stored_path("/replica"),
        volume(),
        AuthorityId::from_bytes([5; 16]),
        "main".to_owned(),
        revision(3),
    )
}

#[test]
fn replica_states_go_through_their_phases() {
    let mut state = state();
    assert!(!state.has_pending());
    assert!(state.resume_revision() == revision(3));
    state
        .begin_publication(
            revision(4),
            revision(5),
            OperationId::from_bytes([6; 16]),
            GcEpoch::from_value(1),
        )
        .unwrap();
    assert!(state.has_pending());
    let (expected, target, _, epoch) = state.pending_publication().unwrap();
    assert!(expected == revision(4) && target == revision(5));
    assert_eq!(epoch.value(), 1);
    assert!(state.installation().is_none());
    assert!(state.rebase_equivalent(revision(3)).is_err());
    state.begin_install(revision(5), true);
    assert!(state.installation() == Some((revision(5), true)));
    state.advance(revision(5));
    assert!(state.common_revision() == revision(5));
    assert_eq!(state.remote_cursor().sequence(), 5);
    state.retain_conflicts(2, revision(7), true);
    assert_eq!(state.conflict_count(), 2);
    assert!(state.base_expired());
    state.cancel_pending(revision(5));
    assert!(!state.base_expired());
    assert!(state.rebase_equivalent(revision_in(1, 5)).is_ok());
    assert!(state.common_revision() == revision_in(1, 5));
    assert!(state
        .begin_publication(
            revision(5),
            revision(7),
            OperationId::from_bytes([6; 16]),
            GcEpoch::zero(),
        )
        .is_err());
    assert_eq!(PublicationOrigin::Local, PublicationOrigin::Local);
}

#[test]
fn stored_states_are_checked() {
    let restore = |common: u64, observed: u64, phase: SyncPhase| {
        ReplicaState::restore(
            stored_path("/replica"),
            volume(),
            AuthorityId::from_bytes([5; 16]),
            "main".to_owned(),
            revision(common),
            revision(observed),
            phase,
            0,
            false,
        )
    };
    assert!(restore(3, 4, SyncPhase::Installing { published: true }).is_ok());
    assert_eq!(
        restore(4, 3, SyncPhase::Clean).unwrap_err().message(),
        "replica remote cursor is behind its common namespace"
    );
    let publishing = SyncPhase::Publishing {
        target: revision(6),
        operation_id: OperationId::from_bytes([6; 16]),
        gc_epoch: GcEpoch::zero(),
    };
    assert_eq!(
        restore(3, 4, publishing).unwrap_err().message(),
        "replica recovery references are invalid"
    );
    assert!(restore(3, 5, publishing).is_ok());
    assert!(validate_binding(None, &stored_path("/x"), volume()).is_ok());
    assert!(validate_binding(Some(&state()), &stored_path("/replica"), volume()).is_ok());
    assert!(validate_binding(Some(&state()), &stored_path("/x"), volume()).is_err());
    let other = VolumeId::from_bytes([8; 16]);
    assert!(validate_binding(Some(&state()), &stored_path("/replica"), other).is_err());
    assert!(validate_authority(&state(), AuthorityId::from_bytes([5; 16]), "main").is_ok());
    assert!(validate_authority(&state(), AuthorityId::from_bytes([5; 16]), "side").is_err());
}

fn attach_with(
    stored: Option<ReplicaState>,
    is_empty: bool,
    observed: NamespaceRevision,
    loaded: bool,
) -> Result<yinyang::engine::Attachment, yinyang::error::Error> {
    attach(
        stored,
        stored_path("/replica"),
        is_empty,
        volume(),
        AuthorityId::from_bytes([5; 16]),
        "main",
        observed,
        loaded,
    )
}

#[test]
fn interrupted_installations_resume() {
    assert!(require_plain(&Vec::new()).is_ok());
    assert_eq!(
        require_plain(&vec!["a".to_owned()]).unwrap_err().kind(),
        ErrorKind::Unsupported
    );
    let begun = attach_with(None, true, revision(3), false).unwrap();
    assert_eq!(begun.source, NamespaceSource::Observed);
    assert!(begun.state.installation() == Some((revision(3), false)));

    let again = attach_with(Some(begun.state.clone()), false, revision(3), false).unwrap();
    assert_eq!(again.source, NamespaceSource::Observed);
    assert!(again.revision == revision(3) && !again.published);
    let later = attach_with(Some(begun.state), false, revision(4), true).unwrap();
    assert_eq!(later.source, NamespaceSource::Loaded);
    assert!(later.revision == revision(4));

    let mut state = later.state;
    let outcome = finish_install(&mut state, revision(4), false);
    assert_eq!(outcome.sequence, 4);
    assert!(!state.has_pending());
    assert_eq!(
        attach_with(Some(state), true, revision(4), false).unwrap_err().kind(),
        ErrorKind::Unsupported
    );
    assert_eq!(
        attach_with(None, false, revision(3), false).unwrap_err().message(),
        "initial publication requires local observation"
    );
    assert!(SyncOutcome::restored(revision(9), true).published);
}

fn publishing() -> ReplicaState {
    let mut state = state();
    state
        .begin_publication(
            revision(3),
            revision(4),
            OperationId::from_bytes([6; 16]),
            GcEpoch::from_value(1),
        )
        .unwrap();
    state
}

#[test]
fn interrupted_publications_are_decided() {
    let epoch = GcEpoch::from_value(1);
    let mut published = publishing();
    assert!(pending_question(&published, revision(4)).is_none());
    assert!(matches!(
        recover_pending(&mut published, revision(4), epoch, false, false),
        PendingStep::Install(plan) if plan.source == NamespaceSource::Observed
    ));
    let mut collected = publishing();
    match recover_pending(&mut collected, revision(3), GcEpoch::from_value(2), false, false) {
        PendingStep::GiveUp(error) => assert_eq!(error.kind(), ErrorKind::Invalid),
        _ => panic!("the data may be gone"),
    }
    assert!(!collected.has_pending());
    let mut overtaken = publishing();
    match recover_pending(&mut overtaken, revision(5), epoch, false, false) {
        PendingStep::GiveUp(error) => assert_eq!(
            error.message(),
            "pending publication conflicted with a newer remote change; repeat sync to reconcile"
        ),
        _ => panic!("someone else published"),
    }
    let mut open = publishing();
    let (operation, cursor) = pending_question(&open, revision(3)).unwrap();
    assert!(operation == OperationId::from_bytes([6; 16]));
    assert_eq!(cursor.sequence(), 4);
    match recover_pending(&mut open, revision(3), epoch, false, false) {
        PendingStep::Publish { target, then, .. } => {
            assert!(target == revision(4));
            assert_eq!(then.source, NamespaceSource::Target);
            assert_eq!(then.current, Some(NamespaceSource::Observed));
        }
        _ => panic!("nothing stands against it"),
    }
    assert!(open.has_pending());
    let newer = install_committed_publication(revision(3), revision(4), revision(6), true);
    assert_eq!(newer.source, NamespaceSource::Observed);
    assert_eq!(newer.current, Some(NamespaceSource::Loaded));
    assert!(recover_install(revision(4), revision(5), true).revision == revision(4));
    assert!(recover_install(revision(4), revision(5), false).revision == revision(5));
}

#[test]
fn rebasing_without_a_base_needs_every_resolution() {
    let observed = namespace(5, vec![file("a", 3, 1)]);
    let local = namespace(5, vec![file("a", 3, 2), file("b", 4, 3)]);
    let mut state = state();
    match conservative_rebase(
        &mut state,
        ScannedTree::Changed(local.clone()),
        &observed,
        revision(5),
        &set(&["a"]),
    )
    .unwrap()
    {
        RebaseStep::Conflicted(paths) => assert!(paths.same(&set(&["a", "b"]))),
        _ => panic!("b is not resolved"),
    }
    assert!(state.base_expired());
    assert_eq!(state.conflict_count(), 2);
    assert!(matches!(
        conservative_rebase(
            &mut state,
            ScannedTree::Changed(local),
            &observed,
            revision(5),
            &set(&["a", "b"]),
        )
        .unwrap(),
        RebaseStep::Converge(_)
    ));
    assert!(matches!(
        conservative_rebase(
            &mut state,
            ScannedTree::Unchanged,
            &observed,
            revision(5),
            &none(),
        )
        .unwrap(),
        RebaseStep::Advanced
    ));
    assert!(state.common_revision() == revision(5));
}

fn local_file(path: &str, fill: u8, executable: bool) -> LocalRecord {
    LocalRecord {
        path: path.to_owned(),
        kind: NodeKind::RegularFile,
        executable,
        file: Some(LocalFile {
            content: content(fill, 8),
            data: single(fill, 8),
        }),
    }
}

#[test]
fn moved_files_keep_their_identity() {
    let mut candidates = RenameCandidates::new();
    candidates.local(local_file("new", 1, true));
    candidates.local(local_file("copy-1", 2, false));
    candidates.local(local_file("copy-2", 2, false));
    candidates.removed_record(file("old", 9, 1)).unwrap();
    candidates.removed_record(file("original", 8, 2)).unwrap();
    candidates.removed_record(directory("gone", 7)).unwrap();
    let deletion = NamespaceRecord {
        path: "x".to_owned(),
        value: None,
    };
    assert_eq!(
        candidates.removed_record(deletion).unwrap_err().kind(),
        ErrorKind::Corrupt
    );
    let records = candidates.resolve().unwrap();
    assert_eq!(paths(&records), vec!["copy-1", "copy-2", "new"]);
    let moved = records[2].value.as_ref().unwrap();
    assert!(moved.node_id == NodeId::from_bytes([9; 16]));
    assert_eq!(moved.generation, 2);
    assert!(moved.attributes.executable);
    let copied = records[0].value.as_ref().unwrap();
    assert!(copied.node_id != NodeId::from_bytes([8; 16]));
    assert!(copied.node_id != records[1].value.as_ref().unwrap().node_id);
    assert_eq!(copied.generation, 1);
    assert_eq!(next_generation(4).unwrap(), 5);
    assert!(next_generation(u64::MAX).is_err());
}

#[test]
fn changed_ranges_are_normalized() {
    let entry = FileChangeSetEntry::new(
        "dir/file".to_owned(),
        content(1, 100),
        vec![30..40, 0..10, 5..12, 12..15, 60..61],
    )
    .unwrap();
    let ranges: Vec<(u64, u64)> = entry
        .ranges()
        .iter()
        .map(|range| (range.offset(), range.length()))
        .collect();
    assert_eq!(ranges, vec![(0, 15), (30, 10), (60, 1)]);
    assert_eq!(entry.path(), "dir/file");
    assert!(entry.base() == content(1, 100));
    let bad = |path: &str, range: std::ops::Range<u64>| {
        FileChangeSetEntry::new(path.to_owned(), content(1, 100), vec![range])
            .unwrap_err()
            .message()
            .to_owned()
    };
    assert_eq!(bad("", 0..1), "changed file path is empty");
    assert_eq!(bad("a", std::ops::Range { start: 3, end: 2 }), "changed range is invalid");
    assert_eq!(bad("a", 3..3), "file range is empty or overflows");
    assert!(FileChangeSetEntry::new("a/".to_owned(), content(1, 1), Vec::new()).is_err());

    let again = || FileChangeSetEntry::new("a".to_owned(), content(1, 9), Vec::new()).unwrap();
    assert_eq!(
        FileChangeSet::new(vec![again(), entry, again()]).unwrap_err().message(),
        "one file has more than one mutation input"
    );
    let changes = FileChangeSet::new(vec![again()]).unwrap();
    assert!(!changes.is_empty());
    assert_eq!(changes.entries().len(), 1);
    assert!(FileChangeSet::default().is_empty());
    let request = SyncRequest {
        resolve: vec![
            ConflictResolution { path: "a".to_owned() }.path,
            LocalChangeHint { path: "b".to_owned() }.path,
        ],
        change_set: Some(changes),
    };
    assert_eq!(request.resolve.len(), 2);
    assert!(request.change_set.is_some());
}

fn facts() -> NativeFacts {
    NativeFacts {
        is_dir: false,
        is_file: true,
        links: 1,
        mode: 0o644,
        length: 5,
    }
}

#[test]
fn scans_list_portable_paths_in_order() {
    let mut scan = LocalScan::new(true).unwrap();
    for (name, path, found) in [
        ("b", "b", facts()),
        ("a", "a", NativeFacts { is_dir: true, is_file: false, ..facts() }),
        ("x", "a/x", NativeFacts { mode: 0o755, ..facts() }),
    ] {
        let path = scan.visit(Some(name.to_owned()), Some(path.to_owned())).unwrap();
        scan.record(path, found).unwrap();
    }
    let entries = scan.finish().unwrap();
    let listed: Vec<(&str, bool, Option<u64>)> = entries
        .iter()
        .map(|entry| (entry.path.as_str(), entry.executable, entry.length))
        .collect();
    assert_eq!(
        listed,
        vec![
            ("", false, None),
            ("a", false, None),
            ("a/x", true, Some(5)),
            ("b", false, Some(5)),
        ]
    );
}

#[test]
fn scans_refuse_what_cannot_be_stored() {
    assert_eq!(LocalScan::new(false).unwrap_err().kind(), ErrorKind::Invalid);
    let mut scan = LocalScan::new(true).unwrap();
    assert_eq!(
        scan.visit(None, None).unwrap_err().message(),
        "local directory contains a non-Unicode name"
    );
    assert_eq!(
        scan.visit(Some("a".to_owned()), None).unwrap_err().message(),
        "local directory contains a non-Unicode path"
    );
    assert!(scan.visit(Some("nul".to_owned()), Some("nul".to_owned())).is_err());
    let linked = NativeFacts { links: 2, ..facts() };
    assert_eq!(local_entry(linked).unwrap_err().kind(), ErrorKind::Unsupported);
    let special = NativeFacts { is_file: false, ..facts() };
    assert_eq!(
        scan.record("s".to_owned(), special).unwrap_err().message(),
        "local replica contains a symbolic link or special file"
    );
    for name in ["Readme", "README"] {
        scan.visit(Some(name.to_owned()), Some(format!("d/{name}"))).unwrap();
    }
    assert_eq!(
        scan.finish().unwrap_err().message(),
        "directory contains a case-folding collision"
    );
    assert!(may_match(facts(), 5, false));
    assert!(!may_match(facts(), 6, false));
    assert!(!may_match(facts(), 5, true));
    assert!(!may_match(linked, 5, false));
}

#[test]
fn installing_asks_only_for_what_changed() {
    let before = namespace(1, vec![directory("d", 3), file("d/f", 4, 1), file("g", 5, 2)]);
    let after = namespace(2, vec![directory("d", 3), file("d/f", 4, 6), file("g", 5, 2)]);
    let mut walk = InstallWalk::new(Some(&before), &after);
    assert!(!walk.verify_existing());
    assert!(matches!(walk.next().unwrap(), Some(InstallStep::Directory(path)) if path == "d"));
    match walk.next().unwrap() {
        Some(InstallStep::Segment(file)) => {
            assert_eq!(file.path, "d/f");
            assert!(file.fingerprint == content(6, 8));
        }
        _ => panic!("the file changed"),
    }
    assert!(walk.next().unwrap().is_none());
    let mut again = InstallWalk::new(Some(&after), &after);
    assert!(matches!(again.next().unwrap(), Some(InstallStep::Directory(_))));
    assert!(again.next().unwrap().is_none());
    let mut fresh = InstallWalk::new(None, &after);
    assert!(fresh.verify_existing());
    let mut count = 0;
    while fresh.next().unwrap().is_some() {
        count += 1;
    }
    assert_eq!(count, 3);

    let mut wrong = file("w", 6, 3);
    if let Some(node) = &mut wrong.value {
        node.value = NamespaceValue::RegularFile {
            version: FileVersionId::from_bytes([3; 16]),
            content: content(4, 8),
            data: single(3, 8),
        };
    }
    let damaged = namespace(3, vec![wrong]);
    assert_eq!(
        InstallWalk::new(None, &damaged).next().unwrap_err().message(),
        "inline extent does not match its file content"
    );
    assert_eq!(directory_action(Some(true)), DirectoryAction::Keep);
    assert_eq!(directory_action(Some(false)), DirectoryAction::Replace);
    assert_eq!(directory_action(None), DirectoryAction::Create);
}

fn listed(stored: &[StoredPath]) -> Vec<String> {
    stored
        .iter()
        .map(|path| String::from_utf8_lossy(&path.bytes).into_owned())
        .collect()
}

#[test]
fn removals_go_from_the_leaves_to_the_root() {
    let before = namespace(1, vec![directory("d", 3), file("d/f", 4, 1), file("g", 5, 2)]);
    let after = namespace(2, vec![file("g", 5, 2)]);
    let removed = installation_removals(CurrentPaths::Namespace(&before), &after);
    assert_eq!(listed(&removed), vec!["d/f".to_owned(), "d".to_owned()]);
    let found = set(&["g", "h", "h/i"]);
    let removed = installation_removals(
        CurrentPaths::Filesystem {
            paths: &found,
            strange: vec![StoredPath::from_bytes(vec![0xff])],
        },
        &after,
    );
    assert_eq!(removed[0].bytes, vec![0xff]);
    assert_eq!(listed(&removed[1..]), vec!["h/i".to_owned(), "h".to_owned()]);
    let durable = durable_order(vec![
        stored_path("/a"),
        stored_path("/a/b"),
        stored_path("/a"),
    ]);
    assert_eq!(listed(&durable), vec!["/a/b".to_owned(), "/a".to_owned()]);
    assert_eq!(stored_path("/a/b").memory_bytes(), 4);
}

fn segment_file(fill: u8, offset: u64, length: u64) -> SegmentInstallation {
    SegmentInstallation {
        extent: extent(fill, offset, length),
        destination: stored_path("/replica/f"),
        fingerprint: content(fill, length),
        executable: false,
    }
}

#[test]
fn segment_files_are_read_in_batches() {
    assert_eq!(segment_file(1, 0, 8).memory_bytes(100, 40), 110);
    let pending = vec![
        segment_file(2, 0, 8),
        segment_file(1, 8, 8),
        segment_file(1, 0, 8),
    ];
    let batches = plan_segments(pending, 1000, 0, 100, 40).unwrap();
    assert_eq!(batches.len(), 2);
    assert_eq!(batches[0].stream_range(), Some((0, 16)));
    let small = plan_segments(
        vec![segment_file(1, 8, 8), segment_file(1, 0, 8)],
        150,
        0,
        100,
        40,
    )
    .unwrap();
    assert_eq!(small.len(), 2);
    assert_eq!(
        plan_segments(vec![segment_file(1, u64::MAX, 8)], 1000, 0, 100, 40)
            .err()
            .unwrap()
            .message(),
        "file range overflows"
    );
    assert!(plan_segments(vec![segment_file(1, 4, 0)], 1000, 0, 100, 40).is_err());
}

#[test]
fn collections_delete_what_nothing_reaches() {
    let object = |epoch: u64, fill: u8| locator(epoch, ObjectClass::DataSegment, fill);
    let epoch = GcEpoch::from_value(5);
    let entry = |identity, is_file| inventory_candidate(is_file, identity, 10, epoch);
    assert!(entry(Some(object(4, 1)), true).unwrap().is_some());
    assert!(entry(Some(object(5, 1)), true).unwrap().is_none());
    assert!(entry(None, false).unwrap().is_none());
    assert_eq!(entry(None, true).unwrap_err().kind(), ErrorKind::Corrupt);

    let candidate = |fill: u8| ObjectRecord {
        identity: object(1, fill),
        length: 10,
    };
    let marks = vec![object(1, 2), object(1, 4), object(1, 2)];
    let unreachable = plan_sweep(marks, vec![candidate(3), candidate(2), candidate(1)]);
    let fills: Vec<u8> = unreachable
        .iter()
        .map(|record| record.identity.id.as_bytes()[0])
        .collect();
    assert_eq!(fills, vec![1, 3]);

    let mut outcome = GcOutcome::default();
    outcome.count_scanned().unwrap();
    outcome.count_deleted(10).unwrap();
    assert_eq!((outcome.scanned, outcome.deleted, outcome.deleted_bytes), (1, 1, 10));
    assert_eq!(
        outcome.count_deleted(u64::MAX).unwrap_err().message(),
        "deleted byte count overflows"
    );
    let mut full = GcOutcome {
        scanned: u64::MAX,
        deleted: u64::MAX,
        deleted_bytes: 0,
    };
    assert!(full.count_scanned().is_err());
    assert_eq!(
        full.count_deleted(0).unwrap_err().message(),
        "deleted object count overflows"
    );
    assert!(require_replaced(true).is_ok());
    assert_eq!(require_replaced(false).unwrap_err().kind(), ErrorKind::Conflict);
    let compacted = compacted_root(
        AuthorityRoot {
            id: AuthorityId::from_bytes([5; 16]),
            name: "main".to_owned(),
            head: head(0, 7),
        },
        revision(7),
        epoch,
    );
    assert_eq!(compacted.head.minimum_retained_cursor.sequence(), 7);
    assert_eq!(compacted.head.gc_epoch.value(), 5);
}

fn head(minimum: u64, current: u64) -> AuthorityHead {
    AuthorityHead {
        current_commit: revision_in(2, current),
        gc_epoch: GcEpoch::from_value(2),
        minimum_retained_cursor: ChangeCursor::from_sequence(minimum),
    }
}

fn capable() -> Capabilities {
    Capabilities {
        read: true,
        write: true,
        write_with_if_not_exists: true,
        write_with_if_match: true,
    }
}

#[test]
fn rejects_storage_without_conditional_publication() {
    let plain = Capabilities {
        write_with_if_match: false,
        ..capable()
    };
    let error = require_control_capabilities(plain).unwrap_err();
    assert_eq!(error.kind(), ErrorKind::Unsupported);
    assert!(require_control_capabilities(capable()).is_ok());
}

fn descriptor(name: &str) -> ExtensionDescriptor {
    ExtensionDescriptor {
        name: name.to_owned(),
        configuration: vec![1],
    }
}

fn whole_format() -> VolumeFormat {
    CreateOptions::new(FileDataLayout::whole_identity(1024)).into_format(volume(), root())
}

fn core_access() -> AccessDescription {
    AccessDescription {
        partitioning: None,
        codec: None,
        authority: None,
    }
}

#[test]
fn volumes_are_opened_with_fitting_access() {
    let opened = ManagedVolume::from_parts(
        whole_format(),
        &core_access(),
        VolumeRuntime::standard(),
        "main".to_owned(),
    )
    .unwrap();
    assert!(opened.id() == volume());
    assert_eq!(opened.authority_name(), "main");
    assert_eq!(opened.stream_concurrency(), 4);
    assert_eq!(opened.read_gap_bytes(), 1024 * 1024);
    assert_eq!(opened.transfer_window_bytes(), 64 * 1024 * 1024);
    assert_eq!(opened.multipart_part_bytes(), 64 * 1024 * 1024);
    assert_eq!(opened.work_budget().memory_target_bytes(), 256 * 1024 * 1024);
    assert_eq!(opened.work_budget().fan_in(), 5);
    assert!(opened.format().root_node_id == root());
    let tiny = ManagedVolume::from_parts(
        whole_format(),
        &core_access(),
        VolumeRuntime::new(8, 4, 0, Some(7)),
        "main".to_owned(),
    )
    .unwrap();
    assert_eq!(tiny.transfer_window_bytes(), 1);
    assert_eq!(tiny.multipart_part_bytes(), 7);

    let encoded = AccessDescription {
        codec: Some(descriptor("zstd")),
        ..core_access()
    };
    assert_eq!(
        validate_access(&whole_format(), &encoded).unwrap_err().kind(),
        ErrorKind::Unsupported
    );
    let mut format = whole_format();
    format.file_data_layout.decodings.push(descriptor("zstd"));
    assert!(validate_access(&format, &encoded).is_ok());
    assert_eq!(
        ManagedVolume::from_parts(
            whole_format(),
            &core_access(),
            VolumeRuntime::new(usize::MAX, 4, 0, None),
            "main".to_owned(),
        )
        .unwrap_err()
        .message(),
        "stream concurrency overflows"
    );
}

#[test]
fn volumes_keep_their_layout() {
    let options = CreateOptions::new(FileDataLayout::whole_identity(1024))
        .with_authority(descriptor("branches"));
    assert_eq!(options.authority().unwrap().name, "branches");
    assert_eq!(options.file_data_layout().segment_target_bytes, 1024);
    let branched = options.into_format(volume(), root());
    assert!(adopt_layout(&whole_format(), &whole_format()).is_ok());
    assert_eq!(
        adopt_layout(&whole_format(), &branched).unwrap_err().kind(),
        ErrorKind::Conflict
    );
    assert_eq!(require_volume_format(None).unwrap_err().kind(), ErrorKind::NotFound);
    assert!(require_volume_format(Some(branched)).is_ok());
    let genesis = genesis_head(revision(0));
    assert_eq!(genesis.gc_epoch.value(), 0);
    assert_eq!(genesis.minimum_retained_cursor.sequence(), 0);
}

#[test]
fn earlier_revisions_are_read_while_they_are_kept() {
    let observation = ManagedObservation {
        namespace: namespace(7, Vec::new()),
        authority: AuthorityObservation {
            id: AuthorityId::from_bytes([5; 16]),
            head: head(4, 7),
            revision: Vec::new(),
        },
        commit: NamespaceCommit::genesis(
            volume(),
            StreamRef {
                kind: StreamKind::NamespaceSnapshot,
                object: revision(0).object,
                payload_length: 0,
                payload_digest: Digest::from_bytes([0; 32]),
            },
        ),
    };
    assert!(observation.can_read_revision(revision(4)));
    assert!(observation.can_read_revision(revision(7)));
    assert!(!observation.can_read_revision(revision(3)));
    assert!(!observation.can_read_revision(revision(8)));
    assert_eq!(observation.gc_epoch().value(), 2);
    assert_eq!(observation.revision().cursor().sequence(), 7);
    assert_eq!(observation.namespace().cursor().sequence(), 7);
    assert!(observation.authority_id() == AuthorityId::from_bytes([5; 16]));

    assert!(base_commit(head(4, 7), None).is_none());
    assert!(base_commit(head(4, 7), Some(revision(3))).is_none());
    assert!(base_commit(head(4, 7), Some(revision(7))).is_none());
    let (commit, cursor) = base_commit(head(4, 7), Some(revision(5))).unwrap();
    assert!(commit == revision(5));
    assert_eq!(cursor.sequence(), 5);
    let (commit, cursor) = base_commit(head(4, 7), Some(revision(4))).unwrap();
    assert!(commit == head(4, 7).current_commit);
    assert_eq!(cursor.sequence(), 4);
    let (commit, _) = base_commit(head(4, 7), Some(revision_in(2, 4))).unwrap();
    assert!(commit == revision_in(2, 4));
}
