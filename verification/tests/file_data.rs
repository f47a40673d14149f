use yinyang::batches::{batch_pieces, RangeBatcher, RestoreStep};
use yinyang::error::ErrorKind;
use yinyang::extents::{
    coalesce_file_extents, ExtentMapping, ExtentRef, FileExtentReader, SegmentRangeRef,
};
use yinyang::filesystem::{ContentId, FileRange};
use yinyang::hash::content_id;
use yinyang::identity::{Digest, GcEpoch, ObjectId};
use yinyang::layers::{
    begin_carry, finish_carry, plan_compaction, validate_file_map, Compaction, ExtentRunRef,
    FileExtentMap,
};
use yinyang::model::{ObjectClass, ObjectLocator};
use yinyang::renames::LocalFile;
use yinyang::restore::{
    begin_restore, check_reused, identity_copy, identity_range, logical_range, restore_file,
    ExtentCodec, IdentityCodec, IdentityCopy,
    RangeBound, RestorePiece,
};
use yinyang::runs::{canonical_extents, check_run, materialize_runs, ExtentRunWriter};
use yinyang::segments::DataSegmentWriter;
use yinyang::upload::{
    check_complete, check_copied, close_run, finish_file, finish_patch, keeps_placement,
    whole_partition, FileOutcome, FilePublication, PatchOutcome, PatchScan,
};

fn segment(fill: u8) -> ObjectLocator {
    ObjectLocator {
        gc_epoch: GcEpoch::zero(),
        class: ObjectClass::DataSegment,
        id: ObjectId::from_bytes([fill; 16]),
    }
}

fn some_content(fill: u8, length: u64) -> ContentId {
    ContentId::new(Digest::from_bytes([fill; 32]), length)
}

fn extent(fill: u8, offset: u64, length: u64) -> ExtentRef {
    ExtentRef {
        stored_range: SegmentRangeRef {
            segment: segment(fill),
            offset,
            stored_content: some_content(fill, length),
        },
        decoding_outputs: Vec::new(),
    }
}

fn mapping(fill: u8, offset: u64, length: u64) -> ExtentMapping {
    ExtentMapping::complete(offset, extent(fill, 100, length)).unwrap()
}

fn run(fill: u8, offset: u64, length: u64) -> ExtentRunRef {
    ExtentRunRef {
        span: FileRange::new(offset, length).unwrap(),
        inline_extent: mapping(fill, offset, length),
        continuation: None,
    }
}

fn spans(mappings: &[ExtentMapping]) -> Vec<(u64, u64, u64, u8)> {
    mappings
        .iter()
        .map(|mapping| {
            (
                mapping.offset(),
                mapping.length(),
                mapping.extent_offset(),
                mapping.extent().stored_range.segment.id.as_bytes()[0],
            )
        })
        .collect()
}

#[test]
fn publishes_and_restores_whole_identity_files() {
    let expected = b"one canonical file-data pipeline";
    let content = content_id(expected);
    let mut segments = DataSegmentWriter::new(GcEpoch::zero(), 1024);
    segments.opened();
    let offset = segments.appended(content.length()).unwrap();
    let stored = ExtentRef {
        stored_range: SegmentRangeRef {
            segment: segment(1),
            offset,
            stored_content: content,
        },
        decoding_outputs: Vec::new(),
    };
    let mut writer = ExtentRunWriter::new();
    let whole = whole_partition(0, stored).unwrap().unwrap();
    assert!(writer.write(whole).unwrap().is_none());
    let map = match finish_file(content, None, writer, None).unwrap() {
        FileOutcome::Written(map) => map,
        FileOutcome::Known(_) => panic!("nothing is known"),
    };
    assert!(keeps_placement(content, false));
    assert!(!keeps_placement(content, true));
    assert!(!keeps_placement(some_content(1, 0), false));

    validate_file_map(&map, content, 0).unwrap();
    let (start, end) =
        logical_range(content.length(), RangeBound::Unbounded, RangeBound::Unbounded).unwrap();
    let range = begin_restore(&IdentityCodec, &map, content, start, end)
        .unwrap()
        .unwrap();
    assert_eq!((range.offset(), range.length()), (0, 32));
    let runs = map
        .selected_runs(Some(range))
        .into_iter()
        .map(|run| vec![run.inline_extent])
        .collect();
    let pieces = restore_file(&IdentityCodec, runs, Vec::new(), content, start, end).unwrap();
    let steps = batch_pieces(pieces, 1024, 0, 64, 40).unwrap();
    assert_eq!(steps.len(), 1);
    let mut actual = Vec::new();
    for step in steps {
        match step {
            RestoreStep::Fetch(batch) => {
                assert_eq!(batch.stream_range(), Some((0, 32)));
                for item in batch.into_items() {
                    let bytes = &expected[item.start as usize..item.end as usize];
                    let wanted = &bytes[item.value.start as usize..item.value.end as usize];
                    actual.extend_from_slice(wanted);
                }
            }
            RestoreStep::Copy { .. } => panic!("there is no local copy"),
        }
    }
    assert_eq!(actual, expected);
}

#[test]
fn newer_runs_win_and_holes_stay() {
    let runs = vec![
        vec![mapping(2, 4, 3)],
        vec![mapping(1, 0, 10), mapping(3, 20, 5)],
    ];
    let mut reader = FileExtentReader::new(runs, 0);
    let mut mappings = Vec::new();
    while let Some(mapping) = reader.next_raw() {
        mappings.push(mapping);
    }
    assert_eq!(
        spans(&mappings),
        vec![(0, 4, 0, 1), (4, 3, 0, 2), (7, 3, 7, 1), (20, 5, 0, 3)]
    );
    // A mapping goes as far as the first newer one, also of the newest run.
    let mut layered = FileExtentReader::new(
        vec![
            vec![mapping(3, 8, 1)],
            vec![mapping(2, 5, 1), mapping(4, 30, 2)],
            vec![mapping(1, 0, 20)],
        ],
        2,
    );
    let ends: Vec<u64> = std::iter::from_fn(|| layered.next_raw())
        .map(|mapping| mapping.end())
        .collect();
    assert_eq!(ends, vec![5, 6, 8, 9, 20, 32]);
    let later = canonical_extents(vec![vec![mapping(1, 0, 10)]], 6);
    assert_eq!(spans(&later), vec![(6, 4, 6, 1)]);
}

#[test]
fn neighbours_of_one_extent_are_joined() {
    let whole = mapping(1, 10, 8);
    let left = whole.slice(10, 13);
    let right = whole.slice(13, 18);
    let joined = coalesce_file_extents(left, right).unwrap();
    assert!(joined.same(&whole));
    assert!(coalesce_file_extents(mapping(1, 0, 4), mapping(2, 4, 4)).is_err());
    let canonical = canonical_extents(
        vec![vec![whole.slice(10, 13), whole.slice(13, 18)]],
        0,
    );
    assert_eq!(spans(&canonical), vec![(10, 8, 0, 1)]);
}

#[test]
fn runs_are_merged_into_one() {
    assert_eq!(
        materialize_runs(Vec::new()).unwrap_err().message(),
        "extent-run merge is empty"
    );
    assert_eq!(
        materialize_runs(vec![Vec::new(), Vec::new()]).unwrap_err().kind(),
        ErrorKind::Corrupt
    );
    let alone = materialize_runs(vec![vec![mapping(1, 0, 4)]]).unwrap();
    assert_eq!(spans(&alone), vec![(0, 4, 0, 1)]);
    let merged =
        materialize_runs(vec![vec![mapping(2, 1, 1)], vec![mapping(1, 0, 3)]]).unwrap();
    assert_eq!(spans(&merged), vec![(0, 1, 0, 1), (1, 1, 0, 2), (2, 1, 2, 1)]);
}

#[test]
fn runs_must_be_ordered_and_within_their_span() {
    let span = FileRange::new(0, 10).unwrap();
    assert!(check_run(span, &[mapping(1, 0, 4), mapping(2, 6, 4)]).is_ok());
    assert_eq!(
        check_run(span, &[mapping(1, 0, 4), mapping(2, 3, 4)])
            .unwrap_err()
            .kind(),
        ErrorKind::Corrupt
    );
    assert!(check_run(span, &[mapping(1, 8, 4)]).is_err());

    let mut writer = ExtentRunWriter::new();
    assert!(writer.write(mapping(1, 5, 5)).unwrap().is_none());
    assert_eq!(writer.write(mapping(2, 12, 2)).unwrap().unwrap().offset(), 12);
    assert_eq!(
        writer.write(mapping(3, 13, 2)).unwrap_err().message(),
        "file extents overlap or are out of order"
    );
    assert!(!writer.covers(FileRange::new(5, 9).unwrap()));
    let closed = close_run(writer, None).unwrap();
    assert_eq!((closed.span.offset(), closed.span.length()), (5, 9));
    assert!(close_run(ExtentRunWriter::new(), None).is_none());
}

#[test]
fn patches_are_carried_through_levels() {
    let mut map = FileExtentMap::from_base(run(1, 0, 100));
    for (fill, offset) in [(2, 10), (3, 20), (4, 30)] {
        let carry = begin_carry(map, run(fill, offset, 5)).unwrap();
        let merged = carry.merge[0].clone();
        map = finish_carry(carry, merged);
    }
    let levels: Vec<bool> = map.patch_levels.iter().map(Option::is_some).collect();
    assert_eq!(levels, vec![true, true]);
    let selected = map.selected_runs(Some(FileRange::new(30, 1).unwrap()));
    assert!(selected.iter().any(|run| run.span.offset() == 30));
    assert!(selected.iter().any(|run| run.span.offset() == 0));
    assert!(!selected.iter().any(|run| run.span.offset() == 10));
    assert!(matches!(plan_compaction(&map), Compaction::Merge(runs) if runs.len() == 3));
    assert!(matches!(plan_compaction(&FileExtentMap::empty()), Compaction::Empty));
    assert!(matches!(
        plan_compaction(&FileExtentMap::from_base(run(1, 0, 4))),
        Compaction::Keep
    ));
}

#[test]
fn restores_reuse_what_the_local_copy_has() {
    let base = mapping(1, 0, 10);
    let patch = mapping(2, 4, 2);
    let content = some_content(9, 10);
    let pieces = restore_file(
        &IdentityCodec,
        vec![vec![patch], vec![base.clone()]],
        vec![vec![base]],
        content,
        0,
        10,
    )
    .unwrap();
    assert_eq!(pieces.len(), 3);
    assert!(matches!(pieces[0], RestorePiece::Local { offset: 0, length: 4 }));
    match &pieces[1] {
        RestorePiece::Remote {
            start,
            end,
            stored_start,
            stored_end,
            ..
        } => assert_eq!((*start, *end, *stored_start, *stored_end), (0, 2, 100, 102)),
        RestorePiece::Local { .. } => panic!("the patch is remote"),
    }
    assert!(matches!(pieces[2], RestorePiece::Local { offset: 6, length: 4 }));
    assert_eq!(batch_pieces(pieces, 1024, 0, 64, 40).unwrap().len(), 3);

    let gap = restore_file(
        &IdentityCodec,
        vec![vec![mapping(1, 0, 4)]],
        Vec::new(),
        content,
        0,
        10,
    );
    assert_eq!(gap.err().unwrap().kind(), ErrorKind::Corrupt);
}

#[test]
fn ranges_of_files_are_checked() {
    assert_eq!(
        logical_range(10, RangeBound::Included(2), RangeBound::Included(4)).unwrap(),
        (2, 5)
    );
    assert_eq!(
        logical_range(10, RangeBound::Excluded(2), RangeBound::Excluded(4)).unwrap(),
        (3, 4)
    );
    assert!(logical_range(10, RangeBound::Included(11), RangeBound::Unbounded).is_err());
    assert!(logical_range(10, RangeBound::Included(5), RangeBound::Excluded(4)).is_err());
    assert_eq!(identity_range(&extent(1, 0, 8), 2, 6).unwrap(), (2, 6));
    assert!(identity_range(&extent(1, 0, 8), 2, 9).is_err());
    assert_eq!(IdentityCodec.decoding_count(), 0);
    assert_eq!(IdentityCodec.stored_size_bound(77), Some(77));
    let mut decoded = extent(1, 0, 8);
    decoded.decoding_outputs.push(some_content(2, 9));
    assert!(IdentityCodec.validate(&decoded).is_err());
    assert!(IdentityCodec.validate(&extent(1, 0, 8)).is_ok());
    assert!(IdentityCodec.validate(&extent(1, u64::MAX, 8)).is_err());
}

#[test]
fn whole_extents_are_verified_when_they_are_read() {
    let stored = extent(1, 0, 8);
    match identity_copy(&stored, 0, 8).unwrap() {
        IdentityCopy::Whole(content) => assert!(content == some_content(1, 8)),
        other => panic!("{other:?}"),
    }
    assert!(matches!(
        identity_copy(&stored, 1, 8).unwrap(),
        IdentityCopy::Part(7)
    ));
    assert!(matches!(
        identity_copy(&stored, 3, 3).unwrap(),
        IdentityCopy::Nothing
    ));
    assert!(identity_copy(&stored, 0, 9).is_err());
    assert!(check_reused(4, 4).is_ok());
    assert_eq!(check_reused(3, 4).unwrap_err().kind(), ErrorKind::Conflict);
}

#[test]
fn ranges_behind_the_content_are_not_restored() {
    let beyond = restore_file(
        &IdentityCodec,
        vec![vec![mapping(1, 0, 10)]],
        Vec::new(),
        some_content(1, 10),
        4,
        12,
    );
    assert_eq!(
        beyond.err().unwrap().message(),
        "file extents do not cover the logical file"
    );
}

#[test]
fn batches_hold_no_more_than_their_window() {
    let mut batcher: RangeBatcher<u8> = RangeBatcher::new(100, 10);
    assert!(batcher.push(segment(1), 0, 30, 20, 1).unwrap().is_none());
    assert!(batcher.push(segment(1), 30, 60, 20, 2).unwrap().is_none());
    let full = batcher.push(segment(1), 90, 120, 20, 3).unwrap().unwrap();
    assert_eq!(full.stream_range(), Some((0, 60)));
    assert_eq!(full.into_items().len(), 2);
    let other = batcher.push(segment(2), 120, 130, 20, 4).unwrap().unwrap();
    assert_eq!(other.into_items().len(), 1);
    assert!(batcher.push(segment(2), 140, 150, 20, 5).unwrap().is_none());
    let last = batcher.take().unwrap();
    assert_eq!(last.stream_range(), None);
    assert_eq!(last.into_items().len(), 2);
    assert!(batcher.take().is_none());
    assert_eq!(
        batcher.push(segment(1), 5, 5, 1, 6).err().unwrap().message(),
        "data segment range is empty or reversed"
    );
}

#[test]
fn patches_are_scanned_in_order() {
    let range = |offset: u64, length: u64| FileRange::new(offset, length).unwrap();
    let mut scan = PatchScan::new(10, 12).unwrap();
    assert_eq!(scan.advance(range(2, 3)).unwrap(), 2);
    assert_eq!(scan.advance(range(7, 2)).unwrap(), 2);
    assert!(scan.advance(range(8, 2)).is_err());
    assert_eq!(scan.rest(), 3);
    assert!(scan.advance(range(9, 4)).is_err());
    assert!(PatchScan::new(12, 10).is_err());
    assert!(PatchScan::check_range(range(2, 3), some_content(1, 3)).is_ok());
    assert!(PatchScan::check_range(range(2, 3), some_content(1, 2)).is_err());
    assert!(scan.scanned(true, Some(some_content(1, 12))).is_err());
    assert!(scan.scanned(false, Some(some_content(1, 12))).unwrap() == some_content(1, 12));
    assert!(check_copied("copy", 3, 3).is_ok());
    assert!(check_copied("copy", 2, 3).is_err());
}

#[test]
fn patches_end_in_the_map_that_says_least() {
    let previous = || FileExtentMap::from_base(run(1, 0, 10));
    let before = some_content(1, 10);
    let unchanged = finish_patch(
        before,
        None,
        before,
        previous(),
        &[],
        10,
        ExtentRunWriter::new(),
        None,
    )
    .unwrap();
    assert!(matches!(unchanged, PatchOutcome::Unchanged(_)));
    let known = finish_patch(
        some_content(2, 10),
        Some(FileExtentMap::from_base(run(7, 0, 10))),
        before,
        previous(),
        &[],
        10,
        ExtentRunWriter::new(),
        None,
    )
    .unwrap();
    assert!(matches!(known, PatchOutcome::Known(_)));
    let mut writer = ExtentRunWriter::new();
    writer.write(mapping(2, 4, 2)).unwrap();
    let patched = finish_patch(
        some_content(3, 10),
        None,
        before,
        previous(),
        &[FileRange::new(4, 2).unwrap()],
        10,
        writer,
        None,
    )
    .unwrap();
    match patched {
        PatchOutcome::Patched(_, patch) => assert_eq!(patch.span.offset(), 4),
        _ => panic!("a patch was written"),
    }
}

#[test]
fn local_files_must_not_change_while_they_are_published() {
    assert!(check_complete(some_content(1, 5), 5, true).is_ok());
    assert_eq!(
        check_complete(some_content(1, 4), 5, true).unwrap_err().kind(),
        ErrorKind::Conflict
    );
    assert_eq!(
        check_complete(some_content(1, 5), 5, false).unwrap_err().kind(),
        ErrorKind::Conflict
    );
    let changed = FilePublication::Changed {
        previous: LocalFile {
            content: some_content(1, 5),
            data: FileExtentMap::empty(),
        },
        ranges: vec![FileRange::new(0, 1).unwrap()],
    };
    assert!(matches!(changed, FilePublication::Changed { ranges, .. } if ranges.len() == 1));
}

#[test]
fn file_maps_must_match_their_content() {
    let map = FileExtentMap::from_base(run(1, 0, 10));
    assert!(validate_file_map(&map, some_content(1, 10), 0).is_ok());
    assert_eq!(
        validate_file_map(&map, some_content(2, 10), 0).unwrap_err().kind(),
        ErrorKind::Corrupt
    );
    assert!(validate_file_map(&map, some_content(1, 10), 1).is_err());
    assert!(validate_file_map(&FileExtentMap::empty(), some_content(1, 0), 0).is_ok());
    assert!(whole_partition(u64::MAX, extent(1, 0, 8)).is_err());
    assert!(ExtentMapping::new(FileRange::new(0, 8).unwrap(), 1, extent(1, 0, 8)).is_err());
}
