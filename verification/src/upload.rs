//! Complete and range-hinted publication of file contents.

use vstd::prelude::*;

use crate::error::{conflict, corrupt, invalid, Error, Fault};
use crate::extents::{run_covers, ExtentMapping, MappingView};
use crate::filesystem::{ContentId, FileRange};
use crate::layers::{ExtentRunRef, FileExtentMap, MapView, RunView};
use crate::model::StreamRef;
use crate::renames::LocalFile;
use crate::runs::{gapless, gapless_has, ExtentRunWriter};

verus! {

/// The mappings make up a range without a gap.
pub open spec fn makes_up(mappings: Seq<MappingView>, start: int, end: int) -> bool {
    &&& mappings.len() > 0
    &&& mappings[0].offset == start
    &&& mappings.last().end() == end
    &&& gapless(mappings)
}

/// The run of mappings whose tail, behind the first mapping, was stored in a stream.
pub open spec fn run_of(mappings: Seq<MappingView>, continuation: Option<StreamRef>) -> RunView {
    RunView {
        start: mappings[0].offset,
        size: (mappings.last().end() - mappings[0].offset) as u64,
        inline_extent: mappings[0],
        continuation,
    }
}

/// The run that the writer wrote, with its stored tail.
pub fn close_run(run: ExtentRunWriter, continuation: Option<StreamRef>) -> (result: Option<
    ExtentRunRef,
>)
    ensures
        match result {
            Some(reference) => run@.len() > 0 && reference@ == run_of(run@, continuation),
            None => run@.len() == 0,
        },
{
    match run.close() {
        None => None,
        Some((inline_extent, span)) => Some(ExtentRunRef { span, inline_extent, continuation }),
    }
}

/// What becomes of a published file.
pub enum FileOutcome {
    /// The content is known: its data is reused and nothing that was written is needed.
    Known(FileExtentMap),
    /// The file is the run that was written.
    Written(FileExtentMap),
}

pub open spec fn uncovered_fault() -> Fault {
    corrupt("publish Managed file", "partitioned extents do not cover the source stream")
}

/// Finish the publication of a whole file from what was written of it.
pub fn finish_file(
    content: ContentId,
    known: Option<FileExtentMap>,
    run: ExtentRunWriter,
    continuation: Option<StreamRef>,
) -> (result: Result<FileOutcome, Error>)
    ensures
        match result {
            Ok(FileOutcome::Known(map)) => known is Some && map@ == known->0@,
            Ok(FileOutcome::Written(map)) => {
                &&& known is None
                &&& if content.length == 0 {
                    run@.len() == 0 && map@ == (MapView {
                        base_run: None,
                        patch_levels: Seq::empty(),
                    })
                } else {
                    makes_up(run@, 0, content.length as int) && map@ == (MapView {
                        base_run: Some(run_of(run@, continuation)),
                        patch_levels: Seq::empty(),
                    })
                }
            },
            Err(error) => {
                &&& known is None
                &&& if content.length == 0 {
                    run@.len() > 0
                } else {
                    !makes_up(run@, 0, content.length as int)
                }
                &&& error.fault() == uncovered_fault()
            },
        },
{
    if let Some(map) = known {
        return Ok(FileOutcome::Known(map));
    }
    let complete = if content.length() == 0 {
        false
    } else {
        match FileRange::new(0, content.length()) {
            Ok(range) => run.covers(range),
            Err(error) => {
                return Err(error);
            },
        }
    };
    match close_run(run, continuation) {
        Some(reference) => {
            if complete {
                return Ok(FileOutcome::Written(FileExtentMap::from_base(reference)));
            }
        },
        None => {
            if content.length() == 0 {
                return Ok(FileOutcome::Written(FileExtentMap::empty()));
            }
        },
    }
    Err(
        Error::corrupt(
            "publish Managed file",
            "partitioned extents do not cover the source stream",
        ),
    )
}

pub open spec fn patch_invalid(message: &str) -> Fault {
    invalid("publish Managed file changes", message)
}

pub open spec fn patch_conflict(message: &str) -> Fault {
    conflict("publish Managed file changes", message)
}

/// The scan of a file of which some ranges may have changed.
pub struct PatchScan {
    file_length: u64,
    offset: u64,
}

impl PatchScan {
    /// The length that the file had when the scan began.
    pub closed spec fn length(&self) -> u64 {
        self.file_length
    }

    /// The place up to which the scan has come.
    pub closed spec fn place(&self) -> u64 {
        self.offset
    }

    #[verifier::type_invariant]
    spec fn is_within(self) -> bool {
        self.offset <= self.file_length
    }

    pub fn new(previous_length: u64, file_length: u64) -> (result: Result<Self, Error>)
        ensures
            match result {
                Ok(scan) => previous_length <= file_length && scan.length() == file_length
                    && scan.place() == 0,
                Err(error) => previous_length > file_length && error.fault() == patch_invalid(
                    "trusted range publication does not support truncation",
                ),
            },
    {
        if previous_length > file_length {
            return Err(
                Error::invalid(
                    "publish Managed file changes",
                    "trusted range publication does not support truncation",
                ),
            );
        }
        Ok(PatchScan { file_length, offset: 0 })
    }

    /// Go on to the end of the next changed range: the number of unchanged bytes in front
    /// of it.
    pub fn advance(&mut self, range: FileRange) -> (result: Result<u64, Error>)
        ensures
            final(self).length() == old(self).length(),
            ({
                let end = range.start() + range.size();
                let fits = range.start() >= old(self).place() && end <= old(self).length();
                match result {
                    Ok(unchanged) => fits && unchanged == range.start() - old(self).place()
                        && final(self).place() == end,
                    Err(error) => {
                        &&& !fits
                        &&& error.fault() == patch_invalid(
                            "trusted ranges overlap, are out of order, or exceed the file",
                        )
                        &&& final(self).place() == old(self).place()
                    },
                }
            }),
    {
        let start: u64 = range.offset();
        let end: u64 = match range.end() {
            Ok(end) => end,
            Err(error) => {
                return Err(error);
            },
        };
        if start < self.offset || end > self.file_length {
            return Err(
                Error::invalid(
                    "publish Managed file changes",
                    "trusted ranges overlap, are out of order, or exceed the file",
                ),
            );
        }
        let unchanged: u64 = start - self.offset;
        self.offset = end;
        Ok(unchanged)
    }

    /// The number of unchanged bytes behind the last range.
    pub fn rest(&self) -> (rest: u64)
        ensures
            self.place() <= self.length(),
            rest == self.length() - self.place(),
    {
        proof {
            use_type_invariant(self);
        }
        self.file_length - self.offset
    }

    /// Check that all bytes of a changed range were published.
    pub fn check_range(range: FileRange, written: ContentId) -> (result: Result<(), Error>)
        ensures
            match result {
                Ok(()) => written.length == range.size(),
                Err(error) => written.length != range.size() && error.fault() == patch_conflict(
                    "local file changed while publishing a trusted range",
                ),
            },
    {
        if written.length() != range.length() {
            return Err(
                Error::conflict(
                    "publish Managed file changes",
                    "local file changed while publishing a trusted range",
                ),
            );
        }
        Ok(())
    }

    /// The content of the file that was scanned, unless the file changed meanwhile.
    pub fn scanned(&self, grew: bool, content: Option<ContentId>) -> (result: Result<
        ContentId,
        Error,
    >)
        ensures
            match result {
                Ok(found) => !grew && content == Some(found) && found.length == self.length(),
                Err(error) => if grew {
                    error.fault() == patch_conflict("local file grew while it was being published")
                } else if content is None {
                    error.fault() == patch_conflict("local file was not read completely")
                } else {
                    content->0.length != self.length() && error.fault() == patch_conflict(
                        "local file length changed while it was being published",
                    )
                },
            },
    {
        if grew {
            return Err(
                Error::conflict(
                    "publish Managed file changes",
                    "local file grew while it was being published",
                ),
            );
        }
        match content {
            None => Err(
                Error::conflict(
                    "publish Managed file changes",
                    "local file was not read completely",
                ),
            ),
            Some(found) => {
                if found.length() != self.file_length {
                    return Err(
                        Error::conflict(
                            "publish Managed file changes",
                            "local file length changed while it was being published",
                        ),
                    );
                }
                Ok(found)
            },
        }
    }
}

/// Check that a copy was not cut short.
pub fn check_copied(operation: &str, copied: u64, length: u64) -> (result: Result<(), Error>)
    ensures
        match result {
            Ok(()) => copied == length,
            Err(error) => copied != length && error.fault() == conflict(
                operation,
                "local file changed while it was being published",
            ),
        },
{
    if copied != length {
        return Err(
            Error::conflict(operation, "local file changed while it was being published"),
        );
    }
    Ok(())
}

/// What becomes of a file of which ranges were published.
pub enum PatchOutcome {
    /// The content is known: nothing that was written is needed.
    Known(FileExtentMap),
    /// The content is what it was.
    Unchanged(FileExtentMap),
    /// One run replaces the whole file.
    Replaced(FileExtentMap),
    /// The run is to be added to the former map as its newest patch.
    Patched(FileExtentMap, ExtentRunRef),
}

/// The one changed range is the whole file, and the run makes it up.
pub open spec fn replaces(mappings: Seq<MappingView>, ranges: Seq<FileRange>, length: u64) -> bool {
    &&& ranges.len() == 1
    &&& ranges[0].start() == 0
    &&& ranges[0].size() == length
    &&& makes_up(mappings, 0, length as int)
}

/// Finish the publication of changed ranges from what was written of them.
pub fn finish_patch(
    content: ContentId,
    known: Option<FileExtentMap>,
    previous_content: ContentId,
    previous: FileExtentMap,
    ranges: &[FileRange],
    file_length: u64,
    run: ExtentRunWriter,
    continuation: Option<StreamRef>,
) -> (result: Result<PatchOutcome, Error>)
    ensures
        match result {
            Ok(PatchOutcome::Known(map)) => known is Some && map@ == known->0@,
            Ok(PatchOutcome::Unchanged(map)) => {
                &&& known is None
                &&& content == previous_content
                &&& map@ == previous@
            },
            Ok(PatchOutcome::Replaced(map)) => {
                &&& known is None
                &&& content != previous_content
                &&& replaces(run@, ranges@, file_length)
                &&& map@ == (MapView {
                    base_run: Some(run_of(run@, continuation)),
                    patch_levels: Seq::empty(),
                })
            },
            Ok(PatchOutcome::Patched(map, patch)) => {
                &&& known is None
                &&& content != previous_content
                &&& !replaces(run@, ranges@, file_length)
                &&& run@.len() > 0
                &&& map@ == previous@
                &&& patch@ == run_of(run@, continuation)
            },
            Err(error) => {
                &&& known is None
                &&& content != previous_content
                &&& run@.len() == 0
                &&& error.fault() == patch_invalid("changed content has no trusted changed range")
            },
        },
{
    if let Some(map) = known {
        return Ok(PatchOutcome::Known(map));
    }
    if content == previous_content {
        return Ok(PatchOutcome::Unchanged(previous));
    }
    let replaced = ranges.len() == 1 && ranges[0].offset() == 0 && ranges[0].length()
        == file_length && run.covers(ranges[0]);
    match close_run(run, continuation) {
        None => Err(
            Error::invalid(
                "publish Managed file changes",
                "changed content has no trusted changed range",
            ),
        ),
        Some(patch) => if replaced {
            Ok(PatchOutcome::Replaced(FileExtentMap::from_base(patch)))
        } else {
            Ok(PatchOutcome::Patched(previous, patch))
        },
    }
}

/// The mapping of an extent that holds a whole partition; none for an empty one.
pub fn whole_partition(file_offset: u64, extent: crate::extents::ExtentRef) -> (result: Result<
    Option<ExtentMapping>,
    Error,
>)
    ensures
        ({
            let length = extent@.content().length;
            match result {
                Ok(None) => length == 0,
                Ok(Some(mapping)) => {
                    &&& length > 0
                    &&& file_offset + length <= u64::MAX
                    &&& mapping@ == (MappingView {
                        offset: file_offset,
                        length,
                        extent_offset: 0,
                        extent: extent@,
                    })
                },
                Err(error) => file_offset + length > u64::MAX && length > 0 && error.fault()
                    == crate::filesystem::range_fault(),
            }
        }),
{
    if extent.content().length() == 0 {
        return Ok(None);
    }
    match ExtentMapping::complete(file_offset, extent) {
        Ok(mapping) => Ok(Some(mapping)),
        Err(error) => Err(error),
    }
}

/// How the bytes of a local file are published.
#[derive(Debug)]
pub enum FilePublication {
    /// The whole file.
    Complete,
    /// The ranges that differ from what was published before.
    Changed { previous: LocalFile, ranges: Vec<FileRange> },
}

/// Check that a whole file was published: it had the length that was expected, and nothing
/// behind it.
pub fn check_complete(published: ContentId, expected_length: u64, at_end: bool) -> (result: Result<
    (),
    Error,
>)
    ensures
        match result {
            Ok(()) => published.length == expected_length && at_end,
            Err(error) => (published.length != expected_length || !at_end) && error.fault()
                == conflict("publish local file", "local file changed while it was being published"),
        },
{
    if published.length() != expected_length || !at_end {
        return Err(
            Error::conflict("publish local file", "local file changed while it was being published"),
        );
    }
    Ok(())
}

/// Whether a segment that was begun for one file holds anything of it.
pub fn keeps_placement(published: ContentId, reused: bool) -> (result: bool)
    ensures
        result == (!reused && published.length != 0),
{
    !(reused || published.length() == 0)
}

// What publications of files promise.

/// A file that was written whole has every byte of its content in the run that it is made of,
/// which ends where the content ends and begins with its first mapping; an empty file has no
/// run. Known data is reused as it is.
pub proof fn a_written_file_has_all_its_bytes(
    content: ContentId,
    known: Option<FileExtentMap>,
    run: ExtentRunWriter,
    continuation: Option<StreamRef>,
    result: Result<FileOutcome, Error>,
    place: int,
)
    requires
        call_ensures(finish_file, (content, known, run, continuation), result),
    ensures
        result matches Ok(FileOutcome::Known(map)) ==> known is Some && map@ == known->0@,
        known is Some ==> result is Ok && result->Ok_0 is Known,
        result matches Ok(FileOutcome::Written(map)) ==> {
            &&& map@.patch_levels.len() == 0
            &&& map@.base_run is None <==> content.length == 0
            &&& map@.base_run matches Some(base) ==> {
                &&& base.start == 0
                &&& base.size == content.length
                &&& base.continuation == continuation
                &&& run@.len() > 0
                &&& base.inline_extent == run@[0]
                &&& run@[run@.len() - 1].end() == content.length
                &&& 0 <= place < content.length ==> run_covers(run@, place)
            }
        },
{
    if let Ok(FileOutcome::Written(map)) = result {
        if content.length > 0 && 0 <= place < content.length {
            gapless_has(run@, place);
        }
    }
}

/// A scan of changed ranges goes forward over the file: the unchanged bytes and the range are
/// what lies between the place before and the place after, and it never passes the end. A
/// truncated file is not scanned.
pub proof fn a_scan_of_ranges_goes_forward(
    scan: &mut PatchScan,
    range: FileRange,
    result: Result<u64, Error>,
    previous_length: u64,
    file_length: u64,
    begun: Result<PatchScan, Error>,
)
    requires
        call_ensures(PatchScan::advance, (scan, range), result),
        call_ensures(PatchScan::new, (previous_length, file_length), begun),
    ensures
        begun is Ok <==> previous_length <= file_length,
        begun matches Ok(fresh) ==> fresh.place() == 0 && fresh.length() == file_length,
        final(scan).length() == old(scan).length(),
        result is Ok <==> old(scan).place() <= range.start() && range.start() + range.size()
            <= old(scan).length(),
        result matches Ok(unchanged) ==> {
            &&& old(scan).place() + unchanged == range.start()
            &&& old(scan).place() + unchanged + range.size() == final(scan).place()
            &&& final(scan).place() <= final(scan).length()
        },
        result is Err ==> final(scan).place() == old(scan).place(),
{
}

/// A scanned content is taken only where the file has the length that the scan began with, did
/// not grow, and was read to its end.
pub proof fn a_scanned_content_has_the_files_length(
    scan: &PatchScan,
    grew: bool,
    content: Option<ContentId>,
    result: Result<ContentId, Error>,
    range: FileRange,
    written: ContentId,
    checked: Result<(), Error>,
)
    requires
        call_ensures(PatchScan::scanned, (scan, grew, content), result),
        call_ensures(PatchScan::check_range, (range, written), checked),
    ensures
        result is Ok <==> !grew && content is Some && content->0.length == scan.length(),
        result matches Ok(found) ==> found == content->0,
        checked is Ok <==> written.length == range.size(),
{
}

/// What becomes of changed ranges is told by what is known, by whether the content changed and
/// by what was written: known data is reused, unchanged content keeps its data, and changed
/// content is never left without the run that was written. The run replaces the file only if it
/// covers all of it; else it becomes a patch on the former data.
pub proof fn a_change_is_never_dropped(
    content: ContentId,
    known: Option<FileExtentMap>,
    previous_content: ContentId,
    previous: FileExtentMap,
    ranges: &[FileRange],
    file_length: u64,
    run: ExtentRunWriter,
    continuation: Option<StreamRef>,
    result: Result<PatchOutcome, Error>,
    place: int,
)
    requires
        call_ensures(
            finish_patch,
            (
                content,
                known,
                previous_content,
                previous,
                ranges,
                file_length,
                run,
                continuation,
            ),
            result,
        ),
    ensures
        result is Ok && result->Ok_0 is Known <==> known is Some,
        result is Ok && result->Ok_0 is Unchanged <==> known is None && content
            == previous_content,
        result is Err <==> known is None && content != previous_content && run@.len() == 0,
        result matches Ok(PatchOutcome::Known(map)) ==> map@ == known->0@,
        result matches Ok(PatchOutcome::Unchanged(map)) ==> map@ == previous@,
        result matches Ok(PatchOutcome::Replaced(map)) ==> {
            &&& map@.patch_levels.len() == 0
            &&& map@.base_run matches Some(base)
            &&& base.start == 0
            &&& base.size == file_length
            &&& base.inline_extent == run@[0]
            &&& base.continuation == continuation
            &&& 0 <= place < file_length ==> run_covers(run@, place)
            &&& ranges@.len() == 1
            &&& ranges@[0].start() == 0
            &&& ranges@[0].size() == file_length
        },
        result matches Ok(PatchOutcome::Patched(map, patch)) ==> {
            &&& map@ == previous@
            &&& patch@.start == run@[0].offset
            &&& patch@.inline_extent == run@[0]
            &&& patch@.continuation == continuation
            &&& patch@.size as int == run@[run@.len() - 1].end() - run@[0].offset || run@[run@.len()
                - 1].end() < run@[0].offset || run@[run@.len() - 1].end() - run@[0].offset
                > u64::MAX
        },
{
    if let Ok(PatchOutcome::Replaced(map)) = result {
        if 0 <= place < file_length {
            gapless_has(run@, place);
        }
    }
}

/// The extent of a whole partition stands for all of its bytes, from where the partition begins.
pub proof fn a_whole_partition_is_one_extent(
    file_offset: u64,
    extent: crate::extents::ExtentRef,
    result: Result<Option<ExtentMapping>, Error>,
)
    requires
        call_ensures(whole_partition, (file_offset, extent), result),
    ensures
        result is Ok <==> extent@.content().length == 0 || file_offset + extent@.content().length
            <= u64::MAX,
        result matches Ok(Some(mapping)) ==> {
            &&& mapping@.offset == file_offset
            &&& mapping@.length == extent@.content().length
            &&& mapping@.length > 0
            &&& mapping@.extent_offset == 0
            &&& mapping@.extent == extent@
        },
        result matches Ok(None) ==> extent@.content().length == 0,
{
}

/// A copy or a whole file counts as published only if no byte is missing and none is left over.
pub proof fn published_bytes_are_all_there(
    operation: &str,
    copied: u64,
    length: u64,
    checked: Result<(), Error>,
    published: ContentId,
    expected_length: u64,
    at_end: bool,
    complete: Result<(), Error>,
    reused: bool,
    keeps: bool,
)
    requires
        call_ensures(check_copied, (operation, copied, length), checked),
        call_ensures(check_complete, (published, expected_length, at_end), complete),
        call_ensures(keeps_placement, (published, reused), keeps),
    ensures
        checked is Ok <==> copied == length,
        complete is Ok <==> published.length == expected_length && at_end,
        keeps <==> !reused && published.length > 0,
{
}

} // verus!
