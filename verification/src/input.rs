//! What a synchronization is given: changed ranges of files, hints and resolutions.

use core::ops::Range;

use vstd::prelude::*;

use crate::error::{invalid, Error, Fault};
use crate::filesystem::{range_fault, ContentId, FileRange};
use crate::order::{has_repeated_key, repeats_key, sort, sorted, Ranked};
use crate::path::{path_fault, validate_portable_path};
use crate::text::{text_precedes, text_rank, text_rank_is_injective};

verus! {

/// A range that is known not to be empty.
struct Span {
    start: u64,
    end: u64,
}

impl Ranked for Span {
    closed spec fn rank(&self) -> Seq<int> {
        seq![self.start as int]
    }

    fn precedes(&self, other: &Self) -> (result: bool) {
        proof {
            spans_compare(*self, *other);
        }
        self.start < other.start
    }
}

proof fn spans_compare(a: Span, b: Span)
    ensures
        crate::order::before(a.rank(), b.rank()) == (a.start < b.start),
        a.rank() == b.rank() <==> a.start == b.start,
{
    reveal_with_fuel(crate::order::before, 2);
    assert(a.rank()[0] == a.start && b.rank()[0] == b.start);
    if a.start == b.start {
        assert(a.rank() =~= b.rank());
    }
}

spec fn spans_cover(spans: Seq<Span>, place: int) -> bool {
    exists|i: int| 0 <= i < spans.len() && (#[trigger] spans[i]).start <= place < spans[i].end
}

/// The place lies in one of the ranges.
pub open spec fn covers(ranges: Seq<FileRange>, place: int) -> bool {
    exists|i: int|
        0 <= i < ranges.len() && (#[trigger] ranges[i]).start() <= place < ranges[i].start()
            + ranges[i].size()
}

/// The place lies in one of the given ranges.
pub open spec fn given_covers(ranges: Seq<Range<u64>>, place: int) -> bool {
    exists|i: int|
        0 <= i < ranges.len() && (#[trigger] ranges[i]).start <= place < ranges[i].end
}

/// The ranges are not empty, stand in order, and neither overlap nor touch.
pub open spec fn separated(ranges: Seq<FileRange>) -> bool {
    &&& forall|i: int| 0 <= i < ranges.len() ==> (#[trigger] ranges[i]).size() > 0
    &&& forall|i: int, j: int|
        0 <= i < j < ranges.len() ==> (#[trigger] ranges[i]).start() + ranges[i].size() < (
        #[trigger] ranges[j]).start()
}

/// What is wrong with the first bad range.
pub open spec fn given_fault(ranges: Seq<Range<u64>>) -> Option<Fault>
    decreases ranges.len(),
{
    if ranges.len() == 0 {
        None
    } else if given_fault(ranges.drop_last()) is Some {
        given_fault(ranges.drop_last())
    } else if ranges.last().end < ranges.last().start {
        Some(invalid("record Managed file mutation", "changed range is invalid"))
    } else if ranges.last().end == ranges.last().start {
        Some(range_fault())
    } else {
        None
    }
}

proof fn fault_stands(ranges: Seq<Range<u64>>, count: int)
    requires
        0 <= count <= ranges.len(),
        given_fault(ranges.take(count)) is Some,
    ensures
        given_fault(ranges) == given_fault(ranges.take(count)),
    decreases ranges.len() - count,
{
    if count == ranges.len() {
        assert(ranges.take(count) =~= ranges);
    } else {
        assert(ranges.take(count + 1).drop_last() =~= ranges.take(count));
        fault_stands(ranges, count + 1);
    }
}

fn check_ranges(ranges: &Vec<Range<u64>>) -> (result: Result<Vec<Span>, Error>)
    ensures
        match result {
            Ok(spans) => {
                &&& given_fault(ranges@) is None
                &&& forall|i: int| 0 <= i < spans@.len() ==> (#[trigger] spans@[i]).start < spans@[i].end
                &&& forall|place: int| #[trigger] spans_cover(spans@, place) <==> given_covers(
                    ranges@,
                    place,
                )
            },
            Err(error) => given_fault(ranges@) == Some(error.fault()),
        },
{
    let mut spans: Vec<Span> = Vec::new();
    let mut index: usize = 0;
    while index < ranges.len()
        invariant
            index <= ranges@.len(),
            spans@.len() == index,
            given_fault(ranges@.take(index as int)) is None,
            forall|i: int|
                0 <= i < index ==> (#[trigger] spans@[i]).start == ranges@[i].start && spans@[i].end
                    == ranges@[i].end && spans@[i].start < spans@[i].end,
        decreases ranges@.len() - index,
    {
        let start: u64 = ranges[index].start;
        let end: u64 = ranges[index].end;
        proof {
            let now = ranges@.take(index + 1);
            assert(now.drop_last() =~= ranges@.take(index as int));
            assert(now.last() == ranges@[index as int]);
            if end <= start {
                fault_stands(ranges@, index + 1);
            }
        }
        if end < start {
            return Err(Error::invalid("record Managed file mutation", "changed range is invalid"));
        }
        if let Err(error) = FileRange::new(start, end - start) {
            return Err(error);
        }
        spans.push(Span { start, end });
        index += 1;
    }
    proof {
        assert(ranges@.take(index as int) =~= ranges@);
        assert forall|place: int| #[trigger] spans_cover(spans@, place) <==> given_covers(
            ranges@,
            place,
        ) by {
            if spans_cover(spans@, place) {
                let i = choose|i: int|
                    0 <= i < spans@.len() && (#[trigger] spans@[i]).start <= place < spans@[i].end;
                assert(ranges@[i].start <= place < ranges@[i].end);
            }
            if given_covers(ranges@, place) {
                let i = choose|i: int|
                    0 <= i < ranges@.len() && (#[trigger] ranges@[i]).start <= place
                        < ranges@[i].end;
                assert(spans@[i].start <= place < spans@[i].end);
            }
        }
    }
    Ok(spans)
}

spec fn in_reach(done: Seq<FileRange>, start: int, end: int, place: int) -> bool {
    covers(done, place) || start <= place < end
}

proof fn push_covers(done: Seq<FileRange>, range: FileRange, place: int)
    ensures
        covers(done.push(range), place) <==> covers(done, place) || range.start() <= place
            < range.start() + range.size(),
{
    let now = done.push(range);
    if covers(done, place) {
        let i = choose|i: int|
            0 <= i < done.len() && (#[trigger] done[i]).start() <= place < done[i].start()
                + done[i].size();
        assert(now[i].start() <= place < now[i].start() + now[i].size());
    }
    if range.start() <= place < range.start() + range.size() {
        assert(now[done.len() as int] == range);
    }
    if covers(now, place) {
        let i = choose|i: int|
            0 <= i < now.len() && (#[trigger] now[i]).start() <= place < now[i].start()
                + now[i].size();
        if i < done.len() {
            assert(done[i].start() <= place < done[i].start() + done[i].size());
        }
    }
}

proof fn next_span_covers(spans: Seq<Span>, count: int, place: int)
    requires
        0 <= count < spans.len(),
    ensures
        spans_cover(spans.take(count + 1), place) <==> spans_cover(spans.take(count), place)
            || spans[count].start <= place < spans[count].end,
{
    let now = spans.take(count + 1);
    let then = spans.take(count);
    if spans_cover(then, place) {
        let i = choose|i: int|
            0 <= i < then.len() && (#[trigger] then[i]).start <= place < then[i].end;
        assert(now[i].start <= place < now[i].end);
    }
    if spans[count].start <= place < spans[count].end {
        assert(now[count] == spans[count]);
    }
    if spans_cover(now, place) {
        let i = choose|i: int|
            0 <= i < now.len() && (#[trigger] now[i]).start <= place < now[i].end;
        if i < count {
            assert(then[i].start <= place < then[i].end);
        }
    }
}

fn join_spans(spans: &Vec<Span>) -> (ranges: Vec<FileRange>)
    requires
        sorted(spans@),
        forall|i: int| 0 <= i < spans@.len() ==> (#[trigger] spans@[i]).start < spans@[i].end,
    ensures
        separated(ranges@),
        forall|place: int| #[trigger] covers(ranges@, place) <==> spans_cover(spans@, place),
{
    let mut done: Vec<FileRange> = Vec::new();
    if spans.len() == 0 {
        return done;
    }
    let mut start: u64 = spans[0].start;
    let mut end: u64 = spans[0].end;
    let mut index: usize = 1;
    proof {
        assert forall|place: int| #[trigger]
            in_reach(done@, start as int, end as int, place) <==> spans_cover(
            spans@.take(1),
            place,
        ) by {
            next_span_covers(spans@, 0, place);
        }
    }
    while index < spans.len()
        invariant
            1 <= index <= spans@.len(),
            sorted(spans@),
            forall|i: int| 0 <= i < spans@.len() ==> (#[trigger] spans@[i]).start < spans@[i].end,
            start < end,
            separated(done@),
            forall|i: int|
                0 <= i < done@.len() ==> (#[trigger] done@[i]).start() + done@[i].size() < start,
            exists|k: int| 0 <= k < index && (#[trigger] spans@[k]).start == start,
            forall|place: int| #[trigger]
                in_reach(done@, start as int, end as int, place) <==> spans_cover(
                    spans@.take(index as int),
                    place,
                ),
        decreases spans@.len() - index,
    {
        let span = &spans[index];
        let ghost before = (done@, start as int, end as int);
        proof {
            let k = choose|k: int| 0 <= k < index && (#[trigger] spans@[k]).start == start;
            spans_compare(spans@[k], *span);
            assert(crate::order::not_after(spans@[k].rank(), spans@[index as int].rank()));
            spans_compare(*span, spans@[k]);
            assert(start <= span.start);
        }
        if span.start <= end {
            if end < span.end {
                end = span.end;
            }
        } else {
            match FileRange::new(start, end - start) {
                Ok(range) => {
                    proof {
                        assert forall|place: int| covers(done@.push(range), place) <==> covers(
                            done@,
                            place,
                        ) || start <= place < end by {
                            push_covers(done@, range, place);
                        }
                    }
                    done.push(range);
                },
                Err(_) => {},
            }
            start = span.start;
            end = span.end;
        }
        proof {
            assert(spans@[index as int].start >= before.1);
            assert forall|place: int| #[trigger]
                in_reach(done@, start as int, end as int, place) <==> spans_cover(
                spans@.take(index + 1),
                place,
            ) by {
                next_span_covers(spans@, index as int, place);
                assert(in_reach(before.0, before.1, before.2, place) <==> spans_cover(
                    spans@.take(index as int),
                    place,
                ));
            }
        }
        index += 1;
    }
    assert(spans@.take(index as int) =~= spans@);
    match FileRange::new(start, end - start) {
        Ok(range) => {
            proof {
                assert forall|place: int| #[trigger]
                    covers(done@.push(range), place) <==> spans_cover(spans@, place) by {
                    push_covers(done@, range, place);
                    assert(in_reach(done@, start as int, end as int, place) <==> spans_cover(
                        spans@,
                        place,
                    ));
                }
            }
            done.push(range);
        },
        Err(_) => {},
    }
    done
}

pub ghost struct EntryView {
    pub path: Seq<char>,
    pub base: ContentId,
    pub ranges: Seq<FileRange>,
}

/// Trusted changed ranges for one immutable staged file publication.
#[derive(Debug)]
pub struct FileChangeSetEntry {
    path: String,
    base: ContentId,
    ranges: Vec<FileRange>,
}

impl FileChangeSetEntry {
    pub closed spec fn view(&self) -> EntryView {
        EntryView { path: self.path@, base: self.base, ranges: self.ranges@ }
    }

    /// Normalize changed ranges and bind them to the previously observed content.
    pub fn new(path: String, base: ContentId, ranges: Vec<Range<u64>>) -> (result: Result<
        Self,
        Error,
    >)
        ensures
            match result {
                Ok(entry) => {
                    &&& path_fault(path@) is None
                    &&& path@.len() > 0
                    &&& given_fault(ranges@) is None
                    &&& entry@.path == path@
                    &&& entry@.base == base
                    &&& separated(entry@.ranges)
                    &&& forall|place: int| #[trigger]
                        covers(entry@.ranges, place) <==> given_covers(ranges@, place)
                },
                Err(error) => if path_fault(path@) is Some {
                    path_fault(path@) == Some(error.fault())
                } else if path@.len() == 0 {
                    error.fault() == invalid(
                        "record Managed file mutation",
                        "changed file path is empty",
                    )
                } else {
                    given_fault(ranges@) == Some(error.fault())
                },
            },
    {
        match validate_portable_path(path.as_str()) {
            Ok(()) => {},
            Err(error) => {
                return Err(error);
            },
        }
        if crate::text::chars_of(path.as_str()).len() == 0 {
            return Err(
                Error::invalid("record Managed file mutation", "changed file path is empty"),
            );
        }
        let spans = match check_ranges(&ranges) {
            Ok(spans) => spans,
            Err(error) => {
                return Err(error);
            },
        };
        let ghost given = spans@;
        let spans = sort(spans);
        proof {
            crate::order::same_by_key_same_items(given, spans@);
            assert forall|i: int| 0 <= i < spans@.len() implies (#[trigger] spans@[i]).start
                < spans@[i].end by {
                assert(spans@.contains(spans@[i]));
                assert(given.contains(spans@[i]));
            }
            assert forall|place: int| #[trigger] spans_cover(spans@, place) <==> spans_cover(
                given,
                place,
            ) by {
                if spans_cover(spans@, place) {
                    let i = choose|i: int|
                        0 <= i < spans@.len() && (#[trigger] spans@[i]).start <= place
                            < spans@[i].end;
                    assert(spans@.contains(spans@[i]));
                    assert(given.contains(spans@[i]));
                }
                if spans_cover(given, place) {
                    let i = choose|i: int|
                        0 <= i < given.len() && (#[trigger] given[i]).start <= place
                            < given[i].end;
                    assert(given.contains(given[i]));
                    assert(spans@.contains(given[i]));
                }
            }
        }
        let ranges = join_spans(&spans);
        Ok(FileChangeSetEntry { path, base, ranges })
    }

    pub fn path(&self) -> (path: &str)
        ensures
            path@ == self@.path,
    {
        self.path.as_str()
    }

    pub fn base(&self) -> (base: ContentId)
        ensures
            base == self@.base,
    {
        self.base
    }

    pub fn ranges(&self) -> (ranges: &Vec<FileRange>)
        ensures
            ranges@ == self@.ranges,
    {
        &self.ranges
    }
}

struct EntryKey<'a> {
    path: &'a str,
}

impl<'a> Ranked for EntryKey<'a> {
    closed spec fn rank(&self) -> Seq<int> {
        text_rank(self.path@)
    }

    fn precedes(&self, other: &Self) -> (result: bool) {
        text_precedes(self.path, other.path)
    }
}

/// Two entries name one path.
pub open spec fn names_twice(entries: Seq<FileChangeSetEntry>) -> bool {
    exists|i: int, j: int|
        0 <= i < j < entries.len() && (#[trigger] entries[i])@.path == (#[trigger] entries[j])@.path
}

/// Complete trusted regular-file change set for one publication.
#[derive(Debug)]
pub struct FileChangeSet {
    entries: Vec<FileChangeSetEntry>,
}

impl FileChangeSet {
    pub closed spec fn view(&self) -> Seq<FileChangeSetEntry> {
        self.entries@
    }

    #[verifier::type_invariant]
    spec fn names_each_once(self) -> bool {
        !names_twice(self.entries@)
    }

    pub fn new(entries: Vec<FileChangeSetEntry>) -> (result: Result<Self, Error>)
        ensures
            match result {
                Ok(changes) => !names_twice(entries@) && changes@ == entries@,
                Err(error) => names_twice(entries@) && error.fault() == invalid(
                    "synchronize replica",
                    "one file has more than one mutation input",
                ),
            },
    {
        let mut keys: Vec<EntryKey<'_>> = Vec::new();
        let mut index: usize = 0;
        while index < entries.len()
            invariant
                index <= entries@.len(),
                keys@.len() == index,
                forall|i: int| 0 <= i < index ==> (#[trigger] keys@[i]).path@ == entries@[i]@.path,
            decreases entries@.len() - index,
        {
            keys.push(EntryKey { path: entries[index].path() });
            index += 1;
        }
        let ghost listed = keys@;
        proof {
            if names_twice(entries@) {
                let (i, j) = choose|i: int, j: int|
                    0 <= i < j < entries@.len() && (#[trigger] entries@[i])@.path == (
                    #[trigger] entries@[j])@.path;
                assert(listed[i].rank() == listed[j].rank());
            }
            if repeats_key(listed) {
                let (i, j) = choose|i: int, j: int|
                    0 <= i < j < listed.len() && #[trigger] listed[i].rank()
                        == #[trigger] listed[j].rank();
                text_rank_is_injective(listed[i].path@, listed[j].path@);
                assert(entries@[i]@.path == entries@[j]@.path);
            }
        }
        if has_repeated_key(keys) {
            return Err(
                Error::invalid("synchronize replica", "one file has more than one mutation input"),
            );
        }
        Ok(FileChangeSet { entries })
    }

    pub fn is_empty(&self) -> (result: bool)
        ensures
            result == (self@.len() == 0),
    {
        self.entries.len() == 0
    }

    pub fn entries(&self) -> (entries: &Vec<FileChangeSetEntry>)
        ensures
            entries@ == self@,
            !names_twice(entries@),
    {
        proof {
            use_type_invariant(self);
        }
        &self.entries
    }
}

impl Default for FileChangeSet {
    fn default() -> (changes: Self)
        ensures
            changes@.len() == 0,
    {
        FileChangeSet { entries: Vec::new() }
    }
}

/// Non-authoritative hint that a path may have changed.
#[derive(Debug)]
pub struct LocalChangeHint {
    pub path: String,
}

/// Explicit conflict resolution by publishing the current local path.
#[derive(Debug)]
pub struct ConflictResolution {
    pub path: String,
}

/// User-visible sync request assembled by the command layer.
#[derive(Debug)]
pub struct SyncRequest {
    pub resolve: Vec<String>,
    pub change_set: Option<FileChangeSet>,
}

/// Normalized ranges are determined by the places that they cover.
pub proof fn normal_ranges_are_one(left: Seq<FileRange>, right: Seq<FileRange>, count: int)
    requires
        separated(left),
        separated(right),
        forall|place: int| #[trigger] covers(left, place) <==> covers(right, place),
        0 <= count < left.len(),
    ensures
        count < right.len(),
        left[count].start() == right[count].start(),
        left[count].size() == right[count].size(),
    decreases count,
{
    if count > 0 {
        normal_ranges_are_one(left, right, count - 1);
    }
    let range = left[count];
    let start = range.start() as int;
    let end = range.start() + range.size();
    assert(covers(left, start)) by {
        assert(left[count].start() <= start < end);
    }
    let k = choose|k: int|
        0 <= k < right.len() && (#[trigger] right[k]).start() <= start < right[k].start()
            + right[k].size();
    assert(k >= count) by {
        if k < count - 1 {
            assert(right[k].start() + right[k].size() < right[count - 1].start());
        }
    }
    let other = right[count];
    if k > count {
        assert(other.start() + other.size() < right[k].start());
    }
    assert(other.start() <= start);
    assert(covers(right, other.start() as int)) by {
        assert(right[count].start() <= other.start());
    }
    assert(covers(left, other.start() as int));
    let m = choose|m: int|
        0 <= m < left.len() && (#[trigger] left[m]).start() <= other.start() < left[m].start()
            + left[m].size();
    if count > 0 {
        assert(right[count - 1].start() + right[count - 1].size() < other.start());
    }
    if m < count {
        if m < count - 1 {
            assert(left[m].start() + left[m].size() < left[count - 1].start());
        }
    } else if m > count {
        assert(end < left[m].start());
    }
    assert(m == count);
    assert(other.start() == start);
    let far = other.start() + other.size();
    if end < far {
        assert(right[count].start() <= end < far);
        assert(covers(right, end));
        assert(covers(left, end));
        let n = choose|n: int|
            0 <= n < left.len() && (#[trigger] left[n]).start() <= end < left[n].start()
                + left[n].size();
        if n < count {
            assert(left[n].start() + left[n].size() < left[count].start());
        } else if n > count {
            assert(end < left[n].start());
        }
    } else if far < end {
        assert(left[count].start() <= far < end);
        assert(covers(left, far));
        let n = choose|n: int|
            0 <= n < right.len() && (#[trigger] right[n]).start() <= far < right[n].start()
                + right[n].size();
        if n < count {
            assert(right[n].start() + right[n].size() < right[count].start());
        } else if n > count {
            assert(far < right[n].start());
        }
    }
}

proof fn given_is_sound(ranges: Seq<Range<u64>>)
    ensures
        given_fault(ranges) is None <==> forall|i: int|
            0 <= i < ranges.len() ==> (#[trigger] ranges[i]).start < ranges[i].end,
    decreases ranges.len(),
{
    if ranges.len() > 0 {
        let rest = ranges.drop_last();
        given_is_sound(rest);
        assert(forall|i: int| 0 <= i < rest.len() ==> #[trigger] rest[i] == ranges[i]);
        if given_fault(ranges) is None {
            assert forall|i: int| 0 <= i < ranges.len() implies (#[trigger] ranges[i]).start
                < ranges[i].end by {
                if i < rest.len() {
                    assert(rest[i] == ranges[i]);
                }
            }
        }
        if forall|i: int|
            0 <= i < ranges.len() ==> (#[trigger] ranges[i]).start < ranges[i].end {
            assert forall|i: int| 0 <= i < rest.len() implies (#[trigger] rest[i]).start
                < rest[i].end by {
                assert(rest[i] == ranges[i]);
            }
            let last = ranges.len() - 1;
            assert(ranges[last].start < ranges[last].end);
        }
    }
}

/// Changes of a file are accepted exactly for a portable path other than the root and ranges
/// that are not empty. They keep the path and the base, and cover the places that were given and
/// no other, in order and without touching.
pub proof fn accepted_changes_cover_what_was_given(
    path: String,
    base: ContentId,
    ranges: Vec<Range<u64>>,
    result: Result<FileChangeSetEntry, Error>,
    place: int,
)
    requires
        call_ensures(FileChangeSetEntry::new, (path, base, ranges), result),
    ensures
        result is Ok <==> path_fault(path@) is None && path@.len() > 0 && forall|i: int|
            0 <= i < ranges@.len() ==> (#[trigger] ranges@[i]).start < ranges@[i].end,
        result matches Ok(entry) ==> {
            let kept = entry@.ranges;
            &&& entry@.path == path@
            &&& entry@.base == base
            &&& (exists|i: int|
                0 <= i < kept.len() && (#[trigger] kept[i]).start() <= place < kept[i].start()
                    + kept[i].size()) <==> exists|i: int|
                0 <= i < ranges@.len() && (#[trigger] ranges@[i]).start <= place < ranges@[i].end
            &&& forall|i: int, j: int|
                0 <= i < j < kept.len() ==> (#[trigger] kept[i]).start() + kept[i].size() < (
                #[trigger] kept[j]).start()
        },
{
    given_is_sound(ranges@);
    if let Ok(entry) = result {
        assert(covers(entry@.ranges, place) <==> given_covers(ranges@, place));
    }
}

/// A set of changes names each file once, and holds the changes as they were given.
pub proof fn change_sets_name_each_file_once(
    entries: Vec<FileChangeSetEntry>,
    result: Result<FileChangeSet, Error>,
)
    requires
        call_ensures(FileChangeSet::new, (entries,), result),
    ensures
        result is Ok <==> forall|i: int, j: int|
            0 <= i < j < entries@.len() ==> (#[trigger] entries@[i])@.path != (
            #[trigger] entries@[j])@.path,
        result matches Ok(changes) ==> changes@ == entries@,
{
}

} // verus!
