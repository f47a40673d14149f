//! Extent runs: reading them as one mapping, writing them, and layering patches.

use vstd::prelude::*;

use crate::error::{corrupt, invalid, Error, Fault};
use crate::extents::{
    all_fit, coalesce_file_extents, combined, continues, disjoint, mappings_view, resolve,
    resolve_first, resolve_none, run_at, run_at_mapping, run_covers, runs_sound, runs_view,
    ExtentMapping, FileExtentReader, MappingView,
};
use crate::filesystem::FileRange;

verus! {

/// The mappings say of every place from `start` to `end` what the runs say of it, no
/// mapping could be joined with its neighbour, and they stay within the two places.
pub open spec fn canonical(
    mappings: Seq<MappingView>,
    runs: Seq<Seq<MappingView>>,
    start: int,
    end: int,
) -> bool {
    &&& all_fit(mappings)
    &&& disjoint(mappings)
    &&& forall|i: int|
        0 <= i < mappings.len() ==> start <= (#[trigger] mappings[i]).offset && mappings[i].end()
            <= end
    &&& forall|i: int, j: int|
        0 <= i && j == i + 1 && j < mappings.len() ==> !continues(
            #[trigger] mappings[i],
            #[trigger] mappings[j],
        )
    &&& forall|place: int|
        start <= place < end ==> #[trigger] resolve(runs, place) == (if run_covers(
            mappings,
            place,
        ) {
            run_at(mappings, place)
        } else {
            None
        })
}

/// The next mapping of the runs, behind the canonical ones so far.
proof fn canonical_pushed(
    mappings: Seq<MappingView>,
    runs: Seq<Seq<MappingView>>,
    start: int,
    end: int,
    next: MappingView,
)
    requires
        canonical(mappings, runs, start, end),
        start <= end <= next.offset,
        next.fits(),
        forall|place: int| end <= place < next.offset ==> #[trigger] resolve(runs, place) is None,
        forall|place: int|
            next.covers(place) ==> #[trigger] resolve(runs, place) == Some(next.at(place)),
        mappings.len() > 0 ==> !continues(mappings.last(), next),
    ensures
        canonical(mappings.push(next), runs, start, next.end()),
{
    let all = mappings.push(next);
    assert forall|i: int, j: int| 0 <= i < j < all.len() implies (#[trigger] all[i]).end() <= (
    #[trigger] all[j]).offset by {
        if j < mappings.len() {
            assert(mappings[i].end() <= mappings[j].offset);
        } else {
            assert(mappings[i].end() <= end);
        }
    }
    assert forall|place: int| start <= place < next.end() implies #[trigger] resolve(runs, place)
        == (if run_covers(all, place) {
        run_at(all, place)
    } else {
        None
    }) by {
        if run_covers(mappings, place) {
            let k = choose|k: int|
                0 <= k < mappings.len() && (#[trigger] mappings[k]).covers(place);
            assert(all[k] == mappings[k]);
            assert(all[k].covers(place));
            run_at_mapping(all, k, place);
            run_at_mapping(mappings, k, place);
        } else if next.covers(place) {
            assert(all[mappings.len() as int].covers(place));
            run_at_mapping(all, mappings.len() as int, place);
        } else if run_covers(all, place) {
            let k = choose|k: int| 0 <= k < all.len() && (#[trigger] all[k]).covers(place);
            assert(mappings[k].covers(place));
        }
    }
}

/// The next mapping of the runs, joined to the last of the canonical ones so far.
proof fn canonical_joined(
    mappings: Seq<MappingView>,
    runs: Seq<Seq<MappingView>>,
    start: int,
    end: int,
    next: MappingView,
)
    requires
        canonical(mappings, runs, start, end),
        start <= end <= next.offset,
        next.fits(),
        forall|place: int| end <= place < next.offset ==> #[trigger] resolve(runs, place) is None,
        forall|place: int|
            next.covers(place) ==> #[trigger] resolve(runs, place) == Some(next.at(place)),
        mappings.len() > 0,
        continues(mappings.last(), next),
    ensures
        canonical(
            mappings.drop_last().push(combined(mappings.last(), next)),
            runs,
            start,
            next.end(),
        ),
{
    let last = mappings.last();
    let joined = combined(last, next);
    let all = mappings.drop_last().push(joined);
    let top = mappings.len() - 1;
    assert(last == mappings[top]);
    assert(last.fits());
    assert(joined.fits());
    assert forall|i: int, j: int| 0 <= i < j < all.len() implies (#[trigger] all[i]).end() <= (
    #[trigger] all[j]).offset by {
        assert(mappings[i].end() <= mappings[j].offset);
    }
    assert forall|i: int, j: int| 0 <= i && j == i + 1 && j < all.len() implies !continues(
        #[trigger] all[i],
        #[trigger] all[j],
    ) by {
        assert(!continues(mappings[i], mappings[j]));
    }
    assert forall|place: int| start <= place < next.end() implies #[trigger] resolve(runs, place)
        == (if run_covers(all, place) {
        run_at(all, place)
    } else {
        None
    }) by {
        if joined.covers(place) {
            assert(all[top].covers(place));
            run_at_mapping(all, top, place);
            if last.covers(place) {
                assert(mappings[top].covers(place));
                run_at_mapping(mappings, top, place);
            }
        } else if run_covers(mappings, place) {
            let k = choose|k: int|
                0 <= k < mappings.len() && (#[trigger] mappings[k]).covers(place);
            assert(k < top);
            assert(all[k] == mappings[k]);
            assert(all[k].covers(place));
            run_at_mapping(all, k, place);
            run_at_mapping(mappings, k, place);
        } else if run_covers(all, place) {
            let k = choose|k: int| 0 <= k < all.len() && (#[trigger] all[k]).covers(place);
            assert(mappings[k].covers(place));
        }
    }
}

/// The mappings say all that the runs say from a place on.
pub open spec fn canonical_from(
    mappings: Seq<MappingView>,
    runs: Seq<Seq<MappingView>>,
    start: int,
) -> bool {
    forall|end: int| u64::MAX < end ==> #[trigger] canonical(mappings, runs, start, end)
}

/// All that the runs, newest first, say of the file from a place on, as one canonical run.
pub fn canonical_extents(runs: Vec<Vec<ExtentMapping>>, start: u64) -> (mappings: Vec<
    ExtentMapping,
>)
    requires
        runs_sound(runs_view(runs@)),
    ensures
        canonical_from(mappings_view(mappings@), runs_view(runs@), start as int),
{
    let ghost layers = runs_view(runs@);
    let mut reader = FileExtentReader::new(runs, start);
    let mut mappings: Vec<ExtentMapping> = Vec::new();
    assert(canonical(mappings_view(mappings@), layers, start as int, start as int));
    loop
        invariant_except_break
            reader.wf(),
            reader.runs() == layers,
            reader.floor() >= start,
            canonical(
                mappings_view(mappings@),
                layers,
                start as int,
                reader.floor() as int,
            ),
        ensures
            forall|end: int|
                u64::MAX < end ==> #[trigger] canonical(
                    mappings_view(mappings@),
                    layers,
                    start as int,
                    end,
                ),
        decreases u64::MAX - reader.floor(),
    {
        let ghost floor = reader.floor() as int;
        let next = match reader.next_raw() {
            Some(next) => next,
            None => {
                proof {
                    let views = mappings_view(mappings@);
                    assert forall|end: int| u64::MAX < end implies #[trigger] canonical(
                        views,
                        layers,
                        start as int,
                        end,
                    ) by {
                        assert forall|place: int| start <= place < end implies #[trigger] resolve(
                            layers,
                            place,
                        ) == (if run_covers(views, place) {
                            run_at(views, place)
                        } else {
                            None
                        }) by {
                            if floor <= place && run_covers(views, place) {
                                let k = choose|k: int|
                                    0 <= k < views.len() && (#[trigger] views[k]).covers(place);
                                assert(views[k].end() <= floor);
                            }
                        }
                    }
                }
                break ;
            },
        };
        let ghost views = mappings_view(mappings@);
        let ghost next_view = next@;
        match mappings.pop() {
            None => {
                proof {
                    canonical_pushed(views, layers, start as int, floor, next_view);
                }
                mappings.push(next);
                assert(mappings_view(mappings@) =~= views.push(next_view));
            },
            Some(last) => {
                assert(views.last() == last@);
                match coalesce_file_extents(last, next) {
                    Ok(joined) => {
                        proof {
                            canonical_joined(views, layers, start as int, floor, next_view);
                        }
                        mappings.push(joined);
                        assert(mappings_view(mappings@) =~= views.drop_last().push(
                            combined(views.last(), next_view),
                        ));
                    },
                    Err((last, next)) => {
                        proof {
                            canonical_pushed(views, layers, start as int, floor, next_view);
                        }
                        mappings.push(last);
                        mappings.push(next);
                        assert(mappings_view(mappings@) =~= views.push(next_view));
                    },
                }
            },
        }
    }
    mappings
}

/// A canonical run by itself says what the runs say that it was made of.
pub proof fn canonical_resolves(
    mappings: Seq<MappingView>,
    runs: Seq<Seq<MappingView>>,
    start: int,
    end: int,
    place: int,
)
    requires
        canonical(mappings, runs, start, end),
        start <= place < end,
    ensures
        resolve(seq![mappings], place) == resolve(runs, place),
{
    let single = seq![mappings];
    assert(single[0] == mappings);
    if run_covers(mappings, place) {
        resolve_first(single, 0, place);
    } else {
        resolve_none(single, place);
    }
    assert(resolve(runs, place) == (if run_covers(mappings, place) {
        run_at(mappings, place)
    } else {
        None
    }));
}

/// Runs in front decide before runs behind.
pub proof fn resolve_layered(
    front: Seq<Seq<MappingView>>,
    back: Seq<Seq<MappingView>>,
    place: int,
)
    ensures
        resolve(front + back, place) == (if resolve(front, place) is Some {
            resolve(front, place)
        } else {
            resolve(back, place)
        }),
    decreases front.len(),
{
    if front.len() == 0 {
        assert(front + back =~= back);
    } else {
        let all = front + back;
        assert(all[0] == front[0]);
        assert(all.skip(1) =~= front.skip(1) + back);
        resolve_layered(front.skip(1), back, place);
    }
}

/// Replacing the newest runs by one run that says the same changes nothing.
pub proof fn merging_newest_keeps_resolution(
    newest: Seq<Seq<MappingView>>,
    merged: Seq<MappingView>,
    older: Seq<Seq<MappingView>>,
    place: int,
)
    requires
        resolve(seq![merged], place) == resolve(newest, place),
    ensures
        resolve(seq![merged] + older, place) == resolve(newest + older, place),
{
    resolve_layered(seq![merged], older, place);
    resolve_layered(newest, older, place);
}

/// A patch says where the bytes are that it covers; all others are where they were.
pub proof fn patches_leave_the_rest(
    patch: Seq<MappingView>,
    older: Seq<Seq<MappingView>>,
    place: int,
)
    ensures
        resolve(seq![patch] + older, place) == (if run_covers(patch, place) {
            run_at(patch, place)
        } else {
            resolve(older, place)
        }),
{
    let all = seq![patch] + older;
    assert(all[0] == patch);
    assert(all.skip(1) =~= older);
}

pub open spec fn run_corrupt(message: &str) -> Fault {
    corrupt("read Managed file extent run", message)
}

/// The first `count` records are in order and within the span.
pub open spec fn records_within(
    records: Seq<MappingView>,
    span_start: int,
    span_end: int,
) -> bool {
    &&& disjoint(records)
    &&& forall|i: int|
        0 <= i < records.len() ==> span_start <= (#[trigger] records[i]).offset && records[i].end()
            <= span_end
}

/// What is wrong with the records of a run.
pub open spec fn records_fault(
    records: Seq<MappingView>,
    span_start: int,
    span_end: int,
) -> Option<Fault> {
    if !records_within(records, span_start, span_end) {
        Some(run_corrupt("extent records overlap or fall outside the run span"))
    } else if records.len() == 0 || records.last().end() != span_end {
        Some(run_corrupt("extent records do not match the run span"))
    } else {
        None
    }
}

/// Check the records of one run against its span.
pub fn check_run(span: FileRange, records: &[ExtentMapping]) -> (result: Result<(), Error>)
    ensures
        ({
            let end = span.start() + span.size();
            match result {
                Ok(()) => records_fault(mappings_view(records@), span.start() as int, end) is None,
                Err(error) => records_fault(mappings_view(records@), span.start() as int, end)
                    == Some(error.fault()),
            }
        }),
{
    let ghost views = mappings_view(records@);
    let start: u64 = span.offset();
    let end: u64 = match span.end() {
        Ok(end) => end,
        Err(error) => {
            return Err(error);
        },
    };
    let mut index: usize = 0;
    while index < records.len()
        invariant
            views == mappings_view(records@),
            index <= records@.len(),
            start == span.start(),
            end == span.start() + span.size(),
            records_within(views.take(index as int), start as int, end as int),
        decreases records@.len() - index,
    {
        let record = &records[index];
        let ghost so_far = views.take(index as int);
        let ghost now = views.take(index + 1);
        assert(now[index as int] == record@);
        let overlaps = index > 0 && record.offset() < records[index - 1].end();
        let record_end: u64 = record.end();
        if overlaps || record.offset() < start || record_end > end {
            proof {
                if overlaps {
                    let prior = index - 1;
                    assert(views[prior].end() > views[index as int].offset);
                }
                assert(views[index as int] == record@);
            }
            return Err(
                Error::corrupt(
                    "read Managed file extent run",
                    "extent records overlap or fall outside the run span",
                ),
            );
        }
        proof {
            assert forall|i: int, j: int| 0 <= i < j < now.len() implies (#[trigger] now[i]).end()
                <= (#[trigger] now[j]).offset by {
                if j < index {
                    assert(so_far[i].end() <= so_far[j].offset);
                } else if i < index - 1 {
                    let prior = index - 1;
                    assert(so_far[i].end() <= so_far[prior].offset);
                    assert(so_far[prior] == records@[prior]@);
                    assert(now[i] == so_far[i]);
                } else {
                    assert(now[i] == records@[i]@);
                }
            }
            assert forall|i: int| 0 <= i < now.len() implies start <= (#[trigger] now[i]).offset
                && now[i].end() <= end by {
                if i < index {
                    assert(so_far[i] == now[i]);
                }
            }
        }
        index += 1;
    }
    assert(views.take(index as int) =~= views);
    let count: usize = records.len();
    if count == 0 || records[count - 1].end() != end {
        return Err(
            Error::corrupt(
                "read Managed file extent run",
                "extent records do not match the run span",
            ),
        );
    }
    Ok(())
}

/// The number of places that mappings cover, if they do not overlap.
pub open spec fn covered_count(run: Seq<MappingView>) -> int
    decreases run.len(),
{
    if run.len() == 0 {
        0
    } else {
        covered_count(run.drop_last()) + run.last().length
    }
}

/// The mappings leave no gap between each other.
pub open spec fn gapless(run: Seq<MappingView>) -> bool
    decreases run.len(),
{
    run.len() <= 1 || (gapless(run.drop_last()) && run[run.len() - 2].end() == run.last().offset)
}

/// A disjoint run covers no more places than lie between its ends, and all of them if and
/// only if it has no gap.
pub proof fn coverage_is_bounded(run: Seq<MappingView>)
    requires
        disjoint(run),
        all_fit(run),
        run.len() > 0,
    ensures
        covered_count(run) <= run.last().end() - run[0].offset,
        covered_count(run) == run.last().end() - run[0].offset <==> gapless(run),
    decreases run.len(),
{
    if run.len() == 1 {
        assert(covered_count(run.drop_last()) == 0);
    } else {
        let front = run.drop_last();
        assert(disjoint(front)) by {
            assert forall|i: int, j: int| 0 <= i < j < front.len() implies (
            #[trigger] front[i]).end() <= (#[trigger] front[j]).offset by {
                assert(run[i].end() <= run[j].offset);
            }
        }
        assert forall|i: int| 0 <= i < front.len() implies (#[trigger] front[i]).fits() by {
            assert(run[i].fits());
        }
        coverage_is_bounded(front);
        let last = run.len() - 1;
        let prior = run.len() - 2;
        assert(run[prior].end() <= run[last].offset);
        assert(front.last() == run[prior]);
    }
}

/// The mappings of the run that takes the place of some runs, newest first. A run that stands
/// alone stays as it is.
pub fn materialize_runs(runs: Vec<Vec<ExtentMapping>>) -> (result: Result<
    Vec<ExtentMapping>,
    Error,
>)
    requires
        runs_sound(runs_view(runs@)),
    ensures
        match result {
            Ok(mappings) => if runs@.len() == 1 {
                mappings_view(mappings@) == runs_view(runs@)[0]
            } else {
                &&& runs@.len() > 1
                &&& mappings@.len() > 0
                &&& forall|end: int|
                    u64::MAX < end ==> #[trigger] canonical(
                        mappings_view(mappings@),
                        runs_view(runs@),
                        0,
                        end,
                    )
            },
            Err(error) => if runs@.len() == 0 {
                error.fault() == invalid(
                    "merge Managed file extent runs",
                    "extent-run merge is empty",
                )
            } else {
                &&& runs@.len() > 1
                &&& forall|place: int|
                    0 <= place <= u64::MAX ==> #[trigger] resolve(runs_view(runs@), place) is None
                &&& error.fault() == corrupt(
                    "merge Managed file extent runs",
                    "extent-run overlay is empty",
                )
            },
        },
{
    let ghost layers = runs_view(runs@);
    if runs.len() == 0 {
        return Err(Error::invalid("merge Managed file extent runs", "extent-run merge is empty"));
    }
    if runs.len() == 1 {
        let mut runs = runs;
        let run = runs.pop().unwrap();
        return Ok(run);
    }
    let mappings = canonical_extents(runs, 0);
    if mappings.len() == 0 {
        proof {
            let end = u64::MAX + 1;
            assert(canonical(mappings_view(mappings@), layers, 0, end));
            assert forall|place: int| 0 <= place <= u64::MAX implies #[trigger] resolve(
                layers,
                place,
            ) is None by {
                assert(!run_covers(mappings_view(mappings@), place));
            }
        }
        return Err(
            Error::corrupt("merge Managed file extent runs", "extent-run overlay is empty"),
        );
    }
    Ok(mappings)
}

/// Forward-only writer for one canonical extent run.
pub struct ExtentRunWriter {
    first: Option<ExtentMapping>,
    previous_end: Option<u64>,
    covered_bytes: u64,
    written: Ghost<Seq<MappingView>>,
}

pub open spec fn write_fault() -> Fault {
    invalid("write Managed file extent run", "file extents overlap or are out of order")
}

impl ExtentRunWriter {
    /// The mappings that were written.
    pub closed spec fn view(&self) -> Seq<MappingView> {
        self.written@
    }

    #[verifier::type_invariant]
    spec fn is_run(self) -> bool {
        let run = self.written@;
        &&& disjoint(run)
        &&& all_fit(run)
        &&& self.covered_bytes == covered_count(run)
        &&& match (self.first, self.previous_end) {
            (Some(first), Some(end)) => run.len() > 0 && first@ == run[0] && end
                == run.last().end(),
            (None, None) => run.len() == 0,
            _ => false,
        }
    }

    pub fn new() -> (writer: Self)
        ensures
            writer@ == Seq::<MappingView>::empty(),
    {
        ExtentRunWriter {
            first: None,
            previous_end: None,
            covered_bytes: 0,
            written: Ghost(Seq::empty()),
        }
    }

    /// Append one mapping. The first one is kept; the others are handed back, to be
    /// written to the tail of the run.
    pub fn write(&mut self, mapping: ExtentMapping) -> (result: Result<Option<ExtentMapping>, Error>)
        ensures
            match result {
                Ok(tail) => {
                    &&& old(self)@.len() > 0 ==> mapping@.offset >= old(self)@.last().end()
                    &&& final(self)@ == old(self)@.push(mapping@)
                    &&& tail == (if old(self)@.len() == 0 {
                        None
                    } else {
                        Some(mapping)
                    })
                },
                Err(error) => {
                    &&& old(self)@.len() > 0
                    &&& mapping@.offset < old(self)@.last().end()
                    &&& error.fault() == write_fault()
                    &&& final(self)@ == old(self)@
                },
            },
    {
        proof {
            use_type_invariant(&*self);
        }
        let end: u64 = mapping.end();
        if let Some(previous) = self.previous_end {
            if mapping.offset() < previous {
                return Err(
                    Error::invalid(
                        "write Managed file extent run",
                        "file extents overlap or are out of order",
                    ),
                );
            }
        }
        let ghost run = self.written@;
        let ghost all = run.push(mapping@);
        proof {
            assert forall|i: int, j: int| 0 <= i < j < all.len() implies (#[trigger] all[i]).end()
                <= (#[trigger] all[j]).offset by {
                if j < run.len() {
                    assert(run[i].end() <= run[j].offset);
                } else if i < run.len() - 1 {
                    let prior = run.len() - 1;
                    assert(run[i].end() <= run[prior].offset);
                    assert(run[prior].fits());
                }
            }
            assert(all_fit(all));
            coverage_is_bounded(all);
            assert(all.drop_last() =~= run);
        }
        let covered_bytes: u64 = self.covered_bytes + mapping.length();
        let first_write = self.first.is_none();
        if first_write {
            *self = ExtentRunWriter {
                first: Some(mapping),
                previous_end: Some(end),
                covered_bytes,
                written: Ghost(all),
            };
            Ok(None)
        } else {
            let mut writer = ExtentRunWriter::new();
            std::mem::swap(&mut writer, self);
            *self = ExtentRunWriter {
                first: writer.first,
                previous_end: Some(end),
                covered_bytes,
                written: Ghost(all),
            };
            Ok(Some(mapping))
        }
    }

    /// Whether the mappings cover exactly one contiguous logical range.
    pub fn covers(&self, range: FileRange) -> (result: bool)
        ensures
            result == (self@.len() > 0 && self@[0].offset == range.start() && self@.last().end()
                == range.start() + range.size() && gapless(self@)),
    {
        proof {
            use_type_invariant(self);
            if self.written@.len() > 0 {
                coverage_is_bounded(self.written@);
            }
        }
        let end: u64 = match range.end() {
            Ok(end) => end,
            Err(_) => {
                return false;
            },
        };
        match (&self.first, self.previous_end) {
            (Some(first), Some(previous_end)) => first.offset() == range.offset() && previous_end
                == end && self.covered_bytes == range.length(),
            _ => false,
        }
    }

    /// The first mapping and the span of the run; nothing for a run without mappings.
    pub fn close(self) -> (result: Option<(ExtentMapping, FileRange)>)
        ensures
            match result {
                None => self@.len() == 0,
                Some((first, span)) => {
                    &&& self@.len() > 0
                    &&& first@ == self@[0]
                    &&& span.start() == self@[0].offset
                    &&& span.start() + span.size() == self@.last().end()
                },
            },
    {
        proof {
            use_type_invariant(&self);
            if self.written@.len() > 0 {
                coverage_is_bounded(self.written@);
                let run = self.written@;
                let last = run.len() - 1;
                assert(run[0].fits() && run[last].fits());
                if last > 0 {
                    assert(run[0].end() <= run[last].offset);
                }
            }
        }
        match (self.first, self.previous_end) {
            (Some(first), Some(end)) => {
                let offset: u64 = first.offset();
                let span = match FileRange::new(offset, end - offset) {
                    Ok(span) => span,
                    Err(_) => first.range(),
                };
                Some((first, span))
            },
            _ => None,
        }
    }
}

// What runs promise.

/// A canonical run says of every place what the runs say that it was made of, behind the place
/// where it begins, and no two of its neighbours could be one mapping.
pub proof fn canonical_runs_say_the_same(
    runs: Vec<Vec<ExtentMapping>>,
    start: u64,
    mappings: Vec<ExtentMapping>,
    place: int,
    index: int,
)
    requires
        runs_sound(runs_view(runs@)),
        call_ensures(canonical_extents, (runs, start), mappings),
        start <= place <= u64::MAX,
    ensures
        resolve(seq![mappings_view(mappings@)], place) == resolve(runs_view(runs@), place),
        0 < index < mappings@.len() ==> {
            let left = mappings@[index - 1]@;
            let right = mappings@[index]@;
            &&& left.offset + left.length <= right.offset
            &&& left.offset + left.length == right.offset ==> left.extent != right.extent
                || left.extent_offset + left.length != right.extent_offset
        },
{
    let end: int = u64::MAX + 1;
    let views = mappings_view(mappings@);
    assert(canonical_from(views, runs_view(runs@), start as int));
    assert(canonical(views, runs_view(runs@), start as int, end));
    canonical_resolves(views, runs_view(runs@), start as int, end, place);
    if 0 < index < mappings@.len() {
        let before = index - 1;
        assert(views[before] == mappings@[before]@ && views[index] == mappings@[index]@);
        assert(!continues(views[before], views[index]));
    }
}

/// Merging runs loses no byte and moves none: where the merge succeeds, the merged run says of
/// every place what the runs said, the newest first; it fails only where they say nothing.
pub proof fn merged_runs_say_the_same(
    runs: Vec<Vec<ExtentMapping>>,
    result: Result<Vec<ExtentMapping>, Error>,
    place: int,
)
    requires
        runs_sound(runs_view(runs@)),
        call_ensures(materialize_runs, (runs,), result),
        0 <= place <= u64::MAX,
    ensures
        result matches Ok(mappings) ==> resolve(seq![mappings_view(mappings@)], place) == resolve(
            runs_view(runs@),
            place,
        ),
        result is Err ==> resolve(runs_view(runs@), place) is None,
        runs@.len() == 0 ==> result is Err,
        runs@.len() == 1 ==> result is Ok,
{
    if let Ok(mappings) = result {
        let views = mappings_view(mappings@);
        if runs@.len() == 1 {
            assert(runs_view(runs@) =~= seq![views]);
        } else {
            let end = u64::MAX + 1;
            assert(canonical(views, runs_view(runs@), 0, end));
            canonical_resolves(views, runs_view(runs@), 0, end, place);
        }
    }
}

/// The records of a run are accepted exactly if they stand in the order of the file without
/// overlapping, all within the span, and end where it ends.
pub proof fn accepted_records_fit_their_span(
    span: FileRange,
    records: &[ExtentMapping],
    result: Result<(), Error>,
)
    requires
        call_ensures(check_run, (span, records), result),
    ensures
        result is Ok <==> {
            &&& records@.len() > 0
            &&& forall|i: int, j: int|
                0 <= i < j < records@.len() ==> (#[trigger] records@[i])@.offset
                    + records@[i]@.length <= (#[trigger] records@[j])@.offset
            &&& forall|i: int|
                0 <= i < records@.len() ==> span.start() <= (#[trigger] records@[i])@.offset
                    && records@[i]@.offset + records@[i]@.length <= span.start() + span.size()
            &&& records@.last()@.offset + records@.last()@.length == span.start() + span.size()
        },
{
    let views = mappings_view(records@);
    assert(forall|i: int| 0 <= i < records@.len() ==> #[trigger] views[i] == records@[i]@);
    assert(forall|i: int| 0 <= i < records@.len() ==> views[i] == (#[trigger] records@[i])@);
}

/// A writer takes a mapping exactly if it begins no earlier than the last one ends; the first
/// one it keeps, any other it hands back for the tail.
pub proof fn a_writer_goes_forward(
    writer: &mut ExtentRunWriter,
    mapping: ExtentMapping,
    result: Result<Option<ExtentMapping>, Error>,
)
    requires
        call_ensures(ExtentRunWriter::write, (writer, mapping), result),
    ensures
        result is Ok <==> old(writer)@.len() == 0 || old(writer)@.last().offset
            + old(writer)@.last().length <= mapping@.offset,
        result is Ok ==> {
            &&& final(writer)@.len() == old(writer)@.len() + 1
            &&& final(writer)@.drop_last() == old(writer)@
            &&& final(writer)@.last() == mapping@
        },
        result is Err ==> final(writer)@ == old(writer)@,
        result matches Ok(None) ==> old(writer)@.len() == 0,
        result matches Ok(Some(tail)) ==> old(writer)@.len() > 0 && tail@ == mapping@,
{
    if result is Ok {
        assert(final(writer)@.drop_last() =~= old(writer)@);
    }
}

/// A run that covers a range has all of its places and no other; its span when it is closed is
/// that range.
pub proof fn a_covering_run_has_the_range(
    run: &ExtentRunWriter,
    range: FileRange,
    covers: bool,
    closed: Option<(ExtentMapping, FileRange)>,
    place: int,
)
    requires
        disjoint(run@),
        all_fit(run@),
        call_ensures(ExtentRunWriter::covers, (run, range), covers),
        call_ensures(ExtentRunWriter::close, (*run,), closed),
    ensures
        covers ==> (run_covers(run@, place) <==> range.start() <= place < range.start()
            + range.size()),
        closed is Some <==> run@.len() > 0,
        closed matches Some((first, span)) ==> {
            &&& first@ == run@[0]
            &&& span.start() == run@[0].offset
            &&& span.start() + span.size() == run@.last().offset + run@.last().length
            &&& covers ==> span.start() == range.start() && span.size() == range.size()
        },
{
    if covers {
        if range.start() <= place < range.start() + range.size() {
            gapless_has(run@, place);
        }
        if run_covers(run@, place) {
            let i = choose|i: int| 0 <= i < run@.len() && (#[trigger] run@[i]).covers(place);
            let last = run@.len() - 1;
            assert(run@[0].fits() && run@[i].fits() && run@[last].fits());
            if i > 0 {
                assert(run@[0].end() <= run@[i].offset);
            }
            if i < last {
                assert(run@[i].end() <= run@[last].offset);
            }
        }
    }
}

/// A run without gaps covers every place between its ends.
pub proof fn gapless_has(run: Seq<MappingView>, place: int)
    requires
        gapless(run),
        run.len() > 0,
        run[0].offset <= place < run.last().end(),
    ensures
        run_covers(run, place),
    decreases run.len(),
{
    let last = run.len() - 1;
    if run[last].offset <= place {
        assert(run[last].covers(place));
    } else {
        let rest = run.drop_last();
        assert(rest.last() == run[last - 1]);
        assert(rest[0] == run[0]);
        gapless_has(rest, place);
        let i = choose|i: int| 0 <= i < rest.len() && (#[trigger] rest[i]).covers(place);
        assert(run[i].covers(place));
    }
}

} // verus!
