//! The layers of a file's extent map: one base run under levels of patches.

use vstd::prelude::*;

use crate::error::{corrupt, Error, Fault};
use crate::extents::{resolve, run_covers, ExtentMapping, MappingView};
use crate::filesystem::{ContentId, FileRange};
use crate::model::StreamRef;
use crate::runs::records_within;

verus! {

#[verifier::ext_equal]
pub ghost struct RunView {
    pub start: u64,
    pub size: u64,
    pub inline_extent: MappingView,
    pub continuation: Option<StreamRef>,
}

impl RunView {
    /// The first place behind the span of the run.
    pub open spec fn end(self) -> int {
        self.start + self.size
    }
}

/// A stored run: its span, its first mapping, and where the others are.
#[derive(Debug)]
pub struct ExtentRunRef {
    pub span: FileRange,
    pub inline_extent: ExtentMapping,
    pub continuation: Option<StreamRef>,
}

impl ExtentRunRef {
    pub open spec fn view(&self) -> RunView {
        RunView {
            start: self.span.start(),
            size: self.span.size(),
            inline_extent: self.inline_extent@,
            continuation: self.continuation,
        }
    }

    pub fn same(&self, other: &Self) -> (result: bool)
        ensures
            result == (self@ == other@),
    {
        let same_tail = match (self.continuation, other.continuation) {
            (Some(left), Some(right)) => left == right,
            (None, None) => true,
            _ => false,
        };
        self.span.offset() == other.span.offset() && self.span.length() == other.span.length()
            && self.inline_extent.same(&other.inline_extent) && same_tail
    }
}

impl Clone for ExtentRunRef {
    fn clone(&self) -> (result: Self)
        ensures
            result@ == self@,
    {
        ExtentRunRef {
            span: self.span,
            inline_extent: self.inline_extent.clone(),
            continuation: self.continuation,
        }
    }
}

#[verifier::ext_equal]
pub ghost struct MapView {
    pub base_run: Option<RunView>,
    pub patch_levels: Seq<Option<RunView>>,
}

pub open spec fn run_view(run: Option<ExtentRunRef>) -> Option<RunView> {
    match run {
        Some(run) => Some(run@),
        None => None,
    }
}

pub open spec fn levels_view(levels: Seq<Option<ExtentRunRef>>) -> Seq<Option<RunView>> {
    Seq::new(levels.len(), |i: int| run_view(levels[i]))
}

pub open spec fn run_views(runs: Seq<ExtentRunRef>) -> Seq<RunView> {
    Seq::new(runs.len(), |i: int| runs[i]@)
}

pub open spec fn one_or_none(run: Option<RunView>) -> Seq<RunView> {
    match run {
        Some(run) => seq![run],
        None => Seq::empty(),
    }
}

/// The runs that the levels hold, the first level first.
pub open spec fn present(levels: Seq<Option<RunView>>) -> Seq<RunView>
    decreases levels.len(),
{
    if levels.len() == 0 {
        Seq::empty()
    } else {
        one_or_none(levels[0]) + present(levels.skip(1))
    }
}

pub proof fn present_joined(front: Seq<Option<RunView>>, back: Seq<Option<RunView>>)
    ensures
        present(front + back) == present(front) + present(back),
    decreases front.len(),
{
    if front.len() == 0 {
        assert(front + back =~= back);
        assert(present(front) + present(back) =~= present(back));
    } else {
        let all = front + back;
        assert(all[0] == front[0]);
        assert(all.skip(1) =~= front.skip(1) + back);
        present_joined(front.skip(1), back);
        assert(present(all) =~= present(front) + present(back));
    }
}

proof fn present_of_one(run: Option<RunView>)
    ensures
        present(seq![run]) == one_or_none(run),
{
    let one = seq![run];
    assert(one.skip(1) =~= Seq::empty());
    assert(present(one.skip(1)) =~= Seq::empty());
    assert(present(one) =~= one_or_none(run));
}

/// All runs of a map, newest first.
pub open spec fn runs_of(map: MapView) -> Seq<RunView> {
    present(map.patch_levels) + one_or_none(map.base_run)
}

/// The run has places in common with the range; without a range every run counts.
pub open spec fn run_meets(run: RunView, selection: Option<(u64, u64)>) -> bool {
    match selection {
        None => true,
        Some((start, size)) => run.end() > start && start + size > run.start,
    }
}

pub open spec fn selected(selection: Option<(u64, u64)>) -> spec_fn(RunView) -> bool {
    |run: RunView| run_meets(run, selection)
}

pub open spec fn selection_view(selection: Option<FileRange>) -> Option<(u64, u64)> {
    match selection {
        Some(range) => Some((range.start(), range.size())),
        None => None,
    }
}

/// How the bytes of a file are found: a base run under levels of newer patches.
#[derive(Debug)]
pub struct FileExtentMap {
    pub base_run: Option<ExtentRunRef>,
    pub patch_levels: Vec<Option<ExtentRunRef>>,
}

fn clone_run(run: &Option<ExtentRunRef>) -> (result: Option<ExtentRunRef>)
    ensures
        run_view(result) == run_view(*run),
{
    match run {
        Some(run) => Some(run.clone()),
        None => None,
    }
}

fn same_run(left: &Option<ExtentRunRef>, right: &Option<ExtentRunRef>) -> (result: bool)
    ensures
        result == (run_view(*left) == run_view(*right)),
{
    match (left, right) {
        (Some(left), Some(right)) => left.same(right),
        (None, None) => true,
        _ => false,
    }
}

impl Clone for FileExtentMap {
    fn clone(&self) -> (result: Self)
        ensures
            result@ == self@,
    {
        let mut patch_levels: Vec<Option<ExtentRunRef>> = Vec::new();
        let mut index: usize = 0;
        while index < self.patch_levels.len()
            invariant
                index <= self.patch_levels@.len(),
                patch_levels@.len() == index,
                forall|i: int|
                    0 <= i < index ==> run_view(#[trigger] patch_levels@[i]) == run_view(
                        self.patch_levels@[i],
                    ),
            decreases self.patch_levels@.len() - index,
        {
            let level = clone_run(&self.patch_levels[index]);
            patch_levels.push(level);
            index += 1;
        }
        assert(levels_view(patch_levels@) =~= levels_view(self.patch_levels@));
        FileExtentMap { base_run: clone_run(&self.base_run), patch_levels }
    }
}

impl FileExtentMap {
    pub open spec fn view(&self) -> MapView {
        MapView {
            base_run: run_view(self.base_run),
            patch_levels: levels_view(self.patch_levels@),
        }
    }

    /// The map of an empty file.
    pub fn empty() -> (map: Self)
        ensures
            map@ == (MapView { base_run: None, patch_levels: Seq::empty() }),
    {
        let map = FileExtentMap { base_run: None, patch_levels: Vec::new() };
        assert(map@.patch_levels =~= Seq::empty());
        map
    }

    /// The map of one run.
    pub fn from_base(run: ExtentRunRef) -> (map: Self)
        ensures
            map@ == (MapView { base_run: Some(run@), patch_levels: Seq::empty() }),
    {
        let map = FileExtentMap { base_run: Some(run), patch_levels: Vec::new() };
        assert(map@.patch_levels =~= Seq::empty());
        map
    }

    pub fn same(&self, other: &Self) -> (result: bool)
        ensures
            result == (self@ == other@),
    {
        if !same_run(&self.base_run, &other.base_run) {
            return false;
        }
        if self.patch_levels.len() != other.patch_levels.len() {
            assert(self@.patch_levels.len() != other@.patch_levels.len());
            return false;
        }
        let mut index: usize = 0;
        while index < self.patch_levels.len()
            invariant
                index <= self.patch_levels@.len(),
                self.patch_levels@.len() == other.patch_levels@.len(),
                forall|i: int|
                    0 <= i < index ==> self@.patch_levels[i] == #[trigger] other@.patch_levels[i],
            decreases self.patch_levels@.len() - index,
        {
            if !same_run(&self.patch_levels[index], &other.patch_levels[index]) {
                assert(self@.patch_levels[index as int] != other@.patch_levels[index as int]);
                return false;
            }
            index += 1;
        }
        assert(self@.patch_levels =~= other@.patch_levels);
        true
    }

    /// The one mapping of a file that needs no other.
    pub fn inline_file_extent(&self) -> (result: Option<&ExtentMapping>)
        ensures
            match result {
                Some(mapping) => self@.patch_levels.len() == 0 && self@.base_run == Some(
                    (RunView { inline_extent: mapping@, ..self@.base_run->0 }),
                ) && self@.base_run->0.continuation is None,
                None => !(self@.patch_levels.len() == 0 && self@.base_run is Some
                    && self@.base_run->0.continuation is None),
            },
    {
        if self.patch_levels.len() != 0 {
            return None;
        }
        match &self.base_run {
            Some(run) => if run.continuation.is_none() {
                Some(&run.inline_extent)
            } else {
                None
            },
            None => None,
        }
    }

    /// The runs that a read of a range needs, newest first.
    pub fn selected_runs(&self, selection: Option<FileRange>) -> (runs: Vec<ExtentRunRef>)
        ensures
            run_views(runs@) == runs_of(self@).filter(selected(selection_view(selection))),
    {
        let ghost levels = levels_view(self.patch_levels@);
        let ghost keep = selected(selection_view(selection));
        let mut runs: Vec<ExtentRunRef> = Vec::new();
        let mut index: usize = 0;
        proof {
            assert(present(levels.take(0)) =~= Seq::empty());
            reveal(Seq::filter);
            assert(run_views(runs@) =~= present(levels.take(0)).filter(keep));
        }
        while index < self.patch_levels.len()
            invariant
                index <= self.patch_levels@.len(),
                levels == levels_view(self.patch_levels@),
                keep == selected(selection_view(selection)),
                run_views(runs@) == present(levels.take(index as int)).filter(keep),
            decreases self.patch_levels@.len() - index,
        {
            proof {
                let done = levels.take(index as int);
                assert(levels.take(index + 1) =~= done + seq![levels[index as int]]);
                present_joined(done, seq![levels[index as int]]);
                present_of_one(levels[index as int]);
            }
            if let Some(run) = &self.patch_levels[index] {
                proof {
                    filter_pushed(present(levels.take(index as int)), keep, run@);
                }
                add_selected(&mut runs, run, selection);
            } else {
                assert(present(levels.take(index as int)) + Seq::<RunView>::empty() =~= present(
                    levels.take(index as int),
                ));
            }
            index += 1;
        }
        proof {
            assert(levels.take(index as int) =~= levels);
        }
        if let Some(run) = &self.base_run {
            proof {
                filter_pushed(present(levels), keep, run@);
            }
            add_selected(&mut runs, run, selection);
        } else {
            assert(present(levels) + Seq::<RunView>::empty() =~= present(levels));
        }
        runs
    }
}

proof fn filter_pushed(runs: Seq<RunView>, keep: spec_fn(RunView) -> bool, run: RunView)
    ensures
        (runs + seq![run]).filter(keep) == (if keep(run) {
            runs.filter(keep).push(run)
        } else {
            runs.filter(keep)
        }),
{
    let all = runs + seq![run];
    assert(all.drop_last() =~= runs);
    assert(all.last() == run);
    reveal(Seq::filter);
}

/// Append the run to the others if the selection needs it.
fn add_selected(runs: &mut Vec<ExtentRunRef>, run: &ExtentRunRef, selection: Option<FileRange>)
    ensures
        run_views(final(runs)@) == (if selected(selection_view(selection))(run@) {
            run_views(old(runs)@).push(run@)
        } else {
            run_views(old(runs)@)
        }),
{
    let meets = match selection {
        None => true,
        Some(range) => {
            let start: u64 = range.offset();
            match (range.end(), run.span.end()) {
                (Ok(end), Ok(run_end)) => run_end > start && end > run.span.offset(),
                _ => false,
            }
        },
    };
    if meets {
        runs.push(run.clone());
    }
    assert(run_views(runs@) =~= (if meets {
        run_views(old(runs)@).push(run@)
    } else {
        run_views(old(runs)@)
    }));
}

/// A run whose span misses a range says nothing of the places of the range.
pub proof fn unselected_runs_are_silent(
    run: RunView,
    records: Seq<MappingView>,
    start: u64,
    size: u64,
    place: int,
)
    requires
        records_within(records, run.start as int, run.end()),
        !run_meets(run, Some((start, size))),
        start <= place < start + size,
    ensures
        !run_covers(records, place),
{
}

/// A run that says nothing of a place can be left out when the place is resolved.
pub proof fn silent_runs_can_be_left_out(runs: Seq<Seq<MappingView>>, index: int, place: int)
    requires
        0 <= index < runs.len(),
        !run_covers(runs[index], place),
    ensures
        resolve(runs.remove(index), place) == resolve(runs, place),
    decreases runs.len(),
{
    if index == 0 {
        assert(runs.remove(0) =~= runs.skip(1));
    } else {
        let rest = runs.remove(index);
        assert(rest[0] == runs[0]);
        assert(rest.skip(1) =~= runs.skip(1).remove(index - 1));
        silent_runs_can_be_left_out(runs.skip(1), index - 1, place);
    }
}

/// The number of patch levels that are carried over before the base run is.
pub const MAX_PATCH_LEVELS: usize = 64;

/// The number of first levels that hold a run, up to a limit.
pub open spec fn leading(levels: Seq<Option<RunView>>, limit: nat) -> nat
    decreases limit,
{
    if limit == 0 || levels.len() == 0 || levels[0] is None {
        0
    } else {
        1 + leading(levels.skip(1), (limit - 1) as nat)
    }
}

proof fn leading_is(levels: Seq<Option<RunView>>, limit: nat, count: nat)
    requires
        count <= limit,
        count <= levels.len(),
        forall|i: int| 0 <= i < count ==> (#[trigger] levels[i]) is Some,
        count == limit || count == levels.len() || levels[count as int] is None,
    ensures
        leading(levels, limit) == count,
    decreases count,
{
    if count > 0 {
        assert(levels[0] is Some);
        let rest = levels.skip(1);
        assert forall|i: int| 0 <= i < count - 1 implies (#[trigger] rest[i]) is Some by {
            assert(levels[i + 1] is Some);
        }
        leading_is(rest, (limit - 1) as nat, (count - 1) as nat);
    }
}

pub open spec fn filled(levels: Seq<Option<RunView>>, count: nat) -> Seq<RunView> {
    Seq::new(count, |i: int| levels[i]->0)
}

pub open spec fn emptied(levels: Seq<Option<RunView>>, count: nat) -> Seq<Option<RunView>> {
    Seq::new(
        levels.len(),
        |i: int|
            if i < count {
                None
            } else {
                levels[i]
            },
    )
}

/// The levels up to the last one that holds a run.
pub open spec fn trimmed(levels: Seq<Option<RunView>>) -> Seq<Option<RunView>>
    decreases levels.len(),
{
    if levels.len() > 0 && levels.last() is None {
        trimmed(levels.drop_last())
    } else {
        levels
    }
}

/// A map with a run at a level, or as its base with no level above it.
pub open spec fn placed(map: MapView, slot: Option<usize>, run: RunView) -> MapView {
    match slot {
        None => MapView { base_run: Some(run), patch_levels: Seq::empty() },
        Some(level) => if level >= map.patch_levels.len() {
            MapView { patch_levels: map.patch_levels.push(Some(run)), ..map }
        } else {
            MapView {
                patch_levels: trimmed(map.patch_levels.update(level as int, Some(run))),
                ..map
            }
        },
    }
}

/// The addition of a newer run to a map: the runs to merge, newest first, what stays of the
/// map meanwhile, and where the merged run goes.
pub struct Carry {
    pub merge: Vec<ExtentRunRef>,
    pub rest: FileExtentMap,
    pub slot: Option<usize>,
}

pub open spec fn no_base_fault() -> Fault {
    corrupt("merge Managed file extent runs", "a patched file has no base extent run")
}

/// Start adding a newer patch run, by binary carry over the levels.
pub fn begin_carry(map: FileExtentMap, carry: ExtentRunRef) -> (result: Result<Carry, Error>)
    ensures
        ({
            let levels = map@.patch_levels;
            let count = leading(levels, MAX_PATCH_LEVELS as nat);
            let newest = seq![carry@] + filled(levels, count);
            match result {
                Ok(begun) if count < MAX_PATCH_LEVELS => {
                    &&& run_views(begun.merge@) == newest
                    &&& begun.slot == Some(count as usize)
                    &&& begun.rest@ == (MapView {
                        base_run: map@.base_run,
                        patch_levels: emptied(levels, count),
                    })
                },
                Ok(begun) => {
                    &&& map@.base_run is Some
                    &&& run_views(begun.merge@) == newest.push(map@.base_run->0)
                    &&& begun.slot is None
                    &&& begun.rest@ == (MapView { base_run: None, patch_levels: Seq::empty() })
                },
                Err(error) => {
                    &&& count == MAX_PATCH_LEVELS
                    &&& map@.base_run is None
                    &&& error.fault() == no_base_fault()
                },
            }
        }),
{
    let ghost levels = levels_view(map.patch_levels@);
    let mut rest = map;
    let mut merge: Vec<ExtentRunRef> = Vec::new();
    merge.push(carry);
    let mut level: usize = 0;
    assert(emptied(levels, 0) =~= levels);
    assert(run_views(merge@) =~= seq![carry@] + filled(levels, 0));
    while level < MAX_PATCH_LEVELS
        invariant
            level <= MAX_PATCH_LEVELS,
            level <= levels.len(),
            levels == map@.patch_levels,
            forall|i: int| 0 <= i < level ==> (#[trigger] levels[i]) is Some,
            run_views(merge@) == seq![carry@] + filled(levels, level as nat),
            rest@ == (MapView {
                base_run: map@.base_run,
                patch_levels: emptied(levels, level as nat),
            }),
            rest.patch_levels@.len() == levels.len(),
        decreases MAX_PATCH_LEVELS - level,
    {
        if rest.patch_levels.len() == level {
            proof {
                leading_is(levels, MAX_PATCH_LEVELS as nat, level as nat);
            }
            return Ok(Carry { merge, rest, slot: Some(level) });
        }
        let ghost before = rest.patch_levels@;
        let mut taken: Option<ExtentRunRef> = None;
        rest.patch_levels.set_and_swap(level, &mut taken);
        assert(rest@.patch_levels =~= emptied(levels, level as nat).update(level as int, None));
        assert(emptied(levels, level as nat)[level as int] == levels[level as int]);
        assert(run_view(before[level as int]) == levels[level as int]);
        match taken {
            None => {
                proof {
                    leading_is(levels, MAX_PATCH_LEVELS as nat, level as nat);
                    assert(rest@.patch_levels =~= emptied(levels, level as nat));
                }
                return Ok(Carry { merge, rest, slot: Some(level) });
            },
            Some(older) => {
                let ghost newest = run_views(merge@);
                merge.push(older);
                assert(run_views(merge@) =~= newest.push(older@));
                assert(filled(levels, (level + 1) as nat) =~= filled(levels, level as nat).push(
                    older@,
                ));
                assert(run_views(merge@) =~= seq![carry@] + filled(levels, (level + 1) as nat));
                assert(rest@.patch_levels =~= emptied(levels, (level + 1) as nat));
            },
        }
        level += 1;
    }
    proof {
        leading_is(levels, MAX_PATCH_LEVELS as nat, level as nat);
    }
    match rest.base_run {
        None => Err(
            Error::corrupt(
                "merge Managed file extent runs",
                "a patched file has no base extent run",
            ),
        ),
        Some(base) => {
            let ghost newest = run_views(merge@);
            merge.push(base);
            assert(run_views(merge@) =~= newest.push(base@));
            Ok(Carry { merge, rest: FileExtentMap::empty(), slot: None })
        },
    }
}

/// Finish the addition with the run that the merge gave.
pub fn finish_carry(carry: Carry, merged: ExtentRunRef) -> (map: FileExtentMap)
    ensures
        map@ == placed(carry.rest@, carry.slot, merged@),
{
    let ghost before = carry.rest@;
    let slot = carry.slot;
    let mut map = carry.rest;
    match slot {
        None => FileExtentMap::from_base(merged),
        Some(level) => {
            if level >= map.patch_levels.len() {
                map.patch_levels.push(Some(merged));
                assert(map@.patch_levels =~= before.patch_levels.push(Some(merged@)));
                return map;
            }
            map.patch_levels.set(level, Some(merged));
            assert(map@.patch_levels =~= before.patch_levels.update(level as int, Some(merged@)));
            let ghost goal = trimmed(map@.patch_levels);
            loop
                invariant
                    map@.base_run == before.base_run,
                    trimmed(map@.patch_levels) == goal,
                ensures
                    map@.base_run == before.base_run,
                    map@.patch_levels == goal,
                decreases map.patch_levels@.len(),
            {
                let count: usize = map.patch_levels.len();
                if count == 0 || map.patch_levels[count - 1].is_some() {
                    break ;
                }
                let ghost levels = map@.patch_levels;
                assert(levels.last() == run_view(map.patch_levels@[count - 1]));
                let last = map.patch_levels.pop();
                assert(map@.patch_levels =~= levels.drop_last());
            }
            map
        },
    }
}

proof fn trimmed_keeps_runs(levels: Seq<Option<RunView>>)
    ensures
        present(trimmed(levels)) == present(levels),
        trimmed(levels).len() <= levels.len(),
    decreases levels.len(),
{
    if levels.len() > 0 && levels.last() is None {
        let front = levels.drop_last();
        trimmed_keeps_runs(front);
        assert(levels =~= front + seq![levels.last()]);
        present_joined(front, seq![levels.last()]);
        present_of_one(levels.last());
        assert(present(front) + Seq::<RunView>::empty() =~= present(front));
    }
}

proof fn present_empty(levels: Seq<Option<RunView>>)
    requires
        forall|i: int| 0 <= i < levels.len() ==> (#[trigger] levels[i]) is None,
    ensures
        present(levels) == Seq::<RunView>::empty(),
    decreases levels.len(),
{
    if levels.len() > 0 {
        let rest = levels.skip(1);
        assert forall|i: int| 0 <= i < rest.len() implies (#[trigger] rest[i]) is None by {
            assert(levels[i + 1] is None);
        }
        present_empty(rest);
        assert(levels[0] is None);
    }
}

proof fn present_full(levels: Seq<Option<RunView>>)
    requires
        forall|i: int| 0 <= i < levels.len() ==> (#[trigger] levels[i]) is Some,
    ensures
        present(levels) == filled(levels, levels.len()),
    decreases levels.len(),
{
    if levels.len() > 0 {
        let rest = levels.skip(1);
        assert forall|i: int| 0 <= i < rest.len() implies (#[trigger] rest[i]) is Some by {
            assert(levels[i + 1] is Some);
        }
        present_full(rest);
        assert(levels[0] is Some);
        assert(present(levels) =~= filled(levels, levels.len()));
    } else {
        assert(filled(levels, 0) =~= Seq::empty());
    }
}

proof fn leading_bounds(levels: Seq<Option<RunView>>, limit: nat)
    ensures
        leading(levels, limit) <= limit,
        leading(levels, limit) <= levels.len(),
        forall|i: int| 0 <= i < leading(levels, limit) ==> (#[trigger] levels[i]) is Some,
        leading(levels, limit) == limit || leading(levels, limit) == levels.len()
            || levels[leading(levels, limit) as int] is None,
    decreases limit,
{
    if limit == 0 || levels.len() == 0 || levels[0] is None {
    } else {
        let rest = levels.skip(1);
        leading_bounds(rest, (limit - 1) as nat);
        assert forall|i: int| 0 <= i < leading(levels, limit) implies (
        #[trigger] levels[i]) is Some by {
            if i > 0 {
                assert(rest[i - 1] == levels[i]);
            }
        }
    }
}

/// Adding a run keeps the order of all others: the runs that are merged are the newest of the
/// map under the new one, the merged run takes their place in front of the others, and the
/// number of levels stays within its bound.
pub proof fn carrying_keeps_the_order(map: MapView, carry: RunView, merged: RunView)
    requires
        map.patch_levels.len() <= MAX_PATCH_LEVELS,
        map.base_run is Some || leading(map.patch_levels, MAX_PATCH_LEVELS as nat)
            < MAX_PATCH_LEVELS,
    ensures
        ({
            let count = leading(map.patch_levels, MAX_PATCH_LEVELS as nat);
            let newest = seq![carry] + filled(map.patch_levels, count);
            if count < MAX_PATCH_LEVELS {
                let rest = MapView {
                    base_run: map.base_run,
                    patch_levels: emptied(map.patch_levels, count),
                };
                let result = placed(rest, Some(count as usize), merged);
                &&& seq![carry] + runs_of(map) == newest + runs_of(rest)
                &&& runs_of(result) == seq![merged] + runs_of(rest)
                &&& result.patch_levels.len() <= MAX_PATCH_LEVELS
            } else {
                let rest = MapView { base_run: None, patch_levels: Seq::empty() };
                let result = placed(rest, None, merged);
                &&& seq![carry] + runs_of(map) == newest.push(map.base_run->0)
                &&& runs_of(result) == seq![merged]
            }
        }),
{
    let levels = map.patch_levels;
    let count = leading(levels, MAX_PATCH_LEVELS as nat);
    leading_bounds(levels, MAX_PATCH_LEVELS as nat);
    let front = levels.take(count as int);
    let back = levels.skip(count as int);
    assert(levels =~= front + back);
    present_joined(front, back);
    assert forall|i: int| 0 <= i < front.len() implies (#[trigger] front[i]) is Some by {
        assert(levels[i] is Some);
    }
    present_full(front);
    assert(filled(front, count) =~= filled(levels, count));
    if count < MAX_PATCH_LEVELS {
        let hollow = emptied(levels, count);
        let none = hollow.take(count as int);
        assert(hollow =~= none + back);
        present_joined(none, back);
        present_empty(none);
        assert(present(hollow) =~= present(back));
        let rest = MapView { base_run: map.base_run, patch_levels: hollow };
        assert(seq![carry] + runs_of(map) =~= (seq![carry] + filled(levels, count)) + runs_of(
            rest,
        ));
        if count == levels.len() {
            assert(back =~= Seq::empty());
            let one = seq![Some(merged)];
            assert(hollow.push(Some(merged)) =~= hollow + one);
            present_joined(hollow, one);
            present_of_one(Some(merged));
            let result = placed(rest, Some(count as usize), merged);
            assert(present(hollow) =~= Seq::empty());
            assert(runs_of(result) =~= seq![merged] + runs_of(rest));
        } else {
            let one = seq![Some(merged)];
            let later = levels.skip((count + 1) as int);
            let changed = hollow.update(count as int, Some(merged));
            assert(changed =~= none + (one + later));
            present_joined(none, one + later);
            present_joined(one, later);
            present_of_one(Some(merged));
            assert(back =~= seq![levels[count as int]] + later);
            present_joined(seq![levels[count as int]], later);
            present_of_one(levels[count as int]);
            trimmed_keeps_runs(changed);
            let result = placed(rest, Some(count as usize), merged);
            assert(present(later) =~= present(back));
            assert(runs_of(result) =~= seq![merged] + runs_of(rest));
        }
    } else {
        assert(back =~= Seq::empty());
        assert(seq![carry] + runs_of(map) =~= (seq![carry] + filled(levels, count)).push(
            map.base_run->0,
        ));
        let result = placed(
            MapView { base_run: None, patch_levels: Seq::empty() },
            None,
            merged,
        );
        assert(runs_of(result) =~= seq![merged]);
    }
}

/// What a compaction has to do.
pub enum Compaction {
    /// Nothing is stored.
    Empty,
    /// The base run is canonical already.
    Keep,
    /// The runs, newest first, are to be merged into a base run.
    Merge(Vec<ExtentRunRef>),
}

/// How a layered map becomes one canonical base run.
pub fn plan_compaction(map: &FileExtentMap) -> (plan: Compaction)
    ensures
        match plan {
            Compaction::Empty => map@.base_run is None,
            Compaction::Keep => map@.base_run is Some && map@.patch_levels.len() == 0,
            Compaction::Merge(runs) => {
                &&& map@.base_run is Some
                &&& map@.patch_levels.len() > 0
                &&& run_views(runs@) == runs_of(map@)
            },
        },
{
    if map.base_run.is_none() {
        return Compaction::Empty;
    }
    if map.patch_levels.len() == 0 {
        return Compaction::Keep;
    }
    let runs = map.selected_runs(None);
    proof {
        filter_all(runs_of(map@), selected(None));
    }
    Compaction::Merge(runs)
}

proof fn filter_all(runs: Seq<RunView>, keep: spec_fn(RunView) -> bool)
    requires
        forall|run: RunView| #[trigger] keep(run),
    ensures
        runs.filter(keep) == runs,
    decreases runs.len(),
{
    reveal(Seq::filter);
    if runs.len() > 0 {
        filter_all(runs.drop_last(), keep);
        assert(runs =~= runs.drop_last().push(runs.last()));
    }
}

/// A run has a decoding chain of another length than the volume's.
pub open spec fn has_other_chain(runs: Seq<RunView>, decodings: usize) -> bool {
    exists|i: int|
        0 <= i < runs.len() && (#[trigger] runs[i]).inline_extent.extent.decoding_outputs.len()
            != decodings
}

/// The only mapping of a file does not stand for the whole of its content.
pub open spec fn misses_content(map: MapView, content: ContentId) -> bool {
    &&& map.patch_levels.len() == 0
    &&& map.base_run is Some
    &&& map.base_run->0.continuation is None
    &&& ({
        let mapping = map.base_run->0.inline_extent;
        mapping.offset != 0 || mapping.extent_offset != 0 || mapping.length != content.length
            || mapping.extent.content() != content
    })
}

/// What is wrong with the map of a file with some content.
pub open spec fn map_fault(map: MapView, content: ContentId, decodings: usize) -> Option<Fault> {
    if content.length == 0 {
        None
    } else if misses_content(map, content) {
        Some(
            corrupt(
                "read Managed file",
                "single extent does not match the file content reference",
            ),
        )
    } else if has_other_chain(runs_of(map), decodings) {
        Some(
            corrupt(
                "read Managed file extent run",
                "extent decoding chain does not match the volume",
            ),
        )
    } else {
        None
    }
}

/// Check the map of a file against its content and the volume's decoding chain.
pub fn validate_file_map(map: &FileExtentMap, content: ContentId, decodings: usize) -> (result:
    Result<(), Error>)
    ensures
        match result {
            Ok(()) => map_fault(map@, content, decodings) is None,
            Err(error) => map_fault(map@, content, decodings) == Some(error.fault()),
        },
{
    if content.length() == 0 {
        return Ok(());
    }
    if let Some(mapping) = map.inline_file_extent() {
        if mapping.offset() != 0 || mapping.extent_offset() != 0 || mapping.length()
            != content.length() || mapping.extent().content() != content {
            return Err(
                Error::corrupt(
                    "read Managed file",
                    "single extent does not match the file content reference",
                ),
            );
        }
    }
    let runs = map.selected_runs(None);
    proof {
        filter_all(runs_of(map@), selected(None));
    }
    let ghost views = runs_of(map@);
    let mut index: usize = 0;
    while index < runs.len()
        invariant
            index <= runs@.len(),
            views == run_views(runs@),
            views == runs_of(map@),
            content.length != 0,
            !misses_content(map@, content),
            forall|i: int|
                0 <= i < index ==> (
                #[trigger] views[i]).inline_extent.extent.decoding_outputs.len() == decodings,
        decreases runs@.len() - index,
    {
        let count: usize = runs[index].inline_extent.extent().decoding_outputs.len();
        assert(views[index as int] == runs@[index as int]@);
        if count != decodings {
            return Err(
                Error::corrupt(
                    "read Managed file extent run",
                    "extent decoding chain does not match the volume",
                ),
            );
        }
        index += 1;
    }
    Ok(())
}

// What layers promise.

/// A read of a range takes exactly the runs of the file that share a place with the range: the
/// runs of its levels and its base run.
pub proof fn a_read_takes_the_runs_it_meets(
    map: &FileExtentMap,
    selection: Option<FileRange>,
    runs: Vec<ExtentRunRef>,
    run: RunView,
)
    requires
        call_ensures(FileExtentMap::selected_runs, (map, selection), runs),
    ensures
        run_views(runs@).contains(run) <==> {
            &&& map@.base_run == Some(run) || map@.patch_levels.contains(Some(run))
            &&& selection matches Some(range) ==> run.start < range.start() + range.size()
                && range.start() < run.start + run.size
        },
{
    let all = runs_of(map@);
    let keep = selected(selection_view(selection));
    let patches = present(map@.patch_levels);
    present_holds(map@.patch_levels, run);
    if all.contains(run) {
        let n = choose|n: int| 0 <= n < all.len() && all[n] == run;
        if n < patches.len() {
            assert(patches[n] == run);
        } else {
            assert(one_or_none(map@.base_run)[n - patches.len()] == run);
        }
        if keep(run) {
            all.lemma_filter_contains(keep, n);
        }
    }
    if map@.base_run == Some(run) {
        assert(all[patches.len() as int] == run);
    }
    if patches.contains(run) {
        let n = choose|n: int| 0 <= n < patches.len() && patches[n] == run;
        assert(all[n] == run);
    }
    let kept = all.filter(keep);
    if kept.contains(run) {
        all.lemma_filter_contains_rev(keep, run);
        let n = choose|n: int| 0 <= n < kept.len() && kept[n] == run;
        all.lemma_filter_pred(keep, n);
    }
}

proof fn present_holds(levels: Seq<Option<RunView>>, run: RunView)
    ensures
        present(levels).contains(run) <==> levels.contains(Some(run)),
    decreases levels.len(),
{
    if levels.len() > 0 {
        let rest = levels.skip(1);
        let all = present(levels);
        let first = one_or_none(levels[0]);
        present_holds(rest, run);
        if all.contains(run) {
            let n = choose|n: int| 0 <= n < all.len() && all[n] == run;
            if n < first.len() {
                assert(levels[0] == Some(run));
            } else {
                assert(present(rest)[n - first.len()] == run);
                let m = choose|m: int| 0 <= m < rest.len() && rest[m] == Some(run);
                assert(levels[m + 1] == Some(run));
            }
        }
        if levels.contains(Some(run)) {
            let m = choose|m: int| 0 <= m < levels.len() && levels[m] == Some(run);
            if m == 0 {
                assert(all[0] == run);
            } else {
                assert(rest[m - 1] == Some(run));
                let n = choose|n: int| 0 <= n < present(rest).len() && present(rest)[n] == run;
                assert(all[n + first.len()] == run);
            }
        }
    }
}

/// Where the run of a level stands among all.
proof fn level_stands(levels: Seq<Option<RunView>>, level: int)
    requires
        0 <= level < levels.len(),
        levels[level] is Some,
    ensures
        present(levels.take(level)).len() < present(levels).len(),
        present(levels)[present(levels.take(level)).len() as int] == levels[level]->0,
        present(levels.take(level + 1)).len() == present(levels.take(level)).len() + 1,
{
    let front = levels.take(level);
    let back = levels.skip(level);
    assert(front + back =~= levels);
    present_joined(front, back);
    assert(back[0] == levels[level]);
    assert(present(back)[0] == levels[level]->0);
    let one = seq![levels[level]];
    assert(front + one =~= levels.take(level + 1));
    present_joined(front, one);
    present_of_one(levels[level]);
}

proof fn levels_stand_in_turn(levels: Seq<Option<RunView>>, upper: int, lower: int)
    requires
        0 <= upper <= lower <= levels.len(),
    ensures
        present(levels.take(upper)).len() <= present(levels.take(lower)).len(),
{
    let head = levels.take(lower);
    assert(head.take(upper) + head.skip(upper) =~= head);
    assert(head.take(upper) =~= levels.take(upper));
    present_joined(head.take(upper), head.skip(upper));
}

proof fn runs_stand_in_turn(map: MapView, upper: int, lower: int) -> (places: (int, int))
    requires
        0 <= upper < lower < map.patch_levels.len(),
        map.patch_levels[upper] is Some,
        map.patch_levels[lower] is Some,
    ensures
        ({
            let (first, second) = places;
            &&& 0 <= first < second < runs_of(map).len()
            &&& runs_of(map)[first] == map.patch_levels[upper]->0
            &&& runs_of(map)[second] == map.patch_levels[lower]->0
            &&& map.base_run matches Some(base) ==> second < runs_of(map).len() - 1
                && runs_of(map).last() == base
        }),
{
    let levels = map.patch_levels;
    let all = runs_of(map);
    let patches = present(levels);
    level_stands(levels, upper);
    level_stands(levels, lower);
    levels_stand_in_turn(levels, upper + 1, lower);
    let first = present(levels.take(upper)).len() as int;
    let second = present(levels.take(lower)).len() as int;
    assert(all[first] == patches[first]);
    assert(all[second] == patches[second]);
    (first, second)
}

/// The runs of a file come newest first: the run of a level before that of any later level, and
/// the base run last.
pub proof fn runs_come_newest_first(
    map: &FileExtentMap,
    runs: Vec<ExtentRunRef>,
    upper: int,
    lower: int,
) -> (places: (int, int))
    requires
        call_ensures(FileExtentMap::selected_runs, (map, None), runs),
        0 <= upper < lower < map@.patch_levels.len(),
        map@.patch_levels[upper] is Some,
        map@.patch_levels[lower] is Some,
    ensures
        ({
            let (first, second) = places;
            &&& 0 <= first < second < runs@.len()
            &&& runs@[first]@ == map@.patch_levels[upper]->0
            &&& runs@[second]@ == map@.patch_levels[lower]->0
            &&& map@.base_run matches Some(base) ==> second < runs@.len() - 1 && runs@[runs@.len()
                - 1]@ == base
        }),
{
    let all = runs_of(map@);
    assert(run_views(runs@) == all) by {
        filter_all(all, selected(None));
    }
    let (first, second) = runs_stand_in_turn(map@, upper, lower);
    assert(all.len() == runs@.len());
    assert(forall|i: int| 0 <= i < runs@.len() ==> all[i] == (#[trigger] runs@[i])@);
    (first, second)
}

/// A patch joins a file without disturbing the order of its runs: what is merged, the new patch
/// in front, and what is left make up the patch and the runs of the file, and the merged run
/// comes in front of what is left. It is refused only where all levels are full and there is no
/// base run.
pub proof fn a_patch_joins_in_order(
    map: FileExtentMap,
    carry: ExtentRunRef,
    begun: Result<Carry, Error>,
    merged: ExtentRunRef,
    after: FileExtentMap,
)
    requires
        call_ensures(begin_carry, (map, carry), begun),
        begun is Ok ==> call_ensures(finish_carry, (begun->Ok_0, merged), after),
        map@.patch_levels.len() <= 64,
    ensures
        begun is Err ==> map@.base_run is None && map@.patch_levels.len() == 64 && forall|i: int|
            0 <= i < 64 ==> (#[trigger] map@.patch_levels[i]) is Some,
        begun matches Ok(begun) ==> {
            &&& run_views(begun.merge@) + runs_of(begun.rest@) == seq![carry@] + runs_of(map@)
            &&& begun.merge@.len() > 0
            &&& begun.merge@[0]@ == carry@
            &&& runs_of(after@) == seq![merged@] + runs_of(begun.rest@)
            &&& after@.patch_levels.len() <= 64
        },
{
    let levels = map@.patch_levels;
    let count = leading(levels, MAX_PATCH_LEVELS as nat);
    leading_bounds(levels, MAX_PATCH_LEVELS as nat);
    if let Ok(started) = begun {
        carrying_keeps_the_order(map@, carry@, merged@);
        let newest = seq![carry@] + filled(levels, count);
        assert(run_views(started.merge@)[0] == carry@);
        assert(started.merge@[0]@ == run_views(started.merge@)[0]);
        if count >= MAX_PATCH_LEVELS {
            assert(runs_of(started.rest@) =~= Seq::empty());
            assert(run_views(started.merge@) + runs_of(started.rest@) =~= run_views(
                started.merge@,
            ));
            assert(runs_of(after@) =~= seq![merged@] + runs_of(started.rest@));
        }
    }
}

/// A map is compacted by merging all of its runs, unless nothing is stored or no patch lies on
/// its base run.
pub proof fn a_compaction_merges_all_runs(map: &FileExtentMap, plan: Compaction)
    requires
        call_ensures(plan_compaction, (map,), plan),
    ensures
        plan is Empty <==> map.base_run is None,
        plan is Keep <==> map.base_run is Some && map.patch_levels@.len() == 0,
        plan matches Compaction::Merge(runs) ==> run_views(runs@) == runs_of(map@),
{
}

/// A map fits the content of a file exactly if every extent that its runs begin with is decoded
/// as often as the volume asks, and an only extent is the whole content; an empty file fits any
/// map.
pub proof fn a_map_fits_its_content(
    map: &FileExtentMap,
    content: ContentId,
    decodings: usize,
    result: Result<(), Error>,
)
    requires
        call_ensures(validate_file_map, (map, content, decodings), result),
    ensures
        result is Ok <==> content.length == 0 || {
            &&& map@.base_run matches Some(run)
                ==> run.inline_extent.extent.decoding_outputs.len() == decodings
            &&& forall|i: int|
                0 <= i < map@.patch_levels.len() && (#[trigger] map@.patch_levels[i]) is Some
                    ==> map@.patch_levels[i]->0.inline_extent.extent.decoding_outputs.len()
                    == decodings
            &&& map@.patch_levels.len() == 0 && map@.base_run is Some
                && map@.base_run->0.continuation is None ==> {
                let only = map@.base_run->0.inline_extent;
                &&& only.offset == 0
                &&& only.extent_offset == 0
                &&& only.length == content.length
                &&& only.extent.content() == content
            }
        },
{
    let all = runs_of(map@);
    let levels = map@.patch_levels;
    let patches = present(levels);
    if content.length > 0 && !misses_content(map@, content) {
        if result is Ok {
            if map@.base_run is Some {
                assert(all[patches.len() as int] == map@.base_run->0);
            }
            assert forall|i: int| 0 <= i < levels.len() && (#[trigger] levels[i]) is Some implies
                levels[i]->0.inline_extent.extent.decoding_outputs.len() == decodings by {
                present_holds(levels, levels[i]->0);
                let n = choose|n: int| 0 <= n < patches.len() && patches[n] == levels[i]->0;
                assert(all[n] == levels[i]->0);
            }
        } else {
            let n = choose|n: int|
                0 <= n < all.len() && (
                #[trigger] all[n]).inline_extent.extent.decoding_outputs.len() != decodings;
            if n < patches.len() {
                assert(patches[n] == all[n]);
                present_holds(levels, all[n]);
                let i = choose|i: int| 0 <= i < levels.len() && levels[i] == Some(all[n]);
                assert(levels[i] is Some);
            } else {
                assert(map@.base_run == Some(all[n]));
            }
        }
    }
}

} // verus!
