//! Views of a namespace: a snapshot and the changes since, put together at one cursor.

use vstd::multiset::Multiset;
use vstd::prelude::*;

use crate::changes::{all_left, fewer_left, unordered_fault};
use crate::error::{corrupt, Error, Fault};
use crate::model::ChangeCursor;
use crate::namespace::{
    clone_member, increasing, member_view, records_view, same_member, MemberView, NamespaceNode,
    NamespaceRecord, RecordView,
};
use crate::order::{before, before_total, strictly_sorted, Ranked};
use crate::ordered::{
    are_heads, exhausted, first_is_in_heads, heads_are_first, in_turn, is_group, is_next,
    leader_is_first, rising_groups_are_heads, sources_view, OrderedMerge,
};
use crate::text::{text_precedes, text_rank, text_rank_is_injective};
use crate::work::{all_represent, all_sound, RunMerger, RunModel};

verus! {

#[verifier::ext_equal]
pub ghost struct VersionView {
    pub path: Seq<char>,
    pub cursor: u64,
    pub value: Option<MemberView>,
}

/// A record with the cursor of the stream that it is from.
#[derive(Debug)]
pub struct VersionedRecord {
    pub path: String,
    pub change_cursor: ChangeCursor,
    pub value: Option<NamespaceNode>,
}

impl VersionedRecord {
    pub open spec fn view(&self) -> VersionView {
        VersionView {
            path: self.path@,
            cursor: self.change_cursor.sequence,
            value: member_view(self.value),
        }
    }
}

impl Clone for VersionedRecord {
    fn clone(&self) -> (result: Self)
        ensures
            result@ == self@,
    {
        VersionedRecord {
            path: self.path.clone(),
            change_cursor: self.change_cursor,
            value: clone_member(&self.value),
        }
    }
}

impl Ranked for VersionedRecord {
    open spec fn rank(&self) -> Seq<int> {
        text_rank(self@.path)
    }

    fn precedes(&self, other: &Self) -> (result: bool) {
        text_precedes(self.path.as_str(), other.path.as_str())
    }
}

pub open spec fn versions_view(records: Seq<VersionedRecord>) -> Seq<VersionView> {
    Seq::new(records.len(), |i: int| records[i]@)
}

pub open spec fn at_cursor(records: Seq<RecordView>, cursor: u64) -> Seq<VersionView> {
    Seq::new(
        records.len(),
        |i: int| VersionView { path: records[i].path, cursor, value: records[i].value },
    )
}

/// The records of a downloaded stream, with its cursor.
pub fn versioned(records: Vec<NamespaceRecord>, cursor: ChangeCursor) -> (result: Result<
    Vec<VersionedRecord>,
    Error,
>)
    ensures
        match result {
            Ok(versions) => {
                &&& increasing(records_view(records@))
                &&& versions_view(versions@) == at_cursor(
                    records_view(records@),
                    cursor.sequence,
                )
                &&& strictly_sorted(versions@)
            },
            Err(error) => !increasing(records_view(records@)) && error.fault()
                == unordered_fault(),
        },
{
    match crate::changes::check_increasing(&records) {
        Ok(()) => {},
        Err(error) => {
            return Err(error);
        },
    }
    let ghost given = records@;
    let mut remaining = crate::order::reversed(records);
    let ghost backward = remaining@;
    let mut versions: Vec<VersionedRecord> = Vec::new();
    let ghost mut index: int = 0;
    while remaining.len() > 0
        invariant
            given == records@,
            backward == given.reverse(),
            0 <= index <= given.len(),
            remaining@ == backward.take(given.len() - index),
            versions@.len() == index,
            forall|i: int|
                0 <= i < index ==> (#[trigger] versions@[i])@ == (VersionView {
                    path: given[i]@.path,
                    cursor: cursor.sequence,
                    value: given[i]@.value,
                }),
        decreases remaining@.len(),
    {
        let record = remaining.pop().unwrap();
        proof {
            assert(record == given[index]);
            assert(remaining@ =~= backward.take(given.len() - (index + 1)));
            index = index + 1;
        }
        versions.push(
            VersionedRecord { path: record.path, change_cursor: cursor, value: record.value },
        );
    }
    proof {
        let views = records_view(given);
        assert(versions_view(versions@) =~= at_cursor(views, cursor.sequence));
        assert forall|i: int, j: int| 0 <= i < j < versions@.len() implies #[trigger] before(
            versions@[i].rank(),
            #[trigger] versions@[j].rank(),
        ) by {
            assert(before(text_rank(views[i].path), text_rank(views[j].path)));
        }
    }
    Ok(versions)
}

/// The record is newer than another of its path, or as new and the same.
pub open spec fn dominates(record: VersionView, other: VersionView) -> bool {
    &&& record.path == other.path
    &&& other.cursor < record.cursor || (other.cursor == record.cursor && other.value
        == record.value)
}

pub open spec fn conflict_fault() -> Fault {
    corrupt("read Managed namespace", "one change cursor has conflicting namespace records")
}

/// Two records of one path and cursor differ.
pub open spec fn clash(left: VersionView, right: VersionView, cursor: u64) -> bool {
    &&& left.path == right.path
    &&& left.cursor == right.cursor
    &&& left.cursor <= cursor
    &&& left.value != right.value
}

/// Keep the newer of two records of one path.
pub fn select_record(selected: Option<VersionedRecord>, candidate: VersionedRecord) -> (result:
    Result<VersionedRecord, Error>)
    ensures
        match result {
            Ok(record) => match selected {
                None => record@ == candidate@,
                Some(current) => if current@.cursor >= candidate@.cursor {
                    &&& record@ == current@
                    &&& current@.cursor == candidate@.cursor ==> current@.value
                        == candidate@.value
                } else {
                    record@ == candidate@
                },
            },
            Err(error) => {
                &&& selected is Some
                &&& selected->0@.cursor == candidate@.cursor
                &&& selected->0@.value != candidate@.value
                &&& error.fault() == conflict_fault()
            },
        },
{
    match selected {
        None => Ok(candidate),
        Some(current) => {
            let held: u64 = current.change_cursor.sequence();
            let offered: u64 = candidate.change_cursor.sequence();
            if held == offered {
                if !same_member(&current.value, &candidate.value) {
                    return Err(
                        Error::corrupt(
                            "read Managed namespace",
                            "one change cursor has conflicting namespace records",
                        ),
                    );
                }
                Ok(current)
            } else if held > offered {
                Ok(current)
            } else {
                Ok(candidate)
            }
        },
    }
}

/// Merging of record streams, a number of them at a time: of every path the newest record up
/// to a cursor stays.
pub struct NewestRecords {
    pub view_cursor: ChangeCursor,
    pub fan_in: usize,
}

/// A record of the run dominates the given one.
pub open spec fn is_dominated(run: Seq<VersionView>, record: VersionView, cursor: u64) -> bool {
    exists|i: int|
        0 <= i < run.len() && (#[trigger] run[i]).cursor <= cursor && dominates(run[i], record)
}

/// The run has only records of the items, and dominates all of them up to a cursor.
pub open spec fn is_newest_of(
    run: Seq<VersionView>,
    items: Multiset<VersionView>,
    cursor: u64,
) -> bool {
    &&& forall|i: int| 0 <= i < run.len() ==> items.count(#[trigger] run[i]) > 0
    &&& forall|record: VersionView|
        #[trigger] items.count(record) > 0 && record.cursor <= cursor ==> is_dominated(
            run,
            record,
            cursor,
        )
}

pub open spec fn has_clash(items: Multiset<VersionView>, cursor: u64) -> bool {
    exists|left: VersionView, right: VersionView|
        #![trigger items.count(left), items.count(right)]
        items.count(left) > 0 && items.count(right) > 0 && clash(left, right, cursor)
}

impl RunModel for NewestRecords {
    type Run = Vec<VersionedRecord>;

    type Item = VersionView;

    open spec fn most(&self) -> nat {
        self.fan_in as nat
    }

    open spec fn sound(&self, run: Vec<VersionedRecord>) -> bool {
        strictly_sorted(run@)
    }

    open spec fn represents(
        &self,
        run: Vec<VersionedRecord>,
        items: Seq<VersionView>,
    ) -> bool {
        is_newest_of(versions_view(run@), items.to_multiset(), self.view_cursor.sequence)
    }

    open spec fn refuses(&self, items: Multiset<VersionView>, fault: Fault) -> bool {
        has_clash(items, self.view_cursor.sequence) && fault == conflict_fault()
    }

    proof fn refuses_more(
        &self,
        items: Multiset<VersionView>,
        more: Multiset<VersionView>,
        fault: Fault,
    ) {
        if self.refuses(items, fault) {
            let cursor = self.view_cursor.sequence;
            let (left, right) = choose|left: VersionView, right: VersionView|
                #![trigger items.count(left), items.count(right)]
                items.count(left) > 0 && items.count(right) > 0 && clash(left, right, cursor);
            let all = items.add(more);
            assert(all.count(left) > 0 && all.count(right) > 0);
        }
    }
}

/// What a part holds stands among the items of all parts.
proof fn part_of_turn(parts: Seq<Seq<VersionView>>, place: int, record: VersionView)
    requires
        0 <= place < parts.len(),
        parts[place].to_multiset().count(record) > 0,
    ensures
        in_turn(parts).to_multiset().count(record) > 0,
    decreases parts.len(),
{
    let front = parts.drop_last();
    vstd::seq_lib::lemma_multiset_commutative(in_turn(front), parts.last());
    if place < parts.len() - 1 {
        part_of_turn(front, place, record);
    }
}

/// What stands among the items of all parts is held by a part.
proof fn in_some_part(parts: Seq<Seq<VersionView>>, record: VersionView) -> (place: int)
    requires
        in_turn(parts).to_multiset().count(record) > 0,
    ensures
        0 <= place < parts.len(),
        parts[place].to_multiset().count(record) > 0,
    decreases parts.len(),
{
    broadcast use vstd::seq_lib::group_to_multiset_ensures;

    if parts.len() == 0 {
        assert(in_turn(parts).contains(record));
        0
    } else {
        let front = parts.drop_last();
        vstd::seq_lib::lemma_multiset_commutative(in_turn(front), parts.last());
        if parts.last().to_multiset().count(record) > 0 {
            parts.len() - 1
        } else {
            in_some_part(front, record)
        }
    }
}

pub open spec fn in_runs(runs: Seq<Seq<VersionedRecord>>, record: VersionView) -> bool {
    exists|i: int, k: int|
        0 <= i < runs.len() && 0 <= k < runs[i].len() && (#[trigger] runs[i][k])@ == record
}

/// What a merge has done with the runs: its output dominates what was taken from them.
spec fn merges_so_far(
    output: Seq<VersionedRecord>,
    rest: Seq<Seq<VersionedRecord>>,
    runs: Seq<Seq<VersionedRecord>>,
    cursor: u64,
) -> bool {
    &&& strictly_sorted(output)
    &&& forall|i: int| 0 <= i < rest.len() ==> strictly_sorted(#[trigger] rest[i])
    &&& forall|j: int, i: int, k: int|
        0 <= j < output.len() && 0 <= i < rest.len() && 0 <= k < rest[i].len() ==> before(
            (#[trigger] output[j]).rank(),
            (#[trigger] rest[i][k]).rank(),
        )
    &&& forall|j: int| 0 <= j < output.len() ==> in_runs(runs, (#[trigger] output[j])@)
    &&& forall|j: int| 0 <= j < output.len() ==> (#[trigger] output[j])@.cursor <= cursor
    &&& forall|i: int, k: int|
        0 <= i < rest.len() && 0 <= k < rest[i].len() ==> in_runs(runs, (#[trigger] rest[i][k])@)
    &&& forall|record: VersionView|
        #[trigger] in_runs(runs, record) && record.cursor <= cursor ==> in_runs(rest, record)
            || is_dominated(versions_view(output), record, cursor)
}

/// The records of a group up to a count, as far as the cursor admits them, are dominated by
/// the selected one.
spec fn selects(
    selected: Option<VersionView>,
    group: Seq<(usize, VersionedRecord)>,
    count: int,
    cursor: u64,
) -> bool {
    &&& forall|n: int|
        0 <= n < count && (#[trigger] group[n]).1@.cursor <= cursor ==> selected is Some
            && dominates(selected->0, group[n].1@)
    &&& selected is Some ==> selected->0.cursor <= cursor && exists|n: int|
        0 <= n < count && (#[trigger] group[n]).1@ == selected->0
}

proof fn newest_step(
    output: Seq<VersionedRecord>,
    rest: Seq<Seq<VersionedRecord>>,
    source: int,
    group: Seq<(usize, VersionedRecord)>,
    left: Seq<Seq<VersionedRecord>>,
    runs: Seq<Seq<VersionedRecord>>,
    cursor: u64,
    selected: Option<VersionedRecord>,
)
    requires
        merges_so_far(output, rest, runs, cursor),
        is_next(rest, source),
        are_heads(rest, source, group, left),
        selects(
            match selected {
                Some(record) => Some(record@),
                None => None,
            },
            group,
            group.len() as int,
            cursor,
        ),
    ensures
        merges_so_far(
            match selected {
                Some(record) => output.push(record),
                None => output,
            },
            left,
            runs,
            cursor,
        ),
{
    let key = rest[source][0].rank();
    let longer = match selected {
        Some(record) => output.push(record),
        None => output,
    };
    assert forall|i: int| 0 <= i < rest.len() && (#[trigger] rest[i]).len() > 0
        implies crate::order::not_after(key, rest[i][0].rank()) by {
        leader_is_first(rest, source, i);
    }
    if selected is Some {
        let n = choose|n: int| 0 <= n < group.len() && (#[trigger] group[n]).1@ == selected->0@;
        let place = heads_are_first(rest, key, rest.len(), n);
        assert(in_runs(runs, rest[place][0]@));
        assert(selected->0.rank() == key);
    }
    assert forall|i: int, j: int| 0 <= i < j < longer.len() implies #[trigger] before(
        longer[i].rank(),
        #[trigger] longer[j].rank(),
    ) by {
        if j < output.len() {
            assert(before(output[i].rank(), output[j].rank()));
        } else {
            assert(before(output[i].rank(), rest[source][0].rank()));
        }
    }
    assert forall|i: int| 0 <= i < left.len() implies strictly_sorted(#[trigger] left[i]) by {
        assert(strictly_sorted(rest[i]));
        if rest[i].len() > 0 && rest[i][0].rank() == key {
            assert forall|a: int, b: int| 0 <= a < b < left[i].len() implies #[trigger] before(
                left[i][a].rank(),
                #[trigger] left[i][b].rank(),
            ) by {
                assert(before(rest[i][a + 1].rank(), rest[i][b + 1].rank()));
            }
        }
    }
    assert forall|j: int, i: int, k: int|
        0 <= j < longer.len() && 0 <= i < left.len() && 0 <= k < left[i].len() implies before(
        (#[trigger] longer[j]).rank(),
        (#[trigger] left[i][k]).rank(),
    ) by {
        let shift: int = if rest[i].len() > 0 && rest[i][0].rank() == key {
            1
        } else {
            0
        };
        assert(left[i][k] == rest[i][k + shift]);
        assert(strictly_sorted(rest[i]));
        if j < output.len() {
            assert(before(output[j].rank(), rest[i][k + shift].rank()));
        } else {
            assert(crate::order::not_after(key, rest[i][0].rank()));
            before_total(key, rest[i][0].rank());
            if k + shift > 0 {
                assert(before(rest[i][0].rank(), rest[i][k + shift].rank()));
                if rest[i][0].rank() != key {
                    crate::order::before_transitive(
                        key,
                        rest[i][0].rank(),
                        rest[i][k + shift].rank(),
                    );
                }
            }
        }
    }
    assert forall|i: int, k: int| 0 <= i < left.len() && 0 <= k < left[i].len() implies in_runs(
        runs,
        (#[trigger] left[i][k])@,
    ) by {
        let shift: int = if rest[i].len() > 0 && rest[i][0].rank() == key {
            1
        } else {
            0
        };
        assert(left[i][k] == rest[i][k + shift]);
        assert(in_runs(runs, rest[i][k + shift]@));
    }
    assert forall|record: VersionView|
        #[trigger] in_runs(runs, record) && record.cursor <= cursor implies in_runs(left, record)
        || is_dominated(versions_view(longer), record, cursor) by {
        let before_views = versions_view(output);
        let views = versions_view(longer);
        if is_dominated(before_views, record, cursor) {
            let i = choose|i: int|
                0 <= i < before_views.len() && (#[trigger] before_views[i]).cursor <= cursor
                    && dominates(before_views[i], record);
            assert(views[i] == before_views[i]);
        } else {
            let (i, k) = choose|i: int, k: int|
                0 <= i < rest.len() && 0 <= k < rest[i].len() && (#[trigger] rest[i][k])@
                    == record;
            let taken = rest[i].len() > 0 && rest[i][0].rank() == key;
            if taken && k == 0 {
                let n = first_is_in_heads(rest, key, rest.len(), i);
                assert(group[n].1@ == record);
                assert(views[output.len() as int] == selected->0@);
            } else {
                let shift: int = if taken {
                    1
                } else {
                    0
                };
                assert(left[i][k - shift] == rest[i][k]);
            }
        }
    }
}

proof fn dominates_transitive(a: VersionView, b: VersionView, c: VersionView)
    requires
        dominates(a, b),
        dominates(b, c),
    ensures
        dominates(a, c),
{
}

impl RunMerger for NewestRecords {
    fn merge(&self, group: Vec<Vec<VersionedRecord>>) -> (result: Result<
        Vec<VersionedRecord>,
        Error,
    >) {
        let ghost given = group@;
        let ghost runs = sources_view(group@);
        let cursor: u64 = self.view_cursor.sequence();
        let mut merge = OrderedMerge::from_readers(group);
        let mut output: Vec<VersionedRecord> = Vec::new();
        let mut open = true;
        proof {
            assert forall|i: int| 0 <= i < runs.len() implies strictly_sorted(
                #[trigger] runs[i],
            ) by {
                assert(self.sound(given[i]));
            }
            assert forall|i: int, k: int|
                0 <= i < runs.len() && 0 <= k < runs[i].len() implies in_runs(
                runs,
                (#[trigger] runs[i][k])@,
            ) by {}
        }
        while open
            invariant
                given == group@,
                all_sound(self, given),
                runs == sources_view(given),
                cursor == self.view_cursor.sequence,
                merges_so_far(output@, merge.rest(), runs, cursor),
                !open ==> exhausted(merge.rest()),
            decreases all_left(merge.rest()), open as int,
        {
            let ghost rest = merge.rest();
            match merge.next_group() {
                None => {
                    open = false;
                },
                Some(members) => {
                    let ghost group = members@;
                    let ghost source = choose|source: int| #[trigger]
                        is_next(rest, source) && is_group(rest, source, group, merge.rest());
                    proof {
                        rising_groups_are_heads(rest, source, group, merge.rest());
                        fewer_left(rest, source);
                    }
                    match select_newest(members, cursor) {
                        Ok(selected) => {
                            proof {
                                assert forall|a: int, b: int|
                                    0 <= a < group.len() && 0 <= b < group.len() implies (
                                #[trigger] group[a]).1@.path == (#[trigger] group[b]).1@.path by {
                                    same_paths(rest, source, group, merge.rest(), a, b);
                                }
                                newest_step(
                                    output@,
                                    rest,
                                    source,
                                    group,
                                    merge.rest(),
                                    runs,
                                    cursor,
                                    selected,
                                );
                            }
                            if let Some(record) = selected {
                                output.push(record);
                            }
                        },
                        Err(error) => {
                            proof {
                                let (a, b) = choose|a: int, b: int|
                                    0 <= a < group.len() && 0 <= b < group.len() && clash_of(
                                        #[trigger] group[a],
                                        #[trigger] group[b],
                                        cursor,
                                    );
                                let key = rest[source][0].rank();
                                let x = heads_are_first(rest, key, rest.len(), a);
                                let y = heads_are_first(rest, key, rest.len(), b);
                                same_paths(rest, source, group, merge.rest(), a, b);
                                assert(in_runs(runs, rest[x][0]@));
                                assert(in_runs(runs, rest[y][0]@));
                                assert forall|parts: Seq<Seq<VersionView>>| #[trigger]
                                    all_represent(self, given, parts) implies self.refuses(
                                    in_turn(parts).to_multiset(),
                                    error.fault(),
                                ) by {
                                    run_record_is_item(self, given, parts, rest[x][0]@);
                                    run_record_is_item(self, given, parts, rest[y][0]@);
                                }
                            }
                            return Err(error);
                        },
                    }
                },
            }
        }
        proof {
            assert forall|parts: Seq<Seq<VersionView>>| #[trigger]
                all_represent(self, given, parts) implies self.represents(output, in_turn(parts)) by {
                merged_is_newest(self, given, parts, output, merge.rest());
            }
        }
        Ok(output)
    }
}

spec fn clash_of(left: (usize, VersionedRecord), right: (usize, VersionedRecord), cursor: u64) -> bool {
    &&& left.1@.cursor == right.1@.cursor
    &&& left.1@.cursor <= cursor
    &&& left.1@.value != right.1@.value
}

/// The members of a group have one path.
proof fn same_paths(
    rest: Seq<Seq<VersionedRecord>>,
    source: int,
    group: Seq<(usize, VersionedRecord)>,
    left: Seq<Seq<VersionedRecord>>,
    a: int,
    b: int,
)
    requires
        is_next(rest, source),
        are_heads(rest, source, group, left),
        0 <= a < group.len(),
        0 <= b < group.len(),
    ensures
        group[a].1@.path == group[b].1@.path,
{
    let key = rest[source][0].rank();
    let x = heads_are_first(rest, key, rest.len(), a);
    let y = heads_are_first(rest, key, rest.len(), b);
    text_rank_is_injective(group[a].1@.path, group[b].1@.path);
}

/// The newest record of a group up to a cursor.
fn select_newest(members: Vec<(usize, VersionedRecord)>, cursor: u64) -> (result: Result<
    Option<VersionedRecord>,
    Error,
>)
    ensures
        ({
            let group = members@;
            match result {
                Ok(selected) => (forall|a: int, b: int|
                    0 <= a < group.len() && 0 <= b < group.len() ==> (#[trigger] group[a]).1@.path
                        == (#[trigger] group[b]).1@.path) ==> selects(
                    match selected {
                        Some(record) => Some(record@),
                        None => None,
                    },
                    group,
                    group.len() as int,
                    cursor,
                ),
                Err(error) => {
                    &&& error.fault() == conflict_fault()
                    &&& exists|a: int, b: int|
                        0 <= a < group.len() && 0 <= b < group.len() && clash_of(
                            #[trigger] group[a],
                            #[trigger] group[b],
                            cursor,
                        )
                },
            }
        }),
{
    let ghost group = members@;
    let mut remaining = crate::order::reversed(members);
    let ghost backward = remaining@;
    let mut selected: Option<VersionedRecord> = None;
    let ghost mut index: int = 0;
    while remaining.len() > 0
        invariant
            group == members@,
            backward == group.reverse(),
            0 <= index <= group.len(),
            remaining@ == backward.take(group.len() - index),
            selected is Some ==> selected->0@.cursor <= cursor && exists|n: int|
                0 <= n < index && (#[trigger] group[n]).1@ == selected->0@,
            (forall|a: int, b: int|
                0 <= a < group.len() && 0 <= b < group.len() ==> (#[trigger] group[a]).1@.path == (
                #[trigger] group[b]).1@.path) ==> selects(
                match selected {
                    Some(record) => Some(record@),
                    None => None,
                },
                group,
                index,
                cursor,
            ),
        decreases remaining@.len(),
    {
        let (_, candidate) = remaining.pop().unwrap();
        let ghost earlier = selected;
        let ghost offered = candidate@;
        proof {
            assert(candidate == group[index].1);
            assert(remaining@ =~= backward.take(group.len() - (index + 1)));
        }
        if candidate.change_cursor.sequence() <= cursor {
            match select_record(selected, candidate) {
                Ok(record) => {
                    selected = Some(record);
                },
                Err(error) => {
                    proof {
                        let n = choose|n: int|
                            0 <= n < index && (#[trigger] group[n]).1@ == earlier->0@;
                        assert(clash_of(group[n], group[index], cursor));
                    }
                    return Err(error);
                },
            }
        }
        proof {
            if offered.cursor <= cursor {
                let now = selected->0@;
                if now == offered {
                    assert(group[index].1@ == now);
                } else {
                    let n = choose|n: int| 0 <= n < index && (#[trigger] group[n]).1@ == earlier->0@;
                    assert(group[n].1@ == now);
                }
            } else if selected is Some {
                let n = choose|n: int| 0 <= n < index && (#[trigger] group[n]).1@ == earlier->0@;
                assert(group[n].1@ == selected->0@);
            }
            if forall|a: int, b: int|
                0 <= a < group.len() && 0 <= b < group.len() ==> (#[trigger] group[a]).1@.path == (
                #[trigger] group[b]).1@.path {
                assert forall|n: int|
                    0 <= n < index + 1 && (#[trigger] group[n]).1@.cursor
                        <= cursor implies selected is Some && dominates(
                    selected->0@,
                    group[n].1@,
                ) by {
                    if earlier is Some {
                        let m = choose|m: int|
                            0 <= m < index && (#[trigger] group[m]).1@ == earlier->0@;
                        assert(group[m].1@.path == group[index].1@.path);
                        if n < index {
                            assert(dominates(earlier->0@, group[n].1@));
                        }
                    }
                    assert(group[n].1@.path == group[index].1@.path);
                }
            }
            index = index + 1;
        }
    }
    Ok(selected)
}

/// A record of a run is one of the items that the runs stand for.
proof fn run_record_is_item(
    merger: &NewestRecords,
    given: Seq<Vec<VersionedRecord>>,
    parts: Seq<Seq<VersionView>>,
    record: VersionView,
)
    requires
        all_represent(merger, given, parts),
        in_runs(sources_view(given), record),
    ensures
        in_turn(parts).to_multiset().count(record) > 0,
{
    let runs = sources_view(given);
    let (i, k) = choose|i: int, k: int|
        0 <= i < runs.len() && 0 <= k < runs[i].len() && (#[trigger] runs[i][k])@ == record;
    assert(merger.represents(given[i], parts[i]));
    assert(versions_view(given[i]@)[k] == record);
    part_of_turn(parts, i, record);
}

proof fn merged_is_newest(
    merger: &NewestRecords,
    given: Seq<Vec<VersionedRecord>>,
    parts: Seq<Seq<VersionView>>,
    output: Vec<VersionedRecord>,
    rest: Seq<Seq<VersionedRecord>>,
)
    requires
        all_represent(merger, given, parts),
        merges_so_far(output@, rest, sources_view(given), merger.view_cursor.sequence),
        exhausted(rest),
    ensures
        merger.represents(output, in_turn(parts)),
{
    let cursor = merger.view_cursor.sequence;
    let runs = sources_view(given);
    let views = versions_view(output@);
    let items = in_turn(parts).to_multiset();
    assert forall|i: int| 0 <= i < views.len() implies items.count(#[trigger] views[i]) > 0 by {
        assert(in_runs(runs, output@[i]@));
        run_record_is_item(merger, given, parts, views[i]);
    }
    assert forall|record: VersionView|
        #[trigger] items.count(record) > 0 && record.cursor <= cursor implies is_dominated(
        views,
        record,
        cursor,
    ) by {
        let place = in_some_part(parts, record);
        assert(merger.represents(given[place], parts[place]));
        let run = versions_view(given[place]@);
        assert(is_dominated(run, record, cursor));
        let k = choose|k: int|
            0 <= k < run.len() && (#[trigger] run[k]).cursor <= cursor && dominates(
                run[k],
                record,
            );
        assert(runs[place][k]@ == run[k]);
        assert(in_runs(runs, run[k]));
        if in_runs(rest, run[k]) {
            let (i, m) = choose|i: int, m: int|
                0 <= i < rest.len() && 0 <= m < rest[i].len() && (#[trigger] rest[i][m])@
                    == run[k];
            assert(rest[i].len() == 0);
        }
        let j = choose|j: int|
            0 <= j < views.len() && (#[trigger] views[j]).cursor <= cursor && dominates(
                views[j],
                run[k],
            );
        dominates_transitive(views[j], run[k], record);
    }
}

// What selecting promises.

/// Of two records of a path the newer one is selected, whichever comes first, and records of one
/// cursor have to agree.
pub proof fn the_newer_record_is_selected(
    first: VersionedRecord,
    second: VersionedRecord,
    one: Result<VersionedRecord, Error>,
    other: Result<VersionedRecord, Error>,
)
    requires
        call_ensures(select_record, (Some(first), second), one),
        call_ensures(select_record, (Some(second), first), other),
        first@.path == second@.path,
    ensures
        one is Err <==> first@.cursor == second@.cursor && first@.value != second@.value,
        other is Err <==> one is Err,
        one is Ok ==> {
            &&& one->Ok_0@ == other->Ok_0@
            &&& one->Ok_0@ == first@ || one->Ok_0@ == second@
            &&& one->Ok_0@.cursor >= first@.cursor
            &&& one->Ok_0@.cursor >= second@.cursor
        },
{
}

/// Records that are read at a cursor all bear it and are otherwise what they were.
pub proof fn records_bear_their_cursor(
    records: Vec<NamespaceRecord>,
    cursor: ChangeCursor,
    result: Result<Vec<VersionedRecord>, Error>,
    place: int,
)
    requires
        call_ensures(versioned, (records, cursor), result),
    ensures
        result is Ok <==> increasing(records_view(records@)),
        result matches Ok(versions) ==> {
            &&& versions@.len() == records@.len()
            &&& 0 <= place < records@.len() ==> {
                &&& versions@[place]@.path == records@[place]@.path
                &&& versions@[place]@.value == records@[place]@.value
                &&& versions@[place]@.cursor == cursor.sequence
            }
        },
{
    if let Ok(versions) = result {
        let views = versions_view(versions@);
        let listed = at_cursor(records_view(records@), cursor.sequence);
        assert(views.len() == versions@.len() && listed.len() == records@.len());
        if 0 <= place < records@.len() {
            assert(views[place] == versions@[place]@);
            assert(listed[place].path == records@[place]@.path);
        }
    }
}

} // verus!
