//! Streams of namespace changes, laid over each other: of every path the newest change counts.

use vstd::prelude::*;

use crate::error::{corrupt, Error, Fault};
use crate::namespace::{
    find, find_at, found_at, has_path, increasing, records_view, NamespaceRecord, RecordView,
};
use crate::order::{before, before_irreflexive, before_total, strictly_sorted, Ranked};
use crate::ordered::{
    are_heads, exhausted, heads_with, is_group, is_next, leader_is_first,
    rising_groups_are_heads, sources_view, without_heads, OrderedMerge,
};
use crate::text::{text_precedes, text_rank, text_rank_is_injective};

verus! {

pub open spec fn unordered_fault() -> Fault {
    corrupt("read Managed namespace", "namespace stream is not strictly path ordered")
}

/// Check that a path stands behind the one before it.
pub fn require_increasing_path(previous: Option<&str>, path: &str) -> (result: Result<(), Error>)
    ensures
        match result {
            Ok(()) => previous is Some ==> before(text_rank(previous->0@), text_rank(path@)),
            Err(error) => previous is Some && !before(text_rank(previous->0@), text_rank(path@))
                && error.fault() == unordered_fault(),
        },
{
    if let Some(previous) = previous {
        if !text_precedes(previous, path) {
            return Err(
                Error::corrupt(
                    "read Managed namespace",
                    "namespace stream is not strictly path ordered",
                ),
            );
        }
    }
    Ok(())
}

/// Check that the records of a stream stand in the order of their paths.
pub fn check_increasing(records: &Vec<NamespaceRecord>) -> (result: Result<(), Error>)
    ensures
        match result {
            Ok(()) => increasing(records_view(records@)),
            Err(error) => !increasing(records_view(records@)) && error.fault()
                == unordered_fault(),
        },
{
    let ghost views = records_view(records@);
    let mut index: usize = 0;
    while index < records.len()
        invariant
            views == records_view(records@),
            index <= records@.len(),
            increasing(views.take(index as int)),
        decreases records@.len() - index,
    {
        let previous: Option<&str> = if index == 0 {
            None
        } else {
            Some(records[index - 1].path.as_str())
        };
        match require_increasing_path(previous, records[index].path.as_str()) {
            Ok(()) => {},
            Err(error) => {
                proof {
                    let prior = index - 1;
                    assert(views[prior] == records@[prior]@);
                    assert(views[index as int] == records@[index as int]@);
                }
                return Err(error);
            },
        }
        proof {
            let so_far = views.take(index as int);
            let now = views.take(index + 1);
            assert forall|i: int, j: int| 0 <= i < j < now.len() implies before(
                text_rank((#[trigger] now[i]).path),
                text_rank((#[trigger] now[j]).path),
            ) by {
                if j < index {
                    assert(before(text_rank(so_far[i].path), text_rank(so_far[j].path)));
                } else if i < index - 1 {
                    let prior = index - 1;
                    assert(before(text_rank(so_far[i].path), text_rank(so_far[prior].path)));
                    crate::order::before_transitive(
                        text_rank(now[i].path),
                        text_rank(records@[prior]@.path),
                        text_rank(now[j].path),
                    );
                }
            }
        }
        index += 1;
    }
    assert(views.take(index as int) =~= views);
    Ok(())
}

pub open spec fn streams_view(streams: Seq<Seq<NamespaceRecord>>) -> Seq<Seq<RecordView>> {
    Seq::new(streams.len(), |i: int| records_view(streams[i]))
}

pub open spec fn all_increasing(streams: Seq<Seq<RecordView>>) -> bool {
    forall|i: int| 0 <= i < streams.len() ==> increasing(#[trigger] streams[i])
}

/// The record of a path in the first stream that has one.
pub open spec fn first_with(streams: Seq<Seq<RecordView>>, path: Seq<char>) -> Option<RecordView>
    decreases streams.len(),
{
    if streams.len() == 0 {
        None
    } else if has_path(streams[0], path) {
        find(streams[0], path)
    } else {
        first_with(streams.skip(1), path)
    }
}

/// A stream of increasing paths has the path of its first record there and nowhere else, and
/// no path in front of it.
pub proof fn head_or_later(records: Seq<RecordView>, path: Seq<char>)
    requires
        increasing(records),
        has_path(records, path),
    ensures
        records.len() > 0,
        records[0].path == path || before(text_rank(records[0].path), text_rank(path)),
{
    let place = found_at(records, path);
    if place > 0 {
        assert(before(text_rank(records[0].path), text_rank(records[place].path)));
    }
}

pub proof fn find_behind_head(records: Seq<RecordView>, path: Seq<char>)
    requires
        increasing(records),
        records.len() > 0,
        records[0].path != path,
    ensures
        has_path(records.skip(1), path) == has_path(records, path),
        find(records.skip(1), path) == find(records, path),
        increasing(records.skip(1)),
{
    let rest = records.skip(1);
    assert forall|i: int, j: int| 0 <= i < j < rest.len() implies before(
        text_rank((#[trigger] rest[i]).path),
        text_rank((#[trigger] rest[j]).path),
    ) by {
        assert(before(text_rank(records[i + 1].path), text_rank(records[j + 1].path)));
    }
    if has_path(records, path) {
        let place = found_at(records, path);
        assert(rest[place - 1] == records[place]);
        find_at(rest, place - 1);
        find_at(records, place);
    }
    if has_path(rest, path) {
        let place = found_at(rest, path);
        assert(records[place + 1] == rest[place]);
    }
}

/// The first stream that begins with the leading path gives the record of that path.
proof fn first_of_heads(
    streams: Seq<Seq<NamespaceRecord>>,
    key: Seq<int>,
    path: Seq<char>,
    from: int,
)
    requires
        0 <= from <= streams.len(),
        all_increasing(streams_view(streams)),
        key == text_rank(path),
        forall|i: int|
            0 <= i < streams.len() && (#[trigger] streams[i]).len() > 0
                ==> crate::order::not_after(key, streams[i][0].rank()),
        forall|i: int|
            0 <= i < from && (#[trigger] streams[i]).len() > 0 ==> streams[i][0].rank() != key,
        exists|i: int|
            0 <= i < streams.len() && (#[trigger] streams[i]).len() > 0 && streams[i][0].rank()
                == key,
    ensures
        ({
            let heads = heads_with(streams, key, streams.len());
            &&& heads.len() > 0
            &&& first_with(streams_view(streams).skip(from), path) == Some(heads[0].1@)
            &&& heads[0].1@.path == path
        }),
    decreases streams.len() - from,
{
    let views = streams_view(streams);
    let rest = views.skip(from);
    heads_start(streams, key, from as nat, streams.len());
    if from < streams.len() {
        assert(rest[0] == views[from]);
        assert(rest.skip(1) =~= views.skip(from + 1));
        let stream = streams[from];
        if stream.len() > 0 && stream[0].rank() == key {
            assert(views[from][0] == stream[0]@);
            text_rank_is_injective(stream[0]@.path, path);
            assert(increasing(views[from]));
            find_at(views[from], 0);
            assert(has_path(views[from], path));
        } else {
            if has_path(views[from], path) {
                head_or_later(views[from], path);
                assert(views[from][0] == stream[0]@);
                assert(stream.len() > 0);
                if stream[0]@.path != path {
                    assert(before(stream[0].rank(), key));
                    assert(crate::order::not_after(key, streams[from][0].rank()));
                }
            }
            first_of_heads(streams, key, path, from + 1);
        }
    }
}

/// The first item of the heads with a key is that of the first stream that begins with it.
proof fn heads_start(
    streams: Seq<Seq<NamespaceRecord>>,
    key: Seq<int>,
    from: nat,
    count: nat,
)
    requires
        from <= count <= streams.len(),
        forall|i: int|
            0 <= i < from && (#[trigger] streams[i]).len() > 0 ==> streams[i][0].rank() != key,
    ensures
        from < count && streams[from as int].len() > 0 && streams[from as int][0].rank() == key
            ==> {
            let heads = heads_with(streams, key, count);
            heads.len() > 0 && heads[0].1 == streams[from as int][0]
        },
        heads_with(streams, key, from).len() == 0,
    decreases count,
{
    if count > 0 {
        if from == count {
            heads_start(streams, key, (from - 1) as nat, (count - 1) as nat);
            heads_none(streams, key, from);
        } else {
            heads_start(streams, key, from, (count - 1) as nat);
        }
    }
}

proof fn heads_none(streams: Seq<Seq<NamespaceRecord>>, key: Seq<int>, count: nat)
    requires
        count <= streams.len(),
        forall|i: int|
            0 <= i < count && (#[trigger] streams[i]).len() > 0 ==> streams[i][0].rank() != key,
    ensures
        heads_with(streams, key, count).len() == 0,
    decreases count,
{
    if count > 0 {
        heads_none(streams, key, (count - 1) as nat);
        let place = count - 1;
        assert(streams[place].len() > 0 ==> streams[place][0].rank() != key);
    }
}

/// Taking away the heads with a key changes nothing for other paths.
proof fn first_with_unchanged(
    streams: Seq<Seq<NamespaceRecord>>,
    key: Seq<int>,
    path: Seq<char>,
    from: int,
)
    requires
        0 <= from <= streams.len(),
        all_increasing(streams_view(streams)),
        text_rank(path) != key,
    ensures
        first_with(streams_view(without_heads(streams, key)).skip(from), path) == first_with(
            streams_view(streams).skip(from),
            path,
        ),
    decreases streams.len() - from,
{
    let views = streams_view(streams);
    let after = streams_view(without_heads(streams, key));
    if from < streams.len() {
        assert(views.skip(from)[0] == views[from]);
        assert(after.skip(from)[0] == after[from]);
        assert(views.skip(from).skip(1) =~= views.skip(from + 1));
        assert(after.skip(from).skip(1) =~= after.skip(from + 1));
        let stream = streams[from];
        if stream.len() > 0 && stream[0].rank() == key {
            assert(views[from][0] == stream[0]@);
            assert(after[from] =~= views[from].skip(1));
            assert(increasing(views[from]));
            find_behind_head(views[from], path);
        } else {
            assert(after[from] =~= views[from]);
        }
        first_with_unchanged(streams, key, path, from + 1);
    }
}

/// All that was merged stands in front of all that is left.
spec fn parted(merged: Seq<RecordView>, rest: Seq<Seq<RecordView>>) -> bool {
    forall|j: int, i: int, k: int|
        0 <= j < merged.len() && 0 <= i < rest.len() && 0 <= k < rest[i].len() ==> before(
            text_rank((#[trigger] merged[j]).path),
            text_rank((#[trigger] rest[i][k]).path),
        )
}

/// What was merged and what is left tell of every path what the streams tell.
spec fn tells(
    merged: Seq<RecordView>,
    rest: Seq<Seq<RecordView>>,
    streams: Seq<Seq<RecordView>>,
) -> bool {
    forall|path: Seq<char>|
        #[trigger] first_with(streams, path) == (if has_path(merged, path) {
            find(merged, path)
        } else {
            first_with(rest, path)
        })
}

/// One group of a merge, of which the first record is kept.
proof fn merge_step(
    merged: Seq<RecordView>,
    rest: Seq<Seq<NamespaceRecord>>,
    source: int,
    group: Seq<(usize, NamespaceRecord)>,
    left: Seq<Seq<NamespaceRecord>>,
    streams: Seq<Seq<RecordView>>,
)
    requires
        increasing(merged),
        all_increasing(streams_view(rest)),
        parted(merged, streams_view(rest)),
        tells(merged, streams_view(rest), streams),
        is_next(rest, source),
        are_heads(rest, source, group, left),
    ensures
        ({
            let longer = merged.push(group[0].1@);
            &&& increasing(longer)
            &&& all_increasing(streams_view(left))
            &&& parted(longer, streams_view(left))
            &&& tells(longer, streams_view(left), streams)
        }),
{
    let views = streams_view(rest);
    let after = streams_view(left);
    let key = rest[source][0].rank();
    let path = rest[source][0]@.path;
    assert forall|i: int| 0 <= i < rest.len() && (#[trigger] rest[i]).len() > 0
        implies crate::order::not_after(key, rest[i][0].rank()) by {
        leader_is_first(rest, source, i);
    }
    first_of_heads(rest, key, path, 0);
    assert(views.skip(0) =~= views);
    assert(after.skip(0) =~= after);
    let record = group[0].1@;
    let longer = merged.push(record);
    assert(views[source][0] == rest[source][0]@);
    assert forall|i: int, j: int| 0 <= i < j < longer.len() implies before(
        text_rank((#[trigger] longer[i]).path),
        text_rank((#[trigger] longer[j]).path),
    ) by {
        if j < merged.len() {
            assert(before(text_rank(merged[i].path), text_rank(merged[j].path)));
        } else {
            assert(before(text_rank(merged[i].path), text_rank(views[source][0].path)));
        }
    }
    assert forall|i: int| 0 <= i < after.len() implies increasing(#[trigger] after[i]) by {
        assert(increasing(views[i]));
        if rest[i].len() > 0 && rest[i][0].rank() == key {
            assert(after[i] =~= views[i].skip(1));
            assert forall|a: int, b: int| 0 <= a < b < after[i].len() implies before(
                text_rank((#[trigger] after[i][a]).path),
                text_rank((#[trigger] after[i][b]).path),
            ) by {
                assert(before(text_rank(views[i][a + 1].path), text_rank(views[i][b + 1].path)));
            }
        } else {
            assert(after[i] =~= views[i]);
        }
    }
    assert forall|j: int, i: int, k: int|
        0 <= j < longer.len() && 0 <= i < after.len() && 0 <= k < after[i].len() implies before(
        text_rank((#[trigger] longer[j]).path),
        text_rank((#[trigger] after[i][k]).path),
    ) by {
        let taken = rest[i].len() > 0 && rest[i][0].rank() == key;
        let shift: int = if taken {
            1
        } else {
            0
        };
        assert(after[i][k] == views[i][k + shift]);
        assert(increasing(views[i]));
        if j < merged.len() {
            assert(before(text_rank(merged[j].path), text_rank(views[i][k + shift].path)));
        } else {
            assert(views[i][0] == rest[i][0]@);
            assert(crate::order::not_after(key, rest[i][0].rank()));
            before_total(key, rest[i][0].rank());
            if k + shift > 0 {
                assert(before(text_rank(views[i][0].path), text_rank(views[i][k + shift].path)));
                if rest[i][0].rank() != key {
                    crate::order::before_transitive(
                        key,
                        text_rank(views[i][0].path),
                        text_rank(views[i][k + shift].path),
                    );
                }
            }
        }
    }
    assert forall|other: Seq<char>|
        #[trigger] first_with(streams, other) == (if has_path(longer, other) {
            find(longer, other)
        } else {
            first_with(after, other)
        }) by {
        if other == path {
            find_at(longer, merged.len() as int);
            assert(longer[merged.len() as int].path == path);
            if has_path(merged, path) {
                let j = found_at(merged, path);
                assert(before(text_rank(merged[j].path), text_rank(views[source][0].path)));
                before_irreflexive(key);
            }
        } else {
            text_rank_is_injective(other, path);
            first_with_unchanged(rest, key, other, 0);
            if has_path(merged, other) {
                let j = found_at(merged, other);
                assert(longer[j] == merged[j]);
                find_at(longer, j);
                find_at(merged, j);
            }
            if has_path(longer, other) {
                let j = found_at(longer, other);
                assert(merged[j] == longer[j]);
            }
        }
    }
}

proof fn exhausted_tells_nothing(streams: Seq<Seq<RecordView>>, path: Seq<char>)
    requires
        exhausted(streams),
    ensures
        first_with(streams, path) is None,
    decreases streams.len(),
{
    if streams.len() > 0 {
        assert(streams[0].len() == 0);
        let rest = streams.skip(1);
        assert forall|i: int| 0 <= i < rest.len() implies (#[trigger] rest[i]).len() == 0 by {
            assert(streams[i + 1].len() == 0);
        }
        exhausted_tells_nothing(rest, path);
    }
}

/// Lay streams of changes over each other, the newest first: of every path the change of the
/// first stream that has one counts.
pub fn merge_changes(streams: Vec<Vec<NamespaceRecord>>) -> (result: Result<
    Vec<NamespaceRecord>,
    Error,
>)
    ensures
        ({
            let views = streams_view(sources_view(streams@));
            match result {
                Ok(merged) => {
                    &&& all_increasing(views)
                    &&& increasing(records_view(merged@))
                    &&& forall|path: Seq<char>|
                        #[trigger] find(records_view(merged@), path) == first_with(views, path)
                },
                Err(error) => !all_increasing(views) && error.fault() == unordered_fault(),
            }
        }),
{
    let ghost views = streams_view(sources_view(streams@));
    let mut index: usize = 0;
    while index < streams.len()
        invariant
            views == streams_view(sources_view(streams@)),
            index <= streams@.len(),
            forall|i: int| 0 <= i < index ==> increasing(#[trigger] views[i]),
        decreases streams@.len() - index,
    {
        assert(views[index as int] == records_view(streams@[index as int]@));
        match check_increasing(&streams[index]) {
            Ok(()) => {},
            Err(error) => {
                return Err(error);
            },
        }
        index += 1;
    }
    let mut merge = OrderedMerge::from_readers(streams);
    let mut merged: Vec<NamespaceRecord> = Vec::new();
    let mut open = true;
    proof {
        assert(streams_view(merge.rest()) =~= views);
        assert(records_view(merged@) =~= Seq::empty());
    }
    while open
        invariant
            increasing(records_view(merged@)),
            all_increasing(streams_view(merge.rest())),
            parted(records_view(merged@), streams_view(merge.rest())),
            tells(records_view(merged@), streams_view(merge.rest()), views),
            !open ==> exhausted(merge.rest()),
        decreases all_left(merge.rest()), open as int,
    {
        let ghost rest = merge.rest();
        let ghost so_far = records_view(merged@);
        match merge.next_group() {
            None => {
                open = false;
            },
            Some(group) => {
                let ghost source = choose|source: int| #[trigger]
                    is_next(rest, source) && is_group(rest, source, group@, merge.rest());
                proof {
                    streams_rise(rest);
                    rising_groups_are_heads(rest, source, group@, merge.rest());
                    merge_step(so_far, rest, source, group@, merge.rest(), views);
                    fewer_left(rest, source);
                }
                let ghost first = group@[0].1@;
                let mut group = crate::order::reversed(group);
                let (_, record) = group.pop().unwrap();
                merged.push(record);
                assert(records_view(merged@) =~= so_far.push(first));
            },
        }
    }
    proof {
        let left = streams_view(merge.rest());
        assert forall|i: int| 0 <= i < left.len() implies (#[trigger] left[i]).len() == 0 by {
            assert(merge.rest()[i].len() == 0);
        }
        assert forall|path: Seq<char>|
            #[trigger] find(records_view(merged@), path) == first_with(views, path) by {
            exhausted_tells_nothing(left, path);
            assert(first_with(views, path) == (if has_path(records_view(merged@), path) {
                find(records_view(merged@), path)
            } else {
                first_with(left, path)
            }));
        }
    }
    Ok(merged)
}

/// Streams with increasing paths have rising keys.
pub proof fn streams_rise(rest: Seq<Seq<NamespaceRecord>>)
    requires
        all_increasing(streams_view(rest)),
    ensures
        forall|i: int| 0 <= i < rest.len() ==> strictly_sorted(#[trigger] rest[i]),
{
    let views = streams_view(rest);
    assert forall|i: int| 0 <= i < rest.len() implies strictly_sorted(#[trigger] rest[i]) by {
        assert(increasing(views[i]));
        assert forall|a: int, b: int| 0 <= a < b < rest[i].len() implies #[trigger] before(
            rest[i][a].rank(),
            #[trigger] rest[i][b].rank(),
        ) by {
            assert(before(text_rank(views[i][a].path), text_rank(views[i][b].path)));
        }
    }
}

/// The number of items that are left.
pub open spec fn all_left<T>(rest: Seq<Seq<T>>) -> nat
    decreases rest.len(),
{
    if rest.len() == 0 {
        0
    } else {
        all_left(rest.drop_last()) + rest.last().len()
    }
}

/// A group takes items away.
pub proof fn fewer_left<T: Ranked>(rest: Seq<Seq<T>>, source: int)
    requires
        0 <= source < rest.len(),
        rest[source].len() > 0,
    ensures
        all_left(without_heads(rest, rest[source][0].rank())) < all_left(rest),
{
    fewer_left_of(rest, rest[source][0].rank(), source);
}

proof fn fewer_left_of<T: Ranked>(rest: Seq<Seq<T>>, key: Seq<int>, source: int)
    ensures
        all_left(without_heads(rest, key)) <= all_left(rest),
        0 <= source < rest.len() && rest[source].len() > 0 && rest[source][0].rank() == key
            ==> all_left(without_heads(rest, key)) < all_left(rest),
    decreases rest.len(),
{
    if rest.len() > 0 {
        let front = rest.drop_last();
        fewer_left_of(front, key, source);
        let after = without_heads(rest, key);
        assert(after.drop_last() =~= without_heads(front, key));
        let last = rest.len() - 1;
        assert(after.last() == after[last]);
    }
}

/// What changes come to at a path is what the first stream says that has the path; a path that
/// no stream has does not change.
pub proof fn the_first_stream_decides(
    streams: Vec<Vec<NamespaceRecord>>,
    result: Result<Vec<NamespaceRecord>, Error>,
    path: Seq<char>,
    index: int,
)
    requires
        call_ensures(merge_changes, (streams,), result),
        result is Ok,
        0 <= index <= streams@.len(),
        forall|i: int|
            0 <= i < index ==> !has_path(records_view((#[trigger] streams@[i])@), path),
        index < streams@.len() ==> has_path(records_view(streams@[index]@), path),
    ensures
        find(records_view(result->Ok_0@), path) == if index < streams@.len() {
            find(records_view(streams@[index]@), path)
        } else {
            None
        },
        increasing(records_view(result->Ok_0@)),
{
    let views = streams_view(sources_view(streams@));
    assert(forall|i: int|
        0 <= i < streams@.len() ==> #[trigger] views[i] == records_view(streams@[i]@));
    assert(find(records_view(result->Ok_0@), path) == first_with(views, path));
    first_that_has(views, path, index);
}

proof fn first_that_has(streams: Seq<Seq<RecordView>>, path: Seq<char>, index: int)
    requires
        0 <= index <= streams.len(),
        forall|i: int| 0 <= i < index ==> !has_path(#[trigger] streams[i], path),
        index < streams.len() ==> has_path(streams[index], path),
    ensures
        first_with(streams, path) == if index < streams.len() {
            find(streams[index], path)
        } else {
            None
        },
    decreases streams.len(),
{
    if index > 0 {
        assert(!has_path(streams[0], path));
        let rest = streams.skip(1);
        assert forall|i: int| 0 <= i < index - 1 implies !has_path(#[trigger] rest[i], path) by {
            assert(rest[i] == streams[i + 1]);
        }
        first_that_has(rest, path, index - 1);
    }
}

/// Streams are merged exactly if each is in the order of its paths, no path standing twice.
pub proof fn ordered_streams_are_merged(
    streams: Vec<Vec<NamespaceRecord>>,
    result: Result<Vec<NamespaceRecord>, Error>,
)
    requires
        call_ensures(merge_changes, (streams,), result),
    ensures
        result is Ok <==> forall|i: int|
            0 <= i < streams@.len() ==> increasing(records_view((#[trigger] streams@[i])@)),
{
    let views = streams_view(sources_view(streams@));
    assert(forall|i: int|
        0 <= i < streams@.len() ==> #[trigger] views[i] == records_view(streams@[i]@));
    assert(forall|i: int|
        0 <= i < streams@.len() ==> views[i] == records_view((#[trigger] streams@[i])@));
}

} // verus!
