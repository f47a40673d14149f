//! Three namespaces side by side: for every path what each of them has there.

use vstd::prelude::*;

use crate::changes::{
    all_left, fewer_left, find_behind_head, head_or_later, streams_rise, streams_view,
};
use crate::namespace::{
    find_at, found_at, has_path, increasing, member_view, records_fault, records_view, value_at,
    MemberView, Namespace, NamespaceNode, NamespaceRecord, RecordView,
};
use crate::order::{before, before_irreflexive, before_total, Ranked};
use crate::ordered::{
    exhausted, first_is_in_heads, heads_are_first, is_group, is_next, leader_is_first,
    rising_groups_are_heads, without_heads, OrderedMerge,
};
use crate::text::{text_rank, text_rank_is_injective};

verus! {

#[verifier::ext_equal]
pub ghost struct GroupView {
    pub path: Seq<char>,
    pub common: Option<MemberView>,
    pub local: Option<MemberView>,
    pub remote: Option<MemberView>,
}

impl GroupView {
    /// What one of the namespaces has.
    pub open spec fn slot(self, source: int) -> Option<MemberView> {
        if source == 0 {
            self.common
        } else if source == 1 {
            self.local
        } else {
            self.remote
        }
    }
}

/// What the three namespaces have at one path.
#[derive(Debug)]
pub struct PathGroup {
    pub path: String,
    pub common: Option<NamespaceNode>,
    pub local: Option<NamespaceNode>,
    pub remote: Option<NamespaceNode>,
}

impl PathGroup {
    pub open spec fn view(&self) -> GroupView {
        GroupView {
            path: self.path@,
            common: member_view(self.common),
            local: member_view(self.local),
            remote: member_view(self.remote),
        }
    }
}

pub open spec fn groups_view(groups: Seq<PathGroup>) -> Seq<GroupView> {
    Seq::new(groups.len(), |i: int| groups[i]@)
}

pub open spec fn groups_increase(groups: Seq<GroupView>) -> bool {
    forall|i: int, j: int|
        0 <= i < j < groups.len() ==> before(
            text_rank((#[trigger] groups[i]).path),
            text_rank((#[trigger] groups[j]).path),
        )
}

pub open spec fn has_group(groups: Seq<GroupView>, path: Seq<char>) -> bool {
    exists|i: int| 0 <= i < groups.len() && (#[trigger] groups[i]).path == path
}

/// The groups stand in the order of their paths, they have the paths of the three namespaces,
/// and at each path what the namespaces have there.
pub open spec fn are_groups(groups: Seq<GroupView>, streams: Seq<Seq<RecordView>>) -> bool {
    &&& groups_increase(groups)
    &&& forall|i: int, source: int|
        0 <= i < groups.len() && 0 <= source < 3 ==> #[trigger] groups[i].slot(source) == value_at(
            streams[source],
            groups[i].path,
        )
    &&& forall|path: Seq<char>, source: int|
        0 <= source < 3 && #[trigger] has_path(streams[source], path) ==> has_group(groups, path)
    &&& forall|i: int|
        0 <= i < groups.len() ==> {
            let path = (#[trigger] groups[i]).path;
            has_path(streams[0], path) || has_path(streams[1], path) || has_path(streams[2], path)
        }
}

pub open spec fn three(
    common: Seq<RecordView>,
    local: Seq<RecordView>,
    remote: Seq<RecordView>,
) -> Seq<Seq<RecordView>> {
    seq![common, local, remote]
}

/// What was grouped and what is left make up the streams.
spec fn grouping(
    groups: Seq<GroupView>,
    rest: Seq<Seq<RecordView>>,
    streams: Seq<Seq<RecordView>>,
) -> bool {
    &&& groups_increase(groups)
    &&& rest.len() == 3
    &&& forall|source: int| 0 <= source < 3 ==> increasing(#[trigger] rest[source])
    &&& forall|i: int, source: int, k: int|
        0 <= i < groups.len() && 0 <= source < 3 && 0 <= k < rest[source].len() ==> before(
            text_rank((#[trigger] groups[i]).path),
            text_rank((#[trigger] rest[source][k]).path),
        )
    &&& forall|i: int, source: int|
        0 <= i < groups.len() && 0 <= source < 3 ==> #[trigger] groups[i].slot(source) == value_at(
            streams[source],
            groups[i].path,
        )
    &&& forall|path: Seq<char>, source: int|
        0 <= source < 3 && #[trigger] has_path(streams[source], path) ==> has_group(groups, path)
            || has_path(rest[source], path)
    &&& forall|path: Seq<char>, source: int|
        0 <= source < 3 && #[trigger] has_path(rest[source], path) ==> has_path(
            streams[source],
            path,
        )
    &&& forall|path: Seq<char>, source: int|
        0 <= source < 3 && !has_group(groups, path) ==> #[trigger] value_at(streams[source], path)
            == value_at(rest[source], path)
    &&& forall|i: int|
        0 <= i < groups.len() ==> {
            let path = (#[trigger] groups[i]).path;
            has_path(streams[0], path) || has_path(streams[1], path) || has_path(streams[2], path)
        }
}

/// The group is made of the first records with the key.
spec fn is_group_of(
    group: GroupView,
    rest: Seq<Seq<NamespaceRecord>>,
    source: int,
) -> bool {
    let key = rest[source][0].rank();
    &&& group.path == rest[source][0]@.path
    &&& forall|s: int|
        0 <= s < 3 ==> #[trigger] group.slot(s) == (if rest[s].len() > 0 && rest[s][0].rank() == key {
            rest[s][0]@.value
        } else {
            None
        })
}

/// A path in front of all that a stream has is not in the stream.
proof fn absent_before_head(records: Seq<RecordView>, path: Seq<char>)
    requires
        increasing(records),
        records.len() > 0 ==> before(text_rank(path), text_rank(records[0].path)),
    ensures
        !has_path(records, path),
{
    if has_path(records, path) {
        head_or_later(records, path);
        crate::order::before_asymmetric(text_rank(path), text_rank(records[0].path));
    }
}

proof fn grouping_step(
    groups: Seq<GroupView>,
    rest: Seq<Seq<NamespaceRecord>>,
    source: int,
    group: GroupView,
    streams: Seq<Seq<RecordView>>,
)
    requires
        grouping(groups, streams_view(rest), streams),
        is_next(rest, source),
        is_group_of(group, rest, source),
    ensures
        grouping(
            groups.push(group),
            streams_view(without_heads(rest, rest[source][0].rank())),
            streams,
        ),
{
    let key = rest[source][0].rank();
    let path = group.path;
    let views = streams_view(rest);
    let left = without_heads(rest, key);
    let after = streams_view(left);
    let longer = groups.push(group);
    assert(views[source][0] == rest[source][0]@);
    assert forall|s: int| 0 <= s < 3 implies {
        &&& increasing(#[trigger] after[s])
        &&& rest[s].len() > 0 && rest[s][0].rank() == key ==> after[s] == views[s].skip(1)
            && views[s][0].path == path
        &&& !(rest[s].len() > 0 && rest[s][0].rank() == key) ==> after[s] == views[s]
            && !has_path(views[s], path)
    } by {
        assert(increasing(views[s]));
        if rest[s].len() > 0 {
            assert(views[s][0] == rest[s][0]@);
            leader_is_first(rest, source, s);
            if rest[s][0].rank() == key {
                assert(after[s] =~= views[s].skip(1));
                text_rank_is_injective(rest[s][0]@.path, path);
                assert forall|a: int, b: int| 0 <= a < b < after[s].len() implies before(
                    text_rank((#[trigger] after[s][a]).path),
                    text_rank((#[trigger] after[s][b]).path),
                ) by {
                    assert(before(
                        text_rank(views[s][a + 1].path),
                        text_rank(views[s][b + 1].path),
                    ));
                }
            } else {
                assert(after[s] =~= views[s]);
                before_total(key, rest[s][0].rank());
                absent_before_head(views[s], path);
            }
        } else {
            assert(after[s] =~= views[s]);
        }
    }
    assert forall|i: int, j: int| 0 <= i < j < longer.len() implies before(
        text_rank((#[trigger] longer[i]).path),
        text_rank((#[trigger] longer[j]).path),
    ) by {
        if j < groups.len() {
            assert(before(text_rank(groups[i].path), text_rank(groups[j].path)));
        } else {
            assert(before(text_rank(groups[i].path), text_rank(views[source][0].path)));
        }
    }
    assert(!has_group(groups, path)) by {
        if has_group(groups, path) {
            let i = choose|i: int| 0 <= i < groups.len() && (#[trigger] groups[i]).path == path;
            assert(before(text_rank(groups[i].path), text_rank(views[source][0].path)));
            before_irreflexive(key);
        }
    }
    assert forall|i: int, s: int, k: int|
        0 <= i < longer.len() && 0 <= s < 3 && 0 <= k < after[s].len() implies before(
        text_rank((#[trigger] longer[i]).path),
        text_rank((#[trigger] after[s][k]).path),
    ) by {
        assert(increasing(after[s]));
        assert(increasing(views[s]));
        let shift: int = if rest[s].len() > 0 && rest[s][0].rank() == key {
            1
        } else {
            0
        };
        assert(after[s][k] == views[s][k + shift]);
        if i < groups.len() {
            assert(before(text_rank(groups[i].path), text_rank(views[s][k + shift].path)));
        } else {
            assert(views[s][0] == rest[s][0]@);
            leader_is_first(rest, source, s);
            before_total(key, rest[s][0].rank());
            if k + shift > 0 {
                assert(before(text_rank(views[s][0].path), text_rank(views[s][k + shift].path)));
                if rest[s][0].rank() != key {
                    crate::order::before_transitive(
                        key,
                        text_rank(views[s][0].path),
                        text_rank(views[s][k + shift].path),
                    );
                }
            }
        }
    }
    assert forall|i: int, s: int|
        0 <= i < longer.len() && 0 <= s < 3 implies #[trigger] longer[i].slot(s) == value_at(
        streams[s],
        longer[i].path,
    ) by {
        if i < groups.len() {
            assert(groups[i].slot(s) == value_at(streams[s], groups[i].path));
        } else {
            assert(group.slot(s) == (if rest[s].len() > 0 && rest[s][0].rank() == key {
                rest[s][0]@.value
            } else {
                None
            }));
            assert(increasing(after[s]));
            assert(value_at(streams[s], path) == value_at(views[s], path));
            if rest[s].len() > 0 && rest[s][0].rank() == key {
                assert(views[s][0] == rest[s][0]@);
                assert(increasing(views[s]));
                find_at(views[s], 0);
            }
        }
    }
    assert forall|other: Seq<char>, s: int|
        0 <= s < 3 && #[trigger] has_path(streams[s], other) implies has_group(longer, other)
        || has_path(after[s], other) by {
        if has_group(groups, other) {
            let i = choose|i: int| 0 <= i < groups.len() && (#[trigger] groups[i]).path == other;
            assert(longer[i].path == other);
        } else if other == path {
            assert(longer[groups.len() as int].path == other);
        } else {
            assert(has_path(views[s], other));
            assert(increasing(after[s]));
            assert(increasing(views[s]));
            if rest[s].len() > 0 && rest[s][0].rank() == key {
                find_behind_head(views[s], other);
            }
        }
    }
    assert forall|other: Seq<char>, s: int|
        0 <= s < 3 && #[trigger] has_path(after[s], other) implies has_path(streams[s], other) by {
        assert(increasing(after[s]));
        assert(increasing(views[s]));
        if rest[s].len() > 0 && rest[s][0].rank() == key {
            let k = found_at(after[s], other);
            assert(views[s][k + 1] == after[s][k]);
        }
        assert(has_path(views[s], other));
    }
    assert forall|other: Seq<char>, s: int|
        0 <= s < 3 && !has_group(longer, other) implies #[trigger] value_at(streams[s], other)
        == value_at(after[s], other) by {
        if has_group(groups, other) {
            let i = choose|i: int| 0 <= i < groups.len() && (#[trigger] groups[i]).path == other;
            assert(longer[i].path == other);
        }
        if other == path {
            assert(longer[groups.len() as int].path == other);
        }
        assert(increasing(after[s]));
        assert(increasing(views[s]));
        assert(value_at(streams[s], other) == value_at(views[s], other));
        if rest[s].len() > 0 && rest[s][0].rank() == key {
            find_behind_head(views[s], other);
        }
    }
    assert forall|i: int| 0 <= i < longer.len() implies {
        let at = (#[trigger] longer[i]).path;
        has_path(streams[0], at) || has_path(streams[1], at) || has_path(streams[2], at)
    } by {
        if i < groups.len() {
            assert(longer[i] == groups[i]);
        } else {
            assert(views[source][0].path == path);
            assert(has_path(views[source], path));
        }
    }
}

fn clone_records(records: &Vec<NamespaceRecord>) -> (result: Vec<NamespaceRecord>)
    ensures
        records_view(result@) == records_view(records@),
{
    let mut result: Vec<NamespaceRecord> = Vec::new();
    let mut index: usize = 0;
    while index < records.len()
        invariant
            index <= records@.len(),
            result@.len() == index,
            forall|i: int| 0 <= i < index ==> (#[trigger] result@[i])@ == records@[i]@,
        decreases records@.len() - index,
    {
        result.push(records[index].clone());
        index += 1;
    }
    assert(records_view(result@) =~= records_view(records@));
    result
}

/// The slots of the members of a group so far.
spec fn slots_filled(
    group: GroupView,
    members: Seq<(usize, NamespaceRecord)>,
    count: int,
) -> bool {
    &&& forall|n: int|
        0 <= n < count ==> group.slot((#[trigger] members[n]).0 as int) == members[n].1@.value
    &&& forall|s: int|
        0 <= s < 3 && (forall|n: int| 0 <= n < count ==> (#[trigger] members[n]).0 != s)
            ==> #[trigger] group.slot(s) is None
}

/// Put the members of a group into their places.
fn fill_group(members: Vec<(usize, NamespaceRecord)>) -> (group: PathGroup)
    requires
        members@.len() > 0,
        forall|n: int| 0 <= n < members@.len() ==> (#[trigger] members@[n]).0 < 3,
        forall|n: int, m: int|
            0 <= n < m < members@.len() ==> (#[trigger] members@[n]).0 < (#[trigger] members@[m]).0,
    ensures
        group@.path == members@[0].1@.path,
        slots_filled(group@, members@, members@.len() as int),
{
    let ghost given = members@;
    let path = members[0].1.path.clone();
    let mut remaining = crate::order::reversed(members);
    let ghost backward = remaining@;
    let mut group = PathGroup { path, common: None, local: None, remote: None };
    let ghost mut index: int = 0;
    while remaining.len() > 0
        invariant
            given == members@,
            backward == given.reverse(),
            0 <= index <= given.len(),
            remaining@ == backward.take(given.len() - index),
            forall|n: int| 0 <= n < given.len() ==> (#[trigger] given[n]).0 < 3,
            forall|n: int, m: int|
                0 <= n < m < given.len() ==> (#[trigger] given[n]).0 < (#[trigger] given[m]).0,
            group.path@ == path@,
            slots_filled(group@, given, index),
        decreases remaining@.len(),
    {
        let (source, record) = remaining.pop().unwrap();
        let ghost before = group@;
        let ghost value = record@.value;
        proof {
            assert((source, record) == given[index]);
            assert(remaining@ =~= backward.take(given.len() - (index + 1)));
        }
        if source == 0 {
            group.common = record.value;
        } else if source == 1 {
            group.local = record.value;
        } else {
            group.remote = record.value;
        }
        proof {
            assert forall|n: int| 0 <= n < index + 1 implies group@.slot(
                (#[trigger] given[n]).0 as int,
            ) == given[n].1@.value by {
                if n < index {
                    assert(given[n].0 < given[index].0);
                    assert(before.slot(given[n].0 as int) == given[n].1@.value);
                }
            }
            assert forall|s: int|
                0 <= s < 3 && (forall|n: int| 0 <= n < index + 1 ==> (#[trigger] given[n]).0 != s)
                implies #[trigger] group@.slot(s) is None by {
                assert(given[index].0 != s);
                assert(before.slot(s) is None);
            }
            index = index + 1;
        }
    }
    group
}

/// The sources of a group's members increase.
proof fn sources_increase(
    rest: Seq<Seq<NamespaceRecord>>,
    key: Seq<int>,
    count: nat,
)
    requires
        count <= rest.len() <= usize::MAX,
    ensures
        ({
            let heads = crate::ordered::heads_with(rest, key, count);
            &&& forall|n: int, m: int|
                0 <= n < m < heads.len() ==> (#[trigger] heads[n]).0 < (#[trigger] heads[m]).0
            &&& forall|n: int| 0 <= n < heads.len() ==> (#[trigger] heads[n]).0 < count
        }),
    decreases count,
{
    if count > 0 {
        sources_increase(rest, key, (count - 1) as nat);
        let earlier = crate::ordered::heads_with(rest, key, (count - 1) as nat);
        let heads = crate::ordered::heads_with(rest, key, count);
        assert forall|n: int, m: int| 0 <= n < m < heads.len() implies (#[trigger] heads[n]).0 < (
        #[trigger] heads[m]).0 by {
            assert(heads[n] == earlier[n]);
            if m < earlier.len() {
                assert(heads[m] == earlier[m]);
            }
        }
        assert forall|n: int| 0 <= n < heads.len() implies (#[trigger] heads[n]).0 < count by {
            if n < earlier.len() {
                assert(heads[n] == earlier[n]);
            }
        }
    }
}

/// Lay three namespaces side by side.
pub fn merge_groups(common: &Namespace, local: &Namespace, remote: &Namespace) -> (groups: Vec<
    PathGroup,
>)
    ensures
        are_groups(
            groups_view(groups@),
            three(common@.records, local@.records, remote@.records),
        ),
        records_fault(common@.records) is None,
        records_fault(local@.records) is None,
        records_fault(remote@.records) is None,
{
    let ghost streams = three(common@.records, local@.records, remote@.records);
    let mut sources: Vec<Vec<NamespaceRecord>> = Vec::new();
    sources.push(clone_records(common.records()));
    sources.push(clone_records(local.records()));
    sources.push(clone_records(remote.records()));
    let mut merge = OrderedMerge::from_readers(sources);
    let mut groups: Vec<PathGroup> = Vec::new();
    let mut open = true;
    proof {
        assert(streams_view(merge.rest()) =~= streams);
        assert(groups_view(groups@) =~= Seq::empty());
    }
    while open
        invariant
            merge.rest().len() == 3,
            grouping(groups_view(groups@), streams_view(merge.rest()), streams),
            !open ==> exhausted(merge.rest()),
        decreases all_left(merge.rest()), open as int,
    {
        let ghost rest = merge.rest();
        let ghost so_far = groups_view(groups@);
        match merge.next_group() {
            None => {
                open = false;
            },
            Some(members) => {
                let ghost source = choose|source: int| #[trigger]
                    is_next(rest, source) && is_group(rest, source, members@, merge.rest());
                let ghost key = rest[source][0].rank();
                proof {
                    streams_rise(rest);
                    rising_groups_are_heads(rest, source, members@, merge.rest());
                    fewer_left(rest, source);
                    sources_increase(rest, key, rest.len());
                }
                let ghost given = members@;
                let group = fill_group(members);
                proof {
                    let view = group@;
                    let first = heads_are_first(rest, key, rest.len(), 0);
                    text_rank_is_injective(rest[first][0]@.path, rest[source][0]@.path);
                    assert forall|s: int| 0 <= s < 3 implies #[trigger] view.slot(s) == (if rest[s].len()
                        > 0 && rest[s][0].rank() == key {
                        rest[s][0]@.value
                    } else {
                        None
                    }) by {
                        if rest[s].len() > 0 && rest[s][0].rank() == key {
                            let n = first_is_in_heads(rest, key, rest.len(), s);
                            assert(given[n].0 == s);
                        } else {
                            assert forall|n: int| 0 <= n < given.len() implies (
                            #[trigger] given[n]).0 != s by {
                                let place = heads_are_first(rest, key, rest.len(), n);
                            }
                        }
                    }
                    grouping_step(so_far, rest, source, view, streams);
                }
                groups.push(group);
                assert(groups_view(groups@) =~= so_far.push(group@));
            },
        }
    }
    proof {
        let left = streams_view(merge.rest());
        assert forall|path: Seq<char>, source: int|
            0 <= source < 3 && #[trigger] has_path(streams[source], path) implies has_group(
            groups_view(groups@),
            path,
        ) by {
            assert(merge.rest()[source].len() == 0);
            assert(left[source].len() == 0);
        }
    }
    groups
}

} // verus!
