//! Assembly of namespace views: what has to be read for them, and what comes of it.

use vstd::multiset::Multiset;
use vstd::prelude::*;

use crate::error::{corrupt, Error, Fault};
use crate::identity::NodeId;
use crate::layers::{map_fault, validate_file_map};
use crate::model::{
    wrong_stream, ChangeCursor, NamespaceChangeSegment, NamespaceCommit, NamespaceCommitView,
    NamespaceSnapshot, ObjectClass, StreamKind, StreamRef,
};
use crate::namespace::{
    delta_leads_to_target, delta_of, found_at, has_path, increasing, records_fault, records_view,
    value_at, MemberView, Namespace, NamespaceNode, NamespaceRecord, NamespaceValue,
    NamespaceView, RecordView, ValueView,
};
use crate::order::{before, strictly_sorted, Ranked};
use crate::path::{path_fault, validate_portable_path};
use crate::text::text_rank;
use crate::views::{
    at_cursor, conflict_fault, dominates, has_clash, is_dominated, is_newest_of, versions_view,
    NewestRecords, VersionView, VersionedRecord,
};
use crate::work::{
    items_of, levels_represent, levels_sound, levels_stand_for, pushed, pushed_items, RunCompactor,
    RunModel, WorkBudget,
};

verus! {

pub open spec fn view_corrupt(message: &str) -> Fault {
    corrupt("read Managed namespace", message)
}

/// The descriptor of a change stream cannot be right.
pub open spec fn bad_segment(segment: NamespaceChangeSegment, cursor: ChangeCursor) -> bool {
    segment.end_cursor.sequence > cursor.sequence || segment.compaction_weight_bytes == 0
}

pub open spec fn has_bad_segment(
    segments: Seq<NamespaceChangeSegment>,
    cursor: ChangeCursor,
) -> bool {
    exists|i: int| 0 <= i < segments.len() && bad_segment(#[trigger] segments[i], cursor)
}

/// Why a commit does not give a view at a cursor.
pub open spec fn view_fault(commit: NamespaceCommitView, cursor: ChangeCursor) -> Option<Fault> {
    if cursor == commit.namespace_snapshot.change_cursor {
        None
    } else if cursor != commit.change_cursor {
        Some(view_corrupt("commit cursor does not match the requested view"))
    } else if commit.namespace_changes.len() == 0 {
        Some(view_corrupt("namespace commit has no change stream for its cursor"))
    } else if commit.namespace_snapshot.change_cursor.sequence > cursor.sequence {
        Some(view_corrupt("snapshot is newer than the requested view"))
    } else if has_bad_segment(commit.namespace_changes, commit.change_cursor) {
        Some(view_corrupt("namespace change descriptor is invalid"))
    } else {
        None
    }
}

/// Check that a commit gives a view at a cursor.
pub fn validate_view(commit: &NamespaceCommit, cursor: ChangeCursor) -> (result: Result<(), Error>)
    ensures
        match result {
            Ok(()) => view_fault(commit@, cursor) is None,
            Err(error) => view_fault(commit@, cursor) == Some(error.fault()),
        },
{
    if cursor == commit.namespace_snapshot.change_cursor {
        return Ok(());
    }
    if cursor != commit.change_cursor {
        return Err(
            Error::corrupt(
                "read Managed namespace",
                "commit cursor does not match the requested view",
            ),
        );
    }
    if commit.namespace_changes.len() == 0 {
        return Err(
            Error::corrupt(
                "read Managed namespace",
                "namespace commit has no change stream for its cursor",
            ),
        );
    }
    if commit.namespace_snapshot.change_cursor.sequence() > cursor.sequence() {
        return Err(
            Error::corrupt(
                "read Managed namespace",
                "snapshot is newer than the requested view",
            ),
        );
    }
    let mut index: usize = 0;
    while index < commit.namespace_changes.len()
        invariant
            index <= commit.namespace_changes@.len(),
            cursor != commit.namespace_snapshot.change_cursor,
            cursor == commit.change_cursor,
            commit.namespace_changes@.len() > 0,
            commit.namespace_snapshot.change_cursor.sequence <= cursor.sequence,
            forall|i: int|
                0 <= i < index ==> !bad_segment(
                    #[trigger] commit.namespace_changes@[i],
                    commit.change_cursor,
                ),
        decreases commit.namespace_changes@.len() - index,
    {
        let segment = commit.namespace_changes[index];
        if segment.end_cursor.sequence() > commit.change_cursor.sequence()
            || segment.compaction_weight_bytes == 0 {
            assert(bad_segment(commit.namespace_changes@[index as int], commit.change_cursor));
            return Err(
                Error::corrupt("read Managed namespace", "namespace change descriptor is invalid"),
            );
        }
        index += 1;
    }
    Ok(())
}

/// Two descriptors name the same stream of changes.
pub open spec fn same_segment(left: NamespaceChangeSegment, right: NamespaceChangeSegment) -> bool {
    left.end_cursor == right.end_cursor && left.stream == right.stream
}

pub open spec fn has_segment(
    segments: Seq<NamespaceChangeSegment>,
    segment: NamespaceChangeSegment,
) -> bool {
    exists|i: int| 0 <= i < segments.len() && same_segment(#[trigger] segments[i], segment)
}

pub open spec fn segments_differ(segments: Seq<NamespaceChangeSegment>) -> bool {
    forall|i: int, j: int|
        0 <= i < j < segments.len() ==> !same_segment(
            #[trigger] segments[i],
            #[trigger] segments[j],
        )
}

pub open spec fn same_snapshot(left: NamespaceSnapshot, right: NamespaceSnapshot) -> bool {
    left.change_cursor == right.change_cursor && left.stream == right.stream
}

/// A view reads its changes, and not only its snapshot.
pub open spec fn reads_changes(commit: NamespaceCommitView, cursor: ChangeCursor) -> bool {
    cursor != commit.namespace_snapshot.change_cursor
}

pub ghost struct GroupView {
    pub snapshot: NamespaceSnapshot,
    pub members: Seq<usize>,
    pub segments: Seq<NamespaceChangeSegment>,
}

/// Views that share a snapshot, and the change streams that they read together.
pub struct ViewGroup {
    pub snapshot: NamespaceSnapshot,
    pub members: Vec<usize>,
    pub segments: Vec<NamespaceChangeSegment>,
}

impl ViewGroup {
    pub open spec fn view(&self) -> GroupView {
        GroupView {
            snapshot: self.snapshot,
            members: self.members@,
            segments: self.segments@,
        }
    }
}

pub open spec fn groups_view(groups: Seq<ViewGroup>) -> Seq<GroupView> {
    Seq::new(groups.len(), |g: int| groups[g]@)
}

/// The segments, and behind them those of more segments that are not there yet.
pub open spec fn with_segments(
    segments: Seq<NamespaceChangeSegment>,
    more: Seq<NamespaceChangeSegment>,
) -> Seq<NamespaceChangeSegment>
    decreases more.len(),
{
    if more.len() == 0 {
        segments
    } else {
        let earlier = with_segments(segments, more.drop_last());
        if has_segment(earlier, more.last()) {
            earlier
        } else {
            earlier.push(more.last())
        }
    }
}

/// The place of the first group with a snapshot; the number of groups if there is none.
pub open spec fn place_of(groups: Seq<GroupView>, snapshot: NamespaceSnapshot) -> int
    decreases groups.len(),
{
    if groups.len() == 0 {
        0
    } else {
        let earlier = place_of(groups.drop_last(), snapshot);
        if earlier < groups.len() - 1 || same_snapshot(groups.last().snapshot, snapshot) {
            earlier
        } else {
            groups.len() as int
        }
    }
}

/// The group with one more view.
pub open spec fn joined(
    group: GroupView,
    view: (NamespaceCommit, ChangeCursor),
    index: usize,
) -> GroupView {
    GroupView {
        members: group.members.push(index),
        segments: if reads_changes(view.0@, view.1) {
            with_segments(group.segments, view.0@.namespace_changes)
        } else {
            group.segments
        },
        ..group
    }
}

/// The groups with one more view: it joins the group of its snapshot, or makes one behind the
/// others.
pub open spec fn placed(
    groups: Seq<GroupView>,
    view: (NamespaceCommit, ChangeCursor),
    index: usize,
) -> Seq<GroupView> {
    let snapshot = view.0@.namespace_snapshot;
    let place = place_of(groups, snapshot);
    if place < groups.len() {
        groups.update(place, joined(groups[place], view, index))
    } else {
        let fresh = GroupView { snapshot, members: Seq::empty(), segments: Seq::empty() };
        groups.push(joined(fresh, view, index))
    }
}

/// The groups of the first views.
pub open spec fn groups_of(views: Seq<(NamespaceCommit, ChangeCursor)>, count: nat) -> Seq<
    GroupView,
>
    decreases count,
{
    if count == 0 {
        Seq::empty()
    } else {
        let place = (count - 1) as nat;
        placed(groups_of(views, place), views[place as int], place as usize)
    }
}

/// The first group with a snapshot stands at its place.
proof fn place_is(groups: Seq<GroupView>, snapshot: NamespaceSnapshot, place: int)
    requires
        0 <= place <= groups.len(),
        place < groups.len() ==> same_snapshot(groups[place].snapshot, snapshot),
        forall|g: int| 0 <= g < place ==> !same_snapshot((#[trigger] groups[g]).snapshot, snapshot),
    ensures
        place_of(groups, snapshot) == place,
    decreases groups.len(),
{
    if groups.len() > 0 {
        let front = groups.drop_last();
        if place == groups.len() {
            assert(!same_snapshot(groups[place - 1].snapshot, snapshot));
            place_is(front, snapshot, place - 1);
        } else {
            place_is(front, snapshot, place);
        }
    }
}

/// Whether the segments name the stream of changes.
fn holds_segment(segments: &Vec<NamespaceChangeSegment>, segment: NamespaceChangeSegment) -> (result:
    bool)
    ensures
        result == has_segment(segments@, segment),
{
    let mut index: usize = 0;
    while index < segments.len()
        invariant
            index <= segments@.len(),
            forall|i: int| 0 <= i < index ==> !same_segment(#[trigger] segments@[i], segment),
        decreases segments@.len() - index,
    {
        if segments[index].end_cursor == segment.end_cursor && segments[index].stream
            == segment.stream {
            assert(same_segment(segments@[index as int], segment));
            return true;
        }
        index += 1;
    }
    false
}

/// Add the change streams of one view that are not there yet.
fn add_segments(segments: &mut Vec<NamespaceChangeSegment>, more: &Vec<NamespaceChangeSegment>)
    requires
        segments_differ(old(segments)@),
    ensures
        final(segments)@ == with_segments(old(segments)@, more@),
        segments_differ(final(segments)@),
        forall|segment: NamespaceChangeSegment|
            #[trigger] has_segment(final(segments)@, segment) <==> has_segment(
                old(segments)@,
                segment,
            ) || has_segment(more@, segment),
{
    let ghost start = segments@;
    let mut index: usize = 0;
    while index < more.len()
        invariant
            index <= more@.len(),
            start == old(segments)@,
            segments@ == with_segments(start, more@.take(index as int)),
            segments_differ(segments@),
            forall|segment: NamespaceChangeSegment|
                #[trigger] has_segment(segments@, segment) <==> has_segment(start, segment)
                    || has_segment(more@.take(index as int), segment),
        decreases more@.len() - index,
    {
        let segment = more[index];
        let ghost before = segments@;
        if !holds_segment(segments, segment) {
            segments.push(segment);
        }
        proof {
            let now = more@.take(index + 1);
            let was = more@.take(index as int);
            assert(now.drop_last() =~= was);
            assert forall|other: NamespaceChangeSegment|
                #[trigger] has_segment(segments@, other) <==> has_segment(start, other)
                    || has_segment(now, other) by {
                segment_pushed(was, segment, other);
                assert(now =~= was.push(segment));
                assert(has_segment(before, other) <==> has_segment(start, other) || has_segment(
                    was,
                    other,
                ));
                if segments@.len() > before.len() {
                    segment_pushed(before, segment, other);
                } else if same_segment(segment, other) {
                    let i = choose|i: int|
                        0 <= i < before.len() && same_segment(#[trigger] before[i], segment);
                    assert(same_segment(before[i], other));
                }
            }
            assert(has_segment(before, segment) || segments@ == before.push(segment));
        }
        index += 1;
    }
    assert(more@.take(index as int) =~= more@);
}

proof fn segment_pushed(
    segments: Seq<NamespaceChangeSegment>,
    segment: NamespaceChangeSegment,
    other: NamespaceChangeSegment,
)
    ensures
        has_segment(segments.push(segment), other) <==> has_segment(segments, other)
            || same_segment(segment, other),
{
    let all = segments.push(segment);
    if has_segment(segments, other) {
        let i = choose|i: int| 0 <= i < segments.len() && same_segment(#[trigger] segments[i], other);
        assert(same_segment(all[i], other));
    }
    if same_segment(segment, other) {
        assert(same_segment(all[segments.len() as int], other));
    }
    if has_segment(all, other) {
        let i = choose|i: int| 0 <= i < all.len() && same_segment(#[trigger] all[i], other);
        if i < segments.len() {
            assert(same_segment(segments[i], other));
        }
    }
}

/// The views of the first places, and the changes that they read, are in their groups.
pub open spec fn grouped(
    views: Seq<(NamespaceCommit, ChangeCursor)>,
    count: int,
    groups: Seq<ViewGroup>,
) -> bool {
    &&& forall|i: int| 0 <= i < count ==> #[trigger] in_a_group(i, groups)
    &&& forall|g: int, m: int|
        0 <= g < groups.len() && 0 <= m < groups[g].members@.len() ==> {
            let member = #[trigger] groups[g].members@[m];
            &&& member < count
            &&& same_snapshot(views[member as int].0@.namespace_snapshot, groups[g].snapshot)
        }
    &&& forall|g: int, h: int|
        0 <= g < h < groups.len() ==> !same_snapshot(
            (#[trigger] groups[g]).snapshot,
            (#[trigger] groups[h]).snapshot,
        )
    &&& forall|g: int|
        0 <= g < groups.len() ==> (#[trigger] groups[g]).members@.len() > 0 && segments_differ(
            groups[g].segments@,
        )
    &&& forall|g: int, segment: NamespaceChangeSegment|
        0 <= g < groups.len() ==> (#[trigger] has_segment(groups[g].segments@, segment)
            <==> needed_by_some(views, groups[g].members@, segment))
}

/// A group has a view as a member.
pub open spec fn in_a_group(place: int, groups: Seq<ViewGroup>) -> bool {
    exists|g: int| 0 <= g < groups.len() && #[trigger] has_member(groups[g].members@, place)
}

pub open spec fn has_member(members: Seq<usize>, place: int) -> bool {
    exists|m: int| 0 <= m < members.len() && #[trigger] members[m] == place
}

/// A member reads the stream of changes.
pub open spec fn needed_by_some(
    views: Seq<(NamespaceCommit, ChangeCursor)>,
    members: Seq<usize>,
    segment: NamespaceChangeSegment,
) -> bool {
    exists|m: int|
        0 <= m < members.len() && needs(views[(#[trigger] members[m]) as int], segment)
}

pub open spec fn needs(
    view: (NamespaceCommit, ChangeCursor),
    segment: NamespaceChangeSegment,
) -> bool {
    reads_changes(view.0@, view.1) && has_segment(view.0@.namespace_changes, segment)
}

/// The first view that its commit does not give.
pub open spec fn views_fault(views: Seq<(NamespaceCommit, ChangeCursor)>) -> Option<Fault>
    decreases views.len(),
{
    if views.len() == 0 {
        None
    } else if views_fault(views.drop_last()) is Some {
        views_fault(views.drop_last())
    } else {
        view_fault(views.last().0@, views.last().1)
    }
}

proof fn first_view_fault(views: Seq<(NamespaceCommit, ChangeCursor)>, count: int)
    requires
        0 <= count <= views.len(),
        views_fault(views.take(count)) is Some,
    ensures
        views_fault(views) == views_fault(views.take(count)),
    decreases views.len() - count,
{
    if count == views.len() {
        assert(views.take(count) =~= views);
    } else {
        assert(views.take(count + 1).drop_last() =~= views.take(count));
        first_view_fault(views, count + 1);
    }
}

/// The streams of a group are those of namespaces.
pub open spec fn streams_right(group: GroupView) -> bool {
    &&& is_namespace_stream(group.snapshot.stream, StreamKind::NamespaceSnapshot)
    &&& forall|i: int|
        0 <= i < group.segments.len() ==> is_namespace_stream(
            (#[trigger] group.segments[i]).stream,
            StreamKind::NamespaceChanges,
        )
}

pub open spec fn all_streams_right(groups: Seq<GroupView>) -> bool {
    forall|g: int| 0 <= g < groups.len() ==> streams_right(#[trigger] groups[g])
}

pub open spec fn is_namespace_stream(stream: StreamRef, kind: StreamKind) -> bool {
    stream.kind == kind && stream.object.locator.class == ObjectClass::NamespaceSegment
}

/// The place of the group with a snapshot; the number of groups if there is none.
fn find_group(groups: &Vec<ViewGroup>, snapshot: NamespaceSnapshot) -> (place: usize)
    ensures
        place <= groups@.len(),
        place < groups@.len() ==> same_snapshot(groups@[place as int].snapshot, snapshot),
        forall|g: int|
            0 <= g < place ==> !same_snapshot((#[trigger] groups@[g]).snapshot, snapshot),
{
    let mut place: usize = 0;
    while place < groups.len()
        invariant
            place <= groups@.len(),
            forall|g: int|
                0 <= g < place ==> !same_snapshot((#[trigger] groups@[g]).snapshot, snapshot),
        decreases groups@.len() - place,
    {
        if groups[place].snapshot.change_cursor == snapshot.change_cursor
            && groups[place].snapshot.stream == snapshot.stream {
            return place;
        }
        place += 1;
    }
    place
}

proof fn member_pushed(members: Seq<usize>, more: usize, place: int)
    ensures
        has_member(members.push(more), place) <==> has_member(members, place) || more == place,
{
    let all = members.push(more);
    if has_member(members, place) {
        let m = choose|m: int| 0 <= m < members.len() && #[trigger] members[m] == place;
        assert(all[m] == place);
    }
    if more == place {
        assert(all[members.len() as int] == place);
    }
    if has_member(all, place) {
        let m = choose|m: int| 0 <= m < all.len() && #[trigger] all[m] == place;
        if m < members.len() {
            assert(members[m] == place);
        }
    }
}

proof fn need_pushed(
    views: Seq<(NamespaceCommit, ChangeCursor)>,
    members: Seq<usize>,
    more: usize,
    segment: NamespaceChangeSegment,
)
    ensures
        needed_by_some(views, members.push(more), segment) <==> needed_by_some(
            views,
            members,
            segment,
        ) || needs(views[more as int], segment),
{
    let all = members.push(more);
    if needed_by_some(views, members, segment) {
        let m = choose|m: int|
            0 <= m < members.len() && needs(views[(#[trigger] members[m]) as int], segment);
        assert(all[m] == members[m]);
    }
    if needs(views[more as int], segment) {
        assert(all[members.len() as int] == more);
    }
    if needed_by_some(views, all, segment) {
        let m = choose|m: int|
            0 <= m < all.len() && needs(views[(#[trigger] all[m]) as int], segment);
        if m < members.len() {
            assert(members[m] == all[m]);
        }
    }
}

/// Add the next view to its group.
fn place_view(
    groups: Vec<ViewGroup>,
    views: &Vec<(NamespaceCommit, ChangeCursor)>,
    index: usize,
) -> (result: Vec<ViewGroup>)
    requires
        index < views@.len(),
        grouped(views@, index as int, groups@),
    ensures
        grouped(views@, index + 1, result@),
        groups_view(result@) == placed(groups_view(groups@), views@[index as int], index),
{
    let ghost before = groups@;
    let mut groups = groups;
    let snapshot = views[index].0.namespace_snapshot;
    let place: usize = find_group(&groups, snapshot);
    let fresh = place == groups.len();
    let mut group = ViewGroup { snapshot, members: Vec::new(), segments: Vec::new() };
    if !fresh {
        groups.set_and_swap(place, &mut group);
    }
    let ghost old_group = group;
    if views[index].1 != snapshot.change_cursor {
        add_segments(&mut group.segments, &views[index].0.namespace_changes);
    }
    group.members.push(index);
    let ghost new_group = group;
    if fresh {
        groups.push(group);
    } else {
        groups.set(place, group);
    }
    proof {
        let after = groups@;
        let last = place as int;
        assert(fresh ==> after =~= before.push(new_group));
        assert(!fresh ==> old_group == before[last]);
        assert(!fresh ==> after =~= before.update(last, new_group));
        assert forall|segment: NamespaceChangeSegment|
            #[trigger] has_segment(new_group.segments@, segment) <==> needed_by_some(
                views@,
                new_group.members@,
                segment,
            ) by {
            need_pushed(views@, old_group.members@, index, segment);
            if !fresh {
                assert(has_segment(before[last].segments@, segment) <==> needed_by_some(
                    views@,
                    before[last].members@,
                    segment,
                ));
            }
        }
        assert forall|i: int| 0 <= i < index + 1 implies #[trigger] in_a_group(
            i,
            after,
        ) by {
            member_pushed(old_group.members@, index, i);
            if i == index {
                assert(has_member(after[last].members@, i));
            } else {
                assert(in_a_group(i, before));
                let g = choose|g: int|
                    0 <= g < before.len() && #[trigger] has_member(before[g].members@, i);
                assert(has_member(after[g].members@, i));
            }
        }
        assert forall|g: int, m: int|
            0 <= g < after.len() && 0 <= m < after[g].members@.len() implies {
            let member = #[trigger] after[g].members@[m];
            &&& member < index + 1
            &&& same_snapshot(views@[member as int].0@.namespace_snapshot, after[g].snapshot)
        } by {
            if g != last || m < old_group.members@.len() {
                assert(before[g].members@[m] == after[g].members@[m]);
            }
        }
        assert forall|g: int, h: int| 0 <= g < h < after.len() implies !same_snapshot(
            (#[trigger] after[g]).snapshot,
            (#[trigger] after[h]).snapshot,
        ) by {
            assert(after[g].snapshot == before[g].snapshot);
            if h < before.len() {
                assert(!same_snapshot(before[g].snapshot, before[h].snapshot));
            }
        }
        let views_before = groups_view(before);
        assert forall|g: int| 0 <= g < place implies !same_snapshot(
            (#[trigger] views_before[g]).snapshot,
            snapshot,
        ) by {
            assert(!same_snapshot(before[g].snapshot, snapshot));
        }
        place_is(views_before, snapshot, last);
        assert(old_group.members@.push(index) =~= new_group.members@);
        assert(groups_view(after) =~= placed(views_before, views@[index as int], index));
    }
    groups
}

/// Group the views by their snapshots, and collect the change streams that each group reads.
pub fn plan_views(views: &Vec<(NamespaceCommit, ChangeCursor)>) -> (result: Result<
    Vec<ViewGroup>,
    Error,
>)
    ensures
        match result {
            Ok(groups) => {
                &&& views_fault(views@) is None
                &&& grouped(views@, views@.len() as int, groups@)
                &&& groups_view(groups@) == groups_of(views@, views@.len())
                &&& all_streams_right(groups_of(views@, views@.len()))
            },
            Err(error) => if views_fault(views@) is Some {
                views_fault(views@) == Some(error.fault())
            } else {
                !all_streams_right(groups_of(views@, views@.len())) && error.fault()
                    == wrong_stream()
            },
        },
{
    let mut groups: Vec<ViewGroup> = Vec::new();
    let mut index: usize = 0;
    while index < views.len()
        invariant
            index <= views@.len(),
            views_fault(views@.take(index as int)) is None,
            grouped(views@, index as int, groups@),
            groups_view(groups@) == groups_of(views@, index as nat),
        decreases views@.len() - index,
    {
        proof {
            let now = views@.take(index + 1);
            assert(now.drop_last() =~= views@.take(index as int));
            assert(now.last() == views@[index as int]);
        }
        match validate_view(&views[index].0, views[index].1) {
            Ok(()) => {},
            Err(error) => {
                proof {
                    first_view_fault(views@, index + 1);
                }
                return Err(error);
            },
        }
        groups = place_view(groups, views, index);
        index += 1;
    }
    assert(views@.take(index as int) =~= views@);
    let mut place: usize = 0;
    while place < groups.len()
        invariant
            place <= groups@.len(),
            views_fault(views@) is None,
            grouped(views@, views@.len() as int, groups@),
            groups_view(groups@) == groups_of(views@, views@.len()),
            forall|g: int| 0 <= g < place ==> streams_right(#[trigger] groups_view(groups@)[g]),
        decreases groups@.len() - place,
    {
        match check_streams(&groups[place]) {
            Ok(()) => {},
            Err(error) => {
                assert(!streams_right(groups_view(groups@)[place as int]));
                return Err(error);
            },
        }
        place += 1;
    }
    Ok(groups)
}

fn check_streams(group: &ViewGroup) -> (result: Result<(), Error>)
    ensures
        match result {
            Ok(()) => streams_right(group@),
            Err(error) => !streams_right(group@) && error.fault() == wrong_stream(),
        },
{
    match group.snapshot.stream.require(
        StreamKind::NamespaceSnapshot,
        ObjectClass::NamespaceSegment,
    ) {
        Ok(()) => {},
        Err(error) => {
            return Err(error);
        },
    }
    let mut index: usize = 0;
    while index < group.segments.len()
        invariant
            index <= group.segments@.len(),
            is_namespace_stream(group.snapshot.stream, StreamKind::NamespaceSnapshot),
            forall|i: int|
                0 <= i < index ==> is_namespace_stream(
                    (#[trigger] group.segments@[i]).stream,
                    StreamKind::NamespaceChanges,
                ),
        decreases group.segments@.len() - index,
    {
        match group.segments[index].stream.require(
            StreamKind::NamespaceChanges,
            ObjectClass::NamespaceSegment,
        ) {
            Ok(()) => {},
            Err(error) => {
                return Err(error);
            },
        }
        index += 1;
    }
    Ok(())
}

/// One change stream with its records.
pub struct DownloadedChange {
    pub end_cursor: ChangeCursor,
    pub stream: StreamRef,
    pub records: Vec<VersionedRecord>,
}

pub open spec fn is_download(change: DownloadedChange, segment: NamespaceChangeSegment) -> bool {
    change.end_cursor == segment.end_cursor && change.stream == segment.stream
}

/// The records of the first download of a stream of changes.
pub open spec fn download_of(
    changes: Seq<DownloadedChange>,
    segment: NamespaceChangeSegment,
) -> Option<Seq<VersionedRecord>>
    decreases changes.len(),
{
    if changes.len() == 0 {
        None
    } else if is_download(changes[0], segment) {
        Some(changes[0].records@)
    } else {
        download_of(changes.skip(1), segment)
    }
}

pub open spec fn all_downloaded(
    changes: Seq<DownloadedChange>,
    segments: Seq<NamespaceChangeSegment>,
) -> bool {
    forall|i: int|
        0 <= i < segments.len() ==> download_of(changes, #[trigger] segments[i]) is Some
}

/// All records of a snapshot and of the streams of changes.
pub open spec fn view_items(
    snapshot: Seq<VersionedRecord>,
    changes: Seq<DownloadedChange>,
    segments: Seq<NamespaceChangeSegment>,
) -> Multiset<VersionView>
    decreases segments.len(),
{
    if segments.len() == 0 {
        versions_view(snapshot).to_multiset()
    } else {
        let rest = view_items(snapshot, changes, segments.drop_last());
        match download_of(changes, segments.last()) {
            Some(records) => rest.add(versions_view(records).to_multiset()),
            None => rest,
        }
    }
}

fn find_download(changes: &Vec<DownloadedChange>, segment: NamespaceChangeSegment) -> (result:
    Option<usize>)
    ensures
        match result {
            Some(place) => place < changes@.len() && download_of(changes@, segment) == Some(
                changes@[place as int].records@,
            ),
            None => download_of(changes@, segment) is None,
        },
{
    let mut place: usize = 0;
    assert(changes@.skip(0) =~= changes@);
    while place < changes.len()
        invariant
            place <= changes@.len(),
            download_of(changes@, segment) == download_of(changes@.skip(place as int), segment),
        decreases changes@.len() - place,
    {
        proof {
            let rest = changes@.skip(place as int);
            assert(rest[0] == changes@[place as int]);
            assert(rest.skip(1) =~= changes@.skip(place + 1));
        }
        if changes[place].end_cursor == segment.end_cursor && changes[place].stream
            == segment.stream {
            return Some(place);
        }
        place += 1;
    }
    None
}

fn clone_versions(records: &Vec<VersionedRecord>) -> (result: Vec<VersionedRecord>)
    requires
        strictly_sorted(records@),
    ensures
        versions_view(result@) == versions_view(records@),
        strictly_sorted(result@),
{
    let mut result: Vec<VersionedRecord> = Vec::new();
    let mut index: usize = 0;
    while index < records.len()
        invariant
            index <= records@.len(),
            result@.len() == index,
            forall|i: int| 0 <= i < index ==> (#[trigger] result@[i])@ == records@[i]@,
        decreases records@.len() - index,
    {
        result.push(records[index].clone());
        index += 1;
    }
    proof {
        assert(versions_view(result@) =~= versions_view(records@));
        assert forall|i: int, j: int| 0 <= i < j < result@.len() implies #[trigger] before(
            result@[i].rank(),
            #[trigger] result@[j].rank(),
        ) by {
            assert(before(records@[i].rank(), records@[j].rank()));
        }
    }
    result
}

/// The live records of a merged stream.
pub open spec fn live(records: Seq<VersionView>) -> Seq<RecordView>
    decreases records.len(),
{
    if records.len() == 0 {
        Seq::empty()
    } else {
        let rest = live(records.drop_last());
        if records.last().value is Some {
            rest.push(RecordView { path: records.last().path, value: records.last().value })
        } else {
            rest
        }
    }
}

/// What is wrong with one node of a view.
pub open spec fn member_fault(
    path: Seq<char>,
    node: MemberView,
    root: NodeId,
    decodings: usize,
) -> Option<Fault> {
    if path_fault(path) is Some {
        path_fault(path)
    } else if node.value matches ValueView::RegularFile { version, content, data } && map_fault(
        data,
        content,
        decodings,
    ) is Some {
        Some(view_corrupt("file content does not match its namespace record"))
    } else if path.len() == 0 && (node.node_id != root || !(node.value is Directory)) {
        Some(view_corrupt("namespace root is invalid"))
    } else {
        None
    }
}

/// The first fault of the live records.
pub open spec fn members_fault(
    records: Seq<VersionView>,
    root: NodeId,
    decodings: usize,
) -> Option<Fault>
    decreases records.len(),
{
    if records.len() == 0 {
        None
    } else if members_fault(records.drop_last(), root, decodings) is Some {
        members_fault(records.drop_last(), root, decodings)
    } else {
        match records.last().value {
            Some(node) => member_fault(records.last().path, node, root, decodings),
            None => None,
        }
    }
}

/// Why a merged stream is no namespace.
pub open spec fn finish_fault(
    records: Seq<VersionView>,
    root: NodeId,
    decodings: usize,
) -> Option<Fault> {
    if members_fault(records, root, decodings) is Some {
        members_fault(records, root, decodings)
    } else if !has_path(live(records), Seq::empty()) {
        Some(view_corrupt("namespace root is missing"))
    } else {
        None
    }
}

proof fn first_member_fault(
    records: Seq<VersionView>,
    count: int,
    root: NodeId,
    decodings: usize,
)
    requires
        0 <= count <= records.len(),
        members_fault(records.take(count), root, decodings) is Some,
    ensures
        members_fault(records, root, decodings) == members_fault(
            records.take(count),
            root,
            decodings,
        ),
    decreases records.len() - count,
{
    if count == records.len() {
        assert(records.take(count) =~= records);
    } else {
        assert(records.take(count + 1).drop_last() =~= records.take(count));
        first_member_fault(records, count + 1, root, decodings);
    }
}

/// Check one node of a view.
fn validate_member(path: &str, node: &NamespaceNode, root: NodeId, decodings: usize) -> (result:
    Result<(), Error>)
    ensures
        match result {
            Ok(()) => member_fault(path@, node@, root, decodings) is None,
            Err(error) => member_fault(path@, node@, root, decodings) == Some(error.fault()),
        },
{
    match validate_portable_path(path) {
        Ok(()) => {},
        Err(error) => {
            return Err(error);
        },
    }
    if let Some((_, content, data)) = node.file() {
        if validate_file_map(data, content, decodings).is_err() {
            return Err(
                Error::corrupt(
                    "read Managed namespace",
                    "file content does not match its namespace record",
                ),
            );
        }
    }
    let is_directory = match node.value {
        NamespaceValue::Directory { .. } => true,
        NamespaceValue::RegularFile { .. } => false,
    };
    if path.is_empty() && (node.node_id != root || !is_directory) {
        return Err(Error::corrupt("read Managed namespace", "namespace root is invalid"));
    }
    Ok(())
}

/// Live records stand in the order of the merged ones.
proof fn live_increases(records: Seq<VersionView>)
    requires
        forall|i: int, j: int|
            0 <= i < j < records.len() ==> before(
                text_rank((#[trigger] records[i]).path),
                text_rank((#[trigger] records[j]).path),
            ),
    ensures
        increasing(live(records)),
        forall|k: int|
            0 <= k < live(records).len() ==> exists|i: int|
                0 <= i < records.len() && (#[trigger] records[i]).path == (
                #[trigger] live(records)[k]).path && records[i].value == live(records)[k].value,
        forall|i: int|
            0 <= i < records.len() && (#[trigger] records[i]).value is Some ==> has_path(
                live(records),
                records[i].path,
            ),
    decreases records.len(),
{
    if records.len() > 0 {
        let front = records.drop_last();
        assert forall|i: int, j: int| 0 <= i < j < front.len() implies before(
            text_rank((#[trigger] front[i]).path),
            text_rank((#[trigger] front[j]).path),
        ) by {
            assert(before(text_rank(records[i].path), text_rank(records[j].path)));
        }
        live_increases(front);
        let rest = live(front);
        let all = live(records);
        let last = records.len() - 1;
        assert forall|k: int| 0 <= k < all.len() implies exists|i: int|
            0 <= i < records.len() && (#[trigger] records[i]).path == (#[trigger] all[k]).path
                && records[i].value == all[k].value by {
            if k < rest.len() {
                let i = choose|i: int|
                    0 <= i < front.len() && (#[trigger] front[i]).path == rest[k].path
                        && front[i].value == rest[k].value;
                assert(records[i] == front[i]);
            } else {
                assert(records[last].path == all[k].path);
            }
        }
        assert forall|i: int, j: int| 0 <= i < j < all.len() implies before(
            text_rank((#[trigger] all[i]).path),
            text_rank((#[trigger] all[j]).path),
        ) by {
            if j < rest.len() {
                assert(before(text_rank(rest[i].path), text_rank(rest[j].path)));
            } else {
                let k = choose|k: int|
                    0 <= k < front.len() && (#[trigger] front[k]).path == rest[i].path
                        && front[k].value == rest[i].value;
                assert(before(text_rank(records[k].path), text_rank(records[last].path)));
            }
        }
        assert forall|i: int|
            0 <= i < records.len() && (#[trigger] records[i]).value is Some implies has_path(
            all,
            records[i].path,
        ) by {
            if i < last {
                assert(front[i] == records[i]);
                let k = choose|k: int|
                    0 <= k < rest.len() && (#[trigger] rest[k]).path == records[i].path;
                assert(all[k].path == records[i].path);
            } else {
                assert(all[rest.len() as int].path == records[i].path);
            }
        }
    }
}

/// Records in order with portable paths have no fault.
pub proof fn ordered_records_are_sound(records: Seq<RecordView>)
    requires
        increasing(records),
        forall|i: int| 0 <= i < records.len() ==> path_fault((#[trigger] records[i]).path) is None,
    ensures
        records_fault(records) is None,
    decreases records.len(),
{
    if records.len() > 0 {
        let front = records.drop_last();
        assert forall|i: int, j: int| 0 <= i < j < front.len() implies before(
            text_rank((#[trigger] front[i]).path),
            text_rank((#[trigger] front[j]).path),
        ) by {
            assert(before(text_rank(records[i].path), text_rank(records[j].path)));
        }
        assert forall|i: int| 0 <= i < front.len() implies path_fault(
            (#[trigger] front[i]).path,
        ) is None by {
            assert(front[i] == records[i]);
        }
        ordered_records_are_sound(front);
        let last = records.len() - 1;
        assert(path_fault(records[last].path) is None);
        if last > 0 {
            let prior = last - 1;
            assert(before(text_rank(records[prior].path), text_rank(records[last].path)));
        }
    }
}

proof fn live_paths_are_portable(records: Seq<VersionView>, root: NodeId, decodings: usize)
    requires
        members_fault(records, root, decodings) is None,
    ensures
        forall|k: int|
            0 <= k < live(records).len() ==> path_fault((#[trigger] live(records)[k]).path)
                is None,
    decreases records.len(),
{
    if records.len() > 0 {
        live_paths_are_portable(records.drop_last(), root, decodings);
        let rest = live(records.drop_last());
        assert forall|k: int| 0 <= k < live(records).len() implies path_fault(
            (#[trigger] live(records)[k]).path,
        ) is None by {
            if k < rest.len() {
                assert(rest[k] == live(records)[k]);
            }
        }
    }
}

/// Make a namespace of the merged records of a view.
pub fn finish_view(
    commit: &NamespaceCommit,
    cursor: ChangeCursor,
    root: NodeId,
    decodings: usize,
    merged: Vec<VersionedRecord>,
) -> (result: Result<Namespace, Error>)
    requires
        strictly_sorted(merged@),
    ensures
        ({
            let records = versions_view(merged@);
            match result {
                Ok(namespace) => {
                    &&& finish_fault(records, root, decodings) is None
                    &&& namespace@ == (NamespaceView {
                        volume_id: commit.volume_id,
                        cursor,
                        root,
                        records: live(records),
                    })
                },
                Err(error) => finish_fault(records, root, decodings) == Some(error.fault()),
            }
        }),
{
    let ghost records = versions_view(merged@);
    let ghost given = merged@;
    let mut remaining = crate::order::reversed(merged);
    let ghost backward = remaining@;
    let mut entries: Vec<NamespaceRecord> = Vec::new();
    let mut root_seen = false;
    let ghost mut index: int = 0;
    proof {
        assert(records.take(0) =~= Seq::empty());
        assert(records_view(entries@) =~= live(records.take(0)));
    }
    while remaining.len() > 0
        invariant
            given == merged@,
            records == versions_view(given),
            backward == given.reverse(),
            0 <= index <= given.len(),
            remaining@ == backward.take(given.len() - index),
            members_fault(records.take(index), root, decodings) is None,
            records_view(entries@) == live(records.take(index)),
            root_seen == has_path(live(records.take(index)), Seq::empty()),
        decreases remaining@.len(),
    {
        let record = remaining.pop().unwrap();
        let ghost now = records.take(index + 1);
        let ghost so_far = live(records.take(index));
        proof {
            assert(record == given[index]);
            assert(remaining@ =~= backward.take(given.len() - (index + 1)));
            assert(now.drop_last() =~= records.take(index));
            assert(now.last() == record@);
        }
        if let Some(node) = record.value {
            let ghost view = RecordView { path: record.path@, value: Some(node@) };
            match validate_member(record.path.as_str(), &node, root, decodings) {
                Ok(()) => {},
                Err(error) => {
                    proof {
                        first_member_fault(records, index + 1, root, decodings);
                    }
                    return Err(error);
                },
            }
            if record.path.as_str().is_empty() {
                root_seen = true;
            }
            entries.push(NamespaceRecord { path: record.path, value: Some(node) });
            proof {
                assert(records_view(entries@) =~= so_far.push(view));
                path_pushed(so_far, view, Seq::empty());
                assert(view.path.len() == 0 ==> view.path =~= Seq::empty());
            }
        }
        proof {
            index = index + 1;
        }
    }
    proof {
        assert(records.take(index) =~= records);
    }
    if !root_seen {
        return Err(Error::corrupt("read Managed namespace", "namespace root is missing"));
    }
    proof {
        assert forall|i: int, j: int| 0 <= i < j < records.len() implies before(
            text_rank((#[trigger] records[i]).path),
            text_rank((#[trigger] records[j]).path),
        ) by {
            assert(before(given[i].rank(), given[j].rank()));
        }
        live_increases(records);
        live_paths_are_portable(records, root, decodings);
        ordered_records_are_sound(live(records));
    }
    Namespace::new(commit.volume_id, cursor, root, entries)
}

proof fn path_pushed(records: Seq<RecordView>, record: RecordView, path: Seq<char>)
    ensures
        has_path(records.push(record), path) <==> has_path(records, path) || record.path == path,
{
    let all = records.push(record);
    if has_path(records, path) {
        let i = found_at(records, path);
        assert(all[i] == records[i]);
    }
    if record.path == path {
        assert(all[records.len() as int].path == path);
    }
    if has_path(all, path) {
        let i = found_at(all, path);
        if i < records.len() {
            assert(records[i] == all[i]);
        }
    }
}

/// The value is that of the newest record of the path up to a cursor; none if there is no
/// such record, or if it is a deletion.
pub open spec fn is_newest_value(
    items: Multiset<VersionView>,
    cursor: u64,
    path: Seq<char>,
    value: Option<MemberView>,
) -> bool {
    ||| exists|record: VersionView|
        #[trigger] is_newest_record(items, cursor, record) && record.path == path && record.value
            == value
    ||| value is None && forall|record: VersionView|
        #[trigger] items.count(record) > 0 && record.path == path ==> record.cursor > cursor
}

pub open spec fn is_newest_record(
    items: Multiset<VersionView>,
    cursor: u64,
    record: VersionView,
) -> bool {
    &&& items.count(record) > 0
    &&& record.cursor <= cursor
    &&& forall|other: VersionView|
        #[trigger] items.count(other) > 0 && other.cursor <= cursor && other.path == record.path
            ==> dominates(record, other)
}

/// The items have no records newer than a cursor.
pub open spec fn none_newer(items: Multiset<VersionView>, cursor: u64) -> bool {
    forall|record: VersionView| #[trigger] items.count(record) > 0 ==> record.cursor <= cursor
}

/// The records stand in the order of their paths, and no path occurs twice.
pub open spec fn paths_rise(records: Seq<VersionView>) -> bool {
    forall|i: int, j: int|
        0 <= i < j < records.len() ==> before(
            text_rank((#[trigger] records[i]).path),
            text_rank((#[trigger] records[j]).path),
        )
}

/// The newest records of all paths give every path the value of its newest record.
pub proof fn merged_values_are_newest(
    merged: Seq<VersionView>,
    items: Multiset<VersionView>,
    cursor: u64,
    path: Seq<char>,
)
    requires
        paths_rise(merged),
        is_newest_of(merged, items, cursor),
        none_newer(items, cursor),
    ensures
        is_newest_value(items, cursor, path, value_at(live(merged), path)),
{
    live_increases(merged);
    let alive = live(merged);
    if exists|i: int| 0 <= i < merged.len() && (#[trigger] merged[i]).path == path {
        let i = choose|i: int| 0 <= i < merged.len() && (#[trigger] merged[i]).path == path;
        let record = merged[i];
        assert(items.count(record) > 0);
        assert forall|other: VersionView|
            #[trigger] items.count(other) > 0 && other.cursor <= cursor && other.path
                == record.path implies dominates(record, other) by {
            assert(is_dominated(merged, other, cursor));
            let j = choose|j: int|
                0 <= j < merged.len() && (#[trigger] merged[j]).cursor <= cursor && dominates(
                    merged[j],
                    other,
                );
            one_place(merged, i, j);
        }
        assert(is_newest_record(items, cursor, record));
        if has_path(alive, path) {
            let k = found_at(alive, path);
            let j = choose|j: int|
                0 <= j < merged.len() && (#[trigger] merged[j]).path == alive[k].path
                    && merged[j].value == alive[k].value;
            one_place(merged, i, j);
        } else if record.value is Some {
            assert(has_path(alive, merged[i].path));
        }
        assert(value_at(alive, path) == record.value);
    } else {
        if has_path(alive, path) {
            let k = found_at(alive, path);
            let j = choose|j: int|
                0 <= j < merged.len() && (#[trigger] merged[j]).path == alive[k].path
                    && merged[j].value == alive[k].value;
            assert(merged[j].path == path);
        }
        assert forall|record: VersionView|
            #[trigger] items.count(record) > 0 && record.path == path implies record.cursor
            > cursor by {
            if record.cursor <= cursor {
                assert(is_dominated(merged, record, cursor));
                let j = choose|j: int|
                    0 <= j < merged.len() && (#[trigger] merged[j]).cursor <= cursor && dominates(
                        merged[j],
                        record,
                    );
                assert(merged[j].path == path);
            }
        }
    }
}

proof fn one_place(records: Seq<VersionView>, i: int, j: int)
    requires
        forall|i: int, j: int|
            0 <= i < j < records.len() ==> before(
                text_rank((#[trigger] records[i]).path),
                text_rank((#[trigger] records[j]).path),
            ),
        0 <= i < records.len(),
        0 <= j < records.len(),
        records[i].path == records[j].path,
    ensures
        i == j,
{
    crate::order::before_irreflexive(text_rank(records[i].path));
    if i < j {
        assert(before(text_rank(records[i].path), text_rank(records[j].path)));
    } else if j < i {
        assert(before(text_rank(records[j].path), text_rank(records[i].path)));
    }
}

/// The downloads are what `versioned` gives, and none is newer than the view.
pub open spec fn downloads_sound(
    snapshot: Seq<VersionedRecord>,
    changes: Seq<DownloadedChange>,
) -> bool {
    &&& strictly_sorted(snapshot)
    &&& forall|i: int|
        0 <= i < changes.len() ==> strictly_sorted((#[trigger] changes[i]).records@)
}

/// A single run stands for its own records.
proof fn run_is_its_newest(records: Seq<VersionedRecord>, cursor: u64)
    requires
        strictly_sorted(records),
    ensures
        is_newest_of(versions_view(records), versions_view(records).to_multiset(), cursor),
{
    broadcast use vstd::seq_lib::group_to_multiset_ensures;

    let views = versions_view(records);
    let items = views.to_multiset();
    assert forall|i: int| 0 <= i < views.len() implies items.count(#[trigger] views[i]) > 0 by {
        assert(views.contains(views[i]));
    }
    assert forall|record: VersionView|
        #[trigger] items.count(record) > 0 && record.cursor <= cursor implies is_dominated(
        views,
        record,
        cursor,
    ) by {
        assert(views.contains(record));
        let i = choose|i: int| 0 <= i < views.len() && views[i] == record;
        assert(dominates(views[i], record));
    }
}

/// Merge a snapshot and the changes that were downloaded, as far as a cursor.
fn merge_view(
    commit: &NamespaceCommit,
    cursor: ChangeCursor,
    snapshot: &Vec<VersionedRecord>,
    changes: &Vec<DownloadedChange>,
    budget: WorkBudget,
) -> (result: Result<Vec<VersionedRecord>, Error>)
    requires
        downloads_sound(snapshot@, changes@),
    ensures
        ({
            let items = view_items(snapshot@, changes@, commit.namespace_changes@);
            match result {
                Ok(merged) => {
                    &&& all_downloaded(changes@, commit.namespace_changes@)
                    &&& strictly_sorted(merged@)
                    &&& is_newest_of(versions_view(merged@), items, cursor.sequence)
                },
                Err(error) => {
                    ||| !all_downloaded(changes@, commit.namespace_changes@) && error.fault()
                        == view_corrupt("namespace change stream was not downloaded")
                    ||| has_clash(items, cursor.sequence) && error.fault() == conflict_fault()
                },
            }
        }),
{
    let ghost segments = commit.namespace_changes@;
    let merger = NewestRecords { view_cursor: cursor, fan_in: budget.fan_in() };
    let first = clone_versions(snapshot);
    let compactor: RunCompactor<Vec<VersionedRecord>> = RunCompactor::new(budget.fan_in());
    let ghost width = compactor.width();
    let ghost none = Seq::<Seq<Seq<VersionView>>>::empty();
    proof {
        run_is_its_newest(first@, cursor.sequence);
        assert(levels_represent(&merger, compactor.levels(), none));
        assert(merger.represents(first, versions_view(snapshot@)));
        assert(merger.sound(first));
        assert(segments.take(0) =~= Seq::empty());
        pushed_items(none, versions_view(snapshot@), width);
        vstd::seq::Seq::<VersionView>::empty().to_multiset_ensures();
        assert(items_of(none) =~= Seq::<VersionView>::empty());
        assert(items_of(none).to_multiset().add(versions_view(snapshot@).to_multiset())
            =~= view_items(snapshot@, changes@, segments.take(0)));
    }
    let mut streams = match compactor.push(first, &merger) {
        Ok(streams) => streams,
        Err(error) => {
            proof {
                clash_stays(snapshot@, changes@, segments, 0, cursor.sequence);
            }
            return Err(error);
        },
    };
    let ghost mut parts = pushed(none, versions_view(snapshot@), width);
    let mut index: usize = 0;
    while index < commit.namespace_changes.len()
        invariant
            downloads_sound(snapshot@, changes@),
            segments == commit.namespace_changes@,
            merger.view_cursor == cursor,
            streams.width() == width <= merger.most(),
            index <= segments.len(),
            forall|i: int|
                0 <= i < index ==> download_of(changes@, #[trigger] segments[i]) is Some,
            streams.runs().len() > 0,
            levels_sound(&merger, streams.levels()),
            levels_represent(&merger, streams.levels(), parts),
            items_of(parts).to_multiset() == view_items(
                snapshot@,
                changes@,
                segments.take(index as int),
            ),
        decreases segments.len() - index,
    {
        let segment = commit.namespace_changes[index];
        proof {
            assert(segments.take(index + 1).drop_last() =~= segments.take(index as int));
            assert(segments.take(index + 1).last() == segment);
        }
        let place: usize = match find_download(changes, segment) {
            Some(place) => place,
            None => {
                assert(download_of(changes@, segments[index as int]) is None);
                return Err(
                    Error::corrupt(
                        "read Managed namespace",
                        "namespace change stream was not downloaded",
                    ),
                );
            },
        };
        let records = clone_versions(&changes[place].records);
        proof {
            run_is_its_newest(records@, cursor.sequence);
            assert(merger.represents(records, versions_view(records@)));
            assert(merger.sound(records));
            pushed_items(parts, versions_view(records@), width);
        }
        let ghost more = versions_view(records@);
        match streams.push(records, &merger) {
            Ok(next) => {
                streams = next;
                proof {
                    parts = pushed(parts, more, width);
                }
            },
            Err(error) => {
                proof {
                    clash_stays(snapshot@, changes@, segments, index + 1, cursor.sequence);
                }
                return Err(error);
            },
        }
        index += 1;
    }
    proof {
        assert(segments.take(index as int) =~= segments);
        levels_stand_for(&merger, streams.levels(), parts);
    }
    match streams.finish(&merger) {
        Ok(Some(merged)) => Ok(merged),
        Ok(None) => Err(Error::corrupt("read Managed namespace", "namespace has no streams")),
        Err(error) => Err(error),
    }
}

/// What a view at a cursor may be, from all the records of its streams.
pub open spec fn is_view(
    namespace: NamespaceView,
    items: Multiset<VersionView>,
    cursor: ChangeCursor,
    root: NodeId,
    decodings: usize,
) -> bool {
    &&& exists|merged: Seq<VersionView>| #[trigger]
        is_newest_of(merged, items, cursor.sequence) && paths_rise(merged) && finish_fault(
            merged,
            root,
            decodings,
        ) is None && namespace.records == live(merged)
    &&& none_newer(items, cursor.sequence) ==> forall|path: Seq<char>|
        is_newest_value(
            items,
            cursor.sequence,
            path,
            #[trigger] value_at(namespace.records, path),
        )
}

/// Why no view comes of the records of its streams.
pub open spec fn is_view_fault(
    items: Multiset<VersionView>,
    cursor: ChangeCursor,
    root: NodeId,
    decodings: usize,
    fault: Fault,
) -> bool {
    ||| has_clash(items, cursor.sequence) && fault == conflict_fault()
    ||| exists|merged: Seq<VersionView>| #[trigger]
        is_newest_of(merged, items, cursor.sequence) && paths_rise(merged) && finish_fault(
            merged,
            root,
            decodings,
        ) == Some(fault)
}

/// Put a view together from its snapshot and the changes that were downloaded.
pub fn read_view(
    commit: &NamespaceCommit,
    cursor: ChangeCursor,
    root: NodeId,
    decodings: usize,
    snapshot: &Vec<VersionedRecord>,
    changes: &Vec<DownloadedChange>,
    budget: WorkBudget,
) -> (result: Result<Namespace, Error>)
    requires
        downloads_sound(snapshot@, changes@),
    ensures
        ({
            let records = versions_view(snapshot@);
            let items = view_items(snapshot@, changes@, commit.namespace_changes@);
            if cursor == commit.namespace_snapshot.change_cursor {
                match result {
                    Ok(namespace) => {
                        &&& finish_fault(records, root, decodings) is None
                        &&& namespace@ == (NamespaceView {
                            volume_id: commit.volume_id,
                            cursor,
                            root,
                            records: live(records),
                        })
                    },
                    Err(error) => finish_fault(records, root, decodings) == Some(error.fault()),
                }
            } else {
                match result {
                    Ok(namespace) => {
                        &&& all_downloaded(changes@, commit.namespace_changes@)
                        &&& namespace@.volume_id == commit.volume_id
                        &&& namespace@.cursor == cursor
                        &&& namespace@.root == root
                        &&& is_view(namespace@, items, cursor, root, decodings)
                    },
                    Err(error) => {
                        ||| !all_downloaded(changes@, commit.namespace_changes@) && error.fault()
                            == view_corrupt("namespace change stream was not downloaded")
                        ||| is_view_fault(items, cursor, root, decodings, error.fault())
                    },
                }
            }
        }),
{
    if cursor == commit.namespace_snapshot.change_cursor {
        return finish_view(commit, cursor, root, decodings, clone_versions(snapshot));
    }
    let ghost items = view_items(snapshot@, changes@, commit.namespace_changes@);
    let merged = match merge_view(commit, cursor, snapshot, changes, budget) {
        Ok(merged) => merged,
        Err(error) => {
            return Err(error);
        },
    };
    let ghost views = versions_view(merged@);
    let ghost given = merged@;
    let result = finish_view(commit, cursor, root, decodings, merged);
    proof {
        assert(is_newest_of(views, items, cursor.sequence));
        assert forall|i: int, j: int| 0 <= i < j < views.len() implies before(
            text_rank((#[trigger] views[i]).path),
            text_rank((#[trigger] views[j]).path),
        ) by {
            assert(before(given[i].rank(), given[j].rank()));
        }
        if result is Ok && none_newer(items, cursor.sequence) {
            assert forall|path: Seq<char>| is_newest_value(
                items,
                cursor.sequence,
                path,
                #[trigger] value_at(result->Ok_0@.records, path),
            ) by {
                merged_values_are_newest(views, items, cursor.sequence, path);
            }
        }
    }
    result
}

/// Records that clash still do when more are added.
proof fn clash_stays(
    snapshot: Seq<VersionedRecord>,
    changes: Seq<DownloadedChange>,
    segments: Seq<NamespaceChangeSegment>,
    count: int,
    cursor: u64,
)
    requires
        0 <= count <= segments.len(),
        has_clash(view_items(snapshot, changes, segments.take(count)), cursor),
    ensures
        has_clash(view_items(snapshot, changes, segments), cursor),
    decreases segments.len() - count,
{
    if count == segments.len() {
        assert(segments.take(count) =~= segments);
    } else {
        let now = segments.take(count + 1);
        assert(now.drop_last() =~= segments.take(count));
        let fewer = view_items(snapshot, changes, segments.take(count));
        let (left, right) = choose|left: VersionView, right: VersionView|
            #![trigger fewer.count(left), fewer.count(right)]
            fewer.count(left) > 0 && fewer.count(right) > 0 && crate::views::clash(
                left,
                right,
                cursor,
            );
        let more = view_items(snapshot, changes, now);
        assert(more.count(left) > 0 && more.count(right) > 0);
        clash_stays(snapshot, changes, segments, count + 1, cursor);
    }
}

proof fn at_cursor_holds(records: Seq<RecordView>, cursor: u64, record: VersionView)
    ensures
        at_cursor(records, cursor).to_multiset().count(record) > 0 <==> exists|i: int|
            0 <= i < records.len() && (#[trigger] records[i]).path == record.path
                && records[i].value == record.value && record.cursor == cursor,
{
    broadcast use vstd::seq_lib::group_to_multiset_ensures;

    let all = at_cursor(records, cursor);
    if all.to_multiset().count(record) > 0 {
        assert(all.contains(record));
        let i = choose|i: int| 0 <= i < all.len() && all[i] == record;
        assert(records[i].path == record.path);
    }
    if exists|i: int|
        0 <= i < records.len() && (#[trigger] records[i]).path == record.path && records[i].value
            == record.value && record.cursor == cursor {
        let i = choose|i: int|
            0 <= i < records.len() && (#[trigger] records[i]).path == record.path
                && records[i].value == record.value && record.cursor == cursor;
        assert(all[i] == record);
        assert(all.contains(record));
    }
}

/// What was published is read back: the records of a namespace, with the changes that lead
/// to another laid over them at a later cursor, give the nodes of that other namespace.
pub proof fn published_changes_are_read_back(
    previous: Seq<RecordView>,
    target: Seq<RecordView>,
    earlier: u64,
    later: u64,
    path: Seq<char>,
    value: Option<MemberView>,
)
    requires
        increasing(previous),
        increasing(target),
        previous.len() <= usize::MAX,
        target.len() <= usize::MAX,
        earlier < later,
        is_newest_value(
            at_cursor(previous, earlier).to_multiset().add(
                at_cursor(delta_of(previous, target), later).to_multiset(),
            ),
            later,
            path,
            value,
        ),
    ensures
        value == value_at(target, path),
{
    let delta = delta_of(previous, target);
    let old = at_cursor(previous, earlier).to_multiset();
    let new = at_cursor(delta, later).to_multiset();
    let items = old.add(new);
    delta_leads_to_target(previous, target, path);
    if has_path(delta, path) {
        let d = found_at(delta, path);
        let change = VersionView { path, cursor: later, value: delta[d].value };
        at_cursor_holds(delta, later, change);
        assert(items.count(change) > 0);
        let record = choose|record: VersionView|
            #[trigger] is_newest_record(items, later, record) && record.path == path
                && record.value == value;
        assert(dominates(record, change));
        assert(value == delta[d].value);
    } else if has_path(previous, path) {
        let a = found_at(previous, path);
        let held = VersionView { path, cursor: earlier, value: previous[a].value };
        at_cursor_holds(previous, earlier, held);
        assert(items.count(held) > 0);
        let record = choose|record: VersionView|
            #[trigger] is_newest_record(items, later, record) && record.path == path
                && record.value == value;
        at_cursor_holds(delta, later, record);
        assert(new.count(record) == 0);
        at_cursor_holds(previous, earlier, record);
        assert(dominates(record, held));
    } else if value is Some {
        let record = choose|record: VersionView|
            #[trigger] is_newest_record(items, later, record) && record.path == path
                && record.value == value;
        at_cursor_holds(delta, later, record);
        at_cursor_holds(previous, earlier, record);
    }
}

// What views promise.

/// A commit shows a cursor exactly if it is that of its snapshot, or that of the commit itself,
/// the snapshot is no newer, and there are changes, all of which end by then and weigh
/// something.
pub proof fn a_commit_shows_its_snapshot_and_itself(
    commit: &NamespaceCommit,
    cursor: ChangeCursor,
    result: Result<(), Error>,
)
    requires
        call_ensures(validate_view, (commit, cursor), result),
    ensures
        result is Ok <==> cursor == commit@.namespace_snapshot.change_cursor || {
            &&& cursor == commit@.change_cursor
            &&& commit@.namespace_changes.len() > 0
            &&& commit@.namespace_snapshot.change_cursor.sequence <= cursor.sequence
            &&& forall|i: int|
                0 <= i < commit@.namespace_changes.len() ==> {
                    let segment = #[trigger] commit@.namespace_changes[i];
                    segment.end_cursor.sequence <= cursor.sequence
                        && segment.compaction_weight_bytes > 0
                }
        },
{
}

proof fn live_records_stand(records: Seq<VersionView>, path: Seq<char>, value: Option<MemberView>)
    ensures
        live(records).contains(RecordView { path, value }) <==> value is Some && exists|n: int|
            0 <= n < records.len() && (#[trigger] records[n]).path == path && records[n].value
                == value,
    decreases records.len(),
{
    let record = RecordView { path, value };
    if records.len() > 0 {
        let rest = records.drop_last();
        let all = live(records);
        let less = live(rest);
        live_records_stand(rest, path, value);
        let last = records.len() - 1;
        if all.contains(record) {
            let m = choose|m: int| 0 <= m < all.len() && all[m] == record;
            if m < less.len() {
                assert(less[m] == record);
                let n = choose|n: int|
                    0 <= n < rest.len() && (#[trigger] rest[n]).path == path && rest[n].value
                        == value;
                assert(records[n] == rest[n]);
            } else {
                assert(records[last].path == path);
            }
        }
        if value is Some && exists|n: int|
            0 <= n < records.len() && (#[trigger] records[n]).path == path && records[n].value
                == value {
            let n = choose|n: int|
                0 <= n < records.len() && (#[trigger] records[n]).path == path && records[n].value
                    == value;
            if n < last {
                assert(rest[n] == records[n]);
                let m = choose|m: int| 0 <= m < less.len() && less[m] == record;
                assert(all[m] == record);
            } else {
                assert(all[less.len() as int] == record);
            }
        }
    }
}

proof fn sound_members(records: Seq<VersionView>, root: NodeId, decodings: usize, place: int)
    requires
        members_fault(records, root, decodings) is None,
        0 <= place < records.len(),
        records[place].value is Some,
    ensures
        member_fault(records[place].path, records[place].value->0, root, decodings) is None,
    decreases records.len(),
{
    if place < records.len() - 1 {
        assert(records.drop_last()[place] == records[place]);
        sound_members(records.drop_last(), root, decodings, place);
    }
}

/// A view that is finished is a namespace of the commit's volume at the cursor. It holds the
/// merged records that have a node, and no deletion; its paths are portable, and at its root is
/// the directory that the format names.
pub proof fn a_finished_view_holds_what_lives(
    commit: &NamespaceCommit,
    cursor: ChangeCursor,
    root: NodeId,
    decodings: usize,
    merged: Vec<VersionedRecord>,
    result: Result<Namespace, Error>,
    path: Seq<char>,
    value: Option<MemberView>,
)
    requires
        strictly_sorted(merged@),
        call_ensures(finish_view, (commit, cursor, root, decodings, merged), result),
        result is Ok,
    ensures
        ({
            let namespace = result->Ok_0@;
            let listed = namespace.records.contains(RecordView { path, value });
            &&& namespace.volume_id == commit.volume_id
            &&& namespace.cursor == cursor
            &&& namespace.root == root
            &&& listed <==> value is Some && exists|n: int|
                0 <= n < merged@.len() && (#[trigger] merged@[n])@.path == path && merged@[n]@.value
                    == value
            &&& listed ==> path_fault(path) is None
            &&& listed && path.len() == 0 ==> value->0.node_id == root && value->0.value is Directory
            &&& has_path(namespace.records, Seq::empty())
        }),
{
    let records = versions_view(merged@);
    live_records_stand(records, path, value);
    assert(forall|n: int| 0 <= n < merged@.len() ==> #[trigger] records[n] == merged@[n]@);
    assert(forall|n: int| 0 <= n < merged@.len() ==> records[n] == (#[trigger] merged@[n])@);
    if live(records).contains(RecordView { path, value }) {
        let n = choose|n: int|
            0 <= n < records.len() && (#[trigger] records[n]).path == path && records[n].value
                == value;
        sound_members(records, root, decodings, n);
        assert(merged@[n]@.path == path);
    }
}

/// Views are planned only where every commit shows its cursor, and what is then read are
/// snapshots and changes in segments of the namespace.
pub proof fn planned_views_read_namespace_streams(
    views: &Vec<(NamespaceCommit, ChangeCursor)>,
    result: Result<Vec<ViewGroup>, Error>,
    group: int,
    segment: int,
)
    requires
        call_ensures(plan_views, (views,), result),
        result is Ok,
        0 <= group < result->Ok_0@.len(),
    ensures
        ({
            let planned = result->Ok_0@[group];
            let snapshot = planned.snapshot.stream;
            &&& snapshot.kind == StreamKind::NamespaceSnapshot
            &&& snapshot.object.locator.class == ObjectClass::NamespaceSegment
            &&& 0 <= segment < planned.segments@.len() ==> {
                let changes = planned.segments@[segment].stream;
                &&& changes.kind == StreamKind::NamespaceChanges
                &&& changes.object.locator.class == ObjectClass::NamespaceSegment
            }
            &&& planned.members@.len() > 0
        }),
{
    let groups = groups_view(result->Ok_0@);
    assert(groups[group] == result->Ok_0@[group]@);
    assert(streams_right(groups[group]));
}

/// Every stream that a view needs is planned along with its snapshot: each change segment of the
/// commit, by its stream and its cursor, unless the view is that of the snapshot itself.
pub proof fn every_needed_stream_is_planned(
    views: &Vec<(NamespaceCommit, ChangeCursor)>,
    result: Result<Vec<ViewGroup>, Error>,
    view: int,
    segment: int,
) -> (place: (int, int))
    requires
        call_ensures(plan_views, (views,), result),
        result is Ok,
        0 <= view < views@.len(),
        views@[view].1 != views@[view].0.namespace_snapshot.change_cursor,
        0 <= segment < views@[view].0.namespace_changes@.len(),
    ensures
        ({
            let (group, index) = place;
            let commit = views@[view].0;
            &&& 0 <= group < result->Ok_0@.len()
            &&& 0 <= index < result->Ok_0@[group].segments@.len()
            &&& result->Ok_0@[group].snapshot.stream == commit.namespace_snapshot.stream
            &&& result->Ok_0@[group].snapshot.change_cursor
                == commit.namespace_snapshot.change_cursor
            &&& result->Ok_0@[group].segments@[index].stream
                == commit.namespace_changes@[segment].stream
            &&& result->Ok_0@[group].segments@[index].end_cursor
                == commit.namespace_changes@[segment].end_cursor
        }),
{
    let groups = result->Ok_0@;
    let wanted = views@[view].0.namespace_changes@[segment];
    assert(in_a_group(view, groups));
    let group = choose|g: int|
        0 <= g < groups.len() && #[trigger] has_member(groups[g].members@, view);
    let member = choose|m: int|
        0 <= m < groups[group].members@.len() && #[trigger] groups[group].members@[m] == view;
    assert(has_segment(views@[view].0@.namespace_changes, wanted)) by {
        assert(same_segment(views@[view].0@.namespace_changes[segment], wanted));
    }
    assert(needs(views@[groups[group].members@[member] as int], wanted));
    assert(needed_by_some(views@, groups[group].members@, wanted));
    assert(has_segment(groups[group].segments@, wanted));
    let index = choose|i: int|
        0 <= i < groups[group].segments@.len() && same_segment(
            #[trigger] groups[group].segments@[i],
            wanted,
        );
    (group, index)
}

/// What is taken for a change segment was downloaded from its stream and ends at its cursor.
pub proof fn downloads_are_those_of_the_segment(
    changes: Seq<DownloadedChange>,
    segment: NamespaceChangeSegment,
) -> (place: int)
    ensures
        match download_of(changes, segment) {
            Some(records) => {
                &&& 0 <= place < changes.len()
                &&& changes[place].records@ == records
                &&& changes[place].stream == segment.stream
                &&& changes[place].end_cursor == segment.end_cursor
            },
            None => forall|i: int|
                0 <= i < changes.len() ==> (#[trigger] changes[i]).stream != segment.stream
                    || changes[i].end_cursor != segment.end_cursor,
        },
    decreases changes.len(),
{
    if changes.len() == 0 || is_download(changes[0], segment) {
        0
    } else {
        let rest = changes.skip(1);
        let place = downloads_are_those_of_the_segment(rest, segment);
        assert forall|i: int| 0 < i < changes.len() implies rest[i - 1] == #[trigger] changes[i] by {}
        place + 1
    }
}

} // verus!
