//! What a reconciliation promises of the namespaces that go into it and come out of it.

use vstd::prelude::*;

use crate::error::Error;
use crate::namespace::{
    has_path, records_fault, value_at, MemberView, Namespace, NamespaceView, RecordView, ValueView,
};
use crate::order::{before, before_after_prefix, before_asymmetric, before_irreflexive};
use crate::path::encoding_of_joined;
use crate::paths::{has_text, texts_view, PathSet};
use crate::reconcile::{
    changed_paths, chosen, conflicts_at, conflicts_of, diverges, group_paths_are_portable, gets,
    is_below, is_blocked, is_chosen, is_forced, is_open, is_settled, is_torn, local_changed,
    nothing_unsettled, reaches, reconcile, reconciles, reconciliation, remote_changed, same_entry,
    settles, target_at, target_members, target_of, tears, unsettled, ReconcilePlan,
};
use crate::text::{last_slash, last_slash_is_last, parent_of, text_rank};
use crate::threeway::{are_groups, groups_increase, has_group, three, GroupView};

verus! {

// What stands at a path, by its fields.

/// A directory stands there.
pub open spec fn holds_directory(node: Option<MemberView>) -> bool {
    node matches Some(node) && node.value is Directory
}

/// Nothing stands on either side, or the same node with the same attributes: a directory on
/// both sides, or a file of the same version.
pub open spec fn alike(left: Option<MemberView>, right: Option<MemberView>) -> bool {
    match (left, right) {
        (None, None) => true,
        (Some(left), Some(right)) => {
            &&& left.node_id == right.node_id
            &&& left.attributes == right.attributes
            &&& match (left.value, right.value) {
                (
                    ValueView::Directory { generation: _ },
                    ValueView::Directory { generation: _ },
                ) => true,
                (
                    ValueView::RegularFile { version: first, content: _, data: _ },
                    ValueView::RegularFile { version: second, content: _, data: _ },
                ) => first == second,
                _ => false,
            }
        },
        _ => false,
    }
}

/// What stands at a path other than the root stands in a directory.
pub open spec fn has_home(records: Seq<RecordView>, path: Seq<char>) -> bool {
    path.len() > 0 && value_at(records, path) is Some ==> holds_directory(
        value_at(records, parent_of(path)),
    )
}

/// The namespace is a whole tree: everything but the root stands in a directory.
pub open spec fn is_whole(records: Seq<RecordView>) -> bool {
    forall|path: Seq<char>| #[trigger] has_home(records, path)
}

/// The path is resolved, or lies below one that is.
pub open spec fn is_covered(resolved: &PathSet, path: Seq<char>) -> bool {
    exists|directory: Seq<char>| #[trigger]
        resolved.has(directory) && (directory == path || is_below(directory, path))
}

/// One of the sides removed a directory of the common namespace and the other one kept it.
pub open spec fn removed_by_one(
    common: Option<MemberView>,
    local: Option<MemberView>,
    remote: Option<MemberView>,
) -> bool {
    holds_directory(common) && holds_directory(local) != holds_directory(remote)
}

/// No path of the namespaces stands between a directory and something below it that does not
/// lie below the directory itself, as `d.x` stands between `d` and `d/y`.
pub open spec fn is_stretch(
    common: Seq<RecordView>,
    local: Seq<RecordView>,
    remote: Seq<RecordView>,
    directory: Seq<char>,
) -> bool {
    forall|between: Seq<char>, path: Seq<char>|
        #![trigger is_listed(common, local, remote, between), is_below(directory, path)]
        is_listed(common, local, remote, between) && is_below(directory, path) && before(
            text_rank(directory),
            text_rank(between),
        ) && before(text_rank(between), text_rank(path)) ==> is_below(directory, between)
}

/// One of the namespaces has the path.
pub open spec fn is_listed(
    common: Seq<RecordView>,
    local: Seq<RecordView>,
    remote: Seq<RecordView>,
    path: Seq<char>,
) -> bool {
    has_path(common, path) || has_path(local, path) || has_path(remote, path)
}

/// As far as a replica can tell, two nodes are the same exactly if they are alike.
pub proof fn alike_is_same(left: Option<MemberView>, right: Option<MemberView>)
    ensures
        alike(left, right) == same_entry(left, right),
        holds_directory(left) == crate::reconcile::is_directory(left),
        alike(left, right) ==> holds_directory(left) == holds_directory(right),
{
}

// Paths.

/// A path lies below its parent.
proof fn path_is_below_its_parent(path: Seq<char>)
    requires
        path.len() > 0,
    ensures
        is_below(parent_of(path), path),
{
    last_slash_is_last(path);
}

/// What lies above a path is its parent or lies above its parent.
proof fn above_is_above_the_parent(directory: Seq<char>, path: Seq<char>)
    requires
        is_below(directory, path),
        directory != parent_of(path),
    ensures
        is_below(directory, parent_of(path)),
{
    last_slash_is_last(path);
    let place = last_slash(path);
    let parent = parent_of(path);
    if directory.len() == 0 {
        if parent.len() == 0 {
            assert(parent =~= directory);
        }
    } else {
        let count = directory.len() as int;
        assert(path[count] == '/');
        assert(place >= count);
        if place == count {
            assert(parent =~= directory);
        }
        assert(parent.take(count) =~= path.take(count));
    }
}

/// What lies below a directory comes behind it.
proof fn below_comes_behind(directory: Seq<char>, path: Seq<char>)
    requires
        is_below(directory, path),
    ensures
        before(text_rank(directory), text_rank(path)),
{
    let count = directory.len() as int;
    let rest = path.skip(count);
    assert(directory + rest =~= path) by {
        if count > 0 {
            assert(path.take(count) == directory);
            assert forall|i: int| 0 <= i < count implies path[i] == directory[i] by {
                assert(path.take(count)[i] == directory[i]);
            }
        }
    }
    encoding_of_joined(directory, rest);
    let a = text_rank(directory);
    let b = text_rank(path);
    let size = a.len();
    if vstd::utf8::encode_utf8(rest).len() == 0 {
        assert(vstd::utf8::encode_utf8(rest) =~= vstd::utf8::encode_utf8(Seq::<char>::empty()));
        crate::text::encoding_is_injective(rest, Seq::<char>::empty());
    }
    before_after_prefix(a, b, size);
    assert(a.skip(size as int) =~= Seq::empty());
}

proof fn below_stands_behind(groups: Seq<GroupView>, directory: int, place: int)
    requires
        groups_increase(groups),
        0 <= directory < groups.len(),
        0 <= place < groups.len(),
        is_below(groups[directory].path, groups[place].path),
    ensures
        directory < place,
{
    let a = text_rank(groups[directory].path);
    let b = text_rank(groups[place].path);
    below_comes_behind(groups[directory].path, groups[place].path);
    before_irreflexive(a);
    if place < directory {
        assert(before(text_rank(groups[place].path), text_rank(groups[directory].path)));
        before_asymmetric(a, b);
    }
}

// Torn directories.

/// The groups as the other side sees them.
pub open spec fn swapped(groups: Seq<GroupView>) -> Seq<GroupView> {
    Seq::new(
        groups.len(),
        |i: int| GroupView { local: groups[i].remote, remote: groups[i].local, ..groups[i] },
    )
}

/// Conflicts over directories do not depend on which side is the local one: with the sides
/// swapped the same directories are torn.
pub proof fn torn_directories_are_the_same_from_both_sides(groups: Seq<GroupView>, place: int)
    requires
        0 <= place < groups.len(),
    ensures
        is_torn(swapped(groups), place) == is_torn(groups, place),
{
    let turned = swapped(groups);
    assert forall|k: int| place < k < groups.len() implies reaches(turned, place, k) == reaches(
        groups,
        place,
        k,
    ) && tears(turned[place], #[trigger] turned[k]) == tears(groups[place], groups[k]) by {
        assert(forall|n: int| 0 <= n < groups.len() ==> (#[trigger] turned[n]).path == groups[n].path);
        if reaches(groups, place, k) {
            assert forall|n: int| place < n <= k implies is_below(
                turned[place].path,
                (#[trigger] turned[n]).path,
            ) by {
                assert(is_below(groups[place].path, groups[n].path));
            }
        }
        if reaches(turned, place, k) {
            assert forall|n: int| place < n <= k implies is_below(
                groups[place].path,
                (#[trigger] groups[n]).path,
            ) by {
                assert(is_below(turned[place].path, turned[n].path));
            }
        }
    }
    if is_torn(groups, place) {
        let k = choose|k: int|
            place < k < groups.len() && reaches(groups, place, k) && tears(
                groups[place],
                #[trigger] groups[k],
            );
        assert(tears(turned[place], turned[k]));
    }
    if is_torn(turned, place) {
        let k = choose|k: int|
            place < k < turned.len() && reaches(turned, place, k) && tears(
                turned[place],
                #[trigger] turned[k],
            );
        assert(tears(groups[place], groups[k]));
    }
}

/// A directory is torn exactly if one side removed it, the other side kept it, and that side
/// changed something in the stretch of paths below it.
pub proof fn torn_directories_lost_a_change(groups: Seq<GroupView>, place: int)
    requires
        0 <= place < groups.len(),
    ensures
        is_torn(groups, place) <==> {
            let top = groups[place];
            &&& removed_by_one(top.common, top.local, top.remote)
            &&& exists|k: int|
                place < k < groups.len() && reaches(groups, place, k) && !alike(
                    (#[trigger] groups[k]).common,
                    if holds_directory(top.local) {
                        groups[k].local
                    } else {
                        groups[k].remote
                    },
                )
        },
{
    let top = groups[place];
    alike_is_same(top.common, top.local);
    alike_is_same(top.common, top.remote);
    alike_is_same(top.local, top.remote);
    assert forall|k: int| 0 <= k < groups.len() implies {
        &&& alike((#[trigger] groups[k]).common, groups[k].local) == !local_changed(groups[k])
        &&& alike(groups[k].common, groups[k].remote) == !remote_changed(groups[k])
    } by {
        alike_is_same(groups[k].common, groups[k].local);
        alike_is_same(groups[k].common, groups[k].remote);
    }
    if is_torn(groups, place) {
        let k = choose|k: int|
            place < k < groups.len() && reaches(groups, place, k) && tears(
                groups[place],
                #[trigger] groups[k],
            );
        assert(groups[k] == groups[k]);
    }
    if removed_by_one(top.common, top.local, top.remote) && exists|k: int|
        place < k < groups.len() && reaches(groups, place, k) && !alike(
            (#[trigger] groups[k]).common,
            if holds_directory(top.local) {
                groups[k].local
            } else {
                groups[k].remote
            },
        ) {
        let k = choose|k: int|
            place < k < groups.len() && reaches(groups, place, k) && !alike(
                (#[trigger] groups[k]).common,
                if holds_directory(top.local) {
                    groups[k].local
                } else {
                    groups[k].remote
                },
            );
        assert(tears(groups[place], groups[k]));
    }
}

/// What lies below a directory is the directory, a slash and something more; below the root
/// lies everything else.
pub proof fn below_is_behind_a_slash(directory: Seq<char>, path: Seq<char>)
    ensures
        is_below(directory, path) <==> if directory.len() == 0 {
            path.len() > 0
        } else {
            exists|rest: Seq<char>| #[trigger] (directory + seq!['/'] + rest) == path
        },
{
    let count = directory.len() as int;
    if directory.len() > 0 {
        if is_below(directory, path) {
            let rest = path.skip(count + 1);
            assert forall|i: int| 0 <= i < count implies path[i] == directory[i] by {
                assert(path.take(count)[i] == directory[i]);
            }
            assert(directory + seq!['/'] + rest =~= path);
        }
        if exists|rest: Seq<char>| #[trigger] (directory + seq!['/'] + rest) == path {
            let rest = choose|rest: Seq<char>| #[trigger] (directory + seq!['/'] + rest) == path;
            assert(path.take(count) =~= directory);
            assert(path[count] == '/');
        }
    }
}

// What comes out.

proof fn no_conflict_at(groups: Seq<GroupView>, resolved: &PathSet, count: int, place: int)
    requires
        conflicts_of(groups, resolved, count).len() == 0,
        0 <= place < count,
    ensures
        !conflicts_at(groups, resolved, place),
    decreases count,
{
    if place < count - 1 {
        no_conflict_at(groups, resolved, count - 1, place);
    }
}

proof fn conflict_is_listed(groups: Seq<GroupView>, resolved: &PathSet, count: int, place: int)
    requires
        0 <= place < count,
        conflicts_at(groups, resolved, place),
    ensures
        has_text(conflicts_of(groups, resolved, count), groups[place].path),
    decreases count,
{
    let all = conflicts_of(groups, resolved, count);
    let rest = conflicts_of(groups, resolved, count - 1);
    if place < count - 1 {
        conflict_is_listed(groups, resolved, count - 1, place);
        let n = choose|n: int| 0 <= n < rest.len() && #[trigger] rest[n] == groups[place].path;
        assert(all[n] == groups[place].path);
    } else {
        assert(all[rest.len() as int] == groups[place].path);
    }
}

proof fn listed_is_a_conflict(groups: Seq<GroupView>, resolved: &PathSet, count: int, n: int) -> (place:
    int)
    requires
        0 <= count,
        0 <= n < conflicts_of(groups, resolved, count).len(),
    ensures
        0 <= place < count,
        conflicts_at(groups, resolved, place),
        conflicts_of(groups, resolved, count)[n] == groups[place].path,
    decreases count,
{
    let rest = conflicts_of(groups, resolved, count - 1);
    if n < rest.len() {
        listed_is_a_conflict(groups, resolved, count - 1, n)
    } else {
        count - 1
    }
}

/// Where nothing conflicts, every torn directory is resolved, so nothing is blocked.
proof fn nothing_is_blocked(groups: Seq<GroupView>, resolved: &PathSet, place: int)
    requires
        forall|k: int| 0 <= k < groups.len() ==> !#[trigger] conflicts_at(groups, resolved, k),
        0 <= place < groups.len(),
    ensures
        !is_blocked(groups, resolved, place),
        is_torn(groups, place) ==> resolved.has(groups[place].path),
{
    assert forall|i: int| 0 <= i <= place && is_torn(groups, i) implies resolved.has(
        groups[i].path,
    ) by {
        if !resolved.has(groups[i].path) {
            assert(is_open(groups, i, i));
            assert(is_blocked(groups, resolved, i));
            assert(conflicts_at(groups, resolved, i));
        }
    }
    if is_blocked(groups, resolved, place) {
        let i = choose|i: int|
            0 <= i <= place && #[trigger] is_open(groups, i, place) && !resolved.has(
                groups[i].path,
            );
        assert(is_torn(groups, i));
    }
}

/// The stretches below directories that one side removed are whole.
spec fn stretches(groups: Seq<GroupView>) -> bool {
    forall|i: int, k: int|
        #![trigger is_below(groups[i].path, groups[k].path)]
        0 <= i < groups.len() && 0 <= k < groups.len() && removed_by_one(
            groups[i].common,
            groups[i].local,
            groups[i].remote,
        ) && is_below(groups[i].path, groups[k].path) ==> reaches(groups, i, k)
}

proof fn torn_is_removed(groups: Seq<GroupView>, place: int)
    requires
        0 <= place < groups.len(),
        is_torn(groups, place),
    ensures
        removed_by_one(groups[place].common, groups[place].local, groups[place].remote),
{
    torn_directories_lost_a_change(groups, place);
}

/// A change below a directory that the other side removed tears it.
proof fn change_tears(groups: Seq<GroupView>, directory: int, place: int)
    requires
        stretches(groups),
        groups_increase(groups),
        0 <= directory < groups.len(),
        0 <= place < groups.len(),
        is_below(groups[directory].path, groups[place].path),
        tears(groups[directory], groups[place]),
    ensures
        is_torn(groups, directory),
        is_open(groups, directory, directory),
{
    below_stands_behind(groups, directory, place);
    alike_is_same(groups[directory].common, groups[directory].local);
    alike_is_same(groups[directory].local, groups[directory].remote);
    assert(removed_by_one(
        groups[directory].common,
        groups[directory].local,
        groups[directory].remote,
    ));
    assert(reaches(groups, directory, place));
    assert(tears(groups[directory], groups[place]));
}

/// What gets a node has a directory to stand in.
#[verifier::rlimit(60)]
proof fn parent_stays(groups: Seq<GroupView>, resolved: &PathSet, d: int, p: int)
    requires
        groups_increase(groups),
        stretches(groups),
        forall|k: int| 0 <= k < groups.len() ==> !#[trigger] conflicts_at(groups, resolved, k),
        0 <= d < groups.len(),
        0 <= p < groups.len(),
        groups[p].path.len() > 0,
        parent_of(groups[p].path) == groups[d].path,
        groups[p].local is Some ==> holds_directory(groups[d].local),
        groups[p].remote is Some ==> holds_directory(groups[d].remote),
        resolved.has(groups[d].path) && groups[p].remote is Some && !holds_directory(
            groups[d].local,
        ) ==> holds_directory(groups[d].common),
        chosen(groups, resolved, p) is Some,
    ensures
        holds_directory(chosen(groups, resolved, d)),
{
    let top = groups[d];
    let low = groups[p];
    path_is_below_its_parent(low.path);
    below_stands_behind(groups, d, p);
    nothing_is_blocked(groups, resolved, d);
    nothing_is_blocked(groups, resolved, p);
    alike_is_same(top.common, top.local);
    alike_is_same(top.common, top.remote);
    alike_is_same(top.local, top.remote);
    alike_is_same(low.common, low.local);
    alike_is_same(low.common, low.remote);
    alike_is_same(low.local, low.remote);
    assert(!conflicts_at(groups, resolved, d));
    assert(!conflicts_at(groups, resolved, p));
    if is_forced(groups, resolved, d) {
        let e = choose|e: int| 0 <= e <= d && #[trigger] is_open(groups, e, d);
        torn_is_removed(groups, e);
        if e < d {
            assert(is_below(groups[e].path, groups[d].path));
            crate::reconcile::below_is_transitive(groups[e].path, top.path, low.path);
        }
        assert(is_below(groups[e].path, groups[p].path));
        assert(reaches(groups, e, p));
        assert(is_open(groups, e, p));
        assert(is_forced(groups, resolved, p));
    } else {
        assert forall|e: int| 0 <= e <= d implies !#[trigger] is_open(groups, e, d) by {}
        assert(!is_torn(groups, d)) by {
            if is_torn(groups, d) {
                assert(is_open(groups, d, d));
            }
        }
        if tears(top, low) {
            change_tears(groups, d, p);
        }
        if is_forced(groups, resolved, p) {
            let e = choose|e: int| 0 <= e <= p && #[trigger] is_open(groups, e, p);
            if e < p {
                assert(is_below(groups[e].path, groups[p].path));
                if groups[e].path != top.path {
                    above_is_above_the_parent(groups[e].path, low.path);
                    below_stands_behind(groups, e, d);
                } else {
                    before_irreflexive(text_rank(top.path));
                    if e < d {
                        assert(before(text_rank(groups[e].path), text_rank(groups[d].path)));
                    } else if d < e {
                        assert(before(text_rank(groups[d].path), text_rank(groups[e].path)));
                    }
                }
                assert(reaches(groups, e, d));
                assert(is_open(groups, e, d));
            } else {
                // The path itself is torn.
                torn_is_removed(groups, p);
                let k = choose|k: int|
                    p < k < groups.len() && reaches(groups, p, k) && tears(
                        groups[p],
                        #[trigger] groups[k],
                    );
                assert(is_below(groups[p].path, groups[k].path));
                crate::reconcile::below_is_transitive(top.path, low.path, groups[k].path);
                if tears(top, groups[k]) {
                    change_tears(groups, d, k);
                }
                alike_is_same(groups[k].common, groups[k].local);
                alike_is_same(groups[k].common, groups[k].remote);
            }
        } else {
            assert(!is_forced(groups, resolved, p));
        }
    }
}

/// The facts that groups give: what stands in the namespaces stands in the groups.
proof fn stands_in_groups(
    groups: Seq<GroupView>,
    common: Seq<RecordView>,
    local: Seq<RecordView>,
    remote: Seq<RecordView>,
    path: Seq<char>,
) -> (place: int)
    requires
        are_groups(groups, three(common, local, remote)),
    ensures
        -1 <= place < groups.len(),
        place >= 0 ==> {
            &&& groups[place].path == path
            &&& groups[place].common == value_at(common, path)
            &&& groups[place].local == value_at(local, path)
            &&& groups[place].remote == value_at(remote, path)
        },
        place < 0 ==> {
            &&& !has_group(groups, path)
            &&& value_at(common, path) is None
            &&& value_at(local, path) is None
            &&& value_at(remote, path) is None
        },
{
    let streams = three(common, local, remote);
    if has_group(groups, path) {
        let k = choose|k: int| 0 <= k < groups.len() && (#[trigger] groups[k]).path == path;
        assert(groups[k].slot(0) == value_at(streams[0], path));
        assert(groups[k].slot(1) == value_at(streams[1], path));
        assert(groups[k].slot(2) == value_at(streams[2], path));
        k
    } else {
        assert(!has_path(streams[0], path));
        assert(!has_path(streams[1], path));
        assert(!has_path(streams[2], path));
        -1
    }
}

/// The target has nothing at a path that no namespace has.
proof fn target_lacks(groups: Seq<GroupView>, resolved: &PathSet, path: Seq<char>)
    requires
        !has_group(groups, path),
    ensures
        value_at(target_of(groups, resolved, groups.len() as int), path) is None,
{
    let count = groups.len() as int;
    let target = target_of(groups, resolved, count);
    target_members(groups, resolved, count);
    if has_path(target, path) {
        let p = crate::namespace::found_at(target, path);
        assert(is_chosen(groups, resolved, count, target[p]));
        let k = choose|k: int| 0 <= k < count && #[trigger] gets(groups, resolved, k, target[p]);
        assert(groups[k].path == path);
    }
}

/// A whole tree comes out of whole trees: in what is published everything but the root stands
/// in a directory.
///
/// Two kinds of input are left out, on which that does not hold. One is a directory that one
/// side removed where a path like `d.x` stands, in byte order, between the directory `d` and
/// something below it. The other is the resolution of a path at which the remote side made a
/// directory with something in it and the replica something else.
pub proof fn whole_trees_give_a_whole_tree(
    common: NamespaceView,
    local: NamespaceView,
    remote: NamespaceView,
    resolved: &PathSet,
    result: Result<ReconcilePlan, Error>,
)
    requires
        reconciliation(common, local, remote, resolved, result),
        records_fault(common.records) is None,
        records_fault(local.records) is None,
        records_fault(remote.records) is None,
        is_whole(common.records),
        is_whole(local.records),
        is_whole(remote.records),
        forall|directory: Seq<char>|
            removed_by_one(
                #[trigger] value_at(common.records, directory),
                value_at(local.records, directory),
                value_at(remote.records, directory),
            ) ==> is_stretch(common.records, local.records, remote.records, directory),
        forall|path: Seq<char>|
            resolved.has(parent_of(path)) && (#[trigger] value_at(remote.records, path)) is Some
                && path.len() > 0 && !holds_directory(value_at(local.records, parent_of(path)))
                ==> holds_directory(value_at(common.records, parent_of(path))),
    ensures
        result matches Ok(ReconcilePlan::Publish(target)) ==> is_whole(target@.records),
{
    if let Ok(ReconcilePlan::Publish(target)) = result {
        let streams = three(common.records, local.records, remote.records);
        let groups = choose|groups: Seq<GroupView>| #[trigger]
            are_groups(groups, streams) && reconciles(groups, resolved, remote, result);
        let count = groups.len() as int;
        group_paths_are_portable(groups, common.records, local.records, remote.records);
        assert forall|k: int| 0 <= k < count implies !#[trigger] conflicts_at(
            groups,
            resolved,
            k,
        ) by {
            no_conflict_at(groups, resolved, count, k);
        }
        assert forall|i: int, k: int|
            #![trigger is_below(groups[i].path, groups[k].path)]
            0 <= i < groups.len() && 0 <= k < groups.len() && removed_by_one(
                groups[i].common,
                groups[i].local,
                groups[i].remote,
            ) && is_below(groups[i].path, groups[k].path) implies reaches(groups, i, k) by {
            assert(groups[i].slot(0) == value_at(streams[0], groups[i].path));
            assert(groups[i].slot(1) == value_at(streams[1], groups[i].path));
            assert(groups[i].slot(2) == value_at(streams[2], groups[i].path));
            assert(is_stretch(common.records, local.records, remote.records, groups[i].path));
            assert forall|n: int| i < n <= k implies is_below(
                groups[i].path,
                (#[trigger] groups[n]).path,
            ) by {
                if n < k {
                    let path = groups[n].path;
                    assert(has_path(streams[0], path) || has_path(streams[1], path) || has_path(
                        streams[2],
                        path,
                    ));
                    assert(is_listed(common.records, local.records, remote.records, path));
                    assert(before(text_rank(groups[i].path), text_rank(groups[n].path)));
                    assert(before(text_rank(groups[n].path), text_rank(groups[k].path)));
                }
            }
        }
        let records = target@.records;
        assert forall|path: Seq<char>| #[trigger] has_home(records, path) by {
            if path.len() > 0 && value_at(records, path) is Some {
                let p = stands_in_groups(
                    groups,
                    common.records,
                    local.records,
                    remote.records,
                    path,
                );
                if p < 0 {
                    target_lacks(groups, resolved, path);
                }
                target_at(groups, resolved, p);
                assert(has_home(local.records, path));
                assert(has_home(remote.records, path));
                assert(value_at(remote.records, path) == groups[p].remote);
                let d = stands_in_groups(
                    groups,
                    common.records,
                    local.records,
                    remote.records,
                    parent_of(path),
                );
                assert(groups[p].local is Some || groups[p].remote is Some);
                parent_stays(groups, resolved, d, p);
                target_at(groups, resolved, d);
            }
        }
    }
}

/// No two of the three agree on a node.
pub open spec fn all_differ(
    common: Option<MemberView>,
    local: Option<MemberView>,
    remote: Option<MemberView>,
) -> bool {
    !alike(common, local) && !alike(common, remote) && !alike(local, remote)
}

/// A path lies below a directory, and no path of the namespaces stands between the two but
/// what lies below the directory as well.
pub open spec fn is_joined(
    common: Seq<RecordView>,
    local: Seq<RecordView>,
    remote: Seq<RecordView>,
    directory: Seq<char>,
    path: Seq<char>,
) -> bool {
    &&& is_below(directory, path)
    &&& forall|between: Seq<char>| #[trigger]
        is_listed(common, local, remote, between) && before(
            text_rank(directory),
            text_rank(between),
        ) && before(text_rank(between), text_rank(path)) ==> is_below(directory, between)
}

/// One side removed a directory, the other side kept it and changed a path that is joined to
/// it.
pub open spec fn is_lost(
    common: Seq<RecordView>,
    local: Seq<RecordView>,
    remote: Seq<RecordView>,
    directory: Seq<char>,
) -> bool {
    &&& removed_by_one(
        value_at(common, directory),
        value_at(local, directory),
        value_at(remote, directory),
    )
    &&& exists|path: Seq<char>| #[trigger]
        is_joined(common, local, remote, directory, path) && !alike(
            value_at(common, path),
            if holds_directory(value_at(local, directory)) {
                value_at(local, path)
            } else {
                value_at(remote, path)
            },
        )
}

proof fn reaching_is_joining(
    groups: Seq<GroupView>,
    common: Seq<RecordView>,
    local: Seq<RecordView>,
    remote: Seq<RecordView>,
    directory: int,
    place: int,
)
    requires
        are_groups(groups, three(common, local, remote)),
        0 <= directory < place < groups.len(),
    ensures
        reaches(groups, directory, place) == is_joined(
            common,
            local,
            remote,
            groups[directory].path,
            groups[place].path,
        ),
{
    let top = groups[directory].path;
    let path = groups[place].path;
    let streams = three(common, local, remote);
    if reaches(groups, directory, place) {
        assert(is_below(top, groups[place].path));
        assert forall|between: Seq<char>| #[trigger]
            is_listed(common, local, remote, between) && before(
                text_rank(top),
                text_rank(between),
            ) && before(text_rank(between), text_rank(path)) implies is_below(top, between) by {
            assert(has_path(streams[0], between) || has_path(streams[1], between) || has_path(
                streams[2],
                between,
            ));
            let n = stands_in_groups(groups, common, local, remote, between);
            before_irreflexive(text_rank(between));
            if n < directory {
                assert(before(text_rank(groups[n].path), text_rank(groups[directory].path)));
                before_asymmetric(text_rank(top), text_rank(between));
            }
            if n > place {
                assert(before(text_rank(groups[place].path), text_rank(groups[n].path)));
                before_asymmetric(text_rank(path), text_rank(between));
            }
            assert(is_below(groups[directory].path, groups[n].path));
        }
    }
    if is_joined(common, local, remote, top, path) {
        assert forall|n: int| directory < n <= place implies is_below(
            groups[directory].path,
            (#[trigger] groups[n]).path,
        ) by {
            if n < place {
                let between = groups[n].path;
                assert(has_path(streams[0], between) || has_path(streams[1], between) || has_path(
                    streams[2],
                    between,
                ));
                assert(is_listed(common, local, remote, between));
                assert(before(text_rank(groups[directory].path), text_rank(groups[n].path)));
                assert(before(text_rank(groups[n].path), text_rank(groups[place].path)));
            }
        }
    }
}

proof fn torn_is_lost(
    groups: Seq<GroupView>,
    common: Seq<RecordView>,
    local: Seq<RecordView>,
    remote: Seq<RecordView>,
    place: int,
)
    requires
        are_groups(groups, three(common, local, remote)),
        0 <= place < groups.len(),
    ensures
        is_torn(groups, place) == is_lost(common, local, remote, groups[place].path),
{
    let top = groups[place];
    let streams = three(common, local, remote);
    torn_directories_lost_a_change(groups, place);
    assert(groups[place].slot(0) == value_at(streams[0], top.path));
    assert(groups[place].slot(1) == value_at(streams[1], top.path));
    assert(groups[place].slot(2) == value_at(streams[2], top.path));
    if is_torn(groups, place) {
        let k = choose|k: int|
            place < k < groups.len() && reaches(groups, place, k) && !alike(
                (#[trigger] groups[k]).common,
                if holds_directory(top.local) {
                    groups[k].local
                } else {
                    groups[k].remote
                },
            );
        reaching_is_joining(groups, common, local, remote, place, k);
        assert(groups[k].slot(0) == value_at(streams[0], groups[k].path));
        assert(groups[k].slot(1) == value_at(streams[1], groups[k].path));
        assert(groups[k].slot(2) == value_at(streams[2], groups[k].path));
        assert(is_joined(common, local, remote, top.path, groups[k].path));
    }
    if is_lost(common, local, remote, top.path) {
        let path = choose|path: Seq<char>| #[trigger]
            is_joined(common, local, remote, top.path, path) && !alike(
                value_at(common, path),
                if holds_directory(value_at(local, top.path)) {
                    value_at(local, path)
                } else {
                    value_at(remote, path)
                },
            );
        let k = stands_in_groups(groups, common, local, remote, path);
        below_stands_behind(groups, place, k);
        reaching_is_joining(groups, common, local, remote, place, k);
        assert(groups[k].path == path);
    }
}

/// What the reconciled namespace has at a path.
pub open spec fn outcome_at(
    plan: ReconcilePlan,
    remote: Seq<RecordView>,
    path: Seq<char>,
) -> Option<MemberView> {
    match plan {
        ReconcilePlan::Publish(target) => value_at(target@.records, path),
        _ => value_at(remote, path),
    }
}

proof fn outcome_is_chosen(
    groups: Seq<GroupView>,
    common: NamespaceView,
    local: NamespaceView,
    remote: NamespaceView,
    resolved: &PathSet,
    plan: ReconcilePlan,
    path: Seq<char>,
) -> (place: int)
    requires
        are_groups(groups, three(common.records, local.records, remote.records)),
        reconciles(groups, resolved, remote, Ok(plan)),
        !(plan is Conflicted),
        records_fault(common.records) is None,
        records_fault(local.records) is None,
        records_fault(remote.records) is None,
    ensures
        -1 <= place < groups.len(),
        place < 0 ==> {
            &&& !has_group(groups, path)
            &&& value_at(common.records, path) is None
            &&& value_at(local.records, path) is None
            &&& value_at(remote.records, path) is None
            &&& outcome_at(plan, remote.records, path) is None
        },
        place >= 0 ==> {
            &&& groups[place].path == path
            &&& groups[place].common == value_at(common.records, path)
            &&& groups[place].local == value_at(local.records, path)
            &&& groups[place].remote == value_at(remote.records, path)
            &&& !conflicts_at(groups, resolved, place)
            &&& !is_blocked(groups, resolved, place)
            &&& is_torn(groups, place) ==> resolved.has(path)
            &&& alike(outcome_at(plan, remote.records, path), chosen(groups, resolved, place))
            &&& chosen(groups, resolved, place) == groups[place].remote ==> outcome_at(
                plan,
                remote.records,
                path,
            ) == groups[place].remote
        },
{
    let count = groups.len() as int;
    group_paths_are_portable(groups, common.records, local.records, remote.records);
    assert forall|k: int| 0 <= k < count implies !#[trigger] conflicts_at(
        groups,
        resolved,
        k,
    ) by {
        no_conflict_at(groups, resolved, count, k);
    }
    let place = stands_in_groups(groups, common.records, local.records, remote.records, path);
    if place < 0 {
        target_lacks(groups, resolved, path);
    } else {
        nothing_is_blocked(groups, resolved, place);
        target_at(groups, resolved, place);
        let node = chosen(groups, resolved, place);
        alike_is_same(node, groups[place].remote);
        alike_is_same(groups[place].remote, node);
        alike_is_same(node, node);
        if plan is Remote {
            assert(same_entry(chosen(groups, resolved, place), groups[place].remote));
        }
    }
    place
}

/// A path that no resolution covers comes out as the side has it that changed it: what only
/// the remote side changed is the remote side's, what only the replica changed is the
/// replica's, and what both changed they changed alike.
pub proof fn changes_of_each_side_come_out(
    common: NamespaceView,
    local: NamespaceView,
    remote: NamespaceView,
    resolved: &PathSet,
    plan: ReconcilePlan,
    path: Seq<char>,
)
    requires
        reconciliation(common, local, remote, resolved, Ok(plan)),
        !(plan is Conflicted),
        records_fault(common.records) is None,
        records_fault(local.records) is None,
        records_fault(remote.records) is None,
        !is_covered(resolved, path),
    ensures
        ({
            let before = value_at(common.records, path);
            let ours = value_at(local.records, path);
            let theirs = value_at(remote.records, path);
            let after = outcome_at(plan, remote.records, path);
            &&& alike(before, ours) ==> after == theirs
            &&& alike(before, theirs) ==> alike(after, ours)
            &&& alike(ours, theirs) ==> alike(after, ours) && alike(after, theirs)
            &&& !all_differ(before, ours, theirs)
        }),
{
    let streams = three(common.records, local.records, remote.records);
    let groups = choose|groups: Seq<GroupView>| #[trigger]
        are_groups(groups, streams) && reconciles(groups, resolved, remote, Ok(plan));
    let k = outcome_is_chosen(groups, common, local, remote, resolved, plan, path);
    if k >= 0 {
        let group = groups[k];
        alike_is_same(group.common, group.local);
        alike_is_same(group.common, group.remote);
        alike_is_same(group.local, group.remote);
        if is_forced(groups, resolved, k) {
            let i = choose|i: int| 0 <= i <= k && #[trigger] is_open(groups, i, k);
            nothing_is_blocked_by(groups, resolved, i, k);
            if i < k {
                assert(is_below(groups[i].path, groups[k].path));
            }
            assert(resolved.has(groups[i].path));
        }
        if resolved.has(path) {
            assert(is_covered(resolved, path));
        }
    }
}

proof fn nothing_is_blocked_by(groups: Seq<GroupView>, resolved: &PathSet, i: int, place: int)
    requires
        0 <= i <= place,
        is_open(groups, i, place),
        !is_blocked(groups, resolved, place),
    ensures
        resolved.has(groups[i].path),
{
}

/// A resolution keeps what the replica has, at its path and, of a directory that one side lost,
/// at what is joined to the directory.
pub proof fn resolutions_keep_the_replica(
    common: NamespaceView,
    local: NamespaceView,
    remote: NamespaceView,
    resolved: &PathSet,
    plan: ReconcilePlan,
    top: Seq<char>,
    path: Seq<char>,
)
    requires
        reconciliation(common, local, remote, resolved, Ok(plan)),
        !(plan is Conflicted),
        records_fault(common.records) is None,
        records_fault(local.records) is None,
        records_fault(remote.records) is None,
        resolved.has(top),
        top == path || is_lost(common.records, local.records, remote.records, top) && is_joined(
            common.records,
            local.records,
            remote.records,
            top,
            path,
        ),
    ensures
        alike(outcome_at(plan, remote.records, path), value_at(local.records, path)),
{
    let streams = three(common.records, local.records, remote.records);
    let groups = choose|groups: Seq<GroupView>| #[trigger]
        are_groups(groups, streams) && reconciles(groups, resolved, remote, Ok(plan));
    let k = outcome_is_chosen(groups, common, local, remote, resolved, plan, path);
    let i = outcome_is_chosen(groups, common, local, remote, resolved, plan, top);
    if top == path {
        all_resolutions_settle(groups, resolved, resolved@.len() as int, path);
        let n = choose|n: int|
            0 <= n < groups.len() && (#[trigger] groups[n]).path == path && settles(
                groups,
                resolved,
                n,
            );
        one_group(groups, n, k);
        if is_torn(groups, k) {
            assert(is_open(groups, k, k));
        }
    } else if k >= 0 {
        torn_is_lost(groups, common.records, local.records, remote.records, i);
        below_stands_behind(groups, i, k);
        reaching_is_joining(groups, common.records, local.records, remote.records, i, k);
        assert(is_open(groups, i, k));
        assert(is_forced(groups, resolved, k));
    }
}

proof fn one_group(groups: Seq<GroupView>, n: int, k: int)
    requires
        groups_increase(groups),
        0 <= n < groups.len(),
        -1 <= k < groups.len(),
        k >= 0 ==> groups[n].path == groups[k].path,
        k < 0 ==> !has_group(groups, groups[n].path),
    ensures
        n == k,
{
    before_irreflexive(text_rank(groups[n].path));
    if k < 0 {
        assert(groups[n].path == groups[n].path);
    } else if n < k {
        assert(before(text_rank(groups[n].path), text_rank(groups[k].path)));
    } else if k < n {
        assert(before(text_rank(groups[k].path), text_rank(groups[n].path)));
    }
}

proof fn all_resolutions_settle(
    groups: Seq<GroupView>,
    resolved: &PathSet,
    count: int,
    path: Seq<char>,
)
    requires
        0 <= count <= resolved@.len(),
        unsettled(groups, resolved, count).len() == 0,
        exists|n: int| 0 <= n < count && #[trigger] resolved@[n] == path,
    ensures
        is_settled(groups, resolved, path),
    decreases count,
{
    let n = choose|n: int| 0 <= n < count && #[trigger] resolved@[n] == path;
    if n < count - 1 {
        all_resolutions_settle(groups, resolved, count - 1, path);
    }
}

/// What comes of a reconciliation without a conflict left nothing in dispute: what all three
/// namespaces have otherwise is covered by a resolution, a directory that one side lost is
/// resolved, and no resolution is given where neither holds.
pub proof fn nothing_in_dispute_is_passed_over(
    common: NamespaceView,
    local: NamespaceView,
    remote: NamespaceView,
    resolved: &PathSet,
    plan: ReconcilePlan,
    path: Seq<char>,
)
    requires
        reconciliation(common, local, remote, resolved, Ok(plan)),
        !(plan is Conflicted),
        records_fault(common.records) is None,
        records_fault(local.records) is None,
        records_fault(remote.records) is None,
    ensures
        all_differ(
            value_at(common.records, path),
            value_at(local.records, path),
            value_at(remote.records, path),
        ) ==> is_covered(resolved, path),
        is_lost(common.records, local.records, remote.records, path) ==> resolved.has(path),
        resolved.has(path) ==> is_lost(common.records, local.records, remote.records, path)
            || all_differ(
            value_at(common.records, path),
            value_at(local.records, path),
            value_at(remote.records, path),
        ),
{
    let streams = three(common.records, local.records, remote.records);
    let groups = choose|groups: Seq<GroupView>| #[trigger]
        are_groups(groups, streams) && reconciles(groups, resolved, remote, Ok(plan));
    let k = outcome_is_chosen(groups, common, local, remote, resolved, plan, path);
    if !is_covered(resolved, path) {
        changes_of_each_side_come_out(common, local, remote, resolved, plan, path);
    }
    if k >= 0 {
        torn_is_lost(groups, common.records, local.records, remote.records, k);
        alike_is_same(groups[k].common, groups[k].local);
        alike_is_same(groups[k].common, groups[k].remote);
        alike_is_same(groups[k].local, groups[k].remote);
    }
    if resolved.has(path) {
        all_resolutions_settle(groups, resolved, resolved@.len() as int, path);
        let n = choose|n: int|
            0 <= n < groups.len() && (#[trigger] groups[n]).path == path && settles(
                groups,
                resolved,
                n,
            );
        one_group(groups, n, k);
    }
}

/// The conflicts that are reported are not resolved yet, and each is a directory that one side
/// lost or a path that all three namespaces have otherwise; each such directory is reported,
/// and each such path that lies below none.
pub proof fn conflicts_are_what_is_in_dispute(
    common: NamespaceView,
    local: NamespaceView,
    remote: NamespaceView,
    resolved: &PathSet,
    plan: ReconcilePlan,
    path: Seq<char>,
)
    requires
        reconciliation(common, local, remote, resolved, Ok(plan)),
        plan is Conflicted,
    ensures
        ({
            let reported = has_text(texts_view(plan->Conflicted_0@), path);
            let lost = is_lost(common.records, local.records, remote.records, path);
            let differ = all_differ(
                value_at(common.records, path),
                value_at(local.records, path),
                value_at(remote.records, path),
            );
            &&& reported ==> !resolved.has(path) && (lost || differ)
            &&& lost && !resolved.has(path) ==> reported
            &&& differ && !resolved.has(path) && (forall|directory: Seq<char>| #[trigger]
                is_lost(common.records, local.records, remote.records, directory) ==> !is_below(
                    directory,
                    path,
                )) ==> reported
        }),
        plan->Conflicted_0@.len() > 0,
{
    let streams = three(common.records, local.records, remote.records);
    let groups = choose|groups: Seq<GroupView>| #[trigger]
        are_groups(groups, streams) && reconciles(groups, resolved, remote, Ok(plan));
    let count = groups.len() as int;
    let conflicts = conflicts_of(groups, resolved, count);
    let k = stands_in_groups(groups, common.records, local.records, remote.records, path);
    if has_text(conflicts, path) {
        let n = choose|n: int| 0 <= n < conflicts.len() && #[trigger] conflicts[n] == path;
        let place = listed_is_a_conflict(groups, resolved, count, n);
        one_group(groups, place, k);
    }
    if k >= 0 {
        torn_is_lost(groups, common.records, local.records, remote.records, k);
        alike_is_same(groups[k].common, groups[k].local);
        alike_is_same(groups[k].common, groups[k].remote);
        alike_is_same(groups[k].local, groups[k].remote);
        if is_torn(groups, k) && !resolved.has(path) {
            assert(is_open(groups, k, k));
            assert(is_blocked(groups, resolved, k));
        } else if forall|directory: Seq<char>| #[trigger]
            is_lost(common.records, local.records, remote.records, directory) ==> !is_below(
                directory,
                path,
            ) {
            assert forall|i: int| 0 <= i <= k implies !#[trigger] is_open(groups, i, k)
                || resolved.has(groups[i].path) && i == k by {
                torn_is_lost(groups, common.records, local.records, remote.records, i);
                if i < k && is_open(groups, i, k) {
                    assert(is_below(groups[i].path, groups[k].path));
                }
            }
            if diverges(groups[k]) && !resolved.has(path) {
                assert(!is_blocked(groups, resolved, k));
                assert(!is_forced(groups, resolved, k));
                assert(conflicts_at(groups, resolved, k));
            }
        }
        if conflicts_at(groups, resolved, k) {
            conflict_is_listed(groups, resolved, count, k);
        }
    }
}

/// A reconciliation is of one volume and of a remote namespace that is no older than the common
/// one; what it publishes is the next namespace of that volume.
pub proof fn reconciliations_stay_in_the_volume(
    common: NamespaceView,
    local: NamespaceView,
    remote: NamespaceView,
    resolved: &PathSet,
    result: Result<ReconcilePlan, Error>,
)
    requires
        reconciliation(common, local, remote, resolved, result),
    ensures
        result is Ok ==> {
            &&& common.volume_id == local.volume_id && common.volume_id == remote.volume_id
            &&& common.root == local.root && common.root == remote.root
            &&& common.cursor.sequence <= remote.cursor.sequence
        },
        result matches Ok(ReconcilePlan::Publish(target)) ==> {
            &&& target@.volume_id == remote.volume_id
            &&& target@.root == remote.root
            &&& target@.cursor.sequence == remote.cursor.sequence + 1
        },
        common.volume_id == local.volume_id && common.volume_id == remote.volume_id && common.root
            == local.root && common.root == remote.root && common.cursor.sequence
            <= remote.cursor.sequence < u64::MAX && resolved@.len() == 0 ==> result is Ok,
{
    if !(common.volume_id != local.volume_id || common.root != local.root || common.volume_id
        != remote.volume_id || common.root != remote.root || common.cursor.sequence
        > remote.cursor.sequence) {
        let streams = three(common.records, local.records, remote.records);
        let groups = choose|groups: Seq<GroupView>| #[trigger]
            are_groups(groups, streams) && reconciles(groups, resolved, remote, result);
        if resolved@.len() == 0 {
            nothing_unsettled(groups, resolved);
        }
    }
}

/// Only a namespace that differs from the remote one is published.
pub proof fn what_is_published_is_new(
    common: NamespaceView,
    local: NamespaceView,
    remote: NamespaceView,
    resolved: &PathSet,
    result: Result<ReconcilePlan, Error>,
)
    requires
        reconciliation(common, local, remote, resolved, result),
        records_fault(common.records) is None,
        records_fault(local.records) is None,
        records_fault(remote.records) is None,
    ensures
        result matches Ok(ReconcilePlan::Publish(target)) ==> exists|path: Seq<char>|
            !alike(#[trigger] value_at(target@.records, path), value_at(remote.records, path)),
{
    if let Ok(ReconcilePlan::Publish(target)) = result {
        let streams = three(common.records, local.records, remote.records);
        let groups = choose|groups: Seq<GroupView>| #[trigger]
            are_groups(groups, streams) && reconciles(groups, resolved, remote, result);
        group_paths_are_portable(groups, common.records, local.records, remote.records);
        let count = groups.len() as int;
        let k = choose|k: int|
            0 <= k < count && !same_entry(
                chosen(groups, resolved, k),
                (#[trigger] groups[k]).remote,
            );
        target_at(groups, resolved, k);
        alike_is_same(chosen(groups, resolved, k), groups[k].remote);
        assert(groups[k].slot(2) == value_at(streams[2], groups[k].path));
        assert(!alike(
            value_at(target@.records, groups[k].path),
            value_at(remote.records, groups[k].path),
        ));
    }
}

/// The paths at which two namespaces differ are the same from both sides, and are those at which
/// one has a node and the other none, or another one.
pub proof fn changed_paths_are_where_namespaces_differ(
    base: &Namespace,
    side: &Namespace,
    there: Result<PathSet, Error>,
    back: Result<PathSet, Error>,
    path: Seq<char>,
)
    requires
        call_ensures(changed_paths, (base, side), there),
        call_ensures(changed_paths, (side, base), back),
    ensures
        there is Ok <==> base@.volume_id == side@.volume_id && base@.root == side@.root,
        back is Ok <==> there is Ok,
        there is Ok ==> {
            &&& there->Ok_0.has(path) <==> !alike(
                value_at(base@.records, path),
                value_at(side@.records, path),
            )
            &&& there->Ok_0.has(path) <==> back->Ok_0.has(path)
        },
{
    let left = value_at(base@.records, path);
    let right = value_at(side@.records, path);
    alike_is_same(left, right);
    alike_is_same(right, left);
    if there is Ok {
        assert(there->Ok_0.has(path) <==> !same_entry(left, right));
        assert(back->Ok_0.has(path) <==> !same_entry(right, left));
    }
}

/// What comes of reconciling two namespaces through the function that does it, where nothing is
/// resolved: what one side alone changed is taken over, and what both changed otherwise is never
/// decided.
pub proof fn reconciling_loses_no_change(
    common: &Namespace,
    local: &Namespace,
    remote: &Namespace,
    resolved: &PathSet,
    result: Result<ReconcilePlan, Error>,
    path: Seq<char>,
)
    requires
        call_ensures(reconcile, (common, local, remote, resolved), result),
        records_fault(common@.records) is None,
        records_fault(local@.records) is None,
        records_fault(remote@.records) is None,
        resolved@.len() == 0,
        result is Ok,
        !(result->Ok_0 is Conflicted),
    ensures
        ({
            let before = value_at(common@.records, path);
            let ours = value_at(local@.records, path);
            let theirs = value_at(remote@.records, path);
            let after = outcome_at(result->Ok_0, remote@.records, path);
            &&& alike(before, ours) ==> after == theirs
            &&& alike(before, theirs) ==> alike(after, ours)
            &&& !all_differ(before, ours, theirs)
            &&& !is_lost(common@.records, local@.records, remote@.records, path)
        }),
{
    assert(!is_covered(resolved, path));
    changes_of_each_side_come_out(common@, local@, remote@, resolved, result->Ok_0, path);
    nothing_in_dispute_is_passed_over(common@, local@, remote@, resolved, result->Ok_0, path);
}

} // verus!
