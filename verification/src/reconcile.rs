//! Reconciliation of a replica and its remote namespace, path by path.

use vstd::prelude::*;

use crate::error::{corrupt, invalid, Error, Fault};
use crate::model::ChangeCursor;
use crate::namespace::{
    clone_member, member_view, records_fault, records_view, value_at, MemberView, Namespace,
    NamespaceNode, NamespaceRecord, NamespaceView, NodeKind, RecordView,
};
use crate::order::before;
use crate::path::path_fault;
use crate::paths::{has_text, list_texts, listed, texts_view, PathSet};
use crate::text::{chars_of, text_rank};
use crate::threeway::{
    are_groups, groups_increase, groups_view, has_group, merge_groups, three, GroupView,
    PathGroup,
};

verus! {

/// A path lies below a directory.
pub open spec fn is_below(directory: Seq<char>, path: Seq<char>) -> bool {
    if directory.len() == 0 {
        path.len() > 0
    } else {
        path.len() > directory.len() && path.take(directory.len() as int) == directory
            && path[directory.len() as int] == '/'
    }
}

/// What lies below something that lies below a directory lies below the directory.
pub proof fn below_is_transitive(directory: Seq<char>, middle: Seq<char>, path: Seq<char>)
    requires
        is_below(directory, middle),
        is_below(middle, path),
    ensures
        is_below(directory, path),
{
    if directory.len() > 0 {
        assert(path.take(directory.len() as int) =~= middle.take(directory.len() as int)) by {
            assert(path.take(middle.len() as int) == middle);
            assert forall|i: int| 0 <= i < directory.len() implies path[i] == middle[i] by {
                assert(path.take(middle.len() as int)[i] == middle[i]);
            }
        }
        assert(path[directory.len() as int] == path.take(
            middle.len() as int,
        )[directory.len() as int]);
    }
}

/// Whether a path lies below a directory.
pub fn is_descendant(directory: &str, path: &str) -> (result: bool)
    ensures
        result == is_below(directory@, path@),
{
    let upper = chars_of(directory);
    let lower = chars_of(path);
    if upper.len() == 0 {
        return lower.len() > 0;
    }
    if lower.len() <= upper.len() {
        return false;
    }
    let mut index: usize = 0;
    while index < upper.len()
        invariant
            upper@ == directory@,
            lower@ == path@,
            upper@.len() > 0,
            upper@.len() < lower@.len(),
            index <= upper@.len(),
            forall|i: int| 0 <= i < index ==> lower@[i] == upper@[i],
        decreases upper@.len() - index,
    {
        if lower[index] != upper[index] {
            assert(path@.take(directory@.len() as int)[index as int] != directory@[index as int]);
            return false;
        }
        index += 1;
    }
    assert(path@.take(directory@.len() as int) =~= directory@);
    lower[upper.len()] == '/'
}

/// Two nodes are the same as far as a replica can tell: the node, its attributes, and the
/// version of a file.
pub open spec fn same_node(left: MemberView, right: MemberView) -> bool {
    &&& left.node_id == right.node_id
    &&& left.attributes == right.attributes
    &&& left.version() == right.version()
}

pub open spec fn same_entry(left: Option<MemberView>, right: Option<MemberView>) -> bool {
    match (left, right) {
        (None, None) => true,
        (Some(left), Some(right)) => same_node(left, right),
        _ => false,
    }
}

pub open spec fn is_directory(node: Option<MemberView>) -> bool {
    node is Some && node->0.kind() == NodeKind::Directory
}

/// Whether two nodes are the same as far as a replica can tell.
pub fn entries_agree(left: &Option<NamespaceNode>, right: &Option<NamespaceNode>) -> (result: bool)
    ensures
        result == same_entry(member_view(*left), member_view(*right)),
{
    match (left, right) {
        (None, None) => true,
        (Some(left), Some(right)) => {
            let same_file = match (left.file(), right.file()) {
                (None, None) => true,
                (Some((first, _, _)), Some((second, _, _))) => first == second,
                _ => false,
            };
            left.node_id == right.node_id && left.attributes == right.attributes && same_file
        },
        _ => false,
    }
}

fn directory_at(node: &Option<NamespaceNode>) -> (result: bool)
    ensures
        result == is_directory(member_view(*node)),
{
    match node {
        Some(node) => match node.kind() {
            NodeKind::Directory => true,
            NodeKind::RegularFile => false,
        },
        None => false,
    }
}

pub open spec fn local_changed(group: GroupView) -> bool {
    !same_entry(group.common, group.local)
}

pub open spec fn remote_changed(group: GroupView) -> bool {
    !same_entry(group.common, group.remote)
}

/// All groups from behind one up to another lie below it.
pub open spec fn reaches(groups: Seq<GroupView>, from: int, to: int) -> bool {
    forall|k: int|
        from < k <= to ==> is_below(groups[from].path, (#[trigger] groups[k]).path)
}

/// A directory is gone on the local side only.
pub open spec fn gone_locally(group: GroupView) -> bool {
    is_directory(group.common) && !is_directory(group.local) && is_directory(group.remote)
}

/// A directory is gone on the remote side only.
pub open spec fn gone_remotely(group: GroupView) -> bool {
    is_directory(group.common) && is_directory(group.local) && !is_directory(group.remote)
}

/// A directory that one side has removed while the other side changed something in the
/// stretch of paths below it.
pub open spec fn is_torn(groups: Seq<GroupView>, place: int) -> bool {
    exists|k: int|
        place < k < groups.len() && reaches(groups, place, k) && tears(
            groups[place],
            #[trigger] groups[k],
        )
}

pub open spec fn tears(directory: GroupView, below: GroupView) -> bool {
    ||| gone_locally(directory) && remote_changed(below)
    ||| gone_remotely(directory) && local_changed(below)
}

fn group_tears(directory: &PathGroup, below: &PathGroup) -> (result: bool)
    ensures
        result == tears(directory@, below@),
{
    if !directory_at(&directory.common) {
        return false;
    }
    let local = directory_at(&directory.local);
    let remote = directory_at(&directory.remote);
    if !local && remote {
        !entries_agree(&below.common, &below.remote)
    } else if local && !remote {
        !entries_agree(&below.common, &below.local)
    } else {
        false
    }
}

/// For each group, whether it is a directory that one side removed and the other changed.
pub fn directory_conflicts(groups: &Vec<PathGroup>) -> (torn: Vec<bool>)
    ensures
        torn@.len() == groups@.len(),
        forall|i: int|
            0 <= i < groups@.len() ==> #[trigger] torn@[i] == is_torn(groups_view(groups@), i),
{
    let ghost views = groups_view(groups@);
    let mut torn: Vec<bool> = Vec::new();
    let mut place: usize = 0;
    while place < groups.len()
        invariant
            views == groups_view(groups@),
            place <= groups@.len(),
            torn@.len() == place,
            forall|i: int| 0 <= i < place ==> #[trigger] torn@[i] == is_torn(views, i),
        decreases groups@.len() - place,
    {
        let mut found = false;
        let mut next: usize = place + 1;
        while !found && next < groups.len() && is_descendant(
            groups[place].path.as_str(),
            groups[next].path.as_str(),
        )
            invariant
                views == groups_view(groups@),
                place < groups@.len(),
                place < next <= groups@.len(),
                reaches(views, place as int, next - 1),
                !found ==> forall|k: int|
                    place < k < next ==> !tears(views[place as int], #[trigger] views[k]),
                found ==> is_torn(views, place as int),
            decreases groups@.len() - next, !found as int,
        {
            assert(views[next as int] == groups@[next as int]@);
            assert(views[place as int] == groups@[place as int]@);
            if group_tears(&groups[place], &groups[next]) {
                found = true;
                assert(reaches(views, place as int, next as int));
                assert(tears(views[place as int], views[next as int]));
            }
            next += 1;
        }
        proof {
            if !found && is_torn(views, place as int) {
                let k = choose|k: int|
                    place < k < views.len() && reaches(views, place as int, k) && tears(
                        views[place as int],
                        #[trigger] views[k],
                    );
                assert(k >= next);
                assert(is_below(views[place as int].path, views[next as int].path));
            }
        }
        torn.push(found);
        place += 1;
    }
    torn
}

/// A torn directory is open at a group: it is the group, or the stretch below it reaches.
pub open spec fn is_open(groups: Seq<GroupView>, directory: int, place: int) -> bool {
    directory <= place && reaches(groups, directory, place) && is_torn(groups, directory)
}

/// The group is, or lies below, a torn directory that is not resolved.
pub open spec fn is_blocked(groups: Seq<GroupView>, resolved: &PathSet, place: int) -> bool {
    exists|i: int|
        0 <= i <= place && #[trigger] is_open(groups, i, place) && !resolved.has(groups[i].path)
}

/// The group is, or lies below, only torn directories that are resolved.
pub open spec fn is_forced(groups: Seq<GroupView>, resolved: &PathSet, place: int) -> bool {
    !is_blocked(groups, resolved, place) && exists|i: int|
        0 <= i <= place && #[trigger] is_open(groups, i, place)
}

/// Both sides changed the path, and not alike.
pub open spec fn diverges(group: GroupView) -> bool {
    local_changed(group) && remote_changed(group) && !same_entry(group.local, group.remote)
}

/// The node that a path gets.
pub open spec fn chosen(groups: Seq<GroupView>, resolved: &PathSet, place: int) -> Option<
    MemberView,
> {
    let group = groups[place];
    if is_blocked(groups, resolved, place) {
        None
    } else if is_forced(groups, resolved, place) {
        group.local
    } else if diverges(group) {
        if resolved.has(group.path) {
            group.local
        } else {
            None
        }
    } else if local_changed(group) && !remote_changed(group) {
        group.local
    } else {
        group.remote
    }
}

/// The path is reported as a conflict.
pub open spec fn conflicts_at(groups: Seq<GroupView>, resolved: &PathSet, place: int) -> bool {
    let group = groups[place];
    if is_blocked(groups, resolved, place) {
        is_torn(groups, place) && !resolved.has(group.path)
    } else {
        !is_forced(groups, resolved, place) && diverges(group) && !resolved.has(group.path)
    }
}

/// The resolution of the path settles a conflict.
pub open spec fn settles(groups: Seq<GroupView>, resolved: &PathSet, place: int) -> bool {
    let group = groups[place];
    &&& resolved.has(group.path)
    &&& is_torn(groups, place) || (!is_blocked(groups, resolved, place) && !is_forced(
        groups,
        resolved,
        place,
    ) && diverges(group))
}

pub open spec fn is_settled(groups: Seq<GroupView>, resolved: &PathSet, path: Seq<char>) -> bool {
    exists|k: int|
        0 <= k < groups.len() && (#[trigger] groups[k]).path == path && settles(
            groups,
            resolved,
            k,
        )
}

/// The resolutions of the first places of the set that settle nothing.
pub open spec fn unsettled(groups: Seq<GroupView>, resolved: &PathSet, count: int) -> Seq<Seq<char>>
    decreases count,
{
    if count <= 0 {
        Seq::empty()
    } else {
        let rest = unsettled(groups, resolved, count - 1);
        if is_settled(groups, resolved, resolved@[count - 1]) {
            rest
        } else {
            rest.push(resolved@[count - 1])
        }
    }
}

/// The paths of the first groups that conflict.
pub open spec fn conflicts_of(groups: Seq<GroupView>, resolved: &PathSet, count: int) -> Seq<
    Seq<char>,
>
    decreases count,
{
    if count <= 0 {
        Seq::empty()
    } else {
        let rest = conflicts_of(groups, resolved, count - 1);
        if conflicts_at(groups, resolved, count - 1) {
            rest.push(groups[count - 1].path)
        } else {
            rest
        }
    }
}

/// The records of the first groups that get a node.
pub open spec fn target_of(groups: Seq<GroupView>, resolved: &PathSet, count: int) -> Seq<
    RecordView,
>
    decreases count,
{
    if count <= 0 {
        Seq::empty()
    } else {
        let rest = target_of(groups, resolved, count - 1);
        let node = chosen(groups, resolved, count - 1);
        if node is Some {
            rest.push(RecordView { path: groups[count - 1].path, value: node })
        } else {
            rest
        }
    }
}

/// Some path gets another node than the remote namespace has.
pub open spec fn differs_from_remote(groups: Seq<GroupView>, resolved: &PathSet, count: int) -> bool {
    exists|k: int|
        0 <= k < count && !same_entry(chosen(groups, resolved, k), (#[trigger] groups[k]).remote)
}

/// The torn directories that are open at a group, by place, each with whether it is resolved.
#[verifier::opaque]
spec fn is_stack(
    stack: Seq<(usize, bool)>,
    groups: Seq<GroupView>,
    resolved: &PathSet,
    place: int,
) -> bool {
    &&& forall|n: int|
        0 <= n < stack.len() ==> {
            let entry = #[trigger] stack[n];
            &&& is_open(groups, entry.0 as int, place)
            &&& entry.1 == resolved.has(groups[entry.0 as int].path)
        }
    &&& forall|n: int, m: int|
        0 <= n < m < stack.len() ==> (#[trigger] stack[n]).0 < (#[trigger] stack[m]).0
    &&& forall|i: int|
        0 <= i <= place && #[trigger] is_open(groups, i, place) ==> in_stack(stack, i)
}

spec fn in_stack(stack: Seq<(usize, bool)>, directory: int) -> bool {
    exists|n: int| 0 <= n < stack.len() && (#[trigger] stack[n]).0 == directory
}

/// A directory that is open further on was open before.
proof fn open_earlier(groups: Seq<GroupView>, directory: int, place: int)
    requires
        0 <= directory < place,
        is_open(groups, directory, place),
    ensures
        is_open(groups, directory, place - 1),
        is_below(groups[directory].path, groups[place].path),
{
    assert(is_below(groups[directory].path, groups[place].path));
}

/// Bring the stack from one group to the next.
fn advance_stack(
    stack: Vec<(usize, bool)>,
    groups: &Vec<PathGroup>,
    torn: &Vec<bool>,
    resolved: &PathSet,
    place: usize,
) -> (result: Vec<(usize, bool)>)
    requires
        place < groups@.len(),
        torn@.len() == groups@.len(),
        forall|i: int|
            0 <= i < groups@.len() ==> #[trigger] torn@[i] == is_torn(groups_view(groups@), i),
        place == 0 ==> stack@.len() == 0,
        place > 0 ==> is_stack(stack@, groups_view(groups@), resolved, place - 1),
    ensures
        is_stack(result@, groups_view(groups@), resolved, place as int),
{
    let ghost views = groups_view(groups@);
    let ghost given = stack@;
    proof {
        reveal(is_stack);
    }
    let mut stack = stack;
    let mut closing = true;
    while closing
        invariant
            place < groups@.len(),
            views == groups_view(groups@),
            place == 0 ==> given.len() == 0,
            place > 0 ==> is_stack(given, views, resolved, place - 1),
            forall|n: int|
                0 <= n < given.len() ==> 0 <= (#[trigger] given[n]).0 < place && is_open(
                    views,
                    given[n].0 as int,
                    place - 1,
                ),
            stack@.len() <= given.len(),
            stack@ == given.take(stack@.len() as int),
            forall|n: int|
                stack@.len() <= n < given.len() ==> !is_below(
                    views[(#[trigger] given[n]).0 as int].path,
                    views[place as int].path,
                ),
            !closing ==> stack@.len() == 0 || is_below(
                views[stack@.last().0 as int].path,
                views[place as int].path,
            ),
        decreases stack@.len(), closing as int,
    {
        let count: usize = stack.len();
        if count == 0 {
            closing = false;
        } else {
            let top: usize = stack[count - 1].0;
            proof {
                assert(stack@[count - 1] == given[count - 1]);
                assert(is_open(views, given[count - 1].0 as int, place - 1));
            }
            if is_descendant(groups[top].path.as_str(), groups[place].path.as_str()) {
                closing = false;
            } else {
                let _ = stack.pop();
                assert(stack@ =~= given.take(stack@.len() as int));
            }
        }
    }
    let ghost kept = stack@;
    proof {
        reveal(is_stack);
        assert forall|n: int| 0 <= n < kept.len() implies is_open(
            views,
            (#[trigger] kept[n]).0 as int,
            place as int,
        ) by {
            assert(kept[n] == given[n]);
            let directory = given[n].0 as int;
            assert(is_open(views, directory, place - 1));
            let top = kept.len() - 1;
            if n < top {
                let highest = given[top].0 as int;
                assert(kept[top] == given[top]);
                assert(given[n].0 < given[top].0);
                assert(is_open(views, highest, place - 1));
                assert(is_below(views[directory].path, views[highest].path));
                below_is_transitive(
                    views[directory].path,
                    views[highest].path,
                    views[place as int].path,
                );
            }
            assert forall|k: int| directory < k <= place implies is_below(
                views[directory].path,
                (#[trigger] views[k]).path,
            ) by {
                if k < place {
                    assert(reaches(views, directory, place - 1));
                }
            }
        }
        assert forall|i: int| 0 <= i < place && #[trigger] is_open(
            views,
            i,
            place as int,
        ) implies in_stack(kept, i) by {
            open_earlier(views, i, place as int);
            assert(in_stack(given, i));
            let n = choose|n: int| 0 <= n < given.len() && (#[trigger] given[n]).0 == i;
            if n >= kept.len() {
                assert(!is_below(views[given[n].0 as int].path, views[place as int].path));
            }
            assert(kept[n].0 == i);
        }
    }
    if torn[place] {
        let is_resolved = resolved.contains(groups[place].path.as_str());
        stack.push((place, is_resolved));
        proof {
            assert(views[place as int] == groups@[place as int]@);
            assert(reaches(views, place as int, place as int));
        }
    }
    proof {
        let now = stack@;
        assert forall|n: int| 0 <= n < now.len() implies {
            let entry = #[trigger] now[n];
            &&& is_open(views, entry.0 as int, place as int)
            &&& entry.1 == resolved.has(views[entry.0 as int].path)
        } by {
            if n < kept.len() {
                assert(now[n] == kept[n]);
                assert(kept[n] == given[n]);
            }
        }
        assert forall|n: int, m: int| 0 <= n < m < now.len() implies (#[trigger] now[n]).0 < (
        #[trigger] now[m]).0 by {
            assert(now[n] == given[n]);
            assert(is_open(views, given[n].0 as int, place - 1));
            if m < kept.len() {
                assert(now[m] == given[m]);
            }
        }
        assert forall|i: int| 0 <= i <= place && #[trigger] is_open(
            views,
            i,
            place as int,
        ) implies in_stack(now, i) by {
            if i == place {
                assert(now[kept.len() as int].0 == i);
            } else {
                assert(in_stack(kept, i));
                let n = choose|n: int| 0 <= n < kept.len() && (#[trigger] kept[n]).0 == i;
                assert(now[n].0 == i);
            }
        }
    }
    stack
}

/// Whether a directory of the stack is not resolved.
fn any_unresolved(stack: &Vec<(usize, bool)>) -> (result: bool)
    ensures
        result == (exists|n: int| 0 <= n < stack@.len() && !(#[trigger] stack@[n]).1),
{
    let mut index: usize = 0;
    while index < stack.len()
        invariant
            index <= stack@.len(),
            forall|n: int| 0 <= n < index ==> (#[trigger] stack@[n]).1,
        decreases stack@.len() - index,
    {
        if !stack[index].1 {
            assert(!stack@[index as int].1);
            return true;
        }
        index += 1;
    }
    false
}

/// The stack tells whether a group is blocked or forced.
proof fn stack_tells(
    stack: Seq<(usize, bool)>,
    groups: Seq<GroupView>,
    resolved: &PathSet,
    place: int,
)
    requires
        is_stack(stack, groups, resolved, place),
        0 <= place,
    ensures
        is_blocked(groups, resolved, place) == (exists|n: int|
            0 <= n < stack.len() && !(#[trigger] stack[n]).1),
        is_forced(groups, resolved, place) == (!is_blocked(groups, resolved, place) && stack.len()
            > 0),
{
    reveal(is_stack);
    if exists|n: int| 0 <= n < stack.len() && !(#[trigger] stack[n]).1 {
        let n = choose|n: int| 0 <= n < stack.len() && !(#[trigger] stack[n]).1;
        assert(is_open(groups, stack[n].0 as int, place));
    }
    if is_blocked(groups, resolved, place) {
        let i = choose|i: int|
            0 <= i <= place && #[trigger] is_open(groups, i, place) && !resolved.has(
                groups[i].path,
            );
        assert(in_stack(stack, i));
        let n = choose|n: int| 0 <= n < stack.len() && (#[trigger] stack[n]).0 == i;
        assert(!stack[n].1);
    }
    if stack.len() > 0 {
        assert(is_open(groups, stack[0].0 as int, place));
    }
    if exists|i: int| 0 <= i <= place && #[trigger] is_open(groups, i, place) {
        let i = choose|i: int| 0 <= i <= place && #[trigger] is_open(groups, i, place);
        assert(in_stack(stack, i));
    }
}

/// What becomes of one path.
enum Verdict {
    Local,
    Remote,
    Nothing,
}

/// Decide one path.
fn decide(group: &PathGroup, blocked: bool, forced: bool, torn: bool, is_resolved: bool) -> (result:
    (Verdict, bool, bool))
    requires
        !(blocked && forced),
    ensures
        ({
            let (verdict, conflict, settled) = result;
            let view = group@;
            let node = match verdict {
                Verdict::Local => view.local,
                Verdict::Remote => view.remote,
                Verdict::Nothing => None,
            };
            &&& node == (if blocked {
                None
            } else if forced {
                view.local
            } else if diverges(view) {
                if is_resolved {
                    view.local
                } else {
                    None
                }
            } else if local_changed(view) && !remote_changed(view) {
                view.local
            } else {
                view.remote
            })
            &&& conflict == (if blocked {
                torn && !is_resolved
            } else {
                !forced && diverges(view) && !is_resolved
            })
            &&& settled == (is_resolved && (torn || (!blocked && !forced && diverges(view))))
        }),
{
    if blocked {
        return (Verdict::Nothing, torn && !is_resolved, torn && is_resolved);
    }
    if forced {
        return (Verdict::Local, false, torn && is_resolved);
    }
    let local_changed = !entries_agree(&group.common, &group.local);
    let remote_changed = !entries_agree(&group.common, &group.remote);
    if !local_changed {
        return (Verdict::Remote, false, torn && is_resolved);
    }
    if !remote_changed {
        return (Verdict::Local, false, torn && is_resolved);
    }
    if entries_agree(&group.local, &group.remote) {
        return (Verdict::Remote, false, torn && is_resolved);
    }
    if is_resolved {
        (Verdict::Local, false, true)
    } else {
        (Verdict::Nothing, true, false)
    }
}

/// What the decisions on all paths come to.
pub struct Decisions {
    pub conflicts: Vec<String>,
    pub settled: Vec<String>,
    pub target: Vec<NamespaceRecord>,
    pub differs: bool,
}

#[verifier::opaque]
spec fn settled_upto(
    settled: Seq<Seq<char>>,
    groups: Seq<GroupView>,
    resolved: &PathSet,
    count: int,
) -> bool {
    &&& forall|n: int|
        0 <= n < settled.len() ==> is_settled(groups, resolved, #[trigger] settled[n])
    &&& forall|k: int|
        0 <= k < count && #[trigger] settles(groups, resolved, k) ==> has_text(
            settled,
            groups[k].path,
        )
}

proof fn settled_step(
    settled: Seq<Seq<char>>,
    groups: Seq<GroupView>,
    resolved: &PathSet,
    place: int,
)
    requires
        0 <= place < groups.len(),
        settled_upto(settled, groups, resolved, place),
    ensures
        settled_upto(
            if settles(groups, resolved, place) {
                settled.push(groups[place].path)
            } else {
                settled
            },
            groups,
            resolved,
            place + 1,
        ),
{
    reveal(settled_upto);
    let now = if settles(groups, resolved, place) {
        settled.push(groups[place].path)
    } else {
        settled
    };
    if settles(groups, resolved, place) {
        assert(is_settled(groups, resolved, groups[place].path));
    }
    assert forall|n: int| 0 <= n < now.len() implies is_settled(
        groups,
        resolved,
        #[trigger] now[n],
    ) by {
        if n < settled.len() {
            assert(now[n] == settled[n]);
        }
    }
    assert forall|k: int|
        0 <= k < place + 1 && #[trigger] settles(groups, resolved, k) implies has_text(
        now,
        groups[k].path,
    ) by {
        if k < place {
            assert(has_text(settled, groups[k].path));
            let n = choose|n: int|
                0 <= n < settled.len() && #[trigger] settled[n] == groups[k].path;
            assert(now[n] == groups[k].path);
        } else {
            assert(now[settled.len() as int] == groups[k].path);
        }
    }
}

proof fn differs_step(groups: Seq<GroupView>, resolved: &PathSet, place: int)
    requires
        0 <= place < groups.len(),
    ensures
        differs_from_remote(groups, resolved, place + 1) == (differs_from_remote(
            groups,
            resolved,
            place,
        ) || !same_entry(chosen(groups, resolved, place), groups[place].remote)),
{
    if differs_from_remote(groups, resolved, place + 1) {
        let k = choose|k: int|
            0 <= k < place + 1 && !same_entry(
                chosen(groups, resolved, k),
                (#[trigger] groups[k]).remote,
            );
        if k < place {
            assert(differs_from_remote(groups, resolved, place));
        }
    }
    if differs_from_remote(groups, resolved, place) {
        let k = choose|k: int|
            0 <= k < place && !same_entry(
                chosen(groups, resolved, k),
                (#[trigger] groups[k]).remote,
            );
        assert(!same_entry(chosen(groups, resolved, k), groups[k].remote));
    }
}

/// Decide on every path.
pub fn decide_all(groups: &Vec<PathGroup>, resolved: &PathSet) -> (decisions: Decisions)
    ensures
        ({
            let views = groups_view(groups@);
            let count = groups@.len() as int;
            &&& texts_view(decisions.conflicts@) == conflicts_of(views, resolved, count)
            &&& records_view(decisions.target@) == target_of(views, resolved, count)
            &&& decisions.differs == differs_from_remote(views, resolved, count)
            &&& forall|path: Seq<char>|
                #[trigger] has_text(texts_view(decisions.settled@), path) <==> is_settled(
                    views,
                    resolved,
                    path,
                )
        }),
{
    let ghost views = groups_view(groups@);
    let torn = directory_conflicts(groups);
    let mut stack: Vec<(usize, bool)> = Vec::new();
    let mut conflicts: Vec<String> = Vec::new();
    let mut settled: Vec<String> = Vec::new();
    let mut target: Vec<NamespaceRecord> = Vec::new();
    let mut differs = false;
    let mut place: usize = 0;
    proof {
        reveal(settled_upto);
        assert(texts_view(conflicts@) =~= Seq::empty());
        assert(records_view(target@) =~= Seq::empty());
    }
    while place < groups.len()
        invariant
            views == groups_view(groups@),
            torn@.len() == groups@.len(),
            forall|i: int| 0 <= i < groups@.len() ==> #[trigger] torn@[i] == is_torn(views, i),
            place <= groups@.len(),
            place == 0 ==> stack@.len() == 0,
            place > 0 ==> is_stack(stack@, views, resolved, place - 1),
            texts_view(conflicts@) == conflicts_of(views, resolved, place as int),
            records_view(target@) == target_of(views, resolved, place as int),
            differs == differs_from_remote(views, resolved, place as int),
            settled_upto(texts_view(settled@), views, resolved, place as int),
        decreases groups@.len() - place,
    {
        let group = &groups[place];
        stack = advance_stack(stack, groups, &torn, resolved, place);
        let blocked = any_unresolved(&stack);
        let forced = !blocked && stack.len() > 0;
        let is_resolved = resolved.contains(group.path.as_str());
        proof {
            assert(views[place as int] == group@);
            stack_tells(stack@, views, resolved, place as int);
        }
        let (verdict, conflict, settles_here) = decide(
            group,
            blocked,
            forced,
            torn[place],
            is_resolved,
        );
        let ghost node = chosen(views, resolved, place as int);
        let ghost old_conflicts = texts_view(conflicts@);
        let ghost old_target = records_view(target@);
        let ghost old_settled = texts_view(settled@);
        let selected: Option<NamespaceNode> = match verdict {
            Verdict::Local => clone_member(&group.local),
            Verdict::Remote => clone_member(&group.remote),
            Verdict::Nothing => None,
        };
        assert(member_view(selected) == node);
        if conflict {
            conflicts.push(group.path.clone());
        }
        if settles_here {
            settled.push(group.path.clone());
        }
        if !entries_agree(&selected, &group.remote) {
            differs = true;
        }
        let ghost chosen_node = member_view(selected);
        if let Some(node) = selected {
            target.push(NamespaceRecord { path: group.path.clone(), value: Some(node) });
        }
        proof {
            if conflict {
                assert(texts_view(conflicts@) =~= old_conflicts.push(group@.path));
            }
            if chosen_node is Some {
                assert(records_view(target@) =~= old_target.push(
                    RecordView { path: group@.path, value: chosen_node },
                ));
            }
            assert(settles_here == settles(views, resolved, place as int));
            if settles_here {
                assert(texts_view(settled@) =~= old_settled.push(group@.path));
            }
            settled_step(old_settled, views, resolved, place as int);
            differs_step(views, resolved, place as int);
        }
        place += 1;
    }
    proof {
        reveal(settled_upto);
        let now = texts_view(settled@);
        assert forall|path: Seq<char>|
            #[trigger] has_text(now, path) <==> is_settled(views, resolved, path) by {
            if has_text(now, path) {
                let n = choose|n: int| 0 <= n < now.len() && #[trigger] now[n] == path;
                assert(is_settled(views, resolved, now[n]));
            }
            if is_settled(views, resolved, path) {
                let k = choose|k: int|
                    0 <= k < views.len() && (#[trigger] views[k]).path == path && settles(
                        views,
                        resolved,
                        k,
                    );
                assert(settles(views, resolved, k));
            }
        }
    }
    Decisions { conflicts, settled, target, differs }
}

/// Find the resolutions that settled nothing.
fn find_unsettled(groups: &Vec<PathGroup>, resolved: &PathSet, settled: &Vec<String>) -> (missing:
    Vec<String>)
    requires
        forall|path: Seq<char>|
            #[trigger] has_text(texts_view(settled@), path) <==> is_settled(
                groups_view(groups@),
                resolved,
                path,
            ),
    ensures
        texts_view(missing@) == unsettled(
            groups_view(groups@),
            resolved,
            resolved@.len() as int,
        ),
{
    let ghost views = groups_view(groups@);
    let mut missing: Vec<String> = Vec::new();
    let mut index: usize = 0;
    assert(texts_view(missing@) =~= Seq::empty());
    while index < resolved.len()
        invariant
            views == groups_view(groups@),
            forall|path: Seq<char>|
                #[trigger] has_text(texts_view(settled@), path) <==> is_settled(
                    views,
                    resolved,
                    path,
                ),
            index <= resolved@.len(),
            texts_view(missing@) == unsettled(views, resolved, index as int),
        decreases resolved@.len() - index,
    {
        let path = resolved.path(index);
        let ghost so_far = texts_view(missing@);
        if !holds(settled, path) {
            missing.push(path.to_owned());
            assert(texts_view(missing@) =~= so_far.push(path@));
        }
        index += 1;
    }
    missing
}

fn holds(texts: &Vec<String>, text: &str) -> (result: bool)
    ensures
        result == has_text(texts_view(texts@), text@),
{
    let mut index: usize = 0;
    while index < texts.len()
        invariant
            index <= texts@.len(),
            forall|i: int| 0 <= i < index ==> #[trigger] texts_view(texts@)[i] != text@,
        decreases texts@.len() - index,
    {
        if crate::text::same_text(texts[index].as_str(), text) {
            assert(texts_view(texts@)[index as int] == text@);
            return true;
        }
        index += 1;
    }
    false
}

/// What the reconciliation of a replica asks for.
pub enum ReconcilePlan {
    /// The paths have to be resolved first.
    Conflicted(Vec<String>),
    /// The remote namespace is what comes out.
    Remote,
    /// The namespace has to be published.
    Publish(Namespace),
}

pub open spec fn require_fault(left: NamespaceView, right: NamespaceView) -> bool {
    left.volume_id != right.volume_id || left.root != right.root
}

pub open spec fn other_volume() -> Fault {
    corrupt("reconcile replica", "reconciliation namespaces belong to different volumes")
}

/// Check that two namespaces are of the same volume.
pub fn require_same_volume(left: &Namespace, right: &Namespace) -> (result: Result<(), Error>)
    ensures
        match result {
            Ok(()) => !require_fault(left@, right@),
            Err(error) => require_fault(left@, right@) && error.fault() == other_volume(),
        },
{
    if left.volume_id() != right.volume_id() || left.root() != right.root() {
        return Err(
            Error::corrupt(
                "reconcile replica",
                "reconciliation namespaces belong to different volumes",
            ),
        );
    }
    Ok(())
}

pub open spec fn unsettled_message(paths: Seq<Seq<char>>) -> Seq<char> {
    "no unresolved conflict exists for "@ + listed(paths)
}

/// What reconciliation comes to on groups that were laid side by side.
pub open spec fn reconciles(
    groups: Seq<GroupView>,
    resolved: &PathSet,
    remote: NamespaceView,
    result: Result<ReconcilePlan, Error>,
) -> bool {
    let count = groups.len() as int;
    let missing = unsettled(groups, resolved, resolved@.len() as int);
    let conflicts = conflicts_of(groups, resolved, count);
    let differs = differs_from_remote(groups, resolved, count);
    match result {
        Ok(ReconcilePlan::Conflicted(paths)) => {
            &&& missing.len() == 0
            &&& conflicts.len() > 0
            &&& texts_view(paths@) == conflicts
        },
        Ok(ReconcilePlan::Remote) => missing.len() == 0 && conflicts.len() == 0 && !differs,
        Ok(ReconcilePlan::Publish(namespace)) => {
            &&& missing.len() == 0
            &&& conflicts.len() == 0
            &&& differs
            &&& remote.cursor.sequence < u64::MAX
            &&& namespace@.volume_id == remote.volume_id
            &&& namespace@.root == remote.root
            &&& namespace@.cursor.sequence == remote.cursor.sequence + 1
            &&& namespace@.records == target_of(groups, resolved, count)
        },
        Err(error) => if missing.len() > 0 {
            error.fault() == (Fault {
                kind: crate::error::ErrorKind::Invalid,
                operation: "synchronize replica"@,
                message: unsettled_message(missing),
            })
        } else {
            &&& conflicts.len() == 0
            &&& differs
            &&& remote.cursor.sequence == u64::MAX
            &&& error.fault() == corrupt(
                "reconcile replica",
                "Managed change sequence overflows",
            )
        },
    }
}

/// The target has no fault: its paths are portable and in order.
proof fn target_is_sound(groups: Seq<GroupView>, resolved: &PathSet, count: int)
    requires
        0 <= count <= groups.len(),
        groups_increase(groups),
        forall|i: int| 0 <= i < groups.len() ==> path_fault((#[trigger] groups[i]).path) is None,
    ensures
        records_fault(target_of(groups, resolved, count)) is None,
        count > 0 && target_of(groups, resolved, count).len() > 0 ==> {
            let last = text_rank(target_of(groups, resolved, count).last().path);
            last == text_rank(groups[count - 1].path) || before(
                last,
                text_rank(groups[count - 1].path),
            )
        },
        count == 0 ==> target_of(groups, resolved, count).len() == 0,
    decreases count,
{
    if count > 0 {
        target_is_sound(groups, resolved, count - 1);
        let rest = target_of(groups, resolved, count - 1);
        let all = target_of(groups, resolved, count);
        let tip = text_rank(groups[count - 1].path);
        if rest.len() > 0 {
            let prior = text_rank(groups[count - 2].path);
            let a = count - 2;
            let b = count - 1;
            assert(before(text_rank(groups[a].path), text_rank(groups[b].path)));
            let last = text_rank(rest.last().path);
            if last != prior {
                crate::order::before_transitive(last, prior, tip);
            }
            assert(before(last, tip));
        }
        if chosen(groups, resolved, count - 1) is Some {
            assert(all.drop_last() =~= rest);
            if rest.len() > 0 {
                assert(all[all.len() - 2] == rest.last());
            }
        }
    }
}

/// The paths of groups are those of namespaces.
pub proof fn group_paths_are_portable(
    groups: Seq<GroupView>,
    common: Seq<RecordView>,
    local: Seq<RecordView>,
    remote: Seq<RecordView>,
)
    requires
        are_groups(groups, three(common, local, remote)),
        records_fault(common) is None,
        records_fault(local) is None,
        records_fault(remote) is None,
    ensures
        forall|i: int| 0 <= i < groups.len() ==> path_fault((#[trigger] groups[i]).path) is None,
{
    crate::namespace::sound_records(common);
    crate::namespace::sound_records(local);
    crate::namespace::sound_records(remote);
    let streams = three(common, local, remote);
    assert forall|i: int| 0 <= i < groups.len() implies path_fault(
        (#[trigger] groups[i]).path,
    ) is None by {
        let path = groups[i].path;
        if crate::namespace::has_path(streams[0], path) {
            let k = crate::namespace::found_at(common, path);
        } else if crate::namespace::has_path(streams[1], path) {
            let k = crate::namespace::found_at(local, path);
        } else {
            let k = crate::namespace::found_at(remote, path);
        }
    }
}

/// Reconcile groups that were laid side by side.
pub fn reconcile_groups(groups: &Vec<PathGroup>, resolved: &PathSet, remote: &Namespace) -> (result:
    Result<ReconcilePlan, Error>)
    requires
        groups_increase(groups_view(groups@)),
        forall|i: int|
            0 <= i < groups@.len() ==> path_fault((#[trigger] groups@[i])@.path) is None,
    ensures
        reconciles(groups_view(groups@), resolved, remote@, result),
{
    let ghost views = groups_view(groups@);
    let decisions = decide_all(groups, resolved);
    let missing = find_unsettled(groups, resolved, &decisions.settled);
    proof {
        assert(missing@.len() == texts_view(missing@).len());
        assert(decisions.conflicts@.len() == texts_view(decisions.conflicts@).len());
    }
    if missing.len() > 0 {
        let mut message = "no unresolved conflict exists for ".to_owned();
        let list = list_texts(&missing);
        message.append(list.as_str());
        return Err(Error::invalid("synchronize replica", message.as_str()));
    }
    if decisions.conflicts.len() > 0 {
        return Ok(ReconcilePlan::Conflicted(decisions.conflicts));
    }
    if !decisions.differs {
        return Ok(ReconcilePlan::Remote);
    }
    let sequence: u64 = match remote.cursor().sequence().checked_add(1) {
        Some(sequence) => sequence,
        None => {
            return Err(Error::corrupt("reconcile replica", "Managed change sequence overflows"));
        },
    };
    proof {
        assert forall|i: int| 0 <= i < views.len() implies path_fault(
            (#[trigger] views[i]).path,
        ) is None by {
            assert(views[i] == groups@[i]@);
        }
        target_is_sound(views, resolved, views.len() as int);
    }
    match Namespace::new(
        remote.volume_id(),
        ChangeCursor::from_sequence(sequence),
        remote.root(),
        decisions.target,
    ) {
        Ok(namespace) => Ok(ReconcilePlan::Publish(namespace)),
        Err(error) => Err(error),
    }
}

/// What a reconciliation of a replica with its remote namespace comes to.
pub open spec fn reconciliation(
    common: NamespaceView,
    local: NamespaceView,
    remote: NamespaceView,
    resolved: &PathSet,
    result: Result<ReconcilePlan, Error>,
) -> bool {
    if require_fault(common, local) || require_fault(common, remote) {
        result matches Err(error) && error.fault() == other_volume()
    } else if common.cursor.sequence > remote.cursor.sequence {
        result matches Err(error) && error.fault() == corrupt(
            "reconcile replica",
            "reconciliation ancestry is invalid",
        )
    } else {
        exists|groups: Seq<GroupView>| #[trigger]
            are_groups(groups, three(common.records, local.records, remote.records))
                && reconciles(groups, resolved, remote, result)
    }
}

/// Reconcile a replica with its remote namespace, both of which came from a common one.
pub fn reconcile(
    common: &Namespace,
    local: &Namespace,
    remote: &Namespace,
    resolved: &PathSet,
) -> (result: Result<ReconcilePlan, Error>)
    ensures
        reconciliation(common@, local@, remote@, resolved, result),
{
    match require_same_volume(common, local) {
        Ok(()) => {},
        Err(error) => {
            return Err(error);
        },
    }
    match require_same_volume(common, remote) {
        Ok(()) => {},
        Err(error) => {
            return Err(error);
        },
    }
    if common.cursor().sequence() > remote.cursor().sequence() {
        return Err(Error::corrupt("reconcile replica", "reconciliation ancestry is invalid"));
    }
    let groups = merge_groups(common, local, remote);
    proof {
        let views = groups_view(groups@);
        group_paths_are_portable(views, common@.records, local@.records, remote@.records);
        assert forall|i: int| 0 <= i < groups@.len() implies path_fault(
            (#[trigger] groups@[i])@.path,
        ) is None by {
            assert(views[i] == groups@[i]@);
        }
    }
    reconcile_groups(&groups, resolved, remote)
}

/// The paths at which a replica has something else than its base.
pub fn changed_paths(base: &Namespace, side: &Namespace) -> (result: Result<PathSet, Error>)
    ensures
        match result {
            Ok(paths) => {
                &&& !require_fault(base@, side@)
                &&& forall|path: Seq<char>|
                    #[trigger] paths.has(path) <==> !same_entry(
                        value_at(base@.records, path),
                        value_at(side@.records, path),
                    )
            },
            Err(error) => require_fault(base@, side@) && error.fault() == other_volume(),
        },
{
    match require_same_volume(base, side) {
        Ok(()) => {},
        Err(error) => {
            return Err(error);
        },
    }
    let groups = merge_groups(base, side, side);
    let ghost views = groups_view(groups@);
    let mut changed: Vec<String> = Vec::new();
    let mut index: usize = 0;
    while index < groups.len()
        invariant
            views == groups_view(groups@),
            index <= groups@.len(),
            forall|n: int|
                0 <= n < changed@.len() ==> exists|i: int|
                    0 <= i < index && (#[trigger] views[i]).path == (#[trigger] texts_view(
                        changed@,
                    )[n]) && local_changed(views[i]),
            forall|i: int|
                0 <= i < index && local_changed(#[trigger] views[i]) ==> has_text(
                    texts_view(changed@),
                    views[i].path,
                ),
        decreases groups@.len() - index,
    {
        let group = &groups[index];
        let ghost so_far = texts_view(changed@);
        assert(views[index as int] == group@);
        if !entries_agree(&group.common, &group.local) {
            changed.push(group.path.clone());
        }
        proof {
            let now = texts_view(changed@);
            assert forall|n: int| 0 <= n < changed@.len() implies exists|i: int|
                0 <= i < index + 1 && (#[trigger] views[i]).path == (#[trigger] now[n])
                    && local_changed(views[i]) by {
                if n < so_far.len() {
                    assert(now[n] == so_far[n]);
                    let i = choose|i: int|
                        0 <= i < index && (#[trigger] views[i]).path == so_far[n]
                            && local_changed(views[i]);
                    assert(views[i].path == now[n]);
                } else {
                    assert(views[index as int].path == now[n]);
                }
            }
            assert forall|i: int|
                0 <= i < index + 1 && local_changed(#[trigger] views[i]) implies has_text(
                now,
                views[i].path,
            ) by {
                if i < index {
                    let n = choose|n: int|
                        0 <= n < so_far.len() && #[trigger] so_far[n] == views[i].path;
                    assert(now[n] == views[i].path);
                } else {
                    assert(now[so_far.len() as int] == views[i].path);
                }
            }
        }
        index += 1;
    }
    let ghost texts = texts_view(changed@);
    let paths = PathSet::from_paths(changed);
    proof {
        let streams = three(base@.records, side@.records, side@.records);
        assert forall|path: Seq<char>|
            #[trigger] paths.has(path) <==> !same_entry(
                value_at(base@.records, path),
                value_at(side@.records, path),
            ) by {
            if has_group(views, path) {
                let i = choose|i: int| 0 <= i < views.len() && (#[trigger] views[i]).path == path;
                assert(views[i].slot(0) == value_at(streams[0], path));
                assert(views[i].slot(1) == value_at(streams[1], path));
                if has_text(texts, path) {
                    let n = choose|n: int| 0 <= n < texts.len() && #[trigger] texts[n] == path;
                    let k = choose|k: int|
                        0 <= k < views.len() && (#[trigger] views[k]).path == texts[n]
                            && local_changed(views[k]);
                    assert(views[k].slot(0) == value_at(streams[0], path));
                    assert(views[k].slot(1) == value_at(streams[1], path));
                }
            } else {
                assert(!crate::namespace::has_path(streams[0], path));
                assert(!crate::namespace::has_path(streams[1], path));
                if has_text(texts, path) {
                    let n = choose|n: int| 0 <= n < texts.len() && #[trigger] texts[n] == path;
                    let k = choose|k: int|
                        0 <= k < views.len() && (#[trigger] views[k]).path == texts[n]
                            && local_changed(views[k]);
                    assert(has_group(views, path));
                }
            }
        }
    }
    Ok(paths)
}

proof fn same_entries_are_alike(left: Option<MemberView>, right: Option<MemberView>)
    requires
        same_entry(left, right),
    ensures
        is_directory(left) == is_directory(right),
{
}

/// Where the replica changed nothing, the remote namespace comes out of a reconciliation: no
/// path conflicts, and every path gets what the remote namespace has.
pub proof fn without_local_changes_the_remote_stands(
    groups: Seq<GroupView>,
    resolved: &PathSet,
    place: int,
)
    requires
        forall|k: int| 0 <= k < groups.len() ==> !local_changed(#[trigger] groups[k]),
        0 <= place < groups.len(),
    ensures
        chosen(groups, resolved, place) == groups[place].remote,
        !conflicts_at(groups, resolved, place),
{
    assert forall|i: int| 0 <= i < groups.len() implies !is_torn(groups, i) by {
        assert(!local_changed(groups[i]));
        same_entries_are_alike(groups[i].common, groups[i].local);
    }
    assert forall|i: int| 0 <= i <= place implies !#[trigger] is_open(groups, i, place) by {}
    assert(!local_changed(groups[place]));
}

/// Where the remote namespace did not change, the replica comes out of a reconciliation: no
/// path conflicts, and every path gets what the replica has, as far as a replica can tell.
pub proof fn without_remote_changes_the_local_stands(
    groups: Seq<GroupView>,
    resolved: &PathSet,
    place: int,
)
    requires
        forall|k: int| 0 <= k < groups.len() ==> !remote_changed(#[trigger] groups[k]),
        0 <= place < groups.len(),
    ensures
        same_entry(chosen(groups, resolved, place), groups[place].local),
        !conflicts_at(groups, resolved, place),
{
    assert forall|i: int| 0 <= i < groups.len() implies !is_torn(groups, i) by {
        assert(!remote_changed(groups[i]));
        same_entries_are_alike(groups[i].common, groups[i].remote);
    }
    assert forall|i: int| 0 <= i <= place implies !#[trigger] is_open(groups, i, place) by {}
    assert(!remote_changed(groups[place]));
}

/// Once the conflicts that were reported are resolved there is none left, and each of the
/// resolutions settles something.
pub proof fn resolving_the_conflicts_settles_them(
    groups: Seq<GroupView>,
    none: &PathSet,
    resolved: &PathSet,
    place: int,
)
    requires
        none@.len() == 0,
        0 <= place < groups.len(),
        forall|k: int|
            0 <= k < groups.len() && conflicts_at(groups, none, k) ==> resolved.has(
                (#[trigger] groups[k]).path,
            ),
    ensures
        !conflicts_at(groups, resolved, place),
        conflicts_at(groups, none, place) ==> settles(groups, resolved, place),
{
    let group = groups[place];
    if is_torn(groups, place) {
        assert(is_open(groups, place, place));
        assert(is_blocked(groups, none, place));
        assert(conflicts_at(groups, none, place));
        assert(resolved.has(groups[place].path));
    } else if !is_blocked(groups, resolved, place) && !is_forced(groups, resolved, place) {
        assert forall|i: int| 0 <= i <= place implies !#[trigger] is_open(groups, i, place) by {}
        assert(!is_blocked(groups, none, place));
        if diverges(group) {
            assert(conflicts_at(groups, none, place));
            assert(resolved.has(groups[place].path));
        }
    } else if conflicts_at(groups, none, place) {
        if is_blocked(groups, none, place) {
        } else {
            assert(!is_forced(groups, none, place));
            assert forall|i: int| 0 <= i <= place implies !#[trigger] is_open(
                groups,
                i,
                place,
            ) by {}
            assert(!is_blocked(groups, resolved, place));
            assert(!is_forced(groups, resolved, place));
        }
    }
}

/// Without resolutions none is left over.
pub proof fn nothing_unsettled(groups: Seq<GroupView>, resolved: &PathSet)
    requires
        resolved@.len() == 0,
    ensures
        unsettled(groups, resolved, resolved@.len() as int).len() == 0,
{
}

pub proof fn no_conflicts(groups: Seq<GroupView>, resolved: &PathSet, count: int)
    requires
        0 <= count <= groups.len(),
        forall|k: int| 0 <= k < groups.len() ==> !#[trigger] conflicts_at(groups, resolved, k),
    ensures
        conflicts_of(groups, resolved, count).len() == 0,
    decreases count,
{
    if count > 0 {
        no_conflicts(groups, resolved, count - 1);
        assert(!conflicts_at(groups, resolved, count - 1));
    }
}

/// A replica that changed nothing takes over the remote namespace.
pub proof fn an_unchanged_replica_takes_the_remote(
    common: NamespaceView,
    local: NamespaceView,
    remote: NamespaceView,
    resolved: &PathSet,
    result: Result<ReconcilePlan, Error>,
)
    requires
        reconciliation(common, local, remote, resolved, result),
        !require_fault(common, local),
        !require_fault(common, remote),
        common.cursor.sequence <= remote.cursor.sequence,
        resolved@.len() == 0,
        forall|path: Seq<char>|
            same_entry(
                #[trigger] value_at(common.records, path),
                value_at(local.records, path),
            ),
    ensures
        result matches Ok(ReconcilePlan::Remote),
{
    let streams = three(common.records, local.records, remote.records);
    let groups = choose|groups: Seq<GroupView>| #[trigger]
        are_groups(groups, streams) && reconciles(groups, resolved, remote, result);
    assert forall|k: int| 0 <= k < groups.len() implies !local_changed(#[trigger] groups[k]) by {
        assert(groups[k].slot(0) == value_at(streams[0], groups[k].path));
        assert(groups[k].slot(1) == value_at(streams[1], groups[k].path));
    }
    assert forall|k: int| 0 <= k < groups.len() implies !#[trigger] conflicts_at(
        groups,
        resolved,
        k,
    ) && chosen(groups, resolved, k) == groups[k].remote by {
        without_local_changes_the_remote_stands(groups, resolved, k);
    }
    nothing_unsettled(groups, resolved);
    no_conflicts(groups, resolved, groups.len() as int);
    assert(!differs_from_remote(groups, resolved, groups.len() as int)) by {
        assert forall|k: int| 0 <= k < groups.len() implies same_entry(
            chosen(groups, resolved, k),
            (#[trigger] groups[k]).remote,
        ) by {
            assert(!conflicts_at(groups, resolved, k));
        }
    }
}

/// Where a replica and the remote namespace came to hold the same, nothing conflicts and
/// nothing is published.
pub proof fn equal_changes_agree(
    common: NamespaceView,
    local: NamespaceView,
    remote: NamespaceView,
    resolved: &PathSet,
    result: Result<ReconcilePlan, Error>,
)
    requires
        reconciliation(common, local, remote, resolved, result),
        !require_fault(common, local),
        !require_fault(common, remote),
        common.cursor.sequence <= remote.cursor.sequence,
        resolved@.len() == 0,
        forall|path: Seq<char>|
            same_entry(
                #[trigger] value_at(local.records, path),
                value_at(remote.records, path),
            ),
    ensures
        result matches Ok(ReconcilePlan::Remote),
{
    let streams = three(common.records, local.records, remote.records);
    let groups = choose|groups: Seq<GroupView>| #[trigger]
        are_groups(groups, streams) && reconciles(groups, resolved, remote, result);
    assert forall|k: int| 0 <= k < groups.len() implies same_entry(
        (#[trigger] groups[k]).local,
        groups[k].remote,
    ) by {
        assert(groups[k].slot(1) == value_at(streams[1], groups[k].path));
        assert(groups[k].slot(2) == value_at(streams[2], groups[k].path));
    }
    assert forall|k: int| 0 <= k < groups.len() implies !is_torn(groups, k) by {
        same_entries_are_alike(groups[k].local, groups[k].remote);
    }
    assert forall|k: int| 0 <= k < groups.len() implies !#[trigger] conflicts_at(
        groups,
        resolved,
        k,
    ) && chosen(groups, resolved, k) == groups[k].remote by {
        assert forall|i: int| 0 <= i <= k implies !#[trigger] is_open(groups, i, k) by {}
    }
    nothing_unsettled(groups, resolved);
    no_conflicts(groups, resolved, groups.len() as int);
    assert(!differs_from_remote(groups, resolved, groups.len() as int)) by {
        assert forall|k: int| 0 <= k < groups.len() implies same_entry(
            chosen(groups, resolved, k),
            (#[trigger] groups[k]).remote,
        ) by {
            assert(!conflicts_at(groups, resolved, k));
        }
    }
}

/// Each record of the target is what a group gets, and each group that gets a node has one.
pub proof fn target_members(groups: Seq<GroupView>, resolved: &PathSet, count: int)
    requires
        0 <= count <= groups.len(),
    ensures
        forall|p: int|
            0 <= p < target_of(groups, resolved, count).len() ==> is_chosen(
                groups,
                resolved,
                count,
                #[trigger] target_of(groups, resolved, count)[p],
            ),
        forall|k: int|
            0 <= k < count && (#[trigger] chosen(groups, resolved, k)) is Some ==> target_of(
                groups,
                resolved,
                count,
            ).contains(
                RecordView { path: groups[k].path, value: chosen(groups, resolved, k) },
            ),
    decreases count,
{
    if count > 0 {
        target_members(groups, resolved, count - 1);
        let rest = target_of(groups, resolved, count - 1);
        let all = target_of(groups, resolved, count);
        let tip = chosen(groups, resolved, count - 1);
        let record = RecordView { path: groups[count - 1].path, value: tip };
        assert forall|p: int| 0 <= p < all.len() implies is_chosen(
            groups,
            resolved,
            count,
            #[trigger] all[p],
        ) by {
            if p < rest.len() {
                assert(all[p] == rest[p]);
                assert(is_chosen(groups, resolved, count - 1, rest[p]));
            } else {
                assert(all[p] == record);
                assert(gets(groups, resolved, count - 1, record));
            }
        }
        assert forall|k: int|
            0 <= k < count && (#[trigger] chosen(groups, resolved, k)) is Some implies all.contains(
            RecordView { path: groups[k].path, value: chosen(groups, resolved, k) },
        ) by {
            let wanted = RecordView { path: groups[k].path, value: chosen(groups, resolved, k) };
            if k < count - 1 {
                assert(rest.contains(wanted));
                let p = choose|p: int| 0 <= p < rest.len() && rest[p] == wanted;
                assert(all[p] == wanted);
            } else {
                assert(all[all.len() - 1] == wanted);
            }
        }
    }
}

pub open spec fn gets(groups: Seq<GroupView>, resolved: &PathSet, place: int, record: RecordView) -> bool {
    &&& chosen(groups, resolved, place) is Some
    &&& record == RecordView {
        path: groups[place].path,
        value: chosen(groups, resolved, place),
    }
}

pub open spec fn is_chosen(
    groups: Seq<GroupView>,
    resolved: &PathSet,
    count: int,
    record: RecordView,
) -> bool {
    exists|k: int| 0 <= k < count && #[trigger] gets(groups, resolved, k, record)
}

/// The target has at the path of a group what the group gets.
pub proof fn target_at(groups: Seq<GroupView>, resolved: &PathSet, place: int)
    requires
        0 <= place < groups.len(),
        groups_increase(groups),
        forall|i: int| 0 <= i < groups.len() ==> path_fault((#[trigger] groups[i]).path) is None,
    ensures
        value_at(target_of(groups, resolved, groups.len() as int), groups[place].path) == chosen(
            groups,
            resolved,
            place,
        ),
{
    let count = groups.len() as int;
    let target = target_of(groups, resolved, count);
    let path = groups[place].path;
    target_is_sound(groups, resolved, count);
    crate::namespace::sound_records(target);
    target_members(groups, resolved, count);
    if chosen(groups, resolved, place) is Some {
        let record = RecordView { path, value: chosen(groups, resolved, place) };
        assert(target.contains(record));
        let p = choose|p: int| 0 <= p < target.len() && target[p] == record;
        crate::namespace::find_at(target, p);
    } else if crate::namespace::has_path(target, path) {
        let p = crate::namespace::found_at(target, path);
        assert(is_chosen(groups, resolved, count, target[p]));
        let k = choose|k: int| 0 <= k < count && #[trigger] gets(groups, resolved, k, target[p]);
        crate::order::before_irreflexive(text_rank(path));
        if k < place {
            assert(before(text_rank(groups[k].path), text_rank(groups[place].path)));
        } else if place < k {
            assert(before(text_rank(groups[place].path), text_rank(groups[k].path)));
        }
    }
}

/// Where only a replica changed, what it holds comes out: it is published, or the remote
/// namespace holds it already.
pub proof fn a_lone_change_comes_through(
    common: NamespaceView,
    local: NamespaceView,
    remote: NamespaceView,
    resolved: &PathSet,
    result: Result<ReconcilePlan, Error>,
)
    requires
        reconciliation(common, local, remote, resolved, result),
        !require_fault(common, local),
        !require_fault(common, remote),
        common.cursor.sequence <= remote.cursor.sequence < u64::MAX,
        resolved@.len() == 0,
        records_fault(common.records) is None,
        records_fault(local.records) is None,
        records_fault(remote.records) is None,
        forall|path: Seq<char>|
            same_entry(
                #[trigger] value_at(common.records, path),
                value_at(remote.records, path),
            ),
    ensures
        match result {
            Ok(ReconcilePlan::Publish(namespace)) => forall|path: Seq<char>|
                same_entry(
                    #[trigger] value_at(namespace@.records, path),
                    value_at(local.records, path),
                ),
            Ok(ReconcilePlan::Remote) => forall|path: Seq<char>|
                same_entry(
                    #[trigger] value_at(remote.records, path),
                    value_at(local.records, path),
                ),
            _ => false,
        },
{
    let streams = three(common.records, local.records, remote.records);
    let groups = choose|groups: Seq<GroupView>| #[trigger]
        are_groups(groups, streams) && reconciles(groups, resolved, remote, result);
    let count = groups.len() as int;
    assert forall|k: int| 0 <= k < groups.len() implies !remote_changed(#[trigger] groups[k]) by {
        assert(groups[k].slot(0) == value_at(streams[0], groups[k].path));
        assert(groups[k].slot(2) == value_at(streams[2], groups[k].path));
    }
    assert forall|k: int| 0 <= k < groups.len() implies !#[trigger] conflicts_at(
        groups,
        resolved,
        k,
    ) && same_entry(chosen(groups, resolved, k), groups[k].local) by {
        without_remote_changes_the_local_stands(groups, resolved, k);
    }
    nothing_unsettled(groups, resolved);
    no_conflicts(groups, resolved, count);
    group_paths_are_portable(groups, common.records, local.records, remote.records);
    let target = target_of(groups, resolved, count);
    assert forall|path: Seq<char>| {
        &&& same_entry(#[trigger] value_at(target, path), value_at(local.records, path))
        &&& !differs_from_remote(groups, resolved, count) ==> same_entry(
            value_at(remote.records, path),
            value_at(local.records, path),
        )
    } by {
        if has_group(groups, path) {
            let k = choose|k: int| 0 <= k < groups.len() && (#[trigger] groups[k]).path == path;
            target_at(groups, resolved, k);
            assert(groups[k].slot(1) == value_at(streams[1], path));
            assert(groups[k].slot(2) == value_at(streams[2], path));
            assert(!conflicts_at(groups, resolved, k));
            assert(!differs_from_remote(groups, resolved, count) ==> same_entry(
                chosen(groups, resolved, k),
                groups[k].remote,
            ));
        } else {
            assert(!crate::namespace::has_path(streams[1], path));
            assert(!crate::namespace::has_path(streams[2], path));
            target_members(groups, resolved, count);
            if crate::namespace::has_path(target, path) {
                let p = crate::namespace::found_at(target, path);
                assert(is_chosen(groups, resolved, count, target[p]));
                let k = choose|k: int|
                    0 <= k < count && #[trigger] gets(groups, resolved, k, target[p]);
                assert(groups[k].path == path);
            }
        }
    }
    assert forall|path: Seq<char>|
        !differs_from_remote(groups, resolved, count) implies same_entry(
        #[trigger] value_at(remote.records, path),
        value_at(local.records, path),
    ) by {
        let node = value_at(target, path);
    }
}

} // verus!
