//! What the validity and the succession of trees promise, by the fields of their nodes.

use vstd::prelude::*;
use vstd::utf8::encode_utf8;

use crate::error::Error;
use crate::filesystem::{
    covered, file_fault, parts_fault, BodyView, FilePartView, FileView, Node, NodeView,
};
use crate::identity::NodeId;
use crate::order::{before, before_after_prefix, before_irreflexive};
use crate::path::{encoding_of_joined, path_fault, path_is_parent_and_name, Path};
use crate::paths::{has_text, ordered_texts_are_one, texts_increase};
use crate::succession::{id_is_at, valid_ids_are_unique};
use crate::text::{folded_of, last_slash_is_last, name_of, parent_of, text_rank};
use crate::tree::{
    as_map, change_fault, child_views, children, collide, entries_fault, entry_fault, follows, has_id,
    has_path, is_child_of, lookup, member_fault, membership_fault, ordered, parent_id,
    place_is_unique, place_of_id, tree_fault, unique_ids, ChildView, EntryView, Tree,
};

verus! {

// Files.

/// The part at a place begins where the one before it ends, the first one at the start of the
/// file, and is decoded as often as the format asks.
pub open spec fn part_follows(
    parts: Seq<FilePartView>,
    place: int,
    decodings: Option<usize>,
) -> bool {
    &&& parts[place].offset == if place == 0 {
        0int
    } else {
        parts[place - 1].offset + parts[place - 1].length
    }
    &&& decodings is Some ==> parts[place].source.decoded.len() == decodings->0
}

/// The parts stand one behind the other from the start of the file, and each is decoded as
/// often as the format asks.
pub open spec fn parts_follow(parts: Seq<FilePartView>, decodings: Option<usize>) -> bool {
    forall|i: int| 0 <= i < parts.len() ==> #[trigger] part_follows(parts, i, decodings)
}

proof fn faultless_parts_follow(parts: Seq<FilePartView>, decodings: Option<usize>)
    ensures
        parts_fault(parts, decodings) is None <==> parts_follow(parts, decodings),
    decreases parts.len(),
{
    if parts.len() > 0 {
        let rest = parts.drop_last();
        let last = parts.len() - 1;
        faultless_parts_follow(rest, decodings);
        assert forall|i: int| 0 <= i < last implies part_follows(rest, i, decodings)
            == #[trigger] part_follows(parts, i, decodings) by {
            assert(rest[i] == parts[i]);
            if i > 0 {
                assert(rest[i - 1] == parts[i - 1]);
            }
        }
        assert(part_follows(parts, last, decodings) <==> parts.last().offset == covered(rest) && (
        decodings is Some ==> parts.last().source.decoded.len() == decodings->0)) by {
            if last > 0 {
                assert(rest.last() == parts[last - 1]);
            }
        }
        if parts_follow(parts, decodings) {
            assert forall|i: int| 0 <= i < rest.len() implies #[trigger] part_follows(
                rest,
                i,
                decodings,
            ) by {
                assert(part_follows(parts, i, decodings));
            }
        }
        if parts_follow(rest, decodings) && part_follows(parts, last, decodings) {
            assert forall|i: int| 0 <= i < parts.len() implies #[trigger] part_follows(
                parts,
                i,
                decodings,
            ) by {
                if i < last {
                    assert(part_follows(rest, i, decodings));
                }
            }
        }
    }
}

/// A file is valid exactly if its parts stand one behind the other from its start to its end,
/// an empty file having none.
pub proof fn the_parts_of_a_file_cover_it(file: FileView, decodings: Option<usize>)
    ensures
        file_fault(file, decodings) is None <==> if file.content.length == 0 {
            file.parts.len() == 0
        } else {
            &&& file.parts.len() > 0
            &&& parts_follow(file.parts, decodings)
            &&& file.parts.last().offset + file.parts.last().length == file.content.length
        },
{
    faultless_parts_follow(file.parts, decodings);
}

/// Every byte of a valid file lies in one of its parts.
pub proof fn every_byte_has_a_part(file: FileView, decodings: Option<usize>, byte: int) -> (place:
    int)
    requires
        file_fault(file, decodings) is None,
        0 <= byte < file.content.length,
    ensures
        0 <= place < file.parts.len(),
        file.parts[place].offset <= byte < file.parts[place].offset + file.parts[place].length,
{
    the_parts_of_a_file_cover_it(file, decodings);
    assert(file.parts.last() == file.parts[file.parts.len() - 1]);
    part_of_byte(file.parts, decodings, file.parts.len() - 1, byte)
}

proof fn part_of_byte(
    parts: Seq<FilePartView>,
    decodings: Option<usize>,
    last: int,
    byte: int,
) -> (place: int)
    requires
        parts_follow(parts, decodings),
        0 <= last < parts.len(),
        0 <= byte < parts[last].offset + parts[last].length,
    ensures
        0 <= place <= last,
        parts[place].offset <= byte < parts[place].offset + parts[place].length,
    decreases last,
{
    if parts[last].offset <= byte {
        last
    } else {
        assert(part_follows(parts, last, decodings));
        part_of_byte(parts, decodings, last - 1, byte)
    }
}

// Trees.

/// The entry at one place is the directory that holds the entry at another.
pub open spec fn holds(entries: Seq<EntryView>, directory: int, place: int) -> bool {
    &&& entries[place].path.len() > 0
    &&& entries[directory].path == parent_of(entries[place].path)
    &&& entries[directory].node.body is Dir
}

/// The entry has a directory that holds it, unless it is the root.
pub open spec fn is_held(entries: Seq<EntryView>, place: int) -> bool {
    entries[place].path.len() == 0 || exists|d: int|
        0 <= d < entries.len() && #[trigger] holds(entries, d, place)
}

/// The counters of a node have started, and a file is covered by its parts.
pub open spec fn is_sound(node: NodeView, decodings: usize) -> bool {
    &&& node.generation@ > 0
    &&& match node.body {
        BodyView::Dir(dir) => dir.entries_generation@ > 0,
        BodyView::File(file) => file_fault(file, Some(decodings)) is None,
    }
}

/// The entries are a tree below the root.
pub open spec fn is_tree(entries: Seq<EntryView>, root: NodeId, decodings: usize) -> bool {
    &&& exists|r: int|
        0 <= r < entries.len() && (#[trigger] entries[r]).path.len() == 0 && entries[r].node.id
            == root && entries[r].node.body is Dir
    &&& forall|i: int| 0 <= i < entries.len() ==> is_sound((#[trigger] entries[i]).node, decodings)
    &&& forall|i: int| 0 <= i < entries.len() ==> #[trigger] is_held(entries, i)
    &&& forall|i: int, j: int|
        0 <= i < j < entries.len() ==> (#[trigger] entries[i]).node.id != (
        #[trigger] entries[j]).node.id
    &&& forall|i: int, j: int|
        #![trigger entries[i], entries[j]]
        0 <= i < j < entries.len() && entries[i].path.len() > 0 && entries[j].path.len() > 0
            && parent_of(entries[i].path) == parent_of(entries[j].path) ==> folded_of(
            name_of(entries[i].path),
        ) != folded_of(name_of(entries[j].path))
}

proof fn held_has_a_parent(entries: Seq<EntryView>, place: int)
    requires
        ordered(entries),
        0 <= place < entries.len(),
        entries[place].path.len() > 0,
    ensures
        is_held(entries, place) <==> parent_id(entries, entries[place].path) is Some,
        forall|d: int|
            0 <= d < entries.len() && #[trigger] holds(entries, d, place) ==> parent_id(
                entries,
                entries[place].path,
            ) == Some(entries[d].node.id),
        parent_id(entries, entries[place].path) is Some ==> exists|d: int|
            0 <= d < entries.len() && #[trigger] holds(entries, d, place) && parent_id(
                entries,
                entries[place].path,
            ) == Some(entries[d].node.id),
{
    let parent = parent_of(entries[place].path);
    assert forall|d: int| 0 <= d < entries.len() && #[trigger] holds(
        entries,
        d,
        place,
    ) implies parent_id(entries, entries[place].path) == Some(entries[d].node.id) by {
        place_is_unique(entries, d);
    }
    if parent_id(entries, entries[place].path) is Some {
        assert(has_path(entries, parent));
        let d = choose|d: int| 0 <= d < entries.len() && (#[trigger] entries[d]).path == parent;
        place_is_unique(entries, d);
        assert(holds(entries, d, place));
    }
}

proof fn faultless_entries(entries: Seq<EntryView>, count: nat, decodings: usize)
    requires
        count <= entries.len(),
    ensures
        entries_fault(entries, count, decodings) is None <==> forall|i: int|
            0 <= i < count ==> #[trigger] entry_fault(entries, i, decodings) is None,
    decreases count,
{
    if count > 0 {
        faultless_entries(entries, (count - 1) as nat, decodings);
        assert(entry_fault(entries, count - 1, decodings) is None
            || entry_fault(entries, count - 1, decodings) is Some);
    }
}

proof fn faultless_members(entries: Seq<EntryView>, count: nat)
    requires
        count <= entries.len(),
        forall|i: int|
            0 <= i < entries.len() && (#[trigger] entries[i]).path.len() > 0 ==> parent_id(
                entries,
                entries[i].path,
            ) is Some,
    ensures
        membership_fault(entries, count) is None <==> forall|i: int, j: int|
            0 <= i < j < count ==> !#[trigger] collide(entries, i, j),
    decreases count,
{
    if count > 0 {
        faultless_members(entries, (count - 1) as nat);
        assert(entries[count - 1].path.len() > 0 ==> parent_id(
            entries,
            entries[count - 1].path,
        ) is Some);
    }
}

proof fn one_parent(entries: Seq<EntryView>, i: int, j: int)
    requires
        ordered(entries),
        unique_ids(entries),
        0 <= i < entries.len(),
        0 <= j < entries.len(),
        entries[i].path.len() > 0,
        entries[j].path.len() > 0,
        parent_id(entries, entries[i].path) is Some,
        parent_id(entries, entries[i].path) == parent_id(entries, entries[j].path),
    ensures
        parent_of(entries[i].path) == parent_of(entries[j].path),
{
    held_has_a_parent(entries, i);
    held_has_a_parent(entries, j);
    let c = choose|d: int|
        0 <= d < entries.len() && #[trigger] holds(entries, d, i) && parent_id(
            entries,
            entries[i].path,
        ) == Some(entries[d].node.id);
    let d = choose|d: int|
        0 <= d < entries.len() && #[trigger] holds(entries, d, j) && parent_id(
            entries,
            entries[j].path,
        ) == Some(entries[d].node.id);
    if c < d {
        assert(entries[c].node.id != entries[d].node.id);
    } else if d < c {
        assert(entries[d].node.id != entries[c].node.id);
    }
}

/// Entries are valid exactly if they are a tree: the root is a directory with the identity that
/// the format names, everything else lies in a directory, no identity occurs twice, all
/// counters have started, files are covered by their parts, and no two names of one directory
/// fold to the same text.
#[verifier::rlimit(40)]
pub proof fn valid_is_being_a_tree(entries: Seq<EntryView>, root: NodeId, decodings: usize)
    requires
        ordered(entries),
    ensures
        tree_fault(entries, root, decodings) is None <==> is_tree(entries, root, decodings),
{
    let top = lookup(entries, Seq::empty());
    faultless_entries(entries, entries.len(), decodings);
    if tree_fault(entries, root, decodings) is None {
        valid_ids_are_unique(entries, root, decodings);
        assert forall|i: int| 0 <= i < entries.len() implies #[trigger] is_held(entries, i)
            && is_sound(entries[i].node, decodings) by {
            assert(entry_fault(entries, i, decodings) is None);
            if entries[i].path.len() > 0 {
                held_has_a_parent(entries, i);
            }
        }
        assert forall|i: int| 0 <= i < entries.len() implies is_sound(
            (#[trigger] entries[i]).node,
            decodings,
        ) by {
            assert(is_held(entries, i));
        }
        assert forall|i: int|
            0 <= i < entries.len() && (#[trigger] entries[i]).path.len() > 0 implies parent_id(
            entries,
            entries[i].path,
        ) is Some by {
            assert(entry_fault(entries, i, decodings) is None);
        }
        faultless_members(entries, entries.len());
        assert forall|i: int, j: int|
            #![trigger entries[i], entries[j]]
            0 <= i < j < entries.len() && entries[i].path.len() > 0 && entries[j].path.len() > 0
                && parent_of(entries[i].path) == parent_of(entries[j].path) implies folded_of(
            name_of(entries[i].path),
        ) != folded_of(name_of(entries[j].path)) by {
            assert(!collide(entries, i, j));
        }
        let r = choose|r: int|
            0 <= r < entries.len() && (#[trigger] entries[r]).path == Seq::<char>::empty();
        place_is_unique(entries, r);
        assert(entries[r].path.len() == 0);
    }
    if is_tree(entries, root, decodings) {
        let r = choose|r: int|
            0 <= r < entries.len() && (#[trigger] entries[r]).path.len() == 0 && entries[r].node.id
                == root && entries[r].node.body is Dir;
        assert(entries[r].path =~= Seq::<char>::empty());
        place_is_unique(entries, r);
        assert forall|i: int| 0 <= i < entries.len() implies #[trigger] entry_fault(
            entries,
            i,
            decodings,
        ) is None by {
            assert(is_held(entries, i));
            assert(is_sound(entries[i].node, decodings));
            if entries[i].path.len() > 0 {
                held_has_a_parent(entries, i);
            }
            assert forall|k: int| 0 <= k < i implies (#[trigger] entries[k]).node.id
                != entries[i].node.id by {}
        }
        assert forall|i: int|
            0 <= i < entries.len() && (#[trigger] entries[i]).path.len() > 0 implies parent_id(
            entries,
            entries[i].path,
        ) is Some by {
            assert(entry_fault(entries, i, decodings) is None);
        }
        faultless_members(entries, entries.len());
        assert forall|i: int, j: int| 0 <= i < j < entries.len() implies !#[trigger] collide(
            entries,
            i,
            j,
        ) by {
            if collide(entries, i, j) {
                one_parent(entries, i, j);
                assert(entries[i].path.len() > 0 && entries[j].path.len() > 0);
            }
        }
    }
}

// Succession.

/// In an accepted step, the generation of a node that is in both trees counts one if its
/// attributes differ, or if it is a file whose version, content or parts differ; if none of
/// these differs it stays. A node keeps its kind, and a file that keeps its version keeps its
/// content and its parts.
pub proof fn a_changed_node_counts_one(
    previous: Seq<EntryView>,
    next: Seq<EntryView>,
    root: NodeId,
    decodings: usize,
    old_place: int,
    place: int,
)
    requires
        follows(previous, next, root, decodings),
        0 <= old_place < previous.len(),
        0 <= place < next.len(),
        previous[old_place].node.id == next[place].node.id,
    ensures
        ({
            let old_node = previous[old_place].node;
            let node = next[place].node;
            &&& old_node.attrs.executable != node.attrs.executable ==> node.generation@
                == old_node.generation@ + 1
            &&& match (old_node.body, node.body) {
                (BodyView::File(old_file), BodyView::File(file)) => {
                    &&& old_file.version != file.version || old_file.content != file.content
                        || old_file.parts != file.parts ==> node.generation@
                        == old_node.generation@ + 1
                    &&& old_file.version == file.version && old_file.content == file.content
                        && old_file.parts == file.parts && old_node.attrs.executable
                        == node.attrs.executable ==> node.generation@ == old_node.generation@
                    &&& old_file.version == file.version ==> old_file.content == file.content
                        && old_file.parts == file.parts
                },
                (BodyView::Dir(_), BodyView::Dir(_)) => {
                    old_node.attrs.executable == node.attrs.executable ==> node.generation@
                        == old_node.generation@
                },
                _ => false,
            }
        }),
{
    valid_ids_are_unique(previous, root, decodings);
    id_is_at(previous, old_place);
    assert(change_fault(previous, next, place) is None);
}

/// In an accepted step a node that the previous tree does not have starts at its first
/// generation, and so do the entries of a new directory.
pub proof fn a_new_node_starts_at_one(
    previous: Seq<EntryView>,
    next: Seq<EntryView>,
    root: NodeId,
    decodings: usize,
    place: int,
)
    requires
        follows(previous, next, root, decodings),
        0 <= place < next.len(),
        forall|i: int| 0 <= i < previous.len() ==> (#[trigger] previous[i]).node.id
            != next[place].node.id,
    ensures
        next[place].node.generation@ == 1,
        next[place].node.body matches BodyView::Dir(dir) ==> dir.entries_generation@ == 1,
{
    assert(!has_id(previous, next[place].node.id));
    assert(change_fault(previous, next, place) is None);
}

/// A directory has a member of a name, which is the node of an identity.
pub open spec fn has_member(
    entries: Seq<EntryView>,
    directory: NodeId,
    name: Seq<char>,
    id: NodeId,
) -> bool {
    exists|d: int, i: int|
        0 <= d < entries.len() && 0 <= i < entries.len() && #[trigger] holds(entries, d, i)
            && entries[d].node.id == directory && name_of(entries[i].path) == name
            && entries[i].node.id == id
}

proof fn listed_children(entries: Seq<EntryView>, count: nat, child: ChildView)
    requires
        count <= entries.len(),
    ensures
        child_views(entries, count).contains(child) <==> exists|i: int|
            0 <= i < count && (#[trigger] entries[i]).path.len() > 0 && parent_id(
                entries,
                entries[i].path,
            ) == Some(child.parent) && name_of(entries[i].path) == child.name && entries[i].node.id
                == child.id,
    decreases count,
{
    if count > 0 {
        let rest = child_views(entries, (count - 1) as nat);
        let all = child_views(entries, count);
        listed_children(entries, (count - 1) as nat, child);
        if rest.contains(child) {
            let n = choose|n: int| 0 <= n < rest.len() && rest[n] == child;
            assert(all[n] == child);
        }
        if all.contains(child) {
            let n = choose|n: int| 0 <= n < all.len() && all[n] == child;
            if n < rest.len() {
                assert(rest[n] == child);
            } else {
                assert(entries[count - 1].path.len() > 0);
            }
        }
        if exists|i: int|
            0 <= i < count && (#[trigger] entries[i]).path.len() > 0 && parent_id(
                entries,
                entries[i].path,
            ) == Some(child.parent) && name_of(entries[i].path) == child.name && entries[i].node.id
                == child.id {
            let i = choose|i: int|
                0 <= i < count && (#[trigger] entries[i]).path.len() > 0 && parent_id(
                    entries,
                    entries[i].path,
                ) == Some(child.parent) && name_of(entries[i].path) == child.name
                    && entries[i].node.id == child.id;
            if i < count - 1 {
                assert(rest.contains(child));
            } else {
                assert(all[rest.len() as int] == child);
            }
        }
    }
}

/// The members that are compared are the names in the directory with their nodes.
pub proof fn members_are_what_a_directory_holds(
    entries: Seq<EntryView>,
    directory: NodeId,
    name: Seq<char>,
    id: NodeId,
)
    requires
        ordered(entries),
    ensures
        has_member(entries, directory, name, id) <==> children(entries, directory).contains(
            ChildView { parent: directory, name, id },
        ),
{
    let child = ChildView { parent: directory, name, id };
    let all = child_views(entries, entries.len());
    let test = is_child_of(directory);
    listed_children(entries, entries.len(), child);
    let kept = all.filter(test);
    if all.contains(child) {
        let n = choose|n: int| 0 <= n < all.len() && all[n] == child;
        assert(test(all[n]));
        all.lemma_filter_contains(test, n);
        assert(kept.contains(all[n]));
        let i = choose|i: int|
            0 <= i < entries.len() && (#[trigger] entries[i]).path.len() > 0 && parent_id(
                entries,
                entries[i].path,
            ) == Some(child.parent) && name_of(entries[i].path) == child.name && entries[i].node.id
                == child.id;
        held_has_a_parent(entries, i);
        let d = choose|d: int|
            0 <= d < entries.len() && #[trigger] holds(entries, d, i) && parent_id(
                entries,
                entries[i].path,
            ) == Some(entries[d].node.id);
        assert(holds(entries, d, i));
    }
    if kept.contains(child) {
        all.lemma_filter_contains_rev(test, child);
    }
    if has_member(entries, directory, name, id) {
        let (d, i) = choose|d: int, i: int|
            0 <= d < entries.len() && 0 <= i < entries.len() && #[trigger] holds(entries, d, i)
                && entries[d].node.id == directory && name_of(entries[i].path) == name
                && entries[i].node.id == id;
        held_has_a_parent(entries, i);
        assert(entries[i].path.len() > 0);
    }
}

/// In an accepted step the entries generation of a directory that is in both trees counts one if
/// some name in it is gone, is new, or leads to another node.
pub proof fn a_changed_directory_counts_one(
    previous: Seq<EntryView>,
    next: Seq<EntryView>,
    root: NodeId,
    decodings: usize,
    old_place: int,
    place: int,
    name: Seq<char>,
    id: NodeId,
)
    requires
        ordered(previous),
        ordered(next),
        follows(previous, next, root, decodings),
        0 <= old_place < previous.len(),
        0 <= place < next.len(),
        previous[old_place].node.id == next[place].node.id,
        next[place].node.body is Dir,
        has_member(previous, next[place].node.id, name, id) != has_member(
            next,
            next[place].node.id,
            name,
            id,
        ),
    ensures
        next[place].node.body->Dir_0.entries_generation@
            == previous[old_place].node.body->Dir_0.entries_generation@ + 1,
{
    let directory = next[place].node.id;
    valid_ids_are_unique(previous, root, decodings);
    id_is_at(previous, old_place);
    assert(change_fault(previous, next, place) is None);
    assert(member_fault(previous, next, place) is None);
    members_are_what_a_directory_holds(previous, directory, name, id);
    members_are_what_a_directory_holds(next, directory, name, id);
}

proof fn names_stand_like_paths(left: Seq<char>, right: Seq<char>)
    requires
        path_fault(left) is None,
        path_fault(right) is None,
        left.len() > 0,
        right.len() > 0,
        parent_of(left) == parent_of(right),
        before(text_rank(left), text_rank(right)),
    ensures
        before(text_rank(name_of(left)), text_rank(name_of(right))),
{
    path_is_parent_and_name(left);
    path_is_parent_and_name(right);
    last_slash_is_last(left);
    last_slash_is_last(right);
    let parent = parent_of(left);
    if parent.len() > 0 {
        let front = parent + seq!['/'];
        encoding_of_joined(front, name_of(left));
        encoding_of_joined(front, name_of(right));
        let count = encode_utf8(front).len();
        let a = text_rank(left);
        let b = text_rank(right);
        assert forall|i: int| 0 <= i < count implies a[i] == b[i] by {
            assert(encode_utf8(left)[i] == encode_utf8(front)[i]);
            assert(encode_utf8(right)[i] == encode_utf8(front)[i]);
        }
        before_after_prefix(a, b, count);
        assert(a.skip(count as int) =~= text_rank(name_of(left)));
        assert(b.skip(count as int) =~= text_rank(name_of(right)));
    }
}

/// The first members of a directory.
spec fn members_up_to(entries: Seq<EntryView>, directory: NodeId, count: nat) -> Seq<ChildView> {
    child_views(entries, count).filter(is_child_of(directory))
}

/// The name is that of one of the first entries, in the directory.
spec fn is_named(entries: Seq<EntryView>, directory: NodeId, count: int, name: Seq<char>) -> bool {
    exists|i: int|
        0 <= i < count && (#[trigger] entries[i]).path.len() > 0 && parent_id(
            entries,
            entries[i].path,
        ) == Some(directory) && name_of(entries[i].path) == name
}

proof fn members_stand_by_name(entries: Seq<EntryView>, directory: NodeId, count: nat)
    requires
        ordered(entries),
        unique_ids(entries),
        forall|i: int| 0 <= i < entries.len() ==> path_fault((#[trigger] entries[i]).path) is None,
        count <= entries.len(),
    ensures
        ({
            let members = members_up_to(entries, directory, count);
            &&& forall|k: int|
                0 <= k < members.len() ==> is_named(
                    entries,
                    directory,
                    count as int,
                    (#[trigger] members[k]).name,
                )
            &&& forall|j: int, k: int|
                0 <= j < k < members.len() ==> before(
                    text_rank((#[trigger] members[j]).name),
                    text_rank((#[trigger] members[k]).name),
                )
            &&& forall|k: int| 0 <= k < members.len() ==> (#[trigger] members[k]).parent == directory
        }),
    decreases count,
{
    reveal(Seq::filter);
    if count > 0 {
        let less = (count - 1) as nat;
        members_stand_by_name(entries, directory, less);
        let before_last = members_up_to(entries, directory, less);
        let members = members_up_to(entries, directory, count);
        let entry = entries[count - 1];
        let all = child_views(entries, count);
        let rest = child_views(entries, less);
        if entry.path.len() > 0 && parent_id(entries, entry.path) is Some {
            assert(all.drop_last() =~= rest);
        }
        assert forall|k: int| 0 <= k < members.len() implies is_named(
            entries,
            directory,
            count as int,
            (#[trigger] members[k]).name,
        ) by {
            if k < before_last.len() {
                assert(members[k] == before_last[k]);
                let i = choose|i: int|
                    0 <= i < less && (#[trigger] entries[i]).path.len() > 0 && parent_id(
                        entries,
                        entries[i].path,
                    ) == Some(directory) && name_of(entries[i].path) == before_last[k].name;
                assert(entries[i].path.len() > 0);
            } else {
                assert(entries[count - 1].path.len() > 0);
            }
        }
        assert forall|j: int, k: int| 0 <= j < k < members.len() implies before(
            text_rank((#[trigger] members[j]).name),
            text_rank((#[trigger] members[k]).name),
        ) by {
            assert(members[j] == before_last[j]);
            if k < before_last.len() {
                assert(members[k] == before_last[k]);
            } else {
                let i = choose|i: int|
                    0 <= i < less && (#[trigger] entries[i]).path.len() > 0 && parent_id(
                        entries,
                        entries[i].path,
                    ) == Some(directory) && name_of(entries[i].path) == before_last[j].name;
                let last = count - 1;
                one_parent(entries, i, last);
                assert(before(text_rank(entries[i].path), text_rank(entries[last].path)));
                assert(path_fault(entries[i].path) is None);
                assert(path_fault(entries[last].path) is None);
                names_stand_like_paths(entries[i].path, entries[last].path);
            }
        }
    }
}

spec fn names_in(members: Seq<ChildView>) -> Seq<Seq<char>> {
    Seq::new(members.len(), |k: int| members[k].name)
}

/// The members of a directory are the same in two trees exactly if it has the same names in
/// both, and each leads to the same node.
pub proof fn equal_members_are_the_same(
    previous: Seq<EntryView>,
    next: Seq<EntryView>,
    directory: NodeId,
)
    requires
        ordered(previous),
        ordered(next),
        unique_ids(previous),
        unique_ids(next),
        forall|i: int| 0 <= i < previous.len() ==> path_fault((#[trigger] previous[i]).path) is None,
        forall|i: int| 0 <= i < next.len() ==> path_fault((#[trigger] next[i]).path) is None,
        forall|name: Seq<char>, id: NodeId|
            #[trigger] has_member(previous, directory, name, id) == has_member(
                next,
                directory,
                name,
                id,
            ),
    ensures
        children(previous, directory) == children(next, directory),
{
    let left = children(previous, directory);
    let right = children(next, directory);
    members_stand_by_name(previous, directory, previous.len());
    members_stand_by_name(next, directory, next.len());
    assert(left == members_up_to(previous, directory, previous.len()));
    assert(right == members_up_to(next, directory, next.len()));
    assert forall|child: ChildView| #[trigger] left.contains(child) == right.contains(child) by {
        if left.contains(child) {
            let k = choose|k: int| 0 <= k < left.len() && left[k] == child;
            assert(left[k].parent == directory);
        }
        if right.contains(child) {
            let k = choose|k: int| 0 <= k < right.len() && right[k] == child;
            assert(right[k].parent == directory);
        }
        members_are_what_a_directory_holds(previous, directory, child.name, child.id);
        members_are_what_a_directory_holds(next, directory, child.name, child.id);
        assert(has_member(previous, directory, child.name, child.id) == has_member(
            next,
            directory,
            child.name,
            child.id,
        ));
    }
    let a = names_in(left);
    let b = names_in(right);
    assert forall|text: Seq<char>| #[trigger] has_text(a, text) == has_text(b, text) by {
        if has_text(a, text) {
            let k = choose|k: int| 0 <= k < a.len() && #[trigger] a[k] == text;
            assert(left.contains(left[k]));
            assert(right.contains(left[k]));
            let m = choose|m: int| 0 <= m < right.len() && right[m] == left[k];
            assert(b[m] == text);
        }
        if has_text(b, text) {
            let k = choose|k: int| 0 <= k < b.len() && #[trigger] b[k] == text;
            assert(right.contains(right[k]));
            assert(left.contains(right[k]));
            let m = choose|m: int| 0 <= m < left.len() && left[m] == right[k];
            assert(a[m] == text);
        }
    }
    assert(texts_increase(a));
    assert(texts_increase(b));
    ordered_texts_are_one(a, b);
    assert(left.len() == a.len() && right.len() == b.len());
    assert forall|k: int| 0 <= k < left.len() implies left[k] == right[k] by {
        assert(left.contains(left[k]));
        assert(right.contains(left[k]));
        let m = choose|m: int| 0 <= m < right.len() && right[m] == left[k];
        assert(a[k] == b[k] && b[m] == left[k].name);
        before_irreflexive(text_rank(b[k]));
        if m < k {
            assert(before(text_rank(b[m]), text_rank(b[k])));
        } else if k < m {
            assert(before(text_rank(b[k]), text_rank(b[m])));
        }
    }
    assert(left =~= right);
}

/// A node of the next tree counts as it should: a new one starts at one; one that was there
/// keeps its kind and the content and parts of a version, and counts one exactly if its
/// attributes differ or it is a file whose version, content or parts differ.
pub open spec fn counts_right(previous: Seq<EntryView>, node: NodeView) -> bool {
    &&& (forall|i: int| 0 <= i < previous.len() ==> (#[trigger] previous[i]).node.id != node.id)
        ==> node.generation@ == 1 && (node.body is Dir
        ==> node.body->Dir_0.entries_generation@ == 1)
    &&& forall|i: int|
        0 <= i < previous.len() && (#[trigger] previous[i]).node.id == node.id ==> {
            let before = previous[i].node;
            &&& before.body is Dir <==> node.body is Dir
            &&& node.body is Dir ==> node.generation@ == before.generation@ + if before.attrs
                == node.attrs {
                0int
            } else {
                1
            }
            &&& node.body is File ==> {
                let old_file = before.body->File_0;
                let file = node.body->File_0;
                let same = before.attrs == node.attrs && old_file.version == file.version
                    && old_file.content == file.content && old_file.parts == file.parts;
                &&& old_file.version == file.version ==> old_file.content == file.content
                    && old_file.parts == file.parts
                &&& node.generation@ == before.generation@ + if same {
                    0int
                } else {
                    1
                }
            }
        }
}

/// The entries of a directory that was there count one exactly if some name in it is gone, is
/// new, or leads to another node.
pub open spec fn entries_count_right(
    previous: Seq<EntryView>,
    next: Seq<EntryView>,
    node: NodeView,
) -> bool {
    node.body is Dir ==> forall|i: int|
        0 <= i < previous.len() && (#[trigger] previous[i]).node.id == node.id ==> {
            let same = forall|name: Seq<char>, id: NodeId| #[trigger]
                has_member(previous, node.id, name, id) == has_member(next, node.id, name, id);
            node.body->Dir_0.entries_generation@
                == previous[i].node.body->Dir_0.entries_generation@ + if same {
                0int
            } else {
                1
            }
        }
}

/// A step from one tree to the next is accepted exactly if both are trees below the root and
/// every node counts as it should.
#[verifier::rlimit(40)]
pub proof fn steps_are_accepted_by_their_counts(
    tree: &Tree,
    successor: &Tree,
    root: NodeId,
    decodings: usize,
    result: Result<(), Error>,
)
    requires
        call_ensures(Tree::validate_successor, (tree, successor, root, decodings), result),
        ordered(tree@),
        ordered(successor@),
        forall|i: int| 0 <= i < tree@.len() ==> path_fault((#[trigger] tree@[i]).path) is None,
        forall|i: int|
            0 <= i < successor@.len() ==> path_fault((#[trigger] successor@[i]).path) is None,
    ensures
        result is Ok <==> {
            &&& is_tree(tree@, root, decodings)
            &&& is_tree(successor@, root, decodings)
            &&& forall|i: int|
                0 <= i < successor@.len() ==> counts_right(
                    tree@,
                    (#[trigger] successor@[i]).node,
                )
            &&& forall|i: int|
                0 <= i < successor@.len() ==> entries_count_right(
                    tree@,
                    successor@,
                    (#[trigger] successor@[i]).node,
                )
        },
{
    let previous = tree@;
    let next = successor@;
    valid_is_being_a_tree(previous, root, decodings);
    valid_is_being_a_tree(next, root, decodings);
    if is_tree(previous, root, decodings) && is_tree(next, root, decodings) {
        valid_ids_are_unique(previous, root, decodings);
        valid_ids_are_unique(next, root, decodings);
        assert forall|i: int| 0 <= i < next.len() implies (#[trigger] change_fault(
            previous,
            next,
            i,
        ) is None <==> counts_right(previous, next[i].node)) by {
            change_is_counting(previous, next, i);
        }
        assert forall|i: int|
            0 <= i < next.len() && change_fault(previous, next, i) is None implies (
        #[trigger] member_fault(previous, next, i) is None <==> entries_count_right(
            previous,
            next,
            next[i].node,
        )) by {
            members_are_counted(previous, next, i);
        }
        if result is Ok {
            assert forall|i: int| 0 <= i < next.len() implies counts_right(
                previous,
                (#[trigger] next[i]).node,
            ) && entries_count_right(previous, next, next[i].node) by {
                assert(change_fault(previous, next, i) is None);
                assert(member_fault(previous, next, i) is None);
            }
        } else if (forall|i: int|
            0 <= i < next.len() ==> counts_right(previous, (#[trigger] next[i]).node)) && (forall|
            i: int,
        |
            0 <= i < next.len() ==> entries_count_right(
                previous,
                next,
                (#[trigger] next[i]).node,
            )) {
            assert forall|i: int| 0 <= i < next.len() implies #[trigger] change_fault(
                previous,
                next,
                i,
            ) is None by {
                assert(counts_right(previous, next[i].node));
            }
            assert forall|i: int| 0 <= i < next.len() implies #[trigger] member_fault(
                previous,
                next,
                i,
            ) is None by {
                assert(change_fault(previous, next, i) is None);
                assert(entries_count_right(previous, next, next[i].node));
            }
        }
    }
}

proof fn change_is_counting(previous: Seq<EntryView>, next: Seq<EntryView>, place: int)
    requires
        unique_ids(previous),
        0 <= place < next.len(),
    ensures
        change_fault(previous, next, place) is None <==> counts_right(previous, next[place].node),
{
    let node = next[place].node;
    if has_id(previous, node.id) {
        let i = place_of_id(previous, node.id);
        assert(previous[i].node.id == node.id);
        assert forall|k: int|
            0 <= k < previous.len() && (#[trigger] previous[k]).node.id == node.id implies k == i by {
            id_is_at(previous, k);
        }
    } else {
        assert forall|k: int| 0 <= k < previous.len() implies (#[trigger] previous[k]).node.id
            != node.id by {}
    }
}

proof fn members_are_counted(previous: Seq<EntryView>, next: Seq<EntryView>, place: int)
    requires
        ordered(previous),
        ordered(next),
        unique_ids(previous),
        unique_ids(next),
        forall|i: int| 0 <= i < previous.len() ==> path_fault((#[trigger] previous[i]).path) is None,
        forall|i: int| 0 <= i < next.len() ==> path_fault((#[trigger] next[i]).path) is None,
        0 <= place < next.len(),
        change_fault(previous, next, place) is None,
    ensures
        member_fault(previous, next, place) is None <==> entries_count_right(
            previous,
            next,
            next[place].node,
        ),
{
    let node = next[place].node;
    if node.body is Dir {
        let same = forall|name: Seq<char>, id: NodeId| #[trigger]
            has_member(previous, node.id, name, id) == has_member(next, node.id, name, id);
        if same {
            equal_members_are_the_same(previous, next, node.id);
        } else if children(previous, node.id) == children(next, node.id) {
            assert forall|name: Seq<char>, id: NodeId| #[trigger]
                has_member(previous, node.id, name, id) == has_member(next, node.id, name, id) by {
                members_are_what_a_directory_holds(previous, node.id, name, id);
                members_are_what_a_directory_holds(next, node.id, name, id);
            }
        }
        if has_id(previous, node.id) {
            let i = place_of_id(previous, node.id);
            assert(previous[i].node.id == node.id);
            assert forall|k: int|
                0 <= k < previous.len() && (#[trigger] previous[k]).node.id == node.id implies k
                == i by {
                id_is_at(previous, k);
            }
        } else {
            assert forall|k: int| 0 <= k < previous.len() implies (#[trigger] previous[k]).node.id
                != node.id by {}
        }
    }
}

// Trees as they are changed.

/// What is put at a path is found there, what is removed is not, and every other path keeps what
/// it had; what was there before is handed back.
pub proof fn trees_keep_what_they_are_given(
    tree: &mut Tree,
    path: Path,
    node: Node,
    before: Option<Node>,
    pruned: &mut Tree,
    gone: &Path,
    removed: Option<Node>,
    other: Seq<char>,
)
    requires
        call_ensures(Tree::insert, (tree, path, node), before),
        call_ensures(Tree::remove, (pruned, gone), removed),
    ensures
        lookup(final(tree)@, path@) == Some(node@),
        other != path@ ==> lookup(final(tree)@, other) == lookup(old(tree)@, other),
        before is Some <==> lookup(old(tree)@, path@) is Some,
        before is Some ==> lookup(old(tree)@, path@) == Some(before->0@),
        lookup(final(pruned)@, gone@) is None,
        other != gone@ ==> lookup(final(pruned)@, other) == lookup(old(pruned)@, other),
        removed is Some <==> lookup(old(pruned)@, gone@) is Some,
        removed is Some ==> lookup(old(pruned)@, gone@) == Some(removed->0@),
{
    map_tells_lookup(old(tree)@, other);
    map_tells_lookup(final(tree)@, other);
    map_tells_lookup(final(tree)@, path@);
    map_tells_lookup(old(pruned)@, other);
    map_tells_lookup(final(pruned)@, other);
    map_tells_lookup(final(pruned)@, gone@);
}

proof fn map_tells_lookup(entries: Seq<EntryView>, path: Seq<char>)
    ensures
        lookup(entries, path) == if as_map(entries).contains_key(path) {
            Some(as_map(entries)[path])
        } else {
            None
        },
{
}

/// What a path finds in a tree is the node of the entry with that path, in an ordered tree.
pub proof fn a_path_finds_its_entry(tree: &Tree, path: &Path, found: Option<&Node>, place: int)
    requires
        call_ensures(Tree::get, (tree, path), found),
        ordered(tree@),
        0 <= place < tree@.len(),
        tree@[place].path == path@,
    ensures
        found is Some,
        found->0@ == tree@[place].node,
{
    place_is_unique(tree@, place);
}

/// Entries make a tree exactly if no path occurs twice; it holds each of them, and no other.
pub proof fn entries_make_a_tree(
    entries: Vec<(Path, Node)>,
    result: Result<Tree, Error>,
    place: int,
)
    requires
        call_ensures(Tree::from_entries, (entries,), result),
    ensures
        result is Ok <==> forall|i: int, j: int|
            0 <= i < j < entries@.len() ==> (#[trigger] entries@[i]).0@ != (
            #[trigger] entries@[j]).0@,
        result matches Ok(tree) ==> {
            &&& tree@.len() == entries@.len()
            &&& 0 <= place < entries@.len() ==> lookup(tree@, entries@[place].0@) == Some(
                entries@[place].1@,
            )
        },
{
}

} // verus!
