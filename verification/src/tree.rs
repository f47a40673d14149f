//! The materialized filesystem tree and the rules that one tree follows another by.

use vstd::prelude::*;

use crate::error::{invalid, Error, Fault};
use crate::filesystem::{file_fault, Dir, File, Node, NodeAttrs, NodeView};
use crate::identity::{counter_overflow, Generation, NodeId};
use crate::order::{before, before_irreflexive, before_total, before_transitive, Ranked};
use crate::path::Path;
use crate::text::{bytes_rank, folded_of, name_of, parent_of, text_rank, text_rank_is_injective};

verus! {

/// One path of a tree and the node that it names.
#[derive(Debug)]
pub struct Entry {
    pub path: Path,
    pub node: Node,
}

pub ghost struct EntryView {
    pub path: Seq<char>,
    pub node: NodeView,
}

impl Entry {
    pub open spec fn view(&self) -> EntryView {
        EntryView { path: self.path@, node: self.node@ }
    }
}

impl Clone for Entry {
    fn clone(&self) -> (result: Self)
        ensures
            result@ == self@,
    {
        Entry { path: self.path.clone(), node: self.node.clone() }
    }
}

pub open spec fn entries_view(entries: Seq<Entry>) -> Seq<EntryView> {
    Seq::new(entries.len(), |i: int| entries[i]@)
}

/// The entries stand in the byte order of their paths, each path once.
pub open spec fn ordered(entries: Seq<EntryView>) -> bool {
    forall|i: int, j: int|
        0 <= i < j < entries.len() ==> before(
            text_rank(#[trigger] entries[i].path),
            text_rank(#[trigger] entries[j].path),
        )
}

/// The path is the path of some entry.
pub open spec fn has_path(entries: Seq<EntryView>, path: Seq<char>) -> bool {
    exists|i: int| 0 <= i < entries.len() && (#[trigger] entries[i]).path == path
}

/// The place of the path among the entries.
pub open spec fn place_of(entries: Seq<EntryView>, path: Seq<char>) -> int {
    choose|i: int| 0 <= i < entries.len() && (#[trigger] entries[i]).path == path
}

/// The node that a path names.
pub open spec fn lookup(entries: Seq<EntryView>, path: Seq<char>) -> Option<NodeView> {
    if has_path(entries, path) {
        Some(entries[place_of(entries, path)].node)
    } else {
        None
    }
}

/// The tree as a map from paths to nodes.
pub open spec fn as_map(entries: Seq<EntryView>) -> Map<Seq<char>, NodeView> {
    Map::new(|path: Seq<char>| has_path(entries, path), |path: Seq<char>| lookup(entries, path)->0)
}

/// In an ordered tree a path has one place.
pub proof fn place_is_unique(entries: Seq<EntryView>, place: int)
    requires
        ordered(entries),
        0 <= place < entries.len(),
    ensures
        has_path(entries, entries[place].path),
        place_of(entries, entries[place].path) == place,
        lookup(entries, entries[place].path) == Some(entries[place].node),
{
    let path = entries[place].path;
    assert(has_path(entries, path));
    let other = place_of(entries, path);
    before_irreflexive(text_rank(path));
    if other < place {
        assert(before(text_rank(entries[other].path), text_rank(entries[place].path)));
    } else if place < other {
        assert(before(text_rank(entries[place].path), text_rank(entries[other].path)));
    }
}

/// The identity of the directory that holds a path.
pub open spec fn parent_id(entries: Seq<EntryView>, path: Seq<char>) -> Option<NodeId> {
    match lookup(entries, parent_of(path)) {
        Some(node) => if node.body is Dir {
            Some(node.id)
        } else {
            None
        },
        None => None,
    }
}

pub open spec fn tree_invalid(message: &str) -> Fault {
    invalid("validate YinYang tree", message)
}

/// What is wrong with one entry.
pub open spec fn entry_fault(entries: Seq<EntryView>, place: int, decodings: usize) -> Option<
    Fault,
> {
    let node = entries[place].node;
    if node.generation@ == 0 {
        Some(tree_invalid("node generation is zero"))
    } else if exists|i: int| 0 <= i < place && (#[trigger] entries[i]).node.id == node.id {
        Some(tree_invalid("node identity appears at more than one path"))
    } else if node.body is Dir && node.body->Dir_0.entries_generation@ == 0 {
        Some(tree_invalid("directory entries generation is zero"))
    } else if node.body is File && file_fault(node.body->File_0, Some(decodings)) is Some {
        file_fault(node.body->File_0, Some(decodings))
    } else if entries[place].path.len() > 0 && parent_id(entries, entries[place].path) is None {
        Some(tree_invalid("tree entry parent is missing or is not a directory"))
    } else {
        None
    }
}

/// What is wrong with the first of the first `count` entries that has something wrong.
pub open spec fn entries_fault(entries: Seq<EntryView>, count: nat, decodings: usize) -> Option<
    Fault,
>
    decreases count,
{
    if count == 0 {
        None
    } else if entries_fault(entries, (count - 1) as nat, decodings) is Some {
        entries_fault(entries, (count - 1) as nat, decodings)
    } else {
        entry_fault(entries, count - 1, decodings)
    }
}

/// Two entries of one directory whose names fold to the same text.
pub open spec fn collide(entries: Seq<EntryView>, i: int, j: int) -> bool {
    &&& entries[i].path.len() > 0
    &&& entries[j].path.len() > 0
    &&& parent_id(entries, entries[i].path) is Some
    &&& parent_id(entries, entries[i].path) == parent_id(entries, entries[j].path)
    &&& folded_of(name_of(entries[i].path)) == folded_of(name_of(entries[j].path))
}

/// What is wrong with the directories that hold the first `count` entries.
pub open spec fn membership_fault(entries: Seq<EntryView>, count: nat) -> Option<Fault>
    decreases count,
{
    if count == 0 {
        None
    } else if membership_fault(entries, (count - 1) as nat) is Some {
        membership_fault(entries, (count - 1) as nat)
    } else if entries[count - 1].path.len() == 0 {
        None
    } else if parent_id(entries, entries[count - 1].path) is None {
        Some(tree_invalid("tree entry parent is missing or is not a directory"))
    } else if exists|i: int| 0 <= i < count - 1 && #[trigger] collide(entries, i, count - 1) {
        Some(tree_invalid("directory contains a case-folding name collision"))
    } else {
        None
    }
}

/// What is wrong with a tree, given the root and the number of decodings of its format.
pub open spec fn tree_fault(entries: Seq<EntryView>, root: NodeId, decodings: usize) -> Option<
    Fault,
> {
    let top = lookup(entries, Seq::empty());
    if top is None {
        Some(tree_invalid("tree root is missing"))
    } else if top->0.id != root || top->0.body is File {
        Some(tree_invalid("tree root does not match the format"))
    } else if entries_fault(entries, entries.len(), decodings) is Some {
        entries_fault(entries, entries.len(), decodings)
    } else {
        membership_fault(entries, entries.len())
    }
}

/// One name in a directory and the node behind it.
pub ghost struct ChildView {
    pub parent: NodeId,
    pub name: Seq<char>,
    pub id: NodeId,
}

/// The directory members among the first `count` entries, in path order.
pub open spec fn child_views(entries: Seq<EntryView>, count: nat) -> Seq<ChildView>
    decreases count,
{
    if count == 0 {
        Seq::empty()
    } else {
        let rest = child_views(entries, (count - 1) as nat);
        let entry = entries[count - 1];
        if entry.path.len() > 0 && parent_id(entries, entry.path) is Some {
            rest.push(
                ChildView {
                    parent: parent_id(entries, entry.path)->0,
                    name: name_of(entry.path),
                    id: entry.node.id,
                },
            )
        } else {
            rest
        }
    }
}

/// The test for members of one directory.
pub open spec fn is_child_of(directory: NodeId) -> spec_fn(ChildView) -> bool {
    |child: ChildView| child.parent == directory
}

/// The members of a directory: their names and identities, in path order.
pub open spec fn children(entries: Seq<EntryView>, directory: NodeId) -> Seq<ChildView> {
    child_views(entries, entries.len()).filter(is_child_of(directory))
}

/// The node with the given identity.
pub open spec fn has_id(entries: Seq<EntryView>, id: NodeId) -> bool {
    exists|i: int| 0 <= i < entries.len() && (#[trigger] entries[i]).node.id == id
}

pub open spec fn place_of_id(entries: Seq<EntryView>, id: NodeId) -> int {
    choose|i: int| 0 <= i < entries.len() && (#[trigger] entries[i]).node.id == id
}

/// Each node stands at one path.
pub open spec fn unique_ids(entries: Seq<EntryView>) -> bool {
    forall|i: int, j: int|
        0 <= i < j < entries.len() ==> (#[trigger] entries[i]).node.id != (
        #[trigger] entries[j]).node.id
}

pub open spec fn successor_invalid(message: &str) -> Fault {
    invalid("validate YinYang tree successor", message)
}

/// The attributes or the file changed; the members of a directory do not count.
pub open spec fn payload_changed(previous: NodeView, next: NodeView) -> bool {
    ||| previous.attrs != next.attrs
    ||| previous.body is File && previous.body != next.body
}

/// What is wrong with the way a node of the next tree follows the previous tree.
pub open spec fn change_fault(
    previous: Seq<EntryView>,
    next: Seq<EntryView>,
    place: int,
) -> Option<Fault> {
    let node = next[place].node;
    if !has_id(previous, node.id) {
        if node.generation@ != 1 || node.body is Dir && node.body->Dir_0.entries_generation@ != 1 {
            Some(successor_invalid("new node does not start at the first generation"))
        } else {
            None
        }
    } else {
        let old_node = previous[place_of_id(previous, node.id)].node;
        if old_node.body is Dir != node.body is Dir {
            Some(successor_invalid("node kind changed without a new identity"))
        } else if old_node.body is File && node.body is File && old_node.body->File_0.version
            == node.body->File_0.version && (old_node.body->File_0.content
            != node.body->File_0.content || old_node.body->File_0.parts
            != node.body->File_0.parts) {
            Some(successor_invalid("file content changed without a new file version"))
        } else if payload_changed(old_node, node) && old_node.generation@ == u64::MAX {
            Some(counter_overflow())
        } else if node.generation@ != old_node.generation@ + (if payload_changed(old_node, node) {
            1int
        } else {
            0
        }) {
            Some(successor_invalid("node generation does not match its content change"))
        } else {
            None
        }
    }
}

/// What is wrong with the way the members of a directory follow the previous tree.
pub open spec fn member_fault(
    previous: Seq<EntryView>,
    next: Seq<EntryView>,
    place: int,
) -> Option<Fault> {
    let node = next[place].node;
    if node.body is File || !has_id(previous, node.id) {
        None
    } else {
        let old_node = previous[place_of_id(previous, node.id)].node;
        let before_change = old_node.body->Dir_0.entries_generation@;
        let changed = children(previous, node.id) != children(next, node.id);
        if changed && before_change == u64::MAX {
            Some(counter_overflow())
        } else if node.body->Dir_0.entries_generation@ != before_change + (if changed {
            1int
        } else {
            0
        }) {
            Some(successor_invalid("directory generation does not match its membership change"))
        } else {
            None
        }
    }
}

/// The fault at the smallest identity that has one.
pub open spec fn first_by_id(
    next: Seq<EntryView>,
    faults: spec_fn(int) -> Option<Fault>,
    fault: Fault,
) -> bool {
    exists|i: int|
        {
            &&& 0 <= i < next.len()
            &&& #[trigger] faults(i) == Some(fault)
            &&& forall|j: int|
                0 <= j < next.len() && before(
                    bytes_rank(next[j].node.id@),
                    bytes_rank(next[i].node.id@),
                ) ==> #[trigger] faults(j) is None
        }
}

/// The next tree follows the previous one by the rules, both being valid.
pub open spec fn follows(
    previous: Seq<EntryView>,
    next: Seq<EntryView>,
    root: NodeId,
    decodings: usize,
) -> bool {
    &&& tree_fault(previous, root, decodings) is None
    &&& tree_fault(next, root, decodings) is None
    &&& forall|i: int| 0 <= i < next.len() ==> #[trigger] change_fault(previous, next, i) is None
    &&& forall|i: int| 0 <= i < next.len() ==> #[trigger] member_fault(previous, next, i) is None
}

/// The fault that is reported where the next tree does not follow.
pub open spec fn follow_fault(
    previous: Seq<EntryView>,
    next: Seq<EntryView>,
    root: NodeId,
    decodings: usize,
    fault: Fault,
) -> bool {
    if tree_fault(previous, root, decodings) is Some {
        tree_fault(previous, root, decodings) == Some(fault)
    } else if tree_fault(next, root, decodings) is Some {
        tree_fault(next, root, decodings) == Some(fault)
    } else if exists|i: int|
        0 <= i < next.len() && #[trigger] change_fault(previous, next, i) is Some {
        first_by_id(next, |i: int| change_fault(previous, next, i), fault)
    } else {
        first_by_id(next, |i: int| member_fault(previous, next, i), fault)
    }
}

/// The tree that a filesystem starts with: a root directory at its first generation, without
/// attributes or members.
pub open spec fn is_genesis(entries: Seq<EntryView>, root: NodeId) -> bool {
    &&& entries.len() == 1
    &&& entries[0].path == Seq::<char>::empty()
    &&& entries[0].node.id == root
    &&& entries[0].node.generation@ == 1
    &&& entries[0].node.attrs == (NodeAttrs { executable: false })
    &&& entries[0].node.body is Dir
    &&& entries[0].node.body->Dir_0.entries_generation@ == 1
}

/// A root has one genesis tree.
pub proof fn genesis_is_one(left: Seq<EntryView>, right: Seq<EntryView>, root: NodeId)
    requires
        is_genesis(left, root),
        is_genesis(right, root),
    ensures
        left == right,
{
    Generation::counted(left[0].node.generation, right[0].node.generation);
    Generation::counted(
        left[0].node.body->Dir_0.entries_generation,
        right[0].node.body->Dir_0.entries_generation,
    );
    assert(left[0] == right[0]);
    assert(left =~= right);
}

impl Ranked for Entry {
    open spec fn rank(&self) -> Seq<int> {
        text_rank(self.path@)
    }

    fn precedes(&self, other: &Self) -> (result: bool) {
        self.path.precedes(&other.path)
    }
}

/// Materialized ordered filesystem tree.
#[derive(Debug)]
pub struct Tree {
    entries: Vec<Entry>,
}

impl Clone for Tree {
    fn clone(&self) -> (result: Self)
        ensures
            result@ == self@,
    {
        proof {
            use_type_invariant(self);
        }
        let mut entries: Vec<Entry> = Vec::new();
        let mut index: usize = 0;
        while index < self.entries.len()
            invariant
                index <= self.entries@.len(),
                entries@.len() == index,
                forall|i: int| 0 <= i < index ==> (#[trigger] entries@[i])@ == self.entries@[i]@,
            decreases self.entries@.len() - index,
        {
            entries.push(self.entries[index].clone());
            index += 1;
        }
        assert(entries_view(entries@) =~= entries_view(self.entries@));
        Tree { entries }
    }
}

impl Tree {
    /// The entries in the byte order of their paths.
    pub closed spec fn view(&self) -> Seq<EntryView> {
        entries_view(self.entries@)
    }

    #[verifier::type_invariant]
    spec fn is_ordered(self) -> bool {
        ordered(entries_view(self.entries@))
    }

    /// The place of the path, or the place where it would stand.
    fn find(&self, path: &Path) -> (result: (bool, usize))
        ensures
            ordered(self@),
            result.1 <= self@.len(),
            result.0 == has_path(self@, path@),
            result.0 ==> result.1 < self@.len() && self@[result.1 as int].path == path@ && result.1
                == place_of(self@, path@),
            forall|i: int|
                0 <= i < result.1 ==> before(
                    text_rank((#[trigger] self@[i]).path),
                    text_rank(path@),
                ),
            forall|i: int|
                result.1 <= i < self@.len() && !(result.0 && i == result.1) ==> before(
                    text_rank(path@),
                    text_rank((#[trigger] self@[i]).path),
                ),
    {
        proof {
            use_type_invariant(self);
        }
        let ghost entries = self@;
        let mut low: usize = 0;
        let mut high: usize = self.entries.len();
        while low < high
            invariant
                entries == self@,
                entries.len() == self.entries@.len(),
                ordered(entries),
                low <= high <= entries.len(),
                forall|i: int|
                    0 <= i < low ==> before(
                        text_rank((#[trigger] entries[i]).path),
                        text_rank(path@),
                    ),
                forall|i: int|
                    high <= i < entries.len() ==> !before(
                        text_rank((#[trigger] entries[i]).path),
                        text_rank(path@),
                    ),
            decreases high - low,
        {
            let middle: usize = low + (high - low) / 2;
            assert(entries[middle as int] == self.entries@[middle as int]@);
            if self.entries[middle].path.precedes(path) {
                proof {
                    assert forall|i: int| 0 <= i < middle + 1 implies before(
                        text_rank((#[trigger] entries[i]).path),
                        text_rank(path@),
                    ) by {
                        if i < middle {
                            before_transitive(
                                text_rank(entries[i].path),
                                text_rank(entries[middle as int].path),
                                text_rank(path@),
                            );
                        }
                    }
                }
                low = middle + 1;
            } else {
                proof {
                    assert forall|i: int| middle <= i < entries.len() implies !before(
                        text_rank((#[trigger] entries[i]).path),
                        text_rank(path@),
                    ) by {
                        if i > middle && before(text_rank(entries[i].path), text_rank(path@)) {
                            before_transitive(
                                text_rank(entries[middle as int].path),
                                text_rank(entries[i].path),
                                text_rank(path@),
                            );
                        }
                    }
                }
                high = middle;
            }
        }
        let found = low < self.entries.len() && self.entries[low].path.same(path);
        proof {
            if found {
                assert(entries[low as int].path == path@);
                place_is_unique(entries, low as int);
            }
            assert forall|i: int| low <= i < entries.len() && !(found && i == low) implies before(
                text_rank(path@),
                text_rank((#[trigger] entries[i]).path),
            ) by {
                before_total(text_rank(entries[i].path), text_rank(path@));
                if text_rank(entries[i].path) == text_rank(path@) {
                    text_rank_is_injective(entries[i].path, path@);
                    if i > low {
                        assert(before(
                            text_rank(entries[low as int].path),
                            text_rank(entries[i].path),
                        ));
                    } else {
                        assert(entries[low as int] == self.entries@[low as int]@);
                    }
                }
            }
            if has_path(entries, path@) && !found {
                let i = place_of(entries, path@);
                assert(entries[i].path == path@);
                before_irreflexive(text_rank(path@));
            }
        }
        (found, low)
    }

    /// The tree of a filesystem that nothing was published in.
    pub fn genesis(root: NodeId) -> (tree: Self)
        ensures
            is_genesis(tree@, root),
    {
        let node = Node::dir(root, Generation::first(), NodeAttrs::default(), Generation::first());
        let mut entries: Vec<Entry> = Vec::new();
        entries.push(Entry { path: Path::root(), node });
        Tree { entries }
    }

    pub fn empty() -> (tree: Self)
        ensures
            tree@ == Seq::<EntryView>::empty(),
    {
        let tree = Tree { entries: Vec::new() };
        assert(tree@ =~= Seq::<EntryView>::empty());
        tree
    }

    pub fn get(&self, path: &Path) -> (result: Option<&Node>)
        ensures
            match result {
                Some(node) => lookup(self@, path@) == Some(node@),
                None => lookup(self@, path@) is None,
            },
    {
        let (found, place) = self.find(path);
        if found {
            Some(&self.entries[place].node)
        } else {
            None
        }
    }

    /// The entries in the byte order of their paths.
    pub fn iter(&self) -> (entries: &[Entry])
        ensures
            entries_view(entries@) == self@,
            ordered(self@),
    {
        proof {
            use_type_invariant(self);
        }
        self.entries.as_slice()
    }

    pub fn len(&self) -> (count: usize)
        ensures
            count == self@.len(),
    {
        self.entries.len()
    }

    pub fn is_empty(&self) -> (result: bool)
        ensures
            result == (self@.len() == 0),
    {
        self.entries.len() == 0
    }

    /// Bind the path to the node and return the node that it was bound to.
    pub fn insert(&mut self, path: Path, node: Node) -> (result: Option<Node>)
        ensures
            as_map(final(self)@) == as_map(old(self)@).insert(path@, node@),
            match result {
                Some(node) => lookup(old(self)@, path@) == Some(node@),
                None => lookup(old(self)@, path@) is None,
            },
    {
        let (found, place) = self.find(&path);
        let ghost before_insert = self@;
        let ghost path_view = path@;
        let ghost node_view = node@;
        let mut entries: Vec<Entry> = Vec::new();
        std::mem::swap(&mut entries, &mut self.entries);
        assert(entries_view(entries@) == before_insert);
        if found {
            assert(entries@[place as int]@ == before_insert[place as int]);
            let entry = entries.remove(place);
            let Entry { path: path, node: replaced } = entry;
            assert(path@ == path_view);
            entries.insert(place, Entry { path, node });
            proof {
                let after = entries_view(entries@);
                assert(after =~= before_insert.update(
                    place as int,
                    EntryView { path: path_view, node: node_view },
                ));
                replaced_entry(before_insert, place as int, node_view);
            }
            self.entries = entries;
            Some(replaced)
        } else {
            entries.insert(place, Entry { path, node });
            proof {
                let after = entries_view(entries@);
                assert(after =~= before_insert.insert(
                    place as int,
                    EntryView { path: path_view, node: node_view },
                ));
                inserted_entry(before_insert, place as int, path_view, node_view);
            }
            self.entries = entries;
            None
        }
    }

    /// Unbind the path and return the node that it was bound to.
    pub fn remove(&mut self, path: &Path) -> (result: Option<Node>)
        ensures
            as_map(final(self)@) == as_map(old(self)@).remove(path@),
            match result {
                Some(node) => lookup(old(self)@, path@) == Some(node@),
                None => lookup(old(self)@, path@) is None,
            },
    {
        let (found, place) = self.find(path);
        let ghost before_remove = self@;
        if !found {
            assert(as_map(self@).remove(path@) =~= as_map(self@));
            return None;
        }
        let mut entries: Vec<Entry> = Vec::new();
        std::mem::swap(&mut entries, &mut self.entries);
        assert(entries_view(entries@) == before_remove);
        assert(entries@[place as int]@ == before_remove[place as int]);
        let entry = entries.remove(place);
        proof {
            let after = entries_view(entries@);
            assert(after =~= before_remove.remove(place as int));
            removed_entry(before_remove, place as int);
        }
        self.entries = entries;
        Some(entry.node)
    }

    /// The tree with the given entries, if no path occurs twice among them.
    pub fn from_entries(entries: Vec<(Path, Node)>) -> (result: Result<Self, Error>)
        ensures
            match result {
                Ok(tree) => {
                    &&& distinct_paths(entries@)
                    &&& tree@.len() == entries@.len()
                    &&& forall|i: int|
                        0 <= i < entries@.len() ==> lookup(tree@, (#[trigger] entries@[i]).0@)
                            == Some(entries@[i].1@)
                },
                Err(error) => !distinct_paths(entries@) && error.fault() == invalid(
                    "construct YinYang tree",
                    "tree contains a duplicate path",
                ),
            },
    {
        let ghost given = entries@;
        let mut pending = crate::order::reversed(entries);
        let mut tree = Self::empty();
        let ghost mut count: int = 0;
        while pending.len() > 0
            invariant
                0 <= count <= given.len(),
                given == entries@,
                pending@ == given.skip(count).reverse(),
                tree@.len() == count,
                distinct_paths(given.take(count)),
                forall|i: int|
                    0 <= i < count ==> lookup(tree@, (#[trigger] given[i]).0@) == Some(
                        given[i].1@,
                    ),
                forall|path: Seq<char>| #[trigger]
                    has_path(tree@, path) ==> exists|i: int|
                        0 <= i < count && (#[trigger] given[i]).0@ == path,
            decreases pending@.len(),
        {
            let ghost rest = given.skip(count);
            assert(pending@.last() == rest[0]);
            assert(rest[0] == given[count]);
            if let Some((path, node)) = pending.pop() {
                proof {
                    assert(pending@ =~= given.skip(count + 1).reverse());
                    assert(path == given[count].0 && node == given[count].1);
                }
                let (found, place) = tree.find(&path);
                if found {
                    proof {
                        let i = choose|i: int| 0 <= i < count && (#[trigger] given[i]).0@ == path@;
                        assert(given[i].0@ == given[count].0@);
                    }
                    return Err(
                        Error::invalid("construct YinYang tree", "tree contains a duplicate path"),
                    );
                }
                let ghost old_tree = tree@;
                let ghost path_view = path@;
                let ghost node_view = node@;
                let mut list: Vec<Entry> = Vec::new();
                std::mem::swap(&mut list, &mut tree.entries);
                list.insert(place, Entry { path, node });
                proof {
                    assert(entries_view(list@) =~= old_tree.insert(
                        place as int,
                        EntryView { path: path_view, node: node_view },
                    ));
                    inserted_entry(old_tree, place as int, path_view, node_view);
                }
                tree.entries = list;
                proof {
                    let map = as_map(tree@);
                    assert forall|i: int| 0 <= i < count + 1 implies lookup(
                        tree@,
                        (#[trigger] given[i]).0@,
                    ) == Some(given[i].1@) by {
                        if i < count {
                            assert(as_map(old_tree).dom().contains(given[i].0@));
                            assert(has_path(old_tree, given[i].0@));
                            assert(given[i].0@ != path_view);
                            assert(map.dom().contains(given[i].0@));
                            assert(map[given[i].0@] == as_map(old_tree)[given[i].0@]);
                        } else {
                            assert(map.dom().contains(path_view));
                            assert(map[path_view] == node_view);
                        }
                    }
                    assert forall|path: Seq<char>| #[trigger] has_path(tree@, path) implies exists|
                        i: int,
                    | 0 <= i < count + 1 && (#[trigger] given[i]).0@ == path by {
                        assert(map.dom().contains(path));
                        if path == path_view {
                            assert(given[count].0@ == path);
                        } else {
                            assert(as_map(old_tree).dom().contains(path));
                            assert(has_path(old_tree, path));
                        }
                    }
                    let now = given.take(count + 1);
                    assert forall|i: int, j: int| 0 <= i < j < now.len() implies (
                    #[trigger] now[i]).0@ != (#[trigger] now[j]).0@ by {
                        if j < count {
                            assert(given.take(count)[i] == now[i]);
                            assert(given.take(count)[j] == now[j]);
                        } else {
                            assert(now[i] == given[i] && now[j] == given[j]);
                            assert(has_path(old_tree, given[i].0@));
                        }
                    }
                    count = count + 1;
                }
            }
        }
        assert(given.take(count) =~= given);
        Ok(tree)
    }
}

/// No path occurs twice.
pub open spec fn distinct_paths(entries: Seq<(Path, Node)>) -> bool {
    forall|i: int, j: int|
        0 <= i < j < entries.len() ==> (#[trigger] entries[i]).0@ != (#[trigger] entries[j]).0@
}

proof fn replaced_entry(entries: Seq<EntryView>, place: int, node: NodeView)
    requires
        ordered(entries),
        0 <= place < entries.len(),
    ensures
        ({
            let path = entries[place].path;
            let after = entries.update(place, EntryView { path, node });
            ordered(after) && as_map(after) == as_map(entries).insert(path, node)
        }),
{
    let path = entries[place].path;
    let after = entries.update(place, EntryView { path, node });
    assert forall|i: int, j: int| 0 <= i < j < after.len() implies before(
        text_rank(#[trigger] after[i].path),
        text_rank(#[trigger] after[j].path),
    ) by {
        assert(after[i].path == entries[i].path && after[j].path == entries[j].path);
    }
    assert(after[place] == (EntryView { path, node }));
    assert forall|i: int| 0 <= i < entries.len() && entries[i].path != path implies after.contains(
        #[trigger] entries[i],
    ) by {
        assert(after[i] == entries[i]);
    }
    assert forall|i: int| 0 <= i < after.len() && after[i].path != path implies entries.contains(
        #[trigger] after[i],
    ) by {
        assert(after[i] == entries[i]);
    }
    same_map(entries, after, path, node);
}

proof fn inserted_entry(entries: Seq<EntryView>, place: int, path: Seq<char>, node: NodeView)
    requires
        ordered(entries),
        0 <= place <= entries.len(),
        forall|i: int|
            0 <= i < place ==> before(text_rank((#[trigger] entries[i]).path), text_rank(path)),
        forall|i: int|
            place <= i < entries.len() ==> before(
                text_rank(path),
                text_rank((#[trigger] entries[i]).path),
            ),
    ensures
        ({
            let after = entries.insert(place, EntryView { path, node });
            ordered(after) && as_map(after) == as_map(entries).insert(path, node)
        }),
{
    let after = entries.insert(place, EntryView { path, node });
    assert forall|i: int, j: int| 0 <= i < j < after.len() implies before(
        text_rank(#[trigger] after[i].path),
        text_rank(#[trigger] after[j].path),
    ) by {
        let from = |k: int| if k < place { k } else { k - 1 };
        if i != place && j != place {
            assert(after[i] == entries[from(i)] && after[j] == entries[from(j)]);
        } else if i == place {
            assert(after[j] == entries[j - 1]);
        } else {
            assert(after[i] == entries[i]);
        }
    }
    assert(after[place] == (EntryView { path, node }));
    assert forall|i: int| 0 <= i < entries.len() && entries[i].path != path implies after.contains(
        #[trigger] entries[i],
    ) by {
        let k = if i < place { i } else { i + 1 };
        assert(after[k] == entries[i]);
    }
    assert forall|i: int| 0 <= i < after.len() && after[i].path != path implies entries.contains(
        #[trigger] after[i],
    ) by {
        let k = if i < place { i } else { i - 1 };
        assert(after[i] == entries[k]);
    }
    same_map(entries, after, path, node);
}

proof fn removed_entry(entries: Seq<EntryView>, place: int)
    requires
        ordered(entries),
        0 <= place < entries.len(),
    ensures
        ordered(entries.remove(place)),
        as_map(entries.remove(place)) == as_map(entries).remove(entries[place].path),
{
    let after = entries.remove(place);
    let path = entries[place].path;
    assert forall|i: int, j: int| 0 <= i < j < after.len() implies before(
        text_rank(#[trigger] after[i].path),
        text_rank(#[trigger] after[j].path),
    ) by {
        let from = |k: int| if k < place { k } else { k + 1 };
        assert(after[i] == entries[from(i)] && after[j] == entries[from(j)]);
    }
    assert forall|other: Seq<char>| other != path implies #[trigger] lookup(after, other) == lookup(
        entries,
        other,
    ) by {
        if has_path(entries, other) {
            let i = place_of(entries, other);
            let k = if i < place { i } else { i - 1 };
            assert(after[k] == entries[i]);
            place_is_unique(after, k);
        }
        if has_path(after, other) {
            let k = place_of(after, other);
            let i = if k < place { k } else { k + 1 };
            assert(after[k] == entries[i]);
            place_is_unique(entries, i);
        }
    }
    assert(!has_path(after, path)) by {
        if has_path(after, path) {
            let k = place_of(after, path);
            let i = if k < place { k } else { k + 1 };
            assert(after[k] == entries[i]);
            place_is_unique(entries, i);
            place_is_unique(entries, place);
        }
    }
    assert forall|other: Seq<char>| #[trigger]
        as_map(after).dom().contains(other) <==> as_map(entries).remove(path).dom().contains(
            other,
        ) by {
        if other != path {
            assert(lookup(after, other) == lookup(entries, other));
        }
    }
    assert forall|other: Seq<char>| #[trigger] as_map(after).dom().contains(other) implies as_map(
        after,
    )[other] == as_map(entries).remove(path)[other] by {
        assert(lookup(after, other) == lookup(entries, other));
    }
    assert(as_map(after) =~= as_map(entries).remove(path));
}

/// A change at one path and nowhere else is an insertion into the map.
proof fn same_map(
    entries: Seq<EntryView>,
    after: Seq<EntryView>,
    path: Seq<char>,
    node: NodeView,
)
    requires
        ordered(entries),
        ordered(after),
        exists|i: int|
            0 <= i < after.len() && #[trigger] after[i] == (EntryView { path, node }),
        forall|i: int|
            0 <= i < entries.len() && entries[i].path != path ==> after.contains(
                #[trigger] entries[i],
            ),
        forall|i: int|
            0 <= i < after.len() && after[i].path != path ==> entries.contains(#[trigger] after[i]),
    ensures
        as_map(after) == as_map(entries).insert(path, node),
{
    let at = choose|i: int|
        0 <= i < after.len() && #[trigger] after[i] == (EntryView { path, node });
    place_is_unique(after, at);
    assert forall|other: Seq<char>| other != path implies #[trigger] lookup(after, other) == lookup(
        entries,
        other,
    ) by {
        if has_path(entries, other) {
            let i = place_of(entries, other);
            assert(after.contains(entries[i]));
            let k = choose|k: int| 0 <= k < after.len() && after[k] == entries[i];
            place_is_unique(after, k);
        }
        if has_path(after, other) {
            let k = place_of(after, other);
            assert(entries.contains(after[k]));
            let i = choose|i: int| 0 <= i < entries.len() && entries[i] == after[k];
            place_is_unique(entries, i);
        }
    }
    let target = as_map(entries).insert(path, node);
    assert forall|other: Seq<char>| #[trigger]
        as_map(after).dom().contains(other) <==> target.dom().contains(other) by {
        if other != path {
            assert(lookup(after, other) == lookup(entries, other));
        }
    }
    assert forall|other: Seq<char>| #[trigger] as_map(after).dom().contains(other) implies as_map(
        after,
    )[other] == target[other] by {
        if other != path {
            assert(lookup(after, other) == lookup(entries, other));
        }
    }
    assert(as_map(after) =~= target);
}

} // verus!
