//! Validation of a tree by itself and as the successor of another one.

use vstd::prelude::*;

use crate::error::Error;
use crate::filesystem::NodeBody;
use crate::identity::{Generation, NodeId};
use crate::order::{
    before, before_irreflexive, before_of_pairs, before_total, bounds_delimit_key,
    has_repeated_key, lower_bound, not_after, repeats_key, same_by_key, same_by_key_same_items,
    sort, sorted, upper_bound, with_key, Ranked,
};
use crate::path::Path;
use crate::text::{
    bytes_rank, bytes_rank_is_injective, folded, folded_of, name_of, same_text, text_precedes,
    text_rank, text_rank_is_injective,
};
use crate::tree::{
    change_fault, child_views, children, collide, entries_fault, entries_view, entry_fault,
    first_by_id, follow_fault, follows, has_id, is_child_of, lookup, member_fault,
    membership_fault, parent_id, payload_changed, place_of_id, tree_fault, tree_invalid,
    unique_ids, ChildView, Entry, EntryView, Tree,
};

verus! {

/// The identity of a node and the place of its entry.
struct IdSlot {
    id: NodeId,
    slot: usize,
}

impl Ranked for IdSlot {
    closed spec fn rank(&self) -> Seq<int> {
        bytes_rank(self.id@) + seq![self.slot as int]
    }

    fn precedes(&self, other: &Self) -> (result: bool) {
        proof {
            slot_order(*self, *other);
        }
        if self.id == other.id {
            self.slot < other.slot
        } else {
            self.id.precedes(&other.id)
        }
    }
}

/// Slots compare by identity, then by place.
proof fn slot_order(a: IdSlot, b: IdSlot)
    ensures
        before(a.rank(), b.rank()) == (before(bytes_rank(a.id@), bytes_rank(b.id@)) || a.id == b.id
            && a.slot < b.slot),
        a.id == b.id <==> bytes_rank(a.id@) == bytes_rank(b.id@),
        a.id == b.id ==> !before(bytes_rank(a.id@), bytes_rank(b.id@)),
{
    NodeId::identified(a.id, b.id);
    NodeId::identified(b.id, a.id);
    bytes_rank_is_injective(a.id@, b.id@);
    let x = seq![a.slot as int];
    let y = seq![b.slot as int];
    before_of_pairs(bytes_rank(a.id@), x, bytes_rank(b.id@), y);
    assert(before(x, y) == (a.slot < b.slot)) by {
        reveal_with_fuel(before, 2);
        assert(x[0] == a.slot && y[0] == b.slot);
        assert(x.skip(1).len() == 0 && y.skip(1).len() == 0);
    }
    before_irreflexive(bytes_rank(a.id@));
}

/// Some slot leads to the place.
spec fn has_slot(slots: Seq<IdSlot>, place: int) -> bool {
    exists|k: int| 0 <= k < slots.len() && (#[trigger] slots[k]).slot == place
}

/// The slots list all entries in the order of their identities.
spec fn is_index(slots: Seq<IdSlot>, entries: Seq<EntryView>) -> bool {
    &&& sorted(slots)
    &&& slots.len() == entries.len()
    &&& forall|k: int|
        0 <= k < slots.len() ==> (#[trigger] slots[k]).slot < entries.len() && slots[k].id
            == entries[slots[k].slot as int].node.id
    &&& forall|i: int| 0 <= i < entries.len() ==> #[trigger] has_slot(slots, i)
    &&& forall|k: int, m: int|
        0 <= k < m < slots.len() ==> (#[trigger] slots[k]).slot != (#[trigger] slots[m]).slot
}

/// An earlier entry has the same identity.
spec fn has_twin(entries: Seq<EntryView>, place: int) -> bool {
    exists|i: int|
        0 <= i < place && (#[trigger] entries[i]).node.id == entries[place].node.id
}

fn index_by_id(entries: &[Entry]) -> (slots: Vec<IdSlot>)
    ensures
        is_index(slots@, entries_view(entries@)),
{
    let ghost views = entries_view(entries@);
    let mut list: Vec<IdSlot> = Vec::new();
    let mut index: usize = 0;
    while index < entries.len()
        invariant
            views == entries_view(entries@),
            index <= entries@.len(),
            list@.len() == index,
            forall|k: int|
                0 <= k < index ==> (#[trigger] list@[k]).slot == k && list@[k].id
                    == views[k].node.id,
        decreases entries@.len() - index,
    {
        assert(views[index as int] == entries@[index as int]@);
        list.push(IdSlot { id: entries[index].node.id(), slot: index });
        index += 1;
    }
    let ghost original = list@;
    let slots = sort(list);
    proof {
        same_by_key_same_items(original, slots@);
        assert forall|k: int| 0 <= k < slots@.len() implies (#[trigger] slots@[k]).slot
            < views.len() && slots@[k].id == views[slots@[k].slot as int].node.id by {
            assert(slots@.contains(slots@[k]));
            assert(original.contains(slots@[k]));
        }
        assert forall|i: int| 0 <= i < views.len() implies #[trigger] has_slot(slots@, i) by {
            assert(original.contains(original[i]));
            assert(slots@.contains(original[i]));
        }
        assert(original.no_duplicates());
        original.lemma_multiset_has_no_duplicates();
        slots@.lemma_multiset_has_no_duplicates_conv();
        assert forall|k: int, m: int| 0 <= k < m < slots@.len() implies (#[trigger] slots@[k]).slot
            != (#[trigger] slots@[m]).slot by {
            if slots@[k].slot == slots@[m].slot {
                assert(slots@[k] == slots@[m]);
            }
        }
    }
    slots
}

/// An entry has an earlier twin if and only if the slot before its own has its identity.
proof fn twin_is_adjacent(slots: Seq<IdSlot>, entries: Seq<EntryView>, k: int)
    requires
        is_index(slots, entries),
        0 <= k < slots.len(),
    ensures
        has_twin(entries, slots[k].slot as int) <==> k > 0 && slots[k - 1].id == slots[k].id,
{
    let place = slots[k].slot as int;
    if k > 0 && slots[k - 1].id == slots[k].id {
        let prior = k - 1;
        slot_order(slots[prior], slots[k]);
        slot_order(slots[k], slots[prior]);
        assert(not_after(slots[prior].rank(), slots[k].rank()));
        assert(slots[prior].slot != slots[k].slot);
        assert(entries[slots[prior].slot as int].node.id == entries[place].node.id);
    }
    if has_twin(entries, place) {
        let i = choose|i: int|
            0 <= i < place && (#[trigger] entries[i]).node.id == entries[place].node.id;
        assert(has_slot(slots, i));
        let m = choose|m: int| 0 <= m < slots.len() && (#[trigger] slots[m]).slot == i;
        slot_order(slots[m], slots[k]);
        if k < m {
            assert(not_after(slots[k].rank(), slots[m].rank()));
        }
        let prior = k - 1;
        slot_order(slots[prior], slots[m]);
        slot_order(slots[m], slots[prior]);
        slot_order(slots[k], slots[prior]);
        slot_order(slots[prior], slots[k]);
        assert(not_after(slots[prior].rank(), slots[k].rank()));
        if m < prior {
            assert(not_after(slots[m].rank(), slots[prior].rank()));
        }
        before_total(bytes_rank(slots[prior].id@), bytes_rank(slots[k].id@));
    }
}

/// Which entries have an identity that an earlier entry has too.
fn twins(slots: &Vec<IdSlot>, Ghost(entries): Ghost<Seq<EntryView>>) -> (flags: Vec<bool>)
    requires
        is_index(slots@, entries),
    ensures
        flags@.len() == entries.len(),
        forall|i: int| 0 <= i < entries.len() ==> #[trigger] flags@[i] == has_twin(entries, i),
{
    let mut flags: Vec<bool> = Vec::new();
    let mut fill: usize = 0;
    while fill < slots.len()
        invariant
            fill <= slots@.len(),
            flags@.len() == fill,
        decreases slots@.len() - fill,
    {
        flags.push(false);
        fill += 1;
    }
    let mut k: usize = 0;
    while k < slots.len()
        invariant
            is_index(slots@, entries),
            k <= slots@.len(),
            flags@.len() == entries.len(),
            forall|m: int|
                0 <= m < k ==> flags@[(#[trigger] slots@[m]).slot as int] == has_twin(
                    entries,
                    slots@[m].slot as int,
                ),
        decreases slots@.len() - k,
    {
        proof {
            twin_is_adjacent(slots@, entries, k as int);
        }
        let twin = k > 0 && slots[k - 1].id == slots[k].id;
        let slot: usize = slots[k].slot;
        flags.set(slot, twin);
        k += 1;
    }
    proof {
        assert forall|i: int| 0 <= i < entries.len() implies #[trigger] flags@[i] == has_twin(
            entries,
            i,
        ) by {
            assert(has_slot(slots@, i));
            let m = choose|m: int| 0 <= m < slots@.len() && (#[trigger] slots@[m]).slot == i;
            assert(flags@[slots@[m].slot as int] == has_twin(entries, slots@[m].slot as int));
        }
    }
    flags
}

/// The place of the entry with the identity.
fn find_id(slots: &Vec<IdSlot>, id: NodeId, Ghost(entries): Ghost<Seq<EntryView>>) -> (result:
    Option<usize>)
    requires
        is_index(slots@, entries),
    ensures
        match result {
            Some(place) => place < entries.len() && entries[place as int].node.id == id,
            None => !has_id(entries, id),
        },
{
    let probe = IdSlot { id, slot: 0 };
    let k: usize = lower_bound(slots, &probe);
    if k < slots.len() && slots[k].id == id {
        return Some(slots[k].slot);
    }
    proof {
        if has_id(entries, id) {
            let i = place_of_id(entries, id);
            assert(has_slot(slots@, i));
            let m = choose|m: int| 0 <= m < slots@.len() && (#[trigger] slots@[m]).slot == i;
            slot_order(slots@[m], probe);
            assert(k <= m);
            slot_order(slots@[m], slots@[k as int]);
            slot_order(slots@[k as int], slots@[m]);
            slot_order(slots@[k as int], probe);
            if k < m {
                assert(not_after(slots@[k as int].rank(), slots@[m].rank()));
            }
            before_total(bytes_rank(slots@[k as int].id@), bytes_rank(id@));
            bytes_rank_is_injective(slots@[k as int].id@, id@);
            NodeId::identified(slots@[k as int].id, id);
        }
    }
    None
}

/// One name in a directory and the node behind it.
struct Child {
    parent: NodeId,
    name: String,
    id: NodeId,
}

impl Child {
    spec fn view(&self) -> ChildView {
        ChildView { parent: self.parent, name: self.name@, id: self.id }
    }
}

impl Ranked for Child {
    closed spec fn rank(&self) -> Seq<int> {
        bytes_rank(self.parent@)
    }

    fn precedes(&self, other: &Self) -> (result: bool) {
        self.parent.precedes(&other.parent)
    }
}

/// The folded form of one name in a directory.
struct FoldedName {
    parent: NodeId,
    folded: String,
}

impl Ranked for FoldedName {
    closed spec fn rank(&self) -> Seq<int> {
        bytes_rank(self.parent@) + text_rank(self.folded@)
    }

    fn precedes(&self, other: &Self) -> (result: bool) {
        proof {
            NodeId::identified(self.parent, other.parent);
            NodeId::identified(other.parent, self.parent);
            bytes_rank_is_injective(self.parent@, other.parent@);
            before_of_pairs(
                bytes_rank(self.parent@),
                text_rank(self.folded@),
                bytes_rank(other.parent@),
                text_rank(other.folded@),
            );
            before_irreflexive(bytes_rank(self.parent@));
        }
        if self.parent == other.parent {
            text_precedes(self.folded.as_str(), other.folded.as_str())
        } else {
            self.parent.precedes(&other.parent)
        }
    }
}

proof fn folded_key_is_injective(a: FoldedName, b: FoldedName)
    ensures
        a.rank() == b.rank() <==> a.parent == b.parent && a.folded@ == b.folded@,
{
    NodeId::identified(a.parent, b.parent);
    NodeId::identified(b.parent, a.parent);
    bytes_rank_is_injective(a.parent@, b.parent@);
    text_rank_is_injective(a.folded@, b.folded@);
    if a.rank() == b.rank() {
        assert(a.rank().take(16) =~= bytes_rank(a.parent@));
        assert(b.rank().take(16) =~= bytes_rank(b.parent@));
        assert(a.rank().skip(16) =~= text_rank(a.folded@));
        assert(b.rank().skip(16) =~= text_rank(b.folded@));
    }
}

spec fn child_list_view(list: Seq<Child>) -> Seq<ChildView> {
    Seq::new(list.len(), |i: int| list[i]@)
}

/// Selecting by directory is the same on the list and on what it says.
proof fn children_of(list: Seq<Child>, directory: NodeId)
    ensures
        child_list_view(with_key(list, bytes_rank(directory@))) == child_list_view(list).filter(
            is_child_of(directory),
        ),
    decreases list.len(),
{
    reveal(Seq::filter);
    let key = bytes_rank(directory@);
    let views = child_list_view(list);
    if list.len() > 0 {
        let rest = list.drop_last();
        children_of(rest, directory);
        assert(views.drop_last() =~= child_list_view(rest));
        let last = list.last();
        NodeId::identified(last.parent, directory);
        bytes_rank_is_injective(last.parent@, directory@);
        assert(views.last() == last@);
        assert(child_list_view(with_key(list, key)) =~= views.filter(is_child_of(directory)));
    } else {
        assert(child_list_view(with_key(list, key)) =~= views.filter(is_child_of(directory)));
    }
}

/// A fault among the first entries is the fault of all of them.
proof fn later_members_keep_fault(entries: Seq<EntryView>, count: nat, all: nat)
    requires
        count <= all,
        membership_fault(entries, count) is Some,
    ensures
        membership_fault(entries, all) == membership_fault(entries, count),
    decreases all,
{
    if count < all {
        later_members_keep_fault(entries, count, (all - 1) as nat);
    }
}

/// Without a missing parent, there is a fault if and only if two names collide.
proof fn collisions_are_faults(entries: Seq<EntryView>, count: nat)
    requires
        count <= entries.len(),
        forall|i: int|
            0 <= i < count ==> (#[trigger] entries[i]).path.len() == 0 || parent_id(
                entries,
                entries[i].path,
            ) is Some,
    ensures
        match membership_fault(entries, count) {
            Some(fault) => fault == tree_invalid(
                "directory contains a case-folding name collision",
            ) && exists|i: int, j: int|
                0 <= i < j < count && #[trigger] collide(entries, i, j),
            None => forall|i: int, j: int|
                0 <= i < j < count ==> !#[trigger] collide(entries, i, j),
        },
    decreases count,
{
    if count > 0 {
        collisions_are_faults(entries, (count - 1) as nat);
    }
}

/// The names and places of the directory members among the first `count` entries.
#[verifier::opaque]
spec fn gathered(
    entries: Seq<EntryView>,
    count: int,
    names: Seq<FoldedName>,
    places: Seq<int>,
) -> bool {
    &&& places.len() == names.len()
    &&& forall|k: int|
        0 <= k < places.len() ==> {
            &&& 0 <= #[trigger] places[k] < count
            &&& entries[places[k]].path.len() > 0
            &&& parent_id(entries, entries[places[k]].path) == Some(names[k].parent)
            &&& folded_of(name_of(entries[places[k]].path)) == names[k].folded@
        }
    &&& forall|k: int, m: int|
        0 <= k < m < places.len() ==> #[trigger] places[k] < #[trigger] places[m]
    &&& forall|i: int|
        0 <= i < count && (#[trigger] entries[i]).path.len() > 0 ==> places.contains(i)
}

/// One more entry that is a directory member.
proof fn gathered_member(
    entries: Seq<EntryView>,
    count: int,
    names: Seq<FoldedName>,
    places: Seq<int>,
    name: FoldedName,
)
    requires
        gathered(entries, count, names, places),
        0 <= count < entries.len(),
        entries[count].path.len() > 0,
        parent_id(entries, entries[count].path) == Some(name.parent),
        folded_of(name_of(entries[count].path)) == name.folded@,
    ensures
        gathered(entries, count + 1, names.push(name), places.push(count)),
{
    reveal(gathered);
    let more = places.push(count);
    assert forall|i: int| 0 <= i < count + 1 && (
    #[trigger] entries[i]).path.len() > 0 implies more.contains(i) by {
        if i < count {
            let k = choose|k: int| 0 <= k < places.len() && places[k] == i;
            assert(more[k] == i);
        } else {
            assert(more[places.len() as int] == i);
        }
    }
}

/// Folded names repeat if and only if two entries collide.
proof fn repeated_names_collide(
    entries: Seq<EntryView>,
    count: int,
    names: Seq<FoldedName>,
    places: Seq<int>,
)
    requires
        gathered(entries, count, names, places),
        count <= entries.len(),
    ensures
        repeats_key(names) <==> exists|i: int, j: int|
            0 <= i < j < count && #[trigger] collide(entries, i, j),
{
    reveal(gathered);
    if repeats_key(names) {
        let (k, m) = choose|k: int, m: int|
            0 <= k < m < names.len() && #[trigger] names[k].rank() == #[trigger] names[m].rank();
        folded_key_is_injective(names[k], names[m]);
        assert(places[k] < places[m]);
        assert(collide(entries, places[k], places[m]));
    }
    if exists|i: int, j: int| 0 <= i < j < count && #[trigger] collide(entries, i, j) {
        let (i, j) = choose|i: int, j: int|
            0 <= i < j < count && #[trigger] collide(entries, i, j);
        assert(places.contains(i) && places.contains(j));
        let k = choose|k: int| 0 <= k < places.len() && places[k] == i;
        let m = choose|m: int| 0 <= m < places.len() && places[m] == j;
        assert(k < m) by {
            if m < k {
                assert(places[m] < places[k]);
            }
        }
        folded_key_is_injective(names[k], names[m]);
        assert(names[k].rank() == names[m].rank());
    }
}

/// All members of the directories of a tree, in path order.
fn directory_membership(tree: &Tree) -> (result: Result<Vec<Child>, Error>)
    ensures
        match result {
            Ok(list) => membership_fault(tree@, tree@.len()) is None && child_list_view(list@)
                == child_views(tree@, tree@.len()),
            Err(error) => membership_fault(tree@, tree@.len()) == Some(error.fault()),
        },
{
    let entries = tree.iter();
    let ghost views = tree@;
    let mut list: Vec<Child> = Vec::new();
    let mut names: Vec<FoldedName> = Vec::new();
    // The place of the entry behind each name.
    let ghost mut places: Seq<int> = Seq::empty();
    let mut missing = false;
    let mut index: usize = 0;
    assert(child_list_view(list@) =~= child_views(views, 0));
    assert(gathered(views, 0, names@, places)) by {
        reveal(gathered);
    }
    while index < entries.len() && !missing
        invariant
            views == tree@,
            views == entries_view(entries@),
            index <= entries@.len(),
            child_list_view(list@) == child_views(views, index as nat),
            forall|i: int|
                0 <= i < index ==> (#[trigger] views[i]).path.len() == 0 || parent_id(
                    views,
                    views[i].path,
                ) is Some,
            missing ==> index < entries@.len() && views[index as int].path.len() > 0 && parent_id(
                views,
                views[index as int].path,
            ) is None,
            gathered(views, index as int, names@, places),
        decreases
            entries@.len() - index,
            (if missing {
                0int
            } else {
                1int
            }),
    {
        let entry = &entries[index];
        assert(views[index as int] == entry@);
        let parent = match entry.path.parent() {
            Some(parent) => match tree.get(&parent) {
                Some(node) => match node.dir_body() {
                    Some(_) => Some(node.id()),
                    None => None,
                },
                None => None,
            },
            None => None,
        };
        match (parent, entry.path.name()) {
            (Some(parent), Some(name)) => {
                assert(parent_id(views, entry.path@) == Some(parent));
                let ghost old_list = list@;
                list.push(Child { parent, name: name.to_owned(), id: entry.node.id() });
                assert(child_list_view(list@) =~= child_views(views, (index + 1) as nat));
                let folded_name = FoldedName { parent, folded: folded(name) };
                proof {
                    gathered_member(views, index as int, names@, places, folded_name);
                    places = places.push(index as int);
                }
                names.push(folded_name);
                index += 1;
            },
            (None, Some(_)) => {
                missing = true;
            },
            (_, None) => {
                assert(gathered(views, index + 1, names@, places)) by {
                    reveal(gathered);
                }
                index += 1;
            },
        }
    }
    proof {
        collisions_are_faults(views, index as nat);
        repeated_names_collide(views, index as int, names@, places);
    }
    if has_repeated_key(names) {
        proof {
            later_members_keep_fault(views, index as nat, views.len());
        }
        return Err(
            Error::invalid(
                "validate YinYang tree",
                "directory contains a case-folding name collision",
            ),
        );
    }
    if missing {
        proof {
            assert(membership_fault(views, (index + 1) as nat) is Some);
            later_members_keep_fault(views, (index + 1) as nat, views.len());
        }
        return Err(
            Error::invalid(
                "validate YinYang tree",
                "tree entry parent is missing or is not a directory",
            ),
        );
    }
    Ok(list)
}

/// Whether a directory has the same members in two lists that are sorted by directory.
fn same_members(
    left: &Vec<Child>,
    right: &Vec<Child>,
    directory: NodeId,
    Ghost(left_list): Ghost<Seq<Child>>,
    Ghost(right_list): Ghost<Seq<Child>>,
) -> (result: bool)
    requires
        sorted(left@),
        sorted(right@),
        same_by_key(left_list, left@),
        same_by_key(right_list, right@),
    ensures
        result == (child_list_view(left_list).filter(is_child_of(directory)) == child_list_view(
            right_list,
        ).filter(is_child_of(directory))),
{
    let probe = Child { parent: directory, name: String::new(), id: directory };
    let left_low: usize = lower_bound(left, &probe);
    let left_high: usize = upper_bound(left, &probe);
    let right_low: usize = lower_bound(right, &probe);
    let right_high: usize = upper_bound(right, &probe);
    let ghost key = bytes_rank(directory@);
    let ghost a = child_list_view(left@.subrange(left_low as int, left_high as int));
    let ghost b = child_list_view(right@.subrange(right_low as int, right_high as int));
    proof {
        bounds_delimit_key(left@, key, left_low as int, left_high as int);
        bounds_delimit_key(right@, key, right_low as int, right_high as int);
        children_of(left_list, directory);
        children_of(right_list, directory);
        assert(with_key(left_list, key) == with_key(left@, key));
        assert(with_key(right_list, key) == with_key(right@, key));
        assert forall|i: int| left_low <= i < left_high implies (#[trigger] left@[i]).parent
            == directory by {
            before_total(left@[i].rank(), key);
            NodeId::identified(left@[i].parent, directory);
            bytes_rank_is_injective(left@[i].parent@, directory@);
        }
        assert forall|i: int| right_low <= i < right_high implies (#[trigger] right@[i]).parent
            == directory by {
            before_total(right@[i].rank(), key);
            NodeId::identified(right@[i].parent, directory);
            bytes_rank_is_injective(right@[i].parent@, directory@);
        }
    }
    if left_high - left_low != right_high - right_low {
        assert(a.len() != b.len());
        return false;
    }
    let count: usize = left_high - left_low;
    let mut index: usize = 0;
    while index < count
        invariant
            index <= count,
            left_low <= left_high <= left@.len(),
            right_low <= right_high <= right@.len(),
            count == left_high - left_low,
            count == right_high - right_low,
            a == child_list_view(left@.subrange(left_low as int, left_high as int)),
            b == child_list_view(right@.subrange(right_low as int, right_high as int)),
            forall|i: int|
                left_low <= i < left_high ==> (#[trigger] left@[i]).parent == directory,
            forall|i: int|
                right_low <= i < right_high ==> (#[trigger] right@[i]).parent == directory,
            forall|k: int| 0 <= k < index ==> a[k] == b[k],
            child_list_view(left_list).filter(is_child_of(directory)) == a,
            child_list_view(right_list).filter(is_child_of(directory)) == b,
        decreases count - index,
    {
        let x = &left[left_low + index];
        let y = &right[right_low + index];
        assert(a[index as int] == x@);
        assert(b[index as int] == y@);
        if x.id != y.id || !same_text(x.name.as_str(), y.name.as_str()) {
            assert(a[index as int] != b[index as int]);
            return false;
        }
        index += 1;
    }
    assert(a =~= b);
    true
}

/// A fault among the first entries is the fault of all of them.
proof fn later_entries_keep_fault(
    entries: Seq<EntryView>,
    count: nat,
    all: nat,
    decodings: usize,
)
    requires
        count <= all,
        entries_fault(entries, count, decodings) is Some,
    ensures
        entries_fault(entries, all, decodings) == entries_fault(entries, count, decodings),
    decreases all,
{
    if count < all {
        later_entries_keep_fault(entries, count, (all - 1) as nat, decodings);
    }
}

/// Without faults among the entries, no identity occurs twice.
proof fn faultless_ids_are_unique(entries: Seq<EntryView>, count: nat, decodings: usize)
    requires
        count <= entries.len(),
        entries_fault(entries, count, decodings) is None,
    ensures
        unique_ids(entries.take(count as int)),
    decreases count,
{
    if count > 0 {
        faultless_ids_are_unique(entries, (count - 1) as nat, decodings);
        let now = entries.take(count as int);
        let then = entries.take(count - 1);
        assert forall|i: int, j: int| 0 <= i < j < now.len() implies (#[trigger] now[i]).node.id
            != (#[trigger] now[j]).node.id by {
            assert(now[i] == entries[i] && now[j] == entries[j]);
            if j < count - 1 {
                assert(then[i] == now[i] && then[j] == now[j]);
            } else {
                assert(entry_fault(entries, count - 1, decodings) is None);
            }
        }
    }
}

/// A valid tree has each identity once.
pub proof fn valid_ids_are_unique(entries: Seq<EntryView>, root: NodeId, decodings: usize)
    requires
        tree_fault(entries, root, decodings) is None,
    ensures
        unique_ids(entries),
{
    faultless_ids_are_unique(entries, entries.len(), decodings);
    assert(entries.take(entries.len() as int) =~= entries);
}

impl Tree {
    /// Check the tree against the root and the number of decodings of its format.
    pub fn validate(&self, root: NodeId, decodings: usize) -> (result: Result<(), Error>)
        ensures
            match result {
                Ok(()) => tree_fault(self@, root, decodings) is None,
                Err(error) => tree_fault(self@, root, decodings) == Some(error.fault()),
            },
    {
        let top_path = Path::root();
        let top = match self.get(&top_path) {
            Some(node) => node,
            None => {
                return Err(Error::invalid("validate YinYang tree", "tree root is missing"));
            },
        };
        if top.id() != root || top.dir_body().is_none() {
            return Err(
                Error::invalid("validate YinYang tree", "tree root does not match the format"),
            );
        }
        let entries = self.iter();
        let ghost views = self@;
        let slots = index_by_id(entries);
        let twins = twins(&slots, Ghost(views));
        let mut index: usize = 0;
        while index < entries.len()
            invariant
                views == self@,
                views == entries_view(entries@),
                index <= entries@.len(),
                twins@.len() == views.len(),
                forall|i: int| 0 <= i < views.len() ==> #[trigger] twins@[i] == has_twin(views, i),
                entries_fault(views, index as nat, decodings) is None,
                lookup(views, Seq::empty()) is Some,
                lookup(views, Seq::empty())->0.id == root,
                lookup(views, Seq::empty())->0.body is Dir,
            decreases entries@.len() - index,
        {
            let entry = &entries[index];
            let ghost fault = entry_fault(views, index as int, decodings);
            proof {
                assert(views[index as int] == entry@);
                assert(twins@[index as int] == has_twin(views, index as int));
                assert(entries_fault(views, (index + 1) as nat, decodings) == fault);
                if fault is Some {
                    later_entries_keep_fault(views, (index + 1) as nat, views.len(), decodings);
                }
                Generation::counted(entry.node@.generation, entry.node@.generation);
            }
            if entry.node.generation().value() == 0 {
                return Err(Error::invalid("validate YinYang tree", "node generation is zero"));
            }
            if twins[index] {
                return Err(
                    Error::invalid(
                        "validate YinYang tree",
                        "node identity appears at more than one path",
                    ),
                );
            }
            match entry.node.body() {
                NodeBody::Dir(dir) => {
                    if dir.entries_generation().value() == 0 {
                        return Err(
                            Error::invalid(
                                "validate YinYang tree",
                                "directory entries generation is zero",
                            ),
                        );
                    }
                },
                NodeBody::File(file) => {
                    match file.validate(Some(decodings)) {
                        Ok(()) => {},
                        Err(error) => {
                            return Err(error);
                        },
                    }
                },
            }
            if let Some(parent) = entry.path.parent() {
                let present = match self.get(&parent) {
                    Some(node) => node.dir_body().is_some(),
                    None => false,
                };
                if !present {
                    return Err(
                        Error::invalid(
                            "validate YinYang tree",
                            "tree entry parent is missing or is not a directory",
                        ),
                    );
                }
            }
            index += 1;
        }
        match directory_membership(self) {
            Ok(_) => Ok(()),
            Err(error) => Err(error),
        }
    }
}

/// In a tree with unique identities, an identity has one place.
proof fn id_place_is_unique(entries: Seq<EntryView>, place: int)
    requires
        unique_ids(entries),
        0 <= place < entries.len(),
    ensures
        has_id(entries, entries[place].node.id),
        place_of_id(entries, entries[place].node.id) == place,
{
    let id = entries[place].node.id;
    assert(has_id(entries, id));
    let other = place_of_id(entries, id);
    assert(entries[other].node.id == id);
}

/// Check how one node of the next tree follows the previous one.
fn check_change(
    previous: &[Entry],
    slots: &Vec<IdSlot>,
    next: &[Entry],
    place: usize,
) -> (result: Result<(), Error>)
    requires
        is_index(slots@, entries_view(previous@)),
        unique_ids(entries_view(previous@)),
        place < next@.len(),
    ensures
        match result {
            Ok(()) => change_fault(
                entries_view(previous@),
                entries_view(next@),
                place as int,
            ) is None,
            Err(error) => change_fault(entries_view(previous@), entries_view(next@), place as int)
                == Some(error.fault()),
        },
{
    let ghost before_views = entries_view(previous@);
    let ghost after_views = entries_view(next@);
    let node = &next[place].node;
    assert(after_views[place as int].node == node@);
    let found = find_id(slots, node.id(), Ghost(before_views));
    let old_place: usize = match found {
        Some(old_place) => old_place,
        None => {
            let dir_starts = match node.dir_body() {
                Some(dir) => dir.entries_generation().value() == 1,
                None => true,
            };
            if node.generation().value() != 1 || !dir_starts {
                return Err(
                    Error::invalid(
                        "validate YinYang tree successor",
                        "new node does not start at the first generation",
                    ),
                );
            }
            return Ok(());
        },
    };
    proof {
        id_place_is_unique(before_views, old_place as int);
    }
    let old_node = &previous[old_place].node;
    assert(before_views[old_place as int].node == old_node@);
    let same_body = match (old_node.body(), node.body()) {
        (NodeBody::Dir(_), NodeBody::Dir(_)) => true,
        (NodeBody::File(old_file), NodeBody::File(file)) => {
            if old_file.version() == file.version() && (old_file.content() != file.content()
                || !old_file.same_parts(file)) {
                return Err(
                    Error::invalid(
                        "validate YinYang tree successor",
                        "file content changed without a new file version",
                    ),
                );
            }
            old_file.same(file)
        },
        (NodeBody::Dir(_), NodeBody::File(_)) | (NodeBody::File(_), NodeBody::Dir(_)) => {
            return Err(
                Error::invalid(
                    "validate YinYang tree successor",
                    "node kind changed without a new identity",
                ),
            );
        },
    };
    let changed = old_node.attrs() != node.attrs() || !same_body;
    assert(changed == payload_changed(old_node@, node@));
    let expected = if changed {
        match old_node.generation().next() {
            Ok(generation) => generation,
            Err(error) => {
                return Err(error);
            },
        }
    } else {
        old_node.generation()
    };
    proof {
        Generation::counted(node@.generation, expected);
    }
    if node.generation() != expected {
        return Err(
            Error::invalid(
                "validate YinYang tree successor",
                "node generation does not match its content change",
            ),
        );
    }
    Ok(())
}

/// Check how the members of one directory of the next tree follow the previous one.
fn check_members(
    previous: &[Entry],
    slots: &Vec<IdSlot>,
    next: &[Entry],
    place: usize,
    old_members: &Vec<Child>,
    new_members: &Vec<Child>,
    Ghost(old_list): Ghost<Seq<Child>>,
    Ghost(new_list): Ghost<Seq<Child>>,
) -> (result: Result<(), Error>)
    requires
        is_index(slots@, entries_view(previous@)),
        unique_ids(entries_view(previous@)),
        place < next@.len(),
        change_fault(entries_view(previous@), entries_view(next@), place as int) is None,
        sorted(old_members@),
        sorted(new_members@),
        same_by_key(old_list, old_members@),
        same_by_key(new_list, new_members@),
        child_list_view(old_list) == child_views(entries_view(previous@), previous@.len()),
        child_list_view(new_list) == child_views(entries_view(next@), next@.len()),
    ensures
        match result {
            Ok(()) => member_fault(
                entries_view(previous@),
                entries_view(next@),
                place as int,
            ) is None,
            Err(error) => member_fault(entries_view(previous@), entries_view(next@), place as int)
                == Some(error.fault()),
        },
{
    let ghost before_views = entries_view(previous@);
    let ghost after_views = entries_view(next@);
    let node = &next[place].node;
    assert(after_views[place as int].node == node@);
    let dir = match node.dir_body() {
        Some(dir) => dir,
        None => {
            return Ok(());
        },
    };
    let old_place: usize = match find_id(slots, node.id(), Ghost(before_views)) {
        Some(old_place) => old_place,
        None => {
            return Ok(());
        },
    };
    proof {
        id_place_is_unique(before_views, old_place as int);
    }
    let old_node = &previous[old_place].node;
    assert(before_views[old_place as int].node == old_node@);
    let old_dir = match old_node.dir_body() {
        Some(old_dir) => old_dir,
        None => {
            assert(false);
            return Ok(());
        },
    };
    let same = same_members(
        old_members,
        new_members,
        node.id(),
        Ghost(old_list),
        Ghost(new_list),
    );
    assert(same == (children(before_views, node@.id) == children(after_views, node@.id)));
    let expected = if same {
        old_dir.entries_generation()
    } else {
        match old_dir.entries_generation().next() {
            Ok(generation) => generation,
            Err(error) => {
                return Err(error);
            },
        }
    };
    proof {
        Generation::counted(dir.entries_generation, expected);
    }
    if dir.entries_generation() != expected {
        return Err(
            Error::invalid(
                "validate YinYang tree successor",
                "directory generation does not match its membership change",
            ),
        );
    }
    Ok(())
}

/// Identities before that of slot `k` have their slots before it.
proof fn smaller_ids_stand_before(slots: Seq<IdSlot>, entries: Seq<EntryView>, k: int, place: int)
    requires
        is_index(slots, entries),
        0 <= k < slots.len(),
        0 <= place < entries.len(),
        before(
            bytes_rank(entries[place].node.id@),
            bytes_rank(entries[slots[k].slot as int].node.id@),
        ),
    ensures
        exists|m: int| 0 <= m < k && (#[trigger] slots[m]).slot == place,
{
    assert(has_slot(slots, place));
    let m = choose|m: int| 0 <= m < slots.len() && (#[trigger] slots[m]).slot == place;
    slot_order(slots[m], slots[k]);
    before_irreflexive(slots[m].rank());
    if k < m {
        assert(not_after(slots[k].rank(), slots[m].rank()));
    }
}

impl Tree {
    /// Check that `successor` follows this tree: both are valid, new nodes start at the
    /// first generation, and generations count the changes of nodes and directories.
    pub fn validate_successor(
        &self,
        successor: &Self,
        root: NodeId,
        decodings: usize,
    ) -> (result: Result<(), Error>)
        ensures
            match result {
                Ok(()) => follows(self@, successor@, root, decodings),
                Err(error) => !follows(self@, successor@, root, decodings) && follow_fault(
                    self@,
                    successor@,
                    root,
                    decodings,
                    error.fault(),
                ),
            },
    {
        match self.validate(root, decodings) {
            Ok(()) => {},
            Err(error) => {
                return Err(error);
            },
        }
        match successor.validate(root, decodings) {
            Ok(()) => {},
            Err(error) => {
                return Err(error);
            },
        }
        let ghost old_views = self@;
        let ghost new_views = successor@;
        proof {
            valid_ids_are_unique(old_views, root, decodings);
            valid_ids_are_unique(new_views, root, decodings);
        }
        let previous = self.iter();
        let next = successor.iter();
        let old_slots = index_by_id(previous);
        let new_slots = index_by_id(next);
        let ghost changes = |i: int| change_fault(old_views, new_views, i);
        let mut k: usize = 0;
        while k < new_slots.len()
            invariant
                old_views == self@,
                new_views == successor@,
                old_views == entries_view(previous@),
                new_views == entries_view(next@),
                tree_fault(old_views, root, decodings) is None,
                tree_fault(new_views, root, decodings) is None,
                is_index(old_slots@, old_views),
                is_index(new_slots@, new_views),
                unique_ids(old_views),
                k <= new_slots@.len(),
                forall|m: int|
                    0 <= m < k ==> change_fault(
                        old_views,
                        new_views,
                        (#[trigger] new_slots@[m]).slot as int,
                    ) is None,
            decreases new_slots@.len() - k,
        {
            let place: usize = new_slots[k].slot;
            match check_change(previous, &old_slots, next, place) {
                Ok(()) => {},
                Err(error) => {
                    proof {
                        let faults = |i: int| change_fault(old_views, new_views, i);
                        assert(faults(place as int) == Some(error.fault()));
                        assert forall|j: int|
                            0 <= j < new_views.len() && before(
                                bytes_rank(new_views[j].node.id@),
                                bytes_rank(new_views[place as int].node.id@),
                            ) implies #[trigger] faults(j) is None by {
                            smaller_ids_stand_before(new_slots@, new_views, k as int, j);
                        }
                        assert(first_by_id(new_views, faults, error.fault()));
                        assert(change_fault(old_views, new_views, place as int) is Some);
                    }
                    return Err(error);
                },
            }
            k += 1;
        }
        proof {
            assert forall|i: int| 0 <= i < new_views.len() implies #[trigger] change_fault(
                old_views,
                new_views,
                i,
            ) is None by {
                assert(has_slot(new_slots@, i));
                let m = choose|m: int|
                    0 <= m < new_slots@.len() && (#[trigger] new_slots@[m]).slot == i;
                assert(change_fault(old_views, new_views, new_slots@[m].slot as int) is None);
            }
        }
        let old_members = match directory_membership(self) {
            Ok(list) => list,
            Err(error) => {
                return Err(error);
            },
        };
        let new_members = match directory_membership(successor) {
            Ok(list) => list,
            Err(error) => {
                return Err(error);
            },
        };
        let ghost old_list = old_members@;
        let ghost new_list = new_members@;
        let old_members = sort(old_members);
        let new_members = sort(new_members);
        let mut k: usize = 0;
        while k < new_slots.len()
            invariant
                old_views == self@,
                new_views == successor@,
                old_views == entries_view(previous@),
                new_views == entries_view(next@),
                tree_fault(old_views, root, decodings) is None,
                tree_fault(new_views, root, decodings) is None,
                is_index(old_slots@, old_views),
                is_index(new_slots@, new_views),
                unique_ids(old_views),
                sorted(old_members@),
                sorted(new_members@),
                same_by_key(old_list, old_members@),
                same_by_key(new_list, new_members@),
                child_list_view(old_list) == child_views(old_views, old_views.len()),
                child_list_view(new_list) == child_views(new_views, new_views.len()),
                k <= new_slots@.len(),
                forall|i: int|
                    0 <= i < new_views.len() ==> #[trigger] change_fault(
                        old_views,
                        new_views,
                        i,
                    ) is None,
                forall|m: int|
                    0 <= m < k ==> member_fault(
                        old_views,
                        new_views,
                        (#[trigger] new_slots@[m]).slot as int,
                    ) is None,
            decreases new_slots@.len() - k,
        {
            let place: usize = new_slots[k].slot;
            assert(change_fault(old_views, new_views, place as int) is None);
            match check_members(
                previous,
                &old_slots,
                next,
                place,
                &old_members,
                &new_members,
                Ghost(old_list),
                Ghost(new_list),
            ) {
                Ok(()) => {},
                Err(error) => {
                    proof {
                        let faults = |i: int| member_fault(old_views, new_views, i);
                        assert(faults(place as int) == Some(error.fault()));
                        assert forall|j: int|
                            0 <= j < new_views.len() && before(
                                bytes_rank(new_views[j].node.id@),
                                bytes_rank(new_views[place as int].node.id@),
                            ) implies #[trigger] faults(j) is None by {
                            smaller_ids_stand_before(new_slots@, new_views, k as int, j);
                        }
                        assert(first_by_id(new_views, faults, error.fault()));
                        assert(member_fault(old_views, new_views, place as int) is Some);
                    }
                    return Err(error);
                },
            }
            k += 1;
        }
        proof {
            assert forall|i: int| 0 <= i < new_views.len() implies #[trigger] member_fault(
                old_views,
                new_views,
                i,
            ) is None by {
                assert(has_slot(new_slots@, i));
                let m = choose|m: int|
                    0 <= m < new_slots@.len() && (#[trigger] new_slots@[m]).slot == i;
                assert(member_fault(old_views, new_views, new_slots@[m].slot as int) is None);
            }
        }
        Ok(())
    }
}

/// The place of an identity in a tree that has each identity once.
pub proof fn id_is_at(entries: Seq<EntryView>, place: int)
    requires
        unique_ids(entries),
        0 <= place < entries.len(),
    ensures
        has_id(entries, entries[place].node.id),
        place_of_id(entries, entries[place].node.id) == place,
{
    let id = entries[place].node.id;
    let found = place_of_id(entries, id);
    assert(entries[place].node.id == id);
    assert(0 <= found < entries.len() && entries[found].node.id == id);
    if found < place {
        assert(entries[found].node.id != entries[place].node.id);
    } else if place < found {
        assert(entries[place].node.id != entries[found].node.id);
    }
}

/// A valid tree follows itself: nothing has to count where nothing changed.
pub proof fn a_valid_tree_follows_itself(entries: Seq<EntryView>, root: NodeId, decodings: usize)
    requires
        tree_fault(entries, root, decodings) is None,
    ensures
        follows(entries, entries, root, decodings),
{
    valid_ids_are_unique(entries, root, decodings);
    assert forall|i: int| 0 <= i < entries.len() implies #[trigger] change_fault(
        entries,
        entries,
        i,
    ) is None && member_fault(entries, entries, i) is None by {
        id_is_at(entries, i);
    }
    assert forall|i: int| 0 <= i < entries.len() implies #[trigger] member_fault(
        entries,
        entries,
        i,
    ) is None by {
        assert(change_fault(entries, entries, i) is None);
    }
}

/// What generations promise of a node that is in both trees: its generation counts one where
/// its payload changed and stays where it did not, and so does the generation of a
/// directory's entries with its members.
pub proof fn generations_tell_changes(
    previous: Seq<EntryView>,
    next: Seq<EntryView>,
    root: NodeId,
    decodings: usize,
    old_place: int,
    place: int,
)
    requires
        follows(previous, next, root, decodings),
        0 <= old_place < previous.len(),
        0 <= place < next.len(),
        previous[old_place].node.id == next[place].node.id,
    ensures
        ({
            let old_node = previous[old_place].node;
            let node = next[place].node;
            &&& old_node.body is Dir == node.body is Dir
            &&& node.generation@ == old_node.generation@ + (if payload_changed(old_node, node) {
                1int
            } else {
                0
            })
            &&& node.body is Dir ==> node.body->Dir_0.entries_generation@
                == old_node.body->Dir_0.entries_generation@ + (if children(previous, node.id)
                != children(next, node.id) {
                1int
            } else {
                0
            })
        }),
{
    valid_ids_are_unique(previous, root, decodings);
    id_is_at(previous, old_place);
    assert(change_fault(previous, next, place) is None);
    assert(member_fault(previous, next, place) is None);
}

} // verus!
