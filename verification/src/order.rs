//! A total order on keys, and a stable sort by it.

use vstd::prelude::*;

verus! {

/// Whether key `a` comes strictly before key `b`: the lexicographic order.
pub open spec fn before(a: Seq<int>, b: Seq<int>) -> bool
    decreases a.len(),
{
    if b.len() == 0 {
        false
    } else if a.len() == 0 {
        true
    } else if a[0] != b[0] {
        a[0] < b[0]
    } else {
        before(a.skip(1), b.skip(1))
    }
}

/// Whether key `a` does not come after key `b`.
pub open spec fn not_after(a: Seq<int>, b: Seq<int>) -> bool {
    !before(b, a)
}

/// No key comes before itself.
pub proof fn before_irreflexive(a: Seq<int>)
    ensures
        !before(a, a),
    decreases a.len(),
{
    if a.len() > 0 {
        before_irreflexive(a.skip(1));
    }
}

/// The order is transitive.
pub proof fn before_transitive(a: Seq<int>, b: Seq<int>, c: Seq<int>)
    requires
        before(a, b),
        before(b, c),
    ensures
        before(a, c),
    decreases a.len(),
{
    if a.len() > 0 && b.len() > 0 && c.len() > 0 && a[0] == b[0] && b[0] == c[0] {
        before_transitive(a.skip(1), b.skip(1), c.skip(1));
    }
}

/// Of two different keys one comes before the other.
pub proof fn before_total(a: Seq<int>, b: Seq<int>)
    ensures
        before(a, b) || before(b, a) || a == b,
    decreases a.len(),
{
    if a.len() > 0 && b.len() > 0 && a[0] == b[0] {
        before_total(a.skip(1), b.skip(1));
        if a.skip(1) == b.skip(1) {
            assert(a =~= seq![a[0]] + a.skip(1));
            assert(b =~= seq![b[0]] + b.skip(1));
        }
    } else if a.len() == 0 && b.len() == 0 {
        assert(a =~= b);
    }
}

/// Two keys never precede each other.
pub proof fn before_asymmetric(a: Seq<int>, b: Seq<int>)
    ensures
        !(before(a, b) && before(b, a)),
{
    if before(a, b) && before(b, a) {
        before_transitive(a, b, a);
        before_irreflexive(a);
    }
}

/// A key that does not come after a second one comes before all that follow it.
pub proof fn not_after_before(a: Seq<int>, b: Seq<int>, c: Seq<int>)
    requires
        not_after(a, b),
        before(b, c),
    ensures
        before(a, c),
{
    before_total(a, b);
    if before(a, b) {
        before_transitive(a, b, c);
    }
}

/// A key that comes before a second one comes before all that do not precede that.
pub proof fn before_not_after(a: Seq<int>, b: Seq<int>, c: Seq<int>)
    requires
        before(a, b),
        not_after(b, c),
    ensures
        before(a, c),
{
    before_total(b, c);
    if before(b, c) {
        before_transitive(a, b, c);
    }
}

/// The order without strictness is transitive too.
pub proof fn not_after_transitive(a: Seq<int>, b: Seq<int>, c: Seq<int>)
    requires
        not_after(a, b),
        not_after(b, c),
    ensures
        not_after(a, c),
{
    if before(c, a) {
        before_not_after(c, a, b);
    }
}

/// Keys that agree on their first `count` places compare as what follows.
pub proof fn before_after_prefix(a: Seq<int>, b: Seq<int>, count: nat)
    requires
        count <= a.len(),
        count <= b.len(),
        forall|i: int| 0 <= i < count ==> a[i] == b[i],
    ensures
        before(a, b) == before(a.skip(count as int), b.skip(count as int)),
    decreases count,
{
    if count == 0 {
        assert(a.skip(0) =~= a);
        assert(b.skip(0) =~= b);
    } else {
        before_after_prefix(a, b, (count - 1) as nat);
        let x = a.skip(count - 1);
        let y = b.skip(count - 1);
        assert(x[0] == a[count - 1] && y[0] == b[count - 1]);
        assert(x.skip(1) =~= a.skip(count as int));
        assert(y.skip(1) =~= b.skip(count as int));
    }
}

/// Something that is ordered by a key.
pub trait Ranked: Sized {
    /// The key.
    spec fn rank(&self) -> Seq<int>;

    /// Whether this item's key comes strictly before the other's.
    fn precedes(&self, other: &Self) -> (result: bool)
        ensures
            result == before(self.rank(), other.rank()),
    ;
}

/// The items are in order; equal keys may stand next to each other.
pub open spec fn sorted<T: Ranked>(items: Seq<T>) -> bool {
    forall|i: int, j: int| 0 <= i < j < items.len() ==> #[trigger] not_after(items[i].rank(), #[trigger] items[j].rank())
}

/// The items are in order and no key occurs twice.
pub open spec fn strictly_sorted<T: Ranked>(items: Seq<T>) -> bool {
    forall|i: int, j: int| 0 <= i < j < items.len() ==> #[trigger] before(items[i].rank(), #[trigger] items[j].rank())
}

/// The items with a given key, in the order in which they stand.
pub open spec fn with_key<T: Ranked>(items: Seq<T>, key: Seq<int>) -> Seq<T> {
    items.filter(has_key(key))
}

/// The test for a key.
pub open spec fn has_key<T: Ranked>(key: Seq<int>) -> spec_fn(T) -> bool {
    |item: T| item.rank() == key
}

/// Selecting by key commutes with joining two sequences.
pub proof fn with_key_joined<T: Ranked>(left: Seq<T>, right: Seq<T>, key: Seq<int>)
    ensures
        with_key(left + right, key) == with_key(left, key) + with_key(right, key),
{
    Seq::filter_distributes_over_add(left, right, has_key::<T>(key));
}

/// Nothing is selected where no item has the key.
pub proof fn with_key_absent<T: Ranked>(items: Seq<T>, key: Seq<int>)
    requires
        forall|i: int| 0 <= i < items.len() ==> #[trigger] items[i].rank() != key,
    ensures
        with_key(items, key) == Seq::<T>::empty(),
    decreases items.len(),
{
    reveal(Seq::filter);
    if items.len() > 0 {
        with_key_absent(items.drop_last(), key);
    }
}

/// Whether two sequences hold the same items, equal keys in the same order.
pub open spec fn same_by_key<T: Ranked>(left: Seq<T>, right: Seq<T>) -> bool {
    forall|key: Seq<int>| #[trigger] with_key(left, key) == with_key(right, key)
}

/// Moving one item behind a block with other keys changes no selection.
pub proof fn with_key_swapped<T: Ranked>(head: Seq<T>, item: T, block: Seq<T>, tail: Seq<T>)
    requires
        forall|i: int| 0 <= i < block.len() ==> #[trigger] block[i].rank() != item.rank(),
    ensures
        same_by_key(head + seq![item] + block + tail, head + block + seq![item] + tail),
{
    let one = seq![item];
    assert forall|key: Seq<int>| #[trigger]
        with_key(head + one + block + tail, key) == with_key(head + block + one + tail, key) by {
        with_key_joined(head + one + block, tail, key);
        with_key_joined(head + one, block, key);
        with_key_joined(head, one, key);
        with_key_joined(head + block + one, tail, key);
        with_key_joined(head + block, one, key);
        with_key_joined(head, block, key);
        if key == item.rank() {
            with_key_absent(block, key);
        } else {
            with_key_absent(one, key);
        }
        assert(with_key(head, key) + with_key(one, key) + with_key(block, key) =~= with_key(
            head,
            key,
        ) + with_key(block, key) + with_key(one, key));
    }
}

/// The items back to front.
pub(crate) fn reversed<T>(items: Vec<T>) -> (result: Vec<T>)
    ensures
        result@ == items@.reverse(),
{
    let mut items = items;
    let ghost original = items@;
    let mut result: Vec<T> = Vec::new();
    while items.len() > 0
        invariant
            items@.len() + result@.len() == original.len(),
            items@ == original.take(items@.len() as int),
            result@ == original.skip(items@.len() as int).reverse(),
        decreases items@.len(),
    {
        let item = items.pop();
        if let Some(item) = item {
            result.push(item);
            assert(result@ =~= original.skip(items@.len() as int).reverse());
        }
    }
    assert(original.skip(0) =~= original);
    result
}

/// Two ordered sequences as one; of equal keys those of `left` come first.
fn merged<T: Ranked>(left: Vec<T>, right: Vec<T>) -> (result: Vec<T>)
    requires
        sorted(left@),
        sorted(right@),
    ensures
        sorted(result@),
        same_by_key(left@ + right@, result@),
{
    let mut left = left;
    let mut right = right;
    let ghost whole = left@ + right@;
    // The tail of the result, last item first.
    let mut tail: Vec<T> = Vec::new();
    while left.len() > 0 && right.len() > 0
        invariant
            sorted(left@),
            sorted(right@),
            sorted(tail@.reverse()),
            forall|i: int, j: int| 0 <= i < left@.len() && 0 <= j < tail@.len() ==> not_after(
                #[trigger] left@[i].rank(), #[trigger] tail@[j].rank()),
            forall|i: int, j: int| 0 <= i < right@.len() && 0 <= j < tail@.len() ==> not_after(
                #[trigger] right@[i].rank(), #[trigger] tail@[j].rank()),
            same_by_key(whole, left@ + right@ + tail@.reverse()),
        decreases left@.len() + right@.len(),
    {
        let last_left: usize = left.len() - 1;
        let last_right: usize = right.len() - 1;
        let ghost before_step = left@ + right@ + tail@.reverse();
        if right[last_right].precedes(&left[last_left]) {
            let ghost old_left = left@;
            let ghost item = left@.last();
            proof {
                assert forall|i: int| 0 <= i < right@.len() implies before(#[trigger] right@[i].rank(), item.rank()) by {
                    if i < right@.len() - 1 {
                        assert(not_after(right@[i].rank(), right@[right@.len() - 1].rank()));
                        not_after_before(right@[i].rank(), right@[right@.len() - 1].rank(), item.rank());
                    }
                }
                assert forall|i: int| 0 <= i < right@.len() implies #[trigger] right@[i].rank() != item.rank() by {
                    before_irreflexive(item.rank());
                }
                with_key_swapped(left@.drop_last(), item, right@, tail@.reverse());
                assert(left@.drop_last() + seq![item] =~= left@);
            }
            let ghost old_tail = tail@;
            if let Some(item) = left.pop() {
                tail.push(item);
            }
            proof {
                assert(tail@.reverse() =~= seq![item] + old_tail.reverse());
                assert(left@ + right@ + tail@.reverse() =~= old_left.drop_last() + right@ + seq![item] + old_tail.reverse());
                assert forall|key: Seq<int>| #[trigger] with_key(whole, key) == with_key(left@ + right@ + tail@.reverse(), key) by {
                    assert(with_key(whole, key) == with_key(before_step, key));
                }
                assert forall|i: int, j: int| 0 <= i < right@.len() && 0 <= j < tail@.len() implies not_after(
                    #[trigger] right@[i].rank(), #[trigger] tail@[j].rank()) by {
                    if j == tail@.len() - 1 {
                        before_asymmetric(right@[i].rank(), item.rank());
                    }
                }
            }
        } else {
            let ghost old_right = right@;
            let ghost item = right@.last();
            let ghost old_tail = tail@;
            proof {
                assert forall|i: int| 0 <= i < left@.len() implies not_after(#[trigger] left@[i].rank(), item.rank()) by {
                    if i < left@.len() - 1 {
                        not_after_transitive(left@[i].rank(), left@[left@.len() - 1].rank(), item.rank());
                    }
                }
            }
            if let Some(item) = right.pop() {
                tail.push(item);
            }
            proof {
                assert(tail@.reverse() =~= seq![item] + old_tail.reverse());
                assert(left@ + right@ + tail@.reverse() =~= before_step);
            }
        }
    }
    let mut head: Vec<T> = if left.len() > 0 { left } else { right };
    let ghost front = head@;
    proof {
        assert(front + tail@.reverse() =~= left@ + right@ + tail@.reverse());
    }
    let mut rest = reversed(tail);
    head.append(&mut rest);
    head
}

/// The items in the order of their keys, equal keys in the order in which they stood.
pub fn sort<T: Ranked>(items: Vec<T>) -> (result: Vec<T>)
    ensures
        sorted(result@),
        same_by_key(items@, result@),
    decreases items@.len(),
{
    if items.len() <= 1 {
        return items;
    }
    let mut left = items;
    let ghost whole = left@;
    let half: usize = left.len() / 2;
    let right = left.split_off(half);
    let ghost first = left@;
    let ghost second = right@;
    assert(first + second =~= whole);
    let left = sort(left);
    let right = sort(right);
    let result = merged(left, right);
    proof {
        assert forall|key: Seq<int>| #[trigger] with_key(whole, key) == with_key(result@, key) by {
            with_key_joined(first, second, key);
            with_key_joined(left@, right@, key);
            assert(with_key(first, key) == with_key(left@, key));
            assert(with_key(second, key) == with_key(right@, key));
            assert(with_key(left@ + right@, key) == with_key(result@, key));
        }
    }
    result
}

/// Selecting by the key of an item keeps how often the item occurs.
proof fn with_key_keeps_count<T: Ranked>(items: Seq<T>, item: T)
    ensures
        with_key(items, item.rank()).to_multiset().count(item) == items.to_multiset().count(item),
    decreases items.len(),
{
    broadcast use vstd::multiset::group_multiset_axioms;
    broadcast use vstd::seq_lib::group_to_multiset_ensures;

    reveal(Seq::filter);
    if items.len() > 0 {
        let rest = items.drop_last();
        with_key_keeps_count(rest, item);
        assert(items =~= rest.push(items.last()));
        assert(items.to_multiset() =~= rest.to_multiset().insert(items.last()));
        if items.last().rank() == item.rank() {
            assert(with_key(items, item.rank()).to_multiset() =~= with_key(
                rest,
                item.rank(),
            ).to_multiset().insert(items.last()));
        }
    } else {
        assert(with_key(items, item.rank()) =~= items);
    }
}

/// Sequences that agree by key hold the same items, each as often.
pub proof fn same_by_key_same_items<T: Ranked>(left: Seq<T>, right: Seq<T>)
    requires
        same_by_key(left, right),
    ensures
        left.to_multiset() == right.to_multiset(),
        left.len() == right.len(),
        forall|item: T| #[trigger] left.contains(item) <==> right.contains(item),
{
    broadcast use vstd::seq_lib::group_to_multiset_ensures;

    assert forall|item: T| #[trigger]
        left.to_multiset().count(item) == right.to_multiset().count(item) by {
        with_key_keeps_count(left, item);
        with_key_keeps_count(right, item);
        assert(with_key(left, item.rank()) == with_key(right, item.rank()));
    }
    assert(left.to_multiset() =~= right.to_multiset());
    assert forall|item: T| #[trigger] left.contains(item) <==> right.contains(item) by {
        assert(left.contains(item) <==> left.to_multiset().count(item) > 0);
        assert(right.contains(item) <==> right.to_multiset().count(item) > 0);
    }
    assert(left.len() == left.to_multiset().len());
    assert(right.len() == right.to_multiset().len());
}

/// All are selected where all have the key.
pub proof fn with_key_all<T: Ranked>(items: Seq<T>, key: Seq<int>)
    requires
        forall|i: int| 0 <= i < items.len() ==> #[trigger] items[i].rank() == key,
    ensures
        with_key(items, key) == items,
    decreases items.len(),
{
    reveal(Seq::filter);
    if items.len() > 0 {
        with_key_all(items.drop_last(), key);
        assert(items =~= items.drop_last().push(items.last()));
    } else {
        assert(with_key(items, key) =~= items);
    }
}

/// In an ordered sequence the items of one key form a block.
pub proof fn with_key_is_block<T: Ranked>(items: Seq<T>, key: Seq<int>, low: int, high: int)
    requires
        0 <= low <= high <= items.len(),
        forall|i: int| 0 <= i < low ==> before(#[trigger] items[i].rank(), key),
        forall|i: int| low <= i < high ==> #[trigger] items[i].rank() == key,
        forall|i: int| high <= i < items.len() ==> before(key, #[trigger] items[i].rank()),
    ensures
        with_key(items, key) == items.subrange(low, high),
{
    let a = items.take(low);
    let b = items.subrange(low, high);
    let c = items.skip(high);
    assert(items =~= a + b + c);
    before_irreflexive(key);
    with_key_joined(a + b, c, key);
    with_key_joined(a, b, key);
    with_key_absent(a, key);
    with_key_absent(c, key);
    with_key_all(b, key);
    assert(Seq::<T>::empty() + b + Seq::<T>::empty() =~= b);
}

/// The place of the first item whose key does not come before that of `probe`.
pub fn lower_bound<T: Ranked>(items: &Vec<T>, probe: &T) -> (place: usize)
    requires
        sorted(items@),
    ensures
        place <= items@.len(),
        forall|i: int| 0 <= i < place ==> before(#[trigger] items@[i].rank(), probe.rank()),
        forall|i: int|
            place <= i < items@.len() ==> !before(#[trigger] items@[i].rank(), probe.rank()),
{
    let mut low: usize = 0;
    let mut high: usize = items.len();
    while low < high
        invariant
            low <= high <= items@.len(),
            sorted(items@),
            forall|i: int| 0 <= i < low ==> before(#[trigger] items@[i].rank(), probe.rank()),
            forall|i: int|
                high <= i < items@.len() ==> !before(#[trigger] items@[i].rank(), probe.rank()),
        decreases high - low,
    {
        let middle: usize = low + (high - low) / 2;
        if items[middle].precedes(probe) {
            proof {
                assert forall|i: int| 0 <= i < middle + 1 implies before(
                    #[trigger] items@[i].rank(),
                    probe.rank(),
                ) by {
                    if i < middle {
                        not_after_before(
                            items@[i].rank(),
                            items@[middle as int].rank(),
                            probe.rank(),
                        );
                    }
                }
            }
            low = middle + 1;
        } else {
            proof {
                assert forall|i: int| middle <= i < items@.len() implies !before(
                    #[trigger] items@[i].rank(),
                    probe.rank(),
                ) by {
                    if i > middle && before(items@[i].rank(), probe.rank()) {
                        not_after_before(
                            items@[middle as int].rank(),
                            items@[i].rank(),
                            probe.rank(),
                        );
                    }
                }
            }
            high = middle;
        }
    }
    low
}

/// The place of the first item whose key comes after that of `probe`.
pub fn upper_bound<T: Ranked>(items: &Vec<T>, probe: &T) -> (place: usize)
    requires
        sorted(items@),
    ensures
        place <= items@.len(),
        forall|i: int| 0 <= i < place ==> !before(probe.rank(), #[trigger] items@[i].rank()),
        forall|i: int|
            place <= i < items@.len() ==> before(probe.rank(), #[trigger] items@[i].rank()),
{
    let mut low: usize = 0;
    let mut high: usize = items.len();
    while low < high
        invariant
            low <= high <= items@.len(),
            sorted(items@),
            forall|i: int| 0 <= i < low ==> !before(probe.rank(), #[trigger] items@[i].rank()),
            forall|i: int|
                high <= i < items@.len() ==> before(probe.rank(), #[trigger] items@[i].rank()),
        decreases high - low,
    {
        let middle: usize = low + (high - low) / 2;
        if probe.precedes(&items[middle]) {
            proof {
                assert forall|i: int| middle <= i < items@.len() implies before(
                    probe.rank(),
                    #[trigger] items@[i].rank(),
                ) by {
                    if i > middle {
                        before_not_after(
                            probe.rank(),
                            items@[middle as int].rank(),
                            items@[i].rank(),
                        );
                    }
                }
            }
            high = middle;
        } else {
            proof {
                assert forall|i: int| 0 <= i < middle + 1 implies !before(
                    probe.rank(),
                    #[trigger] items@[i].rank(),
                ) by {
                    if i < middle && before(probe.rank(), items@[i].rank()) {
                        before_not_after(
                            probe.rank(),
                            items@[i].rank(),
                            items@[middle as int].rank(),
                        );
                    }
                }
            }
            low = middle + 1;
        }
    }
    low
}

/// The items between the two bounds of a key are those with the key.
pub proof fn bounds_delimit_key<T: Ranked>(items: Seq<T>, key: Seq<int>, low: int, high: int)
    requires
        0 <= low <= items.len(),
        0 <= high <= items.len(),
        forall|i: int| 0 <= i < low ==> before(#[trigger] items[i].rank(), key),
        forall|i: int| low <= i < items.len() ==> !before(#[trigger] items[i].rank(), key),
        forall|i: int| 0 <= i < high ==> !before(key, #[trigger] items[i].rank()),
        forall|i: int| high <= i < items.len() ==> before(key, #[trigger] items[i].rank()),
    ensures
        low <= high,
        with_key(items, key) == items.subrange(low, high),
{
    if high < low {
        assert(before(items[high].rank(), key));
        before_asymmetric(items[high].rank(), key);
    }
    assert forall|i: int| low <= i < high implies #[trigger] items[i].rank() == key by {
        before_total(items[i].rank(), key);
    }
    with_key_is_block(items, key, low, high);
}

/// Keys of one length followed by second keys compare by the first, then by the second.
pub proof fn before_of_pairs(a: Seq<int>, x: Seq<int>, b: Seq<int>, y: Seq<int>)
    requires
        a.len() == b.len(),
    ensures
        before(a + x, b + y) == (before(a, b) || (a == b && before(x, y))),
    decreases a.len(),
{
    if a.len() == 0 {
        assert(a + x =~= x);
        assert(b + y =~= y);
        assert(a =~= b);
    } else {
        let p = a + x;
        let q = b + y;
        assert(p[0] == a[0] && q[0] == b[0]);
        assert(p.skip(1) =~= a.skip(1) + x);
        assert(q.skip(1) =~= b.skip(1) + y);
        before_of_pairs(a.skip(1), x, b.skip(1), y);
        if a[0] == b[0] {
            if a.skip(1) == b.skip(1) {
                assert(a =~= seq![a[0]] + a.skip(1));
                assert(b =~= seq![b[0]] + b.skip(1));
                before_irreflexive(a);
            }
        }
    }
}

/// A key followed by a second one, with a mark between them that comes before every number.
pub open spec fn pair_key(first: Seq<int>, second: Seq<int>) -> Seq<int> {
    first + seq![-1int] + second
}

/// Keys of natural numbers that are followed by second keys compare by the first, then by the
/// second.
pub proof fn before_of_pair_keys(a: Seq<int>, x: Seq<int>, b: Seq<int>, y: Seq<int>)
    requires
        forall|i: int| 0 <= i < a.len() ==> #[trigger] a[i] >= 0,
        forall|i: int| 0 <= i < b.len() ==> #[trigger] b[i] >= 0,
    ensures
        before(pair_key(a, x), pair_key(b, y)) == (before(a, b) || (a == b && before(x, y))),
        pair_key(a, x) == pair_key(b, y) <==> a == b && x == y,
    decreases a.len(),
{
    let p = pair_key(a, x);
    let q = pair_key(b, y);
    if a.len() == 0 {
        assert(p[0] == -1);
        assert(p.skip(1) =~= x);
        if b.len() == 0 {
            assert(a =~= b);
            assert(q[0] == -1);
            assert(q.skip(1) =~= y);
            before_irreflexive(a);
        } else {
            assert(q[0] == b[0]);
        }
    } else {
        assert(p[0] == a[0]);
        assert(p.skip(1) =~= pair_key(a.skip(1), x));
        if b.len() == 0 {
            assert(q[0] == -1);
        } else {
            assert(q[0] == b[0]);
            assert(q.skip(1) =~= pair_key(b.skip(1), y));
            before_of_pair_keys(a.skip(1), x, b.skip(1), y);
            if a[0] == b[0] && a.skip(1) == b.skip(1) {
                assert(a =~= seq![a[0]] + a.skip(1));
                assert(b =~= seq![b[0]] + b.skip(1));
                before_irreflexive(a);
            }
            if p == q {
                assert(a =~= seq![a[0]] + a.skip(1));
                assert(b =~= seq![b[0]] + b.skip(1));
            }
        }
    }
}

/// Some key occurs twice.
pub open spec fn repeats_key<T: Ranked>(items: Seq<T>) -> bool {
    exists|i: int, j: int|
        0 <= i < j < items.len() && #[trigger] items[i].rank() == #[trigger] items[j].rank()
}

/// An item with the key is selected.
pub proof fn with_key_finds<T: Ranked>(items: Seq<T>, place: int)
    requires
        0 <= place < items.len(),
    ensures
        with_key(items, items[place].rank()).len() > 0,
        with_key(items, items[place].rank()).contains(items[place]),
{
    items.lemma_filter_contains(has_key::<T>(items[place].rank()), place);
}

/// What is selected stands in the sequence and has the key.
pub proof fn with_key_selects<T: Ranked>(items: Seq<T>, key: Seq<int>, item: T)
    requires
        with_key(items, key).contains(item),
    ensures
        items.contains(item),
        item.rank() == key,
{
    items.lemma_filter_contains_rev(has_key::<T>(key), item);
    let place = choose|i: int|
        0 <= i < with_key(items, key).len() && with_key(items, key)[i] == item;
    items.lemma_filter_pred(has_key::<T>(key), place);
}

/// A key is selected at least twice if and only if it occurs at two places.
pub proof fn with_key_twice<T: Ranked>(items: Seq<T>, key: Seq<int>)
    ensures
        with_key(items, key).len() >= 2 <==> exists|i: int, j: int|
            0 <= i < j < items.len() && #[trigger] items[i].rank() == key
                && #[trigger] items[j].rank() == key,
    decreases items.len(),
{
    reveal(Seq::filter);
    if items.len() > 0 {
        let rest = items.drop_last();
        with_key_twice(rest, key);
        if with_key(items, key).len() >= 2 {
            if items.last().rank() == key {
                assert(with_key(rest, key).len() >= 1);
                let first = with_key(rest, key)[0];
                with_key_selects(rest, key, first);
                let i = choose|i: int| 0 <= i < rest.len() && rest[i] == first;
                let j = items.len() - 1;
                assert(items[i].rank() == key && items[j].rank() == key);
            } else {
                let (i, j) = choose|i: int, j: int|
                    0 <= i < j < rest.len() && #[trigger] rest[i].rank() == key
                        && #[trigger] rest[j].rank() == key;
                assert(items[i].rank() == key && items[j].rank() == key);
            }
        }
        if exists|i: int, j: int|
            0 <= i < j < items.len() && #[trigger] items[i].rank() == key
                && #[trigger] items[j].rank() == key {
            let (i, j) = choose|i: int, j: int|
                0 <= i < j < items.len() && #[trigger] items[i].rank() == key
                    && #[trigger] items[j].rank() == key;
            assert(rest[i] == items[i]);
            if j < items.len() - 1 {
                assert(rest[j] == items[j]);
            } else {
                with_key_finds(rest, i);
            }
        }
    }
}

/// Agreement by key keeps whether a key repeats.
pub proof fn same_by_key_same_repeats<T: Ranked>(left: Seq<T>, right: Seq<T>)
    requires
        same_by_key(left, right),
    ensures
        repeats_key(left) <==> repeats_key(right),
{
    if repeats_key(left) {
        let (i, j) = choose|i: int, j: int|
            0 <= i < j < left.len() && #[trigger] left[i].rank() == #[trigger] left[j].rank();
        with_key_twice(left, left[i].rank());
        with_key_twice(right, left[i].rank());
        assert(with_key(left, left[i].rank()) == with_key(right, left[i].rank()));
    }
    if repeats_key(right) {
        let (i, j) = choose|i: int, j: int|
            0 <= i < j < right.len() && #[trigger] right[i].rank() == #[trigger] right[j].rank();
        with_key_twice(left, right[i].rank());
        with_key_twice(right, right[i].rank());
        assert(with_key(left, right[i].rank()) == with_key(right, right[i].rank()));
    }
}

/// Whether some key occurs twice among the items.
pub fn has_repeated_key<T: Ranked>(items: Vec<T>) -> (result: bool)
    ensures
        result == repeats_key(items@),
{
    let ghost original = items@;
    let ordered = sort(items);
    proof {
        same_by_key_same_repeats(original, ordered@);
    }
    let mut index: usize = 1;
    while index < ordered.len()
        invariant
            1 <= index,
            ordered@.len() > 0 ==> index <= ordered@.len(),
            sorted(ordered@),
            original == items@,
            repeats_key(original) <==> repeats_key(ordered@),
            forall|k: int|
                1 <= k < index ==> before(ordered@[k - 1].rank(), #[trigger] ordered@[k].rank()),
        decreases ordered@.len() - index,
    {
        if !ordered[index - 1].precedes(&ordered[index]) {
            proof {
                assert(not_after(ordered@[index - 1].rank(), ordered@[index as int].rank()));
                before_total(ordered@[index - 1].rank(), ordered@[index as int].rank());
                let previous = index - 1;
                assert(ordered@[previous].rank() == ordered@[index as int].rank());
            }
            return true;
        }
        index += 1;
    }
    proof {
        if repeats_key(ordered@) {
            let (i, j) = choose|i: int, j: int|
                0 <= i < j < ordered@.len() && #[trigger] ordered@[i].rank()
                    == #[trigger] ordered@[j].rank();
            assert(before(ordered@[j - 1].rank(), ordered@[j].rank()));
            if i < j - 1 {
                not_after_before(ordered@[i].rank(), ordered@[j - 1].rank(), ordered@[j].rank());
            }
            before_irreflexive(ordered@[j].rank());
        }
    }
    false
}

} // verus!
