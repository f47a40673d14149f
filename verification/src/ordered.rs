//! Cursors over ordered streams: merges, joins, and the removal of repeated keys.

use vstd::multiset::Multiset;
use vstd::prelude::*;

use crate::order::{
    before, before_irreflexive, before_total, not_after, not_after_transitive, reversed,
    same_by_key, sorted, strictly_sorted, with_key_swapped, Ranked,
};

verus! {

pub open spec fn sources_view<T>(sources: Seq<Vec<T>>) -> Seq<Seq<T>> {
    Seq::new(sources.len(), |i: int| sources[i]@)
}

/// All items of the sources.
pub open spec fn all_items<T>(sources: Seq<Seq<T>>) -> Multiset<T>
    decreases sources.len(),
{
    if sources.len() == 0 {
        Multiset::empty()
    } else {
        all_items(sources.drop_last()).add(sources.last().to_multiset())
    }
}

/// The items of the sources one source after the other.
pub open spec fn in_turn<T>(sources: Seq<Seq<T>>) -> Seq<T>
    decreases sources.len(),
{
    if sources.len() == 0 {
        Seq::empty()
    } else {
        in_turn(sources.drop_last()) + sources.last()
    }
}

/// The items of two lists of sources in turn.
pub proof fn in_turn_joined<T>(front: Seq<Seq<T>>, back: Seq<Seq<T>>)
    ensures
        in_turn(front + back) == in_turn(front) + in_turn(back),
    decreases back.len(),
{
    if back.len() == 0 {
        assert(front + back =~= front);
        assert(in_turn(front) + in_turn(back) =~= in_turn(front));
    } else {
        assert((front + back).drop_last() =~= front + back.drop_last());
        in_turn_joined(front, back.drop_last());
        assert(in_turn(front + back) =~= in_turn(front) + in_turn(back));
    }
}

/// One more source comes behind the others.
pub proof fn in_turn_pushed<T>(sources: Seq<Seq<T>>, more: Seq<T>)
    ensures
        in_turn(sources.push(more)) == in_turn(sources) + more,
{
    assert(sources.push(more).drop_last() =~= sources);
}

/// The items of one source.
pub proof fn in_turn_of_one<T>(source: Seq<T>)
    ensures
        in_turn(seq![source]) == source,
{
    let none = Seq::<Seq<T>>::empty();
    in_turn_pushed(none, source);
    assert(none.push(source) =~= seq![source]);
    assert(in_turn(none) + source =~= source);
}

/// The items in turn are all items.
pub proof fn all_items_in_turn<T>(sources: Seq<Seq<T>>)
    ensures
        in_turn(sources).to_multiset() == all_items(sources),
    decreases sources.len(),
{
    broadcast use vstd::seq_lib::group_to_multiset_ensures;

    if sources.len() > 0 {
        all_items_in_turn(sources.drop_last());
        vstd::seq_lib::lemma_multiset_commutative(in_turn(sources.drop_last()), sources.last());
    } else {
        assert(in_turn(sources).to_multiset() =~= Multiset::empty());
    }
}

/// The first item of one source comes no later than that of another; of equal keys the
/// earlier source goes first.
pub open spec fn leads<T: Ranked>(rest: Seq<Seq<T>>, source: int, other: int) -> bool {
    rest[other].len() > 0 ==> {
        ||| before(rest[source][0].rank(), rest[other][0].rank())
        ||| rest[source][0].rank() == rest[other][0].rank() && source <= other
    }
}

/// The source whose first item is next.
pub open spec fn is_next<T: Ranked>(rest: Seq<Seq<T>>, source: int) -> bool {
    &&& 0 <= source < rest.len()
    &&& rest[source].len() > 0
    &&& forall|other: int| 0 <= other < rest.len() ==> #[trigger] leads(rest, source, other)
}

pub open spec fn exhausted<T>(rest: Seq<Seq<T>>) -> bool {
    forall|i: int| 0 <= i < rest.len() ==> (#[trigger] rest[i]).len() == 0
}

/// The first items with a key, in the order of their sources.
pub open spec fn heads_with<T: Ranked>(rest: Seq<Seq<T>>, key: Seq<int>, count: nat) -> Seq<
    (usize, T),
>
    decreases count,
{
    if count == 0 {
        Seq::empty()
    } else {
        let place = count - 1;
        let earlier = heads_with(rest, key, (count - 1) as nat);
        if rest[place].len() > 0 && rest[place][0].rank() == key {
            earlier.push((place as usize, rest[place][0]))
        } else {
            earlier
        }
    }
}

/// The sources behind their first items with a key.
pub open spec fn without_heads<T: Ranked>(rest: Seq<Seq<T>>, key: Seq<int>) -> Seq<Seq<T>> {
    Seq::new(
        rest.len(),
        |i: int|
            if rest[i].len() > 0 && rest[i][0].rank() == key {
                rest[i].skip(1)
            } else {
                rest[i]
            },
    )
}

/// The first items with the key of the leading source, and what is left behind them.
pub open spec fn are_heads<T: Ranked>(
    rest: Seq<Seq<T>>,
    source: int,
    group: Seq<(usize, T)>,
    left: Seq<Seq<T>>,
) -> bool {
    let key = rest[source][0].rank();
    &&& group == heads_with(rest, key, rest.len())
    &&& group.len() > 0
    &&& left == without_heads(rest, key)
}

/// What is left of the sources behind items that were taken one after the other.
pub open spec fn behind<T>(rest: Seq<Seq<T>>, taken: Seq<(usize, T)>) -> Seq<Seq<T>>
    decreases taken.len(),
{
    if taken.len() == 0 {
        rest
    } else {
        let left = behind(rest, taken.drop_last());
        let source = taken.last().0 as int;
        left.update(source, left[source].skip(1))
    }
}

/// One of the items taken was the next of the merge when its turn came, and has the key.
pub open spec fn is_taken<T: Ranked>(
    rest: Seq<Seq<T>>,
    key: Seq<int>,
    taken: Seq<(usize, T)>,
    n: int,
) -> bool {
    let left = behind(rest, taken.take(n));
    let source = taken[n].0 as int;
    &&& is_next(left, source)
    &&& taken[n].1 == left[source][0]
    &&& taken[n].1.rank() == key
}

pub open spec fn all_taken<T: Ranked>(
    rest: Seq<Seq<T>>,
    key: Seq<int>,
    taken: Seq<(usize, T)>,
) -> bool {
    forall|n: int| 0 <= n < taken.len() ==> #[trigger] is_taken(rest, key, taken, n)
}

/// The next item of the merge, if there is one, has another key.
pub open spec fn key_is_over<T: Ranked>(left: Seq<Seq<T>>, key: Seq<int>) -> bool {
    forall|source: int| #[trigger] is_next(left, source) ==> left[source][0].rank() != key
}

/// The items that a merge gives one after the other as long as they have the key of the next
/// one, and what is left behind them.
pub open spec fn is_group<T: Ranked>(
    rest: Seq<Seq<T>>,
    source: int,
    group: Seq<(usize, T)>,
    left: Seq<Seq<T>>,
) -> bool {
    let key = rest[source][0].rank();
    &&& group.len() > 0
    &&& all_taken(rest, key, group)
    &&& left == behind(rest, group)
    &&& key_is_over(left, key)
}

/// Merge of any number of ordered inputs.
pub struct OrderedMerge<T: Ranked> {
    sources: Vec<Vec<T>>,
}

impl<T: Ranked> OrderedMerge<T> {
    /// What is left of each input.
    pub closed spec fn rest(&self) -> Seq<Seq<T>> {
        Seq::new(self.sources@.len(), |i: int| self.sources@[i]@.reverse())
    }

    pub fn from_readers(readers: Vec<Vec<T>>) -> (merge: Self)
        ensures
            merge.rest() == sources_view(readers@),
    {
        let ghost given = readers@;
        let mut remaining = reversed(readers);
        let ghost backward = remaining@;
        let mut sources: Vec<Vec<T>> = Vec::new();
        while remaining.len() > 0
            invariant
                backward == given.reverse(),
                remaining@.len() + sources@.len() == given.len(),
                remaining@ == backward.take(remaining@.len() as int),
                forall|i: int|
                    0 <= i < sources@.len() ==> (#[trigger] sources@[i])@ == given[i]@.reverse(),
            decreases remaining@.len(),
        {
            let ghost count = sources@.len();
            let source = remaining.pop().unwrap();
            assert(source == given[count as int]);
            sources.push(reversed(source));
            assert(remaining@ =~= backward.take(remaining@.len() as int));
        }
        let merge = OrderedMerge { sources };
        proof {
            assert forall|i: int| 0 <= i < given.len() implies #[trigger] merge.rest()[i]
                == given[i]@ by {
                assert(sources@[i]@ == given[i]@.reverse());
                assert(given[i]@.reverse().reverse() =~= given[i]@);
            }
            assert(merge.rest() =~= sources_view(given));
        }
        merge
    }

    /// The next item of one source.
    fn head(&self, source: usize) -> (head: Option<&T>)
        requires
            source < self.rest().len(),
        ensures
            match head {
                Some(item) => self.rest()[source as int].len() > 0 && *item
                    == self.rest()[source as int][0],
                None => self.rest()[source as int].len() == 0,
            },
    {
        let count: usize = self.sources[source].len();
        assert(self.rest()[source as int] == self.sources@[source as int]@.reverse());
        if count == 0 {
            None
        } else {
            Some(&self.sources[source][count - 1])
        }
    }

    /// Take the next item of one source.
    fn take(&mut self, source: usize) -> (item: T)
        requires
            source < old(self).rest().len(),
            old(self).rest()[source as int].len() > 0,
        ensures
            item == old(self).rest()[source as int][0],
            final(self).rest() == old(self).rest().update(
                source as int,
                old(self).rest()[source as int].skip(1),
            ),
    {
        let ghost before = self.rest();
        let ghost stacks = self.sources@;
        assert(before[source as int] == stacks[source as int]@.reverse());
        let mut stack: Vec<T> = Vec::new();
        self.sources.set_and_swap(source, &mut stack);
        let ghost taken = stack@;
        let item = stack.pop().unwrap();
        self.sources.set(source, stack);
        proof {
            assert(taken.drop_last().reverse() =~= taken.reverse().skip(1));
            assert(self.rest() =~= before.update(source as int, before[source as int].skip(1)));
        }
        item
    }

    /// The source whose first item is next.
    fn next_source(&self) -> (result: Option<usize>)
        ensures
            match result {
                Some(source) => is_next(self.rest(), source as int),
                None => exhausted(self.rest()),
            },
    {
        let ghost rest = self.rest();
        let mut best: Option<usize> = None;
        let mut index: usize = 0;
        while index < self.sources.len()
            invariant
                rest == self.rest(),
                rest.len() == self.sources@.len(),
                index <= rest.len(),
                match best {
                    Some(source) => {
                        &&& source < index
                        &&& rest[source as int].len() > 0
                        &&& forall|other: int|
                            0 <= other < index ==> #[trigger] leads(rest, source as int, other)
                    },
                    None => forall|i: int| 0 <= i < index ==> (#[trigger] rest[i]).len() == 0,
                },
            decreases rest.len() - index,
        {
            if let Some(item) = self.head(index) {
                let better = match best {
                    None => true,
                    Some(source) => match self.head(source) {
                        Some(leader) => item.precedes(leader),
                        None => true,
                    },
                };
                proof {
                    if better {
                        assert forall|other: int| 0 <= other < index + 1 implies #[trigger] leads(
                            rest,
                            index as int,
                            other,
                        ) by {
                            if best is Some && other < index && rest[other].len() > 0 {
                                let source = best->0 as int;
                                assert(leads(rest, source, other));
                                not_after_before_pair(
                                    rest[index as int][0].rank(),
                                    rest[source][0].rank(),
                                    rest[other][0].rank(),
                                );
                            }
                        }
                    } else {
                        let source = best->0 as int;
                        before_total(rest[index as int][0].rank(), rest[source][0].rank());
                        assert(leads(rest, source, index as int));
                    }
                }
                if better {
                    best = Some(index);
                }
            }
            index += 1;
        }
        best
    }

    /// The next item of the merge and the input that it is from.
    pub fn next_with_source(&mut self) -> (result: Option<(usize, T)>)
        ensures
            match result {
                Some((source, item)) => {
                    let before = old(self).rest();
                    &&& is_next(before, source as int)
                    &&& item == before[source as int][0]
                    &&& final(self).rest() == before.update(
                        source as int,
                        before[source as int].skip(1),
                    )
                },
                None => exhausted(old(self).rest()) && final(self).rest() == old(self).rest(),
            },
    {
        match self.next_source() {
            None => None,
            Some(source) => {
                let item = self.take(source);
                Some((source, item))
            },
        }
    }

    /// The next items with one key, in the order in which the merge gives them.
    pub fn next_group(&mut self) -> (result: Option<Vec<(usize, T)>>)
        ensures
            final(self).rest().len() == old(self).rest().len() <= usize::MAX,
            match result {
                Some(group) => exists|source: int|
                    #[trigger] is_next(old(self).rest(), source) && is_group(
                        old(self).rest(),
                        source,
                        group@,
                        final(self).rest(),
                    ),
                None => exhausted(old(self).rest()) && final(self).rest() == old(self).rest(),
            },
    {
        let ghost start = self.rest();
        let count: usize = self.sources.len();
        let (source, first) = match self.next_with_source() {
            Some(next) => next,
            None => {
                return None;
            },
        };
        let ghost key = first.rank();
        let mut group: Vec<(usize, T)> = Vec::new();
        let ghost before_first = group@;
        group.push((source, first));
        proof {
            taken_pushed(start, key, before_first, group@.last());
        }
        loop
            invariant
                count == start.len(),
                self.rest().len() == start.len(),
                group@.len() > 0,
                group@[0].1.rank() == key,
                all_taken(start, key, group@),
                self.rest() == behind(start, group@),
            ensures
                self.rest().len() == start.len(),
                group@.len() > 0,
                all_taken(start, key, group@),
                self.rest() == behind(start, group@),
                key_is_over(self.rest(), key),
            decreases all_items(self.rest()).len(),
        {
            broadcast use vstd::multiset::group_multiset_axioms;

            let ghost now = self.rest();
            let ghost so_far = group@;
            let next: usize = match self.next_source() {
                Some(next) => next,
                None => {
                    break ;
                },
            };
            let same = match self.head(next) {
                Some(item) => !group[0].1.precedes(item) && !item.precedes(&group[0].1),
                None => false,
            };
            proof {
                before_total(key, now[next as int][0].rank());
                before_irreflexive(key);
            }
            if !same {
                proof {
                    assert forall|other: int| #[trigger] is_next(now, other) implies now[other][0].rank()
                        != key by {
                        next_is_one(now, next as int, other);
                    }
                }
                break ;
            }
            let item = self.take(next);
            group.push((next, item));
            proof {
                all_items_without(now, next as int);
                taken_pushed(start, key, so_far, group@.last());
            }
        }
        proof {
            assert(is_taken(start, key, group@, 0));
            assert(group@.take(0) =~= Seq::empty());
            assert(is_next(start, group@[0].0 as int));
        }
        Some(group)
    }
}

/// One source is next.
proof fn next_is_one<T: Ranked>(rest: Seq<Seq<T>>, left: int, right: int)
    requires
        is_next(rest, left),
        is_next(rest, right),
    ensures
        left == right,
{
    assert(leads(rest, left, right));
    assert(leads(rest, right, left));
    crate::order::before_asymmetric(rest[left][0].rank(), rest[right][0].rank());
    before_irreflexive(rest[left][0].rank());
}

/// An item that is next and has the key can be taken behind those taken before.
proof fn taken_pushed<T: Ranked>(
    rest: Seq<Seq<T>>,
    key: Seq<int>,
    taken: Seq<(usize, T)>,
    more: (usize, T),
)
    requires
        all_taken(rest, key, taken),
        ({
            let left = behind(rest, taken);
            &&& is_next(left, more.0 as int)
            &&& more.1 == left[more.0 as int][0]
            &&& more.1.rank() == key
        }),
    ensures
        all_taken(rest, key, taken.push(more)),
        behind(rest, taken.push(more)) == behind(rest, taken).update(
            more.0 as int,
            behind(rest, taken)[more.0 as int].skip(1),
        ),
{
    let longer = taken.push(more);
    assert(longer.drop_last() =~= taken);
    assert forall|n: int| 0 <= n < longer.len() implies #[trigger] is_taken(rest, key, longer, n) by {
        assert(longer.take(n) =~= taken.take(n));
        if n < taken.len() {
            assert(is_taken(rest, key, taken, n));
        } else {
            assert(taken.take(n) =~= taken);
        }
    }
}

/// What a merge takes for a key is determined.
proof fn groups_are_one<T: Ranked>(
    rest: Seq<Seq<T>>,
    key: Seq<int>,
    left: Seq<(usize, T)>,
    right: Seq<(usize, T)>,
    count: int,
)
    requires
        all_taken(rest, key, left),
        all_taken(rest, key, right),
        key_is_over(behind(rest, left), key),
        key_is_over(behind(rest, right), key),
        0 <= count <= left.len(),
        count <= right.len(),
        left.take(count) == right.take(count),
    ensures
        left == right,
    decreases left.len() - count,
{
    if count == left.len() {
        assert(left.take(count) =~= left);
        if count < right.len() {
            assert(is_taken(rest, key, right, count));
            assert(false);
        }
        assert(right.take(count) =~= right);
    } else if count == right.len() {
        assert(right.take(count) =~= right);
        assert(is_taken(rest, key, left, count));
        assert(false);
    } else {
        assert(is_taken(rest, key, left, count));
        assert(is_taken(rest, key, right, count));
        next_is_one(
            behind(rest, left.take(count)),
            left[count].0 as int,
            right[count].0 as int,
        );
        assert(left[count] == right[count]);
        assert(left.take(count + 1) =~= left.take(count).push(left[count]));
        assert(right.take(count + 1) =~= right.take(count).push(right[count]));
        groups_are_one(rest, key, left, right, count + 1);
    }
}

/// The sources, of which the first ones stand behind their first items with a key.
spec fn cut<T: Ranked>(rest: Seq<Seq<T>>, key: Seq<int>, count: nat) -> Seq<Seq<T>> {
    Seq::new(
        rest.len(),
        |i: int|
            if i < count {
                without_heads(rest, key)[i]
            } else {
                rest[i]
            },
    )
}

/// Where keys rise in every source, the first items with a key are what a merge takes.
proof fn heads_are_taken<T: Ranked>(rest: Seq<Seq<T>>, source: int, count: nat)
    requires
        is_next(rest, source),
        count <= rest.len() <= usize::MAX,
        forall|i: int| 0 <= i < rest.len() ==> strictly_sorted(#[trigger] rest[i]),
    ensures
        ({
            let key = rest[source][0].rank();
            &&& all_taken(rest, key, heads_with(rest, key, count))
            &&& behind(rest, heads_with(rest, key, count)) == cut(rest, key, count)
        }),
    decreases count,
{
    let key = rest[source][0].rank();
    if count == 0 {
        assert(cut(rest, key, 0) =~= rest);
    } else {
        let place = count - 1;
        heads_are_taken(rest, source, place as nat);
        let earlier = heads_with(rest, key, place as nat);
        let now = cut(rest, key, place as nat);
        if rest[place].len() > 0 && rest[place][0].rank() == key {
            assert forall|other: int| 0 <= other < now.len() implies #[trigger] leads(
                now,
                place,
                other,
            ) by {
                if rest[other].len() > 0 {
                    assert(leads(rest, source, other));
                    if other < place && rest[other][0].rank() == key && now[other].len() > 0 {
                        assert(strictly_sorted(rest[other]));
                        assert(now[other][0] == rest[other][1]);
                        assert(before(rest[other][0].rank(), rest[other][1].rank()));
                    }
                }
            }
            taken_pushed(rest, key, earlier, (place as usize, rest[place][0]));
            assert(now.update(place, now[place].skip(1)) =~= cut(rest, key, count));
        } else {
            assert(now =~= cut(rest, key, count));
        }
    }
}

/// Where keys rise in every source, a group holds the first item with the key of each source.
pub proof fn rising_groups_are_heads<T: Ranked>(
    rest: Seq<Seq<T>>,
    source: int,
    group: Seq<(usize, T)>,
    left: Seq<Seq<T>>,
)
    requires
        is_next(rest, source),
        rest.len() <= usize::MAX,
        forall|i: int| 0 <= i < rest.len() ==> strictly_sorted(#[trigger] rest[i]),
        is_group(rest, source, group, left),
    ensures
        are_heads(rest, source, group, left),
{
    let key = rest[source][0].rank();
    let heads = heads_with(rest, key, rest.len());
    heads_are_taken(rest, source, rest.len());
    assert(cut(rest, key, rest.len()) =~= without_heads(rest, key));
    assert forall|place: int| #[trigger] is_next(without_heads(rest, key), place) implies
        without_heads(rest, key)[place][0].rank() != key by {
        assert(strictly_sorted(rest[place]));
        if rest[place][0].rank() == key {
            assert(before(rest[place][0].rank(), rest[place][1].rank()));
            before_irreflexive(key);
        }
    }
    assert(group.take(0) =~= heads.take(0));
    groups_are_one(rest, key, group, heads, 0);
}

/// Taking the next items keeps sources in order, and keeps all keys from coming before a key
/// that none comes before.
proof fn behind_stays_ordered<T: Ranked>(
    rest: Seq<Seq<T>>,
    key: Seq<int>,
    taken: Seq<(usize, T)>,
)
    requires
        forall|i: int| 0 <= i < rest.len() ==> sorted(#[trigger] rest[i]),
        forall|i: int, k: int|
            0 <= i < rest.len() && 0 <= k < rest[i].len() ==> not_after(
                key,
                (#[trigger] rest[i][k]).rank(),
            ),
        all_taken(rest, key, taken),
    ensures
        behind(rest, taken).len() == rest.len(),
        forall|i: int| 0 <= i < rest.len() ==> sorted(#[trigger] behind(rest, taken)[i]),
        forall|i: int, k: int|
            0 <= i < rest.len() && 0 <= k < behind(rest, taken)[i].len() ==> not_after(
                key,
                (#[trigger] behind(rest, taken)[i][k]).rank(),
            ),
    decreases taken.len(),
{
    if taken.len() > 0 {
        let fewer = taken.drop_last();
        assert forall|n: int| 0 <= n < fewer.len() implies #[trigger] is_taken(rest, key, fewer, n) by {
            assert(is_taken(rest, key, taken, n));
            assert(fewer.take(n) =~= taken.take(n));
        }
        behind_stays_ordered(rest, key, fewer);
        let left = behind(rest, fewer);
        let source = taken.last().0 as int;
        assert(is_taken(rest, key, taken, taken.len() - 1));
        assert(taken.take(taken.len() - 1) =~= fewer);
        let after = behind(rest, taken);
        assert forall|i: int| 0 <= i < rest.len() implies sorted(#[trigger] after[i]) by {
            assert(sorted(left[i]));
            if i == source {
                assert forall|a: int, b: int| 0 <= a < b < after[i].len() implies
                    #[trigger] not_after(after[i][a].rank(), #[trigger] after[i][b].rank()) by {
                    assert(not_after(left[i][a + 1].rank(), left[i][b + 1].rank()));
                }
            }
        }
        assert forall|i: int, k: int|
            0 <= i < rest.len() && 0 <= k < after[i].len() implies not_after(
            key,
            (#[trigger] after[i][k]).rank(),
        ) by {
            if i == source {
                assert(after[i][k] == left[i][k + 1]);
            } else {
                assert(after[i][k] == left[i][k]);
            }
        }
    }
}

proof fn some_source_is_next<T: Ranked>(rest: Seq<Seq<T>>, count: int) -> (source: int)
    requires
        0 <= count <= rest.len(),
        exists|i: int| 0 <= i < count && (#[trigger] rest[i]).len() > 0,
    ensures
        0 <= source < count,
        rest[source].len() > 0,
        forall|other: int| 0 <= other < count ==> #[trigger] leads(rest, source, other),
    decreases count,
{
    let last = count - 1;
    if exists|i: int| 0 <= i < last && (#[trigger] rest[i]).len() > 0 {
        let best = some_source_is_next(rest, last);
        if rest[last].len() > 0 && before(rest[last][0].rank(), rest[best][0].rank()) {
            assert forall|other: int| 0 <= other < count implies #[trigger] leads(
                rest,
                last,
                other,
            ) by {
                if other < last && rest[other].len() > 0 {
                    assert(leads(rest, best, other));
                    not_after_before_pair(
                        rest[last][0].rank(),
                        rest[best][0].rank(),
                        rest[other][0].rank(),
                    );
                }
            }
            last
        } else {
            if rest[last].len() > 0 {
                before_total(rest[last][0].rank(), rest[best][0].rank());
            }
            assert(leads(rest, best, last));
            best
        }
    } else {
        assert forall|other: int| 0 <= other < count implies #[trigger] leads(rest, last, other) by {
            assert(other < last ==> rest[other].len() == 0);
        }
        last
    }
}

/// Groups are whole: of ordered sources, a group leaves no item with its key behind, however
/// often the key occurs in a source.
pub proof fn groups_are_whole<T: Ranked>(
    rest: Seq<Seq<T>>,
    source: int,
    group: Seq<(usize, T)>,
    left: Seq<Seq<T>>,
    place: int,
    k: int,
)
    requires
        is_next(rest, source),
        forall|i: int| 0 <= i < rest.len() ==> sorted(#[trigger] rest[i]),
        is_group(rest, source, group, left),
        0 <= place < left.len(),
        0 <= k < left[place].len(),
    ensures
        before(rest[source][0].rank(), left[place][k].rank()),
{
    let key = rest[source][0].rank();
    assert forall|i: int, k: int| 0 <= i < rest.len() && 0 <= k < rest[i].len() implies not_after(
        key,
        (#[trigger] rest[i][k]).rank(),
    ) by {
        leader_is_first(rest, source, i);
        assert(sorted(rest[i]));
        if k > 0 {
            assert(not_after(rest[i][0].rank(), rest[i][k].rank()));
            not_after_transitive(key, rest[i][0].rank(), rest[i][k].rank());
        }
    }
    behind_stays_ordered(rest, key, group);
    let next = some_source_is_next(left, left.len() as int);
    assert(is_next(left, next));
    let first = left[next][0].rank();
    before_total(key, first);
    assert(not_after(key, left[next][0].rank()));
    assert(before(key, first));
    leader_is_first(left, next, place);
    assert(sorted(left[place]));
    if k > 0 {
        assert(not_after(left[place][0].rank(), left[place][k].rank()));
        not_after_transitive(first, left[place][0].rank(), left[place][k].rank());
    }
    crate::order::before_not_after(key, first, left[place][k].rank());
}

/// Behind a later key, or behind an equal one, a key stays behind.
proof fn not_after_before_pair(a: Seq<int>, b: Seq<int>, c: Seq<int>)
    requires
        before(a, b),
        before(b, c) || b == c,
    ensures
        before(a, c),
{
    if before(b, c) {
        crate::order::before_transitive(a, b, c);
    }
}

/// What stands in a group is the first item of its source.
pub proof fn heads_are_first<T: Ranked>(rest: Seq<Seq<T>>, key: Seq<int>, count: nat, n: int) -> (place:
    int)
    requires
        count <= rest.len(),
        0 <= n < heads_with(rest, key, count).len(),
    ensures
        0 <= place < count,
        rest[place].len() > 0,
        heads_with(rest, key, count)[n] == (place as usize, rest[place][0]),
        rest[place][0].rank() == key,
    decreases count,
{
    let earlier = heads_with(rest, key, (count - 1) as nat);
    if n < earlier.len() {
        heads_are_first(rest, key, (count - 1) as nat, n)
    } else {
        count - 1
    }
}

/// A first item with the key stands in the group.
pub proof fn first_is_in_heads<T: Ranked>(
    rest: Seq<Seq<T>>,
    key: Seq<int>,
    count: nat,
    place: int,
) -> (n: int)
    requires
        0 <= place < count <= rest.len(),
        rest[place].len() > 0,
        rest[place][0].rank() == key,
    ensures
        0 <= n < heads_with(rest, key, count).len(),
        heads_with(rest, key, count)[n] == (place as usize, rest[place][0]),
    decreases count,
{
    if place == count - 1 {
        heads_with(rest, key, (count - 1) as nat).len() as int
    } else {
        first_is_in_heads(rest, key, (count - 1) as nat, place)
    }
}

/// The first item of the leading source comes no later than any other first item.
pub proof fn leader_is_first<T: Ranked>(rest: Seq<Seq<T>>, source: int, place: int)
    requires
        is_next(rest, source),
        0 <= place < rest.len(),
        rest[place].len() > 0,
    ensures
        not_after(rest[source][0].rank(), rest[place][0].rank()),
{
    assert(leads(rest, source, place));
    before_irreflexive(rest[source][0].rank());
    crate::order::before_asymmetric(rest[source][0].rank(), rest[place][0].rank());
}

/// The items in turn are those before a source, those of the source, and those behind it.
proof fn in_turn_split<T>(sources: Seq<Seq<T>>, place: int)
    requires
        0 <= place < sources.len(),
    ensures
        in_turn(sources) == in_turn(sources.take(place)) + sources[place] + in_turn(
            sources.skip(place + 1),
        ),
    decreases sources.len(),
{
    let front = sources.drop_last();
    let tail = sources.skip(place + 1);
    if place == sources.len() - 1 {
        assert(front =~= sources.take(place));
        assert(tail =~= Seq::empty());
    } else {
        in_turn_split(front, place);
        assert(front.take(place) =~= sources.take(place));
        assert(tail.drop_last() =~= front.skip(place + 1));
    }
    assert(in_turn(sources) =~= in_turn(sources.take(place)) + sources[place] + in_turn(tail));
}

/// What stands in turn is an item of a source.
proof fn in_turn_is_from<T>(sources: Seq<Seq<T>>, index: int) -> (place: (int, int))
    requires
        0 <= index < in_turn(sources).len(),
    ensures
        0 <= place.0 < sources.len(),
        0 <= place.1 < sources[place.0].len(),
        in_turn(sources)[index] == sources[place.0][place.1],
    decreases sources.len(),
{
    let front = sources.drop_last();
    let earlier = in_turn(front).len() as int;
    if index < earlier {
        in_turn_is_from(front, index)
    } else {
        (sources.len() - 1, index - earlier)
    }
}

/// Nothing stands in turn where no source holds anything.
proof fn in_turn_exhausted<T>(sources: Seq<Seq<T>>)
    requires
        exhausted(sources),
    ensures
        in_turn(sources) == Seq::<T>::empty(),
{
    if in_turn(sources).len() > 0 {
        let place = in_turn_is_from(sources, 0);
        assert(sources[place.0].len() == 0);
    }
}

/// Taking the next item to the front keeps the items of each key in turn.
proof fn next_keeps_turns<T: Ranked>(done: Seq<T>, start: Seq<Seq<T>>, source: int)
    requires
        is_next(start, source),
        forall|i: int| 0 <= i < start.len() ==> sorted(#[trigger] start[i]),
    ensures
        same_by_key(
            done + in_turn(start),
            done.push(start[source][0]) + in_turn(start.update(source, start[source].skip(1))),
        ),
{
    let item = start[source][0];
    let rest = start[source].skip(1);
    let next = start.update(source, rest);
    let earlier = start.take(source);
    let block = in_turn(earlier);
    let tail = rest + in_turn(start.skip(source + 1));
    in_turn_split(start, source);
    in_turn_split(next, source);
    assert(next.take(source) =~= earlier);
    assert(next.skip(source + 1) =~= start.skip(source + 1));
    assert(start[source] =~= seq![item] + rest);
    assert forall|i: int| 0 <= i < block.len() implies #[trigger] block[i].rank()
        != item.rank() by {
        let place = in_turn_is_from(earlier, i);
        let (other, k) = place;
        assert(earlier[other] == start[other]);
        assert(leads(start, source, other));
        before_irreflexive(item.rank());
        if k > 0 {
            assert(not_after(start[other][0].rank(), start[other][k].rank()));
            crate::order::before_not_after(
                item.rank(),
                start[other][0].rank(),
                start[other][k].rank(),
            );
        }
    }
    with_key_swapped(done, item, block, tail);
    assert(done + in_turn(start) =~= done + block + seq![item] + tail);
    assert(done.push(item) + in_turn(next) =~= done + seq![item] + block + tail);
}

/// Merge ordered runs into one; of items with equal keys those of the earlier run come first,
/// and those of one run in their order.
pub fn merge_runs<T: Ranked>(runs: Vec<Vec<T>>) -> (result: Vec<T>)
    requires
        forall|i: int| 0 <= i < runs@.len() ==> sorted(#[trigger] runs@[i]@),
    ensures
        sorted(result@),
        result@.to_multiset() == all_items(sources_view(runs@)),
        same_by_key(in_turn(sources_view(runs@)), result@),
{
    let ghost total = all_items(sources_view(runs@));
    let ghost turns = in_turn(sources_view(runs@));
    let mut merge = OrderedMerge::from_readers(runs);
    let mut result: Vec<T> = Vec::new();
    proof {
        broadcast use vstd::seq_lib::group_to_multiset_ensures;

        assert(result@.to_multiset() =~= Multiset::empty());
        assert(result@.to_multiset().add(all_items(merge.rest())) =~= total);
        assert(result@ + in_turn(merge.rest()) =~= turns);
        assert forall|i: int| 0 <= i < merge.rest().len() implies sorted(
            #[trigger] merge.rest()[i],
        ) by {
            assert(sources_view(runs@)[i] == runs@[i]@);
            assert(sorted(runs@[i]@));
        }
    }
    loop
        invariant
            sorted(result@),
            forall|i: int| 0 <= i < merge.rest().len() ==> sorted(#[trigger] merge.rest()[i]),
            forall|i: int, k: int, j: int|
                0 <= j < result@.len() && 0 <= i < merge.rest().len() && 0 <= k
                    < merge.rest()[i].len() ==> not_after(
                    (#[trigger] result@[j]).rank(),
                    (#[trigger] merge.rest()[i][k]).rank(),
                ),
            result@.to_multiset().add(all_items(merge.rest())) == total,
            same_by_key(turns, result@ + in_turn(merge.rest())),
        ensures
            sorted(result@),
            result@.to_multiset() == total,
            same_by_key(turns, result@),
        decreases all_items(merge.rest()).len(),
    {
        broadcast use vstd::multiset::group_multiset_axioms;
        broadcast use vstd::seq_lib::group_to_multiset_ensures;

        let ghost start = merge.rest();
        let ghost done = result@;
        match merge.next_with_source() {
            None => {
                proof {
                    all_items_exhausted(start);
                    assert(result@.to_multiset() =~= total);
                    in_turn_exhausted(start);
                    assert(result@ + in_turn(start) =~= result@);
                }
                break ;
            },
            Some((source, item)) => {
                result.push(item);
                proof {
                    let place = source as int;
                    all_items_without(start, place);
                    assert(result@.to_multiset() =~= done.to_multiset().insert(item));
                    assert(result@.to_multiset().add(all_items(merge.rest())) =~= total);
                    next_keeps_turns(done, start, place);
                    merge_step_sorted(done, start, place);
                    assert(result@ =~= done.push(start[place][0]));
                }
            },
        }
    }
    result
}

/// The next item of a merge can stand behind what was merged.
proof fn merge_step_sorted<T: Ranked>(done: Seq<T>, start: Seq<Seq<T>>, source: int)
    requires
        sorted(done),
        is_next(start, source),
        forall|i: int| 0 <= i < start.len() ==> sorted(#[trigger] start[i]),
        forall|i: int, k: int, j: int|
            0 <= j < done.len() && 0 <= i < start.len() && 0 <= k < start[i].len() ==> not_after(
                (#[trigger] done[j]).rank(),
                (#[trigger] start[i][k]).rank(),
            ),
    ensures
        ({
            let item = start[source][0];
            let next = start.update(source, start[source].skip(1));
            let result = done.push(item);
            &&& sorted(result)
            &&& forall|i: int| 0 <= i < next.len() ==> sorted(#[trigger] next[i])
            &&& forall|i: int, k: int, j: int|
                0 <= j < result.len() && 0 <= i < next.len() && 0 <= k < next[i].len()
                    ==> not_after((#[trigger] result[j]).rank(), (#[trigger] next[i][k]).rank())
        }),
{
    let item = start[source][0];
    let next = start.update(source, start[source].skip(1));
    let result = done.push(item);
    assert forall|i: int, j: int| 0 <= i < j < result.len() implies #[trigger] not_after(
        result[i].rank(),
        #[trigger] result[j].rank(),
    ) by {
        if j == done.len() {
            assert(not_after(done[i].rank(), start[source][0].rank()));
        } else {
            assert(not_after(done[i].rank(), done[j].rank()));
        }
    }
    assert forall|i: int| 0 <= i < next.len() implies sorted(#[trigger] next[i]) by {
        let old = start[i];
        assert(sorted(old));
        if i == source {
            assert forall|a: int, b: int| 0 <= a < b < next[i].len() implies #[trigger] not_after(
                next[i][a].rank(),
                #[trigger] next[i][b].rank(),
            ) by {
                assert(not_after(old[a + 1].rank(), old[b + 1].rank()));
            }
        }
    }
    assert forall|i: int, k: int, j: int|
        0 <= j < result.len() && 0 <= i < next.len() && 0 <= k < next[i].len() implies not_after(
        (#[trigger] result[j]).rank(),
        (#[trigger] next[i][k]).rank(),
    ) by {
        let shift: int = if i == source {
            1
        } else {
            0
        };
        assert(next[i][k] == start[i][k + shift]);
        if j < done.len() {
            assert(not_after(done[j].rank(), start[i][k + shift].rank()));
        } else {
            assert(leads(start, source, i));
            before_irreflexive(item.rank());
            crate::order::before_asymmetric(item.rank(), start[i][0].rank());
            if k + shift > 0 {
                let old = start[i];
                assert(sorted(old));
                assert(not_after(old[0].rank(), old[k + shift].rank()));
                not_after_transitive(item.rank(), old[0].rank(), old[k + shift].rank());
            }
        }
    }
}

proof fn all_items_exhausted<T>(sources: Seq<Seq<T>>)
    requires
        exhausted(sources),
    ensures
        all_items(sources) == Multiset::<T>::empty(),
    decreases sources.len(),
{
    broadcast use vstd::multiset::group_multiset_axioms;
    broadcast use vstd::seq_lib::group_to_multiset_ensures;

    if sources.len() > 0 {
        let front = sources.drop_last();
        assert(exhausted(front)) by {
            assert forall|i: int| 0 <= i < front.len() implies (#[trigger] front[i]).len() == 0 by {
                assert(sources[i].len() == 0);
            }
        }
        all_items_exhausted(front);
        let last = sources.len() - 1;
        assert(sources[last].len() == 0);
        assert(sources.last() =~= Seq::empty());
        assert(sources.last().to_multiset() =~= Multiset::empty());
        assert(all_items(sources) =~= Multiset::empty());
    } else {
        assert(all_items(sources) =~= Multiset::empty());
    }
}

/// All items are one first item and the others.
proof fn all_items_without<T>(sources: Seq<Seq<T>>, place: int)
    requires
        0 <= place < sources.len(),
        sources[place].len() > 0,
    ensures
        all_items(sources) == all_items(
            sources.update(place, sources[place].skip(1)),
        ).insert(sources[place][0]),
    decreases sources.len(),
{
    broadcast use vstd::multiset::group_multiset_axioms;
    broadcast use vstd::seq_lib::group_to_multiset_ensures;

    let changed = sources.update(place, sources[place].skip(1));
    let item = sources[place][0];
    if place == sources.len() - 1 {
        assert(changed.drop_last() =~= sources.drop_last());
        let last = sources.last();
        assert(last =~= seq![item] + last.skip(1));
        vstd::seq_lib::lemma_multiset_commutative(seq![item], last.skip(1));
        assert(seq![item] =~= Seq::empty().push(item));
        assert(seq![item].to_multiset() =~= Multiset::empty().insert(item));
        assert(last.to_multiset() =~= last.skip(1).to_multiset().insert(item));
        assert(all_items(sources) =~= all_items(changed).insert(item));
    } else {
        let front = sources.drop_last();
        all_items_without(front, place);
        assert(changed.drop_last() =~= front.update(place, front[place].skip(1)));
        assert(all_items(sources) =~= all_items(changed).insert(item));
    }
}

/// One result of a join: places in its two inputs.
#[derive(Clone, Copy, Debug, PartialEq, Eq, Structural)]
pub enum JoinItem {
    Left(usize),
    Match(usize, usize),
    Right(usize),
}

pub open spec fn ranks<T: Ranked>(items: Seq<T>) -> Seq<Seq<int>> {
    Seq::new(items.len(), |i: int| items[i].rank())
}

/// The number of keys from a place on.
pub open spec fn remaining_from(keys: Seq<Seq<int>>, place: nat) -> nat {
    if place < keys.len() {
        (keys.len() - place) as nat
    } else {
        0
    }
}

/// The join of two ordered inputs from given places on. A left key that has met an equal one
/// on the right is not given alone any more.
pub open spec fn join_from(
    left: Seq<Seq<int>>,
    right: Seq<Seq<int>>,
    i: nat,
    j: nat,
    matched: bool,
) -> Seq<JoinItem>
    decreases remaining_from(left, i) + remaining_from(right, j),
{
    if i >= left.len() && j >= right.len() {
        Seq::empty()
    } else if j >= right.len() || (i < left.len() && before(left[i as int], right[j as int])) {
        let rest = join_from(left, right, i + 1, j, false);
        if matched {
            rest
        } else {
            seq![JoinItem::Left(i as usize)] + rest
        }
    } else if i >= left.len() || left[i as int] != right[j as int] {
        seq![JoinItem::Right(j as usize)] + join_from(left, right, i, j + 1, matched)
    } else {
        seq![JoinItem::Match(i as usize, j as usize)] + join_from(left, right, i, j + 1, true)
    }
}

/// Join two ordered inputs by their keys. The left one is a lookup set; a left item meets
/// every right one with its key.
pub fn ordered_join<T: Ranked>(left: &Vec<T>, right: &Vec<T>) -> (result: Vec<JoinItem>)
    ensures
        result@ == join_from(ranks(left@), ranks(right@), 0, 0, false),
{
    let ghost l = ranks(left@);
    let ghost r = ranks(right@);
    let ghost goal = join_from(l, r, 0, 0, false);
    let mut result: Vec<JoinItem> = Vec::new();
    let mut i: usize = 0;
    let mut j: usize = 0;
    let mut matched = false;
    assert(result@ + goal =~= goal);
    while i < left.len() || j < right.len()
        invariant
            l == ranks(left@),
            r == ranks(right@),
            i <= left@.len(),
            j <= right@.len(),
            goal == result@ + join_from(l, r, i as nat, j as nat, matched),
        decreases (left@.len() - i) + (right@.len() - j),
    {
        let ghost so_far = result@;
        let left_first = j >= right.len() || (i < left.len() && left[i].precedes(&right[j]));
        if left_first {
            if !matched {
                result.push(JoinItem::Left(i));
            }
            proof {
                let rest = join_from(l, r, (i + 1) as nat, j as nat, false);
                if !matched {
                    assert(so_far + (seq![JoinItem::Left(i)] + rest) =~= result@ + rest);
                }
            }
            matched = false;
            i += 1;
        } else {
            let right_first = i >= left.len() || right[j].precedes(&left[i]);
            proof {
                if i < left.len() {
                    before_total(l[i as int], r[j as int]);
                    before_irreflexive(l[i as int]);
                }
            }
            if right_first {
                result.push(JoinItem::Right(j));
                proof {
                    let rest = join_from(l, r, i as nat, (j + 1) as nat, matched);
                    assert(so_far + (seq![JoinItem::Right(j)] + rest) =~= result@ + rest);
                }
            } else {
                result.push(JoinItem::Match(i, j));
                matched = true;
                proof {
                    let rest = join_from(l, r, i as nat, (j + 1) as nat, true);
                    assert(so_far + (seq![JoinItem::Match(i, j)] + rest) =~= result@ + rest);
                }
            }
            j += 1;
        }
    }
    assert(join_from(l, r, i as nat, j as nat, matched) =~= Seq::empty());
    assert(result@ + Seq::<JoinItem>::empty() =~= result@);
    result
}

pub open spec fn keys_ordered(keys: Seq<Seq<int>>) -> bool {
    forall|i: int, j: int|
        0 <= i < j < keys.len() ==> #[trigger] not_after(keys[i], #[trigger] keys[j])
}

pub open spec fn keys_increase(keys: Seq<Seq<int>>) -> bool {
    forall|i: int, j: int|
        0 <= i < j < keys.len() ==> #[trigger] before(keys[i], #[trigger] keys[j])
}

pub open spec fn has_key_from(keys: Seq<Seq<int>>, key: Seq<int>, from: int) -> bool {
    exists|i: int| from <= i < keys.len() && #[trigger] keys[i] == key
}

/// What belongs to the join of two inputs from given places on.
pub open spec fn joins(
    left: Seq<Seq<int>>,
    right: Seq<Seq<int>>,
    i: int,
    j: int,
    matched: bool,
    item: JoinItem,
) -> bool {
    match item {
        JoinItem::Left(a) => {
            &&& i <= a < left.len()
            &&& !(matched && a == i)
            &&& !has_key_from(right, left[a as int], j)
        },
        JoinItem::Match(a, b) => {
            &&& i <= a < left.len()
            &&& j <= b < right.len()
            &&& left[a as int] == right[b as int]
        },
        JoinItem::Right(b) => {
            &&& j <= b < right.len()
            &&& !has_key_from(left, right[b as int], i)
        },
    }
}

proof fn contains_front(item: JoinItem, rest: Seq<JoinItem>, wanted: JoinItem)
    ensures
        (seq![item] + rest).contains(wanted) <==> item == wanted || rest.contains(wanted),
{
    let all = seq![item] + rest;
    if item == wanted {
        assert(all[0] == wanted);
    }
    if rest.contains(wanted) {
        let k = choose|k: int| 0 <= k < rest.len() && rest[k] == wanted;
        assert(all[k + 1] == wanted);
    }
    if all.contains(wanted) {
        let k = choose|k: int| 0 <= k < all.len() && all[k] == wanted;
        if k > 0 {
            assert(rest[k - 1] == wanted);
        }
    }
}

proof fn join_from_is_complete(
    left: Seq<Seq<int>>,
    right: Seq<Seq<int>>,
    i: nat,
    j: nat,
    matched: bool,
    item: JoinItem,
)
    requires
        keys_increase(left),
        keys_ordered(right),
        left.len() <= usize::MAX,
        right.len() <= usize::MAX,
        i <= left.len(),
        j <= right.len(),
    ensures
        join_from(left, right, i, j, matched).contains(item) <==> joins(
            left,
            right,
            i as int,
            j as int,
            matched,
            item,
        ),
    decreases (left.len() - i) + (right.len() - j),
{
    let x = i as int;
    let y = j as int;
    if i >= left.len() && j >= right.len() {
    } else if j >= right.len() || (i < left.len() && before(left[x], right[y])) {
        let rest = join_from(left, right, i + 1, j, false);
        join_from_is_complete(left, right, i + 1, j, false, item);
        contains_front(JoinItem::Left(i as usize), rest, item);
        // The left key comes before all that is left on the right.
        assert forall|b: int| y <= b < right.len() implies before(
            left[x],
            #[trigger] right[b],
        ) by {
            if b > y {
                assert(not_after(right[y], right[b]));
                crate::order::before_not_after(left[x], right[y], right[b]);
            }
        }
        before_irreflexive(left[x]);
        assert(!has_key_from(right, left[x], y));
        match item {
            JoinItem::Right(b) => {
                if y <= b < right.len() {
                    let key = right[b as int];
                    if has_key_from(left, key, x) {
                        let a = choose|a: int| x <= a < left.len() && #[trigger] left[a] == key;
                        assert(a != x);
                        assert(left[a] == key);
                        assert(has_key_from(left, key, x + 1));
                    }
                }
            },
            _ => {},
        }
    } else if i >= left.len() || left[x] != right[y] {
        let rest = join_from(left, right, i, j + 1, matched);
        join_from_is_complete(left, right, i, j + 1, matched, item);
        contains_front(JoinItem::Right(j as usize), rest, item);
        // The right key comes before all that is left on the left.
        assert forall|a: int| x <= a < left.len() implies before(
            right[y],
            #[trigger] left[a],
        ) by {
            before_total(left[x], right[y]);
            if a > x {
                assert(before(left[x], left[a]));
                crate::order::before_transitive(right[y], left[x], left[a]);
            }
        }
        before_irreflexive(right[y]);
        assert(!has_key_from(left, right[y], x));
        match item {
            JoinItem::Left(a) => {
                if x <= a < left.len() {
                    let key = left[a as int];
                    if has_key_from(right, key, y) {
                        let b = choose|b: int| y <= b < right.len() && #[trigger] right[b] == key;
                        assert(b != y);
                        assert(right[b] == key);
                        assert(has_key_from(right, key, y + 1));
                    }
                }
            },
            _ => {},
        }
    } else {
        let rest = join_from(left, right, i, j + 1, true);
        join_from_is_complete(left, right, i, j + 1, true, item);
        contains_front(JoinItem::Match(i as usize, j as usize), rest, item);
        before_irreflexive(left[x]);
        assert(right[y] == left[x]);
        assert(has_key_from(right, left[x], y));
        assert(has_key_from(left, right[y], x));
        match item {
            JoinItem::Left(a) => {
                if x <= a < left.len() && a != x {
                    let key = left[a as int];
                    assert(before(left[x], left[a as int]));
                    if has_key_from(right, key, y) {
                        let b = choose|b: int| y <= b < right.len() && #[trigger] right[b] == key;
                        assert(b != y);
                        assert(right[b] == key);
                        assert(has_key_from(right, key, y + 1));
                    }
                }
            },
            JoinItem::Match(a, b) => {
                if b == y && x <= a < left.len() && left[a as int] == right[y] {
                    if a != x {
                        assert(before(left[x], left[a as int]));
                    }
                }
            },
            JoinItem::Right(b) => {},
        }
    }
}

/// A join of ordered inputs, of which the left one repeats no key, gives every pair with
/// equal keys, and alone every item whose key the other side does not have. It gives nothing
/// else.
pub proof fn join_is_complete(left: Seq<Seq<int>>, right: Seq<Seq<int>>, item: JoinItem)
    requires
        keys_increase(left),
        keys_ordered(right),
        left.len() <= usize::MAX,
        right.len() <= usize::MAX,
    ensures
        join_from(left, right, 0, 0, false).contains(item) <==> joins(
            left,
            right,
            0,
            0,
            false,
            item,
        ),
{
    join_from_is_complete(left, right, 0, 0, false, item);
}

/// The key of a result of a join.
pub open spec fn item_key(left: Seq<Seq<int>>, right: Seq<Seq<int>>, item: JoinItem) -> Seq<int> {
    match item {
        JoinItem::Left(a) => left[a as int],
        JoinItem::Match(a, b) => left[a as int],
        JoinItem::Right(b) => right[b as int],
    }
}

pub open spec fn item_keys(left: Seq<Seq<int>>, right: Seq<Seq<int>>, items: Seq<JoinItem>) -> Seq<
    Seq<int>,
> {
    Seq::new(items.len(), |n: int| item_key(left, right, items[n]))
}

proof fn join_keys_from(
    left: Seq<Seq<int>>,
    right: Seq<Seq<int>>,
    i: nat,
    j: nat,
    matched: bool,
)
    requires
        keys_increase(left),
        keys_increase(right),
        left.len() <= usize::MAX,
        right.len() <= usize::MAX,
        i <= left.len(),
        j <= right.len(),
        matched ==> i < left.len() && 0 < j && left[i as int] == right[j - 1],
    ensures
        ({
            let keys = item_keys(left, right, join_from(left, right, i, j, matched));
            &&& keys_increase(keys)
            &&& forall|n: int|
                0 <= n < keys.len() ==> {
                    let key = #[trigger] keys[n];
                    &&& has_key_from(left, key, i as int) || has_key_from(right, key, j as int)
                    &&& matched ==> key != left[i as int]
                }
        }),
    decreases (left.len() - i) + (right.len() - j),
{
    let x = i as int;
    let y = j as int;
    let items = join_from(left, right, i, j, matched);
    let keys = item_keys(left, right, items);
    if i >= left.len() && j >= right.len() {
    } else if j >= right.len() || (i < left.len() && before(left[x], right[y])) {
        let rest = join_from(left, right, i + 1, j, false);
        join_keys_from(left, right, i + 1, j, false);
        let later = item_keys(left, right, rest);
        assert forall|n: int| 0 <= n < later.len() implies before(left[x], #[trigger] later[n])
            && (has_key_from(left, later[n], x) || has_key_from(right, later[n], y)) by {
            let key = later[n];
            if has_key_from(left, key, x + 1) {
                let a = choose|a: int| x + 1 <= a < left.len() && #[trigger] left[a] == key;
                assert(before(left[x], left[a]));
                assert(has_key_from(left, key, x));
            } else {
                let b = choose|b: int| y <= b < right.len() && #[trigger] right[b] == key;
                if b > y {
                    assert(before(right[y], right[b]));
                    crate::order::before_transitive(left[x], right[y], right[b]);
                }
            }
        }
        before_irreflexive(left[x]);
        if matched {
            assert(keys =~= later);
        } else {
            assert(keys =~= seq![left[x]] + later);
            assert(left[x] == left[x]);
            assert(has_key_from(left, left[x], x));
            keys_increase_front(left[x], later);
        }
    } else if i >= left.len() || left[x] != right[y] {
        let rest = join_from(left, right, i, j + 1, matched);
        if matched {
            assert(before(right[y - 1], right[y]));
        }
        join_keys_from(left, right, i, j + 1, matched);
        let later = item_keys(left, right, rest);
        assert forall|n: int| 0 <= n < later.len() implies before(right[y], #[trigger] later[n])
            && (has_key_from(left, later[n], x) || has_key_from(right, later[n], y)) by {
            let key = later[n];
            if has_key_from(right, key, y + 1) {
                let b = choose|b: int| y + 1 <= b < right.len() && #[trigger] right[b] == key;
                assert(before(right[y], right[b]));
                assert(has_key_from(right, key, y));
            } else {
                let a = choose|a: int| x <= a < left.len() && #[trigger] left[a] == key;
                before_total(left[x], right[y]);
                if a > x {
                    assert(before(left[x], left[a]));
                    crate::order::before_transitive(right[y], left[x], left[a]);
                }
            }
        }
        assert(keys =~= seq![right[y]] + later);
        assert(has_key_from(right, right[y], y));
        keys_increase_front(right[y], later);
    } else {
        let rest = join_from(left, right, i, j + 1, true);
        if matched {
            assert(before(right[y - 1], right[y]));
            before_irreflexive(left[x]);
        }
        join_keys_from(left, right, i, j + 1, true);
        let later = item_keys(left, right, rest);
        assert forall|n: int| 0 <= n < later.len() implies before(left[x], #[trigger] later[n])
            && (has_key_from(left, later[n], x) || has_key_from(right, later[n], y)) by {
            let key = later[n];
            if has_key_from(right, key, y + 1) {
                let b = choose|b: int| y + 1 <= b < right.len() && #[trigger] right[b] == key;
                assert(before(right[y], right[b]));
                assert(has_key_from(right, key, y));
            } else {
                let a = choose|a: int| x <= a < left.len() && #[trigger] left[a] == key;
                assert(a != x);
                assert(before(left[x], left[a]));
            }
        }
        assert(keys =~= seq![left[x]] + later);
        assert(has_key_from(left, left[x], x));
        keys_increase_front(left[x], later);
    }
}

proof fn keys_increase_front(key: Seq<int>, later: Seq<Seq<int>>)
    requires
        keys_increase(later),
        forall|n: int| 0 <= n < later.len() ==> before(key, #[trigger] later[n]),
    ensures
        keys_increase(seq![key] + later),
{
    let all = seq![key] + later;
    assert forall|i: int, j: int| 0 <= i < j < all.len() implies #[trigger] before(
        all[i],
        #[trigger] all[j],
    ) by {
        if i > 0 {
            assert(before(later[i - 1], later[j - 1]));
        } else {
            assert(before(key, later[j - 1]));
        }
    }
}

/// The join of two inputs that repeat no key comes in the order of the keys.
pub proof fn join_keys_increase(left: Seq<Seq<int>>, right: Seq<Seq<int>>)
    requires
        keys_increase(left),
        keys_increase(right),
        left.len() <= usize::MAX,
        right.len() <= usize::MAX,
    ensures
        keys_increase(item_keys(left, right, join_from(left, right, 0, 0, false))),
{
    join_keys_from(left, right, 0, 0, false);
}

/// The items whose key differs from that of the item before them.
pub open spec fn unique_of<T: Ranked>(items: Seq<T>) -> Seq<T>
    decreases items.len(),
{
    if items.len() == 0 {
        Seq::empty()
    } else {
        let rest = items.drop_last();
        if rest.len() > 0 && rest.last().rank() == items.last().rank() {
            unique_of(rest)
        } else {
            unique_of(rest).push(items.last())
        }
    }
}

/// Remove adjacent items with the same key.
pub fn unique<T: Ranked>(items: Vec<T>) -> (result: Vec<T>)
    ensures
        result@ == unique_of(items@),
{
    let ghost given = items@;
    let mut remaining = reversed(items);
    let ghost backward = remaining@;
    let mut result: Vec<T> = Vec::new();
    let ghost mut index: int = 0;
    assert(given.take(0) =~= Seq::empty());
    while remaining.len() > 0
        invariant
            given == items@,
            backward == given.reverse(),
            0 <= index <= given.len(),
            remaining@ == backward.take(given.len() - index),
            result@ == unique_of(given.take(index)),
            index > 0 ==> result@.len() > 0 && result@.last().rank() == given[index - 1].rank(),
        decreases remaining@.len(),
    {
        let item = remaining.pop().unwrap();
        let count: usize = result.len();
        let repeated = if count == 0 {
            false
        } else {
            !item.precedes(&result[count - 1]) && !result[count - 1].precedes(&item)
        };
        proof {
            assert(item == given[index]);
            assert(remaining@ =~= backward.take(given.len() - (index + 1)));
            assert(given.take(index + 1).drop_last() =~= given.take(index));
            if count > 0 {
                before_total(item.rank(), result@[count - 1].rank());
                before_irreflexive(item.rank());
            }
        }
        if !repeated {
            result.push(item);
        }
        proof {
            index = index + 1;
        }
    }
    assert(given.take(index) =~= given);
    result
}

/// Behind the removal of adjacent repeats an ordered sequence repeats no key, and it has all
/// the keys that it had.
pub proof fn unique_keys_increase<T: Ranked>(items: Seq<T>)
    requires
        sorted(items),
    ensures
        strictly_sorted(unique_of(items)),
        items.len() > 0 ==> unique_of(items).len() > 0 && unique_of(items).last().rank()
            == items.last().rank(),
        forall|key: Seq<int>|
            #[trigger] has_key_from(ranks(items), key, 0) <==> has_key_from(
                ranks(unique_of(items)),
                key,
                0,
            ),
    decreases items.len(),
{
    if items.len() > 0 {
        let rest = items.drop_last();
        let last = items.last();
        assert(sorted(rest)) by {
            assert forall|i: int, j: int| 0 <= i < j < rest.len() implies #[trigger] not_after(
                rest[i].rank(),
                #[trigger] rest[j].rank(),
            ) by {
                assert(not_after(items[i].rank(), items[j].rank()));
            }
        }
        unique_keys_increase(rest);
        let short = unique_of(rest);
        let result = unique_of(items);
        let repeated = rest.len() > 0 && rest.last().rank() == last.rank();
        if !repeated {
            assert forall|i: int, j: int| 0 <= i < j < result.len() implies #[trigger] before(
                result[i].rank(),
                #[trigger] result[j].rank(),
            ) by {
                if j < short.len() {
                    assert(before(short[i].rank(), short[j].rank()));
                } else {
                    let prior = items.len() - 2;
                    assert(rest.len() > 0);
                    assert(not_after(items[prior].rank(), items[prior + 1].rank()));
                    before_total(items[prior].rank(), items[prior + 1].rank());
                    if i < short.len() - 1 {
                        let end = short.len() - 1;
                        assert(before(short[i].rank(), short[end].rank()));
                        crate::order::before_transitive(
                            short[i].rank(),
                            short[end].rank(),
                            last.rank(),
                        );
                    }
                }
            }
        }
        assert forall|key: Seq<int>|
            #[trigger] has_key_from(ranks(items), key, 0) <==> has_key_from(
                ranks(result),
                key,
                0,
            ) by {
            keys_pushed(rest, last, key);
            assert(items =~= rest.push(last));
            if !repeated {
                keys_pushed(short, last, key);
            } else if key == last.rank() {
                let prior = rest.len() - 1;
                assert(ranks(rest)[prior] == key);
                assert(has_key_from(ranks(rest), key, 0));
            }
            assert(has_key_from(ranks(rest), key, 0) <==> has_key_from(ranks(short), key, 0));
        }
    } else {
        assert(unique_of(items) =~= items);
    }
}

proof fn keys_pushed<T: Ranked>(items: Seq<T>, item: T, key: Seq<int>)
    ensures
        has_key_from(ranks(items.push(item)), key, 0) <==> has_key_from(ranks(items), key, 0)
            || item.rank() == key,
{
    let all = ranks(items.push(item));
    if item.rank() == key {
        assert(all[items.len() as int] == key);
    }
    if has_key_from(ranks(items), key, 0) {
        let i = choose|i: int| 0 <= i < items.len() && #[trigger] ranks(items)[i] == key;
        assert(all[i] == key);
    }
    if has_key_from(all, key, 0) {
        let i = choose|i: int| 0 <= i < all.len() && #[trigger] all[i] == key;
        if i < items.len() {
            assert(ranks(items)[i] == key);
        }
    }
}

} // verus!
