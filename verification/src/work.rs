//! Bounded local work: compaction of runs, sorting within a byte budget, and record frames.

use vstd::arithmetic::power::{lemma_pow0, pow};
use vstd::multiset::Multiset;
use vstd::prelude::*;

use crate::error::{invalid, Error, Fault};
use crate::order::{
    before_irreflexive, before_total, not_after, reversed, same_by_key, same_by_key_same_items,
    sort, sorted, with_key, with_key_absent, with_key_all, with_key_joined, Ranked,
};
use crate::ordered::{
    all_items, all_items_in_turn, in_turn, in_turn_joined, in_turn_of_one, in_turn_pushed,
    merge_runs, sources_view,
};

verus! {

const MEBIBYTE: usize = 1048576;

/// The memory and the number of streams that local work may use.
#[derive(Clone, Copy, Debug)]
pub struct WorkBudget {
    sort_run_bytes: usize,
    fan_in: usize,
}

impl WorkBudget {
    pub closed spec fn run_bytes(&self) -> usize {
        self.sort_run_bytes
    }

    /// The number of runs that are merged at a time.
    pub closed spec fn width(&self) -> usize {
        self.fan_in
    }

    #[verifier::type_invariant]
    spec fn is_budget(self) -> bool {
        self.sort_run_bytes > 0 && self.fan_in >= 2
    }

    pub fn new(memory_bytes: usize, concurrency: usize) -> (result: Result<Self, Error>)
        requires
            memory_bytes > 0,
            concurrency > 0,
        ensures
            match result {
                Ok(budget) => budget.run_bytes() == memory_bytes && budget.width() == concurrency
                    + 1,
                Err(error) => concurrency == usize::MAX && error.fault() == invalid(
                    "configure local work",
                    "stream concurrency overflows",
                ),
            },
    {
        match concurrency.checked_add(1) {
            Some(fan_in) => Ok(WorkBudget { sort_run_bytes: memory_bytes, fan_in }),
            None => Err(Error::invalid("configure local work", "stream concurrency overflows")),
        }
    }

    pub fn from_mib(memory_mib: usize, concurrency: usize) -> (result: Result<Self, Error>)
        requires
            memory_mib > 0,
            concurrency > 0,
        ensures
            match result {
                Ok(budget) => budget.run_bytes() == memory_mib * 1048576 && budget.width()
                    == concurrency + 1,
                Err(error) => if memory_mib * 1048576 > usize::MAX {
                    error.fault() == invalid("configure local work", "work memory overflows")
                } else {
                    concurrency == usize::MAX && error.fault() == invalid(
                        "configure local work",
                        "stream concurrency overflows",
                    )
                },
            },
    {
        match memory_mib.checked_mul(MEBIBYTE) {
            Some(memory_bytes) => Self::new(memory_bytes, concurrency),
            None => Err(Error::invalid("configure local work", "work memory overflows")),
        }
    }

    pub fn memory_target_bytes(self) -> (bytes: usize)
        ensures
            bytes == self.run_bytes(),
            bytes > 0,
    {
        proof {
            use_type_invariant(&self);
        }
        self.sort_run_bytes
    }

    pub fn fan_in(self) -> (fan_in: usize)
        ensures
            fan_in == self.width(),
            fan_in >= 2,
    {
        proof {
            use_type_invariant(&self);
        }
        self.fan_in
    }
}

/// What runs stand for.
pub trait RunModel: Sized {
    type Run;

    type Item;

    /// The most runs that are merged at a time.
    spec fn most(&self) -> nat;

    /// The run can be merged with others.
    spec fn sound(&self, run: Self::Run) -> bool;

    /// The run stands for the items, given in an order in which they may have come.
    spec fn represents(&self, run: Self::Run, items: Seq<Self::Item>) -> bool;

    /// The items cannot be merged.
    spec fn refuses(&self, items: Multiset<Self::Item>, fault: Fault) -> bool;

    /// More items do not make a merge possible.
    proof fn refuses_more(
        &self,
        items: Multiset<Self::Item>,
        more: Multiset<Self::Item>,
        fault: Fault,
    )
        ensures
            self.refuses(items, fault) ==> self.refuses(items.add(more), fault),
    ;
}

/// A way to merge runs into one.
pub trait RunMerger: RunModel {
    fn merge(&self, group: Vec<Self::Run>) -> (result: Result<Self::Run, Error>)
        requires
            all_sound(self, group@),
            1 < group@.len() <= self.most(),
        ensures
            match result {
                Ok(run) => {
                    &&& self.sound(run)
                    &&& forall|parts: Seq<Seq<Self::Item>>| #[trigger]
                        all_represent(self, group@, parts) ==> self.represents(run, in_turn(parts))
                },
                Err(error) => forall|parts: Seq<Seq<Self::Item>>| #[trigger]
                    all_represent(self, group@, parts) ==> self.refuses(
                        in_turn(parts).to_multiset(),
                        error.fault(),
                    ),
            },
    ;
}

pub open spec fn all_sound<M: RunModel>(merger: &M, runs: Seq<M::Run>) -> bool {
    forall|i: int| 0 <= i < runs.len() ==> merger.sound(#[trigger] runs[i])
}

/// Each run stands for the items at its place.
pub open spec fn all_represent<M: RunModel>(
    merger: &M,
    runs: Seq<M::Run>,
    parts: Seq<Seq<M::Item>>,
) -> bool {
    &&& runs.len() == parts.len()
    &&& forall|i: int|
        0 <= i < runs.len() ==> merger.represents(#[trigger] runs[i], #[trigger] parts[i])
}

/// The runs together stand for the items, one run after the other.
pub open spec fn stand_for<M: RunModel>(
    merger: &M,
    runs: Seq<M::Run>,
    items: Seq<M::Item>,
) -> bool {
    exists|parts: Seq<Seq<M::Item>>| #[trigger]
        all_represent(merger, runs, parts) && in_turn(parts) == items
}

// Runs at levels.

/// The runs of all levels can be merged.
pub open spec fn levels_sound<M: RunModel>(merger: &M, levels: Seq<Seq<M::Run>>) -> bool {
    forall|i: int| 0 <= i < levels.len() ==> all_sound(merger, #[trigger] levels[i])
}

/// The runs of each level stand for the items at their places.
pub open spec fn levels_represent<M: RunModel>(
    merger: &M,
    levels: Seq<Seq<M::Run>>,
    parts: Seq<Seq<Seq<M::Item>>>,
) -> bool {
    &&& levels.len() == parts.len()
    &&& forall|i: int|
        0 <= i < levels.len() ==> all_represent(merger, #[trigger] levels[i], #[trigger] parts[i])
}

/// The items behind one more run: a level that is full gives way to one run of the next
/// level, which stands for what the runs of the level stood for, one after the other.
pub open spec fn pushed<E>(levels: Seq<Seq<Seq<E>>>, more: Seq<E>, width: usize) -> Seq<
    Seq<Seq<E>>,
>
    decreases levels.len(),
{
    if levels.len() == 0 {
        seq![seq![more]]
    } else if levels[0].len() + 1 < width {
        levels.update(0, levels[0].push(more))
    } else {
        seq![Seq::<Seq<E>>::empty()] + pushed(
            levels.skip(1),
            in_turn(levels[0].push(more)),
            width,
        )
    }
}

/// The items of all levels, the first level first.
pub open spec fn items_of<E>(levels: Seq<Seq<Seq<E>>>) -> Seq<E> {
    in_turn(in_turn(levels))
}

/// The items of runs that were added one after the other.
pub open spec fn compacted<E>(pieces: Seq<Seq<E>>, width: usize) -> Seq<Seq<Seq<E>>>
    decreases pieces.len(),
{
    if pieces.len() == 0 {
        Seq::empty()
    } else {
        pushed(compacted(pieces.drop_last(), width), pieces.last(), width)
    }
}

/// The order in which the items of runs are merged that were added one after the other: the
/// runs of the lower levels, which are the later ones, come first.
pub open spec fn arranged<E>(pieces: Seq<Seq<E>>, width: usize) -> Seq<E> {
    items_of(compacted(pieces, width))
}

/// What is carried to a level when the levels below it are full.
spec fn carried_to<E>(levels: Seq<Seq<Seq<E>>>, more: Seq<E>, level: nat) -> Seq<E>
    decreases level,
{
    if level == 0 {
        more
    } else {
        in_turn(levels[level - 1].push(carried_to(levels, more, (level - 1) as nat)))
    }
}

/// Full levels are emptied, and the level behind them gets what they carry.
proof fn full_levels_carry<E>(levels: Seq<Seq<Seq<E>>>, more: Seq<E>, width: usize, level: nat)
    requires
        level <= levels.len(),
        forall|i: int| 0 <= i < level ==> (#[trigger] levels[i]).len() + 1 >= width,
    ensures
        pushed(levels, more, width) == Seq::new(level, |i: int| Seq::<Seq<E>>::empty()) + pushed(
            levels.skip(level as int),
            carried_to(levels, more, level),
            width,
        ),
    decreases level,
{
    if level == 0 {
        assert(levels.skip(0) =~= levels);
        assert(Seq::new(0, |i: int| Seq::<Seq<E>>::empty()) =~= Seq::empty());
        assert(Seq::<Seq<Seq<E>>>::empty() + pushed(levels, more, width) =~= pushed(
            levels,
            more,
            width,
        ));
    } else {
        let below = (level - 1) as nat;
        full_levels_carry(levels, more, width, below);
        let rest = levels.skip(below as int);
        assert(rest[0] == levels[below as int]);
        assert(rest.skip(1) =~= levels.skip(level as int));
        let front = Seq::new(below, |i: int| Seq::<Seq<E>>::empty());
        let tail = pushed(levels.skip(level as int), carried_to(levels, more, level), width);
        assert(pushed(rest, carried_to(levels, more, below), width) == seq![
            Seq::<Seq<E>>::empty(),
        ] + tail);
        assert(front + (seq![Seq::<Seq<E>>::empty()] + tail) =~= Seq::new(
            level,
            |i: int| Seq::<Seq<E>>::empty(),
        ) + tail);
    }
}

/// The items of a first level and of the others.
proof fn items_split<E>(first: Seq<Seq<E>>, rest: Seq<Seq<Seq<E>>>)
    ensures
        items_of(seq![first] + rest) == in_turn(first) + items_of(rest),
{
    in_turn_joined(seq![first], rest);
    in_turn_of_one(first);
    in_turn_joined(first, in_turn(rest));
}

/// What full levels carry is what they held, and one run more.
proof fn carried_items<E>(levels: Seq<Seq<Seq<E>>>, more: Seq<E>, level: nat)
    requires
        level <= levels.len(),
    ensures
        items_of(levels).to_multiset().add(more.to_multiset()) == items_of(
            levels.skip(level as int),
        ).to_multiset().add(carried_to(levels, more, level).to_multiset()),
    decreases level,
{
    if level == 0 {
        assert(levels.skip(0) =~= levels);
    } else {
        let below = (level - 1) as nat;
        carried_items(levels, more, below);
        let rest = levels.skip(level as int);
        let first = levels[below as int];
        let carried = carried_to(levels, more, below);
        assert(levels.skip(below as int) =~= seq![first] + rest);
        items_split(first, rest);
        in_turn_pushed(first, carried);
        vstd::seq_lib::lemma_multiset_commutative(in_turn(first), items_of(rest));
        vstd::seq_lib::lemma_multiset_commutative(in_turn(first), carried);
        assert(items_of(levels.skip(below as int)).to_multiset().add(carried.to_multiset())
            =~= items_of(rest).to_multiset().add(carried_to(levels, more, level).to_multiset()));
    }
}

/// One more run adds its items and no others.
pub proof fn pushed_items<E>(levels: Seq<Seq<Seq<E>>>, more: Seq<E>, width: usize)
    ensures
        items_of(pushed(levels, more, width)).to_multiset() == items_of(levels).to_multiset().add(
            more.to_multiset(),
        ),
    decreases levels.len(),
{
    broadcast use vstd::seq_lib::group_to_multiset_ensures;

    if levels.len() == 0 {
        let none = Seq::<Seq<Seq<E>>>::empty();
        assert(levels =~= none);
        in_turn_of_one(seq![more]);
        in_turn_of_one(more);
        assert(items_of(levels).to_multiset().add(more.to_multiset()) =~= more.to_multiset());
    } else {
        let first = levels[0];
        let rest = levels.skip(1);
        let joined = in_turn(first.push(more));
        assert(levels =~= seq![first] + rest);
        items_split(first, rest);
        in_turn_pushed(first, more);
        vstd::seq_lib::lemma_multiset_commutative(in_turn(first), more);
        vstd::seq_lib::lemma_multiset_commutative(in_turn(first), items_of(rest));
        if first.len() + 1 < width {
            assert(levels.update(0, first.push(more)) =~= seq![first.push(more)] + rest);
            items_split(first.push(more), rest);
            vstd::seq_lib::lemma_multiset_commutative(joined, items_of(rest));
        } else {
            let next = pushed(rest, joined, width);
            pushed_items(rest, joined, width);
            items_split(Seq::<Seq<E>>::empty(), next);
            assert(in_turn(Seq::<Seq<E>>::empty()) + items_of(next) =~= items_of(next));
        }
        assert(items_of(pushed(levels, more, width)).to_multiset() =~= items_of(
            levels,
        ).to_multiset().add(more.to_multiset()));
    }
}

/// Compaction keeps every item of the runs.
pub proof fn arranged_items<E>(pieces: Seq<Seq<E>>, width: usize)
    ensures
        arranged(pieces, width).to_multiset() == in_turn(pieces).to_multiset(),
    decreases pieces.len(),
{
    if pieces.len() > 0 {
        let front = pieces.drop_last();
        arranged_items(front, width);
        pushed_items(compacted(front, width), pieces.last(), width);
        vstd::seq_lib::lemma_multiset_commutative(in_turn(front), pieces.last());
    } else {
        assert(compacted(pieces, width) =~= Seq::empty());
        assert(arranged(pieces, width) =~= in_turn(pieces));
    }
}

/// Runs at levels stand together for the items of all levels.
pub proof fn levels_stand_for<M: RunModel>(
    merger: &M,
    levels: Seq<Seq<M::Run>>,
    parts: Seq<Seq<Seq<M::Item>>>,
)
    requires
        levels_represent(merger, levels, parts),
    ensures
        stand_for(merger, in_turn(levels), items_of(parts)),
{
    all_levels_represent(merger, levels, parts);
    assert(all_represent(merger, in_turn(levels), in_turn(parts)));
}

proof fn all_levels_represent<M: RunModel>(
    merger: &M,
    levels: Seq<Seq<M::Run>>,
    parts: Seq<Seq<Seq<M::Item>>>,
)
    requires
        levels_represent(merger, levels, parts),
    ensures
        all_represent(merger, in_turn(levels), in_turn(parts)),
    decreases levels.len(),
{
    if levels.len() > 0 {
        let front = levels.drop_last();
        let fewer = parts.drop_last();
        assert forall|i: int| 0 <= i < front.len() implies all_represent(
            merger,
            #[trigger] front[i],
            #[trigger] fewer[i],
        ) by {
            assert(all_represent(merger, levels[i], parts[i]));
        }
        all_levels_represent(merger, front, fewer);
        let last = levels.len() - 1;
        assert(all_represent(merger, levels[last], parts[last]));
        let held = in_turn(front).len() as int;
        let runs = in_turn(levels);
        let items = in_turn(parts);
        assert forall|i: int| 0 <= i < runs.len() implies merger.represents(
            #[trigger] runs[i],
            #[trigger] items[i],
        ) by {
            if i < held {
                assert(merger.represents(in_turn(front)[i], in_turn(fewer)[i]));
            } else {
                assert(merger.represents(levels[last][i - held], parts[last][i - held]));
            }
        }
    }
}

proof fn levels_all_sound<M: RunModel>(merger: &M, levels: Seq<Seq<M::Run>>)
    requires
        levels_sound(merger, levels),
    ensures
        all_sound(merger, in_turn(levels)),
    decreases levels.len(),
{
    if levels.len() > 0 {
        let front = levels.drop_last();
        assert forall|i: int| 0 <= i < front.len() implies all_sound(merger, #[trigger] front[i]) by {
            assert(all_sound(merger, levels[i]));
        }
        levels_all_sound(merger, front);
        let last = levels.len() - 1;
        assert(all_sound(merger, levels[last]));
        let runs = in_turn(levels);
        let held = in_turn(front).len() as int;
        assert forall|i: int| 0 <= i < runs.len() implies merger.sound(#[trigger] runs[i]) by {
            if i < held {
                assert(merger.sound(in_turn(front)[i]));
            } else {
                assert(merger.sound(levels[last][i - held]));
            }
        }
    }
}

/// The number of runs at each level.
pub open spec fn level_sizes<R>(levels: Seq<Seq<R>>) -> Seq<nat> {
    Seq::new(levels.len(), |i: int| levels[i].len())
}

/// The sizes of the levels behind one more run: a level that is full gives way to one run of
/// the next level, as the digits of a number do when it is counted up by one.
pub open spec fn counted_up(sizes: Seq<nat>, width: usize) -> Seq<nat>
    decreases sizes.len(),
{
    if sizes.len() == 0 {
        seq![1nat]
    } else if sizes[0] + 1 < width {
        sizes.update(0, sizes[0] + 1)
    } else {
        seq![0nat] + counted_up(sizes.skip(1), width)
    }
}

/// The number whose digits the sizes of the levels are, the lowest digit first.
pub open spec fn counted(sizes: Seq<nat>, width: usize) -> nat
    decreases sizes.len(),
{
    if sizes.len() == 0 {
        0
    } else {
        sizes[0] + (width as nat) * counted(sizes.skip(1), width)
    }
}

/// The sum of some sizes.
pub open spec fn total(sizes: Seq<nat>) -> nat
    decreases sizes.len(),
{
    if sizes.len() == 0 {
        0
    } else {
        total(sizes.drop_last()) + sizes.last()
    }
}

/// No level is full, and the last level is not empty.
pub open spec fn is_counter(sizes: Seq<nat>, width: usize) -> bool {
    &&& forall|i: int| 0 <= i < sizes.len() ==> #[trigger] sizes[i] < width
    &&& sizes.len() > 0 ==> sizes.last() > 0
}

/// Every run that is added counts the levels up by one.
pub proof fn one_more_is_counted(sizes: Seq<nat>, width: usize)
    requires
        is_counter(sizes, width),
        width >= 2,
    ensures
        is_counter(counted_up(sizes, width), width),
        counted_up(sizes, width).len() > 0,
        counted(counted_up(sizes, width), width) == counted(sizes, width) + 1,
    decreases sizes.len(),
{
    let up = counted_up(sizes, width);
    if sizes.len() == 0 {
        assert(up.skip(1) =~= Seq::empty());
        assert(counted(up.skip(1), width) == 0);
        assert((width as nat) * 0 == 0);
    } else if sizes[0] + 1 < width {
        assert(up.skip(1) =~= sizes.skip(1));
        assert(up.last() > 0) by {
            if sizes.len() > 1 {
                assert(up.last() == sizes.last());
            }
        }
    } else {
        let rest = sizes.skip(1);
        assert(is_counter(rest, width)) by {
            assert forall|i: int| 0 <= i < rest.len() implies #[trigger] rest[i] < width by {
                assert(sizes[i + 1] < width);
            }
            if rest.len() > 0 {
                assert(rest.last() == sizes.last());
            }
        }
        one_more_is_counted(rest, width);
        let higher = counted_up(rest, width);
        assert(up.skip(1) =~= higher);
        assert(up.last() == higher.last());
        assert forall|i: int| 0 <= i < up.len() implies #[trigger] up[i] < width by {
            if i > 0 {
                assert(higher[i - 1] < width);
            }
        }
        let number = counted(rest, width);
        assert((width as nat) * (number + 1) == (width as nat) * number + width)
            by (nonlinear_arith);
        assert(up[0] == 0);
        assert(counted(up, width) == (width as nat) * (number + 1));
    }
}

/// Few runs are kept of many that were added: the number of those added is at least the
/// number of runs merged at a time, to the power of the number of levels below the last one,
/// and no level holds as many runs as are merged at a time.
pub proof fn kept_runs_are_few(sizes: Seq<nat>, width: usize)
    requires
        is_counter(sizes, width),
        width >= 2,
        sizes.len() > 0,
    ensures
        pow(width as int, (sizes.len() - 1) as nat) <= counted(sizes, width),
        total(sizes) <= (width - 1) * sizes.len(),
    decreases sizes.len(),
{
    total_is_bounded(sizes, width);
    let rest = sizes.skip(1);
    if sizes.len() == 1 {
        lemma_pow0(width as int);
        assert(width * counted(rest, width) >= 0) by (nonlinear_arith);
    } else {
        assert(is_counter(rest, width)) by {
            assert forall|i: int| 0 <= i < rest.len() implies #[trigger] rest[i] < width by {
                assert(sizes[i + 1] < width);
            }
            assert(rest.last() == sizes.last());
        }
        kept_runs_are_few(rest, width);
        let low = pow(width as int, (rest.len() - 1) as nat);
        let number = counted(rest, width) as int;
        assert(pow(width as int, rest.len()) == width * low) by {
            reveal(pow);
        }
        assert(width * low <= width * number) by (nonlinear_arith)
            requires
                low <= number,
                width >= 2,
        ;
    }
}

proof fn total_is_bounded(sizes: Seq<nat>, width: usize)
    requires
        forall|i: int| 0 <= i < sizes.len() ==> #[trigger] sizes[i] < width,
        width >= 2,
    ensures
        total(sizes) <= (width - 1) * sizes.len(),
    decreases sizes.len(),
{
    if sizes.len() > 0 {
        let front = sizes.drop_last();
        total_is_bounded(front, width);
        assert((width - 1) * sizes.len() == (width - 1) * front.len() + (width - 1))
            by (nonlinear_arith)
            requires
                sizes.len() == front.len() + 1,
        ;
    } else {
        assert((width - 1) * 0 == 0);
    }
}

proof fn runs_are_totalled<R>(levels: Seq<Seq<R>>)
    ensures
        in_turn(levels).len() == total(level_sizes(levels)),
    decreases levels.len(),
{
    if levels.len() > 0 {
        runs_are_totalled(levels.drop_last());
        assert(level_sizes(levels).drop_last() =~= level_sizes(levels.drop_last()));
    }
}

/// The last of some sizes is in their sum.
proof fn last_is_in_total(sizes: Seq<nat>)
    requires
        sizes.len() > 0,
    ensures
        total(sizes) >= sizes.last(),
{
}

/// A run that is carried past all levels makes a level of its own.
proof fn represented_in_new_level<M: RunModel>(
    merger: &M,
    start: Seq<Seq<M::Run>>,
    parts: Seq<Seq<Seq<M::Item>>>,
    more: Seq<M::Item>,
    width: usize,
    carried: M::Run,
)
    requires
        levels_represent(merger, start, parts),
        forall|i: int| 0 <= i < start.len() ==> (#[trigger] start[i]).len() + 1 >= width,
        merger.represents(carried, carried_to(parts, more, start.len())),
    ensures
        levels_represent(
            merger,
            emptied(start, start.len() as int).push(seq![carried]),
            pushed(parts, more, width),
        ),
{
    let count = start.len();
    assert forall|i: int| 0 <= i < count implies (#[trigger] parts[i]).len() + 1 >= width by {
        assert(all_represent(merger, start[i], parts[i]));
    }
    full_levels_carry(parts, more, width, count);
    let now = emptied(start, count as int).push(seq![carried]);
    let items = pushed(parts, more, width);
    assert(parts.skip(count as int).len() == 0);
    assert(items.len() == now.len());
    assert forall|i: int| 0 <= i < now.len() implies all_represent(
        merger,
        #[trigger] now[i],
        #[trigger] items[i],
    ) by {
        if i < count {
            assert(items[i] == Seq::<Seq<M::Item>>::empty());
        } else {
            assert(items[i] == seq![carried_to(parts, more, count)]);
        }
    }
}

/// A run that is carried to a level stands behind the runs of the level.
proof fn represented_in_level<M: RunModel>(
    merger: &M,
    start: Seq<Seq<M::Run>>,
    parts: Seq<Seq<Seq<M::Item>>>,
    more: Seq<M::Item>,
    width: usize,
    carried: M::Run,
    level: int,
)
    requires
        levels_represent(merger, start, parts),
        0 <= level < start.len(),
        forall|i: int| 0 <= i < level ==> (#[trigger] start[i]).len() + 1 >= width,
        start[level].len() + 1 < width,
        merger.represents(carried, carried_to(parts, more, level as nat)),
    ensures
        levels_represent(
            merger,
            emptied(start, level).update(level, start[level].push(carried)),
            pushed(parts, more, width),
        ),
{
    assert forall|i: int| 0 <= i < level implies (#[trigger] parts[i]).len() + 1 >= width by {
        assert(all_represent(merger, start[i], parts[i]));
    }
    full_levels_carry(parts, more, width, level as nat);
    let now = emptied(start, level).update(level, start[level].push(carried));
    let items = pushed(parts, more, width);
    let rest = parts.skip(level);
    let part = carried_to(parts, more, level as nat);
    assert(rest[0] == parts[level]);
    assert(all_represent(merger, start[level], parts[level]));
    assert(pushed(rest, part, width) == rest.update(0, rest[0].push(part)));
    assert(items.len() == now.len());
    assert forall|i: int| 0 <= i < now.len() implies all_represent(
        merger,
        #[trigger] now[i],
        #[trigger] items[i],
    ) by {
        if i < level {
            assert(items[i] == Seq::<Seq<M::Item>>::empty());
        } else if i == level {
            let runs = start[level].push(carried);
            let cover = parts[level].push(part);
            assert(items[i] == cover);
            assert forall|k: int| 0 <= k < runs.len() implies merger.represents(
                #[trigger] runs[k],
                #[trigger] cover[k],
            ) by {
                if k < start[level].len() {
                    assert(merger.represents(start[level][k], parts[level][k]));
                }
            }
        } else {
            assert(items[i] == parts[i]);
            assert(all_represent(merger, start[i], parts[i]));
        }
    }
}

/// Incremental compaction of ordered inputs, without keeping every input.
pub struct RunCompactor<R> {
    fan_in: usize,
    levels: Vec<Vec<R>>,
}

/// The first levels are empty, the others are as they were.
spec fn emptied<R>(levels: Seq<Seq<R>>, count: int) -> Seq<Seq<R>> {
    Seq::new(
        levels.len(),
        |i: int|
            if i < count {
                Seq::<R>::empty()
            } else {
                levels[i]
            },
    )
}

impl<R> RunCompactor<R> {
    /// The runs that are kept at each level.
    pub closed spec fn levels(&self) -> Seq<Seq<R>> {
        sources_view(self.levels@)
    }

    /// The runs that are kept.
    pub open spec fn runs(&self) -> Seq<R> {
        in_turn(self.levels())
    }

    /// The number of runs that are merged at a time.
    pub closed spec fn width(&self) -> usize {
        self.fan_in
    }

    /// How many runs are kept at each level.
    pub open spec fn sizes(&self) -> Seq<nat> {
        level_sizes(self.levels())
    }

    #[verifier::type_invariant]
    spec fn is_bounded(self) -> bool {
        &&& self.fan_in >= 2
        &&& is_counter(level_sizes(sources_view(self.levels@)), self.fan_in)
    }

    pub fn new(fan_in: usize) -> (compactor: Self)
        requires
            fan_in >= 2,
        ensures
            compactor.levels() == Seq::<Seq<R>>::empty(),
            compactor.width() == fan_in,
    {
        let compactor = RunCompactor { fan_in, levels: Vec::new() };
        assert(compactor.levels() =~= Seq::<Seq<R>>::empty());
        compactor
    }

    /// Add a run; runs of one level are merged into one of the next when it is full.
    pub fn push<M: RunMerger<Run = R>>(self, input: R, merger: &M) -> (result: Result<Self, Error>)
        requires
            levels_sound(merger, self.levels()),
            merger.sound(input),
            self.width() <= merger.most(),
        ensures
            match result {
                Ok(compactor) => {
                    &&& compactor.width() == self.width() >= 2
                    &&& compactor.runs().len() > 0
                    &&& compactor.sizes() == counted_up(self.sizes(), self.width())
                    &&& is_counter(compactor.sizes(), self.width())
                    &&& compactor.runs().len() == total(compactor.sizes())
                    &&& levels_sound(merger, compactor.levels())
                    &&& forall|parts: Seq<Seq<Seq<M::Item>>>, more: Seq<M::Item>|
                        #![trigger levels_represent(merger, self.levels(), parts), merger.represents(input, more)]
                        levels_represent(merger, self.levels(), parts) && merger.represents(
                            input,
                            more,
                        ) ==> levels_represent(
                            merger,
                            compactor.levels(),
                            pushed(parts, more, self.width()),
                        )
                },
                Err(error) => forall|parts: Seq<Seq<Seq<M::Item>>>, more: Seq<M::Item>|
                    #![trigger levels_represent(merger, self.levels(), parts), merger.represents(input, more)]
                    levels_represent(merger, self.levels(), parts) && merger.represents(input, more)
                        ==> merger.refuses(
                        items_of(parts).to_multiset().add(more.to_multiset()),
                        error.fault(),
                    ),
            },
    {
        proof {
            use_type_invariant(&self);
        }
        let ghost start = self.levels();
        let ghost first = input;
        let fan_in: usize = self.fan_in;
        let ghost up = counted_up(self.sizes(), fan_in);
        let mut levels = self.levels;
        let mut carried = input;
        let mut level: usize = 0;
        proof {
            let sizes = level_sizes(start);
            one_more_is_counted(sizes, fan_in);
            assert forall|i: int| 0 <= i < start.len() implies (#[trigger] start[i]).len()
                < fan_in by {
                assert(sizes[i] < fan_in);
            }
            assert(sizes.skip(0) =~= sizes);
            assert(sizes.take(0) + counted_up(sizes, fan_in) =~= up);
            assert(emptied(start, 0) =~= start);
        }
        loop
            invariant
                2 <= fan_in <= merger.most(),
                fan_in == self.width(),
                start == self.levels(),
                first == input,
                level <= start.len(),
                sources_view(levels@) == emptied(start, level as int),
                up == counted_up(self.sizes(), fan_in),
                up.len() > 0,
                is_counter(up, fan_in),
                up == level_sizes(emptied(start, level as int)).take(level as int) + counted_up(
                    level_sizes(emptied(start, level as int)).skip(level as int),
                    fan_in,
                ),
                levels_sound(merger, start),
                merger.sound(carried),
                forall|i: int| 0 <= i < start.len() ==> (#[trigger] start[i]).len() < fan_in,
                forall|i: int| 0 <= i < level ==> (#[trigger] start[i]).len() + 1 >= fan_in,
                forall|parts: Seq<Seq<Seq<M::Item>>>, more: Seq<M::Item>|
                    #![trigger levels_represent(merger, start, parts), merger.represents(first, more)]
                    levels_represent(merger, start, parts) && merger.represents(first, more)
                        ==> merger.represents(carried, carried_to(parts, more, level as nat)),
            decreases start.len() - level,
        {
            let ghost before = emptied(start, level as int);
            if level == levels.len() {
                let mut fresh: Vec<R> = Vec::new();
                fresh.push(carried);
                let ghost held = levels@;
                levels.push(fresh);
                proof {
                    let now = sources_view(levels@);
                    assert(now =~= before.push(seq![carried])) by {
                        assert(fresh@ =~= seq![carried]);
                        assert forall|i: int| 0 <= i < before.len() implies now[i] == before[i] by {
                            assert(sources_view(held)[i] == before[i]);
                        }
                    }
                    assert(level_sizes(now) =~= up);
                    runs_are_totalled(now);
                    assert(total(up) > 0) by {
                        last_is_in_total(up);
                    }
                    assert forall|parts: Seq<Seq<Seq<M::Item>>>, more: Seq<M::Item>|
                        #![trigger levels_represent(merger, start, parts), merger.represents(first, more)]
                        levels_represent(merger, start, parts) && merger.represents(
                            first,
                            more,
                        ) implies levels_represent(merger, now, pushed(parts, more, fan_in)) by {
                        represented_in_new_level(merger, start, parts, more, fan_in, carried);
                    }
                }
                return Ok(RunCompactor { fan_in, levels });
            }
            let ghost was = levels@;
            let mut group: Vec<R> = Vec::new();
            levels.set_and_swap(level, &mut group);
            let ghost held = group@;
            let ghost hollow = levels@;
            group.push(carried);
            let ghost all = group@;
            proof {
                assert(sources_view(was)[level as int] == held);
                assert(held == start[level as int]);
                assert(all =~= held.push(carried));
                assert(all_sound(merger, start[level as int]));
                assert(all_sound(merger, all));
            }
            if group.len() < fan_in {
                levels.set(level, group);
                proof {
                    let now = sources_view(levels@);
                    assert(now =~= before.update(level as int, all)) by {
                        assert forall|i: int| 0 <= i < now.len() && i != level implies now[i]
                            == before[i] by {
                            assert(sources_view(was)[i] == before[i]);
                        }
                    }
                    assert(level_sizes(now) =~= up) by {
                        let sizes = level_sizes(before).skip(level as int);
                        assert(sizes[0] == held.len());
                        assert(counted_up(sizes, fan_in) == sizes.update(0, sizes[0] + 1));
                    }
                    runs_are_totalled(now);
                    assert(total(up) > 0) by {
                        last_is_in_total(up);
                    }
                    assert forall|i: int| 0 <= i < now.len() implies all_sound(
                        merger,
                        #[trigger] now[i],
                    ) by {
                        assert(all_sound(merger, start[i]));
                    }
                    assert forall|parts: Seq<Seq<Seq<M::Item>>>, more: Seq<M::Item>|
                        #![trigger levels_represent(merger, start, parts), merger.represents(first, more)]
                        levels_represent(merger, start, parts) && merger.represents(
                            first,
                            more,
                        ) implies levels_represent(merger, now, pushed(parts, more, fan_in)) by {
                        represented_in_level(
                            merger,
                            start,
                            parts,
                            more,
                            fan_in,
                            carried,
                            level as int,
                        );
                    }
                }
                return Ok(RunCompactor { fan_in, levels });
            }
            proof {
                assert forall|parts: Seq<Seq<Seq<M::Item>>>, more: Seq<M::Item>|
                    #![trigger levels_represent(merger, start, parts), merger.represents(first, more)]
                    levels_represent(merger, start, parts) && merger.represents(
                        first,
                        more,
                    ) implies all_represent(
                    merger,
                    all,
                    parts[level as int].push(carried_to(parts, more, level as nat)),
                ) by {
                    let cover = parts[level as int].push(carried_to(parts, more, level as nat));
                    assert(all_represent(merger, start[level as int], parts[level as int]));
                    assert forall|i: int| 0 <= i < all.len() implies merger.represents(
                        #[trigger] all[i],
                        #[trigger] cover[i],
                    ) by {
                        if i < held.len() {
                            assert(merger.represents(
                                start[level as int][i],
                                parts[level as int][i],
                            ));
                        }
                    }
                }
            }
            match merger.merge(group) {
                Ok(merged) => {
                    proof {
                        let next = emptied(start, level + 1);
                        assert(sources_view(levels@) =~= next) by {
                            assert forall|i: int| 0 <= i < next.len() implies sources_view(
                                levels@,
                            )[i] == next[i] by {
                                if i != level {
                                    assert(sources_view(was)[i] == before[i]);
                                } else {
                                    assert(hollow[i]@ =~= Seq::<R>::empty());
                                }
                            }
                        }
                        assert(up =~= level_sizes(next).take(level + 1) + counted_up(
                            level_sizes(next).skip(level + 1),
                            fan_in,
                        )) by {
                            let sizes = level_sizes(before).skip(level as int);
                            assert(sizes[0] == held.len());
                            assert(sizes.skip(1) =~= level_sizes(next).skip(level + 1));
                            assert(level_sizes(next).take(level + 1) =~= level_sizes(before).take(
                                level as int,
                            ) + seq![0nat]);
                        }
                        assert forall|parts: Seq<Seq<Seq<M::Item>>>, more: Seq<M::Item>|
                            #![trigger levels_represent(merger, start, parts), merger.represents(first, more)]
                            levels_represent(merger, start, parts) && merger.represents(
                                first,
                                more,
                            ) implies merger.represents(
                            merged,
                            carried_to(parts, more, (level + 1) as nat),
                        ) by {
                            assert(all_represent(
                                merger,
                                all,
                                parts[level as int].push(carried_to(parts, more, level as nat)),
                            ));
                        }
                    }
                    carried = merged;
                },
                Err(error) => {
                    proof {
                        assert forall|parts: Seq<Seq<Seq<M::Item>>>, more: Seq<M::Item>|
                            #![trigger levels_represent(merger, start, parts), merger.represents(first, more)]
                            levels_represent(merger, start, parts) && merger.represents(
                                first,
                                more,
                            ) implies merger.refuses(
                            items_of(parts).to_multiset().add(more.to_multiset()),
                            error.fault(),
                        ) by {
                            let next = (level + 1) as nat;
                            assert(all_represent(
                                merger,
                                all,
                                parts[level as int].push(carried_to(parts, more, level as nat)),
                            ));
                            carried_items(parts, more, next);
                            let refused = carried_to(parts, more, next).to_multiset();
                            let others = items_of(parts.skip(next as int)).to_multiset();
                            merger.refuses_more(refused, others, error.fault());
                            assert(refused.add(others) =~= others.add(refused));
                        }
                    }
                    return Err(error);
                },
            }
            level += 1;
        }
    }

    /// Merge all runs that are kept into one; nothing if there is none.
    pub fn finish<M: RunMerger<Run = R>>(self, merger: &M) -> (result: Result<Option<R>, Error>)
        requires
            levels_sound(merger, self.levels()),
            self.width() <= merger.most(),
        ensures
            match result {
                Ok(Some(run)) => {
                    &&& merger.sound(run)
                    &&& forall|items: Seq<M::Item>|
                        #![trigger stand_for(merger, self.runs(), items)]
                        stand_for(merger, self.runs(), items) ==> merger.represents(run, items)
                },
                Ok(None) => self.runs().len() == 0,
                Err(error) => forall|items: Seq<M::Item>|
                    #![trigger stand_for(merger, self.runs(), items)]
                    stand_for(merger, self.runs(), items) ==> merger.refuses(
                        items.to_multiset(),
                        error.fault(),
                    ),
            },
    {
        proof {
            use_type_invariant(&self);
        }
        let ghost start = self.runs();
        let fan_in: usize = self.fan_in;
        let mut inputs = flattened(self.levels);
        proof {
            levels_all_sound(merger, self.levels());
        }
        while inputs.len() > 1
            invariant
                2 <= fan_in <= merger.most(),
                start == self.runs(),
                inputs@.len() == 0 ==> start.len() == 0,
                all_sound(merger, inputs@),
                forall|items: Seq<M::Item>|
                    #![trigger stand_for(merger, start, items)]
                    stand_for(merger, start, items) ==> stand_for(merger, inputs@, items),
            decreases inputs@.len(),
        {
            let ghost given = inputs@;
            match merge_pass(inputs, fan_in, merger) {
                Ok(output) => {
                    inputs = output;
                },
                Err(error) => {
                    return Err(error);
                },
            }
        }
        let ghost last = inputs@;
        let result = inputs.pop();
        proof {
            if result is Some {
                let run = result->0;
                assert(last =~= seq![run]);
                assert forall|items: Seq<M::Item>|
                    #![trigger stand_for(merger, start, items)]
                    stand_for(merger, start, items) implies merger.represents(run, items) by {
                    assert(stand_for(merger, last, items));
                    let parts = choose|parts: Seq<Seq<M::Item>>| #[trigger]
                        all_represent(merger, last, parts) && in_turn(parts) == items;
                    assert(parts =~= seq![parts[0]]);
                    in_turn_of_one(parts[0]);
                    assert(merger.represents(last[0], parts[0]));
                }
            }
        }
        Ok(result)
    }
}

/// The runs of all levels, the first level first.
fn flattened<R>(levels: Vec<Vec<R>>) -> (runs: Vec<R>)
    ensures
        runs@ == in_turn(sources_view(levels@)),
{
    let ghost given = levels@;
    let ghost views = sources_view(given);
    let mut remaining = reversed(levels);
    let ghost backward = remaining@;
    let mut runs: Vec<R> = Vec::new();
    let ghost mut index: int = 0;
    assert(views.take(0) =~= Seq::empty());
    while remaining.len() > 0
        invariant
            given == levels@,
            views == sources_view(given),
            backward == given.reverse(),
            0 <= index <= given.len(),
            remaining@ == backward.take(given.len() - index),
            runs@ == in_turn(views.take(index)),
        decreases remaining@.len(),
    {
        let mut level = remaining.pop().unwrap();
        proof {
            assert(level == given[index]);
            assert(remaining@ =~= backward.take(given.len() - (index + 1)));
            assert(views.take(index + 1).drop_last() =~= views.take(index));
            assert(views.take(index + 1).last() == level@);
            index = index + 1;
        }
        runs.append(&mut level);
    }
    assert(views.take(index) =~= views);
    runs
}

/// Merge runs in groups of a number; a run that is left alone stays as it is.
fn merge_pass<M: RunMerger>(inputs: Vec<M::Run>, fan_in: usize, merger: &M) -> (result: Result<
    Vec<M::Run>,
    Error,
>)
    requires
        2 <= fan_in <= merger.most(),
        inputs@.len() > 1,
        all_sound(merger, inputs@),
    ensures
        match result {
            Ok(output) => {
                &&& 0 < output@.len() < inputs@.len()
                &&& all_sound(merger, output@)
                &&& forall|items: Seq<M::Item>|
                    #![trigger stand_for(merger, inputs@, items)]
                    stand_for(merger, inputs@, items) ==> stand_for(merger, output@, items)
            },
            Err(error) => forall|items: Seq<M::Item>|
                #![trigger stand_for(merger, inputs@, items)]
                stand_for(merger, inputs@, items) ==> merger.refuses(items.to_multiset(), error.fault()),
        },
{
    let ghost given = inputs@;
    let mut remaining = inputs;
    let mut output: Vec<M::Run> = Vec::new();
    proof {
        assert(output@ + remaining@ =~= given);
    }
    while remaining.len() > 0
        invariant
            2 <= fan_in <= merger.most(),
            given == inputs@,
            given.len() > 1,
            all_sound(merger, output@),
            all_sound(merger, remaining@),
            output@.len() + remaining@.len() <= given.len(),
            output@.len() == 0 ==> remaining@.len() == given.len(),
            output@.len() > 0 ==> output@.len() + remaining@.len() < given.len(),
            forall|items: Seq<M::Item>|
                #![trigger stand_for(merger, given, items)]
                stand_for(merger, given, items) ==> stand_for(
                    merger,
                    output@ + remaining@,
                    items,
                ),
        decreases remaining@.len(),
    {
        let ghost before = remaining@;
        let ghost done = output@;
        let mut group = remaining;
        remaining =
        if group.len() > fan_in {
            group.split_off(fan_in)
        } else {
            Vec::new()
        };
        let ghost taken = group@;
        let ghost rest = remaining@;
        assert(before =~= taken + rest);
        proof {
            assert(before =~= Seq::<M::Run>::empty() + taken + rest);
            sound_parts(merger, Seq::empty(), taken, rest);
        }
        if group.len() == 1 {
            output.append(&mut group);
            assert(output@ + remaining@ =~= done + before);
        } else {
            match merger.merge(group) {
                Ok(merged) => {
                    output.push(merged);
                    proof {
                        assert forall|items: Seq<M::Item>|
                            #![trigger stand_for(merger, given, items)]
                            stand_for(merger, given, items) implies stand_for(
                            merger,
                            output@ + remaining@,
                            items,
                        ) by {
                            assert(stand_for(merger, done + before, items));
                            assert(done + before =~= done + taken + rest);
                            group_stands_for(merger, done, taken, rest, merged, items);
                            assert(output@ + remaining@ =~= done + seq![merged] + rest);
                        }
                    }
                },
                Err(error) => {
                    proof {
                        assert forall|items: Seq<M::Item>|
                            #![trigger stand_for(merger, given, items)]
                            stand_for(merger, given, items) implies merger.refuses(
                            items.to_multiset(),
                            error.fault(),
                        ) by {
                            assert(stand_for(merger, done + before, items));
                            assert(done + before =~= done + taken + rest);
                            group_refused(merger, done, taken, rest, error.fault(), items);
                        }
                    }
                    return Err(error);
                },
            }
        }
    }
    assert(output@ + remaining@ =~= output@);
    Ok(output)
}

proof fn sound_parts<M: RunModel>(
    merger: &M,
    front: Seq<M::Run>,
    middle: Seq<M::Run>,
    back: Seq<M::Run>,
)
    requires
        all_sound(merger, front + middle + back),
    ensures
        all_sound(merger, front),
        all_sound(merger, middle),
        all_sound(merger, back),
{
    let all = front + middle + back;
    assert forall|i: int| 0 <= i < front.len() implies merger.sound(#[trigger] front[i]) by {
        assert(merger.sound(all[i]));
    }
    assert forall|i: int| 0 <= i < middle.len() implies merger.sound(#[trigger] middle[i]) by {
        assert(merger.sound(all[front.len() + i]));
    }
    assert forall|i: int| 0 <= i < back.len() implies merger.sound(#[trigger] back[i]) by {
        assert(merger.sound(all[front.len() + middle.len() + i]));
    }
}

/// A group of runs can give way to the run that it was merged into.
proof fn group_stands_for<M: RunModel>(
    merger: &M,
    front: Seq<M::Run>,
    group: Seq<M::Run>,
    back: Seq<M::Run>,
    merged: M::Run,
    items: Seq<M::Item>,
)
    requires
        stand_for(merger, front + group + back, items),
        forall|parts: Seq<Seq<M::Item>>| #[trigger]
            all_represent(merger, group, parts) ==> merger.represents(merged, in_turn(parts)),
    ensures
        stand_for(merger, front + seq![merged] + back, items),
{
    let old = front + group + back;
    let new = front + seq![merged] + back;
    let parts = choose|parts: Seq<Seq<M::Item>>| #[trigger]
        all_represent(merger, old, parts) && in_turn(parts) == items;
    let a = front.len() as int;
    let b = group.len() as int;
    let x = parts.subrange(0, a);
    let y = parts.subrange(a, a + b);
    let z = parts.subrange(a + b, parts.len() as int);
    assert(parts =~= x + y + z);
    assert forall|i: int| 0 <= i < group.len() implies merger.represents(
        #[trigger] group[i],
        #[trigger] y[i],
    ) by {
        assert(merger.represents(old[a + i], parts[a + i]));
    }
    assert(all_represent(merger, group, y));
    let joined = x + seq![in_turn(y)] + z;
    assert forall|i: int| 0 <= i < new.len() implies merger.represents(
        #[trigger] new[i],
        #[trigger] joined[i],
    ) by {
        if i < a {
            assert(merger.represents(old[i], parts[i]));
        } else if i > a {
            assert(merger.represents(old[i - 1 + b], parts[i - 1 + b]));
            assert(new[i] == old[i - 1 + b]);
            assert(joined[i] == parts[i - 1 + b]);
        }
    }
    assert(all_represent(merger, new, joined));
    in_turn_joined(x + y, z);
    in_turn_joined(x, y);
    in_turn_joined(x + seq![in_turn(y)], z);
    in_turn_joined(x, seq![in_turn(y)]);
    in_turn_of_one(in_turn(y));
    assert(in_turn(joined) =~= items);
}

proof fn group_refused<M: RunModel>(
    merger: &M,
    front: Seq<M::Run>,
    group: Seq<M::Run>,
    back: Seq<M::Run>,
    fault: Fault,
    items: Seq<M::Item>,
)
    requires
        stand_for(merger, front + group + back, items),
        forall|parts: Seq<Seq<M::Item>>| #[trigger]
            all_represent(merger, group, parts) ==> merger.refuses(in_turn(parts).to_multiset(), fault),
    ensures
        merger.refuses(items.to_multiset(), fault),
{
    let old = front + group + back;
    let parts = choose|parts: Seq<Seq<M::Item>>| #[trigger]
        all_represent(merger, old, parts) && in_turn(parts) == items;
    let a = front.len() as int;
    let b = group.len() as int;
    let x = parts.subrange(0, a);
    let y = parts.subrange(a, a + b);
    let z = parts.subrange(a + b, parts.len() as int);
    assert(parts =~= x + y + z);
    assert forall|i: int| 0 <= i < group.len() implies merger.represents(
        #[trigger] group[i],
        #[trigger] y[i],
    ) by {
        assert(merger.represents(old[a + i], parts[a + i]));
    }
    assert(all_represent(merger, group, y));
    in_turn_joined(x + y, z);
    in_turn_joined(x, y);
    let front_items = in_turn(x);
    let group_items = in_turn(y);
    let back_items = in_turn(z);
    vstd::seq_lib::lemma_multiset_commutative(front_items + group_items, back_items);
    vstd::seq_lib::lemma_multiset_commutative(front_items, group_items);
    let others = front_items.to_multiset().add(back_items.to_multiset());
    merger.refuses_more(group_items.to_multiset(), others, fault);
    assert(group_items.to_multiset().add(others) =~= items.to_multiset());
}

/// Merging of ordered runs by the keys of their items, a number of runs at a time.
pub struct SortedRuns<T> {
    fan_in: usize,
    marker: Ghost<Option<T>>,
}

impl<T: Ranked> SortedRuns<T> {
    pub closed spec fn width(&self) -> usize {
        self.fan_in
    }

    fn new(fan_in: usize) -> (merger: Self)
        ensures
            merger.width() == fan_in,
    {
        SortedRuns { fan_in, marker: Ghost(None) }
    }
}

impl<T: Ranked> RunModel for SortedRuns<T> {
    type Run = Vec<T>;

    type Item = T;

    open spec fn most(&self) -> nat {
        self.width() as nat
    }

    open spec fn sound(&self, run: Vec<T>) -> bool {
        sorted(run@)
    }

    open spec fn represents(&self, run: Vec<T>, items: Seq<T>) -> bool {
        same_by_key(items, run@)
    }

    open spec fn refuses(&self, items: Multiset<T>, fault: Fault) -> bool {
        false
    }

    proof fn refuses_more(&self, items: Multiset<T>, more: Multiset<T>, fault: Fault) {
    }
}

/// Runs that agree with their parts by key agree with them together.
proof fn parts_agree<T: Ranked>(
    merger: &SortedRuns<T>,
    runs: Seq<Vec<T>>,
    parts: Seq<Seq<T>>,
)
    requires
        all_represent(merger, runs, parts),
    ensures
        same_by_key(in_turn(parts), in_turn(sources_view(runs))),
    decreases runs.len(),
{
    if runs.len() > 0 {
        let front = runs.drop_last();
        let fewer = parts.drop_last();
        assert forall|i: int| 0 <= i < front.len() implies merger.represents(
            #[trigger] front[i],
            #[trigger] fewer[i],
        ) by {
            assert(merger.represents(runs[i], parts[i]));
        }
        parts_agree(merger, front, fewer);
        let last = runs.len() - 1;
        assert(merger.represents(runs[last], parts[last]));
        assert(sources_view(runs).drop_last() =~= sources_view(front));
        assert forall|key: Seq<int>| #[trigger]
            with_key(in_turn(parts), key) == with_key(in_turn(sources_view(runs)), key) by {
            with_key_joined(in_turn(fewer), parts.last(), key);
            with_key_joined(in_turn(sources_view(front)), runs.last()@, key);
            assert(with_key(in_turn(fewer), key) == with_key(in_turn(sources_view(front)), key));
            assert(with_key(parts[last], key) == with_key(runs[last]@, key));
        }
    } else {
        assert(in_turn(parts) =~= in_turn(sources_view(runs)));
    }
}

impl<T: Ranked> RunMerger for SortedRuns<T> {
    fn merge(&self, group: Vec<Vec<T>>) -> (result: Result<Vec<T>, Error>) {
        let ghost runs = group@;
        let merged = merge_runs(group);
        proof {
            assert forall|parts: Seq<Seq<T>>| #[trigger]
                all_represent(self, runs, parts) implies self.represents(
                merged,
                in_turn(parts),
            ) by {
                parts_agree(self, runs, parts);
                assert forall|key: Seq<int>| #[trigger]
                    with_key(in_turn(parts), key) == with_key(merged@, key) by {
                    assert(with_key(in_turn(parts), key) == with_key(
                        in_turn(sources_view(runs)),
                        key,
                    ));
                }
            }
        }
        Ok(merged)
    }
}

/// The number of records, from a place on, that one run takes within a budget: a first one
/// in any case, then those that still fit.
pub open spec fn run_count(sizes: Seq<usize>, place: int, encoded: int, budget: usize) -> nat
    decreases sizes.len() - place,
{
    if place < 0 || place >= sizes.len() || encoded >= budget || (encoded != 0
        && sizes[place] > budget - encoded) {
        0
    } else {
        1 + run_count(sizes, place + 1, encoded + sizes[place], budget)
    }
}

/// The place behind the run that begins at a place.
pub fn cut_run(sizes: &Vec<usize>, start: usize, budget: usize) -> (end: usize)
    requires
        start <= sizes@.len(),
    ensures
        end == start + run_count(sizes@, start as int, 0, budget),
        start <= end <= sizes@.len(),
{
    let mut end: usize = start;
    let mut encoded: usize = 0;
    while end < sizes.len()
        invariant_except_break
            start <= end <= sizes@.len(),
            start + run_count(sizes@, start as int, 0, budget) == end + run_count(
                sizes@,
                end as int,
                encoded as int,
                budget,
            ),
        ensures
            start <= end <= sizes@.len(),
            end == start + run_count(sizes@, start as int, 0, budget),
        decreases sizes@.len() - end,
    {
        if encoded >= budget || (encoded != 0 && sizes[end] > budget - encoded) {
            break ;
        }
        if encoded == 0 && sizes[end] >= budget {
            // The run is full with its first record.
            end += 1;
            proof {
                assert(run_count(sizes@, end as int, sizes@[end - 1] as int, budget) == 0);
            }
            break ;
        }
        encoded = encoded + sizes[end];
        end += 1;
    }
    end
}

/// The items of each run, from a place on, that a sort within a budget makes.
pub open spec fn cut_pieces<T>(
    items: Seq<T>,
    sizes: Seq<usize>,
    start: int,
    budget: usize,
) -> Seq<Seq<T>>
    decreases sizes.len() - start,
{
    let count = run_count(sizes, start, 0, budget);
    if start < 0 || count == 0 || start + count > sizes.len() {
        Seq::empty()
    } else {
        seq![items.subrange(start, start + count)] + cut_pieces(
            items,
            sizes,
            start + count,
            budget,
        )
    }
}

/// Sort records within a byte budget: sorted runs of bounded size, merged a number at a time.
/// Records with equal keys stay in their order within a run, and in the order of the runs
/// where runs are merged.
pub fn sort_within<T: Ranked>(items: Vec<T>, sizes: &Vec<usize>, budget: WorkBudget) -> (result: Vec<T>)
    requires
        items@.len() == sizes@.len(),
        forall|i: int| 0 <= i < sizes@.len() ==> #[trigger] sizes@[i] > 0,
    ensures
        sorted(result@),
        result@.to_multiset() == items@.to_multiset(),
        same_by_key(
            arranged(cut_pieces(items@, sizes@, 0, budget.run_bytes()), budget.width()),
            result@,
        ),
{
    broadcast use vstd::seq_lib::group_to_multiset_ensures;

    let ghost given = items@;
    let limit: usize = budget.memory_target_bytes();
    let fan_in: usize = budget.fan_in();
    let merger: SortedRuns<T> = SortedRuns::new(fan_in);
    let mut compactor: RunCompactor<Vec<T>> = RunCompactor::new(fan_in);
    let mut remaining = items;
    let mut start: usize = 0;
    let ghost pieces = cut_pieces(given, sizes@, 0, limit);
    let ghost mut done: Seq<Seq<T>> = Seq::empty();
    proof {
        assert(done + pieces =~= pieces);
        assert(in_turn(done) =~= given.take(0));
        assert(given.skip(0) =~= given);
        assert(compacted(done, fan_in) =~= Seq::empty());
    }
    while start < sizes.len()
        invariant
            given == items@,
            given.len() == sizes@.len(),
            forall|i: int| 0 <= i < sizes@.len() ==> #[trigger] sizes@[i] > 0,
            limit > 0,
            start <= sizes@.len(),
            remaining@ == given.skip(start as int),
            pieces == done + cut_pieces(given, sizes@, start as int, limit),
            in_turn(done) == given.take(start as int),
            compactor.width() == fan_in == merger.most(),
            levels_sound(&merger, compactor.levels()),
            levels_represent(&merger, compactor.levels(), compacted(done, fan_in)),
        decreases sizes@.len() - start,
    {
        let end: usize = cut_run(sizes, start, limit);
        proof {
            assert(run_count(sizes@, start as int, 0, limit) >= 1);
        }
        let mut run = remaining;
        remaining = run.split_off(end - start);
        let ghost taken = run@;
        let ghost before = done;
        let run = sort(run);
        proof {
            assert(taken =~= given.subrange(start as int, end as int));
            assert(remaining@ =~= given.skip(end as int));
            assert(given.take(end as int) =~= given.take(start as int) + taken);
            done = done.push(taken);
            assert(done.drop_last() =~= before);
            assert(pieces =~= done + cut_pieces(given, sizes@, end as int, limit));
            assert(merger.represents(run, taken));
            assert(merger.sound(run));
        }
        match compactor.push(run, &merger) {
            Ok(next) => {
                compactor = next;
            },
            Err(_) => {
                // A merge of ordered runs is never refused.
                return remaining;
            },
        }
        start = end;
    }
    proof {
        assert(given.take(start as int) =~= given);
        assert(run_count(sizes@, start as int, 0, limit) == 0);
        assert(done =~= pieces);
        levels_stand_for(&merger, compactor.levels(), compacted(done, fan_in));
        assert(stand_for(&merger, compactor.runs(), arranged(done, fan_in)));
        arranged_items(done, fan_in);
    }
    match compactor.finish(&merger) {
        Ok(Some(run)) => {
            proof {
                assert(merger.represents(run, arranged(done, fan_in)));
                same_by_key_same_items(arranged(done, fan_in), run@);
            }
            run
        },
        _ => {
            proof {
                let parts = choose|parts: Seq<Seq<T>>| #[trigger]
                    all_represent(&merger, compactor.runs(), parts) && in_turn(parts) == arranged(
                        done,
                        fan_in,
                    );
                assert(parts.len() == 0);
                assert(given.to_multiset().len() == 0);
                assert(arranged(done, fan_in) =~= remaining@);
            }
            remaining
        },
    }
}

/// Merge ordered inputs, a number at a time. Items with equal keys stay in their order within
/// an input, and in the order of the inputs where they are merged.
pub fn merge_sorted<T: Ranked>(inputs: Vec<Vec<T>>, budget: WorkBudget) -> (result: Vec<T>)
    requires
        forall|i: int| 0 <= i < inputs@.len() ==> sorted((#[trigger] inputs@[i])@),
    ensures
        sorted(result@),
        result@.to_multiset() == all_items(sources_view(inputs@)),
        same_by_key(arranged(sources_view(inputs@), budget.width()), result@),
{
    broadcast use vstd::seq_lib::group_to_multiset_ensures;

    let ghost given = inputs@;
    let ghost views = sources_view(given);
    let fan_in: usize = budget.fan_in();
    let merger: SortedRuns<T> = SortedRuns::new(fan_in);
    let mut compactor: RunCompactor<Vec<T>> = RunCompactor::new(fan_in);
    let mut remaining = reversed(inputs);
    let ghost backward = remaining@;
    let ghost mut index: int = 0;
    proof {
        assert(views.take(0) =~= Seq::empty());
        assert(compacted(views.take(0), fan_in) =~= Seq::empty());
    }
    while remaining.len() > 0
        invariant
            given == inputs@,
            views == sources_view(given),
            forall|i: int| 0 <= i < given.len() ==> sorted((#[trigger] given[i])@),
            backward == given.reverse(),
            0 <= index <= given.len(),
            remaining@ == backward.take(given.len() - index),
            compactor.width() == fan_in == merger.most(),
            levels_sound(&merger, compactor.levels()),
            levels_represent(&merger, compactor.levels(), compacted(views.take(index), fan_in)),
        decreases remaining@.len(),
    {
        let run = remaining.pop().unwrap();
        proof {
            assert(run == given[index]);
            assert(remaining@ =~= backward.take(given.len() - (index + 1)));
            assert(views.take(index + 1).drop_last() =~= views.take(index));
            assert(views.take(index + 1).last() == run@);
            assert(merger.represents(run, run@));
            assert(merger.sound(run));
            index = index + 1;
        }
        match compactor.push(run, &merger) {
            Ok(next) => {
                compactor = next;
            },
            Err(_) => {
                // A merge of ordered runs is never refused.
                return Vec::new();
            },
        }
    }
    proof {
        assert(views.take(index) =~= views);
        levels_stand_for(&merger, compactor.levels(), compacted(views, fan_in));
        assert(stand_for(&merger, compactor.runs(), arranged(views, fan_in)));
        arranged_items(views, fan_in);
        all_items_in_turn(views);
    }
    match compactor.finish(&merger) {
        Ok(Some(run)) => {
            proof {
                assert(merger.represents(run, arranged(views, fan_in)));
                same_by_key_same_items(arranged(views, fan_in), run@);
            }
            run
        },
        _ => {
            let empty: Vec<T> = Vec::new();
            proof {
                let parts = choose|parts: Seq<Seq<T>>| #[trigger]
                    all_represent(&merger, compactor.runs(), parts) && in_turn(parts) == arranged(
                        views,
                        fan_in,
                    );
                assert(parts.len() == 0);
                assert(arranged(views, fan_in) =~= empty@);
            }
            empty
        },
    }
}

/// Items with the same key are the same.
pub open spec fn named_by_key<T: Ranked>(items: Seq<T>) -> bool {
    forall|i: int, j: int|
        0 <= i < items.len() && 0 <= j < items.len() && #[trigger] items[i].rank()
            == #[trigger] items[j].rank() ==> items[i] == items[j]
}

/// The first key of an ordered sequence does not come before all keys of another one that
/// holds the same items.
proof fn firsts_agree<T: Ranked>(left: Seq<T>, right: Seq<T>)
    requires
        sorted(right),
        left.to_multiset() == right.to_multiset(),
        left.len() > 0,
    ensures
        right.len() > 0,
        not_after(right[0].rank(), left[0].rank()),
        right.contains(left[0]),
{
    broadcast use vstd::seq_lib::group_to_multiset_ensures;

    assert(left.contains(left[0]));
    assert(right.to_multiset().count(left[0]) > 0);
    assert(right.contains(left[0]));
    let i = choose|i: int| 0 <= i < right.len() && right[i] == left[0];
    if i > 0 {
        assert(not_after(right[0].rank(), right[i].rank()));
    } else {
        before_irreflexive(left[0].rank());
    }
}

proof fn rest_is_sorted<T: Ranked>(items: Seq<T>)
    requires
        sorted(items),
        items.len() > 0,
    ensures
        sorted(items.skip(1)),
        named_by_key(items) ==> named_by_key(items.skip(1)),
        items.to_multiset() == seq![items[0]].to_multiset().add(items.skip(1).to_multiset()),
{
    let rest = items.skip(1);
    assert forall|i: int, j: int| 0 <= i < j < rest.len() implies #[trigger] not_after(
        rest[i].rank(),
        #[trigger] rest[j].rank(),
    ) by {
        assert(not_after(items[i + 1].rank(), items[j + 1].rank()));
    }
    if named_by_key(items) {
        assert forall|i: int, j: int|
            0 <= i < rest.len() && 0 <= j < rest.len() && #[trigger] rest[i].rank()
                == #[trigger] rest[j].rank() implies rest[i] == rest[j] by {
            assert(items[i + 1].rank() == items[j + 1].rank());
        }
    }
    assert(items =~= seq![items[0]] + rest);
    vstd::seq_lib::lemma_multiset_commutative(seq![items[0]], rest);
}

/// Sorting has one outcome where keys name items: whatever memory and number of streams a sort
/// or a merge may use, the same items come out in the same order.
pub proof fn sorting_has_one_outcome<T: Ranked>(left: Seq<T>, right: Seq<T>)
    requires
        sorted(left),
        sorted(right),
        left.to_multiset() == right.to_multiset(),
        named_by_key(left),
    ensures
        left == right,
    decreases left.len(),
{
    broadcast use vstd::seq_lib::group_to_multiset_ensures;

    assert(left.len() == left.to_multiset().len());
    assert(right.len() == right.to_multiset().len());
    if left.len() == 0 {
        assert(left =~= right);
    } else {
        firsts_agree(left, right);
        firsts_agree(right, left);
        before_total(left[0].rank(), right[0].rank());
        let i = choose|i: int| 0 <= i < left.len() && left[i] == right[0];
        assert(left[0].rank() == left[i].rank());
        assert(left[0] == right[0]);
        rest_is_sorted(left);
        rest_is_sorted(right);
        let head = seq![left[0]].to_multiset();
        assert(head == seq![right[0]].to_multiset());
        assert forall|item: T|
            left.skip(1).to_multiset().count(item) == right.skip(1).to_multiset().count(item) by {
            assert(left.to_multiset().count(item) == head.count(item)
                + left.skip(1).to_multiset().count(item));
            assert(right.to_multiset().count(item) == head.count(item)
                + right.skip(1).to_multiset().count(item));
        }
        assert(left.skip(1).to_multiset() =~= right.skip(1).to_multiset());
        sorting_has_one_outcome(left.skip(1), right.skip(1));
        assert(left =~= seq![left[0]] + left.skip(1));
        assert(right =~= seq![right[0]] + right.skip(1));
    }
}

/// A sort has one outcome: two ordered sequences that hold the same items, equal keys in the
/// same order, are the same.
pub proof fn order_of_equal_keys_fixes_a_sort<T: Ranked>(left: Seq<T>, right: Seq<T>)
    requires
        sorted(left),
        sorted(right),
        same_by_key(left, right),
    ensures
        left == right,
    decreases left.len(),
{
    same_by_key_same_items(left, right);
    if left.len() == 0 {
        assert(left =~= right);
    } else {
        firsts_agree(left, right);
        firsts_agree(right, left);
        before_total(left[0].rank(), right[0].rank());
        let key = left[0].rank();
        assert(right[0].rank() == key);
        let left_rest = left.skip(1);
        let right_rest = right.skip(1);
        rest_is_sorted(left);
        rest_is_sorted(right);
        assert(left =~= seq![left[0]] + left_rest);
        assert(right =~= seq![right[0]] + right_rest);
        with_key_all(seq![left[0]], key);
        with_key_all(seq![right[0]], key);
        assert forall|other: Seq<int>| #[trigger]
            with_key(left_rest, other) == with_key(right_rest, other) by {
            with_key_joined(seq![left[0]], left_rest, other);
            with_key_joined(seq![right[0]], right_rest, other);
            assert(with_key(left, other) == with_key(right, other));
            if other == key {
                assert((seq![left[0]] + with_key(left_rest, other)).skip(1) =~= with_key(
                    left_rest,
                    other,
                ));
                assert((seq![right[0]] + with_key(right_rest, other)).skip(1) =~= with_key(
                    right_rest,
                    other,
                ));
            } else {
                with_key_absent(seq![left[0]], other);
                with_key_absent(seq![right[0]], other);
                assert(Seq::<T>::empty() + with_key(left_rest, other) =~= with_key(
                    left_rest,
                    other,
                ));
                assert(Seq::<T>::empty() + with_key(right_rest, other) =~= with_key(
                    right_rest,
                    other,
                ));
            }
        }
        order_of_equal_keys_fixes_a_sort(left_rest, right_rest);
        assert(left[0] == right[0]) by {
            with_key_joined(seq![left[0]], left_rest, key);
            with_key_joined(seq![right[0]], right_rest, key);
            assert(with_key(left, key) == with_key(right, key));
            assert((seq![left[0]] + with_key(left_rest, key))[0] == left[0]);
            assert((seq![right[0]] + with_key(right_rest, key))[0] == right[0]);
        }
    }
}

} // verus!
