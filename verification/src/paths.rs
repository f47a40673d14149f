//! Ordered sets of paths.

use vstd::prelude::*;

use crate::order::{
    before, before_irreflexive, reversed, same_by_key_same_items, sort, strictly_sorted, Ranked,
};
use crate::ordered::{has_key_from, ranks, unique, unique_keys_increase};
use crate::text::{same_text, text_precedes, text_rank, text_rank_is_injective};

verus! {

/// A path that is ordered by its bytes.
#[derive(Debug)]
pub struct PathKey {
    pub text: String,
}

impl Ranked for PathKey {
    open spec fn rank(&self) -> Seq<int> {
        text_rank(self.text@)
    }

    fn precedes(&self, other: &Self) -> (result: bool) {
        text_precedes(self.text.as_str(), other.text.as_str())
    }
}

pub open spec fn texts_view(texts: Seq<String>) -> Seq<Seq<char>> {
    Seq::new(texts.len(), |i: int| texts[i]@)
}

pub open spec fn has_text(texts: Seq<Seq<char>>, text: Seq<char>) -> bool {
    exists|i: int| 0 <= i < texts.len() && #[trigger] texts[i] == text
}

/// The texts stand in their order, and none occurs twice.
pub open spec fn texts_increase(texts: Seq<Seq<char>>) -> bool {
    forall|i: int, j: int|
        0 <= i < j < texts.len() ==> before(
            text_rank(#[trigger] texts[i]),
            text_rank(#[trigger] texts[j]),
        )
}

/// A set of paths in their order.
#[derive(Debug)]
pub struct PathSet {
    keys: Vec<PathKey>,
}

impl PathSet {
    /// The paths, in their order.
    pub closed spec fn view(&self) -> Seq<Seq<char>> {
        Seq::new(self.keys@.len(), |i: int| self.keys@[i].text@)
    }

    /// The path is in the set.
    pub open spec fn has(&self, path: Seq<char>) -> bool {
        has_text(self@, path)
    }

    #[verifier::type_invariant]
    spec fn is_ordered(self) -> bool {
        strictly_sorted(self.keys@)
    }

    /// The set of the given paths.
    pub fn from_paths(paths: Vec<String>) -> (set: Self)
        ensures
            texts_increase(set@),
            forall|path: Seq<char>|
                #[trigger] set.has(path) <==> has_text(texts_view(paths@), path),
    {
        let ghost given = paths@;
        let mut remaining = reversed(paths);
        let ghost backward = remaining@;
        let mut keys: Vec<PathKey> = Vec::new();
        let ghost mut index: int = 0;
        while remaining.len() > 0
            invariant
                given == paths@,
                backward == given.reverse(),
                0 <= index <= given.len(),
                remaining@ == backward.take(given.len() - index),
                keys@.len() == index,
                forall|i: int| 0 <= i < index ==> (#[trigger] keys@[i]).text@ == given[i]@,
            decreases remaining@.len(),
        {
            let text = remaining.pop().unwrap();
            proof {
                assert(text == given[index]);
                assert(remaining@ =~= backward.take(given.len() - (index + 1)));
                index = index + 1;
            }
            keys.push(PathKey { text });
        }
        let ghost unordered = keys@;
        let ordered = sort(keys);
        let ghost all = ordered@;
        let keys = unique(ordered);
        proof {
            same_by_key_same_items(unordered, all);
            unique_keys_increase(all);
        }
        let set = PathSet { keys };
        proof {
            assert forall|i: int, j: int| 0 <= i < j < set@.len() implies before(
                text_rank(#[trigger] set@[i]),
                text_rank(#[trigger] set@[j]),
            ) by {
                assert(before(keys@[i].rank(), keys@[j].rank()));
            }
            assert forall|path: Seq<char>|
                #[trigger] set.has(path) <==> has_text(texts_view(given), path) by {
                let key = text_rank(path);
                assert(has_key_from(ranks(all), key, 0) <==> has_key_from(ranks(keys@), key, 0));
                if set.has(path) {
                    let i = choose|i: int| 0 <= i < set@.len() && #[trigger] set@[i] == path;
                    assert(ranks(keys@)[i] == key);
                    let k = choose|k: int| 0 <= k < all.len() && #[trigger] ranks(all)[k] == key;
                    text_rank_is_injective(all[k].text@, path);
                    assert(all.to_multiset().contains(all[k])) by {
                        broadcast use vstd::seq_lib::group_to_multiset_ensures;

                        assert(all.contains(all[k]));
                    }
                    assert(unordered.contains(all[k])) by {
                        broadcast use vstd::seq_lib::group_to_multiset_ensures;

                    }
                    let m = choose|m: int| 0 <= m < unordered.len() && unordered[m] == all[k];
                    assert(texts_view(given)[m] == path);
                }
                if has_text(texts_view(given), path) {
                    let m = choose|m: int|
                        0 <= m < given.len() && #[trigger] texts_view(given)[m] == path;
                    assert(unordered[m].text@ == path);
                    assert(all.contains(unordered[m])) by {
                        broadcast use vstd::seq_lib::group_to_multiset_ensures;

                        assert(unordered.contains(unordered[m]));
                    }
                    let k = choose|k: int| 0 <= k < all.len() && all[k] == unordered[m];
                    assert(ranks(all)[k] == key);
                    let i = choose|i: int| 0 <= i < keys@.len() && #[trigger] ranks(keys@)[i] == key;
                    text_rank_is_injective(keys@[i].text@, path);
                    assert(set@[i] == path);
                }
            }
        }
        set
    }

    pub fn contains(&self, path: &str) -> (result: bool)
        ensures
            result == self.has(path@),
    {
        let mut index: usize = 0;
        while index < self.keys.len()
            invariant
                index <= self.keys@.len(),
                forall|i: int| 0 <= i < index ==> #[trigger] self@[i] != path@,
            decreases self.keys@.len() - index,
        {
            if same_text(self.keys[index].text.as_str(), path) {
                assert(self@[index as int] == path@);
                return true;
            }
            index += 1;
        }
        false
    }

    pub fn is_empty(&self) -> (result: bool)
        ensures
            result == (self@.len() == 0),
    {
        self.keys.len() == 0
    }

    pub fn len(&self) -> (count: usize)
        ensures
            count == self@.len(),
    {
        self.keys.len()
    }

    /// The path at a place.
    pub fn path(&self, place: usize) -> (path: &str)
        requires
            place < self@.len(),
        ensures
            path@ == self@[place as int],
    {
        self.keys[place].text.as_str()
    }

    /// Whether two sets have the same paths.
    pub fn same(&self, other: &Self) -> (result: bool)
        ensures
            result == (self@ == other@),
            result == (forall|path: Seq<char>| #[trigger] self.has(path) == other.has(path)),
    {
        proof {
            use_type_invariant(self);
            use_type_invariant(other);
            if forall|path: Seq<char>| #[trigger] self.has(path) == other.has(path) {
                assert forall|i: int, j: int| 0 <= i < j < self@.len() implies before(
                    text_rank(#[trigger] self@[i]),
                    text_rank(#[trigger] self@[j]),
                ) by {
                    assert(before(self.keys@[i].rank(), self.keys@[j].rank()));
                }
                assert forall|i: int, j: int| 0 <= i < j < other@.len() implies before(
                    text_rank(#[trigger] other@[i]),
                    text_rank(#[trigger] other@[j]),
                ) by {
                    assert(before(other.keys@[i].rank(), other.keys@[j].rank()));
                }
                assert forall|path: Seq<char>|
                    #[trigger] has_text(self@, path) == has_text(other@, path) by {
                    assert(self.has(path) == other.has(path));
                }
                ordered_texts_are_one(self@, other@);
            }
        }
        if self.keys.len() != other.keys.len() {
            assert(self@.len() != other@.len());
            return false;
        }
        let mut index: usize = 0;
        while index < self.keys.len()
            invariant
                index <= self.keys@.len(),
                self.keys@.len() == other.keys@.len(),
                (forall|path: Seq<char>| #[trigger] self.has(path) == other.has(path)) ==> self@
                    == other@,
                forall|i: int| 0 <= i < index ==> self@[i] == #[trigger] other@[i],
            decreases self.keys@.len() - index,
        {
            if !same_text(self.keys[index].text.as_str(), other.keys[index].text.as_str()) {
                assert(self@[index as int] != other@[index as int]);
                return false;
            }
            index += 1;
        }
        assert(self@ =~= other@);
        true
    }
}

/// Two ordered lists of the same texts are equal.
pub proof fn ordered_texts_are_one(left: Seq<Seq<char>>, right: Seq<Seq<char>>)
    requires
        texts_increase(left),
        texts_increase(right),
        forall|text: Seq<char>| #[trigger] has_text(left, text) == has_text(right, text),
    ensures
        left == right,
    decreases left.len() + right.len(),
{
    if left.len() == 0 {
        if right.len() > 0 {
            assert(has_text(right, right[0]));
            assert(has_text(left, right[0]));
        }
        assert(left =~= right);
    } else if right.len() == 0 {
        assert(has_text(left, left[0]));
        assert(has_text(right, left[0]));
    } else {
        let a = left.last();
        let b = right.last();
        let x = left.len() - 1;
        let y = right.len() - 1;
        assert(left[x] == a && right[y] == b);
        assert(has_text(left, a) && has_text(right, b));
        assert(has_text(right, a) && has_text(left, b));
        let i = choose|i: int| 0 <= i < right.len() && #[trigger] right[i] == a;
        let j = choose|j: int| 0 <= j < left.len() && #[trigger] left[j] == b;
        if i < y && j < x {
            assert(before(text_rank(right[i]), text_rank(right[y])));
            assert(before(text_rank(left[j]), text_rank(left[x])));
            crate::order::before_asymmetric(text_rank(a), text_rank(b));
        }
        assert(a == b);
        let fewer = left.drop_last();
        let less = right.drop_last();
        assert forall|k: int, m: int| 0 <= k < m < fewer.len() implies before(
            text_rank(#[trigger] fewer[k]),
            text_rank(#[trigger] fewer[m]),
        ) by {
            assert(before(text_rank(left[k]), text_rank(left[m])));
        }
        assert forall|k: int, m: int| 0 <= k < m < less.len() implies before(
            text_rank(#[trigger] less[k]),
            text_rank(#[trigger] less[m]),
        ) by {
            assert(before(text_rank(right[k]), text_rank(right[m])));
        }
        assert forall|text: Seq<char>| #[trigger] has_text(fewer, text) == has_text(less, text) by {
            before_irreflexive(text_rank(a));
            assert(has_text(left, text) == has_text(right, text));
            if has_text(fewer, text) {
                let k = choose|k: int| 0 <= k < fewer.len() && #[trigger] fewer[k] == text;
                assert(left[k] == text);
                assert(before(text_rank(left[k]), text_rank(left[x])));
                assert(has_text(right, text));
                let m = choose|m: int| 0 <= m < right.len() && #[trigger] right[m] == text;
                assert(m != y);
                assert(less[m] == text);
            }
            if has_text(less, text) {
                let m = choose|m: int| 0 <= m < less.len() && #[trigger] less[m] == text;
                assert(right[m] == text);
                assert(before(text_rank(right[m]), text_rank(right[y])));
                assert(has_text(left, text));
                let k = choose|k: int| 0 <= k < left.len() && #[trigger] left[k] == text;
                assert(k != x);
                assert(fewer[k] == text);
            }
        }
        ordered_texts_are_one(fewer, less);
        assert(left =~= fewer.push(a));
        assert(right =~= less.push(b));
    }
}

/// The form in which std writes a list of texts for a reader, quoted and escaped.
pub uninterp spec fn listed(texts: Seq<Seq<char>>) -> Seq<char>;

/// A list of texts for a reader.
///
/// Trusted: the `Debug` form of a `Vec<String>` is a function of its texts alone.
#[verifier::external_body]
pub(crate) fn list_texts(texts: &Vec<String>) -> (text: String)
    ensures
        text@ == listed(texts_view(texts@)),
{
    format!("{texts:?}")
}

} // verus!
