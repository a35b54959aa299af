//! The ordered store: fragment pairs in a vector kept sorted by key.

use crate::iter::IntoIter;
use crate::iter::Iter;
use crate::mem::Half;
use crate::order::below;
use crate::order::lawful;
use crate::order::lemma_transitive;
use crate::order::lemma_trichotomy;
use crate::order::Rank;
use crate::order::rank;
use crate::traits::Contains;
use crate::traits::fragments_of;
use crate::traits::Get;
use crate::traits::InnerMap;
use crate::traits::Insert;
use crate::traits::IntoIterate;
use crate::traits::Iterate;
use crate::traits::Length;
use crate::traits::MapKind;
use crate::traits::pairs_of;
use crate::traits::Remove;
use std::ops::Bound;
use vstd::prelude::*;

verus! {

/// The key values of a run of fragment pairs, in the order of the run.
spec fn keys_of<K, V>(run: Seq<(Half<K>, Half<V>)>) -> Seq<K> {
    Seq::new(run.len(), |i: int| run[i].0@)
}

/// Each key comes strictly before every later one.
pub open spec fn ascending<K: Ord>(keys: Seq<K>) -> bool {
    forall|i: int, j: int| 0 <= i < j < keys.len() ==> below(#[trigger] keys[i], #[trigger] keys[j])
}

/// The map that a run of fragment pairs stands for: each pair under its key's value.
spec fn filed<K, V>(run: Seq<(Half<K>, Half<V>)>) -> Map<K, (Half<K>, Half<V>)> {
    Map::new(
        |k: K| exists|i: int| 0 <= i < run.len() && (#[trigger] run[i]).0@ == k,
        |k: K| run[choose|i: int| 0 <= i < run.len() && (#[trigger] run[i]).0@ == k],
    )
}

/// `key` is no key of the run, and `at` is where it would have to stand.
spec fn gap<K: Ord, V>(run: Seq<(Half<K>, Half<V>)>, at: int, key: K) -> bool {
    &&& 0 <= at <= run.len()
    &&& forall|i: int| 0 <= i < at ==> below((#[trigger] run[i]).0@, key)
    &&& forall|i: int| at <= i < run.len() ==> below(key, (#[trigger] run[i]).0@)
}

/// In an ascending run no key stands twice.
proof fn lemma_distinct<K: Ord, V>(run: Seq<(Half<K>, Half<V>)>, i: int, j: int)
    requires
        lawful::<K>(),
        ascending(keys_of(run)),
        0 <= i < run.len(),
        0 <= j < run.len(),
        run[i].0@ == run[j].0@,
    ensures
        i == j,
{
    lemma_trichotomy(run[i].0@, run[j].0@);
    if i < j {
        assert(below(keys_of(run)[i], keys_of(run)[j]));
    } else if j < i {
        assert(below(keys_of(run)[j], keys_of(run)[i]));
    }
}

/// The pair at an index of an ascending run is the one filed under its key.
proof fn lemma_filed_at<K: Ord, V>(run: Seq<(Half<K>, Half<V>)>, i: int)
    requires
        lawful::<K>(),
        ascending(keys_of(run)),
        0 <= i < run.len(),
    ensures
        filed(run).contains_key(run[i].0@),
        filed(run)[run[i].0@] == run[i],
{
    let k = run[i].0@;
    let j = choose|j: int| 0 <= j < run.len() && (#[trigger] run[j]).0@ == k;
    lemma_distinct(run, i, j);
}

/// A key with a gap is not filed.
proof fn lemma_gap_absent<K: Ord, V>(run: Seq<(Half<K>, Half<V>)>, at: int, key: K)
    requires
        lawful::<K>(),
        gap(run, at, key),
    ensures
        !filed(run).contains_key(key),
{
    if filed(run).contains_key(key) {
        let j = choose|j: int| 0 <= j < run.len() && (#[trigger] run[j]).0@ == key;
        lemma_trichotomy(run[j].0@, key);
    }
}

/// Putting a pair into the gap of its key keeps the run ascending and files the pair.
proof fn lemma_insert<K: Ord, V>(run: Seq<(Half<K>, Half<V>)>, at: int, pair: (Half<K>, Half<V>))
    requires
        lawful::<K>(),
        ascending(keys_of(run)),
        gap(run, at, pair.0@),
    ensures
        ascending(keys_of(run.insert(at, pair))),
        filed(run.insert(at, pair)) == filed(run).insert(pair.0@, pair),
{
    let grown = run.insert(at, pair);
    assert forall|i: int, j: int| 0 <= i < j < grown.len() implies below(
        #[trigger] keys_of(grown)[i],
        #[trigger] keys_of(grown)[j],
    ) by {
        let a = if i < at { i } else { i - 1 };
        let b = if j < at { j } else { j - 1 };
        if i != at && j != at {
            assert(below(keys_of(run)[a], keys_of(run)[b]));
        } else if i == at {
            assert(grown[j] == run[b]);
        } else {
            assert(grown[i] == run[a]);
        }
    }
    assert forall|k: K| filed(grown).contains_key(k) <==> filed(run).insert(
        pair.0@,
        pair,
    ).contains_key(k) by {
        if filed(grown).contains_key(k) {
            let j = choose|j: int| 0 <= j < grown.len() && (#[trigger] grown[j]).0@ == k;
            if j < at {
                assert(run[j].0@ == k);
            } else if j > at {
                assert(run[j - 1].0@ == k);
            }
        }
        if filed(run).contains_key(k) {
            let j = choose|j: int| 0 <= j < run.len() && (#[trigger] run[j]).0@ == k;
            if j < at {
                assert(grown[j].0@ == k);
            } else {
                assert(grown[j + 1].0@ == k);
            }
        }
        if k == pair.0@ {
            assert(grown[at].0@ == k);
        }
    }
    assert forall|k: K| #[trigger] filed(grown).contains_key(k) implies filed(grown)[k] == filed(
        run,
    ).insert(pair.0@, pair)[k] by {
        let j = choose|j: int| 0 <= j < grown.len() && (#[trigger] grown[j]).0@ == k;
        lemma_filed_at(grown, j);
        if j < at {
            lemma_filed_at(run, j);
            lemma_gap_absent(run, at, pair.0@);
        } else if j > at {
            lemma_filed_at(run, j - 1);
            lemma_gap_absent(run, at, pair.0@);
        }
    }
    assert(filed(grown) =~= filed(run).insert(pair.0@, pair));
}

/// Putting a pair in the place of one with the same key keeps the run ascending and files
/// the new pair instead of the old one.
proof fn lemma_replace<K: Ord, V>(run: Seq<(Half<K>, Half<V>)>, at: int, pair: (Half<K>, Half<V>))
    requires
        lawful::<K>(),
        ascending(keys_of(run)),
        0 <= at < run.len(),
        run[at].0@ == pair.0@,
    ensures
        ascending(keys_of(run.update(at, pair))),
        filed(run.update(at, pair)) == filed(run).insert(pair.0@, pair),
{
    let changed = run.update(at, pair);
    assert forall|i: int, j: int| 0 <= i < j < changed.len() implies below(
        #[trigger] keys_of(changed)[i],
        #[trigger] keys_of(changed)[j],
    ) by {
        assert(below(keys_of(run)[i], keys_of(run)[j]));
    }
    assert forall|k: K| filed(changed).contains_key(k) <==> filed(run).insert(
        pair.0@,
        pair,
    ).contains_key(k) by {
        if filed(changed).contains_key(k) {
            let j = choose|j: int| 0 <= j < changed.len() && (#[trigger] changed[j]).0@ == k;
            assert(run[j].0@ == k);
        }
        if filed(run).contains_key(k) {
            let j = choose|j: int| 0 <= j < run.len() && (#[trigger] run[j]).0@ == k;
            assert(changed[j].0@ == k);
        }
        if k == pair.0@ {
            assert(changed[at].0@ == k);
        }
    }
    assert forall|k: K| #[trigger] filed(changed).contains_key(k) implies filed(changed)[k]
        == filed(run).insert(pair.0@, pair)[k] by {
        let j = choose|j: int| 0 <= j < changed.len() && (#[trigger] changed[j]).0@ == k;
        lemma_filed_at(changed, j);
        if j != at {
            lemma_filed_at(run, j);
            if k == pair.0@ {
                lemma_distinct(run, j, at);
            }
        }
    }
    assert(filed(changed) =~= filed(run).insert(pair.0@, pair));
}

/// Taking the pair at an index out keeps the run ascending and unfiles that pair alone.
proof fn lemma_remove<K: Ord, V>(run: Seq<(Half<K>, Half<V>)>, at: int)
    requires
        lawful::<K>(),
        ascending(keys_of(run)),
        0 <= at < run.len(),
    ensures
        ascending(keys_of(run.remove(at))),
        filed(run.remove(at)) == filed(run).remove(run[at].0@),
{
    let shrunk = run.remove(at);
    let gone = run[at].0@;
    assert forall|i: int, j: int| 0 <= i < j < shrunk.len() implies below(
        #[trigger] keys_of(shrunk)[i],
        #[trigger] keys_of(shrunk)[j],
    ) by {
        let a = if i < at { i } else { i + 1 };
        let b = if j < at { j } else { j + 1 };
        assert(below(keys_of(run)[a], keys_of(run)[b]));
    }
    assert forall|k: K| filed(shrunk).contains_key(k) <==> filed(run).remove(gone).contains_key(
        k,
    ) by {
        if filed(shrunk).contains_key(k) {
            let j = choose|j: int| 0 <= j < shrunk.len() && (#[trigger] shrunk[j]).0@ == k;
            let b = if j < at { j } else { j + 1 };
            assert(run[b].0@ == k);
            if k == gone {
                lemma_distinct(run, b, at);
            }
        }
        if filed(run).remove(gone).contains_key(k) {
            let j = choose|j: int| 0 <= j < run.len() && (#[trigger] run[j]).0@ == k;
            if j < at {
                assert(shrunk[j].0@ == k);
            } else {
                assert(shrunk[j - 1].0@ == k);
            }
        }
    }
    assert forall|k: K| #[trigger] filed(shrunk).contains_key(k) implies filed(shrunk)[k] == filed(
        run,
    ).remove(gone)[k] by {
        let j = choose|j: int| 0 <= j < shrunk.len() && (#[trigger] shrunk[j]).0@ == k;
        lemma_filed_at(shrunk, j);
        let b = if j < at { j } else { j + 1 };
        lemma_filed_at(run, b);
    }
    assert(filed(shrunk) =~= filed(run).remove(gone));
}

/// The keys filed by an ascending run are those of the run, each once.
proof fn lemma_filed_keys<K: Ord, V>(run: Seq<(Half<K>, Half<V>)>)
    requires
        lawful::<K>(),
        ascending(keys_of(run)),
    ensures
        keys_of(run).no_duplicates(),
        filed(run).dom() == keys_of(run).to_set(),
        filed(run).dom().finite(),
        filed(run).dom().len() == run.len(),
{
    let keys = keys_of(run);
    assert forall|i: int, j: int| 0 <= i < keys.len() && 0 <= j < keys.len() && i != j implies keys[i]
        != keys[j] by {
        if keys[i] == keys[j] {
            lemma_distinct(run, i, j);
        }
    }
    assert forall|k: K| filed(run).dom().contains(k) <==> keys.to_set().contains(k) by {
        if filed(run).dom().contains(k) {
            let j = choose|j: int| 0 <= j < run.len() && (#[trigger] run[j]).0@ == k;
            assert(keys[j] == k);
        }
        if keys.to_set().contains(k) {
            let j = choose|j: int| 0 <= j < keys.len() && keys[j] == k;
            assert(run[j].0@ == k);
        }
    }
    assert(filed(run).dom() =~= keys.to_set());
    keys.unique_seq_to_set();
    vstd::seq_lib::seq_to_set_is_finite(keys);
}

/// The marker of the ordered store among the kinds of store.
#[derive(Clone, Copy, Debug, Default, PartialEq, Eq)]
pub struct BTreeKind {}

impl<K: Ord, V> MapKind<K, V> for BTreeKind {
    type Map = InnerBTreeMap<K, V>;
}

/// A store that keeps its fragment pairs in ascending order of their keys.
pub struct InnerBTreeMap<K, V> {
    run: Vec<(Half<K>, Half<V>)>,
}

impl<K: Ord, V> InnerBTreeMap<K, V> {
    /// Where `key` stands in the run: whether it is there, and at which index it is or
    /// would have to be.
    fn search(&self, key: &K) -> (at: (bool, usize))
        requires
            self.wf(),
        ensures
            at.1 <= self.run.len(),
            at.0 ==> at.1 < self.run.len() && self.run@[at.1 as int].0@ == *key,
            !at.0 ==> gap(self.run@, at.1 as int, *key),
    {
        let mut low: usize = 0;
        let mut high: usize = self.run.len();
        while low < high
            invariant
                self.wf(),
                low <= high <= self.run.len(),
                forall|i: int| 0 <= i < low ==> below((#[trigger] self.run@[i]).0@, *key),
                forall|i: int| high <= i < self.run.len() ==> below(*key, (#[trigger] self.run@[i]).0@),
            decreases high - low,
        {
            let mid: usize = low + (high - low) / 2;
            match rank(self.run[mid].0.get(), key) {
                Rank::Same => {
                    return (true, mid);
                },
                Rank::Before => {
                    assert forall|i: int| 0 <= i < mid + 1 implies below(
                        (#[trigger] self.run@[i]).0@,
                        *key,
                    ) by {
                        if i < mid {
                            assert(below(keys_of(self.run@)[i], keys_of(self.run@)[mid as int]));
                            lemma_transitive(self.run@[i].0@, self.run@[mid as int].0@, *key);
                        }
                    }
                    low = mid + 1;
                },
                Rank::After => {
                    assert forall|i: int| mid <= i < self.run.len() implies below(
                        *key,
                        (#[trigger] self.run@[i]).0@,
                    ) by {
                        if mid < i {
                            assert(below(keys_of(self.run@)[mid as int], keys_of(self.run@)[i]));
                            lemma_transitive(*key, self.run@[mid as int].0@, self.run@[i].0@);
                        }
                    }
                    high = mid;
                },
            }
        }
        (false, low)
    }
}

impl<K: Ord, V> InnerMap for InnerBTreeMap<K, V> {
    type Key = K;

    type Value = V;

    open spec fn admits() -> bool {
        lawful::<K>()
    }

    closed spec fn entries(&self) -> Map<K, (Half<K>, Half<V>)> {
        filed(self.run@)
    }

    closed spec fn wf(&self) -> bool {
        lawful::<K>() && ascending(keys_of(self.run@))
    }

    proof fn lemma_entries(&self) {
        lemma_filed_keys(self.run@);
        assert forall|k: K| #[trigger] self.entries().contains_key(k) implies self.entries()[k].0@
            == k by {
            let j = choose|j: int| 0 <= j < self.run@.len() && (#[trigger] self.run@[j]).0@ == k;
        }
    }

    fn new() -> (store: Self) {
        let store = InnerBTreeMap { run: Vec::new() };
        assert(store.entries() =~= Map::<K, (Half<K>, Half<V>)>::empty());
        store
    }
}

impl<K: Ord, V> Length for InnerBTreeMap<K, V> {
    fn len(&self) -> (n: usize) {
        proof {
            lemma_filed_keys(self.run@);
        }
        self.run.len()
    }

    fn is_empty(&self) -> (empty: bool) {
        proof {
            lemma_filed_keys(self.run@);
        }
        self.run.is_empty()
    }
}

impl<K: Ord, V> Contains for InnerBTreeMap<K, V> {
    fn contains_key(&self, k: &K) -> (found: bool) {
        let (found, at) = self.search(k);
        proof {
            if found {
                lemma_filed_at(self.run@, at as int);
            } else {
                lemma_gap_absent(self.run@, at as int, *k);
            }
        }
        found
    }
}

impl<K: Ord, V> Get for InnerBTreeMap<K, V> {
    fn get(&self, k: &K) -> (value: Option<&V>) {
        let (found, at) = self.search(k);
        if found {
            proof {
                lemma_filed_at(self.run@, at as int);
            }
            Some(self.run[at].1.get())
        } else {
            proof {
                lemma_gap_absent(self.run@, at as int, *k);
            }
            None
        }
    }

    fn get_entry(&self, k: &K) -> (entry: Option<(&K, &V)>) {
        let (found, at) = self.search(k);
        if found {
            proof {
                lemma_filed_at(self.run@, at as int);
            }
            Some((self.run[at].0.get(), self.run[at].1.get()))
        } else {
            proof {
                lemma_gap_absent(self.run@, at as int, *k);
            }
            None
        }
    }
}

impl<K: Ord, V> Insert for InnerBTreeMap<K, V> {
    fn insert(&mut self, k: Half<K>, v: Half<V>) {
        let (found, at) = self.search(k.get());
        if found {
            proof {
                lemma_replace(self.run@, at as int, (k, v));
            }
            self.run[at] = (k, v);
        } else {
            proof {
                lemma_insert(self.run@, at as int, (k, v));
            }
            self.run.insert(at, (k, v));
        }
    }
}

impl<K: Ord, V> Iterate for InnerBTreeMap<K, V> {
    closed spec fn order(&self) -> Seq<K> {
        keys_of(self.run@)
    }

    proof fn lemma_order(&self) {
        lemma_filed_keys(self.run@);
    }

    fn nth(&self, i: usize) -> (entry: Option<(&K, &V)>) {
        if i < self.run.len() {
            proof {
                lemma_filed_at(self.run@, i as int);
            }
            Some((self.run[i].0.get(), self.run[i].1.get()))
        } else {
            None
        }
    }
}

impl<K: Ord, V> IntoIterate for InnerBTreeMap<K, V> {
    fn into_iter(self) -> (iter: IntoIter<K, V>) {
        proof {
            assert forall|i: int| 0 <= i < self.run@.len() implies self.run@[i] == fragments_of(
                &self,
            )[i] by {
                lemma_filed_at(self.run@, i);
            }
            assert(self.run@ =~= fragments_of(&self));
        }
        IntoIter::over(self.run)
    }
}

impl<K: Ord, V> Remove for InnerBTreeMap<K, V> {
    fn remove_entry(&mut self, k: &K) -> (entry: Option<(Half<K>, Half<V>)>) {
        let (found, at) = self.search(k);
        if found {
            proof {
                lemma_filed_at(self.run@, at as int);
                lemma_remove(self.run@, at as int);
            }
            Some(self.run.remove(at))
        } else {
            proof {
                lemma_gap_absent(self.run@, at as int, *k);
                assert(self.entries().remove(*k) =~= self.entries());
            }
            None
        }
    }
}

/// Makes `std::ops::Bound` known with its three variants; nothing is claimed of it.
#[verifier::external_type_specification]
#[verifier::reject_recursive_types(T)]
pub struct ExBound<T>(Bound<T>);

/// `k` is not before the start of a range.
pub open spec fn above<K: Ord>(start: Bound<&K>, k: K) -> bool {
    match start {
        Bound::Included(s) => !below(k, *s),
        Bound::Excluded(s) => below(*s, k),
        Bound::Unbounded => true,
    }
}

/// `k` is not past the end of a range.
pub open spec fn under<K: Ord>(end: Bound<&K>, k: K) -> bool {
    match end {
        Bound::Included(e) => !below(*e, k),
        Bound::Excluded(e) => below(k, *e),
        Bound::Unbounded => true,
    }
}

/// The left values of a sequence of pairs.
pub open spec fn firsts<K, V>(pairs: Seq<(K, V)>) -> Seq<K> {
    Seq::new(pairs.len(), |i: int| pairs[i].0)
}

/// How the keys of an ascending run stand to a key, given where the key is or would be.
proof fn lemma_sides_of<K: Ord, V>(run: Seq<(Half<K>, Half<V>)>, found: bool, at: int, key: K)
    requires
        lawful::<K>(),
        ascending(keys_of(run)),
        found ==> 0 <= at < run.len() && run[at].0@ == key,
        !found ==> gap(run, at, key),
    ensures
        forall|i: int| 0 <= i < at ==> below((#[trigger] run[i]).0@, key),
        forall|i: int|
            (if found { at < i } else { at <= i }) && i < run.len() ==> below(
                key,
                (#[trigger] run[i]).0@,
            ),
{
    if found {
        assert forall|i: int| 0 <= i < at implies below((#[trigger] run[i]).0@, key) by {
            assert(below(keys_of(run)[i], keys_of(run)[at]));
        }
        assert forall|i: int| at < i < run.len() implies below(key, (#[trigger] run[i]).0@) by {
            assert(below(keys_of(run)[at], keys_of(run)[i]));
        }
    }
}

/// A cursor over the pairs of an ordered store whose keys lie in a range, in ascending order.
pub struct Range<'a, K, V> {
    cursor: Iter<'a, InnerBTreeMap<K, V>>,
}

impl<'a, K: Ord, V> Range<'a, K, V> {
    /// The cursor stands within a well-formed store.
    pub closed spec fn wf(&self) -> bool {
        self.cursor.wf()
    }

    /// The pairs still to come, in ascending order of their keys.
    pub closed spec fn remaining(&self) -> Seq<(K, V)> {
        self.cursor.remaining()
    }

    /// The number of pairs still to come.
    pub fn len(&self) -> (n: usize)
        requires
            self.wf(),
        ensures
            n == self.remaining().len(),
    {
        self.cursor.len()
    }

    /// The number of pairs still to come, as the least and the most that it can be.
    pub fn size_hint(&self) -> (bounds: (usize, Option<usize>))
        requires
            self.wf(),
        ensures
            bounds.0 == self.remaining().len(),
            bounds.1 == Some(bounds.0),
    {
        self.cursor.size_hint()
    }

    /// The next pair from the front.
    pub fn next(&mut self) -> (entry: Option<(&'a K, &'a V)>)
        requires
            old(self).wf(),
        ensures
            final(self).wf(),
            match entry {
                Some((k, v)) => old(self).remaining().len() > 0 && (*k, *v) == old(
                    self,
                ).remaining().first() && final(self).remaining() == old(
                    self,
                ).remaining().drop_first(),
                None => old(self).remaining().len() == 0 && final(self).remaining() == old(
                    self,
                ).remaining(),
            },
    {
        self.cursor.next()
    }

    /// The next pair from the back.
    pub fn next_back(&mut self) -> (entry: Option<(&'a K, &'a V)>)
        requires
            old(self).wf(),
        ensures
            final(self).wf(),
            match entry {
                Some((k, v)) => old(self).remaining().len() > 0 && (*k, *v) == old(
                    self,
                ).remaining().last() && final(self).remaining() == old(
                    self,
                ).remaining().drop_last(),
                None => old(self).remaining().len() == 0 && final(self).remaining() == old(
                    self,
                ).remaining(),
            },
    {
        self.cursor.next_back()
    }
}

impl<K: Ord, V> InnerBTreeMap<K, V> {
    /// The keys of a well-formed store ascend.
    pub proof fn lemma_ascending(&self)
        requires
            self.wf(),
        ensures
            ascending(self.order()),
    {
    }

    /// A cursor over all pairs, in ascending order of their keys.
    pub fn iter(&self) -> (iter: Iter<'_, Self>)
        requires
            self.wf(),
        ensures
            iter.wf(),
            iter.remaining() == pairs_of(self),
    {
        let iter = Iter::over(self, 0, self.run.len());
        assert(pairs_of(self).subrange(0, self.run.len() as int) =~= pairs_of(self));
        iter
    }

    /// The first place of the run whose key is not before `start`.
    fn lower(&self, start: Bound<&K>) -> (lo: usize)
        requires
            self.wf(),
        ensures
            lo <= self.run.len(),
            forall|i: int|
                0 <= i < self.run.len() ==> (lo <= i <==> above(start, (#[trigger] self.run@[i]).0@)),
    {
        match start {
            Bound::Unbounded => 0,
            Bound::Included(s) => {
                let (found, at) = self.search(s);
                proof {
                    lemma_sides_of(self.run@, found, at as int, *s);
                    assert forall|i: int| 0 <= i < self.run.len() implies (at <= i <==> above(
                        start,
                        (#[trigger] self.run@[i]).0@,
                    )) by {
                        lemma_trichotomy(self.run@[i].0@, *s);
                    }
                }
                at
            },
            Bound::Excluded(s) => {
                let (found, at) = self.search(s);
                let lo = if found { at + 1 } else { at };
                proof {
                    lemma_sides_of(self.run@, found, at as int, *s);
                    assert forall|i: int| 0 <= i < self.run.len() implies (lo <= i <==> above(
                        start,
                        (#[trigger] self.run@[i]).0@,
                    )) by {
                        lemma_trichotomy(self.run@[i].0@, *s);
                    }
                }
                lo
            },
        }
    }

    /// The first place of the run whose key is past `end`.
    fn upper(&self, end: Bound<&K>) -> (hi: usize)
        requires
            self.wf(),
        ensures
            hi <= self.run.len(),
            forall|i: int|
                0 <= i < self.run.len() ==> (i < hi <==> under(end, (#[trigger] self.run@[i]).0@)),
    {
        match end {
            Bound::Unbounded => self.run.len(),
            Bound::Excluded(e) => {
                let (found, at) = self.search(e);
                proof {
                    lemma_sides_of(self.run@, found, at as int, *e);
                    assert forall|i: int| 0 <= i < self.run.len() implies (i < at <==> under(
                        end,
                        (#[trigger] self.run@[i]).0@,
                    )) by {
                        lemma_trichotomy(self.run@[i].0@, *e);
                    }
                }
                at
            },
            Bound::Included(e) => {
                let (found, at) = self.search(e);
                let hi = if found { at + 1 } else { at };
                proof {
                    lemma_sides_of(self.run@, found, at as int, *e);
                    assert forall|i: int| 0 <= i < self.run.len() implies (i < hi <==> under(
                        end,
                        (#[trigger] self.run@[i]).0@,
                    )) by {
                        lemma_trichotomy(self.run@[i].0@, *e);
                    }
                }
                hi
            },
        }
    }

    /// A cursor over the pairs whose keys lie between `start` and `end`, in ascending order.
    /// Where no key lies between them there is nothing to come.
    pub fn range(&self, start: Bound<&K>, end: Bound<&K>) -> (range: Range<'_, K, V>)
        requires
            self.wf(),
        ensures
            range.wf(),
            ascending(firsts(range.remaining())),
            forall|i: int|
                0 <= i < range.remaining().len() ==> {
                    let (k, v) = #[trigger] range.remaining()[i];
                    &&& self.entries().contains_key(k)
                    &&& self.entries()[k].1@ == v
                    &&& above(start, k)
                    &&& under(end, k)
                },
            forall|k: K|
                self.entries().contains_key(k) && above(start, k) && under(end, k) ==> firsts(
                    range.remaining(),
                ).contains(k),
    {
        let lo = self.lower(start);
        let hi = self.upper(end);
        let lo = if lo > hi { hi } else { lo };
        let cursor = Iter::over(self, lo, hi);
        let range = Range { cursor };
        proof {
            let rem = range.remaining();
            assert forall|i: int| 0 <= i < rem.len() implies {
                let (k, v) = #[trigger] rem[i];
                &&& self.entries().contains_key(k)
                &&& self.entries()[k].1@ == v
                &&& above(start, k)
                &&& under(end, k)
            } by {
                lemma_filed_at(self.run@, lo + i);
                assert(rem[i].0 == self.run@[lo + i].0@);
            }
            assert forall|i: int, j: int| 0 <= i < j < rem.len() implies below(
                #[trigger] firsts(rem)[i],
                #[trigger] firsts(rem)[j],
            ) by {
                assert(below(keys_of(self.run@)[lo + i], keys_of(self.run@)[lo + j]));
            }
            assert forall|k: K|
                self.entries().contains_key(k) && above(start, k) && under(end, k) implies firsts(
                rem,
            ).contains(k) by {
                let j = choose|j: int| 0 <= j < self.run@.len() && (#[trigger] self.run@[j]).0@ == k;
                assert(lo <= j < hi);
                assert(firsts(rem)[j - lo] == k);
            }
        }
        range
    }
}

} // verus!
