//! The bidirectional map: two stores that hold the two sides of the same pairs.

use crate::btree::above;
use crate::btree::ascending;
use crate::btree::firsts;
use crate::btree::InnerBTreeMap;
use crate::btree::Range;
use crate::btree::under;
use crate::iter::flipped;
use crate::iter::Iter;
use crate::iter::Mirrored;
use crate::mem::Half;
use crate::order::below;
use crate::traits::fragments_of;
use crate::traits::FullInnerMap;
use crate::traits::IntoIterate;
use crate::traits::Iterate;
use crate::traits::pairs_of;
use std::ops::Bound;
use vstd::prelude::*;

verus! {

/// What an insertion pushed out of the map.
#[derive(Debug, PartialEq, Eq)]
pub enum Overwritten<L, R> {
    /// Neither value was in the map.
    Zero,
    /// One pair held the left value, the right value, or both.
    One((L, R)),
    /// One pair held the left value and another one the right value.
    Two((L, R), (L, R)),
}

/// The left value that `m` pairs with `r`.
pub open spec fn left_of<L, R>(m: Map<L, R>, r: R) -> L {
    choose|l: L| m.contains_pair(l, r)
}

/// The pair that leaves `m` when the left value `l` is removed.
pub open spec fn taken_left<L, R>(m: Map<L, R>, l: L) -> Option<(L, R)> {
    if m.contains_key(l) {
        Some((l, m[l]))
    } else {
        None
    }
}

/// The pair that leaves `m` when the right value `r` is removed.
pub open spec fn taken_right<L, R>(m: Map<L, R>, r: R) -> Option<(L, R)> {
    if m.contains_value(r) {
        Some((left_of(m, r), r))
    } else {
        None
    }
}

/// The pairs of `m` but the one with the right value `r`.
pub open spec fn without_right<L, R>(m: Map<L, R>, r: R) -> Map<L, R> {
    if m.contains_value(r) {
        m.remove(left_of(m, r))
    } else {
        m
    }
}

/// What inserting `(l, r)` pushes out of `m`.
pub open spec fn displaced<L, R>(m: Map<L, R>, l: L, r: R) -> Overwritten<L, R> {
    if m.contains_key(l) {
        if m[l] == r || !m.contains_value(r) {
            Overwritten::One((l, m[l]))
        } else {
            Overwritten::Two((l, m[l]), (left_of(m, r), r))
        }
    } else if m.contains_value(r) {
        Overwritten::One((left_of(m, r), r))
    } else {
        Overwritten::Zero
    }
}

/// The pairs of `m` after `(l, r)` was inserted: those that held neither value, and `(l, r)`.
pub open spec fn replaced<L, R>(m: Map<L, R>, l: L, r: R) -> Map<L, R> {
    if m.contains_value(r) {
        m.remove(l).remove(left_of(m, r)).insert(l, r)
    } else {
        m.remove(l).insert(l, r)
    }
}

/// Each pair of `one` is filed under its key's value, and the other store files the twins
/// of its fragments, turned round, under its value.
pub open spec fn linked<A, B>(
    one: Map<A, (Half<A>, Half<B>)>,
    other: Map<B, (Half<B>, Half<A>)>,
) -> bool {
    forall|a: A| #[trigger]
        one.contains_key(a) ==> {
            let (key, value) = one[a];
            &&& key@ == a
            &&& other.contains_key(value@)
            &&& other[value@].0.is_twin(&value)
            &&& other[value@].1.is_twin(&key)
        }
}

/// Two stores that are linked stay so when a pair leaves both.
proof fn lemma_unlink<A, B>(
    one: Map<A, (Half<A>, Half<B>)>,
    other: Map<B, (Half<B>, Half<A>)>,
    a: A,
)
    requires
        linked(one, other),
        linked(other, one),
        one.contains_key(a),
    ensures
        linked(one.remove(a), other.remove(one[a].1@)),
        linked(other.remove(one[a].1@), one.remove(a)),
{
    let b = one[a].1@;
    assert(other.contains_key(b));
    assert forall|x: A| #[trigger] one.remove(a).contains_key(x) implies {
        let (key, value) = one.remove(a)[x];
        &&& key@ == x
        &&& other.remove(b).contains_key(value@)
        &&& other.remove(b)[value@].0.is_twin(&value)
        &&& other.remove(b)[value@].1.is_twin(&key)
    } by {
        assert(one.contains_key(x));
        assert(other.contains_key(one[x].1@));
    }
    assert forall|y: B| #[trigger] other.remove(b).contains_key(y) implies {
        let (key, value) = other.remove(b)[y];
        &&& key@ == y
        &&& one.remove(a).contains_key(value@)
        &&& one.remove(a)[value@].0.is_twin(&value)
        &&& one.remove(a)[value@].1.is_twin(&key)
    } by {
        assert(other.contains_key(y));
        assert(one.contains_key(other[y].1@));
    }
}

/// Two stores that are linked stay so when each gets its share of a new pair.
proof fn lemma_link<A, B>(
    one: Map<A, (Half<A>, Half<B>)>,
    other: Map<B, (Half<B>, Half<A>)>,
    mine: (Half<A>, Half<B>),
    yours: (Half<B>, Half<A>),
)
    requires
        linked(one, other),
        linked(other, one),
        !one.contains_key(mine.0@),
        !other.contains_key(yours.0@),
        mine.0.is_twin(&yours.1),
        mine.1.is_twin(&yours.0),
    ensures
        linked(one.insert(mine.0@, mine), other.insert(yours.0@, yours)),
        linked(other.insert(yours.0@, yours), one.insert(mine.0@, mine)),
{
    let a = mine.0@;
    let b = yours.0@;
    let grown = one.insert(a, mine);
    let turned = other.insert(b, yours);
    assert forall|x: A| #[trigger] grown.contains_key(x) implies {
        let (key, value) = grown[x];
        &&& key@ == x
        &&& turned.contains_key(value@)
        &&& turned[value@].0.is_twin(&value)
        &&& turned[value@].1.is_twin(&key)
    } by {
        if x != a {
            assert(one.contains_key(x));
            assert(other.contains_key(one[x].1@));
        }
    }
    assert forall|y: B| #[trigger] turned.contains_key(y) implies {
        let (key, value) = turned[y];
        &&& key@ == y
        &&& grown.contains_key(value@)
        &&& grown[value@].0.is_twin(&value)
        &&& grown[value@].1.is_twin(&key)
    } by {
        if y != b {
            assert(other.contains_key(y));
            assert(one.contains_key(other[y].1@));
        }
    }
}

/// A map of unique pairs, each found by its left value and by its right value.
pub struct BiMap<LMap, RMap> {
    lmap: LMap,
    rmap: RMap,
}

impl<L, R, LMap, RMap> BiMap<LMap, RMap> where
    LMap: FullInnerMap<Key = L, Value = R>,
    RMap: FullInnerMap<Key = R, Value = L>,
 {
    /// The two stores are well formed and hold the two sides of the same pairs, each value
    /// split once between them.
    pub closed spec fn wf(&self) -> bool {
        &&& self.lmap.wf()
        &&& self.rmap.wf()
        &&& linked(self.lmap.entries(), self.rmap.entries())
        &&& linked(self.rmap.entries(), self.lmap.entries())
    }

    /// The pairs of the map, each right value under its left value.
    pub closed spec fn view(&self) -> Map<L, R> {
        Map::new(|l: L| self.lmap.entries().contains_key(l), |l: L| self.lmap.entries()[l].1@)
    }

    /// How the view stands to the two stores.
    proof fn lemma_sides(&self)
        requires
            self.wf(),
        ensures
            self@.dom() == self.lmap.entries().dom(),
            self@.dom().finite(),
            self@.is_injective(),
            forall|l: L| #[trigger]
                self.lmap.entries().contains_key(l) ==> self.lmap.entries()[l].0@ == l,
            forall|r: R| #[trigger]
                self.rmap.entries().contains_key(r) ==> self.rmap.entries()[r].0@ == r,
            forall|r: R| self@.contains_value(r) <==> #[trigger] self.rmap.entries().contains_key(r),
            forall|r: R| #[trigger]
                self.rmap.entries().contains_key(r) ==> self@.contains_pair(
                    self.rmap.entries()[r].1@,
                    r,
                ),
    {
        self.lmap.lemma_entries();
        self.rmap.lemma_entries();
        assert(self@.dom() =~= self.lmap.entries().dom());
        assert forall|r: R| #[trigger] self.rmap.entries().contains_key(r) implies self@.contains_pair(
            self.rmap.entries()[r].1@,
            r,
        ) by {
            let l = self.rmap.entries()[r].1@;
            assert(self.lmap.entries().contains_key(l));
        }
        assert forall|r: R| self@.contains_value(r) implies #[trigger] self.rmap.entries().contains_key(
            r,
        ) by {
            let l = choose|l: L| #[trigger] self@.dom().contains(l) && self@[l] == r;
            assert(self.lmap.entries().contains_key(l));
        }
        assert forall|r: R| #[trigger] self.rmap.entries().contains_key(r) implies self@.contains_value(
            r,
        ) by {
            let l = self.rmap.entries()[r].1@;
            assert(self@.contains_pair(l, r));
            assert(self@.dom().contains(l) && self@[l] == r);
        }
        assert forall|x: L, y: L|
            x != y && self@.dom().contains(x) && self@.dom().contains(y) implies #[trigger] self@[x]
            != #[trigger] self@[y] by {
            assert(self.lmap.entries().contains_key(x));
            assert(self.lmap.entries().contains_key(y));
            if self@[x] == self@[y] {
                let r = self@[x];
                assert(self.rmap.entries().contains_key(r));
            }
        }
    }

    /// The pairs of a well-formed map are finite in number, no right value stands twice, there
    /// are as many right values as left values, and the left value found by a right value is
    /// the one that finds it.
    pub proof fn lemma_bijection(&self)
        requires
            self.wf(),
        ensures
            self@.dom().finite(),
            self@.is_injective(),
            self@.values().finite(),
            self@.values().len() == self@.len(),
            forall|l: L| #[trigger]
                self@.contains_key(l) ==> self@.contains_value(self@[l]) && left_of(
                    self@,
                    self@[l],
                ) == l,
            forall|r: R| #[trigger]
                self@.contains_value(r) ==> self@.contains_key(left_of(self@, r)) && self@[left_of(
                    self@,
                    r,
                )] == r,
    {
        self.lemma_sides();
        self@.lemma_injective_values_len();
        assert forall|l: L| #[trigger] self@.contains_key(l) implies self@.contains_value(self@[l])
            && left_of(self@, self@[l]) == l by {
            assert(self@.contains_pair(l, self@[l]));
        }
        assert forall|r: R| #[trigger] self@.contains_value(r) implies self@.contains_key(
            left_of(self@, r),
        ) && self@[left_of(self@, r)] == r by {
            let l = choose|l: L| #[trigger] self@.dom().contains(l) && self@[l] == r;
            assert(self@.contains_pair(l, r));
        }
    }

    /// An empty map.
    pub fn new() -> (map: Self)
        requires
            LMap::admits(),
            RMap::admits(),
        ensures
            map.wf(),
            map@ == Map::<L, R>::empty(),
    {
        let map = BiMap { lmap: LMap::new(), rmap: RMap::new() };
        assert(map@ =~= Map::<L, R>::empty());
        map
    }

    /// The number of pairs.
    pub fn len(&self) -> (n: usize)
        requires
            self.wf(),
        ensures
            n == self@.len(),
    {
        proof {
            self.lemma_sides();
        }
        self.lmap.len()
    }

    /// Whether the map holds no pair.
    pub fn is_empty(&self) -> (empty: bool)
        requires
            self.wf(),
        ensures
            empty == (self@.len() == 0),
    {
        proof {
            self.lemma_sides();
        }
        self.lmap.is_empty()
    }

    /// Whether a pair has `l` as its left value.
    pub fn contains_left(&self, l: &L) -> (found: bool)
        requires
            self.wf(),
        ensures
            found == self@.contains_key(*l),
    {
        self.lmap.contains_key(l)
    }

    /// Whether a pair has `r` as its right value.
    pub fn contains_right(&self, r: &R) -> (found: bool)
        requires
            self.wf(),
        ensures
            found == self@.contains_value(*r),
    {
        proof {
            self.lemma_sides();
        }
        self.rmap.contains_key(r)
    }

    /// The right value paired with `l`.
    pub fn get_left(&self, l: &L) -> (right: Option<&R>)
        requires
            self.wf(),
        ensures
            match right {
                Some(r) => self@.contains_key(*l) && *r == self@[*l],
                None => !self@.contains_key(*l),
            },
    {
        self.lmap.get(l)
    }

    /// The left value paired with `r`.
    pub fn get_right(&self, r: &R) -> (left: Option<&L>)
        requires
            self.wf(),
        ensures
            match left {
                Some(l) => self@.contains_pair(*l, *r) && *l == left_of(self@, *r),
                None => !self@.contains_value(*r),
            },
    {
        proof {
            self.lemma_sides();
            self.lemma_bijection();
        }
        self.rmap.get(r)
    }

    /// The pair whose left value is `l`.
    pub fn get_entry_left(&self, l: &L) -> (pair: Option<(&L, &R)>)
        requires
            self.wf(),
        ensures
            match pair {
                Some((left, right)) => self@.contains_key(*l) && *left == *l && *right == self@[*l],
                None => !self@.contains_key(*l),
            },
    {
        self.lmap.get_entry(l)
    }

    /// The pair whose right value is `r`.
    pub fn get_entry_right(&self, r: &R) -> (pair: Option<(&L, &R)>)
        requires
            self.wf(),
        ensures
            match pair {
                Some((left, right)) => self@.contains_pair(*left, *r) && *left == left_of(
                    self@,
                    *r,
                ) && *right == *r,
                None => !self@.contains_value(*r),
            },
    {
        proof {
            self.lemma_sides();
            self.lemma_bijection();
        }
        match self.rmap.get_entry(r) {
            Some((right, left)) => Some((left, right)),
            None => None,
        }
    }
}

/// What two removals, one by each side, add up to.
pub open spec fn tally<L, R>(first: Option<(L, R)>, second: Option<(L, R)>) -> Overwritten<L, R> {
    match (first, second) {
        (None, None) => Overwritten::Zero,
        (Some(pair), None) => Overwritten::One(pair),
        (None, Some(pair)) => Overwritten::One(pair),
        (Some(left), Some(right)) => Overwritten::Two(left, right),
    }
}

/// Removing by the left value and then by the right value pushes out what an insertion
/// displaces, and leaves room for the new pair.
proof fn lemma_two_removals<L, R>(
    m: Map<L, R>,
    l: L,
    r: R,
    first: Option<(L, R)>,
    m1: Map<L, R>,
    second: Option<(L, R)>,
    m2: Map<L, R>,
)
    requires
        m.is_injective(),
        first == taken_left(m, l),
        m1 == m.remove(l),
        second == taken_right(m1, r),
        m2 == without_right(m1, r),
    ensures
        tally(first, second) == displaced(m, l, r),
        m2.insert(l, r) == replaced(m, l, r),
        !m2.contains_key(l),
        !m2.contains_value(r),
{
    if m.contains_value(r) {
        let k = choose|k: L| #[trigger] m.dom().contains(k) && m[k] == r;
        assert(m.contains_pair(k, r));
        let found = left_of(m, r);
        assert(m.contains_pair(found, r));
        assert(found == k);
        if k != l {
            assert(m1.dom().contains(k) && m1[k] == r);
        }
    }
    if m1.contains_value(r) {
        let k = left_of(m1, r);
        let j = choose|j: L| #[trigger] m1.dom().contains(j) && m1[j] == r;
        assert(m1.contains_pair(j, r));
        assert(m.contains_pair(k, r));
        assert(k == left_of(m, r));
    }
    if m2.contains_value(r) {
        let j = choose|j: L| #[trigger] m2.dom().contains(j) && m2[j] == r;
        assert(m1.dom().contains(j) && m1[j] == r);
        assert(m.dom().contains(j) && m[j] == r);
    }
    assert(m2.insert(l, r) =~= replaced(m, l, r));
}

impl<L, R, LMap, RMap> BiMap<LMap, RMap> where
    LMap: FullInnerMap<Key = L, Value = R>,
    RMap: FullInnerMap<Key = R, Value = L>,
 {
    /// Takes the pair with the left value `l` out of the map.
    pub fn remove_left(&mut self, l: &L) -> (pair: Option<(L, R)>)
        requires
            old(self).wf(),
        ensures
            final(self).wf(),
            pair == taken_left(old(self)@, *l),
            final(self)@ == old(self)@.remove(*l),
    {
        proof {
            self.lemma_sides();
        }
        match self.lmap.remove_entry(l) {
            None => {
                proof {
                    assert(self.lmap.entries() =~= old(self).lmap.entries());
                    assert(self@ =~= old(self)@);
                }
                None
            },
            Some((la, ra)) => {
                assert(old(self).lmap.entries().contains_key(*l));
                let entry = self.rmap.remove_entry(ra.get());
                match entry {
                    // The right store holds the twins of every pair of the left store.
                    None => unreached(),
                    Some((rb, lb)) => {
                        proof {
                            lemma_unlink(old(self).lmap.entries(), old(self).rmap.entries(), *l);
                            assert(self@ =~= old(self)@.remove(*l));
                        }
                        let left = Half::rejoin(la, lb);
                        let right = Half::rejoin(ra, rb);
                        Some((left, right))
                    },
                }
            },
        }
    }

    /// Takes the pair with the right value `r` out of the map.
    pub fn remove_right(&mut self, r: &R) -> (pair: Option<(L, R)>)
        requires
            old(self).wf(),
        ensures
            final(self).wf(),
            pair == taken_right(old(self)@, *r),
            final(self)@ == without_right(old(self)@, *r),
    {
        proof {
            self.lemma_sides();
        }
        match self.rmap.remove_entry(r) {
            None => {
                proof {
                    assert(self.rmap.entries() =~= old(self).rmap.entries());
                }
                None
            },
            Some((rb, lb)) => {
                assert(old(self).rmap.entries().contains_key(*r));
                let entry = self.lmap.remove_entry(lb.get());
                match entry {
                    // The left store holds the twins of every pair of the right store.
                    None => unreached(),
                    Some((la, ra)) => {
                        proof {
                            lemma_unlink(old(self).rmap.entries(), old(self).lmap.entries(), *r);
                            assert(self@ =~= old(self)@.remove(lb@));
                        }
                        let left = Half::rejoin(la, lb);
                        let right = Half::rejoin(ra, rb);
                        Some((left, right))
                    },
                }
            },
        }
    }
}

impl<L, R, LMap, RMap> BiMap<LMap, RMap> where
    LMap: FullInnerMap<Key = L, Value = R>,
    RMap: FullInnerMap<Key = R, Value = L>,
 {
    /// Splits both values and gives each store its share of the pair. Neither value may be
    /// in the map.
    fn insert_unchecked(&mut self, l: L, r: R)
        requires
            old(self).wf(),
            !old(self)@.contains_key(l),
            !old(self)@.contains_value(r),
        ensures
            final(self).wf(),
            final(self)@ == old(self)@.insert(l, r),
    {
        proof {
            self.lemma_sides();
        }
        let (la, lb) = Half::split(l);
        let (ra, rb) = Half::split(r);
        self.lmap.insert(la, ra);
        self.rmap.insert(rb, lb);
        proof {
lemma_link(old(self).lmap.entries(), old(self).rmap.entries(), (la, ra), (rb, lb));
            assert(self@ =~= old(self)@.insert(l, r));
        }
    }

    /// Puts the pair into the map if neither of its values is there; hands it back otherwise.
    pub fn try_insert(&mut self, l: L, r: R) -> (outcome: Result<(), (L, R)>)
        requires
            old(self).wf(),
        ensures
            final(self).wf(),
            match outcome {
                Ok(_) => !old(self)@.contains_key(l) && !old(self)@.contains_value(r)
                    && final(self)@ == old(self)@.insert(l, r),
                Err(pair) => (old(self)@.contains_key(l) || old(self)@.contains_value(r)) && pair
                    == (l, r) && final(self)@ == old(self)@,
            },
    {
        proof {
            self.lemma_sides();
        }
        if self.lmap.contains_key(&l) || self.rmap.contains_key(&r) {
            Err((l, r))
        } else {
            self.insert_unchecked(l, r);
            Ok(())
        }
    }

    /// Puts the pair into the map, pushing out every pair that holds one of its values.
    pub fn insert(&mut self, l: L, r: R) -> (out: Overwritten<L, R>)
        requires
            old(self).wf(),
        ensures
            final(self).wf(),
            out == displaced(old(self)@, l, r),
            final(self)@ == replaced(old(self)@, l, r),
    {
        proof {
            self.lemma_sides();
        }
        let first = self.remove_left(&l);
        let ghost mid = self@;
        let second = self.remove_right(&r);
        proof {
            lemma_two_removals(old(self)@, l, r, first, mid, second, self@);
        }
        let out = match (first, second) {
            (None, None) => Overwritten::Zero,
            (Some(pair), None) => Overwritten::One(pair),
            (None, Some(pair)) => Overwritten::One(pair),
            (Some(left), Some(right)) => Overwritten::Two(left, right),
        };
        self.insert_unchecked(l, r);
        out
    }
}

impl<L, R, LMap, RMap> BiMap<LMap, RMap> where
    LMap: FullInnerMap<Key = L, Value = R> + Iterate,
    RMap: FullInnerMap<Key = R, Value = L> + Iterate,
 {
    /// The pairs in the order of the left store.
    pub closed spec fn left_pairs(&self) -> Seq<(L, R)> {
        pairs_of(&self.lmap)
    }

    /// The pairs in the order of the right store.
    pub closed spec fn right_pairs(&self) -> Seq<(L, R)> {
        flipped(pairs_of(&self.rmap))
    }

    /// Either side hands out each pair of the map once: as sets of pairs the two views are
    /// the map itself.
    pub proof fn lemma_views_agree(&self)
        requires
            self.wf(),
        ensures
            self.left_pairs().no_duplicates(),
            self.right_pairs().no_duplicates(),
            self.left_pairs().to_set() == self@.kv_pairs(),
            self.right_pairs().to_set() == self@.kv_pairs(),
            self.left_pairs().to_set() == self.right_pairs().to_set(),
            self.left_pairs().len() == self@.len(),
            self.right_pairs().len() == self@.len(),
    {
        self.lemma_sides();
        self.lemma_bijection();
        self.lmap.lemma_order();
        self.rmap.lemma_order();
        self.lmap.order().unique_seq_to_set();
        self.rmap.order().unique_seq_to_set();
        assert(self.rmap.entries().dom() =~= self@.values());
        let left = self.left_pairs();
        let right = self.right_pairs();
        let lo = self.lmap.order();
        let ro = self.rmap.order();
        assert forall|i: int, j: int| 0 <= i < left.len() && 0 <= j < left.len() && i != j implies left[i]
            != left[j] by {
            assert(lo[i] != lo[j]);
        }
        assert forall|i: int, j: int|
            0 <= i < right.len() && 0 <= j < right.len() && i != j implies right[i] != right[j] by {
            assert(ro[i] != ro[j]);
        }
        assert forall|p: (L, R)| left.to_set().contains(p) <==> self@.kv_pairs().contains(p) by {
            if left.to_set().contains(p) {
                let i = choose|i: int| 0 <= i < left.len() && left[i] == p;
                assert(lo.to_set().contains(lo[i]));
            }
            if self@.kv_pairs().contains(p) {
                assert(lo.to_set().contains(p.0));
                let i = choose|i: int| 0 <= i < lo.len() && lo[i] == p.0;
                assert(left[i] == p);
            }
        }
        assert forall|p: (L, R)| right.to_set().contains(p) <==> self@.kv_pairs().contains(p) by {
            if right.to_set().contains(p) {
                let i = choose|i: int| 0 <= i < right.len() && right[i] == p;
                assert(ro.to_set().contains(ro[i]));
                assert(self.rmap.entries().contains_key(ro[i]));
                assert(self@.contains_pair(p.0, p.1));
            }
            if self@.kv_pairs().contains(p) {
                assert(self@.contains_value(p.1));
                assert(self.rmap.entries().contains_key(p.1));
                assert(self@.contains_pair(self.rmap.entries()[p.1].1@, p.1));
                assert(ro.to_set().contains(p.1));
                let i = choose|i: int| 0 <= i < ro.len() && ro[i] == p.1;
                assert(right[i] == p);
            }
        }
        assert(left.to_set() =~= self@.kv_pairs());
        assert(right.to_set() =~= self@.kv_pairs());
    }

    /// A cursor over the pairs in the order of the left store.
    pub fn iter_left(&self) -> (iter: Iter<'_, LMap>)
        requires
            self.wf(),
        ensures
            iter.wf(),
            iter.remaining() == self.left_pairs(),
    {
        proof {
            self.lmap.lemma_order();
            self.lmap.lemma_entries();
            self.lmap.order().unique_seq_to_set();
        }
        let n = self.lmap.len();
        let iter = Iter::over(&self.lmap, 0, n);
        assert(pairs_of(&self.lmap).subrange(0, n as int) =~= pairs_of(&self.lmap));
        iter
    }

    /// A cursor over the pairs in the order of the right store, left value first.
    pub fn iter_right(&self) -> (iter: Mirrored<'_, RMap>)
        requires
            self.wf(),
        ensures
            iter.wf(),
            iter.remaining() == self.right_pairs(),
    {
        proof {
            self.rmap.lemma_order();
            self.rmap.lemma_entries();
            self.rmap.order().unique_seq_to_set();
        }
        let n = self.rmap.len();
        let inner = Iter::over(&self.rmap, 0, n);
        assert(pairs_of(&self.rmap).subrange(0, n as int) =~= pairs_of(&self.rmap));
        Mirrored::of(inner)
    }
}

impl<L: Ord, R, RMap> BiMap<InnerBTreeMap<L, R>, RMap> where
    RMap: FullInnerMap<Key = R, Value = L> + Iterate,
 {
    /// Over an ordered left store the left view hands its pairs out in ascending order of
    /// their left values.
    pub proof fn lemma_left_ascending(&self)
        requires
            self.wf(),
        ensures
            ascending(firsts(self.left_pairs())),
    {
        self.lmap.lemma_ascending();
        let pairs = self.left_pairs();
        assert forall|i: int, j: int| 0 <= i < j < pairs.len() implies below(
            #[trigger] firsts(pairs)[i],
            #[trigger] firsts(pairs)[j],
        ) by {
            assert(below(self.lmap.order()[i], self.lmap.order()[j]));
        }
    }
}

impl<L: Ord, R, RMap> BiMap<InnerBTreeMap<L, R>, RMap> where RMap: FullInnerMap<Key = R, Value = L> {
    /// A cursor over the pairs whose left values lie between `start` and `end`, in ascending
    /// order of the left values.
    pub fn range_left(&self, start: Bound<&L>, end: Bound<&L>) -> (range: Range<'_, L, R>)
        requires
            self.wf(),
        ensures
            range.wf(),
            ascending(firsts(range.remaining())),
            forall|i: int|
                0 <= i < range.remaining().len() ==> {
                    let (l, r) = #[trigger] range.remaining()[i];
                    &&& self@.contains_pair(l, r)
                    &&& above(start, l)
                    &&& under(end, l)
                },
            forall|l: L|
                self@.contains_key(l) && above(start, l) && under(end, l) ==> firsts(
                    range.remaining(),
                ).contains(l),
    {
        self.lmap.range(start, end)
    }
}

/// The pairs of `m` after each pair of `pairs` was inserted in turn: a later pair pushes
/// out an earlier one that holds one of its values.
pub open spec fn inserted_all<L, R>(m: Map<L, R>, pairs: Seq<(L, R)>) -> Map<L, R>
    decreases pairs.len(),
{
    if pairs.len() == 0 {
        m
    } else {
        replaced(inserted_all(m, pairs.drop_last()), pairs.last().0, pairs.last().1)
    }
}

impl<L, R, LMap, RMap> BiMap<LMap, RMap> where
    LMap: FullInnerMap<Key = L, Value = R>,
    RMap: FullInnerMap<Key = R, Value = L>,
 {
    /// Inserts each pair in turn.
    pub fn extend(&mut self, pairs: Vec<(L, R)>)
        requires
            old(self).wf(),
        ensures
            final(self).wf(),
            final(self)@ == inserted_all(old(self)@, pairs@),
    {
        let ghost all = pairs@;
        for pair in iter: pairs
            invariant
                self.wf(),
                iter.seq() == all,
                self@ == inserted_all(old(self)@, all.take(iter.index() as int)),
        {
            let (l, r) = pair;
            proof {
                let done = all.take(iter.index() as int);
                let more = all.take(iter.index() + 1);
                assert(more.drop_last() =~= done);
                assert(more.last() == (l, r));
            }
            self.insert(l, r);
        }
        assert(all.take(all.len() as int) =~= all);
    }

    /// A map of the pairs, inserted in turn.
    pub fn from_pairs(pairs: Vec<(L, R)>) -> (map: Self)
        requires
            LMap::admits(),
            RMap::admits(),
        ensures
            map.wf(),
            map@ == inserted_all(Map::<L, R>::empty(), pairs@),
    {
        let mut map = Self::new();
        map.extend(pairs);
        map
    }
}

/// A pair that was inserted is in the map once, and a removal by either of its values
/// takes out that pair, with the values it was inserted with.
pub proof fn lemma_insert_then_remove<L, R>(m: Map<L, R>, l: L, r: R)
    requires
        m.is_injective(),
    ensures
        replaced(m, l, r).is_injective(),
        replaced(m, l, r).contains_pair(l, r),
        taken_left(replaced(m, l, r), l) == Some((l, r)),
        taken_right(replaced(m, l, r), r) == Some((l, r)),
        replaced(m, l, r).remove(l) == without_right(replaced(m, l, r), r),
{
    let after = replaced(m, l, r);
    assert(after.contains_pair(l, r));
    assert(after.dom().contains(l) && after[l] == r);
    assert forall|x: L, y: L|
        x != y && after.dom().contains(x) && after.dom().contains(y) implies #[trigger] after[x]
        != #[trigger] after[y] by {
        if x != l && y != l {
            assert(m.dom().contains(x) && m.dom().contains(y));
        } else {
            let other = if x == l { y } else { x };
            assert(m.dom().contains(other));
            if m[other] == r {
                assert(m.contains_pair(other, r));
                assert(m.contains_pair(left_of(m, r), r));
            }
        }
    }
    assert(after.contains_pair(left_of(after, r), r));
}

/// Where neither value is in the map, inserting the pair pushes nothing out and changes no
/// other pair; both values are in the map afterwards.
pub proof fn lemma_insert_fresh<L, R>(m: Map<L, R>, l: L, r: R)
    requires
        m.is_injective(),
        !m.contains_key(l),
        !m.contains_value(r),
    ensures
        displaced(m, l, r) == Overwritten::<L, R>::Zero,
        replaced(m, l, r) == m.insert(l, r),
        m.insert(l, r).is_injective(),
        m.insert(l, r).contains_key(l),
        m.insert(l, r).contains_value(r),
        forall|k: L| k != l ==> (m.insert(l, r).contains_key(k) <==> m.contains_key(k)),
        forall|k: L| k != l && m.contains_key(k) ==> m.insert(l, r)[k] == m[k],
{
    assert(m.remove(l).insert(l, r) =~= m.insert(l, r));
    assert(m.insert(l, r).dom().contains(l) && m.insert(l, r)[l] == r);
    assert forall|x: L, y: L|
        x != y && m.insert(l, r).dom().contains(x) && m.insert(l, r).dom().contains(
            y,
        ) implies #[trigger] m.insert(l, r)[x] != #[trigger] m.insert(l, r)[y] by {
        let other = if x == l { y } else { x };
        assert(m.dom().contains(other));
    }
}

/// Removing a left value that is not in the map takes nothing out and changes nothing.
pub proof fn lemma_remove_absent_left<L, R>(m: Map<L, R>, l: L)
    requires
        !m.contains_key(l),
    ensures
        taken_left(m, l) == None::<(L, R)>,
        m.remove(l) == m,
        m.remove(l).len() == m.len(),
{
    assert(m.remove(l) =~= m);
}

/// Removing a right value that is not in the map takes nothing out and changes nothing.
pub proof fn lemma_remove_absent_right<L, R>(m: Map<L, R>, r: R)
    requires
        !m.contains_value(r),
    ensures
        taken_right(m, r) == None::<(L, R)>,
        without_right(m, r) == m,
{
}

/// Every change that the map makes keeps its pairs unique on both sides.
pub proof fn lemma_changes_keep_pairs_unique<L, R>(m: Map<L, R>, l: L, r: R)
    requires
        m.is_injective(),
    ensures
        m.remove(l).is_injective(),
        without_right(m, r).is_injective(),
        replaced(m, l, r).is_injective(),
{
    lemma_insert_then_remove(m, l, r);
    assert forall|x: L, y: L|
        x != y && m.remove(l).dom().contains(x) && m.remove(l).dom().contains(
            y,
        ) implies #[trigger] m.remove(l)[x] != #[trigger] m.remove(l)[y] by {
        assert(m.dom().contains(x) && m.dom().contains(y));
    }
    let w = without_right(m, r);
    assert forall|x: L, y: L|
        x != y && w.dom().contains(x) && w.dom().contains(y) implies #[trigger] w[x]
        != #[trigger] w[y] by {
        assert(m.dom().contains(x) && m.dom().contains(y));
    }
}

impl<L, R, LMap, RMap> BiMap<LMap, RMap> where
    LMap: FullInnerMap<Key = L, Value = R> + IntoIterate,
    RMap: FullInnerMap<Key = R, Value = L> + Iterate,
 {
    /// Gives the map up for its pairs, whole again, in the order of the left store.
    pub fn into_pairs(self) -> (pairs: Vec<(L, R)>)
        requires
            self.wf(),
        ensures
            pairs@ == self.left_pairs(),
    {
        proof {
            self.lemma_sides();
            self.lmap.lemma_order();
        }
        let ghost all = fragments_of(&self.lmap);
        let ghost whole = self.left_pairs();
        let ghost rights = self.rmap.entries();
        let BiMap { lmap, rmap } = self;
        let mut rmap = rmap;
        let mut iter = lmap.into_iter();
        let mut pairs: Vec<(L, R)> = Vec::new();
        proof {
            assert forall|i: int| 0 <= i < all.len() implies {
                let (la, ra) = #[trigger] all[i];
                &&& la@ == whole[i].0
                &&& ra@ == whole[i].1
                &&& rights.contains_key(ra@)
                &&& rights[ra@].0.is_twin(&ra)
                &&& rights[ra@].1.is_twin(&la)
            } by {
                assert(lmap.order().to_set().contains(lmap.order()[i]));
                assert(lmap.entries().contains_key(lmap.order()[i]));
            }
            assert forall|i: int, j: int| 0 <= i < all.len() && 0 <= j < all.len() && i != j implies (
            #[trigger] all[i]).1@ != (#[trigger] all[j]).1@ by {
                assert(lmap.order()[i] != lmap.order()[j]);
                assert(lmap.order().to_set().contains(lmap.order()[i]));
                assert(lmap.order().to_set().contains(lmap.order()[j]));
                assert(lmap.entries().contains_key(lmap.order()[i]));
                assert(lmap.entries().contains_key(lmap.order()[j]));
            }
        }
        loop
            invariant
                rmap.wf(),
                all.len() == whole.len(),
                pairs@.len() + iter.remaining().len() == all.len(),
                iter.remaining() == all.skip(pairs@.len() as int),
                pairs@ == whole.take(pairs@.len() as int),
                forall|i: int|
                    0 <= i < all.len() ==> {
                        let (la, ra) = #[trigger] all[i];
                        &&& la@ == whole[i].0
                        &&& ra@ == whole[i].1
                        &&& rights.contains_key(ra@)
                        &&& rights[ra@].0.is_twin(&ra)
                        &&& rights[ra@].1.is_twin(&la)
                    },
                forall|i: int, j: int|
                    0 <= i < all.len() && 0 <= j < all.len() && i != j ==> (#[trigger] all[i]).1@ != (
                    #[trigger] all[j]).1@,
                forall|i: int|
                    pairs@.len() <= i < all.len() ==> rmap.entries().contains_key(
                        (#[trigger] all[i]).1@,
                    ) && rmap.entries()[all[i].1@] == rights[all[i].1@],
            ensures
                pairs@ == whole,
            decreases iter.remaining().len(),
        {
            let ghost done = pairs@.len() as int;
            match iter.next() {
                None => {
                    assert(whole.take(done) =~= whole);
                    break ;
                },
                Some((la, ra)) => {
                    assert(all[done] == (la, ra));
                    let ghost before = rmap.entries();
                    let entry = rmap.remove_entry(ra.get());
                    match entry {
                        // No pair that is still to come has left the right store.
                        None => unreached(),
                        Some((rb, lb)) => {
                            let left = Half::rejoin(la, lb);
                            let right = Half::rejoin(ra, rb);
                            pairs.push((left, right));
                            proof {
                                assert(iter.remaining() =~= all.skip(done + 1));
                                assert(pairs@ =~= whole.take(done + 1));
                                assert forall|i: int| done + 1 <= i < all.len() implies rmap.entries().contains_key(
                                    (#[trigger] all[i]).1@,
                                ) && rmap.entries()[all[i].1@] == rights[all[i].1@] by {
                                    assert(all[i].1@ != all[done].1@);
                                }
                            }
                        },
                    }
                },
            }
        }
        pairs
    }
}

} // verus!
