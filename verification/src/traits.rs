//! What a store has to offer to serve as one side of a bidirectional map.
//!
//! A store holds fragment pairs: a key fragment and a value fragment, found by the value of
//! the key. Its contracts speak of the store as a map from key values to fragment pairs, so
//! that the map above it can tell which fragments it gets back.

use crate::iter::IntoIter;
use crate::mem::Half;
use vstd::prelude::*;

verus! {

/// A store of fragment pairs, found by the value of the key fragment.
pub trait InnerMap: Sized {
    type Key;

    type Value;

    /// What the store needs of its key type.
    spec fn admits() -> bool;

    /// The stored fragment pairs, each under the value of its key fragment.
    spec fn entries(&self) -> Map<Self::Key, (Half<Self::Key>, Half<Self::Value>)>;

    /// The store's own invariant.
    spec fn wf(&self) -> bool;

    /// A well-formed store is finite and files each pair under its key's value.
    proof fn lemma_entries(&self)
        requires
            self.wf(),
        ensures
            Self::admits(),
            self.entries().dom().finite(),
            forall|k: Self::Key| #[trigger]
                self.entries().contains_key(k) ==> self.entries()[k].0@ == k,
    ;

    /// An empty store.
    fn new() -> (store: Self)
        requires
            Self::admits(),
        ensures
            store.wf(),
            store.entries() == Map::<Self::Key, (Half<Self::Key>, Half<Self::Value>)>::empty(),
    ;
}

/// Stores that take fragment pairs in.
pub trait Insert: InnerMap {
    /// Files the pair under the value of its key, in place of any pair filed there.
    fn insert(&mut self, k: Half<Self::Key>, v: Half<Self::Value>)
        requires
            old(self).wf(),
        ensures
            final(self).wf(),
            final(self).entries() == old(self).entries().insert(k@, (k, v)),
    ;
}

/// Stores that tell whether a key is there.
pub trait Contains: InnerMap {
    /// Whether a pair is filed under `k`.
    fn contains_key(&self, k: &Self::Key) -> (found: bool)
        requires
            self.wf(),
        ensures
            found == self.entries().contains_key(*k),
    ;
}

/// Stores that let a pair be read where it is.
pub trait Get: InnerMap {
    /// The value filed under `k`.
    fn get(&self, k: &Self::Key) -> (value: Option<&Self::Value>)
        requires
            self.wf(),
        ensures
            match value {
                Some(v) => self.entries().contains_key(*k) && *v == self.entries()[*k].1@,
                None => !self.entries().contains_key(*k),
            },
    ;

    /// The key and the value filed under `k`.
    fn get_entry(&self, k: &Self::Key) -> (entry: Option<(&Self::Key, &Self::Value)>)
        requires
            self.wf(),
        ensures
            match entry {
                Some((key, v)) => self.entries().contains_key(*k) && *key == *k && *v
                    == self.entries()[*k].1@,
                None => !self.entries().contains_key(*k),
            },
    ;
}

/// Stores that hand fragment pairs back.
pub trait Remove: InnerMap {
    /// Takes out the pair filed under `k` and hands its fragments over.
    fn remove_entry(&mut self, k: &Self::Key) -> (entry: Option<
        (Half<Self::Key>, Half<Self::Value>),
    >)
        requires
            old(self).wf(),
        ensures
            final(self).wf(),
            final(self).entries() == old(self).entries().remove(*k),
            match entry {
                Some(pair) => old(self).entries().contains_key(*k) && pair == old(
                    self,
                ).entries()[*k],
                None => !old(self).entries().contains_key(*k),
            },
    ;
}

/// Stores that count their pairs.
pub trait Length: InnerMap {
    /// The number of pairs.
    fn len(&self) -> (n: usize)
        requires
            self.wf(),
        ensures
            n == self.entries().len(),
    ;

    /// Whether the store holds no pair.
    fn is_empty(&self) -> (empty: bool)
        requires
            self.wf(),
        ensures
            empty == (self.entries().len() == 0),
    {
        self.len() == 0
    }
}

/// Stores that hand their pairs out in an order of their own.
pub trait Iterate: InnerMap {
    /// The keys in the order in which the store hands its pairs out.
    spec fn order(&self) -> Seq<Self::Key>;

    /// The order names each key of the store once.
    proof fn lemma_order(&self)
        requires
            self.wf(),
        ensures
            self.order().no_duplicates(),
            self.order().to_set() == self.entries().dom(),
    ;

    /// The pair at a place of the order, by reference to its values.
    fn nth(&self, i: usize) -> (entry: Option<(&Self::Key, &Self::Value)>)
        requires
            self.wf(),
        ensures
            match entry {
                Some((k, v)) => i < self.order().len() && *k == self.order()[i as int] && *v
                    == self.entries()[*k].1@,
                None => i >= self.order().len(),
            },
    ;
}

/// The stored values in the store's order, pair by pair.
pub open spec fn pairs_of<M: Iterate>(store: &M) -> Seq<(M::Key, M::Value)> {
    Seq::new(
        store.order().len(),
        |i: int| (store.order()[i], store.entries()[store.order()[i]].1@),
    )
}

/// The stored fragment pairs in the store's order.
pub open spec fn fragments_of<M: Iterate>(store: &M) -> Seq<(Half<M::Key>, Half<M::Value>)> {
    Seq::new(store.order().len(), |i: int| store.entries()[store.order()[i]])
}

/// Stores that can be given up for their fragment pairs.
pub trait IntoIterate: Iterate {
    /// Gives the store up for its fragment pairs, in the store's order.
    fn into_iter(self) -> (iter: IntoIter<Self::Key, Self::Value>)
        requires
            self.wf(),
        ensures
            iter.remaining() == fragments_of(&self),
    ;
}

/// A kind of store: the type of store that it stands for, for each type of key and value.
pub trait MapKind<K, V> {
    type Map: FullInnerMap<Key = K, Value = V>;
}

/// All that the map asks of a store.
pub trait FullInnerMap: InnerMap + Contains + Get + Insert + Remove + Length {

}

impl<T> FullInnerMap for T where T: InnerMap + Contains + Get + Insert + Remove + Length {

}

} // verus!
