//! Cursors over the pairs of a store.

use crate::mem::Half;
use crate::traits::Iterate;
use crate::traits::pairs_of;
use vstd::prelude::*;

verus! {

/// A cursor over a stretch of a store's order, open at both ends.
pub struct Iter<'a, M> {
    store: &'a M,
    front: usize,
    back: usize,
}

impl<'a, M: Iterate> Iter<'a, M> {
    /// The cursor stands within a well-formed store.
    pub closed spec fn wf(&self) -> bool {
        &&& self.store.wf()
        &&& self.front <= self.back <= self.store.order().len()
    }

    /// The pairs still to come, from the front to the back.
    pub closed spec fn remaining(&self) -> Seq<(M::Key, M::Value)> {
        pairs_of(self.store).subrange(self.front as int, self.back as int)
    }

    /// A cursor over the places from `front` up to `back` of the store's order.
    pub fn over(store: &'a M, front: usize, back: usize) -> (iter: Self)
        requires
            store.wf(),
            front <= back <= store.order().len(),
        ensures
            iter.wf(),
            iter.remaining() == pairs_of(store).subrange(front as int, back as int),
    {
        Iter { store, front, back }
    }

    /// The number of pairs still to come.
    pub fn len(&self) -> (n: usize)
        requires
            self.wf(),
        ensures
            n == self.remaining().len(),
    {
        self.back - self.front
    }

    /// The number of pairs still to come, as the least and the most that it can be.
    pub fn size_hint(&self) -> (bounds: (usize, Option<usize>))
        requires
            self.wf(),
        ensures
            bounds.0 == self.remaining().len(),
            bounds.1 == Some(bounds.0),
    {
        let n = self.len();
        (n, Some(n))
    }

    /// The next pair from the front.
    pub fn next(&mut self) -> (entry: Option<(&'a M::Key, &'a M::Value)>)
        requires
            old(self).wf(),
        ensures
            final(self).wf(),
            match entry {
                Some((k, v)) => old(self).remaining().len() > 0 && (*k, *v) == old(
                    self,
                ).remaining().first() && final(self).remaining() == old(
                    self,
                ).remaining().drop_first(),
                None => old(self).remaining().len() == 0 && final(self).remaining() == old(
                    self,
                ).remaining(),
            },
    {
        if self.front < self.back {
            let store: &'a M = self.store;
            let entry = store.nth(self.front);
            self.front = self.front + 1;
            assert(final(self).remaining() =~= old(self).remaining().drop_first());
            entry
        } else {
            None
        }
    }

    /// The next pair from the back.
    pub fn next_back(&mut self) -> (entry: Option<(&'a M::Key, &'a M::Value)>)
        requires
            old(self).wf(),
        ensures
            final(self).wf(),
            match entry {
                Some((k, v)) => old(self).remaining().len() > 0 && (*k, *v) == old(
                    self,
                ).remaining().last() && final(self).remaining() == old(
                    self,
                ).remaining().drop_last(),
                None => old(self).remaining().len() == 0 && final(self).remaining() == old(
                    self,
                ).remaining(),
            },
    {
        if self.front < self.back {
            let store: &'a M = self.store;
            self.back = self.back - 1;
            let entry = store.nth(self.back);
            assert(final(self).remaining() =~= old(self).remaining().drop_last());
            entry
        } else {
            None
        }
    }
}

/// The pairs of a sequence, each turned round.
pub open spec fn flipped<A, B>(pairs: Seq<(A, B)>) -> Seq<(B, A)> {
    Seq::new(pairs.len(), |i: int| (pairs[i].1, pairs[i].0))
}

/// A cursor that hands out each pair of a store with its value first and its key second.
pub struct Mirrored<'a, M> {
    inner: Iter<'a, M>,
}

impl<'a, M: Iterate> Mirrored<'a, M> {
    /// The cursor stands within a well-formed store.
    pub closed spec fn wf(&self) -> bool {
        self.inner.wf()
    }

    /// The pairs still to come, from the front to the back, value first.
    pub closed spec fn remaining(&self) -> Seq<(M::Value, M::Key)> {
        flipped(self.inner.remaining())
    }

    /// A cursor that turns round what `inner` hands out.
    pub fn of(inner: Iter<'a, M>) -> (iter: Self)
        requires
            inner.wf(),
        ensures
            iter.wf(),
            iter.remaining() == flipped(inner.remaining()),
    {
        Mirrored { inner }
    }

    /// The number of pairs still to come.
    pub fn len(&self) -> (n: usize)
        requires
            self.wf(),
        ensures
            n == self.remaining().len(),
    {
        self.inner.len()
    }

    /// The next pair from the front.
    pub fn next(&mut self) -> (entry: Option<(&'a M::Value, &'a M::Key)>)
        requires
            old(self).wf(),
        ensures
            final(self).wf(),
            match entry {
                Some((v, k)) => old(self).remaining().len() > 0 && (*v, *k) == old(
                    self,
                ).remaining().first() && final(self).remaining() == old(
                    self,
                ).remaining().drop_first(),
                None => old(self).remaining().len() == 0 && final(self).remaining() == old(
                    self,
                ).remaining(),
            },
    {
        match self.inner.next() {
            Some((k, v)) => {
                assert(final(self).remaining() =~= old(self).remaining().drop_first());
                Some((v, k))
            },
            None => None,
        }
    }

    /// The next pair from the back.
    pub fn next_back(&mut self) -> (entry: Option<(&'a M::Value, &'a M::Key)>)
        requires
            old(self).wf(),
        ensures
            final(self).wf(),
            match entry {
                Some((v, k)) => old(self).remaining().len() > 0 && (*v, *k) == old(
                    self,
                ).remaining().last() && final(self).remaining() == old(
                    self,
                ).remaining().drop_last(),
                None => old(self).remaining().len() == 0 && final(self).remaining() == old(
                    self,
                ).remaining(),
            },
    {
        match self.inner.next_back() {
            Some((k, v)) => {
                assert(final(self).remaining() =~= old(self).remaining().drop_last());
                Some((v, k))
            },
            None => None,
        }
    }
}

/// A cursor that owns the fragment pairs it hands out.
pub struct IntoIter<K, V> {
    /// What is still to come, the next pair last.
    rest: Vec<(Half<K>, Half<V>)>,
}

impl<K, V> IntoIter<K, V> {
    /// The fragment pairs still to come, from the front to the back.
    pub closed spec fn remaining(&self) -> Seq<(Half<K>, Half<V>)> {
        self.rest@.reverse()
    }

    /// A cursor over the pairs of `run`, from its first to its last.
    pub fn over(run: Vec<(Half<K>, Half<V>)>) -> (iter: Self)
        ensures
            iter.remaining() == run@,
    {
        let mut run = run;
        let mut rest: Vec<(Half<K>, Half<V>)> = Vec::new();
        let ghost all = run@;
        while run.len() > 0
            invariant
                run@.len() + rest@.len() == all.len(),
                run@ == all.take(run@.len() as int),
                forall|i: int| 0 <= i < rest@.len() ==> rest@[i] == all[all.len() - 1 - i],
            decreases run@.len(),
        {
            let pair = run.pop().unwrap();
            rest.push(pair);
        }
        let iter = IntoIter { rest };
        assert(iter.remaining() =~= all);
        iter
    }

    /// The number of fragment pairs still to come.
    pub fn len(&self) -> (n: usize)
        ensures
            n == self.remaining().len(),
    {
        self.rest.len()
    }

    /// The number of fragment pairs still to come, as the least and the most that it can be.
    pub fn size_hint(&self) -> (bounds: (usize, Option<usize>))
        ensures
            bounds.0 == self.remaining().len(),
            bounds.1 == Some(bounds.0),
    {
        let n = self.len();
        (n, Some(n))
    }

    /// The next fragment pair from the front.
    pub fn next(&mut self) -> (pair: Option<(Half<K>, Half<V>)>)
        ensures
            match pair {
                Some(p) => old(self).remaining().len() > 0 && p == old(self).remaining().first()
                    && final(self).remaining() == old(self).remaining().drop_first(),
                None => old(self).remaining().len() == 0 && final(self).remaining() == old(
                    self,
                ).remaining(),
            },
    {
        let pair = self.rest.pop();
        assert(final(self).remaining() =~= if pair.is_some() {
            old(self).remaining().drop_first()
        } else {
            old(self).remaining()
        });
        pair
    }

    /// The next fragment pair from the back.
    pub fn next_back(&mut self) -> (pair: Option<(Half<K>, Half<V>)>)
        ensures
            match pair {
                Some(p) => old(self).remaining().len() > 0 && p == old(self).remaining().last()
                    && final(self).remaining() == old(self).remaining().drop_last(),
                None => old(self).remaining().len() == 0 && final(self).remaining() == old(
                    self,
                ).remaining(),
            },
    {
        if self.rest.len() == 0 {
            None
        } else {
            let pair = self.rest.remove(0);
            assert(final(self).remaining() =~= old(self).remaining().drop_last());
            Some(pair)
        }
    }
}

} // verus!
