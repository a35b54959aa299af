//! The split-ownership cell: one value on the heap behind two handles.
//!
//! A value is split once, into two halves that read as the value. The halves of one split
//! can be joined again into the value; until then each store of the map owns one of them, so
//! a value that is key in one store and value in the other is held once and never copied.
//! The value is freed when the later of its two halves is dropped.
//!
//! The handles are reference-counted pointers. What the verifier knows of them rests on
//! three statements about `std::rc::Rc` that are not proved here: they are the contracts of
//! `twin`, `same_allocation` and `reclaim`.

use std::cmp::Ordering;
use std::rc::Rc;
use vstd::prelude::*;
use vstd::std_specs::cmp::PartialEqSpec;
use vstd::std_specs::cmp::PartialOrdSpec;

verus! {

/// One of the two handles of a shared value.
pub struct Half<T> {
    ptr: Rc<T>,
    /// The allocation behind `ptr`, for the proofs alone.
    origin: Ghost<int>,
}

impl<T> Half<T> {
    /// The value that this handle gives access to.
    pub closed spec fn view(&self) -> T {
        *self.ptr
    }

    /// The split that produced this handle: the allocation that it points to.
    pub closed spec fn origin(&self) -> int {
        self.origin@
    }

    /// The two handles come from one split.
    pub open spec fn is_twin(&self, other: &Self) -> bool {
        self.origin() == other.origin() && self@ == other@
    }

    /// Calls `Rc::clone`, which makes a second pointer to the allocation of the first.
    /// Believed of it: both halves read as the value behind `first`, and both carry the same
    /// origin. Nothing is said of which origin that is, so no proof can take the halves of
    /// two splits for twins. `first` has to be the only pointer to its allocation: `split`
    /// hands in a fresh one, and nothing else calls this.
    #[verifier::external_body]
    fn twin(first: Rc<T>) -> (halves: (Half<T>, Half<T>))
        ensures
            halves.0@ == *first,
            halves.1@ == *first,
            halves.0.origin() == halves.1.origin(),
    {
        let second = Rc::clone(&first);
        (
            Half { ptr: first, origin: Ghost(arbitrary()) },
            Half { ptr: second, origin: Ghost(arbitrary()) },
        )
    }

    /// Calls `Rc::ptr_eq`, which tells whether two pointers point to the same allocation.
    /// Believed of it: the answer is whether the two halves carry the same origin.
    #[verifier::external_body]
    fn same_allocation(&self, other: &Self) -> (same: bool)
        ensures
            same == (self.origin() == other.origin()),
    {
        Rc::ptr_eq(&self.ptr, &other.ptr)
    }

    /// Calls `Rc::into_inner` on both halves. It drops a pointer that is not the last one to
    /// its allocation, and hands out the value behind the last one. Believed of it: for the
    /// two halves of one split the second call finds the last pointer, and the value it
    /// hands out is the one that the half reads as.
    #[verifier::external_body]
    fn reclaim(a: Self, b: Self) -> (value: T)
        requires
            a.origin() == b.origin(),
        ensures
            value == a@,
    {
        let _ = Rc::into_inner(b.ptr);
        Rc::into_inner(a.ptr).unwrap()
    }

    /// Moves the value to the heap and hands out the two halves of it.
    pub fn split(value: T) -> (halves: (Half<T>, Half<T>))
        ensures
            halves.0@ == value,
            halves.1@ == value,
            halves.0.is_twin(&halves.1),
    {
        Self::twin(Rc::new(value))
    }

    /// Moves the value to the heap and hands out the two halves of it, as an array.
    pub fn halve(value: T) -> (halves: [Half<T>; 2])
        ensures
            halves[0]@ == value,
            halves[1]@ == value,
            halves[0].is_twin(&halves[1]),
    {
        let (a, b) = Self::split(value);
        [a, b]
    }

    /// Joins the two halves of one split into the value again. The halves are compared by
    /// the allocation they point to before anything is taken out: a caller that no proof
    /// holds to the precondition is stopped there.
    pub fn rejoin(a: Self, b: Self) -> (value: T)
        requires
            a.is_twin(&b),
        ensures
            value == a@,
    {
        if !a.same_allocation(&b) {
            unreached()
        } else {
            Self::reclaim(a, b)
        }
    }

    /// The value, by reference.
    pub fn get(&self) -> (value: &T)
        ensures
            *value == self@,
    {
        &*self.ptr
    }
}

impl<T> std::ops::Deref for Half<T> {
    type Target = T;

    fn deref(&self) -> (value: &T)
        ensures
            *value == self@,
    {
        self.get()
    }
}

impl<T: PartialEq> PartialEq for Half<T> {
    fn eq(&self, other: &Self) -> (same: bool) {
        self.get().eq(other.get())
    }
}

impl<T: PartialEq> vstd::std_specs::cmp::PartialEqSpecImpl for Half<T> {
    open spec fn obeys_eq_spec() -> bool {
        T::obeys_eq_spec()
    }

    open spec fn eq_spec(&self, other: &Self) -> bool {
        self@.eq_spec(&other@)
    }
}

impl<T: Eq> Eq for Half<T> {

}

impl<T: PartialOrd> PartialOrd for Half<T> {
    fn partial_cmp(&self, other: &Self) -> (order: Option<Ordering>) {
        self.get().partial_cmp(other.get())
    }
}

impl<T: PartialOrd> vstd::std_specs::cmp::PartialOrdSpecImpl for Half<T> {
    open spec fn obeys_partial_cmp_spec() -> bool {
        T::obeys_partial_cmp_spec()
    }

    open spec fn partial_cmp_spec(&self, other: &Self) -> Option<Ordering> {
        self@.partial_cmp_spec(&other@)
    }
}

} // verus!
