use bimap::mem::Half;
use std::cell::Cell;

#[derive(Debug, Eq, PartialEq)]
struct DropCount<'a> {
    counter: &'a Cell<usize>,
}

impl<'a> Drop for DropCount<'a> {
    fn drop(&mut self) {
        self.counter.set(self.counter.get() + 1);
    }
}

#[test]
fn sequential_drop() {
    let counter = Cell::new(0);
    let [a, b] = Half::halve(DropCount { counter: &counter });
    assert_eq!(counter.get(), 0);
    drop(a);
    assert_eq!(counter.get(), 0);
    drop(b);
    assert_eq!(counter.get(), 1);
}

#[test]
fn reunite_pass() {
    let counter = Cell::new(0);
    let [a, b] = Half::halve(DropCount { counter: &counter });
    assert_eq!(counter.get(), 0);
    let whole = Half::rejoin(a, b);
    assert_eq!(counter.get(), 0);
    drop(whole);
    assert_eq!(counter.get(), 1);
}

#[test]
#[should_panic]
fn reunite_fail() {
    let counter = Cell::new(0);
    let [a, _] = Half::halve(DropCount { counter: &counter });
    let [_, d] = Half::halve(DropCount { counter: &counter });
    assert!(a == d);
    let _ = Half::rejoin(a, d);
}

#[test]
#[should_panic]
fn reunite_fail2() {
    let [a, _] = Half::halve(());
    let [_, d] = Half::halve(());
    assert!(a == d);
    let _ = Half::rejoin(a, d);
}

#[test]
fn halve_then_rejoin_gives_the_value_back() {
    let [a, b] = Half::halve(String::from("shared"));
    assert_eq!(a.get().as_str(), "shared");
    assert_eq!(b.get().as_str(), "shared");
    let whole = Half::rejoin(a, b);
    assert_eq!(whole, "shared");
}

#[test]
fn split_gives_two_handles_of_one_value() {
    let (a, b) = Half::split(vec![1u8, 2, 3]);
    assert!(std::ptr::eq(a.get(), b.get()));
    assert_eq!(Half::rejoin(b, a), vec![1u8, 2, 3]);
}

#[test]
fn halves_of_different_splits_do_not_share() {
    let (a, b) = Half::split(7u32);
    let (c, d) = Half::split(7u32);
    assert!(!std::ptr::eq(a.get(), c.get()));
    assert_eq!(Half::rejoin(a, b), 7);
    assert_eq!(Half::rejoin(c, d), 7);
}

#[test]
fn a_half_reads_as_its_value() {
    let (a, b) = Half::split(41u64);
    assert_eq!(*a + 1, 42);
    assert_eq!(*b, 41);
    assert_eq!(a.checked_add(1), Some(42));
}

#[test]
fn halves_compare_by_their_values() {
    let (a, _a) = Half::split(3i32);
    let (b, _b) = Half::split(5i32);
    let (c, _c) = Half::split(3i32);
    assert!(a == c);
    assert!(a != b);
    assert!(a < b);
    assert!(b > c);
    assert!(a <= c);
    assert_eq!(a.partial_cmp(&b), Some(std::cmp::Ordering::Less));
    assert_eq!(b.partial_cmp(&a), Some(std::cmp::Ordering::Greater));
    assert_eq!(a.partial_cmp(&c), Some(std::cmp::Ordering::Equal));
}

#[test]
fn a_value_without_clone_goes_through_whole() {
    struct Sole(String);
    let [a, b] = Half::halve(Sole(String::from("only")));
    assert_eq!(a.0, "only");
    let Sole(text) = Half::rejoin(a, b);
    assert_eq!(text, "only");
}
