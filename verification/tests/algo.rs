use npuzzle::State;
use std::cmp::Ordering;
use std::collections::{BTreeSet, BinaryHeap};
use std::rc::Rc;

/// Wraps a shared state so the standard containers can use the state's
/// own popping order.
#[derive(Debug)]
struct ByState(Rc<State>);

impl PartialEq for ByState {
    fn eq(&self, other: &Self) -> bool {
        self.0.cmp(&other.0) == Ordering::Equal
    }
}

impl Eq for ByState {}

impl PartialOrd for ByState {
    fn partial_cmp(&self, other: &Self) -> Option<Ordering> {
        Some(self.0.cmp(&other.0))
    }
}

impl Ord for ByState {
    fn cmp(&self, other: &Self) -> Ordering {
        self.0.cmp(&other.0)
    }
}

#[test]
fn test_binary_heap_sort() {
    let mut bh: BinaryHeap<ByState> = BinaryHeap::new();
    let s0 = Rc::new(State::new(0, 0, 3));
    let s1 = Rc::new(State::new(0, 0, 6));
    let s2 = Rc::new(State::new(0, 1, 6));

    bh.push(ByState(Rc::clone(&s2)));
    bh.push(ByState(Rc::clone(&s0)));
    bh.push(ByState(Rc::clone(&s1)));

    assert_eq!(s0, bh.pop().unwrap().0);
    assert_eq!(s1, bh.pop().unwrap().0);
    assert_eq!(s2, bh.pop().unwrap().0);
    assert_eq!(None, bh.pop());
}

#[test]
fn test_btree_set_storage() {
    let mut bts: BTreeSet<ByState> = BTreeSet::new();
    let b0 = Rc::new(State::new(0, 1, 1));
    let b1 = Rc::new(State::new(1, 0, 1));
    let b2 = Rc::new(State::new(0, 0, 0));
    let b3 = Rc::new(State::new(0, 1, 1));

    bts.insert(ByState(Rc::clone(&b0)));
    assert_eq!(1, bts.len());
    bts.insert(ByState(Rc::clone(&b1)));
    assert_eq!(2, bts.len());
    bts.insert(ByState(Rc::clone(&b2)));
    assert_eq!(3, bts.len());
    bts.insert(ByState(Rc::clone(&b3)));
    assert_eq!(3, bts.len());
}
