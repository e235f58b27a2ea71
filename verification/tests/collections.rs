use string_matching::queue::Queue;
use string_matching::symbol_set::SymbolSet;

fn elements(set: &SymbolSet) -> Vec<usize> {
    set.iter().copied().collect()
}

#[test]
fn new_set_is_empty() {
    let set = SymbolSet::new();
    assert_eq!(elements(&set), Vec::<usize>::new());
    assert!(!set.contains(0));
}

#[test]
fn insert_appends_a_new_element() {
    let mut set = SymbolSet::new();
    set.insert(7);
    set.insert(3);
    set.insert(9);
    assert_eq!(elements(&set), vec![7, 3, 9]);
    assert!(set.contains(3));
    assert!(!set.contains(4));
}

#[test]
fn union_adds_only_what_is_missing() {
    let mut left = SymbolSet::new();
    left.insert(1);
    left.insert(2);
    let mut right = SymbolSet::new();
    right.insert(2);
    right.insert(5);
    right.insert(1);
    right.insert(4);
    left.union(&right);
    assert_eq!(elements(&left), vec![1, 2, 5, 4]);
    assert_eq!(elements(&right), vec![2, 5, 1, 4]);
}

#[test]
fn union_with_itself_changes_nothing() {
    let mut set = SymbolSet::new();
    set.insert(4);
    set.insert(8);
    let copy = set.clone();
    set.union(&copy);
    assert_eq!(elements(&set), vec![4, 8]);
}

#[test]
fn queue_hands_out_in_arrival_order() {
    let mut queue = Queue::new();
    assert!(queue.is_empty());
    queue.enqueue(5);
    queue.enqueue(1);
    assert!(!queue.is_empty());
    assert_eq!(queue.dequeue(), 5);
    queue.enqueue(9);
    assert_eq!(queue.dequeue(), 1);
    assert_eq!(queue.dequeue(), 9);
    assert!(queue.is_empty());
}

#[test]
fn insert_leaves_a_present_element_where_it_is() {
    let mut set = SymbolSet::new();
    set.insert(7);
    set.insert(7);
    assert_eq!(elements(&set), vec![7]);
    set.insert(3);
    set.insert(9);
    set.insert(7);
    set.insert(3);
    assert_eq!(elements(&set), vec![7, 3, 9]);
    assert!(set.contains(7));
    assert!(set.contains(3));
    assert!(!set.contains(4));
}
