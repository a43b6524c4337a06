use lru_cache::LinkedList;

#[test]
fn push_and_pop_back() {
    let mut list: LinkedList<u64> = LinkedList::with_capacity(4);
    assert_eq!(0, list.len());
    assert_eq!(None, list.pop_back());

    list.push(1);
    list.push(2);
    list.push(3);
    assert_eq!(3, list.len());

    // the back is the oldest entry
    assert_eq!(Some(1), list.pop_back());
    assert_eq!(Some(2), list.pop_back());
    assert_eq!(Some(3), list.pop_back());
    assert_eq!(None, list.pop_back());
    assert_eq!(0, list.len());
}

#[test]
fn remove_interior_node() {
    let mut list: LinkedList<u64> = LinkedList::with_capacity(4);
    list.push(1);
    let middle = list.push(2);
    list.push(3);

    list.remove_node(&middle);
    assert_eq!(2, list.len());
    assert_eq!(Some(1), list.pop_back());
    assert_eq!(Some(3), list.pop_back());
}

#[test]
fn removed_slots_are_reused() {
    let mut list: LinkedList<u64> = LinkedList::with_capacity(2);
    let a = list.push(10);
    list.push(20);
    list.remove_node(&a);
    // the freelisted slot carries the next push; the order is still newest
    // first
    list.push(30);
    assert_eq!(2, list.len());
    assert_eq!(Some(20), list.pop_back());
    assert_eq!(Some(30), list.pop_back());
}

#[test]
fn remove_sole_node() {
    let mut list: LinkedList<u64> = LinkedList::with_capacity(1);
    let only = list.push(7);
    list.remove_node(&only);
    assert_eq!(0, list.len());
    assert_eq!(None, list.pop_back());
    list.push(8);
    assert_eq!(Some(8), list.pop_back());
}

#[test]
fn clear_resets() {
    let mut list: LinkedList<u64> = LinkedList::with_capacity(4);
    list.push(1);
    list.push(2);
    list.clear();
    assert_eq!(0, list.len());
    assert_eq!(None, list.pop_back());
    list.push(9);
    assert_eq!(1, list.len());
    assert_eq!(Some(9), list.pop_back());
}
