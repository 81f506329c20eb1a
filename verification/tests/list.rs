use device_memory::utils::list::{List, Node};

fn collect(list: &List<i32>) -> Vec<i32> {
    let mut items = Vec::new();
    let mut walk = list.iter();
    while let Some(node) = walk.next() {
        items.push(node.data);
    }
    items
}

#[test]
fn creating_and_appending() {
    let mut list = List::new(0);
    list.append(1);
    list.append(2);
    let mut walk = list.iter();
    let mut i = 0;
    while let Some(node) = walk.next() {
        assert_eq!(node.data, i);
        i += 1;
    }
    assert_eq!(i, 3);
}

#[test]
fn node_new_has_no_successor() {
    let node = Node::new(7u8);
    assert_eq!(node.data, 7);
    assert_eq!(node.next, None);
}

#[test]
fn new_list_holds_one_element() {
    let list = List::new(5);
    assert_eq!(collect(&list), vec![5]);
    let head = list.head().unwrap();
    assert_eq!(list.node(head).data, 5);
    assert_eq!(list.node(head).next, None);
}

#[test]
fn links_follow_insertion_order() {
    let mut list = List::new(10);
    list.append(20);
    list.append(30);
    let first = list.head().unwrap();
    let second = list.node(first).next.unwrap();
    let third = list.node(second).next.unwrap();
    assert_eq!(list.node(first).data, 10);
    assert_eq!(list.node(second).data, 20);
    assert_eq!(list.node(third).data, 30);
    assert_eq!(list.node(third).next, None);
}

#[test]
fn insert_after_puts_element_behind_slot() {
    let mut list = List::new(1);
    list.append(3);
    let first = list.head().unwrap();
    let new_slot = list.insert_after(first, 2);
    assert_eq!(collect(&list), vec![1, 2, 3]);
    assert_eq!(list.node(first).next, Some(new_slot));
    assert_eq!(list.node(new_slot).data, 2);
}

#[test]
fn insert_after_last_extends_list() {
    let mut list = List::new(1);
    let first = list.head().unwrap();
    let second = list.insert_after(first, 2);
    list.insert_after(second, 3);
    assert_eq!(collect(&list), vec![1, 2, 3]);
}

#[test]
fn set_replaces_one_element() {
    let mut list = List::new(1);
    list.append(2);
    list.append(3);
    let first = list.head().unwrap();
    let second = list.node(first).next.unwrap();
    list.set(second, 20);
    assert_eq!(collect(&list), vec![1, 20, 3]);
}

#[test]
fn remove_after_takes_successor_off() {
    let mut list = List::new(1);
    list.append(2);
    list.append(3);
    let first = list.head().unwrap();
    list.remove_after(first);
    assert_eq!(collect(&list), vec![1, 3]);
    list.remove_after(first);
    assert_eq!(collect(&list), vec![1]);
    assert_eq!(list.node(first).next, None);
}

#[test]
fn slots_stay_valid_across_edits() {
    let mut list = List::new(1);
    list.append(2);
    list.append(3);
    let first = list.head().unwrap();
    let second = list.node(first).next.unwrap();
    let third = list.node(second).next.unwrap();
    list.remove_after(first);
    list.insert_after(first, 9);
    assert_eq!(collect(&list), vec![1, 9, 3]);
    assert_eq!(list.node(third).data, 3);
}

#[test]
fn insert_after_remove_keeps_order() {
    let mut list = List::new(0);
    for i in 1..50 {
        list.append(i);
    }
    let first = list.head().unwrap();
    for _ in 0..49 {
        list.remove_after(first);
    }
    assert_eq!(collect(&list), vec![0]);
    for i in 1..50 {
        list.append(i);
    }
    let expected: Vec<i32> = (0..50).collect();
    assert_eq!(collect(&list), expected);
}

#[test]
fn iterator_ends_with_none() {
    let list = List::new(1);
    let mut walk = list.iter();
    assert!(walk.next().is_some());
    assert!(walk.next().is_none());
    assert!(walk.next().is_none());
}
