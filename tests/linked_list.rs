use data_structures::linked_list::node::Node;
use data_structures::linked_list::LinkedList;

#[test]
fn linked_list_add() {
    let mut linked_list = LinkedList::new();
    linked_list.add(5);
    linked_list.add(3);

    assert_eq!(linked_list.size(), 2);
    assert_eq!(linked_list.get(0), Some(&3));
}

#[test]
fn linked_list_get() {
    let mut linked_list = LinkedList::new();
    linked_list.add(5);
    linked_list.add(3);

    assert_eq!(linked_list.get(0), Some(3).as_ref());
    assert_eq!(linked_list.get(1), Some(5).as_ref());
    assert_eq!(linked_list.get(2), None);
}

#[test]
fn linked_list_push() {
    let mut linked_list = LinkedList::new();
    linked_list.push(5);
    linked_list.push(3);

    assert_eq!(linked_list.get(0), Some(5).as_ref());
    assert_eq!(linked_list.get(1), Some(3).as_ref());
}

#[test]
fn linked_list_remove() {
    let mut linked_list = LinkedList::new();
    linked_list.add(5);
    linked_list.add(3);

    linked_list.remove(3);
    linked_list.add(4);

    linked_list.remove(5);

    assert_eq!(linked_list.size(), 1);
    assert_eq!(linked_list.get(0), Some(4).as_ref());
}

#[test]
fn linked_list_contains() {
    let mut linked_list = LinkedList::new();
    linked_list.add(5);
    linked_list.add(3);

    assert!(linked_list.contains(5));
    assert!(linked_list.contains(3));
    assert!(!linked_list.contains(8));
}

#[test]
fn add() {
    let mut linked_list = LinkedList::new();
    linked_list.add(5);
    linked_list.add(3);

    assert_eq!(linked_list.size(), 2);
    assert_eq!(linked_list.get(0), Some(&3));
}

#[test]
fn get() {
    let mut linked_list = LinkedList::new();
    linked_list.add(5);
    linked_list.add(3);

    assert_eq!(linked_list.get(0), Some(3).as_ref());
    assert_eq!(linked_list.get(1), Some(5).as_ref());
    assert_eq!(linked_list.get(2), None);
}

#[test]
fn push() {
    let mut linked_list = LinkedList::new();
    linked_list.push(5);
    linked_list.push(3);

    assert_eq!(linked_list.get(0), Some(5).as_ref());
    assert_eq!(linked_list.get(1), Some(3).as_ref());
}

#[test]
fn remove() {
    let mut linked_list = LinkedList::new();
    linked_list.add(5);
    linked_list.add(3);

    linked_list.remove(3);
    linked_list.add(4);

    linked_list.remove(5);

    assert_eq!(linked_list.size(), 1);
    assert_eq!(linked_list.get(0), Some(4).as_ref());
}

#[test]
fn contains() {
    let mut linked_list = LinkedList::new();
    linked_list.add(5);
    linked_list.add(3);

    assert!(linked_list.contains(5));
    assert!(linked_list.contains(3));
    assert!(!linked_list.contains(8));
}

#[test]
fn mod_add() {
    let mut linked_list = LinkedList::new();
    linked_list.add(5);
    linked_list.add(3);

    assert_eq!(linked_list.size(), 2);
    assert_eq!(linked_list.get(0), Some(&3));
}

#[test]
fn mod_get() {
    let mut linked_list = LinkedList::new();
    linked_list.add(5);
    linked_list.add(3);

    assert_eq!(linked_list.get(0), Some(3).as_ref());
    assert_eq!(linked_list.get(1), Some(5).as_ref());
    assert_eq!(linked_list.get(2), None);
}

#[test]
fn mod_push() {
    let mut linked_list = LinkedList::new();
    linked_list.push(5);
    linked_list.push(3);

    assert_eq!(linked_list.get(0), Some(5).as_ref());
    assert_eq!(linked_list.get(1), Some(3).as_ref());
}

#[test]
fn mod_remove() {
    let mut linked_list = LinkedList::new();
    linked_list.add(5);
    linked_list.add(3);

    linked_list.remove(3);
    linked_list.add(4);

    linked_list.remove(5);

    assert_eq!(linked_list.size(), 1);
    assert_eq!(linked_list.get(0), Some(4).as_ref());
}

#[test]
fn mod_contains() {
    let mut linked_list = LinkedList::new();
    linked_list.add(5);
    linked_list.add(3);

    assert!(linked_list.contains(5));
    assert!(linked_list.contains(3));
    assert!(!linked_list.contains(8));
}

fn list_of(values: &[u32]) -> LinkedList<u32> {
    let mut list = LinkedList::new();
    for v in values {
        list.push(*v);
    }
    list
}

fn contents(list: &LinkedList<u32>) -> Vec<u32> {
    let mut out = Vec::new();
    let mut i = 0;
    while let Some(v) = list.get(i) {
        out.push(*v);
        i += 1;
    }
    out
}

#[test]
fn list_insert_at_positions() {
    let mut list = list_of(&[1, 2, 3]);
    list.insert(0, 0);
    list.insert(2, 9);
    list.insert(5, 7);
    assert_eq!(contents(&list), vec![0, 1, 9, 2, 3, 7]);
    list.insert(10, 8);
    assert_eq!(contents(&list), vec![0, 1, 9, 2, 3, 7]);
    assert_eq!(list.size(), 6);
}

#[test]
fn list_pop() {
    let mut list = list_of(&[1, 2, 3]);
    assert_eq!(list.pop(), Some(3));
    assert_eq!(list.pop(), Some(2));
    assert_eq!(list.pop(), Some(1));
    assert_eq!(list.pop(), None);
    assert_eq!(list.size(), 0);
}

#[test]
fn list_trunc_set_swap() {
    let mut list = list_of(&[1, 2, 3, 4, 5]);
    list.trunc(3);
    assert_eq!(contents(&list), vec![1, 2, 3]);
    assert_eq!(list.size(), 3);
    list.trunc(7);
    assert_eq!(list.size(), 3);
    list.set(1, 20);
    list.set(3, 40);
    assert_eq!(contents(&list), vec![1, 20, 3]);
    list.swap(0, 2);
    assert_eq!(contents(&list), vec![3, 20, 1]);
    list.swap(2, 1);
    assert_eq!(contents(&list), vec![3, 1, 20]);
    list.swap(0, 3);
    assert_eq!(contents(&list), vec![3, 1, 20]);
    *list.get_mut(1).unwrap() = 10;
    assert_eq!(contents(&list), vec![3, 10, 20]);
    assert!(list.get_mut(3).is_none());
    list.trunc(0);
    assert_eq!(list.size(), 0);
    assert_eq!(list.get(0), None);
}

#[test]
fn list_concat_find_remove() {
    let mut list = list_of(&[1, 2]);
    list.concat(list_of(&[3, 2]));
    assert_eq!(contents(&list), vec![1, 2, 3, 2]);
    assert_eq!(list.size(), 4);
    assert_eq!(list.find(2), Some(1));
    assert_eq!(list.find(9), None);
    list.remove(2);
    assert_eq!(contents(&list), vec![1, 3, 2]);
    list.remove(9);
    assert_eq!(list.size(), 3);
    let mut empty: LinkedList<u32> = LinkedList::default();
    empty.concat(list_of(&[6]));
    assert_eq!(contents(&empty), vec![6]);
}

#[test]
fn list_node_operations() {
    let mut node = Node::new(1u32);
    node.push(2);
    node.push(3);
    assert_eq!(node.length(), 3);
    node.insert(1, 9);
    assert_eq!(node.get(1), Some(&9));
    assert_eq!(node.find(3), Some(3));
    node.remove(1);
    assert_eq!(node.length(), 4);
    node.remove(9);
    assert_eq!(node.length(), 3);
    assert!(node.contains(3));
    assert_eq!(node.pop(), 3);
    node.set(0, 7);
    node.swap(0, 1);
    assert_eq!(node.get(0), Some(&2));
    assert_eq!(node.get(1), Some(&7));
    node.concat(Node::new(8));
    node.trunc(1);
    assert_eq!(node.length(), 2);
    *node.get_mut(1).unwrap() = 6;
    assert_eq!(node.at_index_mut(1).unwrap().value, 6);
    let list = LinkedList::from_node(node);
    assert_eq!(list.size(), 2);
    assert_eq!(list.get(1), Some(&6));
}
