use data_structures::binary_search_tree::map::BsTreeMap;
use data_structures::binary_search_tree::node::Node;
use data_structures::binary_search_tree::set::BsTreeSet;
use data_structures::entry::Entry;

fn basic_tree() -> BsTreeMap<usize, &'static str> {
    let mut tree = BsTreeMap::new();
    tree.insert(5, " , ");
    tree.insert(3, "hello");
    tree.insert(6, "world");
    tree.insert(7, "this is the largest entry");
    tree.insert(1, "this is the smallest entry");
    tree.insert(4, "hmmm");

    tree
}

#[test]
fn insert() {
    let mut tree = BsTreeMap::new();
    tree.insert(5, " , ");
    tree.insert(3, "hello");
    tree.insert(7, "haha get replaced");
    tree.insert(6, "world");
    tree.insert(7, "hii");

    assert_eq!(tree.size(), 4);
    assert_eq!(tree.get(&7), Some(&"hii"));
    assert_eq!(tree.get(&8), None);
}

#[test]
fn try_insert() {
    let mut tree = basic_tree();
    tree.try_insert(7, "already exists!");
    assert_eq!(tree.size(), 6);
    tree.try_insert(9, "does not exist yet");
}

#[test]
fn map_remove() {
    let mut tree = basic_tree();
    tree.remove(&5);
    assert!(!tree.contains(&5));

    tree.remove(&3);
    assert!(!tree.contains(&3));

    tree.remove(&4);
    assert!(!tree.contains(&4));

    assert_eq!(tree.size(), 3);
}

#[test]
fn map_contains() {
    let tree = basic_tree();
    assert!(tree.contains(&5));
    assert!(tree.contains(&4));
    assert!(!tree.contains(&0));
}

#[test]
fn smallest() {
    let tree = basic_tree();
    assert_eq!(
        tree.smallest(),
        Some(&Entry::new(1, "this is the smallest entry"))
    );
}

#[test]
fn largest() {
    let tree = basic_tree();
    assert_eq!(
        tree.largest(),
        Some(&Entry::new(7, "this is the largest entry"))
    );
}

#[test]
fn scenario_insert_extremes_remove() {
    let mut tree = basic_tree();
    assert_eq!(tree.size(), 6);
    assert_eq!(*tree.smallest().unwrap().key(), 1);
    assert_eq!(*tree.largest().unwrap().key(), 7);

    tree.remove(&5);
    assert!(!tree.contains(&5));
    assert_eq!(tree.size(), 5);
    for k in [1, 3, 4, 6, 7] {
        assert!(tree.contains(&k));
    }
    assert_eq!(tree.get(&3), Some(&"hello"));
    assert_eq!(tree.get(&6), Some(&"world"));

    tree.remove(&4);
    assert!(!tree.contains(&4));
    assert_eq!(tree.size(), 4);
    assert_eq!(tree.get(&1), Some(&"this is the smallest entry"));
    assert_eq!(tree.get(&3), Some(&"hello"));
    assert_eq!(tree.get(&6), Some(&"world"));
    assert_eq!(tree.get(&7), Some(&"this is the largest entry"));
    assert_eq!(*tree.smallest().unwrap().key(), 1);
    assert_eq!(*tree.largest().unwrap().key(), 7);
}

#[test]
fn insert_then_get_overwrites() {
    let mut tree = BsTreeMap::new();
    tree.insert(10u64, 1u32);
    assert_eq!(tree.get(&10), Some(&1));
    tree.insert(10, 2);
    assert_eq!(tree.get(&10), Some(&2));
    assert_eq!(tree.size(), 1);
}

#[test]
fn try_insert_keeps_first_value() {
    let mut tree = BsTreeMap::new();
    tree.try_insert(4u64, "first");
    tree.try_insert(4, "second");
    assert_eq!(tree.get(&4), Some(&"first"));
    assert_eq!(tree.size(), 1);
}

#[test]
fn try_insert_does_not_overwrite_below_root() {
    let mut tree = basic_tree();
    tree.try_insert(4, "changed");
    tree.try_insert(1, "changed");
    assert_eq!(tree.get(&4), Some(&"hmmm"));
    assert_eq!(tree.get(&1), Some(&"this is the smallest entry"));
    tree.try_insert(9, "does not exist yet");
    assert_eq!(tree.get(&9), Some(&"does not exist yet"));
    assert_eq!(tree.size(), 7);
}

#[test]
fn remove_missing_key_keeps_size() {
    let mut tree = basic_tree();
    tree.remove(&42);
    assert_eq!(tree.size(), 6);
    let mut empty: BsTreeMap<u64, u64> = BsTreeMap::new();
    empty.remove(&1);
    assert_eq!(empty.size(), 0);
}

#[test]
fn remove_every_key_in_turn() {
    let keys = [50u64, 30, 70, 20, 40, 60, 80, 35, 45, 65, 75, 33];
    let mut tree = BsTreeMap::new();
    for k in keys {
        tree.insert(k, k * 10);
    }
    let mut left = keys.len();
    for k in [30u64, 50, 70, 33, 20, 80, 45, 35, 40, 60, 65, 75] {
        tree.remove(&k);
        left -= 1;
        assert!(!tree.contains(&k));
        assert_eq!(tree.size(), left);
        for other in keys {
            if tree.contains(&other) {
                assert_eq!(tree.get(&other), Some(&(other * 10)));
            }
        }
    }
    assert!(tree.smallest().is_none());
    assert!(tree.largest().is_none());
}

#[test]
fn remove_node_with_only_right_subtree() {
    let mut tree = BsTreeMap::new();
    for k in [1u64, 3, 2, 4] {
        tree.insert(k, ());
    }
    tree.remove(&1);
    assert_eq!(tree.size(), 3);
    assert_eq!(*tree.smallest().unwrap().key(), 2);
    assert!(tree.contains(&3));
    assert!(tree.contains(&4));
}

#[test]
fn extremes_of_empty_map() {
    let tree: BsTreeMap<u64, u64> = BsTreeMap::default();
    assert!(tree.smallest().is_none());
    assert!(tree.largest().is_none());
    assert_eq!(tree.size(), 0);
    assert_eq!(tree.get(&0), None);
}

#[test]
fn mutable_access() {
    let mut tree = basic_tree();
    *tree.get_mut(&3).unwrap() = "changed";
    assert_eq!(tree.get(&3), Some(&"changed"));
    assert!(tree.get_mut(&100).is_none());

    *tree.smallest_mut().unwrap().value_mut() = "small";
    *tree.largest_mut().unwrap().value_mut() = "large";
    assert_eq!(tree.get(&1), Some(&"small"));
    assert_eq!(tree.get(&7), Some(&"large"));

    *tree.node_mut(&6).unwrap().value_mut() = "six";
    assert_eq!(tree.entry(&6), Some(&Entry::new(6, "six")));
    assert_eq!(tree.entry(&2), None);
    assert_eq!(tree.size(), 6);
}

#[test]
fn merge_maps() {
    let mut a = BsTreeMap::new();
    a.insert(1u64, "a1");
    a.insert(5, "a5");
    let mut b = BsTreeMap::new();
    b.insert(5u64, "b5");
    b.insert(3, "b3");
    b.insert(9, "b9");
    a.merge(b);
    assert_eq!(a.size(), 4);
    assert_eq!(a.get(&1), Some(&"a1"));
    assert_eq!(a.get(&5), Some(&"b5"));
    assert_eq!(a.get(&3), Some(&"b3"));
    assert_eq!(a.get(&9), Some(&"b9"));

    let mut empty = BsTreeMap::new();
    let mut c = BsTreeMap::new();
    c.insert(2u64, "c2");
    empty.merge(c);
    assert_eq!(empty.size(), 1);
    assert_eq!(empty.get(&2), Some(&"c2"));
}

#[test]
fn node_operations() {
    let mut node = Node::new(5u64, "five");
    assert!(node.insert(3, "three"));
    assert!(node.insert(8, "eight"));
    assert!(!node.insert(8, "EIGHT"));
    assert!(!node.try_insert(3, "THREE"));
    assert!(node.try_insert(9, "nine"));
    assert_eq!(node.size(), 4);
    assert_eq!(*node.key(), 5);
    assert_eq!(*node.value(), "five");
    assert_eq!(*node.left().unwrap().key(), 3);
    assert_eq!(*node.right().unwrap().key(), 8);
    assert_eq!(node.get(&8), Some(&"EIGHT"));
    assert_eq!(node.get(&3), Some(&"three"));
    assert!(node.contains(&9));
    assert!(!node.contains(&4));
    assert_eq!(node.smallest(), &Entry::new(3, "three"));
    assert_eq!(node.largest(), &Entry::new(9, "nine"));
    *node.value_mut() = "FIVE";
    assert_eq!(node.entry(&5), Some(&Entry::new(5, "FIVE")));

    let mut other = Node::new(4u64, "four");
    other.insert(8, "other eight");
    node.merge(other);
    assert_eq!(node.size(), 5);
    assert_eq!(node.get(&4), Some(&"four"));
    assert_eq!(node.get(&8), Some(&"other eight"));

    let map = BsTreeMap::from_node(node);
    assert_eq!(map.size(), 5);
    assert_eq!(*map.smallest().unwrap().key(), 3);
}

#[test]
fn slot_removal_predecessor() {
    let mut root = Some(Box::new(Node::new(5u64, 'e')));
    for (k, v) in [(3u64, 'c'), (8, 'h'), (1, 'a'), (4, 'd'), (7, 'g')] {
        root.as_mut().unwrap().insert(k, v);
    }
    assert!(Node::remove(&mut root, &5));
    let node = root.as_ref().unwrap();
    assert_eq!(*node.key(), 4);
    assert_eq!(*node.value(), 'd');
    assert_eq!(node.size(), 5);
    assert!(!Node::remove(&mut root, &5));
    assert!(Node::remove(&mut root, &1));
    assert!(Node::remove(&mut root, &3));
    assert!(Node::remove(&mut root, &4));
    assert_eq!(*root.as_ref().unwrap().key(), 7);
    assert_eq!(*root.as_ref().unwrap().value(), 'g');
    assert!(Node::remove(&mut root, &7));
    assert!(Node::remove(&mut root, &8));
    assert!(root.is_none());
}

#[test]
fn set_operations() {
    let mut set = BsTreeSet::new();
    for k in [5u64, 2, 8, 2, 9] {
        set.insert(k);
    }
    assert_eq!(set.size(), 4);
    assert!(set.contains(&8));
    assert!(!set.contains(&3));
    assert_eq!(*set.smallest().unwrap().key(), 2);
    assert_eq!(*set.largest().unwrap().key(), 9);
    assert_eq!(*set.largest_mut().unwrap().key(), 9);
    assert_eq!(*set.smallest_mut().unwrap().key(), 2);
    set.remove(&2);
    assert_eq!(set.size(), 3);
    assert_eq!(*set.smallest().unwrap().key(), 5);

    let mut other = BsTreeSet::default();
    other.insert(1u64);
    other.insert(9);
    set.extend(other);
    assert_eq!(set.size(), 4);
    assert_eq!(*set.smallest().unwrap().key(), 1);
}
