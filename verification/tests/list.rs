use dsa_rs::list::{LinkedList, Node};

fn rendered<T: std::fmt::Debug>(list: &LinkedList<T>) -> String {
    let mut out = String::new();
    let mut iter = list.iter();
    while let Some(cur) = iter.next() {
        out.push_str(&format!("{:?} ", cur));
    }
    out
}

fn values<T: Clone>(list: &LinkedList<T>) -> Vec<T> {
    let mut out = Vec::new();
    let mut iter = list.iter();
    while let Some(cur) = iter.next() {
        out.push(cur.clone());
    }
    out
}

#[test]
fn test_insert() {
    let mut list: LinkedList<i32> = LinkedList::new();
    list.insert_front(2);
    list.insert_front(3);
    list.insert_front(4);
    let result = rendered(&list);
    assert_eq!("4 3 2 ", result);
}

#[test]
fn node_carries_its_value() {
    let node = Node::new(17_u64);
    assert_eq!(17, *node.ref_val());
    assert_eq!(17, node.into_val());
}

#[test]
fn new_list_is_empty() {
    let mut list: LinkedList<u8> = LinkedList::new();
    assert_eq!(0, list.len());
    assert!(list.iter().next().is_none());
    assert_eq!(None, list.remove_tail());
    assert_eq!(0, list.len());
}

#[test]
fn insert_front_raw_links_a_node() {
    let mut list: LinkedList<&str> = LinkedList::new();
    let a = list.insert_front_raw(Node::new("a"));
    let b = list.insert_front_raw(Node::new("b"));
    assert_ne!(a, b);
    assert_eq!(vec!["b", "a"], values(&list));
    assert_eq!("a", *list.get(a));
    assert_eq!("b", *list.get(b));
    assert_eq!(2, list.len());
}

#[test]
fn remove_splices_neighbours() {
    let mut list: LinkedList<i32> = LinkedList::new();
    let h1 = list.insert_front(1);
    let h2 = list.insert_front(2);
    let h3 = list.insert_front(3);
    let h4 = list.insert_front(4);
    assert_eq!(vec![4, 3, 2, 1], values(&list));
    assert_eq!(3, list.remove(h3));
    assert_eq!(vec![4, 2, 1], values(&list));
    assert_eq!(4, list.remove(h4));
    assert_eq!(vec![2, 1], values(&list));
    assert_eq!(1, list.remove(h1));
    assert_eq!(vec![2], values(&list));
    assert_eq!(2, *list.get(h2));
    assert_eq!(2, list.remove(h2));
    assert_eq!(Vec::<i32>::new(), values(&list));
    assert_eq!(0, list.len());
}

#[test]
fn remove_tail_takes_from_the_back() {
    let mut list: LinkedList<i32> = LinkedList::new();
    list.insert_front(1);
    list.insert_front(2);
    list.insert_front(3);
    assert_eq!(Some(1), list.remove_tail());
    assert_eq!(vec![3, 2], values(&list));
    assert_eq!(Some(2), list.remove_tail());
    assert_eq!(Some(3), list.remove_tail());
    assert_eq!(None, list.remove_tail());
    assert_eq!(0, list.len());
}

#[test]
fn reinsert_front_keeps_handle_and_order_of_others() {
    let mut list: LinkedList<char> = LinkedList::new();
    let a = list.insert_front('a');
    let b = list.insert_front('b');
    let c = list.insert_front('c');
    let d = list.insert_front('d');
    list.reinsert_front(b);
    assert_eq!(vec!['b', 'd', 'c', 'a'], values(&list));
    list.reinsert_front(a);
    assert_eq!(vec!['a', 'b', 'd', 'c'], values(&list));
    list.reinsert_front(a);
    assert_eq!(vec!['a', 'b', 'd', 'c'], values(&list));
    assert_eq!('a', *list.get(a));
    assert_eq!('b', *list.get(b));
    assert_eq!('c', *list.get(c));
    assert_eq!('d', *list.get(d));
    assert_eq!(4, list.len());
    assert_eq!(Some('c'), list.remove_tail());
}

#[test]
fn freed_slots_are_reused() {
    let mut list: LinkedList<u32> = LinkedList::new();
    let a = list.insert_front(1);
    let b = list.insert_front(2);
    assert_eq!(1, list.remove(a));
    let c = list.insert_front(3);
    assert_eq!(a, c);
    assert_ne!(b, c);
    assert_eq!(vec![3, 2], values(&list));
}

#[test]
fn iter_restarts_at_the_front() {
    let mut list: LinkedList<i32> = LinkedList::new();
    list.insert_front(1);
    list.insert_front(2);
    let mut first = list.iter();
    assert_eq!(Some(&2), first.next());
    let mut second = list.iter();
    assert_eq!(Some(&2), second.next());
    assert_eq!(Some(&1), second.next());
    assert_eq!(None, second.next());
    assert_eq!(None, second.next());
    assert_eq!(Some(&1), first.next());
    assert_eq!(None, first.next());
}

#[test]
fn clear_releases_a_long_list() {
    let mut list: LinkedList<usize> = LinkedList::new();
    for i in 0..200_000 {
        list.insert_front(i);
    }
    assert_eq!(200_000, list.len());
    list.clear();
    assert_eq!(0, list.len());
    assert!(list.iter().next().is_none());
    list.insert_front(7);
    assert_eq!(vec![7], values(&list));
}

#[test]
fn dropping_a_long_list_does_not_recurse() {
    let mut list: LinkedList<Vec<u8>> = LinkedList::new();
    for i in 0..500_000_usize {
        list.insert_front(vec![(i % 251) as u8]);
    }
    assert_eq!(500_000, list.len());
    drop(list);
}
