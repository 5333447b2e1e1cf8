use rust_examples::linked_list::{Node, SinglyLinkedList};

#[test]
fn node_new_has_no_next() {
    let n = Node::new(5);
    assert_eq!(n.value, 5);
    assert!(n.next.is_none());
}

#[test]
fn push_and_pop_front() {
    let mut l = SinglyLinkedList::new();
    assert_eq!(l.pop_front(), None::<i32>);
    l.push_front(1);
    l.push_front(2);
    assert_eq!(l.length(), 2);
    assert_eq!(l.pop_front(), Some(2));
    assert_eq!(l.pop_front(), Some(1));
    assert_eq!(l.pop_front(), None);
}

#[test]
fn push_and_pop_back() {
    let mut l = SinglyLinkedList::new();
    assert_eq!(l.pop_back(), None::<i32>);
    l.push_back(1);
    l.push_back(2);
    l.push_back(3);
    assert_eq!(l.pop_back(), Some(3));
    assert_eq!(l.pop_back(), Some(2));
    assert_eq!(l.pop_back(), Some(1));
    assert_eq!(l.pop_back(), None);
    assert_eq!(l.length(), 0);
}

#[test]
fn vec_round_trip() {
    let l = SinglyLinkedList::from_vec(vec![1, 2, 3, 4]);
    assert_eq!(l.length(), 4);
    assert_eq!(l.into_vec(), vec![1, 2, 3, 4]);
    let e: SinglyLinkedList<u8> = SinglyLinkedList::from_vec(vec![]);
    assert_eq!(e.into_vec(), Vec::<u8>::new());
}

#[test]
fn map_adds_one() {
    let l = SinglyLinkedList::from_vec(vec![1, 2]);
    assert_eq!(l.map(|x| x + 1).into_vec(), vec![2, 3]);
}

#[test]
fn pair_map_sums_neighbours() {
    let l = SinglyLinkedList::from_vec(vec![1, 2, 3, 4]);
    assert_eq!(l.pair_map(|x, y| x + y).into_vec(), vec![3, 5, 7]);
    let one = SinglyLinkedList::from_vec(vec![1]);
    assert_eq!(one.pair_map(|x, y| x + y).into_vec(), Vec::<i32>::new());
    let none: SinglyLinkedList<i32> = SinglyLinkedList::new();
    assert_eq!(none.pair_map(|x, y| x + y).into_vec(), Vec::<i32>::new());
}

#[test]
fn flatten_joins_in_order() {
    let outer = SinglyLinkedList::from_vec(vec![
        SinglyLinkedList::from_vec(vec![1, 2, 3]),
        SinglyLinkedList::from_vec(vec![4, 5, 6]),
        SinglyLinkedList::new(),
        SinglyLinkedList::from_vec(vec![7, 8]),
    ]);
    assert_eq!(outer.flatten().into_vec(), vec![1, 2, 3, 4, 5, 6, 7, 8]);
}

#[test]
fn mixed_front_and_back() {
    let mut l = SinglyLinkedList::from_vec(vec![2]);
    l.push_front(1);
    l.push_back(3);
    assert_eq!(l.length(), 3);
    assert_eq!(l.into_vec(), vec![1, 2, 3]);
}
