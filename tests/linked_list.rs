use cs220::linked_list::{Node, SinglyLinkedList};

#[test]
fn push_and_pop_both_ends() {
    let mut list = SinglyLinkedList::new();
    assert_eq!(list.pop_front(), None::<i32>);
    assert_eq!(list.pop_back(), None);
    list.push_back(2);
    list.push_front(1);
    list.push_back(3);
    assert_eq!(list.length(), 3);
    assert_eq!(list.pop_back(), Some(3));
    assert_eq!(list.pop_front(), Some(1));
    assert_eq!(list.pop_back(), Some(2));
    assert_eq!(list.length(), 0);
}

#[test]
fn vec_round_trip() {
    let list = SinglyLinkedList::from_vec(vec![4, 5, 6]);
    assert_eq!(list.length(), 3);
    assert_eq!(list.into_vec(), vec![4, 5, 6]);
    assert_eq!(SinglyLinkedList::<u8>::from_vec(vec![]).into_vec(), vec![]);
}

#[test]
fn map_and_pair_map() {
    let list = SinglyLinkedList::from_vec(vec![1, 2]);
    assert_eq!(list.map(|x| x + 1).into_vec(), vec![2, 3]);
    let list = SinglyLinkedList::from_vec(vec![1, 2, 3, 4]);
    assert_eq!(list.pair_map(|x, y| x + y).into_vec(), vec![3, 5, 7]);
    let single = SinglyLinkedList::from_vec(vec![9]);
    assert_eq!(single.pair_map(|x, y| x + y).into_vec(), vec![]);
}

#[test]
fn flatten_and_append() {
    let lists = SinglyLinkedList::from_vec(vec![
        SinglyLinkedList::from_vec(vec![1, 2, 3]),
        SinglyLinkedList::from_vec(vec![]),
        SinglyLinkedList::from_vec(vec![4, 5]),
    ]);
    assert_eq!(lists.flatten().into_vec(), vec![1, 2, 3, 4, 5]);
    let mut a = SinglyLinkedList::from_vec(vec![1]);
    a.append(SinglyLinkedList::from_vec(vec![2, 3]));
    assert_eq!(a.into_vec(), vec![1, 2, 3]);
}

#[test]
fn node_constructor() {
    let n = Node::new(7);
    assert_eq!(n.value, 7);
    assert!(n.next.is_none());
}
