use async_concurrent_primitives::linked_list::{LinkedListHandle, LinkedListNode, Node};

fn node(value: char) -> Node<char> {
    Node { value, next: None }
}

#[test]
fn empty_list() {
    let mut nodes = vec![node('a')];
    let mut list: LinkedListHandle<Node<char>> = LinkedListHandle::new();
    assert_eq!(list.pop_front(&mut nodes), None);
}

#[test]
fn nodes_come_out_in_order() {
    let mut nodes = vec![node('a'), node('b'), node('c')];
    let mut list: LinkedListHandle<Node<char>> = LinkedListHandle::new();
    list.push_back(&mut nodes, 2);
    list.push_back(&mut nodes, 0);
    assert_eq!(nodes[2].next, Some(0));
    assert_eq!(list.pop_front(&mut nodes), Some(2));
    list.push_back(&mut nodes, 1);
    assert_eq!(nodes[0].next, Some(1));
    assert_eq!(list.pop_front(&mut nodes), Some(0));
    assert_eq!(list.pop_front(&mut nodes), Some(1));
    assert_eq!(list.pop_front(&mut nodes), None);
    assert_eq!(nodes[2].value, 'c');
    list.push_back(&mut nodes, 2);
    assert_eq!(list.pop_front(&mut nodes), Some(2));
    assert_eq!(list.pop_front(&mut nodes), None);
}

#[test]
fn two_lists_share_nodes() {
    let mut nodes = vec![node('a'), node('b'), node('c'), node('d')];
    let mut odd: LinkedListHandle<Node<char>> = LinkedListHandle::new();
    let mut even: LinkedListHandle<Node<char>> = LinkedListHandle::new();
    even.push_back(&mut nodes, 0);
    odd.push_back(&mut nodes, 1);
    even.push_back(&mut nodes, 2);
    odd.push_back(&mut nodes, 3);
    assert_eq!(*nodes[1].next(), Some(3));
    assert_eq!(odd.pop_front(&mut nodes), Some(1));
    assert_eq!(even.pop_front(&mut nodes), Some(0));
    assert_eq!(odd.pop_front(&mut nodes), Some(3));
    assert_eq!(even.pop_front(&mut nodes), Some(2));
}
