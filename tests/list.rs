use dancing_links::list::{Link, LinkedList, List, SizedList};

#[test]
fn initialization() {
    let mut list = List::new(1);
    assert!(!list.is_valid(0));

    list.connect_self(0);

    assert!(list.is_valid(0));
    assert!(list.is_empty(0));
}

#[test]
fn insertion() {
    // node 0 heads the list, nodes 1 and 2 are inserted before it
    let mut list = List::new(3);
    list.connect_self(0);

    list.prepend(0, 1);

    assert!(list.is_valid(0));
    assert!(list.is_valid(1));
    assert!(!list.is_empty(0));
    assert_eq!(list.next(0), 1);
    assert_eq!(list.previous(0), 1);
    assert_eq!(list.next(1), 0);
    assert_eq!(list.previous(1), 0);

    list.prepend(0, 2);

    assert!(list.is_valid(0));
    assert!(list.is_valid(1));
    assert!(!list.is_empty(0));
    assert_eq!(list.next(0), 1);
    assert_eq!(list.previous(0), 2);
    assert_eq!(list.next(1), 2);
    assert_eq!(list.previous(1), 0);
    assert_eq!(list.next(2), 0);
    assert_eq!(list.previous(2), 1);
}

#[test]
fn removal() {
    let mut nodes = List::new(3);

    nodes.connect_self(0);
    nodes.prepend(0, 1);
    nodes.prepend(0, 2);

    nodes.remove(1);

    assert!(nodes.is_valid(0));
    assert!(!nodes.is_empty(0));
    assert_eq!(nodes.next(0), 2);
    assert_eq!(nodes.previous(0), 2);
    assert_eq!(nodes.next(1), 2);
    assert_eq!(nodes.previous(1), 0);
    assert_eq!(nodes.next(2), 0);
    assert_eq!(nodes.previous(2), 0);

    nodes.remove(2);
    assert!(nodes.is_valid(0));
    assert!(nodes.is_empty(0));
    assert_eq!(nodes.next(0), 0);
    assert_eq!(nodes.previous(0), 0);
}

#[test]
fn reinsertion() {
    let mut nodes = List::new(3);

    nodes.connect_self(0);
    nodes.prepend(0, 1);
    nodes.prepend(0, 2);

    nodes.remove(1);
    nodes.remove(2);
    nodes.reinsert(2);

    assert!(nodes.is_valid(0));
    assert!(!nodes.is_empty(0));
    assert_eq!(nodes.next(0), 2);
    assert_eq!(nodes.previous(0), 2);
    assert_eq!(nodes.next(1), 2);
    assert_eq!(nodes.previous(1), 0);
    assert_eq!(nodes.next(2), 0);
    assert_eq!(nodes.previous(2), 0);

    nodes.reinsert(1);
    assert_eq!(nodes.next(0), 1);
    assert_eq!(nodes.previous(0), 2);
    assert_eq!(nodes.next(1), 2);
    assert_eq!(nodes.previous(1), 0);
    assert_eq!(nodes.next(2), 0);
    assert_eq!(nodes.previous(2), 1);
}

#[test]
fn hooks() {
    // node 0 is the header whose count the hooks keep
    let mut header = SizedList::new(3);

    header.connect_self(0);
    header.prepend(0, 1);
    header.prepend(0, 2);

    assert_eq!(header.size(), 2);

    header.remove(1);
    assert_eq!(header.size(), 1);

    header.remove(2);
    assert_eq!(header.size(), 0);

    header.reinsert(1);
    assert_eq!(header.size(), 1);

    header.reinsert(2);
    assert_eq!(header.size(), 2);
}

#[test]
fn uninitialized_link_is_empty() {
    let link = Link::uninitialized();
    assert_eq!(link.next, None);
    assert_eq!(link.previous, None);
    let list = List::new(4);
    for node in 0..4 {
        assert!(!list.is_valid(node));
        assert_eq!(list.link(node), link);
    }
}

#[test]
fn remove_then_reinsert_restores_links() {
    let mut nodes = List::new(4);
    nodes.connect_self(0);
    nodes.prepend(0, 1);
    nodes.prepend(0, 2);
    nodes.prepend(0, 3);
    let before: Vec<Link> = (0..4).map(|i| nodes.link(i)).collect();

    nodes.remove(2);
    assert_eq!(nodes.next(1), 3);
    assert_eq!(nodes.previous(3), 1);
    assert_eq!(nodes.link(2), before[2]);

    nodes.reinsert(2);
    let after: Vec<Link> = (0..4).map(|i| nodes.link(i)).collect();
    assert_eq!(before, after);
}

#[test]
fn stack_order_round_trip() {
    let mut nodes = List::new(4);
    nodes.connect_self(0);
    nodes.prepend(0, 1);
    nodes.prepend(0, 2);
    nodes.prepend(0, 3);
    let before: Vec<Link> = (0..4).map(|i| nodes.link(i)).collect();

    nodes.remove(1);
    nodes.remove(3);
    nodes.remove(2);
    assert!(nodes.is_empty(0));
    nodes.reinsert(2);
    nodes.reinsert(3);
    nodes.reinsert(1);

    let after: Vec<Link> = (0..4).map(|i| nodes.link(i)).collect();
    assert_eq!(before, after);
}

#[test]
fn sized_count_stops_at_zero() {
    let mut header = SizedList::new(2);
    header.connect_self(0);
    header.connect_self(1);
    assert_eq!(header.size(), 0);
    header.remove(1);
    assert_eq!(header.size(), 0);
    header.reinsert(1);
    assert_eq!(header.size(), 1);
}

#[test]
fn set_next_and_previous() {
    let mut list = List::new(3);
    list.set_next(0, 2);
    assert!(!list.is_valid(0));
    list.set_previous(0, 1);
    assert!(list.is_valid(0));
    assert_eq!(list.next(0), 2);
    assert_eq!(list.previous(0), 1);
    assert!(!list.is_empty(0));
}

#[test]
fn sized_stack_round_trip_counts_each_hook() {
    let mut header = SizedList::new(4);
    header.connect_self(0);
    header.prepend(0, 1);
    header.prepend(0, 2);
    header.prepend(0, 3);
    assert_eq!(header.size(), 3);
    let before: Vec<Link> = (0..4).map(|i| header.link(i)).collect();

    header.remove(2);
    header.remove(1);
    header.remove(3);
    assert_eq!(header.size(), 0);
    assert!(header.is_empty(0));
    header.reinsert(3);
    header.reinsert(1);
    header.reinsert(2);
    assert_eq!(header.size(), 3);

    let after: Vec<Link> = (0..4).map(|i| header.link(i)).collect();
    assert_eq!(before, after);
}
