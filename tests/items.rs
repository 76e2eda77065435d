use dancing_links::items::{Item, ItemNode, Items};

fn live(a: &Items) -> Vec<usize> {
    let mut order = Vec::new();
    let mut cursor = a.items();
    while cursor.next(a).is_some() {
        order.push(cursor.index());
    }
    order
}

#[test]
fn init() {
    let a = Items::new(7);
    let b = vec![
        ItemNode { previous: 7, next: 1 },
        ItemNode { previous: 0, next: 2 },
        ItemNode { previous: 1, next: 3 },
        ItemNode { previous: 2, next: 4 },
        ItemNode { previous: 3, next: 5 },
        ItemNode { previous: 4, next: 6 },
        ItemNode { previous: 5, next: 7 },
        ItemNode { previous: 6, next: 0 },
    ];
    assert_eq!(
        a.nodes(),
        b.as_slice(),
        "Linked list nodes should point to directly adjacent nodes upon construction"
    );
}

#[test]
fn iterable() {
    let a = Items::new(7);
    assert_eq!(a.items().count(&a), 7);
}

#[test]
fn removable() {
    let mut a = Items::new(7);
    a.item(1).remove(&mut a);
    assert_eq!(a.items().count(&a), 6);
}

#[test]
fn reinsertable() {
    let mut a = Items::new(7);
    a.item(1).remove(&mut a);
    assert_eq!(a.items().count(&a), 6);
    a.item(1).reinsert(&mut a);
    assert_eq!(a.items().count(&a), 7);
}

#[test]
fn emptyable() {
    let mut a = Items::new(7);

    for i in 1..=7 {
        a.item(i).remove(&mut a);
    }
    assert_eq!(a.items().count(&a), 0);

    for i in 1..=7 {
        a.item(i).reinsert(&mut a);
    }
    assert_eq!(a.items().count(&a), 7);
}

#[test]
fn empty_ring_has_only_the_sentinel() {
    let a = Items::new(0);
    assert_eq!(a.len(), 1);
    assert_eq!(a.node(0), ItemNode { previous: 0, next: 0 });
    assert_eq!(a.items().count(&a), 0);
    assert!(live(&a).is_empty());
}

#[test]
fn fresh_ring_links_are_modular() {
    for n in 0..6usize {
        let a = Items::new(n);
        assert_eq!(a.len(), n + 1);
        assert_eq!(a.items().count(&a), n);
        for i in 0..=n {
            assert_eq!(a.node(i).previous, (i + n) % (n + 1));
            assert_eq!(a.node(i).next, (i + 1) % (n + 1));
        }
    }
}

#[test]
fn remove_and_reinsert_one_scenario() {
    let mut a = Items::new(7);
    a.item(1).remove(&mut a);
    assert_eq!(a.items().count(&a), 6);
    assert_eq!(live(&a), vec![2, 3, 4, 5, 6, 7]);
    a.item(2).remove(&mut a);
    assert_eq!(a.items().count(&a), 5);
    assert_eq!(live(&a), vec![3, 4, 5, 6, 7]);
    a.item(2).reinsert(&mut a);
    assert_eq!(a.items().count(&a), 6);
    assert_eq!(live(&a), vec![2, 3, 4, 5, 6, 7]);
    a.item(1).reinsert(&mut a);
    assert_eq!(a.items().count(&a), 7);
    assert_eq!(live(&a), vec![1, 2, 3, 4, 5, 6, 7]);
    assert_eq!(a, Items::new(7));
}

#[test]
fn remove_keeps_own_links() {
    let mut a = Items::new(5);
    let before = a.node(3);
    a.item(3).remove(&mut a);
    assert_eq!(a.node(3), before);
    assert_eq!(a.node(2).next, 4);
    assert_eq!(a.node(4).previous, 2);
    assert_eq!(a.items().count(&a), 4);
    a.item(3).reinsert(&mut a);
    assert_eq!(a, Items::new(5));
}

#[test]
fn reverse_order_round_trip() {
    let mut a = Items::new(6);
    let removed = [4, 2, 5, 1];
    for &k in removed.iter() {
        a.item(k).remove(&mut a);
    }
    assert_eq!(a.items().count(&a), 2);
    assert_eq!(live(&a), vec![3, 6]);
    for &k in removed.iter().rev() {
        a.item(k).reinsert(&mut a);
    }
    assert_eq!(a, Items::new(6));
}

#[test]
fn remove_all_in_any_order_then_reverse() {
    let mut a = Items::new(5);
    let removed = [3, 5, 1, 4, 2];
    for &k in removed.iter() {
        a.item(k).remove(&mut a);
    }
    assert_eq!(a.items().count(&a), 0);
    assert_eq!(a.node(0), ItemNode { previous: 0, next: 0 });
    for &k in removed.iter().rev() {
        a.item(k).reinsert(&mut a);
    }
    assert_eq!(a.items().count(&a), 5);
    assert_eq!(a, Items::new(5));
}

#[test]
fn removing_the_last_item_moves_the_end() {
    let mut a = Items::new(4);
    a.item(4).remove(&mut a);
    assert_eq!(a.node(0).previous, 3);
    assert_eq!(a.items().count(&a), 3);
    assert_eq!(live(&a), vec![1, 2, 3]);
}

#[test]
fn cursor_records_neighbours() {
    let a = Items::new(4);
    let item: Item = a.item(2);
    assert_eq!(item.index(), 2);
    assert_eq!(item.previous(), 1);
    assert_eq!(item.successor(), 3);
    assert_eq!(item.end(), 1);
    let all = a.items();
    assert_eq!(all.index(), 0);
    assert_eq!(all.end(), 4);
}

#[test]
fn cursor_stops_at_its_end() {
    let a = Items::new(3);
    let mut cursor = a.items();
    assert_eq!(cursor.next(&a), Some(()));
    assert_eq!(cursor.index(), 1);
    assert_eq!(cursor.next(&a), Some(()));
    assert_eq!(cursor.next(&a), Some(()));
    assert_eq!(cursor.index(), 3);
    assert_eq!(cursor.next(&a), None);
    assert_eq!(cursor.index(), 3);
}

#[test]
fn count_from_an_item_to_its_predecessor() {
    let a = Items::new(4);
    // from item 2 round to item 1: 2 -> 3 -> 4 -> 0 -> 1
    assert_eq!(a.item(2).count(&a), 4);
}
