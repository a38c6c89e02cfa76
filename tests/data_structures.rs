use std::collections::HashSet;

use algorithms_on_graphs::priority_queue::{PriorityQueue, PriorityQueueItem};
use algorithms_on_graphs::union_find::UnionFind;

#[test]
fn union_joins_two_sets() {
    let mut uf = UnionFind::from(&HashSet::from([1, 2, 3, 4]));

    assert_ne!(uf.find(&1), uf.find(&2));
    assert!(uf.union(&1, &2));
    assert_eq!(uf.find(&1), uf.find(&2));
    assert_ne!(uf.find(&1), uf.find(&3));
}

#[test]
fn union_is_idempotent() {
    let mut uf = UnionFind::from(&HashSet::from([1, 2, 3]));

    assert!(uf.union(&1, &2));
    let root = uf.find(&1);
    let parents: Vec<Option<usize>> = (1..4).map(|v| uf.parent(&v)).collect();
    assert!(!uf.union(&1, &2));
    assert!(!uf.union(&2, &1));
    assert_eq!(uf.find(&1), root);
    let again: Vec<Option<usize>> = (1..4).map(|v| uf.parent(&v)).collect();
    assert_eq!(parents, again);
}

#[test]
fn union_hangs_second_under_first_on_tie() {
    let mut uf = UnionFind::from(&HashSet::from([1, 2, 3]));

    uf.union(&1, &2);
    assert_eq!(uf.find(&2), Some(1));
    assert_eq!(uf.parent(&2), Some(1));
    uf.union(&3, &2);
    assert_eq!(uf.find(&3), Some(1));
}

#[test]
fn find_unknown_vertex() {
    let uf = UnionFind::from(&HashSet::from([1, 2]));

    assert_eq!(uf.find(&7), None);
    assert_eq!(uf.parent(&7), None);
}

#[test]
fn find_returns_a_root() {
    let mut uf = UnionFind::from(&HashSet::from([1, 2, 3, 4, 5]));

    uf.union(&1, &2);
    uf.union(&3, &4);
    uf.union(&2, &4);
    uf.union(&5, &3);
    for v in 1..6 {
        let r = uf.find(&v).unwrap();
        assert_eq!(uf.parent(&r), Some(r));
        assert_eq!(uf.find(&v), uf.find(&1));
    }
}

#[test]
fn change_parent_moves_a_root() {
    let mut uf = UnionFind::new();
    assert_eq!(uf.find(&1), None);

    let mut uf2 = UnionFind::from(&HashSet::from([1, 2]));
    uf2.change_parent(2, 1);
    assert_eq!(uf2.find(&2), Some(1));
    uf = uf2;
    assert_eq!(uf.parent(&2), Some(1));
}

#[test]
fn extract_min_in_priority_order() {
    let mut pq = PriorityQueue::from(&vec![
        PriorityQueueItem(1, 50),
        PriorityQueueItem(2, -3),
        PriorityQueueItem(3, 7),
        PriorityQueueItem(4, 7),
        PriorityQueueItem(5, 0),
    ]);
    pq.insert(PriorityQueueItem(6, 1));
    let i = pq.get_index(&1).unwrap();
    pq.decrease_key(i, -10);

    let mut out = vec![];
    while let Some(it) = pq.extract_min() {
        out.push(it.1);
    }
    assert_eq!(out, vec![-10, -3, 0, 1, 7, 7]);
    assert!(pq.is_empty());
    assert_eq!(pq.extract_min(), None);
}

#[test]
fn get_index_points_at_the_item() {
    let mut pq = PriorityQueue::new();
    for (k, p) in [(10, 9), (11, 4), (12, 8), (13, 1), (14, 6)] {
        pq.insert(PriorityQueueItem(k, p));
    }
    pq.extract_min();
    let i = pq.get_index(&12).unwrap();
    pq.decrease_key(i, 2);
    for k in [10, 11, 12, 14] {
        let i = pq.get_index(&k).unwrap();
        assert_eq!(pq.get_element(i).unwrap().0, k);
    }
    assert_eq!(pq.get_index(&13), None);
    assert_eq!(pq.get_element(99), None);
    assert_eq!(pq.extract_min(), Some(PriorityQueueItem(12, 2)));
}
