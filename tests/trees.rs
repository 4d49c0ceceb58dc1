use vaabbit::dynamictree::DynamicTree;
use vaabbit::quadtree::QuadTree;
use vaabbit::{point, AABB};

fn b(x0: i32, y0: i32, x1: i32, y1: i32) -> AABB {
    AABB::new(point(x0, y0), point(x1, y1))
}

fn ids(v: &[(u64, AABB)]) -> Vec<u64> {
    let mut r: Vec<u64> = v.iter().map(|e| e.0).collect();
    r.sort();
    r
}

#[test]
fn quadtree_query_reports_exactly_the_overlapping() {
    let mut t: QuadTree<u64> = QuadTree::new(100, 100, 8);
    t.insert(1, &b(0, 0, 10, 10));
    t.insert(2, &b(20, 20, 30, 30));
    t.insert(3, &b(5, 5, 25, 25));
    assert_eq!(t.len(), 3);
    assert_eq!(ids(&t.query(&b(0, 0, 10, 10))), vec![1, 3]);
    assert_eq!(ids(&t.query(&b(20, 20, 30, 30))), vec![2, 3]);
    assert_eq!(ids(&t.query(&b(40, 40, 50, 50))), Vec::<u64>::new());
}

#[test]
fn quadtree_rebalance_keeps_every_element() {
    let mut t: QuadTree<u64> = QuadTree::new(1000, 1000, 8);
    for i in 0..100u64 {
        let x = (i as i32 % 10) * 100 - 500;
        let y = (i as i32 / 10) * 100 - 500;
        t.insert_with_rebalance(i, &b(x, y, x + 10, y + 10));
    }
    assert_eq!(t.len(), 100);
    assert!(t.root.children.is_some());
    let all = t.query(&b(-2000, -2000, 2000, 2000));
    assert_eq!(ids(&all), (0..100).collect::<Vec<u64>>());
    let one = t.query(&b(-500, -500, -495, -495));
    assert_eq!(ids(&one), vec![0]);
    let info = t.get_debug_info();
    assert!(info.len() > 5);
    assert_eq!(info.iter().map(|e| e.0).sum::<usize>(), 100);
    assert_eq!(info[info.len() - 1].1, t.root.bounds);
}

#[test]
fn quadtree_root_holds_what_fits_nowhere() {
    let mut t: QuadTree<u64> = QuadTree::new(10, 10, 4);
    t.insert(7, &b(100, 100, 200, 200));
    assert_eq!(t.root.elements.len(), 1);
    assert_eq!(ids(&t.query(&b(150, 150, 151, 151))), vec![7]);
    assert_eq!(t.root.bounds, b(-15, -15, 15, 15));
}

#[test]
fn dynamic_tree_query_and_unions() {
    let mut t: DynamicTree<u64> = DynamicTree::new();
    assert!(t.query(&b(0, 0, 1, 1)).is_empty());
    t.insert(1, &b(0, 0, 10, 10));
    t.insert(2, &b(100, 100, 110, 110));
    t.insert(3, &b(5, 5, 15, 15));
    assert_eq!(ids(&t.query(&b(0, 0, 4, 4))), vec![1]);
    assert_eq!(ids(&t.query(&b(12, 12, 13, 13))), vec![3]);
    assert_eq!(ids(&t.query(&b(-100, -100, 200, 200))), vec![1, 2, 3]);
    assert_eq!(ids(&t.query(&b(50, 50, 60, 60))), Vec::<u64>::new());
    let root = t.root.as_ref().unwrap();
    assert_eq!(root.bounds, b(0, 0, 110, 110));
    let info = t.get_debug_info();
    assert_eq!(info.len(), 5);
    assert_eq!(info[0], (0, b(0, 0, 110, 110)));
    assert_eq!(info.iter().filter(|e| e.0 == 1).count(), 3);
}

#[test]
fn dynamic_tree_try_update_body() {
    let mut t: DynamicTree<u64> = DynamicTree::new();
    assert!(!t.try_update_body(b(0, 0, 1, 1), 1));
    t.insert(1, &b(0, 0, 10, 10));
    t.insert(2, &b(50, 50, 60, 60));
    assert!(t.try_update_body(b(2, 2, 8, 8), 1));
    assert!(t.try_update_body(b(0, 0, 10, 10), 1));
    assert!(!t.try_update_body(b(2, 2, 11, 8), 1));
    assert!(!t.try_update_body(b(2, 2, 8, 8), 2));
    assert!(!t.try_update_body(b(2, 2, 8, 8), 9));
    t.clear();
    assert!(t.root.is_none());
}

#[test]
fn quadtree_remove_all_takes_one_per_entry() {
    let mut t: QuadTree<u64> = QuadTree::new(1000, 1000, 8);
    for i in 0..40u64 {
        let x = (i as i32 % 8) * 100 - 400;
        let y = (i as i32 / 8) * 100 - 400;
        t.insert_with_rebalance(i % 20, &b(x, y, x + 10, y + 10));
    }
    assert_eq!(t.len(), 40);
    let mut gone = vec![Some(3u64), Some(3u64), Some(7u64), Some(99u64), None];
    t.remove_all(&mut gone);
    assert!(gone.is_empty());
    assert_eq!(t.len(), 37);
    let left = ids(&t.query(&b(-2000, -2000, 2000, 2000)));
    assert!(!left.contains(&3));
    assert_eq!(left.iter().filter(|x| **x == 7).count(), 1);
    let mut single = vec![Some(5u64)];
    t.root.remove_all(&mut single);
    assert_eq!(single, vec![None]);
    assert_eq!(t.len(), 36);
}

#[test]
fn quadtree_split_keeps_straddlers_at_the_parent() {
    let mut t: QuadTree<u64> = QuadTree::new(100, 100, 8);
    for i in 0..16u64 {
        let x = (i as i32) * 5 - 140;
        t.insert_with_rebalance(i, &b(x, -140, x + 2, -138));
    }
    assert!(t.root.children.is_none());
    t.insert_with_rebalance(99, &b(-20, -20, 20, 20));
    let q = t.root.children.as_ref().unwrap();
    assert_eq!(q.sw.bounds, b(-158, -158, 8, 8));
    assert_eq!(q.ne.bounds, b(-8, -8, 158, 158));
    assert_eq!(t.root.elements.len(), 1);
    assert_eq!(t.root.elements[0].0, 99);
    assert_eq!(q.sw.elements.len(), 16);
    t.insert(7, &b(100, 100, 110, 110));
    assert_eq!(q_ne_len(&t), 1);
}

fn q_ne_len(t: &QuadTree<u64>) -> usize {
    t.root.children.as_ref().unwrap().ne.elements.len()
}

#[test]
fn dynamic_tree_pairs_with_the_cheaper_sibling() {
    let mut t: DynamicTree<u64> = DynamicTree::new();
    t.insert(1, &b(0, 0, 10, 10));
    t.insert(2, &b(100, 0, 110, 10));
    t.insert(3, &b(95, 0, 99, 10));
    let root = t.root.as_ref().unwrap();
    let c2 = root.child_2.as_ref().unwrap();
    assert_eq!(c2.bounds, b(95, 0, 110, 10));
    assert_eq!(root.child_1.as_ref().unwrap().data, Some(1));
}
