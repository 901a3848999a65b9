use kdtree::{from_slice, Node, Point, Vec2, Vec3};

fn p(x: i64, y: i64) -> Vec2 {
    Vec2 { x, y }
}

fn sample() -> Vec<Vec2> {
    vec![p(2, 3), p(5, 4), p(9, 6), p(4, 7), p(8, 1), p(7, 2)]
}

fn collect<T: Point>(node: &Node<T>, out: &mut Vec<T>) {
    out.push(node.value().clone());
    if let Some(child) = &node.left {
        collect(child, out);
    }
    if let Some(child) = &node.right {
        collect(child, out);
    }
}

fn sorted_pairs(points: &[Vec2]) -> Vec<(i64, i64)> {
    let mut pairs: Vec<(i64, i64)> = points.iter().map(|q| (q.x, q.y)).collect();
    pairs.sort();
    pairs
}

/// Checks the k-d order under `node`, which splits on `axis`; with `strict`
/// the left subtree must lie strictly before the node.
fn in_order(node: &Node<Vec2>, axis: usize, strict: bool) -> bool {
    let here = node.value.at(axis);
    let mut left = Vec::new();
    let mut right = Vec::new();
    if let Some(child) = &node.left {
        collect(child, &mut left);
        if !in_order(child, (axis + 1) % 2, strict) {
            return false;
        }
    }
    if let Some(child) = &node.right {
        collect(child, &mut right);
        if !in_order(child, (axis + 1) % 2, strict) {
            return false;
        }
    }
    left.iter().all(|q| if strict { q.at(axis) < here } else { q.at(axis) <= here })
        && right.iter().all(|q| q.at(axis) >= here)
}

#[test]
fn empty_slice_gives_no_tree() {
    let none: Vec<Vec2> = Vec::new();
    assert!(from_slice(&none[..]).is_none());
    let none3: Vec<Vec3> = Vec::new();
    assert!(from_slice(&none3[..]).is_none());
}

#[test]
fn single_point_is_a_leaf() {
    let v = vec![p(3, -4)];
    let kdt = from_slice(&v[..]).unwrap();
    assert_eq!(*kdt.value(), p(3, -4));
    assert!(kdt.left.is_none());
    assert!(kdt.right.is_none());
    assert_eq!(kdt.to_text(), "[(3,-4)]");
}

#[test]
fn build_places_each_point_as_described() {
    let v = sample();
    let kdt = from_slice(&v[..]).unwrap();
    assert_eq!(kdt.value, p(7, 2));
    let left = kdt.left.as_ref().unwrap();
    assert_eq!(left.value, p(5, 4));
    assert_eq!(left.left.as_ref().unwrap().value, p(2, 3));
    assert_eq!(left.right.as_ref().unwrap().value, p(4, 7));
    let right = kdt.right.as_ref().unwrap();
    assert_eq!(right.value, p(9, 6));
    assert_eq!(right.left.as_ref().unwrap().value, p(8, 1));
    assert!(right.right.is_none());
    assert_eq!(kdt.to_text(), "[(7,2), [(5,4), [(2,3)], [(4,7)]], [(9,6), [(8,1)]]]");
}

#[test]
fn build_keeps_every_point_once() {
    let v = vec![p(3, 1), p(-2, 8), p(3, 1), p(0, 0), p(7, -5), p(-2, 9), p(4, 4)];
    let kdt = from_slice(&v[..]).unwrap();
    let mut stored = Vec::new();
    collect(&kdt, &mut stored);
    assert_eq!(stored.len(), 7);
    assert_eq!(sorted_pairs(&stored), sorted_pairs(&v));
}

#[test]
fn build_orders_every_node() {
    let v = sample();
    let kdt = from_slice(&v[..]).unwrap();
    assert!(in_order(&kdt, 0, true));
}

#[test]
fn build_with_ties_orders_weakly() {
    let v = vec![p(1, 1), p(1, 2)];
    let kdt = from_slice(&v[..]).unwrap();
    assert_eq!(kdt.to_text(), "[(1,2), [(1,1)]]");
    assert!(in_order(&kdt, 0, false));
    assert!(!in_order(&kdt, 0, true));
}

#[test]
fn build_sorts_stably() {
    let v = vec![p(1, 9), p(1, 8), p(1, 7)];
    let kdt = from_slice(&v[..]).unwrap();
    assert_eq!(kdt.to_text(), "[(1,8), [(1,9)], [(1,7)]]");
    let w = vec![p(2, 0), p(1, 5), p(2, 1), p(1, 6), p(2, 2)];
    let kdt = from_slice(&w[..]).unwrap();
    assert_eq!(kdt.to_text(), "[(2,0), [(1,6), [(1,5)]], [(2,2), [(2,1)]]]");
}

#[test]
fn build_twice_gives_the_same_tree() {
    let v = sample();
    let first = from_slice(&v[..]).unwrap();
    let second = from_slice(&v[..]).unwrap();
    assert_eq!(first.to_text(), second.to_text());
    let mut a = Vec::new();
    let mut b = Vec::new();
    collect(&first, &mut a);
    collect(&second, &mut b);
    assert_eq!(a, b);
}

#[test]
fn build_does_not_change_the_input() {
    let v = sample();
    let _ = from_slice(&v[..]);
    assert_eq!(v, sample());
}

#[test]
fn insert_goes_left_when_strictly_less() {
    let v = sample();
    let mut kdt = from_slice(&v[..]).unwrap();
    kdt.insert(&p(1, 4));
    let host = kdt.left.as_ref().unwrap().right.as_ref().unwrap();
    assert_eq!(host.value, p(4, 7));
    assert_eq!(host.left.as_ref().unwrap().value, p(1, 4));
    assert!(host.right.is_none());
    kdt.insert(&p(5, 9));
    let host = kdt.left.as_ref().unwrap().right.as_ref().unwrap();
    assert_eq!(host.left.as_ref().unwrap().value, p(1, 4));
    assert_eq!(host.right.as_ref().unwrap().value, p(5, 9));
    assert_eq!(
        kdt.to_text(),
        "[(7,2), [(5,4), [(2,3)], [(4,7), [(1,4)], [(5,9)]]], [(9,6), [(8,1)]]]"
    );
}

#[test]
fn insert_goes_right_when_equal_along_the_axis() {
    let mut root = Node { value: p(5, 5), left: None, right: None };
    root.insert(&p(5, 1));
    assert!(root.left.is_none());
    assert_eq!(root.right.as_ref().unwrap().value, p(5, 1));
    root.insert(&p(9, 1));
    let child = root.right.as_ref().unwrap();
    assert!(child.left.is_none());
    assert_eq!(child.right.as_ref().unwrap().value, p(9, 1));
    assert_eq!(root.to_text(), "[(5,5), [(5,1), [(9,1)]]]");
}

#[test]
fn insert_adds_one_point_and_keeps_the_rest() {
    let v = sample();
    let mut kdt = from_slice(&v[..]).unwrap();
    let mut before = Vec::new();
    collect(&kdt, &mut before);
    kdt.insert(&p(6, 6));
    let mut after = Vec::new();
    collect(&kdt, &mut after);
    assert_eq!(after.len(), before.len() + 1);
    let mut expected = before.clone();
    expected.push(p(6, 6));
    assert_eq!(sorted_pairs(&after), sorted_pairs(&expected));
    assert!(in_order(&kdt, 0, true));
}

#[test]
fn insert_of_a_stored_point_changes_nothing() {
    let v = sample();
    let mut kdt = from_slice(&v[..]).unwrap();
    let before = kdt.to_text();
    for q in sample() {
        kdt.insert(&q);
    }
    assert_eq!(kdt.to_text(), before);
}

#[test]
fn insert_can_unbalance_the_tree() {
    let mut root = Node { value: p(0, 0), left: None, right: None };
    root.insert(&p(1, 1));
    root.insert(&p(2, 2));
    root.insert(&p(3, 3));
    assert_eq!(root.to_text(), "[(0,0), [(1,1), [(2,2), [(3,3)]]]]");
    let mut stored = Vec::new();
    collect(&root, &mut stored);
    assert_eq!(stored.len(), 4);
}

#[test]
fn three_dimensions_cycle_through_three_axes() {
    let v = vec![
        Vec3 { x: 5, y: 1, z: 9 },
        Vec3 { x: 1, y: 7, z: 3 },
        Vec3 { x: 9, y: 4, z: 6 },
        Vec3 { x: 3, y: 2, z: 8 },
        Vec3 { x: 7, y: 8, z: 1 },
        Vec3 { x: 2, y: 5, z: 4 },
        Vec3 { x: 8, y: 3, z: 2 },
    ];
    let mut kdt = from_slice(&v[..]).unwrap();
    assert_eq!(
        kdt.to_text(),
        "[(5,1,9), [(2,5,4), [(3,2,8)], [(1,7,3)]], [(9,4,6), [(8,3,2)], [(7,8,1)]]]"
    );
    kdt.insert(&Vec3 { x: 3, y: 1, z: 7 });
    kdt.insert(&Vec3 { x: 3, y: 1, z: 9 });
    kdt.insert(&Vec3 { x: 4, y: 1, z: 0 });
    assert_eq!(
        kdt.to_text(),
        "[(5,1,9), [(2,5,4), [(3,2,8), [(3,1,7), [(4,1,0)]], [(3,1,9)]], [(1,7,3)]], [(9,4,6), [(8,3,2)], [(7,8,1)]]]"
    );
}

#[test]
fn points_report_their_size_and_components() {
    let a = p(-3, 12);
    assert_eq!(a.size(), 2);
    assert_eq!(a.at(0), -3);
    assert_eq!(a.at(1), 12);
    let b = Vec3 { x: 1, y: 2, z: 3 };
    assert_eq!(b.size(), 3);
    assert_eq!(b.at(0), 1);
    assert_eq!(b.at(1), 2);
    assert_eq!(b.at(2), 3);
    assert!(a == p(-3, 12));
    assert!(a != p(-3, 13));
    assert!(b != Vec3 { x: 1, y: 2, z: 4 });
}

#[test]
fn labels_are_decimal() {
    assert_eq!(p(0, 0).label(), "(0,0)");
    assert_eq!(p(-7, 10).label(), "(-7,10)");
    assert_eq!(p(1234567890, -909).label(), "(1234567890,-909)");
    assert_eq!(
        p(i64::MIN, i64::MAX).label(),
        "(-9223372036854775808,9223372036854775807)"
    );
    assert_eq!(Vec3 { x: 100, y: -1, z: 19 }.label(), "(100,-1,19)");
}

#[test]
fn insert_may_miss_a_point_that_a_tie_put_on_the_left() {
    let v = vec![p(1, 1), p(1, 2)];
    let mut kdt = from_slice(&v[..]).unwrap();
    assert_eq!(kdt.to_text(), "[(1,2), [(1,1)]]");
    kdt.insert(&p(1, 1));
    assert_eq!(kdt.to_text(), "[(1,2), [(1,1)], [(1,1)]]");
    kdt.insert(&p(1, 1));
    assert_eq!(kdt.to_text(), "[(1,2), [(1,1)], [(1,1)]]");
}

#[test]
fn build_splits_even_and_odd_lengths_at_the_middle() {
    let two = vec![p(1, 0), p(2, 0)];
    assert_eq!(from_slice(&two[..]).unwrap().to_text(), "[(2,0), [(1,0)]]");
    let three = vec![p(3, 0), p(1, 0), p(2, 0)];
    assert_eq!(from_slice(&three[..]).unwrap().to_text(), "[(2,0), [(1,0)], [(3,0)]]");
    let four = vec![p(4, 0), p(3, 1), p(2, 2), p(1, 3)];
    assert_eq!(
        from_slice(&four[..]).unwrap().to_text(),
        "[(3,1), [(1,3), [(2,2)]], [(4,0)]]"
    );
}

fn count(tree: &Option<Box<Node<Vec2>>>) -> usize {
    match tree {
        Some(node) => 1 + count(&node.left) + count(&node.right),
        None => 0,
    }
}

fn balanced(tree: &Option<Box<Node<Vec2>>>) -> bool {
    match tree {
        Some(node) => {
            let l = count(&node.left);
            let r = count(&node.right);
            (l == r || l == r + 1) && balanced(&node.left) && balanced(&node.right)
        }
        None => true,
    }
}

#[test]
fn build_balances_the_tree() {
    let mut v = Vec::new();
    for i in 0..37 {
        v.push(p((i * 7919) % 101 - 50, (i * 104729) % 89 - 44));
    }
    let tree = from_slice(&v[..]);
    assert_eq!(count(&tree), 37);
    assert!(balanced(&tree));
    assert!(in_order(tree.as_ref().unwrap(), 0, false));
}
