use kdtree::sort::sort_indices;
use kdtree::{Vec2, Vec3};

#[test]
fn sort_orders_indices_by_the_chosen_axis() {
    let v = vec![
        Vec2 { x: 2, y: 3 },
        Vec2 { x: 5, y: 4 },
        Vec2 { x: 9, y: 6 },
        Vec2 { x: 4, y: 7 },
        Vec2 { x: 8, y: 1 },
        Vec2 { x: 7, y: 2 },
    ];
    let all: Vec<usize> = (0..v.len()).collect();
    assert_eq!(sort_indices(&v[..], &all[..], 0), vec![0, 3, 1, 5, 4, 2]);
    assert_eq!(sort_indices(&v[..], &all[..], 1), vec![4, 5, 0, 1, 2, 3]);
}

#[test]
fn sort_keeps_the_order_of_equal_keys() {
    let v = vec![
        Vec2 { x: 1, y: 50 },
        Vec2 { x: 0, y: 40 },
        Vec2 { x: 1, y: 30 },
        Vec2 { x: 0, y: 20 },
        Vec2 { x: 1, y: 10 },
        Vec2 { x: 0, y: 0 },
        Vec2 { x: 1, y: -10 },
    ];
    let all: Vec<usize> = (0..v.len()).collect();
    assert_eq!(sort_indices(&v[..], &all[..], 0), vec![1, 3, 5, 0, 2, 4, 6]);
    let backwards: Vec<usize> = (0..v.len()).rev().collect();
    assert_eq!(sort_indices(&v[..], &backwards[..], 0), vec![5, 3, 1, 6, 4, 2, 0]);
}

#[test]
fn sort_takes_a_selection_and_repeats() {
    let v = vec![
        Vec3 { x: 0, y: 0, z: 9 },
        Vec3 { x: 0, y: 0, z: -4 },
        Vec3 { x: 0, y: 0, z: 7 },
        Vec3 { x: 0, y: 0, z: 1 },
    ];
    assert_eq!(sort_indices(&v[..], &[3, 0, 3, 1], 2), vec![1, 3, 3, 0]);
    assert_eq!(sort_indices(&v[..], &[2], 2), vec![2]);
    let none: Vec<usize> = Vec::new();
    assert_eq!(sort_indices(&v[..], &none[..], 2), none);
}

#[test]
fn sort_handles_the_bounds_of_the_coordinates() {
    let v = vec![
        Vec2 { x: i64::MAX, y: 0 },
        Vec2 { x: 0, y: 0 },
        Vec2 { x: i64::MIN, y: 0 },
        Vec2 { x: -1, y: 0 },
    ];
    let all: Vec<usize> = (0..v.len()).collect();
    assert_eq!(sort_indices(&v[..], &all[..], 0), vec![2, 3, 1, 0]);
}
