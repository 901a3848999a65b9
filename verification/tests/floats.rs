use kdtree::{from_slice, Point};

#[derive(Clone, Copy, PartialEq, Debug)]
struct Vec2 {
    x: f32,
    y: f32,
}

impl Point for Vec2 {
    type V = f32;

    fn size(&self) -> usize {
        2
    }

    fn at(&self, pos: usize) -> f32 {
        match pos {
            0 => self.x,
            _ => self.y,
        }
    }

    fn label(&self) -> String {
        format!("({},{})", self.x, self.y)
    }
}

fn float_sample() -> Vec<Vec2> {
    vec![
        Vec2 { x: 2.0, y: 3.0 },
        Vec2 { x: 5.0, y: 4.0 },
        Vec2 { x: 9.0, y: 6.0 },
        Vec2 { x: 4.0, y: 7.0 },
        Vec2 { x: 8.0, y: 1.0 },
        Vec2 { x: 7.0, y: 2.0 },
    ]
}

#[test]
fn test_from_slice() {
    let v = float_sample();
    let kdt = from_slice(&v[..]).unwrap();
    println!("{}", kdt.to_text());
    println!("{:?} == {:?}", kdt.value, v[5]);
    assert!(kdt.value == v[5]);
    assert!(kdt.to_text() == "[(7,2), [(5,4), [(2,3)], [(4,7)]], [(9,6), [(8,1)]]]");
}

#[test]
fn test_insert() {
    let v = float_sample();
    let mut kdt = from_slice(&v[..]).unwrap();
    println!("{}", kdt.to_text());
    kdt.insert(&Vec2 { x: 1.0, y: 4.0 });
    println!("after insert: {}", kdt.to_text());
    assert!(kdt.to_text() == "[(7,2), [(5,4), [(2,3)], [(4,7), [(1,4)]]], [(9,6), [(8,1)]]]");
    kdt.insert(&Vec2 { x: 5.0, y: 9.0 });
    println!("after second insert: {}", kdt.to_text());
    assert!(
        kdt.to_text()
            == "[(7,2), [(5,4), [(2,3)], [(4,7), [(1,4)], [(5,9)]]], [(9,6), [(8,1)]]]"
    );
}

#[test]
fn fractional_coordinates_are_ordered_as_numbers() {
    let v = vec![
        Vec2 { x: 0.5, y: 0.0 },
        Vec2 { x: -1.5, y: 2.0 },
        Vec2 { x: 0.25, y: -3.0 },
    ];
    let kdt = from_slice(&v[..]).unwrap();
    assert_eq!(kdt.to_text(), "[(0.25,-3), [(-1.5,2)], [(0.5,0)]]");
}
