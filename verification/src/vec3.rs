use crate::decimal::{decimal, push_decimal};
use crate::point::{lawful, Point};
use vstd::prelude::*;
use vstd::std_specs::cmp::PartialEqSpecImpl;
use vstd::string::*;

verus! {

/// A point of space with integer coordinates.
#[derive(Clone, Copy, Debug)]
pub struct Vec3 {
    pub x: i64,
    pub y: i64,
    pub z: i64,
}

impl PartialEq for Vec3 {
    fn eq(&self, other: &Self) -> (r: bool) {
        self.x == other.x && self.y == other.y && self.z == other.z
    }
}

impl PartialEqSpecImpl for Vec3 {
    open spec fn obeys_eq_spec() -> bool {
        true
    }

    open spec fn eq_spec(&self, other: &Self) -> bool {
        self.x == other.x && self.y == other.y && self.z == other.z
    }
}

impl Point for Vec3 {
    type V = i64;

    open spec fn dim(&self) -> nat {
        3
    }

    open spec fn component(&self, pos: int) -> i64 {
        if pos == 0 {
            self.x
        } else if pos == 1 {
            self.y
        } else {
            self.z
        }
    }

    open spec fn key(v: i64) -> int {
        v as int
    }

    /// The coordinates in decimal, in round brackets, with commas between
    /// them.
    open spec fn text(&self) -> Seq<char> {
        seq!['('] + decimal(self.x as int) + seq![','] + decimal(self.y as int) + seq![',']
            + decimal(self.z as int) + seq![')']
    }

    fn size(&self) -> (k: usize) {
        3
    }

    fn at(&self, pos: usize) -> (v: i64) {
        if pos == 0 {
            self.x
        } else if pos == 1 {
            self.y
        } else {
            self.z
        }
    }

    fn label(&self) -> (s: String) {
        proof {
            reveal_strlit("(");
            reveal_strlit(",");
            reveal_strlit(")");
        }
        let mut s = String::new();
        s.append("(");
        push_decimal(&mut s, self.x);
        s.append(",");
        push_decimal(&mut s, self.y);
        s.append(",");
        push_decimal(&mut s, self.z);
        s.append(")");
        s
    }
}

/// `Vec3` meets what the tree asks of a point type.
pub proof fn lemma_vec3_lawful()
    ensures
        lawful::<Vec3>(),
{
}

} // verus!
