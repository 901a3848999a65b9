use crate::decimal::{decimal, push_decimal};
use crate::point::{lawful, Point};
use vstd::prelude::*;
use vstd::std_specs::cmp::PartialEqSpecImpl;
use vstd::string::*;

verus! {

/// A point of the plane with integer coordinates.
#[derive(Clone, Copy, Debug)]
pub struct Vec2 {
    pub x: i64,
    pub y: i64,
}

impl PartialEq for Vec2 {
    fn eq(&self, other: &Self) -> (r: bool) {
        self.x == other.x && self.y == other.y
    }
}

impl PartialEqSpecImpl for Vec2 {
    open spec fn obeys_eq_spec() -> bool {
        true
    }

    open spec fn eq_spec(&self, other: &Self) -> bool {
        self.x == other.x && self.y == other.y
    }
}

impl Point for Vec2 {
    type V = i64;

    open spec fn dim(&self) -> nat {
        2
    }

    open spec fn component(&self, pos: int) -> i64 {
        if pos == 0 {
            self.x
        } else {
            self.y
        }
    }

    open spec fn key(v: i64) -> int {
        v as int
    }

    /// The coordinates in decimal, in round brackets, with a comma between
    /// them.
    open spec fn text(&self) -> Seq<char> {
        seq!['('] + decimal(self.x as int) + seq![','] + decimal(self.y as int) + seq![')']
    }

    fn size(&self) -> (k: usize) {
        2
    }

    fn at(&self, pos: usize) -> (v: i64) {
        if pos == 0 {
            self.x
        } else {
            self.y
        }
    }

    fn label(&self) -> (s: String) {
        proof {
            reveal_strlit("(");
            reveal_strlit(",");
            reveal_strlit(")");
        }
        let mut s = String::new();
        s.append("(");
        push_decimal(&mut s, self.x);
        s.append(",");
        push_decimal(&mut s, self.y);
        s.append(")");
        s
    }
}

/// `Vec2` meets what the tree asks of a point type.
pub proof fn lemma_vec2_lawful()
    ensures
        lawful::<Vec2>(),
{
}

} // verus!
