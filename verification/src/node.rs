use crate::point::{coord, lawful, next_axis, Point};
use vstd::multiset::Multiset;
use vstd::prelude::*;
use vstd::string::*;

verus! {

/// One node of a k-d tree: a point and up to two subtrees, which it owns.
pub struct Node<T: Point> {
    pub value: T,
    pub left: Option<Box<Node<T>>>,
    pub right: Option<Box<Node<T>>>,
}

/// The points stored in a possibly empty tree, each as often as it occurs.
pub open spec fn tree_points<T: Point>(tree: Option<Box<Node<T>>>) -> Multiset<T> {
    match tree {
        None => Multiset::empty(),
        Some(node) => node.points(),
    }
}

/// The number of points in a possibly empty tree.
pub open spec fn tree_len<T: Point>(tree: Option<Box<Node<T>>>) -> nat {
    tree_points(tree).len()
}

/// The k-d order of a possibly empty tree whose root splits on `axis`.
pub open spec fn tree_ordered<T: Point>(
    tree: Option<Box<Node<T>>>,
    axis: int,
    strict: bool,
) -> bool {
    match tree {
        None => true,
        Some(node) => node.ordered(axis, strict),
    }
}

/// The printed form of a possibly empty tree; an empty tree prints as
/// nothing.
pub open spec fn tree_text<T: Point>(tree: Option<Box<Node<T>>>) -> Seq<char> {
    match tree {
        None => Seq::empty(),
        Some(node) => node.text(),
    }
}

impl<T: Point> Node<T> {
    /// A node without children.
    pub open spec fn leaf(value: T) -> Node<T> {
        Node { value, left: None, right: None }
    }

    /// The points stored in the tree under this node, each as often as it
    /// occurs.
    pub open spec fn points(self) -> Multiset<T>
        decreases self,
    {
        let left = match self.left {
            None => Multiset::empty(),
            Some(child) => child.points(),
        };
        let right = match self.right {
            None => Multiset::empty(),
            Some(child) => child.points(),
        };
        left.add(right).insert(self.value)
    }

    /// Every point in the tree has dimensionality `k`.
    pub open spec fn uniform(self, k: nat) -> bool {
        forall|p: T| self.points().contains(p) ==> p.dim() == k
    }

    /// The number of points in the tree.
    pub open spec fn len(self) -> nat {
        self.points().len()
    }

    /// Whether at every node the left subtree holds as many points as the
    /// right subtree, or one more.
    pub open spec fn balanced(self) -> bool
        decreases self,
    {
        &&& tree_len(self.right) <= tree_len(self.left) <= tree_len(self.right) + 1
        &&& match self.left {
            None => true,
            Some(child) => child.balanced(),
        }
        &&& match self.right {
            None => true,
            Some(child) => child.balanced(),
        }
    }

    /// The k-d order of the tree under this node, which splits on `axis`:
    /// at every node, the points of the left subtree come before the node's
    /// point along the node's axis, those of the right subtree do not, and
    /// the children split on the next axis. With `strict` the left subtree
    /// lies strictly before the node; without it, a point of the left
    /// subtree may also equal the node's point along the axis.
    pub open spec fn ordered(self, axis: int, strict: bool) -> bool
        decreases self,
    {
        let next = next_axis(axis, self.value.dim() as int);
        &&& forall|p: T| #[trigger]
            tree_points(self.left).contains(p) ==> if strict {
                coord(p, axis) < coord(self.value, axis)
            } else {
                coord(p, axis) <= coord(self.value, axis)
            }
        &&& forall|p: T| #[trigger]
            tree_points(self.right).contains(p) ==> coord(self.value, axis) <= coord(p, axis)
        &&& match self.left {
            None => true,
            Some(child) => child.ordered(next, strict),
        }
        &&& match self.right {
            None => true,
            Some(child) => child.ordered(next, strict),
        }
    }

    /// Whether the descent that inserts `p` meets a node equal to `p`.
    pub open spec fn finds(self, p: T, axis: int) -> bool
        decreases self,
    {
        let next = next_axis(axis, p.dim() as int);
        if p == self.value {
            true
        } else if coord(p, axis) < coord(self.value, axis) {
            match self.left {
                None => false,
                Some(child) => child.finds(p, next),
            }
        } else {
            match self.right {
                None => false,
                Some(child) => child.finds(p, next),
            }
        }
    }

    /// The tree after `p` has been inserted, when this node splits on
    /// `axis`: the tree itself where the descent meets a node equal to `p`,
    /// else the tree with a new leaf where the descent ends.
    pub open spec fn inserted(self, p: T, axis: int) -> Node<T>
        decreases self,
    {
        let next = next_axis(axis, p.dim() as int);
        if p == self.value {
            self
        } else if coord(p, axis) < coord(self.value, axis) {
            let left = match self.left {
                None => Node::leaf(p),
                Some(child) => child.inserted(p, next),
            };
            Node { value: self.value, left: Some(Box::new(left)), right: self.right }
        } else {
            let right = match self.right {
                None => Node::leaf(p),
                Some(child) => child.inserted(p, next),
            };
            Node { value: self.value, left: self.left, right: Some(Box::new(right)) }
        }
    }

    /// The printed form of the tree under this node: in square brackets, the
    /// printed form of the node's point, then that of the left subtree and
    /// that of the right subtree, each behind a comma and a space; an empty
    /// subtree leaves nothing.
    pub open spec fn text(self) -> Seq<char>
        decreases self,
    {
        let left = match self.left {
            None => Seq::empty(),
            Some(child) => seq![',', ' '] + child.text(),
        };
        let right = match self.right {
            None => Seq::empty(),
            Some(child) => seq![',', ' '] + child.text(),
        };
        seq!['['] + self.value.text() + left + right + seq![']']
    }

    /// Returns the point stored in this node.
    pub fn value(&self) -> (v: &T)
        ensures
            *v == self.value,
    {
        &self.value
    }

    /// Inserts a copy of `value` into the tree rooted at this node, which is
    /// taken to split on axis 0. The descent goes left where `value` comes
    /// strictly before the node along the node's axis, and right otherwise,
    /// also where the two are equal along it. It stops, and changes nothing,
    /// at a node that equals `value`; else it ends at an empty place, where
    /// the copy becomes a leaf. Nothing is rebalanced.
    pub fn insert(&mut self, value: &T)
        requires
            lawful::<T>(),
            value.dim() >= 1,
            old(self).uniform(value.dim()),
        ensures
            *final(self) == old(self).inserted(*value, 0),
            final(self).uniform(value.dim()),
            forall|p: T| old(self).points().count(p) <= final(self).points().count(p),
            old(self).finds(*value, 0) ==> *final(self) == *old(self),
            !old(self).finds(*value, 0) ==> final(self).points() == old(self).points().insert(
                *value,
            ),
            !old(self).points().contains(*value) ==> final(self).len() == old(self).len() + 1,
            old(self).ordered(0, true) && old(self).points().contains(*value) ==> *final(self)
                == *old(self),
            forall|strict: bool|
                old(self).ordered(0, strict) ==> #[trigger] final(self).ordered(0, strict),
    {
        proof {
            lemma_inserted_points(*self, *value, 0);
            if self.ordered(0, true) {
                lemma_finds_stored(*self, *value, 0);
            }
            assert forall|strict: bool| self.ordered(0, strict) implies #[trigger] self.inserted(
                *value,
                0,
            ).ordered(0, strict) by {
                lemma_inserted_ordered(*self, *value, 0, strict);
            }
        }
        let k = value.size();
        self.insert_node(value, 0, k);
    }

    /// Appends the printed form of the tree under this node to `out`.
    pub fn fmt(&self, out: &mut String)
        ensures
            final(out)@ == old(out)@ + self.text(),
        decreases self,
    {
        proof {
            reveal_strlit("[");
            reveal_strlit(", ");
            reveal_strlit("]");
        }
        out.append("[");
        let label = self.value.label();
        out.append(label.as_str());
        match &self.left {
            Some(child) => {
                out.append(", ");
                child.fmt(out);
            },
            None => {},
        }
        match &self.right {
            Some(child) => {
                out.append(", ");
                child.fmt(out);
            },
            None => {},
        }
        out.append("]");
    }

    /// Returns the printed form of the tree under this node.
    pub fn to_text(&self) -> (s: String)
        ensures
            s@ == self.text(),
    {
        let mut s = String::new();
        self.fmt(&mut s);
        s
    }

    /// Descends from this node, which splits on `axis`, to the place of
    /// `value`, and attaches it there.
    fn insert_node(&mut self, value: &T, axis: usize, k: usize)
        requires
            lawful::<T>(),
            k == value.dim(),
            axis < k,
            old(self).uniform(value.dim()),
        ensures
            *final(self) == old(self).inserted(*value, axis as int),
        decreases *old(self),
    {
        if *value == self.value {
            return ;
        }
        proof {
            lemma_uniform_parts(*self, k as nat);
        }
        let next = (axis + 1) % k;
        if value.at(axis) < self.value.at(axis) {
            match &mut self.left {
                Some(child) => {
                    child.insert_node(value, next, k);
                },
                None => {
                    let p = value.clone();
                    assert(cloned(*value, p));
                    self.left = Some(Box::new(Node { value: p, left: None, right: None }));
                },
            }
        } else {
            match &mut self.right {
                Some(child) => {
                    child.insert_node(value, next, k);
                },
                None => {
                    let p = value.clone();
                    assert(cloned(*value, p));
                    self.right = Some(Box::new(Node { value: p, left: None, right: None }));
                },
            }
        }
    }
}

/// In a tree whose points all have dimensionality `k`, the root's point has
/// it, and so have the points of either subtree.
proof fn lemma_uniform_parts<T: Point>(node: Node<T>, k: nat)
    requires
        node.uniform(k),
    ensures
        node.value.dim() == k,
        node.left matches Some(child) ==> child.uniform(k),
        node.right matches Some(child) ==> child.uniform(k),
{
    assert forall|q: T| tree_points(node.left).contains(q) || tree_points(node.right).contains(
        q,
    ) implies node.points().contains(q) by {}
}

/// Insertion adds the point once where the descent does not meet an equal
/// node, and leaves the tree as it is where it does.
pub proof fn lemma_inserted_points<T: Point>(node: Node<T>, p: T, axis: int)
    ensures
        node.finds(p, axis) ==> node.inserted(p, axis) == node,
        !node.finds(p, axis) ==> node.inserted(p, axis).points() == node.points().insert(p),
        node.finds(p, axis) ==> node.points().contains(p),
    decreases node,
{
    let next = next_axis(axis, p.dim() as int);
    if p != node.value {
        let near = if coord(p, axis) < coord(node.value, axis) {
            node.left
        } else {
            node.right
        };
        match near {
            None => {
                assert(Node::leaf(p).points() =~= Multiset::empty().insert(p));
            },
            Some(child) => {
                lemma_inserted_points(*child, p, next);
            },
        }
    }
}

/// In a tree in strict k-d order, the descent that inserts a point meets an
/// equal node exactly when the tree holds the point: there, insertion adds
/// a point if and only if it is new to the tree.
pub proof fn lemma_finds_stored<T: Point>(node: Node<T>, p: T, axis: int)
    requires
        node.ordered(axis, true),
        node.uniform(p.dim()),
    ensures
        node.finds(p, axis) <==> node.points().contains(p),
    decreases node,
{
    let next = next_axis(axis, p.dim() as int);
    lemma_uniform_parts(node, p.dim());
    if p != node.value {
        let left_turn = coord(p, axis) < coord(node.value, axis);
        let (near, far) = if left_turn {
            (node.left, node.right)
        } else {
            (node.right, node.left)
        };
        assert(!tree_points(far).contains(p));
        match near {
            None => {},
            Some(child) => {
                lemma_finds_stored(*child, p, next);
            },
        }
    }
}

/// Insertion keeps the k-d order, strict or not, of a tree whose points all
/// have the dimensionality of the inserted one.
pub proof fn lemma_inserted_ordered<T: Point>(node: Node<T>, p: T, axis: int, strict: bool)
    requires
        node.ordered(axis, strict),
        node.uniform(p.dim()),
    ensures
        node.inserted(p, axis).ordered(axis, strict),
    decreases node,
{
    let next = next_axis(axis, p.dim() as int);
    let after = node.inserted(p, axis);
    lemma_uniform_parts(node, p.dim());
    if p != node.value {
        let left_turn = coord(p, axis) < coord(node.value, axis);
        let (before, grown) = if left_turn {
            (node.left, after.left.unwrap())
        } else {
            (node.right, after.right.unwrap())
        };
        match before {
            None => {},
            Some(child) => {
                lemma_inserted_ordered(*child, p, next, strict);
                lemma_inserted_points(*child, p, next);
            },
        }
        assert forall|q: T| #[trigger] grown.points().contains(q) implies q == p || tree_points(
            before,
        ).contains(q) by {}
        assert(after.left is Some ==> after.left.unwrap().ordered(next, strict));
        assert(after.right is Some ==> after.right.unwrap().ordered(next, strict));
    }
}

} // verus!
