use crate::node::{tree_len, tree_ordered, tree_points, tree_text, Node};
use crate::point::{coord, lawful, next_axis, Point};
use crate::sort::{
    axis_key, lemma_sort_ascending, lemma_sort_members, lemma_sort_permutes, pick, selects,
    sort_by_axis, sort_indices,
};
use vstd::multiset::Multiset;
use vstd::prelude::*;
use vstd::slice::slice_subrange;

verus! {

/// Every point of `s` has `k` components, and `k` is at least 1.
pub open spec fn same_dim<T: Point>(s: Seq<T>, k: nat) -> bool {
    &&& k >= 1
    &&& forall|i: int| 0 <= i < s.len() ==> (#[trigger] s[i]).dim() == k
}

/// The k-d tree of the points in `s`, whose root lies at `depth`: empty for
/// no points; else the points are sorted along the axis `depth mod k`, the
/// one in the middle becomes the root, those before it make the left
/// subtree and those after it the right subtree, one level down.
pub open spec fn build<T: Point>(s: Seq<T>, depth: nat) -> Option<Box<Node<T>>>
    decreases s.len(),
{
    if s.len() == 0 {
        None
    } else {
        let axis = (depth % s[0].dim()) as int;
        let sorted = sort_by_axis(s, axis);
        let median = (s.len() / 2) as int;
        proof {
            lemma_sort_permutes(s, axis_key::<T>(axis));
        }
        Some(
            Box::new(
                Node {
                    value: sorted[median],
                    left: build(sorted.take(median), depth + 1),
                    right: build(sorted.skip(median + 1), depth + 1),
                },
            ),
        )
    }
}

/// Every entry of `order` is an index into a sequence of length `len`.
spec fn in_range(order: Seq<usize>, len: nat) -> bool {
    forall|j: int| 0 <= j < order.len() ==> #[trigger] order[j] < len
}

/// Whether no split of the build of `s` at `depth` has a tie at its median:
/// at every level, the point in the middle of the sorted sequence comes
/// strictly after the point before it.
pub open spec fn distinct_splits<T: Point>(s: Seq<T>, depth: nat) -> bool
    decreases s.len(),
{
    if s.len() == 0 {
        true
    } else {
        let axis = (depth % s[0].dim()) as int;
        let sorted = sort_by_axis(s, axis);
        let median = (s.len() / 2) as int;
        proof {
            lemma_sort_permutes(s, axis_key::<T>(axis));
        }
        &&& median > 0 ==> coord(sorted[median - 1], axis) < coord(sorted[median], axis)
        &&& distinct_splits(sorted.take(median), depth + 1)
        &&& distinct_splits(sorted.skip(median + 1), depth + 1)
    }
}

/// Whether no two points of `s` share a coordinate along any of `k` axes.
pub open spec fn distinct_coords<T: Point>(s: Seq<T>, k: nat) -> bool {
    forall|i: int, j: int, axis: int|
        #![trigger coord(s[i], axis), coord(s[j], axis)]
        0 <= i < j < s.len() && 0 <= axis < k ==> coord(s[i], axis) != coord(s[j], axis)
}

/// Creates a k-d tree from a slice of points: `None` for an empty slice,
/// else the root of a balanced tree that holds a copy of each point of the
/// slice. The slice is left as it is.
///
/// Points that are equal along the axis of a split stay in the order of the
/// slice, so one of them may come to lie on either side of the median: the
/// left subtree of a node holds points that do not come after the node's
/// point, not only points that come strictly before it.
pub fn from_slice<T: Point>(points: &[T]) -> (tree: Option<Box<Node<T>>>)
    requires
        lawful::<T>(),
        points@.len() > 0 ==> same_dim(points@, points@[0].dim()),
    ensures
        tree == build(points@, 0),
        tree is None <==> points@.len() == 0,
        tree_points(tree) == points@.to_multiset(),
        tree_len(tree) == points@.len(),
        tree_ordered(tree, 0, false),
        tree_ordered(tree, 0, true) <==> distinct_splits(points@, 0),
        points@.len() > 0 && distinct_coords(points@, points@[0].dim()) ==> tree_ordered(
            tree,
            0,
            true,
        ),
        tree matches Some(root) ==> root.uniform(points@[0].dim()) && root.balanced(),
{
    proof {
        lemma_build_points(points@, 0);
        lemma_build_balanced(points@, 0);
        if points@.len() > 0 {
            let k = points@[0].dim();
            lemma_build_ordered(points@, 0, k);
            lemma_build_strictly_ordered(points@, 0, k);
            lemma_build_same_dim(points@, 0, k);
            if distinct_coords(points@, k) {
                lemma_distinct_coords_split(points@, 0, k);
            }
        }
    }
    let mut order: Vec<usize> = Vec::new();
    let mut i: usize = 0;
    while i < points.len()
        invariant
            i <= points@.len(),
            order@.len() == i,
            forall|j: int| 0 <= j < i ==> order@[j] == j,
        decreases points@.len() - i,
    {
        order.push(i);
        i = i + 1;
    }
    assert(pick(points@, order@) =~= points@);
    create_nodes(points, order.as_slice(), 0)
}

/// Builds the tree of the points that `order` selects from `points`, with
/// its root at `depth`.
fn create_nodes<T: Point>(points: &[T], order: &[usize], depth: usize) -> (tree: Option<
    Box<Node<T>>,
>)
    requires
        lawful::<T>(),
        in_range(order@, points@.len()),
        points@.len() > 0 ==> same_dim(points@, points@[0].dim()),
        depth + order@.len() <= usize::MAX,
    ensures
        tree == build(pick(points@, order@), depth as nat),
    decreases order@.len(),
{
    if order.len() == 0 {
        return None;
    }
    let ghost chosen = pick(points@, order@);
    let k = points[order[0]].size();
    let axis = depth % k;
    let sorted = sort_indices(points, order, axis);
    proof {
        lemma_sort_permutes(chosen, axis_key::<T>(axis as int));
    }
    let median = sorted.len() / 2;
    let value = points[sorted[median]].clone();
    assert(cloned(points@[sorted@[median as int] as int], value));
    let before = slice_subrange(sorted.as_slice(), 0, median);
    let after = slice_subrange(sorted.as_slice(), median + 1, sorted.len());
    proof {
        let arranged = sort_by_axis(chosen, axis as int);
        assert(pick(points@, before@) =~= arranged.take(median as int));
        assert(pick(points@, after@) =~= arranged.skip(median + 1));
    }
    Some(
        Box::new(
            Node {
                value,
                left: create_nodes(points, before, depth + 1),
                right: create_nodes(points, after, depth + 1),
            },
        ),
    )
}

/// A sequence is its part before an index, the element there, and its part
/// after, also as a multiset.
proof fn lemma_split_around<T>(s: Seq<T>, at: int)
    requires
        0 <= at < s.len(),
    ensures
        s.to_multiset() == s.take(at).to_multiset().add(s.skip(at + 1).to_multiset()).insert(s[at]),
{
    broadcast use vstd::seq_lib::to_multiset_build;

    let front = s.take(at);
    let back = s.skip(at + 1);
    vstd::seq_lib::lemma_multiset_commutative(front.push(s[at]), back);
    assert(front.push(s[at]) + back =~= s);
    assert(front.to_multiset().insert(s[at]).add(back.to_multiset()) =~= front.to_multiset().add(
        back.to_multiset(),
    ).insert(s[at]));
}

/// A built tree holds exactly the points it was built from: none is lost
/// and none is stored twice.
pub proof fn lemma_build_points<T: Point>(s: Seq<T>, depth: nat)
    ensures
        tree_points(build(s, depth)) == s.to_multiset(),
        tree_len(build(s, depth)) == s.len(),
    decreases s.len(),
{
    broadcast use vstd::seq_lib::to_multiset_len;

    if s.len() == 0 {
        assert(s.to_multiset().len() == 0);
        assert(s.to_multiset() =~= Multiset::empty());
    } else {
        let axis = (depth % s[0].dim()) as int;
        let sorted = sort_by_axis(s, axis);
        let median = (s.len() / 2) as int;
        lemma_sort_permutes(s, axis_key::<T>(axis));
        lemma_build_points(sorted.take(median), depth + 1);
        lemma_build_points(sorted.skip(median + 1), depth + 1);
        lemma_split_around(sorted, median);
    }
}

/// The points of a built tree have the dimensionality of the input.
pub proof fn lemma_build_same_dim<T: Point>(s: Seq<T>, depth: nat, k: nat)
    requires
        same_dim(s, k),
    ensures
        forall|p: T| tree_points(build(s, depth)).contains(p) ==> p.dim() == k,
{
    broadcast use vstd::seq_lib::to_multiset_contains;

    lemma_build_points(s, depth);
}

/// A built tree is balanced: at every node the left subtree holds as many
/// points as the right subtree, or one more.
pub proof fn lemma_build_balanced<T: Point>(s: Seq<T>, depth: nat)
    ensures
        build(s, depth) matches Some(root) ==> root.balanced(),
    decreases s.len(),
{
    if s.len() > 0 {
        let axis = (depth % s[0].dim()) as int;
        let sorted = sort_by_axis(s, axis);
        let median = (s.len() / 2) as int;
        lemma_sort_permutes(s, axis_key::<T>(axis));
        lemma_build_balanced(sorted.take(median), depth + 1);
        lemma_build_balanced(sorted.skip(median + 1), depth + 1);
        lemma_build_points(sorted.take(median), depth + 1);
        lemma_build_points(sorted.skip(median + 1), depth + 1);
    }
}

/// A built tree is in k-d order, the order that lets a point of a left
/// subtree equal its ancestor along the ancestor's axis: at every node the
/// left subtree holds points that do not come after the node's point, and
/// the right subtree points that do not come before it.
pub proof fn lemma_build_ordered<T: Point>(s: Seq<T>, depth: nat, k: nat)
    requires
        same_dim(s, k),
    ensures
        tree_ordered(build(s, depth), (depth % k) as int, false),
{
    lemma_build_order(s, depth, k);
}

/// Where no split has a tie at its median, and only there, a built tree is
/// in strict k-d order: at every node the left subtree holds points that
/// come strictly before the node's point.
pub proof fn lemma_build_strictly_ordered<T: Point>(s: Seq<T>, depth: nat, k: nat)
    requires
        same_dim(s, k),
    ensures
        tree_ordered(build(s, depth), (depth % k) as int, true) <==> distinct_splits(s, depth),
{
    lemma_build_order(s, depth, k);
}

/// The k-d order of a built tree, with ties at the medians and without.
proof fn lemma_build_order<T: Point>(s: Seq<T>, depth: nat, k: nat)
    requires
        same_dim(s, k),
    ensures
        tree_ordered(build(s, depth), (depth % k) as int, false),
        tree_ordered(build(s, depth), (depth % k) as int, true) <==> distinct_splits(s, depth),
    decreases s.len(),
{
    broadcast use vstd::seq_lib::to_multiset_contains;

    if s.len() > 0 {
        let axis = (depth % k) as int;
        let sorted = sort_by_axis(s, axis);
        let median = (s.len() / 2) as int;
        let front = sorted.take(median);
        let back = sorted.skip(median + 1);
        let root = build(s, depth).unwrap();
        lemma_sort_permutes(s, axis_key::<T>(axis));
        lemma_sort_ascending(s, axis_key::<T>(axis));
        lemma_sort_members(s, axis_key::<T>(axis));
        assert(next_axis(axis, k as int) == ((depth + 1) % k) as int) by {
            vstd::arithmetic::div_mod::lemma_add_mod_noop_right(1, depth as int, k as int);
        }
        lemma_build_order(front, depth + 1, k);
        lemma_build_order(back, depth + 1, k);
        lemma_build_points(front, depth + 1);
        lemma_build_points(back, depth + 1);
        assert forall|p: T| #[trigger] tree_points(root.left).contains(p) implies coord(p, axis)
            <= coord(root.value, axis) by {
            let i = choose|i: int| 0 <= i < front.len() && front[i] == p;
            assert(p == sorted[i]);
        }
        assert forall|p: T| #[trigger] tree_points(root.right).contains(p) implies coord(
            root.value,
            axis,
        ) <= coord(p, axis) by {
            let i = choose|i: int| 0 <= i < back.len() && back[i] == p;
            assert(p == sorted[median + 1 + i]);
        }
        if distinct_splits(s, depth) {
            assert forall|p: T| #[trigger] tree_points(root.left).contains(p) implies coord(
                p,
                axis,
            ) < coord(root.value, axis) by {
                let i = choose|i: int| 0 <= i < front.len() && front[i] == p;
                assert(coord(p, axis) <= coord(sorted[median - 1], axis));
            }
        }
        if root.ordered(axis, true) && median > 0 {
            assert(tree_points(root.left).contains(front[median - 1]));
        }
    }
}

/// Sorting keeps apart points that share no coordinate.
proof fn lemma_sort_distinct_coords<T: Point>(s: Seq<T>, axis: int, k: nat)
    requires
        k >= 1,
        distinct_coords(s, k),
    ensures
        distinct_coords(sort_by_axis(s, axis), k),
{
    broadcast use vstd::seq_lib::to_multiset_contains;

    let sorted = sort_by_axis(s, axis);
    lemma_sort_permutes(s, axis_key::<T>(axis));
    lemma_sort_members(s, axis_key::<T>(axis));
    assert(s.no_duplicates()) by {
        assert forall|i: int, j: int| 0 <= i < j < s.len() implies s[i] != s[j] by {
            assert(coord(s[i], 0) != coord(s[j], 0));
        }
    }
    s.lemma_multiset_has_no_duplicates();
    sorted.lemma_multiset_has_no_duplicates_conv();
    assert forall|i: int, j: int, at: int|
        #![trigger coord(sorted[i], at), coord(sorted[j], at)]
        0 <= i < j < sorted.len() && 0 <= at < k implies coord(sorted[i], at) != coord(
        sorted[j],
        at,
    ) by {
        let a = choose|a: int| 0 <= a < s.len() && s[a] == sorted[i];
        let b = choose|b: int| 0 <= b < s.len() && s[b] == sorted[j];
        assert(a != b);
    }
}

/// Points that share no coordinate are split without ties, so that the
/// tree built from them is in strict k-d order.
pub proof fn lemma_distinct_coords_split<T: Point>(s: Seq<T>, depth: nat, k: nat)
    requires
        same_dim(s, k),
        distinct_coords(s, k),
    ensures
        distinct_splits(s, depth),
        tree_ordered(build(s, depth), (depth % k) as int, true),
    decreases s.len(),
{
    if s.len() > 0 {
        let axis = (depth % k) as int;
        let sorted = sort_by_axis(s, axis);
        let median = (s.len() / 2) as int;
        let front = sorted.take(median);
        let back = sorted.skip(median + 1);
        lemma_sort_permutes(s, axis_key::<T>(axis));
        lemma_sort_ascending(s, axis_key::<T>(axis));
        lemma_sort_members(s, axis_key::<T>(axis));
        lemma_sort_distinct_coords(s, axis, k);
        assert forall|i: int, j: int, at: int|
            #![trigger coord(front[i], at), coord(front[j], at)]
            0 <= i < j < front.len() && 0 <= at < k implies coord(front[i], at) != coord(
            front[j],
            at,
        ) by {
            assert(front[i] == sorted[i] && front[j] == sorted[j]);
        }
        assert forall|i: int, j: int, at: int|
            #![trigger coord(back[i], at), coord(back[j], at)]
            0 <= i < j < back.len() && 0 <= at < k implies coord(back[i], at) != coord(
            back[j],
            at,
        ) by {
            assert(back[i] == sorted[median + 1 + i] && back[j] == sorted[median + 1 + j]);
        }
        lemma_distinct_coords_split(front, depth + 1, k);
        lemma_distinct_coords_split(back, depth + 1, k);
    }
    lemma_build_strictly_ordered(s, depth, k);
}

/// Building is a function of the points and their order alone: two trees
/// built from one sequence at one depth are the same tree, and print the
/// same.
pub proof fn lemma_build_deterministic<T: Point>(
    s: Seq<T>,
    depth: nat,
    first: Option<Box<Node<T>>>,
    second: Option<Box<Node<T>>>,
)
    requires
        first == build(s, depth),
        second == build(s, depth),
    ensures
        first == second,
        tree_text(first) == tree_text(second),
{
}

} // verus!
