use crate::point::{coord, lawful, Point};
use vstd::prelude::*;
use vstd::slice::slice_subrange;

verus! {

/// `s` with `x` put in front of the first element whose key is above that
/// of `x`, or at the end where there is none. In an ascending `s`, `x`
/// lands behind every element that shares its key.
pub open spec fn insert_by_key<A>(s: Seq<A>, x: A, key: spec_fn(A) -> int) -> Seq<A>
    decreases s.len(),
{
    if s.len() == 0 {
        seq![x]
    } else if key(x) < key(s[0]) {
        seq![x] + s
    } else {
        seq![s[0]] + insert_by_key(s.skip(1), x, key)
    }
}

/// `s` in ascending order of `key`, elements that share a key in the order
/// in which they stand in `s`.
pub open spec fn sort_by_key<A>(s: Seq<A>, key: spec_fn(A) -> int) -> Seq<A>
    decreases s.len(),
{
    if s.len() == 0 {
        s
    } else {
        insert_by_key(sort_by_key(s.drop_last(), key), s.last(), key)
    }
}

/// `a` and `b` interleaved by their first elements: the first of `b` goes
/// out only where its key is strictly below that of the first of `a`.
pub open spec fn merge_by_key<A>(a: Seq<A>, b: Seq<A>, key: spec_fn(A) -> int) -> Seq<A>
    decreases a.len() + b.len(),
{
    if a.len() == 0 {
        b
    } else if b.len() == 0 {
        a
    } else if key(b[0]) < key(a[0]) {
        seq![b[0]] + merge_by_key(a, b.skip(1), key)
    } else {
        seq![a[0]] + merge_by_key(a.skip(1), b, key)
    }
}

/// The keys of `s` ascend.
pub open spec fn ascending<A>(s: Seq<A>, key: spec_fn(A) -> int) -> bool {
    forall|i: int, j: int| 0 <= i <= j < s.len() ==> key(s[i]) <= key(s[j])
}

/// Whether an element has the key `k`.
pub open spec fn has_key<A>(key: spec_fn(A) -> int, k: int) -> spec_fn(A) -> bool {
    |x: A| key(x) == k
}

/// The elements of `s` whose key is `k`, in their order.
pub open spec fn with_key<A>(s: Seq<A>, key: spec_fn(A) -> int, k: int) -> Seq<A> {
    s.filter(has_key(key, k))
}

/// The key by which points are ordered along `axis`.
pub open spec fn axis_key<T: Point>(axis: int) -> spec_fn(T) -> int {
    |p: T| coord(p, axis)
}

/// `s` in ascending order along `axis`, points that are equal along the
/// axis in the order in which they stand in `s`.
pub open spec fn sort_by_axis<T: Point>(s: Seq<T>, axis: int) -> Seq<T> {
    sort_by_key(s, axis_key::<T>(axis))
}

/// The key by which indices into `points` are ordered along `axis`: that of
/// the point at the index.
pub open spec fn index_key<T: Point>(points: Seq<T>, axis: int) -> spec_fn(usize) -> int {
    |i: usize| coord(points[i as int], axis)
}

/// The point of `points` at an index.
pub open spec fn point_at<T: Point>(points: Seq<T>) -> spec_fn(usize) -> T {
    |i: usize| points[i as int]
}

/// The points that `order` selects from `points`, in the order of `order`.
pub open spec fn pick<T: Point>(points: Seq<T>, order: Seq<usize>) -> Seq<T> {
    order.map_values(point_at(points))
}

/// Every entry of `order` is the index of a point of `points` that has a
/// component at `axis`.
pub open spec fn selects<T: Point>(points: Seq<T>, order: Seq<usize>, axis: int) -> bool {
    forall|j: int|
        0 <= j < order.len() ==> (#[trigger] order[j]) < points.len() && 0 <= axis
            < points[order[j] as int].dim()
}

/// Sorts the indices in `order` by the points they select, ascending along
/// `axis`; indices of points that are equal along the axis keep their
/// order. What the sorted indices select is what `order` selects, sorted.
pub fn sort_indices<T: Point>(points: &[T], order: &[usize], axis: usize) -> (sorted: Vec<usize>)
    requires
        lawful::<T>(),
        selects(points@, order@, axis as int),
    ensures
        sorted@ == sort_by_key(order@, index_key(points@, axis as int)),
        pick(points@, sorted@) == sort_by_axis(pick(points@, order@), axis as int),
        selects(points@, sorted@, axis as int),
{
    let sorted = merge_sort(points, order, axis);
    proof {
        let by_index = index_key(points@, axis as int);
        let by_point = axis_key::<T>(axis as int);
        let select = point_at(points@);
        assert forall|i: usize| by_index(i) == by_point(#[trigger] select(i)) by {}
        lemma_sort_maps(order@, select, by_index, by_point);
        lemma_sort_selects(points@, order@, axis as int);
    }
    sorted
}

/// Sorts the indices in `order` by merging its sorted halves.
fn merge_sort<T: Point>(points: &[T], order: &[usize], axis: usize) -> (sorted: Vec<usize>)
    requires
        lawful::<T>(),
        selects(points@, order@, axis as int),
    ensures
        sorted@ == sort_by_key(order@, index_key(points@, axis as int)),
    decreases order@.len(),
{
    let ghost key = index_key(points@, axis as int);
    let n = order.len();
    if n == 0 {
        Vec::new()
    } else if n == 1 {
        let mut sorted: Vec<usize> = Vec::new();
        sorted.push(order[0]);
        assert(sort_by_key(order@.drop_last(), key) =~= Seq::<usize>::empty());
        sorted
    } else {
        let half = n / 2;
        let front = slice_subrange(order, 0, half);
        let back = slice_subrange(order, half, n);
        assert(selects(points@, front@, axis as int) && selects(points@, back@, axis as int)) by {
            assert forall|j: int| 0 <= j < front@.len() implies front@[j] == order@[j] by {}
            assert forall|j: int| 0 <= j < back@.len() implies back@[j] == order@[half + j] by {}
        }
        let a = merge_sort(points, front, axis);
        let b = merge_sort(points, back, axis);
        proof {
            assert(front@ + back@ =~= order@);
            lemma_sort_concat(front@, back@, key);
            lemma_sort_selects(points@, front@, axis as int);
            lemma_sort_selects(points@, back@, axis as int);
        }
        merge(points, &a, &b, axis)
    }
}

/// Merges two runs of indices into one, by the points they select.
fn merge<T: Point>(points: &[T], a: &Vec<usize>, b: &Vec<usize>, axis: usize) -> (out: Vec<usize>)
    requires
        lawful::<T>(),
        selects(points@, a@, axis as int),
        selects(points@, b@, axis as int),
    ensures
        out@ == merge_by_key(a@, b@, index_key(points@, axis as int)),
{
    let ghost key = index_key(points@, axis as int);
    let mut out: Vec<usize> = Vec::new();
    let mut i: usize = 0;
    let mut j: usize = 0;
    assert(a@.skip(0) =~= a@ && b@.skip(0) =~= b@);
    while i < a.len() && j < b.len()
        invariant
            lawful::<T>(),
            selects(points@, a@, axis as int),
            selects(points@, b@, axis as int),
            key == index_key(points@, axis as int),
            i <= a.len(),
            j <= b.len(),
            out@ + merge_by_key(a@.skip(i as int), b@.skip(j as int), key) == merge_by_key(
                a@,
                b@,
                key,
            ),
        decreases a.len() - i + b.len() - j,
    {
        let ghost done = out@;
        let ghost ra = a@.skip(i as int);
        let ghost rb = b@.skip(j as int);
        if comes_before(points, b[j], a[i], axis) {
            out.push(b[j]);
            j = j + 1;
            assert(rb.skip(1) =~= b@.skip(j as int));
            assert(done.push(rb[0]) + merge_by_key(ra, rb.skip(1), key) =~= done + (seq![rb[0]]
                + merge_by_key(ra, rb.skip(1), key)));
        } else {
            out.push(a[i]);
            i = i + 1;
            assert(ra.skip(1) =~= a@.skip(i as int));
            assert(done.push(ra[0]) + merge_by_key(ra.skip(1), rb, key) =~= done + (seq![ra[0]]
                + merge_by_key(ra.skip(1), rb, key)));
        }
    }
    while i < a.len()
        invariant
            i <= a.len(),
            j <= b.len(),
            j == b.len() || i == a.len(),
            out@ + merge_by_key(a@.skip(i as int), b@.skip(j as int), key) == merge_by_key(
                a@,
                b@,
                key,
            ),
        decreases a.len() - i,
    {
        out.push(a[i]);
        i = i + 1;
    }
    while j < b.len()
        invariant
            i == a.len(),
            j <= b.len(),
            out@ + merge_by_key(a@.skip(i as int), b@.skip(j as int), key) == merge_by_key(
                a@,
                b@,
                key,
            ),
        decreases b.len() - j,
    {
        out.push(b[j]);
        j = j + 1;
    }
    out
}

/// Whether the point at index `i` comes strictly before the point at index
/// `j` along `axis`.
fn comes_before<T: Point>(points: &[T], i: usize, j: usize, axis: usize) -> (r: bool)
    requires
        lawful::<T>(),
        i < points@.len(),
        j < points@.len(),
        axis < points@[i as int].dim(),
        axis < points@[j as int].dim(),
    ensures
        r == (index_key(points@, axis as int)(i) < index_key(points@, axis as int)(j)),
{
    points[i].at(axis) < points[j].at(axis)
}

/// Inserting adds one element and keeps the others.
pub proof fn lemma_insert_permutes<A>(s: Seq<A>, x: A, key: spec_fn(A) -> int)
    ensures
        insert_by_key(s, x, key).len() == s.len() + 1,
        insert_by_key(s, x, key).to_multiset() == s.to_multiset().insert(x),
    decreases s.len(),
{
    broadcast use vstd::seq_lib::group_to_multiset_ensures;

    if s.len() > 0 {
        if key(x) < key(s[0]) {
            vstd::seq_lib::lemma_multiset_commutative(seq![x], s);
        } else {
            let rest = insert_by_key(s.skip(1), x, key);
            lemma_insert_permutes(s.skip(1), x, key);
            vstd::seq_lib::lemma_multiset_commutative(seq![s[0]], rest);
            vstd::seq_lib::lemma_multiset_commutative(seq![s[0]], s.skip(1));
            assert(seq![s[0]] + s.skip(1) =~= s);
        }
    }
}

/// Sorting reorders: the result holds what the input holds, each element
/// as often.
pub proof fn lemma_sort_permutes<A>(s: Seq<A>, key: spec_fn(A) -> int)
    ensures
        sort_by_key(s, key).len() == s.len(),
        sort_by_key(s, key).to_multiset() == s.to_multiset(),
    decreases s.len(),
{
    broadcast use vstd::seq_lib::group_to_multiset_ensures;

    if s.len() > 0 {
        lemma_sort_permutes(s.drop_last(), key);
        lemma_insert_permutes(sort_by_key(s.drop_last(), key), s.last(), key);
        assert(s.drop_last().push(s.last()) =~= s);
    }
}

/// A sorted sequence holds the elements of its input: each of its elements
/// stands somewhere in the input, and each element of the input in it.
pub proof fn lemma_sort_members<A>(s: Seq<A>, key: spec_fn(A) -> int)
    ensures
        forall|i: int|
            0 <= i < sort_by_key(s, key).len() ==> s.contains(#[trigger] sort_by_key(s, key)[i]),
        forall|i: int| 0 <= i < s.len() ==> sort_by_key(s, key).contains(#[trigger] s[i]),
{
    broadcast use vstd::seq_lib::to_multiset_contains;

    let sorted = sort_by_key(s, key);
    lemma_sort_permutes(s, key);
    assert forall|i: int| 0 <= i < sorted.len() implies s.contains(#[trigger] sorted[i]) by {
        assert(sorted.to_multiset().count(sorted[i]) > 0);
    }
    assert forall|i: int| 0 <= i < s.len() implies sorted.contains(#[trigger] s[i]) by {
        assert(s.to_multiset().count(s[i]) > 0);
    }
}

/// Sorted indices are still indices of points that have the axis.
proof fn lemma_sort_selects<T: Point>(points: Seq<T>, order: Seq<usize>, axis: int)
    requires
        selects(points, order, axis),
    ensures
        selects(points, sort_by_key(order, index_key(points, axis)), axis),
{
    let sorted = sort_by_key(order, index_key(points, axis));
    lemma_sort_members(order, index_key(points, axis));
    assert forall|j: int| 0 <= j < sorted.len() implies (#[trigger] sorted[j]) < points.len() && 0
        <= axis < points[sorted[j] as int].dim() by {
        let i = choose|i: int| 0 <= i < order.len() && order[i] == sorted[j];
    }
}

/// The rest of an ascending sequence ascends.
proof fn lemma_rest_ascends<A>(s: Seq<A>, key: spec_fn(A) -> int)
    requires
        s.len() > 0,
        ascending(s, key),
    ensures
        ascending(s.skip(1), key),
        forall|i: int| 0 <= i < s.skip(1).len() ==> key(s[0]) <= key(#[trigger] s.skip(1)[i]),
{
    let rest = s.skip(1);
    assert forall|i: int, j: int| 0 <= i <= j < rest.len() implies key(rest[i]) <= key(
        rest[j],
    ) by {
        assert(rest[i] == s[i + 1] && rest[j] == s[j + 1]);
    }
}

/// Inserting into an ascending sequence leaves it ascending, and above
/// any bound that lies below the sequence and the inserted element.
pub proof fn lemma_insert_ascending<A>(s: Seq<A>, x: A, key: spec_fn(A) -> int, low: int)
    requires
        ascending(s, key),
        low <= key(x),
        forall|i: int| 0 <= i < s.len() ==> low <= key(#[trigger] s[i]),
    ensures
        ascending(insert_by_key(s, x, key), key),
        forall|i: int|
            0 <= i < insert_by_key(s, x, key).len() ==> low <= key(
                #[trigger] insert_by_key(s, x, key)[i],
            ),
    decreases s.len(),
{
    if s.len() > 0 && key(x) >= key(s[0]) {
        lemma_rest_ascends(s, key);
        lemma_insert_ascending(s.skip(1), x, key, key(s[0]));
    }
}

/// A sorted sequence ascends.
pub proof fn lemma_sort_ascending<A>(s: Seq<A>, key: spec_fn(A) -> int)
    ensures
        ascending(sort_by_key(s, key), key),
    decreases s.len(),
{
    if s.len() > 0 {
        let front = sort_by_key(s.drop_last(), key);
        lemma_sort_ascending(s.drop_last(), key);
        let low = if front.len() > 0 && key(front[0]) < key(s.last()) {
            key(front[0])
        } else {
            key(s.last())
        };
        lemma_insert_ascending(front, s.last(), key, low);
    }
}

/// The elements of a sequence that share a key, by the first element and
/// the rest.
proof fn lemma_with_key_first<A>(s: Seq<A>, key: spec_fn(A) -> int, k: int)
    requires
        s.len() > 0,
    ensures
        with_key(s, key, k) == if key(s[0]) == k {
            seq![s[0]] + with_key(s.skip(1), key, k)
        } else {
            with_key(s.skip(1), key, k)
        },
{
    let pred = has_key(key, k);
    s.skip(1).lemma_filter_prepend(s[0], pred);
    assert(seq![s[0]] + s.skip(1) =~= s);
}

/// No element of the empty sequence has any key.
proof fn lemma_with_key_empty<A>(key: spec_fn(A) -> int, k: int)
    ensures
        with_key(Seq::<A>::empty(), key, k) == Seq::<A>::empty(),
{
    Seq::<A>::empty().lemma_filter_len(has_key(key, k));
}

/// Inserting into an ascending sequence puts the element behind those that
/// share its key and moves no other.
pub proof fn lemma_insert_stable<A>(s: Seq<A>, x: A, key: spec_fn(A) -> int, k: int)
    requires
        ascending(s, key),
    ensures
        with_key(insert_by_key(s, x, key), key, k) == if key(x) == k {
            with_key(s, key, k).push(x)
        } else {
            with_key(s, key, k)
        },
    decreases s.len(),
{
    let grown = insert_by_key(s, x, key);
    lemma_with_key_empty(key, k);
    if s.len() == 0 {
        lemma_with_key_first(grown, key, k);
    } else if key(x) < key(s[0]) {
        lemma_with_key_first(grown, key, k);
        assert(grown.skip(1) =~= s);
        if key(x) == k {
            let pred = has_key(key, k);
            assert forall|i: int| 0 <= i < s.len() implies !pred(s[i]) by {}
            s.lemma_all_neg_filter_empty(pred);
        }
    } else {
        lemma_rest_ascends(s, key);
        lemma_insert_stable(s.skip(1), x, key, k);
        lemma_with_key_first(s, key, k);
        lemma_with_key_first(grown, key, k);
        assert(grown.skip(1) =~= insert_by_key(s.skip(1), x, key));
        assert(seq![s[0]] + with_key(s.skip(1), key, k).push(x) =~= (seq![s[0]] + with_key(
            s.skip(1),
            key,
            k,
        )).push(x));
    }
}

/// Sorting is stable: the elements that share a key stand in the result in
/// the order in which they stand in the input.
pub proof fn lemma_sort_stable<A>(s: Seq<A>, key: spec_fn(A) -> int, k: int)
    ensures
        with_key(sort_by_key(s, key), key, k) == with_key(s, key, k),
    decreases s.len(),
{
    if s.len() > 0 {
        lemma_sort_stable(s.drop_last(), key, k);
        lemma_sort_ascending(s.drop_last(), key);
        lemma_insert_stable(sort_by_key(s.drop_last(), key), s.last(), key, k);
        s.drop_last().lemma_filter_push(s.last(), has_key(key, k));
        assert(s.drop_last().push(s.last()) =~= s);
    }
}

/// Where `b` holds the elements of every key that `a` holds, the first key
/// of `a` is the key of some element of `b`, so that, `b` ascending, the
/// first key of `b` is not above it.
proof fn lemma_key_is_met<A>(a: Seq<A>, b: Seq<A>, key: spec_fn(A) -> int)
    requires
        a.len() > 0,
        b.len() > 0,
        ascending(b, key),
        forall|k: int| #[trigger] with_key(a, key, k) == with_key(b, key, k),
    ensures
        key(b[0]) <= key(a[0]),
{
    let k = key(a[0]);
    let pred = has_key(key, k);
    lemma_with_key_first(a, key, k);
    let met = with_key(b, key, k)[0];
    assert(met == a[0]);
    b.lemma_filter_contains_rev(pred, met);
    let j = choose|j: int| 0 <= j < b.len() && b[j] == met;
    assert(key(b[0]) <= key(b[j]));
}

/// Two ascending sequences that agree, for every key, in the elements of
/// that key and their order are the same sequence.
pub proof fn lemma_ascending_unique<A>(a: Seq<A>, b: Seq<A>, key: spec_fn(A) -> int)
    requires
        ascending(a, key),
        ascending(b, key),
        forall|k: int| #[trigger] with_key(a, key, k) == with_key(b, key, k),
    ensures
        a == b,
    decreases a.len() + b.len(),
{
    if a.len() == 0 || b.len() == 0 {
        let longer = if a.len() == 0 {
            b
        } else {
            a
        };
        if longer.len() > 0 {
            let k = key(longer[0]);
            lemma_with_key_first(longer, key, k);
            lemma_with_key_empty(key, k);
            assert(with_key(a, key, k) == with_key(b, key, k));
        }
    } else {
        let k0 = key(a[0]);
        assert(k0 == key(b[0])) by {
            lemma_key_is_met(a, b, key);
            lemma_key_is_met(b, a, key);
        }
        lemma_with_key_first(a, key, k0);
        lemma_with_key_first(b, key, k0);
        assert(a[0] == with_key(a, key, k0)[0]);
        assert(b[0] == with_key(b, key, k0)[0]);
        let ta = a.skip(1);
        let tb = b.skip(1);
        assert forall|k: int| #[trigger] with_key(ta, key, k) == with_key(tb, key, k) by {
            lemma_with_key_first(a, key, k);
            lemma_with_key_first(b, key, k);
            if k == k0 {
                assert(with_key(ta, key, k) =~= with_key(a, key, k).skip(1));
                assert(with_key(tb, key, k) =~= with_key(b, key, k).skip(1));
            }
        }
        lemma_rest_ascends(a, key);
        lemma_rest_ascends(b, key);
        lemma_ascending_unique(ta, tb, key);
        assert(a =~= seq![a[0]] + ta);
        assert(b =~= seq![b[0]] + tb);
    }
}

/// The sorted sequence is the one ascending arrangement of the input that
/// keeps, for every key, the elements of that key in their order.
pub proof fn lemma_sort_unique<A>(s: Seq<A>, r: Seq<A>, key: spec_fn(A) -> int)
    requires
        ascending(r, key),
        forall|k: int| #[trigger] with_key(r, key, k) == with_key(s, key, k),
    ensures
        r == sort_by_key(s, key),
{
    let sorted = sort_by_key(s, key);
    lemma_sort_ascending(s, key);
    assert forall|k: int| #[trigger] with_key(r, key, k) == with_key(sorted, key, k) by {
        lemma_sort_stable(s, key, k);
    }
    lemma_ascending_unique(r, sorted, key);
}

/// Merging, then inserting, gives what inserting into the second sequence,
/// then merging, gives.
pub proof fn lemma_merge_insert<A>(a: Seq<A>, b: Seq<A>, x: A, key: spec_fn(A) -> int)
    ensures
        insert_by_key(merge_by_key(a, b, key), x, key) == merge_by_key(
            a,
            insert_by_key(b, x, key),
            key,
        ),
    decreases a.len() + b.len(),
{
    let grown = insert_by_key(b, x, key);
    let merged = merge_by_key(a, b, key);
    if a.len() == 0 {
    } else if b.len() == 0 {
        assert(grown.skip(1) =~= b);
        if key(x) >= key(a[0]) {
            lemma_merge_insert(a.skip(1), b, x, key);
            assert(merge_by_key(a.skip(1), b, key) =~= a.skip(1));
        }
    } else if key(b[0]) < key(a[0]) {
        if key(x) < key(b[0]) {
            assert(grown.skip(1) =~= b);
        } else {
            lemma_merge_insert(a, b.skip(1), x, key);
            assert(grown.skip(1) =~= insert_by_key(b.skip(1), x, key));
            assert(merged.skip(1) =~= merge_by_key(a, b.skip(1), key));
        }
    } else {
        if key(x) < key(a[0]) {
            assert(grown.skip(1) =~= b);
        } else {
            lemma_merge_insert(a.skip(1), b, x, key);
            assert(merged.skip(1) =~= merge_by_key(a.skip(1), b, key));
        }
    }
}

/// Sorting a concatenation is merging the sorted parts.
pub proof fn lemma_sort_concat<A>(a: Seq<A>, b: Seq<A>, key: spec_fn(A) -> int)
    ensures
        sort_by_key(a + b, key) == merge_by_key(sort_by_key(a, key), sort_by_key(b, key), key),
    decreases b.len(),
{
    if b.len() == 0 {
        assert(a + b =~= a);
        assert(merge_by_key(sort_by_key(a, key), sort_by_key(b, key), key) =~= sort_by_key(
            a,
            key,
        ));
    } else {
        assert((a + b).drop_last() =~= a + b.drop_last());
        lemma_sort_concat(a, b.drop_last(), key);
        lemma_merge_insert(sort_by_key(a, key), sort_by_key(b.drop_last(), key), b.last(), key);
    }
}

/// Inserting commutes with a map that carries the keys over.
proof fn lemma_insert_maps<A, B>(
    s: Seq<A>,
    x: A,
    f: spec_fn(A) -> B,
    from: spec_fn(A) -> int,
    to: spec_fn(B) -> int,
)
    requires
        forall|y: A| from(y) == to(#[trigger] f(y)),
    ensures
        insert_by_key(s, x, from).map_values(f) == insert_by_key(s.map_values(f), f(x), to),
    decreases s.len(),
{
    let t = s.map_values(f);
    if s.len() > 0 {
        assert(t.skip(1) =~= s.skip(1).map_values(f));
        if from(x) >= from(s[0]) {
            lemma_insert_maps(s.skip(1), x, f, from, to);
            assert((seq![s[0]] + insert_by_key(s.skip(1), x, from)).map_values(f) =~= seq![t[0]]
                + insert_by_key(t.skip(1), f(x), to));
        }
    }
}

/// Sorting commutes with a map that carries the keys over: to sort, then
/// map, is to map, then sort.
pub proof fn lemma_sort_maps<A, B>(
    s: Seq<A>,
    f: spec_fn(A) -> B,
    from: spec_fn(A) -> int,
    to: spec_fn(B) -> int,
)
    requires
        forall|y: A| from(y) == to(#[trigger] f(y)),
    ensures
        sort_by_key(s, from).map_values(f) == sort_by_key(s.map_values(f), to),
    decreases s.len(),
{
    let t = s.map_values(f);
    if s.len() > 0 {
        assert(t.drop_last() =~= s.drop_last().map_values(f));
        lemma_sort_maps(s.drop_last(), f, from, to);
        lemma_insert_maps(sort_by_key(s.drop_last(), from), s.last(), f, from, to);
    }
}

} // verus!
