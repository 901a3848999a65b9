use std::fmt::Debug;
use vstd::prelude::*;
use vstd::std_specs::cmp::PartialEqSpec;
use vstd::std_specs::cmp::PartialOrdIs;
use vstd::std_specs::cmp::PartialOrdSpec;

verus! {

/// A value that the tree can index: a fixed number of components, each of
/// an ordered scalar type, read by position.
///
/// The spec functions are the mathematical model of a point. Their default
/// bodies leave the model unspecified, so that code outside the verifier can
/// implement the trait by its executable methods alone; an implementation
/// that is to be verified overrides them.
///
/// The operations of the tree ask more of a point type than the trait can
/// say: that it is [`lawful`].
pub trait Point: PartialEq + Clone + Debug {
    /// The scalar type of a component.
    type V: PartialOrd + PartialEq + Copy + Debug;

    /// The dimensionality `k` of this point.
    open spec fn dim(&self) -> nat {
        arbitrary()
    }

    /// The component at position `pos`, meaningful for `0 <= pos < dim()`.
    open spec fn component(&self, pos: int) -> Self::V {
        arbitrary()
    }

    /// The integer by which a component is ordered: `a` comes before `b`
    /// exactly when `key(a) < key(b)`.
    open spec fn key(v: Self::V) -> int {
        arbitrary()
    }

    /// The printed form of this point.
    open spec fn text(&self) -> Seq<char> {
        arbitrary()
    }

    /// Returns the number of dimensions, `k`.
    fn size(&self) -> (k: usize)
        ensures
            k == self.dim(),
    ;

    /// Returns the component at `pos`, for `pos` in `0..k`.
    fn at(&self, pos: usize) -> (v: Self::V)
        requires
            pos < self.dim(),
        ensures
            v == self.component(pos as int),
    ;

    /// Returns the printed form of this point.
    fn label(&self) -> (s: String)
        ensures
            s@ == self.text(),
    ;
}

/// The ordering key of `p` along `axis`.
pub open spec fn coord<T: Point>(p: T, axis: int) -> int {
    T::key(p.component(axis))
}

/// The axis that follows `axis` when the axes are cycled through `k`
/// dimensions.
pub open spec fn next_axis(axis: int, k: int) -> int {
    (axis + 1) % k
}

/// What the tree asks of a point type: `==` is equality of values, a
/// clone equals the value it was made from, and `<` on components is the
/// order of their keys, which makes it a total order.
pub open spec fn lawful<T: Point>() -> bool {
    &&& T::obeys_eq_spec()
    &&& forall|a: T, b: T| #[trigger] a.eq_spec(&b) <==> a == b
    &&& forall|a: T, b: T| #[trigger] cloned(a, b) ==> a == b
    &&& T::V::obeys_partial_cmp_spec()
    &&& forall|a: T::V, b: T::V| a.is_lt(&b) <==> T::key(a) < T::key(b)
}

} // verus!
