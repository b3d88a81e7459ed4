use vstd::prelude::*;

verus! {

/// The coordinate interface the geometric layer is written against: a
/// point of a real coordinate space with the vector operations the
/// polytope operations use.  Callers supply an implementation (for
/// instance over a linear-algebra crate's dynamic vectors); the
/// combinatorial bookkeeping around these operations is what this
/// library verifies, while the numeric behaviour belongs to the
/// implementation.
pub trait Coord: Sized + Clone {
    /// The dimension of the space this point lives in.
    fn dim(&self) -> usize;

    /// The origin of the space of dimension `dim`.
    fn origin(dim: usize) -> Self;

    /// The difference of this point and `other`.
    fn sub(&self, other: &Self) -> Self;

    /// The arithmetic mean of a nonempty list of points.
    fn mean(points: &Vec<Self>) -> Self
        requires
            points@.len() > 0,
    ;

    /// The inversion of this point through the unit sphere centred at
    /// `center`, or nothing when this point lies within the
    /// implementation's tolerance of the centre.
    fn reciprocate(&self, center: &Self) -> Option<Self>;

    /// Moves `o` towards the centre of the sphere through `v0`, `v` and
    /// the points already equidistant from `o`, along the fresh basis
    /// direction `b`.
    fn circumcenter_step(o: &Self, v0: &Self, v: &Self, b: &Self) -> Self;

    /// Whether `a` and `b` lie at the same distance from `o`, within
    /// the implementation's tolerance.
    fn equidistant(o: &Self, a: &Self, b: &Self) -> bool;
}

/// A running affine-subspace fit: points are added one at a time, and
/// the chart answers projections onto the affine hull of the points
/// seen so far.
pub trait Chart<P>: Sized {
    /// The chart of the single point `base`.
    fn new(base: &P) -> Self;

    /// Offers one more point: the new orthogonal basis direction when
    /// the point lies outside the current subspace, nothing otherwise.
    fn add(&mut self, p: &P) -> Option<P>;

    /// The orthogonal projection of `p` onto the current subspace.
    fn project(&self, p: &P) -> P;
}

/// A linear map that can be applied to points of type `P`.
pub trait LinearMap<P>: Sized {
    /// The image of `v` under this map.
    fn apply_to(&self, v: &P) -> P;
}

} // verus!
