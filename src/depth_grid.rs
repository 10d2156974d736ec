use vstd::prelude::*;

verus! {

/// A two-dimensional grid of depth values, kept in an `ndarray::Array2<i32>`.
#[verifier::external_body]
pub struct DepthGrid {
    values: ndarray::Array2<i32>,
}

/// What a depth grid holds: the value at each `(column, row)` index; the domain
/// is exactly the indices inside its shape.
pub uninterp spec fn cells(g: DepthGrid) -> Map<(int, int), i32>;

/// The cells `[0, w) x [0, h)`, all holding `v`.
pub open spec fn filled(w: int, h: int, v: i32) -> Map<(int, int), i32> {
    Map::new(|p: (int, int)| 0 <= p.0 < w && 0 <= p.1 < h, |p: (int, int)| v)
}

/// Relies on `ndarray::ArrayBase::from_elem`: an array of shape `(w, h)` holding
/// copies of `v`. It panics when an axis length, or the product of the non-zero
/// axis lengths, exceeds `isize::MAX`.
#[verifier::external_body]
pub(crate) fn grid_from_elem(w: usize, h: usize, v: i32) -> (r: DepthGrid)
    requires
        w as int <= isize::MAX as int,
        h as int <= isize::MAX as int,
        w as int * h as int <= isize::MAX as int,
    ensures
        cells(r) == filled(w as int, h as int, v),
{
    DepthGrid { values: ndarray::Array2::from_elem((w, h), v) }
}

/// Relies on indexing an `ndarray::Array2` by `[x, y]`: it reads that element and
/// panics outside the shape.
#[verifier::external_body]
pub(crate) fn grid_get(g: &DepthGrid, x: usize, y: usize) -> (r: i32)
    requires
        cells(*g).dom().contains((x as int, y as int)),
    ensures
        r == cells(*g)[(x as int, y as int)],
{
    g.values[[x, y]]
}

/// Relies on mutable indexing of an `ndarray::Array2` by `[x, y]`: it replaces that
/// element alone and panics outside the shape.
#[verifier::external_body]
pub(crate) fn grid_set(g: &mut DepthGrid, x: usize, y: usize, v: i32)
    requires
        cells(*old(g)).dom().contains((x as int, y as int)),
    ensures
        cells(*final(g)) == cells(*old(g)).insert((x as int, y as int), v),
{
    g.values[[x, y]] = v;
}

} // verus!
