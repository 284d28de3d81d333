//! Trusted boundary around the cell store of the spatial index.
//!
//! The grid of buckets is an `ndarray::Array2<Vec<usize>>`, held opaquely in
//! `CellGrid` (declaring `ArrayBase` itself to Verus would need its `RawData`
//! bound, which Verus refuses). The two names below stand for the grid's
//! shape and contents, and the three wrappers state how `ndarray`'s
//! constructor and indexing relate to those names. Everything else the index
//! does to a bucket (pushing an entity, filtering one out) happens on a plain
//! `Vec` in verified code.

use vstd::prelude::*;

verus! {

/// The cell store: one bucket of entity ids per grid cell.
#[verifier::external_body]
pub struct CellGrid {
    inner: ndarray::Array2<Vec<usize>>,
}

/// The contents of the grid: which entity ids each in-bounds cell holds, in
/// insertion order.
pub uninterp spec fn grid_cells(g: CellGrid) -> Map<(usize, usize), Seq<usize>>;

/// The shape the grid was created with: (columns, rows).
pub uninterp spec fn grid_dims(g: CellGrid) -> (usize, usize);

/// Relies on `ndarray::ArrayBase::default`, which fills a `(w, h)` array with
/// `Vec::default()`, the empty vector. It panics when the product of the
/// non-zero axis lengths overflows a signed machine word (ndarray's
/// documented shape limit), so each axis is bounded here as well as the
/// product: with both axes bounded, the non-zero product is too, whether or
/// not an axis is zero.
#[verifier::external_body]
pub(crate) fn grid_new(w: usize, h: usize) -> (g: CellGrid)
    requires
        w <= 0x7fff_ffff_ffff_ffff,
        h <= 0x7fff_ffff_ffff_ffff,
        w * h <= 0x7fff_ffff_ffff_ffff,
    ensures
        grid_dims(g) == (w, h),
        grid_cells(g).dom() == Set::new(|p: (usize, usize)| p.0 < w && p.1 < h),
        forall|p: (usize, usize)|
            p.0 < w && p.1 < h ==> #[trigger] grid_cells(g)[p] == Seq::<usize>::empty(),
{
    CellGrid { inner: ndarray::Array2::default((w, h)) }
}

/// Relies on `ndarray`'s `Index` impl for `(usize, usize)`, which returns the
/// element at that position.
#[verifier::external_body]
pub(crate) fn grid_cell(g: &CellGrid, x: usize, y: usize) -> (c: Vec<usize>)
    requires
        x < grid_dims(*g).0,
        y < grid_dims(*g).1,
    ensures
        c@ == grid_cells(*g)[(x, y)],
{
    g.inner[(x, y)].clone()
}

/// Relies on `ndarray`'s `IndexMut` impl for `(usize, usize)`, which stores
/// the value at that position and leaves every other element alone.
#[verifier::external_body]
pub(crate) fn grid_cell_set(g: &mut CellGrid, x: usize, y: usize, c: Vec<usize>)
    requires
        x < grid_dims(*old(g)).0,
        y < grid_dims(*old(g)).1,
    ensures
        grid_dims(*final(g)) == grid_dims(*old(g)),
        grid_cells(*final(g)) == grid_cells(*old(g)).insert((x, y), c@),
{
    g.inner[(x, y)] = c;
}

} // verus!
