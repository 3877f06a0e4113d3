use vstd::prelude::*;

verus! {

/// Largest accepted grid side length. It keeps every flat index and the
/// stopping-rule arithmetic comfortably inside machine integers.
pub const MAX_DIM: usize = 65535;

/// A cell (x, y) of a width-by-height grid sits at flat index x * height + y.
pub proof fn lemma_grid_index(x: int, y: int, w: int, h: int)
    by (nonlinear_arith)
    requires
        0 <= x < w,
        0 <= y < h,
        w <= MAX_DIM,
        h <= MAX_DIM,
    ensures
        0 <= x * h + y < w * h,
        w * h <= 65535 * 65535,
{
}

/// Distinct cells of one grid have distinct flat indices.
pub proof fn lemma_grid_index_injective(x1: int, y1: int, x2: int, y2: int, h: int)
    by (nonlinear_arith)
    requires
        0 <= y1 < h,
        0 <= y2 < h,
        x1 * h + y1 == x2 * h + y2,
    ensures
        x1 == x2,
        y1 == y2,
{
}

} // verus!
