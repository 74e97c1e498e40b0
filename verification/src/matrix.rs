//! The score and pointer matrices are held in `spindalis`'s `Arr2D`, a
//! row-major two-dimensional array. Verified code reads and writes it only
//! through the trusted wrappers below, whose contracts speak of `grid`, the
//! cells of the array row by row.

use vstd::prelude::*;
use spindalis::utils::Arr2D;

verus! {

#[verifier::external_type_specification]
#[verifier::external_body]
#[verifier::reject_recursive_types(T)]
pub struct ExArr2D<T>(Arr2D<T>);

/// The cells of the array, row by row: `grid(a)` has one inner sequence per
/// row of `a`, each holding that row's cells left to right.
pub uninterp spec fn grid(a: Arr2D<i32>) -> Seq<Seq<i32>>;

/// A grid of `rows` rows, each `cols` cells wide.
pub open spec fn grid_dims(g: Seq<Seq<i32>>, rows: int, cols: int) -> bool {
    &&& g.len() == rows
    &&& forall|i: int| 0 <= i < rows ==> (#[trigger] g[i]).len() == cols
}

/// The cell of `g` at row `i`, column `j`, as a mathematical integer.
pub open spec fn cell(g: Seq<Seq<i32>>, i: int, j: int) -> int {
    g[i][j] as int
}

/// Relies on `Arr2D::full`: builds a `height` x `width` array holding `val`
/// in every cell.
#[verifier::external_body]
pub(crate) fn arr2d_full(val: i32, height: usize, width: usize) -> (r: Arr2D<i32>)
    requires
        height * width <= usize::MAX,
    ensures
        grid_dims(grid(r), height as int, width as int),
        forall|i: int, j: int|
            0 <= i < height && 0 <= j < width ==> #[trigger] cell(grid(r), i, j) == val,
{
    Arr2D::full(val, height, width)
}

/// Relies on `Arr2D`'s `Index<(usize, usize)>`: reads the cell at
/// (`row`, `col`) of the row-major array.
#[verifier::external_body]
pub(crate) fn arr2d_get(a: &Arr2D<i32>, row: usize, col: usize) -> (r: i32)
    requires
        row < grid(*a).len(),
        col < grid(*a)[row as int].len(),
    ensures
        r as int == cell(grid(*a), row as int, col as int),
{
    a[(row, col)]
}

/// Relies on `Arr2D`'s `IndexMut<(usize, usize)>`: writes `val` to the cell
/// at (`row`, `col`), leaving every other cell and the shape as they were.
#[verifier::external_body]
pub(crate) fn arr2d_set(a: &mut Arr2D<i32>, row: usize, col: usize, val: i32)
    requires
        row < grid(*old(a)).len(),
        col < grid(*old(a))[row as int].len(),
    ensures
        grid(*final(a)) == grid(*old(a)).update(
            row as int,
            grid(*old(a))[row as int].update(col as int, val),
        ),
{
    a[(row, col)] = val;
}

/// Relies on `Arr2D`'s derived `Clone`: a field-for-field copy of the array,
/// equal to the original.
#[verifier::external_body]
pub(crate) fn arr2d_clone(a: &Arr2D<i32>) -> (r: Arr2D<i32>)
    ensures
        r == *a,
{
    a.clone()
}

} // verus!
