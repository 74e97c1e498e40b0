//! The additive pointer-direction code. A pointer cell records the set of
//! directions that achieve the optimum at that cell: Diagonal = 2, Up = 3,
//! Left = 4. Any nonempty subset sums to one of {2, 3, 4, 5, 6, 7, 9}, and no
//! two distinct subsets share a sum; 0 marks the unset origin cell.

use vstd::prelude::*;
use crate::matrix::{cell, grid_dims};

verus! {

pub const DIAGONAL: i32 = 2;

pub const UP: i32 = 3;

pub const LEFT: i32 = 4;

/// The Diagonal direction is a member of the coded set `p`.
pub open spec fn code_has_diagonal(p: int) -> bool {
    p == 2 || p == 5 || p == 6 || p == 9
}

/// The Up direction is a member of the coded set `p`.
pub open spec fn code_has_up(p: int) -> bool {
    p == 3 || p == 5 || p == 7 || p == 9
}

/// The Left direction is a member of the coded set `p`.
pub open spec fn code_has_left(p: int) -> bool {
    p == 4 || p == 6 || p == 7 || p == 9
}

/// `p` codes a nonempty subset of {Diagonal, Up, Left}.
pub open spec fn valid_code(p: int) -> bool {
    p == 2 || p == 3 || p == 4 || p == 5 || p == 6 || p == 7 || p == 9
}

/// A completed pointer matrix for an `m` x `n` alignment: the origin cell is
/// 0 and no other cell is, the left border points Up, the top border points
/// Left, and every inner cell codes a nonempty direction set.
pub open spec fn pointer_ok(ptr: Seq<Seq<i32>>, m: int, n: int) -> bool {
    &&& grid_dims(ptr, m + 1, n + 1)
    &&& cell(ptr, 0, 0) == 0
    &&& forall|i: int| 1 <= i <= m ==> #[trigger] cell(ptr, i, 0) == UP
    &&& forall|j: int| 1 <= j <= n ==> #[trigger] cell(ptr, 0, j) == LEFT
    &&& forall|i: int, j: int| 1 <= i <= m && 1 <= j <= n ==> valid_code(#[trigger] cell(ptr, i, j))
}

/// The membership test the traceback uses: `p` contains the Diagonal flag.
pub fn has_diagonal_flag(p: i32) -> (r: bool)
    ensures
        r == code_has_diagonal(p as int),
{
    p == 2 || p == 5 || p == 6 || p == 9
}

/// The membership test the traceback uses: `p` contains the Up flag.
pub fn has_up_flag(p: i32) -> (r: bool)
    ensures
        r == code_has_up(p as int),
{
    p == 3 || p == 5 || p == 7 || p == 9
}

/// The membership test the traceback uses: `p` contains the Left flag.
pub fn has_left_flag(p: i32) -> (r: bool)
    ensures
        r == code_has_left(p as int),
{
    p == 4 || p == 6 || p == 7 || p == 9
}

} // verus!
