//! The dynamic-programming recurrences that the matrix engines must realise,
//! and bounds on their values that keep the executable fill free of overflow.

use vstd::prelude::*;

verus! {

pub open spec fn max2(a: int, b: int) -> int {
    if a >= b {
        a
    } else {
        b
    }
}

pub open spec fn max3(a: int, b: int, c: int) -> int {
    max2(max2(a, b), c)
}

/// The substitution score at (i, j): the identity reward when the symbols
/// match, minus the mismatch penalty otherwise.
pub open spec fn sub_score(q: Seq<char>, s: Seq<char>, identity: int, mismatch: int, i: int, j: int) -> int {
    if q[i - 1] == s[j - 1] {
        identity
    } else {
        -mismatch
    }
}

/// The optimal linear-gap score aligning `q[0..i)` against `s[0..j)`:
/// borders pay `gap` per skipped symbol, inner cells take the best of the
/// diagonal, up and left predecessors.
pub open spec fn nw_score(q: Seq<char>, s: Seq<char>, identity: int, mismatch: int, gap: int, i: int, j: int) -> int
    decreases i + j,
{
    if i <= 0 && j <= 0 {
        0
    } else if j <= 0 {
        -(i * gap)
    } else if i <= 0 {
        -(j * gap)
    } else {
        max3(
            nw_score(q, s, identity, mismatch, gap, i - 1, j - 1) + sub_score(q, s, identity, mismatch, i, j),
            nw_score(q, s, identity, mismatch, gap, i - 1, j) - gap,
            nw_score(q, s, identity, mismatch, gap, i, j - 1) - gap,
        )
    }
}

/// The linear-gap pointer cell at (i, j): the additive code of every
/// direction whose candidate score attains the optimum, with Up and Left
/// borders and an unset origin.
pub open spec fn nw_pointer(q: Seq<char>, s: Seq<char>, identity: int, mismatch: int, gap: int, i: int, j: int) -> int {
    if i <= 0 && j <= 0 {
        0
    } else if j <= 0 {
        3
    } else if i <= 0 {
        4
    } else {
        let diag = nw_score(q, s, identity, mismatch, gap, i - 1, j - 1) + sub_score(q, s, identity, mismatch, i, j);
        let up = nw_score(q, s, identity, mismatch, gap, i - 1, j) - gap;
        let left = nw_score(q, s, identity, mismatch, gap, i, j - 1) - gap;
        let best = max3(diag, up, left);
        (if diag == best { 2int } else { 0int })
        + (if up == best { 3int } else { 0int })
        + (if left == best { 4int } else { 0int })
    }
}

/// Every linear-gap score is bounded by (i + j) times the largest parameter.
pub proof fn lemma_nw_score_bound(q: Seq<char>, s: Seq<char>, identity: int, mismatch: int, gap: int, i: int, j: int)
    requires
        0 <= i,
        0 <= j,
        identity >= 0,
        mismatch >= 0,
        gap >= 0,
    ensures
        -((i + j) * max3(identity, mismatch, gap)) <= nw_score(q, s, identity, mismatch, gap, i, j)
            <= (i + j) * max3(identity, mismatch, gap),
    decreases i + j,
{
    let k = max3(identity, mismatch, gap);
    if i == 0 && j == 0 {
    } else if j == 0 {
        assert(i * gap <= i * k && 0 <= i * gap) by (nonlinear_arith)
            requires 0 <= gap <= k, i >= 1;
        assert((i + j) * k == i * k) by (nonlinear_arith)
            requires j == 0;
    } else if i == 0 {
        assert(j * gap <= j * k && 0 <= j * gap) by (nonlinear_arith)
            requires 0 <= gap <= k, j >= 1;
        assert((i + j) * k == j * k) by (nonlinear_arith)
            requires i == 0;
    } else {
        lemma_nw_score_bound(q, s, identity, mismatch, gap, i - 1, j - 1);
        lemma_nw_score_bound(q, s, identity, mismatch, gap, i - 1, j);
        lemma_nw_score_bound(q, s, identity, mismatch, gap, i, j - 1);
        assert((i + j - 2) * k + k <= (i + j) * k && (i + j - 1) * k + k == (i + j) * k)
            by (nonlinear_arith)
            requires k >= 0, i >= 1, j >= 1;
    }
}

/// The optimal affine-gap score ending in a match or mismatch at (i, j).
/// Borders pay the open penalty plus one extension per skipped symbol; the
/// sentinel rows of the two gap matrices are zero, as the engine builds them.
pub open spec fn gotoh_d(q: Seq<char>, s: Seq<char>, identity: int, mismatch: int, gap: int, eg: int, i: int, j: int) -> int
    decreases i + j, 1int,
{
    if i <= 0 && j <= 0 {
        0
    } else if j <= 0 {
        -(gap + i * eg)
    } else if i <= 0 {
        -(gap + j * eg)
    } else {
        max3(
            gotoh_d(q, s, identity, mismatch, gap, eg, i - 1, j - 1),
            gotoh_p(q, s, identity, mismatch, gap, eg, i - 1, j - 1),
            gotoh_q(q, s, identity, mismatch, gap, eg, i - 1, j - 1),
        ) + sub_score(q, s, identity, mismatch, i, j)
    }
}

/// The optimal affine-gap score ending in a subject-side gap (a vertical
/// run) at (i, j): open a gap from D or extend the one from P above.
pub open spec fn gotoh_p(q: Seq<char>, s: Seq<char>, identity: int, mismatch: int, gap: int, eg: int, i: int, j: int) -> int
    decreases i + j, 0int,
{
    if i <= 0 || j <= 0 {
        0
    } else {
        max2(
            gotoh_d(q, s, identity, mismatch, gap, eg, i - 1, j) - (gap + eg),
            gotoh_p(q, s, identity, mismatch, gap, eg, i - 1, j) - eg,
        )
    }
}

/// The optimal affine-gap score ending in a query-side gap (a horizontal
/// run) at (i, j): open a gap from D or extend the one from Q to the left.
pub open spec fn gotoh_q(q: Seq<char>, s: Seq<char>, identity: int, mismatch: int, gap: int, eg: int, i: int, j: int) -> int
    decreases i + j, 0int,
{
    if i <= 0 || j <= 0 {
        0
    } else {
        max2(
            gotoh_d(q, s, identity, mismatch, gap, eg, i, j - 1) - (gap + eg),
            gotoh_q(q, s, identity, mismatch, gap, eg, i, j - 1) - eg,
        )
    }
}

/// The affine D-pointer cell at (i, j): the additive code of every matrix
/// among {D = Diagonal, P = Up, Q = Left} that attains the cell's maximum,
/// with Up and Left borders and an unset origin.
pub open spec fn gotoh_d_pointer(q: Seq<char>, s: Seq<char>, identity: int, mismatch: int, gap: int, eg: int, i: int, j: int) -> int {
    if i <= 0 && j <= 0 {
        0
    } else if j <= 0 {
        3
    } else if i <= 0 {
        4
    } else {
        let d = gotoh_d(q, s, identity, mismatch, gap, eg, i, j);
        let p = gotoh_p(q, s, identity, mismatch, gap, eg, i, j);
        let qq = gotoh_q(q, s, identity, mismatch, gap, eg, i, j);
        let best = max3(d, p, qq);
        (if d == best { 2int } else { 0int })
        + (if p == best { 3int } else { 0int })
        + (if qq == best { 4int } else { 0int })
    }
}

/// The final value of the affine P-pointer cell at (i, j) after the
/// row-major fill: the cell of row m keeps the Up mark of its own step, and
/// every cell above it is overwritten by the step below, which marks whether
/// that step's vertical gap opened from D (Diagonal mark) or extended from P
/// (Up mark).
pub open spec fn gotoh_p_pointer(q: Seq<char>, s: Seq<char>, identity: int, mismatch: int, gap: int, eg: int, m: int, n: int, i: int, j: int) -> int {
    if j <= 0 || m <= 0 {
        0
    } else if i < m {
        if gotoh_p(q, s, identity, mismatch, gap, eg, i + 1, j)
            == gotoh_d(q, s, identity, mismatch, gap, eg, i, j) - (gap + eg) {
            2
        } else {
            3
        }
    } else {
        3
    }
}

/// The final value of the affine Q-pointer cell at (i, j) after the
/// row-major fill: the cell of column n keeps the Left mark of its own step,
/// and every cell left of it is overwritten by the step to its right, which
/// marks whether that step's horizontal gap opened from D (Diagonal mark) or
/// extended from Q (Left mark).
pub open spec fn gotoh_q_pointer(q: Seq<char>, s: Seq<char>, identity: int, mismatch: int, gap: int, eg: int, m: int, n: int, i: int, j: int) -> int {
    if i <= 0 || n <= 0 {
        0
    } else if j < n {
        if gotoh_q(q, s, identity, mismatch, gap, eg, i, j + 1)
            == gotoh_d(q, s, identity, mismatch, gap, eg, i, j) - (gap + eg) {
            2
        } else {
            4
        }
    } else {
        4
    }
}

/// Every affine matrix value is bounded by the open penalty plus (i + j)
/// times the largest of the identity reward, the mismatch penalty and the
/// whole gap-open cost.
pub proof fn lemma_gotoh_bound(q: Seq<char>, s: Seq<char>, identity: int, mismatch: int, gap: int, eg: int, i: int, j: int)
    requires
        0 <= i,
        0 <= j,
        identity >= 0,
        mismatch >= 0,
        gap >= 0,
        eg >= 0,
    ensures
        -(gap + (i + j) * max3(identity, mismatch, gap + eg))
            <= gotoh_d(q, s, identity, mismatch, gap, eg, i, j)
            <= gap + (i + j) * max3(identity, mismatch, gap + eg),
        -(gap + (i + j) * max3(identity, mismatch, gap + eg))
            <= gotoh_p(q, s, identity, mismatch, gap, eg, i, j)
            <= gap + (i + j) * max3(identity, mismatch, gap + eg),
        -(gap + (i + j) * max3(identity, mismatch, gap + eg))
            <= gotoh_q(q, s, identity, mismatch, gap, eg, i, j)
            <= gap + (i + j) * max3(identity, mismatch, gap + eg),
    decreases i + j,
{
    let k = max3(identity, mismatch, gap + eg);
    if i == 0 && j == 0 {
    } else if j == 0 {
        assert(i * eg <= i * k && 0 <= i * k && 0 <= i * eg) by (nonlinear_arith)
            requires 0 <= eg <= k, i >= 1;
        assert((i + j) * k == i * k) by (nonlinear_arith)
            requires j == 0;
    } else if i == 0 {
        assert(j * eg <= j * k && 0 <= j * k && 0 <= j * eg) by (nonlinear_arith)
            requires 0 <= eg <= k, j >= 1;
        assert((i + j) * k == j * k) by (nonlinear_arith)
            requires i == 0;
    } else {
        lemma_gotoh_bound(q, s, identity, mismatch, gap, eg, i - 1, j - 1);
        lemma_gotoh_bound(q, s, identity, mismatch, gap, eg, i - 1, j);
        lemma_gotoh_bound(q, s, identity, mismatch, gap, eg, i, j - 1);
        assert((i + j - 2) * k + k <= (i + j) * k && (i + j - 1) * k + k == (i + j) * k
            && (i + j - 1) * k <= (i + j) * k)
            by (nonlinear_arith)
            requires k >= 0, i >= 1, j >= 1;
    }
}

} // verus!
