//! The simple alignment engine: one score and one pointer matrix filled
//! under a linear gap penalty, every tied optimal predecessor recorded.

use vstd::prelude::*;
use spindalis::utils::Arr2D;
use crate::base::GloablAlignmentModel;
use crate::data::AlignmentData;
use crate::dp::{max2, max3, nw_pointer, nw_score, sub_score, lemma_nw_score_bound};
use crate::matrix::{arr2d_full, arr2d_get, arr2d_set, cell, grid, grid_dims};
use crate::pointers::{pointer_ok, valid_code};
use crate::scoring::Scoring;
use crate::text::str_chars;

verus! {

/// The scoring the simple engine starts from when none is set.
pub open spec fn nw_default_scores() -> Scoring {
    Scoring { identity: 1, mismatch: 1, gap: 1, transpose: None, extended_gap: None }
}

/// The linear-gap score recurrence under the given scoring.
pub open spec fn nw_score_s(sc: Scoring, q: Seq<char>, s: Seq<char>, i: int, j: int) -> int {
    nw_score(q, s, sc.identity as int, sc.mismatch as int, sc.gap as int, i, j)
}

/// The linear-gap pointer recurrence under the given scoring.
pub open spec fn nw_pointer_s(sc: Scoring, q: Seq<char>, s: Seq<char>, i: int, j: int) -> int {
    nw_pointer(q, s, sc.identity as int, sc.mismatch as int, sc.gap as int, i, j)
}

/// The machine limits under which the fill cannot overflow: every parameter
/// and every matrix value fits an `i32`, and the matrix fits in memory.
pub open spec fn nw_fits(sc: Scoring, q: Seq<char>, s: Seq<char>) -> bool {
    &&& sc.identity <= i32::MAX
    &&& sc.mismatch <= i32::MAX
    &&& sc.gap <= i32::MAX
    &&& (q.len() + s.len()) * max3(sc.identity as int, sc.mismatch as int, sc.gap as int)
        <= i32::MAX
    &&& (q.len() + 1) * (s.len() + 1) <= usize::MAX
}

/// What the simple engine guarantees of the model it returns: a well-formed
/// snapshot of the given pair under the given scoring, one score and one
/// pointer matrix, every cell of each equal to its recurrence, so that the
/// pointer matrix records every tied optimal predecessor.
pub open spec fn nw_model_ok(r: GloablAlignmentModel, sc: Scoring, q: Seq<char>, s: Seq<char>) -> bool {
    &&& r.wf()
    &&& r.data.query@ == q
    &&& r.data.subject@ == s
    &&& r.identity == sc.identity
    &&& r.mismatch == sc.mismatch
    &&& r.all_alignments == false
    &&& r.data.score_matrix@.len() == 1
    &&& r.data.pointer_matrix@.len() == 1
    &&& forall|i: int, j: int|
        0 <= i <= q.len() && 0 <= j <= s.len() ==> #[trigger] cell(
            grid(r.data.score_matrix@[0]),
            i,
            j,
        ) == nw_score_s(sc, q, s, i, j)
    &&& forall|i: int, j: int|
        0 <= i <= q.len() && 0 <= j <= s.len() ==> #[trigger] cell(
            grid(r.data.pointer_matrix@[0]),
            i,
            j,
        ) == nw_pointer_s(sc, q, s, i, j)
}

/// The simple engine, configured with a scoring model.
pub struct NeedlemanWunsch {
    pub scores: Scoring,
}

impl Default for NeedlemanWunsch {
    /// The engine under its default scoring.
    fn default() -> (r: Self)
        ensures
            r.scores == nw_default_scores(),
    {
        NeedlemanWunsch {
            scores: Scoring {
                identity: 1,
                mismatch: 1,
                gap: 1,
                transpose: None,
                extended_gap: None,
            },
        }
    }
}

impl NeedlemanWunsch {
    /// An engine with the given scoring set, not yet computed.
    pub fn set_scores(scores: &Scoring) -> (r: Self)
        ensures
            r.scores == *scores,
    {
        NeedlemanWunsch { scores: *scores }
    }

    /// Computes the matrices for the pair under the default scoring.
    pub fn compute(query: &str, subject: &str) -> (r: GloablAlignmentModel)
        requires
            nw_fits(nw_default_scores(), query@, subject@),
        ensures
            nw_model_ok(r, nw_default_scores(), query@, subject@),
    {
        let nw_default = NeedlemanWunsch::default();
        nw_default.calculate_matrix(query, subject)
    }

    /// Fills the score and pointer matrices for the pair: every cell of the
    /// returned model's matrices equals its recurrence, and the final score
    /// cell is the optimal linear-gap score.
    pub fn calculate_matrix(&self, query: &str, subject: &str) -> (r: GloablAlignmentModel)
        requires
            nw_fits(self.scores, query@, subject@),
        ensures
            nw_model_ok(r, self.scores, query@, subject@),
    {
        let q = str_chars(query);
        let s = str_chars(subject);
        let m = q.len();
        let n = s.len();
        let id = self.scores.identity as i32;
        let mm = self.scores.mismatch as i32;
        let gp = self.scores.gap as i32;
        let ghost gq = q@;
        let ghost gs = s@;
        let ghost k = max3(id as int, mm as int, gp as int);
        proof {
            assert((m + 1) as int * 1 <= (m + 1) as int * ((n + 1) as int)
                && (n + 1) as int * 1 <= ((m + 1) as int) * ((n + 1) as int))
                by (nonlinear_arith)
                requires m >= 0, n >= 0;
        }
        let mut d = arr2d_full(0, m + 1, n + 1);
        let mut p = arr2d_full(0, m + 1, n + 1);
        let mut i: usize = 1;
        let mut bval: i32 = 0;
        while i <= m
            invariant
                1 <= i <= m + 1,
                m == gq.len(),
                n == gs.len(),
                k == max3(id as int, mm as int, gp as int),
                id as int == self.scores.identity as int,
                mm as int == self.scores.mismatch as int,
                gp as int == self.scores.gap as int,
                nw_fits(self.scores, gq, gs),
                grid_dims(grid(d), m + 1, n + 1),
                grid_dims(grid(p), m + 1, n + 1),
                bval as int == -(((i - 1) as int) * (gp as int)),
                cell(grid(d), 0, 0) == 0,
                cell(grid(p), 0, 0) == 0,
                forall|r: int| 1 <= r < i ==> #[trigger] cell(grid(d), r, 0) == -(r * (gp as int)),
                forall|r: int| 1 <= r < i ==> #[trigger] cell(grid(p), r, 0) == 3,
                forall|c: int| 1 <= c <= n ==> #[trigger] cell(grid(d), 0, c) == 0,
                forall|c: int| 1 <= c <= n ==> #[trigger] cell(grid(p), 0, c) == 0,
            decreases m + 1 - i,
        {
            proof {
                assert((i as int) * (gp as int) <= ((m + n) as int) * k
                    && 0 <= (i as int) * (gp as int)
                    && (i as int) * (gp as int) == ((i - 1) as int) * (gp as int) + gp as int)
                    by (nonlinear_arith)
                    requires 0 <= gp as int <= k, 1 <= i as int <= (m + n) as int;
            }
            bval = bval - gp;
            let ghost gd0 = grid(d);
            arr2d_set(&mut d, i, 0, bval);
            let ghost gp0 = grid(p);
            arr2d_set(&mut p, i, 0, 3);
            proof {
                assert((m + 1) as int * 1 <= ((m + 1) as int) * ((n + 1) as int))
                    by (nonlinear_arith)
                    requires m >= 0, n >= 0;
                assert forall|r: int| 1 <= r < i + 1 implies #[trigger] cell(grid(d), r, 0) == -(
                r * (gp as int)) by {
                    if r < i as int {
                        assert(cell(gd0, r, 0) == -(r * (gp as int)));
                        assert(grid(d)[r] == gd0[r]);
                    } else {
                        assert(grid(d)[r][0] == bval);
                    }
                }
                assert forall|r: int| 1 <= r < i + 1 implies #[trigger] cell(grid(p), r, 0)
                    == 3 by {
                    if r < i as int {
                        assert(cell(gp0, r, 0) == 3);
                        assert(grid(p)[r] == gp0[r]);
                    } else {
                        assert(grid(p)[r][0] == 3i32);
                    }
                }
                assert forall|c: int| 1 <= c <= n implies #[trigger] cell(grid(d), 0, c)
                    == 0 by {
                    assert(cell(gd0, 0, c) == 0);
                    assert(grid(d)[0] == gd0[0]);
                }
                assert forall|c: int| 1 <= c <= n implies #[trigger] cell(grid(p), 0, c)
                    == 0 by {
                    assert(cell(gp0, 0, c) == 0);
                    assert(grid(p)[0] == gp0[0]);
                }
            }
            i = i + 1;
        }
        let mut j: usize = 1;
        let mut cval: i32 = 0;
        while j <= n
            invariant
                1 <= j <= n + 1,
                m == gq.len(),
                n == gs.len(),
                k == max3(id as int, mm as int, gp as int),
                id as int == self.scores.identity as int,
                mm as int == self.scores.mismatch as int,
                gp as int == self.scores.gap as int,
                nw_fits(self.scores, gq, gs),
                grid_dims(grid(d), m + 1, n + 1),
                grid_dims(grid(p), m + 1, n + 1),
                cval as int == -(((j - 1) as int) * (gp as int)),
                cell(grid(d), 0, 0) == 0,
                cell(grid(p), 0, 0) == 0,
                forall|r: int| 1 <= r <= m ==> #[trigger] cell(grid(d), r, 0) == -(r * (gp as int)),
                forall|r: int| 1 <= r <= m ==> #[trigger] cell(grid(p), r, 0) == 3,
                forall|c: int| 1 <= c < j ==> #[trigger] cell(grid(d), 0, c) == -(c * (gp as int)),
                forall|c: int| 1 <= c < j ==> #[trigger] cell(grid(p), 0, c) == 4,
            decreases n + 1 - j,
        {
            proof {
                assert((j as int) * (gp as int) <= ((m + n) as int) * k
                    && 0 <= (j as int) * (gp as int)
                    && (j as int) * (gp as int) == ((j - 1) as int) * (gp as int) + gp as int)
                    by (nonlinear_arith)
                    requires 0 <= gp as int <= k, 1 <= j as int <= (m + n) as int;
            }
            cval = cval - gp;
            let ghost gd0 = grid(d);
            arr2d_set(&mut d, 0, j, cval);
            let ghost gp0 = grid(p);
            arr2d_set(&mut p, 0, j, 4);
            proof {
                assert((n + 1) as int * 1 <= ((m + 1) as int) * ((n + 1) as int))
                    by (nonlinear_arith)
                    requires m >= 0, n >= 0;
                assert forall|c: int| 1 <= c < j + 1 implies #[trigger] cell(grid(d), 0, c) == -(
                c * (gp as int)) by {
                    assert(grid(d)[0] == gd0[0].update(j as int, cval));
                    if c < j as int {
                        assert(cell(gd0, 0, c) == -(c * (gp as int)));
                        assert(grid(d)[0][c] == gd0[0][c]);
                    } else {
                        assert(grid(d)[0][c] == cval);
                    }
                }
                assert forall|c: int| 1 <= c < j + 1 implies #[trigger] cell(grid(p), 0, c)
                    == 4 by {
                    assert(grid(p)[0] == gp0[0].update(j as int, 4i32));
                    if c < j as int {
                        assert(cell(gp0, 0, c) == 4);
                        assert(grid(p)[0][c] == gp0[0][c]);
                    } else {
                        assert(grid(p)[0][c] == 4i32);
                    }
                }
                assert forall|r: int| 1 <= r <= m implies #[trigger] cell(grid(d), r, 0) == -(
                r * (gp as int)) by {
                    assert(cell(gd0, r, 0) == -(r * (gp as int)));
                    assert(grid(d)[r] == gd0[r]);
                }
                assert forall|r: int| 1 <= r <= m implies #[trigger] cell(grid(p), r, 0)
                    == 3 by {
                    assert(cell(gp0, r, 0) == 3);
                    assert(grid(p)[r] == gp0[r]);
                }
            }
            j = j + 1;
        }
        let mut i: usize = 1;
        while i <= m
            invariant
                1 <= i <= m + 1,
                m == gq.len(),
                n == gs.len(),
                gq == q@,
                gs == s@,
                k == max3(id as int, mm as int, gp as int),
                id as int == self.scores.identity as int,
                mm as int == self.scores.mismatch as int,
                gp as int == self.scores.gap as int,
                nw_fits(self.scores, gq, gs),
                grid_dims(grid(d), m + 1, n + 1),
                grid_dims(grid(p), m + 1, n + 1),
                forall|r: int, c: int|
                    0 <= r <= m && 0 <= c <= n && (r < i || c == 0 || r == 0) ==> #[trigger] cell(
                        grid(d),
                        r,
                        c,
                    ) == nw_score_s(self.scores, gq, gs, r, c),
                forall|r: int, c: int|
                    0 <= r <= m && 0 <= c <= n && (r < i || c == 0 || r == 0) ==> #[trigger] cell(
                        grid(p),
                        r,
                        c,
                    ) == nw_pointer_s(self.scores, gq, gs, r, c),
            decreases m + 1 - i,
        {
            let mut j: usize = 1;
            while j <= n
                invariant
                    1 <= i <= m,
                    1 <= j <= n + 1,
                    m == gq.len(),
                    n == gs.len(),
                    gq == q@,
                    gs == s@,
                    k == max3(id as int, mm as int, gp as int),
                    id as int == self.scores.identity as int,
                    mm as int == self.scores.mismatch as int,
                    gp as int == self.scores.gap as int,
                    nw_fits(self.scores, gq, gs),
                    grid_dims(grid(d), m + 1, n + 1),
                    grid_dims(grid(p), m + 1, n + 1),
                    forall|r: int, c: int|
                        0 <= r <= m && 0 <= c <= n && (r < i || c == 0 || r == 0 || (r == i && c
                            < j)) ==> #[trigger] cell(grid(d), r, c) == nw_score_s(
                            self.scores,
                            gq,
                            gs,
                            r,
                            c,
                        ),
                    forall|r: int, c: int|
                        0 <= r <= m && 0 <= c <= n && (r < i || c == 0 || r == 0 || (r == i && c
                            < j)) ==> #[trigger] cell(grid(p), r, c) == nw_pointer_s(
                            self.scores,
                            gq,
                            gs,
                            r,
                            c,
                        ),
                decreases n + 1 - j,
            {
                let diag_prev = arr2d_get(&d, i - 1, j - 1);
                let up_prev = arr2d_get(&d, i - 1, j);
                let left_prev = arr2d_get(&d, i, j - 1);
                proof {
                    lemma_nw_score_bound(gq, gs, id as int, mm as int, gp as int, i - 1, j - 1);
                    lemma_nw_score_bound(gq, gs, id as int, mm as int, gp as int, i - 1, j as int);
                    lemma_nw_score_bound(gq, gs, id as int, mm as int, gp as int, i as int, j - 1);
                    assert(((i + j - 2) as int) * k + k <= ((m + n) as int) * k
                        && ((i + j - 1) as int) * k + k <= ((m + n) as int) * k
                        && 0 <= ((i + j - 2) as int) * k
                        && ((i + j - 2) as int) * k <= ((i + j - 1) as int) * k)
                        by (nonlinear_arith)
                        requires
                            k >= 0,
                            id as int <= k,
                            mm as int <= k,
                            gp as int <= k,
                            1 <= i as int,
                            1 <= j as int,
                            i as int <= m as int,
                            j as int <= n as int;
                }
                let qc = q[i - 1];
                let sc = s[j - 1];
                let sub = if qc == sc {
                    id
                } else {
                    -mm
                };
                let diag = diag_prev + sub;
                let up = up_prev - gp;
                let left = left_prev - gp;
                let mut best = diag;
                if up > best {
                    best = up;
                }
                if left > best {
                    best = left;
                }
                let code = (if diag == best {
                    2
                } else {
                    0
                }) + (if up == best {
                    3
                } else {
                    0
                }) + (if left == best {
                    4
                } else {
                    0
                });
                proof {
                    assert(sub as int == sub_score(gq, gs, id as int, mm as int, i as int, j as int));
                    assert(diag as int == nw_score(gq, gs, id as int, mm as int, gp as int, i - 1, j - 1)
                        + sub_score(gq, gs, id as int, mm as int, i as int, j as int));
                    assert(best as int == nw_score_s(self.scores, gq, gs, i as int, j as int));
                    assert(code as int == nw_pointer_s(self.scores, gq, gs, i as int, j as int));
                }
                let ghost gd0 = grid(d);
                arr2d_set(&mut d, i, j, best);
                let ghost gp0 = grid(p);
                arr2d_set(&mut p, i, j, code);
                proof {
                    assert((n + 1) as int * 1 <= ((m + 1) as int) * ((n + 1) as int))
                        by (nonlinear_arith)
                        requires m >= 0, n >= 0;
                    assert forall|r: int, c: int|
                        0 <= r <= m && 0 <= c <= n && (r < i || c == 0 || r == 0 || (r == i && c
                            < j + 1)) implies #[trigger] cell(grid(d), r, c) == nw_score_s(
                        self.scores,
                        gq,
                        gs,
                        r,
                        c,
                    ) by {
                        if r != i as int {
                            assert(cell(gd0, r, c) == nw_score_s(self.scores, gq, gs, r, c));
                            assert(grid(d)[r] == gd0[r]);
                        } else if c != j as int {
                            assert(cell(gd0, r, c) == nw_score_s(self.scores, gq, gs, r, c));
                            assert(grid(d)[r][c] == gd0[r][c]);
                        } else {
                            assert(grid(d)[r][c] == best);
                        }
                    }
                    assert forall|r: int, c: int|
                        0 <= r <= m && 0 <= c <= n && (r < i || c == 0 || r == 0 || (r == i && c
                            < j + 1)) implies #[trigger] cell(grid(p), r, c) == nw_pointer_s(
                        self.scores,
                        gq,
                        gs,
                        r,
                        c,
                    ) by {
                        if r != i as int {
                            assert(cell(gp0, r, c) == nw_pointer_s(self.scores, gq, gs, r, c));
                            assert(grid(p)[r] == gp0[r]);
                        } else if c != j as int {
                            assert(cell(gp0, r, c) == nw_pointer_s(self.scores, gq, gs, r, c));
                            assert(grid(p)[r][c] == gp0[r][c]);
                        } else {
                            assert(grid(p)[r][c] == code);
                        }
                    }
                }
                j = j + 1;
            }
            proof {
                assert((m + 1) as int * 1 <= ((m + 1) as int) * ((n + 1) as int))
                    by (nonlinear_arith)
                    requires m >= 0, n >= 0;
            }
            i = i + 1;
        }
        let mut score_matrix: Vec<Arr2D<i32>> = Vec::new();
        score_matrix.push(d);
        let mut pointer_matrix: Vec<Arr2D<i32>> = Vec::new();
        pointer_matrix.push(p);
        let data = AlignmentData { query: q, subject: s, score_matrix, pointer_matrix };
        let r = GloablAlignmentModel {
            data,
            identity: self.scores.identity,
            mismatch: self.scores.mismatch,
            all_alignments: false,
        };
        proof {
            assert forall|jj: int| 1 <= jj <= n implies #[trigger] cell(
                grid(r.data.pointer_matrix@[0]),
                0,
                jj,
            ) == 4 by {
                assert(cell(grid(r.data.pointer_matrix@[0]), 0, jj) == nw_pointer_s(
                    self.scores,
                    gq,
                    gs,
                    0,
                    jj,
                ));
            }
            assert forall|ii: int, jj: int| 1 <= ii <= m && 1 <= jj <= n implies valid_code(
                #[trigger] cell(grid(r.data.pointer_matrix@[0]), ii, jj),
            ) by {
                assert(cell(grid(r.data.pointer_matrix@[0]), ii, jj) == nw_pointer_s(
                    self.scores,
                    gq,
                    gs,
                    ii,
                    jj,
                ));
            }
            assert(pointer_ok(grid(r.data.pointer_matrix@[0]), m as int, n as int));
            lemma_nw_score_bound(gq, gs, id as int, mm as int, gp as int, m as int, n as int);
            assert(max2(m as int, n as int) * (self.scores.identity as int)
                <= ((m + n) as int) * k
                && max2(m as int, n as int) * (self.scores.mismatch as int)
                <= ((m + n) as int) * k)
                by (nonlinear_arith)
                requires
                    0 <= self.scores.identity as int <= k,
                    0 <= self.scores.mismatch as int <= k,
                    m >= 0,
                    n >= 0;
            assert(r.wf());
        }
        r
    }
}

} // verus!
