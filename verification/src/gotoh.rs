//! The affine alignment engine: three coupled score matrices D, P, Q with
//! separate gap-open and gap-extension penalties, each with its own pointer
//! matrix. D's pointer codes which of the three matrices attain the cell's
//! maximum; the P and Q pointers mark, per cell, whether the winning
//! transition of the step that last wrote them opened a new gap from D or
//! extended the existing one.

use vstd::prelude::*;
use spindalis::utils::Arr2D;
use crate::base::GloablAlignmentModel;
use crate::data::AlignmentData;
use crate::dp::{
    gotoh_d, gotoh_d_pointer, gotoh_p, gotoh_p_pointer, gotoh_q, gotoh_q_pointer,
    lemma_gotoh_bound, max2, max3, sub_score,
};
use crate::matrix::{arr2d_full, arr2d_get, arr2d_set, cell, grid, grid_dims};
use crate::pointers::{pointer_ok, valid_code};
use crate::scoring::ExtendedGapScoring;
use crate::text::str_chars;

verus! {

/// The scoring the affine engine starts from when none is set.
pub open spec fn gotoh_default_scores() -> ExtendedGapScoring {
    ExtendedGapScoring { identity: 2, mismatch: 1, gap: 3, extended_gap: 1 }
}

pub open spec fn gotoh_d_s(sc: ExtendedGapScoring, q: Seq<char>, s: Seq<char>, i: int, j: int) -> int {
    gotoh_d(q, s, sc.identity as int, sc.mismatch as int, sc.gap as int, sc.extended_gap as int, i, j)
}

pub open spec fn gotoh_p_s(sc: ExtendedGapScoring, q: Seq<char>, s: Seq<char>, i: int, j: int) -> int {
    gotoh_p(q, s, sc.identity as int, sc.mismatch as int, sc.gap as int, sc.extended_gap as int, i, j)
}

pub open spec fn gotoh_q_s(sc: ExtendedGapScoring, q: Seq<char>, s: Seq<char>, i: int, j: int) -> int {
    gotoh_q(q, s, sc.identity as int, sc.mismatch as int, sc.gap as int, sc.extended_gap as int, i, j)
}

pub open spec fn gotoh_d_pointer_s(sc: ExtendedGapScoring, q: Seq<char>, s: Seq<char>, i: int, j: int) -> int {
    gotoh_d_pointer(q, s, sc.identity as int, sc.mismatch as int, sc.gap as int, sc.extended_gap as int, i, j)
}

pub open spec fn gotoh_p_pointer_s(sc: ExtendedGapScoring, q: Seq<char>, s: Seq<char>, i: int, j: int) -> int {
    gotoh_p_pointer(
        q,
        s,
        sc.identity as int,
        sc.mismatch as int,
        sc.gap as int,
        sc.extended_gap as int,
        q.len() as int,
        s.len() as int,
        i,
        j,
    )
}

pub open spec fn gotoh_q_pointer_s(sc: ExtendedGapScoring, q: Seq<char>, s: Seq<char>, i: int, j: int) -> int {
    gotoh_q_pointer(
        q,
        s,
        sc.identity as int,
        sc.mismatch as int,
        sc.gap as int,
        sc.extended_gap as int,
        q.len() as int,
        s.len() as int,
        i,
        j,
    )
}

/// The fill step at row `r`, column `c` has already run when the next step
/// is the one at row `i`, column `j` of the row-major double loop.
pub open spec fn step_done(i: int, j: int, r: int, c: int) -> bool {
    1 <= r && 1 <= c && (r < i || (r == i && c < j))
}

/// The value the P-pointer cell at (a, b) holds when the next fill step is
/// (i, j): zero until the cell's own step runs, that step's Up mark until
/// the step below overwrites it, and from then on its final mark.
pub open spec fn p_ptr_mid(sc: ExtendedGapScoring, q: Seq<char>, s: Seq<char>, i: int, j: int, a: int, b: int) -> int {
    if b < 1 {
        0
    } else if a < q.len() && step_done(i, j, a + 1, b) {
        if gotoh_p_s(sc, q, s, a + 1, b) == gotoh_d_s(sc, q, s, a, b) - (sc.gap + sc.extended_gap) {
            2
        } else {
            3
        }
    } else if 1 <= a && step_done(i, j, a, b) {
        3
    } else {
        0
    }
}

/// The value the Q-pointer cell at (a, b) holds when the next fill step is
/// (i, j): zero until the cell's own step runs, that step's Left mark until
/// the step to its right overwrites it, and from then on its final mark.
pub open spec fn q_ptr_mid(sc: ExtendedGapScoring, q: Seq<char>, s: Seq<char>, i: int, j: int, a: int, b: int) -> int {
    if a < 1 {
        0
    } else if b < s.len() && step_done(i, j, a, b + 1) {
        if gotoh_q_s(sc, q, s, a, b + 1) == gotoh_d_s(sc, q, s, a, b) - (sc.gap + sc.extended_gap) {
            2
        } else {
            4
        }
    } else if 1 <= b && step_done(i, j, a, b) {
        4
    } else {
        0
    }
}

/// The machine limits under which the affine fill cannot overflow.
pub open spec fn gotoh_fits(sc: ExtendedGapScoring, q: Seq<char>, s: Seq<char>) -> bool {
    &&& sc.identity <= i32::MAX
    &&& sc.mismatch <= i32::MAX
    &&& sc.gap + sc.extended_gap <= i32::MAX
    &&& sc.gap + (q.len() + s.len()) * max3(
        sc.identity as int,
        sc.mismatch as int,
        sc.gap + sc.extended_gap,
    ) <= i32::MAX
    &&& (q.len() + 1) * (s.len() + 1) <= usize::MAX
}

/// What the affine engine guarantees of the model it returns: a well-formed
/// snapshot of the pair under the given scoring, the matrix triple D, P, Q
/// and their three pointer matrices, every cell of each equal to its
/// recurrence, so that `D[m][n]` is the optimal affine-gap score.
pub open spec fn gotoh_model_ok(r: GloablAlignmentModel, sc: ExtendedGapScoring, q: Seq<char>, s: Seq<char>) -> bool {
    &&& r.wf()
    &&& r.data.query@ == q
    &&& r.data.subject@ == s
    &&& r.identity == sc.identity
    &&& r.mismatch == sc.mismatch
    &&& r.all_alignments == false
    &&& r.data.score_matrix@.len() == 3
    &&& r.data.pointer_matrix@.len() == 3
    &&& forall|i: int, j: int|
        0 <= i <= q.len() && 0 <= j <= s.len() ==> #[trigger] cell(grid(r.data.score_matrix@[0]), i, j)
            == gotoh_d_s(sc, q, s, i, j)
    &&& forall|i: int, j: int|
        0 <= i <= q.len() && 0 <= j <= s.len() ==> #[trigger] cell(grid(r.data.score_matrix@[1]), i, j)
            == gotoh_p_s(sc, q, s, i, j)
    &&& forall|i: int, j: int|
        0 <= i <= q.len() && 0 <= j <= s.len() ==> #[trigger] cell(grid(r.data.score_matrix@[2]), i, j)
            == gotoh_q_s(sc, q, s, i, j)
    &&& forall|i: int, j: int|
        0 <= i <= q.len() && 0 <= j <= s.len() ==> #[trigger] cell(grid(r.data.pointer_matrix@[0]), i, j)
            == gotoh_d_pointer_s(sc, q, s, i, j)
    &&& forall|i: int, j: int|
        0 <= i <= q.len() && 0 <= j <= s.len() ==> #[trigger] cell(grid(r.data.pointer_matrix@[1]), i, j)
            == gotoh_p_pointer_s(sc, q, s, i, j)
    &&& forall|i: int, j: int|
        0 <= i <= q.len() && 0 <= j <= s.len() ==> #[trigger] cell(grid(r.data.pointer_matrix@[2]), i, j)
            == gotoh_q_pointer_s(sc, q, s, i, j)
}

/// The affine engine, configured with a scoring model.
pub struct Gotoh {
    pub scores: ExtendedGapScoring,
}

impl Default for Gotoh {
    /// The engine under its default scoring.
    fn default() -> (r: Self)
        ensures
            r.scores == gotoh_default_scores(),
    {
        let scores = ExtendedGapScoring { identity: 2, mismatch: 1, gap: 3, extended_gap: 1 };
        Self { scores }
    }
}

impl Gotoh {
    /// An engine with the given scoring set, not yet computed.
    pub fn set_scores(scores: &ExtendedGapScoring) -> (r: Self)
        ensures
            r.scores == *scores,
    {
        Self { scores: *scores }
    }

    /// Computes the matrices for the pair under the default scoring.
    pub fn compute(query: &str, subject: &str) -> (r: GloablAlignmentModel)
        requires
            gotoh_fits(gotoh_default_scores(), query@, subject@),
        ensures
            gotoh_model_ok(r, gotoh_default_scores(), query@, subject@),
    {
        let gotoh_default = Gotoh::default();
        gotoh_default.calculate_matrix(query, subject)
    }

    /// Fills the matrix triple and the three pointer matrices for the pair:
    /// every cell of the returned model's matrices equals its recurrence.
    #[verifier::rlimit(100)]
    pub fn calculate_matrix(&self, query: &str, subject: &str) -> (r: GloablAlignmentModel)
        requires
            gotoh_fits(self.scores, query@, subject@),
        ensures
            gotoh_model_ok(r, self.scores, query@, subject@),
    {
        let q = str_chars(query);
        let s = str_chars(subject);
        let m = q.len();
        let n = s.len();
        let id = self.scores.identity as i32;
        let mm = self.scores.mismatch as i32;
        let gp = self.scores.gap as i32;
        let eg = self.scores.extended_gap as i32;
        let ghost gq = q@;
        let ghost gs = s@;
        let ghost sc = self.scores;
        let ghost k = max3(id as int, mm as int, gp as int + eg as int);
        proof {
            assert((m + 1) as int * 1 <= (m + 1) as int * ((n + 1) as int)
                && (n + 1) as int * 1 <= ((m + 1) as int) * ((n + 1) as int)
                && 0 <= ((m + n) as int) * k)
                by (nonlinear_arith)
                requires m >= 0, n >= 0, k >= 0;
        }
        let mut d = arr2d_full(0, m + 1, n + 1);
        let mut p = arr2d_full(0, m + 1, n + 1);
        let mut qm = arr2d_full(0, m + 1, n + 1);
        let mut d_ptr = arr2d_full(0, m + 1, n + 1);
        let mut p_ptr = arr2d_full(0, m + 1, n + 1);
        let mut q_ptr = arr2d_full(0, m + 1, n + 1);
        let mut i: usize = 1;
        let mut bval: i32 = 0 - gp;
        while i <= m
            invariant
                1 <= i <= m + 1,
                m == gq.len(),
                n == gs.len(),
                sc == self.scores,
                k == max3(id as int, mm as int, gp as int + eg as int),
                id as int == sc.identity as int,
                mm as int == sc.mismatch as int,
                gp as int == sc.gap as int,
                eg as int == sc.extended_gap as int,
                gotoh_fits(sc, gq, gs),
                grid_dims(grid(d), m + 1, n + 1),
                grid_dims(grid(d_ptr), m + 1, n + 1),
                bval as int == -(gp as int) - ((i - 1) as int) * (eg as int),
                cell(grid(d), 0, 0) == 0,
                cell(grid(d_ptr), 0, 0) == 0,
                forall|r: int|
                    1 <= r < i ==> #[trigger] cell(grid(d), r, 0) == -(gp as int + r * (eg as int)),
                forall|r: int| 1 <= r < i ==> #[trigger] cell(grid(d_ptr), r, 0) == 3,
                forall|c: int| 1 <= c <= n ==> #[trigger] cell(grid(d), 0, c) == 0,
                forall|c: int| 1 <= c <= n ==> #[trigger] cell(grid(d_ptr), 0, c) == 0,
            decreases m + 1 - i,
        {
            proof {
                assert((i as int) * (eg as int) <= ((m + n) as int) * k
                    && 0 <= (i as int) * (eg as int)
                    && (i as int) * (eg as int) == ((i - 1) as int) * (eg as int) + eg as int)
                    by (nonlinear_arith)
                    requires 0 <= eg as int, eg as int <= k, 1 <= i as int <= (m + n) as int;
                assert((m + 1) as int * 1 <= ((m + 1) as int) * ((n + 1) as int))
                    by (nonlinear_arith)
                    requires m >= 0, n >= 0;
            }
            bval = bval - eg;
            let ghost gd0 = grid(d);
            arr2d_set(&mut d, i, 0, bval);
            let ghost gdp0 = grid(d_ptr);
            arr2d_set(&mut d_ptr, i, 0, 3);
            proof {
                assert forall|r: int| 1 <= r < i + 1 implies #[trigger] cell(grid(d), r, 0) == -(
                gp as int + r * (eg as int)) by {
                    if r < i as int {
                        assert(cell(gd0, r, 0) == -(gp as int + r * (eg as int)));
                        assert(grid(d)[r] == gd0[r]);
                    } else {
                        assert(grid(d)[r][0] == bval);
                    }
                }
                assert forall|r: int| 1 <= r < i + 1 implies #[trigger] cell(grid(d_ptr), r, 0)
                    == 3 by {
                    if r < i as int {
                        assert(cell(gdp0, r, 0) == 3);
                        assert(grid(d_ptr)[r] == gdp0[r]);
                    } else {
                        assert(grid(d_ptr)[r][0] == 3i32);
                    }
                }
                assert forall|c: int| 1 <= c <= n implies #[trigger] cell(grid(d), 0, c) == 0 by {
                    assert(cell(gd0, 0, c) == 0);
                    assert(grid(d)[0] == gd0[0]);
                }
                assert forall|c: int| 1 <= c <= n implies #[trigger] cell(grid(d_ptr), 0, c)
                    == 0 by {
                    assert(cell(gdp0, 0, c) == 0);
                    assert(grid(d_ptr)[0] == gdp0[0]);
                }
            }
            i = i + 1;
        }
        let mut j: usize = 1;
        let mut cval: i32 = 0 - gp;
        while j <= n
            invariant
                1 <= j <= n + 1,
                m == gq.len(),
                n == gs.len(),
                sc == self.scores,
                k == max3(id as int, mm as int, gp as int + eg as int),
                id as int == sc.identity as int,
                mm as int == sc.mismatch as int,
                gp as int == sc.gap as int,
                eg as int == sc.extended_gap as int,
                gotoh_fits(sc, gq, gs),
                grid_dims(grid(d), m + 1, n + 1),
                grid_dims(grid(d_ptr), m + 1, n + 1),
                cval as int == -(gp as int) - ((j - 1) as int) * (eg as int),
                cell(grid(d), 0, 0) == 0,
                cell(grid(d_ptr), 0, 0) == 0,
                forall|r: int|
                    1 <= r <= m ==> #[trigger] cell(grid(d), r, 0) == -(gp as int + r * (eg as int)),
                forall|r: int| 1 <= r <= m ==> #[trigger] cell(grid(d_ptr), r, 0) == 3,
                forall|c: int|
                    1 <= c < j ==> #[trigger] cell(grid(d), 0, c) == -(gp as int + c * (eg as int)),
                forall|c: int| 1 <= c < j ==> #[trigger] cell(grid(d_ptr), 0, c) == 4,
            decreases n + 1 - j,
        {
            proof {
                assert((j as int) * (eg as int) <= ((m + n) as int) * k
                    && 0 <= (j as int) * (eg as int)
                    && (j as int) * (eg as int) == ((j - 1) as int) * (eg as int) + eg as int)
                    by (nonlinear_arith)
                    requires 0 <= eg as int, eg as int <= k, 1 <= j as int <= (m + n) as int;
                assert((n + 1) as int * 1 <= ((m + 1) as int) * ((n + 1) as int))
                    by (nonlinear_arith)
                    requires m >= 0, n >= 0;
            }
            cval = cval - eg;
            let ghost gd0 = grid(d);
            arr2d_set(&mut d, 0, j, cval);
            let ghost gdp0 = grid(d_ptr);
            arr2d_set(&mut d_ptr, 0, j, 4);
            proof {
                assert forall|c: int| 1 <= c < j + 1 implies #[trigger] cell(grid(d), 0, c) == -(
                gp as int + c * (eg as int)) by {
                    assert(grid(d)[0] == gd0[0].update(j as int, cval));
                    if c < j as int {
                        assert(cell(gd0, 0, c) == -(gp as int + c * (eg as int)));
                        assert(grid(d)[0][c] == gd0[0][c]);
                    } else {
                        assert(grid(d)[0][c] == cval);
                    }
                }
                assert forall|c: int| 1 <= c < j + 1 implies #[trigger] cell(grid(d_ptr), 0, c)
                    == 4 by {
                    assert(grid(d_ptr)[0] == gdp0[0].update(j as int, 4i32));
                    if c < j as int {
                        assert(cell(gdp0, 0, c) == 4);
                        assert(grid(d_ptr)[0][c] == gdp0[0][c]);
                    } else {
                        assert(grid(d_ptr)[0][c] == 4i32);
                    }
                }
                assert forall|r: int| 1 <= r <= m implies #[trigger] cell(grid(d), r, 0) == -(
                gp as int + r * (eg as int)) by {
                    assert(cell(gd0, r, 0) == -(gp as int + r * (eg as int)));
                    assert(grid(d)[r] == gd0[r]);
                }
                assert forall|r: int| 1 <= r <= m implies #[trigger] cell(grid(d_ptr), r, 0)
                    == 3 by {
                    assert(cell(gdp0, r, 0) == 3);
                    assert(grid(d_ptr)[r] == gdp0[r]);
                }
            }
            j = j + 1;
        }
        let mut i: usize = 1;
        while i <= m
            invariant
                1 <= i <= m + 1,
                m == gq.len(),
                n == gs.len(),
                gq == q@,
                gs == s@,
                sc == self.scores,
                k == max3(id as int, mm as int, gp as int + eg as int),
                id as int == sc.identity as int,
                mm as int == sc.mismatch as int,
                gp as int == sc.gap as int,
                eg as int == sc.extended_gap as int,
                gotoh_fits(sc, gq, gs),
                grid_dims(grid(d), m + 1, n + 1),
                grid_dims(grid(p), m + 1, n + 1),
                grid_dims(grid(qm), m + 1, n + 1),
                grid_dims(grid(d_ptr), m + 1, n + 1),
                grid_dims(grid(p_ptr), m + 1, n + 1),
                grid_dims(grid(q_ptr), m + 1, n + 1),
                forall|r: int, c: int|
                    0 <= r <= m && 0 <= c <= n && (r == 0 || c == 0 || step_done(i as int, 1, r, c))
                        ==> #[trigger] cell(grid(d), r, c) == gotoh_d_s(sc, gq, gs, r, c),
                forall|r: int, c: int|
                    0 <= r <= m && 0 <= c <= n && (r == 0 || c == 0 || step_done(i as int, 1, r, c))
                        ==> #[trigger] cell(grid(p), r, c) == gotoh_p_s(sc, gq, gs, r, c),
                forall|r: int, c: int|
                    0 <= r <= m && 0 <= c <= n && (r == 0 || c == 0 || step_done(i as int, 1, r, c))
                        ==> #[trigger] cell(grid(qm), r, c) == gotoh_q_s(sc, gq, gs, r, c),
                forall|r: int, c: int|
                    0 <= r <= m && 0 <= c <= n && (r == 0 || c == 0 || step_done(i as int, 1, r, c))
                        ==> #[trigger] cell(grid(d_ptr), r, c) == gotoh_d_pointer_s(sc, gq, gs, r, c),
                forall|r: int, c: int|
                    0 <= r <= m && 0 <= c <= n ==> #[trigger] cell(grid(p_ptr), r, c) == p_ptr_mid(
                        sc, gq, gs, i as int, 1, r, c),
                forall|r: int, c: int|
                    0 <= r <= m && 0 <= c <= n ==> #[trigger] cell(grid(q_ptr), r, c) == q_ptr_mid(
                        sc, gq, gs, i as int, 1, r, c),
            decreases m + 1 - i,
        {
            let mut j: usize = 1;
            while j <= n
                invariant
                    1 <= i <= m,
                    1 <= j <= n + 1,
                    m == gq.len(),
                    n == gs.len(),
                    gq == q@,
                    gs == s@,
                    sc == self.scores,
                    k == max3(id as int, mm as int, gp as int + eg as int),
                    id as int == sc.identity as int,
                    mm as int == sc.mismatch as int,
                    gp as int == sc.gap as int,
                    eg as int == sc.extended_gap as int,
                    gotoh_fits(sc, gq, gs),
                    grid_dims(grid(d), m + 1, n + 1),
                    grid_dims(grid(p), m + 1, n + 1),
                    grid_dims(grid(qm), m + 1, n + 1),
                    grid_dims(grid(d_ptr), m + 1, n + 1),
                    grid_dims(grid(p_ptr), m + 1, n + 1),
                    grid_dims(grid(q_ptr), m + 1, n + 1),
                    forall|r: int, c: int|
                        0 <= r <= m && 0 <= c <= n && (r == 0 || c == 0 || step_done(
                            i as int, j as int, r, c))
                            ==> #[trigger] cell(grid(d), r, c) == gotoh_d_s(sc, gq, gs, r, c),
                    forall|r: int, c: int|
                        0 <= r <= m && 0 <= c <= n && (r == 0 || c == 0 || step_done(
                            i as int, j as int, r, c))
                            ==> #[trigger] cell(grid(p), r, c) == gotoh_p_s(sc, gq, gs, r, c),
                    forall|r: int, c: int|
                        0 <= r <= m && 0 <= c <= n && (r == 0 || c == 0 || step_done(
                            i as int, j as int, r, c))
                            ==> #[trigger] cell(grid(qm), r, c) == gotoh_q_s(sc, gq, gs, r, c),
                    forall|r: int, c: int|
                        0 <= r <= m && 0 <= c <= n && (r == 0 || c == 0 || step_done(
                            i as int, j as int, r, c))
                            ==> #[trigger] cell(grid(d_ptr), r, c) == gotoh_d_pointer_s(sc, gq, gs, r, c),
                    forall|r: int, c: int|
                        0 <= r <= m && 0 <= c <= n ==> #[trigger] cell(grid(p_ptr), r, c)
                            == p_ptr_mid(sc, gq, gs, i as int, j as int, r, c),
                    forall|r: int, c: int|
                        0 <= r <= m && 0 <= c <= n ==> #[trigger] cell(grid(q_ptr), r, c)
                            == q_ptr_mid(sc, gq, gs, i as int, j as int, r, c),
                decreases n + 1 - j,
            {
                let d_diag = arr2d_get(&d, i - 1, j - 1);
                let p_diag = arr2d_get(&p, i - 1, j - 1);
                let q_diag = arr2d_get(&qm, i - 1, j - 1);
                let d_up = arr2d_get(&d, i - 1, j);
                let p_up = arr2d_get(&p, i - 1, j);
                let d_left = arr2d_get(&d, i, j - 1);
                let q_left = arr2d_get(&qm, i, j - 1);
                proof {
                    lemma_gotoh_bound(gq, gs, id as int, mm as int, gp as int, eg as int, i - 1, j - 1);
                    lemma_gotoh_bound(gq, gs, id as int, mm as int, gp as int, eg as int, i - 1, j as int);
                    lemma_gotoh_bound(gq, gs, id as int, mm as int, gp as int, eg as int, i as int, j - 1);
                    assert(((i + j - 2) as int) * k + k <= ((m + n) as int) * k
                        && ((i + j - 1) as int) * k + k <= ((m + n) as int) * k
                        && 0 <= ((i + j - 2) as int) * k
                        && ((i + j - 2) as int) * k <= ((i + j - 1) as int) * k)
                        by (nonlinear_arith)
                        requires
                            k >= 0,
                            1 <= i as int,
                            1 <= j as int,
                            i as int <= m as int,
                            j as int <= n as int;
                }
                let qc = q[i - 1];
                let sch = s[j - 1];
                let sub = if qc == sch {
                    id
                } else {
                    -mm
                };
                let mut dbest = d_diag;
                if p_diag > dbest {
                    dbest = p_diag;
                }
                if q_diag > dbest {
                    dbest = q_diag;
                }
                let dval = dbest + sub;
                let p_gap_open = d_up - (gp + eg);
                let p_gap_extend = p_up - eg;
                let pval = if p_gap_open >= p_gap_extend {
                    p_gap_open
                } else {
                    p_gap_extend
                };
                let q_gap_open = d_left - (gp + eg);
                let q_gap_extend = q_left - eg;
                let qval = if q_gap_open >= q_gap_extend {
                    q_gap_open
                } else {
                    q_gap_extend
                };
                proof {
                    assert(sub as int == sub_score(gq, gs, id as int, mm as int, i as int, j as int));
                    assert(dval as int == gotoh_d_s(sc, gq, gs, i as int, j as int));
                    assert(pval as int == gotoh_p_s(sc, gq, gs, i as int, j as int));
                    assert(qval as int == gotoh_q_s(sc, gq, gs, i as int, j as int));
                }
                let mut best = dval;
                if pval > best {
                    best = pval;
                }
                if qval > best {
                    best = qval;
                }
                let code = (if dval == best {
                    2
                } else {
                    0
                }) + (if pval == best {
                    3
                } else {
                    0
                }) + (if qval == best {
                    4
                } else {
                    0
                });
                proof {
                    assert(code as int == gotoh_d_pointer_s(sc, gq, gs, i as int, j as int));
                }
                let ghost gd0 = grid(d);
                arr2d_set(&mut d, i, j, dval);
                let ghost gpm0 = grid(p);
                arr2d_set(&mut p, i, j, pval);
                let ghost gqm0 = grid(qm);
                arr2d_set(&mut qm, i, j, qval);
                let ghost gdp0 = grid(d_ptr);
                arr2d_set(&mut d_ptr, i, j, code);
                let ghost gpp0 = grid(p_ptr);
                arr2d_set(&mut p_ptr, i, j, 3);
                let p_mark: i32 = if pval == p_gap_open {
                    2
                } else {
                    3
                };
                let ghost gpp1 = grid(p_ptr);
                arr2d_set(&mut p_ptr, i - 1, j, p_mark);
                let ghost gqp0 = grid(q_ptr);
                arr2d_set(&mut q_ptr, i, j, 4);
                let q_mark: i32 = if qval == q_gap_open {
                    2
                } else {
                    4
                };
                let ghost gqp1 = grid(q_ptr);
                arr2d_set(&mut q_ptr, i, j - 1, q_mark);
                proof {
                    assert((n + 1) as int * 1 <= ((m + 1) as int) * ((n + 1) as int))
                        by (nonlinear_arith)
                        requires m >= 0, n >= 0;
                    assert forall|r: int, c: int|
                        0 <= r <= m && 0 <= c <= n && (r == 0 || c == 0 || step_done(
                            i as int, (j + 1) as int, r, c))
                            implies #[trigger] cell(grid(d), r, c) == gotoh_d_s(sc, gq, gs, r, c) by {
                        if r != i as int {
                            assert(cell(gd0, r, c) == gotoh_d_s(sc, gq, gs, r, c));
                            assert(grid(d)[r] == gd0[r]);
                        } else if c != j as int {
                            assert(cell(gd0, r, c) == gotoh_d_s(sc, gq, gs, r, c));
                            assert(grid(d)[r][c] == gd0[r][c]);
                        } else {
                            assert(grid(d)[r][c] == dval);
                        }
                    }
                    assert forall|r: int, c: int|
                        0 <= r <= m && 0 <= c <= n && (r == 0 || c == 0 || step_done(
                            i as int, (j + 1) as int, r, c))
                            implies #[trigger] cell(grid(p), r, c) == gotoh_p_s(sc, gq, gs, r, c) by {
                        if r != i as int {
                            assert(cell(gpm0, r, c) == gotoh_p_s(sc, gq, gs, r, c));
                            assert(grid(p)[r] == gpm0[r]);
                        } else if c != j as int {
                            assert(cell(gpm0, r, c) == gotoh_p_s(sc, gq, gs, r, c));
                            assert(grid(p)[r][c] == gpm0[r][c]);
                        } else {
                            assert(grid(p)[r][c] == pval);
                        }
                    }
                    assert forall|r: int, c: int|
                        0 <= r <= m && 0 <= c <= n && (r == 0 || c == 0 || step_done(
                            i as int, (j + 1) as int, r, c))
                            implies #[trigger] cell(grid(qm), r, c) == gotoh_q_s(sc, gq, gs, r, c) by {
                        if r != i as int {
                            assert(cell(gqm0, r, c) == gotoh_q_s(sc, gq, gs, r, c));
                            assert(grid(qm)[r] == gqm0[r]);
                        } else if c != j as int {
                            assert(cell(gqm0, r, c) == gotoh_q_s(sc, gq, gs, r, c));
                            assert(grid(qm)[r][c] == gqm0[r][c]);
                        } else {
                            assert(grid(qm)[r][c] == qval);
                        }
                    }
                    assert forall|r: int, c: int|
                        0 <= r <= m && 0 <= c <= n && (r == 0 || c == 0 || step_done(
                            i as int, (j + 1) as int, r, c))
                            implies #[trigger] cell(grid(d_ptr), r, c) == gotoh_d_pointer_s(
                        sc, gq, gs, r, c) by {
                        if r != i as int {
                            assert(cell(gdp0, r, c) == gotoh_d_pointer_s(sc, gq, gs, r, c));
                            assert(grid(d_ptr)[r] == gdp0[r]);
                        } else if c != j as int {
                            assert(cell(gdp0, r, c) == gotoh_d_pointer_s(sc, gq, gs, r, c));
                            assert(grid(d_ptr)[r][c] == gdp0[r][c]);
                        } else {
                            assert(grid(d_ptr)[r][c] == code);
                        }
                    }
                    assert forall|r: int, c: int|
                        0 <= r <= m && 0 <= c <= n implies #[trigger] cell(grid(p_ptr), r, c)
                            == p_ptr_mid(sc, gq, gs, i as int, (j + 1) as int, r, c) by {
                        if r == i as int && c == j as int {
                            assert(gpp1[r][c] == 3i32);
                            assert(grid(p_ptr)[r] == gpp1[r]);
                            assert(grid(p_ptr)[r][c] == 3i32);
                        } else if r == i - 1 && c == j as int {
                            assert(grid(p_ptr)[r][c] == p_mark);
                            assert(cell(gd0, i - 1, j as int) == gotoh_d_s(sc, gq, gs, i - 1, j as int));
                            assert(d_up as int == gotoh_d_s(sc, gq, gs, i - 1, j as int));
                        } else {
                            assert(cell(gpp0, r, c) == p_ptr_mid(sc, gq, gs, i as int, j as int, r, c));
                            assert(gpp1[r][c] == gpp0[r][c]);
                            assert(grid(p_ptr)[r][c] == gpp1[r][c]);
                            assert(p_ptr_mid(sc, gq, gs, i as int, (j + 1) as int, r, c)
                                == p_ptr_mid(sc, gq, gs, i as int, j as int, r, c));
                        }
                    }
                    assert forall|r: int, c: int|
                        0 <= r <= m && 0 <= c <= n implies #[trigger] cell(grid(q_ptr), r, c)
                            == q_ptr_mid(sc, gq, gs, i as int, (j + 1) as int, r, c) by {
                        if r == i as int && c == j as int {
                            assert(gqp1[r][c] == 4i32);
                            assert(grid(q_ptr)[r] == gqp1[r].update(j - 1, q_mark));
                            assert(grid(q_ptr)[r][c] == 4i32);
                        } else if r == i as int && c == j - 1 {
                            assert(grid(q_ptr)[r][c] == q_mark);
                            assert(cell(gd0, i as int, j - 1) == gotoh_d_s(sc, gq, gs, i as int, j - 1));
                            assert(d_left as int == gotoh_d_s(sc, gq, gs, i as int, j - 1));
                        } else {
                            assert(cell(gqp0, r, c) == q_ptr_mid(sc, gq, gs, i as int, j as int, r, c));
                            assert(gqp1[r][c] == gqp0[r][c]);
                            assert(grid(q_ptr)[r][c] == gqp1[r][c]);
                            assert(q_ptr_mid(sc, gq, gs, i as int, (j + 1) as int, r, c)
                                == q_ptr_mid(sc, gq, gs, i as int, j as int, r, c));
                        }
                    }
                }
                j = j + 1;
            }
            proof {
                assert((m + 1) as int * 1 <= ((m + 1) as int) * ((n + 1) as int))
                    by (nonlinear_arith)
                    requires m >= 0, n >= 0;
                assert forall|r: int, c: int|
                    0 <= r <= m && 0 <= c <= n implies #[trigger] cell(grid(p_ptr), r, c)
                        == p_ptr_mid(sc, gq, gs, (i + 1) as int, 1, r, c) by {
                    assert(cell(grid(p_ptr), r, c) == p_ptr_mid(
                        sc, gq, gs, i as int, (n + 1) as int, r, c));
                }
                assert forall|r: int, c: int|
                    0 <= r <= m && 0 <= c <= n implies #[trigger] cell(grid(q_ptr), r, c)
                        == q_ptr_mid(sc, gq, gs, (i + 1) as int, 1, r, c) by {
                    assert(cell(grid(q_ptr), r, c) == q_ptr_mid(
                        sc, gq, gs, i as int, (n + 1) as int, r, c));
                }
            }
            i = i + 1;
        }
        let mut score_matrix: Vec<Arr2D<i32>> = Vec::new();
        score_matrix.push(d);
        score_matrix.push(p);
        score_matrix.push(qm);
        let mut pointer_matrix: Vec<Arr2D<i32>> = Vec::new();
        pointer_matrix.push(d_ptr);
        pointer_matrix.push(p_ptr);
        pointer_matrix.push(q_ptr);
        let data = AlignmentData { query: q, subject: s, score_matrix, pointer_matrix };
        let r = GloablAlignmentModel {
            data,
            identity: self.scores.identity,
            mismatch: self.scores.mismatch,
            all_alignments: false,
        };
        proof {
            assert forall|rr: int, cc: int| 0 <= rr <= m && 0 <= cc <= n implies #[trigger] cell(
                grid(r.data.pointer_matrix@[1]), rr, cc) == gotoh_p_pointer_s(sc, gq, gs, rr, cc) by {
                assert(cell(grid(r.data.pointer_matrix@[1]), rr, cc) == p_ptr_mid(
                    sc, gq, gs, (m + 1) as int, 1, rr, cc));
            }
            assert forall|rr: int, cc: int| 0 <= rr <= m && 0 <= cc <= n implies #[trigger] cell(
                grid(r.data.pointer_matrix@[2]), rr, cc) == gotoh_q_pointer_s(sc, gq, gs, rr, cc) by {
                assert(cell(grid(r.data.pointer_matrix@[2]), rr, cc) == q_ptr_mid(
                    sc, gq, gs, (m + 1) as int, 1, rr, cc));
            }
            assert forall|jj: int| 1 <= jj <= n implies #[trigger] cell(
                grid(r.data.pointer_matrix@[0]), 0, jj) == 4 by {
                assert(cell(grid(r.data.pointer_matrix@[0]), 0, jj) == gotoh_d_pointer_s(
                    sc, gq, gs, 0, jj));
            }
            assert forall|ii: int, jj: int| 1 <= ii <= m && 1 <= jj <= n implies valid_code(
                #[trigger] cell(grid(r.data.pointer_matrix@[0]), ii, jj)) by {
                assert(cell(grid(r.data.pointer_matrix@[0]), ii, jj) == gotoh_d_pointer_s(
                    sc, gq, gs, ii, jj));
            }
            assert(pointer_ok(grid(r.data.pointer_matrix@[0]), m as int, n as int));
            lemma_gotoh_bound(gq, gs, id as int, mm as int, gp as int, eg as int, m as int, n as int);
            assert(max2(m as int, n as int) * (self.scores.identity as int)
                <= ((m + n) as int) * k
                && max2(m as int, n as int) * (self.scores.mismatch as int)
                <= ((m + n) as int) * k)
                by (nonlinear_arith)
                requires
                    0 <= self.scores.identity as int <= k,
                    0 <= self.scores.mismatch as int <= k,
                    m >= 0,
                    n >= 0;
            assert(r.wf());
        }
        r
    }
}

} // verus!
