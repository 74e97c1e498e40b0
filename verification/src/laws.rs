//! Laws that hold across the library's functions, stated over the same spec
//! functions the engines' and reporters' contracts use.

use vstd::prelude::*;
use crate::base::{GloablAlignmentModel, trace_path};
use crate::dp::{gotoh_d, gotoh_p, gotoh_q, nw_pointer, nw_score, sub_score};
use crate::gotoh::{gotoh_model_ok, gotoh_d_s};
use crate::matrix::cell;
use crate::needleman_wunsch::{nw_model_ok, nw_pointer_s, nw_score_s};
use crate::pointers::{pointer_ok, valid_code};
use crate::scoring::{ExtendedGapScoring, Scoring};

verus! {

/// Swapping the two sequences transposes the linear-gap score matrix.
pub proof fn lemma_nw_symmetry(q: Seq<char>, s: Seq<char>, identity: int, mismatch: int, gap: int, i: int, j: int)
    ensures
        nw_score(q, s, identity, mismatch, gap, i, j) == nw_score(s, q, identity, mismatch, gap, j, i),
    decreases i + j,
{
    if i > 0 && j > 0 {
        lemma_nw_symmetry(q, s, identity, mismatch, gap, i - 1, j - 1);
        lemma_nw_symmetry(q, s, identity, mismatch, gap, i - 1, j);
        lemma_nw_symmetry(q, s, identity, mismatch, gap, i, j - 1);
    }
}

/// Swapping the two sequences transposes the affine D matrix and exchanges
/// the two gap matrices P and Q.
pub proof fn lemma_gotoh_symmetry(q: Seq<char>, s: Seq<char>, identity: int, mismatch: int, gap: int, eg: int, i: int, j: int)
    ensures
        gotoh_d(q, s, identity, mismatch, gap, eg, i, j) == gotoh_d(s, q, identity, mismatch, gap, eg, j, i),
        gotoh_p(q, s, identity, mismatch, gap, eg, i, j) == gotoh_q(s, q, identity, mismatch, gap, eg, j, i),
        gotoh_q(q, s, identity, mismatch, gap, eg, i, j) == gotoh_p(s, q, identity, mismatch, gap, eg, j, i),
    decreases i + j,
{
    if i > 0 && j > 0 {
        lemma_gotoh_symmetry(q, s, identity, mismatch, gap, eg, i - 1, j - 1);
        lemma_gotoh_symmetry(q, s, identity, mismatch, gap, eg, i - 1, j);
        lemma_gotoh_symmetry(q, s, identity, mismatch, gap, eg, i, j - 1);
    }
}

/// Law: the similarity the simple engine reports is symmetric. If one model
/// was computed for (q, s) and another for (s, q), under one scoring, the
/// two report the same similarity.
pub proof fn law_similarity_symmetric_simple(
    m1: GloablAlignmentModel,
    m2: GloablAlignmentModel,
    sc: Scoring,
    q: Seq<char>,
    s: Seq<char>,
)
    requires
        nw_model_ok(m1, sc, q, s),
        nw_model_ok(m2, sc, s, q),
    ensures
        m1.spec_similarity() == m2.spec_similarity(),
{
    if q.len() == 0 && s.len() == 0 {
    } else {
        assert(cell(grid1(m1), q.len() as int, s.len() as int)
            == nw_score_s(sc, q, s, q.len() as int, s.len() as int));
        assert(cell(grid1(m2), s.len() as int, q.len() as int)
            == nw_score_s(sc, s, q, s.len() as int, q.len() as int));
        lemma_nw_symmetry(
            q,
            s,
            sc.identity as int,
            sc.mismatch as int,
            sc.gap as int,
            q.len() as int,
            s.len() as int,
        );
    }
}

/// Law: the similarity the affine engine reports is symmetric, in the same
/// sense as for the simple engine.
pub proof fn law_similarity_symmetric_affine(
    m1: GloablAlignmentModel,
    m2: GloablAlignmentModel,
    sc: ExtendedGapScoring,
    q: Seq<char>,
    s: Seq<char>,
)
    requires
        gotoh_model_ok(m1, sc, q, s),
        gotoh_model_ok(m2, sc, s, q),
    ensures
        m1.spec_similarity() == m2.spec_similarity(),
{
    if q.len() == 0 && s.len() == 0 {
    } else {
        assert(cell(grid1(m1), q.len() as int, s.len() as int)
            == gotoh_d_s(sc, q, s, q.len() as int, s.len() as int));
        assert(cell(grid1(m2), s.len() as int, q.len() as int)
            == gotoh_d_s(sc, s, q, s.len() as int, q.len() as int));
        lemma_gotoh_symmetry(
            q,
            s,
            sc.identity as int,
            sc.mismatch as int,
            sc.gap as int,
            sc.extended_gap as int,
            q.len() as int,
            s.len() as int,
        );
    }
}

/// The main score grid of a model, shorthand for the laws above.
pub open spec fn grid1(m: GloablAlignmentModel) -> Seq<Seq<i32>> {
    crate::matrix::grid(m.data.score_matrix@[0])
}

/// Law: score reporting is idempotent. `similarity` and `distance` each
/// return exactly `spec_similarity` and `spec_distance` of the model, so any
/// two calls on one model agree.
pub proof fn law_scores_idempotent(m: GloablAlignmentModel, s1: int, s2: int, d1: int, d2: int)
    requires
        s1 == m.spec_similarity(),
        s2 == m.spec_similarity(),
        d1 == m.spec_distance(),
        d2 == m.spec_distance(),
    ensures
        s1 == s2,
        d1 == d2,
{
}

/// Law: `align` is deterministic and restartable. Each call re-enumerates
/// from scratch, and any two results of one model — given as the views of
/// the returned lines — are the same lines in the same order, since each is
/// pinned to `spec_align`.
pub proof fn law_align_deterministic(m: GloablAlignmentModel, r1: Seq<Seq<char>>, r2: Seq<Seq<char>>)
    requires
        r1.len() == m.spec_align().len(),
        forall|k: int|
            0 <= k < r1.len() ==> #[trigger] r1[k] == m.spec_align()[k].0 + seq!['\n']
                + m.spec_align()[k].1,
        r2.len() == m.spec_align().len(),
        forall|k: int|
            0 <= k < r2.len() ==> #[trigger] r2[k] == m.spec_align()[k].0 + seq!['\n']
                + m.spec_align()[k].1,
    ensures
        r1 == r2,
{
    assert(r1 =~= r2);
}

/// The score one aligned column contributes under a linear gap penalty: a
/// gap on either side pays the gap penalty; otherwise the identity reward
/// or the mismatch penalty.
pub open spec fn column_score(a: char, b: char, identity: int, mismatch: int, gap: int) -> int {
    if a == '-' || b == '-' {
        -gap
    } else if a == b {
        identity
    } else {
        -mismatch
    }
}

/// The linear-gap score of an aligned pair: the sum of its column scores.
pub open spec fn pair_score(qa: Seq<char>, sa: Seq<char>, identity: int, mismatch: int, gap: int) -> int
    decreases qa.len(),
{
    if qa.len() == 0 {
        0
    } else {
        pair_score(qa.drop_last(), sa.drop_last(), identity, mismatch, gap) + column_score(
            qa.last(),
            sa.last(),
            identity,
            mismatch,
            gap,
        )
    }
}

/// `qa` and `sa` form a global alignment of `q[0..i)` against `s[0..j)`:
/// equal lengths, and each column consumes one symbol of each sequence, or
/// one symbol of either against a gap.
pub open spec fn aligns(q: Seq<char>, s: Seq<char>, qa: Seq<char>, sa: Seq<char>, i: int, j: int) -> bool
    decreases qa.len(),
{
    if qa.len() == 0 {
        sa.len() == 0 && i == 0 && j == 0
    } else if sa.len() != qa.len() {
        false
    } else {
        ||| {
            &&& 1 <= i
            &&& 1 <= j
            &&& qa.last() == q[i - 1]
            &&& sa.last() == s[j - 1]
            &&& aligns(q, s, qa.drop_last(), sa.drop_last(), i - 1, j - 1)
        }
        ||| {
            &&& 1 <= i
            &&& qa.last() == q[i - 1]
            &&& sa.last() == '-'
            &&& aligns(q, s, qa.drop_last(), sa.drop_last(), i - 1, j)
        }
        ||| {
            &&& 1 <= j
            &&& qa.last() == '-'
            &&& sa.last() == s[j - 1]
            &&& aligns(q, s, qa.drop_last(), sa.drop_last(), i, j - 1)
        }
    }
}

/// Law: no global alignment of gap-free sequences scores higher than the
/// linear-gap recurrence value.
pub proof fn law_nw_no_better_alignment(q: Seq<char>, s: Seq<char>, qa: Seq<char>, sa: Seq<char>, identity: int, mismatch: int, gap: int, i: int, j: int)
    requires
        aligns(q, s, qa, sa, i, j),
        0 <= i <= q.len(),
        0 <= j <= s.len(),
        forall|x: int| 0 <= x < q.len() ==> q[x] != '-',
        forall|x: int| 0 <= x < s.len() ==> s[x] != '-',
    ensures
        pair_score(qa, sa, identity, mismatch, gap) <= nw_score(q, s, identity, mismatch, gap, i, j),
    decreases qa.len(),
{
    if qa.len() == 0 {
    } else if 1 <= i && 1 <= j && qa.last() == q[i - 1] && sa.last() == s[j - 1] && aligns(
        q,
        s,
        qa.drop_last(),
        sa.drop_last(),
        i - 1,
        j - 1,
    ) {
        law_nw_no_better_alignment(q, s, qa.drop_last(), sa.drop_last(), identity, mismatch, gap, i - 1, j - 1);
        assert(column_score(qa.last(), sa.last(), identity, mismatch, gap) == sub_score(
            q,
            s,
            identity,
            mismatch,
            i,
            j,
        ));
    } else if 1 <= i && qa.last() == q[i - 1] && sa.last() == '-' && aligns(
        q,
        s,
        qa.drop_last(),
        sa.drop_last(),
        i - 1,
        j,
    ) {
        law_nw_no_better_alignment(q, s, qa.drop_last(), sa.drop_last(), identity, mismatch, gap, i - 1, j);
        if j == 0 {
            assert(i * gap == (i - 1) * gap + gap && 0 * gap == 0) by (nonlinear_arith);
            assert(nw_score(q, s, identity, mismatch, gap, i - 1, 0) == -((i - 1) * gap));
            assert(nw_score(q, s, identity, mismatch, gap, i, 0) == -(i * gap));
        }
    } else {
        assert(1 <= j && qa.last() == '-' && sa.last() == s[j - 1] && aligns(
            q,
            s,
            qa.drop_last(),
            sa.drop_last(),
            i,
            j - 1,
        ));
        law_nw_no_better_alignment(q, s, qa.drop_last(), sa.drop_last(), identity, mismatch, gap, i, j - 1);
        if i == 0 {
            assert(j * gap == (j - 1) * gap + gap && 0 * gap == 0) by (nonlinear_arith);
            assert(nw_score(q, s, identity, mismatch, gap, 0, j - 1) == -((j - 1) * gap));
            assert(nw_score(q, s, identity, mismatch, gap, 0, j) == -(j * gap));
        }
    }
}

/// Law: along a walk the simple engine's pointer matrix records, each step's
/// direction attains its cell's optimum, so the walked columns close the
/// score gap between the walk's endpoint and the final cell exactly.
pub proof fn law_nw_traceback_attains(ptr: Seq<Seq<i32>>, q: Seq<char>, s: Seq<char>, u: Seq<char>, v: Seq<char>, identity: int, mismatch: int, gap: int, i: int, j: int)
    requires
        forall|a: int, b: int|
            0 <= a <= q.len() && 0 <= b <= s.len() ==> #[trigger] cell(ptr, a, b) == nw_pointer(
                q,
                s,
                identity,
                mismatch,
                gap,
                a,
                b,
            ),
        trace_path(ptr, q, s, u, v, i, j),
        0 <= i <= q.len(),
        0 <= j <= s.len(),
        forall|x: int| 0 <= x < q.len() ==> q[x] != '-',
        forall|x: int| 0 <= x < s.len() ==> s[x] != '-',
    ensures
        nw_score(q, s, identity, mismatch, gap, i, j) + pair_score(u, v, identity, mismatch, gap)
            == nw_score(q, s, identity, mismatch, gap, q.len() as int, s.len() as int),
    decreases u.len(),
{
    if u.len() == 0 {
    } else if 0 <= i && i < q.len() && 0 <= j && j < s.len() && u.last() == q[i] && v.last() == s[j]
        && crate::pointers::code_has_diagonal(cell(ptr, i + 1, j + 1)) && trace_path(
        ptr,
        q,
        s,
        u.drop_last(),
        v.drop_last(),
        i + 1,
        j + 1,
    ) {
        law_nw_traceback_attains(ptr, q, s, u.drop_last(), v.drop_last(), identity, mismatch, gap, i + 1, j + 1);
        assert(cell(ptr, i + 1, j + 1) == nw_pointer(q, s, identity, mismatch, gap, i + 1, j + 1));
        assert(nw_score(q, s, identity, mismatch, gap, i + 1, j + 1) == nw_score(
            q,
            s,
            identity,
            mismatch,
            gap,
            i,
            j,
        ) + sub_score(q, s, identity, mismatch, i + 1, j + 1));
        assert(column_score(u.last(), v.last(), identity, mismatch, gap) == sub_score(
            q,
            s,
            identity,
            mismatch,
            i + 1,
            j + 1,
        ));
    } else if 0 <= i && i < q.len() && u.last() == q[i] && v.last() == '-'
        && crate::pointers::code_has_up(cell(ptr, i + 1, j)) && trace_path(
        ptr,
        q,
        s,
        u.drop_last(),
        v.drop_last(),
        i + 1,
        j,
    ) {
        law_nw_traceback_attains(ptr, q, s, u.drop_last(), v.drop_last(), identity, mismatch, gap, i + 1, j);
        assert(cell(ptr, i + 1, j) == nw_pointer(q, s, identity, mismatch, gap, i + 1, j));
        if j == 0 {
            assert((i + 1) * gap == i * gap + gap) by (nonlinear_arith);
        }
        assert(nw_score(q, s, identity, mismatch, gap, i + 1, j) == nw_score(
            q,
            s,
            identity,
            mismatch,
            gap,
            i,
            j,
        ) - gap);
    } else {
        assert(0 <= j && j < s.len() && u.last() == '-' && v.last() == s[j]
            && crate::pointers::code_has_left(cell(ptr, i, j + 1)) && trace_path(
            ptr,
            q,
            s,
            u.drop_last(),
            v.drop_last(),
            i,
            j + 1,
        ));
        law_nw_traceback_attains(ptr, q, s, u.drop_last(), v.drop_last(), identity, mismatch, gap, i, j + 1);
        assert(cell(ptr, i, j + 1) == nw_pointer(q, s, identity, mismatch, gap, i, j + 1));
        if i == 0 {
            assert((j + 1) * gap == j * gap + gap) by (nonlinear_arith);
        }
        assert(nw_score(q, s, identity, mismatch, gap, i, j + 1) == nw_score(
            q,
            s,
            identity,
            mismatch,
            gap,
            i,
            j,
        ) - gap);
    }
}

proof fn lemma_pair_score_first(qa: Seq<char>, sa: Seq<char>, identity: int, mismatch: int, gap: int)
    requires
        qa.len() == sa.len(),
        qa.len() > 0,
    ensures
        pair_score(qa, sa, identity, mismatch, gap) == column_score(qa[0], sa[0], identity, mismatch, gap)
            + pair_score(
            qa.subrange(1, qa.len() as int),
            sa.subrange(1, sa.len() as int),
            identity,
            mismatch,
            gap,
        ),
    decreases qa.len(),
{
    if qa.len() == 1 {
        assert(qa.drop_last() =~= Seq::<char>::empty());
        assert(sa.drop_last() =~= Seq::<char>::empty());
        assert(qa.subrange(1, qa.len() as int) =~= Seq::<char>::empty());
        assert(sa.subrange(1, sa.len() as int) =~= Seq::<char>::empty());
        assert(qa.last() == qa[0] && sa.last() == sa[0]);
    } else {
        lemma_pair_score_first(qa.drop_last(), sa.drop_last(), identity, mismatch, gap);
        assert(qa.drop_last()[0] == qa[0] && sa.drop_last()[0] == sa[0]);
        assert(qa.subrange(1, qa.len() as int).drop_last() =~= qa.drop_last().subrange(
            1,
            qa.drop_last().len() as int,
        ));
        assert(sa.subrange(1, sa.len() as int).drop_last() =~= sa.drop_last().subrange(
            1,
            sa.drop_last().len() as int,
        ));
        assert(qa.subrange(1, qa.len() as int).last() == qa.last());
        assert(sa.subrange(1, sa.len() as int).last() == sa.last());
    }
}

/// An aligned pair's score does not depend on the direction it is read in.
pub proof fn lemma_pair_score_reverse(qa: Seq<char>, sa: Seq<char>, identity: int, mismatch: int, gap: int)
    requires
        qa.len() == sa.len(),
    ensures
        pair_score(qa.reverse(), sa.reverse(), identity, mismatch, gap) == pair_score(
            qa,
            sa,
            identity,
            mismatch,
            gap,
        ),
    decreases qa.len(),
{
    if qa.len() > 0 {
        assert(qa.reverse().last() == qa[0] && sa.reverse().last() == sa[0]);
        assert(qa.reverse().drop_last() =~= qa.subrange(1, qa.len() as int).reverse());
        assert(sa.reverse().drop_last() =~= sa.subrange(1, sa.len() as int).reverse());
        lemma_pair_score_reverse(
            qa.subrange(1, qa.len() as int),
            sa.subrange(1, sa.len() as int),
            identity,
            mismatch,
            gap,
        );
        lemma_pair_score_first(qa, sa, identity, mismatch, gap);
    }
}

/// Law: for a model the simple engine computed on gap-free sequences, every
/// aligned pair the traceback can emit scores exactly the model's
/// similarity.
pub proof fn law_simple_alignment_attains_similarity(m1: GloablAlignmentModel, sc: Scoring, q: Seq<char>, s: Seq<char>, qa: Seq<char>, sa: Seq<char>)
    requires
        nw_model_ok(m1, sc, q, s),
        q.len() > 0 || s.len() > 0,
        forall|x: int| 0 <= x < q.len() ==> q[x] != '-',
        forall|x: int| 0 <= x < s.len() ==> s[x] != '-',
        trace_path(crate::matrix::grid(m1.data.pointer_matrix@[0]), q, s, qa.reverse(), sa.reverse(), 0, 0),
    ensures
        pair_score(qa, sa, sc.identity as int, sc.mismatch as int, sc.gap as int)
            == m1.spec_similarity(),
{
    let ptr = crate::matrix::grid(m1.data.pointer_matrix@[0]);
    assert forall|a: int, b: int| 0 <= a <= q.len() && 0 <= b <= s.len() implies #[trigger] cell(
        ptr,
        a,
        b,
    ) == nw_pointer(q, s, sc.identity as int, sc.mismatch as int, sc.gap as int, a, b) by {
        assert(cell(ptr, a, b) == nw_pointer_s(sc, q, s, a, b));
    }
    law_nw_traceback_attains(
        ptr,
        q,
        s,
        qa.reverse(),
        sa.reverse(),
        sc.identity as int,
        sc.mismatch as int,
        sc.gap as int,
        0,
        0,
    );
    assert(qa.reverse().len() == sa.reverse().len());
    lemma_pair_score_reverse(qa, sa, sc.identity as int, sc.mismatch as int, sc.gap as int);
    assert(cell(grid1(m1), q.len() as int, s.len() as int) == nw_score_s(
        sc,
        q,
        s,
        q.len() as int,
        s.len() as int,
    ));
}

/// Law: for a model the simple engine computed on gap-free sequences, no
/// global alignment of the pair scores higher than the model's similarity.
pub proof fn law_simple_no_better_alignment(m1: GloablAlignmentModel, sc: Scoring, q: Seq<char>, s: Seq<char>, qa: Seq<char>, sa: Seq<char>)
    requires
        nw_model_ok(m1, sc, q, s),
        q.len() > 0 || s.len() > 0,
        forall|x: int| 0 <= x < q.len() ==> q[x] != '-',
        forall|x: int| 0 <= x < s.len() ==> s[x] != '-',
        aligns(q, s, qa, sa, q.len() as int, s.len() as int),
    ensures
        pair_score(qa, sa, sc.identity as int, sc.mismatch as int, sc.gap as int)
            <= m1.spec_similarity(),
{
    law_nw_no_better_alignment(
        q,
        s,
        qa,
        sa,
        sc.identity as int,
        sc.mismatch as int,
        sc.gap as int,
        q.len() as int,
        s.len() as int,
    );
    assert(cell(grid1(m1), q.len() as int, s.len() as int) == nw_score_s(
        sc,
        q,
        s,
        q.len() as int,
        s.len() as int,
    ));
}

/// Law: in a well-formed pointer matrix every cell codes a direction subset
/// from {0, 2, 3, 4, 5, 6, 7, 9}, and 0 occurs only at the origin.
pub proof fn law_pointer_validity(ptr: Seq<Seq<i32>>, m: int, n: int, i: int, j: int)
    requires
        pointer_ok(ptr, m, n),
        0 <= i <= m,
        0 <= j <= n,
    ensures
        cell(ptr, i, j) == 0 || valid_code(cell(ptr, i, j)),
        cell(ptr, i, j) == 0 ==> i == 0 && j == 0,
{
}

} // verus!

