//! The alignment model and the traceback enumerator. The model is an
//! immutable snapshot of the sequence pair, the scoring in force and the
//! completed matrices; the enumerator walks the main pointer matrix backward
//! from (m, n) to (0, 0) with an explicit stack, yielding one aligned pair
//! per completed path.

use vstd::prelude::*;
use spindalis::utils::Arr2D;
use crate::data::AlignmentData;
use crate::dp::max2;
use crate::matrix::{arr2d_get, cell, grid};
use crate::pointers::{
    code_has_diagonal, code_has_left, code_has_up, has_diagonal_flag, has_left_flag, has_up_flag,
    pointer_ok, valid_code,
};
use crate::text::chars_string;

verus! {

/// The characters of `s` with every gap symbol `'-'` removed.
pub open spec fn degap(s: Seq<char>) -> Seq<char>
    decreases s.len(),
{
    if s.len() == 0 {
        Seq::empty()
    } else {
        let rest = degap(s.drop_last());
        if s.last() == '-' {
            rest
        } else {
            rest.push(s.last())
        }
    }
}

/// Removing gaps commutes with appending one character.
pub proof fn lemma_degap_push(s: Seq<char>, c: char)
    ensures
        degap(s.push(c)) == if c == '-' {
            degap(s)
        } else {
            degap(s).push(c)
        },
{
    assert(s.push(c).drop_last() =~= s);
    assert(s.push(c).last() == c);
}

/// Removing gaps commutes with prepending one character.
pub proof fn lemma_degap_prepend(c: char, t: Seq<char>)
    ensures
        degap(seq![c] + t) == if c == '-' {
            degap(t)
        } else {
            seq![c] + degap(t)
        },
    decreases t.len(),
{
    if t.len() == 0 {
        assert(seq![c] + t =~= Seq::empty().push(c));
        lemma_degap_push(Seq::empty(), c);
        if c != '-' {
            assert(seq![c] + degap(t) =~= degap(Seq::<char>::empty()).push(c));
        }
    } else {
        let u = seq![c] + t;
        assert(u.drop_last() =~= seq![c] + t.drop_last());
        assert(u.last() == t.last());
        lemma_degap_prepend(c, t.drop_last());
        lemma_degap_push(t.drop_last(), t.last());
        assert(t.drop_last().push(t.last()) =~= t);
        if c != '-' {
            if t.last() == '-' {
            } else {
                assert(seq![c] + degap(t.drop_last()).push(t.last())
                    =~= (seq![c] + degap(t.drop_last())).push(t.last()));
            }
        }
    }
}

/// Removing gaps commutes with reversal.
pub proof fn lemma_degap_reverse(s: Seq<char>)
    ensures
        degap(s.reverse()) == degap(s).reverse(),
    decreases s.len(),
{
    if s.len() == 0 {
        assert(s.reverse() =~= s);
        assert(degap(s).reverse() =~= degap(s));
    } else {
        let c = s.last();
        let t = s.drop_last();
        assert(s.reverse() =~= seq![c] + t.reverse());
        lemma_degap_prepend(c, t.reverse());
        lemma_degap_reverse(t);
        if c == '-' {
        } else {
            assert((degap(t).push(c)).reverse() =~= seq![c] + degap(t).reverse());
        }
    }
}

/// `qa` and `sa` are a returned pair for the sequences `q` and `s`: both
/// aligned strings have equal length, and stripping the gap symbols from
/// each reproduces the gap-free characters of its sequence.
pub open spec fn aligned_pair_ok(qa: Seq<char>, sa: Seq<char>, q: Seq<char>, s: Seq<char>) -> bool {
    &&& qa.len() == sa.len()
    &&& degap(qa) == degap(q)
    &&& degap(sa) == degap(s)
}

/// `t` is an emitted line: the aligned query, a newline, the aligned
/// subject; the pair round-trips to the sequences, and read backward it
/// spells a walk of the pointer matrix from (m, n) to (0, 0).
pub open spec fn aligned_line_ok(t: Seq<char>, ptr: Seq<Seq<i32>>, q: Seq<char>, s: Seq<char>) -> bool {
    exists|qa: Seq<char>, sa: Seq<char>|
        {
            &&& t == qa + seq!['\n'] + sa
            &&& #[trigger] aligned_pair_ok(qa, sa, q, s)
            &&& trace_path(ptr, q, s, qa.reverse(), sa.reverse(), 0, 0)
        }
}

pub open spec fn pow4(k: nat) -> nat
    decreases k,
{
    if k == 0 {
        1
    } else {
        4 * pow4((k - 1) as nat)
    }
}

pub proof fn lemma_pow4_pos(k: nat)
    ensures
        pow4(k) >= 1,
    decreases k,
{
    if k > 0 {
        lemma_pow4_pos((k - 1) as nat);
    }
}

pub proof fn lemma_pow4_le(a: nat, b: nat)
    requires
        a <= b,
    ensures
        pow4(a) <= pow4(b),
    decreases b,
{
    if a < b {
        lemma_pow4_le(a, (b - 1) as nat);
        lemma_pow4_pos((b - 1) as nat);
    }
}

/// The termination measure of the depth-first search: each pending state at
/// (i, j) weighs 4^(i+j), so popping a state outweighs the at most three
/// strictly lighter states it pushes.
pub open spec fn stack_measure(s: Seq<(Vec<char>, Vec<char>, usize, usize)>) -> nat
    decreases s.len(),
{
    if s.len() == 0 {
        0
    } else {
        stack_measure(s.drop_last()) + pow4((s.last().2 + s.last().3) as nat)
    }
}

pub proof fn lemma_stack_measure_push(
    s: Seq<(Vec<char>, Vec<char>, usize, usize)>,
    e: (Vec<char>, Vec<char>, usize, usize),
)
    ensures
        stack_measure(s.push(e)) == stack_measure(s) + pow4((e.2 + e.3) as nat),
{
    assert(s.push(e).drop_last() =~= s);
    assert(s.push(e).last() == e);
}

/// The backward accumulators `qa` and `sa` spell a walk from (m, n) down to
/// (i, j) that takes only directions the pointer matrix records: each step
/// consumed one symbol of each sequence on a Diagonal flag, a query symbol
/// against a gap on an Up flag, or a subject symbol against a gap on a Left
/// flag of the cell the step left.
pub open spec fn trace_path(
    ptr: Seq<Seq<i32>>,
    q: Seq<char>,
    s: Seq<char>,
    qa: Seq<char>,
    sa: Seq<char>,
    i: int,
    j: int,
) -> bool
    decreases qa.len(),
{
    if qa.len() == 0 {
        i == q.len() && j == s.len() && sa.len() == 0
    } else if sa.len() != qa.len() {
        false
    } else {
        ||| {
            &&& 0 <= i < q.len()
            &&& 0 <= j < s.len()
            &&& qa.last() == q[i]
            &&& sa.last() == s[j]
            &&& code_has_diagonal(cell(ptr, i + 1, j + 1))
            &&& trace_path(ptr, q, s, qa.drop_last(), sa.drop_last(), i + 1, j + 1)
        }
        ||| {
            &&& 0 <= i < q.len()
            &&& qa.last() == q[i]
            &&& sa.last() == '-'
            &&& code_has_up(cell(ptr, i + 1, j))
            &&& trace_path(ptr, q, s, qa.drop_last(), sa.drop_last(), i + 1, j)
        }
        ||| {
            &&& 0 <= j < s.len()
            &&& qa.last() == '-'
            &&& sa.last() == s[j]
            &&& code_has_left(cell(ptr, i, j + 1))
            &&& trace_path(ptr, q, s, qa.drop_last(), sa.drop_last(), i, j + 1)
        }
    }
}

/// The pending states of the specification-level walk, as the executable
/// stack shows them: views of the accumulators and the cell indices.
pub open spec fn abs_entry(e: (Vec<char>, Vec<char>, usize, usize)) -> (Seq<char>, Seq<char>, int, int) {
    (e.0@, e.1@, e.2 as int, e.3 as int)
}

pub open spec fn abs_stack(s: Seq<(Vec<char>, Vec<char>, usize, usize)>) -> Seq<(Seq<char>, Seq<char>, int, int)>
    decreases s.len(),
{
    if s.len() == 0 {
        Seq::empty()
    } else {
        abs_stack(s.drop_last()).push(abs_entry(s.last()))
    }
}

pub proof fn lemma_abs_stack_push(
    s: Seq<(Vec<char>, Vec<char>, usize, usize)>,
    e: (Vec<char>, Vec<char>, usize, usize),
)
    ensures
        abs_stack(s.push(e)) == abs_stack(s).push(abs_entry(e)),
{
    assert(s.push(e).drop_last() =~= s);
    assert(s.push(e).last() == e);
}

pub open spec fn clip(x: int) -> nat {
    if x <= 0 {
        0nat
    } else {
        x as nat
    }
}

/// The termination measure of the specification-level walk.
pub open spec fn gmeasure(stack: Seq<(Seq<char>, Seq<char>, int, int)>) -> nat
    decreases stack.len(),
{
    if stack.len() == 0 {
        0
    } else {
        gmeasure(stack.drop_last()) + pow4(clip(stack.last().2) + clip(stack.last().3))
    }
}

pub proof fn lemma_gmeasure_push(
    s: Seq<(Seq<char>, Seq<char>, int, int)>,
    e: (Seq<char>, Seq<char>, int, int),
)
    ensures
        gmeasure(s.push(e)) == gmeasure(s) + pow4(clip(e.2) + clip(e.3)),
{
    assert(s.push(e).drop_last() =~= s);
    assert(s.push(e).last() == e);
}

/// The state a Diagonal step out of `e`'s cell leaves on the stack.
pub open spec fn diag_child(q: Seq<char>, s: Seq<char>, e: (Seq<char>, Seq<char>, int, int)) -> (Seq<char>, Seq<char>, int, int) {
    (e.0.push(q[e.2 - 1]), e.1.push(s[e.3 - 1]), e.2 - 1, e.3 - 1)
}

/// The state an Up step out of `e`'s cell leaves on the stack.
pub open spec fn up_child(q: Seq<char>, s: Seq<char>, e: (Seq<char>, Seq<char>, int, int)) -> (Seq<char>, Seq<char>, int, int) {
    (e.0.push(q[e.2 - 1]), e.1.push('-'), e.2 - 1, e.3)
}

/// The state a Left step out of `e`'s cell leaves on the stack.
pub open spec fn left_child(q: Seq<char>, s: Seq<char>, e: (Seq<char>, Seq<char>, int, int)) -> (Seq<char>, Seq<char>, int, int) {
    (e.0.push('-'), e.1.push(s[e.3 - 1]), e.2, e.3 - 1)
}

/// What one expansion step leaves on the stack in place of the popped state
/// `e`: with the all-alignments flag every in-bounds direction the pointer
/// cell records is pushed, in the order Diagonal, Up, Left; without it only
/// the first of them.
pub open spec fn dfs_children(
    ptr: Seq<Seq<i32>>,
    q: Seq<char>,
    s: Seq<char>,
    all: bool,
    e: (Seq<char>, Seq<char>, int, int),
    rest: Seq<(Seq<char>, Seq<char>, int, int)>,
) -> Seq<(Seq<char>, Seq<char>, int, int)> {
    let c = cell(ptr, e.2, e.3);
    let diag_ok = 1 <= e.2 && 1 <= e.3 && code_has_diagonal(c);
    let up_ok = 1 <= e.2 && code_has_up(c);
    let left_ok = 1 <= e.3 && code_has_left(c);
    if !all {
        if diag_ok {
            rest.push(diag_child(q, s, e))
        } else if up_ok {
            rest.push(up_child(q, s, e))
        } else if left_ok {
            rest.push(left_child(q, s, e))
        } else {
            rest
        }
    } else {
        let after_diag = if diag_ok {
            rest.push(diag_child(q, s, e))
        } else {
            rest
        };
        let after_up = if up_ok {
            after_diag.push(up_child(q, s, e))
        } else {
            after_diag
        };
        if left_ok {
            after_up.push(left_child(q, s, e))
        } else {
            after_up
        }
    }
}

/// The specification-level traceback: the exact sequence of aligned pairs
/// the depth-first walk emits from the given stack, in emission order. A
/// state at (0, 0) emits its reversed accumulators — and, without the
/// all-alignments flag, ends the walk; any other state is replaced by its
/// children.
pub open spec fn dfs(
    ptr: Seq<Seq<i32>>,
    q: Seq<char>,
    s: Seq<char>,
    all: bool,
    stack: Seq<(Seq<char>, Seq<char>, int, int)>,
) -> Seq<(Seq<char>, Seq<char>)>
    decreases gmeasure(stack),
    via dfs_decreases
{
    if stack.len() == 0 {
        Seq::empty()
    } else {
        let e = stack.last();
        let rest = stack.drop_last();
        if e.2 == 0 && e.3 == 0 {
            if all {
                seq![(e.0.reverse(), e.1.reverse())] + dfs(ptr, q, s, all, rest)
            } else {
                seq![(e.0.reverse(), e.1.reverse())]
            }
        } else {
            dfs(ptr, q, s, all, dfs_children(ptr, q, s, all, e, rest))
        }
    }
}

#[via_fn]
proof fn dfs_decreases(
    ptr: Seq<Seq<i32>>,
    q: Seq<char>,
    s: Seq<char>,
    all: bool,
    stack: Seq<(Seq<char>, Seq<char>, int, int)>,
) {
    if stack.len() > 0 {
        let e = stack.last();
        let rest = stack.drop_last();
        let k = clip(e.2) + clip(e.3);
        lemma_pow4_pos(k);
        assert(gmeasure(stack) == gmeasure(rest) + pow4(k));
        if e.2 == 0 && e.3 == 0 {
        } else {
            let c = cell(ptr, e.2, e.3);
            let diag_ok = 1 <= e.2 && 1 <= e.3 && code_has_diagonal(c);
            let up_ok = 1 <= e.2 && code_has_up(c);
            let left_ok = 1 <= e.3 && code_has_left(c);
            lemma_pow4_pos((k - 1) as nat);
            if k >= 1 {
                assert(pow4(k) == 4 * pow4((k - 1) as nat));
            }
            if diag_ok {
                lemma_pow4_le((k - 2) as nat, (k - 1) as nat);
                lemma_gmeasure_push(rest, diag_child(q, s, e));
                assert(clip(e.2 - 1) + clip(e.3 - 1) == k - 2);
            }
            if up_ok {
                lemma_gmeasure_push(rest, up_child(q, s, e));
                assert(clip(e.2 - 1) + clip(e.3) == k - 1);
            }
            if left_ok {
                lemma_gmeasure_push(rest, left_child(q, s, e));
                assert(clip(e.2) + clip(e.3 - 1) == k - 1);
            }
            if all {
                let after_diag = if diag_ok {
                    rest.push(diag_child(q, s, e))
                } else {
                    rest
                };
                let after_up = if up_ok {
                    after_diag.push(up_child(q, s, e))
                } else {
                    after_diag
                };
                if diag_ok {
                    assert(gmeasure(after_diag) <= gmeasure(rest) + pow4((k - 1) as nat));
                }
                if up_ok {
                    lemma_gmeasure_push(after_diag, up_child(q, s, e));
                }
                if left_ok {
                    lemma_gmeasure_push(after_up, left_child(q, s, e));
                }
                assert(gmeasure(dfs_children(ptr, q, s, all, e, rest)) < gmeasure(stack));
            } else {
                assert(gmeasure(dfs_children(ptr, q, s, all, e, rest)) < gmeasure(stack));
            }
        }
    }
}

/// A pending traceback state: the two accumulators hold, backward, the
/// aligned symbols already laid down on the walk from (m, n) down to (i, j),
/// and that walk follows the pointer matrix.
pub open spec fn entry_ok(
    e: (Vec<char>, Vec<char>, usize, usize),
    ptr: Seq<Seq<i32>>,
    q: Seq<char>,
    s: Seq<char>,
) -> bool {
    &&& e.2 <= q.len()
    &&& e.3 <= s.len()
    &&& e.0@.len() == e.1@.len()
    &&& degap(e.0@).reverse() == degap(q.subrange(e.2 as int, q.len() as int))
    &&& degap(e.1@).reverse() == degap(s.subrange(e.3 as int, s.len() as int))
    &&& trace_path(ptr, q, s, e.0@, e.1@, e.2 as int, e.3 as int)
}

/// An immutable snapshot of one computed alignment: the sequence pair, the
/// scoring parameters the reporter needs, the completed matrices, and the
/// all-alignments flag steering the traceback.
pub struct GloablAlignmentModel {
    pub data: AlignmentData,
    pub identity: usize,
    pub mismatch: usize,
    pub all_alignments: bool,
}

pub open spec fn abs_val(x: int) -> int {
    if x < 0 {
        -x
    } else {
        x
    }
}

impl GloablAlignmentModel {
    /// The length of the longer of the two sequences.
    pub open spec fn max_len(self) -> int {
        max2(self.data.qlen(), self.data.slen())
    }

    /// A completed model: a well-formed matrix store, and scoring small
    /// enough that every reported score fits the matrix cell type.
    pub open spec fn wf(self) -> bool {
        &&& self.data.wf()
        &&& self.max_len() * self.identity <= i32::MAX
        &&& self.max_len() * self.mismatch <= i32::MAX
        &&& cell(grid(self.data.score_matrix@[0]), self.data.qlen(), self.data.slen())
            > i32::MIN
    }

    /// The final-cell score, or 1 for the trivially identical empty pair.
    pub open spec fn spec_similarity(self) -> int {
        if self.data.qlen() == 0 && self.data.slen() == 0 {
            1
        } else {
            cell(grid(self.data.score_matrix@[0]), self.data.qlen(), self.data.slen())
        }
    }

    /// 0 for the empty pair; the longer length times the mismatch penalty
    /// when exactly one sequence is empty; otherwise the longer length times
    /// the identity reward minus the absolute value of the similarity.
    pub open spec fn spec_distance(self) -> int {
        if self.data.qlen() == 0 && self.data.slen() == 0 {
            0
        } else if self.data.qlen() == 0 || self.data.slen() == 0 {
            self.max_len() * self.mismatch
        } else {
            self.max_len() * self.identity - abs_val(self.spec_similarity())
        }
    }

    /// A reconfigured copy: the sequence pair, scoring and matrices are
    /// unchanged, only the all-alignments flag takes the given value.
    pub fn all_alignments(&self, value: bool) -> (r: Self)
        ensures
            r.data.equiv(self.data),
            r.identity == self.identity,
            r.mismatch == self.mismatch,
            r.all_alignments == value,
            self.wf() ==> r.wf(),
    {
        Self {
            data: self.data.duplicate(),
            identity: self.identity,
            mismatch: self.mismatch,
            all_alignments: value,
        }
    }

    /// The similarity score of the computed alignment.
    pub fn similarity(&self) -> (r: i32)
        requires
            self.wf(),
        ensures
            r as int == self.spec_similarity(),
    {
        if self.data.query.len() == 0 && self.data.subject.len() == 0 {
            return 1;
        }
        let i = self.data.query.len();
        let j = self.data.subject.len();
        arr2d_get(self.data.score_matrix(), i, j)
    }

    /// The distance of the computed alignment.
    pub fn distance(&self) -> (r: i32)
        requires
            self.wf(),
        ensures
            r as int == self.spec_distance(),
    {
        if self.data.query.len() == 0 && self.data.subject.len() == 0 {
            return 0;
        }
        let max_len = if self.data.query.len() >= self.data.subject.len() {
            self.data.query.len()
        } else {
            self.data.subject.len()
        };
        if self.data.query.len() == 0 || self.data.subject.len() == 0 {
            return (max_len * self.mismatch) as i32;
        }
        let similarity = self.similarity();
        let magnitude = if similarity < 0 {
            -similarity
        } else {
            similarity
        };
        let max_possible = (max_len * self.identity) as i32;
        max_possible - magnitude
    }

    /// The exact value `align` returns, as pairs: the emission sequence of
    /// the specification-level walk started at the single state (m, n).
    pub open spec fn spec_align(self) -> Seq<(Seq<char>, Seq<char>)> {
        dfs(
            grid(self.data.pointer_matrix@[0]),
            self.data.query@,
            self.data.subject@,
            self.all_alignments,
            seq![(Seq::<char>::empty(), Seq::<char>::empty(), self.data.qlen(), self.data.slen())],
        )
    }

    /// Re-enumerates the traceback from scratch and returns every emitted
    /// alignment as one string: the aligned query, a newline, the aligned
    /// subject. The result is exactly `spec_align`, pair for pair and in
    /// its order — so every call returns the same lines. At least one
    /// alignment always comes back; exactly one when the all-alignments
    /// flag is off; every one round-trips to the sequence pair and spells a
    /// walk the main pointer matrix records.
    pub fn align(&self) -> (r: Vec<String>)
        requires
            self.wf(),
        ensures
            r@.len() >= 1,
            !self.all_alignments ==> r@.len() == 1,
            forall|k: int|
                0 <= k < r@.len() ==> aligned_line_ok(
                    #[trigger] r@[k]@,
                    grid(self.data.pointer_matrix@[0]),
                    self.data.query@,
                    self.data.subject@,
                ),
            r@.len() == self.spec_align().len(),
            forall|k: int|
                0 <= k < r@.len() ==> #[trigger] r@[k]@ == self.spec_align()[k].0 + seq!['\n']
                    + self.spec_align()[k].1,
    {
        let ghost q = self.data.query@;
        let ghost s = self.data.subject@;
        let i = self.data.query.len();
        let j = self.data.subject.len();
        let first: (Vec<char>, Vec<char>, usize, usize) = (Vec::new(), Vec::new(), i, j);
        let ghost gptr = grid(self.data.pointer_matrix@[0]);
        proof {
            assert(degap(first.0@) =~= Seq::<char>::empty());
            assert(degap(first.0@).reverse() =~= Seq::<char>::empty());
            assert(q.subrange(i as int, q.len() as int) =~= Seq::<char>::empty());
            assert(degap(q.subrange(i as int, q.len() as int)) =~= Seq::<char>::empty());
            assert(s.subrange(j as int, s.len() as int) =~= Seq::<char>::empty());
            assert(degap(s.subrange(j as int, s.len() as int)) =~= Seq::<char>::empty());
            assert(trace_path(gptr, q, s, first.0@, first.1@, i as int, j as int));
            assert(entry_ok(first, gptr, q, s));
        }
        let ghost target = self.spec_align();
        let mut stack: Vec<(Vec<char>, Vec<char>, usize, usize)> = Vec::new();
        stack.push(first);
        proof {
            lemma_abs_stack_push(Seq::<(Vec<char>, Vec<char>, usize, usize)>::empty(), first);
            assert(abs_stack(Seq::<(Vec<char>, Vec<char>, usize, usize)>::empty())
                == Seq::<(Seq<char>, Seq<char>, int, int)>::empty());
            assert(abs_entry(first) == (
                Seq::<char>::empty(),
                Seq::<char>::empty(),
                q.len() as int,
                s.len() as int,
            ));
            assert(abs_stack(stack@) =~= seq![(
                Seq::<char>::empty(),
                Seq::<char>::empty(),
                q.len() as int,
                s.len() as int,
            )]);
            assert(dfs(gptr, q, s, self.all_alignments, abs_stack(stack@)) == target);
            assert(target.subrange(0, target.len() as int) =~= target);
        }
        let mut iterator = GlobalAligner {
            query_chars: &self.data.query,
            subject_chars: &self.data.subject,
            pointer_matrix: self.data.pointer_matrix(),
            stack,
            all_alignments: self.all_alignments,
        };
        let mut aligned_results: Vec<String> = Vec::new();
        loop
            invariant
                iterator.wf(),
                q == self.data.query@,
                s == self.data.subject@,
                gptr == grid(self.data.pointer_matrix@[0]),
                *iterator.pointer_matrix == self.data.pointer_matrix@[0],
                iterator.query_chars@ == q,
                iterator.subject_chars@ == s,
                iterator.all_alignments == self.all_alignments,
                aligned_results@.len() == 0 ==> iterator.stack@.len() > 0,
                !self.all_alignments ==> (aligned_results@.len() == 0 || (
                    aligned_results@.len() == 1 && iterator.stack@.len() == 0
                )),
                forall|k: int|
                    0 <= k < aligned_results@.len() ==> aligned_line_ok(
                        #[trigger] aligned_results@[k]@,
                        gptr,
                        q,
                        s,
                    ),
                target == self.spec_align(),
                aligned_results@.len() <= target.len(),
                dfs(gptr, q, s, self.all_alignments, abs_stack(iterator.stack@))
                    == target.subrange(aligned_results@.len() as int, target.len() as int),
                forall|k: int|
                    0 <= k < aligned_results@.len() ==> #[trigger] aligned_results@[k]@
                        == target[k].0 + seq!['\n'] + target[k].1,
            decreases stack_measure(iterator.stack@),
        {
            match iterator.next() {
                None => {
                    proof {
                        assert(target.subrange(
                            aligned_results@.len() as int,
                            target.len() as int,
                        ).len() == 0);
                        assert(aligned_results@.len() == target.len());
                    }
                    return aligned_results;
                },
                Some((qs_aligned, ss_aligned)) => {
                    let ghost qa = qs_aligned@;
                    let ghost sa = ss_aligned@;
                    let line = qs_aligned.concat("\n").concat(ss_aligned.as_str());
                    proof {
                        reveal_strlit("\n");
                        assert("\n"@ =~= seq!['\n']);
                        assert(line@ == qa + seq!['\n'] + sa);
                        assert(aligned_line_ok(line@, gptr, q, s));
                        let t = aligned_results@.len() as int;
                        let rem = dfs(gptr, q, s, self.all_alignments, abs_stack(iterator.stack@));
                        assert(target.subrange(t, target.len() as int) == seq![(qa, sa)] + rem);
                        assert(target.subrange(t, target.len() as int).len() == target.len() - t);
                        assert((seq![(qa, sa)] + rem).len() == 1 + rem.len());
                        assert(t < target.len());
                        assert(target.subrange(t, target.len() as int)[0] == target[t]);
                        assert(target[t] == (qa, sa));
                        assert forall|idx: int| 0 <= idx < rem.len() implies rem[idx]
                            == target.subrange(t + 1, target.len() as int)[idx] by {
                            assert(rem[idx] == (seq![(qa, sa)] + rem)[idx + 1]);
                            assert(target.subrange(t, target.len() as int)[idx + 1]
                                == target[t + 1 + idx]);
                            assert(target.subrange(t + 1, target.len() as int)[idx]
                                == target[t + 1 + idx]);
                        }
                        assert(rem =~= target.subrange(t + 1, target.len() as int));
                        assert(line@ == target[t].0 + seq!['\n'] + target[t].1);
                    }
                    aligned_results.push(line);
                },
            }
        }
    }
}

/// The traceback enumerator: a depth-first search over the main pointer
/// matrix with an explicit stack, never recursive.
pub struct GlobalAligner<'a> {
    pub query_chars: &'a Vec<char>,
    pub subject_chars: &'a Vec<char>,
    pub pointer_matrix: &'a Arr2D<i32>,
    pub stack: Vec<(Vec<char>, Vec<char>, usize, usize)>,
    pub all_alignments: bool,
}

fn clone_chars(v: &Vec<char>) -> (r: Vec<char>)
    ensures
        r@ == v@,
{
    let mut r: Vec<char> = Vec::new();
    let mut k: usize = 0;
    while k < v.len()
        invariant
            k <= v@.len(),
            r@ == v@.subrange(0, k as int),
        decreases v@.len() - k,
    {
        r.push(v[k]);
        k = k + 1;
        proof {
            assert(r@ =~= v@.subrange(0, k as int));
        }
    }
    proof {
        assert(r@ =~= v@);
    }
    r
}

fn reversed(v: &Vec<char>) -> (r: Vec<char>)
    ensures
        r@ == v@.reverse(),
{
    let mut r: Vec<char> = Vec::new();
    let mut k: usize = v.len();
    while k > 0
        invariant
            k <= v@.len(),
            r@.len() == v@.len() - k,
            forall|t: int| 0 <= t < r@.len() ==> r@[t] == v@[v@.len() - 1 - t],
        decreases k,
    {
        k = k - 1;
        r.push(v[k]);
    }
    proof {
        assert(r@ =~= v@.reverse());
    }
    r
}

impl<'a> GlobalAligner<'a> {
    /// The pointer matrix fits the sequence pair and every pending state is
    /// consistent with the walk that reached it.
    pub open spec fn wf(self) -> bool {
        &&& pointer_ok(
            grid(*self.pointer_matrix),
            self.query_chars@.len() as int,
            self.subject_chars@.len() as int,
        )
        &&& forall|k: int|
            0 <= k < self.stack@.len() ==> entry_ok(
                #[trigger] self.stack@[k],
                grid(*self.pointer_matrix),
                self.query_chars@,
                self.subject_chars@,
            )
    }

    /// Pops pending states until one completes at (0, 0) and is emitted.
    /// Every emitted pair round-trips to the sequence pair and spells a walk
    /// the pointer matrix records; a call on a nonempty stack always emits,
    /// and when single-path enumeration emits it clears the stack, ending
    /// the walk.
    #[verifier::rlimit(100)]
    pub fn next(&mut self) -> (r: Option<(String, String)>)
        requires
            old(self).wf(),
        ensures
            final(self).wf(),
            final(self).query_chars == old(self).query_chars,
            final(self).subject_chars == old(self).subject_chars,
            final(self).pointer_matrix == old(self).pointer_matrix,
            final(self).all_alignments == old(self).all_alignments,
            r matches Some(pair) ==> aligned_pair_ok(
                pair.0@,
                pair.1@,
                old(self).query_chars@,
                old(self).subject_chars@,
            ),
            r matches Some(pair) ==> trace_path(
                grid(*old(self).pointer_matrix),
                old(self).query_chars@,
                old(self).subject_chars@,
                pair.0@.reverse(),
                pair.1@.reverse(),
                0,
                0,
            ),
            r is Some ==> stack_measure(final(self).stack@) < stack_measure(old(self).stack@),
            r is None ==> final(self).stack@.len() == 0 && old(self).stack@.len() == 0,
            (!old(self).all_alignments && r is Some) ==> final(self).stack@.len() == 0,
            r matches Some(pair) ==> dfs(
                grid(*old(self).pointer_matrix),
                old(self).query_chars@,
                old(self).subject_chars@,
                old(self).all_alignments,
                abs_stack(old(self).stack@),
            ) == seq![(pair.0@, pair.1@)] + dfs(
                grid(*old(self).pointer_matrix),
                old(self).query_chars@,
                old(self).subject_chars@,
                old(self).all_alignments,
                abs_stack(final(self).stack@),
            ),
            r is None ==> dfs(
                grid(*old(self).pointer_matrix),
                old(self).query_chars@,
                old(self).subject_chars@,
                old(self).all_alignments,
                abs_stack(old(self).stack@),
            ) == Seq::<(Seq<char>, Seq<char>)>::empty(),
    {
        let ghost q = self.query_chars@;
        let ghost s = self.subject_chars@;
        let ghost gptr = grid(*self.pointer_matrix);
        let ghost all = self.all_alignments;
        let ghost dfs0 = dfs(gptr, q, s, all, abs_stack(self.stack@));
        let qlen = self.query_chars.len();
        let slen = self.subject_chars.len();
        loop
            invariant
                self.wf(),
                self.query_chars == old(self).query_chars,
                self.subject_chars == old(self).subject_chars,
                self.pointer_matrix == old(self).pointer_matrix,
                self.all_alignments == old(self).all_alignments,
                q == self.query_chars@,
                s == self.subject_chars@,
                gptr == grid(*self.pointer_matrix),
                all == self.all_alignments,
                dfs0 == dfs(gptr, q, s, all, abs_stack(old(self).stack@)),
                dfs(gptr, q, s, all, abs_stack(self.stack@)) == dfs0,
                qlen == self.query_chars@.len(),
                slen == self.subject_chars@.len(),
                stack_measure(self.stack@) <= stack_measure(old(self).stack@),
                old(self).stack@.len() > 0 ==> self.stack@.len() > 0,
            decreases stack_measure(self.stack@),
        {
            let ghost head = stack_measure(self.stack@);
            if self.stack.len() == 0 {
                proof {
                    assert(abs_stack(self.stack@) =~= Seq::<(Seq<char>, Seq<char>, int, int)>::empty());
                    assert(dfs(gptr, q, s, all, abs_stack(self.stack@))
                        == Seq::<(Seq<char>, Seq<char>)>::empty());
                }
                return None;
            }
            let ghost pre = self.stack@;
            let entry = self.stack.pop().unwrap();
            let (qs_align, ss_align, i, j) = entry;
            let ghost k = (i + j) as nat;
            let ghost apre = abs_stack(pre);
            let ghost ae = abs_entry(pre.last());
            let ghost rest0 = abs_stack(pre.drop_last());
            proof {
                assert(self.stack@ =~= pre.drop_last());
                assert(head == stack_measure(self.stack@) + pow4(k));
                assert(entry_ok(pre.last(), grid(*self.pointer_matrix), q, s));
                lemma_pow4_pos(k);
                assert(apre == rest0.push(ae));
                assert(apre.len() > 0 && apre.last() == ae);
                assert(apre.drop_last() =~= rest0);
                assert(ae.0 == qs_align@ && ae.1 == ss_align@ && ae.2 == i as int && ae.3 == j as int);
            }
            let ghost base = stack_measure(self.stack@);
            if i == 0 && j == 0 {
                let qs_rev = reversed(&qs_align);
                let ss_rev = reversed(&ss_align);
                let qs_aligned = chars_string(&qs_rev);
                let ss_aligned = chars_string(&ss_rev);
                if !self.all_alignments {
                    self.stack = Vec::new();
                }
                proof {
                    lemma_degap_reverse(qs_align@);
                    lemma_degap_reverse(ss_align@);
                    assert(q.subrange(0, q.len() as int) =~= q);
                    assert(s.subrange(0, s.len() as int) =~= s);
                    assert(degap(qs_rev@) == degap(q));
                    assert(degap(ss_rev@) == degap(s));
                    assert(qs_rev@.reverse() =~= qs_align@);
                    assert(ss_rev@.reverse() =~= ss_align@);
                    assert(dfs(gptr, q, s, all, apre) == if all {
                        seq![(ae.0.reverse(), ae.1.reverse())] + dfs(gptr, q, s, all, rest0)
                    } else {
                        seq![(ae.0.reverse(), ae.1.reverse())]
                    });
                    if !all {
                        assert(abs_stack(self.stack@)
                            =~= Seq::<(Seq<char>, Seq<char>, int, int)>::empty());
                        assert(dfs(gptr, q, s, all, abs_stack(self.stack@))
                            == Seq::<(Seq<char>, Seq<char>)>::empty());
                        assert(seq![(ae.0.reverse(), ae.1.reverse())]
                            + Seq::<(Seq<char>, Seq<char>)>::empty()
                            =~= seq![(ae.0.reverse(), ae.1.reverse())]);
                    }
                    assert(dfs(gptr, q, s, all, apre) == seq![(qs_rev@, ss_rev@)] + dfs(
                        gptr,
                        q,
                        s,
                        all,
                        abs_stack(self.stack@),
                    ));
                }
                return Some((qs_aligned, ss_aligned));
            }
            proof {
                // A nonorigin cell always offers a direction, and only
                // directions that stay inside the matrix.
                if i == 0 {
                    assert(cell(grid(*self.pointer_matrix), i as int, j as int) == 4);
                } else if j == 0 {
                    assert(cell(grid(*self.pointer_matrix), i as int, j as int) == 3);
                } else {
                    assert(valid_code(cell(grid(*self.pointer_matrix), i as int, j as int)));
                }
            }
            let code = arr2d_get(self.pointer_matrix, i, j);
            let ghost allowance = base + 3 * pow4((k - 1) as nat);
            proof {
                lemma_pow4_pos((k - 1) as nat);
                assert(pow4(k) == 4 * pow4((k - 1) as nat));
                assert(code as int == cell(gptr, ae.2, ae.3));
                assert(code_has_diagonal(code as int) ==> 1 <= ae.2 && 1 <= ae.3);
                assert(code_has_up(code as int) ==> 1 <= ae.2);
                assert(code_has_left(code as int) ==> 1 <= ae.3);
                assert(dfs(gptr, q, s, all, apre) == dfs(
                    gptr,
                    q,
                    s,
                    all,
                    dfs_children(gptr, q, s, all, ae, rest0),
                ));
            }
            let ghost mut gstack = rest0;
            let mut pushed = false;
            if has_diagonal_flag(code) {
                let mut new_qs = clone_chars(&qs_align);
                new_qs.push(self.query_chars[i - 1]);
                let mut new_ss = clone_chars(&ss_align);
                new_ss.push(self.subject_chars[j - 1]);
                let ghost e = (new_qs, new_ss, (i - 1) as usize, (j - 1) as usize);
                self.stack.push((new_qs, new_ss, i - 1, j - 1));
                pushed = true;
                proof {
                    lemma_stack_measure_push(pre.drop_last(), e);
                    lemma_pow4_le((k - 2) as nat, (k - 1) as nat);
                    lemma_degap_push(qs_align@, q[i - 1]);
                    lemma_degap_prepend(q[i - 1], q.subrange(i as int, q.len() as int));
                    assert(seq![q[i - 1]] + q.subrange(i as int, q.len() as int)
                        =~= q.subrange(i - 1, q.len() as int));
                    if q[i - 1] != '-' {
                        assert((degap(qs_align@).push(q[i - 1])).reverse()
                            =~= seq![q[i - 1]] + degap(qs_align@).reverse());
                    }
                    lemma_degap_push(ss_align@, s[j - 1]);
                    lemma_degap_prepend(s[j - 1], s.subrange(j as int, s.len() as int));
                    assert(seq![s[j - 1]] + s.subrange(j as int, s.len() as int)
                        =~= s.subrange(j - 1, s.len() as int));
                    if s[j - 1] != '-' {
                        assert((degap(ss_align@).push(s[j - 1])).reverse()
                            =~= seq![s[j - 1]] + degap(ss_align@).reverse());
                    }
                    assert(new_qs@.drop_last() =~= qs_align@);
                    assert(new_ss@.drop_last() =~= ss_align@);
                    assert(trace_path(grid(*self.pointer_matrix), q, s, new_qs@, new_ss@, i - 1, j - 1));
                    assert(entry_ok(e, grid(*self.pointer_matrix), q, s));
                    assert(stack_measure(self.stack@) <= base + pow4((k - 2) as nat));
                    lemma_abs_stack_push(pre.drop_last(), e);
                    assert(abs_entry(e) == diag_child(q, s, ae));
                    gstack = gstack.push(diag_child(q, s, ae));
                    assert(abs_stack(self.stack@) == gstack);
                }
                if !self.all_alignments {
                    proof {
                        assert(gstack == dfs_children(gptr, q, s, all, ae, rest0));
                        assert(dfs(gptr, q, s, all, abs_stack(self.stack@)) == dfs0);
                    }
                    continue;
                }
            }
            if has_up_flag(code) {
                let mut new_qs = clone_chars(&qs_align);
                new_qs.push(self.query_chars[i - 1]);
                let mut new_ss = clone_chars(&ss_align);
                new_ss.push('-');
                let ghost pre_push = self.stack@;
                let ghost e = (new_qs, new_ss, (i - 1) as usize, j);
                self.stack.push((new_qs, new_ss, i - 1, j));
                pushed = true;
                proof {
                    lemma_stack_measure_push(pre_push, e);
                    lemma_degap_push(qs_align@, q[i - 1]);
                    lemma_degap_prepend(q[i - 1], q.subrange(i as int, q.len() as int));
                    assert(seq![q[i - 1]] + q.subrange(i as int, q.len() as int)
                        =~= q.subrange(i - 1, q.len() as int));
                    if q[i - 1] != '-' {
                        assert((degap(qs_align@).push(q[i - 1])).reverse()
                            =~= seq![q[i - 1]] + degap(qs_align@).reverse());
                    }
                    lemma_degap_push(ss_align@, '-');
                    assert(new_qs@.drop_last() =~= qs_align@);
                    assert(new_ss@.drop_last() =~= ss_align@);
                    assert(trace_path(grid(*self.pointer_matrix), q, s, new_qs@, new_ss@, i - 1, j as int));
                    assert(entry_ok(e, grid(*self.pointer_matrix), q, s));
                    assert(stack_measure(self.stack@) <= base + 2 * pow4((k - 1) as nat));
                    lemma_abs_stack_push(pre_push, e);
                    assert(abs_entry(e) == up_child(q, s, ae));
                    gstack = gstack.push(up_child(q, s, ae));
                    assert(abs_stack(self.stack@) == gstack);
                }
                if !self.all_alignments {
                    proof {
                        assert(gstack == dfs_children(gptr, q, s, all, ae, rest0));
                        assert(dfs(gptr, q, s, all, abs_stack(self.stack@)) == dfs0);
                    }
                    continue;
                }
            }
            if has_left_flag(code) {
                let mut new_qs = clone_chars(&qs_align);
                new_qs.push('-');
                let mut new_ss = clone_chars(&ss_align);
                new_ss.push(self.subject_chars[j - 1]);
                let ghost pre_push = self.stack@;
                let ghost e = (new_qs, new_ss, i, (j - 1) as usize);
                self.stack.push((new_qs, new_ss, i, j - 1));
                pushed = true;
                proof {
                    lemma_stack_measure_push(pre_push, e);
                    lemma_degap_push(qs_align@, '-');
                    lemma_degap_push(ss_align@, s[j - 1]);
                    lemma_degap_prepend(s[j - 1], s.subrange(j as int, s.len() as int));
                    assert(seq![s[j - 1]] + s.subrange(j as int, s.len() as int)
                        =~= s.subrange(j - 1, s.len() as int));
                    if s[j - 1] != '-' {
                        assert((degap(ss_align@).push(s[j - 1])).reverse()
                            =~= seq![s[j - 1]] + degap(ss_align@).reverse());
                    }
                    assert(new_qs@.drop_last() =~= qs_align@);
                    assert(new_ss@.drop_last() =~= ss_align@);
                    assert(trace_path(grid(*self.pointer_matrix), q, s, new_qs@, new_ss@, i as int, j - 1));
                    assert(entry_ok(e, grid(*self.pointer_matrix), q, s));
                    assert(stack_measure(self.stack@) <= allowance);
                    lemma_abs_stack_push(pre_push, e);
                    assert(abs_entry(e) == left_child(q, s, ae));
                    gstack = gstack.push(left_child(q, s, ae));
                    assert(abs_stack(self.stack@) == gstack);
                }
                if !self.all_alignments {
                    proof {
                        assert(gstack == dfs_children(gptr, q, s, all, ae, rest0));
                        assert(dfs(gptr, q, s, all, abs_stack(self.stack@)) == dfs0);
                    }
                    continue;
                }
            }
            proof {
                assert(pushed);
                assert(stack_measure(self.stack@) <= allowance);
                assert(allowance < head);
                assert(abs_stack(self.stack@) == gstack);
                assert(gstack == dfs_children(gptr, q, s, all, ae, rest0));
                assert(dfs(gptr, q, s, all, abs_stack(self.stack@)) == dfs0);
            }
        }
    }
}

} // verus!
