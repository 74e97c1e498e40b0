//! The matrix store: the sequence pair and the completed score and pointer
//! matrices of one alignment. The simple engine fills one matrix of each
//! kind; the affine engine fills the triple D, P, Q with one pointer matrix
//! each. The traceback walks `pointer_matrix[0]` only.

use vstd::prelude::*;
use spindalis::utils::Arr2D;
use crate::matrix::{arr2d_clone, grid, grid_dims};
use crate::pointers::pointer_ok;

verus! {

pub struct AlignmentData {
    pub query: Vec<char>,
    pub subject: Vec<char>,
    pub score_matrix: Vec<Arr2D<i32>>,
    pub pointer_matrix: Vec<Arr2D<i32>>,
}

impl AlignmentData {
    /// The query length m.
    pub open spec fn qlen(self) -> int {
        self.query@.len() as int
    }

    /// The subject length n.
    pub open spec fn slen(self) -> int {
        self.subject@.len() as int
    }

    /// A completed matrix store: at least one score and one pointer matrix,
    /// all sized (m+1) x (n+1), and the main pointer matrix well formed.
    pub open spec fn wf(self) -> bool {
        &&& self.score_matrix@.len() >= 1
        &&& self.pointer_matrix@.len() >= 1
        &&& forall|k: int|
            0 <= k < self.score_matrix@.len() ==> grid_dims(
                grid(#[trigger] self.score_matrix@[k]),
                self.qlen() + 1,
                self.slen() + 1,
            )
        &&& forall|k: int|
            0 <= k < self.pointer_matrix@.len() ==> grid_dims(
                grid(#[trigger] self.pointer_matrix@[k]),
                self.qlen() + 1,
                self.slen() + 1,
            )
        &&& pointer_ok(grid(self.pointer_matrix@[0]), self.qlen(), self.slen())
    }

    /// The two sequences, the scoring held by the model, and all matrices
    /// agree cell for cell.
    pub open spec fn equiv(self, other: AlignmentData) -> bool {
        &&& self.query@ == other.query@
        &&& self.subject@ == other.subject@
        &&& self.score_matrix@ == other.score_matrix@
        &&& self.pointer_matrix@ == other.pointer_matrix@
    }

    /// The main score matrix, for inspection: D for both engines.
    pub fn score_matrix(&self) -> (r: &Arr2D<i32>)
        requires
            self.score_matrix@.len() >= 1,
        ensures
            *r == self.score_matrix@[0],
    {
        &self.score_matrix[0]
    }

    /// The main pointer matrix, for inspection and for the traceback.
    pub fn pointer_matrix(&self) -> (r: &Arr2D<i32>)
        requires
            self.pointer_matrix@.len() >= 1,
        ensures
            *r == self.pointer_matrix@[0],
    {
        &self.pointer_matrix[0]
    }

    /// A deep copy: the copy's sequences and matrices equal the original's.
    pub fn duplicate(&self) -> (r: AlignmentData)
        ensures
            r.equiv(*self),
    {
        let mut query: Vec<char> = Vec::new();
        let mut k: usize = 0;
        while k < self.query.len()
            invariant
                k <= self.query@.len(),
                query@ == self.query@.subrange(0, k as int),
            decreases self.query@.len() - k,
        {
            query.push(self.query[k]);
            k = k + 1;
            proof {
                assert(query@ =~= self.query@.subrange(0, k as int));
            }
        }
        let mut subject: Vec<char> = Vec::new();
        let mut k: usize = 0;
        while k < self.subject.len()
            invariant
                k <= self.subject@.len(),
                subject@ == self.subject@.subrange(0, k as int),
            decreases self.subject@.len() - k,
        {
            subject.push(self.subject[k]);
            k = k + 1;
            proof {
                assert(subject@ =~= self.subject@.subrange(0, k as int));
            }
        }
        let mut score_matrix: Vec<Arr2D<i32>> = Vec::new();
        let mut k: usize = 0;
        while k < self.score_matrix.len()
            invariant
                k <= self.score_matrix@.len(),
                score_matrix@ == self.score_matrix@.subrange(0, k as int),
            decreases self.score_matrix@.len() - k,
        {
            score_matrix.push(arr2d_clone(&self.score_matrix[k]));
            k = k + 1;
            proof {
                assert(score_matrix@ =~= self.score_matrix@.subrange(0, k as int));
            }
        }
        let mut pointer_matrix: Vec<Arr2D<i32>> = Vec::new();
        let mut k: usize = 0;
        while k < self.pointer_matrix.len()
            invariant
                k <= self.pointer_matrix@.len(),
                pointer_matrix@ == self.pointer_matrix@.subrange(0, k as int),
            decreases self.pointer_matrix@.len() - k,
        {
            pointer_matrix.push(arr2d_clone(&self.pointer_matrix[k]));
            k = k + 1;
            proof {
                assert(pointer_matrix@ =~= self.pointer_matrix@.subrange(0, k as int));
            }
        }
        proof {
            assert(query@ =~= self.query@);
            assert(subject@ =~= self.subject@);
            assert(score_matrix@ =~= self.score_matrix@);
            assert(pointer_matrix@ =~= self.pointer_matrix@);
        }
        AlignmentData { query, subject, score_matrix, pointer_matrix }
    }
}

} // verus!
