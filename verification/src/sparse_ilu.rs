//! Incomplete LU factorization with level-k fill: symbolic fill analysis,
//! value transfer, in-place numeric decomposition and forward/backward
//! substitution, over the same compressed sparse-row pattern as the matrix.

use crate::fits_i64;
use crate::sparse_square::idx_of;
use crate::sparse_square::in_pattern;
use crate::sparse_square::lemma_row2idx_le;
use crate::sparse_square::pattern_wf;
use vstd::prelude::*;

verus! {

/// Incomplete-factor storage: the matrix layout plus `row2idx_dia`, the
/// per-row boundary between the strictly-lower and strictly-upper parts.
pub struct Preconditioner {
    pub num_blk: usize,
    pub row2idx: Vec<usize>,
    pub idx2col: Vec<usize>,
    pub row2idx_dia: Vec<usize>,
    pub idx2val: Vec<i64>,
    pub row2val: Vec<i64>,
}

impl Preconditioner {
    /// `row2idx_dia[i]` splits row `i`'s slice: strictly-lower columns before
    /// it, strictly-upper columns from it on.
    pub open spec fn dia_wf(&self) -> bool {
        &&& self.row2idx_dia@.len() == self.num_blk
        &&& forall|i: int|
            0 <= i < self.num_blk ==> self.row2idx@[i] <= #[trigger] self.row2idx_dia@[i]
                <= self.row2idx@[i + 1]
        &&& forall|i: int, k: int|
            #![trigger self.row2idx_dia@[i], self.idx2col@[k]]
            0 <= i < self.num_blk && self.row2idx@[i] <= k < self.row2idx_dia@[i]
                ==> self.idx2col@[k] < i
        &&& forall|i: int, k: int|
            #![trigger self.row2idx_dia@[i], self.idx2col@[k]]
            0 <= i < self.num_blk && self.row2idx_dia@[i] <= k < self.row2idx@[i + 1]
                ==> self.idx2col@[k] > i
    }

    /// Structural and size invariants tying the six fields together.
    pub open spec fn wf(&self) -> bool {
        &&& pattern_wf(self.row2idx@, self.idx2col@, self.num_blk as int)
        &&& self.idx2val@.len() == self.idx2col@.len()
        &&& self.row2val@.len() == self.num_blk
        &&& self.dia_wf()
    }

    /// An empty zero-dimensional preconditioner.
    pub fn new() -> (r: Self)
        ensures
            r.wf(),
            r.num_blk == 0,
            r.row2idx@ =~= seq![0usize],
            r.idx2col@ =~= Seq::<usize>::empty(),
            r.idx2val@ =~= Seq::<i64>::empty(),
            r.row2val@ =~= Seq::<i64>::empty(),
            r.row2idx_dia@ =~= Seq::<usize>::empty(),
    {
        Preconditioner {
            num_blk: 0,
            row2idx: vec![0],
            idx2col: Vec::<usize>::new(),
            idx2val: Vec::<i64>::new(),
            row2val: Vec::<i64>::new(),
            row2idx_dia: Vec::<usize>::new(),
        }
    }

    /// A deep copy of the preconditioner.
    pub fn clone(&self) -> (r: Self)
        ensures
            r.num_blk == self.num_blk,
            r.row2idx@ == self.row2idx@,
            r.idx2col@ == self.idx2col@,
            r.row2idx_dia@ == self.row2idx_dia@,
            r.idx2val@ == self.idx2val@,
            r.row2val@ == self.row2val@,
    {
        let r = Preconditioner {
            num_blk: self.num_blk,
            row2idx: self.row2idx.clone(),
            idx2col: self.idx2col.clone(),
            idx2val: self.idx2val.clone(),
            row2val: self.row2val.clone(),
            row2idx_dia: self.row2idx_dia.clone(),
        };
        assert(r.row2idx@ =~= self.row2idx@);
        assert(r.idx2col@ =~= self.idx2col@);
        assert(r.row2idx_dia@ =~= self.row2idx_dia@);
        assert(r.idx2val@ =~= self.idx2val@);
        assert(r.row2val@ =~= self.row2val@);
        r
    }

    /// Level-0 symbolic factorization: the preconditioner takes the source
    /// matrix's pattern exactly — same row offsets and same column indices —
    /// with all values zero, and records each row's lower/upper split point.
    #[verifier::loop_isolation(false)]
    pub fn initialize_ilu0(&mut self, a: &crate::sparse_square::Matrix)
        requires
            a.wf(),
        ensures
            final(self).wf(),
            final(self).num_blk == a.num_blk,
            final(self).row2idx@ == a.row2idx@,
            final(self).idx2col@ == a.idx2col@,
            final(self).idx2val@.len() == a.idx2col@.len(),
            final(self).row2val@.len() == a.num_blk,
            forall|k: int|
                0 <= k < a.idx2col@.len() ==> final(self).idx2val@[k] == 0i64,
            forall|r: int| 0 <= r < a.num_blk ==> final(self).row2val@[r] == 0i64,
    {
        let num_row = a.num_blk;
        self.num_blk = num_row;
        self.row2idx = a.row2idx.clone();
        self.idx2col = a.idx2col.clone();
        assert(self.row2idx@ =~= a.row2idx@);
        assert(self.idx2col@ =~= a.idx2col@);
        let num_idx = self.idx2col.len();
        self.idx2val = vec![0i64; num_idx];
        self.row2val = vec![0i64; num_row];
        self.row2idx_dia = Vec::<usize>::new();
        let mut i_row: usize = 0;
        while i_row < num_row
            invariant
                i_row <= num_row,
                self.num_blk == num_row,
                self.row2idx@ == a.row2idx@,
                self.idx2col@ == a.idx2col@,
                self.idx2val@.len() == a.idx2col@.len(),
                self.row2val@.len() == num_row,
                forall|k: int| 0 <= k < self.idx2val@.len() ==> self.idx2val@[k] == 0i64,
                forall|r: int| 0 <= r < self.row2val@.len() ==> self.row2val@[r] == 0i64,
                self.row2idx_dia@.len() == i_row,
                forall|i: int|
                    0 <= i < i_row ==> self.row2idx@[i] <= #[trigger] self.row2idx_dia@[i]
                        <= self.row2idx@[i + 1],
                forall|i: int, k: int|
                    #![trigger self.row2idx_dia@[i], self.idx2col@[k]]
                    0 <= i < i_row && self.row2idx@[i] <= k < self.row2idx_dia@[i]
                        ==> self.idx2col@[k] < i,
                forall|i: int, k: int|
                    #![trigger self.row2idx_dia@[i], self.idx2col@[k]]
                    0 <= i < i_row && self.row2idx_dia@[i] <= k < self.row2idx@[i + 1]
                        ==> self.idx2col@[k] > i,
            decreases num_row - i_row,
        {
            proof {
                lemma_row2idx_le(self.row2idx@, self.idx2col@, num_row as int, i_row + 1, num_row as int);
            }
            let lo = self.row2idx[i_row];
            let hi = self.row2idx[i_row + 1];
            let mut k = lo;
            while k < hi && self.idx2col[k] < i_row
                invariant
                    lo <= k <= hi,
                    forall|t: int| lo <= t < k ==> #[trigger] self.idx2col@[t] < i_row,
                decreases hi - k,
            {
                k = k + 1;
            }
            assert forall|t: int| k <= t < hi implies #[trigger] self.idx2col@[t] > i_row by {
                if t > k {
                    assert(self.idx2col@[k as int] < self.idx2col@[t]);
                }
            };
            self.row2idx_dia.push(k);
            i_row = i_row + 1;
        }
    }

    /// Level-k symbolic initialization: level zero copies the source pattern
    /// exactly (`initialize_ilu0`); a positive level runs the fill analysis
    /// and allocates zero values over the extended pattern. Either way the
    /// result is a well-formed pattern that contains the source pattern.
    #[verifier::loop_isolation(false)]
    pub fn initialize_iluk(&mut self, a: &crate::sparse_square::Matrix, lev_fill: usize)
        requires
            a.wf(),
        ensures
            final(self).wf(),
            final(self).num_blk == a.num_blk,
            final(self).idx2val@.len() == final(self).idx2col@.len(),
            final(self).row2val@.len() == a.num_blk,
            forall|k: int|
                0 <= k < final(self).idx2val@.len() ==> final(self).idx2val@[k] == 0i64,
            forall|r: int| 0 <= r < a.num_blk ==> final(self).row2val@[r] == 0i64,
            lev_fill == 0 ==> final(self).row2idx@ == a.row2idx@ && final(self).idx2col@
                == a.idx2col@,
            forall|i: int, k: int|
                #![trigger a.row2idx@[i], a.idx2col@[k]]
                0 <= i < a.num_blk && a.row2idx@[i] <= k < a.row2idx@[i + 1] ==> in_pattern(
                    final(self).row2idx@,
                    final(self).idx2col@,
                    i,
                    a.idx2col@[k] as int,
                ),
    {
        if lev_fill == 0 {
            self.initialize_ilu0(a);
            proof {
                assert forall|i: int, k: int|
                    #![trigger a.row2idx@[i], a.idx2col@[k]]
                    0 <= i < a.num_blk && a.row2idx@[i] <= k < a.row2idx@[i + 1] implies in_pattern(
                    self.row2idx@,
                    self.idx2col@,
                    i,
                    a.idx2col@[k] as int,
                ) by {
                    assert(self.row2idx@[i] <= k < self.row2idx@[i + 1] && self.idx2col@[k]
                        == a.idx2col@[k]);
                };
            }
            return ;
        }
        let (r2i, i2c, dia) = symbolic_iluk(&a.row2idx, &a.idx2col, lev_fill);
        self.num_blk = a.num_blk;
        self.row2idx = r2i;
        self.idx2col = i2c;
        self.row2idx_dia = dia;
        let n_idx = self.idx2col.len();
        self.idx2val = vec![0i64; n_idx];
        self.row2val = vec![0i64; a.num_blk];
    }

    /// Initializes the fully dense pattern: every row holds every column but
    /// its own index, in ascending order, with zero values.
    #[verifier::loop_isolation(false)]
    #[verifier::rlimit(100)]
    pub fn initialize_full(&mut self, num_row: usize)
        requires
            num_row >= 1,
            num_row * (num_row - 1) <= usize::MAX,
        ensures
            final(self).wf(),
            final(self).num_blk == num_row,
            forall|i: int|
                0 <= i <= num_row ==> #[trigger] final(self).row2idx@[i] == i * (num_row - 1),
            forall|i: int, j: int|
                0 <= i < num_row && 0 <= j < num_row && j != i ==> in_pattern(
                    final(self).row2idx@,
                    final(self).idx2col@,
                    i,
                    j,
                ),
            forall|k: int| 0 <= k < final(self).idx2val@.len() ==> final(self).idx2val@[k] == 0i64,
            forall|r: int| 0 <= r < num_row ==> final(self).row2val@[r] == 0i64,
    {
        let nm1 = num_row - 1;
        let ghost nm1i: int = nm1 as int;
        proof {
            assert(num_row < usize::MAX) by (nonlinear_arith)
                requires
                    num_row >= 1,
                    num_row * (num_row - 1) <= usize::MAX,
            ;
        }
        self.num_blk = num_row;
        self.row2idx = Vec::new();
        let mut i: usize = 0;
        while i <= num_row
            invariant
                i <= num_row + 1,
                self.num_blk == num_row,
                self.row2idx@.len() == i,
                forall|t: int| 0 <= t < i ==> #[trigger] self.row2idx@[t] == t * nm1i,
            decreases num_row + 1 - i,
        {
            proof {
                assert(i * nm1i <= num_row * nm1i) by (nonlinear_arith)
                    requires
                        i <= num_row,
                        nm1i >= 0,
                ;
            }
            let v = i * nm1;
            self.row2idx.push(v);
            i = i + 1;
        }
        self.idx2col = Vec::new();
        let mut i2: usize = 0;
        while i2 < num_row
            invariant
                i2 <= num_row,
                self.num_blk == num_row,
                self.row2idx@.len() == num_row + 1,
                forall|t: int| 0 <= t <= num_row ==> #[trigger] self.row2idx@[t] == t * nm1i,
                self.idx2col@.len() == i2 * nm1i,
                forall|k: int|
                    0 <= k < self.idx2col@.len() ==> #[trigger] self.idx2col@[k] as int == (
                    if k % nm1i < k / nm1i {
                        k % nm1i
                    } else {
                        k % nm1i + 1
                    }),
            decreases num_row - i2,
        {
            let mut j: usize = 0;
            proof {
                assert(i2 * nm1i + nm1i == (i2 + 1) * nm1i) by (nonlinear_arith);
                assert((i2 + 1) * nm1i <= num_row * nm1i) by (nonlinear_arith)
                    requires
                        i2 + 1 <= num_row,
                        nm1i >= 0,
                ;
            }
            while j < num_row
                invariant
                    j <= num_row,
                    i2 < num_row,
                    self.num_blk == num_row,
                    self.row2idx@.len() == num_row + 1,
                    forall|t: int| 0 <= t <= num_row ==> #[trigger] self.row2idx@[t] == t * nm1i,
                    self.idx2col@.len() == i2 * nm1i + (if j <= i2 {
                        j as int
                    } else {
                        j - 1
                    }),
                    forall|k: int|
                        0 <= k < self.idx2col@.len() ==> #[trigger] self.idx2col@[k] as int == (
                        if k % nm1i < k / nm1i {
                            k % nm1i
                        } else {
                            k % nm1i + 1
                        }),
                decreases num_row - j,
            {
                if j != i2 {
                    let ghost o: int = if j < i2 {
                        j as int
                    } else {
                        j - 1
                    };
                    proof {
                        assert(0 <= o < nm1i);
                        vstd::arithmetic::div_mod::lemma_fundamental_div_mod_converse_div(
                            i2 * nm1i + o,
                            nm1i,
                            i2 as int,
                            o,
                        );
                        vstd::arithmetic::div_mod::lemma_fundamental_div_mod_converse_mod(
                            i2 * nm1i + o,
                            nm1i,
                            i2 as int,
                            o,
                        );
                    }
                    self.idx2col.push(j);
                }
                j = j + 1;
            }
            i2 = i2 + 1;
        }
        let num_idx = self.idx2col.len();
        self.idx2val = vec![0i64; num_idx];
        self.row2val = vec![0i64; num_row];
        self.row2idx_dia = Vec::new();
        let mut i3: usize = 0;
        proof {
            assert(num_row * nm1i == num_row * nm1i);
        }
        while i3 < num_row
            invariant
                i3 <= num_row,
                self.num_blk == num_row,
                self.row2idx@.len() == num_row + 1,
                forall|t: int| 0 <= t <= num_row ==> #[trigger] self.row2idx@[t] == t * nm1i,
                self.idx2col@.len() == num_row * nm1i,
                forall|k: int|
                    0 <= k < self.idx2col@.len() ==> #[trigger] self.idx2col@[k] as int == (
                    if k % nm1i < k / nm1i {
                        k % nm1i
                    } else {
                        k % nm1i + 1
                    }),
                self.idx2val@.len() == self.idx2col@.len(),
                forall|k: int| 0 <= k < self.idx2val@.len() ==> #[trigger] self.idx2val@[k] == 0i64,
                self.row2val@.len() == num_row,
                forall|r: int| 0 <= r < num_row ==> #[trigger] self.row2val@[r] == 0i64,
                self.row2idx_dia@.len() == i3,
                forall|t: int|
                    0 <= t < i3 ==> #[trigger] self.row2idx_dia@[t] == t * nm1i + t,
            decreases num_row - i3,
        {
            proof {
                assert(i3 * nm1i + i3 == i3 * (nm1i + 1)) by (nonlinear_arith);
                assert(i3 * (nm1i + 1) <= nm1i * (nm1i + 1)) by (nonlinear_arith)
                    requires
                        i3 <= nm1i,
                        nm1i >= 0,
                ;
                assert(nm1i * (nm1i + 1) == num_row * (num_row - 1)) by (nonlinear_arith)
                    requires
                        nm1i == num_row - 1,
                ;
                assert(i3 * nm1i + i3 <= usize::MAX);
            }
            let d = i3 * nm1 + i3;
            self.row2idx_dia.push(d);
            i3 = i3 + 1;
        }
        proof {
            assert forall|r: int, k: int|
                #![trigger self.row2idx@[r], self.idx2col@[k]]
                0 <= r < num_row && self.row2idx@[r] <= k < self.row2idx@[r + 1] implies k / nm1i
                == r && k % nm1i == k - r * nm1i by {
                assert(r * nm1i + nm1i == (r + 1) * nm1i) by (nonlinear_arith);
                assert(r * nm1i <= k < r * nm1i + nm1i);
                assert(nm1i > 0);
                vstd::arithmetic::div_mod::lemma_fundamental_div_mod_converse_div(
                    k,
                    nm1i,
                    r,
                    k - r * nm1i,
                );
                vstd::arithmetic::div_mod::lemma_fundamental_div_mod_converse_mod(
                    k,
                    nm1i,
                    r,
                    k - r * nm1i,
                );
            }
            assert forall|t: int|
                #![trigger self.row2idx@[t], self.row2idx@[t + 1]]
                0 <= t < num_row implies self.row2idx@[t] <= self.row2idx@[t + 1] by {
                assert((t + 1) * nm1i == t * nm1i + nm1i) by (nonlinear_arith);
            }
            assert forall|t: int| 0 <= t < num_row implies self.row2idx@[t]
                <= #[trigger] self.row2idx_dia@[t] && self.row2idx_dia@[t] <= self.row2idx@[t + 1]
                by {
                assert((t + 1) * nm1i == t * nm1i + nm1i) by (nonlinear_arith);
                assert(t * nm1i <= t * nm1i + t);
                assert(t <= nm1i);
            }
            assert forall|r: int, k: int|
                #![trigger self.row2idx@[r], self.idx2col@[k]]
                0 <= r < num_row && self.row2idx@[r] <= k < self.row2idx@[r + 1] implies
                self.idx2col@[k] < num_row && self.idx2col@[k] != r by {
                assert((r + 1) * nm1i == r * nm1i + nm1i) by (nonlinear_arith);
                assert((r + 1) * nm1i <= num_row * nm1i) by (nonlinear_arith)
                    requires
                        r + 1 <= num_row,
                        nm1i >= 0,
                ;
                assert(r * nm1i <= k < r * nm1i + nm1i);
                vstd::arithmetic::div_mod::lemma_fundamental_div_mod_converse_div(
                    k,
                    nm1i,
                    r,
                    k - r * nm1i,
                );
                vstd::arithmetic::div_mod::lemma_fundamental_div_mod_converse_mod(
                    k,
                    nm1i,
                    r,
                    k - r * nm1i,
                );
            }
            assert forall|r: int, k1: int, k2: int|
                #![trigger self.row2idx@[r], self.idx2col@[k1], self.idx2col@[k2]]
                0 <= r < num_row && self.row2idx@[r] <= k1 < k2 < self.row2idx@[r + 1] implies
                self.idx2col@[k1] < self.idx2col@[k2] by {
                assert((r + 1) * nm1i == r * nm1i + nm1i) by (nonlinear_arith);
                assert((r + 1) * nm1i <= num_row * nm1i) by (nonlinear_arith)
                    requires
                        r + 1 <= num_row,
                        nm1i >= 0,
                ;
                assert(r * nm1i <= k1 < r * nm1i + nm1i);
                vstd::arithmetic::div_mod::lemma_fundamental_div_mod_converse_mod(
                    k1,
                    nm1i,
                    r,
                    k1 - r * nm1i,
                );
                vstd::arithmetic::div_mod::lemma_fundamental_div_mod_converse_div(
                    k1,
                    nm1i,
                    r,
                    k1 - r * nm1i,
                );
                assert(r * nm1i <= k2 < r * nm1i + nm1i);
                vstd::arithmetic::div_mod::lemma_fundamental_div_mod_converse_mod(
                    k2,
                    nm1i,
                    r,
                    k2 - r * nm1i,
                );
                vstd::arithmetic::div_mod::lemma_fundamental_div_mod_converse_div(
                    k2,
                    nm1i,
                    r,
                    k2 - r * nm1i,
                );
            }
            assert forall|t: int, k: int|
                #![trigger self.row2idx_dia@[t], self.idx2col@[k]]
                0 <= t < num_row && self.row2idx@[t] <= k < self.row2idx_dia@[t] implies
                self.idx2col@[k] < t by {
                assert((t + 1) * nm1i == t * nm1i + nm1i) by (nonlinear_arith);
                assert((t + 1) * nm1i <= num_row * nm1i) by (nonlinear_arith)
                    requires
                        t + 1 <= num_row,
                        nm1i >= 0,
                ;
                assert(t * nm1i <= k < t * nm1i + nm1i);
                vstd::arithmetic::div_mod::lemma_fundamental_div_mod_converse_mod(
                    k,
                    nm1i,
                    t,
                    k - t * nm1i,
                );
                vstd::arithmetic::div_mod::lemma_fundamental_div_mod_converse_div(
                    k,
                    nm1i,
                    t,
                    k - t * nm1i,
                );
            }
            assert forall|t: int, k: int|
                #![trigger self.row2idx_dia@[t], self.idx2col@[k]]
                0 <= t < num_row && self.row2idx_dia@[t] <= k < self.row2idx@[t + 1] implies
                self.idx2col@[k] > t by {
                assert((t + 1) * nm1i == t * nm1i + nm1i) by (nonlinear_arith);
                assert((t + 1) * nm1i <= num_row * nm1i) by (nonlinear_arith)
                    requires
                        t + 1 <= num_row,
                        nm1i >= 0,
                ;
                assert(t * nm1i <= k < t * nm1i + nm1i);
                vstd::arithmetic::div_mod::lemma_fundamental_div_mod_converse_mod(
                    k,
                    nm1i,
                    t,
                    k - t * nm1i,
                );
                vstd::arithmetic::div_mod::lemma_fundamental_div_mod_converse_div(
                    k,
                    nm1i,
                    t,
                    k - t * nm1i,
                );
            }
            assert forall|i4: int, j4: int|
                0 <= i4 < num_row && 0 <= j4 < num_row && j4 != i4 implies in_pattern(
                self.row2idx@,
                self.idx2col@,
                i4,
                j4,
            ) by {
                let o: int = if j4 < i4 {
                    j4
                } else {
                    j4 - 1
                };
                let kw = i4 * nm1i + o;
                assert(i4 * nm1i + nm1i == (i4 + 1) * nm1i) by (nonlinear_arith);
                assert((i4 + 1) * nm1i <= num_row * nm1i) by (nonlinear_arith)
                    requires
                        i4 + 1 <= num_row,
                        nm1i >= 0,
                ;
                assert(0 <= i4 * nm1i) by (nonlinear_arith)
                    requires
                        i4 >= 0,
                        nm1i >= 0,
                ;
                vstd::arithmetic::div_mod::lemma_fundamental_div_mod_converse_div(kw, nm1i, i4, o);
                vstd::arithmetic::div_mod::lemma_fundamental_div_mod_converse_mod(kw, nm1i, i4, o);
                assert(self.idx2col@[kw] as int == j4);
                assert(self.row2idx@[i4] <= kw < self.row2idx@[i4 + 1]);
            }
        }
    }
}

/// Transfers the source matrix's values into the (possibly fill-extended)
/// preconditioner pattern: the diagonal is copied row by row, every
/// preconditioner entry whose column also appears in the source row takes the
/// source value, and every fill entry is left at zero. Every source column
/// must appear in the preconditioner pattern.
#[verifier::loop_isolation(false)]
#[verifier::rlimit(100)]
pub fn copy_value(ilu: &mut Preconditioner, a: &crate::sparse_square::Matrix)
    requires
        old(ilu).wf(),
        a.wf(),
        a.num_blk == old(ilu).num_blk,
        forall|i: int, k: int|
            #![trigger a.row2idx@[i], a.idx2col@[k]]
            0 <= i < a.num_blk && a.row2idx@[i] <= k < a.row2idx@[i + 1] ==> in_pattern(
                old(ilu).row2idx@,
                old(ilu).idx2col@,
                i,
                a.idx2col@[k] as int,
            ),
    ensures
        final(ilu).wf(),
        final(ilu).num_blk == old(ilu).num_blk,
        final(ilu).row2idx@ == old(ilu).row2idx@,
        final(ilu).idx2col@ == old(ilu).idx2col@,
        final(ilu).row2idx_dia@ == old(ilu).row2idx_dia@,
        final(ilu).row2val@ == a.row2val@,
        final(ilu).idx2val@.len() == old(ilu).idx2val@.len(),
        forall|i: int, k: int|
            #![trigger old(ilu).row2idx@[i], final(ilu).idx2val@[k]]
            0 <= i < old(ilu).num_blk && old(ilu).row2idx@[i] <= k < old(ilu).row2idx@[i + 1]
                ==> final(ilu).idx2val@[k] == (if in_pattern(
                a.row2idx@,
                a.idx2col@,
                i,
                old(ilu).idx2col@[k] as int,
            ) {
                a.idx2val@[idx_of(a.row2idx@, a.idx2col@, i, old(ilu).idx2col@[k] as int)]
            } else {
                0i64
            }),
{
    let num_row = ilu.num_blk;
    proof {
        assert forall|i: int| 0 <= i <= num_row as int implies #[trigger] old(ilu).row2idx@[i]
            <= old(ilu).idx2val@.len() by {
            lemma_row2idx_le(old(ilu).row2idx@, old(ilu).idx2col@, num_row as int, i, num_row as int);
        }
        assert forall|i: int| 0 <= i <= num_row as int implies #[trigger] a.row2idx@[i]
            <= a.idx2val@.len() by {
            lemma_row2idx_le(a.row2idx@, a.idx2col@, num_row as int, i, num_row as int);
        }
    }
    let mut col2idx: Vec<usize> = vec![usize::MAX; num_row];
    crate::slice::copy(&mut ilu.row2val, &a.row2val);
    crate::slice::set_zero(&mut ilu.idx2val);
    let mut i_row: usize = 0;
    while i_row < num_row
        invariant
            i_row <= num_row,
            ilu.num_blk == old(ilu).num_blk,
            ilu.row2idx@ == old(ilu).row2idx@,
            ilu.idx2col@ == old(ilu).idx2col@,
            ilu.row2idx_dia@ == old(ilu).row2idx_dia@,
            ilu.row2val@ == a.row2val@,
            ilu.idx2val@.len() == old(ilu).idx2val@.len(),
            col2idx@.len() == num_row,
            forall|c: int| 0 <= c < num_row ==> #[trigger] col2idx@[c] == usize::MAX,
            forall|i: int, k: int|
                #![trigger old(ilu).row2idx@[i], ilu.idx2val@[k]]
                0 <= i < num_row && old(ilu).row2idx@[i] <= k < old(ilu).row2idx@[i + 1]
                    ==> ilu.idx2val@[k] == (if i < i_row && in_pattern(
                    a.row2idx@,
                    a.idx2col@,
                    i,
                    old(ilu).idx2col@[k] as int,
                ) {
                    a.idx2val@[idx_of(a.row2idx@, a.idx2col@, i, old(ilu).idx2col@[k] as int)]
                } else {
                    0i64
                }),
        decreases num_row - i_row,
    {
        proof {
            lemma_row2idx_le(ilu.row2idx@, ilu.idx2col@, num_row as int, i_row + 1, num_row as int);
            lemma_row2idx_le(a.row2idx@, a.idx2col@, num_row as int, i_row + 1, num_row as int);
        }
        let lo = ilu.row2idx[i_row];
        let hi = ilu.row2idx[i_row + 1];
        let mut idx0 = lo;
        while idx0 < hi
            invariant
                lo <= idx0 <= hi,
                col2idx@.len() == num_row,
                forall|k: int|
                    lo <= k < idx0 ==> col2idx@[#[trigger] ilu.idx2col@[k] as int] == k,
                forall|c: int|
                    0 <= c < num_row && !(exists|k: int|
                        lo <= k < idx0 && ilu.idx2col@[k] as int == c) ==> #[trigger] col2idx@[c]
                        == usize::MAX,
            decreases hi - idx0,
        {
            let icol = ilu.idx2col[idx0];
            assert(icol < num_row);
            assert forall|k: int| lo <= k < idx0 implies #[trigger] ilu.idx2col@[k] as int
                != icol as int by {};
            col2idx.set(icol, idx0);
            idx0 = idx0 + 1;
        }
        let a_lo = a.row2idx[i_row];
        let a_hi = a.row2idx[i_row + 1];
        let mut a_idx = a_lo;
        while a_idx < a_hi
            invariant
                a_lo <= a_idx <= a_hi,
                ilu.num_blk == old(ilu).num_blk,
                ilu.row2idx@ == old(ilu).row2idx@,
                ilu.idx2col@ == old(ilu).idx2col@,
                ilu.row2idx_dia@ == old(ilu).row2idx_dia@,
                ilu.row2val@ == a.row2val@,
                ilu.idx2val@.len() == old(ilu).idx2val@.len(),
                forall|i: int, k: int|
                    #![trigger old(ilu).row2idx@[i], ilu.idx2val@[k]]
                    0 <= i < num_row && i != i_row as int && old(ilu).row2idx@[i] <= k < old(
                        ilu,
                    ).row2idx@[i + 1] ==> ilu.idx2val@[k] == (if i < i_row as int && in_pattern(
                        a.row2idx@,
                        a.idx2col@,
                        i,
                        old(ilu).idx2col@[k] as int,
                    ) {
                        a.idx2val@[idx_of(a.row2idx@, a.idx2col@, i, old(ilu).idx2col@[k] as int)]
                    } else {
                        0i64
                    }),
                forall|t: int|
                    a_lo <= t < a_idx ==> ilu.idx2val@[idx_of(
                        old(ilu).row2idx@,
                        old(ilu).idx2col@,
                        i_row as int,
                        #[trigger] a.idx2col@[t] as int,
                    )] == a.idx2val@[t],
                forall|k: int|
                    #![trigger ilu.idx2val@[k]]
                    old(ilu).row2idx@[i_row as int] <= k < old(ilu).row2idx@[i_row as int + 1]
                        && !(exists|t: int|
                        a_lo <= t < a_idx && a.idx2col@[t] as int == old(ilu).idx2col@[k] as int)
                        ==> ilu.idx2val@[k] == 0i64,
            decreases a_hi - a_idx,
        {
            let j_col = a.idx2col[a_idx];
            assert(j_col < num_row);
            assert(in_pattern(old(ilu).row2idx@, old(ilu).idx2col@, i_row as int, j_col as int));
            let ghost k0: int = choose|k: int|
                old(ilu).row2idx@[i_row as int] <= k < old(ilu).row2idx@[i_row as int + 1]
                    && #[trigger] old(ilu).idx2col@[k] == j_col as int;
            assert(col2idx@[j_col as int] == k0);
            let pos = col2idx[j_col];
            assert(pos == k0);
            assert(lo <= pos < hi);
            assert(ilu.idx2col@[pos as int] == j_col);
            let v = a.idx2val[a_idx];
            ilu.idx2val.set(pos, v);
            proof {
                assert(idx_of(
                    old(ilu).row2idx@,
                    old(ilu).idx2col@,
                    i_row as int,
                    a.idx2col@[a_idx as int] as int,
                ) == k0);
                assert forall|t: int| a_lo <= t < a_idx implies ilu.idx2val@[idx_of(
                    old(ilu).row2idx@,
                    old(ilu).idx2col@,
                    i_row as int,
                    #[trigger] a.idx2col@[t] as int,
                )] == a.idx2val@[t] by {
                    assert(a.idx2col@[t] < a.idx2col@[a_idx as int]);
                    let kt = idx_of(
                        old(ilu).row2idx@,
                        old(ilu).idx2col@,
                        i_row as int,
                        a.idx2col@[t] as int,
                    );
                    assert(in_pattern(
                        old(ilu).row2idx@,
                        old(ilu).idx2col@,
                        i_row as int,
                        a.idx2col@[t] as int,
                    ));
                    assert(old(ilu).idx2col@[kt] as int == a.idx2col@[t] as int);
                    assert(kt != k0);
                };
                assert forall|i: int, k: int|
                    #![trigger old(ilu).row2idx@[i], ilu.idx2val@[k]]
                    0 <= i < num_row && i != i_row as int && old(ilu).row2idx@[i] <= k < old(
                        ilu,
                    ).row2idx@[i + 1] implies k != k0 by {
                    crate::sparse_square::lemma_slices_disjoint(
                        old(ilu).row2idx@,
                        old(ilu).idx2col@,
                        num_row as int,
                        i_row as int,
                        i,
                        k0,
                    );
                };
            }
            a_idx = a_idx + 1;
        }
        proof {
            assert forall|k: int|
                old(ilu).row2idx@[i_row as int] <= k < old(ilu).row2idx@[i_row as int + 1] implies
                ilu.idx2val@[k] == (if in_pattern(
                a.row2idx@,
                a.idx2col@,
                i_row as int,
                old(ilu).idx2col@[k] as int,
            ) {
                a.idx2val@[idx_of(a.row2idx@, a.idx2col@, i_row as int, old(ilu).idx2col@[k] as int)]
            } else {
                0i64
            }) by {
                let c = old(ilu).idx2col@[k] as int;
                if in_pattern(a.row2idx@, a.idx2col@, i_row as int, c) {
                    let t0 = idx_of(a.row2idx@, a.idx2col@, i_row as int, c);
                    assert(a.idx2col@[t0] as int == c);
                    let kt = idx_of(old(ilu).row2idx@, old(ilu).idx2col@, i_row as int, c);
                    assert(old(ilu).idx2col@[kt] as int == c);
                    assert(ilu.idx2val@[kt] == a.idx2val@[t0]);
                    assert(kt == k);
                } else {
                    assert forall|t: int| a_lo <= t < a_hi implies a.idx2col@[t] as int != c by {
                        if a.idx2col@[t] as int == c {
                            assert(in_pattern(a.row2idx@, a.idx2col@, i_row as int, c));
                        }
                    };
                }
            };
        }
        let mut idx2 = lo;
        while idx2 < hi
            invariant
                lo <= idx2 <= hi,
                col2idx@.len() == num_row,
                forall|k: int|
                    idx2 <= k < hi ==> col2idx@[#[trigger] ilu.idx2col@[k] as int] == k,
                forall|c: int|
                    0 <= c < num_row && !(exists|k: int|
                        idx2 <= k < hi && ilu.idx2col@[k] as int == c) ==> #[trigger] col2idx@[c]
                        == usize::MAX,
            decreases hi - idx2,
        {
            let jc = ilu.idx2col[idx2];
            assert(jc < num_row);
            assert forall|k: int| idx2 < k < hi implies #[trigger] ilu.idx2col@[k] as int
                != jc as int by {};
            col2idx.set(jc, usize::MAX);
            idx2 = idx2 + 1;
        }
        i_row = i_row + 1;
    }
}

/// The integer values held by a vector of machine scalars.
pub open spec fn ints(s: Seq<i64>) -> Seq<int> {
    Seq::new(s.len(), |i: int| s[i] as int)
}

/// Truncated integer division: the machine quotient of `a` by `b`, rounding
/// toward zero. Kept opaque: the contracts pass the quotient through
/// symbolically, and only `quot` computes it.
#[verifier::opaque]
pub open spec fn tdiv(a: int, b: int) -> int {
    if a == 0 {
        0
    } else if a > 0 && b > 0 {
        a / b
    } else if a < 0 && b < 0 {
        (a * -1) / (b * -1)
    } else if a < 0 {
        ((a * -1) / b) * -1
    } else {
        (a / (b * -1)) * -1
    }
}

/// Value of `v[i]` after subtracting the first `t` lower-entry products of
/// row `i`, each reading the already-finished entries of `v` below row `i`.
pub open spec fn fwd_row_sub(p: Preconditioner, v: Seq<int>, i: int, t: int) -> int
    decreases t,
{
    if t <= 0 {
        v[i]
    } else {
        fwd_row_sub(p, v, i, t - 1) - p.idx2val@[p.row2idx@[i] + t - 1] * v[p.idx2col@[p.row2idx@[i]
            + t - 1] as int]
    }
}

/// The vector after the forward sweep has finished rows `0 .. i`: each row
/// subtracts its lower products and is then scaled by the stored inverted
/// diagonal.
pub open spec fn fwd_state(p: Preconditioner, v0: Seq<int>, i: int) -> Seq<int>
    decreases i,
{
    if i <= 0 {
        v0
    } else {
        let v = fwd_state(p, v0, i - 1);
        v.update(
            i - 1,
            tdiv(
                fwd_row_sub(p, v, i - 1, p.row2idx_dia@[i - 1] - p.row2idx@[i - 1]),
                p.row2val@[i - 1] as int,
            ),
        )
    }
}

/// Value of `v[i]` after subtracting the first `t` upper-entry products of
/// row `i`, each reading the already-finished entries of `v` above row `i`.
pub open spec fn bwd_row_sub(p: Preconditioner, v: Seq<int>, i: int, t: int) -> int
    decreases t,
{
    if t <= 0 {
        v[i]
    } else {
        bwd_row_sub(p, v, i, t - 1) - tdiv(
            p.idx2val@[p.row2idx_dia@[i] + t - 1] * v[p.idx2col@[p.row2idx_dia@[i] + t - 1] as int],
            p.row2val@[i] as int,
        )
    }
}

/// The vector after the backward sweep has finished rows `i .. num_blk`,
/// walked in descending order.
pub open spec fn bwd_state(p: Preconditioner, w0: Seq<int>, i: int) -> Seq<int>
    decreases p.num_blk - i,
{
    if i >= p.num_blk {
        w0
    } else {
        let w = bwd_state(p, w0, i + 1);
        w.update(i, bwd_row_sub(p, w, i, p.row2idx@[i + 1] - p.row2idx_dia@[i]))
    }
}

/// The forward sweep keeps the vector's length.
pub proof fn lemma_fwd_state_len(p: Preconditioner, v0: Seq<int>, i: int)
    requires
        i <= v0.len(),
    ensures
        fwd_state(p, v0, i).len() == v0.len(),
    decreases i,
{
    if i > 0 {
        lemma_fwd_state_len(p, v0, i - 1);
    }
}

/// The backward sweep keeps the vector's length.
pub proof fn lemma_bwd_state_len(p: Preconditioner, w0: Seq<int>, i: int)
    requires
        0 <= i,
        p.num_blk <= w0.len(),
    ensures
        bwd_state(p, w0, i).len() == w0.len(),
    decreases p.num_blk - i,
{
    if i < p.num_blk {
        lemma_bwd_state_len(p, w0, i + 1);
    }
}

/// Every intermediate of the two substitution sweeps stays within the machine
/// scalar's range.
pub open spec fn precond_apply_fits(p: Preconditioner, v0: Seq<int>) -> bool {
    let n = p.num_blk as int;
    let w0 = fwd_state(p, v0, n);
    &&& forall|i: int, t: int|
        #![trigger fwd_row_sub(p, fwd_state(p, v0, i), i, t)]
        0 <= i < n && 0 <= t <= p.row2idx_dia@[i] - p.row2idx@[i] ==> fits_i64(
            fwd_row_sub(p, fwd_state(p, v0, i), i, t),
        )
    &&& forall|i: int, k: int|
        #![trigger p.row2idx_dia@[i], p.idx2val@[k]]
        0 <= i < n && p.row2idx@[i] <= k < p.row2idx_dia@[i] ==> fits_i64(
            p.idx2val@[k] * fwd_state(p, v0, i)[p.idx2col@[k] as int],
        )
    &&& forall|i: int|
        0 <= i < n ==> fits_i64(
            tdiv(
                fwd_row_sub(p, fwd_state(p, v0, i), i, p.row2idx_dia@[i] - p.row2idx@[i]),
                #[trigger] p.row2val@[i] as int,
            ),
        )
    &&& forall|i: int, t: int|
        #![trigger bwd_row_sub(p, bwd_state(p, w0, i + 1), i, t)]
        0 <= i < n && 0 <= t <= p.row2idx@[i + 1] - p.row2idx_dia@[i] ==> fits_i64(
            bwd_row_sub(p, bwd_state(p, w0, i + 1), i, t),
        )
    &&& forall|i: int, k: int|
        #![trigger p.row2idx_dia@[i], p.idx2val@[k]]
        0 <= i < n && p.row2idx_dia@[i] <= k < p.row2idx@[i + 1] ==> fits_i64(
            p.idx2val@[k] * bwd_state(p, w0, i + 1)[p.idx2col@[k] as int],
        )
    &&& forall|i: int, k: int|
        #![trigger p.row2idx_dia@[i], p.idx2val@[k]]
        0 <= i < n && p.row2idx_dia@[i] <= k < p.row2idx@[i + 1] ==> fits_i64(
            tdiv(
                p.idx2val@[k] * bwd_state(p, w0, i + 1)[p.idx2col@[k] as int],
                p.row2val@[i] as int,
            ),
        )
}

/// The machine quotient of `a` by `b`; callers rule out a zero divisor and a
/// quotient outside the scalar's range.
fn quot(a: i64, b: i64) -> (r: i64)
    requires
        b != 0,
        fits_i64(tdiv(a as int, b as int)),
    ensures
        r as int == tdiv(a as int, b as int),
{
    let q = a.checked_div(b);
    proof {
        reveal(tdiv);
    }
    assert(q == Some((tdiv(a as int, b as int)) as i64));
    q.unwrap()
}

/// Forward sweep: finishes rows in ascending order, subtracting the
/// strictly-lower products and dividing by the row's stored pivot.
#[verifier::loop_isolation(false)]
#[verifier::rlimit(100)]
#[verifier::spinoff_prover]
fn forward_sweep(vec: &mut Vec<i64>, ilu: &Preconditioner)
    requires
        ilu.wf(),
        old(vec)@.len() == ilu.num_blk,
        forall|i: int, t: int|
            #![trigger fwd_row_sub(*ilu, fwd_state(*ilu, ints(old(vec)@), i), i, t)]
            0 <= i < ilu.num_blk && 0 <= t <= ilu.row2idx_dia@[i] - ilu.row2idx@[i] ==> fits_i64(
                fwd_row_sub(*ilu, fwd_state(*ilu, ints(old(vec)@), i), i, t),
            ),
        forall|i: int, k: int|
            #![trigger ilu.row2idx_dia@[i], ilu.idx2val@[k]]
            0 <= i < ilu.num_blk && ilu.row2idx@[i] <= k < ilu.row2idx_dia@[i] ==> fits_i64(
                ilu.idx2val@[k] * fwd_state(*ilu, ints(old(vec)@), i)[ilu.idx2col@[k] as int],
            ),
        forall|i: int| 0 <= i < ilu.num_blk ==> #[trigger] ilu.row2val@[i] != 0i64,
        forall|i: int|
            0 <= i < ilu.num_blk ==> fits_i64(
                tdiv(
                    fwd_row_sub(
                        *ilu,
                        fwd_state(*ilu, ints(old(vec)@), i),
                        i,
                        ilu.row2idx_dia@[i] - ilu.row2idx@[i],
                    ),
                    #[trigger] ilu.row2val@[i] as int,
                ),
            ),
    ensures
        final(vec)@.len() == ilu.num_blk,
        forall|j: int|
            0 <= j < ilu.num_blk ==> final(vec)@[j] as int == fwd_state(
                *ilu,
                ints(old(vec)@),
                ilu.num_blk as int,
            )[j],
{
    let num_row = ilu.num_blk;
    let ghost v0 = ints(old(vec)@);
    proof {
        assert forall|i: int| 0 <= i <= num_row as int implies #[trigger] ilu.row2idx@[i]
            <= ilu.idx2val@.len() by {
            lemma_row2idx_le(ilu.row2idx@, ilu.idx2col@, num_row as int, i, num_row as int);
        }
    }
    let mut i_row: usize = 0;
    while i_row < num_row
        invariant
            i_row <= num_row,
            vec@.len() == num_row,
            forall|j: int| 0 <= j < num_row ==> vec@[j] as int == fwd_state(*ilu, v0, i_row as int)[j],
        decreases num_row - i_row,
    {
        let ghost st = fwd_state(*ilu, v0, i_row as int);
        proof {
            lemma_fwd_state_len(*ilu, v0, i_row as int);
            lemma_fwd_state_len(*ilu, v0, i_row as int + 1);
        }
        let lo = ilu.row2idx[i_row];
        let dia = ilu.row2idx_dia[i_row];
        let mut ij = lo;
        while ij < dia
            invariant
                lo <= ij <= dia,
                vec@.len() == num_row,
                forall|j: int| 0 <= j < num_row && j != i_row as int ==> vec@[j] as int == st[j],
                vec@[i_row as int] as int == fwd_row_sub(*ilu, st, i_row as int, ij - lo),
            decreases dia - ij,
        {
            let j_col = ilu.idx2col[ij];
            assert(j_col < i_row);
            assert(fits_i64(ilu.idx2val@[ij as int] * st[j_col as int]));
            let prod = ilu.idx2val[ij] * vec[j_col];
            assert(fwd_row_sub(*ilu, st, i_row as int, ij - lo + 1) == fwd_row_sub(
                *ilu,
                st,
                i_row as int,
                ij - lo,
            ) - ilu.idx2val@[ij as int] * st[ilu.idx2col@[ij as int] as int]);
            let nv = vec[i_row] - prod;
            vec.set(i_row, nv);
            ij = ij + 1;
        }
        assert(fits_i64(
            tdiv(
                fwd_row_sub(
                    *ilu,
                    st,
                    i_row as int,
                    ilu.row2idx_dia@[i_row as int] - ilu.row2idx@[i_row as int],
                ),
                ilu.row2val@[i_row as int] as int,
            ),
        ));
        let d = ilu.row2val[i_row];
        let scaled = quot(vec[i_row], d);
        vec.set(i_row, scaled);
        proof {
            assert(fwd_state(*ilu, v0, i_row as int + 1) =~= st.update(
                i_row as int,
                tdiv(
                    fwd_row_sub(
                        *ilu,
                        st,
                        i_row as int,
                        ilu.row2idx_dia@[i_row as int] - ilu.row2idx@[i_row as int],
                    ),
                    ilu.row2val@[i_row as int] as int,
                ),
            ));
        }
        i_row = i_row + 1;
    }
}

/// Backward sweep: finishes rows in descending order, subtracting the
/// strictly-upper products; no further scaling is applied.
#[verifier::loop_isolation(false)]
#[verifier::rlimit(100)]
#[verifier::spinoff_prover]
fn backward_sweep(vec: &mut Vec<i64>, ilu: &Preconditioner)
    requires
        ilu.wf(),
        old(vec)@.len() == ilu.num_blk,
        forall|i: int, t: int|
            #![trigger bwd_row_sub(*ilu, bwd_state(*ilu, ints(old(vec)@), i + 1), i, t)]
            0 <= i < ilu.num_blk && 0 <= t <= ilu.row2idx@[i + 1] - ilu.row2idx_dia@[i]
                ==> fits_i64(bwd_row_sub(*ilu, bwd_state(*ilu, ints(old(vec)@), i + 1), i, t)),
        forall|i: int| 0 <= i < ilu.num_blk ==> #[trigger] ilu.row2val@[i] != 0i64,
        forall|i: int, k: int|
            #![trigger ilu.row2idx_dia@[i], ilu.idx2val@[k]]
            0 <= i < ilu.num_blk && ilu.row2idx_dia@[i] <= k < ilu.row2idx@[i + 1] ==> fits_i64(
                ilu.idx2val@[k] * bwd_state(*ilu, ints(old(vec)@), i + 1)[ilu.idx2col@[k] as int],
            ),
        forall|i: int, k: int|
            #![trigger ilu.row2idx_dia@[i], ilu.idx2val@[k]]
            0 <= i < ilu.num_blk && ilu.row2idx_dia@[i] <= k < ilu.row2idx@[i + 1] ==> fits_i64(
                tdiv(
                    ilu.idx2val@[k] * bwd_state(*ilu, ints(old(vec)@), i + 1)[ilu.idx2col@[k] as int],
                    ilu.row2val@[i] as int,
                ),
            ),
    ensures
        final(vec)@.len() == ilu.num_blk,
        forall|j: int|
            0 <= j < ilu.num_blk ==> final(vec)@[j] as int == bwd_state(
                *ilu,
                ints(old(vec)@),
                0,
            )[j],
{
    let num_row = ilu.num_blk;
    let ghost w0 = ints(old(vec)@);
    proof {
        assert forall|i: int| 0 <= i <= num_row as int implies #[trigger] ilu.row2idx@[i]
            <= ilu.idx2val@.len() by {
            lemma_row2idx_le(ilu.row2idx@, ilu.idx2col@, num_row as int, i, num_row as int);
        }
        lemma_bwd_state_len(*ilu, w0, num_row as int);
    }
    let mut ir = num_row;
    while ir > 0
        invariant
            ir <= num_row,
            vec@.len() == num_row,
            forall|j: int| 0 <= j < num_row ==> vec@[j] as int == bwd_state(*ilu, w0, ir as int)[j],
        decreases ir,
    {
        ir = ir - 1;
        let ghost wt = bwd_state(*ilu, w0, ir as int + 1);
        proof {
            lemma_bwd_state_len(*ilu, w0, ir as int + 1);
            lemma_bwd_state_len(*ilu, w0, ir as int);
        }
        let dia = ilu.row2idx_dia[ir];
        let hi = ilu.row2idx[ir + 1];
        let d_ir = ilu.row2val[ir];
        let mut ij = dia;
        while ij < hi
            invariant
                dia <= ij <= hi,
                vec@.len() == num_row,
                forall|j: int| 0 <= j < num_row && j != ir as int ==> vec@[j] as int == wt[j],
                vec@[ir as int] as int == bwd_row_sub(*ilu, wt, ir as int, ij - dia),
            decreases hi - ij,
        {
            let j_col = ilu.idx2col[ij];
            assert(ir < j_col && j_col < num_row);
            assert(fits_i64(ilu.idx2val@[ij as int] * wt[j_col as int]));
            assert(fits_i64(
                tdiv(
                    ilu.idx2val@[ij as int] * wt[j_col as int],
                    ilu.row2val@[ir as int] as int,
                ),
            ));
            let prod = ilu.idx2val[ij] * vec[j_col];
            let q = quot(prod, d_ir);
            assert(bwd_row_sub(*ilu, wt, ir as int, ij - dia + 1) == bwd_row_sub(
                *ilu,
                wt,
                ir as int,
                ij - dia,
            ) - tdiv(
                ilu.idx2val@[ij as int] * wt[ilu.idx2col@[ij as int] as int],
                ilu.row2val@[ir as int] as int,
            ));
            let nv = vec[ir] - q;
            vec.set(ir, nv);
            ij = ij + 1;
        }
        proof {
            assert(bwd_state(*ilu, w0, ir as int) =~= wt.update(
                ir as int,
                bwd_row_sub(
                    *ilu,
                    wt,
                    ir as int,
                    ilu.row2idx@[ir as int + 1] - ilu.row2idx_dia@[ir as int],
                ),
            ));
        }
    }
}

/// Applies the incomplete factors to `vec` in place: a forward sweep through
/// the strictly-lower part that finishes each row by dividing by its stored
/// pivot, then a backward sweep through the strictly-upper part whose
/// products are divided by the owning row's pivot. This computes the
/// preconditioning step `z = M^-1 * r` for the decomposed factor storage.
#[verifier::rlimit(100)]
#[verifier::spinoff_prover]
pub fn solve_preconditioning(vec: &mut Vec<i64>, ilu: &Preconditioner)
    requires
        ilu.wf(),
        old(vec)@.len() == ilu.num_blk,
        forall|i: int| 0 <= i < ilu.num_blk ==> #[trigger] ilu.row2val@[i] != 0i64,
        precond_apply_fits(*ilu, ints(old(vec)@)),
    ensures
        final(vec)@.len() == ilu.num_blk,
        forall|j: int|
            0 <= j < ilu.num_blk ==> final(vec)@[j] as int == bwd_state(
                *ilu,
                fwd_state(*ilu, ints(old(vec)@), ilu.num_blk as int),
                0,
            )[j],
{
    let ghost v0 = ints(old(vec)@);
    let ghost w0 = fwd_state(*ilu, v0, ilu.num_blk as int);
    forward_sweep(vec, ilu);
    proof {
        lemma_fwd_state_len(*ilu, v0, ilu.num_blk as int);
        assert(ints(vec@) =~= w0);
    }
    backward_sweep(vec, ilu);
}

/// One elimination update: while processing lower entry `ik_idx` of row `i`,
/// the upper entry `kj_idx` of the pivot row subtracts the machine quotient
/// of the product of the two current values by the pivot row's diagonal from
/// row `i`'s entry in column `j` — the diagonal if `j == i`, the pattern
/// entry if present, and nothing at all if the fill falls outside the
/// pattern (the defining approximation of an incomplete factorization).
#[verifier::opaque]
pub open spec fn dec_kj_step(
    p: Preconditioner,
    off: Seq<int>,
    dia: Seq<int>,
    i: int,
    ik_idx: int,
    kj_idx: int,
) -> (Seq<int>, Seq<int>) {
    let k = p.idx2col@[ik_idx] as int;
    let j = p.idx2col@[kj_idx] as int;
    let q = tdiv(off[ik_idx] * off[kj_idx], dia[k]);
    if j == i {
        (off, dia.update(i, dia[i] - q))
    } else if in_pattern(p.row2idx@, p.idx2col@, i, j) {
        let t = idx_of(p.row2idx@, p.idx2col@, i, j);
        (off.update(t, off[t] - q), dia)
    } else {
        (off, dia)
    }
}

/// State after the first `t` upper entries of the pivot row named by lower
/// entry `ik_idx` have been applied to row `i`.
pub open spec fn dec_inner(
    p: Preconditioner,
    off: Seq<int>,
    dia: Seq<int>,
    i: int,
    ik_idx: int,
    t: int,
) -> (Seq<int>, Seq<int>)
    decreases t,
{
    if t <= 0 {
        (off, dia)
    } else {
        let k = p.idx2col@[ik_idx] as int;
        let s = dec_inner(p, off, dia, i, ik_idx, t - 1);
        dec_kj_step(p, s.0, s.1, i, ik_idx, p.row2idx_dia@[k] + t - 1)
    }
}

/// State after the first `u` lower entries of row `i` have been fully
/// processed.
pub open spec fn dec_lower(
    p: Preconditioner,
    off: Seq<int>,
    dia: Seq<int>,
    i: int,
    u: int,
) -> (Seq<int>, Seq<int>)
    decreases u,
{
    if u <= 0 {
        (off, dia)
    } else {
        let s = dec_lower(p, off, dia, i, u - 1);
        let ik_idx = p.row2idx@[i] + u - 1;
        let k = p.idx2col@[ik_idx] as int;
        dec_inner(p, s.0, s.1, i, ik_idx, p.row2idx@[k + 1] - p.row2idx_dia@[k])
    }
}

/// State after rows `0 .. i` have been decomposed in place: each row
/// subtracts from its entries the quotients formed with the already-finished
/// rows; the diagonal keeps each row's eliminated pivot.
pub open spec fn dec_rows(
    p: Preconditioner,
    off0: Seq<int>,
    dia0: Seq<int>,
    i: int,
) -> (Seq<int>, Seq<int>)
    decreases i,
{
    if i <= 0 {
        (off0, dia0)
    } else {
        let s = dec_rows(p, off0, dia0, i - 1);
        dec_lower(p, s.0, s.1, i - 1, p.row2idx_dia@[i - 1] - p.row2idx@[i - 1])
    }
}

/// State of `p`'s own values when its decomposition reaches row `i`.
pub open spec fn dec_row_start(p: Preconditioner, i: int) -> (Seq<int>, Seq<int>) {
    dec_rows(p, ints(p.idx2val@), ints(p.row2val@), i)
}

/// State of row `i`'s elimination after its first `u` lower entries.
pub open spec fn dec_mid(p: Preconditioner, i: int, u: int) -> (Seq<int>, Seq<int>) {
    dec_lower(p, dec_row_start(p, i).0, dec_row_start(p, i).1, i, u)
}

/// State of row `i`'s elimination at lower entry `u`, after `t` upper entries
/// of the pivot row have been applied. Kept opaque so that its nested
/// recursion unfolds only where a proof asks for it.
#[verifier::opaque]
pub open spec fn dec_at(p: Preconditioner, i: int, u: int, t: int) -> (Seq<int>, Seq<int>) {
    dec_inner(p, dec_mid(p, i, u).0, dec_mid(p, i, u).1, i, p.row2idx@[i] + u, t)
}

/// The elimination update at `(i, u, t)` divides by a nonzero pivot and
/// stays within the machine scalar.
pub open spec fn dec_step_fits(p: Preconditioner, i: int, u: int, t: int) -> bool {
    let st = dec_at(p, i, u, t);
    let ik_idx = p.row2idx@[i] + u;
    let k = p.idx2col@[ik_idx] as int;
    let kj_idx = p.row2idx_dia@[k] + t;
    let j = p.idx2col@[kj_idx] as int;
    let num = st.0[ik_idx] * st.0[kj_idx];
    let q = tdiv(num, st.1[k]);
    &&& st.1[k] != 0
    &&& fits_i64(num)
    &&& fits_i64(q)
    &&& (j == i ==> fits_i64(st.1[i] - q))
    &&& (j != i && in_pattern(p.row2idx@, p.idx2col@, i, j) ==> fits_i64(
        st.0[idx_of(p.row2idx@, p.idx2col@, i, j)] - q,
    ))
}

/// Every elimination update of the decomposition divides by a nonzero pivot
/// and stays within the machine scalar's range. Kept opaque so that its
/// quantifiers enter a verification context only where they are needed.
#[verifier::opaque]
pub open spec fn decompose_fits(p: Preconditioner) -> bool {
    let n = p.num_blk as int;
    forall|i: int, u: int, t: int|
        0 <= i < n && 0 <= u < p.row2idx_dia@[i] - p.row2idx@[i] && 0 <= t < p.row2idx@[p.idx2col@[p.row2idx@[i] + u] as int + 1] - p.row2idx_dia@[p.idx2col@[p.row2idx@[i] + u] as int]
            ==> #[trigger] dec_step_fits(p, i, u, t)
}

/// One elimination step keeps both sequences' lengths.
pub proof fn lemma_dec_kj_step_len(
    p: Preconditioner,
    off: Seq<int>,
    dia: Seq<int>,
    i: int,
    ik_idx: int,
    kj_idx: int,
)
    requires
        p.wf(),
        off.len() == p.idx2col@.len(),
        dia.len() == p.num_blk,
        0 <= i < p.num_blk,
        0 <= kj_idx < p.idx2col@.len(),
    ensures
        dec_kj_step(p, off, dia, i, ik_idx, kj_idx).0.len() == off.len(),
        dec_kj_step(p, off, dia, i, ik_idx, kj_idx).1.len() == dia.len(),
{
    reveal(dec_kj_step);
    let j = p.idx2col@[kj_idx] as int;
    if j != i && in_pattern(p.row2idx@, p.idx2col@, i, j) {
        let t = idx_of(p.row2idx@, p.idx2col@, i, j);
        lemma_row2idx_le(p.row2idx@, p.idx2col@, p.num_blk as int, i + 1, p.num_blk as int);
        assert(0 <= t < off.len());
    }
}

/// Applying any prefix of a pivot row keeps both sequences' lengths.
pub proof fn lemma_dec_inner_len(
    p: Preconditioner,
    off: Seq<int>,
    dia: Seq<int>,
    i: int,
    ik_idx: int,
    t: int,
)
    requires
        p.wf(),
        off.len() == p.idx2col@.len(),
        dia.len() == p.num_blk,
        0 <= i < p.num_blk,
        p.row2idx@[i] <= ik_idx < p.row2idx_dia@[i],
        t <= p.row2idx@[p.idx2col@[ik_idx] as int + 1] - p.row2idx_dia@[p.idx2col@[ik_idx] as int],
    ensures
        dec_inner(p, off, dia, i, ik_idx, t).0.len() == off.len(),
        dec_inner(p, off, dia, i, ik_idx, t).1.len() == dia.len(),
    decreases t,
{
    if t > 0 {
        lemma_dec_inner_len(p, off, dia, i, ik_idx, t - 1);
        let k = p.idx2col@[ik_idx] as int;
        assert(0 <= k < p.num_blk);
        lemma_row2idx_le(p.row2idx@, p.idx2col@, p.num_blk as int, k + 1, p.num_blk as int);
        let s = dec_inner(p, off, dia, i, ik_idx, t - 1);
        lemma_dec_kj_step_len(p, s.0, s.1, i, ik_idx, p.row2idx_dia@[k] + t - 1);
    }
}

/// Processing any prefix of a row's lower entries keeps both lengths.
pub proof fn lemma_dec_lower_len(
    p: Preconditioner,
    off: Seq<int>,
    dia: Seq<int>,
    i: int,
    u: int,
)
    requires
        p.wf(),
        off.len() == p.idx2col@.len(),
        dia.len() == p.num_blk,
        0 <= i < p.num_blk,
        u <= p.row2idx_dia@[i] - p.row2idx@[i],
    ensures
        dec_lower(p, off, dia, i, u).0.len() == off.len(),
        dec_lower(p, off, dia, i, u).1.len() == dia.len(),
    decreases u,
{
    if u > 0 {
        lemma_dec_lower_len(p, off, dia, i, u - 1);
        let s = dec_lower(p, off, dia, i, u - 1);
        let ik_idx = p.row2idx@[i] + u - 1;
        lemma_dec_inner_len(
            p,
            s.0,
            s.1,
            i,
            ik_idx,
            p.row2idx@[p.idx2col@[ik_idx] as int + 1] - p.row2idx_dia@[p.idx2col@[ik_idx] as int],
        );
    }
}

/// Decomposing any prefix of the rows keeps both lengths.
pub proof fn lemma_dec_rows_len(p: Preconditioner, off0: Seq<int>, dia0: Seq<int>, i: int)
    requires
        p.wf(),
        off0.len() == p.idx2col@.len(),
        dia0.len() == p.num_blk,
        i <= p.num_blk,
    ensures
        dec_rows(p, off0, dia0, i).0.len() == off0.len(),
        dec_rows(p, off0, dia0, i).1.len() == dia0.len(),
    decreases i,
{
    if i > 0 {
        lemma_dec_rows_len(p, off0, dia0, i - 1);
        let s = dec_rows(p, off0, dia0, i - 1);
        let r = i - 1;
        lemma_dec_lower_len(p, s.0, s.1, r, p.row2idx_dia@[r] - p.row2idx@[r]);
    }
}

/// Updating one element of a vector updates its integer view pointwise.
pub proof fn lemma_ints_update(s: Seq<i64>, i: int, v: i64)
    requires
        0 <= i < s.len(),
    ensures
        ints(s.update(i, v)) == ints(s).update(i, v as int),
{
    assert(ints(s.update(i, v)) =~= ints(s).update(i, v as int));
}

/// Applies one elimination term: the product of the current values at lower
/// entry `ik_idx` and at upper entry `kj_idx` of the pivot row is subtracted
/// from row `i_row`'s entry in the upper entry's column, through the filled
/// scratch map; fill outside the pattern is dropped.
#[verifier::loop_isolation(false)]
#[verifier::rlimit(100)]
fn apply_one_term(
    ilu: &mut Preconditioner,
    col2idx: &Vec<usize>,
    i_row: usize,
    ik_idx: usize,
    ik_val: i64,
    kj_idx: usize,
    Ghost(p0): Ghost<Preconditioner>,
    Ghost(u): Ghost<int>,
    Ghost(t): Ghost<int>,
)
    requires
        p0.wf(),
        decompose_fits(p0),
        i_row < p0.num_blk,
        old(ilu).num_blk == p0.num_blk,
        old(ilu).row2idx@ == p0.row2idx@,
        old(ilu).idx2col@ == p0.idx2col@,
        old(ilu).row2idx_dia@ == p0.row2idx_dia@,
        old(ilu).idx2val@.len() == p0.idx2val@.len(),
        old(ilu).row2val@.len() == p0.row2val@.len(),
        p0.idx2val@.len() == p0.idx2col@.len(),
        u == ik_idx - p0.row2idx@[i_row as int],
        p0.row2idx@[i_row as int] <= ik_idx < p0.row2idx_dia@[i_row as int],
        t == kj_idx - p0.row2idx_dia@[p0.idx2col@[ik_idx as int] as int],
        p0.row2idx_dia@[p0.idx2col@[ik_idx as int] as int] <= kj_idx
            < p0.row2idx@[p0.idx2col@[ik_idx as int] as int + 1],
        col2idx@.len() == p0.num_blk,
        forall|k: int|
            p0.row2idx@[i_row as int] <= k < p0.row2idx@[i_row as int + 1]
                ==> col2idx@[#[trigger] p0.idx2col@[k] as int] == k,
        forall|c: int|
            0 <= c < p0.num_blk && !(exists|k: int|
                p0.row2idx@[i_row as int] <= k < p0.row2idx@[i_row as int + 1]
                    && p0.idx2col@[k] as int == c) ==> #[trigger] col2idx@[c] == usize::MAX,
        ints(old(ilu).idx2val@) == dec_at(p0, i_row as int, u, t).0,
        ints(old(ilu).row2val@) == dec_at(p0, i_row as int, u, t).1,
        ik_val as int == dec_at(p0, i_row as int, u, t).0[ik_idx as int],
    ensures
        final(ilu).num_blk == p0.num_blk,
        final(ilu).row2idx@ == p0.row2idx@,
        final(ilu).idx2col@ == p0.idx2col@,
        final(ilu).row2idx_dia@ == p0.row2idx_dia@,
        final(ilu).idx2val@.len() == p0.idx2val@.len(),
        final(ilu).row2val@.len() == p0.row2val@.len(),
        ints(final(ilu).idx2val@) == dec_at(p0, i_row as int, u, t + 1).0,
        ints(final(ilu).row2val@) == dec_at(p0, i_row as int, u, t + 1).1,
        dec_at(p0, i_row as int, u, t + 1).0[ik_idx as int] == dec_at(
            p0,
            i_row as int,
            u,
            t,
        ).0[ik_idx as int],
{
    let num_row = ilu.num_blk;
    let ghost off0 = ints(p0.idx2val@);
    let ghost dia0 = ints(p0.row2val@);
    let ghost rs = dec_row_start(p0, i_row as int);
    let ghost ms_u = dec_mid(p0, i_row as int, u);
    let ghost st = dec_at(p0, i_row as int, u, t);
    proof {
        lemma_row2idx_le(p0.row2idx@, p0.idx2col@, num_row as int, i_row + 1, num_row as int);
        lemma_dec_rows_len(p0, off0, dia0, i_row as int);
        lemma_dec_lower_len(p0, rs.0, rs.1, i_row as int, u);
        assert(st == dec_inner(p0, ms_u.0, ms_u.1, i_row as int, ik_idx as int, t)) by {
            reveal(dec_at);
        }
        lemma_dec_inner_len(p0, ms_u.0, ms_u.1, i_row as int, ik_idx as int, t);
    }
    let lo = ilu.row2idx[i_row];
    let hi = ilu.row2idx[i_row + 1];
    let k_col = ilu.idx2col[ik_idx];
    assert(k_col < i_row);
    proof {
        lemma_row2idx_le(p0.row2idx@, p0.idx2col@, num_row as int, k_col as int + 1, num_row as int);
    }
    let j_col = ilu.idx2col[kj_idx];
    assert(j_col > k_col && j_col < num_row);
    let kj_val = ilu.idx2val[kj_idx];
    assert(kj_val as int == st.0[kj_idx as int]);
    assert(dec_step_fits(p0, i_row as int, u, t)) by {
        reveal(decompose_fits);
    }
    let dk = ilu.row2val[k_col];
    assert(dk as int == st.1[k_col as int]);
    let prod = ik_val * kj_val;
    let q = quot(prod, dk);
    assert(dec_at(p0, i_row as int, u, t + 1) == dec_kj_step(
        p0,
        st.0,
        st.1,
        i_row as int,
        ik_idx as int,
        kj_idx as int,
    )) by {
        reveal(dec_at);
        assert(dec_at(p0, i_row as int, u, t + 1) == dec_inner(
            p0,
            ms_u.0,
            ms_u.1,
            i_row as int,
            ik_idx as int,
            t + 1,
        ));
        assert(p0.idx2col@[ik_idx as int] as int == k_col as int);
        assert(p0.row2idx_dia@[k_col as int] + (t + 1) - 1 == kj_idx as int);
        assert(dec_inner(p0, ms_u.0, ms_u.1, i_row as int, ik_idx as int, t + 1) == dec_kj_step(
            p0,
            dec_inner(p0, ms_u.0, ms_u.1, i_row as int, ik_idx as int, t).0,
            dec_inner(p0, ms_u.0, ms_u.1, i_row as int, ik_idx as int, t).1,
            i_row as int,
            ik_idx as int,
            kj_idx as int,
        ));
        assert(dec_inner(p0, ms_u.0, ms_u.1, i_row as int, ik_idx as int, t).0 == st.0
            && dec_inner(p0, ms_u.0, ms_u.1, i_row as int, ik_idx as int, t).1 == st.1);
    }
    if j_col == i_row {
        proof {
            assert(dec_kj_step(p0, st.0, st.1, i_row as int, ik_idx as int, kj_idx as int) == (
            st.0,
            st.1.update(
                i_row as int,
                st.1[i_row as int] - tdiv(
                    st.0[ik_idx as int] * st.0[kj_idx as int],
                    st.1[k_col as int],
                ),
            ))) by {
                reveal(dec_kj_step);
            }
        }
        let cur = ilu.row2val[i_row];
        let nv = cur - q;
        let ghost pre = ilu.row2val@;
        ilu.row2val.set(i_row, nv);
        proof {
            lemma_ints_update(pre, i_row as int, nv);
        }
    } else {
        let pos = col2idx[j_col];
        if pos != usize::MAX {
            let ghost k0: int = choose|k: int|
                lo <= k < hi && #[trigger] p0.idx2col@[k] as int == j_col as int;
            proof {
                assert(exists|k: int|
                    lo <= k < hi && #[trigger] p0.idx2col@[k] as int == j_col as int) by {
                    if !(exists|k: int| lo <= k < hi && p0.idx2col@[k] as int == j_col as int) {
                        assert(col2idx@[j_col as int] == usize::MAX);
                    }
                }
                assert(col2idx@[p0.idx2col@[k0] as int] == k0);
                assert(pos == k0);
                assert(in_pattern(p0.row2idx@, p0.idx2col@, i_row as int, j_col as int));
                assert(idx_of(p0.row2idx@, p0.idx2col@, i_row as int, j_col as int) == k0);
                assert(dec_kj_step(p0, st.0, st.1, i_row as int, ik_idx as int, kj_idx as int)
                    == (
                st.0.update(
                    k0,
                    st.0[k0] - tdiv(
                        st.0[ik_idx as int] * st.0[kj_idx as int],
                        st.1[k_col as int],
                    ),
                ),
                st.1,
                )) by {
                    reveal(dec_kj_step);
                }
            }
            let cur = ilu.idx2val[pos];
            let nv = cur - q;
            let ghost pre = ilu.idx2val@;
            ilu.idx2val.set(pos, nv);
            proof {
                lemma_ints_update(pre, pos as int, nv);
                assert(pos as int != ik_idx as int) by {
                    assert(p0.idx2col@[pos as int] as int == j_col as int);
                    assert(p0.idx2col@[ik_idx as int] as int == k_col as int);
                }
            }
        } else {
            proof {
                if in_pattern(p0.row2idx@, p0.idx2col@, i_row as int, j_col as int) {
                    let kw = idx_of(p0.row2idx@, p0.idx2col@, i_row as int, j_col as int);
                    assert(col2idx@[p0.idx2col@[kw] as int] == kw);
                    assert(false);
                }
                assert(dec_kj_step(p0, st.0, st.1, i_row as int, ik_idx as int, kj_idx as int)
                    == (st.0, st.1)) by {
                    reveal(dec_kj_step);
                }
            }
        }
    }
}

/// Applies one pivot row: while processing lower entry `ik_idx` of row
/// `i_row`, walks the pivot row's upper part and subtracts each product into
/// row `i_row` where the pattern has an entry.
#[verifier::loop_isolation(false)]
#[verifier::rlimit(100)]
fn apply_pivot_row(
    ilu: &mut Preconditioner,
    col2idx: &Vec<usize>,
    i_row: usize,
    ik_idx: usize,
    Ghost(p0): Ghost<Preconditioner>,
    Ghost(u): Ghost<int>,
)
    requires
        p0.wf(),
        decompose_fits(p0),
        i_row < p0.num_blk,
        old(ilu).num_blk == p0.num_blk,
        old(ilu).row2idx@ == p0.row2idx@,
        old(ilu).idx2col@ == p0.idx2col@,
        old(ilu).row2idx_dia@ == p0.row2idx_dia@,
        old(ilu).idx2val@.len() == p0.idx2val@.len(),
        old(ilu).row2val@.len() == p0.row2val@.len(),
        p0.idx2val@.len() == p0.idx2col@.len(),
        u == ik_idx - p0.row2idx@[i_row as int],
        p0.row2idx@[i_row as int] <= ik_idx < p0.row2idx_dia@[i_row as int],
        col2idx@.len() == p0.num_blk,
        forall|k: int|
            p0.row2idx@[i_row as int] <= k < p0.row2idx@[i_row as int + 1]
                ==> col2idx@[#[trigger] p0.idx2col@[k] as int] == k,
        forall|c: int|
            0 <= c < p0.num_blk && !(exists|k: int|
                p0.row2idx@[i_row as int] <= k < p0.row2idx@[i_row as int + 1]
                    && p0.idx2col@[k] as int == c) ==> #[trigger] col2idx@[c] == usize::MAX,
        ints(old(ilu).idx2val@) == dec_mid(p0, i_row as int, u).0,
        ints(old(ilu).row2val@) == dec_mid(p0, i_row as int, u).1,
    ensures
        final(ilu).num_blk == p0.num_blk,
        final(ilu).row2idx@ == p0.row2idx@,
        final(ilu).idx2col@ == p0.idx2col@,
        final(ilu).row2idx_dia@ == p0.row2idx_dia@,
        final(ilu).idx2val@.len() == p0.idx2val@.len(),
        final(ilu).row2val@.len() == p0.row2val@.len(),
        ints(final(ilu).idx2val@) == dec_mid(p0, i_row as int, u + 1).0,
        ints(final(ilu).row2val@) == dec_mid(p0, i_row as int, u + 1).1,
{
    let num_row = ilu.num_blk;
    let ghost ms_u = dec_mid(p0, i_row as int, u);
    proof {
        lemma_row2idx_le(p0.row2idx@, p0.idx2col@, num_row as int, i_row + 1, num_row as int);
        assert(dec_at(p0, i_row as int, u, 0).0 == ms_u.0 && dec_at(p0, i_row as int, u, 0).1
            == ms_u.1) by {
            reveal(dec_at);
        }
    }
    let k_col = ilu.idx2col[ik_idx];
    assert(k_col < i_row);
    let ik_val = ilu.idx2val[ik_idx];
    proof {
        lemma_row2idx_le(p0.row2idx@, p0.idx2col@, num_row as int, k_col as int + 1, num_row as int);
    }
    let kj_lo = ilu.row2idx_dia[k_col];
    let kj_hi = ilu.row2idx[k_col + 1];
    let mut kj_idx = kj_lo;
    while kj_idx < kj_hi
        invariant
            kj_lo <= kj_idx <= kj_hi,
            ilu.num_blk == p0.num_blk,
            ilu.row2idx@ == p0.row2idx@,
            ilu.idx2col@ == p0.idx2col@,
            ilu.row2idx_dia@ == p0.row2idx_dia@,
            ilu.idx2val@.len() == p0.idx2val@.len(),
            ilu.row2val@.len() == p0.row2val@.len(),
            ints(ilu.idx2val@) == dec_at(p0, i_row as int, u, kj_idx - kj_lo).0,
            ints(ilu.row2val@) == dec_at(p0, i_row as int, u, kj_idx - kj_lo).1,
            ik_val as int == dec_at(p0, i_row as int, u, kj_idx - kj_lo).0[ik_idx as int],
        decreases kj_hi - kj_idx,
    {
        apply_one_term(
            ilu,
            col2idx,
            i_row,
            ik_idx,
            ik_val,
            kj_idx,
            Ghost(p0),
            Ghost(u),
            Ghost(kj_idx - kj_lo),
        );
        kj_idx = kj_idx + 1;
    }
    proof {
        assert(dec_mid(p0, i_row as int, u + 1).0 == dec_at(p0, i_row as int, u, kj_hi - kj_lo).0
            && dec_mid(p0, i_row as int, u + 1).1 == dec_at(p0, i_row as int, u, kj_hi - kj_lo).1)
            by {
            reveal(dec_at);
        }
    }
}

/// Applies all lower-entry eliminations of row `i_row`, reading positions
/// through the filled scratch map; the scratch map itself is not changed.
#[verifier::loop_isolation(false)]
#[verifier::rlimit(100)]
#[verifier::spinoff_prover]
fn eliminate_lower(
    ilu: &mut Preconditioner,
    col2idx: &Vec<usize>,
    i_row: usize,
    Ghost(p0): Ghost<Preconditioner>,
)
    requires
        p0.wf(),
        decompose_fits(p0),
        i_row < p0.num_blk,
        old(ilu).num_blk == p0.num_blk,
        old(ilu).row2idx@ == p0.row2idx@,
        old(ilu).idx2col@ == p0.idx2col@,
        old(ilu).row2idx_dia@ == p0.row2idx_dia@,
        old(ilu).idx2val@.len() == p0.idx2val@.len(),
        old(ilu).row2val@.len() == p0.row2val@.len(),
        p0.idx2val@.len() == p0.idx2col@.len(),
        col2idx@.len() == p0.num_blk,
        forall|k: int|
            p0.row2idx@[i_row as int] <= k < p0.row2idx@[i_row as int + 1]
                ==> col2idx@[#[trigger] p0.idx2col@[k] as int] == k,
        forall|c: int|
            0 <= c < p0.num_blk && !(exists|k: int|
                p0.row2idx@[i_row as int] <= k < p0.row2idx@[i_row as int + 1]
                    && p0.idx2col@[k] as int == c) ==> #[trigger] col2idx@[c] == usize::MAX,
        ints(old(ilu).idx2val@) == dec_row_start(p0, i_row as int).0,
        ints(old(ilu).row2val@) == dec_row_start(p0, i_row as int).1,
    ensures
        final(ilu).num_blk == p0.num_blk,
        final(ilu).row2idx@ == p0.row2idx@,
        final(ilu).idx2col@ == p0.idx2col@,
        final(ilu).row2idx_dia@ == p0.row2idx_dia@,
        final(ilu).idx2val@.len() == p0.idx2val@.len(),
        final(ilu).row2val@.len() == p0.row2val@.len(),
        ints(final(ilu).idx2val@) == dec_mid(
            p0,
            i_row as int,
            p0.row2idx_dia@[i_row as int] - p0.row2idx@[i_row as int],
        ).0,
        ints(final(ilu).row2val@) == dec_mid(
            p0,
            i_row as int,
            p0.row2idx_dia@[i_row as int] - p0.row2idx@[i_row as int],
        ).1,
{
    let lo = ilu.row2idx[i_row];
    let dia_i = ilu.row2idx_dia[i_row];
    let mut ik_idx = lo;
    while ik_idx < dia_i
        invariant
            lo <= ik_idx <= dia_i,
            ilu.num_blk == p0.num_blk,
            ilu.row2idx@ == p0.row2idx@,
            ilu.idx2col@ == p0.idx2col@,
            ilu.row2idx_dia@ == p0.row2idx_dia@,
            ilu.idx2val@.len() == p0.idx2val@.len(),
            ilu.row2val@.len() == p0.row2val@.len(),
            ints(ilu.idx2val@) == dec_mid(p0, i_row as int, ik_idx - lo).0,
            ints(ilu.row2val@) == dec_mid(p0, i_row as int, ik_idx - lo).1,
        decreases dia_i - ik_idx,
    {
        apply_pivot_row(ilu, col2idx, i_row, ik_idx, Ghost(p0), Ghost(ik_idx - lo));
        ik_idx = ik_idx + 1;
    }
}

/// Decomposes one row in place, taking the stored values from the state in
/// which the factorization reaches row `i_row` to the state in which it
/// reaches the next row. The scratch map must hold only the sentinel on entry
/// and is restored on exit.
#[verifier::loop_isolation(false)]
#[verifier::rlimit(100)]
#[verifier::spinoff_prover]
fn decompose_row(
    ilu: &mut Preconditioner,
    col2idx: &mut Vec<usize>,
    i_row: usize,
    Ghost(p0): Ghost<Preconditioner>,
)
    requires
        p0.wf(),
        decompose_fits(p0),
        i_row < p0.num_blk,
        old(ilu).num_blk == p0.num_blk,
        old(ilu).row2idx@ == p0.row2idx@,
        old(ilu).idx2col@ == p0.idx2col@,
        old(ilu).row2idx_dia@ == p0.row2idx_dia@,
        old(ilu).idx2val@.len() == p0.idx2val@.len(),
        old(ilu).row2val@.len() == p0.row2val@.len(),
        p0.idx2val@.len() == p0.idx2col@.len(),
        old(col2idx)@.len() == p0.num_blk,
        forall|c: int| 0 <= c < p0.num_blk ==> #[trigger] old(col2idx)@[c] == usize::MAX,
        ints(old(ilu).idx2val@) == dec_row_start(p0, i_row as int).0,
        ints(old(ilu).row2val@) == dec_row_start(p0, i_row as int).1,
    ensures
        final(ilu).num_blk == p0.num_blk,
        final(ilu).row2idx@ == p0.row2idx@,
        final(ilu).idx2col@ == p0.idx2col@,
        final(ilu).row2idx_dia@ == p0.row2idx_dia@,
        final(ilu).idx2val@.len() == p0.idx2val@.len(),
        final(ilu).row2val@.len() == p0.row2val@.len(),
        final(col2idx)@.len() == p0.num_blk,
        forall|c: int| 0 <= c < p0.num_blk ==> #[trigger] final(col2idx)@[c] == usize::MAX,
        ints(final(ilu).idx2val@) == dec_row_start(p0, i_row as int + 1).0,
        ints(final(ilu).row2val@) == dec_row_start(p0, i_row as int + 1).1,
{
    let num_row = ilu.num_blk;
    let ghost off0 = ints(p0.idx2val@);
    let ghost dia0 = ints(p0.row2val@);
    let ghost rs = dec_row_start(p0, i_row as int);
    proof {
        assert forall|i: int| 0 <= i <= num_row as int implies #[trigger] p0.row2idx@[i]
            <= p0.idx2val@.len() by {
            lemma_row2idx_le(p0.row2idx@, p0.idx2col@, num_row as int, i, num_row as int);
        }
        lemma_dec_rows_len(p0, off0, dia0, i_row as int);
        lemma_dec_lower_len(p0, rs.0, rs.1, i_row as int, p0.row2idx_dia@[i_row as int] - p0.row2idx@[i_row as int]);
    }
    let lo = ilu.row2idx[i_row];
    let dia_i = ilu.row2idx_dia[i_row];
    let hi = ilu.row2idx[i_row + 1];
    let mut idx0 = lo;
    while idx0 < hi
        invariant
            lo <= idx0 <= hi,
            col2idx@.len() == num_row,
            forall|k: int| lo <= k < idx0 ==> col2idx@[#[trigger] ilu.idx2col@[k] as int] == k,
            forall|c: int|
                0 <= c < num_row && !(exists|k: int|
                    lo <= k < idx0 && ilu.idx2col@[k] as int == c) ==> #[trigger] col2idx@[c]
                    == usize::MAX,
        decreases hi - idx0,
    {
        let icol = ilu.idx2col[idx0];
        assert(icol < num_row);
        assert forall|k: int| lo <= k < idx0 implies #[trigger] ilu.idx2col@[k] as int
            != icol as int by {};
        col2idx.set(icol, idx0);
        idx0 = idx0 + 1;
    }
    eliminate_lower(ilu, col2idx, i_row, Ghost(p0));
    let mut idx2 = lo;
    while idx2 < hi
        invariant
            lo <= idx2 <= hi,
            col2idx@.len() == num_row,
            forall|k: int| idx2 <= k < hi ==> col2idx@[#[trigger] ilu.idx2col@[k] as int] == k,
            forall|c: int|
                0 <= c < num_row && !(exists|k: int|
                    idx2 <= k < hi && ilu.idx2col@[k] as int == c) ==> #[trigger] col2idx@[c]
                    == usize::MAX,
        decreases hi - idx2,
    {
        let jc = ilu.idx2col[idx2];
        assert(jc < num_row);
        assert forall|k: int| idx2 < k < hi implies #[trigger] ilu.idx2col@[k] as int
            != jc as int by {};
        col2idx.set(jc, usize::MAX);
        idx2 = idx2 + 1;
    }
    proof {
        assert(ints(ilu.idx2val@) == dec_row_start(p0, i_row as int + 1).0);
        assert(ints(ilu.row2val@) == dec_row_start(p0, i_row as int + 1).1);
    }
}

/// In-place incomplete factorization. Rows are processed in ascending order:
/// every lower entry `(i, k)` combines with the already-finished upper part
/// of row `k`, subtracting the machine quotient of each product by row `k`'s
/// pivot into row `i` where the pattern has an entry and dropping the fill
/// where it does not. The diagonal keeps each row's eliminated pivot, and
/// the substitution sweeps of `solve_preconditioning` divide by it.
#[verifier::loop_isolation(false)]
pub fn decompose(ilu: &mut Preconditioner)
    requires
        old(ilu).wf(),
        decompose_fits(*old(ilu)),
    ensures
        final(ilu).wf(),
        final(ilu).num_blk == old(ilu).num_blk,
        final(ilu).row2idx@ == old(ilu).row2idx@,
        final(ilu).idx2col@ == old(ilu).idx2col@,
        final(ilu).row2idx_dia@ == old(ilu).row2idx_dia@,
        final(ilu).idx2val@.len() == old(ilu).idx2val@.len(),
        final(ilu).row2val@.len() == old(ilu).row2val@.len(),
        ints(final(ilu).idx2val@) == dec_row_start(*old(ilu), old(ilu).num_blk as int).0,
        ints(final(ilu).row2val@) == dec_row_start(*old(ilu), old(ilu).num_blk as int).1,
{
    let num_row = ilu.num_blk;
    let ghost p0 = *old(ilu);
    let mut col2idx: Vec<usize> = vec![usize::MAX; num_row];
    proof {
        assert(ints(ilu.idx2val@) =~= dec_row_start(p0, 0).0);
        assert(ints(ilu.row2val@) =~= dec_row_start(p0, 0).1);
    }
    let mut i_row: usize = 0;
    while i_row < num_row
        invariant
            i_row <= num_row,
            ilu.num_blk == p0.num_blk,
            ilu.row2idx@ == p0.row2idx@,
            ilu.idx2col@ == p0.idx2col@,
            ilu.row2idx_dia@ == p0.row2idx_dia@,
            ilu.idx2val@.len() == p0.idx2val@.len(),
            ilu.row2val@.len() == p0.row2val@.len(),
            col2idx@.len() == num_row,
            forall|c: int| 0 <= c < num_row ==> #[trigger] col2idx@[c] == usize::MAX,
            ints(ilu.idx2val@) == dec_row_start(p0, i_row as int).0,
            ints(ilu.row2val@) == dec_row_start(p0, i_row as int).1,
        decreases num_row - i_row,
    {
        decompose_row(ilu, &mut col2idx, i_row, Ghost(p0));
        i_row = i_row + 1;
    }
}

/// On a purely diagonal pattern the factorization has no off-diagonal
/// entries at all, so decomposition leaves every stored value unchanged: the
/// diagonal keeps the original pivots.
pub proof fn lemma_decompose_diagonal_noop(p: Preconditioner, i: int)
    requires
        p.wf(),
        p.idx2col@.len() == 0,
        0 <= i <= p.num_blk,
    ensures
        dec_row_start(p, i).0 == ints(p.idx2val@),
        dec_row_start(p, i).1 == ints(p.row2val@),
    decreases i,
{
    if i > 0 {
        lemma_decompose_diagonal_noop(p, i - 1);
        lemma_row2idx_le(p.row2idx@, p.idx2col@, p.num_blk as int, i - 1, p.num_blk as int);
        lemma_row2idx_le(p.row2idx@, p.idx2col@, p.num_blk as int, i, p.num_blk as int);
        assert(p.row2idx@[i - 1] == 0 && p.row2idx@[i] == 0);
        assert(p.row2idx_dia@[i - 1] - p.row2idx@[i - 1] == 0);
    }
}

/// On a purely diagonal pattern the forward sweep divides each finished
/// entry by its pivot and touches nothing else.
pub proof fn lemma_fwd_state_diagonal(p: Preconditioner, v0: Seq<int>, m: int, j: int)
    requires
        p.wf(),
        p.idx2col@.len() == 0,
        v0.len() == p.num_blk,
        0 <= m <= p.num_blk,
        0 <= j < p.num_blk,
    ensures
        fwd_state(p, v0, m)[j] == if j < m {
            tdiv(v0[j], p.row2val@[j] as int)
        } else {
            v0[j]
        },
    decreases m,
{
    if m > 0 {
        lemma_fwd_state_diagonal(p, v0, m - 1, j);
        lemma_fwd_state_diagonal(p, v0, m - 1, m - 1);
        lemma_fwd_state_len(p, v0, m - 1);
        lemma_row2idx_le(p.row2idx@, p.idx2col@, p.num_blk as int, m - 1, p.num_blk as int);
        lemma_row2idx_le(p.row2idx@, p.idx2col@, p.num_blk as int, m, p.num_blk as int);
        assert(p.row2idx@[m - 1] == 0 && p.row2idx@[m] == 0);
        assert(p.row2idx_dia@[m - 1] - p.row2idx@[m - 1] == 0);
    }
}

/// On a purely diagonal pattern the backward sweep changes nothing.
pub proof fn lemma_bwd_state_diagonal(p: Preconditioner, w0: Seq<int>, m: int, j: int)
    requires
        p.wf(),
        p.idx2col@.len() == 0,
        w0.len() == p.num_blk,
        0 <= m <= p.num_blk,
        0 <= j < p.num_blk,
    ensures
        bwd_state(p, w0, m)[j] == w0[j],
    decreases p.num_blk - m,
{
    if m < p.num_blk {
        lemma_bwd_state_diagonal(p, w0, m + 1, j);
        lemma_bwd_state_diagonal(p, w0, m + 1, m);
        lemma_bwd_state_len(p, w0, m + 1);
        lemma_row2idx_le(p.row2idx@, p.idx2col@, p.num_blk as int, m + 1, p.num_blk as int);
        assert(p.row2idx@[m + 1] == 0);
        assert(p.row2idx@[m + 1] - p.row2idx_dia@[m] == 0);
    }
}

/// Decomposition followed by preconditioning-application on a purely
/// diagonal matrix reduces exactly to element-wise division by the diagonal,
/// with no incomplete-factorization error: the decomposition keeps the
/// pivots (`lemma_decompose_diagonal_noop`), and the two substitution sweeps
/// then return the machine quotient of each entry by its pivot.
pub proof fn lemma_diagonal_preconditioning_divides(p: Preconditioner, v0: Seq<int>, j: int)
    requires
        p.wf(),
        p.idx2col@.len() == 0,
        v0.len() == p.num_blk,
        0 <= j < p.num_blk,
    ensures
        bwd_state(p, fwd_state(p, v0, p.num_blk as int), 0)[j] == tdiv(
            v0[j],
            p.row2val@[j] as int,
        ),
{
    lemma_fwd_state_len(p, v0, p.num_blk as int);
    lemma_fwd_state_diagonal(p, v0, p.num_blk as int, j);
    lemma_bwd_state_diagonal(p, fwd_state(p, v0, p.num_blk as int), 0, j);
}

/// Level-k symbolic factorization over a sorted pattern. Each row seeds its
/// original columns at level zero, then walks its lower columns in ascending
/// order; every lower column whose settled level is below the fill level
/// merges the already-finalized upper part of its row, entering each new
/// column at one more than the larger of the two levels and keeping the
/// smaller level on a repeat. The finalized rows form a well-formed pattern
/// that contains every column of the source pattern, with each row's
/// lower/upper split recorded.
#[verifier::loop_isolation(false)]
#[verifier::rlimit(100)]
#[verifier::spinoff_prover]
pub fn symbolic_iluk(a_row2idx: &Vec<usize>, a_idx2col: &Vec<usize>, lev_fill: usize) -> (r: (
    Vec<usize>,
    Vec<usize>,
    Vec<usize>,
))
    requires
        a_row2idx@.len() >= 1,
        pattern_wf(a_row2idx@, a_idx2col@, a_row2idx@.len() - 1),
    ensures
        pattern_wf(r.0@, r.1@, a_row2idx@.len() - 1),
        r.0@.len() == a_row2idx@.len(),
        r.2@.len() == a_row2idx@.len() - 1,
        forall|i: int|
            0 <= i < a_row2idx@.len() - 1 ==> r.0@[i] <= #[trigger] r.2@[i] <= r.0@[i + 1],
        forall|i: int, k: int|
            #![trigger r.2@[i], r.1@[k]]
            0 <= i < a_row2idx@.len() - 1 && r.0@[i] <= k < r.2@[i] ==> r.1@[k] < i,
        forall|i: int, k: int|
            #![trigger r.2@[i], r.1@[k]]
            0 <= i < a_row2idx@.len() - 1 && r.2@[i] <= k < r.0@[i + 1] ==> r.1@[k] > i,
        forall|i: int, k: int|
            #![trigger a_row2idx@[i], a_idx2col@[k]]
            0 <= i < a_row2idx@.len() - 1 && a_row2idx@[i] <= k < a_row2idx@[i + 1] ==> in_pattern(
                r.0@,
                r.1@,
                i,
                a_idx2col@[k] as int,
            ),
{
    let num_row = a_row2idx.len() - 1;
    proof {
        assert forall|i: int| 0 <= i <= num_row as int implies #[trigger] a_row2idx@[i]
            <= a_idx2col@.len() by {
            lemma_row2idx_le(a_row2idx@, a_idx2col@, num_row as int, i, num_row as int);
        }
    }
    let mut row2idx: Vec<usize> = Vec::new();
    row2idx.push(0);
    let mut idx2col: Vec<usize> = Vec::new();
    let mut idx2lev: Vec<usize> = Vec::new();
    let mut row2idx_dia: Vec<usize> = Vec::new();
    let mut col2lev: Vec<usize> = vec![usize::MAX; num_row];
    let mut i_row: usize = 0;
    while i_row < num_row
        invariant
            i_row <= num_row,
            col2lev@.len() == num_row,
            forall|c: int| 0 <= c < num_row ==> #[trigger] col2lev@[c] == usize::MAX,
            row2idx@.len() == i_row + 1,
            row2idx_dia@.len() == i_row,
            idx2col@.len() == idx2lev@.len(),
            row2idx@[0] == 0,
            row2idx@[i_row as int] == idx2col@.len(),
            forall|i: int| 0 <= i <= i_row ==> #[trigger] row2idx@[i] <= idx2col@.len(),
            forall|i: int| 0 <= i < i_row ==> #[trigger] row2idx@[i] <= row2idx@[i + 1],
            forall|i: int, k: int|
                #![trigger row2idx@[i], idx2col@[k]]
                0 <= i < i_row && row2idx@[i] <= k < row2idx@[i + 1] ==> idx2col@[k] < num_row
                    && idx2col@[k] != i,
            forall|i: int, k1: int, k2: int|
                #![trigger row2idx@[i], idx2col@[k1], idx2col@[k2]]
                0 <= i < i_row && row2idx@[i] <= k1 < k2 < row2idx@[i + 1] ==> idx2col@[k1]
                    < idx2col@[k2],
            forall|i: int|
                0 <= i < i_row ==> row2idx@[i] <= #[trigger] row2idx_dia@[i] <= row2idx@[i + 1],
            forall|i: int, k: int|
                #![trigger row2idx_dia@[i], idx2col@[k]]
                0 <= i < i_row && row2idx@[i] <= k < row2idx_dia@[i] ==> idx2col@[k] < i,
            forall|i: int, k: int|
                #![trigger row2idx_dia@[i], idx2col@[k]]
                0 <= i < i_row && row2idx_dia@[i] <= k < row2idx@[i + 1] ==> idx2col@[k] > i,
            forall|i: int, k: int|
                #![trigger a_row2idx@[i], a_idx2col@[k]]
                0 <= i < i_row && a_row2idx@[i] <= k < a_row2idx@[i + 1] ==> in_pattern(
                    row2idx@,
                    idx2col@,
                    i,
                    a_idx2col@[k] as int,
                ),
        decreases num_row - i_row,
    {
        let a_lo = a_row2idx[i_row];
        let a_hi = a_row2idx[i_row + 1];
        let mut s = a_lo;
        while s < a_hi
            invariant
                a_lo <= s <= a_hi,
                col2lev@.len() == num_row,
                forall|k: int|
                    a_lo <= k < s ==> col2lev@[#[trigger] a_idx2col@[k] as int] != usize::MAX,
                forall|c: int|
                    0 <= c < num_row && col2lev@[c] != usize::MAX ==> #[trigger] col2lev@[c] == 0
                        && c != i_row && (exists|k: int|
                        a_lo <= k < s && a_idx2col@[k] as int == c),
            decreases a_hi - s,
        {
            let c = a_idx2col[s];
            assert(c < num_row && c != i_row);
            col2lev.set(c, 0);
            s = s + 1;
        }
        let mut k_col: usize = 0;
        while k_col < i_row
            invariant
                k_col <= i_row,
                i_row < num_row,
                col2lev@.len() == num_row,
                forall|c: int|
                    0 <= c < num_row && #[trigger] col2lev@[c] != usize::MAX ==> c != i_row,
                forall|k: int|
                    a_row2idx@[i_row as int] <= k < a_row2idx@[i_row as int + 1]
                        ==> col2lev@[#[trigger] a_idx2col@[k] as int] != usize::MAX,
            decreases i_row - k_col,
        {
            let klev = col2lev[k_col];
            if klev != usize::MAX && klev < lev_fill {
                proof {
                    assert(row2idx@[k_col as int + 1] <= idx2col@.len());
                }
                let kj_lo = row2idx_dia[k_col];
                let kj_hi = row2idx[k_col + 1];
                let mut kj = kj_lo;
                while kj < kj_hi
                    invariant
                        kj_lo <= kj <= kj_hi,
                        col2lev@.len() == num_row,
                        klev < lev_fill,
                        forall|c: int|
                            0 <= c < num_row && #[trigger] col2lev@[c] != usize::MAX ==> c != i_row,
                        forall|k: int|
                            a_row2idx@[i_row as int] <= k < a_row2idx@[i_row as int + 1]
                                ==> col2lev@[#[trigger] a_idx2col@[k] as int] != usize::MAX,
                    decreases kj_hi - kj,
                {
                    let j_col = idx2col[kj];
                    let j_lev = idx2lev[kj];
                    assert(j_col < num_row);
                    if j_lev < lev_fill && j_col != i_row {
                        let max_lev = if klev > j_lev {
                            klev
                        } else {
                            j_lev
                        };
                        let cand = max_lev + 1;
                        let cur = col2lev[j_col];
                        if cur == usize::MAX || cand < cur {
                            col2lev.set(j_col, cand);
                        }
                    }
                    kj = kj + 1;
                }
            }
            k_col = k_col + 1;
        }
        let ghost entry_base = idx2col@.len() as int;
        let mut c: usize = 0;
        while c < num_row
            invariant
                c <= num_row,
                i_row < num_row,
                col2lev@.len() == num_row,
                idx2col@.len() == idx2lev@.len(),
                idx2col@.len() >= entry_base,
                forall|cc: int| 0 <= cc < c ==> #[trigger] col2lev@[cc] == usize::MAX,
                forall|cc: int|
                    c <= cc < num_row && #[trigger] col2lev@[cc] != usize::MAX ==> cc != i_row,
                forall|k: int|
                    entry_base <= k < idx2col@.len() ==> #[trigger] idx2col@[k] < c
                        && idx2col@[k] != i_row,
                forall|k1: int, k2: int|
                    entry_base <= k1 < k2 < idx2col@.len() ==> #[trigger] idx2col@[k1]
                        < #[trigger] idx2col@[k2],
                forall|k: int|
                    a_row2idx@[i_row as int] <= k < a_row2idx@[i_row as int + 1] && a_idx2col@[k]
                        < c ==> (exists|t: int|
                        entry_base <= t < idx2col@.len() && idx2col@[t] == #[trigger] a_idx2col@[k]),
                forall|k: int|
                    a_row2idx@[i_row as int] <= k < a_row2idx@[i_row as int + 1] && a_idx2col@[k]
                        >= c ==> col2lev@[#[trigger] a_idx2col@[k] as int] != usize::MAX,
                forall|i: int| 0 <= i <= i_row ==> #[trigger] row2idx@[i] <= entry_base,
                forall|i: int, k: int|
                    #![trigger row2idx@[i], idx2col@[k]]
                    0 <= i < i_row && row2idx@[i] <= k < row2idx@[i + 1] ==> idx2col@[k] < num_row
                        && idx2col@[k] != i,
                forall|i: int, k1: int, k2: int|
                    #![trigger row2idx@[i], idx2col@[k1], idx2col@[k2]]
                    0 <= i < i_row && row2idx@[i] <= k1 < k2 < row2idx@[i + 1] ==> idx2col@[k1]
                        < idx2col@[k2],
                forall|i: int, k: int|
                    #![trigger row2idx_dia@[i], idx2col@[k]]
                    0 <= i < i_row && row2idx@[i] <= k < row2idx_dia@[i] ==> idx2col@[k] < i,
                forall|i: int, k: int|
                    #![trigger row2idx_dia@[i], idx2col@[k]]
                    0 <= i < i_row && row2idx_dia@[i] <= k < row2idx@[i + 1] ==> idx2col@[k] > i,
                forall|i: int, k: int|
                    #![trigger a_row2idx@[i], a_idx2col@[k]]
                    0 <= i < i_row && a_row2idx@[i] <= k < a_row2idx@[i + 1] ==> in_pattern(
                        row2idx@,
                        idx2col@,
                        i,
                        a_idx2col@[k] as int,
                    ),
            decreases num_row - c,
        {
            let l = col2lev[c];
            if l != usize::MAX {
                let ghost pre_cols = idx2col@;
                idx2col.push(c);
                idx2lev.push(l);
                col2lev.set(c, usize::MAX);
                proof {
                    assert(idx2col@[idx2col@.len() - 1] == c);
                    assert forall|k: int|
                        a_row2idx@[i_row as int] <= k < a_row2idx@[i_row as int + 1]
                            && a_idx2col@[k] < c implies (exists|t: int|
                        entry_base <= t < idx2col@.len() && idx2col@[t]
                            == #[trigger] a_idx2col@[k]) by {
                        let t0 = choose|t: int|
                            entry_base <= t < pre_cols.len() && #[trigger] pre_cols[t]
                                == a_idx2col@[k];
                        assert(idx2col@[t0] == a_idx2col@[k]);
                    }
                    assert forall|i: int, k: int|
                        #![trigger a_row2idx@[i], a_idx2col@[k]]
                        0 <= i < i_row && a_row2idx@[i] <= k < a_row2idx@[i + 1] implies in_pattern(
                        row2idx@,
                        idx2col@,
                        i,
                        a_idx2col@[k] as int,
                    ) by {
                        assert(in_pattern(row2idx@, pre_cols, i, a_idx2col@[k] as int));
                        let t0 = choose|t: int|
                            row2idx@[i] <= t < row2idx@[i + 1] && #[trigger] pre_cols[t]
                                == a_idx2col@[k] as int;
                        assert(row2idx@[i + 1] <= entry_base);
                        assert(idx2col@[t0] == pre_cols[t0]);
                    }
                }
            }
            c = c + 1;
        }
        let new_hi = idx2col.len();
        row2idx.push(new_hi);
        let lo = row2idx[i_row];
        let mut d = lo;
        while d < new_hi && idx2col[d] < i_row
            invariant
                lo <= d <= new_hi,
                forall|t: int| lo <= t < d ==> #[trigger] idx2col@[t] < i_row,
            decreases new_hi - d,
        {
            d = d + 1;
        }
        assert forall|t: int| d <= t < new_hi implies #[trigger] idx2col@[t] > i_row by {
            if t > d {
                assert(idx2col@[d as int] < idx2col@[t]);
            }
        };
        row2idx_dia.push(d);
        proof {
            assert(row2idx@[i_row as int] == entry_base);
            assert(row2idx@[i_row as int + 1] == new_hi as int);
            assert forall|k: int| entry_base <= k < new_hi implies #[trigger] idx2col@[k] < num_row
                && idx2col@[k] != i_row by {};
            assert forall|k1: int, k2: int|
                entry_base <= k1 < k2 < new_hi implies #[trigger] idx2col@[k1]
                < #[trigger] idx2col@[k2] by {};
        }
        i_row = i_row + 1;
    }
    proof {
        assert(row2idx@[num_row as int] == idx2col@.len());
    }
    let mut out_idx2col: Vec<usize> = Vec::new();
    let mut icrs: usize = 0;
    while icrs < idx2col.len()
        invariant
            icrs <= idx2col@.len(),
            out_idx2col@.len() == icrs,
            forall|k: int| 0 <= k < icrs ==> #[trigger] out_idx2col@[k] == idx2col@[k],
        decreases idx2col@.len() - icrs,
    {
        out_idx2col.push(idx2col[icrs]);
        icrs = icrs + 1;
    }
    proof {
        assert(out_idx2col@ =~= idx2col@);
    }
    (row2idx, out_idx2col, row2idx_dia)
}

} // verus!
