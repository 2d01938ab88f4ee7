//! Compressed sparse-row square matrix with the diagonal stored separately,
//! scatter-add assembly, and a generalized sparse matrix-vector product.

use crate::fits_i64;
use vstd::prelude::*;

verus! {

/// A valid sparsity pattern over `num_blk` row blocks: `row2idx` holds
/// monotone prefix offsets bracketing each row's slice of `idx2col`, and
/// within each row the column indices are strictly ascending, lie in
/// `[0, num_blk)`, and never name the row itself (the diagonal is implicit).
pub open spec fn pattern_wf(row2idx: Seq<usize>, idx2col: Seq<usize>, num_blk: int) -> bool {
    &&& num_blk >= 0
    &&& row2idx.len() == num_blk + 1
    &&& row2idx[0] == 0
    &&& forall|i: int|
        #![trigger row2idx[i], row2idx[i + 1]]
        0 <= i < num_blk ==> row2idx[i] <= row2idx[i + 1]
    &&& row2idx[num_blk] == idx2col.len()
    &&& forall|i: int, k: int|
        #![trigger row2idx[i], idx2col[k]]
        0 <= i < num_blk && row2idx[i] <= k < row2idx[i + 1] ==> idx2col[k] < num_blk
            && idx2col[k] != i
    &&& forall|i: int, k1: int, k2: int|
        #![trigger row2idx[i], idx2col[k1], idx2col[k2]]
        0 <= i < num_blk && row2idx[i] <= k1 < k2 < row2idx[i + 1] ==> idx2col[k1] < idx2col[k2]
}

/// The pattern holds an off-diagonal entry at row `r`, column `c`.
pub open spec fn in_pattern(row2idx: Seq<usize>, idx2col: Seq<usize>, r: int, c: int) -> bool {
    exists|k: int| row2idx[r] <= k < row2idx[r + 1] && #[trigger] idx2col[k] == c
}

/// The position inside `idx2col` of the entry at row `r`, column `c`.
pub open spec fn idx_of(row2idx: Seq<usize>, idx2col: Seq<usize>, r: int, c: int) -> int {
    choose|k: int| row2idx[r] <= k < row2idx[r + 1] && #[trigger] idx2col[k] == c
}

/// Sparse square matrix in compressed sparse-row form. Off-diagonal entries
/// live in `idx2col`/`idx2val`, sliced per row by `row2idx`; the diagonal
/// value of each row block is kept apart in `row2val`.
pub struct Matrix {
    pub num_blk: usize,
    pub row2idx: Vec<usize>,
    pub idx2col: Vec<usize>,
    pub idx2val: Vec<i64>,
    pub row2val: Vec<i64>,
}

impl Matrix {
    /// Structural and size invariants tying the five fields together.
    pub open spec fn wf(&self) -> bool {
        &&& pattern_wf(self.row2idx@, self.idx2col@, self.num_blk as int)
        &&& self.idx2val@.len() == self.idx2col@.len()
        &&& self.row2val@.len() == self.num_blk
    }

    /// An empty zero-dimensional matrix.
    pub fn new() -> (r: Self)
        ensures
            r.wf(),
            r.num_blk == 0,
            r.row2idx@ =~= seq![0usize],
            r.idx2col@ =~= Seq::<usize>::empty(),
            r.idx2val@ =~= Seq::<i64>::empty(),
            r.row2val@ =~= Seq::<i64>::empty(),
    {
        Matrix {
            num_blk: 0,
            row2idx: vec![0],
            idx2col: Vec::<usize>::new(),
            idx2val: Vec::<i64>::new(),
            row2val: Vec::<i64>::new(),
        }
    }

    /// A deep copy of the matrix.
    pub fn clone(&self) -> (r: Self)
        ensures
            r.num_blk == self.num_blk,
            r.row2idx@ == self.row2idx@,
            r.idx2col@ == self.idx2col@,
            r.idx2val@ == self.idx2val@,
            r.row2val@ == self.row2val@,
    {
        let r = Matrix {
            num_blk: self.num_blk,
            row2idx: self.row2idx.clone(),
            idx2col: self.idx2col.clone(),
            idx2val: self.idx2val.clone(),
            row2val: self.row2val.clone(),
        };
        assert(r.row2idx@ =~= self.row2idx@);
        assert(r.idx2col@ =~= self.idx2col@);
        assert(r.idx2val@ =~= self.idx2val@);
        assert(r.row2val@ =~= self.row2val@);
        r
    }

    /// Stores the given fixed sparsity pattern and allocates zero values.
    #[verifier::rlimit(100)]
    pub fn initialize_as_square_matrix(&mut self, row2idx: &Vec<usize>, idx2col: &Vec<usize>)
        requires
            row2idx@.len() >= 1,
            pattern_wf(row2idx@, idx2col@, row2idx@.len() - 1),
        ensures
            final(self).wf(),
            final(self).num_blk == row2idx@.len() - 1,
            final(self).row2idx@ == row2idx@,
            final(self).idx2col@ == idx2col@,
            final(self).idx2val@.len() == idx2col@.len(),
            final(self).row2val@.len() == row2idx@.len() - 1,
            forall|k: int| 0 <= k < idx2col@.len() ==> final(self).idx2val@[k] == 0i64,
            forall|r: int| 0 <= r < row2idx@.len() - 1 ==> final(self).row2val@[r] == 0i64,
    {
        self.num_blk = row2idx.len() - 1;
        self.row2idx = row2idx.clone();
        self.idx2col = idx2col.clone();
        assert(self.row2idx@ =~= row2idx@);
        assert(self.idx2col@ =~= idx2col@);
        let num_idx = idx2col.len();
        self.idx2val = vec![0i64; num_idx];
        self.row2val = vec![0i64; self.num_blk];
    }

    /// Resets every diagonal and off-diagonal value to the additive identity;
    /// the pattern is untouched.
    #[verifier::rlimit(100)]
    pub fn set_zero(&mut self)
        requires
            old(self).wf(),
        ensures
            final(self).wf(),
            final(self).num_blk == old(self).num_blk,
            final(self).row2idx@ == old(self).row2idx@,
            final(self).idx2col@ == old(self).idx2col@,
            forall|k: int| 0 <= k < final(self).idx2val@.len() ==> final(self).idx2val@[k] == 0i64,
            forall|r: int| 0 <= r < final(self).row2val@.len() ==> final(self).row2val@[r] == 0i64,
            final(self).idx2val@.len() == old(self).idx2val@.len(),
            final(self).row2val@.len() == old(self).row2val@.len(),
    {
        crate::slice::set_zero(&mut self.row2val);
        crate::slice::set_zero(&mut self.idx2val);
    }

    /// Scatter-adds a dense local block (row-major, `node2row.len()` by
    /// `node2col.len()`) into the matrix. Every off-diagonal target must
    /// already belong to the declared pattern. The scratch buffer must hold
    /// only the sentinel on entry and is restored to that state on exit.
    #[verifier::loop_isolation(false)]
    #[verifier::rlimit(100)]
    pub fn merge(
        &mut self,
        node2row: &Vec<usize>,
        node2col: &Vec<usize>,
        emat: &Vec<i64>,
        merge_buffer: &mut Vec<usize>,
    )
        requires
            old(self).wf(),
            emat@.len() == node2row@.len() * node2col@.len(),
            forall|a: int| 0 <= a < node2row@.len() ==> #[trigger] node2row@[a] < old(self).num_blk,
            forall|b: int| 0 <= b < node2col@.len() ==> #[trigger] node2col@[b] < old(self).num_blk,
            forall|a: int, b: int|
                #![trigger node2row@[a], node2col@[b]]
                0 <= a < node2row@.len() && 0 <= b < node2col@.len() && node2row@[a] != node2col@[b]
                    ==> in_pattern(
                    old(self).row2idx@,
                    old(self).idx2col@,
                    node2row@[a] as int,
                    node2col@[b] as int,
                ),
            forall|i: int|
                0 <= i < old(merge_buffer)@.len() ==> #[trigger] old(merge_buffer)@[i]
                    == usize::MAX,
            forall|r: int, s: int|
                #![trigger dia_contrib(node2row@, node2col@, emat@, r, s)]
                0 <= r < old(self).num_blk && 0 <= s <= emat@.len() ==> fits_i64(
                    old(self).row2val@[r] + dia_contrib(node2row@, node2col@, emat@, r, s),
                ),
            forall|i: int, k: int, s: int|
                #![trigger off_contrib(node2row@, node2col@, emat@, i, old(self).idx2col@[k] as int, s)]
                0 <= i < old(self).num_blk && old(self).row2idx@[i] <= k < old(self).row2idx@[i + 1]
                    && 0 <= s <= emat@.len() ==> fits_i64(
                    old(self).idx2val@[k] + off_contrib(
                        node2row@,
                        node2col@,
                        emat@,
                        i,
                        old(self).idx2col@[k] as int,
                        s,
                    ),
                ),
        ensures
            final(self).wf(),
            final(self).num_blk == old(self).num_blk,
            final(self).row2idx@ == old(self).row2idx@,
            final(self).idx2col@ == old(self).idx2col@,
            final(self).row2val@.len() == old(self).row2val@.len(),
            final(self).idx2val@.len() == old(self).idx2val@.len(),
            forall|r: int|
                0 <= r < old(self).num_blk ==> final(self).row2val@[r] == old(self).row2val@[r]
                    + dia_contrib(node2row@, node2col@, emat@, r, emat@.len() as int),
            forall|i: int, k: int|
                #![trigger old(self).row2idx@[i], final(self).idx2val@[k]]
                0 <= i < old(self).num_blk && old(self).row2idx@[i] <= k < old(self).row2idx@[i + 1]
                    ==> final(self).idx2val@[k] == old(self).idx2val@[k] + off_contrib(
                    node2row@,
                    node2col@,
                    emat@,
                    i,
                    old(self).idx2col@[k] as int,
                    emat@.len() as int,
                ),
            final(merge_buffer)@.len() == old(self).num_blk,
            forall|c: int|
                0 <= c < old(self).num_blk ==> #[trigger] final(merge_buffer)@[c] == usize::MAX,
    {
        let num_blk = self.num_blk;
        let nrow = node2row.len();
        let ncol = node2col.len();
        let emat_len = emat.len();
        if merge_buffer.len() > num_blk {
            merge_buffer.truncate(num_blk);
        }
        while merge_buffer.len() < num_blk
            invariant
                merge_buffer@.len() <= num_blk,
                forall|c: int|
                    0 <= c < merge_buffer@.len() ==> #[trigger] merge_buffer@[c] == usize::MAX,
            decreases num_blk - merge_buffer@.len(),
        {
            merge_buffer.push(usize::MAX);
        }
        assert(forall|c: int| 0 <= c < num_blk ==> #[trigger] merge_buffer@[c] == usize::MAX);
        proof {
            lemma_offsets_monotone(old(self).row2idx@, old(self).idx2col@, num_blk as int);
        }
        let mut inode: usize = 0;
        while inode < nrow
            invariant
                inode <= nrow,
                merge_buffer@.len() == num_blk,
                forall|c: int| 0 <= c < num_blk ==> #[trigger] merge_buffer@[c] == usize::MAX,
                self.num_blk == old(self).num_blk,
                self.row2idx@ == old(self).row2idx@,
                self.idx2col@ == old(self).idx2col@,
                self.row2val@.len() == old(self).row2val@.len(),
                self.idx2val@.len() == old(self).idx2val@.len(),
                forall|r: int|
                    0 <= r < num_blk ==> self.row2val@[r] == old(self).row2val@[r] + dia_contrib(
                        node2row@,
                        node2col@,
                        emat@,
                        r,
                        (inode * ncol) as int,
                    ),
                forall|i: int, k: int|
                    #![trigger old(self).row2idx@[i], self.idx2val@[k]]
                    0 <= i < num_blk && old(self).row2idx@[i] <= k < old(self).row2idx@[i + 1]
                        ==> self.idx2val@[k] == old(self).idx2val@[k] + off_contrib(
                        node2row@,
                        node2col@,
                        emat@,
                        i,
                        old(self).idx2col@[k] as int,
                        (inode * ncol) as int,
                    ),
            decreases nrow - inode,
        {
            let irow = node2row[inode];
            assert(irow < num_blk);
            proof {
                lemma_row2idx_le(
                    self.row2idx@,
                    self.idx2col@,
                    num_blk as int,
                    irow + 1,
                    num_blk as int,
                );
                assert(inode * ncol + ncol == (inode + 1) * ncol) by (nonlinear_arith);
                assert((inode + 1) * ncol <= nrow * ncol) by (nonlinear_arith)
                    requires
                        inode + 1 <= nrow,
                        ncol >= 0,
                ;
            }
            let lo = self.row2idx[irow];
            let hi = self.row2idx[irow + 1];
            let mut idx0 = lo;
            while idx0 < hi
                invariant
                    lo <= idx0 <= hi,
                    merge_buffer@.len() == num_blk,
                    forall|k: int|
                        lo <= k < idx0 ==> merge_buffer@[#[trigger] self.idx2col@[k] as int] == k,
                    forall|c: int|
                        0 <= c < num_blk && !(exists|k: int|
                            lo <= k < idx0 && self.idx2col@[k] as int == c)
                            ==> #[trigger] merge_buffer@[c] == usize::MAX,
                decreases hi - idx0,
            {
                let icol = self.idx2col[idx0];
                assert(icol < num_blk);
                assert forall|k: int| lo <= k < idx0 implies #[trigger] self.idx2col@[k] as int
                    != icol as int by {};
                merge_buffer.set(icol, idx0);
                idx0 = idx0 + 1;
            }
            let mut jnode: usize = 0;
            while jnode < ncol
                invariant
                    jnode <= ncol,
                    self.num_blk == old(self).num_blk,
                    self.row2idx@ == old(self).row2idx@,
                    self.idx2col@ == old(self).idx2col@,
                    self.row2val@.len() == old(self).row2val@.len(),
                    self.idx2val@.len() == old(self).idx2val@.len(),
                    forall|r: int|
                        0 <= r < num_blk ==> self.row2val@[r] == old(self).row2val@[r]
                            + dia_contrib(
                            node2row@,
                            node2col@,
                            emat@,
                            r,
                            (inode * ncol + jnode) as int,
                        ),
                    forall|i: int, k: int|
                        #![trigger old(self).row2idx@[i], self.idx2val@[k]]
                        0 <= i < num_blk && old(self).row2idx@[i] <= k < old(self).row2idx@[i + 1]
                            ==> self.idx2val@[k] == old(self).idx2val@[k] + off_contrib(
                            node2row@,
                            node2col@,
                            emat@,
                            i,
                            old(self).idx2col@[k] as int,
                            (inode * ncol + jnode) as int,
                        ),
                decreases ncol - jnode,
            {
                let ghost s: int = (inode * ncol + jnode) as int;
                let jcol = node2col[jnode];
                assert(jcol < num_blk);
                proof {
                    assert(inode * ncol + jnode < nrow * ncol) by (nonlinear_arith)
                        requires
                            inode < nrow,
                            jnode < ncol,
                    ;
                    vstd::arithmetic::div_mod::lemma_fundamental_div_mod_converse_div(
                        s,
                        ncol as int,
                        inode as int,
                        jnode as int,
                    );
                    vstd::arithmetic::div_mod::lemma_fundamental_div_mod_converse_mod(
                        s,
                        ncol as int,
                        inode as int,
                        jnode as int,
                    );
                    assert(step_row(node2row@, node2col@, s) == irow as int);
                    assert(step_col(node2col@, s) == jcol as int);
                }
                let eval = emat[inode * ncol + jnode];
                if irow == jcol {
                    assert(dia_contrib(node2row@, node2col@, emat@, irow as int, s + 1)
                        == dia_contrib(node2row@, node2col@, emat@, irow as int, s) + emat@[s]);
                    let cur = self.row2val[irow];
                    let nv = cur + eval;
                    self.row2val.set(irow, nv);
                    proof {
                        assert forall|r: int| 0 <= r < num_blk && r != irow as int implies
                            dia_contrib(node2row@, node2col@, emat@, r, s + 1) == dia_contrib(
                            node2row@,
                            node2col@,
                            emat@,
                            r,
                            s,
                        ) by {};
                        assert forall|i: int, k: int|
                            #![trigger old(self).row2idx@[i], old(self).idx2col@[k]]
                            0 <= i < num_blk && old(self).row2idx@[i] <= k < old(self).row2idx@[i
                                + 1] implies off_contrib(
                            node2row@,
                            node2col@,
                            emat@,
                            i,
                            old(self).idx2col@[k] as int,
                            s + 1,
                        ) == off_contrib(
                            node2row@,
                            node2col@,
                            emat@,
                            i,
                            old(self).idx2col@[k] as int,
                            s,
                        ) by {};
                    }
                } else {
                    assert(in_pattern(
                        old(self).row2idx@,
                        old(self).idx2col@,
                        irow as int,
                        jcol as int,
                    ));
                    let ghost k0: int = choose|k: int|
                        old(self).row2idx@[irow as int] <= k < old(self).row2idx@[irow as int + 1]
                            && #[trigger] old(self).idx2col@[k] == jcol as int;
                    assert(merge_buffer@[jcol as int] == k0);
                    let idx1 = merge_buffer[jcol];
                    assert(idx1 == k0);
                    assert(lo <= idx1 < hi);
                    assert(self.idx2col@[idx1 as int] == jcol);
                    assert(off_contrib(node2row@, node2col@, emat@, irow as int, jcol as int, s + 1)
                        == off_contrib(node2row@, node2col@, emat@, irow as int, jcol as int, s)
                        + emat@[s]);
                    assert(fits_i64(
                        old(self).idx2val@[idx1 as int] + off_contrib(
                            node2row@,
                            node2col@,
                            emat@,
                            irow as int,
                            old(self).idx2col@[idx1 as int] as int,
                            s + 1,
                        ),
                    ));
                    let ghost pre_vals = self.idx2val@;
                    let cur = self.idx2val[idx1];
                    let nv = cur + eval;
                    self.idx2val.set(idx1, nv);
                    proof {
                        assert forall|r: int| 0 <= r < num_blk implies dia_contrib(
                            node2row@,
                            node2col@,
                            emat@,
                            r,
                            s + 1,
                        ) == dia_contrib(node2row@, node2col@, emat@, r, s) by {};
                        lemma_off_update(
                            old(self).row2idx@,
                            old(self).idx2col@,
                            num_blk as int,
                            pre_vals,
                            self.idx2val@,
                            old(self).idx2val@,
                            node2row@,
                            node2col@,
                            emat@,
                            irow as int,
                            jcol as int,
                            k0,
                            s,
                        );
                    }
                }
                jnode = jnode + 1;
            }
            let mut idx2 = lo;
            while idx2 < hi
                invariant
                    lo <= idx2 <= hi,
                    merge_buffer@.len() == num_blk,
                    forall|k: int|
                        idx2 <= k < hi ==> merge_buffer@[#[trigger] self.idx2col@[k] as int] == k,
                    forall|c: int|
                        0 <= c < num_blk && !(exists|k: int|
                            idx2 <= k < hi && self.idx2col@[k] as int == c)
                            ==> #[trigger] merge_buffer@[c] == usize::MAX,
                decreases hi - idx2,
            {
                let jc = self.idx2col[idx2];
                assert(jc < num_blk);
                assert forall|k: int| idx2 < k < hi implies #[trigger] self.idx2col@[k] as int
                    != jc as int by {};
                merge_buffer.set(jc, usize::MAX);
                idx2 = idx2 + 1;
            }
            inode = inode + 1;
        }
        proof {
            assert((nrow * ncol) as int == emat@.len() as int);
        }
    }
}

/// Offsets of a valid pattern are monotone over any index distance.
pub proof fn lemma_row2idx_le(row2idx: Seq<usize>, idx2col: Seq<usize>, num_blk: int, i: int, j: int)
    requires
        pattern_wf(row2idx, idx2col, num_blk),
        0 <= i <= j <= num_blk,
    ensures
        row2idx[i] <= row2idx[j],
    decreases j - i,
{
    if i < j {
        lemma_row2idx_le(row2idx, idx2col, num_blk, i + 1, j);
    }
}

/// Distinct rows of a valid pattern own disjoint slices of `idx2col`.
pub proof fn lemma_slices_disjoint(
    row2idx: Seq<usize>,
    idx2col: Seq<usize>,
    num_blk: int,
    i1: int,
    i2: int,
    k: int,
)
    requires
        pattern_wf(row2idx, idx2col, num_blk),
        0 <= i1 < num_blk,
        0 <= i2 < num_blk,
        i1 != i2,
        row2idx[i1] <= k < row2idx[i1 + 1],
    ensures
        !(row2idx[i2] <= k < row2idx[i2 + 1]),
{
    if i1 < i2 {
        lemma_row2idx_le(row2idx, idx2col, num_blk, i1 + 1, i2);
    } else {
        lemma_row2idx_le(row2idx, idx2col, num_blk, i2 + 1, i1);
    }
}

/// Pairwise form of offset monotonicity; kept opaque so that it can sit in a
/// large verification context at no cost.
#[verifier::opaque]
pub open spec fn offsets_monotone(row2idx: Seq<usize>, num_blk: int) -> bool {
    forall|i1: int, i2: int|
        #![trigger row2idx[i1], row2idx[i2]]
        0 <= i1 <= i2 <= num_blk ==> row2idx[i1] <= row2idx[i2]
}

/// A valid pattern's offsets are pairwise monotone.
pub proof fn lemma_offsets_monotone(row2idx: Seq<usize>, idx2col: Seq<usize>, num_blk: int)
    requires
        pattern_wf(row2idx, idx2col, num_blk),
    ensures
        offsets_monotone(row2idx, num_blk),
{
    assert forall|i1: int, i2: int|
        #![trigger row2idx[i1], row2idx[i2]]
        0 <= i1 <= i2 <= num_blk implies row2idx[i1] <= row2idx[i2] by {
        lemma_row2idx_le(row2idx, idx2col, num_blk, i1, i2);
    }
    reveal(offsets_monotone);
}

/// One off-diagonal scatter step preserves the per-entry accounting: after
/// adding `emat[s]` at position `k0` (the entry of row `irow`, column `jcol`),
/// every pattern entry holds its start value plus its first `s + 1`
/// contributions.
#[verifier::rlimit(100)]
pub proof fn lemma_off_update(
    r2i: Seq<usize>,
    i2c: Seq<usize>,
    num_blk: int,
    pre: Seq<i64>,
    post: Seq<i64>,
    base: Seq<i64>,
    rows: Seq<usize>,
    cols: Seq<usize>,
    emat: Seq<i64>,
    irow: int,
    jcol: int,
    k0: int,
    s: int,
)
    requires
        offsets_monotone(r2i, num_blk),
        r2i.len() == num_blk + 1,
        r2i[num_blk] == i2c.len(),
        forall|i: int, k1: int, k2: int|
            #![trigger r2i[i], i2c[k1], i2c[k2]]
            0 <= i < num_blk && r2i[i] <= k1 < k2 < r2i[i + 1] ==> i2c[k1] < i2c[k2],
        0 <= irow < num_blk,
        r2i[irow] <= k0 < r2i[irow + 1],
        i2c[k0] as int == jcol,
        jcol != irow,
        cols.len() > 0,
        0 <= s < emat.len(),
        step_row(rows, cols, s) == irow,
        step_col(cols, s) == jcol,
        pre.len() == i2c.len(),
        base.len() == i2c.len(),
        post == pre.update(k0, (pre[k0] + emat[s]) as i64),
        fits_i64(pre[k0] + emat[s]),
        forall|i: int, k: int|
            #![trigger r2i[i], i2c[k]]
            0 <= i < num_blk && r2i[i] <= k < r2i[i + 1] ==> pre[k] == base[k] + off_contrib(
                rows,
                cols,
                emat,
                i,
                i2c[k] as int,
                s,
            ),
    ensures
        forall|i: int, k: int|
            #![trigger r2i[i], i2c[k]]
            0 <= i < num_blk && r2i[i] <= k < r2i[i + 1] ==> post[k] == base[k] + off_contrib(
                rows,
                cols,
                emat,
                i,
                i2c[k] as int,
                s + 1,
            ),
{
    assert forall|i: int, k: int|
        #![trigger r2i[i], i2c[k]]
        0 <= i < num_blk && r2i[i] <= k < r2i[i + 1] implies post[k] == base[k] + off_contrib(
        rows,
        cols,
        emat,
        i,
        i2c[k] as int,
        s + 1,
    ) by {
        reveal(offsets_monotone);
        assert(r2i[i + 1] <= r2i[num_blk]);
        assert(r2i[irow + 1] <= r2i[num_blk]);
        assert(0 <= k0 < pre.len());
        assert(0 <= k < pre.len());
        let c = i2c[k] as int;
        assert(off_contrib(rows, cols, emat, i, c, s + 1) == off_contrib(rows, cols, emat, i, c, s)
            + if step_row(rows, cols, s) == i && step_col(cols, s) == c && c != i {
            emat[s] as int
        } else {
            0
        });
        if k == k0 {
            if i < irow {
                assert(r2i[i + 1] <= r2i[irow]);
                assert(false);
            } else if i > irow {
                assert(r2i[irow + 1] <= r2i[i]);
                assert(false);
            }
            assert(i == irow);
            assert(c == jcol);
            assert(post[k] == pre[k] + emat[s]);
        } else {
            assert(post[k] == pre[k]);
            if step_row(rows, cols, s) == i && step_col(cols, s) == c && c != i {
                assert(i == irow);
                assert(i2c[k] as int == i2c[k0] as int);
                if k < k0 {
                    assert(i2c[k] < i2c[k0]);
                } else {
                    assert(i2c[k0] < i2c[k]);
                }
                assert(false);
            }
        }
    }
}

/// Global row targeted by assembly step `s` (row-major over the local block).
pub open spec fn step_row(rows: Seq<usize>, cols: Seq<usize>, s: int) -> int {
    rows[s / (cols.len() as int)] as int
}

/// Global column targeted by assembly step `s`.
pub open spec fn step_col(cols: Seq<usize>, s: int) -> int {
    cols[s % (cols.len() as int)] as int
}

/// Sum of the first `s` element contributions, in row-major step order, that
/// land on the diagonal entry of row `r`.
pub open spec fn dia_contrib(rows: Seq<usize>, cols: Seq<usize>, emat: Seq<i64>, r: int, s: int) -> int
    decreases s,
{
    if s <= 0 || cols.len() == 0 {
        0
    } else {
        dia_contrib(rows, cols, emat, r, s - 1) + if step_row(rows, cols, s - 1) == r && step_col(
            cols,
            s - 1,
        ) == r {
            emat[s - 1] as int
        } else {
            0
        }
    }
}

/// Sum of the first `s` element contributions, in row-major step order, that
/// land on the off-diagonal entry at row `r`, column `c` (with `c != r`).
pub open spec fn off_contrib(
    rows: Seq<usize>,
    cols: Seq<usize>,
    emat: Seq<i64>,
    r: int,
    c: int,
    s: int,
) -> int
    decreases s,
{
    if s <= 0 || cols.len() == 0 {
        0
    } else {
        off_contrib(rows, cols, emat, r, c, s - 1) + if step_row(rows, cols, s - 1) == r && step_col(
            cols,
            s - 1,
        ) == c && c != r {
            emat[s - 1] as int
        } else {
            0
        }
    }
}

/// Sum of the first `t` off-diagonal products `value * x[col]` of row `i`.
pub open spec fn row_sum(m: Matrix, x: Seq<i64>, i: int, t: int) -> int
    decreases t,
{
    if t <= 0 {
        0
    } else {
        row_sum(m, x, i, t - 1) + m.idx2val@[m.row2idx@[i] + t - 1] * x[m.idx2col@[m.row2idx@[i] + t
            - 1] as int]
    }
}

/// Partial accumulation of row `i`'s off-diagonal terms in evaluation order:
/// each term is `(alpha * value) * x[col]`, over the first `t` entries.
pub open spec fn row_accum(m: Matrix, x: Seq<i64>, alpha: i64, i: int, t: int) -> int
    decreases t,
{
    if t <= 0 {
        0
    } else {
        row_accum(m, x, alpha, i, t - 1) + (alpha * m.idx2val@[m.row2idx@[i] + t - 1]) * x[m.idx2col@[m.row2idx@[i]
            + t - 1] as int]
    }
}

/// The term-wise scaled accumulation equals `alpha` times the plain row sum.
pub proof fn lemma_row_accum_scale(m: Matrix, x: Seq<i64>, alpha: i64, i: int, t: int)
    ensures
        row_accum(m, x, alpha, i, t) == alpha * row_sum(m, x, i, t),
    decreases t,
{
    if t <= 0 {
        assert(alpha * 0 == 0) by (nonlinear_arith);
    } else {
        lemma_row_accum_scale(m, x, alpha, i, t - 1);
        let s = row_sum(m, x, i, t - 1);
        let v = m.idx2val@[m.row2idx@[i] + t - 1] as int;
        let xx = x[m.idx2col@[m.row2idx@[i] + t - 1] as int] as int;
        assert(alpha * (s + v * xx) == alpha * s + (alpha * v) * xx) by (nonlinear_arith);
    }
}

/// Generalized sparse matrix-vector product:
/// `y <- alpha * A * x + beta * y`, diagonal included.
#[verifier::loop_isolation(false)]
pub fn gemv_for_sparse_matrix(
    y_vec: &mut Vec<i64>,
    beta: i64,
    alpha: i64,
    a_mat: &Matrix,
    x_vec: &Vec<i64>,
)
    requires
        a_mat.wf(),
        old(y_vec)@.len() == a_mat.num_blk,
        x_vec@.len() == a_mat.num_blk,
        forall|i: int| 0 <= i < a_mat.num_blk ==> fits_i64(beta * #[trigger] old(y_vec)@[i]),
        forall|k: int|
            0 <= k < a_mat.idx2val@.len() ==> fits_i64(alpha * #[trigger] a_mat.idx2val@[k]),
        forall|i: int, k: int|
            #![trigger a_mat.row2idx@[i], a_mat.idx2val@[k]]
            0 <= i < a_mat.num_blk && a_mat.row2idx@[i] <= k < a_mat.row2idx@[i + 1] ==> fits_i64(
                (alpha * a_mat.idx2val@[k]) * x_vec@[a_mat.idx2col@[k] as int],
            ),
        forall|i: int| 0 <= i < a_mat.num_blk ==> fits_i64(alpha * #[trigger] a_mat.row2val@[i]),
        forall|i: int|
            0 <= i < a_mat.num_blk ==> fits_i64(
                (alpha * #[trigger] a_mat.row2val@[i]) * x_vec@[i],
            ),
        forall|i: int, t: int|
            #![trigger row_accum(*a_mat, x_vec@, alpha, i, t)]
            0 <= i < a_mat.num_blk && 0 <= t <= a_mat.row2idx@[i + 1] - a_mat.row2idx@[i]
                ==> fits_i64(beta * old(y_vec)@[i] + row_accum(*a_mat, x_vec@, alpha, i, t)),
        forall|i: int|
            0 <= i < a_mat.num_blk ==> fits_i64(
                beta * old(y_vec)@[i] + row_accum(
                    *a_mat,
                    x_vec@,
                    alpha,
                    i,
                    a_mat.row2idx@[i + 1] - a_mat.row2idx@[i],
                ) + (alpha * #[trigger] a_mat.row2val@[i]) * x_vec@[i],
            ),
    ensures
        final(y_vec)@.len() == a_mat.num_blk,
        forall|i: int|
            0 <= i < a_mat.num_blk ==> final(y_vec)@[i] == beta * old(y_vec)@[i] + alpha * (row_sum(
                *a_mat,
                x_vec@,
                i,
                a_mat.row2idx@[i + 1] - a_mat.row2idx@[i],
            ) + a_mat.row2val@[i] * x_vec@[i]),
{
    let num_blk = a_mat.num_blk;
    let mut i: usize = 0;
    while i < num_blk
        invariant
            i <= num_blk,
            y_vec@.len() == num_blk,
            forall|j: int| 0 <= j < i ==> y_vec@[j] == beta * old(y_vec)@[j],
            forall|j: int| i <= j < num_blk ==> y_vec@[j] == old(y_vec)@[j],
        decreases num_blk - i,
    {
        let t: i64 = beta * y_vec[i];
        y_vec.set(i, t);
        i = i + 1;
    }
    let mut iblk: usize = 0;
    while iblk < num_blk
        invariant
            iblk <= num_blk,
            y_vec@.len() == num_blk,
            forall|r: int|
                0 <= r < iblk ==> y_vec@[r] == beta * old(y_vec)@[r] + row_accum(
                    *a_mat,
                    x_vec@,
                    alpha,
                    r,
                    a_mat.row2idx@[r + 1] - a_mat.row2idx@[r],
                ) + (alpha * a_mat.row2val@[r]) * x_vec@[r],
            forall|r: int| iblk <= r < num_blk ==> y_vec@[r] == beta * old(y_vec)@[r],
        decreases num_blk - iblk,
    {
        proof {
            lemma_row2idx_le(a_mat.row2idx@, a_mat.idx2col@, num_blk as int, iblk + 1, num_blk as int);
        }
        let idx_lo: usize = a_mat.row2idx[iblk];
        let idx_hi: usize = a_mat.row2idx[iblk + 1];
        let mut icrs: usize = idx_lo;
        while icrs < idx_hi
            invariant
                idx_lo <= icrs <= idx_hi,
                y_vec@.len() == num_blk,
                forall|r: int|
                    0 <= r < iblk ==> y_vec@[r] == beta * old(y_vec)@[r] + row_accum(
                        *a_mat,
                        x_vec@,
                        alpha,
                        r,
                        a_mat.row2idx@[r + 1] - a_mat.row2idx@[r],
                    ) + (alpha * a_mat.row2val@[r]) * x_vec@[r],
                forall|r: int| iblk < r < num_blk ==> y_vec@[r] == beta * old(y_vec)@[r],
                y_vec@[iblk as int] == beta * old(y_vec)@[iblk as int] + row_accum(
                    *a_mat,
                    x_vec@,
                    alpha,
                    iblk as int,
                    icrs - idx_lo,
                ),
            decreases idx_hi - icrs,
        {
            let jblk0: usize = a_mat.idx2col[icrs];
            assert(jblk0 < num_blk);
            let term: i64 = (alpha * a_mat.idx2val[icrs]) * x_vec[jblk0];
            assert(row_accum(*a_mat, x_vec@, alpha, iblk as int, icrs - idx_lo + 1) == row_accum(
                *a_mat,
                x_vec@,
                alpha,
                iblk as int,
                icrs - idx_lo,
            ) + (alpha * a_mat.idx2val@[icrs as int]) * x_vec@[jblk0 as int]);
            let s: i64 = y_vec[iblk] + term;
            y_vec.set(iblk, s);
            icrs = icrs + 1;
        }
        let dterm: i64 = (alpha * a_mat.row2val[iblk]) * x_vec[iblk];
        let s2: i64 = y_vec[iblk] + dterm;
        y_vec.set(iblk, s2);
        iblk = iblk + 1;
    }
    proof {
        assert forall|i2: int| 0 <= i2 < a_mat.num_blk implies final(y_vec)@[i2] == beta * old(
            y_vec,
        )@[i2] + alpha * (row_sum(
            *a_mat,
            x_vec@,
            i2,
            a_mat.row2idx@[i2 + 1] - a_mat.row2idx@[i2],
        ) + a_mat.row2val@[i2] * x_vec@[i2]) by {
            let tlen = a_mat.row2idx@[i2 + 1] - a_mat.row2idx@[i2];
            lemma_row_accum_scale(*a_mat, x_vec@, alpha, i2, tlen);
            let s = row_sum(*a_mat, x_vec@, i2, tlen);
            let d = a_mat.row2val@[i2] as int;
            let xx = x_vec@[i2] as int;
            assert(alpha * s + (alpha * d) * xx == alpha * (s + d * xx)) by (nonlinear_arith);
        }
    }
}

/// A matrix with ones on the diagonal and no off-diagonal entries maps every
/// vector to itself under `gemv` with `alpha == 1` and `beta == 0`: the
/// accumulated value of each row reduces to `x[i]`.
pub proof fn lemma_gemv_identity(m: Matrix, x: Seq<i64>, y0: Seq<i64>, i: int)
    requires
        m.wf(),
        m.idx2col@.len() == 0,
        forall|r: int| 0 <= r < m.num_blk ==> m.row2val@[r] == 1i64,
        x.len() == m.num_blk,
        y0.len() == m.num_blk,
        0 <= i < m.num_blk,
    ensures
        0i64 * y0[i] + 1i64 * (row_sum(m, x, i, m.row2idx@[i + 1] - m.row2idx@[i]) + m.row2val@[i]
            * x[i]) == x[i],
{
    lemma_row2idx_le(m.row2idx@, m.idx2col@, m.num_blk as int, 0, i);
    lemma_row2idx_le(m.row2idx@, m.idx2col@, m.num_blk as int, i + 1, m.num_blk as int);
    assert(m.row2idx@[i + 1] - m.row2idx@[i] == 0);
    assert(row_sum(m, x, i, 0) == 0);
}

/// Merging an element contribution into freshly zeroed values gives the same
/// values however often it was merged before the reset: a merge, a zero
/// reset and a second merge of the same element leave exactly the state that
/// a single merge after the reset leaves, because every value after a merge
/// is its pre-merge value plus the element's summed contributions, and the
/// reset makes the pre-merge value zero both times.
pub proof fn lemma_merge_after_reset(
    rows: Seq<usize>,
    cols: Seq<usize>,
    emat: Seq<i64>,
    r: int,
    c: int,
    s: int,
)
    ensures
        0 + dia_contrib(rows, cols, emat, r, s) == dia_contrib(rows, cols, emat, r, s),
        0 + off_contrib(rows, cols, emat, r, c, s) == off_contrib(rows, cols, emat, r, c, s),
{
}

/// Contributions from two elements merged one after the other accumulate
/// additively, and the final value does not depend on the order of the two
/// merge calls — in particular for a diagonal target that both elements
/// share.
pub proof fn lemma_merge_order_independent(
    rows1: Seq<usize>,
    cols1: Seq<usize>,
    emat1: Seq<i64>,
    rows2: Seq<usize>,
    cols2: Seq<usize>,
    emat2: Seq<i64>,
    base: int,
    r: int,
    c: int,
)
    ensures
        (base + dia_contrib(rows1, cols1, emat1, r, emat1.len() as int)) + dia_contrib(
            rows2,
            cols2,
            emat2,
            r,
            emat2.len() as int,
        ) == (base + dia_contrib(rows2, cols2, emat2, r, emat2.len() as int)) + dia_contrib(
            rows1,
            cols1,
            emat1,
            r,
            emat1.len() as int,
        ),
        (base + off_contrib(rows1, cols1, emat1, r, c, emat1.len() as int)) + off_contrib(
            rows2,
            cols2,
            emat2,
            r,
            c,
            emat2.len() as int,
        ) == (base + off_contrib(rows2, cols2, emat2, r, c, emat2.len() as int)) + off_contrib(
            rows1,
            cols1,
            emat1,
            r,
            c,
            emat1.len() as int,
        ),
{
}

} // verus!
