use sparse_solver::slice::dot;
use sparse_solver::sparse_ilu::copy_value;
use sparse_solver::sparse_ilu::decompose;
use sparse_solver::sparse_ilu::solve_preconditioning;
use sparse_solver::sparse_ilu::symbolic_iluk;
use sparse_solver::sparse_ilu::Preconditioner;
use sparse_solver::sparse_square::gemv_for_sparse_matrix;
use sparse_solver::sparse_square::Matrix;

fn four_block_matrix() -> Matrix {
    // four row blocks, tridiagonal-like connectivity, diagonal stored apart
    let mut sparse = Matrix::new();
    let colind = vec![0, 1, 3, 5, 6];
    let rowptr = vec![1, 0, 2, 1, 3, 2];
    sparse.initialize_as_square_matrix(&colind, &rowptr);
    sparse
}

#[test]
fn test_scalar() {
    let mut sparse = four_block_matrix();
    sparse.set_zero();
    {
        let emat = vec![1, 0, 0, 1];
        let mut tmp_buffer = Vec::<usize>::new();
        sparse.merge(&vec![0, 1], &vec![0, 1], &emat, &mut tmp_buffer);
    }
    let nblk = 4;
    let rhs = vec![0i64; nblk];
    let mut lhs = vec![0i64; nblk];
    gemv_for_sparse_matrix(&mut lhs, 1, 1, &sparse, &rhs);
}

#[test]
fn assembling_identity_block_sets_diagonal_and_gemv_of_zero_is_zero() {
    let mut sparse = four_block_matrix();
    sparse.set_zero();
    let emat = vec![1, 0, 0, 1];
    let mut buffer = Vec::<usize>::new();
    sparse.merge(&vec![0, 1], &vec![0, 1], &emat, &mut buffer);
    assert_eq!(sparse.row2val[0], 1);
    assert_eq!(sparse.row2val[1], 1);
    assert_eq!(sparse.row2val[2], 0);
    let x = vec![0i64; 4];
    let mut y = vec![0i64; 4];
    gemv_for_sparse_matrix(&mut y, 1, 1, &sparse, &x);
    assert_eq!(y, vec![0, 0, 0, 0]);
}

#[test]
fn gemv_on_identity_matrix_returns_input() {
    let mut m = Matrix::new();
    m.initialize_as_square_matrix(&vec![0, 0, 0, 0], &Vec::new());
    let mut buffer = Vec::<usize>::new();
    for i in 0..3 {
        m.merge(&vec![i], &vec![i], &vec![1], &mut buffer);
    }
    let x = vec![5i64, -7, 9];
    let mut y = vec![100i64, 200, 300];
    gemv_for_sparse_matrix(&mut y, 0, 1, &m, &x);
    assert_eq!(y, x);
}

#[test]
fn merge_twice_after_reset_equals_merge_once() {
    let rows = vec![0usize, 1];
    let cols = vec![0usize, 1];
    let emat = vec![3i64, -4, 5, 7];
    let mut buffer = Vec::<usize>::new();

    let mut once = four_block_matrix();
    once.set_zero();
    once.merge(&rows, &cols, &emat, &mut buffer);

    let mut twice = four_block_matrix();
    twice.set_zero();
    twice.merge(&rows, &cols, &emat, &mut buffer);
    twice.set_zero();
    twice.merge(&rows, &cols, &emat, &mut buffer);

    assert_eq!(once.row2val, twice.row2val);
    assert_eq!(once.idx2val, twice.idx2val);
}

#[test]
fn merges_accumulate_additively_in_either_order() {
    // both elements contribute to the diagonal of block 1
    let e1_rows = vec![0usize, 1];
    let e1 = vec![2i64, 1, 1, 4];
    let e2_rows = vec![1usize, 2];
    let e2 = vec![10i64, -2, -2, 20];
    let mut buffer = Vec::<usize>::new();

    let mut ab = four_block_matrix();
    ab.set_zero();
    ab.merge(&e1_rows, &e1_rows, &e1, &mut buffer);
    ab.merge(&e2_rows, &e2_rows, &e2, &mut buffer);

    let mut ba = four_block_matrix();
    ba.set_zero();
    ba.merge(&e2_rows, &e2_rows, &e2, &mut buffer);
    ba.merge(&e1_rows, &e1_rows, &e1, &mut buffer);

    assert_eq!(ab.row2val, ba.row2val);
    assert_eq!(ab.idx2val, ba.idx2val);
    assert_eq!(ab.row2val[1], 14);
}

#[test]
fn ilu0_pattern_equals_source_pattern() {
    let a = four_block_matrix();
    let mut ilu = Preconditioner::new();
    ilu.initialize_ilu0(&a);
    assert_eq!(ilu.row2idx, a.row2idx);
    assert_eq!(ilu.idx2col, a.idx2col);
    assert_eq!(ilu.row2idx_dia, vec![0, 2, 4, 6]);
}

#[test]
fn iluk_level_zero_copies_pattern_and_levels_nest() {
    let a = four_block_matrix();
    let mut ilu = Preconditioner::new();
    ilu.initialize_iluk(&a, 0);
    assert_eq!(ilu.row2idx, a.row2idx);
    assert_eq!(ilu.idx2col, a.idx2col);

    // a pattern with genuine fill: rows 0..3 hold {1,3}, {0,2}, {1,3}, {0,2}
    let r2i = vec![0usize, 2, 4, 6, 8];
    let i2c = vec![1usize, 3, 0, 2, 1, 3, 0, 2];
    let (p1_r2i, p1_cols, _) = symbolic_iluk(&r2i, &i2c, 1);
    let (p2_r2i, p2_cols, _) = symbolic_iluk(&r2i, &i2c, 2);
    // the source pattern is contained in the level-1 pattern
    for i in 0..4 {
        for k in r2i[i]..r2i[i + 1] {
            let c = i2c[k];
            assert!(p1_cols[p1_r2i[i]..p1_r2i[i + 1]].contains(&c));
        }
    }
    // the level-1 pattern is contained in the level-2 pattern
    for i in 0..4 {
        for k in p1_r2i[i]..p1_r2i[i + 1] {
            let c = p1_cols[k];
            assert!(p2_cols[p2_r2i[i]..p2_r2i[i + 1]].contains(&c));
        }
    }
    // level 1 keeps the fill entries (1,3) and (3,1) of this pattern
    assert!(p1_cols[p1_r2i[1]..p1_r2i[2]].contains(&3));
    assert!(p1_cols[p1_r2i[3]..p1_r2i[4]].contains(&1));
}

#[test]
fn diagonal_preconditioning_divides_exactly() {
    let mut a = Matrix::new();
    a.initialize_as_square_matrix(&vec![0, 0], &Vec::new());
    let mut buffer = Vec::<usize>::new();
    a.merge(&vec![0], &vec![0], &vec![2], &mut buffer);
    let mut ilu = Preconditioner::new();
    ilu.initialize_ilu0(&a);
    copy_value(&mut ilu, &a);
    decompose(&mut ilu);
    assert_eq!(ilu.row2val, vec![2]);
    let mut vec4 = vec![4i64];
    solve_preconditioning(&mut vec4, &ilu);
    assert_eq!(vec4, vec![2]);
}

#[test]
fn full_pattern_holds_every_off_diagonal_column() {
    let mut ilu = Preconditioner::new();
    ilu.initialize_full(3);
    assert_eq!(ilu.row2idx, vec![0, 2, 4, 6]);
    assert_eq!(ilu.idx2col, vec![1, 2, 0, 2, 0, 1]);
    assert_eq!(ilu.row2idx_dia, vec![0, 3, 6]);
    assert_eq!(ilu.row2val, vec![0, 0, 0]);
}

#[test]
fn vector_kernels_compute_exact_values() {
    let a = vec![1i64, 2, 3];
    let b = vec![4i64, 5, 6];
    assert_eq!(dot(&a, &b), 32);
    let mut d = vec![0i64; 3];
    sparse_solver::slice::sub(&mut d, &a, &b);
    assert_eq!(d, vec![-3, -3, -3]);
    let mut u = vec![1i64, 1, 1];
    sparse_solver::slice::add_scaled_vector(&mut u, 2, &a);
    assert_eq!(u, vec![3, 5, 7]);
    let mut p = vec![1i64, 2, 3];
    sparse_solver::slice::scale_and_add_vec(&mut p, 10, &b);
    assert_eq!(p, vec![14, 25, 36]);
    let mut z = vec![9i64, 9];
    sparse_solver::slice::set_zero(&mut z);
    assert_eq!(z, vec![0, 0]);
    let mut c = vec![0i64; 3];
    sparse_solver::slice::copy(&mut c, &b);
    assert_eq!(c, b);
}

#[test]
fn decompose_and_apply_on_lower_upper_pattern() {
    // 2 blocks: row 0 holds column 1, row 1 holds column 0
    let mut a = Matrix::new();
    a.initialize_as_square_matrix(&vec![0, 1, 2], &vec![1, 0]);
    let mut buffer = Vec::<usize>::new();
    // [[4, 1], [2, 6]]
    a.merge(&vec![0, 1], &vec![0, 1], &vec![4, 1, 2, 6], &mut buffer);
    let mut ilu = Preconditioner::new();
    ilu.initialize_ilu0(&a);
    copy_value(&mut ilu, &a);
    decompose(&mut ilu);
    // row 1's lower entry 2 eliminates with row 0's upper entry 1:
    // the diagonal 6 loses (2 * 1) / 4 = 0, so the pivots stay 4 and 6
    assert_eq!(ilu.row2val, vec![4, 6]);
    let mut v = vec![8i64, 12];
    solve_preconditioning(&mut v, &ilu);
    // forward: v0 = 8/4 = 2; v1 = (12 - 2*2)/6 = 1; backward: v0 -= (1*1)/4 = 0,
    // so the result is exactly the two triangular solves in machine arithmetic
    assert_eq!(v, vec![2, 1]);
}
