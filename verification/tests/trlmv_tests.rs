use coral::enums::{CoralDiag, CoralTranspose};
use coral::trlmv::strlmv;

fn next_val(state: &mut u64) -> i64 {
    *state = state.wrapping_mul(6364136223846793005).wrapping_add(1442695040888963407);
    ((*state >> 33) % 17) as i64 - 8
}

fn fill(len: usize, seed: u64) -> Vec<i64> {
    let mut state = seed;
    (0..len).map(|_| next_val(&mut state)).collect()
}

fn naive_trlmv(
    n: usize, unit: bool, trans: bool, mat: &[i64], lda: usize, x: &mut [i64], incx: usize,
) {
    let x0: Vec<i64> = x.to_vec();
    for i in 0..n {
        let mut sum = if unit {
            x0[i * incx]
        } else {
            mat[i + i * lda] * x0[i * incx]
        };
        if !trans {
            for j in 0..i {
                sum += mat[i + j * lda] * x0[j * incx];
            }
        } else {
            for j in (i + 1)..n {
                sum += mat[j + i * lda] * x0[j * incx];
            }
        }
        x[i * incx] = sum;
    }
}

fn check_one(n: usize, diag: CoralDiag, trans: CoralTranspose, incx: usize, seed: u64) {
    let lda = n + 1;
    let mat = fill(if n > 0 { (n - 1) * lda + n } else { 1 }, seed);
    let xlen = if n > 0 { (n - 1) * incx + 1 + 2 } else { 3 };
    let x0 = fill(xlen, seed ^ 0x5555);
    let mut x = x0.clone();
    strlmv(n, diag, trans, &mat, lda, &mut x, incx);
    let unit = diag == CoralDiag::UnitDiag;
    let is_t = trans != CoralTranspose::NoTranspose;
    let mut want = x0.clone();
    naive_trlmv(n, unit, is_t, &mat, lda, &mut want, incx);
    for t in 0..n {
        assert_eq!(x[t * incx], want[t * incx], "n={n} incx={incx} t={t}");
    }
    // positions between and past the logical elements are untouched
    for q in 0..xlen {
        let logical = n > 0 && q % incx == 0 && q / incx < n;
        if !logical {
            assert_eq!(x[q], x0[q], "gap q={q} n={n} incx={incx}");
        }
    }
}

#[test]
fn trlmv_matches_naive_sweep_all_panel_boundaries() {
    let sizes = [0usize, 1, 2, 63, 64, 65, 127, 128, 130];
    let diags = [CoralDiag::UnitDiag, CoralDiag::NonUnitDiag];
    let transes = [
        CoralTranspose::NoTranspose,
        CoralTranspose::Transpose,
        CoralTranspose::ConjugateTranspose,
    ];
    let mut seed = 7u64;
    for &n in &sizes {
        for &d in &diags {
            for &t in &transes {
                for &incx in &[1usize, 2, 3] {
                    seed += 1;
                    check_one(n, d, t, incx, seed);
                }
            }
        }
    }
}

#[test]
fn trlmv_tiny_exact_values() {
    // L = [[2, .], [3, 4]] column-major with lda 2, x = [5, 6]
    let mat = vec![2i64, 3, 0, 4];
    let mut x = vec![5i64, 6];
    strlmv(2, CoralDiag::NonUnitDiag, CoralTranspose::NoTranspose, &mat, 2, &mut x, 1);
    // row 0: 2*5 = 10; row 1: 3*5 + 4*6 = 39
    assert_eq!(x, vec![10, 39]);

    let mut y = vec![5i64, 6];
    strlmv(2, CoralDiag::NonUnitDiag, CoralTranspose::Transpose, &mat, 2, &mut y, 1);
    // row 0: 2*5 + 3*6 = 28; row 1: 4*6 = 24
    assert_eq!(y, vec![28, 24]);

    let mut z = vec![5i64, 6];
    strlmv(2, CoralDiag::UnitDiag, CoralTranspose::NoTranspose, &mat, 2, &mut z, 1);
    // unit diagonal: row 0: 5; row 1: 3*5 + 6 = 21
    assert_eq!(z, vec![5, 21]);
}

#[test]
fn trlmv_zero_order_is_noop() {
    let mat = vec![1i64];
    let x0 = vec![9i64, 8, 7];
    let mut x = x0.clone();
    strlmv(0, CoralDiag::NonUnitDiag, CoralTranspose::NoTranspose, &mat, 1, &mut x, 2);
    assert_eq!(x, x0);
}
