use coral::enums::CoralTriangular;
use coral::her2::zher2;

fn next_val(state: &mut u64) -> i64 {
    *state = state.wrapping_mul(6364136223846793005).wrapping_add(1442695040888963407);
    ((*state >> 33) % 15) as i64 - 7
}

fn fill(len: usize, seed: u64) -> Vec<i64> {
    let mut state = seed;
    (0..len).map(|_| next_val(&mut state)).collect()
}

#[allow(clippy::too_many_arguments)]
fn naive_zher2(
    upper: bool, n: usize, alpha: [i64; 2],
    x: &[i64], incx: usize, y: &[i64], incy: usize,
    mat: &mut [i64], lda: usize,
) {
    if n == 0 || (alpha[0] == 0 && alpha[1] == 0) {
        return;
    }
    let (ar, ai) = (alpha[0], alpha[1]);
    for j in 0..n {
        let (xjr, xji) = (x[2 * j * incx], x[2 * j * incx + 1]);
        let (yjr, yji) = (y[2 * j * incy], y[2 * j * incy + 1]);
        // alpha * conj(y[j]) and conj(alpha) * conj(x[j])
        let (ayr, ayi) = (ar * yjr + ai * yji, ai * yjr - ar * yji);
        let (axr, axi) = (ar * xjr - ai * xji, -(ar * xji) - ai * xjr);
        let rows: Vec<usize> = if upper { (0..=j).collect() } else { (j..n).collect() };
        for i in rows {
            let (xir, xii) = (x[2 * i * incx], x[2 * i * incx + 1]);
            let (yir, yii) = (y[2 * i * incy], y[2 * i * incy + 1]);
            let ridx = 2 * (i + j * lda);
            mat[ridx] += (ayr * xir - ayi * xii) + (axr * yir - axi * yii);
            mat[ridx + 1] += (ayr * xii + ayi * xir) + (axr * yii + axi * yir);
        }
        mat[2 * (j + j * lda) + 1] = 0;
    }
}

fn check_one(upper: bool, n: usize, alpha: [i64; 2], incx: usize, incy: usize, seed: u64) {
    let lda = n + 1;
    let mlen = if n > 0 { 2 * ((n - 1) * lda + n) + 2 } else { 2 };
    let xlen = if n > 0 { 2 * ((n - 1) * incx + 1) } else { 2 };
    let ylen = if n > 0 { 2 * ((n - 1) * incy + 1) } else { 2 };
    let x = fill(xlen, seed);
    let y = fill(ylen, seed ^ 0xbeef);
    let m0 = fill(mlen, seed ^ 0xcafe);
    let uplo = if upper {
        CoralTriangular::UpperTriangular
    } else {
        CoralTriangular::LowerTriangular
    };
    let mut m = m0.clone();
    zher2(uplo, n, alpha, &x, incx, &y, incy, &mut m, lda);
    let mut want = m0.clone();
    naive_zher2(upper, n, alpha, &x, incx, &y, incy, &mut want, lda);
    assert_eq!(m, want, "upper={upper} n={n} incx={incx} incy={incy}");
    // the other triangle and the padding stay untouched
    for j in 0..n {
        for i in 0..n {
            let stored = if upper { i <= j } else { i >= j };
            if !stored {
                let ridx = 2 * (i + j * lda);
                assert_eq!(m[ridx], m0[ridx]);
                assert_eq!(m[ridx + 1], m0[ridx + 1]);
            }
        }
    }
}

#[test]
fn zher2_matches_naive_reference() {
    let mut seed = 3u64;
    for &upper in &[true, false] {
        for &n in &[0usize, 1, 2, 5, 9] {
            for &(incx, incy) in &[(1usize, 1usize), (2, 1), (1, 3), (2, 2)] {
                seed += 1;
                check_one(upper, n, [3, -2], incx, incy, seed);
            }
        }
    }
}

#[test]
fn zher2_zero_alpha_is_noop() {
    let n = 4usize;
    let lda = n;
    let x = fill(2 * n, 1);
    let y = fill(2 * n, 2);
    let m0 = fill(2 * lda * n, 3);
    let mut m = m0.clone();
    zher2(CoralTriangular::UpperTriangular, n, [0, 0], &x, 1, &y, 1, &mut m, lda);
    assert_eq!(m, m0);
}

#[test]
fn zher2_zero_order_is_noop() {
    let x = vec![1i64, 2];
    let y = vec![3i64, 4];
    let m0 = vec![5i64, 6];
    let mut m = m0.clone();
    zher2(CoralTriangular::LowerTriangular, 0, [1, 1], &x, 1, &y, 1, &mut m, 1);
    assert_eq!(m, m0);
}

#[test]
fn zher2_diagonal_imaginary_forced_to_zero() {
    let n = 3usize;
    let lda = n;
    let x = fill(2 * n, 21);
    let y = fill(2 * n, 22);
    // start from a matrix whose diagonal imaginary parts are nonzero
    let mut m = vec![7i64; 2 * lda * n];
    zher2(CoralTriangular::LowerTriangular, n, [2, 5], &x, 1, &y, 1, &mut m, lda);
    for j in 0..n {
        assert_eq!(m[2 * (j + j * lda) + 1], 0);
    }
}

#[test]
fn zher2_tiny_exact_value() {
    // n = 1, alpha = (1, 0), x = 2+i, y = 3-i, A = 10+9i (diag)
    // A' = A + alpha*x*conj(y) + conj(alpha)*y*conj(x)
    //    = 10 + 2*Re((2+i)(3+i)) = 10 + 2*5 = 20, imag forced 0
    let x = vec![2i64, 1];
    let y = vec![3i64, -1];
    let mut m = vec![10i64, 9];
    zher2(CoralTriangular::UpperTriangular, 1, [1, 0], &x, 1, &y, 1, &mut m, 1);
    assert_eq!(m, vec![20, 0]);
}
