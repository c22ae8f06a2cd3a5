use coral::gemm::{edge_kernel, gemm, microkernel, pack_a, pack_b};

const MR: usize = 6;
const NR: usize = 8;
const KC: usize = 4;

fn next_val(state: &mut u64) -> i64 {
    *state = state.wrapping_mul(6364136223846793005).wrapping_add(1442695040888963407);
    ((*state >> 33) % 19) as i64 - 9
}

fn fill(len: usize, seed: u64) -> Vec<i64> {
    let mut state = seed;
    (0..len).map(|_| next_val(&mut state)).collect()
}

#[allow(clippy::too_many_arguments)]
fn naive_gemm(
    m: usize, n: usize, k: usize, alpha: i64,
    a: &[i64], lda: usize, b: &[i64], ldb: usize,
    beta: i64, c: &mut [i64], ldc: usize,
) {
    for j in 0..n {
        for i in 0..m {
            let mut dot = 0i64;
            for p in 0..k {
                dot += a[i + p * lda] * b[p + j * ldb];
            }
            let idx = i + j * ldc;
            if beta == 0 {
                c[idx] = alpha * dot;
            } else {
                c[idx] = beta * c[idx] + alpha * dot;
            }
        }
    }
}

fn check_one(m: usize, n: usize, k: usize, alpha: i64, beta: i64, seed: u64) {
    let lda = m + 2;
    let ldb = k + 1;
    let ldc = m + 3;
    let a = fill(if k > 0 { (k - 1) * lda + m + 2 } else { m + 2 }, seed);
    let b = fill(if n > 0 { (n - 1) * ldb + k + 1 } else { k + 1 }, seed ^ 0xabcdef);
    let c0 = fill(if n > 0 { (n - 1) * ldc + m + 3 } else { m + 3 }, seed ^ 0x123456);
    let mut c = c0.clone();
    let mut want = c0.clone();
    gemm(m, n, k, alpha, &a, lda, &b, ldb, beta, &mut c, ldc);
    naive_gemm(m, n, k, alpha, &a, lda, &b, ldb, beta, &mut want, ldc);
    for j in 0..n {
        for i in 0..m {
            assert_eq!(c[i + j * ldc], want[i + j * ldc], "m={m} n={n} k={k} i={i} j={j}");
        }
    }
    // padding between and beyond columns is never touched
    for t in 0..c.len() {
        let in_panel = n > 0 && t < n * ldc && (t % ldc) < m;
        if !in_panel {
            assert_eq!(c[t], c0[t], "padding t={t} m={m} n={n} k={k}");
        }
    }
}

#[test]
fn gemm_matches_reference_beta_zero() {
    let dims = [0usize, 1, 5, 6, 7, 12, 13, 14, 16, 17, 20];
    let ks = [0usize, 1, 3, 4, 5, 9];
    for &m in &dims {
        for &n in &dims {
            for &k in &ks {
                check_one(m, n, k, 3, 0, 42 + (m * 61 + n * 7 + k) as u64);
            }
        }
    }
}

#[test]
fn gemm_matches_reference_beta_one() {
    let dims = [0usize, 1, 5, 6, 7, 12, 13, 17, 20];
    let ks = [0usize, 1, 4, 5, 9];
    for &m in &dims {
        for &n in &dims {
            for &k in &ks {
                check_one(m, n, k, -2, 1, 777 + (m * 31 + n * 17 + k) as u64);
            }
        }
    }
}

#[test]
fn gemm_matches_reference_general_beta() {
    let dims = [0usize, 1, 6, 7, 13, 14, 17];
    for &m in &dims {
        for &n in &dims {
            for &k in &[1usize, 4, 6] {
                check_one(m, n, k, 5, -3, 9 + (m * 13 + n * 3 + k) as u64);
            }
        }
    }
}

#[test]
fn gemm_beta_zero_ignores_destination_garbage() {
    // the no-read-on-overwrite contract: values that would corrupt the
    // result (or overflow on any read-multiply path) must not matter
    let m = 13usize;
    let n = 9usize;
    let k = 5usize;
    let a = fill((k - 1) * m + m, 5);
    let b = fill((n - 1) * k + k, 6);
    let mut c = vec![i64::MAX; (n - 1) * m + m];
    gemm(m, n, k, 7, &a, m, &b, k, 0, &mut c, m);
    let mut want = vec![0i64; c.len()];
    naive_gemm(m, n, k, 7, &a, m, &b, k, 0, &mut want, m);
    assert_eq!(c, want);
}

#[test]
fn gemm_exact_tile_scenario() {
    // two full 6x8 tiles plus a 2-row and a 6-column remainder
    let m = 14usize;
    let n = 14usize;
    let k = 4usize;
    let mut a = vec![0i64; m * k];
    let mut b = vec![0i64; k * n];
    for i in 0..m {
        for p in 0..k {
            a[i + p * m] = ((i + 2 * p) % 5) as i64 - 2;
        }
    }
    for p in 0..k {
        for j in 0..n {
            b[p + j * k] = ((3 * p + j) % 7) as i64 - 3;
        }
    }
    let mut c = vec![i64::MIN; m * n];
    gemm(m, n, k, 1, &a, m, &b, k, 0, &mut c, m);
    for j in 0..n {
        for i in 0..m {
            let mut want = 0i64;
            for p in 0..k {
                want += a[i + p * m] * b[p + j * k];
            }
            assert_eq!(c[i + j * m], want, "i={i} j={j}");
        }
    }
    // one hand-computed entry: row 0, column 0
    let mut hand = 0i64;
    for p in 0..k {
        hand += (((2 * p) % 5) as i64 - 2) * (((3 * p) % 7) as i64 - 3);
    }
    assert_eq!(c[0], hand);
}

#[test]
fn gemm_alpha_zero_rescales_by_beta() {
    let m = 7usize;
    let n = 5usize;
    let k = 3usize;
    let a = fill(m * k, 1);
    let b = fill(k * n, 2);
    let c0 = fill(m * n, 3);
    let mut c = c0.clone();
    gemm(m, n, k, 0, &a, m, &b, k, 4, &mut c, m);
    for t in 0..c.len() {
        assert_eq!(c[t], 4 * c0[t]);
    }
    let mut c1 = c0.clone();
    gemm(m, n, k, 0, &a, m, &b, k, 1, &mut c1, m);
    assert_eq!(c1, c0);
}

#[test]
fn gemm_zero_depth_rescales_by_beta() {
    let m = 6usize;
    let n = 4usize;
    let a: Vec<i64> = vec![0; m];
    let b: Vec<i64> = vec![0; 1];
    let c0 = fill(m * n, 11);
    let mut c = c0.clone();
    gemm(m, n, 0, 9, &a, m, &b, 0, -2, &mut c, m);
    for t in 0..c.len() {
        assert_eq!(c[t], -2 * c0[t]);
    }
}

#[test]
fn gemm_empty_dimension_is_noop() {
    let a: Vec<i64> = vec![1, 2];
    let b: Vec<i64> = vec![3, 4];
    let c0: Vec<i64> = vec![5, 6, 7];
    let mut c = c0.clone();
    gemm(0, 3, 1, 2, &a, 1, &b, 1, 0, &mut c, 1);
    assert_eq!(c, c0);
}

#[test]
fn gemm_tiny_exact_value() {
    // 1x1x1: c = beta*c + alpha*a*b = 2*10 + 3*4*5 = 80
    let a = vec![4i64];
    let b = vec![5i64];
    let mut c = vec![10i64];
    gemm(1, 1, 1, 3, &a, 1, &b, 1, 2, &mut c, 1);
    assert_eq!(c[0], 80);
}

#[test]
fn pack_a_roundtrip() {
    let mce = 11usize;
    let kce = 3usize;
    let ic = 2usize;
    let kk = 1usize;
    let lda = 16usize;
    let a = fill((kk + kce - 1) * lda + ic + mce, 77);
    let buf = pack_a(&a, lda, ic, mce, kk, kce);
    let strips = (mce + MR - 1) / MR;
    assert_eq!(buf.len(), strips * MR * kce);
    for gi in 0..mce {
        let r = gi / MR;
        let lane = gi % MR;
        for p in 0..kce {
            assert_eq!(
                buf[r * MR * kce + p * MR + lane],
                a[(ic + gi) + (kk + p) * lda],
                "gi={gi} p={p}"
            );
        }
    }
    // the short edge strip is zero-filled past the block extent
    for p in 0..kce {
        for lane in 0..MR {
            let gi = (strips - 1) * MR + lane;
            if gi >= mce {
                assert_eq!(buf[(strips - 1) * MR * kce + p * MR + lane], 0);
            }
        }
    }
}

#[test]
fn pack_b_roundtrip() {
    let nce = 13usize;
    let kce = 4usize;
    let jc = 1usize;
    let kk = 0usize;
    let ldb = 9usize;
    let b = fill((jc + nce - 1) * ldb + kk + kce, 99);
    let buf = pack_b(&b, ldb, jc, nce, kk, kce);
    let strips = (nce + NR - 1) / NR;
    assert_eq!(buf.len(), strips * NR * kce);
    for gj in 0..nce {
        let s = gj / NR;
        let lane = gj % NR;
        for p in 0..kce {
            assert_eq!(
                buf[s * NR * kce + p * NR + lane],
                b[(kk + p) + (jc + gj) * ldb],
                "gj={gj} p={p}"
            );
        }
    }
    for p in 0..kce {
        for lane in 0..NR {
            let gj = (strips - 1) * NR + lane;
            if gj >= nce {
                assert_eq!(buf[(strips - 1) * NR * kce + p * NR + lane], 0);
            }
        }
    }
}

#[test]
fn microkernel_and_edge_kernel_agree_on_full_tile() {
    let kc = KC;
    let a = fill(MR * kc + MR, 31);
    let b = fill(NR * kc + NR, 32);
    let pa = pack_a(&a, MR, 0, MR, 0, kc);
    let pb = pack_b(&b, kc, 0, NR, 0, kc);
    let c0 = fill(MR * NR, 33);
    let mut c1 = c0.clone();
    let mut c2 = c0.clone();
    microkernel(kc, &pa, 0, &pb, 0, &mut c1, 0, 0, MR, 3, 2);
    edge_kernel(MR, NR, kc, &pa, 0, &pb, 0, &mut c2, 0, 0, MR, 3, 2);
    assert_eq!(c1, c2);
    // and both agree with the plain reference on the tile
    let mut want = c0.clone();
    naive_gemm(MR, NR, kc, 3, &a, MR, &b, kc, 2, &mut want, MR);
    assert_eq!(c1, want);
}
