//! Panel-blocked lower-triangular matrix-vector multiply over exact `i64`
//! scalars: `x := L * x` or `x := L^T * x` for a column-major n x n lower
//! triangle, with unit or non-unit diagonal.
//!
//! The unit-stride fast path walks the diagonal in fixed `NB`-sized panels:
//! a dense in-register sweep inside the panel, then one fused kernel call
//! for the whole off-panel remainder (`saxpyf` for the no-transpose
//! orientation, `sdotf` for the transpose).  The no-transpose sweep walks
//! panels from the last one backward, the transpose sweep from the first
//! one forward; that asymmetry keeps every read ahead of every write.  A
//! non-unit stride falls back to the plain O(n^2) row/column sweep.

use vstd::prelude::*;
use crate::sums::{mat_idx, pterm, psum, lemma_psum_split, lemma_psum_eq, lemma_psum_bound,
    lemma_mul_bound, lemma_mul_le, lemma_mul_dist};
use crate::gemm::{MAX_ELEM, MAX_K};
use crate::enums::{CoralDiag, CoralTranspose};
use vstd::pervasive::VecAdditionalExecFns;

verus! {

/// Panel extent of the blocked diagonal sweep.
pub const NB: usize = 64;

/// Magnitude bound on a vector element after the in-panel sweep: at most
/// `NB` products of two bounded factors.
pub const TRI_PART: i64 = 64 * MAX_ELEM * MAX_ELEM;

/// Flat position of logical vector element `t` under stride `incx`.
pub open spec fn vidx(incx: int, t: int) -> int {
    t * incx
}

/// Whether flat position `q` is one of the first `n` logical elements of a
/// vector with stride `incx`.
pub open spec fn in_vec(incx: int, n: int, q: int) -> bool {
    exists|t: int| 0 <= t < n && q == #[trigger] vidx(incx, t)
}

/// The diagonal contribution of row `t`: the element itself for a unit
/// diagonal, otherwise the stored diagonal entry times the element.
pub open spec fn tri_diag_val(mat: Seq<i64>, lda: int, x0: Seq<i64>, incx: int, unit: bool, t: int) -> int {
    if unit {
        x0[vidx(incx, t)] as int
    } else {
        (mat[mat_idx(lda, t, t)] as int) * (x0[vidx(incx, t)] as int)
    }
}

/// Row `t` of the no-transpose product `L * x`: the strictly-lower part of
/// the row against the leading elements of x, plus the diagonal term.
pub open spec fn tri_nt_val(mat: Seq<i64>, lda: int, x0: Seq<i64>, incx: int, unit: bool, t: int) -> int {
    psum(mat, t, lda, x0, 0, incx, t) + tri_diag_val(mat, lda, x0, incx, unit, t)
}

/// Row `t` of the transpose product `L^T * x`: the strictly-lower part of
/// column `t` against the trailing elements of x, plus the diagonal term.
pub open spec fn tri_t_val(mat: Seq<i64>, lda: int, x0: Seq<i64>, incx: int, n: int, unit: bool, t: int) -> int {
    psum(mat, (t + 1) + t * lda, 1, x0, (t + 1) * incx, incx, n - t - 1) + tri_diag_val(
        mat,
        lda,
        x0,
        incx,
        unit,
        t,
    )
}

/// Logical vector positions under a positive stride are distinct.
proof fn lemma_vidx_unique(incx: int, t1: int, t2: int)
    by (nonlinear_arith)
    requires
        1 <= incx,
        vidx(incx, t1) == vidx(incx, t2),
    ensures
        t1 == t2,
{
}

/// Degenerate no-transpose sweep for a non-unit stride: walks rows from
/// the last one backward, so every row reads only elements not yet overwritten.
#[verifier::loop_isolation(false)]
#[verifier::rlimit(60)]
fn compute_lower_block_tail_notranspose(
    n: usize, unit_diag: bool, mat: &Vec<i64>, lda: usize, x: &mut Vec<i64>, incx: usize,
)
    requires
        1 <= n,
        n <= MAX_K,
        1 <= incx,
        n <= lda,
        (n - 1) * lda + n <= mat.len(),
        (n - 1) * incx + 1 <= old(x).len(),
        forall|gi: int, gj: int|
            0 <= gj <= gi < n ==> -MAX_ELEM <= mat@[#[trigger] mat_idx(lda as int, gi, gj)]
                <= MAX_ELEM,
        forall|t: int|
            0 <= t < n ==> -MAX_ELEM <= old(x)@[#[trigger] vidx(incx as int, t)] <= MAX_ELEM,
    ensures
        final(x).len() == old(x).len(),
        forall|t: int|
            0 <= t < n ==> final(x)@[#[trigger] vidx(incx as int, t)] as int == tri_nt_val(
                mat@,
                lda as int,
                old(x)@,
                incx as int,
                unit_diag,
                t,
            ),
        forall|q: int|
            0 <= q < old(x).len() && !in_vec(incx as int, n as int, q) ==> final(x)@[q] == old(
                x,
            )@[q],
{
    let mut i: usize = n;
    while i > 0
        invariant
            i <= n,
            x.len() == old(x).len(),
            forall|t: int|
                i <= t < n ==> x@[#[trigger] vidx(incx as int, t)] as int == tri_nt_val(
                    mat@,
                    lda as int,
                    old(x)@,
                    incx as int,
                    unit_diag,
                    t,
                ),
            forall|t: int|
                0 <= t < i ==> x@[#[trigger] vidx(incx as int, t)] == old(x)@[vidx(incx as int, t)],
            forall|q: int|
                0 <= q < old(x).len() && !in_vec(incx as int, n as int, q) ==> x@[q] == old(x)@[q],
        decreases i,
    {
        i = i - 1;
        proof {
            lemma_mul_le(i as int, (n - 1) as int, incx as int);
            lemma_mul_le(0, i as int, incx as int);
        }
        let xi = x[i * incx];
        proof {
            assert(x@[vidx(incx as int, i as int)] == old(x)@[vidx(incx as int, i as int)]);
            assert(-MAX_ELEM <= old(x)@[vidx(incx as int, i as int)] <= MAX_ELEM);
            assert(xi == old(x)@[vidx(incx as int, i as int)]);
        }
        let mut sum: i64;
        if unit_diag {
            sum = xi;
        } else {
            proof {
                lemma_mul_le(i as int, (n - 1) as int, lda as int);
            }
            let dv = mat[i + i * lda];
            proof {
                assert(mat@[mat_idx(lda as int, i as int, i as int)] == dv);
                lemma_mul_bound(dv as int, xi as int, MAX_ELEM as int, MAX_ELEM as int);
            }
            sum = dv * xi;
        }
        let ghost diagv = sum as int;
        let mut j: usize = 0;
        while j < i
            invariant
                j <= i,
                i < n,
                x.len() == old(x).len(),
                diagv == tri_diag_val(mat@, lda as int, old(x)@, incx as int, unit_diag, i as int),
                sum as int == psum(mat@, i as int, lda as int, old(x)@, 0, incx as int, j as int)
                    + diagv,
                -MAX_ELEM * MAX_ELEM - (j as int) * ((MAX_ELEM * MAX_ELEM) as int) <= sum as int,
                sum as int <= MAX_ELEM * MAX_ELEM + (j as int) * ((MAX_ELEM * MAX_ELEM) as int),
                forall|t: int|
                    i < t < n ==> x@[#[trigger] vidx(incx as int, t)] as int == tri_nt_val(
                        mat@,
                        lda as int,
                        old(x)@,
                        incx as int,
                        unit_diag,
                        t,
                    ),
                forall|t: int|
                    0 <= t <= i ==> x@[#[trigger] vidx(incx as int, t)] == old(x)@[vidx(
                        incx as int,
                        t,
                    )],
                forall|q: int|
                    0 <= q < old(x).len() && !in_vec(incx as int, n as int, q) ==> x@[q] == old(
                        x,
                    )@[q],
            decreases i - j,
        {
            proof {
                lemma_mul_le(j as int, (n - 1) as int, lda as int);
                lemma_mul_le(j as int, (n - 1) as int, incx as int);
                lemma_mul_le(0, j as int, incx as int);
                lemma_mul_le(0, j as int, lda as int);
            }
            let av = mat[i + j * lda];
            let xv = x[j * incx];
            proof {
                assert(mat@[mat_idx(lda as int, i as int, j as int)] == av);
                assert(x@[vidx(incx as int, j as int)] == xv);
                assert(old(x)@[vidx(incx as int, j as int)] == xv);
                lemma_mul_bound(av as int, xv as int, MAX_ELEM as int, MAX_ELEM as int);
                lemma_mul_le(j + 1, MAX_K as int, (MAX_ELEM * MAX_ELEM) as int);
                assert(pterm(mat@, i as int, lda as int, old(x)@, 0, incx as int, j as int) == (
                av as int) * (xv as int));
            }
            sum = sum + av * xv;
            j = j + 1;
        }
        let ghost xpre = x@;
        proof {
            lemma_mul_le(i as int, (n - 1) as int, incx as int);
        }
        x.set(i * incx, sum);
        proof {
            assert(in_vec(incx as int, n as int, vidx(incx as int, i as int)));
            assert forall|t: int|
                0 <= t < n && t != i implies x@[#[trigger] vidx(incx as int, t)] == xpre[vidx(
                incx as int,
                t,
            )] by {
                lemma_mul_le(0, t, incx as int);
                lemma_mul_le(t, (n - 1) as int, incx as int);
                if vidx(incx as int, t) == vidx(incx as int, i as int) {
                    lemma_vidx_unique(incx as int, t, i as int);
                }
            }
        }
    }
}

/// Degenerate transpose sweep for a non-unit stride: walks rows from the
/// first one forward, so every row reads only elements not yet overwritten.
#[verifier::loop_isolation(false)]
#[verifier::rlimit(60)]
fn compute_lower_block_tail_transpose(
    n: usize, unit_diag: bool, mat: &Vec<i64>, lda: usize, x: &mut Vec<i64>, incx: usize,
)
    requires
        1 <= n,
        n <= MAX_K,
        1 <= incx,
        n <= lda,
        (n - 1) * lda + n <= mat.len(),
        (n - 1) * incx + 1 <= old(x).len(),
        forall|gi: int, gj: int|
            0 <= gj <= gi < n ==> -MAX_ELEM <= mat@[#[trigger] mat_idx(lda as int, gi, gj)]
                <= MAX_ELEM,
        forall|t: int|
            0 <= t < n ==> -MAX_ELEM <= old(x)@[#[trigger] vidx(incx as int, t)] <= MAX_ELEM,
    ensures
        final(x).len() == old(x).len(),
        forall|t: int|
            0 <= t < n ==> final(x)@[#[trigger] vidx(incx as int, t)] as int == tri_t_val(
                mat@,
                lda as int,
                old(x)@,
                incx as int,
                n as int,
                unit_diag,
                t,
            ),
        forall|q: int|
            0 <= q < old(x).len() && !in_vec(incx as int, n as int, q) ==> final(x)@[q] == old(
                x,
            )@[q],
{
    let mut i: usize = 0;
    while i < n
        invariant
            i <= n,
            x.len() == old(x).len(),
            forall|t: int|
                0 <= t < i ==> x@[#[trigger] vidx(incx as int, t)] as int == tri_t_val(
                    mat@,
                    lda as int,
                    old(x)@,
                    incx as int,
                    n as int,
                    unit_diag,
                    t,
                ),
            forall|t: int|
                i <= t < n ==> x@[#[trigger] vidx(incx as int, t)] == old(x)@[vidx(incx as int, t)],
            forall|q: int|
                0 <= q < old(x).len() && !in_vec(incx as int, n as int, q) ==> x@[q] == old(x)@[q],
        decreases n - i,
    {
        proof {
            lemma_mul_le(i as int, (n - 1) as int, incx as int);
            lemma_mul_le(0, i as int, incx as int);
        }
        let xi = x[i * incx];
        proof {
            assert(x@[vidx(incx as int, i as int)] == old(x)@[vidx(incx as int, i as int)]);
            assert(-MAX_ELEM <= old(x)@[vidx(incx as int, i as int)] <= MAX_ELEM);
            assert(xi == old(x)@[vidx(incx as int, i as int)]);
        }
        let mut sum: i64;
        if unit_diag {
            sum = xi;
        } else {
            proof {
                lemma_mul_le(i as int, (n - 1) as int, lda as int);
            }
            let dv = mat[i + i * lda];
            proof {
                assert(mat@[mat_idx(lda as int, i as int, i as int)] == dv);
                lemma_mul_bound(dv as int, xi as int, MAX_ELEM as int, MAX_ELEM as int);
            }
            sum = dv * xi;
        }
        let ghost diagv = sum as int;
        let mut j: usize = i + 1;
        while j < n
            invariant
                i < n,
                i + 1 <= j <= n,
                x.len() == old(x).len(),
                diagv == tri_diag_val(mat@, lda as int, old(x)@, incx as int, unit_diag, i as int),
                sum as int == psum(
                    mat@,
                    (i + 1) as int + (i as int) * (lda as int),
                    1,
                    old(x)@,
                    ((i + 1) as int) * (incx as int),
                    incx as int,
                    j - i - 1,
                ) + diagv,
                -MAX_ELEM * MAX_ELEM - ((j - i - 1) as int) * ((MAX_ELEM * MAX_ELEM) as int) <= sum as int,
                sum as int <= MAX_ELEM * MAX_ELEM + ((j - i - 1) as int) * ((MAX_ELEM * MAX_ELEM) as int),
                forall|t: int|
                    0 <= t < i ==> x@[#[trigger] vidx(incx as int, t)] as int == tri_t_val(
                        mat@,
                        lda as int,
                        old(x)@,
                        incx as int,
                        n as int,
                        unit_diag,
                        t,
                    ),
                forall|t: int|
                    i <= t < n ==> x@[#[trigger] vidx(incx as int, t)] == old(x)@[vidx(
                        incx as int,
                        t,
                    )],
                forall|q: int|
                    0 <= q < old(x).len() && !in_vec(incx as int, n as int, q) ==> x@[q] == old(
                        x,
                    )@[q],
            decreases n - j,
        {
            proof {
                lemma_mul_le(i as int, (n - 1) as int, lda as int);
                lemma_mul_le(j as int, (n - 1) as int, incx as int);
                lemma_mul_le(0, j as int, incx as int);
            }
            let av = mat[j + i * lda];
            let xv = x[j * incx];
            proof {
                assert(mat@[mat_idx(lda as int, j as int, i as int)] == av);
                assert(x@[vidx(incx as int, j as int)] == xv);
                assert(old(x)@[vidx(incx as int, j as int)] == xv);
                lemma_mul_bound(av as int, xv as int, MAX_ELEM as int, MAX_ELEM as int);
                lemma_mul_le((j - i) as int, MAX_K as int, (MAX_ELEM * MAX_ELEM) as int);
                assert(pterm(
                    mat@,
                    (i + 1) as int + (i as int) * (lda as int),
                    1,
                    old(x)@,
                    ((i + 1) as int) * (incx as int),
                    incx as int,
                    j - i - 1,
                ) == (av as int) * (xv as int)) by {
                    assert((i + 1) as int + (i as int) * (lda as int) + (j - i - 1) * 1 == j + (
                    i as int) * (lda as int));
                    assert(((i + 1) as int) * (incx as int) + (j - i - 1) * (incx as int) == (
                    j as int) * (incx as int)) by (nonlinear_arith);
                }
            }
            sum = sum + av * xv;
            j = j + 1;
        }
        let ghost xpre = x@;
        proof {
            lemma_mul_le(i as int, (n - 1) as int, incx as int);
        }
        x.set(i * incx, sum);
        proof {
            assert(in_vec(incx as int, n as int, vidx(incx as int, i as int)));
            assert forall|t: int|
                0 <= t < n && t != i implies x@[#[trigger] vidx(incx as int, t)] == xpre[vidx(
                incx as int,
                t,
            )] by {
                lemma_mul_le(0, t, incx as int);
                lemma_mul_le(t, (n - 1) as int, incx as int);
                if vidx(incx as int, t) == vidx(incx as int, i as int) {
                    lemma_vidx_unique(incx as int, t, i as int);
                }
            }
        }
        i = i + 1;
    }
}

/// Adds `scale` times a stretch of one matrix column into a scratch
/// buffer: `buffer[buf_off+q] += A[row0+q, col0] * scale` for q < len.
#[verifier::loop_isolation(false)]
fn single_add_and_scale(
    buffer: &mut Vec<i64>, buf_off: usize, len: usize,
    mat: &Vec<i64>, lda: usize, row0: usize, col0: usize, scale: i64,
)
    requires
        buf_off + len <= old(buffer).len(),
        len >= 1 ==> (row0 + len) + col0 * lda <= mat.len(),
        forall|gi: int|
            row0 <= gi < row0 + len ==> -MAX_ELEM <= mat@[#[trigger] mat_idx(
                lda as int,
                gi,
                col0 as int,
            )] <= MAX_ELEM,
        -MAX_ELEM <= scale <= MAX_ELEM,
        forall|u: int|
            buf_off <= u < buf_off + len ==> -(TRI_PART - MAX_ELEM * MAX_ELEM) <= #[trigger] old(
                buffer,
            )@[u] <= TRI_PART - MAX_ELEM * MAX_ELEM,
    ensures
        final(buffer).len() == old(buffer).len(),
        forall|u: int|
            buf_off <= u < buf_off + len ==> #[trigger] final(buffer)@[u] as int == old(buffer)@[u]
                + (mat@[mat_idx(lda as int, row0 + (u - buf_off), col0 as int)] as int) * (
            scale as int),
        forall|u: int|
            0 <= u < old(buffer).len() && !(buf_off <= u < buf_off + len) ==> final(buffer)@[u]
                == old(buffer)@[u],
{
    let mut q: usize = 0;
    while q < len
        invariant
            q <= len,
            buffer.len() == old(buffer).len(),
            forall|u: int|
                buf_off <= u < buf_off + q ==> #[trigger] buffer@[u] as int == old(buffer)@[u] + (
                mat@[mat_idx(lda as int, row0 + (u - buf_off), col0 as int)] as int) * (
                scale as int),
            forall|u: int|
                buf_off + q <= u < buf_off + len ==> #[trigger] buffer@[u] == old(buffer)@[u],
            forall|u: int|
                0 <= u < old(buffer).len() && !(buf_off <= u < buf_off + len) ==> buffer@[u] == old(
                    buffer,
                )@[u],
        decreases len - q,
    {
        let idx = (row0 + q) + col0 * lda;
        let av = mat[idx];
        proof {
            assert(idx as int == mat_idx(lda as int, (row0 + q) as int, col0 as int));
            lemma_mul_bound(av as int, scale as int, MAX_ELEM as int, MAX_ELEM as int);
        }
        let bidx = buf_off + q;
        let prev = buffer[bidx];
        buffer.set(bidx, prev + av * scale);
        q = q + 1;
    }
}

/// Dense in-panel sweep for the no-transpose orientation: for the panel
/// rows [blk, blk+buf_len), computes the in-panel part of `L * x` (the
/// strictly-lower columns of the panel plus the diagonal term) into a
/// local accumulation buffer, one panel column at a time, then writes it
/// back over the panel stretch of x.
#[verifier::loop_isolation(false)]
#[verifier::rlimit(100)]
fn compute_lower_block_notranspose(
    blk: usize, buf_len: usize, unit_diag: bool,
    mat: &Vec<i64>, lda: usize, n: usize, x: &mut Vec<i64>,
)
    requires
        1 <= buf_len,
        buf_len <= NB,
        blk + buf_len <= n,
        n <= MAX_K,
        n <= lda,
        (n - 1) * lda + n <= mat.len(),
        n <= old(x).len(),
        forall|gi: int, gj: int|
            0 <= gj <= gi < n ==> -MAX_ELEM <= mat@[#[trigger] mat_idx(lda as int, gi, gj)]
                <= MAX_ELEM,
        forall|u: int| blk <= u < blk + buf_len ==> -MAX_ELEM <= #[trigger] old(x)@[u] <= MAX_ELEM,
    ensures
        final(x).len() == old(x).len(),
        forall|u: int|
            blk <= u < blk + buf_len ==> #[trigger] final(x)@[u] as int == psum(
                mat@,
                u + (blk as int) * (lda as int),
                lda as int,
                old(x)@,
                blk as int,
                1,
                u - blk,
            ) + tri_diag_val(mat@, lda as int, old(x)@, 1, unit_diag, u),
        forall|u: int|
            0 <= u < old(x).len() && !(blk <= u < blk + buf_len) ==> final(x)@[u] == old(x)@[u],
{
    let mut buffer: Vec<i64> = Vec::new();
    let mut z: usize = 0;
    while z < buf_len
        invariant
            buffer.len() == z,
            z <= buf_len,
            forall|t: int| 0 <= t < z ==> #[trigger] buffer@[t] == 0i64,
        decreases buf_len - z,
    {
        buffer.push(0i64);
        z = z + 1;
    }
    let mut k: usize = 0;
    while k < buf_len
        invariant
            k <= buf_len,
            x@ == old(x)@,
            buffer.len() == buf_len,
            forall|t: int|
                0 <= t < k ==> #[trigger] buffer@[t] as int == psum(
                    mat@,
                    (blk + t) + (blk as int) * (lda as int),
                    lda as int,
                    old(x)@,
                    blk as int,
                    1,
                    t,
                ) + tri_diag_val(mat@, lda as int, old(x)@, 1, unit_diag, blk + t)
                && -TRI_PART <= buffer@[t] <= TRI_PART,
            forall|t: int|
                k <= t < buf_len ==> #[trigger] buffer@[t] as int == psum(
                    mat@,
                    (blk + t) + (blk as int) * (lda as int),
                    lda as int,
                    old(x)@,
                    blk as int,
                    1,
                    k as int,
                ) && -(k as int) * ((MAX_ELEM * MAX_ELEM) as int) <= buffer@[t]
                && buffer@[t] <= (k as int) * ((MAX_ELEM * MAX_ELEM) as int),
        decreases buf_len - k,
    {
        let scale = x[blk + k];
        proof {
            lemma_mul_le((blk + k) as int, (n - 1) as int, lda as int);
            lemma_mul_le(0, blk as int, lda as int);
        }
        let ghost bufpre = buffer@;
        single_add_and_scale(&mut buffer, k + 1, buf_len - (k + 1), mat, lda, blk + k + 1, blk + k, scale);
        proof {
            assert forall|t: int| k + 1 <= t < buf_len implies #[trigger] buffer@[t] as int == psum(
                mat@,
                (blk + t) + (blk as int) * (lda as int),
                lda as int,
                old(x)@,
                blk as int,
                1,
                k + 1,
            ) && -(k + 1) * ((MAX_ELEM * MAX_ELEM) as int) <= buffer@[t] && buffer@[t] <= (k + 1) * (
            (MAX_ELEM * MAX_ELEM) as int) by {
                lemma_mul_dist(lda as int, blk as int, k as int);
                assert(mat_idx(lda as int, blk + k + 1 + (t - (k + 1)), (blk + k) as int) == (blk
                    + t) + (blk as int) * (lda as int) + (k as int) * (lda as int));
                assert(pterm(
                    mat@,
                    (blk + t) + (blk as int) * (lda as int),
                    lda as int,
                    old(x)@,
                    blk as int,
                    1,
                    k as int,
                ) == (mat@[mat_idx(lda as int, (blk + t) as int, (blk + k) as int)] as int) * (
                scale as int));
                lemma_mul_bound(
                    mat@[mat_idx(lda as int, (blk + t) as int, (blk + k) as int)] as int,
                    scale as int,
                    MAX_ELEM as int,
                    MAX_ELEM as int,
                );
            }
        }
        let dterm: i64;
        if unit_diag {
            dterm = scale;
        } else {
            proof {
                lemma_mul_le((blk + k) as int, (n - 1) as int, lda as int);
            }
            let dv = mat[(blk + k) + (blk + k) * lda];
            proof {
                assert(mat@[mat_idx(lda as int, (blk + k) as int, (blk + k) as int)] == dv);
                lemma_mul_bound(dv as int, scale as int, MAX_ELEM as int, MAX_ELEM as int);
            }
            dterm = dv * scale;
        }
        let prevk = buffer[k];
        buffer.set(k, prevk + dterm);
        k = k + 1;
    }
    let mut t: usize = 0;
    while t < buf_len
        invariant
            t <= buf_len,
            x.len() == old(x).len(),
            buffer.len() == buf_len,
            forall|t2: int|
                0 <= t2 < buf_len ==> #[trigger] buffer@[t2] as int == psum(
                    mat@,
                    (blk + t2) + (blk as int) * (lda as int),
                    lda as int,
                    old(x)@,
                    blk as int,
                    1,
                    t2,
                ) + tri_diag_val(mat@, lda as int, old(x)@, 1, unit_diag, blk + t2),
            forall|u: int|
                blk <= u < blk + t ==> #[trigger] x@[u] as int == psum(
                    mat@,
                    u + (blk as int) * (lda as int),
                    lda as int,
                    old(x)@,
                    blk as int,
                    1,
                    u - blk,
                ) + tri_diag_val(mat@, lda as int, old(x)@, 1, unit_diag, u),
            forall|u: int|
                0 <= u < old(x).len() && !(blk <= u < blk + t) ==> #[trigger] x@[u] == old(x)@[u],
        decreases buf_len - t,
    {
        let v = buffer[t];
        x.set(blk + t, v);
        t = t + 1;
    }
}

/// Dense in-panel sweep for the transpose orientation: for the panel rows
/// [blk, blk+buf_len), computes the in-panel part of `L^T * x` (the
/// strictly-lower rows of the panel column plus the diagonal term) into a
/// local buffer, one panel column at a time, then writes it back.
#[verifier::loop_isolation(false)]
#[verifier::rlimit(100)]
fn compute_lower_block_transpose(
    blk: usize, buf_len: usize, unit_diag: bool,
    mat: &Vec<i64>, lda: usize, n: usize, x: &mut Vec<i64>,
)
    requires
        1 <= buf_len,
        buf_len <= NB,
        blk + buf_len <= n,
        n <= MAX_K,
        n <= lda,
        (n - 1) * lda + n <= mat.len(),
        n <= old(x).len(),
        forall|gi: int, gj: int|
            0 <= gj <= gi < n ==> -MAX_ELEM <= mat@[#[trigger] mat_idx(lda as int, gi, gj)]
                <= MAX_ELEM,
        forall|u: int| blk <= u < blk + buf_len ==> -MAX_ELEM <= #[trigger] old(x)@[u] <= MAX_ELEM,
    ensures
        final(x).len() == old(x).len(),
        forall|u: int|
            blk <= u < blk + buf_len ==> #[trigger] final(x)@[u] as int == psum(
                mat@,
                (u + 1) + u * (lda as int),
                1,
                old(x)@,
                u + 1,
                1,
                (blk + buf_len) - u - 1,
            ) + tri_diag_val(mat@, lda as int, old(x)@, 1, unit_diag, u),
        forall|u: int|
            0 <= u < old(x).len() && !(blk <= u < blk + buf_len) ==> final(x)@[u] == old(x)@[u],
{
    let mut buffer: Vec<i64> = Vec::new();
    let mut k: usize = 0;
    while k < buf_len
        invariant
            k <= buf_len,
            x@ == old(x)@,
            buffer.len() == k,
            forall|t: int|
                0 <= t < k ==> #[trigger] buffer@[t] as int == psum(
                    mat@,
                    (blk + t + 1) + (blk + t) * (lda as int),
                    1,
                    old(x)@,
                    (blk + t + 1) as int,
                    1,
                    buf_len - t - 1,
                ) + tri_diag_val(mat@, lda as int, old(x)@, 1, unit_diag, blk + t),
        decreases buf_len - k,
    {
        let xk = x[blk + k];
        let mut sum: i64;
        proof {
            lemma_mul_le((blk + k) as int, (n - 1) as int, lda as int);
        }
        if unit_diag {
            sum = xk;
        } else {
            let dv = mat[(blk + k) + (blk + k) * lda];
            proof {
                assert(mat@[mat_idx(lda as int, (blk + k) as int, (blk + k) as int)] == dv);
                lemma_mul_bound(dv as int, xk as int, MAX_ELEM as int, MAX_ELEM as int);
            }
            sum = dv * xk;
        }
        let ghost diagv = sum as int;
        let colbase = (blk + k) * lda;
        let mut i: usize = k + 1;
        while i < buf_len
            invariant
                k < buf_len,
                k + 1 <= i <= buf_len,
                x@ == old(x)@,
                colbase == (blk + k) * (lda as int),
                colbase + n <= mat.len(),
                diagv == tri_diag_val(mat@, lda as int, old(x)@, 1, unit_diag, blk + k),
                sum as int == psum(
                    mat@,
                    (blk + k + 1) + (blk + k) * (lda as int),
                    1,
                    old(x)@,
                    (blk + k + 1) as int,
                    1,
                    i - k - 1,
                ) + diagv,
                -MAX_ELEM * MAX_ELEM - ((i - k - 1) as int) * ((MAX_ELEM * MAX_ELEM) as int) <= sum as int,
                sum as int <= MAX_ELEM * MAX_ELEM + ((i - k - 1) as int) * ((MAX_ELEM * MAX_ELEM) as int),
            decreases buf_len - i,
        {
            let av = mat[(blk + i) + colbase];
            let xv = x[blk + i];
            proof {
                assert(mat@[mat_idx(lda as int, (blk + i) as int, (blk + k) as int)] == av);
                lemma_mul_bound(av as int, xv as int, MAX_ELEM as int, MAX_ELEM as int);
                lemma_mul_le((i - k) as int, MAX_K as int, (MAX_ELEM * MAX_ELEM) as int);
                assert(pterm(
                    mat@,
                    (blk + k + 1) + (blk + k) * (lda as int),
                    1,
                    old(x)@,
                    (blk + k + 1) as int,
                    1,
                    i - k - 1,
                ) == (av as int) * (xv as int));
            }
            sum = sum + av * xv;
            i = i + 1;
        }
        buffer.push(sum);
        k = k + 1;
    }
    let mut t: usize = 0;
    while t < buf_len
        invariant
            t <= buf_len,
            x.len() == old(x).len(),
            buffer.len() == buf_len,
            forall|t2: int|
                0 <= t2 < buf_len ==> #[trigger] buffer@[t2] as int == psum(
                    mat@,
                    (blk + t2 + 1) + (blk + t2) * (lda as int),
                    1,
                    old(x)@,
                    (blk + t2 + 1) as int,
                    1,
                    buf_len - t2 - 1,
                ) + tri_diag_val(mat@, lda as int, old(x)@, 1, unit_diag, blk + t2),
            forall|u: int|
                blk <= u < blk + t ==> #[trigger] x@[u] as int == psum(
                    mat@,
                    (u + 1) + u * (lda as int),
                    1,
                    old(x)@,
                    u + 1,
                    1,
                    (blk + buf_len) - u - 1,
                ) + tri_diag_val(mat@, lda as int, old(x)@, 1, unit_diag, u),
            forall|u: int|
                0 <= u < old(x).len() && !(blk <= u < blk + t) ==> #[trigger] x@[u] == old(x)@[u],
        decreases buf_len - t,
    {
        let v = buffer[t];
        x.set(blk + t, v);
        t = t + 1;
    }
}

/// Fused multi-column scale-and-add: `x[y_off+i] += sum_j x[j] *
/// A[row0+i, j]` over j < cols, the one-dimensional analogue of the
/// level-3 microkernel used by the no-transpose panel sweep.  The
/// coefficient stretch [0, cols) lies strictly before the updated stretch.
#[verifier::loop_isolation(false)]
#[verifier::rlimit(100)]
fn saxpyf(
    rows: usize, cols: usize, mat: &Vec<i64>, lda: usize, row0: usize,
    x: &mut Vec<i64>, y_off: usize,
)
    requires
        1 <= rows,
        1 <= cols,
        cols <= MAX_K,
        cols <= y_off,
        y_off + rows <= old(x).len(),
        (cols - 1) * lda + row0 + rows <= mat.len(),
        forall|gi: int, gj: int|
            row0 <= gi < row0 + rows && 0 <= gj < cols ==> -MAX_ELEM <= mat@[#[trigger] mat_idx(
                lda as int,
                gi,
                gj,
            )] <= MAX_ELEM,
        forall|u: int| 0 <= u < cols ==> -MAX_ELEM <= #[trigger] old(x)@[u] <= MAX_ELEM,
        forall|u: int|
            y_off <= u < y_off + rows ==> -TRI_PART <= #[trigger] old(x)@[u] <= TRI_PART,
    ensures
        final(x).len() == old(x).len(),
        forall|u: int|
            y_off <= u < y_off + rows ==> #[trigger] final(x)@[u] as int == old(x)@[u] + psum(
                mat@,
                (row0 as int) + (u - y_off),
                lda as int,
                old(x)@,
                0,
                1,
                cols as int,
            ),
        forall|u: int|
            0 <= u < old(x).len() && !(y_off <= u < y_off + rows) ==> final(x)@[u] == old(x)@[u],
{
    let mut j: usize = 0;
    while j < cols
        invariant
            j <= cols,
            x.len() == old(x).len(),
            forall|u: int|
                y_off <= u < y_off + rows ==> #[trigger] x@[u] as int == old(x)@[u] + psum(
                    mat@,
                    (row0 as int) + (u - y_off),
                    lda as int,
                    old(x)@,
                    0,
                    1,
                    j as int,
                ) && -TRI_PART - (j as int) * ((MAX_ELEM * MAX_ELEM) as int) <= x@[u]
                && x@[u] <= TRI_PART + (j as int) * ((MAX_ELEM * MAX_ELEM) as int),
            forall|u: int|
                0 <= u < old(x).len() && !(y_off <= u < y_off + rows) ==> #[trigger] x@[u] == old(
                    x,
                )@[u],
        decreases cols - j,
    {
        let xj = x[j];
        proof {
            assert(x@[j as int] == old(x)@[j as int]);
            lemma_mul_le(j as int, (cols - 1) as int, lda as int);
            lemma_mul_le(0, j as int, lda as int);
        }
        let colbase = j * lda;
        let mut i: usize = 0;
        while i < rows
            invariant
                j < cols,
                i <= rows,
                x.len() == old(x).len(),
                xj == old(x)@[j as int],
                colbase == j * (lda as int),
                colbase + row0 + rows <= mat.len(),
                forall|u: int|
                    y_off <= u < y_off + i ==> #[trigger] x@[u] as int == old(x)@[u] + psum(
                        mat@,
                        (row0 as int) + (u - y_off),
                        lda as int,
                        old(x)@,
                        0,
                        1,
                        j + 1,
                    ) && -TRI_PART - (j + 1) * ((MAX_ELEM * MAX_ELEM) as int) <= x@[u]
                    && x@[u] <= TRI_PART + (j + 1) * ((MAX_ELEM * MAX_ELEM) as int),
                forall|u: int|
                    y_off + i <= u < y_off + rows ==> #[trigger] x@[u] as int == old(x)@[u] + psum(
                        mat@,
                        (row0 as int) + (u - y_off),
                        lda as int,
                        old(x)@,
                        0,
                        1,
                        j as int,
                    ) && -TRI_PART - (j as int) * ((MAX_ELEM * MAX_ELEM) as int) <= x@[u]
                    && x@[u] <= TRI_PART + (j as int) * ((MAX_ELEM * MAX_ELEM) as int),
                forall|u: int|
                    0 <= u < old(x).len() && !(y_off <= u < y_off + rows) ==> #[trigger] x@[u]
                        == old(x)@[u],
            decreases rows - i,
        {
            let av = mat[(row0 + i) + colbase];
            let idx = y_off + i;
            let prev = x[idx];
            proof {
                assert(mat@[mat_idx(lda as int, (row0 + i) as int, j as int)] == av);
                lemma_mul_bound(av as int, xj as int, MAX_ELEM as int, MAX_ELEM as int);
                lemma_mul_le(j + 1, MAX_K as int, (MAX_ELEM * MAX_ELEM) as int);
                assert(pterm(
                    mat@,
                    (row0 as int) + (idx - y_off),
                    lda as int,
                    old(x)@,
                    0,
                    1,
                    j as int,
                ) == (av as int) * (xj as int));
            }
            x.set(idx, prev + av * xj);
            i = i + 1;
        }
        j = j + 1;
    }
}

/// Fused multi-dot: `x[y_off+q] += sum_i A[row0+i, col0+q] * x[x_off+i]`
/// over i < rows, the transpose-side analogue of the level-3 microkernel.
/// The updated stretch lies strictly before the stretch that is read.
#[verifier::loop_isolation(false)]
#[verifier::rlimit(100)]
fn sdotf(
    rows: usize, cols: usize, mat: &Vec<i64>, lda: usize, row0: usize, col0: usize,
    x: &mut Vec<i64>, x_off: usize, y_off: usize,
)
    requires
        1 <= rows,
        1 <= cols,
        rows <= MAX_K,
        1 <= lda,
        y_off + cols <= x_off,
        x_off + rows <= old(x).len(),
        (col0 + cols - 1) * lda + row0 + rows <= mat.len(),
        forall|gi: int, gj: int|
            row0 <= gi < row0 + rows && col0 <= gj < col0 + cols ==> -MAX_ELEM <= mat@[
                #[trigger] mat_idx(lda as int, gi, gj)
            ] <= MAX_ELEM,
        forall|u: int|
            x_off <= u < x_off + rows ==> -MAX_ELEM <= #[trigger] old(x)@[u] <= MAX_ELEM,
        forall|u: int|
            y_off <= u < y_off + cols ==> -TRI_PART <= #[trigger] old(x)@[u] <= TRI_PART,
    ensures
        final(x).len() == old(x).len(),
        forall|u: int|
            y_off <= u < y_off + cols ==> #[trigger] final(x)@[u] as int == old(x)@[u] + psum(
                mat@,
                (row0 as int) + ((col0 as int) + (u - y_off)) * (lda as int),
                1,
                old(x)@,
                x_off as int,
                1,
                rows as int,
            ),
        forall|u: int|
            0 <= u < old(x).len() && !(y_off <= u < y_off + cols) ==> final(x)@[u] == old(x)@[u],
{
    let mut q: usize = 0;
    while q < cols
        invariant
            q <= cols,
            x.len() == old(x).len(),
            forall|u: int|
                y_off <= u < y_off + q ==> #[trigger] x@[u] as int == old(x)@[u] + psum(
                    mat@,
                    (row0 as int) + ((col0 as int) + (u - y_off)) * (lda as int),
                    1,
                    old(x)@,
                    x_off as int,
                    1,
                    rows as int,
                ),
            forall|u: int|
                0 <= u < old(x).len() && !(y_off <= u < y_off + q) ==> #[trigger] x@[u] == old(
                    x,
                )@[u],
        decreases cols - q,
    {
        proof {
            assert((col0 + cols - 1) as int <= ((col0 + cols - 1) as int) * (lda as int))
                by (nonlinear_arith)
                requires lda >= 1, col0 + cols >= 1;
            lemma_mul_le((col0 + q) as int, (col0 + cols - 1) as int, lda as int);
            lemma_mul_le(0, (col0 + q) as int, lda as int);
        }
        let colbase = (col0 + q) * lda;
        let mut sum: i64 = 0;
        let mut i: usize = 0;
        while i < rows
            invariant
                q < cols,
                i <= rows,
                x.len() == old(x).len(),
                colbase == ((col0 + q) as int) * (lda as int),
                colbase + row0 + rows <= mat.len(),
                sum as int == psum(
                    mat@,
                    (row0 as int) + ((col0 + q) as int) * (lda as int),
                    1,
                    old(x)@,
                    x_off as int,
                    1,
                    i as int,
                ),
                -(i as int) * ((MAX_ELEM * MAX_ELEM) as int) <= sum as int,
                sum as int <= (i as int) * ((MAX_ELEM * MAX_ELEM) as int),
                forall|u: int|
                    y_off <= u < y_off + q ==> #[trigger] x@[u] as int == old(x)@[u] + psum(
                        mat@,
                        (row0 as int) + ((col0 as int) + (u - y_off)) * (lda as int),
                        1,
                        old(x)@,
                        x_off as int,
                        1,
                        rows as int,
                    ),
                forall|u: int|
                    0 <= u < old(x).len() && !(y_off <= u < y_off + q) ==> #[trigger] x@[u] == old(
                        x,
                    )@[u],
            decreases rows - i,
        {
            let av = mat[(row0 + i) + colbase];
            let xv = x[x_off + i];
            proof {
                assert(mat@[mat_idx(lda as int, (row0 + i) as int, (col0 + q) as int)] == av);
                assert(x@[(x_off + i) as int] == old(x)@[(x_off + i) as int]);
                lemma_mul_bound(av as int, xv as int, MAX_ELEM as int, MAX_ELEM as int);
                lemma_mul_le(i + 1, MAX_K as int, (MAX_ELEM * MAX_ELEM) as int);
                assert(pterm(
                    mat@,
                    (row0 as int) + ((col0 + q) as int) * (lda as int),
                    1,
                    old(x)@,
                    x_off as int,
                    1,
                    i as int,
                ) == (av as int) * (xv as int));
            }
            sum = sum + av * xv;
            i = i + 1;
        }
        let idx = y_off + q;
        let prev = x[idx];
        proof {
            assert(x@[idx as int] == old(x)@[idx as int]);
            lemma_mul_le(rows as int, MAX_K as int, (MAX_ELEM * MAX_ELEM) as int);
        }
        x.set(idx, prev + sum);
        q = q + 1;
    }
}

/// No-transpose triangular multiply `x := L * x`.  Unit stride takes the
/// panel-blocked fast path, walking `NB`-sized diagonal panels from the
/// last one backward: the dense in-panel sweep first, then one fused
/// `saxpyf` over all columns left of the panel, both against elements not
/// yet overwritten.  Any other stride takes the degenerate backward sweep.
#[verifier::loop_isolation(false)]
#[verifier::rlimit(100)]
fn strlmv_notranspose(
    n: usize, unit_diag: bool, matrix: &Vec<i64>, lda: usize, x: &mut Vec<i64>, incx: usize,
)
    requires
        1 <= n,
        n <= MAX_K,
        1 <= incx,
        n <= lda,
        (n - 1) * lda + n <= matrix.len(),
        (n - 1) * incx + 1 <= old(x).len(),
        forall|gi: int, gj: int|
            0 <= gj <= gi < n ==> -MAX_ELEM <= matrix@[#[trigger] mat_idx(lda as int, gi, gj)]
                <= MAX_ELEM,
        forall|t: int|
            0 <= t < n ==> -MAX_ELEM <= old(x)@[#[trigger] vidx(incx as int, t)] <= MAX_ELEM,
    ensures
        final(x).len() == old(x).len(),
        forall|t: int|
            0 <= t < n ==> final(x)@[#[trigger] vidx(incx as int, t)] as int == tri_nt_val(
                matrix@,
                lda as int,
                old(x)@,
                incx as int,
                unit_diag,
                t,
            ),
        forall|q: int|
            0 <= q < old(x).len() && !in_vec(incx as int, n as int, q) ==> final(x)@[q] == old(
                x,
            )@[q],
{
    if incx == 1 {
        proof {
            assert forall|t: int| 0 <= t < n implies -MAX_ELEM <= #[trigger] old(x)@[t]
                <= MAX_ELEM by {
                assert(vidx(1, t) == t);
                assert(-MAX_ELEM <= old(x)@[vidx(1, t)] <= MAX_ELEM);
            }
        }
        let mut idx: usize = n;
        while idx >= NB
            invariant
                idx <= n,
                x.len() == old(x).len(),
                forall|t: int|
                    idx <= t < n ==> #[trigger] x@[t] as int == tri_nt_val(
                        matrix@,
                        lda as int,
                        old(x)@,
                        1,
                        unit_diag,
                        t,
                    ),
                forall|t: int| 0 <= t < idx ==> #[trigger] x@[t] == old(x)@[t],
                forall|q: int| n <= q < old(x).len() ==> #[trigger] x@[q] == old(x)@[q],
            decreases idx,
        {
            idx = idx - NB;
            let ghost xpre = x@;
            compute_lower_block_notranspose(idx, NB, unit_diag, matrix, lda, n, x);
            let ghost xmid = x@;
            proof {
                assert forall|u: int| idx <= u < idx + NB implies #[trigger] xmid[u] as int == psum(
                    matrix@,
                    u + (idx as int) * (lda as int),
                    lda as int,
                    old(x)@,
                    idx as int,
                    1,
                    u - idx,
                ) + tri_diag_val(matrix@, lda as int, old(x)@, 1, unit_diag, u) && -TRI_PART
                    <= xmid[u] && xmid[u] <= TRI_PART by {
                    lemma_psum_eq(
                        matrix@, u + (idx as int) * (lda as int), lda as int, xpre, idx as int, 1,
                        matrix@, u + (idx as int) * (lda as int), lda as int, old(x)@, idx as int, 1,
                        u - idx,
                    );
                    assert forall|w: int| 0 <= w < u - idx implies -((MAX_ELEM * MAX_ELEM) as int)
                        <= #[trigger] pterm(
                        matrix@,
                        u + (idx as int) * (lda as int),
                        lda as int,
                        old(x)@,
                        idx as int,
                        1,
                        w,
                    ) <= (MAX_ELEM * MAX_ELEM) as int by {
                        assert(mat_idx(lda as int, u, idx + w) == u + (idx as int) * (lda as int)
                            + w * (lda as int)) by {
                            lemma_mul_dist(lda as int, idx as int, w);
                        }
                        lemma_mul_bound(
                            matrix@[mat_idx(lda as int, u, idx + w)] as int,
                            old(x)@[idx + w] as int,
                            MAX_ELEM as int,
                            MAX_ELEM as int,
                        );
                    }
                    lemma_psum_bound(
                        matrix@, u + (idx as int) * (lda as int), lda as int, old(x)@, idx as int, 1,
                        u - idx, (MAX_ELEM * MAX_ELEM) as int,
                    );
                    lemma_mul_le(u - idx, 63, (MAX_ELEM * MAX_ELEM) as int);
                    if !unit_diag {
                        lemma_mul_bound(
                            matrix@[mat_idx(lda as int, u, u)] as int,
                            old(x)@[vidx(1, u)] as int,
                            MAX_ELEM as int,
                            MAX_ELEM as int,
                        );
                    }
                }
            }
            if idx > 0 {
                proof {
                    lemma_mul_le((idx - 1) as int, (n - 1) as int, lda as int);
                }
                saxpyf(NB, idx, matrix, lda, idx, x, idx);
            }
            proof {
                assert forall|t: int| idx <= t < n implies #[trigger] x@[t] as int == tri_nt_val(
                    matrix@,
                    lda as int,
                    old(x)@,
                    1,
                    unit_diag,
                    t,
                ) by {
                    if t < idx + NB {
                        if idx > 0 {
                            lemma_psum_eq(
                                matrix@, t, lda as int, xmid, 0, 1,
                                matrix@, t, lda as int, old(x)@, 0, 1,
                                idx as int,
                            );
                        }
                        lemma_psum_split(matrix@, t, lda as int, old(x)@, 0, 1, idx as int, t - idx);
                        assert(vidx(1, t) == t);
                    }
                }
            }
        }
        if idx > 0 {
            let blk_len = idx;
            let ghost xpre = x@;
            compute_lower_block_notranspose(0, blk_len, unit_diag, matrix, lda, n, x);
            proof {
                assert forall|t: int| 0 <= t < n implies #[trigger] x@[t] as int == tri_nt_val(
                    matrix@,
                    lda as int,
                    old(x)@,
                    1,
                    unit_diag,
                    t,
                ) by {
                    if t < blk_len {
                        lemma_psum_eq(
                            matrix@, t + 0 * (lda as int), lda as int, xpre, 0, 1,
                            matrix@, t, lda as int, old(x)@, 0, 1,
                            t,
                        );
                        assert(vidx(1, t) == t);
                    }
                }
            }
        }
        proof {
            assert forall|t: int| 0 <= t < n implies final(x)@[#[trigger] vidx(incx as int, t)] as int
                == tri_nt_val(matrix@, lda as int, old(x)@, incx as int, unit_diag, t) by {
                assert(vidx(1, t) == t);
            }
            assert forall|q: int|
                0 <= q < old(x).len() && !in_vec(incx as int, n as int, q) implies final(x)@[q]
                == old(x)@[q] by {
                if 0 <= q < n {
                    assert(vidx(1, q) == q);
                    assert(in_vec(1, n as int, q));
                }
            }
        }
    } else {
        compute_lower_block_tail_notranspose(n, unit_diag, matrix, lda, x, incx);
    }
}

/// Transpose triangular multiply `x := L^T * x`.  Unit stride takes the
/// panel-blocked fast path, walking `NB`-sized diagonal panels from the
/// first one forward: the dense in-panel sweep first, then one fused
/// `sdotf` over all rows below the panel, both against elements not yet
/// overwritten.  Any other stride takes the degenerate forward sweep.
#[verifier::loop_isolation(false)]
#[verifier::rlimit(100)]
fn strlmv_transpose(
    n: usize, unit_diag: bool, matrix: &Vec<i64>, lda: usize, x: &mut Vec<i64>, incx: usize,
)
    requires
        1 <= n,
        n <= MAX_K,
        1 <= incx,
        n <= lda,
        (n - 1) * lda + n <= matrix.len(),
        (n - 1) * incx + 1 <= old(x).len(),
        forall|gi: int, gj: int|
            0 <= gj <= gi < n ==> -MAX_ELEM <= matrix@[#[trigger] mat_idx(lda as int, gi, gj)]
                <= MAX_ELEM,
        forall|t: int|
            0 <= t < n ==> -MAX_ELEM <= old(x)@[#[trigger] vidx(incx as int, t)] <= MAX_ELEM,
    ensures
        final(x).len() == old(x).len(),
        forall|t: int|
            0 <= t < n ==> final(x)@[#[trigger] vidx(incx as int, t)] as int == tri_t_val(
                matrix@,
                lda as int,
                old(x)@,
                incx as int,
                n as int,
                unit_diag,
                t,
            ),
        forall|q: int|
            0 <= q < old(x).len() && !in_vec(incx as int, n as int, q) ==> final(x)@[q] == old(
                x,
            )@[q],
{
    if incx == 1 {
        proof {
            assert forall|t: int| 0 <= t < n implies -MAX_ELEM <= #[trigger] old(x)@[t]
                <= MAX_ELEM by {
                assert(vidx(1, t) == t);
                assert(-MAX_ELEM <= old(x)@[vidx(1, t)] <= MAX_ELEM);
            }
        }
        let mut idx: usize = 0;
        while idx + NB <= n
            invariant
                idx <= n,
                x.len() == old(x).len(),
                forall|t: int|
                    0 <= t < idx ==> #[trigger] x@[t] as int == tri_t_val(
                        matrix@,
                        lda as int,
                        old(x)@,
                        1,
                        n as int,
                        unit_diag,
                        t,
                    ),
                forall|t: int| idx <= t < n ==> #[trigger] x@[t] == old(x)@[t],
                forall|q: int| n <= q < old(x).len() ==> #[trigger] x@[q] == old(x)@[q],
            decreases n - idx,
        {
            let ghost xpre = x@;
            compute_lower_block_transpose(idx, NB, unit_diag, matrix, lda, n, x);
            let ghost xmid = x@;
            let row_tail = idx + NB;
            proof {
                assert forall|u: int| idx <= u < idx + NB implies #[trigger] xmid[u] as int == psum(
                    matrix@,
                    (u + 1) + u * (lda as int),
                    1,
                    old(x)@,
                    u + 1,
                    1,
                    (row_tail as int) - u - 1,
                ) + tri_diag_val(matrix@, lda as int, old(x)@, 1, unit_diag, u) && -TRI_PART
                    <= xmid[u] && xmid[u] <= TRI_PART by {
                    lemma_psum_eq(
                        matrix@, (u + 1) + u * (lda as int), 1, xpre, u + 1, 1,
                        matrix@, (u + 1) + u * (lda as int), 1, old(x)@, u + 1, 1,
                        (row_tail as int) - u - 1,
                    );
                    assert forall|w: int| 0 <= w < (row_tail as int) - u - 1 implies -((MAX_ELEM
                        * MAX_ELEM) as int) <= #[trigger] pterm(
                        matrix@,
                        (u + 1) + u * (lda as int),
                        1,
                        old(x)@,
                        u + 1,
                        1,
                        w,
                    ) <= (MAX_ELEM * MAX_ELEM) as int by {
                        assert(mat_idx(lda as int, u + 1 + w, u) == (u + 1) + u * (lda as int) + w
                            * 1);
                        lemma_mul_bound(
                            matrix@[mat_idx(lda as int, u + 1 + w, u)] as int,
                            old(x)@[u + 1 + w] as int,
                            MAX_ELEM as int,
                            MAX_ELEM as int,
                        );
                    }
                    lemma_psum_bound(
                        matrix@, (u + 1) + u * (lda as int), 1, old(x)@, u + 1, 1,
                        (row_tail as int) - u - 1, (MAX_ELEM * MAX_ELEM) as int,
                    );
                    lemma_mul_le((row_tail as int) - u - 1, 63, (MAX_ELEM * MAX_ELEM) as int);
                    if !unit_diag {
                        lemma_mul_bound(
                            matrix@[mat_idx(lda as int, u, u)] as int,
                            old(x)@[vidx(1, u)] as int,
                            MAX_ELEM as int,
                            MAX_ELEM as int,
                        );
                    }
                }
            }
            if row_tail < n {
                proof {
                    lemma_mul_le((idx + NB - 1) as int, (n - 1) as int, lda as int);
                }
                sdotf(n - row_tail, NB, matrix, lda, row_tail, idx, x, row_tail, idx);
            }
            proof {
                assert forall|t: int| 0 <= t < row_tail implies #[trigger] x@[t] as int
                    == tri_t_val(matrix@, lda as int, old(x)@, 1, n as int, unit_diag, t) by {
                    if idx <= t {
                        if row_tail < n {
                            lemma_psum_eq(
                                matrix@, (row_tail as int) + t * (lda as int), 1, xmid,
                                row_tail as int, 1,
                                matrix@, (row_tail as int) + t * (lda as int), 1, old(x)@,
                                row_tail as int, 1,
                                (n - row_tail) as int,
                            );
                        }
                        lemma_psum_split(
                            matrix@, (t + 1) + t * (lda as int), 1, old(x)@, t + 1, 1,
                            (row_tail as int) - t - 1, (n - row_tail) as int,
                        );
                        assert(vidx(1, t) == t);
                    }
                }
            }
            idx = idx + NB;
        }
        if idx < n {
            let blk_len = n - idx;
            let ghost xpre = x@;
            compute_lower_block_transpose(idx, blk_len, unit_diag, matrix, lda, n, x);
            proof {
                assert forall|t: int| 0 <= t < n implies #[trigger] x@[t] as int == tri_t_val(
                    matrix@,
                    lda as int,
                    old(x)@,
                    1,
                    n as int,
                    unit_diag,
                    t,
                ) by {
                    if idx <= t {
                        lemma_psum_eq(
                            matrix@, (t + 1) + t * (lda as int), 1, xpre, t + 1, 1,
                            matrix@, (t + 1) + t * (lda as int), 1, old(x)@, t + 1, 1,
                            (n as int) - t - 1,
                        );
                        assert(vidx(1, t) == t);
                    }
                }
            }
        }
        proof {
            assert forall|t: int| 0 <= t < n implies final(x)@[#[trigger] vidx(incx as int, t)] as int
                == tri_t_val(matrix@, lda as int, old(x)@, incx as int, n as int, unit_diag, t) by {
                assert(vidx(1, t) == t);
            }
            assert forall|q: int|
                0 <= q < old(x).len() && !in_vec(incx as int, n as int, q) implies final(x)@[q]
                == old(x)@[q] by {
                if 0 <= q < n {
                    assert(vidx(1, q) == q);
                    assert(in_vec(1, n as int, q));
                }
            }
        }
    } else {
        compute_lower_block_tail_transpose(n, unit_diag, matrix, lda, x, incx);
    }
}

/// Lower-triangular matrix-vector multiply with orientation and diagonal
/// selectors: `x := L * x` for the no-transpose orientation, `x := L^T * x`
/// for the transpose and conjugate-transpose orientations.  A zero order
/// is a no-op.
pub fn strlmv(
    n: usize, diagonal: CoralDiag, transpose: CoralTranspose,
    matrix: &Vec<i64>, lda: usize, x: &mut Vec<i64>, incx: usize,
)
    requires
        n >= 1 ==> 1 <= incx,
        n >= 1 ==> n <= lda,
        n >= 1 ==> (n - 1) * lda + n <= matrix.len(),
        n >= 1 ==> (n - 1) * incx + 1 <= old(x).len(),
        n <= MAX_K,
        forall|gi: int, gj: int|
            0 <= gj <= gi < n ==> -MAX_ELEM <= matrix@[#[trigger] mat_idx(lda as int, gi, gj)]
                <= MAX_ELEM,
        forall|t: int|
            0 <= t < n ==> -MAX_ELEM <= old(x)@[#[trigger] vidx(incx as int, t)] <= MAX_ELEM,
    ensures
        final(x).len() == old(x).len(),
        transpose == CoralTranspose::NoTranspose ==> forall|t: int|
            0 <= t < n ==> final(x)@[#[trigger] vidx(incx as int, t)] as int == tri_nt_val(
                matrix@,
                lda as int,
                old(x)@,
                incx as int,
                diagonal == CoralDiag::UnitDiag,
                t,
            ),
        transpose != CoralTranspose::NoTranspose ==> forall|t: int|
            0 <= t < n ==> final(x)@[#[trigger] vidx(incx as int, t)] as int == tri_t_val(
                matrix@,
                lda as int,
                old(x)@,
                incx as int,
                n as int,
                diagonal == CoralDiag::UnitDiag,
                t,
            ),
        forall|q: int|
            0 <= q < old(x).len() && !in_vec(incx as int, n as int, q) ==> final(x)@[q] == old(
                x,
            )@[q],
{
    if n == 0 {
        return ;
    }
    let unit_diag = match diagonal {
        CoralDiag::UnitDiag => true,
        CoralDiag::NonUnitDiag => false,
    };
    match transpose {
        CoralTranspose::NoTranspose => strlmv_notranspose(n, unit_diag, matrix, lda, x, incx),
        CoralTranspose::Transpose => strlmv_transpose(n, unit_diag, matrix, lda, x, incx),
        CoralTranspose::ConjugateTranspose => strlmv_transpose(n, unit_diag, matrix, lda, x, incx),
    }
}

} // verus!
