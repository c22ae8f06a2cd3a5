//! Hermitian rank-2 update over exact Gaussian-integer scalars:
//! `A := alpha*(x*y^H) + conj(alpha)*(y*x^H) + A` for an n x n Hermitian
//! matrix stored column-major with interleaved `[re, im, ...]` components.
//! Only the selected triangle is referenced and updated, and the imaginary
//! part of each updated diagonal entry is forced to zero, as the Hermitian
//! storage convention demands.

use vstd::prelude::*;
use crate::sums::{mat_idx, lemma_mul_bound, lemma_mul_le, lemma_idx_unique};
use crate::gemm::{MAX_ELEM, MAX_K};
use crate::enums::CoralTriangular;
use vstd::pervasive::VecAdditionalExecFns;

verus! {

/// Flat position of the real component of logical element `t` of an
/// interleaved complex vector with stride `inc`; the imaginary component
/// sits one slot later.
pub open spec fn cri(inc: int, t: int) -> int {
    2 * (t * inc)
}

/// Flat position of the real component of element (i, j) of an interleaved
/// column-major complex matrix; the imaginary component sits one slot
/// later.
pub open spec fn cmx(lda: int, i: int, j: int) -> int {
    2 * mat_idx(lda, i, j)
}

/// Real part of `alpha * conj(y[j])`.
pub open spec fn ay_re(ar: int, ai: int, y: Seq<i64>, incy: int, j: int) -> int {
    ar * (y[cri(incy, j)] as int) + ai * (y[cri(incy, j) + 1] as int)
}

/// Imaginary part of `alpha * conj(y[j])`.
pub open spec fn ay_im(ar: int, ai: int, y: Seq<i64>, incy: int, j: int) -> int {
    ai * (y[cri(incy, j)] as int) - ar * (y[cri(incy, j) + 1] as int)
}

/// Real part of `conj(alpha) * conj(x[j])`.
pub open spec fn ax_re(ar: int, ai: int, x: Seq<i64>, incx: int, j: int) -> int {
    ar * (x[cri(incx, j)] as int) - ai * (x[cri(incx, j) + 1] as int)
}

/// Imaginary part of `conj(alpha) * conj(x[j])`.
pub open spec fn ax_im(ar: int, ai: int, x: Seq<i64>, incx: int, j: int) -> int {
    -(ar * (x[cri(incx, j) + 1] as int)) - ai * (x[cri(incx, j)] as int)
}

/// Real part of the updated element (i, j):
/// `A[i,j] + (alpha*conj(y[j]))*x[i] + (conj(alpha)*conj(x[j]))*y[i]`.
pub open spec fn her2_new_re(
    a0: Seq<i64>, lda: int, ar: int, ai: int,
    x: Seq<i64>, incx: int, y: Seq<i64>, incy: int, i: int, j: int,
) -> int {
    (a0[cmx(lda, i, j)] as int) + (ay_re(ar, ai, y, incy, j) * (x[cri(incx, i)] as int) - ay_im(
        ar,
        ai,
        y,
        incy,
        j,
    ) * (x[cri(incx, i) + 1] as int)) + (ax_re(ar, ai, x, incx, j) * (y[cri(incy, i)] as int)
        - ax_im(ar, ai, x, incx, j) * (y[cri(incy, i) + 1] as int))
}

/// Imaginary part of the updated element (i, j), before the diagonal is
/// forced back to a real value.
pub open spec fn her2_new_im(
    a0: Seq<i64>, lda: int, ar: int, ai: int,
    x: Seq<i64>, incx: int, y: Seq<i64>, incy: int, i: int, j: int,
) -> int {
    (a0[cmx(lda, i, j) + 1] as int) + (ay_re(ar, ai, y, incy, j) * (x[cri(incx, i) + 1] as int)
        + ay_im(ar, ai, y, incy, j) * (x[cri(incx, i)] as int)) + (ax_re(ar, ai, x, incx, j) * (y[
        cri(incy, i) + 1
    ] as int) + ax_im(ar, ai, x, incx, j) * (y[cri(incy, i)] as int))
}

/// Whether (i, j) lies in the stored triangle.
pub open spec fn in_tri(uplo: CoralTriangular, n: int, i: int, j: int) -> bool {
    match uplo {
        CoralTriangular::UpperTriangular => 0 <= i <= j < n,
        CoralTriangular::LowerTriangular => 0 <= j <= i < n,
    }
}

/// Whether flat position `q` belongs to a stored-triangle element.
pub open spec fn her2_touched(uplo: CoralTriangular, n: int, lda: int, q: int) -> bool {
    exists|i: int, j: int|
        in_tri(uplo, n, i, j) && (q == 2 * #[trigger] mat_idx(lda, i, j) || q == 2 * mat_idx(
            lda,
            i,
            j,
        ) + 1)
}

/// Whether flat position `q` belongs to rows [lo, hi) of column `j`.
pub open spec fn in_col(lda: int, j: int, lo: int, hi: int, q: int) -> bool {
    exists|i: int|
        lo <= i < hi && (q == 2 * #[trigger] mat_idx(lda, i, j) || q == 2 * mat_idx(lda, i, j) + 1)
}

/// Applies the rank-2 column update to rows [lo, hi) of column `j`, with
/// the two per-column coefficients already formed.
#[verifier::loop_isolation(false)]
#[verifier::rlimit(100)]
fn update_column(
    j: usize, lo: usize, hi: usize, n: usize,
    ayr: i64, ayi: i64, axr: i64, axi: i64, ar: i64, ai: i64,
    matrix: &mut Vec<i64>, lda: usize, x: &Vec<i64>, incx: usize, y: &Vec<i64>, incy: usize,
)
    requires
        lo <= hi <= n,
        j < n,
        n <= lda,
        n <= MAX_K,
        1 <= incx,
        1 <= incy,
        2 * ((n - 1) * lda + n) <= old(matrix).len(),
        2 * ((n - 1) * incx + 1) <= x.len(),
        2 * ((n - 1) * incy + 1) <= y.len(),
        forall|t: int|
            0 <= t < n ==> -MAX_ELEM <= x@[#[trigger] cri(incx as int, t)] <= MAX_ELEM && -MAX_ELEM
                <= x@[cri(incx as int, t) + 1] <= MAX_ELEM,
        forall|t: int|
            0 <= t < n ==> -MAX_ELEM <= y@[#[trigger] cri(incy as int, t)] <= MAX_ELEM && -MAX_ELEM
                <= y@[cri(incy as int, t) + 1] <= MAX_ELEM,
        forall|gi: int|
            lo <= gi < hi ==> -MAX_ELEM <= old(matrix)@[2 * #[trigger] mat_idx(lda as int, gi, j as int)]
                <= MAX_ELEM && -MAX_ELEM <= old(matrix)@[2 * mat_idx(lda as int, gi, j as int) + 1]
                <= MAX_ELEM,
        -MAX_ELEM <= ar <= MAX_ELEM,
        -MAX_ELEM <= ai <= MAX_ELEM,
        ayr as int == ay_re(ar as int, ai as int, y@, incy as int, j as int),
        ayi as int == ay_im(ar as int, ai as int, y@, incy as int, j as int),
        axr as int == ax_re(ar as int, ai as int, x@, incx as int, j as int),
        axi as int == ax_im(ar as int, ai as int, x@, incx as int, j as int),
    ensures
        final(matrix).len() == old(matrix).len(),
        forall|gi: int|
            lo <= gi < hi ==> final(matrix)@[2 * #[trigger] mat_idx(lda as int, gi, j as int)] as int
                == her2_new_re(
                old(matrix)@, lda as int, ar as int, ai as int,
                x@, incx as int, y@, incy as int, gi, j as int,
            ) && final(matrix)@[2 * mat_idx(lda as int, gi, j as int) + 1] as int == her2_new_im(
                old(matrix)@, lda as int, ar as int, ai as int,
                x@, incx as int, y@, incy as int, gi, j as int,
            ),
        forall|q: int|
            0 <= q < old(matrix).len() && !in_col(lda as int, j as int, lo as int, hi as int, q)
                ==> final(matrix)@[q] == old(matrix)@[q],
{
    proof {
        lemma_mul_le(j as int, (n - 1) as int, lda as int);
    }
    let colbase = j * lda;
    let mut i: usize = lo;
    while i < hi
        invariant
            lo <= i <= hi,
            matrix.len() == old(matrix).len(),
            colbase == j * (lda as int),
            forall|gi: int|
                lo <= gi < i ==> matrix@[2 * #[trigger] mat_idx(lda as int, gi, j as int)] as int
                    == her2_new_re(
                    old(matrix)@, lda as int, ar as int, ai as int,
                    x@, incx as int, y@, incy as int, gi, j as int,
                ) && matrix@[2 * mat_idx(lda as int, gi, j as int) + 1] as int == her2_new_im(
                    old(matrix)@, lda as int, ar as int, ai as int,
                    x@, incx as int, y@, incy as int, gi, j as int,
                ),
            forall|gi: int|
                i <= gi < hi ==> matrix@[2 * #[trigger] mat_idx(lda as int, gi, j as int)] == old(
                    matrix,
                )@[2 * mat_idx(lda as int, gi, j as int)] && matrix@[2 * mat_idx(
                    lda as int,
                    gi,
                    j as int,
                ) + 1] == old(matrix)@[2 * mat_idx(lda as int, gi, j as int) + 1],
            forall|q: int|
                0 <= q < old(matrix).len() && !in_col(lda as int, j as int, lo as int, hi as int, q)
                    ==> matrix@[q] == old(matrix)@[q],
        decreases hi - i,
    {
        proof {
            lemma_mul_le(i as int, (n - 1) as int, incx as int);
            lemma_mul_le(i as int, (n - 1) as int, incy as int);
            lemma_mul_le(0, i as int, incx as int);
            lemma_mul_le(0, i as int, incy as int);
        }
        let xir = x[2 * (i * incx)];
        let xii = x[2 * (i * incx) + 1];
        let yir = y[2 * (i * incy)];
        let yii = y[2 * (i * incy) + 1];
        let ridx = 2 * (i + colbase);
        let are = matrix[ridx];
        let aim = matrix[ridx + 1];
        proof {
            assert(ridx as int == 2 * mat_idx(lda as int, i as int, j as int));
            assert(xir == x@[cri(incx as int, i as int)]);
            assert(xii == x@[cri(incx as int, i as int) + 1]);
            assert(yir == y@[cri(incy as int, i as int)]);
            assert(yii == y@[cri(incy as int, i as int) + 1]);
            let me = MAX_ELEM as int;
            lemma_mul_bound(ar as int, y@[cri(incy as int, j as int)] as int, me, me);
            lemma_mul_bound(ai as int, y@[cri(incy as int, j as int) + 1] as int, me, me);
            lemma_mul_bound(ai as int, y@[cri(incy as int, j as int)] as int, me, me);
            lemma_mul_bound(ar as int, y@[cri(incy as int, j as int) + 1] as int, me, me);
            lemma_mul_bound(ar as int, x@[cri(incx as int, j as int)] as int, me, me);
            lemma_mul_bound(ai as int, x@[cri(incx as int, j as int) + 1] as int, me, me);
            lemma_mul_bound(ar as int, x@[cri(incx as int, j as int) + 1] as int, me, me);
            lemma_mul_bound(ai as int, x@[cri(incx as int, j as int)] as int, me, me);
            lemma_mul_bound(ayr as int, xir as int, 2 * me * me, me);
            lemma_mul_bound(ayi as int, xii as int, 2 * me * me, me);
            lemma_mul_bound(ayr as int, xii as int, 2 * me * me, me);
            lemma_mul_bound(ayi as int, xir as int, 2 * me * me, me);
            lemma_mul_bound(axr as int, yir as int, 2 * me * me, me);
            lemma_mul_bound(axi as int, yii as int, 2 * me * me, me);
            lemma_mul_bound(axr as int, yii as int, 2 * me * me, me);
            lemma_mul_bound(axi as int, yir as int, 2 * me * me, me);
        }
        let t1re = ayr * xir - ayi * xii;
        let t1im = ayr * xii + ayi * xir;
        let t2re = axr * yir - axi * yii;
        let t2im = axr * yii + axi * yir;
        let ghost mpre = matrix@;
        matrix.set(ridx, are + t1re + t2re);
        matrix.set(ridx + 1, aim + t1im + t2im);
        proof {
            assert(in_col(lda as int, j as int, lo as int, hi as int, ridx as int));
            assert(in_col(lda as int, j as int, lo as int, hi as int, ridx + 1));
            assert forall|gi: int|
                lo <= gi < hi && gi != i implies matrix@[2 * #[trigger] mat_idx(
                lda as int,
                gi,
                j as int,
            )] == mpre[2 * mat_idx(lda as int, gi, j as int)] && matrix@[2 * mat_idx(
                lda as int,
                gi,
                j as int,
            ) + 1] == mpre[2 * mat_idx(lda as int, gi, j as int) + 1] by {
                if 2 * mat_idx(lda as int, gi, j as int) == ridx as int || 2 * mat_idx(
                    lda as int,
                    gi,
                    j as int,
                ) + 1 == ridx + 1 {
                    lemma_idx_unique(lda as int, gi, j as int, i as int, j as int);
                }
            }
        }
        i = i + 1;
    }
}

/// Hermitian rank-2 update
/// `A := alpha*(x*y^H) + conj(alpha)*(y*x^H) + A` on the stored triangle
/// of an interleaved column-major n x n matrix, forcing the imaginary part
/// of every updated diagonal entry to zero.  A zero order or a zero alpha
/// returns immediately with the matrix untouched.
#[verifier::loop_isolation(false)]
#[verifier::rlimit(100)]
pub fn zher2(
    uplo: CoralTriangular, n: usize, alpha: [i64; 2],
    x: &Vec<i64>, incx: usize, y: &Vec<i64>, incy: usize,
    matrix: &mut Vec<i64>, lda: usize,
)
    requires
        n >= 1 ==> 1 <= incx && 1 <= incy && n <= lda,
        n >= 1 ==> 2 * ((n - 1) * lda + n) <= old(matrix).len(),
        n >= 1 ==> 2 * ((n - 1) * incx + 1) <= x.len(),
        n >= 1 ==> 2 * ((n - 1) * incy + 1) <= y.len(),
        n <= MAX_K,
        -MAX_ELEM <= alpha[0] <= MAX_ELEM,
        -MAX_ELEM <= alpha[1] <= MAX_ELEM,
        forall|t: int|
            0 <= t < n ==> -MAX_ELEM <= x@[#[trigger] cri(incx as int, t)] <= MAX_ELEM && -MAX_ELEM
                <= x@[cri(incx as int, t) + 1] <= MAX_ELEM,
        forall|t: int|
            0 <= t < n ==> -MAX_ELEM <= y@[#[trigger] cri(incy as int, t)] <= MAX_ELEM && -MAX_ELEM
                <= y@[cri(incy as int, t) + 1] <= MAX_ELEM,
        forall|gi: int, gj: int|
            in_tri(uplo, n as int, gi, gj) ==> -MAX_ELEM <= old(matrix)@[2 * #[trigger] mat_idx(
                lda as int,
                gi,
                gj,
            )] <= MAX_ELEM && -MAX_ELEM <= old(matrix)@[2 * mat_idx(lda as int, gi, gj) + 1]
                <= MAX_ELEM,
    ensures
        final(matrix).len() == old(matrix).len(),
        n == 0 || (alpha[0] == 0 && alpha[1] == 0) ==> final(matrix)@ == old(matrix)@,
        n >= 1 && !(alpha[0] == 0 && alpha[1] == 0) ==> forall|gi: int, gj: int|
            in_tri(uplo, n as int, gi, gj) ==> final(matrix)@[2 * #[trigger] mat_idx(
                lda as int,
                gi,
                gj,
            )] as int == her2_new_re(
                old(matrix)@, lda as int, alpha[0] as int, alpha[1] as int,
                x@, incx as int, y@, incy as int, gi, gj,
            ) && final(matrix)@[2 * mat_idx(lda as int, gi, gj) + 1] as int == (if gi == gj {
                0int
            } else {
                her2_new_im(
                    old(matrix)@, lda as int, alpha[0] as int, alpha[1] as int,
                    x@, incx as int, y@, incy as int, gi, gj,
                )
            }),
        forall|q: int|
            0 <= q < old(matrix).len() && !her2_touched(uplo, n as int, lda as int, q)
                ==> final(matrix)@[q] == old(matrix)@[q],
{
    if n == 0 || (alpha[0] == 0 && alpha[1] == 0) {
        return ;
    }
    let ar = alpha[0];
    let ai = alpha[1];
    let mut j: usize = 0;
    while j < n
        invariant
            j <= n,
            matrix.len() == old(matrix).len(),
            forall|gi: int, gj: int|
                in_tri(uplo, n as int, gi, gj) && gj < j ==> matrix@[2 * #[trigger] mat_idx(
                    lda as int,
                    gi,
                    gj,
                )] as int == her2_new_re(
                    old(matrix)@, lda as int, ar as int, ai as int,
                    x@, incx as int, y@, incy as int, gi, gj,
                ) && matrix@[2 * mat_idx(lda as int, gi, gj) + 1] as int == (if gi == gj {
                    0int
                } else {
                    her2_new_im(
                        old(matrix)@, lda as int, ar as int, ai as int,
                        x@, incx as int, y@, incy as int, gi, gj,
                    )
                }),
            forall|gi: int, gj: int|
                in_tri(uplo, n as int, gi, gj) && j <= gj ==> matrix@[2 * #[trigger] mat_idx(
                    lda as int,
                    gi,
                    gj,
                )] == old(matrix)@[2 * mat_idx(lda as int, gi, gj)] && matrix@[2 * mat_idx(
                    lda as int,
                    gi,
                    gj,
                ) + 1] == old(matrix)@[2 * mat_idx(lda as int, gi, gj) + 1],
            forall|q: int|
                0 <= q < old(matrix).len() && !her2_touched(uplo, n as int, lda as int, q)
                    ==> matrix@[q] == old(matrix)@[q],
        decreases n - j,
    {
        proof {
            lemma_mul_le(j as int, (n - 1) as int, incx as int);
            lemma_mul_le(j as int, (n - 1) as int, incy as int);
            lemma_mul_le(0, j as int, incx as int);
            lemma_mul_le(0, j as int, incy as int);
            let me = MAX_ELEM as int;
            lemma_mul_bound(ar as int, y@[cri(incy as int, j as int)] as int, me, me);
            lemma_mul_bound(ai as int, y@[cri(incy as int, j as int) + 1] as int, me, me);
            lemma_mul_bound(ai as int, y@[cri(incy as int, j as int)] as int, me, me);
            lemma_mul_bound(ar as int, y@[cri(incy as int, j as int) + 1] as int, me, me);
            lemma_mul_bound(ar as int, x@[cri(incx as int, j as int)] as int, me, me);
            lemma_mul_bound(ai as int, x@[cri(incx as int, j as int) + 1] as int, me, me);
            lemma_mul_bound(ar as int, x@[cri(incx as int, j as int) + 1] as int, me, me);
            lemma_mul_bound(ai as int, x@[cri(incx as int, j as int)] as int, me, me);
        }
        let xjr = x[2 * (j * incx)];
        let xji = x[2 * (j * incx) + 1];
        let yjr = y[2 * (j * incy)];
        let yji = y[2 * (j * incy) + 1];
        proof {
            assert(xjr == x@[cri(incx as int, j as int)]);
            assert(xji == x@[cri(incx as int, j as int) + 1]);
            assert(yjr == y@[cri(incy as int, j as int)]);
            assert(yji == y@[cri(incy as int, j as int) + 1]);
        }
        let ayr = ar * yjr + ai * yji;
        let ayi = ai * yjr - ar * yji;
        let axr = ar * xjr - ai * xji;
        let axi = -(ar * xji) - ai * xjr;
        let ghost mcol = matrix@;
        match uplo {
            CoralTriangular::UpperTriangular => {
                update_column(j, 0, j + 1, n, ayr, ayi, axr, axi, ar, ai, matrix, lda, x, incx, y, incy);
            },
            CoralTriangular::LowerTriangular => {
                update_column(j, j, n, n, ayr, ayi, axr, axi, ar, ai, matrix, lda, x, incx, y, incy);
            },
        }
        proof {
            lemma_mul_le(j as int, (n - 1) as int, lda as int);
        }
        let didx = 2 * (j + j * lda);
        let ghost mpre = matrix@;
        matrix.set(didx + 1, 0i64);
        proof {
            assert(didx as int == 2 * mat_idx(lda as int, j as int, j as int));
            assert(in_tri(uplo, n as int, j as int, j as int));
            assert(her2_touched(uplo, n as int, lda as int, didx + 1));
            let lo: int = if uplo == CoralTriangular::UpperTriangular { 0 } else { j as int };
            let hi: int = if uplo == CoralTriangular::UpperTriangular { j + 1 } else { n as int };
            assert forall|gi: int, gj: int|
                in_tri(uplo, n as int, gi, gj) && gj < j + 1 implies matrix@[2 * #[trigger] mat_idx(
                lda as int,
                gi,
                gj,
            )] as int == her2_new_re(
                old(matrix)@, lda as int, ar as int, ai as int,
                x@, incx as int, y@, incy as int, gi, gj,
            ) && matrix@[2 * mat_idx(lda as int, gi, gj) + 1] as int == (if gi == gj {
                0int
            } else {
                her2_new_im(
                    old(matrix)@, lda as int, ar as int, ai as int,
                    x@, incx as int, y@, incy as int, gi, gj,
                )
            }) by {
                lemma_mul_le(0, gj, lda as int);
                lemma_mul_le(gj, (n - 1) as int, lda as int);
                assert(0 <= 2 * mat_idx(lda as int, gi, gj));
                assert(2 * mat_idx(lda as int, gi, gj) + 1 < old(matrix).len());
                if gj < j {
                    // an earlier column: untouched by this iteration
                    if 2 * mat_idx(lda as int, gi, gj) == didx + 1 || 2 * mat_idx(lda as int, gi, gj)
                        + 1 == didx + 1 || 2 * mat_idx(lda as int, gi, gj) == didx || 2 * mat_idx(
                        lda as int,
                        gi,
                        gj,
                    ) + 1 == didx {
                        lemma_idx_unique(lda as int, gi, gj, j as int, j as int);
                    }
                    assert(!in_col(lda as int, j as int, lo, hi, 2 * mat_idx(lda as int, gi, gj)))
                        by {
                        if in_col(lda as int, j as int, lo, hi, 2 * mat_idx(lda as int, gi, gj)) {
                            let wi = choose|wi: int|
                                lo <= wi < hi && (2 * mat_idx(lda as int, gi, gj) == 2
                                    * #[trigger] mat_idx(lda as int, wi, j as int) || 2 * mat_idx(
                                    lda as int,
                                    gi,
                                    gj,
                                ) == 2 * mat_idx(lda as int, wi, j as int) + 1);
                            lemma_idx_unique(lda as int, gi, gj, wi, j as int);
                        }
                    }
                    assert(!in_col(lda as int, j as int, lo, hi, 2 * mat_idx(lda as int, gi, gj) + 1))
                        by {
                        if in_col(lda as int, j as int, lo, hi, 2 * mat_idx(lda as int, gi, gj) + 1) {
                            let wi = choose|wi: int|
                                lo <= wi < hi && (2 * mat_idx(lda as int, gi, gj) + 1 == 2
                                    * #[trigger] mat_idx(lda as int, wi, j as int) || 2 * mat_idx(
                                    lda as int,
                                    gi,
                                    gj,
                                ) + 1 == 2 * mat_idx(lda as int, wi, j as int) + 1);
                            lemma_idx_unique(lda as int, gi, gj, wi, j as int);
                        }
                    }
                } else {
                    // the column this iteration wrote
                    assert(gj == j);
                    assert(lo <= gi < hi);
                    assert(mcol[2 * mat_idx(lda as int, gi, gj)] == old(matrix)@[2 * mat_idx(
                        lda as int,
                        gi,
                        gj,
                    )]);
                    assert(mcol[2 * mat_idx(lda as int, gi, gj) + 1] == old(matrix)@[2 * mat_idx(
                        lda as int,
                        gi,
                        gj,
                    ) + 1]);
                    if gi != j {
                        if 2 * mat_idx(lda as int, gi, gj) == didx + 1 || 2 * mat_idx(
                            lda as int,
                            gi,
                            gj,
                        ) + 1 == didx + 1 {
                            lemma_idx_unique(lda as int, gi, gj, j as int, j as int);
                        }
                    }
                }
            }
            assert forall|gi: int, gj: int|
                in_tri(uplo, n as int, gi, gj) && j + 1 <= gj implies matrix@[2 * #[trigger] mat_idx(
                lda as int,
                gi,
                gj,
            )] == old(matrix)@[2 * mat_idx(lda as int, gi, gj)] && matrix@[2 * mat_idx(
                lda as int,
                gi,
                gj,
            ) + 1] == old(matrix)@[2 * mat_idx(lda as int, gi, gj) + 1] by {
                lemma_mul_le(0, gj, lda as int);
                lemma_mul_le(gj, (n - 1) as int, lda as int);
                assert(0 <= 2 * mat_idx(lda as int, gi, gj));
                assert(2 * mat_idx(lda as int, gi, gj) + 1 < old(matrix).len());
                if 2 * mat_idx(lda as int, gi, gj) == didx + 1 || 2 * mat_idx(lda as int, gi, gj)
                    + 1 == didx + 1 {
                    lemma_idx_unique(lda as int, gi, gj, j as int, j as int);
                }
                assert(!in_col(lda as int, j as int, lo, hi, 2 * mat_idx(lda as int, gi, gj))) by {
                    if in_col(lda as int, j as int, lo, hi, 2 * mat_idx(lda as int, gi, gj)) {
                        let wi = choose|wi: int|
                            lo <= wi < hi && (2 * mat_idx(lda as int, gi, gj) == 2
                                * #[trigger] mat_idx(lda as int, wi, j as int) || 2 * mat_idx(
                                lda as int,
                                gi,
                                gj,
                            ) == 2 * mat_idx(lda as int, wi, j as int) + 1);
                        lemma_idx_unique(lda as int, gi, gj, wi, j as int);
                    }
                }
                assert(!in_col(lda as int, j as int, lo, hi, 2 * mat_idx(lda as int, gi, gj) + 1))
                    by {
                    if in_col(lda as int, j as int, lo, hi, 2 * mat_idx(lda as int, gi, gj) + 1) {
                        let wi = choose|wi: int|
                            lo <= wi < hi && (2 * mat_idx(lda as int, gi, gj) + 1 == 2
                                * #[trigger] mat_idx(lda as int, wi, j as int) || 2 * mat_idx(
                                lda as int,
                                gi,
                                gj,
                            ) + 1 == 2 * mat_idx(lda as int, wi, j as int) + 1);
                        lemma_idx_unique(lda as int, gi, gj, wi, j as int);
                    }
                }
            }
            assert forall|q: int|
                0 <= q < old(matrix).len() && !her2_touched(uplo, n as int, lda as int, q) implies
                matrix@[q] == old(matrix)@[q] by {
                if in_col(lda as int, j as int, lo, hi, q) {
                    let wi = choose|wi: int|
                        lo <= wi < hi && (q == 2 * #[trigger] mat_idx(lda as int, wi, j as int) || q
                            == 2 * mat_idx(lda as int, wi, j as int) + 1);
                    assert(in_tri(uplo, n as int, wi, j as int));
                    assert(her2_touched(uplo, n as int, lda as int, q));
                }
            }
        }
        j = j + 1;
    }
}

} // verus!
