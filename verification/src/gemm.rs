//! Level-3 blocked matrix-multiply engine over exact `i64` scalars.
//!
//! The engine computes `C := alpha*(A*B) + beta*C` on column-major flat
//! buffers.  It walks K, then N, then M in cache-sized chunks (`KC`, `NC`,
//! `MC`), packs the current A- and B-panels once per block into
//! register-tile-major scratch buffers, and updates every `MR x NR` tile of
//! the block with a rank-1-update microkernel; tiles cut short by the matrix
//! edge go through the edge kernel, which performs the same accumulation on
//! the partial extents.  Beta is applied exactly once per output element:
//! with the caller's beta on the first K-chunk and as a pure accumulate on
//! the later ones.
//!
//! All index ranges are validated once in each entry point's precondition;
//! the inner loops then run on pre-validated extents, as the reference
//! calling convention prescribes.

use vstd::prelude::*;
use crate::sums::{mat_idx, pterm, psum, lemma_psum_split, lemma_psum_eq, lemma_psum_bound,
    lemma_mul_bound, lemma_mul_le, lemma_mul_dist, lemma_idx_unique};
use vstd::pervasive::VecAdditionalExecFns;

verus! {

/// Register-tile row extent of the microkernel.
pub const MR: usize = 6;

/// Register-tile column extent of the microkernel.
pub const NR: usize = 8;

/// Cache-tier depth blocking extent.
pub const KC: usize = 4;

/// Cache-tier row blocking extent.
pub const MC: usize = 12;

/// Cache-tier column blocking extent.
pub const NC: usize = 16;

/// Magnitude bound on the numeric inputs (matrix elements and scalars),
/// chosen so that every intermediate product sum fits an `i64`.
pub const MAX_ELEM: i64 = 1024;

/// Bound on the shared depth dimension, chosen with `MAX_ELEM` so that a
/// full scaled dot product fits an `i64`.
pub const MAX_K: usize = 1048576;

/// Magnitude bound on any partially accumulated output element:
/// `|beta*c| + |alpha| * k * |a| * |b|` at the input bounds.
pub const MAX_PARTIAL: i64 = MAX_ELEM * MAX_ELEM + MAX_ELEM * 1048576 * MAX_ELEM * MAX_ELEM;

/// Position of element (i, p) of strip r in a packed panel whose strips
/// hold `w`-wide slabs, one slab per depth step, `kce` steps per strip.
pub open spec fn strip_idx(w: int, kce: int, r: int, p: int, i: int) -> int {
    r * (w * kce) + mat_idx(w, i, p)
}

/// The dot product of row `i` of A with column `j` of B over the leading
/// `kk` depth steps.
pub open spec fn dotk(a: Seq<i64>, lda: int, b: Seq<i64>, ldb: int, i: int, j: int, kk: int) -> int {
    psum(a, i, lda, b, j * ldb, 1, kk)
}

/// The epilogue value: `beta*old + alpha*acc`, except that for `beta == 0`
/// the old content is not consulted at all.
pub open spec fn epi_val(beta: int, oldv: int, alpha: int, acc: int) -> int {
    if beta == 0 {
        alpha * acc
    } else {
        beta * oldv + alpha * acc
    }
}

/// The contracted result for output element (i, j) after a depth sweep of
/// `kk` steps.
pub open spec fn gemm_post_val(
    c0: Seq<i64>, ldc: int, alpha: int, beta: int,
    a: Seq<i64>, lda: int, b: Seq<i64>, ldb: int,
    i: int, j: int, kk: int,
) -> int {
    epi_val(beta, c0[mat_idx(ldc, i, j)] as int, alpha, dotk(a, lda, b, ldb, i, j, kk))
}

/// The value of output element (i, j) while the K sweep has covered the
/// first `kk` depth steps: untouched at `kk == 0`, otherwise the partial
/// contracted result.
spec fn stage_val(
    c0: Seq<i64>, ldc: int, alpha: int, beta: int,
    a: Seq<i64>, lda: int, b: Seq<i64>, ldb: int,
    i: int, j: int, kk: int,
) -> int {
    if kk == 0 {
        c0[mat_idx(ldc, i, j)] as int
    } else {
        gemm_post_val(c0, ldc, alpha, beta, a, lda, b, ldb, i, j, kk)
    }
}

/// Whether flat position `t` lies inside the column-major rectangle of
/// rows [i0, i0+h) and columns [j0, j0+w).
pub open spec fn in_rect(ld: int, i0: int, h: int, j0: int, w: int, t: int) -> bool {
    exists|i: int, j: int|
        i0 <= i < i0 + h && j0 <= j < j0 + w && t == #[trigger] mat_idx(ld, i, j)
}

/// The accumulator value an `MR x NR` tile kernel produces for tile
/// coordinate (ti, tj) from two packed strips of depth `kc`.
pub open spec fn tile_acc(pa: Seq<i64>, pa_off: int, pb: Seq<i64>, pb_off: int, ti: int, tj: int, kc: int) -> int {
    psum(pa, pa_off + ti, MR as int, pb, pb_off + tj, NR as int, kc)
}

/// Reading element (gi, p) of a packed A-block back through the strip
/// traversal order: strip gi/MR, slab p, lane gi%MR.
pub open spec fn unpacked_a(buf: Seq<i64>, kce: int, gi: int, p: int) -> int {
    buf[strip_idx(MR as int, kce, gi / (MR as int), p, gi % (MR as int))] as int
}

/// Reading element (p, gj) of a packed B-block back through the strip
/// traversal order: strip gj/NR, slab p, lane gj%NR.
pub open spec fn unpacked_b(buf: Seq<i64>, kce: int, gj: int, p: int) -> int {
    buf[strip_idx(NR as int, kce, gj / (NR as int), p, gj % (NR as int))] as int
}

/// Packing round trip for the A operand: a buffer laid out as `pack_a`
/// lays it out, read back through the same traversal order, reproduces
/// every element of the source block exactly.
pub proof fn lemma_pack_a_roundtrip(
    buf: Seq<i64>, a: Seq<i64>, lda: int, ic: int, mce: int, kk: int, kce: int,
)
    requires
        forall|r: int, i: int, p: int|
            0 <= r && r * (MR as int) < mce && 0 <= i < MR && 0 <= p < kce ==> buf[
                #[trigger] strip_idx(MR as int, kce, r, p, i)
            ] as int == (if r * (MR as int) + i < mce {
                a[mat_idx(lda, ic + r * (MR as int) + i, kk + p)] as int
            } else {
                0
            }),
    ensures
        forall|gi: int, p: int|
            0 <= gi < mce && 0 <= p < kce ==> #[trigger] unpacked_a(buf, kce, gi, p) == a[mat_idx(
                lda,
                ic + gi,
                kk + p,
            )] as int,
{
    assert forall|gi: int, p: int|
        0 <= gi < mce && 0 <= p < kce implies #[trigger] unpacked_a(buf, kce, gi, p) == a[mat_idx(
        lda,
        ic + gi,
        kk + p,
    )] as int by {
        let r = gi / (MR as int);
        let i = gi % (MR as int);
        assert(gi == r * 6 + i && 0 <= i < 6 && 0 <= r) by (nonlinear_arith)
            requires gi >= 0, r == gi / 6, i == gi % 6, MR == 6usize;
        assert(buf[strip_idx(MR as int, kce, r, p, i)] as int == a[mat_idx(
            lda,
            ic + r * (MR as int) + i,
            kk + p,
        )] as int);
    }
}

/// Packing round trip for the B operand: a buffer laid out as `pack_b`
/// lays it out, read back through the same traversal order, reproduces
/// every element of the source block exactly.
pub proof fn lemma_pack_b_roundtrip(
    buf: Seq<i64>, b: Seq<i64>, ldb: int, jc: int, nce: int, kk: int, kce: int,
)
    requires
        forall|s: int, j: int, p: int|
            0 <= s && s * (NR as int) < nce && 0 <= j < NR && 0 <= p < kce ==> buf[
                #[trigger] strip_idx(NR as int, kce, s, p, j)
            ] as int == (if s * (NR as int) + j < nce {
                b[mat_idx(ldb, kk + p, jc + s * (NR as int) + j)] as int
            } else {
                0
            }),
    ensures
        forall|gj: int, p: int|
            0 <= gj < nce && 0 <= p < kce ==> #[trigger] unpacked_b(buf, kce, gj, p) == b[mat_idx(
                ldb,
                kk + p,
                jc + gj,
            )] as int,
{
    assert forall|gj: int, p: int|
        0 <= gj < nce && 0 <= p < kce implies #[trigger] unpacked_b(buf, kce, gj, p) == b[mat_idx(
        ldb,
        kk + p,
        jc + gj,
    )] as int by {
        let s = gj / (NR as int);
        let j = gj % (NR as int);
        assert(gj == s * 8 + j && 0 <= j < 8 && 0 <= s) by (nonlinear_arith)
            requires gj >= 0, s == gj / 8, j == gj % 8, NR == 8usize;
        assert(buf[strip_idx(NR as int, kce, s, p, j)] as int == b[mat_idx(
            ldb,
            kk + p,
            jc + s * (NR as int) + j,
        )] as int);
    }
}

/// Packs one `MR`-row strip of the A-block into a fresh scratch panel:
/// element (i, p) of the strip is source element (ic + r*MR + i, kk + p),
/// laid out slab-major, with rows past the block extent zero-filled.
fn pack_a_panel(a: &Vec<i64>, lda: usize, ic: usize, mce: usize, r: usize, kk: usize, kce: usize) -> (panel: Vec<i64>)
    requires
        1 <= kce,
        kce <= KC,
        mce <= MC,
        kk + kce <= MAX_K,
        r * MR < mce,
        ic + mce <= lda,
        (ic + mce) + (kk + kce - 1) * lda <= a.len(),
        forall|gi: int, p: int|
            ic <= gi < ic + mce && kk <= p < kk + kce ==> -MAX_ELEM <= a@[#[trigger] mat_idx(
                lda as int,
                gi,
                p,
            )] <= MAX_ELEM,
    ensures
        panel.len() == MR * kce,
        forall|i: int, p: int|
            0 <= i < MR && 0 <= p < kce ==> panel@[#[trigger] mat_idx(MR as int, i, p)] as int == (
            if r * (MR as int) + i < mce {
                a@[mat_idx(lda as int, ic + r * (MR as int) + i, kk + p)] as int
            } else {
                0
            }),
        forall|t: int| 0 <= t < panel.len() ==> -MAX_ELEM <= #[trigger] panel@[t] <= MAX_ELEM,
{
    let mut panel: Vec<i64> = Vec::new();
    let mut p: usize = 0;
    while p < kce
        invariant
            1 <= kce,
            kce <= KC,
            mce <= MC,
            kk + kce <= MAX_K,
            r * MR < mce,
            ic + mce <= lda,
            (ic + mce) + (kk + kce - 1) * lda <= a.len(),
            forall|gi: int, q: int|
                ic <= gi < ic + mce && kk <= q < kk + kce ==> -MAX_ELEM <= a@[#[trigger] mat_idx(
                    lda as int,
                    gi,
                    q,
                )] <= MAX_ELEM,
            p <= kce,
            panel.len() == MR * p,
            forall|i: int, q: int|
                0 <= i < MR && 0 <= q < p ==> panel@[#[trigger] mat_idx(MR as int, i, q)] as int
                    == (if r * (MR as int) + i < mce {
                    a@[mat_idx(lda as int, ic + r * (MR as int) + i, kk + q)] as int
                } else {
                    0
                }),
            forall|t: int| 0 <= t < panel.len() ==> -MAX_ELEM <= #[trigger] panel@[t] <= MAX_ELEM,
        decreases kce - p,
    {
        let mut i: usize = 0;
        while i < MR
            invariant
                1 <= kce,
                kce <= KC,
                mce <= MC,
                kk + kce <= MAX_K,
                r * MR < mce,
                ic + mce <= lda,
                (ic + mce) + (kk + kce - 1) * lda <= a.len(),
                forall|gi: int, q: int|
                    ic <= gi < ic + mce && kk <= q < kk + kce ==> -MAX_ELEM <= a@[
                        #[trigger] mat_idx(lda as int, gi, q)
                    ] <= MAX_ELEM,
                p < kce,
                i <= MR,
                panel.len() == MR * p + i,
                forall|i2: int, q: int|
                    0 <= i2 < MR && 0 <= q < p ==> panel@[#[trigger] mat_idx(MR as int, i2, q)] as int
                        == (if r * (MR as int) + i2 < mce {
                        a@[mat_idx(lda as int, ic + r * (MR as int) + i2, kk + q)] as int
                    } else {
                        0
                    }),
                forall|i2: int|
                    0 <= i2 < i ==> panel@[#[trigger] mat_idx(MR as int, i2, p as int)] as int == (
                    if r * (MR as int) + i2 < mce {
                        a@[mat_idx(lda as int, ic + r * (MR as int) + i2, kk + p)] as int
                    } else {
                        0
                    }),
                forall|t: int| 0 <= t < panel.len() ==> -MAX_ELEM <= #[trigger] panel@[t] <= MAX_ELEM,
            decreases MR - i,
        {
            if r * MR + i < mce {
                let col = kk + p;
                proof {
                    lemma_mul_le(col as int, (kk + kce - 1) as int, lda as int);
                }
                let src = (ic + r * MR + i) + col * lda;
                proof {
                    assert(src as int == mat_idx(lda as int, ic + r * (MR as int) + i, kk + p));
                    assert(-MAX_ELEM <= a@[mat_idx(lda as int, ic + r * (MR as int) + i, kk + p)] <= MAX_ELEM);
                }
                panel.push(a[src]);
            } else {
                panel.push(0i64);
            }
            i = i + 1;
        }
        p = p + 1;
    }
    panel
}

/// Packs the A-block of rows [ic, ic+mce) and depth steps [kk, kk+kce) into
/// a sequence of `MR`-row strips, each strip slab-major, short edges
/// zero-filled.  The strips are laid end to end: strip r starts at
/// `r * MR * kce`.
pub fn pack_a(a: &Vec<i64>, lda: usize, ic: usize, mce: usize, kk: usize, kce: usize) -> (buf: Vec<i64>)
    requires
        1 <= kce,
        1 <= mce,
        mce <= MC,
        kce <= KC,
        kk + kce <= MAX_K,
        ic + mce <= lda,
        (ic + mce) + (kk + kce - 1) * lda <= a.len(),
        forall|gi: int, p: int|
            ic <= gi < ic + mce && kk <= p < kk + kce ==> -MAX_ELEM <= a@[#[trigger] mat_idx(
                lda as int,
                gi,
                p,
            )] <= MAX_ELEM,
    ensures
        buf.len() == (((mce + MR - 1) as int) / (MR as int)) * (MR * kce),
        mce <= (((mce + MR - 1) as int) / (MR as int)) * (MR as int),
        forall|r: int, i: int, p: int|
            0 <= r && r * (MR as int) < mce && 0 <= i < MR && 0 <= p < kce ==> buf@[
                #[trigger] strip_idx(MR as int, kce as int, r, p, i)
            ] as int == (if r * (MR as int) + i < mce {
                a@[mat_idx(lda as int, ic + r * (MR as int) + i, kk + p)] as int
            } else {
                0
            }),
        forall|t: int| 0 <= t < buf.len() ==> -MAX_ELEM <= #[trigger] buf@[t] <= MAX_ELEM,
{
    let mut buf: Vec<i64> = Vec::new();
    let mut r: usize = 0;
    while r * MR < mce
        invariant
            1 <= kce,
            1 <= mce,
            mce <= MC,
            kce <= KC,
            kk + kce <= MAX_K,
            ic + mce <= lda,
            (ic + mce) + (kk + kce - 1) * lda <= a.len(),
            forall|gi: int, p: int|
                ic <= gi < ic + mce && kk <= p < kk + kce ==> -MAX_ELEM <= a@[#[trigger] mat_idx(
                    lda as int,
                    gi,
                    p,
                )] <= MAX_ELEM,
            r * MR < mce + MR,
            buf.len() == r * (MR * kce),
            forall|r2: int, i: int, p: int|
                0 <= r2 < r && 0 <= i < MR && 0 <= p < kce ==> buf@[
                    #[trigger] strip_idx(MR as int, kce as int, r2, p, i)
                ] as int == (if r2 * (MR as int) + i < mce {
                    a@[mat_idx(lda as int, ic + r2 * (MR as int) + i, kk + p)] as int
                } else {
                    0
                }),
            forall|t: int| 0 <= t < buf.len() ==> -MAX_ELEM <= #[trigger] buf@[t] <= MAX_ELEM,
        decreases mce + MR - r * MR,
    {
        let mut panel = pack_a_panel(a, lda, ic, mce, r, kk, kce);
        let ghost len0 = buf.len() as int;
        buf.append(&mut panel);
        proof {
            assert(len0 + (MR * kce) as int == (r + 1) * (MR * kce)) by (nonlinear_arith)
                requires len0 == r * ((MR * kce) as int), MR * kce == (MR * kce) as int;
            assert forall|r2: int, i: int, p: int|
                0 <= r2 < r + 1 && 0 <= i < MR && 0 <= p < kce implies buf@[
                    #[trigger] strip_idx(MR as int, kce as int, r2, p, i)
                ] as int == (if r2 * (MR as int) + i < mce {
                    a@[mat_idx(lda as int, ic + r2 * (MR as int) + i, kk + p)] as int
                } else {
                    0
                }) by {
                if r2 < r {
                    assert(strip_idx(MR as int, kce as int, r2, p, i) < len0) by (nonlinear_arith)
                        requires
                            0 <= r2 < r,
                            0 <= i < 6,
                            0 <= p < kce,
                            len0 == r * ((6 * kce) as int),
                            strip_idx(6, kce as int, r2, p, i) == r2 * (6 * kce) + i + p * 6,
                            kce >= 1;
                    assert(0 <= strip_idx(MR as int, kce as int, r2, p, i)) by (nonlinear_arith)
                        requires 0 <= r2, 0 <= i, 0 <= p, kce >= 1,
                            strip_idx(6, kce as int, r2, p, i) == r2 * (6 * kce) + i + p * 6;
                } else {
                    assert(strip_idx(MR as int, kce as int, r2, p, i) == len0 + mat_idx(MR as int, i, p))
                        by (nonlinear_arith)
                        requires
                            r2 == r,
                            len0 == r * ((6 * kce) as int),
                            strip_idx(6, kce as int, r2, p, i) == r2 * (6 * kce) + i + p * 6,
                            mat_idx(6, i, p) == i + p * 6;
                }
            }
        }
        r = r + 1;
    }
    proof {
        assert(r >= 1);
        assert(((mce + MR - 1) as int) / (MR as int) == r as int) by (nonlinear_arith)
            requires
                r * 6 >= mce,
                (r - 1) * 6 < mce,
                1 <= mce,
                MR == 6usize,
                r >= 1;
        assert(mce <= r * (MR as int));
    }
    buf
}

/// Packs one `NR`-column strip of the B-block into a fresh scratch panel:
/// element (j, p) of the strip is source element (kk + p, jc + s*NR + j),
/// laid out slab-major, with columns past the block extent zero-filled.
fn pack_b_panel(b: &Vec<i64>, ldb: usize, jc: usize, nce: usize, s: usize, kk: usize, kce: usize) -> (panel: Vec<i64>)
    requires
        1 <= kce,
        kce <= KC,
        nce <= NC,
        kk + kce <= MAX_K,
        s * NR < nce,
        jc + nce <= b.len(),
        (kk + kce) + (jc + nce - 1) * ldb <= b.len(),
        forall|p: int, gj: int|
            kk <= p < kk + kce && jc <= gj < jc + nce ==> -MAX_ELEM <= b@[#[trigger] mat_idx(
                ldb as int,
                p,
                gj,
            )] <= MAX_ELEM,
    ensures
        panel.len() == NR * kce,
        forall|j: int, p: int|
            0 <= j < NR && 0 <= p < kce ==> panel@[#[trigger] mat_idx(NR as int, j, p)] as int == (
            if s * (NR as int) + j < nce {
                b@[mat_idx(ldb as int, kk + p, jc + s * (NR as int) + j)] as int
            } else {
                0
            }),
        forall|t: int| 0 <= t < panel.len() ==> -MAX_ELEM <= #[trigger] panel@[t] <= MAX_ELEM,
{
    let mut panel: Vec<i64> = Vec::new();
    let mut p: usize = 0;
    while p < kce
        invariant
            1 <= kce,
            kce <= KC,
            nce <= NC,
            kk + kce <= MAX_K,
            s * NR < nce,
            jc + nce <= b.len(),
            (kk + kce) + (jc + nce - 1) * ldb <= b.len(),
            forall|q: int, gj: int|
                kk <= q < kk + kce && jc <= gj < jc + nce ==> -MAX_ELEM <= b@[#[trigger] mat_idx(
                    ldb as int,
                    q,
                    gj,
                )] <= MAX_ELEM,
            p <= kce,
            panel.len() == NR * p,
            forall|j: int, q: int|
                0 <= j < NR && 0 <= q < p ==> panel@[#[trigger] mat_idx(NR as int, j, q)] as int
                    == (if s * (NR as int) + j < nce {
                    b@[mat_idx(ldb as int, kk + q, jc + s * (NR as int) + j)] as int
                } else {
                    0
                }),
            forall|t: int| 0 <= t < panel.len() ==> -MAX_ELEM <= #[trigger] panel@[t] <= MAX_ELEM,
        decreases kce - p,
    {
        let mut j: usize = 0;
        while j < NR
            invariant
                1 <= kce,
                kce <= KC,
                nce <= NC,
                kk + kce <= MAX_K,
                s * NR < nce,
                jc + nce <= b.len(),
                (kk + kce) + (jc + nce - 1) * ldb <= b.len(),
                forall|q: int, gj: int|
                    kk <= q < kk + kce && jc <= gj < jc + nce ==> -MAX_ELEM <= b@[
                        #[trigger] mat_idx(ldb as int, q, gj)
                    ] <= MAX_ELEM,
                p < kce,
                j <= NR,
                panel.len() == NR * p + j,
                forall|j2: int, q: int|
                    0 <= j2 < NR && 0 <= q < p ==> panel@[#[trigger] mat_idx(NR as int, j2, q)] as int
                        == (if s * (NR as int) + j2 < nce {
                        b@[mat_idx(ldb as int, kk + q, jc + s * (NR as int) + j2)] as int
                    } else {
                        0
                    }),
                forall|j2: int|
                    0 <= j2 < j ==> panel@[#[trigger] mat_idx(NR as int, j2, p as int)] as int == (
                    if s * (NR as int) + j2 < nce {
                        b@[mat_idx(ldb as int, kk + p, jc + s * (NR as int) + j2)] as int
                    } else {
                        0
                    }),
                forall|t: int| 0 <= t < panel.len() ==> -MAX_ELEM <= #[trigger] panel@[t] <= MAX_ELEM,
            decreases NR - j,
        {
            if s * NR + j < nce {
                let gj = jc + s * NR + j;
                proof {
                    lemma_mul_le(gj as int, (jc + nce - 1) as int, ldb as int);
                }
                let src = (kk + p) + gj * ldb;
                proof {
                    assert(src as int == mat_idx(ldb as int, kk + p, jc + s * (NR as int) + j));
                    assert(-MAX_ELEM <= b@[mat_idx(ldb as int, kk + p, jc + s * (NR as int) + j)] <= MAX_ELEM);
                }
                panel.push(b[src]);
            } else {
                panel.push(0i64);
            }
            j = j + 1;
        }
        p = p + 1;
    }
    panel
}

/// Packs the B-block of depth steps [kk, kk+kce) and columns [jc, jc+nce)
/// into a sequence of `NR`-column strips, each strip slab-major, short
/// edges zero-filled.  Strip s starts at `s * NR * kce`.
pub fn pack_b(b: &Vec<i64>, ldb: usize, jc: usize, nce: usize, kk: usize, kce: usize) -> (buf: Vec<i64>)
    requires
        1 <= kce,
        1 <= nce,
        nce <= NC,
        kce <= KC,
        kk + kce <= MAX_K,
        jc + nce <= b.len(),
        (kk + kce) + (jc + nce - 1) * ldb <= b.len(),
        forall|p: int, gj: int|
            kk <= p < kk + kce && jc <= gj < jc + nce ==> -MAX_ELEM <= b@[#[trigger] mat_idx(
                ldb as int,
                p,
                gj,
            )] <= MAX_ELEM,
    ensures
        buf.len() == (((nce + NR - 1) as int) / (NR as int)) * (NR * kce),
        nce <= (((nce + NR - 1) as int) / (NR as int)) * (NR as int),
        forall|s: int, j: int, p: int|
            0 <= s && s * (NR as int) < nce && 0 <= j < NR && 0 <= p < kce ==> buf@[
                #[trigger] strip_idx(NR as int, kce as int, s, p, j)
            ] as int == (if s * (NR as int) + j < nce {
                b@[mat_idx(ldb as int, kk + p, jc + s * (NR as int) + j)] as int
            } else {
                0
            }),
        forall|t: int| 0 <= t < buf.len() ==> -MAX_ELEM <= #[trigger] buf@[t] <= MAX_ELEM,
{
    let mut buf: Vec<i64> = Vec::new();
    let mut s: usize = 0;
    while s * NR < nce
        invariant
            1 <= kce,
            1 <= nce,
            nce <= NC,
            kce <= KC,
            kk + kce <= MAX_K,
            jc + nce <= b.len(),
            (kk + kce) + (jc + nce - 1) * ldb <= b.len(),
            forall|p: int, gj: int|
                kk <= p < kk + kce && jc <= gj < jc + nce ==> -MAX_ELEM <= b@[#[trigger] mat_idx(
                    ldb as int,
                    p,
                    gj,
                )] <= MAX_ELEM,
            s * NR < nce + NR,
            buf.len() == s * (NR * kce),
            forall|s2: int, j: int, p: int|
                0 <= s2 < s && 0 <= j < NR && 0 <= p < kce ==> buf@[
                    #[trigger] strip_idx(NR as int, kce as int, s2, p, j)
                ] as int == (if s2 * (NR as int) + j < nce {
                    b@[mat_idx(ldb as int, kk + p, jc + s2 * (NR as int) + j)] as int
                } else {
                    0
                }),
            forall|t: int| 0 <= t < buf.len() ==> -MAX_ELEM <= #[trigger] buf@[t] <= MAX_ELEM,
        decreases nce + NR - s * NR,
    {
        let mut panel = pack_b_panel(b, ldb, jc, nce, s, kk, kce);
        let ghost len0 = buf.len() as int;
        buf.append(&mut panel);
        proof {
            assert(len0 + (NR * kce) as int == (s + 1) * (NR * kce)) by (nonlinear_arith)
                requires len0 == s * ((NR * kce) as int), NR * kce == (NR * kce) as int;
            assert forall|s2: int, j: int, p: int|
                0 <= s2 < s + 1 && 0 <= j < NR && 0 <= p < kce implies buf@[
                    #[trigger] strip_idx(NR as int, kce as int, s2, p, j)
                ] as int == (if s2 * (NR as int) + j < nce {
                    b@[mat_idx(ldb as int, kk + p, jc + s2 * (NR as int) + j)] as int
                } else {
                    0
                }) by {
                if s2 < s {
                    assert(strip_idx(NR as int, kce as int, s2, p, j) < len0) by (nonlinear_arith)
                        requires
                            0 <= s2 < s,
                            0 <= j < 8,
                            0 <= p < kce,
                            len0 == s * ((8 * kce) as int),
                            strip_idx(8, kce as int, s2, p, j) == s2 * (8 * kce) + j + p * 8,
                            kce >= 1;
                    assert(0 <= strip_idx(NR as int, kce as int, s2, p, j)) by (nonlinear_arith)
                        requires 0 <= s2, 0 <= j, 0 <= p, kce >= 1,
                            strip_idx(8, kce as int, s2, p, j) == s2 * (8 * kce) + j + p * 8;
                } else {
                    assert(strip_idx(NR as int, kce as int, s2, p, j) == len0 + mat_idx(NR as int, j, p))
                        by (nonlinear_arith)
                        requires
                            s2 == s,
                            len0 == s * ((8 * kce) as int),
                            strip_idx(8, kce as int, s2, p, j) == s2 * (8 * kce) + j + p * 8,
                            mat_idx(8, j, p) == j + p * 8;
                }
            }
        }
        s = s + 1;
    }
    proof {
        assert(s >= 1);
        assert(((nce + NR - 1) as int) / (NR as int) == s as int) by (nonlinear_arith)
            requires
                s * 8 >= nce,
                (s - 1) * 8 < nce,
                1 <= nce,
                NR == 8usize,
                s >= 1;
        assert(nce <= s * (NR as int));
    }
    buf
}

/// Edge-tile kernel: the fallback microkernel variant for tiles smaller
/// than `MR x NR`.  Accumulates `acc[ti][tj] = sum_p pa[ti,p]*pb[tj,p]`
/// depth-first (one rank-1 update of the whole tile per depth step), then
/// applies the epilogue `C := beta*C + alpha*acc` on rows [ci, ci+mr) and
/// columns [cj, cj+nr), never touching memory outside the tile.  For
/// `beta == 0` the destination is overwritten without being read.
#[verifier::loop_isolation(false)]
pub fn edge_kernel(
    mr: usize, nr: usize, kc: usize,
    pa: &Vec<i64>, pa_off: usize,
    pb: &Vec<i64>, pb_off: usize,
    c: &mut Vec<i64>, ci: usize, cj: usize, ldc: usize,
    alpha: i64, beta: i64,
)
    requires
        1 <= mr <= MR,
        1 <= nr <= NR,
        kc <= MAX_K,
        pa_off + kc * MR <= pa.len(),
        pb_off + kc * NR <= pb.len(),
        forall|t: int| pa_off <= t < pa_off + kc * MR ==> -MAX_ELEM <= #[trigger] pa@[t] <= MAX_ELEM,
        forall|t: int| pb_off <= t < pb_off + kc * NR ==> -MAX_ELEM <= #[trigger] pb@[t] <= MAX_ELEM,
        -MAX_ELEM <= alpha <= MAX_ELEM,
        -MAX_ELEM <= beta <= MAX_ELEM,
        ci + mr <= ldc,
        (ci + mr) + (cj + nr - 1) * ldc <= old(c).len(),
        beta != 0 ==> forall|gi: int, gj: int|
            ci <= gi < ci + mr && cj <= gj < cj + nr ==> -MAX_PARTIAL <= old(c)@[#[trigger] mat_idx(
                ldc as int,
                gi,
                gj,
            )] <= MAX_PARTIAL,
    ensures
        final(c).len() == old(c).len(),
        forall|gi: int, gj: int|
            ci <= gi < ci + mr && cj <= gj < cj + nr ==> final(c)@[#[trigger] mat_idx(
                ldc as int,
                gi,
                gj,
            )] as int == epi_val(
                beta as int,
                old(c)@[mat_idx(ldc as int, gi, gj)] as int,
                alpha as int,
                tile_acc(pa@, pa_off as int, pb@, pb_off as int, gi - ci, gj - cj, kc as int),
            ),
        forall|t: int|
            0 <= t < old(c).len() && !in_rect(ldc as int, ci as int, mr as int, cj as int, nr as int, t)
                ==> final(c)@[t] == old(c)@[t],
{
    let mut acc: Vec<i64> = Vec::new();
    let mut z: usize = 0;
    while z < MR * NR
        invariant
            acc.len() == z,
            z <= MR * NR,
            forall|t: int| 0 <= t < z ==> #[trigger] acc@[t] == 0i64,
        decreases MR * NR - z,
    {
        acc.push(0i64);
        z = z + 1;
    }
    let mut p: usize = 0;
    while p < kc
        invariant
            p <= kc,
            acc.len() == MR * NR,
            forall|ti: int, tj: int|
                0 <= ti < mr && 0 <= tj < nr ==> acc@[#[trigger] mat_idx(NR as int, tj, ti)] as int
                    == tile_acc(pa@, pa_off as int, pb@, pb_off as int, ti, tj, p as int)
                    && -((p as int) * ((MAX_ELEM * MAX_ELEM) as int)) <= acc@[mat_idx(NR as int, tj, ti)] as int
                    <= (p as int) * ((MAX_ELEM * MAX_ELEM) as int),
        decreases kc - p,
    {
        let mut r: usize = 0;
        while r < mr
            invariant
                p < kc,
                r <= mr,
                acc.len() == MR * NR,
                forall|ti: int, tj: int|
                    0 <= ti < r && 0 <= tj < nr ==> acc@[#[trigger] mat_idx(NR as int, tj, ti)] as int
                        == tile_acc(pa@, pa_off as int, pb@, pb_off as int, ti, tj, p + 1)
                        && -((p + 1) * ((MAX_ELEM * MAX_ELEM) as int)) <= acc@[mat_idx(NR as int, tj, ti)] as int
                        <= (p + 1) * ((MAX_ELEM * MAX_ELEM) as int),
                forall|ti: int, tj: int|
                    r <= ti < mr && 0 <= tj < nr ==> acc@[#[trigger] mat_idx(NR as int, tj, ti)] as int
                        == tile_acc(pa@, pa_off as int, pb@, pb_off as int, ti, tj, p as int)
                        && -((p as int) * ((MAX_ELEM * MAX_ELEM) as int)) <= acc@[mat_idx(NR as int, tj, ti)] as int
                        <= (p as int) * ((MAX_ELEM * MAX_ELEM) as int),
            decreases mr - r,
        {
            let av = pa[pa_off + p * MR + r];
            let mut cc: usize = 0;
            while cc < nr
                invariant
                    p < kc,
                    r < mr,
                    cc <= nr,
                    acc.len() == MR * NR,
                    av == pa@[pa_off + p * (MR as int) + r],
                    forall|ti: int, tj: int|
                        0 <= ti < r && 0 <= tj < nr ==> acc@[#[trigger] mat_idx(NR as int, tj, ti)] as int
                            == tile_acc(pa@, pa_off as int, pb@, pb_off as int, ti, tj, p + 1)
                            && -((p + 1) * ((MAX_ELEM * MAX_ELEM) as int)) <= acc@[mat_idx(NR as int, tj, ti)] as int
                            <= (p + 1) * ((MAX_ELEM * MAX_ELEM) as int),
                    forall|tj: int|
                        0 <= tj < cc ==> acc@[#[trigger] mat_idx(NR as int, tj, r as int)] as int
                            == tile_acc(pa@, pa_off as int, pb@, pb_off as int, r as int, tj, p + 1)
                            && -((p + 1) * ((MAX_ELEM * MAX_ELEM) as int)) <= acc@[mat_idx(NR as int, tj, r as int)] as int
                            <= (p + 1) * ((MAX_ELEM * MAX_ELEM) as int),
                    forall|tj: int|
                        cc <= tj < nr ==> acc@[#[trigger] mat_idx(NR as int, tj, r as int)] as int
                            == tile_acc(pa@, pa_off as int, pb@, pb_off as int, r as int, tj, p as int)
                            && -((p as int) * ((MAX_ELEM * MAX_ELEM) as int)) <= acc@[mat_idx(NR as int, tj, r as int)] as int
                            <= (p as int) * ((MAX_ELEM * MAX_ELEM) as int),
                    forall|ti: int, tj: int|
                        r < ti < mr && 0 <= tj < nr ==> acc@[#[trigger] mat_idx(NR as int, tj, ti)] as int
                            == tile_acc(pa@, pa_off as int, pb@, pb_off as int, ti, tj, p as int)
                            && -((p as int) * ((MAX_ELEM * MAX_ELEM) as int)) <= acc@[mat_idx(NR as int, tj, ti)] as int
                            <= (p as int) * ((MAX_ELEM * MAX_ELEM) as int),
                decreases nr - cc,
            {
                let bv = pb[pb_off + p * NR + cc];
                let ti = r * NR + cc;
                let oldv = acc[ti];
                proof {
                    assert(ti as int == mat_idx(NR as int, cc as int, r as int));
                    lemma_mul_le(p + 1, MAX_K as int, (MAX_ELEM * MAX_ELEM) as int);
                    lemma_mul_bound(av as int, bv as int, MAX_ELEM as int, MAX_ELEM as int);
                    assert(pterm(pa@, pa_off + r, MR as int, pb@, pb_off + cc, NR as int, p as int)
                        == (av as int) * (bv as int));
                    assert(tile_acc(pa@, pa_off as int, pb@, pb_off as int, r as int, cc as int, p + 1)
                        == tile_acc(pa@, pa_off as int, pb@, pb_off as int, r as int, cc as int, p as int)
                        + pterm(pa@, pa_off + r, MR as int, pb@, pb_off + cc, NR as int, p as int));
                }
                acc.set(ti, oldv + av * bv);
                cc = cc + 1;
            }
            r = r + 1;
        }
        p = p + 1;
    }
    // epilogue: write the tile back through the three beta paths
    let ghost accs = acc@;
    let mut cc: usize = 0;
    while cc < nr
        invariant
            cc <= nr,
            acc@ == accs,
            c.len() == old(c).len(),
            forall|ti: int, tj: int|
                0 <= ti < mr && 0 <= tj < nr ==> accs[#[trigger] mat_idx(NR as int, tj, ti)] as int
                    == tile_acc(pa@, pa_off as int, pb@, pb_off as int, ti, tj, kc as int)
                    && -((kc as int) * ((MAX_ELEM * MAX_ELEM) as int)) <= accs[mat_idx(NR as int, tj, ti)] as int
                    <= (kc as int) * ((MAX_ELEM * MAX_ELEM) as int),
            forall|gi: int, gj: int|
                ci <= gi < ci + mr && cj <= gj < cj + cc ==> c@[#[trigger] mat_idx(ldc as int, gi, gj)] as int
                    == epi_val(
                    beta as int,
                    old(c)@[mat_idx(ldc as int, gi, gj)] as int,
                    alpha as int,
                    tile_acc(pa@, pa_off as int, pb@, pb_off as int, gi - ci, gj - cj, kc as int),
                ),
            forall|gi: int, gj: int|
                ci <= gi < ci + mr && cj + cc <= gj < cj + nr ==> c@[#[trigger] mat_idx(ldc as int, gi, gj)]
                    == old(c)@[mat_idx(ldc as int, gi, gj)],
            forall|t: int|
                0 <= t < old(c).len() && !in_rect(ldc as int, ci as int, mr as int, cj as int, nr as int, t)
                    ==> c@[t] == old(c)@[t],
        decreases nr - cc,
    {
        proof {
            assert((cj + nr - 1) as int <= ((cj + nr - 1) as int) * (ldc as int)) by (nonlinear_arith)
                requires ldc >= 1, nr >= 1;
            lemma_mul_le((cj + cc) as int, (cj + nr - 1) as int, ldc as int);
            assert(((cj + cc) as int) * (ldc as int) + ci + mr <= old(c).len());
        }
        let colbase = (cj + cc) * ldc;
        let mut r: usize = 0;
        while r < mr
            invariant
                cc < nr,
                r <= mr,
                acc@ == accs,
                c.len() == old(c).len(),
                colbase == (cj + cc) * (ldc as int),
                colbase + ci + mr <= c.len(),
                forall|gi: int, gj: int|
                    ci <= gi < ci + mr && cj <= gj < cj + cc ==> c@[#[trigger] mat_idx(ldc as int, gi, gj)] as int
                        == epi_val(
                        beta as int,
                        old(c)@[mat_idx(ldc as int, gi, gj)] as int,
                        alpha as int,
                        tile_acc(pa@, pa_off as int, pb@, pb_off as int, gi - ci, gj - cj, kc as int),
                    ),
                forall|gi: int|
                    ci <= gi < ci + r ==> c@[#[trigger] mat_idx(ldc as int, gi, cj + cc)] as int
                        == epi_val(
                        beta as int,
                        old(c)@[mat_idx(ldc as int, gi, cj + cc)] as int,
                        alpha as int,
                        tile_acc(pa@, pa_off as int, pb@, pb_off as int, gi - ci, cc as int, kc as int),
                    ),
                forall|gi: int|
                    ci + r <= gi < ci + mr ==> c@[#[trigger] mat_idx(ldc as int, gi, cj + cc)]
                        == old(c)@[mat_idx(ldc as int, gi, cj + cc)],
                forall|gi: int, gj: int|
                    ci <= gi < ci + mr && cj + cc < gj < cj + nr ==> c@[#[trigger] mat_idx(ldc as int, gi, gj)]
                        == old(c)@[mat_idx(ldc as int, gi, gj)],
                forall|t: int|
                    0 <= t < old(c).len() && !in_rect(ldc as int, ci as int, mr as int, cj as int, nr as int, t)
                        ==> c@[t] == old(c)@[t],
            decreases mr - r,
        {
            let accv = acc[r * NR + cc];
            let idx = (ci + r) + colbase;
            let ghost cpre = c@;
            proof {
                assert(idx as int == mat_idx(ldc as int, (ci + r) as int, (cj + cc) as int));
                assert(accs[mat_idx(NR as int, cc as int, r as int)] as int
                    == tile_acc(pa@, pa_off as int, pb@, pb_off as int, r as int, cc as int, kc as int));
                lemma_mul_le(kc as int, MAX_K as int, (MAX_ELEM * MAX_ELEM) as int);
                lemma_mul_bound(alpha as int, accv as int, MAX_ELEM as int,
                    (MAX_K as int) * ((MAX_ELEM * MAX_ELEM) as int));
                assert((MAX_ELEM as int) * ((MAX_K as int) * ((MAX_ELEM * MAX_ELEM) as int))
                    <= MAX_PARTIAL) by (nonlinear_arith)
                    requires MAX_ELEM == 1024i64, MAX_K == 1048576usize,
                        MAX_PARTIAL == MAX_ELEM * MAX_ELEM + MAX_ELEM * 1048576 * MAX_ELEM * MAX_ELEM;
            }
            if beta == 0 {
                c.set(idx, alpha * accv);
            } else if beta == 1 {
                let prev = c[idx];
                c.set(idx, prev + alpha * accv);
            } else {
                let prev = c[idx];
                proof {
                    lemma_mul_bound(beta as int, prev as int, MAX_ELEM as int, MAX_PARTIAL as int);
                }
                c.set(idx, beta * prev + alpha * accv);
            }
            proof {
                assert(in_rect(ldc as int, ci as int, mr as int, cj as int, nr as int, idx as int));
                assert forall|gi: int, gj: int|
                    ci <= gi < ci + mr && cj <= gj < cj + nr && !(gi == ci + r && gj == cj + cc)
                        implies c@[#[trigger] mat_idx(ldc as int, gi, gj)] == cpre[mat_idx(ldc as int, gi, gj)] by {
                    lemma_mul_le(0, gj, ldc as int);
                    lemma_mul_le(gj, (cj + nr - 1) as int, ldc as int);
                    assert(0 <= mat_idx(ldc as int, gi, gj) < c.len());
                    if mat_idx(ldc as int, gi, gj) == idx as int {
                        lemma_idx_unique(ldc as int, gi, gj, (ci + r) as int, (cj + cc) as int);
                    }
                }
            }
            r = r + 1;
        }
        cc = cc + 1;
    }
}

/// Interior microkernel: consumes one packed A-strip and one packed
/// B-strip of shared depth `kc` and updates the full `MR x NR` output tile
/// at rows [ci, ci+MR) and columns [cj, cj+NR).  The accumulation is
/// depth-first: each depth step applies one rank-1 update to the whole
/// register-resident tile.  The epilogue then applies
/// `C := beta*C + alpha*acc` with the dedicated beta paths; for
/// `beta == 0` the destination is overwritten without being read.
#[verifier::loop_isolation(false)]
pub fn microkernel(
    kc: usize,
    pa: &Vec<i64>, pa_off: usize,
    pb: &Vec<i64>, pb_off: usize,
    c: &mut Vec<i64>, ci: usize, cj: usize, ldc: usize,
    alpha: i64, beta: i64,
)
    requires
        kc <= MAX_K,
        pa_off + kc * MR <= pa.len(),
        pb_off + kc * NR <= pb.len(),
        forall|t: int| pa_off <= t < pa_off + kc * MR ==> -MAX_ELEM <= #[trigger] pa@[t] <= MAX_ELEM,
        forall|t: int| pb_off <= t < pb_off + kc * NR ==> -MAX_ELEM <= #[trigger] pb@[t] <= MAX_ELEM,
        -MAX_ELEM <= alpha <= MAX_ELEM,
        -MAX_ELEM <= beta <= MAX_ELEM,
        ci + MR <= ldc,
        (ci + MR) + (cj + NR - 1) * ldc <= old(c).len(),
        beta != 0 ==> forall|gi: int, gj: int|
            ci <= gi < ci + MR && cj <= gj < cj + NR ==> -MAX_PARTIAL <= old(c)@[#[trigger] mat_idx(
                ldc as int,
                gi,
                gj,
            )] <= MAX_PARTIAL,
    ensures
        final(c).len() == old(c).len(),
        forall|gi: int, gj: int|
            ci <= gi < ci + MR && cj <= gj < cj + NR ==> final(c)@[#[trigger] mat_idx(
                ldc as int,
                gi,
                gj,
            )] as int == epi_val(
                beta as int,
                old(c)@[mat_idx(ldc as int, gi, gj)] as int,
                alpha as int,
                tile_acc(pa@, pa_off as int, pb@, pb_off as int, gi - ci, gj - cj, kc as int),
            ),
        forall|t: int|
            0 <= t < old(c).len() && !in_rect(ldc as int, ci as int, MR as int, cj as int, NR as int, t)
                ==> final(c)@[t] == old(c)@[t],
{
    let mut acc: Vec<i64> = Vec::new();
    let mut z: usize = 0;
    while z < MR * NR
        invariant
            acc.len() == z,
            z <= MR * NR,
            forall|t: int| 0 <= t < z ==> #[trigger] acc@[t] == 0i64,
        decreases MR * NR - z,
    {
        acc.push(0i64);
        z = z + 1;
    }
    let mut p: usize = 0;
    while p < kc
        invariant
            p <= kc,
            acc.len() == MR * NR,
            forall|ti: int, tj: int|
                0 <= ti < MR && 0 <= tj < NR ==> acc@[#[trigger] mat_idx(NR as int, tj, ti)] as int
                    == tile_acc(pa@, pa_off as int, pb@, pb_off as int, ti, tj, p as int)
                    && -((p as int) * ((MAX_ELEM * MAX_ELEM) as int)) <= acc@[mat_idx(NR as int, tj, ti)] as int
                    <= (p as int) * ((MAX_ELEM * MAX_ELEM) as int),
        decreases kc - p,
    {
        let mut r: usize = 0;
        while r < MR
            invariant
                p < kc,
                r <= MR,
                acc.len() == MR * NR,
                forall|ti: int, tj: int|
                    0 <= ti < r && 0 <= tj < NR ==> acc@[#[trigger] mat_idx(NR as int, tj, ti)] as int
                        == tile_acc(pa@, pa_off as int, pb@, pb_off as int, ti, tj, p + 1)
                        && -((p + 1) * ((MAX_ELEM * MAX_ELEM) as int)) <= acc@[mat_idx(NR as int, tj, ti)] as int
                        <= (p + 1) * ((MAX_ELEM * MAX_ELEM) as int),
                forall|ti: int, tj: int|
                    r <= ti < MR && 0 <= tj < NR ==> acc@[#[trigger] mat_idx(NR as int, tj, ti)] as int
                        == tile_acc(pa@, pa_off as int, pb@, pb_off as int, ti, tj, p as int)
                        && -((p as int) * ((MAX_ELEM * MAX_ELEM) as int)) <= acc@[mat_idx(NR as int, tj, ti)] as int
                        <= (p as int) * ((MAX_ELEM * MAX_ELEM) as int),
            decreases MR - r,
        {
            let av = pa[pa_off + p * MR + r];
            let mut cc: usize = 0;
            while cc < NR
                invariant
                    p < kc,
                    r < MR,
                    cc <= NR,
                    acc.len() == MR * NR,
                    av == pa@[pa_off + p * (MR as int) + r],
                    forall|ti: int, tj: int|
                        0 <= ti < r && 0 <= tj < NR ==> acc@[#[trigger] mat_idx(NR as int, tj, ti)] as int
                            == tile_acc(pa@, pa_off as int, pb@, pb_off as int, ti, tj, p + 1)
                            && -((p + 1) * ((MAX_ELEM * MAX_ELEM) as int)) <= acc@[mat_idx(NR as int, tj, ti)] as int
                            <= (p + 1) * ((MAX_ELEM * MAX_ELEM) as int),
                    forall|tj: int|
                        0 <= tj < cc ==> acc@[#[trigger] mat_idx(NR as int, tj, r as int)] as int
                            == tile_acc(pa@, pa_off as int, pb@, pb_off as int, r as int, tj, p + 1)
                            && -((p + 1) * ((MAX_ELEM * MAX_ELEM) as int)) <= acc@[mat_idx(NR as int, tj, r as int)] as int
                            <= (p + 1) * ((MAX_ELEM * MAX_ELEM) as int),
                    forall|tj: int|
                        cc <= tj < NR ==> acc@[#[trigger] mat_idx(NR as int, tj, r as int)] as int
                            == tile_acc(pa@, pa_off as int, pb@, pb_off as int, r as int, tj, p as int)
                            && -((p as int) * ((MAX_ELEM * MAX_ELEM) as int)) <= acc@[mat_idx(NR as int, tj, r as int)] as int
                            <= (p as int) * ((MAX_ELEM * MAX_ELEM) as int),
                    forall|ti: int, tj: int|
                        r < ti < MR && 0 <= tj < NR ==> acc@[#[trigger] mat_idx(NR as int, tj, ti)] as int
                            == tile_acc(pa@, pa_off as int, pb@, pb_off as int, ti, tj, p as int)
                            && -((p as int) * ((MAX_ELEM * MAX_ELEM) as int)) <= acc@[mat_idx(NR as int, tj, ti)] as int
                            <= (p as int) * ((MAX_ELEM * MAX_ELEM) as int),
                decreases NR - cc,
            {
                let bv = pb[pb_off + p * NR + cc];
                let ti = r * NR + cc;
                let oldv = acc[ti];
                proof {
                    assert(ti as int == mat_idx(NR as int, cc as int, r as int));
                    lemma_mul_le(p + 1, MAX_K as int, (MAX_ELEM * MAX_ELEM) as int);
                    lemma_mul_bound(av as int, bv as int, MAX_ELEM as int, MAX_ELEM as int);
                    assert(pterm(pa@, pa_off + r, MR as int, pb@, pb_off + cc, NR as int, p as int)
                        == (av as int) * (bv as int));
                    assert(tile_acc(pa@, pa_off as int, pb@, pb_off as int, r as int, cc as int, p + 1)
                        == tile_acc(pa@, pa_off as int, pb@, pb_off as int, r as int, cc as int, p as int)
                        + pterm(pa@, pa_off + r, MR as int, pb@, pb_off + cc, NR as int, p as int));
                }
                acc.set(ti, oldv + av * bv);
                cc = cc + 1;
            }
            r = r + 1;
        }
        p = p + 1;
    }
    // epilogue: write the tile back through the three beta paths
    let ghost accs = acc@;
    let mut cc: usize = 0;
    while cc < NR
        invariant
            cc <= NR,
            acc@ == accs,
            c.len() == old(c).len(),
            forall|ti: int, tj: int|
                0 <= ti < MR && 0 <= tj < NR ==> accs[#[trigger] mat_idx(NR as int, tj, ti)] as int
                    == tile_acc(pa@, pa_off as int, pb@, pb_off as int, ti, tj, kc as int)
                    && -((kc as int) * ((MAX_ELEM * MAX_ELEM) as int)) <= accs[mat_idx(NR as int, tj, ti)] as int
                    <= (kc as int) * ((MAX_ELEM * MAX_ELEM) as int),
            forall|gi: int, gj: int|
                ci <= gi < ci + MR && cj <= gj < cj + cc ==> c@[#[trigger] mat_idx(ldc as int, gi, gj)] as int
                    == epi_val(
                    beta as int,
                    old(c)@[mat_idx(ldc as int, gi, gj)] as int,
                    alpha as int,
                    tile_acc(pa@, pa_off as int, pb@, pb_off as int, gi - ci, gj - cj, kc as int),
                ),
            forall|gi: int, gj: int|
                ci <= gi < ci + MR && cj + cc <= gj < cj + NR ==> c@[#[trigger] mat_idx(ldc as int, gi, gj)]
                    == old(c)@[mat_idx(ldc as int, gi, gj)],
            forall|t: int|
                0 <= t < old(c).len() && !in_rect(ldc as int, ci as int, MR as int, cj as int, NR as int, t)
                    ==> c@[t] == old(c)@[t],
        decreases NR - cc,
    {
        proof {
            assert((cj + NR - 1) as int <= ((cj + NR - 1) as int) * (ldc as int)) by (nonlinear_arith)
                requires ldc >= 1, NR >= 1;
            lemma_mul_le((cj + cc) as int, (cj + NR - 1) as int, ldc as int);
            assert(((cj + cc) as int) * (ldc as int) + ci + MR <= old(c).len());
        }
        let colbase = (cj + cc) * ldc;
        let mut r: usize = 0;
        while r < MR
            invariant
                cc < NR,
                r <= MR,
                acc@ == accs,
                c.len() == old(c).len(),
                colbase == (cj + cc) * (ldc as int),
                colbase + ci + MR <= c.len(),
                forall|gi: int, gj: int|
                    ci <= gi < ci + MR && cj <= gj < cj + cc ==> c@[#[trigger] mat_idx(ldc as int, gi, gj)] as int
                        == epi_val(
                        beta as int,
                        old(c)@[mat_idx(ldc as int, gi, gj)] as int,
                        alpha as int,
                        tile_acc(pa@, pa_off as int, pb@, pb_off as int, gi - ci, gj - cj, kc as int),
                    ),
                forall|gi: int|
                    ci <= gi < ci + r ==> c@[#[trigger] mat_idx(ldc as int, gi, cj + cc)] as int
                        == epi_val(
                        beta as int,
                        old(c)@[mat_idx(ldc as int, gi, cj + cc)] as int,
                        alpha as int,
                        tile_acc(pa@, pa_off as int, pb@, pb_off as int, gi - ci, cc as int, kc as int),
                    ),
                forall|gi: int|
                    ci + r <= gi < ci + MR ==> c@[#[trigger] mat_idx(ldc as int, gi, cj + cc)]
                        == old(c)@[mat_idx(ldc as int, gi, cj + cc)],
                forall|gi: int, gj: int|
                    ci <= gi < ci + MR && cj + cc < gj < cj + NR ==> c@[#[trigger] mat_idx(ldc as int, gi, gj)]
                        == old(c)@[mat_idx(ldc as int, gi, gj)],
                forall|t: int|
                    0 <= t < old(c).len() && !in_rect(ldc as int, ci as int, MR as int, cj as int, NR as int, t)
                        ==> c@[t] == old(c)@[t],
            decreases MR - r,
        {
            let accv = acc[r * NR + cc];
            let idx = (ci + r) + colbase;
            let ghost cpre = c@;
            proof {
                assert(idx as int == mat_idx(ldc as int, (ci + r) as int, (cj + cc) as int));
                assert(accs[mat_idx(NR as int, cc as int, r as int)] as int
                    == tile_acc(pa@, pa_off as int, pb@, pb_off as int, r as int, cc as int, kc as int));
                lemma_mul_le(kc as int, MAX_K as int, (MAX_ELEM * MAX_ELEM) as int);
                lemma_mul_bound(alpha as int, accv as int, MAX_ELEM as int,
                    (MAX_K as int) * ((MAX_ELEM * MAX_ELEM) as int));
                assert((MAX_ELEM as int) * ((MAX_K as int) * ((MAX_ELEM * MAX_ELEM) as int))
                    <= MAX_PARTIAL) by (nonlinear_arith)
                    requires MAX_ELEM == 1024i64, MAX_K == 1048576usize,
                        MAX_PARTIAL == MAX_ELEM * MAX_ELEM + MAX_ELEM * 1048576 * MAX_ELEM * MAX_ELEM;
            }
            if beta == 0 {
                c.set(idx, alpha * accv);
            } else if beta == 1 {
                let prev = c[idx];
                c.set(idx, prev + alpha * accv);
            } else {
                let prev = c[idx];
                proof {
                    lemma_mul_bound(beta as int, prev as int, MAX_ELEM as int, MAX_PARTIAL as int);
                }
                c.set(idx, beta * prev + alpha * accv);
            }
            proof {
                assert(in_rect(ldc as int, ci as int, MR as int, cj as int, NR as int, idx as int));
                assert forall|gi: int, gj: int|
                    ci <= gi < ci + MR && cj <= gj < cj + NR && !(gi == ci + r && gj == cj + cc)
                        implies c@[#[trigger] mat_idx(ldc as int, gi, gj)] == cpre[mat_idx(ldc as int, gi, gj)] by {
                    lemma_mul_le(0, gj, ldc as int);
                    lemma_mul_le(gj, (cj + NR - 1) as int, ldc as int);
                    assert(0 <= mat_idx(ldc as int, gi, gj) < c.len());
                    if mat_idx(ldc as int, gi, gj) == idx as int {
                        lemma_idx_unique(ldc as int, gi, gj, (ci + r) as int, (cj + cc) as int);
                    }
                }
            }
            r = r + 1;
        }
        cc = cc + 1;
    }
}

/// Any partially accumulated output element stays within `MAX_PARTIAL`
/// once at least one depth step has been folded in.
proof fn lemma_stage_bound(
    c0: Seq<i64>, ldc: int, alpha: int, beta: int,
    a: Seq<i64>, lda: int, b: Seq<i64>, ldb: int,
    i: int, j: int, kk: int, m: int, n: int, k: int,
)
    requires
        1 <= kk <= k,
        k <= MAX_K,
        0 <= i < m,
        0 <= j < n,
        forall|gi: int, p: int|
            0 <= gi < m && 0 <= p < k ==> -MAX_ELEM <= a[#[trigger] mat_idx(lda, gi, p)] <= MAX_ELEM,
        forall|p: int, gj: int|
            0 <= p < k && 0 <= gj < n ==> -MAX_ELEM <= b[#[trigger] mat_idx(ldb, p, gj)] <= MAX_ELEM,
        -MAX_ELEM <= alpha <= MAX_ELEM,
        -MAX_ELEM <= beta <= MAX_ELEM,
        beta != 0 ==> -MAX_ELEM <= c0[mat_idx(ldc, i, j)] <= MAX_ELEM,
    ensures
        -MAX_PARTIAL <= stage_val(c0, ldc, alpha, beta, a, lda, b, ldb, i, j, kk) <= MAX_PARTIAL,
{
    let me = MAX_ELEM as int;
    assert forall|t: int| 0 <= t < kk implies -(me * me) <= #[trigger] pterm(a, i, lda, b, j * ldb, 1, t)
        <= me * me by {
        assert(a[mat_idx(lda, i, t)] == a[i + t * lda]);
        assert(b[mat_idx(ldb, t, j)] == b[j * ldb + t * 1]);
        lemma_mul_bound(a[i + t * lda] as int, b[j * ldb + t * 1] as int, me, me);
    }
    lemma_psum_bound(a, i, lda, b, j * ldb, 1, kk, me * me);
    lemma_mul_le(kk, MAX_K as int, me * me);
    lemma_mul_bound(alpha, dotk(a, lda, b, ldb, i, j, kk), me, (MAX_K as int) * (me * me));
    assert(me * ((MAX_K as int) * (me * me)) + me * me <= MAX_PARTIAL) by (nonlinear_arith)
        requires
            me == 1024,
            MAX_K == 1048576usize,
            MAX_PARTIAL == MAX_ELEM * MAX_ELEM + MAX_ELEM * 1048576 * MAX_ELEM * MAX_ELEM,
            MAX_ELEM == 1024i64;
    if beta != 0 {
        lemma_mul_bound(beta, c0[mat_idx(ldc, i, j)] as int, me, me);
    }
}

/// Rescales the m x n output panel by beta alone: the degenerate sweep the
/// driver takes when the depth dimension is empty or alpha is zero.  For
/// `beta == 0` the panel is overwritten with zeros and never read.
#[verifier::loop_isolation(false)]
fn scale_by_beta(m: usize, n: usize, beta: i64, c: &mut Vec<i64>, ldc: usize)
    requires
        1 <= m,
        1 <= n,
        m <= ldc,
        m + (n - 1) * ldc <= old(c).len(),
        -MAX_ELEM <= beta <= MAX_ELEM,
        beta != 0 ==> forall|gi: int, gj: int|
            0 <= gi < m && 0 <= gj < n ==> -MAX_ELEM <= old(c)@[#[trigger] mat_idx(
                ldc as int,
                gi,
                gj,
            )] <= MAX_ELEM,
    ensures
        final(c).len() == old(c).len(),
        forall|gi: int, gj: int|
            0 <= gi < m && 0 <= gj < n ==> final(c)@[#[trigger] mat_idx(ldc as int, gi, gj)] as int
                == (if beta == 0 {
                0int
            } else {
                (beta as int) * (old(c)@[mat_idx(ldc as int, gi, gj)] as int)
            }),
        forall|t: int|
            0 <= t < old(c).len() && !in_rect(ldc as int, 0, m as int, 0, n as int, t)
                ==> final(c)@[t] == old(c)@[t],
{
    let mut j: usize = 0;
    while j < n
        invariant
            j <= n,
            c.len() == old(c).len(),
            forall|gi: int, gj: int|
                0 <= gi < m && 0 <= gj < j ==> c@[#[trigger] mat_idx(ldc as int, gi, gj)] as int
                    == (if beta == 0 {
                    0int
                } else {
                    (beta as int) * (old(c)@[mat_idx(ldc as int, gi, gj)] as int)
                }),
            forall|gi: int, gj: int|
                0 <= gi < m && j <= gj < n ==> c@[#[trigger] mat_idx(ldc as int, gi, gj)]
                    == old(c)@[mat_idx(ldc as int, gi, gj)],
            forall|t: int|
                0 <= t < old(c).len() && !in_rect(ldc as int, 0, m as int, 0, n as int, t) ==> c@[t]
                    == old(c)@[t],
        decreases n - j,
    {
        proof {
            lemma_mul_le(j as int, (n - 1) as int, ldc as int);
        }
        let colbase = j * ldc;
        let mut i: usize = 0;
        while i < m
            invariant
                j < n,
                i <= m,
                c.len() == old(c).len(),
                colbase == j * (ldc as int),
                colbase + m <= c.len(),
                forall|gi: int, gj: int|
                    0 <= gi < m && 0 <= gj < j ==> c@[#[trigger] mat_idx(ldc as int, gi, gj)] as int
                        == (if beta == 0 {
                        0int
                    } else {
                        (beta as int) * (old(c)@[mat_idx(ldc as int, gi, gj)] as int)
                    }),
                forall|gi: int|
                    0 <= gi < i ==> c@[#[trigger] mat_idx(ldc as int, gi, j as int)] as int == (
                    if beta == 0 {
                        0int
                    } else {
                        (beta as int) * (old(c)@[mat_idx(ldc as int, gi, j as int)] as int)
                    }),
                forall|gi: int|
                    i <= gi < m ==> c@[#[trigger] mat_idx(ldc as int, gi, j as int)] == old(c)@[
                        mat_idx(ldc as int, gi, j as int)
                    ],
                forall|gi: int, gj: int|
                    0 <= gi < m && j < gj < n ==> c@[#[trigger] mat_idx(ldc as int, gi, gj)]
                        == old(c)@[mat_idx(ldc as int, gi, gj)],
                forall|t: int|
                    0 <= t < old(c).len() && !in_rect(ldc as int, 0, m as int, 0, n as int, t)
                        ==> c@[t] == old(c)@[t],
            decreases m - i,
        {
            let idx = i + colbase;
            let ghost cpre = c@;
            proof {
                assert(idx as int == mat_idx(ldc as int, i as int, j as int));
            }
            if beta == 0 {
                c.set(idx, 0i64);
            } else {
                let prev = c[idx];
                proof {
                    lemma_mul_bound(beta as int, prev as int, MAX_ELEM as int, MAX_ELEM as int);
                }
                c.set(idx, beta * prev);
            }
            proof {
                assert(in_rect(ldc as int, 0, m as int, 0, n as int, idx as int));
                assert forall|gi: int, gj: int|
                    0 <= gi < m && 0 <= gj < n && !(gi == i && gj == j) implies c@[
                    #[trigger] mat_idx(ldc as int, gi, gj)
                ] == cpre[mat_idx(ldc as int, gi, gj)] by {
                    lemma_mul_le(0, gj, ldc as int);
                    lemma_mul_le(gj, (n - 1) as int, ldc as int);
                    assert(0 <= mat_idx(ldc as int, gi, gj) < c.len());
                    if mat_idx(ldc as int, gi, gj) == idx as int {
                        lemma_idx_unique(ldc as int, gi, gj, i as int, j as int);
                    }
                }
            }
            i = i + 1;
        }
        j = j + 1;
    }
}

/// After one kernel call on the tile that holds (gi, gj), the new value is
/// exactly the next stage: the packed-strip accumulator equals the matrix
/// dot product over the chunk's depth range, the chunk folds onto the
/// previous partial sum, and beta enters only through the first chunk.
proof fn lemma_tile_update(
    c0: Seq<i64>, ldc: int, alpha: int, beta: int,
    a: Seq<i64>, lda: int, b: Seq<i64>, ldb: int,
    pa: Seq<i64>, pa_off: int, pb: Seq<i64>, pb_off: int,
    ic: int, jc: int, ir: int, jr: int, mce: int, nce: int,
    kk: int, kce: int, gi: int, gj: int, cprev: int, cnew: int, beta_eff: int,
)
    requires
        0 <= kk,
        1 <= kce,
        0 <= ic,
        0 <= jc,
        0 <= ir,
        0 <= jr,
        ir * (MR as int) < mce,
        jr * (NR as int) < nce,
        ic + ir * (MR as int) <= gi,
        gi < ic + ir * (MR as int) + MR,
        gi < ic + mce,
        jc + jr * (NR as int) <= gj,
        gj < jc + jr * (NR as int) + NR,
        gj < jc + nce,
        pa_off == ir * ((MR * kce) as int),
        pb_off == jr * ((NR * kce) as int),
        forall|r: int, i2: int, p: int|
            0 <= r && r * (MR as int) < mce && 0 <= i2 < MR && 0 <= p < kce ==> pa[
                #[trigger] strip_idx(MR as int, kce, r, p, i2)
            ] as int == (if r * (MR as int) + i2 < mce {
                a[mat_idx(lda, ic + r * (MR as int) + i2, kk + p)] as int
            } else {
                0
            }),
        forall|s: int, j2: int, p: int|
            0 <= s && s * (NR as int) < nce && 0 <= j2 < NR && 0 <= p < kce ==> pb[
                #[trigger] strip_idx(NR as int, kce, s, p, j2)
            ] as int == (if s * (NR as int) + j2 < nce {
                b[mat_idx(ldb, kk + p, jc + s * (NR as int) + j2)] as int
            } else {
                0
            }),
        beta_eff == (if kk == 0 { beta } else { 1 }),
        cprev == stage_val(c0, ldc, alpha, beta, a, lda, b, ldb, gi, gj, kk),
        cnew == epi_val(
            beta_eff,
            cprev,
            alpha,
            tile_acc(pa, pa_off, pb, pb_off, gi - (ic + ir * (MR as int)), gj - (jc + jr * (NR as int)), kce),
        ),
    ensures
        cnew == stage_val(c0, ldc, alpha, beta, a, lda, b, ldb, gi, gj, kk + kce),
{
    let ti = gi - (ic + ir * (MR as int));
    let tj = gj - (jc + jr * (NR as int));
    assert forall|t: int| 0 <= t < kce implies #[trigger] pterm(
        pa, pa_off + ti, MR as int, pb, pb_off + tj, NR as int, t,
    ) == pterm(a, gi + kk * lda, lda, b, gj * ldb + kk, 1, t) by {
        assert(strip_idx(MR as int, kce, ir, t, ti) == pa_off + ti + t * (MR as int));
        assert(pa[strip_idx(MR as int, kce, ir, t, ti)] as int == a[mat_idx(
            lda,
            ic + ir * (MR as int) + ti,
            kk + t,
        )] as int);
        lemma_mul_dist(lda, kk, t);
        assert(mat_idx(lda, gi, kk + t) == gi + kk * lda + t * lda);
        assert(strip_idx(NR as int, kce, jr, t, tj) == pb_off + tj + t * (NR as int));
        assert(pb[strip_idx(NR as int, kce, jr, t, tj)] as int == b[mat_idx(
            ldb,
            kk + t,
            jc + jr * (NR as int) + tj,
        )] as int);
        assert(mat_idx(ldb, kk + t, gj) == gj * ldb + kk + t * 1);
    }
    lemma_psum_eq(
        pa, pa_off + ti, MR as int, pb, pb_off + tj, NR as int,
        a, gi + kk * lda, lda, b, gj * ldb + kk, 1, kce,
    );
    lemma_psum_split(a, gi, lda, b, gj * ldb, 1, kk, kce);
    let d1 = dotk(a, lda, b, ldb, gi, gj, kk);
    let d2 = dotk(a, lda, b, ldb, gi, gj, kk + kce);
    lemma_mul_dist(alpha, d1, d2 - d1);
}

/// Which output elements of the current K-chunk have already been brought
/// to the new stage while the chunk's N/M/tile loops advance.  `jc`/`nce`
/// are the current column chunk, `ic`/`mce` the current row block, `jq`
/// the column offset of the current strip inside the chunk, `nre` its
/// width, and `iq` the row offset the tile loop has reached inside the
/// block.
spec fn gdone(
    jc: int, nce: int, ic: int, mce: int, jq: int, nre: int, iq: int, gi: int, gj: int,
) -> bool {
    gj < jc
    || (gj < jc + nce && gi < ic)
    || (jc <= gj && gj < jc + jq && gj < jc + nce && ic <= gi && gi < ic + mce)
    || (jc + jq <= gj && gj < jc + jq + nre && gj < jc + nce && ic <= gi && gi < ic + iq && gi < ic
        + mce)
}

/// Blocked matrix multiply: `C := alpha*(A*B) + beta*C` for column-major
/// A (m x k), B (k x n) and C (m x n).  K is partitioned outermost into
/// chunks of at most `KC`, then N into chunks of at most `NC`, then M into
/// blocks of at most `MC`; each block's A- and B-panels are packed once
/// and reused across all of its register tiles.  Full `MR x NR` tiles go
/// through the interior microkernel, short edge tiles through the edge
/// kernel.  Beta is applied to each output element exactly once, on the
/// first K-chunk; later chunks accumulate.  A degenerate dimension
/// returns immediately; `k == 0` or `alpha == 0` degenerates to a
/// beta-only rescale; for `beta == 0` the prior content of C is never
/// read.
#[verifier::rlimit(100)]
pub fn gemm(
    m: usize, n: usize, k: usize,
    alpha: i64, a: &Vec<i64>, lda: usize, b: &Vec<i64>, ldb: usize,
    beta: i64, c: &mut Vec<i64>, ldc: usize,
)
    requires
        m <= lda,
        k <= ldb,
        m <= ldc,
        k <= MAX_K,
        m >= 1 && k >= 1 ==> (k - 1) * lda + m <= a.len(),
        k >= 1 && n >= 1 ==> (n - 1) * ldb + k <= b.len(),
        m >= 1 && n >= 1 ==> (n - 1) * ldc + m <= old(c).len(),
        forall|gi: int, p: int|
            0 <= gi < m && 0 <= p < k ==> -MAX_ELEM <= a@[#[trigger] mat_idx(lda as int, gi, p)]
                <= MAX_ELEM,
        forall|p: int, gj: int|
            0 <= p < k && 0 <= gj < n ==> -MAX_ELEM <= b@[#[trigger] mat_idx(ldb as int, p, gj)]
                <= MAX_ELEM,
        -MAX_ELEM <= alpha <= MAX_ELEM,
        -MAX_ELEM <= beta <= MAX_ELEM,
        beta != 0 ==> forall|gi: int, gj: int|
            0 <= gi < m && 0 <= gj < n ==> -MAX_ELEM <= old(c)@[#[trigger] mat_idx(
                ldc as int,
                gi,
                gj,
            )] <= MAX_ELEM,
    ensures
        final(c).len() == old(c).len(),
        forall|gi: int, gj: int|
            0 <= gi < m && 0 <= gj < n ==> final(c)@[#[trigger] mat_idx(ldc as int, gi, gj)] as int
                == gemm_post_val(
                old(c)@,
                ldc as int,
                alpha as int,
                beta as int,
                a@,
                lda as int,
                b@,
                ldb as int,
                gi,
                gj,
                k as int,
            ),
        forall|t: int|
            0 <= t < old(c).len() && !in_rect(ldc as int, 0, m as int, 0, n as int, t)
                ==> final(c)@[t] == old(c)@[t],
{
    if m == 0 || n == 0 {
        return ;
    }
    if k == 0 || alpha == 0 {
        if beta != 1 {
            scale_by_beta(m, n, beta, c, ldc);
        }
        return ;
    }
    let mut kk: usize = 0;
    while kk < k
        invariant
            1 <= m,
            1 <= n,
            1 <= k,
            m <= lda,
            k <= ldb,
            m <= ldc,
            k <= MAX_K,
            (k - 1) * lda + m <= a.len(),
            (n - 1) * ldb + k <= b.len(),
            (n - 1) * ldc + m <= old(c).len(),
            forall|gi: int, p: int|
                0 <= gi < m && 0 <= p < k ==> -MAX_ELEM <= a@[#[trigger] mat_idx(lda as int, gi, p)]
                    <= MAX_ELEM,
            forall|p: int, gj: int|
                0 <= p < k && 0 <= gj < n ==> -MAX_ELEM <= b@[#[trigger] mat_idx(ldb as int, p, gj)]
                    <= MAX_ELEM,
            -MAX_ELEM <= alpha <= MAX_ELEM,
            -MAX_ELEM <= beta <= MAX_ELEM,
            beta != 0 ==> forall|gi: int, gj: int|
                0 <= gi < m && 0 <= gj < n ==> -MAX_ELEM <= old(c)@[#[trigger] mat_idx(
                    ldc as int,
                    gi,
                    gj,
                )] <= MAX_ELEM,
            c.len() == old(c).len(),
            kk <= k,
            forall|gi: int, gj: int|
                0 <= gi < m && 0 <= gj < n ==> c@[#[trigger] mat_idx(ldc as int, gi, gj)] as int
                    == stage_val(
                    old(c)@, ldc as int, alpha as int, beta as int,
                    a@, lda as int, b@, ldb as int, gi, gj,
                    kk as int,
                ),
            forall|t: int|
                0 <= t < old(c).len() && !in_rect(ldc as int, 0, m as int, 0, n as int, t)
                    ==> c@[t] == old(c)@[t],
        decreases k - kk,
    {
        let kce = if k - kk < KC { k - kk } else { KC };
        let kk2 = kk + kce;
        let beta_eff: i64 = if kk == 0 { beta } else { 1 };
        let mut jc: usize = 0;
        while jc < n
            invariant
            1 <= m,
            1 <= n,
            1 <= k,
            m <= lda,
            k <= ldb,
            m <= ldc,
            k <= MAX_K,
            (k - 1) * lda + m <= a.len(),
            (n - 1) * ldb + k <= b.len(),
            (n - 1) * ldc + m <= old(c).len(),
            forall|gi: int, p: int|
                0 <= gi < m && 0 <= p < k ==> -MAX_ELEM <= a@[#[trigger] mat_idx(lda as int, gi, p)]
                    <= MAX_ELEM,
            forall|p: int, gj: int|
                0 <= p < k && 0 <= gj < n ==> -MAX_ELEM <= b@[#[trigger] mat_idx(ldb as int, p, gj)]
                    <= MAX_ELEM,
            -MAX_ELEM <= alpha <= MAX_ELEM,
            -MAX_ELEM <= beta <= MAX_ELEM,
            beta != 0 ==> forall|gi: int, gj: int|
                0 <= gi < m && 0 <= gj < n ==> -MAX_ELEM <= old(c)@[#[trigger] mat_idx(
                    ldc as int,
                    gi,
                    gj,
                )] <= MAX_ELEM,
            c.len() == old(c).len(),
            kk < k,
            1 <= kce,
            kce <= KC,
            kk + kce <= k,
            kk2 == kk + kce,
            beta_eff == (if kk == 0 { beta } else { 1i64 }),
            jc <= n,
            forall|gi: int, gj: int|
                0 <= gi < m && 0 <= gj < n ==> c@[#[trigger] mat_idx(ldc as int, gi, gj)] as int
                    == stage_val(
                    old(c)@, ldc as int, alpha as int, beta as int,
                    a@, lda as int, b@, ldb as int, gi, gj,
                    if gj < jc { kk2 as int } else { kk as int },
                ),
            forall|t: int|
                0 <= t < old(c).len() && !in_rect(ldc as int, 0, m as int, 0, n as int, t)
                    ==> c@[t] == old(c)@[t],
            decreases n - jc,
        {
            let nce = if n - jc < NC { n - jc } else { NC };
            proof {
                assert((n - 1) as int <= ((n - 1) as int) * (ldb as int)) by (nonlinear_arith)
                    requires ldb >= 1, n >= 1;
                assert(jc + nce <= b.len());
                lemma_mul_le((jc + nce - 1) as int, (n - 1) as int, ldb as int);
            }
            let pb = pack_b(b, ldb, jc, nce, kk, kce);
            let mut ic: usize = 0;
            while ic < m
                invariant
            1 <= m,
            1 <= n,
            1 <= k,
            m <= lda,
            k <= ldb,
            m <= ldc,
            k <= MAX_K,
            (k - 1) * lda + m <= a.len(),
            (n - 1) * ldb + k <= b.len(),
            (n - 1) * ldc + m <= old(c).len(),
            forall|gi: int, p: int|
                0 <= gi < m && 0 <= p < k ==> -MAX_ELEM <= a@[#[trigger] mat_idx(lda as int, gi, p)]
                    <= MAX_ELEM,
            forall|p: int, gj: int|
                0 <= p < k && 0 <= gj < n ==> -MAX_ELEM <= b@[#[trigger] mat_idx(ldb as int, p, gj)]
                    <= MAX_ELEM,
            -MAX_ELEM <= alpha <= MAX_ELEM,
            -MAX_ELEM <= beta <= MAX_ELEM,
            beta != 0 ==> forall|gi: int, gj: int|
                0 <= gi < m && 0 <= gj < n ==> -MAX_ELEM <= old(c)@[#[trigger] mat_idx(
                    ldc as int,
                    gi,
                    gj,
                )] <= MAX_ELEM,
            c.len() == old(c).len(),
            kk < k,
            1 <= kce,
            kce <= KC,
            kk + kce <= k,
            kk2 == kk + kce,
            beta_eff == (if kk == 0 { beta } else { 1i64 }),
            jc < n,
            1 <= nce,
            nce <= NC,
            jc + nce <= n,
            pb.len() == (((nce + NR - 1) as int) / (NR as int)) * (NR * kce),
            nce <= (((nce + NR - 1) as int) / (NR as int)) * (NR as int),
            forall|s: int, j2: int, p: int|
                0 <= s && s * (NR as int) < nce && 0 <= j2 < NR && 0 <= p < kce ==> pb@[
                    #[trigger] strip_idx(NR as int, kce as int, s, p, j2)
                ] as int == (if s * (NR as int) + j2 < nce {
                    b@[mat_idx(ldb as int, kk + p, jc + s * (NR as int) + j2)] as int
                } else {
                    0
                }),
            forall|t: int| 0 <= t < pb.len() ==> -MAX_ELEM <= #[trigger] pb@[t] <= MAX_ELEM,
            ic <= m,
            forall|gi: int, gj: int|
                0 <= gi < m && 0 <= gj < n ==> c@[#[trigger] mat_idx(ldc as int, gi, gj)] as int
                    == stage_val(
                    old(c)@, ldc as int, alpha as int, beta as int,
                    a@, lda as int, b@, ldb as int, gi, gj,
                    if gdone(jc as int, nce as int, ic as int, 0, 0, 0, 0, gi, gj) { kk2 as int } else { kk as int },
                ),
            forall|t: int|
                0 <= t < old(c).len() && !in_rect(ldc as int, 0, m as int, 0, n as int, t)
                    ==> c@[t] == old(c)@[t],
                decreases m - ic,
            {
                let mce = if m - ic < MC { m - ic } else { MC };
                proof {
                    lemma_mul_le((kk + kce - 1) as int, (k - 1) as int, lda as int);
                }
                let pa = pack_a(a, lda, ic, mce, kk, kce);
                let mut jr: usize = 0;
                while jr * NR < nce
                    invariant
            1 <= m,
            1 <= n,
            1 <= k,
            m <= lda,
            k <= ldb,
            m <= ldc,
            k <= MAX_K,
            (k - 1) * lda + m <= a.len(),
            (n - 1) * ldb + k <= b.len(),
            (n - 1) * ldc + m <= old(c).len(),
            forall|gi: int, p: int|
                0 <= gi < m && 0 <= p < k ==> -MAX_ELEM <= a@[#[trigger] mat_idx(lda as int, gi, p)]
                    <= MAX_ELEM,
            forall|p: int, gj: int|
                0 <= p < k && 0 <= gj < n ==> -MAX_ELEM <= b@[#[trigger] mat_idx(ldb as int, p, gj)]
                    <= MAX_ELEM,
            -MAX_ELEM <= alpha <= MAX_ELEM,
            -MAX_ELEM <= beta <= MAX_ELEM,
            beta != 0 ==> forall|gi: int, gj: int|
                0 <= gi < m && 0 <= gj < n ==> -MAX_ELEM <= old(c)@[#[trigger] mat_idx(
                    ldc as int,
                    gi,
                    gj,
                )] <= MAX_ELEM,
            c.len() == old(c).len(),
            kk < k,
            1 <= kce,
            kce <= KC,
            kk + kce <= k,
            kk2 == kk + kce,
            beta_eff == (if kk == 0 { beta } else { 1i64 }),
            jc < n,
            1 <= nce,
            nce <= NC,
            jc + nce <= n,
            pb.len() == (((nce + NR - 1) as int) / (NR as int)) * (NR * kce),
            nce <= (((nce + NR - 1) as int) / (NR as int)) * (NR as int),
            forall|s: int, j2: int, p: int|
                0 <= s && s * (NR as int) < nce && 0 <= j2 < NR && 0 <= p < kce ==> pb@[
                    #[trigger] strip_idx(NR as int, kce as int, s, p, j2)
                ] as int == (if s * (NR as int) + j2 < nce {
                    b@[mat_idx(ldb as int, kk + p, jc + s * (NR as int) + j2)] as int
                } else {
                    0
                }),
            forall|t: int| 0 <= t < pb.len() ==> -MAX_ELEM <= #[trigger] pb@[t] <= MAX_ELEM,
            ic < m,
            1 <= mce,
            mce <= MC,
            ic + mce <= m,
            pa.len() == (((mce + MR - 1) as int) / (MR as int)) * (MR * kce),
            mce <= (((mce + MR - 1) as int) / (MR as int)) * (MR as int),
            forall|r: int, i2: int, p: int|
                0 <= r && r * (MR as int) < mce && 0 <= i2 < MR && 0 <= p < kce ==> pa@[
                    #[trigger] strip_idx(MR as int, kce as int, r, p, i2)
                ] as int == (if r * (MR as int) + i2 < mce {
                    a@[mat_idx(lda as int, ic + r * (MR as int) + i2, kk + p)] as int
                } else {
                    0
                }),
            forall|t: int| 0 <= t < pa.len() ==> -MAX_ELEM <= #[trigger] pa@[t] <= MAX_ELEM,
            jr * NR < nce + NR,
            forall|gi: int, gj: int|
                0 <= gi < m && 0 <= gj < n ==> c@[#[trigger] mat_idx(ldc as int, gi, gj)] as int
                    == stage_val(
                    old(c)@, ldc as int, alpha as int, beta as int,
                    a@, lda as int, b@, ldb as int, gi, gj,
                    if gdone(jc as int, nce as int, ic as int, mce as int, (jr * NR) as int, 0, 0, gi, gj) { kk2 as int } else { kk as int },
                ),
            forall|t: int|
                0 <= t < old(c).len() && !in_rect(ldc as int, 0, m as int, 0, n as int, t)
                    ==> c@[t] == old(c)@[t],
                    decreases nce + NR - jr * NR,
                {
                    let jj = jc + jr * NR;
                    let nre = if nce - jr * NR < NR { nce - jr * NR } else { NR };
                    proof {
                        lemma_mul_le(jr as int, 2, (NR * kce) as int);
                    }
                    let pb_off = jr * (NR * kce);
                    let mut ir: usize = 0;
                    while ir * MR < mce
                        invariant
            1 <= m,
            1 <= n,
            1 <= k,
            m <= lda,
            k <= ldb,
            m <= ldc,
            k <= MAX_K,
            (k - 1) * lda + m <= a.len(),
            (n - 1) * ldb + k <= b.len(),
            (n - 1) * ldc + m <= old(c).len(),
            forall|gi: int, p: int|
                0 <= gi < m && 0 <= p < k ==> -MAX_ELEM <= a@[#[trigger] mat_idx(lda as int, gi, p)]
                    <= MAX_ELEM,
            forall|p: int, gj: int|
                0 <= p < k && 0 <= gj < n ==> -MAX_ELEM <= b@[#[trigger] mat_idx(ldb as int, p, gj)]
                    <= MAX_ELEM,
            -MAX_ELEM <= alpha <= MAX_ELEM,
            -MAX_ELEM <= beta <= MAX_ELEM,
            beta != 0 ==> forall|gi: int, gj: int|
                0 <= gi < m && 0 <= gj < n ==> -MAX_ELEM <= old(c)@[#[trigger] mat_idx(
                    ldc as int,
                    gi,
                    gj,
                )] <= MAX_ELEM,
            c.len() == old(c).len(),
            kk < k,
            1 <= kce,
            kce <= KC,
            kk + kce <= k,
            kk2 == kk + kce,
            beta_eff == (if kk == 0 { beta } else { 1i64 }),
            jc < n,
            1 <= nce,
            nce <= NC,
            jc + nce <= n,
            pb.len() == (((nce + NR - 1) as int) / (NR as int)) * (NR * kce),
            nce <= (((nce + NR - 1) as int) / (NR as int)) * (NR as int),
            forall|s: int, j2: int, p: int|
                0 <= s && s * (NR as int) < nce && 0 <= j2 < NR && 0 <= p < kce ==> pb@[
                    #[trigger] strip_idx(NR as int, kce as int, s, p, j2)
                ] as int == (if s * (NR as int) + j2 < nce {
                    b@[mat_idx(ldb as int, kk + p, jc + s * (NR as int) + j2)] as int
                } else {
                    0
                }),
            forall|t: int| 0 <= t < pb.len() ==> -MAX_ELEM <= #[trigger] pb@[t] <= MAX_ELEM,
            ic < m,
            1 <= mce,
            mce <= MC,
            ic + mce <= m,
            pa.len() == (((mce + MR - 1) as int) / (MR as int)) * (MR * kce),
            mce <= (((mce + MR - 1) as int) / (MR as int)) * (MR as int),
            forall|r: int, i2: int, p: int|
                0 <= r && r * (MR as int) < mce && 0 <= i2 < MR && 0 <= p < kce ==> pa@[
                    #[trigger] strip_idx(MR as int, kce as int, r, p, i2)
                ] as int == (if r * (MR as int) + i2 < mce {
                    a@[mat_idx(lda as int, ic + r * (MR as int) + i2, kk + p)] as int
                } else {
                    0
                }),
            forall|t: int| 0 <= t < pa.len() ==> -MAX_ELEM <= #[trigger] pa@[t] <= MAX_ELEM,
            jr * NR < nce,
            jj == jc + jr * NR,
            nre == (if nce - jr * NR < NR { (nce - jr * NR) as int } else { NR as int }),
            pb_off == jr * (NR * kce),
            ir * MR < mce + MR,
            forall|gi: int, gj: int|
                0 <= gi < m && 0 <= gj < n ==> c@[#[trigger] mat_idx(ldc as int, gi, gj)] as int
                    == stage_val(
                    old(c)@, ldc as int, alpha as int, beta as int,
                    a@, lda as int, b@, ldb as int, gi, gj,
                    if gdone(jc as int, nce as int, ic as int, mce as int, (jr * NR) as int, nre as int, (ir * MR) as int, gi, gj) { kk2 as int } else { kk as int },
                ),
            forall|t: int|
                0 <= t < old(c).len() && !in_rect(ldc as int, 0, m as int, 0, n as int, t)
                    ==> c@[t] == old(c)@[t],
                        decreases mce + MR - ir * MR,
                    {
                        let ii = ic + ir * MR;
                        let mre = if mce - ir * MR < MR { mce - ir * MR } else { MR };
                        proof {
                            lemma_mul_le(ir as int, 2, (MR * kce) as int);
                        }
                        let pa_off = ir * (MR * kce);
                        proof {
                            // the packed strips the kernel reads lie inside the buffers
                            lemma_mul_le((ir + 1) as int, ((mce + MR - 1) as int) / (MR as int), (MR * kce) as int);
                            assert((ir + 1) * ((MR * kce) as int) == ir * ((MR * kce) as int) + (MR * kce) as int)
                                by (nonlinear_arith);
                            lemma_mul_le((jr + 1) as int, ((nce + NR - 1) as int) / (NR as int), (NR * kce) as int);
                            assert((jr + 1) * ((NR * kce) as int) == jr * ((NR * kce) as int) + (NR * kce) as int)
                                by (nonlinear_arith);
                            // the output tile lies inside C
                            lemma_mul_le((jj + nre - 1) as int, (n - 1) as int, ldc as int);
                            // old-stage tile values are bounded when the kernel will read them
                            if beta_eff != 0 {
                                assert forall|gi: int, gj: int|
                                    ii <= gi < ii + mre && jj <= gj < jj + nre implies -MAX_PARTIAL
                                    <= c@[#[trigger] mat_idx(ldc as int, gi, gj)] <= MAX_PARTIAL by {
                                    assert(c@[mat_idx(ldc as int, gi, gj)] as int == stage_val(
                                        old(c)@, ldc as int, alpha as int, beta as int,
                                        a@, lda as int, b@, ldb as int, gi, gj, kk as int,
                                    ));
                                    if kk >= 1 {
                                        lemma_stage_bound(
                                            old(c)@, ldc as int, alpha as int, beta as int,
                                            a@, lda as int, b@, ldb as int, gi, gj,
                                            kk as int, m as int, n as int, k as int,
                                        );
                                    }
                                }
                            }
                        }
                        let ghost cpre = c@;
                        if mre == MR && nre == NR {
                            microkernel(kce, &pa, pa_off, &pb, pb_off, c, ii, jj, ldc, alpha, beta_eff);
                        } else {
                            edge_kernel(mre, nre, kce, &pa, pa_off, &pb, pb_off, c, ii, jj, ldc, alpha, beta_eff);
                        }
                        proof {
                            let ldaI = lda as int;
                            let ldbI = ldb as int;
                            let ldcI = ldc as int;
                            let kkI = kk as int;
                            let kceI = kce as int;
                            let iiI = ii as int;
                            let jjI = jj as int;
                            let mreI = mre as int;
                            let nreI = nre as int;
                            let alphaI = alpha as int;
                            assert forall|gi: int, gj: int|
                                0 <= gi < m && 0 <= gj < n implies c@[#[trigger] mat_idx(ldcI, gi, gj)] as int
                                    == stage_val(
                                    old(c)@, ldcI, alphaI, beta as int, a@, ldaI, b@, ldbI, gi, gj,
                                    if gdone(
                                        jc as int, nce as int, ic as int, mce as int,
                                        (jr * NR) as int, nreI, ((ir + 1) * MR) as int, gi, gj,
                                    ) {
                                        kk2 as int
                                    } else {
                                        kkI
                                    },
                                ) by {
                                if iiI <= gi < iiI + mreI && jjI <= gj < jjI + nreI {
                                    assert(!gdone(
                                        jc as int, nce as int, ic as int, mce as int,
                                        (jr * NR) as int, nreI, (ir * MR) as int, gi, gj,
                                    ));
                                    assert(cpre[mat_idx(ldcI, gi, gj)] as int == stage_val(
                                        old(c)@, ldcI, alphaI, beta as int, a@, ldaI, b@, ldbI, gi, gj, kkI,
                                    ));
                                    lemma_tile_update(
                                        old(c)@, ldcI, alphaI, beta as int, a@, ldaI, b@, ldbI,
                                        pa@, pa_off as int, pb@, pb_off as int,
                                        ic as int, jc as int, ir as int, jr as int, mce as int, nce as int,
                                        kkI, kceI, gi, gj,
                                        cpre[mat_idx(ldcI, gi, gj)] as int,
                                        c@[mat_idx(ldcI, gi, gj)] as int,
                                        beta_eff as int,
                                    );
                                } else {
                                    lemma_mul_le(0, gj, ldcI);
                                    lemma_mul_le(gj, (n - 1) as int, ldcI);
                                    assert(0 <= mat_idx(ldcI, gi, gj) < c.len());
                                    if in_rect(ldcI, iiI, mreI, jjI, nreI, mat_idx(ldcI, gi, gj)) {
                                        let (wi, wj) = choose|wi: int, wj: int|
                                            iiI <= wi < iiI + mreI && jjI <= wj < jjI + nreI
                                                && mat_idx(ldcI, gi, gj) == #[trigger] mat_idx(ldcI, wi, wj);
                                        lemma_idx_unique(ldcI, gi, gj, wi, wj);
                                        assert(false);
                                    }
                                }
                            }
                            assert forall|t: int|
                                0 <= t < old(c).len() && !in_rect(ldcI, 0, m as int, 0, n as int, t)
                                    implies c@[t] == old(c)@[t] by {
                                if in_rect(ldcI, iiI, mreI, jjI, nreI, t) {
                                    let (wi, wj) = choose|wi: int, wj: int|
                                        iiI <= wi < iiI + mreI && jjI <= wj < jjI + nreI
                                            && t == #[trigger] mat_idx(ldcI, wi, wj);
                                    assert(in_rect(ldcI, 0, m as int, 0, n as int, t));
                                    assert(false);
                                }
                            }
                        }
                        ir = ir + 1;
                    }
                    jr = jr + 1;
                }
                ic = ic + mce;
            }
            jc = jc + nce;
        }
        kk = kk + kce;
    }
}

} // verus!
