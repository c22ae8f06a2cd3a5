//! Shared mathematical model: flat column-major indexing and strided
//! sums of products, with the lemmas the kernel proofs need.

use vstd::prelude::*;

verus! {

/// Flat position of element (i, j) in a column-major buffer with leading
/// dimension `ld`.
pub open spec fn mat_idx(ld: int, i: int, j: int) -> int {
    i + j * ld
}

/// The `t`-th term of a strided product sum: `u[ub + t*us] * v[vb + t*vs]`.
pub open spec fn pterm(u: Seq<i64>, ub: int, us: int, v: Seq<i64>, vb: int, vs: int, t: int) -> int {
    (u[ub + t * us] as int) * (v[vb + t * vs] as int)
}

/// Sum of the first `len` terms of a strided product sum.
pub open spec fn psum(u: Seq<i64>, ub: int, us: int, v: Seq<i64>, vb: int, vs: int, len: int) -> int
    decreases len,
{
    if len <= 0 {
        0
    } else {
        psum(u, ub, us, v, vb, vs, len - 1) + pterm(u, ub, us, v, vb, vs, len - 1)
    }
}

/// A strided product sum splits at any cut point: the tail is the same sum
/// restarted at shifted bases.
pub proof fn lemma_psum_split(u: Seq<i64>, ub: int, us: int, v: Seq<i64>, vb: int, vs: int, l1: int, l2: int)
    requires
        0 <= l1,
        0 <= l2,
    ensures
        psum(u, ub, us, v, vb, vs, l1 + l2) == psum(u, ub, us, v, vb, vs, l1) + psum(
            u,
            ub + l1 * us,
            us,
            v,
            vb + l1 * vs,
            vs,
            l2,
        ),
    decreases l2,
{
    if l2 <= 0 {
    } else {
        lemma_psum_split(u, ub, us, v, vb, vs, l1, l2 - 1);
        assert((l1 + (l2 - 1)) * us == l1 * us + (l2 - 1) * us) by (nonlinear_arith);
        assert((l1 + (l2 - 1)) * vs == l1 * vs + (l2 - 1) * vs) by (nonlinear_arith);
        assert(pterm(u, ub, us, v, vb, vs, l1 + l2 - 1) == pterm(
            u,
            ub + l1 * us,
            us,
            v,
            vb + l1 * vs,
            vs,
            l2 - 1,
        ));
    }
}

/// Two strided product sums with termwise-equal terms are equal.
pub proof fn lemma_psum_eq(
    u1: Seq<i64>, ub1: int, us1: int, v1: Seq<i64>, vb1: int, vs1: int,
    u2: Seq<i64>, ub2: int, us2: int, v2: Seq<i64>, vb2: int, vs2: int,
    len: int,
)
    requires
        forall|t: int| 0 <= t < len ==> #[trigger] pterm(u1, ub1, us1, v1, vb1, vs1, t) == pterm(
            u2,
            ub2,
            us2,
            v2,
            vb2,
            vs2,
            t,
        ),
    ensures
        psum(u1, ub1, us1, v1, vb1, vs1, len) == psum(u2, ub2, us2, v2, vb2, vs2, len),
    decreases len,
{
    if len <= 0 {
    } else {
        lemma_psum_eq(u1, ub1, us1, v1, vb1, vs1, u2, ub2, us2, v2, vb2, vs2, len - 1);
    }
}

/// A strided product sum of `len` terms, each bounded by `pb` in magnitude,
/// is bounded by `len * pb`.
pub proof fn lemma_psum_bound(u: Seq<i64>, ub: int, us: int, v: Seq<i64>, vb: int, vs: int, len: int, pb: int)
    requires
        0 <= len,
        0 <= pb,
        forall|t: int| 0 <= t < len ==> -pb <= #[trigger] pterm(u, ub, us, v, vb, vs, t) <= pb,
    ensures
        -(len * pb) <= psum(u, ub, us, v, vb, vs, len) <= len * pb,
    decreases len,
{
    if len <= 0 {
    } else {
        lemma_psum_bound(u, ub, us, v, vb, vs, len - 1, pb);
        assert((len - 1) * pb + pb == len * pb) by (nonlinear_arith);
    }
}

/// Product of two magnitude-bounded integers is bounded by the product of
/// the bounds.
pub proof fn lemma_mul_bound(a: int, b: int, ca: int, cb: int)
    by (nonlinear_arith)
    requires
        -ca <= a <= ca,
        -cb <= b <= cb,
        0 <= ca,
        0 <= cb,
    ensures
        -(ca * cb) <= a * b <= ca * cb,
{
}

/// Multiplying both sides of an inequality by a non-negative factor.
pub proof fn lemma_mul_le(a: int, b: int, c: int)
    by (nonlinear_arith)
    requires
        a <= b,
        0 <= c,
    ensures
        a * c <= b * c,
{
}

/// Multiplication distributes over addition.
pub proof fn lemma_mul_dist(a: int, x: int, y: int)
    by (nonlinear_arith)
    ensures
        a * (x + y) == a * x + a * y,
        (x + y) * a == x * a + y * a,
{
}

/// Column-major positions are unique while the row index stays below the
/// leading dimension.
pub proof fn lemma_idx_unique(ld: int, i1: int, j1: int, i2: int, j2: int)
    by (nonlinear_arith)
    requires
        0 <= i1 < ld,
        0 <= i2 < ld,
        mat_idx(ld, i1, j1) == mat_idx(ld, i2, j2),
    ensures
        i1 == i2,
        j1 == j2,
{
}

} // verus!
