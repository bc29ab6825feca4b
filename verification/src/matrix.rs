//! Three-by-three integer matrices, given by their columns, and the solution of
//! `x M = b` when `M` is unimodular.

use vstd::prelude::*;

verus! {

/// A triple of integers.
pub type Triple = (int, int, int);

/// The three entries of a slice of length 3, as integers.
pub open spec fn triple(s: Seq<i32>) -> Triple {
    (s[0] as int, s[1] as int, s[2] as int)
}

/// The dot product of two triples.
pub open spec fn dot3(a: Triple, b: Triple) -> int {
    a.0 * b.0 + a.1 * b.1 + a.2 * b.2
}

/// The cross product of two triples.
pub open spec fn cross3(a: Triple, b: Triple) -> Triple {
    (a.1 * b.2 - a.2 * b.1, a.2 * b.0 - a.0 * b.2, a.0 * b.1 - a.1 * b.0)
}

/// The determinant of the matrix with columns `u`, `v`, `w`.
pub open spec fn det3_spec(u: Triple, v: Triple, w: Triple) -> int {
    dot3(u, cross3(v, w))
}

/// Column `k` of the inverse of a unimodular matrix with columns `u`, `v`, `w`:
/// the rows of the inverse are `v x w`, `w x u` and `u x v`, divided by the determinant
/// (which is its own inverse when it is 1 or -1).
pub open spec fn inv_column(u: Triple, v: Triple, w: Triple, k: int) -> Triple {
    let d = det3_spec(u, v, w);
    let p = cross3(v, w);
    let q = cross3(w, u);
    let r = cross3(u, v);
    if k == 0 {
        (d * p.0, d * q.0, d * r.0)
    } else if k == 1 {
        (d * p.1, d * q.1, d * r.1)
    } else {
        (d * p.2, d * q.2, d * r.2)
    }
}

/// The row vector `b` times the inverse of the unimodular matrix with columns `u`, `v`, `w`.
pub open spec fn solve3(u: Triple, v: Triple, w: Triple, b: Triple) -> Triple {
    (dot3(b, inv_column(u, v, w, 0)), dot3(b, inv_column(u, v, w, 1)), dot3(b, inv_column(u, v, w, 2)))
}

/// `b.0 p + b.1 q + b.2 r`, one component of a row vector times the matrix with rows `p`, `q`, `r`.
spec fn combo(b: Triple, p: int, q: int, r: int) -> int {
    b.0 * p + b.1 * q + b.2 * r
}

proof fn lemma_term(a: int, b: int, c: int, d: int, e: int)
    ensures
        (a * b - c * d) * e == a * b * e - c * d * e,
        e * (a * b - c * d) == a * b * e - c * d * e,
{
    assert((a * b - c * d) * e == a * b * e - c * d * e) by (nonlinear_arith);
    assert(e * (a * b - c * d) == a * b * e - c * d * e) by (nonlinear_arith);
}

proof fn lemma_perm(a: int, b: int, c: int)
    ensures
        a * b * c == a * c * b,
        a * b * c == b * a * c,
        a * b * c == b * c * a,
        a * b * c == c * a * b,
        a * b * c == c * b * a,
{
    assert(a * b * c == a * c * b) by (nonlinear_arith);
    assert(a * b * c == b * a * c) by (nonlinear_arith);
    assert(a * b * c == b * c * a) by (nonlinear_arith);
    assert(a * b * c == c * a * b) by (nonlinear_arith);
    assert(a * b * c == c * b * a) by (nonlinear_arith);
}

/// The determinant as a sum of six products, each written as `u_i * v_j * w_k`.
proof fn lemma_det_expanded(u: Triple, v: Triple, w: Triple)
    ensures
        det3_spec(u, v, w) == u.0 * v.1 * w.2 - u.0 * v.2 * w.1 + u.1 * v.2 * w.0 - u.1 * v.0 * w.2 + u.2 * v.0 * w.1
            - u.2 * v.1 * w.0,
{
    let (u0, u1, u2) = u;
    let (v0, v1, v2) = v;
    let (w0, w1, w2) = w;
    lemma_term(v1, w2, v2, w1, u0);
    lemma_term(v2, w0, v0, w2, u1);
    lemma_term(v0, w1, v1, w0, u2);
    lemma_perm(u0, v1, w2);
    lemma_perm(u0, v2, w1);
    lemma_perm(u1, v2, w0);
    lemma_perm(u1, v0, w2);
    lemma_perm(u2, v0, w1);
    lemma_perm(u2, v1, w0);
}

/// Entry `(i, k)` of `M` times the matrix with rows `v x w`, `w x u`, `u x v`:
/// `u_i (v x w)_k + v_i (w x u)_k + w_i (u x v)_k`.
spec fn adj_product(u: Triple, v: Triple, w: Triple, ui: int, vi: int, wi: int, k: int) -> int {
    let p = cross3(v, w);
    let q = cross3(w, u);
    let r = cross3(u, v);
    if k == 0 {
        ui * p.0 + vi * q.0 + wi * r.0
    } else if k == 1 {
        ui * p.1 + vi * q.1 + wi * r.1
    } else {
        ui * p.2 + vi * q.2 + wi * r.2
    }
}

/// The matrix with columns `u`, `v`, `w` times the matrix with rows `v x w`, `w x u`, `u x v`
/// is the determinant times the identity.
proof fn lemma_adjugate(u: Triple, v: Triple, w: Triple)
    ensures
        adj_product(u, v, w, u.0, v.0, w.0, 0) == det3_spec(u, v, w),
        adj_product(u, v, w, u.1, v.1, w.1, 1) == det3_spec(u, v, w),
        adj_product(u, v, w, u.2, v.2, w.2, 2) == det3_spec(u, v, w),
        adj_product(u, v, w, u.1, v.1, w.1, 0) == 0,
        adj_product(u, v, w, u.2, v.2, w.2, 0) == 0,
        adj_product(u, v, w, u.0, v.0, w.0, 1) == 0,
        adj_product(u, v, w, u.2, v.2, w.2, 1) == 0,
        adj_product(u, v, w, u.0, v.0, w.0, 2) == 0,
        adj_product(u, v, w, u.1, v.1, w.1, 2) == 0,
{
    let (u0, u1, u2) = u;
    let (v0, v1, v2) = v;
    let (w0, w1, w2) = w;
    lemma_det_expanded(u, v, w);
    // diagonal entries
    lemma_term(v1, w2, v2, w1, u0);
    lemma_term(w1, u2, w2, u1, v0);
    lemma_term(u1, v2, u2, v1, w0);
    lemma_term(v2, w0, v0, w2, u1);
    lemma_term(w2, u0, w0, u2, v1);
    lemma_term(u2, v0, u0, v2, w1);
    lemma_term(v0, w1, v1, w0, u2);
    lemma_term(w0, u1, w1, u0, v2);
    lemma_term(u0, v1, u1, v0, w2);
    lemma_perm(u0, v1, w2);
    lemma_perm(u0, v2, w1);
    lemma_perm(u1, v2, w0);
    lemma_perm(u1, v0, w2);
    lemma_perm(u2, v0, w1);
    lemma_perm(u2, v1, w0);
    // off-diagonal entries cancel in pairs
    assert(u1 * (v1 * w2 - v2 * w1) + v1 * (w1 * u2 - w2 * u1) + w1 * (u1 * v2 - u2 * v1) == 0) by (nonlinear_arith);
    assert(u2 * (v1 * w2 - v2 * w1) + v2 * (w1 * u2 - w2 * u1) + w2 * (u1 * v2 - u2 * v1) == 0) by (nonlinear_arith);
    assert(u0 * (v2 * w0 - v0 * w2) + v0 * (w2 * u0 - w0 * u2) + w0 * (u2 * v0 - u0 * v2) == 0) by (nonlinear_arith);
    assert(u2 * (v2 * w0 - v0 * w2) + v2 * (w2 * u0 - w0 * u2) + w2 * (u2 * v0 - u0 * v2) == 0) by (nonlinear_arith);
    assert(u0 * (v0 * w1 - v1 * w0) + v0 * (w0 * u1 - w1 * u0) + w0 * (u0 * v1 - u1 * v0) == 0) by (nonlinear_arith);
    assert(u1 * (v0 * w1 - v1 * w0) + v1 * (w0 * u1 - w1 * u0) + w1 * (u0 * v1 - u1 * v0) == 0) by (nonlinear_arith);
}

proof fn lemma_scale3(d: int, a: int, b: int, c: int)
    ensures
        d * a + d * b + d * c == d * (a + b + c),
{
    vstd::arithmetic::mul::lemma_mul_is_distributive_add(d, a, b);
    vstd::arithmetic::mul::lemma_mul_is_distributive_add(d, a + b, c);
}

proof fn lemma_rdist3(a: int, b: int, c: int, k: int)
    ensures
        (a + b + c) * k == a * k + b * k + c * k,
{
    vstd::arithmetic::mul::lemma_mul_is_distributive_add_other_way(k, a + b, c);
    vstd::arithmetic::mul::lemma_mul_is_distributive_add_other_way(k, a, b);
}

proof fn lemma_assoc(a: int, b: int, c: int)
    ensures
        (a * b) * c == a * (b * c),
        a * (b * c) == b * (a * c),
{
    vstd::arithmetic::mul::lemma_mul_is_associative(a, b, c);
    vstd::arithmetic::mul::lemma_mul_is_associative(b, a, c);
    vstd::arithmetic::mul::lemma_mul_is_commutative(a, b);
}

proof fn lemma_dot_scaled(d: int, y0: int, y1: int, y2: int, c: Triple)
    ensures
        dot3((d * y0, d * y1, d * y2), c) == d * (y0 * c.0 + y1 * c.1 + y2 * c.2),
{
    lemma_assoc(d, y0, c.0);
    lemma_assoc(d, y1, c.1);
    lemma_assoc(d, y2, c.2);
    lemma_scale3(d, y0 * c.0, y1 * c.1, y2 * c.2);
}

proof fn lemma_combo_dot(b: Triple, p: Triple, q: Triple, r: Triple, c: Triple)
    ensures
        combo(b, p.0, q.0, r.0) * c.0 + combo(b, p.1, q.1, r.1) * c.1 + combo(b, p.2, q.2, r.2) * c.2 == b.0 * dot3(p, c)
            + b.1 * dot3(q, c) + b.2 * dot3(r, c),
{
    lemma_rdist3(b.0 * p.0, b.1 * q.0, b.2 * r.0, c.0);
    lemma_rdist3(b.0 * p.1, b.1 * q.1, b.2 * r.1, c.1);
    lemma_rdist3(b.0 * p.2, b.1 * q.2, b.2 * r.2, c.2);
    lemma_assoc(b.0, p.0, c.0);
    lemma_assoc(b.0, p.1, c.1);
    lemma_assoc(b.0, p.2, c.2);
    lemma_assoc(b.1, q.0, c.0);
    lemma_assoc(b.1, q.1, c.1);
    lemma_assoc(b.1, q.2, c.2);
    lemma_assoc(b.2, r.0, c.0);
    lemma_assoc(b.2, r.1, c.1);
    lemma_assoc(b.2, r.2, c.2);
    lemma_scale3(b.0, p.0 * c.0, p.1 * c.1, p.2 * c.2);
    lemma_scale3(b.1, q.0 * c.0, q.1 * c.1, q.2 * c.2);
    lemma_scale3(b.2, r.0 * c.0, r.1 * c.1, r.2 * c.2);
}

proof fn lemma_solve3_components(u: Triple, v: Triple, w: Triple, b: Triple)
    ensures
        ({
            let d = det3_spec(u, v, w);
            let p = cross3(v, w);
            let q = cross3(w, u);
            let r = cross3(u, v);
            solve3(u, v, w, b) == (d * combo(b, p.0, q.0, r.0), d * combo(b, p.1, q.1, r.1), d * combo(b, p.2, q.2, r.2))
        }),
{
    let d = det3_spec(u, v, w);
    let p = cross3(v, w);
    let q = cross3(w, u);
    let r = cross3(u, v);
    lemma_assoc(b.0, d, p.0);
    lemma_assoc(b.1, d, q.0);
    lemma_assoc(b.2, d, r.0);
    lemma_assoc(b.0, d, p.1);
    lemma_assoc(b.1, d, q.1);
    lemma_assoc(b.2, d, r.1);
    lemma_assoc(b.0, d, p.2);
    lemma_assoc(b.1, d, q.2);
    lemma_assoc(b.2, d, r.2);
    lemma_scale3(d, b.0 * p.0, b.1 * q.0, b.2 * r.0);
    lemma_scale3(d, b.0 * p.1, b.1 * q.1, b.2 * r.1);
    lemma_scale3(d, b.0 * p.2, b.1 * q.2, b.2 * r.2);
}

/// `combo` of the dot products of `y` with the columns, against the rows of the adjugate,
/// regrouped by the entries of `y`.
proof fn lemma_regroup_y(u: Triple, v: Triple, w: Triple, y: Triple, k: int)
    requires
        0 <= k < 3,
    ensures
        ({
            let p = cross3(v, w);
            let q = cross3(w, u);
            let r = cross3(u, v);
            let pk = if k == 0 { p.0 } else if k == 1 { p.1 } else { p.2 };
            let qk = if k == 0 { q.0 } else if k == 1 { q.1 } else { q.2 };
            let rk = if k == 0 { r.0 } else if k == 1 { r.1 } else { r.2 };
            combo((dot3(y, u), dot3(y, v), dot3(y, w)), pk, qk, rk) == y.0 * adj_product(u, v, w, u.0, v.0, w.0, k)
                + y.1 * adj_product(u, v, w, u.1, v.1, w.1, k) + y.2 * adj_product(u, v, w, u.2, v.2, w.2, k)
        }),
{
    let p = cross3(v, w);
    let q = cross3(w, u);
    let r = cross3(u, v);
    let pk = if k == 0 { p.0 } else if k == 1 { p.1 } else { p.2 };
    let qk = if k == 0 { q.0 } else if k == 1 { q.1 } else { q.2 };
    let rk = if k == 0 { r.0 } else if k == 1 { r.1 } else { r.2 };
    let (y0, y1, y2) = y;
    let (u0, u1, u2) = u;
    let (v0, v1, v2) = v;
    let (w0, w1, w2) = w;
    lemma_rdist3(y0 * u0, y1 * u1, y2 * u2, pk);
    lemma_rdist3(y0 * v0, y1 * v1, y2 * v2, qk);
    lemma_rdist3(y0 * w0, y1 * w1, y2 * w2, rk);
    lemma_assoc(y0, u0, pk);
    lemma_assoc(y1, u1, pk);
    lemma_assoc(y2, u2, pk);
    lemma_assoc(y0, v0, qk);
    lemma_assoc(y1, v1, qk);
    lemma_assoc(y2, v2, qk);
    lemma_assoc(y0, w0, rk);
    lemma_assoc(y1, w1, rk);
    lemma_assoc(y2, w2, rk);
    lemma_scale3(y0, u0 * pk, v0 * qk, w0 * rk);
    lemma_scale3(y1, u1 * pk, v1 * qk, w1 * rk);
    lemma_scale3(y2, u2 * pk, v2 * qk, w2 * rk);
}

/// For a unimodular matrix with columns `u`, `v`, `w`, the row vector `solve3(u, v, w, b)` is
/// the one and only `x` with `x . u == b.0`, `x . v == b.1` and `x . w == b.2`.
pub proof fn lemma_solve3(u: Triple, v: Triple, w: Triple, b: Triple)
    requires
        det3_spec(u, v, w) == 1 || det3_spec(u, v, w) == -1,
    ensures
        dot3(solve3(u, v, w, b), u) == b.0,
        dot3(solve3(u, v, w, b), v) == b.1,
        dot3(solve3(u, v, w, b), w) == b.2,
        forall|x: Triple| dot3(x, u) == b.0 && dot3(x, v) == b.1 && dot3(x, w) == b.2 ==> x == solve3(u, v, w, b),
{
    let d = det3_spec(u, v, w);
    let p = cross3(v, w);
    let q = cross3(w, u);
    let r = cross3(u, v);
    assert(d * d == 1) by (nonlinear_arith)
        requires
            d == 1 || d == -1,
    ;
    lemma_solve3_components(u, v, w, b);
    lemma_triple_products(u, v, w);
    let y0 = combo(b, p.0, q.0, r.0);
    let y1 = combo(b, p.1, q.1, r.1);
    let y2 = combo(b, p.2, q.2, r.2);
    lemma_dot_scaled(d, y0, y1, y2, u);
    lemma_dot_scaled(d, y0, y1, y2, v);
    lemma_dot_scaled(d, y0, y1, y2, w);
    lemma_combo_dot(b, p, q, r, u);
    lemma_combo_dot(b, p, q, r, v);
    lemma_combo_dot(b, p, q, r, w);
    assert(d * (b.0 * d + b.1 * 0 + b.2 * 0) == b.0) by (nonlinear_arith)
        requires
            d * d == 1,
    ;
    assert(d * (b.0 * 0 + b.1 * d + b.2 * 0) == b.1) by (nonlinear_arith)
        requires
            d * d == 1,
    ;
    assert(d * (b.0 * 0 + b.1 * 0 + b.2 * d) == b.2) by (nonlinear_arith)
        requires
            d * d == 1,
    ;
    assert forall|x: Triple| dot3(x, u) == b.0 && dot3(x, v) == b.1 && dot3(x, w) == b.2 implies x
        == solve3(u, v, w, b) by {
        lemma_adjugate(u, v, w);
        lemma_regroup_y(u, v, w, x, 0);
        lemma_regroup_y(u, v, w, x, 1);
        lemma_regroup_y(u, v, w, x, 2);
        assert((dot3(x, u), dot3(x, v), dot3(x, w)) == b);
        assert(y0 == x.0 * d + x.1 * 0 + x.2 * 0);
        assert(y1 == x.0 * 0 + x.1 * d + x.2 * 0);
        assert(y2 == x.0 * 0 + x.1 * 0 + x.2 * d);
        assert(d * (x.0 * d + x.1 * 0 + x.2 * 0) == x.0) by (nonlinear_arith)
            requires
                d * d == 1,
        ;
        assert(d * (x.0 * 0 + x.1 * d + x.2 * 0) == x.1) by (nonlinear_arith)
            requires
                d * d == 1,
        ;
        assert(d * (x.0 * 0 + x.1 * 0 + x.2 * d) == x.2) by (nonlinear_arith)
            requires
                d * d == 1,
        ;
    }
}

proof fn lemma_triple_products(u: Triple, v: Triple, w: Triple)
    ensures
        dot3(cross3(v, w), u) == det3_spec(u, v, w),
        dot3(cross3(w, u), v) == det3_spec(u, v, w),
        dot3(cross3(u, v), w) == det3_spec(u, v, w),
        dot3(cross3(v, w), v) == 0,
        dot3(cross3(v, w), w) == 0,
        dot3(cross3(w, u), w) == 0,
        dot3(cross3(w, u), u) == 0,
        dot3(cross3(u, v), u) == 0,
        dot3(cross3(u, v), v) == 0,
{
    lemma_adjugate(u, v, w);
    let (u0, u1, u2) = u;
    let (v0, v1, v2) = v;
    let (w0, w1, w2) = w;
    assert(dot3(cross3(v, w), u) == adj_product(u, v, w, u.0, v.0, w.0, 0) + 0 * 0) by {
        assert(dot3(cross3(v, w), u) == (v1 * w2 - v2 * w1) * u0 + (v2 * w0 - v0 * w2) * u1 + (v0 * w1 - v1 * w0) * u2);
        lemma_term(v1, w2, v2, w1, u0);
        lemma_term(v2, w0, v0, w2, u1);
        lemma_term(v0, w1, v1, w0, u2);
        lemma_det_expanded(u, v, w);
    }
    assert(dot3(cross3(w, u), v) == det3_spec(u, v, w)) by {
        lemma_term(w1, u2, w2, u1, v0);
        lemma_term(w2, u0, w0, u2, v1);
        lemma_term(w0, u1, w1, u0, v2);
        lemma_det_expanded(u, v, w);
        lemma_perm(u0, v1, w2);
        lemma_perm(u0, v2, w1);
        lemma_perm(u1, v2, w0);
        lemma_perm(u1, v0, w2);
        lemma_perm(u2, v0, w1);
        lemma_perm(u2, v1, w0);
    }
    assert(dot3(cross3(u, v), w) == det3_spec(u, v, w)) by {
        lemma_term(u1, v2, u2, v1, w0);
        lemma_term(u2, v0, u0, v2, w1);
        lemma_term(u0, v1, u1, v0, w2);
        lemma_det_expanded(u, v, w);
        lemma_perm(u0, v1, w2);
        lemma_perm(u0, v2, w1);
        lemma_perm(u1, v2, w0);
        lemma_perm(u1, v0, w2);
        lemma_perm(u2, v0, w1);
        lemma_perm(u2, v1, w0);
    }
    lemma_cross_orthogonal(v, w);
    lemma_cross_orthogonal(w, u);
    lemma_cross_orthogonal(u, v);
}

proof fn lemma_cross_orthogonal(a: Triple, b: Triple)
    ensures
        dot3(cross3(a, b), a) == 0,
        dot3(cross3(a, b), b) == 0,
{
    let (a0, a1, a2) = a;
    let (b0, b1, b2) = b;
    assert(dot3(cross3(a, b), a) == 0) by (nonlinear_arith)
        requires
            dot3(cross3(a, b), a) == (a1 * b2 - a2 * b1) * a0 + (a2 * b0 - a0 * b2) * a1 + (a0 * b1 - a1 * b0) * a2,
    ;
    assert(dot3(cross3(a, b), b) == 0) by (nonlinear_arith)
        requires
            dot3(cross3(a, b), b) == (a1 * b2 - a2 * b1) * b0 + (a2 * b0 - a0 * b2) * b1 + (a0 * b1 - a1 * b0) * b2,
    ;
}

/// Products of two `i32` values are at most `2^62` in size.
proof fn lemma_mul_i32_bound(a: int, b: int)
    requires
        -0x8000_0000 <= a <= 0x8000_0000,
        -0x8000_0000 <= b <= 0x8000_0000,
    ensures
        -0x4000_0000_0000_0000 <= a * b <= 0x4000_0000_0000_0000,
{
    assert(-0x4000_0000_0000_0000 <= a * b <= 0x4000_0000_0000_0000) by (nonlinear_arith)
        requires
            -0x8000_0000 <= a <= 0x8000_0000,
            -0x8000_0000 <= b <= 0x8000_0000,
    ;
}

/// A product of an `i32` value and a value at most `2^63` in size is at most `2^94` in size.
proof fn lemma_mul_wide_bound(a: int, b: int)
    requires
        -0x8000_0000 <= a <= 0x8000_0000,
        -0x8000_0000_0000_0000 <= b <= 0x8000_0000_0000_0000,
    ensures
        -0x4000_0000_0000_0000_0000_0000 <= a * b <= 0x4000_0000_0000_0000_0000_0000,
{
    assert(-0x4000_0000_0000_0000_0000_0000 <= a * b <= 0x4000_0000_0000_0000_0000_0000) by (nonlinear_arith)
        requires
            -0x8000_0000 <= a <= 0x8000_0000,
            -0x8000_0000_0000_0000 <= b <= 0x8000_0000_0000_0000,
    ;
}

/// The cross product of two `i32` triples, exactly, in `i128`.
fn cross_exec(a: &[i32], b: &[i32]) -> (r: [i128; 3])
    requires
        a@.len() == 3,
        b@.len() == 3,
    ensures
        (r[0] as int, r[1] as int, r[2] as int) == cross3(triple(a@), triple(b@)),
        forall|k: int| 0 <= k < 3 ==> -0x8000_0000_0000_0000 <= #[trigger] r@[k] <= 0x8000_0000_0000_0000,
{
    proof {
        lemma_mul_i32_bound(a[1] as int, b[2] as int);
        lemma_mul_i32_bound(a[2] as int, b[1] as int);
        lemma_mul_i32_bound(a[2] as int, b[0] as int);
        lemma_mul_i32_bound(a[0] as int, b[2] as int);
        lemma_mul_i32_bound(a[0] as int, b[1] as int);
        lemma_mul_i32_bound(a[1] as int, b[0] as int);
    }
    let r0 = (a[1] as i128) * (b[2] as i128) - (a[2] as i128) * (b[1] as i128);
    let r1 = (a[2] as i128) * (b[0] as i128) - (a[0] as i128) * (b[2] as i128);
    let r2 = (a[0] as i128) * (b[1] as i128) - (a[1] as i128) * (b[0] as i128);
    [r0, r1, r2]
}

/// The dot product of an `i32` triple with a triple of entries at most `2^63` in size.
fn dot_exec(a: &[i32], c: &[i128; 3]) -> (r: i128)
    requires
        a@.len() == 3,
        forall|k: int| 0 <= k < 3 ==> -0x8000_0000_0000_0000 <= #[trigger] c@[k] <= 0x8000_0000_0000_0000,
    ensures
        r == dot3(triple(a@), (c[0] as int, c[1] as int, c[2] as int)),
{
    proof {
        lemma_mul_wide_bound(a[0] as int, c[0] as int);
        lemma_mul_wide_bound(a[1] as int, c[1] as int);
        lemma_mul_wide_bound(a[2] as int, c[2] as int);
    }
    (a[0] as i128) * c[0] + (a[1] as i128) * c[1] + (a[2] as i128) * c[2]
}

/// The determinant of the three-by-three matrix with columns `c0`, `c1`, `c2`.
pub fn det3(c0: &[i32], c1: &[i32], c2: &[i32]) -> (r: i128)
    requires
        c0@.len() == 3,
        c1@.len() == 3,
        c2@.len() == 3,
    ensures
        r == det3_spec(triple(c0@), triple(c1@), triple(c2@)),
{
    let p = cross_exec(c1, c2);
    dot_exec(c0, &p)
}

/// The inverse of the unimodular matrix with columns `c0`, `c1`, `c2`, as its three columns.
pub fn unimodular_inv(c0: &[i32], c1: &[i32], c2: &[i32]) -> (r: [[i128; 3]; 3])
    requires
        c0@.len() == 3,
        c1@.len() == 3,
        c2@.len() == 3,
        det3_spec(triple(c0@), triple(c1@), triple(c2@)) == 1 || det3_spec(triple(c0@), triple(c1@), triple(c2@))
            == -1,
    ensures
        forall|k: int|
            0 <= k < 3 ==> (r[k][0] as int, r[k][1] as int, r[k][2] as int) == inv_column(
                triple(c0@),
                triple(c1@),
                triple(c2@),
                k,
            ),
        forall|k: int, j: int|
            0 <= k < 3 && 0 <= j < 3 ==> -0x8000_0000_0000_0000 <= #[trigger] r[k]@[j] <= 0x8000_0000_0000_0000,
{
    let d = det3(c0, c1, c2);
    let p = cross_exec(c1, c2);
    let q = cross_exec(c2, c0);
    let s = cross_exec(c0, c1);
    let r = [[d * p[0], d * q[0], d * s[0]], [d * p[1], d * q[1], d * s[1]], [d * p[2], d * q[2], d * s[2]]];
    assert(forall|k: int, j: int| 0 <= k < 3 && 0 <= j < 3 ==> -0x8000_0000_0000_0000 <= #[trigger] r[k]@[j] <= 0x8000_0000_0000_0000);
    r
}

/// The row vector `v` times the matrix with columns `m0`, `m1`, `m2`.
pub fn covector_times_matrix(v: &[i32], m0: &[i128; 3], m1: &[i128; 3], m2: &[i128; 3]) -> (r: [i128; 3])
    requires
        v@.len() == 3,
        forall|k: int| 0 <= k < 3 ==> -0x8000_0000_0000_0000 <= #[trigger] m0@[k] <= 0x8000_0000_0000_0000,
        forall|k: int| 0 <= k < 3 ==> -0x8000_0000_0000_0000 <= #[trigger] m1@[k] <= 0x8000_0000_0000_0000,
        forall|k: int| 0 <= k < 3 ==> -0x8000_0000_0000_0000 <= #[trigger] m2@[k] <= 0x8000_0000_0000_0000,
    ensures
        r[0] == dot3(triple(v@), (m0[0] as int, m0[1] as int, m0[2] as int)),
        r[1] == dot3(triple(v@), (m1[0] as int, m1[1] as int, m1[2] as int)),
        r[2] == dot3(triple(v@), (m2[0] as int, m2[1] as int, m2[2] as int)),
{
    [dot_exec(v, m0), dot_exec(v, m1), dot_exec(v, m2)]
}

} // verus!
