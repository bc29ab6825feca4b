//! Arithmetic helpers shared across the crate.

use vstd::prelude::*;

verus! {

/// Errors from scale constructions.
#[derive(Debug, Clone, Copy, PartialEq, Eq)]
pub enum ScaleError {
    /// The requested scale cannot be built from the given data.
    CannotMakeScale,
    /// The generator's step class is not coprime to the scale size.
    NonCoprimeGenError,
    /// The step class does not divide the scale size.
    NonDivisibleSubsetError,
}

/// The greatest common divisor by Euclid's algorithm, with `gcd(a, 0) == a`.
pub open spec fn spec_gcd(a: nat, b: nat) -> nat
    decreases b,
{
    if b == 0 {
        a
    } else {
        spec_gcd(b, a % b)
    }
}

/// Greatest common divisor of two `u32`s.
pub fn gcd(a: u32, b: u32) -> (r: u32)
    ensures
        r == spec_gcd(a as nat, b as nat),
    decreases b,
{
    if b == 0 {
        a
    } else {
        gcd(b, a % b)
    }
}

/// Greatest common divisor of two `u64`s.
pub fn gcd_u64(a: u64, b: u64) -> (r: u64)
    ensures
        r == spec_gcd(a as nat, b as nat),
    decreases b,
{
    if b == 0 {
        a
    } else {
        gcd_u64(b, a % b)
    }
}

/// Euclid's lemma: if `x` divides `y * z` and is coprime to `y`, it divides `z`.
pub proof fn lemma_coprime_divides(x: nat, y: nat, z: nat)
    requires
        x > 0,
        spec_gcd(x, y) == 1,
        (y * z) % x == 0,
    ensures
        z % x == 0,
{
    lemma_bezout(x, y);
    let (s, t) = bezout_coeffs(x, y);
    let m = (y * z) / x;
    vstd::arithmetic::div_mod::lemma_fundamental_div_mod((y * z) as int, x as int);
    assert(z as int == x as int * (z as int * s + m as int * t)) by (nonlinear_arith)
        requires
            x as int * s + y as int * t == 1,
            (y * z) as int == x as int * m as int,
    ;
    vstd::arithmetic::div_mod::lemma_mod_multiples_basic(z as int * s + m as int * t, x as int);
    assert(z as int % x as int == (x as int * (z as int * s + m as int * t)) % x as int);
    assert((z as int * s + m as int * t) * x as int == x as int * (z as int * s + m as int * t)) by (nonlinear_arith);
}

/// A fraction in lowest terms is the reduction of every fraction of the same value.
pub proof fn lemma_lowest_terms(x: nat, y: nat, xx: nat, yy: nat)
    requires
        x > 0,
        y > 0,
        xx > 0,
        yy > 0,
        spec_gcd(x, y) == 1,
        x * yy == xx * y,
    ensures
        x == xx / spec_gcd(xx, yy),
        y == yy / spec_gcd(xx, yy),
{
    let g = spec_gcd(xx, yy);
    lemma_gcd_positive(xx, yy);
    lemma_gcd_divides(xx, yy);
    lemma_gcd_quotients_coprime(xx, yy);
    let a = xx / g;
    let b = yy / g;
    vstd::arithmetic::div_mod::lemma_fundamental_div_mod(xx as int, g as int);
    vstd::arithmetic::div_mod::lemma_fundamental_div_mod(yy as int, g as int);
    assert(xx == g * a && yy == g * b);
    assert(x * b == a * y) by (nonlinear_arith)
        requires
            x * yy == xx * y,
            xx == g * a,
            yy == g * b,
            g > 0,
    ;
    assert(a > 0 && b > 0) by (nonlinear_arith)
        requires
            xx == g * a,
            yy == g * b,
            xx > 0,
            yy > 0,
    ;
    // x divides a * y with gcd(x, y) == 1, so x divides a; symmetrically a divides x
    vstd::arithmetic::div_mod::lemma_mod_multiples_basic(b as int, x as int);
    assert((y * a) % x == 0) by {
        assert(y * a == b * x) by (nonlinear_arith)
            requires
                x * b == a * y,
        ;
        vstd::arithmetic::div_mod::lemma_mod_multiples_basic(b as int, x as int);
    }
    lemma_coprime_divides(x, y, a);
    assert((b * x) % a == 0) by {
        assert(b * x == y * a) by (nonlinear_arith)
            requires
                x * b == a * y,
        ;
        vstd::arithmetic::div_mod::lemma_mod_multiples_basic(y as int, a as int);
    }
    lemma_gcd_symmetric(a, b);
    lemma_coprime_divides(a, b, x);
    // x and a divide each other
    vstd::arithmetic::div_mod::lemma_fundamental_div_mod(a as int, x as int);
    vstd::arithmetic::div_mod::lemma_fundamental_div_mod(x as int, a as int);
    let k1 = a / x;
    let k2 = x / a;
    assert(x == a) by (nonlinear_arith)
        requires
            a == x * k1,
            x == a * k2,
            x > 0,
            a > 0,
    ;
    assert(y == b) by (nonlinear_arith)
        requires
            x * b == a * y,
            x == a,
            x > 0,
    ;
}

/// Coefficients `(x, y)` with `a * x + b * y == spec_gcd(a, b)`, by the extended Euclidean algorithm.
pub open spec fn bezout_coeffs(a: nat, b: nat) -> (int, int)
    decreases b,
{
    if b == 0 {
        (1, 0)
    } else {
        let (x, y) = bezout_coeffs(b, a % b);
        (y, x - (a / b) as int * y)
    }
}

/// Bézout's identity.
pub proof fn lemma_bezout(a: nat, b: nat)
    ensures
        a as int * bezout_coeffs(a, b).0 + b as int * bezout_coeffs(a, b).1 == spec_gcd(a, b) as int,
    decreases b,
{
    if b > 0 {
        lemma_bezout(b, a % b);
        let (x, y) = bezout_coeffs(b, a % b);
        let q = (a / b) as int;
        let r = (a % b) as int;
        vstd::arithmetic::div_mod::lemma_fundamental_div_mod(a as int, b as int);
        assert(a as int == b as int * q + r);
        assert(a as int * y + b as int * (x - q * y) == b as int * x + r * y) by (nonlinear_arith)
            requires
                a as int == b as int * q + r,
        ;
        let c = bezout_coeffs(a, b);
        assert(c.0 == y && c.1 == x - q * y);
        assert(b as int * x + (a % b) as int * y == spec_gcd(b, a % b) as int);
        assert(a as int * c.0 + b as int * c.1 == b as int * x + r * y);
        assert(spec_gcd(a, b) == spec_gcd(b, a % b));
    } else {
        let c = bezout_coeffs(a, b);
        assert(c.0 == 1 && c.1 == 0);
        assert(a as int * c.0 + b as int * c.1 == a as int);
    }
}

/// `gcd(a, b)` divides both `a` and `b`.
pub proof fn lemma_gcd_divides(a: nat, b: nat)
    requires
        spec_gcd(a, b) > 0,
    ensures
        a % spec_gcd(a, b) == 0,
        b % spec_gcd(a, b) == 0,
    decreases b,
{
    let g = spec_gcd(a, b);
    if b == 0 {
        vstd::arithmetic::div_mod::lemma_mod_self_0(a as int);
    } else {
        lemma_gcd_divides(b, a % b);
        vstd::arithmetic::div_mod::lemma_fundamental_div_mod(a as int, b as int);
        let q = a / b;
        let r = a % b;
        assert(a == b * q + r);
        // g | b and g | r, hence g | b * q + r
        let kb = b / g;
        let kr = r / g;
        vstd::arithmetic::div_mod::lemma_fundamental_div_mod(b as int, g as int);
        vstd::arithmetic::div_mod::lemma_fundamental_div_mod(r as int, g as int);
        assert(a as int == (kb * q + kr) as int * g as int) by (nonlinear_arith)
            requires
                a == b * q + r,
                b as int == g as int * kb as int,
                r as int == g as int * kr as int,
        ;
        vstd::arithmetic::div_mod::lemma_mod_multiples_basic((kb * q + kr) as int, g as int);
    }
}

/// The gcd is positive unless both arguments are 0.
pub proof fn lemma_gcd_positive(a: nat, b: nat)
    ensures
        (a > 0 || b > 0) <==> spec_gcd(a, b) > 0,
    decreases b,
{
    if b > 0 {
        lemma_gcd_positive(b, a % b);
    }
}

/// `gcd(a, b) == gcd(b, a)`.
pub proof fn lemma_gcd_symmetric(a: nat, b: nat)
    ensures
        spec_gcd(a, b) == spec_gcd(b, a),
{
    if a > 0 && b > 0 {
        let g1 = spec_gcd(a, b);
        let g2 = spec_gcd(b, a);
        lemma_gcd_positive(a, b);
        lemma_gcd_positive(b, a);
        lemma_gcd_divides(a, b);
        lemma_gcd_divides(b, a);
        lemma_common_divisor_le_gcd(a, b, g2);
        lemma_common_divisor_le_gcd(b, a, g1);
    } else if a == 0 && b > 0 {
        vstd::arithmetic::div_mod::lemma_small_mod(0, b);
        assert(spec_gcd(b, 0) == b);
        assert(spec_gcd(0, b) == spec_gcd(b, 0nat % b));
    } else if b == 0 && a > 0 {
        vstd::arithmetic::div_mod::lemma_small_mod(0, a);
        assert(spec_gcd(0, a) == spec_gcd(a, 0nat % a));
    }
}

/// A common divisor of `a` and `b` divides `gcd(a, b)`; when the gcd is positive it is at most the gcd.
pub proof fn lemma_common_divisor_le_gcd(a: nat, b: nat, d: nat)
    requires
        d > 0,
        a % d == 0,
        b % d == 0,
        spec_gcd(a, b) > 0,
    ensures
        spec_gcd(a, b) % d == 0,
        d <= spec_gcd(a, b),
{
    lemma_common_divisor_divides_gcd(a, b, d);
    let g = spec_gcd(a, b);
    vstd::arithmetic::div_mod::lemma_fundamental_div_mod(g as int, d as int);
    let k = g / d;
    assert(g == d * k);
    if k == 0 {
        assert(d * k == 0) by (nonlinear_arith)
            requires
                k == 0,
        ;
    } else {
        assert(d * k >= d) by (nonlinear_arith)
            requires
                k >= 1,
        ;
    }
}

/// A common divisor of `a` and `b` divides `gcd(a, b)`.
pub proof fn lemma_common_divisor_divides_gcd(a: nat, b: nat, d: nat)
    requires
        d > 0,
        a % d == 0,
        b % d == 0,
    ensures
        spec_gcd(a, b) % d == 0,
    decreases b,
{
    if b > 0 {
        let q = a / b;
        let r = a % b;
        vstd::arithmetic::div_mod::lemma_fundamental_div_mod(a as int, b as int);
        vstd::arithmetic::div_mod::lemma_fundamental_div_mod(a as int, d as int);
        vstd::arithmetic::div_mod::lemma_fundamental_div_mod(b as int, d as int);
        let ka = a / d;
        let kb = b / d;
        assert(r as int == (ka as int - kb as int * q as int) * d as int) by (nonlinear_arith)
            requires
                a as int == b as int * q as int + r as int,
                a as int == d as int * ka as int,
                b as int == d as int * kb as int,
        ;
        vstd::arithmetic::div_mod::lemma_mod_multiples_basic(ka as int - kb as int * q as int, d as int);
        lemma_common_divisor_divides_gcd(b, r, d);
    }
}

/// After dividing by their gcd, two numbers are coprime.
pub proof fn lemma_gcd_quotients_coprime(a: nat, b: nat)
    requires
        spec_gcd(a, b) > 0,
    ensures
        spec_gcd(a / spec_gcd(a, b), b / spec_gcd(a, b)) == 1,
{
    let g = spec_gcd(a, b);
    lemma_gcd_divides(a, b);
    let a1 = a / g;
    let b1 = b / g;
    vstd::arithmetic::div_mod::lemma_fundamental_div_mod(a as int, g as int);
    vstd::arithmetic::div_mod::lemma_fundamental_div_mod(b as int, g as int);
    assert(a == g * a1 && b == g * b1);
    lemma_gcd_positive(a, b);
    assert(a1 > 0 || b1 > 0) by (nonlinear_arith)
        requires
            a == g * a1,
            b == g * b1,
            a > 0 || b > 0,
    ;
    lemma_gcd_positive(a1, b1);
    let h = spec_gcd(a1, b1);
    lemma_gcd_divides(a1, b1);
    vstd::arithmetic::div_mod::lemma_fundamental_div_mod(a1 as int, h as int);
    vstd::arithmetic::div_mod::lemma_fundamental_div_mod(b1 as int, h as int);
    let ka = a1 / h;
    let kb = b1 / h;
    // g * h divides a and b
    assert(a == (g * h) * ka && b == (g * h) * kb) by (nonlinear_arith)
        requires
            a == g * a1,
            b == g * b1,
            a1 == h * ka,
            b1 == h * kb,
    ;
    assert(g * h > 0) by (nonlinear_arith)
        requires
            g > 0,
            h > 0,
    ;
    vstd::arithmetic::div_mod::lemma_mod_multiples_basic(ka as int, (g * h) as int);
    vstd::arithmetic::div_mod::lemma_mod_multiples_basic(kb as int, (g * h) as int);
    assert(((g * h) * ka) % (g * h) == 0) by {
        vstd::arithmetic::mul::lemma_mul_is_commutative((g * h) as int, ka as int);
    }
    assert(((g * h) * kb) % (g * h) == 0) by {
        vstd::arithmetic::mul::lemma_mul_is_commutative((g * h) as int, kb as int);
    }
    lemma_common_divisor_le_gcd(a, b, g * h);
    assert(h <= 1) by (nonlinear_arith)
        requires
            g * h <= g,
            g > 0,
            h > 0,
    ;
}

/// `gcd(b, a + b) == gcd(a, b)`.
pub proof fn lemma_gcd_add(a: nat, b: nat)
    ensures
        spec_gcd(b, a + b) == spec_gcd(a, b),
{
    if b == 0 {
        lemma_gcd_symmetric(0, a);
        vstd::arithmetic::div_mod::lemma_small_mod(0, 1);
    } else {
        // gcd(b, a + b) == gcd(a + b, b) == gcd(b, (a + b) % b) == gcd(b, a % b) == gcd(a, b)
        lemma_gcd_symmetric(b, a + b);
        vstd::arithmetic::div_mod::lemma_mod_add_multiples_vanish(a as int, b as int);
        assert(spec_gcd(a + b, b) == spec_gcd(b, (a + b) % b));
        assert(spec_gcd(a, b) == spec_gcd(b, a % b));
    }
}

/// `x` is an inverse of `a` modulo `m`.
pub open spec fn is_inverse_mod(a: int, x: int, m: int) -> bool {
    0 <= x < m && (a * x) % m == 1int % m
}

/// A number coprime to `m` has an inverse modulo `m`.
pub proof fn lemma_inverse_exists(a: nat, m: nat)
    requires
        m > 0,
        spec_gcd(a, m) == 1,
    ensures
        exists|x: int| #[trigger] is_inverse_mod(a as int, x, m as int),
{
    lemma_bezout(a, m);
    let (x, y) = bezout_coeffs(a, m);
    let xm = x % (m as int);
    vstd::arithmetic::div_mod::lemma_mod_bound(x, m as int);
    // (a * x + m * y) % m == 1 % m and (m * y) % m == 0
    assert((a as int * x + m as int * y) % (m as int) == 1int % (m as int));
    vstd::arithmetic::div_mod::lemma_mod_multiples_vanish(y, a as int * x, m as int);
    assert((a as int * x) % (m as int) == 1int % (m as int));
    vstd::arithmetic::div_mod::lemma_mul_mod_noop_right(a as int, x, m as int);
    assert(is_inverse_mod(a as int, xm, m as int));
}

/// The least inverse of `a` modulo `m` that is at least `y` (or `m` if there is none).
pub open spec fn least_inverse_from(a: int, m: int, y: int) -> int
    decreases m - y,
{
    if y >= m {
        m
    } else if is_inverse_mod(a, y, m) {
        y
    } else {
        least_inverse_from(a, m, y + 1)
    }
}

/// The least inverse of `a` modulo `m` (or `m` if there is none).
pub open spec fn least_inverse(a: int, m: int) -> int {
    least_inverse_from(a, m, 0)
}

/// The search from `y` finds the least inverse at or after `y`.
pub proof fn lemma_least_inverse_from(a: int, m: int, y: int, x: int)
    requires
        0 <= y <= x,
        is_inverse_mod(a, x, m),
        forall|z: int| y <= z < x ==> !is_inverse_mod(a, z, m),
    ensures
        least_inverse_from(a, m, y) == x,
    decreases x - y,
{
    if y < x {
        lemma_least_inverse_from(a, m, y + 1, x);
    }
}

/// The search result lies between its start and `m`.
pub proof fn lemma_least_inverse_bound(a: int, m: int, y: int)
    requires
        0 <= y <= m,
    ensures
        y <= least_inverse_from(a, m, y) <= m,
    decreases m - y,
{
    if y < m && !is_inverse_mod(a, y, m) {
        lemma_least_inverse_bound(a, m, y + 1);
    }
}

/// The least inverse of `a` modulo `m`, if there is one.
pub fn modinv(a: i32, m: i32) -> (r: Option<i32>)
    requires
        a >= 0,
        m > 0,
    ensures
        match r {
            Some(x) => {
                &&& is_inverse_mod(a as int, x as int, m as int)
                &&& forall|y: int| 0 <= y < x ==> !is_inverse_mod(a as int, y, m as int)
                &&& x == least_inverse(a as int, m as int)
            },
            None => forall|y: int| !is_inverse_mod(a as int, y, m as int),
        },
{
    let target = 1 % m;
    let mut x: i32 = 0;
    while x < m
        invariant
            0 <= x <= m,
            a >= 0,
            m > 0,
            target == 1i32 % m,
            forall|y: int| 0 <= y < x ==> !is_inverse_mod(a as int, y, m as int),
        decreases m - x,
    {
        assert(0 <= a as int * x as int <= 0x7fff_ffff * 0x7fff_ffff) by (nonlinear_arith)
            requires
                0 <= a <= 0x7fff_ffff,
                0 <= x <= 0x7fff_ffff,
        ;
        let prod: i64 = (a as i64) * (x as i64);
        assert(prod == a as int * x as int);
        if prod % (m as i64) == target as i64 {
            proof {
                lemma_least_inverse_from(a as int, m as int, 0, x as int);
            }
            return Some(x);
        }
        x = x + 1;
    }
    None
}

// ---------------------------------------------------------------------------
// Bézout coefficients of a list of integers
// ---------------------------------------------------------------------------

/// The sign of an integer, with `sgn(0) == 1`.
pub open spec fn sgn(x: int) -> int {
    if x < 0 {
        -1
    } else {
        1
    }
}

/// The absolute value of an integer.
pub open spec fn iabs(x: int) -> nat {
    if x < 0 {
        (-x) as nat
    } else {
        x as nat
    }
}

/// The extended Euclidean coefficients are small: `|x| <= max(b, 1)` and `|y| <= max(a, 1)`.
pub proof fn lemma_bezout_bounds(a: nat, b: nat)
    ensures
        iabs(bezout_coeffs(a, b).0) <= if b >= 1 { b } else { 1 },
        iabs(bezout_coeffs(a, b).1) <= if a >= 1 { a } else { 1 },
    decreases b,
{
    if b > 0 {
        lemma_bezout_bounds(b, a % b);
        let r = a % b;
        let q = a / b;
        vstd::arithmetic::div_mod::lemma_fundamental_div_mod(a as int, b as int);
        let (x, y) = bezout_coeffs(b, r);
        assert(bezout_coeffs(a, b) == (y, x - q as int * y));
        if r == 0 {
            assert(bezout_coeffs(b, r) == (1int, 0int));
            assert(q as int * y == 0) by (nonlinear_arith)
                requires
                    y == 0,
            ;
            assert(x - q as int * y == 1);
        } else {
            assert(iabs(x - q * y) <= a) by (nonlinear_arith)
                requires
                    iabs(x) <= r,
                    iabs(y) <= b,
                    a == b * q + r,
                    q >= 0,
                    b >= 1,
                    r >= 1,
            ;
        }
    }
}

/// The greatest common divisor of `a` and `b` with coefficients `(g, x, y)`, `a x + b y == g`,
/// for `a, b <= 2^31`.
fn ext_gcd(a: u64, b: u64) -> (r: (u64, i64, i64))
    requires
        a <= 0x8000_0000,
        b <= 0x8000_0000,
    ensures
        r.0 == spec_gcd(a as nat, b as nat),
        r.1 == bezout_coeffs(a as nat, b as nat).0,
        r.2 == bezout_coeffs(a as nat, b as nat).1,
    decreases b,
{
    if b == 0 {
        (a, 1, 0)
    } else {
        let (g, x, y) = ext_gcd(b, a % b);
        proof {
            lemma_bezout_bounds(b as nat, (a % b) as nat);
        }
        let q = (a / b) as i64;
        assert(q * y <= 0x8000_0000 * 0x8000_0000 && q * y >= -0x8000_0000 * 0x8000_0000) by (nonlinear_arith)
            requires
                0 <= q <= 0x8000_0000,
                -0x8000_0000 <= y <= 0x8000_0000,
        ;
        (g, y, x - q * y)
    }
}

/// The Bézout data of a list of integers: their greatest common divisor (of absolute values)
/// and coefficients, found by folding the extended Euclidean algorithm over the list.
pub open spec fn bezout_list(cs: Seq<int>) -> (int, Seq<int>)
    decreases cs.len(),
{
    if cs.len() == 0 {
        (0, Seq::empty())
    } else if cs.len() == 1 {
        (iabs(cs[0]) as int, seq![sgn(cs[0])])
    } else {
        let (d0, xs0) = bezout_list(cs.drop_last());
        let c = cs.last();
        let (x, y) = bezout_coeffs(d0 as nat, iabs(c));
        (spec_gcd(d0 as nat, iabs(c)) as int, xs0.map_values(|v: int| v * x).push(sgn(c) * y))
    }
}

/// Every number the fold computes fits in an `i32`.
pub open spec fn bezout_list_fits(cs: Seq<int>) -> bool
    decreases cs.len(),
{
    if cs.len() == 0 {
        true
    } else if cs.len() == 1 {
        iabs(cs[0]) <= i32::MAX
    } else {
        let (d0, xs0) = bezout_list(cs.drop_last());
        let c = cs.last();
        let (x, y) = bezout_coeffs(d0 as nat, iabs(c));
        &&& bezout_list_fits(cs.drop_last())
        &&& iabs(c) <= 0x8000_0000
        &&& spec_gcd(d0 as nat, iabs(c)) <= i32::MAX
        &&& forall|i: int| 0 <= i < xs0.len() ==> #[trigger] (xs0[i] * x) >= i32::MIN && xs0[i] * x <= i32::MAX
        &&& i32::MIN <= sgn(c) * y <= i32::MAX
    }
}

/// The sum of `cs[i] * xs[i]` over the first `k` indices.
pub open spec fn dot_int(cs: Seq<int>, xs: Seq<int>, k: int) -> int
    decreases k,
{
    if k <= 0 {
        0
    } else {
        dot_int(cs, xs, k - 1) + cs[k - 1] * xs[k - 1]
    }
}

pub proof fn lemma_dot_int_scale(cs: Seq<int>, xs: Seq<int>, x: int, k: int)
    requires
        0 <= k <= xs.len(),
    ensures
        dot_int(cs, xs.map_values(|v: int| v * x), k) == dot_int(cs, xs, k) * x,
    decreases k,
{
    if k > 0 {
        lemma_dot_int_scale(cs, xs, x, k - 1);
        let a = dot_int(cs, xs, k - 1);
        let c = cs[k - 1];
        let v = xs[k - 1];
        assert(a * x + c * (v * x) == (a + c * v) * x) by (nonlinear_arith);
    }
}

proof fn lemma_dot_int_push(cs: Seq<int>, xs: Seq<int>, y: int, k: int)
    requires
        0 <= k <= xs.len(),
    ensures
        dot_int(cs, xs.push(y), k) == dot_int(cs, xs, k),
    decreases k,
{
    if k > 0 {
        lemma_dot_int_push(cs, xs, y, k - 1);
    }
}

proof fn lemma_dot_int_prefix(cs: Seq<int>, xs: Seq<int>, k: int)
    requires
        0 <= k <= cs.len() - 1,
    ensures
        dot_int(cs.drop_last(), xs, k) == dot_int(cs, xs, k),
    decreases k,
{
    if k > 0 {
        lemma_dot_int_prefix(cs, xs, k - 1);
    }
}

/// Bézout's identity for a list: the coefficients combine the list to its greatest common
/// divisor, which is not negative, and there is one coefficient for each entry.
pub proof fn lemma_bezout_list(cs: Seq<int>)
    ensures
        bezout_list(cs).1.len() == cs.len(),
        bezout_list(cs).0 >= 0,
        dot_int(cs, bezout_list(cs).1, cs.len() as int) == bezout_list(cs).0,
    decreases cs.len(),
{
    if cs.len() == 1 {
        let xs = bezout_list(cs).1;
        assert(dot_int(cs, xs, 1) == dot_int(cs, xs, 0) + cs[0] * xs[0]);
        assert(cs[0] * sgn(cs[0]) == iabs(cs[0])) by (nonlinear_arith);
    } else if cs.len() > 1 {
        let t = cs.drop_last();
        lemma_bezout_list(t);
        let (d0, xs0) = bezout_list(t);
        let c = cs.last();
        let (x, y) = bezout_coeffs(d0 as nat, iabs(c));
        lemma_bezout(d0 as nat, iabs(c));
        let xs = xs0.map_values(|v: int| v * x).push(sgn(c) * y);
        let n = cs.len() as int;
        lemma_dot_int_scale(t, xs0, x, n - 1);
        lemma_dot_int_push(t, xs0.map_values(|v: int| v * x), sgn(c) * y, n - 1);
        lemma_dot_int_prefix(cs, xs, n - 1);
        assert(dot_int(cs, xs, n) == dot_int(cs, xs, n - 1) + cs[n - 1] * xs[n - 1]);
        assert(xs[n - 1] == sgn(c) * y);
        assert(c * (sgn(c) * y) == iabs(c) as int * y) by (nonlinear_arith);
        assert(d0 as nat as int == d0);
    }
}

/// The greatest common divisor of the absolute values of `coeffs`, with coefficients that
/// combine `coeffs` to it.
pub fn bezout(coeffs: &[i32]) -> (r: (i32, Vec<i32>))
    requires
        bezout_list_fits(coeffs@.map_values(|c: i32| c as int)),
    ensures
        r.0 as int == bezout_list(coeffs@.map_values(|c: i32| c as int)).0,
        r.1@.map_values(|c: i32| c as int) == bezout_list(coeffs@.map_values(|c: i32| c as int)).1,
{
    let ghost cs = coeffs@.map_values(|c: i32| c as int);
    if coeffs.len() == 0 {
        let v: Vec<i32> = Vec::new();
        assert(v@.map_values(|c: i32| c as int) =~= Seq::<int>::empty());
        return (0, v);
    }
    let c0 = coeffs[0];
    proof {
        lemma_bezout_list_fits_prefix(cs, 1);
        assert(cs.subrange(0, 1).len() == 1);
        assert(cs.subrange(0, 1)[0] == c0);
    }
    let mut d: i32 = if c0 < 0 { -c0 } else { c0 };
    let mut xs: Vec<i32> = Vec::new();
    xs.push(if c0 < 0 { -1 } else { 1 });
    proof {
        assert(cs.subrange(0, 1) =~= seq![cs[0]]);
        assert(xs@.map_values(|c: i32| c as int) =~= seq![sgn(cs[0])]);
    }
    let mut k: usize = 1;
    while k < coeffs.len()
        invariant
            1 <= k <= coeffs@.len(),
            cs == coeffs@.map_values(|c: i32| c as int),
            bezout_list_fits(cs),
            d as int == bezout_list(cs.subrange(0, k as int)).0,
            xs@.map_values(|c: i32| c as int) == bezout_list(cs.subrange(0, k as int)).1,
            d >= 0,
        decreases coeffs@.len() - k,
    {
        let ghost pre = cs.subrange(0, k as int);
        let ghost next = cs.subrange(0, k + 1);
        proof {
            assert(next.drop_last() =~= pre);
            lemma_bezout_list_fits_prefix(cs, k + 1);
            lemma_bezout_list(pre);
        }
        let c = coeffs[k];
        let cabs: u64 = if c < 0 { (-(c as i64)) as u64 } else { c as u64 };
        let (g, x, y) = ext_gcd(d as u64, cabs);
        proof {
            lemma_bezout_bounds(d as nat, cabs as nat);
            assert(next.drop_last() == pre);
            assert(next.last() == c as int);
        }
        let mut new_xs: Vec<i32> = Vec::new();
        let mut i: usize = 0;
        let ghost xs0 = bezout_list(pre).1;
        while i < xs.len()
            invariant
                i <= xs@.len(),
                xs@.map_values(|c: i32| c as int) == xs0,
                forall|j: int| 0 <= j < xs0.len() ==> #[trigger] (xs0[j] * x) >= i32::MIN && xs0[j] * x <= i32::MAX,
                new_xs@.len() == i,
                forall|j: int| 0 <= j < i ==> #[trigger] new_xs@[j] as int == xs0[j] * x,
            decreases xs@.len() - i,
        {
            assert(xs0[i as int] == xs@[i as int] as int);
            let v = (xs[i] as i64 * x) as i32;
            new_xs.push(v);
            i = i + 1;
        }
        let last = if c < 0 { -y } else { y };
        new_xs.push(last as i32);
        proof {
            assert(new_xs@.map_values(|c: i32| c as int) =~= xs0.map_values(|v: int| v * x).push(sgn(c as int) * y));
        }
        d = g as i32;
        xs = new_xs;
        k = k + 1;
    }
    assert(cs.subrange(0, coeffs@.len() as int) =~= cs);
    (d, xs)
}

proof fn lemma_bezout_list_fits_prefix(cs: Seq<int>, k: int)
    requires
        bezout_list_fits(cs),
        1 <= k <= cs.len(),
    ensures
        bezout_list_fits(cs.subrange(0, k)),
    decreases cs.len() - k,
{
    if k < cs.len() {
        assert(cs.drop_last() =~= cs.subrange(0, cs.len() - 1));
        lemma_bezout_list_fits_prefix(cs.drop_last(), k);
        assert(cs.drop_last().subrange(0, k) =~= cs.subrange(0, k));
    } else {
        assert(cs.subrange(0, k) =~= cs);
    }
}

/// Whether every number of the Bézout fold over `coeffs` fits in an `i32`.
pub fn bezout_fits(coeffs: &[i32]) -> (r: bool)
    ensures
        r == bezout_list_fits(coeffs@.map_values(|c: i32| c as int)),
{
    let ghost cs = coeffs@.map_values(|c: i32| c as int);
    if coeffs.len() == 0 {
        return true;
    }
    let c0 = coeffs[0];
    proof {
        assert(cs.subrange(0, 1) =~= seq![cs[0]]);
    }
    if c0 == i32::MIN {
        proof {
            if bezout_list_fits(cs) {
                lemma_bezout_list_fits_prefix(cs, 1);
            }
        }
        return false;
    }
    let mut d: i32 = if c0 < 0 { -c0 } else { c0 };
    let mut xs: Vec<i32> = Vec::new();
    xs.push(if c0 < 0 { -1 } else { 1 });
    proof {
        assert(xs@.map_values(|c: i32| c as int) =~= seq![sgn(cs[0])]);
    }
    let mut k: usize = 1;
    while k < coeffs.len()
        invariant
            1 <= k <= coeffs@.len(),
            cs == coeffs@.map_values(|c: i32| c as int),
            bezout_list_fits(cs.subrange(0, k as int)),
            d as int == bezout_list(cs.subrange(0, k as int)).0,
            xs@.map_values(|c: i32| c as int) == bezout_list(cs.subrange(0, k as int)).1,
            d >= 0,
        decreases coeffs@.len() - k,
    {
        let ghost pre = cs.subrange(0, k as int);
        let ghost next = cs.subrange(0, k + 1);
        proof {
            assert(next.drop_last() =~= pre);
            lemma_bezout_list(pre);
        }
        let c = coeffs[k];
        let cabs: u64 = if c < 0 { (-(c as i64)) as u64 } else { c as u64 };
        let (g, x, y) = ext_gcd(d as u64, cabs);
        proof {
            lemma_bezout_bounds(d as nat, cabs as nat);
            assert(next.last() == c as int);
        }
        let ghost xs0 = bezout_list(pre).1;
        let mut ok = g <= 0x7fff_ffff;
        let last: i64 = if c < 0 { -y } else { y };
        if last < -0x8000_0000 || last > 0x7fff_ffff {
            ok = false;
        }
        let mut new_xs: Vec<i32> = Vec::new();
        let mut i: usize = 0;
        while i < xs.len()
            invariant
                i <= xs@.len(),
                xs@.map_values(|c: i32| c as int) == xs0,
                -0x8000_0000 <= x <= 0x8000_0000,
                new_xs@.len() == i,
                ok ==> forall|j: int| 0 <= j < i ==> #[trigger] new_xs@[j] as int == xs0[j] * x,
                ok ==> forall|j: int| 0 <= j < i ==> #[trigger] (xs0[j] * x) >= i32::MIN && xs0[j] * x <= i32::MAX,
                ok == (g <= 0x7fff_ffff && -0x8000_0000 <= last <= 0x7fff_ffff
                    && forall|j: int| 0 <= j < i ==> #[trigger] (xs0[j] * x) >= i32::MIN && xs0[j] * x <= i32::MAX),
            decreases xs@.len() - i,
        {
            assert(xs0[i as int] == xs@[i as int] as int);
            let xi = xs[i] as i64;
            assert(xi * x <= 0x8000_0000 * 0x8000_0000 && xi * x >= -0x8000_0000 * 0x8000_0000) by (nonlinear_arith)
                requires
                    -0x8000_0000 <= xi <= 0x7fff_ffff,
                    -0x8000_0000 <= x <= 0x8000_0000,
            ;
            let v: i64 = xi * x;
            if v < -0x8000_0000 || v > 0x7fff_ffff {
                ok = false;
                new_xs.push(0);
            } else {
                new_xs.push(v as i32);
            }
            i = i + 1;
        }
        proof {
            assert(bezout_list_fits(next) == (bezout_list_fits(pre) && iabs(c as int) <= 0x8000_0000
                && spec_gcd(d as nat, iabs(c as int)) <= i32::MAX
                && (forall|j: int| 0 <= j < xs0.len() ==> #[trigger] (xs0[j] * x) >= i32::MIN && xs0[j] * x <= i32::MAX)
                && i32::MIN <= sgn(c as int) * y <= i32::MAX));
            assert(iabs(c as int) == cabs);
        }
        if !ok {
            proof {
                assert(!bezout_list_fits(next));
                if bezout_list_fits(cs) {
                    lemma_bezout_list_fits_prefix(cs, k + 1);
                }
            }
            return false;
        }
        new_xs.push(last as i32);
        proof {
            assert(new_xs@.map_values(|c: i32| c as int) =~= xs0.map_values(|v: int| v * x).push(sgn(c as int) * y));
        }
        d = g as i32;
        xs = new_xs;
        k = k + 1;
    }
    assert(cs.subrange(0, coeffs@.len() as int) =~= cs);
    true
}

} // verus!
