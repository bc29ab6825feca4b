//! Just intonation ratios as reduced fractions of positive integers.

use vstd::prelude::*;

use crate::helpers::{gcd_u64, lemma_gcd_divides, lemma_gcd_positive, lemma_gcd_quotients_coprime, lemma_gcd_symmetric, lemma_lowest_terms, spec_gcd};
use crate::words::{Symbol, Trichotomy};

verus! {

// ---------------------------------------------------------------------------
// Fractions
// ---------------------------------------------------------------------------

/// A positive fraction in lowest terms.
pub open spec fn ratio_wf(v: (nat, nat)) -> bool {
    v.0 > 0 && v.1 > 0 && spec_gcd(v.0, v.1) == 1
}

/// The fraction `n/d` in lowest terms.
pub open spec fn reduce(n: nat, d: nat) -> (nat, nat) {
    (n / spec_gcd(n, d), d / spec_gcd(n, d))
}

/// The value of `a` is below the value of `b`.
pub open spec fn ratio_lt(a: (nat, nat), b: (nat, nat)) -> bool {
    a.0 * b.1 < b.0 * a.1
}

/// The product of two fractions, in lowest terms.
pub open spec fn ratio_mul(a: (nat, nat), b: (nat, nat)) -> (nat, nat) {
    reduce(a.0 * b.0, a.1 * b.1)
}

/// The quotient of two fractions, in lowest terms.
pub open spec fn ratio_div(a: (nat, nat), b: (nat, nat)) -> (nat, nat) {
    reduce(a.0 * b.1, a.1 * b.0)
}

/// Both parts fit in a `u32`.
pub open spec fn fits_u32(v: (nat, nat)) -> bool {
    v.0 <= u32::MAX && v.1 <= u32::MAX
}

/// Reducing a fraction of positive integers gives a fraction in lowest terms of the same value.
pub proof fn lemma_reduce(n: nat, d: nat)
    requires
        n > 0,
        d > 0,
    ensures
        spec_gcd(n, d) > 0,
        ratio_wf(reduce(n, d)),
        reduce(n, d).0 <= n,
        reduce(n, d).1 <= d,
        reduce(n, d).0 * d == n * reduce(n, d).1,
{
    let g = spec_gcd(n, d);
    lemma_gcd_positive(n, d);
    lemma_gcd_divides(n, d);
    lemma_gcd_quotients_coprime(n, d);
    vstd::arithmetic::div_mod::lemma_fundamental_div_mod(n as int, g as int);
    vstd::arithmetic::div_mod::lemma_fundamental_div_mod(d as int, g as int);
    let a = n / g;
    let b = d / g;
    assert(a > 0 && b > 0 && a <= n && b <= d && a * d == n * b) by (nonlinear_arith)
        requires
            n == g * a,
            d == g * b,
            n > 0,
            d > 0,
            g > 0,
    ;
}

/// A fraction in lowest terms is its own reduction.
pub proof fn lemma_reduce_wf(v: (nat, nat))
    requires
        ratio_wf(v),
    ensures
        reduce(v.0, v.1) == v,
{
    vstd::arithmetic::div_mod::lemma_div_basics_2(v.0 as int);
    vstd::arithmetic::div_mod::lemma_div_basics_2(v.1 as int);
}

// ---------------------------------------------------------------------------
// Errors
// ---------------------------------------------------------------------------

/// Error for an attempt to make a ratio with a zero numerator or denominator.
#[derive(Debug, Clone, Copy, PartialEq, Eq, Structural)]
pub struct IllegalJiRatio {
    numer: u32,
    denom: u32,
}

impl View for IllegalJiRatio {
    type V = (nat, nat);

    closed spec fn view(&self) -> (nat, nat) {
        (self.numer as nat, self.denom as nat)
    }
}

impl IllegalJiRatio {
    /// The numerator and denominator that were attempted.
    pub fn attempted(&self) -> (r: (u32, u32))
        ensures
            r.0 == self@.0 && r.1 == self@.1,
    {
        (self.numer, self.denom)
    }
}

/// Errors of JI interval arithmetic.
#[derive(Debug, Clone, Copy, PartialEq, Eq, Structural)]
pub enum BadJiArith {
    /// Logarithmic division by the unison.
    LogDivByUnison,
}

// ---------------------------------------------------------------------------
// Ratios
// ---------------------------------------------------------------------------

/// A just intonation ratio `numer/denom` in lowest terms.
#[derive(Debug, Clone, Copy, PartialEq, Eq, Structural)]
pub struct RawJiRatio {
    numer: u32,
    denom: u32,
}

impl View for RawJiRatio {
    type V = (nat, nat);

    closed spec fn view(&self) -> (nat, nat) {
        (self.numer as nat, self.denom as nat)
    }
}

impl RawJiRatio {
    /// Ratios are positive and in lowest terms.
    #[verifier::type_invariant]
    pub open spec fn inv(self) -> bool {
        ratio_wf(self@)
    }

    fn from_parts(numer: u32, denom: u32) -> (r: Self)
        requires
            ratio_wf((numer as nat, denom as nat)),
        ensures
            r@ == (numer as nat, denom as nat),
    {
        RawJiRatio { numer, denom }
    }

    /// The numerator.
    pub fn numer(&self) -> (r: u32)
        ensures
            r == self@.0,
    {
        self.numer
    }

    /// The denominator.
    pub fn denom(&self) -> (r: u32)
        ensures
            r == self@.1,
    {
        self.denom
    }

    /// Creates a ratio, reduced to lowest terms; a zero numerator or denominator is refused.
    pub fn try_new(numer: u32, denom: u32) -> (r: Result<RawJiRatio, IllegalJiRatio>)
        ensures
            match r {
                Ok(x) => numer > 0 && denom > 0 && x@ == reduce(numer as nat, denom as nat),
                Err(e) => (numer == 0 || denom == 0) && e@ == (numer as nat, denom as nat),
            },
    {
        if denom == 0 || numer == 0 {
            Err(IllegalJiRatio { numer, denom })
        } else {
            let d = gcd_u64(numer as u64, denom as u64);
            proof {
                lemma_reduce(numer as nat, denom as nat);
            }
            let n = (numer as u64 / d) as u32;
            let m = (denom as u64 / d) as u32;
            Ok(RawJiRatio::from_parts(n, m))
        }
    }

    /// The reciprocal.
    pub fn reciprocal(&self) -> (r: RawJiRatio)
        ensures
            r@ == (self@.1, self@.0),
    {
        proof {
            use_type_invariant(self);
            lemma_gcd_symmetric(self@.0, self@.1);
        }
        RawJiRatio::from_parts(self.denom, self.numer)
    }

    /// The `n`th harmonic `n/1`; the zeroth is refused.
    pub fn harm(n: u32) -> (r: Result<Self, IllegalJiRatio>)
        ensures
            match r {
                Ok(x) => n > 0 && x@ == (n as nat, 1nat),
                Err(e) => n == 0 && e@ == (0nat, 1nat),
            },
    {
        if n == 0 {
            Err(IllegalJiRatio { numer: 0, denom: 1 })
        } else {
            proof {
                lemma_gcd_one(n as nat);
            }
            Ok(RawJiRatio::from_parts(n, 1))
        }
    }
}


/// The views of a list of ratios.
pub open spec fn ratio_views(s: Seq<RawJiRatio>) -> Seq<(nat, nat)> {
    s.map_values(|x: RawJiRatio| x@)
}

/// A ratio given by a literal in lowest terms.
fn literal(numer: u32, denom: u32) -> (r: RawJiRatio)
    requires
        ratio_wf((numer as nat, denom as nat)),
    ensures
        r@ == (numer as nat, denom as nat),
{
    RawJiRatio::from_parts(numer, denom)
}

/// A list of ratios given by literals in lowest terms.
fn literals(parts: &[(u32, u32)]) -> (r: Vec<RawJiRatio>)
    requires
        forall|i: int| 0 <= i < parts@.len() ==> ratio_wf((#[trigger] parts@[i].0 as nat, parts@[i].1 as nat)),
    ensures
        ratio_views(r@) == parts@.map_values(|p: (u32, u32)| (p.0 as nat, p.1 as nat)),
{
    let mut r: Vec<RawJiRatio> = Vec::new();
    let mut i: usize = 0;
    while i < parts.len()
        invariant
            i <= parts@.len(),
            forall|q: int| 0 <= q < parts@.len() ==> ratio_wf((#[trigger] parts@[q].0 as nat, parts@[q].1 as nat)),
            ratio_views(r@) == parts@.subrange(0, i as int).map_values(|p: (u32, u32)| (p.0 as nat, p.1 as nat)),
        decreases parts@.len() - i,
    {
        let (n, d) = parts[i];
        let x = literal(n, d);
        let ghost before = ratio_views(r@);
        r.push(x);
        assert(parts@[i as int] == (n, d));
        assert(ratio_views(r@) =~= before.push(x@));
        assert(parts@.subrange(0, i + 1).map_values(|p: (u32, u32)| (p.0 as nat, p.1 as nat)) =~= parts@.subrange(0, i as int).map_values(|p: (u32, u32)| (p.0 as nat, p.1 as nat)).push((n as nat, d as nat)));
        assert(ratio_views(r@) =~= parts@.subrange(0, i + 1).map_values(|p: (u32, u32)| (p.0 as nat, p.1 as nat)));
        i = i + 1;
    }
    assert(parts@.subrange(0, parts@.len() as int) =~= parts@);
    r
}

impl RawJiRatio {
    /// 1/1, the unison.
    pub fn unison() -> (r: Self)
        ensures
            r@ == (1nat, 1nat),
    {
        proof {
            lemma_gcd_one(1);
        }
        literal(1, 1)
    }

    /// 2/1, the octave.
    pub fn octave() -> (r: Self)
        ensures
            r@ == (2nat, 1nat),
    {
        proof {
            lemma_gcd_one(2);
        }
        literal(2, 1)
    }

    /// 3/2, the Pythagorean perfect fifth.
    pub fn pyth_5th() -> (r: Self)
        ensures
            r@ == (3nat, 2nat),
    {
        proof {
            reveal_with_fuel(spec_gcd, 4);
        }
        literal(3, 2)
    }

    /// 4/3, the Pythagorean perfect fourth.
    pub fn pyth_4th() -> (r: Self)
        ensures
            r@ == (4nat, 3nat),
    {
        proof {
            reveal_with_fuel(spec_gcd, 4);
        }
        literal(4, 3)
    }

    /// 3/1, the tritave.
    pub fn tritave() -> (r: Self)
        ensures
            r@ == (3nat, 1nat),
    {
        proof {
            lemma_gcd_one(3);
        }
        literal(3, 1)
    }

    /// 5/4, the pental major third.
    pub fn pental_maj3() -> (r: Self)
        ensures
            r@ == (5nat, 4nat),
    {
        proof {
            reveal_with_fuel(spec_gcd, 4);
        }
        literal(5, 4)
    }

    /// 7/4, the harmonic seventh.
    pub fn septimal_min7() -> (r: Self)
        ensures
            r@ == (7nat, 4nat),
    {
        proof {
            reveal_with_fuel(spec_gcd, 4);
        }
        literal(7, 4)
    }

    /// The Pythagorean major pentatonic scale.
    pub fn pyth_5() -> (r: Vec<RawJiRatio>)
        ensures
            ratio_views(r@) == seq![(9nat, 8nat), (81nat, 64nat), (3nat, 2nat), (27nat, 16nat), (2nat, 1nat)],
    {
        let mut r: Vec<RawJiRatio> = Vec::new();
        proof {
            assert(spec_gcd(9, 8) == spec_gcd(8, 1));
            assert(spec_gcd(8, 1) == spec_gcd(1, 0));
            assert(spec_gcd(1, 0) == 1);
        }
        r.push(literal(9, 8));
        proof {
            assert(spec_gcd(81, 64) == spec_gcd(64, 17));
            assert(spec_gcd(64, 17) == spec_gcd(17, 13));
            assert(spec_gcd(17, 13) == spec_gcd(13, 4));
            assert(spec_gcd(13, 4) == spec_gcd(4, 1));
            assert(spec_gcd(4, 1) == spec_gcd(1, 0));
            assert(spec_gcd(1, 0) == 1);
        }
        r.push(literal(81, 64));
        proof {
            assert(spec_gcd(3, 2) == spec_gcd(2, 1));
            assert(spec_gcd(2, 1) == spec_gcd(1, 0));
            assert(spec_gcd(1, 0) == 1);
        }
        r.push(literal(3, 2));
        proof {
            assert(spec_gcd(27, 16) == spec_gcd(16, 11));
            assert(spec_gcd(16, 11) == spec_gcd(11, 5));
            assert(spec_gcd(11, 5) == spec_gcd(5, 1));
            assert(spec_gcd(5, 1) == spec_gcd(1, 0));
            assert(spec_gcd(1, 0) == 1);
        }
        r.push(literal(27, 16));
        proof {
            assert(spec_gcd(2, 1) == spec_gcd(1, 0));
            assert(spec_gcd(1, 0) == 1);
        }
        r.push(literal(2, 1));
        assert(ratio_views(r@) =~= seq![(9nat, 8nat), (81nat, 64nat), (3nat, 2nat), (27nat, 16nat), (2nat, 1nat)]);
        r
    }

    /// The Pythagorean Ionian mode.
    pub fn pyth_7() -> (r: Vec<RawJiRatio>)
        ensures
            ratio_views(r@) == seq![(9nat, 8nat), (81nat, 64nat), (4nat, 3nat), (3nat, 2nat), (27nat, 16nat), (243nat, 128nat), (2nat, 1nat)],
    {
        let mut r: Vec<RawJiRatio> = Vec::new();
        proof {
            assert(spec_gcd(9, 8) == spec_gcd(8, 1));
            assert(spec_gcd(8, 1) == spec_gcd(1, 0));
            assert(spec_gcd(1, 0) == 1);
        }
        r.push(literal(9, 8));
        proof {
            assert(spec_gcd(81, 64) == spec_gcd(64, 17));
            assert(spec_gcd(64, 17) == spec_gcd(17, 13));
            assert(spec_gcd(17, 13) == spec_gcd(13, 4));
            assert(spec_gcd(13, 4) == spec_gcd(4, 1));
            assert(spec_gcd(4, 1) == spec_gcd(1, 0));
            assert(spec_gcd(1, 0) == 1);
        }
        r.push(literal(81, 64));
        proof {
            assert(spec_gcd(4, 3) == spec_gcd(3, 1));
            assert(spec_gcd(3, 1) == spec_gcd(1, 0));
            assert(spec_gcd(1, 0) == 1);
        }
        r.push(literal(4, 3));
        proof {
            assert(spec_gcd(3, 2) == spec_gcd(2, 1));
            assert(spec_gcd(2, 1) == spec_gcd(1, 0));
            assert(spec_gcd(1, 0) == 1);
        }
        r.push(literal(3, 2));
        proof {
            assert(spec_gcd(27, 16) == spec_gcd(16, 11));
            assert(spec_gcd(16, 11) == spec_gcd(11, 5));
            assert(spec_gcd(11, 5) == spec_gcd(5, 1));
            assert(spec_gcd(5, 1) == spec_gcd(1, 0));
            assert(spec_gcd(1, 0) == 1);
        }
        r.push(literal(27, 16));
        proof {
            assert(spec_gcd(243, 128) == spec_gcd(128, 115));
            assert(spec_gcd(128, 115) == spec_gcd(115, 13));
            assert(spec_gcd(115, 13) == spec_gcd(13, 11));
            assert(spec_gcd(13, 11) == spec_gcd(11, 2));
            assert(spec_gcd(11, 2) == spec_gcd(2, 1));
            assert(spec_gcd(2, 1) == spec_gcd(1, 0));
            assert(spec_gcd(1, 0) == 1);
        }
        r.push(literal(243, 128));
        proof {
            assert(spec_gcd(2, 1) == spec_gcd(1, 0));
            assert(spec_gcd(1, 0) == 1);
        }
        r.push(literal(2, 1));
        assert(ratio_views(r@) =~= seq![(9nat, 8nat), (81nat, 64nat), (4nat, 3nat), (3nat, 2nat), (27nat, 16nat), (243nat, 128nat), (2nat, 1nat)]);
        r
    }

    /// The JI scale 12:14:16:18:21:24.
    pub fn tas_5() -> (r: Vec<RawJiRatio>)
        ensures
            ratio_views(r@) == seq![(7nat, 6nat), (4nat, 3nat), (3nat, 2nat), (7nat, 4nat), (2nat, 1nat)],
    {
        let mut r: Vec<RawJiRatio> = Vec::new();
        proof {
            assert(spec_gcd(7, 6) == spec_gcd(6, 1));
            assert(spec_gcd(6, 1) == spec_gcd(1, 0));
            assert(spec_gcd(1, 0) == 1);
        }
        r.push(literal(7, 6));
        proof {
            assert(spec_gcd(4, 3) == spec_gcd(3, 1));
            assert(spec_gcd(3, 1) == spec_gcd(1, 0));
            assert(spec_gcd(1, 0) == 1);
        }
        r.push(literal(4, 3));
        proof {
            assert(spec_gcd(3, 2) == spec_gcd(2, 1));
            assert(spec_gcd(2, 1) == spec_gcd(1, 0));
            assert(spec_gcd(1, 0) == 1);
        }
        r.push(literal(3, 2));
        proof {
            assert(spec_gcd(7, 4) == spec_gcd(4, 3));
            assert(spec_gcd(4, 3) == spec_gcd(3, 1));
            assert(spec_gcd(3, 1) == spec_gcd(1, 0));
            assert(spec_gcd(1, 0) == 1);
        }
        r.push(literal(7, 4));
        proof {
            assert(spec_gcd(2, 1) == spec_gcd(1, 0));
            assert(spec_gcd(1, 0) == 1);
        }
        r.push(literal(2, 1));
        assert(ratio_views(r@) =~= seq![(7nat, 6nat), (4nat, 3nat), (3nat, 2nat), (7nat, 4nat), (2nat, 1nat)]);
        r
    }

    /// The septal diasem scale.
    pub fn tas_9() -> (r: Vec<RawJiRatio>)
        ensures
            ratio_views(r@) == seq![(9nat, 8nat), (7nat, 6nat), (21nat, 16nat), (4nat, 3nat), (3nat, 2nat), (14nat, 9nat), (7nat, 4nat), (16nat, 9nat), (2nat, 1nat)],
    {
        let mut r: Vec<RawJiRatio> = Vec::new();
        proof {
            assert(spec_gcd(9, 8) == spec_gcd(8, 1));
            assert(spec_gcd(8, 1) == spec_gcd(1, 0));
            assert(spec_gcd(1, 0) == 1);
        }
        r.push(literal(9, 8));
        proof {
            assert(spec_gcd(7, 6) == spec_gcd(6, 1));
            assert(spec_gcd(6, 1) == spec_gcd(1, 0));
            assert(spec_gcd(1, 0) == 1);
        }
        r.push(literal(7, 6));
        proof {
            assert(spec_gcd(21, 16) == spec_gcd(16, 5));
            assert(spec_gcd(16, 5) == spec_gcd(5, 1));
            assert(spec_gcd(5, 1) == spec_gcd(1, 0));
            assert(spec_gcd(1, 0) == 1);
        }
        r.push(literal(21, 16));
        proof {
            assert(spec_gcd(4, 3) == spec_gcd(3, 1));
            assert(spec_gcd(3, 1) == spec_gcd(1, 0));
            assert(spec_gcd(1, 0) == 1);
        }
        r.push(literal(4, 3));
        proof {
            assert(spec_gcd(3, 2) == spec_gcd(2, 1));
            assert(spec_gcd(2, 1) == spec_gcd(1, 0));
            assert(spec_gcd(1, 0) == 1);
        }
        r.push(literal(3, 2));
        proof {
            assert(spec_gcd(14, 9) == spec_gcd(9, 5));
            assert(spec_gcd(9, 5) == spec_gcd(5, 4));
            assert(spec_gcd(5, 4) == spec_gcd(4, 1));
            assert(spec_gcd(4, 1) == spec_gcd(1, 0));
            assert(spec_gcd(1, 0) == 1);
        }
        r.push(literal(14, 9));
        proof {
            assert(spec_gcd(7, 4) == spec_gcd(4, 3));
            assert(spec_gcd(4, 3) == spec_gcd(3, 1));
            assert(spec_gcd(3, 1) == spec_gcd(1, 0));
            assert(spec_gcd(1, 0) == 1);
        }
        r.push(literal(7, 4));
        proof {
            assert(spec_gcd(16, 9) == spec_gcd(9, 7));
            assert(spec_gcd(9, 7) == spec_gcd(7, 2));
            assert(spec_gcd(7, 2) == spec_gcd(2, 1));
            assert(spec_gcd(2, 1) == spec_gcd(1, 0));
            assert(spec_gcd(1, 0) == 1);
        }
        r.push(literal(16, 9));
        proof {
            assert(spec_gcd(2, 1) == spec_gcd(1, 0));
            assert(spec_gcd(1, 0) == 1);
        }
        r.push(literal(2, 1));
        assert(ratio_views(r@) =~= seq![(9nat, 8nat), (7nat, 6nat), (21nat, 16nat), (4nat, 3nat), (3nat, 2nat), (14nat, 9nat), (7nat, 4nat), (16nat, 9nat), (2nat, 1nat)]);
        r
    }

    /// The pental blackdye scale.
    pub fn blackdye() -> (r: Vec<RawJiRatio>)
        ensures
            ratio_views(r@) == seq![(10nat, 9nat), (9nat, 8nat), (6nat, 5nat), (4nat, 3nat), (27nat, 20nat), (3nat, 2nat), (8nat, 5nat), (16nat, 9nat), (9nat, 5nat), (2nat, 1nat)],
    {
        let mut r: Vec<RawJiRatio> = Vec::new();
        proof {
            assert(spec_gcd(10, 9) == spec_gcd(9, 1));
            assert(spec_gcd(9, 1) == spec_gcd(1, 0));
            assert(spec_gcd(1, 0) == 1);
        }
        r.push(literal(10, 9));
        proof {
            assert(spec_gcd(9, 8) == spec_gcd(8, 1));
            assert(spec_gcd(8, 1) == spec_gcd(1, 0));
            assert(spec_gcd(1, 0) == 1);
        }
        r.push(literal(9, 8));
        proof {
            assert(spec_gcd(6, 5) == spec_gcd(5, 1));
            assert(spec_gcd(5, 1) == spec_gcd(1, 0));
            assert(spec_gcd(1, 0) == 1);
        }
        r.push(literal(6, 5));
        proof {
            assert(spec_gcd(4, 3) == spec_gcd(3, 1));
            assert(spec_gcd(3, 1) == spec_gcd(1, 0));
            assert(spec_gcd(1, 0) == 1);
        }
        r.push(literal(4, 3));
        proof {
            assert(spec_gcd(27, 20) == spec_gcd(20, 7));
            assert(spec_gcd(20, 7) == spec_gcd(7, 6));
            assert(spec_gcd(7, 6) == spec_gcd(6, 1));
            assert(spec_gcd(6, 1) == spec_gcd(1, 0));
            assert(spec_gcd(1, 0) == 1);
        }
        r.push(literal(27, 20));
        proof {
            assert(spec_gcd(3, 2) == spec_gcd(2, 1));
            assert(spec_gcd(2, 1) == spec_gcd(1, 0));
            assert(spec_gcd(1, 0) == 1);
        }
        r.push(literal(3, 2));
        proof {
            assert(spec_gcd(8, 5) == spec_gcd(5, 3));
            assert(spec_gcd(5, 3) == spec_gcd(3, 2));
            assert(spec_gcd(3, 2) == spec_gcd(2, 1));
            assert(spec_gcd(2, 1) == spec_gcd(1, 0));
            assert(spec_gcd(1, 0) == 1);
        }
        r.push(literal(8, 5));
        proof {
            assert(spec_gcd(16, 9) == spec_gcd(9, 7));
            assert(spec_gcd(9, 7) == spec_gcd(7, 2));
            assert(spec_gcd(7, 2) == spec_gcd(2, 1));
            assert(spec_gcd(2, 1) == spec_gcd(1, 0));
            assert(spec_gcd(1, 0) == 1);
        }
        r.push(literal(16, 9));
        proof {
            assert(spec_gcd(9, 5) == spec_gcd(5, 4));
            assert(spec_gcd(5, 4) == spec_gcd(4, 1));
            assert(spec_gcd(4, 1) == spec_gcd(1, 0));
            assert(spec_gcd(1, 0) == 1);
        }
        r.push(literal(9, 5));
        proof {
            assert(spec_gcd(2, 1) == spec_gcd(1, 0));
            assert(spec_gcd(1, 0) == 1);
        }
        r.push(literal(2, 1));
        assert(ratio_views(r@) =~= seq![(10nat, 9nat), (9nat, 8nat), (6nat, 5nat), (4nat, 3nat), (27nat, 20nat), (3nat, 2nat), (8nat, 5nat), (16nat, 9nat), (9nat, 5nat), (2nat, 1nat)]);
        r
    }

    /// The pental Zarlino scale, aka Ptolemy's intense diatonic.
    pub fn zarlino() -> (r: Vec<RawJiRatio>)
        ensures
            ratio_views(r@) == seq![(9nat, 8nat), (5nat, 4nat), (4nat, 3nat), (3nat, 2nat), (5nat, 3nat), (15nat, 8nat), (2nat, 1nat)],
    {
        let mut r: Vec<RawJiRatio> = Vec::new();
        proof {
            assert(spec_gcd(9, 8) == spec_gcd(8, 1));
            assert(spec_gcd(8, 1) == spec_gcd(1, 0));
            assert(spec_gcd(1, 0) == 1);
        }
        r.push(literal(9, 8));
        proof {
            assert(spec_gcd(5, 4) == spec_gcd(4, 1));
            assert(spec_gcd(4, 1) == spec_gcd(1, 0));
            assert(spec_gcd(1, 0) == 1);
        }
        r.push(literal(5, 4));
        proof {
            assert(spec_gcd(4, 3) == spec_gcd(3, 1));
            assert(spec_gcd(3, 1) == spec_gcd(1, 0));
            assert(spec_gcd(1, 0) == 1);
        }
        r.push(literal(4, 3));
        proof {
            assert(spec_gcd(3, 2) == spec_gcd(2, 1));
            assert(spec_gcd(2, 1) == spec_gcd(1, 0));
            assert(spec_gcd(1, 0) == 1);
        }
        r.push(literal(3, 2));
        proof {
            assert(spec_gcd(5, 3) == spec_gcd(3, 2));
            assert(spec_gcd(3, 2) == spec_gcd(2, 1));
            assert(spec_gcd(2, 1) == spec_gcd(1, 0));
            assert(spec_gcd(1, 0) == 1);
        }
        r.push(literal(5, 3));
        proof {
            assert(spec_gcd(15, 8) == spec_gcd(8, 7));
            assert(spec_gcd(8, 7) == spec_gcd(7, 1));
            assert(spec_gcd(7, 1) == spec_gcd(1, 0));
            assert(spec_gcd(1, 0) == 1);
        }
        r.push(literal(15, 8));
        proof {
            assert(spec_gcd(2, 1) == spec_gcd(1, 0));
            assert(spec_gcd(1, 0) == 1);
        }
        r.push(literal(2, 1));
        assert(ratio_views(r@) =~= seq![(9nat, 8nat), (5nat, 4nat), (4nat, 3nat), (3nat, 2nat), (5nat, 3nat), (15nat, 8nat), (2nat, 1nat)]);
        r
    }

    /// The septal version of Zarlino, modifying Pythagorean intervals by 64/63 rather than flattening them by 81/80.
    pub fn archylino() -> (r: Vec<RawJiRatio>)
        ensures
            ratio_views(r@) == seq![(9nat, 8nat), (9nat, 7nat), (4nat, 3nat), (3nat, 2nat), (12nat, 7nat), (27nat, 14nat), (2nat, 1nat)],
    {
        let mut r: Vec<RawJiRatio> = Vec::new();
        proof {
            assert(spec_gcd(9, 8) == spec_gcd(8, 1));
            assert(spec_gcd(8, 1) == spec_gcd(1, 0));
            assert(spec_gcd(1, 0) == 1);
        }
        r.push(literal(9, 8));
        proof {
            assert(spec_gcd(9, 7) == spec_gcd(7, 2));
            assert(spec_gcd(7, 2) == spec_gcd(2, 1));
            assert(spec_gcd(2, 1) == spec_gcd(1, 0));
            assert(spec_gcd(1, 0) == 1);
        }
        r.push(literal(9, 7));
        proof {
            assert(spec_gcd(4, 3) == spec_gcd(3, 1));
            assert(spec_gcd(3, 1) == spec_gcd(1, 0));
            assert(spec_gcd(1, 0) == 1);
        }
        r.push(literal(4, 3));
        proof {
            assert(spec_gcd(3, 2) == spec_gcd(2, 1));
            assert(spec_gcd(2, 1) == spec_gcd(1, 0));
            assert(spec_gcd(1, 0) == 1);
        }
        r.push(literal(3, 2));
        proof {
            assert(spec_gcd(12, 7) == spec_gcd(7, 5));
            assert(spec_gcd(7, 5) == spec_gcd(5, 2));
            assert(spec_gcd(5, 2) == spec_gcd(2, 1));
            assert(spec_gcd(2, 1) == spec_gcd(1, 0));
            assert(spec_gcd(1, 0) == 1);
        }
        r.push(literal(12, 7));
        proof {
            assert(spec_gcd(27, 14) == spec_gcd(14, 13));
            assert(spec_gcd(14, 13) == spec_gcd(13, 1));
            assert(spec_gcd(13, 1) == spec_gcd(1, 0));
            assert(spec_gcd(1, 0) == 1);
        }
        r.push(literal(27, 14));
        proof {
            assert(spec_gcd(2, 1) == spec_gcd(1, 0));
            assert(spec_gcd(1, 0) == 1);
        }
        r.push(literal(2, 1));
        assert(ratio_views(r@) =~= seq![(9nat, 8nat), (9nat, 7nat), (4nat, 3nat), (3nat, 2nat), (12nat, 7nat), (27nat, 14nat), (2nat, 1nat)]);
        r
    }

    /// Zhea Erose's Eurybia scale.
    pub fn eurybia() -> (r: Vec<RawJiRatio>)
        ensures
            ratio_views(r@) == seq![(23nat, 22nat), (25nat, 22nat), (13nat, 11nat), (14nat, 11nat), (15nat, 11nat), (31nat, 22nat), (3nat, 2nat), (35nat, 22nat), (37nat, 22nat), (39nat, 22nat), (21nat, 11nat), (2nat, 1nat)],
    {
        let mut r: Vec<RawJiRatio> = Vec::new();
        proof {
            assert(spec_gcd(23, 22) == spec_gcd(22, 1));
            assert(spec_gcd(22, 1) == spec_gcd(1, 0));
            assert(spec_gcd(1, 0) == 1);
        }
        r.push(literal(23, 22));
        proof {
            assert(spec_gcd(25, 22) == spec_gcd(22, 3));
            assert(spec_gcd(22, 3) == spec_gcd(3, 1));
            assert(spec_gcd(3, 1) == spec_gcd(1, 0));
            assert(spec_gcd(1, 0) == 1);
        }
        r.push(literal(25, 22));
        proof {
            assert(spec_gcd(13, 11) == spec_gcd(11, 2));
            assert(spec_gcd(11, 2) == spec_gcd(2, 1));
            assert(spec_gcd(2, 1) == spec_gcd(1, 0));
            assert(spec_gcd(1, 0) == 1);
        }
        r.push(literal(13, 11));
        proof {
            assert(spec_gcd(14, 11) == spec_gcd(11, 3));
            assert(spec_gcd(11, 3) == spec_gcd(3, 2));
            assert(spec_gcd(3, 2) == spec_gcd(2, 1));
            assert(spec_gcd(2, 1) == spec_gcd(1, 0));
            assert(spec_gcd(1, 0) == 1);
        }
        r.push(literal(14, 11));
        proof {
            assert(spec_gcd(15, 11) == spec_gcd(11, 4));
            assert(spec_gcd(11, 4) == spec_gcd(4, 3));
            assert(spec_gcd(4, 3) == spec_gcd(3, 1));
            assert(spec_gcd(3, 1) == spec_gcd(1, 0));
            assert(spec_gcd(1, 0) == 1);
        }
        r.push(literal(15, 11));
        proof {
            assert(spec_gcd(31, 22) == spec_gcd(22, 9));
            assert(spec_gcd(22, 9) == spec_gcd(9, 4));
            assert(spec_gcd(9, 4) == spec_gcd(4, 1));
            assert(spec_gcd(4, 1) == spec_gcd(1, 0));
            assert(spec_gcd(1, 0) == 1);
        }
        r.push(literal(31, 22));
        proof {
            assert(spec_gcd(3, 2) == spec_gcd(2, 1));
            assert(spec_gcd(2, 1) == spec_gcd(1, 0));
            assert(spec_gcd(1, 0) == 1);
        }
        r.push(literal(3, 2));
        proof {
            assert(spec_gcd(35, 22) == spec_gcd(22, 13));
            assert(spec_gcd(22, 13) == spec_gcd(13, 9));
            assert(spec_gcd(13, 9) == spec_gcd(9, 4));
            assert(spec_gcd(9, 4) == spec_gcd(4, 1));
            assert(spec_gcd(4, 1) == spec_gcd(1, 0));
            assert(spec_gcd(1, 0) == 1);
        }
        r.push(literal(35, 22));
        proof {
            assert(spec_gcd(37, 22) == spec_gcd(22, 15));
            assert(spec_gcd(22, 15) == spec_gcd(15, 7));
            assert(spec_gcd(15, 7) == spec_gcd(7, 1));
            assert(spec_gcd(7, 1) == spec_gcd(1, 0));
            assert(spec_gcd(1, 0) == 1);
        }
        r.push(literal(37, 22));
        proof {
            assert(spec_gcd(39, 22) == spec_gcd(22, 17));
            assert(spec_gcd(22, 17) == spec_gcd(17, 5));
            assert(spec_gcd(17, 5) == spec_gcd(5, 2));
            assert(spec_gcd(5, 2) == spec_gcd(2, 1));
            assert(spec_gcd(2, 1) == spec_gcd(1, 0));
            assert(spec_gcd(1, 0) == 1);
        }
        r.push(literal(39, 22));
        proof {
            assert(spec_gcd(21, 11) == spec_gcd(11, 10));
            assert(spec_gcd(11, 10) == spec_gcd(10, 1));
            assert(spec_gcd(10, 1) == spec_gcd(1, 0));
            assert(spec_gcd(1, 0) == 1);
        }
        r.push(literal(21, 11));
        proof {
            assert(spec_gcd(2, 1) == spec_gcd(1, 0));
            assert(spec_gcd(1, 0) == 1);
        }
        r.push(literal(2, 1));
        assert(ratio_views(r@) =~= seq![(23nat, 22nat), (25nat, 22nat), (13nat, 11nat), (14nat, 11nat), (15nat, 11nat), (31nat, 22nat), (3nat, 2nat), (35nat, 22nat), (37nat, 22nat), (39nat, 22nat), (21nat, 11nat), (2nat, 1nat)]);
        r
    }

    /// 11/8, the harmonic half-sharp fourth.
    pub fn semiaugmented_4th() -> (r: Self)
        ensures
            r@ == (11nat, 8nat),
    {
        proof {
            reveal_with_fuel(spec_gcd, 5);
        }
        literal(11, 8)
    }
}


// ---------------------------------------------------------------------------
// Order
// ---------------------------------------------------------------------------

/// A strict total order on pairs that is the order of values on fractions in lowest terms
/// (which come before all other pairs, ordered lexicographically).
pub open spec fn ratio_order(a: (nat, nat), b: (nat, nat)) -> bool {
    if ratio_wf(a) && ratio_wf(b) {
        ratio_lt(a, b)
    } else if ratio_wf(a) {
        true
    } else if ratio_wf(b) {
        false
    } else {
        a.0 < b.0 || (a.0 == b.0 && a.1 < b.1)
    }
}

/// The order of values is transitive.
pub proof fn lemma_ratio_lt_transitive(a: (nat, nat), b: (nat, nat), c: (nat, nat))
    requires
        a.1 > 0,
        b.1 > 0,
        c.1 > 0,
        ratio_lt(a, b),
        ratio_lt(b, c),
    ensures
        ratio_lt(a, c),
{
    assert(a.0 * c.1 < c.0 * a.1) by (nonlinear_arith)
        requires
            a.0 * b.1 < b.0 * a.1,
            b.0 * c.1 < c.0 * b.1,
            a.1 > 0,
            b.1 > 0,
            c.1 > 0,
    ;
}

/// Fractions in lowest terms of the same value are equal.
pub proof fn lemma_ratio_eq(a: (nat, nat), b: (nat, nat))
    requires
        ratio_wf(a),
        ratio_wf(b),
        a.0 * b.1 == b.0 * a.1,
    ensures
        a == b,
{
    lemma_reduce_wf(b);
    lemma_lowest_terms(a.0, a.1, b.0, b.1);
}

impl Symbol for RawJiRatio {
    type Model = (nat, nat);

    open spec fn model(&self) -> (nat, nat) {
        self@
    }

    open spec fn model_lt(a: (nat, nat), b: (nat, nat)) -> bool {
        ratio_order(a, b)
    }

    proof fn lemma_lt_irreflexive(a: (nat, nat)) {
    }

    proof fn lemma_lt_transitive(a: (nat, nat), b: (nat, nat), c: (nat, nat)) {
        if ratio_wf(a) && ratio_wf(b) && ratio_wf(c) {
            lemma_ratio_lt_transitive(a, b, c);
        }
    }

    proof fn lemma_lt_total(a: (nat, nat), b: (nat, nat)) {
        if ratio_wf(a) && ratio_wf(b) && !ratio_lt(a, b) && !ratio_lt(b, a) {
            lemma_ratio_eq(a, b);
        }
    }

    fn duplicate(&self) -> (r: Self) {
        *self
    }

    fn compare(&self, other: &Self) -> (r: Trichotomy) {
        proof {
            use_type_invariant(self);
            use_type_invariant(other);
        }
        let lhs = wide_mul(self.numer, other.denom);
        let rhs = wide_mul(other.numer, self.denom);
        if lhs < rhs {
            Trichotomy::Less
        } else if lhs == rhs {
            proof {
                lemma_ratio_eq(self@, other@);
            }
            Trichotomy::Equal
        } else {
            Trichotomy::Greater
        }
    }
}

impl RawJiRatio {
    /// Whether the value of `self` is below that of `other`.
    pub fn less_than(&self, other: &Self) -> (r: bool)
        ensures
            r == ratio_lt(self@, other@),
    {
        wide_mul(self.numer, other.denom) < wide_mul(other.numer, self.denom)
    }
}

// ---------------------------------------------------------------------------
// Arithmetic
// ---------------------------------------------------------------------------

/// The exact product of two `u32`s.
fn wide_mul(a: u32, b: u32) -> (r: u64)
    ensures
        r == a * b,
{
    assert(a as nat * b as nat <= u32::MAX as nat * u32::MAX as nat) by (nonlinear_arith)
        requires
            a <= u32::MAX,
            b <= u32::MAX,
    ;
    assert(4294967295nat * 4294967295nat == 18446744065119617025nat) by (nonlinear_arith);
    a as u64 * b as u64
}

/// The fraction `n/d` of positive numbers that fit in `u32`, reduced.
fn reduced(n: u64, d: u64) -> (r: RawJiRatio)
    requires
        0 < n <= u32::MAX,
        0 < d <= u32::MAX,
    ensures
        r@ == reduce(n as nat, d as nat),
{
    proof {
        lemma_reduce(n as nat, d as nat);
    }
    let g = gcd_u64(n, d);
    RawJiRatio::from_parts((n / g) as u32, (d / g) as u32)
}

/// The checked product: none when an unreduced part overflows a `u32`.
pub open spec fn checked_mul_spec(a: (nat, nat), b: (nat, nat)) -> Option<(nat, nat)> {
    if a.0 * b.0 <= u32::MAX && a.1 * b.1 <= u32::MAX {
        Some(ratio_mul(a, b))
    } else {
        None
    }
}

/// The checked quotient: none when an unreduced part overflows a `u32`.
pub open spec fn checked_div_spec(a: (nat, nat), b: (nat, nat)) -> Option<(nat, nat)> {
    if a.0 * b.1 <= u32::MAX && a.1 * b.0 <= u32::MAX {
        Some(ratio_div(a, b))
    } else {
        None
    }
}

/// The checked product of a list from the unison, multiplying in turn; none at the first overflow.
pub open spec fn checked_product_spec(s: Seq<(nat, nat)>) -> Option<(nat, nat)>
    decreases s.len(),
{
    if s.len() == 0 {
        Some((1nat, 1nat))
    } else {
        match checked_product_spec(s.drop_last()) {
            Some(p) => checked_mul_spec(p, s.last()),
            None => None,
        }
    }
}

/// `v` multiplied into the unison `k` times, checked.
pub open spec fn checked_pow_up(v: (nat, nat), k: nat) -> Option<(nat, nat)>
    decreases k,
{
    if k == 0 {
        Some((1nat, 1nat))
    } else {
        match checked_pow_up(v, (k - 1) as nat) {
            Some(p) => checked_mul_spec(p, v),
            None => None,
        }
    }
}

/// The unison divided by `v` `k` times, checked.
pub open spec fn checked_pow_down(v: (nat, nat), k: nat) -> Option<(nat, nat)>
    decreases k,
{
    if k == 0 {
        Some((1nat, 1nat))
    } else {
        match checked_pow_down(v, (k - 1) as nat) {
            Some(p) => checked_div_spec(p, v),
            None => None,
        }
    }
}

impl RawJiRatio {
    /// The product, reduced. The unreduced parts must fit in `u32`.
    pub fn mul(self, other: Self) -> (r: Self)
        requires
            self@.0 * other@.0 <= u32::MAX,
            self@.1 * other@.1 <= u32::MAX,
        ensures
            r@ == ratio_mul(self@, other@),
    {
        proof {
            use_type_invariant(&self);
            use_type_invariant(&other);
            assert(self@.0 * other@.0 > 0 && self@.1 * other@.1 > 0) by (nonlinear_arith)
                requires
                    self@.0 > 0,
                    self@.1 > 0,
                    other@.0 > 0,
                    other@.1 > 0,
            ;
        }
        reduced(wide_mul(self.numer, other.numer), wide_mul(self.denom, other.denom))
    }

    /// In-place product.
    pub fn mul_assign(&mut self, other: Self)
        requires
            old(self)@.0 * other@.0 <= u32::MAX,
            old(self)@.1 * other@.1 <= u32::MAX,
        ensures
            final(self)@ == ratio_mul(old(self)@, other@),
    {
        *self = self.mul(other);
    }

    /// The quotient, reduced. The unreduced parts must fit in `u32`.
    pub fn div(self, other: Self) -> (r: Self)
        requires
            self@.0 * other@.1 <= u32::MAX,
            self@.1 * other@.0 <= u32::MAX,
        ensures
            r@ == ratio_div(self@, other@),
    {
        proof {
            use_type_invariant(&self);
            use_type_invariant(&other);
            assert(self@.0 * other@.1 > 0 && self@.1 * other@.0 > 0) by (nonlinear_arith)
                requires
                    self@.0 > 0,
                    self@.1 > 0,
                    other@.0 > 0,
                    other@.1 > 0,
            ;
        }
        reduced(wide_mul(self.numer, other.denom), wide_mul(self.denom, other.numer))
    }

    /// In-place quotient.
    pub fn div_assign(&mut self, other: Self)
        requires
            old(self)@.0 * other@.1 <= u32::MAX,
            old(self)@.1 * other@.0 <= u32::MAX,
        ensures
            final(self)@ == ratio_div(old(self)@, other@),
    {
        *self = self.div(other);
    }

    /// The product, or `None` when an unreduced part overflows a `u32`.
    pub fn checked_mul(&self, other: &Self) -> (r: Option<Self>)
        ensures
            match r {
                Some(x) => checked_mul_spec(self@, other@) == Some(x@),
                None => checked_mul_spec(self@, other@) is None,
            },
    {
        let n = wide_mul(self.numer, other.numer);
        let d = wide_mul(self.denom, other.denom);
        if n > u32::MAX as u64 || d > u32::MAX as u64 {
            None
        } else {
            Some(self.mul(*other))
        }
    }

    /// The quotient, or `None` when an unreduced part overflows a `u32`.
    pub fn checked_div(&self, other: &Self) -> (r: Option<Self>)
        ensures
            match r {
                Some(x) => checked_div_spec(self@, other@) == Some(x@),
                None => checked_div_spec(self@, other@) is None,
            },
    {
        let n = wide_mul(self.numer, other.denom);
        let d = wide_mul(self.denom, other.numer);
        if n > u32::MAX as u64 || d > u32::MAX as u64 {
            None
        } else {
            Some(self.div(*other))
        }
    }

    /// The product of all ratios from the unison, or `None` if a multiplication overflows.
    pub fn checked_product(ratios: &[RawJiRatio]) -> (r: Option<Self>)
        ensures
            match r {
                Some(x) => checked_product_spec(ratio_views(ratios@)) == Some(x@),
                None => checked_product_spec(ratio_views(ratios@)) is None,
            },
    {
        let ghost vs = ratio_views(ratios@);
        let mut acc = RawJiRatio::unison();
        let mut i: usize = 0;
        while i < ratios.len()
            invariant
                i <= ratios@.len(),
                vs == ratio_views(ratios@),
                checked_product_spec(vs.subrange(0, i as int)) == Some(acc@),
            decreases ratios@.len() - i,
        {
            assert(vs.subrange(0, i + 1).drop_last() =~= vs.subrange(0, i as int));
            assert(vs.subrange(0, i + 1).last() == ratios@[i as int]@);
            match acc.checked_mul(&ratios[i]) {
                Some(x) => {
                    acc = x;
                },
                None => {
                    proof {
                        lemma_checked_product_none(vs, i as int + 1);
                    }
                    return None;
                },
            }
            i = i + 1;
        }
        assert(vs.subrange(0, ratios@.len() as int) =~= vs);
        Some(acc)
    }

    /// `self` raised to the power `n`, or `None` if a step overflows: for `n >= 0` the unison
    /// multiplied by `self` `n` times, for `n < 0` divided by `self` `-n` times.
    pub fn checked_pow(&self, n: i32) -> (r: Option<Self>)
        requires
            n != i32::MIN,
        ensures
            n >= 0 ==> match r {
                Some(x) => checked_pow_up(self@, n as nat) == Some(x@),
                None => checked_pow_up(self@, n as nat) is None,
            },
            n < 0 ==> match r {
                Some(x) => checked_pow_down(self@, (-n) as nat) == Some(x@),
                None => checked_pow_down(self@, (-n) as nat) is None,
            },
    {
        let mut acc = RawJiRatio::unison();
        if n >= 0 {
            let mut k: i32 = 0;
            while k < n
                invariant
                    0 <= k <= n,
                    checked_pow_up(self@, k as nat) == Some(acc@),
                decreases n - k,
            {
                match acc.checked_mul(self) {
                    Some(x) => {
                        acc = x;
                    },
                    None => {
                        proof {
                            lemma_checked_pow_up_none(self@, (k + 1) as nat, n as nat);
                        }
                        return None;
                    },
                }
                k = k + 1;
            }
            Some(acc)
        } else {
            let m = -n;
            let mut k: i32 = 0;
            while k < m
                invariant
                    0 <= k <= m,
                    m == -n,
                    checked_pow_down(self@, k as nat) == Some(acc@),
                decreases m - k,
            {
                match acc.checked_div(self) {
                    Some(x) => {
                        acc = x;
                    },
                    None => {
                        proof {
                            lemma_checked_pow_down_none(self@, (k + 1) as nat, m as nat);
                        }
                        return None;
                    },
                }
                k = k + 1;
            }
            Some(acc)
        }
    }

    /// `self` raised to the power `n`: the unison multiplied by `self` `n` times
    /// (the unison for `n <= 0`). No step may overflow.
    pub fn pow(self, n: i32) -> (r: Self)
        requires
            n > 0 ==> checked_pow_up(self@, n as nat) is Some,
        ensures
            n <= 0 ==> r@ == (1nat, 1nat),
            n > 0 ==> checked_pow_up(self@, n as nat) == Some(r@),
    {
        let mut acc = RawJiRatio::unison();
        let mut k: i32 = 0;
        while k < n
            invariant
                0 <= k,
                n > 0 ==> k <= n,
                n > 0 ==> checked_pow_up(self@, n as nat) is Some,
                checked_pow_up(self@, k as nat) == Some(acc@),
                n <= 0 ==> acc@ == (1nat, 1nat),
            decreases n - k,
        {
            proof {
                lemma_checked_pow_up_some(self@, (k + 1) as nat, n as nat);
            }
            match acc.checked_mul(&self) {
                Some(x) => {
                    acc = x;
                },
                None => {
                    proof {
                        assert(false);
                    }
                },
            }
            k = k + 1;
        }
        acc
    }

    /// Stack two intervals: the product.
    pub fn stack(self, rhs: Self) -> (r: Self)
        requires
            self@.0 * rhs@.0 <= u32::MAX,
            self@.1 * rhs@.1 <= u32::MAX,
        ensures
            r@ == ratio_mul(self@, rhs@),
    {
        self.mul(rhs)
    }

    /// Unstack `rhs` from `self`: the quotient.
    pub fn unstack(self, rhs: Self) -> (r: Self)
        requires
            self@.0 * rhs@.1 <= u32::MAX,
            self@.1 * rhs@.0 <= u32::MAX,
        ensures
            r@ == ratio_div(self@, rhs@),
    {
        self.div(rhs)
    }

    /// The logarithmic inverse: the reciprocal.
    pub fn log_inv(self) -> (r: Self)
        ensures
            r@ == (self@.1, self@.0),
    {
        self.reciprocal()
    }

    /// The logarithmic absolute value: the reciprocal of a ratio below the unison, otherwise the ratio.
    pub fn magnitude(self) -> (r: Self)
        ensures
            r@ == if self@.0 < self@.1 { (self@.1, self@.0) } else { self@ },
    {
        if self.numer < self.denom {
            self.reciprocal()
        } else {
            self
        }
    }
}

proof fn lemma_checked_product_none(s: Seq<(nat, nat)>, i: int)
    requires
        0 < i <= s.len(),
        checked_product_spec(s.subrange(0, i)) is None,
    ensures
        checked_product_spec(s) is None,
    decreases s.len() - i,
{
    if i < s.len() {
        assert(s.subrange(0, i + 1).drop_last() =~= s.subrange(0, i));
        lemma_checked_product_none(s, i + 1);
    } else {
        assert(s.subrange(0, i) =~= s);
    }
}

proof fn lemma_checked_pow_up_none(v: (nat, nat), k: nat, n: nat)
    requires
        k <= n,
        checked_pow_up(v, k) is None,
    ensures
        checked_pow_up(v, n) is None,
    decreases n - k,
{
    if k < n {
        lemma_checked_pow_up_none(v, k + 1, n);
    }
}

proof fn lemma_checked_pow_down_none(v: (nat, nat), k: nat, n: nat)
    requires
        k <= n,
        checked_pow_down(v, k) is None,
    ensures
        checked_pow_down(v, n) is None,
    decreases n - k,
{
    if k < n {
        lemma_checked_pow_down_none(v, k + 1, n);
    }
}

proof fn lemma_checked_pow_up_some(v: (nat, nat), k: nat, n: nat)
    requires
        k <= n,
        checked_pow_up(v, n) is Some,
    ensures
        checked_pow_up(v, k) is Some,
{
    if checked_pow_up(v, k) is None {
        lemma_checked_pow_up_none(v, k, n);
    }
}


// ---------------------------------------------------------------------------
// Reduction modulo an equave
// ---------------------------------------------------------------------------

/// `x` to the power `k`.
pub open spec fn pw(x: nat, k: nat) -> nat
    decreases k,
{
    if k == 0 {
        1
    } else {
        x * pw(x, (k - 1) as nat)
    }
}

/// The equave taken upward: the ratio or its reciprocal, whichever is at least the unison.
pub open spec fn upward(e: (nat, nat)) -> (nat, nat) {
    if e.0 < e.1 {
        (e.1, e.0)
    } else {
        e
    }
}

/// `v` lowered by `k` equaves `e`, unreduced.
pub open spec fn down_by(v: (nat, nat), e: (nat, nat), k: nat) -> (nat, nat) {
    (v.0 * pw(e.1, k), v.1 * pw(e.0, k))
}

/// `v` raised by `k` equaves `e`, unreduced.
pub open spec fn up_by(v: (nat, nat), e: (nat, nat), k: nat) -> (nat, nat) {
    (v.0 * pw(e.0, k), v.1 * pw(e.1, k))
}

/// Every ratio that the reduction of `v` modulo `equave` passes through fits in `u32`:
/// `v` lowered by equaves while it is not below the equave, or raised while it is below the unison.
pub open spec fn rd_fits(v: (nat, nat), equave: (nat, nat)) -> bool {
    let e = upward(equave);
    if !ratio_lt(v, (1nat, 1nat)) {
        forall|k: nat| #![trigger down_by(v, e, k)]
            (forall|j: nat| j < k ==> !ratio_lt(#[trigger] down_by(v, e, j), e)) ==> fits_u32(reduce(down_by(v, e, k).0, down_by(v, e, k).1))
    } else {
        forall|k: nat| #![trigger up_by(v, e, k)]
            (forall|j: nat| j < k ==> ratio_lt(#[trigger] up_by(v, e, j), (1nat, 1nat))) ==> fits_u32(reduce(up_by(v, e, k).0, up_by(v, e, k).1))
    }
}

/// `r` is `v` reduced modulo the equave: at least the unison, below the equave taken upward,
/// and of the value of `v` times a whole power of the equave.
pub open spec fn is_equave_reduction(r: (nat, nat), v: (nat, nat), equave: (nat, nat)) -> bool {
    let e = upward(equave);
    &&& ratio_wf(r)
    &&& !ratio_lt(r, (1nat, 1nat))
    &&& ratio_lt(r, e)
    &&& exists|k: nat| #![trigger pw(e.0, k)]
        r.0 * down_by(v, e, k).1 == down_by(v, e, k).0 * r.1 || r.0 * up_by(v, e, k).1 == up_by(v, e, k).0 * r.1
}

pub proof fn lemma_pw_pos(x: nat, k: nat)
    requires
        x >= 1,
    ensures
        pw(x, k) >= 1,
    decreases k,
{
    if k > 0 {
        lemma_pw_pos(x, (k - 1) as nat);
        assert(x * pw(x, (k - 1) as nat) >= 1) by (nonlinear_arith)
            requires
                x >= 1,
                pw(x, (k - 1) as nat) >= 1,
        ;
    }
}

/// Bernoulli's inequality in the form `(a/b)^n >= 1 + n/b`.
proof fn lemma_bernoulli(a: nat, b: nat, n: nat)
    requires
        a > b >= 1,
    ensures
        pw(a, n) * b >= pw(b, n) * (b + n),
    decreases n,
{
    if n > 0 {
        let m = (n - 1) as nat;
        lemma_bernoulli(a, b, m);
        lemma_pw_pos(b, m);
        let pa = pw(a, m);
        let pb = pw(b, m);
        assert(a * pa * b >= b * pb * (b + n)) by (nonlinear_arith)
            requires
                pa * b >= pb * (b + m),
                a >= b + 1,
                pb >= 1,
                n == m + 1,
        ;
    }
}

/// The number of equaves that a ratio `p/q` passes is below `p * b` (going down) or `q * b` (going up).
proof fn lemma_steps_bound(a: nat, b: nat, c: nat, m: nat)
    requires
        a > b >= 1,
        pw(a, m) <= c * pw(b, m),
    ensures
        m + b <= c * b,
{
    lemma_bernoulli(a, b, m);
    lemma_pw_pos(b, m);
    let pa = pw(a, m);
    let pb = pw(b, m);
    assert(m + b <= c * b) by (nonlinear_arith)
        requires
            pa * b >= pb * (b + m),
            pa <= c * pb,
            pb >= 1,
            b >= 1,
    ;
}

/// The order of values depends only on the values.
proof fn lemma_ratio_lt_same_value(x: (nat, nat), d: (nat, nat), e: (nat, nat))
    requires
        x.1 > 0,
        d.1 > 0,
        x.0 * d.1 == d.0 * x.1,
    ensures
        ratio_lt(x, e) == ratio_lt(d, e),
        ratio_lt(e, x) == ratio_lt(e, d),
{
    assert(ratio_lt(x, e) == ratio_lt(d, e)) by (nonlinear_arith)
        requires
            x.1 > 0,
            d.1 > 0,
            x.0 * d.1 == d.0 * x.1,
    ;
    assert(ratio_lt(e, x) == ratio_lt(e, d)) by (nonlinear_arith)
        requires
            x.1 > 0,
            d.1 > 0,
            x.0 * d.1 == d.0 * x.1,
    ;
}

/// One step of the reduction keeps the current ratio the reduction of the unreduced one.
proof fn lemma_rd_step(x: nat, y: nat, d: (nat, nat), s: nat, t: nat, nx: nat, ny: nat)
    requires
        x > 0,
        y > 0,
        d.0 > 0,
        d.1 > 0,
        s > 0,
        t > 0,
        x * d.1 == d.0 * y,
        ratio_wf((nx, ny)),
        nx * (y * t) == (x * s) * ny,
    ensures
        nx * (d.1 * t) == (d.0 * s) * ny,
        (nx, ny) == reduce(d.0 * s, d.1 * t),
{
    assert(nx * (d.1 * t) == (d.0 * s) * ny) by (nonlinear_arith)
        requires
            x * d.1 == d.0 * y,
            nx * (y * t) == (x * s) * ny,
            y > 0,
    ;
    assert(d.0 * s > 0 && d.1 * t > 0) by (nonlinear_arith)
        requires
            d.0 > 0,
            d.1 > 0,
            s > 0,
            t > 0,
    ;
    lemma_lowest_terms(nx, ny, d.0 * s, d.1 * t);
}

impl RawJiRatio {
    /// `self` reduced modulo an equave that is not the unison.
    fn reduce_mod(self, equave: Self) -> (r: Self)
        requires
            equave@ != (1nat, 1nat),
            rd_fits(self@, equave@),
        ensures
            is_equave_reduction(r@, self@, equave@),
    {
        proof {
            use_type_invariant(&self);
            use_type_invariant(&equave);
            lemma_gcd_one(1);
            if equave@.0 == equave@.1 {
                lemma_ratio_eq(equave@, (1nat, 1nat));
            }
        }
        let e = if equave.numer < equave.denom { equave.reciprocal() } else { equave };
        let ghost ev = upward(equave@);
        assert(e@ == ev);
        let a = e.numer;
        let b = e.denom;
        let ghost v = self@;
        let ghost p = v.0;
        let ghost q = v.1;
        let mut x: u32 = self.numer;
        let mut y: u32 = self.denom;
        let ghost mut k: nat = 0;
        proof {
            lemma_reduce_wf(v);
            assert(pw(ev.0, 0) == 1 && pw(ev.1, 0) == 1);
            assert(v.0 * pw(ev.1, 0) == v.0 && v.1 * pw(ev.0, 0) == v.1 && v.0 * pw(ev.0, 0) == v.0 && v.1 * pw(ev.1, 0) == v.1) by (nonlinear_arith)
                requires
                    pw(ev.0, 0) == 1,
                    pw(ev.1, 0) == 1,
            ;
            assert(down_by(v, ev, 0) == v);
            assert(up_by(v, ev, 0) == v);
            assert(v == (x as nat, y as nat));
            assert(x >= y ==> !ratio_lt(v, (1nat, 1nat))) by (nonlinear_arith)
                requires
                    v == (x as nat, y as nat),
            ;
            assert(x < y ==> ratio_lt(v, (1nat, 1nat))) by (nonlinear_arith)
                requires
                    v == (x as nat, y as nat),
            ;
            assert(x < y ==> ratio_lt((x as nat, y as nat), ev)) by (nonlinear_arith)
                requires
                    ev == (a as nat, b as nat),
                    a > b,
                    b >= 1,
            ;
        }
        if x >= y {
            // lower by equaves while not below the equave
            while wide_mul(x, b) >= wide_mul(a, y)
                invariant
                    a > b >= 1,
                    ev == (a as nat, b as nat),
                    v == (p, q),
                    p > 0 && q > 0,
                    rd_fits(v, equave@),
                    ev == upward(equave@),
                    !ratio_lt(v, (1nat, 1nat)),
                    ratio_wf((x as nat, y as nat)),
                    !ratio_lt((x as nat, y as nat), (1nat, 1nat)),
                    x as nat * down_by(v, ev, k).1 == down_by(v, ev, k).0 * y as nat,
                    down_by(v, ev, k).0 > 0 && down_by(v, ev, k).1 > 0,
                    forall|j: nat| j < k ==> !ratio_lt(#[trigger] down_by(v, ev, j), ev),
                    k <= p * b,
                decreases p * b - k,
            {
                let ghost d = down_by(v, ev, k);
                proof {
                    lemma_ratio_lt_same_value((x as nat, y as nat), d, ev);
                    // the loop ran at most p * b times
                    lemma_pw_pos(a as nat, k);
                    lemma_pw_pos(b as nat, k);
                    assert(pw(a as nat, k + 1) <= p * pw(b as nat, k + 1)) by (nonlinear_arith)
                        requires
                            d.0 * b >= a * d.1,
                            d.0 == p * pw(b as nat, k),
                            d.1 == q * pw(a as nat, k),
                            q >= 1,
                            pw(a as nat, k + 1) == a * pw(a as nat, k),
                            pw(b as nat, k + 1) == b * pw(b as nat, k),
                    ;
                    lemma_steps_bound(a as nat, b as nat, p, k + 1);
                }
                let nx = wide_mul(x, b);
                let ny = wide_mul(y, a);
                proof {
                    assert(nx > 0 && ny > 0) by (nonlinear_arith)
                        requires
                            nx == x * b,
                            ny == y * a,
                            x > 0,
                            y > 0,
                            a > 0,
                            b > 0,
                    ;
                    lemma_reduce(nx as nat, ny as nat);
                    let r = reduce(nx as nat, ny as nat);
                    lemma_rd_step(x as nat, y as nat, d, b as nat, a as nat, r.0, r.1);
                    let d1 = down_by(v, ev, k + 1);
                    assert(pw(a as nat, k + 1) == a * pw(a as nat, k));
                    assert(pw(b as nat, k + 1) == b * pw(b as nat, k));
                    assert(d1.0 == d.0 * (b as nat)) by (nonlinear_arith)
                        requires
                            d1.0 == p * pw(b as nat, k + 1),
                            d.0 == p * pw(b as nat, k),
                            pw(b as nat, k + 1) == b * pw(b as nat, k),
                    ;
                    assert(d1.1 == d.1 * (a as nat)) by (nonlinear_arith)
                        requires
                            d1.1 == q * pw(a as nat, k + 1),
                            d.1 == q * pw(a as nat, k),
                            pw(a as nat, k + 1) == a * pw(a as nat, k),
                    ;
                    assert(d1.0 > 0 && d1.1 > 0) by (nonlinear_arith)
                        requires
                            d1.0 == d.0 * (b as nat),
                            d1.1 == d.1 * (a as nat),
                            d.0 > 0,
                            d.1 > 0,
                            a > 0,
                            b > 0,
                    ;
                    assert(forall|j: nat| j < k + 1 ==> !ratio_lt(#[trigger] down_by(v, ev, j), ev));
                    assert(fits_u32(reduce(down_by(v, ev, k + 1).0, down_by(v, ev, k + 1).1)));
                    assert(nx >= ny) by (nonlinear_arith)
                        requires
                            nx == x * b,
                            ny == y * a,
                            x * b >= a * y,
                    ;
                    assert(!ratio_lt(r, (1nat, 1nat))) by (nonlinear_arith)
                        requires
                            r.0 * ny == nx * r.1,
                            nx >= ny,
                            r.1 > 0,
                            ny > 0,
                    ;
                }
                let g = gcd_u64(nx, ny);
                x = (nx / g) as u32;
                y = (ny / g) as u32;
                proof {
                    k = k + 1;
                }
            }
            proof {
                lemma_ratio_lt_same_value((x as nat, y as nat), down_by(v, ev, k), ev);
                let pk = pw(ev.0, k);
            }
        } else {
            // raise by equaves while below the unison
            while x < y
                invariant
                    a > b >= 1,
                    ev == (a as nat, b as nat),
                    v == (p, q),
                    p > 0 && q > 0,
                    rd_fits(v, equave@),
                    ev == upward(equave@),
                    ratio_lt(v, (1nat, 1nat)),
                    ratio_wf((x as nat, y as nat)),
                    ratio_lt((x as nat, y as nat), ev),
                    x as nat * up_by(v, ev, k).1 == up_by(v, ev, k).0 * y as nat,
                    up_by(v, ev, k).0 > 0 && up_by(v, ev, k).1 > 0,
                    forall|j: nat| j < k ==> ratio_lt(#[trigger] up_by(v, ev, j), (1nat, 1nat)),
                    k <= q * b,
                decreases q * b - k,
            {
                let ghost d = up_by(v, ev, k);
                proof {
                    lemma_ratio_lt_same_value((x as nat, y as nat), d, (1nat, 1nat));
                    lemma_pw_pos(a as nat, k);
                    lemma_pw_pos(b as nat, k);
                    assert(pw(a as nat, k) <= q * pw(b as nat, k)) by (nonlinear_arith)
                        requires
                            d.0 < d.1,
                            d.0 == p * pw(a as nat, k),
                            d.1 == q * pw(b as nat, k),
                            p >= 1,
                    ;
                    lemma_steps_bound(a as nat, b as nat, q, k);
                    if k + b == q * b {
                        assert(pw(a as nat, k) < q * pw(b as nat, k)) by (nonlinear_arith)
                            requires
                                d.0 < d.1,
                                d.0 == p * pw(a as nat, k),
                                d.1 == q * pw(b as nat, k),
                                p >= 1,
                        ;
                    }
                }
                let nx = wide_mul(x, a);
                let ny = wide_mul(y, b);
                proof {
                    assert(nx > 0 && ny > 0) by (nonlinear_arith)
                        requires
                            nx == x * a,
                            ny == y * b,
                            x > 0,
                            y > 0,
                            a > 0,
                            b > 0,
                    ;
                    lemma_reduce(nx as nat, ny as nat);
                    let r = reduce(nx as nat, ny as nat);
                    lemma_rd_step(x as nat, y as nat, d, a as nat, b as nat, r.0, r.1);
                    let d1 = up_by(v, ev, k + 1);
                    assert(pw(a as nat, k + 1) == a * pw(a as nat, k));
                    assert(pw(b as nat, k + 1) == b * pw(b as nat, k));
                    assert(d1.0 == d.0 * (a as nat)) by (nonlinear_arith)
                        requires
                            d1.0 == p * pw(a as nat, k + 1),
                            d.0 == p * pw(a as nat, k),
                            pw(a as nat, k + 1) == a * pw(a as nat, k),
                    ;
                    assert(d1.1 == d.1 * (b as nat)) by (nonlinear_arith)
                        requires
                            d1.1 == q * pw(b as nat, k + 1),
                            d.1 == q * pw(b as nat, k),
                            pw(b as nat, k + 1) == b * pw(b as nat, k),
                    ;
                    assert(d1.0 > 0 && d1.1 > 0) by (nonlinear_arith)
                        requires
                            d1.0 == d.0 * (a as nat),
                            d1.1 == d.1 * (b as nat),
                            d.0 > 0,
                            d.1 > 0,
                            a > 0,
                            b > 0,
                    ;
                    assert(forall|j: nat| j < k + 1 ==> ratio_lt(#[trigger] up_by(v, ev, j), (1nat, 1nat)));
                    assert(fits_u32(reduce(up_by(v, ev, k + 1).0, up_by(v, ev, k + 1).1)));
                    assert(ratio_lt(r, ev)) by (nonlinear_arith)
                        requires
                            r.0 * ny == nx * r.1,
                            nx == x * a,
                            ny == y * b,
                            x < y,
                            r.1 > 0,
                            ev == (a as nat, b as nat),
                            a > 0,
                            b > 0,
                    ;
                }
                let g = gcd_u64(nx, ny);
                x = (nx / g) as u32;
                y = (ny / g) as u32;
                proof {
                    k = k + 1;
                }
            }
            proof {
                let pk = pw(ev.0, k);
            }
        }
        RawJiRatio::from_parts(x, y)
    }

    /// The ratio reduced modulo `modulo` (like octave reduction): at least the unison and below the
    /// equave taken upward. The unison is not a modulus.
    pub fn rd(self, modulo: Self) -> (r: Self)
        requires
            modulo@ != (1nat, 1nat),
            rd_fits(self@, modulo@),
        ensures
            is_equave_reduction(r@, self@, modulo@),
            r@ == rd_of(self@, modulo@),
    {
        let r = self.reduce_mod(modulo);
        proof {
            use_type_invariant(&self);
            use_type_invariant(&modulo);
            lemma_rd_of(r@, self@, modulo@);
        }
        r
    }

    /// The ratio reduced modulo `equave`, or an error when the equave is the unison.
    pub fn checked_rd(self, equave: Self) -> (r: Result<Self, BadJiArith>)
        requires
            equave@ != (1nat, 1nat) ==> rd_fits(self@, equave@),
        ensures
            match r {
                Ok(x) => equave@ != (1nat, 1nat) && is_equave_reduction(x@, self@, equave@)
                    && x@ == rd_of(self@, equave@),
                Err(e) => equave@ == (1nat, 1nat) && e == BadJiArith::LogDivByUnison,
            },
    {
        if equave.numer == equave.denom {
            proof {
                use_type_invariant(&equave);
                lemma_gcd_one(1);
                assert(ratio_wf((1nat, 1nat)));
                assert(equave@.0 * 1 == 1 * equave@.1);
                lemma_ratio_eq(equave@, (1nat, 1nat));
            }
            Err(BadJiArith::LogDivByUnison)
        } else {
            Ok(self.rd(equave))
        }
    }
}


// ---------------------------------------------------------------------------
// The reduction modulo an equave is unique
// ---------------------------------------------------------------------------

pub proof fn lemma_pw_add(x: nat, a: nat, b: nat)
    ensures
        pw(x, a + b) == pw(x, a) * pw(x, b),
    decreases a,
{
    if a > 0 {
        lemma_pw_add(x, (a - 1) as nat, b);
        assert((a + b - 1) as nat == ((a - 1) as nat + b) as nat);
        assert(pw(x, a + b) == x * pw(x, (a + b - 1) as nat));
        assert(pw(x, a) == x * pw(x, (a - 1) as nat));
        let p = pw(x, (a - 1) as nat);
        let q = pw(x, b);
        assert(x * (p * q) == (x * p) * q) by (nonlinear_arith);
    } else {
        assert(pw(x, a) == 1);
        assert(a + b == b);
    }
}

proof fn lemma_pw_base_monotone(a: nat, b: nat, k: nat)
    requires
        a >= b,
    ensures
        pw(a, k) >= pw(b, k),
    decreases k,
{
    if k > 0 {
        lemma_pw_base_monotone(a, b, (k - 1) as nat);
        let p = pw(a, (k - 1) as nat);
        let q = pw(b, (k - 1) as nat);
        assert(a * p >= b * q) by (nonlinear_arith)
            requires
                a >= b,
                p >= q,
        ;
    }
}

/// `r = v e^z`, written with exponents padded by `n`, where `e = (e0, e1)` and `|z| <= n`.
spec fn scaled_by(r: (nat, nat), v: (nat, nat), e0: nat, e1: nat, n: nat, z: int) -> bool {
    &&& -n <= z <= n
    &&& r.0 * v.1 * pw(e0, (n - z) as nat) * pw(e1, (n + z) as nat) == v.0 * pw(e0, n) * pw(e1, n) * r.1
}

proof fn lemma_scaled_from_down(r: (nat, nat), v: (nat, nat), e0: nat, e1: nat, k: nat, n: nat)
    requires
        k <= n,
        r.0 * (v.1 * pw(e0, k)) == (v.0 * pw(e1, k)) * r.1,
    ensures
        scaled_by(r, v, e0, e1, n, -k),
{
    lemma_pw_add(e0, k, n);
    lemma_pw_add(e1, k, (n - k) as nat);
    assert((n - (-k)) as nat == k + n);
    assert((n + (-k)) as nat == (n - k) as nat);
    assert(k + (n - k) as nat == n);
    let a = pw(e0, k);
    let b = pw(e0, n);
    let c = pw(e1, k);
    let d = pw(e1, (n - k) as nat);
    let t = b * d;
    assert(r.0 * (v.1 * a) * t == (v.0 * c) * r.1 * t);
    assert(r.0 * v.1 * (a * b) * d == r.0 * (v.1 * a) * t) by (nonlinear_arith)
        requires
            t == b * d,
    ;
    assert(v.0 * b * (c * d) * r.1 == (v.0 * c) * r.1 * t) by (nonlinear_arith)
        requires
            t == b * d,
    ;
}

proof fn lemma_scaled_from_up(r: (nat, nat), v: (nat, nat), e0: nat, e1: nat, k: nat, n: nat)
    requires
        k <= n,
        r.0 * (v.1 * pw(e1, k)) == (v.0 * pw(e0, k)) * r.1,
    ensures
        scaled_by(r, v, e0, e1, n, k as int),
{
    lemma_pw_add(e0, k, (n - k) as nat);
    lemma_pw_add(e1, k, n);
    assert((n - k) as nat + k == n);
    let a = pw(e0, k);
    let b = pw(e0, (n - k) as nat);
    let c = pw(e1, k);
    let d = pw(e1, n);
    let t = b * d;
    assert(r.0 * (v.1 * c) * t == (v.0 * a) * r.1 * t);
    assert(r.0 * v.1 * b * (c * d) == r.0 * (v.1 * c) * t) by (nonlinear_arith)
        requires
            t == b * d,
    ;
    assert(v.0 * (a * b) * d * r.1 == (v.0 * a) * r.1 * t) by (nonlinear_arith)
        requires
            t == b * d,
    ;
    assert(k + n == n + k);
}

/// Scaling by `e^d` with `d >= 1` takes a ratio at least 1 to one at least `e`.
proof fn lemma_scaled_up_reaches_equave(r1: (nat, nat), r2: (nat, nat), e0: nat, e1: nat, d: nat)
    requires
        d >= 1,
        e0 > e1 >= 1,
        r1.0 >= r1.1 > 0,
        r2.1 > 0,
        r1.0 * r2.1 * pw(e0, d) == r2.0 * r1.1 * pw(e1, d),
    ensures
        r2.0 * e1 >= e0 * r2.1,
{
    let a = pw(e0, (d - 1) as nat);
    let b = pw(e1, (d - 1) as nat);
    lemma_pw_base_monotone(e0, e1, (d - 1) as nat);
    lemma_pw_pos(e1, (d - 1) as nat);
    assert(pw(e0, d) == e0 * a);
    assert(pw(e1, d) == e1 * b);
    assert(r2.0 * e1 >= e0 * r2.1) by (nonlinear_arith)
        requires
            r1.0 >= r1.1 > 0,
            r2.1 > 0,
            a >= b,
            b >= 1,
            e0 > 0,
            r1.0 * r2.1 * (e0 * a) == r2.0 * r1.1 * (e1 * b),
    ;
}

proof fn lemma_scaled_pair(r1: (nat, nat), r2: (nat, nat), v: (nat, nat), e0: nat, e1: nat, n: nat, z1: int, z2: int)
    requires
        v.1 > 0,
        e0 >= 1,
        e1 >= 1,
        scaled_by(r1, v, e0, e1, n, z1),
        scaled_by(r2, v, e0, e1, n, z2),
        z1 < z2,
    ensures
        r1.0 * r2.1 * pw(e0, (z2 - z1) as nat) == r2.0 * r1.1 * pw(e1, (z2 - z1) as nat),
{
    let x1 = pw(e0, (n - z1) as nat) * pw(e1, (n + z1) as nat);
    let x2 = pw(e0, (n - z2) as nat) * pw(e1, (n + z2) as nat);
    let big = v.0 * pw(e0, n) * pw(e1, n);
    assert(r1.0 * v.1 * x1 == big * r1.1) by (nonlinear_arith)
        requires
            r1.0 * v.1 * pw(e0, (n - z1) as nat) * pw(e1, (n + z1) as nat) == big * r1.1,
            x1 == pw(e0, (n - z1) as nat) * pw(e1, (n + z1) as nat),
    ;
    assert(r2.0 * v.1 * x2 == big * r2.1) by (nonlinear_arith)
        requires
            r2.0 * v.1 * pw(e0, (n - z2) as nat) * pw(e1, (n + z2) as nat) == big * r2.1,
            x2 == pw(e0, (n - z2) as nat) * pw(e1, (n + z2) as nat),
    ;
    assert((r1.0 * r2.1 * x1) * v.1 == (r2.0 * r1.1 * x2) * v.1) by (nonlinear_arith)
        requires
            r1.0 * v.1 * x1 == big * r1.1,
            r2.0 * v.1 * x2 == big * r2.1,
    ;
    assert(r1.0 * r2.1 * x1 == r2.0 * r1.1 * x2) by (nonlinear_arith)
        requires
            (r1.0 * r2.1 * x1) * v.1 == (r2.0 * r1.1 * x2) * v.1,
            v.1 > 0,
    ;
    let d = (z2 - z1) as nat;
    lemma_pw_add(e0, (n - z2) as nat, d);
    lemma_pw_add(e1, (n + z1) as nat, d);
    assert((n - z2) as nat + d == (n - z1) as nat);
    assert((n + z1) as nat + d == (n + z2) as nat);
    let p = pw(e0, (n - z2) as nat);
    let q = pw(e1, (n + z1) as nat);
    let a = pw(e0, d);
    let b = pw(e1, d);
    lemma_pw_pos(e0, (n - z2) as nat);
    lemma_pw_pos(e1, (n + z1) as nat);
    assert(r1.0 * r2.1 * a == r2.0 * r1.1 * b) by (nonlinear_arith)
        requires
            r1.0 * r2.1 * ((p * a) * q) == r2.0 * r1.1 * (p * (q * b)),
            p >= 1,
            q >= 1,
    ;
}

/// The ratio `r` is `v` scaled by a whole power of the equave, written with padding `n`.
proof fn lemma_reduction_scaled(r: (nat, nat), v: (nat, nat), equave: (nat, nat)) -> (zn: (int, nat))
    requires
        is_equave_reduction(r, v, equave),
    ensures
        forall|n: nat| n >= zn.1 ==> #[trigger] scaled_by(r, v, upward(equave).0, upward(equave).1, n, zn.0),
{
    let e = upward(equave);
    let k = choose|k: nat| #![trigger pw(e.0, k)]
        r.0 * down_by(v, e, k).1 == down_by(v, e, k).0 * r.1 || r.0 * up_by(v, e, k).1 == up_by(v, e, k).0 * r.1;
    if r.0 * down_by(v, e, k).1 == down_by(v, e, k).0 * r.1 {
        assert forall|n: nat| n >= k implies #[trigger] scaled_by(r, v, e.0, e.1, n, -k) by {
            lemma_scaled_from_down(r, v, e.0, e.1, k, n);
        }
        (-k, k)
    } else {
        assert forall|n: nat| n >= k implies #[trigger] scaled_by(r, v, e.0, e.1, n, k as int) by {
            lemma_scaled_from_up(r, v, e.0, e.1, k, n);
        }
        (k as int, k)
    }
}

/// The reduction of a ratio modulo an equave is unique.
pub proof fn lemma_equave_reduction_unique(r1: (nat, nat), r2: (nat, nat), v: (nat, nat), equave: (nat, nat))
    requires
        ratio_wf(v),
        ratio_wf(equave),
        equave != (1nat, 1nat),
        is_equave_reduction(r1, v, equave),
        is_equave_reduction(r2, v, equave),
    ensures
        r1 == r2,
{
    let e = upward(equave);
    lemma_gcd_one(1);
    if equave.0 == equave.1 {
        lemma_ratio_eq(equave, (1nat, 1nat));
    }
    assert(e.0 > e.1 >= 1);
    let (z1, n1) = lemma_reduction_scaled(r1, v, equave);
    let (z2, n2) = lemma_reduction_scaled(r2, v, equave);
    let n = n1 + n2;
    assert(scaled_by(r1, v, e.0, e.1, n, z1));
    assert(scaled_by(r2, v, e.0, e.1, n, z2));
    if z1 < z2 {
        lemma_scaled_pair(r1, r2, v, e.0, e.1, n, z1, z2);
        lemma_scaled_up_reaches_equave(r1, r2, e.0, e.1, (z2 - z1) as nat);
        assert(false);
    } else if z2 < z1 {
        lemma_scaled_pair(r2, r1, v, e.0, e.1, n, z2, z1);
        lemma_scaled_up_reaches_equave(r2, r1, e.0, e.1, (z1 - z2) as nat);
        assert(false);
    } else {
        let a = pw(e.0, (n - z1) as nat);
        let b = pw(e.1, (n + z1) as nat);
        let c = v.0 * pw(e.0, n) * pw(e.1, n);
        lemma_pw_pos(e.0, (n - z1) as nat);
        lemma_pw_pos(e.1, (n + z1) as nat);
        assert(r1.0 * v.1 * a * b == c * r1.1);
        assert(r2.0 * v.1 * a * b == c * r2.1);
        assert(r1.0 * r2.1 == r2.0 * r1.1) by (nonlinear_arith)
            requires
                v.1 > 0,
                a >= 1,
                b >= 1,
                r1.0 * v.1 * a * b == c * r1.1,
                r2.0 * v.1 * a * b == c * r2.1,
        ;
        lemma_ratio_eq(r1, r2);
    }
}

/// The reduction of `v` modulo `equave`.
pub open spec fn rd_of(v: (nat, nat), equave: (nat, nat)) -> (nat, nat) {
    choose|r: (nat, nat)| is_equave_reduction(r, v, equave)
}

/// A reduction of `v` modulo `equave` is the reduction `rd_of(v, equave)`.
pub proof fn lemma_rd_of(r: (nat, nat), v: (nat, nat), equave: (nat, nat))
    requires
        ratio_wf(v),
        ratio_wf(equave),
        equave != (1nat, 1nat),
        is_equave_reduction(r, v, equave),
    ensures
        r == rd_of(v, equave),
        is_equave_reduction(rd_of(v, equave), v, equave),
{
    lemma_equave_reduction_unique(r, rd_of(v, equave), v, equave);
}

/// Reducing a ratio that is already reduced modulo the equave changes nothing.
pub proof fn lemma_rd_idempotent(r: (nat, nat), v: (nat, nat), equave: (nat, nat))
    requires
        ratio_wf(v),
        ratio_wf(equave),
        equave != (1nat, 1nat),
        is_equave_reduction(r, v, equave),
    ensures
        rd_of(r, equave) == r,
        rd_of(rd_of(v, equave), equave) == rd_of(v, equave),
{
    let e = upward(equave);
    assert(pw(e.0, 0) == 1 && pw(e.1, 0) == 1);
    assert(r.0 * down_by(r, e, 0).1 == down_by(r, e, 0).0 * r.1);
    assert(is_equave_reduction(r, r, equave));
    lemma_rd_of(r, r, equave);
    lemma_rd_of(r, v, equave);
}

/// Stacking a ratio with its reciprocal gives the unison.
pub proof fn lemma_mul_reciprocal(v: (nat, nat))
    requires
        ratio_wf(v),
    ensures
        ratio_mul(v, (v.1, v.0)) == (1nat, 1nat),
{
    let x = v.0 * v.1;
    assert(x > 0) by (nonlinear_arith)
        requires
            x == v.0 * v.1,
            v.0 > 0,
            v.1 > 0,
    ;
    assert(v.1 * v.0 == x) by (nonlinear_arith)
        requires
            x == v.0 * v.1,
    ;
    assert(x % x == 0) by {
        vstd::arithmetic::div_mod::lemma_mod_self_0(x as int);
    }
    assert(spec_gcd(x, x) == spec_gcd(x, x % x));
    assert(spec_gcd(x, 0) == x);
    vstd::arithmetic::div_mod::lemma_div_basics_2(x as int);
}

/// The reciprocal of the reciprocal is the ratio.
pub proof fn lemma_reciprocal_involution(v: (nat, nat))
    ensures
        ((v.1, v.0).1, (v.1, v.0).0) == v,
{
}

/// `gcd(n, 1) == 1`.
pub proof fn lemma_gcd_one(n: nat)
    ensures
        spec_gcd(n, 1) == 1,
{
    assert(n % 1 == 0);
    assert(spec_gcd(1, 0) == 1);
}

} // verus!
