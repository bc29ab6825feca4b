//! Monzos: just intonation intervals written as vectors of prime exponents.
//!
//! The ratio 3/2 = 2^(-1) 3^1 is the monzo `[-1, 1, 0, 0, 0, 0, 0, 0, 0]`: one exponent for each
//! of the primes 2, 3, 5, ..., 23. Stacking intervals adds monzos, inverting negates them.

use itertools::Itertools;
use vstd::prelude::*;

use crate::helpers::{
    bezout, bezout_fits, bezout_list, bezout_list_fits, dot_int, lemma_bezout_list, lemma_dot_int_scale,
};
use crate::ji_ratio::{
    lemma_pw_pos, lemma_ratio_eq, lemma_reduce, pw, ratio_views, ratio_wf, reduce, IllegalJiRatio, RawJiRatio,
};
use crate::words::lemma_push_contains;
use crate::primes::{factorize, is_prime, lemma_trial_factors_prime, product, trial_factors, SMALL_PRIMES};

verus! {

/// The `i`th small prime: 2, 3, 5, 7, 11, 13, 17, 19, 23.
pub open spec fn prime_at(i: int) -> nat {
    seq![2nat, 3nat, 5nat, 7nat, 11nat, 13nat, 17nat, 19nat, 23nat][i]
}

fn small_prime(i: usize) -> (p: u32)
    requires
        i < 9,
    ensures
        p == prime_at(i as int),
{
    SMALL_PRIMES[i]
}

/// A just intonation interval as the exponents of the primes 2, 3, 5, ..., 23.
#[derive(Debug, Clone, Copy, PartialEq, Eq)]
pub struct Monzo([i32; 9]);

impl View for Monzo {
    type V = Seq<i32>;

    closed spec fn view(&self) -> Seq<i32> {
        self.0@
    }
}

/// A monzo has one exponent for each small prime.
pub broadcast proof fn lemma_monzo_len(m: Monzo)
    ensures
        #[trigger] m@.len() == 9,
{
}

/// The exponents of a monzo as integers.
pub open spec fn ints(m: Seq<i32>) -> Seq<int> {
    m.map_values(|x: i32| x as int)
}

impl Monzo {
    /// 1/1: all exponents 0.
    pub fn unison() -> (r: Self)
        ensures
            ints(r@) == Seq::new(9, |i: int| 0int),
    {
        let r = Monzo([0i32; 9]);
        assert(ints(r@) =~= Seq::new(9, |i: int| 0int));
        r
    }

    /// 2/1.
    pub fn octave() -> (r: Self)
        ensures
            ints(r@) == seq![1int, 0, 0, 0, 0, 0, 0, 0, 0],
    {
        let r = Monzo([1, 0, 0, 0, 0, 0, 0, 0, 0]);
        assert(ints(r@) =~= seq![1int, 0, 0, 0, 0, 0, 0, 0, 0]);
        r
    }

    /// 3/2.
    pub fn pyth_5th() -> (r: Self)
        ensures
            ints(r@) == seq![-1int, 1, 0, 0, 0, 0, 0, 0, 0],
    {
        let r = Monzo([-1, 1, 0, 0, 0, 0, 0, 0, 0]);
        assert(ints(r@) =~= seq![-1int, 1, 0, 0, 0, 0, 0, 0, 0]);
        r
    }

    /// 4/3.
    pub fn pyth_4th() -> (r: Self)
        ensures
            ints(r@) == seq![2int, -1, 0, 0, 0, 0, 0, 0, 0],
    {
        let r = Monzo([2, -1, 0, 0, 0, 0, 0, 0, 0]);
        assert(ints(r@) =~= seq![2int, -1, 0, 0, 0, 0, 0, 0, 0]);
        r
    }

    /// The exponents.
    pub fn into_inner(&self) -> (r: [i32; 9])
        ensures
            r@ == self@,
    {
        self.0
    }

    /// The monzo of the `n`th small prime: 1 at position `n`, 0 elsewhere.
    pub fn nth_prime(n: usize) -> (r: Self)
        requires
            n < 9,
        ensures
            ints(r@) == Seq::new(9, |i: int| if i == n { 1int } else { 0int }),
    {
        let mut arr = [0i32; 9];
        arr[n] = 1;
        let r = Monzo(arr);
        assert(ints(r@) =~= Seq::new(9, |i: int| if i == n { 1int } else { 0int }));
        r
    }

    /// The monzo with the given nine exponents.
    pub fn from_array(arr: [i32; 9]) -> (r: Self)
        ensures
            r@ == arr@,
    {
        Monzo(arr)
    }

    /// The monzo whose first exponents are those of `slice`, the others 0.
    pub fn from_slice(slice: &[i32]) -> (r: Self)
        requires
            slice@.len() <= 9,
        ensures
            ints(r@) == Seq::new(9, |i: int| if i < slice@.len() { slice@[i] as int } else { 0int }),
    {
        let mut arr = [0i32; 9];
        let mut i: usize = 0;
        while i < slice.len()
            invariant
                i <= slice@.len() <= 9,
                arr@.len() == 9,
                forall|j: int| 0 <= j < 9 ==> #[trigger] arr@[j] == if j < i { slice@[j] } else { 0i32 },
            decreases slice@.len() - i,
        {
            arr[i] = slice[i];
            i = i + 1;
        }
        let r = Monzo(arr);
        assert(ints(r@) =~= Seq::new(9, |i: int| if i < slice@.len() { slice@[i] as int } else { 0int }));
        r
    }

    /// The exponent of the `idx`th small prime.
    pub fn index(&self, idx: usize) -> (r: i32)
        requires
            idx < 9,
        ensures
            r == self@[idx as int],
    {
        self.0[idx]
    }
}

/// `x` fits in an `i32`.
pub open spec fn fits_i32(x: int) -> bool {
    i32::MIN <= x <= i32::MAX
}

/// Division rounding toward zero, as Rust's `/` on integers does.
pub open spec fn trunc_div(a: int, b: int) -> int {
    let q = (if a < 0 { -a } else { a }) / (if b < 0 { -b } else { b });
    if (a < 0) == (b < 0) {
        q
    } else {
        -q
    }
}

/// `d` divides `a`.
pub open spec fn divides(d: int, a: int) -> bool {
    exists|k: int| a == #[trigger] (k * d)
}

fn trunc_div_i32(a: i32, b: i32) -> (q: i32)
    requires
        b != 0,
        !(a == i32::MIN && b == -1),
    ensures
        q == trunc_div(a as int, b as int),
{
    let aa: i64 = if a < 0 { -(a as i64) } else { a as i64 };
    let bb: i64 = if b < 0 { -(b as i64) } else { b as i64 };
    proof {
        vstd::arithmetic::div_mod::lemma_div_is_ordered_by_denominator(aa as int, 1, bb as int);
        if bb >= 2 {
            vstd::arithmetic::div_mod::lemma_div_is_ordered_by_denominator(aa as int, 2, bb as int);
        }
        vstd::arithmetic::div_mod::lemma_div_pos_is_pos(aa as int, bb as int);
    }
    let q64: i64 = aa / bb;
    if (a < 0) == (b < 0) {
        q64 as i32
    } else {
        (-q64) as i32
    }
}

fn divides_i32(d: i32, a: i32) -> (r: bool)
    requires
        d != 0,
    ensures
        r == divides(d as int, a as int),
{
    let aa: u64 = if a < 0 { (-(a as i64)) as u64 } else { a as u64 };
    let dd: u64 = if d < 0 { (-(d as i64)) as u64 } else { d as u64 };
    let r = aa % dd == 0;
    proof {
        let ai = a as int;
        let di = d as int;
        vstd::arithmetic::div_mod::lemma_fundamental_div_mod(aa as int, dd as int);
        if r {
            let q = (aa / dd) as int;
            assert(aa == dd * q);
            let k: int = if (a < 0) == (d < 0) { q } else { -q };
            assert(ai == k * di) by (nonlinear_arith)
                requires
                    aa == dd * q,
                    aa == (if ai < 0 { -ai } else { ai }),
                    dd == (if di < 0 { -di } else { di }),
                    k == (if (ai < 0) == (di < 0) { q } else { -q }),
            ;
        } else {
            if divides(di, ai) {
                let k = choose|k: int| ai == #[trigger] (k * di);
                let kk: int = if k < 0 { -k } else { k };
                assert(aa == kk * dd) by (nonlinear_arith)
                    requires
                        ai == k * di,
                        aa == (if ai < 0 { -ai } else { ai }),
                        dd == (if di < 0 { -di } else { di }),
                        kk == (if k < 0 { -k } else { k }),
                ;
                vstd::arithmetic::div_mod::lemma_mod_multiples_basic(kk, dd as int);
                assert(false);
            }
        }
    }
    r
}

impl Monzo {
    /// The sum of two monzos: the product of the two intervals.
    pub fn add(self, other: Self) -> (r: Self)
        requires
            forall|i: int| 0 <= i < 9 ==> fits_i32(self@[i] + other@[i]),
        ensures
            forall|i: int| 0 <= i < 9 ==> #[trigger] r@[i] == self@[i] + other@[i],
    {
        let mut arr = [0i32; 9];
        let mut i: usize = 0;
        while i < 9
            invariant
                i <= 9,
                arr@.len() == 9,
                self@ == self.0@,
                other@ == other.0@,
                forall|j: int| 0 <= j < 9 ==> fits_i32(self@[j] + other@[j]),
                forall|j: int| 0 <= j < i ==> #[trigger] arr@[j] == self@[j] + other@[j],
            decreases 9 - i,
        {
            arr[i] = self.0[i] + other.0[i];
            i = i + 1;
        }
        Monzo(arr)
    }

    /// The difference of two monzos: the quotient of the two intervals.
    pub fn sub(self, other: Self) -> (r: Self)
        requires
            forall|i: int| 0 <= i < 9 ==> fits_i32(self@[i] - other@[i]),
        ensures
            forall|i: int| 0 <= i < 9 ==> #[trigger] r@[i] == self@[i] - other@[i],
    {
        let mut arr = [0i32; 9];
        let mut i: usize = 0;
        while i < 9
            invariant
                i <= 9,
                arr@.len() == 9,
                self@ == self.0@,
                other@ == other.0@,
                forall|j: int| 0 <= j < 9 ==> fits_i32(self@[j] - other@[j]),
                forall|j: int| 0 <= j < i ==> #[trigger] arr@[j] == self@[j] - other@[j],
            decreases 9 - i,
        {
            arr[i] = self.0[i] - other.0[i];
            i = i + 1;
        }
        Monzo(arr)
    }

    /// Every exponent multiplied by `coeff`: the interval raised to the power `coeff`.
    pub fn mul(self, coeff: i32) -> (r: Self)
        requires
            forall|i: int| 0 <= i < 9 ==> fits_i32(self@[i] * coeff),
        ensures
            forall|i: int| 0 <= i < 9 ==> #[trigger] r@[i] == self@[i] * coeff,
    {
        let mut arr = [0i32; 9];
        let mut i: usize = 0;
        while i < 9
            invariant
                i <= 9,
                arr@.len() == 9,
                self@ == self.0@,
                forall|j: int| 0 <= j < 9 ==> fits_i32(self@[j] * coeff),
                forall|j: int| 0 <= j < i ==> #[trigger] arr@[j] == self@[j] * coeff,
            decreases 9 - i,
        {
            arr[i] = self.0[i] * coeff;
            i = i + 1;
        }
        Monzo(arr)
    }

    /// Every exponent divided by `coeff`, rounding toward zero.
    pub fn div(self, coeff: i32) -> (r: Self)
        requires
            coeff != 0,
            coeff == -1 ==> forall|i: int| 0 <= i < 9 ==> self@[i] != i32::MIN,
        ensures
            forall|i: int| 0 <= i < 9 ==> #[trigger] r@[i] == trunc_div(self@[i] as int, coeff as int),
    {
        let mut arr = [0i32; 9];
        let mut i: usize = 0;
        while i < 9
            invariant
                i <= 9,
                arr@.len() == 9,
                self@ == self.0@,
                coeff != 0,
                coeff == -1 ==> forall|j: int| 0 <= j < 9 ==> self@[j] != i32::MIN,
                forall|j: int| 0 <= j < i ==> #[trigger] arr@[j] == trunc_div(self@[j] as int, coeff as int),
            decreases 9 - i,
        {
            arr[i] = trunc_div_i32(self.0[i], coeff);
            i = i + 1;
        }
        Monzo(arr)
    }

    /// The negated monzo: the reciprocal interval.
    pub fn neg(self) -> (r: Self)
        requires
            forall|i: int| 0 <= i < 9 ==> self@[i] != i32::MIN,
        ensures
            forall|i: int| 0 <= i < 9 ==> #[trigger] r@[i] == -self@[i],
    {
        let mut arr = [0i32; 9];
        let mut i: usize = 0;
        while i < 9
            invariant
                i <= 9,
                arr@.len() == 9,
                self@ == self.0@,
                forall|j: int| 0 <= j < 9 ==> self@[j] != i32::MIN,
                forall|j: int| 0 <= j < i ==> #[trigger] arr@[j] == -self@[j],
            decreases 9 - i,
        {
            arr[i] = -self.0[i];
            i = i + 1;
        }
        Monzo(arr)
    }

    /// Adds `other` in place.
    pub fn add_assign(&mut self, other: Self)
        requires
            forall|i: int| 0 <= i < 9 ==> fits_i32(old(self)@[i] + other@[i]),
        ensures
            forall|i: int| 0 <= i < 9 ==> #[trigger] final(self)@[i] == old(self)@[i] + other@[i],
    {
        *self = self.add(other);
    }

    /// Subtracts `other` in place.
    pub fn sub_assign(&mut self, other: Self)
        requires
            forall|i: int| 0 <= i < 9 ==> fits_i32(old(self)@[i] - other@[i]),
        ensures
            forall|i: int| 0 <= i < 9 ==> #[trigger] final(self)@[i] == old(self)@[i] - other@[i],
    {
        *self = self.sub(other);
    }

    /// Stacks two intervals: adds the monzos.
    pub fn stack(self, rhs: Self) -> (r: Self)
        requires
            forall|i: int| 0 <= i < 9 ==> fits_i32(self@[i] + rhs@[i]),
        ensures
            forall|i: int| 0 <= i < 9 ==> #[trigger] r@[i] == self@[i] + rhs@[i],
    {
        self.add(rhs)
    }

    /// Unstacks `rhs` from `self`: subtracts the monzos.
    pub fn unstack(self, rhs: Self) -> (r: Self)
        requires
            forall|i: int| 0 <= i < 9 ==> fits_i32(self@[i] - rhs@[i]),
        ensures
            forall|i: int| 0 <= i < 9 ==> #[trigger] r@[i] == self@[i] - rhs@[i],
    {
        self.sub(rhs)
    }

    /// The inverse interval: the negated monzo.
    pub fn log_inv(self) -> (r: Self)
        requires
            forall|i: int| 0 <= i < 9 ==> self@[i] != i32::MIN,
        ensures
            forall|i: int| 0 <= i < 9 ==> #[trigger] r@[i] == -self@[i],
    {
        self.neg()
    }

    /// The interval stacked `n` times: every exponent times `n`.
    pub fn pow(self, n: i32) -> (r: Self)
        requires
            forall|i: int| 0 <= i < 9 ==> fits_i32(n * self@[i]),
        ensures
            forall|i: int| 0 <= i < 9 ==> #[trigger] r@[i] == n * self@[i],
    {
        proof {
            assert forall|i: int| 0 <= i < 9 implies fits_i32(self@[i] * n) by {
                assert(self@[i] * n == n * self@[i]) by (nonlinear_arith);
            }
        }
        let r = self.mul(n);
        proof {
            assert forall|i: int| 0 <= i < 9 implies #[trigger] r@[i] == n * self@[i] by {
                assert(self@[i] * n == n * self@[i]) by (nonlinear_arith);
            }
        }
        r
    }

    /// Whether every exponent is divisible by `rhs`.
    pub fn is_divisible_by(&self, rhs: i32) -> (r: bool)
        requires
            rhs != 0,
            rhs == -1 ==> forall|i: int| 0 <= i < 9 ==> self@[i] != i32::MIN,
        ensures
            r == forall|i: int| 0 <= i < 9 ==> #[trigger] divides(rhs as int, self@[i] as int),
    {
        let mut i: usize = 0;
        while i < 9
            invariant
                i <= 9,
                self@ == self.0@,
                rhs != 0,
                forall|j: int| 0 <= j < i ==> #[trigger] divides(rhs as int, self@[j] as int),
            decreases 9 - i,
        {
            if !divides_i32(rhs, self.0[i]) {
                return false;
            }
            i = i + 1;
        }
        true
    }
}

/// The positive part of an exponent.
pub open spec fn pos_part(e: int) -> nat {
    if e > 0 {
        e as nat
    } else {
        0
    }
}

/// The negative part of an exponent.
pub open spec fn neg_part(e: int) -> nat {
    if e < 0 {
        (-e) as nat
    } else {
        0
    }
}

/// The product of `prime_at(i)` to the power `e[i]` over the first `k` small primes.
pub open spec fn prime_power_product(e: Seq<nat>, k: int) -> nat
    decreases k,
{
    if k <= 0 {
        1
    } else {
        prime_power_product(e, k - 1) * pw(prime_at(k - 1), e[k - 1])
    }
}

/// The numerator of the interval of a monzo: the product of the primes with positive exponent.
pub open spec fn numer_of(m: Seq<i32>) -> nat {
    prime_power_product(Seq::new(9, |i: int| pos_part(m[i] as int)), 9)
}

/// The denominator of the interval of a monzo: the product of the primes with negative exponent.
pub open spec fn denom_of(m: Seq<i32>) -> nat {
    prime_power_product(Seq::new(9, |i: int| neg_part(m[i] as int)), 9)
}

proof fn lemma_pw_monotone(x: nat, a: nat, b: nat)
    requires
        x >= 1,
        a <= b,
    ensures
        pw(x, a) <= pw(x, b),
    decreases b,
{
    if a < b {
        lemma_pw_monotone(x, a, (b - 1) as nat);
        lemma_pw_pos(x, (b - 1) as nat);
        assert(pw(x, (b - 1) as nat) <= x * pw(x, (b - 1) as nat)) by (nonlinear_arith)
            requires
                x >= 1,
        ;
    }
}

proof fn lemma_prime_at_pos(i: int)
    requires
        0 <= i < 9,
    ensures
        prime_at(i) >= 2,
{
}

proof fn lemma_prime_power_product_monotone(e: Seq<nat>, k: int, j: int)
    requires
        0 <= k <= j <= 9,
    ensures
        1 <= prime_power_product(e, k) <= prime_power_product(e, j),
    decreases j,
{
    if k < j {
        lemma_prime_power_product_monotone(e, k, j - 1);
        lemma_prime_at_pos(j - 1);
        lemma_pw_pos(prime_at(j - 1), e[j - 1]);
        let a = prime_power_product(e, j - 1);
        let b = pw(prime_at(j - 1), e[j - 1]);
        assert(a <= a * b) by (nonlinear_arith)
            requires
                b >= 1,
        ;
    } else if k > 0 {
        lemma_prime_power_product_monotone(e, k - 1, k - 1);
        lemma_prime_at_pos(k - 1);
        lemma_pw_pos(prime_at(k - 1), e[k - 1]);
        let a = prime_power_product(e, k - 1);
        let b = pw(prime_at(k - 1), e[k - 1]);
        assert(1 <= a * b) by (nonlinear_arith)
            requires
                a >= 1,
                b >= 1,
        ;
    }
}

fn pow_u32(base: u32, exp: u32) -> (r: u32)
    requires
        base >= 1,
        pw(base as nat, exp as nat) <= u32::MAX,
    ensures
        r == pw(base as nat, exp as nat),
{
    let mut r: u32 = 1;
    let mut k: u32 = 0;
    while k < exp
        invariant
            k <= exp,
            base >= 1,
            r == pw(base as nat, k as nat),
            pw(base as nat, exp as nat) <= u32::MAX,
        decreases exp - k,
    {
        proof {
            lemma_pw_monotone(base as nat, (k + 1) as nat, exp as nat);
            assert(pw(base as nat, (k + 1) as nat) == base * pw(base as nat, k as nat));
        }
        r = r * base;
        k = k + 1;
    }
    r
}

/// The product of the small primes raised to the exponents `e[i]`, where it fits in `u32`.
fn prime_power_product_exec(e: &[u32; 9]) -> (r: u32)
    requires
        prime_power_product(e@.map_values(|x: u32| x as nat), 9) <= u32::MAX,
    ensures
        r == prime_power_product(e@.map_values(|x: u32| x as nat), 9),
{
    let ghost en = e@.map_values(|x: u32| x as nat);
    let mut acc: u32 = 1;
    let mut i: usize = 0;
    while i < 9
        invariant
            i <= 9,
            e@.len() == 9,
            en == e@.map_values(|x: u32| x as nat),
            acc == prime_power_product(en, i as int),
            prime_power_product(en, 9) <= u32::MAX,
        decreases 9 - i,
    {
        let p = small_prime(i);
        proof {
            lemma_prime_power_product_monotone(en, i + 1, 9);
            lemma_prime_power_product_monotone(en, i as int, i as int);
            lemma_pw_pos(p as nat, en[i as int]);
            let a = prime_power_product(en, i as int);
            let b = pw(p as nat, en[i as int]);
            assert(b <= a * b) by (nonlinear_arith)
                requires
                    a >= 1,
            ;
        }
        let q = pow_u32(p, e[i]);
        acc = acc * q;
        i = i + 1;
    }
    acc
}

impl Monzo {
    /// The numerator of the interval: the product of the primes with positive exponent.
    pub fn numer(&self) -> (r: u32)
        requires
            numer_of(self@) <= u32::MAX,
        ensures
            r == numer_of(self@),
    {
        let mut parts = [0u32; 9];
        let mut i: usize = 0;
        while i < 9
            invariant
                i <= 9,
                parts@.len() == 9,
                self@ == self.0@,
                forall|j: int| 0 <= j < i ==> #[trigger] parts@[j] == pos_part(self@[j] as int),
            decreases 9 - i,
        {
            let x = self.0[i];
            parts[i] = if x > 0 { x as u32 } else { 0 };
            i = i + 1;
        }
        assert(parts@.map_values(|x: u32| x as nat) =~= Seq::new(9, |i: int| pos_part(self@[i] as int)));
        prime_power_product_exec(&parts)
    }

    /// The denominator of the interval: the product of the primes with negative exponent.
    pub fn denom(&self) -> (r: u32)
        requires
            denom_of(self@) <= u32::MAX,
        ensures
            r == denom_of(self@),
    {
        let mut parts = [0u32; 9];
        let mut i: usize = 0;
        while i < 9
            invariant
                i <= 9,
                parts@.len() == 9,
                self@ == self.0@,
                forall|j: int| 0 <= j < i ==> #[trigger] parts@[j] == neg_part(self@[j] as int),
            decreases 9 - i,
        {
            let x = self.0[i];
            parts[i] = if x < 0 { (-(x as i64)) as u32 } else { 0 };
            i = i + 1;
        }
        assert(parts@.map_values(|x: u32| x as nat) =~= Seq::new(9, |i: int| neg_part(self@[i] as int)));
        prime_power_product_exec(&parts)
    }

    /// The interval as a ratio in lowest terms.
    pub fn try_to_ratio(&self) -> (r: Option<RawJiRatio>)
        requires
            numer_of(self@) <= u32::MAX,
            denom_of(self@) <= u32::MAX,
        ensures
            r matches Some(x) && x@ == reduce(numer_of(self@), denom_of(self@)),
    {
        let numer = self.numer();
        let denom = self.denom();
        proof {
            lemma_prime_power_product_monotone(Seq::new(9, |i: int| pos_part(self@[i] as int)), 0, 9);
            lemma_prime_power_product_monotone(Seq::new(9, |i: int| neg_part(self@[i] as int)), 0, 9);
        }
        match RawJiRatio::try_new(numer, denom) {
            Ok(x) => Some(x),
            Err(_) => None,
        }
    }
}

/// Why a ratio has no monzo.
#[derive(Debug, PartialEq)]
pub enum CantMakeMonzo {
    /// The numerator has prime factors beyond 23; they are listed.
    NumerExceededPrimeLimit(Vec<u32>),
    /// The denominator has prime factors beyond 23; they are listed.
    DenomExceededPrimeLimit(Vec<u32>),
    /// The numerator was 0.
    NumerCantBeZero,
    /// The denominator was 0.
    DenomCantBeZero,
}

/// The numbers of a list of `u32`.
pub open spec fn nats(s: Seq<u32>) -> Seq<nat> {
    s.map_values(|x: u32| x as nat)
}

/// The prime factors of `n` beyond 23, with multiplicity, in nondecreasing order.
pub open spec fn big_factors(n: nat) -> Seq<nat> {
    trial_factors(n, 2).filter(|p: nat| p > 23)
}

/// How many times `p` occurs in `s`.
pub open spec fn count_in(s: Seq<nat>, p: nat) -> nat
    decreases s.len(),
{
    if s.len() == 0 {
        0
    } else {
        count_in(s.drop_last(), p) + if s.last() == p {
            1nat
        } else {
            0nat
        }
    }
}

/// The exponents of `numer/denom`: how often each small prime divides the numerator,
/// less how often it divides the denominator.
pub open spec fn factor_exponents(numer: nat, denom: nat) -> Seq<int> {
    Seq::new(
        9,
        |i: int| count_in(trial_factors(numer, 2), prime_at(i)) - count_in(trial_factors(denom, 2), prime_at(i)),
    )
}

proof fn lemma_count_in_le_len(s: Seq<nat>, p: nat)
    ensures
        count_in(s, p) <= s.len(),
    decreases s.len(),
{
    if s.len() > 0 {
        lemma_count_in_le_len(s.drop_last(), p);
    }
}

/// The factors of `factors` beyond 23.
fn big_ones(factors: &Vec<u32>) -> (r: Vec<u32>)
    ensures
        nats(r@) == nats(factors@).filter(|p: nat| p > 23),
{
    let mut r: Vec<u32> = Vec::new();
    let mut i: usize = 0;
    while i < factors.len()
        invariant
            i <= factors@.len(),
            nats(r@) == nats(factors@.subrange(0, i as int)).filter(|p: nat| p > 23),
        decreases factors@.len() - i,
    {
        let ghost pre = nats(factors@.subrange(0, i as int));
        let x = factors[i];
        proof {
            assert(nats(factors@.subrange(0, i + 1)) =~= pre.push(x as nat));
            pre.lemma_filter_push(x as nat, |p: nat| p > 23);
        }
        if x > 23 {
            r.push(x);
            assert(nats(r@) =~= nats(r@.drop_last()).push(x as nat));
        }
        i = i + 1;
    }
    assert(factors@.subrange(0, factors@.len() as int) =~= factors@);
    r
}

/// How many times `p` occurs in `factors`.
fn count_u32(factors: &Vec<u32>, p: u32) -> (r: i32)
    requires
        factors@.len() < 32,
    ensures
        r == count_in(nats(factors@), p as nat),
{
    let mut c: i32 = 0;
    let mut i: usize = 0;
    while i < factors.len()
        invariant
            i <= factors@.len() < 32,
            c == count_in(nats(factors@.subrange(0, i as int)), p as nat),
        decreases factors@.len() - i,
    {
        proof {
            let pre = nats(factors@.subrange(0, i as int));
            assert(nats(factors@.subrange(0, i + 1)).drop_last() =~= pre);
            lemma_count_in_le_len(pre, p as nat);
        }
        if factors[i] == p {
            c = c + 1;
        }
        i = i + 1;
    }
    assert(factors@.subrange(0, factors@.len() as int) =~= factors@);
    c
}

impl Monzo {
    /// The monzo of `numer/denom`. A zero numerator or denominator is refused, and so is a
    /// ratio with a prime factor beyond 23, in the numerator checked first.
    pub fn try_new(numer: u32, denom: u32) -> (r: Result<Monzo, CantMakeMonzo>)
        ensures
            match r {
                Err(CantMakeMonzo::NumerCantBeZero) => numer == 0,
                Err(CantMakeMonzo::DenomCantBeZero) => numer != 0 && denom == 0,
                Err(CantMakeMonzo::NumerExceededPrimeLimit(v)) => numer != 0 && denom != 0
                    && big_factors(numer as nat).len() > 0 && nats(v@) == big_factors(numer as nat),
                Err(CantMakeMonzo::DenomExceededPrimeLimit(v)) => numer != 0 && denom != 0
                    && big_factors(numer as nat).len() == 0 && big_factors(denom as nat).len() > 0
                    && nats(v@) == big_factors(denom as nat),
                Ok(m) => numer != 0 && denom != 0 && big_factors(numer as nat).len() == 0
                    && big_factors(denom as nat).len() == 0
                    && ints(m@) == factor_exponents(numer as nat, denom as nat)
                    && numer_of(m@) * denom == denom_of(m@) * numer,
            },
    {
        if numer == 0 {
            return Err(CantMakeMonzo::NumerCantBeZero);
        }
        if denom == 0 {
            return Err(CantMakeMonzo::DenomCantBeZero);
        }
        let numer_factors = factorize(numer);
        let numer_too_big = big_ones(&numer_factors);
        if numer_too_big.len() > 0 {
            return Err(CantMakeMonzo::NumerExceededPrimeLimit(numer_too_big));
        }
        let denom_factors = factorize(denom);
        let denom_too_big = big_ones(&denom_factors);
        if denom_too_big.len() > 0 {
            return Err(CantMakeMonzo::DenomExceededPrimeLimit(denom_too_big));
        }
        proof {
            crate::primes::lemma_trial_factors_len(numer as nat);
            crate::primes::lemma_trial_factors_len(denom as nat);
        }
        let mut arr = [0i32; 9];
        let mut i: usize = 0;
        while i < 9
            invariant
                i <= 9,
                arr@.len() == 9,
                numer_factors@.len() < 32,
                denom_factors@.len() < 32,
                nats(numer_factors@) == trial_factors(numer as nat, 2),
                nats(denom_factors@) == trial_factors(denom as nat, 2),
                forall|j: int| 0 <= j < i ==> #[trigger] arr@[j] == factor_exponents(numer as nat, denom as nat)[j],
            decreases 9 - i,
        {
            let p = small_prime(i);
            let a = count_u32(&numer_factors, p);
            let b = count_u32(&denom_factors, p);
            arr[i] = a - b;
            i = i + 1;
        }
        let m = Monzo(arr);
        assert(ints(m@) =~= factor_exponents(numer as nat, denom as nat));
        proof {
            lemma_monzo_of_ratio_value(numer as nat, denom as nat, m@);
        }
        Ok(m)
    }

    /// The monzo of a ratio, where its primes are small enough.
    pub fn try_from_ratio(r: RawJiRatio) -> (res: Result<Monzo, CantMakeMonzo>)
        ensures
            match res {
                Err(CantMakeMonzo::NumerExceededPrimeLimit(v)) => big_factors(r@.0).len() > 0
                    && nats(v@) == big_factors(r@.0),
                Err(CantMakeMonzo::DenomExceededPrimeLimit(v)) => big_factors(r@.0).len() == 0
                    && big_factors(r@.1).len() > 0 && nats(v@) == big_factors(r@.1),
                Ok(m) => big_factors(r@.0).len() == 0 && big_factors(r@.1).len() == 0
                    && ints(m@) == factor_exponents(r@.0, r@.1)
                    && reduce(numer_of(m@), denom_of(m@)) == r@
                    && numer_of(m@) <= r@.0 && denom_of(m@) <= r@.1,
                _ => false,
            },
    {
        proof {
            use_type_invariant(&r);
        }
        let res = Monzo::try_new(r.numer(), r.denom());
        proof {
            if let Ok(m) = res {
                lemma_ratio_monzo_round_trip(r@, m@);
                lemma_monzo_of_ratio_parts(r@.0, r@.1, m@);
            }
        }
        res
    }
}

/// The ratio `v` lies below the half octave: `v * v` is smaller than `2/1`.
pub open spec fn below_half_octave(v: (nat, nat)) -> bool {
    v.0 * v.0 < 2 * (v.1 * v.1)
}

/// The exponents of the monzo of `v`, or those of the unison when a prime beyond 23 divides it.
pub open spec fn monzo_or_unison(v: (nat, nat)) -> Seq<int> {
    if big_factors(v.0).len() == 0 && big_factors(v.1).len() == 0 {
        factor_exponents(v.0, v.1)
    } else {
        Seq::new(9, |i: int| 0int)
    }
}

/// The exponents of the monzos of the ratios of `vs` below the half octave, in order.
pub open spec fn half_octave_exponents(vs: Seq<(nat, nat)>) -> Seq<Seq<int>>
    decreases vs.len(),
{
    if vs.len() == 0 {
        Seq::empty()
    } else {
        let p = half_octave_exponents(vs.drop_last());
        if below_half_octave(vs.last()) {
            p.push(monzo_or_unison(vs.last()))
        } else {
            p
        }
    }
}

/// The monzos of the ratios below the half octave, in order; a ratio with a prime beyond 23
/// gives the unison.
pub fn monzos_below_half_octave(ratios: &[RawJiRatio]) -> (r: Vec<Monzo>)
    ensures
        r@.len() == half_octave_exponents(ratio_views(ratios@)).len(),
        forall|i: int| 0 <= i < r@.len() ==> ints(#[trigger] r@[i]@) == half_octave_exponents(ratio_views(ratios@))[i],
{
    let ghost vs = ratio_views(ratios@);
    let mut r: Vec<Monzo> = Vec::new();
    let mut i: usize = 0;
    while i < ratios.len()
        invariant
            i <= ratios@.len(),
            vs == ratio_views(ratios@),
            r@.len() == half_octave_exponents(vs.subrange(0, i as int)).len(),
            forall|j: int| 0 <= j < r@.len() ==> ints(#[trigger] r@[j]@) == half_octave_exponents(vs.subrange(0, i as int))[j],
        decreases ratios@.len() - i,
    {
        let x = ratios[i];
        let ghost prev = half_octave_exponents(vs.subrange(0, i as int));
        proof {
            assert(vs.subrange(0, i + 1).drop_last() =~= vs.subrange(0, i as int));
            assert(vs.subrange(0, i + 1).last() == x@);
        }
        let n = x.numer() as u128;
        let d = x.denom() as u128;
        assert(n * n <= 0xffff_ffff_ffff_ffff_ffff_ffff && 2 * (d * d) <= 0xffff_ffff_ffff_ffff_ffff_ffff) by (nonlinear_arith)
            requires
                n <= 0xffff_ffff,
                d <= 0xffff_ffff,
        ;
        if n * n < 2 * (d * d) {
            let m = match Monzo::try_from_ratio(x) {
                Ok(m) => m,
                Err(_) => Monzo::unison(),
            };
            assert(ints(m@) == monzo_or_unison(x@));
            r.push(m);
        }
        i = i + 1;
    }
    assert(vs.subrange(0, ratios@.len() as int) =~= vs);
    r
}

/// The `i`th exponents of the first `k` monzos, added up.
pub open spec fn column_sum(ms: Seq<Monzo>, i: int, k: int) -> int
    decreases k,
{
    if k <= 0 {
        0
    } else {
        column_sum(ms, i, k - 1) + ms[k - 1]@[i]
    }
}

impl Monzo {
    /// The sum of a list of monzos, starting from the unison: the product of the intervals.
    pub fn sum(monzos: &[Monzo]) -> (r: Monzo)
        requires
            forall|i: int, k: int| 0 <= i < 9 && 0 <= k <= monzos@.len() ==> fits_i32(#[trigger] column_sum(monzos@, i, k)),
        ensures
            forall|i: int| 0 <= i < 9 ==> #[trigger] r@[i] == column_sum(monzos@, i, monzos@.len() as int),
    {
        let mut acc = Monzo::unison();
        proof {
            assert forall|i: int| 0 <= i < 9 implies #[trigger] acc@[i] == column_sum(monzos@, i, 0) by {
                assert(ints(acc@)[i] == 0);
            }
        }
        let mut k: usize = 0;
        while k < monzos.len()
            invariant
                k <= monzos@.len(),
                forall|i: int, j: int| 0 <= i < 9 && 0 <= j <= monzos@.len() ==> fits_i32(#[trigger] column_sum(monzos@, i, j)),
                forall|i: int| 0 <= i < 9 ==> #[trigger] acc@[i] == column_sum(monzos@, i, k as int),
            decreases monzos@.len() - k,
        {
            proof {
                assert forall|i: int| 0 <= i < 9 implies fits_i32(acc@[i] + monzos@[k as int]@[i]) by {
                    assert(fits_i32(column_sum(monzos@, i, k + 1)));
                }
            }
            acc = acc.add(monzos[k]);
            k = k + 1;
        }
        acc
    }
}

impl Monzo {
    /// Whether the interval of `self` is smaller than that of `other`, compared exactly as
    /// ratios of their numerators and denominators.
    pub fn less_than(&self, other: &Monzo) -> (r: bool)
        requires
            numer_of(self@) <= u32::MAX,
            denom_of(self@) <= u32::MAX,
            numer_of(other@) <= u32::MAX,
            denom_of(other@) <= u32::MAX,
        ensures
            r == (numer_of(self@) * denom_of(other@) < numer_of(other@) * denom_of(self@)),
    {
        let a = self.numer() as u64;
        let b = self.denom() as u64;
        let c = other.numer() as u64;
        let d = other.denom() as u64;
        assert(a * d <= 0xffff_ffff * 0xffff_ffff) by (nonlinear_arith)
            requires
                a <= 0xffff_ffff,
                d <= 0xffff_ffff,
        ;
        assert(c * b <= 0xffff_ffff * 0xffff_ffff) by (nonlinear_arith)
            requires
                c <= 0xffff_ffff,
                b <= 0xffff_ffff,
        ;
        a * d < c * b
    }
}

// ---------------------------------------------------------------------------
// The monzo of a ratio has the value of the ratio
// ---------------------------------------------------------------------------

proof fn lemma_small_prime_is_listed(p: nat)
    requires
        is_prime(p),
        p <= 23,
    ensures
        exists|i: int| 0 <= i < 9 && prime_at(i) == p,
{
    if p > 2 {
        assert(p % 2 != 0);
    }
    if p > 3 {
        assert(p % 3 != 0);
    }
    if p == 2 {
        assert(prime_at(0) == p);
    } else if p == 3 {
        assert(prime_at(1) == p);
    } else if p == 5 {
        assert(prime_at(2) == p);
    } else if p == 7 {
        assert(prime_at(3) == p);
    } else if p == 11 {
        assert(prime_at(4) == p);
    } else if p == 13 {
        assert(prime_at(5) == p);
    } else if p == 17 {
        assert(prime_at(6) == p);
    } else if p == 19 {
        assert(prime_at(7) == p);
    } else {
        assert(p == 23);
        assert(prime_at(8) == p);
    }
}

proof fn lemma_product_push(s: Seq<nat>, x: nat)
    ensures
        product(s.push(x)) == product(s) * x,
    decreases s.len(),
{
    if s.len() == 0 {
        assert(s.push(x).drop_first() =~= Seq::<nat>::empty());
        assert(product(Seq::<nat>::empty()) == 1);
        assert(product(s.push(x)) == s.push(x)[0] * product(s.push(x).drop_first()));
        assert(s.push(x)[0] == x);
        assert(product(s) == 1);
        assert(x * 1 == 1 * x) by (nonlinear_arith);
    } else {
        assert(s.push(x).drop_first() =~= s.drop_first().push(x));
        lemma_product_push(s.drop_first(), x);
        let a = s[0];
        let b = product(s.drop_first());
        assert(product(s.push(x)) == s.push(x)[0] * product(s.push(x).drop_first()));
        assert(s.push(x)[0] == a);
        assert(product(s) == a * b);
        assert(a * (b * x) == (a * b) * x) by (nonlinear_arith);
    }
}

/// How often each small prime occurs in `s`.
pub open spec fn prime_counts(s: Seq<nat>) -> Seq<nat> {
    Seq::new(9, |i: int| count_in(s, prime_at(i)))
}

proof fn lemma_prime_power_product_bump(e: Seq<nat>, e2: Seq<nat>, j: int, k: int)
    requires
        0 <= j < 9,
        0 <= k <= 9,
        e.len() == 9,
        e2.len() == 9,
        e2[j] == e[j] + 1,
        forall|i: int| 0 <= i < 9 && i != j ==> e2[i] == e[i],
    ensures
        prime_power_product(e2, k) == prime_power_product(e, k) * (if j < k { prime_at(j) } else { 1nat }),
    decreases k,
{
    if k > 0 {
        lemma_prime_power_product_bump(e, e2, j, k - 1);
        let a = prime_power_product(e, k - 1);
        let f = if j < k - 1 { prime_at(j) } else { 1nat };
        if k - 1 == j {
            assert(pw(prime_at(j), e2[j]) == prime_at(j) * pw(prime_at(j), e[j]));
            let b = pw(prime_at(j), e[j]);
            assert((a * f) * (prime_at(j) * b) == (a * b) * prime_at(j)) by (nonlinear_arith)
                requires
                    f == 1,
            ;
        } else {
            let b = pw(prime_at(k - 1), e[k - 1]);
            assert(e2[k - 1] == e[k - 1]);
            assert((a * f) * b == (a * b) * f) by (nonlinear_arith);
        }
    }
}

proof fn lemma_prime_counts_product(s: Seq<nat>)
    requires
        forall|i: int| 0 <= i < s.len() ==> exists|j: int| 0 <= j < 9 && prime_at(j) == #[trigger] s[i],
    ensures
        prime_power_product(prime_counts(s), 9) == product(s),
    decreases s.len(),
{
    if s.len() == 0 {
        assert forall|k: int| 0 <= k <= 9 implies #[trigger] prime_power_product(prime_counts(s), k) == 1 by {
            lemma_ppp_zero(prime_counts(s), k);
        }
        assert(product(s) == 1);
    } else {
        let t = s.drop_last();
        let x = s.last();
        assert(s == t.push(x));
        assert forall|i: int| 0 <= i < t.len() implies exists|j: int| 0 <= j < 9 && prime_at(j) == #[trigger] t[i] by {
            assert(t[i] == s[i]);
        }
        lemma_prime_counts_product(t);
        lemma_product_push(t, x);
        assert(exists|j: int| 0 <= j < 9 && prime_at(j) == s[s.len() - 1]);
        let j = choose|j: int| 0 <= j < 9 && prime_at(j) == s[s.len() - 1];
        let e = prime_counts(t);
        let e2 = prime_counts(s);
        assert forall|i: int| 0 <= i < 9 implies #[trigger] e2[i] == e[i] + (if i == j { 1nat } else { 0nat }) by {
            assert(s.drop_last() == t);
            if i != j {
                assert(prime_at(i) != prime_at(j)) by {
                    reveal_with_fuel(prime_at, 1);
                }
            }
        }
        lemma_prime_power_product_bump(e, e2, j, 9);
    }
}

proof fn lemma_ppp_zero(e: Seq<nat>, k: int)
    requires
        0 <= k <= 9,
        e.len() == 9,
        forall|i: int| 0 <= i < 9 ==> e[i] == 0,
    ensures
        prime_power_product(e, k) == 1,
    decreases k,
{
    if k > 0 {
        lemma_ppp_zero(e, k - 1);
        assert(pw(prime_at(k - 1), e[k - 1]) == 1);
    }
}

/// The factors of `n` are small primes when none is beyond 23.
proof fn lemma_factors_listed(n: nat)
    requires
        n >= 1,
        big_factors(n).len() == 0,
    ensures
        forall|i: int| 0 <= i < trial_factors(n, 2).len() ==> exists|j: int| 0 <= j < 9 && prime_at(j) == #[trigger] trial_factors(n, 2)[i],
        prime_power_product(prime_counts(trial_factors(n, 2)), 9) == n,
{
    let f = trial_factors(n, 2);
    lemma_trial_factors_prime(n);
    assert forall|i: int| 0 <= i < f.len() implies exists|j: int| 0 <= j < 9 && prime_at(j) == #[trigger] f[i] by {
        if f[i] > 23 {
            f.lemma_filter_contains(|p: nat| p > 23, i);
            assert(big_factors(n).contains(f[i]));
        }
        lemma_small_prime_is_listed(f[i]);
    }
    lemma_prime_counts_product(f);
}

proof fn lemma_exponent_split(p: nat, a: nat, b: nat)
    ensures
        pw(p, pos_part(a - b)) * pw(p, b) == pw(p, neg_part(a - b)) * pw(p, a),
{
    if a >= b {
        crate::ji_ratio::lemma_pw_add(p, (a - b) as nat, b);
        assert(pos_part(a - b) == (a - b) as nat);
        assert(neg_part(a - b) == 0);
        assert(((a - b) as nat + b) as nat == a);
        assert(pw(p, 0) == 1);
        let x = pw(p, a);
        assert(1 * x == x) by (nonlinear_arith);
    } else {
        crate::ji_ratio::lemma_pw_add(p, (b - a) as nat, a);
        assert(neg_part(a - b) == (b - a) as nat);
        assert(pos_part(a - b) == 0);
        assert(((b - a) as nat + a) as nat == b);
        assert(pw(p, 0) == 1);
        let x = pw(p, b);
        assert(1 * x == x) by (nonlinear_arith);
    }
}

proof fn lemma_exponents_value(cn: Seq<nat>, cd: Seq<nat>, pos: Seq<nat>, neg: Seq<nat>, k: int)
    requires
        0 <= k <= 9,
        cn.len() == 9,
        cd.len() == 9,
        pos.len() == 9,
        neg.len() == 9,
        forall|i: int| 0 <= i < 9 ==> #[trigger] pos[i] == pos_part(cn[i] - cd[i]),
        forall|i: int| 0 <= i < 9 ==> #[trigger] neg[i] == neg_part(cn[i] - cd[i]),
    ensures
        prime_power_product(pos, k) * prime_power_product(cd, k) == prime_power_product(neg, k) * prime_power_product(cn, k),
    decreases k,
{
    if k > 0 {
        lemma_exponents_value(cn, cd, pos, neg, k - 1);
        let p = prime_at(k - 1);
        lemma_exponent_split(p, cn[k - 1], cd[k - 1]);
        let a = prime_power_product(pos, k - 1);
        let b = prime_power_product(cd, k - 1);
        let c = prime_power_product(neg, k - 1);
        let d = prime_power_product(cn, k - 1);
        let x = pw(p, pos[k - 1]);
        let y = pw(p, cd[k - 1]);
        let z = pw(p, neg[k - 1]);
        let w = pw(p, cn[k - 1]);
        assert((a * x) * (b * y) == (c * z) * (d * w)) by (nonlinear_arith)
            requires
                a * b == c * d,
                x * y == z * w,
        ;
    }
}

/// The monzo of `numer/denom` (when no prime factor is beyond 23) has the value of
/// `numer/denom`: its numerator over its denominator equals `numer/denom`.
pub proof fn lemma_monzo_of_ratio_value(numer: nat, denom: nat, m: Seq<i32>)
    requires
        numer >= 1,
        denom >= 1,
        big_factors(numer).len() == 0,
        big_factors(denom).len() == 0,
        ints(m) == factor_exponents(numer, denom),
    ensures
        numer_of(m) * denom == denom_of(m) * numer,
{
    lemma_factors_listed(numer);
    lemma_factors_listed(denom);
    let cn = prime_counts(trial_factors(numer, 2));
    let cd = prime_counts(trial_factors(denom, 2));
    let pos = Seq::new(9, |i: int| pos_part(m[i] as int));
    let neg = Seq::new(9, |i: int| neg_part(m[i] as int));
    assert(ints(m).len() == 9);
    assert(m.len() == 9);
    assert forall|i: int| 0 <= i < 9 implies #[trigger] pos[i] == pos_part(cn[i] - cd[i]) by {
        assert(ints(m)[i] == factor_exponents(numer, denom)[i]);
        assert(ints(m)[i] == m[i] as int);
        assert(cn[i] == count_in(trial_factors(numer, 2), prime_at(i)));
        assert(cd[i] == count_in(trial_factors(denom, 2), prime_at(i)));
    }
    assert forall|i: int| 0 <= i < 9 implies #[trigger] neg[i] == neg_part(cn[i] - cd[i]) by {
        assert(ints(m)[i] == factor_exponents(numer, denom)[i]);
        assert(ints(m)[i] == m[i] as int);
        assert(cn[i] == count_in(trial_factors(numer, 2), prime_at(i)));
        assert(cd[i] == count_in(trial_factors(denom, 2), prime_at(i)));
    }
    lemma_exponents_value(cn, cd, pos, neg, 9);
}

/// Raising no exponent above another list's keeps the product of prime powers below it.
proof fn lemma_prime_power_product_le(e: Seq<nat>, f: Seq<nat>, k: int)
    requires
        0 <= k <= 9,
        forall|i: int| 0 <= i < k ==> #[trigger] e[i] <= f[i],
    ensures
        prime_power_product(e, k) <= prime_power_product(f, k),
    decreases k,
{
    if k > 0 {
        lemma_prime_power_product_le(e, f, k - 1);
        lemma_prime_at_pos(k - 1);
        let p = prime_at(k - 1);
        lemma_pw_monotone(p, e[k - 1], f[k - 1]);
        let a = prime_power_product(e, k - 1);
        let b = prime_power_product(f, k - 1);
        let x = pw(p, e[k - 1]);
        let y = pw(p, f[k - 1]);
        assert(a * x <= b * y) by (nonlinear_arith)
            requires
                a <= b,
                x <= y,
        ;
    }
}

/// The monzo of `numer/denom` (when no prime factor is beyond 23) has a numerator no larger
/// than `numer` and a denominator no larger than `denom`, so it converts back within the
/// bounds of the ratio.
pub proof fn lemma_monzo_of_ratio_parts(numer: nat, denom: nat, m: Seq<i32>)
    requires
        numer >= 1,
        denom >= 1,
        big_factors(numer).len() == 0,
        big_factors(denom).len() == 0,
        ints(m) == factor_exponents(numer, denom),
    ensures
        numer_of(m) <= numer,
        denom_of(m) <= denom,
{
    lemma_factors_listed(numer);
    lemma_factors_listed(denom);
    let cn = prime_counts(trial_factors(numer, 2));
    let cd = prime_counts(trial_factors(denom, 2));
    let pos = Seq::new(9, |i: int| pos_part(m[i] as int));
    let neg = Seq::new(9, |i: int| neg_part(m[i] as int));
    assert(ints(m).len() == 9);
    assert forall|i: int| 0 <= i < 9 implies #[trigger] pos[i] <= cn[i] && neg[i] <= cd[i] by {
        assert(ints(m)[i] == factor_exponents(numer, denom)[i]);
        assert(ints(m)[i] == m[i] as int);
        assert(cn[i] == count_in(trial_factors(numer, 2), prime_at(i)));
        assert(cd[i] == count_in(trial_factors(denom, 2), prime_at(i)));
    }
    lemma_prime_power_product_le(pos, cn, 9);
    assert forall|i: int| 0 <= i < 9 implies #[trigger] neg[i] <= cd[i] by {
        assert(pos[i] <= cn[i] && neg[i] <= cd[i]);
    }
    lemma_prime_power_product_le(neg, cd, 9);
}

/// A ratio in lowest terms whose primes are small goes to a monzo and back unchanged:
/// the numerator and denominator of its monzo, reduced, are the ratio.
pub proof fn lemma_ratio_monzo_round_trip(r: (nat, nat), m: Seq<i32>)
    requires
        ratio_wf(r),
        big_factors(r.0).len() == 0,
        big_factors(r.1).len() == 0,
        ints(m) == factor_exponents(r.0, r.1),
    ensures
        reduce(numer_of(m), denom_of(m)) == r,
{
    lemma_monzo_of_ratio_value(r.0, r.1, m);
    assert(m.len() == 9) by {
        assert(ints(m).len() == 9);
    }
    lemma_prime_power_product_monotone(Seq::new(9, |i: int| pos_part(m[i] as int)), 0, 9);
    lemma_prime_power_product_monotone(Seq::new(9, |i: int| neg_part(m[i] as int)), 0, 9);
    let a = numer_of(m);
    let b = denom_of(m);
    lemma_reduce(a, b);
    let q = reduce(a, b);
    assert(q.0 * r.1 == r.0 * q.1) by (nonlinear_arith)
        requires
            q.0 * b == a * q.1,
            a * r.1 == b * r.0,
            b > 0,
    ;
    lemma_ratio_eq(q, r);
}

// ---------------------------------------------------------------------------
// Linear Diophantine equations with bounded solutions
// ---------------------------------------------------------------------------

/// The number of integers from `-bound` to `bound`.
pub open spec fn range_len(bound: int) -> nat {
    if bound >= 0 {
        (2 * bound + 1) as nat
    } else {
        0
    }
}

/// The rows of a list of integer vectors, as integers.
pub open spec fn int_rows(v: Seq<Vec<i32>>) -> Seq<Seq<int>> {
    v.map_values(|r: Vec<i32>| ints(r@))
}

/// The solutions found for `cs . x == c`: for one coefficient `a` dividing `c`, the one
/// solution `c / a`; for more, the solutions
/// of the homogeneous equation shifted by the Bézout solution scaled to `c`, when the greatest
/// common divisor divides `c`.
pub open spec fn dioph_rec(cs: Seq<int>, c: int, bound: int) -> Seq<Seq<int>>
    decreases cs.len(), 2int, 0int,
{
    if cs.len() == 0 {
        Seq::empty()
    } else if cs.len() == 1 {
        if divides(cs[0], c) {
            seq![seq![trunc_div(c, cs[0])]]
        } else {
            Seq::empty()
        }
    } else {
        let d = bezout_list(cs).0;
        if divides(d, c) {
            let p = bezout_list(cs).1.map_values(|x: int| x * trunc_div(c, d));
            dioph_homog(cs, bound).map_values(|sol: Seq<int>| Seq::new(sol.len(), |i: int| sol[i] + p[i]))
        } else {
            Seq::empty()
        }
    }
}

/// The solutions found for `cs . x == 0`: `[0]` for one coefficient; `k (b/d, -a/d)` for two,
/// `d` their greatest common divisor; for more, `k` followed by each solution found for the
/// rest of the coefficients with constant `-k cs[0]`, for `k` from `-bound` to `bound`.
pub open spec fn dioph_homog(cs: Seq<int>, bound: int) -> Seq<Seq<int>>
    decreases cs.len(), 1int, 0int,
{
    if cs.len() == 0 {
        Seq::empty()
    } else if cs.len() == 1 {
        seq![seq![0int]]
    } else if cs.len() == 2 {
        let d = bezout_list(cs).0;
        Seq::new(
            range_len(bound),
            |t: int| seq![(t - bound) * trunc_div(cs[1], d), -(t - bound) * trunc_div(cs[0], d)],
        )
    } else {
        homog_from(cs, bound, -bound)
    }
}

/// The part of the homogeneous solutions (three or more coefficients) whose first entry is
/// `k` or more.
pub open spec fn homog_from(cs: Seq<int>, bound: int, k: int) -> Seq<Seq<int>>
    decreases cs.len(), 0int, bound - k + 1,
{
    if k > bound || cs.len() < 1 {
        Seq::empty()
    } else {
        dioph_rec(cs.drop_first(), -k * cs[0], bound).map_values(|sol: Seq<int>| seq![k] + sol)
            + homog_from(cs, bound, k + 1)
    }
}

/// Every number computed on the way to `dioph_rec(cs, c, bound)` fits in an `i32`, and no
/// division is by zero.
pub open spec fn dioph_rec_fits(cs: Seq<int>, c: int, bound: int) -> bool
    decreases cs.len(), 2int, 0int,
{
    if cs.len() == 0 {
        true
    } else if cs.len() == 1 {
        &&& cs[0] != 0
        &&& divides(cs[0], c) ==> fits_i32(trunc_div(c, cs[0]))
    } else {
        let d = bezout_list(cs).0;
        let p = bezout_list(cs).1.map_values(|x: int| x * trunc_div(c, d));
        let h = dioph_homog(cs, bound);
        &&& dioph_homog_fits(cs, bound)
        &&& bezout_list_fits(cs)
        &&& d != 0
        &&& divides(d, c) ==> {
            &&& fits_i32(trunc_div(c, d))
            &&& forall|i: int| 0 <= i < p.len() ==> fits_i32(#[trigger] p[i])
            &&& forall|j: int, i: int| 0 <= j < h.len() && 0 <= i < h[j].len() ==> fits_i32(#[trigger] h[j][i] + p[i])
        }
    }
}

/// Every number computed on the way to `dioph_homog(cs, bound)` fits in an `i32`, and no
/// division is by zero.
pub open spec fn dioph_homog_fits(cs: Seq<int>, bound: int) -> bool
    decreases cs.len(), 1int, 0int,
{
    if cs.len() <= 1 {
        true
    } else if cs.len() == 2 {
        let d = bezout_list(cs).0;
        &&& bezout_list_fits(cs)
        &&& d != 0
        &&& forall|t: int| 0 <= t < range_len(bound) ==> {
            &&& fits_i32(#[trigger] ((t - bound) * trunc_div(cs[1], d)))
            &&& fits_i32(-(t - bound) * trunc_div(cs[0], d))
        }
    } else {
        homog_from_fits(cs, bound, -bound)
    }
}

/// Every number computed on the way to `homog_from(cs, bound, k)` fits in an `i32`.
pub open spec fn homog_from_fits(cs: Seq<int>, bound: int, k: int) -> bool
    decreases cs.len(), 0int, bound - k + 1,
{
    if k > bound || cs.len() < 1 {
        true
    } else {
        &&& fits_i32(-k * cs[0])
        &&& dioph_rec_fits(cs.drop_first(), -k * cs[0], bound)
        &&& homog_from_fits(cs, bound, k + 1)
    }
}

proof fn lemma_dioph_rec_lens(cs: Seq<int>, c: int, b: int)
    ensures
        forall|j: int| 0 <= j < dioph_rec(cs, c, b).len() ==> #[trigger] dioph_rec(cs, c, b)[j].len() == cs.len(),
    decreases cs.len(), 2int, 0int,
{
    let r = dioph_rec(cs, c, b);
    if cs.len() == 1 {
        assert forall|j: int| 0 <= j < r.len() implies #[trigger] r[j].len() == cs.len() by {
            if divides(cs[0], c) {
                assert(r[j] == seq![trunc_div(c, cs[0])]);
            }
        }
    } else if cs.len() >= 2 {
        lemma_dioph_homog_lens(cs, b);
        let d = bezout_list(cs).0;
        let p = bezout_list(cs).1.map_values(|x: int| x * trunc_div(c, d));
        let h = dioph_homog(cs, b);
        assert forall|j: int| 0 <= j < r.len() implies #[trigger] r[j].len() == cs.len() by {
            if divides(d, c) {
                assert(r[j] == Seq::new(h[j].len(), |i: int| h[j][i] + p[i]));
            }
        }
    }
}

proof fn lemma_dioph_homog_lens(cs: Seq<int>, b: int)
    ensures
        forall|j: int| 0 <= j < dioph_homog(cs, b).len() ==> #[trigger] dioph_homog(cs, b)[j].len() == cs.len(),
    decreases cs.len(), 1int, 0int,
{
    let h = dioph_homog(cs, b);
    if cs.len() == 1 {
        assert(h == seq![seq![0int]]);
        assert(h.len() == 1);
        assert(h[0].len() == 1);
    } else if cs.len() == 2 {
        let d = bezout_list(cs).0;
        assert forall|j: int| 0 <= j < h.len() implies #[trigger] h[j].len() == cs.len() by {
            assert(h[j] == seq![(j - b) * trunc_div(cs[1], d), -(j - b) * trunc_div(cs[0], d)]);
        }
    } else if cs.len() >= 3 {
        lemma_homog_from_lens(cs, b, -b);
        assert(h == homog_from(cs, b, -b));
    }
}

proof fn lemma_homog_from_lens(cs: Seq<int>, b: int, k: int)
    requires
        cs.len() >= 1,
    ensures
        forall|j: int| 0 <= j < homog_from(cs, b, k).len() ==> #[trigger] homog_from(cs, b, k)[j].len() == cs.len(),
    decreases cs.len(), 0int, b - k + 1,
{
    if k <= b {
        lemma_dioph_rec_lens(cs.drop_first(), -k * cs[0], b);
        lemma_homog_from_lens(cs, b, k + 1);
        let first = dioph_rec(cs.drop_first(), -k * cs[0], b).map_values(|sol: Seq<int>| seq![k] + sol);
        let rest = homog_from(cs, b, k + 1);
        assert forall|j: int| 0 <= j < (first + rest).len() implies #[trigger] (first + rest)[j].len() == cs.len() by {
            if j < first.len() {
                assert(first[j] == seq![k] + dioph_rec(cs.drop_first(), -k * cs[0], b)[j]);
            } else {
                assert((first + rest)[j] == rest[j - first.len()]);
            }
        }
    }
}

/// The rows of `rows`, each with `k` put in front.
fn prepend_all(rows: Vec<Vec<i32>>, k: i32) -> (r: Vec<Vec<i32>>)
    ensures
        int_rows(r@) == int_rows(rows@).map_values(|sol: Seq<int>| seq![k as int] + sol),
{
    let mut r: Vec<Vec<i32>> = Vec::new();
    let mut j: usize = 0;
    while j < rows.len()
        invariant
            j <= rows@.len(),
            int_rows(r@) == int_rows(rows@).map_values(|sol: Seq<int>| seq![k as int] + sol).subrange(0, j as int),
        decreases rows@.len() - j,
    {
        let mut row: Vec<i32> = Vec::new();
        row.push(k);
        let mut i: usize = 0;
        while i < rows[j].len()
            invariant
                j < rows@.len(),
                i <= rows@[j as int]@.len(),
                ints(row@) == seq![k as int] + ints(rows@[j as int]@).subrange(0, i as int),
            decreases rows@[j as int]@.len() - i,
        {
            let ghost rb = row@;
            row.push(rows[j][i]);
            assert(ints(row@) =~= ints(rb).push(rows@[j as int]@[i as int] as int));
            assert(ints(row@) =~= seq![k as int] + ints(rows@[j as int]@).subrange(0, i + 1));
            i = i + 1;
        }
        assert(ints(rows@[j as int]@).subrange(0, rows@[j as int]@.len() as int) =~= ints(rows@[j as int]@));
        let ghost before = r@;
        r.push(row);
        assert(int_rows(r@) =~= int_rows(before).push(ints(row@)));
        assert(int_rows(r@) =~= int_rows(rows@).map_values(|sol: Seq<int>| seq![k as int] + sol).subrange(0, j + 1));
        j = j + 1;
    }
    assert(int_rows(rows@).map_values(|sol: Seq<int>| seq![k as int] + sol).subrange(0, rows@.len() as int)
        =~= int_rows(rows@).map_values(|sol: Seq<int>| seq![k as int] + sol));
    r
}

/// Solutions of `coeffs . x == constant` built from the Bézout coefficients; see `dioph_rec`.
pub fn solve_linear_diophantine_rec(coeffs: &[i32], constant: i32, bound: i32) -> (r: Vec<Vec<i32>>)
    requires
        dioph_rec_fits(ints(coeffs@), constant as int, bound as int),
    ensures
        int_rows(r@) == dioph_rec(ints(coeffs@), constant as int, bound as int),
    decreases coeffs@.len(), 2int, 0int,
{
    let ghost cs = ints(coeffs@);
    let ghost b = bound as int;
    let ghost c = constant as int;
    if coeffs.len() == 0 {
        let r: Vec<Vec<i32>> = Vec::new();
        assert(int_rows(r@) =~= Seq::<Seq<int>>::empty());
        return r;
    }
    if coeffs.len() == 1 {
        let a = coeffs[0];
        if !divides_i32(a, constant) {
            let r: Vec<Vec<i32>> = Vec::new();
            assert(int_rows(r@) =~= Seq::<Seq<int>>::empty());
            return r;
        }
        proof {
            if constant == i32::MIN && a == -1 {
                assert(trunc_div(c, a as int) == 0x8000_0000);
            }
        }
        let v = trunc_div_i32(constant, a);
        let mut one: Vec<i32> = Vec::new();
        one.push(v);
        let mut r: Vec<Vec<i32>> = Vec::new();
        r.push(one);
        assert(cs[0] == a as int);
        assert(ints(one@) =~= seq![trunc_div(c, cs[0])]);
        assert(int_rows(r@)[0] == ints(r@[0]@));
        assert(int_rows(r@) =~= dioph_rec(cs, c, b));
        return r;
    }
    let homog = solve_linear_diophantine_homogeneous(coeffs, bound);
    let (d, xs) = bezout(coeffs);
    proof {
        lemma_bezout_list(cs);
    }
    if !divides_i32(d, constant) {
        let r: Vec<Vec<i32>> = Vec::new();
        assert(int_rows(r@) =~= Seq::<Seq<int>>::empty());
        return r;
    }
    let q = trunc_div_i32(constant, d);
    let ghost p = bezout_list(cs).1.map_values(|x: int| x * trunc_div(c, d as int));
    let mut pv: Vec<i32> = Vec::new();
    let mut i: usize = 0;
    while i < xs.len()
        invariant
            i <= xs@.len(),
            xs@.len() == p.len(),
            forall|k: int| 0 <= k < p.len() ==> fits_i32(#[trigger] p[k]),
            forall|k: int| 0 <= k < p.len() ==> #[trigger] p[k] == (xs@[k] as int) * (q as int),
            pv@.len() == i,
            forall|k: int| 0 <= k < i ==> #[trigger] pv@[k] as int == p[k],
        decreases xs@.len() - i,
    {
        assert(fits_i32(p[i as int]));
        pv.push(xs[i] * q);
        i = i + 1;
    }
    let ghost h = dioph_homog(cs, b);
    proof {
        lemma_dioph_homog_lens(cs, b);
    }
    let mut r: Vec<Vec<i32>> = Vec::new();
    let mut j: usize = 0;
    while j < homog.len()
        invariant
            j <= homog@.len(),
            int_rows(homog@) == h,
            pv@.len() == p.len(),
            forall|k: int| 0 <= k < p.len() ==> #[trigger] pv@[k] as int == p[k],
            forall|jj: int, k: int| 0 <= jj < h.len() && 0 <= k < h[jj].len() ==> fits_i32(#[trigger] h[jj][k] + p[k]),
            int_rows(r@) == h.map_values(|sol: Seq<int>| Seq::new(sol.len(), |k: int| sol[k] + p[k])).subrange(0, j as int),
            forall|jj: int| 0 <= jj < h.len() ==> #[trigger] h[jj].len() <= p.len(),
        decreases homog@.len() - j,
    {
        let mut row: Vec<i32> = Vec::new();
        let mut k: usize = 0;
        let ghost hj = h[j as int];
        assert(ints(homog@[j as int]@) == hj);
        while k < homog[j].len()
            invariant
                j < homog@.len(),
                k <= homog@[j as int]@.len(),
                ints(homog@[j as int]@) == hj,
                hj == h[j as int],
                hj.len() <= p.len(),
                pv@.len() == p.len(),
                forall|kk: int| 0 <= kk < p.len() ==> #[trigger] pv@[kk] as int == p[kk],
                forall|kk: int| 0 <= kk < hj.len() ==> fits_i32(#[trigger] hj[kk] + p[kk]),
                row@.len() == k,
                forall|kk: int| 0 <= kk < k ==> #[trigger] row@[kk] as int == hj[kk] + p[kk],
            decreases homog@[j as int]@.len() - k,
        {
            assert(fits_i32(hj[k as int] + p[k as int]));
            assert(hj[k as int] == homog@[j as int]@[k as int] as int);
            row.push(homog[j][k] + pv[k]);
            k = k + 1;
        }
        let ghost before = r@;
        r.push(row);
        assert(ints(row@) =~= Seq::new(hj.len(), |k: int| hj[k] + p[k]));
        assert(int_rows(r@) =~= int_rows(before).push(ints(row@)));
        assert(int_rows(r@) =~= h.map_values(|sol: Seq<int>| Seq::new(sol.len(), |k: int| sol[k] + p[k])).subrange(0, j + 1));
        j = j + 1;
    }
    assert(h.map_values(|sol: Seq<int>| Seq::new(sol.len(), |k: int| sol[k] + p[k])).subrange(0, h.len() as int)
        =~= h.map_values(|sol: Seq<int>| Seq::new(sol.len(), |k: int| sol[k] + p[k])));
    r
}

/// Solutions of `coeffs . x == 0`; see `dioph_homog`.
pub fn solve_linear_diophantine_homogeneous(coeffs: &[i32], bound: i32) -> (r: Vec<Vec<i32>>)
    requires
        dioph_homog_fits(ints(coeffs@), bound as int),
    ensures
        int_rows(r@) == dioph_homog(ints(coeffs@), bound as int),
    decreases coeffs@.len(), 1int, 0int,
{
    let ghost cs = ints(coeffs@);
    let ghost b = bound as int;
    if coeffs.len() == 0 {
        let r: Vec<Vec<i32>> = Vec::new();
        assert(int_rows(r@) =~= Seq::<Seq<int>>::empty());
        return r;
    }
    if coeffs.len() == 1 {
        let mut zero: Vec<i32> = Vec::new();
        zero.push(0);
        let mut r: Vec<Vec<i32>> = Vec::new();
        r.push(zero);
        assert(ints(zero@) =~= seq![0int]);
        assert(int_rows(r@) =~= seq![seq![0int]]);
        return r;
    }
    if coeffs.len() == 2 {
        let a = coeffs[0];
        let bb = coeffs[1];
        let (d, _) = bezout(coeffs);
        let qa = trunc_div_i32(a, d);
        let qb = trunc_div_i32(bb, d);
        let len: i64 = if bound >= 0 { 2 * (bound as i64) + 1 } else { 0 };
        let mut r: Vec<Vec<i32>> = Vec::new();
        let mut t: i64 = 0;
        while t < len
            invariant
                0 <= t <= len,
                len == range_len(b),
                b == bound,
                cs == ints(coeffs@),
                coeffs@.len() == 2,
                qa == trunc_div(cs[0], bezout_list(cs).0),
                qb == trunc_div(cs[1], bezout_list(cs).0),
                forall|u: int| 0 <= u < range_len(b) ==> {
                    &&& fits_i32(#[trigger] ((u - b) * qb))
                    &&& fits_i32(-(u - b) * qa)
                },
                r@.len() == t,
                forall|j: int| 0 <= j < t ==> #[trigger] ints(r@[j]@) == seq![(j - b) * qb, -(j - b) * qa],
            decreases len - t,
        {
            let k = (t - bound as i64) as i32;
            assert(fits_i32((t - b) * qb));
            assert(fits_i32(-(t - b) * qa));
            let mut row: Vec<i32> = Vec::new();
            row.push(k * qb);
            row.push(-k * qa);
            assert(ints(row@) =~= seq![(t - b) * qb, -(t - b) * qa]);
            r.push(row);
            t = t + 1;
        }
        assert(int_rows(r@) =~= dioph_homog(cs, b));
        return r;
    }
    homog_from_exec(coeffs, bound, -(bound as i64))
}

/// The homogeneous solutions (three or more coefficients) whose first entry is `k` or more.
fn homog_from_exec(coeffs: &[i32], bound: i32, k: i64) -> (r: Vec<Vec<i32>>)
    requires
        coeffs@.len() >= 3,
        k >= -(bound as int),
        homog_from_fits(ints(coeffs@), bound as int, k as int),
    ensures
        int_rows(r@) == homog_from(ints(coeffs@), bound as int, k as int),
    decreases coeffs@.len(), 0int, bound - k + 1,
{
    let ghost cs = ints(coeffs@);
    if k > bound as i64 {
        let r: Vec<Vec<i32>> = Vec::new();
        assert(int_rows(r@) =~= Seq::<Seq<int>>::empty());
        return r;
    }
    let head = coeffs[0];
    let mut tail: Vec<i32> = Vec::new();
    let mut i: usize = 1;
    while i < coeffs.len()
        invariant
            1 <= i <= coeffs@.len(),
            tail@ == coeffs@.subrange(1, i as int),
        decreases coeffs@.len() - i,
    {
        tail.push(coeffs[i]);
        assert(tail@ =~= coeffs@.subrange(1, i + 1));
        i = i + 1;
    }
    assert(ints(tail@) =~= cs.drop_first());
    let kk = k as i32;
    assert(fits_i32(-k * cs[0]));
    let c = (-kk) * head;
    let sols = solve_linear_diophantine_rec(tail.as_slice(), c, bound);
    let first = prepend_all(sols, kk);
    let rest = homog_from_exec(coeffs, bound, k + 1);
    let mut r = first;
    let ghost f = int_rows(r@);
    let mut j: usize = 0;
    while j < rest.len()
        invariant
            j <= rest@.len(),
            int_rows(r@) == f + int_rows(rest@).subrange(0, j as int),
        decreases rest@.len() - j,
    {
        let ghost before = r@;
        let row = rest[j].clone();
        assert(row@ == rest@[j as int]@);
        r.push(row);
        assert(int_rows(r@) =~= int_rows(before).push(ints(row@)));
        assert(int_rows(r@) =~= f + int_rows(rest@).subrange(0, j + 1));
        j = j + 1;
    }
    assert(int_rows(rest@).subrange(0, rest@.len() as int) =~= int_rows(rest@));
    r
}

proof fn lemma_ints_injective(a: Seq<i32>, b: Seq<i32>)
    requires
        ints(a) == ints(b),
    ensures
        a == b,
{
    assert(a.len() == ints(a).len());
    assert forall|i: int| 0 <= i < a.len() implies a[i] == b[i] by {
        assert(ints(a)[i] == a[i] as int);
        assert(ints(b)[i] == b[i] as int);
    }
    assert(a =~= b);
}

/// `a` comes before `b` in lexicographic order, a proper prefix first (the order of `Vec<i32>`).
pub open spec fn row_lt(a: Seq<i32>, b: Seq<i32>) -> bool
    decreases a.len(),
{
    if a.len() == 0 {
        b.len() > 0
    } else if b.len() == 0 {
        false
    } else if a[0] < b[0] {
        true
    } else if a[0] != b[0] {
        false
    } else {
        row_lt(a.drop_first(), b.drop_first())
    }
}

/// The rows are in strictly increasing lexicographic order.
pub open spec fn rows_increasing(s: Seq<Seq<i32>>) -> bool {
    forall|i: int, j: int| 0 <= i < j < s.len() ==> row_lt(#[trigger] s[i], #[trigger] s[j])
}

proof fn lemma_row_lt_irreflexive(a: Seq<i32>)
    ensures
        !row_lt(a, a),
    decreases a.len(),
{
    if a.len() > 0 {
        lemma_row_lt_irreflexive(a.drop_first());
    }
}

proof fn lemma_row_lt_transitive(a: Seq<i32>, b: Seq<i32>, c: Seq<i32>)
    requires
        row_lt(a, b),
        row_lt(b, c),
    ensures
        row_lt(a, c),
    decreases a.len(),
{
    if a.len() > 0 {
        assert(b.len() > 0 && c.len() > 0);
        if a[0] == b[0] && b[0] == c[0] {
            lemma_row_lt_transitive(a.drop_first(), b.drop_first(), c.drop_first());
        }
    }
}

proof fn lemma_row_lt_total(a: Seq<i32>, b: Seq<i32>)
    ensures
        row_lt(a, b) || row_lt(b, a) || a == b,
    decreases a.len(),
{
    if a.len() == 0 {
        if b.len() == 0 {
            assert(a =~= b);
        }
    } else if b.len() > 0 && a[0] == b[0] {
        lemma_row_lt_total(a.drop_first(), b.drop_first());
        if a.drop_first() == b.drop_first() {
            assert(a =~= seq![a[0]] + a.drop_first());
            assert(b =~= seq![b[0]] + b.drop_first());
        }
    }
}

/// Whether `a` comes before `b` in lexicographic order.
fn row_less(a: &Vec<i32>, b: &Vec<i32>) -> (r: bool)
    ensures
        r == row_lt(a@, b@),
{
    let mut i: usize = 0;
    assert(a@.skip(0) =~= a@);
    assert(b@.skip(0) =~= b@);
    while i < a.len() && i < b.len()
        invariant
            i <= a@.len(),
            i <= b@.len(),
            a@.subrange(0, i as int) == b@.subrange(0, i as int),
            row_lt(a@, b@) == row_lt(a@.skip(i as int), b@.skip(i as int)),
        decreases a@.len() - i,
    {
        let ghost sa = a@.skip(i as int);
        let ghost sb = b@.skip(i as int);
        assert(sa[0] == a@[i as int]);
        assert(sb[0] == b@[i as int]);
        if a[i] < b[i] {
            return true;
        }
        if a[i] != b[i] {
            return false;
        }
        assert(sa.drop_first() =~= a@.skip(i + 1));
        assert(sb.drop_first() =~= b@.skip(i + 1));
        assert(a@.subrange(0, i + 1) =~= a@.subrange(0, i as int).push(a@[i as int]));
        assert(b@.subrange(0, i + 1) =~= b@.subrange(0, i as int).push(b@[i as int]));
        i = i + 1;
    }
    i >= a.len() && i < b.len()
}

/// The rows, sorted in lexicographic order, each once.
fn sort_dedup_rows(items: &Vec<Vec<i32>>) -> (r: Vec<Vec<i32>>)
    ensures
        rows_increasing(r.deep_view()),
        forall|x: Seq<i32>| r.deep_view().contains(x) <==> items.deep_view().contains(x),
{
    let ghost iv = items.deep_view();
    let mut r: Vec<Vec<i32>> = Vec::new();
    let mut i: usize = 0;
    while i < items.len()
        invariant
            i <= items@.len(),
            iv == items.deep_view(),
            rows_increasing(r.deep_view()),
            forall|x: Seq<i32>| r.deep_view().contains(x) <==> iv.subrange(0, i as int).contains(x),
        decreases items@.len() - i,
    {
        let x = &items[i];
        let ghost xm = x@;
        let ghost rm = r.deep_view();
        proof {
            lemma_deep_view_row(*x);
            assert(iv[i as int] == xm);
            assert(iv.subrange(0, i + 1) =~= iv.subrange(0, i as int).push(xm));
        }
        let mut p: usize = 0;
        let mut scanning = true;
        while scanning && p < r.len()
            invariant
                p <= r@.len(),
                rm == r.deep_view(),
                xm == x@,
                forall|q: int| 0 <= q < p ==> row_lt(#[trigger] rm[q], xm),
                !scanning ==> p < rm.len() && !row_lt(rm[p as int], xm),
            decreases r@.len() - p + if scanning { 1int } else { 0int },
        {
            proof {
                lemma_deep_view_row(r@[p as int]);
            }
            if row_less(&r[p], x) {
                p = p + 1;
            } else {
                scanning = false;
            }
        }
        let mut found = false;
        if p < r.len() {
            proof {
                lemma_deep_view_row(r@[p as int]);
            }
            found = !row_less(x, &r[p]);
        }
        if !found {
            proof {
                if p < rm.len() {
                    lemma_row_lt_total(rm[p as int], xm);
                }
            }
            let y = x.clone();
            assert(y@ == xm);
            r.insert(p, y);
            proof {
                let nm = r.deep_view();
                lemma_deep_view_row(y);
                assert forall|k: int| 0 <= k < nm.len() implies #[trigger] nm[k] == (rm.subrange(0, p as int).push(xm) + rm.subrange(p as int, rm.len() as int))[k] by {
                    assert(nm[k] == r@[k].deep_view());
                    lemma_deep_view_row(r@[k]);
                }
                assert(nm =~= rm.subrange(0, p as int).push(xm) + rm.subrange(p as int, rm.len() as int));
                assert(forall|k: int| 0 <= k < p ==> #[trigger] nm[k] == rm[k]);
                assert(nm[p as int] == xm);
                assert(forall|k: int| p < k < nm.len() ==> #[trigger] nm[k] == rm[k - 1]);
                assert forall|a: int, b: int| 0 <= a < b < nm.len() implies row_lt(#[trigger] nm[a], #[trigger] nm[b]) by {
                    if b == p {
                    } else if a == p {
                        assert(nm[b] == rm[b - 1]);
                        if b - 1 > p {
                            lemma_row_lt_transitive(xm, rm[p as int], rm[b - 1]);
                        }
                    } else {
                        let aa = if a < p { a } else { a - 1 };
                        let bb = if b < p { b } else { b - 1 };
                        assert(nm[a] == rm[aa]);
                        assert(nm[b] == rm[bb]);
                    }
                }
                assert forall|z: Seq<i32>| nm.contains(z) <==> rm.push(xm).contains(z) by {
                    if nm.contains(z) {
                        let k = choose|k: int| 0 <= k < nm.len() && nm[k] == z;
                        if k < p {
                            assert(rm.push(xm)[k] == z);
                        } else if k > p {
                            assert(rm.push(xm)[k - 1] == z);
                        } else {
                            assert(rm.push(xm)[rm.len() as int] == z);
                        }
                    }
                    if rm.push(xm).contains(z) {
                        let k = choose|k: int| 0 <= k < rm.push(xm).len() && rm.push(xm)[k] == z;
                        if k == rm.len() {
                            assert(nm[p as int] == z);
                        } else if k < p {
                            assert(nm[k] == z);
                        } else {
                            assert(nm[k + 1] == z);
                        }
                    }
                }
                assert forall|z: Seq<i32>| nm.contains(z) <==> iv.subrange(0, i + 1).contains(z) by {
                    lemma_push_contains(iv.subrange(0, i as int), xm, z);
                    lemma_push_contains(rm, xm, z);
                }
            }
        } else {
            proof {
                lemma_row_lt_total(rm[p as int], xm);
                assert(rm[p as int] == xm);
                assert forall|z: Seq<i32>| r.deep_view().contains(z) <==> iv.subrange(0, i + 1).contains(z) by {
                    lemma_push_contains(iv.subrange(0, i as int), xm, z);
                    if z == xm {
                        assert(rm[p as int] == z);
                    }
                }
            }
        }
        i = i + 1;
    }
    assert(iv.subrange(0, items@.len() as int) =~= iv);
    r
}

/// The solutions found for `coeffs . x == constant` (see `dioph_rec`), sorted
/// lexicographically, each once.
pub fn solve_linear_diophantine(coeffs: &[i32], constant: i32, exponent_bound: i32) -> (r: Vec<Vec<i32>>)
    requires
        dioph_rec_fits(ints(coeffs@), constant as int, exponent_bound as int),
    ensures
        r.deep_view() == sorted_solutions(ints(coeffs@), constant as int, exponent_bound as int),
{
    let solns = solve_linear_diophantine_rec(coeffs, constant, exponent_bound);
    let r = sort_dedup_rows(&solns);
    proof {
        let d = dioph_rec(ints(coeffs@), constant as int, exponent_bound as int);
        let rv = r.deep_view();
        let sv = solns.deep_view();
        assert forall|x: Seq<i32>| rv.contains(x) <==> d.contains(ints(x)) by {
            if sv.contains(x) {
                let j = choose|j: int| 0 <= j < sv.len() && sv[j] == x;
                lemma_deep_view_row(solns@[j]);
                assert(int_rows(solns@)[j] == ints(solns@[j]@));
                assert(d[j] == ints(x));
            }
            if d.contains(ints(x)) {
                let j = choose|j: int| 0 <= j < d.len() && d[j] == ints(x);
                assert(int_rows(solns@)[j] == ints(solns@[j]@));
                lemma_ints_injective(solns@[j]@, x);
                lemma_deep_view_row(solns@[j]);
                assert(sv[j] == x);
            }
        }
        lemma_sorted_solutions_unique(rv, ints(coeffs@), constant as int, exponent_bound as int);
    }
    r
}

proof fn lemma_rows_increasing_unique(a: Seq<Seq<i32>>, b: Seq<Seq<i32>>)
    requires
        rows_increasing(a),
        rows_increasing(b),
        forall|x: Seq<i32>| a.contains(x) <==> b.contains(x),
    ensures
        a == b,
    decreases a.len() + b.len(),
{
    if a.len() == 0 {
        if b.len() > 0 {
            assert(b.contains(b[0]));
        }
        assert(a =~= b);
    } else if b.len() == 0 {
        assert(a.contains(a[0]));
    } else {
        // the first entries are the least, so they agree
        assert(a.contains(b[0]));
        assert(b.contains(a[0]));
        let ia = choose|k: int| 0 <= k < a.len() && a[k] == b[0];
        let ib = choose|k: int| 0 <= k < b.len() && b[k] == a[0];
        if a[0] != b[0] {
            assert(ia > 0 && ib > 0);
            assert(row_lt(a[0], a[ia]));
            assert(row_lt(b[0], b[ib]));
            lemma_row_lt_transitive(a[0], b[0], a[0]);
            lemma_row_lt_irreflexive(a[0]);
        }
        let ta = a.drop_first();
        let tb = b.drop_first();
        assert forall|x: Seq<i32>| ta.contains(x) <==> tb.contains(x) by {
            if ta.contains(x) {
                let k = choose|k: int| 0 <= k < ta.len() && ta[k] == x;
                assert(a[k + 1] == x);
                assert(row_lt(a[0], a[k + 1]));
                lemma_row_lt_irreflexive(x);
                assert(b.contains(x));
                let m = choose|m: int| 0 <= m < b.len() && b[m] == x;
                assert(m != 0);
                assert(tb[m - 1] == x);
            }
            if tb.contains(x) {
                let k = choose|k: int| 0 <= k < tb.len() && tb[k] == x;
                assert(b[k + 1] == x);
                assert(row_lt(b[0], b[k + 1]));
                lemma_row_lt_irreflexive(x);
                assert(a.contains(x));
                let m = choose|m: int| 0 <= m < a.len() && a[m] == x;
                assert(m != 0);
                assert(ta[m - 1] == x);
            }
        }
        assert forall|i: int, j: int| 0 <= i < j < ta.len() implies row_lt(#[trigger] ta[i], #[trigger] ta[j]) by {
            assert(ta[i] == a[i + 1] && ta[j] == a[j + 1]);
        }
        assert forall|i: int, j: int| 0 <= i < j < tb.len() implies row_lt(#[trigger] tb[i], #[trigger] tb[j]) by {
            assert(tb[i] == b[i + 1] && tb[j] == b[j + 1]);
        }
        lemma_rows_increasing_unique(ta, tb);
        assert(a =~= seq![a[0]] + ta);
        assert(b =~= seq![b[0]] + tb);
    }
}

proof fn lemma_sorted_solutions_unique(s: Seq<Seq<i32>>, cs: Seq<int>, c: int, bound: int)
    requires
        rows_increasing(s),
        forall|x: Seq<i32>| s.contains(x) <==> dioph_rec(cs, c, bound).contains(ints(x)),
    ensures
        s == sorted_solutions(cs, c, bound),
{
    let t = sorted_solutions(cs, c, bound);
    assert(rows_increasing(t) && forall|x: Seq<i32>| t.contains(x) <==> dioph_rec(cs, c, bound).contains(ints(x)));
    lemma_rows_increasing_unique(s, t);
}

/// The solutions found for `cs . x == c`, sorted lexicographically, each once.
pub open spec fn sorted_solutions(cs: Seq<int>, c: int, bound: int) -> Seq<Seq<i32>> {
    choose|s: Seq<Seq<i32>>|
        rows_increasing(s) && forall|x: Seq<i32>| s.contains(x) <==> dioph_rec(cs, c, bound).contains(ints(x))
}

/// All ways to pick one entry of each list, the last list varying fastest.
pub open spec fn cartesian(lists: Seq<Seq<Seq<i32>>>) -> Seq<Seq<Seq<i32>>>
    decreases lists.len(),
{
    if lists.len() == 0 {
        seq![Seq::empty()]
    } else {
        let rest = cartesian(lists.drop_first());
        lists[0].map_values(|x: Seq<i32>| rest.map_values(|t: Seq<Seq<i32>>| seq![x] + t)).flatten()
    }
}

/// Calls itertools' `multi_cartesian_product` on the lists: all ways to pick one entry of each
/// list, in the order of the crate's documentation and source (the last list varies fastest; a
/// single empty pick when there are no lists; nothing when a list is empty). The contract claims
/// exactly that sequence of picks.
#[verifier::external_body]
fn cartesian_product(lists: Vec<Vec<Vec<i32>>>) -> (r: Vec<Vec<Vec<i32>>>)
    ensures
        r.deep_view() == cartesian(lists.deep_view()),
{
    lists.into_iter().map(|l| l.into_iter()).multi_cartesian_product().collect()
}

/// The least length of the vectors; 0 when there are none.
pub open spec fn min_len(vs: Seq<Seq<i32>>) -> nat
    decreases vs.len(),
{
    if vs.len() == 0 {
        0
    } else if vs.len() == 1 {
        vs[0].len()
    } else {
        let m = min_len(vs.drop_first());
        if vs[0].len() < m {
            vs[0].len()
        } else {
            m
        }
    }
}

/// The vectors read column by column, as far as the shortest one goes.
pub open spec fn multi_zip_spec(vs: Seq<Seq<i32>>) -> Seq<Seq<i32>> {
    Seq::new(min_len(vs), |i: int| Seq::new(vs.len(), |j: int| vs[j][i]))
}

proof fn lemma_min_len(vs: Seq<Seq<i32>>)
    ensures
        forall|j: int| 0 <= j < vs.len() ==> min_len(vs) <= #[trigger] vs[j].len(),
        vs.len() > 0 ==> exists|j: int| 0 <= j < vs.len() && min_len(vs) == #[trigger] vs[j].len(),
    decreases vs.len(),
{
    if vs.len() > 1 {
        let t = vs.drop_first();
        lemma_min_len(t);
        assert forall|j: int| 0 <= j < vs.len() implies min_len(vs) <= #[trigger] vs[j].len() by {
            if j > 0 {
                assert(vs[j] == t[j - 1]);
            }
        }
        if vs[0].len() >= min_len(t) {
            let k = choose|k: int| 0 <= k < t.len() && min_len(t) == #[trigger] t[k].len();
            assert(vs[k + 1] == t[k]);
        }
    } else if vs.len() == 1 {
        assert(min_len(vs) == vs[0].len());
    }
}

/// The vectors read column by column, as far as the shortest one goes.
fn multi_zip(vecs: &Vec<Vec<i32>>) -> (r: Vec<Vec<i32>>)
    ensures
        r.deep_view() == multi_zip_spec(vecs.deep_view()),
{
    let ghost vs = vecs.deep_view();
    proof {
        lemma_min_len(vs);
    }
    let mut m: usize = 0;
    if vecs.len() > 0 {
        m = vecs[0].len();
        let mut j: usize = 1;
        while j < vecs.len()
            invariant
                1 <= j <= vecs@.len(),
                vs == vecs.deep_view(),
                m == min_len(vs.subrange(0, j as int)),
            decreases vecs@.len() - j,
        {
            proof {
                lemma_min_len_push(vs.subrange(0, j as int), vs[j as int]);
                assert(vs.subrange(0, j + 1) =~= vs.subrange(0, j as int).push(vs[j as int]));
            }
            if vecs[j].len() < m {
                m = vecs[j].len();
            }
            j = j + 1;
        }
        assert(vs.subrange(0, vecs@.len() as int) =~= vs);
    }
    assert(m == min_len(vs));
    let mut r: Vec<Vec<i32>> = Vec::new();
    let mut i: usize = 0;
    while i < m
        invariant
            i <= m,
            m == min_len(vs),
            vs == vecs.deep_view(),
            forall|j: int| 0 <= j < vs.len() ==> m <= #[trigger] vs[j].len(),
            r@.len() == i,
            forall|k: int| 0 <= k < i ==> #[trigger] r@[k]@ == Seq::new(vs.len(), |j: int| vs[j][k]),
        decreases m - i,
    {
        let mut col: Vec<i32> = Vec::new();
        let mut j: usize = 0;
        while j < vecs.len()
            invariant
                i < m,
                j <= vecs@.len(),
                vs == vecs.deep_view(),
                forall|jj: int| 0 <= jj < vs.len() ==> m <= #[trigger] vs[jj].len(),
                col@.len() == j,
                forall|jj: int| 0 <= jj < j ==> #[trigger] col@[jj] == vs[jj][i as int],
            decreases vecs@.len() - j,
        {
            assert(vs[j as int] == vecs@[j as int]@);
            assert(m <= vs[j as int].len());
            col.push(vecs[j][i]);
            j = j + 1;
        }
        assert(col@ =~= Seq::new(vs.len(), |j: int| vs[j][i as int]));
        r.push(col);
        i = i + 1;
    }
    assert forall|k: int| 0 <= k < r@.len() implies #[trigger] r.deep_view()[k] == multi_zip_spec(vs)[k] by {
        lemma_deep_view_row(r@[k]);
    }
    assert(r.deep_view() =~= multi_zip_spec(vs));
    r
}

proof fn lemma_deep_view_row(v: Vec<i32>)
    ensures
        v.deep_view() == v@,
{
    assert(v.deep_view() =~= v@);
}

proof fn lemma_flatten_all(s: Seq<Seq<Seq<Seq<i32>>>>, n: nat)
    requires
        forall|i: int, j: int| 0 <= i < s.len() && 0 <= j < s[i].len() ==> (#[trigger] s[i][j]).len() == n,
    ensures
        forall|k: int| 0 <= k < s.flatten().len() ==> (#[trigger] s.flatten()[k]).len() == n,
    decreases s.len(),
{
    if s.len() > 0 {
        let t = s.drop_first();
        assert forall|i: int, j: int| 0 <= i < t.len() && 0 <= j < t[i].len() implies (#[trigger] t[i][j]).len() == n by {
            assert(t[i] == s[i + 1]);
        }
        lemma_flatten_all(t, n);
        assert(s.flatten() == s[0] + t.flatten());
        assert forall|k: int| 0 <= k < s.flatten().len() implies (#[trigger] s.flatten()[k]).len() == n by {
            if k < s[0].len() {
                assert(s.flatten()[k] == s[0][k]);
            } else {
                assert(s.flatten()[k] == t.flatten()[k - s[0].len()]);
            }
        }
    }
}

proof fn lemma_cartesian_len(lists: Seq<Seq<Seq<i32>>>)
    ensures
        forall|k: int| 0 <= k < cartesian(lists).len() ==> (#[trigger] cartesian(lists)[k]).len() == lists.len(),
    decreases lists.len(),
{
    if lists.len() == 0 {
        assert(cartesian(lists) == seq![Seq::<Seq<i32>>::empty()]);
    } else {
        let rest = cartesian(lists.drop_first());
        lemma_cartesian_len(lists.drop_first());
        let m = lists[0].map_values(|x: Seq<i32>| rest.map_values(|t: Seq<Seq<i32>>| seq![x] + t));
        assert forall|i: int, j: int| 0 <= i < m.len() && 0 <= j < m[i].len() implies (#[trigger] m[i][j]).len() == lists.len() by {
            assert(m[i][j] == seq![lists[0][i]] + rest[j]);
        }
        lemma_flatten_all(m, lists.len());
    }
}

proof fn lemma_min_len_push(vs: Seq<Seq<i32>>, v: Seq<i32>)
    requires
        vs.len() >= 1,
    ensures
        min_len(vs.push(v)) == if v.len() < min_len(vs) { v.len() } else { min_len(vs) },
    decreases vs.len(),
{
    let w = vs.push(v);
    if vs.len() == 1 {
        assert(w.drop_first() =~= seq![v]);
        assert(min_len(w.drop_first()) == v.len());
    } else {
        assert(w.drop_first() =~= vs.drop_first().push(v));
        lemma_min_len_push(vs.drop_first(), v);
    }
}

/// Every exponent of every step is at most `bound` in absolute value.
pub open spec fn steps_within(steps: Seq<Seq<i32>>, bound: int) -> bool {
    forall|a: int, b: int| 0 <= a < steps.len() && 0 <= b < steps[a].len() ==> -bound <= #[trigger] steps[a][b] <= bound
}

/// The candidate step vectors for the step signature `sig` and the equave `e`: for each small
/// prime the sorted solutions of `sig . x == e[prime]`, every way to pick one per prime, read
/// step by step, keeping those whose exponents are all within the bound.
pub open spec fn step_candidates(sig: Seq<int>, e: Seq<i32>, bound: int) -> Seq<Seq<Seq<i32>>> {
    let lists = Seq::new(9, |j: int| sorted_solutions(sig, e[j] as int, bound));
    cartesian(lists).map_values(|tuple: Seq<Seq<i32>>| multi_zip_spec(tuple)).filter(
        |steps: Seq<Seq<i32>>| steps_within(steps, bound),
    )
}

/// The entries of a step signature as integers.
pub open spec fn sig_ints(s: Seq<usize>) -> Seq<int> {
    s.map_values(|x: usize| x as int)
}

/// The integer part of solving a step signature: candidate steps `x_0, ..., x_{n-1}` (as
/// monzos) with `sig[0] x_0 + ... + sig[n-1] x_{n-1} == equave` found from the bounded
/// Diophantine solutions, every exponent within `exponent_bound`. Keeping the steps that are
/// above the unison and in strictly decreasing order of size is left to the caller.
pub fn step_sig_candidates(step_sig: &[usize], equave: Monzo, exponent_bound: i32) -> (r: Vec<Vec<Monzo>>)
    requires
        forall|i: int| 0 <= i < step_sig@.len() ==> #[trigger] step_sig@[i] <= i32::MAX,
        forall|j: int| 0 <= j < 9 ==> #[trigger] dioph_rec_fits(
            sig_ints(step_sig@),
            equave@[j] as int,
            exponent_bound as int,
        ),
    ensures
        r@.map_values(|v: Vec<Monzo>| v@.map_values(|m: Monzo| m@)) == step_candidates(
            sig_ints(step_sig@),
            equave@,
            exponent_bound as int,
        ),
{
    broadcast use lemma_monzo_len;

    let ghost sig = sig_ints(step_sig@);
    let mut sig32: Vec<i32> = Vec::new();
    let mut i: usize = 0;
    while i < step_sig.len()
        invariant
            i <= step_sig@.len(),
            forall|k: int| 0 <= k < step_sig@.len() ==> #[trigger] step_sig@[k] <= i32::MAX,
            ints(sig32@) == sig.subrange(0, i as int),
            sig == sig_ints(step_sig@),
        decreases step_sig@.len() - i,
    {
        let ghost sb = sig32@;
        sig32.push(step_sig[i] as i32);
        assert(ints(sig32@) =~= ints(sb).push(step_sig@[i as int] as int));
        assert(ints(sig32@) =~= sig.subrange(0, i + 1));
        i = i + 1;
    }
    assert(sig.subrange(0, step_sig@.len() as int) =~= sig);
    let e = equave.into_inner();
    let ghost lists_spec = Seq::new(9, |j: int| sorted_solutions(sig, equave@[j] as int, exponent_bound as int));
    let mut lists: Vec<Vec<Vec<i32>>> = Vec::new();
    let mut j: usize = 0;
    while j < 9
        invariant
            j <= 9,
            ints(sig32@) == sig,
            e@ == equave@,
            forall|k: int| 0 <= k < 9 ==> #[trigger] dioph_rec_fits(sig, equave@[k] as int, exponent_bound as int),
            lists_spec == Seq::new(9, |k: int| sorted_solutions(sig, equave@[k] as int, exponent_bound as int)),
            lists@.len() == j,
            forall|k: int| 0 <= k < j ==> #[trigger] lists.deep_view()[k] == lists_spec[k],
            forall|k: int| 0 <= k < j ==> #[trigger] lists@[k].deep_view() == lists_spec[k],
        decreases 9 - j,
    {
        assert(dioph_rec_fits(sig, equave@[j as int] as int, exponent_bound as int));
        let sols = solve_linear_diophantine(sig32.as_slice(), e[j], exponent_bound);
        let ghost before = lists@;
        let ghost sd = sols.deep_view();
        proof {
            assert(lists_spec[j as int] == sorted_solutions(sig, equave@[j as int] as int, exponent_bound as int));
            assert(sd == lists_spec[j as int]);
        }
        lists.push(sols);
        proof {
            assert(lists@ == before.push(sols));
            assert forall|k: int| 0 <= k < j + 1 implies #[trigger] lists.deep_view()[k] == lists_spec[k] by {
                assert(lists.deep_view()[k] == lists@[k].deep_view());
                if k == j {
                    assert(lists@[k] == sols);
                } else {
                    assert(lists@[k] == before[k]);
                }
            }
            assert forall|k: int| 0 <= k < j + 1 implies #[trigger] lists@[k].deep_view() == lists_spec[k] by {
                assert(lists.deep_view()[k] == lists@[k].deep_view());
            }
        }
        j = j + 1;
    }
    assert(lists.deep_view() =~= lists_spec);
    let prod = cartesian_product(lists);
    let ghost zipped = cartesian(lists_spec).map_values(|tuple: Seq<Seq<i32>>| multi_zip_spec(tuple));
    let mut r: Vec<Vec<Monzo>> = Vec::new();
    let mut t: usize = 0;
    while t < prod.len()
        invariant
            t <= prod@.len(),
            lists_spec == Seq::new(9, |k: int| sorted_solutions(sig, equave@[k] as int, exponent_bound as int)),
            prod.deep_view() == cartesian(lists_spec),
            zipped == cartesian(lists_spec).map_values(|tuple: Seq<Seq<i32>>| multi_zip_spec(tuple)),
            r@.map_values(|v: Vec<Monzo>| v@.map_values(|m: Monzo| m@)) == zipped.subrange(0, t as int).filter(
                |steps: Seq<Seq<i32>>| steps_within(steps, exponent_bound as int),
            ),
        decreases prod@.len() - t,
    {
        let steps = multi_zip(&prod[t]);
        assert(prod.deep_view()[t as int] == prod@[t as int].deep_view());
        proof {
            lemma_cartesian_len(lists_spec);
            assert(lists_spec.len() == 9);
            assert(prod.deep_view().len() == prod@.len());
            assert(cartesian(lists_spec)[t as int].len() == 9);
        }
        let ghost sv = steps.deep_view();
        assert(sv == zipped[t as int]);
        proof {
            let pre = zipped.subrange(0, t as int);
            assert(zipped.subrange(0, t + 1) =~= pre.push(sv));
            pre.lemma_filter_push(sv, |steps: Seq<Seq<i32>>| steps_within(steps, exponent_bound as int));
        }
        let mut ok = true;
        let mut a: usize = 0;
        while a < steps.len()
            invariant
                a <= steps@.len(),
                sv == steps.deep_view(),
                ok == forall|aa: int, bb: int| 0 <= aa < a && 0 <= bb < sv[aa].len() ==> -exponent_bound <= #[trigger] sv[aa][bb] <= exponent_bound,
            decreases steps@.len() - a,
        {
            let mut b: usize = 0;
            let ghost ok_before = ok;
            while b < steps[a].len()
                invariant
                    a < steps@.len(),
                    b <= steps@[a as int]@.len(),
                    sv == steps.deep_view(),
                    sv[a as int] == steps@[a as int]@,
                    ok_before == forall|aa: int, bb: int| 0 <= aa < a && 0 <= bb < sv[aa].len() ==> -exponent_bound <= #[trigger] sv[aa][bb] <= exponent_bound,
                    ok == (ok_before && forall|bb: int| 0 <= bb < b ==> -exponent_bound <= #[trigger] sv[a as int][bb] <= exponent_bound),
                decreases steps@[a as int]@.len() - b,
            {
                let x = steps[a][b] as i64;
                if x < -(exponent_bound as i64) || x > exponent_bound as i64 {
                    ok = false;
                }
                b = b + 1;
            }
            proof {
                assert(ok == forall|aa: int, bb: int| 0 <= aa < a + 1 && 0 <= bb < sv[aa].len() ==> -exponent_bound <= #[trigger] sv[aa][bb] <= exponent_bound) by {
                    if ok {
                        assert forall|aa: int, bb: int| 0 <= aa < a + 1 && 0 <= bb < sv[aa].len() implies -exponent_bound <= #[trigger] sv[aa][bb] <= exponent_bound by {
                            if aa == a {
                                assert(-exponent_bound <= sv[a as int][bb] <= exponent_bound);
                            }
                        }
                    }
                }
            }
            a = a + 1;
        }
        if ok {
            let mut ms: Vec<Monzo> = Vec::new();
            let mut k: usize = 0;
            while k < steps.len()
                invariant
                    k <= steps@.len(),
                    sv == steps.deep_view(),
                    forall|kk: int| 0 <= kk < sv.len() ==> #[trigger] sv[kk].len() == 9,
                    ms@.len() == k,
                    forall|kk: int| 0 <= kk < k ==> #[trigger] ms@[kk]@ == sv[kk],
                decreases steps@.len() - k,
            {
                assert(sv[k as int] == steps@[k as int]@);
                let m = Monzo::from_slice(steps[k].as_slice());
                proof {
                    assert(m@.len() == 9);
                    assert forall|q: int| 0 <= q < 9 implies m@[q] == sv[k as int][q] by {
                        assert(ints(m@)[q] == m@[q] as int);
                    }
                    assert(m@ =~= sv[k as int]);
                }
                ms.push(m);
                k = k + 1;
            }
            let ghost before = r@.map_values(|v: Vec<Monzo>| v@.map_values(|m: Monzo| m@));
            r.push(ms);
            assert(ms@.map_values(|m: Monzo| m@) =~= sv);
            assert(r@.map_values(|v: Vec<Monzo>| v@.map_values(|m: Monzo| m@)) =~= before.push(sv));
        }
        t = t + 1;
    }
    assert(zipped.subrange(0, prod@.len() as int) =~= zipped);
    r
}

// ---------------------------------------------------------------------------
// The solutions found solve the equation
// ---------------------------------------------------------------------------

proof fn lemma_trunc_div_fits(a: int, d: int)
    requires
        fits_i32(a),
        fits_i32(d),
        d != 0,
        !(a == i32::MIN && d == -1),
    ensures
        fits_i32(trunc_div(a, d)),
{
    let aa: int = if a < 0 { -a } else { a };
    let dd: int = if d < 0 { -d } else { d };
    assert(aa / dd <= aa) by {
        vstd::arithmetic::div_mod::lemma_div_is_ordered_by_denominator(aa, 1, dd);
    }
    vstd::arithmetic::div_mod::lemma_div_pos_is_pos(aa, dd);
    if dd >= 2 {
        assert(aa / dd <= aa / 2) by {
            vstd::arithmetic::div_mod::lemma_div_is_ordered_by_denominator(aa, 2, dd);
        }
    }
}

/// For `d` dividing `a`, the truncated quotient times `d` is `a`.
proof fn lemma_trunc_div_exact_any(a: int, d: int)
    requires
        d != 0,
        divides(d, a),
    ensures
        trunc_div(a, d) * d == a,
{
    if d > 0 {
        lemma_trunc_div_exact(a, d);
    } else {
        let k = choose|k: int| a == #[trigger] (k * d);
        assert(a == (-k) * (-d)) by (nonlinear_arith)
            requires
                a == k * d,
        ;
        assert(divides(-d, a));
        lemma_trunc_div_exact(a, -d);
        assert(trunc_div(a, d) == -trunc_div(a, -d));
        assert(trunc_div(a, d) * d == trunc_div(a, -d) * (-d)) by (nonlinear_arith)
            requires
                trunc_div(a, d) == -trunc_div(a, -d),
        ;
    }
}

proof fn lemma_trunc_div_exact(a: int, d: int)
    requires
        d > 0,
        divides(d, a),
    ensures
        trunc_div(a, d) * d == a,
{
    let k = choose|k: int| a == #[trigger] (k * d);
    let aa: int = if a < 0 { -a } else { a };
    let kk: int = if k < 0 { -k } else { k };
    assert(aa == kk * d) by (nonlinear_arith)
        requires
            a == k * d,
            d > 0,
            aa == (if a < 0 { -a } else { a }),
            kk == (if k < 0 { -k } else { k }),
    ;
    vstd::arithmetic::div_mod::lemma_div_by_multiple(kk, d);
    assert(aa / d == kk);
    assert(trunc_div(a, d) == (if (a < 0) == (d < 0) { kk } else { -kk }));
    assert(a > 0 ==> k > 0) by (nonlinear_arith)
        requires
            a == k * d,
            d > 0,
    ;
    assert(a < 0 ==> k < 0) by (nonlinear_arith)
        requires
            a == k * d,
            d > 0,
    ;
    assert(trunc_div(a, d) * d == a) by (nonlinear_arith)
        requires
            a == k * d,
            d > 0,
            kk == (if k < 0 { -k } else { k }),
            trunc_div(a, d) == (if (a < 0) == (d < 0) { kk } else { -kk }),
            a < 0 ==> k < 0,
            a > 0 ==> k > 0,
    ;
}

proof fn lemma_dot_int_add(cs: Seq<int>, x: Seq<int>, y: Seq<int>, z: Seq<int>, k: int)
    requires
        0 <= k,
        k <= x.len(),
        k <= y.len(),
        k <= z.len(),
        forall|i: int| 0 <= i < k ==> #[trigger] z[i] == x[i] + y[i],
    ensures
        dot_int(cs, z, k) == dot_int(cs, x, k) + dot_int(cs, y, k),
    decreases k,
{
    if k > 0 {
        lemma_dot_int_add(cs, x, y, z, k - 1);
        let c = cs[k - 1];
        assert(c * z[k - 1] == c * x[k - 1] + c * y[k - 1]) by (nonlinear_arith)
            requires
                z[k - 1] == x[k - 1] + y[k - 1],
        ;
    }
}

proof fn lemma_dot_int_cons(cs: Seq<int>, x: int, s: Seq<int>, k: int)
    requires
        0 <= k,
        k <= s.len(),
        k + 1 <= cs.len(),
    ensures
        dot_int(cs, seq![x] + s, k + 1) == cs[0] * x + dot_int(cs.drop_first(), s, k),
    decreases k,
{
    let v = seq![x] + s;
    if k == 0 {
        assert(dot_int(cs, v, 1) == dot_int(cs, v, 0) + cs[0] * v[0]);
    } else {
        lemma_dot_int_cons(cs, x, s, k - 1);
        assert(v[k] == s[k - 1]);
        assert(cs[k] == cs.drop_first()[k - 1]);
    }
}

proof fn lemma_dioph_rec_sound(cs: Seq<int>, c: int, b: int)
    requires
        cs.len() >= 1,
    ensures
        forall|j: int| 0 <= j < dioph_rec(cs, c, b).len() ==> dot_int(cs, #[trigger] dioph_rec(cs, c, b)[j], cs.len() as int) == c,
    decreases cs.len(), 2int, 0int,
{
    if cs.len() == 1 {
        if divides(cs[0], c) {
            let x = seq![trunc_div(c, cs[0])];
            assert(dioph_rec(cs, c, b) == seq![x]);
            if cs[0] != 0 {
                lemma_trunc_div_exact_any(c, cs[0]);
            } else {
                let k = choose|k: int| c == #[trigger] (k * cs[0]);
                assert(c == 0);
            }
            assert(dot_int(cs, x, 1) == dot_int(cs, x, 0) + cs[0] * x[0]);
            assert(cs[0] * x[0] == c) by (nonlinear_arith)
                requires
                    cs[0] != 0 ==> trunc_div(c, cs[0]) * cs[0] == c,
                    cs[0] == 0 ==> c == 0,
                    x[0] == trunc_div(c, cs[0]),
            ;
        }
        return;
    }
    let (d, xs) = bezout_list(cs);
    if divides(d, c) {
        lemma_bezout_list(cs);
        lemma_dioph_homog_sound(cs, b);
        lemma_dioph_homog_lens(cs, b);
        let q = trunc_div(c, d);
        let p = xs.map_values(|x: int| x * q);
        let h = dioph_homog(cs, b);
        let n = cs.len() as int;
        lemma_dot_int_scale(cs, xs, q, n);
        if d > 0 {
            lemma_trunc_div_exact(c, d);
        } else {
            let k = choose|k: int| c == #[trigger] (k * d);
            assert(c == 0);
            assert(d * q == 0);
        }
        assert(dot_int(cs, p, n) == c);
        assert forall|j: int| 0 <= j < dioph_rec(cs, c, b).len() implies dot_int(cs, #[trigger] dioph_rec(cs, c, b)[j], n) == c by {
            let row = dioph_rec(cs, c, b)[j];
            assert(row == Seq::new(h[j].len(), |i: int| h[j][i] + p[i]));
            lemma_dot_int_add(cs, h[j], p, row, n);
        }
    }
}

proof fn lemma_dioph_homog_sound(cs: Seq<int>, b: int)
    requires
        cs.len() >= 2,
    ensures
        forall|j: int| 0 <= j < dioph_homog(cs, b).len() ==> dot_int(cs, #[trigger] dioph_homog(cs, b)[j], cs.len() as int) == 0,
    decreases cs.len(), 1int, 0int,
{
    let h = dioph_homog(cs, b);
    if cs.len() == 2 {
        let d = bezout_list(cs).0;
        lemma_bezout_list(cs);
        assert forall|j: int| 0 <= j < h.len() implies dot_int(cs, #[trigger] h[j], 2) == 0 by {
            let k = j - b;
            let qb = trunc_div(cs[1], d);
            let qa = trunc_div(cs[0], d);
            let v = h[j];
            assert(v == seq![k * qb, -k * qa]);
            assert(dot_int(cs, v, 0) == 0);
            assert(dot_int(cs, v, 1) == dot_int(cs, v, 0) + cs[0] * v[0]);
            assert(dot_int(cs, v, 2) == dot_int(cs, v, 1) + cs[1] * v[1]);
            assert(dot_int(cs, h[j], 2) == cs[0] * (k * qb) + cs[1] * (-k * qa));
            if d > 0 {
                lemma_bezout_divides_entries(cs);
                lemma_trunc_div_exact(cs[0], d);
                lemma_trunc_div_exact(cs[1], d);
                assert(cs[0] * (k * qb) + cs[1] * (-k * qa) == 0) by (nonlinear_arith)
                    requires
                        qa * d == cs[0],
                        qb * d == cs[1],
                ;
            } else {
                lemma_bezout_zero(cs);
                assert(cs[0] * (k * qb) + cs[1] * (-k * qa) == 0) by (nonlinear_arith)
                    requires
                        cs[0] == 0,
                        cs[1] == 0,
                ;
            }
        }
    } else {
        lemma_homog_from_sound(cs, b, -b);
        assert(h == homog_from(cs, b, -b));
    }
}

proof fn lemma_homog_from_sound(cs: Seq<int>, b: int, k: int)
    requires
        cs.len() >= 3,
    ensures
        forall|j: int| 0 <= j < homog_from(cs, b, k).len() ==> dot_int(cs, #[trigger] homog_from(cs, b, k)[j], cs.len() as int) == 0,
    decreases cs.len(), 0int, b - k + 1,
{
    if k <= b {
        let t = cs.drop_first();
        let sols = dioph_rec(t, -k * cs[0], b);
        lemma_dioph_rec_sound(t, -k * cs[0], b);
        lemma_dioph_rec_lens(t, -k * cs[0], b);
        lemma_homog_from_sound(cs, b, k + 1);
        let first = sols.map_values(|sol: Seq<int>| seq![k] + sol);
        let rest = homog_from(cs, b, k + 1);
        assert(homog_from(cs, b, k) == first + rest);
        assert forall|j: int| 0 <= j < (first + rest).len() implies dot_int(cs, #[trigger] (first + rest)[j], cs.len() as int) == 0 by {
            if j < first.len() {
                assert((first + rest)[j] == seq![k] + sols[j]);
                lemma_dot_int_cons(cs, k, sols[j], cs.len() - 1);
                assert(cs[0] * k + -k * cs[0] == 0) by (nonlinear_arith);
            } else {
                assert((first + rest)[j] == rest[j - first.len()]);
            }
        }
    }
}

proof fn lemma_bezout_divides_entries(cs: Seq<int>)
    requires
        cs.len() == 2,
        bezout_list(cs).0 > 0,
    ensures
        divides(bezout_list(cs).0, cs[0]),
        divides(bezout_list(cs).0, cs[1]),
{
    let t = cs.drop_last();
    assert(t.len() == 1);
    let d0 = crate::helpers::iabs(cs[0]);
    assert(bezout_list(t).0 == d0 as int);
    let c1 = crate::helpers::iabs(cs[1]);
    let g = crate::helpers::spec_gcd(d0, c1);
    assert(bezout_list(cs).0 == g as int);
    crate::helpers::lemma_gcd_divides(d0, c1);
    vstd::arithmetic::div_mod::lemma_fundamental_div_mod(d0 as int, g as int);
    vstd::arithmetic::div_mod::lemma_fundamental_div_mod(c1 as int, g as int);
    let q0 = (d0 / g) as int;
    let q1 = (c1 / g) as int;
    let k0: int = if cs[0] < 0 { -q0 } else { q0 };
    let k1: int = if cs[1] < 0 { -q1 } else { q1 };
    assert(cs[0] == k0 * g) by (nonlinear_arith)
        requires
            d0 == g * q0,
            d0 == (if cs[0] < 0 { -cs[0] } else { cs[0] }),
            k0 == (if cs[0] < 0 { -q0 } else { q0 }),
    ;
    assert(cs[1] == k1 * g) by (nonlinear_arith)
        requires
            c1 == g * q1,
            c1 == (if cs[1] < 0 { -cs[1] } else { cs[1] }),
            k1 == (if cs[1] < 0 { -q1 } else { q1 }),
    ;
}

proof fn lemma_bezout_zero(cs: Seq<int>)
    requires
        cs.len() == 2,
        bezout_list(cs).0 <= 0,
    ensures
        cs[0] == 0,
        cs[1] == 0,
{
    let t = cs.drop_last();
    let d0 = crate::helpers::iabs(cs[0]);
    assert(bezout_list(t).0 == d0 as int);
    let c1 = crate::helpers::iabs(cs[1]);
    crate::helpers::lemma_gcd_positive(d0, c1);
}

/// Every solution found for an equation in one or more unknowns solves it:
/// `coeffs . x == constant`.
pub proof fn lemma_diophantine_solutions_solve(cs: Seq<int>, c: int, bound: int, x: Seq<int>)
    requires
        cs.len() >= 1,
        dioph_rec(cs, c, bound).contains(x),
    ensures
        x.len() == cs.len(),
        dot_int(cs, x, cs.len() as int) == c,
{
    lemma_dioph_rec_sound(cs, c, bound);
    lemma_dioph_rec_lens(cs, c, bound);
    let j = choose|j: int| 0 <= j < dioph_rec(cs, c, bound).len() && dioph_rec(cs, c, bound)[j] == x;
    assert(dioph_rec(cs, c, bound)[j] == x);
}

// ---------------------------------------------------------------------------
// Checking that the solver stays within `i32`
// ---------------------------------------------------------------------------

/// Division rounding toward zero, for `|a| <= 2^62` and `0 < |b| <= 2^31`.
fn trunc_div_i64(a: i64, b: i64) -> (q: i64)
    requires
        b != 0,
        -0x4000_0000_0000_0000 <= a <= 0x4000_0000_0000_0000,
        -0x8000_0000 <= b <= 0x8000_0000,
    ensures
        q == trunc_div(a as int, b as int),
{
    let aa: i64 = if a < 0 { -a } else { a };
    let bb: i64 = if b < 0 { -b } else { b };
    proof {
        vstd::arithmetic::div_mod::lemma_div_is_ordered_by_denominator(aa as int, 1, bb as int);
        vstd::arithmetic::div_mod::lemma_div_pos_is_pos(aa as int, bb as int);
    }
    let q = aa / bb;
    if (a < 0) == (b < 0) {
        q
    } else {
        -q
    }
}

/// Whether `x` fits in an `i32`.
fn fits_i64(x: i64) -> (r: bool)
    ensures
        r == fits_i32(x as int),
{
    -0x8000_0000 <= x && x <= 0x7fff_ffff
}

/// Whether the solutions of `coeffs . x == constant` can be found without leaving `i32`
/// (see `dioph_rec_fits`).
pub fn dioph_rec_fits_exec(coeffs: &[i32], constant: i32, bound: i32) -> (r: bool)
    ensures
        r == dioph_rec_fits(ints(coeffs@), constant as int, bound as int),
    decreases coeffs@.len(), 2int, 0int,
{
    let ghost cs = ints(coeffs@);
    let ghost b = bound as int;
    let ghost c = constant as int;
    if coeffs.len() == 0 {
        return true;
    }
    if coeffs.len() == 1 {
        let a = coeffs[0];
        if a == 0 {
            return false;
        }
        if !divides_i32(a, constant) {
            return true;
        }
        proof {
            if constant == i32::MIN && a == -1 {
                assert(trunc_div(c, a as int) == 0x8000_0000);
            } else {
                lemma_trunc_div_fits(c, a as int);
            }
        }
        return !(constant == i32::MIN && a == -1);
    }
    if !dioph_homog_fits_exec(coeffs, bound) {
        return false;
    }
    if !bezout_fits(coeffs) {
        return false;
    }
    let (d, xs) = bezout(coeffs);
    proof {
        lemma_bezout_list(cs);
    }
    if d == 0 {
        return false;
    }
    if !divides_i32(d, constant) {
        return true;
    }
    let q = trunc_div_i32(constant, d);
    let ghost p = bezout_list(cs).1.map_values(|x: int| x * trunc_div(c, d as int));
    let mut pv: Vec<i64> = Vec::new();
    let mut i: usize = 0;
    while i < xs.len()
        invariant
            cs == ints(coeffs@),
            cs.len() >= 2,
            b == bound,
            c == constant,
            d as int == bezout_list(cs).0,
            divides(d as int, c),
            q as int == trunc_div(c, d as int),
            p == bezout_list(cs).1.map_values(|x: int| x * trunc_div(c, d as int)),
            xs@.map_values(|x: i32| x as int) == bezout_list(cs).1,
            i <= xs@.len(),
            xs@.len() == p.len(),
            forall|k: int| 0 <= k < p.len() ==> #[trigger] p[k] == (xs@[k] as int) * (q as int),
            pv@.len() == i,
            forall|k: int| 0 <= k < i ==> #[trigger] pv@[k] as int == p[k],
            forall|k: int| 0 <= k < i ==> fits_i32(#[trigger] p[k]),
        decreases xs@.len() - i,
    {
        let xi = xs[i] as i64;
        assert(xi * (q as i64) <= 0x4000_0000_0000_0000 && xi * (q as i64) >= -0x4000_0000_0000_0000) by (nonlinear_arith)
            requires
                -0x8000_0000 <= xi <= 0x7fff_ffff,
                -0x8000_0000 <= q <= 0x7fff_ffff,
        ;
        let v = xi * (q as i64);
        assert(p[i as int] == (xs@[i as int] as int) * (q as int));
        if !fits_i64(v) {
            assert(!fits_i32(p[i as int]));
            return false;
        }
        pv.push(v);
        i = i + 1;
    }
    let homog = solve_linear_diophantine_homogeneous(coeffs, bound);
    let ghost h = dioph_homog(cs, b);
    proof {
        lemma_dioph_homog_lens(cs, b);
    }
    let mut j: usize = 0;
    while j < homog.len()
        invariant
            cs == ints(coeffs@),
            cs.len() >= 2,
            b == bound,
            c == constant,
            d as int == bezout_list(cs).0,
            divides(d as int, c),
            p == bezout_list(cs).1.map_values(|x: int| x * trunc_div(c, d as int)),
            h == dioph_homog(cs, b),
            j <= homog@.len(),
            int_rows(homog@) == h,
            pv@.len() == p.len(),
            p.len() == cs.len(),
            forall|k: int| 0 <= k < p.len() ==> #[trigger] pv@[k] as int == p[k],
            forall|k: int| 0 <= k < p.len() ==> fits_i32(#[trigger] p[k]),
            forall|jj: int| 0 <= jj < h.len() ==> #[trigger] h[jj].len() == cs.len(),
            forall|jj: int, k: int| 0 <= jj < j && 0 <= k < h[jj].len() ==> fits_i32(#[trigger] h[jj][k] + p[k]),
        decreases homog@.len() - j,
    {
        let ghost hj = h[j as int];
        assert(ints(homog@[j as int]@) == hj);
        let mut k: usize = 0;
        while k < homog[j].len()
            invariant
                cs == ints(coeffs@),
                cs.len() >= 2,
                b == bound,
                c == constant,
                d as int == bezout_list(cs).0,
                divides(d as int, c),
                p == bezout_list(cs).1.map_values(|x: int| x * trunc_div(c, d as int)),
                h == dioph_homog(cs, b),
                j < homog@.len(),
                j < h.len(),
                k <= homog@[j as int]@.len(),
                ints(homog@[j as int]@) == hj,
                hj == h[j as int],
                hj.len() == p.len(),
                pv@.len() == p.len(),
                forall|kk: int| 0 <= kk < p.len() ==> #[trigger] pv@[kk] as int == p[kk],
                forall|kk: int| 0 <= kk < p.len() ==> fits_i32(#[trigger] p[kk]),
                forall|kk: int| 0 <= kk < k ==> fits_i32(#[trigger] hj[kk] + p[kk]),
            decreases homog@[j as int]@.len() - k,
        {
            assert(hj[k as int] == homog@[j as int]@[k as int] as int);
            let v = homog[j][k] as i64 + pv[k];
            if !fits_i64(v) {
                assert(!fits_i32(h[j as int][k as int] + p[k as int]));
                return false;
            }
            k = k + 1;
        }
        j = j + 1;
    }
    true
}

/// Whether the solutions of `coeffs . x == 0` can be found without leaving `i32`
/// (see `dioph_homog_fits`).
pub fn dioph_homog_fits_exec(coeffs: &[i32], bound: i32) -> (r: bool)
    ensures
        r == dioph_homog_fits(ints(coeffs@), bound as int),
    decreases coeffs@.len(), 1int, 0int,
{
    let ghost cs = ints(coeffs@);
    let ghost b = bound as int;
    if coeffs.len() <= 1 {
        return true;
    }
    if coeffs.len() == 2 {
        if !bezout_fits(coeffs) {
            return false;
        }
        let (d, _) = bezout(coeffs);
        if d == 0 {
            return false;
        }
        proof {
            lemma_bezout_list(cs);
        }
        let qa = trunc_div_i32(coeffs[0], d);
        let qb = trunc_div_i32(coeffs[1], d);
        let len: i64 = if bound >= 0 { 2 * (bound as i64) + 1 } else { 0 };
        let mut t: i64 = 0;
        while t < len
            invariant
                0 <= t <= len,
                len == range_len(b),
                b == bound,
                cs == ints(coeffs@),
                coeffs@.len() == 2,
                qa == trunc_div(cs[0], bezout_list(cs).0),
                qb == trunc_div(cs[1], bezout_list(cs).0),
                forall|u: int| 0 <= u < t ==> {
                    &&& fits_i32(#[trigger] ((u - b) * qb))
                    &&& fits_i32(-(u - b) * qa)
                },
            decreases len - t,
        {
            let x: i64 = t - bound as i64;
            assert(-0x8000_0000 <= x <= 0x8000_0000);
            assert(x * (qb as i64) <= 0x4000_0000_0000_0000 && x * (qb as i64) >= -0x4000_0000_0000_0000) by (nonlinear_arith)
                requires
                    -0x8000_0000 <= x <= 0x8000_0000,
                    -0x8000_0000 <= qb <= 0x7fff_ffff,
            ;
            assert((-x) * (qa as i64) <= 0x4000_0000_0000_0000 && (-x) * (qa as i64) >= -0x4000_0000_0000_0000) by (nonlinear_arith)
                requires
                    -0x8000_0000 <= x <= 0x8000_0000,
                    -0x8000_0000 <= qa <= 0x7fff_ffff,
            ;
            if !fits_i64(x * (qb as i64)) || !fits_i64((-x) * (qa as i64)) {
                return false;
            }
            t = t + 1;
        }
        return true;
    }
    homog_from_fits_exec(coeffs, bound, -(bound as i64))
}

/// Whether the homogeneous solutions with first entry `k` or more can be found without leaving
/// `i32` (see `homog_from_fits`).
fn homog_from_fits_exec(coeffs: &[i32], bound: i32, k: i64) -> (r: bool)
    requires
        coeffs@.len() >= 3,
        k >= -(bound as int),
    ensures
        r == homog_from_fits(ints(coeffs@), bound as int, k as int),
    decreases coeffs@.len(), 0int, bound - k + 1,
{
    let ghost cs = ints(coeffs@);
    if k > bound as i64 {
        return true;
    }
    let head = coeffs[0];
    assert(-0x8000_0000 <= k <= 0x7fff_ffff);
    assert((-k) * (head as i64) <= 0x4000_0000_0000_0000 && (-k) * (head as i64) >= -0x4000_0000_0000_0000) by (nonlinear_arith)
        requires
            -0x8000_0000 <= k <= 0x7fff_ffff,
            -0x8000_0000 <= head <= 0x7fff_ffff,
    ;
    let v = (-k) * (head as i64);
    if !fits_i64(v) {
        return false;
    }
    let mut tail: Vec<i32> = Vec::new();
    let mut i: usize = 1;
    while i < coeffs.len()
        invariant
            1 <= i <= coeffs@.len(),
            tail@ == coeffs@.subrange(1, i as int),
        decreases coeffs@.len() - i,
    {
        tail.push(coeffs[i]);
        assert(tail@ =~= coeffs@.subrange(1, i + 1));
        i = i + 1;
    }
    assert(ints(tail@) =~= cs.drop_first());
    if !dioph_rec_fits_exec(tail.as_slice(), v as i32, bound) {
        return false;
    }
    homog_from_fits_exec(coeffs, bound, k + 1)
}

/// The candidate steps of a step signature (see `step_sig_candidates`), or `None` where an entry
/// of the signature or a number on the way to the Diophantine solutions does not fit in an `i32`.
pub fn try_step_sig_candidates(step_sig: &[usize], equave: Monzo, exponent_bound: i32) -> (r: Option<Vec<Vec<Monzo>>>)
    ensures
        match r {
            Some(v) => {
                &&& forall|i: int| 0 <= i < step_sig@.len() ==> #[trigger] step_sig@[i] <= i32::MAX
                &&& forall|j: int| 0 <= j < 9 ==> #[trigger] dioph_rec_fits(
                    sig_ints(step_sig@),
                    equave@[j] as int,
                    exponent_bound as int,
                )
                &&& v@.map_values(|v: Vec<Monzo>| v@.map_values(|m: Monzo| m@)) == step_candidates(
                    sig_ints(step_sig@),
                    equave@,
                    exponent_bound as int,
                )
            },
            None => !(forall|i: int| 0 <= i < step_sig@.len() ==> #[trigger] step_sig@[i] <= i32::MAX)
                || !(forall|j: int| 0 <= j < 9 ==> #[trigger] dioph_rec_fits(
                    sig_ints(step_sig@),
                    equave@[j] as int,
                    exponent_bound as int,
                )),
        },
{
    broadcast use lemma_monzo_len;

    let ghost sig = sig_ints(step_sig@);
    let mut sig32: Vec<i32> = Vec::new();
    let mut i: usize = 0;
    while i < step_sig.len()
        invariant
            i <= step_sig@.len(),
            forall|k: int| 0 <= k < i ==> #[trigger] step_sig@[k] <= i32::MAX,
            ints(sig32@) == sig.subrange(0, i as int),
            sig == sig_ints(step_sig@),
        decreases step_sig@.len() - i,
    {
        if step_sig[i] > 0x7fff_ffff {
            assert(step_sig@[i as int] > i32::MAX);
            return None;
        }
        let ghost sb = sig32@;
        sig32.push(step_sig[i] as i32);
        assert(ints(sig32@) =~= ints(sb).push(step_sig@[i as int] as int));
        assert(ints(sig32@) =~= sig.subrange(0, i + 1));
        i = i + 1;
    }
    assert(sig.subrange(0, step_sig@.len() as int) =~= sig);
    let e = equave.into_inner();
    let mut j: usize = 0;
    while j < 9
        invariant
            j <= 9,
            ints(sig32@) == sig,
            sig == sig_ints(step_sig@),
            e@ == equave@,
            forall|k: int| 0 <= k < step_sig@.len() ==> #[trigger] step_sig@[k] <= i32::MAX,
            forall|k: int| 0 <= k < j ==> #[trigger] dioph_rec_fits(sig, equave@[k] as int, exponent_bound as int),
        decreases 9 - j,
    {
        if !dioph_rec_fits_exec(sig32.as_slice(), e[j], exponent_bound) {
            assert(!dioph_rec_fits(sig_ints(step_sig@), equave@[j as int] as int, exponent_bound as int));
            return None;
        }
        j = j + 1;
    }
    Some(step_sig_candidates(step_sig, equave, exponent_bound))
}

} // verus!
