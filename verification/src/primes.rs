//! Small primes and prime factorization.

use vstd::prelude::*;

verus! {

/// The number of primes in `SMALL_PRIMES`: monzos have one exponent per prime.
pub const SMALL_PRIMES_COUNT: usize = 9;

/// The primes up to 23, in increasing order.
pub const SMALL_PRIMES: [u32; 9] = [2, 3, 5, 7, 11, 13, 17, 19, 23];

/// `p` is a prime number.
pub open spec fn is_prime(p: nat) -> bool {
    p >= 2 && forall|d: nat| 2 <= d < p ==> #[trigger] (p % d) != 0
}

/// The prime factors of `n` found by trial division from `d` on, in nondecreasing order.
pub open spec fn trial_factors(n: nat, d: nat) -> Seq<nat>
    decreases n, n - d,
{
    if n <= 1 || d < 2 {
        Seq::empty()
    } else if d * d > n {
        seq![n]
    } else if n % d == 0 {
        proof {
            vstd::arithmetic::div_mod::lemma_div_decreases(n as int, d as int);
        }
        seq![d] + trial_factors(n / d, d)
    } else {
        proof {
            assert(d < n) by (nonlinear_arith)
                requires
                    d * d <= n,
                    d >= 2,
            ;
        }
        trial_factors(n, d + 1)
    }
}

/// The product of a sequence of numbers.
pub open spec fn product(s: Seq<nat>) -> nat
    decreases s.len(),
{
    if s.len() == 0 {
        1
    } else {
        s[0] * product(s.drop_first())
    }
}

/// `2` to the power `k`.
pub open spec fn pow2(k: nat) -> nat
    decreases k,
{
    if k == 0 {
        1
    } else {
        2 * pow2((k - 1) as nat)
    }
}

/// The factors found by trial division multiply back to the number.
pub proof fn lemma_trial_factors_product(n: nat, d: nat)
    requires
        n >= 1,
        d >= 2,
    ensures
        product(trial_factors(n, d)) == n,
        forall|i: int| 0 <= i < trial_factors(n, d).len() ==> #[trigger] trial_factors(n, d)[i] >= 2,
        pow2(trial_factors(n, d).len()) <= n,
    decreases n, n - d,
{
    let f = trial_factors(n, d);
    if n <= 1 {
        assert(f.len() == 0);
    } else if d * d > n {
        assert(f == seq![n]);
        assert(f.drop_first() =~= Seq::<nat>::empty());
        assert(product(f.drop_first()) == 1);
        assert(product(f) == n * product(f.drop_first()));
        assert(n * 1 == n);
        assert(pow2(1) == 2 * pow2(0));
    } else if n % d == 0 {
        vstd::arithmetic::div_mod::lemma_div_decreases(n as int, d as int);
        vstd::arithmetic::div_mod::lemma_fundamental_div_mod(n as int, d as int);
        let m = n / d;
        assert(m >= 1) by (nonlinear_arith)
            requires
                n == d * m,
                n > 1,
        ;
        lemma_trial_factors_product(m, d);
        let rest = trial_factors(m, d);
        assert(f == seq![d] + rest);
        assert(f.drop_first() =~= rest);
        assert(product(f) == d * product(rest));
        assert(d * m == n);
        assert(forall|i: int| 0 < i < f.len() ==> f[i] == rest[i - 1]);
        assert(pow2(f.len()) == 2 * pow2(rest.len()));
        assert(2 * pow2(rest.len()) <= n) by (nonlinear_arith)
            requires
                pow2(rest.len()) <= m,
                n == d * m,
                d >= 2,
        ;
    } else {
        assert(d < n) by (nonlinear_arith)
            requires
                d * d <= n,
                d >= 2,
        ;
        lemma_trial_factors_product(n, d + 1);
    }
}

/// A number below `2^32` has fewer than 32 prime factors, counted with multiplicity.
pub proof fn lemma_trial_factors_len(n: nat)
    requires
        1 <= n <= u32::MAX,
    ensures
        trial_factors(n, 2).len() < 32,
{
    lemma_trial_factors_product(n, 2);
    let l = trial_factors(n, 2).len();
    if l >= 32 {
        lemma_pow2_monotone(32, l);
        assert(pow2(32) == 4294967296) by {
            reveal_with_fuel(pow2, 33);
        }
    }
}

proof fn lemma_pow2_monotone(a: nat, b: nat)
    requires
        a <= b,
    ensures
        pow2(a) <= pow2(b),
    decreases b,
{
    if a < b {
        lemma_pow2_monotone(a, (b - 1) as nat);
    }
}

/// The prime factorization of `n >= 1`, with multiplicity, in nondecreasing order.
pub fn factorize(n: u32) -> (r: Vec<u32>)
    requires
        n >= 1,
    ensures
        r@.map_values(|p: u32| p as nat) == trial_factors(n as nat, 2),
{
    let mut r: Vec<u32> = Vec::new();
    let mut m: u32 = n;
    let mut d: u32 = 2;
    while m > 1
        invariant
            1 <= m <= n,
            2 <= d,
            d <= 65536,
            r@.map_values(|p: u32| p as nat) + trial_factors(m as nat, d as nat) == trial_factors(n as nat, 2),
        decreases m, m - d + 65536,
    {
        let ghost rv = r@.map_values(|p: u32| p as nat);
        assert(d as u64 * d as u64 <= 65536 * 65536) by (nonlinear_arith)
            requires
                d <= 65536,
        ;
        let dd: u64 = d as u64 * d as u64;
        if dd > m as u64 {
            assert(trial_factors(m as nat, d as nat) == seq![m as nat]);
            r.push(m);
            assert(r@.map_values(|p: u32| p as nat) =~= rv.push(m as nat));
            assert(trial_factors(1, d as nat) =~= Seq::<nat>::empty());
            assert(rv + seq![m as nat] =~= rv.push(m as nat) + trial_factors(1, d as nat));
            m = 1;
        } else if m % d == 0 {
            assert(trial_factors(m as nat, d as nat) == seq![d as nat] + trial_factors((m / d) as nat, d as nat));
            r.push(d);
            assert(r@.map_values(|p: u32| p as nat) =~= rv.push(d as nat));
            assert(rv + (seq![d as nat] + trial_factors((m / d) as nat, d as nat)) =~= rv.push(d as nat) + trial_factors((m / d) as nat, d as nat));
            proof {
                vstd::arithmetic::div_mod::lemma_div_decreases(m as int, d as int);
                assert(m / d >= 1) by (nonlinear_arith)
                    requires
                        d * d <= m,
                        d >= 2,
                ;
            }
            m = m / d;
        } else {
            assert(trial_factors(m as nat, d as nat) == trial_factors(m as nat, (d + 1) as nat));
            assert(d + 1 <= 65536) by (nonlinear_arith)
                requires
                    d * d <= m,
                    m <= u32::MAX,
                    d >= 2,
            ;
            d = d + 1;
        }
    }
    assert(trial_factors(1, d as nat) =~= Seq::<nat>::empty());
    assert(r@.map_values(|p: u32| p as nat) =~= r@.map_values(|p: u32| p as nat) + trial_factors(m as nat, d as nat));
    r
}

proof fn lemma_divides_trans(a: nat, b: nat, c: nat)
    requires
        a > 0,
        b > 0,
        c > 0,
        b % a == 0,
        c % b == 0,
    ensures
        c % a == 0,
{
    vstd::arithmetic::div_mod::lemma_fundamental_div_mod(b as int, a as int);
    vstd::arithmetic::div_mod::lemma_fundamental_div_mod(c as int, b as int);
    let x = b / a;
    let y = c / b;
    assert(c == a * (x * y)) by (nonlinear_arith)
        requires
            b == a * x,
            c == b * y,
    ;
    vstd::arithmetic::div_mod::lemma_mod_multiples_basic((x * y) as int, a as int);
    assert((x * y) * a == a * (x * y)) by (nonlinear_arith);
}

/// `n` has no divisor in `[2, d)`.
spec fn no_divisor_below(n: nat, d: nat) -> bool {
    forall|q: nat| 2 <= q < d ==> #[trigger] (n % q) != 0
}

proof fn lemma_prime_when_no_small_divisor(n: nat, d: nat)
    requires
        n >= 2,
        d >= 2,
        d * d > n,
        no_divisor_below(n, d),
    ensures
        is_prime(n),
{
    assert forall|q: nat| 2 <= q < n implies #[trigger] (n % q) != 0 by {
        if n % q == 0 && q >= d {
            vstd::arithmetic::div_mod::lemma_fundamental_div_mod(n as int, q as int);
            let k = n / q;
            assert(n == q * k);
            assert(k >= 2 && k < d) by (nonlinear_arith)
                requires
                    n == q * k,
                    q < n,
                    q >= d,
                    d * d > n,
                    d >= 2,
            ;
            vstd::arithmetic::div_mod::lemma_mod_multiples_basic(q as int, k as int);
            assert(q * k == k * q) by (nonlinear_arith);
            assert(n % k == 0);
            assert(false);
        }
    }
}

/// Every factor found by trial division is prime.
proof fn lemma_trial_factors_prime_from(n: nat, d: nat)
    requires
        n >= 1,
        d >= 2,
        no_divisor_below(n, d),
    ensures
        forall|i: int| 0 <= i < trial_factors(n, d).len() ==> is_prime(#[trigger] trial_factors(n, d)[i]),
    decreases n, n - d,
{
    let f = trial_factors(n, d);
    if n <= 1 {
        assert(f.len() == 0);
    } else if d * d > n {
        lemma_prime_when_no_small_divisor(n, d);
        assert(f == seq![n]);
    } else if n % d == 0 {
        vstd::arithmetic::div_mod::lemma_div_decreases(n as int, d as int);
        vstd::arithmetic::div_mod::lemma_fundamental_div_mod(n as int, d as int);
        let m = n / d;
        assert(m >= 1) by (nonlinear_arith)
            requires
                n == d * m,
                n > 1,
        ;
        assert forall|q: nat| 2 <= q < d implies #[trigger] (d % q) != 0 by {
            if d % q == 0 {
                lemma_divides_trans(q, d, n);
            }
        }
        assert(is_prime(d));
        assert forall|q: nat| 2 <= q < d implies #[trigger] (m % q) != 0 by {
            if m % q == 0 {
                vstd::arithmetic::div_mod::lemma_mod_multiples_basic(d as int, m as int);
                assert(d * m == m * d) by (nonlinear_arith);
                assert(n % m == 0);
                lemma_divides_trans(q, m, n);
            }
        }
        lemma_trial_factors_prime_from(m, d);
        assert(f == seq![d] + trial_factors(m, d));
        assert forall|i: int| 0 <= i < f.len() implies is_prime(#[trigger] f[i]) by {
            if i > 0 {
                assert(f[i] == trial_factors(m, d)[i - 1]);
            }
        }
    } else {
        assert(d < n) by (nonlinear_arith)
            requires
                d * d <= n,
                d >= 2,
        ;
        assert forall|q: nat| 2 <= q < d + 1 implies #[trigger] (n % q) != 0 by {
            if q < d {
                assert(no_divisor_below(n, d));
            }
        }
        lemma_trial_factors_prime_from(n, d + 1);
        assert(f == trial_factors(n, d + 1));
    }
}

/// A positive number's divisors are no larger than it.
proof fn lemma_divisor_le(d: nat, n: nat)
    requires
        n > 0,
        d > 0,
        n % d == 0,
    ensures
        d <= n,
{
    vstd::arithmetic::div_mod::lemma_fundamental_div_mod(n as int, d as int);
    let q = n / d;
    assert(q >= 1) by (nonlinear_arith)
        requires
            n == d * q,
            n > 0,
    ;
    assert(d <= d * q) by (nonlinear_arith)
        requires
            q >= 1,
            d > 0,
    ;
}

/// Two different primes have no common divisor but 1.
proof fn lemma_distinct_primes_coprime(p: nat, q: nat)
    requires
        is_prime(p),
        is_prime(q),
        p != q,
    ensures
        crate::helpers::spec_gcd(p, q) == 1,
{
    let g = crate::helpers::spec_gcd(p, q);
    crate::helpers::lemma_gcd_positive(p, q);
    crate::helpers::lemma_gcd_divides(p, q);
    lemma_divisor_le(g, p);
    lemma_divisor_le(g, q);
    if g != 1 {
        assert(g >= 2);
        if g < p {
            assert(p % g != 0);
        }
        if g < q {
            assert(q % g != 0);
        }
    }
}

/// Euclid's lemma for a list of primes: a prime dividing their product is one of them.
pub proof fn lemma_prime_divides_product(p: nat, f: Seq<nat>)
    requires
        is_prime(p),
        forall|i: int| 0 <= i < f.len() ==> is_prime(#[trigger] f[i]),
        product(f) % p == 0,
    ensures
        f.contains(p),
    decreases f.len(),
{
    if f.len() == 0 {
        vstd::arithmetic::div_mod::lemma_small_mod(1, p);
    } else {
        let rest = f.drop_first();
        assert(product(f) == f[0] * product(rest));
        if f[0] != p {
            lemma_distinct_primes_coprime(p, f[0]);
            crate::helpers::lemma_coprime_divides(p, f[0], product(rest));
            assert forall|i: int| 0 <= i < rest.len() implies is_prime(#[trigger] rest[i]) by {
                assert(rest[i] == f[i + 1]);
            }
            lemma_prime_divides_product(p, rest);
            let i = choose|i: int| 0 <= i < rest.len() && rest[i] == p;
            assert(f[i + 1] == p);
        } else {
            assert(f[0] == p);
        }
    }
}

/// Each number of a list of positive numbers divides their product.
pub proof fn lemma_factor_divides_product(f: Seq<nat>, i: int)
    requires
        0 <= i < f.len(),
        forall|j: int| 0 <= j < f.len() ==> #[trigger] f[j] > 0,
    ensures
        product(f) % f[i] == 0,
    decreases f.len(),
{
    let rest = f.drop_first();
    let pr = product(rest);
    assert(product(f) == f[0] * pr);
    if i == 0 {
        vstd::arithmetic::div_mod::lemma_mod_multiples_basic(pr as int, f[0] as int);
        assert(pr * f[0] == f[0] * pr) by (nonlinear_arith);
    } else {
        assert forall|j: int| 0 <= j < rest.len() implies #[trigger] rest[j] > 0 by {
            assert(rest[j] == f[j + 1]);
        }
        lemma_factor_divides_product(rest, i - 1);
        assert(rest[i - 1] == f[i]);
        vstd::arithmetic::div_mod::lemma_fundamental_div_mod(pr as int, f[i] as int);
        let q = pr / f[i];
        vstd::arithmetic::div_mod::lemma_mod_multiples_basic((f[0] * q) as int, f[i] as int);
        assert(f[0] * pr == (f[0] * q) * f[i]) by (nonlinear_arith)
            requires
                pr == f[i] * q + 0,
        ;
    }
}

/// Each number found by trial division is a prime dividing the number.
pub proof fn lemma_trial_factor_is_prime_divisor(n: nat, i: int)
    requires
        n >= 1,
        0 <= i < trial_factors(n, 2).len(),
    ensures
        is_prime(trial_factors(n, 2)[i]),
        n % trial_factors(n, 2)[i] == 0,
{
    lemma_trial_factors_prime(n);
    let f = trial_factors(n, 2);
    assert forall|j: int| 0 <= j < f.len() implies #[trigger] f[j] > 0 by {
        assert(is_prime(f[j]));
    }
    lemma_factor_divides_product(f, i);
}

/// A prime dividing `n` is among the prime factors of `n` found by trial division.
pub proof fn lemma_prime_divisor_in_trial_factors(p: nat, n: nat)
    requires
        is_prime(p),
        n >= 1,
        n % p == 0,
    ensures
        trial_factors(n, 2).contains(p),
{
    lemma_trial_factors_prime(n);
    lemma_prime_divides_product(p, trial_factors(n, 2));
}

/// The prime factorization by trial division consists of primes whose product is the number.
pub proof fn lemma_trial_factors_prime(n: nat)
    requires
        n >= 1,
    ensures
        forall|i: int| 0 <= i < trial_factors(n, 2).len() ==> is_prime(#[trigger] trial_factors(n, 2)[i]),
        product(trial_factors(n, 2)) == n,
{
    lemma_trial_factors_prime_from(n, 2);
    lemma_trial_factors_product(n, 2);
}

} // verus!
