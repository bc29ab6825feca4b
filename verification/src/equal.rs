//! Vals: maps from monzos to steps of an equal temperament.
//!
//! A val gives, for each of the primes 2, 3, 5, ..., 23, the number of steps that the prime maps
//! to; a monzo maps to the dot product of its exponents with the val.

use vstd::prelude::*;

use crate::ji::triple_lt;
use crate::matrix::Triple;
use crate::monzo::{fits_i32, ints, lemma_monzo_len, Monzo};

verus! {

/// A val: one step count for each small prime.
#[derive(Debug, Clone, Copy, PartialEq)]
pub struct Val([i32; 9]);

impl View for Val {
    type V = Seq<i32>;

    closed spec fn view(&self) -> Seq<i32> {
        self.0@
    }
}

/// A val has one entry for each small prime.
pub broadcast proof fn lemma_val_len(v: Val)
    ensures
        #[trigger] v@.len() == 9,
{
}

/// The sum of `a[i] * b[i]` over the first `k` indices.
pub open spec fn dot_upto(a: Seq<i32>, b: Seq<i32>, k: int) -> int
    decreases k,
{
    if k <= 0 {
        0
    } else {
        dot_upto(a, b, k - 1) + a[k - 1] * b[k - 1]
    }
}

/// The dot product of two nine-entry vectors.
pub open spec fn dot(a: Seq<i32>, b: Seq<i32>) -> int {
    dot_upto(a, b, 9)
}

impl Val {
    /// The zero val.
    pub fn zero() -> (r: Self)
        ensures
            ints(r@) == Seq::new(9, |i: int| 0int),
    {
        let r = Val([0i32; 9]);
        assert(ints(r@) =~= Seq::new(9, |i: int| 0int));
        r
    }

    /// The entries.
    pub fn into_inner(&self) -> (r: [i32; 9])
        ensures
            r@ == self@,
    {
        self.0
    }

    /// The val whose first entries are those of `slice`, the others 0.
    pub fn from_slice(slice: &[i32]) -> (r: Self)
        requires
            slice@.len() <= 9,
        ensures
            ints(r@) == Seq::new(9, |i: int| if i < slice@.len() { slice@[i] as int } else { 0int }),
    {
        let mut arr = [0i32; 9];
        let mut i: usize = 0;
        while i < slice.len()
            invariant
                i <= slice@.len() <= 9,
                arr@.len() == 9,
                forall|j: int| 0 <= j < 9 ==> #[trigger] arr@[j] == if j < i { slice@[j] } else { 0i32 },
            decreases slice@.len() - i,
        {
            arr[i] = slice[i];
            i = i + 1;
        }
        let r = Val(arr);
        assert(ints(r@) =~= Seq::new(9, |i: int| if i < slice@.len() { slice@[i] as int } else { 0int }));
        r
    }

    /// The number of steps the val maps a monzo to: the dot product.
    pub fn evaluate(&self, monzo: Monzo) -> (r: i32)
        requires
            fits_i32(dot(self@, monzo@)),
        ensures
            r == dot(self@, monzo@),
    {
        broadcast use lemma_monzo_len;

        let m = monzo.into_inner();
        let mut acc: i128 = 0;
        let mut i: usize = 0;
        while i < 9
            invariant
                i <= 9,
                m@ == monzo@,
                self@ == self.0@,
                self@.len() == 9,
                m@.len() == 9,
                acc == dot_upto(self@, m@, i as int),
                -(i as int) * 0x4000_0000_0000_0000 <= acc <= (i as int) * 0x4000_0000_0000_0000,
            decreases 9 - i,
        {
            let a = self.0[i] as i128;
            let b = m[i] as i128;
            assert(-0x4000_0000_0000_0000 <= a * b <= 0x4000_0000_0000_0000) by (nonlinear_arith)
                requires
                    -0x8000_0000 <= a <= 0x7fff_ffff,
                    -0x8000_0000 <= b <= 0x7fff_ffff,
            ;
            acc = acc + a * b;
            i = i + 1;
        }
        acc as i32
    }

    /// The sum of two vals.
    pub fn add(self, rhs: Self) -> (r: Self)
        requires
            forall|i: int| 0 <= i < 9 ==> fits_i32(self@[i] + rhs@[i]),
        ensures
            forall|i: int| 0 <= i < 9 ==> #[trigger] r@[i] == self@[i] + rhs@[i],
    {
        let mut arr = [0i32; 9];
        let mut i: usize = 0;
        while i < 9
            invariant
                i <= 9,
                arr@.len() == 9,
                self@ == self.0@,
                rhs@ == rhs.0@,
                forall|j: int| 0 <= j < 9 ==> fits_i32(self@[j] + rhs@[j]),
                forall|j: int| 0 <= j < i ==> #[trigger] arr@[j] == self@[j] + rhs@[j],
            decreases 9 - i,
        {
            arr[i] = self.0[i] + rhs.0[i];
            i = i + 1;
        }
        Val(arr)
    }

    /// Adds `rhs` in place.
    pub fn add_assign(&mut self, rhs: Self)
        requires
            forall|i: int| 0 <= i < 9 ==> fits_i32(old(self)@[i] + rhs@[i]),
        ensures
            forall|i: int| 0 <= i < 9 ==> #[trigger] final(self)@[i] == old(self)@[i] + rhs@[i],
    {
        *self = self.add(rhs);
    }
}

/// A val maps a product of intervals to the sum of the steps it maps them to:
/// evaluation is linear in the monzo.
pub proof fn lemma_evaluate_additive(v: Seq<i32>, a: Seq<i32>, b: Seq<i32>, c: Seq<i32>, k: int)
    requires
        0 <= k <= 9,
        forall|i: int| 0 <= i < 9 ==> #[trigger] c[i] == a[i] + b[i],
    ensures
        dot_upto(v, c, k) == dot_upto(v, a, k) + dot_upto(v, b, k),
    decreases k,
{
    if k > 0 {
        lemma_evaluate_additive(v, a, b, c, k - 1);
        let x = v[k - 1];
        assert(x * c[k - 1] == x * a[k - 1] + x * b[k - 1]) by (nonlinear_arith)
            requires
                c[k - 1] == a[k - 1] + b[k - 1],
        ;
    }
}

/// The sum of two vals maps an interval to the sum of the steps the two map it to.
pub proof fn lemma_val_sum_evaluate(v: Seq<i32>, w: Seq<i32>, s: Seq<i32>, m: Seq<i32>, k: int)
    requires
        0 <= k <= 9,
        forall|i: int| 0 <= i < 9 ==> #[trigger] s[i] == v[i] + w[i],
    ensures
        dot_upto(s, m, k) == dot_upto(v, m, k) + dot_upto(w, m, k),
    decreases k,
{
    if k > 0 {
        lemma_val_sum_evaluate(v, w, s, m, k - 1);
        let x = m[k - 1];
        assert(s[k - 1] * x == v[k - 1] * x + w[k - 1] * x) by (nonlinear_arith)
            requires
                s[k - 1] == v[k - 1] + w[k - 1],
        ;
    }
}

// ---------------------------------------------------------------------------
// Equal-division tunings of ternary step signatures
// ---------------------------------------------------------------------------

/// `[L, m, s]` step counts with `ed_bound > L > m > s >= 1` whose equal division,
/// `L * sig.0 + m * sig.1 + s * sig.2` steps, is at most `ed_bound`.
pub open spec fn ed_counts_ok(sig: Triple, ed_bound: int, t: Triple) -> bool {
    &&& 3 <= t.0 < ed_bound
    &&& 2 <= t.1 < t.0
    &&& 1 <= t.2 < t.1
    &&& t.0 * sig.0 + t.1 * sig.1 + t.2 * sig.2 <= ed_bound
}

/// The triples of a list of three-entry vectors.
pub open spec fn vec_triples(v: Seq<Vec<i32>>) -> Seq<Triple> {
    v.map_values(|a: Vec<i32>| (a@[0] as int, a@[1] as int, a@[2] as int))
}

/// The step signature's first three counts, as integers.
pub open spec fn sig_triple(step_sig: Seq<usize>) -> Triple {
    (step_sig[0] as int, step_sig[1] as int, step_sig[2] as int)
}

proof fn lemma_weighted_bound(x: int, a: int)
    requires
        0 <= x <= i32::MAX,
        0 <= a <= i32::MAX,
    ensures
        0 <= x * a <= 0x4000_0000_0000_0000,
{
    assert(0 <= x * a <= 0x4000_0000_0000_0000) by (nonlinear_arith)
        requires
            0 <= x <= i32::MAX,
            0 <= a <= i32::MAX,
    ;
}

/// All step counts `[L, m, s]` of equal-division tunings of a ternary step signature with at most
/// `ed_bound` steps and `L > m > s >= 1`, in increasing lexicographic order.
pub fn ed_step_counts(step_sig: &[usize], ed_bound: i32) -> (r: Vec<Vec<i32>>)
    requires
        step_sig@.len() >= 3,
        forall|k: int| 0 <= k < 3 ==> #[trigger] step_sig@[k] <= i32::MAX,
    ensures
        forall|j: int| 0 <= j < r@.len() ==> (#[trigger] r@[j])@.len() == 3,
        forall|i: int, j: int|
            0 <= i < j < r@.len() ==> triple_lt(#[trigger] vec_triples(r@)[i], #[trigger] vec_triples(r@)[j]),
        forall|t: Triple|
            #[trigger] vec_triples(r@).contains(t) <==> ed_counts_ok(sig_triple(step_sig@), ed_bound as int, t),
{
    let ghost sig = sig_triple(step_sig@);
    let a = step_sig[0] as i128;
    let b = step_sig[1] as i128;
    let c = step_sig[2] as i128;
    let bound = ed_bound as i128;
    let mut r: Vec<Vec<i32>> = Vec::new();
    let mut l: i32 = 3;
    while l < ed_bound
        invariant
            sig == (a as int, b as int, c as int),
            0 <= a <= i32::MAX,
            0 <= b <= i32::MAX,
            0 <= c <= i32::MAX,
            bound == ed_bound,
            3 <= l,
            l <= ed_bound || l == 3,
            forall|j: int| 0 <= j < r@.len() ==> (#[trigger] r@[j])@.len() == 3,
            forall|i: int, j: int|
                0 <= i < j < r@.len() ==> triple_lt(#[trigger] vec_triples(r@)[i], #[trigger] vec_triples(r@)[j]),
            forall|i: int| 0 <= i < r@.len() ==> triple_lt(#[trigger] vec_triples(r@)[i], (l as int, 0, 0)),
            forall|t: Triple|
                #[trigger] vec_triples(r@).contains(t) <==> ed_counts_ok(sig, ed_bound as int, t) && triple_lt(
                    t,
                    (l as int, 0, 0),
                ),
        decreases ed_bound - l,
    {
        let mut m: i32 = 2;
        while m < l
            invariant
                sig == (a as int, b as int, c as int),
                0 <= a <= i32::MAX,
                0 <= b <= i32::MAX,
                0 <= c <= i32::MAX,
                bound == ed_bound,
                3 <= l < ed_bound,
                2 <= m <= l,
                forall|j: int| 0 <= j < r@.len() ==> (#[trigger] r@[j])@.len() == 3,
                forall|i: int, j: int|
                    0 <= i < j < r@.len() ==> triple_lt(#[trigger] vec_triples(r@)[i], #[trigger] vec_triples(r@)[j]),
                forall|i: int| 0 <= i < r@.len() ==> triple_lt(#[trigger] vec_triples(r@)[i], (l as int, m as int, 0)),
                forall|t: Triple|
                    #[trigger] vec_triples(r@).contains(t) <==> ed_counts_ok(sig, ed_bound as int, t) && triple_lt(
                        t,
                        (l as int, m as int, 0),
                    ),
            decreases l - m,
        {
            let mut s: i32 = 1;
            while s < m
                invariant
                    sig == (a as int, b as int, c as int),
                    0 <= a <= i32::MAX,
                    0 <= b <= i32::MAX,
                    0 <= c <= i32::MAX,
                    bound == ed_bound,
                    3 <= l < ed_bound,
                    2 <= m < l,
                    1 <= s <= m,
                    forall|j: int| 0 <= j < r@.len() ==> (#[trigger] r@[j])@.len() == 3,
                    forall|i: int, j: int|
                        0 <= i < j < r@.len() ==> triple_lt(
                            #[trigger] vec_triples(r@)[i],
                            #[trigger] vec_triples(r@)[j],
                        ),
                    forall|i: int|
                        0 <= i < r@.len() ==> triple_lt(#[trigger] vec_triples(r@)[i], (l as int, m as int, s as int)),
                    forall|t: Triple|
                        #[trigger] vec_triples(r@).contains(t) <==> ed_counts_ok(sig, ed_bound as int, t) && triple_lt(
                            t,
                            (l as int, m as int, s as int),
                        ),
                decreases m - s,
            {
                proof {
                    lemma_weighted_bound(l as int, a as int);
                    lemma_weighted_bound(m as int, b as int);
                    lemma_weighted_bound(s as int, c as int);
                }
                let ed = (l as i128) * a + (m as i128) * b + (s as i128) * c;
                let ghost cur: Triple = (l as int, m as int, s as int);
                let ghost before = r@;
                if ed <= bound {
                    let v: Vec<i32> = vec![l, m, s];
                    assert(v@ =~= seq![l, m, s]);
                    r.push(v);
                    proof {
                        assert(vec_triples(r@) =~= vec_triples(before).push(cur));
                    }
                } else {
                    assert(!ed_counts_ok(sig, ed_bound as int, cur));
                }
                proof {
                    let next: Triple = (l as int, m as int, s + 1);
                    assert forall|t: Triple| #[trigger] vec_triples(r@).contains(t) <==> ed_counts_ok(sig, ed_bound as int, t)
                        && triple_lt(t, next) by {
                        if vec_triples(r@).contains(t) && !vec_triples(before).contains(t) {
                            let k = choose|k: int| 0 <= k < vec_triples(r@).len() && vec_triples(r@)[k] == t;
                            assert(k == vec_triples(before).len());
                        }
                        if vec_triples(before).contains(t) {
                            let k = choose|k: int| 0 <= k < vec_triples(before).len() && vec_triples(before)[k] == t;
                            assert(vec_triples(r@)[k] == t);
                        }
                        if t == cur && ed_counts_ok(sig, ed_bound as int, t) {
                            assert(vec_triples(r@)[vec_triples(r@).len() - 1] == t);
                        }
                    }
                }
                s = s + 1;
            }
            proof {
                assert forall|t: Triple| ed_counts_ok(sig, ed_bound as int, t) implies triple_lt(t, (l as int, m as int, m as int))
                    == triple_lt(t, (l as int, m + 1, 0)) by {}
            }
            m = m + 1;
        }
        proof {
            assert forall|t: Triple| ed_counts_ok(sig, ed_bound as int, t) implies triple_lt(t, (l as int, l as int, 0))
                == triple_lt(t, (l + 1, 0, 0)) by {}
        }
        l = l + 1;
    }
    proof {
        assert forall|t: Triple| #[trigger] vec_triples(r@).contains(t) <==> ed_counts_ok(sig, ed_bound as int, t) by {
            if ed_counts_ok(sig, ed_bound as int, t) {
                assert(triple_lt(t, (l as int, 0, 0)));
            }
        }
    }
    r
}

} // verus!
