//! Scale words: scales as circular sequences of step letters.
//!
//! Letter `0` is the large step L, `1` the medium step m, `2` the small step s.

use itertools::Itertools;
use std::collections::{BTreeMap, BTreeSet};
use vstd::prelude::*;

use crate::helpers::{gcd, least_inverse, modinv, spec_gcd, ScaleError};

verus! {

/// A step letter: `0` = L, `1` = m, `2` = s for ternary scales.
pub type Letter = usize;

/// Result of a three-way comparison.
#[derive(Clone, Copy, Debug, PartialEq, Eq, Structural)]
pub enum Trichotomy {
    Less,
    Equal,
    Greater,
}

/// Values that can stand as letters of a word and as keys of a `CountVector`.
///
/// Each symbol has a mathematical model; symbols are compared, copied and
/// counted through their models, which are totally ordered.
pub trait Symbol: Sized {
    type Model;

    spec fn model(&self) -> Self::Model;

    /// The strict total order on models.
    spec fn model_lt(a: Self::Model, b: Self::Model) -> bool;

    proof fn lemma_lt_irreflexive(a: Self::Model)
        ensures
            !Self::model_lt(a, a),
    ;

    proof fn lemma_lt_transitive(a: Self::Model, b: Self::Model, c: Self::Model)
        requires
            Self::model_lt(a, b),
            Self::model_lt(b, c),
        ensures
            Self::model_lt(a, c),
    ;

    proof fn lemma_lt_total(a: Self::Model, b: Self::Model)
        ensures
            Self::model_lt(a, b) || Self::model_lt(b, a) || a == b,
    ;

    /// A copy of `self` with the same model.
    fn duplicate(&self) -> (r: Self)
        ensures
            r.model() == self.model(),
    ;

    /// Three-way comparison of the models.
    fn compare(&self, other: &Self) -> (r: Trichotomy)
        ensures
            (r == Trichotomy::Less) == Self::model_lt(self.model(), other.model()),
            (r == Trichotomy::Equal) == (self.model() == other.model()),
            (r == Trichotomy::Greater) == Self::model_lt(other.model(), self.model()),
    ;
}

/// The models of a sequence of symbols.
pub open spec fn models<T: Symbol>(s: Seq<T>) -> Seq<T::Model> {
    s.map_values(|x: T| x.model())
}

impl Symbol for usize {
    type Model = usize;

    open spec fn model(&self) -> usize {
        *self
    }

    open spec fn model_lt(a: usize, b: usize) -> bool {
        a < b
    }

    proof fn lemma_lt_irreflexive(a: usize) {
    }

    proof fn lemma_lt_transitive(a: usize, b: usize, c: usize) {
    }

    proof fn lemma_lt_total(a: usize, b: usize) {
    }

    fn duplicate(&self) -> (r: Self) {
        *self
    }

    fn compare(&self, other: &Self) -> (r: Trichotomy) {
        if *self < *other {
            Trichotomy::Less
        } else if *self == *other {
            Trichotomy::Equal
        } else {
            Trichotomy::Greater
        }
    }
}

/// Models commute with `push`.
pub broadcast proof fn lemma_models_push<T: Symbol>(s: Seq<T>, x: T)
    ensures
        #[trigger] models(s.push(x)) == models(s).push(x.model()),
{
    assert(models(s.push(x)) =~= models(s).push(x.model()));
}

/// For letters, the models of a word are the word itself.
pub broadcast proof fn lemma_models_usize(s: Seq<usize>)
    ensures
        #[trigger] models(s) == s,
{
    assert(models(s) =~= s);
}

/// Whether two symbols have the same model.
pub fn symbol_eq<T: Symbol>(a: &T, b: &T) -> (r: bool)
    ensures
        r == (a.model() == b.model()),
{
    match a.compare(b) {
        Trichotomy::Equal => true,
        _ => false,
    }
}

/// A copy of a slice of symbols.
pub fn copy_symbols<T: Symbol>(s: &[T]) -> (r: Vec<T>)
    ensures
        models(r@) == models(s@),
{
    let mut r: Vec<T> = Vec::new();
    let mut i: usize = 0;
    while i < s.len()
        invariant
            i <= s@.len(),
            models(r@) == models(s@.subrange(0, i as int)),
        decreases s@.len() - i,
    {
        let x = s[i].duplicate();
        proof {
            lemma_models_push(r@, x);
            assert(models(s@.subrange(0, i + 1)) =~= models(s@.subrange(0, i as int)).push(x.model()));
        }
        r.push(x);
        assert(models(r@) =~= models(s@.subrange(0, i + 1)));
        i = i + 1;
    }
    r
}

/// `s` rotated left by `d` places (the mode starting on degree `d`).
pub open spec fn spec_rotate<A>(s: Seq<A>, d: int) -> Seq<A> {
    let k = d % (s.len() as int);
    s.subrange(k, s.len() as int) + s.subrange(0, k)
}

/// A rotation of a nonempty word is as long as the word.
pub proof fn lemma_rotate_len<A>(s: Seq<A>, d: int)
    requires
        s.len() > 0,
    ensures
        #[trigger] spec_rotate(s, d).len() == s.len(),
{
    let n = s.len() as int;
    assert(0 <= d % n < n);
}

/// The `i`th letter of a rotation is the `(i + d)`th letter of the word, read circularly.
pub proof fn lemma_rotate_index<A>(s: Seq<A>, d: int, i: int)
    requires
        s.len() > 0,
        0 <= i < s.len(),
        d >= 0,
    ensures
        spec_rotate(s, d).len() == s.len(),
        spec_rotate(s, d)[i] == s[(i + d) % (s.len() as int)],
{
    let n = s.len() as int;
    let k = d % n;
    assert(0 <= k < n);
    if i < n - k {
        assert((i + d) % n == i + k) by {
            vstd::arithmetic::div_mod::lemma_mod_add_multiples_vanish(i + k, n);
            vstd::arithmetic::div_mod::lemma_fundamental_div_mod(d, n);
            vstd::arithmetic::div_mod::lemma_mod_multiples_vanish(d / n, i + k, n);
            vstd::arithmetic::div_mod::lemma_small_mod((i + k) as nat, n as nat);
        }
    } else {
        assert((i + d) % n == i + k - n) by {
            vstd::arithmetic::div_mod::lemma_fundamental_div_mod(d, n);
            vstd::arithmetic::mul::lemma_mul_is_distributive_add(n, d / n, 1);
            assert(i + d == n * (d / n + 1) + (i + k - n));
            vstd::arithmetic::div_mod::lemma_mod_multiples_vanish(d / n + 1, i + k - n, n);
            vstd::arithmetic::div_mod::lemma_small_mod((i + k - n) as nat, n as nat);
        }
    }
}

/// Rotating by `a` and then by `b` is rotating by `a + b`.
pub proof fn lemma_rotate_compose<A>(s: Seq<A>, a: int, b: int)
    requires
        s.len() > 0,
        a >= 0,
        b >= 0,
    ensures
        spec_rotate(spec_rotate(s, a), b) == spec_rotate(s, a + b),
{
    let n = s.len() as int;
    let r = spec_rotate(s, a);
    lemma_rotate_len(s, a);
    lemma_rotate_len(r, b);
    lemma_rotate_len(s, a + b);
    assert forall|i: int| 0 <= i < n implies #[trigger] spec_rotate(r, b)[i] == spec_rotate(s, a + b)[i] by {
        lemma_rotate_index(r, b, i);
        let j = (i + b) % n;
        assert(0 <= j < n);
        lemma_rotate_index(s, a, j);
        lemma_rotate_index(s, a + b, i);
        assert((j + a) % n == (i + (a + b)) % n) by {
            vstd::arithmetic::div_mod::lemma_add_mod_noop(i + b, a, n);
            vstd::arithmetic::div_mod::lemma_mod_twice(a, n);
            vstd::arithmetic::div_mod::lemma_add_mod_noop(i + b, a, n);
            vstd::arithmetic::div_mod::lemma_add_mod_noop(j, a, n);
            vstd::arithmetic::div_mod::lemma_mod_twice(i + b, n);
            assert(i + b + a == i + (a + b));
        }
    }
    assert(spec_rotate(r, b) =~= spec_rotate(s, a + b));
}

/// Rotating by the length of the word gives back the word.
pub proof fn lemma_rotate_full<A>(s: Seq<A>)
    requires
        s.len() > 0,
    ensures
        spec_rotate(s, s.len() as int) == s,
        spec_rotate(s, 0) == s,
{
    let n = s.len() as int;
    vstd::arithmetic::div_mod::lemma_mod_self_0(n);
    assert(spec_rotate(s, n) =~= s);
    assert(spec_rotate(s, 0) =~= s);
}

/// Rotate a scale word left by `degree` positions (change mode).
pub fn rotate<T: Symbol>(slice: &[T], degree: usize) -> (r: Vec<T>)
    requires
        slice@.len() > 0,
    ensures
        models(r@) == spec_rotate(models(slice@), degree as int),
        r@.len() == slice@.len(),
{
    let n = slice.len();
    let k = degree % n;
    let ghost ms = models(slice@);
    let mut r: Vec<T> = Vec::new();
    let mut i: usize = k;
    while i < n
        invariant
            k <= i <= n,
            n == slice@.len(),
            ms == models(slice@),
            models(r@) == ms.subrange(k as int, i as int),
        decreases n - i,
    {
        let x = slice[i].duplicate();
        proof {
            lemma_models_push(r@, x);
        }
        r.push(x);
        assert(models(r@) =~= ms.subrange(k as int, i + 1));
        i = i + 1;
    }
    let mut j: usize = 0;
    while j < k
        invariant
            j <= k < n,
            n == slice@.len(),
            ms == models(slice@),
            models(r@) == ms.subrange(k as int, n as int) + ms.subrange(0, j as int),
        decreases k - j,
    {
        let x = slice[j].duplicate();
        proof {
            lemma_models_push(r@, x);
        }
        r.push(x);
        assert(models(r@) =~= ms.subrange(k as int, n as int) + ms.subrange(0, j + 1));
        j = j + 1;
    }
    assert(models(r@) =~= spec_rotate(ms, degree as int));
    r
}


// ---------------------------------------------------------------------------
// Count vectors
// ---------------------------------------------------------------------------

/// The models of a list of `(key, count)` entries.
pub open spec fn entry_models<T: Symbol>(es: Seq<(T, i32)>) -> Seq<(T::Model, i32)> {
    es.map_values(|e: (T, i32)| (e.0.model(), e.1))
}

/// Entry models commute with `push`.
pub broadcast proof fn lemma_entry_models_push<T: Symbol>(es: Seq<(T, i32)>, e: (T, i32))
    ensures
        #[trigger] entry_models(es.push(e)) == entry_models(es).push((e.0.model(), e.1)),
{
    assert(entry_models(es.push(e)) =~= entry_models(es).push((e.0.model(), e.1)));
}

/// Indexing into entry models.
pub proof fn lemma_entry_models_index<T: Symbol>(es: Seq<(T, i32)>, i: int)
    requires
        0 <= i < es.len(),
    ensures
        entry_models(es).len() == es.len(),
        entry_models(es)[i] == (es[i].0.model(), es[i].1),
{
}

/// The keys of an entry list are strictly increasing.
pub open spec fn sorted_keys<T: Symbol>(es: Seq<(T::Model, i32)>) -> bool {
    forall|i: int, j: int| 0 <= i < j < es.len() ==> T::model_lt(#[trigger] es[i].0, #[trigger] es[j].0)
}

/// The count stored for key `k`, if any.
pub open spec fn entries_get<T: Symbol>(es: Seq<(T::Model, i32)>, k: T::Model) -> Option<i32>
    decreases es.len(),
{
    if es.len() == 0 {
        None
    } else if es[0].0 == k {
        Some(es[0].1)
    } else {
        entries_get::<T>(es.drop_first(), k)
    }
}

/// Adding `v` to the count of key `k` in a sorted entry list.
/// A count that becomes 0 is removed; a new key is inserted in order (even with count 0).
pub open spec fn entries_add<T: Symbol>(es: Seq<(T::Model, i32)>, k: T::Model, v: i32) -> Seq<(T::Model, i32)>
    decreases es.len(),
{
    if es.len() == 0 {
        seq![(k, v)]
    } else if T::model_lt(k, es[0].0) {
        seq![(k, v)] + es
    } else if k == es[0].0 {
        if es[0].1 + v == 0 {
            es.drop_first()
        } else {
            seq![(k, (es[0].1 + v) as i32)] + es.drop_first()
        }
    } else {
        seq![es[0]] + entries_add::<T>(es.drop_first(), k, v)
    }
}

/// Adding `v` to key `k` does not overflow an `i32` count.
pub open spec fn add_fits<T: Symbol>(es: Seq<(T::Model, i32)>, k: T::Model, v: i32) -> bool {
    match entries_get::<T>(es, k) {
        Some(c) => i32::MIN <= c + v <= i32::MAX,
        None => true,
    }
}

/// The sum of entry list `a` and entry list `b`: the entries of `b` added into `a` in turn.
pub open spec fn entries_sum<T: Symbol>(a: Seq<(T::Model, i32)>, b: Seq<(T::Model, i32)>) -> Seq<(T::Model, i32)>
    decreases b.len(),
{
    if b.len() == 0 {
        a
    } else {
        entries_add::<T>(entries_sum::<T>(a, b.drop_last()), b.last().0, b.last().1)
    }
}

/// The entry list with every count negated.
pub open spec fn entries_neg<T: Symbol>(a: Seq<(T::Model, i32)>) -> Seq<(T::Model, i32)> {
    a.map_values(|e: (T::Model, i32)| (e.0, (-e.1) as i32))
}

/// Looking a key up in a negated list gives the negated count.
pub proof fn lemma_entries_neg_get<T: Symbol>(a: Seq<(T::Model, i32)>, k: T::Model)
    ensures
        entries_get::<T>(entries_neg::<T>(a), k) == match entries_get::<T>(a, k) {
            Some(v) => Some((-v) as i32),
            None => None,
        },
    decreases a.len(),
{
    if a.len() > 0 {
        assert(entries_neg::<T>(a).drop_first() =~= entries_neg::<T>(a.drop_first()));
        lemma_entries_neg_get::<T>(a.drop_first(), k);
    }
}

/// Adding the first `j` negated entries of a sorted list to it removes its first `j` entries.
proof fn lemma_entries_sum_neg_prefix<T: Symbol>(a: Seq<(T::Model, i32)>, j: int)
    requires
        sorted_keys::<T>(a),
        forall|i: int| 0 <= i < a.len() ==> #[trigger] a[i].1 != i32::MIN,
        0 <= j <= a.len(),
    ensures
        entries_sum::<T>(a, entries_neg::<T>(a).subrange(0, j)) == a.subrange(j, a.len() as int),
    decreases j,
{
    let nb = entries_neg::<T>(a);
    if j == 0 {
        assert(nb.subrange(0, 0) =~= Seq::<(T::Model, i32)>::empty());
        assert(a.subrange(0, a.len() as int) =~= a);
    } else {
        lemma_entries_sum_neg_prefix::<T>(a, j - 1);
        assert(nb.subrange(0, j).drop_last() =~= nb.subrange(0, j - 1));
        assert(nb.subrange(0, j).last() == nb[j - 1]);
        let es = a.subrange(j - 1, a.len() as int);
        assert(es[0] == a[j - 1]);
        T::lemma_lt_irreflexive(a[j - 1].0);
        assert(es.drop_first() =~= a.subrange(j, a.len() as int));
    }
}

/// A count vector plus its negation is the zero vector, and negating twice gives it back.
pub proof fn lemma_add_neg_is_zero<T: Symbol>(a: Seq<(T::Model, i32)>)
    requires
        sorted_keys::<T>(a),
        forall|i: int| 0 <= i < a.len() ==> #[trigger] a[i].1 != i32::MIN,
    ensures
        entries_sum::<T>(a, entries_neg::<T>(a)) == Seq::<(T::Model, i32)>::empty(),
        entries_neg::<T>(entries_neg::<T>(a)) == a,
{
    lemma_entries_sum_neg_prefix::<T>(a, a.len() as int);
    assert(entries_neg::<T>(a).subrange(0, a.len() as int) =~= entries_neg::<T>(a));
    assert(a.subrange(a.len() as int, a.len() as int) =~= Seq::<(T::Model, i32)>::empty());
    assert(entries_neg::<T>(entries_neg::<T>(a)) =~= a);
}

/// The canonical count entries of a word: each letter counted once per occurrence.
pub open spec fn count_entries<T: Symbol>(s: Seq<T::Model>) -> Seq<(T::Model, i32)>
    decreases s.len(),
{
    if s.len() == 0 {
        Seq::empty()
    } else {
        entries_add::<T>(count_entries::<T>(s.drop_last()), s.last(), 1)
    }
}

/// The number of occurrences of `x` in `s`.
pub open spec fn occurrences<A>(s: Seq<A>, x: A) -> nat
    decreases s.len(),
{
    if s.len() == 0 {
        0
    } else {
        occurrences(s.drop_last(), x) + if s.last() == x { 1nat } else { 0nat }
    }
}

/// The sum of the absolute values of the counts.
pub open spec fn entries_norm<K>(es: Seq<(K, i32)>) -> int
    decreases es.len(),
{
    if es.len() == 0 {
        0
    } else {
        entries_norm(es.drop_last()) + if es.last().1 >= 0 { es.last().1 as int } else { -es.last().1 }
    }
}

/// Lexicographic order on entry lists: by key, then by count; a proper prefix comes first.
pub open spec fn entries_lt<T: Symbol>(a: Seq<(T::Model, i32)>, b: Seq<(T::Model, i32)>) -> bool
    decreases a.len(),
{
    if a.len() == 0 {
        b.len() > 0
    } else if b.len() == 0 {
        false
    } else if T::model_lt(a[0].0, b[0].0) {
        true
    } else if a[0].0 != b[0].0 {
        false
    } else if a[0].1 < b[0].1 {
        true
    } else if a[0].1 > b[0].1 {
        false
    } else {
        entries_lt::<T>(a.drop_first(), b.drop_first())
    }
}

proof fn lemma_entries_lt_irreflexive<T: Symbol>(a: Seq<(T::Model, i32)>)
    ensures
        !entries_lt::<T>(a, a),
    decreases a.len(),
{
    if a.len() > 0 {
        T::lemma_lt_irreflexive(a[0].0);
        lemma_entries_lt_irreflexive::<T>(a.drop_first());
    }
}

proof fn lemma_entries_lt_transitive<T: Symbol>(
    a: Seq<(T::Model, i32)>,
    b: Seq<(T::Model, i32)>,
    c: Seq<(T::Model, i32)>,
)
    requires
        entries_lt::<T>(a, b),
        entries_lt::<T>(b, c),
    ensures
        entries_lt::<T>(a, c),
    decreases a.len(),
{
    if a.len() > 0 {
        assert(b.len() > 0 && c.len() > 0);
        if T::model_lt(a[0].0, b[0].0) {
            if T::model_lt(b[0].0, c[0].0) {
                T::lemma_lt_transitive(a[0].0, b[0].0, c[0].0);
            }
        } else if T::model_lt(b[0].0, c[0].0) {
        } else {
            assert(a[0].0 == b[0].0 && b[0].0 == c[0].0);
            if a[0].1 == b[0].1 && b[0].1 == c[0].1 {
                lemma_entries_lt_transitive::<T>(a.drop_first(), b.drop_first(), c.drop_first());
            }
        }
    }
}

proof fn lemma_entries_lt_total<T: Symbol>(a: Seq<(T::Model, i32)>, b: Seq<(T::Model, i32)>)
    ensures
        entries_lt::<T>(a, b) || entries_lt::<T>(b, a) || a == b,
    decreases a.len(),
{
    if a.len() == 0 {
        if b.len() == 0 {
            assert(a =~= b);
        }
    } else if b.len() > 0 {
        T::lemma_lt_total(a[0].0, b[0].0);
        if a[0].0 == b[0].0 && a[0].1 == b[0].1 {
            lemma_entries_lt_total::<T>(a.drop_first(), b.drop_first());
            if a.drop_first() == b.drop_first() {
                assert(a =~= seq![a[0]] + a.drop_first());
                assert(b =~= seq![b[0]] + b.drop_first());
            }
        }
    }
}


/// Looking a key up skips a prefix that does not hold it.
proof fn lemma_entries_get_skip<T: Symbol>(es: Seq<(T::Model, i32)>, k: T::Model, p: int)
    requires
        0 <= p <= es.len(),
        forall|i: int| 0 <= i < p ==> #[trigger] es[i].0 != k,
    ensures
        entries_get::<T>(es, k) == entries_get::<T>(es.skip(p), k),
    decreases p,
{
    if p > 0 {
        lemma_entries_get_skip::<T>(es.drop_first(), k, p - 1);
        assert(es.drop_first().skip(p - 1) =~= es.skip(p));
    } else {
        assert(es.skip(0) =~= es);
    }
}

/// In a sorted list, the key at index `p` maps to the count at index `p`.
proof fn lemma_entries_get_at<T: Symbol>(es: Seq<(T::Model, i32)>, p: int)
    requires
        sorted_keys::<T>(es),
        0 <= p < es.len(),
    ensures
        entries_get::<T>(es, es[p].0) == Some(es[p].1),
{
    assert forall|i: int| 0 <= i < p implies #[trigger] es[i].0 != es[p].0 by {
        T::lemma_lt_irreflexive(es[p].0);
    }
    lemma_entries_get_skip::<T>(es, es[p].0, p);
}

/// The keys of `entries_add(es, k, v)` are `k` and keys of `es`.
proof fn lemma_entries_add_keys<T: Symbol>(es: Seq<(T::Model, i32)>, k: T::Model, v: i32)
    ensures
        forall|i: int| 0 <= i < entries_add::<T>(es, k, v).len() ==>
            (#[trigger] entries_add::<T>(es, k, v)[i]).0 == k
            || exists|j: int| 0 <= j < es.len() && es[j].0 == entries_add::<T>(es, k, v)[i].0,
    decreases es.len(),
{
    let r = entries_add::<T>(es, k, v);
    if es.len() == 0 {
    } else if T::model_lt(k, es[0].0) {
        assert forall|i: int| 0 <= i < r.len() implies (#[trigger] r[i]).0 == k
            || exists|j: int| 0 <= j < es.len() && es[j].0 == r[i].0 by {
            if i > 0 {
                assert(es[i - 1].0 == r[i].0);
            }
        }
    } else if k == es[0].0 {
        assert forall|i: int| 0 <= i < r.len() implies (#[trigger] r[i]).0 == k
            || exists|j: int| 0 <= j < es.len() && es[j].0 == r[i].0 by {
            if es[0].1 + v == 0 {
                assert(es[i + 1].0 == r[i].0);
            } else if i > 0 {
                assert(es[i].0 == r[i].0);
            }
        }
    } else {
        let tail = es.drop_first();
        lemma_entries_add_keys::<T>(tail, k, v);
        assert forall|i: int| 0 <= i < r.len() implies (#[trigger] r[i]).0 == k
            || exists|j: int| 0 <= j < es.len() && es[j].0 == r[i].0 by {
            if i == 0 {
                assert(es[0].0 == r[0].0);
            } else {
                let t = entries_add::<T>(tail, k, v);
                assert(r[i] == t[i - 1]);
                if t[i - 1].0 != k {
                    let j = choose|j: int| 0 <= j < tail.len() && tail[j].0 == t[i - 1].0;
                    assert(es[j + 1].0 == r[i].0);
                }
            }
        }
    }
}

/// Adding to a sorted entry list keeps it sorted.
proof fn lemma_entries_add_sorted<T: Symbol>(es: Seq<(T::Model, i32)>, k: T::Model, v: i32)
    requires
        sorted_keys::<T>(es),
    ensures
        sorted_keys::<T>(entries_add::<T>(es, k, v)),
    decreases es.len(),
{
    let r = entries_add::<T>(es, k, v);
    if es.len() == 0 {
    } else if T::model_lt(k, es[0].0) {
        assert forall|i: int, j: int| 0 <= i < j < r.len() implies T::model_lt(#[trigger] r[i].0, #[trigger] r[j].0) by {
            if i == 0 {
                if j > 1 {
                    T::lemma_lt_transitive(k, es[0].0, es[j - 1].0);
                }
            }
        }
    } else if k == es[0].0 {
        assert forall|i: int, j: int| 0 <= i < j < r.len() implies T::model_lt(#[trigger] r[i].0, #[trigger] r[j].0) by {
            if es[0].1 + v == 0 {
                assert(r[i] == es[i + 1] && r[j] == es[j + 1]);
            } else {
                assert(r[j] == es[j]);
                assert(r[i].0 == es[i].0);
            }
        }
    } else {
        T::lemma_lt_total(k, es[0].0);
        let tail = es.drop_first();
        lemma_entries_add_sorted::<T>(tail, k, v);
        lemma_entries_add_keys::<T>(tail, k, v);
        let t = entries_add::<T>(tail, k, v);
        assert forall|i: int, j: int| 0 <= i < j < r.len() implies T::model_lt(#[trigger] r[i].0, #[trigger] r[j].0) by {
            assert(r[j] == t[j - 1]);
            if i == 0 {
                if t[j - 1].0 != k {
                    let jj = choose|jj: int| 0 <= jj < tail.len() && tail[jj].0 == t[j - 1].0;
                    assert(es[jj + 1].0 == t[j - 1].0);
                }
            } else {
                assert(r[i] == t[i - 1]);
            }
        }
    }
}

/// Adding after a prefix of smaller keys only touches the rest of the list.
proof fn lemma_entries_add_split<T: Symbol>(es: Seq<(T::Model, i32)>, k: T::Model, v: i32, p: int)
    requires
        0 <= p <= es.len(),
        forall|i: int| 0 <= i < p ==> T::model_lt(#[trigger] es[i].0, k),
    ensures
        entries_add::<T>(es, k, v) == es.subrange(0, p) + entries_add::<T>(es.skip(p), k, v),
    decreases p,
{
    if p == 0 {
        assert(es.skip(0) =~= es);
        assert(es.subrange(0, 0) + entries_add::<T>(es, k, v) =~= entries_add::<T>(es, k, v));
    } else {
        T::lemma_lt_irreflexive(k);
        if T::model_lt(k, es[0].0) {
            T::lemma_lt_transitive(k, es[0].0, k);
        }
        let tail = es.drop_first();
        lemma_entries_add_split::<T>(tail, k, v, p - 1);
        assert(tail.skip(p - 1) =~= es.skip(p));
        assert(es.subrange(0, p) =~= seq![es[0]] + tail.subrange(0, p - 1));
        assert(entries_add::<T>(es, k, v) =~= seq![es[0]] + entries_add::<T>(tail, k, v));
    }
}


/// What a lookup sees after adding `v` to key `k`.
pub proof fn lemma_entries_add_get<T: Symbol>(es: Seq<(T::Model, i32)>, k: T::Model, v: i32, j: T::Model)
    requires
        sorted_keys::<T>(es),
    ensures
        entries_get::<T>(entries_add::<T>(es, k, v), j) == if j == k {
            match entries_get::<T>(es, k) {
                Some(c) => if c + v == 0 { None } else { Some((c + v) as i32) },
                None => Some(v),
            }
        } else {
            entries_get::<T>(es, j)
        },
    decreases es.len(),
{
    let r = entries_add::<T>(es, k, v);
    if es.len() == 0 {
        assert(r == seq![(k, v)]);
        assert(r.drop_first() =~= Seq::<(T::Model, i32)>::empty());
        assert(entries_get::<T>(es, j) == None::<i32>);
    } else if T::model_lt(k, es[0].0) {
        assert(r == seq![(k, v)] + es);
        assert(r.drop_first() =~= es);
        if j == k {
            assert forall|i: int| 0 <= i < es.len() implies #[trigger] es[i].0 != k by {
                T::lemma_lt_irreflexive(k);
                if i > 0 {
                    if es[i].0 == k {
                        T::lemma_lt_transitive(k, es[0].0, es[i].0);
                    }
                }
            }
            lemma_entries_get_skip::<T>(es, k, es.len() as int);
            assert(es.skip(es.len() as int) =~= Seq::<(T::Model, i32)>::empty());
            assert(entries_get::<T>(es, k) == None::<i32>);
        } else {
            assert(entries_get::<T>(r, j) == entries_get::<T>(r.drop_first(), j));
        }
    } else if k == es[0].0 {
        let tail = es.drop_first();
        assert(entries_get::<T>(es, k) == Some(es[0].1));
        if j == k {
            assert forall|i: int| 0 <= i < tail.len() implies #[trigger] tail[i].0 != k by {
                T::lemma_lt_irreflexive(k);
                assert(T::model_lt(es[0].0, es[i + 1].0));
            }
            lemma_entries_get_skip::<T>(tail, k, tail.len() as int);
            assert(tail.skip(tail.len() as int) =~= Seq::<(T::Model, i32)>::empty());
            assert(entries_get::<T>(tail, k) == None::<i32>);
        } else {
            assert(entries_get::<T>(es, j) == entries_get::<T>(tail, j));
        }
        if es[0].1 + v != 0 {
            assert(r == seq![(k, (es[0].1 + v) as i32)] + tail);
            assert(r.drop_first() =~= tail);
        } else {
            assert(r == tail);
        }
    } else {
        let tail = es.drop_first();
        let t = entries_add::<T>(tail, k, v);
        lemma_entries_add_get::<T>(tail, k, v, j);
        assert(r == seq![es[0]] + t);
        assert(r.drop_first() =~= t);
        assert(r[0] == es[0]);
        if j == es[0].0 {
            assert(entries_get::<T>(r, j) == Some(es[0].1));
        } else {
            assert(entries_get::<T>(r, j) == entries_get::<T>(t, j));
            assert(entries_get::<T>(es, j) == entries_get::<T>(tail, j));
        }
        if j == k {
            assert(entries_get::<T>(es, k) == entries_get::<T>(tail, k));
        }
    }
}

/// Counting the letters of a word gives a sorted list whose counts are the numbers of occurrences.
pub proof fn lemma_count_entries<T: Symbol>(s: Seq<T::Model>)
    requires
        s.len() <= i32::MAX,
    ensures
        sorted_keys::<T>(count_entries::<T>(s)),
        forall|x: T::Model| #[trigger] entries_get::<T>(count_entries::<T>(s), x) == if occurrences(s, x) > 0 {
            Some(occurrences(s, x) as i32)
        } else {
            None::<i32>
        },
        forall|x: T::Model| occurrences(s, x) <= s.len(),
    decreases s.len(),
{
    if s.len() > 0 {
        let prev = s.drop_last();
        lemma_count_entries::<T>(prev);
        lemma_entries_add_sorted::<T>(count_entries::<T>(prev), s.last(), 1);
        assert forall|x: T::Model| #[trigger] entries_get::<T>(count_entries::<T>(s), x) == if occurrences(s, x) > 0 {
            Some(occurrences(s, x) as i32)
        } else {
            None::<i32>
        } by {
            lemma_entries_add_get::<T>(count_entries::<T>(prev), s.last(), 1, x);
        }
        assert forall|x: T::Model| occurrences(s, x) <= s.len() by {
            assert(occurrences(prev, x) <= prev.len());
        }
    }
}


/// The norm of a prefix is at most the norm of the whole list, and non-negative.
proof fn lemma_entries_norm_prefix<K>(es: Seq<(K, i32)>, i: int)
    requires
        0 <= i <= es.len(),
    ensures
        0 <= entries_norm(es.subrange(0, i)) <= entries_norm(es),
        i > 0 && es[i - 1].1 != 0 ==> entries_norm(es) > 0,
    decreases es.len() - i,
{
    lemma_entries_norm_nonneg(es.subrange(0, i));
    if i < es.len() {
        lemma_entries_norm_prefix(es, i + 1);
        let next = es.subrange(0, i + 1);
        assert(next.drop_last() =~= es.subrange(0, i));
        assert(next.last() == es[i]);
        assert(entries_norm(next) >= entries_norm(es.subrange(0, i)));
    } else {
        assert(es.subrange(0, i) =~= es);
    }
    if i > 0 && es[i - 1].1 != 0 {
        let cur = es.subrange(0, i);
        assert(cur.drop_last() =~= es.subrange(0, i - 1));
        assert(cur.last() == es[i - 1]);
        lemma_entries_norm_nonneg(es.subrange(0, i - 1));
        assert(entries_norm(cur) > 0);
    }
}

proof fn lemma_entries_norm_nonneg<K>(es: Seq<(K, i32)>)
    ensures
        entries_norm(es) >= 0,
    decreases es.len(),
{
    if es.len() > 0 {
        lemma_entries_norm_nonneg(es.drop_last());
    }
}

/// In the counts of a word, adding one more occurrence of any letter fits in an `i32`.
proof fn lemma_entries_get_count_bound<T: Symbol>(s: Seq<T::Model>, x: T::Model)
    requires
        s.len() < i32::MAX,
    ensures
        add_fits::<T>(count_entries::<T>(s), x, 1),
{
    lemma_count_entries::<T>(s);
}

/// While the entries of `w` are added in turn, the key of the next entry still has its original count.
proof fn lemma_entries_sum_get<T: Symbol>(a: Seq<(T::Model, i32)>, w: Seq<(T::Model, i32)>, i: int)
    requires
        sorted_keys::<T>(a),
        sorted_keys::<T>(w),
        0 <= i < w.len(),
    ensures
        entries_get::<T>(entries_sum::<T>(a, w.subrange(0, i)), w[i].0) == entries_get::<T>(a, w[i].0),
        sorted_keys::<T>(entries_sum::<T>(a, w.subrange(0, i))),
    decreases i,
{
    if i > 0 {
        let prev = w.subrange(0, i - 1);
        assert(w.subrange(0, i).drop_last() =~= prev);
        lemma_entries_sum_get::<T>(a, w, i - 1);
        lemma_entries_sum_sorted::<T>(a, prev);
        T::lemma_lt_irreflexive(w[i].0);
        lemma_entries_add_get::<T>(entries_sum::<T>(a, prev), w[i - 1].0, w[i - 1].1, w[i].0);
        lemma_entries_sum_get_other::<T>(a, w, i - 1, i);
    } else {
        assert(w.subrange(0, 0) =~= Seq::<(T::Model, i32)>::empty());
    }
    lemma_entries_sum_sorted::<T>(a, w.subrange(0, i));
}

proof fn lemma_entries_sum_sorted<T: Symbol>(a: Seq<(T::Model, i32)>, w: Seq<(T::Model, i32)>)
    requires
        sorted_keys::<T>(a),
    ensures
        sorted_keys::<T>(entries_sum::<T>(a, w)),
    decreases w.len(),
{
    if w.len() > 0 {
        lemma_entries_sum_sorted::<T>(a, w.drop_last());
        lemma_entries_add_sorted::<T>(entries_sum::<T>(a, w.drop_last()), w.last().0, w.last().1);
    }
}

/// Adding the first `i` entries of sorted `w` leaves the count of a later key `w[m]` as it was in `a`.
proof fn lemma_entries_sum_get_other<T: Symbol>(a: Seq<(T::Model, i32)>, w: Seq<(T::Model, i32)>, i: int, m: int)
    requires
        sorted_keys::<T>(a),
        sorted_keys::<T>(w),
        0 <= i < m < w.len(),
    ensures
        entries_get::<T>(entries_sum::<T>(a, w.subrange(0, i + 1)), w[m].0) == entries_get::<T>(a, w[m].0),
    decreases i,
{
    let prev = w.subrange(0, i);
    assert(w.subrange(0, i + 1).drop_last() =~= prev);
    lemma_entries_sum_sorted::<T>(a, prev);
    T::lemma_lt_irreflexive(w[m].0);
    lemma_entries_add_get::<T>(entries_sum::<T>(a, prev), w[i].0, w[i].1, w[m].0);
    if i > 0 {
        lemma_entries_sum_get_other::<T>(a, w, i - 1, m);
    } else {
        assert(prev =~= Seq::<(T::Model, i32)>::empty());
    }
}

/// Add `v` to the count of `key` in a sorted entry list.
fn add_entry<T: Symbol>(entries: &mut Vec<(T, i32)>, key: T, v: i32)
    requires
        sorted_keys::<T>(entry_models(old(entries)@)),
        add_fits::<T>(entry_models(old(entries)@), key.model(), v),
    ensures
        entry_models(final(entries)@) == entries_add::<T>(entry_models(old(entries)@), key.model(), v),
        sorted_keys::<T>(entry_models(final(entries)@)),
{
    let ghost ms = entry_models(entries@);
    let ghost k = key.model();
    let n = entries.len();
    let mut p: usize = 0;
    let mut scanning = true;
    while scanning && p < n
        invariant
            p <= n,
            n == entries@.len(),
            ms == entry_models(entries@),
            k == key.model(),
            forall|i: int| 0 <= i < p ==> T::model_lt(#[trigger] ms[i].0, k),
            !scanning ==> p < n && !T::model_lt(ms[p as int].0, k),
        decreases n - p + if scanning { 1int } else { 0int },
    {
        proof {
            lemma_entry_models_index(entries@, p as int);
        }
        match entries[p].0.compare(&key) {
            Trichotomy::Less => {
                p = p + 1;
            },
            _ => {
                scanning = false;
            },
        }
    }
    proof {
        lemma_entries_add_split::<T>(ms, k, v, p as int);
        lemma_entries_add_sorted::<T>(ms, k, v);
    }
    proof {
        if p < n {
            lemma_entry_models_index(entries@, p as int);
        }
    }
    if p < n && matches!(entries[p].0.compare(&key), Trichotomy::Equal) {
        proof {
            lemma_entries_get_at::<T>(ms, p as int);
        }
        let c = entries[p].1;
        let total = c + v;
        if total == 0 {
            entries.remove(p);
            assert(entry_models(entries@) =~= ms.subrange(0, p as int) + ms.skip(p as int).drop_first());
        } else {
            entries.set(p, (key, total));
            assert(entry_models(entries@) =~= ms.subrange(0, p as int) + (seq![(k, total)] + ms.skip(p as int).drop_first()));
        }
    } else {
        entries.insert(p, (key, v));
        proof {
            if p < n {
                T::lemma_lt_total(k, ms[p as int].0);
            }
        }
        assert(entry_models(entries@) =~= ms.subrange(0, p as int) + entries_add::<T>(ms.skip(p as int), k, v));
    }
}

/// The entry list with the entry of key `k` (if any) taken out.
pub open spec fn entries_remove<T: Symbol>(es: Seq<(T::Model, i32)>, k: T::Model) -> Seq<(T::Model, i32)>
    decreases es.len(),
{
    if es.len() == 0 {
        es
    } else if es[0].0 == k {
        es.drop_first()
    } else {
        seq![es[0]] + entries_remove::<T>(es.drop_first(), k)
    }
}

/// The count of key `k` set to `v`: an old count replaced, a new key put in order.
pub open spec fn entries_set<T: Symbol>(es: Seq<(T::Model, i32)>, k: T::Model, v: i32) -> Seq<(T::Model, i32)> {
    entries_add::<T>(entries_remove::<T>(es, k), k, v)
}

/// The counts of the pairs set in turn: a later pair with the same key wins.
pub open spec fn entries_set_all<T: Symbol>(ps: Seq<(T::Model, i32)>) -> Seq<(T::Model, i32)>
    decreases ps.len(),
{
    if ps.len() == 0 {
        Seq::empty()
    } else {
        entries_set::<T>(entries_set_all::<T>(ps.drop_last()), ps.last().0, ps.last().1)
    }
}

proof fn lemma_entries_remove<T: Symbol>(es: Seq<(T::Model, i32)>, k: T::Model)
    requires
        sorted_keys::<T>(es),
    ensures
        sorted_keys::<T>(entries_remove::<T>(es, k)),
        forall|x: T::Model| #[trigger] entries_get::<T>(entries_remove::<T>(es, k), x) == if x == k {
            None
        } else {
            entries_get::<T>(es, x)
        },
        forall|i: int| 0 <= i < entries_remove::<T>(es, k).len() ==> es.contains(#[trigger] entries_remove::<T>(es, k)[i]),
    decreases es.len(),
{
    let r = entries_remove::<T>(es, k);
    if es.len() > 0 {
        let t = es.drop_first();
        assert(sorted_keys::<T>(t)) by {
            assert forall|i: int, j: int| 0 <= i < j < t.len() implies T::model_lt(#[trigger] t[i].0, #[trigger] t[j].0) by {
                assert(t[i] == es[i + 1] && t[j] == es[j + 1]);
            }
        }
        lemma_entries_remove::<T>(t, k);
        if es[0].0 == k {
            assert forall|x: T::Model| #[trigger] entries_get::<T>(r, x) == if x == k { None } else { entries_get::<T>(es, x) } by {
                if x == k {
                    assert forall|i: int| 0 <= i < t.len() implies #[trigger] t[i].0 != k by {
                        assert(T::model_lt(es[0].0, es[i + 1].0));
                        T::lemma_lt_irreflexive(k);
                    }
                    lemma_entries_get_skip::<T>(t, k, t.len() as int);
                    assert(t.skip(t.len() as int) =~= Seq::<(T::Model, i32)>::empty());
                }
            }
            assert forall|i: int| 0 <= i < r.len() implies es.contains(#[trigger] r[i]) by {
                assert(es[i + 1] == r[i]);
            }
        } else {
            let rt = entries_remove::<T>(t, k);
            assert(r == seq![es[0]] + rt);
            assert(r[0] == es[0]);
            assert(r.drop_first() =~= rt);
            assert forall|x: T::Model| #[trigger] entries_get::<T>(r, x) == if x == k { None } else { entries_get::<T>(es, x) } by {
                assert(entries_get::<T>(r, x) == if r[0].0 == x { Some(r[0].1) } else { entries_get::<T>(r.drop_first(), x) });
                assert(entries_get::<T>(es, x) == if es[0].0 == x { Some(es[0].1) } else { entries_get::<T>(t, x) });
            }
            assert forall|i: int| 0 <= i < r.len() implies es.contains(#[trigger] r[i]) by {
                if i == 0 {
                    assert(es[0] == r[i]);
                } else {
                    assert(r[i] == rt[i - 1]);
                    assert(t.contains(rt[i - 1]));
                    let m = choose|m: int| 0 <= m < t.len() && t[m] == rt[i - 1];
                    assert(es[m + 1] == r[i]);
                }
            }
            assert forall|i: int, j: int| 0 <= i < j < r.len() implies T::model_lt(#[trigger] r[i].0, #[trigger] r[j].0) by {
                if i == 0 {
                    assert(r[j] == rt[j - 1]);
                    assert(t.contains(rt[j - 1]));
                    let m = choose|m: int| 0 <= m < t.len() && t[m] == rt[j - 1];
                    assert(es[m + 1] == r[j]);
                } else {
                    assert(r[i] == rt[i - 1] && r[j] == rt[j - 1]);
                }
            }
        }
    }
}

/// Setting the count of key `k` to `v` changes only the count of `k`.
pub proof fn lemma_entries_set_get<T: Symbol>(es: Seq<(T::Model, i32)>, k: T::Model, v: i32, x: T::Model)
    requires
        sorted_keys::<T>(es),
    ensures
        sorted_keys::<T>(entries_set::<T>(es, k, v)),
        entries_get::<T>(entries_set::<T>(es, k, v), x) == if x == k { Some(v) } else { entries_get::<T>(es, x) },
{
    lemma_entries_remove::<T>(es, k);
    let rm = entries_remove::<T>(es, k);
    assert(entries_get::<T>(rm, k) == None::<i32>);
    lemma_entries_add_get::<T>(rm, k, v, x);
    lemma_entries_add_sorted::<T>(rm, k, v);
}

proof fn lemma_entries_set_all_sorted<T: Symbol>(ps: Seq<(T::Model, i32)>)
    ensures
        sorted_keys::<T>(entries_set_all::<T>(ps)),
    decreases ps.len(),
{
    if ps.len() > 0 {
        lemma_entries_set_all_sorted::<T>(ps.drop_last());
        lemma_entries_set_get::<T>(entries_set_all::<T>(ps.drop_last()), ps.last().0, ps.last().1, ps.last().0);
    }
}

/// The count that the pairs set for key `x`: that of the last pair with key `x`, if any.
pub open spec fn last_count<K>(ps: Seq<(K, i32)>, x: K) -> Option<i32>
    decreases ps.len(),
{
    if ps.len() == 0 {
        None
    } else if ps.last().0 == x {
        Some(ps.last().1)
    } else {
        last_count(ps.drop_last(), x)
    }
}

/// Setting the pairs in turn leaves each key with the count of its last pair.
pub proof fn lemma_entries_set_all_get<T: Symbol>(ps: Seq<(T::Model, i32)>, x: T::Model)
    ensures
        entries_get::<T>(entries_set_all::<T>(ps), x) == last_count(ps, x),
    decreases ps.len(),
{
    if ps.len() > 0 {
        lemma_entries_set_all_get::<T>(ps.drop_last(), x);
        lemma_entries_set_all_sorted::<T>(ps.drop_last());
        lemma_entries_set_get::<T>(entries_set_all::<T>(ps.drop_last()), ps.last().0, ps.last().1, x);
    }
}

proof fn lemma_last_count_some<T: Symbol>(pairs: Seq<(T, i32)>, x: T::Model, j0: int)
    requires
        0 <= j0 < pairs.len(),
        pairs[j0].0.model() == x,
    ensures
        exists|j: int| 0 <= j < pairs.len() && pairs[j].0.model() == x && last_count(entry_models(pairs), x) == Some(pairs[j].1),
    decreases pairs.len(),
{
    let ps = entry_models(pairs);
    let n = pairs.len() as int;
    lemma_entry_models_index(pairs, n - 1);
    assert(ps.last() == (pairs[n - 1].0.model(), pairs[n - 1].1));
    if pairs[n - 1].0.model() == x {
        assert(last_count(ps, x) == Some(pairs[n - 1].1));
    } else {
        let t = pairs.drop_last();
        assert(entry_models(t) =~= ps.drop_last());
        assert(j0 < n - 1);
        assert(t[j0] == pairs[j0]);
        lemma_last_count_some::<T>(t, x, j0);
        let j = choose|j: int| 0 <= j < t.len() && t[j].0.model() == x && last_count(entry_models(t), x) == Some(t[j].1);
        assert(pairs[j] == t[j]);
    }
}

proof fn lemma_entries_add_from<T: Symbol>(es: Seq<(T::Model, i32)>, k: T::Model, v: i32, i: int)
    requires
        entries_get::<T>(es, k) == None::<i32>,
        0 <= i < entries_add::<T>(es, k, v).len(),
    ensures
        entries_add::<T>(es, k, v)[i] == (k, v) || es.contains(entries_add::<T>(es, k, v)[i]),
    decreases es.len(),
{
    let r = entries_add::<T>(es, k, v);
    if es.len() == 0 {
    } else if T::model_lt(k, es[0].0) {
        if i > 0 {
            assert(r[i] == es[i - 1]);
        }
    } else if k == es[0].0 {
        assert(false);
    } else {
        if i == 0 {
            assert(r[0] == es[0]);
        } else {
            let t = es.drop_first();
            assert(r[i] == entries_add::<T>(t, k, v)[i - 1]);
            lemma_entries_add_from::<T>(t, k, v, i - 1);
            if t.contains(r[i]) {
                let m = choose|m: int| 0 <= m < t.len() && t[m] == r[i];
                assert(es[m + 1] == r[i]);
            }
        }
    }
}

proof fn lemma_entries_set_all_from<T: Symbol>(ps: Seq<(T::Model, i32)>, i: int)
    requires
        0 <= i < entries_set_all::<T>(ps).len(),
    ensures
        exists|j: int| 0 <= j < ps.len() && entries_set_all::<T>(ps)[i] == ps[j],
    decreases ps.len(),
{
    let prev = ps.drop_last();
    let es = entries_set_all::<T>(prev);
    let k = ps.last().0;
    let v = ps.last().1;
    lemma_entries_set_all_sorted::<T>(prev);
    lemma_entries_remove::<T>(es, k);
    let rm = entries_remove::<T>(es, k);
    let r = entries_set_all::<T>(ps);
    assert(r == entries_add::<T>(rm, k, v));
    lemma_entries_add_from::<T>(rm, k, v, i);
    if r[i] == (k, v) {
        assert(r[i] == ps[ps.len() - 1]);
    } else {
        let m = choose|m: int| 0 <= m < rm.len() && rm[m] == r[i];
        assert(es.contains(rm[m]));
        let q = choose|q: int| 0 <= q < es.len() && es[q] == rm[m];
        lemma_entries_set_all_from::<T>(prev, q);
        let j = choose|j: int| 0 <= j < prev.len() && es[q] == prev[j];
        assert(ps[j] == prev[j]);
    }
}

/// The entry is the model of a key of the map with its count.
pub open spec fn entry_from_map<T: Symbol>(e: (T::Model, i32), m: Map<T, i32>) -> bool {
    exists|k: T| #[trigger] m.contains_key(k) && e == (k.model(), m[k])
}

/// The entry is the model of an element of the set with count 1.
pub open spec fn entry_from_set<T: Symbol>(e: (T::Model, i32), s: Set<T>) -> bool {
    exists|k: T| #[trigger] s.contains(k) && e == (k.model(), 1i32)
}

/// Take the entry of `key` out of a sorted entry list.
fn remove_entry<T: Symbol>(entries: &mut Vec<(T, i32)>, key: &T)
    requires
        sorted_keys::<T>(entry_models(old(entries)@)),
    ensures
        entry_models(final(entries)@) == entries_remove::<T>(entry_models(old(entries)@), key.model()),
        sorted_keys::<T>(entry_models(final(entries)@)),
{
    let ghost ms = entry_models(entries@);
    let ghost k = key.model();
    proof {
        lemma_entries_remove::<T>(ms, k);
    }
    let n = entries.len();
    let mut p: usize = 0;
    while p < n
        invariant
            p <= n,
            n == entries@.len(),
            ms == entry_models(entries@),
            ms == entry_models(old(entries)@),
            sorted_keys::<T>(ms),
            sorted_keys::<T>(entries_remove::<T>(ms, k)),
            k == key.model(),
            forall|i: int| 0 <= i < p ==> #[trigger] ms[i].0 != k,
        decreases n - p,
    {
        proof {
            lemma_entry_models_index(entries@, p as int);
        }
        if symbol_eq(&entries[p].0, key) {
            proof {
                lemma_entries_remove_at::<T>(ms, k, p as int);
            }
            entries.remove(p);
            assert(entry_models(entries@) =~= ms.subrange(0, p as int) + ms.skip(p + 1));
            return;
        }
        p = p + 1;
    }
    proof {
        lemma_entries_remove_absent::<T>(ms, k);
    }
}

proof fn lemma_entries_remove_at<T: Symbol>(es: Seq<(T::Model, i32)>, k: T::Model, p: int)
    requires
        0 <= p < es.len(),
        es[p].0 == k,
        forall|i: int| 0 <= i < p ==> #[trigger] es[i].0 != k,
    ensures
        entries_remove::<T>(es, k) == es.subrange(0, p) + es.skip(p + 1),
    decreases p,
{
    if p == 0 {
        assert(es.skip(1) =~= es.drop_first());
        assert(es.subrange(0, 0) + es.skip(1) =~= es.skip(1));
    } else {
        lemma_entries_remove_at::<T>(es.drop_first(), k, p - 1);
        assert(es.drop_first().subrange(0, p - 1) + es.drop_first().skip(p) =~= es.subrange(1, p) + es.skip(p + 1));
        assert(seq![es[0]] + (es.subrange(1, p) + es.skip(p + 1)) =~= es.subrange(0, p) + es.skip(p + 1));
    }
}

proof fn lemma_entries_remove_absent<T: Symbol>(es: Seq<(T::Model, i32)>, k: T::Model)
    requires
        forall|i: int| 0 <= i < es.len() ==> #[trigger] es[i].0 != k,
    ensures
        entries_remove::<T>(es, k) == es,
    decreases es.len(),
{
    if es.len() > 0 {
        assert forall|i: int| 0 <= i < es.drop_first().len() implies #[trigger] es.drop_first()[i].0 != k by {
            assert(es.drop_first()[i] == es[i + 1]);
        }
        lemma_entries_remove_absent::<T>(es.drop_first(), k);
        assert(seq![es[0]] + es.drop_first() =~= es);
    }
}

/// Calls `BTreeSet::into_iter` and collects: the elements of the set, each once, in ascending
/// order. The contract claims, for a type whose `Ord` is lawful, that the list holds exactly the
/// elements of the set, without repeats; the order is left unsaid.
#[verifier::external_body]
fn set_elements<T: Ord>(set: BTreeSet<T>) -> (r: Vec<T>)
    ensures
        lawful_order::<T>() ==> r@.to_set() == set@ && r@.no_duplicates(),
{
    set.into_iter().collect()
}

/// Calls `BTreeMap::into_iter` and collects: the entries of the map, each once, in ascending
/// order of keys. The contract claims, for a type whose `Ord` is lawful, that the list holds
/// exactly the key-count pairs of the map, without repeats; the order is left unsaid.
#[verifier::external_body]
fn map_entries<T: Ord>(m: BTreeMap<T, i32>) -> (r: Vec<(T, i32)>)
    ensures
        lawful_order::<T>() ==> r@.to_set() == m@.kv_pairs() && r@.no_duplicates(),
{
    m.into_iter().collect()
}

/// A multiset of symbols with signed multiplicities, kept as entries sorted by key.
///
/// Used for step signatures (e.g. "5L 2s") and for the step content of intervals.
#[derive(Debug, Hash, PartialEq, Eq, PartialOrd, Ord)]
pub struct CountVector<T: Symbol> {
    entries: Vec<(T, i32)>,
}

impl<T: Symbol> View for CountVector<T> {
    type V = Seq<(T::Model, i32)>;

    closed spec fn view(&self) -> Seq<(T::Model, i32)> {
        entry_models(self.entries@)
    }
}

/// A copy of an entry list.
fn copy_entries<T: Symbol>(es: &Vec<(T, i32)>) -> (r: Vec<(T, i32)>)
    ensures
        entry_models(r@) == entry_models(es@),
{
    let mut r: Vec<(T, i32)> = Vec::new();
    let mut i: usize = 0;
    while i < es.len()
        invariant
            i <= es@.len(),
            entry_models(r@) == entry_models(es@.subrange(0, i as int)),
        decreases es@.len() - i,
    {
        let e = (es[i].0.duplicate(), es[i].1);
        proof {
            lemma_entry_models_push(r@, e);
            assert(es@.subrange(0, i + 1) =~= es@.subrange(0, i as int).push(es@[i as int]));
            lemma_entry_models_push(es@.subrange(0, i as int), es@[i as int]);
        }
        r.push(e);
        i = i + 1;
    }
    assert(es@.subrange(0, es@.len() as int) =~= es@);
    r
}

impl<T: Symbol> Clone for CountVector<T> {
    fn clone(&self) -> (r: Self)
        ensures
            r@ == self@,
    {
        proof {
            use_type_invariant(self);
        }
        CountVector { entries: copy_entries(&self.entries) }
    }
}

impl<T: Symbol> CountVector<T> {
    #[verifier::type_invariant]
    closed spec fn inv(self) -> bool {
        sorted_keys::<T>(entry_models(self.entries@))
    }

    /// The count vector with no entries.
    pub fn zero() -> (r: Self)
        ensures
            r@ == Seq::<(T::Model, i32)>::empty(),
    {
        let r = CountVector { entries: Vec::new() };
        assert(r@ =~= Seq::<(T::Model, i32)>::empty());
        r
    }

    /// Whether the `CountVector` is empty, i.e. the sum of the absolute values of its counts is 0.
    pub fn is_empty(&self) -> (r: bool)
        ensures
            r == (entries_norm(self@) == 0),
    {
        let n = self.entries.len();
        let mut i: usize = 0;
        while i < n
            invariant
                i <= n,
                n == self.entries@.len(),
                entries_norm(self@.subrange(0, i as int)) == 0,
            decreases n - i,
        {
            proof {
                lemma_entry_models_index(self.entries@, i as int);
                assert(self@.subrange(0, i + 1).drop_last() =~= self@.subrange(0, i as int));
            }
            if self.entries[i].1 != 0 {
                proof {
                    lemma_entries_norm_prefix(self@, i + 1);
                }
                return false;
            }
            i = i + 1;
        }
        assert(self@.subrange(0, n as int) =~= self@);
        true
    }

    /// The sum of the absolute values of the counts.
    pub fn len(&self) -> (r: usize)
        requires
            entries_norm(self@) <= usize::MAX,
        ensures
            r == entries_norm(self@),
    {
        let n = self.entries.len();
        let mut acc: usize = 0;
        let mut i: usize = 0;
        while i < n
            invariant
                i <= n,
                n == self.entries@.len(),
                acc == entries_norm(self@.subrange(0, i as int)),
                entries_norm(self@) <= usize::MAX,
            decreases n - i,
        {
            proof {
                lemma_entry_models_index(self.entries@, i as int);
                assert(self@.subrange(0, i + 1).drop_last() =~= self@.subrange(0, i as int));
                lemma_entries_norm_prefix(self@, i + 1);
            }
            let v = self.entries[i].1;
            let a: usize = if v >= 0 {
                v as usize
            } else {
                (-(v as i64)) as usize
            };
            acc = acc + a;
            i = i + 1;
        }
        assert(self@.subrange(0, n as int) =~= self@);
        acc
    }

    /// The number of keys.
    pub fn keys_count(&self) -> (r: usize)
        ensures
            r == self@.len(),
    {
        self.entries.len()
    }

    /// The count stored for `arg`, if any.
    pub fn get(&self, arg: &T) -> (r: Option<&i32>)
        ensures
            match r {
                Some(c) => entries_get::<T>(self@, arg.model()) == Some(*c),
                None => entries_get::<T>(self@, arg.model()) == None::<i32>,
            },
    {
        let n = self.entries.len();
        let mut i: usize = 0;
        while i < n
            invariant
                i <= n,
                n == self.entries@.len(),
                forall|j: int| 0 <= j < i ==> #[trigger] self@[j].0 != arg.model(),
            decreases n - i,
        {
            proof {
                lemma_entry_models_index(self.entries@, i as int);
            }
            if symbol_eq(&self.entries[i].0, arg) {
                proof {
                    lemma_entries_get_skip::<T>(self@, arg.model(), i as int);
                }
                return Some(&self.entries[i].1);
            }
            i = i + 1;
        }
        proof {
            lemma_entries_get_skip::<T>(self@, arg.model(), n as int);
            assert(self@.skip(n as int) =~= Seq::<(T::Model, i32)>::empty());
        }
        None
    }

    /// Convert a slice to a `CountVector`, counting the occurrences of each element.
    pub fn from_slice(slice: &[T]) -> (r: Self)
        requires
            slice@.len() <= i32::MAX,
        ensures
            r@ == count_entries::<T>(models(slice@)),
    {
        let mut entries: Vec<(T, i32)> = Vec::new();
        let n = slice.len();
        let mut i: usize = 0;
        assert(entry_models(entries@) =~= count_entries::<T>(models(slice@.subrange(0, 0))));
        while i < n
            invariant
                i <= n,
                n == slice@.len(),
                n <= i32::MAX,
                entry_models(entries@) == count_entries::<T>(models(slice@.subrange(0, i as int))),
            decreases n - i,
        {
            let ghost prefix = models(slice@.subrange(0, i as int));
            let key = slice[i].duplicate();
            proof {
                lemma_count_entries::<T>(prefix);
                lemma_entries_get_count_bound::<T>(prefix, key.model());
                assert(models(slice@.subrange(0, i + 1)) =~= prefix.push(key.model()));
                assert(prefix.push(key.model()).drop_last() =~= prefix);
            }
            add_entry(&mut entries, key, 1);
            i = i + 1;
        }
        assert(slice@.subrange(0, n as int) =~= slice@);
        proof {
            lemma_count_entries::<T>(models(slice@));
        }
        CountVector { entries }
    }

    /// The sum of two count vectors: every count of `w` is added to the count of its key.
    /// A count that becomes 0 is dropped.
    pub fn add(&self, w: &Self) -> (r: Self)
        requires
            forall|i: int| 0 <= i < w@.len() ==> add_fits::<T>(self@, #[trigger] w@[i].0, w@[i].1),
        ensures
            r@ == entries_sum::<T>(self@, w@),
    {
        proof {
            use_type_invariant(self);
            use_type_invariant(w);
        }
        let mut entries = copy_entries(&self.entries);
        let n = w.entries.len();
        let mut i: usize = 0;
        assert(w@.subrange(0, 0) =~= Seq::<(T::Model, i32)>::empty());
        while i < n
            invariant
                i <= n,
                n == w@.len(),
                sorted_keys::<T>(w@),
                sorted_keys::<T>(self@),
                forall|j: int| 0 <= j < w@.len() ==> add_fits::<T>(self@, #[trigger] w@[j].0, w@[j].1),
                entry_models(entries@) == entries_sum::<T>(self@, w@.subrange(0, i as int)),
                sorted_keys::<T>(entry_models(entries@)),
            decreases n - i,
        {
            proof {
                lemma_entry_models_index(w.entries@, i as int);
                lemma_entries_sum_get::<T>(self@, w@, i as int);
                assert(w@.subrange(0, i + 1).drop_last() =~= w@.subrange(0, i as int));
            }
            let key = w.entries[i].0.duplicate();
            add_entry(&mut entries, key, w.entries[i].1);
            i = i + 1;
        }
        assert(w@.subrange(0, n as int) =~= w@);
        CountVector { entries }
    }
}


impl<T: Symbol> CountVector<T> {
    /// Additive inverse: every count negated.
    pub fn neg(&self) -> (r: Self)
        requires
            forall|i: int| 0 <= i < self@.len() ==> #[trigger] self@[i].1 != i32::MIN,
        ensures
            r@ == entries_neg::<T>(self@),
            forall|k: T::Model| #[trigger] entries_get::<T>(r@, k) == match entries_get::<T>(self@, k) {
                Some(v) => Some((-v) as i32),
                None => None,
            },
    {
        let r = self.scale_by(-1);
        proof {
            assert(r@ =~= entries_neg::<T>(self@));
            assert forall|k: T::Model| #[trigger] entries_get::<T>(r@, k) == match entries_get::<T>(self@, k) {
                Some(v) => Some((-v) as i32),
                None => None,
            } by {
                lemma_entries_neg_get::<T>(self@, k);
            }
        }
        r
    }

    /// Multiply every count by `lambda`; multiplying by 0 gives the zero vector.
    pub fn scalar_mul(&self, lambda: i32) -> (r: Self)
        requires
            forall|i: int| 0 <= i < self@.len() ==> i32::MIN <= #[trigger] self@[i].1 * lambda <= i32::MAX,
        ensures
            lambda == 0 ==> r@ == Seq::<(T::Model, i32)>::empty(),
            lambda != 0 ==> r@ == self@.map_values(|e: (T::Model, i32)| (e.0, (e.1 * lambda) as i32)),
    {
        if lambda == 0 {
            Self::zero()
        } else {
            self.scale_by(lambda)
        }
    }

    fn scale_by(&self, lambda: i32) -> (r: Self)
        requires
            forall|i: int| 0 <= i < self@.len() ==> i32::MIN <= #[trigger] self@[i].1 * lambda <= i32::MAX,
        ensures
            r@ == self@.map_values(|e: (T::Model, i32)| (e.0, (e.1 * lambda) as i32)),
    {
        proof {
            use_type_invariant(self);
        }
        let ghost target = self@.map_values(|e: (T::Model, i32)| (e.0, (e.1 * lambda) as i32));
        let n = self.entries.len();
        let mut entries: Vec<(T, i32)> = Vec::new();
        let mut i: usize = 0;
        while i < n
            invariant
                i <= n,
                n == self@.len(),
                target == self@.map_values(|e: (T::Model, i32)| (e.0, (e.1 * lambda) as i32)),
                forall|j: int| 0 <= j < self@.len() ==> i32::MIN <= #[trigger] self@[j].1 * lambda <= i32::MAX,
                entry_models(entries@) == target.subrange(0, i as int),
            decreases n - i,
        {
            proof {
                lemma_entry_models_index(self.entries@, i as int);
                assert(i32::MIN <= self@[i as int].1 * lambda <= i32::MAX);
            }
            let e = (self.entries[i].0.duplicate(), self.entries[i].1 * lambda);
            proof {
                lemma_entry_models_push(entries@, e);
            }
            entries.push(e);
            assert(entry_models(entries@) =~= target.subrange(0, i + 1));
            i = i + 1;
        }
        assert(target.subrange(0, n as int) =~= target);
        assert(sorted_keys::<T>(target)) by {
            assert forall|a: int, b: int| 0 <= a < b < target.len() implies T::model_lt(#[trigger] target[a].0, #[trigger] target[b].0) by {
                assert(target[a].0 == self@[a].0 && target[b].0 == self@[b].0);
            }
        }
        CountVector { entries }
    }
}

impl<T: Symbol> Symbol for CountVector<T> {
    type Model = Seq<(T::Model, i32)>;

    open spec fn model(&self) -> Seq<(T::Model, i32)> {
        self@
    }

    open spec fn model_lt(a: Seq<(T::Model, i32)>, b: Seq<(T::Model, i32)>) -> bool {
        entries_lt::<T>(a, b)
    }

    proof fn lemma_lt_irreflexive(a: Seq<(T::Model, i32)>) {
        lemma_entries_lt_irreflexive::<T>(a);
    }

    proof fn lemma_lt_transitive(a: Seq<(T::Model, i32)>, b: Seq<(T::Model, i32)>, c: Seq<(T::Model, i32)>) {
        lemma_entries_lt_transitive::<T>(a, b, c);
    }

    proof fn lemma_lt_total(a: Seq<(T::Model, i32)>, b: Seq<(T::Model, i32)>) {
        lemma_entries_lt_total::<T>(a, b);
    }

    fn duplicate(&self) -> (r: Self) {
        self.clone()
    }

    fn compare(&self, other: &Self) -> (r: Trichotomy) {
        let n = self.entries.len();
        let m = other.entries.len();
        let mut i: usize = 0;
        assert(self@.skip(0) =~= self@);
        assert(other@.skip(0) =~= other@);
        while i < n && i < m
            invariant
                i <= n,
                i <= m,
                n == self@.len(),
                m == other@.len(),
                self@.subrange(0, i as int) == other@.subrange(0, i as int),
                entries_lt::<T>(self@, other@) == entries_lt::<T>(self@.skip(i as int), other@.skip(i as int)),
                entries_lt::<T>(other@, self@) == entries_lt::<T>(other@.skip(i as int), self@.skip(i as int)),
            decreases n - i,
        {
            proof {
                lemma_entry_models_index(self.entries@, i as int);
                lemma_entry_models_index(other.entries@, i as int);
                assert(self@.skip(i as int).drop_first() =~= self@.skip(i + 1));
                assert(other@.skip(i as int).drop_first() =~= other@.skip(i + 1));
                assert(self@.skip(i as int)[0] == self@[i as int]);
                assert(other@.skip(i as int)[0] == other@[i as int]);
                T::lemma_lt_irreflexive(self@[i as int].0);
            }
            match self.entries[i].0.compare(&other.entries[i].0) {
                Trichotomy::Less => {
                    proof {
                        lemma_entries_lt_irreflexive::<T>(self@);
                        lemma_entries_neq_at::<T>(self@, other@, i as int);
                        if T::model_lt(other@[i as int].0, self@[i as int].0) {
                            T::lemma_lt_transitive(self@[i as int].0, other@[i as int].0, self@[i as int].0);
                        }
                    }
                    return Trichotomy::Less;
                },
                Trichotomy::Greater => {
                    proof {
                        lemma_entries_neq_at::<T>(self@, other@, i as int);
                        if T::model_lt(self@[i as int].0, other@[i as int].0) {
                            T::lemma_lt_transitive(self@[i as int].0, other@[i as int].0, self@[i as int].0);
                        }
                    }
                    return Trichotomy::Greater;
                },
                Trichotomy::Equal => {
                    let a = self.entries[i].1;
                    let b = other.entries[i].1;
                    if a < b {
                        proof {
                            lemma_entries_neq_at::<T>(self@, other@, i as int);
                        }
                        return Trichotomy::Less;
                    } else if a > b {
                        proof {
                            lemma_entries_neq_at::<T>(self@, other@, i as int);
                        }
                        return Trichotomy::Greater;
                    }
                },
            }
            proof {
                assert(self@.subrange(0, i + 1) =~= self@.subrange(0, i as int).push(self@[i as int]));
                assert(other@.subrange(0, i + 1) =~= other@.subrange(0, i as int).push(other@[i as int]));
            }
            i = i + 1;
        }
        if n == m {
            assert(self@ =~= other@) by {
                assert(self@ =~= self@.subrange(0, n as int));
                assert(other@ =~= other@.subrange(0, m as int));
            }
            proof {
                lemma_entries_lt_irreflexive::<T>(self@);
            }
            Trichotomy::Equal
        } else if n < m {
            proof {
                lemma_entries_neq_len::<T>(self@, other@);
            }
            Trichotomy::Less
        } else {
            proof {
                lemma_entries_neq_len::<T>(other@, self@);
            }
            Trichotomy::Greater
        }
    }
}

proof fn lemma_entries_neq_at<T: Symbol>(a: Seq<(T::Model, i32)>, b: Seq<(T::Model, i32)>, i: int)
    requires
        0 <= i < a.len(),
        i < b.len(),
        a[i] != b[i],
    ensures
        a != b,
{
}

proof fn lemma_entries_neq_len<T: Symbol>(a: Seq<(T::Model, i32)>, b: Seq<(T::Model, i32)>)
    requires
        a.len() < b.len(),
    ensures
        a != b,
        entries_lt::<T>(a.skip(a.len() as int), b.skip(a.len() as int)),
        !entries_lt::<T>(b.skip(a.len() as int), a.skip(a.len() as int)),
{
    assert(a.skip(a.len() as int).len() == 0);
}

// ---------------------------------------------------------------------------
// Words of symbols as symbols
// ---------------------------------------------------------------------------

/// Lexicographic order on sequences of symbol models: by the first difference; a proper prefix comes first.
pub open spec fn seq_lt<T: Symbol>(a: Seq<T::Model>, b: Seq<T::Model>) -> bool
    decreases a.len(),
{
    if a.len() == 0 {
        b.len() > 0
    } else if b.len() == 0 {
        false
    } else if T::model_lt(a[0], b[0]) {
        true
    } else if a[0] != b[0] {
        false
    } else {
        seq_lt::<T>(a.drop_first(), b.drop_first())
    }
}

proof fn lemma_seq_lt_irreflexive<T: Symbol>(a: Seq<T::Model>)
    ensures
        !seq_lt::<T>(a, a),
    decreases a.len(),
{
    if a.len() > 0 {
        T::lemma_lt_irreflexive(a[0]);
        lemma_seq_lt_irreflexive::<T>(a.drop_first());
    }
}

proof fn lemma_seq_lt_transitive<T: Symbol>(a: Seq<T::Model>, b: Seq<T::Model>, c: Seq<T::Model>)
    requires
        seq_lt::<T>(a, b),
        seq_lt::<T>(b, c),
    ensures
        seq_lt::<T>(a, c),
    decreases a.len(),
{
    if a.len() > 0 {
        assert(b.len() > 0 && c.len() > 0);
        if T::model_lt(a[0], b[0]) {
            if T::model_lt(b[0], c[0]) {
                T::lemma_lt_transitive(a[0], b[0], c[0]);
            }
        } else if T::model_lt(b[0], c[0]) {
        } else {
            lemma_seq_lt_transitive::<T>(a.drop_first(), b.drop_first(), c.drop_first());
        }
    }
}

proof fn lemma_seq_lt_total<T: Symbol>(a: Seq<T::Model>, b: Seq<T::Model>)
    ensures
        seq_lt::<T>(a, b) || seq_lt::<T>(b, a) || a == b,
    decreases a.len(),
{
    if a.len() == 0 {
        if b.len() == 0 {
            assert(a =~= b);
        }
    } else if b.len() > 0 {
        T::lemma_lt_total(a[0], b[0]);
        if a[0] == b[0] {
            lemma_seq_lt_total::<T>(a.drop_first(), b.drop_first());
            if a.drop_first() == b.drop_first() {
                assert(a =~= seq![a[0]] + a.drop_first());
                assert(b =~= seq![b[0]] + b.drop_first());
            }
        }
    }
}

impl<T: Symbol> Symbol for Vec<T> {
    type Model = Seq<T::Model>;

    open spec fn model(&self) -> Seq<T::Model> {
        models(self@)
    }

    open spec fn model_lt(a: Seq<T::Model>, b: Seq<T::Model>) -> bool {
        seq_lt::<T>(a, b)
    }

    proof fn lemma_lt_irreflexive(a: Seq<T::Model>) {
        lemma_seq_lt_irreflexive::<T>(a);
    }

    proof fn lemma_lt_transitive(a: Seq<T::Model>, b: Seq<T::Model>, c: Seq<T::Model>) {
        lemma_seq_lt_transitive::<T>(a, b, c);
    }

    proof fn lemma_lt_total(a: Seq<T::Model>, b: Seq<T::Model>) {
        lemma_seq_lt_total::<T>(a, b);
    }

    fn duplicate(&self) -> (r: Self) {
        copy_symbols(self.as_slice())
    }

    fn compare(&self, other: &Self) -> (r: Trichotomy) {
        let ghost a = models(self@);
        let ghost b = models(other@);
        let n = self.len();
        let m = other.len();
        let mut i: usize = 0;
        assert(a.skip(0) =~= a);
        assert(b.skip(0) =~= b);
        while i < n && i < m
            invariant
                i <= n,
                i <= m,
                n == a.len(),
                m == b.len(),
                a == models(self@),
                b == models(other@),
                a.subrange(0, i as int) == b.subrange(0, i as int),
                seq_lt::<T>(a, b) == seq_lt::<T>(a.skip(i as int), b.skip(i as int)),
                seq_lt::<T>(b, a) == seq_lt::<T>(b.skip(i as int), a.skip(i as int)),
            decreases n - i,
        {
            proof {
                assert(a.skip(i as int).drop_first() =~= a.skip(i + 1));
                assert(b.skip(i as int).drop_first() =~= b.skip(i + 1));
                assert(a.skip(i as int)[0] == a[i as int]);
                assert(b.skip(i as int)[0] == b[i as int]);
                T::lemma_lt_irreflexive(a[i as int]);
            }
            match self[i].compare(&other[i]) {
                Trichotomy::Less => {
                    proof {
                        if T::model_lt(b[i as int], a[i as int]) {
                            T::lemma_lt_transitive(a[i as int], b[i as int], a[i as int]);
                        }
                        assert(a[i as int] != b[i as int]);
                        assert(a != b);
                    }
                    return Trichotomy::Less;
                },
                Trichotomy::Greater => {
                    proof {
                        if T::model_lt(a[i as int], b[i as int]) {
                            T::lemma_lt_transitive(a[i as int], b[i as int], a[i as int]);
                        }
                        assert(a[i as int] != b[i as int]);
                        assert(a != b);
                    }
                    return Trichotomy::Greater;
                },
                Trichotomy::Equal => {},
            }
            proof {
                assert(a.subrange(0, i + 1) =~= a.subrange(0, i as int).push(a[i as int]));
                assert(b.subrange(0, i + 1) =~= b.subrange(0, i as int).push(b[i as int]));
            }
            i = i + 1;
        }
        if n == m {
            assert(a =~= b) by {
                assert(a =~= a.subrange(0, n as int));
                assert(b =~= b.subrange(0, m as int));
            }
            proof {
                lemma_seq_lt_irreflexive::<T>(a);
            }
            Trichotomy::Equal
        } else if n < m {
            assert(a.skip(n as int).len() == 0);
            assert(a != b);
            Trichotomy::Less
        } else {
            assert(b.skip(m as int).len() == 0);
            assert(a != b);
            Trichotomy::Greater
        }
    }
}

/// Symbol models in strictly increasing order.
pub open spec fn strictly_increasing<T: Symbol>(ms: Seq<T::Model>) -> bool {
    forall|i: int, j: int| 0 <= i < j < ms.len() ==> T::model_lt(#[trigger] ms[i], #[trigger] ms[j])
}

/// Two strictly increasing sequences of symbol models with the same elements are equal.
pub proof fn lemma_strictly_increasing_unique<T: Symbol>(a: Seq<T::Model>, b: Seq<T::Model>)
    requires
        strictly_increasing::<T>(a),
        strictly_increasing::<T>(b),
        forall|x: T::Model| a.contains(x) <==> b.contains(x),
    ensures
        a == b,
    decreases a.len() + b.len(),
{
    if a.len() == 0 {
        if b.len() > 0 {
            assert(b.contains(b[0]));
        }
        assert(a =~= b);
    } else if b.len() == 0 {
        assert(a.contains(a[0]));
    } else {
        assert(a.contains(a[0]));
        assert(b.contains(b[0]));
        let i = choose|i: int| 0 <= i < b.len() && b[i] == a[0];
        let j = choose|j: int| 0 <= j < a.len() && a[j] == b[0];
        if a[0] != b[0] {
            assert(i > 0 && j > 0);
            assert(T::model_lt(b[0], b[i]));
            assert(T::model_lt(a[0], a[j]));
            T::lemma_lt_transitive(a[0], b[0], a[0]);
            T::lemma_lt_irreflexive(a[0]);
        }
        let ta = a.drop_first();
        let tb = b.drop_first();
        assert forall|x: T::Model| ta.contains(x) <==> tb.contains(x) by {
            if ta.contains(x) {
                let k = choose|k: int| 0 <= k < ta.len() && ta[k] == x;
                assert(a[k + 1] == x);
                assert(T::model_lt(a[0], x));
                assert(b.contains(x));
                let l = choose|l: int| 0 <= l < b.len() && b[l] == x;
                if l == 0 {
                    T::lemma_lt_irreflexive(x);
                }
                assert(tb[l - 1] == x);
            }
            if tb.contains(x) {
                let k = choose|k: int| 0 <= k < tb.len() && tb[k] == x;
                assert(b[k + 1] == x);
                assert(T::model_lt(b[0], x));
                assert(a.contains(x));
                let l = choose|l: int| 0 <= l < a.len() && a[l] == x;
                if l == 0 {
                    T::lemma_lt_irreflexive(x);
                }
                assert(ta[l - 1] == x);
            }
        }
        assert(strictly_increasing::<T>(ta)) by {
            assert forall|x: int, y: int| 0 <= x < y < ta.len() implies T::model_lt(#[trigger] ta[x], #[trigger] ta[y]) by {
                assert(ta[x] == a[x + 1] && ta[y] == a[y + 1]);
            }
        }
        assert(strictly_increasing::<T>(tb)) by {
            assert forall|x: int, y: int| 0 <= x < y < tb.len() implies T::model_lt(#[trigger] tb[x], #[trigger] tb[y]) by {
                assert(tb[x] == b[x + 1] && tb[y] == b[y + 1]);
            }
        }
        lemma_strictly_increasing_unique::<T>(ta, tb);
        assert(a =~= seq![a[0]] + ta);
        assert(b =~= seq![b[0]] + tb);
    }
}

/// The distinct symbols of a list in increasing order, one copy of each:
/// the list sorted, with repetitions removed.
pub fn sort_dedup<T: Symbol>(items: &Vec<T>) -> (r: Vec<T>)
    ensures
        strictly_increasing::<T>(models(r@)),
        forall|x: T::Model| models(r@).contains(x) <==> models(items@).contains(x),
{
    let mut r: Vec<T> = Vec::new();
    let mut i: usize = 0;
    while i < items.len()
        invariant
            i <= items@.len(),
            strictly_increasing::<T>(models(r@)),
            forall|x: T::Model| models(r@).contains(x) <==> models(items@.subrange(0, i as int)).contains(x),
        decreases items@.len() - i,
    {
        let x = &items[i];
        let ghost xm = x.model();
        let ghost rm = models(r@);
        assert(models(items@.subrange(0, i + 1)) =~= models(items@.subrange(0, i as int)).push(xm));
        // find the first position whose element is not below x
        let mut p: usize = 0;
        let mut scanning = true;
        while scanning && p < r.len()
            invariant
                p <= r@.len(),
                rm == models(r@),
                xm == x.model(),
                forall|q: int| 0 <= q < p ==> T::model_lt(#[trigger] rm[q], xm),
                !scanning ==> p < rm.len() && !T::model_lt(rm[p as int], xm),
            decreases r@.len() - p + if scanning { 1int } else { 0int },
        {
            match r[p].compare(x) {
                Trichotomy::Less => {
                    p = p + 1;
                },
                _ => {
                    scanning = false;
                },
            }
        }
        let found = p < r.len() && r[p].compare(x) == Trichotomy::Equal;
        if !found {
            proof {
                if p < rm.len() {
                    T::lemma_lt_total(rm[p as int], xm);
                }
            }
            let y = x.duplicate();
            r.insert(p, y);
            proof {
                let nm = models(r@);
                assert(nm =~= rm.subrange(0, p as int).push(xm) + rm.subrange(p as int, rm.len() as int));
                assert(nm.len() == rm.len() + 1);
                assert(forall|k: int| 0 <= k < p ==> #[trigger] nm[k] == rm[k]);
                assert(nm[p as int] == xm);
                assert(forall|k: int| p < k < nm.len() ==> #[trigger] nm[k] == rm[k - 1]);
                assert forall|a: int, b: int| 0 <= a < b < nm.len() implies T::model_lt(#[trigger] nm[a], #[trigger] nm[b]) by {
                    if b == p {
                    } else if a == p {
                        assert(nm[b] == rm[b - 1]);
                        if b - 1 > p {
                            T::lemma_lt_transitive(xm, rm[p as int], rm[b - 1]);
                        }
                    } else {
                        let aa = if a < p { a } else { a - 1 };
                        let bb = if b < p { b } else { b - 1 };
                        assert(nm[a] == rm[aa]);
                        assert(nm[b] == rm[bb]);
                    }
                }
                assert forall|z: T::Model| nm.contains(z) <==> rm.push(xm).contains(z) by {
                    if nm.contains(z) {
                        let k = choose|k: int| 0 <= k < nm.len() && nm[k] == z;
                        if k < p {
                            assert(rm.push(xm)[k] == z);
                        } else if k > p {
                            assert(rm.push(xm)[k - 1] == z);
                        } else {
                            assert(rm.push(xm)[rm.len() as int] == z);
                        }
                    }
                    if rm.push(xm).contains(z) {
                        let k = choose|k: int| 0 <= k < rm.push(xm).len() && rm.push(xm)[k] == z;
                        if k == rm.len() {
                            assert(nm[p as int] == z);
                        } else if k < p {
                            assert(nm[k] == z);
                        } else {
                            assert(nm[k + 1] == z);
                        }
                    }
                }
                assert forall|z: T::Model| rm.push(xm).contains(z) <==> (rm.contains(z) || z == xm) by {
                    lemma_push_contains(rm, xm, z);
                }
                assert forall|z: T::Model| models(r@).contains(z) <==> models(items@.subrange(0, i + 1)).contains(z) by {
                    lemma_push_contains(models(items@.subrange(0, i as int)), xm, z);
                    lemma_push_contains(rm, xm, z);
                }
            }
        } else {
            proof {
                assert(rm[p as int] == xm);
                assert forall|z: T::Model| models(r@).contains(z) <==> models(items@.subrange(0, i + 1)).contains(z) by {
                    lemma_push_contains(models(items@.subrange(0, i as int)), xm, z);
                    if z == xm {
                        assert(rm[p as int] == z);
                        assert(rm.contains(z));
                    }
                }
            }
        }
        i = i + 1;
    }
    assert(items@.subrange(0, items@.len() as int) =~= items@);
    r
}

// ---------------------------------------------------------------------------
// Words
// ---------------------------------------------------------------------------

/// The sum of a list of count entry lists, added in turn from the empty list.
pub open spec fn sum_all(s: Seq<Seq<(Letter, i32)>>) -> Seq<(Letter, i32)>
    decreases s.len(),
{
    if s.len() == 0 {
        Seq::empty()
    } else {
        entries_sum::<Letter>(sum_all(s.drop_last()), s.last())
    }
}

/// Adding the lists of `s` in turn never overflows a count.
pub open spec fn sums_fit(s: Seq<Seq<(Letter, i32)>>) -> bool
    decreases s.len(),
{
    if s.len() == 0 {
        true
    } else {
        &&& sums_fit(s.drop_last())
        &&& forall|i: int| 0 <= i < s.last().len() ==> add_fits::<Letter>(sum_all(s.drop_last()), #[trigger] s.last()[i].0, s.last()[i].1)
    }
}

/// Symbols such that a word of them is a scale, whose subwords have a step content.
pub trait Subtendable: Symbol {
    /// The step content of a word, as count entries of step letters.
    spec fn interval_model(s: Seq<Self::Model>) -> Seq<(Letter, i32)>;

    /// The step content of `s` can be counted without overflow.
    spec fn interval_fits(s: Seq<Self::Model>) -> bool;

    /// The step content of a word.
    fn interval_from_slice(slice: &[Self]) -> (r: CountVector<Letter>)
        requires
            Self::interval_fits(models(slice@)),
        ensures
            r@ == Self::interval_model(models(slice@)),
    ;

    /// The step content of the whole scale read from `degree`.
    fn dyad_on_degree(scale: &[Self], degree: usize) -> (r: CountVector<Letter>)
        requires
            scale@.len() > 0,
            Self::interval_fits(spec_rotate(models(scale@), degree as int)),
        ensures
            r@ == Self::interval_model(spec_rotate(models(scale@), degree as int)),
    {
        let rotated = rotate(scale, degree);
        Self::interval_from_slice(&rotated)
    }
}

impl Subtendable for Letter {
    open spec fn interval_model(s: Seq<Letter>) -> Seq<(Letter, i32)> {
        count_entries::<Letter>(s)
    }

    open spec fn interval_fits(s: Seq<Letter>) -> bool {
        s.len() <= i32::MAX
    }

    fn interval_from_slice(slice: &[Letter]) -> (r: CountVector<Letter>) {
        CountVector::from_slice(slice)
    }
}

impl Subtendable for CountVector<Letter> {
    open spec fn interval_model(s: Seq<Seq<(Letter, i32)>>) -> Seq<(Letter, i32)> {
        sum_all(s)
    }

    open spec fn interval_fits(s: Seq<Seq<(Letter, i32)>>) -> bool {
        sums_fit(s)
    }

    fn interval_from_slice(slice: &[CountVector<Letter>]) -> (r: CountVector<Letter>) {
        let ghost ms = models(slice@);
        let mut acc = CountVector::zero();
        let mut i: usize = 0;
        assert(ms.subrange(0, 0) =~= Seq::<Seq<(Letter, i32)>>::empty());
        while i < slice.len()
            invariant
                i <= slice@.len(),
                ms == models(slice@),
                sums_fit(ms),
                acc@ == sum_all(ms.subrange(0, i as int)),
            decreases slice@.len() - i,
        {
            proof {
                lemma_sums_fit_prefix(ms, i + 1);
                let pre = ms.subrange(0, i + 1);
                assert(pre.drop_last() =~= ms.subrange(0, i as int));
                assert(pre.last() == slice@[i as int]@);
            }
            acc = acc.add(&slice[i]);
            i = i + 1;
        }
        assert(ms.subrange(0, slice@.len() as int) =~= ms);
        acc
    }
}

proof fn lemma_sums_fit_prefix(s: Seq<Seq<(Letter, i32)>>, i: int)
    requires
        sums_fit(s),
        0 <= i <= s.len(),
    ensures
        sums_fit(s.subrange(0, i)),
    decreases s.len(),
{
    if i < s.len() {
        assert(s.drop_last().subrange(0, i) =~= s.subrange(0, i));
        lemma_sums_fit_prefix(s.drop_last(), i);
    } else {
        assert(s.subrange(0, i) =~= s);
    }
}

/// Count entry lists with positive counts and a total norm of at most `i32::MAX` can be added
/// in turn without overflow; their sum has positive counts and the total norm.
pub proof fn lemma_sums_fit_from_norms(s: Seq<Seq<(Letter, i32)>>)
    requires
        forall|i: int| 0 <= i < s.len() ==> sorted_keys::<Letter>(#[trigger] s[i]) && all_positive(s[i]),
        total_norm(s) <= i32::MAX,
    ensures
        sums_fit(s),
        entries_norm(sum_all(s)) == total_norm(s),
        all_positive(sum_all(s)),
        sorted_keys::<Letter>(sum_all(s)),
    decreases s.len(),
{
    if s.len() > 0 {
        let p = s.drop_last();
        assert forall|i: int| 0 <= i < p.len() implies sorted_keys::<Letter>(#[trigger] p[i]) && all_positive(p[i]) by {
            assert(p[i] == s[i]);
        }
        lemma_total_norm_nonneg(p);
        lemma_entries_norm_nonneg(s.last());
        lemma_sums_fit_from_norms(p);
        lemma_entries_sum_norm::<Letter>(sum_all(p), s.last());
    }
}

/// The sum of the norms of a list of count entry lists.
pub open spec fn total_norm(s: Seq<Seq<(Letter, i32)>>) -> int
    decreases s.len(),
{
    if s.len() == 0 {
        0
    } else {
        total_norm(s.drop_last()) + entries_norm(s.last())
    }
}

/// The total norm of a concatenation is the sum of the total norms.
pub proof fn lemma_total_norm_concat(a: Seq<Seq<(Letter, i32)>>, b: Seq<Seq<(Letter, i32)>>)
    ensures
        total_norm(a + b) == total_norm(a) + total_norm(b),
    decreases b.len(),
{
    if b.len() == 0 {
        assert(a + b =~= a);
    } else {
        lemma_total_norm_concat(a, b.drop_last());
        assert((a + b).drop_last() =~= a + b.drop_last());
        assert((a + b).last() == b.last());
    }
}

/// A subword of length below the word's length, read circularly, has at most the word's total norm.
pub proof fn lemma_total_norm_subword(s: Seq<Seq<(Letter, i32)>>, d: int, k: int)
    requires
        0 <= k < s.len(),
        d >= 0,
    ensures
        total_norm(spec_word_on_degree(s, d, k)) <= total_norm(s),
        spec_word_on_degree(s, d, k).len() == k,
        forall|j: int| 0 <= j < k ==> #[trigger] spec_word_on_degree(s, d, k)[j] == s[(j + d) % (s.len() as int)],
{
    let n = s.len() as int;
    let m = d % n;
    let r = spec_rotate(s, d);
    lemma_rotate_len(s, d);
    lemma_total_norm_concat(s.subrange(m, n), s.subrange(0, m));
    lemma_total_norm_concat(s.subrange(0, m), s.subrange(m, n));
    assert(s =~= s.subrange(0, m) + s.subrange(m, n));
    assert(r =~= r.subrange(0, k) + r.subrange(k, n));
    lemma_total_norm_concat(r.subrange(0, k), r.subrange(k, n));
    lemma_total_norm_nonneg(r.subrange(k, n));
    assert forall|j: int| 0 <= j < k implies #[trigger] spec_word_on_degree(s, d, k)[j] == s[(j + d) % n] by {
        lemma_rotate_index(s, d, j);
    }
}

proof fn lemma_total_norm_nonneg(s: Seq<Seq<(Letter, i32)>>)
    ensures
        total_norm(s) >= 0,
    decreases s.len(),
{
    if s.len() > 0 {
        lemma_total_norm_nonneg(s.drop_last());
        lemma_entries_norm_nonneg(s.last());
    }
}

/// Whether two words have the same models letter by letter.
pub fn symbols_eq<T: Symbol>(a: &[T], b: &[T]) -> (r: bool)
    ensures
        r == (models(a@) == models(b@)),
{
    if a.len() != b.len() {
        proof {
            assert(models(a@).len() != models(b@).len());
        }
        return false;
    }
    let n = a.len();
    let mut i: usize = 0;
    while i < n
        invariant
            i <= n,
            n == a@.len(),
            n == b@.len(),
            forall|j: int| 0 <= j < i ==> #[trigger] models(a@)[j] == models(b@)[j],
        decreases n - i,
    {
        if !symbol_eq(&a[i], &b[i]) {
            proof {
                assert(models(a@)[i as int] != models(b@)[i as int]);
            }
            return false;
        }
        i = i + 1;
    }
    assert(models(a@) =~= models(b@));
    true
}

/// The subword of length `k` (at most the length of `s`) starting at degree `d` of the
/// circular word `s`.
pub open spec fn spec_word_on_degree<A>(s: Seq<A>, d: int, k: int) -> Seq<A> {
    spec_rotate(s, d).subrange(0, k)
}

/// Treating `scale` as a circular string, take a subword of length `subword_length` starting on `degree`.
pub fn word_on_degree<T: Symbol>(scale: &[T], degree: usize, subword_length: usize) -> (r: Vec<T>)
    requires
        scale@.len() > 0,
        subword_length <= scale@.len(),
    ensures
        models(r@) == spec_word_on_degree(models(scale@), degree as int, subword_length as int),
        r@.len() == subword_length,
{
    let rotated = rotate(scale, degree);
    let ghost rm = models(rotated@);
    let mut r: Vec<T> = Vec::new();
    let mut i: usize = 0;
    while i < subword_length
        invariant
            i <= subword_length <= rotated@.len(),
            rm == models(rotated@),
            models(r@) == rm.subrange(0, i as int),
        decreases subword_length - i,
    {
        let x = rotated[i].duplicate();
        proof {
            lemma_models_push(r@, x);
        }
        r.push(x);
        assert(models(r@) =~= rm.subrange(0, i + 1));
        i = i + 1;
    }
    r
}

/// The dyad on the specified degree of the scale as a `CountVector`.
pub fn dyad_on_degree<T: Symbol>(scale: &[T], degree: usize, interval_class: usize) -> (r: CountVector<T>)
    requires
        scale@.len() > 0,
        scale@.len() < i32::MAX,
        interval_class <= scale@.len(),
    ensures
        r@ == count_entries::<T>(spec_word_on_degree(models(scale@), degree as int, interval_class as int)),
{
    let w = word_on_degree(scale, degree, interval_class);
    CountVector::from_slice(&w)
}

/// Return the offset of `vec2` to the right relative to `vec1` if the words are conjugate, otherwise `None`.
pub fn offset_vec<T: Symbol>(vec1: &[T], vec2: &[T]) -> (r: Option<usize>)
    ensures
        match r {
            Some(i) => {
                &&& vec1@.len() == vec2@.len()
                &&& i < vec2@.len()
                &&& spec_rotate(models(vec2@), i as int) == models(vec1@)
                &&& forall|j: int| 0 <= j < i ==> spec_rotate(models(vec2@), j) != models(vec1@)
            },
            None => vec1@.len() != vec2@.len() || forall|j: int|
                0 <= j < vec2@.len() ==> spec_rotate(models(vec2@), j) != models(vec1@),
        },
{
    if vec1.len() != vec2.len() {
        None
    } else {
        let len = vec1.len();
        let mut i: usize = 0;
        while i < len
            invariant
                i <= len,
                len == vec1@.len(),
                len == vec2@.len(),
                forall|j: int| 0 <= j < i ==> spec_rotate(models(vec2@), j) != models(vec1@),
            decreases len - i,
        {
            let vec2_rotated = rotate(vec2, i);
            if symbols_eq(&vec2_rotated, vec1) {
                return Some(i);
            }
            i = i + 1;
        }
        None
    }
}

/// Whether two words are rotations of one another.
pub fn rotationally_equivalent<T: Symbol>(s1: &[T], s2: &[T]) -> (r: bool)
    ensures
        r == (s1@.len() == s2@.len() && exists|i: int|
            0 <= i < s1@.len() && #[trigger] spec_rotate(models(s1@), i) == models(s2@)),
{
    if s1.len() != s2.len() {
        return false;
    }
    let n = s1.len();
    let mut i: usize = 0;
    while i < n
        invariant
            i <= n,
            n == s1@.len(),
            n == s2@.len(),
            forall|j: int| 0 <= j < i ==> #[trigger] spec_rotate(models(s1@), j) != models(s2@),
        decreases n - i,
    {
        let rotated = rotate(s1, i);
        if symbols_eq(&rotated, s2) {
            return true;
        }
        i = i + 1;
    }
    false
}

/// `p` is a period of the word `s`: every letter equals the letter `p` places before it.
pub open spec fn has_period<A>(s: Seq<A>, p: int) -> bool {
    &&& p >= 1
    &&& forall|i: int| 0 <= i < s.len() ==> #[trigger] s[i] == s[i % p]
}

/// Whether `s` has period `p`.
fn check_period<T: Symbol>(word: &[T], p: usize) -> (r: bool)
    requires
        p >= 1,
    ensures
        r == has_period(models(word@), p as int),
{
    let n = word.len();
    let mut i: usize = 0;
    while i < n
        invariant
            i <= n,
            n == word@.len(),
            p >= 1,
            forall|j: int| 0 <= j < i ==> #[trigger] models(word@)[j] == models(word@)[j % (p as int)],
        decreases n - i,
    {
        let q = i % p;
        proof {
            vstd::arithmetic::div_mod::lemma_mod_bound(i as int, p as int);
            vstd::arithmetic::div_mod::lemma_mod_division_less_than_divisor(i as int, p as int);
            if i < p {
                vstd::arithmetic::div_mod::lemma_small_mod(i as nat, p as nat);
            }
        }
        if !symbol_eq(&word[i], &word[q]) {
            proof {
                assert(models(word@)[i as int] != models(word@)[i as int % (p as int)]);
            }
            return false;
        }
        i = i + 1;
    }
    true
}

/// The first `k` letters of a word.
pub fn prefix<T: Symbol>(word: &[T], k: usize) -> (r: Vec<T>)
    requires
        k <= word@.len(),
    ensures
        models(r@) == models(word@).subrange(0, k as int),
        r@.len() == k,
{
    let mut r: Vec<T> = Vec::new();
    let mut i: usize = 0;
    while i < k
        invariant
            i <= k <= word@.len(),
            models(r@) == models(word@).subrange(0, i as int),
        decreases k - i,
    {
        let x = word[i].duplicate();
        proof {
            lemma_models_push(r@, x);
        }
        r.push(x);
        assert(models(r@) =~= models(word@).subrange(0, i + 1));
        i = i + 1;
    }
    r
}

/// The length of the repeating portion of a word: the least divisor `p <= len / 2` of the length
/// that is a period, or the whole length if there is none.
pub open spec fn is_least_dividing_period<A>(s: Seq<A>, p: int) -> bool {
    &&& 0 <= p <= s.len()
    &&& (p == s.len() || (p <= s.len() / 2 && (s.len() as int) % p == 0 && has_period(s, p)))
    &&& forall|q: int| 1 <= q <= s.len() / 2 && q < p && (s.len() as int) % q == 0 ==> !#[trigger] has_period(s, q)
}

/// The repeating portion of a word.
pub fn period_pattern<T: Symbol>(word: &[T]) -> (r: Vec<T>)
    ensures
        is_least_dividing_period(models(word@), r@.len() as int),
        models(r@) == models(word@).subrange(0, r@.len() as int),
{
    let n = word.len();
    let mut divisor: usize = 1;
    while divisor <= n / 2
        invariant
            1 <= divisor,
            n == word@.len(),
            divisor <= n / 2 + 1,
            forall|q: int| 1 <= q < divisor && (n as int) % q == 0 ==> !#[trigger] has_period(models(word@), q),
        decreases n / 2 + 1 - divisor,
    {
        let is_divisor = n % divisor == 0;
        if is_divisor {
            if check_period(word, divisor) {
                return prefix(word, divisor);
            }
        }
        proof {
            assert forall|q: int| 1 <= q < divisor + 1 && (n as int) % q == 0 implies !#[trigger] has_period(models(word@), q) by {
                if q == divisor as int {
                    assert(is_divisor);
                }
            }
        }
        divisor = divisor + 1;
    }
    prefix(word, n)
}

/// The least `p >= 1` such that the word is a prefix of the infinite repetition of its first `p` letters.
pub open spec fn is_weak_period<A>(s: Seq<A>, p: int) -> bool {
    &&& 1 <= p <= s.len()
    &&& has_period(s, p)
    &&& forall|q: int| 1 <= q < p ==> !#[trigger] has_period(s, q)
}

/// The minimal prefix `x` such that `word` is a prefix of `x^∞`.
pub fn weak_period_pattern<T: Symbol>(word: &[T]) -> (r: Vec<T>)
    requires
        word@.len() > 0,
    ensures
        is_weak_period(models(word@), r@.len() as int),
        models(r@) == models(word@).subrange(0, r@.len() as int),
{
    let n = word.len();
    let mut p: usize = 1;
    while p < n
        invariant
            1 <= p <= n,
            n == word@.len(),
            forall|q: int| 1 <= q < p ==> !#[trigger] has_period(models(word@), q),
        decreases n - p,
    {
        if check_period(word, p) {
            return prefix(word, p);
        }
        p = p + 1;
    }
    proof {
        assert forall|i: int| 0 <= i < n implies #[trigger] models(word@)[i] == models(word@)[i % (n as int)] by {
            vstd::arithmetic::div_mod::lemma_small_mod(i as nat, n as nat);
        }
    }
    prefix(word, n)
}

/// The distinct rotations of a word, in cyclic order (one per letter of its repeating portion).
pub fn rotations<T: Symbol>(word: &[T]) -> (r: Vec<Vec<T>>)
    requires
        word@.len() > 0,
    ensures
        is_least_dividing_period(models(word@), r@.len() as int),
        forall|i: int| 0 <= i < r@.len() ==> models(#[trigger] r@[i]@) == spec_rotate(models(word@), i),
{
    let period = period_pattern(word).len();
    let mut r: Vec<Vec<T>> = Vec::new();
    let mut i: usize = 0;
    while i < period
        invariant
            i <= period,
            is_least_dividing_period(models(word@), period as int),
            word@.len() > 0,
            r@.len() == i,
            forall|j: int| 0 <= j < i ==> models(#[trigger] r@[j]@) == spec_rotate(models(word@), j),
        decreases period - i,
    {
        r.push(rotate(word, i));
        i = i + 1;
    }
    r
}

/// A word has at most one least dividing period.
pub proof fn lemma_least_dividing_period_unique<A>(s: Seq<A>, p: int, q: int)
    requires
        is_least_dividing_period(s, p),
        is_least_dividing_period(s, q),
    ensures
        p == q,
{
    if p < q {
        assert(!has_period(s, p));
    } else if q < p {
        assert(!has_period(s, q));
    }
}

/// A nonempty word has exactly one weak period.
pub proof fn lemma_weak_period_unique<A>(s: Seq<A>, p: int, q: int)
    requires
        is_weak_period(s, p),
        is_weak_period(s, q),
    ensures
        p == q,
{
    if p < q {
        assert(!has_period(s, p));
    } else if q < p {
        assert(!has_period(s, q));
    }
}

/// The repeating prefix of a nonempty word, as computed by `weak_period_pattern`.
pub open spec fn weak_pattern<A>(s: Seq<A>) -> Seq<A> {
    s.subrange(0, choose|p: int| is_weak_period(s, p))
}

/// The number of distinct rotations of a word, as computed by `rotations`.
pub open spec fn rotation_count<A>(s: Seq<A>) -> int {
    choose|p: int| is_least_dividing_period(s, p)
}

/// The distinct rotations of a word, in cyclic order, as computed by `rotations`.
pub open spec fn spec_rotations<A>(s: Seq<A>) -> Seq<Seq<A>> {
    Seq::new(rotation_count(s) as nat, |i: int| spec_rotate(s, i))
}

/// `weak_period_pattern` computes `weak_pattern`.
pub proof fn lemma_weak_pattern<A>(s: Seq<A>, p: int)
    requires
        is_weak_period(s, p),
    ensures
        weak_pattern(s) == s.subrange(0, p),
{
    let q = choose|q: int| is_weak_period(s, q);
    lemma_weak_period_unique(s, p, q);
}

/// `rotations` computes `spec_rotations`.
pub proof fn lemma_spec_rotations<A>(s: Seq<A>, p: int)
    requires
        is_least_dividing_period(s, p),
    ensures
        rotation_count(s) == p,
        spec_rotations(s).len() == p,
{
    let q = choose|q: int| is_least_dividing_period(s, q);
    lemma_least_dividing_period_unique(s, p, q);
}

/// Letterwise substitution: the `j`th occurrence of `x` in the template becomes `filler[j % filler.len()]`.
pub open spec fn spec_subst(t: Seq<Letter>, x: Letter, f: Seq<Letter>) -> Seq<Letter> {
    Seq::new(t.len(), |j: int| if t[j] == x { f[(occurrences(t.subrange(0, j), x) % f.len()) as int] } else { t[j] })
}

/// All instances of letter `x` removed.
pub open spec fn spec_delete(s: Seq<Letter>, x: Letter) -> Seq<Letter>
    decreases s.len(),
{
    if s.len() == 0 {
        s
    } else if s.last() == x {
        spec_delete(s.drop_last(), x)
    } else {
        spec_delete(s.drop_last(), x).push(s.last())
    }
}

/// Delete all instances of one letter.
pub fn delete(scale: &[Letter], letter: Letter) -> (r: Vec<Letter>)
    ensures
        r@ == spec_delete(scale@, letter),
{
    let mut r: Vec<Letter> = Vec::new();
    let mut i: usize = 0;
    while i < scale.len()
        invariant
            i <= scale@.len(),
            r@ == spec_delete(scale@.subrange(0, i as int), letter),
        decreases scale@.len() - i,
    {
        proof {
            assert(scale@.subrange(0, i + 1).drop_last() =~= scale@.subrange(0, i as int));
        }
        if scale[i] != letter {
            r.push(scale[i]);
        }
        i = i + 1;
    }
    assert(scale@.subrange(0, scale@.len() as int) =~= scale@);
    r
}

proof fn lemma_occurrences_bound<A>(s: Seq<A>, x: A)
    ensures
        occurrences(s, x) <= s.len(),
    decreases s.len(),
{
    if s.len() > 0 {
        lemma_occurrences_bound(s.drop_last(), x);
    }
}

/// Letterwise substitution for scale words: the occurrences of `x` in `template`
/// are replaced by the letters of `filler` in turn, cycling through `filler`.
/// With an empty `filler` the occurrences of `x` are deleted.
pub fn subst(template: &[Letter], x: Letter, filler: &[Letter]) -> (r: Vec<Letter>)
    ensures
        filler@.len() == 0 ==> r@ == spec_delete(template@, x),
        filler@.len() > 0 ==> r@ == spec_subst(template@, x, filler@),
{
    if filler.len() == 0 {
        return delete(template, x);
    }
    let mut ret: Vec<Letter> = Vec::new();
    let mut i: usize = 0;
    let mut j: usize = 0;
    let n = template.len();
    while j < n
        invariant
            j <= n,
            n == template@.len(),
            filler@.len() > 0,
            i == occurrences(template@.subrange(0, j as int), x),
            ret@ == spec_subst(template@, x, filler@).subrange(0, j as int),
        decreases n - j,
    {
        let letter = template[j];
        proof {
            lemma_occurrences_bound(template@.subrange(0, j as int), x);
            assert(template@.subrange(0, j + 1).drop_last() =~= template@.subrange(0, j as int));
        }
        if letter == x {
            ret.push(filler[i % filler.len()]);
            i = i + 1;
        } else {
            ret.push(letter);
        }
        assert(ret@ =~= spec_subst(template@, x, filler@).subrange(0, j + 1));
        j = j + 1;
    }
    assert(spec_subst(template@, x, filler@).subrange(0, n as int) =~= spec_subst(template@, x, filler@));
    ret
}

/// Every occurrence of `from` replaced by `to`.
pub open spec fn spec_replace(s: Seq<Letter>, from: Letter, to: Letter) -> Seq<Letter> {
    s.map_values(|y: Letter| if y == from { to } else { y })
}

/// `subst()` but the filler is just one letter.
pub fn replace(scale: &[Letter], from: Letter, to: Letter) -> (r: Vec<Letter>)
    ensures
        r@ == spec_replace(scale@, from, to),
{
    let filler = [to];
    let r = subst(scale, from, &filler);
    proof {
        assert forall|j: int| 0 <= j < scale@.len() implies #[trigger] r@[j] == spec_replace(scale@, from, to)[j] by {
            let c = occurrences(scale@.subrange(0, j), from);
            assert(c % 1 == 0) by {
                vstd::arithmetic::div_mod::lemma_mod_self_0(1);
                vstd::arithmetic::div_mod::lemma_small_mod(0, 1);
                vstd::arithmetic::div_mod::lemma_mod_multiples_basic(c as int, 1);
            }
        }
        assert(r@ =~= spec_replace(scale@, from, to));
    }
    r
}

// ---------------------------------------------------------------------------
// Spectra and varieties
// ---------------------------------------------------------------------------

/// The `k`-step dyads of `s` on every degree, as count entries.
pub open spec fn spec_dyads<T: Symbol>(s: Seq<T::Model>, k: int) -> Seq<Seq<(T::Model, i32)>> {
    Seq::new(s.len(), |d: int| count_entries::<T>(spec_word_on_degree(s, d, k)))
}

/// The number of distinct `k`-step dyads of `s`.
pub open spec fn variety<T: Symbol>(s: Seq<T::Model>, k: int) -> nat {
    spec_dyads::<T>(s, k).to_set().len()
}

/// Whether some element of `v` has the model of `x`.
pub fn contains_symbol<T: Symbol>(v: &Vec<T>, x: &T) -> (r: bool)
    ensures
        r == models(v@).contains(x.model()),
{
    let n = v.len();
    let mut i: usize = 0;
    while i < n
        invariant
            i <= n,
            n == v@.len(),
            forall|j: int| 0 <= j < i ==> #[trigger] models(v@)[j] != x.model(),
        decreases n - i,
    {
        if symbol_eq(&v[i], x) {
            proof {
                assert(models(v@)[i as int] == x.model());
            }
            return true;
        }
        i = i + 1;
    }
    false
}


/// A key that the lookup finds stands somewhere in the list.
proof fn lemma_entries_get_some<T: Symbol>(es: Seq<(T::Model, i32)>, k: T::Model)
    requires
        entries_get::<T>(es, k) is Some,
    ensures
        exists|i: int| 0 <= i < es.len() && #[trigger] es[i].0 == k,
    decreases es.len(),
{
    if es[0].0 != k {
        lemma_entries_get_some::<T>(es.drop_first(), k);
        let i = choose|i: int| 0 <= i < es.drop_first().len() && #[trigger] es.drop_first()[i].0 == k;
        assert(es[i + 1].0 == k);
    } else {
        assert(es[0].0 == k);
    }
}

/// A value occurs in a word exactly when the word contains it.
proof fn lemma_occurrences_contains<A>(s: Seq<A>, x: A)
    ensures
        occurrences(s, x) > 0 <==> s.contains(x),
    decreases s.len(),
{
    if s.len() > 0 {
        let prev = s.drop_last();
        lemma_occurrences_contains(prev, x);
        if prev.contains(x) {
            let i = choose|i: int| 0 <= i < prev.len() && prev[i] == x;
            assert(s[i] == x);
        }
        if s.contains(x) && s.last() != x {
            let i = choose|i: int| 0 <= i < s.len() && s[i] == x;
            assert(prev[i] == x);
        }
        if s.last() == x {
            assert(s[s.len() - 1] == x);
        }
    }
}

/// No key of the tail of a sorted list is its first key.
proof fn lemma_sorted_tail_lacks_head<T: Symbol>(x: Seq<(T::Model, i32)>)
    requires
        sorted_keys::<T>(x),
        x.len() > 0,
    ensures
        entries_get::<T>(x.drop_first(), x[0].0) is None,
{
    let t = x.drop_first();
    if entries_get::<T>(t, x[0].0) is Some {
        lemma_entries_get_some::<T>(t, x[0].0);
        let i = choose|i: int| 0 <= i < t.len() && #[trigger] t[i].0 == x[0].0;
        assert(T::model_lt(x[0].0, x[i + 1].0));
        T::lemma_lt_irreflexive(x[0].0);
    }
}

/// Two sorted entry lists with the same count for every key are equal.
proof fn lemma_entries_ext<T: Symbol>(x: Seq<(T::Model, i32)>, y: Seq<(T::Model, i32)>)
    requires
        sorted_keys::<T>(x),
        sorted_keys::<T>(y),
        forall|k: T::Model| #[trigger] entries_get::<T>(x, k) == entries_get::<T>(y, k),
    ensures
        x == y,
    decreases x.len(),
{
    if x.len() == 0 {
        if y.len() > 0 {
            assert(entries_get::<T>(y, y[0].0) == Some(y[0].1));
            assert(entries_get::<T>(x, y[0].0) is None);
        }
        assert(x =~= y);
    } else {
        if y.len() == 0 {
            assert(entries_get::<T>(x, x[0].0) == Some(x[0].1));
            assert(entries_get::<T>(y, x[0].0) is None);
        }
        let kx = x[0].0;
        let ky = y[0].0;
        assert(entries_get::<T>(x, kx) == Some(x[0].1));
        assert(entries_get::<T>(y, ky) == Some(y[0].1));
        lemma_entries_get_some::<T>(y, kx);
        lemma_entries_get_some::<T>(x, ky);
        let j = choose|j: int| 0 <= j < y.len() && #[trigger] y[j].0 == kx;
        let i = choose|i: int| 0 <= i < x.len() && #[trigger] x[i].0 == ky;
        if kx != ky {
            assert(j > 0 && i > 0);
            assert(T::model_lt(y[0].0, y[j].0));
            assert(T::model_lt(x[0].0, x[i].0));
            T::lemma_lt_transitive(kx, ky, kx);
            T::lemma_lt_irreflexive(kx);
        }
        assert(x[0] == y[0]);
        let tx = x.drop_first();
        let ty = y.drop_first();
        assert(sorted_keys::<T>(tx)) by {
            assert forall|a: int, b: int| 0 <= a < b < tx.len() implies T::model_lt(#[trigger] tx[a].0, #[trigger] tx[b].0) by {
                assert(tx[a] == x[a + 1] && tx[b] == x[b + 1]);
            }
        }
        assert(sorted_keys::<T>(ty)) by {
            assert forall|a: int, b: int| 0 <= a < b < ty.len() implies T::model_lt(#[trigger] ty[a].0, #[trigger] ty[b].0) by {
                assert(ty[a] == y[a + 1] && ty[b] == y[b + 1]);
            }
        }
        lemma_sorted_tail_lacks_head::<T>(x);
        lemma_sorted_tail_lacks_head::<T>(y);
        assert forall|k: T::Model| #[trigger] entries_get::<T>(tx, k) == entries_get::<T>(ty, k) by {
            if k != kx {
                assert(entries_get::<T>(x, k) == entries_get::<T>(tx, k));
                assert(entries_get::<T>(y, k) == entries_get::<T>(ty, k));
            }
        }
        lemma_entries_ext::<T>(tx, ty);
        assert(x =~= seq![x[0]] + tx);
        assert(y =~= seq![y[0]] + ty);
    }
}

/// Two words with the same number of each letter have the same count entries.
proof fn lemma_count_entries_same_counts<T: Symbol>(u: Seq<T::Model>, v: Seq<T::Model>)
    requires
        u.len() <= i32::MAX,
        v.len() <= i32::MAX,
        forall|x: T::Model| #[trigger] occurrences(u, x) == occurrences(v, x),
    ensures
        count_entries::<T>(u) == count_entries::<T>(v),
{
    lemma_count_entries::<T>(u);
    lemma_count_entries::<T>(v);
    assert forall|x: T::Model| #[trigger] entries_get::<T>(count_entries::<T>(u), x) == entries_get::<T>(count_entries::<T>(v), x) by {
        assert(occurrences(u, x) == occurrences(v, x));
    }
    lemma_entries_ext::<T>(count_entries::<T>(u), count_entries::<T>(v));
}

/// The keys of an entry list, in order.
pub open spec fn entry_keys<K>(es: Seq<(K, i32)>) -> Seq<K> {
    es.map_values(|e: (K, i32)| e.0)
}

/// Counting a word gives one entry per distinct letter: its keys are the word's letters,
/// each once, so there are as many entries as in any duplicate-free list of those letters.
pub proof fn lemma_count_entries_len<T: Symbol>(s: Seq<T::Model>, distinct: Seq<T::Model>)
    requires
        s.len() <= i32::MAX,
        distinct.no_duplicates(),
        distinct.to_set() == s.to_set(),
    ensures
        entry_keys(count_entries::<T>(s)).no_duplicates(),
        entry_keys(count_entries::<T>(s)).to_set() == s.to_set(),
        count_entries::<T>(s).len() == distinct.len(),
{
    lemma_count_entries_keys::<T>(s);
    entry_keys(count_entries::<T>(s)).unique_seq_to_set();
    distinct.unique_seq_to_set();
}

/// The keys of the count entries of a word are its letters, each once, in increasing order.
proof fn lemma_count_entries_keys<T: Symbol>(s: Seq<T::Model>)
    requires
        s.len() <= i32::MAX,
    ensures
        entry_keys(count_entries::<T>(s)).no_duplicates(),
        entry_keys(count_entries::<T>(s)).to_set() == s.to_set(),
        sorted_keys::<T>(count_entries::<T>(s)),
        entry_keys(count_entries::<T>(s)).len() == s.to_set().len(),
{
    let es = count_entries::<T>(s);
    lemma_count_entries::<T>(s);
    let keys = entry_keys(es);
    assert forall|i: int, j: int| 0 <= i < j < keys.len() implies keys[i] != keys[j] by {
        T::lemma_lt_irreflexive(keys[i]);
        assert(T::model_lt(es[i].0, es[j].0));
    }
    assert forall|y: T::Model| keys.to_set().contains(y) <==> s.to_set().contains(y) by {
        lemma_occurrences_contains(s, y);
        if keys.contains(y) {
            let i = choose|i: int| 0 <= i < keys.len() && keys[i] == y;
            lemma_entries_get_at::<T>(es, i);
            assert(entries_get::<T>(es, y) is Some);
        }
        if s.contains(y) {
            assert(entries_get::<T>(es, y) is Some);
            lemma_entries_get_some::<T>(es, y);
            let i = choose|i: int| 0 <= i < es.len() && #[trigger] es[i].0 == y;
            assert(keys[i] == y);
        }
    }
    assert(keys.to_set() =~= s.to_set());
    keys.unique_seq_to_set();
}

/// The spectrum holds each distinct dyad once as a key, with counts that add up to the
/// number of degrees: it has as many entries as `CountVector::distinct_spectrum` lists count vectors.
pub proof fn lemma_spectrum_keys_are_distinct_dyads<T: Symbol>(
    s: Seq<T::Model>,
    k: int,
    distinct: Seq<Seq<(T::Model, i32)>>,
)
    requires
        s.len() < i32::MAX,
        distinct.no_duplicates(),
        distinct.to_set() == spec_dyads::<T>(s, k).to_set(),
    ensures
        entry_keys(count_entries::<CountVector<T>>(spec_dyads::<T>(s, k))).to_set()
            == spec_dyads::<T>(s, k).to_set(),
        count_entries::<CountVector<T>>(spec_dyads::<T>(s, k)).len() == distinct.len(),
        entries_norm(count_entries::<CountVector<T>>(spec_dyads::<T>(s, k))) == s.len(),
        0 <= k <= s.len() ==> forall|i: int| 0 <= i < count_entries::<CountVector<T>>(spec_dyads::<T>(s, k)).len()
            ==> entries_norm(#[trigger] count_entries::<CountVector<T>>(spec_dyads::<T>(s, k))[i].0) == k,
{
    let dy = spec_dyads::<T>(s, k);
    let es = count_entries::<CountVector<T>>(dy);
    lemma_count_entries_len::<CountVector<T>>(dy, distinct);
    lemma_count_entries_norm::<CountVector<T>>(dy);
    if 0 <= k <= s.len() {
        assert forall|i: int| 0 <= i < es.len() implies entries_norm(#[trigger] es[i].0) == k by {
            let key = es[i].0;
            assert(entry_keys(es)[i] == key);
            assert(entry_keys(es).to_set().contains(key));
            assert(dy.to_set().contains(key));
            let d = choose|d: int| 0 <= d < dy.len() && dy[d] == key;
            let word = spec_word_on_degree(s, d, k);
            if s.len() > 0 {
                lemma_rotate_len(s, d);
            }
            assert(word.len() == k);
            lemma_count_entries_norm::<T>(word);
        }
    }
}

/// The largest number of distinct dyads over step classes `1..=m` (and 1 for 0-steps).
pub open spec fn variety_upto(s: Seq<Letter>, m: int) -> nat
    decreases m,
{
    if m <= 0 {
        1
    } else {
        let prev = variety_upto(s, m - 1);
        let v = variety::<Letter>(s, m);
        if v > prev { v } else { prev }
    }
}

/// The maximum variety of a scale word: the largest number of distinct interval classes
/// at any single interval size.
pub open spec fn spec_maximum_variety(s: Seq<Letter>) -> nat {
    variety_upto(s, (s.len() / 2) as int)
}

proof fn lemma_variety_upto_monotone(s: Seq<Letter>, a: int, b: int)
    requires
        a <= b,
    ensures
        variety_upto(s, a) <= variety_upto(s, b),
    decreases b - a,
{
    if a < b {
        lemma_variety_upto_monotone(s, a, b - 1);
    }
}

proof fn lemma_distinct_count(ms: Seq<Seq<(usize, i32)>>, dy: Seq<Seq<(usize, i32)>>)
    requires
        ms.no_duplicates(),
        ms.to_set() == dy.to_set(),
    ensures
        ms.len() == dy.to_set().len(),
{
    ms.unique_seq_to_set();
}

/// Computes the maximum variety of a scale.
pub fn maximum_variety(scale: &[Letter]) -> (r: usize)
    requires
        scale@.len() < i32::MAX,
    ensures
        r == spec_maximum_variety(scale@),
{
    broadcast use lemma_models_usize;
    let mut result: usize = 1;
    let floor_half: usize = scale.len() / 2;
    let mut k: usize = 1;
    while k < floor_half + 1
        invariant
            1 <= k <= floor_half + 1,
            floor_half == scale@.len() / 2,
            scale@.len() < i32::MAX,
            result == variety_upto(scale@, k - 1),
        decreases floor_half + 1 - k,
    {
        let sizes = CountVector::distinct_spectrum(scale, k);
        proof {
            lemma_models_usize(scale@);
            lemma_distinct_count(models(sizes@), spec_dyads::<Letter>(scale@, k as int));
        }
        if sizes.len() > result {
            result = sizes.len();
        }
        k = k + 1;
    }
    result
}

/// Says whether this scale has the given maximum variety, stopping early once the variety is exceeded.
pub fn maximum_variety_is(scale: &[Letter], mv: usize) -> (r: bool)
    requires
        scale@.len() < i32::MAX,
    ensures
        r == (spec_maximum_variety(scale@) == mv),
{
    broadcast use lemma_models_usize;
    let mut result: usize = 1;
    let floor_half: usize = scale.len() / 2;
    let mut k: usize = 1;
    while k < floor_half + 1
        invariant
            1 <= k <= floor_half + 1,
            floor_half == scale@.len() / 2,
            scale@.len() < i32::MAX,
            result == variety_upto(scale@, k - 1),
        decreases floor_half + 1 - k,
    {
        let sizes = CountVector::distinct_spectrum(scale, k);
        proof {
            lemma_models_usize(scale@);
            lemma_distinct_count(models(sizes@), spec_dyads::<Letter>(scale@, k as int));
        }
        if sizes.len() > result {
            result = sizes.len();
        }
        if result > mv {
            proof {
                lemma_variety_upto_monotone(scale@, k as int, floor_half as int);
            }
            return false;
        }
        k = k + 1;
    }
    result == mv
}

/// Whether every step class `1..=len/2` has the same variety.
pub open spec fn spec_is_strict_variety(s: Seq<Letter>) -> bool {
    forall|k: int| 1 <= k <= s.len() / 2 ==> #[trigger] variety::<Letter>(s, k) == variety::<Letter>(s, 1)
}

/// Whether `scale` is strict variety (the variety is the same for every non-equave step class).
pub fn is_strict_variety(scale: &[Letter]) -> (r: bool)
    requires
        scale@.len() < i32::MAX,
    ensures
        r == spec_is_strict_variety(scale@),
{
    broadcast use lemma_models_usize;
    let mut prev: usize = 0;
    let floor_half: usize = scale.len() / 2;
    let mut k: usize = 1;
    while k <= floor_half
        invariant
            1 <= k <= floor_half + 1,
            floor_half == scale@.len() / 2,
            scale@.len() < i32::MAX,
            k == 1 ==> prev == 0,
            k > 1 ==> prev == variety::<Letter>(scale@, 1) && prev > 0,
            forall|j: int| 1 <= j < k ==> #[trigger] variety::<Letter>(scale@, j) == variety::<Letter>(scale@, 1),
        decreases floor_half + 1 - k,
    {
        let sizes = CountVector::distinct_spectrum(scale, k);
        proof {
            lemma_models_usize(scale@);
            lemma_distinct_count(models(sizes@), spec_dyads::<Letter>(scale@, k as int));
            if k == 1 {
                let dy = spec_dyads::<Letter>(scale@, 1);
                assert(dy.to_set().contains(dy[0]));
                vstd::seq_lib::seq_to_set_is_finite(dy);
                vstd::set_lib::lemma_set_empty_equivalency_len(dy.to_set());
            }
        }
        if prev == 0 {
            prev = sizes.len();
        } else if prev != sizes.len() {
            proof {
                assert(variety::<Letter>(scale@, k as int) != variety::<Letter>(scale@, 1));
            }
            return false;
        }
        k = k + 1;
    }
    true
}

// ---------------------------------------------------------------------------
// Step sets and MOS properties
// ---------------------------------------------------------------------------

/// The set of distinct steps in `scale`.
pub fn step_set(scale: &[Letter]) -> (r: BTreeSet<usize>)
    ensures
        r@ == scale@.to_set(),
{
    let mut r: BTreeSet<usize> = BTreeSet::new();
    let mut i: usize = 0;
    assert(scale@.subrange(0, 0).to_set() =~= Set::<usize>::empty());
    while i < scale.len()
        invariant
            i <= scale@.len(),
            r@ == scale@.subrange(0, i as int).to_set(),
        decreases scale@.len() - i,
    {
        proof {
            assert(scale@.subrange(0, i + 1) =~= scale@.subrange(0, i as int).push(scale@[i as int]));
            scale@.subrange(0, i as int).lemma_push_to_set_commute(scale@[i as int]);
        }
        r.insert(scale[i]);
        i = i + 1;
    }
    assert(scale@.subrange(0, scale@.len() as int) =~= scale@);
    r
}

/// The number of distinct steps in `scale`.
pub fn step_variety(scale: &[Letter]) -> (r: usize)
    ensures
        r == scale@.to_set().len(),
{
    let set = step_set(scale);
    set.len()
}

/// A MOS: maximum variety exactly 2.
pub open spec fn is_mos(s: Seq<Letter>) -> bool {
    spec_maximum_variety(s) == 2
}

/// Substitution property with template letter `t` and filling letters `f1`, `f2`:
/// deleting `t` leaves a MOS, and identifying `f1` with `f2` leaves a MOS.
pub open spec fn spec_mos_subst_helper(s: Seq<Letter>, t: Letter, f1: Letter, f2: Letter) -> bool {
    is_mos(spec_delete(s, t)) && is_mos(spec_replace(s, f1, f2))
}

proof fn lemma_delete_len(s: Seq<Letter>, x: Letter)
    ensures
        spec_delete(s, x).len() <= s.len(),
    decreases s.len(),
{
    if s.len() > 0 {
        lemma_delete_len(s.drop_last(), x);
    }
}

fn mos_subst_helper(scale: &[Letter], t: Letter, f1: Letter, f2: Letter) -> (r: bool)
    requires
        scale@.len() < i32::MAX,
    ensures
        r == spec_mos_subst_helper(scale@, t, f1, f2),
{
    proof {
        lemma_delete_len(scale@, t);
    }
    maximum_variety_is(&delete(scale, t), 2) && maximum_variety_is(&replace(scale, f1, f2), 2)
}

/// Whether `scale` is ternary and a MOS substitution scale with template letter `t`
/// and filling letters `f1`, `f2`.
pub fn is_mos_subst_one_perm(scale: &[Letter], t: Letter, f1: Letter, f2: Letter) -> (r: bool)
    requires
        scale@.len() < i32::MAX,
    ensures
        r == (scale@.to_set().len() == 3 && spec_mos_subst_helper(scale@, t, f1, f2)),
{
    step_variety(scale) == 3 && mos_subst_helper(scale, t, f1, f2)
}

/// Whether `s` has exactly three distinct letters `x < y < z` and is a MOS substitution
/// scale with one of them as template letter: `x(y z)`, `y(x z)` or `z(x y)`.
pub open spec fn spec_is_mos_subst(s: Seq<Letter>) -> bool {
    let d = distinct_letters(s);
    &&& d.len() == 3
    &&& {
        ||| spec_mos_subst_helper(s, d[0], d[1], d[2])
        ||| spec_mos_subst_helper(s, d[1], d[0], d[2])
        ||| spec_mos_subst_helper(s, d[2], d[0], d[1])
    }
}

/// The letters of a list of words.
pub open spec fn word_views(ws: Seq<Vec<Letter>>) -> Seq<Seq<Letter>> {
    ws.map_values(|w: Vec<Letter>| w@)
}

/// Words in strictly increasing lexicographic order.
pub open spec fn strictly_increasing_words(ws: Seq<Seq<Letter>>) -> bool {
    forall|i: int, j: int| 0 <= i < j < ws.len() ==> lex_lt(#[trigger] ws[i], #[trigger] ws[j])
}

/// Sorts a list of words with `Itertools::sorted`, in the order of std's `Ord` for `Vec<usize>`
/// (lexicographic, a proper prefix first).
/// Trusted: the result holds the same words, each as often as before, and no word in it
/// is lexicographically below a word before it.
#[verifier::external_body]
fn sorted_words(words: Vec<Vec<Letter>>) -> (r: Vec<Vec<Letter>>)
    ensures
        word_views(r@).to_multiset() == word_views(words@).to_multiset(),
        forall|i: int, j: int| 0 <= i < j < r@.len() ==> !lex_lt(#[trigger] r@[j]@, #[trigger] r@[i]@),
{
    words.into_iter().sorted().collect()
}

/// A sequence with one more element contains exactly what it contained before and that element.
pub proof fn lemma_push_contains<A>(s: Seq<A>, a: A, x: A)
    ensures
        s.push(a).contains(x) <==> (s.contains(x) || x == a),
{
    if s.contains(x) {
        let i = choose|i: int| 0 <= i < s.len() && s[i] == x;
        assert(s.push(a)[i] == x);
    }
    if x == a {
        assert(s.push(a)[s.len() as int] == a);
    }
    if s.push(a).contains(x) {
        let i = choose|i: int| 0 <= i < s.push(a).len() && s.push(a)[i] == x;
        if i < s.len() {
            assert(s[i] == x);
        }
    }
}

/// Removes consecutive repeated words from a sorted list: the result is strictly increasing
/// and holds the same words.
fn dedup_sorted_words(words: &Vec<Vec<Letter>>) -> (r: Vec<Vec<Letter>>)
    requires
        forall|i: int, j: int| 0 <= i < j < words@.len() ==> !lex_lt(#[trigger] words@[j]@, #[trigger] words@[i]@),
    ensures
        strictly_increasing_words(word_views(r@)),
        forall|x: Seq<Letter>| word_views(r@).contains(x) <==> word_views(words@).contains(x),
{
    let n = words.len();
    let mut r: Vec<Vec<Letter>> = Vec::new();
    let mut i: usize = 0;
    while i < n
        invariant
            i <= n,
            n == words@.len(),
            forall|a: int, b: int| 0 <= a < b < words@.len() ==> !lex_lt(#[trigger] words@[b]@, #[trigger] words@[a]@),
            strictly_increasing_words(word_views(r@)),
            i > 0 ==> r@.len() > 0 && r@.last()@ == words@[i - 1]@,
            i == 0 ==> r@.len() == 0,
            forall|x: Seq<Letter>| word_views(r@).contains(x) <==> word_views(words@.subrange(0, i as int)).contains(x),
        decreases n - i,
    {
        let ghost before = word_views(r@);
        let ghost prefix = word_views(words@.subrange(0, i as int));
        assert(word_views(words@.subrange(0, i + 1)) =~= prefix.push(words@[i as int]@));
        let keep = if r.len() == 0 {
            true
        } else {
            let last = r.len() - 1;
            !symbols_eq(&r[last], &words[i])
        };
        if keep {
            let w = copy_symbols(&words[i]);
            proof {
                lemma_models_usize(w@);
                lemma_models_usize(words@[i as int]@);
                if i > 0 {
                    let l = r@.last()@;
                    lemma_models_usize(r@[r@.len() - 1]@);
                    assert(l != w@);
                    assert(!lex_lt(words@[i as int]@, words@[i - 1]@));
                    lemma_lex_lt_total(l, w@);
                    assert forall|a: int| 0 <= a < before.len() implies lex_lt(#[trigger] before[a], w@) by {
                        if a < before.len() - 1 {
                            assert(lex_lt(before[a], before[before.len() - 1]));
                            lemma_lex_lt_transitive(before[a], l, w@);
                        }
                    }
                }
            }
            r.push(w);
            assert(word_views(r@) =~= before.push(w@));
            assert forall|x: Seq<Letter>| word_views(r@).contains(x) <==> word_views(words@.subrange(0, i + 1)).contains(x) by {
                lemma_push_contains(before, w@, x);
                lemma_push_contains(prefix, words@[i as int]@, x);
            }
        } else {
            proof {
                let last = r@.len() - 1;
                lemma_models_usize(r@[last]@);
                lemma_models_usize(words@[i as int]@);
                assert(r@[last]@ == words@[i as int]@);
                assert(before[last] == words@[i as int]@);
                assert forall|x: Seq<Letter>| word_views(r@).contains(x) <==> word_views(words@.subrange(0, i + 1)).contains(x) by {
                    lemma_push_contains(prefix, words@[i as int]@, x);
                    if x == words@[i as int]@ {
                        assert(before[last] == x);
                    }
                }
            }
        }
        i = i + 1;
    }
    assert(words@.subrange(0, n as int) =~= words@);
    r
}

/// Every letter of `s` is 0 or 1.
pub open spec fn binary_word(s: Seq<Letter>) -> bool {
    forall|i: int| 0 <= i < s.len() ==> #[trigger] s[i] <= 1
}

proof fn lemma_repeat_binary(s: Seq<Letter>, d: nat)
    requires
        binary_word(s),
    ensures
        binary_word(repeat_seq(s, d)),
    decreases d,
{
    if d > 0 {
        lemma_repeat_binary(s, (d - 1) as nat);
        let p = repeat_seq(s, (d - 1) as nat);
        assert forall|i: int| 0 <= i < repeat_seq(s, d).len() implies #[trigger] repeat_seq(s, d)[i] <= 1 by {
            assert(repeat_seq(s, d) == p + s);
            if i >= p.len() {
                assert((p + s)[i] == s[i - p.len()]);
            }
        }
    }
}

/// A MOS word is made of the letters 0 and 1.
proof fn lemma_mos_word_binary(a: nat, b: nat)
    ensures
        binary_word(mos_word(a, b)),
{
    let d = spec_gcd(a, b);
    lemma_repeat_binary(christoffel(a / d, b / d), d);
}

/// The word with every letter raised by one.
pub open spec fn shift_up(s: Seq<Letter>) -> Seq<Letter> {
    s.map_values(|x: Letter| (x + 1) as usize)
}

/// The `i`th MOS substitution scale `subst n0*0 (n1*1 n2*2)`: the brightest template MOS
/// `n0*0 (n1 + n2)*X`, with its slots filled by the filling MOS `n1*1 n2*2` started
/// `i` bright generators up.
pub open spec fn mos_subst_candidate(n0: nat, n1: nat, n2: nat, i: int) -> Seq<Letter> {
    let filler = shift_up(mos_word(n1, n2));
    let g = entries_norm(bright_gener(n1, n2));
    spec_subst(mos_word(n0, n1 + n2), 1, spec_rotate(filler, (i * g) % ((n1 + n2) as int)))
}

/// `w` is a rotation of one of the MOS substitution scales `subst n0*0 (n1*1 n2*2)`.
pub open spec fn is_mos_subst_rotation(w: Seq<Letter>, n0: nat, n1: nat, n2: nat) -> bool {
    exists|i: int| 0 <= i < n1 + n2 && is_rotation_of(w, #[trigger] mos_subst_candidate(n0, n1, n2, i))
}

/// `w` is the least mode of one of the MOS substitution scales `subst n0*0 (n1*1 n2*2)`.
pub open spec fn is_candidate_least_mode(w: Seq<Letter>, n0: nat, n1: nat, n2: nat) -> bool {
    exists|i: int| 0 <= i < n1 + n2 && w == #[trigger] least_mode_of(mos_subst_candidate(n0, n1, n2, i))
}

/// Some word of `ws` is a rotation of the `i`th MOS substitution scale `subst n0*0 (n1*1 n2*2)`.
pub open spec fn has_rotation_of_candidate(ws: Seq<Seq<Letter>>, n0: nat, n1: nat, n2: nat, i: int) -> bool {
    exists|j: int| 0 <= j < ws.len() && is_rotation_of(#[trigger] ws[j], mos_subst_candidate(n0, n1, n2, i))
}

/// The MOS substitution scales `subst n0*0 (n1*1 n2*2)`, each in its least mode,
/// without repetitions and in increasing lexicographic order.
pub fn mos_substitution_scales_one_perm(n0: usize, n1: usize, n2: usize) -> (r: Vec<Vec<Letter>>)
    requires
        n1 + n2 > 0,
        4 * (n0 + n1 + n2) <= i32::MAX,
        (n0 + 1) * (n1 + n2 + 1) <= usize::MAX,
        (n1 + 1) * (n2 + 1) <= usize::MAX,
        (n1 + n2) * (n1 + n2) <= usize::MAX,
    ensures
        strictly_increasing_words(word_views(r@)),
        forall|j: int| 0 <= j < r@.len() ==> (#[trigger] r@[j]@).len() == n0 + n1 + n2,
        forall|j: int| 0 <= j < r@.len() ==> is_mos_subst_rotation(#[trigger] r@[j]@, n0 as nat, n1 as nat, n2 as nat),
        forall|i: int| 0 <= i < n1 + n2 ==> #[trigger] has_rotation_of_candidate(word_views(r@), n0 as nat, n1 as nat, n2 as nat, i),
        forall|j: int| 0 <= j < r@.len() ==> is_candidate_least_mode(#[trigger] r@[j]@, n0 as nat, n1 as nat, n2 as nat),
        forall|i: int|
            0 <= i < n1 + n2 ==> word_views(r@).contains(
                least_mode_of(#[trigger] mos_subst_candidate(n0 as nat, n1 as nat, n2 as nat, i)),
            ),
{
    let (template, _) = brightest_mos_mode_and_gener_bresenham(n0, n1 + n2);
    let (filler0, gener) = brightest_mos_mode_and_gener_bresenham(n1, n2);
    proof {
        lemma_mos_word_facts(n0 as nat, (n1 + n2) as nat);
        lemma_mos_word_facts(n1 as nat, n2 as nat);
        lemma_mos_word_binary(n1 as nat, n2 as nat);
    }
    let m = n1 + n2;
    let mut filler: Vec<Letter> = Vec::new();
    let mut k: usize = 0;
    while k < m
        invariant
            k <= m,
            m == filler0@.len(),
            binary_word(filler0@),
            filler@ == shift_up(filler0@).subrange(0, k as int),
        decreases m - k,
    {
        filler.push(filler0[k] + 1);
        assert(filler@ =~= shift_up(filler0@).subrange(0, k + 1));
        k = k + 1;
    }
    assert(filler@ =~= shift_up(filler0@));
    let gener_size = gener.len();
    let ghost cands = Seq::new(m as nat, |i: int| mos_subst_candidate(n0 as nat, n1 as nat, n2 as nat, i));
    let mut least_modes: Vec<Vec<Letter>> = Vec::new();
    let mut i: usize = 0;
    while i < m
        invariant
            i <= m,
            m == n1 + n2,
            m == filler@.len(),
            filler@ == shift_up(mos_word(n1 as nat, n2 as nat)),
            template@ == mos_word(n0 as nat, (n1 + n2) as nat),
            template@.len() == n0 + n1 + n2,
            4 * (n0 + n1 + n2) <= i32::MAX,
            gener_size == entries_norm(bright_gener(n1 as nat, n2 as nat)),
            gener_size <= m,
            m * m <= usize::MAX,
            cands == Seq::new(m as nat, |i: int| mos_subst_candidate(n0 as nat, n1 as nat, n2 as nat, i)),
            least_modes@.len() == i,
            forall|j: int| 0 <= j < i ==> is_rotation_of(#[trigger] least_modes@[j]@, cands[j]),
            forall|j: int| 0 <= j < i ==> (#[trigger] least_modes@[j]@).len() == n0 + n1 + n2,
            forall|j: int| 0 <= j < i ==> (#[trigger] least_modes@[j]@) == least_mode_of(cands[j]),
        decreases m - i,
    {
        assert(i * gener_size <= m * m) by (nonlinear_arith)
            requires
                i < m,
                gener_size <= m,
        ;
        let shifted = rotate(&filler, (i * gener_size) % m);
        proof {
            lemma_models_usize(shifted@);
            lemma_models_usize(filler@);
        }
        let cand = subst(&template, 1, &shifted);
        assert(cand@ == cands[i as int]);
        let lm = least_mode(&cand);
        least_modes.push(lm);
        i = i + 1;
    }
    let sorted = sorted_words(least_modes);
    let r = dedup_sorted_words(&sorted);
    proof {
        let lv = word_views(least_modes@);
        let sv = word_views(sorted@);
        assert forall|j: int| 0 <= j < r@.len() implies (#[trigger] r@[j]@).len() == n0 + n1 + n2 by {
            assert(word_views(r@)[j] == r@[j]@);
            assert(word_views(r@).contains(r@[j]@));
            vstd::seq_lib::to_multiset_contains(sv, r@[j]@);
            vstd::seq_lib::to_multiset_contains(lv, r@[j]@);
            let i = choose|i: int| 0 <= i < lv.len() && lv[i] == r@[j]@;
            assert(least_modes@[i]@.len() == n0 + n1 + n2);
        }
        assert forall|j: int| 0 <= j < r@.len() implies is_mos_subst_rotation(#[trigger] r@[j]@, n0 as nat, n1 as nat, n2 as nat) by {
            assert(word_views(r@)[j] == r@[j]@);
            assert(word_views(r@).contains(r@[j]@));
            vstd::seq_lib::to_multiset_contains(sv, r@[j]@);
            vstd::seq_lib::to_multiset_contains(lv, r@[j]@);
            assert(lv.contains(r@[j]@));
            let i = choose|i: int| 0 <= i < lv.len() && lv[i] == r@[j]@;
            assert(is_rotation_of(least_modes@[i]@, cands[i]));
            assert(is_rotation_of(r@[j]@, mos_subst_candidate(n0 as nat, n1 as nat, n2 as nat, i)));
        }
        assert forall|i: int| 0 <= i < n1 + n2 implies #[trigger] has_rotation_of_candidate(word_views(r@), n0 as nat, n1 as nat, n2 as nat, i) by {
            assert(lv[i] == least_modes@[i]@);
            assert(lv.contains(least_modes@[i]@));
            vstd::seq_lib::to_multiset_contains(lv, least_modes@[i]@);
            vstd::seq_lib::to_multiset_contains(sv, least_modes@[i]@);
            assert(word_views(r@).contains(least_modes@[i]@));
            let j = choose|j: int| 0 <= j < word_views(r@).len() && word_views(r@)[j] == least_modes@[i]@;
            assert(is_rotation_of(least_modes@[i]@, cands[i]));
            assert(is_rotation_of(word_views(r@)[j], mos_subst_candidate(n0 as nat, n1 as nat, n2 as nat, i)));
        }
        assert forall|j: int| 0 <= j < r@.len() implies is_candidate_least_mode(#[trigger] r@[j]@, n0 as nat, n1 as nat, n2 as nat) by {
            assert(word_views(r@)[j] == r@[j]@);
            assert(word_views(r@).contains(r@[j]@));
            vstd::seq_lib::to_multiset_contains(sv, r@[j]@);
            vstd::seq_lib::to_multiset_contains(lv, r@[j]@);
            let i = choose|i: int| 0 <= i < lv.len() && lv[i] == r@[j]@;
            assert(cands[i] == mos_subst_candidate(n0 as nat, n1 as nat, n2 as nat, i));
            assert(least_modes@[i]@ == least_mode_of(cands[i]));
            assert(r@[j]@ == least_mode_of(mos_subst_candidate(n0 as nat, n1 as nat, n2 as nat, i)));
        }
        assert forall|i: int| 0 <= i < n1 + n2 implies word_views(r@).contains(
            least_mode_of(#[trigger] mos_subst_candidate(n0 as nat, n1 as nat, n2 as nat, i)),
        ) by {
            assert(lv[i] == least_modes@[i]@);
            assert(lv.contains(least_modes@[i]@));
            vstd::seq_lib::to_multiset_contains(lv, least_modes@[i]@);
            vstd::seq_lib::to_multiset_contains(sv, least_modes@[i]@);
            assert(least_modes@[i]@ == least_mode_of(cands[i]));
        }
    }
    r
}

/// The letters of `w` renamed for the template-letter choice `k`:
/// `k == 0` keeps them, `k == 1` sends `x` to `(x + 1) % 3`, `k == 2` sends 0 to 2 and `x` to `(x - 1) % 3` otherwise.
pub open spec fn relabel(w: Seq<Letter>, k: int) -> Seq<Letter> {
    if k == 0 {
        w
    } else if k == 1 {
        w.map_values(|x: Letter| ((x + 1) % 3) as usize)
    } else {
        w.map_values(|x: Letter| if x == 0 { 2usize } else { ((x - 1) % 3) as usize })
    }
}

/// The step signature read from template letter `k` on: `(n0, n1, n2)`, `(n1, n2, n0)` or `(n2, n0, n1)`.
pub open spec fn rotated_sig(n0: nat, n1: nat, n2: nat, k: int) -> (nat, nat, nat) {
    if k == 0 {
        (n0, n1, n2)
    } else if k == 1 {
        (n1, n2, n0)
    } else {
        (n2, n0, n1)
    }
}

/// `w` is, up to rotation, the relabelling for template letter `k` of a rotation of
/// the `i`th MOS substitution scale of the signature read from `k` on.
pub open spec fn reaches_candidate(w: Seq<Letter>, n0: nat, n1: nat, n2: nat, k: int, i: int) -> bool {
    let t = rotated_sig(n0, n1, n2, k);
    exists|v: Seq<Letter>| is_rotation_of(v, mos_subst_candidate(t.0, t.1, t.2, i)) && #[trigger] is_rotation_of(w, relabel(v, k))
}

/// The number of MOS substitution scales for template letter `k`: the size of the filling MOS.
pub open spec fn filler_size(n0: nat, n1: nat, n2: nat, k: int) -> nat {
    let t = rotated_sig(n0, n1, n2, k);
    t.1 + t.2
}

/// `w` is reached, in the sense of `reaches_candidate`, from some MOS substitution scale of the
/// signature `(n0, n1, n2)`, with any template letter.
pub open spec fn reached_from_signature(w: Seq<Letter>, n0: nat, n1: nat, n2: nat) -> bool {
    exists|k: int, i: int| 0 <= k < 3 && 0 <= i < filler_size(n0, n1, n2, k) && #[trigger] reaches_candidate(w, n0, n1, n2, k, i)
}

/// Some word of `ws` is reached from the `i`th MOS substitution scale with template letter `k`.
pub open spec fn candidate_reached(ws: Seq<Seq<Letter>>, n0: nat, n1: nat, n2: nat, k: int, i: int) -> bool {
    exists|j: int| 0 <= j < ws.len() && #[trigger] reaches_candidate(ws[j], n0, n1, n2, k, i)
}

/// A binary word holds only zeros and ones.
proof fn lemma_binary_occurrences(s: Seq<Letter>, y: Letter)
    requires
        binary_word(s),
    ensures
        occurrences(s, 0usize) + occurrences(s, 1usize) == s.len(),
        y > 1 ==> occurrences(s, y) == 0,
    decreases s.len(),
{
    if s.len() > 0 {
        assert(s.last() == s[s.len() - 1]);
        assert(binary_word(s.drop_last()));
        lemma_binary_occurrences(s.drop_last(), y);
    }
}

/// The MOS `a`L `b`s has `a` letters 0, `b` letters 1, and no other letter.
proof fn lemma_mos_word_counts(a: nat, b: nat, y: Letter)
    requires
        a + b > 0,
    ensures
        mos_word(a, b).len() == a + b,
        binary_word(mos_word(a, b)),
        occurrences(mos_word(a, b), 0usize) == a,
        occurrences(mos_word(a, b), 1usize) == b,
        y > 1 ==> occurrences(mos_word(a, b), y) == 0,
{
    lemma_mos_quotients(a, b);
    lemma_mos_word_binary(a, b);
    let d = spec_gcd(a, b);
    let p = a / d;
    let q = b / d;
    let c = christoffel(p, q);
    lemma_christoffel_facts(p, q);
    lemma_christoffel_line(p, q, (p + q) as int);
    assert(c.subrange(0, (p + q) as int) =~= c);
    assert((((p + q) * q) as int) / ((p + q) as int) == q) by {
        vstd::arithmetic::div_mod::lemma_div_multiples_vanish(q as int, (p + q) as int);
        vstd::arithmetic::mul::lemma_mul_is_commutative((p + q) as int, q as int);
    }
    lemma_binary_occurrences(c, y);
    lemma_occurrences_repeat(c, d, 0usize);
    lemma_occurrences_repeat(c, d, 1usize);
    lemma_occurrences_repeat(c, d, y);
    lemma_binary_occurrences(mos_word(a, b), y);
    assert(d * (p + q) == a + b) by (nonlinear_arith)
        requires
            (p + q) * d == a + b,
    ;
    assert(d * q == b) by (nonlinear_arith)
        requires
            q * d == b,
    ;
    assert(d * 0 == 0);
}

/// Rotating a nonempty word keeps its letter counts.
proof fn lemma_occurrences_rotate(s: Seq<Letter>, r: int, y: Letter)
    requires
        s.len() > 0,
    ensures
        occurrences(spec_rotate(s, r), y) == occurrences(s, y),
{
    let k = r % (s.len() as int);
    let lo = s.subrange(0, k);
    let hi = s.subrange(k, s.len() as int);
    assert(s =~= lo + hi);
    lemma_occurrences_add(lo, hi, y);
    lemma_occurrences_add(hi, lo, y);
}

/// A rotation of a nonempty word has its length and letter counts.
proof fn lemma_rotation_of_counts(w: Seq<Letter>, s: Seq<Letter>, y: Letter)
    requires
        s.len() > 0,
        is_rotation_of(w, s),
    ensures
        w.len() == s.len(),
        occurrences(w, y) == occurrences(s, y),
{
    let b = choose|b: int| 0 <= b < 2 * s.len() && w == #[trigger] spec_rotate(s, b);
    lemma_rotate_len(s, b);
    lemma_occurrences_rotate(s, b, y);
}

/// Raising every letter by one moves each count up by one letter.
proof fn lemma_occurrences_shift_up(s: Seq<Letter>, y: Letter)
    requires
        binary_word(s),
    ensures
        occurrences(shift_up(s), 0usize) == 0,
        y >= 1 ==> occurrences(shift_up(s), y) == occurrences(s, (y - 1) as usize),
        shift_up(s).len() == s.len(),
    decreases s.len(),
{
    if s.len() > 0 {
        assert(shift_up(s).drop_last() =~= shift_up(s.drop_last()));
        assert(s.last() == s[s.len() - 1]);
        assert(binary_word(s.drop_last()));
        lemma_occurrences_shift_up(s.drop_last(), y);
    }
}

/// The counts of a prefix of a substitution: each slot of letter `x` takes its letter from
/// the filler in turn, every other letter stays.
proof fn lemma_subst_prefix_counts(t: Seq<Letter>, x: Letter, f: Seq<Letter>, p: int, y: Letter)
    requires
        f.len() > 0,
        0 <= p <= t.len(),
        occurrences(t.subrange(0, p), x) <= f.len(),
    ensures
        occurrences(spec_subst(t, x, f).subrange(0, p), y) == occurrences(
            f.subrange(0, occurrences(t.subrange(0, p), x) as int),
            y,
        ) + if y != x { occurrences(t.subrange(0, p), y) } else { 0 },
    decreases p,
{
    let u = spec_subst(t, x, f);
    if p == 0 {
        assert(u.subrange(0, 0) =~= Seq::<Letter>::empty());
        assert(t.subrange(0, 0) =~= Seq::<Letter>::empty());
        assert(f.subrange(0, 0) =~= Seq::<Letter>::empty());
    } else {
        let tp = t.subrange(0, p);
        let tq = t.subrange(0, p - 1);
        assert(tp.drop_last() =~= tq);
        assert(tp.last() == t[p - 1]);
        let c = occurrences(tq, x) as int;
        assert(occurrences(tq, x) <= occurrences(tp, x));
        lemma_subst_prefix_counts(t, x, f, p - 1, y);
        assert(u.subrange(0, p).drop_last() =~= u.subrange(0, p - 1));
        assert(u.subrange(0, p).last() == u[p - 1]);
        if t[p - 1] == x {
            assert(c < f.len());
            vstd::arithmetic::div_mod::lemma_small_mod(c as nat, f.len());
            assert(u[p - 1] == f[c]);
            assert(f.subrange(0, c + 1).drop_last() =~= f.subrange(0, c));
            assert(f.subrange(0, c + 1).last() == f[c]);
        } else {
            assert(u[p - 1] == t[p - 1]);
        }
    }
}

/// The `i`th MOS substitution scale `subst n0*0 (n1*1 n2*2)` has `n0` letters 0,
/// `n1` letters 1 and `n2` letters 2, and no other letter.
proof fn lemma_candidate_counts(n0: nat, n1: nat, n2: nat, i: int, y: Letter)
    requires
        n1 + n2 > 0,
    ensures
        mos_subst_candidate(n0, n1, n2, i).len() == n0 + n1 + n2,
        occurrences(mos_subst_candidate(n0, n1, n2, i), 0usize) == n0,
        occurrences(mos_subst_candidate(n0, n1, n2, i), 1usize) == n1,
        occurrences(mos_subst_candidate(n0, n1, n2, i), 2usize) == n2,
        y > 2 ==> occurrences(mos_subst_candidate(n0, n1, n2, i), y) == 0,
{
    let t = mos_word(n0, n1 + n2);
    let mw = mos_word(n1, n2);
    let g = entries_norm(bright_gener(n1, n2));
    let sh = shift_up(mw);
    let f = spec_rotate(sh, (i * g) % ((n1 + n2) as int));
    lemma_mos_word_counts(n0, n1 + n2, y);
    lemma_mos_word_counts(n1, n2, (y - 1) as usize);
    lemma_rotate_len(sh, (i * g) % ((n1 + n2) as int));
    let n = t.len() as int;
    assert(t.subrange(0, n) =~= t);
    assert forall|z: Letter| z <= 2 || z == y implies occurrences(mos_subst_candidate(n0, n1, n2, i), z) == occurrences(f, z) + if z != 1 { occurrences(t, z) } else { 0 } by {
        lemma_subst_prefix_counts(t, 1usize, f, n, z);
        assert(spec_subst(t, 1usize, f).subrange(0, n) =~= spec_subst(t, 1usize, f));
        assert(f.subrange(0, f.len() as int) =~= f);
    }
    lemma_occurrences_shift_up(mw, 1usize);
    lemma_occurrences_shift_up(mw, 2usize);
    lemma_occurrences_shift_up(mw, y);
    lemma_occurrences_rotate(sh, (i * g) % ((n1 + n2) as int), 0usize);
    lemma_occurrences_rotate(sh, (i * g) % ((n1 + n2) as int), 1usize);
    lemma_occurrences_rotate(sh, (i * g) % ((n1 + n2) as int), 2usize);
    lemma_occurrences_rotate(sh, (i * g) % ((n1 + n2) as int), y);
    lemma_binary_occurrences(t, 2usize);
    lemma_binary_occurrences(t, y);
    if y > 2 {
        lemma_binary_occurrences(mw, (y - 1) as usize);
    }
}

/// Renaming the letters of a word over 0, 1, 2 for template letter `k` moves each count
/// to the renamed letter.
proof fn lemma_relabel_counts(v: Seq<Letter>, k: int)
    requires
        0 <= k < 3,
        forall|j: int| 0 <= j < v.len() ==> #[trigger] v[j] <= 2,
    ensures
        relabel(v, k).len() == v.len(),
        k == 1 ==> occurrences(relabel(v, k), 1usize) == occurrences(v, 0usize)
            && occurrences(relabel(v, k), 2usize) == occurrences(v, 1usize)
            && occurrences(relabel(v, k), 0usize) == occurrences(v, 2usize),
        k == 2 ==> occurrences(relabel(v, k), 2usize) == occurrences(v, 0usize)
            && occurrences(relabel(v, k), 0usize) == occurrences(v, 1usize)
            && occurrences(relabel(v, k), 1usize) == occurrences(v, 2usize),
    decreases v.len(),
{
    if v.len() > 0 && k != 0 {
        assert(relabel(v, k).drop_last() =~= relabel(v.drop_last(), k));
        assert(v.last() == v[v.len() - 1]);
        assert(relabel(v, k).last() == relabel(v, k)[v.len() - 1]);
        lemma_relabel_counts(v.drop_last(), k);
    }
}

/// A word with letter counts `n0`, `n1`, `n2` and no other letter has only letters up to 2.
proof fn lemma_counted_letters(v: Seq<Letter>, n0: nat, n1: nat, n2: nat)
    requires
        v.len() == n0 + n1 + n2,
        occurrences(v, 0usize) == n0,
        occurrences(v, 1usize) == n1,
        occurrences(v, 2usize) == n2,
    ensures
        forall|j: int| 0 <= j < v.len() ==> #[trigger] v[j] <= 2,
{
    lemma_ternary_total(v);
}

/// In any word, the letters 0, 1 and 2 are at most all its letters, and all of them
/// exactly when no other letter occurs.
proof fn lemma_ternary_total(v: Seq<Letter>)
    ensures
        occurrences(v, 0usize) + occurrences(v, 1usize) + occurrences(v, 2usize) <= v.len(),
        occurrences(v, 0usize) + occurrences(v, 1usize) + occurrences(v, 2usize) == v.len()
            ==> forall|j: int| 0 <= j < v.len() ==> #[trigger] v[j] <= 2,
    decreases v.len(),
{
    if v.len() > 0 {
        let pv = v.drop_last();
        lemma_ternary_total(pv);
        assert(v.last() == v[v.len() - 1]);
        if occurrences(v, 0usize) + occurrences(v, 1usize) + occurrences(v, 2usize) == v.len() {
            assert forall|j: int| 0 <= j < v.len() implies #[trigger] v[j] <= 2 by {
                if j < v.len() - 1 {
                    assert(pv[j] == v[j]);
                }
            }
        }
    }
}

/// Every word reached from a MOS substitution scale of the signature `(n0, n1, n2)`, with any
/// template letter, has `n0` letters 0, `n1` letters 1 and `n2` letters 2, and no other letter.
pub proof fn lemma_reached_word_counts(w: Seq<Letter>, n0: nat, n1: nat, n2: nat)
    requires
        reached_from_signature(w, n0, n1, n2),
    ensures
        w.len() == n0 + n1 + n2,
        occurrences(w, 0usize) == n0,
        occurrences(w, 1usize) == n1,
        occurrences(w, 2usize) == n2,
{
    let (k, i) = choose|k: int, i: int| 0 <= k < 3 && 0 <= i < filler_size(n0, n1, n2, k) && #[trigger] reaches_candidate(w, n0, n1, n2, k, i);
    let t = rotated_sig(n0, n1, n2, k);
    let cand = mos_subst_candidate(t.0, t.1, t.2, i);
    let v = choose|v: Seq<Letter>| is_rotation_of(v, cand) && #[trigger] is_rotation_of(w, relabel(v, k));
    lemma_candidate_counts(t.0, t.1, t.2, i, 0usize);
    assert(cand.len() == n0 + n1 + n2);
    assert(cand.len() > 0);
    lemma_rotation_of_counts(v, cand, 0usize);
    lemma_rotation_of_counts(v, cand, 1usize);
    lemma_rotation_of_counts(v, cand, 2usize);
    lemma_counted_letters(v, t.0, t.1, t.2);
    lemma_relabel_counts(v, k);
    lemma_rotation_of_counts(w, relabel(v, k), 0usize);
    lemma_rotation_of_counts(w, relabel(v, k), 1usize);
    lemma_rotation_of_counts(w, relabel(v, k), 2usize);
}

fn relabel_words(ws: &Vec<Vec<Letter>>, k: usize) -> (r: Vec<Vec<Letter>>)
    requires
        1 <= k <= 2,
    ensures
        r@.len() == ws@.len(),
        forall|j: int| 0 <= j < ws@.len() ==> #[trigger] r@[j]@ == relabel(ws@[j]@, k as int),
{
    let mut r: Vec<Vec<Letter>> = Vec::new();
    let mut j: usize = 0;
    while j < ws.len()
        invariant
            1 <= k <= 2,
            j <= ws@.len(),
            r@.len() == j,
            forall|q: int| 0 <= q < j ==> #[trigger] r@[q]@ == relabel(ws@[q]@, k as int),
        decreases ws@.len() - j,
    {
        let w = &ws[j];
        let mut v: Vec<Letter> = Vec::new();
        let mut i: usize = 0;
        while i < w.len()
            invariant
                1 <= k <= 2,
                i <= w@.len(),
                v@ == relabel(w@, k as int).subrange(0, i as int),
            decreases w@.len() - i,
        {
            let x = w[i];
            let y = if k == 1 {
                (x % 3 + 1) % 3
            } else if x == 0 {
                2
            } else {
                (x - 1) % 3
            };
            assert(k == 1 ==> y == (x + 1) % 3);
            v.push(y);
            assert(v@ =~= relabel(w@, k as int).subrange(0, i + 1));
            i = i + 1;
        }
        assert(v@ =~= relabel(w@, k as int));
        r.push(v);
        j = j + 1;
    }
    r
}

/// Some index `x` in `[0, hi)` is tagged `(k, p)`.
spec fn tagged(ks: Seq<int>, ps: Seq<int>, k: int, p: int, hi: int) -> bool {
    exists|x: int| 0 <= x < hi && ks[x] == k && ps[x] == p
}

proof fn lemma_product_bound(x: nat, y: nat, t: nat)
    requires
        x + 1 <= t,
        y + 1 <= t,
    ensures
        (x + 1) * (y + 1) <= t * t,
        x * y <= t * t,
{
    assert((x + 1) * (y + 1) <= t * t) by (nonlinear_arith)
        requires
            x + 1 <= t,
            y + 1 <= t,
    ;
    assert(x * y <= (x + 1) * (y + 1)) by (nonlinear_arith);
}

/// The set of all MOS substitution ternary scales with step signature `sig`
/// (with any of the three letters as template letter), each in its least mode,
/// without repetitions and in increasing lexicographic order.
#[verifier::spinoff_prover]
#[verifier::rlimit(40)]
pub fn mos_substitution_scales(sig: &[usize]) -> (r: Vec<Vec<Letter>>)
    requires
        sig@.len() >= 3,
        sig@[0] + sig@[1] > 0,
        sig@[1] + sig@[2] > 0,
        sig@[2] + sig@[0] > 0,
        4 * (sig@[0] + sig@[1] + sig@[2]) <= i32::MAX,
        (sig@[0] + sig@[1] + sig@[2] + 1) * (sig@[0] + sig@[1] + sig@[2] + 1) <= usize::MAX,
    ensures
        strictly_increasing_words(word_views(r@)),
        forall|j: int| 0 <= j < r@.len() ==> reached_from_signature(#[trigger] r@[j]@, sig@[0] as nat, sig@[1] as nat, sig@[2] as nat),
        forall|k: int, i: int| 0 <= k < 3 && 0 <= i < filler_size(sig@[0] as nat, sig@[1] as nat, sig@[2] as nat, k) ==>
            #[trigger] candidate_reached(word_views(r@), sig@[0] as nat, sig@[1] as nat, sig@[2] as nat, k, i),
        forall|j: int| 0 <= j < r@.len() ==> (#[trigger] r@[j]@) == least_mode_of(r@[j]@),
        forall|j: int| 0 <= j < r@.len() ==> {
            &&& occurrences(#[trigger] r@[j]@, 0usize) == sig@[0]
            &&& occurrences(r@[j]@, 1usize) == sig@[1]
            &&& occurrences(r@[j]@, 2usize) == sig@[2]
        },
{
    let (n0, n1, n2) = (sig[0], sig[1], sig[2]);
    let ghost (g0, g1, g2) = (n0 as nat, n1 as nat, n2 as nat);
    let t = n0 + n1 + n2 + 1;
    proof {
        lemma_product_bound(n0 as nat, (n1 + n2) as nat, t as nat);
        lemma_product_bound(n1 as nat, (n2 + n0) as nat, t as nat);
        lemma_product_bound(n2 as nat, (n0 + n1) as nat, t as nat);
        lemma_product_bound((n1 + n2) as nat, (n1 + n2) as nat, t as nat);
        lemma_product_bound((n2 + n0) as nat, (n2 + n0) as nat, t as nat);
        lemma_product_bound((n0 + n1) as nat, (n0 + n1) as nat, t as nat);
        lemma_product_bound(n1 as nat, n2 as nat, t as nat);
        lemma_product_bound(n2 as nat, n0 as nat, t as nat);
        lemma_product_bound(n0 as nat, n1 as nat, t as nat);
        assert((n0 + 1) * (n1 + n2 + 1) <= usize::MAX);
        assert((n1 + 1) * (n2 + n0 + 1) <= usize::MAX);
        assert((n2 + 1) * (n0 + n1 + 1) <= usize::MAX);
        assert((n1 + n2) * (n1 + n2) <= usize::MAX);
        assert((n2 + n0) * (n2 + n0) <= usize::MAX);
        assert((n0 + n1) * (n0 + n1) <= usize::MAX);
        assert((n1 + 1) * (n2 + 1) <= usize::MAX);
        assert((n2 + 1) * (n0 + 1) <= usize::MAX);
        assert((n0 + 1) * (n1 + 1) <= usize::MAX);
    }
    let o0 = mos_substitution_scales_one_perm(n0, n1, n2);
    let o1 = mos_substitution_scales_one_perm(n1, n2, n0);
    let o2 = mos_substitution_scales_one_perm(n2, n0, n1);
    let s1 = relabel_words(&o1, 1);
    let s2 = relabel_words(&o2, 2);
    let ghost ones = seq![word_views(o0@), word_views(o1@), word_views(o2@)];
    assert(ones[0] == word_views(o0@) && ones[1] == word_views(o1@) && ones[2] == word_views(o2@));
    let mut lms: Vec<Vec<Letter>> = Vec::new();
    let ghost mut ks: Seq<int> = Seq::empty();
    let ghost mut ps: Seq<int> = Seq::empty();
    let mut kk: usize = 0;
    while kk < 3
        invariant
            kk <= 3,
            n0 == sig@[0],
            n1 == sig@[1],
            n2 == sig@[2],
            g0 == n0 && g1 == n1 && g2 == n2,
            4 * (n0 + n1 + n2) <= i32::MAX,
            n0 + n1 + n2 > 0,
            ones == seq![word_views(o0@), word_views(o1@), word_views(o2@)],
            s1@.len() == o1@.len(),
            s2@.len() == o2@.len(),
            forall|j: int| 0 <= j < o1@.len() ==> #[trigger] s1@[j]@ == relabel(o1@[j]@, 1),
            forall|j: int| 0 <= j < o2@.len() ==> #[trigger] s2@[j]@ == relabel(o2@[j]@, 2),
            forall|j: int| 0 <= j < o0@.len() ==> (#[trigger] o0@[j]@).len() == n0 + n1 + n2,
            forall|j: int| 0 <= j < o1@.len() ==> (#[trigger] o1@[j]@).len() == n0 + n1 + n2,
            forall|j: int| 0 <= j < o2@.len() ==> (#[trigger] o2@[j]@).len() == n0 + n1 + n2,
            lms@.len() == ks.len(),
            lms@.len() == ps.len(),
            forall|q: int| 0 <= q < lms@.len() ==> 0 <= #[trigger] ks[q] < kk && 0 <= ps[q] < ones[ks[q]].len()
                && is_rotation_of(lms@[q]@, relabel(ones[ks[q]][ps[q]], ks[q])),
            forall|k: int, p: int| 0 <= k < kk && 0 <= p < ones[k].len() ==> #[trigger] tagged(ks, ps, k, p, lms@.len() as int),
            forall|x: int| 0 <= x < lms@.len() ==> (#[trigger] lms@[x]@) == least_mode_of(lms@[x]@),
        decreases 3 - kk,
    {
        let part: &Vec<Vec<Letter>> = if kk == 0 {
            &o0
        } else if kk == 1 {
            &s1
        } else {
            &s2
        };
        let ghost k = kk as int;
        assert(part@.len() == ones[k].len());
        assert forall|p: int| 0 <= p < part@.len() implies #[trigger] part@[p]@ == relabel(ones[k][p], k) by {
            assert(word_views(o0@)[p] == o0@[p]@ || k != 0);
        }
        let ghost base = lms@.len();
        let mut q: usize = 0;
        while q < part.len()
            invariant
                q <= part@.len(),
                kk < 3,
                k == kk,
                part@.len() == ones[k].len(),
                forall|p: int| 0 <= p < part@.len() ==> (#[trigger] part@[p]@).len() == n0 + n1 + n2,
                forall|p: int| 0 <= p < part@.len() ==> #[trigger] part@[p]@ == relabel(ones[k][p], k),
                4 * (n0 + n1 + n2) <= i32::MAX,
                n0 + n1 + n2 > 0,
                lms@.len() == base + q,
                lms@.len() == ks.len(),
                lms@.len() == ps.len(),
                forall|x: int| 0 <= x < base ==> #[trigger] ks[x] < kk,
                forall|x: int| base <= x < lms@.len() ==> #[trigger] ks[x] == k && ps[x] == x - base,
                forall|x: int| 0 <= x < lms@.len() ==> 0 <= #[trigger] ks[x] <= kk && 0 <= ps[x] < ones[ks[x]].len()
                    && is_rotation_of(lms@[x]@, relabel(ones[ks[x]][ps[x]], ks[x])),
                forall|kx: int, p: int| 0 <= kx < kk && 0 <= p < ones[kx].len() ==> #[trigger] tagged(ks, ps, kx, p, base as int),
                forall|x: int| 0 <= x < lms@.len() ==> (#[trigger] lms@[x]@) == least_mode_of(lms@[x]@),
            decreases part@.len() - q,
        {
            let lm = least_mode(&part[q]);
            proof {
                lemma_least_mode_idempotent(part@[q as int]@);
            }
            let ghost before = lms@;
            lms.push(lm);
            proof {
                assert forall|x: int| 0 <= x < lms@.len() implies (#[trigger] lms@[x]@) == least_mode_of(lms@[x]@) by {
                    if x < before.len() {
                        assert(lms@[x] == before[x]);
                    }
                }
                let oks = ks;
                let ops = ps;
                ks = ks.push(k);
                ps = ps.push(q as int);
                assert forall|kx: int, p: int| 0 <= kx < kk && 0 <= p < ones[kx].len() implies #[trigger] tagged(ks, ps, kx, p, base as int) by {
                    assert(tagged(oks, ops, kx, p, base as int));
                    let x = choose|x: int| 0 <= x < base && oks[x] == kx && ops[x] == p;
                    assert(ks[x] == kx && ps[x] == p);
                }
            }
            q = q + 1;
        }
        proof {
            assert forall|kx: int, p: int| 0 <= kx < kk + 1 && 0 <= p < ones[kx].len() implies #[trigger] tagged(ks, ps, kx, p, lms@.len() as int) by {
                if kx == k {
                    assert(p < part@.len());
                    assert(base <= base + p < lms@.len());
                    assert(ks[base + p] == k);
                    assert(ks[base + p] == kx && ps[base + p] == p);
                } else {
                    assert(tagged(ks, ps, kx, p, base as int));
                    let x = choose|x: int| 0 <= x < base && ks[x] == kx && ps[x] == p;
                    assert(0 <= x < lms@.len() && ks[x] == kx && ps[x] == p);
                }
            }
        }
        kk = kk + 1;
    }
    let sorted = sorted_words(lms);
    let r = dedup_sorted_words(&sorted);
    proof {
        let lv = word_views(lms@);
        let sv = word_views(sorted@);
        assert forall|j: int| 0 <= j < r@.len() implies (#[trigger] r@[j]@) == least_mode_of(r@[j]@) by {
            assert(word_views(r@)[j] == r@[j]@);
            assert(word_views(r@).contains(r@[j]@));
            vstd::seq_lib::to_multiset_contains(sv, r@[j]@);
            vstd::seq_lib::to_multiset_contains(lv, r@[j]@);
            let x = choose|x: int| 0 <= x < lv.len() && lv[x] == r@[j]@;
            assert(lms@[x]@ == least_mode_of(lms@[x]@));
        }
        assert forall|j: int| 0 <= j < r@.len() implies reached_from_signature(#[trigger] r@[j]@, g0, g1, g2) by {
            assert(word_views(r@)[j] == r@[j]@);
            assert(word_views(r@).contains(r@[j]@));
            vstd::seq_lib::to_multiset_contains(sv, r@[j]@);
            vstd::seq_lib::to_multiset_contains(lv, r@[j]@);
            let x = choose|x: int| 0 <= x < lv.len() && lv[x] == r@[j]@;
            let k = ks[x];
            let p = ps[x];
            let v = ones[k][p];
            let tt = rotated_sig(g0, g1, g2, k);
            assert(is_mos_subst_rotation(v, tt.0, tt.1, tt.2)) by {
                if k == 0 {
                    assert(v == o0@[p]@);
                } else if k == 1 {
                    assert(v == o1@[p]@);
                } else {
                    assert(v == o2@[p]@);
                }
            }
            let i = choose|i: int| 0 <= i < tt.1 + tt.2 && is_rotation_of(v, #[trigger] mos_subst_candidate(tt.0, tt.1, tt.2, i));
            assert(is_rotation_of(r@[j]@, relabel(v, k)));
            assert(reaches_candidate(r@[j]@, g0, g1, g2, k, i));
        }
        assert forall|k: int, i: int| 0 <= k < 3 && 0 <= i < filler_size(g0, g1, g2, k) implies
            #[trigger] candidate_reached(word_views(r@), g0, g1, g2, k, i) by {
            let tt = rotated_sig(g0, g1, g2, k);
            assert(has_rotation_of_candidate(ones[k], tt.0, tt.1, tt.2, i)) by {
                if k == 0 {
                    assert(ones[k] == word_views(o0@));
                } else if k == 1 {
                    assert(ones[k] == word_views(o1@));
                } else {
                    assert(ones[k] == word_views(o2@));
                }
            }
            let p = choose|p: int| 0 <= p < ones[k].len() && is_rotation_of(#[trigger] ones[k][p], mos_subst_candidate(tt.0, tt.1, tt.2, i));
            assert(tagged(ks, ps, k, p, lms@.len() as int));
            let x = choose|x: int| 0 <= x < lms@.len() && ks[x] == k && ps[x] == p;
            let w = lms@[x]@;
            assert(lv[x] == w);
            assert(lv.contains(w));
            vstd::seq_lib::to_multiset_contains(lv, w);
            vstd::seq_lib::to_multiset_contains(sv, w);
            assert(word_views(r@).contains(w));
            let j = choose|j: int| 0 <= j < word_views(r@).len() && word_views(r@)[j] == w;
            assert(r@[j]@ == w);
            assert(is_rotation_of(w, relabel(ones[k][p], k)));
            assert(reaches_candidate(word_views(r@)[j], g0, g1, g2, k, i));
        }
        assert forall|j: int| 0 <= j < r@.len() implies {
            &&& occurrences(#[trigger] r@[j]@, 0usize) == sig@[0]
            &&& occurrences(r@[j]@, 1usize) == sig@[1]
            &&& occurrences(r@[j]@, 2usize) == sig@[2]
        } by {
            lemma_reached_word_counts(r@[j]@, g0, g1, g2);
        }
    }
    r
}

/// Whether `scale` is a MOS substitution scale with any choice of letter as template letter.
pub fn is_mos_subst(scale: &[Letter]) -> (r: bool)
    requires
        scale@.len() < i32::MAX,
    ensures
        r == spec_is_mos_subst(scale@),
        r <==> (scale@.to_set().len() == 3 && exists|t: Letter, f1: Letter, f2: Letter|
            #![trigger spec_delete(scale@, t), spec_replace(scale@, f1, f2)]
            scale@.contains(t) && scale@.contains(f1) && scale@.contains(f2) && t != f1 && t != f2 && f1 != f2
                && is_mos(spec_delete(scale@, t)) && is_mos(spec_replace(scale@, f1, f2))),
{
    proof {
        lemma_mos_subst_law(scale@);
    }
    let counts = CountVector::from_slice(scale);
    let steps = counts.keys();
    proof {
        lemma_models_usize(steps@);
        lemma_models_usize(scale@);
        assert(steps@ == distinct_letters(scale@));
    }
    if steps.len() != 3 {
        return false;
    }
    let (x, y, z) = (steps[0], steps[1], steps[2]);
    mos_subst_helper(scale, x, y, z) || mos_subst_helper(scale, y, x, z) || mos_subst_helper(
        scale,
        z,
        x,
        y,
    )
}

/// Whether `scale` is ternary and the identifications L = m, m = s and s = 0 each leave a MOS.
pub open spec fn spec_is_monotone_mos(s: Seq<Letter>) -> bool {
    &&& s.to_set().len() == 3
    &&& is_mos(spec_replace(s, 1, 0))
    &&& is_mos(spec_replace(s, 2, 1))
    &&& is_mos(spec_delete(s, 2))
}

/// If `scale` is ternary, return whether identifying L = m, m = s, and s = 0 results in a MOS.
pub fn is_monotone_mos(scale: &[Letter]) -> (r: bool)
    requires
        scale@.len() < i32::MAX,
    ensures
        r == spec_is_monotone_mos(scale@),
        r <==> {
            &&& scale@.to_set().len() == 3
            &&& is_mos(spec_replace(scale@, 0, 1))
            &&& is_mos(spec_replace(scale@, 1, 2))
            &&& is_mos(spec_delete(scale@, 2))
        },
{
    proof {
        lemma_monotone_mos_law(scale@);
    }
    proof {
        lemma_delete_len(scale@, 2);
    }
    step_variety(scale) == 3 && maximum_variety_is(&replace(scale, 1, 0), 2) && maximum_variety_is(
        &replace(scale, 2, 1),
        2,
    ) && maximum_variety_is(&delete(scale, 2), 2)
}

/// Whether identifying L = m results in a MOS.
pub fn monotone_lm(scale: &[Letter]) -> (r: bool)
    requires
        scale@.len() < i32::MAX,
    ensures
        r == is_mos(spec_replace(scale@, 1, 0)),
{
    maximum_variety_is(&replace(scale, 1, 0), 2)
}

/// Whether identifying m = s results in a MOS.
pub fn monotone_ms(scale: &[Letter]) -> (r: bool)
    requires
        scale@.len() < i32::MAX,
    ensures
        r == is_mos(spec_replace(scale@, 2, 1)),
{
    maximum_variety_is(&replace(scale, 2, 1), 2)
}

/// Whether deleting s results in a MOS.
pub fn monotone_s0(scale: &[Letter]) -> (r: bool)
    requires
        scale@.len() < i32::MAX,
    ensures
        r == is_mos(spec_delete(scale@, 2)),
{
    proof {
        lemma_delete_len(scale@, 2);
    }
    maximum_variety_is(&delete(scale, 2), 2)
}

/// Whether `scale` is ternary and every identification of two of its step sizes leaves a MOS.
pub open spec fn spec_is_pairwise_mos(s: Seq<Letter>) -> bool {
    &&& s.to_set().len() == 3
    &&& is_mos(spec_replace(s, 1, 0))
    &&& is_mos(spec_replace(s, 1, 2))
    &&& is_mos(spec_replace(s, 2, 0))
}

/// Check if pairwise identifications of two of the step sizes always result in a MOS.
pub fn is_pairwise_mos(scale: &[Letter]) -> (r: bool)
    requires
        scale@.len() < i32::MAX,
    ensures
        r == spec_is_pairwise_mos(scale@),
        (forall|i: int| 0 <= i < scale@.len() ==> #[trigger] scale@[i] <= 2) ==> (r <==> (scale@.to_set().len() == 3
            && forall|x: Letter, y: Letter| scale@.contains(x) && scale@.contains(y) && x != y
                ==> #[trigger] is_mos(spec_replace(scale@, x, y)))),
{
    proof {
        if forall|i: int| 0 <= i < scale@.len() ==> #[trigger] scale@[i] <= 2 {
            lemma_pairwise_mos_law(scale@);
        }
    }
    step_variety(scale) == 3 && maximum_variety_is(&replace(scale, 1, 0), 2) && maximum_variety_is(
        &replace(scale, 1, 2),
        2,
    ) && maximum_variety_is(&replace(scale, 2, 0), 2)
}

// ---------------------------------------------------------------------------
// MOS words
// ---------------------------------------------------------------------------

/// The lower Christoffel word with `a` letters 0 and `b` letters 1:
/// letter `i` is 1 exactly when `floor((i + 1) b / (a + b)) > floor(i b / (a + b))`.
pub open spec fn christoffel(a: nat, b: nat) -> Seq<Letter> {
    Seq::new(a + b, |i: int| if ((i + 1) * b) / ((a + b) as int) > (i * b) / ((a + b) as int) { 1usize } else { 0usize })
}

/// `s` repeated `d` times.
pub open spec fn repeat_seq<A>(s: Seq<A>, d: nat) -> Seq<A>
    decreases d,
{
    if d == 0 {
        Seq::empty()
    } else {
        repeat_seq(s, (d - 1) as nat) + s
    }
}

/// The brightest mode of the MOS `a`L `b`s: the Christoffel word of the primitive MOS,
/// repeated once per period.
pub open spec fn mos_word(a: nat, b: nat) -> Seq<Letter> {
    let d = spec_gcd(a, b);
    repeat_seq(christoffel(a / d, b / d), d)
}

/// The number of steps of the bright generator: the inverse of the number of small steps
/// modulo the period length of the MOS.
pub open spec fn bright_gener_len(a: nat, b: nat) -> int {
    let d = spec_gcd(a, b);
    least_inverse((b / d) as int, (a / d + b / d) as int)
}

/// The bright generator of the MOS `a`L `b`s, as count entries.
pub open spec fn bright_gener(a: nat, b: nat) -> Seq<(Letter, i32)> {
    let d = spec_gcd(a, b);
    count_entries::<Letter>(christoffel(a / d, b / d).subrange(0, bright_gener_len(a, b)))
}

/// `s` repeated `d` times, as a vector.
fn repeat_word(s: &Vec<Letter>, d: usize) -> (r: Vec<Letter>)
    requires
        s@.len() * d <= usize::MAX,
    ensures
        r@ == repeat_seq(s@, d as nat),
{
    let mut r: Vec<Letter> = Vec::new();
    let mut c: usize = 0;
    while c < d
        invariant
            c <= d,
            r@ == repeat_seq(s@, c as nat),
        decreases d - c,
    {
        let mut i: usize = 0;
        let ghost before = r@;
        while i < s.len()
            invariant
                i <= s@.len(),
                r@ == before + s@.subrange(0, i as int),
            decreases s@.len() - i,
        {
            r.push(s[i]);
            assert(r@ =~= before + s@.subrange(0, i + 1));
            i = i + 1;
        }
        assert(s@.subrange(0, s@.len() as int) =~= s@);
        c = c + 1;
    }
    r
}

proof fn lemma_floor_div(m: int, n: int, q: int)
    requires
        n > 0,
        q * n <= m < (q + 1) * n,
    ensures
        m / n == q,
{
    let r = m - q * n;
    assert(q * n + n == (q + 1) * n) by (nonlinear_arith);
    vstd::arithmetic::div_mod::lemma_fundamental_div_mod_converse(m, n, q, r);
}

/// The Bresenham walk invariant: `y == floor((x + y) b / (a + b))`.
proof fn lemma_walk_floor(a: int, b: int, x: int, y: int)
    requires
        a >= 0,
        b >= 0,
        a + b > 0,
        y * a <= x * b,
        x * b < y * a + a + b,
    ensures
        ((x + y) * b) / (a + b) == y,
{
    assert(y * (a + b) <= (x + y) * b < (y + 1) * (a + b)) by (nonlinear_arith)
        requires
            y * a <= x * b,
            x * b < y * a + a + b,
    ;
    lemma_floor_div((x + y) * b, a + b, y);
}

proof fn lemma_div_one(x: nat)
    ensures
        x / 1 == x,
{
}

proof fn lemma_repeat_one<A>(s: Seq<A>)
    ensures
        repeat_seq(s, 1) == s,
{
    assert(repeat_seq(s, 0) =~= Seq::<A>::empty());
    assert(Seq::<A>::empty() + s =~= s);
}

/// The primitive Christoffel word and generator when `gcd(a, b) == 1`, by the Bresenham walk.
fn bresenham_primitive(a: usize, b: usize) -> (r: (Vec<Letter>, CountVector<Letter>))
    requires
        spec_gcd(a as nat, b as nat) == 1,
        a + b <= i32::MAX,
        (a + 1) * (b + 1) <= usize::MAX,
    ensures
        r.0@ == christoffel(a as nat, b as nat),
        r.1@ == count_entries::<Letter>(christoffel(a as nat, b as nat).subrange(0, least_inverse(b as int, (a + b) as int))),
{
    proof {
        crate::helpers::lemma_gcd_add(a as nat, b as nat);
        crate::helpers::lemma_inverse_exists(b as nat, (a + b) as nat);
        crate::helpers::lemma_gcd_positive(a as nat, b as nat);
    }
    let inv = modinv(b as i32, (a + b) as i32);
    let count_gen_steps: usize = match inv {
        Some(x) => x as usize,
        None => {
            proof {
                let w = choose|x: int| #[trigger] crate::helpers::is_inverse_mod(b as int, x, (a + b) as int);
                assert(false);
            }
            0
        },
    };
    let ghost cw = christoffel(a as nat, b as nat);
    let mut result_scale: Vec<Letter> = Vec::new();
    let mut x: usize = 0;
    let mut y: usize = 0;
    while x < a || y < b
        invariant
            a + b > 0,
            a + b <= i32::MAX,
            (a + 1) * (b + 1) <= usize::MAX,
            cw == christoffel(a as nat, b as nat),
            x <= a,
            y <= b,
            y * a <= x * b,
            x * b < y * a + a + b,
            result_scale@ == cw.subrange(0, (x + y) as int),
        decreases a + b - x - y,
    {
        proof {
            lemma_walk_floor(a as int, b as int, x as int, y as int);
            assert(a * (y + 1) <= (a + 1) * (b + 1) && b * x <= (a + 1) * (b + 1) && b + 1 <= (a + 1) * (b + 1)) by (nonlinear_arith)
                requires
                    x <= a,
                    y <= b,
            ;
        }
        let i: usize = x + y;
        if a * (y + 1) <= b * x {
            proof {
                if y == b {
                    assert(a * (b + 1) <= b * x) by (nonlinear_arith)
                        requires
                            a * (y + 1) <= b * x,
                            y == b,
                    ;
                    assert(x < a);
                    assert(false) by (nonlinear_arith)
                        requires
                            a * (b + 1) <= b * x,
                            x < a,
                    ;
                }
                assert((y + 1) * a <= x * b) by (nonlinear_arith)
                    requires
                        a * (y + 1) <= b * x,
                ;
                assert(x * b < (y + 1) * a + a + b) by (nonlinear_arith)
                    requires
                        x * b < y * a + a + b,
                ;
                lemma_walk_floor(a as int, b as int, x as int, (y + 1) as int);
                assert(cw[i as int] == 1);
            }
            y = y + 1;
            result_scale.push(1);
        } else {
            proof {
                if x == a {
                    assert(false) by (nonlinear_arith)
                        requires
                            a * (y + 1) > b * x,
                            x == a,
                            y < b,
                    ;
                }
                assert(y * a <= (x + 1) * b) by (nonlinear_arith)
                    requires
                        y * a <= x * b,
                ;
                assert((x + 1) * b < y * a + a + b) by (nonlinear_arith)
                    requires
                        a * (y + 1) > b * x,
                ;
                lemma_walk_floor(a as int, b as int, (x + 1) as int, y as int);
                assert(cw[i as int] == 0);
            }
            x = x + 1;
            result_scale.push(0);
        }
        assert(result_scale@ =~= cw.subrange(0, (x + y) as int));
    }
    assert(cw.subrange(0, (a + b) as int) =~= cw);
    let prefix_steps = prefix(&result_scale, count_gen_steps);
    proof {
        lemma_models_usize(prefix_steps@);
        lemma_models_usize(result_scale@);
    }
    let result_gen = CountVector::from_slice(&prefix_steps);
    (result_scale, result_gen)
}

/// Return the brightest mode of the MOS `a`L `b`s and its bright generator, using the Bresenham line algorithm.
pub fn brightest_mos_mode_and_gener_bresenham(a: usize, b: usize) -> (r: (Vec<Letter>, CountVector<Letter>))
    requires
        a + b > 0,
        a + b <= i32::MAX,
        (a + 1) * (b + 1) <= usize::MAX,
    ensures
        r.0@ == mos_word(a as nat, b as nat),
        r.1@ == bright_gener(a as nat, b as nat),
{
    let d = gcd(a as u32, b as u32) as usize;
    proof {
        crate::helpers::lemma_gcd_positive(a as nat, b as nat);
    }
    if d == 1 {
        proof {
            lemma_div_one(a as nat);
            lemma_div_one(b as nat);
        }
        let (prim, gener) = bresenham_primitive(a, b);
        proof {
            lemma_repeat_one(prim@);
        }
        (prim, gener)
    } else {
        let a1 = a / d;
        let b1 = b / d;
        proof {
            crate::helpers::lemma_gcd_quotients_coprime(a as nat, b as nat);
            crate::helpers::lemma_gcd_divides(a as nat, b as nat);
            lemma_div_one(a1 as nat);
            lemma_div_one(b1 as nat);
            vstd::arithmetic::div_mod::lemma_div_is_ordered_by_denominator(a as int, 1, d as int);
            vstd::arithmetic::div_mod::lemma_div_is_ordered_by_denominator(b as int, 1, d as int);
            assert((a1 + 1) * (b1 + 1) <= (a + 1) * (b + 1)) by (nonlinear_arith)
                requires
                    a1 <= a,
                    b1 <= b,
            ;
            vstd::arithmetic::div_mod::lemma_fundamental_div_mod(a as int, d as int);
            vstd::arithmetic::div_mod::lemma_fundamental_div_mod(b as int, d as int);
            assert(a == d * a1 && b == d * b1);
            assert((a1 + b1) * d == a + b) by (nonlinear_arith)
                requires
                    a == d * a1,
                    b == d * b1,
            ;
            assert(a1 + b1 > 0);
        }
        let (prim, gener) = bresenham_primitive(a1, b1);
        proof {
            assert(prim@.len() == a1 + b1);
        }
        let full = repeat_word(&prim, d);
        (full, gener)
    }
}

/// Lexicographic order on words of letters (a proper prefix comes first).
pub open spec fn lex_lt(a: Seq<Letter>, b: Seq<Letter>) -> bool
    decreases a.len(),
{
    if a.len() == 0 {
        b.len() > 0
    } else if b.len() == 0 {
        false
    } else if a[0] < b[0] {
        true
    } else if a[0] > b[0] {
        false
    } else {
        lex_lt(a.drop_first(), b.drop_first())
    }
}

/// No word is lexicographically below itself.
pub proof fn lemma_lex_lt_irreflexive(a: Seq<Letter>)
    ensures
        !lex_lt(a, a),
    decreases a.len(),
{
    if a.len() > 0 {
        lemma_lex_lt_irreflexive(a.drop_first());
    }
}

/// The lexicographic order is transitive.
pub proof fn lemma_lex_lt_transitive(a: Seq<Letter>, b: Seq<Letter>, c: Seq<Letter>)
    requires
        lex_lt(a, b),
        lex_lt(b, c),
    ensures
        lex_lt(a, c),
    decreases a.len(),
{
    if a.len() > 0 && b.len() > 0 && c.len() > 0 && a[0] == b[0] && b[0] == c[0] {
        lemma_lex_lt_transitive(a.drop_first(), b.drop_first(), c.drop_first());
    }
}

/// Any two words are comparable.
pub proof fn lemma_lex_lt_total(a: Seq<Letter>, b: Seq<Letter>)
    ensures
        lex_lt(a, b) || lex_lt(b, a) || a == b,
    decreases a.len(),
{
    if a.len() > 0 && b.len() > 0 && a[0] == b[0] {
        lemma_lex_lt_total(a.drop_first(), b.drop_first());
        if a.drop_first() == b.drop_first() {
            assert(a =~= seq![a[0]] + a.drop_first());
            assert(b =~= seq![b[0]] + b.drop_first());
        }
    } else if a.len() == 0 && b.len() == 0 {
        assert(a =~= b);
    }
}

/// Lexicographic three-way comparison of two words.
pub fn compare_words(a: &[Letter], b: &[Letter]) -> (r: Trichotomy)
    ensures
        (r == Trichotomy::Less) == lex_lt(a@, b@),
        (r == Trichotomy::Equal) == (a@ == b@),
        (r == Trichotomy::Greater) == lex_lt(b@, a@),
{
    let n = a.len();
    let m = b.len();
    let mut i: usize = 0;
    assert(a@.skip(0) =~= a@);
    assert(b@.skip(0) =~= b@);
    while i < n && i < m
        invariant
            i <= n,
            i <= m,
            n == a@.len(),
            m == b@.len(),
            a@.subrange(0, i as int) == b@.subrange(0, i as int),
            lex_lt(a@, b@) == lex_lt(a@.skip(i as int), b@.skip(i as int)),
            lex_lt(b@, a@) == lex_lt(b@.skip(i as int), a@.skip(i as int)),
        decreases n - i,
    {
        assert(a@.skip(i as int).drop_first() =~= a@.skip(i + 1));
        assert(b@.skip(i as int).drop_first() =~= b@.skip(i + 1));
        assert(a@.skip(i as int)[0] == a@[i as int]);
        assert(b@.skip(i as int)[0] == b@[i as int]);
        if a[i] < b[i] {
            assert(a@ != b@ && !lex_lt(b@, a@));
            return Trichotomy::Less;
        } else if a[i] > b[i] {
            assert(a@ != b@ && !lex_lt(a@, b@));
            return Trichotomy::Greater;
        }
        assert(a@.subrange(0, i + 1) =~= a@.subrange(0, i as int).push(a@[i as int]));
        assert(b@.subrange(0, i + 1) =~= b@.subrange(0, i as int).push(b@[i as int]));
        i = i + 1;
    }
    assert(a@.skip(i as int).len() == 0 || b@.skip(i as int).len() == 0);
    if n == m {
        assert(a@ =~= a@.subrange(0, n as int));
        assert(b@ =~= b@.subrange(0, m as int));
        Trichotomy::Equal
    } else if n < m {
        assert(a@.len() != b@.len());
        Trichotomy::Less
    } else {
        assert(a@.len() != b@.len());
        Trichotomy::Greater
    }
}

proof fn lemma_occurrences_add(s: Seq<Letter>, t: Seq<Letter>, x: Letter)
    ensures
        occurrences(s + t, x) == occurrences(s, x) + occurrences(t, x),
    decreases t.len(),
{
    if t.len() == 0 {
        assert(s + t =~= s);
    } else {
        lemma_occurrences_add(s, t.drop_last(), x);
        assert((s + t).drop_last() =~= s + t.drop_last());
    }
}

proof fn lemma_occurrences_repeat(s: Seq<Letter>, d: nat, x: Letter)
    ensures
        occurrences(repeat_seq(s, d), x) == d * occurrences(s, x),
        repeat_seq(s, d).len() == d * s.len(),
    decreases d,
{
    if d > 0 {
        lemma_occurrences_repeat(s, (d - 1) as nat, x);
        lemma_occurrences_add(repeat_seq(s, (d - 1) as nat), s, x);
        assert(repeat_seq(s, d) == repeat_seq(s, (d - 1) as nat) + s);
        assert(d * occurrences(s, x) == (d - 1) * occurrences(s, x) + occurrences(s, x)) by (nonlinear_arith)
            requires
                d > 0,
        ;
        assert(d * s.len() == (d - 1) * s.len() + s.len()) by (nonlinear_arith)
            requires
                d > 0,
        ;
    } else {
        assert(d * occurrences(s, x) == 0 && d * s.len() == 0) by (nonlinear_arith)
            requires
                d == 0,
        ;
    }
}

/// Appends `s` to `r`.
fn extend_word(r: &mut Vec<Letter>, s: &Vec<Letter>)
    requires
        old(r)@.len() + s@.len() <= usize::MAX,
    ensures
        final(r)@ == old(r)@ + s@,
{
    let mut i: usize = 0;
    while i < s.len()
        invariant
            i <= s@.len(),
            r@ == old(r)@ + s@.subrange(0, i as int),
        decreases s@.len() - i,
    {
        r.push(s[i]);
        assert(r@ =~= old(r)@ + s@.subrange(0, i + 1));
        i = i + 1;
    }
    assert(s@.subrange(0, s@.len() as int) =~= s@);
}

/// `w` with each letter 0 replaced by `x` and every other letter by `y`.
pub open spec fn word_image(w: Seq<Letter>, x: Seq<Letter>, y: Seq<Letter>) -> Seq<Letter>
    decreases w.len(),
{
    if w.len() == 0 {
        Seq::empty()
    } else {
        word_image(w.drop_last(), x, y) + (if w.last() == 0 { x } else { y })
    }
}

/// Every prefix of `w` of length `m` holds `floor(m q / n)` letters 1: the word follows the
/// line of slope `q / n` from below.
pub open spec fn line_word(w: Seq<Letter>, q: int, n: int) -> bool {
    forall|m: int| 0 <= m <= w.len() ==> #[trigger] occurrences(w.subrange(0, m), 1usize) == (m * q) / n
}

proof fn lemma_occurrences_short()
    ensures
        occurrences(seq![1usize], 1usize) == 1,
        occurrences(seq![0usize], 1usize) == 0,
        occurrences(seq![0usize, 1usize], 1usize) == 1,
{
    assert(seq![1usize].drop_last() =~= Seq::<Letter>::empty());
    assert(seq![0usize].drop_last() =~= Seq::<Letter>::empty());
    assert(seq![0usize, 1usize].drop_last() =~= seq![0usize]);
    assert(occurrences(Seq::<Letter>::empty(), 1usize) == 0);
    assert(seq![1usize].last() == 1);
    assert(seq![0usize].last() == 0);
    assert(seq![0usize, 1usize].last() == 1);
    assert(occurrences(seq![0usize], 1usize) == occurrences(Seq::<Letter>::empty(), 1usize) + 0);
    assert(occurrences(seq![1usize], 1usize) == occurrences(Seq::<Letter>::empty(), 1usize) + 1);
    assert(occurrences(seq![0usize, 1usize], 1usize) == occurrences(seq![0usize], 1usize) + 1);
}

proof fn lemma_floor_bounds(x: int, d: int)
    requires
        d > 0,
        x >= 0,
    ensures
        (x / d) * d <= x < (x / d) * d + d,
{
    vstd::arithmetic::div_mod::lemma_fundamental_div_mod(x, d);
    vstd::arithmetic::div_mod::lemma_mod_pos_bound(x, d);
    vstd::arithmetic::mul::lemma_mul_is_commutative(d, x / d);
}

proof fn lemma_floor_is(x: int, d: int, h: int)
    requires
        d > 0,
        h * d <= x < h * d + d,
    ensures
        x / d == h,
{
    vstd::arithmetic::div_mod::lemma_fundamental_div_mod_converse(x, d, h, x - h * d);
}

proof fn lemma_image_concat(u: Seq<Letter>, v: Seq<Letter>, x: Seq<Letter>, y: Seq<Letter>)
    ensures
        word_image(u + v, x, y) == word_image(u, x, y) + word_image(v, x, y),
    decreases v.len(),
{
    if v.len() == 0 {
        assert(u + v =~= u);
        assert(word_image(u, x, y) + Seq::<Letter>::empty() =~= word_image(u, x, y));
    } else {
        assert((u + v).drop_last() =~= u + v.drop_last());
        assert((u + v).last() == v.last());
        lemma_image_concat(u, v.drop_last(), x, y);
        let t = if v.last() == 0 { x } else { y };
        assert(word_image(u, x, y) + word_image(v.drop_last(), x, y) + t =~= word_image(u, x, y) + (word_image(
            v.drop_last(),
            x,
            y,
        ) + t));
    }
}

proof fn lemma_image_compose(w: Seq<Letter>, x: Seq<Letter>, y: Seq<Letter>, f: Seq<Letter>, g: Seq<Letter>)
    ensures
        word_image(word_image(w, x, y), f, g) == word_image(w, word_image(x, f, g), word_image(y, f, g)),
    decreases w.len(),
{
    if w.len() > 0 {
        lemma_image_compose(w.drop_last(), x, y, f, g);
        let t = if w.last() == 0 { x } else { y };
        lemma_image_concat(word_image(w.drop_last(), x, y), t, f, g);
    }
}

proof fn lemma_image_binary(w: Seq<Letter>, x: Seq<Letter>, y: Seq<Letter>)
    requires
        binary_word(x),
        binary_word(y),
    ensures
        binary_word(word_image(w, x, y)),
    decreases w.len(),
{
    if w.len() > 0 {
        lemma_image_binary(w.drop_last(), x, y);
        let a = word_image(w.drop_last(), x, y);
        let t = if w.last() == 0 { x } else { y };
        assert forall|i: int| 0 <= i < (a + t).len() implies #[trigger] (a + t)[i] <= 1 by {
            if i < a.len() {
                assert((a + t)[i] == a[i]);
            } else {
                assert((a + t)[i] == t[i - a.len()]);
            }
        }
    }
}

/// The letters 1 in a prefix one letter longer.
proof fn lemma_occurrences_prefix_step(w: Seq<Letter>, m: int)
    requires
        0 <= m < w.len(),
    ensures
        occurrences(w.subrange(0, m + 1), 1usize) == occurrences(w.subrange(0, m), 1usize) + if w[m] == 1 { 1nat } else { 0nat },
{
    assert(w.subrange(0, m + 1).drop_last() =~= w.subrange(0, m));
}

/// The prefixes of the Christoffel word follow its line.
proof fn lemma_christoffel_line(p: nat, q: nat, m: int)
    requires
        p + q > 0,
        0 <= m <= p + q,
    ensures
        occurrences(christoffel(p, q).subrange(0, m), 1usize) == (m * q) / ((p + q) as int),
    decreases m,
{
    let n = (p + q) as int;
    let c = christoffel(p, q);
    if m == 0 {
        assert(c.subrange(0, 0) =~= Seq::<Letter>::empty());
        assert((0 * (q as int)) / n == 0);
    } else {
        lemma_christoffel_line(p, q, m - 1);
        lemma_occurrences_prefix_step(c, m - 1);
        let h = ((m - 1) * q) / n;
        assert((m - 1) * q >= 0) by (nonlinear_arith)
            requires
                m >= 1,
        ;
        lemma_floor_bounds((m - 1) * q, n);
        assert(m * q == (m - 1) * q + q) by (nonlinear_arith);
        assert((h + 1) * n == h * n + n) by (nonlinear_arith);
        if m * q < h * n + n {
            lemma_floor_is(m * q, n, h);
        } else {
            lemma_floor_is(m * q, n, h + 1);
        }
    }
}

proof fn lemma_christoffel_facts(p: nat, q: nat)
    requires
        p + q > 0,
    ensures
        christoffel(p, q).len() == p + q,
        binary_word(christoffel(p, q)),
        line_word(christoffel(p, q), q as int, (p + q) as int),
{
    assert forall|m: int| 0 <= m <= christoffel(p, q).len() implies #[trigger] occurrences(
        christoffel(p, q).subrange(0, m),
        1usize,
    ) == (m * q) / ((p + q) as int) by {
        lemma_christoffel_line(p, q, m);
    }
}

/// Two binary words of one length that follow the same line are equal.
proof fn lemma_line_unique(w: Seq<Letter>, v: Seq<Letter>, q: int, n: int)
    requires
        w.len() == v.len(),
        binary_word(w),
        binary_word(v),
        line_word(w, q, n),
        line_word(v, q, n),
    ensures
        w == v,
{
    assert forall|i: int| 0 <= i < w.len() implies w[i] == v[i] by {
        lemma_occurrences_prefix_step(w, i);
        lemma_occurrences_prefix_step(v, i);
        assert(occurrences(w.subrange(0, i + 1), 1usize) == occurrences(v.subrange(0, i + 1), 1usize));
        assert(occurrences(w.subrange(0, i), 1usize) == occurrences(v.subrange(0, i), 1usize));
        assert(w[i] <= 1 && v[i] <= 1);
    }
    assert(w =~= v);
}

/// Prefix counts of a concatenation beyond its first part.
proof fn lemma_occurrences_concat_prefix(a: Seq<Letter>, t: Seq<Letter>, k: int)
    requires
        0 <= k <= t.len(),
    ensures
        occurrences((a + t).subrange(0, a.len() + k), 1usize) == occurrences(a, 1usize) + occurrences(
            t.subrange(0, k),
            1usize,
        ),
        forall|m: int| 0 <= m <= a.len() ==> #[trigger] (a + t).subrange(0, m) == a.subrange(0, m),
{
    assert((a + t).subrange(0, a.len() + k) =~= a + t.subrange(0, k));
    lemma_occurrences_add(a, t.subrange(0, k), 1usize);
    assert forall|m: int| 0 <= m <= a.len() implies #[trigger] (a + t).subrange(0, m) == a.subrange(0, m) by {
        assert((a + t).subrange(0, m) =~= a.subrange(0, m));
    }
}

proof fn lemma_d_formula(i: int, h: int, q: int, n: int, p: int)
    requires
        n > 0,
        p >= 0,
        q == n - p,
        h * n <= i * q < h * n + n,
        i >= 0,
    ensures
        ((2 * i - h) * n) / (n + p) == i,
{
    assert(i * (n + p) <= (2 * i - h) * n < i * (n + p) + (n + p)) by (nonlinear_arith)
        requires
            q == n - p,
            h * n <= i * q < h * n + n,
            n > 0,
            p >= 0,
    ;
    lemma_floor_is((2 * i - h) * n, n + p, i);
}

proof fn lemma_d_formula_mid(i: int, h: int, q: int, n: int, p: int)
    requires
        n > 0,
        p >= 0,
        q == n - p,
        h * n <= i * q,
        (i + 1) * q < h * n + n,
        i >= 0,
    ensures
        ((2 * i - h + 1) * n) / (n + p) == i,
{
    assert(i * (n + p) <= (2 * i - h + 1) * n < i * (n + p) + (n + p)) by (nonlinear_arith)
        requires
            q == n - p,
            h * n <= i * q,
            (i + 1) * q < h * n + n,
            n > 0,
            p >= 0,
    ;
    lemma_floor_is((2 * i - h + 1) * n, n + p, i);
}

proof fn lemma_g_formula(i: int, h: int, q: int, n: int)
    requires
        n > 0,
        q >= 0,
        h * n <= i * q < h * n + n,
    ensures
        ((i + h) * q) / (n + q) == h,
{
    assert(h * (n + q) <= (i + h) * q < h * (n + q) + (n + q)) by (nonlinear_arith)
        requires
            h * n <= i * q < h * n + n,
            n > 0,
            q >= 0,
    ;
    lemma_floor_is((i + h) * q, n + q, h);
}

proof fn lemma_g_formula_mid(i: int, h: int, q: int, n: int)
    requires
        n > 0,
        q >= 0,
        h * n <= i * q < h * n + n,
    ensures
        ((i + h + 1) * q) / (n + q) == h,
{
    assert(h * (n + q) <= (i + h + 1) * q < h * (n + q) + (n + q)) by (nonlinear_arith)
        requires
            h * n <= i * q < h * n + n,
            n > 0,
            q >= 0,
    ;
    lemma_floor_is((i + h + 1) * q, n + q, h);
}

/// Replacing each 0 of a word on the line of slope `q / n` by `01` gives a word on the line of
/// slope `n / (n + p)`, where `p = n - q`.
proof fn lemma_image_d_prefix(w: Seq<Letter>, q: int, n: int, p: int, i: int)
    requires
        n > 0,
        p >= 0,
        q >= 0,
        q == n - p,
        binary_word(w),
        line_word(w, q, n),
        0 <= i <= w.len(),
    ensures
        ({
            let img = word_image(w.subrange(0, i), seq![0usize, 1usize], seq![1usize]);
            &&& img.len() == 2 * i - (i * q) / n
            &&& occurrences(img, 1usize) == i
            &&& forall|m: int| 0 <= m <= img.len() ==> #[trigger] occurrences(img.subrange(0, m), 1usize) == (m * n) / (n + p)
        }),
    decreases i,
{
    let x = seq![0usize, 1usize];
    let y = seq![1usize];
    if i == 0 {
        let img = word_image(w.subrange(0, 0), x, y);
        assert(w.subrange(0, 0).len() == 0);
        assert(img =~= Seq::<Letter>::empty());
        assert((0 * q) / n == 0);
        assert forall|m: int| 0 <= m <= img.len() implies #[trigger] occurrences(img.subrange(0, m), 1usize) == (m * n) / (n + p) by {
            assert(m == 0);
            assert(img.subrange(0, 0) =~= Seq::<Letter>::empty());
            assert((0 * n) / (n + p) == 0);
        }
    } else {
        lemma_image_d_prefix(w, q, n, p, i - 1);
        let u = w.subrange(0, i - 1);
        let a = word_image(u, x, y);
        let c = w[i - 1];
        assert(w.subrange(0, i).drop_last() =~= u);
        assert(w.subrange(0, i).last() == c);
        let t = if c == 0 { x } else { y };
        let img = word_image(w.subrange(0, i), x, y);
        assert(img == a + t);
        let h = ((i - 1) * q) / n;
        let h1 = (i * q) / n;
        assert(occurrences(w.subrange(0, i - 1), 1usize) == h);
        assert(occurrences(w.subrange(0, i), 1usize) == h1);
        lemma_occurrences_prefix_step(w, i - 1);
        assert((i - 1) * q >= 0 && i * q >= 0) by (nonlinear_arith)
            requires
                i >= 1,
                q >= 0,
        ;
        lemma_floor_bounds((i - 1) * q, n);
        lemma_floor_bounds(i * q, n);
        assert(c <= 1);
        lemma_occurrences_concat_prefix(a, t, t.len() as int);
        assert(t.subrange(0, t.len() as int) =~= t);
        lemma_occurrences_add(a, t, 1usize);
        lemma_occurrences_short();
        lemma_d_formula(i, h1, q, n, p);
        assert forall|m: int| 0 <= m <= img.len() implies #[trigger] occurrences(img.subrange(0, m), 1usize) == (m * n) / (n + p) by {
            if m <= a.len() {
                lemma_occurrences_concat_prefix(a, t, 0);
                assert(img.subrange(0, m) == a.subrange(0, m));
            } else if m == img.len() {
                assert(img.subrange(0, m) =~= img);
                lemma_occurrences_add(a, t, 1usize);
            } else {
                // the 0 of a `01`, in the middle
                assert(c == 0 && m == a.len() + 1);
                lemma_occurrences_concat_prefix(a, t, 1);
                assert(t.subrange(0, 1) =~= seq![0usize]);
                assert(h1 == h);
                assert(i * q == (i - 1) * q + q) by (nonlinear_arith);
                lemma_d_formula_mid(i - 1, h, q, n, p);
                assert(2 * (i - 1) - h + 1 == m);
            }
        }
    }
}

/// Replacing each 1 of a word on the line of slope `q / n` by `01` gives a word on the line of
/// slope `q / (n + q)`.
proof fn lemma_image_g_prefix(w: Seq<Letter>, q: int, n: int, i: int)
    requires
        n > 0,
        q >= 0,
        binary_word(w),
        line_word(w, q, n),
        0 <= i <= w.len(),
    ensures
        ({
            let img = word_image(w.subrange(0, i), seq![0usize], seq![0usize, 1usize]);
            &&& img.len() == i + (i * q) / n
            &&& occurrences(img, 1usize) == (i * q) / n
            &&& forall|m: int| 0 <= m <= img.len() ==> #[trigger] occurrences(img.subrange(0, m), 1usize) == (m * q) / (n + q)
        }),
    decreases i,
{
    let x = seq![0usize];
    let y = seq![0usize, 1usize];
    if i == 0 {
        let img = word_image(w.subrange(0, 0), x, y);
        assert(img =~= Seq::<Letter>::empty());
        assert((0 * q) / n == 0);
        assert forall|m: int| 0 <= m <= img.len() implies #[trigger] occurrences(img.subrange(0, m), 1usize) == (m * q) / (n + q) by {
            assert(m == 0);
            assert(img.subrange(0, 0) =~= Seq::<Letter>::empty());
            assert((0 * q) / (n + q) == 0);
        }
    } else {
        lemma_image_g_prefix(w, q, n, i - 1);
        let u = w.subrange(0, i - 1);
        let a = word_image(u, x, y);
        let c = w[i - 1];
        assert(w.subrange(0, i).drop_last() =~= u);
        assert(w.subrange(0, i).last() == c);
        let t = if c == 0 { x } else { y };
        let img = word_image(w.subrange(0, i), x, y);
        assert(img == a + t);
        let h = ((i - 1) * q) / n;
        let h1 = (i * q) / n;
        assert(occurrences(w.subrange(0, i - 1), 1usize) == h);
        assert(occurrences(w.subrange(0, i), 1usize) == h1);
        lemma_occurrences_prefix_step(w, i - 1);
        assert((i - 1) * q >= 0 && i * q >= 0) by (nonlinear_arith)
            requires
                i >= 1,
                q >= 0,
        ;
        lemma_floor_bounds((i - 1) * q, n);
        lemma_floor_bounds(i * q, n);
        assert(c <= 1);
        lemma_occurrences_concat_prefix(a, t, t.len() as int);
        assert(t.subrange(0, t.len() as int) =~= t);
        lemma_occurrences_add(a, t, 1usize);
        lemma_occurrences_short();
        lemma_g_formula(i, h1, q, n);
        assert forall|m: int| 0 <= m <= img.len() implies #[trigger] occurrences(img.subrange(0, m), 1usize) == (m * q) / (n + q) by {
            if m <= a.len() {
                lemma_occurrences_concat_prefix(a, t, 0);
                assert(img.subrange(0, m) == a.subrange(0, m));
            } else if m == img.len() {
                assert(img.subrange(0, m) =~= img);
                lemma_occurrences_add(a, t, 1usize);
            } else {
                // the 0 of a `01`, in the middle
                assert(c == 1 && m == a.len() + 1);
                lemma_occurrences_concat_prefix(a, t, 1);
                assert(t.subrange(0, 1) =~= seq![0usize]);
                lemma_g_formula_mid(i - 1, h, q, n);
                assert(i - 1 + h + 1 == m);
            }
        }
    }
}

/// `christoffel(p, p + q)` is `christoffel(p, q)` with each 0 replaced by `01`.
proof fn lemma_christoffel_d(p: nat, q: nat)
    requires
        p + q > 0,
    ensures
        christoffel(p, p + q) == word_image(christoffel(p, q), seq![0usize, 1usize], seq![1usize]),
{
    let n = (p + q) as int;
    let c = christoffel(p, q);
    lemma_christoffel_facts(p, q);
    lemma_christoffel_facts(p, p + q);
    lemma_image_d_prefix(c, q as int, n, p as int, n);
    assert(c.subrange(0, n) =~= c);
    let img = word_image(c, seq![0usize, 1usize], seq![1usize]);
    assert((n * q) / n == q as int) by {
        vstd::arithmetic::div_mod::lemma_div_by_multiple(q as int, n);
        vstd::arithmetic::mul::lemma_mul_is_commutative(n, q as int);
    }
    assert(img.len() == p + (p + q));
    assert(binary_word(seq![0usize, 1usize]));
    assert(binary_word(seq![1usize]));
    lemma_image_binary(c, seq![0usize, 1usize], seq![1usize]);
    assert(line_word(img, (p + q) as int, (p + (p + q)) as int));
    lemma_line_unique(christoffel(p, p + q), img, (p + q) as int, (p + (p + q)) as int);
}

/// `christoffel(p + q, q)` is `christoffel(p, q)` with each 1 replaced by `01`.
proof fn lemma_christoffel_g(p: nat, q: nat)
    requires
        p + q > 0,
    ensures
        christoffel(p + q, q) == word_image(christoffel(p, q), seq![0usize], seq![0usize, 1usize]),
{
    let n = (p + q) as int;
    let c = christoffel(p, q);
    lemma_christoffel_facts(p, q);
    lemma_christoffel_facts(p + q, q);
    lemma_image_g_prefix(c, q as int, n, n);
    assert(c.subrange(0, n) =~= c);
    let img = word_image(c, seq![0usize], seq![0usize, 1usize]);
    assert((n * q) / n == q as int) by {
        vstd::arithmetic::div_mod::lemma_div_by_multiple(q as int, n);
        vstd::arithmetic::mul::lemma_mul_is_commutative(n, q as int);
    }
    assert(img.len() == (p + q) + q);
    assert(binary_word(seq![0usize]));
    assert(binary_word(seq![0usize, 1usize]));
    lemma_image_binary(c, seq![0usize], seq![0usize, 1usize]);
    assert(line_word(img, q as int, (p + q + q) as int));
    lemma_line_unique(christoffel(p + q, q), img, q as int, (p + q + q) as int);
}

/// A word is below itself extended.
proof fn lemma_lex_prefix_lt(x: Seq<Letter>, y: Seq<Letter>)
    requires
        y.len() > 0,
    ensures
        lex_lt(x, x + y),
    decreases x.len(),
{
    if x.len() > 0 {
        assert((x + y).drop_first() =~= x.drop_first() + y);
        assert((x + y)[0] == x[0]);
        lemma_lex_prefix_lt(x.drop_first(), y);
    } else {
        assert(x + y =~= y);
    }
}

/// A common prefix keeps the order.
proof fn lemma_lex_cancel(f: Seq<Letter>, y: Seq<Letter>, z: Seq<Letter>)
    requires
        lex_lt(y, z),
    ensures
        lex_lt(f + y, f + z),
    decreases f.len(),
{
    if f.len() > 0 {
        assert((f + y).drop_first() =~= f.drop_first() + y);
        assert((f + z).drop_first() =~= f.drop_first() + z);
        assert((f + y)[0] == f[0] && (f + z)[0] == f[0]);
        lemma_lex_cancel(f.drop_first(), y, z);
    } else {
        assert(f + y =~= y);
        assert(f + z =~= z);
    }
}

/// A word below `y` and at least as long stays below `y` when extended.
proof fn lemma_lex_extend(x: Seq<Letter>, y: Seq<Letter>, z: Seq<Letter>)
    requires
        lex_lt(x, y),
        x.len() >= y.len(),
    ensures
        lex_lt(x + z, y),
    decreases x.len(),
{
    if x.len() > 0 && y.len() > 0 && x[0] == y[0] {
        assert((x + z).drop_first() =~= x.drop_first() + z);
        assert((x + z)[0] == x[0]);
        lemma_lex_extend(x.drop_first(), y.drop_first(), z);
    } else if x.len() > 0 && y.len() > 0 {
        assert((x + z)[0] == x[0]);
    }
}

proof fn lemma_image_short(f: Seq<Letter>, g: Seq<Letter>)
    ensures
        word_image(seq![0usize], f, g) == f,
        word_image(seq![0usize, 1usize], f, g) == f + g,
        word_image(seq![1usize], f, g) == g,
{
    assert(seq![0usize].drop_last() =~= Seq::<Letter>::empty());
    assert(seq![1usize].drop_last() =~= Seq::<Letter>::empty());
    assert(seq![0usize, 1usize].drop_last() =~= seq![0usize]);
    assert(word_image(Seq::<Letter>::empty(), f, g) == Seq::<Letter>::empty());
    assert(Seq::<Letter>::empty() + f =~= f);
    assert(Seq::<Letter>::empty() + g =~= g);
    assert(seq![0usize].last() == 0 && seq![1usize].last() == 1 && seq![0usize, 1usize].last() == 1);
    assert(word_image(seq![0usize], f, g) == word_image(Seq::<Letter>::empty(), f, g) + f);
    assert(word_image(seq![1usize], f, g) == word_image(Seq::<Letter>::empty(), f, g) + g);
    assert(word_image(seq![0usize, 1usize], f, g) == word_image(seq![0usize], f, g) + g);
}

/// Replacing 0 by 0 and 1 by 1 changes no binary word.
proof fn lemma_image_identity(w: Seq<Letter>)
    requires
        binary_word(w),
    ensures
        word_image(w, seq![0usize], seq![1usize]) == w,
    decreases w.len(),
{
    if w.len() > 0 {
        let u = w.drop_last();
        assert forall|i: int| 0 <= i < u.len() implies #[trigger] u[i] <= 1 by {
            assert(u[i] == w[i]);
        }
        lemma_image_identity(u);
        assert(w[w.len() - 1] <= 1);
        if w.last() == 0 {
            assert(u + seq![0usize] =~= w);
        } else {
            assert(u + seq![1usize] =~= w);
        }
    }
}

/// The word of `c` letters 0.
pub open spec fn zeros(c: nat) -> Seq<Letter> {
    Seq::new(c, |i: int| 0usize)
}

proof fn lemma_image_zeros(c: nat, f: Seq<Letter>, g: Seq<Letter>)
    ensures
        word_image(zeros(c), f, g) == repeat_seq(f, c),
    decreases c,
{
    if c > 0 {
        assert(zeros(c).drop_last() =~= zeros((c - 1) as nat));
        lemma_image_zeros((c - 1) as nat, f, g);
    } else {
        assert(zeros(c) =~= Seq::<Letter>::empty());
    }
}

/// The Christoffel word with one letter 1 is `c` letters 0 and then 1.
proof fn lemma_christoffel_one(c: nat)
    ensures
        christoffel(c, 1) == zeros(c).push(1usize),
{
    let n = (c + 1) as int;
    assert forall|i: int| 0 <= i < n implies #[trigger] christoffel(c, 1)[i] == zeros(c).push(1usize)[i] by {
        assert(i * 1 == i && (i + 1) * 1 == i + 1);
        lemma_floor_is(i, n, 0);
        if i < c {
            lemma_floor_is(i + 1, n, 0);
        } else {
            lemma_floor_is(i + 1, n, 1);
        }
    }
    assert(christoffel(c, 1) =~= zeros(c).push(1usize));
}

/// The primitive MOS word by Bjorklund's algorithm, for `gcd(a, b) == 1` and `b > 0`.
fn bjorklund_primitive(a: usize, b: usize) -> (r: (Vec<Letter>, CountVector<Letter>))
    requires
        spec_gcd(a as nat, b as nat) == 1,
        b > 0,
        a + b <= i32::MAX,
    ensures
        r.0@ == christoffel(a as nat, b as nat),
        r.0@.len() == a + b,
        occurrences(r.0@, 0) == a,
        occurrences(r.0@, 1) == b,
        r.1@ == count_entries::<Letter>(r.0@.subrange(0, least_inverse(b as int, (a + b) as int))),
{
    proof {
        crate::helpers::lemma_gcd_add(a as nat, b as nat);
        crate::helpers::lemma_inverse_exists(b as nat, (a + b) as nat);
    }
    let inv = modinv(b as i32, (a + b) as i32);
    let count_gener_steps: usize = match inv {
        Some(x) => x as usize,
        None => {
            proof {
                let w = choose|x: int| #[trigger] crate::helpers::is_inverse_mod(b as int, x, (a + b) as int);
                assert(false);
            }
            0
        },
    };
    let mut first: Vec<Letter> = Vec::new();
    first.push(0);
    let mut second: Vec<Letter> = Vec::new();
    second.push(1);
    let mut count_first: usize = a;
    let mut count_second: usize = b;
    assert(occurrences(first@, 0) == 1 && occurrences(first@, 1) == 0) by {
        assert(first@.drop_last() =~= Seq::<Letter>::empty());
        assert(first@.last() == 0);
        assert(occurrences(Seq::<Letter>::empty(), 0) == 0);
        assert(occurrences(Seq::<Letter>::empty(), 1) == 0);
    }
    assert(occurrences(second@, 0) == 0 && occurrences(second@, 1) == 1) by {
        assert(second@.drop_last() =~= Seq::<Letter>::empty());
        assert(second@.last() == 1);
        assert(occurrences(Seq::<Letter>::empty(), 0) == 0);
        assert(occurrences(Seq::<Letter>::empty(), 1) == 0);
    }
    proof {
        lemma_christoffel_facts(a as nat, b as nat);
        lemma_image_identity(christoffel(a as nat, b as nat));
        assert(first@ == seq![0usize]);
        assert(second@ == seq![1usize]);
        assert(first@ + second@ =~= seq![0usize, 1usize]);
        assert(lex_lt(seq![0usize, 1usize], seq![1usize]));
    }
    while count_second != 1
        invariant
            christoffel(a as nat, b as nat) == word_image(christoffel(count_first as nat, count_second as nat), first@, second@),
            lex_lt(first@ + second@, second@),
            first@.len() >= 1,
            second@.len() >= 1,
            count_second >= 1,
            spec_gcd(count_first as nat, count_second as nat) == 1,
            a + b <= i32::MAX,
            count_first * first@.len() + count_second * second@.len() == a + b,
            count_first * occurrences(first@, 0) + count_second * occurrences(second@, 0) == a,
            count_first * occurrences(first@, 1) + count_second * occurrences(second@, 1) == b,
        decreases count_first + count_second,
    {
        proof {
            if count_first == 0 {
                crate::helpers::lemma_gcd_symmetric(0, count_second as nat);
                assert(spec_gcd(count_second as nat, 0) == count_second);
                vstd::arithmetic::div_mod::lemma_small_mod(0, count_second as nat);
                assert(spec_gcd(0, count_second as nat) == spec_gcd(count_second as nat, 0nat % (count_second as nat)));
            }
            assert(count_first >= 1);
            assert(first@.len() + second@.len() <= a + b) by (nonlinear_arith)
                requires
                    count_first >= 1,
                    count_second >= 1,
                    count_first * first@.len() + count_second * second@.len() == a + b,
            ;
        }
        let old_first = copy_symbols(&first);
        proof {
            lemma_models_usize(old_first@);
            lemma_models_usize(first@);
        }
        let ghost f = first@;
        let ghost s = second@;
        extend_word(&mut first, &second);
        proof {
            lemma_occurrences_add(f, s, 0);
            lemma_occurrences_add(f, s, 1);
        }
        let ghost ocf = count_first as nat;
        let ghost ocs = count_second as nat;
        let ghost br1 = count_first > count_second;
        if count_first > count_second {
            second = old_first;
            let cs = count_second;
            let cf = count_first;
            count_first = cs;
            count_second = cf - cs;
            proof {
                crate::helpers::lemma_gcd_add((cf - cs) as nat, cs as nat);
                crate::helpers::lemma_gcd_symmetric(cf as nat, cs as nat);
                crate::helpers::lemma_gcd_symmetric(cs as nat, (cf - cs) as nat);
                assert(cs * (f.len() + s.len()) + (cf - cs) * f.len() == cf * f.len() + cs * s.len()) by (nonlinear_arith);
                assert(cs * (occurrences(f, 0) + occurrences(s, 0)) + (cf - cs) * occurrences(f, 0) == cf * occurrences(f, 0) + cs * occurrences(s, 0)) by (nonlinear_arith);
                assert(cs * (occurrences(f, 1) + occurrences(s, 1)) + (cf - cs) * occurrences(f, 1) == cf * occurrences(f, 1) + cs * occurrences(s, 1)) by (nonlinear_arith);
            }
        } else {
            proof {
                if count_first == count_second {
                    assert(spec_gcd(count_first as nat, count_first as nat) == count_first) by {
                        vstd::arithmetic::div_mod::lemma_mod_self_0(count_first as int);
                        assert(spec_gcd(count_first as nat, count_first as nat) == spec_gcd(count_first as nat, 0));
                    }
                }
            }
            let cs = count_second;
            let cf = count_first;
            count_second = cs - cf;
            proof {
                crate::helpers::lemma_gcd_add((cs - cf) as nat, cf as nat);
                crate::helpers::lemma_gcd_symmetric(cf as nat, cs as nat);
                crate::helpers::lemma_gcd_symmetric(cf as nat, (cs - cf) as nat);
                assert(cf * (f.len() + s.len()) + (cs - cf) * s.len() == cf * f.len() + cs * s.len()) by (nonlinear_arith);
                assert(cf * (occurrences(f, 0) + occurrences(s, 0)) + (cs - cf) * occurrences(s, 0) == cf * occurrences(f, 0) + cs * occurrences(s, 0)) by (nonlinear_arith);
                assert(cf * (occurrences(f, 1) + occurrences(s, 1)) + (cs - cf) * occurrences(s, 1) == cf * occurrences(f, 1) + cs * occurrences(s, 1)) by (nonlinear_arith);
            }
        }
        proof {
            if br1 {
                assert(first@ == f + s && second@ == f);
                lemma_lex_prefix_lt(f, s);
            } else {
                assert(first@ == f + s && second@ == s);
            }
        }
        if matches!(compare_words(&first, &second), Trichotomy::Greater) {
            let tmp = first;
            first = second;
            second = tmp;
            let tmpc = count_first;
            count_first = count_second;
            count_second = tmpc;
            proof {
                crate::helpers::lemma_gcd_symmetric(count_first as nat, count_second as nat);
            }
        }
        proof {
            lemma_image_short(f, s);
            if br1 {
                assert(first@ == f && second@ == f + s);
                assert(count_first == ocf - ocs && count_second == ocs);
                lemma_christoffel_g((ocf - ocs) as nat, ocs);
                assert(((ocf - ocs) as nat + ocs) as nat == ocf);
                lemma_image_compose(christoffel((ocf - ocs) as nat, ocs), seq![0usize], seq![0usize, 1usize], f, s);
                lemma_lex_cancel(f, f + s, s);
                assert(first@ + second@ =~= f + (f + s));
            } else {
                assert(first@ == f + s && second@ == s);
                assert(count_first == ocf && count_second == ocs - ocf);
                lemma_christoffel_d(ocf, (ocs - ocf) as nat);
                assert((ocf + (ocs - ocf) as nat) as nat == ocs);
                lemma_image_compose(christoffel(ocf, (ocs - ocf) as nat), seq![0usize, 1usize], seq![1usize], f, s);
                lemma_lex_extend(f + s, s, s);
            }
        }
    }
    proof {
        assert(first@.len() * count_first <= a + b) by (nonlinear_arith)
            requires
                count_first * first@.len() + count_second * second@.len() == a + b,
        ;
    }
    let mut scale = repeat_word(&first, count_first);
    proof {
        lemma_occurrences_repeat(first@, count_first as nat, 0);
        lemma_occurrences_repeat(first@, count_first as nat, 1);
        lemma_occurrences_add(scale@, second@, 0);
        lemma_occurrences_add(scale@, second@, 1);
    }
    extend_word(&mut scale, &second);
    proof {
        lemma_christoffel_one(count_first as nat);
        lemma_image_concat(zeros(count_first as nat), seq![1usize], first@, second@);
        lemma_image_zeros(count_first as nat, first@, second@);
        lemma_image_short(first@, second@);
        assert(zeros(count_first as nat).push(1usize) =~= zeros(count_first as nat) + seq![1usize]);
    }
    proof {
        crate::helpers::lemma_least_inverse_from(b as int, (a + b) as int, 0, count_gener_steps as int);
    }
    let prefix_steps = prefix(&scale, count_gener_steps);
    proof {
        lemma_models_usize(prefix_steps@);
        lemma_models_usize(scale@);
    }
    let gener = CountVector::from_slice(&prefix_steps);
    (scale, gener)
}

/// Return the brightest mode of the MOS `a`L `b`s and its bright generator, using Bjorklund's algorithm.
#[verifier::spinoff_prover]
#[verifier::rlimit(40)]
pub fn brightest_mos_mode_and_gener_bjorklund(a: usize, b: usize) -> (r: (Vec<Letter>, CountVector<Letter>))
    requires
        b > 0,
        a + b <= i32::MAX,
    ensures
        r.0@ == mos_word(a as nat, b as nat),
        r.1@ == bright_gener(a as nat, b as nat),
        r.0@.len() == a + b,
        occurrences(r.0@, 0) == a,
        occurrences(r.0@, 1) == b,
        r.0@ == repeat_seq(
            r.0@.subrange(0, (a + b) / spec_gcd(a as nat, b as nat) as int),
            spec_gcd(a as nat, b as nat),
        ),
        r.1@ == count_entries::<Letter>(r.0@.subrange(0, bright_gener_len(a as nat, b as nat))),
{
    let d = gcd(a as u32, b as u32) as usize;
    proof {
        crate::helpers::lemma_gcd_positive(a as nat, b as nat);
    }
    proof {
        lemma_mos_quotients(a as nat, b as nat);
    }
    if d == 1 {
        proof {
            lemma_div_one(a as nat);
            lemma_div_one(b as nat);
            lemma_div_one((a + b) as nat);
        }
        let (prim, gener) = bjorklund_primitive(a, b);
        proof {
            lemma_repeat_one(prim@);
            assert(a as nat / 1 == a as nat && b as nat / 1 == b as nat);
            assert(prim@.subrange(0, (a + b) as int) =~= prim@);
        }
        (prim, gener)
    } else {
        let a1 = a / d;
        let b1 = b / d;
        proof {
            lemma_mos_quotients(a as nat, b as nat);
        }
        let (prim, gener) = bjorklund_primitive(a1, b1);
        let full = repeat_word(&prim, d);
        proof {
            lemma_bjorklund_repeat(prim@, full@, a as nat, b as nat, d as nat);
            assert(prim@ == christoffel(a as nat / spec_gcd(a as nat, b as nat), b as nat / spec_gcd(a as nat, b as nat)));
        }
        (full, gener)
    }
}

proof fn lemma_bjorklund_repeat(prim: Seq<Letter>, full: Seq<Letter>, a: nat, b: nat, d: nat)
    requires
        a + b > 0,
        d == spec_gcd(a, b),
        d != 1,
        full == repeat_seq(prim, d),
        prim.len() == a / d + b / d,
        occurrences(prim, 0) == a / d,
        occurrences(prim, 1) == b / d,
    ensures
        full.len() == a + b,
        occurrences(full, 0) == a,
        occurrences(full, 1) == b,
        full == repeat_seq(full.subrange(0, ((a + b) / d) as int), d),
        full.subrange(0, bright_gener_len(a, b)) == prim.subrange(0, least_inverse((b / d) as int, (a / d + b / d) as int)),
{
    lemma_mos_quotients(a, b);
    lemma_occurrences_repeat(prim, d, 0);
    lemma_occurrences_repeat(prim, d, 1);
    lemma_repeat_prefix(prim, d);
    assert(d * (a / d) == a && d * (b / d) == b);
    assert(d * prim.len() == a + b) by (nonlinear_arith)
        requires
            prim.len() == a / d + b / d,
            d * (a / d) == a,
            d * (b / d) == b,
    ;
    assert(full.subrange(0, ((a + b) / d) as int) =~= prim);
    crate::helpers::lemma_least_inverse_bound((b / d) as int, (a / d + b / d) as int, 0);
    assert(full.subrange(0, bright_gener_len(a, b)) =~= prim.subrange(0, least_inverse((b / d) as int, (a / d + b / d) as int)));
}

proof fn lemma_mos_quotients(a: nat, b: nat)
    requires
        a + b > 0,
    ensures
        ({
            let d = spec_gcd(a, b);
            &&& d >= 1
            &&& spec_gcd(a / d, b / d) == 1
            &&& a == d * (a / d)
            &&& b == d * (b / d)
            &&& a / d * d == a
            &&& b / d * d == b
            &&& (a / d + b / d) * d == a + b
            &&& (a + b) / d == a / d + b / d
            &&& a / d + b / d <= a + b
            &&& a / d + b / d > 0
            &&& (b > 0 ==> b / d > 0)
            &&& a / d <= a
            &&& b / d <= b
        }),
{
    let d = spec_gcd(a, b);
    crate::helpers::lemma_gcd_positive(a, b);
    crate::helpers::lemma_gcd_quotients_coprime(a, b);
    crate::helpers::lemma_gcd_divides(a, b);
    let a1 = a / d;
    let b1 = b / d;
    vstd::arithmetic::div_mod::lemma_fundamental_div_mod(a as int, d as int);
    vstd::arithmetic::div_mod::lemma_fundamental_div_mod(b as int, d as int);
    assert(a == d * a1 && b == d * b1);
    assert(a1 * d == a && b1 * d == b && (a1 + b1) * d == a + b) by (nonlinear_arith)
        requires
            a == d * a1,
            b == d * b1,
    ;
    vstd::arithmetic::div_mod::lemma_div_multiples_vanish((a1 + b1) as int, d as int);
    vstd::arithmetic::mul::lemma_mul_is_commutative((a1 + b1) as int, d as int);
    assert(a1 <= a && b1 <= b && (b > 0 ==> b1 > 0) && a1 + b1 > 0) by (nonlinear_arith)
        requires
            a == d * a1,
            b == d * b1,
            d >= 1,
            a + b > 0,
    ;
}

proof fn lemma_repeat_prefix<A>(s: Seq<A>, d: nat)
    requires
        d >= 1,
    ensures
        repeat_seq(s, d).subrange(0, s.len() as int) == s,
        repeat_seq(s, d).len() >= s.len(),
        forall|i: int| 0 <= i < s.len() ==> #[trigger] repeat_seq(s, d)[i] == s[i],
    decreases d,
{
    if d == 1 {
        lemma_repeat_one(s);
        assert(s.subrange(0, s.len() as int) =~= s);
    } else {
        lemma_repeat_prefix(s, (d - 1) as nat);
        let p = repeat_seq(s, (d - 1) as nat);
        assert(repeat_seq(s, d) == p + s);
        assert forall|i: int| 0 <= i < s.len() implies #[trigger] repeat_seq(s, d)[i] == s[i] by {
            assert(repeat_seq(s, d)[i] == p[i]);
        }
        assert(repeat_seq(s, d).subrange(0, s.len() as int) =~= s);
    }
}

proof fn lemma_entries_norm_concat<K>(a: Seq<(K, i32)>, b: Seq<(K, i32)>)
    ensures
        entries_norm(a + b) == entries_norm(a) + entries_norm(b),
    decreases b.len(),
{
    if b.len() == 0 {
        assert(a + b =~= a);
    } else {
        lemma_entries_norm_concat(a, b.drop_last());
        assert((a + b).drop_last() =~= a + b.drop_last());
        assert((a + b).last() == b.last());
    }
}

/// All counts are positive.
pub open spec fn all_positive<K>(es: Seq<(K, i32)>) -> bool {
    forall|i: int| 0 <= i < es.len() ==> #[trigger] es[i].1 > 0
}

proof fn lemma_norm_single<K>(k: K, v: i32)
    ensures
        entries_norm(seq![(k, v)]) == if v >= 0 { v as int } else { -v },
{
    let s = seq![(k, v)];
    assert(s.drop_last() =~= Seq::<(K, i32)>::empty());
    assert(s.last() == (k, v));
    assert(entries_norm(Seq::<(K, i32)>::empty()) == 0);
    assert(entries_norm(s) == entries_norm(s.drop_last()) + if s.last().1 >= 0 { s.last().1 as int } else { -s.last().1 });
}

proof fn lemma_entries_add_pos_norm<T: Symbol>(es: Seq<(T::Model, i32)>, k: T::Model, v: i32)
    requires
        v > 0,
        all_positive(es),
        add_fits::<T>(es, k, v),
    ensures
        entries_norm(entries_add::<T>(es, k, v)) == entries_norm(es) + v,
        all_positive(entries_add::<T>(es, k, v)),
    decreases es.len(),
{
    let r = entries_add::<T>(es, k, v);
    if es.len() == 0 {
        assert(r == seq![(k, v)]);
        lemma_norm_single(k, v);
        assert(entries_norm(es) == 0);
    } else {
        let tail = es.drop_first();
        assert(es =~= seq![es[0]] + tail);
        lemma_entries_norm_concat(seq![es[0]], tail);
        lemma_norm_single(es[0].0, es[0].1);
        assert(es[0].1 > 0);
        assert(entries_norm(es) == es[0].1 + entries_norm(tail));
        if T::model_lt(k, es[0].0) {
            assert(r == seq![(k, v)] + es);
            lemma_entries_norm_concat(seq![(k, v)], es);
            lemma_norm_single(k, v);
            assert(all_positive(r)) by {
                assert forall|i: int| 0 <= i < r.len() implies #[trigger] r[i].1 > 0 by {
                    if i > 0 {
                        assert(r[i] == es[i - 1]);
                    }
                }
            }
        } else if k == es[0].0 {
            assert(entries_get::<T>(es, k) == Some(es[0].1));
            let h = seq![(k, (es[0].1 + v) as i32)];
            assert(r == h + tail);
            lemma_entries_norm_concat(h, tail);
            lemma_norm_single(k, (es[0].1 + v) as i32);
            assert(all_positive(r)) by {
                assert forall|i: int| 0 <= i < r.len() implies #[trigger] r[i].1 > 0 by {
                    if i > 0 {
                        assert(r[i] == es[i]);
                    }
                }
            }
        } else {
            assert(all_positive(tail)) by {
                assert forall|i: int| 0 <= i < tail.len() implies #[trigger] tail[i].1 > 0 by {
                    assert(tail[i] == es[i + 1]);
                }
            }
            assert(entries_get::<T>(es, k) == entries_get::<T>(tail, k));
            lemma_entries_add_pos_norm::<T>(tail, k, v);
            let t = entries_add::<T>(tail, k, v);
            assert(r == seq![es[0]] + t);
            lemma_entries_norm_concat(seq![es[0]], t);
            assert(all_positive(r)) by {
                assert forall|i: int| 0 <= i < r.len() implies #[trigger] r[i].1 > 0 by {
                    if i > 0 {
                        assert(r[i] == t[i - 1]);
                    }
                }
            }
        }
    }
}

/// A count of an entry list with positive counts is at most its norm.
proof fn lemma_get_le_norm<T: Symbol>(es: Seq<(T::Model, i32)>, k: T::Model)
    requires
        all_positive(es),
    ensures
        entries_get::<T>(es, k) matches Some(c) ==> c <= entries_norm(es),
    decreases es.len(),
{
    if es.len() > 0 {
        let tail = es.drop_first();
        assert(es =~= seq![es[0]] + tail);
        lemma_entries_norm_concat(seq![es[0]], tail);
        lemma_norm_single(es[0].0, es[0].1);
        lemma_entries_norm_nonneg(tail);
        assert(all_positive(tail)) by {
            assert forall|i: int| 0 <= i < tail.len() implies #[trigger] tail[i].1 > 0 by {
                assert(tail[i] == es[i + 1]);
            }
        }
        lemma_get_le_norm::<T>(tail, k);
    }
}

/// Each count of an entry list with positive counts is at most its norm.
proof fn lemma_entry_le_norm<K>(w: Seq<(K, i32)>, i: int)
    requires
        all_positive(w),
        0 <= i < w.len(),
    ensures
        w[i].1 <= entries_norm(w),
{
    let pre = w.subrange(0, i);
    let post = w.subrange(i + 1, w.len() as int);
    assert(w =~= pre + seq![w[i]] + post);
    lemma_entries_norm_concat(pre + seq![w[i]], post);
    lemma_entries_norm_concat(pre, seq![w[i]]);
    lemma_norm_single(w[i].0, w[i].1);
    lemma_entries_norm_nonneg(pre);
    lemma_entries_norm_nonneg(post);
}

/// Adding two entry lists with positive counts whose norms add up to at most `i32::MAX`
/// does not overflow; the sum has positive counts and the sum of the norms.
pub proof fn lemma_entries_sum_norm<T: Symbol>(a: Seq<(T::Model, i32)>, w: Seq<(T::Model, i32)>)
    requires
        sorted_keys::<T>(a),
        sorted_keys::<T>(w),
        all_positive(a),
        all_positive(w),
        entries_norm(a) + entries_norm(w) <= i32::MAX,
    ensures
        forall|i: int| 0 <= i < w.len() ==> add_fits::<T>(a, #[trigger] w[i].0, w[i].1),
        entries_norm(entries_sum::<T>(a, w)) == entries_norm(a) + entries_norm(w),
        all_positive(entries_sum::<T>(a, w)),
        sorted_keys::<T>(entries_sum::<T>(a, w)),
    decreases w.len(),
{
    lemma_entries_norm_nonneg(a);
    lemma_entries_norm_nonneg(w);
    assert forall|i: int| 0 <= i < w.len() implies add_fits::<T>(a, #[trigger] w[i].0, w[i].1) by {
        lemma_get_le_norm::<T>(a, w[i].0);
        lemma_entry_le_norm(w, i);
    }
    lemma_entries_sum_sorted::<T>(a, w);
    if w.len() > 0 {
        let n = w.len() as int;
        let wp = w.drop_last();
        assert(w.subrange(0, n - 1) =~= wp);
        assert(wp =~= w.subrange(0, n - 1));
        assert(w =~= wp + seq![w.last()]);
        lemma_entries_norm_concat(wp, seq![w.last()]);
        lemma_norm_single(w.last().0, w.last().1);
        lemma_entries_norm_nonneg(wp);
        assert(w.last().1 > 0);
        assert(all_positive(wp)) by {
            assert forall|i: int| 0 <= i < wp.len() implies #[trigger] wp[i].1 > 0 by {
                assert(wp[i] == w[i]);
            }
        }
        lemma_entries_sum_norm::<T>(a, wp);
        let p = entries_sum::<T>(a, wp);
        lemma_entries_sum_get::<T>(a, w, n - 1);
        lemma_get_le_norm::<T>(a, w.last().0);
        assert(add_fits::<T>(p, w.last().0, w.last().1));
        lemma_entries_add_pos_norm::<T>(p, w.last().0, w.last().1);
    }
}

/// The counts of a word are positive and add up to its length.
pub proof fn lemma_count_entries_norm<T: Symbol>(s: Seq<T::Model>)
    requires
        s.len() <= i32::MAX,
    ensures
        entries_norm(count_entries::<T>(s)) == s.len(),
        all_positive(count_entries::<T>(s)),
    decreases s.len(),
{
    if s.len() > 0 {
        let prev = s.drop_last();
        lemma_count_entries_norm::<T>(prev);
        lemma_entries_get_count_bound::<T>(prev, s.last());
        lemma_entries_add_pos_norm::<T>(count_entries::<T>(prev), s.last(), 1);
    }
}

/// The brightest MOS word has `a + b` letters, and its bright generator spans
/// `bright_gener_len(a, b)` steps, at most `a + b`.
pub proof fn lemma_mos_word_facts(a: nat, b: nat)
    requires
        a + b > 0,
        a + b <= i32::MAX,
    ensures
        mos_word(a, b).len() == a + b,
        0 <= bright_gener_len(a, b) <= a + b,
        entries_norm(bright_gener(a, b)) == bright_gener_len(a, b),
{
    lemma_mos_quotients(a, b);
    let d = spec_gcd(a, b);
    let c = christoffel(a / d, b / d);
    crate::helpers::lemma_least_inverse_bound((b / d) as int, (a / d + b / d) as int, 0);
    let prefix_len = bright_gener_len(a, b);
    assert(c.subrange(0, prefix_len).len() == prefix_len);
    lemma_count_entries_norm::<Letter>(c.subrange(0, prefix_len));
    lemma_occurrences_repeat(c, d, 0);
    assert(c.len() == a / d + b / d);
    assert(d * c.len() == a + b) by (nonlinear_arith)
        requires
            (a / d + b / d) * d == a + b,
            c.len() == a / d + b / d,
    ;
}

/// The mode of the MOS `a`L `b`s that lies `brightness` dark generators above the darkest mode.
pub open spec fn spec_mos_mode(a: nat, b: nat, brightness: nat) -> Seq<Letter> {
    let n = a + b;
    spec_rotate(mos_word(a, b), ((n - 1 - brightness % n) * bright_gener_len(a, b)) as int)
}

/// Brightness counts modulo the size of the MOS: brightness `k` and `k mod (a + b)` give one mode.
pub proof fn lemma_mos_mode_brightness_mod(a: nat, b: nat, k: nat)
    requires
        a + b > 0,
    ensures
        spec_mos_mode(a, b, k) == spec_mos_mode(a, b, k % (a + b)),
{
    vstd::arithmetic::div_mod::lemma_mod_twice(k as int, (a + b) as int);
}

/// The brightest mode, at brightness `a + b - 1`, is the MOS word itself.
pub proof fn lemma_mos_mode_brightest(a: nat, b: nat)
    requires
        a + b > 0,
        a + b <= i32::MAX,
    ensures
        spec_mos_mode(a, b, (a + b - 1) as nat) == mos_word(a, b),
{
    let n = a + b;
    lemma_mos_word_facts(a, b);
    vstd::arithmetic::div_mod::lemma_small_mod((n - 1) as nat, n);
    assert(((n - 1) as nat) % n == n - 1);
    let g = bright_gener_len(a, b);
    assert(n - 1 - ((n - 1) as nat) % n == 0);
    assert(0 * g == 0);
    assert(((n - 1 - ((n - 1) as nat) % n) * g) as int == 0);
    lemma_rotate_full(mos_word(a, b));
}

/// The mechanical word of slope `q / n` and intercept `r`, `n` letters long: letter `i` is 1
/// exactly when `(x q + r) / n` passes an integer between `x = i` and `x = i + 1`.
pub open spec fn mechanical(q: int, n: int, r: int) -> Seq<Letter> {
    Seq::new(n as nat, |i: int| if ((i + 1) * q + r) / n > (i * q + r) / n { 1usize } else { 0usize })
}

/// The floor of `(m q + r) / n`, the height of the line at `x = m`.
spec fn line_height(q: int, n: int, r: int, m: int) -> int {
    (m * q + r) / n
}

/// Each letter of a mechanical word of slope at most 1 is the rise of the line over that letter.
proof fn lemma_mechanical_letter(q: int, n: int, r: int, i: int)
    requires
        0 <= q <= n,
        n > 0,
        r >= 0,
        0 <= i < n,
    ensures
        mechanical(q, n, r)[i] as int == line_height(q, n, r, i + 1) - line_height(q, n, r, i),
{
    let x = i * q + r;
    assert((i + 1) * q + r == x + q) by (nonlinear_arith)
        requires
            x == i * q + r,
    ;
    vstd::arithmetic::div_mod::lemma_div_is_ordered(x, x + q, n);
    vstd::arithmetic::div_mod::lemma_div_is_ordered(x + q, x + n, n);
    vstd::arithmetic::div_mod::lemma_hoist_over_denominator(x, 1, n as nat);
}

/// A rotation of the Christoffel word of `p` zeros and `q` ones is the mechanical word
/// whose intercept is `k q` reduced modulo `p + q`.
proof fn lemma_rotate_christoffel(p: nat, q: nat, k: int)
    requires
        p + q > 0,
        k >= 0,
    ensures
        spec_rotate(christoffel(p, q), k) == mechanical(q as int, (p + q) as int, (k * q) % ((p + q) as int)),
{
    let n = (p + q) as int;
    let c = christoffel(p, q);
    let r = (k * q) % n;
    let m = mechanical(q as int, n, r);
    lemma_rotate_len(c, k);
    assert forall|i: int| 0 <= i < n implies #[trigger] spec_rotate(c, k)[i] == m[i] by {
        lemma_rotate_index(c, k, i);
        let j = (i + k) % n;
        let t = (i + k) / n;
        let u = (k * q) / n;
        vstd::arithmetic::div_mod::lemma_fundamental_div_mod(i + k, n);
        vstd::arithmetic::div_mod::lemma_fundamental_div_mod(k * q, n);
        let z = u - t * q;
        assert((j + 1) * q == ((i + 1) * q + r) + z * n && j * q == (i * q + r) + z * n) by (nonlinear_arith)
            requires
                i + k == n * t + j,
                k * q == n * u + r,
                z == u - t * q,
        ;
        vstd::arithmetic::div_mod::lemma_hoist_over_denominator((i + 1) * q + r, z, n as nat);
        vstd::arithmetic::div_mod::lemma_hoist_over_denominator(i * q + r, z, n as nat);
        assert(0 <= j < n);
    }
    assert(spec_rotate(c, k) =~= m);
}

/// A lexicographically smaller word of the same length differs first at a place where
/// its letter is the smaller one.
proof fn lemma_lex_lt_witness(a: Seq<Letter>, b: Seq<Letter>) -> (d: int)
    requires
        a.len() == b.len(),
        lex_lt(a, b),
    ensures
        0 <= d < a.len(),
        forall|x: int| 0 <= x < d ==> a[x] == b[x],
        a[d] < b[d],
    decreases a.len(),
{
    if a[0] < b[0] {
        0
    } else {
        let d0 = lemma_lex_lt_witness(a.drop_first(), b.drop_first());
        assert forall|x: int| 0 <= x < d0 + 1 implies a[x] == b[x] by {
            if x > 0 {
                assert(a.drop_first()[x - 1] == b.drop_first()[x - 1]);
            }
        }
        d0 + 1
    }
}

/// Two mechanical words of one slope agree up to place `j` only if their lines have
/// risen equally by then.
proof fn lemma_mechanical_equal_heights(q: int, n: int, r: int, s: int, j: int)
    requires
        0 <= q <= n,
        0 <= r < n,
        0 <= s < n,
        0 <= j <= n,
        forall|x: int| 0 <= x < j ==> #[trigger] mechanical(q, n, r)[x] == mechanical(q, n, s)[x],
    ensures
        line_height(q, n, r, j) == line_height(q, n, s, j),
    decreases j,
{
    if j == 0 {
        vstd::arithmetic::div_mod::lemma_small_mod(r as nat, n as nat);
        vstd::arithmetic::div_mod::lemma_small_mod(s as nat, n as nat);
        assert(0 * q + r == r && 0 * q + s == s);
        vstd::arithmetic::div_mod::lemma_basic_div(r, n);
        vstd::arithmetic::div_mod::lemma_basic_div(s, n);
    } else {
        lemma_mechanical_equal_heights(q, n, r, s, j - 1);
        lemma_mechanical_letter(q, n, r, j - 1);
        lemma_mechanical_letter(q, n, s, j - 1);
        assert(mechanical(q, n, r)[j - 1] == mechanical(q, n, s)[j - 1]);
    }
}

/// Raising the intercept never makes a mechanical word lexicographically smaller.
proof fn lemma_mechanical_lex_monotone(q: int, n: int, r: int, s: int)
    requires
        0 <= q <= n,
        0 <= r <= s < n,
    ensures
        !lex_lt(mechanical(q, n, s), mechanical(q, n, r)),
{
    let ws = mechanical(q, n, s);
    let wr = mechanical(q, n, r);
    if lex_lt(ws, wr) {
        let d = lemma_lex_lt_witness(ws, wr);
        lemma_mechanical_equal_heights(q, n, r, s, d);
        lemma_mechanical_letter(q, n, r, d);
        lemma_mechanical_letter(q, n, s, d);
        vstd::arithmetic::div_mod::lemma_div_is_ordered((d + 1) * q + r, (d + 1) * q + s, n);
        assert(false);
    }
}

/// The Christoffel word of `p` zeros and `q` ones is the mechanical word with intercept 0.
proof fn lemma_christoffel_mechanical(p: nat, q: nat)
    requires
        p + q > 0,
    ensures
        christoffel(p, q) == mechanical(q as int, (p + q) as int, 0),
{
    lemma_rotate_christoffel(p, q, 0);
    lemma_rotate_full(christoffel(p, q));
    assert(0 * (q as int) == 0);
    vstd::arithmetic::div_mod::lemma_small_mod(0, (p + q) as nat);
}

/// For coprime `a` and `b`, the brightest mode of the MOS `a`L `b`s is the lexicographically
/// first of its modes: no mode of it is smaller.
pub proof fn lemma_brightest_mode_is_lexicographically_first(a: nat, b: nat, k: int)
    requires
        a + b > 0,
        spec_gcd(a, b) == 1,
        k >= 0,
    ensures
        !lex_lt(spec_rotate(mos_word(a, b), k), mos_word(a, b)),
{
    let n = (a + b) as int;
    lemma_mos_quotients(a, b);
    assert(mos_word(a, b) =~= christoffel(a, b)) by {
        assert(repeat_seq(christoffel(a / 1, b / 1), 1) =~= repeat_seq(christoffel(a / 1, b / 1), 0) + christoffel(a / 1, b / 1));
    }
    lemma_rotate_christoffel(a, b, k);
    lemma_christoffel_mechanical(a, b);
    vstd::arithmetic::div_mod::lemma_mod_bound(k * b, n);
    lemma_mechanical_lex_monotone(b as int, n, 0, (k * b) % n);
}

/// For coprime `a` and `b`, the brightest mode of the MOS `a`L `b`s is its own least mode,
/// which is what `least_mode` and `booth` find.
pub proof fn lemma_brightest_mode_is_least_mode(a: nat, b: nat)
    requires
        a + b > 0,
        spec_gcd(a, b) == 1,
    ensures
        least_mode_of(mos_word(a, b)) == mos_word(a, b),
{
    let w = mos_word(a, b);
    lemma_mos_word_counts(a, b, 0usize);
    lemma_rotate_full(w);
    assert(is_rotation_of(w, w)) by {
        assert(w == spec_rotate(w, 0));
    }
    assert forall|k: int| 0 <= k < w.len() implies !lex_lt(#[trigger] spec_rotate(w, k), w) by {
        lemma_brightest_mode_is_lexicographically_first(a, b, k);
    }
    assert(is_least_mode(w, w));
    lemma_least_mode_of(w);
}

/// For coprime `a` and `b`, the mode of brightness 0 of the MOS `a`L `b`s, its darkest mode,
/// is the lexicographically last of its modes: no mode of it is greater.
pub proof fn lemma_darkest_mode_is_lexicographically_last(a: nat, b: nat, k: int)
    requires
        a + b > 0,
        spec_gcd(a, b) == 1,
        k >= 0,
    ensures
        !lex_lt(spec_mos_mode(a, b, 0), spec_rotate(mos_word(a, b), k)),
{
    let n = (a + b) as int;
    lemma_mos_quotients(a, b);
    assert(mos_word(a, b) =~= christoffel(a, b)) by {
        assert(repeat_seq(christoffel(a / 1, b / 1), 1) =~= repeat_seq(christoffel(a / 1, b / 1), 0) + christoffel(a / 1, b / 1));
    }
    let g = bright_gener_len(a, b);
    assert(g == least_inverse(b as int, n));
    crate::helpers::lemma_gcd_add(a, b);
    crate::helpers::lemma_inverse_exists(b, (a + b) as nat);
    let x = choose|x: int| #[trigger] crate::helpers::is_inverse_mod(b as int, x, n);
    lemma_least_inverse_is_inverse(b as int, n, 0, x);
    assert((b * g) % n == 1int % n);
    vstd::arithmetic::div_mod::lemma_small_mod(0, n as nat);
    assert(0nat % (n as nat) == 0);
    let e = (n - 1) * g;
    assert(spec_mos_mode(a, b, 0) == spec_rotate(mos_word(a, b), e));
    assert(e * b == (n - 1) * (b * g)) by (nonlinear_arith)
        requires
            e == (n - 1) * g,
    ;
    vstd::arithmetic::div_mod::lemma_mul_mod_noop_right(n - 1, b * g, n);
    if n > 1 {
        vstd::arithmetic::div_mod::lemma_small_mod(1, n as nat);
        vstd::arithmetic::div_mod::lemma_small_mod((n - 1) as nat, n as nat);
        assert((n - 1) * 1 == n - 1);
    } else {
        assert(n - 1 == 0);
        assert((n - 1) * ((b * g) % n) == 0) by (nonlinear_arith)
            requires
                n - 1 == 0,
        ;
        vstd::arithmetic::div_mod::lemma_small_mod(0, n as nat);
    }
    assert((e * b) % n == n - 1);
    assert(e >= 0) by (nonlinear_arith)
        requires
            n >= 1,
            g >= 0,
            e == (n - 1) * g,
    ;
    crate::helpers::lemma_least_inverse_bound(b as int, n, 0);
    lemma_rotate_christoffel(a, b, e);
    lemma_rotate_christoffel(a, b, k);
    vstd::arithmetic::div_mod::lemma_mod_bound(k * b, n);
    lemma_mechanical_lex_monotone(b as int, n, (k * b) % n, n - 1);
}

/// The least-inverse search from `y` finds an inverse when one lies at or after `y`.
proof fn lemma_least_inverse_is_inverse(a: int, m: int, y: int, x: int)
    requires
        0 <= y <= x,
        crate::helpers::is_inverse_mod(a, x, m),
    ensures
        crate::helpers::is_inverse_mod(a, crate::helpers::least_inverse_from(a, m, y), m),
    decreases x - y,
{
    if y < x && !crate::helpers::is_inverse_mod(a, y, m) {
        lemma_least_inverse_is_inverse(a, m, y + 1, x);
    }
}

/// The ones in the first `m` letters of a mechanical word are the height of its line at `m`.
proof fn lemma_mechanical_prefix_ones(q: int, n: int, r: int, m: int)
    requires
        0 <= q <= n,
        n > 0,
        0 <= r < n,
        0 <= m <= n,
    ensures
        occurrences(mechanical(q, n, r).subrange(0, m), 1usize) == line_height(q, n, r, m),
        binary_word(mechanical(q, n, r).subrange(0, m)),
    decreases m,
{
    let w = mechanical(q, n, r);
    if m == 0 {
        assert(w.subrange(0, 0) =~= Seq::<Letter>::empty());
        assert(0 * q + r == r);
        vstd::arithmetic::div_mod::lemma_basic_div(r, n);
    } else {
        lemma_mechanical_prefix_ones(q, n, r, m - 1);
        assert(w.subrange(0, m).drop_last() =~= w.subrange(0, m - 1));
        assert(w.subrange(0, m).last() == w[m - 1]);
        lemma_mechanical_letter(q, n, r, m - 1);
        assert forall|i: int| 0 <= i < m implies #[trigger] w.subrange(0, m)[i] <= 1 by {
            assert(w.subrange(0, m)[i] == w[i]);
        }
    }
}

/// In a mode of the Christoffel word of `p` zeros and `q` ones, the `k`-step on degree `d`
/// holds `(k q + r) / (p + q)` ones, `r` being `(e + d) q` reduced modulo `p + q`, and zeros
/// for the rest.
proof fn lemma_christoffel_kstep_ones(p: nat, q: nat, e: int, d: int, k: int, y: Letter)
    requires
        p + q > 0,
        e >= 0,
        d >= 0,
        0 <= k <= p + q,
    ensures
        occurrences(spec_word_on_degree(spec_rotate(christoffel(p, q), e), d, k), 1usize)
            == (k * q + ((e + d) * q) % ((p + q) as int)) / ((p + q) as int),
        occurrences(spec_word_on_degree(spec_rotate(christoffel(p, q), e), d, k), 0usize)
            + occurrences(spec_word_on_degree(spec_rotate(christoffel(p, q), e), d, k), 1usize) == k,
        y > 1 ==> occurrences(spec_word_on_degree(spec_rotate(christoffel(p, q), e), d, k), y) == 0,
{
    let n = (p + q) as int;
    let c = christoffel(p, q);
    lemma_christoffel_facts(p, q);
    lemma_rotate_compose(c, e, d);
    lemma_rotate_christoffel(p, q, e + d);
    let r = ((e + d) * q) % n;
    vstd::arithmetic::div_mod::lemma_mod_bound((e + d) * q, n);
    lemma_mechanical_prefix_ones(q as int, n, r, k);
    let u = mechanical(q as int, n, r).subrange(0, k);
    assert(spec_word_on_degree(spec_rotate(c, e), d, k) == u);
    lemma_binary_occurrences(u, y);
}

/// For `b` coprime to `n`, every residue modulo `n` is `m b` for some `m` below `n`.
proof fn lemma_residue_hit(b: nat, n: int, t: int) -> (m: int)
    requires
        n > 0,
        spec_gcd(b, n as nat) == 1,
        0 <= t < n,
    ensures
        0 <= m < n,
        (m * b) % n == t,
{
    crate::helpers::lemma_inverse_exists(b, n as nat);
    let x = choose|x: int| #[trigger] crate::helpers::is_inverse_mod(b as int, x, n);
    let m = (t * x) % n;
    vstd::arithmetic::div_mod::lemma_mod_bound(t * x, n);
    vstd::arithmetic::div_mod::lemma_mul_mod_noop_left(t * x, b as int, n);
    assert((t * x) * b == t * (b * x)) by (nonlinear_arith);
    vstd::arithmetic::div_mod::lemma_mul_mod_noop_right(t, b * x, n);
    vstd::arithmetic::div_mod::lemma_mul_mod_noop_right(t, 1, n);
    assert(t * 1 == t);
    vstd::arithmetic::div_mod::lemma_small_mod(t as nat, n as nat);
    m
}

/// For `b` coprime to `n`, no `k` strictly between 0 and `n` makes `k b` a multiple of `n`.
proof fn lemma_coprime_residue_nonzero(b: nat, n: int, k: int)
    requires
        n > 0,
        spec_gcd(n as nat, b) == 1,
        0 < k < n,
    ensures
        (k * b) % n != 0,
{
    if (k * b) % n == 0 {
        assert(b * (k as nat) == k * b) by (nonlinear_arith)
            requires
                k > 0,
        ;
        crate::helpers::lemma_coprime_divides(n as nat, b, k as nat);
        vstd::arithmetic::div_mod::lemma_small_mod(k as nat, n as nat);
    }
}

/// The coprimality facts about the MOS `a`L `b`s with coprime `a` and `b`: its brightest
/// mode is the Christoffel word, and `b` is coprime to the size `a + b`.
proof fn lemma_coprime_mos(a: nat, b: nat)
    requires
        a + b > 0,
        spec_gcd(a, b) == 1,
    ensures
        mos_word(a, b) == christoffel(a, b),
        spec_gcd(b, a + b) == 1,
        spec_gcd(a + b, b) == 1,
{
    lemma_mos_quotients(a, b);
    assert(repeat_seq(christoffel(a / 1, b / 1), 1) =~= repeat_seq(christoffel(a / 1, b / 1), 0) + christoffel(a / 1, b / 1));
    crate::helpers::lemma_gcd_add(a, b);
    crate::helpers::lemma_gcd_symmetric(b, a + b);
}

/// For coprime `a` and `b`, no rotation of the brightest mode of the MOS `a`L `b`s by fewer
/// than `a + b` places, other than none, gives it back: the MOS word is primitive.
pub proof fn lemma_mos_word_primitive(a: nat, b: nat, r: int)
    requires
        a + b > 0,
        spec_gcd(a, b) == 1,
        0 < r < a + b,
    ensures
        spec_rotate(mos_word(a, b), r) != mos_word(a, b),
{
    let n = (a + b) as int;
    lemma_coprime_mos(a, b);
    let c = christoffel(a, b);
    lemma_rotate_christoffel(a, b, r);
    lemma_christoffel_mechanical(a, b);
    let s = (r * b) % n;
    lemma_coprime_residue_nonzero(b, n, r);
    vstd::arithmetic::div_mod::lemma_mod_bound(r * b, n);
    if spec_rotate(c, r) == c {
        let m = lemma_residue_hit(b, n, n - s);
        lemma_mechanical_equal_heights(b as int, n, 0, s, m);
        let t = (m * b) / n;
        vstd::arithmetic::div_mod::lemma_fundamental_div_mod(m * b, n);
        assert(m * b + 0 == m * b);
        assert(line_height(b as int, n, 0, m) == t);
        assert(m * b + s == n * (t + 1)) by (nonlinear_arith)
            requires
                m * b == n * t + (n - s),
        ;
        lemma_floor_is(m * b + s, n, t + 1);
        assert(line_height(b as int, n, s, m) == t + 1);
    }
}

/// For coprime `a` and `b`, the only rotation below `a + b` that gives the least mode of the
/// brightest MOS mode is the rotation by 0: `booth` returns 0 on it.
pub proof fn lemma_booth_of_brightest_mos_is_zero(a: nat, b: nat, r: int)
    requires
        a + b > 0,
        spec_gcd(a, b) == 1,
        0 <= r < a + b,
        spec_rotate(mos_word(a, b), r) == least_mode_of(mos_word(a, b)),
    ensures
        r == 0,
{
    lemma_brightest_mode_is_least_mode(a, b);
    if r > 0 {
        lemma_mos_word_primitive(a, b, r);
    }
}

/// The mode of the MOS `a`L `b`s with a given brightness (count of bright generators up from root).
/// Brightness 0 gives the darkest mode and brightness `a + b - 1` the brightest.
pub fn mos_mode(a: usize, b: usize, brightness: usize) -> (r: Vec<Letter>)
    requires
        a + b > 0,
        a + b <= i32::MAX,
        (a + 1) * (b + 1) <= usize::MAX,
        (a + b) * (a + b) <= usize::MAX,
    ensures
        r@ == spec_mos_mode(a as nat, b as nat, brightness as nat),
{
    let scale_len = a + b;
    let brightness = brightness % scale_len;
    let (mos, bright_gener) = brightest_mos_mode_and_gener_bresenham(a, b);
    proof {
        lemma_mos_quotients(a as nat, b as nat);
        let d = spec_gcd(a as nat, b as nat);
        crate::helpers::lemma_least_inverse_bound((b as nat / d) as int, (a as nat / d + b as nat / d) as int, 0);
        let prefix_len = bright_gener_len(a as nat, b as nat);
        assert(christoffel(a as nat / d, b as nat / d).subrange(0, prefix_len).len() == prefix_len);
        lemma_count_entries_norm::<Letter>(christoffel(a as nat / d, b as nat / d).subrange(0, prefix_len));
    }
    let bright_gener_step_count: usize = bright_gener.len();
    proof {
        let d = spec_gcd(a as nat, b as nat);
        assert(bright_gener_step_count <= scale_len);
        assert((scale_len - 1 - brightness) * bright_gener_step_count <= scale_len * scale_len) by (nonlinear_arith)
            requires
                bright_gener_step_count <= scale_len,
                brightness < scale_len,
        ;
        assert(mos@.len() == scale_len) by {
            let c = christoffel(a as nat / d, b as nat / d);
            lemma_occurrences_repeat(c, d, 0);
            assert(c.len() == a as nat / d + b as nat / d);
            assert(d * c.len() == a + b) by (nonlinear_arith)
                requires
                    (a as nat / d + b as nat / d) * d == a + b,
                    c.len() == a as nat / d + b as nat / d,
            ;
        }
    }
    let steps_from_brightest = (scale_len - 1 - brightness) * bright_gener_step_count;
    let r = rotate(&mos, steps_from_brightest);
    proof {
        lemma_models_usize(r@);
        lemma_models_usize(mos@);
    }
    r
}

/// `T`'s `Ord` implementation is a lawful total order (vstd's `obeys_cmp`), as it is for integers.
pub open spec fn lawful_order<T: Ord>() -> bool {
    vstd::laws_cmp::obeys_cmp::<T>()
}

impl<T: Symbol + Ord> CountVector<T> {
    /// The counts as a map from keys to counts.
    pub fn into_inner(&self) -> (r: BTreeMap<T, i32>)
        ensures
            lawful_order::<T>() ==> forall|k: T| #[trigger] r@.contains_key(k) ==> entries_get::<T>(self@, k.model()) == Some(r@[k]),
            lawful_order::<T>() ==> r@.dom().finite() && r@.dom().len() == self@.len(),
    {
        proof {
            use_type_invariant(self);
        }
        let n = self.entries.len();
        let mut r: BTreeMap<T, i32> = BTreeMap::new();
        let mut i: usize = 0;
        while i < n
            invariant
                i <= n,
                n == self@.len(),
                sorted_keys::<T>(self@),
                lawful_order::<T>() ==> {
                    &&& r@.dom().finite()
                    &&& r@.dom().len() == i
                    &&& forall|k: T| #[trigger] r@.contains_key(k) ==> exists|j: int| 0 <= j < i && self@[j].0 == k.model() && self@[j].1 == r@[k]
                },
            decreases n - i,
        {
            proof {
                lemma_entry_models_index(self.entries@, i as int);
            }
            let k = self.entries[i].0.duplicate();
            let v = self.entries[i].1;
            let ghost old_r = r@;
            proof {
                if lawful_order::<T>() {
                    if old_r.contains_key(k) {
                        let j = choose|j: int| 0 <= j < i && self@[j].0 == k.model() && self@[j].1 == old_r[k];
                        T::lemma_lt_irreflexive(k.model());
                        assert(T::model_lt(self@[j].0, self@[i as int].0));
                    }
                }
            }
            r.insert(k, v);
            proof {
                if lawful_order::<T>() {
                    assert(r@.dom() =~= old_r.dom().insert(k));
                    assert forall|kk: T| #[trigger] r@.contains_key(kk) implies exists|j: int| 0 <= j < i + 1 && self@[j].0 == kk.model() && self@[j].1 == r@[kk] by {
                        if kk != k {
                            assert(old_r.contains_key(kk));
                            let j = choose|j: int| 0 <= j < i && self@[j].0 == kk.model() && self@[j].1 == old_r[kk];
                            assert(0 <= j < i + 1 && self@[j].0 == kk.model() && self@[j].1 == r@[kk]);
                        } else {
                            assert(self@[i as int].0 == kk.model() && self@[i as int].1 == r@[kk]);
                        }
                    }
                }
            }
            i = i + 1;
        }
        proof {
            if lawful_order::<T>() {
                assert forall|k: T| #[trigger] r@.contains_key(k) implies entries_get::<T>(self@, k.model()) == Some(r@[k]) by {
                    let j = choose|j: int| 0 <= j < n && self@[j].0 == k.model() && self@[j].1 == r@[k];
                    lemma_entries_get_at::<T>(self@, j);
                }
            }
        }
        r
    }
}

impl<T: Symbol> CountVector<T> {
    /// The count vector of key-count pairs, set in turn: a later pair with the same key wins,
    /// and a count of 0 is kept.
    pub fn from_tuples(pairs: &[(T, i32)]) -> (r: CountVector<T>)
        ensures
            r@ == entries_set_all::<T>(entry_models(pairs@)),
    {
        let ghost ps = entry_models(pairs@);
        let mut entries: Vec<(T, i32)> = Vec::new();
        let mut i: usize = 0;
        assert(entry_models(entries@) =~= entries_set_all::<T>(ps.subrange(0, 0)));
        while i < pairs.len()
            invariant
                i <= pairs@.len(),
                ps == entry_models(pairs@),
                entry_models(entries@) == entries_set_all::<T>(ps.subrange(0, i as int)),
                sorted_keys::<T>(entry_models(entries@)),
            decreases pairs@.len() - i,
        {
            let ghost prev = ps.subrange(0, i as int);
            proof {
                lemma_entry_models_index(pairs@, i as int);
                assert(ps.subrange(0, i + 1).drop_last() =~= prev);
            }
            let key = pairs[i].0.duplicate();
            let v = pairs[i].1;
            remove_entry(&mut entries, &key);
            proof {
                lemma_entries_remove::<T>(entries_set_all::<T>(prev), key.model());
            }
            add_entry(&mut entries, key, v);
            i = i + 1;
        }
        assert(ps.subrange(0, pairs@.len() as int) =~= ps);
        CountVector { entries }
    }
}

impl<T: Symbol + Ord> CountVector<T> {
    /// The count vector of a map from keys to counts; a count of 0 is kept.
    pub fn from_btree_map(m: BTreeMap<T, i32>) -> (r: CountVector<T>)
        ensures
            lawful_order::<T>() ==> forall|k: T| #[trigger] m@.contains_key(k) ==> exists|k2: T|
                m@.contains_key(k2) && k2.model() == k.model() && entries_get::<T>(r@, k.model()) == Some(m@[k2]),
            lawful_order::<T>() ==> forall|i: int| 0 <= i < r@.len() ==> #[trigger] entry_from_map::<T>(r@[i], m@),
    {
        let ghost mv = m@;
        let pairs = map_entries(m);
        let r = CountVector::from_tuples(pairs.as_slice());
        proof {
            let ps = entry_models(pairs@);
            lemma_entries_set_all_sorted::<T>(ps);
            if lawful_order::<T>() {
                assert forall|k: T| #[trigger] mv.contains_key(k) implies exists|k2: T|
                    mv.contains_key(k2) && k2.model() == k.model() && entries_get::<T>(r@, k.model()) == Some(mv[k2]) by {
                    assert(mv.kv_pairs().contains((k, mv[k])));
                    assert(pairs@.to_set().contains((k, mv[k])));
                    assert(pairs@.contains((k, mv[k])));
                    let j0 = choose|j: int| 0 <= j < pairs@.len() && pairs@[j] == (k, mv[k]);
                    lemma_entries_set_all_get::<T>(ps, k.model());
                    lemma_last_count_some::<T>(pairs@, k.model(), j0);
                    let j = choose|j: int| 0 <= j < pairs@.len() && pairs@[j].0.model() == k.model() && last_count(ps, k.model()) == Some(pairs@[j].1);
                    assert(pairs@.to_set().contains(pairs@[j]));
                    assert(mv.kv_pairs().contains(pairs@[j]));
                    let k2 = pairs@[j].0;
                    assert(mv.contains_key(k2) && mv[k2] == pairs@[j].1);
                }
                assert forall|i: int| 0 <= i < r@.len() implies #[trigger] entry_from_map::<T>(r@[i], mv) by {
                    lemma_entries_set_all_from::<T>(ps, i);
                    let j = choose|j: int| 0 <= j < ps.len() && r@[i] == ps[j];
                    lemma_entry_models_index(pairs@, j);
                    assert(pairs@.to_set().contains(pairs@[j]));
                    assert(mv.kv_pairs().contains(pairs@[j]));
                    let k = pairs@[j].0;
                    assert(mv.contains_key(k) && mv[k] == pairs@[j].1);
                    assert(r@[i] == (k.model(), mv[k]));
                }
            }
        }
        r
    }

    /// The count vector of a set: each element with count 1.
    pub fn from_btree_set(set: BTreeSet<T>) -> (r: CountVector<T>)
        ensures
            lawful_order::<T>() ==> forall|k: T| #[trigger] set@.contains(k) ==> entries_get::<T>(r@, k.model()) == Some(1i32),
            lawful_order::<T>() ==> forall|i: int| 0 <= i < r@.len() ==> #[trigger] entry_from_set::<T>(r@[i], set@),
    {
        let ghost sv = set@;
        let elems = set_elements(set);
        let mut pairs: Vec<(T, i32)> = Vec::new();
        let mut i: usize = 0;
        while i < elems.len()
            invariant
                i <= elems@.len(),
                pairs@.len() == i,
                forall|j: int| 0 <= j < i ==> #[trigger] pairs@[j].0.model() == elems@[j].model() && pairs@[j].1 == 1,
            decreases elems@.len() - i,
        {
            let k = elems[i].duplicate();
            pairs.push((k, 1));
            i = i + 1;
        }
        let r = CountVector::from_tuples(pairs.as_slice());
        proof {
            let ps = entry_models(pairs@);
            lemma_entries_set_all_sorted::<T>(ps);
            assert forall|j: int| 0 <= j < ps.len() implies #[trigger] ps[j].1 == 1i32 by {
                lemma_entry_models_index(pairs@, j);
            }
            if lawful_order::<T>() {
                assert forall|k: T| #[trigger] sv.contains(k) implies entries_get::<T>(r@, k.model()) == Some(1i32) by {
                    assert(elems@.to_set().contains(k));
                    assert(elems@.contains(k));
                    let j0 = choose|j: int| 0 <= j < elems@.len() && elems@[j] == k;
                    assert(pairs@[j0].0.model() == k.model());
                    lemma_entries_set_all_get::<T>(ps, k.model());
                    lemma_last_count_some::<T>(pairs@, k.model(), j0);
                    let j = choose|j: int| 0 <= j < pairs@.len() && pairs@[j].0.model() == k.model() && last_count(ps, k.model()) == Some(pairs@[j].1);
                    assert(pairs@[j].1 == 1);
                }
                assert forall|i: int| 0 <= i < r@.len() implies #[trigger] entry_from_set::<T>(r@[i], sv) by {
                    lemma_entries_set_all_from::<T>(ps, i);
                    let j = choose|j: int| 0 <= j < ps.len() && r@[i] == ps[j];
                    lemma_entry_models_index(pairs@, j);
                    assert(elems@.to_set().contains(elems@[j]));
                    let k = elems@[j];
                    assert(sv.contains(k) && r@[i] == (k.model(), 1i32));
                }
            }
        }
        r
    }
}

impl<T: Symbol> CountVector<T> {
    /// The keys, in increasing order.
    pub fn keys(&self) -> (r: Vec<T>)
        ensures
            models(r@) == self@.map_values(|e: (T::Model, i32)| e.0),
    {
        let ghost target = self@.map_values(|e: (T::Model, i32)| e.0);
        let n = self.entries.len();
        let mut r: Vec<T> = Vec::new();
        let mut i: usize = 0;
        while i < n
            invariant
                i <= n,
                n == self@.len(),
                target == self@.map_values(|e: (T::Model, i32)| e.0),
                models(r@) == target.subrange(0, i as int),
            decreases n - i,
        {
            proof {
                lemma_entry_models_index(self.entries@, i as int);
            }
            let k = self.entries[i].0.duplicate();
            proof {
                lemma_models_push(r@, k);
            }
            r.push(k);
            assert(models(r@) =~= target.subrange(0, i + 1));
            i = i + 1;
        }
        assert(target.subrange(0, n as int) =~= target);
        r
    }

    /// The set of count vectors that occur as `subword_length`-steps in `scale`, each listed once.
    pub fn distinct_spectrum(scale: &[T], subword_length: usize) -> (r: Vec<CountVector<T>>)
        requires
            scale@.len() < i32::MAX,
            scale@.len() == 0 || subword_length <= scale@.len(),
        ensures
            models(r@).no_duplicates(),
            models(r@).to_set() == spec_dyads::<T>(models(scale@), subword_length as int).to_set(),
    {
        let ghost dy = spec_dyads::<T>(models(scale@), subword_length as int);
        let n = scale.len();
        let mut r: Vec<CountVector<T>> = Vec::new();
        let mut d: usize = 0;
        assert(models(r@).to_set() =~= dy.subrange(0, 0).to_set());
        while d < n
            invariant
                d <= n,
                n == scale@.len(),
                n < i32::MAX,
                n == 0 || subword_length <= n,
                dy == spec_dyads::<T>(models(scale@), subword_length as int),
                models(r@).no_duplicates(),
                models(r@).to_set() == dy.subrange(0, d as int).to_set(),
            decreases n - d,
        {
            let dyad = dyad_on_degree(scale, d, subword_length);
            let ghost old_r = models(r@);
            proof {
                assert(dy.subrange(0, d + 1) =~= dy.subrange(0, d as int).push(dyad@));
                dy.subrange(0, d as int).lemma_push_to_set_commute(dyad@);
            }
            if !contains_symbol(&r, &dyad) {
                proof {
                    lemma_models_push(r@, dyad);
                    old_r.lemma_push_to_set_commute(dyad@);
                }
                r.push(dyad);
                proof {
                    assert forall|a: int, b: int| 0 <= a < b < models(r@).len() implies models(r@)[a] != models(r@)[b] by {
                        if b == old_r.len() {
                            assert(models(r@)[a] == old_r[a]);
                        } else {
                            assert(models(r@)[a] == old_r[a] && models(r@)[b] == old_r[b]);
                        }
                    }
                }
            } else {
                proof {
                    assert(old_r.to_set().insert(dyad@) =~= old_r.to_set());
                }
            }
            d = d + 1;
        }
        assert(dy.subrange(0, n as int) =~= dy);
        r
    }

    /// The multiset of `CountVector`s that occur as `subword_length`-steps in `scale`.
    pub fn spectrum(scale: &[T], subword_length: usize) -> (r: CountVector<CountVector<T>>)
        requires
            scale@.len() < i32::MAX,
            scale@.len() == 0 || subword_length <= scale@.len(),
        ensures
            r@ == count_entries::<CountVector<T>>(spec_dyads::<T>(models(scale@), subword_length as int)),
    {
        let ghost dy = spec_dyads::<T>(models(scale@), subword_length as int);
        let n = scale.len();
        let mut dyads: Vec<CountVector<T>> = Vec::new();
        let mut d: usize = 0;
        while d < n
            invariant
                d <= n,
                n == scale@.len(),
                n < i32::MAX,
                n == 0 || subword_length <= n,
                dy == spec_dyads::<T>(models(scale@), subword_length as int),
                models(dyads@) == dy.subrange(0, d as int),
            decreases n - d,
        {
            let dyad = dyad_on_degree(scale, d, subword_length);
            proof {
                lemma_models_push(dyads@, dyad);
            }
            dyads.push(dyad);
            assert(models(dyads@) =~= dy.subrange(0, d + 1));
            d = d + 1;
        }
        assert(dy.subrange(0, n as int) =~= dy);
        CountVector::from_slice(&dyads)
    }
}

/// A count vector over letters as a dense list of counts indexed by letter,
/// up to the largest key; the empty list when all counts are 0.
pub open spec fn spec_countvector_to_slice(v: Seq<(Letter, i32)>) -> Seq<i32> {
    if entries_norm(v) == 0 {
        Seq::empty()
    } else {
        Seq::new((v.last().0 + 1) as nat, |i: int| match entries_get::<Letter>(v, i as usize) {
            Some(c) => c,
            None => 0i32,
        })
    }
}

/// A count vector over letters as a dense list of counts, indexed by letter.
pub fn countvector_to_slice(v: CountVector<usize>) -> (r: Vec<i32>)
    requires
        v@.len() > 0 ==> v@.last().0 < usize::MAX,
    ensures
        r@ == spec_countvector_to_slice(v@),
{
    proof {
        use_type_invariant(&v);
    }
    if v.is_empty() {
        return Vec::new();
    }
    let n = v.entries.len();
    proof {
        if n == 0 {
            assert(entries_norm(v@) == 0);
        }
    }
    let max = v.entries[n - 1].0;
    proof {
        lemma_entry_models_index(v.entries@, n - 1);
    }
    let mut result: Vec<i32> = Vec::new();
    let mut i: usize = 0;
    while i <= max
        invariant
            i <= max + 1,
            max < usize::MAX,
            max == v@.last().0,
            n == v@.len(),
            n > 0,
            sorted_keys::<usize>(v@),
            result@.len() == i,
            forall|j: int| 0 <= j < i ==> #[trigger] result@[j] == 0,
        decreases max + 1 - i,
    {
        result.push(0);
        i = i + 1;
    }
    let mut e: usize = 0;
    while e < n
        invariant
            e <= n,
            n == v@.len(),
            n > 0,
            max == v@.last().0,
            sorted_keys::<usize>(v@),
            result@.len() == max + 1,
            forall|j: int| 0 <= j <= max ==> #[trigger] result@[j] == match entries_get::<usize>(v@.subrange(0, e as int), j as usize) {
                Some(c) => c,
                None => 0i32,
            },
        decreases n - e,
    {
        proof {
            lemma_entry_models_index(v.entries@, e as int);
            if e + 1 < n {
                assert(v@[e as int].0 < v@[n - 1].0);
            }
        }
        let key = v.entries[e].0;
        let value = v.entries[e].1;
        result.set(key, value);
        proof {
            let pre = v@.subrange(0, e as int);
            let post = v@.subrange(0, e + 1);
            assert forall|j: int| 0 <= j <= max implies #[trigger] result@[j] == match entries_get::<usize>(post, j as usize) {
                Some(c) => c,
                None => 0i32,
            } by {
                lemma_entries_get_prefix_extend(v@, e as int, j as usize);
            }
        }
        e = e + 1;
    }
    assert(v@.subrange(0, n as int) =~= v@);
    assert(result@ =~= spec_countvector_to_slice(v@));
    result
}

/// Extending a prefix of a sorted list by one entry only changes the lookup of that entry's key.
proof fn lemma_entries_get_prefix_extend(es: Seq<(usize, i32)>, e: int, j: usize)
    requires
        sorted_keys::<usize>(es),
        0 <= e < es.len(),
    ensures
        entries_get::<usize>(es.subrange(0, e + 1), j) == if j == es[e].0 {
            Some(es[e].1)
        } else {
            entries_get::<usize>(es.subrange(0, e), j)
        },
    decreases e,
{
    let pre = es.subrange(0, e);
    let post = es.subrange(0, e + 1);
    if e == 0 {
        assert(post.drop_first() =~= Seq::<(usize, i32)>::empty());
        assert(pre =~= Seq::<(usize, i32)>::empty());
    } else {
        lemma_entries_get_prefix_extend(es.drop_first(), e - 1, j);
        assert(post.drop_first() =~= es.drop_first().subrange(0, e));
        assert(pre.drop_first() =~= es.drop_first().subrange(0, e - 1));
        assert(post[0] == es[0] && pre[0] == es[0]);
        assert(es.drop_first()[e - 1] == es[e]);
        if j == es[e].0 {
            assert(es[0].0 < es[e].0);
        }
    }
}

/// The `interval_class`-step dyads on degrees `degree`, `degree + interval_class`, ...,
/// when `interval_class` divides the scale size.
pub fn strand_on_degree<T: Symbol>(scale: &[T], degree: usize, interval_class: usize) -> (r: Result<Vec<CountVector<T>>, ScaleError>)
    requires
        interval_class > 0,
        scale@.len() > 0,
        scale@.len() < i32::MAX,
        interval_class <= scale@.len(),
        degree + scale@.len() <= usize::MAX,
    ensures
        (scale@.len() as int) % (interval_class as int) == 0 <==> r is Ok,
        r matches Ok(v) ==> {
            &&& v@.len() == (scale@.len() as int) / (interval_class as int)
            &&& forall|i: int| 0 <= i < v@.len() ==> (#[trigger] v@[i])@ == count_entries::<T>(
                spec_word_on_degree(models(scale@), degree + i * interval_class, interval_class as int),
            )
        },
{
    let n = scale.len();
    if n % interval_class != 0 {
        return Err(ScaleError::NonDivisibleSubsetError);
    }
    let count = n / interval_class;
    let mut r: Vec<CountVector<T>> = Vec::new();
    let mut i: usize = 0;
    while i < count
        invariant
            i <= count,
            count == n / interval_class,
            interval_class > 0,
            n == scale@.len(),
            n > 0,
            n < i32::MAX,
            interval_class <= n,
            degree + n <= usize::MAX,
            r@.len() == i,
            forall|j: int| 0 <= j < i ==> (#[trigger] r@[j])@ == count_entries::<T>(
                spec_word_on_degree(models(scale@), degree + j * interval_class, interval_class as int),
            ),
        decreases count - i,
    {
        proof {
            assert(i * interval_class < n) by (nonlinear_arith)
                requires
                    i < count,
                    count == n / interval_class,
                    interval_class > 0,
            {
                vstd::arithmetic::div_mod::lemma_fundamental_div_mod(n as int, interval_class as int);
                assert(i * interval_class <= (count - 1) * interval_class);
            }
        }
        let dyad = dyad_on_degree(scale, degree + i * interval_class, interval_class);
        r.push(dyad);
        i = i + 1;
    }
    Ok(r)
}

// ---------------------------------------------------------------------------
// Block balance
// ---------------------------------------------------------------------------

/// The number of occurrences of letter `l` in the `k`-step on degree `d`.
pub open spec fn occ_at(s: Seq<Letter>, k: int, d: int, l: Letter) -> nat {
    occurrences(spec_word_on_degree(s, d, k), l)
}

/// The largest number of occurrences of `l` among the `k`-steps on degrees `0..m`.
pub open spec fn occ_max(s: Seq<Letter>, k: int, l: Letter, m: int) -> int
    decreases m,
{
    if m <= 0 {
        0
    } else {
        let p = occ_max(s, k, l, m - 1);
        let o = occ_at(s, k, m - 1, l) as int;
        if o > p { o } else { p }
    }
}

/// The smallest number of occurrences of `l` among the `k`-steps on degrees `0..m`
/// (`i32::MAX` when `m` is 0).
pub open spec fn occ_min(s: Seq<Letter>, k: int, l: Letter, m: int) -> int
    decreases m,
{
    if m <= 0 {
        i32::MAX as int
    } else {
        let p = occ_min(s, k, l, m - 1);
        let o = occ_at(s, k, m - 1, l) as int;
        if o < p { o } else { p }
    }
}

/// The spread of the number of `l`s among the `k`-steps, a `k`-step without `l` counting 0.
pub open spec fn letter_spread(s: Seq<Letter>, k: int, l: Letter) -> int {
    occ_max(s, k, l, s.len() as int) - occ_min(s, k, l, s.len() as int)
}

/// The largest spread over the letters `ls`.
pub open spec fn spread_over(s: Seq<Letter>, k: int, ls: Seq<Letter>) -> int
    decreases ls.len(),
{
    if ls.len() == 0 {
        0
    } else {
        let p = spread_over(s, k, ls.drop_last());
        let v = letter_spread(s, k, ls.last());
        if v > p { v } else { p }
    }
}

/// The distinct letters of a word in increasing order.
pub open spec fn distinct_letters(s: Seq<Letter>) -> Seq<Letter> {
    count_entries::<Letter>(s).map_values(|e: (Letter, i32)| e.0)
}

/// The largest spread over step classes `1..=m`.
pub open spec fn spread_upto(s: Seq<Letter>, m: int) -> int
    decreases m,
{
    if m <= 0 {
        0
    } else {
        let p = spread_upto(s, m - 1);
        let v = spread_over(s, m, distinct_letters(s));
        if v > p { v } else { p }
    }
}

/// The block balance of a word: the largest difference between the numbers of
/// any one letter in two subwords of the same length.
pub open spec fn spec_block_balance(s: Seq<Letter>) -> int {
    if s.len() <= 1 {
        s.len() as int
    } else {
        spread_upto(s, (s.len() / 2) as int)
    }
}

proof fn lemma_occ_bounds(s: Seq<Letter>, k: int, l: Letter, m: int)
    requires
        s.len() > 0,
        1 <= k <= s.len(),
        s.len() < i32::MAX,
    ensures
        0 <= occ_max(s, k, l, m),
        occ_max(s, k, l, m) <= k + 1,
        occ_min(s, k, l, m) >= 0,
        m >= 1 ==> occ_min(s, k, l, m) <= occ_max(s, k, l, m),
        forall|d: int| 0 <= d < m ==> occ_at(s, k, d, l) <= occ_max(s, k, l, m),
        forall|d: int| 0 <= d < m ==> occ_min(s, k, l, m) <= occ_at(s, k, d, l),
    decreases m,
{
    if m > 0 {
        lemma_occ_bounds(s, k, l, m - 1);
        lemma_occurrences_bound(spec_word_on_degree(s, m - 1, k), l);
    }
}

/// The spread of a letter among the `k`-steps is at least 0 and at most `k + 1`.
proof fn lemma_spread_nonneg(s: Seq<Letter>, k: int, l: Letter)
    requires
        s.len() > 0,
        1 <= k <= s.len(),
        s.len() < i32::MAX,
    ensures
        0 <= letter_spread(s, k, l) <= k + 1,
{
    lemma_occ_bounds(s, k, l, s.len() as int);
}

/// When every `k`-step on the degrees `0..m` holds between `lo` and `lo + 1` letters `l`,
/// so do the largest and the smallest of those counts.
proof fn lemma_occ_range(s: Seq<Letter>, k: int, l: Letter, m: int, lo: int)
    requires
        1 <= m,
        0 <= lo,
        lo + 1 <= i32::MAX,
        forall|d: int| 0 <= d < m ==> lo <= #[trigger] occ_at(s, k, d, l) <= lo + 1,
    ensures
        lo <= occ_min(s, k, l, m),
        occ_max(s, k, l, m) <= lo + 1,
    decreases m,
{
    if m > 1 {
        lemma_occ_range(s, k, l, m - 1, lo);
    } else {
        assert(occ_min(s, k, l, 0) == i32::MAX as int);
        assert(occ_max(s, k, l, 0) == 0);
    }
    let o = occ_at(s, k, m - 1, l) as int;
    assert(lo <= o <= lo + 1);
    assert(occ_min(s, k, l, m) == if o < occ_min(s, k, l, m - 1) { o } else { occ_min(s, k, l, m - 1) });
    assert(occ_max(s, k, l, m) == if o > occ_max(s, k, l, m - 1) { o } else { occ_max(s, k, l, m - 1) });
}

/// A spread over letters is at least the spread of each of them, and at most 1 when each is.
proof fn lemma_spread_over_bounds(s: Seq<Letter>, k: int, ls: Seq<Letter>)
    requires
        forall|i: int| 0 <= i < ls.len() ==> 0 <= #[trigger] letter_spread(s, k, ls[i]) <= 1,
    ensures
        0 <= spread_over(s, k, ls) <= 1,
        forall|i: int| 0 <= i < ls.len() ==> letter_spread(s, k, #[trigger] ls[i]) <= spread_over(s, k, ls),
    decreases ls.len(),
{
    if ls.len() > 0 {
        let dl = ls.drop_last();
        assert forall|i: int| 0 <= i < dl.len() implies 0 <= #[trigger] letter_spread(s, k, dl[i]) <= 1 by {
            assert(dl[i] == ls[i]);
        }
        lemma_spread_over_bounds(s, k, dl);
        assert(ls.last() == ls[ls.len() - 1]);
        assert forall|i: int| 0 <= i < ls.len() implies letter_spread(s, k, #[trigger] ls[i]) <= spread_over(s, k, ls) by {
            if i < ls.len() - 1 {
                assert(dl[i] == ls[i]);
            }
        }
    }
}

/// The spread over step classes `1..=m` is between the spread of 1-steps and 1 when every
/// class's spread is between 0 and 1.
proof fn lemma_spread_upto_bounds(s: Seq<Letter>, m: int)
    requires
        m >= 0,
        forall|k: int| 1 <= k <= m ==> 0 <= #[trigger] spread_over(s, k, distinct_letters(s)) <= 1,
    ensures
        0 <= spread_upto(s, m) <= 1,
        m >= 1 ==> spread_over(s, 1, distinct_letters(s)) <= spread_upto(s, m),
    decreases m,
{
    if m > 0 {
        lemma_spread_upto_bounds(s, m - 1);
        assert(0 <= spread_over(s, m, distinct_letters(s)) <= 1);
    }
}

/// In a mode of a Christoffel word, a `k`-step holds `k q / n` or one more ones, zeros for
/// the rest, and no other letter.
proof fn lemma_kstep_bounds(a: nat, b: nat, e: int, d: int, k: int, l: Letter)
    requires
        a + b > 0,
        e >= 0,
        d >= 0,
        0 <= k <= a + b,
    ensures
        ({
            let n = (a + b) as int;
            let v0 = (k * b) / n;
            let o = occ_at(spec_rotate(christoffel(a, b), e), k, d, l) as int;
            &&& l == 1 ==> v0 <= o <= v0 + 1
            &&& l == 0 ==> k - v0 - 1 <= o <= k - v0
            &&& l > 1 ==> o == 0
        }),
{
    let n = (a + b) as int;
    let x = k * b;
    lemma_christoffel_kstep_ones(a, b, e, d, k, l);
    lemma_christoffel_kstep_ones(a, b, e, d, k, 1usize);
    let r = ((e + d) * b) % n;
    vstd::arithmetic::div_mod::lemma_mod_bound((e + d) * b, n);
    vstd::arithmetic::div_mod::lemma_div_is_ordered(x, x + r, n);
    vstd::arithmetic::div_mod::lemma_div_is_ordered(x + r, x + n, n);
    vstd::arithmetic::div_mod::lemma_hoist_over_denominator(x, 1, n as nat);
    assert(x + 1 * n == x + n);
}

/// In every mode of a Christoffel word with both letters, each letter's count varies by at
/// most 1 among the `k`-steps.
proof fn lemma_christoffel_spreads(a: nat, b: nat, e: int, k: int, l: Letter)
    requires
        a >= 1,
        b >= 1,
        a + b < i32::MAX,
        e >= 0,
        1 <= k <= a + b,
    ensures
        0 <= letter_spread(spec_rotate(christoffel(a, b), e), k, l) <= 1,
{
    let n = (a + b) as int;
    let c = christoffel(a, b);
    let w = spec_rotate(c, e);
    lemma_christoffel_facts(a, b);
    lemma_rotate_len(c, e);
    let x = k * b;
    let v0 = x / n;
    lemma_floor_bounds(x, n);
    assert(x < k * n) by (nonlinear_arith)
        requires
            x == k * b,
            k >= 1,
            b < n,
    ;
    assert(v0 <= k - 1) by (nonlinear_arith)
        requires
            v0 * n <= x,
            x < k * n,
            n > 0,
    ;
    assert(v0 >= 0) by {
        vstd::arithmetic::div_mod::lemma_div_pos_is_pos(x, n);
    }
    if l == 1 {
        assert forall|d: int| 0 <= d < n implies v0 <= #[trigger] occ_at(w, k, d, l) <= v0 + 1 by {
            lemma_kstep_bounds(a, b, e, d, k, l);
        }
        lemma_occ_range(w, k, l, n, v0);
    } else if l == 0 {
        assert forall|d: int| 0 <= d < n implies k - v0 - 1 <= #[trigger] occ_at(w, k, d, l) <= k - v0 - 1 + 1 by {
            lemma_kstep_bounds(a, b, e, d, k, l);
        }
        lemma_occ_range(w, k, l, n, k - v0 - 1);
    } else {
        assert forall|d: int| 0 <= d < n implies 0 <= #[trigger] occ_at(w, k, d, l) <= 0 + 1 by {
            lemma_kstep_bounds(a, b, e, d, k, l);
        }
        lemma_occ_range(w, k, l, n, 0);
    }
    lemma_spread_nonneg(w, k, l);
}

/// The 1-step on degree `j` of a word holds the letter on degree `j`.
proof fn lemma_one_step(w: Seq<Letter>, j: int)
    requires
        0 <= j < w.len(),
    ensures
        spec_word_on_degree(w, j, 1) == seq![w[j]],
{
    lemma_rotate_index(w, j, 0);
    vstd::arithmetic::div_mod::lemma_small_mod(j as nat, w.len());
    assert(spec_word_on_degree(w, j, 1) =~= seq![w[j]]);
}

/// For coprime `a` and `b` with both at least 1, every mode of the MOS `a`L `b`s has block
/// balance 1.
pub proof fn lemma_mos_block_balance(a: nat, b: nat, brightness: nat)
    requires
        a >= 1,
        b >= 1,
        spec_gcd(a, b) == 1,
        a + b < i32::MAX,
    ensures
        spec_block_balance(spec_mos_mode(a, b, brightness)) == 1,
{
    let n = (a + b) as int;
    lemma_coprime_mos(a, b);
    let c = christoffel(a, b);
    let g = bright_gener_len(a, b);
    lemma_mos_word_facts(a, b);
    let f = n - 1 - brightness % (a + b);
    assert(0 <= brightness % (a + b) < a + b);
    let e = (f * g) as int;
    assert(f * g >= 0) by (nonlinear_arith)
        requires
            f >= 0,
            g >= 0,
    ;
    let w = spec_mos_mode(a, b, brightness);
    assert(w == spec_rotate(c, e));
    lemma_christoffel_facts(a, b);
    lemma_rotate_len(c, e);
    let dl = distinct_letters(w);
    assert forall|k: int| 1 <= k <= n / 2 implies 0 <= #[trigger] spread_over(w, k, dl) <= 1 by {
        assert forall|i: int| 0 <= i < dl.len() implies 0 <= #[trigger] letter_spread(w, k, dl[i]) <= 1 by {
            lemma_christoffel_spreads(a, b, e, k, dl[i]);
        }
        lemma_spread_over_bounds(w, k, dl);
    }
    lemma_spread_upto_bounds(w, n / 2);
    // The 1-steps hold both a 1 and a 0.
    lemma_mos_word_counts(a, b, 0usize);
    lemma_occurrences_rotate(c, e, 1usize);
    lemma_occurrences_rotate(c, e, 0usize);
    lemma_occurrences_contains(w, 1usize);
    lemma_occurrences_contains(w, 0usize);
    let j1 = choose|j: int| 0 <= j < w.len() && w[j] == 1usize;
    let j0 = choose|j: int| 0 <= j < w.len() && w[j] == 0usize;
    lemma_one_step(w, j1);
    lemma_one_step(w, j0);
    lemma_occurrences_short();
    assert(occ_at(w, 1, j1, 1usize) == 1);
    assert(occ_at(w, 1, j0, 1usize) == 0);
    lemma_occ_bounds(w, 1, 1usize, n);
    assert(letter_spread(w, 1, 1usize) >= 1);
    lemma_count_entries::<Letter>(w);
    assert(entries_get::<Letter>(count_entries::<Letter>(w), 1usize) is Some);
    lemma_entries_get_some::<Letter>(count_entries::<Letter>(w), 1usize);
    let i = choose|i: int| 0 <= i < count_entries::<Letter>(w).len() && #[trigger] count_entries::<Letter>(w)[i].0 == 1usize;
    assert(dl[i] == 1usize);
    assert forall|i2: int| 0 <= i2 < dl.len() implies 0 <= #[trigger] letter_spread(w, 1, dl[i2]) <= 1 by {
        lemma_christoffel_spreads(a, b, e, 1, dl[i2]);
    }
    lemma_spread_over_bounds(w, 1, dl);
    assert(letter_spread(w, 1, dl[i]) <= spread_over(w, 1, dl));
}

/// For coprime `a` and `b`, the `k`-steps of the brightest MOS mode, `0 < k < a + b`, come in
/// exactly two kinds.
proof fn lemma_mos_variety_two(a: nat, b: nat, k: int)
    requires
        a + b > 0,
        a + b < i32::MAX,
        spec_gcd(a, b) == 1,
        0 < k < a + b,
    ensures
        variety::<Letter>(mos_word(a, b), k) == 2,
{
    let n = (a + b) as int;
    lemma_coprime_mos(a, b);
    let c = christoffel(a, b);
    lemma_christoffel_facts(a, b);
    lemma_rotate_full(c);
    let dy = spec_dyads::<Letter>(c, k);
    let x = k * b;
    let v0 = x / n;
    lemma_coprime_residue_nonzero(b, n, k);
    let ds = lemma_residue_hit(b, n, n - 1);
    // The number of ones of the k-step on each degree.
    assert forall|d: int, y: Letter| 0 <= d < n implies {
        &&& #[trigger] occurrences(spec_word_on_degree(c, d, k), y) == if y == 1 {
            (x + (d * b) % n) / n
        } else if y == 0 {
            k - (x + (d * b) % n) / n
        } else {
            0
        }
        &&& spec_word_on_degree(c, d, k).len() == k
    } by {
        lemma_christoffel_kstep_ones(a, b, 0, d, k, y);
        lemma_christoffel_kstep_ones(a, b, 0, d, k, 1usize);
        lemma_rotate_len(c, d);
        assert(0 + d == d);
    }
    assert forall|d: int| 0 <= d < n implies v0 <= #[trigger] occurrences(spec_word_on_degree(c, d, k), 1usize) <= v0 + 1 by {
        lemma_kstep_bounds(a, b, 0, d, k, 1usize);
    }
    // Degree 0 has the fewer ones, degree `ds` the more.
    assert(occurrences(spec_word_on_degree(c, 0, k), 1usize) == v0) by {
        assert(0 * b == 0);
        vstd::arithmetic::div_mod::lemma_small_mod(0, n as nat);
        assert(x + 0 == x);
    }
    assert(occurrences(spec_word_on_degree(c, ds, k), 1usize) == v0 + 1) by {
        vstd::arithmetic::div_mod::lemma_fundamental_div_mod(x, n);
        vstd::arithmetic::div_mod::lemma_mod_bound(x, n);
        let t = x % n;
        assert(x + (n - 1) == (v0 + 1) * n + (t - 1)) by (nonlinear_arith)
            requires
                x == n * v0 + t,
        ;
        lemma_floor_is(x + (n - 1), n, v0 + 1);
    }
    let d0 = dy[0];
    let d1 = dy[ds];
    // Degrees with equally many ones have the same dyad.
    assert forall|d: int| 0 <= d < n implies #[trigger] dy[d] == d0 || dy[d] == d1 by {
        let u = spec_word_on_degree(c, d, k);
        let other = if occurrences(u, 1usize) == v0 { 0 } else { ds };
        let w = spec_word_on_degree(c, other, k);
        assert forall|y: Letter| #[trigger] occurrences(u, y) == occurrences(w, y) by {
            assert(occurrences(u, y) == if y == 1 { (x + (d * b) % n) / n } else if y == 0 { k - (x + (d * b) % n) / n } else { 0 });
            assert(occurrences(w, y) == if y == 1 { (x + (other * b) % n) / n } else if y == 0 { k - (x + (other * b) % n) / n } else { 0 });
            assert(occurrences(u, 1usize) == (x + (d * b) % n) / n);
            assert(occurrences(w, 1usize) == (x + (other * b) % n) / n);
        }
        lemma_count_entries_same_counts::<Letter>(u, w);
    }
    // The two dyads differ in their count of ones.
    let u0 = spec_word_on_degree(c, 0, k);
    let u1 = spec_word_on_degree(c, ds, k);
    lemma_count_entries::<Letter>(u0);
    lemma_count_entries::<Letter>(u1);
    assert(v0 + 1 <= k);
    assert(entries_get::<Letter>(d1, 1usize) == Some((v0 + 1) as i32));
    assert(d0 != d1) by {
        assert(entries_get::<Letter>(d0, 1usize) == if v0 > 0 { Some(v0 as i32) } else { None::<i32> });
    }
    let two = Set::<Seq<(Letter, i32)>>::empty().insert(d0).insert(d1);
    assert forall|z: Seq<(Letter, i32)>| dy.to_set().contains(z) <==> two.contains(z) by {
        if dy.contains(z) {
            let d = choose|d: int| 0 <= d < dy.len() && dy[d] == z;
            assert(dy[d] == d0 || dy[d] == d1);
        }
        if z == d0 {
            assert(dy[0] == z);
        }
        if z == d1 {
            assert(dy[ds] == z);
        }
    }
    assert(dy.to_set() =~= two);
    assert(Set::<Seq<(Letter, i32)>>::empty().insert(d0).len() == 1);
}

/// The maximum variety up to step class `m` is 2 when every class from 1 to `m` has two kinds.
proof fn lemma_variety_upto_two(s: Seq<Letter>, m: int)
    requires
        m >= 1,
        forall|k: int| 1 <= k <= m ==> #[trigger] variety::<Letter>(s, k) == 2,
    ensures
        variety_upto(s, m) == 2,
    decreases m,
{
    if m > 1 {
        lemma_variety_upto_two(s, m - 1);
    } else {
        assert(variety_upto(s, 0) == 1);
    }
    assert(variety::<Letter>(s, m) == 2);
}

/// For coprime `a` and `b`, both at least 1, the brightest mode of the MOS `a`L `b`s has
/// maximum variety 2: it is a MOS in the sense of `is_mos`.
pub proof fn lemma_mos_maximum_variety(a: nat, b: nat)
    requires
        a >= 1,
        b >= 1,
        spec_gcd(a, b) == 1,
        a + b < i32::MAX,
    ensures
        spec_maximum_variety(mos_word(a, b)) == 2,
        is_mos(mos_word(a, b)),
{
    let n = (a + b) as int;
    lemma_mos_word_counts(a, b, 0usize);
    assert forall|k: int| 1 <= k <= n / 2 implies #[trigger] variety::<Letter>(mos_word(a, b), k) == 2 by {
        lemma_mos_variety_two(a, b, k);
    }
    lemma_variety_upto_two(mos_word(a, b), n / 2);
}

/// A renaming of letters that sends different letters to different letters.
pub open spec fn injective_renaming(f: spec_fn(Letter) -> Letter) -> bool {
    forall|a: Letter, b: Letter| #[trigger] f(a) == #[trigger] f(b) ==> a == b
}

/// Renaming the letters of a word moves each letter's count to its new name, and a letter
/// that is no new name does not occur.
proof fn lemma_occurrences_renamed(u: Seq<Letter>, f: spec_fn(Letter) -> Letter, y: Letter)
    requires
        injective_renaming(f),
    ensures
        forall|x: Letter| #[trigger] f(x) == y ==> occurrences(u.map_values(f), y) == occurrences(u, x),
        (forall|x: Letter| #[trigger] f(x) != y) ==> occurrences(u.map_values(f), y) == 0,
    decreases u.len(),
{
    if u.len() > 0 {
        assert(u.map_values(f).drop_last() =~= u.drop_last().map_values(f));
        assert(u.map_values(f).last() == f(u.last()));
        lemma_occurrences_renamed(u.drop_last(), f, y);
    }
}

/// Two words of at most `i32::MAX` letters have the same count entries exactly when they have
/// the same number of each letter.
proof fn lemma_count_entries_eq_iff(u: Seq<Letter>, v: Seq<Letter>)
    requires
        u.len() <= i32::MAX,
        v.len() <= i32::MAX,
    ensures
        count_entries::<Letter>(u) == count_entries::<Letter>(v) <==> forall|x: Letter| #[trigger] occurrences(u, x) == occurrences(v, x),
{
    if count_entries::<Letter>(u) == count_entries::<Letter>(v) {
        lemma_count_entries::<Letter>(u);
        lemma_count_entries::<Letter>(v);
        assert forall|x: Letter| #[trigger] occurrences(u, x) == occurrences(v, x) by {
            assert(entries_get::<Letter>(count_entries::<Letter>(u), x) == entries_get::<Letter>(count_entries::<Letter>(v), x));
        }
    }
    if forall|x: Letter| #[trigger] occurrences(u, x) == occurrences(v, x) {
        lemma_count_entries_same_counts::<Letter>(u, v);
    }
}

/// The `k`-step on degree `d` of a renamed word is the renamed `k`-step.
proof fn lemma_word_on_degree_renamed(s: Seq<Letter>, f: spec_fn(Letter) -> Letter, d: int, k: int)
    requires
        s.len() > 0,
        0 <= k <= s.len(),
    ensures
        spec_word_on_degree(s.map_values(f), d, k) == spec_word_on_degree(s, d, k).map_values(f),
{
    let n = s.len() as int;
    assert(0 <= d % n < n);
    assert(spec_rotate(s.map_values(f), d) =~= spec_rotate(s, d).map_values(f));
    lemma_rotate_len(s, d);
    assert(spec_word_on_degree(s.map_values(f), d, k) =~= spec_word_on_degree(s, d, k).map_values(f));
}

/// Two lists with equal entries at the same places have equally many distinct entries.
proof fn lemma_to_set_len_same_pattern<A, B>(a: Seq<A>, b: Seq<B>)
    requires
        a.len() == b.len(),
        forall|i: int, j: int| 0 <= i < a.len() && 0 <= j < a.len() ==> (a[i] == a[j] <==> b[i] == b[j]),
    ensures
        a.to_set().len() == b.to_set().len(),
    decreases a.len(),
{
    if a.len() == 0 {
        assert(a.to_set() =~= Set::<A>::empty());
        assert(b.to_set() =~= Set::<B>::empty());
    } else {
        let n = a.len() as int;
        let a2 = a.drop_last();
        let b2 = b.drop_last();
        assert forall|i: int, j: int| 0 <= i < a2.len() && 0 <= j < a2.len() implies (a2[i] == a2[j] <==> b2[i] == b2[j]) by {
            assert(a2[i] == a[i] && a2[j] == a[j] && b2[i] == b[i] && b2[j] == b[j]);
        }
        lemma_to_set_len_same_pattern(a2, b2);
        assert(a =~= a2.push(a[n - 1]));
        assert(b =~= b2.push(b[n - 1]));
        a2.lemma_push_to_set_commute(a[n - 1]);
        b2.lemma_push_to_set_commute(b[n - 1]);
        vstd::seq_lib::seq_to_set_is_finite(a2);
        vstd::seq_lib::seq_to_set_is_finite(b2);
        if a2.contains(a[n - 1]) {
            let j = choose|j: int| 0 <= j < a2.len() && a2[j] == a[n - 1];
            assert(a[j] == a[n - 1]);
            assert(b2[j] == b[n - 1]);
        }
        if b2.contains(b[n - 1]) {
            let j = choose|j: int| 0 <= j < b2.len() && b2[j] == b[n - 1];
            assert(b[j] == b[n - 1]);
            assert(a2[j] == a[n - 1]);
        }
        vstd::set::axiom_set_insert_len(a2.to_set(), a[n - 1]);
        vstd::set::axiom_set_insert_len(b2.to_set(), b[n - 1]);
    }
}

/// Renaming letters injectively keeps the number of distinct `k`-steps.
proof fn lemma_variety_renamed(s: Seq<Letter>, f: spec_fn(Letter) -> Letter, k: int)
    requires
        injective_renaming(f),
        s.len() < i32::MAX,
        0 <= k <= s.len(),
    ensures
        variety::<Letter>(s.map_values(f), k) == variety::<Letter>(s, k),
{
    let t = s.map_values(f);
    let a = spec_dyads::<Letter>(t, k);
    let b = spec_dyads::<Letter>(s, k);
    if s.len() > 0 {
        assert forall|i: int, j: int| 0 <= i < a.len() && 0 <= j < a.len() implies (a[i] == a[j] <==> b[i] == b[j]) by {
            let ui = spec_word_on_degree(s, i, k);
            let uj = spec_word_on_degree(s, j, k);
            lemma_word_on_degree_renamed(s, f, i, k);
            lemma_word_on_degree_renamed(s, f, j, k);
            lemma_rotate_len(s, i);
            lemma_rotate_len(s, j);
            lemma_count_entries_eq_iff(ui, uj);
            lemma_count_entries_eq_iff(ui.map_values(f), uj.map_values(f));
            if b[i] == b[j] {
                assert forall|y: Letter| #[trigger] occurrences(ui.map_values(f), y) == occurrences(uj.map_values(f), y) by {
                    lemma_occurrences_renamed(ui, f, y);
                    lemma_occurrences_renamed(uj, f, y);
                    if exists|x: Letter| #[trigger] f(x) == y {
                        let x = choose|x: Letter| #[trigger] f(x) == y;
                        assert(occurrences(ui, x) == occurrences(uj, x));
                    }
                }
            }
            if a[i] == a[j] {
                assert forall|x: Letter| #[trigger] occurrences(ui, x) == occurrences(uj, x) by {
                    lemma_occurrences_renamed(ui, f, f(x));
                    lemma_occurrences_renamed(uj, f, f(x));
                    assert(occurrences(ui.map_values(f), f(x)) == occurrences(uj.map_values(f), f(x)));
                }
            }
        }
        lemma_to_set_len_same_pattern(a, b);
    } else {
        assert(a =~= b);
    }
}

/// Renaming letters injectively keeps the maximum variety of every class range.
proof fn lemma_variety_upto_renamed(s: Seq<Letter>, f: spec_fn(Letter) -> Letter, m: int)
    requires
        injective_renaming(f),
        s.len() < i32::MAX,
        m <= s.len(),
    ensures
        variety_upto(s.map_values(f), m) == variety_upto(s, m),
    decreases m,
{
    if m > 0 {
        lemma_variety_upto_renamed(s, f, m - 1);
        lemma_variety_renamed(s, f, m);
    }
}

/// The maximum variety of a word does not depend on the names of its letters: renaming them
/// injectively keeps it.
pub proof fn lemma_maximum_variety_renamed(s: Seq<Letter>, f: spec_fn(Letter) -> Letter)
    requires
        injective_renaming(f),
        s.len() < i32::MAX,
    ensures
        spec_maximum_variety(s.map_values(f)) == spec_maximum_variety(s),
{
    lemma_variety_upto_renamed(s, f, (s.len() / 2) as int);
}

/// Identifying `x` with `y` and identifying `y` with `x` give the same word up to the names of
/// its letters, so one is a MOS exactly when the other is.
pub proof fn lemma_identification_symmetric(s: Seq<Letter>, x: Letter, y: Letter)
    requires
        s.len() < i32::MAX,
    ensures
        is_mos(spec_replace(s, x, y)) == is_mos(spec_replace(s, y, x)),
{
    let f = |c: Letter| if c == x { y } else if c == y { x } else { c };
    assert(injective_renaming(f));
    assert(spec_replace(s, x, y).map_values(f) =~= spec_replace(s, y, x));
    lemma_maximum_variety_renamed(spec_replace(s, x, y), f);
}

/// A word over the letters 0, 1, 2 with three distinct letters holds each of them.
proof fn lemma_three_letters(s: Seq<Letter>)
    requires
        forall|i: int| 0 <= i < s.len() ==> #[trigger] s[i] <= 2,
        s.to_set().len() == 3,
    ensures
        s.contains(0usize),
        s.contains(1usize),
        s.contains(2usize),
{
    let full = Set::<Letter>::empty().insert(0usize).insert(1usize).insert(2usize);
    assert forall|c: Letter| c <= 2 implies s.contains(c) by {
        if !s.contains(c) {
            let rest = full.remove(c);
            assert(s.to_set().subset_of(rest)) by {
                assert forall|x: Letter| s.to_set().contains(x) implies rest.contains(x) by {
                    let i = choose|i: int| 0 <= i < s.len() && s[i] == x;
                    assert(s[i] <= 2);
                }
            }
            assert(full.len() == 3) by {
                assert(Set::<Letter>::empty().insert(0usize).len() == 1);
                assert(Set::<Letter>::empty().insert(0usize).insert(1usize).len() == 2);
            }
            assert(rest.len() == 2);
            vstd::set_lib::lemma_len_subset(s.to_set(), rest);
        }
    }
}

/// A ternary scale word (letters among 0, 1, 2) is pairwise MOS exactly when it has three
/// letters and identifying any one of them with any other gives a MOS.
pub proof fn lemma_pairwise_mos_law(s: Seq<Letter>)
    requires
        s.len() < i32::MAX,
        forall|i: int| 0 <= i < s.len() ==> #[trigger] s[i] <= 2,
    ensures
        spec_is_pairwise_mos(s) <==> (s.to_set().len() == 3 && forall|x: Letter, y: Letter|
            s.contains(x) && s.contains(y) && x != y ==> #[trigger] is_mos(spec_replace(s, x, y))),
{
    if spec_is_pairwise_mos(s) {
        assert forall|x: Letter, y: Letter| s.contains(x) && s.contains(y) && x != y implies #[trigger] is_mos(spec_replace(s, x, y)) by {
            let i = choose|i: int| 0 <= i < s.len() && s[i] == x;
            let j = choose|j: int| 0 <= j < s.len() && s[j] == y;
            assert(s[i] <= 2 && s[j] <= 2);
            lemma_identification_symmetric(s, x, y);
        }
    }
    if s.to_set().len() == 3 && forall|x: Letter, y: Letter|
        s.contains(x) && s.contains(y) && x != y ==> #[trigger] is_mos(spec_replace(s, x, y)) {
        lemma_three_letters(s);
        assert(is_mos(spec_replace(s, 1, 0)));
        assert(is_mos(spec_replace(s, 1, 2)));
        assert(is_mos(spec_replace(s, 2, 0)));
    }
}

/// A ternary scale word is a monotone MOS exactly when it has three letters and identifying
/// L with m (in either direction), identifying m with s (in either direction) and deleting s
/// each give a MOS.
pub proof fn lemma_monotone_mos_law(s: Seq<Letter>)
    requires
        s.len() < i32::MAX,
    ensures
        spec_is_monotone_mos(s) <==> {
            &&& s.to_set().len() == 3
            &&& is_mos(spec_replace(s, 0, 1))
            &&& is_mos(spec_replace(s, 1, 2))
            &&& is_mos(spec_delete(s, 2))
        },
        spec_is_monotone_mos(s) ==> is_mos(spec_replace(s, 1, 0)) && is_mos(spec_replace(s, 2, 1)),
{
    lemma_identification_symmetric(s, 0, 1);
    lemma_identification_symmetric(s, 1, 2);
}

/// A word is a MOS substitution scale exactly when it has three letters and some letter `t`
/// of it, taken as template letter, with the other two `f1`, `f2` as filling letters, makes
/// both the word without `t` and the word with `f1` identified with `f2` MOS scales.
pub proof fn lemma_mos_subst_law(s: Seq<Letter>)
    requires
        s.len() < i32::MAX,
    ensures
        spec_is_mos_subst(s) <==> (s.to_set().len() == 3 && exists|t: Letter, f1: Letter, f2: Letter|
            #![trigger spec_delete(s, t), spec_replace(s, f1, f2)]
            s.contains(t) && s.contains(f1) && s.contains(f2) && t != f1 && t != f2 && f1 != f2
                && is_mos(spec_delete(s, t)) && is_mos(spec_replace(s, f1, f2))),
{
    let es = count_entries::<Letter>(s);
    lemma_count_entries_keys::<Letter>(s);
    let d = distinct_letters(s);
    assert(d =~= entry_keys(es));
    assert forall|i: int| 0 <= i < d.len() implies s.contains(#[trigger] d[i]) by {
        assert(d.to_set().contains(d[i]));
    }
    if d.len() == 3 {
        assert(d[0] < d[1] && d[1] < d[2]) by {
            assert(usize::model_lt(es[0].0, es[1].0));
            assert(usize::model_lt(es[1].0, es[2].0));
        }
    }
    if spec_is_mos_subst(s) {
        if spec_mos_subst_helper(s, d[0], d[1], d[2]) {
            assert(spec_delete(s, d[0]) == spec_delete(s, d[0]) && spec_replace(s, d[1], d[2]) == spec_replace(s, d[1], d[2]));
        } else if spec_mos_subst_helper(s, d[1], d[0], d[2]) {
            assert(spec_delete(s, d[1]) == spec_delete(s, d[1]) && spec_replace(s, d[0], d[2]) == spec_replace(s, d[0], d[2]));
        } else {
            assert(spec_delete(s, d[2]) == spec_delete(s, d[2]) && spec_replace(s, d[0], d[1]) == spec_replace(s, d[0], d[1]));
        }
    }
    if s.to_set().len() == 3 && exists|t: Letter, f1: Letter, f2: Letter|
        #![trigger spec_delete(s, t), spec_replace(s, f1, f2)]
        s.contains(t) && s.contains(f1) && s.contains(f2) && t != f1 && t != f2 && f1 != f2
            && is_mos(spec_delete(s, t)) && is_mos(spec_replace(s, f1, f2)) {
        let (t, f1, f2) = choose|t: Letter, f1: Letter, f2: Letter|
            #![trigger spec_delete(s, t), spec_replace(s, f1, f2)]
            s.contains(t) && s.contains(f1) && s.contains(f2) && t != f1 && t != f2 && f1 != f2
                && is_mos(spec_delete(s, t)) && is_mos(spec_replace(s, f1, f2));
        assert(d.to_set().contains(t) && d.to_set().contains(f1) && d.to_set().contains(f2));
        let it = choose|i: int| 0 <= i < d.len() && d[i] == t;
        let i1 = choose|i: int| 0 <= i < d.len() && d[i] == f1;
        let i2 = choose|i: int| 0 <= i < d.len() && d[i] == f2;
        lemma_identification_symmetric(s, f1, f2);
        assert(spec_mos_subst_helper(s, t, f1, f2) && spec_mos_subst_helper(s, t, f2, f1));
        assert(it != i1 && it != i2 && i1 != i2);
    }
}

/// Return the block balance of `scale`.
pub fn block_balance(scale: &[Letter]) -> (r: usize)
    requires
        scale@.len() < i32::MAX,
    ensures
        r == spec_block_balance(scale@),
{
    let n = scale.len();
    if n <= 1 {
        return n;
    }
    let floor_half: usize = n / 2;
    proof {
        lemma_models_usize(scale@);
        lemma_count_entries::<Letter>(scale@);
    }
    let letters = CountVector::from_slice(scale).keys();
    let ghost ls = distinct_letters(scale@);
    proof {
        lemma_models_usize(letters@);
        assert(letters@ == ls);
        assert forall|i: int| 0 <= i < ls.len() implies occurrences(scale@, #[trigger] ls[i]) > 0 by {
            let es = count_entries::<Letter>(scale@);
            lemma_entries_get_at::<Letter>(es, i);
            assert(ls[i] == es[i].0);
        }
    }
    let mut best: usize = 0;
    let mut k: usize = 1;
    while k <= floor_half
        invariant
            1 <= k <= floor_half + 1,
            floor_half == n / 2,
            n == scale@.len(),
            n >= 2,
            n < i32::MAX,
            letters@ == ls,
            ls == distinct_letters(scale@),
            forall|i: int| 0 <= i < ls.len() ==> occurrences(scale@, #[trigger] ls[i]) > 0,
            best == spread_upto(scale@, k - 1),
            best <= n,
        decreases floor_half + 1 - k,
    {
        let mut dyads: Vec<CountVector<Letter>> = Vec::new();
        let mut d: usize = 0;
        while d < n
            invariant
                d <= n,
                n == scale@.len(),
                n < i32::MAX,
                1 <= k <= n,
                dyads@.len() == d,
                forall|j: int| 0 <= j < d ==> (#[trigger] dyads@[j])@ == count_entries::<Letter>(spec_word_on_degree(scale@, j, k as int)),
            decreases n - d,
        {
            let dy = dyad_on_degree(scale, d, k);
            proof {
                lemma_models_usize(scale@);
            }
            dyads.push(dy);
            d = d + 1;
        }
        let mut best_k: usize = 0;
        let mut li: usize = 0;
        while li < letters.len()
            invariant
                li <= letters@.len(),
                letters@ == ls,
                n == scale@.len(),
                n >= 2,
                n < i32::MAX,
                1 <= k <= n / 2,
                dyads@.len() == n,
                forall|j: int| 0 <= j < n ==> (#[trigger] dyads@[j])@ == count_entries::<Letter>(spec_word_on_degree(scale@, j, k as int)),
                forall|i: int| 0 <= i < ls.len() ==> occurrences(scale@, #[trigger] ls[i]) > 0,
                best_k == spread_over(scale@, k as int, ls.subrange(0, li as int)),
                best_k <= k + 1,
            decreases letters@.len() - li,
        {
            let letter = letters[li];
            let mut maxc: i32 = 0;
            let mut minc: i32 = i32::MAX;
            let mut j: usize = 0;
            while j < n
                invariant
                    j <= n,
                    n == scale@.len(),
                    n < i32::MAX,
                    1 <= k <= n,
                    dyads@.len() == n,
                    forall|jj: int| 0 <= jj < n ==> (#[trigger] dyads@[jj])@ == count_entries::<Letter>(spec_word_on_degree(scale@, jj, k as int)),
                    maxc == occ_max(scale@, k as int, letter, j as int),
                    minc == occ_min(scale@, k as int, letter, j as int),
                decreases n - j,
            {
                let ghost w = spec_word_on_degree(scale@, j as int, k as int);
                proof {
                    lemma_count_entries::<Letter>(w);
                    lemma_occ_bounds(scale@, k as int, letter, j + 1);
                }
                match dyads[j].get(&letter) {
                    Some(c) => {
                        let c = *c;
                        if c > maxc {
                            maxc = c;
                        }
                        if c < minc {
                            minc = c;
                        }
                    },
                    None => {
                        if 0 < minc {
                            minc = 0;
                        }
                    },
                }
                j = j + 1;
            }
            proof {
                lemma_spread_nonneg(scale@, k as int, letter);
                assert(ls.subrange(0, li + 1).drop_last() =~= ls.subrange(0, li as int));
            }
            let spread = (maxc - minc) as usize;
            if spread > best_k {
                best_k = spread;
            }
            li = li + 1;
        }
        assert(ls.subrange(0, ls.len() as int) =~= ls);
        if best_k > best {
            best = best_k;
        }
        k = k + 1;
    }
    best
}

// ---------------------------------------------------------------------------
// Least modes and chirality
// ---------------------------------------------------------------------------

/// The letter `d` places after degree `a` of the word `s`, read circularly.
pub open spec fn circ(s: Seq<Letter>, a: int, d: int) -> Letter {
    s[(a + d) % (s.len() as int)]
}

/// The `len` letters read circularly from degrees `a` and `b` are the same.
pub open spec fn agree(s: Seq<Letter>, a: int, b: int, len: int) -> bool {
    forall|d: int| #![trigger circ(s, a, d)] #![trigger circ(s, b, d)] 0 <= d < len ==> circ(s, a, d) == circ(s, b, d)
}

/// Read circularly, the letters from degree `a` first fall below those from `b` at place `d`.
pub open spec fn beats(s: Seq<Letter>, a: int, b: int, d: int) -> bool {
    0 <= d && agree(s, a, b, d) && circ(s, a, d) < circ(s, b, d)
}

/// The `len` letters from degree `a` are lexicographically at most the `len` letters from `b`.
pub open spec fn win_le(s: Seq<Letter>, a: int, b: int, len: int) -> bool {
    agree(s, a, b, len) || exists|d: int| d < len && #[trigger] beats(s, a, b, d)
}

/// The letters from `a` fall below those from `p` before degree `lim` is reached from `a`.
pub open spec fn beaten(s: Seq<Letter>, a: int, p: int, lim: int) -> bool {
    exists|d: int| a + d < lim && #[trigger] beats(s, a, p, d)
}

/// The first `l` of the `m` letters from degree `k` are also their last `l`.
pub open spec fn border(s: Seq<Letter>, k: int, m: int, l: int) -> bool {
    agree(s, k, k + m - l, l)
}

/// The border length that an entry of the failure table stands for.
pub open spec fn blen(v: usize) -> int {
    if v == usize::MAX {
        0
    } else {
        v + 1
    }
}

/// `v` stands for the longest proper border of the first `t + 1` letters from degree `k`.
pub open spec fn is_fail(s: Seq<Letter>, k: int, t: int, v: usize) -> bool {
    &&& blen(v) <= t
    &&& border(s, k, t + 1, blen(v))
    &&& forall|l: int| blen(v) < l <= t ==> !#[trigger] border(s, k, t + 1, l)
}

proof fn lemma_agree_sym(s: Seq<Letter>, a: int, b: int, len: int)
    requires
        agree(s, a, b, len),
    ensures
        agree(s, b, a, len),
{
}

proof fn lemma_agree_trans(s: Seq<Letter>, a: int, b: int, c: int, len: int)
    requires
        agree(s, a, b, len),
        agree(s, b, c, len),
    ensures
        agree(s, a, c, len),
{
    assert forall|d: int| 0 <= d < len implies circ(s, a, d) == circ(s, c, d) by {
        assert(circ(s, a, d) == circ(s, b, d));
    }
}

proof fn lemma_agree_prefix(s: Seq<Letter>, a: int, b: int, len: int, l: int)
    requires
        agree(s, a, b, len),
        l <= len,
    ensures
        agree(s, a, b, l),
{
}

proof fn lemma_agree_shift(s: Seq<Letter>, a: int, b: int, len: int, x: int)
    requires
        agree(s, a, b, len),
        0 <= x <= len,
    ensures
        agree(s, a + x, b + x, len - x),
{
    assert forall|d: int| 0 <= d < len - x implies #[trigger] circ(s, a + x, d) == circ(s, b + x, d) by {
        assert(a + x + d == a + (x + d));
        assert(b + x + d == b + (x + d));
        assert(circ(s, a + x, d) == circ(s, a, x + d));
        assert(circ(s, b + x, d) == circ(s, b, x + d));
    }
}

proof fn lemma_beats_trans(s: Seq<Letter>, a: int, b: int, p: int, d1: int, d2: int) -> (d: int)
    requires
        beats(s, a, b, d1),
        beats(s, b, p, d2),
    ensures
        d <= d1,
        beats(s, a, p, d),
{
    let d = if d1 < d2 { d1 } else { d2 };
    lemma_agree_prefix(s, a, b, d1, d);
    lemma_agree_prefix(s, b, p, d2, d);
    lemma_agree_trans(s, a, b, p, d);
    if d1 < d2 {
        assert(circ(s, b, d1) == circ(s, p, d1));
    } else if d2 < d1 {
        assert(circ(s, a, d2) == circ(s, b, d2));
    }
    d
}

proof fn lemma_beats_le(s: Seq<Letter>, a: int, b: int, p: int, d1: int, len: int) -> (d: int)
    requires
        beats(s, a, b, d1),
        win_le(s, b, p, len),
        d1 < len,
    ensures
        0 <= d <= d1,
        beats(s, a, p, d),
{
    if agree(s, b, p, len) {
        lemma_agree_prefix(s, b, p, len, d1);
        lemma_agree_trans(s, a, b, p, d1);
        assert(circ(s, b, d1) == circ(s, p, d1));
        d1
    } else {
        let d2 = choose|d2: int| d2 < len && #[trigger] beats(s, b, p, d2);
        lemma_beats_trans(s, a, b, p, d1, d2)
    }
}

proof fn lemma_le_prefix(s: Seq<Letter>, a: int, b: int, len: int, l: int)
    requires
        win_le(s, a, b, len),
        0 <= l <= len,
    ensures
        win_le(s, a, b, l),
{
    if !agree(s, a, b, len) {
        let d = choose|d: int| d < len && #[trigger] beats(s, a, b, d);
        if d >= l {
            lemma_agree_prefix(s, a, b, d, l);
        } else {
            assert(beats(s, a, b, d));
        }
    }
}

proof fn lemma_le_agree_next(s: Seq<Letter>, a: int, b: int, len: int)
    requires
        win_le(s, a, b, len + 1),
        agree(s, a, b, len),
        len >= 0,
    ensures
        circ(s, a, len) <= circ(s, b, len),
{
    if !agree(s, a, b, len + 1) {
        let d = choose|d: int| d < len + 1 && #[trigger] beats(s, a, b, d);
        if d < len {
            assert(circ(s, a, d) == circ(s, b, d));
        }
    }
}

proof fn lemma_le_first(s: Seq<Letter>, a: int, b: int, len: int)
    requires
        win_le(s, a, b, len),
        len >= 1,
    ensures
        circ(s, a, 0) <= circ(s, b, 0),
{
    lemma_le_prefix(s, a, b, len, 1);
    lemma_le_agree_next(s, a, b, 0);
}

proof fn lemma_le_extend(s: Seq<Letter>, a: int, b: int, len: int)
    requires
        win_le(s, a, b, len),
        len >= 0,
        agree(s, a, b, len) ==> circ(s, a, len) <= circ(s, b, len),
    ensures
        win_le(s, a, b, len + 1),
{
    if agree(s, a, b, len) {
        if circ(s, a, len) < circ(s, b, len) {
            assert(beats(s, a, b, len));
        } else {
            assert(agree(s, a, b, len + 1));
        }
    } else {
        let d = choose|d: int| d < len && #[trigger] beats(s, a, b, d);
        assert(beats(s, a, b, d));
    }
}

proof fn lemma_le_congr(s: Seq<Letter>, a: int, b: int, a2: int, b2: int, len: int)
    requires
        win_le(s, a, b, len),
        agree(s, a, a2, len),
        agree(s, b, b2, len),
    ensures
        win_le(s, a2, b2, len),
{
    lemma_agree_sym(s, a, a2, len);
    if agree(s, a, b, len) {
        lemma_agree_trans(s, a2, a, b, len);
        lemma_agree_trans(s, a2, b, b2, len);
    } else {
        let d = choose|d: int| d < len && #[trigger] beats(s, a, b, d);
        lemma_agree_prefix(s, a2, a, len, d);
        lemma_agree_prefix(s, a, b, d, d);
        lemma_agree_prefix(s, b, b2, len, d);
        lemma_agree_trans(s, a2, a, b, d);
        lemma_agree_trans(s, a2, b, b2, d);
        assert(circ(s, a, d) == circ(s, a2, d));
        assert(circ(s, b, d) == circ(s, b2, d));
        assert(beats(s, a2, b2, d));
    }
}

/// Borders of a border of a word are exactly its borders up to that length.
proof fn lemma_border_of_border(s: Seq<Letter>, k: int, m: int, b: int, l: int)
    requires
        border(s, k, m, b),
        0 <= l <= b <= m,
    ensures
        border(s, k, m, l) <==> border(s, k, b, l),
{
    lemma_agree_shift(s, k, k + m - b, b, b - l);
    assert(k + m - b + (b - l) == k + m - l);
    // agree(k + b - l, k + m - l, l)
    if border(s, k, m, l) {
        lemma_agree_sym(s, k + b - l, k + m - l, l);
        lemma_agree_trans(s, k, k + m - l, k + b - l, l);
    }
    if border(s, k, b, l) {
        lemma_agree_trans(s, k, k + b - l, k + m - l, l);
    }
}

proof fn lemma_border_extend(s: Seq<Letter>, k: int, m: int, b: int)
    requires
        border(s, k, m, b),
        0 <= b,
        circ(s, k, b) == circ(s, k, m),
    ensures
        border(s, k, m + 1, b + 1),
{
    assert(k + (m + 1) - (b + 1) == k + m - b);
    assert(circ(s, k + m - b, b) == circ(s, k, m)) by {
        assert(k + m - b + b == k + m);
    }
}

proof fn lemma_border_shrink(s: Seq<Letter>, k: int, m: int, l: int)
    requires
        border(s, k, m + 1, l),
        l >= 1,
    ensures
        border(s, k, m, l - 1),
        circ(s, k, l - 1) == circ(s, k, m),
{
    assert(k + (m + 1) - l == k + m - (l - 1));
    assert(circ(s, k, l - 1) == circ(s, k + m - (l - 1), l - 1));
    assert(circ(s, k + m - (l - 1), l - 1) == circ(s, k, m)) by {
        assert(k + m - (l - 1) + (l - 1) == k + m);
    }
}

/// Where the first `b` letters from `k2` and from `k` are the same, so are the borders of their
/// prefixes shorter than `b`.
proof fn lemma_fail_transfer(s: Seq<Letter>, k: int, k2: int, b: int, t: int, v: usize)
    requires
        agree(s, k2, k, b),
        0 <= t < b,
        is_fail(s, k, t, v),
    ensures
        is_fail(s, k2, t, v),
{
    assert forall|l: int| 0 <= l <= t + 1 implies (#[trigger] border(s, k2, t + 1, l) <==> border(s, k, t + 1, l)) by {
        lemma_agree_prefix(s, k2, k, b, t + 1);
        lemma_agree_shift(s, k2, k, t + 1, t + 1 - l);
        assert(k2 + (t + 1 - l) == k2 + (t + 1) - l);
        assert(k + (t + 1 - l) == k + (t + 1) - l);
        lemma_agree_prefix(s, k2, k, t + 1, l);
        if border(s, k2, t + 1, l) {
            lemma_agree_sym(s, k2, k, l);
            lemma_agree_trans(s, k, k2, k2 + (t + 1) - l, l);
            lemma_agree_trans(s, k, k2 + (t + 1) - l, k + (t + 1) - l, l);
        }
        if border(s, k, t + 1, l) {
            lemma_agree_trans(s, k2, k, k + (t + 1) - l, l);
            lemma_agree_sym(s, k2 + (t + 1 - l), k + (t + 1 - l), l);
            lemma_agree_trans(s, k2, k + (t + 1) - l, k2 + (t + 1) - l, l);
        }
    }
    assert(border(s, k2, t + 1, blen(v)));
    assert forall|l: int| blen(v) < l <= t implies !#[trigger] border(s, k2, t + 1, l) by {
        assert(!border(s, k, t + 1, l));
    }
}

/// What Booth's algorithm knows before it reads degree `j`, with candidate least mode `k`:
/// the failure table of the letters from `k` to `j`, every degree before `k` already falls
/// below `k`, and no degree between `k` and `j` has fallen below `k` so far.
pub open spec fn booth_outer(s: Seq<Letter>, f: Seq<usize>, k: int, j: int) -> bool {
    &&& 0 <= k < j
    &&& f.len() >= j - k
    &&& forall|t: int| 0 <= t < j - k ==> #[trigger] is_fail(s, k, t, f[t])
    &&& forall|p: int| 0 <= p < k ==> #[trigger] beaten(s, k, p, j)
    &&& forall|p: int| k < p < j ==> #[trigger] win_le(s, k, p, j - p)
}

/// What Booth's algorithm knows while it walks the borders for the letter at degree `j`:
/// `v` stands for a border of the letters from `k` to `j`, and every longer border is followed
/// by a letter below the one at `j`.
pub open spec fn booth_inner(s: Seq<Letter>, f: Seq<usize>, k: int, j: int, v: usize) -> bool {
    &&& 0 <= k < j
    &&& f.len() >= j - k
    &&& forall|t: int| 0 <= t < j - k ==> #[trigger] is_fail(s, k, t, f[t])
    &&& forall|p: int| 0 <= p < k ==> #[trigger] beaten(s, k, p, j + 1)
    &&& forall|p: int| k < p < j ==> #[trigger] win_le(s, k, p, j - p)
    &&& blen(v) < j - k
    &&& border(s, k, j - k, blen(v))
    &&& forall|l: int| blen(v) < l < j - k && #[trigger] border(s, k, j - k, l) ==> circ(s, k, l) < circ(s, j, 0)
}

proof fn lemma_booth_inner_start(s: Seq<Letter>, f: Seq<usize>, k: int, j: int)
    requires
        booth_outer(s, f, k, j),
    ensures
        booth_inner(s, f, k, j, f[j - k - 1]),
{
    let t = j - k - 1;
    assert(is_fail(s, k, t, f[t]));
    assert forall|p: int| 0 <= p < k implies #[trigger] beaten(s, k, p, j + 1) by {
        assert(beaten(s, k, p, j));
        let d = choose|d: int| k + d < j && #[trigger] beats(s, k, p, d);
        assert(k + d < j + 1 && beats(s, k, p, d));
    }
    assert forall|l: int| blen(f[t]) < l < j - k && #[trigger] border(s, k, j - k, l) implies circ(s, k, l) < circ(s, j, 0) by {
        assert(!border(s, k, t + 1, l));
    }
}

proof fn lemma_booth_move(s: Seq<Letter>, f: Seq<usize>, k: int, j: int, v: usize)
    requires
        booth_inner(s, f, k, j, v),
        v != usize::MAX,
        circ(s, j, 0) < circ(s, k, v + 1),
    ensures
        booth_inner(s, f, j - v - 1, j, f[v as int]),
{
    let b = v + 1;
    let k2 = j - b;
    assert(k + (j - k) - b == k2);
    lemma_agree_sym(s, k, k2, b);
    assert(is_fail(s, k, v as int, f[v as int]));
    assert forall|t: int| 0 <= t < j - k2 implies #[trigger] is_fail(s, k2, t, f[t]) by {
        assert(is_fail(s, k, t, f[t]));
        lemma_fail_transfer(s, k, k2, b, t, f[t]);
    }
    assert(circ(s, k2, b) == circ(s, j, 0)) by {
        assert(k2 + b == j + 0);
    }
    assert(beats(s, k2, k, b));
    assert forall|p: int| 0 <= p < k2 implies #[trigger] beaten(s, k2, p, j + 1) by {
        if p == k {
            assert(k2 + b < j + 1);
        } else if p < k {
            assert(beaten(s, k, p, j + 1));
            let d0 = choose|d: int| k + d < j + 1 && #[trigger] beats(s, k, p, d);
            let d = lemma_beats_trans(s, k2, k, p, b, d0);
            assert(k2 + d < j + 1 && beats(s, k2, p, d));
        } else {
            assert(win_le(s, k, p, j - p));
            let d = lemma_beats_le(s, k2, k, p, b, j - p);
            assert(k2 + d < j + 1 && beats(s, k2, p, d));
        }
    }
    assert forall|p: int| k2 < p < j implies #[trigger] win_le(s, k2, p, j - p) by {
        let q = k + (p - k2);
        assert(win_le(s, k, q, j - q));
        lemma_le_prefix(s, k, q, j - q, j - p);
        lemma_agree_prefix(s, k, k2, b, j - p);
        lemma_agree_shift(s, k, k2, b, p - k2);
        assert(k2 + (p - k2) == p);
        assert(b - (p - k2) == j - p);
        lemma_le_congr(s, k, q, k2, p, j - p);
    }
    let w = f[v as int];
    assert(0 <= v < j - k2);
    assert(is_fail(s, k2, v as int, w));
    assert(border(s, k2, b, blen(w)));
    assert forall|l: int| blen(w) < l < j - k2 && #[trigger] border(s, k2, j - k2, l) implies circ(s, k2, l) < circ(s, j, 0) by {
        assert(!border(s, k2, v + 1, l));
    }
}

proof fn lemma_booth_skip(s: Seq<Letter>, f: Seq<usize>, k: int, j: int, v: usize)
    requires
        booth_inner(s, f, k, j, v),
        v != usize::MAX,
        circ(s, j, 0) > circ(s, k, v + 1),
    ensures
        booth_inner(s, f, k, j, f[v as int]),
{
    let b = v + 1;
    let w = f[v as int];
    assert(is_fail(s, k, v as int, w));
    lemma_border_of_border(s, k, j - k, b, blen(w));
    assert forall|l: int| blen(w) < l < j - k && #[trigger] border(s, k, j - k, l) implies circ(s, k, l) < circ(s, j, 0) by {
        if l < b {
            lemma_border_of_border(s, k, j - k, b, l);
            assert(!border(s, k, v + 1, l));
        }
    }
}

proof fn lemma_booth_new_start(s: Seq<Letter>, f: Seq<usize>, k: int, j: int)
    requires
        booth_inner(s, f, k, j, usize::MAX),
        circ(s, j, 0) < circ(s, k, 0),
        f.len() > 0,
    ensures
        booth_outer(s, f.update(0, usize::MAX), j, j + 1),
{
    let f2 = f.update(0, usize::MAX);
    assert(is_fail(s, j, 0, f2[0]));
    assert forall|p: int| 0 <= p < j implies #[trigger] beaten(s, j, p, j + 1) by {
        if p < k {
            assert(beaten(s, k, p, j + 1));
            let d0 = choose|d: int| k + d < j + 1 && #[trigger] beats(s, k, p, d);
            if d0 > 0 {
                assert(circ(s, k, 0) == circ(s, p, 0));
            }
        } else if p > k {
            assert(win_le(s, k, p, j - p));
            lemma_le_first(s, k, p, j - p);
        }
        assert(beats(s, j, p, 0));
    }
}

proof fn lemma_booth_no_border(s: Seq<Letter>, f: Seq<usize>, k: int, j: int)
    requires
        booth_inner(s, f, k, j, usize::MAX),
        circ(s, j, 0) > circ(s, k, 0),
        f.len() > j - k,
    ensures
        booth_outer(s, f.update(j - k, usize::MAX), k, j + 1),
{
    let f2 = f.update(j - k, usize::MAX);
    assert(circ(s, k, j - k) == circ(s, j, 0)) by {
        assert(k + (j - k) == j + 0);
    }
    assert forall|t: int| 0 <= t < j + 1 - k implies #[trigger] is_fail(s, k, t, f2[t]) by {
        if t < j - k {
            assert(is_fail(s, k, t, f[t]));
        } else {
            assert forall|l: int| 0 < l <= t implies !#[trigger] border(s, k, t + 1, l) by {
                if border(s, k, t + 1, l) {
                    lemma_border_shrink(s, k, j - k, l);
                    if l - 1 > 0 {
                        assert(border(s, k, j - k, l - 1));
                    }
                }
            }
        }
    }
    assert forall|p: int| 0 <= p < k implies #[trigger] beaten(s, k, p, j + 1) by {
        assert(beaten(s, k, p, j + 1));
    }
    assert forall|p: int| k < p < j + 1 implies #[trigger] win_le(s, k, p, j + 1 - p) by {
        if p == j {
            assert(beats(s, k, j, 0));
        } else {
            assert(win_le(s, k, p, j - p));
            if agree(s, k, p, j - p) {
                assert(k + (j - k) - (j - p) == p);
                assert(border(s, k, j - k, j - p));
                assert(circ(s, p, j - p) == circ(s, j, 0)) by {
                    assert(p + (j - p) == j + 0);
                }
            }
            lemma_le_extend(s, k, p, j - p);
        }
    }
}

proof fn lemma_booth_border(s: Seq<Letter>, f: Seq<usize>, k: int, j: int, v: usize, nx: usize)
    requires
        booth_inner(s, f, k, j, v),
        circ(s, j, 0) == circ(s, k, blen(v)),
        blen(nx) == blen(v) + 1,
        f.len() > j - k,
    ensures
        booth_outer(s, f.update(j - k, nx), k, j + 1),
{
    let b = blen(v);
    let f2 = f.update(j - k, nx);
    assert(circ(s, k, j - k) == circ(s, j, 0)) by {
        assert(k + (j - k) == j + 0);
    }
    assert forall|t: int| 0 <= t < j + 1 - k implies #[trigger] is_fail(s, k, t, f2[t]) by {
        if t < j - k {
            assert(is_fail(s, k, t, f[t]));
        } else {
            lemma_border_extend(s, k, j - k, b);
            assert forall|l: int| b + 1 < l <= t implies !#[trigger] border(s, k, t + 1, l) by {
                if border(s, k, t + 1, l) {
                    lemma_border_shrink(s, k, j - k, l);
                    assert(border(s, k, j - k, l - 1));
                }
            }
        }
    }
    assert forall|p: int| 0 <= p < k implies #[trigger] beaten(s, k, p, j + 1) by {
        assert(beaten(s, k, p, j + 1));
    }
    assert forall|p: int| k < p < j + 1 implies #[trigger] win_le(s, k, p, j + 1 - p) by {
        if p == j {
            if b > 0 {
                assert(win_le(s, k, k + b, j - (k + b)));
                lemma_le_first(s, k, k + b, j - (k + b));
                assert(circ(s, k + b, 0) == circ(s, k, b)) by {
                    assert(k + b + 0 == k + b);
                }
            }
            lemma_le_extend(s, k, j, 0);
        } else {
            let l = j - p;
            assert(win_le(s, k, p, l));
            if agree(s, k, p, l) {
                assert(k + (j - k) - l == p);
                assert(border(s, k, j - k, l));
                assert(circ(s, p, l) == circ(s, j, 0)) by {
                    assert(p + l == j + 0);
                }
                if l < b {
                    let p2 = k + b - l;
                    assert(k + (j - k) - b == j - b);
                    lemma_agree_shift(s, k, j - b, b, b - l);
                    assert(j - b + (b - l) == p);
                    lemma_agree_sym(s, k, p, l);
                    lemma_agree_trans(s, p2, p, k, l);
                    lemma_agree_sym(s, p2, k, l);
                    assert(win_le(s, k, p2, j - p2));
                    lemma_le_prefix(s, k, p2, j - p2, l + 1);
                    lemma_le_agree_next(s, k, p2, l);
                    assert(circ(s, p2, l) == circ(s, k, b)) by {
                        assert(p2 + l == k + b);
                    }
                }
            }
            lemma_le_extend(s, k, p, l);
        }
    }
}

/// Two words of one length that agree before place `d` and differ there in favour of `a`.
proof fn lemma_lex_first_diff(a: Seq<Letter>, b: Seq<Letter>, d: int)
    requires
        a.len() == b.len(),
        0 <= d < a.len(),
        forall|x: int| 0 <= x < d ==> a[x] == b[x],
        a[d] < b[d],
    ensures
        lex_lt(a, b),
    decreases d,
{
    if d > 0 {
        assert(a[0] == b[0]);
        assert forall|x: int| 0 <= x < d - 1 implies a.drop_first()[x] == b.drop_first()[x] by {
            assert(a[x + 1] == b[x + 1]);
        }
        lemma_lex_first_diff(a.drop_first(), b.drop_first(), d - 1);
    }
}

/// The mode of `s` on degree `x`, letter by letter, read circularly.
proof fn lemma_rotate_circ(s: Seq<Letter>, x: int)
    requires
        s.len() > 0,
        x >= 0,
    ensures
        spec_rotate(s, x).len() == s.len(),
        forall|i: int| 0 <= i < s.len() ==> #[trigger] spec_rotate(s, x)[i] == circ(s, x, i),
{
    lemma_rotate_len(s, x);
    assert forall|i: int| 0 <= i < s.len() implies #[trigger] spec_rotate(s, x)[i] == circ(s, x, i) by {
        lemma_rotate_index(s, x, i);
        assert(i + x == x + i);
    }
}

/// When the letters from `a` are at most those from `b` over the length of the word,
/// the mode on `b` is not below the mode on `a`.
proof fn lemma_rotation_not_below(s: Seq<Letter>, a: int, b: int, len: int)
    requires
        s.len() > 0,
        a >= 0,
        b >= 0,
        len >= s.len(),
        win_le(s, a, b, len),
    ensures
        !lex_lt(spec_rotate(s, b), spec_rotate(s, a)),
{
    let n = s.len() as int;
    let ra = spec_rotate(s, a);
    let rb = spec_rotate(s, b);
    lemma_rotate_circ(s, a);
    lemma_rotate_circ(s, b);
    let d = if agree(s, a, b, len) {
        len
    } else {
        choose|d: int| d < len && #[trigger] beats(s, a, b, d)
    };
    if d >= n {
        if agree(s, a, b, len) {
            lemma_agree_prefix(s, a, b, len, n);
        } else {
            lemma_agree_prefix(s, a, b, d, n);
        }
        assert forall|i: int| 0 <= i < n implies ra[i] == rb[i] by {
            assert(circ(s, a, i) == circ(s, b, i));
        }
        assert(ra =~= rb);
        lemma_lex_lt_irreflexive(ra);
    } else {
        assert(beats(s, a, b, d));
        assert forall|x: int| 0 <= x < d implies ra[x] == rb[x] by {
            assert(circ(s, a, x) == circ(s, b, x));
        }
        lemma_lex_first_diff(ra, rb, d);
        lemma_lex_lt_irreflexive(ra);
        if lex_lt(rb, ra) {
            lemma_lex_lt_transitive(ra, rb, ra);
        }
    }
}

/// At the end of Booth's algorithm the candidate is the degree of the least mode, below the
/// length of the word.
proof fn lemma_booth_final(s: Seq<Letter>, f: Seq<usize>, k: int)
    requires
        s.len() > 0,
        booth_outer(s, f, k, 2 * s.len() as int),
    ensures
        k < s.len(),
        spec_rotate(s, k) == least_mode_of(s),
{
    let n = s.len() as int;
    if k >= n {
        // the degree a whole turn earlier reads the same letters, so it cannot fall behind
        assert(beaten(s, k, k - n, 2 * n));
        let d = choose|d: int| k + d < 2 * n && #[trigger] beats(s, k, k - n, d);
        assert(circ(s, k, d) == circ(s, k - n, d)) by {
            vstd::arithmetic::div_mod::lemma_mod_add_multiples_vanish(k - n + d, n);
            assert(k + d == n + (k - n + d));
        }
        assert(false);
    }
    let rk = spec_rotate(s, k);
    assert forall|b: int| 0 <= b < n implies !lex_lt(#[trigger] spec_rotate(s, b), rk) by {
        if b < k {
            assert(beaten(s, k, b, 2 * n));
            let d = choose|d: int| k + d < 2 * n && #[trigger] beats(s, k, b, d);
            assert(win_le(s, k, b, d + 1));
            if d + 1 < n {
                lemma_agree_prefix(s, k, b, d, d);
                lemma_rotate_circ(s, k);
                lemma_rotate_circ(s, b);
                assert forall|x: int| 0 <= x < d implies rk[x] == spec_rotate(s, b)[x] by {
                    assert(circ(s, k, x) == circ(s, b, x));
                }
                lemma_lex_first_diff(rk, spec_rotate(s, b), d);
                lemma_lex_lt_irreflexive(rk);
                if lex_lt(spec_rotate(s, b), rk) {
                    lemma_lex_lt_transitive(rk, spec_rotate(s, b), rk);
                }
            } else {
                lemma_rotation_not_below(s, k, b, d + 1);
            }
        } else if b == k {
            lemma_lex_lt_irreflexive(rk);
        } else {
            assert(win_le(s, k, b, 2 * n - b));
            lemma_rotation_not_below(s, k, b, 2 * n - b);
        }
    }
    assert(is_rotation_of(rk, s));
    assert(is_least_mode(rk, s));
    lemma_least_mode_of(s);
}

/// The rotation required from the current word to its lexicographically least mode,
/// by Booth's algorithm (at most `3 n` comparisons and `2 n` storage locations).
pub fn booth(scale: &[Letter]) -> (r: usize)
    requires
        4 * scale@.len() <= usize::MAX,
    ensures
        scale@.len() > 0 ==> r < scale@.len(),
        scale@.len() > 0 ==> spec_rotate(scale@, r as int) == least_mode_of(scale@),
        scale@.len() == 0 ==> r == 0,
{
    let scale_len = scale.len();
    if scale_len == 0 {
        return 0;
    }
    let ghost s = scale@;
    let mut failure_func: Vec<usize> = Vec::new();
    let mut x: usize = 0;
    while x < 2 * scale_len
        invariant
            x <= 2 * scale_len,
            4 * scale_len <= usize::MAX,
            failure_func@.len() == x,
            forall|y: int| 0 <= y < x ==> #[trigger] failure_func@[y] == usize::MAX,
        decreases 2 * scale_len - x,
    {
        failure_func.push(usize::MAX);
        x = x + 1;
    }
    let mut least_rotation: usize = 0;
    let mut scan_pos: usize = 1;
    proof {
        assert(is_fail(s, 0, 0, failure_func@[0]));
        assert(booth_outer(s, failure_func@, 0, 1));
    }
    while scan_pos < 2 * scale_len
        invariant
            1 <= scan_pos <= 2 * scale_len,
            scale_len == scale@.len(),
            s == scale@,
            scale_len > 0,
            4 * scale_len <= usize::MAX,
            failure_func@.len() == 2 * scale_len,
            least_rotation < scan_pos,
            forall|y: int| 0 <= y < 2 * scale_len ==> #[trigger] failure_func@[y] == usize::MAX || failure_func@[y] < y,
            booth_outer(s, failure_func@, least_rotation as int, scan_pos as int),
        decreases 2 * scale_len - scan_pos,
    {
        let mut match_len = failure_func[scan_pos - least_rotation - 1];
        let cur = scale[scan_pos % scale_len];
        proof {
            lemma_booth_inner_start(s, failure_func@, least_rotation as int, scan_pos as int);
            assert(cur == circ(s, scan_pos as int, 0));
        }
        loop
            invariant
                scale_len == scale@.len(),
                s == scale@,
                scale_len > 0,
                4 * scale_len <= usize::MAX,
                failure_func@.len() == 2 * scale_len,
                scan_pos < 2 * scale_len,
                least_rotation < scan_pos,
                match_len == usize::MAX || match_len + 1 < scan_pos - least_rotation,
                forall|y: int| 0 <= y < 2 * scale_len ==> #[trigger] failure_func@[y] == usize::MAX || failure_func@[y] < y,
                cur == circ(s, scan_pos as int, 0),
                booth_inner(s, failure_func@, least_rotation as int, scan_pos as int, match_len),
            ensures
                least_rotation < scan_pos,
                match_len == usize::MAX || match_len + 1 < scan_pos - least_rotation,
                booth_inner(s, failure_func@, least_rotation as int, scan_pos as int, match_len),
                match_len == usize::MAX || cur == circ(s, least_rotation as int, blen(match_len)),
            decreases if match_len == usize::MAX { 0 } else { match_len + 1 },
        {
            if match_len == usize::MAX {
                break;
            }
            let other = scale[(least_rotation + match_len + 1) % scale_len];
            proof {
                assert(other == circ(s, least_rotation as int, match_len + 1));
            }
            if cur == other {
                break;
            }
            if cur < other {
                proof {
                    lemma_booth_move(s, failure_func@, least_rotation as int, scan_pos as int, match_len);
                }
                least_rotation = scan_pos - match_len - 1;
            } else {
                proof {
                    lemma_booth_skip(s, failure_func@, least_rotation as int, scan_pos as int, match_len);
                }
            }
            match_len = failure_func[match_len];
        }
        let pos = if match_len == usize::MAX {
            least_rotation
        } else {
            least_rotation + match_len + 1
        };
        let other = scale[pos % scale_len];
        proof {
            assert(other == circ(s, least_rotation as int, blen(match_len)));
        }
        let ghost old_k = least_rotation as int;
        let ghost old_f = failure_func@;
        if match_len == usize::MAX && cur != other {
            if cur < other {
                least_rotation = scan_pos;
            }
            failure_func.set(scan_pos - least_rotation, usize::MAX);
            proof {
                if cur < other {
                    lemma_booth_new_start(s, old_f, old_k, scan_pos as int);
                } else {
                    lemma_booth_no_border(s, old_f, old_k, scan_pos as int);
                }
            }
        } else {
            let next = if match_len == usize::MAX {
                0
            } else {
                match_len + 1
            };
            failure_func.set(scan_pos - least_rotation, next);
            proof {
                lemma_booth_border(s, old_f, old_k, scan_pos as int, match_len, next);
            }
        }
        scan_pos = scan_pos + 1;
    }
    proof {
        lemma_booth_final(s, failure_func@, least_rotation as int);
    }
    least_rotation
}

/// `w` is the rotation of `s` by some number of places below `2 * s.len()`.
pub open spec fn is_rotation_of(w: Seq<Letter>, s: Seq<Letter>) -> bool {
    exists|b: int| 0 <= b < 2 * s.len() && w == #[trigger] spec_rotate(s, b)
}

/// `w` is a rotation of `s` that no rotation of `s` is lexicographically below.
pub open spec fn is_least_mode(w: Seq<Letter>, s: Seq<Letter>) -> bool {
    &&& is_rotation_of(w, s)
    &&& forall|b: int| 0 <= b < s.len() ==> !lex_lt(#[trigger] spec_rotate(s, b), w)
}

/// The first degree among `0, ..., m - 1` on which the least of those modes of `s` starts.
pub open spec fn least_rotation_upto(s: Seq<Letter>, m: nat) -> int
    decreases m,
{
    if m <= 1 {
        0
    } else {
        let i = least_rotation_upto(s, (m - 1) as nat);
        if lex_lt(spec_rotate(s, m - 1), spec_rotate(s, i)) {
            m - 1
        } else {
            i
        }
    }
}

/// The lexicographically least mode of a word.
#[verifier::opaque]
pub open spec fn least_mode_of(s: Seq<Letter>) -> Seq<Letter> {
    spec_rotate(s, least_rotation_upto(s, s.len()))
}

/// Rotating by `d` is rotating by `d` reduced modulo the length.
pub proof fn lemma_rotate_mod<A>(s: Seq<A>, d: int)
    requires
        s.len() > 0,
    ensures
        spec_rotate(s, d) == spec_rotate(s, d % (s.len() as int)),
{
    vstd::arithmetic::div_mod::lemma_mod_twice(d, s.len() as int);
}

proof fn lemma_least_rotation_upto(s: Seq<Letter>, m: nat)
    requires
        m >= 1,
    ensures
        0 <= least_rotation_upto(s, m) < m,
        forall|c: int| 0 <= c < m ==> !lex_lt(#[trigger] spec_rotate(s, c), spec_rotate(s, least_rotation_upto(s, m))),
    decreases m,
{
    if m > 1 {
        let i = least_rotation_upto(s, (m - 1) as nat);
        lemma_least_rotation_upto(s, (m - 1) as nat);
        let ri = spec_rotate(s, i);
        let rl = spec_rotate(s, m - 1);
        if lex_lt(rl, ri) {
            assert forall|c: int| 0 <= c < m implies !lex_lt(#[trigger] spec_rotate(s, c), rl) by {
                if c == m - 1 {
                    lemma_lex_lt_irreflexive(rl);
                } else if lex_lt(spec_rotate(s, c), rl) {
                    lemma_lex_lt_transitive(spec_rotate(s, c), rl, ri);
                }
            }
        }
    } else {
        lemma_lex_lt_irreflexive(spec_rotate(s, 0));
    }
}

/// A nonempty word has exactly one least mode, `least_mode_of`.
pub proof fn lemma_least_mode_of(s: Seq<Letter>)
    requires
        s.len() > 0,
    ensures
        is_least_mode(least_mode_of(s), s),
        forall|w: Seq<Letter>| #[trigger] is_least_mode(w, s) ==> w == least_mode_of(s),
{
    reveal(least_mode_of);
    let n = s.len() as int;
    let i = least_rotation_upto(s, s.len());
    lemma_least_rotation_upto(s, s.len());
    let l = least_mode_of(s);
    assert(l == spec_rotate(s, i));
    assert(is_rotation_of(l, s));
    assert forall|w: Seq<Letter>| #[trigger] is_least_mode(w, s) implies w == l by {
        let b = choose|b: int| 0 <= b < 2 * n && w == #[trigger] spec_rotate(s, b);
        lemma_rotate_mod(s, b);
        let b0 = b % n;
        assert(0 <= b0 < n);
        assert(!lex_lt(spec_rotate(s, b0), l));
        assert(!lex_lt(spec_rotate(s, i), w));
        lemma_lex_lt_total(w, l);
    }
}

/// The lexicographically least mode of a word (where the letters are in their usual order).
pub fn least_mode(scale: &[Letter]) -> (r: Vec<Letter>)
    requires
        scale@.len() > 0,
    ensures
        r@ == least_mode_of(scale@),
        is_least_mode(r@, scale@),
        is_rotation_of(r@, scale@),
        r@.len() == scale@.len(),
{
    broadcast use lemma_models_usize;

    let n = scale.len();
    let mut best = rotate(scale, 0);
    proof {
        lemma_models_usize(best@);
        lemma_models_usize(scale@);
    }
    let ghost mut bi: int = 0;
    let mut b: usize = 1;
    while b < n
        invariant
            1 <= b <= n,
            n == scale@.len(),
            bi == least_rotation_upto(scale@, b as nat),
            best@ == spec_rotate(scale@, bi),
        decreases n - b,
    {
        let cand = rotate(scale, b);
        proof {
            lemma_models_usize(cand@);
            lemma_models_usize(scale@);
            assert(cand@ == spec_rotate(scale@, b as int));
            assert(least_rotation_upto(scale@, (b + 1) as nat) == if lex_lt(
                spec_rotate(scale@, b as int),
                spec_rotate(scale@, least_rotation_upto(scale@, b as nat)),
            ) {
                b as int
            } else {
                least_rotation_upto(scale@, b as nat)
            });
        }
        match compare_words(&cand, &best) {
            Trichotomy::Less => {
                best = cand;
                proof {
                    bi = b as int;
                }
            },
            _ => {},
        }
        b = b + 1;
    }
    proof {
        reveal(least_mode_of);
        lemma_least_mode_of(scale@);
        lemma_rotate_len(scale@, bi);
    }
    best
}

/// The chirality (handedness) of a scale, comparing it to its reversal.
#[derive(Copy, Clone, Debug, Hash, PartialEq, Eq)]
pub enum Chirality {
    /// The least mode of the word is greater than the least mode of its reversal.
    Left,
    /// The word equals its reversal as a circular word.
    Achiral,
    /// The least mode of the word is less than the least mode of its reversal.
    Right,
}

/// The word read backwards.
pub fn reversed(word: &[Letter]) -> (r: Vec<Letter>)
    ensures
        r@ == word@.reverse(),
{
    let n = word.len();
    let mut r: Vec<Letter> = Vec::new();
    let mut i: usize = 0;
    while i < n
        invariant
            i <= n,
            n == word@.len(),
            r@ == word@.reverse().subrange(0, i as int),
        decreases n - i,
    {
        r.push(word[n - 1 - i]);
        assert(r@ =~= word@.reverse().subrange(0, i + 1));
        i = i + 1;
    }
    assert(word@.reverse().subrange(0, n as int) =~= word@.reverse());
    r
}

/// The chirality that a comparison of a least mode of a word (`a`) with a least mode of
/// its reversal (`b`) assigns.
pub open spec fn chirality_of(a: Seq<Letter>, b: Seq<Letter>) -> Chirality {
    if lex_lt(a, b) {
        Chirality::Right
    } else if a == b {
        Chirality::Achiral
    } else {
        Chirality::Left
    }
}

/// The lexicographically determined chirality of a scale word:
/// the least mode of the word compared with the least mode of its reversal.
pub fn chirality(word: &[Letter]) -> (r: Chirality)
    requires
        word@.len() > 0,
    ensures
        r == chirality_of(least_mode_of(word@), least_mode_of(word@.reverse())),
{
    let least_mode_word = least_mode(word);
    let word_rev = reversed(word);
    let least_mode_word_rev = least_mode(&word_rev);
    match compare_words(&least_mode_word, &least_mode_word_rev) {
        Trichotomy::Less => Chirality::Right,
        Trichotomy::Equal => Chirality::Achiral,
        Trichotomy::Greater => Chirality::Left,
    }
}

/// Rotations of a rotation of `s` are rotations of `s`: rotating `s` by `k` and then by `c` is
/// rotating `s` by the remainder of `k + c`.
proof fn lemma_rotate_rotate_mod(s: Seq<Letter>, k: int, c: int)
    requires
        s.len() > 0,
        k >= 0,
        c >= 0,
    ensures
        spec_rotate(spec_rotate(s, k), c) == spec_rotate(s, (k + c) % (s.len() as int)),
        0 <= (k + c) % (s.len() as int) < s.len(),
{
    lemma_rotate_compose(s, k, c);
    lemma_rotate_mod(s, k + c);
}

/// Every mode of a word has the same least mode as the word.
pub proof fn lemma_least_mode_of_rotation(s: Seq<Letter>, t: Seq<Letter>, k: int)
    requires
        s.len() > 0,
        0 <= k < s.len(),
        t == spec_rotate(s, k),
    ensures
        least_mode_of(t) == least_mode_of(s),
{
    let n = s.len() as int;
    lemma_rotate_len(s, k);
    lemma_least_mode_of(s);
    lemma_least_mode_of(t);
    let l = least_mode_of(s);
    let i = choose|b: int| 0 <= b < 2 * n && l == #[trigger] spec_rotate(s, b);
    lemma_rotate_mod(s, i);
    let i0 = i % n;
    // l is the rotation of t by (i0 + n - k) mod n
    lemma_rotate_rotate_mod(s, k, i0 + n - k);
    vstd::arithmetic::div_mod::lemma_mod_add_multiples_vanish(i0, n);
    vstd::arithmetic::div_mod::lemma_small_mod(i0 as nat, n as nat);
    assert(k + (i0 + n - k) == i0 + n);
    let j = i0 + n - k;
    assert(spec_rotate(t, j) == l);
    assert(is_rotation_of(l, t));
    assert forall|c: int| 0 <= c < t.len() implies !lex_lt(#[trigger] spec_rotate(t, c), l) by {
        lemma_rotate_rotate_mod(s, k, c);
        let c0 = (k + c) % n;
        assert(!lex_lt(spec_rotate(s, c0), l));
    }
    assert(is_least_mode(l, t));
}

/// The least mode of a word is its own least mode.
pub proof fn lemma_least_mode_idempotent(w: Seq<Letter>)
    requires
        w.len() > 0,
    ensures
        least_mode_of(least_mode_of(w)) == least_mode_of(w),
{
    reveal(least_mode_of);
    lemma_least_rotation_upto(w, w.len());
    lemma_least_mode_of_rotation(w, least_mode_of(w), least_rotation_upto(w, w.len()));
}

/// A word is achiral exactly when it equals its reversal as a circular word,
/// that is, when it is a rotation of its reversal.
pub proof fn lemma_achiral_iff_rotation_of_reversal(w: Seq<Letter>)
    requires
        w.len() > 0,
    ensures
        (chirality_of(least_mode_of(w), least_mode_of(w.reverse())) == Chirality::Achiral) <==> (exists|k: int|
            0 <= k < w.len() && #[trigger] spec_rotate(w.reverse(), k) == w),
{
    let n = w.len() as int;
    let v = w.reverse();
    assert(v.len() == n);
    lemma_least_mode_of(w);
    lemma_least_mode_of(v);
    let a = least_mode_of(w);
    let b = least_mode_of(v);
    lemma_lex_lt_irreflexive(a);
    if exists|k: int| 0 <= k < n && #[trigger] spec_rotate(v, k) == w {
        let k = choose|k: int| 0 <= k < n && #[trigger] spec_rotate(v, k) == w;
        lemma_least_mode_of_rotation(v, w, k);
        assert(a == b);
    }
    if a == b {
        let i = choose|x: int| 0 <= x < 2 * n && a == #[trigger] spec_rotate(w, x);
        let j = choose|x: int| 0 <= x < 2 * n && b == #[trigger] spec_rotate(v, x);
        lemma_rotate_mod(w, i);
        lemma_rotate_mod(v, j);
        let i0 = i % n;
        let j0 = j % n;
        // w is the rotation of a by n - i0, and a is the rotation of v by j0
        lemma_rotate_compose(w, i0, n - i0);
        lemma_rotate_full(w);
        assert(i0 + (n - i0) == n);
        lemma_rotate_rotate_mod(v, j0, n - i0);
        let k = (j0 + (n - i0)) % n;
        assert(spec_rotate(v, k) == w);
        assert(0 <= k < n);
    }
}

/// Reversing a word swaps left and right handedness and keeps achirality.
pub proof fn lemma_chirality_of_reversal(w: Seq<Letter>)
    requires
        w.len() > 0,
    ensures
        ({
            let c = chirality_of(least_mode_of(w), least_mode_of(w.reverse()));
            let d = chirality_of(least_mode_of(w.reverse()), least_mode_of(w.reverse().reverse()));
            &&& c == Chirality::Left <==> d == Chirality::Right
            &&& c == Chirality::Right <==> d == Chirality::Left
            &&& c == Chirality::Achiral <==> d == Chirality::Achiral
        }),
{
    assert(w.reverse().reverse() =~= w);
    let a = least_mode_of(w);
    let b = least_mode_of(w.reverse());
    lemma_lex_lt_irreflexive(a);
    if lex_lt(a, b) && lex_lt(b, a) {
        lemma_lex_lt_transitive(a, b, a);
    }
    lemma_lex_lt_total(a, b);
}

} // verus!
