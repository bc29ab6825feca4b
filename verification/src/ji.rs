//! Just intonation scales: step and cumulative forms, modes, spectra, harmonic modes,
//! constant structures and generator-sequence scales.
//!
//! A scale in cumulative form lists its notes as ratios from the tonic, ending with the equave;
//! in step form it lists the ratios between consecutive notes.

use vstd::prelude::*;

use crate::helpers::{gcd, spec_gcd, ScaleError};
use crate::matrix::{covector_times_matrix, det3_spec, lemma_solve3, solve3, triple, unimodular_inv, Triple};
use crate::monzo::Monzo;
use crate::ji_ratio::{
    lemma_ratio_eq, lemma_reduce, lemma_reduce_wf, ratio_wf, fits_u32, ratio_div, ratio_mul, ratio_views, rd_fits, rd_of, reduce, RawJiRatio,
};
use crate::words::{
    lemma_push_contains, count_entries, models, rotate, sort_dedup, spec_rotate, strictly_increasing, symbol_eq, CountVector,
};

verus! {

/// The octave 2/1.
pub open spec fn octave_ratio() -> (nat, nat) {
    (2nat, 1nat)
}

/// The quotient `a / b` needs no more than `u32` before it is reduced.
pub open spec fn div_fits(a: (nat, nat), b: (nat, nat)) -> bool {
    a.0 * b.1 <= u32::MAX && a.1 * b.0 <= u32::MAX
}

/// The product `a * b` needs no more than `u32` before it is reduced.
pub open spec fn mul_fits(a: (nat, nat), b: (nat, nat)) -> bool {
    a.0 * b.0 <= u32::MAX && a.1 * b.1 <= u32::MAX
}

// ---------------------------------------------------------------------------
// Step form and cumulative form
// ---------------------------------------------------------------------------

/// The step form of a scale in cumulative form: its first note, then the ratio of each note
/// to the one before.
pub open spec fn step_form_spec(c: Seq<(nat, nat)>) -> Seq<(nat, nat)> {
    Seq::new(c.len(), |i: int| if i == 0 { c[0] } else { ratio_div(c[i], c[i - 1]) })
}

/// Every quotient of consecutive notes fits.
pub open spec fn step_form_fits(c: Seq<(nat, nat)>) -> bool {
    forall|i: int| 0 < i < c.len() ==> div_fits(#[trigger] c[i], c[i - 1])
}

/// The product of the first `k` steps.
pub open spec fn running_product(s: Seq<(nat, nat)>, k: int) -> (nat, nat)
    decreases k,
{
    if k <= 0 {
        (1nat, 1nat)
    } else {
        ratio_mul(running_product(s, k - 1), s[k - 1])
    }
}

/// The cumulative form of a scale in step form: the products of its first steps.
pub open spec fn cumulative_spec(s: Seq<(nat, nat)>) -> Seq<(nat, nat)> {
    Seq::new(s.len(), |i: int| running_product(s, i + 1))
}

/// Every product on the way fits.
pub open spec fn cumulative_fits(s: Seq<(nat, nat)>) -> bool {
    forall|i: int| 0 <= i < s.len() ==> mul_fits(#[trigger] running_product(s, i), s[i])
}

/// Converts a scale in cumulative form to step form.
pub fn step_form(cumul_form: &[RawJiRatio]) -> (r: Vec<RawJiRatio>)
    requires
        cumul_form@.len() >= 1,
        step_form_fits(ratio_views(cumul_form@)),
    ensures
        ratio_views(r@) == step_form_spec(ratio_views(cumul_form@)),
{
    let ghost c = ratio_views(cumul_form@);
    let mut r: Vec<RawJiRatio> = Vec::new();
    r.push(cumul_form[0]);
    let mut i: usize = 1;
    while i < cumul_form.len()
        invariant
            1 <= i <= cumul_form@.len(),
            c == ratio_views(cumul_form@),
            step_form_fits(c),
            r@.len() == i,
            forall|j: int| 0 <= j < i ==> #[trigger] r@[j]@ == step_form_spec(c)[j],
        decreases cumul_form@.len() - i,
    {
        assert(div_fits(c[i as int], c[i - 1]));
        let q = cumul_form[i].div(cumul_form[i - 1]);
        r.push(q);
        i = i + 1;
    }
    assert(ratio_views(r@) =~= step_form_spec(c));
    r
}

/// Converts a scale in step form to cumulative form.
pub fn cumulative_form(step_form: &[RawJiRatio]) -> (r: Vec<RawJiRatio>)
    requires
        cumulative_fits(ratio_views(step_form@)),
    ensures
        ratio_views(r@) == cumulative_spec(ratio_views(step_form@)),
{
    let ghost s = ratio_views(step_form@);
    let mut r: Vec<RawJiRatio> = Vec::new();
    let mut acc = RawJiRatio::unison();
    let mut i: usize = 0;
    while i < step_form.len()
        invariant
            i <= step_form@.len(),
            s == ratio_views(step_form@),
            cumulative_fits(s),
            acc@ == running_product(s, i as int),
            r@.len() == i,
            forall|j: int| 0 <= j < i ==> #[trigger] r@[j]@ == cumulative_spec(s)[j],
        decreases step_form@.len() - i,
    {
        assert(mul_fits(running_product(s, i as int), s[i as int]));
        acc.mul_assign(step_form[i]);
        r.push(acc);
        i = i + 1;
    }
    assert(ratio_views(r@) =~= cumulative_spec(s));
    r
}

/// The mode of a scale in cumulative form on the given degree: its steps rotated, then
/// stacked again.
pub open spec fn mode_spec(scale: Seq<(nat, nat)>, degree: int) -> Seq<(nat, nat)> {
    cumulative_spec(spec_rotate(step_form_spec(scale), degree))
}

/// The mode of a scale can be computed without overflow.
pub open spec fn mode_fits(scale: Seq<(nat, nat)>, degree: int) -> bool {
    &&& scale.len() >= 1
    &&& step_form_fits(scale)
    &&& cumulative_fits(spec_rotate(step_form_spec(scale), degree))
}

/// The mode of a scale in cumulative form on the given degree, in cumulative form.
pub fn mode(scale: &[RawJiRatio], degree: usize) -> (r: Vec<RawJiRatio>)
    requires
        mode_fits(ratio_views(scale@), degree as int),
    ensures
        ratio_views(r@) == mode_spec(ratio_views(scale@), degree as int),
{
    let steps = step_form(scale);
    assert(models(steps@) =~= ratio_views(steps@));
    let rotated = rotate(steps.as_slice(), degree);
    assert(models(rotated@) =~= ratio_views(rotated@));
    cumulative_form(rotated.as_slice())
}

/// All modes of a scale in cumulative form, each in cumulative form.
pub fn ji_scale_modes(scale: &[RawJiRatio]) -> (r: Vec<Vec<RawJiRatio>>)
    requires
        forall|d: int| 0 <= d < scale@.len() ==> #[trigger] mode_fits(ratio_views(scale@), d),
    ensures
        r@.len() == scale@.len(),
        forall|d: int| 0 <= d < scale@.len() ==> ratio_views(#[trigger] r@[d]@) == mode_spec(ratio_views(scale@), d),
{
    let mut r: Vec<Vec<RawJiRatio>> = Vec::new();
    let mut d: usize = 0;
    while d < scale.len()
        invariant
            d <= scale@.len(),
            forall|e: int| 0 <= e < scale@.len() ==> #[trigger] mode_fits(ratio_views(scale@), e),
            r@.len() == d,
            forall|e: int| 0 <= e < d ==> ratio_views(#[trigger] r@[e]@) == mode_spec(ratio_views(scale@), e),
        decreases scale@.len() - d,
    {
        assert(mode_fits(ratio_views(scale@), d as int));
        let m = mode(scale, d);
        r.push(m);
        d = d + 1;
    }
    r
}

// ---------------------------------------------------------------------------
// Harmonic series modes
// ---------------------------------------------------------------------------

/// The harmonic series mode `mode_num`: the ratios `(mode_num + 1)/mode_num`, ...,
/// `(2 mode_num)/mode_num`, ending with the octave. Mode 0 is refused.
pub fn harmonic_mode(mode_num: u32) -> (r: Result<Vec<RawJiRatio>, ScaleError>)
    requires
        mode_num <= u32::MAX / 2,
    ensures
        match r {
            Ok(v) => mode_num >= 1 && ratio_views(v@) == Seq::new(
                mode_num as nat,
                |i: int| reduce((mode_num + 1 + i) as nat, mode_num as nat),
            ),
            Err(e) => mode_num == 0 && e == ScaleError::CannotMakeScale,
        },
{
    if mode_num < 1 {
        return Err(ScaleError::CannotMakeScale);
    }
    harmonic_run(mode_num, mode_num)
}

/// The harmonic series mode `mode_num` without its octave: the ratios `(mode_num + 1)/mode_num`,
/// ..., `(2 mode_num - 1)/mode_num`. Mode 0 is refused.
pub fn harmonic_mode_no_oct(mode_num: u32) -> (r: Result<Vec<RawJiRatio>, ScaleError>)
    requires
        mode_num <= u32::MAX / 2,
    ensures
        match r {
            Ok(v) => mode_num >= 1 && ratio_views(v@) == Seq::new(
                (mode_num - 1) as nat,
                |i: int| reduce((mode_num + 1 + i) as nat, mode_num as nat),
            ),
            Err(e) => mode_num == 0 && e == ScaleError::CannotMakeScale,
        },
{
    if mode_num < 1 {
        return Err(ScaleError::CannotMakeScale);
    }
    harmonic_run(mode_num, mode_num - 1)
}

/// The `count` ratios `(mode_num + 1)/mode_num`, `(mode_num + 2)/mode_num`, ...
fn harmonic_run(mode_num: u32, count: u32) -> (r: Result<Vec<RawJiRatio>, ScaleError>)
    requires
        1 <= mode_num <= u32::MAX / 2,
        count <= mode_num,
    ensures
        r matches Ok(v) && ratio_views(v@) == Seq::new(
            count as nat,
            |i: int| reduce((mode_num + 1 + i) as nat, mode_num as nat),
        ),
{
    let mut v: Vec<RawJiRatio> = Vec::new();
    let mut i: u32 = 0;
    while i < count
        invariant
            i <= count <= mode_num <= u32::MAX / 2,
            mode_num >= 1,
            v@.len() == i,
            forall|j: int| 0 <= j < i ==> #[trigger] v@[j]@ == reduce((mode_num + 1 + j) as nat, mode_num as nat),
        decreases count - i,
    {
        match RawJiRatio::try_new(mode_num + 1 + i, mode_num) {
            Ok(x) => v.push(x),
            Err(_) => {
                return Err(ScaleError::CannotMakeScale);
            },
        }
        i = i + 1;
    }
    assert(ratio_views(v@) =~= Seq::new(
        count as nat,
        |i: int| reduce((mode_num + 1 + i) as nat, mode_num as nat),
    ));
    Ok(v)
}

// ---------------------------------------------------------------------------
// Spectra
// ---------------------------------------------------------------------------

/// The `k`-step intervals of a scale in cumulative form, one on each degree, octave-reduced.
pub open spec fn spectrum_intervals(scale: Seq<(nat, nat)>, k: int) -> Seq<(nat, nat)> {
    Seq::new(
        scale.len(),
        |d: int| rd_of(ratio_div(scale[(d + k) % (scale.len() as int)], scale[d]), octave_ratio()),
    )
}

/// The `k`-step intervals of a scale can be computed without overflow.
pub open spec fn spectrum_fits(scale: Seq<(nat, nat)>, k: int) -> bool {
    forall|d: int| 0 <= d < scale.len() ==> {
        &&& div_fits(#[trigger] scale[(d + k) % (scale.len() as int)], scale[d])
        &&& rd_fits(ratio_div(scale[(d + k) % (scale.len() as int)], scale[d]), octave_ratio())
    }
}

/// How often each `subword_length`-step interval occurs in a scale in cumulative form,
/// octave-reduced.
pub fn spectrum(scale: &[RawJiRatio], subword_length: usize) -> (r: CountVector<RawJiRatio>)
    requires
        scale@.len() <= i32::MAX,
        scale@.len() + subword_length <= usize::MAX,
        spectrum_fits(ratio_views(scale@), subword_length as int),
    ensures
        r@ == count_entries::<RawJiRatio>(spectrum_intervals(ratio_views(scale@), subword_length as int)),
{
    let ghost c = ratio_views(scale@);
    let n = scale.len();
    let octave = RawJiRatio::octave();
    let mut intervals: Vec<RawJiRatio> = Vec::new();
    let mut d: usize = 0;
    while d < n
        invariant
            d <= n,
            n == scale@.len(),
            n + subword_length <= usize::MAX,
            c == ratio_views(scale@),
            octave@ == octave_ratio(),
            spectrum_fits(c, subword_length as int),
            intervals@.len() == d,
            forall|j: int| 0 <= j < d ==> #[trigger] intervals@[j]@ == spectrum_intervals(c, subword_length as int)[j],
        decreases n - d,
    {
        let e = (d + subword_length) % n;
        assert(div_fits(c[(d + subword_length) % (c.len() as int)], c[d as int]));
        let q = scale[e].div(scale[d]);
        let x = q.rd(octave);
        intervals.push(x);
        d = d + 1;
    }
    assert(models(intervals@) =~= spectrum_intervals(c, subword_length as int));
    CountVector::from_slice(intervals.as_slice())
}

// ---------------------------------------------------------------------------
// Constant structures
// ---------------------------------------------------------------------------

/// The `i`-step interval on degree `j` of a scale in cumulative form whose last note is the
/// equave: notes past the end are raised by the equave.
pub open spec fn class_interval(a: Seq<(nat, nat)>, i: int, j: int) -> (nat, nat) {
    let n = a.len() as int;
    if i + j >= n {
        ratio_div(ratio_mul(a[(i + j) % n], a[n - 1]), a[j])
    } else {
        ratio_div(a[i + j], a[j])
    }
}

/// The `i`-step interval on degree `j` can be computed without overflow.
pub open spec fn class_fits(a: Seq<(nat, nat)>, i: int, j: int) -> bool {
    let n = a.len() as int;
    if i + j >= n {
        mul_fits(a[(i + j) % n], a[n - 1]) && div_fits(ratio_mul(a[(i + j) % n], a[n - 1]), a[j])
    } else {
        div_fits(a[i + j], a[j])
    }
}

/// Every interval of every class can be computed without overflow.
pub open spec fn cs_fits(a: Seq<(nat, nat)>) -> bool {
    forall|i: int, j: int| 1 <= i < a.len() && 0 <= j < a.len() ==> #[trigger] class_fits(a, i, j)
}

/// No interval of an `i1`-step class with `i1 <= n/2` occurs in a class of more steps.
pub open spec fn is_cs_spec(a: Seq<(nat, nat)>) -> bool {
    forall|i1: int, i2: int, j1: int, j2: int|
        1 <= i1 <= a.len() / 2 && i1 < i2 < a.len() && 0 <= j1 < a.len() && 0 <= j2 < a.len()
            ==> #[trigger] class_interval(a, i1, j1) != #[trigger] class_interval(a, i2, j2)
}

/// The intervals of the `i`-step class, one on each degree.
fn interval_class(arr: &[RawJiRatio], i: usize) -> (r: Vec<RawJiRatio>)
    requires
        1 <= i < arr@.len(),
        cs_fits(ratio_views(arr@)),
    ensures
        r@.len() == arr@.len(),
        forall|j: int| 0 <= j < arr@.len() ==> #[trigger] r@[j]@ == class_interval(ratio_views(arr@), i as int, j),
{
    let ghost a = ratio_views(arr@);
    let n = arr.len();
    let mut r: Vec<RawJiRatio> = Vec::new();
    let mut j: usize = 0;
    while j < n
        invariant
            1 <= i < n,
            j <= n,
            n == arr@.len(),
            a == ratio_views(arr@),
            cs_fits(a),
            r@.len() == j,
            forall|k: int| 0 <= k < j ==> #[trigger] r@[k]@ == class_interval(a, i as int, k),
        decreases n - j,
    {
        assert(class_fits(a, i as int, j as int));
        let x = if i >= n - j {
            let equave = arr[n - 1];
            assert((i + j) % (n as int) == i - (n - j)) by {
                vstd::arithmetic::div_mod::lemma_mod_add_multiples_vanish(i - (n - j), n as int);
                vstd::arithmetic::div_mod::lemma_small_mod((i - (n - j)) as nat, n as nat);
            }
            arr[i - (n - j)].mul(equave).div(arr[j])
        } else {
            arr[i + j].div(arr[j])
        };
        r.push(x);
        j = j + 1;
    }
    r
}

/// Whether no ratio of `x` occurs in `y`.
fn disjoint(x: &Vec<RawJiRatio>, y: &Vec<RawJiRatio>) -> (r: bool)
    ensures
        r == forall|j1: int, j2: int| 0 <= j1 < x@.len() && 0 <= j2 < y@.len() ==> #[trigger] x@[j1]@ != #[trigger] y@[j2]@,
{
    let mut j1: usize = 0;
    while j1 < x.len()
        invariant
            j1 <= x@.len(),
            forall|a: int, b: int| 0 <= a < j1 && 0 <= b < y@.len() ==> #[trigger] x@[a]@ != #[trigger] y@[b]@,
        decreases x@.len() - j1,
    {
        let mut j2: usize = 0;
        while j2 < y.len()
            invariant
                j1 < x@.len(),
                j2 <= y@.len(),
                forall|a: int, b: int| 0 <= a < j1 && 0 <= b < y@.len() ==> #[trigger] x@[a]@ != #[trigger] y@[b]@,
                forall|b: int| 0 <= b < j2 ==> x@[j1 as int]@ != #[trigger] y@[b]@,
            decreases y@.len() - j2,
        {
            if symbol_eq(&x[j1], &y[j2]) {
                return false;
            }
            j2 = j2 + 1;
        }
        j1 = j1 + 1;
    }
    true
}

/// Whether a periodic scale in cumulative form (its last note the equave) is a constant
/// structure: no interval of a class of at most half the scale size occurs in a class of more
/// steps.
pub fn is_cs_ji_scale(arr: &[RawJiRatio]) -> (r: bool)
    requires
        arr@.len() >= 1,
        cs_fits(ratio_views(arr@)),
    ensures
        r == is_cs_spec(ratio_views(arr@)),
        r <==> forall|i1: int, i2: int, j1: int, j2: int|
            1 <= i1 < i2 < arr@.len() && 0 <= j1 < arr@.len() && 0 <= j2 < arr@.len()
                ==> #[trigger] class_interval(ratio_views(arr@), i1, j1) != #[trigger] class_interval(ratio_views(arr@), i2, j2),
{
    let r = cs_search(arr);
    let mut k: usize = 0;
    while k < arr.len()
        invariant
            k <= arr@.len(),
            forall|m: int| 0 <= m < k ==> ratio_wf(#[trigger] ratio_views(arr@)[m]),
        decreases arr@.len() - k,
    {
        let x = arr[k];
        proof {
            use_type_invariant(&x);
        }
        k = k + 1;
    }
    proof {
        lemma_cs_law(ratio_views(arr@));
    }
    r
}

/// The search behind `is_cs_ji_scale`: each class of at most half the scale size against every
/// class of more steps.
fn cs_search(arr: &[RawJiRatio]) -> (r: bool)
    requires
        arr@.len() >= 1,
        cs_fits(ratio_views(arr@)),
    ensures
        r == is_cs_spec(ratio_views(arr@)),
{
    let ghost a = ratio_views(arr@);
    let n = arr.len();
    let mut i1: usize = 1;
    while i1 <= n / 2
        invariant
            n == arr@.len(),
            n >= 1,
            1 <= i1 <= n / 2 + 1,
            a == ratio_views(arr@),
            cs_fits(a),
            forall|k1: int, k2: int, j1: int, j2: int|
                1 <= k1 < i1 && k1 < k2 < n && 0 <= j1 < n && 0 <= j2 < n
                    ==> #[trigger] class_interval(a, k1, j1) != #[trigger] class_interval(a, k2, j2),
        decreases n / 2 + 1 - i1,
    {
        let c1 = interval_class(arr, i1);
        let mut i2: usize = i1 + 1;
        while i2 < n
            invariant
                n == arr@.len(),
                1 <= i1 <= n / 2,
                i1 + 1 <= i2 <= n,
                a == ratio_views(arr@),
                cs_fits(a),
                c1@.len() == n,
                forall|j: int| 0 <= j < n ==> #[trigger] c1@[j]@ == class_interval(a, i1 as int, j),
                forall|k1: int, k2: int, j1: int, j2: int|
                    1 <= k1 < i1 && k1 < k2 < n && 0 <= j1 < n && 0 <= j2 < n
                        ==> #[trigger] class_interval(a, k1, j1) != #[trigger] class_interval(a, k2, j2),
                forall|k2: int, j1: int, j2: int|
                    i1 < k2 < i2 && 0 <= j1 < n && 0 <= j2 < n
                        ==> #[trigger] class_interval(a, i1 as int, j1) != #[trigger] class_interval(a, k2, j2),
            decreases n - i2,
        {
            let c2 = interval_class(arr, i2);
            if !disjoint(&c1, &c2) {
                proof {
                    let (j1, j2) = choose|j1: int, j2: int| 0 <= j1 < c1@.len() && 0 <= j2 < c2@.len() && c1@[j1]@ == c2@[j2]@;
                    assert(class_interval(a, i1 as int, j1) == class_interval(a, i2 as int, j2));
                }
                return false;
            }
            proof {
                assert forall|k2: int, j1: int, j2: int|
                    i1 < k2 < i2 + 1 && 0 <= j1 < n && 0 <= j2 < n
                        implies #[trigger] class_interval(a, i1 as int, j1) != #[trigger] class_interval(a, k2, j2) by {
                    if k2 == i2 {
                        assert(c1@[j1]@ != c2@[j2]@);
                    }
                }
            }
            i2 = i2 + 1;
        }
        i1 = i1 + 1;
    }
    true
}

// ---------------------------------------------------------------------------
// Generator sequences
// ---------------------------------------------------------------------------

/// The note reached after stacking the first `k` generators of the cycle `gs`, each stack
/// reduced modulo the equave `e`.
pub open spec fn gs_acc(gs: Seq<(nat, nat)>, e: (nat, nat), k: nat) -> (nat, nat)
    decreases k,
{
    if k == 0 {
        (1nat, 1nat)
    } else {
        rd_of(ratio_mul(gs_acc(gs, e, (k - 1) as nat), gs[(k - 1) as int % (gs.len() as int)]), e)
    }
}

/// Every stack of a generator on the way can be computed without overflow.
pub open spec fn gs_fits(gs: Seq<(nat, nat)>, e: (nat, nat), n: nat) -> bool {
    forall|k: nat| k + 1 < n ==> {
        &&& mul_fits(#[trigger] gs_acc(gs, e, k), gs[(k as int) % (gs.len() as int)])
        &&& rd_fits(ratio_mul(gs_acc(gs, e, k), gs[(k as int) % (gs.len() as int)]), e)
    }
}

/// The notes of the generator-sequence scale before sorting: the `n - 1` stacks, then the equave.
pub open spec fn gs_notes(gs: Seq<(nat, nat)>, e: (nat, nat), n: nat) -> Seq<(nat, nat)> {
    Seq::new((n - 1) as nat, |k: int| gs_acc(gs, e, (k + 1) as nat)).push(e)
}

/// The equave taken upward.
pub open spec fn magnitude_of(e: (nat, nat)) -> (nat, nat) {
    if e.0 < e.1 {
        (e.1, e.0)
    } else {
        e
    }
}

/// The `n`-note scale made by stacking the generators of `gs` in turn, `n - 1` times, each
/// stack reduced modulo the equave (taken upward), together with the equave; sorted, without
/// repeated notes. An empty `gs`, `n == 0` or the unison as equave are refused.
pub fn gs_scale(gs: &[RawJiRatio], n: usize, equave: RawJiRatio) -> (r: Result<Vec<RawJiRatio>, ScaleError>)
    requires
        gs@.len() > 0 && n > 0 && equave@ != (1nat, 1nat) ==> gs_fits(ratio_views(gs@), magnitude_of(equave@), n as nat),
    ensures
        match r {
            Ok(v) => gs@.len() > 0 && n > 0 && equave@ != (1nat, 1nat)
                && strictly_increasing::<RawJiRatio>(ratio_views(v@))
                && forall|x: (nat, nat)| ratio_views(v@).contains(x)
                    <==> gs_notes(ratio_views(gs@), magnitude_of(equave@), n as nat).contains(x),
            Err(e) => (gs@.len() == 0 || n == 0 || equave@ == (1nat, 1nat)) && e == ScaleError::CannotMakeScale,
        },
{
    if gs.len() == 0 || n == 0 || (equave.numer() == 1 && equave.denom() == 1) {
        return Err(ScaleError::CannotMakeScale);
    }
    let ghost g = ratio_views(gs@);
    let e = equave.magnitude();
    let ghost ev = magnitude_of(equave@);
    assert(e@ == ev);
    let mut result: Vec<RawJiRatio> = Vec::new();
    let mut acc = RawJiRatio::unison();
    let mut k: usize = 0;
    while k < n - 1
        invariant
            gs@.len() > 0,
            n > 0,
            k <= n - 1,
            g == ratio_views(gs@),
            e@ == ev,
            ev != (1nat, 1nat),
            gs_fits(g, ev, n as nat),
            acc@ == gs_acc(g, ev, k as nat),
            result@.len() == k,
            forall|j: int| 0 <= j < k ==> #[trigger] result@[j]@ == gs_acc(g, ev, (j + 1) as nat),
        decreases n - 1 - k,
    {
        assert(mul_fits(gs_acc(g, ev, k as nat), g[(k as int) % (g.len() as int)]));
        let prod = acc.mul(gs[k % gs.len()]);
        acc = prod.rd(e);
        result.push(acc);
        k = k + 1;
    }
    result.push(e);
    assert(models(result@) =~= gs_notes(g, ev, n as nat));
    let sorted = sort_dedup(&result);
    assert(models(sorted@) =~= ratio_views(sorted@));
    Ok(sorted)
}

// ---------------------------------------------------------------------------
// Generator necklaces
// ---------------------------------------------------------------------------

/// Calls `num_integer::gcd` on two non-negative `i32`: their greatest common divisor, which the
/// crate computes by Stein's binary algorithm, with `gcd(a, 0) == a`. The contract claims that the
/// result is that divisor; on non-negative arguments the crate's code neither panics nor overflows.
#[verifier::external_body]
fn integer_gcd(a: i32, b: i32) -> (r: i32)
    requires
        a >= 0,
        b >= 0,
    ensures
        r == spec_gcd(a as nat, b as nat),
{
    num_integer::gcd(a, b)
}

/// The `k`th stacked `g`-step of a scale in cumulative form, octave-reduced.
pub open spec fn necklace_spec(scale: Seq<(nat, nat)>, g: int) -> Seq<(nat, nat)> {
    let n = scale.len() as int;
    Seq::new(
        scale.len(),
        |k: int| rd_of(ratio_div(scale[(g * (k + 1)) % n], scale[(g * k) % n]), octave_ratio()),
    )
}

/// Every stacked step of the necklace can be computed without overflow.
pub open spec fn necklace_fits(scale: Seq<(nat, nat)>, g: int) -> bool {
    let n = scale.len() as int;
    forall|k: int| 0 <= k < n ==> {
        &&& div_fits(#[trigger] scale[(g * (k + 1)) % n], scale[(g * k) % n])
        &&& rd_fits(ratio_div(scale[(g * (k + 1)) % n], scale[(g * k) % n]), octave_ratio())
    }
}

/// The necklace of `gener_class`-steps of a scale in cumulative form: the `gener_class`-step on
/// degree `gener_class * k` for each `k`, octave-reduced. A step class not coprime to the scale
/// size is refused.
pub fn well_formed_necklace_in_ji_scale(scale: &[RawJiRatio], gener_class: usize) -> (r: Result<Vec<RawJiRatio>, ScaleError>)
    requires
        scale@.len() <= i32::MAX,
        gener_class <= i32::MAX,
        gener_class * scale@.len() <= usize::MAX,
        necklace_fits(ratio_views(scale@), gener_class as int),
    ensures
        match r {
            Ok(v) => spec_gcd(scale@.len(), gener_class as nat) == 1
                && ratio_views(v@) == necklace_spec(ratio_views(scale@), gener_class as int),
            Err(e) => spec_gcd(scale@.len(), gener_class as nat) != 1 && e == ScaleError::NonCoprimeGenError,
        },
{
    let n = scale.len();
    if integer_gcd(n as i32, gener_class as i32) != 1 {
        return Err(ScaleError::NonCoprimeGenError);
    }
    let ghost c = ratio_views(scale@);
    let octave = RawJiRatio::octave();
    let mut v: Vec<RawJiRatio> = Vec::new();
    let mut k: usize = 0;
    while k < n
        invariant
            k <= n,
            n == scale@.len(),
            gener_class * n <= usize::MAX,
            c == ratio_views(scale@),
            octave@ == octave_ratio(),
            necklace_fits(c, gener_class as int),
            v@.len() == k,
            forall|j: int| 0 <= j < k ==> #[trigger] v@[j]@ == necklace_spec(c, gener_class as int)[j],
        decreases n - k,
    {
        assert(gener_class * (k + 1) <= gener_class * n) by (nonlinear_arith)
            requires
                k + 1 <= n,
        ;
        assert(gener_class * k <= gener_class * (k + 1)) by (nonlinear_arith);
        let hi = (gener_class * (k + 1)) % n;
        let lo = (gener_class * k) % n;
        assert(div_fits(c[(gener_class * (k + 1)) % (c.len() as int)], c[(gener_class * k) % (c.len() as int)]));
        let q = scale[hi].div(scale[lo]);
        v.push(q.rd(octave));
        k = k + 1;
    }
    assert(ratio_views(v@) =~= necklace_spec(c, gener_class as int));
    Ok(v)
}

// ---------------------------------------------------------------------------
// Odd limits
// ---------------------------------------------------------------------------

/// The ratio `s[t / len] / s[t % len]` of the `t`th pair of `s`, octave-reduced.
pub open spec fn pair_ratio(s: Seq<nat>, t: int) -> (nat, nat) {
    rd_of(reduce(s[t / (s.len() as int)], s[t % (s.len() as int)]), octave_ratio())
}

/// The octave-reduced ratios of all ordered pairs of `s`, the first element varying slowest.
pub open spec fn pair_ratios(s: Seq<nat>) -> Seq<(nat, nat)> {
    Seq::new(s.len() * s.len(), |t: int| pair_ratio(s, t))
}

/// Every pair ratio of `s` can be reduced without overflow.
pub open spec fn pairs_fit(s: Seq<nat>) -> bool {
    forall|a: int, b: int| 0 <= a < s.len() && 0 <= b < s.len() ==> #[trigger] rd_fits(reduce(s[a], s[b]), octave_ratio())
}

/// The octave-reduced ratios of all ordered pairs of `s`, in that order.
fn all_pair_ratios(s: &Vec<u32>) -> (r: Vec<RawJiRatio>)
    requires
        s@.len() * s@.len() <= usize::MAX,
        forall|i: int| 0 <= i < s@.len() ==> s@[i] > 0,
        pairs_fit(s@.map_values(|x: u32| x as nat)),
    ensures
        ratio_views(r@) == pair_ratios(s@.map_values(|x: u32| x as nat)),
{
    let ghost sn = s@.map_values(|x: u32| x as nat);
    let m = s.len();
    let total = m * m;
    let octave = RawJiRatio::octave();
    let mut r: Vec<RawJiRatio> = Vec::new();
    let mut t: usize = 0;
    while t < total
        invariant
            m == s@.len(),
            total == m * m,
            t <= total,
            sn == s@.map_values(|x: u32| x as nat),
            forall|i: int| 0 <= i < m ==> s@[i] > 0,
            pairs_fit(sn),
            octave@ == octave_ratio(),
            r@.len() == t,
            forall|j: int| 0 <= j < t ==> #[trigger] r@[j]@ == pair_ratio(sn, j),
        decreases total - t,
    {
        proof {
            vstd::arithmetic::div_mod::lemma_div_pos_is_pos(t as int, m as int);
            vstd::arithmetic::div_mod::lemma_fundamental_div_mod(t as int, m as int);
            let q = t as int / m as int;
            let rr = t as int % m as int;
            assert(q < m) by (nonlinear_arith)
                requires
                    t == m * q + rr,
                    rr >= 0,
                    t < m * m,
                    m > 0,
            ;
        }
        let a = s[t / m];
        let b = s[t % m];
        assert(rd_fits(reduce(sn[(t as int) / (m as int)], sn[(t as int) % (m as int)]), octave_ratio()));
        match RawJiRatio::try_new(a, b) {
            Ok(x) => {
                r.push(x.rd(octave));
            },
            Err(_) => {
                assert(false);
            },
        }
        t = t + 1;
    }
    assert(ratio_views(r@) =~= pair_ratios(sn));
    r
}

/// The octave-reduced ratios of all ordered pairs of positive odd numbers of `odds`,
/// leaving out those that reduce to the unison.
pub fn specified_odd_limit(odds: &[u32]) -> (r: Vec<RawJiRatio>)
    requires
        odds@.len() * odds@.len() <= usize::MAX,
        pairs_fit(odds@.map_values(|x: u32| x as nat).filter(|x: nat| x > 0 && x % 2 == 1)),
    ensures
        ratio_views(r@) == pair_ratios(odds@.map_values(|x: u32| x as nat).filter(|x: nat| x > 0 && x % 2 == 1))
            .filter(|x: (nat, nat)| crate::ji_ratio::ratio_lt((1nat, 1nat), x)),
{
    let ghost on = odds@.map_values(|x: u32| x as nat);
    let mut valid: Vec<u32> = Vec::new();
    let mut i: usize = 0;
    while i < odds.len()
        invariant
            i <= odds@.len(),
            on == odds@.map_values(|x: u32| x as nat),
            valid@.map_values(|x: u32| x as nat) == on.subrange(0, i as int).filter(|x: nat| x > 0 && x % 2 == 1),
            valid@.len() <= i,
            forall|k: int| 0 <= k < valid@.len() ==> valid@[k] > 0,
        decreases odds@.len() - i,
    {
        let ghost pre = on.subrange(0, i as int);
        let x = odds[i];
        proof {
            assert(on.subrange(0, i + 1) =~= pre.push(x as nat));
            pre.lemma_filter_push(x as nat, |x: nat| x > 0 && x % 2 == 1);
            pre.lemma_filter_len(|x: nat| x > 0 && x % 2 == 1);
        }
        if x > 0 && x % 2 == 1 {
            valid.push(x);
            assert(valid@.map_values(|x: u32| x as nat) =~= valid@.drop_last().map_values(|x: u32| x as nat).push(x as nat));
        }
        i = i + 1;
    }
    assert(on.subrange(0, odds@.len() as int) =~= on);
    let ghost vn = valid@.map_values(|x: u32| x as nat);
    assert(valid@.len() * valid@.len() <= odds@.len() * odds@.len()) by (nonlinear_arith)
        requires
            valid@.len() <= odds@.len(),
    ;
    let all = all_pair_ratios(&valid);
    let ghost pr = pair_ratios(vn);
    let mut r: Vec<RawJiRatio> = Vec::new();
    let mut t: usize = 0;
    while t < all.len()
        invariant
            t <= all@.len(),
            ratio_views(all@) == pr,
            ratio_views(r@) == pr.subrange(0, t as int).filter(|x: (nat, nat)| crate::ji_ratio::ratio_lt((1nat, 1nat), x)),
        decreases all@.len() - t,
    {
        let x = all[t];
        proof {
            let pre = pr.subrange(0, t as int);
            assert(pr.subrange(0, t + 1) =~= pre.push(x@));
            pre.lemma_filter_push(x@, |x: (nat, nat)| crate::ji_ratio::ratio_lt((1nat, 1nat), x));
        }
        if RawJiRatio::unison().less_than(&x) {
            r.push(x);
            assert(ratio_views(r@) =~= ratio_views(r@.drop_last()).push(x@));
        }
        t = t + 1;
    }
    assert(pr.subrange(0, all@.len() as int) =~= pr);
    r
}

/// The odd numbers `1, 3, ..., 2m - 1`.
pub open spec fn odds_upto(m: nat) -> Seq<nat> {
    Seq::new(m, |i: int| (2 * i + 1) as nat)
}

/// The octave-reduced ratios of the odd limit `limit`: of all odd numerators and denominators up
/// to `limit`, sorted, without repeats, leaving out the unison.
pub fn odd_limit(limit: u32) -> (r: Vec<RawJiRatio>)
    requires
        limit >= 1,
        ((limit - 1) / 2 + 1) * ((limit - 1) / 2 + 1) <= usize::MAX,
        pairs_fit(odds_upto(((limit - 1) / 2 + 1) as nat)),
    ensures
        strictly_increasing::<RawJiRatio>(ratio_views(r@)),
        forall|x: (nat, nat)| ratio_views(r@).contains(x) <==> x != (1nat, 1nat)
            && pair_ratios(odds_upto(((limit - 1) / 2 + 1) as nat)).contains(x),
{
    let m: u32 = (limit - 1) / 2 + 1;
    let ghost os = odds_upto(m as nat);
    let mut odds: Vec<u32> = Vec::new();
    let mut i: u32 = 0;
    while i < m
        invariant
            i <= m,
            m == (limit - 1) / 2 + 1,
            odds@.map_values(|x: u32| x as nat) == odds_upto(i as nat),
            forall|k: int| 0 <= k < odds@.len() ==> odds@[k] > 0,
        decreases m - i,
    {
        let ghost before = odds@.map_values(|x: u32| x as nat);
        odds.push(2 * i + 1);
        assert(odds@.map_values(|x: u32| x as nat) =~= before.push((2 * i + 1) as nat));
        assert(odds_upto((i + 1) as nat) =~= odds_upto(i as nat).push((2 * i + 1) as nat));
        i = i + 1;
    }
    let all = all_pair_ratios(&odds);
    let sorted = sort_dedup(&all);
    let ghost sv = ratio_views(sorted@);
    assert(models(sorted@) =~= sv);
    assert(models(all@) =~= ratio_views(all@));
    let mut r: Vec<RawJiRatio> = Vec::new();
    let ghost mut idx: Seq<int> = Seq::empty();
    let mut t: usize = 0;
    while t < sorted.len()
        invariant
            t <= sorted@.len(),
            sv == ratio_views(sorted@),
            strictly_increasing::<RawJiRatio>(sv),
            strictly_increasing::<RawJiRatio>(ratio_views(r@)),
            idx.len() == r@.len(),
            forall|a: int| 0 <= a < r@.len() ==> 0 <= #[trigger] idx[a] < t && r@[a]@ == sv[idx[a]],
            forall|x: (nat, nat)| ratio_views(r@).contains(x) <==> x != (1nat, 1nat)
                && sv.subrange(0, t as int).contains(x),
        decreases sorted@.len() - t,
    {
        let x = sorted[t];
        let ghost pre = sv.subrange(0, t as int);
        let ghost before = ratio_views(r@);
        proof {
            assert(sv.subrange(0, t + 1) =~= pre.push(x@));
        }
        if !(x.numer() == 1 && x.denom() == 1) {
            r.push(x);
            proof {
                idx = idx.push(t as int);
                assert(ratio_views(r@) =~= before.push(x@));
                assert forall|a: int, b: int| 0 <= a < b < ratio_views(r@).len()
                    implies crate::ji_ratio::ratio_order(#[trigger] ratio_views(r@)[a], #[trigger] ratio_views(r@)[b]) by {
                    if b == ratio_views(r@).len() - 1 {
                        assert(r@[a]@ == sv[idx[a]]);
                        assert(crate::ji_ratio::ratio_order(sv[idx[a]], sv[t as int]));
                    } else {
                        assert(ratio_views(r@)[a] == before[a]);
                        assert(ratio_views(r@)[b] == before[b]);
                    }
                }
                assert forall|y: (nat, nat)| ratio_views(r@).contains(y) <==> y != (1nat, 1nat)
                    && sv.subrange(0, t + 1).contains(y) by {
                    lemma_push_contains(before, x@, y);
                    lemma_push_contains(pre, x@, y);
                }
            }
        } else {
            proof {
                assert forall|y: (nat, nat)| ratio_views(r@).contains(y) <==> y != (1nat, 1nat)
                    && sv.subrange(0, t + 1).contains(y) by {
                    lemma_push_contains(pre, x@, y);
                }
            }
        }
        t = t + 1;
    }
    assert(sv.subrange(0, sorted@.len() as int) =~= sv);
    r
}

// ---------------------------------------------------------------------------
// Text
// ---------------------------------------------------------------------------

/// The decimal digit `d < 10`.
pub open spec fn digit_char(d: nat) -> char {
    (48 + d) as char
}

/// The decimal numeral of `n`, without leading zeros.
pub open spec fn decimal(n: nat) -> Seq<char>
    decreases n,
{
    if n < 10 {
        seq![digit_char(n)]
    } else {
        decimal(n / 10).push(digit_char(n % 10))
    }
}

/// `n` written in decimal, as `format!("{}", n)` writes it: std's `Display` for unsigned
/// integers gives the decimal numeral without sign or leading zeros. Trusted: the contract claims
/// exactly that numeral.
#[verifier::external_body]
fn number_text(n: u32) -> (s: String)
    ensures
        s@ == decimal(n as nat),
{
    format!("{}", n)
}

/// A ratio written `numer/denom`.
pub open spec fn ratio_text(r: (nat, nat)) -> Seq<char> {
    decimal(r.0) + seq!['/'] + decimal(r.1)
}

/// The notes of a scale written one after another, each followed by a space.
pub open spec fn scale_text(s: Seq<(nat, nat)>) -> Seq<char>
    decreases s.len(),
{
    if s.len() == 0 {
        Seq::empty()
    } else {
        scale_text(s.drop_last()) + ratio_text(s.last()) + seq![' ']
    }
}

/// A scale as a list of ratios from the tonic, each followed by a space.
pub fn disp_ji_scale(scale: &[RawJiRatio]) -> (r: String)
    ensures
        r@ == scale_text(ratio_views(scale@)),
{
    let ghost c = ratio_views(scale@);
    let slash = "/";
    let space = " ";
    proof {
        reveal_strlit("/");
        reveal_strlit(" ");
    }
    let mut ret = String::new();
    let mut i: usize = 0;
    while i < scale.len()
        invariant
            i <= scale@.len(),
            c == ratio_views(scale@),
            slash@ == seq!['/'],
            space@ == seq![' '],
            ret@ == scale_text(c.subrange(0, i as int)),
        decreases scale@.len() - i,
    {
        let x = scale[i];
        let n = number_text(x.numer());
        let d = number_text(x.denom());
        ret.append(n.as_str());
        ret.append(slash);
        ret.append(d.as_str());
        ret.append(space);
        proof {
            assert(c.subrange(0, i + 1).drop_last() =~= c.subrange(0, i as int));
            assert(c.subrange(0, i + 1).last() == x@);
            assert(ret@ =~= scale_text(c.subrange(0, i + 1)));
        }
        i = i + 1;
    }
    assert(c.subrange(0, scale@.len() as int) =~= c);
    ret
}

/// The least common multiple of `a` and `b`; `0` when both are `0`.
pub open spec fn spec_lcm(a: nat, b: nat) -> nat {
    if a == 0 && b == 0 {
        0
    } else {
        a * (b / spec_gcd(a, b))
    }
}

/// Calls `num_integer::lcm` on two `u32`: the crate computes `a * (b / gcd(a, b))`, and `0` when
/// both are `0`; that product overflows, and panics in a debug build, unless it fits, which the
/// `requires` asks.
#[verifier::external_body]
fn integer_lcm(a: u32, b: u32) -> (r: u32)
    requires
        spec_lcm(a as nat, b as nat) <= u32::MAX,
    ensures
        r == spec_lcm(a as nat, b as nat),
{
    num_integer::lcm(a, b)
}

/// The least common multiple of 1 and the first `k` denominators.
pub open spec fn lcm_of_denoms(s: Seq<(nat, nat)>, k: int) -> nat
    decreases k,
{
    if k <= 0 {
        1
    } else {
        spec_lcm(lcm_of_denoms(s, k - 1), s[k - 1].1)
    }
}

/// The members of the chord of a scale over the common denominator `l`:
/// `l` itself, then each numerator scaled to it.
pub open spec fn chord_members(s: Seq<(nat, nat)>, l: nat) -> Seq<nat> {
    seq![l] + Seq::new(s.len(), |i: int| s[i].0 * (l / s[i].1))
}

/// Numbers written in decimal, separated by colons.
pub open spec fn colon_text(ns: Seq<nat>) -> Seq<char>
    decreases ns.len(),
{
    if ns.len() == 0 {
        Seq::empty()
    } else if ns.len() == 1 {
        decimal(ns[0])
    } else {
        colon_text(ns.drop_last()) + seq![':'] + decimal(ns.last())
    }
}

/// A scale written as an enumerated chord `l:a:b:...`: `l` the least common multiple of the
/// denominators, each note its numerator times `l` over its denominator.
pub fn disp_ji_scale_as_enumerated_chord(scale: &[RawJiRatio]) -> (r: String)
    requires
        forall|k: int| 0 < k <= scale@.len() ==> #[trigger] lcm_of_denoms(ratio_views(scale@), k) <= u32::MAX,
        forall|i: int| 0 <= i < scale@.len() ==> #[trigger] chord_members(
            ratio_views(scale@),
            lcm_of_denoms(ratio_views(scale@), scale@.len() as int),
        )[i + 1] <= u32::MAX,
    ensures
        r@ == colon_text(chord_members(ratio_views(scale@), lcm_of_denoms(ratio_views(scale@), scale@.len() as int))),
{
    let ghost c = ratio_views(scale@);
    let n = scale.len();
    let mut l: u32 = 1;
    let mut i: usize = 0;
    while i < n
        invariant
            i <= n,
            n == scale@.len(),
            c == ratio_views(scale@),
            forall|k: int| 0 < k <= n ==> #[trigger] lcm_of_denoms(c, k) <= u32::MAX,
            l == lcm_of_denoms(c, i as int),
        decreases n - i,
    {
        assert(lcm_of_denoms(c, i + 1) <= u32::MAX);
        l = integer_lcm(l, scale[i].denom());
        i = i + 1;
    }
    let ghost members = chord_members(c, l as nat);
    let colon = ":";
    proof {
        reveal_strlit(":");
    }
    let mut ret = number_text(l);
    assert(members.subrange(0, 1) =~= seq![l as nat]);
    assert(colon_text(seq![l as nat]) == decimal(l as nat));
    let mut i: usize = 0;
    while i < n
        invariant
            i <= n,
            n == scale@.len(),
            c == ratio_views(scale@),
            members == chord_members(c, l as nat),
            l == lcm_of_denoms(c, n as int),
            forall|j: int| 0 <= j < n ==> #[trigger] members[j + 1] <= u32::MAX,
            colon@ == seq![':'],
            ret@ == colon_text(members.subrange(0, i + 1)),
        decreases n - i,
    {
        let x = scale[i];
        proof {
            use_type_invariant(&x);
            assert(members[i + 1] == x@.0 * ((l as nat) / x@.1));
        }
        let multiply_by = l / x.denom();
        assert(members[i + 1] <= u32::MAX);
        let member = x.numer() * multiply_by;
        let t = number_text(member);
        ret.append(colon);
        ret.append(t.as_str());
        proof {
            let pre = members.subrange(0, i + 1);
            let next = members.subrange(0, i + 2);
            assert(next.drop_last() =~= pre);
            assert(next.last() == member as nat);
            assert(ret@ =~= colon_text(next));
        }
        i = i + 1;
    }
    assert(members.subrange(0, n + 1) =~= members);
    ret
}

// ---------------------------------------------------------------------------
// Step form and cumulative form undo each other
// ---------------------------------------------------------------------------

proof fn lemma_mul_div_cancel(a: (nat, nat), b: (nat, nat))
    requires
        ratio_wf(a),
        ratio_wf(b),
    ensures
        ratio_mul(a, ratio_div(b, a)) == b,
        ratio_wf(ratio_div(b, a)),
{
    assert(b.0 * a.1 > 0 && b.1 * a.0 > 0) by (nonlinear_arith)
        requires
            a.0 > 0,
            a.1 > 0,
            b.0 > 0,
            b.1 > 0,
    ;
    let q = ratio_div(b, a);
    lemma_reduce(b.0 * a.1, b.1 * a.0);
    assert(a.0 * q.0 > 0 && a.1 * q.1 > 0) by (nonlinear_arith)
        requires
            a.0 > 0,
            a.1 > 0,
            q.0 > 0,
            q.1 > 0,
    ;
    let p = ratio_mul(a, q);
    lemma_reduce(a.0 * q.0, a.1 * q.1);
    assert(p.0 * b.1 == b.0 * p.1) by (nonlinear_arith)
        requires
            p.0 * (a.1 * q.1) == (a.0 * q.0) * p.1,
            q.0 * (b.1 * a.0) == (b.0 * a.1) * q.1,
            a.1 > 0,
            q.1 > 0,
    ;
    lemma_ratio_eq(p, b);
}

proof fn lemma_div_mul_cancel(a: (nat, nat), b: (nat, nat))
    requires
        ratio_wf(a),
        ratio_wf(b),
    ensures
        ratio_div(ratio_mul(a, b), a) == b,
        ratio_wf(ratio_mul(a, b)),
{
    assert(a.0 * b.0 > 0 && a.1 * b.1 > 0) by (nonlinear_arith)
        requires
            a.0 > 0,
            a.1 > 0,
            b.0 > 0,
            b.1 > 0,
    ;
    let m = ratio_mul(a, b);
    lemma_reduce(a.0 * b.0, a.1 * b.1);
    assert(m.0 * a.1 > 0 && m.1 * a.0 > 0) by (nonlinear_arith)
        requires
            a.0 > 0,
            a.1 > 0,
            m.0 > 0,
            m.1 > 0,
    ;
    let p = ratio_div(m, a);
    lemma_reduce(m.0 * a.1, m.1 * a.0);
    assert(p.0 * b.1 == b.0 * p.1) by (nonlinear_arith)
        requires
            p.0 * (m.1 * a.0) == (m.0 * a.1) * p.1,
            m.0 * (a.1 * b.1) == (a.0 * b.0) * m.1,
            a.0 > 0,
            m.1 > 0,
    ;
    lemma_ratio_eq(p, b);
}

/// Every ratio of the list is in lowest terms.
pub open spec fn all_wf(s: Seq<(nat, nat)>) -> bool {
    forall|i: int| 0 <= i < s.len() ==> ratio_wf(#[trigger] s[i])
}

proof fn lemma_running_product_of_steps(c: Seq<(nat, nat)>, k: int)
    requires
        all_wf(c),
        1 <= k <= c.len(),
    ensures
        running_product(step_form_spec(c), k) == c[k - 1],
    decreases k,
{
    let s = step_form_spec(c);
    if k == 1 {
        crate::ji_ratio::lemma_gcd_one(1);
        lemma_reduce_wf(c[0]);
        assert(1 * c[0].0 == c[0].0 && 1 * c[0].1 == c[0].1);
        assert(running_product(s, 0) == (1nat, 1nat));
        assert(ratio_mul((1nat, 1nat), c[0]) == reduce(1 * c[0].0, 1 * c[0].1));
    } else {
        lemma_running_product_of_steps(c, k - 1);
        assert(s[k - 1] == ratio_div(c[k - 1], c[k - 2]));
        lemma_mul_div_cancel(c[k - 2], c[k - 1]);
    }
}

/// Stacking the steps of a scale in cumulative form gives back the scale:
/// `cumulative_form` undoes `step_form`.
pub proof fn lemma_cumulative_form_of_step_form(c: Seq<(nat, nat)>)
    requires
        all_wf(c),
        c.len() >= 1,
    ensures
        cumulative_spec(step_form_spec(c)) == c,
{
    assert forall|i: int| 0 <= i < c.len() implies #[trigger] cumulative_spec(step_form_spec(c))[i] == c[i] by {
        lemma_running_product_of_steps(c, i + 1);
    }
    assert(cumulative_spec(step_form_spec(c)) =~= c);
}

proof fn lemma_running_product_wf(s: Seq<(nat, nat)>, k: int)
    requires
        all_wf(s),
        0 <= k <= s.len(),
    ensures
        ratio_wf(running_product(s, k)),
    decreases k,
{
    if k == 0 {
        crate::ji_ratio::lemma_gcd_one(1);
    } else {
        lemma_running_product_wf(s, k - 1);
        lemma_div_mul_cancel(running_product(s, k - 1), s[k - 1]);
    }
}

/// Taking the steps of the cumulative form of a list of steps gives back the steps:
/// `step_form` undoes `cumulative_form`.
pub proof fn lemma_step_form_of_cumulative_form(s: Seq<(nat, nat)>)
    requires
        all_wf(s),
    ensures
        step_form_spec(cumulative_spec(s)) == s,
{
    let c = cumulative_spec(s);
    assert forall|i: int| 0 <= i < s.len() implies #[trigger] step_form_spec(c)[i] == s[i] by {
        if i == 0 {
            crate::ji_ratio::lemma_gcd_one(1);
            lemma_reduce_wf(s[0]);
            assert(1 * s[0].0 == s[0].0 && 1 * s[0].1 == s[0].1);
            assert(c[0] == running_product(s, 1));
            assert(running_product(s, 1) == ratio_mul(running_product(s, 0), s[0]));
            assert(ratio_mul((1nat, 1nat), s[0]) == reduce(1 * s[0].0, 1 * s[0].1));
        } else {
            lemma_running_product_wf(s, i);
            lemma_div_mul_cancel(running_product(s, i), s[i]);
            assert(c[i] == running_product(s, i + 1));
            assert(c[i - 1] == running_product(s, i));
            assert(running_product(s, i + 1) == ratio_mul(running_product(s, i), s[i]));
        }
    }
    assert(step_form_spec(c) =~= s);
}

/// The mode of a scale on degree 0 is the scale itself.
pub proof fn lemma_mode_zero(scale: Seq<(nat, nat)>)
    requires
        all_wf(scale),
        scale.len() >= 1,
    ensures
        mode_spec(scale, 0) == scale,
{
    let steps = step_form_spec(scale);
    assert(spec_rotate(steps, 0) =~= steps);
    lemma_cumulative_form_of_step_form(scale);
}

/// The product of the numerators and the product of the denominators of a list of ratios.
pub open spec fn parts_product(s: Seq<(nat, nat)>) -> (nat, nat)
    decreases s.len(),
{
    if s.len() == 0 {
        (1nat, 1nat)
    } else {
        let p = parts_product(s.drop_last());
        (p.0 * s.last().0, p.1 * s.last().1)
    }
}

/// The parts of a concatenation multiply.
proof fn lemma_parts_product_concat(a: Seq<(nat, nat)>, b: Seq<(nat, nat)>)
    ensures
        parts_product(a + b).0 == parts_product(a).0 * parts_product(b).0,
        parts_product(a + b).1 == parts_product(a).1 * parts_product(b).1,
    decreases b.len(),
{
    let pa = parts_product(a);
    if b.len() == 0 {
        assert(a + b =~= a);
        assert(parts_product(b) == (1nat, 1nat));
        assert(pa.0 * 1 == pa.0 && pa.1 * 1 == pa.1);
    } else {
        let c = a + b;
        assert(c.drop_last() =~= a + b.drop_last());
        assert(c.last() == b.last());
        lemma_parts_product_concat(a, b.drop_last());
        let pb = parts_product(b.drop_last());
        let x = b.last();
        assert(parts_product(c) == (parts_product(c.drop_last()).0 * x.0, parts_product(c.drop_last()).1 * x.1));
        assert(parts_product(b) == (pb.0 * x.0, pb.1 * x.1));
        assert((pa.0 * pb.0) * x.0 == pa.0 * (pb.0 * x.0)) by (nonlinear_arith);
        assert((pa.1 * pb.1) * x.1 == pa.1 * (pb.1 * x.1)) by (nonlinear_arith);
    }
}

/// Rotating a list of ratios keeps the products of its parts.
proof fn lemma_parts_product_rotate(s: Seq<(nat, nat)>, d: int)
    requires
        s.len() > 0,
    ensures
        parts_product(spec_rotate(s, d)) == parts_product(s),
{
    let k = d % (s.len() as int);
    let lo = s.subrange(0, k);
    let hi = s.subrange(k, s.len() as int);
    assert(s =~= lo + hi);
    lemma_parts_product_concat(hi, lo);
    lemma_parts_product_concat(lo, hi);
    vstd::arithmetic::mul::lemma_mul_is_commutative(parts_product(lo).0 as int, parts_product(hi).0 as int);
    vstd::arithmetic::mul::lemma_mul_is_commutative(parts_product(lo).1 as int, parts_product(hi).1 as int);
}

/// The product of the first `k` ratios has the value of the products of their parts.
proof fn lemma_running_product_value(s: Seq<(nat, nat)>, k: int)
    requires
        all_wf(s),
        0 <= k <= s.len(),
    ensures
        ratio_wf(running_product(s, k)),
        parts_product(s.subrange(0, k)).0 > 0,
        parts_product(s.subrange(0, k)).1 > 0,
        running_product(s, k).0 * parts_product(s.subrange(0, k)).1
            == parts_product(s.subrange(0, k)).0 * running_product(s, k).1,
    decreases k,
{
    if k == 0 {
        crate::ji_ratio::lemma_gcd_one(1);
        assert(s.subrange(0, 0) =~= Seq::<(nat, nat)>::empty());
    } else {
        lemma_running_product_value(s, k - 1);
        assert(s.subrange(0, k).drop_last() =~= s.subrange(0, k - 1));
        let r = running_product(s, k - 1);
        let x = s[k - 1];
        assert(ratio_wf(x));
        let pp = parts_product(s.subrange(0, k - 1));
        let n = pp.0;
        let dd = pp.1;
        assert(r.0 * x.0 > 0 && r.1 * x.1 > 0) by (nonlinear_arith)
            requires
                r.0 > 0,
                r.1 > 0,
                x.0 > 0,
                x.1 > 0,
        ;
        lemma_reduce(r.0 * x.0, r.1 * x.1);
        let q = running_product(s, k);
        assert(q == reduce(r.0 * x.0, r.1 * x.1));
        assert(n * x.0 > 0 && dd * x.1 > 0) by (nonlinear_arith)
            requires
                n > 0,
                dd > 0,
                x.0 > 0,
                x.1 > 0,
        ;
        assert(q.0 * (dd * x.1) == (n * x.0) * q.1) by (nonlinear_arith)
            requires
                q.0 * (r.1 * x.1) == (r.0 * x.0) * q.1,
                r.0 * dd == n * r.1,
                r.1 > 0,
        ;
    }
}

/// Every mode has as many notes as the scale and ends on the scale's last note (its equave),
/// and the mode on a degree is the mode on that degree reduced modulo the scale's size.
pub proof fn lemma_mode_laws(scale: Seq<(nat, nat)>, degree: int)
    requires
        all_wf(scale),
        scale.len() >= 1,
        degree >= 0,
    ensures
        mode_spec(scale, degree).len() == scale.len(),
        mode_spec(scale, degree)[scale.len() - 1] == scale[scale.len() - 1],
        mode_spec(scale, degree) == mode_spec(scale, degree % (scale.len() as int)),
{
    let n = scale.len() as int;
    let steps = step_form_spec(scale);
    let rot = spec_rotate(steps, degree);
    crate::words::lemma_rotate_len(steps, degree);
    crate::words::lemma_rotate_mod(steps, degree);
    assert(all_wf(steps)) by {
        assert forall|i: int| 0 <= i < n implies ratio_wf(#[trigger] steps[i]) by {
            if i > 0 {
                let a = scale[i];
                let b = scale[i - 1];
                assert(ratio_wf(a) && ratio_wf(b));
                assert(a.0 * b.1 > 0 && a.1 * b.0 > 0) by (nonlinear_arith)
                    requires
                        a.0 > 0,
                        a.1 > 0,
                        b.0 > 0,
                        b.1 > 0,
                ;
                lemma_reduce(a.0 * b.1, a.1 * b.0);
            }
        }
    }
    assert(all_wf(rot)) by {
        assert forall|i: int| 0 <= i < n implies ratio_wf(#[trigger] rot[i]) by {
            crate::words::lemma_rotate_index(steps, degree, i);
            assert(0 <= (i + degree) % n < n);
        }
    }
    lemma_running_product_value(rot, n);
    lemma_running_product_value(steps, n);
    assert(rot.subrange(0, n) =~= rot);
    assert(steps.subrange(0, n) =~= steps);
    lemma_parts_product_rotate(steps, degree);
    lemma_running_product_of_steps(scale, n);
    let a = running_product(rot, n);
    let b = running_product(steps, n);
    let p = parts_product(steps);
    assert(a.0 * b.1 == b.0 * a.1) by (nonlinear_arith)
        requires
            a.0 * p.1 == p.0 * a.1,
            b.0 * p.1 == p.0 * b.1,
            p.0 > 0,
            p.1 > 0,
    ;
    lemma_ratio_eq(a, b);
    assert(mode_spec(scale, degree)[n - 1] == a);
}

/// The fraction `x` has the value `n / d`.
spec fn has_value(x: (nat, nat), n: int, d: int) -> bool {
    x.0 * d == n * x.1
}

/// A fraction that has the value `n / d` has every other name `n2 / d2` of that value.
proof fn lemma_value_transfer(x: (nat, nat), n: int, d: int, n2: int, d2: int)
    requires
        has_value(x, n, d),
        n * d2 == n2 * d,
        d > 0,
    ensures
        has_value(x, n2, d2),
{
    assert(d * (x.0 * d2) == d * (n2 * x.1)) by (nonlinear_arith)
        requires
            x.0 * d == n * x.1,
            n * d2 == n2 * d,
    ;
    vstd::arithmetic::mul::lemma_mul_equality_converse(d, x.0 * d2, n2 * x.1);
}

/// A reduced fraction has the value of the fraction it reduces.
proof fn lemma_reduce_value(n: nat, d: nat)
    requires
        n > 0,
        d > 0,
    ensures
        has_value(reduce(n, d), n as int, d as int),
        ratio_wf(reduce(n, d)),
{
    lemma_reduce(n, d);
}

/// Two fractions in lowest terms with the same value `n / d` are equal.
proof fn lemma_same_value_eq(x: (nat, nat), y: (nat, nat), n: int, d: int)
    requires
        ratio_wf(x),
        ratio_wf(y),
        has_value(x, n, d),
        has_value(y, n, d),
        n > 0,
        d > 0,
    ensures
        x == y,
{
    assert(x.0 * y.1 == y.0 * x.1) by (nonlinear_arith)
        requires
            x.0 * d == n * x.1,
            y.0 * d == n * y.1,
            n > 0,
            d > 0,
    ;
    lemma_ratio_eq(x, y);
}

/// Dividing `b` times `e` by `a` is dividing `e` by `a` over `b`.
proof fn lemma_div_by_quotient(a: (nat, nat), b: (nat, nat), e: (nat, nat))
    requires
        ratio_wf(a),
        ratio_wf(b),
        ratio_wf(e),
    ensures
        ratio_div(ratio_mul(b, e), a) == ratio_div(e, ratio_div(a, b)),
        ratio_wf(ratio_div(a, b)),
{
    assert(b.0 * e.0 > 0 && b.1 * e.1 > 0 && a.0 * b.1 > 0 && a.1 * b.0 > 0) by (nonlinear_arith)
        requires
            a.0 > 0,
            a.1 > 0,
            b.0 > 0,
            b.1 > 0,
            e.0 > 0,
            e.1 > 0,
    ;
    lemma_reduce_value(b.0 * e.0, b.1 * e.1);
    let m = ratio_mul(b, e);
    assert(m.0 * a.1 > 0 && m.1 * a.0 > 0) by (nonlinear_arith)
        requires
            m.0 > 0,
            m.1 > 0,
            a.0 > 0,
            a.1 > 0,
    ;
    lemma_reduce_value(m.0 * a.1, m.1 * a.0);
    let lhs = ratio_div(m, a);
    lemma_reduce_value(a.0 * b.1, a.1 * b.0);
    let x = ratio_div(a, b);
    assert(e.0 * x.1 > 0 && e.1 * x.0 > 0) by (nonlinear_arith)
        requires
            e.0 > 0,
            e.1 > 0,
            x.0 > 0,
            x.1 > 0,
    ;
    lemma_reduce_value(e.0 * x.1, e.1 * x.0);
    let rhs = ratio_div(e, x);
    let n = b.0 * e.0 * a.1;
    let d = b.1 * e.1 * a.0;
    assert((m.0 * a.1) * d == n * (m.1 * a.0)) by (nonlinear_arith)
        requires
            m.0 * (b.1 * e.1) == (b.0 * e.0) * m.1,
            n == b.0 * e.0 * a.1,
            d == b.1 * e.1 * a.0,
    ;
    lemma_value_transfer(lhs, (m.0 * a.1) as int, (m.1 * a.0) as int, n as int, d as int);
    let p = x.0 * (a.1 * b.0);
    let q = (a.0 * b.1) * x.1;
    assert(p == q);
    assert((e.0 * x.1) * d == (e.0 * e.1) * q) by (nonlinear_arith)
        requires
            q == (a.0 * b.1) * x.1,
            d == b.1 * e.1 * a.0,
    ;
    assert(n * (e.1 * x.0) == (e.0 * e.1) * p) by (nonlinear_arith)
        requires
            p == x.0 * (a.1 * b.0),
            n == b.0 * e.0 * a.1,
    ;
    lemma_value_transfer(rhs, (e.0 * x.1) as int, (e.1 * x.0) as int, n as int, d as int);
    assert(n > 0 && d > 0) by (nonlinear_arith)
        requires
            a.0 > 0,
            a.1 > 0,
            b.0 > 0,
            b.1 > 0,
            e.0 > 0,
            e.1 > 0,
            n == b.0 * e.0 * a.1,
            d == b.1 * e.1 * a.0,
    ;
    lemma_same_value_eq(lhs, rhs, n as int, d as int);
}

/// Dividing `e` by `e` over `y` gives `y` back.
proof fn lemma_div_div_cancel(e: (nat, nat), y: (nat, nat))
    requires
        ratio_wf(e),
        ratio_wf(y),
    ensures
        ratio_div(e, ratio_div(e, y)) == y,
{
    assert(e.0 * y.1 > 0 && e.1 * y.0 > 0) by (nonlinear_arith)
        requires
            e.0 > 0,
            e.1 > 0,
            y.0 > 0,
            y.1 > 0,
    ;
    lemma_reduce_value(e.0 * y.1, e.1 * y.0);
    let z = ratio_div(e, y);
    assert(e.0 * z.1 > 0 && e.1 * z.0 > 0) by (nonlinear_arith)
        requires
            e.0 > 0,
            e.1 > 0,
            z.0 > 0,
            z.1 > 0,
    ;
    lemma_reduce_value(e.0 * z.1, e.1 * z.0);
    let w = ratio_div(e, z);
    let n = e.0 * e.1 * y.0;
    let d = e.1 * e.0 * y.1;
    assert((e.0 * z.1) * d == n * (e.1 * z.0)) by (nonlinear_arith)
        requires
            z.0 * (e.1 * y.0) == (e.0 * y.1) * z.1,
            n == e.0 * e.1 * y.0,
            d == e.1 * e.0 * y.1,
    ;
    lemma_value_transfer(w, (e.0 * z.1) as int, (e.1 * z.0) as int, n as int, d as int);
    assert(y.0 * d == n * y.1) by (nonlinear_arith)
        requires
            n == e.0 * e.1 * y.0,
            d == e.1 * e.0 * y.1,
    ;
    assert(n > 0 && d > 0) by (nonlinear_arith)
        requires
            e.0 > 0,
            e.1 > 0,
            y.0 > 0,
            y.1 > 0,
            n == e.0 * e.1 * y.0,
            d == e.1 * e.0 * y.1,
    ;
    lemma_same_value_eq(w, y, n as int, d as int);
}

/// The interval from degree `j + i` up to degree `j` plus an equave completes the `i`-step on
/// degree `j` to the equave: it is the equave divided by that step.
proof fn lemma_class_complement(a: Seq<(nat, nat)>, i: int, j: int)
    requires
        all_wf(a),
        1 <= i < a.len(),
        0 <= j < a.len(),
    ensures
        class_interval(a, a.len() - i, (j + i) % (a.len() as int)) == ratio_div(a[a.len() - 1], class_interval(a, i, j)),
{
    let n = a.len() as int;
    let e = a[n - 1];
    assert(ratio_wf(e));
    if i + j < n {
        vstd::arithmetic::div_mod::lemma_small_mod((j + i) as nat, n as nat);
        assert((n - i + (j + i)) % n == j) by {
            vstd::arithmetic::div_mod::lemma_mod_add_multiples_vanish(j, n);
            vstd::arithmetic::div_mod::lemma_small_mod(j as nat, n as nat);
        }
        assert(ratio_wf(a[j + i]) && ratio_wf(a[j]));
        lemma_div_by_quotient(a[i + j], a[j], e);
    } else {
        let j2 = i + j - n;
        assert((j + i) % n == j2) by {
            assert(j + i == n + j2);
            vstd::arithmetic::div_mod::lemma_mod_add_multiples_vanish(j2, n);
            vstd::arithmetic::div_mod::lemma_small_mod(j2 as nat, n as nat);
        }
        let i2 = n - i;
        assert(i2 + j2 == j && j < n);
        assert(ratio_wf(a[j2]) && ratio_wf(a[j]));
        lemma_div_by_quotient(a[j], a[j2], e);
        // The i-step on degree j is the equave over the i2-step on degree j2.
        assert(class_interval(a, i, j) == ratio_div(ratio_mul(a[j2], e), a[j]));
        assert(class_interval(a, i2, j2) == ratio_div(a[j], a[j2]));
        lemma_div_div_cancel(e, ratio_div(a[j], a[j2]));
    }
}

/// A scale in cumulative form is a constant structure in the sense of `is_cs_spec`, which
/// compares the classes of at most half the scale size with the larger ones, exactly when no
/// interval occurs in two different step classes at all.
pub proof fn lemma_cs_law(a: Seq<(nat, nat)>)
    requires
        all_wf(a),
        a.len() >= 1,
    ensures
        is_cs_spec(a) <==> forall|i1: int, i2: int, j1: int, j2: int|
            1 <= i1 < i2 < a.len() && 0 <= j1 < a.len() && 0 <= j2 < a.len()
                ==> #[trigger] class_interval(a, i1, j1) != #[trigger] class_interval(a, i2, j2),
{
    let n = a.len() as int;
    if is_cs_spec(a) {
        assert forall|i1: int, i2: int, j1: int, j2: int|
            1 <= i1 < i2 < n && 0 <= j1 < n && 0 <= j2 < n
                implies #[trigger] class_interval(a, i1, j1) != #[trigger] class_interval(a, i2, j2) by {
            if i1 > n / 2 && class_interval(a, i1, j1) == class_interval(a, i2, j2) {
                lemma_class_complement(a, i1, j1);
                lemma_class_complement(a, i2, j2);
                let k1 = n - i2;
                let k2 = n - i1;
                let m1 = (j2 + i2) % n;
                let m2 = (j1 + i1) % n;
                vstd::arithmetic::div_mod::lemma_mod_bound(j2 + i2, n);
                vstd::arithmetic::div_mod::lemma_mod_bound(j1 + i1, n);
                assert(class_interval(a, k1, m1) == class_interval(a, k2, m2));
                assert(1 <= k1 <= n / 2 && k1 < k2 < n);
            }
        }
    }
}

/// The last note of the harmonic series mode `m` (with its octave) is the octave 2/1.
pub proof fn lemma_harmonic_mode_ends_on_octave(m: nat)
    requires
        m >= 1,
    ensures
        reduce((m + 1 + (m - 1)) as nat, m) == octave_ratio(),
{
    let n = (m + 1 + (m - 1)) as nat;
    assert(n == 2 * m);
    vstd::arithmetic::div_mod::lemma_mod_multiples_basic(2, m as int);
    assert(n % m == 0);
    assert(spec_gcd(n, m) == spec_gcd(m, n % m));
    assert(spec_gcd(m, 0) == m);
    vstd::arithmetic::div_mod::lemma_div_multiples_vanish(2, m as int);
    vstd::arithmetic::div_mod::lemma_div_basics_2(m as int);
}

// ---------------------------------------------------------------------------
// Step sizes of a ternary step signature from two target intervals
// ---------------------------------------------------------------------------

/// The step counts `(l, m, s)` that a solver tries as an interval class of a scale with step
/// signature `sig`: each at most the signature's, not the whole signature, and with no common
/// factor.
pub open spec fn admissible_counts(sig: Triple, t: Triple) -> bool {
    &&& 0 <= t.0 <= sig.0
    &&& 0 <= t.1 <= sig.1
    &&& 0 <= t.2 <= sig.2
    &&& t != sig
    &&& spec_gcd(t.0 as nat, spec_gcd(t.1 as nat, t.2 as nat)) == 1
}

/// Lexicographic order on triples.
pub open spec fn triple_lt(a: Triple, b: Triple) -> bool {
    a.0 < b.0 || (a.0 == b.0 && (a.1 < b.1 || (a.1 == b.1 && a.2 < b.2)))
}

/// The triples of a list of three-entry arrays.
pub open spec fn count_triples(v: Seq<[i32; 3]>) -> Seq<Triple> {
    v.map_values(|a: [i32; 3]| (a[0] as int, a[1] as int, a[2] as int))
}

/// All admissible step counts for the ternary step signature `step_sig`, in lexicographic order.
pub fn step_count_columns(step_sig: &[i32]) -> (r: Vec<[i32; 3]>)
    requires
        step_sig@.len() == 3,
        forall|k: int| 0 <= k < 3 ==> 0 <= #[trigger] step_sig@[k] < i32::MAX,
    ensures
        forall|i: int, j: int|
            0 <= i < j < r@.len() ==> triple_lt(#[trigger] count_triples(r@)[i], #[trigger] count_triples(r@)[j]),
        forall|t: Triple| #[trigger] count_triples(r@).contains(t) <==> admissible_counts(triple(step_sig@), t),
{
    let ghost sig = triple(step_sig@);
    let a = step_sig[0];
    let b = step_sig[1];
    let c = step_sig[2];
    let mut r: Vec<[i32; 3]> = Vec::new();
    let mut l: i32 = 0;
    while l <= a
        invariant
            sig == (a as int, b as int, c as int),
            0 <= a < i32::MAX,
            0 <= b < i32::MAX,
            0 <= c < i32::MAX,
            0 <= l <= a + 1,
            forall|i: int, j: int|
                0 <= i < j < r@.len() ==> triple_lt(#[trigger] count_triples(r@)[i], #[trigger] count_triples(r@)[j]),
            forall|i: int| 0 <= i < r@.len() ==> triple_lt(#[trigger] count_triples(r@)[i], (l as int, 0, 0)),
            forall|t: Triple|
                #[trigger] count_triples(r@).contains(t) <==> admissible_counts(sig, t) && triple_lt(t, (l as int, 0, 0)),
        decreases a + 1 - l,
    {
        let mut m: i32 = 0;
        while m <= b
            invariant
                sig == (a as int, b as int, c as int),
                0 <= a < i32::MAX,
                0 <= b < i32::MAX,
                0 <= c < i32::MAX,
                0 <= l <= a,
                0 <= m <= b + 1,
                forall|i: int, j: int|
                    0 <= i < j < r@.len() ==> triple_lt(#[trigger] count_triples(r@)[i], #[trigger] count_triples(r@)[j]),
                forall|i: int| 0 <= i < r@.len() ==> triple_lt(#[trigger] count_triples(r@)[i], (l as int, m as int, 0)),
                forall|t: Triple|
                    #[trigger] count_triples(r@).contains(t) <==> admissible_counts(sig, t) && triple_lt(
                        t,
                        (l as int, m as int, 0),
                    ),
            decreases b + 1 - m,
        {
            let mut s: i32 = 0;
            while s <= c
                invariant
                    sig == (a as int, b as int, c as int),
                    0 <= a < i32::MAX,
                    0 <= b < i32::MAX,
                    0 <= c < i32::MAX,
                    0 <= l <= a,
                    0 <= m <= b,
                    0 <= s <= c + 1,
                    forall|i: int, j: int|
                        0 <= i < j < r@.len() ==> triple_lt(
                            #[trigger] count_triples(r@)[i],
                            #[trigger] count_triples(r@)[j],
                        ),
                    forall|i: int|
                        0 <= i < r@.len() ==> triple_lt(#[trigger] count_triples(r@)[i], (l as int, m as int, s as int)),
                    forall|t: Triple|
                        #[trigger] count_triples(r@).contains(t) <==> admissible_counts(sig, t) && triple_lt(
                            t,
                            (l as int, m as int, s as int),
                        ),
                decreases c + 1 - s,
            {
                let g = gcd(l as u32, gcd(m as u32, s as u32));
                let ghost cur: Triple = (l as int, m as int, s as int);
                let ghost before = r@;
                if (l < a || m < b || s < c) && g == 1 {
                    r.push([l, m, s]);
                    proof {
                        assert(count_triples(r@) =~= count_triples(before).push(cur));
                        assert(count_triples(r@).last() == cur);
                    }
                } else {
                    assert(!admissible_counts(sig, cur));
                }
                proof {
                    let next: Triple = (l as int, m as int, s + 1);
                    assert forall|t: Triple| #[trigger] count_triples(r@).contains(t) <==> admissible_counts(sig, t)
                        && triple_lt(t, next) by {
                        if count_triples(r@).contains(t) && !count_triples(before).contains(t) {
                            let k = choose|k: int| 0 <= k < count_triples(r@).len() && count_triples(r@)[k] == t;
                            assert(k == count_triples(before).len());
                        }
                        if count_triples(before).contains(t) {
                            let k = choose|k: int| 0 <= k < count_triples(before).len() && count_triples(before)[k] == t;
                            assert(count_triples(r@)[k] == t);
                        }
                        if t == cur && admissible_counts(sig, t) {
                            assert(count_triples(r@)[count_triples(r@).len() - 1] == t);
                        }
                    }
                }
                s = s + 1;
            }
            proof {
                assert forall|t: Triple| admissible_counts(sig, t) implies triple_lt(t, (l as int, m as int, c + 1))
                    == triple_lt(t, (l as int, m + 1, 0)) by {}
            }
            m = m + 1;
        }
        proof {
            assert forall|t: Triple| admissible_counts(sig, t) implies triple_lt(t, (l as int, b + 1, 0)) == triple_lt(
                t,
                (l + 1, 0, 0),
            ) by {}
        }
        l = l + 1;
    }
    r
}

/// The exponents of the prime at index `i` in the step sizes solving the system of
/// `step_sizes_for_targets`.
pub open spec fn prime_solution(
    sig: Seq<i32>,
    col1: Seq<i32>,
    col2: Seq<i32>,
    e: Seq<i32>,
    t1: Seq<i32>,
    t2: Seq<i32>,
    i: int,
) -> Triple {
    solve3(triple(sig), triple(col1), triple(col2), (e[i] as int, t1[i] as int, t2[i] as int))
}

/// Each entry of the triple fits in an `i32`.
pub open spec fn fits_i32_triple(t: Triple) -> bool {
    &&& i32::MIN <= t.0 <= i32::MAX
    &&& i32::MIN <= t.1 <= i32::MAX
    &&& i32::MIN <= t.2 <= i32::MAX
}

/// The step sizes `(L, m, s)` that satisfy, in the exponent of each prime,
/// `step_sig . (L, m, s) == equave`, `col1 . (L, m, s) == target1` and
/// `col2 . (L, m, s) == target2`, where the matrix with columns `step_sig`, `col1`, `col2`
/// is unimodular. `None` when an exponent of the solution falls outside `i32`.
pub fn step_sizes_for_targets(
    step_sig: &[i32],
    col1: &[i32],
    col2: &[i32],
    equave: Monzo,
    target1: Monzo,
    target2: Monzo,
) -> (r: Option<(Monzo, Monzo, Monzo)>)
    requires
        step_sig@.len() == 3,
        col1@.len() == 3,
        col2@.len() == 3,
        det3_spec(triple(step_sig@), triple(col1@), triple(col2@)) == 1 || det3_spec(
            triple(step_sig@),
            triple(col1@),
            triple(col2@),
        ) == -1,
    ensures
        match r {
            Some((l, m, s)) => forall|i: int|
                0 <= i < 9 ==> {
                    &&& (l@[i] as int, m@[i] as int, s@[i] as int) == #[trigger] prime_solution(
                        step_sig@,
                        col1@,
                        col2@,
                        equave@,
                        target1@,
                        target2@,
                        i,
                    )
                    &&& l@[i] * step_sig@[0] + m@[i] * step_sig@[1] + s@[i] * step_sig@[2] == equave@[i]
                    &&& l@[i] * col1@[0] + m@[i] * col1@[1] + s@[i] * col1@[2] == target1@[i]
                    &&& l@[i] * col2@[0] + m@[i] * col2@[1] + s@[i] * col2@[2] == target2@[i]
                },
            None => exists|i: int|
                0 <= i < 9 && !fits_i32_triple(
                    #[trigger] prime_solution(step_sig@, col1@, col2@, equave@, target1@, target2@, i),
                ),
        },
{
    broadcast use crate::monzo::lemma_monzo_len;

    let ghost u = triple(step_sig@);
    let ghost v = triple(col1@);
    let ghost w = triple(col2@);
    let inv = unimodular_inv(step_sig, col1, col2);
    let e = equave.into_inner();
    let t1 = target1.into_inner();
    let t2 = target2.into_inner();
    let mut ls = [0i32; 9];
    let mut ms = [0i32; 9];
    let mut ss = [0i32; 9];
    let mut i: usize = 0;
    while i < 9
        invariant
            i <= 9,
            step_sig@.len() == 3,
            col1@.len() == 3,
            col2@.len() == 3,
            u == triple(step_sig@),
            v == triple(col1@),
            w == triple(col2@),
            det3_spec(u, v, w) == 1 || det3_spec(u, v, w) == -1,
            e@ == equave@,
            t1@ == target1@,
            t2@ == target2@,
            e@.len() == 9,
            ls@.len() == 9,
            ms@.len() == 9,
            ss@.len() == 9,
            forall|k: int|
                0 <= k < 3 ==> (inv[k][0] as int, inv[k][1] as int, inv[k][2] as int) == crate::matrix::inv_column(
                    u,
                    v,
                    w,
                    k,
                ),
            forall|k: int, j: int|
                0 <= k < 3 && 0 <= j < 3 ==> -0x8000_0000_0000_0000 <= #[trigger] inv[k]@[j] <= 0x8000_0000_0000_0000,
            forall|j: int|
                0 <= j < i ==> (ls@[j] as int, ms@[j] as int, ss@[j] as int) == #[trigger] solve3(
                    u,
                    v,
                    w,
                    (e@[j] as int, t1@[j] as int, t2@[j] as int),
                ),
        decreases 9 - i,
    {
        let b = [e[i], t1[i], t2[i]];
        let x = covector_times_matrix(&b, &inv[0], &inv[1], &inv[2]);
        proof {
            assert(triple(b@) == (e@[i as int] as int, t1@[i as int] as int, t2@[i as int] as int));
            assert(x[0] == solve3(u, v, w, triple(b@)).0);
            assert(x[1] == solve3(u, v, w, triple(b@)).1);
            assert(x[2] == solve3(u, v, w, triple(b@)).2);
        }
        if x[0] < i32::MIN as i128 || x[0] > i32::MAX as i128 || x[1] < i32::MIN as i128 || x[1] > i32::MAX as i128
            || x[2] < i32::MIN as i128 || x[2] > i32::MAX as i128 {
            proof {
                assert(prime_solution(step_sig@, col1@, col2@, equave@, target1@, target2@, i as int) == solve3(
                    u,
                    v,
                    w,
                    triple(b@),
                ));
                assert(!fits_i32_triple(prime_solution(step_sig@, col1@, col2@, equave@, target1@, target2@, i as int)));
            }
            return None;
        }
        ls[i] = x[0] as i32;
        ms[i] = x[1] as i32;
        ss[i] = x[2] as i32;
        i = i + 1;
    }
    let l = Monzo::from_array(ls);
    let m = Monzo::from_array(ms);
    let s = Monzo::from_array(ss);
    proof {
        assert forall|i: int| 0 <= i < 9 implies {
            &&& l@[i] * step_sig@[0] + m@[i] * step_sig@[1] + s@[i] * step_sig@[2] == equave@[i]
            &&& l@[i] * col1@[0] + m@[i] * col1@[1] + s@[i] * col1@[2] == target1@[i]
            &&& l@[i] * col2@[0] + m@[i] * col2@[1] + s@[i] * col2@[2] == target2@[i]
        } by {
            let bt = (e@[i] as int, t1@[i] as int, t2@[i] as int);
            lemma_solve3(u, v, w, bt);
            assert((l@[i] as int, m@[i] as int, s@[i] as int) == solve3(u, v, w, bt));
        }
    }
    Some((l, m, s))
}

} // verus!
