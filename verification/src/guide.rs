//! Guided generator sequences and guide frames: how a scale is generated by
//! stacking a sequence of generators, possibly in several interleaved copies.

use vstd::prelude::*;

use itertools::Itertools;

use crate::helpers::{gcd, spec_gcd};
use crate::primes::{factorize, is_prime, trial_factors};
use crate::words::{
    all_positive, lemma_models_usize, lemma_sums_fit_from_norms, lemma_total_norm_subword, sorted_keys, total_norm,
    contains_symbol, is_weak_period, lemma_rotate_len, lemma_models_push, lemma_spec_rotations, lemma_weak_pattern, models, prefix,
    rotations, spec_rotate, spec_rotations, spec_word_on_degree, weak_pattern, weak_period_pattern, word_on_degree,
    CountVector, Letter, Subtendable, Symbol, sort_dedup, strictly_increasing, count_entries, rotation_count,
    dyad_on_degree, rotate, Trichotomy, entries_norm, offset_vec, lemma_count_entries, lemma_count_entries_norm,
    lemma_strictly_increasing_unique, step_variety,
};

verus! {

/// The models of a list of words.
pub open spec fn word_models<T: Symbol>(ws: Seq<Vec<T>>) -> Seq<Seq<T::Model>> {
    ws.map_values(|w: Vec<T>| models(w@))
}

/// The `step_class`-steps stacked from degree 0: the step content of the subword of length
/// `step_class` on each degree `step_class * i`.
pub open spec fn spec_stacked_step_class<T: Subtendable>(step_class: int, s: Seq<T::Model>) -> Seq<Seq<(Letter, i32)>> {
    Seq::new(s.len(), |i: int| T::interval_model(spec_word_on_degree(s, step_class * i, step_class)))
}

/// The step contents stacked by `stacked_step_class` can all be counted without overflow.
pub open spec fn stack_fits<T: Subtendable>(step_class: int, s: Seq<T::Model>) -> bool {
    forall|i: int| 0 <= i < s.len() ==> #[trigger] T::interval_fits(spec_word_on_degree(s, step_class * i, step_class))
}

/// Stack `step_class`-steps on every degree `step_class * i` of the scale, as step contents.
pub fn stacked_step_class<T: Subtendable>(step_class: usize, scale: &[T]) -> (r: Vec<CountVector<Letter>>)
    requires
        step_class <= scale@.len(),
        step_class * scale@.len() <= usize::MAX,
        stack_fits::<T>(step_class as int, models(scale@)),
    ensures
        models(r@) == spec_stacked_step_class::<T>(step_class as int, models(scale@)),
{
    let n = scale.len();
    let ghost target = spec_stacked_step_class::<T>(step_class as int, models(scale@));
    let mut r: Vec<CountVector<Letter>> = Vec::new();
    let mut i: usize = 0;
    while i < n
        invariant
            i <= n,
            n == scale@.len(),
            step_class <= n,
            step_class * n <= usize::MAX,
            stack_fits::<T>(step_class as int, models(scale@)),
            target == spec_stacked_step_class::<T>(step_class as int, models(scale@)),
            models(r@) == target.subrange(0, i as int),
        decreases n - i,
    {
        assert(step_class * i <= step_class * n) by (nonlinear_arith)
            requires
                i < n,
        ;
        let w = word_on_degree(scale, step_class * i, step_class);
        assert(T::interval_fits(spec_word_on_degree(models(scale@), step_class * i, step_class as int)));
        let v = T::interval_from_slice(&w);
        proof {
            lemma_models_push(r@, v);
        }
        r.push(v);
        assert(models(r@) =~= target.subrange(0, i + 1));
        i = i + 1;
    }
    assert(target.subrange(0, n as int) =~= target);
    r
}

/// A chain of stacked generators is guided when its last generator differs from all the others.
pub open spec fn guided_chain_ok<A>(c: Seq<A>) -> bool {
    !c.subrange(0, c.len() - 1).contains(c.last())
}

/// The guided generator sequences of a list of chains: for every guided chain in turn,
/// the repeating prefix of the chain without its last generator.
pub open spec fn chains_to_gses<A>(rots: Seq<Seq<A>>) -> Seq<Seq<A>>
    decreases rots.len(),
{
    if rots.len() == 0 {
        Seq::empty()
    } else {
        let prev = chains_to_gses(rots.drop_last());
        let c = rots.last();
        if guided_chain_ok(c) {
            prev.push(weak_pattern(c.subrange(0, c.len() - 1)))
        } else {
            prev
        }
    }
}

/// The guided generator sequences of a necklace of stacked generators, over its rotations.
pub open spec fn spec_guided_gs_chains<A>(chain: Seq<A>) -> Seq<Seq<A>> {
    chains_to_gses(spec_rotations(chain))
}

/// Given a necklace of stacked `k`-steps, where `k` is fixed,
/// get all valid guided generator sequences using `k`-steps on any rotation.
pub fn guided_gs_chains<T: Symbol>(chain: &[T]) -> (r: Vec<Vec<T>>)
    requires
        chain@.len() >= 2,
    ensures
        word_models(r@) == spec_guided_gs_chains(models(chain@)),
{
    let len = chain.len();
    let rots = rotations(chain);
    let ghost rs = spec_rotations(models(chain@));
    proof {
        lemma_spec_rotations(models(chain@), rots@.len() as int);
        assert forall|j: int| 0 <= j < rots@.len() implies (#[trigger] rots@[j]@).len() == len by {
            assert(models(rots@[j]@).len() == rots@[j]@.len());
            lemma_rotate_len(models(chain@), j);
        }
    }
    let mut r: Vec<Vec<T>> = Vec::new();
    let mut i: usize = 0;
    while i < rots.len()
        invariant
            i <= rots@.len(),
            rs == spec_rotations(models(chain@)),
            rs.len() == rots@.len(),
            len == chain@.len(),
            len >= 2,
            forall|j: int| 0 <= j < rots@.len() ==> models(#[trigger] rots@[j]@) == spec_rotate(models(chain@), j),
            forall|j: int| 0 <= j < rots@.len() ==> (#[trigger] rots@[j]@).len() == len,
            word_models(r@) == chains_to_gses(rs.subrange(0, i as int)),
        decreases rots@.len() - i,
    {
        let rot = &rots[i];
        let ghost c = rs[i as int];
        assert(c == models(rot@));
        assert(rs.subrange(0, i + 1).drop_last() =~= rs.subrange(0, i as int));
        assert(rs.subrange(0, i + 1).last() == c);
        let head = prefix(rot, len - 1);
        let last = &rot[len - 1];
        assert(models(head@) == c.subrange(0, c.len() - 1));
        assert(c.last() == last.model());
        if !contains_symbol(&head, last) {
            let gs = weak_period_pattern(&head);
            proof {
                lemma_weak_pattern(models(head@), gs@.len() as int);
            }
            let ghost before = word_models(r@);
            r.push(gs);
            assert(word_models(r@) =~= before.push(models(gs@)));
        }
        i = i + 1;
    }
    assert(rs.subrange(0, rs.len() as int) =~= rs);
    r
}

/// Every stack of steps of a word of letters fits in `i32` counts.
proof fn lemma_letter_stack_fits(k: int, s: Seq<Letter>)
    requires
        0 < k <= s.len() < i32::MAX,
    ensures
        stack_fits::<Letter>(k, s),
{
    assert forall|i: int| 0 <= i < s.len() implies #[trigger] <Letter as Subtendable>::interval_fits(spec_word_on_degree(s, k * i, k)) by {
        lemma_rotate_len(s, k * i);
    }
}

/// The stacks of fewer steps than a subscale has can be summed without overflow when the
/// subscale's step contents have positive counts and a total norm within `i32`.
proof fn lemma_subscale_stack_fits(k: int, ms: Seq<Seq<(Letter, i32)>>)
    requires
        0 < k < ms.len(),
        forall|i: int| 0 <= i < ms.len() ==> sorted_keys::<Letter>(#[trigger] ms[i]) && all_positive(ms[i]),
        total_norm(ms) <= i32::MAX,
    ensures
        stack_fits::<CountVector<Letter>>(k, ms),
{
    assert forall|i: int| 0 <= i < ms.len() implies #[trigger] <CountVector<Letter> as Subtendable>::interval_fits(spec_word_on_degree(ms, k * i, k)) by {
        assert(k * i >= 0) by (nonlinear_arith)
            requires
                k > 0,
                i >= 0,
        ;
        let w = spec_word_on_degree(ms, k * i, k);
        lemma_total_norm_subword(ms, k * i, k);
        assert forall|j: int| 0 <= j < w.len() implies sorted_keys::<Letter>(#[trigger] w[j]) && all_positive(w[j]) by {
            let n = ms.len() as int;
            assert(0 <= (j + k * i) % n < n);
            assert(w[j] == ms[(j + k * i) % n]);
        }
        lemma_sums_fit_from_norms(w);
    }
}

/// The guided generator sequences of the stacked `step_class`-steps of a scale word.
pub open spec fn spec_step_class_gses(step_class: int, s: Seq<Letter>) -> Seq<Seq<Seq<(Letter, i32)>>> {
    spec_guided_gs_chains(spec_stacked_step_class::<Letter>(step_class, s))
}

/// The guided generator sequences for all step classes `1..=m` coprime to the scale size, in turn.
pub open spec fn gs_lists_upto(s: Seq<Letter>, m: int) -> Seq<Seq<Seq<(Letter, i32)>>>
    decreases m,
{
    if m <= 0 {
        Seq::empty()
    } else if spec_gcd(m as nat, s.len()) == 1 {
        gs_lists_upto(s, m - 1) + spec_step_class_gses(m, s)
    } else {
        gs_lists_upto(s, m - 1)
    }
}

/// The guided generator sequences that use `step_class`-steps in a scale word.
fn step_class_guided_gs_list(step_class: usize, scale: &[Letter]) -> (r: Vec<Vec<CountVector<Letter>>>)
    requires
        1 <= step_class <= scale@.len(),
        2 <= scale@.len() < i32::MAX,
        step_class * scale@.len() <= usize::MAX,
    ensures
        word_models(r@) == spec_step_class_gses(step_class as int, scale@),
{
    proof {
        lemma_models_usize(scale@);
        lemma_letter_stack_fits(step_class as int, scale@);
    }
    let stack = stacked_step_class(step_class, scale);
    assert(models(stack@).len() == stack@.len());
    guided_gs_chains(&stack)
}

/// Collects the guided generator sequences for step classes `1..=m` coprime to the scale size.
fn gs_lists_upto_exec(scale: &[Letter], m: usize) -> (r: Vec<Vec<CountVector<Letter>>>)
    requires
        m == 0 || m < scale@.len(),
        scale@.len() < i32::MAX,
        scale@.len() * scale@.len() <= usize::MAX,
    ensures
        word_models(r@) == gs_lists_upto(scale@, m as int),
{
    let len = scale.len();
    let mut r: Vec<Vec<CountVector<Letter>>> = Vec::new();
    let mut step_class: usize = 1;
    while step_class <= m
        invariant
            1 <= step_class <= m + 1,
            m == 0 || m < len,
            len == scale@.len(),
            len < i32::MAX,
            len * len <= usize::MAX,
            word_models(r@) == gs_lists_upto(scale@, step_class - 1),
        decreases m + 1 - step_class,
    {
        assert(step_class * len <= len * len) by (nonlinear_arith)
            requires
                step_class <= len,
        ;
        if gcd(step_class as u32, len as u32) == 1 {
            let more = step_class_guided_gs_list(step_class, scale);
            let ghost before = word_models(r@);
            let mut j: usize = 0;
            while j < more.len()
                invariant
                    j <= more@.len(),
                    word_models(r@) == before + word_models(more@).subrange(0, j as int),
                decreases more@.len() - j,
            {
                let g = copy_gs(&more[j]);
                let ghost prev = word_models(r@);
                r.push(g);
                assert(word_models(r@) =~= prev.push(models(more@[j as int]@)));
                assert(word_models(more@).subrange(0, j + 1) =~= word_models(more@).subrange(0, j as int).push(models(more@[j as int]@)));
                j = j + 1;
            }
            assert(word_models(more@).subrange(0, more@.len() as int) =~= word_models(more@));
        }
        step_class = step_class + 1;
    }
    r
}

/// A copy of a generator sequence.
fn copy_gs(gs: &Vec<CountVector<Letter>>) -> (r: Vec<CountVector<Letter>>)
    ensures
        models(r@) == models(gs@),
{
    crate::words::copy_symbols(gs.as_slice())
}

/// All guided generator sequences that generate a given abstract necklace:
/// for every step class `k` in `1..len` coprime to the length, the generator sequences
/// of stacked `k`-steps whose closing `k`-step differs from all the generators.
pub fn guided_gs_list(scale: &[Letter]) -> (r: Vec<Vec<CountVector<Letter>>>)
    requires
        1 <= scale@.len() < i32::MAX,
        scale@.len() * scale@.len() <= usize::MAX,
    ensures
        word_models(r@) == gs_lists_upto(scale@, scale@.len() - 1),
{
    gs_lists_upto_exec(scale, scale.len() - 1)
}

/// All guided generator sequences of length `gs_length` with step classes up to half the scale size.
pub fn guided_gs_list_of_len(gs_length: usize, scale: &[Letter]) -> (r: Vec<Vec<CountVector<Letter>>>)
    requires
        scale@.len() < i32::MAX,
        scale@.len() * scale@.len() <= usize::MAX,
    ensures
        word_models(r@) == gs_lists_upto(scale@, (scale@.len() / 2) as int).filter(|v: Seq<Seq<(Letter, i32)>>| v.len() == gs_length),
{
    let all = gs_lists_upto_exec(scale, scale.len() / 2);
    let ghost am = word_models(all@);
    let mut r: Vec<Vec<CountVector<Letter>>> = Vec::new();
    let mut j: usize = 0;
    while j < all.len()
        invariant
            j <= all@.len(),
            am == word_models(all@),
            word_models(r@) == am.subrange(0, j as int).filter(|v: Seq<Seq<(Letter, i32)>>| v.len() == gs_length),
        decreases all@.len() - j,
    {
        let ghost prev = word_models(r@);
        proof {
            let sub = am.subrange(0, j + 1);
            assert(sub.drop_last() =~= am.subrange(0, j as int));
            am.subrange(0, j as int).lemma_filter_push(am[j as int], |v: Seq<Seq<(Letter, i32)>>| v.len() == gs_length);
            assert(sub =~= am.subrange(0, j as int).push(am[j as int]));
        }
        if all[j].len() == gs_length {
            let g = copy_gs(&all[j]);
            r.push(g);
            assert(word_models(r@) =~= prev.push(models(all@[j as int]@)));
        }
        j = j + 1;
    }
    assert(am.subrange(0, am.len() as int) =~= am);
    r
}

/// A subscale of step contents with positive counts in sorted order and a total norm within `i32`.
pub open spec fn subscale_ok(ms: Seq<Seq<(Letter, i32)>>) -> bool {
    &&& forall|i: int| 0 <= i < ms.len() ==> sorted_keys::<Letter>(#[trigger] ms[i]) && all_positive(ms[i])
    &&& total_norm(ms) <= i32::MAX
}

/// The guided generator sequences of the stacked `step_class`-steps of a subscale.
pub open spec fn spec_subscale_step_class_gses(step_class: int, ms: Seq<Seq<(Letter, i32)>>) -> Seq<Seq<Seq<(Letter, i32)>>> {
    spec_guided_gs_chains(spec_stacked_step_class::<CountVector<Letter>>(step_class, ms))
}

/// The guided generator sequences of a subscale for all step classes `1..=m` coprime to its size, in turn.
pub open spec fn subscale_gs_lists_upto(ms: Seq<Seq<(Letter, i32)>>, m: int) -> Seq<Seq<Seq<(Letter, i32)>>>
    decreases m,
{
    if m <= 0 {
        Seq::empty()
    } else if spec_gcd(m as nat, ms.len()) == 1 {
        subscale_gs_lists_upto(ms, m - 1) + spec_subscale_step_class_gses(m, ms)
    } else {
        subscale_gs_lists_upto(ms, m - 1)
    }
}

/// The guided generator sequences of a subscale: its first step alone for a two-step subscale,
/// otherwise those of step classes up to half its size.
pub open spec fn spec_subscale_gses(ms: Seq<Seq<(Letter, i32)>>) -> Seq<Seq<Seq<(Letter, i32)>>> {
    if ms.len() == 2 {
        seq![seq![ms[0]]]
    } else {
        subscale_gs_lists_upto(ms, (ms.len() / 2) as int)
    }
}

/// The guided generator sequences that use `step_class`-steps in a subscale.
fn step_class_guided_gs_list_for_subscale(step_class: usize, subscale: &[CountVector<Letter>]) -> (r: Vec<Vec<CountVector<Letter>>>)
    requires
        1 <= step_class < subscale@.len(),
        subscale_ok(models(subscale@)),
        step_class * subscale@.len() <= usize::MAX,
    ensures
        word_models(r@) == spec_subscale_step_class_gses(step_class as int, models(subscale@)),
{
    proof {
        lemma_subscale_stack_fits(step_class as int, models(subscale@));
    }
    let stack = stacked_step_class(step_class, subscale);
    assert(models(stack@).len() == stack@.len());
    guided_gs_chains(&stack)
}

/// All guided generator sequences of a subscale given as step contents.
fn guided_gs_list_for_subscale(subscale: &[CountVector<Letter>]) -> (r: Vec<Vec<CountVector<Letter>>>)
    requires
        subscale_ok(models(subscale@)),
        subscale@.len() < i32::MAX,
        subscale@.len() * subscale@.len() <= usize::MAX,
    ensures
        word_models(r@) == spec_subscale_gses(models(subscale@)),
{
    let len = subscale.len();
    let ghost ms = models(subscale@);
    let mut r: Vec<Vec<CountVector<Letter>>> = Vec::new();
    if len == 2 {
        let mut one: Vec<CountVector<Letter>> = Vec::new();
        one.push(subscale[0].clone());
        r.push(one);
        assert(models(one@) =~= seq![ms[0]]);
        assert(word_models(r@) =~= seq![seq![ms[0]]]);
        return r;
    }
    let m = len / 2;
    let mut step_class: usize = 1;
    while step_class <= m
        invariant
            1 <= step_class <= m + 1,
            m == len / 2,
            len == subscale@.len(),
            ms == models(subscale@),
            subscale_ok(ms),
            len < i32::MAX,
            len * len <= usize::MAX,
            word_models(r@) == subscale_gs_lists_upto(ms, step_class - 1),
        decreases m + 1 - step_class,
    {
        assert(step_class * len <= len * len) by (nonlinear_arith)
            requires
                step_class <= len,
        ;
        if gcd(step_class as u32, len as u32) == 1 {
            let more = step_class_guided_gs_list_for_subscale(step_class, subscale);
            let ghost before = word_models(r@);
            let mut j: usize = 0;
            while j < more.len()
                invariant
                    j <= more@.len(),
                    word_models(r@) == before + word_models(more@).subrange(0, j as int),
                decreases more@.len() - j,
            {
                let g = copy_gs(&more[j]);
                let ghost prev = word_models(r@);
                r.push(g);
                assert(word_models(r@) =~= prev.push(models(more@[j as int]@)));
                assert(word_models(more@).subrange(0, j + 1) =~= word_models(more@).subrange(0, j as int).push(models(more@[j as int]@)));
                j = j + 1;
            }
            assert(word_models(more@).subrange(0, more@.len() as int) =~= word_models(more@));
        }
        step_class = step_class + 1;
    }
    r
}

/// A guide frame: a guided generator sequence `gs` whose stacking gives a detempered MOS subscale,
/// with the offsets of the copies of that subscale (the offset chord, whose first entry is the unison).
/// The multiplicity is the size of the offset chord.
#[derive(Debug, Hash, PartialEq, Eq, PartialOrd, Ord)]
pub struct GuideFrame {
    /// The generator sequence.
    pub gs: Vec<CountVector<Letter>>,
    /// The offsets of the interleaved copies, the unison included.
    pub offset_chord: Vec<CountVector<Letter>>,
}

/// The models of a guide frame's generator sequence and offset chord.
pub open spec fn frame_model(f: GuideFrame) -> (Seq<Seq<(Letter, i32)>>, Seq<Seq<(Letter, i32)>>) {
    (models(f.gs@), models(f.offset_chord@))
}

/// The generator sequences of a list of guide frames.
pub open spec fn frame_gses(fs: Seq<GuideFrame>) -> Seq<Seq<Seq<(Letter, i32)>>> {
    fs.map_values(|f: GuideFrame| models(f.gs@))
}

/// The offset chord of a simple guide frame: the unison alone.
pub open spec fn unison_chord() -> Seq<Seq<(Letter, i32)>> {
    seq![Seq::<(Letter, i32)>::empty()]
}

impl Clone for GuideFrame {
    fn clone(&self) -> (r: Self)
        ensures
            frame_model(r) == frame_model(*self),
    {
        GuideFrame { gs: copy_gs(&self.gs), offset_chord: copy_gs(&self.offset_chord) }
    }
}

fn unison_chord_exec() -> (r: Vec<CountVector<Letter>>)
    ensures
        models(r@) == unison_chord(),
{
    let mut r: Vec<CountVector<Letter>> = Vec::new();
    r.push(CountVector::zero());
    assert(models(r@) =~= unison_chord());
    r
}

impl GuideFrame {
    /// A simple guide frame (a single copy of the generator sequence).
    pub fn new_simple(gs: Vec<CountVector<Letter>>) -> (r: Self)
        ensures
            r.gs == gs,
            models(r.offset_chord@) == unison_chord(),
    {
        GuideFrame { gs, offset_chord: unison_chord_exec() }
    }

    /// An interleaved guide frame with the given offset chord.
    pub fn new_multiple(gs: Vec<CountVector<Letter>>, offset_chord: Vec<CountVector<Letter>>) -> (r: Self)
        ensures
            r.gs == gs,
            r.offset_chord == offset_chord,
    {
        GuideFrame { gs, offset_chord }
    }

    /// The complexity of a guide frame: the size of the generator sequence times the size of the offset chord.
    pub fn complexity(&self) -> (r: usize)
        requires
            self.gs@.len() * self.offset_chord@.len() <= usize::MAX,
        ensures
            r == self.gs@.len() * self.offset_chord@.len(),
    {
        self.gs.len() * self.offset_chord.len()
    }

    /// The multiplicity: the number of interleaved copies of the generator sequence.
    pub fn multiplicity(&self) -> (r: usize)
        ensures
            r == self.offset_chord@.len(),
    {
        self.offset_chord.len()
    }

    /// The simple guide frames of a scale with `step_class`-step generators, ordered by generator
    /// sequence without repetitions; none when the scale is empty or `step_class` is not coprime
    /// to its size.
    pub fn try_simple(scale: &[Letter], step_class: usize) -> (r: Vec<Self>)
        requires
            scale@.len() < i32::MAX,
            scale@.len() * scale@.len() <= usize::MAX,
            step_class <= u32::MAX,
            scale@.len() > 0 && spec_gcd(scale@.len(), step_class as nat) == 1 ==> 2 <= scale@.len() && 1 <= step_class <= scale@.len(),
        ensures
            scale@.len() == 0 || spec_gcd(scale@.len(), step_class as nat) != 1 ==> r@.len() == 0,
            scale@.len() > 0 && spec_gcd(scale@.len(), step_class as nat) == 1 ==> {
                &&& strictly_increasing::<Vec<CountVector<Letter>>>(frame_gses(r@))
                &&& forall|g: Seq<Seq<(Letter, i32)>>| frame_gses(r@).contains(g) <==> spec_step_class_gses(step_class as int, scale@).contains(g)
                &&& forall|j: int| 0 <= j < r@.len() ==> models((#[trigger] r@[j]).offset_chord@) == unison_chord()
            },
    {
        if scale.len() == 0 || gcd(scale.len() as u32, step_class as u32) != 1 {
            return Vec::new();
        }
        assert(step_class * scale@.len() <= scale@.len() * scale@.len()) by (nonlinear_arith)
            requires
                step_class <= scale@.len(),
        ;
        let gses = step_class_guided_gs_list(step_class, scale);
        let sorted = sort_dedup(&gses);
        assert(models(sorted@) =~= word_models(sorted@));
        assert(models(gses@) =~= word_models(gses@));
        frames_with_chord(&sorted, &unison_chord_exec())
    }
}

/// The guide frames with the given generator sequences, in order, all with the same offset chord.
fn frames_with_chord(gses: &Vec<Vec<CountVector<Letter>>>, chord: &Vec<CountVector<Letter>>) -> (r: Vec<GuideFrame>)
    ensures
        frame_gses(r@) == word_models(gses@),
        forall|j: int| 0 <= j < r@.len() ==> models((#[trigger] r@[j]).offset_chord@) == models(chord@),
{
    let mut r: Vec<GuideFrame> = Vec::new();
    let mut j: usize = 0;
    while j < gses.len()
        invariant
            j <= gses@.len(),
            frame_gses(r@) == word_models(gses@).subrange(0, j as int),
            forall|q: int| 0 <= q < r@.len() ==> models((#[trigger] r@[q]).offset_chord@) == models(chord@),
        decreases gses@.len() - j,
    {
        let f = GuideFrame { gs: copy_gs(&gses[j]), offset_chord: copy_gs(chord) };
        let ghost before = frame_gses(r@);
        r.push(f);
        assert(frame_gses(r@) =~= before.push(models(gses@[j as int]@)));
        assert(word_models(gses@).subrange(0, j + 1) =~= word_models(gses@).subrange(0, j as int).push(models(gses@[j as int]@)));
        j = j + 1;
    }
    assert(word_models(gses@).subrange(0, gses@.len() as int) =~= word_models(gses@));
    r
}

// ---------------------------------------------------------------------------
// Guide frames whose chains of stacked generators are disjoint
// ---------------------------------------------------------------------------

/// The first `cl` stacked `sc`-steps on the rotation of `s` by `i`.
pub open spec fn chain_at(s: Seq<Letter>, sc: int, cl: int, i: int) -> Seq<Seq<(Letter, i32)>> {
    spec_stacked_step_class::<Letter>(sc, spec_rotate(s, i)).subrange(0, cl)
}

/// The generator sequence of the chain on the rotation by `i`: the repeating prefix of all but its last generator.
pub open spec fn chain_gs(s: Seq<Letter>, sc: int, cl: int, i: int) -> Seq<Seq<(Letter, i32)>> {
    weak_pattern(chain_at(s, sc, cl, i).subrange(0, cl - 1))
}

/// The rotations, among the distinct rotations of `s`, whose chain is guided.
pub open spec fn guided_degrees(s: Seq<Letter>, sc: int, cl: int) -> Seq<int> {
    Seq::new(rotation_count(s) as nat, |i: int| i).filter(|i: int| guided_chain_ok(chain_at(s, sc, cl, i)))
}

/// The generator sequences of the guided chains, one per guided rotation.
pub open spec fn guided_gses(s: Seq<Letter>, sc: int, cl: int) -> Seq<Seq<Seq<(Letter, i32)>>> {
    guided_degrees(s, sc, cl).map_values(|i: int| chain_gs(s, sc, cl, i))
}

/// The rotations whose guided chain has the generator sequence `g`.
pub open spec fn degrees_of_gs(s: Seq<Letter>, sc: int, cl: int, g: Seq<Seq<(Letter, i32)>>) -> Seq<int> {
    guided_degrees(s, sc, cl).filter(|i: int| chain_gs(s, sc, cl, i) == g)
}

/// The degrees reached by the chains of `cl` stacked `sc`-steps starting on the degrees `ds`.
pub open spec fn chains_union(ds: Seq<int>, sc: int, cl: int, n: int) -> Seq<int>
    decreases ds.len(),
{
    if ds.len() == 0 {
        Seq::empty()
    } else {
        chains_union(ds.drop_last(), sc, cl, n) + Seq::new(cl as nat, |t: int| (ds.last() + t * sc) % n)
    }
}

/// A generator sequence makes a guide frame of multiplicity `mult` when it occurs on exactly
/// `mult` guided chains and these chains cover every degree of the scale.
pub open spec fn frame_kept(s: Seq<Letter>, mult: int, sc: int, g: Seq<Seq<(Letter, i32)>>) -> bool {
    let cl = s.len() as int / mult;
    let ds = degrees_of_gs(s, sc, cl, g);
    &&& ds.len() == mult
    &&& chains_union(ds, sc, cl, s.len() as int).to_set().len() == s.len()
}

/// The offset chord of chains starting on the degrees `ds`: the steps from the first degree to each,
/// read on the rotation by the first degree.
pub open spec fn chord_of(s: Seq<Letter>, ds: Seq<int>) -> Seq<Seq<(Letter, i32)>> {
    ds.map_values(|d: int| count_entries::<Letter>(spec_word_on_degree(spec_rotate(s, ds[0]), ds[0], d - ds[0])))
}

/// The indices as integers.
pub open spec fn int_view(v: Seq<usize>) -> Seq<int> {
    v.map_values(|x: usize| x as int)
}

/// The guide frames of multiplicity `mult` built from chains of `s.len() / mult` stacked
/// `sc`-steps on the rotations of the scale.
fn stacked_guide_frames(scale: &[Letter], mult: usize, sc: usize) -> (r: Vec<GuideFrame>)
    requires
        2 <= mult,
        scale@.len() as int % mult as int == 0,
        scale@.len() as int / mult as int >= 2,
        1 <= sc <= scale@.len(),
        scale@.len() < i32::MAX,
        4 * scale@.len() * scale@.len() <= usize::MAX,
    ensures
        strictly_increasing::<Vec<CountVector<Letter>>>(frame_gses(r@)),
        forall|g: Seq<Seq<(Letter, i32)>>| frame_gses(r@).contains(g) <==> (
            guided_gses(scale@, sc as int, scale@.len() as int / mult as int).contains(g) && frame_kept(scale@, mult as int, sc as int, g)),
        forall|j: int| 0 <= j < r@.len() ==> models((#[trigger] r@[j]).offset_chord@) == chord_of(
            scale@,
            degrees_of_gs(scale@, sc as int, scale@.len() as int / mult as int, models(r@[j].gs@)),
        ),
{
    let n = scale.len();
    let cl = n / mult;
    let ghost s = scale@;
    let ghost sci = sc as int;
    let ghost cli = cl as int;
    proof {
        lemma_models_usize(scale@);
        assert(cl <= n) by (nonlinear_arith)
            requires
                cl == n / mult,
                mult >= 2,
        ;
        assert(sc * n <= n * n) by (nonlinear_arith)
            requires
                sc <= n,
        ;
    }
    let rots = rotations(scale);
    proof {
        lemma_spec_rotations(models(scale@), rots@.len() as int);
    }
    let p = rots.len();
    // the guided chains, with their degrees and generator sequences
    let mut ok_idx: Vec<usize> = Vec::new();
    let mut ok_gs: Vec<Vec<CountVector<Letter>>> = Vec::new();
    let mut i: usize = 0;
    while i < p
        invariant
            i <= p,
            p == rots@.len(),
            p == rotation_count(s),
            p <= n,
            n == s.len(),
            s == scale@,
            cl == n / mult,
            2 <= cl <= n,
            1 <= sc <= n,
            n < i32::MAX,
            sc * n <= n * n,
            4 * n * n <= usize::MAX,
            sci == sc,
            cli == cl,
            forall|j: int| 0 <= j < rots@.len() ==> models(#[trigger] rots@[j]@) == spec_rotate(models(scale@), j),
            int_view(ok_idx@) == Seq::new(i as nat, |k: int| k).filter(|k: int| guided_chain_ok(chain_at(s, sci, cli, k))),
            ok_gs@.len() == ok_idx@.len(),
            forall|q: int| 0 <= q < ok_idx@.len() ==> models(#[trigger] ok_gs@[q]@) == chain_gs(s, sci, cli, ok_idx@[q] as int),
            forall|a: int, b: int| 0 <= a < b < ok_idx@.len() ==> ok_idx@[a] < ok_idx@[b],
            forall|a: int| 0 <= a < ok_idx@.len() ==> ok_idx@[a] < i,
        decreases p - i,
    {
        let mode = &rots[i];
        proof {
            lemma_models_usize(mode@);
            lemma_rotate_len(s, i as int);
            assert(models(rots@[i as int]@) == spec_rotate(s, i as int));
            assert(mode@ == spec_rotate(s, i as int));
            lemma_letter_stack_fits(sc as int, mode@);
            assert(sc * mode@.len() <= n * n);
            assert(n * n <= 4 * n * n) by (nonlinear_arith);
        }
        let st = stacked_step_class(sc, mode);
        let ghost ch = chain_at(s, sci, cli, i as int);
        assert(models(st@).len() == st@.len());
        let head = prefix(&st, cl - 1);
        let last = &st[cl - 1];
        assert(models(head@) == ch.subrange(0, cli - 1)) by {
            assert(ch.subrange(0, cli - 1) =~= models(st@).subrange(0, cli - 1));
        }
        assert(last.model() == ch.last());
        let ghost before = Seq::new(i as nat, |k: int| k);
        assert(Seq::new((i + 1) as nat, |k: int| k) =~= before.push(i as int));
        proof {
            before.lemma_filter_push(i as int, |k: int| guided_chain_ok(chain_at(s, sci, cli, k)));
        }
        if !contains_symbol(&head, last) {
            let gs = weak_period_pattern(&head);
            proof {
                lemma_weak_pattern(models(head@), gs@.len() as int);
            }
            let ghost oi = int_view(ok_idx@);
            ok_idx.push(i);
            ok_gs.push(gs);
            assert(int_view(ok_idx@) =~= oi.push(i as int));
        }
        i = i + 1;
    }
    let gses = sort_dedup(&ok_gs);
    assert(models(gses@) =~= word_models(gses@));
    assert(models(ok_gs@) =~= word_models(ok_gs@));
    let ghost gd = guided_degrees(s, sci, cli);
    assert(int_view(ok_idx@) == gd);
    assert(word_models(ok_gs@) =~= guided_gses(s, sci, cli)) by {
        assert forall|q: int| 0 <= q < ok_gs@.len() implies #[trigger] word_models(ok_gs@)[q] == guided_gses(s, sci, cli)[q] by {
            assert(int_view(ok_idx@)[q] == ok_idx@[q] as int);
        }
    }
    let mut r: Vec<GuideFrame> = Vec::new();
    let ghost mut kept_src: Seq<int> = Seq::empty();
    let mut j: usize = 0;
    while j < gses.len()
        invariant
            j <= gses@.len(),
            p <= n,
            p == rotation_count(s),
            n == s.len(),
            s == scale@,
            cl == n / mult,
            2 <= cl <= n,
            2 <= mult,
            1 <= sc <= n,
            n < i32::MAX,
            4 * n * n <= usize::MAX,
            sci == sc,
            cli == cl,
            gd == guided_degrees(s, sci, cli),
            int_view(ok_idx@) == gd,
            word_models(ok_gs@) == guided_gses(s, sci, cli),
            ok_gs@.len() == ok_idx@.len(),
            forall|q: int| 0 <= q < ok_idx@.len() ==> models(#[trigger] ok_gs@[q]@) == chain_gs(s, sci, cli, ok_idx@[q] as int),
            forall|a: int, b: int| 0 <= a < b < ok_idx@.len() ==> ok_idx@[a] < ok_idx@[b],
            forall|a: int| 0 <= a < ok_idx@.len() ==> ok_idx@[a] < p,
            strictly_increasing::<Vec<CountVector<Letter>>>(word_models(gses@)),
            forall|g: Seq<Seq<(Letter, i32)>>| word_models(gses@).contains(g) <==> word_models(ok_gs@).contains(g),
            kept_src.len() == r@.len(),
            forall|a: int, b: int| 0 <= a < b < kept_src.len() ==> kept_src[a] < kept_src[b],
            forall|a: int| 0 <= a < kept_src.len() ==> 0 <= #[trigger] kept_src[a] < j,
            forall|a: int| 0 <= a < kept_src.len() ==> frame_gses(r@)[a] == word_models(gses@)[#[trigger] kept_src[a]],
            forall|q: int| 0 <= q < j ==> (frame_kept(scale@, mult as int, sci, #[trigger] word_models(gses@)[q]) <==> exists|a: int| 0 <= a < kept_src.len() && kept_src[a] == q),
            forall|a: int| 0 <= a < r@.len() ==> models((#[trigger] r@[a]).offset_chord@) == chord_of(s, degrees_of_gs(s, sci, cli, models(r@[a].gs@))),
        decreases gses@.len() - j,
    {
        let gs = &gses[j];
        let ghost g = models(gs@);
        assert(g == word_models(gses@)[j as int]);
        // the degrees on which this generator sequence occurs
        let mut indices: Vec<usize> = Vec::new();
        let mut t: usize = 0;
        while t < ok_idx.len()
            invariant
                t <= ok_idx@.len(),
                ok_gs@.len() == ok_idx@.len(),
                g == models(gs@),
                forall|q: int| 0 <= q < ok_idx@.len() ==> models(#[trigger] ok_gs@[q]@) == chain_gs(s, sci, cli, ok_idx@[q] as int),
                forall|a: int, b: int| 0 <= a < b < ok_idx@.len() ==> ok_idx@[a] < ok_idx@[b],
                int_view(indices@) == int_view(ok_idx@).subrange(0, t as int).filter(|k: int| chain_gs(s, sci, cli, k) == g),
                forall|a: int| 0 <= a < indices@.len() ==> exists|q: int| 0 <= q < t && #[trigger] indices@[a] == ok_idx@[q],
                forall|a: int, b: int| 0 <= a < b < indices@.len() ==> indices@[a] < indices@[b],
            decreases ok_idx@.len() - t,
        {
            let ghost oiv = int_view(ok_idx@);
            assert(oiv.subrange(0, t + 1) =~= oiv.subrange(0, t as int).push(oiv[t as int]));
            proof {
                oiv.subrange(0, t as int).lemma_filter_push(oiv[t as int], |k: int| chain_gs(s, sci, cli, k) == g);
            }
            let same = match ok_gs[t].compare(gs) {
                Trichotomy::Equal => true,
                _ => false,
            };
            if same {
                let ghost iv = int_view(indices@);
                proof {
                    assert forall|a: int| 0 <= a < indices@.len() implies indices@[a] < ok_idx@[t as int] by {
                        let q = choose|q: int| 0 <= q < t && #[trigger] indices@[a] == ok_idx@[q];
                    }
                }
                indices.push(ok_idx[t]);
                assert(int_view(indices@) =~= iv.push(oiv[t as int]));
                proof {
                    assert forall|a: int| 0 <= a < indices@.len() implies exists|q: int| 0 <= q < t + 1 && #[trigger] indices@[a] == ok_idx@[q] by {
                        if a == indices@.len() - 1 {
                            assert(indices@[a] == ok_idx@[t as int]);
                        } else {
                            let q = choose|q: int| 0 <= q < t && #[trigger] indices@[a] == ok_idx@[q];
                        }
                    }
                }
            }
            t = t + 1;
        }
        assert(int_view(ok_idx@).subrange(0, ok_idx@.len() as int) =~= int_view(ok_idx@));
        let ghost ds = degrees_of_gs(s, sci, cli, g);
        assert(int_view(indices@) == ds);
        // the degrees covered by the chains
        let mut u: Vec<usize> = Vec::new();
        let mut a: usize = 0;
        while a < indices.len()
            invariant
                a <= indices@.len(),
                int_view(indices@) == ds,
                forall|b: int| 0 <= b < indices@.len() ==> indices@[b] < p,
                p <= n,
                2 <= cl <= n,
                1 <= sc <= n,
                4 * n * n <= usize::MAX,
                n > 0,
                int_view(u@) == chains_union(ds.subrange(0, a as int), sci, cli, n as int),
                sci == sc,
                cli == cl,
            decreases indices@.len() - a,
        {
            let first = indices[a];
            let ghost base = int_view(u@);
            let mut tt: usize = 0;
            while tt < cl
                invariant
                    tt <= cl,
                    first < n,
                    2 <= cl <= n,
                    1 <= sc <= n,
                    n > 0,
                    sci == sc,
                    cli == cl,
                    4 * n * n <= usize::MAX,
                    int_view(u@) == base + Seq::new(tt as nat, |t: int| (first + t * sci) % (n as int)),
                decreases cl - tt,
            {
                assert(tt * sc <= n * n) by (nonlinear_arith)
                    requires
                        tt <= n,
                        sc <= n,
                ;
                assert(first + n * n <= 4 * n * n) by (nonlinear_arith)
                    requires
                        first < n,
                        n > 0,
                ;
                let x = (first + tt * sc) % n;
                let ghost prev = int_view(u@);
                u.push(x);
                proof {
                    assert(int_view(u@) =~= prev.push(x as int));
                    assert(x as int == (first + tt * sci) % (n as int));
                    let f = |t: int| (first + t * sci) % (n as int);
                    assert(Seq::new((tt + 1) as nat, f) =~= Seq::new(tt as nat, f).push(f(tt as int)));
                    assert(base + Seq::new((tt + 1) as nat, f) =~= (base + Seq::new(tt as nat, f)).push(f(tt as int)));
                }
                assert(int_view(u@) =~= base + Seq::new((tt + 1) as nat, |t: int| (first + t * sci) % (n as int)));
                tt = tt + 1;
            }
            assert(ds.subrange(0, a + 1).drop_last() =~= ds.subrange(0, a as int));
            assert(ds.subrange(0, a + 1).last() == first as int);
            a = a + 1;
        }
        assert(ds.subrange(0, indices@.len() as int) =~= ds);
        let covered = sort_dedup(&u);
        proof {
            lemma_models_usize(covered@);
            lemma_models_usize(u@);
            assert(covered@.no_duplicates()) by {
                assert forall|x: int, y: int| 0 <= x < covered@.len() && 0 <= y < covered@.len() && x != y implies covered@[x] != covered@[y] by {
                    if x < y {
                        assert(usize::model_lt(models(covered@)[x], models(covered@)[y]));
                    } else {
                        assert(usize::model_lt(models(covered@)[y], models(covered@)[x]));
                    }
                }
            }
            covered@.unique_seq_to_set();
            assert(covered@.to_set() =~= u@.to_set());
        }
        let disjoint = covered.len() == n;
        proof {
            lemma_int_view_set_len(u@);
        }
        let ghost kept = frame_kept(scale@, mult as int, sci, g);
        assert(kept == (disjoint && indices@.len() == mult));
        if disjoint && indices.len() == mult {
            let first_deg = indices[0];
            let rot = rotate(scale, first_deg);
            proof {
                lemma_models_usize(rot@);
            }
            let mut chord: Vec<CountVector<Letter>> = Vec::new();
            let mut b: usize = 0;
            while b < indices.len()
                invariant
                    b <= indices@.len(),
                    indices@.len() >= 1,
                    first_deg == indices@[0],
                    forall|x: int, y: int| 0 <= x < y < indices@.len() ==> indices@[x] < indices@[y],
                    forall|x: int| 0 <= x < indices@.len() ==> indices@[x] < p,
                    p <= n,
                    n < i32::MAX,
                    rot@ == spec_rotate(s, first_deg as int),
                    rot@.len() == n,
                    int_view(indices@) == ds,
                    models(chord@) == chord_of(s, ds).subrange(0, b as int),
                decreases indices@.len() - b,
            {
                let deg = indices[b];
                assert(first_deg <= deg) by {
                    if b > 0 {
                        assert(indices@[0] < indices@[b as int]);
                    }
                }
                let dy = dyad_on_degree(&rot, first_deg, deg - first_deg);
                proof {
                    lemma_models_usize(rot@);
                    assert(ds[b as int] == deg as int);
                    assert(ds[0] == first_deg as int);
                    assert(chord_of(s, ds)[b as int] == dy@);
                }
                let ghost before = models(chord@);
                proof {
                    lemma_models_push(chord@, dy);
                }
                chord.push(dy);
                assert(models(chord@) =~= chord_of(s, ds).subrange(0, b + 1));
                b = b + 1;
            }
            assert(chord_of(s, ds).subrange(0, indices@.len() as int) =~= chord_of(s, ds));
            let f = GuideFrame { gs: copy_gs(gs), offset_chord: chord };
            let ghost before = frame_gses(r@);
            r.push(f);
            proof {
                let old_src = kept_src;
                kept_src = kept_src.push(j as int);
                assert(frame_gses(r@) =~= before.push(g));
                assert forall|q: int| 0 <= q < j implies (frame_kept(scale@, mult as int, sci, #[trigger] word_models(gses@)[q]) <==> exists|a: int| 0 <= a < kept_src.len() && kept_src[a] == q) by {
                    if frame_kept(scale@, mult as int, sci, word_models(gses@)[q]) {
                        let a = choose|a: int| 0 <= a < old_src.len() && old_src[a] == q;
                        assert(kept_src[a] == q);
                    }
                    if exists|a: int| 0 <= a < kept_src.len() && kept_src[a] == q {
                        let a = choose|a: int| 0 <= a < kept_src.len() && kept_src[a] == q;
                        assert(a < old_src.len());
                        assert(old_src[a] == q);
                    }
                }
                assert(kept_src[kept_src.len() - 1] == j);
            }
        } else {
            proof {
                assert(!frame_kept(scale@, mult as int, sci, word_models(gses@)[j as int]));
                assert forall|a: int| 0 <= a < kept_src.len() implies kept_src[a] != j by {
                    assert(kept_src[a] < j);
                }
            }
        }
        j = j + 1;
    }
    proof {
        let fg = frame_gses(r@);
        let wg = word_models(gses@);
        assert forall|x: int, y: int| 0 <= x < y < fg.len() implies Vec::<CountVector<Letter>>::model_lt(#[trigger] fg[x], #[trigger] fg[y]) by {
            assert(fg[x] == wg[kept_src[x]]);
            assert(fg[y] == wg[kept_src[y]]);
        }
        assert forall|g: Seq<Seq<(Letter, i32)>>| fg.contains(g) <==> (
            guided_gses(s, sci, cli).contains(g) && frame_kept(s, mult as int, sci, g)) by {
            if fg.contains(g) {
                let x = choose|x: int| 0 <= x < fg.len() && fg[x] == g;
                assert(wg[kept_src[x]] == g);
                assert(wg.contains(g));
                assert(frame_kept(s, mult as int, sci, wg[kept_src[x]]));
            }
            if guided_gses(s, sci, cli).contains(g) && frame_kept(s, mult as int, sci, g) {
                assert(wg.contains(g));
                let q = choose|q: int| 0 <= q < wg.len() && wg[q] == g;
                assert(frame_kept(s, mult as int, sci, wg[q]));
                let a = choose|a: int| 0 <= a < kept_src.len() && kept_src[a] == q;
                assert(fg[a] == g);
            }
        }
    }
    r
}

proof fn lemma_int_view_set_len(v: Seq<usize>)
    ensures
        int_view(v).to_set().len() == v.to_set().len(),
{
    let f = |x: usize| x as int;
    vstd::seq_lib::seq_to_set_is_finite(v);
    assert forall|y: int| #[trigger] v.to_set().map(f).contains(y) <==> int_view(v).to_set().contains(y) by {
        if v.to_set().map(f).contains(y) {
            let x = choose|x: usize| v.to_set().contains(x) && f(x) == y;
            assert(v.contains(x));
            let i = choose|i: int| 0 <= i < v.len() && v[i] == x;
            assert(int_view(v)[i] == y);
            assert(int_view(v).contains(y));
        }
        if int_view(v).to_set().contains(y) {
            assert(int_view(v).contains(y));
            let i = choose|i: int| 0 <= i < int_view(v).len() && int_view(v)[i] == y;
            assert(v.contains(v[i]));
            assert(v.to_set().contains(v[i]) && f(v[i]) == y);
        }
    }
    assert(v.to_set().map(f) =~= int_view(v).to_set());
    vstd::set_lib::lemma_map_size(v.to_set(), int_view(v).to_set(), f);
}

// ---------------------------------------------------------------------------
// Interleaved guide frames
// ---------------------------------------------------------------------------

/// The subscale on degree `d`: the stacked `g`-steps of the rotation by `d`, `s.len() / g` of them.
pub open spec fn subscale_at(s: Seq<Letter>, g: int, d: int) -> Seq<Seq<(Letter, i32)>> {
    spec_stacked_step_class::<Letter>(g, spec_rotate(s, d)).subrange(0, s.len() as int / g)
}

/// `o` is the least offset at which `sub`, rotated, equals `root`.
pub open spec fn is_least_offset(root: Seq<Seq<(Letter, i32)>>, sub: Seq<Seq<(Letter, i32)>>, o: int) -> bool {
    &&& 0 <= o < sub.len()
    &&& spec_rotate(sub, o) == root
    &&& forall|j: int| 0 <= j < o ==> spec_rotate(sub, j) != root
}

/// The least offset at which `sub`, rotated, equals `root`.
pub open spec fn least_offset(root: Seq<Seq<(Letter, i32)>>, sub: Seq<Seq<(Letter, i32)>>) -> int {
    choose|o: int| is_least_offset(root, sub, o)
}

/// Some rotation of `sub` equals `root`.
pub open spec fn has_offset(root: Seq<Seq<(Letter, i32)>>, sub: Seq<Seq<(Letter, i32)>>) -> bool {
    exists|o: int| is_least_offset(root, sub, o)
}

/// Every subscale on the degrees `0..g` is a rotation of the subscale on degree 0.
pub open spec fn subscales_align(s: Seq<Letter>, g: int) -> bool {
    forall|d: int| 0 <= d < g ==> has_offset(subscale_at(s, g, 0), #[trigger] subscale_at(s, g, d))
}

/// The offsets of the interleaved subscales: for the subscale on degree `d`, the step content
/// of the word from degree 0 to where that subscale's copy of the root begins.
pub open spec fn interleave_offsets(s: Seq<Letter>, g: int) -> Seq<Seq<(Letter, i32)>> {
    Seq::new(g as nat, |d: int| count_entries::<Letter>(spec_word_on_degree(
        s, 0, least_offset(subscale_at(s, g, 0), subscale_at(s, g, d)) * g + d)))
}

/// `x` inserted into `sorted` after every entry whose norm is at most that of `x`.
pub open spec fn insert_by_norm(sorted: Seq<Seq<(Letter, i32)>>, x: Seq<(Letter, i32)>) -> Seq<Seq<(Letter, i32)>>
    decreases sorted.len(),
{
    if sorted.len() == 0 {
        seq![x]
    } else if entries_norm(sorted.last()) <= entries_norm(x) {
        sorted.push(x)
    } else {
        insert_by_norm(sorted.drop_last(), x).push(sorted.last())
    }
}

/// The stable sort by norm.
pub open spec fn sort_by_norm(s: Seq<Seq<(Letter, i32)>>) -> Seq<Seq<(Letter, i32)>>
    decreases s.len(),
{
    if s.len() == 0 {
        Seq::empty()
    } else {
        insert_by_norm(sort_by_norm(s.drop_last()), s.last())
    }
}

proof fn lemma_insert_by_norm_at(v: Seq<Seq<(Letter, i32)>>, x: Seq<(Letter, i32)>, p: int)
    requires
        0 <= p <= v.len(),
        forall|q: int| p <= q < v.len() ==> entries_norm(#[trigger] v[q]) > entries_norm(x),
        p > 0 ==> entries_norm(v[p - 1]) <= entries_norm(x),
    ensures
        insert_by_norm(v, x) == v.subrange(0, p).push(x) + v.subrange(p, v.len() as int),
    decreases v.len(),
{
    if v.len() == 0 {
        assert(v.subrange(0, p).push(x) + v.subrange(p, v.len() as int) =~= seq![x]);
    } else if p == v.len() {
        assert(v.subrange(0, p) =~= v);
        assert(v.subrange(0, p).push(x) + v.subrange(p, v.len() as int) =~= v.push(x));
    } else {
        let w = v.drop_last();
        lemma_insert_by_norm_at(w, x, p);
        assert(w.subrange(0, p) =~= v.subrange(0, p));
        assert(v.subrange(0, p).push(x) + v.subrange(p, v.len() as int) =~= (w.subrange(0, p).push(x) + w.subrange(p, w.len() as int)).push(v.last()));
    }
}

/// The offsets sorted by norm, keeping the order of equal norms.
fn sort_offsets_by_norm(offsets: &Vec<CountVector<Letter>>) -> (r: Vec<CountVector<Letter>>)
    requires
        forall|q: int| 0 <= q < offsets@.len() ==> entries_norm(#[trigger] offsets@[q]@) <= usize::MAX,
        forall|q: int| 0 <= q < offsets@.len() ==> entries_norm(#[trigger] offsets@[q]@) >= 0,
    ensures
        models(r@) == sort_by_norm(models(offsets@)),
{
    let ghost ms = models(offsets@);
    let mut r: Vec<CountVector<Letter>> = Vec::new();
    let mut i: usize = 0;
    while i < offsets.len()
        invariant
            i <= offsets@.len(),
            ms == models(offsets@),
            forall|q: int| 0 <= q < offsets@.len() ==> entries_norm(#[trigger] offsets@[q]@) <= usize::MAX,
            models(r@) == sort_by_norm(ms.subrange(0, i as int)),
            forall|q: int| 0 <= q < r@.len() ==> entries_norm(#[trigger] r@[q]@) <= usize::MAX,
        decreases offsets@.len() - i,
    {
        let x = offsets[i].clone();
        let key = x.len();
        let ghost rm = models(r@);
        let mut p: usize = r.len();
        let mut scanning = true;
        while scanning && p > 0
            invariant
                p <= r@.len(),
                rm == models(r@),
                key == entries_norm(x@),
                forall|q: int| 0 <= q < r@.len() ==> entries_norm(#[trigger] r@[q]@) <= usize::MAX,
                forall|q: int| p <= q < r@.len() ==> entries_norm(#[trigger] rm[q]) > key,
                !scanning ==> p > 0 && entries_norm(rm[p - 1]) <= key,
            decreases p + if scanning { 1int } else { 0int },
        {
            if r[p - 1].len() > key {
                p = p - 1;
            } else {
                scanning = false;
            }
        }
        proof {
            if p > 0 {
                assert(entries_norm(rm[p - 1]) <= key);
            }
            lemma_insert_by_norm_at(rm, x@, p as int);
            assert(ms.subrange(0, i + 1).drop_last() =~= ms.subrange(0, i as int));
            assert(ms.subrange(0, i + 1).last() == x@);
        }
        r.insert(p, x);
        proof {
            assert(models(r@) =~= rm.subrange(0, p as int).push(x@) + rm.subrange(p as int, rm.len() as int));
        }
        i = i + 1;
    }
    assert(ms.subrange(0, offsets@.len() as int) =~= ms);
    r
}

/// Every stack entry is the step content of a word: its keys are sorted and its counts positive,
/// and its norm is the length of the word.
proof fn lemma_letter_stack_entries(sc: int, w: Seq<Letter>, i: int)
    requires
        0 < sc <= w.len() < i32::MAX,
        0 <= i < w.len(),
    ensures
        sorted_keys::<Letter>(spec_stacked_step_class::<Letter>(sc, w)[i]),
        all_positive(spec_stacked_step_class::<Letter>(sc, w)[i]),
        entries_norm(spec_stacked_step_class::<Letter>(sc, w)[i]) == sc,
{
    let x = spec_word_on_degree(w, sc * i, sc);
    lemma_rotate_len(w, sc * i);
    lemma_count_entries::<Letter>(x);
    lemma_count_entries_norm::<Letter>(x);
}

/// A list of entry lists, each of norm at most `c`, has total norm at most `len * c`.
proof fn lemma_total_norm_bound(ms: Seq<Seq<(Letter, i32)>>, c: int)
    requires
        forall|i: int| 0 <= i < ms.len() ==> entries_norm(#[trigger] ms[i]) <= c,
    ensures
        total_norm(ms) <= ms.len() * c,
    decreases ms.len(),
{
    if ms.len() > 0 {
        let p = ms.drop_last();
        assert forall|i: int| 0 <= i < p.len() implies entries_norm(#[trigger] p[i]) <= c by {
            assert(p[i] == ms[i]);
        }
        lemma_total_norm_bound(p, c);
        assert(p.len() * c + c == ms.len() * c) by (nonlinear_arith)
            requires
                p.len() + 1 == ms.len(),
        ;
    }
}

/// The degree at which an aligned subscale's copy of the root begins lies inside the scale.
proof fn lemma_offset_in_scale(s: Seq<Letter>, g: int, q: int, root: Seq<Seq<(Letter, i32)>>)
    requires
        2 <= g <= s.len(),
        (s.len() as int) % g == 0,
        0 <= q < g,
        has_offset(root, subscale_at(s, g, q)),
    ensures
        0 <= least_offset(root, subscale_at(s, g, q)) * g + q < s.len(),
{
    let sub = subscale_at(s, g, q);
    let lo = least_offset(root, sub);
    let n = s.len() as int;
    let m = n / g;
    assert(is_least_offset(root, sub, lo));
    lemma_rotate_len(s, q);
    assert(m <= n) by {
        vstd::arithmetic::div_mod::lemma_div_is_ordered_by_denominator(n, 1, g);
    }
    assert(sub.len() == m);
    vstd::arithmetic::div_mod::lemma_fundamental_div_mod(n, g);
    assert(lo * g + q < n) by (nonlinear_arith)
        requires
            0 <= lo < m,
            0 <= q < g,
            m * g == n,
    ;
    assert(lo * g >= 0) by (nonlinear_arith)
        requires
            0 <= lo,
            g >= 2,
    ;
}

/// The interleaved guide frames of a scale made of `g` copies of a subscale of stacked `g`-steps.
#[verifier::spinoff_prover]
#[verifier::rlimit(50)]
fn interleaved_guide_frames(scale: &[Letter], g: usize) -> (r: Vec<GuideFrame>)
    requires
        2 <= g <= scale@.len(),
        scale@.len() as int % g as int == 0,
        scale@.len() < i32::MAX,
        4 * scale@.len() * scale@.len() <= usize::MAX,
    ensures
        !subscales_align(scale@, g as int) ==> r@.len() == 0,
        subscales_align(scale@, g as int) ==> {
            &&& strictly_increasing::<Vec<CountVector<Letter>>>(frame_gses(r@))
            &&& forall|x: Seq<Seq<(Letter, i32)>>| frame_gses(r@).contains(x) <==> spec_subscale_gses(subscale_at(scale@, g as int, 0)).contains(x)
            &&& forall|j: int| 0 <= j < r@.len() ==> models((#[trigger] r@[j]).offset_chord@) == sort_by_norm(interleave_offsets(scale@, g as int))
        },
{
    let n = scale.len();
    let m = n / g;
    let ghost s = scale@;
    let ghost gi = g as int;
    proof {
        lemma_models_usize(scale@);
        assert(m * g == n) by (nonlinear_arith)
            requires
                m == n / g,
                n % g == 0,
                g > 0,
        ;
        assert(1 <= m <= n) by (nonlinear_arith)
            requires
                m * g == n,
                g >= 2,
                n >= 2,
        ;
        assert(g * n <= n * n) by (nonlinear_arith)
            requires
                g <= n,
        ;
        assert(n * n <= 4 * n * n) by (nonlinear_arith);
    }
    let mut subscales: Vec<Vec<CountVector<Letter>>> = Vec::new();
    let mut d: usize = 0;
    while d < g
        invariant
            d <= g,
            2 <= g <= n,
            m == n / g,
            m * g == n,
            1 <= m <= n,
            n == s.len(),
            s == scale@,
            gi == g,
            n < i32::MAX,
            g * n <= usize::MAX,
            subscales@.len() == d,
            forall|e: int| 0 <= e < d ==> models(#[trigger] subscales@[e]@) == subscale_at(s, gi, e),
        decreases g - d,
    {
        let rotation = rotate(scale, d);
        proof {
            lemma_models_usize(rotation@);
            lemma_letter_stack_fits(gi, rotation@);
        }
        let st = stacked_step_class(g, &rotation);
        assert(models(st@).len() == st@.len());
        let sub = prefix(&st, m);
        proof {
            assert(rotation@ == spec_rotate(s, d as int));
            assert(models(sub@) =~= subscale_at(s, gi, d as int));
        }
        let ghost before = subscales@;
        subscales.push(sub);
        proof {
            assert forall|e: int| 0 <= e < d + 1 implies models(#[trigger] subscales@[e]@) == subscale_at(s, gi, e) by {
                if e < d {
                    assert(subscales@[e] == before[e]);
                }
            }
        }
        d = d + 1;
    }
    let root = copy_gs(&subscales[0]);
    let ghost rootm = subscale_at(s, gi, 0);
    // the offsets of the subscales
    let mut offsets: Vec<CountVector<Letter>> = Vec::new();
    let mut i: usize = 0;
    while i < g
        invariant
            i <= g,
            2 <= g <= n,
            m == n / g,
            m * g == n,
            n == s.len(),
            s == scale@,
            gi == g,
            n < i32::MAX,
            subscales@.len() == g,
            forall|e: int| 0 <= e < g ==> models(#[trigger] subscales@[e]@) == subscale_at(s, gi, e),
            models(root@) == rootm,
            rootm == subscale_at(s, gi, 0),
            models(scale@) == s,
            offsets@.len() == i,
            forall|e: int| 0 <= e < i ==> has_offset(rootm, #[trigger] subscale_at(s, gi, e)),
            models(offsets@) == interleave_offsets(s, gi).subrange(0, i as int),
        decreases g - i,
    {
        match offset_vec(&root, &subscales[i]) {
            Some(o) => {
                let ghost sub = subscale_at(s, gi, i as int);
                assert(is_least_offset(rootm, sub, o as int));
                proof {
                    let lo = least_offset(rootm, sub);
                    assert(is_least_offset(rootm, sub, lo));
                    if lo < o {
                        assert(spec_rotate(sub, lo) != rootm);
                    } else if o < lo {
                        assert(spec_rotate(sub, o as int) != rootm);
                    }
                    assert(sub.len() == m);
                    assert(least_offset(rootm, sub) == o as int);
                    assert(o * g + i < n) by (nonlinear_arith)
                        requires
                            o < m,
                            i < g,
                            m * g == n,
                    ;
                }
                let w = word_on_degree(scale, 0, o * g + i);
                let off = CountVector::from_slice(&w);
                proof {
                    lemma_models_push(offsets@, off);
                }
                offsets.push(off);
                assert(models(offsets@) =~= interleave_offsets(s, gi).subrange(0, i + 1));
                assert(has_offset(rootm, subscale_at(s, gi, i as int)));
            },
            None => {
                proof {
                    let sub = subscale_at(s, gi, i as int);
                    assert(!subscales_align(s, gi)) by {
                        if has_offset(rootm, sub) {
                            let o = choose|o: int| is_least_offset(rootm, sub, o);
                            assert(spec_rotate(sub, o) != rootm);
                        }
                    }
                }
                return Vec::new();
            },
        }
        i = i + 1;
    }
    assert(interleave_offsets(s, gi).subrange(0, g as int) =~= interleave_offsets(s, gi));
    assert(subscales_align(s, gi));
    proof {
        assert forall|q: int| 0 <= q < offsets@.len() implies entries_norm(#[trigger] offsets@[q]@) <= usize::MAX && entries_norm(offsets@[q]@) >= 0 by {
            assert(models(offsets@)[q] == offsets@[q]@);
            let lo = least_offset(rootm, subscale_at(s, gi, q));
            lemma_offset_in_scale(s, gi, q, rootm);
            let wq = spec_word_on_degree(s, 0, lo * gi + q);
            lemma_count_entries_norm::<Letter>(wq);
            lemma_rotate_len(s, 0);
        }
    }
    let sorted_offsets = sort_offsets_by_norm(&offsets);
    proof {
        assert forall|e: int| 0 <= e < m implies sorted_keys::<Letter>(#[trigger] rootm[e]) && all_positive(rootm[e]) && entries_norm(rootm[e]) <= gi + 1 by {
            lemma_rotate_len(s, 0);
            lemma_letter_stack_entries(gi, spec_rotate(s, 0), e);
        }
        if g < n {
            assert forall|e: int| 0 <= e < m implies entries_norm(#[trigger] rootm[e]) <= gi by {
                lemma_rotate_len(s, 0);
                lemma_letter_stack_entries(gi, spec_rotate(s, 0), e);
            }
            lemma_total_norm_bound(rootm, gi);
        } else {
            lemma_total_norm_bound(rootm, gi + 1);
            assert(m == 1) by (nonlinear_arith)
                requires
                    m * g == n,
                    g == n,
                    n > 0,
            ;
        }
        assert(root@.len() * root@.len() <= n * n) by (nonlinear_arith)
            requires
                root@.len() == m,
                m <= n,
        ;
    }
    let gses = guided_gs_list_for_subscale(&root);
    let uniq = sort_dedup(&gses);
    assert(models(uniq@) =~= word_models(uniq@));
    assert(models(gses@) =~= word_models(gses@));
    frames_with_chord(&uniq, &sorted_offsets)
}

/// The conditions under which `try_multiple` looks for frames: a multiplicity of at least 2 dividing
/// the size of a nonempty scale.
pub open spec fn multiple_applies(n: nat, mult: nat) -> bool {
    mult >= 2 && n > 0 && n % mult == 0
}

/// The scale splits into interleaved copies: the number of `sc`-steps needed to return to the
/// start, `n / gcd(sc, n)`, is not a multiple of the multiplicity.
pub open spec fn interleaved_case(n: nat, mult: nat, sc: nat) -> bool {
    (n / spec_gcd(sc, n)) % mult != 0
}

impl GuideFrame {
    /// The guide frames of multiplicity `multiplicity` with `step_class`-step generators.
    ///
    /// When `n / gcd(step_class, n)` is not a multiple of the multiplicity, the scale must be
    /// `gcd(step_class, n) == multiplicity` interleaved copies of one subscale of stacked
    /// `gcd`-steps; otherwise the frames come from chains of `n / multiplicity` stacked
    /// `step_class`-steps that cover the scale.
    pub fn try_multiple(scale: &[Letter], multiplicity: usize, step_class: usize) -> (r: Vec<Self>)
        requires
            scale@.len() < i32::MAX,
            4 * scale@.len() * scale@.len() <= usize::MAX,
            step_class <= u32::MAX,
            multiple_applies(scale@.len(), multiplicity as nat) && !interleaved_case(scale@.len(), multiplicity as nat, step_class as nat)
                && scale@.len() / (multiplicity as nat) != 1 ==> step_class <= scale@.len(),
        ensures
            !multiple_applies(scale@.len(), multiplicity as nat) ==> r@.len() == 0,
            multiple_applies(scale@.len(), multiplicity as nat) && interleaved_case(scale@.len(), multiplicity as nat, step_class as nat) ==> {
                let g = spec_gcd(step_class as nat, scale@.len()) as int;
                &&& (g != multiplicity || !subscales_align(scale@, g)) ==> r@.len() == 0
                &&& g == multiplicity && subscales_align(scale@, g) ==> {
                    &&& strictly_increasing::<Vec<CountVector<Letter>>>(frame_gses(r@))
                    &&& forall|x: Seq<Seq<(Letter, i32)>>| frame_gses(r@).contains(x) <==> spec_subscale_gses(subscale_at(scale@, g, 0)).contains(x)
                    &&& forall|j: int| 0 <= j < r@.len() ==> models((#[trigger] r@[j]).offset_chord@) == sort_by_norm(interleave_offsets(scale@, g))
                }
            },
            multiple_applies(scale@.len(), multiplicity as nat) && !interleaved_case(scale@.len(), multiplicity as nat, step_class as nat) ==> {
                let cl = scale@.len() as int / multiplicity as int;
                &&& cl == 1 ==> r@.len() == 0
                &&& cl != 1 ==> {
                    &&& strictly_increasing::<Vec<CountVector<Letter>>>(frame_gses(r@))
                    &&& forall|x: Seq<Seq<(Letter, i32)>>| frame_gses(r@).contains(x) <==> (
                        guided_gses(scale@, step_class as int, cl).contains(x) && frame_kept(scale@, multiplicity as int, step_class as int, x))
                    &&& forall|j: int| 0 <= j < r@.len() ==> models((#[trigger] r@[j]).offset_chord@) == chord_of(
                        scale@,
                        degrees_of_gs(scale@, step_class as int, cl, models(r@[j].gs@)),
                    )
                }
            },
    {
        let n = scale.len();
        if multiplicity == 1 || n == 0 || multiplicity == 0 || n % multiplicity != 0 {
            return Vec::new();
        }
        let gcd_value = gcd(step_class as u32, n as u32) as usize;
        assert(gcd_value == spec_gcd(step_class as nat, scale@.len()));
        proof {
            crate::helpers::lemma_gcd_positive(step_class as nat, n as nat);
            crate::helpers::lemma_gcd_divides(step_class as nat, n as nat);
            assert(gcd_value <= n) by (nonlinear_arith)
                requires
                    n % gcd_value == 0,
                    n > 0,
                    gcd_value > 0,
            ;
        }
        let coprime_part = n / gcd_value;
        if coprime_part % multiplicity != 0 {
            if gcd_value == multiplicity {
                interleaved_guide_frames(scale, gcd_value)
            } else {
                Vec::new()
            }
        } else {
            let chain_length = n / multiplicity;
            if chain_length == 1 {
                Vec::new()
            } else {
                proof {
                    if step_class == 0 {
                        let nn = n as nat;
                        vstd::arithmetic::div_mod::lemma_small_mod(0, nn);
                        assert(spec_gcd(nn, 0) == nn);
                        assert(spec_gcd(0, nn) == spec_gcd(nn, 0nat % nn));
                        assert(gcd_value == n);
                        assert(coprime_part == 1) by (nonlinear_arith)
                            requires
                                coprime_part == n / gcd_value,
                                gcd_value == n,
                                n > 0,
                        ;
                        vstd::arithmetic::div_mod::lemma_small_mod(1, multiplicity as nat);
                    }
                    assert(chain_length >= 2) by (nonlinear_arith)
                        requires
                            chain_length == n / multiplicity,
                            chain_length != 1,
                            n % multiplicity == 0,
                            n > 0,
                            multiplicity >= 2,
                    ;
                }
                assert(!interleaved_case(scale@.len(), multiplicity as nat, step_class as nat));
                assert(scale@.len() / (multiplicity as nat) != 1);
                assert(step_class >= 1);
                stacked_guide_frames(scale, multiplicity, step_class)
            }
        }
    }
}

// ---------------------------------------------------------------------------
// All guide frames of a scale
// ---------------------------------------------------------------------------

/// The models of a list of guide frames.
pub open spec fn frame_models(fs: Seq<GuideFrame>) -> Seq<(Seq<Seq<(Letter, i32)>>, Seq<Seq<(Letter, i32)>>)> {
    fs.map_values(|f: GuideFrame| frame_model(f))
}

/// The generator sequences of a list of frame models.
pub open spec fn model_gses(fm: Seq<(Seq<Seq<(Letter, i32)>>, Seq<Seq<(Letter, i32)>>)>) -> Seq<Seq<Seq<(Letter, i32)>>> {
    fm.map_values(|x: (Seq<Seq<(Letter, i32)>>, Seq<Seq<(Letter, i32)>>)| x.0)
}

/// Frame models with strictly increasing generator sequences, exactly those of `gses`, and one offset chord.
pub open spec fn frames_of(
    fm: Seq<(Seq<Seq<(Letter, i32)>>, Seq<Seq<(Letter, i32)>>)>,
    gses: Set<Seq<Seq<(Letter, i32)>>>,
    chord: spec_fn(Seq<Seq<(Letter, i32)>>) -> Seq<Seq<(Letter, i32)>>,
) -> bool {
    &&& strictly_increasing::<Vec<CountVector<Letter>>>(model_gses(fm))
    &&& forall|g: Seq<Seq<(Letter, i32)>>| model_gses(fm).contains(g) <==> gses.contains(g)
    &&& forall|j: int| 0 <= j < fm.len() ==> (#[trigger] fm[j]).1 == chord(fm[j].0)
}

/// Frames with the same generator sequences and chords are the same.
proof fn lemma_frames_of_unique(
    a: Seq<(Seq<Seq<(Letter, i32)>>, Seq<Seq<(Letter, i32)>>)>,
    b: Seq<(Seq<Seq<(Letter, i32)>>, Seq<Seq<(Letter, i32)>>)>,
    gses: Set<Seq<Seq<(Letter, i32)>>>,
    chord: spec_fn(Seq<Seq<(Letter, i32)>>) -> Seq<Seq<(Letter, i32)>>,
)
    requires
        frames_of(a, gses, chord),
        frames_of(b, gses, chord),
    ensures
        a == b,
{
    assert forall|x: Seq<Seq<(Letter, i32)>>| model_gses(a).contains(x) <==> model_gses(b).contains(x) by {
        assert(model_gses(a).contains(x) <==> gses.contains(x));
        assert(model_gses(b).contains(x) <==> gses.contains(x));
    }
    lemma_strictly_increasing_unique::<Vec<CountVector<Letter>>>(model_gses(a), model_gses(b));
    assert(model_gses(a).len() == model_gses(b).len());
    assert forall|j: int| 0 <= j < a.len() implies a[j] == b[j] by {
        assert(model_gses(a)[j] == model_gses(b)[j]);
        assert(a[j].1 == chord(a[j].0));
        assert(b[j].1 == chord(b[j].0));
    }
    assert(a =~= b);
}

/// The frame models that `try_simple` returns.
pub open spec fn simple_frames_ok(fm: Seq<(Seq<Seq<(Letter, i32)>>, Seq<Seq<(Letter, i32)>>)>, s: Seq<Letter>, sc: nat) -> bool {
    if s.len() == 0 || spec_gcd(s.len(), sc) != 1 {
        fm.len() == 0
    } else {
        frames_of(fm, spec_step_class_gses(sc as int, s).to_set(), |g: Seq<Seq<(Letter, i32)>>| unison_chord())
    }
}

/// The frame models that `try_multiple` returns.
pub open spec fn multiple_frames_ok(fm: Seq<(Seq<Seq<(Letter, i32)>>, Seq<Seq<(Letter, i32)>>)>, s: Seq<Letter>, mult: nat, sc: nat) -> bool {
    let n = s.len();
    let g = spec_gcd(sc, n) as int;
    let cl = n as int / mult as int;
    if !multiple_applies(n, mult) {
        fm.len() == 0
    } else if interleaved_case(n, mult, sc) {
        if g != mult || !subscales_align(s, g) {
            fm.len() == 0
        } else {
            frames_of(fm, spec_subscale_gses(subscale_at(s, g, 0)).to_set(), |x: Seq<Seq<(Letter, i32)>>| sort_by_norm(interleave_offsets(s, g)))
        }
    } else if cl == 1 {
        fm.len() == 0
    } else {
        frames_of(
            fm,
            Set::new(|x: Seq<Seq<(Letter, i32)>>| guided_gses(s, sc as int, cl).contains(x) && frame_kept(s, mult as int, sc as int, x)),
            |x: Seq<Seq<(Letter, i32)>>| chord_of(s, degrees_of_gs(s, sc as int, cl, x)),
        )
    }
}

/// The frames of `try_simple`, as models.
pub open spec fn spec_try_simple(s: Seq<Letter>, sc: nat) -> Seq<(Seq<Seq<(Letter, i32)>>, Seq<Seq<(Letter, i32)>>)> {
    choose|fm: Seq<(Seq<Seq<(Letter, i32)>>, Seq<Seq<(Letter, i32)>>)>| simple_frames_ok(fm, s, sc)
}

/// The frames of `try_multiple`, as models.
pub open spec fn spec_try_multiple(s: Seq<Letter>, mult: nat, sc: nat) -> Seq<(Seq<Seq<(Letter, i32)>>, Seq<Seq<(Letter, i32)>>)> {
    choose|fm: Seq<(Seq<Seq<(Letter, i32)>>, Seq<Seq<(Letter, i32)>>)>| multiple_frames_ok(fm, s, mult, sc)
}

proof fn lemma_spec_try_simple(fs: Seq<GuideFrame>, s: Seq<Letter>, sc: nat)
    requires
        simple_frames_ok(frame_models(fs), s, sc),
    ensures
        frame_models(fs) == spec_try_simple(s, sc),
{
    let other = spec_try_simple(s, sc);
    assert(simple_frames_ok(other, s, sc));
    if s.len() == 0 || spec_gcd(s.len(), sc) != 1 {
        assert(frame_models(fs) =~= other);
    } else {
        lemma_frames_of_unique(frame_models(fs), other, spec_step_class_gses(sc as int, s).to_set(), |g: Seq<Seq<(Letter, i32)>>| unison_chord());
    }
}

proof fn lemma_spec_try_multiple(fs: Seq<GuideFrame>, s: Seq<Letter>, mult: nat, sc: nat)
    requires
        multiple_frames_ok(frame_models(fs), s, mult, sc),
    ensures
        frame_models(fs) == spec_try_multiple(s, mult, sc),
{
    let other = spec_try_multiple(s, mult, sc);
    assert(multiple_frames_ok(other, s, mult, sc));
    let n = s.len();
    let g = spec_gcd(sc, n) as int;
    let cl = n as int / mult as int;
    if !multiple_applies(n, mult) {
        assert(frame_models(fs) =~= other);
    } else if interleaved_case(n, mult, sc) {
        if g != mult || !subscales_align(s, g) {
            assert(frame_models(fs) =~= other);
        } else {
            lemma_frames_of_unique(frame_models(fs), other, spec_subscale_gses(subscale_at(s, g, 0)).to_set(), |x: Seq<Seq<(Letter, i32)>>| sort_by_norm(interleave_offsets(s, g)));
        }
    } else if cl == 1 {
        assert(frame_models(fs) =~= other);
    } else {
        lemma_frames_of_unique(
            frame_models(fs),
            other,
            Set::new(|x: Seq<Seq<(Letter, i32)>>| guided_gses(s, sc as int, cl).contains(x) && frame_kept(s, mult as int, sc as int, x)),
            |x: Seq<Seq<(Letter, i32)>>| chord_of(s, degrees_of_gs(s, sc as int, cl, x)),
        );
    }
}

proof fn lemma_frame_models(fs: Seq<GuideFrame>)
    ensures
        model_gses(frame_models(fs)) == frame_gses(fs),
        frame_models(fs).len() == fs.len(),
        forall|j: int| 0 <= j < fs.len() ==> #[trigger] frame_models(fs)[j] == (models(fs[j].gs@), models(fs[j].offset_chord@)),
{
    assert(model_gses(frame_models(fs)) =~= frame_gses(fs));
}

/// The complexity of a frame model: generator count times offset count.
pub open spec fn complexity_of(x: (Seq<Seq<(Letter, i32)>>, Seq<Seq<(Letter, i32)>>)) -> int {
    (x.0.len() * x.1.len()) as int
}

/// `x` inserted into `sorted` after every frame whose complexity is at most that of `x`.
pub open spec fn insert_by_complexity(
    sorted: Seq<(Seq<Seq<(Letter, i32)>>, Seq<Seq<(Letter, i32)>>)>,
    x: (Seq<Seq<(Letter, i32)>>, Seq<Seq<(Letter, i32)>>),
) -> Seq<(Seq<Seq<(Letter, i32)>>, Seq<Seq<(Letter, i32)>>)>
    decreases sorted.len(),
{
    if sorted.len() == 0 {
        seq![x]
    } else if complexity_of(sorted.last()) <= complexity_of(x) {
        sorted.push(x)
    } else {
        insert_by_complexity(sorted.drop_last(), x).push(sorted.last())
    }
}

/// The stable sort of frame models by complexity.
pub open spec fn sort_by_complexity(s: Seq<(Seq<Seq<(Letter, i32)>>, Seq<Seq<(Letter, i32)>>)>) -> Seq<(Seq<Seq<(Letter, i32)>>, Seq<Seq<(Letter, i32)>>)>
    decreases s.len(),
{
    if s.len() == 0 {
        Seq::empty()
    } else {
        insert_by_complexity(sort_by_complexity(s.drop_last()), s.last())
    }
}

/// The frames are in order of nondecreasing complexity.
pub open spec fn complexity_sorted(s: Seq<(Seq<Seq<(Letter, i32)>>, Seq<Seq<(Letter, i32)>>)>) -> bool {
    forall|i: int, j: int| 0 <= i < j < s.len() ==> complexity_of(#[trigger] s[i]) <= complexity_of(#[trigger] s[j])
}

/// Inserting keeps every complexity under a common bound.
proof fn lemma_insert_by_complexity_bounded(
    v: Seq<(Seq<Seq<(Letter, i32)>>, Seq<Seq<(Letter, i32)>>)>,
    x: (Seq<Seq<(Letter, i32)>>, Seq<Seq<(Letter, i32)>>),
    c: int,
)
    requires
        forall|i: int| 0 <= i < v.len() ==> complexity_of(#[trigger] v[i]) <= c,
        complexity_of(x) <= c,
    ensures
        insert_by_complexity(v, x).len() == v.len() + 1,
        forall|i: int| 0 <= i < insert_by_complexity(v, x).len() ==> complexity_of(#[trigger] insert_by_complexity(v, x)[i]) <= c,
    decreases v.len(),
{
    if v.len() > 0 && complexity_of(v.last()) > complexity_of(x) {
        lemma_insert_by_complexity_bounded(v.drop_last(), x, c);
        let r = insert_by_complexity(v, x);
        let d = insert_by_complexity(v.drop_last(), x);
        assert forall|i: int| 0 <= i < r.len() implies complexity_of(#[trigger] r[i]) <= c by {
            if i < d.len() {
                assert(r[i] == d[i]);
            } else {
                assert(r[i] == v[v.len() - 1]);
            }
        }
    }
}

/// Inserting into a sorted list keeps it sorted and adds the frame to its contents.
proof fn lemma_insert_by_complexity_sorted(
    v: Seq<(Seq<Seq<(Letter, i32)>>, Seq<Seq<(Letter, i32)>>)>,
    x: (Seq<Seq<(Letter, i32)>>, Seq<Seq<(Letter, i32)>>),
)
    requires
        complexity_sorted(v),
    ensures
        complexity_sorted(insert_by_complexity(v, x)),
        insert_by_complexity(v, x).to_multiset() == v.to_multiset().insert(x),
    decreases v.len(),
{
    broadcast use vstd::seq_lib::group_to_multiset_ensures;
    if v.len() == 0 {
        assert(seq![x] =~= Seq::<(Seq<Seq<(Letter, i32)>>, Seq<Seq<(Letter, i32)>>)>::empty().push(x));
    } else if complexity_of(v.last()) <= complexity_of(x) {
        let r = v.push(x);
        assert forall|i: int, j: int| 0 <= i < j < r.len() implies complexity_of(#[trigger] r[i]) <= complexity_of(#[trigger] r[j]) by {
            if j == v.len() {
                if i < v.len() - 1 {
                    assert(complexity_of(v[i]) <= complexity_of(v[v.len() - 1]));
                }
            } else {
                assert(r[i] == v[i] && r[j] == v[j]);
            }
        }
    } else {
        let dl = v.drop_last();
        let l = v.last();
        assert(complexity_sorted(dl)) by {
            assert forall|i: int, j: int| 0 <= i < j < dl.len() implies complexity_of(#[trigger] dl[i]) <= complexity_of(#[trigger] dl[j]) by {
                assert(dl[i] == v[i] && dl[j] == v[j]);
            }
        }
        lemma_insert_by_complexity_sorted(dl, x);
        assert forall|i: int| 0 <= i < dl.len() implies complexity_of(#[trigger] dl[i]) <= complexity_of(l) by {
            assert(dl[i] == v[i]);
            assert(l == v[v.len() - 1]);
        }
        lemma_insert_by_complexity_bounded(dl, x, complexity_of(l));
        let d = insert_by_complexity(dl, x);
        let r = d.push(l);
        assert forall|i: int, j: int| 0 <= i < j < r.len() implies complexity_of(#[trigger] r[i]) <= complexity_of(#[trigger] r[j]) by {
            if j == d.len() {
                assert(r[i] == d[i]);
            } else {
                assert(r[i] == d[i] && r[j] == d[j]);
            }
        }
        assert(v =~= dl.push(l));
        assert(d.to_multiset().insert(l) =~= v.to_multiset().insert(x));
    }
}

/// Sorting by complexity orders the frames by nondecreasing complexity and keeps exactly
/// the frames it was given, each as often as it was given.
pub proof fn lemma_sort_by_complexity(s: Seq<(Seq<Seq<(Letter, i32)>>, Seq<Seq<(Letter, i32)>>)>)
    ensures
        complexity_sorted(sort_by_complexity(s)),
        sort_by_complexity(s).to_multiset() == s.to_multiset(),
    decreases s.len(),
{
    broadcast use vstd::seq_lib::group_to_multiset_ensures;
    if s.len() > 0 {
        lemma_sort_by_complexity(s.drop_last());
        lemma_insert_by_complexity_sorted(sort_by_complexity(s.drop_last()), s.last());
        assert(s =~= s.drop_last().push(s.last()));
    } else {
        assert(sort_by_complexity(s) =~= s);
    }
}

proof fn lemma_insert_by_complexity_at(
    v: Seq<(Seq<Seq<(Letter, i32)>>, Seq<Seq<(Letter, i32)>>)>,
    x: (Seq<Seq<(Letter, i32)>>, Seq<Seq<(Letter, i32)>>),
    p: int,
)
    requires
        0 <= p <= v.len(),
        forall|q: int| p <= q < v.len() ==> complexity_of(#[trigger] v[q]) > complexity_of(x),
        p > 0 ==> complexity_of(v[p - 1]) <= complexity_of(x),
    ensures
        insert_by_complexity(v, x) == v.subrange(0, p).push(x) + v.subrange(p, v.len() as int),
    decreases v.len(),
{
    if v.len() == 0 {
        assert(v.subrange(0, p).push(x) + v.subrange(p, v.len() as int) =~= seq![x]);
    } else if p == v.len() {
        assert(v.subrange(0, p) =~= v);
        assert(v.subrange(0, p).push(x) + v.subrange(p, v.len() as int) =~= v.push(x));
    } else {
        let w = v.drop_last();
        lemma_insert_by_complexity_at(w, x, p);
        assert(w.subrange(0, p) =~= v.subrange(0, p));
        assert(v.subrange(0, p).push(x) + v.subrange(p, v.len() as int) =~= (w.subrange(0, p).push(x) + w.subrange(p, w.len() as int)).push(v.last()));
    }
}

/// The complexity of a frame, computed without overflow.
fn frame_complexity(f: &GuideFrame) -> (r: u128)
    ensures
        r == complexity_of(frame_model(*f)),
{
    let a = f.gs.len();
    let b = f.offset_chord.len();
    assert(a * b <= u64::MAX as int * u64::MAX as int) by (nonlinear_arith)
        requires
            a <= u64::MAX,
            b <= u64::MAX,
    ;
    (a as u128) * (b as u128)
}

/// Guide frames sorted by complexity, keeping the order of frames of equal complexity.
fn sort_frames_by_complexity(frames: Vec<GuideFrame>) -> (r: Vec<GuideFrame>)
    ensures
        frame_models(r@) == sort_by_complexity(frame_models(frames@)),
{
    let ghost ms = frame_models(frames@);
    let mut r: Vec<GuideFrame> = Vec::new();
    let mut i: usize = 0;
    while i < frames.len()
        invariant
            i <= frames@.len(),
            ms == frame_models(frames@),
            frame_models(r@) == sort_by_complexity(ms.subrange(0, i as int)),
        decreases frames@.len() - i,
    {
        let x = frames[i].clone();
        let key = frame_complexity(&x);
        let ghost rm = frame_models(r@);
        let mut p: usize = r.len();
        let mut scanning = true;
        while scanning && p > 0
            invariant
                p <= r@.len(),
                rm == frame_models(r@),
                key == complexity_of(frame_model(x)),
                forall|q: int| p <= q < r@.len() ==> complexity_of(#[trigger] rm[q]) > key,
                !scanning ==> p > 0 && complexity_of(rm[p - 1]) <= key,
            decreases p + if scanning { 1int } else { 0int },
        {
            assert(rm[p - 1] == frame_model(r@[p - 1]));
            if frame_complexity(&r[p - 1]) > key {
                p = p - 1;
            } else {
                scanning = false;
            }
        }
        proof {
            lemma_insert_by_complexity_at(rm, frame_model(x), p as int);
            assert(ms.subrange(0, i + 1).drop_last() =~= ms.subrange(0, i as int));
            assert(ms.subrange(0, i + 1).last() == frame_model(x));
        }
        r.insert(p, x);
        proof {
            assert(frame_models(r@) =~= rm.subrange(0, p as int).push(frame_model(x)) + rm.subrange(p as int, rm.len() as int));
        }
        i = i + 1;
    }
    assert(ms.subrange(0, frames@.len() as int) =~= ms);
    r
}

/// Consecutive repetitions removed.
pub open spec fn dedup_consecutive(s: Seq<u32>) -> Seq<u32>
    decreases s.len(),
{
    if s.len() == 0 {
        Seq::empty()
    } else if s.len() >= 2 && s[s.len() - 2] == s.last() {
        dedup_consecutive(s.drop_last())
    } else {
        dedup_consecutive(s.drop_last()).push(s.last())
    }
}

/// Removes consecutive repeated numbers with `Itertools::dedup`.
/// Trusted: the result is the list with each run of equal consecutive numbers cut to one.
#[verifier::external_body]
fn dedup_numbers(v: Vec<u32>) -> (r: Vec<u32>)
    ensures
        r@ == dedup_consecutive(v@),
{
    v.into_iter().dedup().collect()
}

/// The frames of `try_multiple` for each multiplicity in `primes`, in turn.
pub open spec fn spec_multiples(s: Seq<Letter>, primes: Seq<u32>, sc: nat) -> Seq<(Seq<Seq<(Letter, i32)>>, Seq<Seq<(Letter, i32)>>)>
    decreases primes.len(),
{
    if primes.len() == 0 {
        Seq::empty()
    } else {
        spec_multiples(s, primes.drop_last(), sc) + spec_try_multiple(s, primes.last() as nat, sc)
    }
}

/// The distinct prime factors of `n`, in increasing order, as `u32`s.
pub open spec fn distinct_prime_factors(n: nat) -> Seq<u32> {
    dedup_consecutive(trial_factors(n, 2).map_values(|p: nat| p as u32))
}

/// The frames of `try_all_variants`: the simple frames, then (for scales with more than one step
/// size) the frames of each prime multiplicity dividing the scale size, sorted stably by complexity.
pub open spec fn spec_all_variants(s: Seq<Letter>, sc: nat) -> Seq<(Seq<Seq<(Letter, i32)>>, Seq<Seq<(Letter, i32)>>)> {
    let multiples = if s.to_set().len() > 1 {
        spec_multiples(s, distinct_prime_factors(s.len()), sc)
    } else {
        Seq::empty()
    };
    sort_by_complexity(spec_try_simple(s, sc) + multiples)
}

impl GuideFrame {
    /// Both simple and multiple guide frames with `step_class`-step generators, sorted by complexity.
    #[verifier::spinoff_prover]
    #[verifier::rlimit(50)]
    fn try_all_variants(scale: &[Letter], step_class: usize) -> (r: Vec<Self>)
        requires
            2 <= step_class <= scale@.len() / 2,
            scale@.len() < i32::MAX,
            4 * scale@.len() * scale@.len() <= usize::MAX,
        ensures
            frame_models(r@) == spec_all_variants(scale@, step_class as nat),
    {
        let n = scale.len();
        assert(n * n <= 4 * n * n) by (nonlinear_arith);
        let simple = Self::try_simple(scale, step_class);
        proof {
            lemma_frame_models(simple@);
            lemma_spec_try_simple(simple@, scale@, step_class as nat);
        }
        let mut all = simple;
        let ghost mut multiples: Seq<(Seq<Seq<(Letter, i32)>>, Seq<Seq<(Letter, i32)>>)> = Seq::empty();
        if step_variety(scale) > 1 {
            let factors = factorize(n as u32);
            let primes = dedup_numbers(factors);
            proof {
                assert(factors@.map_values(|p: u32| p as nat).map_values(|p: nat| p as u32) =~= factors@);
            }
            let mut k: usize = 0;
            while k < primes.len()
                invariant
                    k <= primes@.len(),
                    primes@ == distinct_prime_factors(n as nat),
                    n == scale@.len(),
                    2 <= step_class <= n / 2,
                    n < i32::MAX,
                    4 * n * n <= usize::MAX,
                    frame_models(all@) == spec_try_simple(scale@, step_class as nat) + spec_multiples(scale@, primes@.subrange(0, k as int), step_class as nat),
                decreases primes@.len() - k,
            {
                let p = primes[k];
                let mut more = Self::try_multiple(scale, p as usize, step_class);
                proof {
                    lemma_frame_models(more@);
                    lemma_spec_try_multiple(more@, scale@, p as nat, step_class as nat);
                    assert(primes@.subrange(0, k + 1).drop_last() =~= primes@.subrange(0, k as int));
                }
                let ghost before = frame_models(all@);
                let ghost added = frame_models(more@);
                all.append(&mut more);
                assert(frame_models(all@) =~= before + added);
                k = k + 1;
            }
            assert(primes@.subrange(0, primes@.len() as int) =~= primes@);
        } else {
            assert(frame_models(all@) =~= spec_try_simple(scale@, step_class as nat) + Seq::empty());
        }
        sort_frames_by_complexity(all)
    }
}

/// The frames of `try_all_variants` for the step classes `2..=m`, in turn.
pub open spec fn spec_all_upto(s: Seq<Letter>, m: int) -> Seq<(Seq<Seq<(Letter, i32)>>, Seq<Seq<(Letter, i32)>>)>
    decreases m,
{
    if m < 2 {
        Seq::empty()
    } else {
        spec_all_upto(s, m - 1) + spec_all_variants(s, m as nat)
    }
}

/// All guide frames of a scale, for generators of 2 up to half the scale size steps,
/// sorted by complexity (stably).
pub fn guide_frames(scale: &[Letter]) -> (r: Vec<GuideFrame>)
    requires
        scale@.len() < i32::MAX,
        4 * scale@.len() * scale@.len() <= usize::MAX,
    ensures
        frame_models(r@) == sort_by_complexity(spec_all_upto(scale@, scale@.len() as int / 2)),
        complexity_sorted(frame_models(r@)),
        frame_models(r@).to_multiset() == spec_all_upto(scale@, scale@.len() as int / 2).to_multiset(),
        forall|k: int, f: (Seq<Seq<(Letter, i32)>>, Seq<Seq<(Letter, i32)>>)|
            2 <= k <= scale@.len() / 2 && #[trigger] spec_try_simple(scale@, k as nat).contains(f)
                ==> frame_models(r@).contains(f),
        forall|p: nat, k: int, f: (Seq<Seq<(Letter, i32)>>, Seq<Seq<(Letter, i32)>>)|
            scale@.to_set().len() > 1 && is_prime(p) && scale@.len() % p == 0 && 2 <= k <= scale@.len() / 2
                && #[trigger] spec_try_multiple(scale@, p, k as nat).contains(f)
                ==> frame_models(r@).contains(f),
        forall|f: (Seq<Seq<(Letter, i32)>>, Seq<Seq<(Letter, i32)>>)| #[trigger] frame_models(r@).contains(f) ==>
            frame_of_some_class(scale@, f),
{
    let n = scale.len();
    let mut all: Vec<GuideFrame> = Vec::new();
    let mut step_class: usize = 2;
    while step_class <= n / 2
        invariant
            2 <= step_class <= n / 2 + 1 || (step_class == 2 && n / 2 < 2),
            n == scale@.len(),
            n < i32::MAX,
            4 * n * n <= usize::MAX,
            frame_models(all@) == spec_all_upto(scale@, step_class - 1),
        decreases n / 2 + 1 - step_class,
    {
        let mut more = GuideFrame::try_all_variants(scale, step_class);
        let ghost before = frame_models(all@);
        let ghost added = frame_models(more@);
        all.append(&mut more);
        assert(frame_models(all@) =~= before + added);
        step_class = step_class + 1;
    }
    assert(frame_models(all@) == spec_all_upto(scale@, n as int / 2));
    proof {
        lemma_sort_by_complexity(spec_all_upto(scale@, n as int / 2));
    }
    let r = sort_frames_by_complexity(all);
    proof {
        assert forall|k: int, f: (Seq<Seq<(Letter, i32)>>, Seq<Seq<(Letter, i32)>>)|
            2 <= k <= scale@.len() / 2 && #[trigger] spec_try_simple(scale@, k as nat).contains(f)
                implies frame_models(r@).contains(f) by {
            lemma_guide_frames_cover(scale@, 2, k, f);
        }
        assert forall|p: nat, k: int, f: (Seq<Seq<(Letter, i32)>>, Seq<Seq<(Letter, i32)>>)|
            scale@.to_set().len() > 1 && is_prime(p) && scale@.len() % p == 0 && 2 <= k <= scale@.len() / 2
                && #[trigger] spec_try_multiple(scale@, p, k as nat).contains(f)
                implies frame_models(r@).contains(f) by {
            lemma_guide_frames_cover(scale@, p, k, f);
        }
        assert forall|f: (Seq<Seq<(Letter, i32)>>, Seq<Seq<(Letter, i32)>>)| #[trigger] frame_models(r@).contains(f) implies
            frame_of_some_class(scale@, f) by {
            lemma_guide_frames_only(scale@, f);
        }
    }
    r
}


/// A value in a list is kept, once, by removing consecutive repeats.
proof fn lemma_dedup_consecutive_contains(s: Seq<u32>, x: u32)
    requires
        s.contains(x),
    ensures
        dedup_consecutive(s).contains(x),
    decreases s.len(),
{
    let n = s.len() as int;
    let dl = s.drop_last();
    if n >= 2 && s[n - 2] == s.last() {
        if x == s.last() {
            assert(dl[n - 2] == x);
        } else {
            let i = choose|i: int| 0 <= i < n && s[i] == x;
            assert(dl[i] == x);
        }
        lemma_dedup_consecutive_contains(dl, x);
    } else {
        if x != s.last() {
            let i = choose|i: int| 0 <= i < n && s[i] == x;
            assert(i != n - 1);
            assert(dl[i] == x);
            lemma_dedup_consecutive_contains(dl, x);
            let j = choose|j: int| 0 <= j < dedup_consecutive(dl).len() && dedup_consecutive(dl)[j] == x;
            assert(dedup_consecutive(s)[j] == x);
        } else {
            let d = dedup_consecutive(s);
            assert(d[d.len() - 1] == x);
        }
    }
}

/// The frames of each prime in the list are among the frames of all of them.
proof fn lemma_spec_multiples_contains(
    s: Seq<Letter>,
    primes: Seq<u32>,
    sc: nat,
    i: int,
    f: (Seq<Seq<(Letter, i32)>>, Seq<Seq<(Letter, i32)>>),
)
    requires
        0 <= i < primes.len(),
        spec_try_multiple(s, primes[i] as nat, sc).contains(f),
    ensures
        spec_multiples(s, primes, sc).contains(f),
    decreases primes.len(),
{
    let dl = primes.drop_last();
    let a = spec_multiples(s, dl, sc);
    let b = spec_try_multiple(s, primes.last() as nat, sc);
    assert(spec_multiples(s, primes, sc) == a + b);
    if i < primes.len() - 1 {
        assert(dl[i] == primes[i]);
        lemma_spec_multiples_contains(s, dl, sc, i, f);
        let j = choose|j: int| 0 <= j < a.len() && a[j] == f;
        assert((a + b)[j] == f);
    } else {
        let j = choose|j: int| 0 <= j < b.len() && b[j] == f;
        assert((a + b)[a.len() + j] == f);
    }
}

/// The frames for step class `k` are among the frames for the classes `2..=m`, `k` among them.
proof fn lemma_spec_all_upto_contains(
    s: Seq<Letter>,
    m: int,
    k: int,
    f: (Seq<Seq<(Letter, i32)>>, Seq<Seq<(Letter, i32)>>),
)
    requires
        2 <= k <= m,
        spec_all_variants(s, k as nat).contains(f),
    ensures
        spec_all_upto(s, m).contains(f),
    decreases m,
{
    let a = spec_all_upto(s, m - 1);
    let b = spec_all_variants(s, m as nat);
    assert(spec_all_upto(s, m) == a + b);
    if k < m {
        lemma_spec_all_upto_contains(s, m - 1, k, f);
        let j = choose|j: int| 0 <= j < a.len() && a[j] == f;
        assert((a + b)[j] == f);
    } else {
        let j = choose|j: int| 0 <= j < b.len() && b[j] == f;
        assert((a + b)[a.len() + j] == f);
    }
}

/// The guide frames of a scale include every simple frame for each step class from 2 to half
/// the scale size, and, when the scale has more than one step size, every frame of
/// multiplicity `p` for each prime `p` dividing the scale size.
pub proof fn lemma_guide_frames_cover(
    s: Seq<Letter>,
    p: nat,
    k: int,
    f: (Seq<Seq<(Letter, i32)>>, Seq<Seq<(Letter, i32)>>),
)
    requires
        s.len() < i32::MAX,
        2 <= k <= s.len() / 2,
        spec_try_simple(s, k as nat).contains(f) || {
            &&& s.to_set().len() > 1
            &&& is_prime(p)
            &&& s.len() % p == 0
            &&& spec_try_multiple(s, p, k as nat).contains(f)
        },
    ensures
        sort_by_complexity(spec_all_upto(s, s.len() as int / 2)).contains(f),
{
    broadcast use vstd::seq_lib::group_to_multiset_ensures;
    let simple = spec_try_simple(s, k as nat);
    let multiples = if s.to_set().len() > 1 {
        spec_multiples(s, distinct_prime_factors(s.len()), k as nat)
    } else {
        Seq::empty()
    };
    let both = simple + multiples;
    if simple.contains(f) {
        let j = choose|j: int| 0 <= j < simple.len() && simple[j] == f;
        assert(both[j] == f);
    } else {
        let n = s.len();
        crate::primes::lemma_prime_divisor_in_trial_factors(p, n);
        let tf = trial_factors(n, 2);
        let i = choose|i: int| 0 <= i < tf.len() && tf[i] == p;
        let mapped = tf.map_values(|q: nat| q as u32);
        assert(p <= n) by {
            vstd::arithmetic::div_mod::lemma_fundamental_div_mod(n as int, p as int);
            assert(n / p >= 1) by (nonlinear_arith)
                requires
                    n == p * (n / p) + 0,
                    n >= 2,
                    p >= 2,
            ;
            assert(p <= p * (n / p)) by (nonlinear_arith)
                requires
                    n / p >= 1,
                    p >= 2,
            ;
        }
        assert(mapped[i] == p as u32);
        lemma_dedup_consecutive_contains(mapped, p as u32);
        let ps = distinct_prime_factors(n);
        let q = choose|q: int| 0 <= q < ps.len() && ps[q] == p as u32;
        assert(ps[q] as nat == p);
        lemma_spec_multiples_contains(s, ps, k as nat, q, f);
        let j = choose|j: int| 0 <= j < multiples.len() && multiples[j] == f;
        assert(both[simple.len() + j] == f);
    }
    lemma_sort_by_complexity(both);
    assert(both.contains(f));
    assert(both.to_multiset().count(f) > 0);
    assert(sort_by_complexity(both).to_multiset().count(f) > 0);
    assert(spec_all_variants(s, k as nat) == sort_by_complexity(both));
    assert(spec_all_variants(s, k as nat).contains(f));
    let all = spec_all_upto(s, s.len() as int / 2);
    lemma_spec_all_upto_contains(s, s.len() as int / 2, k, f);
    lemma_sort_by_complexity(all);
    assert(all.to_multiset().count(f) > 0);
    assert(sort_by_complexity(all).to_multiset().count(f) > 0);
}


/// Removing consecutive repeats keeps only values of the list.
proof fn lemma_dedup_consecutive_subset(s: Seq<u32>, x: u32)
    requires
        dedup_consecutive(s).contains(x),
    ensures
        s.contains(x),
    decreases s.len(),
{
    let n = s.len() as int;
    let dl = s.drop_last();
    if n >= 2 && s[n - 2] == s.last() {
        lemma_dedup_consecutive_subset(dl, x);
        let i = choose|i: int| 0 <= i < dl.len() && dl[i] == x;
        assert(s[i] == x);
    } else if n > 0 {
        let d = dedup_consecutive(s);
        let j = choose|j: int| 0 <= j < d.len() && d[j] == x;
        if j < d.len() - 1 {
            assert(dedup_consecutive(dl)[j] == x);
            lemma_dedup_consecutive_subset(dl, x);
            let i = choose|i: int| 0 <= i < dl.len() && dl[i] == x;
            assert(s[i] == x);
        } else {
            assert(s[n - 1] == x);
        }
    }
}

/// A frame of the multiplicities in a list is a frame of one of them.
proof fn lemma_spec_multiples_member(
    s: Seq<Letter>,
    primes: Seq<u32>,
    sc: nat,
    f: (Seq<Seq<(Letter, i32)>>, Seq<Seq<(Letter, i32)>>),
) -> (i: int)
    requires
        spec_multiples(s, primes, sc).contains(f),
    ensures
        0 <= i < primes.len(),
        spec_try_multiple(s, primes[i] as nat, sc).contains(f),
    decreases primes.len(),
{
    let dl = primes.drop_last();
    let a = spec_multiples(s, dl, sc);
    let b = spec_try_multiple(s, primes.last() as nat, sc);
    assert(spec_multiples(s, primes, sc) == a + b);
    let j = choose|j: int| 0 <= j < (a + b).len() && (a + b)[j] == f;
    if j < a.len() {
        assert(a[j] == f);
        let i = lemma_spec_multiples_member(s, dl, sc, f);
        assert(dl[i] == primes[i]);
        i
    } else {
        assert(b[j - a.len()] == f);
        primes.len() - 1
    }
}

/// A frame for the step classes `2..=m` is a frame for one of them.
proof fn lemma_spec_all_upto_member(
    s: Seq<Letter>,
    m: int,
    f: (Seq<Seq<(Letter, i32)>>, Seq<Seq<(Letter, i32)>>),
) -> (k: int)
    requires
        spec_all_upto(s, m).contains(f),
    ensures
        2 <= k <= m,
        spec_all_variants(s, k as nat).contains(f),
    decreases m,
{
    if m < 2 {
        assert(spec_all_upto(s, m).len() == 0);
        0
    } else {
        let a = spec_all_upto(s, m - 1);
        let b = spec_all_variants(s, m as nat);
        assert(spec_all_upto(s, m) == a + b);
        let j = choose|j: int| 0 <= j < (a + b).len() && (a + b)[j] == f;
        if j < a.len() {
            assert(a[j] == f);
            lemma_spec_all_upto_member(s, m - 1, f)
        } else {
            assert(b[j - a.len()] == f);
            m
        }
    }
}

/// `f` is a simple frame of `s` for a step class from 2 to half the size of `s` or, when `s`
/// has more than one step size, a frame of multiplicity `p` for such a class and a prime `p`
/// dividing the size of `s`.
pub open spec fn frame_of_some_class(s: Seq<Letter>, f: (Seq<Seq<(Letter, i32)>>, Seq<Seq<(Letter, i32)>>)) -> bool {
    exists|k: int| #![trigger spec_try_simple(s, k as nat)] 2 <= k <= s.len() / 2 && (spec_try_simple(s, k as nat).contains(f)
        || exists|p: nat| #![trigger spec_try_multiple(s, p, k as nat)] s.to_set().len() > 1 && is_prime(p) && s.len() % p == 0
            && spec_try_multiple(s, p, k as nat).contains(f))
}

/// Every guide frame of a scale is a simple frame for a step class from 2 to half the scale
/// size or, when the scale has more than one step size, a frame of multiplicity `p` for such a
/// class and a prime `p` dividing the scale size: the guide frames are exactly those frames.
pub proof fn lemma_guide_frames_only(s: Seq<Letter>, f: (Seq<Seq<(Letter, i32)>>, Seq<Seq<(Letter, i32)>>))
    requires
        s.len() < i32::MAX,
        sort_by_complexity(spec_all_upto(s, s.len() as int / 2)).contains(f),
    ensures
        frame_of_some_class(s, f),
{
    broadcast use vstd::seq_lib::group_to_multiset_ensures;
    let n = s.len();
    let all = spec_all_upto(s, n as int / 2);
    lemma_sort_by_complexity(all);
    assert(sort_by_complexity(all).to_multiset().count(f) > 0);
    assert(all.to_multiset().count(f) > 0);
    let k = lemma_spec_all_upto_member(s, n as int / 2, f);
    let simple = spec_try_simple(s, k as nat);
    let multiples = if s.to_set().len() > 1 {
        spec_multiples(s, distinct_prime_factors(n), k as nat)
    } else {
        Seq::empty()
    };
    let both = simple + multiples;
    assert(spec_all_variants(s, k as nat) == sort_by_complexity(both));
    lemma_sort_by_complexity(both);
    assert(sort_by_complexity(both).to_multiset().count(f) > 0);
    assert(both.to_multiset().count(f) > 0);
    let j = choose|j: int| 0 <= j < both.len() && both[j] == f;
    if j < simple.len() {
        assert(simple[j] == f);
        assert(spec_try_simple(s, k as nat).contains(f));
    } else {
        assert(multiples[j - simple.len()] == f);
        assert(s.to_set().len() > 1);
        let ps = distinct_prime_factors(n);
        let i = lemma_spec_multiples_member(s, ps, k as nat, f);
        let tf = trial_factors(n, 2);
        let mapped = tf.map_values(|q: nat| q as u32);
        lemma_dedup_consecutive_subset(mapped, ps[i]);
        let t = choose|t: int| 0 <= t < mapped.len() && mapped[t] == ps[i];
        assert(n >= 1) by {
            assert(s.to_set().contains(s[0]));
        }
        crate::primes::lemma_trial_factor_is_prime_divisor(n, t);
        let p = tf[t];
        assert(p <= n) by {
            vstd::arithmetic::div_mod::lemma_fundamental_div_mod(n as int, p as int);
            assert(n / p >= 1) by (nonlinear_arith)
                requires
                    n == p * (n / p) + 0,
                    n >= 1,
                    p >= 2,
            ;
            assert(p <= p * (n / p)) by (nonlinear_arith)
                requires
                    n / p >= 1,
                    p >= 2,
            ;
        }
        assert(mapped[t] == p as u32);
        assert(ps[i] as nat == p);
        assert(spec_try_multiple(s, p, k as nat).contains(f));
    }
}

} // verus!
