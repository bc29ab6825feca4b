use std::collections::{BTreeMap, BTreeSet};

use tern::equal::Val;
use tern::guide::guide_frames;
use tern::helpers::ScaleError;
use tern::ji::{
    cumulative_form, disp_ji_scale, disp_ji_scale_as_enumerated_chord, gs_scale, harmonic_mode, harmonic_mode_no_oct,
    is_cs_ji_scale, mode, odd_limit, specified_odd_limit, spectrum, step_form, well_formed_necklace_in_ji_scale,
};
use tern::ji_ratio::RawJiRatio;
use tern::monzo::{
    dioph_rec_fits_exec, solve_linear_diophantine, solve_linear_diophantine_rec, try_step_sig_candidates, CantMakeMonzo,
    Monzo,
};
use tern::primes::factorize;
use tern::words::{mos_substitution_scales, mos_substitution_scales_one_perm, rotate, CountVector};

fn r(n: u32, d: u32) -> RawJiRatio {
    RawJiRatio::try_new(n, d).unwrap()
}

fn zarlino() -> Vec<RawJiRatio> {
    vec![r(9, 8), r(5, 4), r(4, 3), r(3, 2), r(5, 3), r(15, 8), RawJiRatio::octave()]
}

// ---------------------------------------------------------------------------
// Monzos
// ---------------------------------------------------------------------------

#[test]
fn monzo_of_syntonic_comma() {
    let syntonic_comma = Monzo::try_new(81, 80).unwrap();
    assert_eq!(syntonic_comma.numer(), 81);
    assert_eq!(syntonic_comma.denom(), 80);
    assert_eq!(syntonic_comma, Monzo::from_slice(&[-4, 4, -1]));
}

#[test]
fn monzo_of_fifth_and_fourth() {
    let fifth = Monzo::try_new(3, 2).unwrap();
    assert_eq!(fifth.numer(), 3);
    assert_eq!(fifth.denom(), 2);
    assert_eq!(fifth, Monzo::pyth_5th());
    let fourth = Monzo::octave().unstack(Monzo::pyth_5th());
    assert_eq!(fourth, Monzo::pyth_4th());
    assert_eq!(fourth.stack(Monzo::pyth_5th()), Monzo::octave());
}

#[test]
fn monzo_errors() {
    assert_eq!(Monzo::try_new(0, 1), Err(CantMakeMonzo::NumerCantBeZero));
    assert_eq!(Monzo::try_new(0, 0), Err(CantMakeMonzo::NumerCantBeZero));
    assert_eq!(Monzo::try_new(1, 0), Err(CantMakeMonzo::DenomCantBeZero));
    assert_eq!(Monzo::try_new(29 * 4, 3), Err(CantMakeMonzo::NumerExceededPrimeLimit(vec![29])));
    assert_eq!(Monzo::try_new(2, 31 * 31 * 3), Err(CantMakeMonzo::DenomExceededPrimeLimit(vec![31, 31])));
    assert_eq!(Monzo::try_new(29, 31), Err(CantMakeMonzo::NumerExceededPrimeLimit(vec![29])));
}

#[test]
fn monzo_round_trip_through_ratio() {
    for (n, d) in [(81, 80), (3, 2), (1, 1), (6656, 6655), (24, 36), (23 * 19, 17 * 16)] {
        let m = Monzo::try_new(n, d).unwrap();
        let q = m.try_to_ratio().unwrap();
        assert_eq!(q, r(n, d));
        assert_eq!(Monzo::try_from_ratio(q), Ok(m));
    }
}

#[test]
fn monzo_arithmetic() {
    let a = Monzo::from_slice(&[1, -2, 3]);
    let b = Monzo::from_slice(&[4, 5, -6, 7]);
    assert_eq!(a.add(b), Monzo::from_slice(&[5, 3, -3, 7]));
    assert_eq!(a.add(b).sub(b), a);
    assert_eq!(a.neg(), Monzo::from_slice(&[-1, 2, -3]));
    assert_eq!(a.log_inv().log_inv(), a);
    assert_eq!(a.mul(3), Monzo::from_slice(&[3, -6, 9]));
    assert_eq!(a.pow(-2), Monzo::from_slice(&[-2, 4, -6]));
    assert_eq!(Monzo::from_slice(&[7, -7, 5]).div(2), Monzo::from_slice(&[3, -3, 2]));
    assert!(Monzo::from_slice(&[4, -6, 2]).is_divisible_by(2));
    assert!(!Monzo::from_slice(&[4, -5, 2]).is_divisible_by(2));
    assert!(Monzo::from_slice(&[4, -6, 2]).is_divisible_by(-2));
    let mut c = a;
    c.add_assign(b);
    c.sub_assign(a);
    assert_eq!(c, b);
    assert_eq!(Monzo::nth_prime(2), Monzo::from_slice(&[0, 0, 1]));
    assert_eq!(Monzo::nth_prime(2).index(2), 1);
    assert_eq!(Monzo::from_array([1, 2, 3, 4, 5, 6, 7, 8, 9]).into_inner(), [1, 2, 3, 4, 5, 6, 7, 8, 9]);
    assert_eq!(Monzo::sum(&[a, b, Monzo::octave()]), Monzo::from_slice(&[6, 3, -3, 7]));
    assert_eq!(Monzo::sum(&[]), Monzo::unison());
}

#[test]
fn monzo_comparison() {
    let fifth = Monzo::pyth_5th();
    let fourth = Monzo::pyth_4th();
    assert!(fourth.less_than(&fifth));
    assert!(!fifth.less_than(&fourth));
    assert!(!fifth.less_than(&fifth));
}

#[test]
fn factorization_is_sorted_and_multiplies_back() {
    assert_eq!(factorize(360), vec![2, 2, 2, 3, 3, 5]);
    assert_eq!(factorize(1), Vec::<u32>::new());
    assert_eq!(factorize(97), vec![97]);
    assert_eq!(factorize(4294967291), vec![4294967291]);
    assert_eq!(factorize(4294967295), vec![3, 5, 17, 257, 65537]);
}

// ---------------------------------------------------------------------------
// Vals
// ---------------------------------------------------------------------------

#[test]
fn val_evaluation() {
    let val_12 = Val::from_slice(&[12, 19, 28]);
    assert_eq!(val_12.evaluate(Monzo::from_slice(&[-2, 0, 1])), 4);
    assert_eq!(val_12.evaluate(Monzo::pyth_5th()), 7);
    assert_eq!(val_12.evaluate(Monzo::octave()), 12);
    let a = Monzo::from_slice(&[-2, 0, 1]);
    let b = Monzo::pyth_5th();
    assert_eq!(val_12.evaluate(a.add(b)), val_12.evaluate(a) + val_12.evaluate(b));
    let val_7 = Val::from_slice(&[7, 11, 16]);
    let sum = val_12.add(val_7);
    assert_eq!(sum.evaluate(a), val_12.evaluate(a) + val_7.evaluate(a));
    let mut acc = Val::zero();
    acc.add_assign(val_12);
    assert_eq!(acc, val_12);
    assert_eq!(Val::zero().evaluate(a), 0);
    assert_eq!(val_12.into_inner(), [12, 19, 28, 0, 0, 0, 0, 0, 0]);
}

// ---------------------------------------------------------------------------
// Ratios
// ---------------------------------------------------------------------------

#[test]
fn ratio_reduction_modulo_octave() {
    let five = r(5, 1);
    let third = five.rd(RawJiRatio::octave());
    assert_eq!(third, r(5, 4));
    assert_eq!(third.rd(RawJiRatio::octave()), third);
    assert_eq!(r(1, 3).rd(RawJiRatio::octave()), r(4, 3));
    assert_eq!(r(2, 1).rd(RawJiRatio::octave()), r(1, 1));
    assert_eq!(r(9, 1).rd(r(3, 1)), r(1, 1));
    assert_eq!(r(9, 1).rd(r(1, 3)), r(1, 1));
}

#[test]
fn ratio_reciprocal() {
    let x = r(7, 4);
    assert_eq!(x.reciprocal().reciprocal(), x);
    assert_eq!(x.mul(x.reciprocal()), RawJiRatio::unison());
}

// ---------------------------------------------------------------------------
// JI scales
// ---------------------------------------------------------------------------

#[test]
fn step_and_cumulative_forms() {
    let z = zarlino();
    let steps = step_form(&z);
    assert_eq!(steps.len(), 7);
    assert_eq!(steps, vec![r(9, 8), r(10, 9), r(16, 15), r(9, 8), r(10, 9), r(9, 8), r(16, 15)]);
    assert_eq!(cumulative_form(&steps), z);
    assert_eq!(step_form(&cumulative_form(&steps)), steps);
    assert_eq!(mode(&z, 0), z);
    assert_eq!(mode(&z, 1).len(), 7);
    assert_eq!(mode(&z, 7), z);
    assert!(is_cs_ji_scale(&z));
}

#[test]
fn modes_keep_size_and_equave_and_repeat() {
    let z = zarlino();
    for d in 0..7 {
        let m = mode(&z, d);
        assert_eq!(m.len(), 7);
        assert_eq!(m[6], r(2, 1));
        assert_eq!(mode(&z, d + 7), m);
        assert_eq!(mode(&z, d + 14), m);
    }
    assert_eq!(mode(&z, 1)[0], r(10, 9));
}

#[test]
fn mos_substitution_scales_have_the_signature_counts() {
    for sig in [[4usize, 2, 1], [2, 2, 1], [3, 1, 1], [1, 1, 1], [5, 2, 2]] {
        let all = mos_substitution_scales(&sig);
        assert!(!all.is_empty());
        for w in &all {
            assert_eq!(w.len(), sig[0] + sig[1] + sig[2]);
            for letter in 0..3usize {
                assert_eq!(w.iter().filter(|&&x| x == letter).count(), sig[letter]);
            }
        }
    }
}

#[test]
fn spectrum_has_one_key_per_distinct_dyad() {
    let diasem: [usize; 9] = [0, 1, 0, 2, 0, 1, 0, 2, 0];
    for k in 1..9 {
        let spectrum = CountVector::spectrum(&diasem, k).into_inner();
        let distinct = CountVector::distinct_spectrum(&diasem, k);
        assert_eq!(spectrum.len(), distinct.len());
        assert_eq!(spectrum.values().sum::<i32>(), 9);
        for v in &distinct {
            assert!(spectrum.contains_key(v));
        }
    }
}

#[test]
fn odd_limits() {
    let five_limit = odd_limit(5);
    assert_eq!(five_limit, vec![r(6, 5), r(5, 4), r(4, 3), r(3, 2), r(8, 5), r(5, 3)]);
    assert!(odd_limit(9).len() > five_limit.len());
    assert_eq!(odd_limit(1), Vec::<RawJiRatio>::new());
    assert_eq!(
        specified_odd_limit(&[1, 3, 5, 4, 0]),
        vec![r(4, 3), r(8, 5), r(3, 2), r(6, 5), r(5, 4), r(5, 3)]
    );
}

#[test]
fn harmonic_modes() {
    let mode_4 = harmonic_mode(4).unwrap();
    assert_eq!(mode_4, vec![r(5, 4), r(3, 2), r(7, 4), RawJiRatio::octave()]);
    assert_eq!(harmonic_mode(8).unwrap().len(), 8);
    assert_eq!(harmonic_mode(1).unwrap(), vec![RawJiRatio::octave()]);
    assert_eq!(harmonic_mode(0), Err(ScaleError::CannotMakeScale));
    assert_eq!(harmonic_mode_no_oct(4).unwrap(), vec![r(5, 4), r(3, 2), r(7, 4)]);
    assert_eq!(harmonic_mode_no_oct(1).unwrap(), Vec::<RawJiRatio>::new());
    assert_eq!(harmonic_mode_no_oct(0), Err(ScaleError::CannotMakeScale));
}

#[test]
fn constant_structures() {
    let pyth_major = vec![r(9, 8), r(81, 64), r(4, 3), r(3, 2), r(27, 16), r(243, 128), RawJiRatio::octave()];
    assert!(is_cs_ji_scale(&pyth_major));
    // 4/3 is both a 1-step and a 2-step here.
    let not_cs = vec![r(9, 8), r(81, 64), r(3, 2), RawJiRatio::octave()];
    assert!(!is_cs_ji_scale(&not_cs));
    assert!(is_cs_ji_scale(&[RawJiRatio::octave()]));
}

#[test]
fn generator_sequence_scales() {
    let pentatonic = gs_scale(&[r(3, 2)], 5, RawJiRatio::octave()).unwrap();
    assert_eq!(pentatonic, vec![r(9, 8), r(81, 64), r(3, 2), r(27, 16), RawJiRatio::octave()]);
    let scale = gs_scale(&[r(7, 6), r(8, 7)], 5, RawJiRatio::octave()).unwrap();
    assert_eq!(scale.len(), 5);
    assert_eq!(gs_scale(&[], 5, RawJiRatio::octave()), Err(ScaleError::CannotMakeScale));
    assert_eq!(gs_scale(&[r(3, 2)], 0, RawJiRatio::octave()), Err(ScaleError::CannotMakeScale));
    assert_eq!(gs_scale(&[r(3, 2)], 5, RawJiRatio::unison()), Err(ScaleError::CannotMakeScale));
    // An equave below the unison is taken upward.
    assert_eq!(gs_scale(&[r(3, 2)], 5, r(1, 2)).unwrap(), pentatonic);
    // Stacks that land on the same note are kept once.
    assert_eq!(gs_scale(&[r(2, 1)], 3, RawJiRatio::octave()).unwrap(), vec![r(1, 1), RawJiRatio::octave()]);
}

#[test]
fn spectra_and_necklaces() {
    let pentatonic = vec![r(9, 8), r(81, 64), r(3, 2), r(27, 16), RawJiRatio::octave()];
    let seconds = spectrum(&pentatonic, 1);
    assert_eq!(seconds.keys_count(), 2);
    assert_eq!(seconds.get(&r(9, 8)), Some(&3));
    assert_eq!(seconds.get(&r(32, 27)), Some(&2));
    let necklace = well_formed_necklace_in_ji_scale(&pentatonic, 3).unwrap();
    assert_eq!(necklace, vec![r(3, 2), r(3, 2), r(128, 81), r(3, 2), r(3, 2)]);
    assert_eq!(well_formed_necklace_in_ji_scale(&pentatonic, 5), Err(ScaleError::NonCoprimeGenError));
    assert_eq!(well_formed_necklace_in_ji_scale(&pentatonic, 10), Err(ScaleError::NonCoprimeGenError));
}

#[test]
fn scale_texts() {
    assert_eq!(disp_ji_scale(&[r(3, 2), RawJiRatio::octave()]), "3/2 2/1 ");
    assert_eq!(disp_ji_scale(&[]), "");
    assert_eq!(disp_ji_scale_as_enumerated_chord(&[r(5, 4), r(3, 2), RawJiRatio::octave()]), "4:5:6:8");
    assert_eq!(disp_ji_scale_as_enumerated_chord(&[r(7, 6), r(4, 3)]), "6:7:8");
    assert_eq!(disp_ji_scale_as_enumerated_chord(&[]), "1");
}

// ---------------------------------------------------------------------------
// Words
// ---------------------------------------------------------------------------

#[test]
fn rotations_compose() {
    let w = [0usize, 1, 0, 2, 0, 1, 0, 2, 0];
    assert_eq!(rotate(&rotate(&w, 2), 3), rotate(&w, 5));
    assert_eq!(rotate(&w, 9), w.to_vec());
    assert_eq!(rotate(&w, 0), w.to_vec());
}

#[test]
fn mos_substitution_scales_are_sorted_without_repeats() {
    let scales = mos_substitution_scales_one_perm(4, 2, 1);
    assert!(!scales.is_empty());
    for pair in scales.windows(2) {
        assert!(pair[0] < pair[1]);
    }
    for s in &scales {
        assert_eq!(s.len(), 7);
    }
    let all = mos_substitution_scales(&[4, 2, 1]);
    for pair in all.windows(2) {
        assert!(pair[0] < pair[1]);
    }
}

#[test]
fn guide_frames_are_sorted_by_complexity() {
    let blackdye: [usize; 10] = [0, 1, 0, 2, 0, 1, 0, 2, 0, 2];
    let frames = guide_frames(&blackdye);
    assert!(!frames.is_empty());
    for pair in frames.windows(2) {
        assert!(pair[0].complexity() <= pair[1].complexity());
    }
}

// ---------------------------------------------------------------------------
// Diophantine solutions and step signatures
// ---------------------------------------------------------------------------

#[test]
fn diophantine_solutions_are_sorted_and_solve_the_equation() {
    let coeffs = [5, 2, 3];
    assert!(dioph_rec_fits_exec(&coeffs, 7, 3));
    let raw = solve_linear_diophantine_rec(&coeffs, 7, 3);
    let sorted = solve_linear_diophantine(&coeffs, 7, 3);
    for x in &raw {
        assert_eq!(5 * x[0] + 2 * x[1] + 3 * x[2], 7);
        assert!(sorted.contains(x));
    }
    for pair in sorted.windows(2) {
        assert!(pair[0] < pair[1]);
    }
    // One coefficient: the one solution c / a.
    assert_eq!(solve_linear_diophantine_rec(&[2], 6, 1), vec![vec![3]]);
    assert_eq!(solve_linear_diophantine_rec(&[2], 5, 1), Vec::<Vec<i32>>::new());
    // A zero coefficient cannot be divided by.
    assert!(!dioph_rec_fits_exec(&[0], 5, 1));
    assert!(!dioph_rec_fits_exec(&[0, 0], 5, 1));
}

#[test]
fn step_signature_candidates() {
    // Two steps that make an octave, every exponent within 1.
    let candidates = try_step_sig_candidates(&[1, 1], Monzo::octave(), 1).unwrap();
    assert!(candidates.contains(&vec![Monzo::octave(), Monzo::unison()]));
    assert!(candidates.contains(&vec![Monzo::unison(), Monzo::octave()]));
    assert!(candidates.contains(&vec![Monzo::from_slice(&[1, 1]), Monzo::from_slice(&[0, -1])]));
    assert!(!candidates.contains(&vec![Monzo::from_slice(&[-1]), Monzo::from_slice(&[2])]));
    for steps in &candidates {
        assert_eq!(steps.len(), 2);
        assert_eq!(steps[0].add(steps[1]), Monzo::octave());
        for m in steps {
            assert!(m.into_inner().iter().all(|e| e.abs() <= 1));
        }
    }
    assert_eq!(candidates.len(), 2 * 3usize.pow(8));
    assert_eq!(try_step_sig_candidates(&[usize::MAX], Monzo::octave(), 8), None);
}

// ---------------------------------------------------------------------------
// Count vectors from maps, sets and pairs
// ---------------------------------------------------------------------------

#[test]
fn count_vectors_from_pairs_maps_and_sets() {
    let v = CountVector::from_tuples(&[(0usize, 2), (1, 3), (0, 5)]);
    assert_eq!(v.get(&0), Some(&5));
    assert_eq!(v.get(&1), Some(&3));
    assert_eq!(v.keys_count(), 2);
    let zero = CountVector::from_tuples(&[(2usize, 0)]);
    assert_eq!(zero.keys_count(), 1);
    assert_eq!(zero.get(&2), Some(&0));
    let m = BTreeMap::from([(0usize, 3), (1, 1)]);
    let from_map = CountVector::from_btree_map(m.clone());
    assert_eq!(from_map.into_inner(), m);
    assert_eq!(from_map.get(&0), Some(&3));
    let from_set = CountVector::from_btree_set(BTreeSet::from([3usize, 1]));
    assert_eq!(from_set.keys_count(), 2);
    assert_eq!(from_set.get(&1), Some(&1));
    assert_eq!(from_set.get(&3), Some(&1));
    assert_eq!(from_set.get(&2), None);
}
