use tern::equal::Val;
use tern::guide::{guide_frames, GuideFrame};
use tern::ji::{gs_scale, harmonic_mode, is_cs_ji_scale, mode, odd_limit, spectrum, step_form};
use tern::ji_ratio::RawJiRatio;
use tern::monzo::{CantMakeMonzo, Monzo};
use tern::words::{
    chirality, is_monotone_mos, is_mos_subst, is_mos_subst_one_perm, is_pairwise_mos, least_mode, maximum_variety,
    maximum_variety_is, mos_substitution_scales_one_perm, period_pattern, rotate, rotations, subst,
    weak_period_pattern, Chirality, CountVector, Letter,
};

fn r(n: u32, d: u32) -> RawJiRatio {
    RawJiRatio::try_new(n, d).unwrap()
}

#[test]
fn example_val_tempers_syntonic_comma() {
    let val_12 = Val::from_slice(&[12, 19, 28]);
    assert_eq!(val_12.evaluate(Monzo::from_slice(&[-4, 4, -1])), 0);
    assert_eq!(val_12.evaluate(Monzo::from_slice(&[-2, 0, 1])), 4);
    let patent_12 = Val::from_slice(&[12, 19, 28, 34]);
    assert_eq!(patent_12.evaluate(Monzo::from_slice(&[1])), 12);
    assert_eq!(patent_12.evaluate(Monzo::from_slice(&[-1, 1])), 7);
}

#[test]
fn example_guide_frame_of_diasem() {
    let diasem = [0, 1, 0, 2, 0, 1, 0, 2, 0];
    let frames = guide_frames(&diasem);
    let frame = &frames[0];
    assert_eq!(frame.gs.len(), 2);
    assert_eq!(frame.multiplicity(), 1);
    assert_eq!(frame.complexity(), 2);
}

#[test]
fn example_guide_frame_of_diamech() {
    let diamech_4sr = vec![0, 2, 0, 1, 0, 2, 0, 2, 0, 1, 2];
    let gfs = guide_frames(&diamech_4sr);
    assert!(gfs.contains(&GuideFrame::new_simple(vec![
        CountVector::from_slice(&[0, 2]),
        CountVector::from_slice(&[0, 1]),
        CountVector::from_slice(&[0, 2]),
    ])));
}

#[test]
fn example_five_odd_limit() {
    let mut five_limit = odd_limit(5);
    five_limit.sort_by(|a, b| {
        (a.numer() as u64 * b.denom() as u64).cmp(&(b.numer() as u64 * a.denom() as u64))
    });
    assert_eq!(five_limit, vec![r(6, 5), r(5, 4), r(4, 3), r(3, 2), r(8, 5), r(5, 3)]);
    assert!(odd_limit(9).len() > five_limit.len());
}

#[test]
fn example_pentatonic_seconds() {
    let pentatonic = vec![r(9, 8), r(81, 64), r(3, 2), r(27, 16), RawJiRatio::octave()];
    let seconds = spectrum(&pentatonic, 1);
    assert_eq!(seconds.keys_count(), 2);
    assert_eq!(seconds.get(&r(9, 8)), Some(&3));
    assert_eq!(seconds.get(&r(32, 27)), Some(&2));
}

#[test]
fn example_harmonic_modes() {
    let mode_4 = harmonic_mode(4).unwrap();
    assert_eq!(mode_4.len(), 4);
    assert_eq!(mode_4[0], r(5, 4));
    assert_eq!(mode_4[3], RawJiRatio::octave());
    let mode_8 = harmonic_mode(8).unwrap();
    assert_eq!(mode_8.len(), 8);
}

#[test]
fn example_pythagorean_major_is_cs() {
    let pyth_major = vec![r(9, 8), r(81, 64), r(4, 3), r(3, 2), r(27, 16), r(243, 128), RawJiRatio::octave()];
    assert!(is_cs_ji_scale(&pyth_major));
}

#[test]
fn example_generator_sequence_scales() {
    let pentatonic = gs_scale(&[r(3, 2)], 5, RawJiRatio::octave()).unwrap();
    assert_eq!(pentatonic.len(), 5);
    let scale = gs_scale(&[r(7, 6), r(8, 7)], 5, RawJiRatio::octave()).unwrap();
    assert_eq!(scale.len(), 5);
}

#[test]
fn example_ratio_reduction() {
    let ratio = r(6, 4);
    assert_eq!(ratio.numer(), 3);
    assert_eq!(ratio.denom(), 2);
    let ratio = r(12, 8);
    assert_eq!(ratio.numer(), 3);
    assert_eq!(ratio.denom(), 2);
    assert!(RawJiRatio::try_new(5, 0).is_err());
}

#[test]
fn example_monzo_ratios() {
    let syntonic_comma = Monzo::from_slice(&[-4, 4, -1]);
    assert_eq!(syntonic_comma.numer(), 81);
    assert_eq!(syntonic_comma.denom(), 80);
    let fifth = Monzo::try_new(3, 2).unwrap();
    assert_eq!(fifth.numer(), 3);
    assert_eq!(fifth.denom(), 2);
    assert_eq!(fifth, Monzo::pyth_5th());
    assert_eq!(Monzo::try_new(5, 4).unwrap(), Monzo::from_slice(&[-2, 0, 1]));
    assert!(matches!(Monzo::try_new(0, 1), Err(CantMakeMonzo::NumerCantBeZero)));
}

#[test]
fn example_chirality_of_diatonic_and_diasem() {
    assert_eq!(chirality(&[0, 0, 0, 1, 0, 0, 1]), Chirality::Achiral);
    assert_eq!(chirality(&[0, 1, 0, 2, 0, 1, 0, 2, 0]), Chirality::Right);
}

#[test]
fn example_count_vector_of_diatonic() {
    let steps = CountVector::from_slice(&[0usize, 0, 0, 1, 0, 0, 1]);
    assert_eq!(steps.get(&0), Some(&5));
    assert_eq!(steps.get(&1), Some(&2));
    assert_eq!(steps.len(), 7);
}

#[test]
fn example_maximum_varieties() {
    let diatonic = [0, 0, 1, 0, 0, 0, 1];
    let diasem = [0, 1, 0, 2, 0, 1, 0, 2, 0];
    let blackdye = [2, 0, 1, 0, 2, 0, 1, 0, 2, 0];
    assert_eq!(maximum_variety(&diatonic), 2);
    assert_eq!(maximum_variety(&diasem), 3);
    assert_eq!(maximum_variety(&blackdye), 4);
    assert!(maximum_variety_is(&diatonic, 2));
    assert!(maximum_variety_is(&diasem, 3));
    assert!(maximum_variety_is(&blackdye, 4));
}

#[test]
fn example_rotate_lydian() {
    let lydian = vec![0, 0, 0, 1, 0, 0, 1];
    assert_eq!(rotate(&lydian, 1), vec![0, 0, 1, 0, 0, 1, 0]);
}

#[test]
fn example_least_mode_of_ionian() {
    let ionian = vec![0, 0, 1, 0, 0, 0, 1];
    assert_eq!(least_mode(&ionian), vec![0, 0, 0, 1, 0, 0, 1]);
}

#[test]
fn example_subst() {
    let template = vec![0, 1, 1, 0, 1, 1, 1];
    assert_eq!(subst(&template, 1, &[1, 2]), vec![0, 1, 2, 0, 1, 2, 1]);
}

#[test]
fn example_one_perm_substitution_count() {
    assert_eq!(mos_substitution_scales_one_perm(6, 5, 5).len(), 1);
}

#[test]
fn example_mos_substitution() {
    let blackdye: Vec<Letter> = vec![2, 0, 1, 0, 2, 0, 1, 0, 2, 0];
    assert!(is_mos_subst(&blackdye));
    let nonexample: Vec<Letter> = vec![1, 2, 0, 0, 0, 0, 0, 2, 1, 0, 0, 0, 0, 2, 0, 0, 0];
    assert!(!is_mos_subst(&nonexample));
    assert!(is_mos_subst_one_perm(&blackdye, 0, 1, 2));
    assert!(!is_mos_subst_one_perm(&blackdye, 1, 0, 2));
}

#[test]
fn example_monotone_and_pairwise_mos() {
    let diasem_2sr = [0, 1, 0, 2, 0, 1, 0, 2, 0];
    let blackdye = [2, 0, 1, 0, 2, 0, 1, 0, 2, 0];
    assert!(is_monotone_mos(&diasem_2sr));
    assert!(!is_monotone_mos(&blackdye));
    assert!(is_pairwise_mos(&diasem_2sr));
    assert!(!is_pairwise_mos(&blackdye));
}

#[test]
fn example_period_patterns() {
    let diminished = [0, 1, 0, 1, 0, 1, 0, 1];
    let diasem_2sr = [0, 1, 0, 2, 0, 1, 0, 2, 0];
    assert_eq!(period_pattern::<Letter>(&diminished), vec![0, 1]);
    assert_eq!(period_pattern::<Letter>(&diasem_2sr), diasem_2sr.to_vec());
    assert_eq!(weak_period_pattern::<Letter>(&diminished), vec![0, 1]);
    assert_eq!(weak_period_pattern::<Letter>(&diasem_2sr), vec![0, 1, 0, 2]);
}

#[test]
fn example_rotations() {
    assert_eq!(rotations::<Letter>(&[0, 0, 1, 0, 0, 0, 1]).len(), 7);
    assert_eq!(rotations::<Letter>(&[0, 1, 0, 1, 0, 1, 0, 1]).len(), 2);
}

#[test]
fn example_zarlino_forms_and_modes() {
    let zarlino = vec![r(9, 8), r(5, 4), r(4, 3), r(3, 2), r(5, 3), r(15, 8), RawJiRatio::octave()];
    assert_eq!(RawJiRatio::zarlino(), zarlino);
    let steps = step_form(&zarlino);
    assert_eq!(steps.len(), 7);
    assert_eq!(steps, vec![r(9, 8), r(10, 9), r(16, 15), r(9, 8), r(10, 9), r(9, 8), r(16, 15)]);
    let dorian = mode(&zarlino, 1);
    assert_eq!(dorian.len(), 7);
    assert!(is_cs_ji_scale(&zarlino));
}

#[test]
fn example_ratio_stacking_and_reduction() {
    let fifth = RawJiRatio::pyth_5th();
    let fourth = RawJiRatio::pyth_4th();
    assert_eq!(fifth.stack(fourth), RawJiRatio::octave());
    let ninth = fifth.stack(fifth);
    let reduced = ninth.rd(RawJiRatio::octave());
    assert_eq!(reduced, r(9, 8));
    let cents = ((reduced.numer() as f64) / (reduced.denom() as f64)).log2() * 1200.0;
    assert_eq!(cents.round(), 204.0);
}

#[test]
fn example_monzo_arithmetic() {
    let syntonic_comma = Monzo::try_new(81, 80).unwrap();
    assert_eq!(syntonic_comma.numer(), 81);
    assert_eq!(syntonic_comma.denom(), 80);
    assert_eq!(syntonic_comma, Monzo::from_slice(&[-4, 4, -1]));
    assert_eq!(Monzo::octave().unstack(Monzo::pyth_5th()), Monzo::pyth_4th());
}

#[test]
fn example_diatonic_words() {
    let lydian = vec![0, 0, 0, 1, 0, 0, 1];
    assert_eq!(rotate(&lydian, 1), vec![0, 0, 1, 0, 0, 1, 0]);
    assert_eq!(least_mode(&lydian), vec![0, 0, 0, 1, 0, 0, 1]);
    assert_eq!(maximum_variety(&lydian), 2);
    assert_eq!(chirality(&lydian), Chirality::Achiral);
    let diasem = [0, 1, 0, 2, 0, 1, 0, 2, 0];
    let frames = guide_frames(&diasem);
    assert!(!frames.is_empty());
    assert_eq!(frames[0].complexity(), 2);
}
