use tern::helpers::ScaleError;
use tern::ji::{step_count_columns, step_sizes_for_targets};
use tern::monzo::{solve_linear_diophantine_rec, try_step_sig_candidates};
use tern::matrix::{covector_times_matrix, det3, unimodular_inv};
use tern::monzo::Monzo;
use tern::ji_ratio::{BadJiArith, RawJiRatio};
use tern::words::{
    block_balance, booth, word_on_degree,
    chirality, countvector_to_slice, is_strict_variety, least_mode, reversed, rotate, Chirality, monotone_lm, monotone_ms, monotone_s0, rotationally_equivalent,
    strand_on_degree, CountVector,
};

fn r(n: u32, d: u32) -> RawJiRatio {
    RawJiRatio::try_new(n, d).unwrap()
}

#[test]
fn count_vector_scaling() {
    let v = CountVector::from_slice(&[0usize, 0, 1]);
    let tripled = v.scalar_mul(3);
    assert_eq!(tripled.get(&0), Some(&6));
    assert_eq!(tripled.get(&1), Some(&3));
    assert_eq!(tripled.len(), 9);
    let negated = v.scalar_mul(-1);
    assert_eq!(negated, v.neg());
    assert!(v.scalar_mul(0).is_empty());
    assert_eq!(v.scalar_mul(0), CountVector::zero());
}

#[test]
fn dense_counts_of_letters() {
    assert_eq!(countvector_to_slice(CountVector::from_slice(&[0usize, 2, 2])), vec![1, 0, 2]);
    assert_eq!(countvector_to_slice(CountVector::from_slice(&[3usize])), vec![0, 0, 0, 1]);
    assert_eq!(countvector_to_slice(CountVector::zero()), Vec::<i32>::new());
}

#[test]
fn rotational_equivalence() {
    assert!(rotationally_equivalent(&[0usize, 0, 1], &[0, 1, 0]));
    assert!(rotationally_equivalent(&[0usize, 0, 1], &[1, 0, 0]));
    assert!(!rotationally_equivalent(&[0usize, 0, 1], &[0, 1, 1]));
    assert!(!rotationally_equivalent(&[0usize, 0, 1], &[0, 0, 1, 0]));
    assert!(!rotationally_equivalent::<usize>(&[], &[]));
}

#[test]
fn strict_variety() {
    assert!(is_strict_variety(&[0, 0, 0, 1, 0, 0, 1]));
    assert!(!is_strict_variety(&[1, 1, 1, 1, 2, 1, 2]));
    assert!(is_strict_variety(&[0]));
}

#[test]
fn monotone_identifications() {
    let diasem = [0, 1, 0, 2, 0, 1, 0, 2, 0];
    assert!(monotone_lm(&diasem));
    assert!(monotone_ms(&diasem));
    assert!(monotone_s0(&diasem));
    let blackdye = [2, 0, 1, 0, 2, 0, 1, 0, 2, 0];
    assert!(!monotone_lm(&blackdye));
}

#[test]
fn strands_of_dyads() {
    let strand = strand_on_degree(&[0usize, 1, 0, 1], 0, 2).unwrap();
    assert_eq!(strand.len(), 2);
    assert_eq!(strand[0], CountVector::from_slice(&[0usize, 1]));
    assert_eq!(strand[1], CountVector::from_slice(&[0usize, 1]));
    let odd = strand_on_degree(&[0usize, 1, 0, 2], 1, 2).unwrap();
    assert_eq!(odd[0], CountVector::from_slice(&[1usize, 0]));
    assert_eq!(odd[1], CountVector::from_slice(&[2usize, 0]));
    assert_eq!(strand_on_degree(&[0usize, 1, 1], 0, 2), Err(ScaleError::NonDivisibleSubsetError));
}

#[test]
fn named_ratios() {
    assert_eq!(RawJiRatio::pental_maj3(), r(5, 4));
    assert_eq!(RawJiRatio::septimal_min7(), r(7, 4));
    assert_eq!(RawJiRatio::semiaugmented_4th(), r(11, 8));
    assert_eq!(RawJiRatio::harm(7), Ok(r(7, 1)));
    assert!(RawJiRatio::harm(0).is_err());
}

#[test]
fn named_scales() {
    let archylino = RawJiRatio::archylino();
    assert_eq!(archylino, vec![r(9, 8), r(9, 7), r(4, 3), r(3, 2), r(12, 7), r(27, 14), r(2, 1)]);
    let eurybia = RawJiRatio::eurybia();
    assert_eq!(eurybia.len(), 12);
    assert_eq!(eurybia[0], r(23, 22));
    assert_eq!(eurybia[6], r(3, 2));
    assert_eq!(eurybia[11], r(2, 1));
}

#[test]
fn checked_ratio_arithmetic() {
    let mut x = r(3, 2);
    x.div_assign(r(4, 3));
    assert_eq!(x, r(9, 8));
    assert_eq!(RawJiRatio::checked_product(&[r(3, 2), r(4, 3)]), Some(r(2, 1)));
    assert_eq!(RawJiRatio::checked_product(&[]), Some(RawJiRatio::unison()));
    assert_eq!(RawJiRatio::checked_product(&[r(65536, 1), r(65536, 1)]), None);
    assert_eq!(r(3, 2).checked_pow(2), Some(r(9, 4)));
    assert_eq!(r(3, 2).checked_pow(-1), Some(r(2, 3)));
    assert_eq!(r(3, 2).checked_pow(0), Some(RawJiRatio::unison()));
    assert_eq!(r(3, 2).checked_pow(30), None);
    assert_eq!(r(9, 4).checked_rd(RawJiRatio::octave()), Ok(r(9, 8)));
    assert_eq!(r(1, 3).checked_rd(RawJiRatio::octave()), Ok(r(4, 3)));
    assert_eq!(r(9, 4).checked_rd(RawJiRatio::unison()), Err(BadJiArith::LogDivByUnison));
}

#[test]
fn achirality_is_rotational_symmetry_under_reversal() {
    let words: Vec<Vec<usize>> = vec![
        vec![0, 1, 0, 2, 0, 1, 0, 2, 0],
        vec![0, 2, 0, 1, 0, 2, 0, 1, 0],
        vec![2, 0, 1, 0, 2, 0, 1, 0, 2, 0],
        vec![0, 1, 2, 0, 2, 0, 2, 0, 1, 2, 0, 2],
        vec![0, 2, 0, 2, 0, 1, 2, 0, 2, 0, 2, 1],
        vec![0, 0, 0, 1, 0, 0, 1],
        vec![0, 1, 2],
    ];
    for w in &words {
        let rev = reversed(w);
        let c = chirality(w);
        assert_eq!(c == Chirality::Achiral, rotationally_equivalent(w, &rev));
        let mirrored = match c {
            Chirality::Left => Chirality::Right,
            Chirality::Right => Chirality::Left,
            Chirality::Achiral => Chirality::Achiral,
        };
        assert_eq!(chirality(&rev), mirrored);
    }
    assert_eq!(chirality(&[0, 1, 2]), Chirality::Right);
    assert_eq!(chirality(&[0, 2, 1]), Chirality::Left);
}

#[test]
fn least_mode_is_below_every_mode() {
    let w = vec![2, 0, 1, 0, 2, 0, 1, 0, 2, 0];
    let lm = least_mode(&w);
    for i in 0..w.len() {
        assert!(lm <= rotate(&w, i));
    }
    assert_eq!(lm, vec![0, 1, 0, 2, 0, 1, 0, 2, 0, 2]);
}

#[test]
fn blackdye_step_sizes_from_targets() {
    let sig = [5, 2, 3];
    let col1 = [3, 1, 2];
    let col2 = [2, 0, 1];
    assert_eq!(det3(&sig, &col1, &col2), 1);
    assert_eq!(det3(&sig, &col2, &col1), -1);
    assert_eq!(det3(&sig, &sig, &col1), 0);
    let inv = unimodular_inv(&sig, &col1, &col2);
    assert_eq!(covector_times_matrix(&[1, -1, -2], &inv[0], &inv[1], &inv[2]), [1, 4, -4]);
    assert_eq!(covector_times_matrix(&[0, 1, 0], &inv[0], &inv[1], &inv[2]), [-2, -1, 4]);
    assert_eq!(covector_times_matrix(&[0, 0, 1], &inv[0], &inv[1], &inv[2]), [1, -1, -1]);
    let solved = step_sizes_for_targets(
        &sig,
        &col1,
        &col2,
        Monzo::octave(),
        Monzo::from_slice(&[-1, 1]),
        Monzo::from_slice(&[-2, 0, 1]),
    );
    assert_eq!(
        solved,
        Some((Monzo::from_slice(&[1, -2, 1]), Monzo::from_slice(&[4, -1, -1]), Monzo::from_slice(&[-4, 4, -1])))
    );
    let (l, m, s) = solved.unwrap();
    assert_eq!(l.numer(), 10);
    assert_eq!(l.denom(), 9);
    assert_eq!((m.numer(), m.denom()), (16, 15));
    assert_eq!((s.numer(), s.denom()), (81, 80));
}

#[test]
fn step_sizes_out_of_range() {
    let solved = step_sizes_for_targets(
        &[1, 0, 0],
        &[1, 1, 0],
        &[0, 0, 1],
        Monzo::from_slice(&[i32::MIN]),
        Monzo::from_slice(&[i32::MAX]),
        Monzo::unison(),
    );
    assert_eq!(solved, None);
}

#[test]
fn admissible_step_counts() {
    assert_eq!(
        step_count_columns(&[1, 1, 1]),
        vec![[0, 0, 1], [0, 1, 0], [0, 1, 1], [1, 0, 0], [1, 0, 1], [1, 1, 0]]
    );
    assert_eq!(step_count_columns(&[2, 1, 0]), vec![[0, 1, 0], [1, 0, 0], [1, 1, 0]]);
    assert_eq!(step_count_columns(&[0, 0, 0]), Vec::<[i32; 3]>::new());
}

#[test]
fn least_mode_is_shared_by_all_modes() {
    let w = vec![0, 1, 0, 2, 0, 1, 0, 2, 0];
    let lm = least_mode(&w);
    for k in 0..w.len() {
        assert_eq!(least_mode(&rotate(&w, k)), lm);
    }
    assert_eq!(least_mode(&lm), lm);
}

#[test]
fn equal_division_step_counts() {
    let counts = tern::equal::ed_step_counts(&[1, 1, 1], 9);
    assert_eq!(
        counts,
        vec![vec![3, 2, 1], vec![4, 2, 1], vec![4, 3, 1], vec![4, 3, 2], vec![5, 2, 1], vec![5, 3, 1], vec![6, 2, 1]]
    );
    assert_eq!(tern::equal::ed_step_counts(&[5, 2, 3], 3), Vec::<Vec<i32>>::new());
    let blackdye = tern::equal::ed_step_counts(&[5, 2, 3], 53);
    assert!(blackdye.contains(&vec![9, 2, 1]));
    assert!(blackdye.contains(&vec![8, 5, 1]));
    assert!(!blackdye.contains(&vec![9, 3, 1]));
    for t in &blackdye {
        assert!(t[0] > t[1] && t[1] > t[2] && t[2] >= 1);
        assert!(t[0] * 5 + t[1] * 2 + t[2] * 3 <= 53);
    }
}

#[test]
fn booth_rotation_is_the_least_mode() {
    let words: Vec<Vec<usize>> = vec![
        vec![2, 0, 1, 0, 2, 0, 1, 0, 2, 0],
        vec![0, 1, 0, 2, 0, 1, 0, 2, 0],
        vec![1, 1, 0, 1, 1, 1, 0],
        vec![0, 1, 0, 1],
        vec![2, 2, 2],
        vec![1, 0],
        vec![0, 2, 0, 2, 0, 1, 2, 0, 2, 0, 2, 1],
    ];
    for w in &words {
        let k = booth(w);
        assert!(k < w.len());
        assert_eq!(rotate(w, k), least_mode(w));
    }
    assert_eq!(booth(&[1, 1, 0, 1, 1, 1, 0]), 6);
    assert_eq!(booth(&[]), 0);
}

#[test]
fn one_unknown_diophantine_solutions_solve() {
    assert_eq!(solve_linear_diophantine_rec(&[2], 4, 1), vec![vec![2]]);
    assert_eq!(solve_linear_diophantine_rec(&[-3], 6, 5), vec![vec![-2]]);
    assert_eq!(solve_linear_diophantine_rec(&[2], 3, 1), Vec::<Vec<i32>>::new());
    let cands = try_step_sig_candidates(&[2], Monzo::octave(), 2).unwrap();
    for soln in &cands {
        assert_eq!(soln.len(), 1);
        assert_eq!(soln[0].mul(2), Monzo::octave());
    }
}

#[test]
fn full_length_words_on_degrees() {
    assert_eq!(word_on_degree(&[0usize, 1], 0, 2), vec![0, 1]);
    assert_eq!(word_on_degree(&[0usize, 1, 2], 2, 3), vec![2, 0, 1]);
    assert_eq!(word_on_degree(&[0usize, 1, 2], 1, 0), Vec::<usize>::new());
}

#[test]
fn block_balance_counts_absent_letters() {
    assert_eq!(block_balance(&[0, 1]), 1);
    assert_eq!(block_balance(&[0, 0, 1]), 1);
    assert_eq!(block_balance(&[0, 0, 0, 1, 0, 0, 1]), 1);
    assert_eq!(block_balance(&[0, 1, 0, 2, 0, 1, 0, 2, 0]), 1);
    assert_eq!(block_balance(&[0, 0, 1, 1]), 2);
    assert_eq!(block_balance(&[0]), 1);
}

#[test]
fn brightest_mos_mode_is_first_and_darkest_is_last() {
    for (a, b) in [(5usize, 2usize), (2, 5), (3, 2), (1, 1), (4, 3), (1, 6), (7, 1), (5, 3)] {
        let n = a + b;
        let brightest = tern::words::mos_mode(a, b, n - 1);
        let darkest = tern::words::mos_mode(a, b, 0);
        assert_eq!(least_mode(&brightest), brightest);
        assert_eq!(booth(&brightest), 0);
        for k in 0..n {
            let m = rotate(&brightest, k);
            assert!(brightest <= m);
            assert!(m <= darkest);
        }
    }
    assert_eq!(tern::words::mos_mode(5, 2, 0), vec![1, 0, 0, 1, 0, 0, 0]);
}

#[test]
fn count_vector_plus_its_negation_is_zero() {
    for word in [vec![0usize, 0, 1, 0, 2, 1], vec![2, 2, 2], vec![], vec![1, 0]] {
        let v = CountVector::from_slice(&word);
        let n = v.neg();
        assert_eq!(v.add(&n), CountVector::zero());
        assert!(v.add(&n).is_empty());
        assert_eq!(n.neg(), v);
    }
    let v = CountVector::from_tuples(&[(0usize, 3), (4, -2)]);
    assert_eq!(v.neg(), CountVector::from_tuples(&[(0usize, -3), (4, 2)]));
}

#[test]
fn negation_negates_every_count() {
    let v = CountVector::from_tuples(&[(0usize, 3), (2, -5), (7, 1)]);
    let n = v.neg();
    for k in 0..9usize {
        assert_eq!(n.get(&k).copied(), v.get(&k).map(|x| -*x));
    }
}

#[test]
fn brightest_mos_modes_have_booth_zero_variety_two_and_balance_one() {
    for a in 1usize..=9 {
        for b in 1usize..=9 {
            if tern::helpers::gcd(a as u32, b as u32) != 1 {
                continue;
            }
            let brightest = tern::words::mos_mode(a, b, a + b - 1);
            assert_eq!(booth(&brightest), 0);
            assert_eq!(tern::words::maximum_variety(&brightest), 2);
            for br in 0..a + b {
                assert_eq!(block_balance(&tern::words::mos_mode(a, b, br)), 1);
            }
        }
    }
}

#[test]
fn ratios_go_to_monzos_and_back() {
    for (n, d) in [(81u32, 80u32), (3, 2), (5, 4), (7, 6), (1, 1), (2, 1), (15, 14), (19, 16), (23, 22)] {
        let r = RawJiRatio::try_new(n, d).unwrap();
        let m = Monzo::try_from_ratio(r).unwrap();
        assert_eq!(m.try_to_ratio(), Some(r));
    }
}
