use std::collections::BTreeMap;

use tern::helpers::gcd;
use tern::words::{
    block_balance, booth, brightest_mos_mode_and_gener_bjorklund, brightest_mos_mode_and_gener_bresenham,
    chirality, least_mode, maximum_variety, mos_mode, period_pattern, weak_period_pattern,
    word_on_degree, Chirality, CountVector,
};

#[test]
fn test_booth() {
    let blackdye = [2, 0, 1, 0, 2, 0, 1, 0, 2, 0];
    assert_eq!(least_mode(&blackdye), vec![0, 1, 0, 2, 0, 1, 0, 2, 0, 2]);
}

#[test]
fn test_word_on_degree() {
    let blackdye = [2, 0, 1, 0, 2, 0, 1, 0, 2, 0];
    let even_two_steps = (0..5)
        .map(|i| word_on_degree(&blackdye, 2 * i, 2))
        .collect::<Vec<_>>();
    assert_eq!(
        even_two_steps,
        vec![vec![2, 0], vec![1, 0], vec![2, 0], vec![1, 0], vec![2, 0],]
    );
    let odd_two_steps = (0..5)
        .map(|i| word_on_degree(&blackdye, 2 * i + 1, 2))
        .collect::<Vec<_>>();
    assert_eq!(
        odd_two_steps,
        vec![vec![0, 1], vec![0, 2], vec![0, 1], vec![0, 2], vec![0, 2],]
    );
}

#[test]
fn test_spectrum() {
    let diachrome_5sc = [0, 2, 0, 2, 0, 1, 2, 0, 2, 0, 2, 1];
    for i in 1..=11 {
        assert_eq!(
            // .len() of `CountVector` is the taxicab norm, not the number of keys
            CountVector::spectrum(&diachrome_5sc, i).into_inner().len(),
            CountVector::distinct_spectrum(&diachrome_5sc, i).len()
        );
    }
}

#[test]
fn test_chirality() {
    let diasem_2sr = [0, 1, 0, 2, 0, 1, 0, 2, 0];
    let blackdye = [2, 0, 1, 0, 2, 0, 1, 0, 2, 0];
    let diasem_2sl = [0, 2, 0, 1, 0, 2, 0, 1, 0];

    assert_eq!(chirality(&diasem_2sr), Chirality::Right);
    assert_eq!(chirality(&blackdye), Chirality::Achiral);
    assert_eq!(chirality(&diasem_2sl), Chirality::Left);

    let diachrome_5sr = [0, 1, 2, 0, 2, 0, 2, 0, 1, 2, 0, 2];
    let diachrome_5sc = [0, 2, 0, 2, 0, 1, 2, 0, 2, 0, 2, 1];
    let diachrome_5sl = [0, 2, 1, 0, 2, 0, 2, 0, 2, 1, 0, 2];

    assert_eq!(chirality(&diachrome_5sr), Chirality::Right);
    assert_eq!(chirality(&diachrome_5sc), Chirality::Achiral);
    assert_eq!(chirality(&diachrome_5sl), Chirality::Left);
}

#[test]
fn test_period() {
    let word_012 = [0, 1, 2, 0, 1, 2, 0, 1, 2];
    let pentawood = [0, 1, 0, 1, 0, 1, 0, 1, 0, 1];
    let diasem = [0, 1, 0, 2, 0, 1, 0, 2, 0];
    let three_periods = [0, 1, 1, 1, 1, 0, 1, 1, 1, 1, 0, 1, 1, 1, 1];
    assert_eq!(period_pattern(&word_012).len(), 3);
    assert_eq!(period_pattern(&pentawood).len(), 2);
    assert_eq!(period_pattern(&diasem).len(), 9);
    assert_eq!(period_pattern(&three_periods).len(), 5);
}

#[test]
fn test_weak_period_pattern() {
    let word_012 = [0, 1, 2, 0, 1, 2, 0, 1, 2];
    let pentawood = [0, 1, 0, 1, 0, 1, 0, 1, 0, 1];
    let diasem = [0, 1, 0, 2, 0, 1, 0, 2, 0];
    assert_eq!(weak_period_pattern(&word_012).len(), 3);
    assert_eq!(weak_period_pattern(&pentawood).len(), 2);
    assert_eq!(weak_period_pattern(&diasem).len(), 4);
}

#[test]
fn test_maximum_variety() {
    assert_eq!(maximum_variety(&[0, 0, 0, 0]), 1); // check even and odd
    assert_eq!(maximum_variety(&[1, 1, 1, 1, 1]), 1);
    assert_eq!(maximum_variety(&[0, 0, 0, 1, 0, 0, 1]), 2); // diatonic has max variety 2
    assert_eq!(maximum_variety(&[1, 1, 1, 1, 2, 1, 2]), 3); // altered diatonic has max variety 3
    assert_eq!(maximum_variety(&[0, 1, 0, 2, 0, 1, 0, 2, 0]), 3); // diasem has max variety 3
    assert_eq!(maximum_variety(&[0, 1, 0, 2, 0, 1, 0, 2, 0, 1]), 4); // blackdye has max variety 4
    // MOS scales should be MV2.
    for a in 1usize..=10 {
        for b in 1usize..=10 {
            if gcd(a as u32, b as u32) == 1 {
                let (mos_bjork, gener_bjork) = brightest_mos_mode_and_gener_bjorklund(a, b);
                assert_eq!(booth(&mos_bjork), 0); // MOS scales' brightest mode is indeed the least mode
                assert_eq!(maximum_variety(&mos_bjork), 2);
                let (mos_bres, gener_bres) = brightest_mos_mode_and_gener_bresenham(a, b);
                assert_eq!(mos_bres, mos_bjork); // Bjorklund and Bresenham should agree
                assert_eq!(gener_bres, gener_bjork); // Bright generators should agree
            }
        }
    }
}

#[test]
fn test_mos_block_balanced() {
    // MOS scales should have block balance 1.
    for a in 3..=20 {
        for b in 3..=20 {
            if gcd(a, b) == 1 {
                for br in 0..(a + b) / gcd(a, b) {
                    let mos = mos_mode(a as usize, b as usize, br as usize);
                    assert_eq!(block_balance(&mos), 1);
                }
            }
        }
    }
}

#[test]
fn test_brightest_gener_of_mos() {
    let diatonic = brightest_mos_mode_and_gener_bresenham(5, 2);
    assert_eq!(diatonic.0, vec![0, 0, 0, 1, 0, 0, 1]);
    assert_eq!(diatonic.1.into_inner(), BTreeMap::from([(0, 3), (1, 1)]));
    let oneirotonic = brightest_mos_mode_and_gener_bresenham(5, 3);
    assert_eq!(oneirotonic.0, vec![0, 0, 1, 0, 0, 1, 0, 1]);
    assert_eq!(oneirotonic.1.into_inner(), BTreeMap::from([(0, 2), (1, 1)]));
}
