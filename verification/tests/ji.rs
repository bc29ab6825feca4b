use tern::ji::{gs_scale, is_cs_ji_scale, ji_scale_modes, spectrum};
use tern::ji_ratio::RawJiRatio;

#[test]
fn test_ji_spectrum() {
    // Pythagorean pentatonic: 1/1 9/8 81/64 3/2 27/16 2/1
    let pentatonic = vec![
        RawJiRatio::try_new(9, 8).unwrap(),
        RawJiRatio::try_new(81, 64).unwrap(),
        RawJiRatio::try_new(3, 2).unwrap(),
        RawJiRatio::try_new(27, 16).unwrap(),
        RawJiRatio::octave(),
    ];
    // Get the 1-step spectrum (seconds)
    let seconds = spectrum(&pentatonic, 1);
    // Pentatonic has exactly two step sizes: 9/8 (whole tone) and 32/27 (minor third)
    assert_eq!(seconds.keys_count(), 2);
}

#[test]
fn test_ji_scale_modes() {
    let diasem_modes = ji_scale_modes(&RawJiRatio::tas_9());
    let correct_diasem_modes = vec![
        vec![
            RawJiRatio::try_new(9, 8).unwrap(),
            RawJiRatio::try_new(7, 6).unwrap(),
            RawJiRatio::try_new(21, 16).unwrap(),
            RawJiRatio::try_new(4, 3).unwrap(),
            RawJiRatio::try_new(3, 2).unwrap(),
            RawJiRatio::try_new(14, 9).unwrap(),
            RawJiRatio::try_new(7, 4).unwrap(),
            RawJiRatio::try_new(16, 9).unwrap(),
            RawJiRatio::octave(),
        ],
        vec![
            RawJiRatio::try_new(28, 27).unwrap(),
            RawJiRatio::try_new(7, 6).unwrap(),
            RawJiRatio::try_new(32, 27).unwrap(),
            RawJiRatio::try_new(4, 3).unwrap(),
            RawJiRatio::try_new(112, 81).unwrap(),
            RawJiRatio::try_new(14, 9).unwrap(),
            RawJiRatio::try_new(128, 81).unwrap(),
            RawJiRatio::try_new(16, 9).unwrap(),
            RawJiRatio::octave(),
        ],
        vec![
            RawJiRatio::try_new(9, 8).unwrap(),
            RawJiRatio::try_new(8, 7).unwrap(),
            RawJiRatio::try_new(9, 7).unwrap(),
            RawJiRatio::try_new(4, 3).unwrap(),
            RawJiRatio::try_new(3, 2).unwrap(),
            RawJiRatio::try_new(32, 21).unwrap(),
            RawJiRatio::try_new(12, 7).unwrap(),
            RawJiRatio::try_new(27, 14).unwrap(),
            RawJiRatio::octave(),
        ],
        vec![
            RawJiRatio::try_new(64, 63).unwrap(),
            RawJiRatio::try_new(8, 7).unwrap(),
            RawJiRatio::try_new(32, 27).unwrap(),
            RawJiRatio::try_new(4, 3).unwrap(),
            RawJiRatio::try_new(256, 189).unwrap(),
            RawJiRatio::try_new(32, 21).unwrap(),
            RawJiRatio::try_new(12, 7).unwrap(),
            RawJiRatio::try_new(16, 9).unwrap(),
            RawJiRatio::octave(),
        ],
        vec![
            RawJiRatio::try_new(9, 8).unwrap(),
            RawJiRatio::try_new(7, 6).unwrap(),
            RawJiRatio::try_new(21, 16).unwrap(),
            RawJiRatio::try_new(4, 3).unwrap(),
            RawJiRatio::try_new(3, 2).unwrap(),
            RawJiRatio::try_new(27, 16).unwrap(),
            RawJiRatio::try_new(7, 4).unwrap(),
            RawJiRatio::try_new(63, 32).unwrap(),
            RawJiRatio::octave(),
        ],
        vec![
            RawJiRatio::try_new(28, 27).unwrap(),
            RawJiRatio::try_new(7, 6).unwrap(),
            RawJiRatio::try_new(32, 27).unwrap(),
            RawJiRatio::try_new(4, 3).unwrap(),
            RawJiRatio::try_new(3, 2).unwrap(),
            RawJiRatio::try_new(14, 9).unwrap(),
            RawJiRatio::try_new(7, 4).unwrap(),
            RawJiRatio::try_new(16, 9).unwrap(),
            RawJiRatio::octave(),
        ],
        vec![
            RawJiRatio::try_new(9, 8).unwrap(),
            RawJiRatio::try_new(8, 7).unwrap(),
            RawJiRatio::try_new(9, 7).unwrap(),
            RawJiRatio::try_new(81, 56).unwrap(),
            RawJiRatio::try_new(3, 2).unwrap(),
            RawJiRatio::try_new(27, 16).unwrap(),
            RawJiRatio::try_new(12, 7).unwrap(),
            RawJiRatio::try_new(27, 14).unwrap(),
            RawJiRatio::octave(),
        ],
        vec![
            RawJiRatio::try_new(64, 63).unwrap(),
            RawJiRatio::try_new(8, 7).unwrap(),
            RawJiRatio::try_new(9, 7).unwrap(),
            RawJiRatio::try_new(4, 3).unwrap(),
            RawJiRatio::try_new(3, 2).unwrap(),
            RawJiRatio::try_new(32, 21).unwrap(),
            RawJiRatio::try_new(12, 7).unwrap(),
            RawJiRatio::try_new(16, 9).unwrap(),
            RawJiRatio::octave(),
        ],
        vec![
            RawJiRatio::try_new(9, 8).unwrap(),
            RawJiRatio::try_new(81, 64).unwrap(),
            RawJiRatio::try_new(21, 16).unwrap(),
            RawJiRatio::try_new(189, 128).unwrap(),
            RawJiRatio::try_new(3, 2).unwrap(),
            RawJiRatio::try_new(27, 16).unwrap(),
            RawJiRatio::try_new(7, 4).unwrap(),
            RawJiRatio::try_new(63, 32).unwrap(),
            RawJiRatio::octave(),
        ],
    ];
    assert_eq!(diasem_modes, correct_diasem_modes);
}
#[test]
fn test_gs() {
    let tas_scales: Vec<_> = (1..=8)
        .map(|i| {
            gs_scale(
                &[
                    RawJiRatio::try_new(7, 6).unwrap(),
                    RawJiRatio::try_new(8, 7).unwrap(),
                ],
                i,
                RawJiRatio::octave(),
            )
            .unwrap()
        })
        .collect();
    assert_eq!(
        tas_scales,
        vec![
            vec![RawJiRatio::octave()],
            vec![RawJiRatio::try_new(7, 6).unwrap(), RawJiRatio::octave()],
            vec![
                RawJiRatio::try_new(7, 6).unwrap(),
                RawJiRatio::try_new(4, 3).unwrap(),
                RawJiRatio::octave(),
            ],
            vec![
                RawJiRatio::try_new(7, 6).unwrap(),
                RawJiRatio::try_new(4, 3).unwrap(),
                RawJiRatio::try_new(14, 9).unwrap(),
                RawJiRatio::octave(),
            ],
            vec![
                RawJiRatio::try_new(7, 6).unwrap(),
                RawJiRatio::try_new(4, 3).unwrap(),
                RawJiRatio::try_new(14, 9).unwrap(),
                RawJiRatio::try_new(16, 9).unwrap(),
                RawJiRatio::octave(),
            ],
            vec![
                RawJiRatio::try_new(28, 27).unwrap(),
                RawJiRatio::try_new(7, 6).unwrap(),
                RawJiRatio::try_new(4, 3).unwrap(),
                RawJiRatio::try_new(14, 9).unwrap(),
                RawJiRatio::try_new(16, 9).unwrap(),
                RawJiRatio::octave(),
            ],
            vec![
                RawJiRatio::try_new(28, 27).unwrap(),
                RawJiRatio::try_new(7, 6).unwrap(),
                RawJiRatio::try_new(32, 27).unwrap(),
                RawJiRatio::try_new(4, 3).unwrap(),
                RawJiRatio::try_new(14, 9).unwrap(),
                RawJiRatio::try_new(16, 9).unwrap(),
                RawJiRatio::octave(),
            ],
            vec![
                RawJiRatio::try_new(28, 27).unwrap(),
                RawJiRatio::try_new(7, 6).unwrap(),
                RawJiRatio::try_new(32, 27).unwrap(),
                RawJiRatio::try_new(4, 3).unwrap(),
                RawJiRatio::try_new(112, 81).unwrap(),
                RawJiRatio::try_new(14, 9).unwrap(),
                RawJiRatio::try_new(16, 9).unwrap(),
                RawJiRatio::octave(),
            ],
        ]
    );

    let zil_gs = [
        RawJiRatio::try_new(7, 4).unwrap(),
        RawJiRatio::try_new(12, 7).unwrap(),
        RawJiRatio::try_new(7, 4).unwrap(),
        RawJiRatio::try_new(12, 7).unwrap(),
        RawJiRatio::try_new(7, 4).unwrap(),
        RawJiRatio::try_new(12, 7).unwrap(),
        RawJiRatio::try_new(7, 4).unwrap(),
        RawJiRatio::try_new(320, 189).unwrap(),
        RawJiRatio::try_new(7, 4).unwrap(),
        RawJiRatio::try_new(12, 7).unwrap(),
    ];
    let zil_24 = gs_scale(&zil_gs, 24, RawJiRatio::octave()).unwrap();
    let correct_zil_24 = vec![
        RawJiRatio::try_new(525, 512).unwrap(),
        RawJiRatio::try_new(135, 128).unwrap(),
        RawJiRatio::try_new(35, 32).unwrap(),
        RawJiRatio::try_new(9, 8).unwrap(),
        RawJiRatio::try_new(4725, 4096).unwrap(),
        RawJiRatio::try_new(75, 64).unwrap(),
        RawJiRatio::try_new(315, 256).unwrap(),
        RawJiRatio::try_new(5, 4).unwrap(),
        RawJiRatio::try_new(21, 16).unwrap(),
        RawJiRatio::try_new(675, 512).unwrap(),
        RawJiRatio::try_new(2835, 2048).unwrap(),
        RawJiRatio::try_new(45, 32).unwrap(),
        RawJiRatio::try_new(189, 128).unwrap(),
        RawJiRatio::try_new(3, 2).unwrap(),
        RawJiRatio::try_new(1575, 1024).unwrap(),
        RawJiRatio::try_new(405, 256).unwrap(),
        RawJiRatio::try_new(105, 64).unwrap(),
        RawJiRatio::try_new(27, 16).unwrap(),
        RawJiRatio::try_new(7, 4).unwrap(),
        RawJiRatio::try_new(225, 128).unwrap(),
        RawJiRatio::try_new(945, 512).unwrap(),
        RawJiRatio::try_new(15, 8).unwrap(),
        RawJiRatio::try_new(63, 32).unwrap(),
        RawJiRatio::octave(),
    ];
    assert_eq!(zil_24, correct_zil_24);
}

#[test]
fn test_cs() {
    assert!(is_cs_ji_scale(&RawJiRatio::pyth_5()));
    assert!(is_cs_ji_scale(&RawJiRatio::pyth_7()));
    assert!(is_cs_ji_scale(&RawJiRatio::zarlino()));
    assert!(is_cs_ji_scale(&RawJiRatio::tas_5()));
    assert!(is_cs_ji_scale(&RawJiRatio::tas_9()));
    assert!(is_cs_ji_scale(&RawJiRatio::blackdye()));
}

