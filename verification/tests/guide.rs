use std::collections::BTreeSet;

use tern::guide::{guide_frames, guided_gs_chains, guided_gs_list, guided_gs_list_of_len, stacked_step_class, GuideFrame};
use tern::words::{CountVector, Letter};

#[test]
fn test_lllmllms() {
    let bad_scale: [usize; 8] = [0, 0, 0, 1, 0, 0, 1, 2];
    let complexity_2_gses = GuideFrame::try_multiple(&bad_scale, 2, 2);
    println!("{complexity_2_gses:?}");
    assert!(complexity_2_gses.is_empty());
}

#[test]
fn test_blackdye() {
    let blackdye: [usize; 10] = [0, 1, 0, 2, 0, 1, 0, 2, 0, 2];
    let should_have_mult_2 = GuideFrame::try_multiple(&blackdye, 2, 4);
    assert!(!should_have_mult_2.is_empty());
}

#[test]
fn test_fix_bug_for_4sr() {
    let diamech_4sr: [Letter; 11] = [0, 2, 0, 1, 0, 2, 0, 2, 0, 1, 2];

    assert!(guided_gs_list_of_len(3, &diamech_4sr).contains(&vec![
        CountVector::from_slice(&[0, 2]),
        CountVector::from_slice(&[0, 1]),
        CountVector::from_slice(&[0, 2]),
    ]));
    assert!(guided_gs_list(&diamech_4sr).contains(&vec![
        CountVector::from_slice(&[0, 2]),
        CountVector::from_slice(&[0, 1]),
        CountVector::from_slice(&[0, 2]),
    ]));
    let guide_frames = GuideFrame::try_simple(&diamech_4sr, 2);
    assert!(guide_frames.contains(&GuideFrame::new_simple(vec![
        CountVector::from_slice(&[0, 2]),
        CountVector::from_slice(&[0, 1]),
        CountVector::from_slice(&[0, 2]),
    ])));
}

#[test]
fn test_guided_gs_based_guide_frame() {
    let pinedye = [0, 0, 1, 0, 1, 0, 0, 2];
    let pinedye_guide_moses = guide_frames(&pinedye);
    assert!(pinedye_guide_moses.contains(&GuideFrame::new_simple(vec![
        CountVector::from_slice(&[0, 0, 2]),
        CountVector::from_slice(&[0, 0, 1]),
        CountVector::from_slice(&[0, 0, 1]),
    ])));

    let diasem = [0, 1, 0, 2, 0, 1, 0, 2, 0];
    let diasem_guide_moses = guide_frames(&diasem);
    assert!(diasem_guide_moses.contains(&GuideFrame::new_simple(vec![
        CountVector::from_slice(&[0, 1]),
        CountVector::from_slice(&[0, 2])
    ])));
    assert_eq!(
        GuideFrame::new_simple(vec![CountVector::from_slice(&[0, 1]), CountVector::from_slice(&[0, 2])],)
            .complexity(),
        2
    );
    let blackdye: [usize; 10] = [0, 1, 0, 2, 0, 1, 0, 2, 0, 2];
    let blackdye_guide_moses = guide_frames(&blackdye);
    assert!(blackdye_guide_moses.contains(&GuideFrame::new_multiple(
        vec![CountVector::from_slice(&[0, 0, 1, 2]),],
        vec![CountVector::zero(), CountVector::from_slice(&[0]),]
    )));

    let diamech_4sl: [usize; 11] = [1, 0, 2, 0, 2, 0, 1, 0, 2, 0, 2];
    let diamech_guide_moses = guide_frames(&diamech_4sl);
    assert!(diamech_guide_moses.contains(&GuideFrame::new_simple(vec![
        CountVector::from_slice(&[0, 2]),
        CountVector::from_slice(&[0, 2]),
        CountVector::from_slice(&[0, 1]),
    ],)));
    assert_eq!(
        GuideFrame::new_simple(vec![
            CountVector::from_slice(&[0, 2]),
            CountVector::from_slice(&[0, 2]),
            CountVector::from_slice(&[0, 1]),
        ])
        .complexity(),
        3
    );

    let diachrome_5sc = [0, 2, 0, 2, 0, 1, 2, 0, 2, 0, 2, 1];
    let diachrome_guide_moses = guide_frames(&diachrome_5sc);
    assert!(
        diachrome_guide_moses.contains(&GuideFrame::new_multiple(
            vec![CountVector::from_slice(&[0, 0, 1, 2, 2]),],
            vec![CountVector::zero(), CountVector::from_slice(&[0, 0, 0, 1, 2, 2]),],
        )) || diachrome_guide_moses.contains(&GuideFrame::new_multiple(
            vec![CountVector::from_slice(&[0, 0, 1, 2, 2]),],
            vec![CountVector::zero(), CountVector::from_slice(&[0, 0, 1, 2, 2, 2]),],
        ))
    );
    assert_eq!(
        GuideFrame::new_multiple(
            vec![CountVector::from_slice(&[0, 0, 1, 2, 2])],
            vec![CountVector::zero(), CountVector::from_slice(&[0, 0, 1, 2, 2, 2]),],
        )
        .complexity(),
        2
    );

    assert_eq!(
        GuideFrame::new_multiple(
            vec![CountVector::from_slice(&[0, 0, 1, 2, 2])],
            vec![CountVector::zero(), CountVector::from_slice(&[0, 0, 1, 2, 2, 2]),],
        )
        .multiplicity(),
        2
    );
}

#[test]
fn test_stacked_step_class() {
    let diasem: [usize; 9] = [0, 1, 0, 2, 0, 1, 0, 2, 0];
    let one_steps = stacked_step_class(1, &diasem);
    assert_eq!(
        one_steps,
        vec![
            CountVector::from_slice(&[0]),
            CountVector::from_slice(&[1]),
            CountVector::from_slice(&[0]),
            CountVector::from_slice(&[2]),
            CountVector::from_slice(&[0]),
            CountVector::from_slice(&[1]),
            CountVector::from_slice(&[0]),
            CountVector::from_slice(&[2]),
            CountVector::from_slice(&[0]),
        ]
    );
    let two_steps = stacked_step_class(2, &diasem);
    assert_eq!(
        two_steps,
        vec![
            CountVector::from_slice(&[0, 1]),
            CountVector::from_slice(&[0, 2]),
            CountVector::from_slice(&[0, 1]),
            CountVector::from_slice(&[0, 2]),
            CountVector::from_slice(&[0, 0]),
            CountVector::from_slice(&[0, 1]),
            CountVector::from_slice(&[0, 2]),
            CountVector::from_slice(&[0, 1]),
            CountVector::from_slice(&[0, 2]),
        ]
    );
    let three_steps = stacked_step_class(3, &diasem);
    assert_eq!(
        three_steps,
        vec![
            CountVector::from_slice(&[0, 1, 0]),
            CountVector::from_slice(&[2, 0, 1]),
            CountVector::from_slice(&[0, 2, 0]),
            CountVector::from_slice(&[0, 1, 0]),
            CountVector::from_slice(&[2, 0, 1]),
            CountVector::from_slice(&[0, 2, 0]),
            CountVector::from_slice(&[0, 1, 0]),
            CountVector::from_slice(&[2, 0, 1]),
            CountVector::from_slice(&[0, 2, 0]),
        ]
    );
}

#[test]
fn test_guided_gs_chains() {
    let diasem: [usize; 9] = [0, 1, 0, 2, 0, 1, 0, 2, 0];
    let two_steps = stacked_step_class(2, &diasem);
    let chains = guided_gs_chains(two_steps.as_slice());
    assert_eq!(
        chains,
        vec![vec![CountVector::from_slice(&[0, 1]), CountVector::from_slice(&[0, 2]),]]
    );
    let four_steps = stacked_step_class(4, &diasem);
    let chains = guided_gs_chains(four_steps.as_slice());
    assert_eq!(
        BTreeSet::from_iter(chains.into_iter()),
        BTreeSet::from_iter(
            vec![
                vec![
                    CountVector::from_slice(&[1, 0, 2, 0]),
                    CountVector::from_slice(&[1, 0, 2, 0]),
                    CountVector::from_slice(&[0, 1, 0, 2]),
                    CountVector::from_slice(&[0, 1, 0, 2]),
                    CountVector::from_slice(&[0, 0, 1, 0]),
                ],
                vec![
                    CountVector::from_slice(&[2, 0, 1, 0]),
                    CountVector::from_slice(&[2, 0, 0, 1]),
                    CountVector::from_slice(&[0, 2, 0, 1]),
                    CountVector::from_slice(&[0, 2, 0, 0]),
                    CountVector::from_slice(&[1, 0, 2, 0]),
                ]
            ]
            .into_iter()
        )
    );
}

#[test]
fn test_gets_len_2_guided_gs_for_diasem() {
    let diasem: [usize; 9] = [0, 1, 0, 2, 0, 1, 0, 2, 0];
    let gener_seqs = guided_gs_list_of_len(2, &diasem);
    assert_eq!(
        gener_seqs,
        vec![vec![CountVector::from_slice(&[0, 1]), CountVector::from_slice(&[0, 2])]]
    );
}

#[test]
fn test_gets_guided_gs_for_diamech() {
    let diamech_4sl: [usize; 11] = [1, 0, 2, 0, 2, 0, 1, 0, 2, 0, 2];
    let gener_seqs = guided_gs_list(&diamech_4sl);
    assert_eq!(
        BTreeSet::from_iter(gener_seqs.into_iter()),
        BTreeSet::from_iter(
            vec![
                vec![
                    CountVector::from_slice(&[0, 2]),
                    CountVector::from_slice(&[0, 2]),
                    CountVector::from_slice(&[0, 1]),
                ],
                vec![
                    CountVector::from_slice(&[2, 0, 2]),
                    CountVector::from_slice(&[1, 0, 2]),
                    CountVector::from_slice(&[0, 2, 0]),
                    CountVector::from_slice(&[1, 0, 2]),
                    CountVector::from_slice(&[1, 0, 2]),
                    CountVector::from_slice(&[0, 2, 0]),
                    CountVector::from_slice(&[1, 0, 2]),
                    CountVector::from_slice(&[0, 2, 0]),
                    CountVector::from_slice(&[1, 0, 2]),
                ],
                vec![
                    CountVector::from_slice(&[0, 0, 1, 2, 2]),
                    CountVector::from_slice(&[0, 0, 1, 2, 2]),
                    CountVector::from_slice(&[0, 0, 0, 1, 2]),
                    CountVector::from_slice(&[0, 0, 1, 2, 2]),
                ],
                vec![
                    CountVector::from_slice(&[0, 0, 0, 1, 2, 2]),
                    CountVector::from_slice(&[0, 0, 0, 1, 2, 2]),
                    CountVector::from_slice(&[0, 0, 0, 1, 2, 2]),
                    CountVector::from_slice(&[0, 0, 1, 2, 2, 2]),
                ],
                vec![
                    CountVector::from_slice(&[0, 0, 0, 0, 1, 1, 2, 2]),
                    CountVector::from_slice(&[0, 0, 0, 0, 1, 2, 2, 2]),
                    CountVector::from_slice(&[0, 0, 0, 1, 1, 2, 2, 2]),
                    CountVector::from_slice(&[0, 0, 0, 0, 1, 2, 2, 2]),
                    CountVector::from_slice(&[0, 0, 0, 1, 1, 2, 2, 2]),
                    CountVector::from_slice(&[0, 0, 0, 0, 1, 2, 2, 2]),
                    CountVector::from_slice(&[0, 0, 0, 0, 1, 2, 2, 2]),
                    CountVector::from_slice(&[0, 0, 0, 1, 1, 2, 2, 2]),
                    CountVector::from_slice(&[0, 0, 0, 0, 1, 2, 2, 2]),
                ],
                vec![
                    CountVector::from_slice(&[0, 0, 0, 0, 1, 1, 2, 2, 2]),
                    CountVector::from_slice(&[0, 0, 0, 0, 1, 2, 2, 2, 2]),
                    CountVector::from_slice(&[0, 0, 0, 0, 1, 1, 2, 2, 2]),
                ],
            ]
            .into_iter()
        )
    );
}

#[test]
fn test_9l6m10s_unimodular_bug() {
    let scale: [usize; 25] = [
        0, 0, 2, 1, 2, 0, 1, 2, 0, 2, 0, 1, 2, 0, 2, 1, 0, 2, 0, 2, 1, 0, 2, 1, 2,
    ];
    let gfs = guide_frames(&scale);
    assert!(!gfs.is_empty(), "Should find at least one guide frame");
}

#[test]
fn test_interleaved_4l1s_bug() {
    let scale: [usize; 10] = [0, 1, 0, 1, 0, 1, 0, 1, 0, 2];
    let gfs = guide_frames(&scale);
    assert!(
        gfs.iter().any(|gf| gf.multiplicity() == 2),
        "Should find a guide frame of multiplicity 2"
    );
}

#[test]
fn guide_frames_are_a_sorted_rearrangement_of_the_per_class_frames() {
    let blackdye: [usize; 10] = [0, 1, 0, 2, 0, 1, 0, 2, 0, 2];
    let frames = guide_frames(&blackdye);
    let mut expected: Vec<GuideFrame> = Vec::new();
    for k in 2..=5 {
        expected.extend(GuideFrame::try_simple(&blackdye, k));
        for p in [2usize, 5] {
            expected.extend(GuideFrame::try_multiple(&blackdye, p, k));
        }
    }
    assert_eq!(frames.len(), expected.len());
    for f in &frames {
        let here = frames.iter().filter(|g| *g == f).count();
        let there = expected.iter().filter(|g| *g == f).count();
        assert_eq!(here, there);
    }
    for pair in frames.windows(2) {
        assert!(pair[0].complexity() <= pair[1].complexity());
    }
}
