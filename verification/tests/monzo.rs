use tern::ji_ratio::RawJiRatio;
use tern::monzo::{solve_linear_diophantine, solve_linear_diophantine_homogeneous, Monzo};

#[test]
fn test_monzo_macro() {
    assert_eq!(Monzo::from_slice(&[]), Monzo::unison());
    let syntonic_comma = Monzo::from_slice(&[-4, 4, -1]);
    assert_eq!(81, syntonic_comma.numer());
    assert_eq!(80, syntonic_comma.denom());
    let jacobin = Monzo::from_slice(&[9, 0, -1, 0, -3, 1]);
    assert_eq!(6656, jacobin.numer());
    assert_eq!(6655, jacobin.denom());
}

#[test]
fn test_try_from_ratio() {
    let syntonic_comma = RawJiRatio::try_new(81, 80).unwrap();
    let result_81_80 = Monzo::try_from_ratio(syntonic_comma);
    assert_eq!(result_81_80, Ok(Monzo::from_slice(&[-4, 4, -1])));
}

#[test]
fn test_try_to_ratio() {
    let monzo_81_80 = Monzo::from_slice(&[-4, 4, -1]);
    let result_ratio = monzo_81_80.try_to_ratio();
    assert_eq!(result_ratio, Some(RawJiRatio::try_new(81, 80).unwrap()));
}

#[test]
fn test_ord_for_monzo() {
    let monzo_9_8 = Monzo::from_slice(&[-3, 2]);
    let monzo_28_27 = Monzo::from_slice(&[2, -3, 0, 1]);
    assert!(monzo_28_27.less_than(&monzo_9_8));
}

#[test]
fn test_diophantine_homogeneous() {
    let solutions_constant_0 = solve_linear_diophantine_homogeneous(&[5, 2], 4);
    assert!(solutions_constant_0.contains(&vec![2, -5]));
    let solutions_constant_0 = solve_linear_diophantine_homogeneous(&[5, 2, 3], 4);
    assert!(solutions_constant_0.contains(&vec![-2, -1, 4]));
    assert!(solutions_constant_0.contains(&vec![1, -1, -1]));
}

#[test]
fn test_diophantine() {
    let solutions_constant_0 = solve_linear_diophantine(&[5, 2], 1, 4);
    assert!(solutions_constant_0.contains(&vec![-3, 8]));
    let solutions_constant_0 = solve_linear_diophantine(&[5, 2, 3], 0, 4);
    assert!(solutions_constant_0.contains(&vec![-2, -1, 4]));
    assert!(solutions_constant_0.contains(&vec![1, -1, -1]));
    let solutions_constant_1 = solve_linear_diophantine(&[5, 2, 3], 1, 4);
    assert!(solutions_constant_1.contains(&vec![1, 4, -4]));
}

#[test]
fn monzos_below_the_half_octave() {
    let ratios = [
        RawJiRatio::try_new(9, 8).unwrap(),
        RawJiRatio::try_new(3, 2).unwrap(),
        RawJiRatio::try_new(7, 5).unwrap(),
        RawJiRatio::try_new(10, 7).unwrap(),
        RawJiRatio::try_new(29, 28).unwrap(),
    ];
    let ms = tern::monzo::monzos_below_half_octave(&ratios);
    assert_eq!(ms.len(), 3);
    assert_eq!(ms[0].try_to_ratio(), Some(ratios[0]));
    assert_eq!(ms[1].try_to_ratio(), Some(ratios[2]));
    assert_eq!(ms[2], Monzo::unison());
}
