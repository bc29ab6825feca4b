use tern::equal::Val;
use tern::monzo::Monzo;

#[test]
fn test_val_macro() {
    let twelve_edo_5_lim = Val::from_slice(&[12, 19, 28]);
    let syntonic_comma = Monzo::from_slice(&[-4, 4, -1]);
    assert_eq!(twelve_edo_5_lim.evaluate(syntonic_comma), 0);
}
