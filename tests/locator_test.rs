use phie::loc::Loc;
use phie::locator::Locator;
use std::str::FromStr;

fn ph(s: &str) -> Locator {
    Locator::from_str(s).unwrap()
}

#[test]
fn locator_parses_and_prints_one() {
    let locator = "ρ.&.0.^.^.@.P.81";
    let p1 = Locator::from_str(locator).unwrap();
    let p2 = Locator::from_str(&p1.to_string()).unwrap();
    assert_eq!(p1, p2)
}

#[test]
fn returns_none_for_out_of_bounds() {
    let locator = ph("P.0");
    assert!(locator.loc(10).is_none());
}

#[test]
fn converts_to_vec() {
    let locator = ph("P.0.@");
    let vec = locator.to_vec();
    assert_eq!(vec.len(), 3);
    assert_eq!(vec[0], Loc::Pi);
}

#[test]
fn creates_from_loc() {
    let locator = Locator::from_loc(Loc::Phi);
    assert_eq!(locator.to_vec().len(), 1);
}

#[test]
fn creates_from_vec_multiple_locs() {
    let locs = vec![Loc::Pi, Loc::Attr(0), Loc::Phi];
    let locator = Locator::from_vec(locs);
    assert_eq!(locator.to_vec().len(), 3);
    assert_eq!(locator.loc(0), Some(&Loc::Pi));
    assert_eq!(locator.loc(1), Some(&Loc::Attr(0)));
    assert_eq!(locator.loc(2), Some(&Loc::Phi));
}

#[test]
fn parses_locator_with_invalid_loc() {
    let result = Locator::from_str("P.invalid.@");
    assert!(result.is_err());
}

#[test]
fn fails_on_empty_locator() {
    let result = Locator::from_str("");
    assert!(result.is_err());
}

#[test]
fn fails_on_obj_not_at_first_position() {
    let result = Locator::from_str("P.ν5");
    assert!(result.is_err());
    assert!(result
        .unwrap_err()
        .contains("can only stay at the first position"));
}

#[test]
fn fails_on_root_not_at_start() {
    let result = Locator::from_str("P.Q");
    assert!(result.is_err());
    assert!(result.unwrap_err().contains("can only start a locator"));
}

#[test]
fn fails_on_attr_at_start() {
    let result = Locator::from_str("0");
    assert!(result.is_err());
    assert!(result.unwrap_err().contains("can't start a locator"));
}

#[test]
fn fails_on_obj_with_multiple_locs() {
    let result = Locator::from_str("ν5.0");
    assert!(result.is_err());
    assert!(result
        .unwrap_err()
        .contains("can only be the first and only locator"));
}

#[test]
fn fails_on_trailing_dot() {
    let result = Locator::from_str("P.");
    assert!(result.is_err());
}

#[test]
fn fails_on_leading_dot() {
    let result = Locator::from_str(".P");
    assert!(result.is_err());
}

