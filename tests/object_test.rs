use phie::loc::Loc;
use phie::locator::Locator;
use phie::object::Object;
use std::str::FromStr;

fn ph(s: &str) -> Locator {
    Locator::from_str(s).unwrap()
}

#[test]
fn makes_simple_object() {
    let mut obj = Object::open();
    obj.push(Loc::Attr(1), "ν4".parse().unwrap(), false);
    obj.push(Loc::Rho, "P.0.@".parse().unwrap(), false);
    assert_eq!(obj.attrs.len(), 2)
}

#[test]
fn extends_by_making_new_object() {
    let obj = Object::open()
        .with(Loc::Attr(1), ph("ν14"), false)
        .with(Loc::Phi, ph("^.@"), false)
        .with(Loc::Rho, ph("P.^.0.0.^.@"), false);
    assert_eq!(obj.attrs.len(), 3);
    assert!(obj.delta.is_none());
    assert!(obj.lambda.is_none());
}

#[test]
fn prints_and_parses_simple_object() {
    let mut obj = Object::open();
    obj.constant = true;
    obj.push(Loc::Attr(1), "ν4".parse().unwrap(), false);
    obj.push(Loc::Rho, "P.0.@".parse().unwrap(), false);
    let text = obj.to_string();
    assert_eq!("⟦! ρ↦𝜋.𝛼0.𝜑, 𝛼1↦ν4(𝜋)⟧", text);
    let obj2 = Object::from_str(&text).unwrap();
    assert_eq!(obj2.to_string(), text);
}

#[test]
fn fails_on_unknown_lambda() {
    let text = "⟦ λ ↦ unknown-lambda ⟧";
    let result = Object::from_str(text);
    assert!(result.is_err());
    let err = result.err().unwrap();
    assert!(
        err.contains("Unknown lambda"),
        "Expected 'Unknown lambda' but got: {}",
        err
    );
}

#[test]
fn fails_on_invalid_format() {
    let text = "invalid object format";
    let result = Object::from_str(text);
    assert!(result.is_err());
    let err = result.err().unwrap();
    assert!(err.contains("Can't parse object format"));
}

#[test]
fn fails_on_invalid_hex() {
    let text = "⟦ Δ ↦ 0xZZZZ ⟧";
    let result = Object::from_str(text);
    assert!(result.is_err());
    let err = result.err().unwrap();
    assert!(err.contains("Can't parse hex"));
}

#[test]
fn fails_on_malformed_attribute() {
    let text = "⟦ malformed ⟧";
    let result = Object::from_str(text);
    assert!(result.is_err());
    let err = result.err().unwrap();
    assert!(err.contains("Can't split"));
}

#[test]
fn parses_object_with_xi() {
    let text = "⟦ 𝜑 ↦ ν2(ξ) ⟧";
    let obj = Object::from_str(text).unwrap();
    assert_eq!(obj.attrs.len(), 1);
    let (_, xi) = obj.attrs.get(&Loc::Phi).unwrap();
    assert!(*xi);
}

#[test]
fn parses_object_without_xi() {
    let text = "⟦ ρ ↦ 𝜋 ⟧";
    let obj = Object::from_str(text).unwrap();
    assert_eq!(obj.attrs.len(), 1);
    let (_, xi) = obj.attrs.get(&Loc::Rho).unwrap();
    assert!(!*xi);
}

#[test]
fn fails_on_empty_attribute_name() {
    let text = "⟦ ↦ ν0 ⟧";
    let result = Object::from_str(text);
    assert!(result.is_err());
    let err = result.err().unwrap();
    assert!(err.contains("Empty attribute name"));
}

#[test]
fn fails_on_invalid_loc_in_attribute() {
    let text = "⟦ invalid_loc ↦ ν0 ⟧";
    let result = Object::from_str(text);
    assert!(result.is_err());
    let err = result.err().unwrap();
    assert!(err.contains("Can't parse location"));
}

