use phie::register::Register;
use std::str::FromStr;

#[test]
fn returns_reg_index() {
    assert_eq!(Register::from_str("#F").unwrap().num(), 15)
}

#[test]
fn parses_and_prints_registers() {
    for txt in ["#0", "#9", "#F"] {
        assert_eq!(Register::from_str(txt).unwrap().to_string(), txt);
    }
    for bad in ["#", "#15", "#f", "# 99", "bad syntax"] {
        assert!(Register::from_str(bad).is_err());
    }
    assert_eq!(Register::from_str("#A").unwrap().num(), 10);
}
