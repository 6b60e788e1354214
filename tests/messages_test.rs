use phie::executor::{check_expected, report};
use phie::fibonacci::parse_fibonacci_args;

#[test]
fn reports_overflowing_input() {
    let args = vec!["fibonacci".to_string(), "99999".to_string(), "1".to_string()];
    let err = parse_fibonacci_args(&args).unwrap_err();
    assert_eq!("Invalid input argument '99999': number too large to fit in target type", err);
    let args = vec!["fibonacci".to_string(), "7".to_string(), "".to_string()];
    let err = parse_fibonacci_args(&args).unwrap_err();
    assert_eq!("Invalid cycles argument '': cannot parse integer from empty string", err);
}

#[test]
fn reports_expected_value_problems() {
    let args = vec!["x".to_string(), "f".to_string(), "-40000".to_string()];
    assert_eq!(
        Err("Invalid expected value argument '-40000': number too small to fit in target type".to_string()),
        check_expected(&args, 3)
    );
    let args = vec!["x".to_string(), "f".to_string(), "4".to_string()];
    assert_eq!(Err("Result 3 does not match expected 4".to_string()), check_expected(&args, 3));
    assert_eq!("Executor result: -5", report(-5));
}
