use phie::fibonacci::{fibo, parse_fibonacci_args, run, run_fibonacci_cycles};

#[test]
fn calculates_fibonacci_for_multiple_inputs() {
    assert_eq!(13, fibo(6).expect("Failed to calculate fibonacci"));
    assert_eq!(34, fibo(8).expect("Failed to calculate fibonacci"));
    assert_eq!(55, fibo(9).expect("Failed to calculate fibonacci"));
    assert_eq!(89, fibo(10).expect("Failed to calculate fibonacci"));
}

#[test]
fn calculates_fibonacci_five() {
    assert_eq!(8, fibo(5).expect("Failed to calculate fibonacci"));
}

#[test]
fn parses_valid_fibonacci_args() {
    let args = vec!["fibonacci".to_string(), "7".to_string(), "3".to_string()];
    let result = parse_fibonacci_args(&args);
    assert!(result.is_ok());
    let (input, cycles) = result.unwrap();
    assert_eq!(input, 7);
    assert_eq!(cycles, 3);
}

#[test]
fn fibonacci_fails_to_parse_insufficient_args() {
    let args = vec!["fibonacci".to_string(), "7".to_string()];
    let result = parse_fibonacci_args(&args);
    assert!(result.is_err());
    assert!(result.unwrap_err().contains("Usage"));
}

#[test]
fn fails_to_parse_invalid_input() {
    let args = vec!["fibonacci".to_string(), "invalid".to_string(), "3".to_string()];
    let result = parse_fibonacci_args(&args);
    assert!(result.is_err());
    assert!(result.unwrap_err().contains("Invalid input argument"));
}

#[test]
fn fails_to_parse_invalid_cycles() {
    let args = vec!["fibonacci".to_string(), "7".to_string(), "invalid".to_string()];
    let result = parse_fibonacci_args(&args);
    assert!(result.is_err());
    assert!(result.unwrap_err().contains("Invalid cycles argument"));
}

#[test]
fn runs_fibonacci_single_cycle() {
    let (f, total) = run_fibonacci_cycles(5, 1).expect("Failed to run fibonacci cycles");
    assert_eq!(f, 8);
    assert_eq!(total, 8);
}

#[test]
fn runs_fibonacci_multiple_cycles() {
    let (f, total) = run_fibonacci_cycles(7, 3).expect("Failed to run fibonacci cycles");
    assert_eq!(f, 21);
    assert_eq!(total, 63);
}

#[test]
fn runs_fibonacci_zero_cycles() {
    let (f, total) = run_fibonacci_cycles(7, 0).expect("Failed to run fibonacci cycles");
    assert_eq!(f, 0);
    assert_eq!(total, 0);
}

#[test]
fn fibonacci_test_run_success() {
    let args = vec!["fibonacci".to_string(), "5".to_string(), "3".to_string()];
    let result = run(&args);
    assert!(result.is_ok());
    let output = result.unwrap();
    assert!(output.contains("5-th Fibonacci number is 8"));
    assert!(output.contains("Sum of results is 24"));
}

#[test]
fn test_run_with_insufficient_args() {
    let args = vec!["fibonacci".to_string(), "5".to_string()];
    let result = run(&args);
    assert!(result.is_err());
    assert!(result.unwrap_err().contains("Usage"));
}

#[test]
fn test_run_with_invalid_input() {
    let args = vec![
        "fibonacci".to_string(),
        "invalid".to_string(),
        "3".to_string(),
    ];
    let result = run(&args);
    assert!(result.is_err());
    assert!(result.unwrap_err().contains("Invalid input argument"));
}

#[test]
fn test_parse_with_empty_args() {
    let args: Vec<String> = vec![];
    let result = parse_fibonacci_args(&args);
    assert!(result.is_err());
    assert!(result.unwrap_err().contains("Usage"));
}

#[test]
fn test_run_with_empty_args() {
    let args: Vec<String> = vec![];
    let result = run(&args);
    assert!(result.is_err());
    assert!(result.unwrap_err().contains("Usage"));
}

#[test]
fn test_parse_args_with_single_arg() {
    let args = vec!["fibonacci".to_string()];
    let result = parse_fibonacci_args(&args);
    assert!(result.is_err());
    assert!(result.unwrap_err().contains("fibonacci"));
}

#[test]
fn test_run_with_invalid_cycles_format() {
    let args = vec![
        "fibonacci".to_string(),
        "5".to_string(),
        "invalid".to_string(),
    ];
    let result = run(&args);
    assert!(result.is_err());
    assert!(result.unwrap_err().contains("Invalid cycles argument"));
}

#[test]
fn runs_fibonacci_with_negative_cycles() {
    let (f, total) = run_fibonacci_cycles(5, -1).expect("Failed to run fibonacci cycles");
    assert_eq!(f, 0);
    assert_eq!(total, 0);
}

#[test]
fn calculates_fibonacci_edge_cases() {
    assert_eq!(1, fibo(0).expect("Failed to calculate fibonacci"));
    assert_eq!(1, fibo(1).expect("Failed to calculate fibonacci"));
    assert_eq!(2, fibo(2).expect("Failed to calculate fibonacci"));
    assert_eq!(3, fibo(3).expect("Failed to calculate fibonacci"));
}

#[test]
fn test_run_with_two_args() {
    let args = vec!["fibonacci".to_string(), "5".to_string()];
    let result = run(&args);
    assert!(result.is_err());
    assert!(result.unwrap_err().contains("Usage"));
}

#[test]
fn runs_fibonacci_multiple_iterations() {
    let (f, total) = run_fibonacci_cycles(6, 5).expect("Failed to run fibonacci cycles");
    assert_eq!(f, 13);
    assert_eq!(total, 65);
}

#[test]
fn test_parse_args_with_zero_input() {
    let args = vec!["fibonacci".to_string(), "0".to_string(), "1".to_string()];
    let result = parse_fibonacci_args(&args);
    assert!(result.is_ok());
    let (input, cycles) = result.unwrap();
    assert_eq!(input, 0);
    assert_eq!(cycles, 1);
}

#[test]
fn test_run_success_with_different_values() {
    let args = vec!["fibonacci".to_string(), "6".to_string(), "2".to_string()];
    let result = run(&args);
    assert!(result.is_ok());
    let output = result.unwrap();
    assert!(output.contains("6-th Fibonacci number is 13"));
    assert!(output.contains("Sum of results is 26"));
}

#[test]
fn calculates_fibonacci_11() {
    assert_eq!(144, fibo(11).expect("Failed to calculate fibonacci"));
}

#[test]
fn calculates_fibonacci_4() {
    assert_eq!(5, fibo(4).expect("Failed to calculate fibonacci"));
}

#[test]
fn runs_fibonacci_with_large_cycles() {
    let (f, total) = run_fibonacci_cycles(4, 10).expect("Failed to run fibonacci cycles");
    assert_eq!(f, 5);
    assert_eq!(total, 50);
}

#[test]
fn test_parse_args_with_negative_input() {
    let args = vec!["fibonacci".to_string(), "-5".to_string(), "1".to_string()];
    let result = parse_fibonacci_args(&args);
    assert!(result.is_ok());
}

#[test]
fn test_run_with_zero_input() {
    let args = vec!["fibonacci".to_string(), "0".to_string(), "1".to_string()];
    let result = run(&args);
    assert!(result.is_ok());
    let output = result.unwrap();
    assert!(output.contains("0-th Fibonacci number is 1"));
}

#[test]
fn test_run_with_large_input() {
    let args = vec!["fibonacci".to_string(), "12".to_string(), "1".to_string()];
    let result = run(&args);
    assert!(result.is_ok());
    let output = result.unwrap();
    assert!(output.contains("12-th Fibonacci number is 233"));
}

#[test]
fn runs_fibonacci_with_exactly_one_cycle() {
    let (f, total) = run_fibonacci_cycles(10, 1).expect("Failed to run fibonacci cycles");
    assert_eq!(f, 89);
    assert_eq!(total, 89);
}

#[test]
fn calculates_fibonacci_12() {
    assert_eq!(233, fibo(12).expect("Failed to calculate fibonacci"));
}

#[test]
fn calculates_fibonacci_2() {
    assert_eq!(2, fibo(2).expect("Failed to calculate fibonacci"));
}

