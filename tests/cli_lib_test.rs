use phie::cli::{execute_phie, parse_args};

#[test]
fn parses_valid_args() {
        let args = vec!["phie".to_string(), "test.phie".to_string()];
        let result = parse_args(&args);
        assert!(result.is_ok());
        assert_eq!(result.unwrap(), "test.phie");
    }

#[test]
fn cli_fails_to_parse_insufficient_args() {
        let args = vec!["phie".to_string()];
        let result = parse_args(&args);
        assert!(result.is_err());
        assert!(result.unwrap_err().contains("Usage"));
    }

#[test]
fn fails_to_parse_empty_args() {
        let args: Vec<String> = vec![];
        let result = parse_args(&args);
        assert!(result.is_err());
        assert!(result.unwrap_err().contains("Usage"));
    }

#[test]
fn parse_args_returns_first_file() {
        let args = vec!["phie".to_string(), "first.phie".to_string(), "second.phie".to_string()];
        let result = parse_args(&args);
        assert!(result.is_ok());
        assert_eq!(result.unwrap(), "first.phie");
    }

#[test]
fn parse_args_preserves_path() {
        let args = vec!["phie".to_string(), "/path/to/file.phie".to_string()];
        let result = parse_args(&args);
        assert!(result.is_ok());
        assert_eq!(result.unwrap(), "/path/to/file.phie");
    }

#[test]
fn executes_simple_data_program() {
        let program = "ν0(𝜋) ↦ ⟦ Δ ↦ 0x002A ⟧";
        let result = execute_phie(program);
        assert!(result.is_ok());
        assert_eq!(result.unwrap(), 42);
    }

#[test]
fn executes_addition_program() {
        let program = "
            ν0(𝜋) ↦ ⟦ 𝜑 ↦ ν3(𝜋) ⟧
            ν1(𝜋) ↦ ⟦ Δ ↦ 0x002A ⟧
            ν2(𝜋) ↦ ⟦ λ ↦ int-add, ρ ↦ 𝜋.𝛼0, 𝛼0 ↦ 𝜋.𝛼1 ⟧
            ν3(𝜋) ↦ ⟦ 𝜑 ↦ ν2(ξ), 𝛼0 ↦ ν1(𝜋), 𝛼1 ↦ ν1(𝜋) ⟧
        ";
        let result = execute_phie(program);
        assert!(result.is_ok());
        assert_eq!(result.unwrap(), 84);
    }

#[test]
fn fails_to_execute_invalid_syntax() {
        let program = "invalid program syntax";
        let result = execute_phie(program);
        assert!(result.is_err());
        assert!(result.unwrap_err().contains("Failed to parse"));
    }

#[test]
fn executes_phi_reference() {
        let program = "
            ν0(𝜋) ↦ ⟦ 𝜑 ↦ ν1(𝜋) ⟧
            ν1(𝜋) ↦ ⟦ Δ ↦ 0x002A ⟧
        ";
        let result = execute_phie(program);
        assert!(result.is_ok());
        assert_eq!(result.unwrap(), 42);
    }

#[test]
fn executes_hex_value() {
        let program = "ν0(𝜋) ↦ ⟦ Δ ↦ 0x00FF ⟧";
        let result = execute_phie(program);
        assert!(result.is_ok());
        assert_eq!(result.unwrap(), 255);
    }

#[test]
fn cli_executes_zero_value() {
        let program = "ν0(𝜋) ↦ ⟦ Δ ↦ 0x0000 ⟧";
        let result = execute_phie(program);
        assert!(result.is_ok());
        assert_eq!(result.unwrap(), 0);
    }

#[test]
fn executes_single_byte_value() {
        let program = "ν0(𝜋) ↦ ⟦ Δ ↦ 0x0001 ⟧";
        let result = execute_phie(program);
        assert!(result.is_ok());
        assert_eq!(result.unwrap(), 1);
    }

