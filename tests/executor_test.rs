use phie::executor::emulate;

#[test]
fn test_emulate_basic() {
    let phi_code = "
        ν0(𝜋) ↦ ⟦ 𝜑 ↦ ν1(𝜋) ⟧
        ν1(𝜋) ↦ ⟦ Δ ↦ 0x002A ⟧
    ";
    assert_eq!(42, emulate(phi_code).unwrap());
}

#[test]
fn test_emulate_simple_data() {
    let phi_code = "ν0(𝜋) ↦ ⟦ Δ ↦ 0x0001 ⟧";
    assert_eq!(1, emulate(phi_code).unwrap());
}

#[test]
fn test_emulate_with_lambda() {
    let phi_code = "
        ν0(𝜋) ↦ ⟦ 𝜑 ↦ ν1(𝜋) ⟧
        ν1(𝜋) ↦ ⟦ λ ↦ int-add, ρ ↦ ν2(𝜋), 𝛼0 ↦ ν3(𝜋) ⟧
        ν2(𝜋) ↦ ⟦ Δ ↦ 0x0005 ⟧
        ν3(𝜋) ↦ ⟦ Δ ↦ 0x0003 ⟧
    ";
    assert_eq!(8, emulate(phi_code).unwrap());
}

#[test]
fn test_emulate_with_invalid_phi_code() {
    let result = emulate("invalid phi code");
    assert!(result.is_err());
    let err = result.err().unwrap();
    assert!(err.contains("Failed to parse phi code"));
}

#[test]
fn test_emulate_with_multiple_operations() {
    let phi_code = "
        ν0(𝜋) ↦ ⟦ 𝜑 ↦ ν1(𝜋) ⟧
        ν1(𝜋) ↦ ⟦ λ ↦ int-times, ρ ↦ ν2(𝜋), 𝛼0 ↦ ν3(𝜋) ⟧
        ν2(𝜋) ↦ ⟦ Δ ↦ 0x0006 ⟧
        ν3(𝜋) ↦ ⟦ Δ ↦ 0x0007 ⟧
    ";
    assert_eq!(42, emulate(phi_code).unwrap());
}

#[test]
fn test_emulate_negative_number() {
    let phi_code = "
        ν0(𝜋) ↦ ⟦ 𝜑 ↦ ν1(𝜋) ⟧
        ν1(𝜋) ↦ ⟦ λ ↦ int-neg, ρ ↦ ν2(𝜋) ⟧
        ν2(𝜋) ↦ ⟦ Δ ↦ 0x0005 ⟧
    ";
    assert_eq!(-5, emulate(phi_code).unwrap());
}
