use phie::emu::{Emu, Opt};

fn dataized(txt: &str) -> i16 {
    let mut emu: Emu = txt.parse().unwrap();
    emu.opt(Opt::DontDelete);
    emu.opt(Opt::StopWhenTooManyCycles);
    emu.dataize().unwrap().0
}

#[test]
fn bool_if_works() {
    assert_eq!(42, dataized("
        ν0(𝜋) ↦ ⟦ 𝜑 ↦ ν2 ⟧
        ν1(𝜋) ↦ ⟦ Δ ↦ 0x0001 ⟧
        ν2(𝜋) ↦ ⟦ λ ↦ bool-if, ρ ↦ ν1, 𝛼0 ↦ ν3, 𝛼1 ↦ ν4 ⟧
        ν3(𝜋) ↦ ⟦ Δ ↦ 0x002A ⟧
        ν4(𝜋) ↦ ⟦ Δ ↦ 0x0000 ⟧
    "));
    assert_eq!(42, dataized("
        ν0(𝜋) ↦ ⟦ 𝜑 ↦ ν2 ⟧
        ν1(𝜋) ↦ ⟦ Δ ↦ 0x0000 ⟧
        ν2(𝜋) ↦ ⟦ λ ↦ bool-if, ρ ↦ ν1, 𝛼0 ↦ ν3, 𝛼1 ↦ ν4 ⟧
        ν3(𝜋) ↦ ⟦ Δ ↦ 0x0000 ⟧
        ν4(𝜋) ↦ ⟦ Δ ↦ 0x002A ⟧
    "));
}

#[test]
fn int_add_works() {
    assert_eq!(49, dataized("
        ν0(𝜋) ↦ ⟦ 𝜑 ↦ ν2 ⟧
        ν1(𝜋) ↦ ⟦ Δ ↦ 0x0007 ⟧
        ν2(𝜋) ↦ ⟦ λ ↦ int-add, ρ ↦ ν1, 𝛼0 ↦ ν3 ⟧
        ν3(𝜋) ↦ ⟦ Δ ↦ 0x002A ⟧
    "));
}

#[test]
fn int_times_works() {
    assert_eq!(77, dataized("
        ν0(𝜋) ↦ ⟦ 𝜑 ↦ ν2 ⟧
        ν1(𝜋) ↦ ⟦ Δ ↦ 0x0007 ⟧
        ν2(𝜋) ↦ ⟦ λ ↦ int-times, ρ ↦ ν1, 𝛼0 ↦ ν3 ⟧
        ν3(𝜋) ↦ ⟦ Δ ↦ 0x000B ⟧
    "));
}

#[test]
fn int_sub_works() {
    assert_eq!(40, dataized("
        ν0(𝜋) ↦ ⟦ 𝜑 ↦ ν2 ⟧
        ν1(𝜋) ↦ ⟦ Δ ↦ 0x002A ⟧
        ν2(𝜋) ↦ ⟦ λ ↦ int-sub, ρ ↦ ν1, 𝛼0 ↦ ν3 ⟧
        ν3(𝜋) ↦ ⟦ Δ ↦ 0x0002 ⟧
    "));
}

#[test]
fn int_div_works() {
    assert_eq!(21, dataized("
        ν0(𝜋) ↦ ⟦ 𝜑 ↦ ν2 ⟧
        ν1(𝜋) ↦ ⟦ Δ ↦ 0x002A ⟧
        ν2(𝜋) ↦ ⟦ λ ↦ int-div, ρ ↦ ν1, 𝛼0 ↦ ν3 ⟧
        ν3(𝜋) ↦ ⟦ Δ ↦ 0x0002 ⟧
    "));
}

#[test]
fn int_less_works() {
    assert_eq!(0, dataized("
        ν0(𝜋) ↦ ⟦ 𝜑 ↦ ν2 ⟧
        ν1(𝜋) ↦ ⟦ Δ ↦ 0x002A ⟧
        ν2(𝜋) ↦ ⟦ λ ↦ int-less, ρ ↦ ν1, 𝛼0 ↦ ν3 ⟧
        ν3(𝜋) ↦ ⟦ Δ ↦ 0x0002 ⟧
    "));
    assert_eq!(0, dataized("
        ν0(𝜋) ↦ ⟦ 𝜑 ↦ ν2 ⟧
        ν1(𝜋) ↦ ⟦ Δ ↦ 0x002A ⟧
        ν2(𝜋) ↦ ⟦ λ ↦ int-less, ρ ↦ ν1, 𝛼0 ↦ ν3 ⟧
        ν3(𝜋) ↦ ⟦ Δ ↦ 0x002A ⟧
    "));
    assert_eq!(1, dataized("
        ν0(𝜋) ↦ ⟦ 𝜑 ↦ ν2 ⟧
        ν1(𝜋) ↦ ⟦ Δ ↦ 0x002A ⟧
        ν2(𝜋) ↦ ⟦ λ ↦ int-less, ρ ↦ ν1, 𝛼0 ↦ ν3 ⟧
        ν3(𝜋) ↦ ⟦ Δ ↦ 0x002B ⟧
    "));
}

