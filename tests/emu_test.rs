use phie::basket::Basket;
use phie::data::Data;
use phie::emu::{Emu, Opt};
use phie::loc::Loc;
use phie::locator::Locator;
use phie::object::Object;
use phie::perf::{Perf, Transition};
use std::str::FromStr;

fn dataized(txt: &str) -> i16 {
    let mut emu: Emu = txt.parse().unwrap();
    emu.opt(Opt::DontDelete);
    emu.opt(Opt::StopWhenTooManyCycles);
    emu.dataize().unwrap().0
}

fn ph(s: &str) -> Locator {
    Locator::from_str(s).unwrap()
}

fn fibo(n: Data) -> Data {
    if n < 2 {
        return 1;
    }
    fibo(n - 1) + fibo(n - 2)
}

fn fibo_ops(n: Data) -> usize {
    if n < 2 {
        return 2;
    }
    fibo_ops(n - 1) + fibo_ops(n - 2) + 5
}

#[test]
fn simple_dataization_cycle() {
    let mut emu = Emu::empty();
    emu.put(0, Object::open().with(Loc::Phi, ph("ν1"), true)).unwrap();
    emu.put(1, Object::dataic(42)).unwrap();
    assert_eq!(42, emu.dataize().unwrap().0);
}

#[test]
fn with_simple_decorator() {
    let mut emu = Emu::empty();
    emu.put(0, Object::open().with(Loc::Phi, ph("ν2"), true)).unwrap();
    emu.put(1, Object::dataic(42)).unwrap();
    emu.put(2, Object::open().with(Loc::Phi, ph("ν1"), false)).unwrap();
    assert_eq!(42, emu.dataize().unwrap().0);
}

#[test]
fn with_many_decorators() {
    let mut emu = Emu::empty();
    emu.put(0, Object::open().with(Loc::Phi, ph("ν4"), true)).unwrap();
    emu.put(1, Object::dataic(42)).unwrap();
    emu.put(2, Object::open().with(Loc::Phi, ph("ν1"), false)).unwrap();
    emu.put(3, Object::open().with(Loc::Phi, ph("ν2"), false)).unwrap();
    emu.put(4, Object::open().with(Loc::Phi, ph("ν3"), false)).unwrap();
    assert_eq!(42, emu.dataize().unwrap().0);
}

#[test]
fn summarizes_two_numbers() {
    assert_eq!(84, dataized("
        ν0(𝜋) ↦ ⟦ 𝜑 ↦ ν3(𝜋) ⟧
        ν1(𝜋) ↦ ⟦ Δ ↦ 0x002A ⟧
        ν2(𝜋) ↦ ⟦ λ ↦ int-add, ρ ↦ 𝜋.𝛼0, 𝛼0 ↦ 𝜋.𝛼1 ⟧
        ν3(𝜋) ↦ ⟦ 𝜑 ↦ ν2(ξ), 𝛼0 ↦ ν1(𝜋), 𝛼1 ↦ ν1(𝜋) ⟧
        ν5(𝜋) ↦ ⟦ 𝜑 ↦ ν3(ξ) ⟧
        "));
}

#[test]
fn preserves_calculation_results() {
    let mut emu = Emu::from_str(
        "
        ν0(𝜋) ↦ ⟦ 𝜑 ↦ ν1(𝜋) ⟧
        ν1(𝜋) ↦ ⟦ λ ↦ int-add, ρ ↦ ν2(𝜋), 𝛼0 ↦ ν3(𝜋) ⟧
        ν2(𝜋) ↦ ⟦ λ ↦ int-add, ρ ↦ ν9(𝜋), 𝛼0 ↦ ν9(𝜋) ⟧
        ν3(𝜋) ↦ ⟦ λ ↦ int-add, ρ ↦ ν4(𝜋), 𝛼0 ↦ ν9(𝜋) ⟧
        ν4(𝜋) ↦ ⟦ λ ↦ int-neg, ρ ↦ ν9(𝜋) ⟧
        ν9(𝜋) ↦ ⟦ Δ ↦ 0x002A ⟧
        ",
    )
    .unwrap();
    let dtz = emu.dataize().unwrap();
    assert_eq!(84, dtz.0);
    let perf = dtz.1;
    assert_eq!(4, perf.total_atoms());
}

#[test]
fn calculates_argument_once() {
    let mut emu = Emu::from_str(
        "
        ν0(𝜋) ↦ ⟦ 𝜑 ↦ ν1(𝜋) ⟧
        ν1(𝜋) ↦ ⟦ λ ↦ int-add, ρ ↦ ν2(𝜋), 𝛼0 ↦ ν3(𝜋) ⟧
        ν2(𝜋) ↦ ⟦ λ ↦ int-add, ρ ↦ ν9(𝜋), 𝛼0 ↦ ν9(𝜋) ⟧
        ν3(𝜋) ↦ ⟦ λ ↦ int-add, ρ ↦ ν4(𝜋), 𝛼0 ↦ ν9(𝜋) ⟧
        ν4(𝜋) ↦ ⟦ λ ↦ int-neg, ρ ↦ ν9(𝜋) ⟧
        ν9(𝜋) ↦ ⟦ Δ ↦ 0x002A ⟧
        ",
    )
    .unwrap();
    let dtz = emu.dataize().unwrap();
    assert_eq!(84, dtz.0);
    let perf = dtz.1;
    assert_eq!(4, perf.total_atoms());
}

#[test]
fn summarizes_two_pairs_of_numbers() {
    assert_eq!(10, dataized("
        ν0(𝜋) ↦ ⟦ 𝜑 ↦ ν4(𝜋) ⟧
        ν1(𝜋) ↦ ⟦ λ ↦ int-add, ρ ↦ ν2(𝜋), 𝛼0 ↦ ν3(𝜋) ⟧
        ν2(𝜋) ↦ ⟦ Δ ↦ 0x0002 ⟧
        ν3(𝜋) ↦ ⟦ Δ ↦ 0x0003 ⟧
        ν4(𝜋) ↦ ⟦ λ ↦ int-add, ρ ↦ ν1(𝜋), 𝛼0 ↦ ν1(𝜋) ⟧
        "));
}

#[test]
fn calls_itself_once() {
    assert_eq!(42, dataized("
        ν0(𝜋) ↦ ⟦ 𝜑 ↦ ν4(𝜋) ⟧
        ν1(𝜋) ↦ ⟦ 𝜑 ↦ 𝜋.𝛼0 ⟧
        ν2(𝜋) ↦ ⟦ Δ ↦ 0x002A ⟧
        ν3(𝜋) ↦ ⟦ 𝜑 ↦ ν1(ξ), 𝛼0 ↦ ν2(𝜋) ⟧
        ν4(𝜋) ↦ ⟦ 𝜑 ↦ ν1(ξ), 𝛼0 ↦ ν3(𝜋) ⟧
        "));
}

#[test]
fn injects_xi_correctly() {
    assert_eq!(42, dataized("
        ν0(𝜋) ↦ ⟦ 𝜑 ↦ ν5(𝜋) ⟧
        ν1(𝜋) ↦ ⟦ 𝜑 ↦ 𝜋.𝛼0 ⟧
        ν2(𝜋) ↦ ⟦ 𝜑 ↦ ν3(ξ) ⟧
        ν3(𝜋) ↦ ⟦ 𝜑 ↦ ν1(ξ), 𝛼0 ↦ 𝜋.𝛼0 ⟧
        ν4(𝜋) ↦ ⟦ Δ ↦ 0x002A ⟧
        ν5(𝜋) ↦ ⟦ 𝜑 ↦ ν2(ξ), 𝛼0 ↦ ν4(𝜋) ⟧
        "));
}

#[test]
fn reverse_to_abstract() {
    assert_eq!(42, dataized("
        ν0(𝜋) ↦ ⟦ 𝜑 ↦ ν3(𝜋) ⟧
        ν1(𝜋) ↦ ⟦ 𝜑 ↦ 𝜋.𝛼3 ⟧
        ν2(𝜋) ↦ ⟦ 𝜑 ↦ ν1(ξ), 𝛼3 ↦ 𝜋.𝛼1 ⟧
        ν3(𝜋) ↦ ⟦ 𝜑 ↦ ν2(ξ), 𝛼1 ↦ ν4(𝜋) ⟧
        ν4(𝜋) ↦ ⟦ Δ ↦ 0x002A ⟧
        "));
}

#[test]
fn passes_xi_through_two_layers() {
    assert_eq!(42, dataized("
        ν0(𝜋) ↦ ⟦ 𝜑 ↦ ν6(𝜋) ⟧
        ν1(𝜋) ↦ ⟦ 𝜑 ↦ ν2(𝜋) ⟧
        ν2(𝜋) ↦ ⟦ 𝜑 ↦ ν4(ξ), 𝛼0 ↦ ν3(𝜋) ⟧
        ν3(𝜋) ↦ ⟦ 𝜑 ↦ ν5(ξ), 𝛼0 ↦ 𝜋.𝜋.𝛼0 ⟧
        ν4(𝜋) ↦ ⟦ 𝜑 ↦ 𝜋.𝛼0 ⟧
        ν5(𝜋) ↦ ⟦ 𝜑 ↦ 𝜋.𝛼0 ⟧
        ν6(𝜋) ↦ ⟦ 𝜑 ↦ ν1(ξ), 𝛼0 ↦ ν7(𝜋) ⟧
        ν7(𝜋) ↦ ⟦ Δ ↦ 0x002A ⟧
        "));
}

#[test]
fn passes_xi_through_three_layers() {
    assert_eq!(42, dataized("
        ν0(𝜋) ↦ ⟦ 𝜑 ↦ ν8(𝜋) ⟧
        ν1(𝜋) ↦ ⟦ 𝜑 ↦ ν2(𝜋) ⟧
        ν2(𝜋) ↦ ⟦ 𝜑 ↦ ν5(ξ), 𝛼0 ↦ ν3(𝜋) ⟧
        ν3(𝜋) ↦ ⟦ 𝜑 ↦ ν6(ξ), 𝛼0 ↦ ν4(𝜋) ⟧
        ν4(𝜋) ↦ ⟦ 𝜑 ↦ ν7(ξ), 𝛼0 ↦ 𝜋.𝜋.𝜋.𝛼0 ⟧
        ν5(𝜋) ↦ ⟦ 𝜑 ↦ 𝜋.𝛼0 ⟧
        ν6(𝜋) ↦ ⟦ 𝜑 ↦ 𝜋.𝛼0 ⟧
        ν7(𝜋) ↦ ⟦ 𝜑 ↦ 𝜋.𝛼0 ⟧
        ν8(𝜋) ↦ ⟦ 𝜑 ↦ ν1(ξ), 𝛼0 ↦ ν9(𝜋) ⟧
        ν9(𝜋) ↦ ⟦ Δ ↦ 0x002A ⟧
        "));
}

#[test]
fn passes_xi_through_four_layers() {
    assert_eq!(42, dataized("
        ν0(𝜋) ↦ ⟦ 𝜑 ↦ ν10(𝜋) ⟧
        ν1(𝜋) ↦ ⟦ 𝜑 ↦ ν2(𝜋) ⟧
        ν2(𝜋) ↦ ⟦ 𝜑 ↦ ν6(ξ), 𝛼0 ↦ ν3(𝜋) ⟧
        ν3(𝜋) ↦ ⟦ 𝜑 ↦ ν7(ξ), 𝛼0 ↦ ν4(𝜋) ⟧
        ν4(𝜋) ↦ ⟦ 𝜑 ↦ ν8(ξ), 𝛼0 ↦ ν5(𝜋) ⟧
        ν5(𝜋) ↦ ⟦ 𝜑 ↦ ν9(ξ), 𝛼0 ↦ 𝜋.𝜋.𝜋.𝜋.𝛼0 ⟧
        ν6(𝜋) ↦ ⟦ 𝜑 ↦ 𝜋.𝛼0 ⟧
        ν7(𝜋) ↦ ⟦ 𝜑 ↦ 𝜋.𝛼0 ⟧
        ν8(𝜋) ↦ ⟦ 𝜑 ↦ 𝜋.𝛼0 ⟧
        ν9(𝜋) ↦ ⟦ 𝜑 ↦ 𝜋.𝛼0 ⟧
        ν10(𝜋) ↦ ⟦ 𝜑 ↦ ν1(ξ), 𝛼0 ↦ ν11(𝜋) ⟧
        ν11(𝜋) ↦ ⟦ Δ ↦ 0x002A ⟧
        "));
}

#[test]
fn simulation_of_recursion() {
    assert_eq!(42, dataized("
        ν0(𝜋) ↦ ⟦ 𝜑 ↦ ν7(𝜋) ⟧
        ν1(𝜋) ↦ ⟦ 𝜑 ↦ ν2(𝜋) ⟧
        ν2(𝜋) ↦ ⟦ 𝜑 ↦ ν4(ξ), 𝛼0 ↦ ν3(𝜋) ⟧
        ν3(𝜋) ↦ ⟦ 𝜑 ↦ ν6(ξ), 𝛼0 ↦ 𝜋.𝜋.𝛼0 ⟧
        ν4(𝜋) ↦ ⟦ 𝜑 ↦ ν5(𝜋) ⟧
        ν5(𝜋) ↦ ⟦ 𝜑 ↦ ν6(ξ), 𝛼0 ↦ 𝜋.𝛼0 ⟧
        ν6(𝜋) ↦ ⟦ 𝜑 ↦ 𝜋.𝛼0 ⟧
        ν7(𝜋) ↦ ⟦ 𝜑 ↦ ν1(ξ), 𝛼0 ↦ ν8(𝜋) ⟧
        ν8(𝜋) ↦ ⟦ Δ ↦ 0x002A ⟧
        "));
}

#[test]
fn deep_simulation_of_recursion() {
    assert_eq!(42, dataized("
        ν0(𝜋) ↦ ⟦ 𝜑 ↦ ν10(𝜋) ⟧
        ν1(𝜋) ↦ ⟦ 𝜑 ↦ ν2(𝜋) ⟧
        ν2(𝜋) ↦ ⟦ 𝜑 ↦ ν4(ξ), 𝛼0 ↦ ν3(𝜋) ⟧
        ν3(𝜋) ↦ ⟦ 𝜑 ↦ ν9(ξ), 𝛼0 ↦ 𝜋.𝜋.𝛼0 ⟧
        ν4(𝜋) ↦ ⟦ 𝜑 ↦ ν5(𝜋) ⟧
        ν5(𝜋) ↦ ⟦ 𝜑 ↦ ν7(ξ), 𝛼0 ↦ ν6(𝜋) ⟧
        ν6(𝜋) ↦ ⟦ 𝜑 ↦ ν9(ξ), 𝛼0 ↦ 𝜋.𝜋.𝛼0 ⟧
        ν7(𝜋) ↦ ⟦ 𝜑 ↦ ν8(𝜋) ⟧
        ν8(𝜋) ↦ ⟦ 𝜑 ↦ ν9(ξ), 𝛼0 ↦ 𝜋.𝛼0 ⟧
        ν9(𝜋) ↦ ⟦ 𝜑 ↦ 𝜋.𝛼0 ⟧
        ν10(𝜋) ↦ ⟦ 𝜑 ↦ ν1(ξ), 𝛼0 ↦ ν11(𝜋) ⟧
        ν11(𝜋) ↦ ⟦ Δ ↦ 0x002A ⟧
        "));
}

#[test]
fn simple_recursion() {
    let mut emu = Emu::from_str(
        "
        ν0(𝜋) ↦ ⟦ 𝜑 ↦ ν9(𝜋) ⟧
        ν1(𝜋) ↦ ⟦ 𝜑 ↦ ν2(𝜋) ⟧
        ν2(𝜋) ↦ ⟦ λ ↦ bool-if, ρ ↦ ν3(𝜋), 𝛼0 ↦ ν5(𝜋), 𝛼1 ↦ ν6(𝜋) ⟧
        ν3(𝜋) ↦ ⟦ λ ↦ int-less, ρ ↦ 𝜋.𝛼0, 𝛼0 ↦ ν4(𝜋) ⟧
        ν4(𝜋) ↦ ⟦ Δ ↦ 0x0000 ⟧
        ν5(𝜋) ↦ ⟦ Δ ↦ 0x002A ⟧
        ν6(𝜋) ↦ ⟦ 𝜑 ↦ ν1(ξ), 𝛼0 ↦ ν7(𝜋) ⟧
        ν7(𝜋) ↦ ⟦ λ ↦ int-sub, ρ ↦ 𝜋.𝜋.𝛼0, 𝛼0 ↦ ν8(𝜋) ⟧
        ν8(𝜋) ↦ ⟦ Δ ↦ 0x0001 ⟧
        ν9(𝜋) ↦ ⟦ 𝜑 ↦ ν1(ξ), 𝛼0 ↦ ν10(𝜋) ⟧
        ν10(𝜋) ↦ ⟦ Δ ↦ 0x0007 ⟧
        ",
    )
    .unwrap();
    emu.opt(Opt::DontDelete);
    let dtz = emu.dataize().unwrap();
    let perf = dtz.1;
    assert_eq!(9, emu.baskets.iter().filter(|bsk| bsk.ob == 1).count());
    assert_eq!(4, *perf.hits.get(&Transition::CPY).unwrap());
}

#[test]
fn recursive_fibonacci() {
    let input = 7;
    let mut emu = Emu::from_str(
        format!(
            "
            ν0(𝜋) ↦ ⟦ 𝜑 ↦ ν2(𝜋) ⟧
            ν1(𝜋) ↦ ⟦ Δ ↦ 0x{:04X} ⟧
            ν2(𝜋) ↦ ⟦ 𝜑 ↦ ν3(ξ), 𝛼0 ↦ ν1(𝜋) ⟧
            ν3(𝜋) ↦ ⟦ 𝜑 ↦ ν13(𝜋) ⟧
            ν5(𝜋) ↦ ⟦ Δ ↦ 0x0002 ⟧
            ν6(𝜋) ↦ ⟦ λ ↦ int-sub, ρ ↦ 𝜋.𝜋.𝛼0, 𝛼0 ↦ ν5(𝜋) ⟧
            ν7(𝜋) ↦ ⟦ Δ ↦ 0x0001 ⟧
            ν8(𝜋) ↦ ⟦ λ ↦ int-sub, ρ ↦ 𝜋.𝜋.𝛼0, 𝛼0 ↦ ν7(𝜋) ⟧
            ν9(𝜋) ↦ ⟦ 𝜑 ↦ ν3(ξ), 𝛼0 ↦ ν8(𝜋) ⟧
            ν10(𝜋) ↦ ⟦ 𝜑 ↦ ν3(ξ), 𝛼0 ↦ ν6(𝜋) ⟧
            ν11(𝜋) ↦ ⟦ λ ↦ int-add, ρ ↦ ν9(𝜋), 𝛼0 ↦ ν10(𝜋) ⟧
            ν12(𝜋) ↦ ⟦ λ ↦ int-less, ρ ↦ 𝜋.𝛼0, 𝛼0 ↦ ν5(𝜋) ⟧
            ν13(𝜋) ↦ ⟦ λ ↦ bool-if, ρ ↦ ν12(𝜋), 𝛼0 ↦ ν7(𝜋), 𝛼1 ↦ ν11(𝜋) ⟧
            ",
            input
        )
        .as_str(),
    )
    .unwrap();
    let dtz = emu.dataize().unwrap();
    assert_eq!(fibo(input), dtz.0, "Wrong number calculated");
    let perf = dtz.1;
    assert_eq!(
        perf.total_atoms(),
        fibo_ops(input),
        "Too many atomic operations"
    );
}

#[test]
fn deletes_one_basket() {
    let mut emu = Emu::empty();
    let bk = 1;
    emu.inject(bk, Basket::from_str("[ν1, ξ:β1, 𝜑⇶0x002A]").unwrap()).unwrap();
    let mut perf = Perf::new();
    emu.delete(&mut perf, bk);
    assert!(emu.basket(bk).is_empty())
}

