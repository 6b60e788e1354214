use phie::basket::{Basket, Kid};
use phie::emu::{Emu, Fault, Opt, ROOT_BK};
use phie::loc::Loc;
use phie::locator::Locator;
use phie::object::Object;
use phie::perf::Perf;
use std::str::FromStr;

fn run(txt: &str) -> (Emu, i16, usize) {
    let mut emu: Emu = txt.parse().unwrap();
    emu.opt(Opt::DontDelete);
    emu.opt(Opt::StopWhenTooManyCycles);
    let (d, perf) = emu.dataize().unwrap();
    let atoms = perf.total_atoms();
    (emu, d, atoms)
}

const SUM: &str = "
    ν0(𝜋) ↦ ⟦ 𝜑 ↦ ν3(𝜋) ⟧
    ν1(𝜋) ↦ ⟦ Δ ↦ 0x002A ⟧
    ν2(𝜋) ↦ ⟦ λ ↦ int-add, ρ ↦ 𝜋.𝛼0, 𝛼0 ↦ 𝜋.𝛼1 ⟧
    ν3(𝜋) ↦ ⟦ 𝜑 ↦ ν2(ξ), 𝛼0 ↦ ν1(𝜋), 𝛼1 ↦ ν1(𝜋) ⟧
";

#[test]
fn decorated_datum_dataizes() {
    let (_, d, _) = run("
        ν0(𝜋) ↦ ⟦ 𝜑 ↦ ν1(𝜋) ⟧
        ν1(𝜋) ↦ ⟦ Δ ↦ 0x002A ⟧
    ");
    assert_eq!(42, d);
}

#[test]
fn direct_sum_of_two_copies() {
    let (_, d, _) = run(SUM);
    assert_eq!(84, d);
}

#[test]
fn identity_through_one_layer() {
    let (_, d, _) = run("
        ν0(𝜋) ↦ ⟦ 𝜑 ↦ ν2(𝜋) ⟧
        ν1(𝜋) ↦ ⟦ 𝜑 ↦ 𝜋.𝛼0 ⟧
        ν2(𝜋) ↦ ⟦ 𝜑 ↦ ν1(ξ), 𝛼0 ↦ ν3(𝜋) ⟧
        ν3(𝜋) ↦ ⟦ Δ ↦ 0x002A ⟧
    ");
    assert_eq!(42, d);
}

#[test]
fn recursive_descent_reaches_the_terminal_branch() {
    let (_, d, _) = run("
        ν0(𝜋) ↦ ⟦ 𝜑 ↦ ν9(𝜋) ⟧
        ν1(𝜋) ↦ ⟦ 𝜑 ↦ ν2(𝜋) ⟧
        ν2(𝜋) ↦ ⟦ λ ↦ bool-if, ρ ↦ ν3(𝜋), 𝛼0 ↦ ν5(𝜋), 𝛼1 ↦ ν6(𝜋) ⟧
        ν3(𝜋) ↦ ⟦ λ ↦ int-less, ρ ↦ 𝜋.𝛼0, 𝛼0 ↦ ν4(𝜋) ⟧
        ν4(𝜋) ↦ ⟦ Δ ↦ 0x0000 ⟧
        ν5(𝜋) ↦ ⟦ Δ ↦ 0x002A ⟧
        ν6(𝜋) ↦ ⟦ 𝜑 ↦ ν1(ξ), 𝛼0 ↦ ν7(𝜋) ⟧
        ν7(𝜋) ↦ ⟦ λ ↦ int-sub, ρ ↦ 𝜋.𝜋.𝛼0, 𝛼0 ↦ ν8(𝜋) ⟧
        ν8(𝜋) ↦ ⟦ Δ ↦ 0x0001 ⟧
        ν9(𝜋) ↦ ⟦ 𝜑 ↦ ν1(ξ), 𝛼0 ↦ ν10(𝜋) ⟧
        ν10(𝜋) ↦ ⟦ Δ ↦ 0x0007 ⟧
    ");
    assert_eq!(42, d);
}

fn fib_calls(n: i16) -> usize {
    if n < 2 {
        1
    } else {
        1 + fib_calls(n - 1) + fib_calls(n - 2)
    }
}

fn fib_bases(n: i16) -> usize {
    if n < 2 {
        1
    } else {
        fib_bases(n - 1) + fib_bases(n - 2)
    }
}

#[test]
fn fibonacci_of_seven_with_atom_count() {
    assert_eq!(21, phie::fibonacci::fibo(7).unwrap());
    let mut emu: Emu = phie::fibonacci::fibo_program(7).parse().unwrap();
    emu.opt(Opt::StopWhenTooManyCycles);
    let (d, perf) = emu.dataize().unwrap();
    assert_eq!(21, d);
    let inner = fib_calls(7) - fib_bases(7);
    assert_eq!(5 * inner + 2 * fib_bases(7), perf.total_atoms());
}

#[test]
fn shared_constant_atom_runs_once() {
    let (_, d, atoms) = run("
        ν0(𝜋) ↦ ⟦ 𝜑 ↦ ν4(𝜋) ⟧
        ν1(𝜋) ↦ ⟦! λ ↦ int-add, ρ ↦ ν2(𝜋), 𝛼0 ↦ ν3(𝜋) ⟧
        ν2(𝜋) ↦ ⟦ Δ ↦ 0x0002 ⟧
        ν3(𝜋) ↦ ⟦ Δ ↦ 0x0003 ⟧
        ν4(𝜋) ↦ ⟦ λ ↦ int-add, ρ ↦ ν1(𝜋), 𝛼0 ↦ ν1(𝜋) ⟧
    ");
    assert_eq!(10, d);
    assert_eq!(2, atoms);
}

#[test]
fn no_two_baskets_share_a_data_object() {
    let (emu, _, _) = run(SUM);
    let live: Vec<&Basket> = emu.baskets.iter().filter(|b| !b.is_empty()).collect();
    let data = live.iter().filter(|b| b.ob == 1).count();
    assert_eq!(1, data);
}

#[test]
fn every_wait_points_at_a_live_basket() {
    let mut emu: Emu = SUM.parse().unwrap();
    let mut perf = Perf::new();
    for _ in 0..6 {
        emu.cycle(&mut perf).unwrap();
        for b in emu.baskets.iter().filter(|b| !b.is_empty()) {
            for l in b.kids.keys() {
                if let Some(Kid::Wait(w, _)) = b.kids.get(&l) {
                    assert!(!emu.basket(*w).is_empty());
                }
            }
        }
    }
}

#[test]
fn data_stay_once_dataized() {
    let mut emu: Emu = SUM.parse().unwrap();
    emu.opt(Opt::DontDelete);
    let mut perf = Perf::new();
    let mut seen: Vec<(usize, Loc, i16)> = vec![];
    for _ in 0..8 {
        emu.cycle(&mut perf).unwrap();
        for (b, l, d) in seen.iter() {
            assert_eq!(Some(&Kid::Dtzd(*d)), emu.baskets[*b].kids.get(l));
        }
        for (i, b) in emu.baskets.iter().enumerate() {
            for l in b.kids.keys() {
                if let Some(Kid::Dtzd(d)) = b.kids.get(&l) {
                    seen.push((i, l, *d));
                }
            }
        }
    }
    assert!(!seen.is_empty());
}

#[test]
fn search_ignores_kid_states() {
    let mut a: Emu = SUM.parse().unwrap();
    let mut perf = Perf::new();
    a.cycle(&mut perf).unwrap();
    a.cycle(&mut perf).unwrap();
    let phi = Locator::from_str("𝜋.𝛼0").unwrap();
    let first = a.search(2, &phi);
    a.baskets[1].put(Loc::Attr(0), Kid::Rqtd);
    assert_eq!(first, a.search(2, &phi));
    assert_eq!(Ok((1, 1, Some((1, Loc::Attr(0))))), first);
}

#[test]
fn delete_releases_a_finished_basket() {
    let mut emu = Emu::empty();
    emu.inject(1, Basket::from_str("[ν1, ξ:β1, 𝜑⇶0x002A]").unwrap()).unwrap();
    emu.inject(2, Basket::from_str("[ν1, ξ:β1, 𝜑⇉β1.𝜑]").unwrap()).unwrap();
    let mut perf = Perf::new();
    emu.delete(&mut perf, 1);
    assert!(!emu.basket(1).is_empty());
    emu.propagate(&mut perf, 1, Loc::Phi);
    emu.delete(&mut perf, 1);
    assert!(emu.basket(1).is_empty());
    assert_eq!(Some(&Kid::Dtzd(42)), emu.basket(2).kids.get(&Loc::Phi));
}

#[test]
fn root_without_xi_fails() {
    let mut emu: Emu = "ν0(𝜋) ↦ ⟦ 𝜑 ↦ 𝜋.𝛼0 ⟧".parse().unwrap();
    assert_eq!(Err(Fault::NoXi), emu.dataize().map(|p| p.0));
}

#[test]
fn empty_target_fails() {
    let mut emu: Emu = "ν0(𝜋) ↦ ⟦ 𝜑 ↦ ν5(𝜋) ⟧".parse().unwrap();
    assert_eq!(Err(Fault::EmptyTarget(5)), emu.dataize().map(|p| p.0));
}

const STUCK: &str = "
    ν0(𝜋) ↦ ⟦ 𝜑 ↦ ν2(𝜋) ⟧
    ν1(𝜋) ↦ ⟦ 𝜑 ↦ 𝜋 ⟧
    ν2(𝜋) ↦ ⟦ 𝜑 ↦ ν1(ξ) ⟧
";

#[test]
fn stuck_run_stops_when_asked() {
    let mut emu: Emu = STUCK.parse().unwrap();
    emu.opt(Opt::StopWhenStuck);
    assert_eq!(Err(Fault::Stuck), emu.dataize().map(|p| p.0));
}

#[test]
fn runaway_stops_at_the_bound() {
    let mut emu: Emu = STUCK.parse().unwrap();
    emu.opt(Opt::StopWhenTooManyCycles);
    assert_eq!(Err(Fault::Runaway), emu.dataize().map(|p| p.0));
}

#[test]
fn put_refuses_an_occupied_slot() {
    let mut emu = Emu::empty();
    assert_eq!(Ok(()), emu.put(1, Object::dataic(1)));
    assert_eq!(Err(Fault::Occupied), emu.put(1, Object::dataic(2)));
    assert_eq!(Err(Fault::Occupied), emu.put(99, Object::dataic(2)));
}

#[test]
fn wrapping_arithmetic() {
    let (_, d, _) = run("
        ν0(𝜋) ↦ ⟦ 𝜑 ↦ ν1(𝜋) ⟧
        ν1(𝜋) ↦ ⟦ λ ↦ int-add, ρ ↦ ν2(𝜋), 𝛼0 ↦ ν3(𝜋) ⟧
        ν2(𝜋) ↦ ⟦ Δ ↦ 0x7FFF ⟧
        ν3(𝜋) ↦ ⟦ Δ ↦ 0x0001 ⟧
    ");
    assert_eq!(i16::MIN, d);
}

#[test]
fn negative_division_truncates() {
    let (_, d, _) = run("
        ν0(𝜋) ↦ ⟦ 𝜑 ↦ ν1(𝜋) ⟧
        ν1(𝜋) ↦ ⟦ λ ↦ int-div, ρ ↦ ν2(𝜋), 𝛼0 ↦ ν3(𝜋) ⟧
        ν2(𝜋) ↦ ⟦ Δ ↦ 0xFFF9 ⟧
        ν3(𝜋) ↦ ⟦ Δ ↦ 0x0002 ⟧
    ");
    assert_eq!(-3, d);
}

#[test]
fn object_prints_and_reads_back() {
    let obj = Object::open()
        .with(Loc::Phi, Locator::from_str("ν3").unwrap(), true)
        .with(Loc::Attr(0), Locator::from_str("𝜋.𝛼1").unwrap(), false)
        .as_constant();
    let text = obj.to_string();
    assert_eq!("⟦! 𝛼0↦𝜋.𝛼1, 𝜑↦ν3(ξ)⟧", text);
    assert_eq!(text, Object::from_str(&text).unwrap().to_string());
    let data = Object::dataic(-1);
    assert_eq!("⟦! Δ↦0xFFFF⟧", data.to_string());
    assert_eq!(Some(-1), Object::from_str(&data.to_string()).unwrap().delta);
}

#[test]
fn locator_prints_and_reads_back() {
    let p = Locator::from_vec(vec![Loc::Pi, Loc::Rho, Loc::Attr(12), Loc::Phi, Loc::Sigma]);
    assert_eq!("𝜋.ρ.𝛼12.𝜑.σ", p.to_string());
    assert_eq!(p, Locator::from_str(&p.to_string()).unwrap());
}

#[test]
fn root_phi_is_requested_at_start() {
    let emu = Emu::empty();
    assert_eq!(Some(&Kid::Rqtd), emu.basket(ROOT_BK).kids.get(&Loc::Phi));
    assert!(emu.basket(1).is_empty());
}

#[test]
fn attr_index_out_of_range_is_refused() {
    assert!(Loc::from_str("𝛼128").is_err());
    assert_eq!(Loc::Attr(127), Loc::from_str("127").unwrap());
}

#[test]
fn program_prints_and_reads_back() {
    let emu: Emu = phie::fibonacci::fibo_program(7).parse().unwrap();
    let text = emu.program_text();
    let again: Emu = text.parse().unwrap();
    assert_eq!(text, again.program_text());
    assert!(text.contains("ν13(𝜋) ↦ ⟦λ↦bool-if, ρ↦ν12(𝜋), 𝛼0↦ν7(𝜋), 𝛼1↦ν11(𝜋)⟧"));
}

#[test]
fn basket_prints_and_reads_back() {
    let mut b = Basket::start(3, 1);
    b.put(Loc::Phi, Kid::Wait(2, Loc::Attr(0)));
    b.put(Loc::Rho, Kid::Need(4, 0));
    b.put(Loc::Attr(1), Kid::Dtzd(-2));
    b.put(Loc::Sigma, Kid::Empt);
    let text = b.to_string();
    assert_eq!("[ν3, ξ:β1, ρ→(ν4;β0), σ→∅, 𝛼1⇶0xFFFE, 𝜑⇉β2.𝛼0]", text);
    assert_eq!(text, Basket::from_str(&text).unwrap().to_string());
}
