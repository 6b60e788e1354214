use phie::perf::{Perf, Transition};

#[test]
fn simple_increment() {
    let mut perf = Perf::new();
    perf.hit(Transition::DEL);
    assert!(perf.to_string().contains("DEL: 1"));
}

#[test]
fn sorts_them() {
    let mut perf = Perf::new();
    perf.hit(Transition::DEL);
    perf.hit(Transition::PPG);
    perf.hit(Transition::NEW);
    assert!(perf.to_string().contains("DEL: 1\n\tNEW: 1\n\tPPG: 1"));
}

#[test]
fn counts_ticks() {
    let mut perf = Perf::new();
    perf.tick(Transition::CPY);
    perf.tick(Transition::CPY);
    perf.tick(Transition::DLG);
    assert_eq!(perf.total_ticks(), 3);
    assert!(perf.to_string().contains("Ticks:"));
}

#[test]
fn counts_atoms() {
    let mut perf = Perf::new();
    perf.atom("int-add".to_string());
    perf.atom("int-add".to_string());
    perf.atom("int-sub".to_string());
    assert_eq!(perf.total_atoms(), 3);
    assert!(perf.to_string().contains("Atoms:"));
}

#[test]
fn tracks_peak() {
    let mut perf = Perf::new();
    perf.peak(5);
    perf.peak(10);
    perf.peak(7);
    assert_eq!(perf.peak, 10);
}

#[test]
fn uses_default() {
    let perf = Perf::default();
    assert_eq!(perf.cycles, 0);
    assert_eq!(perf.peak, 0);
    assert_eq!(perf.total_hits(), 0);
}

