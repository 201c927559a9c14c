use ip_generators::generators::checks::{can_prepare_now, is_deck_exec};
use ip_generators::generators::{
    GeneratorDirection, GeneratorMessage, IPGenerator, NumberGenerator, NumberGenerators,
    PoorMans, SequentialGenerator, ZippableNumberGenerator, A_PRIMA, C_PRIMA, LCG, M_PRIMA,
};
use ip_generators::signals::{interrupt_target, StopTarget};
use rand_chacha::rand_core::SeedableRng;

fn deck() -> Vec<u8> {
    (0..=255u8).rev().collect()
}

fn poor_mans(cn: u32, nw: usize) -> PoorMans {
    PoorMans {
        xs: deck(),
        ys: deck(),
        zs: deck(),
        ws: deck(),
        nx: 0,
        ny: 0,
        nz: 0,
        nw,
        cn,
        rng: rand_chacha::ChaCha12Rng::seed_from_u64(1),
        las: 0,
    }
}

#[test]
fn deck_check() {
    assert!(is_deck_exec(&deck()));
    let mut twice = deck();
    twice[3] = twice[4];
    assert!(!is_deck_exec(&twice));
    assert!(!is_deck_exec(&vec![0u8, 1, 2]));
}

#[test]
fn shuffled_step_check_counts_the_cascade() {
    assert!(poor_mans(u32::MAX - 1, 0).can_step_now());
    assert!(!poor_mans(u32::MAX, 0).can_step_now());
    assert!(!poor_mans(u32::MAX - 1, 256).can_step_now());
    assert!(poor_mans(u32::MAX - 2, 256).can_step_now());
    let mut bad = poor_mans(0, 0);
    bad.xs[0] = 1;
    assert!(!bad.can_step_now());
}

#[test]
fn generator_step_checks() {
    let mut s = SequentialGenerator::default();
    assert!(IPGenerator::Sequential(s.clone()).can_step_now());
    s.dir = GeneratorDirection::Random;
    assert!(!IPGenerator::Sequential(s).can_step_now());
    let l = IPGenerator::new(7, NumberGenerators::LCG, true, None);
    assert!(l.can_step_now());
    let wide = IPGenerator::LCGIP(LCG::new(1 << 31, 1 << 33, 1, 2));
    assert!(!wide.can_step_now());
}

#[test]
fn prepare_checks() {
    let p = IPGenerator::new(0, NumberGenerators::PoorMansGen, true, None);
    assert!(can_prepare_now(&p, 0, 5, true));
    assert!(!can_prepare_now(&p, 1, 5, false));
    let s = IPGenerator::new(0, NumberGenerators::Sequential, true, None);
    assert!(can_prepare_now(&s, 2 * (u32::MAX as u128), 0, true));
    assert!(!can_prepare_now(&s, 2 * (u32::MAX as u128) + 1, 0, true));
    let l = IPGenerator::new(3, NumberGenerators::LCG, true, None);
    assert!(can_prepare_now(&l, 10, 99, true));
    let other = IPGenerator::LCGIP(LCG::new(1, 7, 0, 3));
    assert!(!can_prepare_now(&other, 0, 6, true));
}

#[test]
fn congruential_step_check_is_exact_on_direct_recurrences() {
    let full = IPGenerator::LCGIP(LCG { x: 1, m: 7, c: 0, a: 3, l: u128::MAX, f: 3, cn: 0 });
    assert!(!full.can_step_now());
    let room = IPGenerator::LCGIP(LCG { x: 1, m: 7, c: 0, a: 3, l: u128::MAX - 1, f: 3, cn: 0 });
    assert!(room.can_step_now());
    let other_marker = IPGenerator::LCGIP(LCG { x: 1, m: 7, c: 0, a: 3, l: u128::MAX, f: 4, cn: 0 });
    assert!(other_marker.can_step_now());
}

#[test]
fn congruential_prepare_check_on_the_default_recurrence() {
    let g = LCG { x: 12345, m: M_PRIMA, c: C_PRIMA, a: A_PRIMA, l: 0, f: 1000, cn: 0 };
    assert!(g.runs_default_recurrence());
    assert!(can_prepare_now(&IPGenerator::LCGIP(g.clone()), 2 * (u32::MAX as u128), 77, true));
    let crowded = LCG { l: u128::MAX, ..g.clone() };
    assert!(!crowded.runs_default_recurrence());
    let outside = LCG { l: u128::MAX, f: 1, ..g };
    assert!(outside.runs_default_recurrence());
    assert!(can_prepare_now(&IPGenerator::LCGIP(outside), 10, 77, true));
}

#[test]
fn congruential_prepare_check_follows_a_full_counter() {
    // From 12345 the recurrence gives 1201785517, then 2513489412.
    let full = LCG { x: 12345, m: M_PRIMA, c: C_PRIMA, a: A_PRIMA, l: u128::MAX, f: 1201785517, cn: 0 };
    assert!(!can_prepare_now(&IPGenerator::LCGIP(full.clone()), 0, 77, true));
    assert!(!can_prepare_now(&IPGenerator::LCGIP(full.clone()), 1, 77, false));
    assert!(can_prepare_now(&IPGenerator::LCGIP(full), 0, 77, false));
    let nearly = LCG { x: 12345, m: M_PRIMA, c: C_PRIMA, a: A_PRIMA, l: u128::MAX - 1, f: 1201785517, cn: 0 };
    assert!(can_prepare_now(&IPGenerator::LCGIP(nearly.clone()), 0, 1201785517, true));
    assert!(can_prepare_now(&IPGenerator::LCGIP(nearly.clone()), 2, 0, false));
    assert!(can_prepare_now(&IPGenerator::LCGIP(nearly.clone()), 1, 2513489412, true));
    let mut g = nearly;
    g.skip(1);
    assert_eq!((g.x, g.l), (1201785517, u128::MAX));
    assert_eq!(g.zip(2513489412), Ok(2513489412));
}

#[test]
fn default_lcg_zips_to_a_later_address() {
    let mut g = LCG::new(11, M_PRIMA, C_PRIMA, A_PRIMA);
    let mut probe = g.clone();
    probe.next();
    probe.next();
    let target = probe.next();
    let target = match target {
        GeneratorMessage::Normal(_, n) | GeneratorMessage::Looped(_, n) => n,
    };
    assert_eq!(g.zip(target), Ok(target));
    assert_eq!(g.x, target as u128);
}

#[test]
fn forward_circle_loops_once_at_the_end_of_the_space() {
    let mut g = SequentialGenerator::default();
    g.zip(u32::MAX - 3).unwrap();
    let looped: Vec<bool> = (0..8).map(|_| matches!(g.next(), GeneratorMessage::Looped(_, _))).collect();
    assert_eq!(looped, vec![false, false, false, true, false, false, false, false]);
}

#[test]
fn backward_circle_loops_once_at_zero() {
    let mut g = SequentialGenerator::new(Some(2), GeneratorDirection::Backward);
    let looped: Vec<bool> = (0..5).map(|_| matches!(g.next(), GeneratorMessage::Looped(_, _))).collect();
    assert_eq!(looped, vec![false, false, true, false, false]);
    assert_eq!(g.las, u32::MAX - 2);
}

#[test]
fn interrupts_stop_threads_in_order() {
    assert_eq!(interrupt_target(0), Some(StopTarget::Generator));
    assert_eq!(interrupt_target(1), Some(StopTarget::Queryers));
    assert_eq!(interrupt_target(2), Some(StopTarget::Writer));
    assert_eq!(interrupt_target(3), Some(StopTarget::Display));
    assert_eq!(interrupt_target(4), None);
}

#[test]
fn dealing_from_a_fresh_state_keeps_decks() {
    let mut g = poor_mans(0, 0);
    for _ in 0..300 {
        g.next();
        assert!(g.is_wf());
        assert!(g.nw >= 1);
    }
}
