use ip_generators::generators::generator::{generate_step, prepare, GenerateStep, StopReason};
use ip_generators::generators::{
    GeneratorDirection, GeneratorMessage, IPGenerator, NumberGenerators, SequentialGenerator,
    A_PRIMA, C_PRIMA, LCG, M_PRIMA,
};
use ip_generators::message::MessageToCheck;

fn sequential() -> IPGenerator {
    IPGenerator::new(0, NumberGenerators::Sequential, true, None)
}

#[test]
fn new_builds_the_chosen_strategy() {
    match sequential() {
        IPGenerator::Sequential(g) => {
            assert_eq!(g.las, 0);
            assert_eq!(g.dir, GeneratorDirection::Forward);
        },
        _ => panic!("expected a sequential generator"),
    }
    match IPGenerator::new(1, NumberGenerators::LCG, true, None) {
        IPGenerator::LCGIP(g) => {
            assert_eq!(g.x, 279470278);
            assert_eq!((g.m, g.c, g.a), (M_PRIMA, C_PRIMA, A_PRIMA));
        },
        _ => panic!("expected a congruential generator"),
    }
    match IPGenerator::new(1, NumberGenerators::PoorMansGen, true, None) {
        IPGenerator::PoorMans(g) => assert_eq!((g.nx, g.ny, g.nz, g.nw, g.cn), (0, 0, 0, 0, 0)),
        _ => panic!("expected the shuffled generator"),
    }
}

#[test]
fn new_continues_a_saved_generator() {
    let mut saved = SequentialGenerator::default();
    saved.las = 42;
    let g = IPGenerator::new(0, NumberGenerators::LCG, false, Some(IPGenerator::Sequential(saved)));
    assert_eq!(g.get_las(), 42);
    let h = IPGenerator::new(
        0,
        NumberGenerators::Sequential,
        true,
        Some(IPGenerator::LCGIP(LCG::new(1, 7, 0, 3))),
    );
    assert_eq!(h.get_las(), 0);
    let k = IPGenerator::new(0, NumberGenerators::Sequential, false, None);
    assert_eq!(k.get_las(), 0);
}

#[test]
fn can_last_and_direction() {
    assert!(sequential().can_last());
    assert_eq!(sequential().gen_dir(), GeneratorDirection::Forward);
    let l = IPGenerator::new(1, NumberGenerators::LCG, true, None);
    assert!(l.can_last());
    assert_eq!(l.gen_dir(), GeneratorDirection::Random);
    let p = IPGenerator::new(1, NumberGenerators::PoorMansGen, true, None);
    assert!(!p.can_last());
    assert_eq!(p.gen_dir(), GeneratorDirection::Random);
}

#[test]
fn gen_next_skip_zip_and_state() {
    let mut g = sequential();
    assert_eq!(g.gen_next(), GeneratorMessage::Normal(1, 1));
    g.gen_skip(4);
    assert_eq!(g.gen_state(), (5, 0x0100_0000));
    assert_eq!(g.gen_zip(300), Ok(300));
    assert_eq!(g.gen_state(), (5, 300));
    assert_eq!(g.get_las(), 300);
}

#[test]
fn shuffled_generator_cannot_zip() {
    let mut p = IPGenerator::new(1, NumberGenerators::PoorMansGen, true, None);
    assert_eq!(p.gen_zip(5), Err("not implemented"));
}

#[test]
fn lcg_state_and_zip() {
    let mut l = IPGenerator::LCGIP(LCG::new(1, 7, 0, 3));
    assert_eq!(l.gen_state(), (0, 3));
    assert_eq!(l.gen_zip(6), Ok(6));
    l.gen_skip(1);
    assert_eq!(l.get_las(), 4);
}

#[test]
fn step_waits_when_the_queue_is_full() {
    let mut g = sequential();
    match generate_step(&mut g, 10, 10, 5) {
        GenerateStep::Wait => {},
        other => panic!("unexpected {:?}", other),
    }
    assert_eq!(g.get_las(), 0);
}

#[test]
fn step_hands_on_an_address() {
    let mut g = sequential();
    g.gen_zip(0x0808_0807).unwrap();
    match generate_step(&mut g, 0, 10, 5) {
        GenerateStep::Generated { to_check, stop, checkpoint } => {
            assert!(matches!(to_check, Some(MessageToCheck::ToCheck(1, 0x0808_0808))));
            assert_eq!(stop, None);
            assert!(!checkpoint);
        },
        other => panic!("unexpected {:?}", other),
    }
}

#[test]
fn step_skips_a_reserved_block_forward() {
    let mut g = sequential();
    match generate_step(&mut g, 0, 10, 5) {
        GenerateStep::Generated { to_check, stop, checkpoint } => {
            assert!(to_check.is_none());
            assert_eq!(stop, None);
            assert!(!checkpoint);
        },
        other => panic!("unexpected {:?}", other),
    }
    assert_eq!(g.gen_state(), (0x00FF_FFFF, 0x0100_0000));
    match generate_step(&mut g, 0, 10, 5) {
        GenerateStep::Generated { to_check, .. } => {
            assert!(matches!(to_check, Some(MessageToCheck::ToCheck(0x0100_0000, 0x0100_0001))));
        },
        other => panic!("unexpected {:?}", other),
    }
}

#[test]
fn step_skips_a_reserved_block_backward() {
    let mut g = IPGenerator::Sequential(SequentialGenerator::new(
        Some(0x0A00_0005),
        GeneratorDirection::Backward,
    ));
    match generate_step(&mut g, 0, 10, 5) {
        GenerateStep::Generated { to_check, stop, .. } => {
            assert!(to_check.is_none());
            assert_eq!(stop, None);
        },
        other => panic!("unexpected {:?}", other),
    }
    assert_eq!(g.gen_state(), (5, 0x0400_000A));
}

#[test]
fn step_drops_a_reserved_address_of_a_random_walk() {
    let mut g = IPGenerator::LCGIP(LCG::new(1, 7, 0, 3));
    assert_eq!(g.get_las(), 3);
    match generate_step(&mut g, 0, 10, 5) {
        GenerateStep::Generated { to_check, stop, .. } => {
            assert!(to_check.is_none());
            assert_eq!(stop, None);
        },
        other => panic!("unexpected {:?}", other),
    }
    assert_eq!(g.get_las(), 2);
}

#[test]
fn step_stops_at_the_last_address() {
    let mut g = sequential();
    g.gen_zip(0x0808_0807).unwrap();
    match generate_step(&mut g, 0, 10, 0x0808_0808) {
        GenerateStep::Generated { to_check, stop, .. } => {
            assert!(matches!(to_check, Some(MessageToCheck::ToCheck(1, 0x0808_0808))));
            assert_eq!(stop, Some(StopReason::ReachedLast));
        },
        other => panic!("unexpected {:?}", other),
    }
}

#[test]
fn step_stops_when_going_around() {
    let mut g = sequential();
    g.gen_zip(u32::MAX).unwrap();
    match generate_step(&mut g, 0, 10, 5) {
        GenerateStep::Generated { to_check, stop, checkpoint } => {
            assert!(to_check.is_none());
            assert_eq!(stop, Some(StopReason::WentAround));
            assert!(!checkpoint);
        },
        other => panic!("unexpected {:?}", other),
    }
}

#[test]
fn step_saves_every_15000_iterations() {
    let mut s = SequentialGenerator::default();
    s.cn = 14999;
    s.las = 0x0808_0807;
    let mut g = IPGenerator::Sequential(s);
    match generate_step(&mut g, 0, 10, 5) {
        GenerateStep::Generated { checkpoint, .. } => assert!(checkpoint),
        other => panic!("unexpected {:?}", other),
    }
    let mut l = IPGenerator::new(1, NumberGenerators::LCG, true, None);
    match generate_step(&mut l, 0, 10, 5) {
        GenerateStep::Generated { checkpoint, .. } => assert!(checkpoint),
        other => panic!("unexpected {:?}", other),
    }
}

#[test]
fn prepare_skips_in_two_parts_and_zips() {
    let mut g = sequential();
    assert_eq!(prepare(&mut g, u32::MAX as u128 + 10, 0, false), Ok(()));
    assert_eq!(g.gen_state(), (9, 0));
    assert_eq!(prepare(&mut g, 0, 7, true), Ok(()));
    assert_eq!(g.gen_state(), (9, 7));
}

#[test]
fn prepare_returns_a_failed_zip() {
    let mut p = IPGenerator::new(1, NumberGenerators::PoorMansGen, true, None);
    assert_eq!(prepare(&mut p, 0, 7, true), Err("not implemented"));
    let mut l = IPGenerator::LCGIP(LCG::new(1, 7, 0, 3));
    assert_eq!(
        prepare(&mut l, 0, 0, true),
        Err("We went all the way around without finding the zip number!")
    );
}
