use ip_generators::generators::{NumberGenerators, ZippableNumberGenerator};
use ip_generators::message::MessageToCheck;
use ip_generators::octet_generators::{
    generate_step, prepare, GenerateStep, GeneratorMessage, IPGenerator, LCGIPGenerator,
    NumberGenerator, PoorMansIPGenerator, SequentialGenerator, SequentialGeneratorDirection,
};
use rand_chacha::rand_core::SeedableRng;

#[test]
fn counters_start_at_their_first_value() {
    let f = SequentialGenerator::new(None, SequentialGeneratorDirection::Forward);
    assert_eq!((f.xn, f.yn, f.zn, f.wn, f.las), (0, 0, 0, 0, 0));
    let b = SequentialGenerator::new(None, SequentialGeneratorDirection::Backward);
    assert_eq!((b.xn, b.yn, b.zn, b.wn, b.las), (255, 255, 255, 255, u32::MAX));
}

#[test]
fn forward_counts_in_base_255() {
    let mut g = SequentialGenerator::default();
    assert_eq!(g.next(), GeneratorMessage::Normal(1, 16581375));
    g.xn = 255;
    assert_eq!(g.next(), GeneratorMessage::Normal(2, 65025));
    assert_eq!((g.xn, g.yn, g.zn, g.wn), (0, 1, 0, 0));
}

#[test]
fn forward_last_counter_resets_two() {
    let mut g = SequentialGenerator::default();
    g.xn = 3;
    g.wn = 255;
    g.next();
    assert_eq!((g.xn, g.yn, g.zn, g.wn), (0, 0, 0, 0));
    assert_eq!(g.las, 0);
}

#[test]
fn backward_counts_down() {
    let mut g = SequentialGenerator::new(None, SequentialGeneratorDirection::Backward);
    assert_eq!(g.next(), GeneratorMessage::Normal(1, 4228315905));
    assert_eq!((g.xn, g.yn, g.zn, g.wn), (254, 255, 255, 255));
    g.xn = 0;
    g.next();
    assert_eq!((g.xn, g.yn, g.zn, g.wn), (255, 254, 255, 255));
}

#[test]
fn zip_takes_the_octets_least_significant_first() {
    let mut g = SequentialGenerator::default();
    assert_eq!(g.zip(0x0102_0304), Ok(0x0102_0304));
    assert_eq!((g.xn, g.yn, g.zn, g.wn, g.las), (4, 3, 2, 1, 0x0102_0304));
}

#[test]
fn skip_sets_the_counter_cut_to_32_bits() {
    let mut g = SequentialGenerator::default();
    g.skip((1u128 << 32) + 5);
    assert_eq!(g.cn, 5);
}

#[test]
fn shuffled_decks_build_the_address_in_base_255() {
    let deck: Vec<u8> = (0..=255u8).collect();
    let mut g = PoorMansIPGenerator {
        xs: deck.clone(),
        ys: deck.clone(),
        zs: deck.clone(),
        ws: deck,
        nx: 1,
        ny: 2,
        nz: 3,
        nw: 4,
        cn: 0,
        rng: rand_chacha::ChaCha12Rng::seed_from_u64(3),
        las: 0,
    };
    assert_eq!(g.next(), GeneratorMessage::Normal(1, 66521086));
    assert_eq!(g.nw, 5);
}

#[test]
fn default_shuffled_decks_hold_every_octet() {
    let g = PoorMansIPGenerator::default();
    let mut xs = g.xs.clone();
    xs.sort();
    assert_eq!(xs, (0..=255u8).collect::<Vec<u8>>());
}

#[test]
fn congruential_generator_skips_by_128_bits() {
    let mut g = LCGIPGenerator::new(1, 7, 0, 3);
    assert_eq!(g.x, 3);
    g.skip(2);
    assert_eq!(g.x, 6);
    assert_eq!(g.next(), GeneratorMessage::Normal(0, 4));
    assert_eq!(g.zip(1), Ok(1));
}

#[test]
fn ip_generator_methods() {
    let mut s = IPGenerator::new(0, NumberGenerators::Sequential);
    s.gen_skip(7);
    assert_eq!(s.gen_state(), (7, 0));
    assert_eq!(s.gen_zip(9), Ok(9));
    assert_eq!(s.get_las(), 9);
    let mut p = IPGenerator::new(0, NumberGenerators::PoorMansGen);
    assert_eq!(p.gen_zip(9), Err("not implemented"));
    let mut l = IPGenerator::new(1, NumberGenerators::LCG);
    assert_eq!(l.get_las(), 279470278);
    l.gen_skip(1);
    assert!(l.get_las() <= u32::MAX as u128);
}

#[test]
fn prepare_and_steps() {
    let mut s = IPGenerator::new(0, NumberGenerators::Sequential);
    assert_eq!(prepare(&mut s, 3, 0x0102_0304, true), Ok(()));
    assert_eq!(s.gen_state(), (3, 0x0102_0304));
    match generate_step(&mut s, 5, 5, 0) {
        GenerateStep::Wait => {},
        other => panic!("unexpected {:?}", other),
    }
    match generate_step(&mut s, 0, 5, 0) {
        GenerateStep::ToCheck(MessageToCheck::ToCheck(4, _)) => {},
        other => panic!("unexpected {:?}", other),
    }
    let last = s.get_las();
    let mut t = s.clone();
    let next_las = {
        let mut u = s.clone();
        u.gen_next();
        u.get_las()
    };
    match generate_step(&mut t, 0, 5, next_las) {
        GenerateStep::ReachedLast(MessageToCheck::ToCheck(5, n)) => assert_eq!(n as u128, next_las),
        other => panic!("unexpected {:?} after {}", other, last),
    }
    let mut p = IPGenerator::new(0, NumberGenerators::PoorMansGen);
    assert_eq!(prepare(&mut p, 0, 1, true), Err(String::from("not implemented")));
}
