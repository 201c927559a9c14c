use ip_generators::generators::{
    GeneratorDirection, GeneratorMessage, NumberGenerator, SequentialGenerator,
    ZippableNumberGenerator,
};

fn octets(g: &SequentialGenerator) -> (u8, u8, u8, u8) {
    (g.xn, g.yn, g.zn, g.wn)
}

#[test]
fn new_forward_starts_at_zero() {
    let g = SequentialGenerator::new(None, GeneratorDirection::Forward);
    assert_eq!(g.las, 0);
    assert_eq!(g.cn, 0);
    assert_eq!(octets(&g), (0, 0, 0, 0));
}

#[test]
fn new_backward_starts_at_255() {
    let g = SequentialGenerator::new(None, GeneratorDirection::Backward);
    assert_eq!(g.las, 255);
    assert_eq!(octets(&g), (255, 255, 255, 255));
    let h = SequentialGenerator::new(Some(7), GeneratorDirection::Backward);
    assert_eq!(h.las, 7);
}

#[test]
fn default_steps_to_one() {
    let mut g = SequentialGenerator::default();
    assert_eq!(g.next(), GeneratorMessage::Normal(1, 1));
    assert_eq!(octets(&g), (0, 0, 0, 1));
}

#[test]
fn zip_then_next_moves_on_by_one() {
    let mut g = SequentialGenerator::default();
    assert_eq!(g.zip(0x0A00_0001), Ok(0x0A00_0001));
    assert_eq!(g.las, 0x0A00_0001);
    assert_eq!(octets(&g), (10, 0, 0, 1));
    assert_eq!(g.next(), GeneratorMessage::Normal(1, 0x0A00_0002));
    assert_eq!(octets(&g), (10, 0, 0, 2));
}

#[test]
fn forward_wraps_with_looped() {
    let mut g = SequentialGenerator::default();
    g.zip(u32::MAX).unwrap();
    assert_eq!(g.next(), GeneratorMessage::Looped(1, 0));
    assert_eq!(octets(&g), (0, 0, 0, 0));
}

#[test]
fn backward_wraps_with_looped() {
    let mut g = SequentialGenerator::new(Some(0), GeneratorDirection::Backward);
    assert_eq!(g.next(), GeneratorMessage::Looped(1, u32::MAX));
    assert_eq!(octets(&g), (255, 255, 255, 255));
    assert_eq!(g.next(), GeneratorMessage::Normal(2, u32::MAX - 1));
}

#[test]
fn forward_then_backward_comes_back() {
    let mut g = SequentialGenerator::default();
    g.zip(0x1234_5678).unwrap();
    g.next();
    g.dir = GeneratorDirection::Backward;
    g.next();
    assert_eq!(g.las, 0x1234_5678);
}

#[test]
fn walk_meets_consecutive_addresses() {
    let mut g = SequentialGenerator::default();
    g.zip(0xFFFF_FFFD).unwrap();
    let seen: Vec<u32> = (0..5)
        .map(|_| match g.next() {
            GeneratorMessage::Normal(_, n) | GeneratorMessage::Looped(_, n) => n,
        })
        .collect();
    assert_eq!(seen, vec![0xFFFF_FFFE, 0xFFFF_FFFF, 0, 1, 2]);
}

#[test]
fn skip_after_zip_reverses_the_bytes() {
    let mut g = SequentialGenerator::default();
    g.zip(0x0102_0304).unwrap();
    g.skip(5);
    assert_eq!(g.cn, 5);
    assert_eq!(g.las, 0x0403_0201);
    assert_eq!(octets(&g), (1, 2, 3, 4));
}

#[test]
fn skip_wraps_the_counter() {
    let mut g = SequentialGenerator::default();
    g.cn = u32::MAX - 1;
    g.skip(3);
    assert_eq!(g.cn, 1);
    assert_eq!(g.las, 0);
}

#[test]
fn next_wraps_the_counter() {
    let mut g = SequentialGenerator::default();
    g.cn = u32::MAX;
    assert_eq!(g.next(), GeneratorMessage::Normal(0, 1));
}
