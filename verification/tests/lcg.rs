use ip_generators::generators::{
    GeneratorMessage, NumberGenerator, ZippableNumberGenerator, A_PRIMA, C_PRIMA, LCG, M_PRIMA,
};

#[test]
fn new_takes_the_first_step() {
    let g = LCG::new(3, 7, 0, 2);
    assert_eq!(g.x, 6);
    assert_eq!(g.l, 0);
    assert_eq!(g.cn, 0);
    assert_eq!(g.f, 0);
}

#[test]
fn next_runs_the_recurrence() {
    let mut g = LCG::new(3, 7, 0, 2);
    assert_eq!(g.next(), GeneratorMessage::Normal(0, 5));
    assert_eq!(g.x, 5);
}

#[test]
fn reaching_zero_counts_a_loop() {
    let mut g = LCG::new(9, 7, 0, 0);
    assert_eq!(g.x, 0);
    assert_eq!(g.l, 1);
    assert_eq!(g.next(), GeneratorMessage::Looped(0, 0));
    assert_eq!(g.l, 2);
}

#[test]
fn message_carries_the_increment() {
    let mut g = LCG::new(1, 7, 3, 2);
    assert_eq!(g.x, 5);
    assert_eq!(g.next(), GeneratorMessage::Normal(3, 6));
}

#[test]
fn values_past_u32_are_stepped_over() {
    let g = LCG::new(1 << 31, 1 << 33, 1, 2);
    assert_eq!(g.x, 3);
}

#[test]
fn default_parameters_step_once() {
    let g = LCG::new(1, M_PRIMA, C_PRIMA, A_PRIMA);
    assert_eq!(g.x, 279470278);
    let h = LCG::new(u128::MAX, M_PRIMA, C_PRIMA, A_PRIMA);
    assert!(h.x <= u32::MAX as u128);
    assert_eq!(h.x, ((A_PRIMA % M_PRIMA) * (u128::MAX % M_PRIMA)) % M_PRIMA + C_PRIMA);
}

#[test]
fn skip_takes_that_many_steps() {
    let mut g = LCG::new(1, 7, 0, 3);
    g.skip(2);
    assert_eq!(g.x, 6);
    g.skip(0);
    assert_eq!(g.x, 6);
}

#[test]
fn skips_add_up() {
    let mut g = LCG::new(1, 7, 0, 3);
    let mut h = g.clone();
    g.skip(2);
    g.skip(3);
    h.skip(5);
    assert_eq!(g.x, h.x);
    assert_eq!(g.l, h.l);
}

#[test]
fn zip_finds_a_later_address() {
    let mut g = LCG::new(1, 7, 0, 3);
    assert_eq!(g.x, 3);
    assert_eq!(g.zip(6), Ok(6));
    assert_eq!(g.x, 6);
}

#[test]
fn zip_to_the_first_address_stops_at_once() {
    let mut g = LCG::new(1, 7, 0, 3);
    assert_eq!(g.zip(2), Ok(2));
    assert_eq!(g.x, 2);
}

#[test]
fn zip_that_never_comes_fails() {
    let mut g = LCG::new(1, 7, 0, 3);
    assert_eq!(
        g.zip(0),
        Err("We went all the way around without finding the zip number!")
    );
    assert_eq!(g.x, 2);
}
