use ip_generators::generators::{GeneratorMessage, NumberGenerator, PoorMans};
use rand_chacha::rand_core::SeedableRng;

fn in_order() -> Vec<u8> {
    (0..=255u8).collect()
}

fn sorted(v: &[u8]) -> Vec<u8> {
    let mut w = v.to_vec();
    w.sort();
    w
}

fn pack(x: u8, y: u8, z: u8, w: u8) -> u32 {
    (x as u32) | ((y as u32) << 8) | ((z as u32) << 16) | ((w as u32) << 24)
}

fn ordered(nx: usize, ny: usize, nz: usize, nw: usize) -> PoorMans {
    PoorMans {
        xs: in_order(),
        ys: in_order(),
        zs: in_order(),
        ws: in_order(),
        nx,
        ny,
        nz,
        nw,
        cn: 0,
        rng: rand_chacha::ChaCha12Rng::seed_from_u64(7),
        las: 0,
    }
}

#[test]
fn default_holds_four_decks_of_every_octet() {
    let g = PoorMans::default();
    for d in [&g.xs, &g.ys, &g.zs, &g.ws] {
        assert_eq!(sorted(d), in_order());
    }
    assert_eq!((g.nx, g.ny, g.nz, g.nw, g.cn, g.las), (0, 0, 0, 0, 0, 0));
    let shuffled = [&g.xs, &g.ys, &g.zs, &g.ws].iter().any(|d| **d != in_order());
    assert!(shuffled);
}

#[test]
fn next_deals_the_first_octets() {
    let mut g = PoorMans::default();
    let expected = pack(g.xs[0], g.ys[0], g.zs[0], g.ws[0]);
    assert_eq!(g.next(), GeneratorMessage::Normal(1, expected));
    assert_eq!(g.las, expected);
    assert_eq!((g.nx, g.ny, g.nz, g.nw), (0, 0, 0, 1));
}

#[test]
fn next_reads_the_dealt_positions() {
    let mut g = ordered(1, 2, 3, 4);
    assert_eq!(g.next(), GeneratorMessage::Normal(1, 0x0403_0201));
    assert_eq!(g.nw, 5);
}

#[test]
fn last_deck_running_out_moves_the_third() {
    let mut g = ordered(1, 2, 3, 256);
    let msg = g.next();
    assert_eq!((g.nx, g.ny, g.nz, g.nw), (1, 2, 4, 1));
    assert_eq!(g.cn, 2);
    assert_eq!(g.xs, in_order());
    assert_eq!(g.ys, in_order());
    assert_eq!(g.zs, in_order());
    assert_eq!(sorted(&g.ws), in_order());
    assert_eq!(msg, GeneratorMessage::Normal(2, pack(1, 2, 4, g.ws[0])));
}

#[test]
fn carry_through_every_deck_wraps_around() {
    let mut g = ordered(255, 255, 255, 256);
    let msg = g.next();
    assert_eq!((g.nx, g.ny, g.nz, g.nw), (0, 0, 0, 1));
    assert_eq!(g.cn, 5);
    for d in [&g.xs, &g.ys, &g.zs, &g.ws] {
        assert_eq!(sorted(d), in_order());
    }
    let expected = pack(g.xs[0], g.ys[0], g.zs[0], g.ws[0]);
    assert_eq!(msg, GeneratorMessage::Looped(5, expected));
}

#[test]
fn exhausted_first_deck_wraps_around() {
    let mut g = ordered(256, 3, 3, 3);
    let msg = g.next();
    assert_eq!((g.nx, g.ny, g.nz, g.nw), (0, 3, 3, 4));
    assert_eq!(g.cn, 2);
    assert_eq!(msg, GeneratorMessage::Looped(2, pack(g.xs[0], 3, 3, 3)));
}

#[test]
fn positions_advance_like_an_odometer() {
    let mut g = ordered(0, 0, 0, 0);
    let mut last = None;
    for _ in 0..600 {
        g.next();
        let index = ((g.nx as u64) << 24) | ((g.ny as u64) << 16) | ((g.nz as u64) << 8)
            | (g.nw as u64 - 1);
        if let Some(prev) = last {
            assert_eq!(index, prev + 1);
        }
        last = Some(index);
    }
    assert_eq!((g.nx, g.ny, g.nz, g.nw), (0, 0, 2, 88));
}

#[test]
fn a_pass_gives_every_address_at_most_once() {
    let mut g = PoorMans::default();
    let mut seen = std::collections::HashSet::new();
    for _ in 0..70_000 {
        match g.next() {
            GeneratorMessage::Normal(_, n) => assert!(seen.insert(n)),
            GeneratorMessage::Looped(_, _) => panic!("wrapped within the pass"),
        }
    }
    assert_eq!(seen.len(), 70_000);
}
