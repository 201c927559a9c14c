//! The generators with wide octet counters and 128-bit skips: a sequential
//! walk that counts octet by octet in base 255, the shuffled decks with the
//! address built in base 255, and the congruential generator.
use vstd::prelude::*;

use crate::generators::poor_mans_ip_generator::{
    cascade, deck_after, exhausted_rank, is_deck, lemma_cascade_bounds, lemma_deck_len, Cascade,
};
use crate::generators::{
    zip_result_view, NumberGenerator as StepGenerator, NumberGenerators, ZippableNumberGenerator,
    LCG,
};
use crate::rng::shuffle_deck;

pub use crate::generators::GeneratorMessage;

verus! {

/// A generator of addresses that skips by 128-bit counts.
pub trait NumberGenerator: Sized {
    /// The inputs on which `skip` returns.
    spec fn skip_requires(&self, skip: u128) -> bool;

    /// What `skip` leaves behind.
    spec fn skip_ensures(&self, skip: u128, after: Self) -> bool;

    /// The states in which `next` returns.
    spec fn next_requires(&self) -> bool;

    /// What `next` leaves behind and returns.
    spec fn next_ensures(&self, after: Self, msg: GeneratorMessage) -> bool;

    fn skip(&mut self, skip: u128)
        requires
            old(self).skip_requires(skip),
        ensures
            old(self).skip_ensures(skip, *final(self)),
    ;

    fn next(&mut self) -> (msg: GeneratorMessage)
        requires
            old(self).next_requires(),
        ensures
            old(self).next_ensures(*final(self), msg),
    ;
}

/// The order of a sequential walk.
#[derive(Debug, Clone, Copy, PartialEq, Eq, Structural)]
pub enum SequentialGeneratorDirection {
    Forward,
    Backward,
}

/// The four octet counters as one address: `((x * 255 + y) * 255 + z) * 255
/// + w`, cut to 32 bits.
pub open spec fn counters_address(x: u32, y: u32, z: u32, w: u32) -> u32 {
    ((((x as u128) * 255 + (y as u128)) * 255 + (z as u128)) * 255 + (w as u128)) as u32
}

/// One step of the octet counters: a counter at its last value (255
/// forward, 0 backward) goes back to its first and moves the next counter
/// on; when the last counter is at its last value, it and the first one go
/// back; otherwise the first counter moves.
pub open spec fn counters_step(dir: SequentialGeneratorDirection, n: (u32, u32, u32, u32)) -> (
    u32,
    u32,
    u32,
    u32,
) {
    let (x, y, z, w) = n;
    match dir {
        SequentialGeneratorDirection::Forward => if x == 255 {
            (0, (y + 1) as u32, z, w)
        } else if y == 255 {
            (x, 0, (z + 1) as u32, w)
        } else if z == 255 {
            (x, y, 0, (w + 1) as u32)
        } else if w == 255 {
            (0, y, z, 0)
        } else {
            ((x + 1) as u32, y, z, w)
        },
        SequentialGeneratorDirection::Backward => if x == 0 {
            (255, (y - 1) as u32, z, w)
        } else if y == 0 {
            (x, 255, (z - 1) as u32, w)
        } else if z == 0 {
            (x, y, 255, (w - 1) as u32)
        } else if w == 0 {
            (255, y, z, 255)
        } else {
            ((x - 1) as u32, y, z, w)
        },
    }
}

/// The counter that a step moves stays within `u32`.
pub open spec fn counters_can_step(dir: SequentialGeneratorDirection, n: (u32, u32, u32, u32)) -> bool {
    let (x, y, z, w) = n;
    match dir {
        SequentialGeneratorDirection::Forward => if x == 255 {
            y < u32::MAX
        } else if y == 255 {
            z < u32::MAX
        } else if z == 255 {
            w < u32::MAX
        } else if w == 255 {
            true
        } else {
            x < u32::MAX
        },
        SequentialGeneratorDirection::Backward => if x == 0 {
            y > 0
        } else if y == 0 {
            z > 0
        } else if z == 0 {
            w > 0
        } else {
            true
        },
    }
}

/// Walks the address space by four octet counters, forward or backward.
#[derive(Debug, Clone)]
pub struct SequentialGenerator {
    pub dir: SequentialGeneratorDirection,
    pub cn: u32,
    pub las: u32,
    pub xn: u32,
    pub yn: u32,
    pub zn: u32,
    pub wn: u32,
}

impl SequentialGenerator {
    /// The four counters.
    pub open spec fn counters(&self) -> (u32, u32, u32, u32) {
        (self.xn, self.yn, self.zn, self.wn)
    }

    /// `next` returns from this state: the counter of iterations has room
    /// and the step keeps the octet counters within `u32`.
    pub open spec fn can_step(&self) -> bool {
        self.cn < u32::MAX && counters_can_step(self.dir, self.counters())
    }

    /// The state `next` leaves behind.
    pub open spec fn next_state(&self) -> SequentialGenerator {
        let (xn, yn, zn, wn) = counters_step(self.dir, self.counters());
        SequentialGenerator {
            cn: (self.cn + 1) as u32,
            las: counters_address(xn, yn, zn, wn),
            xn,
            yn,
            zn,
            wn,
            ..*self
        }
    }

    /// A walk in `direction` whose counters all start at their first value
    /// (0 forward, 255 backward), with `start` as its last address, or the
    /// first address of the walk (0 forward, `u32::MAX` backward).
    pub fn new(start: Option<u32>, direction: SequentialGeneratorDirection) -> (new: Self)
        ensures
            new.dir == direction,
            new.cn == 0,
            new.las == match start {
                Some(s) => s,
                None => if direction == SequentialGeneratorDirection::Backward {
                    u32::MAX
                } else {
                    0u32
                },
            },
            new.counters() == if direction == SequentialGeneratorDirection::Backward {
                (255u32, 255u32, 255u32, 255u32)
            } else {
                (0u32, 0u32, 0u32, 0u32)
            },
    {
        let (init, mut las): (u32, u32) = match direction {
            SequentialGeneratorDirection::Backward => (255u32, u32::MAX),
            SequentialGeneratorDirection::Forward => (0u32, u32::MIN),
        };
        if let Some(s) = start {
            las = s;
        };
        return Self { dir: direction, las: las, xn: init, yn: init, zn: init, wn: init, cn: 0 };
    }
}

impl Default for SequentialGenerator {
    /// A forward walk from address 0.
    fn default() -> (new: Self)
        ensures
            new == (SequentialGenerator {
                dir: SequentialGeneratorDirection::Forward,
                cn: 0,
                las: 0,
                xn: 0,
                yn: 0,
                zn: 0,
                wn: 0,
            }),
    {
        Self::new(Some(0), SequentialGeneratorDirection::Forward)
    }
}

/// The counters a forward walk from the default generator reaches: each at
/// most 255, and a counter at 255 only while all the counters it follows
/// in the carry order are at 0 (the first counter excepted).
pub open spec fn forward_shape(x: u32, y: u32, z: u32, w: u32) -> bool {
    &&& x <= 255 && y <= 255 && z <= 255 && w <= 255
    &&& y == 255 ==> x == 0
    &&& z == 255 ==> x == 0 && y == 0
    &&& w == 255 ==> x == 0 && y == 0 && z == 0
}

/// The generator after `n` calls of `next`.
pub open spec fn sequential_walk(g: SequentialGenerator, n: nat) -> SequentialGenerator
    decreases n,
{
    if n == 0 {
        g
    } else {
        sequential_walk(g, (n - 1) as nat).next_state()
    }
}

/// Stepping forward is an odometer: the first counter that is at 255
/// (checked from the first) carries: it goes back to 0 and the next one
/// moves on by one, while the others stay; the last counter's carry resets
/// it and the first. With no counter at 255 the first moves on by one.
pub proof fn law_forward_odometer(g: SequentialGenerator)
    requires
        g.dir == SequentialGeneratorDirection::Forward,
    ensures
        g.xn == 255 ==> g.next_state().counters() == (0u32, (g.yn + 1) as u32, g.zn, g.wn),
        g.xn != 255 && g.yn == 255 ==> g.next_state().counters() == (g.xn, 0u32, (g.zn + 1) as u32,
            g.wn),
        g.xn != 255 && g.yn != 255 && g.zn == 255 ==> g.next_state().counters() == (
            g.xn,
            g.yn,
            0u32,
            (g.wn + 1) as u32,
        ),
        g.xn != 255 && g.yn != 255 && g.zn != 255 && g.wn == 255 ==> g.next_state().counters() == (
            0u32,
            g.yn,
            g.zn,
            0u32,
        ),
        g.xn != 255 && g.yn != 255 && g.zn != 255 && g.wn != 255 ==> g.next_state().counters() == (
            (g.xn + 1) as u32,
            g.yn,
            g.zn,
            g.wn,
        ),
{
}

/// Walking forward from the default generator, every counter stays at most
/// 255 (a counter that carries goes back to 0), and every step keeps the
/// counters within `u32`.
pub proof fn law_forward_counters_bounded(n: nat)
    ensures
        ({
            let g = sequential_walk(
                SequentialGenerator {
                    dir: SequentialGeneratorDirection::Forward,
                    cn: 0,
                    las: 0,
                    xn: 0,
                    yn: 0,
                    zn: 0,
                    wn: 0,
                },
                n,
            );
            &&& g.dir == SequentialGeneratorDirection::Forward
            &&& g.xn <= 255 && g.yn <= 255 && g.zn <= 255 && g.wn <= 255
            &&& forward_shape(g.xn, g.yn, g.zn, g.wn)
            &&& counters_can_step(g.dir, g.counters())
        }),
    decreases n,
{
    if n > 0 {
        law_forward_counters_bounded((n - 1) as nat);
    }
}

impl ZippableNumberGenerator for SequentialGenerator {
    open spec fn zip_requires(&self, zip: u32) -> bool {
        true
    }

    /// `zip` becomes the last address and the counters take its octets,
    /// least significant first.
    open spec fn zip_ensures(&self, zip: u32, after: Self, r: Result<u32, Seq<char>>) -> bool {
        &&& after == (SequentialGenerator {
            las: zip,
            xn: zip & 0xFF,
            yn: (zip >> 8u32) & 0xFF,
            zn: (zip >> 16u32) & 0xFF,
            wn: (zip >> 24u32) & 0xFF,
            ..*self
        })
        &&& r == Ok::<u32, Seq<char>>(zip)
    }

    fn zip(&mut self, zip: u32) -> (r: Result<u32, &str>) {
        self.las = zip;
        self.xn = zip & 0xFF;
        self.yn = (zip >> 8) & 0xFF;
        self.zn = (zip >> 16) & 0xFF;
        self.wn = (zip >> 24) & 0xFF;
        return Ok(zip);
    }
}

impl NumberGenerator for SequentialGenerator {
    open spec fn skip_requires(&self, skip: u128) -> bool {
        true
    }

    /// The counter of iterations becomes `skip`, cut to 32 bits.
    open spec fn skip_ensures(&self, skip: u128, after: Self) -> bool {
        after == (SequentialGenerator { cn: skip as u32, ..*self })
    }

    open spec fn next_requires(&self) -> bool {
        self.can_step()
    }

    open spec fn next_ensures(&self, after: Self, msg: GeneratorMessage) -> bool {
        after == self.next_state() && msg == GeneratorMessage::Normal(
            after.cn as u128,
            after.las,
        )
    }

    fn skip(&mut self, skip: u128) {
        self.cn = skip as u32;
    }

    fn next(&mut self) -> (msg: GeneratorMessage) {
        self.cn += 1;
        match self.dir {
            SequentialGeneratorDirection::Forward => {
                if self.xn == 255 {
                    self.yn += 1;
                    self.xn = 0
                } else if self.yn == 255 {
                    self.zn += 1;
                    self.yn = 0
                } else if self.zn == 255 {
                    self.wn += 1;
                    self.zn = 0
                } else if self.wn == 255 {
                    self.xn = 0;
                    self.wn = 0
                } else {
                    self.xn += 1;
                }
            },
            SequentialGeneratorDirection::Backward => {
                if self.xn == 0 {
                    self.yn -= 1;
                    self.xn = 255
                } else if self.yn == 0 {
                    self.zn -= 1;
                    self.yn = 255
                } else if self.zn == 0 {
                    self.wn -= 1;
                    self.zn = 255
                } else if self.wn == 0 {
                    self.xn = 255;
                    self.wn = 255
                } else {
                    self.xn -= 1;
                }
            },
        }
        self.las = ((((self.xn as u128) * 255 + (self.yn as u128)) * 255 + (self.zn as u128)) * 255
            + (self.wn as u128)) as u32;
        return GeneratorMessage::Normal(self.cn as u128, self.las);
    }
}

/// The address built from four dealt octets, the fourth deck's most
/// significant: `((w * 255 + z) * 255 + y) * 255 + x`.
pub open spec fn dealt_address(x: u8, y: u8, z: u8, w: u8) -> u32 {
    (((w * 255 + z) * 255 + y) * 255 + x) as u32
}

/// Four shuffled decks of octets, dealt like the wheels of an odometer,
/// the address built from them in base 255.
#[derive(Debug, Clone)]
pub struct PoorMansIPGenerator {
    pub xs: Vec<u8>,
    pub ys: Vec<u8>,
    pub zs: Vec<u8>,
    pub ws: Vec<u8>,
    pub nx: usize,
    pub ny: usize,
    pub nz: usize,
    pub nw: usize,
    pub cn: u32,
    pub rng: rand_chacha::ChaCha12Rng,
    pub las: u32,
}

impl PoorMansIPGenerator {
    /// Every deck holds each octet once and every position is within its
    /// deck or just past its end.
    pub open spec fn wf(&self) -> bool {
        &&& is_deck(self.xs@)
        &&& is_deck(self.ys@)
        &&& is_deck(self.zs@)
        &&& is_deck(self.ws@)
        &&& self.nx <= 256
        &&& self.ny <= 256
        &&& self.nz <= 256
        &&& self.nw <= 256
    }

    /// The cascade of the next call of `next`.
    pub open spec fn cascade(&self) -> Cascade {
        cascade(self.nx as int, self.ny as int, self.nz as int, self.nw as int)
    }

    /// `next` returns from this state: the counter does not overflow.
    pub open spec fn can_step(&self) -> bool {
        self.wf() && self.cn + self.cascade().calls <= u32::MAX
    }

    /// `after` and `msg` are what `next` may give from `self`: as for the
    /// other shuffled generator, with the address built by
    /// `dealt_address`.
    pub open spec fn stepped(&self, after: Self, msg: GeneratorMessage) -> bool {
        let c = self.cascade();
        &&& after.wf()
        &&& after.nx == c.pos.0 && after.ny == c.pos.1 && after.nz == c.pos.2
        &&& after.nw == c.pos.3 + 1
        &&& after.cn == self.cn + c.calls
        &&& deck_after(c.shuffled.0, self.xs@, after.xs@)
        &&& deck_after(c.shuffled.1, self.ys@, after.ys@)
        &&& deck_after(c.shuffled.2, self.zs@, after.zs@)
        &&& deck_after(c.shuffled.3, self.ws@, after.ws@)
        &&& after.las == dealt_address(
            after.xs@[c.pos.0],
            after.ys@[c.pos.1],
            after.zs@[c.pos.2],
            after.ws@[c.pos.3],
        )
        &&& msg == if c.wrapped {
            GeneratorMessage::Looped(after.cn as u128, after.las)
        } else {
            GeneratorMessage::Normal(after.cn as u128, after.las)
        }
    }
}

impl Default for PoorMansIPGenerator {
    /// Four freshly shuffled decks, with every position at the start and
    /// address 0 as the last one.
    fn default() -> (new: Self)
        ensures
            new.wf(),
            new.nx == 0 && new.ny == 0 && new.nz == 0 && new.nw == 0,
            new.cn == 0,
            new.las == 0,
    {
        let g = crate::generators::PoorMans::default();
        PoorMansIPGenerator {
            xs: g.xs,
            nx: 0,
            ys: g.ys,
            ny: 0,
            zs: g.zs,
            nz: 0,
            ws: g.ws,
            nw: 0,
            rng: g.rng,
            las: 0,
            cn: 0,
        }
    }
}

impl NumberGenerator for PoorMansIPGenerator {
    /// Skipping is not implemented for this generator: no state admits it.
    open spec fn skip_requires(&self, skip: u128) -> bool {
        false
    }

    open spec fn skip_ensures(&self, skip: u128, after: Self) -> bool {
        true
    }

    open spec fn next_requires(&self) -> bool {
        self.can_step()
    }

    open spec fn next_ensures(&self, after: Self, msg: GeneratorMessage) -> bool {
        self.stepped(after, msg)
    }

    fn skip(&mut self, skip: u128) {
    }

    fn next(&mut self) -> (msg: GeneratorMessage)
        decreases exhausted_rank(
            old(self).nx as int,
            old(self).ny as int,
            old(self).nz as int,
            old(self).nw as int,
        ),
    {
        proof {
            lemma_cascade_bounds(self.nx as int, self.ny as int, self.nz as int, self.nw as int);
            lemma_deck_len(self.xs@);
            lemma_deck_len(self.ys@);
            lemma_deck_len(self.zs@);
            lemma_deck_len(self.ws@);
        }
        self.cn += 1;
        let x_: u128;
        let y_: u128;
        let z_: u128;
        let w_: u128;
        if self.nx < self.xs.len() {
            if self.ny < self.ys.len() {
                if self.nz < self.zs.len() {
                    if self.nw < self.ws.len() {
                        let x = self.xs[self.nx];
                        let y = self.ys[self.ny];
                        let z = self.zs[self.nz];
                        let w = self.ws[self.nw];
                        self.nw += 1;
                        w_ = x as u128;
                        z_ = y as u128;
                        y_ = z as u128;
                        x_ = w as u128;
                        self.las = (((x_ * 255 + y_) * 255 + z_) * 255 + w_) as u32;
                        return GeneratorMessage::Normal(self.cn as u128, self.las);
                    } else {
                        self.nw = 0;
                        self.nz += 1;
                        shuffle_deck(&mut self.ws, &mut self.rng);
                        return self.next();
                    }
                } else {
                    self.nz = 0;
                    self.ny += 1;
                    shuffle_deck(&mut self.zs, &mut self.rng);
                    return self.next();
                }
            } else {
                self.ny = 0;
                self.nx += 1;
                shuffle_deck(&mut self.ys, &mut self.rng);
                return self.next();
            }
        } else {
            self.nx = 0;
            shuffle_deck(&mut self.xs, &mut self.rng);
            proof {
                lemma_cascade_bounds(0, self.ny as int, self.nz as int, self.nw as int);
            }
            return match self.next() {
                GeneratorMessage::Normal(c, n) => GeneratorMessage::Looped(c, n),
                GeneratorMessage::Looped(_, _) => unreached(),
            };
        }
    }
}

/// The congruential generator, skipping by 128-bit counts.
#[derive(Debug, Clone)]
pub struct LCGIPGenerator {
    pub x: u128,
    pub m: u128,
    pub c: u128,
    pub a: u128,
    pub l: u128,
    pub f: u128,
    pub cn: u128,
}

impl LCGIPGenerator {
    /// The same state, as the other congruential generator.
    pub open spec fn as_lcg(&self) -> LCG {
        LCG { x: self.x, m: self.m, c: self.c, a: self.a, l: self.l, f: self.f, cn: self.cn }
    }

    /// The state of the other congruential generator, as this one.
    pub open spec fn from_lcg(g: LCG) -> LCGIPGenerator {
        LCGIPGenerator { x: g.x, m: g.m, c: g.c, a: g.a, l: g.l, f: g.f, cn: g.cn }
    }

    fn to_lcg(&self) -> (g: LCG)
        ensures
            g == self.as_lcg(),
    {
        LCG { x: self.x, m: self.m, c: self.c, a: self.a, l: self.l, f: self.f, cn: self.cn }
    }

    fn set_from_lcg(&mut self, g: LCG)
        ensures
            *final(self) == Self::from_lcg(g),
    {
        self.x = g.x;
        self.m = g.m;
        self.c = g.c;
        self.a = g.a;
        self.l = g.l;
        self.f = g.f;
        self.cn = g.cn;
    }

    /// Seeds a generator and takes its first step, as `LCG::new` does.
    pub fn new(seed: u128, m: u128, c: u128, a: u128) -> (new: Self)
        requires
            (crate::generators::Recurrence { a: a as int, c: c as int, m: m as int }).can_land(
                seed as int,
            ),
        ensures
            new == Self::from_lcg((LCG { x: seed, m, c, a, l: 0, f: 0, cn: 0 }).next_state()),
    {
        let mut new: Self = Self { x: seed, m: m, c: c, a: a, l: 0, f: 0, cn: 0 };
        new.next();
        return new;
    }
}

impl NumberGenerator for LCGIPGenerator {
    open spec fn skip_requires(&self, skip: u128) -> bool {
        self.as_lcg().can_advance(skip as nat)
    }

    open spec fn skip_ensures(&self, skip: u128, after: Self) -> bool {
        after == Self::from_lcg(self.as_lcg().advanced_state(skip as nat))
    }

    open spec fn next_requires(&self) -> bool {
        self.as_lcg().can_step()
    }

    open spec fn next_ensures(&self, after: Self, msg: GeneratorMessage) -> bool {
        after == Self::from_lcg(self.as_lcg().next_state()) && msg == self.as_lcg().next_message()
    }

    fn skip(&mut self, skip: u128) {
        let ghost start = self.as_lcg();
        let mut i: u128 = 0;
        while i < skip
            invariant
                i <= skip,
                start.can_advance(skip as nat),
                self.as_lcg() == start.advanced_state(i as nat),
            decreases skip - i,
        {
            proof {
                crate::generators::lcgipgenerator::lemma_advanced_step(
                    start,
                    i as nat,
                    skip as nat,
                );
            }
            self.next();
            i = i + 1;
        }
    }

    fn next(&mut self) -> (msg: GeneratorMessage) {
        let mut g = self.to_lcg();
        let msg = g.next();
        self.set_from_lcg(g);
        msg
    }
}

impl ZippableNumberGenerator for LCGIPGenerator {
    open spec fn zip_requires(&self, zip: u32) -> bool {
        self.as_lcg().can_zip(zip)
    }

    open spec fn zip_ensures(&self, zip: u32, after: Self, r: Result<u32, Seq<char>>) -> bool {
        after == Self::from_lcg(self.as_lcg().zip_state(zip)) && r == self.as_lcg().zip_outcome(
            zip,
        )
    }

    fn zip(&mut self, zip: u32) -> (r: Result<u32, &str>) {
        let mut g = self.to_lcg();
        let r = match g.zip(zip) {
            Ok(v) => Ok(v),
            Err(_) => Err("We went all the way around without finding the zip number!"),
        };
        self.set_from_lcg(g);
        r
    }
}

/// Roll your own random generator they say, what could go wrong, they say...
#[derive(Debug, Clone)]
pub enum IPGenerator {
    PoorMansIPGenerator(PoorMansIPGenerator),
    SequentialGenerator(SequentialGenerator),
    LCGIPGenerator(LCGIPGenerator),
}

impl IPGenerator {
    /// `gen_next` returns from this state.
    pub open spec fn can_step(&self) -> bool {
        match self {
            IPGenerator::PoorMansIPGenerator(g) => g.can_step(),
            IPGenerator::SequentialGenerator(g) => g.can_step(),
            IPGenerator::LCGIPGenerator(g) => g.as_lcg().can_step(),
        }
    }

    /// `after` and `msg` are what `gen_next` may give from `self`.
    pub open spec fn stepped(&self, after: Self, msg: GeneratorMessage) -> bool {
        match (*self, after) {
            (IPGenerator::PoorMansIPGenerator(g), IPGenerator::PoorMansIPGenerator(h)) => g.stepped(
                h,
                msg,
            ),
            (IPGenerator::SequentialGenerator(g), IPGenerator::SequentialGenerator(h)) => g.next_ensures(
                h,
                msg,
            ),
            (IPGenerator::LCGIPGenerator(g), IPGenerator::LCGIPGenerator(h)) => g.next_ensures(
                h,
                msg,
            ),
            _ => false,
        }
    }

    /// The last address, as the generator keeps it.
    pub open spec fn last(&self) -> u128 {
        match self {
            IPGenerator::PoorMansIPGenerator(g) => g.las as u128,
            IPGenerator::SequentialGenerator(g) => g.las as u128,
            IPGenerator::LCGIPGenerator(g) => g.x,
        }
    }

    /// The iteration counter, as the generator keeps it.
    pub open spec fn counter(&self) -> u128 {
        match self {
            IPGenerator::PoorMansIPGenerator(g) => g.cn as u128,
            IPGenerator::SequentialGenerator(g) => g.cn as u128,
            IPGenerator::LCGIPGenerator(g) => g.cn,
        }
    }

    /// A fresh generator of the chosen strategy: the shuffled decks, a
    /// forward walk from 0, or a congruential generator seeded with `num`
    /// that runs the recurrence of `M_PRIMA`, `C_PRIMA` and `A_PRIMA`.
    pub fn new(num: u128, strategy: NumberGenerators) -> (g: Self)
        ensures
            match strategy {
                NumberGenerators::PoorMansGen => g matches IPGenerator::PoorMansIPGenerator(p)
                    && p.wf() && p.nx == 0 && p.ny == 0 && p.nz == 0 && p.nw == 0 && p.cn == 0
                    && p.las == 0,
                NumberGenerators::Sequential => g == IPGenerator::SequentialGenerator(
                    SequentialGenerator {
                        dir: SequentialGeneratorDirection::Forward,
                        cn: 0,
                        las: 0,
                        xn: 0,
                        yn: 0,
                        zn: 0,
                        wn: 0,
                    },
                ),
                NumberGenerators::LCG => g == IPGenerator::LCGIPGenerator(
                    LCGIPGenerator::from_lcg(
                        (LCG {
                            x: num,
                            m: crate::generators::M_PRIMA,
                            c: crate::generators::C_PRIMA,
                            a: crate::generators::A_PRIMA,
                            l: 0,
                            f: 0,
                            cn: 0,
                        }).next_state(),
                    ),
                ),
            },
    {
        match strategy {
            NumberGenerators::PoorMansGen => IPGenerator::PoorMansIPGenerator(
                PoorMansIPGenerator::default(),
            ),
            NumberGenerators::Sequential => IPGenerator::SequentialGenerator(
                SequentialGenerator::default(),
            ),
            NumberGenerators::LCG => {
                proof {
                    crate::generators::default_recurrence().lemma_lands_in_one_step(num as int);
                }
                IPGenerator::LCGIPGenerator(
                    LCGIPGenerator::new(
                        num,
                        crate::generators::M_PRIMA,
                        crate::generators::C_PRIMA,
                        crate::generators::A_PRIMA,
                    ),
                )
            },
        }
    }

    /// The last address: the one last generated, or, for the congruential
    /// generator, the current value of its recurrence.
    pub fn get_las(&self) -> (r: u128)
        ensures
            r == self.last(),
    {
        match self {
            IPGenerator::PoorMansIPGenerator(gen) => gen.las as u128,
            IPGenerator::SequentialGenerator(gen) => gen.las as u128,
            IPGenerator::LCGIPGenerator(gen) => gen.x,
        }
    }

    /// Skips `skip` iterations (see each generator's `skip`); the shuffled
    /// generator cannot.
    pub fn gen_skip(&mut self, skip: u128)
        requires
            match *old(self) {
                IPGenerator::PoorMansIPGenerator(_) => false,
                IPGenerator::SequentialGenerator(g) => g.skip_requires(skip),
                IPGenerator::LCGIPGenerator(g) => g.skip_requires(skip),
            },
        ensures
            match (*old(self), *final(self)) {
                (IPGenerator::SequentialGenerator(g), IPGenerator::SequentialGenerator(h)) => g.skip_ensures(
                    skip,
                    h,
                ),
                (IPGenerator::LCGIPGenerator(g), IPGenerator::LCGIPGenerator(h)) => g.skip_ensures(
                    skip,
                    h,
                ),
                _ => false,
            },
    {
        match self {
            IPGenerator::PoorMansIPGenerator(gen) => gen.skip(skip),
            IPGenerator::SequentialGenerator(gen) => gen.skip(skip),
            IPGenerator::LCGIPGenerator(gen) => gen.skip(skip),
        }
    }

    /// Moves the generator to `zip`; the shuffled generator cannot.
    pub fn gen_zip(&mut self, zip: u32) -> (r: Result<u32, &str>)
        requires
            match *old(self) {
                IPGenerator::LCGIPGenerator(g) => g.zip_requires(zip),
                _ => true,
            },
        ensures
            match (*old(self), *final(self)) {
                (IPGenerator::PoorMansIPGenerator(g), IPGenerator::PoorMansIPGenerator(h)) => h
                    == g && zip_result_view(r) == Err::<u32, Seq<char>>("not implemented"@),
                (IPGenerator::SequentialGenerator(g), IPGenerator::SequentialGenerator(h)) => g.zip_ensures(
                    zip,
                    h,
                    zip_result_view(r),
                ),
                (IPGenerator::LCGIPGenerator(g), IPGenerator::LCGIPGenerator(h)) => g.zip_ensures(
                    zip,
                    h,
                    zip_result_view(r),
                ),
                _ => false,
            },
    {
        match self {
            IPGenerator::PoorMansIPGenerator(_) => {
                return Result::Err("not implemented");
            },
            IPGenerator::SequentialGenerator(gen) => {
                return gen.zip(zip);
            },
            IPGenerator::LCGIPGenerator(gen) => {
                return gen.zip(zip);
            },
        }
    }

    /// Generates the next address.
    pub fn gen_next(&mut self) -> (msg: GeneratorMessage)
        requires
            old(self).can_step(),
        ensures
            old(self).stepped(*final(self), msg),
    {
        match self {
            IPGenerator::PoorMansIPGenerator(gen) => gen.next(),
            IPGenerator::SequentialGenerator(gen) => gen.next(),
            IPGenerator::LCGIPGenerator(gen) => gen.next(),
        }
    }

    /// The iteration counter and the last address. The congruential
    /// generator's value must be an address.
    pub fn gen_state(&self) -> (r: (u128, u32))
        requires
            self.last() <= u32::MAX,
        ensures
            r == (self.counter(), self.last() as u32),
    {
        match self {
            IPGenerator::PoorMansIPGenerator(gen) => (gen.cn as u128, gen.las),
            IPGenerator::SequentialGenerator(gen) => (gen.cn as u128, gen.las),
            IPGenerator::LCGIPGenerator(gen) => (gen.cn, gen.x as u32),
        }
    }
}

/// The skip `prepare` hands to the generator returns, and so does the zip
/// when asked for.
pub open spec fn can_prepare(g: IPGenerator, skip: u128, zip: u32, zip_flag: bool) -> bool {
    &&& skip != 0 ==> match g {
        IPGenerator::PoorMansIPGenerator(_) => false,
        IPGenerator::SequentialGenerator(s) => s.skip_requires(skip),
        IPGenerator::LCGIPGenerator(l) => l.skip_requires(skip),
    }
    &&& zip_flag ==> forall|h: IPGenerator|
        skipped(g, skip, h) ==> (h matches IPGenerator::LCGIPGenerator(l) ==> l.zip_requires(zip))
}

/// `h` is `g` after skipping `skip` iterations (nothing when `skip` is 0).
pub open spec fn skipped(g: IPGenerator, skip: u128, h: IPGenerator) -> bool {
    if skip == 0 {
        h == g
    } else {
        match (g, h) {
            (IPGenerator::SequentialGenerator(s), IPGenerator::SequentialGenerator(t)) => s.skip_ensures(
                skip,
                t,
            ),
            (IPGenerator::LCGIPGenerator(s), IPGenerator::LCGIPGenerator(t)) => s.skip_ensures(
                skip,
                t,
            ),
            _ => false,
        }
    }
}

/// `h` is `g` after zipping to `zip`, with outcome `r`.
pub open spec fn zipped(g: IPGenerator, zip: u32, h: IPGenerator, r: Result<u32, Seq<char>>) -> bool {
    match (g, h) {
        (IPGenerator::PoorMansIPGenerator(s), IPGenerator::PoorMansIPGenerator(t)) => t == s && r
            == Err::<u32, Seq<char>>("not implemented"@),
        (IPGenerator::SequentialGenerator(s), IPGenerator::SequentialGenerator(t)) => s.zip_ensures(
            zip,
            t,
            r,
        ),
        (IPGenerator::LCGIPGenerator(s), IPGenerator::LCGIPGenerator(t)) => s.zip_ensures(zip, t, r),
        _ => false,
    }
}

/// Brings a fresh generator to where the run starts: skips `skip`
/// iterations when that is not zero, then, if asked, zips it to `zip`. A
/// failed zip is returned.
pub fn prepare(generator: &mut IPGenerator, skip: u128, zip: u32, zip_flag: bool) -> (r: Result<
    (),
    String,
>)
    requires
        can_prepare(*old(generator), skip, zip, zip_flag),
    ensures
        !zip_flag ==> skipped(*old(generator), skip, *final(generator)) && r is Ok,
        zip_flag ==> exists|h: IPGenerator, z: Result<u32, Seq<char>>|
            #![trigger zipped(h, zip, *final(generator), z)]
            skipped(*old(generator), skip, h) && zipped(h, zip, *final(generator), z) && (r is Ok
                <==> z is Ok) && (r matches Err(e) ==> z == Err::<u32, Seq<char>>(e@)),
{
    if skip != 0 {
        generator.gen_skip(skip);
    }
    let ghost h = *generator;
    assert(skipped(*old(generator), skip, h));
    if zip_flag {
        let z: Result<u32, String> = match generator.gen_zip(zip) {
            Ok(v) => Ok(v),
            Err(e) => Err(e.to_owned()),
        };
        assert(zipped(
            h,
            zip,
            *generator,
            match z {
                Ok(v) => Ok(v),
                Err(e) => Err(e@),
            },
        ));
        match z {
            Ok(_) => {},
            Err(e) => {
                return Err(e);
            },
        }
    }
    Ok(())
}

/// What the generator thread does after one round of its loop.
#[derive(Debug, Clone)]
pub enum GenerateStep {
    /// The queue of addresses to check is full: wait.
    Wait,
    /// An address was generated and is handed on to be checked.
    ToCheck(crate::message::MessageToCheck),
    /// An address was generated and handed on, and it is the last one of
    /// the run.
    ReachedLast(crate::message::MessageToCheck),
    /// The generator went all the way around its space.
    WentAround,
}

/// One round of the generator thread's loop, while it has not been told to
/// stop: with room in the queue (`queue_len < queue_limit`) the generator
/// generates an address; a `Normal` one is handed on to be checked, and
/// ends the run when the generator walks an order (it is not the shuffled
/// one) and is at `last`; a `Looped` one ends the loop. Otherwise the
/// thread waits.
pub fn generate_step(generator: &mut IPGenerator, queue_len: usize, queue_limit: usize, last: u128) -> (step: GenerateStep)
    requires
        queue_len < queue_limit ==> old(generator).can_step(),
    ensures
        queue_len >= queue_limit ==> step is Wait && *final(generator) == *old(generator),
        queue_len < queue_limit ==> exists|msg: GeneratorMessage|
            #![trigger old(generator).stepped(*final(generator), msg)]
            old(generator).stepped(*final(generator), msg) && step == match msg {
                GeneratorMessage::Looped(_, _) => GenerateStep::WentAround,
                GeneratorMessage::Normal(co, nu) => if !((*final(generator)) is PoorMansIPGenerator)
                    && final(generator).last() == last {
                    GenerateStep::ReachedLast(crate::message::MessageToCheck::ToCheck(co, nu))
                } else {
                    GenerateStep::ToCheck(crate::message::MessageToCheck::ToCheck(co, nu))
                },
            },
        *old(generator) is PoorMansIPGenerator ==> !(step is ReachedLast),
{
    if queue_len >= queue_limit {
        return GenerateStep::Wait;
    }
    let ghost before = *generator;
    let msg = generator.gen_next();
    let step = match msg {
        GeneratorMessage::Normal(co, nu) => {
            let to_check = crate::message::MessageToCheck::ToCheck(co, nu);
            let walks_order = match generator {
                IPGenerator::PoorMansIPGenerator(_) => false,
                _ => true,
            };
            if walks_order && last == generator.get_las() {
                GenerateStep::ReachedLast(to_check)
            } else {
                GenerateStep::ToCheck(to_check)
            }
        },
        GeneratorMessage::Looped(_, _) => GenerateStep::WentAround,
    };
    assert(before.stepped(*generator, msg));
    step
}

} // verus!
