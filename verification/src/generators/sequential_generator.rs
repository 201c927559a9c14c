use vstd::prelude::*;

use crate::octets::{
    law_pack_le_reverses, lemma_octet_shifts, lemma_octets_by_shifts, octets_of, pack_le, swap_bytes,
};
use super::{GeneratorDirection, GeneratorMessage, NumberGenerator, ZippableNumberGenerator};

verus! {

/// `x + y`, wrapped to 32 bits.
pub open spec fn add32(x: int, y: int) -> u32 {
    ((x + y) % 0x1_0000_0000) as u32
}

/// The address after `v` in direction `dir`, wrapping around the space.
pub open spec fn step_las(dir: GeneratorDirection, v: u32) -> u32 {
    match dir {
        GeneratorDirection::Backward => add32(v as int, -1),
        _ => add32(v as int, 1),
    }
}

/// The step after `v` in direction `dir` wraps around the space.
pub open spec fn step_wraps(dir: GeneratorDirection, v: u32) -> bool {
    match dir {
        GeneratorDirection::Backward => v == 0,
        _ => v == u32::MAX,
    }
}

/// Walks the address space one address at a time, forward or backward,
/// keeping the four octets of the last address beside it.
#[derive(Debug, Clone)]
pub struct SequentialGenerator {
    pub dir: GeneratorDirection,
    pub cn: u32,
    pub las: u32,
    pub xn: u8,
    pub yn: u8,
    pub zn: u8,
    pub wn: u8,
}

impl SequentialGenerator {
    /// The generator walks forward or backward (a random walk is not
    /// implemented for it).
    pub open spec fn wf(&self) -> bool {
        self.dir != GeneratorDirection::Random
    }

    /// The octets kept beside the last address.
    pub open spec fn octets(&self) -> (u8, u8, u8, u8) {
        (self.xn, self.yn, self.zn, self.wn)
    }

    /// The kept octets are those of the last address.
    pub open spec fn synced(&self) -> bool {
        self.octets() == octets_of(self.las)
    }

    /// The state `next` leaves behind.
    pub open spec fn next_state(&self) -> SequentialGenerator {
        let las = step_las(self.dir, self.las);
        let (xn, yn, zn, wn) = octets_of(las);
        SequentialGenerator { cn: add32(self.cn as int, 1), las, xn, yn, zn, wn, ..*self }
    }

    /// The message `next` returns.
    pub open spec fn next_message(&self) -> GeneratorMessage {
        let s = self.next_state();
        if step_wraps(self.dir, self.las) {
            GeneratorMessage::Looped(s.cn as u128, s.las)
        } else {
            GeneratorMessage::Normal(s.cn as u128, s.las)
        }
    }

    /// The state `skip(skip)` leaves behind: the counter moves on by `skip`
    /// and the last address is rebuilt from the kept octets, taken as its
    /// bytes from the least significant up.
    pub open spec fn skip_state(&self, skip: u32) -> SequentialGenerator {
        SequentialGenerator {
            cn: add32(self.cn as int, skip as int),
            las: pack_le(self.xn, self.yn, self.zn, self.wn),
            ..*self
        }
    }

    /// The state `zip(zip)` leaves behind: `zip` becomes the last address.
    pub open spec fn zip_state(&self, zip: u32) -> SequentialGenerator {
        let (xn, yn, zn, wn) = octets_of(zip);
        SequentialGenerator { las: zip, xn, yn, zn, wn, ..*self }
    }

    /// A generator that walks in `direction`, starting after `start`, or
    /// after the first address of its walk (0 forward, 255 backward) when
    /// no start is given. All four octets start at 0 forward, 255 backward.
    pub fn new(start: Option<u32>, direction: GeneratorDirection) -> (new: Self)
        requires
            direction != GeneratorDirection::Random,
        ensures
            new.wf(),
            new.dir == direction,
            new.cn == 0,
            new.las == match start {
                Some(s) => s,
                None => if direction == GeneratorDirection::Backward {
                    255u32
                } else {
                    0u32
                },
            },
            new.octets() == if direction == GeneratorDirection::Backward {
                (255u8, 255u8, 255u8, 255u8)
            } else {
                (0u8, 0u8, 0u8, 0u8)
            },
    {
        let (init, mut las): (u8, u32) = match direction {
            GeneratorDirection::Backward => (255u8, 255u32),
            GeneratorDirection::Forward => (0u8, 0u32),
            GeneratorDirection::Random => unreached(),
        };
        if let Some(s) = start {
            las = s;
        }
        return Self { dir: direction, las, xn: init, yn: init, zn: init, wn: init, cn: 0 };
    }

    /// Rebuilds the last address from the kept octets, least significant
    /// byte first.
    fn reg_from_n(&mut self)
        ensures
            *final(self) == (SequentialGenerator {
                las: pack_le(old(self).xn, old(self).yn, old(self).zn, old(self).wn),
                ..*old(self)
            }),
    {
        proof {
            lemma_octet_shifts(self.xn as u32, self.yn as u32, self.zn as u32, self.wn as u32);
        }
        self.las = ((self.xn as u32) << 0) + ((self.yn as u32) << 8) + ((self.zn as u32) << 16)
            + ((self.wn as u32) << 24);
    }

    /// Sets the kept octets to those of the last address, most significant
    /// first.
    fn reg_from_las(&mut self)
        ensures
            *final(self) == (SequentialGenerator {
                xn: octets_of(old(self).las).0,
                yn: octets_of(old(self).las).1,
                zn: octets_of(old(self).las).2,
                wn: octets_of(old(self).las).3,
                ..*old(self)
            }),
    {
        proof {
            lemma_octets_by_shifts(self.las);
        }
        self.xn = (self.las >> (24 - (8 * 0)) & 0xFF) as u8;
        self.yn = (self.las >> (24 - (8 * 1)) & 0xFF) as u8;
        self.zn = (self.las >> (24 - (8 * 2)) & 0xFF) as u8;
        self.wn = (self.las >> (24 - (8 * 3)) & 0xFF) as u8;
    }
}

impl Default for SequentialGenerator {
    /// A forward walk from address 0.
    fn default() -> (new: Self)
        ensures
            new == (SequentialGenerator {
                dir: GeneratorDirection::Forward,
                cn: 0,
                las: 0,
                xn: 0,
                yn: 0,
                zn: 0,
                wn: 0,
            }),
    {
        Self::new(Some(0), GeneratorDirection::Forward)
    }
}

impl ZippableNumberGenerator for SequentialGenerator {
    open spec fn zip_requires(&self, zip: u32) -> bool {
        true
    }

    open spec fn zip_ensures(&self, zip: u32, after: Self, r: Result<u32, Seq<char>>) -> bool {
        after == self.zip_state(zip) && r == Ok::<u32, Seq<char>>(zip)
    }

    fn zip(&mut self, zip: u32) -> (r: Result<u32, &str>) {
        self.las = zip;
        self.reg_from_las();
        return Ok(zip);
    }
}

impl NumberGenerator for SequentialGenerator {
    open spec fn skip_requires(&self, skip: u32) -> bool {
        self.wf()
    }

    open spec fn skip_ensures(&self, skip: u32, after: Self) -> bool {
        after == self.skip_state(skip)
    }

    open spec fn next_requires(&self) -> bool {
        self.wf()
    }

    open spec fn next_ensures(&self, after: Self, msg: GeneratorMessage) -> bool {
        after == self.next_state() && msg == self.next_message()
    }

    fn skip(&mut self, skip: u32) {
        self.cn = self.cn.wrapping_add(skip);
        self.las = match self.dir {
            GeneratorDirection::Backward => self.las.wrapping_add(skip),
            GeneratorDirection::Forward => self.las.wrapping_add(skip),
            GeneratorDirection::Random => unreached(),
        };
        self.reg_from_n();
    }

    #[verifier::spinoff_prover]
    fn next(&mut self) -> (msg: GeneratorMessage) {
        let looped: bool;
        self.cn = self.cn.wrapping_add(1);
        match self.dir {
            GeneratorDirection::Forward => {
                looped = self.las == u32::MAX;
                self.las = self.las.wrapping_add(1);
            },
            GeneratorDirection::Backward => {
                looped = self.las == 0;
                self.las = self.las.wrapping_sub(1);
            },
            GeneratorDirection::Random => {
                looped = unreached();
            },
        }
        self.reg_from_las();
        match looped {
            true => {
                return GeneratorMessage::Looped(self.cn as u128, self.las);
            },
            false => {
                return GeneratorMessage::Normal(self.cn as u128, self.las);
            },
        };
    }
}

/// `n` calls of `next` from `g`.
pub open spec fn walk(g: SequentialGenerator, n: nat) -> SequentialGenerator
    decreases n,
{
    if n == 0 {
        g
    } else {
        walk(g, (n - 1) as nat).next_state()
    }
}

/// Wrapped additions add up.
pub proof fn lemma_add32_add(x: int, y: int, z: int)
    ensures
        add32(add32(x, y) as int, z) == add32(x, y + z),
{
    vstd::arithmetic::div_mod::lemma_add_mod_noop_right(z, x + y, 0x1_0000_0000);
}

/// A step forward and a step backward undo each other.
pub proof fn law_steps_undo(v: u32)
    ensures
        step_las(GeneratorDirection::Backward, step_las(GeneratorDirection::Forward, v)) == v,
        step_las(GeneratorDirection::Forward, step_las(GeneratorDirection::Backward, v)) == v,
{
}

/// After `next`, and after `zip`, the kept octets are those of the last
/// address.
pub proof fn law_next_and_zip_sync(g: SequentialGenerator, zip: u32)
    ensures
        g.next_state().synced(),
        g.zip_state(zip).synced(),
        g.zip_state(zip).las == zip,
{
}

/// `n` calls of `next` move the last address `n` places in the direction
/// of the walk and the counter `n` places on, both wrapping around: in
/// 2^32 calls the walk meets every address exactly once.
pub proof fn law_walk(g: SequentialGenerator, n: nat)
    requires
        g.wf(),
    ensures
        walk(g, n).dir == g.dir,
        walk(g, n).cn == add32(g.cn as int, n as int),
        walk(g, n).las == if g.dir == GeneratorDirection::Backward {
            add32(g.las as int, -n)
        } else {
            add32(g.las as int, n as int)
        },
    decreases n,
{
    if n > 0 {
        law_walk(g, (n - 1) as nat);
        lemma_add32_add(g.cn as int, n - 1, 1);
        if g.dir == GeneratorDirection::Backward {
            lemma_add32_add(g.las as int, -(n - 1), -1);
        } else {
            lemma_add32_add(g.las as int, n - 1, 1);
        }
    }
}

/// Two calls of `next` less than 2^32 apart give different addresses.
pub proof fn law_walk_distinct(g: SequentialGenerator, i: nat, j: nat)
    requires
        g.wf(),
        i < j < 0x1_0000_0000,
    ensures
        walk(g, i).las != walk(g, j).las,
{
    law_walk(g, i);
    law_walk(g, j);
    if g.dir == GeneratorDirection::Backward {
        lemma_wrapped_distinct(g.las - j, j - i);
    } else {
        lemma_wrapped_distinct(g.las + i, j - i);
    }
}

/// Two numbers less than 2^32 apart, and not equal, differ modulo 2^32.
proof fn lemma_wrapped_distinct(a: int, d: int)
    requires
        0 < d < 0x1_0000_0000,
    ensures
        a % 0x1_0000_0000 != (a + d) % 0x1_0000_0000,
{
    let m: int = 0x1_0000_0000;
    vstd::arithmetic::div_mod::lemma_fundamental_div_mod(a, m);
    vstd::arithmetic::div_mod::lemma_fundamental_div_mod(a + d, m);
    if a % m == (a + d) % m {
        assert(m * ((a + d) / m) - m * (a / m) == d);
        vstd::arithmetic::mul::lemma_mul_is_distributive_sub(m, (a + d) / m, a / m);
        if (a + d) / m - a / m >= 1 {
            vstd::arithmetic::mul::lemma_mul_inequality(1, (a + d) / m - a / m, m);
        } else {
            vstd::arithmetic::mul::lemma_mul_inequality((a + d) / m - a / m, 0, m);
        }
    }
}

/// From a state whose kept octets are those of its last address, `skip`
/// turns the last address into its byte reversal.
pub proof fn law_skip_after_sync(g: SequentialGenerator, skip: u32)
    requires
        g.synced(),
    ensures
        g.skip_state(skip).las == swap_bytes(g.las),
{
    law_pack_le_reverses(g.las);
}

/// After `zip(zip)`, the walk goes on from `zip`: the next address is the
/// one after `zip` in the direction of the walk.
pub proof fn law_zip_then_next(g: SequentialGenerator, zip: u32)
    ensures
        g.zip_state(zip).next_state().las == step_las(g.dir, zip),
        g.zip_state(zip).next_state().cn == add32(g.cn as int, 1),
{
}

/// The number of calls after which a walk from `g` steps across the end of
/// the space: from `u32::MAX` to 0 forward, from 0 to `u32::MAX` backward.
pub open spec fn wrap_step(g: SequentialGenerator) -> nat {
    if g.dir == GeneratorDirection::Backward {
        g.las as nat
    } else {
        (u32::MAX - g.las) as nat
    }
}

/// `v` is `q` times 2^32 plus `r`, with `r` in range, so it leaves `r`.
proof fn lemma_mod32(v: int, q: int, r: int)
    requires
        0 <= r < 0x1_0000_0000,
        v == q * 0x1_0000_0000 + r,
    ensures
        v % 0x1_0000_0000 == r,
{
    vstd::arithmetic::div_mod::lemma_fundamental_div_mod_converse(v, 0x1_0000_0000, q, r);
}

/// A walk goes around the space in 2^32 calls of `next`: afterwards it is
/// back at the address (and counter) it started from, and exactly one of
/// the calls, the one after `wrap_step(g)` calls, returns `Looped`.
pub proof fn law_full_circle(g: SequentialGenerator, n: nat)
    requires
        g.wf(),
        n < 0x1_0000_0000,
    ensures
        walk(g, 0x1_0000_0000).las == g.las,
        walk(g, 0x1_0000_0000).cn == g.cn,
        (walk(g, n).next_message() is Looped) == (n == wrap_step(g)),
{
    law_walk(g, 0x1_0000_0000);
    law_walk(g, n);
    let t: int = 0x1_0000_0000;
    lemma_mod32(g.cn + t, 1, g.cn as int);
    if g.dir == GeneratorDirection::Backward {
        lemma_mod32(g.las - t, -1, g.las as int);
        if g.las - n >= 0 {
            lemma_mod32(g.las - n, 0, g.las - n);
        } else {
            lemma_mod32(g.las - n, -1, g.las - n + t);
        }
    } else {
        lemma_mod32(g.las + t, 1, g.las as int);
        if g.las + n < t {
            lemma_mod32(g.las + n, 0, g.las + n);
        } else {
            lemma_mod32(g.las + n, 1, g.las + n - t);
        }
    }
}

} // verus!
