use vstd::prelude::*;

use crate::octets::{lemma_octet_shifts, pack_le};
use crate::rng::{chacha12_from_thread_rng, shuffle_deck, thread_rng};
use super::{GeneratorMessage, NumberGenerator};

verus! {

broadcast use vstd::seq_lib::group_to_multiset_ensures;

/// The octets 0 to 255 in order.
pub open spec fn all_octets() -> Seq<u8> {
    Seq::new(256, |i: int| i as u8)
}

/// A deck holds every octet exactly once, in some order.
pub open spec fn is_deck(d: Seq<u8>) -> bool {
    d.to_multiset() == all_octets().to_multiset()
}

/// The address a message carries.
pub open spec fn message_address(msg: GeneratorMessage) -> u32 {
    match msg {
        GeneratorMessage::Normal(_, n) => n,
        GeneratorMessage::Looped(_, n) => n,
    }
}

/// Which decks a call of `next` reshuffles, and where its cascade of
/// positions comes to rest.
pub struct Cascade {
    /// The positions in the four decks that the address is read from.
    pub pos: (int, int, int, int),
    /// How many times `next` runs, itself included.
    pub calls: nat,
    /// The first deck ran out, so the walk went all the way around.
    pub wrapped: bool,
    /// The decks that were reshuffled, first to fourth.
    pub shuffled: (bool, bool, bool, bool),
}

/// How many of the positions stand past the end of their deck, the later
/// decks weighing more.
pub open spec fn exhausted_rank(nx: int, ny: int, nz: int, nw: int) -> int {
    (if nx == 256 {
        1int
    } else {
        0
    }) + (if ny == 256 {
        2int
    } else {
        0
    }) + (if nz == 256 {
        4int
    } else {
        0
    }) + (if nw == 256 {
        8int
    } else {
        0
    })
}

/// The cascade of `next` from positions `(nx, ny, nz, nw)`: a position past
/// the end of its deck goes back to 0, its deck is reshuffled and the
/// position of the deck before it moves on, like the wheels of an odometer;
/// past the end of the first deck the walk wraps around.
pub open spec fn cascade(nx: int, ny: int, nz: int, nw: int) -> Cascade
    decreases exhausted_rank(nx, ny, nz, nw),
{
    if nx == 256 {
        let c = cascade(0, ny, nz, nw);
        Cascade {
            calls: c.calls + 1,
            wrapped: true,
            shuffled: (true, c.shuffled.1, c.shuffled.2, c.shuffled.3),
            ..c
        }
    } else if ny == 256 {
        let c = cascade(nx + 1, 0, nz, nw);
        Cascade { calls: c.calls + 1, shuffled: (c.shuffled.0, true, c.shuffled.2, c.shuffled.3), ..c }
    } else if nz == 256 {
        let c = cascade(nx, ny + 1, 0, nw);
        Cascade { calls: c.calls + 1, shuffled: (c.shuffled.0, c.shuffled.1, true, c.shuffled.3), ..c }
    } else if nw == 256 {
        let c = cascade(nx, ny, nz + 1, 0);
        Cascade { calls: c.calls + 1, shuffled: (c.shuffled.0, c.shuffled.1, c.shuffled.2, true), ..c }
    } else {
        Cascade {
            pos: (nx, ny, nz, nw),
            calls: 1,
            wrapped: false,
            shuffled: (false, false, false, false),
        }
    }
}

/// The carry of the odometer reaches past the first deck: it has run out,
/// or it is at its last octet and the carry reaches it.
pub open spec fn carries_around(nx: int, ny: int, nz: int, nw: int) -> bool {
    ||| nx == 256
    ||| nx == 255 && (ny == 256 || (ny == 255 && (nz == 256 || (nz == 255 && nw == 256))))
}

/// A deck holds 256 octets.
pub proof fn lemma_deck_len(d: Seq<u8>)
    requires
        is_deck(d),
    ensures
        d.len() == 256,
{
    d.to_multiset_ensures();
    all_octets().to_multiset_ensures();
}

/// From positions within their decks, the cascade comes to rest within
/// the decks, and it wraps only when the first deck has run out or is about
/// to with nothing left in the decks after it.
pub proof fn lemma_cascade_bounds(nx: int, ny: int, nz: int, nw: int)
    requires
        0 <= nx <= 256,
        0 <= ny <= 256,
        0 <= nz <= 256,
        0 <= nw <= 256,
    ensures
        0 <= cascade(nx, ny, nz, nw).pos.0 < 256,
        0 <= cascade(nx, ny, nz, nw).pos.1 < 256,
        0 <= cascade(nx, ny, nz, nw).pos.2 < 256,
        0 <= cascade(nx, ny, nz, nw).pos.3 < 256,
        1 <= cascade(nx, ny, nz, nw).calls,
        cascade(nx, ny, nz, nw).wrapped == carries_around(nx, ny, nz, nw),
    decreases exhausted_rank(nx, ny, nz, nw),
{
    if nx == 256 {
        lemma_cascade_bounds(0, ny, nz, nw);
    } else if ny == 256 {
        lemma_cascade_bounds(nx + 1, 0, nz, nw);
    } else if nz == 256 {
        lemma_cascade_bounds(nx, ny + 1, 0, nw);
    } else if nw == 256 {
        lemma_cascade_bounds(nx, ny, nz + 1, 0);
    }
}

/// A deck is reshuffled (`shuffled`) or left alone.
pub open spec fn deck_after(shuffled: bool, before: Seq<u8>, after: Seq<u8>) -> bool {
    if shuffled {
        after.to_multiset() == before.to_multiset()
    } else {
        after == before
    }
}

/// Walks the address space by four shuffled decks of octets, one per
/// octet of the address: the last deck is dealt fastest, and a deck that
/// runs out is reshuffled.
#[derive(Debug, Clone)]
pub struct PoorMans {
    pub xs: Vec<u8>,
    pub ys: Vec<u8>,
    pub zs: Vec<u8>,
    pub ws: Vec<u8>,
    pub nx: usize,
    pub ny: usize,
    pub nz: usize,
    pub nw: usize,
    pub cn: u32,
    pub rng: rand_chacha::ChaCha12Rng,
    pub las: u32,
}

/// A fresh deck, shuffled.
fn shuffled_deck(rng: &mut rand_chacha::ChaCha12Rng) -> (d: Vec<u8>)
    ensures
        is_deck(d@),
{
    let mut d: Vec<u8> = Vec::new();
    let mut i: u16 = 0;
    while i <= 255
        invariant
            i <= 256,
            d@ == all_octets().take(i as int),
        decreases 256 - i,
    {
        d.push(i as u8);
        i = i + 1;
        assert(d@ =~= all_octets().take(i as int));
    }
    assert(d@ =~= all_octets());
    shuffle_deck(&mut d, rng);
    d
}

impl PoorMans {
    /// Every deck holds each octet once and every position is within its
    /// deck or just past its end.
    pub open spec fn wf(&self) -> bool {
        &&& is_deck(self.xs@)
        &&& is_deck(self.ys@)
        &&& is_deck(self.zs@)
        &&& is_deck(self.ws@)
        &&& self.nx <= 256
        &&& self.ny <= 256
        &&& self.nz <= 256
        &&& self.nw <= 256
    }

    /// The cascade of the next call of `next`.
    pub open spec fn cascade(&self) -> Cascade {
        cascade(self.nx as int, self.ny as int, self.nz as int, self.nw as int)
    }

    /// `next` returns from this state: the counter does not overflow.
    pub open spec fn can_step(&self) -> bool {
        self.wf() && self.cn + self.cascade().calls <= u32::MAX
    }

    /// `after` and `msg` are a dealing from `self`, whatever the counter
    /// does: the positions come to rest where the cascade says, with the last
    /// one moved past the dealt octet; the decks the cascade names are
    /// reshuffled and the others kept; the address is made of the four dealt
    /// octets, the first one least significant; the message carries it and is
    /// `Looped` when the walk wrapped around.
    pub open spec fn deals(&self, after: Self, msg: GeneratorMessage) -> bool {
        let c = self.cascade();
        &&& after.wf()
        &&& after.nx == c.pos.0 && after.ny == c.pos.1 && after.nz == c.pos.2
        &&& after.nw == c.pos.3 + 1
        &&& deck_after(c.shuffled.0, self.xs@, after.xs@)
        &&& deck_after(c.shuffled.1, self.ys@, after.ys@)
        &&& deck_after(c.shuffled.2, self.zs@, after.zs@)
        &&& deck_after(c.shuffled.3, self.ws@, after.ws@)
        &&& after.las == pack_le(
            after.xs@[c.pos.0],
            after.ys@[c.pos.1],
            after.zs@[c.pos.2],
            after.ws@[c.pos.3],
        )
        &&& (msg is Looped) == c.wrapped
        &&& message_address(msg) == after.las
    }

    /// `after` and `msg` are what `next` may give from `self`: a dealing,
    /// with the counter moved on once per call and carried by the message.
    pub open spec fn stepped(&self, after: Self, msg: GeneratorMessage) -> bool {
        let c = self.cascade();
        &&& self.deals(after, msg)
        &&& after.cn == self.cn + c.calls
        &&& msg == if c.wrapped {
            GeneratorMessage::Looped(after.cn as u128, after.las)
        } else {
            GeneratorMessage::Normal(after.cn as u128, after.las)
        }
    }
}

impl Default for PoorMans {
    /// Four freshly shuffled decks, from a generator seeded by the system,
    /// with every position at the start and address 0 as the last one.
    fn default() -> (new: Self)
        ensures
            new.wf(),
            new.nx == 0 && new.ny == 0 && new.nz == 0 && new.nw == 0,
            new.cn == 0,
            new.las == 0,
    {
        let mut rng = match chacha12_from_thread_rng(thread_rng()) {
            Ok(rng) => rng,
            Err(_) => unreached(),
        };
        let xs = shuffled_deck(&mut rng);
        let ys = shuffled_deck(&mut rng);
        let zs = shuffled_deck(&mut rng);
        let ws = shuffled_deck(&mut rng);
        let new: Self = Self {
            xs,
            nx: 0,
            ys,
            ny: 0,
            zs,
            nz: 0,
            ws,
            nw: 0,
            rng,
            las: 0,
            cn: 0,
        };
        return new;
    }
}

impl NumberGenerator for PoorMans {
    /// Skipping is not implemented for this generator: no state admits it.
    open spec fn skip_requires(&self, skip: u32) -> bool {
        false
    }

    open spec fn skip_ensures(&self, skip: u32, after: Self) -> bool {
        true
    }

    open spec fn next_requires(&self) -> bool {
        self.can_step()
    }

    open spec fn next_ensures(&self, after: Self, msg: GeneratorMessage) -> bool {
        self.stepped(after, msg)
    }

    fn skip(&mut self, skip: u32) {
    }

    fn next(&mut self) -> (msg: GeneratorMessage)
        decreases exhausted_rank(
            old(self).nx as int,
            old(self).ny as int,
            old(self).nz as int,
            old(self).nw as int,
        ),
    {
        proof {
            lemma_cascade_bounds(self.nx as int, self.ny as int, self.nz as int, self.nw as int);
            lemma_deck_len(self.xs@);
            lemma_deck_len(self.ys@);
            lemma_deck_len(self.zs@);
            lemma_deck_len(self.ws@);
        }
        self.cn += 1;
        if self.nx < self.xs.len() {
            if self.ny < self.ys.len() {
                if self.nz < self.zs.len() {
                    if self.nw < self.ws.len() {
                        let x = self.xs[self.nx];
                        let y = self.ys[self.ny];
                        let z = self.zs[self.nz];
                        let w = self.ws[self.nw];
                        self.nw += 1;
                        proof {
                            lemma_octet_shifts(x as u32, y as u32, z as u32, w as u32);
                        }
                        self.las = ((x as u32) << 0) + ((y as u32) << 8) + ((z as u32) << 16) + ((
                        w as u32) << 24);
                        return GeneratorMessage::Normal(self.cn as u128, self.las);
                    } else {
                        self.nw = 0;
                        self.nz += 1;
                        shuffle_deck(&mut self.ws, &mut self.rng);
                        return self.next();
                    }
                } else {
                    self.nz = 0;
                    self.ny += 1;
                    shuffle_deck(&mut self.zs, &mut self.rng);
                    return self.next();
                }
            } else {
                self.ny = 0;
                self.nx += 1;
                shuffle_deck(&mut self.ys, &mut self.rng);
                return self.next();
            }
        } else {
            self.nx = 0;
            shuffle_deck(&mut self.xs, &mut self.rng);
            proof {
                lemma_cascade_bounds(0, self.ny as int, self.nz as int, self.nw as int);
            }
            return match self.next() {
                GeneratorMessage::Normal(c, n) => GeneratorMessage::Looped(c, n),
                GeneratorMessage::Looped(_, _) => unreached(),
            };
        }
    }
}

/// The number of the position tuple last dealt from, the first deck's
/// position most significant: positions are dealt like the readings of an
/// odometer.
pub open spec fn dealt_index(g: PoorMans) -> int {
    g.nx * 0x100_0000 + g.ny * 0x1_0000 + g.nz * 0x100 + (g.nw - 1)
}

/// Each call of `next` deals from the position tuple that follows the one
/// dealt last, counting through all 2^32 tuples before it starts over; the
/// message is `Looped` exactly when it starts over. So one pass deals every
/// tuple of positions once. This holds of every dealing, whatever the
/// counter does.
pub proof fn law_odometer(g: PoorMans, h: PoorMans, msg: GeneratorMessage)
    requires
        g.wf(),
        g.deals(h, msg),
        g.nx < 256,
        g.ny < 256,
        g.nz < 256,
        1 <= g.nw <= 256,
    ensures
        h.nx < 256 && h.ny < 256 && h.nz < 256 && 1 <= h.nw <= 256,
        dealt_index(h) == (dealt_index(g) + 1) % 0x1_0000_0000,
        (msg is Looped) == (dealt_index(g) == 0xFFFF_FFFF),
{
    reveal_with_fuel(cascade, 6);
    lemma_cascade_bounds(g.nx as int, g.ny as int, g.nz as int, g.nw as int);
}

/// A dealing from a state whose decks each hold every octet once and whose
/// positions are within their decks (the last one possibly just past its
/// end) leaves a state of the same kind, with the last position past a
/// dealt octet: the decks stay permutations whatever the counter does, and
/// the carry around the first deck happens at most once per call.
pub proof fn law_dealing_keeps_decks(g: PoorMans, h: PoorMans, msg: GeneratorMessage)
    requires
        g.wf(),
        g.nx <= 255,
        g.ny <= 255,
        g.nz <= 255,
        g.deals(h, msg),
    ensures
        h.wf(),
        h.nx <= 255 && h.ny <= 255 && h.nz <= 255,
        1 <= h.nw <= 256,
        !cascade(0, g.ny as int, g.nz as int, g.nw as int).wrapped,
{
    lemma_cascade_bounds(g.nx as int, g.ny as int, g.nz as int, g.nw as int);
    lemma_cascade_bounds(0, g.ny as int, g.nz as int, g.nw as int);
}

} // verus!
