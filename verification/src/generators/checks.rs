use vstd::prelude::*;

use super::generator::{can_prepare, skip_parts};
use super::lcgipgenerator::{in_default_window, lemma_advanced_step, lemma_hits_at_most};
use super::poor_mans_ip_generator::{
    all_octets, cascade, exhausted_rank, is_deck, lemma_cascade_bounds, lemma_deck_len, PoorMans,
};
use super::poor_mans_pass::{lemma_all_octets_distinct, lemma_deck_distinct};
use super::{default_recurrence, IPGenerator, NumberGenerator, A_PRIMA, C_PRIMA, M_PRIMA, LCG};

verus! {

broadcast use vstd::seq_lib::group_to_multiset_ensures;

/// 256 different octets are all the octets, once each.
proof fn lemma_distinct_octets_deck(d: Seq<u8>)
    requires
        d.len() == 256,
        d.no_duplicates(),
    ensures
        is_deck(d),
{
    let f = |i: int| d[i] as int;
    let xs = vstd::set_lib::set_int_range(0, 256);
    vstd::set_lib::lemma_int_range(0, 256);
    vstd::set_lib::lemma_map_size(xs, xs.map(f), f);
    assert forall|v: int| xs.map(f).contains(v) implies xs.contains(v) by {
        let i = choose|i: int| xs.contains(i) && f(i) == v;
    }
    vstd::set_lib::lemma_subset_equality(xs.map(f), xs);
    d.lemma_multiset_has_no_duplicates();
    lemma_all_octets_distinct();
    all_octets().lemma_multiset_has_no_duplicates();
    assert forall|v: u8| #[trigger] d.to_multiset().count(v) == all_octets().to_multiset().count(
        v,
    ) by {
        assert(xs.contains(v as int));
        assert(xs.map(f).contains(v as int));
        let i = choose|i: int| xs.contains(i) && f(i) == v as int;
        assert(d[i] == v);
        assert(d.contains(v));
        assert(all_octets()[v as int] == v);
        assert(all_octets().contains(v));
    }
    assert(d.to_multiset() =~= all_octets().to_multiset());
}

/// Whether a deck holds every octet exactly once.
pub fn is_deck_exec(d: &Vec<u8>) -> (r: bool)
    ensures
        r == is_deck(d@),
{
    if d.len() != 256 {
        proof {
            if is_deck(d@) {
                lemma_deck_len(d@);
            }
        }
        return false;
    }
    let mut seen: Vec<bool> = Vec::new();
    let mut w: usize = 0;
    while w < 256
        invariant
            w <= 256,
            seen.len() == w,
            forall|k: int| 0 <= k < w ==> !seen@[k],
        decreases 256 - w,
    {
        seen.push(false);
        w = w + 1;
    }
    let mut i: usize = 0;
    while i < 256
        invariant
            d.len() == 256,
            seen.len() == 256,
            i <= 256,
            forall|j: int| 0 <= j < i ==> seen@[#[trigger] d@[j] as int],
            forall|v: int| 0 <= v < 256 && #[trigger] seen@[v] ==> exists|j: int| 0 <= j < i && d@[j] == v,
            forall|j: int, k: int| 0 <= j < k < i ==> d@[j] != d@[k],
        decreases 256 - i,
    {
        let v = d[i];
        if seen[v as usize] {
            proof {
                let j = choose|j: int| 0 <= j < i && d@[j] == v;
                if is_deck(d@) {
                    lemma_deck_distinct(d@);
                }
            }
            return false;
        }
        seen.set(v as usize, true);
        i = i + 1;
    }
    proof {
        lemma_distinct_octets_deck(d@);
    }
    true
}

impl PoorMans {
    /// Whether every deck holds each octet once and every position is
    /// within its deck or just past its end.
    pub fn is_wf(&self) -> (r: bool)
        ensures
            r == self.wf(),
    {
        is_deck_exec(&self.xs) && is_deck_exec(&self.ys) && is_deck_exec(&self.zs) && is_deck_exec(
            &self.ws,
        ) && self.nx <= 256 && self.ny <= 256 && self.nz <= 256 && self.nw <= 256
    }

    /// Whether `next` returns from this state: the decks and positions are
    /// well formed and the counter has room for every call of the cascade.
    pub fn can_step_now(&self) -> (r: bool)
        ensures
            r == self.can_step(),
    {
        if !self.is_wf() {
            return false;
        }
        let calls = cascade_calls(self.nx, self.ny, self.nz, self.nw);
        (calls as u64) + (self.cn as u64) <= u32::MAX as u64
    }
}

/// How many times `next` runs from positions `(nx, ny, nz, nw)`.
fn cascade_calls(nx: usize, ny: usize, nz: usize, nw: usize) -> (r: u32)
    requires
        nx <= 256,
        ny <= 256,
        nz <= 256,
        nw <= 256,
    ensures
        r == cascade(nx as int, ny as int, nz as int, nw as int).calls,
    decreases exhausted_rank(nx as int, ny as int, nz as int, nw as int),
{
    proof {
        lemma_cascade_bounds(nx as int, ny as int, nz as int, nw as int);
    }
    if nx == 256 {
        let c = cascade_calls(0, ny, nz, nw);
        proof {
            lemma_calls_small(0, ny as int, nz as int, nw as int);
        }
        c + 1
    } else if ny == 256 {
        let c = cascade_calls(nx + 1, 0, nz, nw);
        proof {
            lemma_calls_small(nx + 1, 0, nz as int, nw as int);
        }
        c + 1
    } else if nz == 256 {
        let c = cascade_calls(nx, ny + 1, 0, nw);
        proof {
            lemma_calls_small(nx as int, ny + 1, 0, nw as int);
        }
        c + 1
    } else if nw == 256 {
        let c = cascade_calls(nx, ny, nz + 1, 0);
        proof {
            lemma_calls_small(nx as int, ny as int, nz + 1, 0);
        }
        c + 1
    } else {
        1
    }
}

/// The cascade runs `next` at most 16 times.
proof fn lemma_calls_small(nx: int, ny: int, nz: int, nw: int)
    requires
        0 <= nx <= 256,
        0 <= ny <= 256,
        0 <= nz <= 256,
        0 <= nw <= 256,
    ensures
        cascade(nx, ny, nz, nw).calls <= 1 + exhausted_rank(nx, ny, nz, nw),
        exhausted_rank(nx, ny, nz, nw) <= 15,
    decreases exhausted_rank(nx, ny, nz, nw),
{
    if nx == 256 {
        lemma_calls_small(0, ny, nz, nw);
        assert(cascade(nx, ny, nz, nw).calls == cascade(0, ny, nz, nw).calls + 1);
    } else if ny == 256 {
        lemma_calls_small(nx + 1, 0, nz, nw);
        assert(cascade(nx, ny, nz, nw).calls == cascade(nx + 1, 0, nz, nw).calls + 1);
    } else if nz == 256 {
        lemma_calls_small(nx, ny + 1, 0, nw);
        assert(cascade(nx, ny, nz, nw).calls == cascade(nx, ny + 1, 0, nw).calls + 1);
    } else if nw == 256 {
        lemma_calls_small(nx, ny, nz + 1, 0);
        assert(cascade(nx, ny, nz, nw).calls == cascade(nx, ny, nz + 1, 0).calls + 1);
    }
}

impl LCG {
    /// Whether `next` returns, decided when the generator's recurrence
    /// gives an address at every raw step (`m > 0` and `m - 1 + c % m`
    /// within `u32`, as the recurrence a run starts with does): then the
    /// next address is one raw step away and only the loop counter can
    /// stop the call. A generator with another recurrence may return too,
    /// which this does not decide: it answers `false` there.
    pub fn steps_directly(&self) -> (r: bool)
        ensures
            r ==> self.can_step(),
            r ==> self.recurrence().steps_to_addresses(),
            self.recurrence().steps_to_addresses() ==> r == self.can_step(),
    {
        if self.m == 0 || self.m - 1 > u32::MAX as u128 {
            return false;
        }
        let cm = self.c % self.m;
        if self.m - 1 + cm > u32::MAX as u128 {
            return false;
        }
        proof {
            self.recurrence().lemma_lands_in_one_step(self.x as int);
            assert((self.a % self.m) * (self.x % self.m) <= (self.m - 1) * (self.m - 1)) by (nonlinear_arith)
                requires
                    0 <= self.a % self.m < self.m,
                    0 <= self.x % self.m < self.m,
            ;
            assert((self.m - 1) * (self.m - 1) <= u32::MAX * u32::MAX) by (nonlinear_arith)
                requires
                    0 <= self.m - 1 <= u32::MAX,
            ;
        }
        let v = ((self.a % self.m) * (self.x % self.m)) % self.m + cm;
        v != self.f || self.l < u128::MAX
    }

    /// The loop counter has room for every run that a checkpointed skip
    /// and zip can ask for (fewer than 2^34 calls of `next`): the loop
    /// marker lies outside the values the recurrence a run starts with
    /// gives, or the counter is at least 2^34 below `u128::MAX`.
    pub open spec fn counter_has_room(&self) -> bool {
        !in_default_window(self.f as int) || self.l <= u128::MAX - 0x4_0000_0000
    }

    /// Whether the generator runs the recurrence a run starts with and its
    /// loop counter has room, so that every skip and every zip returns.
    pub fn runs_default_recurrence(&self) -> (r: bool)
        ensures
            r == (self.recurrence() == default_recurrence() && self.counter_has_room()),
    {
        self.a == A_PRIMA && self.c == C_PRIMA && self.m == M_PRIMA && (self.f < 5 || self.f
            > u32::MAX as u128 || self.l <= u128::MAX - 0x4_0000_0000)
    }
}

/// Under the recurrence a run starts with, any number of steps can be
/// taken while the loop counter has room: it grows by at most one a step,
/// and not at all with a loop marker outside the window.
proof fn lemma_default_can_advance(g: LCG, n: nat)
    requires
        g.recurrence() == default_recurrence(),
        !in_default_window(g.f as int) || g.l + n <= u128::MAX,
    ensures
        g.can_advance(n),
        g.advanced_state(n).recurrence() == default_recurrence(),
        g.advanced_state(n).f == g.f,
        g.advanced_state(n).l <= g.l + n,
        !in_default_window(g.f as int) ==> g.advanced_state(n).l == g.l,
{
    super::lcgipgenerator::law_default_recurrence_steps(g.x as int, n);
    if !in_default_window(g.f as int) {
        super::lcgipgenerator::lemma_default_hits_zero(g.x as int, g.f as int, n);
    } else {
        lemma_hits_at_most(default_recurrence(), g.x as int, g.f as int, n);
    }
}

/// The recurrence a run starts with gives an address at every raw step.
proof fn lemma_default_direct()
    ensures
        default_recurrence().steps_to_addresses(),
{
}

/// A generator that can take `i` steps, and whose state after them can
/// take one more, can take `i + 1`; that step leads to the state after
/// `i + 1`.
proof fn lemma_step_extends(g: LCG, i: nat)
    requires
        g.can_advance(i),
        g.advanced_state(i).can_step(),
    ensures
        g.can_advance(i + 1),
        g.advanced_state(i).next_state() == g.advanced_state(i + 1),
{
    let r = g.recurrence();
    let x = g.x as int;
    r.lemma_advance_range(x, i);
    let h = g.advanced_state(i);
    assert(h.x as int == r.advance(x, i));
    assert(h.recurrence() == r);
    assert(r.can_advance(x, i + 1));
    r.lemma_advance_range(x, i + 1);
}

/// A generator that cannot take its `i + 1`-th step cannot take `n > i`
/// steps.
proof fn lemma_step_blocks(g: LCG, i: nat, n: nat)
    requires
        g.can_advance(i),
        !g.advanced_state(i).can_step(),
        i < n,
    ensures
        !g.can_advance(n),
{
    if g.can_advance(n) {
        lemma_advanced_step(g, i, n);
    }
}

impl LCG {
    /// A copy of the generator.
    fn copied(&self) -> (r: LCG)
        ensures
            r == *self,
    {
        LCG { x: self.x, m: self.m, c: self.c, a: self.a, l: self.l, f: self.f, cn: self.cn }
    }

    /// The generator after `n` calls of `next`, when under the recurrence a
    /// run starts with all of them return (the loop counter does not
    /// overflow); `None` when one would not.
    pub fn advanced_now(&self, n: u32) -> (r: Option<LCG>)
        requires
            self.recurrence() == default_recurrence(),
        ensures
            r is Some == self.can_advance(n as nat),
            r matches Some(h) ==> h == self.advanced_state(n as nat),
    {
        proof {
            lemma_default_direct();
        }
        let mut h = self.copied();
        let mut i: u32 = 0;
        while i < n
            invariant
                i <= n,
                self.recurrence() == default_recurrence(),
                default_recurrence().steps_to_addresses(),
                self.can_advance(i as nat),
                h == self.advanced_state(i as nat),
            decreases n - i,
        {
            if !h.steps_directly() {
                proof {
                    lemma_step_blocks(*self, i as nat, n as nat);
                }
                return None;
            }
            proof {
                lemma_step_extends(*self, i as nat);
            }
            h.next();
            i = i + 1;
        }
        Some(h)
    }

    /// Whether `zip(zip)` returns, under the recurrence a run starts with:
    /// the walk from the first generated address meets `zip` or comes back
    /// within `M_PRIMA` steps, so only the loop counter can stop it, and
    /// the walk is followed to see whether it does.
    pub fn can_zip_now(&self, zip: u32) -> (r: bool)
        requires
            self.recurrence() == default_recurrence(),
        ensures
            r == self.can_zip(zip),
    {
        proof {
            lemma_default_direct();
        }
        if !self.steps_directly() {
            return false;
        }
        let mut h = self.copied();
        h.next();
        let ghost s1 = h;
        let first: u128 = h.x;
        if first == zip as u128 {
            return true;
        }
        let ghost rr = default_recurrence();
        let ghost v0 = first as int;
        proof {
            super::lcgipgenerator::lemma_default_step_window(self.x as int);
            let p = super::lcgipgenerator::lemma_default_orbit_returns(v0);
            super::lcgipgenerator::lemma_default_first_stop(v0, zip as int, 1, p);
        }
        let ghost k0: nat = choose|k: nat| k <= 4294967291 && rr.zip_stop(v0, zip as int, k);
        let ghost mut i: nat = 0;
        assert(s1.advanced_state(0) == s1);
        loop
            invariant
                s1.recurrence() == default_recurrence(),
                rr == default_recurrence(),
                default_recurrence().steps_to_addresses(),
                s1 == self.next_state(),
                self.can_step(),
                v0 == s1.x,
                v0 == first,
                first != zip,
                rr.zip_stop(v0, zip as int, k0),
                i < k0,
                s1.can_advance(i),
                h == s1.advanced_state(i),
            decreases k0 - i,
        {
            if !h.steps_directly() {
                proof {
                    lemma_zip_blocked(*self, zip, k0, i);
                }
                return false;
            }
            proof {
                lemma_step_extends(s1, i);
            }
            h.next();
            proof {
                i = i + 1;
                rr.lemma_advance_range(v0, i);
                assert(h.x as int == rr.advance(v0, i));
            }
            if h.x == zip as u128 || h.x == first {
                proof {
                    if i < k0 {
                        rr.lemma_before_zip_stop(v0, zip as int, k0, i);
                    }
                }
                return true;
            }
        }
    }
}

/// A zip whose walk cannot take its `i + 1`-th step before its stop at
/// `k0` does not return.
proof fn lemma_zip_blocked(g: LCG, zip: u32, k0: nat, i: nat)
    requires
        g.can_step(),
        g.next_state().x != zip,
        g.next_state().recurrence().zip_stop(g.next_state().x as int, zip as int, k0),
        i < k0,
        g.next_state().can_advance(i),
        !g.next_state().advanced_state(i).can_step(),
    ensures
        !g.can_zip(zip),
{
    let s1 = g.next_state();
    let rr = s1.recurrence();
    lemma_step_blocks(s1, i, k0);
    assert forall|k: nat| rr.zip_stop(s1.x as int, zip as int, k) implies !s1.can_advance(k) by {
        rr.lemma_zip_stop_unique(s1.x as int, zip as int, k, k0);
    }
}

impl IPGenerator {
    /// Whether `gen_next` returns from this state: exact for the
    /// sequential and the shuffled generators, and for a congruential one
    /// whose recurrence gives an address at every raw step (as the one a
    /// run starts with does); `false` for a congruential one with another
    /// recurrence.
    pub fn can_step_now(&self) -> (r: bool)
        ensures
            r ==> self.can_step(),
            !(self is LCGIP) ==> r == self.can_step(),
            self matches IPGenerator::LCGIP(g) && g.recurrence().steps_to_addresses() ==> r
                == self.can_step(),
    {
        match self {
            IPGenerator::PoorMans(g) => g.can_step_now(),
            IPGenerator::Sequential(g) => g.dir != super::GeneratorDirection::Random,
            IPGenerator::LCGIP(g) => g.steps_directly(),
        }
    }
}

/// Whether `prepare` returns on `g` with these arguments: exact for the
/// sequential and the shuffled generators, and for a congruential one that
/// runs the recurrence a run starts with. There it always returns while the
/// loop counter has room (`counter_has_room`); otherwise the skips and the
/// zip are followed step by step to see whether the counter overflows. A
/// congruential one with another recurrence gets `false`.
pub fn can_prepare_now(g: &IPGenerator, skip: u128, zip: u32, use_zip: bool) -> (r: bool)
    ensures
        r ==> can_prepare(*g, skip, zip, use_zip),
        !(*g is LCGIP) ==> r == can_prepare(*g, skip, zip, use_zip),
        *g matches IPGenerator::LCGIP(l) && l.recurrence() == default_recurrence() ==> r
            == can_prepare(*g, skip, zip, use_zip),
{
    if skip > 2 * (u32::MAX as u128) {
        return false;
    }
    match g {
        IPGenerator::PoorMans(_) => skip == 0,
        IPGenerator::Sequential(s) => skip == 0 || s.dir != super::GeneratorDirection::Random,
        IPGenerator::LCGIP(l) => {
            if l.runs_default_recurrence() {
                proof {
                    let (p1, p2) = skip_parts(skip);
                    lemma_default_can_advance(*l, p1 as nat);
                    let l1 = if skip > u32::MAX {
                        l.advanced_state(p1 as nat)
                    } else {
                        *l
                    };
                    lemma_default_can_advance(l1, p2 as nat);
                    let l2 = if p2 != 0 {
                        l1.advanced_state(p2 as nat)
                    } else {
                        l1
                    };
                    super::lcgipgenerator::law_default_zip_returns(l2, zip);
                }
                return true;
            }
            if !(l.a == A_PRIMA && l.c == C_PRIMA && l.m == M_PRIMA) {
                return false;
            }
            let g1 = if skip > u32::MAX as u128 {
                match l.advanced_now(u32::MAX) {
                    Some(h) => h,
                    None => {
                        return false;
                    },
                }
            } else {
                l.copied()
            };
            let p2: u32 = if skip > u32::MAX as u128 {
                (skip - u32::MAX as u128) as u32
            } else {
                skip as u32
            };
            let g2 = if p2 != 0 {
                match g1.advanced_now(p2) {
                    Some(h) => h,
                    None => {
                        return false;
                    },
                }
            } else {
                g1
            };
            if use_zip {
                g2.can_zip_now(zip)
            } else {
                true
            }
        },
    }
}

} // verus!
