use vstd::prelude::*;

use super::{default_recurrence, GeneratorMessage, NumberGenerator, ZippableNumberGenerator};

verus! {

/// The parameters of a linear congruential recurrence
/// `x' = ((a % m) * (x % m)) % m + c % m`, over the integers.
pub struct Recurrence {
    pub a: int,
    pub c: int,
    pub m: int,
}

impl Recurrence {
    /// One raw step of the recurrence.
    pub open spec fn step(self, x: int) -> int {
        ((self.a % self.m) * (x % self.m)) % self.m + self.c % self.m
    }

    /// The step from `x` can be taken in `u128` arithmetic without overflow
    /// or a division by zero.
    pub open spec fn step_fits(self, x: int) -> bool {
        &&& self.m > 0
        &&& (self.a % self.m) * (x % self.m) <= u128::MAX
        &&& ((self.a % self.m) * (x % self.m)) % self.m + self.c % self.m <= u128::MAX
    }

    /// `k` raw steps from `x`.
    pub open spec fn iter(self, x: int, k: nat) -> int
        decreases k,
    {
        if k == 0 {
            x
        } else {
            self.iter(self.step(x), (k - 1) as nat)
        }
    }

    /// Each of the first `k` raw steps from `x` fits.
    pub open spec fn run_fits(self, x: int, k: nat) -> bool
        decreases k,
    {
        if k == 0 {
            true
        } else {
            self.step_fits(x) && self.run_fits(self.step(x), (k - 1) as nat)
        }
    }

    /// The `k`-th raw step from `x` is the first one that gives an IPv4
    /// address (a value that fits in `u32`), and no step before it overflows.
    pub open spec fn lands_at(self, x: int, k: nat) -> bool {
        &&& k >= 1
        &&& self.run_fits(x, k)
        &&& self.iter(x, k) <= u32::MAX
        &&& forall|j: nat| 1 <= j < k ==> #[trigger] self.iter(x, j) > u32::MAX
    }

    /// Some raw step from `x` gives an address.
    pub open spec fn can_land(self, x: int) -> bool {
        exists|k: nat| self.lands_at(x, k)
    }

    /// The number of raw steps to the next address.
    pub open spec fn landing(self, x: int) -> nat {
        choose|k: nat| self.lands_at(x, k)
    }

    /// The next address after `x`.
    pub open spec fn next_value(self, x: int) -> int {
        self.iter(x, self.landing(x))
    }

    /// The address reached after `n` addresses were generated from `x`.
    pub open spec fn advance(self, x: int, n: nat) -> int
        decreases n,
    {
        if n == 0 {
            x
        } else {
            self.next_value(self.advance(x, (n - 1) as nat))
        }
    }

    /// `n` addresses can be generated one after another from `x`.
    pub open spec fn can_advance(self, x: int, n: nat) -> bool
        decreases n,
    {
        if n == 0 {
            true
        } else {
            self.can_advance(x, (n - 1) as nat) && self.can_land(self.advance(x, (n - 1) as nat))
        }
    }

    /// How many of the first `n` addresses generated from `x` equal `f`.
    pub open spec fn hits(self, x: int, f: int, n: nat) -> nat
        decreases n,
    {
        if n == 0 {
            0
        } else {
            self.hits(x, f, (n - 1) as nat) + if self.advance(x, n) == f {
                1nat
            } else {
                0nat
            }
        }
    }

    /// Starting at the address `first`, the `k`-th generated address is the
    /// first one that is either `zip` or `first` again.
    pub open spec fn zip_stop(self, first: int, zip: int, k: nat) -> bool {
        &&& k >= 1
        &&& self.can_advance(first, k)
        &&& (self.advance(first, k) == zip || self.advance(first, k) == first)
        &&& forall|j: nat|
            1 <= j < k ==> #[trigger] self.advance(first, j) != zip && self.advance(first, j)
                != first
    }

    /// The number of addresses generated after `first` until `zip` or
    /// `first` comes round.
    pub open spec fn zip_steps(self, first: int, zip: int) -> nat {
        choose|k: nat| self.zip_stop(first, zip, k)
    }

    /// There is at most one first landing.
    pub proof fn lemma_landing_unique(self, x: int, k1: nat, k2: nat)
        requires
            self.lands_at(x, k1),
            self.lands_at(x, k2),
        ensures
            k1 == k2,
    {
        if k1 < k2 {
            assert(self.iter(x, k1) > u32::MAX);
        } else if k2 < k1 {
            assert(self.iter(x, k2) > u32::MAX);
        }
    }

    /// A landing `k >= 2` steps away from `x` is `k - 1` steps away from the
    /// first raw step.
    pub proof fn lemma_landing_shift(self, x: int, k: nat)
        requires
            self.lands_at(x, k),
            k >= 2,
        ensures
            self.lands_at(self.step(x), (k - 1) as nat),
            self.can_land(self.step(x)),
            self.landing(self.step(x)) == k - 1,
            self.next_value(self.step(x)) == self.iter(x, k),
    {
        let y = self.step(x);
        let k1 = (k - 1) as nat;
        assert forall|j: nat| 1 <= j < k1 implies #[trigger] self.iter(y, j) > u32::MAX by {
            assert(self.iter(x, j + 1) == self.iter(y, j));
            assert(self.iter(x, (j + 1) as nat) > u32::MAX);
        }
        assert(self.lands_at(y, k1));
        let kk = self.landing(y);
        self.lemma_landing_unique(y, kk, k1);
    }

    /// One raw step is the step itself.
    pub proof fn lemma_iter_one(self, x: int)
        ensures
            self.iter(x, 1) == self.step(x),
            self.run_fits(x, 1) == self.step_fits(x),
    {
        assert(self.iter(self.step(x), 0) == self.step(x));
        assert(self.run_fits(self.step(x), 0));
    }

    /// Whatever can be generated `n` times can be generated fewer times.
    pub proof fn lemma_can_advance_prefix(self, x: int, i: nat, n: nat)
        requires
            i <= n,
            self.can_advance(x, n),
        ensures
            self.can_advance(x, i),
        decreases n - i,
    {
        if i < n {
            self.lemma_can_advance_prefix(x, i, (n - 1) as nat);
        }
    }

    /// Every value reached by at least one fitting raw step is a `u128`.
    pub proof fn lemma_iter_range(self, x: int, k: nat)
        requires
            k >= 1,
            self.run_fits(x, k),
        ensures
            0 <= self.iter(x, k) <= u128::MAX,
        decreases k,
    {
        if k > 1 {
            self.lemma_iter_range(self.step(x), (k - 1) as nat);
        } else {
            self.lemma_iter_one(x);
        }
    }

    /// The next address is an address.
    pub proof fn lemma_next_value_range(self, x: int)
        requires
            self.can_land(x),
        ensures
            0 <= self.next_value(x) <= u32::MAX,
    {
        let k = self.landing(x);
        self.lemma_iter_range(x, k);
    }

    /// Every value generated from a `u128` is a `u128`, and every generated
    /// address after the start is an address.
    pub proof fn lemma_advance_range(self, x: int, n: nat)
        requires
            0 <= x <= u128::MAX,
            self.can_advance(x, n),
        ensures
            0 <= self.advance(x, n) <= u128::MAX,
            n >= 1 ==> self.advance(x, n) <= u32::MAX,
        decreases n,
    {
        if n >= 1 {
            self.lemma_advance_range(x, (n - 1) as nat);
            self.lemma_next_value_range(self.advance(x, (n - 1) as nat));
        }
    }

    /// Before its first stop, a zip meets neither its target nor its start.
    pub proof fn lemma_before_zip_stop(self, first: int, zip: int, k: nat, j: nat)
        requires
            self.zip_stop(first, zip, k),
            1 <= j < k,
        ensures
            self.advance(first, j) != zip,
            self.advance(first, j) != first,
    {
    }

    /// A recurrence whose largest step stays within an address gives an
    /// address at every raw step.
    pub open spec fn steps_to_addresses(self) -> bool {
        &&& self.m > 0
        &&& self.a >= 0
        &&& self.c >= 0
        &&& self.m - 1 + self.c % self.m <= u32::MAX
    }

    /// Under such a recurrence, the next address is one raw step away.
    pub proof fn lemma_lands_in_one_step(self, x: int)
        requires
            self.steps_to_addresses(),
            x >= 0,
        ensures
            self.lands_at(x, 1),
            self.can_land(x),
            self.landing(x) == 1,
            self.next_value(x) == self.step(x),
    {
        let am = self.a % self.m;
        let xm = x % self.m;
        assert(am * xm <= (self.m - 1) * (self.m - 1)) by (nonlinear_arith)
            requires
                0 <= am < self.m,
                0 <= xm < self.m,
        ;
        assert((self.m - 1) * (self.m - 1) <= u32::MAX * u32::MAX) by (nonlinear_arith)
            requires
                0 <= self.m - 1 <= u32::MAX,
        ;
        self.lemma_iter_one(x);
        assert(self.lands_at(x, 1));
        self.lemma_landing_unique(x, 1, self.landing(x));
    }

    /// Every value generated from a non-negative start is non-negative.
    pub proof fn lemma_advance_range_nonneg(self, x: int, n: nat)
        requires
            x >= 0,
            self.can_advance(x, n),
        ensures
            self.advance(x, n) >= 0,
        decreases n,
    {
        if n >= 1 {
            self.lemma_advance_range_nonneg(x, (n - 1) as nat);
            self.lemma_next_value_range(self.advance(x, (n - 1) as nat));
        }
    }

    /// There is at most one first stop of a zip.
    pub proof fn lemma_zip_stop_unique(self, first: int, zip: int, k1: nat, k2: nat)
        requires
            self.zip_stop(first, zip, k1),
            self.zip_stop(first, zip, k2),
        ensures
            k1 == k2,
    {
        if k1 < k2 {
            assert(self.advance(first, k1) != zip && self.advance(first, k1) != first);
        } else if k2 < k1 {
            assert(self.advance(first, k2) != zip && self.advance(first, k2) != first);
        }
    }

}

/// A linear congruential generator of addresses: each call of `next` runs
/// the recurrence until its value fits in an IPv4 address.
#[derive(Debug, Clone)]
pub struct LCG {
    pub x: u128,
    pub m: u128,
    pub c: u128,
    pub a: u128,
    pub l: u128,
    pub f: u128,
    pub cn: u128,
}

impl LCG {
    /// The recurrence this generator runs.
    pub open spec fn recurrence(&self) -> Recurrence {
        Recurrence { a: self.a as int, c: self.c as int, m: self.m as int }
    }

    /// `next` returns from this state.
    pub open spec fn can_step(&self) -> bool {
        &&& self.recurrence().can_land(self.x as int)
        &&& self.recurrence().next_value(self.x as int) == self.f ==> self.l < u128::MAX
    }

    /// The state `next` leaves behind.
    pub open spec fn next_state(&self) -> LCG {
        let v = self.recurrence().next_value(self.x as int);
        LCG {
            x: v as u128,
            l: if v == self.f {
                (self.l + 1) as u128
            } else {
                self.l
            },
            ..*self
        }
    }

    /// The message `next` returns.
    pub open spec fn next_message(&self) -> GeneratorMessage {
        let v = self.recurrence().next_value(self.x as int);
        if v == self.f {
            GeneratorMessage::Looped(self.c, v as u32)
        } else {
            GeneratorMessage::Normal(self.c, v as u32)
        }
    }

    /// `n` calls of `next` return from this state.
    pub open spec fn can_advance(&self, n: nat) -> bool {
        &&& self.recurrence().can_advance(self.x as int, n)
        &&& self.l + self.recurrence().hits(self.x as int, self.f as int, n) <= u128::MAX
    }

    /// The state after `n` calls of `next`.
    pub open spec fn advanced_state(&self, n: nat) -> LCG {
        LCG {
            x: self.recurrence().advance(self.x as int, n) as u128,
            l: (self.l + self.recurrence().hits(self.x as int, self.f as int, n)) as u128,
            ..*self
        }
    }

    /// Seeds a generator and takes its first step. The fresh generator
    /// counts its loops from zero and treats address 0 as its starting
    /// point.
    pub fn new(seed: u128, m: u128, c: u128, a: u128) -> (new: Self)
        requires
            (Recurrence { a: a as int, c: c as int, m: m as int }).can_land(seed as int),
        ensures
            new == (LCG { x: seed, m, c, a, l: 0, f: 0, cn: 0 }).next_state(),
    {
        let mut new: Self = Self { x: seed, m, c, a, l: 0, f: 0, cn: 0 };
        new.next();
        return new;
    }
}

/// From a state that can go `n` steps, the state after `i < n` steps can
/// take one more, and that step is the `i + 1`-th.
pub proof fn lemma_advanced_step(start: LCG, i: nat, n: nat)
    requires
        i < n,
        start.can_advance(n),
    ensures
        start.advanced_state(i).can_step(),
        start.advanced_state(i).next_state() == start.advanced_state(i + 1),
{
    let r = start.recurrence();
    let x = start.x as int;
    r.lemma_can_advance_prefix(x, i + 1, n);
    r.lemma_advance_range(x, i);
    r.lemma_advance_range(x, i + 1);
    lemma_hits_monotone(r, x, start.f as int, i + 1, n);
    let cur = start.advanced_state(i);
    assert(cur.x as int == r.advance(x, i));
    assert(cur.recurrence() == r);
}

impl NumberGenerator for LCG {
    open spec fn skip_requires(&self, skip: u32) -> bool {
        self.can_advance(skip as nat)
    }

    open spec fn skip_ensures(&self, skip: u32, after: Self) -> bool {
        after == self.advanced_state(skip as nat)
    }

    open spec fn next_requires(&self) -> bool {
        self.can_step()
    }

    open spec fn next_ensures(&self, after: Self, msg: GeneratorMessage) -> bool {
        after == self.next_state() && msg == self.next_message()
    }

    fn skip(&mut self, skip: u32) {
        let ghost start = *self;
        let ghost r = start.recurrence();
        let mut i: u32 = 0;
        while i < skip
            invariant
                i <= skip,
                start.can_advance(skip as nat),
                *self == start.advanced_state(i as nat),
                r == self.recurrence(),
            decreases skip - i,
        {
            proof {
                lemma_advanced_step(start, i as nat, skip as nat);
            }
            self.next();
            i = i + 1;
        }
    }

    fn next(&mut self) -> (msg: GeneratorMessage)
        decreases old(self).recurrence().landing(old(self).x as int),
    {
        let ghost r = self.recurrence();
        let ghost x0 = self.x as int;
        let ghost k = r.landing(x0);
        proof {
            assert(r.lands_at(x0, k));
            assert(r.step_fits(x0));
        }
        self.cn += 0;
        self.x = (((self.a % self.m) * (self.x % self.m)) % self.m) + (self.c % self.m);
        if self.x <= u32::MAX as u128 {
            proof {
                r.lemma_iter_one(x0);
                assert(r.lands_at(x0, 1));
                r.lemma_landing_unique(x0, 1, k);
            }
            let x: u32 = self.x as u32;
            if self.x == self.f {
                self.l += 1;
                return GeneratorMessage::Looped(self.c, x);
            } else {
                return GeneratorMessage::Normal(self.c, x);
            }
        } else {
            proof {
                if k == 1 {
                    r.lemma_iter_one(x0);
                }
                r.lemma_landing_shift(x0, k);
            }
            return self.next();
        }
    }
}

/// The text of the error that `zip` returns when it comes back to where it
/// started.
pub open spec fn zip_not_found_text() -> Seq<char> {
    "We went all the way around without finding the zip number!"@
}

impl LCG {
    /// `zip(zip)` returns from this state: the first step gives an address
    /// `first`, and unless that is `zip`, the addresses after it come to
    /// `zip` or back to `first` within steps that all return.
    pub open spec fn can_zip(&self, zip: u32) -> bool {
        let s1 = self.next_state();
        &&& self.can_step()
        &&& (s1.x == zip || exists|k: nat|
            s1.recurrence().zip_stop(s1.x as int, zip as int, k) && s1.can_advance(k))
    }

    /// The state `zip(zip)` leaves behind.
    pub open spec fn zip_state(&self, zip: u32) -> LCG {
        let s1 = self.next_state();
        if s1.x == zip {
            s1
        } else {
            s1.advanced_state(s1.recurrence().zip_steps(s1.x as int, zip as int))
        }
    }

    /// What `zip(zip)` returns: `Ok(zip)` if `zip` comes before the walk is
    /// back at its first address, the error otherwise.
    pub open spec fn zip_outcome(&self, zip: u32) -> Result<u32, Seq<char>> {
        let s1 = self.next_state();
        let r = s1.recurrence();
        if s1.x != zip && r.advance(s1.x as int, r.zip_steps(s1.x as int, zip as int))
            == s1.x {
            Err(zip_not_found_text())
        } else {
            Ok(zip)
        }
    }
}

impl ZippableNumberGenerator for LCG {
    open spec fn zip_requires(&self, zip: u32) -> bool {
        self.can_zip(zip)
    }

    open spec fn zip_ensures(&self, zip: u32, after: Self, r: Result<u32, Seq<char>>) -> bool {
        after == self.zip_state(zip) && r == self.zip_outcome(zip)
    }

    fn zip(&mut self, zip: u32) -> (r: Result<u32, &str>) {
        let ghost s1 = self.next_state();
        let ghost rec = s1.recurrence();
        proof {
            rec.lemma_next_value_range(self.x as int);
        }
        let first: u32 = match self.next() {
            GeneratorMessage::Normal(_, n) => n,
            GeneratorMessage::Looped(_, n) => n,
        };
        let ghost v0 = first as int;
        let mut zip_flaw = zip == first;
        let ghost k0: nat = if zip_flaw {
            0
        } else {
            rec.zip_steps(v0, zip as int)
        };
        let ghost mut i: nat = 0;
        proof {
            if !zip_flaw {
                let k = choose|k: nat| rec.zip_stop(v0, zip as int, k) && s1.can_advance(k);
                rec.lemma_zip_stop_unique(v0, zip as int, k, k0);
            }
        }
        while !zip_flaw
            invariant
                v0 == s1.x,
                v0 == first as int,
                s1 == old(self).next_state(),
                rec == s1.recurrence(),
                zip_flaw ==> zip == first || rec.zip_stop(v0, zip as int, k0),
                !zip_flaw ==> rec.zip_stop(v0, zip as int, k0) && s1.can_advance(k0),
                k0 == 0 || k0 == rec.zip_steps(v0, zip as int),
                i <= k0,
                *self == s1.advanced_state(i),
                zip_flaw == (self.x == zip),
                !zip_flaw ==> i < k0,
                zip_flaw ==> i == k0,
                i >= 1 ==> self.x != first,
                zip != first ==> k0 >= 1,
                !zip_flaw ==> zip != first,
            decreases k0 - i,
        {
            proof {
                lemma_advanced_step(s1, i, k0);
                rec.lemma_can_advance_prefix(v0, i + 1, k0);
                rec.lemma_advance_range(v0, i + 1);
            }
            self.next();
            zip_flaw = self.x == zip as u128;
            if self.x == first as u128 {
                proof {
                    if i + 1 < k0 {
                        rec.lemma_before_zip_stop(v0, zip as int, k0, i + 1);
                    }
                }
                return Result::Err("We went all the way around without finding the zip number!");
            }
            proof {
                if zip_flaw && i + 1 < k0 {
                    rec.lemma_before_zip_stop(v0, zip as int, k0, i + 1);
                }
                i = i + 1;
            }
        }
        return Result::Ok(self.x as u32);
    }
}

/// Counting loops over more generated addresses never counts fewer.
pub proof fn lemma_hits_monotone(r: Recurrence, x: int, f: int, i: nat, n: nat)
    requires
        i <= n,
    ensures
        r.hits(x, f, i) <= r.hits(x, f, n),
    decreases n - i,
{
    if i < n {
        lemma_hits_monotone(r, x, f, i, (n - 1) as nat);
    }
}

/// Generating `n` addresses and then `m` more is generating `n + m`.
pub proof fn lemma_advance_add(r: Recurrence, x: int, f: int, n: nat, m: nat)
    ensures
        r.advance(x, n + m) == r.advance(r.advance(x, n), m),
        r.can_advance(x, n + m) == (r.can_advance(x, n) && r.can_advance(r.advance(x, n), m)),
        r.hits(x, f, n + m) == r.hits(x, f, n) + r.hits(r.advance(x, n), f, m),
    decreases m,
{
    if m > 0 {
        lemma_advance_add(r, x, f, n, (m - 1) as nat);
        assert((n + m - 1) as nat == n + (m - 1) as nat);
    }
}

/// Skipping `n` and then `m` iterations is skipping `n + m`.
pub proof fn law_skip_compose(g: LCG, n: nat, m: nat)
    requires
        g.can_advance(n + m),
    ensures
        g.can_advance(n),
        g.advanced_state(n).can_advance(m),
        g.advanced_state(n).advanced_state(m) == g.advanced_state(n + m),
{
    let r = g.recurrence();
    let x = g.x as int;
    lemma_advance_add(r, x, g.f as int, n, m);
    r.lemma_advance_range(x, n);
    r.lemma_advance_range(x, n + m);
    lemma_hits_monotone(r, x, g.f as int, n, n + m);
    let h = g.advanced_state(n);
    assert(h.x as int == r.advance(x, n));
    assert(h.recurrence() == r);
}

/// Under the recurrence a run starts with, every raw step gives an
/// address, so `next` returns from any value after one step, and any
/// number of steps can be taken.
pub proof fn law_default_recurrence_steps(x: int, n: nat)
    requires
        x >= 0,
    ensures
        default_recurrence().can_land(x),
        default_recurrence().next_value(x) == default_recurrence().step(x),
        default_recurrence().can_advance(x, n),
    decreases n,
{
    let r = default_recurrence();
    r.lemma_lands_in_one_step(x);
    if n > 0 {
        law_default_recurrence_steps(x, (n - 1) as nat);
        r.lemma_advance_range_nonneg(x, (n - 1) as nat);
        r.lemma_lands_in_one_step(r.advance(x, (n - 1) as nat));
    }
}

/// A zip that succeeds leaves the generator at the address it was asked
/// for; one that fails leaves it back at the first address it generated.
pub proof fn law_zip_lands(g: LCG, zip: u32)
    requires
        g.can_zip(zip),
    ensures
        g.zip_outcome(zip) is Ok ==> g.zip_state(zip).x == zip,
        g.zip_outcome(zip) is Err ==> g.zip_state(zip).x == g.next_state().x,
{
    let s1 = g.next_state();
    let r = s1.recurrence();
    let v0 = s1.x as int;
    if s1.x != zip {
        let k = choose|k: nat| r.zip_stop(v0, zip as int, k) && s1.can_advance(k);
        let k0 = r.zip_steps(v0, zip as int);
        r.lemma_zip_stop_unique(v0, zip as int, k, k0);
        r.lemma_advance_range(v0, k0);
    }
}

/// A value the recurrence a run starts with can give: from 5 up to
/// `u32::MAX`, a window of exactly `M_PRIMA` values.
pub open spec fn in_default_window(v: int) -> bool {
    5 <= v <= u32::MAX
}

/// Under the recurrence a run starts with, a step from any value lands in
/// the window at once.
pub proof fn lemma_default_step_window(x: int)
    requires
        x >= 0,
    ensures
        in_default_window(default_recurrence().step(x)),
        default_recurrence().can_land(x),
        default_recurrence().next_value(x) == default_recurrence().step(x),
{
    law_default_recurrence_steps(x, 0);
}

/// Within the window, a value is itself or `M_PRIMA` more than its
/// remainder.
proof fn lemma_window_mod(x: int)
    requires
        in_default_window(x),
    ensures
        x < 4294967291 ==> x % 4294967291 == x,
        x >= 4294967291 ==> x % 4294967291 == x - 4294967291,
{
    if x < 4294967291 {
        vstd::arithmetic::div_mod::lemma_fundamental_div_mod_converse(x, 4294967291, 0, x);
    } else {
        vstd::arithmetic::div_mod::lemma_fundamental_div_mod_converse(
            x,
            4294967291,
            1,
            x - 4294967291,
        );
    }
}

/// Under the recurrence a run starts with, different values of the window
/// step to different values: `A_PRIMA` has an inverse modulo the prime
/// `M_PRIMA`.
proof fn lemma_default_step_injective(x: int, y: int)
    requires
        in_default_window(x),
        in_default_window(y),
        default_recurrence().step(x) == default_recurrence().step(y),
    ensures
        x == y,
{
    let m: int = 4294967291;
    let a: int = 279470273;
    let inv: int = 1815976680;
    let xm = x % m;
    let ym = y % m;
    assert(a % m == a);
    assert((a * xm) % m == (a * ym) % m);
    vstd::arithmetic::div_mod::lemma_mul_mod_noop_right(inv, a * xm, m);
    vstd::arithmetic::div_mod::lemma_mul_mod_noop_right(inv, a * ym, m);
    vstd::arithmetic::mul::lemma_mul_is_associative(inv, a, xm);
    vstd::arithmetic::mul::lemma_mul_is_associative(inv, a, ym);
    vstd::arithmetic::div_mod::lemma_mul_mod_noop_left(inv * a, xm, m);
    vstd::arithmetic::div_mod::lemma_mul_mod_noop_left(inv * a, ym, m);
    assert((inv * a) % m == 1);
    vstd::arithmetic::div_mod::lemma_mod_bound(x, m);
    vstd::arithmetic::div_mod::lemma_mod_bound(y, m);
    vstd::arithmetic::div_mod::lemma_small_mod(xm as nat, m as nat);
    vstd::arithmetic::div_mod::lemma_small_mod(ym as nat, m as nat);
    assert(xm == ym);
    lemma_window_mod(x);
    lemma_window_mod(y);
}

/// Under the recurrence a run starts with, every value generated from the
/// window stays in it, and each is one raw step after the one before.
proof fn lemma_default_orbit(v0: int, n: nat)
    requires
        in_default_window(v0),
    ensures
        in_default_window(default_recurrence().advance(v0, n)),
        default_recurrence().advance(v0, n + 1) == default_recurrence().step(
            default_recurrence().advance(v0, n),
        ),
    decreases n,
{
    if n > 0 {
        lemma_default_orbit(v0, (n - 1) as nat);
    }
    lemma_default_step_window(default_recurrence().advance(v0, n));
}

/// Equal values at two steps of the walk are equal the same number of
/// steps earlier.
proof fn lemma_default_orbit_cancel(v0: int, i: nat, j: nat)
    requires
        in_default_window(v0),
        i <= j,
        default_recurrence().advance(v0, i) == default_recurrence().advance(v0, j),
    ensures
        default_recurrence().advance(v0, (j - i) as nat) == v0,
    decreases i,
{
    if i > 0 {
        lemma_default_orbit(v0, (i - 1) as nat);
        lemma_default_orbit(v0, (j - 1) as nat);
        lemma_default_step_injective(
            default_recurrence().advance(v0, (i - 1) as nat),
            default_recurrence().advance(v0, (j - 1) as nat),
        );
        lemma_default_orbit_cancel(v0, (i - 1) as nat, (j - 1) as nat);
    }
}

/// Under the recurrence a run starts with, the walk from a value of the
/// window comes back to it: the step is a bijection of the window, so by
/// pigeonhole two of the first `M_PRIMA + 1` values meet, and cancelling
/// gives the return.
pub proof fn lemma_default_orbit_returns(v0: int) -> (p: nat)
    requires
        in_default_window(v0),
    ensures
        1 <= p <= 4294967291,
        default_recurrence().advance(v0, p) == v0,
{
    let r = default_recurrence();
    let f = |k: int| r.advance(v0, k as nat);
    let xs = vstd::set_lib::set_int_range(0, 4294967292);
    let window = vstd::set_lib::set_int_range(5, 4294967296);
    if vstd::relations::injective_on(f, xs) {
        vstd::set_lib::lemma_int_range(0, 4294967292);
        vstd::set_lib::lemma_int_range(5, 4294967296);
        vstd::set_lib::lemma_map_size(xs, xs.map(f), f);
        assert forall|v: int| xs.map(f).contains(v) implies window.contains(v) by {
            let k = choose|k: int| xs.contains(k) && f(k) == v;
            lemma_default_orbit(v0, k as nat);
        }
        vstd::set_lib::lemma_len_subset(xs.map(f), window);
        assert(false);
        0
    } else {
        let (i, j) = choose|i: int, j: int| xs.contains(i) && xs.contains(j) && f(i) == f(j) && i != j;
        if i < j {
            lemma_default_orbit_cancel(v0, i as nat, j as nat);
            (j - i) as nat
        } else {
            lemma_default_orbit_cancel(v0, j as nat, i as nat);
            (i - j) as nat
        }
    }
}

/// From a step `p` at which the walk is at `zip` or back at `v0`, and no
/// such step before `lo`, there is a first such step.
pub proof fn lemma_default_first_stop(v0: int, zip: int, lo: nat, p: nat)
    requires
        in_default_window(v0),
        1 <= lo <= p,
        default_recurrence().advance(v0, p) == zip || default_recurrence().advance(v0, p) == v0,
        forall|j: nat|
            1 <= j < lo ==> #[trigger] default_recurrence().advance(v0, j) != zip
                && default_recurrence().advance(v0, j) != v0,
    ensures
        exists|k: nat| k <= p && default_recurrence().zip_stop(v0, zip, k),
    decreases p - lo,
{
    let r = default_recurrence();
    law_default_recurrence_steps(v0, lo);
    if r.advance(v0, lo) == zip || r.advance(v0, lo) == v0 {
        assert(lo <= p && r.zip_stop(v0, zip, lo));
    } else {
        assert forall|j: nat| 1 <= j < lo + 1 implies #[trigger] r.advance(v0, j) != zip
            && r.advance(v0, j) != v0 by {
            if j < lo {
                assert(r.advance(v0, j) != zip && r.advance(v0, j) != v0);
            }
        }
        lemma_default_first_stop(v0, zip, lo + 1, p);
    }
}

/// No value generated from the window lies outside it, so a loop marker
/// outside the window is never hit.
pub proof fn lemma_default_no_hits(v0: int, f: int, n: nat)
    requires
        in_default_window(v0),
        !in_default_window(f),
    ensures
        default_recurrence().hits(v0, f, n) == 0,
    decreases n,
{
    if n > 0 {
        lemma_default_no_hits(v0, f, (n - 1) as nat);
        lemma_default_orbit(v0, n);
    }
}

/// Of `n` generated addresses, at most `n` hit the loop marker.
pub proof fn lemma_hits_at_most(r: Recurrence, x: int, f: int, n: nat)
    ensures
        r.hits(x, f, n) <= n,
    decreases n,
{
    if n > 0 {
        lemma_hits_at_most(r, x, f, (n - 1) as nat);
    }
}

/// Under the recurrence a run starts with, `zip` returns for every target
/// unless the loop counter could overflow on the way: the walk from the
/// first generated address cycles back to it within `M_PRIMA` steps, so it
/// meets the target or comes back to where it started. The counter cannot
/// overflow when the loop marker lies outside the window of values the
/// recurrence gives (a fresh generator's is 0) or the counter has room for
/// `M_PRIMA + 1` more loops.
pub proof fn law_default_zip_returns(g: LCG, zip: u32)
    requires
        g.recurrence() == default_recurrence(),
        !in_default_window(g.f as int) || g.l + 4294967292 <= u128::MAX,
    ensures
        g.can_zip(zip),
{
    let r = default_recurrence();
    lemma_default_step_window(g.x as int);
    let s1 = g.next_state();
    let v0 = s1.x as int;
    assert(v0 == r.step(g.x as int));
    if s1.x != zip {
        let p = lemma_default_orbit_returns(v0);
        lemma_default_first_stop(v0, zip as int, 1, p);
        let k = choose|k: nat| k <= p && r.zip_stop(v0, zip as int, k);
        if !in_default_window(s1.f as int) {
            lemma_default_no_hits(v0, s1.f as int, k);
        } else {
            lemma_hits_at_most(r, v0, s1.f as int, k);
        }
        assert(s1.recurrence() == r);
        assert(r.zip_stop(v0, zip as int, k) && s1.can_advance(k));
    }
}

/// Under the recurrence a run starts with, no value generated from any
/// start hits a loop marker outside the window of values it gives.
pub proof fn lemma_default_hits_zero(x: int, f: int, n: nat)
    requires
        x >= 0,
        !in_default_window(f),
    ensures
        default_recurrence().hits(x, f, n) == 0,
    decreases n,
{
    if n > 0 {
        lemma_default_hits_zero(x, f, (n - 1) as nat);
        law_default_recurrence_steps(x, n);
        let r = default_recurrence();
        r.lemma_advance_range_nonneg(x, (n - 1) as nat);
        lemma_default_step_window(r.advance(x, (n - 1) as nat));
    }
}

} // verus!
