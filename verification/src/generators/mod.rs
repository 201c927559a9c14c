use vstd::prelude::*;

pub mod lcgipgenerator;
pub mod sequential_generator;
pub mod poor_mans_ip_generator;
pub mod poor_mans_pass;
pub mod generator;
pub mod checks;

pub use lcgipgenerator::{Recurrence, LCG};
pub use sequential_generator::SequentialGenerator;
pub use poor_mans_ip_generator::PoorMans;

verus! {

/// The modulus of the congruential generator that a run starts: the
/// largest prime below 2^32.
pub const M_PRIMA: u128 = 4294967291;

/// The increment of the congruential generator that a run starts. With
/// `M_PRIMA` it keeps every step within an IPv4 address.
pub const C_PRIMA: u128 = 5;

/// The multiplier of the congruential generator that a run starts.
pub const A_PRIMA: u128 = 279470273;

/// The order in which a generator walks the address space.
#[derive(Debug, Clone, Copy, PartialEq, Eq, Structural)]
pub enum GeneratorDirection {
    Forward,
    Backward,
    Random,
}

/// The generator strategies a run can be started with.
#[derive(Clone, Copy, Debug, PartialEq, Eq, Structural)]
pub enum NumberGenerators {
    PoorMansGen,
    Sequential,
    LCG,
}

/// One generated address: a count (the iteration counter; the increment of
/// the recurrence for the congruential generator) and the address as an
/// integer. `Looped` marks an address at which the generator went all the
/// way around its space.
#[derive(Debug, Clone, PartialEq, Eq)]
pub enum GeneratorMessage {
    Normal(u128, u32),
    Looped(u128, u32),
}

/// The view of a `zip` result, with the error text as a character sequence.
pub open spec fn zip_result_view(r: Result<u32, &str>) -> Result<u32, Seq<char>> {
    match r {
        Ok(v) => Ok(v),
        Err(e) => Err(e@),
    }
}

/// A generator that can be moved straight to a given address.
pub trait ZippableNumberGenerator: Sized {
    /// The inputs on which `zip` returns.
    spec fn zip_requires(&self, zip: u32) -> bool;

    /// What `zip` leaves behind and returns.
    spec fn zip_ensures(&self, zip: u32, after: Self, r: Result<u32, Seq<char>>) -> bool;

    fn zip(&mut self, zip: u32) -> (r: Result<u32, &str>)
        requires
            old(self).zip_requires(zip),
        ensures
            old(self).zip_ensures(zip, *final(self), zip_result_view(r)),
    ;
}

/// A generator of addresses.
pub trait NumberGenerator: Sized {
    /// The inputs on which `skip` returns.
    spec fn skip_requires(&self, skip: u32) -> bool;

    /// What `skip` leaves behind.
    spec fn skip_ensures(&self, skip: u32, after: Self) -> bool;

    /// The states in which `next` returns.
    spec fn next_requires(&self) -> bool;

    /// What `next` leaves behind and returns.
    spec fn next_ensures(&self, after: Self, msg: GeneratorMessage) -> bool;

    fn skip(&mut self, skip: u32)
        requires
            old(self).skip_requires(skip),
        ensures
            old(self).skip_ensures(skip, *final(self)),
    ;

    fn next(&mut self) -> (msg: GeneratorMessage)
        requires
            old(self).next_requires(),
        ensures
            old(self).next_ensures(*final(self), msg),
    ;
}

} // verus!

verus! {

/// Roll your own random generator they say, what could go wrong, they say...
#[derive(Debug, Clone)]
pub enum IPGenerator {
    PoorMans(PoorMans),
    Sequential(SequentialGenerator),
    LCGIP(LCG),
}

/// The recurrence of the congruential generator that a run starts.
pub open spec fn default_recurrence() -> Recurrence {
    Recurrence { a: A_PRIMA as int, c: C_PRIMA as int, m: M_PRIMA as int }
}

impl IPGenerator {
    /// `next` returns from this state.
    pub open spec fn can_step(&self) -> bool {
        match self {
            IPGenerator::PoorMans(g) => g.can_step(),
            IPGenerator::Sequential(g) => g.wf(),
            IPGenerator::LCGIP(g) => g.can_step(),
        }
    }

    /// `after` and `msg` are what `gen_next` may give from `self`.
    pub open spec fn stepped(&self, after: Self, msg: GeneratorMessage) -> bool {
        match (*self, after) {
            (IPGenerator::PoorMans(g), IPGenerator::PoorMans(h)) => g.stepped(h, msg),
            (IPGenerator::Sequential(g), IPGenerator::Sequential(h)) => h == g.next_state() && msg
                == g.next_message(),
            (IPGenerator::LCGIP(g), IPGenerator::LCGIP(h)) => h == g.next_state() && msg
                == g.next_message(),
            _ => false,
        }
    }

    /// `gen_skip(skip)` returns from this state.
    pub open spec fn can_skip(&self, skip: u32) -> bool {
        match self {
            IPGenerator::PoorMans(_) => false,
            IPGenerator::Sequential(g) => g.wf(),
            IPGenerator::LCGIP(g) => g.can_advance(skip as nat),
        }
    }

    /// The state `gen_skip(skip)` leaves behind.
    pub open spec fn skip_state(&self, skip: u32) -> IPGenerator {
        match self {
            IPGenerator::PoorMans(g) => IPGenerator::PoorMans(*g),
            IPGenerator::Sequential(g) => IPGenerator::Sequential(g.skip_state(skip)),
            IPGenerator::LCGIP(g) => IPGenerator::LCGIP(g.advanced_state(skip as nat)),
        }
    }

    /// `gen_zip(zip)` returns from this state.
    pub open spec fn can_zip(&self, zip: u32) -> bool {
        match self {
            IPGenerator::LCGIP(g) => g.can_zip(zip),
            _ => true,
        }
    }

    /// The state `gen_zip(zip)` leaves behind.
    pub open spec fn zip_state(&self, zip: u32) -> IPGenerator {
        match self {
            IPGenerator::PoorMans(g) => IPGenerator::PoorMans(*g),
            IPGenerator::Sequential(g) => IPGenerator::Sequential(g.zip_state(zip)),
            IPGenerator::LCGIP(g) => IPGenerator::LCGIP(g.zip_state(zip)),
        }
    }

    /// What `gen_zip(zip)` returns.
    pub open spec fn zip_outcome(&self, zip: u32) -> Result<u32, Seq<char>> {
        match self {
            IPGenerator::PoorMans(_) => Err("not implemented"@),
            IPGenerator::Sequential(_) => Ok(zip),
            IPGenerator::LCGIP(g) => g.zip_outcome(zip),
        }
    }

    /// The last address, as the generator keeps it.
    pub open spec fn last(&self) -> u128 {
        match self {
            IPGenerator::PoorMans(g) => g.las as u128,
            IPGenerator::Sequential(g) => g.las as u128,
            IPGenerator::LCGIP(g) => g.x,
        }
    }

    /// The direction of the walk: random for the shuffled and the
    /// congruential generators.
    pub open spec fn direction(&self) -> GeneratorDirection {
        match self {
            IPGenerator::Sequential(g) => g.dir,
            _ => GeneratorDirection::Random,
        }
    }

    /// The iteration counter, as the generator keeps it.
    pub open spec fn counter(&self) -> u128 {
        match self {
            IPGenerator::PoorMans(g) => g.cn as u128,
            IPGenerator::Sequential(g) => g.cn as u128,
            IPGenerator::LCGIP(g) => g.cn,
        }
    }

    /// The generator can tell where a run ends: every generator but the
    /// shuffled one walks an order in which a last address can be named.
    pub fn can_last(&self) -> (r: bool)
        ensures
            r == !(self is PoorMans),
    {
        match self {
            IPGenerator::PoorMans(_) => false,
            IPGenerator::Sequential(_) => true,
            IPGenerator::LCGIP(_) => true,
        }
    }

    /// The generator a run starts with: the one saved by an earlier run,
    /// when the run continues (`!no_continue`) and one was saved; otherwise
    /// a fresh one of the chosen strategy. A fresh congruential generator is
    /// seeded with `seed` and runs the recurrence of `M_PRIMA`, `C_PRIMA`
    /// and `A_PRIMA`.
    pub fn new(seed: u128, strategy: NumberGenerators, no_continue: bool, saved: Option<
        IPGenerator,
    >) -> (g: Self)
        ensures
            !no_continue && saved is Some ==> g == saved->0,
            no_continue || saved is None ==> match strategy {
                NumberGenerators::PoorMansGen => g matches IPGenerator::PoorMans(p) && p.wf() && p.nx
                    == 0 && p.ny == 0 && p.nz == 0 && p.nw == 0 && p.cn == 0 && p.las == 0,
                NumberGenerators::Sequential => g == IPGenerator::Sequential(
                    SequentialGenerator {
                        dir: GeneratorDirection::Forward,
                        cn: 0,
                        las: 0,
                        xn: 0,
                        yn: 0,
                        zn: 0,
                        wn: 0,
                    },
                ),
                NumberGenerators::LCG => g == IPGenerator::LCGIP(
                    (LCG { x: seed, m: M_PRIMA, c: C_PRIMA, a: A_PRIMA, l: 0, f: 0, cn: 0 }).next_state(),
                ),
            },
    {
        if !no_continue {
            if let Some(g) = saved {
                return g;
            }
        }
        return match strategy {
            NumberGenerators::PoorMansGen => IPGenerator::PoorMans(PoorMans::default()),
            NumberGenerators::Sequential => IPGenerator::Sequential(SequentialGenerator::default()),
            NumberGenerators::LCG => {
                proof {
                    default_recurrence().lemma_lands_in_one_step(seed as int);
                }
                IPGenerator::LCGIP(LCG::new(seed, M_PRIMA, C_PRIMA, A_PRIMA))
            },
        };
    }

    /// The last address: the one last generated, or, for the congruential
    /// generator, the current value of its recurrence.
    pub fn get_las(&self) -> (r: u128)
        ensures
            r == self.last(),
    {
        match self {
            IPGenerator::PoorMans(gen) => gen.las as u128,
            IPGenerator::Sequential(gen) => gen.las as u128,
            IPGenerator::LCGIP(gen) => gen.x,
        }
    }

    /// Moves the generator on by `skip` (see each generator's `skip`).
    pub fn gen_skip(&mut self, skip: u32)
        requires
            old(self).can_skip(skip),
        ensures
            *final(self) == old(self).skip_state(skip),
    {
        match self {
            IPGenerator::PoorMans(gen) => gen.skip(skip),
            IPGenerator::Sequential(gen) => gen.skip(skip),
            IPGenerator::LCGIP(gen) => gen.skip(skip),
        }
    }

    /// Moves the generator to `zip`; the shuffled generator cannot.
    pub fn gen_zip(&mut self, zip: u32) -> (r: Result<u32, &str>)
        requires
            old(self).can_zip(zip),
        ensures
            *final(self) == old(self).zip_state(zip),
            zip_result_view(r) == old(self).zip_outcome(zip),
    {
        match self {
            IPGenerator::PoorMans(_) => {
                return Result::Err("not implemented");
            },
            IPGenerator::Sequential(gen) => {
                return gen.zip(zip);
            },
            IPGenerator::LCGIP(gen) => {
                return gen.zip(zip);
            },
        }
    }

    /// Generates the next address.
    pub fn gen_next(&mut self) -> (msg: GeneratorMessage)
        requires
            old(self).can_step(),
        ensures
            old(self).stepped(*final(self), msg),
    {
        match self {
            IPGenerator::PoorMans(gen) => gen.next(),
            IPGenerator::Sequential(gen) => gen.next(),
            IPGenerator::LCGIP(gen) => gen.next(),
        }
    }

    /// The iteration counter and the last address. The congruential
    /// generator's value must be an address.
    pub fn gen_state(&self) -> (r: (u128, u32))
        requires
            self.last() <= u32::MAX,
        ensures
            r == (self.counter(), self.last() as u32),
    {
        match self {
            IPGenerator::PoorMans(gen) => (gen.cn as u128, gen.las),
            IPGenerator::Sequential(gen) => (gen.cn as u128, gen.las),
            IPGenerator::LCGIP(gen) => (gen.cn, gen.x as u32),
        }
    }

    /// The direction of the walk: random for the shuffled and the
    /// congruential generators.
    pub fn gen_dir(&self) -> (r: GeneratorDirection)
        ensures
            r == self.direction(),
    {
        match self {
            IPGenerator::PoorMans(_) => GeneratorDirection::Random,
            IPGenerator::LCGIP(_) => GeneratorDirection::Random,
            IPGenerator::Sequential(gen) => gen.dir,
        }
    }
}

/// Every generator's last address is an IPv4 address once it has
/// generated one, so `gen_state` can report it (for the congruential
/// generator, whose value is a `u128`, every generated value fits in
/// `u32`), and the message carries that address.
pub proof fn law_state_after_step(g: IPGenerator, h: IPGenerator, msg: GeneratorMessage)
    requires
        g.can_step(),
        g.stepped(h, msg),
    ensures
        h.last() <= u32::MAX,
        msg matches GeneratorMessage::Normal(_, n) ==> n == h.last(),
        msg matches GeneratorMessage::Looped(_, n) ==> n == h.last(),
{
    if let IPGenerator::LCGIP(l) = g {
        l.recurrence().lemma_next_value_range(l.x as int);
    }
}

} // verus!
