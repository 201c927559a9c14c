use vstd::prelude::*;

use super::{GeneratorMessage, IPGenerator};
use crate::message::MessageToCheck;
use crate::resolv::{
    check_reserved_toward, is_valid_target, lemma_block_of_valid, reserved_answer, spec_no_go_ranges,
    ReservedResoult,
};

verus! {

/// Why the generator thread stops generating.
#[derive(Debug, Clone, Copy, PartialEq, Eq)]
pub enum StopReason {
    /// The generator went all the way around its space.
    WentAround,
    /// The generator reached the last address of the run.
    ReachedLast,
}

/// What the generator thread does after one round of its loop.
#[derive(Debug, Clone)]
pub enum GenerateStep {
    /// The queue of addresses to check is full: wait for the query threads.
    Wait,
    /// An address was generated.
    Generated {
        /// The address to hand to the query threads, if any.
        to_check: Option<MessageToCheck>,
        /// Whether the loop ends here, and why.
        stop: Option<StopReason>,
        /// Whether the generator's state is to be saved now.
        checkpoint: bool,
    },
}

/// How often, in iterations, the generator's state is saved.
pub const CHECKPOINT_EVERY: u128 = 15000;

/// The two parts in which a skip is handed to the generator, whose skip
/// takes at most `u32::MAX` at a time.
pub open spec fn skip_parts(skip: u128) -> (u32, u32) {
    if skip > u32::MAX {
        (u32::MAX, (skip - u32::MAX) as u32)
    } else {
        (0, skip as u32)
    }
}

/// `prepare` returns on `g`: the skip fits in two parts, each part that is
/// not zero can be skipped, and the zip, when asked for, can be made.
pub open spec fn can_prepare(g: IPGenerator, skip: u128, zip: u32, use_zip: bool) -> bool {
    let (p1, p2) = skip_parts(skip);
    let g1 = if skip > u32::MAX {
        g.skip_state(p1)
    } else {
        g
    };
    let g2 = if p2 != 0 {
        g1.skip_state(p2)
    } else {
        g1
    };
    &&& skip <= 2 * (u32::MAX as int)
    &&& skip > u32::MAX ==> g.can_skip(p1)
    &&& p2 != 0 ==> g1.can_skip(p2)
    &&& use_zip ==> g2.can_zip(zip)
}

/// The generator after `prepare`, and what it returns.
pub open spec fn prepared(g: IPGenerator, skip: u128, zip: u32, use_zip: bool) -> (
    IPGenerator,
    Result<(), Seq<char>>,
) {
    let (p1, p2) = skip_parts(skip);
    let g1 = if skip > u32::MAX {
        g.skip_state(p1)
    } else {
        g
    };
    let g2 = if p2 != 0 {
        g1.skip_state(p2)
    } else {
        g1
    };
    if use_zip {
        (
            g2.zip_state(zip),
            match g2.zip_outcome(zip) {
                Ok(_) => Ok(()),
                Err(e) => Err(e),
            },
        )
    } else {
        (g2, Ok(()))
    }
}

/// Brings a fresh generator to where the run starts: skips `skip`
/// iterations, in parts of at most `u32::MAX`, then, if asked, zips it to
/// `zip`. A failed zip is returned.
pub fn prepare(generator: &mut IPGenerator, skip: u128, zip: u32, use_zip: bool) -> (r: Result<
    (),
    &str,
>)
    requires
        can_prepare(*old(generator), skip, zip, use_zip),
    ensures
        (*final(generator), match r {
            Ok(_) => Ok(()),
            Err(e) => Err(e@),
        }) == prepared(*old(generator), skip, zip, use_zip),
{
    let mut skip: u128 = skip;
    if skip > u32::MAX as u128 {
        generator.gen_skip(u32::MAX);
        skip -= u32::MAX as u128;
    }
    if skip != 0 {
        generator.gen_skip(skip as u32);
    }
    if use_zip {
        match generator.gen_zip(zip) {
            Ok(_) => {},
            Err(e) => {
                return Err(e);
            },
        }
    }
    Ok(())
}

/// The skip that moves a sequential walk past the rest of a block that
/// holds `n` more addresses, the generated one included.
pub open spec fn block_skip(n: u32) -> u32 {
    if n > 0 {
        (n - 1) as u32
    } else {
        0
    }
}

/// The generator after the generator thread dealt with the address `nu`
/// that `mid` generated, and what it hands to the query threads: an
/// address worth a lookup is handed on; one in a block that is not looked
/// up is not, and a sequential walk skips the rest of that block.
pub open spec fn filtered(mid: IPGenerator, co: u128, nu: u32) -> (IPGenerator, Option<
    MessageToCheck,
>) {
    match reserved_answer(nu, mid.direction()) {
        ReservedResoult::Valid => (mid, Some(MessageToCheck::ToCheck(co, nu))),
        ReservedResoult::Skip(n) => (
            if mid is Sequential {
                mid.skip_state(block_skip(n))
            } else {
                mid
            },
            None,
        ),
        ReservedResoult::Invalid => (mid, None),
    }
}

/// What a round that generated `msg` and left `mid` ends with: the
/// generator and the report. A `Looped` address ends the loop. A `Normal`
/// one is filtered; then a generator that can name a last address stops
/// once it is at `last`, and otherwise the state is saved every
/// `CHECKPOINT_EVERY` iterations.
pub open spec fn round_outcome(mid: IPGenerator, msg: GeneratorMessage, last: u128) -> (
    IPGenerator,
    GenerateStep,
) {
    match msg {
        GeneratorMessage::Looped(_, _) => (
            mid,
            GenerateStep::Generated {
                to_check: None,
                stop: Some(StopReason::WentAround),
                checkpoint: false,
            },
        ),
        GeneratorMessage::Normal(co, nu) => {
            let (after, to_check) = filtered(mid, co, nu);
            if !(after is PoorMans) && after.last() == last {
                (
                    after,
                    GenerateStep::Generated {
                        to_check,
                        stop: Some(StopReason::ReachedLast),
                        checkpoint: false,
                    },
                )
            } else {
                (
                    after,
                    GenerateStep::Generated {
                        to_check,
                        stop: None,
                        checkpoint: after.counter() % CHECKPOINT_EVERY == 0,
                    },
                )
            }
        },
    }
}

/// One round of the generator thread's loop, while it has not been told to
/// stop: with room in the queue (`queue_len < queue_limit`) the generator
/// generates an address and the round ends as `round_outcome` says;
/// otherwise the thread waits.
pub fn generate_step(generator: &mut IPGenerator, queue_len: usize, queue_limit: usize, last: u128) -> (step: GenerateStep)
    requires
        queue_len < queue_limit ==> old(generator).can_step(),
    ensures
        queue_len >= queue_limit ==> step is Wait && *final(generator) == *old(generator),
        queue_len < queue_limit ==> exists|mid: IPGenerator, msg: GeneratorMessage|
            old(generator).stepped(mid, msg) && (*final(generator), step) == round_outcome(
                mid,
                msg,
                last,
            ),
        *old(generator) is PoorMans ==> !(step matches GenerateStep::Generated { stop, .. } && stop
            == Some(StopReason::ReachedLast)),
{
    if queue_len >= queue_limit {
        return GenerateStep::Wait;
    }
    let ghost before = *generator;
    let msg = generator.gen_next();
    let ghost mid = *generator;
    proof {
        if let IPGenerator::LCGIP(g) = before {
            g.recurrence().lemma_next_value_range(g.x as int);
        }
    }
    let step = match msg {
        GeneratorMessage::Normal(co, nu) => {
            let to_check = match check_reserved_toward(nu, generator.gen_dir()) {
                ReservedResoult::Valid => Some(MessageToCheck::ToCheck(co, nu)),
                ReservedResoult::Skip(n) => {
                    match generator {
                        IPGenerator::Sequential(_) => {
                            let k: u32 = if n > 0 {
                                n - 1
                            } else {
                                0
                            };
                            generator.gen_skip(k);
                        },
                        IPGenerator::PoorMans(_) => {},
                        IPGenerator::LCGIP(_) => {},
                    }
                    None
                },
                ReservedResoult::Invalid => None,
            };
            if generator.can_last() && last == generator.get_las() {
                GenerateStep::Generated {
                    to_check,
                    stop: Some(StopReason::ReachedLast),
                    checkpoint: false,
                }
            } else {
                let checkpoint = generator.gen_state().0 % CHECKPOINT_EVERY == 0;
                GenerateStep::Generated { to_check, stop: None, checkpoint }
            }
        },
        GeneratorMessage::Looped(_, _) => GenerateStep::Generated {
            to_check: None,
            stop: Some(StopReason::WentAround),
            checkpoint: false,
        },
    };
    assert(before.stepped(mid, msg) && (*generator, step) == round_outcome(mid, msg, last));
    proof {
        if before is PoorMans {
            law_shuffled_never_reaches_last(mid, msg, last);
        }
    }
    step
}

/// The generator thread hands on only addresses worth a lookup, each as
/// it was generated, and never a `Looped` one.
pub proof fn law_hands_on_only_valid(mid: IPGenerator, msg: GeneratorMessage, last: u128)
    ensures
        round_outcome(mid, msg, last).1 matches GenerateStep::Generated { to_check, .. } && to_check
            matches Some(m) ==> msg is Normal && m == MessageToCheck::ToCheck(msg->Normal_0, msg->Normal_1)
            && is_valid_target(msg->Normal_1 as u128, spec_no_go_ranges()),
{
    if let GeneratorMessage::Normal(co, nu) = msg {
        lemma_block_of_valid(nu as u128, spec_no_go_ranges());
    }
}

/// The shuffled generator cannot name a last address, so a round of it
/// never ends the run at `last`, whatever `last` is: only a generator
/// that walks an order stops there.
pub proof fn law_shuffled_never_reaches_last(mid: IPGenerator, msg: GeneratorMessage, last: u128)
    requires
        mid is PoorMans,
    ensures
        round_outcome(mid, msg, last).0 is PoorMans,
        !(round_outcome(mid, msg, last).1 matches GenerateStep::Generated { stop, .. } && stop
            == Some(StopReason::ReachedLast)),
{
}

} // verus!
