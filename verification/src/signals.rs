use vstd::prelude::*;

verus! {

/// The threads that a keyboard interrupt can tell to stop, in the order
/// successive interrupts reach them.
#[derive(Debug, Clone, Copy, PartialEq, Eq, Structural)]
pub enum StopTarget {
    Generator,
    Queryers,
    Writer,
    Display,
}

/// The thread that the interrupt after `count` earlier ones tells to stop:
/// the generator first, then the query threads, the writer and the display;
/// later interrupts reach no one.
pub fn interrupt_target(count: usize) -> (r: Option<StopTarget>)
    ensures
        r == if count == 0 {
            Some(StopTarget::Generator)
        } else if count == 1 {
            Some(StopTarget::Queryers)
        } else if count == 2 {
            Some(StopTarget::Writer)
        } else if count == 3 {
            Some(StopTarget::Display)
        } else {
            None::<StopTarget>
        },
{
    match count {
        0 => Some(StopTarget::Generator),
        1 => Some(StopTarget::Queryers),
        2 => Some(StopTarget::Writer),
        3 => Some(StopTarget::Display),
        _ => None,
    }
}

} // verus!
