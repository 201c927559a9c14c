use vstd::prelude::*;

verus! {

/// `Duration` is `Copy`; std documents its `Clone` as giving back the same
/// span of time, which is all that is claimed here.
pub assume_specification[<core::time::Duration as Clone>::clone](d: &core::time::Duration) -> (r: core::time::Duration)
    ensures
        r == *d,
;

/// Work handed from the generator thread to the query threads.
#[derive(Clone, Debug, PartialEq)]
pub enum MessageToCheck {
    EmptyQueue,
    ToCheck(u128, u32),
    End,
}

/// A record (address, host name) handed to the writer thread.
#[derive(Clone, Debug, PartialEq)]
pub enum MessageToWrite {
    EmptyQueue,
    ToWrite(String, String),
    End,
}

/// The thread a line of output comes from.
#[derive(Clone, Debug, PartialEq)]
pub enum MessageToPrintOrigin {
    CustomThread(String),
    GeneratorThread,
    QueryerThread,
    WriterThread,
    DisplayThread,
    MainThread,
}

/// Work handed to the display thread.
#[derive(Clone, Debug, PartialEq)]
pub enum MessageToPrint {
    EmptyQueue,
    ToDisplay(MessageToPrintOrigin, String),
    Wait(std::time::Duration),
    End,
}

} // verus!
