use vstd::prelude::*;

use crate::generators::GeneratorDirection;

verus! {

/// The largest integer that is an IPv4 address.
pub const MAX_IIP: u128 = 0xFFFF_FFFF;

/// The blocks of the IPv4 space that are not looked up, as inclusive
/// ranges of integers: this network, private networks, shared address
/// space, loopback, link-local, protocol assignments, documentation,
/// benchmarking, multicast and the reserved block up to broadcast.
pub open spec fn spec_no_go_ranges() -> Seq<(u128, u128)> {
    seq![
        (0x0000_0000, 0x00FF_FFFF),
        (0x0A00_0000, 0x0AFF_FFFF),
        (0x6440_0000, 0x647F_FFFF),
        (0x7F00_0000, 0x7FFF_FFFF),
        (0xA9FE_0000, 0xA9FE_FFFF),
        (0xAC10_0000, 0xAC1F_FFFF),
        (0xC000_0000, 0xC000_00FF),
        (0xC000_0200, 0xC000_02FF),
        (0xC0A8_0000, 0xC0A8_FFFF),
        (0xC612_0000, 0xC613_FFFF),
        (0xC633_6400, 0xC633_64FF),
        (0xCB00_7100, 0xCB00_71FF),
        (0xE000_0000, 0xEFFF_FFFF),
        (0xF000_0000, 0xFFFF_FFFF),
    ]
}

/// The blocks that are not looked up.
pub fn no_go_ranges() -> (r: Vec<(u128, u128)>)
    ensures
        r@ == spec_no_go_ranges(),
{
    let r: Vec<(u128, u128)> = vec![
        (0x0000_0000, 0x00FF_FFFF),
        (0x0A00_0000, 0x0AFF_FFFF),
        (0x6440_0000, 0x647F_FFFF),
        (0x7F00_0000, 0x7FFF_FFFF),
        (0xA9FE_0000, 0xA9FE_FFFF),
        (0xAC10_0000, 0xAC1F_FFFF),
        (0xC000_0000, 0xC000_00FF),
        (0xC000_0200, 0xC000_02FF),
        (0xC0A8_0000, 0xC0A8_FFFF),
        (0xC612_0000, 0xC613_FFFF),
        (0xC633_6400, 0xC633_64FF),
        (0xCB00_7100, 0xCB00_71FF),
        (0xE000_0000, 0xEFFF_FFFF),
        (0xF000_0000, 0xFFFF_FFFF),
    ];
    assert(r@ =~= spec_no_go_ranges());
    r
}

/// `num` is worth a lookup: it is an IPv4 address outside every block of
/// `ranges`.
pub open spec fn is_valid_target(num: u128, ranges: Seq<(u128, u128)>) -> bool {
    &&& num <= MAX_IIP
    &&& forall|i: int| 0 <= i < ranges.len() ==> !(#[trigger] ranges[i].0 <= num <= ranges[i].1)
}

/// Whether `num` is worth a reverse lookup: an IPv4 address outside every
/// block that is not looked up.
pub fn check_reserved(num: u128) -> (r: bool)
    ensures
        r == is_valid_target(num, spec_no_go_ranges()),
{
    if num > MAX_IIP {
        return false;
    }
    let ranges = no_go_ranges();
    let mut i: usize = 0;
    while i < ranges.len()
        invariant
            i <= ranges.len(),
            ranges@ == spec_no_go_ranges(),
            num <= MAX_IIP,
            forall|j: int| 0 <= j < i ==> !(#[trigger] ranges@[j].0 <= num <= ranges@[j].1),
        decreases ranges.len() - i,
    {
        let (start, end) = ranges[i];
        if (start <= num) && (num <= end) {
            return false;
        }
        i = i + 1;
    }
    return true;
}

/// What the generator thread does with an address it generated.
#[derive(Debug, Clone, Copy, PartialEq, Eq)]
pub enum ReservedResoult {
    /// The address is worth a lookup: hand it on.
    Valid,
    /// The address lies in a block that is not looked up, and a walk in
    /// its direction leaves the block after this many addresses, the
    /// generated one included.
    Skip(u32),
    /// The address lies in a block that is not looked up, and the walk has
    /// no direction in which to leave it.
    Invalid,
}

/// The first block of `ranges` that holds `num`, if any.
pub open spec fn block_of(num: u128, ranges: Seq<(u128, u128)>) -> Option<(u128, u128)>
    decreases ranges.len(),
{
    if ranges.len() == 0 {
        None
    } else if ranges[0].0 <= num <= ranges[0].1 {
        Some(ranges[0])
    } else {
        block_of(num, ranges.drop_first())
    }
}

/// The answer for the address `num` generated by a walk in direction
/// `dir`: valid outside every block that is not looked up; inside one, the
/// number of addresses from `num` to the block's end (forward) or start
/// (backward), both included, or invalid for a walk in random order.
pub open spec fn reserved_answer(num: u32, dir: GeneratorDirection) -> ReservedResoult {
    match block_of(num as u128, spec_no_go_ranges()) {
        None => ReservedResoult::Valid,
        Some(b) => match dir {
            GeneratorDirection::Forward => ReservedResoult::Skip((b.1 - num + 1) as u32),
            GeneratorDirection::Backward => ReservedResoult::Skip((num - b.0 + 1) as u32),
            GeneratorDirection::Random => ReservedResoult::Invalid,
        },
    }
}

/// An address is in no block exactly when it is worth a lookup.
pub proof fn lemma_block_of_valid(num: u128, ranges: Seq<(u128, u128)>)
    requires
        num <= MAX_IIP,
    ensures
        (block_of(num, ranges) is None) == is_valid_target(num, ranges),
        block_of(num, ranges) matches Some(b) ==> b.0 <= num <= b.1,
    decreases ranges.len(),
{
    if ranges.len() > 0 {
        let rest = ranges.drop_first();
        lemma_block_of_valid(num, rest);
        if !(ranges[0].0 <= num <= ranges[0].1) {
            assert forall|i: int| 0 <= i < ranges.len() && #[trigger] ranges[i].0 <= num
                <= ranges[i].1 implies i == 0 || rest[i - 1].0 <= num <= rest[i - 1].1 by {}
            if is_valid_target(num, ranges) {
                assert forall|i: int| 0 <= i < rest.len() implies !(#[trigger] rest[i].0 <= num
                    <= rest[i].1) by {
                    assert(rest[i] == ranges[i + 1]);
                }
            }
        }
    }
}

/// What the generator thread does with the address `num` that a walk in
/// direction `dir` generated: `Valid` exactly when `check_reserved(num)`
/// holds.
pub fn check_reserved_toward(num: u32, dir: GeneratorDirection) -> (r: ReservedResoult)
    ensures
        r == reserved_answer(num, dir),
        (r == ReservedResoult::Valid) == is_valid_target(num as u128, spec_no_go_ranges()),
{
    proof {
        lemma_block_of_valid(num as u128, spec_no_go_ranges());
    }
    let ranges = no_go_ranges();
    let n: u128 = num as u128;
    let mut i: usize = 0;
    assert(ranges@.skip(0) =~= ranges@);
    while i < ranges.len()
        invariant
            i <= ranges.len(),
            ranges@ == spec_no_go_ranges(),
            n == num as u128,
            block_of(n, ranges@) == block_of(n, ranges@.skip(i as int)),
        decreases ranges.len() - i,
    {
        let (start, end) = ranges[i];
        assert(ranges@.skip(i as int)[0] == ranges@[i as int]);
        if start <= n && n <= end {
            assert(block_of(n, ranges@) == Some((start, end)));
            let r = match dir {
                GeneratorDirection::Forward => ReservedResoult::Skip((end - n + 1) as u32),
                GeneratorDirection::Backward => ReservedResoult::Skip((n - start + 1) as u32),
                GeneratorDirection::Random => ReservedResoult::Invalid,
            };
            assert(block_of(n, ranges@) == Some((start, end)));
            assert(r == reserved_answer(num, dir));
            return r;
        }
        assert(ranges@.skip(i as int).drop_first() =~= ranges@.skip(i + 1));
        i = i + 1;
    }
    ReservedResoult::Valid
}

} // verus!
