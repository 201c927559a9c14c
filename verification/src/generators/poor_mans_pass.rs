use vstd::prelude::*;

use super::poor_mans_ip_generator::{
    all_octets, cascade, dealt_index, is_deck, law_odometer, lemma_cascade_bounds, PoorMans,
};
use super::GeneratorMessage;
use crate::octets::pack_le;

verus! {

/// Step `k` of a run: `states[k + 1]` and `msgs[k]` are a dealing from
/// `states[k]`, as every call of `next` is, whatever its counter does.
pub open spec fn run_step(states: Seq<PoorMans>, msgs: Seq<GeneratorMessage>, k: int) -> bool {
    states[k].wf() && states[k].deals(states[k + 1], msgs[k])
}

/// `states` and `msgs` are a run of dealings, one message per call; every
/// run of `next` is one (`stepped` implies `deals`), and so is a run whose
/// counter wraps around.
pub open spec fn is_run(states: Seq<PoorMans>, msgs: Seq<GeneratorMessage>) -> bool {
    &&& states.len() == msgs.len() + 1
    &&& forall|k: int| 0 <= k < msgs.len() ==> #[trigger] run_step(states, msgs, k)
}

/// A fresh state: every deck holds each octet once and no position has
/// moved.
pub open spec fn fresh(g: PoorMans) -> bool {
    g.wf() && g.nx == 0 && g.ny == 0 && g.nz == 0 && g.nw == 0
}

/// A state that has dealt, from positions within the decks.
pub open spec fn has_dealt(s: PoorMans) -> bool {
    s.nx < 256 && s.ny < 256 && s.nz < 256 && 1 <= s.nw <= 256
}

/// The positions in the first deck.
pub open spec fn key1(s: PoorMans) -> int {
    s.nx as int
}

/// The positions in the first two decks, as one number.
pub open spec fn key2(s: PoorMans) -> int {
    s.nx * 0x100 + s.ny
}

/// The positions in the first three decks, as one number.
pub open spec fn key3(s: PoorMans) -> int {
    s.nx * 0x1_0000 + s.ny * 0x100 + s.nz
}

/// The address a state that has dealt last generated.
pub open spec fn dealt_address(s: PoorMans) -> u32 {
    pack_le(s.xs@[s.nx as int], s.ys@[s.ny as int], s.zs@[s.nz as int], s.ws@[s.nw - 1])
}

/// The octets 0 to 255 are all different.
pub proof fn lemma_all_octets_distinct()
    ensures
        all_octets().no_duplicates(),
{
    assert forall|i: int, j: int|
        0 <= i < all_octets().len() && 0 <= j < all_octets().len() && i != j implies all_octets()[i]
        != all_octets()[j] by {
        assert(all_octets()[i] == i as u8);
        assert(all_octets()[j] == j as u8);
    }
}

/// A deck holds no octet twice.
pub proof fn lemma_deck_distinct(d: Seq<u8>)
    requires
        is_deck(d),
    ensures
        d.no_duplicates(),
{
    lemma_all_octets_distinct();
    all_octets().lemma_multiset_has_no_duplicates();
    d.lemma_multiset_has_no_duplicates_conv();
}

/// Different octets make different addresses.
proof fn lemma_pack_le_injective(x: u8, y: u8, z: u8, w: u8, x2: u8, y2: u8, z2: u8, w2: u8)
    requires
        pack_le(x, y, z, w) == pack_le(x2, y2, z2, w2),
    ensures
        x == x2 && y == y2 && z == z2 && w == w2,
{
    assert(x + y * 0x100 + z * 0x1_0000 + w * 0x100_0000 <= u32::MAX);
    assert(x2 + y2 * 0x100 + z2 * 0x1_0000 + w2 * 0x100_0000 <= u32::MAX);
}

/// The first call of `next` on a fresh state deals from the first position
/// of every deck and reshuffles nothing.
proof fn lemma_first_step(g: PoorMans, h: PoorMans, msg: GeneratorMessage)
    requires
        fresh(g),
        g.deals(h, msg),
    ensures
        has_dealt(h),
        dealt_index(h) == 0,
        msg is Normal,
        h.xs@ == g.xs@,
        key1(h) == 0 && key2(h) == 0 && key3(h) == 0,
        h.las == dealt_address(h),
{
}

/// Within a pass, one call of `next` deals from the next tuple of
/// positions, reshuffles no first deck, and reshuffles a later deck
/// exactly when the positions in the decks before it move on.
proof fn lemma_pass_step(g: PoorMans, h: PoorMans, msg: GeneratorMessage)
    requires
        g.wf(),
        g.deals(h, msg),
        has_dealt(g),
        dealt_index(g) < 0xFFFF_FFFF,
    ensures
        has_dealt(h),
        dealt_index(h) == dealt_index(g) + 1,
        msg is Normal,
        h.las == dealt_address(h),
        h.xs@ == g.xs@,
        key1(h) == key1(g) || (key1(h) == key1(g) + 1),
        key1(h) == key1(g) ==> h.ys@ == g.ys@,
        key2(h) == key2(g) || (key2(h) == key2(g) + 1),
        key2(h) == key2(g) ==> h.zs@ == g.zs@,
        key3(h) == key3(g) || (key3(h) == key3(g) + 1),
        key3(h) == key3(g) ==> h.ws@ == g.ws@,
{
    reveal_with_fuel(cascade, 6);
    lemma_cascade_bounds(g.nx as int, g.ny as int, g.nz as int, g.nw as int);
    law_odometer(g, h, msg);
}

/// In a run from a fresh state, the `k`-th call of `next` (for `k` up to
/// 2^32) deals from tuple `k - 1` and keeps the first deck.
proof fn lemma_run_index(states: Seq<PoorMans>, msgs: Seq<GeneratorMessage>, k: int)
    requires
        is_run(states, msgs),
        fresh(states[0]),
        1 <= k <= msgs.len(),
        k <= 0x1_0000_0000,
    ensures
        has_dealt(states[k]),
        dealt_index(states[k]) == k - 1,
        msgs[k - 1] is Normal,
        states[k].las == dealt_address(states[k]),
        states[k].xs@ == states[1].xs@,
    decreases k,
{
    assert(run_step(states, msgs, k - 1));
    if k == 1 {
        lemma_first_step(states[0], states[1], msgs[0]);
    } else {
        lemma_run_index(states, msgs, k - 1);
        lemma_pass_step(states[k - 1], states[k], msgs[k - 1]);
    }
}

/// Between two calls of a pass, the positions in the first decks only move
/// on, and a deck is the same as long as the positions in the decks before
/// it have not moved.
proof fn lemma_run_decks(states: Seq<PoorMans>, msgs: Seq<GeneratorMessage>, i: int, j: int)
    requires
        is_run(states, msgs),
        fresh(states[0]),
        1 <= i <= j <= msgs.len(),
        j <= 0x1_0000_0000,
    ensures
        states[i].xs@ == states[j].xs@,
        key1(states[i]) <= key1(states[j]),
        key2(states[i]) <= key2(states[j]),
        key3(states[i]) <= key3(states[j]),
        key1(states[i]) == key1(states[j]) ==> states[i].ys@ == states[j].ys@,
        key2(states[i]) == key2(states[j]) ==> states[i].zs@ == states[j].zs@,
        key3(states[i]) == key3(states[j]) ==> states[i].ws@ == states[j].ws@,
    decreases j - i,
{
    if i < j {
        lemma_run_decks(states, msgs, i, j - 1);
        lemma_run_index(states, msgs, j - 1);
        lemma_run_index(states, msgs, j);
        assert(run_step(states, msgs, j - 1));
        lemma_pass_step(states[j - 1], states[j], msgs[j - 1]);
    }
}

/// One pass of the shuffled decks generates every address at most once:
/// from a fresh state, the first 2^32 dealings give 2^32 different
/// addresses, none of them `Looped`, so each address comes exactly once.
/// A run of `next` can only be that long in `u32` arithmetic that wraps:
/// `next` counts its calls in a `u32` and asks that the count not overflow,
/// which this law does not ask.
pub proof fn law_pass_distinct(states: Seq<PoorMans>, msgs: Seq<GeneratorMessage>, i: int, j: int)
    requires
        is_run(states, msgs),
        fresh(states[0]),
        1 <= i < j <= msgs.len(),
        j <= 0x1_0000_0000,
    ensures
        msgs[i - 1] is Normal,
        msgs[j - 1] is Normal,
        states[i].las != states[j].las,
{
    lemma_run_index(states, msgs, i);
    lemma_run_index(states, msgs, j);
    lemma_run_decks(states, msgs, i, j);
    let a = states[i];
    let b = states[j];
    assert(a.wf() && b.wf()) by {
        assert(run_step(states, msgs, i - 1));
        assert(run_step(states, msgs, j - 1));
    }
    if a.las == b.las {
        lemma_pack_le_injective(
            a.xs@[a.nx as int],
            a.ys@[a.ny as int],
            a.zs@[a.nz as int],
            a.ws@[a.nw - 1],
            b.xs@[b.nx as int],
            b.ys@[b.ny as int],
            b.zs@[b.nz as int],
            b.ws@[b.nw - 1],
        );
        lemma_deck_distinct(a.xs@);
        lemma_deck_distinct(a.ys@);
        lemma_deck_distinct(a.zs@);
        lemma_deck_distinct(a.ws@);
        super::poor_mans_ip_generator::lemma_deck_len(a.xs@);
        super::poor_mans_ip_generator::lemma_deck_len(a.ys@);
        super::poor_mans_ip_generator::lemma_deck_len(a.zs@);
        super::poor_mans_ip_generator::lemma_deck_len(a.ws@);
        assert(a.nx == b.nx);
        assert(a.ny == b.ny);
        assert(a.nz == b.nz);
        assert(a.nw == b.nw);
        assert(false);
    }
}

/// The call after a full pass of 2^32 dealings from a fresh state goes all
/// the way around: its message is `Looped`.
pub proof fn law_pass_ends_looped(states: Seq<PoorMans>, msgs: Seq<GeneratorMessage>)
    requires
        is_run(states, msgs),
        fresh(states[0]),
        msgs.len() > 0x1_0000_0000,
    ensures
        msgs[0x1_0000_0000] is Looped,
{
    let n: int = 0x1_0000_0000;
    lemma_run_index(states, msgs, n);
    assert(run_step(states, msgs, n));
    law_odometer(states[n], states[n + 1], msgs[n]);
}

} // verus!
