use vstd::prelude::*;

verus! {

/// The four octets of an address, most significant first (`a.b.c.d`).
pub open spec fn octets_of(v: u32) -> (u8, u8, u8, u8) {
    (
        ((v / 0x100_0000) % 0x100) as u8,
        ((v / 0x1_0000) % 0x100) as u8,
        ((v / 0x100) % 0x100) as u8,
        (v % 0x100) as u8,
    )
}

/// The number whose bytes, least significant first, are `x, y, z, w`.
pub open spec fn pack_le(x: u8, y: u8, z: u8, w: u8) -> u32 {
    (x + y * 0x100 + z * 0x1_0000 + w * 0x100_0000) as u32
}

/// The address with its four bytes in reverse order.
pub open spec fn swap_bytes(v: u32) -> u32 {
    ((v % 0x100) * 0x100_0000 + ((v / 0x100) % 0x100) * 0x1_0000 + ((v / 0x1_0000) % 0x100)
        * 0x100 + (v / 0x100_0000) % 0x100) as u32
}

/// The number whose bytes, most significant first, are `a, b, c, d`.
pub open spec fn pack_be(a: u8, b: u8, c: u8, d: u8) -> u32 {
    (a * 0x100_0000 + b * 0x1_0000 + c * 0x100 + d) as u32
}

/// The four octets of an address put back together, most significant
/// first, give the address.
pub proof fn law_octets_recompose(v: u32)
    ensures
        pack_be(octets_of(v).0, octets_of(v).1, octets_of(v).2, octets_of(v).3) == v,
{
    assert(((v / 0x100_0000) % 0x100) * 0x100_0000 + ((v / 0x1_0000) % 0x100) * 0x1_0000 + ((v
        / 0x100) % 0x100) * 0x100 + v % 0x100 == v) by (bit_vector);
}

/// The octets of an address, put back together least significant first,
/// give the address with its bytes reversed; reversing twice gives the
/// address back.
pub proof fn law_pack_le_reverses(v: u32)
    ensures
        pack_le(octets_of(v).0, octets_of(v).1, octets_of(v).2, octets_of(v).3) == swap_bytes(v),
        swap_bytes(swap_bytes(v)) == v,
{
    let s = swap_bytes(v);
    assert(s == ((v % 0x100) * 0x100_0000 + ((v / 0x100) % 0x100) * 0x1_0000 + ((v / 0x1_0000)
        % 0x100) * 0x100 + (v / 0x100_0000) % 0x100));
    assert(((v % 0x100) * 0x100_0000 + ((v / 0x100) % 0x100) * 0x1_0000 + ((v / 0x1_0000) % 0x100)
        * 0x100 + (v / 0x100_0000) % 0x100) <= u32::MAX) by (bit_vector);
    assert({
        let t: u32 = ((v % 0x100) * 0x100_0000 + ((v / 0x100) % 0x100) * 0x1_0000 + ((v
            / 0x1_0000) % 0x100) * 0x100 + (v / 0x100_0000) % 0x100) as u32;
        ((t % 0x100) * 0x100_0000 + ((t / 0x100) % 0x100) * 0x1_0000 + ((t / 0x1_0000) % 0x100)
            * 0x100 + (t / 0x100_0000) % 0x100) == v
    }) by (bit_vector);
}

/// The octets of `las`: `(v >> 24) & 0xFF`, and so on down to `v & 0xFF`.
pub proof fn lemma_octets_by_shifts(v: u32)
    ensures
        (v >> 24u32) & 0xFFu32 == (v / 0x100_0000) % 0x100,
        (v >> 16u32) & 0xFFu32 == (v / 0x1_0000) % 0x100,
        (v >> 8u32) & 0xFFu32 == (v / 0x100) % 0x100,
        (v >> 0u32) & 0xFFu32 == v % 0x100,
{
    assert((v >> 24u32) & 0xFFu32 == (v / 0x100_0000) % 0x100) by (bit_vector);
    assert((v >> 16u32) & 0xFFu32 == (v / 0x1_0000) % 0x100) by (bit_vector);
    assert((v >> 8u32) & 0xFFu32 == (v / 0x100) % 0x100) by (bit_vector);
    assert((v >> 0u32) & 0xFFu32 == v % 0x100) by (bit_vector);
}

/// Shifting an octet left by whole bytes multiplies it.
pub proof fn lemma_octet_shifts(x: u32, y: u32, z: u32, w: u32)
    requires
        x < 0x100,
        y < 0x100,
        z < 0x100,
        w < 0x100,
    ensures
        x << 0u32 == x,
        y << 8u32 == y * 0x100,
        z << 16u32 == z * 0x1_0000,
        w << 24u32 == w * 0x100_0000,
{
    assert(x << 0u32 == x) by (bit_vector);
    assert(y < 0x100 ==> y << 8u32 == y * 0x100) by (bit_vector);
    assert(z < 0x100 ==> z << 16u32 == z * 0x1_0000) by (bit_vector);
    assert(w < 0x100 ==> w << 24u32 == w * 0x100_0000) by (bit_vector);
}

} // verus!
