//! Facts about powers of two, shifts and exclusive-or that the table
//! arithmetic rests on.
use vstd::prelude::*;
use vstd::arithmetic::power2::pow2;
use vstd::bits::{lemma_u32_shl_is_mul, lemma_u32_shr_is_div, lemma_u32_pow2_no_overflow};

verus! {

/// A nonzero `u32` without two set bits is `1 << k` for some `k`.
pub proof fn lemma_pow2_shape(sl: u32) -> (k: u32)
    requires
        sl > 0,
        sl & ((sl - 1) as u32) == 0,
    ensures
        k < 32,
        sl == 1u32 << k,
{
    assert(sl == 1u32 << 0u32 || sl == 1u32 << 1u32 || sl == 1u32 << 2u32 || sl == 1u32 << 3u32 || sl == 1u32 << 4u32 || sl == 1u32 << 5u32 || sl == 1u32 << 6u32 || sl == 1u32 << 7u32 || sl == 1u32 << 8u32 || sl == 1u32 << 9u32 || sl == 1u32 << 10u32 || sl == 1u32 << 11u32 || sl == 1u32 << 12u32 || sl == 1u32 << 13u32 || sl == 1u32 << 14u32 || sl == 1u32 << 15u32 || sl == 1u32 << 16u32 || sl == 1u32 << 17u32 || sl == 1u32 << 18u32 || sl == 1u32 << 19u32 || sl == 1u32 << 20u32 || sl == 1u32 << 21u32 || sl == 1u32 << 22u32 || sl == 1u32 << 23u32 || sl == 1u32 << 24u32 || sl == 1u32 << 25u32 || sl == 1u32 << 26u32 || sl == 1u32 << 27u32 || sl == 1u32 << 28u32 || sl == 1u32 << 29u32 || sl == 1u32 << 30u32 || sl == 1u32 << 31u32) by (bit_vector)
        requires
            sl > 0,
            sl & ((sl - 1) as u32) == 0,
    ;
    if sl == 1u32 << 0u32 {
        return 0;
    }
    if sl == 1u32 << 1u32 {
        return 1;
    }
    if sl == 1u32 << 2u32 {
        return 2;
    }
    if sl == 1u32 << 3u32 {
        return 3;
    }
    if sl == 1u32 << 4u32 {
        return 4;
    }
    if sl == 1u32 << 5u32 {
        return 5;
    }
    if sl == 1u32 << 6u32 {
        return 6;
    }
    if sl == 1u32 << 7u32 {
        return 7;
    }
    if sl == 1u32 << 8u32 {
        return 8;
    }
    if sl == 1u32 << 9u32 {
        return 9;
    }
    if sl == 1u32 << 10u32 {
        return 10;
    }
    if sl == 1u32 << 11u32 {
        return 11;
    }
    if sl == 1u32 << 12u32 {
        return 12;
    }
    if sl == 1u32 << 13u32 {
        return 13;
    }
    if sl == 1u32 << 14u32 {
        return 14;
    }
    if sl == 1u32 << 15u32 {
        return 15;
    }
    if sl == 1u32 << 16u32 {
        return 16;
    }
    if sl == 1u32 << 17u32 {
        return 17;
    }
    if sl == 1u32 << 18u32 {
        return 18;
    }
    if sl == 1u32 << 19u32 {
        return 19;
    }
    if sl == 1u32 << 20u32 {
        return 20;
    }
    if sl == 1u32 << 21u32 {
        return 21;
    }
    if sl == 1u32 << 22u32 {
        return 22;
    }
    if sl == 1u32 << 23u32 {
        return 23;
    }
    if sl == 1u32 << 24u32 {
        return 24;
    }
    if sl == 1u32 << 25u32 {
        return 25;
    }
    if sl == 1u32 << 26u32 {
        return 26;
    }
    if sl == 1u32 << 27u32 {
        return 27;
    }
    if sl == 1u32 << 28u32 {
        return 28;
    }
    if sl == 1u32 << 29u32 {
        return 29;
    }
    if sl == 1u32 << 30u32 {
        return 30;
    }
    31
}

/// Dividing by `1 << k` is shifting right by `k`.
pub proof fn lemma_div_is_shr(x: u32, k: u32)
    requires
        k < 32,
    ensures
        (x as int) / ((1u32 << k) as int) == (x >> k) as int,
        (1u32 << k) as int == pow2(k as nat),
{
    lemma_u32_pow2_no_overflow(k as nat);
    lemma_u32_shl_is_mul(1, k);
    lemma_u32_shr_is_div(x, k);
}

/// Changing bits below bit `k` leaves the bits from `k` up alone.
pub proof fn lemma_xor_low_bits(x: u32, y: u32, k: u32)
    by (bit_vector)
    requires
        k < 32,
    ensures
        (x ^ (y & (((1u32 << k) - 1) as u32))) >> k == x >> k,
{
}

/// A slot counter holds four times its load (modulo 64) plus the exclusive-or
/// of positions: adding a key at position `p` counts it and flips `p` in.
pub proof fn lemma_count_up(c: u8, w: u8, p: u8)
    by (bit_vector)
    requires
        p < 4,
        w == (if c + 4 > 255 { (c + 4 - 256) as u8 } else { (c + 4) as u8 }),
    ensures
        (w ^ p) >> 2 == (((c >> 2) + 1) % 64) as u8,
        (w ^ p) & 3 == (c & 3) ^ p,
        ((w ^ p) < 4) == ((w ^ p) >> 2 == 0),
{
}

/// Removing a key at position `p` from a counter with a positive load.
pub proof fn lemma_count_down(c: u8, w: u8, p: u8)
    by (bit_vector)
    requires
        p < 4,
        c >> 2 >= 1,
        w == (if c - 4 < 0 { (c - 4 + 256) as u8 } else { (c - 4) as u8 }),
    ensures
        (w ^ p) >> 2 == ((c >> 2) - 1) as u8,
        (w ^ p) & 3 == (c & 3) ^ p,
{
}

/// What a counter says about the slot's load and positions.
pub proof fn lemma_count_fields(c: u8)
    by (bit_vector)
    ensures
        (c < 4) == (c >> 2 == 0),
        (c == 8) == (c >> 2 == 2 && c & 3 == 0),
        c >> 2 < 64,
{
}

/// Within a segment of power-of-two length `sl`, changing the offset bits
/// and moving a whole segment up or down commute.
pub proof fn lemma_segment_step(a: u32, x: u32, sl: u32)
    by (bit_vector)
    requires
        sl > 0,
        sl & ((sl - 1) as u32) == 0,
        x < sl,
    ensures
        a + sl <= 0xffff_ffff ==> (a ^ x) + sl <= 0xffff_ffff && ((a ^ x) + sl) as u32 == ((a + sl) as u32) ^ x,
        a >= sl ==> (a ^ x) >= sl && ((a ^ x) - sl) as u32 == ((a - sl) as u32) ^ x,
{
}

/// What the branch-free selection masks of the peeling step reduce to.
pub proof fn lemma_select_masks(x: u32, y: u32)
    by (bit_vector)
    ensures
        x & 0 == 0,
        x & 0xffff_ffff == x,
        x ^ 0 == x,
        !0u32 == 0xffff_ffffu32,
        !0xffff_ffffu32 == 0u32,
        x ^ (x ^ y) == y,
        0 ^ x == x,
        x & y <= y,
        (x ^ y) ^ y == x,
        (x ^ y) ^ (y ^ 0) == x,
        255u8 >> 7u8 == 1u8,
        0u8 >> 7u8 == 0u8,
        1u8 >> 7u8 == 0u8,
        0u8 & 1u8 == 0u8,
        1u8 & 1u8 == 1u8,
        2u8 & 1u8 == 0u8,
        0u8 >> 1u8 == 0u8,
        1u8 >> 1u8 == 0u8,
        2u8 >> 1u8 == 1u8,
        (0xffff_ffffu32 & 1) | (0u32 & 2) == 1u32,
        (0u32 & 1) | (0xffff_ffffu32 & 2) == 2u32,
        (0u32 & 1) | (0u32 & 2) == 0u32,
        (0xffff_ffffu32 & 2) | (0u32 & 1) == 2u32,
        (0u32 & 2) | (0u32 & 1) == 0u32,
        (0u32 & 2) | (0xffff_ffffu32 & 1) == 1u32,
{
}

/// Exclusive-or rearrangements used when a slot is recovered from its neighbour.
pub proof fn lemma_xor_swap(a: u32, x: u32, y: u32)
    by (bit_vector)
    ensures
        (a ^ x) ^ (x ^ y) == a ^ y,
        (a ^ y) ^ (x ^ y) == a ^ x,
        (a ^ y) ^ (0 ^ y) == a,
{
}

} // verus!
