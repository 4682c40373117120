//! Values a map can hold: anything that round-trips through `u64`.
use vstd::prelude::*;

verus! {

/// A value that can be stored in a map.
///
/// The tables store values as `u64`. Implement this trait for small ID or
/// newtype values that round-trip through `u64`.
pub trait StaticFuseValue: Copy + Sized {
    /// Encodes this value for storage.
    fn into_u64(self) -> u64;

    /// Decodes a stored value.
    fn from_u64(raw: u64) -> Self;
}

impl StaticFuseValue for u8 {
    fn into_u64(self) -> (r: u64)
        ensures
            r == self as u64,
    {
        self as u64
    }

    fn from_u64(raw: u64) -> (r: u8)
        ensures
            r == raw as u8,
    {
        raw as u8
    }
}

impl StaticFuseValue for u16 {
    fn into_u64(self) -> (r: u64)
        ensures
            r == self as u64,
    {
        self as u64
    }

    fn from_u64(raw: u64) -> (r: u16)
        ensures
            r == raw as u16,
    {
        raw as u16
    }
}

impl StaticFuseValue for u32 {
    fn into_u64(self) -> (r: u64)
        ensures
            r == self as u64,
    {
        self as u64
    }

    fn from_u64(raw: u64) -> (r: u32)
        ensures
            r == raw as u32,
    {
        raw as u32
    }
}

impl StaticFuseValue for u64 {
    fn into_u64(self) -> (r: u64)
        ensures
            r == self,
    {
        self
    }

    fn from_u64(raw: u64) -> (r: u64)
        ensures
            r == raw,
    {
        raw
    }
}

impl StaticFuseValue for usize {
    fn into_u64(self) -> (r: u64)
        ensures
            r == self as u64,
    {
        self as u64
    }

    fn from_u64(raw: u64) -> (r: usize)
        ensures
            r == raw as usize,
    {
        raw as usize
    }
}

/// Decoding what a built-in value type encoded gives the value back.
pub proof fn lemma_builtin_round_trip(a: u8, b: u16, c: u32, e: usize)
    ensures
        (a as u64) as u8 == a,
        (b as u64) as u16 == b,
        (c as u64) as u32 == c,
        (e as u64) as usize == e,
{
    assert((a as u64) as u8 == a) by (bit_vector);
    assert((b as u64) as u16 == b) by (bit_vector);
    assert((c as u64) as u32 == c) by (bit_vector);
    assert((e as u64) as usize == e) by (bit_vector);
}

} // verus!
