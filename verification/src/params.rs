//! Table geometry: how a map's slots are split into segments, and where a
//! mixed hash lands.
use vstd::prelude::*;
use vstd::arithmetic::power2::{pow2, lemma2_to64, lemma2_to64_rest};
use vstd::bits::lemma_u128_shr_is_div;
use crate::bits::{lemma_pow2_shape, lemma_div_is_shr, lemma_xor_low_bits};

verus! {

/// Largest segment length a table is built with.
pub const MAX_SEGMENT_LENGTH: u32 = 262_144;

/// 2^64, the divisor that turns a 64-bit hash times a count into a fraction of that count.
pub open spec fn two_pow_64() -> int {
    0x1_0000_0000_0000_0000
}

/// `x` is a nonzero power of two.
pub open spec fn is_pow2(x: u32) -> bool {
    x > 0 && x & sub_one(x) == 0
}

/// `x - 1` for a positive `x`.
pub open spec fn sub_one(x: u32) -> u32 {
    (x - 1) as u32
}

/// The sizes that the floating-point sizing rule derives from a key count.
///
/// `segment_length` is `1 << floor(ln(len) / ln(3.33) + 2.25)` (4 for no keys)
/// and `capacity` is `round(len * max(1.125, 0.875 + 0.25 * ln(10^6) / ln(len)))`.
/// Both are computed outside this crate, where floating point is available.
#[derive(Clone, Copy, Debug)]
pub struct Sizing {
    pub segment_length: u32,
    pub capacity: u32,
}

impl Sizing {
    /// What the construction needs of a sizing: a power-of-two segment length of at least 4.
    pub open spec fn wf(self) -> bool {
        &&& is_pow2(self.segment_length)
        &&& 4 <= self.segment_length
    }
}

/// Why stored map parameters were rejected.
#[derive(Clone, Copy, Debug, PartialEq, Eq)]
pub enum ParamsError {
    InvalidEmpty,
    SegmentLengthNotPowerOfTwo,
    InvalidSegmentLengthMask,
    ZeroSegmentCount,
    InvalidSegmentCountLength,
    IndexSpaceOverflow,
    DataLengthMismatch,
    ChecksLengthMismatch,
}

impl ParamsError {
    /// The text that describes this error.
    pub fn message(&self) -> (m: &'static str)
        ensures
            *self == ParamsError::InvalidEmpty ==> m == "invalid empty map parameters",
            *self == ParamsError::SegmentLengthNotPowerOfTwo ==> m == "segment length must be a nonzero power of two",
            *self == ParamsError::InvalidSegmentLengthMask ==> m == "invalid segment length mask",
            *self == ParamsError::ZeroSegmentCount ==> m == "segment count must be nonzero",
            *self == ParamsError::InvalidSegmentCountLength ==> m == "invalid segment count length",
            *self == ParamsError::IndexSpaceOverflow ==> m == "segments exceed the 32-bit index space",
            *self == ParamsError::DataLengthMismatch ==> m == "data length does not match parameters",
            *self == ParamsError::ChecksLengthMismatch ==> m == "checks length does not match data length",
    {
        match self {
            ParamsError::InvalidEmpty => "invalid empty map parameters",
            ParamsError::SegmentLengthNotPowerOfTwo => "segment length must be a nonzero power of two",
            ParamsError::InvalidSegmentLengthMask => "invalid segment length mask",
            ParamsError::ZeroSegmentCount => "segment count must be nonzero",
            ParamsError::InvalidSegmentCountLength => "invalid segment count length",
            ParamsError::IndexSpaceOverflow => "segments exceed the 32-bit index space",
            ParamsError::DataLengthMismatch => "data length does not match parameters",
            ParamsError::ChecksLengthMismatch => "checks length does not match data length",
        }
    }
}

/// Geometry and seed of a built table.
#[derive(Clone, Copy, Debug)]
pub struct Params {
    pub seed: u64,
    pub segment_length: u32,
    pub segment_length_mask: u32,
    pub segment_count: u32,
    pub segment_count_length: u32,
    pub len: usize,
}

/// The segment length after the cap is applied.
pub open spec fn clamped_segment_length(s: Sizing) -> u32 {
    if s.segment_length > MAX_SEGMENT_LENGTH {
        MAX_SEGMENT_LENGTH
    } else {
        s.segment_length
    }
}

/// Number of segments, the two trailing ones included, that a key count is given.
pub open spec fn total_segment_count(size: u32, s: Sizing) -> int {
    let sl = clamped_segment_length(s) as int;
    let capacity: int = if size > 1 { s.capacity as int } else { 0 };
    let t = (capacity + sl - 1) / sl;
    if t < 3 { 3 } else { t }
}

/// A table of `n` slots can be addressed: every slot index fits in `u32`
/// (at most 2^32 slots) and the slot count fits in `usize`.
pub open spec fn slots_fit(n: int) -> bool {
    n <= 0x1_0000_0000 && n <= usize::MAX
}

/// The segments of a sizing fit the 32-bit index space.
pub open spec fn sizing_fits(size: u32, s: Sizing) -> bool {
    slots_fit(total_segment_count(size, s) * clamped_segment_length(s))
}

/// Where `usize` has room for 2^32, every sizing fits: the capped segment
/// length divides 2^32, so rounding the slot count up to whole segments
/// never passes 2^32.
pub proof fn lemma_sizing_fits_wide(size: u32, s: Sizing)
    requires
        s.wf(),
        usize::MAX >= 0x1_0000_0000,
    ensures
        sizing_fits(size, s),
{
    let sl = clamped_segment_length(s);
    assert(262144u32 & 262143u32 == 0u32) by (bit_vector);
    assert(sl > 0 && sl & ((sl - 1) as u32) == 0);
    let k = lemma_pow2_shape(sl);
    lemma_div_is_shr(0, k);
    lemma2_to64();
    lemma2_to64_rest();
    if k > 18 {
        vstd::arithmetic::power2::lemma_pow2_strictly_increases(18, k as nat);
    }
    assert(k <= 18);
    vstd::arithmetic::power2::lemma_pow2_adds(k as nat, (32 - k) as nat);
    let q = pow2((32 - k) as nat) as int;
    let sli = sl as int;
    assert(sli * q == 0x1_0000_0000);
    let c: int = if size > 1 { s.capacity as int } else { 0 };
    let t = (c + sli - 1) / sli;
    assert(t <= q) by (nonlinear_arith)
        requires t == (c + sli - 1) / sli, c <= 0xffff_ffff, sli * q == 0x1_0000_0000, sli >= 1, c >= 0;
    assert(t * sli <= 0x1_0000_0000) by (nonlinear_arith)
        requires t <= q, sli * q == 0x1_0000_0000, sli >= 1, t >= 0;
    assert(3 * sli <= 0x1_0000_0000);
}

impl Params {
    /// Geometry of a table: a power-of-two segment length, its mask, at least
    /// one segment, and all slots addressable by `u32`.
    pub open spec fn wf(self) -> bool {
        &&& is_pow2(self.segment_length)
        &&& self.segment_length_mask == sub_one(self.segment_length)
        &&& self.segment_count >= 1
        &&& self.segment_count_length == self.segment_count * self.segment_length
        &&& slots_fit((self.segment_count + 2) * self.segment_length)
    }

    /// The parameters of a map built from no keys.
    pub open spec fn is_empty_params(self) -> bool {
        &&& self.seed == 0
        &&& self.segment_length == 0
        &&& self.segment_length_mask == 0
        &&& self.segment_count == 0
        &&& self.segment_count_length == 0
        &&& self.len == 0
    }

    /// The geometry of a map built from no keys (any seed).
    pub open spec fn empty_geometry(self) -> bool {
        &&& self.segment_length == 0
        &&& self.segment_length_mask == 0
        &&& self.segment_count == 0
        &&& self.segment_count_length == 0
    }

    /// What checking stored parameters against table lengths gives, test by test in order.
    pub open spec fn spec_validate(self, data_len: usize, checks_len: Option<usize>) -> Result<(), ParamsError> {
        if self.len == 0 {
            if !self.empty_geometry() || data_len != 0 || (checks_len matches Some(c) && c != 0) {
                Err(ParamsError::InvalidEmpty)
            } else {
                Ok(())
            }
        } else if !is_pow2(self.segment_length) {
            Err(ParamsError::SegmentLengthNotPowerOfTwo)
        } else if self.segment_length_mask != sub_one(self.segment_length) {
            Err(ParamsError::InvalidSegmentLengthMask)
        } else if self.segment_count == 0 {
            Err(ParamsError::ZeroSegmentCount)
        } else if self.segment_count_length as int != if self.segment_count * self.segment_length > u32::MAX {
            u32::MAX as int
        } else {
            self.segment_count * self.segment_length
        } {
            Err(ParamsError::InvalidSegmentCountLength)
        } else if data_len != self.spec_array_len() {
            Err(ParamsError::DataLengthMismatch)
        } else if checks_len matches Some(c) && c != data_len {
            Err(ParamsError::ChecksLengthMismatch)
        } else if !slots_fit((self.segment_count + 2) * self.segment_length) {
            Err(ParamsError::IndexSpaceOverflow)
        } else {
            Ok(())
        }
    }

    /// Number of slots in the table.
    pub open spec fn spec_array_len(self) -> int {
        (self.segment_count + 2) * self.segment_length
    }

    /// The parameters that `initialized` gives for a key count and a sizing.
    pub open spec fn spec_initialized(size: u32, s: Sizing) -> Params {
        let sl = clamped_segment_length(s);
        let sc = total_segment_count(size, s) - 2;
        Params {
            seed: 0,
            segment_length: sl,
            segment_length_mask: sub_one(sl),
            segment_count: sc as u32,
            segment_count_length: (sc * sl) as u32,
            len: size as usize,
        }
    }

    /// The parameters of a map built from no keys.
    pub fn empty() -> (p: Self)
        ensures
            p.is_empty_params(),
    {
        Params {
            seed: 0,
            segment_length: 0,
            segment_length_mask: 0,
            segment_count: 0,
            segment_count_length: 0,
            len: 0,
        }
    }

    /// The geometry of a table for `size` keys, before a seed is chosen.
    pub fn initialized(size: u32, sizing: Sizing) -> (p: Self)
        requires
            sizing.wf(),
            sizing_fits(size, sizing),
        ensures
            p == Self::spec_initialized(size, sizing),
            p.wf(),
            p.segment_length >= 4,
            p.segment_length <= MAX_SEGMENT_LENGTH,
    {
        let mut segment_length = sizing.segment_length;
        if segment_length > MAX_SEGMENT_LENGTH {
            segment_length = MAX_SEGMENT_LENGTH;
        }
        let segment_length_mask = segment_length - 1;
        let mut capacity = 0u32;
        if size > 1 {
            capacity = sizing.capacity;
        }
        let mut total = capacity / segment_length;
        assert(total < 0x4000_0000) by (nonlinear_arith)
            requires total == capacity / segment_length, segment_length >= 4;
        if capacity % segment_length != 0 {
            total = total + 1;
        }
        if total < 3 {
            total = 3;
        }
        proof {
            let sl = segment_length as int;
            let c = capacity as int;
            assert((c + sl - 1) / sl == c / sl + if c % sl != 0 { 1int } else { 0int }) by (nonlinear_arith)
                requires sl > 0, c >= 0;
            assert(total == total_segment_count(size, sizing));
            assert(sub_one(MAX_SEGMENT_LENGTH) == 262143u32);
            assert(262144u32 & 262143u32 == 0u32) by (bit_vector);
            assert(total as int * sl <= 0x1_0000_0000);
            assert((total - 2) * sl + 2 * sl == total * sl) by (nonlinear_arith)
                requires total >= 3, sl > 0;
        }
        let segment_count = total - 2;
        let segment_count_length = segment_count * segment_length;
        Params {
            seed: 0,
            segment_length,
            segment_length_mask,
            segment_count,
            segment_count_length,
            len: size as usize,
        }
    }

    /// Checks stored parameters against the lengths of the tables that come with them.
    pub fn validate(&self, data_len: usize, checks_len: Option<usize>) -> (r: Result<(), ParamsError>)
        ensures
            r == self.spec_validate(data_len, checks_len),
            r is Ok && self.len > 0 ==> self.wf() && data_len == self.spec_array_len(),
            r is Ok && self.len == 0 ==> self.empty_geometry() && data_len == 0,
    {
        if self.len == 0 {
            let checks_nonzero = match checks_len {
                Some(c) => c != 0,
                None => false,
            };
            if self.segment_length != 0 || self.segment_length_mask != 0 || self.segment_count != 0
                || self.segment_count_length != 0 || data_len != 0 || checks_nonzero
            {
                return Err(ParamsError::InvalidEmpty);
            }
            return Ok(());
        }
        if self.segment_length == 0 || (self.segment_length & (self.segment_length - 1)) != 0 {
            return Err(ParamsError::SegmentLengthNotPowerOfTwo);
        }
        if self.segment_length_mask != self.segment_length - 1 {
            return Err(ParamsError::InvalidSegmentLengthMask);
        }
        if self.segment_count == 0 {
            return Err(ParamsError::ZeroSegmentCount);
        }
        assert((self.segment_count + 2) * self.segment_length <= 0x1_0000_0001 * 0xffff_ffff) by (nonlinear_arith)
            requires self.segment_count <= u32::MAX, self.segment_length <= u32::MAX;
        assert(self.segment_count * self.segment_length <= (self.segment_count + 2) * self.segment_length) by (nonlinear_arith);
        assert(self.segment_count * self.segment_length + 2 * self.segment_length
            == (self.segment_count + 2) * self.segment_length) by (nonlinear_arith);
        let product: u64 = self.segment_count as u64 * self.segment_length as u64;
        let saturated: u32 = if product > u32::MAX as u64 { u32::MAX } else { product as u32 };
        if self.segment_count_length != saturated {
            return Err(ParamsError::InvalidSegmentCountLength);
        }
        let total: u64 = (self.segment_count as u64 + 2) * self.segment_length as u64;
        if data_len as u64 != total {
            return Err(ParamsError::DataLengthMismatch);
        }
        match checks_len {
            Some(c) => {
                if c != data_len {
                    return Err(ParamsError::ChecksLengthMismatch);
                }
            },
            None => {},
        }
        if total > 0x1_0000_0000u64 || total > usize::MAX as u64 {
            return Err(ParamsError::IndexSpaceOverflow);
        }
        Ok(())
    }

    /// The three slots of a mixed hash, one in each of three consecutive segments.
    pub fn get_hash_from_hash(&self, hash: u64) -> (r: (u32, u32, u32))
        requires
            self.wf(),
        ensures
            r == spec_slots(*self, hash),
            slot_index(r, 0) < slot_index(r, 1) < slot_index(r, 2) < self.spec_array_len(),
    {
        assert(hash as int * self.segment_count_length as int <= u128::MAX) by (nonlinear_arith)
            requires hash <= u64::MAX, self.segment_count_length <= u32::MAX;
        let prod: u128 = hash as u128 * self.segment_count_length as u128;
        proof {
            lemma_u128_shr_is_div(prod, 64);
            lemma2_to64_rest();
            assert(prod as int == hash as int * self.segment_count_length as int);
        }
        let h0 = (prod >> 64u128) as u32;
        proof {
            lemma_h0_bound(*self, hash);
            assert(self.segment_count_length + 2 * self.segment_length == (self.segment_count + 2) * self.segment_length) by (nonlinear_arith)
                requires self.segment_count_length == self.segment_count * self.segment_length;
        }
        let mut h1 = h0 + self.segment_length;
        let mut h2 = h1 + self.segment_length;
        h1 = h1 ^ (((hash >> 18u64) as u32) & self.segment_length_mask);
        h2 = h2 ^ ((hash as u32) & self.segment_length_mask);
        proof {
            lemma_slot_facts(*self, hash);
        }
        (h0, h1, h2)
    }

    /// Number of slots in the table.
    pub fn array_len(&self) -> (n: usize)
        requires
            self.wf() || self.is_empty_params(),
        ensures
            n == self.spec_array_len(),
    {
        proof {
            if self.wf() {
                assert(self.segment_count + 2 <= (self.segment_count + 2) * self.segment_length) by (nonlinear_arith)
                    requires self.segment_length >= 1;
            }
        }
        (self.segment_count as usize + 2) * self.segment_length as usize
    }
}

/// Two parameter sets have the same geometry (they may differ in seed).
pub open spec fn same_geometry(a: Params, b: Params) -> bool {
    &&& a.segment_length == b.segment_length
    &&& a.segment_length_mask == b.segment_length_mask
    &&& a.segment_count == b.segment_count
    &&& a.segment_count_length == b.segment_count_length
    &&& a.len == b.len
}

/// `a` splits each segment of `b` in two and adds two segments, keeping the table size.
pub open spec fn halved_geometry(a: Params, b: Params) -> bool {
    &&& a.segment_length == b.segment_length / 2
    &&& a.segment_length_mask == sub_one(a.segment_length)
    &&& a.segment_count == b.segment_count * 2 + 2
    &&& a.segment_count_length == a.segment_count * a.segment_length
    &&& a.len == b.len
}

proof fn lemma_pow2_half(x: u32)
    by (bit_vector)
    requires
        x >= 4,
        x & ((x - 1) as u32) == 0,
    ensures
        (x / 2) & ((x / 2 - 1) as u32) == 0,
        x / 2 >= 2,
        (x / 2) * 2 == x,
{
}

/// Halving the segments of a table of segment length at least 4 keeps it well formed and its size.
pub proof fn lemma_halved_wf(a: Params, b: Params)
    requires
        b.wf(),
        b.segment_length >= 4,
        halved_geometry(a, b),
    ensures
        a.wf(),
        a.spec_array_len() == b.spec_array_len(),
        a.segment_length >= 2,
{
    lemma_pow2_half(b.segment_length);
    let sl = b.segment_length as int;
    let sc = b.segment_count as int;
    assert((sc * 2 + 2 + 2) * (sl / 2) == (sc + 2) * sl) by (nonlinear_arith)
        requires (sl / 2) * 2 == sl;
}

/// The first slot of a mixed hash: the hash read as a fraction of the
/// slots of all segments but the last two.
pub open spec fn spec_h0(p: Params, hash: u64) -> u32 {
    ((hash as int * p.segment_count_length as int) / two_pow_64()) as u32
}

/// The three slots of a mixed hash: the first slot, then the same place one
/// and two segments further, each moved within its segment by other bits of the hash.
pub open spec fn spec_slots(p: Params, hash: u64) -> (u32, u32, u32) {
    let h0 = spec_h0(p, hash);
    let h1 = ((h0 + p.segment_length) as u32) ^ (((hash >> 18u64) as u32) & p.segment_length_mask);
    let h2 = ((h0 + 2 * p.segment_length) as u32) ^ ((hash as u32) & p.segment_length_mask);
    (h0, h1, h2)
}

/// What a table answers for a mixed hash: the exclusive-or of its three slots.
pub open spec fn table_lookup(p: Params, table: Seq<u64>, hash: u64) -> u64 {
    let t = spec_slots(p, hash);
    table[t.0 as int] ^ table[t.1 as int] ^ table[t.2 as int]
}

/// Slot number `i` (0, 1 or 2) of a triple.
pub open spec fn slot_index(t: (u32, u32, u32), i: int) -> int {
    if i == 0 {
        t.0 as int
    } else if i == 1 {
        t.1 as int
    } else {
        t.2 as int
    }
}

proof fn lemma_h0_bound(p: Params, hash: u64)
    requires
        p.wf(),
    ensures
        spec_h0(p, hash) as int == (hash as int * p.segment_count_length as int) / two_pow_64(),
        (hash as int * p.segment_count_length as int) / two_pow_64() < p.segment_count_length,
{
    let a = hash as int;
    let b = p.segment_count_length as int;
    assert(p.segment_count_length >= 1) by (nonlinear_arith)
        requires p.segment_count >= 1, p.segment_length >= 1,
            p.segment_count_length == p.segment_count * p.segment_length;
    assert((a * b) / two_pow_64() < b) by (nonlinear_arith)
        requires 0 <= a < two_pow_64(), b >= 1, two_pow_64() > 0;
}

/// Moving a value by less than a power of two, within its aligned block, keeps the block.
proof fn lemma_xor_within_block(x: u32, y: u32, sl: u32)
    requires
        is_pow2(sl),
    ensures
        ((x ^ (y & sub_one(sl))) as int) / (sl as int) == (x as int) / (sl as int),
{
    let k = lemma_pow2_shape(sl);
    lemma_div_is_shr(x, k);
    lemma_div_is_shr(x ^ (y & sub_one(sl)), k);
    lemma_xor_low_bits(x, y, k);
}

/// The three slots lie in consecutive segments, in order, inside the table.
pub proof fn lemma_slot_facts(p: Params, hash: u64)
    requires
        p.wf(),
    ensures
        ({
            let t = spec_slots(p, hash);
            let sl = p.segment_length as int;
            let b = (spec_h0(p, hash) as int) / sl;
            &&& (t.0 as int) / sl == b
            &&& (t.1 as int) / sl == b + 1
            &&& (t.2 as int) / sl == b + 2
            &&& b < p.segment_count
            &&& t.0 < t.1
            &&& t.1 < t.2
            &&& t.2 < p.spec_array_len()
        }),
{
    lemma_h0_bound(p, hash);
    let sl = p.segment_length as int;
    let sc = p.segment_count as int;
    let h0 = spec_h0(p, hash) as int;
    let b = h0 / sl;
    assert(b < sc && (b + 3) * sl <= (sc + 2) * sl) by (nonlinear_arith)
        requires h0 < sc * sl, b == h0 / sl, sl >= 1;
    assert((h0 + sl) / sl == b + 1 && (h0 + 2 * sl) / sl == b + 2) by (nonlinear_arith)
        requires b == h0 / sl, sl >= 1, h0 >= 0;
    assert(h0 + 2 * sl <= u32::MAX) by (nonlinear_arith)
        requires h0 < sc * sl, (sc + 2) * sl <= 0x1_0000_0000, sl >= 1;
    let x1 = (h0 + sl) as u32;
    let x2 = (h0 + 2 * sl) as u32;
    assert(x1 as int == h0 + sl);
    assert(x2 as int == h0 + 2 * sl);
    lemma_xor_within_block(x1, (hash >> 18u64) as u32, p.segment_length);
    lemma_xor_within_block(x2, hash as u32, p.segment_length);
    let t = spec_slots(p, hash);
    let t0 = t.0 as int;
    let t1 = t.1 as int;
    let t2 = t.2 as int;
    assert(t1 / sl == b + 1);
    assert(t2 / sl == b + 2);
    assert(t2 < (sc + 2) * sl) by (nonlinear_arith)
        requires t2 / sl == b + 2, (b + 3) * sl <= (sc + 2) * sl, sl >= 1;
    assert(t0 < t1 && t1 < t2) by (nonlinear_arith)
        requires t0 / sl == b, t1 / sl == b + 1, t2 / sl == b + 2, sl >= 1, t0 >= 0;
}

} // verus!
