//! The two map types, and the seeds that carry the allocator a stored map is
//! rebuilt into.
use vstd::prelude::*;
use core::marker::PhantomData;
use crate::construct::{build_from_slices, build_from_pairs, BuildOutput, output_ok, encodes, key_hashes,
    pair_keys, pair_values, built_params, seed_loop_fails, seed_loop_meets_duplicate, first_buildable};
use crate::error::BuildError;
use crate::hash::{fingerprint, hash_key, mixsplit, spec_fingerprint, spec_hash_key, spec_mixsplit};
use crate::params::{Params, ParamsError, Sizing, sizing_fits, table_lookup, sub_one};
use crate::value::StaticFuseValue;
use crate::MAX_ITERATIONS;

verus! {

/// Calls `Vec::capacity`: how many elements the vector holds room for. The
/// standard library documents that this is at least the length and that a
/// vector's buffer never exceeds `isize::MAX` bytes; how much room the
/// allocator gave beyond the length is not stated.
#[verifier::external_body]
fn vec_capacity(v: &Vec<u64>) -> (c: usize)
    ensures
        c >= v.len(),
        c * 8 <= isize::MAX,
{
    v.capacity()
}

/// The number of bytes that `c` slots of `u64` take.
pub fn bytes_of(c: usize) -> (b: usize)
    requires
        c * 8 <= isize::MAX,
    ensures
        b == c * 8,
{
    c * 8
}

/// A table of `data_len` slots fits parameters `p`: empty geometry for no
/// keys, otherwise well-formed geometry with exactly its number of slots.
pub open spec fn table_ok(p: Params, data_len: int) -> bool {
    if p.len == 0 {
        p.empty_geometry() && data_len == 0
    } else {
        p.wf() && data_len == p.spec_array_len()
    }
}

/// No key's mixed hash under `seed` is zero (construction passes over seeds
/// that mix a key to zero, which would be taken for an empty cell while keys
/// are bucketed).
pub open spec fn mixes_nonzero(keys: Seq<&str>, seed: u64) -> bool {
    forall|i: int| 0 <= i < keys.len() ==> #[trigger] spec_mixsplit(spec_hash_key(keys[i]), seed) != 0
}

/// No two keys share their mixed hash under `seed`.
pub open spec fn mixes_distinct(keys: Seq<&str>, seed: u64) -> bool {
    forall|i: int, j: int| 0 <= i < j < keys.len()
        ==> #[trigger] spec_mixsplit(spec_hash_key(keys[i]), seed) != #[trigger] spec_mixsplit(spec_hash_key(keys[j]), seed)
}

/// The parameters that stored fields describe: the mask is recomputed as
/// the segment length minus one (zero for the empty geometry, whose segment
/// length is zero) and the slot count of all but the last two segments with
/// saturating multiplication.
pub open spec fn stored_params(seed: u64, segment_length: u32, segment_count: u32, len: usize) -> Params {
    Params {
        seed,
        segment_length,
        segment_length_mask: (if segment_length == 0 { 0 } else { segment_length - 1 }) as u32,
        segment_count,
        segment_count_length: (if segment_count * segment_length > u32::MAX {
            u32::MAX as int
        } else {
            segment_count * segment_length
        }) as u32,
        len,
    }
}

/// Rebuilds parameters from stored fields.
fn params_from_fields(seed: u64, segment_length: u32, segment_count: u32, len: usize) -> (p: Params)
    ensures
        p == stored_params(seed, segment_length, segment_count, len),
{
    assert(segment_count * segment_length <= 0xffff_ffff * 0xffff_ffff) by (nonlinear_arith)
        requires segment_count <= 0xffff_ffff, segment_length <= 0xffff_ffff;
    let product: u64 = segment_count as u64 * segment_length as u64;
    Params {
        seed,
        segment_length,
        segment_length_mask: if segment_length == 0 { 0 } else { segment_length - 1 },
        segment_count,
        segment_count_length: if product > u32::MAX as u64 { u32::MAX } else { product as u32 },
        len,
    }
}

/// A compact immutable map from strings to `u64`-encoded values.
///
/// Lookups are unchecked: if a key was not present during construction, the
/// returned value is unspecified.
#[derive(Debug)]
pub struct StaticFuseMap<V> {
    params: Params,
    data: Vec<u64>,
    capacity: usize,
    marker: PhantomData<V>,
}

impl<V> StaticFuseMap<V> {
    #[verifier::type_invariant]
    spec fn inv(self) -> bool {
        &&& table_ok(self.params, self.data@.len() as int)
        &&& self.data@.len() <= self.capacity
        &&& self.capacity * 8 <= isize::MAX
    }

    /// How many slots the table's buffer holds (its vector's capacity, read
    /// when the map was made; the table is never changed afterwards).
    pub closed spec fn slot_capacity(&self) -> int {
        self.capacity as int
    }

    /// The map's geometry and seed.
    pub closed spec fn params(&self) -> Params {
        self.params
    }

    /// The map's table of slots.
    pub closed spec fn table(&self) -> Seq<u64> {
        self.data@
    }

    /// The raw value the map answers for `key`: the exclusive-or of the three
    /// slots of the key's mixed hash.
    pub open spec fn answer(&self, key: &str) -> u64 {
        table_lookup(self.params(), self.table(), spec_mixsplit(spec_hash_key(key), self.params().seed))
    }

    /// The map holds, for each of its distinct keys, the encoding of its value.
    pub open spec fn holds(&self, keys: Seq<&str>, raw: Seq<u64>) -> bool {
        &&& self.params().len == keys.len()
        &&& keys.len() > 0 ==> keys.len() <= self.table().len() && 12 <= self.table().len()
        &&& mixes_nonzero(keys, self.params().seed)
        &&& mixes_distinct(keys, self.params().seed)
        &&& forall|i: int| 0 <= i < keys.len() ==> #[trigger] self.answer(keys[i]) == raw[i]
    }
}

impl<V: StaticFuseValue> StaticFuseMap<V> {
    fn from_built(built: BuildOutput) -> (r: Result<Self, BuildError>)
        requires
            table_ok(built.params, built.data@.len() as int),
        ensures
            r matches Ok(m) && m.params() == built.params && m.table() == built.data@,
    {
        let capacity = vec_capacity(&built.data);
        Ok(StaticFuseMap { params: built.params, data: built.data, capacity, marker: PhantomData })
    }

    /// Builds a map from parallel key and value slices, with segment sizes from `sizing`.
    pub fn new(keys: &[&str], values: &[V], sizing: Sizing) -> (r: Result<Self, BuildError>)
        requires
            sizing.wf(),
        ensures
            (r matches Err(BuildError::MismatchedLengths { keys: k, values: v })) <==> keys.len() != values.len(),
            r matches Err(BuildError::MismatchedLengths { keys: k, values: v }) ==> k == keys.len() && v == values.len(),
            r matches Err(BuildError::TooManyKeys { len }) ==> len == keys.len() && keys.len() == values.len() && (
                keys.len() > u32::MAX || !sizing_fits(keys.len() as u32, sizing)),
            keys.len() == values.len() && (keys.len() > u32::MAX || !sizing_fits(keys.len() as u32, sizing))
                ==> r is Err,
            keys.len() == 0 && values.len() == 0 ==> r is Ok,
            r matches Ok(m) ==> keys.len() == 0 ==> m.params().is_empty_params() && m.table().len() == 0,
            r matches Err(BuildError::PeelFailed { attempts }) ==> attempts == MAX_ITERATIONS + 1,
            r matches Ok(m) ==> table_ok(m.params(), m.table().len() as int),
            r matches Ok(m) ==> exists|raw: Seq<u64>| encodes(values@, raw) && m.holds(keys@, raw),
            r matches Ok(m) ==> built_params(m.params(), keys.len() as int, sizing),
            r matches Err(BuildError::PeelFailed { attempts }) ==> seed_loop_fails(key_hashes(keys@), sizing),
            r matches Err(BuildError::DuplicateHash) ==> seed_loop_meets_duplicate(key_hashes(keys@), sizing),
            r matches Ok(m) ==> keys.len() > 0 ==> first_buildable(key_hashes(keys@), sizing, m.params()),
    {
        let built = match build_from_slices(keys, values, false, sizing) {
            Ok(b) => b,
            Err(e) => {
                return Err(e);
            },
        };
        proof {
            let raw = choose|raw: Seq<u64>| encodes(values@, raw) && output_ok(built, key_hashes(keys@), raw, false);
            lemma_output_holds(built, keys@, raw, false);
        }
        Self::from_built(built)
    }

    /// Builds a map from key/value pairs, with segment sizes from `sizing`.
    pub fn try_from_iter(pairs: &[(&str, V)], sizing: Sizing) -> (r: Result<Self, BuildError>)
        requires
            sizing.wf(),
        ensures
            !(r matches Err(BuildError::MismatchedLengths { keys: k, values: v })),
            r matches Err(BuildError::TooManyKeys { len }) ==> len == pairs.len() && (
                pairs.len() > u32::MAX || !sizing_fits(pairs.len() as u32, sizing)),
            pairs.len() > u32::MAX || !sizing_fits(pairs.len() as u32, sizing) ==> r is Err,
            pairs.len() == 0 ==> r is Ok,
            r matches Ok(m) ==> pairs.len() == 0 ==> m.params().is_empty_params() && m.table().len() == 0,
            r matches Err(BuildError::PeelFailed { attempts }) ==> attempts == MAX_ITERATIONS + 1,
            r matches Ok(m) ==> table_ok(m.params(), m.table().len() as int),
            r matches Ok(m) ==> exists|raw: Seq<u64>| encodes(pair_values(pairs@), raw) && m.holds(pair_keys(pairs@), raw),
            r matches Ok(m) ==> built_params(m.params(), pairs.len() as int, sizing),
            r matches Err(BuildError::PeelFailed { attempts }) ==> seed_loop_fails(key_hashes(pair_keys(pairs@)), sizing),
            r matches Err(BuildError::DuplicateHash) ==> seed_loop_meets_duplicate(key_hashes(pair_keys(pairs@)), sizing),
            r matches Ok(m) ==> pairs.len() > 0 ==> first_buildable(key_hashes(pair_keys(pairs@)), sizing, m.params()),
    {
        let built = match build_from_pairs(pairs, false, sizing) {
            Ok(b) => b,
            Err(e) => {
                return Err(e);
            },
        };
        proof {
            let raw = choose|raw: Seq<u64>|
                encodes(pair_values(pairs@), raw) && output_ok(built, key_hashes(pair_keys(pairs@)), raw, false);
            lemma_output_holds(built, pair_keys(pairs@), raw, false);
        }
        Self::from_built(built)
    }

    /// Rebuilds a map from its stored fields, checking them against each other.
    pub fn from_parts(seed: u64, segment_length: u32, segment_count: u32, len: usize, data: Vec<u64>) -> (r: Result<Self, ParamsError>)
        ensures
            r is Ok <==> stored_params(seed, segment_length, segment_count, len).spec_validate(data@.len() as usize, None) is Ok,
            r matches Err(e) ==> Err::<(), ParamsError>(e) == stored_params(seed, segment_length, segment_count, len).spec_validate(
                data@.len() as usize, None),
            r matches Ok(m) ==> m.params() == stored_params(seed, segment_length, segment_count, len) && m.table() == data@,
            r matches Ok(m) ==> table_ok(m.params(), m.table().len() as int),
    {
        let params = params_from_fields(seed, segment_length, segment_count, len);
        match params.validate(data.len(), None) {
            Ok(()) => {
                let capacity = vec_capacity(&data);
                Ok(StaticFuseMap { params, data, capacity, marker: PhantomData })
            },
            Err(e) => Err(e),
        }
    }

    /// Returns the number of keys used to build the map.
    pub fn len(&self) -> (n: usize)
        ensures
            n == self.params().len,
    {
        self.params.len
    }

    /// Returns true if the map was built from no keys.
    pub fn is_empty(&self) -> (b: bool)
        ensures
            b == (self.params().len == 0),
    {
        self.params.len == 0
    }

    /// Returns the value for `key`.
    ///
    /// The key must have been present during construction. If not, the
    /// returned value is unspecified; a map built from no keys answers the
    /// decoding of 0.
    pub fn get(&self, key: &str) -> (v: V)
        ensures
            self.params().len > 0 ==> call_ensures(V::from_u64, (self.answer(key),), v),
            self.params().len == 0 ==> call_ensures(V::from_u64, (0u64,), v),
    {
        proof {
            use_type_invariant(self);
            if self.params.len > 0 {
                assert((self.params.segment_count + 2) * self.params.segment_length > 0) by (nonlinear_arith)
                    requires self.params.segment_length >= 1;
            }
        }
        if self.data.len() == 0 {
            return V::from_u64(0);
        }
        let hash = mixsplit(hash_key(key), self.params.seed);
        let (h0, h1, h2) = self.params.get_hash_from_hash(hash);
        V::from_u64(self.data[h0 as usize] ^ self.data[h1 as usize] ^ self.data[h2 as usize])
    }

    /// Returns the retained table size in bytes, excluding the struct itself:
    /// eight bytes for each slot the table's buffer holds.
    pub fn table_bytes(&self) -> (b: usize)
        ensures
            b == 8 * self.slot_capacity(),
            self.table().len() <= self.slot_capacity(),
            b >= 8 * self.table().len(),
            b <= isize::MAX,
            b % 8 == 0,
    {
        proof {
            use_type_invariant(self);
        }
        bytes_of(self.capacity)
    }

    /// The seed the map was built with.
    pub fn seed(&self) -> (s: u64)
        ensures
            s == self.params().seed,
    {
        self.params.seed
    }

    /// The segment length of the map's table.
    pub fn segment_length(&self) -> (s: u32)
        ensures
            s == self.params().segment_length,
    {
        self.params.segment_length
    }

    /// The number of segments of the map's table, the last two excepted.
    pub fn segment_count(&self) -> (s: u32)
        ensures
            s == self.params().segment_count,
    {
        self.params.segment_count
    }

    /// The map's table of slots.
    pub fn data(&self) -> (d: &[u64])
        ensures
            d@ == self.table(),
    {
        self.data.as_slice()
    }
}

impl<V> Clone for StaticFuseMap<V> {
    fn clone(&self) -> (r: Self)
        ensures
            r.params() == self.params(),
            r.table() == self.table(),
    {
        proof {
            use_type_invariant(self);
        }
        let data = self.data.clone();
        proof {
            assert forall|i: int| 0 <= i < data@.len() implies data@[i] == self.data@[i] by {
                assert(vstd::pervasive::cloned(self.data@[i], data@[i]));
            }
            assert(data@ =~= self.data@);
        }
        let capacity = vec_capacity(&data);
        StaticFuseMap { params: self.params, data, capacity, marker: PhantomData }
    }
}

/// A compact immutable map from strings to `u64`-encoded values with probabilistic missing-key checks.
///
/// Missing-key lookups return `None` except for a false positive with
/// probability about 2^-64 (roughly 1 in 18.4 quintillion), in which case an
/// unspecified `Some` value is returned instead.
#[derive(Debug)]
pub struct VerifiedStaticFuseMap<V> {
    params: Params,
    data: Vec<u64>,
    checks: Vec<u64>,
    data_capacity: usize,
    checks_capacity: usize,
    marker: PhantomData<V>,
}

impl<V> VerifiedStaticFuseMap<V> {
    #[verifier::type_invariant]
    spec fn inv(self) -> bool {
        &&& table_ok(self.params, self.data@.len() as int)
        &&& self.checks@.len() == self.data@.len()
        &&& self.data@.len() <= self.data_capacity
        &&& self.checks@.len() <= self.checks_capacity
        &&& self.data_capacity * 8 <= isize::MAX
        &&& self.checks_capacity * 8 <= isize::MAX
    }

    /// How many slots the buffers of both tables hold together (their
    /// vectors' capacities, read when the map was made; the tables are never
    /// changed afterwards).
    pub closed spec fn slot_capacity(&self) -> int {
        self.data_capacity + self.checks_capacity
    }

    /// The map's geometry and seed.
    pub closed spec fn params(&self) -> Params {
        self.params
    }

    /// The map's table of slots.
    pub closed spec fn table(&self) -> Seq<u64> {
        self.data@
    }

    /// The map's table of fingerprints.
    pub closed spec fn check_table(&self) -> Seq<u64> {
        self.checks@
    }

    /// The raw value the map answers for `key`.
    pub open spec fn answer(&self, key: &str) -> u64 {
        table_lookup(self.params(), self.table(), spec_mixsplit(spec_hash_key(key), self.params().seed))
    }

    /// Whether the fingerprint slots of `key` combine to its fingerprint.
    pub open spec fn check_passes(&self, key: &str) -> bool {
        let h = spec_mixsplit(spec_hash_key(key), self.params().seed);
        table_lookup(self.params(), self.check_table(), h) == spec_fingerprint(h)
    }

    /// The map holds, for each of its distinct keys, the encoding of its value
    /// and passes its check.
    pub open spec fn holds(&self, keys: Seq<&str>, raw: Seq<u64>) -> bool {
        &&& self.params().len == keys.len()
        &&& keys.len() > 0 ==> keys.len() <= self.table().len() && 12 <= self.table().len()
        &&& mixes_nonzero(keys, self.params().seed)
        &&& mixes_distinct(keys, self.params().seed)
        &&& forall|i: int| 0 <= i < keys.len() ==> {
            &&& #[trigger] self.answer(keys[i]) == raw[i]
            &&& self.check_passes(keys[i])
        }
    }
}

impl<V> Clone for VerifiedStaticFuseMap<V> {
    fn clone(&self) -> (r: Self)
        ensures
            r.params() == self.params(),
            r.table() == self.table(),
            r.check_table() == self.check_table(),
    {
        proof {
            use_type_invariant(self);
        }
        let data = self.data.clone();
        let checks = self.checks.clone();
        proof {
            assert forall|i: int| 0 <= i < data@.len() implies data@[i] == self.data@[i] by {
                assert(vstd::pervasive::cloned(self.data@[i], data@[i]));
            }
            assert(data@ =~= self.data@);
            assert forall|i: int| 0 <= i < checks@.len() implies checks@[i] == self.checks@[i] by {
                assert(vstd::pervasive::cloned(self.checks@[i], checks@[i]));
            }
            assert(checks@ =~= self.checks@);
        }
        let data_capacity = vec_capacity(&data);
        let checks_capacity = vec_capacity(&checks);
        VerifiedStaticFuseMap { params: self.params, data, checks, data_capacity, checks_capacity, marker: PhantomData }
    }
}

impl<V: StaticFuseValue> VerifiedStaticFuseMap<V> {
    fn from_built(built: BuildOutput) -> (r: Result<Self, BuildError>)
        requires
            table_ok(built.params, built.data@.len() as int),
            built.checks matches Some(c) && c@.len() == built.data@.len(),
        ensures
            r matches Ok(m) && m.params() == built.params && m.table() == built.data@
                && (built.checks matches Some(c) && m.check_table() == c@),
    {
        let checks = match built.checks {
            Some(c) => c,
            None => Vec::new(),
        };
        let data_capacity = vec_capacity(&built.data);
        let checks_capacity = vec_capacity(&checks);
        Ok(VerifiedStaticFuseMap { params: built.params, data: built.data, checks, data_capacity, checks_capacity,
            marker: PhantomData })
    }

    /// Builds a checked map from parallel key and value slices, with segment sizes from `sizing`.
    pub fn new(keys: &[&str], values: &[V], sizing: Sizing) -> (r: Result<Self, BuildError>)
        requires
            sizing.wf(),
        ensures
            (r matches Err(BuildError::MismatchedLengths { keys: k, values: v })) <==> keys.len() != values.len(),
            r matches Err(BuildError::MismatchedLengths { keys: k, values: v }) ==> k == keys.len() && v == values.len(),
            r matches Err(BuildError::TooManyKeys { len }) ==> len == keys.len() && keys.len() == values.len() && (
                keys.len() > u32::MAX || !sizing_fits(keys.len() as u32, sizing)),
            keys.len() == values.len() && (keys.len() > u32::MAX || !sizing_fits(keys.len() as u32, sizing))
                ==> r is Err,
            keys.len() == 0 && values.len() == 0 ==> r is Ok,
            r matches Ok(m) ==> keys.len() == 0 ==> m.params().is_empty_params() && m.table().len() == 0
                && m.check_table().len() == 0,
            r matches Err(BuildError::PeelFailed { attempts }) ==> attempts == MAX_ITERATIONS + 1,
            r matches Ok(m) ==> table_ok(m.params(), m.table().len() as int),
            r matches Ok(m) ==> exists|raw: Seq<u64>| encodes(values@, raw) && m.holds(keys@, raw),
            r matches Ok(m) ==> built_params(m.params(), keys.len() as int, sizing),
            r matches Err(BuildError::PeelFailed { attempts }) ==> seed_loop_fails(key_hashes(keys@), sizing),
            r matches Err(BuildError::DuplicateHash) ==> seed_loop_meets_duplicate(key_hashes(keys@), sizing),
            r matches Ok(m) ==> keys.len() > 0 ==> first_buildable(key_hashes(keys@), sizing, m.params()),
    {
        let built = match build_from_slices(keys, values, true, sizing) {
            Ok(b) => b,
            Err(e) => {
                return Err(e);
            },
        };
        proof {
            let raw = choose|raw: Seq<u64>| encodes(values@, raw) && output_ok(built, key_hashes(keys@), raw, true);
            lemma_output_holds(built, keys@, raw, true);
        }
        Self::from_built(built)
    }

    /// Builds a checked map from key/value pairs, with segment sizes from `sizing`.
    pub fn try_from_iter(pairs: &[(&str, V)], sizing: Sizing) -> (r: Result<Self, BuildError>)
        requires
            sizing.wf(),
        ensures
            !(r matches Err(BuildError::MismatchedLengths { keys: k, values: v })),
            r matches Err(BuildError::TooManyKeys { len }) ==> len == pairs.len() && (
                pairs.len() > u32::MAX || !sizing_fits(pairs.len() as u32, sizing)),
            pairs.len() > u32::MAX || !sizing_fits(pairs.len() as u32, sizing) ==> r is Err,
            pairs.len() == 0 ==> r is Ok,
            r matches Ok(m) ==> pairs.len() == 0 ==> m.params().is_empty_params() && m.table().len() == 0
                && m.check_table().len() == 0,
            r matches Err(BuildError::PeelFailed { attempts }) ==> attempts == MAX_ITERATIONS + 1,
            r matches Ok(m) ==> table_ok(m.params(), m.table().len() as int),
            r matches Ok(m) ==> exists|raw: Seq<u64>| encodes(pair_values(pairs@), raw) && m.holds(pair_keys(pairs@), raw),
            r matches Ok(m) ==> built_params(m.params(), pairs.len() as int, sizing),
            r matches Err(BuildError::PeelFailed { attempts }) ==> seed_loop_fails(key_hashes(pair_keys(pairs@)), sizing),
            r matches Err(BuildError::DuplicateHash) ==> seed_loop_meets_duplicate(key_hashes(pair_keys(pairs@)), sizing),
            r matches Ok(m) ==> pairs.len() > 0 ==> first_buildable(key_hashes(pair_keys(pairs@)), sizing, m.params()),
    {
        let built = match build_from_pairs(pairs, true, sizing) {
            Ok(b) => b,
            Err(e) => {
                return Err(e);
            },
        };
        proof {
            let raw = choose|raw: Seq<u64>|
                encodes(pair_values(pairs@), raw) && output_ok(built, key_hashes(pair_keys(pairs@)), raw, true);
            lemma_output_holds(built, pair_keys(pairs@), raw, true);
        }
        Self::from_built(built)
    }

    /// Rebuilds a checked map from its stored fields, checking them against each other.
    pub fn from_parts(seed: u64, segment_length: u32, segment_count: u32, len: usize, data: Vec<u64>, checks: Vec<u64>) -> (r: Result<Self, ParamsError>)
        ensures
            r is Ok <==> stored_params(seed, segment_length, segment_count, len).spec_validate(
                data@.len() as usize, Some(checks@.len() as usize)) is Ok,
            r matches Err(e) ==> Err::<(), ParamsError>(e) == stored_params(seed, segment_length, segment_count, len).spec_validate(
                data@.len() as usize, Some(checks@.len() as usize)),
            r matches Ok(m) ==> m.params() == stored_params(seed, segment_length, segment_count, len) && m.table() == data@
                && m.check_table() == checks@,
            r matches Ok(m) ==> table_ok(m.params(), m.table().len() as int) && m.check_table().len() == m.table().len(),
    {
        let params = params_from_fields(seed, segment_length, segment_count, len);
        match params.validate(data.len(), Some(checks.len())) {
            Ok(()) => {
                let data_capacity = vec_capacity(&data);
                let checks_capacity = vec_capacity(&checks);
                Ok(VerifiedStaticFuseMap { params, data, checks, data_capacity, checks_capacity, marker: PhantomData })
            },
            Err(e) => Err(e),
        }
    }

    /// Returns the number of keys used to build the map.
    pub fn len(&self) -> (n: usize)
        ensures
            n == self.params().len,
    {
        self.params.len
    }

    /// Returns true if the map was built from no keys.
    pub fn is_empty(&self) -> (b: bool)
        ensures
            b == (self.params().len == 0),
    {
        self.params.len == 0
    }

    /// Returns the value for `key`, or `None` if the key is probably absent.
    ///
    /// Missing-key detection is probabilistic: a missing key has about a 2^-64
    /// chance (roughly 1 in 18.4 quintillion) of passing the fingerprint check
    /// and returning an unspecified `Some` value instead of `None`.
    pub fn get(&self, key: &str) -> (r: Option<V>)
        ensures
            self.params().len == 0 ==> r is None,
            self.params().len > 0 ==> (r is Some <==> self.check_passes(key)),
            r matches Some(v) ==> call_ensures(V::from_u64, (self.answer(key),), v),
    {
        proof {
            use_type_invariant(self);
            if self.params.len > 0 {
                assert((self.params.segment_count + 2) * self.params.segment_length > 0) by (nonlinear_arith)
                    requires self.params.segment_length >= 1;
            }
        }
        if self.data.len() == 0 {
            return None;
        }
        assert(self.params().len > 0);
        let hash = mixsplit(hash_key(key), self.params.seed);
        let (h0, h1, h2) = self.params.get_hash_from_hash(hash);
        let h0 = h0 as usize;
        let h1 = h1 as usize;
        let h2 = h2 as usize;
        let fp = self.checks[h0] ^ self.checks[h1] ^ self.checks[h2];
        let expected = fingerprint(hash);
        assert(fp == table_lookup(self.params(), self.check_table(), hash));
        if fp != expected {
            return None;
        }
        let raw = self.data[h0] ^ self.data[h1] ^ self.data[h2];
        assert(raw == self.answer(key));
        Some(V::from_u64(raw))
    }

    /// Returns the retained table size in bytes, excluding the struct itself:
    /// eight bytes for each slot the buffers of both tables hold.
    pub fn table_bytes(&self) -> (b: usize)
        ensures
            b == 8 * self.slot_capacity(),
            self.table().len() + self.check_table().len() <= self.slot_capacity(),
            b >= 8 * (self.table().len() + self.check_table().len()),
            b <= 2 * isize::MAX,
            b % 8 == 0,
    {
        proof {
            use_type_invariant(self);
        }
        bytes_of(self.data_capacity) + bytes_of(self.checks_capacity)
    }

    /// The seed the map was built with.
    pub fn seed(&self) -> (s: u64)
        ensures
            s == self.params().seed,
    {
        self.params.seed
    }

    /// The segment length of the map's table.
    pub fn segment_length(&self) -> (s: u32)
        ensures
            s == self.params().segment_length,
    {
        self.params.segment_length
    }

    /// The number of segments of the map's table, the last two excepted.
    pub fn segment_count(&self) -> (s: u32)
        ensures
            s == self.params().segment_count,
    {
        self.params.segment_count
    }

    /// The map's table of slots.
    pub fn data(&self) -> (d: &[u64])
        ensures
            d@ == self.table(),
    {
        self.data.as_slice()
    }

    /// The map's table of fingerprints.
    pub fn checks(&self) -> (d: &[u64])
        ensures
            d@ == self.check_table(),
    {
        self.checks.as_slice()
    }
}

/// What a successful construction delivers, read as what a map built from
/// it holds.
proof fn lemma_output_holds(out: BuildOutput, keys: Seq<&str>, raw: Seq<u64>, verified: bool)
    requires
        output_ok(out, key_hashes(keys), raw, verified),
    ensures
        table_ok(out.params, out.data@.len() as int),
        out.params.len == keys.len(),
        keys.len() > 0 ==> keys.len() <= out.data@.len() && 12 <= out.data@.len(),
        verified ==> (out.checks matches Some(c) && c@.len() == out.data@.len()),
        keys.len() == 0 ==> out.params.is_empty_params(),
        mixes_nonzero(keys, out.params.seed),
        mixes_distinct(keys, out.params.seed),
        forall|i: int| 0 <= i < keys.len() ==> {
            &&& #[trigger] table_lookup(out.params, out.data@, spec_mixsplit(spec_hash_key(keys[i]), out.params.seed)) == raw[i]
            &&& (out.checks matches Some(c) ==> table_lookup(out.params, c@, spec_mixsplit(spec_hash_key(keys[i]), out.params.seed))
                == spec_fingerprint(spec_mixsplit(spec_hash_key(keys[i]), out.params.seed)))
        },
{
    let hs = key_hashes(keys);
    {
        assert forall|k: int| 0 <= k < keys.len() implies #[trigger] spec_mixsplit(spec_hash_key(keys[k]), out.params.seed) != 0 by {
            assert(hs[k] == spec_hash_key(keys[k]));
            assert(spec_mixsplit(hs[k], out.params.seed) != 0);
        }
        assert forall|i: int| 0 <= i < keys.len() implies {
            &&& #[trigger] table_lookup(out.params, out.data@, spec_mixsplit(spec_hash_key(keys[i]), out.params.seed)) == raw[i]
            &&& (out.checks matches Some(c) ==> table_lookup(out.params, c@, spec_mixsplit(spec_hash_key(keys[i]), out.params.seed))
                == spec_fingerprint(spec_mixsplit(spec_hash_key(keys[i]), out.params.seed)))
        } by {
            assert(hs[i] == spec_hash_key(keys[i]));
            assert(table_lookup(out.params, out.data@, spec_mixsplit(hs[i], out.params.seed)) == raw[i]);
        }
        assert forall|i: int, j: int| 0 <= i < j < keys.len() implies
            #[trigger] spec_mixsplit(spec_hash_key(keys[i]), out.params.seed)
                != #[trigger] spec_mixsplit(spec_hash_key(keys[j]), out.params.seed) by {
            assert(hs[i] == spec_hash_key(keys[i]));
            assert(hs[j] == spec_hash_key(keys[j]));
            assert(spec_mixsplit(hs[i], out.params.seed) != spec_mixsplit(hs[j], out.params.seed));
        }
    }
    if keys.len() == 0 {
        assert(out.params.empty_geometry());
    }
}

/// Reading back what was built: a map that holds keys with the encodings of
/// their values answers each key with the encoding of its value, and
/// decoding that answer is what `get` returns.
pub proof fn lemma_read_back<V: StaticFuseValue>(m: StaticFuseMap<V>, keys: Seq<&str>, values: Seq<V>, raw: Seq<u64>, i: int)
    requires
        keys.len() == values.len(),
        encodes(values, raw),
        m.holds(keys, raw),
        0 <= i < keys.len(),
    ensures
        m.answer(keys[i]) == raw[i],
        call_ensures(V::into_u64, (values[i],), m.answer(keys[i])),
{
}

/// A map never holds the same key twice: the keys a map was built from are
/// pairwise different, and so are their hashes.
pub proof fn lemma_keys_distinct<V>(m: StaticFuseMap<V>, keys: Seq<&str>, raw: Seq<u64>, i: int, j: int)
    requires
        m.holds(keys, raw),
        0 <= i < keys.len(),
        0 <= j < keys.len(),
        i != j,
    ensures
        keys[i] != keys[j],
        spec_hash_key(keys[i]) != spec_hash_key(keys[j]),
{
    if i < j {
        assert(spec_mixsplit(spec_hash_key(keys[i]), m.params().seed) != spec_mixsplit(spec_hash_key(keys[j]), m.params().seed));
    } else {
        assert(spec_mixsplit(spec_hash_key(keys[j]), m.params().seed) != spec_mixsplit(spec_hash_key(keys[i]), m.params().seed));
    }
}

/// A checked map never holds the same key twice either.
pub proof fn lemma_checked_keys_distinct<V>(m: VerifiedStaticFuseMap<V>, keys: Seq<&str>, raw: Seq<u64>, i: int, j: int)
    requires
        m.holds(keys, raw),
        0 <= i < keys.len(),
        0 <= j < keys.len(),
        i != j,
    ensures
        keys[i] != keys[j],
        spec_hash_key(keys[i]) != spec_hash_key(keys[j]),
{
    if i < j {
        assert(spec_mixsplit(spec_hash_key(keys[i]), m.params().seed) != spec_mixsplit(spec_hash_key(keys[j]), m.params().seed));
    } else {
        assert(spec_mixsplit(spec_hash_key(keys[j]), m.params().seed) != spec_mixsplit(spec_hash_key(keys[i]), m.params().seed));
    }
}

/// Reading back from a checked map: every key the map holds passes its
/// fingerprint check and is answered with the encoding of its value.
pub proof fn lemma_checked_read_back<V: StaticFuseValue>(
    m: VerifiedStaticFuseMap<V>,
    keys: Seq<&str>,
    values: Seq<V>,
    raw: Seq<u64>,
    i: int,
)
    requires
        keys.len() == values.len(),
        encodes(values, raw),
        m.holds(keys, raw),
        0 <= i < keys.len(),
    ensures
        m.check_passes(keys[i]),
        m.answer(keys[i]) == raw[i],
        call_ensures(V::into_u64, (values[i],), m.answer(keys[i])),
{
    assert(m.answer(keys[i]) == raw[i]);
}

/// Storing and restoring: the fields of a map pass the checks made when they
/// are read back, and describe the same parameters, so the restored map has
/// the same seed, geometry and table.
pub proof fn lemma_parts_round_trip<V>(m: StaticFuseMap<V>)
    requires
        table_ok(m.params(), m.table().len() as int),
    ensures
        stored_params(m.params().seed, m.params().segment_length, m.params().segment_count, m.params().len)
            == m.params(),
        m.params().spec_validate(m.table().len() as usize, None) == Ok::<(), ParamsError>(()),
{
    lemma_stored_params_of_wf(m.params());
}

/// Storing and restoring a checked map: its fields, with both tables, pass
/// the checks made when they are read back and describe the same parameters.
pub proof fn lemma_checked_parts_round_trip<V>(m: VerifiedStaticFuseMap<V>)
    requires
        table_ok(m.params(), m.table().len() as int),
        m.check_table().len() == m.table().len(),
    ensures
        stored_params(m.params().seed, m.params().segment_length, m.params().segment_count, m.params().len)
            == m.params(),
        m.params().spec_validate(m.table().len() as usize, Some(m.check_table().len() as usize))
            == Ok::<(), ParamsError>(()),
{
    lemma_stored_params_of_wf(m.params());
}

proof fn lemma_stored_params_of_wf(p: Params)
    requires
        p.wf() || (p.len == 0 && p.empty_geometry()),
    ensures
        stored_params(p.seed, p.segment_length, p.segment_count, p.len) == p,
{
    if p.wf() {
        assert(p.segment_count * p.segment_length <= (p.segment_count + 2) * p.segment_length) by (nonlinear_arith);
    }
}

/// Carries an allocator for the buffers that a `StaticFuseMap`'s table is
/// read into while it is deserialized; the map itself keeps its table in a
/// standard `Vec`.
pub struct StaticFuseMapSeed<V, A> {
    alloc: A,
    marker: PhantomData<V>,
}

impl<V, A> StaticFuseMapSeed<V, A> {
    /// The allocator this seed carries.
    pub closed spec fn allocator(&self) -> A {
        self.alloc
    }

    /// A seed that carries `alloc`.
    pub fn new(alloc: A) -> (s: Self)
        ensures
            s.allocator() == alloc,
    {
        StaticFuseMapSeed { alloc, marker: PhantomData }
    }

    /// Gives back the allocator this seed carries.
    pub fn into_allocator(self) -> (a: A)
        ensures
            a == self.allocator(),
    {
        self.alloc
    }
}

/// Carries an allocator for the buffers that a `VerifiedStaticFuseMap`'s
/// tables are read into while it is deserialized; the map itself keeps its
/// tables in standard `Vec`s.
pub struct VerifiedStaticFuseMapSeed<V, A> {
    alloc: A,
    marker: PhantomData<V>,
}

impl<V, A> VerifiedStaticFuseMapSeed<V, A> {
    /// The allocator this seed carries.
    pub closed spec fn allocator(&self) -> A {
        self.alloc
    }

    /// A seed that carries `alloc`.
    pub fn new(alloc: A) -> (s: Self)
        ensures
            s.allocator() == alloc,
    {
        VerifiedStaticFuseMapSeed { alloc, marker: PhantomData }
    }

    /// Gives back the allocator this seed carries.
    pub fn into_allocator(self) -> (a: A)
        ensures
            a == self.allocator(),
    {
        self.alloc
    }
}

} // verus!
