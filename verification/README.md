# static-fuse-map

A compact immutable map from strings to `u64`-encoded values, built with the
binary fuse filter construction and verified with Verus.

All keys are known when the map is built. A key's FNV-1a hash is mixed with a
seed; the mixed hash picks three slots in three consecutive segments of a
table, and the table is filled so that the three slots of every key combine,
by exclusive-or, to the key's value. `VerifiedStaticFuseMap` keeps a second
table of fingerprints, so that a key that was not in the map is answered with
`None` except with a probability of about 2^-64.

## Layout

- `src/` — the verified library.
  - `hash.rs`: key hashing, seeded mixing, seed generation, fingerprints.
  - `params.rs`: table geometry, slot computation, checks on stored parameters.
  - `model.rs`: the mathematical model of the slot counters (loads, exclusive-ors).
  - `construct.rs`: bucketing, counting, peeling and assigning; the seed loop.
  - `map.rs`: the two map types, their contracts and the laws they obey.
  - `bits.rs`, `value.rs`, `error.rs`: bit-level facts, the value trait, errors.
- `tests/` — tests of the library.
- `app/` — what the library leaves out: the floating-point sizing rule,
  serde support, the error messages as `Display`, and the map types with
  their conventional constructors.

## What is proved

- Construction: on success, the tables have the right size, the keys' mixed
  hashes are nonzero and pairwise different, and every key's three slots
  combine to the encoding of its value (and, for the checked map, to its
  fingerprint). A seed that mixes some key's hash to zero is passed over,
  since zero marks a free cell while keys are bucketed.
- A map built from no keys always succeeds, with all-zero parameters.
- Lookups return the decoding of the combination of the key's three slots.
- Stored fields of any map, the empty one included, pass the checks made
  when they are read back, and describe the same table.
- A built table uses the seed and geometry of an attempt before which every
  attempt was shown to fail, and has at least as many slots as keys.
- When construction gives up, every one of its attempts was shown to fail
  (a slot with 64 or more keys, or peeling stuck); a duplicate-hash error
  comes with a slot where two keys cancel out.
- Every arithmetic step is free of overflow, and no verified function panics.

## Storage

The tables are held in standard `Vec`s, in the global allocator. The seeds
that carry an allocator use it only for the buffers that tables are read
into while a map is deserialized; there are no allocator-aware constructors.
