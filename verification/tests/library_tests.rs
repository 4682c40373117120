use static_fuse_map::hash::{fingerprint, hash_key, mixsplit, murmur64, splitmix64};
use static_fuse_map::params::Params;
use static_fuse_map::construct::{build_from_hashes, sizing_fits_index_space};
use static_fuse_map::{
    BuildError, ParamsError, Sizing, StaticFuseMap, StaticFuseMapSeed, VerifiedStaticFuseMap,
    VerifiedStaticFuseMapSeed,
};

/// The segment sizes that the floating-point sizing rule gives for `n` keys.
fn sizing_for(n: usize) -> Sizing {
    let size = n as u32;
    let segment_length = if size == 0 {
        4
    } else {
        1u32 << ((size as f64).ln() / 3.33f64.ln() + 2.25).floor() as u32
    };
    let capacity = if size > 1 {
        let factor = 1.125f64.max(0.875 + 0.25 * 1_000_000f64.ln() / (size as f64).ln());
        ((size as f64) * factor).round() as u32
    } else {
        0
    };
    Sizing { segment_length, capacity }
}

fn fruit_keys() -> Vec<&'static str> {
    vec!["apple", "banana", "cherry", "date", "elderberry", "fig", "grape"]
}

#[test]
fn hash_key_is_fnv1a_of_utf8() {
    assert_eq!(hash_key(""), 0xcbf2_9ce4_8422_2325);
    assert_eq!(hash_key("a"), 0xaf63_dc4c_8601_ec8c);
    assert_eq!(hash_key("apple"), 0xf74a_62a4_58be_fdbf);
}

#[test]
fn murmur_and_mixsplit_values() {
    assert_eq!(murmur64(0), 0);
    assert_eq!(murmur64(1), 0xb456_bcfc_34c2_cb2c);
    assert_eq!(mixsplit(0xf74a_62a4_58be_fdbf, 5), 0x1fd2_c5e8_ee83_cb27);
    assert_ne!(mixsplit(1, 2), 1 + 2);
}

#[test]
fn splitmix_advances_counter() {
    let mut counter = 1u64;
    let first = splitmix64(&mut counter);
    assert_eq!(counter, 0x9e37_79b9_7f4a_7c16);
    assert_eq!(first, 0x910a_2dec_8902_5cc1);
    let mut zero = 0u64;
    assert_eq!(splitmix64(&mut zero), 0xe220_a839_7b1d_cdaf);
}

#[test]
fn fingerprint_folds_high_half() {
    assert_eq!(fingerprint((1u64 << 32) | 1), 1u64 << 32);
    assert_eq!(fingerprint(0), 0);
    assert_eq!(fingerprint(u64::MAX), 0xffff_ffff_0000_0000);
}

#[test]
fn initialized_geometry_for_five_keys() {
    let p = Params::initialized(5, Sizing { segment_length: 8, capacity: 15 });
    assert_eq!(p.segment_length, 8);
    assert_eq!(p.segment_length_mask, 7);
    assert_eq!(p.segment_count, 1);
    assert_eq!(p.segment_count_length, 8);
    assert_eq!(p.len, 5);
    assert_eq!(p.array_len(), 24);
}

#[test]
fn initialized_caps_segment_length() {
    let p = Params::initialized(2, Sizing { segment_length: 1 << 20, capacity: 3 });
    assert_eq!(p.segment_length, 262_144);
    assert_eq!(p.segment_count, 1);
    assert_eq!(p.array_len(), 3 * 262_144);
}

#[test]
fn slots_of_a_hash() {
    let mut p = Params::initialized(5, Sizing { segment_length: 8, capacity: 15 });
    p.seed = 5;
    assert_eq!(p.get_hash_from_hash(0xf74a_62a4_58be_fdbf), (7, 8, 16));
    assert_eq!(p.get_hash_from_hash(0), (0, 8, 16));
}

#[test]
fn empty_params_are_empty() {
    let p = Params::empty();
    assert_eq!(p.len, 0);
    assert_eq!(p.array_len(), 0);
    assert_eq!(p.validate(0, None), Ok(()));
    assert_eq!(p.validate(0, Some(1)), Err(ParamsError::InvalidEmpty));
}

#[test]
fn validate_reports_each_error() {
    let good = Params {
        seed: 1,
        segment_length: 4,
        segment_length_mask: 3,
        segment_count: 1,
        segment_count_length: 4,
        len: 1,
    };
    assert_eq!(good.validate(12, None), Ok(()));
    assert_eq!(good.validate(12, Some(12)), Ok(()));
    assert_eq!(good.validate(11, None), Err(ParamsError::DataLengthMismatch));
    assert_eq!(good.validate(12, Some(0)), Err(ParamsError::ChecksLengthMismatch));
    let not_pow2 = Params { segment_length: 3, segment_length_mask: 2, ..good };
    assert_eq!(not_pow2.validate(9, None), Err(ParamsError::SegmentLengthNotPowerOfTwo));
    let bad_mask = Params { segment_length_mask: 1, ..good };
    assert_eq!(bad_mask.validate(12, None), Err(ParamsError::InvalidSegmentLengthMask));
    let no_segments = Params { segment_count: 0, segment_count_length: 0, ..good };
    assert_eq!(no_segments.validate(8, None), Err(ParamsError::ZeroSegmentCount));
    let bad_count_length = Params { segment_count_length: 5, ..good };
    assert_eq!(bad_count_length.validate(12, None), Err(ParamsError::InvalidSegmentCountLength));
    let huge = Params {
        segment_length: 1 << 20,
        segment_length_mask: (1 << 20) - 1,
        segment_count: 5000,
        segment_count_length: u32::MAX,
        ..good
    };
    assert_eq!(huge.validate(0, None), Err(ParamsError::DataLengthMismatch));
    assert_eq!(huge.validate(5002usize << 20, None), Err(ParamsError::IndexSpaceOverflow));
    let wide = Params {
        segment_length: 1 << 31,
        segment_length_mask: (1 << 31) - 1,
        segment_count: 1,
        segment_count_length: 1 << 31,
        ..good
    };
    assert_eq!(wide.validate(0, None), Err(ParamsError::DataLengthMismatch));
    assert_eq!(wide.validate(3usize << 31, Some(0)), Err(ParamsError::ChecksLengthMismatch));
    let full = Params {
        segment_length: 1 << 20,
        segment_length_mask: (1 << 20) - 1,
        segment_count: 4094,
        segment_count_length: 4094 << 20,
        ..good
    };
    assert_eq!(full.validate(1usize << 32, None), Ok(()));
    assert_eq!(full.array_len(), 1usize << 32);
    let (h0, h1, h2) = full.get_hash_from_hash(u64::MAX);
    assert_eq!(h1 >> 20, (h0 >> 20) + 1);
    assert_eq!(h2 >> 20, (h0 >> 20) + 2);
    let too_big = Params { segment_count: 4095, segment_count_length: 4095 << 20, ..full };
    assert_eq!(too_big.validate(4097usize << 20, None), Err(ParamsError::IndexSpaceOverflow));
    assert!(ParamsError::IndexSpaceOverflow.message().contains("index space"));
}

// The serialized form of a map is its stored fields; these rebuild maps
// from the same field values that the serialized forms carry.

#[test]
fn serde_round_trip_static() {
    let map = StaticFuseMap::try_from_iter(&[("apple", 100u64), ("banana", 200)], sizing_for(2)).unwrap();
    let decoded = StaticFuseMap::<u64>::from_parts(
        map.seed(),
        map.segment_length(),
        map.segment_count(),
        map.len(),
        map.data().to_vec(),
    )
    .unwrap();
    assert_eq!(decoded.get("apple"), 100);
    assert_eq!(decoded.get("banana"), 200);
}

#[test]
fn serde_round_trip_verified() {
    let map = VerifiedStaticFuseMap::try_from_iter(&[("apple", 100u64), ("banana", u64::MAX)], sizing_for(2))
        .unwrap();
    let decoded = VerifiedStaticFuseMap::<u64>::from_parts(
        map.seed(),
        map.segment_length(),
        map.segment_count(),
        map.len(),
        map.data().to_vec(),
        map.checks().to_vec(),
    )
    .unwrap();
    assert_eq!(decoded.get("apple"), Some(100));
    assert_eq!(decoded.get("banana"), Some(u64::MAX));
    assert_eq!(decoded.get("missing"), None);
}

#[test]
fn serde_rejects_malformed_static_map() {
    let err = StaticFuseMap::<u64>::from_parts(1, 4, 1, 1, vec![]).unwrap_err();
    assert_eq!(err, ParamsError::DataLengthMismatch);
    assert!(err.message().contains("data length"));
}

#[test]
fn serde_rejects_malformed_verified_map() {
    let err = VerifiedStaticFuseMap::<u64>::from_parts(1, 4, 1, 1, vec![], vec![]).unwrap_err();
    assert_eq!(err, ParamsError::DataLengthMismatch);
    assert!(err.message().contains("data length"));
}

#[test]
fn serde_rejects_mismatched_verified_checks() {
    let err = VerifiedStaticFuseMap::<u64>::from_parts(1, 4, 1, 1, vec![0; 12], vec![]).unwrap_err();
    assert_eq!(err, ParamsError::ChecksLengthMismatch);
    assert!(err.message().contains("checks length"));
}

#[test]
fn parts_round_trip_static() {
    let keys = fruit_keys();
    let values: Vec<u64> = (0..keys.len() as u64).map(|i| i * 11 + 3).collect();
    let map = StaticFuseMap::new(&keys, &values, sizing_for(keys.len())).unwrap();
    let restored = StaticFuseMap::<u64>::from_parts(
        map.seed(),
        map.segment_length(),
        map.segment_count(),
        map.len(),
        map.data().to_vec(),
    )
    .unwrap();
    assert_eq!(restored.data(), map.data());
    for (key, value) in keys.iter().zip(values) {
        assert_eq!(restored.get(key), value);
    }
}

#[test]
fn parts_round_trip_verified() {
    let keys = fruit_keys();
    let values: Vec<u64> = (0..keys.len() as u64).map(|i| u64::MAX - i).collect();
    let map = VerifiedStaticFuseMap::new(&keys, &values, sizing_for(keys.len())).unwrap();
    let restored = VerifiedStaticFuseMap::<u64>::from_parts(
        map.seed(),
        map.segment_length(),
        map.segment_count(),
        map.len(),
        map.data().to_vec(),
        map.checks().to_vec(),
    )
    .unwrap();
    for (key, value) in keys.iter().zip(values) {
        assert_eq!(restored.get(key), Some(value));
    }
    assert_eq!(restored.get("missing"), None);
}

#[test]
fn empty_map_parts_are_restored() {
    let map = StaticFuseMap::<u64>::new(&[], &[], sizing_for(0)).unwrap();
    let restored = StaticFuseMap::<u64>::from_parts(
        map.seed(),
        map.segment_length(),
        map.segment_count(),
        map.len(),
        map.data().to_vec(),
    )
    .unwrap();
    assert_eq!(restored.len(), 0);
    assert!(restored.is_empty());
    assert_eq!(restored.get("anything"), 0);
    let checked = VerifiedStaticFuseMap::<u64>::new(&[], &[], sizing_for(0)).unwrap();
    let restored = VerifiedStaticFuseMap::<u64>::from_parts(0, 0, 0, 0, vec![], vec![]).unwrap();
    assert_eq!(restored.len(), checked.len());
    assert_eq!(restored.get("anything"), None);
}

#[test]
fn largest_sizing_fits_the_index_space() {
    let sizing = Sizing { segment_length: 1 << 18, capacity: u32::MAX };
    assert!(sizing_fits_index_space(u32::MAX, sizing));
    let p = Params::initialized(u32::MAX, sizing);
    assert_eq!(p.array_len(), 1usize << 32);
    let sizing = Sizing { segment_length: 1 << 30, capacity: u32::MAX };
    assert!(sizing_fits_index_space(u32::MAX, sizing));
}

#[test]
fn mismatched_lengths_report_both() {
    let err = VerifiedStaticFuseMap::new(&["a", "b", "c"], &[1u64], sizing_for(3)).unwrap_err();
    assert!(matches!(err, BuildError::MismatchedLengths { keys: 3, values: 1 }));
}

#[test]
fn small_value_types_read_back() {
    let keys = fruit_keys();
    let bytes: Vec<u8> = (0..keys.len() as u8).map(|i| 250 - i).collect();
    let map = StaticFuseMap::new(&keys, &bytes, sizing_for(keys.len())).unwrap();
    for (key, value) in keys.iter().zip(bytes) {
        assert_eq!(map.get(key), value);
    }
    let words: Vec<u16> = (0..keys.len() as u16).map(|i| 60_000 + i).collect();
    let map = VerifiedStaticFuseMap::new(&keys, &words, sizing_for(keys.len())).unwrap();
    for (key, value) in keys.iter().zip(words) {
        assert_eq!(map.get(key), Some(value));
    }
    let sizes: Vec<usize> = (0..keys.len()).map(|i| i * 1000).collect();
    let map = StaticFuseMap::new(&keys, &sizes, sizing_for(keys.len())).unwrap();
    for (key, value) in keys.iter().zip(sizes) {
        assert_eq!(map.get(key), value);
    }
    let pairs: Vec<(&str, u32)> = keys.iter().map(|k| (*k, k.len() as u32)).collect();
    let map = StaticFuseMap::try_from_iter(&pairs, sizing_for(pairs.len())).unwrap();
    for (key, value) in pairs {
        assert_eq!(map.get(key), value);
    }
}

#[test]
fn single_key_maps() {
    let map = StaticFuseMap::new(&["only"], &[42u64], sizing_for(1)).unwrap();
    assert_eq!(map.len(), 1);
    assert!(!map.is_empty());
    assert_eq!(map.get("only"), 42);
    assert_eq!(map.data().len(), 12);
}

#[test]
fn table_bytes_cover_the_tables() {
    let keys = fruit_keys();
    let values: Vec<u64> = (0..keys.len() as u64).collect();
    let map = StaticFuseMap::new(&keys, &values, sizing_for(keys.len())).unwrap();
    assert!(map.table_bytes() >= 8 * map.data().len());
    assert_eq!(map.table_bytes() % 8, 0);
    let checked = VerifiedStaticFuseMap::new(&keys, &values, sizing_for(keys.len())).unwrap();
    assert!(checked.table_bytes() >= 8 * (checked.data().len() + checked.checks().len()));
}

#[test]
fn clones_answer_alike() {
    let keys = fruit_keys();
    let values: Vec<u64> = (0..keys.len() as u64).map(|i| i + 100).collect();
    let map = StaticFuseMap::new(&keys, &values, sizing_for(keys.len())).unwrap();
    let copy = map.clone();
    let checked = VerifiedStaticFuseMap::new(&keys, &values, sizing_for(keys.len())).unwrap();
    let checked_copy = checked.clone();
    for (key, value) in keys.iter().zip(values) {
        assert_eq!(copy.get(key), value);
        assert_eq!(checked_copy.get(key), Some(value));
    }
}

#[test]
fn seeds_carry_their_allocator() {
    let seed = StaticFuseMapSeed::<u64, u32>::new(7);
    assert_eq!(seed.into_allocator(), 7);
    let seed = VerifiedStaticFuseMapSeed::<u64, &str>::new("arena");
    assert_eq!(seed.into_allocator(), "arena");
}

#[test]
fn duplicate_keys_never_build() {
    let keys = ["kiwi", "lime", "kiwi", "plum", "pear", "sloe"];
    let values = [1u64, 2, 3, 4, 5, 6];
    assert!(StaticFuseMap::new(&keys, &values, sizing_for(keys.len())).is_err());
    assert!(VerifiedStaticFuseMap::new(&keys, &values, sizing_for(keys.len())).is_err());
    let same_value = [7u64; 6];
    assert!(StaticFuseMap::new(&keys, &same_value, sizing_for(keys.len())).is_err());
}

#[test]
fn built_seed_and_geometry_come_from_the_attempts() {
    let keys = fruit_keys();
    let values: Vec<u64> = (0..keys.len() as u64).collect();
    let s = sizing_for(keys.len());
    let map = StaticFuseMap::new(&keys, &values, s).unwrap();
    let mut counter = 1u64;
    let seeds: Vec<u64> = (0..=100).map(|_| splitmix64(&mut counter)).collect();
    let it = seeds.iter().position(|&x| x == map.seed()).unwrap();
    let base = Params::initialized(keys.len() as u32, s);
    if it % 4 == 2 {
        assert_eq!(map.segment_length(), base.segment_length / 2);
        assert_eq!(map.segment_count(), base.segment_count * 2 + 2);
    } else {
        assert_eq!(map.segment_length(), base.segment_length);
        assert_eq!(map.segment_count(), base.segment_count);
    }
    assert_eq!(map.data().len(), base.array_len());
}

#[test]
fn zero_mixed_hash_passes_the_seed_over() {
    let mut counter = 1u64;
    let first_seed = splitmix64(&mut counter);
    let hashed = vec![0u64.wrapping_sub(first_seed), 11, 22, 33, 44, 55];
    assert_eq!(mixsplit(hashed[0], first_seed), 0);
    let raw = vec![1u64, 2, 3, 4, 5, 6];
    let out = build_from_hashes(&hashed, &raw, true, sizing_for(hashed.len())).unwrap();
    assert_ne!(out.params.seed, first_seed);
    let checks = out.checks.as_ref().unwrap();
    for (h, v) in hashed.iter().zip(raw) {
        let m = mixsplit(*h, out.params.seed);
        assert_ne!(m, 0);
        let (a, b, c) = out.params.get_hash_from_hash(m);
        let (a, b, c) = (a as usize, b as usize, c as usize);
        assert_eq!(out.data[a] ^ out.data[b] ^ out.data[c], v);
        assert_eq!(checks[a] ^ checks[b] ^ checks[c], fingerprint(m));
    }
}

#[test]
fn build_error_messages() {
    assert!(BuildError::DuplicateHash.message().contains("duplicate"));
    assert!(BuildError::PeelFailed { attempts: 101 }.message().contains("failed to construct"));
    assert!(BuildError::TooManyKeys { len: 1 }.message().contains("32-bit"));
    assert!(BuildError::MismatchedLengths { keys: 1, values: 2 }.message().contains("equal length"));
}
