use static_fuse_map::{BuildError, Sizing, StaticFuseMap, StaticFuseValue, VerifiedStaticFuseMap};

/// The segment sizes that the floating-point sizing rule gives for `n` keys.
fn sizing(n: usize) -> Sizing {
    let size = n as u32;
    let segment_length = if size == 0 {
        4
    } else {
        1u32 << ((size as f64).ln() / 3.33f64.ln() + 2.25).floor() as u32
    };
    let capacity = if size > 1 {
        let factor = 1.125f64.max(0.875 + 0.25 * 1_000_000f64.ln() / (size as f64).ln());
        ((size as f64) * factor).round() as u32
    } else {
        0
    };
    Sizing { segment_length, capacity }
}

#[derive(Clone, Copy, Debug, Eq, PartialEq)]
struct Id(u64);

impl StaticFuseValue for Id {
    fn into_u64(self) -> u64 {
        self.0
    }
    fn from_u64(raw: u64) -> Self {
        Id(raw)
    }
}

#[test]
fn basic() {
    let keys = ["apple", "banana", "cherry", "date", "elderberry"];
    let values = [100u64, 200, 300, 400, 500];
    let map = StaticFuseMap::new(&keys, &values, sizing(keys.len())).unwrap();
    for (key, value) in keys.iter().zip(values) {
        assert_eq!(map.get(key), value);
    }
}

#[test]
fn iterator_construction() {
    let map = StaticFuseMap::try_from_iter(&[("apple", 100u64), ("banana", 200)], sizing(2)).unwrap();
    assert_eq!(map.get("apple"), 100);
    assert_eq!(map.get("banana"), 200);
}

#[test]
fn empty() {
    let map = StaticFuseMap::<u64>::new(&[], &[], sizing(0)).unwrap();
    assert_eq!(map.len(), 0);
    assert!(map.is_empty());
}

#[test]
fn large() {
    let n = 100_000usize;
    let mut keys = Vec::new();
    let mut values = Vec::new();
    for i in 0..n {
        keys.push(format!("key-{i}"));
        values.push((i * 7) as u64);
    }
    let key_refs: Vec<&str> = keys.iter().map(|k| k.as_str()).collect();
    let map = StaticFuseMap::new(&key_refs, &values, sizing(n)).unwrap();
    for (key, value) in keys.iter().zip(values) {
        assert_eq!(map.get(key), value);
    }
}

#[test]
fn mismatched_lengths() {
    let err = StaticFuseMap::new(&["a"], &[1u64, 2], sizing(1)).unwrap_err();
    assert!(matches!(err, BuildError::MismatchedLengths { .. }));
}

#[test]
fn duplicate_key_hash() {
    let err = StaticFuseMap::try_from_iter(&[("a", 1u64), ("a", 2)], sizing(2)).unwrap_err();
    assert!(matches!(
        err,
        BuildError::DuplicateHash | BuildError::PeelFailed { .. }
    ));
}

#[test]
fn randomish_values() {
    let n = 50_000usize;
    let mut x = 42u64;
    let mut keys = Vec::new();
    let mut values = Vec::new();
    for i in 0..n {
        x ^= x << 13;
        x ^= x >> 7;
        x ^= x << 17;
        keys.push(format!("random-key-{i}-{x}"));
        values.push(x);
    }
    let key_refs: Vec<&str> = keys.iter().map(|k| k.as_str()).collect();
    let map = StaticFuseMap::new(&key_refs, &values, sizing(n)).unwrap();
    for (key, value) in keys.iter().zip(values) {
        assert_eq!(map.get(key), value);
    }
}

#[test]
fn verified_basic() {
    let keys = ["apple", "banana", "cherry", "date", "elderberry"];
    let values = [100u64, 200, 300, 400, 500];
    let map = VerifiedStaticFuseMap::new(&keys, &values, sizing(keys.len())).unwrap();
    for (key, value) in keys.iter().zip(values) {
        assert_eq!(map.get(key), Some(value));
    }
}

#[test]
fn verified_missing() {
    let map = VerifiedStaticFuseMap::try_from_iter(
        &[("apple", 100u64), ("banana", 200), ("cherry", 300)],
        sizing(3),
    )
    .unwrap();
    for key in ["grape", "kiwi", "mango", "pear", "plum"] {
        assert_eq!(map.get(key), None);
    }
}

#[test]
fn verified_large() {
    let n = 100_000usize;
    let mut keys = Vec::new();
    let mut values = Vec::new();
    for i in 0..n {
        keys.push(format!("key-{i}"));
        values.push((i * 7) as u64);
    }
    let key_refs: Vec<&str> = keys.iter().map(|k| k.as_str()).collect();
    let map = VerifiedStaticFuseMap::new(&key_refs, &values, sizing(n)).unwrap();
    for (key, value) in keys.iter().zip(values) {
        assert_eq!(map.get(key), Some(value));
    }
    for i in 0..10_000 {
        assert_eq!(map.get(&format!("missing-{i}")), None);
    }
}

#[test]
fn verified_empty() {
    let map = VerifiedStaticFuseMap::<u64>::new(&[], &[], sizing(0)).unwrap();
    assert_eq!(map.get("anything"), None);
}

#[test]
fn verified_u64_max_is_value() {
    let map = VerifiedStaticFuseMap::try_from_iter(&[("sentinel", u64::MAX)], sizing(1)).unwrap();
    assert_eq!(map.get("sentinel"), Some(u64::MAX));
    assert_eq!(map.get("missing"), None);
}

#[test]
fn newtype_value() {
    let keys = ["a", "b"];
    let values = [Id(10), Id(20)];
    let map = StaticFuseMap::new(&keys, &values, sizing(keys.len())).unwrap();
    assert_eq!(map.get("a"), Id(10));
    assert_eq!(map.get("b"), Id(20));
}
