use cphf::{build, BuildError, Config, OrderedMap};

fn key_u32(x: u32) -> Vec<u8> {
    x.to_le_bytes().to_vec()
}

fn key_str(s: &str) -> Vec<u8> {
    s.as_bytes().to_vec()
}

#[test]
fn keyword_scenario() {
    let entries: Vec<(Vec<u8>, u32)> = vec![
        (key_str("loop"), 0),
        (key_str("continue"), 1),
        (key_str("break"), 2),
        (key_str("fn"), 3),
        (key_str("extern"), 4),
    ];
    let map = build(entries, Config::new()).unwrap();
    assert_eq!(map.len(), 5);
    assert_eq!(map.bucket_count(), 1);
    assert_eq!(map.table_len(), 8);
    assert_eq!(map.get(b"fn"), Some(&3));
    assert_eq!(map.get(b"class"), None);
    assert_eq!(map.get(b"loop"), Some(&0));
    assert_eq!(map.get(b"continue"), Some(&1));
    assert_eq!(map.get(b"break"), Some(&2));
    assert_eq!(map.get(b"extern"), Some(&4));
}

#[test]
fn order_preservation() {
    let entries: Vec<(Vec<u8>, i32)> =
        vec![(key_str("b"), 2), (key_str("a"), 1), (key_str("c"), 3)];
    let map = build(entries, Config::new()).unwrap();
    assert_eq!(map.len(), 3);
    assert_eq!(map.key_at(0).as_slice(), b"b");
    assert_eq!(map.key_at(1).as_slice(), b"a");
    assert_eq!(map.key_at(2).as_slice(), b"c");
    assert_eq!(*map.value_at(0), 2);
    assert_eq!(*map.value_at(1), 1);
    assert_eq!(*map.value_at(2), 3);
}

#[test]
fn duplicate_rejection() {
    let entries: Vec<(Vec<u8>, ())> =
        vec![(key_u32(1), ()), (key_u32(2), ()), (key_u32(1), ())];
    let r = build(entries, Config::new());
    assert!(matches!(r, Err(BuildError::DuplicateKey)));
}

#[test]
fn determinism_same_seed_same_layout() {
    let make = || -> OrderedMap<u32> {
        let entries: Vec<(Vec<u8>, u32)> = (0..40u32).map(|x| (key_u32(x * 7 + 1), x)).collect();
        build(entries, Config::new()).unwrap()
    };
    let a = make();
    let b = make();
    assert_eq!(a.seed(), b.seed());
    assert_eq!(a.bucket_count(), b.bucket_count());
    assert_eq!(a.table_len(), b.table_len());
    assert_eq!(a.displacements(), b.displacements());
}

#[test]
fn scaling_120_entries() {
    let entries: Vec<(Vec<u8>, u32)> = (0..120u32).map(|x| (key_u32(x), x)).collect();
    let map = build(entries, Config::new()).unwrap();
    assert_eq!(map.len(), 120);
    // The sizing policy: ceil(120 / 5) buckets, table of the next power of two.
    assert_eq!(map.bucket_count(), 24);
    assert_eq!(map.table_len(), 128);
    for x in 0..120u32 {
        assert_eq!(map.get(&key_u32(x)), Some(&x));
    }
    for x in 1000..1100u32 {
        assert_eq!(map.get(&key_u32(x)), None);
    }
}

#[test]
fn empty_map() {
    let entries: Vec<(Vec<u8>, u8)> = vec![];
    let map = build(entries, Config::new()).unwrap();
    assert_eq!(map.len(), 0);
    assert!(map.is_empty());
    assert_eq!(map.get(b"anything"), None);
}

#[test]
fn single_entry() {
    let entries: Vec<(Vec<u8>, &str)> = vec![(key_str("only"), "value")];
    let map = build(entries, Config::new()).unwrap();
    assert_eq!(map.len(), 1);
    assert_eq!(map.get(b"only"), Some(&"value"));
    assert_eq!(map.get(b"onlx"), None);
    assert_eq!(map.get(b""), None);
}

#[test]
fn absent_keys_near_present_ones() {
    let entries: Vec<(Vec<u8>, u32)> = (0..32u32).map(|x| (key_u32(x), x)).collect();
    let map = build(entries, Config::new()).unwrap();
    // Prefix, extension and empty keys must all be rejected by the full
    // equality check, whatever slot their hash lands on.
    for x in 0..32u32 {
        let mut longer = key_u32(x);
        longer.push(0);
        assert_eq!(map.get(&longer), None);
        assert_eq!(map.get(&key_u32(x)[..3].to_vec()), None);
    }
    assert_eq!(map.get(b""), None);
}

#[test]
fn exhaustion_with_zero_attempts() {
    let mut config = Config::new();
    config.max_attempts = 0;
    let entries: Vec<(Vec<u8>, u32)> = vec![(key_u32(1), 1), (key_u32(2), 2)];
    let r = build(entries, config);
    assert!(matches!(r, Err(BuildError::ConstructionExhausted)));
}

#[test]
fn from_parts_roundtrip_single() {
    // A one-slot table: every displacement sends the only entry to slot 0.
    let map: OrderedMap<u8> =
        OrderedMap::from_parts(7, vec![(0, 0)], vec![Some(0)], vec![key_str("k")], vec![9])
            .unwrap();
    assert_eq!(map.len(), 1);
    assert_eq!(map.get(b"k"), Some(&9));
    assert_eq!(map.get(b"q"), None);
}

#[test]
fn from_parts_rejects_empty_index() {
    let r: Result<OrderedMap<u8>, BuildError> =
        OrderedMap::from_parts(7, vec![(0, 0)], vec![None], vec![key_str("k")], vec![9]);
    assert!(matches!(r, Err(BuildError::InvalidTable)));
}

#[test]
fn from_parts_rejects_dangling_slot() {
    let r: Result<OrderedMap<u8>, BuildError> =
        OrderedMap::from_parts(7, vec![(0, 0)], vec![Some(5)], vec![key_str("k")], vec![9]);
    assert!(matches!(r, Err(BuildError::InvalidTable)));
}

#[test]
fn from_parts_rejects_length_mismatch() {
    let r: Result<OrderedMap<u8>, BuildError> =
        OrderedMap::from_parts(7, vec![(0, 0)], vec![Some(0)], vec![key_str("k")], vec![]);
    assert!(matches!(r, Err(BuildError::InvalidTable)));
}

#[test]
fn from_parts_accepts_freshly_built_layout() {
    let entries: Vec<(Vec<u8>, u32)> = (0..10u32).map(|x| (key_u32(x), x + 100)).collect();
    let built = build(entries, Config::new()).unwrap();
    let seed = built.seed();
    let disps = built.displacements().clone();
    let mut idxs: Vec<Option<usize>> = vec![None; built.table_len()];
    let keys: Vec<Vec<u8>> = (0..10u32).map(key_u32).collect();
    let values: Vec<u32> = (0..10u32).map(|x| x + 100).collect();
    // Recompute each entry's slot exactly as the container does.
    for (i, key) in keys.iter().enumerate() {
        let h = cphf::hashing::hash_key(seed, key);
        let (d1, d2) = disps[(h.g as usize) % disps.len()];
        let slot = (d2.wrapping_add(h.f1.wrapping_mul(d1)).wrapping_add(h.f2) as usize)
            % built.table_len();
        idxs[slot] = Some(i);
    }
    let rebuilt: OrderedMap<u32> =
        OrderedMap::from_parts(seed, disps, idxs, keys, values).unwrap();
    for x in 0..10u32 {
        assert_eq!(rebuilt.get(&key_u32(x)), Some(&(x + 100)));
    }
}
