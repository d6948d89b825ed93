use cphf::{BuildError, Config, HashValue, OrderedSet};

fn key_str(s: &str) -> Vec<u8> {
    s.as_bytes().to_vec()
}

#[test]
fn set_membership_and_order() {
    let keys: Vec<Vec<u8>> = vec![key_str("b"), key_str("a"), key_str("c")];
    let set = OrderedSet::build_set(keys, Config::new()).unwrap();
    assert_eq!(set.len(), 3);
    assert!(set.contains(b"a"));
    assert!(set.contains(b"b"));
    assert!(set.contains(b"c"));
    assert!(!set.contains(b"d"));
    assert_eq!(set.key_at(0).as_slice(), b"b");
    assert_eq!(set.key_at(1).as_slice(), b"a");
    assert_eq!(set.key_at(2).as_slice(), b"c");
}

#[test]
fn set_duplicate_rejection() {
    let keys: Vec<Vec<u8>> = vec![
        0u32.to_le_bytes().to_vec(),
        1u32.to_le_bytes().to_vec(),
        0u32.to_le_bytes().to_vec(),
    ];
    let r = OrderedSet::build_set(keys, Config::new());
    assert!(matches!(r, Err(BuildError::DuplicateKey)));
}

#[test]
fn empty_set() {
    let set = OrderedSet::build_set(Vec::new(), Config::new()).unwrap();
    assert_eq!(set.len(), 0);
    assert!(set.is_empty());
    assert!(!set.contains(b"x"));
}

#[test]
fn hash_value_finalize_splits_the_digest() {
    let h = HashValue::finalize(0x1234_5678_9ABC_DEF0, 0x1111_2222_3333_4444);
    assert_eq!(h.g, 0x1234_5678);
    assert_eq!(h.f1, 0x9ABC_DEF0);
    assert_eq!(h.f2, 0x3333_4444);
}

#[test]
fn hash_value_new_is_zero() {
    let h = HashValue::new();
    assert_eq!(h.g, 0);
    assert_eq!(h.f1, 0);
    assert_eq!(h.f2, 0);
}

#[test]
fn hash_value_eq_and_gt() {
    let a = HashValue::finalize(0x0000_0001_0000_0002, 0x0000_0000_0000_0003);
    let b = HashValue::finalize(0x0000_0001_0000_0002, 0x0000_0000_0000_0003);
    let c = HashValue::finalize(0x0000_0002_0000_0001, 0x0000_0000_0000_0000);
    assert!(a.eq(&b));
    assert!(!a.eq(&c));
    // c has the larger g fragment, which dominates the 96-bit order.
    assert!(c.gt(&a));
    assert!(!a.gt(&c));
    assert!(!a.gt(&b));
    // f1 breaks ties before f2.
    let d = HashValue::finalize(0x0000_0001_0000_0003, 0x0000_0000_0000_0000);
    assert!(d.gt(&a));
    assert!(!a.gt(&d));
}

#[test]
fn hashing_depends_on_seed_and_bytes() {
    let h1 = cphf::hashing::hash_key(1, b"abc");
    let h2 = cphf::hashing::hash_key(2, b"abc");
    let h3 = cphf::hashing::hash_key(1, b"abd");
    let h4 = cphf::hashing::hash_key(1, b"abc");
    assert!(h1.eq(&h4));
    assert!(!h1.eq(&h2));
    assert!(!h1.eq(&h3));
}
