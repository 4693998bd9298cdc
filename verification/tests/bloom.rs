use dactory::bloom::BloomFilter;
use dactory::error::FilterError;
use dactory::hash::{fnv1a, fnv1a_64, fnv1a_batch, init_value, INIT_VALUES};

#[test]
fn hello_is_found_and_world_is_not() {
    let mut filter = BloomFilter::new(1024, 2).unwrap();
    filter.set(b"hello");
    assert!(filter.get(b"hello"));
    assert!(!filter.get(b"world"));
}

#[test]
fn fresh_filter_is_all_zero_and_rounded_up() {
    let filter = BloomFilter::new(1024, 2).unwrap();
    assert_eq!(filter.bits().len(), 128);
    assert!(filter.bits().iter().all(|b| *b == 0));
    assert_eq!(filter.num_hashes(), 2);
    assert_eq!(BloomFilter::new(1, 1).unwrap().bits().len(), 1);
    assert_eq!(BloomFilter::new(9, 8).unwrap().bits().len(), 2);
    assert_eq!(BloomFilter::new(16, 8).unwrap().bits().len(), 2);
}

#[test]
fn bad_configurations_are_rejected() {
    assert_eq!(BloomFilter::new(1024, 0).err(), Some(FilterError::InvalidConfiguration));
    assert_eq!(BloomFilter::new(1024, 9).err(), Some(FilterError::InvalidConfiguration));
    assert_eq!(BloomFilter::new(0, 2).err(), Some(FilterError::InvalidConfiguration));
    assert!(BloomFilter::new(1024, 8).is_ok());
    assert!(BloomFilter::new(1024, 1).is_ok());
}

#[test]
fn fnv1a_known_values() {
    // Published test vectors of 64-bit FNV-1a.
    assert_eq!(fnv1a_64(b""), 0xcbf29ce484222325);
    assert_eq!(fnv1a_64(b"a"), 0xaf63dc4c8601ec8c);
    assert_eq!(fnv1a_64(b"foobar"), 0x85944171f73967e8);
    assert_eq!(fnv1a(b"foobar", None), 0x85944171f73967e8);
    assert_eq!(fnv1a(b"", Some(42)), 42);
    assert_eq!(fnv1a(b"a", Some(0)), 97u64.wrapping_mul(1099511628211));
}

#[test]
fn batch_hashes_equal_single_hashes() {
    let keys: [&[u8]; 4] = [b"", b"a", b"hello world", b"\xff\x00\x80"];
    for key in keys {
        let batch = fnv1a_batch::<8>(key);
        for i in 0..8 {
            assert_eq!(batch[i], fnv1a(key, Some(INIT_VALUES[i])));
            assert_eq!(init_value(i), INIT_VALUES[i]);
        }
        let two = fnv1a_batch::<2>(key);
        assert_eq!(two[0], batch[0]);
        assert_eq!(two[1], batch[1]);
        let none = fnv1a_batch::<0>(key);
        assert_eq!(none.len(), 0);
    }
}

#[test]
fn insert_sets_exactly_the_hashed_positions() {
    let mut filter = BloomFilter::new(1024, 2).unwrap();
    filter.set(b"hello");
    let mut expected = vec![0u8; 128];
    for i in 0..2 {
        let p = (fnv1a(b"hello", Some(INIT_VALUES[i])) % 1024) as usize;
        expected[p / 8] |= 1 << (p % 8);
    }
    assert_eq!(filter.bits(), &expected[..]);
}

#[test]
fn index_is_reduced_modulo_the_bit_count() {
    let mut filter = BloomFilter::new(16, 1).unwrap();
    assert!(!filter.get_idx(u64::MAX));
    filter.set_idx(u64::MAX);
    // 2^64 - 1 = 15 (mod 16): bit 7 of byte 1.
    assert_eq!(filter.bits(), &[0u8, 0x80][..]);
    assert!(filter.get_idx(15));
    assert!(filter.get_idx(31));
    assert!(!filter.get_idx(14));
    filter.set_idx(16);
    assert_eq!(filter.bits(), &[1u8, 0x80][..]);
}

#[test]
fn inserted_keys_stay_found() {
    let mut filter = BloomFilter::new(256, 3).unwrap();
    filter.set(b"first");
    for i in 0..200u32 {
        filter.set(format!("other {}", i).as_bytes());
        assert!(filter.get(b"first"));
    }
}

#[test]
fn inserting_twice_is_inserting_once() {
    let mut once = BloomFilter::new(512, 4).unwrap();
    let mut twice = BloomFilter::new(512, 4).unwrap();
    once.set(b"key");
    twice.set(b"key");
    twice.set(b"key");
    assert_eq!(once.bits(), twice.bits());
}

#[test]
fn set_bits_are_never_cleared() {
    let mut filter = BloomFilter::new(64, 2).unwrap();
    let mut before: Vec<u8> = filter.bits().to_vec();
    for i in 0..50u32 {
        filter.set(format!("k{}", i).as_bytes());
        let after: Vec<u8> = filter.bits().to_vec();
        for (a, b) in before.iter().zip(after.iter()) {
            assert_eq!(a & b, *a);
        }
        before = after;
    }
}

#[test]
fn empty_key_hashes_to_the_seeds() {
    let mut filter = BloomFilter::new(1024, 2).unwrap();
    assert!(!filter.get(b""));
    filter.set(b"");
    assert!(filter.get(b""));
    assert!(filter.get_idx(INIT_VALUES[0]));
    assert!(filter.get_idx(INIT_VALUES[1]));
}
