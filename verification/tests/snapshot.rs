use byteorder::{ByteOrder, LittleEndian};
use dactory::bloom::BloomFilter;
use dactory::error::FilterError;

fn snapshot(num_hashes: i32, declared_len: u64, body: &[u8]) -> Vec<u8> {
    let mut out = vec![0u8; 12];
    LittleEndian::write_i32(&mut out[0..4], num_hashes);
    LittleEndian::write_u64(&mut out[4..12], declared_len);
    out.extend_from_slice(body);
    out
}

#[test]
fn load_reads_header_and_bit_array() {
    let bytes = [2u8, 0, 0, 0, 3, 0, 0, 0, 0, 0, 0, 0, 0xaa, 0xbb, 0xcc];
    let filter = BloomFilter::load(&bytes).unwrap();
    assert_eq!(filter.num_hashes(), 2);
    assert_eq!(filter.bits(), &[0xaau8, 0xbb, 0xcc][..]);
}

#[test]
fn save_writes_little_endian_header() {
    let mut filter = BloomFilter::new(24, 3).unwrap();
    filter.set_idx(0);
    filter.set_idx(9);
    assert_eq!(filter.save(), vec![3u8, 0, 0, 0, 3, 0, 0, 0, 0, 0, 0, 0, 1, 2, 0]);
}

#[test]
fn load_after_save_gives_the_same_filter() {
    let mut filter = BloomFilter::new(4096, 5).unwrap();
    for i in 0..100u32 {
        filter.set(format!("line {}", i).as_bytes());
    }
    let loaded = BloomFilter::load(&filter.save()).unwrap();
    assert_eq!(loaded.num_hashes(), 5);
    assert_eq!(loaded.bits(), filter.bits());
    assert!(loaded.get(b"line 7"));
    assert_eq!(loaded.save(), filter.save());
}

#[test]
fn short_snapshots_are_corrupt() {
    assert_eq!(BloomFilter::load(&[]).err(), Some(FilterError::CorruptData));
    assert_eq!(BloomFilter::load(&[2u8; 11]).err(), Some(FilterError::CorruptData));
    let truncated = snapshot(2, 4, &[1, 2, 3]);
    assert_eq!(BloomFilter::load(&truncated).err(), Some(FilterError::CorruptData));
    let huge = snapshot(2, u64::MAX, &[1, 2, 3]);
    assert_eq!(BloomFilter::load(&huge).err(), Some(FilterError::CorruptData));
}

#[test]
fn headers_that_declare_no_filter_are_rejected() {
    for k in [0i32, -1, 9, i32::MIN, i32::MAX] {
        let bytes = snapshot(k, 2, &[0, 0]);
        assert_eq!(BloomFilter::load(&bytes).err(), Some(FilterError::InvalidConfiguration));
    }
    let empty = snapshot(2, 0, &[]);
    assert_eq!(BloomFilter::load(&empty).err(), Some(FilterError::InvalidConfiguration));
}

#[test]
fn bytes_beyond_the_declared_length_are_ignored() {
    let bytes = snapshot(8, 2, &[7, 9, 11, 13]);
    let filter = BloomFilter::load(&bytes).unwrap();
    assert_eq!(filter.num_hashes(), 8);
    assert_eq!(filter.bits(), &[7u8, 9][..]);
}

#[test]
fn header_fields_use_every_byte() {
    // A declared length that differs from the real one only in a high byte.
    let mut bytes = snapshot(1, 2, &[0, 0]);
    bytes[11] = 1;
    assert_eq!(BloomFilter::load(&bytes).err(), Some(FilterError::CorruptData));
    let mut bytes = snapshot(1, 2, &[0, 0]);
    bytes[3] = 1;
    assert_eq!(BloomFilter::load(&bytes).err(), Some(FilterError::InvalidConfiguration));
    let big = vec![0x5au8; 300];
    let filter = BloomFilter::load(&snapshot(1, 300, &big)).unwrap();
    assert_eq!(filter.bits().len(), 300);
    assert_eq!(&filter.save()[4..12], &[0x2cu8, 1, 0, 0, 0, 0, 0, 0][..]);
}
