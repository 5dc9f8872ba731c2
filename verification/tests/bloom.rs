use pocket_lsm::storage::bloom::hash::{HashFunc, XxHash3Impl};
use pocket_lsm::storage::bloom::BloomFilter;
use pocket_lsm::EngineError;
use std::hash::Hasher;

#[test]
fn added_member_is_probably_contained() {
    let mut filter = BloomFilter::default();

    filter.add(b"alpha");

    assert!(filter.contains(b"alpha"));
}

#[test]
fn add_accepts_owned_and_borrowed_bytes() {
    let mut filter = BloomFilter::default();
    let owned = b"beta".to_vec();

    filter.add(&owned.clone());
    filter.add(&owned);
    filter.add(owned.as_slice());

    assert!(filter.contains(b"beta"));
}

#[test]
fn decode_round_trips_filter() {
    let mut filter = BloomFilter::default();
    filter.add(b"alpha");
    filter.add(b"beta");

    let decoded = BloomFilter::decode(&filter.encode()).unwrap();

    assert!(decoded.contains(b"alpha"));
    assert!(decoded.contains(b"beta"));
}

#[test]
fn encode_stores_only_required_bitset_bytes() {
    let filter = BloomFilter::new(120, vec![XxHash3Impl::from_seed(1)]);
    let bytes = filter.encode();

    assert_eq!(bytes.len(), 8 + 8 + 4 + 8 + 15);
}

#[test]
fn hash_is_seeded_xxh3_of_the_bytes() {
    let h = XxHash3Impl::from_seed(7);
    let mut streaming = twox_hash::XxHash3_64::with_seed(7);
    streaming.write(b"abc");
    assert_eq!(h.encode(b"abc"), streaming.finish());
    assert_eq!(h.encode(b"abc"), twox_hash::XxHash3_64::oneshot_with_seed(7, b"abc"));
    assert_ne!(h.encode(b"abc"), XxHash3Impl::from_seed(8).encode(b"abc"));
    assert_eq!(h.seed(), 7);
}

#[test]
fn empty_filter_contains_nothing_and_encodes_exactly() {
    let filter = BloomFilter::new(8, vec![XxHash3Impl::from_seed(3), XxHash3Impl::from_seed(4)]);
    assert!(!filter.contains(b"x"));
    let bytes = filter.encode();
    let mut expected = Vec::new();
    expected.extend_from_slice(&13794972908406357291u64.to_le_bytes());
    expected.extend_from_slice(&8u64.to_le_bytes());
    expected.extend_from_slice(&2u32.to_le_bytes());
    expected.extend_from_slice(&3u64.to_le_bytes());
    expected.extend_from_slice(&4u64.to_le_bytes());
    expected.push(0);
    assert_eq!(bytes, expected);
}

#[test]
fn decoded_filter_keeps_its_bits_and_seeds() {
    let mut filter = BloomFilter::new(200, vec![XxHash3Impl::from_seed(5)]);
    for member in [b"a".as_slice(), b"bb", b"ccc", b"dddd"] {
        filter.add(member);
    }
    let bytes = filter.encode();
    let decoded = BloomFilter::decode(&bytes).unwrap();
    assert_eq!(decoded.encode(), bytes);
    for member in [b"a".as_slice(), b"bb", b"ccc", b"dddd"] {
        assert!(decoded.contains(member));
    }
}

#[test]
fn decode_rejects_each_corruption() {
    let filter = BloomFilter::new(16, vec![XxHash3Impl::from_seed(9)]);
    let bytes = filter.encode();

    let mut bad_magic = bytes.clone();
    bad_magic[0] ^= 1;
    assert_eq!(BloomFilter::decode(&bad_magic).err(), Some(EngineError::CorruptBloomFilter("invalid magic")));

    let mut zero_size = bytes.clone();
    zero_size[8..16].copy_from_slice(&0u64.to_le_bytes());
    assert_eq!(BloomFilter::decode(&zero_size).err(), Some(EngineError::CorruptBloomFilter("zero-sized filter")));

    let mut no_hashes = bytes.clone();
    no_hashes[16..20].copy_from_slice(&0u32.to_le_bytes());
    assert_eq!(BloomFilter::decode(&no_hashes).err(), Some(EngineError::CorruptBloomFilter("no hash functions")));

    let mut long = bytes.clone();
    long.push(0);
    assert_eq!(BloomFilter::decode(&long).err(), Some(EngineError::CorruptBloomFilter("unexpected bitset length")));

    assert_eq!(BloomFilter::decode(&bytes[..5]).err(), Some(EngineError::CorruptFormat("truncated bytes")));
    assert_eq!(BloomFilter::decode(&bytes[..24]).err(), Some(EngineError::CorruptFormat("truncated bytes")));
}
