use image_watch::frontend::{frontend_hash, to_hex16};
use std::hash::{Hash, Hasher};

#[test]
fn hex_is_padded_lowercase() {
    assert_eq!(to_hex16(0), "0000000000000000");
    assert_eq!(to_hex16(255), "00000000000000ff");
    assert_eq!(to_hex16(0x0123_4567_89ab_cdef), "0123456789abcdef");
    assert_eq!(to_hex16(u64::MAX), "ffffffffffffffff");
}

#[test]
fn frontend_hash_matches_std_hash_of_digests() {
    let digests: Vec<[u8; 32]> = vec![[1u8; 32], [7u8; 32]];
    let mut hasher = std::hash::DefaultHasher::new();
    digests.hash(&mut hasher);
    let expected = format!("{:016x}", hasher.finish());
    let as_vecs: Vec<Vec<u8>> = digests.iter().map(|d| d.to_vec()).collect();
    let stamp = frontend_hash(&as_vecs);
    assert_eq!(stamp, expected);
    assert_eq!(stamp.len(), 16);
    assert_ne!(frontend_hash(&vec![vec![1u8; 32]]), stamp);
}
