use mavacs_plus::chronoforest::digest::Digest;
use mavacs_plus::hash::{Hash32, Sha256Hasher};

#[test]
fn empty_digest() {
    let d = Digest::empty();
    assert_eq!(d.size, 0);
    assert_eq!(d.num_peaks(), 0);
    assert!(d.is_empty());
}

#[test]
fn digest_serialization() {
    let roots = vec![Hash32([1u8; 32]), Hash32([2u8; 32])];
    let digest = Digest::new(roots.clone(), 42);

    let bytes = digest.to_bytes();
    let recovered = Digest::from_bytes(&bytes).unwrap();

    assert_eq!(recovered.size, 42);
    assert_eq!(recovered.roots, roots);
}

#[test]
fn commitment_hash_deterministic() {
    let roots = vec![Hash32([1u8; 32])];
    let d1 = Digest::new(roots.clone(), 1);
    let d2 = Digest::new(roots, 1);

    let h1 = d1.commitment_hash::<Sha256Hasher>();
    let h2 = d2.commitment_hash::<Sha256Hasher>();

    assert_eq!(h1, h2);
}

#[test]
fn different_digests_different_hashes() {
    let d1 = Digest::new(vec![Hash32([1u8; 32])], 1);
    let d2 = Digest::new(vec![Hash32([2u8; 32])], 1);

    let h1 = d1.commitment_hash::<Sha256Hasher>();
    let h2 = d2.commitment_hash::<Sha256Hasher>();

    assert_ne!(h1, h2);
}
