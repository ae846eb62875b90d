use mavacs_plus::chronoforest::forest::MerkleSquare;
use mavacs_plus::hash::Sha256Hasher;

#[test]
fn append_and_digest() {
    let mut msq: MerkleSquare<Sha256Hasher> = MerkleSquare::new(10);
    msq.append(b"a", b"1", b"sig").unwrap();
    msq.append(b"b", b"2", b"sig").unwrap();
    let d = msq.get_digest();
    assert_eq!(d.size, 2);
    assert_eq!(d.roots.len(), 1, "2 leaves -> one peak of height 1");
}

#[test]
fn peaks_binary_carry() {
    let mut msq: MerkleSquare = MerkleSquare::new(10);
    for i in 0..13 {
        msq.append(b"k", &[(i as u8)], b"s").unwrap();
    }
    // 13 = 8 + 4 + 1 -> three peaks
    assert_eq!(msq.roots.len(), 3);
    assert_eq!(msq.size, 13);
    assert!(msq.roots.windows(2).all(|w| w[0].height > w[1].height));
}
