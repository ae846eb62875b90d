//! 32-byte digests and the hash functions over sequences of byte strings.

use vstd::prelude::*;

use sha2::Digest as _;

verus! {

/// A 32-byte hash value.
#[derive(Copy, Clone, PartialEq, Eq, Hash, Debug)]
pub struct Hash32(pub [u8; 32]);

impl View for Hash32 {
    type V = Seq<u8>;

    open spec fn view(&self) -> Seq<u8> {
        self.0@
    }
}

impl Hash32 {
    /// The bytes of the hash.
    pub fn as_ref(&self) -> (bytes: &[u8])
        ensures
            bytes@ == self@,
    {
        self.0.as_slice()
    }
}

/// The byte strings that the parts of a message stand for.
pub open spec fn part_views(parts: Seq<&[u8]>) -> Seq<Seq<u8>> {
    parts.map_values(|p: &[u8]| p@)
}

/// Every byte string of `hashes` is 32 bytes long, the length of a hash.
pub open spec fn all_32_bytes(hashes: Seq<Seq<u8>>) -> bool {
    forall|i: int| 0 <= i < hashes.len() ==> (#[trigger] hashes[i]).len() == 32
}

/// A hash function over a message given as a sequence of byte strings.
pub trait Hasher: Copy + Clone + Sized + 'static {
    /// The hash of a message given as its parts.
    spec fn spec_hash(parts: Seq<Seq<u8>>) -> Seq<u8>;

    fn hash(parts: &[&[u8]]) -> (h: Hash32)
        ensures
            h@ == Self::spec_hash(part_views(parts@)),
    ;
}

/// SHA-256 of a byte string.
pub uninterp spec fn sha256(data: Seq<u8>) -> Seq<u8>;

/// Calls `sha2::Sha256::digest`, which computes the SHA-256 hash of `data`;
/// the contract claims that the 32 bytes returned are that hash.
#[verifier::external_body]
fn sha256_digest(data: &[u8]) -> (out: [u8; 32])
    ensures
        out@ == sha256(data@),
{
    sha2::Sha256::digest(data).into()
}

/// A collision of SHA-256: two different byte strings with the same hash.
pub open spec fn sha256_has_collision() -> bool {
    exists|a: Seq<u8>, b: Seq<u8>|
        #![trigger sha256(a), sha256(b)]
        a != b && sha256(a) == sha256(b)
}

/// SHA-256 over the concatenation of the parts.
#[derive(Copy, Clone)]
pub struct Sha256Hasher;

impl Hasher for Sha256Hasher {
    open spec fn spec_hash(parts: Seq<Seq<u8>>) -> Seq<u8> {
        sha256(parts.flatten())
    }

    fn hash(parts: &[&[u8]]) -> (h: Hash32) {
        let mut message: Vec<u8> = Vec::new();
        let mut i: usize = 0;
        while i < parts.len()
            invariant
                i <= parts@.len(),
                message@ == part_views(parts@).take(i as int).flatten(),
            decreases parts@.len() - i,
        {
            let part: &[u8] = parts[i];
            let mut j: usize = 0;
            let ghost before = message@;
            while j < part.len()
                invariant
                    j <= part@.len(),
                    message@ == before + part@.take(j as int),
                decreases part@.len() - j,
            {
                message.push(part[j]);
                j = j + 1;
                proof {
                    assert(part@.take(j as int) == part@.take(j - 1 as int).push(part@[j - 1]));
                }
            }
            proof {
                let views = part_views(parts@);
                assert(part@.take(part@.len() as int) == part@);
                assert(views.take(i + 1 as int) == views.take(i as int).push(views[i as int]));
                views.take(i as int).lemma_flatten_push(views[i as int]);
            }
            i = i + 1;
        }
        proof {
            assert(part_views(parts@).take(parts@.len() as int) == part_views(parts@));
        }
        Hash32(sha256_digest(message.as_slice()))
    }
}

/// `Sha256Hasher` hashes every byte of a message: two messages with the
/// same hash are the same bytes, or else SHA-256 has a collision.
pub proof fn lemma_sha256_hasher_binds(p: Seq<Seq<u8>>, q: Seq<Seq<u8>>)
    requires
        Sha256Hasher::spec_hash(p) == Sha256Hasher::spec_hash(q),
    ensures
        p.flatten() == q.flatten() || sha256_has_collision(),
{
    if p.flatten() != q.flatten() {
        assert(sha256(p.flatten()) == sha256(q.flatten()));
        assert(sha256_has_collision());
    }
}

} // verus!
