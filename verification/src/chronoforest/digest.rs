//! Peaks of the chronological forest and the digest of its state.

use vstd::prelude::*;
use vstd::bytes::{
    lemma_auto_spec_u32_to_from_le_bytes, spec_u32_from_le_bytes, spec_u32_to_le_bytes,
    u32_from_le_bytes, u32_to_le_bytes,
};
use vstd::string::{StringExecFns, StringSliceAdditionalSpecFns};

use crate::hash::{all_32_bytes, Hash32, Hasher};
use crate::merklesquare::arena::NodeId;

verus! {

/// One peak of the forest: the root of a perfect binary tree.
#[derive(Copy, Clone, Debug, PartialEq, Eq)]
pub struct Peak {
    /// Arena index of the root node.
    pub id: NodeId,
    /// Height of the tree (a single leaf has height 0).
    pub height: u32,
    /// Merkle root hash of the tree.
    pub hash: Hash32,
}

impl Peak {
    pub fn new(id: NodeId, height: u32, hash: Hash32) -> (peak: Self)
        ensures
            peak == (Peak { id, height, hash }),
    {
        Self { id, height, hash }
    }
}

/// The byte strings of a sequence of hashes.
pub open spec fn hash_views(hashes: Seq<Hash32>) -> Seq<Seq<u8>> {
    hashes.map_values(|h: Hash32| h@)
}

/// The character of decimal digit `d`.
pub open spec fn digit_char(d: nat) -> char {
    (48 + d) as char
}

/// The decimal representation of `n`, without leading zeros.
pub open spec fn decimal(n: nat) -> Seq<char>
    decreases n,
{
    if n < 10 {
        seq![digit_char(n)]
    } else {
        decimal(n / 10) + seq![digit_char(n % 10)]
    }
}

/// The one-character string of decimal digit `d`.
fn digit_str(d: u64) -> (s: &'static str)
    requires
        d < 10,
    ensures
        s@ == seq![digit_char(d as nat)],
{
    proof {
        reveal_strlit("0");
        reveal_strlit("1");
        reveal_strlit("2");
        reveal_strlit("3");
        reveal_strlit("4");
        reveal_strlit("5");
        reveal_strlit("6");
        reveal_strlit("7");
        reveal_strlit("8");
        reveal_strlit("9");
    }
    match d {
        0 => "0",
        1 => "1",
        2 => "2",
        3 => "3",
        4 => "4",
        5 => "5",
        6 => "6",
        7 => "7",
        8 => "8",
        _ => "9",
    }
}

/// Appends the decimal representation of `n` to `out`.
fn push_decimal(out: &mut String, n: u64)
    ensures
        final(out)@ == old(out)@ + decimal(n as nat),
    decreases n,
{
    if n >= 10 {
        push_decimal(out, n / 10);
    }
    out.append(digit_str(n % 10));
    proof {
        if n >= 10 {
            assert(old(out)@ + decimal(n as nat) =~= old(out)@ + decimal((n / 10) as nat) + seq![
                digit_char((n % 10) as nat),
            ]);
        } else {
            assert(n % 10 == n);
        }
    }
}

/// Snapshot of the forest: the hashes of its peaks, tallest first, and the
/// number of leaves. This is what a credential commits to.
#[derive(Clone, Debug, PartialEq, Eq)]
pub struct Digest {
    pub roots: Vec<Hash32>,
    pub size: u32,
}

/// Domain tag of the commitment to a digest.
pub open spec fn digest_tag() -> Seq<u8> {
    "msq:digest".spec_bytes()
}

/// The parts of the message whose hash is the commitment to a digest with
/// peak hashes `roots` and `size` leaves.
pub open spec fn commitment_parts(roots: Seq<Seq<u8>>, size: u32) -> Seq<Seq<u8>> {
    seq![digest_tag()] + roots + seq![spec_u32_to_le_bytes(size)]
}

/// The byte encoding of a digest: the size and the number of peaks, four
/// bytes each, little endian, then the peak hashes.
pub open spec fn digest_encoding(roots: Seq<Seq<u8>>, size: u32) -> Seq<u8> {
    spec_u32_to_le_bytes(size) + spec_u32_to_le_bytes(#[verifier::truncate] (roots.len() as u32))
        + roots.flatten()
}

/// The size that an encoding holds.
pub open spec fn encoded_size(bytes: Seq<u8>) -> u32 {
    spec_u32_from_le_bytes(bytes.subrange(0, 4))
}

/// The number of peaks that an encoding announces.
pub open spec fn encoded_count(bytes: Seq<u8>) -> nat {
    spec_u32_from_le_bytes(bytes.subrange(4, 8)) as nat
}

/// Peak hash `i` of an encoding.
pub open spec fn encoded_root(bytes: Seq<u8>, i: int) -> Seq<u8> {
    bytes.subrange(8 + 32 * i, 8 + 32 * i + 32)
}

impl Digest {
    /// Create a digest from peak hashes and size.
    pub fn new(roots: Vec<Hash32>, size: u32) -> (digest: Self)
        ensures
            digest.roots@ == roots@,
            digest.size == size,
    {
        Self { roots, size }
    }

    /// The digest of the empty forest.
    pub fn empty() -> (digest: Self)
        ensures
            digest.roots@ == Seq::<Hash32>::empty(),
            digest.size == 0,
    {
        Self { roots: Vec::new(), size: 0 }
    }

    /// Number of peaks.
    pub fn num_peaks(&self) -> (n: usize)
        ensures
            n == self.roots@.len(),
    {
        self.roots.len()
    }

    /// The hash of peak `index`.
    pub fn peak(&self, index: usize) -> (h: Option<&Hash32>)
        ensures
            index < self.roots@.len() ==> h == Some(&self.roots@[index as int]),
            index >= self.roots@.len() ==> h is None,
    {
        if index < self.roots.len() {
            Some(&self.roots[index])
        } else {
            None
        }
    }

    /// One hash that commits to the whole digest: the hash, under `H`, of
    /// the domain tag, the peak hashes and the size in four little endian
    /// bytes.
    pub fn commitment_hash<H: Hasher>(&self) -> (h: Hash32)
        ensures
            h@ == H::spec_hash(commitment_parts(hash_views(self.roots@), self.size)),
    {
        let mut parts: Vec<&[u8]> = Vec::new();
        parts.push("msq:digest".as_bytes());
        let mut i: usize = 0;
        while i < self.roots.len()
            invariant
                i <= self.roots@.len(),
                crate::hash::part_views(parts@) == seq![digest_tag()] + hash_views(
                    self.roots@,
                ).take(i as int),
            decreases self.roots@.len() - i,
        {
            let ghost before = crate::hash::part_views(parts@);
            parts.push(self.roots[i].as_ref());
            proof {
                assert(crate::hash::part_views(parts@) =~= before.push(self.roots@[i as int]@));
                assert(hash_views(self.roots@).take(i + 1 as int) =~= hash_views(self.roots@).take(
                    i as int,
                ).push(self.roots@[i as int]@));
                assert(crate::hash::part_views(parts@) =~= seq![digest_tag()] + hash_views(
                    self.roots@,
                ).take(i + 1 as int));
            }
            i = i + 1;
        }
        let size_bytes: Vec<u8> = u32_to_le_bytes(self.size);
        let ghost before = crate::hash::part_views(parts@);
        parts.push(size_bytes.as_slice());
        proof {
            assert(hash_views(self.roots@).take(i as int) =~= hash_views(self.roots@));
            assert(crate::hash::part_views(parts@) =~= before.push(size_bytes@));
            assert(crate::hash::part_views(parts@) =~= commitment_parts(
                hash_views(self.roots@),
                self.size,
            ));
        }
        H::hash(parts.as_slice())
    }

    /// A human-readable description: the size and the number of peaks.
    pub fn to_string(&self) -> (s: String)
        ensures
            s@ == "Digest(size="@ + decimal(self.size as nat) + ", peaks="@ + decimal(
                self.roots@.len(),
            ) + ")"@,
    {
        let mut s = "Digest(size=".to_owned();
        push_decimal(&mut s, self.size as u64);
        s.append(", peaks=");
        push_decimal(&mut s, self.roots.len() as u64);
        s.append(")");
        s
    }

    /// The digest of the empty forest has no leaves.
    pub fn is_empty(&self) -> (b: bool)
        ensures
            b == (self.size == 0),
    {
        self.size == 0
    }

    /// The byte encoding of the digest.
    pub fn to_bytes(&self) -> (bytes: Vec<u8>)
        ensures
            bytes@ == digest_encoding(hash_views(self.roots@), self.size),
    {
        let mut bytes: Vec<u8> = u32_to_le_bytes(self.size);
        let count: Vec<u8> = u32_to_le_bytes(#[verifier::truncate] (self.roots.len() as u32));
        let ghost header = spec_u32_to_le_bytes(self.size) + count@;
        let mut j: usize = 0;
        while j < 4
            invariant
                count@.len() == 4,
                j <= 4,
                bytes@ == spec_u32_to_le_bytes(self.size) + count@.take(j as int),
            decreases 4 - j,
        {
            bytes.push(count[j]);
            proof {
                assert(count@.take(j + 1 as int) =~= count@.take(j as int).push(count@[j as int]));
            }
            j = j + 1;
        }
        proof {
            assert(count@.take(4) =~= count@);
            assert(hash_views(self.roots@).take(0).flatten() =~= Seq::<u8>::empty());
            assert(bytes@ =~= header + hash_views(self.roots@).take(0).flatten());
        }
        let mut i: usize = 0;
        while i < self.roots.len()
            invariant
                i <= self.roots@.len(),
                header == spec_u32_to_le_bytes(self.size) + spec_u32_to_le_bytes(
                    #[verifier::truncate] (self.roots@.len() as u32),
                ),
                bytes@ == header + hash_views(self.roots@).take(i as int).flatten(),
            decreases self.roots@.len() - i,
        {
            let root: &Hash32 = &self.roots[i];
            let ghost before = bytes@;
            let mut k: usize = 0;
            while k < 32
                invariant
                    k <= 32,
                    root@.len() == 32,
                    bytes@ == before + root@.take(k as int),
                decreases 32 - k,
            {
                bytes.push(root.0[k]);
                proof {
                    assert(root@.take(k + 1 as int) =~= root@.take(k as int).push(root@[k as int]));
                }
                k = k + 1;
            }
            proof {
                let views = hash_views(self.roots@);
                assert(root@.take(32) =~= root@);
                assert(views.take(i + 1 as int) =~= views.take(i as int).push(views[i as int]));
                views.take(i as int).lemma_flatten_push(views[i as int]);
                assert(bytes@ =~= header + views.take(i + 1 as int).flatten());
            }
            i = i + 1;
        }
        proof {
            assert(hash_views(self.roots@).take(i as int) =~= hash_views(self.roots@));
        }
        bytes
    }

    /// Parse a digest from its byte encoding.
    pub fn from_bytes(bytes: &[u8]) -> (r: Result<Self, &'static str>)
        ensures
            bytes@.len() < 8 ==> (r matches Err(e) && e@ == "digest too short"@),
            bytes@.len() >= 8 && bytes@.len() != 8 + 32 * encoded_count(bytes@) ==> (r matches Err(
                e,
            ) && e@ == "invalid digest length"@),
            bytes@.len() >= 8 && bytes@.len() == 8 + 32 * encoded_count(bytes@) ==> (r matches Ok(
                digest,
            ) && digest.size == encoded_size(bytes@) && hash_views(digest.roots@) == Seq::new(
                encoded_count(bytes@),
                |i: int| encoded_root(bytes@, i),
            )),
    {
        if bytes.len() < 8 {
            return Err("digest too short");
        }
        let size = u32_from_le_bytes(&bytes[0..4]);
        let num_roots = u32_from_le_bytes(&bytes[4..8]) as usize;
        // The expected length is computed in 64 bits, where it cannot overflow.
        let expected_len: u64 = 8 + (num_roots as u64) * 32;
        if bytes.len() as u64 != expected_len {
            return Err("invalid digest length");
        }
        let total: usize = bytes.len();
        let mut roots: Vec<Hash32> = Vec::with_capacity(num_roots);
        let mut i: usize = 0;
        while i < num_roots
            invariant
                total == bytes@.len(),
                bytes@.len() == 8 + 32 * num_roots,
                num_roots == encoded_count(bytes@),
                i <= num_roots,
                hash_views(roots@) == Seq::new(i as nat, |j: int| encoded_root(bytes@, j)),
            decreases num_roots - i,
        {
            let start = 8 + i * 32;
            let mut hash_bytes: [u8; 32] = [0u8; 32];
            let mut k: usize = 0;
            while k < 32
                invariant
                    k <= 32,
                    total == bytes@.len(),
                    start == 8 + 32 * i,
                    start + 32 <= bytes@.len(),
                    forall|m: int| 0 <= m < k ==> hash_bytes@[m] == bytes@[start + m],
                decreases 32 - k,
            {
                hash_bytes[k] = bytes[start + k];
                k = k + 1;
            }
            let ghost before = hash_views(roots@);
            roots.push(Hash32(hash_bytes));
            proof {
                assert(hash_bytes@ =~= encoded_root(bytes@, i as int));
                assert(hash_views(roots@) =~= before.push(hash_bytes@));
                assert(hash_views(roots@) =~= Seq::new(
                    (i + 1) as nat,
                    |j: int| encoded_root(bytes@, j),
                ));
            }
            i = i + 1;
        }
        Ok(Self { roots, size })
    }
}

/// The concatenation of 32-byte strings holds string `i` at bytes
/// `32 i .. 32 i + 32`.
proof fn lemma_flatten_32(roots: Seq<Seq<u8>>)
    requires
        all_32_bytes(roots),
    ensures
        roots.flatten().len() == 32 * roots.len(),
        forall|i: int|
            0 <= i < roots.len() ==> roots.flatten().subrange(32 * i, 32 * i + 32) == roots[i],
    decreases roots.len(),
{
    if roots.len() > 0 {
        let rest = roots.drop_first();
        assert(all_32_bytes(rest)) by {
            assert forall|i: int| 0 <= i < rest.len() implies (#[trigger] rest[i]).len() == 32 by {
                assert(rest[i] == roots[i + 1]);
            }
        }
        lemma_flatten_32(rest);
        let flat = roots.flatten();
        assert(flat == roots[0] + rest.flatten());
        assert forall|i: int| 0 <= i < roots.len() implies flat.subrange(32 * i, 32 * i + 32)
            == roots[i] by {
            if i == 0 {
                assert(flat.subrange(0, 32) =~= roots[0]);
            } else {
                assert(rest[i - 1] == roots[i]);
                assert(rest.flatten().subrange(32 * (i - 1), 32 * (i - 1) + 32) == rest[i - 1]);
                assert(flat.subrange(32 * i, 32 * i + 32) =~= rest.flatten().subrange(
                    32 * (i - 1),
                    32 * (i - 1) + 32,
                ));
            }
        }
    }
}

/// 32-byte strings are determined by their concatenation.
proof fn lemma_flatten_32_injective(a: Seq<Seq<u8>>, b: Seq<Seq<u8>>)
    requires
        all_32_bytes(a),
        all_32_bytes(b),
        a.flatten() == b.flatten(),
    ensures
        a == b,
{
    lemma_flatten_32(a);
    lemma_flatten_32(b);
    assert forall|i: int| 0 <= i < a.len() implies a[i] == b[i] by {
        assert(a.flatten().subrange(32 * i, 32 * i + 32) == a[i]);
    }
    assert(a =~= b);
}

/// Decoding an encoded digest gives back its peak hashes and size.
pub proof fn lemma_digest_encoding_decodes(roots: Seq<Seq<u8>>, size: u32)
    requires
        all_32_bytes(roots),
        roots.len() <= u32::MAX,
    ensures
        digest_encoding(roots, size).len() >= 8,
        encoded_count(digest_encoding(roots, size)) == roots.len(),
        digest_encoding(roots, size).len() == 8 + 32 * encoded_count(digest_encoding(roots, size)),
        encoded_size(digest_encoding(roots, size)) == size,
        Seq::new(
            encoded_count(digest_encoding(roots, size)),
            |i: int| encoded_root(digest_encoding(roots, size), i),
        ) == roots,
{
    lemma_auto_spec_u32_to_from_le_bytes();
    lemma_flatten_32(roots);
    let count = roots.len() as u32;
    assert(count == roots.len());
    let bytes = digest_encoding(roots, size);
    assert(bytes.subrange(0, 4) =~= spec_u32_to_le_bytes(size));
    assert(bytes.subrange(4, 8) =~= spec_u32_to_le_bytes(count));
    let decoded = Seq::new(encoded_count(bytes), |i: int| encoded_root(bytes, i));
    assert forall|i: int| 0 <= i < roots.len() implies decoded[i] == roots[i] by {
        assert(roots.flatten().subrange(32 * i, 32 * i + 32) == roots[i]);
        assert(encoded_root(bytes, i) =~= roots.flatten().subrange(32 * i, 32 * i + 32));
    }
    assert(decoded =~= roots);
}

/// A byte string that decodes is the encoding of what it decodes to.
pub proof fn lemma_digest_decoding_encodes(bytes: Seq<u8>)
    requires
        bytes.len() >= 8,
        bytes.len() == 8 + 32 * encoded_count(bytes),
    ensures
        digest_encoding(
            Seq::new(encoded_count(bytes), |i: int| encoded_root(bytes, i)),
            encoded_size(bytes),
        ) == bytes,
{
    lemma_auto_spec_u32_to_from_le_bytes();
    let roots = Seq::new(encoded_count(bytes), |i: int| encoded_root(bytes, i));
    assert(all_32_bytes(roots));
    lemma_flatten_32(roots);
    let count = spec_u32_from_le_bytes(bytes.subrange(4, 8));
    assert(#[verifier::truncate] (roots.len() as u32) == count);
    let body = bytes.subrange(8, bytes.len() as int);
    assert forall|k: int| 0 <= k < body.len() implies roots.flatten()[k] == body[k] by {
        let i = k / 32;
        assert(roots.flatten().subrange(32 * i, 32 * i + 32) == roots[i]);
        assert(roots.flatten()[k] == roots.flatten().subrange(32 * i, 32 * i + 32)[k - 32 * i]);
    }
    assert(roots.flatten() =~= body);
    assert(bytes =~= bytes.subrange(0, 4) + bytes.subrange(4, 8) + body);
}

/// Equal digests have equal commitment hashes.
pub proof fn lemma_commitment_hash_deterministic<H: Hasher>(
    roots1: Seq<Seq<u8>>,
    size1: u32,
    roots2: Seq<Seq<u8>>,
    size2: u32,
)
    requires
        roots1 == roots2,
        size1 == size2,
    ensures
        H::spec_hash(commitment_parts(roots1, size1)) == H::spec_hash(
            commitment_parts(roots2, size2),
        ),
{
}

/// Distinct digests give distinct messages to the commitment hash: the
/// concatenated message determines the peak hashes and the size.
pub proof fn lemma_commitment_message_injective(
    roots1: Seq<Seq<u8>>,
    size1: u32,
    roots2: Seq<Seq<u8>>,
    size2: u32,
)
    requires
        all_32_bytes(roots1),
        all_32_bytes(roots2),
        commitment_parts(roots1, size1).flatten() == commitment_parts(roots2, size2).flatten(),
    ensures
        roots1 == roots2,
        size1 == size2,
{
    lemma_auto_spec_u32_to_from_le_bytes();
    lemma_flatten_32(roots1);
    lemma_flatten_32(roots2);
    let tag = digest_tag();
    let b1 = spec_u32_to_le_bytes(size1);
    let b2 = spec_u32_to_le_bytes(size2);
    assert(commitment_parts(roots1, size1).flatten() =~= tag + roots1.flatten() + b1) by {
        vstd::seq_lib::lemma_flatten_concat(seq![tag], roots1);
        seq![tag].lemma_flatten_one_element();
        (seq![tag] + roots1).lemma_flatten_push(b1);
        assert(seq![tag] + roots1 + seq![b1] =~= (seq![tag] + roots1).push(b1));
    }
    assert(commitment_parts(roots2, size2).flatten() =~= tag + roots2.flatten() + b2) by {
        vstd::seq_lib::lemma_flatten_concat(seq![tag], roots2);
        seq![tag].lemma_flatten_one_element();
        (seq![tag] + roots2).lemma_flatten_push(b2);
        assert(seq![tag] + roots2 + seq![b2] =~= (seq![tag] + roots2).push(b2));
    }
    let m1 = tag + roots1.flatten() + b1;
    let m2 = tag + roots2.flatten() + b2;
    assert(roots1.len() == roots2.len());
    let end = m1.len() as int;
    assert(m1.subrange(end - 4, end) =~= b1);
    assert(m2.subrange(end - 4, end) =~= b2);
    assert(spec_u32_from_le_bytes(b1) == size1);
    assert(spec_u32_from_le_bytes(b2) == size2);
    let t = tag.len() as int;
    assert(m1.subrange(t, end - 4) =~= roots1.flatten());
    assert(m2.subrange(t, end - 4) =~= roots2.flatten());
    lemma_flatten_32_injective(roots1, roots2);
}

} // verus!
