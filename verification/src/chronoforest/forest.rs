//! The chronological forest: an append-only list of leaves summarised by the
//! roots ("peaks") of perfect Merkle trees over consecutive blocks of leaves,
//! merged by binary carry as leaves arrive.

use vstd::prelude::*;
use vstd::arithmetic::div_mod::lemma_div_denominator;
use vstd::arithmetic::power2::{
    lemma2_to64, lemma_pow2_pos, lemma_pow2_strictly_increases, lemma_pow2_unfold, pow2,
};
use vstd::bits::{lemma_u32_pow2_no_overflow, lemma_u32_shl_is_mul};
use vstd::bytes::{
    lemma_auto_spec_u32_to_from_le_bytes, spec_u32_from_le_bytes, spec_u32_to_le_bytes,
    u32_to_le_bytes,
};
use vstd::string::StringSliceAdditionalSpecFns;

use core::marker::PhantomData;

use crate::chronoforest::digest::{Digest, Peak};
use crate::hash::{
    all_32_bytes, lemma_sha256_hasher_binds, part_views, sha256_has_collision, Hash32, Hasher,
    Sha256Hasher,
};
use crate::merklesquare::arena::{Arena, Node, NodeId};

verus! {

// ------------------------- hashing of leaves -------------------------

/// Domain tag of the prefix hash of a key.
pub open spec fn prefix_tag() -> Seq<u8> {
    "msq:prefix".spec_bytes()
}

/// Domain tag of the content hash of an entry.
pub open spec fn content_tag() -> Seq<u8> {
    "msq:content".spec_bytes()
}

/// Domain tag of the hash of a leaf.
pub open spec fn leaf_tag() -> Seq<u8> {
    "msq:leaf".spec_bytes()
}

/// The prefix hash of `key`.
pub open spec fn prefix_hash<H: Hasher>(key: Seq<u8>) -> Seq<u8> {
    H::spec_hash(seq![prefix_tag(), key])
}

/// The content hash of the entry (`key`, `value`, `signature`) at position
/// `pos`.
pub open spec fn content_hash<H: Hasher>(
    key: Seq<u8>,
    value: Seq<u8>,
    signature: Seq<u8>,
    pos: u32,
) -> Seq<u8> {
    H::spec_hash(seq![content_tag(), key, value, signature, spec_u32_to_le_bytes(pos)])
}

/// The hash of the leaf with the given prefix and content hashes.
pub open spec fn leaf_hash<H: Hasher>(prefix: Seq<u8>, content: Seq<u8>) -> Seq<u8> {
    H::spec_hash(seq![leaf_tag(), prefix, content])
}

/// The hash of the leaf that the entry (`key`, `value`, `signature`) becomes
/// at position `pos`.
pub open spec fn entry_leaf_hash<H: Hasher>(
    key: Seq<u8>,
    value: Seq<u8>,
    signature: Seq<u8>,
    pos: u32,
) -> Seq<u8> {
    leaf_hash::<H>(prefix_hash::<H>(key), content_hash::<H>(key, value, signature, pos))
}

fn make_prefix_from_key<H: Hasher>(key: &[u8]) -> (h: Hash32)
    ensures
        h@ == prefix_hash::<H>(key@),
{
    let parts: [&[u8]; 2] = ["msq:prefix".as_bytes(), key];
    proof {
        assert(part_views(parts@) =~= seq![prefix_tag(), key@]);
    }
    H::hash(&parts)
}

fn compute_content_hash<H: Hasher>(key: &[u8], value: &[u8], signature: &[u8], pos: u32) -> (h:
    Hash32)
    ensures
        h@ == content_hash::<H>(key@, value@, signature@, pos),
{
    let pos_le: Vec<u8> = u32_to_le_bytes(pos);
    let parts: [&[u8]; 5] = ["msq:content".as_bytes(), key, value, signature, pos_le.as_slice()];
    proof {
        assert(part_views(parts@) =~= seq![
            content_tag(),
            key@,
            value@,
            signature@,
            spec_u32_to_le_bytes(pos),
        ]);
    }
    H::hash(&parts)
}

fn compute_leaf_hash<H: Hasher>(prefix: Hash32, content: Hash32) -> (h: Hash32)
    ensures
        h@ == leaf_hash::<H>(prefix@, content@),
{
    let parts: [&[u8]; 3] = ["msq:leaf".as_bytes(), prefix.as_ref(), content.as_ref()];
    proof {
        assert(part_views(parts@) =~= seq![leaf_tag(), prefix@, content@]);
    }
    H::hash(&parts)
}

// ------------------------- the shape of the forest -------------------------

/// The root hash of the perfect tree of height `height` over the leaves
/// `start .. start + 2^height`.
pub open spec fn perfect_root<H: Hasher>(leaves: Seq<Seq<u8>>, start: int, height: nat) -> Seq<
    u8,
>
    decreases height,
{
    if height == 0 {
        leaves[start]
    } else {
        H::spec_hash(
            seq![
                perfect_root::<H>(leaves, start, (height - 1) as nat),
                perfect_root::<H>(leaves, start + pow2((height - 1) as nat), (height - 1) as nat),
            ],
        )
    }
}

/// The first leaf under peak `i`: the number of leaves under the peaks
/// before it.
pub open spec fn peak_start(peaks: Seq<Peak>, i: int) -> int
    decreases i,
{
    if i <= 0 {
        0
    } else {
        peak_start(peaks, i - 1) + pow2(peaks[i - 1].height as nat)
    }
}

/// `peaks` are the peaks of the forest over `leaves`: their heights
/// strictly decrease, they cover the leaves from left to right, and each
/// carries the root hash of the perfect tree over its block of leaves.
pub open spec fn is_forest_of<H: Hasher>(peaks: Seq<Peak>, leaves: Seq<Seq<u8>>) -> bool {
    &&& forall|i: int, j: int|
        0 <= i < j < peaks.len() ==> (#[trigger] peaks[i]).height > (#[trigger] peaks[j]).height
    &&& peak_start(peaks, peaks.len() as int) == leaves.len()
    &&& forall|i: int|
        0 <= i < peaks.len() ==> (#[trigger] peaks[i]).hash@ == perfect_root::<H>(
            leaves,
            peak_start(peaks, i),
            peaks[i].height as nat,
        )
}

/// The arena holds the root node of peak `p`, whose first leaf is `start`.
pub open spec fn arena_holds(arena: Seq<Node>, p: Peak, start: int) -> bool {
    &&& p.id < arena.len()
    &&& arena[p.id as int].hash_of() == p.hash
    &&& arena[p.id as int].height_of() == p.height
    &&& arena[p.id as int].shift_of() == start / (pow2(p.height as nat) as int)
}

/// Every hash of the perfect tree of height `height` over the leaves
/// `start .. start + 2^height`, from its root down to its leaves, is 32
/// bytes long.
pub open spec fn perfect_hashes_32<H: Hasher>(leaves: Seq<Seq<u8>>, start: int, height: nat) -> bool
    decreases height,
{
    &&& perfect_root::<H>(leaves, start, height).len() == 32
    &&& if height == 0 {
        true
    } else {
        &&& perfect_hashes_32::<H>(leaves, start, (height - 1) as nat)
        &&& perfect_hashes_32::<H>(leaves, start + pow2((height - 1) as nat), (height - 1) as nat)
    }
}

/// Every hash of the perfect trees under the peaks is 32 bytes long.
pub open spec fn forest_hashes_32<H: Hasher>(peaks: Seq<Peak>, leaves: Seq<Seq<u8>>) -> bool {
    forall|i: int|
        0 <= i < peaks.len() ==> perfect_hashes_32::<H>(
            leaves,
            peak_start(peaks, i),
            (#[trigger] peaks[i]).height as nat,
        )
}

/// Appending a leaf keeps the hashes of a perfect tree over earlier leaves
/// 32 bytes long.
proof fn lemma_perfect_hashes_32_extend<H: Hasher>(
    leaves: Seq<Seq<u8>>,
    leaf: Seq<u8>,
    start: int,
    height: nat,
)
    requires
        0 <= start,
        start + pow2(height) <= leaves.len(),
        perfect_hashes_32::<H>(leaves, start, height),
    ensures
        perfect_hashes_32::<H>(leaves.push(leaf), start, height),
    decreases height,
{
    lemma_perfect_root_extend::<H>(leaves, leaf, start, height);
    if height > 0 {
        let h = (height - 1) as nat;
        lemma_pow2_unfold(height);
        lemma_pow2_pos(h);
        lemma_perfect_hashes_32_extend::<H>(leaves, leaf, start, h);
        lemma_perfect_hashes_32_extend::<H>(leaves, leaf, start + pow2(h), h);
    }
}

/// Appending a leaf leaves the root hash of a perfect tree over earlier
/// leaves unchanged.
proof fn lemma_perfect_root_extend<H: Hasher>(
    leaves: Seq<Seq<u8>>,
    leaf: Seq<u8>,
    start: int,
    height: nat,
)
    requires
        0 <= start,
        start + pow2(height) <= leaves.len(),
    ensures
        perfect_root::<H>(leaves.push(leaf), start, height) == perfect_root::<H>(
            leaves,
            start,
            height,
        ),
    decreases height,
{
    lemma_pow2_pos(height);
    if height > 0 {
        lemma_pow2_unfold(height);
        lemma_perfect_root_extend::<H>(leaves, leaf, start, (height - 1) as nat);
        lemma_perfect_root_extend::<H>(
            leaves,
            leaf,
            start + pow2((height - 1) as nat),
            (height - 1) as nat,
        );
    }
}

/// The first leaf of a peak depends only on the peaks before it.
proof fn lemma_peak_start_prefix(peaks: Seq<Peak>, other: Seq<Peak>, i: int)
    requires
        0 <= i <= peaks.len(),
        i <= other.len(),
        peaks.take(i) == other.take(i),
    ensures
        peak_start(peaks, i) == peak_start(other, i),
    decreases i,
{
    if i > 0 {
        assert(peaks.take(i - 1) =~= peaks.take(i).take(i - 1));
        assert(other.take(i - 1) =~= other.take(i).take(i - 1));
        assert(peaks[i - 1] == peaks.take(i)[i - 1]);
        assert(other[i - 1] == other.take(i)[i - 1]);
        lemma_peak_start_prefix(peaks, other, i - 1);
    }
}

/// Later peaks start further right.
proof fn lemma_peak_start_grows(peaks: Seq<Peak>, i: int, j: int)
    requires
        0 <= i <= j,
    ensures
        0 <= peak_start(peaks, i) <= peak_start(peaks, j),
    decreases j,
{
    if j > 0 {
        lemma_pow2_pos(peaks[j - 1].height as nat);
        if i < j {
            lemma_peak_start_grows(peaks, i, j - 1);
        } else {
            lemma_peak_start_grows(peaks, j - 1, j - 1);
        }
    }
}

/// Adding a 32-byte string to 32-byte strings.
proof fn lemma_push_32_bytes(hashes: Seq<Seq<u8>>, h: Seq<u8>)
    requires
        all_32_bytes(hashes),
        h.len() == 32,
    ensures
        all_32_bytes(hashes.push(h)),
{
    let l = hashes.push(h);
    assert forall|i: int| 0 <= i < l.len() implies (#[trigger] l[i]).len() == 32 by {
        if i < hashes.len() {
            assert(l[i] == hashes[i]);
        }
    }
}

/// The state of an append while peaks merge: the first `m` old peaks stay,
/// and `carry` is the peak over the leaves after them, up to and including
/// the new leaf; `arena` holds the nodes of all of them.
#[verifier::opaque]
spec fn merging<H: Hasher>(
    old_roots: Seq<Peak>,
    old_leaves: Seq<Seq<u8>>,
    leaf: Seq<u8>,
    m: int,
    carry: Peak,
    arena: Seq<Node>,
) -> bool {
    let size = old_leaves.len() as int;
    let leaves = old_leaves.push(leaf);
    &&& is_forest_of::<H>(old_roots, old_leaves)
    &&& size < pow2(31)
    &&& 0 <= m <= old_roots.len()
    &&& forall|i: int| 0 <= i < m ==> (#[trigger] old_roots[i]).height >= carry.height
    &&& carry.height <= 31
    &&& peak_start(old_roots, m) + pow2(carry.height as nat) == size + 1
    &&& carry.hash@ == perfect_root::<H>(leaves, peak_start(old_roots, m), carry.height as nat)
    &&& arena_holds(arena, carry, peak_start(old_roots, m))
    &&& forall|i: int|
        0 <= i < m ==> arena_holds(arena, #[trigger] old_roots[i], peak_start(old_roots, i))
    &&& arena.len() + m + 1 == 2 * (size + 1)
}

/// What an append needs to know of a merging state to take a step.
proof fn lemma_merging_bounds<H: Hasher>(
    old_roots: Seq<Peak>,
    old_leaves: Seq<Seq<u8>>,
    leaf: Seq<u8>,
    m: int,
    carry: Peak,
    arena: Seq<Node>,
)
    requires
        merging::<H>(old_roots, old_leaves, leaf, m, carry, arena),
    ensures
        0 <= m <= old_roots.len(),
        carry.id < arena.len(),
        carry.height <= 31,
        arena.len() <= u32::MAX,
        m > 0 ==> old_roots[m - 1].id < arena.len() && old_roots[m - 1].height >= carry.height,
{
    reveal(merging);
    lemma2_to64();
    if m > 0 {
        assert(arena_holds(arena, old_roots[m - 1], peak_start(old_roots, m - 1)));
    }
}

/// The state right after the new leaf is added to the arena.
proof fn lemma_merging_start<H: Hasher>(
    old_roots: Seq<Peak>,
    old_leaves: Seq<Seq<u8>>,
    leaf: Seq<u8>,
    carry: Peak,
    old_arena: Seq<Node>,
    arena: Seq<Node>,
)
    requires
        is_forest_of::<H>(old_roots, old_leaves),
        old_leaves.len() < pow2(31),
        old_arena.len() + old_roots.len() == 2 * old_leaves.len(),
        forall|i: int|
            0 <= i < old_roots.len() ==> arena_holds(
                old_arena,
                #[trigger] old_roots[i],
                peak_start(old_roots, i),
            ),
        carry.id == old_arena.len(),
        carry.height == 0,
        carry.hash@ == leaf,
        arena == old_arena.push(Node::Leaf { hash: carry.hash, pos: old_leaves.len() as u32 }),
    ensures
        merging::<H>(old_roots, old_leaves, leaf, old_roots.len() as int, carry, arena),
{
    reveal(merging);
    lemma2_to64();
    assert forall|i: int| 0 <= i < old_roots.len() implies arena_holds(
        arena,
        #[trigger] old_roots[i],
        peak_start(old_roots, i),
    ) by {
        assert(arena_holds(old_arena, old_roots[i], peak_start(old_roots, i)));
    }
}

/// The perfect tree of height `c + 1` is the parent of its two halves.
proof fn lemma_perfect_root_halves<H: Hasher>(leaves: Seq<Seq<u8>>, start: int, c: nat)
    ensures
        perfect_root::<H>(leaves, start, c + 1) == H::spec_hash(
            seq![
                perfect_root::<H>(leaves, start, c),
                perfect_root::<H>(leaves, start + pow2(c), c),
            ],
        ),
{
    assert((c + 1 - 1) as nat == c);
}

/// The shift recorded for the parent of a node is the node's shift halved.
proof fn lemma_shift_halves(start: int, c: nat)
    requires
        0 <= start,
    ensures
        (start / (pow2(c) as int)) / 2 == start / (pow2(c + 1) as int),
{
    lemma_pow2_pos(c);
    lemma_pow2_unfold(c + 1);
    lemma_div_denominator(start, pow2(c) as int, 2);
}

/// Merging the last kept peak with the carry.
proof fn lemma_merging_step<H: Hasher>(
    old_roots: Seq<Peak>,
    old_leaves: Seq<Seq<u8>>,
    leaf: Seq<u8>,
    m: int,
    carry: Peak,
    arena: Seq<Node>,
    parent: Peak,
    new_arena: Seq<Node>,
)
    requires
        merging::<H>(old_roots, old_leaves, leaf, m, carry, arena),
        m > 0,
        old_roots[m - 1].height == carry.height,
        parent.id == arena.len(),
        parent.height == carry.height + 1,
        parent.hash@ == H::spec_hash(seq![old_roots[m - 1].hash@, carry.hash@]),
        new_arena == arena.push(
            Node::Internal {
                left: old_roots[m - 1].id,
                right: carry.id,
                hash: parent.hash,
                height: parent.height,
                shift: (arena[old_roots[m - 1].id as int].shift_of() / 2) as u32,
            },
        ),
    ensures
        merging::<H>(old_roots, old_leaves, leaf, m - 1, parent, new_arena),
{
    reveal(merging);
    let size = old_leaves.len() as int;
    let leaves = old_leaves.push(leaf);
    let last = old_roots[m - 1];
    let c = carry.height as nat;
    let start_last = peak_start(old_roots, m - 1);
    assert(peak_start(old_roots, m) == start_last + pow2(c));
    assert(arena_holds(arena, last, start_last));
    lemma_peak_start_grows(old_roots, m, old_roots.len() as int);
    lemma_peak_start_grows(old_roots, 0, m - 1);
    assert(last.hash@ == perfect_root::<H>(old_leaves, start_last, c));
    lemma_perfect_root_extend::<H>(old_leaves, leaf, start_last, c);
    lemma_perfect_root_halves::<H>(leaves, start_last, c);
    assert(parent.hash@ == perfect_root::<H>(leaves, start_last, c + 1));
    lemma_pow2_unfold(c + 1);
    lemma2_to64();
    if c + 1 > 31 {
        lemma_pow2_strictly_increases(31, c + 1);
    }
    assert(peak_start(old_roots, m - 1) + pow2(parent.height as nat) == size + 1);
    lemma_shift_halves(start_last, c);
    assert(arena_holds(new_arena, parent, start_last));
    assert forall|i: int| 0 <= i < m - 1 implies arena_holds(
        new_arena,
        #[trigger] old_roots[i],
        peak_start(old_roots, i),
    ) by {
        assert(arena_holds(arena, old_roots[i], peak_start(old_roots, i)));
    }
    assert forall|i: int| 0 <= i < m - 1 implies (#[trigger] old_roots[i]).height
        >= parent.height by {
        assert(old_roots[i].height > old_roots[m - 1].height);
    }
}

/// Merging the last kept peak with the carry keeps every hash under the
/// carry 32 bytes long.
proof fn lemma_carry_hashes_32_step<H: Hasher>(
    old_roots: Seq<Peak>,
    old_leaves: Seq<Seq<u8>>,
    leaf: Seq<u8>,
    m: int,
    carry: Peak,
    arena: Seq<Node>,
    parent: Peak,
)
    requires
        merging::<H>(old_roots, old_leaves, leaf, m, carry, arena),
        forest_hashes_32::<H>(old_roots, old_leaves),
        perfect_hashes_32::<H>(
            old_leaves.push(leaf),
            peak_start(old_roots, m),
            carry.height as nat,
        ),
        m > 0,
        old_roots[m - 1].height == carry.height,
        parent.height == carry.height + 1,
        parent.hash@ == H::spec_hash(seq![old_roots[m - 1].hash@, carry.hash@]),
    ensures
        perfect_hashes_32::<H>(
            old_leaves.push(leaf),
            peak_start(old_roots, m - 1),
            parent.height as nat,
        ),
{
    reveal(merging);
    let leaves = old_leaves.push(leaf);
    let last = old_roots[m - 1];
    let c = carry.height as nat;
    let start_last = peak_start(old_roots, m - 1);
    assert(peak_start(old_roots, m) == start_last + pow2(c));
    lemma_peak_start_grows(old_roots, 0, m - 1);
    lemma_pow2_pos(c);
    assert(perfect_hashes_32::<H>(old_leaves, start_last, c));
    lemma_perfect_hashes_32_extend::<H>(old_leaves, leaf, start_last, c);
    lemma_perfect_root_extend::<H>(old_leaves, leaf, start_last, c);
    lemma_perfect_root_halves::<H>(leaves, start_last, c);
    assert(parent.hash@ == perfect_root::<H>(leaves, start_last, c + 1));
    assert((c + 1 - 1) as nat == c);
}

/// When no more peaks merge, every hash under the kept peaks and under the
/// carry is 32 bytes long.
proof fn lemma_carry_hashes_32_done<H: Hasher>(
    old_roots: Seq<Peak>,
    old_leaves: Seq<Seq<u8>>,
    leaf: Seq<u8>,
    m: int,
    carry: Peak,
    arena: Seq<Node>,
)
    requires
        merging::<H>(old_roots, old_leaves, leaf, m, carry, arena),
        forest_hashes_32::<H>(old_roots, old_leaves),
        perfect_hashes_32::<H>(
            old_leaves.push(leaf),
            peak_start(old_roots, m),
            carry.height as nat,
        ),
    ensures
        forest_hashes_32::<H>(old_roots.take(m).push(carry), old_leaves.push(leaf)),
{
    reveal(merging);
    let new_roots = old_roots.take(m).push(carry);
    lemma_peak_start_grows(old_roots, m, old_roots.len() as int);
    assert forall|i: int| 0 <= i < new_roots.len() implies perfect_hashes_32::<H>(
        old_leaves.push(leaf),
        peak_start(new_roots, i),
        (#[trigger] new_roots[i]).height as nat,
    ) by {
        assert(new_roots.take(i) =~= old_roots.take(i));
        lemma_peak_start_prefix(new_roots, old_roots, i);
        if i < m {
            assert(new_roots[i] == old_roots[i]);
            lemma_peak_start_grows(old_roots, i + 1, old_roots.len() as int);
            lemma_peak_start_grows(old_roots, 0, i);
            assert(perfect_hashes_32::<H>(
                old_leaves,
                peak_start(old_roots, i),
                old_roots[i].height as nat,
            ));
            lemma_perfect_hashes_32_extend::<H>(
                old_leaves,
                leaf,
                peak_start(old_roots, i),
                old_roots[i].height as nat,
            );
        }
    }
}

/// When no more peaks merge, the kept peaks and the carry are the peaks of
/// the forest over the leaves with the new one.
#[verifier::spinoff_prover]
proof fn lemma_merging_done<H: Hasher>(
    old_roots: Seq<Peak>,
    old_leaves: Seq<Seq<u8>>,
    leaf: Seq<u8>,
    m: int,
    carry: Peak,
    arena: Seq<Node>,
)
    requires
        merging::<H>(old_roots, old_leaves, leaf, m, carry, arena),
        m == 0 || old_roots[m - 1].height != carry.height,
    ensures
        is_forest_of::<H>(old_roots.take(m).push(carry), old_leaves.push(leaf)),
        forall|i: int|
            0 <= i < m + 1 ==> arena_holds(
                arena,
                #[trigger] old_roots.take(m).push(carry)[i],
                peak_start(old_roots.take(m).push(carry), i),
            ),
        arena.len() + m + 1 == 2 * (old_leaves.len() + 1),
        old_leaves.len() + 1 <= pow2(31),
{
    reveal(merging);
    let leaves = old_leaves.push(leaf);
    let new_roots = old_roots.take(m).push(carry);
    if m > 0 {
        assert(old_roots[m - 1].height > carry.height);
    }
    lemma_peak_start_grows(old_roots, m, old_roots.len() as int);
    assert forall|i: int| 0 <= i <= m implies peak_start(new_roots, i) == peak_start(
        old_roots,
        i,
    ) by {
        assert(new_roots.take(i) =~= old_roots.take(i));
        lemma_peak_start_prefix(new_roots, old_roots, i);
    }
    assert(peak_start(new_roots, m + 1) == peak_start(old_roots, m) + pow2(carry.height as nat));
    assert forall|i: int, j: int|
        0 <= i < j < new_roots.len() implies (#[trigger] new_roots[i]).height > (
    #[trigger] new_roots[j]).height by {
        if j < m {
            assert(old_roots[i].height > old_roots[j].height);
        } else if i < m - 1 {
            assert(old_roots[i].height > old_roots[m - 1].height);
        }
    }
    assert forall|i: int| 0 <= i < new_roots.len() implies (#[trigger] new_roots[i]).hash@
        == perfect_root::<H>(leaves, peak_start(new_roots, i), new_roots[i].height as nat) by {
        if i < m {
            assert(new_roots[i] == old_roots[i]);
            lemma_peak_start_grows(old_roots, i + 1, old_roots.len() as int);
            lemma_peak_start_grows(old_roots, 0, i);
            lemma_perfect_root_extend::<H>(
                old_leaves,
                leaf,
                peak_start(old_roots, i),
                old_roots[i].height as nat,
            );
        }
    }
    assert forall|i: int| 0 <= i < m + 1 implies arena_holds(
        arena,
        #[trigger] new_roots[i],
        peak_start(new_roots, i),
    ) by {
        if i < m {
            assert(new_roots[i] == old_roots[i]);
        }
    }
}

/// The MerkleSquare forest: peaks as `roots`, the running `size` and a
/// fixed `depth` that bounds the number of leaves by 2^depth.
pub struct MerkleSquare<H: Hasher = Sha256Hasher> {
    /// Peaks, tallest first.
    pub roots: Vec<Peak>,
    pub size: u32,
    /// What only the forest's own methods read and change.
    pub state: ForestState<H>,
}

/// The internals of a forest: its depth, the arena of its nodes and the
/// hashes of its leaves.
pub struct ForestState<H: Hasher> {
    depth: u32,
    arena: Arena,
    hasher: PhantomData<H>,
    leaves: Ghost<Seq<Seq<u8>>>,
}

impl<H: Hasher> MerkleSquare<H> {
    /// The hashes of the leaves appended so far, oldest first.
    pub closed spec fn leaves(&self) -> Seq<Seq<u8>> {
        self.state.leaves@
    }

    /// The peaks, tallest first (the public field `roots`).
    pub open spec fn peaks(&self) -> Seq<Peak> {
        self.roots@
    }

    /// The number of leaves (the public field `size`).
    pub open spec fn leaf_count(&self) -> u32 {
        self.size
    }

    /// The bound on the number of leaves: at most 2^depth.
    pub closed spec fn depth(&self) -> u32 {
        self.state.depth
    }

    /// The forest's internal invariant.
    pub closed spec fn wf(&self) -> bool {
        &&& self.size == self.state.leaves@.len()
        &&& all_32_bytes(self.state.leaves@)
        &&& is_forest_of::<H>(self.roots@, self.state.leaves@)
        &&& forest_hashes_32::<H>(self.roots@, self.state.leaves@)
        &&& self.state.arena@.len() + self.roots@.len() == 2 * self.size
        &&& forall|i: int|
            0 <= i < self.roots@.len() ==> arena_holds(
                self.state.arena@,
                #[trigger] self.roots@[i],
                peak_start(self.roots@, i),
            )
        &&& self.size <= pow2(31)
        &&& self.state.depth < 32 ==> self.size <= pow2(self.state.depth as nat)
    }

    /// What the invariant of a forest tells: it holds one 32-byte leaf hash
    /// per appended entry, at most 2^depth of them; its peaks are the peaks
    /// of the forest over those leaves, one per one bit of the leaf count,
    /// tallest first; and every hash under its peaks is 32 bytes long.
    pub proof fn lemma_wf_facts(&self)
        requires
            self.wf(),
        ensures
            self.leaf_count() == self.leaves().len(),
            all_32_bytes(self.leaves()),
            self.leaf_count() <= pow2(31),
            self.depth() < 32 ==> self.leaf_count() <= pow2(self.depth() as nat),
            is_forest_of::<H>(self.peaks(), self.leaves()),
            forest_hashes_32::<H>(self.peaks(), self.leaves()),
            peak_heights(self.peaks()) == binary_heights(self.leaf_count() as nat),
    {
        lemma_peaks_follow_binary_digits::<H>(self.roots@, self.state.leaves@);
    }

    /// An empty forest that holds up to 2^depth leaves.
    pub fn new(depth: u32) -> (forest: Self)
        ensures
            forest.wf(),
            forest.depth() == depth,
            forest.leaves() == Seq::<Seq<u8>>::empty(),
            forest.peaks() == Seq::<Peak>::empty(),
            forest.leaf_count() == 0,
    {
        proof {
            lemma_pow2_pos(31);
            lemma_pow2_pos(depth as nat);
        }
        Self {
            roots: Vec::new(),
            size: 0,
            state: ForestState {
                depth,
                arena: Arena::new(),
                hasher: PhantomData,
                leaves: Ghost(Seq::empty()),
            },
        }
    }

    /// Whether the forest holds 2^depth leaves.
    pub fn is_full(&self) -> (full: bool)
        requires
            self.depth() < 32,
        ensures
            full == (self.leaf_count() == pow2(self.depth() as nat)),
    {
        proof {
            lemma_u32_pow2_no_overflow(self.state.depth as nat);
            lemma_u32_shl_is_mul(1, self.state.depth);
        }
        self.size == (1u32 << self.state.depth)
    }

    /// Append the leaf of the entry (`key`, `value`, `signature`) at the
    /// next position, then merge peaks of equal height, the older on the
    /// left, until the heights strictly decrease. A full forest is left
    /// unchanged and refuses the entry.
    #[verifier::spinoff_prover]
    pub fn append(&mut self, key: &[u8], value: &[u8], signature: &[u8]) -> (r: Result<
        (),
        &'static str,
    >)
        requires
            old(self).wf(),
            old(self).depth() < 32,
        ensures
            final(self).wf(),
            final(self).depth() == old(self).depth(),
            is_forest_of::<H>(final(self).peaks(), final(self).leaves()),
            old(self).leaf_count() == pow2(old(self).depth() as nat) ==> {
                &&& r matches Err(e) && e@ == "forest full"@
                &&& *final(self) == *old(self)
            },
            old(self).leaf_count() != pow2(old(self).depth() as nat) ==> {
                &&& r is Ok
                &&& final(self).leaf_count() == old(self).leaf_count() + 1
                &&& final(self).peaks().len() >= 1
                &&& final(self).peaks().drop_last() == old(self).peaks().take(
                    final(self).peaks().len() - 1,
                )
                &&& final(self).peaks().last().height + final(self).peaks().len() == old(
                    self,
                ).peaks().len() + 1
                &&& final(self).leaves() == old(self).leaves().push(
                    entry_leaf_hash::<H>(key@, value@, signature@, old(self).leaf_count()),
                )
                &&& prefix_hash::<H>(key@).len() == 32
                &&& content_hash::<H>(key@, value@, signature@, old(self).leaf_count()).len() == 32
            },
    {
        if self.is_full() {
            return Err("forest full");
        }
        let pos = self.size;
        let content = compute_content_hash::<H>(key, value, signature, pos);
        let prefix = make_prefix_from_key::<H>(key);
        let leaf_hash = compute_leaf_hash::<H>(prefix, content);
        let ghost old_roots = self.roots@;
        let ghost old_leaves = self.state.leaves@;
        let ghost old_arena = self.state.arena@;
        proof {
            lemma_push_32_bytes(old_leaves, leaf_hash@);
            assert(perfect_root::<H>(old_leaves.push(leaf_hash@), old_leaves.len() as int, 0)
                == leaf_hash@);
            lemma2_to64();
            if self.state.depth < 31 {
                lemma_pow2_strictly_increases(self.state.depth as nat, 31);
            }
        }
        self.state.leaves = Ghost(self.state.leaves@.push(leaf_hash@));
        let leaf_id = self.state.arena.push(Node::Leaf { hash: leaf_hash, pos });
        let mut carry = Peak { id: leaf_id, height: 0, hash: leaf_hash };
        proof {
            assert(old_roots.take(old_roots.len() as int) =~= old_roots);
            lemma_merging_start::<H>(
                old_roots,
                old_leaves,
                leaf_hash@,
                carry,
                old_arena,
                self.state.arena@,
            );
        }
        while self.roots.len() > 0 && self.roots[self.roots.len() - 1].height == carry.height
            invariant
                self.state.depth == old(self).state.depth,
                self.size == old(self).size,
                self.size < pow2(31),
                self.state.depth < 32 ==> self.size < pow2(self.state.depth as nat),
                old_leaves == old(self).state.leaves@,
                old_roots == old(self).roots@,
                old_leaves.len() == self.size,
                self.state.leaves@ == old_leaves.push(leaf_hash@),
                self.roots@ == old_roots.take(self.roots@.len() as int),
                carry.height + self.roots@.len() == old_roots.len(),
                forest_hashes_32::<H>(old_roots, old_leaves),
                perfect_hashes_32::<H>(
                    old_leaves.push(leaf_hash@),
                    peak_start(old_roots, self.roots@.len() as int),
                    carry.height as nat,
                ),
                all_32_bytes(old_leaves.push(leaf_hash@)),
                merging::<H>(
                    old_roots,
                    old_leaves,
                    leaf_hash@,
                    self.roots@.len() as int,
                    carry,
                    self.state.arena@,
                ),
            decreases self.roots@.len(),
        {
            let ghost arena_before = self.state.arena@;
            proof {
                lemma_merging_bounds::<H>(
                    old_roots,
                    old_leaves,
                    leaf_hash@,
                    self.roots@.len() as int,
                    carry,
                    self.state.arena@,
                );
            }
            let m = self.roots.len();
            let last = self.roots[m - 1];
            proof {
                assert(last == old_roots[m - 1]);
            }
            let parent = self.bag(last, carry);
            self.roots.pop();
            proof {
                lemma_carry_hashes_32_step::<H>(
                    old_roots,
                    old_leaves,
                    leaf_hash@,
                    m as int,
                    carry,
                    arena_before,
                    parent,
                );
                assert(self.roots@ =~= old_roots.take(m - 1));
                lemma_merging_step::<H>(
                    old_roots,
                    old_leaves,
                    leaf_hash@,
                    m as int,
                    carry,
                    arena_before,
                    parent,
                    self.state.arena@,
                );
            }
            carry = parent;
        }
        proof {
            let m = self.roots@.len() as int;
            lemma_merging_bounds::<H>(old_roots, old_leaves, leaf_hash@, m, carry, self.state.arena@);
            if m > 0 {
                assert(self.roots@[m - 1] == old_roots[m - 1]);
            }
            lemma_merging_done::<H>(old_roots, old_leaves, leaf_hash@, m, carry, self.state.arena@);
            lemma_carry_hashes_32_done::<H>(
                old_roots,
                old_leaves,
                leaf_hash@,
                m,
                carry,
                self.state.arena@,
            );
        }
        let ghost kept = self.roots@;
        self.roots.push(carry);
        self.size = self.size + 1;
        proof {
            assert(self.roots@.drop_last() =~= kept);
        }
        Ok(())
    }

    /// The current digest: the peak hashes, tallest first, and the size.
    pub fn get_digest(&self) -> (digest: Digest)
        ensures
            digest.roots@ == self.peaks().map_values(|p: Peak| p.hash),
            digest.size == self.leaf_count(),
    {
        let mut roots: Vec<Hash32> = Vec::new();
        let mut i: usize = 0;
        while i < self.roots.len()
            invariant
                i <= self.roots@.len(),
                roots@ == self.roots@.take(i as int).map_values(|p: Peak| p.hash),
            decreases self.roots@.len() - i,
        {
            roots.push(self.roots[i].hash);
            proof {
                assert(self.roots@.take(i + 1 as int) =~= self.roots@.take(i as int).push(
                    self.roots@[i as int],
                ));
                assert(roots@ =~= self.roots@.take(i + 1 as int).map_values(|p: Peak| p.hash));
            }
            i = i + 1;
        }
        proof {
            assert(self.roots@.take(i as int) =~= self.roots@);
        }
        Digest { roots, size: self.size }
    }

    /// The shift that the arena records for node `id`: the position of a
    /// leaf, or the shift of an internal node.
    fn node_shift(&self, id: NodeId) -> (shift: u32)
        requires
            id < self.state.arena@.len(),
        ensures
            shift == self.state.arena@[id as int].shift_of(),
    {
        match self.state.arena.get(id) {
            Node::Leaf { pos, .. } => *pos,
            Node::Internal { shift, .. } => *shift,
        }
    }

    /// The parent of two peaks of equal height, `left` the older: its node
    /// is added to the arena.
    fn bag(&mut self, left: Peak, right: Peak) -> (parent: Peak)
        requires
            left.height == right.height,
            left.height < u32::MAX,
            left.id < old(self).state.arena@.len(),
            right.id < old(self).state.arena@.len(),
            old(self).state.arena@.len() <= u32::MAX,
        ensures
            parent.id == old(self).state.arena@.len(),
            parent.height == left.height + 1,
            parent.hash@ == H::spec_hash(seq![left.hash@, right.hash@]),
            final(self).state.arena@ == old(self).state.arena@.push(
                Node::Internal {
                    left: left.id,
                    right: right.id,
                    hash: parent.hash,
                    height: parent.height,
                    shift: (old(self).state.arena@[left.id as int].shift_of() / 2) as u32,
                },
            ),
            final(self).roots == old(self).roots,
            final(self).size == old(self).size,
            final(self).state.depth == old(self).state.depth,
            final(self).state.leaves == old(self).state.leaves,
    {
        let parts: [&[u8]; 2] = [left.hash.as_ref(), right.hash.as_ref()];
        proof {
            assert(part_views(parts@) =~= seq![left.hash@, right.hash@]);
        }
        let h = H::hash(&parts);
        let parent = Node::Internal {
            left: left.id,
            right: right.id,
            hash: h,
            height: left.height + 1,
            shift: self.node_shift(left.id) / 2,
        };
        let id = self.state.arena.push(parent);
        Peak { id, height: left.height + 1, hash: h }
    }
}

// ------------------------- the peaks follow the binary digits -------------------------

/// The positions of the one bits of `n`, highest first.
pub open spec fn binary_heights(n: nat) -> Seq<nat>
    decreases n,
{
    if n == 0 {
        seq![]
    } else {
        binary_heights(n / 2).map_values(|h: nat| h + 1) + if n % 2 == 1 {
            seq![0nat]
        } else {
            seq![]
        }
    }
}

/// The heights of a sequence of peaks.
pub open spec fn peak_heights(peaks: Seq<Peak>) -> Seq<nat> {
    peaks.map_values(|p: Peak| p.height as nat)
}

/// The number of leaves under peaks of the given heights.
pub open spec fn leaves_under(heights: Seq<nat>) -> nat
    decreases heights.len(),
{
    if heights.len() == 0 {
        0
    } else {
        leaves_under(heights.drop_last()) + pow2(heights.last())
    }
}

proof fn lemma_peak_start_is_leaves_under(peaks: Seq<Peak>, i: int)
    requires
        0 <= i <= peaks.len(),
    ensures
        peak_start(peaks, i) == leaves_under(peak_heights(peaks).take(i)),
    decreases i,
{
    if i > 0 {
        lemma_peak_start_is_leaves_under(peaks, i - 1);
        assert(peak_heights(peaks).take(i).drop_last() =~= peak_heights(peaks).take(i - 1));
    }
}

/// Peaks of positive heights hold twice as many leaves as peaks one lower.
proof fn lemma_leaves_under_halves(heights: Seq<nat>)
    requires
        forall|i: int| 0 <= i < heights.len() ==> #[trigger] heights[i] >= 1,
    ensures
        leaves_under(heights) == 2 * leaves_under(
            heights.map_values(|h: nat| (h - 1) as nat),
        ),
    decreases heights.len(),
{
    if heights.len() > 0 {
        let lower = heights.map_values(|h: nat| (h - 1) as nat);
        lemma_leaves_under_halves(heights.drop_last());
        assert(lower.drop_last() =~= heights.drop_last().map_values(|h: nat| (h - 1) as nat));
        lemma_pow2_unfold(heights.last());
    }
}

/// Strictly decreasing heights whose peaks hold `n` leaves are the binary
/// digits of `n`.
proof fn lemma_heights_are_binary(heights: Seq<nat>, n: nat)
    requires
        forall|i: int, j: int|
            0 <= i < j < heights.len() ==> #[trigger] heights[i] > #[trigger] heights[j],
        leaves_under(heights) == n,
    ensures
        heights == binary_heights(n),
    decreases n,
{
    if heights.len() == 0 {
        assert(heights =~= binary_heights(n));
    } else {
        lemma_pow2_pos(heights.last());
        let last = heights.last();
        let upper = if last == 0 {
            heights.drop_last()
        } else {
            heights
        };
        assert forall|i: int| 0 <= i < upper.len() implies #[trigger] upper[i] >= 1 by {
            if last == 0 {
                assert(heights[i] > heights[heights.len() - 1]);
            } else if i < heights.len() - 1 {
                assert(heights[i] > heights[heights.len() - 1]);
            }
        }
        let lower = upper.map_values(|h: nat| (h - 1) as nat);
        lemma_leaves_under_halves(upper);
        lemma2_to64();
        assert(n == 2 * leaves_under(lower) + if last == 0 {
            1nat
        } else {
            0nat
        });
        assert forall|i: int, j: int| 0 <= i < j < lower.len() implies #[trigger] lower[i]
            > #[trigger] lower[j] by {
            assert(upper[i] > upper[j]);
        }
        lemma_heights_are_binary(lower, n / 2);
        assert(lower.map_values(|h: nat| h + 1) =~= upper);
        if last == 0 {
            assert(heights =~= upper + seq![0nat]);
        } else {
            assert(heights =~= upper + Seq::<nat>::empty());
        }
    }
}

/// The peaks of a forest over n leaves have the heights of the one bits of
/// n, highest first: one peak of height k for each 2^k in the binary
/// expansion of n.
pub proof fn lemma_peaks_follow_binary_digits<H: Hasher>(peaks: Seq<Peak>, leaves: Seq<Seq<u8>>)
    requires
        is_forest_of::<H>(peaks, leaves),
    ensures
        peak_heights(peaks) == binary_heights(leaves.len()),
{
    lemma_peak_start_is_leaves_under(peaks, peaks.len() as int);
    assert(peak_heights(peaks).take(peaks.len() as int) =~= peak_heights(peaks));
    let heights = peak_heights(peaks);
    assert forall|i: int, j: int| 0 <= i < j < heights.len() implies #[trigger] heights[i]
        > #[trigger] heights[j] by {
        assert(peaks[i].height > peaks[j].height);
    }
    lemma_heights_are_binary(heights, leaves.len());
}


// ------------------------- the peaks bind the leaves -------------------------

/// A collision of `H`: two messages of different bytes with the same hash.
pub open spec fn has_collision<H: Hasher>() -> bool {
    exists|p: Seq<Seq<u8>>, q: Seq<Seq<u8>>|
        #![trigger H::spec_hash(p), H::spec_hash(q)]
        p.flatten() != q.flatten() && H::spec_hash(p) == H::spec_hash(q)
}

/// Where `H` has no collision, messages with equal hashes are the same
/// bytes.
proof fn lemma_equal_hashes<H: Hasher>(p: Seq<Seq<u8>>, q: Seq<Seq<u8>>)
    requires
        !has_collision::<H>(),
        H::spec_hash(p) == H::spec_hash(q),
    ensures
        p.flatten() == q.flatten(),
{
    if p.flatten() != q.flatten() {
        assert(has_collision::<H>());
    }
}

/// The message of two parts is their concatenation.
proof fn lemma_flatten_pair(a: Seq<u8>, b: Seq<u8>)
    ensures
        seq![a, b].flatten() == a + b,
{
    seq![a].lemma_flatten_one_element();
    seq![a].lemma_flatten_push(b);
    assert(seq![a, b] =~= seq![a].push(b));
}

/// The message of three parts is their concatenation.
proof fn lemma_flatten_three(a: Seq<u8>, b: Seq<u8>, c: Seq<u8>)
    ensures
        seq![a, b, c].flatten() == a + b + c,
{
    lemma_flatten_pair(a, b);
    seq![a, b].lemma_flatten_push(c);
    assert(seq![a, b, c] =~= seq![a, b].push(c));
}

/// The message of five parts is their concatenation.
proof fn lemma_flatten_five(a: Seq<u8>, b: Seq<u8>, c: Seq<u8>, d: Seq<u8>, e: Seq<u8>)
    ensures
        seq![a, b, c, d, e].flatten() == a + b + c + d + e,
{
    lemma_flatten_three(a, b, c);
    seq![a, b, c].lemma_flatten_push(d);
    assert(seq![a, b, c, d] =~= seq![a, b, c].push(d));
    seq![a, b, c, d].lemma_flatten_push(e);
    assert(seq![a, b, c, d, e] =~= seq![a, b, c, d].push(e));
}

/// Where `H` has no collision, the hash of a pair of 32-byte strings
/// determines the pair.
proof fn lemma_pair_injective<H: Hasher>(a: Seq<u8>, b: Seq<u8>, c: Seq<u8>, d: Seq<u8>)
    requires
        !has_collision::<H>(),
        a.len() == 32,
        b.len() == 32,
        c.len() == 32,
        d.len() == 32,
        H::spec_hash(seq![a, b]) == H::spec_hash(seq![c, d]),
    ensures
        a == c,
        b == d,
{
    lemma_equal_hashes::<H>(seq![a, b], seq![c, d]);
    lemma_flatten_pair(a, b);
    lemma_flatten_pair(c, d);
    assert(a + b == c + d);
    assert((a + b).subrange(0, 32) =~= a);
    assert((c + d).subrange(0, 32) =~= c);
    assert((a + b).subrange(32, 64) =~= b);
    assert((c + d).subrange(32, 64) =~= d);
}

/// Where `H` has no collision, equal roots of perfect trees whose hashes
/// are 32 bytes long have equal leaves.
proof fn lemma_perfect_root_injective<H: Hasher>(
    l1: Seq<Seq<u8>>,
    l2: Seq<Seq<u8>>,
    start: int,
    height: nat,
)
    requires
        !has_collision::<H>(),
        0 <= start,
        start + pow2(height) <= l1.len(),
        start + pow2(height) <= l2.len(),
        perfect_hashes_32::<H>(l1, start, height),
        perfect_hashes_32::<H>(l2, start, height),
        perfect_root::<H>(l1, start, height) == perfect_root::<H>(l2, start, height),
    ensures
        forall|k: int| start <= k < start + pow2(height) ==> l1[k] == l2[k],
    decreases height,
{
    lemma_pow2_pos(height);
    if height == 0 {
        assert(pow2(0) == 1) by {
            lemma2_to64();
        }
    } else {
        let h = (height - 1) as nat;
        lemma_pow2_unfold(height);
        lemma_pow2_pos(h);
        let mid = start + pow2(h);
        assert(perfect_hashes_32::<H>(l1, start, h) && perfect_hashes_32::<H>(l1, mid, h));
        assert(perfect_hashes_32::<H>(l2, start, h) && perfect_hashes_32::<H>(l2, mid, h));
        assert(perfect_root::<H>(l1, start, h).len() == 32);
        assert(perfect_root::<H>(l1, mid, h).len() == 32);
        assert(perfect_root::<H>(l2, start, h).len() == 32);
        assert(perfect_root::<H>(l2, mid, h).len() == 32);
        lemma_pair_injective::<H>(
            perfect_root::<H>(l1, start, h),
            perfect_root::<H>(l1, mid, h),
            perfect_root::<H>(l2, start, h),
            perfect_root::<H>(l2, mid, h),
        );
        lemma_perfect_root_injective::<H>(l1, l2, start, h);
        lemma_perfect_root_injective::<H>(l1, l2, mid, h);
    }
}

/// Each position before the end of the last peak lies under some peak.
proof fn lemma_peak_covers(peaks: Seq<Peak>, n: int, k: int) -> (i: int)
    requires
        0 <= n <= peaks.len(),
        0 <= k < peak_start(peaks, n),
    ensures
        0 <= i < n,
        peak_start(peaks, i) <= k < peak_start(peaks, i) + pow2(peaks[i].height as nat),
    decreases n,
{
    if k < peak_start(peaks, n - 1) {
        lemma_peak_covers(peaks, n - 1, k)
    } else {
        n - 1
    }
}

/// Where `H` has no collision, two forests over as many leaves with the
/// same peak hashes, every hash under them 32 bytes long, have the same
/// leaves.
proof fn lemma_forest_binding_without_collision<H: Hasher>(
    peaks1: Seq<Peak>,
    leaves1: Seq<Seq<u8>>,
    peaks2: Seq<Peak>,
    leaves2: Seq<Seq<u8>>,
)
    requires
        !has_collision::<H>(),
        is_forest_of::<H>(peaks1, leaves1),
        is_forest_of::<H>(peaks2, leaves2),
        forest_hashes_32::<H>(peaks1, leaves1),
        forest_hashes_32::<H>(peaks2, leaves2),
        leaves1.len() == leaves2.len(),
        peaks1.map_values(|p: Peak| p.hash) == peaks2.map_values(|p: Peak| p.hash),
    ensures
        leaves1 == leaves2,
{
    lemma_peaks_follow_binary_digits::<H>(peaks1, leaves1);
    lemma_peaks_follow_binary_digits::<H>(peaks2, leaves2);
    let heights = peak_heights(peaks1);
    assert(peaks1.len() == heights.len());
    assert(peaks2.len() == peak_heights(peaks2).len());
    let n = peaks1.len() as int;
    assert forall|k: int| 0 <= k < leaves1.len() implies leaves1[k] == leaves2[k] by {
        let i = lemma_peak_covers(peaks1, n, k);
        assert(heights[i] == peaks1[i].height);
        assert(peak_heights(peaks2)[i] == peaks2[i].height);
        assert(peaks1[i].height == peaks2[i].height);
        lemma_peak_start_is_leaves_under(peaks1, i);
        lemma_peak_start_is_leaves_under(peaks2, i);
        let start = peak_start(peaks1, i);
        assert(peak_start(peaks2, i) == start);
        let h = peaks1[i].height as nat;
        assert(peak_start(peaks1, i + 1) == start + pow2(h));
        lemma_peak_start_grows(peaks1, i + 1, n);
        lemma_peak_start_grows(peaks1, 0, i);
        assert(peaks1.map_values(|p: Peak| p.hash)[i] == peaks1[i].hash);
        assert(peaks2.map_values(|p: Peak| p.hash)[i] == peaks2[i].hash);
        assert(peaks1[i].hash@ == perfect_root::<H>(leaves1, start, h));
        assert(peaks2[i].hash@ == perfect_root::<H>(leaves2, start, h));
        assert(perfect_hashes_32::<H>(leaves1, start, h));
        assert(perfect_hashes_32::<H>(leaves2, start, h));
        lemma_perfect_root_injective::<H>(leaves1, leaves2, start, h);
    }
    assert(leaves1 =~= leaves2);
}

/// The digest binds the leaves: two forests over as many leaves with the
/// same peak hashes, every hash under the peaks 32 bytes long, have the
/// same leaves, or else two messages of different bytes have the same hash
/// under `H`.
pub proof fn lemma_forest_binding<H: Hasher>(
    peaks1: Seq<Peak>,
    leaves1: Seq<Seq<u8>>,
    peaks2: Seq<Peak>,
    leaves2: Seq<Seq<u8>>,
)
    requires
        is_forest_of::<H>(peaks1, leaves1),
        is_forest_of::<H>(peaks2, leaves2),
        forest_hashes_32::<H>(peaks1, leaves1),
        forest_hashes_32::<H>(peaks2, leaves2),
        leaves1.len() == leaves2.len(),
        peaks1.map_values(|p: Peak| p.hash) == peaks2.map_values(|p: Peak| p.hash),
    ensures
        leaves1 == leaves2 || has_collision::<H>(),
{
    if !has_collision::<H>() {
        lemma_forest_binding_without_collision::<H>(peaks1, leaves1, peaks2, leaves2);
    }
}

/// The leaves of a forest after appending two entries, one after the
/// other, to a forest over `leaves`.
pub open spec fn after_two_appends<H: Hasher>(
    leaves: Seq<Seq<u8>>,
    first: (Seq<u8>, Seq<u8>, Seq<u8>),
    second: (Seq<u8>, Seq<u8>, Seq<u8>),
) -> Seq<Seq<u8>> {
    let pos = leaves.len();
    leaves.push(entry_leaf_hash::<H>(first.0, first.1, first.2, pos as u32)).push(
        entry_leaf_hash::<H>(second.0, second.1, second.2, (pos + 1) as u32),
    )
}

/// The prefix and content hashes of `entry` at position `pos` are 32 bytes
/// long.
pub open spec fn entry_hashes_32<H: Hasher>(entry: (Seq<u8>, Seq<u8>, Seq<u8>), pos: u32) -> bool {
    &&& prefix_hash::<H>(entry.0).len() == 32
    &&& content_hash::<H>(entry.0, entry.1, entry.2, pos).len() == 32
}

/// Where `H` has no collision, two entries whose prefix and content hashes
/// are 32 bytes long have the same leaf hash only if they stand at the same
/// position, their keys are equal and their values followed by their
/// signatures are the same bytes.
proof fn lemma_entry_leaf_hash_binds<H: Hasher>(
    a: (Seq<u8>, Seq<u8>, Seq<u8>),
    pos_a: u32,
    b: (Seq<u8>, Seq<u8>, Seq<u8>),
    pos_b: u32,
)
    requires
        !has_collision::<H>(),
        entry_hashes_32::<H>(a, pos_a),
        entry_hashes_32::<H>(b, pos_b),
        entry_leaf_hash::<H>(a.0, a.1, a.2, pos_a) == entry_leaf_hash::<H>(b.0, b.1, b.2, pos_b),
    ensures
        a.0 == b.0,
        a.1 + a.2 == b.1 + b.2,
        pos_a == pos_b,
{
    lemma_auto_spec_u32_to_from_le_bytes();
    let pa = prefix_hash::<H>(a.0);
    let pb = prefix_hash::<H>(b.0);
    let ca = content_hash::<H>(a.0, a.1, a.2, pos_a);
    let cb = content_hash::<H>(b.0, b.1, b.2, pos_b);
    let lt = leaf_tag();
    lemma_equal_hashes::<H>(seq![lt, pa, ca], seq![lt, pb, cb]);
    lemma_flatten_three(lt, pa, ca);
    lemma_flatten_three(lt, pb, cb);
    let ma = lt + pa + ca;
    let mb = lt + pb + cb;
    assert(ma == mb);
    let t = lt.len() as int;
    assert(ma.subrange(t, t + 32) =~= pa);
    assert(mb.subrange(t, t + 32) =~= pb);
    assert(ma.subrange(t + 32, t + 64) =~= ca);
    assert(mb.subrange(t + 32, t + 64) =~= cb);
    let pt = prefix_tag();
    lemma_equal_hashes::<H>(seq![pt, a.0], seq![pt, b.0]);
    lemma_flatten_pair(pt, a.0);
    lemma_flatten_pair(pt, b.0);
    assert((pt + a.0).subrange(pt.len() as int, (pt + a.0).len() as int) =~= a.0);
    assert((pt + b.0).subrange(pt.len() as int, (pt + b.0).len() as int) =~= b.0);
    let ct = content_tag();
    let la = spec_u32_to_le_bytes(pos_a);
    let lb = spec_u32_to_le_bytes(pos_b);
    lemma_equal_hashes::<H>(seq![ct, a.0, a.1, a.2, la], seq![ct, b.0, b.1, b.2, lb]);
    lemma_flatten_five(ct, a.0, a.1, a.2, la);
    lemma_flatten_five(ct, b.0, b.1, b.2, lb);
    let xa = ct + a.0 + a.1 + a.2 + la;
    let xb = ct + b.0 + b.1 + b.2 + lb;
    assert(xa == xb);
    assert(la.len() == 4 && lb.len() == 4);
    let end = xa.len() as int;
    assert(xa.subrange(end - 4, end) =~= la);
    assert(xb.subrange(end - 4, end) =~= lb);
    assert(spec_u32_from_le_bytes(la) == pos_a);
    assert(spec_u32_from_le_bytes(lb) == pos_b);
    let from = ct.len() + a.0.len();
    assert(xa.subrange(from as int, end - 4) =~= a.1 + a.2);
    assert(xb.subrange(from as int, end - 4) =~= b.1 + b.2);
}

/// Leaves bind their entries and positions: two entries whose prefix and
/// content hashes are 32 bytes long have the same leaf hash only if they
/// stand at the same position with equal keys and the same bytes of value
/// followed by signature, or else two messages of different bytes have the
/// same hash under `H`.
pub proof fn lemma_leaf_binds_entry_and_position<H: Hasher>(
    a: (Seq<u8>, Seq<u8>, Seq<u8>),
    pos_a: u32,
    b: (Seq<u8>, Seq<u8>, Seq<u8>),
    pos_b: u32,
)
    requires
        entry_hashes_32::<H>(a, pos_a),
        entry_hashes_32::<H>(b, pos_b),
        entry_leaf_hash::<H>(a.0, a.1, a.2, pos_a) == entry_leaf_hash::<H>(b.0, b.1, b.2, pos_b),
    ensures
        (a.0 == b.0 && a.1 + a.2 == b.1 + b.2 && pos_a == pos_b) || has_collision::<H>(),
{
    if !has_collision::<H>() {
        lemma_entry_leaf_hash_binds::<H>(a, pos_a, b, pos_b);
    }
}

/// A collision of the forest's default hasher is a collision of SHA-256.
pub proof fn lemma_sha256_hasher_collision()
    ensures
        has_collision::<Sha256Hasher>() ==> sha256_has_collision(),
{
    if has_collision::<Sha256Hasher>() {
        let (p, q) = choose|p: Seq<Seq<u8>>, q: Seq<Seq<u8>>|
            #![trigger Sha256Hasher::spec_hash(p), Sha256Hasher::spec_hash(q)]
            p.flatten() != q.flatten() && Sha256Hasher::spec_hash(p) == Sha256Hasher::spec_hash(q);
        lemma_sha256_hasher_binds(p, q);
    }
}

/// The order of appends matters: appending two entries to a forest over
/// `leaves` in one order and in the other gives different peak hashes,
/// unless the entries have the same key and the same bytes of value
/// followed by signature, or else two messages of different bytes have the
/// same hash under `H`. Every hash under the peaks, and the prefix and
/// content hashes of the entries at the position where each lands first,
/// are 32 bytes long.
pub proof fn lemma_append_order_matters<H: Hasher>(
    peaks1: Seq<Peak>,
    peaks2: Seq<Peak>,
    leaves: Seq<Seq<u8>>,
    first: (Seq<u8>, Seq<u8>, Seq<u8>),
    second: (Seq<u8>, Seq<u8>, Seq<u8>),
)
    requires
        leaves.len() + 1 <= u32::MAX,
        first.0 != second.0 || first.1 + first.2 != second.1 + second.2,
        entry_hashes_32::<H>(first, leaves.len() as u32),
        entry_hashes_32::<H>(second, leaves.len() as u32),
        is_forest_of::<H>(peaks1, after_two_appends::<H>(leaves, first, second)),
        is_forest_of::<H>(peaks2, after_two_appends::<H>(leaves, second, first)),
        forest_hashes_32::<H>(peaks1, after_two_appends::<H>(leaves, first, second)),
        forest_hashes_32::<H>(peaks2, after_two_appends::<H>(leaves, second, first)),
    ensures
        peaks1.map_values(|p: Peak| p.hash) != peaks2.map_values(|p: Peak| p.hash)
            || has_collision::<H>(),
{
    if !has_collision::<H>() && peaks1.map_values(|p: Peak| p.hash) == peaks2.map_values(
        |p: Peak| p.hash,
    ) {
        let l1 = after_two_appends::<H>(leaves, first, second);
        let l2 = after_two_appends::<H>(leaves, second, first);
        let n = leaves.len() as int;
        lemma_forest_binding_without_collision::<H>(peaks1, l1, peaks2, l2);
        assert(l1[n] == l2[n]);
        lemma_entry_leaf_hash_binds::<H>(first, n as u32, second, n as u32);
    }
}

} // verus!
