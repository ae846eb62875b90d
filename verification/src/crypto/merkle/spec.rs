//! The mathematical model of the Merkle trees: index arithmetic, the node
//! hashes of zero padded and copy padded trees, the co-paths of a leaf and
//! the recomputation of a root from a co-path.

use vstd::prelude::*;

use crate::hash::all_32_bytes;
use vstd::arithmetic::power2::*;

verus! {

/// SHA3-256 of a byte string.
pub uninterp spec fn sha3_256(data: Seq<u8>) -> Seq<u8>;

/// The byte strings held by a sequence of byte vectors.
pub open spec fn byte_views(s: Seq<Vec<u8>>) -> Seq<Seq<u8>> {
    s.map_values(|v: Vec<u8>| v@)
}

/// ceil(log2(n)), where n = 0 counts as 1.
pub open spec fn ceil_log2(n: nat) -> nat
    decreases n,
{
    if n <= 1 {
        0
    } else {
        1 + ceil_log2(((n + 1) / 2) as nat)
    }
}

/// The number of levels of a tree over `n` leaves: ceil(log2(n)) + 1.
pub open spec fn tree_height(n: nat) -> nat {
    ceil_log2(n) + 1
}

/// The hash of a node with children `left` and `right`.
pub open spec fn hash_children(left: Seq<u8>, right: Seq<u8>) -> Seq<u8> {
    sha3_256(left + right)
}

/// One step up a co-path: `acc` is the hash of the current node, `sibling`
/// that of its sibling, and `acc_is_left` says on which side `acc` stands.
pub open spec fn hash_step(acc: Seq<u8>, sibling: Seq<u8>, acc_is_left: bool) -> Seq<u8> {
    if acc_is_left {
        hash_children(acc, sibling)
    } else {
        hash_children(sibling, acc)
    }
}

/// The other node of the pair `{2k, 2k + 1}` that `i` belongs to.
pub open spec fn sibling(i: int) -> int {
    if i % 2 == 0 {
        i + 1
    } else {
        i - 1
    }
}

// ---------------------------------------------------------------------------
// Zero padded trees.
//
// A zero padded tree of height h has 2^(h-1) leaves, numbered 0 .. 2^(h-1),
// followed level by level by the internal nodes; the root is node 2^h - 2.
// Leaves past the data hold the hash of the single byte 0.
// ---------------------------------------------------------------------------

/// Index of the root of a zero padded tree of height `height`.
pub open spec fn zero_root_index(height: nat) -> int {
    pow2(height) - 2
}

/// Number of leaves of a zero padded tree of height `height` (at least 1).
pub open spec fn zero_leaf_count(height: nat) -> int {
    pow2((height - 1) as nat) as int
}

/// Parent of node `i` in a zero padded tree of height `height`.
pub open spec fn zero_parent(height: nat, i: int) -> int {
    (i + pow2(height)) / 2
}

/// Left child of internal node `p` in a zero padded tree of height `height`.
pub open spec fn zero_left_child(height: nat, p: int) -> int {
    2 * p - pow2(height)
}

/// Right child of internal node `p` in a zero padded tree of height `height`.
pub open spec fn zero_right_child(height: nat, p: int) -> int {
    2 * p - pow2(height) + 1
}

/// The hash of leaf `k` of a zero padded tree over the first `n` values.
pub open spec fn zero_leaf(values: Seq<Seq<u8>>, n: nat, k: int) -> Seq<u8> {
    if k < n {
        sha3_256(values[k])
    } else {
        sha3_256(seq![0u8])
    }
}

/// Node `k` holds the hash that a zero padded tree puts there.
pub open spec fn zero_node_ok(
    nodes: Seq<Seq<u8>>,
    values: Seq<Seq<u8>>,
    n: nat,
    height: nat,
    k: int,
) -> bool {
    if k < zero_leaf_count(height) {
        nodes[k] == zero_leaf(values, n, k)
    } else {
        nodes[k] == hash_children(
            nodes[zero_left_child(height, k)],
            nodes[zero_right_child(height, k)],
        )
    }
}

/// `nodes` are the node hashes of the zero padded tree of height `height`
/// over the first `n` of `values`.
pub open spec fn is_zero_padded_tree(
    nodes: Seq<Seq<u8>>,
    values: Seq<Seq<u8>>,
    n: nat,
    height: nat,
) -> bool {
    &&& 1 <= height
    &&& nodes.len() == pow2(height) - 1
    &&& forall|k: int| 0 <= k < nodes.len() ==> #[trigger] zero_node_ok(nodes, values, n, height, k)
}

/// The hash of node `k` of the zero padded tree of height `height` over the
/// first `n` of `values`.
pub open spec fn zero_node_hash(values: Seq<Seq<u8>>, n: nat, height: nat, k: int) -> Seq<u8>
    decreases k,
{
    if k < zero_leaf_count(height) || k >= pow2(height) - 1 {
        zero_leaf(values, n, k)
    } else {
        proof {
            if height > 0 {
                lemma_pow2_unfold(height);
            } else {
                lemma2_to64();
            }
        }
        hash_children(
            zero_node_hash(values, n, height, zero_left_child(height, k)),
            zero_node_hash(values, n, height, zero_right_child(height, k)),
        )
    }
}

/// The node hashes of the zero padded tree of height `height` over the
/// first `n` of `values`.
pub open spec fn zero_tree(values: Seq<Seq<u8>>, n: nat, height: nat) -> Seq<Seq<u8>> {
    Seq::new((pow2(height) - 1) as nat, |k: int| zero_node_hash(values, n, height, k))
}

/// The co-path of node `cur` in the node list `nodes` of a zero padded tree
/// of height `height`: the hashes of the siblings of `cur` and of each of its
/// ancestors below the root. `None` where a sibling lies past `nodes`.
pub open spec fn zero_copath_walk(nodes: Seq<Seq<u8>>, height: nat, cur: int) -> Option<
    Seq<Seq<u8>>,
>
    decreases pow2(height) - cur,
{
    if cur < 0 || cur >= zero_root_index(height) {
        Some(seq![])
    } else if sibling(cur) >= nodes.len() {
        None
    } else {
        match zero_copath_walk(nodes, height, zero_parent(height, cur)) {
            Some(rest) => Some(seq![nodes[sibling(cur)]] + rest),
            None => None,
        }
    }
}

/// The hash reached by climbing from node `cur`, whose hash is `acc`, along
/// `copath`; `None` where the climb passes the root before the co-path ends.
pub open spec fn zero_fold(copath: Seq<Seq<u8>>, acc: Seq<u8>, height: nat, cur: int) -> Option<
    Seq<u8>,
>
    decreases copath.len(),
{
    if copath.len() == 0 {
        Some(acc)
    } else if cur >= zero_root_index(height) {
        None
    } else {
        zero_fold(
            copath.drop_first(),
            hash_step(acc, copath[0], cur % 2 == 0),
            height,
            zero_parent(height, cur),
        )
    }
}

/// `copath` proves that `value` is leaf `index` of the zero padded tree of
/// height `height` with root hash `root`.
pub open spec fn zero_verifies(
    copath: Seq<Seq<u8>>,
    root: Seq<u8>,
    value: Seq<u8>,
    index: int,
    height: nat,
) -> bool {
    &&& copath.len() + 1 == height
    &&& zero_fold(copath, sha3_256(value), height, index) == Some(root)
}

// ---------------------------------------------------------------------------
// Copy padded trees.
//
// Level 0 holds the hashes of the n values; each next level holds
// ceil(size / 2) nodes, node k hashing nodes 2k and 2k + 1 of the level below,
// or node 2k twice where 2k is the last node of an odd level. The levels are
// stored one after the other; the root is the last node.
// ---------------------------------------------------------------------------

/// Index of the root of the copy padded tree over `n` leaves: the number of
/// nodes on the levels of more than one node.
pub open spec fn copy_root_index(n: nat) -> nat
    decreases n,
{
    if n <= 1 {
        0
    } else {
        n + copy_root_index(((n + 1) / 2) as nat)
    }
}

/// Node `cur` of the level that starts at `first` and holds `size` nodes has
/// a parent (the index bound is the one the tree's index arithmetic checks).
pub open spec fn copy_parent_ok(cur: int, first: int, size: int) -> bool {
    &&& size > 1
    &&& first <= cur
    &&& cur - first <= size
}

/// Parent of node `cur` of the level that starts at `first` and holds `size`
/// nodes.
pub open spec fn copy_parent(cur: int, first: int, size: int) -> int {
    (cur - first) / 2 + first + size
}

/// The node that `cur` is hashed with on its level: the other node of its
/// pair, or `cur` itself when it is the last node of an odd level.
pub open spec fn copy_sibling(cur: int, first: int, size: int) -> int {
    if cur == first + size - 1 && size % 2 == 1 {
        cur
    } else {
        first + sibling(cur - first)
    }
}

/// The level above `level`.
pub open spec fn pair_up(level: Seq<Seq<u8>>) -> Seq<Seq<u8>> {
    Seq::new(
        ((level.len() + 1) / 2) as nat,
        |k: int|
            hash_children(
                level[2 * k],
                level[if 2 * k + 1 < level.len() {
                    2 * k + 1
                } else {
                    2 * k
                }],
            ),
    )
}

/// The nodes of the copy padded tree whose lowest level is `level`, level
/// by level.
pub open spec fn copy_tree(level: Seq<Seq<u8>>) -> Seq<Seq<u8>>
    decreases level.len(),
{
    if level.len() <= 1 {
        level
    } else {
        level + copy_tree(pair_up(level))
    }
}

/// The hashes of the first `n` values.
pub open spec fn leaf_hashes(values: Seq<Seq<u8>>, n: nat) -> Seq<Seq<u8>> {
    Seq::new(n, |k: int| sha3_256(values[k]))
}

/// The co-path that the copy padded tree with node list `nodes` gives for
/// node `cur` of the level that starts at `first` and holds `size` nodes,
/// climbing `steps` levels. `None` where a climb leaves `nodes`, finds no
/// parent, or leaves the u16 index space.
pub open spec fn copy_copath_walk(
    nodes: Seq<Seq<u8>>,
    steps: nat,
    cur: int,
    first: int,
    size: int,
) -> Option<Seq<Seq<u8>>>
    decreases steps,
{
    if steps == 0 {
        Some(seq![])
    } else if size < 1 || cur < first || first + size > u16::MAX || copy_sibling(cur, first, size)
        > u16::MAX || copy_sibling(cur, first, size) >= nodes.len() || !copy_parent_ok(
        cur,
        first,
        size,
    ) || copy_parent(cur, first, size) > u16::MAX || size + 1 > u16::MAX {
        None
    } else {
        match copy_copath_walk(
            nodes,
            (steps - 1) as nat,
            copy_parent(cur, first, size),
            first + size,
            (size + 1) / 2,
        ) {
            Some(rest) => Some(seq![nodes[copy_sibling(cur, first, size)]] + rest),
            None => None,
        }
    }
}

/// Climbing `steps` levels of index arithmetic from node `cur` of the level
/// that starts at `first` and holds `size` nodes leaves the u16 index space.
pub open spec fn copy_climb_overflows(steps: nat, cur: int, first: int, size: int) -> bool
    decreases steps,
{
    if steps == 0 || cur < first || !copy_parent_ok(cur, first, size) {
        false
    } else if copy_parent(cur, first, size) > u16::MAX || size + 1 > u16::MAX {
        true
    } else {
        copy_climb_overflows(
            (steps - 1) as nat,
            copy_parent(cur, first, size),
            first + size,
            (size + 1) / 2,
        )
    }
}

/// The hash reached by climbing a copy padded tree from node `cur`, whose
/// hash is `acc`, of the level that starts at `first` and holds `size`
/// nodes, along `copath`; `None` where a node on the way has no parent.
pub open spec fn copy_fold(
    copath: Seq<Seq<u8>>,
    acc: Seq<u8>,
    cur: int,
    first: int,
    size: int,
) -> Option<Seq<u8>>
    decreases copath.len(),
{
    if copath.len() == 0 {
        Some(acc)
    } else if !copy_parent_ok(cur, first, size) {
        None
    } else {
        copy_fold(
            copath.drop_first(),
            hash_step(acc, copath[0], (cur - first) % 2 == 0),
            copy_parent(cur, first, size),
            first + size,
            (size + 1) / 2,
        )
    }
}

/// `copath` proves that `value` is leaf `index` of the copy padded tree over
/// `n` leaves with root hash `root`.
pub open spec fn copy_verifies(
    copath: Seq<Seq<u8>>,
    root: Seq<u8>,
    value: Seq<u8>,
    index: int,
    n: nat,
) -> bool {
    &&& copath.len() + 1 == tree_height(n)
    &&& copy_fold(copath, sha3_256(value), index, 0, n as int) == Some(root)
}

// ---------------------------------------------------------------------------
// Lemmas.
// ---------------------------------------------------------------------------

/// A tree over at most 2^e leaves has at most e + 1 levels.
pub proof fn lemma_ceil_log2_le(n: nat, e: nat)
    requires
        n <= pow2(e),
    ensures
        ceil_log2(n) <= e,
    decreases n,
{
    if n > 1 {
        if e == 0 {
            lemma_pow2(0);
            lemma2_to64();
        } else {
            lemma_pow2_unfold(e);
            lemma_ceil_log2_le(((n + 1) / 2) as nat, (e - 1) as nat);
        }
    }
}

/// 2^ceil(log2(n)) leaves hold n values, and for n >= 2 half as many do not.
pub proof fn lemma_ceil_log2_bounds(n: nat)
    ensures
        n <= pow2(ceil_log2(n)),
        n >= 2 ==> pow2((ceil_log2(n) - 1) as nat) < n,
    decreases n,
{
    if n <= 1 {
        lemma2_to64();
    } else {
        let m = ((n + 1) / 2) as nat;
        lemma_ceil_log2_bounds(m);
        lemma_pow2_unfold(ceil_log2(n));
        if m >= 2 {
            lemma_pow2_unfold(ceil_log2(m));
        } else {
            lemma2_to64();
        }
    }
}

/// Climbing a zero padded tree from node `cur` on level `d` (counting from
/// the leaves) along its co-path takes one step per level above it and
/// reaches the root hash.
proof fn lemma_zero_climb(
    nodes: Seq<Seq<u8>>,
    values: Seq<Seq<u8>>,
    n: nat,
    height: nat,
    d: nat,
    cur: int,
)
    requires
        is_zero_padded_tree(nodes, values, n, height),
        d < height,
        pow2(height) - pow2((height - d) as nat) <= cur < pow2(height) - pow2(
            (height - d - 1) as nat,
        ),
    ensures
        zero_copath_walk(nodes, height, cur) is Some,
        zero_copath_walk(nodes, height, cur)->Some_0.len() + d + 1 == height,
        zero_fold(zero_copath_walk(nodes, height, cur)->Some_0, nodes[cur], height, cur) == Some(
            nodes[zero_root_index(height)],
        ),
    decreases height - d,
{
    lemma_pow2_unfold((height - d) as nat);
    lemma2_to64();
    if d + 1 == height {
        assert(cur == zero_root_index(height));
    } else {
        let big = pow2(height) as int;
        let p1 = pow2((height - d - 1) as nat) as int;
        let p2 = pow2((height - d - 2) as nat) as int;
        lemma_pow2_unfold((height - d - 1) as nat);
        lemma_pow2_unfold(height);
        if d > 0 {
            lemma_pow2_strictly_increases((height - d - 1) as nat, (height - 1) as nat);
        }
        let p = zero_parent(height, cur);
        assert(big - p1 <= p < big - p2);
        lemma_zero_climb(nodes, values, n, height, d + 1, p);
        let rest = zero_copath_walk(nodes, height, p)->Some_0;
        assert(zero_node_ok(nodes, values, n, height, p));
        if cur % 2 == 0 {
            assert(zero_left_child(height, p) == cur);
        } else {
            assert(zero_left_child(height, p) == cur - 1);
        }
        let cp = seq![nodes[sibling(cur)]] + rest;
        assert(cp.drop_first() =~= rest);
        assert(hash_step(nodes[cur], cp[0], cur % 2 == 0) == nodes[p]);
    }
}

/// Completeness of zero padded trees: every leaf `index < n` of the zero
/// padded tree over the first `n` values has a co-path, and that co-path
/// proves `values[index]` against the root.
pub proof fn lemma_zero_padded_copath_verifies(
    nodes: Seq<Seq<u8>>,
    values: Seq<Seq<u8>>,
    n: nat,
    index: int,
)
    requires
        nodes == zero_tree(values, n, tree_height(n)),
        n <= values.len(),
        0 <= index < n,
    ensures
        zero_copath_walk(nodes, tree_height(n), index) is Some,
        zero_verifies(
            zero_copath_walk(nodes, tree_height(n), index)->Some_0,
            nodes[zero_root_index(tree_height(n))],
            values[index],
            index,
            tree_height(n),
        ),
{
    let height = tree_height(n);
    lemma_zero_tree_is_zero_padded(values, n, height);
    lemma_ceil_log2_bounds(n);
    lemma_pow2_unfold(height);
    assert(zero_node_ok(nodes, values, n, height, index));
    lemma_zero_climb(nodes, values, n, height, 0, index);
}

/// A collision of SHA3-256: two different byte strings with the same hash.
pub open spec fn sha3_has_collision() -> bool {
    exists|a: Seq<u8>, b: Seq<u8>|
        #![trigger sha3_256(a), sha3_256(b)]
        a != b && sha3_256(a) == sha3_256(b)
}

/// Where SHA3-256 has no collision, the hash of two 32-byte strings, with
/// a third of unknown length on one side, determines it.
proof fn lemma_hash_children_split(acc: Seq<u8>, sib: Seq<u8>, left: Seq<u8>, right: Seq<u8>, acc_is_left: bool)
    requires
        !sha3_has_collision(),
        sib.len() == 32,
        left.len() == 32,
        right.len() == 32,
        hash_step(acc, sib, acc_is_left) == hash_children(left, right),
    ensures
        acc_is_left ==> acc == left,
        !acc_is_left ==> acc == right,
{
    let m = if acc_is_left { acc + sib } else { sib + acc };
    if m != left + right {
        assert(sha3_256(m) == sha3_256(left + right));
        assert(sha3_has_collision());
    }
    assert(m.len() == 64);
    if acc_is_left {
        assert(m.subrange(0, 32) =~= acc);
        assert((left + right).subrange(0, 32) =~= left);
    } else {
        assert(m.subrange(32, 64) =~= acc);
        assert((left + right).subrange(32, 64) =~= right);
    }
}

/// Binding of zero padded trees: where SHA3-256 has no collision, a climb
/// from node `cur` on level `d` along a co-path of 32-byte hashes, one per
/// level above it, that reaches the root hash of a tree whose hashes are 32
/// bytes long started from the hash of node `cur`.
pub proof fn lemma_zero_fold_binds(
    nodes: Seq<Seq<u8>>,
    values: Seq<Seq<u8>>,
    n: nat,
    height: nat,
    d: nat,
    cur: int,
    copath: Seq<Seq<u8>>,
    acc: Seq<u8>,
)
    requires
        !sha3_has_collision(),
        is_zero_padded_tree(nodes, values, n, height),
        all_32_bytes(nodes),
        all_32_bytes(copath),
        d < height,
        pow2(height) - pow2((height - d) as nat) <= cur < pow2(height) - pow2(
            (height - d - 1) as nat,
        ),
        copath.len() + d + 1 == height,
        zero_fold(copath, acc, height, cur) == Some(nodes[zero_root_index(height)]),
    ensures
        acc == nodes[cur],
    decreases height - d,
{
    lemma_pow2_unfold((height - d) as nat);
    lemma2_to64();
    if d + 1 == height {
        assert(cur == zero_root_index(height));
    } else {
        let big = pow2(height) as int;
        let p1 = pow2((height - d - 1) as nat) as int;
        let p2 = pow2((height - d - 2) as nat) as int;
        lemma_pow2_unfold((height - d - 1) as nat);
        lemma_pow2_unfold(height);
        if d > 0 {
            lemma_pow2_strictly_increases((height - d - 1) as nat, (height - 1) as nat);
        }
        let p = zero_parent(height, cur);
        assert(big - p1 <= p < big - p2);
        let rest = copath.drop_first();
        let step = hash_step(acc, copath[0], cur % 2 == 0);
        assert(all_32_bytes(rest)) by {
            assert forall|i: int| 0 <= i < rest.len() implies (#[trigger] rest[i]).len() == 32 by {
                assert(rest[i] == copath[i + 1]);
            }
        }
        lemma_zero_fold_binds(nodes, values, n, height, d + 1, p, rest, step);
        assert(zero_node_ok(nodes, values, n, height, p));
        let lc = zero_left_child(height, p);
        if cur % 2 == 0 {
            assert(lc == cur);
        } else {
            assert(lc == cur - 1);
        }
        lemma_hash_children_split(acc, copath[0], nodes[lc], nodes[lc + 1], cur % 2 == 0);
    }
}

/// Level `d` of the copy padded tree whose lowest level is `level`.
pub open spec fn copy_level(level: Seq<Seq<u8>>, d: nat) -> Seq<Seq<u8>>
    decreases d,
{
    if d == 0 {
        level
    } else {
        copy_level(pair_up(level), (d - 1) as nat)
    }
}

/// Levels `0 .. d` of the copy padded tree whose lowest level is `level`,
/// one after the other.
pub open spec fn copy_levels_below(level: Seq<Seq<u8>>, d: nat) -> Seq<Seq<u8>>
    decreases d,
{
    if d == 0 {
        seq![]
    } else {
        level + copy_levels_below(pair_up(level), (d - 1) as nat)
    }
}

/// Each level of a copy padded tree is the pairing of the one below.
pub proof fn lemma_copy_level_next(level: Seq<Seq<u8>>, d: nat)
    ensures
        copy_level(level, d + 1) == pair_up(copy_level(level, d)),
    decreases d,
{
    if d == 0 {
        assert(copy_level(level, 1) == copy_level(pair_up(level), 0));
    } else {
        lemma_copy_level_next(pair_up(level), (d - 1) as nat);
        assert(copy_level(level, d + 1) == copy_level(pair_up(level), d));
        assert(copy_level(level, d) == copy_level(pair_up(level), (d - 1) as nat));
    }
}

/// The levels below `d + 1` are those below `d` followed by level `d`.
pub proof fn lemma_copy_levels_below_next(level: Seq<Seq<u8>>, d: nat)
    ensures
        copy_levels_below(level, d + 1) == copy_levels_below(level, d) + copy_level(level, d),
    decreases d,
{
    if d == 0 {
        assert(copy_levels_below(pair_up(level), 0) == Seq::<Seq<u8>>::empty());
        assert(level + Seq::<Seq<u8>>::empty() =~= Seq::<Seq<u8>>::empty() + level);
    } else {
        lemma_copy_levels_below_next(pair_up(level), (d - 1) as nat);
        assert(copy_levels_below(level, d + 1) =~= copy_levels_below(level, d) + copy_level(
            level,
            d,
        ));
    }
}

/// A copy padded tree is its levels below the first level of one node,
/// which is level ceil(log2(size)), followed by that level.
pub proof fn lemma_copy_tree_levels(level: Seq<Seq<u8>>)
    requires
        level.len() >= 1,
    ensures
        copy_tree(level) == copy_levels_below(level, ceil_log2(level.len()) + 1),
        copy_tree(level).len() == copy_root_index(level.len()) + 1,
        copy_level(level, ceil_log2(level.len())).len() == 1,
    decreases level.len(),
{
    if level.len() == 1 {
        assert(copy_levels_below(pair_up(level), 0) == Seq::<Seq<u8>>::empty());
        assert(level + Seq::<Seq<u8>>::empty() =~= level);
    } else {
        lemma_copy_tree_levels(pair_up(level));
    }
}

/// Fewer levels hold fewer nodes.
pub proof fn lemma_copy_levels_below_grow(level: Seq<Seq<u8>>, d: nat, e: nat)
    requires
        d <= e,
    ensures
        copy_levels_below(level, d).len() <= copy_levels_below(level, e).len(),
    decreases e - d,
{
    if d < e {
        lemma_copy_levels_below_next(level, d);
        lemma_copy_levels_below_grow(level, d + 1, e);
    }
}

/// Climbing the copy padded tree whose lowest level is `level`, stored in
/// `nodes` from position `offset` to the end, from node `k` of that level
/// along its co-path takes one step per level above and reaches the root.
proof fn lemma_copy_climb(nodes: Seq<Seq<u8>>, offset: int, level: Seq<Seq<u8>>, k: int)
    requires
        level.len() >= 1,
        0 <= offset,
        nodes.len() == offset + copy_tree(level).len(),
        nodes.len() <= u16::MAX,
        nodes.subrange(offset, nodes.len() as int) == copy_tree(level),
        0 <= k < level.len(),
    ensures
        copy_copath_walk(nodes, ceil_log2(level.len()), offset + k, offset, level.len() as int) is Some,
        copy_copath_walk(
            nodes,
            ceil_log2(level.len()),
            offset + k,
            offset,
            level.len() as int,
        )->Some_0.len() == ceil_log2(level.len()),
        copy_fold(
            copy_copath_walk(
                nodes,
                ceil_log2(level.len()),
                offset + k,
                offset,
                level.len() as int,
            )->Some_0,
            level[k],
            offset + k,
            offset,
            level.len() as int,
        ) == Some(nodes.last()),
        !copy_climb_overflows(ceil_log2(level.len()), offset + k, offset, level.len() as int),
    decreases level.len(),
{
    let s = level.len() as int;
    let tree = copy_tree(level);
    assert(nodes[offset + k] == tree[k]);
    if s == 1 {
        assert(tree == level);
    } else {
        let up = pair_up(level);
        let up_tree = copy_tree(up);
        assert(tree == level + up_tree);
        let next = offset + s;
        assert forall|i: int| 0 <= i < up_tree.len() implies nodes.subrange(
            next,
            nodes.len() as int,
        )[i] == up_tree[i] by {
            assert(nodes.subrange(offset, nodes.len() as int)[s + i] == tree[s + i]);
        }
        assert(nodes.subrange(next, nodes.len() as int) =~= up_tree);
        lemma_copy_climb(nodes, next, up, k / 2);
        let sib = copy_sibling(offset + k, offset, s);
        let sk = sib - offset;
        assert(nodes[sib] == tree[sk]);
        assert(nodes[next + k / 2] == up_tree[k / 2]);
        let rest = copy_copath_walk(nodes, ceil_log2(up.len()), next + k / 2, next, up.len() as int)->Some_0;
        let cp = seq![nodes[sib]] + rest;
        assert(cp.drop_first() =~= rest);
        assert(copy_parent(offset + k, offset, s) == next + k / 2);
        assert(hash_step(level[k], cp[0], (offset + k - offset) % 2 == 0) == up[k / 2]);
    }
}

/// Completeness of copy padded trees: every leaf `index < n` of the copy
/// padded tree over the first `n` values has a co-path, the climb along it
/// stays in the u16 index space, and the co-path proves `values[index]`
/// against the root.
pub proof fn lemma_copy_padded_copath_verifies(
    nodes: Seq<Seq<u8>>,
    values: Seq<Seq<u8>>,
    n: nat,
    index: int,
)
    requires
        nodes == copy_tree(leaf_hashes(values, n)),
        nodes.len() <= u16::MAX,
        n <= values.len(),
        0 <= index < n,
    ensures
        copy_copath_walk(nodes, ceil_log2(n), index, 0, n as int) is Some,
        !copy_climb_overflows(ceil_log2(n), index, 0, n as int),
        copy_verifies(
            copy_copath_walk(nodes, ceil_log2(n), index, 0, n as int)->Some_0,
            nodes[copy_root_index(n) as int],
            values[index],
            index,
            n,
        ),
{
    let leaves = leaf_hashes(values, n);
    lemma_copy_tree_levels(leaves);
    assert(nodes.subrange(0, nodes.len() as int) =~= nodes);
    lemma_copy_climb(nodes, 0, leaves, index);
}

/// Where SHA3-256 has no collision, a climb from node `k` of `level` (stored
/// from `offset` on) along a co-path of 32-byte hashes, one per level above
/// it, that reaches the root hash of the copy padded tree over `level`,
/// whose hashes are 32 bytes long, started from the hash of node `k`.
proof fn lemma_copy_fold_binds(
    level: Seq<Seq<u8>>,
    offset: int,
    k: int,
    copath: Seq<Seq<u8>>,
    acc: Seq<u8>,
)
    requires
        !sha3_has_collision(),
        level.len() >= 1,
        all_32_bytes(copy_tree(level)),
        all_32_bytes(copath),
        0 <= k < level.len(),
        copath.len() == ceil_log2(level.len()),
        copy_fold(copath, acc, offset + k, offset, level.len() as int) == Some(
            copy_tree(level).last(),
        ),
    ensures
        acc == level[k],
    decreases level.len(),
{
    let s = level.len() as int;
    let tree = copy_tree(level);
    if s == 1 {
        assert(tree == level);
    } else {
        let up = pair_up(level);
        let up_tree = copy_tree(up);
        assert(tree == level + up_tree);
        assert(up.len() >= 1);
        lemma_copy_tree_levels(up);
        assert(tree.last() == up_tree.last());
        assert(all_32_bytes(up_tree)) by {
            assert forall|i: int| 0 <= i < up_tree.len() implies (#[trigger] up_tree[i]).len()
                == 32 by {
                assert(tree[s + i] == up_tree[i]);
            }
        }
        let rest = copath.drop_first();
        assert(all_32_bytes(rest)) by {
            assert forall|i: int| 0 <= i < rest.len() implies (#[trigger] rest[i]).len() == 32 by {
                assert(rest[i] == copath[i + 1]);
            }
        }
        let step = hash_step(acc, copath[0], (offset + k - offset) % 2 == 0);
        assert(copy_parent(offset + k, offset, s) == offset + s + k / 2);
        lemma_copy_fold_binds(up, offset + s, k / 2, rest, step);
        let j = 2 * (k / 2);
        let j2 = if j + 1 < s {
            j + 1
        } else {
            j
        };
        assert(tree[j] == level[j]);
        assert(tree[j2] == level[j2]);
        assert(step == hash_children(level[j], level[j2]));
        if k % 2 == 0 {
            assert(j == k);
        } else {
            assert(j == k - 1);
            assert(j2 == k);
        }
        lemma_hash_children_split(acc, copath[0], level[j], level[j2], k % 2 == 0);
    }
}

/// Binding of copy padded trees: where SHA3-256 has no collision, a
/// co-path of 32-byte hashes, of the tree's length, that verifies `value`
/// at `index` against the root of the copy padded tree over the first `n`
/// values, whose hashes are 32 bytes long, verifies the value stored
/// there; or else SHA3-256 has a collision.
pub proof fn lemma_copy_padded_binds(
    values: Seq<Seq<u8>>,
    n: nat,
    index: int,
    value: Seq<u8>,
    copath: Seq<Seq<u8>>,
)
    requires
        1 <= n <= values.len(),
        0 <= index < n,
        all_32_bytes(copy_tree(leaf_hashes(values, n))),
        all_32_bytes(copath),
        copy_verifies(
            copath,
            copy_tree(leaf_hashes(values, n))[copy_root_index(n) as int],
            value,
            index,
            n,
        ),
    ensures
        value == values[index] || sha3_has_collision(),
{
    let leaves = leaf_hashes(values, n);
    lemma_copy_tree_levels(leaves);
    if !sha3_has_collision() {
        lemma_copy_fold_binds(leaves, 0, index, copath, sha3_256(value));
        if value != values[index] {
            assert(sha3_256(value) == sha3_256(values[index]));
            assert(sha3_has_collision());
        }
    }
}

/// Climbing from a node within 2^j of the end of the node list takes at
/// most j - 1 steps to pass the root, so a co-path of j or more hashes
/// runs past it.
proof fn lemma_zero_fold_past_root(copath: Seq<Seq<u8>>, acc: Seq<u8>, height: nat, cur: int, j: nat)
    requires
        j >= 1,
        copath.len() >= j,
        pow2(height) - cur <= pow2(j),
    ensures
        zero_fold(copath, acc, height, cur) is None,
    decreases j,
{
    lemma2_to64();
    if cur < zero_root_index(height) {
        lemma_pow2_unfold(j);
        let p = zero_parent(height, cur);
        assert(pow2(height) - p <= pow2((j - 1) as nat));
        lemma_zero_fold_past_root(
            copath.drop_first(),
            hash_step(acc, copath[0], cur % 2 == 0),
            height,
            p,
            (j - 1) as nat,
        );
    }
}

/// Only leaves verify: in a zero padded tree of two or more levels, no
/// co-path verifies any value at an index at or past the leaf count.
pub proof fn lemma_zero_verifies_only_leaves(
    copath: Seq<Seq<u8>>,
    root: Seq<u8>,
    value: Seq<u8>,
    index: int,
    height: nat,
)
    requires
        height >= 2,
        index >= zero_leaf_count(height),
    ensures
        !zero_verifies(copath, root, value, index, height),
{
    if copath.len() + 1 == height {
        lemma_pow2_unfold(height);
        lemma_zero_fold_past_root(copath, sha3_256(value), height, index, (height - 1) as nat);
    }
}

/// The node list of a zero padded tree is the one `zero_tree` describes.
pub proof fn lemma_zero_tree_unique(nodes: Seq<Seq<u8>>, values: Seq<Seq<u8>>, n: nat, height: nat)
    requires
        is_zero_padded_tree(nodes, values, n, height),
    ensures
        nodes == zero_tree(values, n, height),
{
    lemma_pow2_unfold(height);
    assert forall|k: int| 0 <= k < nodes.len() implies nodes[k] == zero_node_hash(
        values,
        n,
        height,
        k,
    ) by {
        lemma_zero_node_hash(nodes, values, n, height, k);
    }
    assert(nodes =~= zero_tree(values, n, height));
}

proof fn lemma_zero_node_hash(
    nodes: Seq<Seq<u8>>,
    values: Seq<Seq<u8>>,
    n: nat,
    height: nat,
    k: int,
)
    requires
        is_zero_padded_tree(nodes, values, n, height),
        pow2(height) == 2 * zero_leaf_count(height),
        0 <= k < nodes.len(),
    ensures
        nodes[k] == zero_node_hash(values, n, height, k),
    decreases k,
{
    assert(zero_node_ok(nodes, values, n, height, k));
    if k >= zero_leaf_count(height) {
        lemma_zero_node_hash(nodes, values, n, height, zero_left_child(height, k));
        lemma_zero_node_hash(nodes, values, n, height, zero_right_child(height, k));
    }
}

/// `zero_tree` describes a zero padded tree.
pub proof fn lemma_zero_tree_is_zero_padded(values: Seq<Seq<u8>>, n: nat, height: nat)
    requires
        1 <= height,
    ensures
        is_zero_padded_tree(zero_tree(values, n, height), values, n, height),
{
    lemma_pow2_unfold(height);
    lemma_pow2_pos((height - 1) as nat);
    let nodes = zero_tree(values, n, height);
    assert forall|k: int| 0 <= k < nodes.len() implies #[trigger] zero_node_ok(
        nodes,
        values,
        n,
        height,
        k,
    ) by {
        assert(nodes[k] == zero_node_hash(values, n, height, k));
    }
}

/// The two children of an internal node of a zero padded tree are a pair
/// `{2k, 2k + 1}` of earlier nodes, and each has that node as its parent.
pub proof fn lemma_zero_children_have_parent(height: nat, p: int)
    requires
        1 <= height,
        zero_leaf_count(height) <= p <= zero_root_index(height),
    ensures
        0 <= zero_left_child(height, p),
        zero_left_child(height, p) % 2 == 0,
        zero_right_child(height, p) == zero_left_child(height, p) + 1,
        zero_right_child(height, p) < p,
        zero_parent(height, zero_left_child(height, p)) == p,
        zero_parent(height, zero_right_child(height, p)) == p,
{
    lemma_pow2_unfold(height);
}

} // verus!
