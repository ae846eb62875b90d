//! Merkle trees as vector commitments over attribute vectors.
//!
//! The nodes of a tree are stored level by level, starting with the leaves.
//! With zero padding the leaves are filled up to a power of two with the
//! hash of a zero byte; with copy padding each level of odd size pairs its
//! last node with itself.

use vstd::prelude::*;
use vstd::arithmetic::power2::*;

use sha3::Digest as _;

use crate::crypto::abstract_primitives::vector_commitment::VectorCommitment;
use crate::crypto::merkle::errors::TreeIndexError;
use crate::hash::all_32_bytes;
use crate::crypto::merkle::spec::{
    copy_level, copy_levels_below, lemma_copy_level_next, lemma_copy_levels_below_next,
    lemma_copy_tree_levels, lemma_copy_levels_below_grow,
    byte_views, ceil_log2, copy_climb_overflows, copy_copath_walk, copy_fold, copy_parent,
    copy_parent_ok, copy_root_index, copy_sibling, copy_tree, copy_verifies, hash_children,
    hash_step, is_zero_padded_tree, leaf_hashes, lemma_ceil_log2_bounds, lemma_ceil_log2_le,
    pair_up, sha3_256, sibling, tree_height, zero_copath_walk, zero_fold, zero_leaf,
    zero_leaf_count, zero_left_child, zero_node_ok, zero_parent, zero_right_child,
    zero_root_index, zero_verifies, zero_tree, lemma_zero_tree_unique,
    lemma_zero_padded_copath_verifies, lemma_copy_padded_copath_verifies, lemma_zero_fold_binds,
    lemma_zero_tree_is_zero_padded, sha3_has_collision,
};

verus! {

/// Calls `sha3::Sha3_256::digest`, which computes the SHA3-256 hash of
/// `data`; the contract claims that the vector returned holds that hash,
/// which is 32 bytes long.
#[verifier::external_body]
fn sha3_256_digest(data: &[u8]) -> (out: Vec<u8>)
    ensures
        out@ == sha3_256(data@),
        out@.len() == 32,
{
    sha3::Sha3_256::digest(data).to_vec()
}

/// The hash of the node whose children hash to `left` and `right`.
fn hash_of_children(left: &[u8], right: &[u8]) -> (out: Vec<u8>)
    ensures
        out@ == hash_children(left@, right@),
        out@.len() == 32,
{
    let mut message: Vec<u8> = Vec::new();
    let mut i: usize = 0;
    while i < left.len()
        invariant
            i <= left@.len(),
            message@ == left@.take(i as int),
        decreases left@.len() - i,
    {
        message.push(left[i]);
        i = i + 1;
        proof {
            assert(left@.take(i as int) == left@.take(i - 1 as int).push(left@[i - 1]));
        }
    }
    let mut j: usize = 0;
    while j < right.len()
        invariant
            j <= right@.len(),
            message@ == left@ + right@.take(j as int),
        decreases right@.len() - j,
    {
        message.push(right[j]);
        j = j + 1;
        proof {
            assert(right@.take(j as int) == right@.take(j - 1 as int).push(right@[j - 1]));
        }
    }
    proof {
        assert(left@.take(left@.len() as int) == left@);
        assert(right@.take(right@.len() as int) == right@);
    }
    sha3_256_digest(message.as_slice())
}

/// Whether two byte strings are equal.
fn bytes_equal(a: &[u8], b: &[u8]) -> (eq: bool)
    ensures
        eq == (a@ == b@),
{
    if a.len() != b.len() {
        return false;
    }
    let mut i: usize = 0;
    while i < a.len()
        invariant
            a@.len() == b@.len(),
            i <= a@.len(),
            forall|j: int| 0 <= j < i ==> a@[j] == b@[j],
        decreases a@.len() - i,
    {
        if a[i] != b[i] {
            return false;
        }
        i = i + 1;
    }
    proof {
        assert(a@ =~= b@);
    }
    true
}

/// The padding rule that fills a level up to an even number of nodes.
pub enum PaddingScheme {
    Zero,
    Copy,
    Random(u8),
}

/// What a tree keeps: its leaves only, or every node hash.
pub enum TreeStorageType {
    StoredLeaves(Vec<Vec<u8>>),
    StoredLeavesAndCalculatedHashes(Vec<Vec<u8>>),
}

/// A Merkle tree over a vector of attributes.
pub struct MerkleAVC {
    pub root: Vec<u8>,
    pub height: u16,
    pub num_attributes: u16,
    pub padding_scheme: PaddingScheme,
    pub stored_values: TreeStorageType,
}

impl MerkleAVC {
    /// The byte strings that the tree stores.
    pub open spec fn nodes(&self) -> Seq<Seq<u8>> {
        match self.stored_values {
            TreeStorageType::StoredLeaves(v) => byte_views(v@),
            TreeStorageType::StoredLeavesAndCalculatedHashes(v) => byte_views(v@),
        }
    }

    /// The tree is the zero padded tree over the first
    /// `values.len() as u16` of `values`, with every node hash stored.
    pub open spec fn is_zero_padded_tree_over(&self, values: Seq<Seq<u8>>) -> bool {
        &&& self.num_attributes == #[verifier::truncate] (values.len() as u16)
        &&& self.height == tree_height(self.num_attributes as nat)
        &&& self.padding_scheme is Zero
        &&& self.stores_all_nodes()
        &&& self.nodes() == zero_tree(values, self.num_attributes as nat, self.height as nat)
        &&& self.root@ == self.nodes()[zero_root_index(self.height as nat)]
    }

    /// The tree is the copy padded tree over the first
    /// `values.len() as u16` of `values`, with every node hash stored.
    pub open spec fn is_copy_padded_tree_over(&self, values: Seq<Seq<u8>>) -> bool {
        &&& self.num_attributes == #[verifier::truncate] (values.len() as u16)
        &&& self.height == tree_height(self.num_attributes as nat)
        &&& self.padding_scheme is Copy
        &&& self.stores_all_nodes()
        &&& self.nodes() == copy_tree(leaf_hashes(values, self.num_attributes as nat))
        &&& self.root@ == self.nodes()[copy_root_index(self.num_attributes as nat) as int]
    }

    /// The tree stores the hash of every node.
    pub open spec fn stores_all_nodes(&self) -> bool {
        self.stored_values is StoredLeavesAndCalculatedHashes
    }

    /// 2^exp.
    fn pow2_u16(exp: u16) -> (p: u16)
        requires
            exp <= 15,
        ensures
            p == pow2(exp as nat),
    {
        let mut p: u16 = 1;
        let mut i: u16 = 0;
        proof {
            lemma2_to64();
        }
        while i < exp
            invariant
                i <= exp <= 15,
                p == pow2(i as nat),
            decreases exp - i,
        {
            proof {
                lemma_pow2_unfold((i + 1) as nat);
                if i + 1 < 15 {
                    lemma_pow2_strictly_increases((i + 1) as nat, 15);
                }
                lemma2_to64();
            }
            p = p * 2;
            i = i + 1;
        }
        p
    }

    fn root_index(height: u16) -> (r: u16)
        requires
            1 <= height <= 15,
        ensures
            r == zero_root_index(height as nat),
    {
        proof {
            lemma_pow2_unfold(height as nat);
            lemma_pow2_pos((height - 1) as nat);
        }
        Self::pow2_u16(height) - 2
    }

    fn last_leaf_index(height: u16) -> (r: u16)
        requires
            1 <= height <= 16,
        ensures
            r == zero_leaf_count(height as nat) - 1,
    {
        proof {
            lemma_pow2_pos((height - 1) as nat);
        }
        Self::pow2_u16(height - 1) - 1
    }

    /// ceil(log2(n)), where n = 0 counts as 1.
    fn ceil_log2_u16(n: u16) -> (k: u16)
        ensures
            k == ceil_log2(n as nat),
            k <= 16,
    {
        let mut size: u16 = n;
        let mut k: u16 = 0;
        proof {
            lemma2_to64();
            lemma_ceil_log2_le(n as nat, 16);
        }
        while size > 1
            invariant
                ceil_log2(n as nat) == k + ceil_log2(size as nat),
                ceil_log2(n as nat) <= 16,
            decreases size,
        {
            size = size / 2 + size % 2;
            k = k + 1;
        }
        k
    }

    /// Index of the root of the copy padded tree over `num_attributes`
    /// leaves: the number of nodes below the root level.
    pub fn root_index_copy_padding(num_attributes: u16) -> (r: u16)
        requires
            copy_root_index(num_attributes as nat) <= u16::MAX,
        ensures
            r == copy_root_index(num_attributes as nat),
    {
        let mut summand: u16 = num_attributes;
        let mut total: u16 = 0;
        while summand > 1
            invariant
                total + copy_root_index(summand as nat) == copy_root_index(num_attributes as nat),
                copy_root_index(num_attributes as nat) <= u16::MAX,
            decreases summand,
        {
            total = total + summand;
            summand = summand / 2 + summand % 2;
        }
        total
    }

    /// Number of levels of the copy padded tree over `num_attributes`
    /// leaves.
    pub fn height_copy_padding(num_attributes: u16) -> (h: u16)
        ensures
            h == tree_height(num_attributes as nat),
    {
        Self::ceil_log2_u16(num_attributes) + 1
    }

    /// Parent of node `index` in the zero padded tree of height `height`.
    pub fn get_parent_index_zero_padding(height: u16, index: u16) -> (r: Result<u16, TreeIndexError>)
        requires
            1 <= height <= 15,
        ensures
            index == zero_root_index(height as nat) ==> r == Err::<u16, TreeIndexError>(
                TreeIndexError::RootHasNoParent,
            ),
            index > zero_root_index(height as nat) ==> r == Err::<u16, TreeIndexError>(
                TreeIndexError::IndexOutOfBounds,
            ),
            index < zero_root_index(height as nat) ==> (r matches Ok(p) && p == zero_parent(
                height as nat,
                index as int,
            )),
    {
        let root_index = Self::root_index(height);
        if index == root_index {
            Err(TreeIndexError::RootHasNoParent)
        } else if index > root_index {
            Err(TreeIndexError::IndexOutOfBounds)
        } else {
            let parent = root_index - ((root_index - index) - 1) / 2;
            Ok(parent)
        }
    }

    /// Parent of node `index` of the level of a copy padded tree that starts
    /// at `first_index_of_current_level` and holds `size_of_current_level`
    /// nodes.
    pub fn get_parent_index_copy_padding(
        index: u16,
        size_of_current_level: u16,
        first_index_of_current_level: u16,
    ) -> (r: Result<u16, TreeIndexError>)
        requires
            copy_parent_ok(
                index as int,
                first_index_of_current_level as int,
                size_of_current_level as int,
            ) ==> copy_parent(
                index as int,
                first_index_of_current_level as int,
                size_of_current_level as int,
            ) <= u16::MAX,
        ensures
            size_of_current_level <= 1 ==> r == Err::<u16, TreeIndexError>(
                TreeIndexError::RootHasNoParent,
            ),
            size_of_current_level > 1 && !copy_parent_ok(
                index as int,
                first_index_of_current_level as int,
                size_of_current_level as int,
            ) ==> r == Err::<u16, TreeIndexError>(TreeIndexError::IndexOutOfBounds),
            copy_parent_ok(
                index as int,
                first_index_of_current_level as int,
                size_of_current_level as int,
            ) ==> (r matches Ok(p) && p == copy_parent(
                index as int,
                first_index_of_current_level as int,
                size_of_current_level as int,
            )),
    {
        if size_of_current_level <= 1 {
            Err(TreeIndexError::RootHasNoParent)
        } else if index < first_index_of_current_level || index - first_index_of_current_level
            > size_of_current_level {
            Err(TreeIndexError::IndexOutOfBounds)
        } else {
            let parent = (index - first_index_of_current_level) / 2 + first_index_of_current_level
                + size_of_current_level;
            Ok(parent)
        }
    }

    /// Left child of node `index` in the zero padded tree of height `height`.
    pub fn get_left_child_index_zero_padding(height: u16, index: u16) -> (r: Result<
        u16,
        TreeIndexError,
    >)
        requires
            1 <= height <= 15,
        ensures
            index > zero_root_index(height as nat) ==> r == Err::<u16, TreeIndexError>(
                TreeIndexError::IndexOutOfBounds,
            ),
            index <= zero_root_index(height as nat) && index < zero_leaf_count(height as nat) ==> r
                == Err::<u16, TreeIndexError>(TreeIndexError::LeafHasNoChildren),
            zero_leaf_count(height as nat) <= index <= zero_root_index(height as nat) ==> (r matches Ok(
                c,
            ) && c == zero_left_child(height as nat, index as int)),
    {
        let last_leaf_index = Self::last_leaf_index(height);
        let root_index = Self::root_index(height);
        proof {
            lemma_pow2_unfold(height as nat);
        }
        if index > root_index {
            Err(TreeIndexError::IndexOutOfBounds)
        } else if index <= last_leaf_index {
            Err(TreeIndexError::LeafHasNoChildren)
        } else {
            let left_child = root_index - ((root_index - index) * 2 + 2);
            Ok(left_child)
        }
    }

    /// Right child of node `index` in the zero padded tree of height
    /// `height`.
    pub fn get_right_child_index_zero_padding(height: u16, index: u16) -> (r: Result<
        u16,
        TreeIndexError,
    >)
        requires
            1 <= height <= 15,
        ensures
            index > zero_root_index(height as nat) ==> r == Err::<u16, TreeIndexError>(
                TreeIndexError::IndexOutOfBounds,
            ),
            index <= zero_root_index(height as nat) && index < zero_leaf_count(height as nat) ==> r
                == Err::<u16, TreeIndexError>(TreeIndexError::LeafHasNoChildren),
            zero_leaf_count(height as nat) <= index <= zero_root_index(height as nat) ==> (r matches Ok(
                c,
            ) && c == zero_right_child(height as nat, index as int)),
    {
        let last_leaf_index = Self::last_leaf_index(height);
        let root_index = Self::root_index(height);
        proof {
            lemma_pow2_unfold(height as nat);
        }
        if index > root_index {
            Err(TreeIndexError::IndexOutOfBounds)
        } else if index <= last_leaf_index {
            Err(TreeIndexError::LeafHasNoChildren)
        } else {
            let right_child = root_index - ((root_index - index) * 2 + 1);
            Ok(right_child)
        }
    }
    /// The tree over `data` with the given padding rule, every node hash
    /// stored. Only full storage with zero or copy padding is built.
    pub fn build_from_data(
        data: &[Vec<u8>],
        padding_scheme: PaddingScheme,
        tree_storage_type: TreeStorageType,
    ) -> (tree: Self)
        requires
            tree_storage_type is StoredLeavesAndCalculatedHashes,
            padding_scheme is Zero ==> #[verifier::truncate] (data@.len() as u16) <= 16384,
            padding_scheme is Copy ==> {
                &&& #[verifier::truncate] (data@.len() as u16) >= 1
                &&& copy_root_index(#[verifier::truncate] (data@.len() as u16) as nat) < u16::MAX
            },
            !(padding_scheme is Random),
        ensures
            padding_scheme is Zero ==> tree.is_zero_padded_tree_over(byte_views(data@)),
            padding_scheme is Copy ==> tree.is_copy_padded_tree_over(byte_views(data@)),
            all_32_bytes(tree.nodes()),
            tree.root@.len() == 32,
    {
        match (padding_scheme, tree_storage_type) {
            (
                PaddingScheme::Zero,
                TreeStorageType::StoredLeavesAndCalculatedHashes(_nodes),
            ) => Self::build_zero_padded_full_tree_from_data(data),
            (
                PaddingScheme::Copy,
                TreeStorageType::StoredLeavesAndCalculatedHashes(_nodes),
            ) => Self::build_copy_padded_full_tree_from_data(data),
            _ => {
                proof {
                    assert(false);
                }
                Self::build_zero_padded_full_tree_from_data(data)
            },
        }
    }

    /// The zero padded tree over the first `data.len() as u16` values of
    /// `data`, with every node hash stored.
    pub fn build_zero_padded_full_tree_from_data(data: &[Vec<u8>]) -> (tree: Self)
        requires
            #[verifier::truncate] (data@.len() as u16) <= 16384,
        ensures
            tree.is_zero_padded_tree_over(byte_views(data@)),
            all_32_bytes(tree.nodes()),
            tree.root@.len() == 32,
    {
        let num_attributes: u16 = #[verifier::truncate] (data.len() as u16);
        let ghost values = byte_views(data@);
        let ghost n = num_attributes as nat;
        proof {
            let len = data.len();
            assert(len as u16 <= len) by (bit_vector);
            lemma2_to64();
            lemma_ceil_log2_le(n, 14);
            lemma_ceil_log2_bounds(n);
        }
        let height: u16 = Self::ceil_log2_u16(num_attributes) + 1;
        let root_index = Self::root_index(height);
        let last_leaf_index = Self::last_leaf_index(height);
        proof {
            lemma_pow2_unfold(height as nat);
        }
        let mut all_nodes: Vec<Vec<u8>> = Vec::with_capacity((root_index + 1) as usize);
        let mut curr_ind: u16 = 0;
        while curr_ind <= root_index
            invariant
                1 <= height <= 15,
                root_index == zero_root_index(height as nat),
                last_leaf_index == zero_leaf_count(height as nat) - 1,
                pow2(height as nat) == 2 * zero_leaf_count(height as nat),
                n <= zero_leaf_count(height as nat),
                n == num_attributes,
                n <= data@.len(),
                values == byte_views(data@),
                curr_ind <= root_index + 1,
                all_nodes@.len() == curr_ind,
                all_32_bytes(byte_views(all_nodes@)),
                forall|k: int|
                    0 <= k < curr_ind ==> #[trigger] zero_node_ok(
                        byte_views(all_nodes@),
                        values,
                        n,
                        height as nat,
                        k,
                    ),
            decreases root_index + 1 - curr_ind,
        {
            let ghost before = byte_views(all_nodes@);
            if curr_ind < num_attributes {
                let leaf = sha3_256_digest(data[curr_ind as usize].as_slice());
                all_nodes.push(leaf);
                proof {
                    assert(values[curr_ind as int] == data@[curr_ind as int]@);
                    assert(zero_node_ok(byte_views(all_nodes@), values, n, height as nat, curr_ind as int));
                }
            } else if curr_ind <= last_leaf_index {
                let zero: [u8; 1] = [0u8];
                proof {
                    assert(zero@ =~= seq![0u8]);
                }
                let leaf = sha3_256_digest(zero.as_slice());
                all_nodes.push(leaf);
                proof {
                    assert(zero_node_ok(byte_views(all_nodes@), values, n, height as nat, curr_ind as int));
                }
            } else {
                let left_child_index: u16 = Self::get_left_child_index_zero_padding(
                    height,
                    curr_ind,
                ).unwrap();
                let right_child_index: u16 = Self::get_right_child_index_zero_padding(
                    height,
                    curr_ind,
                ).unwrap();
                let node = hash_of_children(
                    all_nodes[left_child_index as usize].as_slice(),
                    all_nodes[right_child_index as usize].as_slice(),
                );
                all_nodes.push(node);
                proof {
                    assert(byte_views(all_nodes@)[left_child_index as int] == before[left_child_index as int]);
                    assert(byte_views(all_nodes@)[right_child_index as int] == before[right_child_index as int]);
                    assert(zero_node_ok(byte_views(all_nodes@), values, n, height as nat, curr_ind as int));
                }
            }
            proof {
                let after = byte_views(all_nodes@);
                assert(after =~= before.push(after[curr_ind as int]));
                assert(all_32_bytes(after)) by {
                    assert forall|i: int| 0 <= i < after.len() implies (#[trigger] after[i]).len()
                        == 32 by {
                        if i < curr_ind {
                            assert(after[i] == before[i]);
                        }
                    }
                }
                assert forall|k: int| 0 <= k < curr_ind + 1 implies #[trigger] zero_node_ok(
                    after,
                    values,
                    n,
                    height as nat,
                    k,
                ) by {
                    if k < curr_ind {
                        assert(zero_node_ok(before, values, n, height as nat, k));
                    }
                }
            }
            curr_ind = curr_ind + 1;
        }
        let root: Vec<u8> = all_nodes[root_index as usize].clone();
        proof {
            assert(root@ =~= all_nodes@[root_index as int]@);
            assert(byte_views(all_nodes@)[root_index as int] == root@);
            lemma_zero_tree_unique(byte_views(all_nodes@), values, n, height as nat);
        }
        MerkleAVC {
            root,
            height,
            num_attributes,
            padding_scheme: PaddingScheme::Zero,
            stored_values: TreeStorageType::StoredLeavesAndCalculatedHashes(all_nodes),
        }
    }

    /// The copy padded tree over the first `data.len() as u16` values of
    /// `data`, with every node hash stored.
    pub fn build_copy_padded_full_tree_from_data(data: &[Vec<u8>]) -> (tree: Self)
        requires
            #[verifier::truncate] (data@.len() as u16) >= 1,
            copy_root_index(#[verifier::truncate] (data@.len() as u16) as nat) < u16::MAX,
        ensures
            tree.is_copy_padded_tree_over(byte_views(data@)),
            all_32_bytes(tree.nodes()),
            tree.root@.len() == 32,
    {
        let num_attributes: u16 = #[verifier::truncate] (data.len() as u16);
        let ghost values = byte_views(data@);
        let ghost n = num_attributes as nat;
        let ghost leaves = leaf_hashes(values, n);
        proof {
            let len = data.len();
            assert(len as u16 <= len) by (bit_vector);
            lemma_copy_tree_levels(leaves);
            lemma_copy_levels_below_next(leaves, 0);
            lemma_copy_levels_below_grow(leaves, 1, ceil_log2(n) + 1);
        }
        let root_index = Self::root_index_copy_padding(num_attributes);
        let height: u16 = Self::ceil_log2_u16(num_attributes) + 1;
        let ghost total = copy_tree(leaves).len();
        let mut all_nodes: Vec<Vec<u8>> = Vec::with_capacity((root_index + 1) as usize);
        let mut leaf_index: u16 = 0;
        while leaf_index < num_attributes
            invariant
                n == num_attributes,
                n <= data@.len(),
                values == byte_views(data@),
                leaves == leaf_hashes(values, n),
                leaf_index <= num_attributes,
                byte_views(all_nodes@) == leaves.take(leaf_index as int),
                all_32_bytes(byte_views(all_nodes@)),
            decreases num_attributes - leaf_index,
        {
            let leaf = sha3_256_digest(data[leaf_index as usize].as_slice());
            let ghost before = byte_views(all_nodes@);
            all_nodes.push(leaf);
            proof {
                assert(values[leaf_index as int] == data@[leaf_index as int]@);
                assert(leaves[leaf_index as int] == leaf@);
                assert(byte_views(all_nodes@) =~= before.push(leaf@));
                assert(byte_views(all_nodes@) =~= leaves.take(leaf_index + 1 as int));
                assert(all_32_bytes(byte_views(all_nodes@))) by {
                    let after = byte_views(all_nodes@);
                    assert forall|i: int| 0 <= i < after.len() implies (#[trigger] after[i]).len()
                        == 32 by {
                        if i < leaf_index {
                            assert(after[i] == before[i]);
                        }
                    }
                }
            }
            leaf_index = leaf_index + 1;
        }
        proof {
            assert(leaves.take(n as int) =~= leaves);
            assert(copy_levels_below(leaves, 1) =~= leaves) by {
                assert(copy_levels_below(pair_up(leaves), 0) == Seq::<Seq<u8>>::empty());
            }
            lemma_copy_level_next(leaves, 0);
        }
        let mut last_filled_index_of_previous_level: u16 = num_attributes - 1;
        let mut size_of_current_level: u16 = (num_attributes + 1) / 2;
        let mut next_left_child_index: u16 = 0;
        let mut current_index = num_attributes;
        let mut level: u16 = 1;
        while level < height
            invariant
                1 <= level <= height,
                height == ceil_log2(n) + 1,
                n == num_attributes,
                n >= 1,
                total == copy_tree(leaves).len(),
                total == copy_root_index(n) + 1,
                total <= u16::MAX,
                copy_tree(leaves) == copy_levels_below(leaves, height as nat),
                copy_level(leaves, ceil_log2(n)).len() == 1,
                byte_views(all_nodes@) == copy_levels_below(leaves, level as nat),
                all_32_bytes(byte_views(all_nodes@)),
                current_index == all_nodes@.len(),
                next_left_child_index == copy_levels_below(leaves, (level - 1) as nat).len(),
                last_filled_index_of_previous_level + 1 == current_index,
                level < height ==> size_of_current_level == copy_level(leaves, level as nat).len(),
                copy_level(leaves, level as nat) == pair_up(copy_level(leaves, (level - 1) as nat)),
            decreases height - level,
        {
            let ghost below = copy_level(leaves, (level - 1) as nat);
            let ghost this_level = copy_level(leaves, level as nat);
            let ghost built = copy_levels_below(leaves, level as nat);
            proof {
                lemma_copy_levels_below_next(leaves, (level - 1) as nat);
                lemma_copy_levels_below_next(leaves, level as nat);
                lemma_copy_levels_below_grow(leaves, (level + 1) as nat, height as nat);
            }
            let mut k: u16 = 0;
            while k < size_of_current_level
                invariant
                    total <= u16::MAX,
                    built.len() + this_level.len() <= total,
                    built == copy_levels_below(leaves, (level - 1) as nat) + below,
                    this_level == pair_up(below),
                    size_of_current_level == this_level.len(),
                    k <= size_of_current_level,
                    byte_views(all_nodes@) == built + this_level.take(k as int),
                    all_32_bytes(byte_views(all_nodes@)),
                    current_index == all_nodes@.len(),
                    next_left_child_index == copy_levels_below(leaves, (level - 1) as nat).len() + 2 * k,
                    last_filled_index_of_previous_level + 1 == built.len(),
                decreases size_of_current_level - k,
            {
                let left_child_index: u16 = next_left_child_index;
                let right_child_index: u16 = if left_child_index + 1 <= last_filled_index_of_previous_level {
                    left_child_index + 1
                } else {
                    left_child_index
                };
                let ghost start = copy_levels_below(leaves, (level - 1) as nat).len() as int;
                proof {
                    assert(this_level.len() == (below.len() + 1) / 2);
                    assert(built.len() == start + below.len());
                    assert(byte_views(all_nodes@).len() == all_nodes@.len());
                    assert(byte_views(all_nodes@)[left_child_index as int] == below[2 * k]);
                    assert(byte_views(all_nodes@)[right_child_index as int] == below[right_child_index - start]);
                }
                let node = hash_of_children(
                    all_nodes[left_child_index as usize].as_slice(),
                    all_nodes[right_child_index as usize].as_slice(),
                );
                let ghost before = byte_views(all_nodes@);
                all_nodes.push(node);
                proof {
                    assert(node@ == this_level[k as int]);
                    assert(byte_views(all_nodes@) =~= before.push(node@));
                    assert(this_level.take(k + 1 as int) =~= this_level.take(k as int).push(this_level[k as int]));
                    assert(byte_views(all_nodes@) =~= built + this_level.take(k + 1 as int));
                    assert(all_32_bytes(byte_views(all_nodes@))) by {
                        let after = byte_views(all_nodes@);
                        assert forall|i: int| 0 <= i < after.len() implies (
                        #[trigger] after[i]).len() == 32 by {
                            if i < before.len() {
                                assert(after[i] == before[i]);
                            }
                        }
                    }
                }
                current_index = current_index + 1;
                next_left_child_index = next_left_child_index + 2;
                k = k + 1;
            }
            proof {
                assert(this_level.take(k as int) =~= this_level);
                lemma_copy_level_next(leaves, level as nat);
                if level + 1 < height {
                    lemma_copy_levels_below_next(leaves, (level + 1) as nat);
                }
            }
            last_filled_index_of_previous_level = current_index - 1;
            next_left_child_index = last_filled_index_of_previous_level - size_of_current_level + 1;
            size_of_current_level = (size_of_current_level + 1) / 2;
            level = level + 1;
        }
        let root: Vec<u8> = all_nodes[root_index as usize].clone();
        proof {
            assert(root@ =~= all_nodes@[root_index as int]@);
            assert(byte_views(all_nodes@)[root_index as int] == root@);
        }
        MerkleAVC {
            root,
            height,
            num_attributes,
            padding_scheme: PaddingScheme::Copy,
            stored_values: TreeStorageType::StoredLeavesAndCalculatedHashes(all_nodes),
        }
    }

    /// The co-path of leaf `index` of a zero padded tree: the hash of the
    /// sibling of the leaf and of each of its ancestors below the root.
    pub fn generate_copath_for_zero_padded_full_tree(&self, index: u16) -> (r: Result<
        Vec<Vec<u8>>,
        TreeIndexError,
    >)
        requires
            index < self.num_attributes ==> {
                &&& 1 <= self.height <= 15
                &&& index < zero_root_index(self.height as nat) ==> {
                    &&& self.stores_all_nodes()
                    &&& zero_copath_walk(self.nodes(), self.height as nat, index as int) is Some
                }
            },
        ensures
            index >= self.num_attributes ==> r == Err::<Vec<Vec<u8>>, TreeIndexError>(
                TreeIndexError::IndexOutOfBounds,
            ),
            index < self.num_attributes ==> r is Ok && Some(byte_views(r->Ok_0@))
                == zero_copath_walk(self.nodes(), self.height as nat, index as int),
            index < self.num_attributes && all_32_bytes(self.nodes()) ==> all_32_bytes(
                byte_views(r->Ok_0@),
            ),
    {
        if index >= self.num_attributes {
            return Err(TreeIndexError::IndexOutOfBounds);
        }
        let mut copath: Vec<Vec<u8>> = Vec::with_capacity((self.height - 1) as usize);
        let mut current_index = index;
        let ghost nodes = self.nodes();
        let ghost height = self.height as nat;
        while current_index < Self::root_index(self.height)
            invariant
                1 <= self.height <= 15,
                nodes == self.nodes(),
                height == self.height,
                index <= current_index,
                index < zero_root_index(height) ==> self.stores_all_nodes(),
                all_32_bytes(nodes) ==> all_32_bytes(byte_views(copath@)),
                zero_copath_walk(nodes, height, current_index as int) is Some,
                zero_copath_walk(nodes, height, index as int) == Some(
                    byte_views(copath@) + zero_copath_walk(
                        nodes,
                        height,
                        current_index as int,
                    )->Some_0,
                ),
            decreases zero_root_index(height) - current_index,
        {
            let parent_index = Self::get_parent_index_zero_padding(
                self.height,
                current_index,
            ).unwrap();
            let sibling_index = current_index ^ 1;
            proof {
                assert(current_index ^ 1 == if current_index % 2 == 0 {
                    current_index + 1
                } else {
                    current_index - 1
                }) by (bit_vector);
            }
            let ghost before = byte_views(copath@);
            match &self.stored_values {
                TreeStorageType::StoredLeavesAndCalculatedHashes(all_nodes) => {
                    copath.push(all_nodes[sibling_index as usize].clone());
                    proof {
                        assert(byte_views(copath@) =~= before.push(nodes[sibling_index as int]));
                        assert(sibling_index < nodes.len());
                        let rest = zero_copath_walk(nodes, height, parent_index as int)->Some_0;
                        assert(before + (seq![nodes[sibling_index as int]] + rest) =~= before.push(
                            nodes[sibling_index as int],
                        ) + rest);
                    }
                },
                TreeStorageType::StoredLeaves(_) => {
                    proof {
                        assert(false);
                    }
                },
            }
            current_index = parent_index;
        }
        proof {
            assert(byte_views(copath@) + seq![] =~= byte_views(copath@));
        }
        Ok(copath)
    }

    /// The co-path of leaf `index` of a copy padded tree: on each level below
    /// the root, the hash of the node that the current node is paired with.
    pub fn generate_copath_for_copy_padded_full_tree(&self, index: u16) -> (r: Result<
        Vec<Vec<u8>>,
        TreeIndexError,
    >)
        requires
            index < self.num_attributes ==> {
                &&& 1 <= self.height
                &&& 1 < self.height ==> self.stores_all_nodes()
                &&& copy_copath_walk(
                    self.nodes(),
                    (self.height - 1) as nat,
                    index as int,
                    0,
                    self.num_attributes as int,
                ) is Some
            },
        ensures
            index >= self.num_attributes ==> r == Err::<Vec<Vec<u8>>, TreeIndexError>(
                TreeIndexError::IndexOutOfBounds,
            ),
            index < self.num_attributes ==> r is Ok && Some(byte_views(r->Ok_0@))
                == copy_copath_walk(
                self.nodes(),
                (self.height - 1) as nat,
                index as int,
                0,
                self.num_attributes as int,
            ),
            index < self.num_attributes && all_32_bytes(self.nodes()) ==> all_32_bytes(
                byte_views(r->Ok_0@),
            ),
    {
        if index >= self.num_attributes {
            return Err(TreeIndexError::IndexOutOfBounds);
        }
        let mut copath: Vec<Vec<u8>> = Vec::with_capacity((self.height - 1) as usize);
        let mut first_index_of_current_level: u16 = 0;
        let mut size_of_current_level: u16 = self.num_attributes;
        let mut current_index = index;
        let ghost nodes = self.nodes();
        let ghost steps = (self.height - 1) as nat;
        let mut level: u16 = 1;
        while level < self.height
            invariant
                1 <= level <= self.height,
                nodes == self.nodes(),
                steps == self.height - 1,
                1 < self.height ==> self.stores_all_nodes(),
                all_32_bytes(nodes) ==> all_32_bytes(byte_views(copath@)),
                copy_copath_walk(
                    nodes,
                    (self.height - level) as nat,
                    current_index as int,
                    first_index_of_current_level as int,
                    size_of_current_level as int,
                ) is Some,
                copy_copath_walk(nodes, steps, index as int, 0, self.num_attributes as int) == Some(
                    byte_views(copath@) + copy_copath_walk(
                        nodes,
                        (self.height - level) as nat,
                        current_index as int,
                        first_index_of_current_level as int,
                        size_of_current_level as int,
                    )->Some_0,
                ),
            decreases self.height - level,
        {
            let ghost cur = current_index as int;
            let ghost first = first_index_of_current_level as int;
            let ghost size = size_of_current_level as int;
            let ghost left = (self.height - level) as nat;
            proof {
                assert(left > 0);
                assert(copy_copath_walk(nodes, left, cur, first, size) is Some);
            }
            let sibling_index = if current_index == first_index_of_current_level
                + size_of_current_level - 1 && size_of_current_level % 2 == 1 {
                current_index
            } else {
                let offset = current_index - first_index_of_current_level;
                proof {
                    assert(offset ^ 1 == if offset % 2 == 0 {
                        offset + 1
                    } else {
                        offset - 1
                    }) by (bit_vector);
                }
                (offset ^ 1) + first_index_of_current_level
            };
            proof {
                assert(sibling_index == copy_sibling(cur, first, size));
            }
            let ghost before = byte_views(copath@);
            match &self.stored_values {
                TreeStorageType::StoredLeavesAndCalculatedHashes(all_nodes) => {
                    copath.push(all_nodes[sibling_index as usize].clone());
                    proof {
                        assert(byte_views(copath@) =~= before.push(nodes[sibling_index as int]));
                        assert(sibling_index < nodes.len());
                    }
                },
                TreeStorageType::StoredLeaves(_) => {
                    proof {
                        assert(false);
                    }
                },
            }
            current_index = Self::get_parent_index_copy_padding(
                current_index,
                size_of_current_level,
                first_index_of_current_level,
            ).unwrap();
            first_index_of_current_level = first_index_of_current_level + size_of_current_level;
            size_of_current_level = (size_of_current_level + 1) / 2;
            proof {
                let rest = copy_copath_walk(
                    nodes,
                    (left - 1) as nat,
                    current_index as int,
                    first_index_of_current_level as int,
                    size_of_current_level as int,
                )->Some_0;
                assert(before + (seq![nodes[sibling_index as int]] + rest) =~= before.push(
                    nodes[sibling_index as int],
                ) + rest);
            }
            level = level + 1;
        }
        proof {
            assert(byte_views(copath@) + seq![] =~= byte_views(copath@));
        }
        Ok(copath)
    }

    /// Whether `copath` proves that `value` is leaf `index` of the copy
    /// padded tree over `num_attributes` leaves whose root hash is `root`.
    pub fn verify_copath_for_copy_padded_full_tree(
        copath: &Vec<Vec<u8>>,
        root: &Vec<u8>,
        value: &Vec<u8>,
        index: u16,
        num_attributes: u16,
    ) -> (valid: bool)
        requires
            copath@.len() + 1 == tree_height(num_attributes as nat) ==> !copy_climb_overflows(
                copath@.len(),
                index as int,
                0,
                num_attributes as int,
            ),
        ensures
            valid == copy_verifies(
                byte_views(copath@),
                root@,
                value@,
                index as int,
                num_attributes as nat,
            ),
    {
        let height = Self::height_copy_padding(num_attributes);
        if copath.len() != (height - 1) as usize {
            return false;
        }
        let ghost path = byte_views(copath@);
        let mut computed_hash: Vec<u8> = sha3_256_digest(value.as_slice());
        let mut current_index = index;
        let mut first_index_of_current_level: u16 = 0;
        let mut size_of_current_level: u16 = num_attributes;
        let mut k: usize = 0;
        proof {
            assert(path.skip(0) =~= path);
        }
        while k < copath.len()
            invariant
                path == byte_views(copath@),
                k <= copath@.len(),
                first_index_of_current_level <= current_index,
                !copy_climb_overflows(
                    (copath@.len() - k) as nat,
                    current_index as int,
                    first_index_of_current_level as int,
                    size_of_current_level as int,
                ),
                copy_fold(path, sha3_256(value@), index as int, 0, num_attributes as int)
                    == copy_fold(
                    path.skip(k as int),
                    computed_hash@,
                    current_index as int,
                    first_index_of_current_level as int,
                    size_of_current_level as int,
                ),
            decreases copath@.len() - k,
        {
            let sibling_hash: &Vec<u8> = &copath[k];
            let ghost rest = path.skip(k as int);
            let ghost acc = computed_hash@;
            let ghost cur = current_index as int;
            let ghost first = first_index_of_current_level as int;
            let ghost size = size_of_current_level as int;
            proof {
                assert(rest.drop_first() =~= path.skip(k + 1 as int));
                assert(rest[0] == sibling_hash@);
            }
            if (current_index - first_index_of_current_level) % 2 == 0 {
                computed_hash = hash_of_children(computed_hash.as_slice(), sibling_hash.as_slice());
            } else {
                computed_hash = hash_of_children(sibling_hash.as_slice(), computed_hash.as_slice());
            }
            current_index = match Self::get_parent_index_copy_padding(
                current_index,
                size_of_current_level,
                first_index_of_current_level,
            ) {
                Ok(parent) => parent,
                Err(_) => {
                    return false;
                },
            };
            first_index_of_current_level = first_index_of_current_level + size_of_current_level;
            size_of_current_level = (size_of_current_level + 1) / 2;
            proof {
                assert(computed_hash@ == hash_step(acc, rest[0], (cur - first) % 2 == 0));
            }
            k = k + 1;
        }
        proof {
            assert(path.skip(k as int) =~= Seq::<Seq<u8>>::empty());
        }
        bytes_equal(computed_hash.as_slice(), root.as_slice())
    }

    /// Whether `copath` proves that `value` is leaf `index` of the zero
    /// padded tree of height `height` whose root hash is `root`.
    pub fn verify_copath_for_zero_padded_full_tree(
        copath: &Vec<Vec<u8>>,
        root: &Vec<u8>,
        value: &Vec<u8>,
        index: u16,
        height: u16,
    ) -> (valid: bool)
        requires
            1 <= height,
            copath@.len() + 1 == height ==> height <= 15,
        ensures
            valid == zero_verifies(byte_views(copath@), root@, value@, index as int, height as nat),
    {
        if copath.len() != (height - 1) as usize {
            return false;
        }
        let ghost path = byte_views(copath@);
        let mut computed_hash: Vec<u8> = sha3_256_digest(value.as_slice());
        let mut current_index = index;
        let mut k: usize = 0;
        proof {
            assert(path.skip(0) =~= path);
        }
        while k < copath.len()
            invariant
                1 <= height <= 15,
                copath@.len() + 1 == height,
                path == byte_views(copath@),
                k <= copath@.len(),
                zero_fold(path, sha3_256(value@), height as nat, index as int) == zero_fold(
                    path.skip(k as int),
                    computed_hash@,
                    height as nat,
                    current_index as int,
                ),
            decreases copath@.len() - k,
        {
            let sibling_hash: &Vec<u8> = &copath[k];
            let ghost rest = path.skip(k as int);
            proof {
                assert(rest.drop_first() =~= path.skip(k + 1 as int));
                assert(rest[0] == sibling_hash@);
            }
            let ghost acc = computed_hash@;
            let ghost cur = current_index as int;
            if current_index % 2 == 0 {
                computed_hash = hash_of_children(computed_hash.as_slice(), sibling_hash.as_slice());
            } else {
                computed_hash = hash_of_children(sibling_hash.as_slice(), computed_hash.as_slice());
            }
            current_index = match Self::get_parent_index_zero_padding(height, current_index) {
                Ok(parent) => parent,
                Err(_) => {
                    return false;
                },
            };
            proof {
                assert(cur < zero_root_index(height as nat));
                assert(current_index == zero_parent(height as nat, cur));
                assert(computed_hash@ == hash_step(acc, rest[0], cur % 2 == 0));
                assert(zero_fold(rest, acc, height as nat, cur) == zero_fold(
                    rest.drop_first(),
                    hash_step(acc, rest[0], cur % 2 == 0),
                    height as nat,
                    zero_parent(height as nat, cur),
                ));
            }
            k = k + 1;
        }
        proof {
            assert(path.skip(k as int) =~= Seq::<Seq<u8>>::empty());
        }
        bytes_equal(computed_hash.as_slice(), root.as_slice())
    }
}

/// The commitment to `values`: the root hash of the zero padded tree over
/// its first `values.len() as u16` values.
pub open spec fn zero_commitment(values: Seq<Seq<u8>>) -> Seq<u8> {
    let n = #[verifier::truncate] (values.len() as u16) as nat;
    zero_tree(values, n, tree_height(n))[zero_root_index(tree_height(n))]
}

/// The opening of `values` at `index`: the co-path of leaf `index` of the
/// zero padded tree over its first `values.len() as u16` values.
pub open spec fn zero_opening(values: Seq<Seq<u8>>, index: int) -> Seq<Seq<u8>> {
    let n = #[verifier::truncate] (values.len() as u16) as nat;
    zero_copath_walk(zero_tree(values, n, tree_height(n)), tree_height(n), index)->Some_0
}

impl VectorCommitment for MerkleAVC {
    type Element = Vec<u8>;
    type PublicParams = ();
    type KeyMaterial = ();
    type Commitment = Vec<u8>;
    type Proof = Vec<Vec<u8>>;

    open spec fn commit_accepts(vector: Seq<Vec<u8>>) -> bool {
        #[verifier::truncate] (vector.len() as u16) <= 16384
    }

    open spec fn open_accepts(index: int, vector: Seq<Vec<u8>>) -> bool {
        &&& 0 <= index < vector.len()
        &&& #[verifier::truncate] (vector.len() as u16) <= 16384
        &&& #[verifier::truncate] (index as u16) < #[verifier::truncate] (vector.len() as u16)
    }

    fn keygen(_security_param: usize) -> (Self::PublicParams, Self::KeyMaterial) {
        ((), ())
    }

    fn commit(vector: &[Self::Element], _key: &Self::KeyMaterial) -> (c: Self::Commitment)
        ensures
            c@ == zero_commitment(byte_views(vector@)),
    {
        Self::build_zero_padded_full_tree_from_data(vector).root
    }

    fn open(
        index: usize,
        commitment: &Self::Commitment,
        vector: &[Self::Element],
        _key: &Self::KeyMaterial,
    ) -> (proof: Self::Proof)
        ensures
            byte_views(proof@) == zero_opening(
                byte_views(vector@),
                #[verifier::truncate] (index as u16) as int,
            ),
    {
        let tree = Self::build_zero_padded_full_tree_from_data(vector);
        let leaf: u16 = #[verifier::truncate] (index as u16);
        proof {
            let values = byte_views(vector@);
            let n = tree.num_attributes as nat;
            assert((index as u16) <= index) by (bit_vector);
            let len = vector.len();
            assert((len as u16) <= len) by (bit_vector);
            assert(values.len() == vector@.len());
            lemma2_to64();
            lemma_ceil_log2_le(n, 14);
            lemma_zero_padded_copath_verifies(tree.nodes(), values, n, leaf as int);
            assert(zero_copath_walk(tree.nodes(), tree.height as nat, leaf as int) is Some);
        }
        Self::generate_copath_for_zero_padded_full_tree(&tree, leaf).unwrap()
    }

    fn verify(
        proof: &Self::Proof,
        commitment: &Self::Commitment,
        value: &Self::Element,
        index: usize,
        _params: &Self::PublicParams,
    ) -> (valid: bool)
        ensures
            valid == (index <= u16::MAX && proof@.len() < 15 && zero_verifies(
                byte_views(proof@),
                commitment@,
                value@,
                index as int,
                (proof@.len() + 1) as nat,
            )),
    {
        if index > 65535 || proof.len() >= 15 {
            return false;
        }
        Self::verify_copath_for_zero_padded_full_tree(
            proof,
            commitment,
            value,
            index as u16,
            (proof.len() + 1) as u16,
        )
    }
}

/// Completeness of the Merkle vector commitment: the opening of a vector
/// at any of its indices verifies against the commitment to the vector.
pub proof fn lemma_merkle_commitment_opens(values: Seq<Seq<u8>>, index: int)
    requires
        values.len() <= 16384,
        0 <= index < values.len(),
    ensures
        zero_opening(values, index).len() < 15,
        zero_verifies(
            zero_opening(values, index),
            zero_commitment(values),
            values[index],
            index,
            (zero_opening(values, index).len() + 1) as nat,
        ),
{
    let n = values.len() as u16 as nat;
    assert(n == values.len());
    let h = tree_height(n);
    lemma2_to64();
    lemma_ceil_log2_le(n, 14);
    lemma_zero_padded_copath_verifies(zero_tree(values, n, h), values, n, index);
}


/// Binding of the Merkle vector commitment: an opening of the length of
/// the committed tree, made of 32-byte hashes, that verifies `value` at
/// `index` against the commitment to `values`, whose tree hashes are 32
/// bytes long, opens the value committed there, or else SHA3-256 has a
/// collision.
pub proof fn lemma_merkle_commitment_binds(
    values: Seq<Seq<u8>>,
    index: int,
    value: Seq<u8>,
    proof: Seq<Seq<u8>>,
)
    requires
        values.len() <= 16384,
        0 <= index < values.len(),
        all_32_bytes(zero_tree(values, values.len(), tree_height(values.len()))),
        all_32_bytes(proof),
        proof.len() + 1 == tree_height(values.len()),
        zero_verifies(proof, zero_commitment(values), value, index, (proof.len() + 1) as nat),
    ensures
        value == values[index] || sha3_has_collision(),
{
    let n = values.len() as u16 as nat;
    assert(n == values.len());
    let h = tree_height(n);
    let nodes = zero_tree(values, n, h);
    lemma2_to64();
    lemma_ceil_log2_le(n, 14);
    lemma_ceil_log2_bounds(n);
    if !sha3_has_collision() {
        lemma_zero_tree_is_zero_padded(values, n, h);
        lemma_pow2_unfold(h);
        lemma_zero_fold_binds(nodes, values, n, h, 0, index, proof, sha3_256(value));
        assert(zero_node_ok(nodes, values, n, h, index));
        if value != values[index] {
            assert(sha3_256(value) == sha3_256(values[index]));
            assert(sha3_has_collision());
        }
    }
}

} // verus!
