//! Keccak-256 digests and the binary Merkle tree over them.

use crate::error::Error;
use sha3::{Digest, Keccak256};
use vstd::bytes::{spec_u128_to_le_bytes, u128_to_le_bytes};
use crate::pow2::{halved, lemma_halved_bound, two_pow, is_pow2, log2, lemma_pow2_log2};
use vstd::prelude::*;

verus! {

/// The Keccak-256 digest of `data`.
pub uninterp spec fn keccak256(data: Seq<u8>) -> Seq<u8>;

/// Calls `sha3::Keccak256::digest` on `data`. The contract names the 32
/// bytes that come back the Keccak-256 digest of `data`; nothing else is
/// claimed of them.
#[verifier::external_body]
fn keccak256_digest(data: &[u8]) -> (r: [u8; 32])
    ensures
        r@ == keccak256(data@),
{
    Keccak256::digest(data).into()
}

/// A Keccak-256 digest.
#[derive(Clone, Copy, Debug, PartialEq, Eq)]
pub struct Hash(pub [u8; 32]);

impl View for Hash {
    type V = Seq<u8>;

    open spec fn view(&self) -> Seq<u8> {
        self.0@
    }
}

impl Hash {
    /// Whether the two digests hold the same bytes.
    pub fn same(&self, other: &Hash) -> (r: bool)
        ensures
            r == (self@ == other@),
    {
        let mut i: usize = 0;
        while i < 32
            invariant
                i <= 32,
                forall|k: int| 0 <= k < i ==> self@[k] == other@[k],
            decreases 32 - i,
        {
            if self.0[i] != other.0[i] {
                return false;
            }
            i += 1;
        }
        assert(self@ =~= other@);
        true
    }
}

/// The bytes of each digest of `v`.
pub open spec fn digests(v: Seq<Hash>) -> Seq<Seq<u8>> {
    Seq::new(v.len(), |i: int| v[i]@)
}

/// The digest of a node whose children have the digests `left` and `right`.
pub open spec fn node_digest(left: Seq<u8>, right: Seq<u8>) -> Seq<u8> {
    keccak256(left + right)
}

/// The digest of the leaf that covers the adjacent symbols `s0` and `s1`.
pub open spec fn leaf_digest(s0: u128, s1: u128) -> Seq<u8> {
    keccak256(spec_u128_to_le_bytes(s0) + spec_u128_to_le_bytes(s1))
}

/// Hashes arbitrary bytes.
pub fn hash(data: &[u8]) -> (h: Hash)
    ensures
        h@ == keccak256(data@),
{
    Hash(keccak256_digest(data))
}

/// Hashes the 16 little-endian bytes of a field element.
pub fn hash_field(data: &u128) -> (h: Hash)
    ensures
        h@ == keccak256(spec_u128_to_le_bytes(*data)),
{
    let bytes = u128_to_le_bytes(*data);
    Hash(keccak256_digest(bytes.as_slice()))
}

/// Hashes the little-endian bytes of two field elements, one after the other.
pub fn hash_tuple(data: &(u128, u128)) -> (h: Hash)
    ensures
        h@ == leaf_digest(data.0, data.1),
{
    let mut bytes = u128_to_le_bytes(data.0);
    let mut second = u128_to_le_bytes(data.1);
    bytes.append(&mut second);
    Hash(keccak256_digest(bytes.as_slice()))
}

/// Hashes the 64 bytes of two digests, the first before the second.
pub fn hash_concatenation(data1: &Hash, data2: &Hash) -> (h: Hash)
    ensures
        h@ == node_digest(data1@, data2@),
{
    let mut bytes: Vec<u8> = Vec::with_capacity(64);
    let mut i: usize = 0;
    while i < 32
        invariant
            i <= 32,
            bytes@ == data1@.take(i as int),
        decreases 32 - i,
    {
        bytes.push(data1.0[i]);
        i += 1;
    }
    let mut j: usize = 0;
    while j < 32
        invariant
            j <= 32,
            bytes@ == data1@ + data2@.take(j as int),
        decreases 32 - j,
    {
        bytes.push(data2.0[j]);
        j += 1;
    }
    assert(data2@.take(32) == data2@);
    Hash(keccak256_digest(bytes.as_slice()))
}


/// A commitment to a vector: the root of its Merkle tree and the number of
/// hashing rounds between a leaf and the root.
#[derive(Clone, Copy, Debug, PartialEq, Eq)]
pub struct VectorCommitment {
    pub root: Hash,
    pub depth: usize,
}

impl VectorCommitment {
    /// The root of the tree.
    pub fn root(&self) -> (h: Hash)
        ensures
            h == self.root,
    {
        self.root
    }

    /// The number of hashing rounds between a leaf and the root.
    pub fn depth(&self) -> (d: usize)
        ensures
            d == self.depth,
    {
        self.depth
    }
}

/// A Merkle tree held as its layers, the root's layer first and the leaves last.
#[derive(Clone, Debug, PartialEq, Eq)]
pub struct MerkleTree {
    pub data: Vec<Vec<Hash>>,
}

/// The digests of each layer of `data`.
pub open spec fn layers_of(data: Seq<Vec<Hash>>) -> Seq<Seq<Seq<u8>>> {
    Seq::new(data.len(), |d: int| digests(data[d]@))
}

/// The layer above `child`: each node is the digest of its two children.
pub open spec fn parent_layer(child: Seq<Seq<u8>>) -> Seq<Seq<u8>> {
    Seq::new(child.len() / 2, |i: int| node_digest(child[2 * i], child[2 * i + 1]))
}

/// The leaves made of the adjacent pairs of `vals`.
pub open spec fn leaf_layer(vals: Seq<u128>) -> Seq<Seq<u8>> {
    Seq::new(vals.len() / 2, |k: int| leaf_digest(vals[2 * k], vals[2 * k + 1]))
}

/// `layers` are the layers of a Merkle tree over the last of them: the
/// first holds one node, each other layer holds twice as many nodes as the
/// layer before it, and each layer but the last is the parent layer of the next.
pub open spec fn is_tree(layers: Seq<Seq<Seq<u8>>>) -> bool {
    &&& layers.len() >= 1
    &&& layers[0].len() == 1
    &&& forall|d: int| 0 <= d < layers.len() - 1 ==> #[trigger] is_parent(layers, d)
}

/// Layer `d + 1` holds twice as many nodes as layer `d`, which is its parent layer.
pub open spec fn is_parent(layers: Seq<Seq<Seq<u8>>>, d: int) -> bool {
    layers[d + 1].len() == 2 * layers[d].len() && layers[d] == parent_layer(layers[d + 1])
}

/// Layer `d` holds two to the power `d` nodes, for each `d`.
pub open spec fn is_layered(layers: Seq<Seq<Seq<u8>>>) -> bool {
    &&& layers.len() >= 1
    &&& forall|d: int| 0 <= d < layers.len() ==> (#[trigger] layers[d]).len() == two_pow(d as nat)
}

/// The other child of the parent of node `i`.
pub open spec fn sibling(i: nat) -> nat {
    if i % 2 == 0 {
        i + 1
    } else {
        (i - 1) as nat
    }
}

/// The siblings of the ancestors of leaf `i`, from the leaves' layer up to
/// the layer below the root.
pub open spec fn merkle_path(layers: Seq<Seq<Seq<u8>>>, i: nat) -> Seq<Seq<u8>> {
    Seq::new(
        (layers.len() - 1) as nat,
        |k: int| layers[layers.len() - 1 - k][sibling(halved(i, k as nat)) as int],
    )
}

/// The digest reached from `node`, the node of index `i` in its layer, by
/// hashing it with the siblings `path` in turn: a node of even index stands
/// on the left of its sibling, one of odd index on the right.
pub open spec fn path_root(node: Seq<u8>, i: nat, path: Seq<Seq<u8>>) -> Seq<u8>
    decreases path.len(),
{
    if path.len() == 0 {
        node
    } else {
        let up = if i % 2 == 0 {
            node_digest(node, path[0])
        } else {
            node_digest(path[0], node)
        };
        path_root(up, i / 2, path.drop_first())
    }
}

/// The outcome of checking `path` for the leaf `leaf` of index `i` against
/// a commitment to `root` at `depth`.
pub open spec fn path_check(root: Seq<u8>, depth: nat, leaf: Seq<u8>, i: usize, path: Seq<Seq<u8>>)
    -> Result<(), Error> {
    if path.len() != depth {
        Err(Error::ShapeMismatch)
    } else if path_root(leaf, i as nat, path) != root {
        Err(Error::MerklePath { index: i })
    } else {
        Ok(())
    }
}

/// The layers of a tree have the sizes of the powers of two.
pub proof fn lemma_tree_is_layered(layers: Seq<Seq<Seq<u8>>>)
    requires
        is_tree(layers),
    ensures
        is_layered(layers),
{
    assert forall|d: int| 0 <= d < layers.len() implies (#[trigger] layers[d]).len() == two_pow(
        d as nat,
    ) by {
        lemma_layer_size(layers, d as nat);
    }
}

proof fn lemma_layer_size(layers: Seq<Seq<Seq<u8>>>, d: nat)
    requires
        is_tree(layers),
        d < layers.len(),
    ensures
        layers[d as int].len() == two_pow(d),
    decreases d,
{
    if d > 0 {
        lemma_layer_size(layers, (d - 1) as nat);
        assert(is_parent(layers, d - 1));
    }
}

proof fn lemma_path_suffix(layers: Seq<Seq<Seq<u8>>>, i: nat, k: nat)
    requires
        is_tree(layers),
        i < layers.last().len(),
        k <= layers.len() - 1,
    ensures
        halved(i, k) < layers[layers.len() - 1 - k].len(),
        path_root(
            layers[layers.len() - 1 - k][halved(i, k) as int],
            halved(i, k),
            merkle_path(layers, i).skip(k as int),
        ) == layers[0][0],
    decreases layers.len() - 1 - k,
{
    let depth = (layers.len() - 1) as nat;
    let path = merkle_path(layers, i);
    let j = halved(i, k);
    lemma_tree_is_layered(layers);
    lemma_halved_bound(i, depth, k);
    if k == depth {
        assert(path.skip(k as int).len() == 0);
    } else {
        let level = layers[depth - k];
        let above = layers[depth - k - 1];
        let rest = path.skip(k as int);
        assert(is_parent(layers, depth - k - 1));
        assert(level.len() == 2 * above.len());
        assert(rest[0] == level[sibling(j) as int]);
        assert(rest.drop_first() =~= path.skip(k + 1 as int));
        assert(halved(i, k + 1) == j / 2);
        let p = (j / 2) as int;
        assert(above[p] == node_digest(level[2 * p], level[2 * p + 1]));
        lemma_path_suffix(layers, i, k + 1);
    }
}

/// Round trip: in a Merkle tree, the path of siblings of any leaf, checked
/// for that leaf and its index against the root and the depth of the tree,
/// is accepted.
pub proof fn lemma_merkle_round_trip(layers: Seq<Seq<Seq<u8>>>, i: usize)
    requires
        is_tree(layers),
        i < layers.last().len(),
    ensures
        path_check(
            layers[0][0],
            (layers.len() - 1) as nat,
            layers.last()[i as int],
            i,
            merkle_path(layers, i as nat),
        ) is Ok,
{
    lemma_path_suffix(layers, i as nat, 0);
    assert(merkle_path(layers, i as nat).skip(0) =~= merkle_path(layers, i as nat));
}


impl MerkleTree {
    /// The digests of the layers, the root's layer first.
    pub open spec fn layers(&self) -> Seq<Seq<Seq<u8>>> {
        layers_of(self.data@)
    }

    /// The layers are those of a Merkle tree over the last of them.
    pub open spec fn wf(&self) -> bool {
        is_tree(self.layers())
    }

    /// The siblings on the way from leaf `leaf_index` up to the root, the root left out.
    pub fn get_merkle_path(&self, leaf_index: usize) -> (path: Vec<Hash>)
        requires
            self.wf(),
            leaf_index < self.layers().last().len(),
        ensures
            digests(path@) == merkle_path(self.layers(), leaf_index as nat),
    {
        proof {
            lemma_tree_is_layered(self.layers());
        }
        get_merkle_path(self.data.as_slice(), leaf_index)
    }

    /// The root of the tree.
    pub fn get_root(&self) -> (h: Hash)
        requires
            self.wf(),
        ensures
            h@ == self.layers()[0][0],
    {
        self.data[0][0]
    }
}

/// The layer above `child_layer`.
pub fn build_parent_layer(child_layer: &[Hash]) -> (parent: Vec<Hash>)
    requires
        child_layer@.len() % 2 == 0,
    ensures
        digests(parent@) == parent_layer(digests(child_layer@)),
{
    let n = child_layer.len() / 2;
    let mut parent: Vec<Hash> = Vec::with_capacity(n);
    let mut i: usize = 0;
    while i < n
        invariant
            i <= n,
            n == child_layer@.len() / 2,
            child_layer@.len() <= usize::MAX,
            child_layer@.len() % 2 == 0,
            parent@.len() == i,
            forall|k: int|
                0 <= k < i ==> (#[trigger] parent@[k])@ == node_digest(
                    child_layer@[2 * k]@,
                    child_layer@[2 * k + 1]@,
                ),
        decreases n - i,
    {
        let h = hash_concatenation(&child_layer[2 * i], &child_layer[2 * i + 1]);
        parent.push(h);
        i += 1;
    }
    assert(digests(parent@) =~= parent_layer(digests(child_layer@)));
    parent
}

/// The leaves of the tree over `vals`: one digest for each adjacent pair.
pub fn compute_leaf_hashes(vals: &[u128]) -> (leaves: Vec<Hash>)
    requires
        vals@.len() % 2 == 0,
    ensures
        digests(leaves@) == leaf_layer(vals@),
{
    let n = vals.len() / 2;
    let mut leaves: Vec<Hash> = Vec::with_capacity(n);
    let mut i: usize = 0;
    while i < n
        invariant
            i <= n,
            n == vals@.len() / 2,
            vals@.len() <= usize::MAX,
            vals@.len() % 2 == 0,
            leaves@.len() == i,
            forall|k: int|
                0 <= k < i ==> (#[trigger] leaves@[k])@ == leaf_digest(
                    vals@[2 * k],
                    vals@[2 * k + 1],
                ),
        decreases n - i,
    {
        let h = hash_tuple(&(vals[2 * i], vals[2 * i + 1]));
        leaves.push(h);
        i += 1;
    }
    assert(digests(leaves@) =~= leaf_layer(vals@));
    leaves
}

/// In the layers `rising`, held from the leaves up, layer `u` holds twice
/// as many nodes as layer `u + 1`, which is its parent layer.
spec fn is_child(rising: Seq<Vec<Hash>>, u: int) -> bool {
    rising[u]@.len() == 2 * rising[u + 1]@.len() && digests(rising[u + 1]@) == parent_layer(
        digests(rising[u]@),
    )
}

/// Builds every layer of the Merkle tree over a power of two of leaves.
pub fn merklize(leaf_hashes: Vec<Hash>) -> (tree: MerkleTree)
    requires
        is_pow2(leaf_hashes@.len()),
    ensures
        tree.wf(),
        tree.layers().last() == digests(leaf_hashes@),
        tree.data@.len() == log2(leaf_hashes@.len()) + 1,
{
    let ghost leaves = leaf_hashes@;
    let mut rising: Vec<Vec<Hash>> = Vec::new();
    rising.push(leaf_hashes);
    while rising[rising.len() - 1].len() > 1
        invariant
            rising@.len() >= 1,
            rising@[0]@ == leaves,
            is_pow2(rising@.last()@.len()),
            rising@.len() + log2(rising@.last()@.len()) == log2(leaves.len()) + 1,
            forall|u: int| 0 <= u < rising@.len() - 1 ==> #[trigger] is_child(rising@, u),
        decreases rising@.last()@.len(),
    {
        let top = rising.len() - 1;
        let parent = build_parent_layer(rising[top].as_slice());
        assert(digests(parent@).len() == parent@.len());
        let ghost before = rising@;
        rising.push(parent);
        proof {
            assert forall|u: int| 0 <= u < rising@.len() - 1 implies #[trigger] is_child(
                rising@,
                u,
            ) by {
                if u < top {
                    assert(is_child(before, u));
                }
            }
        }
    }
    let ghost up = rising@;
    let mut data: Vec<Vec<Hash>> = Vec::with_capacity(rising.len());
    while rising.len() > 0
        invariant
            rising@.len() + data@.len() == up.len(),
            rising@ == up.take(rising@.len() as int),
            forall|d: int| 0 <= d < data@.len() ==> #[trigger] data@[d] == up[up.len() - 1 - d],
        decreases rising@.len(),
    {
        let layer = rising.pop().unwrap();
        data.push(layer);
    }
    let tree = MerkleTree { data };
    proof {
        let layers = tree.layers();
        assert(layers[0] == digests(up[up.len() - 1]@));
        assert forall|d: int| 0 <= d < layers.len() - 1 implies #[trigger] is_parent(
            layers,
            d,
        ) by {
            let u = up.len() - 2 - d;
            assert(layers[d] == digests(up[u + 1]@));
            assert(layers[d + 1] == digests(up[u]@));
            assert(is_child(up, u));
        }
        assert(layers.last() == digests(up[0]@));
    }
    tree
}

/// The siblings on the way from leaf `leaf_index` of the layers `tree` up
/// to the root, the root left out.
pub fn get_merkle_path(tree: &[Vec<Hash>], leaf_index: usize) -> (path: Vec<Hash>)
    requires
        is_layered(layers_of(tree@)),
        leaf_index < tree@.last()@.len(),
    ensures
        digests(path@) == merkle_path(layers_of(tree@), leaf_index as nat),
{
    let leaf_depth = tree.len() - 1;
    let ghost layers = layers_of(tree@);
    let mut index = leaf_index;
    let mut path: Vec<Hash> = Vec::with_capacity(leaf_depth);
    let mut k: usize = 0;
    assert(layers[leaf_depth as int].len() == tree@.last()@.len());
    while k < leaf_depth
        invariant
            k <= leaf_depth,
            leaf_depth == tree@.len() - 1,
            layers == layers_of(tree@),
            is_layered(layers),
            leaf_index < two_pow(leaf_depth as nat),
            index == halved(leaf_index as nat, k as nat),
            path@.len() == k,
            forall|m: int|
                0 <= m < k ==> (#[trigger] path@[m])@ == layers[leaf_depth - m][sibling(
                    halved(leaf_index as nat, m as nat),
                ) as int],
        decreases leaf_depth - k,
    {
        let depth = leaf_depth - k;
        proof {
            lemma_halved_bound(leaf_index as nat, leaf_depth as nat, k as nat);
            assert(layers[depth as int].len() == two_pow(depth as nat));
            assert(layers[depth as int].len() == tree@[depth as int]@.len());
            assert(two_pow(depth as nat) == 2 * two_pow((depth - 1) as nat));
        }
        let sibling = if index % 2 == 0 {
            index + 1
        } else {
            index - 1
        };
        path.push(tree[depth][sibling]);
        index = index / 2;
        k += 1;
    }
    assert(digests(path@) =~= merkle_path(layers, leaf_index as nat));
    path
}

/// Recomputes the root from a leaf and its path and compares it with the commitment.
pub fn verify_merkle_path(
    commitment: &VectorCommitment,
    leaf_hash: Hash,
    leaf_index: usize,
    merkle_path: &[Hash],
) -> (r: Result<(), Error>)
    ensures
        r == path_check(
            commitment.root@,
            commitment.depth as nat,
            leaf_hash@,
            leaf_index,
            digests(merkle_path@),
        ),
{
    if merkle_path.len() != commitment.depth {
        return Err(Error::ShapeMismatch);
    }
    let ghost path = digests(merkle_path@);
    let mut hash = leaf_hash;
    let mut index = leaf_index;
    let mut d: usize = 0;
    assert(path.skip(0) =~= path);
    while d < merkle_path.len()
        invariant
            d <= merkle_path@.len(),
            path == digests(merkle_path@),
            path_root(leaf_hash@, leaf_index as nat, path) == path_root(
                hash@,
                index as nat,
                path.skip(d as int),
            ),
        decreases merkle_path@.len() - d,
    {
        let ghost rest = path.skip(d as int);
        assert(rest[0] == merkle_path@[d as int]@);
        assert(rest.drop_first() =~= path.skip(d + 1));
        hash = if index % 2 == 0 {
            hash_concatenation(&hash, &merkle_path[d])
        } else {
            hash_concatenation(&merkle_path[d], &hash)
        };
        index = index / 2;
        d += 1;
    }
    assert(path.skip(d as int).len() == 0);
    if !hash.same(&commitment.root) {
        return Err(Error::MerklePath { index: leaf_index });
    }
    Ok(())
}


/// The root of the Merkle tree over the leaves `leaves`.
pub open spec fn merkle_root(leaves: Seq<Seq<u8>>) -> Seq<u8>
    decreases leaves.len(),
{
    if leaves.len() <= 1 {
        leaves[0]
    } else {
        merkle_root(parent_layer(leaves))
    }
}

/// The layer `up` levels above the leaves `leaves`.
pub open spec fn layer_above(leaves: Seq<Seq<u8>>, up: nat) -> Seq<Seq<u8>>
    decreases up,
{
    if up == 0 {
        leaves
    } else {
        parent_layer(layer_above(leaves, (up - 1) as nat))
    }
}

/// The layers of the Merkle tree over a power of two of leaves, the root's layer first.
pub open spec fn tree_layers(leaves: Seq<Seq<u8>>) -> Seq<Seq<Seq<u8>>> {
    Seq::new(log2(leaves.len()) + 1, |d: int| layer_above(leaves, (log2(leaves.len()) - d) as nat))
}

proof fn lemma_layer_root(layers: Seq<Seq<Seq<u8>>>, d: nat)
    requires
        is_tree(layers),
        d < layers.len(),
    ensures
        merkle_root(layers[d as int]) == layers[0][0],
        layers[d as int].len() >= 1,
        is_pow2(layers[d as int].len()),
        log2(layers[d as int].len()) == d,
    decreases d,
{
    if d > 0 {
        lemma_layer_root(layers, (d - 1) as nat);
        assert(is_parent(layers, d - 1));
    }
}

proof fn lemma_layer_above(layers: Seq<Seq<Seq<u8>>>, up: nat)
    requires
        is_tree(layers),
        up < layers.len(),
    ensures
        layer_above(layers.last(), up) == layers[layers.len() - 1 - up],
    decreases up,
{
    if up > 0 {
        lemma_layer_above(layers, (up - 1) as nat);
        let d = layers.len() - 1 - up;
        assert(is_parent(layers, d));
    }
}

/// A Merkle tree is fixed by its leaves: its layers are the layers over
/// them, and its root is their root.
pub proof fn lemma_tree_of_leaves(layers: Seq<Seq<Seq<u8>>>)
    requires
        is_tree(layers),
    ensures
        layers == tree_layers(layers.last()),
        layers[0][0] == merkle_root(layers.last()),
        is_pow2(layers.last().len()),
        log2(layers.last().len()) == layers.len() - 1,
{
    let depth = (layers.len() - 1) as nat;
    lemma_layer_root(layers, depth);
    assert forall|d: int| 0 <= d < layers.len() implies layers[d] == #[trigger] tree_layers(
        layers.last(),
    )[d] by {
        lemma_layer_above(layers, (depth - d) as nat);
    }
    assert(layers =~= tree_layers(layers.last()));
}


proof fn lemma_layer_above_len(leaves: Seq<Seq<u8>>, depth: nat, up: nat)
    requires
        leaves.len() == two_pow(depth),
        up <= depth,
    ensures
        layer_above(leaves, up).len() == two_pow((depth - up) as nat),
    decreases up,
{
    if up > 0 {
        lemma_layer_above_len(leaves, depth, (up - 1) as nat);
    }
}

/// The layers over a power of two of leaves are those of a Merkle tree
/// over these leaves.
pub proof fn lemma_tree_layers(leaves: Seq<Seq<u8>>)
    requires
        is_pow2(leaves.len()),
    ensures
        is_tree(tree_layers(leaves)),
        tree_layers(leaves).last() == leaves,
        tree_layers(leaves).len() == log2(leaves.len()) + 1,
        tree_layers(leaves)[0][0] == merkle_root(leaves),
{
    let depth = log2(leaves.len());
    let layers = tree_layers(leaves);
    lemma_pow2_log2(leaves.len());
    lemma_layer_above_len(leaves, depth, depth);
    assert forall|d: int| 0 <= d < layers.len() - 1 implies #[trigger] is_parent(layers, d) by {
        lemma_layer_above_len(leaves, depth, (depth - d) as nat);
        lemma_layer_above_len(leaves, depth, (depth - d - 1) as nat);
        assert(layer_above(leaves, (depth - d) as nat) == parent_layer(
            layer_above(leaves, (depth - d - 1) as nat),
        ));
    }
    lemma_tree_of_leaves(layers);
}

} // verus!
