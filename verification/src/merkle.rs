//! The vector commitment: a binary hash tree over the leaves, whose root
//! binds all of them, with membership paths for single leaves.

use crate::hashing::{bytes_eq, copy_bytes, MerkleConfig};
use core::marker::PhantomData;
use vstd::prelude::*;

verus! {

/// The byte strings held by a vector of byte vectors.
pub open spec fn bytes_of(v: Seq<Vec<u8>>) -> Seq<Seq<u8>> {
    Seq::new(v.len(), |i: int| v[i]@)
}

/// Whether `n` is a power of two.
pub open spec fn is_pow2(n: int) -> bool
    decreases n,
{
    n == 1 || (n > 1 && n % 2 == 0 && is_pow2(n / 2))
}

/// The digests of the leaves.
pub open spec fn leaf_digests<P: MerkleConfig>(leaves: Seq<Seq<u8>>) -> Seq<Seq<u8>> {
    Seq::new(leaves.len(), |i: int| P::leaf_digest(leaves[i]))
}

/// The parents of a layer of leaf digests.
pub open spec fn pair_leaves<P: MerkleConfig>(digests: Seq<Seq<u8>>) -> Seq<Seq<u8>> {
    Seq::new(
        (digests.len() / 2) as nat,
        |i: int| P::leaf_parent(digests[2 * i], digests[2 * i + 1]),
    )
}

/// The parents of a layer of inner nodes.
pub open spec fn pair_nodes<P: MerkleConfig>(nodes: Seq<Seq<u8>>) -> Seq<Seq<u8>> {
    Seq::new(
        (nodes.len() / 2) as nat,
        |i: int| P::node_parent(nodes[2 * i], nodes[2 * i + 1]),
    )
}

/// The node that a layer of inner nodes is compressed into.
pub open spec fn fold_root<P: MerkleConfig>(nodes: Seq<Seq<u8>>) -> Seq<u8>
    decreases nodes.len(),
{
    if nodes.len() <= 1 {
        nodes[0]
    } else {
        fold_root::<P>(pair_nodes::<P>(nodes))
    }
}

/// The root of the tree over `leaves`, whose number is a power of two and
/// at least two.
pub open spec fn merkle_root<P: MerkleConfig>(leaves: Seq<Seq<u8>>) -> Seq<u8> {
    fold_root::<P>(pair_leaves::<P>(leaf_digests::<P>(leaves)))
}

/// The position beside `index` under the same parent.
pub open spec fn sibling(index: int) -> int {
    if index % 2 == 0 {
        index + 1
    } else {
        index - 1
    }
}

/// The parent of `node`, which stands at `index` in its layer, and of the
/// node beside it.
pub open spec fn join<P: MerkleConfig>(index: int, node: Seq<u8>, beside: Seq<u8>) -> Seq<u8> {
    if index % 2 == 0 {
        P::node_parent(node, beside)
    } else {
        P::node_parent(beside, node)
    }
}

/// The node reached from `node` at `index` by joining it with the nodes of
/// `beside`, the last of them first.
pub open spec fn climb<P: MerkleConfig>(node: Seq<u8>, index: int, beside: Seq<Seq<u8>>) -> Seq<u8>
    decreases beside.len(),
{
    if beside.len() == 0 {
        node
    } else {
        climb::<P>(join::<P>(index, node, beside.last()), index / 2, beside.drop_last())
    }
}

/// The root that a path claims for the leaf digest at `index`.
pub open spec fn digest_root<P: MerkleConfig>(
    digest: Seq<u8>,
    leaf_sibling: Seq<u8>,
    index: int,
    auth_path: Seq<Seq<u8>>,
) -> Seq<u8> {
    let first = if index % 2 == 0 {
        P::leaf_parent(digest, leaf_sibling)
    } else {
        P::leaf_parent(leaf_sibling, digest)
    };
    climb::<P>(first, index / 2, auth_path)
}

/// The root that a path claims for the leaf at `index`.
pub open spec fn path_root<P: MerkleConfig>(
    leaf: Seq<u8>,
    leaf_sibling: Seq<u8>,
    index: int,
    auth_path: Seq<Seq<u8>>,
) -> Seq<u8> {
    digest_root::<P>(P::leaf_digest(leaf), leaf_sibling, index, auth_path)
}

/// Whether `n` is a power of two.
pub fn is_power_of_two(n: usize) -> (r: bool)
    ensures
        r == is_pow2(n as int),
{
    if n == 0 {
        return false;
    }
    let mut k: usize = n;
    while k % 2 == 0
        invariant
            k >= 1,
            is_pow2(k as int) == is_pow2(n as int),
        decreases k,
    {
        k = k / 2;
    }
    k == 1
}

/// The membership proof of one leaf: the digest of the leaf beside it, and
/// the nodes beside its ancestors, the highest first.
#[derive(Clone, Debug)]
pub struct MerklePath {
    pub leaf_sibling_hash: Vec<u8>,
    pub auth_path: Vec<Vec<u8>>,
    pub leaf_index: usize,
}

impl MerklePath {
    /// The root that the path claims for `leaf`.
    pub open spec fn root_from<P: MerkleConfig>(self, leaf: Seq<u8>) -> Seq<u8> {
        path_root::<P>(
            leaf,
            self.leaf_sibling_hash@,
            self.leaf_index as int,
            bytes_of(self.auth_path@),
        )
    }

    /// Whether the path leads from `leaf` to `root`.
    pub fn verify<P: MerkleConfig>(&self, root: &Vec<u8>, leaf: &Vec<u8>) -> (ok: bool)
        ensures
            ok <==> self.root_from::<P>(leaf@) == root@,
    {
        let digest = P::hash_leaf(leaf);
        let mut cur = if self.leaf_index % 2 == 0 {
            P::hash_leaves(&digest, &self.leaf_sibling_hash)
        } else {
            P::hash_leaves(&self.leaf_sibling_hash, &digest)
        };
        let mut index: usize = self.leaf_index / 2;
        let mut level: usize = self.auth_path.len();
        let ghost all = bytes_of(self.auth_path@);
        proof {
            assert(all.take(level as int) =~= all);
        }
        while level > 0
            invariant
                level <= self.auth_path.len(),
                all == bytes_of(self.auth_path@),
                self.root_from::<P>(leaf@) == climb::<P>(cur@, index as int, all.take(level as int)),
            decreases level,
        {
            proof {
                assert(all.take(level as int).drop_last() =~= all.take(level - 1));
                assert(all.take(level as int).last() == self.auth_path[level - 1]@);
            }
            level -= 1;
            cur = if index % 2 == 0 {
                P::hash_nodes(&cur, &self.auth_path[level])
            } else {
                P::hash_nodes(&self.auth_path[level], &cur)
            };
            index = index / 2;
        }
        bytes_eq(&cur, root)
    }
}

/// The layers above `k` are the parents of the layers below them, up to a
/// single root.
pub open spec fn stacked<P: MerkleConfig>(layers: Seq<Seq<Seq<u8>>>, k: int) -> bool {
    &&& 1 <= k < layers.len()
    &&& forall|j: int| k <= j < layers.len() - 1 ==> #[trigger] parent_layer::<P>(layers, j)
    &&& layers.last().len() == 1
}

/// Layer `j + 1` holds the parents of the pairs of layer `j`.
pub open spec fn parent_layer<P: MerkleConfig>(layers: Seq<Seq<Seq<u8>>>, j: int) -> bool {
    &&& layers[j].len() >= 2
    &&& layers[j].len() % 2 == 0
    &&& layers[j + 1] == pair_nodes::<P>(layers[j])
}

/// The position in layer `j + 1` is that of the parent of the position in
/// layer `j`.
pub open spec fn halving(at: Seq<int>, j: int) -> bool {
    at[j + 1] == at[j] / 2
}

/// The node that `beside` holds for layer `j` is the one beside the
/// position in that layer. The nodes of the highest layers come first.
pub open spec fn stands_beside(
    layers: Seq<Seq<Seq<u8>>>,
    at: Seq<int>,
    beside: Seq<Seq<u8>>,
    j: int,
) -> bool {
    beside[layers.len() - 2 - j] == layers[j][sibling(at[j])]
}

/// Joining a node with the nodes beside it and beside its ancestors leads
/// to the root.
pub proof fn lemma_climb_reaches_root<P: MerkleConfig>(
    layers: Seq<Seq<Seq<u8>>>,
    k: int,
    at: Seq<int>,
    beside: Seq<Seq<u8>>,
)
    requires
        stacked::<P>(layers, k),
        at.len() == layers.len(),
        0 <= at[k] < layers[k].len(),
        forall|j: int| k <= j < layers.len() - 1 ==> #[trigger] halving(at, j),
        beside.len() == layers.len() - 1 - k,
        forall|j: int| k <= j < layers.len() - 1 ==> #[trigger] stands_beside(layers, at, beside, j),
    ensures
        climb::<P>(layers[k][at[k]], at[k], beside) == layers.last()[0],
    decreases beside.len(),
{
    if beside.len() == 0 {
        assert(k == layers.len() - 1);
    } else {
        let i = at[k];
        let layer = layers[k];
        assert(parent_layer::<P>(layers, k));
        assert(halving(at, k));
        assert(stands_beside(layers, at, beside, k));
        assert(beside.last() == beside[layers.len() - 2 - k]);
        assert(beside.last() == layer[sibling(i)]);
        assert(join::<P>(i, layer[i], beside.last()) == pair_nodes::<P>(layer)[i / 2]);
        let rest = beside.drop_last();
        assert forall|j: int| k + 1 <= j < layers.len() - 1 implies #[trigger] stands_beside(
            layers,
            at,
            rest,
            j,
        ) by {
            assert(stands_beside(layers, at, beside, j));
            assert(rest[layers.len() - 2 - j] == beside[layers.len() - 2 - j]);
        }
        assert forall|j: int| k + 1 <= j < layers.len() - 1 implies #[trigger] parent_layer::<P>(
            layers,
            j,
        ) by {}
        lemma_climb_reaches_root::<P>(layers, k + 1, at, rest);
    }
}

/// The layers of a layer of inner nodes fold into the root above them.
pub proof fn lemma_fold_reaches_root<P: MerkleConfig>(layers: Seq<Seq<Seq<u8>>>, k: int)
    requires
        stacked::<P>(layers, k),
    ensures
        fold_root::<P>(layers[k]) == layers.last()[0],
    decreases layers.len() - k,
{
    if k < layers.len() - 1 {
        assert(parent_layer::<P>(layers, k));
        assert forall|j: int| k + 1 <= j < layers.len() - 1 implies #[trigger] parent_layer::<P>(
            layers,
            j,
        ) by {}
        lemma_fold_reaches_root::<P>(layers, k + 1);
    }
}

/// The parents of a layer of leaf digests.
fn hash_leaf_layer<P: MerkleConfig>(digests: &Vec<Vec<u8>>) -> (parents: Vec<Vec<u8>>)
    requires
        digests.len() % 2 == 0,
    ensures
        bytes_of(parents@) == pair_leaves::<P>(bytes_of(digests@)),
{
    let half: usize = digests.len() / 2;
    let mut parents: Vec<Vec<u8>> = Vec::new();
    let mut i: usize = 0;
    while i < half
        invariant
            i <= half,
            half == digests.len() / 2,
            digests.len() % 2 == 0,
            parents.len() == i,
            forall|k: int|
                0 <= k < i ==> (#[trigger] parents[k])@ == P::leaf_parent(
                    digests[2 * k]@,
                    digests[2 * k + 1]@,
                ),
        decreases half - i,
    {
        let p = P::hash_leaves(&digests[2 * i], &digests[2 * i + 1]);
        parents.push(p);
        i += 1;
    }
    proof {
        assert(bytes_of(parents@) =~= pair_leaves::<P>(bytes_of(digests@)));
    }
    parents
}

/// The parents of a layer of inner nodes.
fn hash_node_layer<P: MerkleConfig>(nodes: &Vec<Vec<u8>>) -> (parents: Vec<Vec<u8>>)
    requires
        nodes.len() % 2 == 0,
    ensures
        bytes_of(parents@) == pair_nodes::<P>(bytes_of(nodes@)),
{
    let half: usize = nodes.len() / 2;
    let mut parents: Vec<Vec<u8>> = Vec::new();
    let mut i: usize = 0;
    while i < half
        invariant
            i <= half,
            half == nodes.len() / 2,
            nodes.len() % 2 == 0,
            parents.len() == i,
            forall|k: int|
                0 <= k < i ==> (#[trigger] parents[k])@ == P::node_parent(
                    nodes[2 * k]@,
                    nodes[2 * k + 1]@,
                ),
        decreases half - i,
    {
        let p = P::hash_nodes(&nodes[2 * i], &nodes[2 * i + 1]);
        parents.push(p);
        i += 1;
    }
    proof {
        assert(bytes_of(parents@) =~= pair_nodes::<P>(bytes_of(nodes@)));
    }
    parents
}

/// The position, in layer `j`, of the ancestor of the leaf at `index`.
pub open spec fn position_at(index: int, j: nat) -> int
    decreases j,
{
    if j == 0 {
        index
    } else {
        position_at(index, (j - 1) as nat) / 2
    }
}

/// The positions, in the first `n` layers, of the ancestors of the leaf at
/// `index`.
pub open spec fn positions_from(index: int, n: nat) -> Seq<int> {
    Seq::new(n, |j: int| position_at(index, j as nat))
}

/// Whether `path` is the path of the leaf at `index` in the tree with the
/// given layers: it holds the digest of the leaf beside that leaf, and the
/// node beside every ancestor below the root, the highest first.
pub open spec fn is_path_of(layers: Seq<Seq<Seq<u8>>>, index: int, path: MerklePath) -> bool {
    &&& path.leaf_index == index
    &&& path.leaf_sibling_hash@ == layers[0][sibling(index)]
    &&& path.auth_path.len() == layers.len() - 2
    &&& forall|j: int|
        1 <= j < layers.len() - 1 ==> #[trigger] stands_beside(
            layers,
            positions_from(index, layers.len()),
            bytes_of(path.auth_path@),
            j,
        )
}

/// Positions that halve from layer to layer are those of the ancestors.
pub proof fn lemma_positions(at: Seq<int>, index: int, n: nat)
    requires
        at.len() == n,
        n >= 1,
        at[0] == index,
        forall|j: int| 0 <= j < n - 1 ==> #[trigger] halving(at, j),
    ensures
        forall|j: int| 0 <= j < n ==> #[trigger] at[j] == position_at(index, j as nat),
    decreases n,
{
    if n > 1 {
        assert forall|j: int| 0 <= j < n - 2 implies #[trigger] halving(at.drop_last(), j) by {
            assert(halving(at, j));
        }
        lemma_positions(at.drop_last(), index, (n - 1) as nat);
        assert(halving(at, n - 2));
        assert forall|j: int| 0 <= j < n implies #[trigger] at[j] == position_at(
            index,
            j as nat,
        ) by {
            if j < n - 1 {
                assert(at.drop_last()[j] == at[j]);
            } else {
                assert(at.drop_last()[n - 2] == at[n - 2]);
                assert(at[n - 1] == at[n - 2] / 2);
                assert(position_at(index, (n - 1) as nat) == position_at(index, (n - 2) as nat)
                    / 2);
            }
        }
    }
}

/// The positions held by a vector of indices.
pub open spec fn positions_of(at: Seq<usize>) -> Seq<int> {
    Seq::new(at.len(), |j: int| at[j] as int)
}

/// The layers held by a vector of layers.
pub open spec fn layers_of(layers: Seq<Vec<Vec<u8>>>) -> Seq<Seq<Seq<u8>>> {
    Seq::new(layers.len(), |k: int| bytes_of(layers[k]@))
}

/// A hash tree: the leaf digests, and above them every layer of inner nodes
/// up to the root.
#[derive(Debug)]
pub struct MerkleTree<P: MerkleConfig> {
    layers: Vec<Vec<Vec<u8>>>,
    config: PhantomData<P>,
}

impl<P: MerkleConfig> MerkleTree<P> {
    #[verifier::type_invariant]
    pub closed spec fn wf(self) -> bool {
        let layers = layers_of(self.layers@);
        &&& layers.len() >= 2
        &&& layers[0].len() >= 2
        &&& layers[0].len() % 2 == 0
        &&& layers[1] == pair_leaves::<P>(layers[0])
        &&& stacked::<P>(layers, 1)
    }

    /// The layers of the tree: the digests of the leaves, and above them
    /// every layer of inner nodes up to the root.
    pub closed spec fn layers(self) -> Seq<Seq<Seq<u8>>> {
        layers_of(self.layers@)
    }

    /// Whether the lowest layer holds an even number of leaf digests, the
    /// layer above it their parents, and every further layer the parents
    /// of the layer below, up to a single root.
    pub open spec fn well_built(self) -> bool {
        let layers = self.layers();
        &&& layers.len() >= 2
        &&& layers[0].len() >= 2
        &&& layers[0].len() % 2 == 0
        &&& layers[1] == pair_leaves::<P>(layers[0])
        &&& stacked::<P>(layers, 1)
        &&& self.leaves() == layers[0]
        &&& self.root_spec() == layers.last()[0]
    }

    /// The digests of the leaves.
    pub closed spec fn leaves(self) -> Seq<Seq<u8>> {
        layers_of(self.layers@)[0]
    }

    /// The root.
    pub closed spec fn root_spec(self) -> Seq<u8> {
        layers_of(self.layers@).last()[0]
    }

    /// The tree over `leaves`, if their number is a power of two and at
    /// least two.
    pub fn new(leaves: &Vec<Vec<u8>>) -> (r: Option<MerkleTree<P>>)
        ensures
            r.is_some() <==> leaves.len() >= 2 && is_pow2(leaves.len() as int),
            r.is_some() ==> {
                &&& r.unwrap().well_built()
                &&& r.unwrap().leaves() == leaf_digests::<P>(bytes_of(leaves@))
                &&& r.unwrap().root_spec() == merkle_root::<P>(bytes_of(leaves@))
            },
    {
        if leaves.len() < 2 || !is_power_of_two(leaves.len()) {
            return None;
        }
        let mut digests: Vec<Vec<u8>> = Vec::new();
        let mut i: usize = 0;
        while i < leaves.len()
            invariant
                i <= leaves.len(),
                digests.len() == i,
                forall|k: int|
                    0 <= k < i ==> (#[trigger] digests[k])@ == P::leaf_digest(
                        leaves[k]@,
                    ),
            decreases leaves.len() - i,
        {
            let d = P::hash_leaf(&leaves[i]);
            digests.push(d);
            i += 1;
        }
        proof {
            assert(bytes_of(digests@) =~= leaf_digests::<P>(bytes_of(leaves@)));
        }
        let first = hash_leaf_layer::<P>(&digests);
        let ghost bottom = bytes_of(digests@);
        let ghost above = bytes_of(first@);
        let mut width: usize = first.len();
        let mut layers: Vec<Vec<Vec<u8>>> = Vec::new();
        layers.push(digests);
        layers.push(first);
        proof {
            assert(pair_leaves::<P>(bottom).len() == bottom.len() / 2);
        }
        while width > 1
            invariant
                layers.len() >= 2,
                layers_of(layers@)[0] == bottom,
                layers_of(layers@)[1] == above,
                bottom.len() >= 2,
                bottom.len() % 2 == 0,
                above == pair_leaves::<P>(bottom),
                width == layers_of(layers@).last().len(),
                is_pow2(width as int),
                forall|j: int|
                    1 <= j < layers.len() - 1 ==> #[trigger] parent_layer::<P>(layers_of(layers@), j),
            decreases width,
        {
            let ghost before = layers_of(layers@);
            let top: usize = layers.len() - 1;
            let next = hash_node_layer::<P>(&layers[top]);
            width = next.len();
            layers.push(next);
            proof {
                let after = layers_of(layers@);
                assert(pair_nodes::<P>(before[top as int]).len() == before[top as int].len() / 2);
                assert forall|j: int| 0 <= j <= top implies #[trigger] after[j] == before[j] by {}
                assert(after[top + 1] == pair_nodes::<P>(before[top as int]));
                assert forall|j: int| 1 <= j < layers.len() - 1 implies #[trigger] parent_layer::<P>(
                    after,
                    j,
                ) by {
                    if j < top {
                        assert(parent_layer::<P>(before, j));
                    }
                }
            }
        }
        proof {
            let all = layers_of(layers@);
            assert(stacked::<P>(all, 1));
            lemma_fold_reaches_root::<P>(all, 1);
        }
        Some(MerkleTree { layers, config: PhantomData })
    }

    /// The root.
    pub fn root(&self) -> (r: Vec<u8>)
        ensures
            r@ == self.root_spec(),
    {
        proof {
            use_type_invariant(self);
        }
        let top: usize = self.layers.len() - 1;
        copy_bytes(&self.layers[top][0])
    }

    /// The number of leaves.
    pub fn n_leaves(&self) -> (n: usize)
        ensures
            n == self.leaves().len(),
    {
        proof {
            use_type_invariant(self);
        }
        self.layers[0].len()
    }

    /// The membership path of the leaf at `index`, if there is such a leaf.
    pub fn generate_proof(&self, index: usize) -> (r: Option<MerklePath>)
        ensures
            r.is_some() <==> index < self.leaves().len(),
            self.well_built(),
            r.is_some() ==> {
                &&& r.unwrap().leaf_index == index
                &&& is_path_of(self.layers(), index as int, r.unwrap())
                &&& digest_root::<P>(
                    self.leaves()[index as int],
                    r.unwrap().leaf_sibling_hash@,
                    index as int,
                    bytes_of(r.unwrap().auth_path@),
                ) == self.root_spec()
            },
    {
        proof {
            use_type_invariant(self);
        }
        let height: usize = self.layers.len();
        if index >= self.layers[0].len() {
            return None;
        }
        let ghost all = layers_of(self.layers@);
        let beside_leaf: usize = if index % 2 == 0 {
            index + 1
        } else {
            index - 1
        };
        let leaf_sibling_hash = copy_bytes(&self.layers[0][beside_leaf]);
        // The position of the leaf's ancestor in every layer.
        let mut at: Vec<usize> = Vec::new();
        at.push(index);
        let mut k: usize = 1;
        proof {
            assert(all[1].len() == all[0].len() / 2);
        }
        while k < height
            invariant
                1 <= k <= height,
                height == self.layers.len(),
                all == layers_of(self.layers@),
                all[1].len() == all[0].len() / 2,
                all[0].len() % 2 == 0,
                stacked::<P>(all, 1),
                at.len() == k,
                at[0] == index,
                index < all[0].len(),
                forall|j: int| 0 <= j < k ==> 0 <= #[trigger] at[j] < all[j].len(),
                forall|j: int| 0 <= j < k - 1 ==> #[trigger] halving(positions_of(at@), j),
            decreases height - k,
        {
            let up: usize = at[k - 1] / 2;
            let ghost below = at@;
            proof {
                if k > 1 {
                    assert(parent_layer::<P>(all, k - 1));
                }
                assert(all[k as int].len() == all[k - 1].len() / 2);
                assert(all[k - 1].len() % 2 == 0);
                assert(up < all[k as int].len());
            }
            at.push(up);
            proof {
                assert forall|j: int| 0 <= j < k + 1 implies 0 <= #[trigger] at[j] < all[j].len() by {
                    if j < k {
                        assert(at[j] == below[j]);
                    }
                }
                assert forall|j: int| 0 <= j < k implies #[trigger] halving(
                    positions_of(at@),
                    j,
                ) by {
                    assert(at[j] == below[j]);
                    if j < k - 1 {
                        assert(halving(positions_of(below), j));
                        assert(at[j + 1] == below[j + 1]);
                    }
                }
            }
            k += 1;
        }
        let mut auth_path: Vec<Vec<u8>> = Vec::new();
        let mut level: usize = height - 1;
        while level > 1
            invariant
                1 <= level <= height - 1,
                height == self.layers.len(),
                all == layers_of(self.layers@),
                stacked::<P>(all, 1),
                at.len() == height,
                forall|j: int| 0 <= j < height ==> 0 <= #[trigger] at[j] < all[j].len(),
                forall|j: int| 0 <= j < height - 1 ==> #[trigger] halving(positions_of(at@), j),
                auth_path.len() == height - 1 - level,
                forall|j: int|
                    level <= j < height - 1 ==> #[trigger] stands_beside(
                        all,
                        positions_of(at@),
                        bytes_of(auth_path@),
                        j,
                    ),
            decreases level,
        {
            level -= 1;
            let here: usize = at[level];
            proof {
                assert(parent_layer::<P>(all, level as int));
            }
            let beside: usize = if here % 2 == 0 {
                here + 1
            } else {
                here - 1
            };
            let node = copy_bytes(&self.layers[level][beside]);
            let ghost lower = bytes_of(auth_path@);
            auth_path.push(node);
            proof {
                let now = bytes_of(auth_path@);
                assert forall|j: int| level <= j < height - 1 implies #[trigger] stands_beside(
                    all,
                    positions_of(at@),
                    now,
                    j,
                ) by {
                    if j > level {
                        assert(stands_beside(all, positions_of(at@), lower, j));
                        assert(now[height - 2 - j] == lower[height - 2 - j]);
                    }
                }
            }
        }
        proof {
            let positions = positions_of(at@);
            lemma_positions(positions, index as int, height as nat);
            assert(positions =~= positions_from(index as int, height as nat));
            lemma_climb_reaches_root::<P>(all, 1, positions, bytes_of(auth_path@));
            assert(halving(positions, 0));
            assert(all[1][index as int / 2] == P::leaf_parent(
                all[0][2 * (index as int / 2)],
                all[0][2 * (index as int / 2) + 1],
            ));
        }
        Some(MerklePath { leaf_sibling_hash, auth_path, leaf_index: index })
    }
}

} // verus!
