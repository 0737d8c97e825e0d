use ark_bls12_381::Fr as ArkFr;
use ark_crypto_primitives::crh::sha256::Sha256;
use ark_crypto_primitives::crh::{CRHScheme, TwoToOneCRHScheme};
use ark_crypto_primitives::merkle_tree::{ByteDigestConverter, Config, MerkleTree as ArkTree};
use ark_crypto_primitives::Error as ArkError;
use ark_serialize::CanonicalSerialize;
use ark_std::borrow::Borrow;
use ark_std::rand::Rng;
use blake2::Blake2s256;
use digest::Digest;
use poly_commit::field::Fr;
use poly_commit::hashing::{
    bytes_eq, copy_bytes, FieldToBytesColHasher, LeafIdentityHasher, MerkleConfig,
    TestMerkleTreeParams,
};
use poly_commit::merkle::{is_power_of_two, MerklePath, MerkleTree};

struct IdentityLeaf;

impl CRHScheme for IdentityLeaf {
    type Input = Vec<u8>;
    type Output = Vec<u8>;
    type Parameters = ();

    fn setup<R: Rng>(_: &mut R) -> Result<(), ArkError> {
        Ok(())
    }

    fn evaluate<T: Borrow<Vec<u8>>>(_: &(), input: T) -> Result<Vec<u8>, ArkError> {
        Ok(LeafIdentityHasher::evaluate(&(), input.borrow()).unwrap())
    }
}

struct ArkParams;

impl Config for ArkParams {
    type Leaf = Vec<u8>;
    type LeafDigest = Vec<u8>;
    type LeafInnerDigestConverter = ByteDigestConverter<Vec<u8>>;
    type InnerDigest = Vec<u8>;
    type LeafHash = IdentityLeaf;
    type TwoToOneHash = Sha256;
}

fn sample_leaves(n: usize) -> Vec<Vec<u8>> {
    (0..n).map(|i| vec![i as u8, (3 * i + 1) as u8, 0xab, (i * i) as u8]).collect()
}

#[test]
fn leaf_hash_is_the_identity() {
    assert!(LeafIdentityHasher::setup().is_ok());
    let input = vec![1u8, 2, 3, 250];
    assert_eq!(LeafIdentityHasher::evaluate(&(), &input), Ok(input.clone()));
    assert_eq!(LeafIdentityHasher::evaluate(&(), &Vec::new()), Ok(Vec::new()));
}

#[test]
fn column_hash_is_blake2s_of_the_serialized_column() {
    assert!(FieldToBytesColHasher::setup().is_ok());
    let column = vec![Fr::from_u64(1), Fr::from_u64(2), Fr::from_u64(0xffff_ffff_ffff)];
    let ark: Vec<ArkFr> =
        vec![ArkFr::from(1u64), ArkFr::from(2u64), ArkFr::from(0xffff_ffff_ffffu64)];
    let mut bytes = Vec::new();
    ark.serialize_compressed(&mut bytes).unwrap();
    let mut hasher = Blake2s256::new();
    hasher.update(&bytes);
    let expected = hasher.finalize().to_vec();
    let got = FieldToBytesColHasher::evaluate(&(), &column).unwrap();
    assert_eq!(got.len(), 32);
    assert_eq!(got, expected);
    let other = FieldToBytesColHasher::evaluate(&(), &vec![Fr::from_u64(1), Fr::from_u64(3)]);
    assert_ne!(other.unwrap(), expected);
}

#[test]
fn empty_column_hashes_to_the_digest_of_its_length_prefix() {
    let got = FieldToBytesColHasher::evaluate(&(), &Vec::new()).unwrap();
    let expected = Blake2s256::digest([0u8; 8]).to_vec();
    assert_eq!(got, expected);
}

#[test]
fn leaves_pass_into_the_tree_unchanged() {
    assert_eq!(TestMerkleTreeParams::hash_leaf(&vec![4u8, 5, 6]), vec![4u8, 5, 6]);
}

#[test]
fn inner_nodes_are_sha256_of_both_children() {
    let left = vec![7u8; 32];
    let right = vec![9u8; 32];
    let expected = <Sha256 as TwoToOneCRHScheme>::compress(&(), &left, &right).unwrap();
    assert_eq!(TestMerkleTreeParams::hash_nodes(&left, &right), expected);
    assert_ne!(TestMerkleTreeParams::hash_nodes(&right, &left), expected);
    assert_ne!(TestMerkleTreeParams::hash_nodes(&left, &right), left);
}

#[test]
fn leaf_parents_hash_the_length_prefixed_digests() {
    let left = vec![1u8, 2, 3];
    let right = vec![4u8, 5];
    let mut data = Vec::new();
    data.extend_from_slice(&3u64.to_le_bytes());
    data.extend_from_slice(&left);
    data.extend_from_slice(&2u64.to_le_bytes());
    data.extend_from_slice(&right);
    let expected = <Sha256 as CRHScheme>::evaluate(&(), data.as_slice()).unwrap();
    assert_eq!(TestMerkleTreeParams::hash_leaves(&left, &right), expected);
}

#[test]
fn byte_helpers() {
    let a = vec![1u8, 2, 3];
    assert_eq!(copy_bytes(&a), a);
    assert!(bytes_eq(&a, &vec![1, 2, 3]));
    assert!(!bytes_eq(&a, &vec![1, 2, 4]));
    assert!(!bytes_eq(&a, &vec![1, 2]));
    assert!(bytes_eq(&Vec::new(), &Vec::new()));
}

#[test]
fn powers_of_two_are_recognised() {
    assert!(!is_power_of_two(0));
    assert!(is_power_of_two(1));
    assert!(is_power_of_two(2));
    assert!(!is_power_of_two(3));
    assert!(is_power_of_two(1 << 20));
    assert!(!is_power_of_two((1 << 20) + 2));
    assert!(!is_power_of_two(12));
}

#[test]
fn tree_needs_a_power_of_two_of_leaves() {
    assert!(MerkleTree::<TestMerkleTreeParams>::new(&sample_leaves(0)).is_none());
    assert!(MerkleTree::<TestMerkleTreeParams>::new(&sample_leaves(1)).is_none());
    assert!(MerkleTree::<TestMerkleTreeParams>::new(&sample_leaves(2)).is_some());
    assert!(MerkleTree::<TestMerkleTreeParams>::new(&sample_leaves(3)).is_none());
    assert!(MerkleTree::<TestMerkleTreeParams>::new(&sample_leaves(6)).is_none());
    assert!(MerkleTree::<TestMerkleTreeParams>::new(&sample_leaves(8)).is_some());
}

#[test]
fn root_agrees_with_the_tree_of_ark() {
    for n in [2usize, 4, 8, 32] {
        let leaves = sample_leaves(n);
        let ours = MerkleTree::<TestMerkleTreeParams>::new(&leaves).unwrap();
        let theirs = ArkTree::<ArkParams>::new(&(), &(), leaves.iter()).unwrap();
        assert_eq!(ours.n_leaves(), n);
        assert_eq!(ours.root(), theirs.root());
    }
}

#[test]
fn paths_agree_with_the_tree_of_ark_and_verify() {
    let leaves = sample_leaves(16);
    let ours = MerkleTree::<TestMerkleTreeParams>::new(&leaves).unwrap();
    let theirs = ArkTree::<ArkParams>::new(&(), &(), leaves.iter()).unwrap();
    let root = ours.root();
    for i in 0..16 {
        let path = ours.generate_proof(i).unwrap();
        let ark_path = theirs.generate_proof(i).unwrap();
        assert_eq!(path.leaf_index, i);
        assert_eq!(path.leaf_sibling_hash, ark_path.leaf_sibling_hash);
        assert_eq!(path.auth_path, ark_path.auth_path);
        assert!(path.verify::<TestMerkleTreeParams>(&root, &leaves[i]));
        assert!(ark_path.verify(&(), &(), &root, leaves[i].clone()).unwrap());
        assert!(!path.verify::<TestMerkleTreeParams>(&root, &leaves[(i + 1) % 16]));
    }
    assert!(ours.generate_proof(16).is_none());
}

#[test]
fn smallest_tree_has_paths_without_inner_nodes() {
    let leaves = sample_leaves(2);
    let tree = MerkleTree::<TestMerkleTreeParams>::new(&leaves).unwrap();
    let path = tree.generate_proof(1).unwrap();
    assert!(path.auth_path.is_empty());
    assert_eq!(path.leaf_sibling_hash, leaves[0]);
    assert_eq!(tree.root(), TestMerkleTreeParams::hash_leaves(&leaves[0], &leaves[1]));
    assert!(path.verify::<TestMerkleTreeParams>(&tree.root(), &leaves[1]));
}

#[test]
fn a_changed_path_does_not_verify() {
    let leaves = sample_leaves(8);
    let tree = MerkleTree::<TestMerkleTreeParams>::new(&leaves).unwrap();
    let root = tree.root();
    let path = tree.generate_proof(5).unwrap();
    let mut wrong_index =
        MerklePath { leaf_sibling_hash: path.leaf_sibling_hash.clone(), auth_path: path.auth_path.clone(), leaf_index: 4 };
    assert!(!wrong_index.verify::<TestMerkleTreeParams>(&root, &leaves[5]));
    wrong_index.leaf_index = 5;
    assert!(wrong_index.verify::<TestMerkleTreeParams>(&root, &leaves[5]));
    let mut wrong_node = path.clone();
    wrong_node.auth_path[0][3] ^= 1;
    assert!(!wrong_node.verify::<TestMerkleTreeParams>(&root, &leaves[5]));
    let mut wrong_root = root.clone();
    wrong_root[31] ^= 0x80;
    assert!(!path.verify::<TestMerkleTreeParams>(&wrong_root, &leaves[5]));
}
