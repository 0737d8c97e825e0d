//! The hash functions of the engine: the leaf hash, the two-to-one hash of
//! the inner nodes, and the hash that turns a column of field elements into
//! a leaf. The digests themselves are computed by `sha2`, through
//! `ark-crypto-primitives`, and by `blake2`.

use crate::algebra::vals;
use crate::error::Error;
use crate::field::{check_canonical, modulus, Fr};
use ark_bls12_381::Fr as ArkFr;
use ark_crypto_primitives::crh::sha256::Sha256;
use ark_crypto_primitives::crh::TwoToOneCRHScheme;
use ark_crypto_primitives::merkle_tree::{ByteDigestConverter, DigestConverter};
use ark_ff::{BigInt, PrimeField};
use ark_serialize::CanonicalSerialize;
use blake2::Blake2s256;
use digest::Digest;
use vstd::prelude::*;

verus! {

/// The SHA-256 digest of a byte string.
pub uninterp spec fn sha256(data: Seq<u8>) -> Seq<u8>;

/// The BLAKE2s-256 digest of a byte string.
pub uninterp spec fn blake2s256(data: Seq<u8>) -> Seq<u8>;

/// The compressed canonical serialization, by `ark-serialize`, of a vector
/// of field elements given by their values.
pub uninterp spec fn canonical_bytes(elems: Seq<int>) -> Seq<u8>;

/// The bytes that `ByteDigestConverter` of `ark-crypto-primitives` makes of
/// a leaf digest before it enters the two-to-one hash.
pub uninterp spec fn digest_bytes(digest: Seq<u8>) -> Seq<u8>;

/// `TwoToOneCRHScheme::evaluate` of `ark-crypto-primitives` for `Sha256`:
/// the SHA-256 digest of the left input followed by the right input.
#[verifier::external_body]
pub(crate) fn sha256_two_to_one(left: &Vec<u8>, right: &Vec<u8>) -> (d: Vec<u8>)
    ensures
        d@ == sha256(left@ + right@),
{
    <Sha256 as TwoToOneCRHScheme>::evaluate(&(), left.as_slice(), right.as_slice()).unwrap()
}

/// `Digest::new`, `update` and `finalize` of `digest` for `Blake2s256`: the
/// BLAKE2s-256 digest of the bytes.
#[verifier::external_body]
pub(crate) fn blake2s256_digest(data: &Vec<u8>) -> (d: Vec<u8>)
    ensures
        d@ == blake2s256(data@),
{
    let mut hasher = Blake2s256::new();
    hasher.update(data);
    hasher.finalize().to_vec()
}

/// `CanonicalSerialize::serialize_compressed` of `ark-serialize` for a
/// vector of field elements: its result depends on the elements' values
/// alone.
#[verifier::external_body]
pub(crate) fn serialize_elements(v: &Vec<Fr>) -> (b: Vec<u8>)
    requires
        forall|i: int| 0 <= i < v.len() ==> 0 <= (#[trigger] v[i])@ < modulus(),
    ensures
        b@ == canonical_bytes(vals(v@)),
{
    let elems: Vec<ArkFr> = v.iter().map(
        |x| ArkFr::from_bigint(BigInt::new(x.to_limbs())).unwrap(),
    ).collect();
    let mut b = Vec::new();
    elems.serialize_compressed(&mut b).unwrap();
    b
}

/// `DigestConverter::convert` of `ByteDigestConverter`: its result depends
/// on the digest alone.
#[verifier::external_body]
pub(crate) fn leaf_digest_to_bytes(digest: &Vec<u8>) -> (b: Vec<u8>)
    ensures
        b@ == digest_bytes(digest@),
{
    <ByteDigestConverter<Vec<u8>> as DigestConverter<Vec<u8>, [u8]>>::convert(
        digest.clone(),
    ).unwrap()
}

/// A copy of a byte string.
pub fn copy_bytes(v: &Vec<u8>) -> (r: Vec<u8>)
    ensures
        r@ == v@,
{
    let mut r: Vec<u8> = Vec::new();
    let mut i: usize = 0;
    while i < v.len()
        invariant
            i <= v.len(),
            r.len() == i,
            forall|k: int| 0 <= k < i ==> r[k] == v[k],
        decreases v.len() - i,
    {
        r.push(v[i]);
        i += 1;
    }
    proof {
        assert(r@ =~= v@);
    }
    r
}

/// Whether two byte strings are the same.
pub fn bytes_eq(a: &Vec<u8>, b: &Vec<u8>) -> (r: bool)
    ensures
        r <==> a@ == b@,
{
    if a.len() != b.len() {
        return false;
    }
    let mut i: usize = 0;
    while i < a.len()
        invariant
            i <= a.len(),
            a.len() == b.len(),
            forall|k: int| 0 <= k < i ==> a[k] == b[k],
        decreases a.len() - i,
    {
        if a[i] != b[i] {
            return false;
        }
        i += 1;
    }
    proof {
        assert(a@ =~= b@);
    }
    true
}

/// The leaf hash that hands its input on unchanged.
pub struct LeafIdentityHasher;

impl LeafIdentityHasher {
    /// What the hash makes of a leaf.
    pub open spec fn digest(input: Seq<u8>) -> Seq<u8> {
        input
    }

    /// The hash has no parameters.
    pub fn setup() -> (r: Result<(), Error>)
        ensures
            r.is_ok(),
    {
        Ok(())
    }

    pub fn evaluate(_parameters: &(), input: &Vec<u8>) -> (r: Result<Vec<u8>, Error>)
        ensures
            r.is_ok(),
            r.unwrap()@ == Self::digest(input@),
    {
        Ok(copy_bytes(input))
    }
}

/// The column hash: the BLAKE2s-256 digest of the serialized column.
pub struct FieldToBytesColHasher;

impl FieldToBytesColHasher {
    /// What the hash makes of a column with the given values.
    pub open spec fn digest(column: Seq<int>) -> Seq<u8> {
        blake2s256(canonical_bytes(column))
    }

    /// The hash has no parameters.
    pub fn setup() -> (r: Result<(), Error>)
        ensures
            r.is_ok(),
    {
        Ok(())
    }

    pub fn evaluate(_parameters: &(), input: &Vec<Fr>) -> (r: Result<Vec<u8>, Error>)
        ensures
            r.is_ok(),
            r.unwrap()@ == Self::digest(vals(input@)),
    {
        check_canonical(input);
        let bytes = serialize_elements(input);
        Ok(blake2s256_digest(&bytes))
    }
}

/// The hashes of a Merkle tree: the hash of a leaf, the hash that
/// compresses two leaf digests into their parent, and the hash that
/// compresses two inner nodes into their parent.
pub trait MerkleConfig {
    /// The digest of a leaf.
    spec fn leaf_digest(leaf: Seq<u8>) -> Seq<u8>;

    /// The parent of two leaf digests.
    spec fn leaf_parent(left: Seq<u8>, right: Seq<u8>) -> Seq<u8>;

    /// The parent of two inner nodes.
    spec fn node_parent(left: Seq<u8>, right: Seq<u8>) -> Seq<u8>;

    /// The digest of a leaf.
    fn hash_leaf(leaf: &Vec<u8>) -> (digest: Vec<u8>)
        ensures
            digest@ == Self::leaf_digest(leaf@),
    ;

    /// The parent of two leaf digests.
    fn hash_leaves(left: &Vec<u8>, right: &Vec<u8>) -> (parent: Vec<u8>)
        ensures
            parent@ == Self::leaf_parent(left@, right@),
    ;

    /// The parent of two inner nodes.
    fn hash_nodes(left: &Vec<u8>, right: &Vec<u8>) -> (parent: Vec<u8>)
        ensures
            parent@ == Self::node_parent(left@, right@),
    ;
}

/// The hashes of the trees of this engine: leaves pass through
/// `LeafIdentityHasher`, leaf digests are turned into bytes, and two
/// children are compressed into their parent with SHA-256.
#[derive(Clone, Copy, Debug)]
pub struct TestMerkleTreeParams;

impl MerkleConfig for TestMerkleTreeParams {
    open spec fn leaf_digest(leaf: Seq<u8>) -> Seq<u8> {
        LeafIdentityHasher::digest(leaf)
    }

    open spec fn leaf_parent(left: Seq<u8>, right: Seq<u8>) -> Seq<u8> {
        sha256(digest_bytes(left) + digest_bytes(right))
    }

    open spec fn node_parent(left: Seq<u8>, right: Seq<u8>) -> Seq<u8> {
        sha256(left + right)
    }

    fn hash_leaf(leaf: &Vec<u8>) -> (digest: Vec<u8>) {
        LeafIdentityHasher::evaluate(&(), leaf).unwrap()
    }

    fn hash_leaves(left: &Vec<u8>, right: &Vec<u8>) -> (parent: Vec<u8>) {
        let lb = leaf_digest_to_bytes(left);
        let rb = leaf_digest_to_bytes(right);
        sha256_two_to_one(&lb, &rb)
    }

    fn hash_nodes(left: &Vec<u8>, right: &Vec<u8>) -> (parent: Vec<u8>) {
        sha256_two_to_one(left, right)
    }
}

} // verus!
