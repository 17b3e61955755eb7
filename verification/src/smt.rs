//! The trusted boundary around the sparse-Merkle-tree crate.
//!
//! The tree itself is an outside structure; its contents are modelled by the
//! uninterpreted map `smt_leaves`, its root by `smt_root_of`, and root
//! recomputation from a compiled proof by `compute_root_of`. Every call into
//! the crate goes through one of the wrappers below, whose contracts state
//! what the crate's source shows.

use vstd::prelude::*;
use crate::zero_digest;

verus! {

#[verifier::external_type_specification]
#[verifier::external_body]
pub struct ExH256(sparse_merkle_tree::H256);

#[verifier::external_type_specification]
#[verifier::external_body]
pub struct ExBlake2bHasher(sparse_merkle_tree::blake2b::Blake2bHasher);

#[verifier::external_type_specification]
#[verifier::external_body]
#[verifier::reject_recursive_types(V)]
pub struct ExDefaultStore<V>(sparse_merkle_tree::default_store::DefaultStore<V>);

#[verifier::external_type_specification]
#[verifier::external_body]
#[verifier::reject_recursive_types(H)]
#[verifier::reject_recursive_types(V)]
#[verifier::reject_recursive_types(S)]
pub struct ExSparseMerkleTree<H, V, S>(sparse_merkle_tree::SparseMerkleTree<H, V, S>);

/// The tree kept by the proof generator: leaves are (key digest, value
/// digest) pairs, hashed with the crate's own blake2b configuration.
pub type Smt = sparse_merkle_tree::SparseMerkleTree<
    sparse_merkle_tree::blake2b::Blake2bHasher,
    sparse_merkle_tree::H256,
    sparse_merkle_tree::default_store::DefaultStore<sparse_merkle_tree::H256>,
>;

/// What the tree holds: a map from 32-byte key digests to the non-zero
/// 32-byte value digests stored under them.
pub uninterp spec fn smt_leaves(t: Smt) -> Map<Seq<u8>, Seq<u8>>;

/// The root that `SparseMerkleTree::root` returns for a tree holding the
/// given leaves: a function of the leaf map alone.
pub uninterp spec fn smt_root_of(m: Map<Seq<u8>, Seq<u8>>) -> Seq<u8>;

/// What `CompiledMerkleProof::compute_root` returns for the given proof bytes
/// and claimed (key digest, value digest) leaves: `None` stands for its error
/// result.
pub uninterp spec fn compute_root_of(proof: Seq<u8>, leaves: Seq<(Seq<u8>, Seq<u8>)>) -> Option<
    Seq<u8>,
>;

/// The leaf map of a tree with nothing stored in it.
pub open spec fn empty_leaves() -> Map<Seq<u8>, Seq<u8>> {
    Map::empty()
}

/// No two elements of the sequence are equal.
pub open spec fn distinct_seqs(s: Seq<Seq<u8>>) -> bool {
    forall|i: int, j: int| 0 <= i < j < s.len() ==> s[i] != s[j]
}

/// The key digests of a leaf sequence.
pub open spec fn leaves_keys(lv: Seq<(Seq<u8>, Seq<u8>)>) -> Seq<Seq<u8>> {
    lv.map_values(|p: (Seq<u8>, Seq<u8>)| p.0)
}

/// Views of a vector of 32-byte digests.
pub open spec fn key_digests(keys: Seq<[u8; 32]>) -> Seq<Seq<u8>> {
    keys.map_values(|k: [u8; 32]| k@)
}

/// Views of a vector of (key digest, value digest) pairs.
pub open spec fn leaves_view(lv: Seq<([u8; 32], [u8; 32])>) -> Seq<(Seq<u8>, Seq<u8>)> {
    lv.map_values(|p: ([u8; 32], [u8; 32])| (p.0@, p.1@))
}

/// The leaf map after the claimed leaves are written over `m`, in order: a
/// zero value digest deletes the key, any other is stored under it.
pub open spec fn set_leaves(m: Map<Seq<u8>, Seq<u8>>, lv: Seq<(Seq<u8>, Seq<u8>)>) -> Map<
    Seq<u8>,
    Seq<u8>,
>
    decreases lv.len(),
{
    if lv.len() == 0 {
        m
    } else {
        let rest = set_leaves(m, lv.drop_last());
        if lv.last().1 == zero_digest() {
            rest.remove(lv.last().0)
        } else {
            rest.insert(lv.last().0, lv.last().1)
        }
    }
}

/// The proof bytes `p` were compiled against the leaf map `m` over the key
/// set `ks`: recomputation with any claimed leaves over exactly those keys
/// reduces to the root of `m` with those leaves written over it.
pub open spec fn proof_binds(p: Seq<u8>, m: Map<Seq<u8>, Seq<u8>>, ks: Set<Seq<u8>>) -> bool {
    forall|lv: Seq<(Seq<u8>, Seq<u8>)>|
        distinct_seqs(leaves_keys(lv)) && leaves_keys(lv).to_set() == ks
            ==> #[trigger] compute_root_of(p, lv) == Some(smt_root_of(set_leaves(m, lv)))
}

/// Relies on `SparseMerkleTree::default`: a fresh tree holds no leaves.
#[verifier::external_body]
pub(crate) fn smt_new() -> (t: Smt)
    ensures
        smt_leaves(t) == empty_leaves(),
{
    Smt::default()
}

/// Relies on `SparseMerkleTree::update`: writing a non-zero value digest
/// stores it under the key digest, writing the zero digest deletes the key;
/// the root is recomputed accordingly. With `DefaultStore` the call cannot
/// fail, so the discarded result is always `Ok`.
#[verifier::external_body]
pub(crate) fn smt_update(t: &mut Smt, key: &[u8; 32], value: &[u8; 32])
    ensures
        smt_leaves(*final(t)) == (if value@ == zero_digest() {
            smt_leaves(*old(t)).remove(key@)
        } else {
            smt_leaves(*old(t)).insert(key@, value@)
        }),
{
    let k = sparse_merkle_tree::H256::from(*key);
    let v = sparse_merkle_tree::H256::from(*value);
    match t.update(k, v) {
        Ok(_) => {},
        Err(_) => {},
    }
}

/// Relies on `SparseMerkleTree::root`: the root summarizes the stored leaves
/// alone, and an empty tree's root is the zero digest.
#[verifier::external_body]
pub(crate) fn smt_root(t: &Smt) -> (r: [u8; 32])
    ensures
        r@ == smt_root_of(smt_leaves(*t)),
        smt_leaves(*t) == empty_leaves() ==> r@ == zero_digest(),
{
    let mut out = [0u8; 32];
    out.copy_from_slice(t.root().as_slice());
    out
}

/// Relies on `SparseMerkleTree::merkle_proof` and `MerkleProof::compile`: for
/// a non-empty set of distinct key digests they produce a compiled proof that
/// is specific to those keys and to the tree's current leaves, and with which
/// `compute_root` reduces any claimed leaves over exactly those keys to the
/// root of the tree carrying those claims.
#[verifier::external_body]
pub(crate) fn smt_compile_proof(t: &Smt, keys: &Vec<[u8; 32]>) -> (r: Vec<u8>)
    requires
        keys@.len() > 0,
        distinct_seqs(key_digests(keys@)),
    ensures
        proof_binds(r@, smt_leaves(*t), key_digests(keys@).to_set()),
{
    let mut hkeys: Vec<sparse_merkle_tree::H256> = Vec::new();
    let mut pairs: Vec<(sparse_merkle_tree::H256, sparse_merkle_tree::H256)> = Vec::new();
    for k in keys.iter() {
        hkeys.push(sparse_merkle_tree::H256::from(*k));
        pairs.push((sparse_merkle_tree::H256::from(*k), sparse_merkle_tree::H256::zero()));
    }
    match t.merkle_proof(hkeys) {
        Ok(p) => match p.compile(pairs) {
            Ok(cp) => cp.0,
            Err(_) => Vec::new(),
        },
        Err(_) => Vec::new(),
    }
}

/// Relies on `CompiledMerkleProof::compute_root`: the recomputed root is a
/// function of the proof bytes and the claimed leaves alone; a proof that
/// cannot be reduced yields an error, returned here as `None`.
#[verifier::external_body]
pub(crate) fn smt_compute_root(proof: &Vec<u8>, leaves: &Vec<([u8; 32], [u8; 32])>) -> (r: Option<
    [u8; 32],
>)
    ensures
        match r {
            Some(root) => compute_root_of(proof@, leaves_view(leaves@)) == Some(root@),
            None => compute_root_of(proof@, leaves_view(leaves@)) is None,
        },
{
    let cp = sparse_merkle_tree::CompiledMerkleProof(proof.clone());
    let mut lv: Vec<(sparse_merkle_tree::H256, sparse_merkle_tree::H256)> = Vec::new();
    for (k, v) in leaves.iter() {
        lv.push((sparse_merkle_tree::H256::from(*k), sparse_merkle_tree::H256::from(*v)));
    }
    match cp.compute_root::<sparse_merkle_tree::blake2b::Blake2bHasher>(lv) {
        Ok(root) => {
            let mut out = [0u8; 32];
            out.copy_from_slice(root.as_slice());
            Some(out)
        },
        Err(_) => None,
    }
}

} // verus!
