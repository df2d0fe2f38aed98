//! The sparse Merkle tree behind the memory, in its two modes.
//!
//! The prover holds a real tree of the `sparse-merkle-tree` crate and can
//! snapshot it and emit compiled multi-proofs.  The verifier holds nothing
//! but the leaves a proof carried, and recomputes the root from those leaves
//! and the compiled proof on every query.  Both are reached through the
//! [`SMTOps`] trait, over which the memory is verified once.
//!
//! Both modes hash with the crate's built-in blake2b hasher, whose
//! personalization tag is the crate's own (`sparsemerkletree`), not the
//! hosting chain's native `ckb-default-hash`: a hasher of this library's
//! own would be an impl of the crate's `Hasher` trait, which cannot stand
//! in verified code.  Prover, verifier and lock all use the same hasher, so
//! the system is consistent with itself, but its roots are not
//! bit-compatible with a tree hashed under the chain-native tag.

use vstd::prelude::*;
use crate::bytes32::{lex_lt, zero32, Bytes32};
use crate::error::VmError;
use crate::kvlist::{map_of, KvList};

verus! {

#[verifier::external_type_specification]
#[verifier::external_body]
#[verifier::reject_recursive_types(H)]
#[verifier::reject_recursive_types(V)]
#[verifier::reject_recursive_types(S)]
pub struct ExSparseMerkleTree<H, V, S>(sparse_merkle_tree::SparseMerkleTree<H, V, S>);

#[verifier::external_type_specification]
#[verifier::external_body]
pub struct ExH256(sparse_merkle_tree::H256);

#[verifier::external_type_specification]
#[verifier::external_body]
pub struct ExBlake2bHasher(sparse_merkle_tree::blake2b::Blake2bHasher);

#[verifier::external_type_specification]
#[verifier::external_body]
#[verifier::reject_recursive_types(V)]
pub struct ExDefaultStore<V>(sparse_merkle_tree::default_store::DefaultStore<V>);

/// A leaf map that is total over 32-byte keys and holds 32-byte values.
pub open spec fn leaves_wf(m: Map<Seq<u8>, Seq<u8>>) -> bool {
    &&& forall|k: Seq<u8>| m.dom().contains(k) <==> k.len() == 32
    &&& forall|k: Seq<u8>| m.dom().contains(k) ==> (#[trigger] m[k]).len() == 32
}

/// The leaf map in which every key holds zeros.
pub open spec fn empty_leaves() -> Map<Seq<u8>, Seq<u8>> {
    Map::new(|k: Seq<u8>| k.len() == 32, |k: Seq<u8>| zero32())
}

/// The Merkle root determined by a leaf map.
pub uninterp spec fn smt_root_of(leaves: Map<Seq<u8>, Seq<u8>>) -> Seq<u8>;

/// The root recomputed from a set of leaves and a compiled multi-proof, or
/// nothing where the proof does not fit those leaves.
pub uninterp spec fn compiled_root_of(kvs: Map<Seq<u8>, Seq<u8>>, proof: Seq<u8>) -> Option<
    Seq<u8>,
>;

/// Whether building a compiled multi-proof for `keys` against the tree with
/// leaf map `leaves` succeeds: a function of the two alone.
pub uninterp spec fn prove_ok(leaves: Map<Seq<u8>, Seq<u8>>, keys: Set<Seq<u8>>) -> bool;

/// The entry list of a pair vector, as byte sequences.
pub open spec fn pairs_entries(pairs: Seq<(Bytes32, Bytes32)>) -> Seq<(Seq<u8>, Seq<u8>)> {
    Seq::new(pairs.len(), |i: int| (pairs[i].0@, pairs[i].1@))
}

/// A key-addressed tree of 32-byte values, zero-filled where never written.
pub trait SMTOps: Sized {
    /// The value map the tree realizes, total over 32-byte keys.
    spec fn contents(&self) -> Map<Seq<u8>, Seq<u8>>;

    /// What `root` returns, or nothing where it must fail.
    spec fn root_result(&self) -> Option<Seq<u8>>;

    /// Internal well-formedness.
    spec fn inv(&self) -> bool;

    /// A well-formed tree holds a well-formed leaf map.
    proof fn lemma_inv(&self)
        requires
            self.inv(),
        ensures
            leaves_wf(self.contents()),
    ;

    /// A fresh, all-zero tree.
    fn empty() -> (r: Self)
        ensures
            r.inv(),
            r.contents() == empty_leaves(),
    ;

    /// Write `value` under `key`.
    fn update(&mut self, key: &Bytes32, value: &Bytes32)
        requires
            old(self).inv(),
        ensures
            final(self).inv(),
            final(self).contents() == old(self).contents().insert(key@, value@),
    ;

    /// Read the value under `key`.
    fn get(&self, key: &Bytes32) -> (r: Bytes32)
        requires
            self.inv(),
        ensures
            r@ == self.contents()[key@],
    ;

    /// The Merkle root over the whole contents.
    fn root(&self) -> (r: Result<Bytes32, VmError>)
        requires
            self.inv(),
        ensures
            match r {
                Ok(b) => self.root_result() == Some(b@),
                Err(_) => self.root_result() is None,
            },
    ;
}

/// A tree that can be snapshotted and can prove a set of its leaves.
pub trait SMTProve: SMTOps {
    /// An independent copy with the same contents.
    fn snap(&self) -> (r: Self)
        requires
            self.inv(),
        ensures
            r.inv(),
            r.contents() == self.contents(),
            r.root_result() == self.root_result(),
    ;

    /// A compiled multi-proof for the given leaves against this tree's root.
    fn prove(&self, kvs: &KvList) -> (r: Result<Vec<u8>, VmError>)
        requires
            self.inv(),
            kvs.wf(),
            kvs.entries().len() > 0,
            forall|k: Seq<u8>| kvs@.dom().contains(k) ==> kvs@[k] == self.contents()[k],
        ensures
            r is Ok <==> prove_ok(self.contents(), kvs@.dom()),
            match r {
                Ok(p) => self.root_result() is Some && compiled_root_of(kvs@, p@)
                    == self.root_result(),
                Err(_) => true,
            },
    ;
}

/// The prover's tree: a `sparse-merkle-tree` over blake2b with an in-memory
/// store.
pub struct ProverSmt {
    tree: sparse_merkle_tree::SparseMerkleTree<
        sparse_merkle_tree::blake2b::Blake2bHasher,
        sparse_merkle_tree::H256,
        sparse_merkle_tree::default_store::DefaultStore<sparse_merkle_tree::H256>,
    >,
}

/// What the prover's tree holds: each 32-byte key's value, zeros where none
/// was written.
pub uninterp spec fn smt_leaves(
    t: &sparse_merkle_tree::SparseMerkleTree<
        sparse_merkle_tree::blake2b::Blake2bHasher,
        sparse_merkle_tree::H256,
        sparse_merkle_tree::default_store::DefaultStore<sparse_merkle_tree::H256>,
    >,
) -> Map<Seq<u8>, Seq<u8>>;

/// Relies on SparseMerkleTree::default: a fresh tree has every leaf zero.
#[verifier::external_body]
fn smt_tree_empty() -> (r: ProverSmt)
    ensures
        smt_leaves(&r.tree) == empty_leaves(),
{
    ProverSmt { tree: sparse_merkle_tree::SparseMerkleTree::default() }
}

/// Relies on SparseMerkleTree::update with DefaultStore, whose store
/// operations never fail: the key now holds the value and no other leaf
/// moves.
#[verifier::external_body]
fn smt_tree_update(t: &mut ProverSmt, key: &Bytes32, value: &Bytes32)
    ensures
        smt_leaves(&final(t).tree) == smt_leaves(&old(t).tree).insert(key@, value@),
{
    let k: [u8; 32] = key.to_vec().try_into().expect("key is 32 bytes");
    let v: [u8; 32] = value.to_vec().try_into().expect("value is 32 bytes");
    t.tree
        .update(sparse_merkle_tree::H256::from(k), sparse_merkle_tree::H256::from(v))
        .expect("in-memory store never fails");
}

/// Relies on SparseMerkleTree::get with DefaultStore: the stored value, or
/// zeros where none is.
#[verifier::external_body]
fn smt_tree_get(t: &ProverSmt, key: &Bytes32) -> (r: Bytes32)
    ensures
        r@ == smt_leaves(&t.tree)[key@],
{
    let k: [u8; 32] = key.to_vec().try_into().expect("key is 32 bytes");
    let v = t.tree.get(&sparse_merkle_tree::H256::from(k)).expect("in-memory store never fails");
    Bytes32::new(v.as_slice().to_vec()).expect("value is 32 bytes")
}

/// Relies on SparseMerkleTree::root: the root is a function of the leaves
/// alone.
#[verifier::external_body]
fn smt_tree_root(t: &ProverSmt) -> (r: Bytes32)
    ensures
        r@ == smt_root_of(smt_leaves(&t.tree)),
{
    Bytes32::new(t.tree.root().as_slice().to_vec()).expect("root is 32 bytes")
}

/// Relies on SparseMerkleTree::new, SparseMerkleTree::store and
/// DefaultStore::clone: a tree rebuilt from the same root and a copy of the
/// store has the same leaves.
#[verifier::external_body]
fn smt_tree_snap(t: &ProverSmt) -> (r: ProverSmt)
    ensures
        smt_leaves(&r.tree) == smt_leaves(&t.tree),
{
    ProverSmt {
        tree: sparse_merkle_tree::SparseMerkleTree::new(*t.tree.root(), t.tree.store().clone()),
    }
}

/// Relies on SparseMerkleTree::merkle_proof and MerkleProof::compile: the
/// compiled proof, evaluated over exactly the given leaves, recomputes this
/// tree's root, and whether the construction succeeds is a function of the
/// leaves and the keys alone.
#[verifier::external_body]
fn smt_tree_prove(t: &ProverSmt, pairs: &Vec<(Bytes32, Bytes32)>) -> (r: Result<Vec<u8>, VmError>)
    requires
        pairs@.len() > 0,
        forall|p: int, q: int|
            0 <= p < q < pairs@.len() ==> lex_lt(pairs@[p].0@, pairs@[q].0@),
        forall|i: int|
            0 <= i < pairs@.len() ==> (#[trigger] pairs@[i]).1@ == smt_leaves(
                &t.tree,
            )[pairs@[i].0@],
    ensures
        r is Ok <==> prove_ok(smt_leaves(&t.tree), map_of(pairs_entries(pairs@)).dom()),
        match r {
            Ok(p) => compiled_root_of(map_of(pairs_entries(pairs@)), p@) == Some(
                smt_root_of(smt_leaves(&t.tree)),
            ),
            Err(_) => true,
        },
{
    let leaves: Vec<(sparse_merkle_tree::H256, sparse_merkle_tree::H256)> = pairs
        .iter()
        .map(|(k, v)| {
            let a: [u8; 32] = k.to_vec().try_into().expect("key");
            let b: [u8; 32] = v.to_vec().try_into().expect("value");
            (a.into(), b.into())
        })
        .collect();
    let keys: Vec<sparse_merkle_tree::H256> = leaves.iter().map(|(k, _v)| *k).collect();
    let proof = t.tree.merkle_proof(keys).map_err(|_e| VmError::SmtError)?;
    Ok(proof.compile(leaves).map_err(|_e| VmError::SmtError)?.0)
}

/// Relies on CompiledMerkleProof::compute_root over blake2b: the recomputed
/// root is a function of the leaves and the proof bytes alone.
#[verifier::external_body]
fn compiled_merkle_root(pairs: &Vec<(Bytes32, Bytes32)>, proof: &Vec<u8>) -> (r: Option<Bytes32>)
    requires
        forall|p: int, q: int|
            0 <= p < q < pairs@.len() ==> lex_lt(pairs@[p].0@, pairs@[q].0@),
    ensures
        match (r, compiled_root_of(map_of(pairs_entries(pairs@)), proof@)) {
            (Some(b), Some(s)) => b@ == s,
            (None, None) => true,
            _ => false,
        },
{
    let leaves: Vec<(sparse_merkle_tree::H256, sparse_merkle_tree::H256)> = pairs
        .iter()
        .map(|(k, v)| {
            let a: [u8; 32] = k.to_vec().try_into().expect("key");
            let b: [u8; 32] = v.to_vec().try_into().expect("value");
            (a.into(), b.into())
        })
        .collect();
    let compiled = sparse_merkle_tree::CompiledMerkleProof(proof.clone());
    match compiled.compute_root::<sparse_merkle_tree::blake2b::Blake2bHasher>(leaves) {
        Ok(root) => Some(Bytes32::new(root.as_slice().to_vec()).expect("root")),
        Err(_) => None,
    }
}

impl SMTOps for ProverSmt {
    closed spec fn contents(&self) -> Map<Seq<u8>, Seq<u8>> {
        smt_leaves(&self.tree)
    }

    closed spec fn root_result(&self) -> Option<Seq<u8>> {
        Some(smt_root_of(smt_leaves(&self.tree)))
    }

    closed spec fn inv(&self) -> bool {
        leaves_wf(smt_leaves(&self.tree))
    }

    proof fn lemma_inv(&self) {
    }

    fn empty() -> (r: Self) {
        let r = smt_tree_empty();
        assert(leaves_wf(empty_leaves()));
        r
    }

    fn update(&mut self, key: &Bytes32, value: &Bytes32) {
        proof {
            use_type_invariant(key);
            use_type_invariant(value);
        }
        smt_tree_update(self, key, value);
        proof {
            let m0 = smt_leaves(&old(self).tree);
            let m1 = smt_leaves(&self.tree);
            assert forall|k: Seq<u8>| m1.dom().contains(k) <==> k.len() == 32 by {
                assert(m1.dom() == m0.dom().insert(key@));
            }
            assert forall|k: Seq<u8>| m1.dom().contains(k) implies (#[trigger] m1[k]).len()
                == 32 by {}
        }
    }

    fn get(&self, key: &Bytes32) -> (r: Bytes32) {
        smt_tree_get(self, key)
    }

    fn root(&self) -> (r: Result<Bytes32, VmError>) {
        Ok(smt_tree_root(self))
    }
}

impl SMTProve for ProverSmt {
    fn snap(&self) -> (r: Self) {
        smt_tree_snap(self)
    }

    fn prove(&self, kvs: &KvList) -> (r: Result<Vec<u8>, VmError>) {
        let pairs = kvs.to_pairs();
        proof {
            assert(pairs_entries(pairs@) =~= kvs.entries());
            assert(map_of(pairs_entries(pairs@)) == kvs@);
            kvs.lemma_keys_distinct();
            assert forall|i: int| 0 <= i < pairs@.len() implies (#[trigger] pairs@[i]).1@
                == self.contents()[pairs@[i].0@] by {
                crate::kvlist::lemma_map_of_index(kvs.entries(), i);
            }
        }
        smt_tree_prove(self, &pairs)
    }
}

/// The verifier's tree: the leaves a proof carried, with the compiled proof
/// to recompute the root from them.
pub struct VerifierSmt {
    kvs: KvList,
    proof: Vec<u8>,
}

impl VerifierSmt {
    /// Rebuild a tree from proven leaves.  It succeeds exactly when the
    /// compiled proof recomputes the claimed root from those leaves.
    pub fn from_parts(kvs: KvList, root: &Bytes32, proof: Vec<u8>) -> (r: Result<
        VerifierSmt,
        VmError,
    >)
        requires
            kvs.wf(),
        ensures
            match r {
                Ok(smt) => compiled_root_of(kvs@, proof@) == Some(root@) && smt.inv()
                    && smt.contents() == restored_leaves(kvs@) && smt.root_result() == Some(
                    root@,
                ),
                Err(_) => compiled_root_of(kvs@, proof@) != Some(root@),
            },
    {
        let pairs = kvs.to_pairs();
        proof {
            assert(pairs_entries(pairs@) =~= kvs.entries());
        }
        match compiled_merkle_root(&pairs, &proof) {
            Some(computed) => {
                if computed.eq(root) {
                    Ok(VerifierSmt { kvs, proof })
                } else {
                    Err(VmError::SmtError)
                }
            },
            None => Err(VmError::SmtError),
        }
    }
}

/// The total leaf map described by a set of restored leaves: zeros wherever
/// the proof carried no entry.
pub open spec fn restored_leaves(kvs: Map<Seq<u8>, Seq<u8>>) -> Map<Seq<u8>, Seq<u8>> {
    Map::new(
        |k: Seq<u8>| k.len() == 32,
        |k: Seq<u8>|
            if kvs.dom().contains(k) {
                kvs[k]
            } else {
                zero32()
            },
    )
}

impl SMTOps for VerifierSmt {
    closed spec fn contents(&self) -> Map<Seq<u8>, Seq<u8>> {
        restored_leaves(self.kvs@)
    }

    closed spec fn root_result(&self) -> Option<Seq<u8>> {
        compiled_root_of(self.kvs@, self.proof@)
    }

    closed spec fn inv(&self) -> bool {
        self.kvs.wf()
    }

    proof fn lemma_inv(&self) {
        assert forall|k: Seq<u8>|
            restored_leaves(self.kvs@).dom().contains(k) implies (#[trigger] restored_leaves(
            self.kvs@,
        )[k]).len() == 32 by {
            if self.kvs@.dom().contains(k) {
                crate::kvlist::lemma_map_of_dom(self.kvs.entries(), k);
                let i = choose|i: int|
                    0 <= i < self.kvs.entries().len() && self.kvs.entries()[i].0 == k;
                self.kvs.lemma_keys_distinct();
                crate::kvlist::lemma_map_of_index(self.kvs.entries(), i);
            }
        }
    }

    fn empty() -> (r: Self) {
        let r = VerifierSmt { kvs: KvList::new(), proof: Vec::new() };
        assert(r.contents() =~= empty_leaves());
        r
    }

    fn update(&mut self, key: &Bytes32, value: &Bytes32) {
        proof {
            use_type_invariant(key);
            use_type_invariant(value);
        }
        self.kvs.insert(key.clone(), value.clone());
        assert(self.contents() =~= old(self).contents().insert(key@, value@));
    }

    fn get(&self, key: &Bytes32) -> (r: Bytes32) {
        proof {
            use_type_invariant(key);
        }
        match self.kvs.get(key) {
            Some(v) => v,
            None => Bytes32::zero(),
        }
    }

    fn root(&self) -> (r: Result<Bytes32, VmError>) {
        let pairs = self.kvs.to_pairs();
        proof {
            assert(pairs_entries(pairs@) =~= self.kvs.entries());
        }
        match compiled_merkle_root(&pairs, &self.proof) {
            Some(b) => Ok(b),
            None => Err(VmError::SmtError),
        }
    }
}

} // verus!
