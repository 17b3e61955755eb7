//! The artifacts exchanged between the proof generator and the validators:
//! an update record (new root, per-key change triples, compiled proof) and a
//! data-with-proof record (key/value pairs, compiled proof), together with
//! the verification routines that check them against a trusted root.

use vstd::prelude::*;
use crate::digest_eq;
use crate::hash::{blake2b256, blake2b_of, opt_bytes_view, value_digest};
use crate::smt::{compute_root_of, smt_compute_root, leaves_view};

verus! {

/// One staged change: the raw key, the value it had before the change (if
/// any), and the value it has after (if any).
#[derive(Clone, Debug, PartialEq, Eq)]
pub struct SmtChange {
    pub key: Vec<u8>,
    pub old_value: Option<Vec<u8>>,
    pub new_value: Option<Vec<u8>>,
}

/// Ghost mirror of `SmtChange`.
pub ghost struct SmtChangeData {
    pub key: Seq<u8>,
    pub old_value: Option<Seq<u8>>,
    pub new_value: Option<Seq<u8>>,
}

impl View for SmtChange {
    type V = SmtChangeData;

    open spec fn view(&self) -> SmtChangeData {
        SmtChangeData {
            key: self.key@,
            old_value: opt_bytes_view(self.old_value),
            new_value: opt_bytes_view(self.new_value),
        }
    }
}

/// An update record: the root the tree has after the changes, the change
/// triples, and one compiled proof over exactly the changed keys.
#[derive(Clone, Debug, PartialEq, Eq)]
pub struct SmtUpdate {
    pub new_root: [u8; 32],
    pub changes: Vec<SmtChange>,
    pub proof: Vec<u8>,
}

/// Ghost mirror of `SmtUpdate`.
pub ghost struct SmtUpdateData {
    pub new_root: Seq<u8>,
    pub changes: Seq<SmtChangeData>,
    pub proof: Seq<u8>,
}

impl View for SmtUpdate {
    type V = SmtUpdateData;

    open spec fn view(&self) -> SmtUpdateData {
        SmtUpdateData {
            new_root: self.new_root@,
            changes: self.changes@.map_values(|c: SmtChange| c@),
            proof: self.proof@,
        }
    }
}

/// One authenticated pair: the raw key and its value (if any).
#[derive(Clone, Debug, PartialEq, Eq)]
pub struct KeyValue {
    pub key: Vec<u8>,
    pub value: Option<Vec<u8>>,
}

/// Ghost mirror of `KeyValue`.
pub ghost struct KeyValueData {
    pub key: Seq<u8>,
    pub value: Option<Seq<u8>>,
}

impl View for KeyValue {
    type V = KeyValueData;

    open spec fn view(&self) -> KeyValueData {
        KeyValueData { key: self.key@, value: opt_bytes_view(self.value) }
    }
}

/// A data-with-proof record: key/value pairs and one compiled proof over
/// exactly those keys.
#[derive(Clone, Debug, PartialEq, Eq)]
pub struct DataWithProof {
    pub data: Vec<KeyValue>,
    pub proof: Vec<u8>,
}

/// Ghost mirror of `DataWithProof`.
pub ghost struct DataWithProofData {
    pub data: Seq<KeyValueData>,
    pub proof: Seq<u8>,
}

impl View for DataWithProof {
    type V = DataWithProofData;

    open spec fn view(&self) -> DataWithProofData {
        DataWithProofData {
            data: self.data@.map_values(|kv: KeyValue| kv@),
            proof: self.proof@,
        }
    }
}

/// The leaves an update record claims the tree had before the changes.
pub open spec fn old_leaves(cs: Seq<SmtChangeData>) -> Seq<(Seq<u8>, Seq<u8>)> {
    cs.map_values(|c: SmtChangeData| (blake2b_of(c.key), value_digest(c.old_value)))
}

/// The leaves an update record claims the tree has after the changes.
pub open spec fn new_leaves(cs: Seq<SmtChangeData>) -> Seq<(Seq<u8>, Seq<u8>)> {
    cs.map_values(|c: SmtChangeData| (blake2b_of(c.key), value_digest(c.new_value)))
}

/// The leaves a data-with-proof record claims.
pub open spec fn kv_leaves(kvs: Seq<KeyValueData>) -> Seq<(Seq<u8>, Seq<u8>)> {
    kvs.map_values(|kv: KeyValueData| (blake2b_of(kv.key), value_digest(kv.value)))
}

/// How checking an update record against an old root fails.
#[derive(Clone, Copy, Debug, PartialEq, Eq, Structural)]
pub enum UpdateError {
    ComputeOldRoot,
    ComputeNewRoot,
    MismatchedOldRoot,
    MismatchedNewRoot,
}

/// The status code each update-check failure is reported as.
pub open spec fn update_error_code(e: UpdateError) -> i8 {
    match e {
        UpdateError::ComputeOldRoot => 1i8,
        UpdateError::ComputeNewRoot => 2i8,
        UpdateError::MismatchedOldRoot => 3i8,
        UpdateError::MismatchedNewRoot => 4i8,
    }
}

impl UpdateError {
    /// The status code this failure is reported as.
    pub fn error_code(&self) -> (r: i8)
        ensures
            r == update_error_code(*self),
    {
        match *self {
            UpdateError::ComputeOldRoot => 1,
            UpdateError::ComputeNewRoot => 2,
            UpdateError::MismatchedOldRoot => 3,
            UpdateError::MismatchedNewRoot => 4,
        }
    }
}

/// How checking a data-with-proof record against a root fails.
#[derive(Clone, Copy, Debug, PartialEq, Eq, Structural)]
pub enum VerifyError {
    ComputeRoot,
    MismatchedRoot,
}

/// The status code each data-check failure is reported as.
pub open spec fn verify_error_code(e: VerifyError) -> i8 {
    match e {
        VerifyError::ComputeRoot => 1i8,
        VerifyError::MismatchedRoot => 2i8,
    }
}

impl VerifyError {
    /// The status code this failure is reported as.
    pub fn error_code(&self) -> (r: i8)
        ensures
            r == verify_error_code(*self),
    {
        match *self {
            VerifyError::ComputeRoot => 1,
            VerifyError::MismatchedRoot => 2,
        }
    }
}

/// The zero digest as an exec value.
pub fn zero32() -> (r: [u8; 32])
    ensures
        r@ == crate::zero_digest(),
{
    let a = [0u8; 32];
    proof {
        assert(a@ =~= crate::zero_digest());
    }
    a
}

/// Digest of an optional value: the value's digest when present, the zero
/// digest when absent.
fn opt_value_digest(v: &Option<Vec<u8>>) -> (r: [u8; 32])
    ensures
        r@ == value_digest(opt_bytes_view(*v)),
{
    match v {
        Some(b) => blake2b256(b.as_slice()),
        None => zero32(),
    }
}

impl SmtUpdate {
    /// Checks this record against the root the tree is claimed to have had
    /// before the changes: the compiled proof must reduce the old-value
    /// claims to exactly `old_root`, and the new-value claims to exactly the
    /// record's own `new_root`.
    pub fn verify_smt(&self, old_root: &[u8; 32]) -> (r: Result<(), UpdateError>)
        ensures
            ({
                let old_c = compute_root_of(self@.proof, old_leaves(self@.changes));
                let new_c = compute_root_of(self@.proof, new_leaves(self@.changes));
                match r {
                    Ok(()) => old_c == Some(old_root@) && new_c == Some(self@.new_root),
                    Err(UpdateError::ComputeOldRoot) => old_c is None,
                    Err(UpdateError::MismatchedOldRoot) => old_c is Some && old_c != Some(
                        old_root@,
                    ),
                    Err(UpdateError::ComputeNewRoot) => old_c == Some(old_root@) && new_c is None,
                    Err(UpdateError::MismatchedNewRoot) => old_c == Some(old_root@)
                        && new_c is Some && new_c != Some(self@.new_root),
                }
            }),
    {
        let ghost cs = self@.changes;
        let mut old_lv: Vec<([u8; 32], [u8; 32])> = Vec::new();
        let mut new_lv: Vec<([u8; 32], [u8; 32])> = Vec::new();
        let mut i: usize = 0;
        while i < self.changes.len()
            invariant
                i <= cs.len(),
                cs == self@.changes,
                cs.len() == self.changes@.len(),
                old_lv@.len() == i as int,
                new_lv@.len() == i as int,
                forall|j: int|
                    0 <= j < i as int ==> (#[trigger] old_lv@[j]).0@ == blake2b_of(cs[j].key)
                        && old_lv@[j].1@ == value_digest(cs[j].old_value),
                forall|j: int|
                    0 <= j < i as int ==> (#[trigger] new_lv@[j]).0@ == blake2b_of(cs[j].key)
                        && new_lv@[j].1@ == value_digest(cs[j].new_value),
            decreases self.changes@.len() - i,
        {
            let c = &self.changes[i];
            proof {
                assert(cs[i as int] == self.changes@[i as int]@);
            }
            let kd = blake2b256(c.key.as_slice());
            let ovd = opt_value_digest(&c.old_value);
            let nvd = opt_value_digest(&c.new_value);
            old_lv.push((kd, ovd));
            new_lv.push((kd, nvd));
            i += 1;
        }
        proof {
            assert(leaves_view(old_lv@) =~= old_leaves(cs));
            assert(leaves_view(new_lv@) =~= new_leaves(cs));
        }
        match smt_compute_root(&self.proof, &old_lv) {
            None => Err(UpdateError::ComputeOldRoot),
            Some(root) => {
                if !digest_eq(&root, old_root) {
                    Err(UpdateError::MismatchedOldRoot)
                } else {
                    match smt_compute_root(&self.proof, &new_lv) {
                        None => Err(UpdateError::ComputeNewRoot),
                        Some(nroot) => {
                            if !digest_eq(&nroot, &self.new_root) {
                                Err(UpdateError::MismatchedNewRoot)
                            } else {
                                Ok(())
                            }
                        },
                    }
                }
            },
        }
    }
}

impl DataWithProof {
    /// Checks this record against a trusted root: the compiled proof must
    /// reduce the claimed key/value pairs to exactly `root`.
    pub fn verify_smt(&self, root: &[u8; 32]) -> (r: Result<(), VerifyError>)
        ensures
            ({
                let c = compute_root_of(self@.proof, kv_leaves(self@.data));
                match r {
                    Ok(()) => c == Some(root@),
                    Err(VerifyError::ComputeRoot) => c is None,
                    Err(VerifyError::MismatchedRoot) => c is Some && c != Some(root@),
                }
            }),
    {
        let ghost kvs = self@.data;
        let mut lv: Vec<([u8; 32], [u8; 32])> = Vec::new();
        let mut i: usize = 0;
        while i < self.data.len()
            invariant
                i <= kvs.len(),
                kvs == self@.data,
                kvs.len() == self.data@.len(),
                lv@.len() == i as int,
                forall|j: int|
                    0 <= j < i as int ==> (#[trigger] lv@[j]).0@ == blake2b_of(kvs[j].key)
                        && lv@[j].1@ == value_digest(kvs[j].value),
            decreases self.data@.len() - i,
        {
            let kv = &self.data[i];
            proof {
                assert(kvs[i as int] == self.data@[i as int]@);
            }
            let kd = blake2b256(kv.key.as_slice());
            let vd = opt_value_digest(&kv.value);
            lv.push((kd, vd));
            i += 1;
        }
        proof {
            assert(leaves_view(lv@) =~= kv_leaves(kvs));
        }
        match smt_compute_root(&self.proof, &lv) {
            None => Err(VerifyError::ComputeRoot),
            Some(computed) => {
                if !digest_eq(&computed, root) {
                    Err(VerifyError::MismatchedRoot)
                } else {
                    Ok(())
                }
            },
        }
    }
}

} // verus!
