//! The properties the library stands for, proved from the public contracts:
//! the root is a function of the final key-value mapping alone, a compiled
//! proof pins the one root it can reduce to, a committed batch verifies
//! against the root the tree had before it, and deleting an absent key
//! leaves the root unchanged.

use vstd::prelude::*;
use crate::zero_digest;
use crate::hash::{blake2b_of, value_digest};
use crate::smt::{
    compute_root_of, distinct_seqs, leaves_keys, proof_binds, set_leaves, smt_root_of,
};
use crate::prover::{
    apply_staged, em_lookup, is_commit_result, is_data_with_proof_result, leaves_of_entries,
    staged_digests,
};
use crate::types::{kv_leaves, new_leaves, old_leaves, SmtUpdateData, DataWithProofData};

verus! {

/// What writing claimed leaves with distinct keys over a leaf map leaves in
/// it: each claimed key carries its claimed value digest (or nothing, for
/// the zero digest), and every other key is untouched.
pub proof fn lemma_set_leaves(m: Map<Seq<u8>, Seq<u8>>, lv: Seq<(Seq<u8>, Seq<u8>)>)
    requires
        distinct_seqs(leaves_keys(lv)),
    ensures
        forall|j: int|
            0 <= j < lv.len() ==> {
                let (k, v) = #[trigger] lv[j];
                if v == zero_digest() {
                    !set_leaves(m, lv).dom().contains(k)
                } else {
                    set_leaves(m, lv).dom().contains(k) && set_leaves(m, lv)[k] == v
                }
            },
        forall|k: Seq<u8>|
            !leaves_keys(lv).contains(k) ==> (#[trigger] set_leaves(m, lv).dom().contains(k)
                == m.dom().contains(k) && (m.dom().contains(k) ==> set_leaves(m, lv)[k] == m[k])),
    decreases lv.len(),
{
    if lv.len() > 0 {
        let prev = lv.drop_last();
        assert(leaves_keys(prev) =~= leaves_keys(lv).drop_last());
        lemma_set_leaves(m, prev);
        let kl = lv.last().0;
        assert forall|j: int| 0 <= j < lv.len() implies {
            let (k, v) = #[trigger] lv[j];
            if v == zero_digest() {
                !set_leaves(m, lv).dom().contains(k)
            } else {
                set_leaves(m, lv).dom().contains(k) && set_leaves(m, lv)[k] == v
            }
        } by {
            if j < lv.len() - 1 {
                assert(leaves_keys(lv)[j] == lv[j].0);
                assert(leaves_keys(lv)[lv.len() - 1] == kl);
                assert(lv[j].0 != kl);
                assert(prev[j] == lv[j]);
            }
        }
        assert forall|k: Seq<u8>| !leaves_keys(lv).contains(k) implies (#[trigger] set_leaves(
            m,
            lv,
        ).dom().contains(k) == m.dom().contains(k) && (m.dom().contains(k) ==> set_leaves(
            m,
            lv,
        )[k] == m[k])) by {
            assert(leaves_keys(lv)[lv.len() - 1] == kl);
            assert(k != kl);
            assert(!leaves_keys(prev).contains(k)) by {
                if leaves_keys(prev).contains(k) {
                    let j = choose|j: int|
                        0 <= j < leaves_keys(prev).len() && leaves_keys(prev)[j] == k;
                    assert(leaves_keys(lv)[j] == k);
                }
            }
            assert(set_leaves(m, prev).dom().contains(k) == m.dom().contains(k));
        }
    }
}

/// Proof soundness: a compiled proof bound to a tree state can reduce a set
/// of claims over its key set to exactly one root — the root of that state
/// carrying those claims — and to no other.
pub proof fn lemma_proof_soundness(
    p: Seq<u8>,
    m: Map<Seq<u8>, Seq<u8>>,
    ks: Set<Seq<u8>>,
    lv: Seq<(Seq<u8>, Seq<u8>)>,
    r: Seq<u8>,
)
    requires
        proof_binds(p, m, ks),
        distinct_seqs(leaves_keys(lv)),
        leaves_keys(lv).to_set() == ks,
        compute_root_of(p, lv) == Some(r),
    ensures
        r == smt_root_of(set_leaves(m, lv)),
{
    assert(compute_root_of(p, lv) == Some(smt_root_of(set_leaves(m, lv))));
}

/// Idempotent delete: removing a key that the store does not hold leaves
/// the root unchanged.
pub proof fn lemma_idempotent_delete(em: Map<Seq<u8>, Seq<u8>>, key: Seq<u8>)
    requires
        !em.dom().contains(blake2b_of(key)),
    ensures
        smt_root_of(leaves_of_entries(em.remove(blake2b_of(key)))) == smt_root_of(
            leaves_of_entries(em),
        ),
{
    assert(em.remove(blake2b_of(key)) =~= em);
}

/// Transition round trip: the update record that a commit yields verifies
/// against the root the tree had before the commit — the same compiled
/// proof reduces the old-value claims to the old root and the new-value
/// claims to the record's own new root, which is exactly what checking the
/// record (`SmtUpdate::verify_smt`) demands for its `Ok`.
pub proof fn lemma_transition_round_trip(
    em: Map<Seq<u8>, Seq<u8>>,
    staged: Seq<(Seq<u8>, Option<Seq<u8>>)>,
    u: SmtUpdateData,
)
    requires
        is_commit_result(em, staged, u),
    ensures
        compute_root_of(u.proof, old_leaves(u.changes)) == Some(
            smt_root_of(leaves_of_entries(em)),
        ),
        compute_root_of(u.proof, new_leaves(u.changes)) == Some(u.new_root),
{
    let em1 = apply_staged(em, staged);
    let m0 = leaves_of_entries(em);
    let m1 = leaves_of_entries(em1);
    let olv = old_leaves(u.changes);
    let nlv = new_leaves(u.changes);
    let ds = staged_digests(staged);
    assert(leaves_keys(olv) =~= ds);
    assert(leaves_keys(nlv) =~= ds);
    lemma_set_leaves(m1, olv);
    lemma_set_leaves(m1, nlv);
    crate::prover::lemma_apply_staged(em, staged);
    assert forall|k: Seq<u8>| !ds.contains(k) implies (#[trigger] m1.dom().contains(k)
        == m0.dom().contains(k) && (m0.dom().contains(k) ==> m1[k] == m0[k])) by {
        assert(apply_staged(em, staged).dom().contains(k) == em.dom().contains(k));
    }
    assert(set_leaves(m1, nlv) =~= m1) by {
        assert forall|k: Seq<u8>|
            set_leaves(m1, nlv).dom().contains(k) == m1.dom().contains(k) && (m1.dom().contains(k)
                ==> set_leaves(m1, nlv)[k] == m1[k]) by {
            if ds.contains(k) {
                let j = choose|j: int| 0 <= j < ds.len() && ds[j] == k;
                assert(nlv[j] == (blake2b_of(u.changes[j].key), value_digest(
                    u.changes[j].new_value,
                )));
                assert(u.changes[j].key == staged[j].0);
                assert(u.changes[j].new_value == staged[j].1);
                assert(nlv[j].0 == k);
            }
        }
    }
    assert(set_leaves(m1, olv) =~= m0) by {
        assert forall|k: Seq<u8>|
            set_leaves(m1, olv).dom().contains(k) == m0.dom().contains(k) && (m0.dom().contains(k)
                ==> set_leaves(m1, olv)[k] == m0[k]) by {
            if ds.contains(k) {
                let j = choose|j: int| 0 <= j < ds.len() && ds[j] == k;
                assert(olv[j] == (blake2b_of(u.changes[j].key), value_digest(
                    u.changes[j].old_value,
                )));
                assert(u.changes[j].key == staged[j].0);
                assert(u.changes[j].old_value == em_lookup(em, k));
                assert(olv[j].0 == k);
            }
        }
    }
}

/// A data-with-proof record as the generator yields it verifies against the
/// tree's own root: the compiled proof reduces the claimed pairs to exactly
/// that root, which is what checking the record
/// (`DataWithProof::verify_smt`) demands for its `Ok`; against any other
/// root the same computation pins the mismatch.
pub proof fn lemma_data_with_proof_verifies(
    em: Map<Seq<u8>, Seq<u8>>,
    ks: Seq<Seq<u8>>,
    d: DataWithProofData,
)
    requires
        is_data_with_proof_result(em, ks, d),
    ensures
        compute_root_of(d.proof, kv_leaves(d.data)) == Some(smt_root_of(leaves_of_entries(em))),
{
    let m = leaves_of_entries(em);
    let lv = kv_leaves(d.data);
    let ds = crate::prover::digests_of(ks);
    assert(leaves_keys(lv) =~= ds);
    lemma_set_leaves(m, lv);
    assert(set_leaves(m, lv) =~= m) by {
        assert forall|k: Seq<u8>|
            set_leaves(m, lv).dom().contains(k) == m.dom().contains(k) && (m.dom().contains(k)
                ==> set_leaves(m, lv)[k] == m[k]) by {
            if ds.contains(k) {
                let j = choose|j: int| 0 <= j < ds.len() && ds[j] == k;
                assert(lv[j] == (blake2b_of(d.data[j].key), value_digest(d.data[j].value)));
                assert(d.data[j].key == ks[j]);
                assert(d.data[j].value == em_lookup(em, k));
                assert(lv[j].0 == k);
            }
        }
    }
}

/// Completeness of the update path: a transaction that spends the record at
/// the root a commit started from, creates it at the commit's new root, and
/// attaches the commit's update record in wire form, is accepted by the
/// key-value-store validator's update check.
pub proof fn lemma_honest_update_accepted(
    tx: crate::txview::TxView,
    in_ix: int,
    out_ix: int,
    em: Map<Seq<u8>, Seq<u8>>,
    staged: Seq<(Seq<u8>, Option<Seq<u8>>)>,
    u: SmtUpdateData,
)
    requires
        is_commit_result(em, staged, u),
        crate::codec::update_wf(u),
        0 <= in_ix < tx.inputs@.len(),
        0 <= out_ix < tx.outputs@.len(),
        0 <= out_ix < tx.witnesses@.len(),
        tx.inputs@[in_ix].data@ == smt_root_of(leaves_of_entries(em)),
        tx.inputs@[in_ix].data@.len() == 32,
        tx.outputs@[out_ix].data@ == u.new_root,
        tx.witnesses@[out_ix].output_type matches Some(w) && w@ == crate::codec::enc_update(u),
    ensures
        crate::kvstore::spec_update(tx, in_ix, out_ix) == Ok::<(), crate::kvstore::Error>(()),
{
    crate::codec::lemma_update_roundtrip(u);
    lemma_transition_round_trip(em, staged, u);
}

/// Completeness of the data-check path: a spent record guarded by the
/// validator whose attached payload is a data-with-proof record from the
/// tree behind the trusted root passes its check, and the scan moves on to
/// the next position.
pub proof fn lemma_honest_data_accepted(
    tx: crate::txview::TxView,
    sh: Seq<u8>,
    root: Seq<u8>,
    i: int,
    em: Map<Seq<u8>, Seq<u8>>,
    ks: Seq<Seq<u8>>,
    d: DataWithProofData,
)
    requires
        is_data_with_proof_result(em, ks, d),
        crate::codec::dwp_wf(d),
        0 <= i < tx.inputs@.len(),
        i < tx.witnesses@.len(),
        root == smt_root_of(leaves_of_entries(em)),
        tx.witnesses@[i].lock matches Some(w) && w@ == crate::codec::enc_dwp(d),
    ensures
        crate::check_data::spec_check_witnesses(tx, sh, root, i)
            == crate::check_data::spec_check_witnesses(tx, sh, root, i + 1),
{
    crate::codec::lemma_dwp_roundtrip(d);
    lemma_data_with_proof_verifies(em, ks, d);
}

/// The value carried by the last staged write of a raw key, if the key is
/// staged at all.
pub open spec fn last_staged(staged: Seq<(Seq<u8>, Option<Seq<u8>>)>, k: Seq<u8>) -> Option<
    Option<Seq<u8>>,
>
    decreases staged.len(),
{
    if staged.len() == 0 {
        None
    } else if staged.last().0 == k {
        Some(staged.last().1)
    } else {
        last_staged(staged.drop_last(), k)
    }
}

/// The value carried by the last staged write whose key hashes to this
/// digest, if any.
pub open spec fn last_by_digest(staged: Seq<(Seq<u8>, Option<Seq<u8>>)>, d: Seq<u8>) -> Option<
    Option<Seq<u8>>,
>
    decreases staged.len(),
{
    if staged.len() == 0 {
        None
    } else if blake2b_of(staged.last().0) == d {
        Some(staged.last().1)
    } else {
        last_by_digest(staged.drop_last(), d)
    }
}

/// No two distinct raw keys of the batch share one key digest.
pub open spec fn staged_digest_injective(staged: Seq<(Seq<u8>, Option<Seq<u8>>)>) -> bool {
    forall|i: int, j: int|
        0 <= i < staged.len() && 0 <= j < staged.len() && blake2b_of((#[trigger] staged[i]).0)
            == blake2b_of((#[trigger] staged[j]).0) ==> staged[i].0 == staged[j].0
}

/// What applying a batch leaves under one digest: whatever its last write
/// carries, or what was there before if the digest is never written.
pub proof fn lemma_apply_staged_get(
    em: Map<Seq<u8>, Seq<u8>>,
    staged: Seq<(Seq<u8>, Option<Seq<u8>>)>,
    d: Seq<u8>,
)
    ensures
        match last_by_digest(staged, d) {
            None => apply_staged(em, staged).dom().contains(d) == em.dom().contains(d) && (
            em.dom().contains(d) ==> apply_staged(em, staged)[d] == em[d]),
            Some(Some(v)) => apply_staged(em, staged).dom().contains(d) && apply_staged(
                em,
                staged,
            )[d] == v,
            Some(None) => !apply_staged(em, staged).dom().contains(d),
        },
    decreases staged.len(),
{
    if staged.len() > 0 {
        lemma_apply_staged_get(em, staged.drop_last(), d);
    }
}

/// When no two staged keys share a digest, the last write under a staged
/// key's digest is the last write of that key.
pub proof fn lemma_last_by_digest(staged: Seq<(Seq<u8>, Option<Seq<u8>>)>, k: Seq<u8>)
    requires
        staged_digest_injective(staged),
        last_staged(staged, k) is Some,
    ensures
        last_by_digest(staged, blake2b_of(k)) == last_staged(staged, k),
    decreases staged.len(),
{
    if staged.len() > 0 {
        if staged.last().0 == k {
        } else {
            assert(staged_digest_injective(staged.drop_last())) by {
                assert(forall|j: int|
                    0 <= j < staged.drop_last().len() ==> #[trigger] staged.drop_last()[j]
                        == staged[j]);
            }
            if blake2b_of(staged.last().0) == blake2b_of(k) {
                let j = lemma_last_staged_witness(staged.drop_last(), k);
                assert(staged[j] == staged.drop_last()[j]);
                assert(blake2b_of((staged[staged.len() - 1]).0) == blake2b_of(
                    (staged[j]).0,
                ));
                assert(false);
            }
            lemma_last_by_digest(staged.drop_last(), k);
        }
    }
}

/// A key with a staged write occurs in the batch.
pub proof fn lemma_last_staged_witness(staged: Seq<(Seq<u8>, Option<Seq<u8>>)>, k: Seq<u8>) -> (j:
    int)
    requires
        last_staged(staged, k) is Some,
    ensures
        0 <= j < staged.len(),
        staged[j].0 == k,
    decreases staged.len(),
{
    if staged.last().0 == k {
        staged.len() - 1
    } else {
        let j = lemma_last_staged_witness(staged.drop_last(), k);
        assert(staged.drop_last()[j] == staged[j]);
        j
    }
}

/// The key whose staged write is the last one under a digest.
pub proof fn lemma_last_by_digest_key(staged: Seq<(Seq<u8>, Option<Seq<u8>>)>, d: Seq<u8>) -> (k:
    Seq<u8>)
    requires
        last_by_digest(staged, d) is Some,
    ensures
        blake2b_of(k) == d,
        last_staged(staged, k) is Some,
        staged_digest_injective(staged) ==> last_staged(staged, k) == last_by_digest(staged, d),
    decreases staged.len(),
{
    if blake2b_of(staged.last().0) == d {
        let k = staged.last().0;
        if staged_digest_injective(staged) {
            lemma_last_by_digest(staged, k);
        }
        k
    } else {
        assert(staged_digest_injective(staged) ==> staged_digest_injective(staged.drop_last()))
            by {
            assert(forall|j: int|
                0 <= j < staged.drop_last().len() ==> #[trigger] staged.drop_last()[j]
                    == staged[j]);
        }
        let k = lemma_last_by_digest_key(staged.drop_last(), d);
        assert(staged.last().0 != k);
        if staged_digest_injective(staged) {
            lemma_last_by_digest(staged, k);
        }
        k
    }
}

/// Root determinism: two batches that stage the same final value for every
/// raw key — whatever the order of the writes within them — leave the tree
/// with the same root, as long as no two distinct keys of a batch share one
/// key digest.
pub proof fn lemma_root_determinism(
    em: Map<Seq<u8>, Seq<u8>>,
    s1: Seq<(Seq<u8>, Option<Seq<u8>>)>,
    s2: Seq<(Seq<u8>, Option<Seq<u8>>)>,
)
    requires
        staged_digest_injective(s1),
        staged_digest_injective(s2),
        forall|k: Seq<u8>| last_staged(s1, k) == last_staged(s2, k),
    ensures
        smt_root_of(leaves_of_entries(apply_staged(em, s1))) == smt_root_of(
            leaves_of_entries(apply_staged(em, s2)),
        ),
{
    assert forall|d: Seq<u8>| #[trigger] last_by_digest(s1, d) == last_by_digest(s2, d) by {
        if last_by_digest(s1, d) is Some {
            let k = lemma_last_by_digest_key(s1, d);
            assert(last_staged(s2, k) == last_staged(s1, k));
            lemma_last_by_digest(s2, k);
        } else if last_by_digest(s2, d) is Some {
            let k = lemma_last_by_digest_key(s2, d);
            assert(last_staged(s1, k) == last_staged(s2, k));
            lemma_last_by_digest(s1, k);
            assert(false);
        }
    }
    assert forall|d: Seq<u8>| #[trigger]
        apply_staged(em, s1).dom().contains(d) implies apply_staged(em, s2).dom().contains(d)
        && apply_staged(em, s1)[d] == apply_staged(em, s2)[d] by {
        lemma_apply_staged_get(em, s1, d);
        lemma_apply_staged_get(em, s2, d);
        assert(last_by_digest(s1, d) == last_by_digest(s2, d));
    }
    assert forall|d: Seq<u8>| #[trigger]
        apply_staged(em, s2).dom().contains(d) implies apply_staged(em, s1).dom().contains(
        d,
    ) by {
        lemma_apply_staged_get(em, s1, d);
        lemma_apply_staged_get(em, s2, d);
        assert(last_by_digest(s1, d) == last_by_digest(s2, d));
    }
    assert(apply_staged(em, s1) =~= apply_staged(em, s2));
}

} // verus!
