//! The proof generator: holds the full tree (digest leaves in the outside
//! sparse Merkle tree, raw values beside it), stages change batches, and
//! produces the update and data-with-proof records the validators later
//! check.

use vstd::prelude::*;
use vstd::slice::slice_to_vec;
use crate::{digest_eq, bytes_eq, zero_digest};
use crate::hash::{blake2b256, blake2b_of, opt_bytes_view};
use crate::smt::{
    distinct_seqs, empty_leaves, key_digests, proof_binds, smt_compile_proof, smt_leaves, smt_new,
    smt_root, smt_root_of, smt_update, Smt,
};
use crate::types::{zero32, SmtChange, SmtUpdate, DataWithProof, KeyValue};

verus! {

/// How proof generation fails. The backing store cannot fail, so all that is
/// left are batches over which no proof can be compiled.
#[derive(Debug)]
pub enum GeneratorError {
    /// A proof was requested over no keys at all.
    EmptyKeys,
    /// Two distinct keys in the batch share one key digest; a compiled proof
    /// over them would be meaningless.
    CollidingKeyDigests,
    /// A failure reported by a caller that embeds this error type.
    Other(String),
}

impl GeneratorError {
    /// Wraps a caller-supplied message.
    pub fn other(arg: String) -> Self {
        GeneratorError::Other(arg)
    }
}

/// The key digests of an entry list.
pub open spec fn entry_keys(es: Seq<([u8; 32], Vec<u8>)>) -> Seq<Seq<u8>> {
    es.map_values(|e: ([u8; 32], Vec<u8>)| e.0@)
}

/// The map an entry list stands for: key digest to raw value bytes.
pub open spec fn entries_map_of(es: Seq<([u8; 32], Vec<u8>)>) -> Map<Seq<u8>, Seq<u8>>
    decreases es.len(),
{
    if es.len() == 0 {
        Map::empty()
    } else {
        entries_map_of(es.drop_last()).insert(es.last().0@, es.last().1@)
    }
}

/// Some entry of the list carries this key digest.
pub open spec fn has_entry_key(es: Seq<([u8; 32], Vec<u8>)>, k: Seq<u8>) -> bool {
    exists|j: int| 0 <= j < es.len() && (#[trigger] es[j]).0@ == k
}

/// The raw keys of a staged change list.
pub open spec fn change_keys(chs: Seq<(Vec<u8>, Option<Vec<u8>>)>) -> Seq<Seq<u8>> {
    chs.map_values(|c: (Vec<u8>, Option<Vec<u8>>)| c.0@)
}

/// Some staged change carries this raw key.
pub open spec fn has_change_key(chs: Seq<(Vec<u8>, Option<Vec<u8>>)>, k: Seq<u8>) -> bool {
    exists|j: int| 0 <= j < chs.len() && (#[trigger] chs[j]).0@ == k
}

/// The map a staged change list stands for: raw key to pending value.
pub open spec fn changes_map_of(chs: Seq<(Vec<u8>, Option<Vec<u8>>)>) -> Map<
    Seq<u8>,
    Option<Seq<u8>>,
>
    decreases chs.len(),
{
    if chs.len() == 0 {
        Map::empty()
    } else {
        changes_map_of(chs.drop_last()).insert(
            chs.last().0@,
            opt_bytes_view(chs.last().1),
        )
    }
}

/// The tree leaves that a key-digest-to-raw-value map induces: each value
/// appears under its key digest as its own digest, except values whose
/// digest is the zero digest, which the tree cannot distinguish from
/// absence.
pub open spec fn leaves_of_entries(em: Map<Seq<u8>, Seq<u8>>) -> Map<Seq<u8>, Seq<u8>> {
    Map::new(
        |k: Seq<u8>| em.dom().contains(k) && blake2b_of(em[k]) != zero_digest(),
        |k: Seq<u8>| blake2b_of(em[k]),
    )
}

/// The value the map holds under a key, if any.
pub open spec fn em_lookup(em: Map<Seq<u8>, Seq<u8>>, k: Seq<u8>) -> Option<Seq<u8>> {
    if em.dom().contains(k) {
        Some(em[k])
    } else {
        None
    }
}

/// What an entry list's map holds: exactly the listed keys, and under each
/// key of a duplicate-free list, the listed value.
pub proof fn lemma_entries_map_of(es: Seq<([u8; 32], Vec<u8>)>)
    ensures
        forall|k: Seq<u8>|
            #[trigger] entries_map_of(es).dom().contains(k) <==> has_entry_key(es, k),
        distinct_seqs(entry_keys(es)) ==> forall|j: int|
            0 <= j < es.len() ==> entries_map_of(es)[(#[trigger] es[j]).0@] == es[j].1@,
    decreases es.len(),
{
    if es.len() > 0 {
        lemma_entries_map_of(es.drop_last());
        assert(entry_keys(es.drop_last()) =~= entry_keys(es).drop_last());
        assert forall|k: Seq<u8>| #[trigger]
            entries_map_of(es).dom().contains(k) implies has_entry_key(es, k) by {
            if k == es.last().0@ {
                assert((es[es.len() - 1]).0@ == k);
            } else {
                assert(entries_map_of(es.drop_last()).dom().contains(k));
                assert(has_entry_key(es.drop_last(), k));
                let j = choose|j: int|
                    0 <= j < es.drop_last().len() && (#[trigger] es.drop_last()[j]).0@ == k;
                assert(es.drop_last()[j] == es[j]);
                assert((es[j]).0@ == k);
            }
        }
        assert forall|k: Seq<u8>| has_entry_key(es, k) implies #[trigger]
            entries_map_of(es).dom().contains(k) by {
            let j = choose|j: int| 0 <= j < es.len() && (#[trigger] es[j]).0@ == k;
            if j < es.len() - 1 {
                assert((es.drop_last()[j]).0@ == k);
                assert(has_entry_key(es.drop_last(), k));
                assert(entries_map_of(es.drop_last()).dom().contains(k));
            }
        }
        if distinct_seqs(entry_keys(es)) {
            assert(distinct_seqs(entry_keys(es.drop_last())));
            assert forall|j: int| 0 <= j < es.len() implies entries_map_of(es)[(
            #[trigger] es[j]).0@] == es[j].1@ by {
                if j < es.len() - 1 {
                    assert(entry_keys(es)[j] == es[j].0@);
                    assert(entry_keys(es)[es.len() - 1] == es.last().0@);
                    assert(es[j].0@ != es.last().0@);
                    assert(es.drop_last()[j] == es[j]);
                }
            }
        }
    }
}

/// What a staged change list's map holds, in the same way.
pub proof fn lemma_changes_map_of(chs: Seq<(Vec<u8>, Option<Vec<u8>>)>)
    ensures
        forall|k: Seq<u8>|
            #[trigger] changes_map_of(chs).dom().contains(k) <==> has_change_key(chs, k),
        distinct_seqs(change_keys(chs)) ==> forall|j: int|
            0 <= j < chs.len() ==> changes_map_of(chs)[(#[trigger] chs[j]).0@]
                == opt_bytes_view(chs[j].1),
    decreases chs.len(),
{
    if chs.len() > 0 {
        lemma_changes_map_of(chs.drop_last());
        assert(change_keys(chs.drop_last()) =~= change_keys(chs).drop_last());
        assert forall|k: Seq<u8>| #[trigger]
            changes_map_of(chs).dom().contains(k) implies has_change_key(chs, k) by {
            if k == chs.last().0@ {
                assert((chs[chs.len() - 1]).0@ == k);
            } else {
                assert(changes_map_of(chs.drop_last()).dom().contains(k));
                assert(has_change_key(chs.drop_last(), k));
                let j = choose|j: int|
                    0 <= j < chs.drop_last().len() && (#[trigger] chs.drop_last()[j]).0@ == k;
                assert(chs.drop_last()[j] == chs[j]);
                assert((chs[j]).0@ == k);
            }
        }
        assert forall|k: Seq<u8>| has_change_key(chs, k) implies #[trigger]
            changes_map_of(chs).dom().contains(k) by {
            let j = choose|j: int| 0 <= j < chs.len() && (#[trigger] chs[j]).0@ == k;
            if j < chs.len() - 1 {
                assert((chs.drop_last()[j]).0@ == k);
                assert(has_change_key(chs.drop_last(), k));
                assert(changes_map_of(chs.drop_last()).dom().contains(k));
            }
        }
        if distinct_seqs(change_keys(chs)) {
            assert forall|j: int| 0 <= j < chs.len() implies changes_map_of(chs)[(
            #[trigger] chs[j]).0@] == opt_bytes_view(chs[j].1) by {
                if j < chs.len() - 1 {
                    assert(change_keys(chs)[j] == chs[j].0@);
                    assert(change_keys(chs)[chs.len() - 1] == chs.last().0@);
                    assert(chs.drop_last()[j] == chs[j]);
                }
            }
        }
    }
}

/// Position of the entry carrying this key digest, if any.
fn find_entry(entries: &Vec<([u8; 32], Vec<u8>)>, kd: &[u8; 32]) -> (r: Option<usize>)
    ensures
        match r {
            Some(ix) => ix < entries@.len() && entries@[ix as int].0@ == kd@,
            None => forall|j: int| 0 <= j < entries@.len() ==> (#[trigger] entries@[j]).0@ != kd@,
        },
{
    let mut i: usize = 0;
    while i < entries.len()
        invariant
            i <= entries@.len(),
            forall|j: int| 0 <= j < i as int ==> (#[trigger] entries@[j]).0@ != kd@,
        decreases entries@.len() - i,
    {
        if digest_eq(&entries[i].0, kd) {
            return Some(i);
        }
        i += 1;
    }
    None
}

/// Position of the staged change carrying this raw key, if any.
fn find_change(chs: &Vec<(Vec<u8>, Option<Vec<u8>>)>, key: &[u8]) -> (r: Option<usize>)
    ensures
        match r {
            Some(ix) => ix < chs@.len() && chs@[ix as int].0@ == key@,
            None => forall|j: int| 0 <= j < chs@.len() ==> (#[trigger] chs@[j]).0@ != key@,
        },
{
    let mut i: usize = 0;
    while i < chs.len()
        invariant
            i <= chs@.len(),
            forall|j: int| 0 <= j < i as int ==> (#[trigger] chs@[j]).0@ != key@,
        decreases chs@.len() - i,
    {
        if bytes_eq(chs[i].0.as_slice(), key) {
            return Some(i);
        }
        i += 1;
    }
    None
}

/// Stores a value under a key digest, replacing any entry already there.
fn set_entry(entries: &mut Vec<([u8; 32], Vec<u8>)>, kd: [u8; 32], v: Vec<u8>)
    requires
        distinct_seqs(entry_keys(old(entries)@)),
    ensures
        distinct_seqs(entry_keys(final(entries)@)),
        entries_map_of(final(entries)@) == entries_map_of(old(entries)@).insert(kd@, v@),
{
    let ghost es0 = entries@;
    match find_entry(entries, &kd) {
        Some(ix) => {
            entries[ix] = (kd, v);
            proof {
                let es1 = entries@;
                assert(entry_keys(es1) =~= entry_keys(es0));
                lemma_entries_map_of(es0);
                lemma_entries_map_of(es1);
                assert forall|k: Seq<u8>| has_entry_key(es1, k) implies has_entry_key(es0, k) by {
                    let j = choose|j: int| 0 <= j < es1.len() && (#[trigger] es1[j]).0@ == k;
                    assert((es0[j]).0@ == k);
                }
                assert forall|k: Seq<u8>| has_entry_key(es0, k) implies has_entry_key(es1, k) by {
                    let j = choose|j: int| 0 <= j < es0.len() && (#[trigger] es0[j]).0@ == k;
                    assert((es1[j]).0@ == k);
                }
                assert(has_entry_key(es0, kd@)) by {
                    assert((es0[ix as int]).0@ == kd@);
                }
                assert forall|k: Seq<u8>|
                    entries_map_of(es1).dom().contains(k) implies #[trigger] entries_map_of(
                    es1,
                )[k] == entries_map_of(es0).insert(kd@, v@)[k] by {
                    let j = choose|j: int| 0 <= j < es1.len() && (#[trigger] es1[j]).0@ == k;
                    if k == kd@ {
                        assert(entry_keys(es1)[j] == k);
                        assert(entry_keys(es1)[ix as int] == kd@);
                        assert(j == ix as int);
                        assert(entries_map_of(es1)[k] == v@);
                    } else {
                        assert(j != ix as int);
                        assert(es1[j] == es0[j]);
                        assert(entries_map_of(es1)[k] == es1[j].1@);
                        assert(entries_map_of(es0)[(es0[j]).0@] == es0[j].1@);
                    }
                }
                assert(entries_map_of(es1) =~= entries_map_of(es0).insert(kd@, v@));
            }
        },
        None => {
            entries.push((kd, v));
            proof {
                let es1 = entries@;
                assert(es1.drop_last() =~= es0);
                assert(distinct_seqs(entry_keys(es1))) by {
                    assert forall|i: int, j: int|
                        0 <= i < j < entry_keys(es1).len() implies entry_keys(es1)[i]
                        != entry_keys(es1)[j] by {
                        if j == es1.len() - 1 {
                            assert((es0[i]).0@ != kd@);
                            assert(entry_keys(es1)[i] == es0[i].0@);
                        } else {
                            assert(entry_keys(es0)[i] != entry_keys(es0)[j]);
                        }
                    }
                }
            }
        },
    }
}

/// Removes the entry under a key digest, if any.
fn remove_entry(entries: &mut Vec<([u8; 32], Vec<u8>)>, kd: &[u8; 32])
    requires
        distinct_seqs(entry_keys(old(entries)@)),
    ensures
        distinct_seqs(entry_keys(final(entries)@)),
        entries_map_of(final(entries)@) == entries_map_of(old(entries)@).remove(kd@),
{
    let ghost es0 = entries@;
    match find_entry(entries, kd) {
        Some(ix) => {
            let _ = entries.swap_remove(ix);
            proof {
                let es1 = entries@;
                lemma_entries_map_of(es0);
                lemma_entries_map_of(es1);
                assert(distinct_seqs(entry_keys(es1))) by {
                    assert forall|i: int, j: int|
                        0 <= i < j < entry_keys(es1).len() implies entry_keys(es1)[i]
                        != entry_keys(es1)[j] by {
                        let a = if i == ix as int { es0.len() - 1 } else { i };
                        let b = if j == ix as int { es0.len() - 1 } else { j };
                        assert(es1[i] == es0[a]);
                        assert(es1[j] == es0[b]);
                        assert(entry_keys(es0)[a] == es0[a].0@);
                        assert(entry_keys(es0)[b] == es0[b].0@);
                    }
                }
                assert forall|k: Seq<u8>| has_entry_key(es1, k) implies has_entry_key(es0, k)
                    && k != kd@ by {
                    let j = choose|j: int| 0 <= j < es1.len() && (#[trigger] es1[j]).0@ == k;
                    let a = if j == ix as int { es0.len() - 1 } else { j };
                    assert((es0[a]).0@ == k);
                    assert(entry_keys(es0)[a] == k);
                    assert(entry_keys(es0)[ix as int] == kd@);
                }
                assert forall|k: Seq<u8>| has_entry_key(es0, k) && k != kd@ implies has_entry_key(
                    es1,
                    k,
                ) by {
                    let j = choose|j: int| 0 <= j < es0.len() && (#[trigger] es0[j]).0@ == k;
                    assert(entry_keys(es0)[j] == k);
                    assert(entry_keys(es0)[ix as int] == kd@);
                    if j == es0.len() - 1 {
                        assert(es1[ix as int] == es0[j]);
                    } else {
                        assert(es1[j] == es0[j]);
                    }
                }
                assert forall|k: Seq<u8>|
                    entries_map_of(es1).dom().contains(k) implies #[trigger] entries_map_of(
                    es1,
                )[k] == entries_map_of(es0).remove(kd@)[k] by {
                    let j = choose|j: int| 0 <= j < es1.len() && (#[trigger] es1[j]).0@ == k;
                    let a = if j == ix as int { es0.len() - 1 } else { j };
                    assert(es1[j] == es0[a]);
                    assert(entries_map_of(es1)[k] == es1[j].1@);
                    assert(entries_map_of(es0)[(es0[a]).0@] == es0[a].1@);
                }
                assert(entries_map_of(es1) =~= entries_map_of(es0).remove(kd@));
            }
        },
        None => {
            proof {
                lemma_entries_map_of(es0);
                assert(!entries_map_of(es0).dom().contains(kd@));
                assert(entries_map_of(es0) =~= entries_map_of(es0).remove(kd@));
            }
        },
    }
}

/// Removes the staged change under a raw key, if any, and hands back its
/// pending value.
fn take_change(chs: &mut Vec<(Vec<u8>, Option<Vec<u8>>)>, key: &[u8]) -> (r: Option<
    Option<Vec<u8>>,
>)
    requires
        distinct_seqs(change_keys(old(chs)@)),
    ensures
        distinct_seqs(change_keys(final(chs)@)),
        changes_map_of(final(chs)@) == changes_map_of(old(chs)@).remove(key@),
        forall|j: int| 0 <= j < final(chs)@.len() ==> (#[trigger] final(chs)@[j]).0@ != key@,
        match r {
            Some(prev) => changes_map_of(old(chs)@).dom().contains(key@) && opt_bytes_view(prev)
                == changes_map_of(old(chs)@)[key@],
            None => !changes_map_of(old(chs)@).dom().contains(key@),
        },
{
    let ghost cs0 = chs@;
    match find_change(chs, key) {
        Some(ix) => {
            let prev = chs.swap_remove(ix);
            proof {
                let cs1 = chs@;
                lemma_changes_map_of(cs0);
                lemma_changes_map_of(cs1);
                assert(changes_map_of(cs0).dom().contains(key@)) by {
                    assert((cs0[ix as int]).0@ == key@);
                }
                assert(changes_map_of(cs0)[key@] == opt_bytes_view(cs0[ix as int].1));
                assert(distinct_seqs(change_keys(cs1))) by {
                    assert forall|i: int, j: int|
                        0 <= i < j < change_keys(cs1).len() implies change_keys(cs1)[i]
                        != change_keys(cs1)[j] by {
                        let a = if i == ix as int { cs0.len() - 1 } else { i };
                        let b = if j == ix as int { cs0.len() - 1 } else { j };
                        assert(cs1[i] == cs0[a]);
                        assert(cs1[j] == cs0[b]);
                        assert(change_keys(cs0)[a] == cs0[a].0@);
                        assert(change_keys(cs0)[b] == cs0[b].0@);
                    }
                }
                assert forall|j: int| 0 <= j < cs1.len() implies (#[trigger] cs1[j]).0@
                    != key@ by {
                    let a = if j == ix as int { cs0.len() - 1 } else { j };
                    assert(cs1[j] == cs0[a]);
                    assert(change_keys(cs0)[a] == cs0[a].0@);
                    assert(change_keys(cs0)[ix as int] == key@);
                }
                assert forall|k: Seq<u8>| has_change_key(cs1, k) implies has_change_key(cs0, k)
                    && k != key@ by {
                    let j = choose|j: int| 0 <= j < cs1.len() && (#[trigger] cs1[j]).0@ == k;
                    let a = if j == ix as int { cs0.len() - 1 } else { j };
                    assert((cs0[a]).0@ == k);
                    assert(change_keys(cs0)[a] == k);
                    assert(change_keys(cs0)[ix as int] == key@);
                }
                assert forall|k: Seq<u8>| has_change_key(cs0, k) && k != key@ implies
                    has_change_key(cs1, k) by {
                    let j = choose|j: int| 0 <= j < cs0.len() && (#[trigger] cs0[j]).0@ == k;
                    assert(change_keys(cs0)[j] == k);
                    assert(change_keys(cs0)[ix as int] == key@);
                    if j == cs0.len() - 1 {
                        assert(cs1[ix as int] == cs0[j]);
                    } else {
                        assert(cs1[j] == cs0[j]);
                    }
                }
                assert forall|k: Seq<u8>|
                    changes_map_of(cs1).dom().contains(k) implies #[trigger] changes_map_of(
                    cs1,
                )[k] == changes_map_of(cs0).remove(key@)[k] by {
                    let j = choose|j: int| 0 <= j < cs1.len() && (#[trigger] cs1[j]).0@ == k;
                    let a = if j == ix as int { cs0.len() - 1 } else { j };
                    assert(cs1[j] == cs0[a]);
                    assert(changes_map_of(cs1)[k] == opt_bytes_view(cs1[j].1));
                    assert(changes_map_of(cs0)[(cs0[a]).0@] == opt_bytes_view(cs0[a].1));
                }
                assert(changes_map_of(cs1) =~= changes_map_of(cs0).remove(key@));
            }
            Some(prev.1)
        },
        None => {
            proof {
                lemma_changes_map_of(cs0);
                assert(!has_change_key(cs0, key@)) by {
                    if has_change_key(cs0, key@) {
                        let j = choose|j: int|
                            0 <= j < cs0.len() && (#[trigger] cs0[j]).0@ == key@;
                    }
                }
                assert(!changes_map_of(cs0).dom().contains(key@));
                assert(changes_map_of(cs0) =~= changes_map_of(cs0).remove(key@));
            }
            None
        },
    }
}

/// Leaves induced by a map with one value written: the leaf is stored when
/// the value's digest is non-zero, deleted when it is the zero digest.
pub proof fn lemma_leaves_insert(em: Map<Seq<u8>, Seq<u8>>, k: Seq<u8>, v: Seq<u8>)
    ensures
        leaves_of_entries(em.insert(k, v)) == (if blake2b_of(v) == zero_digest() {
            leaves_of_entries(em).remove(k)
        } else {
            leaves_of_entries(em).insert(k, blake2b_of(v))
        }),
{
    if blake2b_of(v) == zero_digest() {
        assert(leaves_of_entries(em.insert(k, v)) =~= leaves_of_entries(em).remove(k));
    } else {
        assert(leaves_of_entries(em.insert(k, v)) =~= leaves_of_entries(em).insert(
            k,
            blake2b_of(v),
        ));
    }
}

/// Leaves induced by a map with one key removed.
pub proof fn lemma_leaves_remove(em: Map<Seq<u8>, Seq<u8>>, k: Seq<u8>)
    ensures
        leaves_of_entries(em.remove(k)) == leaves_of_entries(em).remove(k),
{
    assert(leaves_of_entries(em.remove(k)) =~= leaves_of_entries(em).remove(k));
}

/// Clones an optional byte string.
fn clone_opt(v: &Option<Vec<u8>>) -> (r: Option<Vec<u8>>)
    ensures
        opt_bytes_view(r) == opt_bytes_view(*v),
{
    match v {
        Some(b) => Some(slice_to_vec(b.as_slice())),
        None => None,
    }
}

/// The digests of a sequence of raw keys.
pub open spec fn digests_of(ks: Seq<Seq<u8>>) -> Seq<Seq<u8>> {
    ks.map_values(|k: Seq<u8>| blake2b_of(k))
}

/// Views of a vector of raw keys.
pub open spec fn byte_seqs(ks: Seq<Vec<u8>>) -> Seq<Seq<u8>> {
    ks.map_values(|k: Vec<u8>| k@)
}

/// The key digests of a staged batch.
pub open spec fn staged_digests(staged: Seq<(Seq<u8>, Option<Seq<u8>>)>) -> Seq<Seq<u8>> {
    staged.map_values(|c: (Seq<u8>, Option<Seq<u8>>)| blake2b_of(c.0))
}

/// The key-digest-to-raw-value map after a staged batch is applied in order:
/// a staged value is stored under the key's digest, a staged deletion
/// removes it.
pub open spec fn apply_staged(
    em: Map<Seq<u8>, Seq<u8>>,
    staged: Seq<(Seq<u8>, Option<Seq<u8>>)>,
) -> Map<Seq<u8>, Seq<u8>>
    decreases staged.len(),
{
    if staged.len() == 0 {
        em
    } else {
        let prev = apply_staged(em, staged.drop_last());
        match staged.last().1 {
            Some(v) => prev.insert(blake2b_of(staged.last().0), v),
            None => prev.remove(blake2b_of(staged.last().0)),
        }
    }
}

/// What applying a batch with distinct key digests leaves in the map: each
/// staged key carries its staged value (or nothing, for a deletion), and
/// every other key is untouched.
pub proof fn lemma_apply_staged(em: Map<Seq<u8>, Seq<u8>>, staged: Seq<(Seq<u8>, Option<Seq<u8>>)>)
    requires
        distinct_seqs(staged_digests(staged)),
    ensures
        forall|j: int|
            0 <= j < staged.len() ==> {
                let d = blake2b_of((#[trigger] staged[j]).0);
                match staged[j].1 {
                    Some(v) => apply_staged(em, staged).dom().contains(d) && apply_staged(
                        em,
                        staged,
                    )[d] == v,
                    None => !apply_staged(em, staged).dom().contains(d),
                }
            },
        forall|k: Seq<u8>|
            !staged_digests(staged).contains(k) ==> (#[trigger] apply_staged(
                em,
                staged,
            ).dom().contains(k) == em.dom().contains(k) && (em.dom().contains(k) ==> apply_staged(
                em,
                staged,
            )[k] == em[k])),
    decreases staged.len(),
{
    if staged.len() > 0 {
        let prev = staged.drop_last();
        assert(staged_digests(prev) =~= staged_digests(staged).drop_last());
        lemma_apply_staged(em, prev);
        let dl = blake2b_of(staged.last().0);
        assert forall|j: int| 0 <= j < staged.len() implies {
            let d = blake2b_of((#[trigger] staged[j]).0);
            match staged[j].1 {
                Some(v) => apply_staged(em, staged).dom().contains(d) && apply_staged(em, staged)[d]
                    == v,
                None => !apply_staged(em, staged).dom().contains(d),
            }
        } by {
            let d = blake2b_of(staged[j].0);
            if j < staged.len() - 1 {
                assert(staged_digests(staged)[j] == d);
                assert(staged_digests(staged)[staged.len() - 1] == dl);
                assert(d != dl);
                assert(prev[j] == staged[j]);
                assert(blake2b_of((prev[j]).0) == d);
            }
        }
        assert forall|k: Seq<u8>| !staged_digests(staged).contains(k) implies (
        #[trigger] apply_staged(em, staged).dom().contains(k) == em.dom().contains(k) && (
        em.dom().contains(k) ==> apply_staged(em, staged)[k] == em[k])) by {
            assert(staged_digests(staged)[staged.len() - 1] == dl);
            assert(k != dl);
            assert(!staged_digests(prev).contains(k)) by {
                if staged_digests(prev).contains(k) {
                    let j = choose|j: int|
                        0 <= j < staged_digests(prev).len() && staged_digests(prev)[j] == k;
                    assert(staged_digests(staged)[j] == k);
                }
            }
            assert(apply_staged(em, prev).dom().contains(k) == em.dom().contains(k));
            assert(em.dom().contains(k) ==> apply_staged(em, prev)[k] == em[k]);
            assert(apply_staged(em, staged).dom().contains(k) == apply_staged(
                em,
                prev,
            ).dom().contains(k));
        }
    }
}

/// The update record that committing the staged batch over the tree state
/// `em` yields: the triples carry the staged keys in order, the value each
/// key had under `em` and the staged value; the new root summarizes the
/// updated state; and the proof is bound to the updated state over exactly
/// the staged key digests.
pub open spec fn is_commit_result(
    em: Map<Seq<u8>, Seq<u8>>,
    staged: Seq<(Seq<u8>, Option<Seq<u8>>)>,
    u: crate::types::SmtUpdateData,
) -> bool {
    &&& staged.len() > 0
    &&& distinct_seqs(staged_digests(staged))
    &&& u.changes.len() == staged.len()
    &&& forall|j: int| 0 <= j < staged.len() ==> (#[trigger] u.changes[j]).key == staged[j].0
    &&& forall|j: int|
        0 <= j < staged.len() ==> (#[trigger] u.changes[j]).new_value == staged[j].1
    &&& forall|j: int|
        0 <= j < staged.len() ==> (#[trigger] u.changes[j]).old_value == em_lookup(
            em,
            blake2b_of(staged[j].0),
        )
    &&& u.new_root == smt_root_of(leaves_of_entries(apply_staged(em, staged)))
    &&& proof_binds(
        u.proof,
        leaves_of_entries(apply_staged(em, staged)),
        staged_digests(staged).to_set(),
    )
}

/// The data-with-proof record that the generator yields for the raw keys
/// `ks` over the tree state `em`: the pairs carry the requested keys in
/// order with the value stored under each (or nothing), and the proof is
/// bound to the current state over exactly those key digests.
pub open spec fn is_data_with_proof_result(
    em: Map<Seq<u8>, Seq<u8>>,
    ks: Seq<Seq<u8>>,
    d: crate::types::DataWithProofData,
) -> bool {
    &&& ks.len() > 0
    &&& distinct_seqs(digests_of(ks))
    &&& d.data.len() == ks.len()
    &&& forall|j: int| 0 <= j < ks.len() ==> (#[trigger] d.data[j]).key == ks[j]
    &&& forall|j: int|
        0 <= j < ks.len() ==> (#[trigger] d.data[j]).value == em_lookup(em, blake2b_of(ks[j]))
    &&& proof_binds(d.proof, leaves_of_entries(em), digests_of(ks).to_set())
}

/// Value stored under a key digest, cloned out of the entry list.
fn entry_value(entries: &Vec<([u8; 32], Vec<u8>)>, kd: &[u8; 32]) -> (r: Option<Vec<u8>>)
    requires
        distinct_seqs(entry_keys(entries@)),
    ensures
        opt_bytes_view(r) == em_lookup(entries_map_of(entries@), kd@),
{
    match find_entry(entries, kd) {
        Some(ix) => {
            let v = slice_to_vec(entries[ix].1.as_slice());
            proof {
                lemma_entries_map_of(entries@);
                assert(has_entry_key(entries@, kd@)) by {
                    assert((entries@[ix as int]).0@ == kd@);
                }
            }
            Some(v)
        },
        None => {
            proof {
                lemma_entries_map_of(entries@);
                assert(!has_entry_key(entries@, kd@)) by {
                    if has_entry_key(entries@, kd@) {
                        let j = choose|j: int|
                            0 <= j < entries@.len() && (#[trigger] entries@[j]).0@ == kd@;
                    }
                }
            }
            None
        },
    }
}

/// Digests of a list of raw keys.
fn hash_keys(keys: &Vec<Vec<u8>>) -> (kds: Vec<[u8; 32]>)
    ensures
        kds@.len() == keys@.len(),
        forall|j: int| 0 <= j < keys@.len() ==> (#[trigger] kds@[j])@ == blake2b_of(keys@[j]@),
{
    let mut kds: Vec<[u8; 32]> = Vec::new();
    let mut i: usize = 0;
    while i < keys.len()
        invariant
            i <= keys@.len(),
            kds@.len() == i as int,
            forall|j: int| 0 <= j < i as int ==> (#[trigger] kds@[j])@ == blake2b_of(keys@[j]@),
        decreases keys@.len() - i,
    {
        kds.push(blake2b256(keys[i].as_slice()));
        i += 1;
    }
    kds
}

/// Whether no two digests of the list are equal.
fn check_distinct(kds: &Vec<[u8; 32]>) -> (b: bool)
    ensures
        b == distinct_seqs(key_digests(kds@)),
{
    let ghost ds = key_digests(kds@);
    let mut i: usize = 0;
    while i < kds.len()
        invariant
            i <= kds@.len(),
            ds == key_digests(kds@),
            ds.len() == kds@.len(),
            forall|p: int, q: int| 0 <= p < q < i as int ==> ds[p] != ds[q],
        decreases kds@.len() - i,
    {
        let mut j: usize = 0;
        while j < i
            invariant
                j <= i < kds@.len(),
                ds == key_digests(kds@),
                ds.len() == kds@.len(),
                forall|p: int, q: int| 0 <= p < q < i as int ==> ds[p] != ds[q],
                forall|q: int| 0 <= q < j as int ==> ds[q] != ds[i as int],
            decreases i - j,
        {
            if digest_eq(&kds[j], &kds[i]) {
                proof {
                    assert(ds[j as int] == ds[i as int]);
                }
                return false;
            }
            proof {
                assert(ds[j as int] == kds@[j as int]@);
                assert(ds[i as int] == kds@[i as int]@);
            }
            j += 1;
        }
        i += 1;
    }
    true
}

/// The tree beside its raw values: the outside sparse Merkle tree holds the
/// digest leaves, the entry list the raw value under each key digest.
struct StoreInner {
    smt: Smt,
    entries: Vec<([u8; 32], Vec<u8>)>,
}

/// The entry list has no duplicate key digests and the tree's leaves are
/// exactly those the entries induce.
spec fn store_wf(s: StoreInner) -> bool {
    &&& distinct_seqs(entry_keys(s.entries@))
    &&& smt_leaves(s.smt) == leaves_of_entries(entries_map_of(s.entries@))
}

/// An empty store.
fn store_new() -> (s: StoreInner)
    ensures
        store_wf(s),
        entries_map_of(s.entries@) == Map::<Seq<u8>, Seq<u8>>::empty(),
{
    let s = StoreInner { smt: smt_new(), entries: Vec::new() };
    proof {
        assert(leaves_of_entries(entries_map_of(s.entries@)) =~= empty_leaves());
    }
    s
}

/// Writes one key: stores the value under its key digest, or deletes the key
/// when no value is given, in the tree and the entry list at once.
fn store_set(store: &mut StoreInner, kd: [u8; 32], value_opt: Option<Vec<u8>>)
    requires
        store_wf(*old(store)),
    ensures
        store_wf(*final(store)),
        entries_map_of(final(store).entries@) == (match value_opt {
            Some(v) => entries_map_of(old(store).entries@).insert(kd@, v@),
            None => entries_map_of(old(store).entries@).remove(kd@),
        }),
{
    let ghost em0 = entries_map_of(store.entries@);
    match value_opt {
        Some(v) => {
            let ghost v0 = v@;
            let vd = blake2b256(v.as_slice());
            smt_update(&mut store.smt, &kd, &vd);
            set_entry(&mut store.entries, kd, v);
            proof {
                lemma_leaves_insert(em0, kd@, v0);
            }
        },
        None => {
            let z = zero32();
            smt_update(&mut store.smt, &kd, &z);
            remove_entry(&mut store.entries, &kd);
            proof {
                lemma_leaves_remove(em0, kd@);
            }
        },
    }
}

/// A generator that holds the full tree, answers point reads, applies point
/// updates, stages change batches, and compiles proofs.
pub struct ProofGenerator {
    store: StoreInner,
    changes: Vec<(Vec<u8>, Option<Vec<u8>>)>,
}

impl ProofGenerator {
    #[verifier::type_invariant]
    spec fn wf(self) -> bool {
        &&& store_wf(self.store)
        &&& distinct_seqs(change_keys(self.changes@))
    }

    /// The key-digest-to-raw-value map the tree currently stands for.
    pub closed spec fn entries_map(self) -> Map<Seq<u8>, Seq<u8>> {
        entries_map_of(self.store.entries@)
    }

    /// The staged, not yet committed changes, keyed by raw key.
    pub closed spec fn changes_map(self) -> Map<Seq<u8>, Option<Seq<u8>>> {
        changes_map_of(self.changes@)
    }

    /// The staged changes in the order they will be committed.
    pub closed spec fn staged_seq(self) -> Seq<(Seq<u8>, Option<Seq<u8>>)> {
        self.changes@.map_values(|c: (Vec<u8>, Option<Vec<u8>>)| (c.0@, opt_bytes_view(c.1)))
    }

    /// Creates an empty generator: no leaves, no staged changes.
    pub fn new() -> (g: Self)
        ensures
            g.entries_map() == Map::<Seq<u8>, Seq<u8>>::empty(),
            g.changes_map() == Map::<Seq<u8>, Option<Seq<u8>>>::empty(),
            g.staged_seq() == Seq::<(Seq<u8>, Option<Seq<u8>>)>::empty(),
    {
        let g = ProofGenerator { store: store_new(), changes: Vec::new() };
        proof {
            assert(g.staged_seq() =~= Seq::<(Seq<u8>, Option<Seq<u8>>)>::empty());
        }
        g
    }

    /// Current root: a function of the stored leaves alone; the zero digest
    /// while nothing is stored.
    pub fn root(&self) -> (r: [u8; 32])
        ensures
            r@ == smt_root_of(leaves_of_entries(self.entries_map())),
            self.entries_map() == Map::<Seq<u8>, Seq<u8>>::empty() ==> r@ == zero_digest(),
    {
        proof {
            use_type_invariant(&*self);
            if self.entries_map() == Map::<Seq<u8>, Seq<u8>>::empty() {
                assert(leaves_of_entries(self.entries_map()) =~= empty_leaves());
            }
        }
        smt_root(&self.store.smt)
    }

    /// Value of a leaf, by raw key: what the tree stores under the key's
    /// digest, or nothing for an unassigned key. Never an error.
    pub fn get(&self, key: &[u8]) -> (r: Result<Option<Vec<u8>>, GeneratorError>)
        ensures
            r matches Ok(v) && opt_bytes_view(v) == em_lookup(
                self.entries_map(),
                blake2b_of(key@),
            ),
    {
        proof {
            use_type_invariant(&*self);
        }
        let kd = blake2b256(key);
        let es = &self.store.entries;
        match find_entry(es, &kd) {
            Some(ix) => {
                let v = slice_to_vec(es[ix].1.as_slice());
                proof {
                    lemma_entries_map_of(es@);
                    assert(has_entry_key(es@, kd@)) by {
                        assert((es@[ix as int]).0@ == kd@);
                    }
                }
                Ok(Some(v))
            },
            None => {
                proof {
                    lemma_entries_map_of(es@);
                    assert(!has_entry_key(es@, kd@)) by {
                        if has_entry_key(es@, kd@) {
                            let j = choose|j: int|
                                0 <= j < es@.len() && (#[trigger] es@[j]).0@ == kd@;
                        }
                    }
                }
                Ok(None)
            },
        }
    }

    /// Updates a leaf immediately (not staged) and returns the new root.
    /// Passing no value deletes the key. Never an error.
    pub fn update(&mut self, key: &[u8], value_opt: Option<Vec<u8>>) -> (r: Result<
        [u8; 32],
        GeneratorError,
    >)
        ensures
            r is Ok,
            final(self).entries_map() == (match value_opt {
                Some(v) => old(self).entries_map().insert(blake2b_of(key@), v@),
                None => old(self).entries_map().remove(blake2b_of(key@)),
            }),
            r->Ok_0@ == smt_root_of(leaves_of_entries(final(self).entries_map())),
            final(self).changes_map() == old(self).changes_map(),
            final(self).staged_seq() == old(self).staged_seq(),
    {
        proof {
            use_type_invariant(&*self);
        }
        let kd = blake2b256(key);
        let mut store = store_new();
        core::mem::swap(&mut self.store, &mut store);
        store_set(&mut store, kd, value_opt);
        let r = smt_root(&store.smt);
        core::mem::swap(&mut self.store, &mut store);
        Ok(r)
    }

    /// Stages a change without touching the tree; returns the change that
    /// was already pending for the same raw key, if any, which it replaces.
    pub fn append_change(&mut self, key: Vec<u8>, new_value: Option<Vec<u8>>) -> (r: Option<
        Option<Vec<u8>>,
    >)
        ensures
            final(self).changes_map() == old(self).changes_map().insert(
                key@,
                opt_bytes_view(new_value),
            ),
            final(self).entries_map() == old(self).entries_map(),
            match r {
                Some(prev) => old(self).changes_map().dom().contains(key@) && opt_bytes_view(prev)
                    == old(self).changes_map()[key@],
                None => !old(self).changes_map().dom().contains(key@),
            },
    {
        proof {
            use_type_invariant(&*self);
        }
        let mut chs: Vec<(Vec<u8>, Option<Vec<u8>>)> = Vec::new();
        core::mem::swap(&mut self.changes, &mut chs);
        let ghost cs0 = chs@;
        let r = take_change(&mut chs, key.as_slice());
        let ghost cs1 = chs@;
        chs.push((key, new_value));
        proof {
            let cs2 = chs@;
            assert(cs2.drop_last() =~= cs1);
            assert(distinct_seqs(change_keys(cs2))) by {
                assert forall|i: int, j: int|
                    0 <= i < j < change_keys(cs2).len() implies change_keys(cs2)[i]
                    != change_keys(cs2)[j] by {
                    if j == cs2.len() - 1 {
                        assert((cs1[i]).0@ != key@);
                        assert(change_keys(cs2)[i] == cs2[i].0@);
                    } else {
                        assert(change_keys(cs1)[i] != change_keys(cs1)[j]);
                    }
                }
            }
            assert(changes_map_of(cs2) =~= changes_map_of(cs0).insert(
                key@,
                opt_bytes_view(new_value),
            ));
        }
        core::mem::swap(&mut self.changes, &mut chs);
        r
    }

    /// Commits every staged change at once: records each staged key's old
    /// value, applies the staged values to the tree, compiles one proof over
    /// the staged keys, and clears the staged set. Rejected before anything
    /// is touched when nothing is staged, or when two staged keys share one
    /// key digest.
    pub fn commit_changes(&mut self) -> (r: Result<SmtUpdate, GeneratorError>)
        ensures
            match r {
                Ok(u) => is_commit_result(old(self).entries_map(), old(self).staged_seq(), u@)
                    && final(self).entries_map() == apply_staged(
                    old(self).entries_map(),
                    old(self).staged_seq(),
                ) && final(self).staged_seq().len() == 0 && final(self).changes_map()
                    == Map::<Seq<u8>, Option<Seq<u8>>>::empty(),
                Err(GeneratorError::EmptyKeys) => old(self).staged_seq().len() == 0 && *final(self)
                    == *old(self),
                Err(GeneratorError::CollidingKeyDigests) => old(self).staged_seq().len() > 0
                    && !distinct_seqs(staged_digests(old(self).staged_seq())) && *final(self) == *old(
                    self,
                ),
                Err(GeneratorError::Other(_)) => false,
            },
    {
        proof {
            use_type_invariant(&*self);
        }
        let ghost staged0 = self.staged_seq();
        let ghost em0 = self.entries_map();
        if self.changes.len() == 0 {
            return Err(GeneratorError::EmptyKeys);
        }
        let mut chs: Vec<(Vec<u8>, Option<Vec<u8>>)> = Vec::new();
        core::mem::swap(&mut self.changes, &mut chs);
        let mut keys: Vec<Vec<u8>> = Vec::new();
        let mut i: usize = 0;
        while i < chs.len()
            invariant
                i <= chs@.len(),
                keys@.len() == i as int,
                forall|j: int| 0 <= j < i as int ==> (#[trigger] keys@[j])@ == chs@[j].0@,
            decreases chs@.len() - i,
        {
            keys.push(slice_to_vec(chs[i].0.as_slice()));
            i += 1;
        }
        let kds = hash_keys(&keys);
        proof {
            assert(key_digests(kds@) =~= staged_digests(staged0));
        }
        if !check_distinct(&kds) {
            core::mem::swap(&mut self.changes, &mut chs);
            proof {
                assert(*self == *old(self));
            }
            return Err(GeneratorError::CollidingKeyDigests);
        }
        let mut store = store_new();
        core::mem::swap(&mut self.store, &mut store);
        let mut triples: Vec<SmtChange> = Vec::new();
        let mut i: usize = 0;
        while i < chs.len()
            invariant
                i <= chs@.len(),
                kds@.len() == chs@.len(),
                keys@.len() == chs@.len(),
                staged0.len() == chs@.len(),
                store_wf(store),
                distinct_seqs(key_digests(kds@)),
                key_digests(kds@) == staged_digests(staged0),
                forall|j: int| 0 <= j < chs@.len() ==> (#[trigger] kds@[j])@ == blake2b_of(
                    chs@[j].0@,
                ),
                forall|j: int| 0 <= j < chs@.len() ==> (#[trigger] staged0[j]).0 == chs@[j].0@,
                forall|j: int| 0 <= j < chs@.len() ==> (#[trigger] staged0[j]).1
                    == opt_bytes_view(chs@[j].1),
                entries_map_of(store.entries@) == apply_staged(em0, staged0.take(i as int)),
                triples@.len() == i as int,
                forall|j: int| 0 <= j < i as int ==> (#[trigger] triples@[j])@.key
                    == staged0[j].0,
                forall|j: int| 0 <= j < i as int ==> (#[trigger] triples@[j])@.new_value
                    == staged0[j].1,
                forall|j: int| 0 <= j < i as int ==> (#[trigger] triples@[j])@.old_value
                    == em_lookup(em0, blake2b_of(staged0[j].0)),
            decreases chs@.len() - i,
        {
            let ghost emi = entries_map_of(store.entries@);
            let old_v = entry_value(&store.entries, &kds[i]);
            proof {
                assert(staged_digests(staged0.take(i as int)) =~= staged_digests(staged0).take(
                    i as int,
                ));
                assert(distinct_seqs(staged_digests(staged0.take(i as int)))) by {
                    assert forall|p: int, q: int|
                        0 <= p < q < i as int implies staged_digests(staged0).take(i as int)[p]
                        != staged_digests(staged0).take(i as int)[q] by {
                        assert(staged_digests(staged0)[p] != staged_digests(staged0)[q]);
                    }
                }
                lemma_apply_staged(em0, staged0.take(i as int));
                assert(!staged_digests(staged0).take(i as int).contains(kds@[i as int]@)) by {
                    if staged_digests(staged0).take(i as int).contains(kds@[i as int]@) {
                        let j = choose|j: int|
                            0 <= j < i as int && staged_digests(staged0).take(i as int)[j]
                                == kds@[i as int]@;
                        assert(key_digests(kds@)[j] == key_digests(kds@)[i as int]);
                    }
                }
                assert(em_lookup(emi, kds@[i as int]@) == em_lookup(em0, kds@[i as int]@));
            }
            let key_clone = slice_to_vec(chs[i].0.as_slice());
            let new_clone = clone_opt(&chs[i].1);
            triples.push(
                SmtChange { key: key_clone, old_value: old_v, new_value: new_clone },
            );
            let new_for_store = clone_opt(&chs[i].1);
            store_set(&mut store, kds[i], new_for_store);
            proof {
                assert(staged0.take(i as int + 1).drop_last() =~= staged0.take(i as int));
                assert(staged0.take(i as int + 1).last() == staged0[i as int]);
                assert(entries_map_of(store.entries@) == apply_staged(
                    em0,
                    staged0.take(i as int + 1),
                ));
            }
            i += 1;
        }
        proof {
            assert(staged0.take(chs@.len() as int) =~= staged0);
        }
        let new_root = smt_root(&store.smt);
        let proof_bytes = smt_compile_proof(&store.smt, &kds);
        core::mem::swap(&mut self.store, &mut store);
        let u = SmtUpdate { new_root, changes: triples, proof: proof_bytes };
        proof {
            assert(key_digests(kds@).to_set() =~= staged_digests(staged0).to_set());
            assert(u@.changes.len() == staged0.len());
            assert forall|j: int| 0 <= j < staged0.len() implies (#[trigger] u@.changes[j]).key
                == staged0[j].0 && u@.changes[j].new_value == staged0[j].1
                && u@.changes[j].old_value == em_lookup(em0, blake2b_of(staged0[j].0)) by {
                assert(u@.changes[j] == triples@[j]@);
            }
            assert(self.staged_seq() =~= Seq::<(Seq<u8>, Option<Seq<u8>>)>::empty());
        }
        Ok(u)
    }

    /// Compiles a proof over an arbitrary set of raw keys against the
    /// current tree. Rejected for no keys at all, or for keys sharing one
    /// key digest.
    pub fn merkle_proof(&self, keys: Vec<Vec<u8>>) -> (r: Result<Vec<u8>, GeneratorError>)
        ensures
            match r {
                Ok(p) => keys@.len() > 0 && distinct_seqs(digests_of(byte_seqs(keys@)))
                    && proof_binds(
                    p@,
                    leaves_of_entries(self.entries_map()),
                    digests_of(byte_seqs(keys@)).to_set(),
                ),
                Err(GeneratorError::EmptyKeys) => keys@.len() == 0,
                Err(GeneratorError::CollidingKeyDigests) => keys@.len() > 0 && !distinct_seqs(
                    digests_of(byte_seqs(keys@)),
                ),
                Err(GeneratorError::Other(_)) => false,
            },
    {
        proof {
            use_type_invariant(&*self);
        }
        if keys.len() == 0 {
            return Err(GeneratorError::EmptyKeys);
        }
        let kds = hash_keys(&keys);
        proof {
            assert(key_digests(kds@) =~= digests_of(byte_seqs(keys@)));
        }
        if !check_distinct(&kds) {
            return Err(GeneratorError::CollidingKeyDigests);
        }
        let p = smt_compile_proof(&self.store.smt, &kds);
        proof {
            assert(key_digests(kds@).to_set() =~= digests_of(byte_seqs(keys@)).to_set());
        }
        Ok(p)
    }

    /// Reads the values under an arbitrary set of raw keys and compiles a
    /// proof over them: a key not stored yields no value, authenticated by
    /// the same proof. Rejected for no keys at all, or for keys sharing one
    /// key digest.
    pub fn data_with_proof(&self, keys: Vec<Vec<u8>>) -> (r: Result<
        DataWithProof,
        GeneratorError,
    >)
        ensures
            match r {
                Ok(d) => is_data_with_proof_result(self.entries_map(), byte_seqs(keys@), d@),
                Err(GeneratorError::EmptyKeys) => keys@.len() == 0,
                Err(GeneratorError::CollidingKeyDigests) => keys@.len() > 0 && !distinct_seqs(
                    digests_of(byte_seqs(keys@)),
                ),
                Err(GeneratorError::Other(_)) => false,
            },
    {
        proof {
            use_type_invariant(&*self);
        }
        if keys.len() == 0 {
            return Err(GeneratorError::EmptyKeys);
        }
        let kds = hash_keys(&keys);
        proof {
            assert(key_digests(kds@) =~= digests_of(byte_seqs(keys@)));
        }
        if !check_distinct(&kds) {
            return Err(GeneratorError::CollidingKeyDigests);
        }
        let mut kvs: Vec<KeyValue> = Vec::new();
        let mut i: usize = 0;
        while i < keys.len()
            invariant
                i <= keys@.len(),
                kds@.len() == keys@.len(),
                store_wf(self.store),
                forall|j: int| 0 <= j < keys@.len() ==> (#[trigger] kds@[j])@ == blake2b_of(
                    keys@[j]@,
                ),
                kvs@.len() == i as int,
                forall|j: int| 0 <= j < i as int ==> (#[trigger] kvs@[j])@.key == keys@[j]@,
                forall|j: int| 0 <= j < i as int ==> (#[trigger] kvs@[j])@.value == em_lookup(
                    entries_map_of(self.store.entries@),
                    blake2b_of(keys@[j]@),
                ),
            decreases keys@.len() - i,
        {
            let key_clone = slice_to_vec(keys[i].as_slice());
            let value = entry_value(&self.store.entries, &kds[i]);
            kvs.push(KeyValue { key: key_clone, value });
            i += 1;
        }
        let proof_bytes = smt_compile_proof(&self.store.smt, &kds);
        let d = DataWithProof { data: kvs, proof: proof_bytes };
        proof {
            assert(key_digests(kds@).to_set() =~= digests_of(byte_seqs(keys@)).to_set());
            assert forall|j: int| 0 <= j < keys@.len() implies (#[trigger] d@.data[j]).key
                == byte_seqs(keys@)[j] && d@.data[j].value == em_lookup(
                self.entries_map(),
                blake2b_of(byte_seqs(keys@)[j]),
            ) by {
                assert(d@.data[j] == kvs@[j]@);
            }
        }
        Ok(d)
    }

    /// Replays an update record's new values into the local tree, without
    /// checking its proof; callers that need checking verify the record
    /// separately. Never an error.
    pub fn apply_update(&mut self, smt_update: &SmtUpdate) -> (r: Result<(), GeneratorError>)
        ensures
            r is Ok,
            final(self).entries_map() == apply_staged(
                old(self).entries_map(),
                update_staged(smt_update@.changes),
            ),
            final(self).changes_map() == old(self).changes_map(),
            final(self).staged_seq() == old(self).staged_seq(),
    {
        proof {
            use_type_invariant(&*self);
        }
        let ghost em0 = self.entries_map();
        let ghost staged = update_staged(smt_update@.changes);
        let mut store = store_new();
        core::mem::swap(&mut self.store, &mut store);
        let mut i: usize = 0;
        while i < smt_update.changes.len()
            invariant
                i <= smt_update@.changes.len(),
                smt_update@.changes.len() == smt_update.changes@.len(),
                staged == update_staged(smt_update@.changes),
                staged.len() == smt_update@.changes.len(),
                store_wf(store),
                entries_map_of(store.entries@) == apply_staged(em0, staged.take(i as int)),
            decreases smt_update@.changes.len() - i,
        {
            let c = &smt_update.changes[i];
            proof {
                assert(smt_update@.changes[i as int] == smt_update.changes@[i as int]@);
                assert(staged[i as int] == (c@.key, c@.new_value));
            }
            let kd = blake2b256(c.key.as_slice());
            let value = clone_opt(&c.new_value);
            store_set(&mut store, kd, value);
            proof {
                assert(staged.take(i as int + 1).drop_last() =~= staged.take(i as int));
                assert(staged.take(i as int + 1).last() == staged[i as int]);
            }
            i += 1;
        }
        proof {
            assert(staged.take(smt_update@.changes.len() as int) =~= staged);
        }
        core::mem::swap(&mut self.store, &mut store);
        Ok(())
    }
}

impl Default for ProofGenerator {
    /// An empty generator, as `new` creates it.
    fn default() -> (g: Self)
        ensures
            g.entries_map() == Map::<Seq<u8>, Seq<u8>>::empty(),
            g.changes_map() == Map::<Seq<u8>, Option<Seq<u8>>>::empty(),
            g.staged_seq() == Seq::<(Seq<u8>, Option<Seq<u8>>)>::empty(),
    {
        ProofGenerator::new()
    }
}

/// The staged batch that an update record's triples describe: each key with
/// its new value.
pub open spec fn update_staged(cs: Seq<crate::types::SmtChangeData>) -> Seq<
    (Seq<u8>, Option<Seq<u8>>),
> {
    cs.map_values(|c: crate::types::SmtChangeData| (c.key, c.new_value))
}

} // verus!
