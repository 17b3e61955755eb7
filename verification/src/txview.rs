//! The validators' read-only view of one transaction: the records it spends,
//! creates and references, each with its owning identity hashes and data
//! payload, the attached authorization payloads, and the serialized first
//! spent record (the seed of a created record's unique identifier).

use vstd::prelude::*;

verus! {

/// One record of the transaction, as a validator sees it.
pub struct CellInfo {
    /// Hash of the identity that guards spending the record.
    pub lock_hash: [u8; 32],
    /// Hash of the identity that validates the record's state, if any.
    pub type_hash: Option<[u8; 32]>,
    /// The record's data payload.
    pub data: Vec<u8>,
}

/// The authorization payloads attached at one position.
pub struct WitnessInfo {
    /// Payload on the lock channel, if any.
    pub lock: Option<Vec<u8>>,
    /// Payload on the output-type channel, if any.
    pub output_type: Option<Vec<u8>>,
}

/// An immutable snapshot of one transaction.
pub struct TxView {
    pub inputs: Vec<CellInfo>,
    pub outputs: Vec<CellInfo>,
    pub cell_deps: Vec<CellInfo>,
    pub witnesses: Vec<WitnessInfo>,
    /// The first spent record in its serialized form.
    pub first_input: Vec<u8>,
}

/// The record's state is validated by this identity.
pub open spec fn type_owned(c: CellInfo, sh: Seq<u8>) -> bool {
    match c.type_hash {
        Some(h) => h@ == sh,
        None => false,
    }
}

/// The record's spending is guarded by this identity.
pub open spec fn lock_owned(c: CellInfo, sh: Seq<u8>) -> bool {
    c.lock_hash@ == sh
}

/// Positions of the records whose state this identity validates, in order.
pub open spec fn owned_ixs(cells: Seq<CellInfo>, sh: Seq<u8>) -> Seq<int>
    decreases cells.len(),
{
    if cells.len() == 0 {
        Seq::empty()
    } else {
        let prev = owned_ixs(cells.drop_last(), sh);
        if type_owned(cells.last(), sh) {
            prev.push(cells.len() - 1)
        } else {
            prev
        }
    }
}

/// Collects the positions of the records whose state this identity
/// validates.
pub fn find_owned(cells: &Vec<CellInfo>, sh: &[u8; 32]) -> (r: Vec<usize>)
    ensures
        r@.map_values(|x: usize| x as int) == owned_ixs(cells@, sh@),
        forall|j: int| 0 <= j < r@.len() ==> (#[trigger] r@[j]) < cells@.len(),
{
    let mut r: Vec<usize> = Vec::new();
    let mut i: usize = 0;
    while i < cells.len()
        invariant
            i <= cells@.len(),
            r@.map_values(|x: usize| x as int) =~= owned_ixs(cells@.take(i as int), sh@),
            forall|j: int| 0 <= j < r@.len() ==> (#[trigger] r@[j]) < i,
        decreases cells@.len() - i,
    {
        let owned = match &cells[i].type_hash {
            Some(h) => crate::bytes_eq(h.as_slice(), sh.as_slice()),
            None => false,
        };
        let ghost r0 = r@;
        if owned {
            r.push(i);
        }
        proof {
            assert(cells@.take(i as int + 1).drop_last() =~= cells@.take(i as int));
            assert(cells@.take(i as int + 1).last() == cells@[i as int]);
            if owned {
                assert(r@.map_values(|x: usize| x as int) =~= r0.map_values(
                    |x: usize| x as int,
                ).push(i as int));
            }
            assert(r@.map_values(|x: usize| x as int) =~= owned_ixs(
                cells@.take(i as int + 1),
                sh@,
            ));
        }
        i += 1;
    }
    proof {
        assert(cells@.take(cells@.len() as int) =~= cells@);
    }
    r
}

} // verus!
