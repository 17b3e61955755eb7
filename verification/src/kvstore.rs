//! The key-value-store validator: classifies the transaction by how many
//! spent and created records its own identity validates, and authorizes a
//! create, a destroy or an update of the single committed-root record.

use vstd::prelude::*;
use vstd::slice::slice_to_vec;
use crate::{bytes_eq, zero_digest};
use crate::codec::{dec_update, decode_smt_update};
use crate::hash::{blake2b256, blake2b_of};
use crate::smt::compute_root_of;
use crate::txview::{owned_ixs, TxView};
use crate::types::{new_leaves, old_leaves, update_error_code, zero32, UpdateError};

verus! {

/// The checks this validator makes itself.
#[derive(Clone, Copy, Debug, PartialEq, Eq, Structural)]
pub enum InternalError {
    /// A record or payload index that the transaction does not have.
    IndexOutOfBound,
    /// A requested item that the transaction does not carry.
    ItemMissing,
    /// A payload shorter than the structure read from it.
    LengthNotEnough,
    /// A payload that is not the wire form of the expected structure.
    Encoding,
    /// A failure of the host environment with no closer description.
    Unknown,
    /// The spent/created records the identity validates fit no operation.
    UnknownOperation,
    /// Create: the identity parameter is not 32 bytes.
    CreateInvalidArgsLength,
    /// Create: the identity parameter is not the derived unique identifier.
    CreateIncorrectUniqueId,
    /// Create: the created record's data is not 32 bytes.
    CreateInitializedDataInvalidLength,
    /// Create: the created record's data is not the empty root.
    CreateInitializedDataNotEmpty,
    /// Update: the spent record's data is not 32 bytes.
    UpdateInputDataInvalidLength,
    /// Update: the created record's data is not 32 bytes.
    UpdateOutputDataInvalidLength,
    /// Update: the update record's declared new root is not the created
    /// record's data.
    UpdateNewRootIsMismatch,
    /// Update: no update record is attached at the created record's
    /// position.
    UpdateWitnessIsNotExisted,
}

/// The status code each of this validator's own checks is reported as.
pub open spec fn internal_error_code(e: InternalError) -> i8 {
    match e {
        InternalError::IndexOutOfBound => 0x01,
        InternalError::ItemMissing => 0x02,
        InternalError::LengthNotEnough => 0x03,
        InternalError::Encoding => 0x04,
        InternalError::Unknown => 0x05,
        InternalError::UnknownOperation => 0x10,
        InternalError::CreateInvalidArgsLength => 0x11,
        InternalError::CreateIncorrectUniqueId => 0x12,
        InternalError::CreateInitializedDataInvalidLength => 0x13,
        InternalError::CreateInitializedDataNotEmpty => 0x14,
        InternalError::UpdateInputDataInvalidLength => 0x15,
        InternalError::UpdateOutputDataInvalidLength => 0x16,
        InternalError::UpdateNewRootIsMismatch => 0x17,
        InternalError::UpdateWitnessIsNotExisted => 0x18,
    }
}

/// Everything this validator can reject for.
#[derive(Clone, Copy, Debug, PartialEq, Eq, Structural)]
pub enum Error {
    /// One of the validator's own checks failed.
    Internal(InternalError),
    /// The proof-verification layer rejected the update record.
    SmtTool(UpdateError),
}

/// The status code a rejection is reported as: the validator's own checks
/// keep their codes, the proof-verification layer's codes are offset so the
/// two ranges never collide.
pub open spec fn error_code_of(e: Error) -> i8 {
    match e {
        Error::Internal(i) => internal_error_code(i),
        Error::SmtTool(u) => (0x60 + update_error_code(u)) as i8,
    }
}

impl Error {
    /// The status code this rejection is reported as.
    pub fn error_code(&self) -> (r: i8)
        ensures
            r == error_code_of(*self),
    {
        match *self {
            Error::Internal(e) => match e {
                InternalError::IndexOutOfBound => 0x01,
                InternalError::ItemMissing => 0x02,
                InternalError::LengthNotEnough => 0x03,
                InternalError::Encoding => 0x04,
                InternalError::Unknown => 0x05,
                InternalError::UnknownOperation => 0x10,
                InternalError::CreateInvalidArgsLength => 0x11,
                InternalError::CreateIncorrectUniqueId => 0x12,
                InternalError::CreateInitializedDataInvalidLength => 0x13,
                InternalError::CreateInitializedDataNotEmpty => 0x14,
                InternalError::UpdateInputDataInvalidLength => 0x15,
                InternalError::UpdateOutputDataInvalidLength => 0x16,
                InternalError::UpdateNewRootIsMismatch => 0x17,
                InternalError::UpdateWitnessIsNotExisted => 0x18,
            },
            Error::SmtTool(e) => 0x60 + e.error_code(),
        }
    }
}

/// The little-endian bytes of a position, as they enter the unique
/// identifier.
pub open spec fn le64(n: u64) -> Seq<u8> {
    seq![
        (n & 0xff) as u8,
        ((n >> 8) & 0xff) as u8,
        ((n >> 16) & 0xff) as u8,
        ((n >> 24) & 0xff) as u8,
        ((n >> 32) & 0xff) as u8,
        ((n >> 40) & 0xff) as u8,
        ((n >> 48) & 0xff) as u8,
        ((n >> 56) & 0xff) as u8,
    ]
}

/// The unique identifier a created record must carry: the digest of the
/// serialized first spent record followed by the created record's position,
/// which binds the creation to one unrepeatable event.
pub open spec fn unique_id_of(first_input: Seq<u8>, out_ix: u64) -> Seq<u8> {
    blake2b_of(first_input + le64(out_ix))
}

fn u64_le(n: u64) -> (r: Vec<u8>)
    ensures
        r@ == le64(n),
{
    let mut r: Vec<u8> = Vec::new();
    r.push((n & 0xff) as u8);
    r.push(((n >> 8) & 0xff) as u8);
    r.push(((n >> 16) & 0xff) as u8);
    r.push(((n >> 24) & 0xff) as u8);
    r.push(((n >> 32) & 0xff) as u8);
    r.push(((n >> 40) & 0xff) as u8);
    r.push(((n >> 48) & 0xff) as u8);
    r.push(((n >> 56) & 0xff) as u8);
    proof {
        assert(r@ =~= le64(n));
    }
    r
}

/// Derives the unique identifier from the serialized first spent record and
/// the created record's position.
pub fn load_then_calculate_unique_id(first_input: &[u8], output_index: usize) -> (r: [u8; 32])
    ensures
        r@ == unique_id_of(first_input@, output_index as u64),
{
    let mut buf = slice_to_vec(first_input);
    let tail = u64_le(output_index as u64);
    let mut i: usize = 0;
    while i < tail.len()
        invariant
            i <= tail@.len(),
            buf@ == first_input@ + tail@.take(i as int),
        decreases tail@.len() - i,
    {
        buf.push(tail[i]);
        proof {
            assert(first_input@ + tail@.take(i as int + 1) =~= (first_input@ + tail@.take(
                i as int,
            )).push(tail@[i as int]));
        }
        i += 1;
    }
    proof {
        assert(tail@.take(tail@.len() as int) =~= tail@);
    }
    blake2b256(buf.as_slice())
}

/// The verdict on a create: the identity parameter must be the derived
/// unique identifier, and the created record must start as the empty root.
pub open spec fn spec_create(tx: TxView, args: Seq<u8>, out_ix: int) -> Result<
    (),
    InternalError,
> {
    if args.len() != 32 {
        Err(InternalError::CreateInvalidArgsLength)
    } else if args != unique_id_of(tx.first_input@, out_ix as u64) {
        Err(InternalError::CreateIncorrectUniqueId)
    } else if tx.outputs@[out_ix].data@.len() != 32 {
        Err(InternalError::CreateInitializedDataInvalidLength)
    } else if tx.outputs@[out_ix].data@ != zero_digest() {
        Err(InternalError::CreateInitializedDataNotEmpty)
    } else {
        Ok(())
    }
}

/// The verdict on an update: both data payloads must be roots, an update
/// record must be attached at the created record's position and declare the
/// created record's root, and its proof must reduce the old claims to the
/// spent record's root and the new claims to the declared one.
pub open spec fn spec_update(tx: TxView, in_ix: int, out_ix: int) -> Result<(), Error> {
    let input_data = tx.inputs@[in_ix].data@;
    let output_data = tx.outputs@[out_ix].data@;
    if input_data.len() != 32 {
        Err(Error::Internal(InternalError::UpdateInputDataInvalidLength))
    } else if output_data.len() != 32 {
        Err(Error::Internal(InternalError::UpdateOutputDataInvalidLength))
    } else if out_ix >= tx.witnesses@.len() {
        Err(Error::Internal(InternalError::IndexOutOfBound))
    } else {
        match tx.witnesses@[out_ix].output_type {
            None => Err(Error::Internal(InternalError::UpdateWitnessIsNotExisted)),
            Some(w) => match dec_update(w@) {
                None => Err(Error::Internal(InternalError::Encoding)),
                Some(u) => if u.new_root != output_data {
                    Err(Error::Internal(InternalError::UpdateNewRootIsMismatch))
                } else {
                    let old_c = compute_root_of(u.proof, old_leaves(u.changes));
                    let new_c = compute_root_of(u.proof, new_leaves(u.changes));
                    if old_c is None {
                        Err(Error::SmtTool(UpdateError::ComputeOldRoot))
                    } else if old_c != Some(input_data) {
                        Err(Error::SmtTool(UpdateError::MismatchedOldRoot))
                    } else if new_c is None {
                        Err(Error::SmtTool(UpdateError::ComputeNewRoot))
                    } else if new_c != Some(u.new_root) {
                        Err(Error::SmtTool(UpdateError::MismatchedNewRoot))
                    } else {
                        Ok(())
                    }
                },
            },
        }
    }
}

/// The verdict on a whole transaction: the counts of spent and created
/// records the identity validates select a create, a destroy or an update;
/// any other shape is rejected.
pub open spec fn spec_kvstore(tx: TxView, sh: Seq<u8>, args: Seq<u8>) -> Result<(), Error> {
    let ins = owned_ixs(tx.inputs@, sh);
    let outs = owned_ixs(tx.outputs@, sh);
    if ins.len() == 0 && outs.len() == 1 {
        match spec_create(tx, args, outs[0]) {
            Ok(()) => Ok(()),
            Err(e) => Err(Error::Internal(e)),
        }
    } else if ins.len() == 1 && outs.len() == 0 {
        Ok(())
    } else if ins.len() == 1 && outs.len() == 1 {
        spec_update(tx, ins[0], outs[0])
    } else {
        Err(Error::Internal(InternalError::UnknownOperation))
    }
}

/// Authorizes the creation of the record at this position.
fn create(tx: &TxView, script_args: &[u8], index: usize) -> (r: Result<(), InternalError>)
    requires
        index < tx.outputs@.len(),
    ensures
        r == spec_create(*tx, script_args@, index as int),
{
    if script_args.len() != 32 {
        return Err(InternalError::CreateInvalidArgsLength);
    }
    let unique_id = load_then_calculate_unique_id(tx.first_input.as_slice(), index);
    if !bytes_eq(script_args, unique_id.as_slice()) {
        return Err(InternalError::CreateIncorrectUniqueId);
    }
    let data = &tx.outputs[index].data;
    if data.len() != 32 {
        return Err(InternalError::CreateInitializedDataInvalidLength);
    }
    let z = zero32();
    if !bytes_eq(data.as_slice(), z.as_slice()) {
        return Err(InternalError::CreateInitializedDataNotEmpty);
    }
    Ok(())
}

/// Authorizes the destruction of the record at this position: ownership is
/// the only requirement, so destruction is always permitted.
fn destroy(_index: usize) -> (r: Result<(), InternalError>)
    ensures
        r is Ok,
{
    Ok(())
}

/// Authorizes the update of the record: checks both roots, locates the
/// attached update record, and verifies the transition.
fn update(tx: &TxView, input_index: usize, output_index: usize) -> (r: Result<(), Error>)
    requires
        input_index < tx.inputs@.len(),
        output_index < tx.outputs@.len(),
    ensures
        r == spec_update(*tx, input_index as int, output_index as int),
{
    let input_data = &tx.inputs[input_index].data;
    if input_data.len() != 32 {
        return Err(Error::Internal(InternalError::UpdateInputDataInvalidLength));
    }
    let output_data = &tx.outputs[output_index].data;
    if output_data.len() != 32 {
        return Err(Error::Internal(InternalError::UpdateOutputDataInvalidLength));
    }
    if output_index >= tx.witnesses.len() {
        return Err(Error::Internal(InternalError::IndexOutOfBound));
    }
    match &tx.witnesses[output_index].output_type {
        None => Err(Error::Internal(InternalError::UpdateWitnessIsNotExisted)),
        Some(w) => match decode_smt_update(w.as_slice()) {
            None => Err(Error::Internal(InternalError::Encoding)),
            Some(u) => {
                if !bytes_eq(u.new_root.as_slice(), output_data.as_slice()) {
                    return Err(Error::Internal(InternalError::UpdateNewRootIsMismatch));
                }
                let old_root = crate::codec::to_digest(input_data.as_slice());
                match u.verify_smt(&old_root) {
                    Ok(()) => Ok(()),
                    Err(e) => Err(Error::SmtTool(e)),
                }
            },
        },
    }
}

/// Runs the validator over the transaction: the whole verdict, one check at
/// a time, first failure wins.
pub fn main(tx: &TxView, script_hash: &[u8; 32], script_args: &[u8]) -> (r: Result<(), Error>)
    ensures
        r == spec_kvstore(*tx, script_hash@, script_args@),
{
    let indexes_of_inputs = crate::txview::find_owned(&tx.inputs, script_hash);
    let indexes_of_outputs = crate::txview::find_owned(&tx.outputs, script_hash);
    if indexes_of_inputs.len() == 0 && indexes_of_outputs.len() == 1 {
        match create(tx, script_args, indexes_of_outputs[0]) {
            Ok(()) => Ok(()),
            Err(e) => Err(Error::Internal(e)),
        }
    } else if indexes_of_inputs.len() == 1 && indexes_of_outputs.len() == 0 {
        match destroy(indexes_of_inputs[0]) {
            Ok(()) => Ok(()),
            Err(e) => Err(Error::Internal(e)),
        }
    } else if indexes_of_inputs.len() == 1 && indexes_of_outputs.len() == 1 {
        update(tx, indexes_of_inputs[0], indexes_of_outputs[0])
    } else {
        Err(Error::Internal(InternalError::UnknownOperation))
    }
}

/// The validator's entry point: the status code for one transaction, zero
/// exactly when every check passes.
pub fn program_entry(tx: &TxView, script_hash: &[u8; 32], script_args: &[u8]) -> (r: i8)
    ensures
        r == (match spec_kvstore(*tx, script_hash@, script_args@) {
            Ok(()) => 0i8,
            Err(e) => error_code_of(e),
        }),
{
    match main(tx, script_hash, script_args) {
        Ok(()) => 0,
        Err(e) => e.error_code(),
    }
}

} // verus!
