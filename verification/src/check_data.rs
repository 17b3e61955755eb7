//! The data-check validator: locates the one referenced record that carries
//! the trusted root, then demands that every spent record guarded by its own
//! identity comes with a data-with-proof record that verifies against that
//! root.

use vstd::prelude::*;
use crate::codec::{dec_dwp, decode_data_with_proof};
use crate::smt::compute_root_of;
use crate::txview::{lock_owned, owned_ixs, TxView};
use crate::types::{kv_leaves, verify_error_code, VerifyError};

verus! {

/// The checks this validator makes itself.
#[derive(Clone, Copy, Debug, PartialEq, Eq, Structural)]
pub enum InternalError {
    /// A record or payload index that the transaction does not have.
    IndexOutOfBound,
    /// A requested item that the transaction does not carry.
    ItemMissing,
    /// A payload shorter than the structure read from it.
    LengthNotEnough,
    /// A payload that is not the wire form of the expected structure.
    Encoding,
    /// A failure of the host environment with no closer description.
    Unknown,
    /// The identity parameter is not 32 bytes.
    InvalidArgsLength,
    /// More than one referenced record matches the root source identity.
    CellDepMoreThanOne,
    /// No referenced record matches the root source identity.
    CellDepNotFound,
    /// The root source record's data is not 32 bytes.
    CellDepInvalidCellData,
    /// No data-with-proof record is attached at a guarded record's position.
    WitnessIsNotExisted,
}

/// The status code each of this validator's own checks is reported as.
pub open spec fn internal_error_code(e: InternalError) -> i8 {
    match e {
        InternalError::IndexOutOfBound => 0x01,
        InternalError::ItemMissing => 0x02,
        InternalError::LengthNotEnough => 0x03,
        InternalError::Encoding => 0x04,
        InternalError::Unknown => 0x05,
        InternalError::InvalidArgsLength => 0x10,
        InternalError::CellDepMoreThanOne => 0x11,
        InternalError::CellDepNotFound => 0x12,
        InternalError::CellDepInvalidCellData => 0x13,
        InternalError::WitnessIsNotExisted => 0x14,
    }
}

/// Everything this validator can reject for.
#[derive(Clone, Copy, Debug, PartialEq, Eq, Structural)]
pub enum Error {
    /// One of the validator's own checks failed.
    Internal(InternalError),
    /// The proof-verification layer rejected a data-with-proof record.
    SmtTool(VerifyError),
}

/// The status code a rejection is reported as: the validator's own checks
/// keep their codes, the proof-verification layer's codes are offset so the
/// two ranges never collide.
pub open spec fn error_code_of(e: Error) -> i8 {
    match e {
        Error::Internal(i) => internal_error_code(i),
        Error::SmtTool(v) => (0x60 + verify_error_code(v)) as i8,
    }
}

impl Error {
    /// The status code this rejection is reported as.
    pub fn error_code(&self) -> (r: i8)
        ensures
            r == error_code_of(*self),
    {
        match *self {
            Error::Internal(e) => match e {
                InternalError::IndexOutOfBound => 0x01,
                InternalError::ItemMissing => 0x02,
                InternalError::LengthNotEnough => 0x03,
                InternalError::Encoding => 0x04,
                InternalError::Unknown => 0x05,
                InternalError::InvalidArgsLength => 0x10,
                InternalError::CellDepMoreThanOne => 0x11,
                InternalError::CellDepNotFound => 0x12,
                InternalError::CellDepInvalidCellData => 0x13,
                InternalError::WitnessIsNotExisted => 0x14,
            },
            Error::SmtTool(e) => 0x60 + e.error_code(),
        }
    }
}

/// The verdict on root discovery: exactly one referenced record's state
/// must be validated by the identity named in the parameter, and its data
/// must be a root.
pub open spec fn spec_find_root(tx: TxView, dep_hash: Seq<u8>) -> Result<Seq<u8>, InternalError> {
    let deps = owned_ixs(tx.cell_deps@, dep_hash);
    if deps.len() >= 2 {
        Err(InternalError::CellDepMoreThanOne)
    } else if deps.len() == 0 {
        Err(InternalError::CellDepNotFound)
    } else if tx.cell_deps@[deps[0]].data@.len() != 32 {
        Err(InternalError::CellDepInvalidCellData)
    } else {
        Ok(tx.cell_deps@[deps[0]].data@)
    }
}

/// The verdict on the spent records from position `i` on: every record
/// guarded by the identity must carry a data-with-proof record whose proof
/// reduces its claims to the trusted root; the first failure wins.
pub open spec fn spec_check_witnesses(tx: TxView, sh: Seq<u8>, root: Seq<u8>, i: int) -> Result<
    (),
    Error,
>
    decreases tx.inputs@.len() - i,
{
    if i < 0 || i >= tx.inputs@.len() {
        Ok(())
    } else if !lock_owned(tx.inputs@[i], sh) {
        spec_check_witnesses(tx, sh, root, i + 1)
    } else if i >= tx.witnesses@.len() {
        Err(Error::Internal(InternalError::IndexOutOfBound))
    } else {
        match tx.witnesses@[i].lock {
            None => Err(Error::Internal(InternalError::WitnessIsNotExisted)),
            Some(w) => match dec_dwp(w@) {
                None => Err(Error::Internal(InternalError::Encoding)),
                Some(v) => {
                    let c = compute_root_of(v.proof, kv_leaves(v.data));
                    if c is None {
                        Err(Error::SmtTool(VerifyError::ComputeRoot))
                    } else if c != Some(root) {
                        Err(Error::SmtTool(VerifyError::MismatchedRoot))
                    } else {
                        spec_check_witnesses(tx, sh, root, i + 1)
                    }
                },
            },
        }
    }
}

/// The verdict on a whole transaction.
pub open spec fn spec_check_data(tx: TxView, sh: Seq<u8>, args: Seq<u8>) -> Result<(), Error> {
    if args.len() != 32 {
        Err(Error::Internal(InternalError::InvalidArgsLength))
    } else {
        match spec_find_root(tx, args) {
            Err(e) => Err(Error::Internal(e)),
            Ok(root) => spec_check_witnesses(tx, sh, root, 0),
        }
    }
}

/// Finds the one referenced record carrying the trusted root and reads it.
fn find_then_load_smt_root_from_cell_dep(tx: &TxView, script_hash: &[u8]) -> (r: Result<
    [u8; 32],
    InternalError,
>)
    requires
        script_hash@.len() == 32,
    ensures
        match (r, spec_find_root(*tx, script_hash@)) {
            (Ok(d), Ok(s)) => d@ == s,
            (Err(e1), Err(e2)) => e1 == e2,
            _ => false,
        },
{
    let dep_digest = crate::codec::to_digest(script_hash);
    let deps = crate::txview::find_owned(&tx.cell_deps, &dep_digest);
    if deps.len() >= 2 {
        return Err(InternalError::CellDepMoreThanOne);
    }
    if deps.len() == 0 {
        return Err(InternalError::CellDepNotFound);
    }
    let data = &tx.cell_deps[deps[0]].data;
    if data.len() != 32 {
        return Err(InternalError::CellDepInvalidCellData);
    }
    Ok(crate::codec::to_digest(data.as_slice()))
}

/// Checks every spent record guarded by this identity against the root.
fn check_witnesses(tx: &TxView, script_hash: &[u8; 32], root: &[u8; 32]) -> (r: Result<(), Error>)
    ensures
        r == spec_check_witnesses(*tx, script_hash@, root@, 0),
{
    let mut i: usize = 0;
    while i < tx.inputs.len()
        invariant
            i <= tx.inputs@.len(),
            spec_check_witnesses(*tx, script_hash@, root@, 0) == spec_check_witnesses(
                *tx,
                script_hash@,
                root@,
                i as int,
            ),
        decreases tx.inputs@.len() - i,
    {
        if crate::bytes_eq(tx.inputs[i].lock_hash.as_slice(), script_hash.as_slice()) {
            if i >= tx.witnesses.len() {
                return Err(Error::Internal(InternalError::IndexOutOfBound));
            }
            match &tx.witnesses[i].lock {
                None => {
                    return Err(Error::Internal(InternalError::WitnessIsNotExisted));
                },
                Some(w) => match decode_data_with_proof(w.as_slice()) {
                    None => {
                        return Err(Error::Internal(InternalError::Encoding));
                    },
                    Some(v) => match v.verify_smt(root) {
                        Ok(()) => {},
                        Err(e) => {
                            return Err(Error::SmtTool(e));
                        },
                    },
                },
            }
        }
        i += 1;
    }
    Ok(())
}

/// Runs the validator over the transaction: the whole verdict, one check at
/// a time, first failure wins.
pub fn main(tx: &TxView, script_hash: &[u8; 32], script_args: &[u8]) -> (r: Result<(), Error>)
    ensures
        r == spec_check_data(*tx, script_hash@, script_args@),
{
    if script_args.len() != 32 {
        return Err(Error::Internal(InternalError::InvalidArgsLength));
    }
    match find_then_load_smt_root_from_cell_dep(tx, script_args) {
        Err(e) => Err(Error::Internal(e)),
        Ok(root) => check_witnesses(tx, script_hash, &root),
    }
}

/// The validator's entry point: the status code for one transaction, zero
/// exactly when every check passes.
pub fn program_entry(tx: &TxView, script_hash: &[u8; 32], script_args: &[u8]) -> (r: i8)
    ensures
        r == (match spec_check_data(*tx, script_hash@, script_args@) {
            Ok(()) => 0i8,
            Err(e) => error_code_of(e),
        }),
{
    match main(tx, script_hash, script_args) {
        Ok(()) => 0,
        Err(e) => e.error_code(),
    }
}

} // verus!
