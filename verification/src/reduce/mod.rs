//! Reduction of a failing test case: the decisions of each reduction step,
//! between the simulation runs that check a candidate.
use vstd::prelude::*;

use crate::inst::{inst_fits_at, inst_len_at, inst_len_of, halfword_at, C_NOP, NOP};
use crate::state_tracker::StateTrackers;

pub mod bisect;
pub mod cover;
pub mod nop;
pub mod strip_prefix;
pub mod strip_suffix;
pub mod trim;

verus! {

/// How a simulation run ended.
#[derive(Clone, Copy, Debug, PartialEq, Eq, Structural)]
pub enum ExitStatus {
    Success,
    Crash,
    Other,
}

/// The last pc of a recorded trace, if there is one.
pub open spec fn last_pc(trackers: StateTrackers) -> Option<u64> {
    let s = trackers.pc_tracker.states();
    if s.len() == 0 {
        None
    } else {
        Some(s.last().value)
    }
}

/// A candidate reproduces the original failure when its run crashed at the
/// same final pc as the original run.
pub fn is_same_failure_site(exit: ExitStatus, candidate: &StateTrackers, original: &StateTrackers) -> (b:
    bool)
    ensures
        b == (exit == ExitStatus::Crash && last_pc(*candidate) is Some && last_pc(*candidate)
            == last_pc(*original)),
{
    if exit != ExitStatus::Crash {
        return false;
    }
    let candidate_pcs = candidate.pc_tracker.as_slice();
    let original_pcs = original.pc_tracker.as_slice();
    if candidate_pcs.len() == 0 || original_pcs.len() == 0 {
        return false;
    }
    candidate_pcs[candidate_pcs.len() - 1].value == original_pcs[original_pcs.len() - 1].value
}

/// The bytes of a no-op of `len` bytes: `c.nop` for 2, `addi x0, x0, 0`
/// for 4.
pub open spec fn nop_bytes(len: int) -> Seq<u8> {
    if len == 2 {
        seq![0x01u8, 0x00u8]
    } else {
        seq![0x13u8, 0x00u8, 0x00u8, 0x00u8]
    }
}

/// `bytes` with the `len` bytes at `offset` replaced by a no-op.
pub open spec fn with_nop(bytes: Seq<u8>, offset: int, len: int) -> Seq<u8> {
    bytes.take(offset) + nop_bytes(len) + bytes.skip(offset + len)
}

/// Overwrites the instruction of `len` bytes at `offset` with a no-op.
pub fn write_nop(bytes: &mut [u8], offset: usize, len: usize)
    requires
        len == 2 || len == 4,
        offset + len <= old(bytes)@.len(),
    ensures
        final(bytes)@ == with_nop(old(bytes)@, offset as int, len as int),
{
    let ghost before = bytes@;
    if len == 2 {
        let nop = C_NOP;
        bytes[offset] = nop[0];
        bytes[offset + 1] = nop[1];
    } else {
        let nop = NOP;
        bytes[offset] = nop[0];
        bytes[offset + 1] = nop[1];
        bytes[offset + 2] = nop[2];
        bytes[offset + 3] = nop[3];
    }
    assert(bytes@ =~= with_nop(before, offset as int, len as int));
}

/// A copy of the bytes.
pub fn copy_bytes(input: &[u8]) -> (v: Vec<u8>)
    ensures
        v@ == input@,
{
    vstd::slice::slice_to_vec(input)
}

/// Replaces the instruction at `offset` of `input` (its length read from
/// `input`) with a no-op in `bytes`.
pub fn nop_inst_at(bytes: &mut [u8], input: &[u8], offset: usize)
    requires
        inst_fits_at(input@, offset as int),
        old(bytes)@.len() == input@.len(),
    ensures
        final(bytes)@ == with_nop(
            old(bytes)@,
            offset as int,
            inst_len_of(halfword_at(input@, offset as int)) as int,
        ),
{
    let inst_len = inst_len_at(input, offset);
    write_nop(bytes, offset, inst_len);
}

} // verus!
