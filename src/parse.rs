//! Splitting one value off the front of a byte slice.
use vstd::prelude::*;

use crate::format::{invalid_kind, lemma_run_len, normalize, run_len, DecodeError, MAX_LEN};
use crate::varint::{LooseVarInt, VarInt};

verus! {

/// Splits the terminated run off the front of `input`: the bytes after it,
/// and the run, not yet normalized.
pub fn varint_loose(input: &[u8]) -> (r: Result<(&[u8], LooseVarInt<'_>), DecodeError>)
    ensures
        match r {
            Ok((rest, l)) => {
                &&& run_len(input@) > 0
                &&& l@ == input@.take(run_len(input@) as int)
                &&& rest@ == input@.skip(run_len(input@) as int)
            },
            Err(e) => run_len(input@) == 0 && e == invalid_kind(input@),
        },
{
    match VarInt::find_loose(input) {
        Some(l) => {
            let n = l.inner().len();
            proof {
                lemma_run_len(input@);
                assert(input@.subrange(n as int, input@.len() as int) =~= input@.skip(n as int));
            }
            Ok((&input[n..input.len()], l))
        },
        None => {
            if input.len() >= MAX_LEN {
                Err(DecodeError::TooManyContinuationBytes)
            } else {
                Err(DecodeError::Truncated)
            }
        },
    }
}

/// Splits one value off the front of `input`: the bytes after it, and the
/// value, normalized.
pub fn varint(input: &[u8]) -> (r: Result<(&[u8], VarInt), DecodeError>)
    ensures
        match r {
            Ok((rest, v)) => {
                &&& run_len(input@) > 0
                &&& v@ == normalize(input@.take(run_len(input@) as int))
                &&& rest@ == input@.skip(run_len(input@) as int)
            },
            Err(e) => run_len(input@) == 0 && e == invalid_kind(input@),
        },
{
    match varint_loose(input) {
        Ok((rest, l)) => Ok((rest, l.to_varint())),
        Err(e) => Err(e),
    }
}

} // verus!
