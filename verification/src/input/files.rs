//! The decisions taken while input files are read from disk: which files are
//! admitted by what their metadata says, how many bytes a bounded read may
//! take, and how the byte totals of several files are accumulated. The
//! reading itself happens outside the library, which hands these functions
//! the plain facts it observed.
use vstd::prelude::*;

use crate::input::grammar::DecodeFault;
use crate::input::shards::{InputError, InputFault};
use crate::input::{InputDecodeError, InputLimits};
use crate::text::owned;

verus! {

/// The refusal, if any, of a file whose metadata says whether it is a
/// regular file and how long it is.
pub open spec fn metadata_fault(path: Seq<char>, is_file: bool, len: u64, limits: InputLimits) -> Option<DecodeFault> {
    if !is_file {
        Some(DecodeFault::NotARegularFile(path))
    } else if len > limits.max_file_bytes {
        Some(DecodeFault::FileTooLarge { limit: limits.max_file_bytes, found: len as int })
    } else {
        None
    }
}

/// Admit an opened file by its metadata: it must be a regular file no longer
/// than the per-file limit.
pub fn admit_file_metadata(path: &str, is_file: bool, len: u64, limits: &InputLimits) -> (r: Result<(), InputDecodeError>)
    ensures
        match metadata_fault(path@, is_file, len, *limits) {
            None => r is Ok,
            Some(f) => r matches Err(e) && e@ == f,
        },
{
    if !is_file {
        return Err(InputDecodeError::NotARegularFile(owned(path)));
    }
    if len > limits.max_file_bytes as u64 {
        return Err(InputDecodeError::FileTooLarge { limit: limits.max_file_bytes, found: len });
    }
    Ok(())
}

/// The number of bytes a bounded read of one file takes: one more than the
/// per-file limit, so that a longer file shows itself.
pub fn file_read_limit(limits: &InputLimits) -> (r: Result<usize, InputDecodeError>)
    ensures
        limits.max_file_bytes < usize::MAX ==> r == Ok::<usize, InputDecodeError>((limits.max_file_bytes + 1) as usize),
        limits.max_file_bytes == usize::MAX ==> (r matches Err(e) && e@ == DecodeFault::LimitExceeded(
            "max_file_bytes overflow"@,
        )),
{
    match limits.max_file_bytes.checked_add(1) {
        Some(n) => Ok(n),
        None => Err(InputDecodeError::LimitExceeded("max_file_bytes overflow")),
    }
}

/// Refuse more paths than the file limit allows.
pub fn admit_path_count(count: usize, limits: &InputLimits) -> (r: Result<(), InputError>)
    ensures
        count <= limits.max_files ==> r is Ok,
        count > limits.max_files ==> (r matches Err(e) && e@ == (InputFault::TooManyFiles {
            limit: limits.max_files,
            found: count as int,
        })),
{
    if count > limits.max_files {
        return Err(InputError::TooManyFiles { limit: limits.max_files, found: count });
    }
    Ok(())
}

/// The running byte total after adding `add`, or the refusal when it exceeds
/// the aggregate limit (or `usize`).
pub open spec fn aggregate_step(total: usize, add: int, limits: InputLimits) -> Result<usize, InputFault> {
    if total + add > usize::MAX {
        Err(InputFault::AggregateBytesExceeded { limit: limits.max_aggregate_bytes, found: usize::MAX as int })
    } else if total + add > limits.max_aggregate_bytes {
        Err(InputFault::AggregateBytesExceeded { limit: limits.max_aggregate_bytes, found: total + add })
    } else {
        Ok((total + add) as usize)
    }
}

/// `r` is what `o` describes.
pub open spec fn step_matches(r: Result<usize, InputError>, o: Result<usize, InputFault>) -> bool {
    match o {
        Ok(n) => r == Ok::<usize, InputError>(n),
        Err(f) => r matches Err(e) && e@ == f,
    }
}

/// Add `bytes` to the running aggregate byte total.
pub fn add_aggregate_bytes(total: usize, bytes: usize, limits: &InputLimits) -> (r: Result<usize, InputError>)
    ensures
        step_matches(r, aggregate_step(total, bytes as int, *limits)),
{
    match total.checked_add(bytes) {
        None => Err(InputError::AggregateBytesExceeded { limit: limits.max_aggregate_bytes, found: usize::MAX }),
        Some(sum) => {
            if sum > limits.max_aggregate_bytes {
                Err(InputError::AggregateBytesExceeded { limit: limits.max_aggregate_bytes, found: sum })
            } else {
                Ok(sum)
            }
        },
    }
}

/// Admit one file in the metadata preflight: it must be a regular file no
/// longer than the per-file limit, and the running total of the lengths the
/// metadata reports must stay within the aggregate limit.
pub fn admit_metadata_entry(total: usize, path: &str, is_file: bool, len: u64, limits: &InputLimits) -> (r: Result<
    usize,
    InputError,
>)
    ensures
        match metadata_fault(path@, is_file, len, *limits) {
            Some(f) => r matches Err(e) && e@ == InputFault::Decode(f),
            None => step_matches(r, aggregate_step(total, len as int, *limits)),
        },
{
    match admit_file_metadata(path, is_file, len, limits) {
        Ok(()) => {},
        Err(e) => {
            return Err(InputError::Decode(e));
        },
    }
    add_aggregate_bytes(total, len as usize, limits)
}

} // verus!
