//! Reading a file.
use vstd::prelude::*;
use super::{Entry, ErrorReason, Verdict};

verus! {

/// The path prefix of the reader.
pub const BASE: &'static str = "/api/file";

/// The method of the reader.
pub const METHOD: &'static str = "GET";

/// The reader's verdict on what the metadata says: only a file is read; an
/// entry without metadata is a general failure, anything else a directory.
pub open spec fn read_decision(entry: Entry) -> Verdict {
    match entry {
        Entry::Missing => Verdict::Reject(ErrorReason::GeneralFailure),
        Entry::File => Verdict::CheckContainment,
        _ => Verdict::Reject(ErrorReason::IsDir),
    }
}

/// The reader's verdict, as `read_decision` gives it.
pub fn read_verdict(entry: Entry) -> (r: Verdict)
    ensures
        r == read_decision(entry),
{
    match entry {
        Entry::Missing => Verdict::Reject(ErrorReason::GeneralFailure),
        Entry::File => Verdict::CheckContainment,
        _ => Verdict::Reject(ErrorReason::IsDir),
    }
}

} // verus!
