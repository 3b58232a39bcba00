//! Writing a file from the body of a request.
use vstd::prelude::*;
use super::{Entry, ErrorReason, Verdict};

verus! {

/// The path prefix of the upload handler.
pub const BASE: &'static str = "/api/file";

/// The method of the upload handler.
pub const METHOD: &'static str = "POST";

/// The verdict on an upload: outside the mount point it is refused,
/// and so is a directory; other entries proceed.
pub open spec fn write_decision(within: bool, entry: Entry) -> Verdict {
    if !within {
        Verdict::Reject(ErrorReason::OutOfFs)
    } else if entry == Entry::Directory {
        Verdict::Reject(ErrorReason::IsDir)
    } else {
        Verdict::Proceed
    }
}

/// The verdict on an upload, as `write_decision` gives it.
pub fn write_verdict(within: bool, entry: Entry) -> (r: Verdict)
    ensures
        r == write_decision(within, entry),
{
    if !within {
        Verdict::Reject(ErrorReason::OutOfFs)
    } else if entry == Entry::Directory {
        Verdict::Reject(ErrorReason::IsDir)
    } else {
        Verdict::Proceed
    }
}


/// How opening the file for reading and writing went.
#[derive(Clone, Copy, Debug, PartialEq, Eq, Structural)]
pub enum OpenOutcome {
    Opened,
    /// The file does not exist.
    NotFound,
    /// Any other failure.
    Failed,
}

/// What the writer does after an attempt to open or create the file.
#[derive(Clone, Copy, Debug, PartialEq, Eq, Structural)]
pub enum OpenStep {
    /// Copy the body into the file.
    Transfer,
    /// Create the file.
    Create,
    /// Answer 400 with the reason.
    Reject(ErrorReason),
}

/// The step after opening: a missing file is created, any other failure is
/// an open error.
pub fn after_open(outcome: OpenOutcome) -> (r: OpenStep)
    ensures
        r == (match outcome {
            OpenOutcome::Opened => OpenStep::Transfer,
            OpenOutcome::NotFound => OpenStep::Create,
            OpenOutcome::Failed => OpenStep::Reject(ErrorReason::OpenError),
        }),
{
    match outcome {
        OpenOutcome::Opened => OpenStep::Transfer,
        OpenOutcome::NotFound => OpenStep::Create,
        OpenOutcome::Failed => OpenStep::Reject(ErrorReason::OpenError),
    }
}

/// The step after creating the missing file: a failure is reported as an
/// open error, since the creation error is overwritten by it.
pub fn after_create(created: bool) -> (r: OpenStep)
    ensures
        r == (if created {
            OpenStep::Transfer
        } else {
            OpenStep::Reject(ErrorReason::OpenError)
        }),
{
    let mut reason = ErrorReason::Fine;
    let mut fine = false;
    if !created {
        reason = ErrorReason::CreationError;
    } else {
        fine = true;
    }
    if !fine {
        reason = ErrorReason::OpenError;
    }
    if fine {
        OpenStep::Transfer
    } else {
        OpenStep::Reject(reason)
    }
}

/// The state of copying a request body into a file: the reason to report
/// so far and the number of bytes received.
pub struct Upload {
    pub reason: ErrorReason,
    pub received: u64,
}

impl Upload {
    /// A copy that has not started.
    pub fn new() -> (r: Upload)
        ensures
            r.reason == ErrorReason::Fine,
            r.received == 0,
    {
        Upload { reason: ErrorReason::Fine, received: 0 }
    }

    /// Takes the result of reading a chunk of the body: `None` for a read
    /// error, which ends the copy as a write error; `Some(0)` for the end of
    /// the body; `Some(n)` for `n` bytes, which the copy goes on to store.
    /// Says whether those bytes are to be stored.
    pub fn on_read(&mut self, chunk: Option<usize>) -> (go_on: bool)
        ensures
            go_on == (chunk matches Some(n) && n > 0),
            final(self).received == old(self).received,
            final(self).reason == (if chunk is None {
                ErrorReason::WriteError
            } else {
                old(self).reason
            }),
    {
        match chunk {
            None => {
                self.reason = ErrorReason::WriteError;
                false
            },
            Some(n) => n > 0,
        }
    }

    /// Takes the result of storing `n` bytes: a failure is reported as a
    /// write error, and the copy goes on either way.
    pub fn on_stored(&mut self, stored: bool, n: usize)
        ensures
            final(self).received == (if old(self).received + n > u64::MAX {
                u64::MAX as int
            } else {
                old(self).received + n
            }),
            final(self).reason == (if stored {
                old(self).reason
            } else {
                ErrorReason::WriteError
            }),
    {
        if !stored {
            self.reason = ErrorReason::WriteError;
        }
        self.received = self.received.saturating_add(n as u64);
    }

    /// Takes the result of setting the file's length: a failure is reported
    /// as a truncation error.
    pub fn on_truncated(&mut self, truncated: bool)
        ensures
            final(self).received == old(self).received,
            final(self).reason == (if truncated {
                old(self).reason
            } else {
                ErrorReason::TruncateError
            }),
    {
        if !truncated {
            self.reason = ErrorReason::TruncateError;
        }
    }
}

} // verus!
