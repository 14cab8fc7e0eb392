use vstd::prelude::*;

use crate::io::IoError;
use crate::rjiter_error::Error as RJiterError;
use crate::tokenizer::Peeked;

verus! {

/// Errors of `scan` and of the transformations built on it.
#[derive(Debug, Clone, PartialEq, Eq)]
pub enum Error {
    /// Error from the streaming tokenizer.
    RJiterError(RJiterError),
    /// A value that no handler consumed and that is not a JSON value.
    UnhandledPeek {
        /// The first byte of the value.
        peek: Peeked,
        /// The stream index where it was found.
        position: usize,
    },
    /// The input ended inside an array or object.
    UnbalancedJson(usize),
    /// An internal inconsistency.
    InternalError {
        /// The stream index where it was found.
        position: usize,
        /// What went wrong.
        message: &'static str,
    },
    /// The context stack is full.
    MaxNestingExceeded {
        /// The stream index where it was found.
        position: usize,
        /// The nesting level that exceeded the maximum.
        level: usize,
    },
    /// An action reported an error.
    ActionError {
        /// The action's message.
        message: &'static str,
        /// The stream index where it was reported.
        position: usize,
    },
    /// An I/O error while writing the output.
    IOError(IoError),
}

} // verus!
