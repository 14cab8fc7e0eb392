use vstd::prelude::*;

verus! {

/// Error types for `U8Pool` operations.
#[derive(Debug, PartialEq, Eq, Clone)]
pub enum U8PoolError {
    /// Buffer has insufficient space for the requested operation.
    BufferOverflow {
        /// Number of bytes requested.
        requested: usize,
        /// Number of bytes available.
        available: usize,
    },
    /// Index is beyond the current vector length.
    IndexOutOfBounds {
        /// Index that was accessed.
        index: usize,
        /// Current length of the vector.
        length: usize,
    },
    /// Invalid parameters or buffer provided to `U8Pool::new`.
    InvalidInitialization {
        /// Description of why initialization failed.
        reason: &'static str,
    },
    /// Maximum number of slices has been reached.
    SliceLimitExceeded {
        /// Maximum number of slices allowed.
        max_slices: usize,
    },
    /// Value too large for 2-byte storage.
    ValueTooLarge {
        /// Value that was too large.
        value: usize,
        /// Maximum allowed value.
        max: usize,
    },
}

} // verus!
