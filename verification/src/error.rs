//! The failure that the codec and the store report.

use vstd::prelude::*;

verus! {

/// Why an operation on the log failed.
#[derive(Debug, Clone, Copy, PartialEq, Eq, Structural)]
pub enum Error {
    /// The log holds a record that is cut short or whose checksum does not
    /// match its payload. Nothing is repaired or skipped.
    Corruption,
}

} // verus!
