//! The errors that stop a writer.

use vstd::prelude::*;

verus! {

/// Why an image could not be written.
#[derive(Debug, Clone, Copy, PartialEq, Eq, Structural)]
pub enum KfsError {
    /// The ROM has fewer than 13 pages, or so many that the first FAT page
    /// number does not fit in one byte.
    InvalidLayout,
    /// A regular file holds more than `0xFFFFFF` bytes.
    FileTooLarge,
    /// A name (or a link's name and target together) does not fit in an entry.
    NameTooLong,
    /// The FAT region and the DAT region would run into each other.
    OutOfSpace,
    /// More directories than 16-bit directory numbers.
    TooManyDirectories,
}

} // verus!
