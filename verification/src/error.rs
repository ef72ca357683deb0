use vstd::prelude::*;

verus! {

/// Why an operation of this library failed.
#[derive(Debug, Clone, Copy, PartialEq, Eq, Structural)]
pub enum GitError {
    /// The input is structurally wrong: bad pack magic or version, a
    /// malformed pkt-line length, a delta that leaves the base or misses
    /// its declared size, a number that does not fit the machine.
    Format,
    /// The byte stream ended before the value that was being read.
    Transport,
    /// A referenced object is not among the pack's own objects, or the
    /// entry is of a kind that is recognised but not supported.
    NotFound,
    /// Reading or writing failed outside this library: a file could not be
    /// written, an encoder could not finish.
    Io,
}

} // verus!
