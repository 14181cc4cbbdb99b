//! Binary delta patches in the ddelta format.
//!
//! A patch turns an old byte sequence into a new one. [`generate`] writes a patch that is
//! compatible with the ddelta tool, [`apply`] reads one; [`generate_chunked`] and
//! [`apply_chunked`] handle inputs of any size by concatenating patches.
//!
//! What a patch holds is defined in [`diff`] as [`diff::delta`], what applying it gives in
//! [`patch`] as [`patch::apply_spec`], and the executable functions are proved to compute
//! just that. That a patch applied to the old data gives the new data is proved in
//! [`diff::lemma_round_trip`] and, for chunked patches, [`diff::lemma_chunked_round_trip`].
//! The proofs rest on the suffix sorter and on the byte order conversions, which are
//! called and not proved.

use vstd::prelude::*;

pub mod diff;
pub mod extend;
pub mod format;
pub mod patch;
pub mod scan;
pub mod search;
pub mod stream;

pub use diff::{generate, generate_chunked};
pub use patch::{apply, apply_chunked};

verus! {

/// The phase a generator is in, reported to the caller's progress callback.
#[derive(Eq, PartialEq, Copy, Clone, Hash, Debug, Structural)]
pub enum State {
    /// Input is being read.
    Reading,
    /// The suffix array of the old data is being built.
    Sorting,
    /// The matcher is running; the number counts the bytes of new data done so far.
    Working(u64),
}

/// Why a patch could not be generated or applied.
#[derive(Eq, PartialEq, Copy, Clone, Hash, Debug, Structural)]
pub enum Error {
    /// An input of `generate` is longer than `i32::MAX` bytes.
    InputTooLarge,
    /// The patch does not start with the magic bytes.
    BadMagic,
    /// The patch ends inside a header, an entry or its payload, or its terminator comes
    /// before the announced number of bytes was produced.
    PatchTruncated,
    /// An entry asks for old data that is not there, or seeks to a position that does not
    /// exist.
    PatchCorrupt,
}

} // verus!
