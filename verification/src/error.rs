//! Error kinds shared by the codecs. Filesystem errors stay outside the
//! library: decoding reports a malformed layout as `Format` and byte runs
//! that are not valid UTF-8 as `Encoding`.

use vstd::prelude::*;

verus! {

/// Why a decode step rejected its input.
#[derive(Debug, Clone, Copy, PartialEq, Eq, Structural)]
pub enum NitError {
    /// A header, field or length did not match the binary layout.
    Format,
    /// A name field held bytes that are not valid UTF-8.
    Encoding,
    /// The compression codec reported a failure.
    Io,
}

} // verus!
