//! The failures that the content store reports to its callers.

use vstd::prelude::*;

verus! {

/// A store operation that fails says which of three things went wrong:
/// the underlying storage failed (`IO`), a document does not conform to
/// the expected format (`Deserialize`), or a caller-supplied identifier
/// does not resolve to a document (`NotFound`).
///
/// `IO` and `Deserialize` are server-side faults; `NotFound` is a miss
/// driven by untrusted request input.
#[derive(Debug, Clone)]
pub enum Error {
    /// Reading from the underlying storage failed.
    IO { error: String, path: String },
    /// A document is corrupt or does not conform to the format.
    Deserialize { error: String, path: String },
    /// A caller-supplied identifier does not resolve to a document.
    NotFound { slug: String, error: String },
}

} // verus!
