//! The ways in which reading a manifest or building an index fails.
use vstd::prelude::*;

verus! {

/// Why a manifest could not be read, or a catalog not be indexed.
#[derive(Clone, Copy, Debug, PartialEq, Eq, Structural)]
pub enum SeekerError {
    /// A `searchIndex` line holds no `=` to start its fragment.
    ManifestSyntax,
    /// A fragment is not JSON of the manifest's shape, or an item names a
    /// parent that its fragment does not list.
    Schema,
    /// A type tag, carried here, that stands for no kind of item.
    UnknownTypeTag(usize),
    /// The catalog holds more items than a packed range can address.
    Capacity,
}

} // verus!
