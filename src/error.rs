//! What can go wrong when a file is read or an entry is edited.
use vstd::prelude::*;

verus! {

/// Why a file could not be read or an edit was refused.
#[derive(Debug, Clone, Copy, PartialEq, Eq, Structural)]
pub enum VdfError {
    /// The bytes do not follow the format: an unknown type tag, a truncated
    /// integer, a bad UTF-8 run, a missing end of map, maps nested too deep, no
    /// `shortcuts` map at the root, or an entry key that is not an index.
    MalformedInput,
    /// A known property holds a value of another kind than the schema gives
    /// it, or an edit's text does not read as the property's kind.
    TypeMismatch,
    /// An edit names a property that the schema does not know.
    UnknownSchemaKey,
}

} // verus!
