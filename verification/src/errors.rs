use vstd::prelude::*;

verus! {

/// Every way one of the journal operations can fail. Failures are detected
/// before any state is written, so an operation that returns an error leaves
/// the journal exactly as it found it.
#[derive(Clone, Copy, Debug, PartialEq, Eq, Structural)]
pub enum CrudError {
    /// A claimed index or counter belongs to a different owner.
    InvalidOwner,
    /// The owner's index already holds the capacity's worth of entries.
    IndexFull,
    /// The owner's id counter has reached the largest representable id;
    /// no further entries can ever be created for that owner.
    IdOverflow,
    /// The caller does not own the entry it tried to touch.
    OwnerMismatch,
    /// No entry lives at the given address.
    NotFound,
    /// The derived address is already occupied by a live entry.
    AlreadyExists,
    /// Address derivation found no viable address for these seeds; with a
    /// cryptographic derivation this is statistically negligible.
    AddressUnavailable,
}

} // verus!
