use vstd::prelude::*;

verus! {

/// Why a tree build or a signing session failed.
///
/// No variant is recoverable: the protocol has no partial-result semantics,
/// so the session is abandoned as soon as one of these is produced.
#[derive(Debug, PartialEq, Eq)]
pub enum ProtocolError<E> {
    /// A tree cannot be built over zero participants.
    EmptyInput,
    /// An injected signing primitive reported an error of its own.
    PrimitiveFailure(E),
    /// The tree or the state store was not in the shape a complete
    /// two-round session guarantees (a missing right child in round two,
    /// or an absent store entry that an earlier step should have written).
    StructuralInconsistency,
}

} // verus!
