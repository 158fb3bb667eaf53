//! Identifiers, errors and solver outcomes shared by the sketch code.

use crate::text::{decimal, push_decimal, push_str, text};
use vstd::prelude::*;

verus! {

/// Stable identifier of a sketch entity within its sketch.
#[derive(Debug, Clone, Copy, PartialEq, Eq, Structural, Hash, PartialOrd, Ord)]
pub struct EntityId(pub u32);

/// Stable identifier of a constraint within its sketch.
#[derive(Debug, Clone, Copy, PartialEq, Eq, Structural, Hash, PartialOrd, Ord)]
pub struct ConstraintId(pub u32);

/// What can go wrong when a sketch is edited.
#[derive(Debug)]
pub enum SketchError {
    UnknownEntity(EntityId),
    WrongKind(EntityId, &'static str),
    DuplicateEntity(EntityId),
    Invalid(String),
}

/// How an entity id reads in messages: `EntityId(n)`.
pub open spec fn entity_text(id: EntityId) -> Seq<char> {
    "EntityId("@ + decimal(id.0 as nat) + ")"@
}

/// The message of each error.
pub open spec fn sketch_error_text(e: SketchError) -> Seq<char> {
    match e {
        SketchError::UnknownEntity(id) => "unknown entity "@ + entity_text(id),
        SketchError::WrongKind(id, what) => "entity "@ + entity_text(id) + " is not a "@ + what@,
        SketchError::DuplicateEntity(id) => "entity "@ + entity_text(id) + " already exists"@,
        SketchError::Invalid(m) => m@,
    }
}

fn push_entity(s: &mut String, id: EntityId)
    ensures
        final(s)@ == old(s)@ + entity_text(id),
{
    push_str(s, "EntityId(");
    push_decimal(s, id.0 as u64);
    push_str(s, ")");
    assert(final(s)@ =~= old(s)@ + entity_text(id));
}

impl SketchError {
    /// The error's message.
    pub fn message(&self) -> (m: String)
        ensures
            m@ == sketch_error_text(*self),
    {
        match self {
            SketchError::UnknownEntity(id) => {
                let mut m = text("unknown entity ");
                push_entity(&mut m, *id);
                m
            },
            SketchError::WrongKind(id, what) => {
                let mut m = text("entity ");
                push_entity(&mut m, *id);
                push_str(&mut m, " is not a ");
                push_str(&mut m, what);
                assert(m@ =~= sketch_error_text(*self));
                m
            },
            SketchError::DuplicateEntity(id) => {
                let mut m = text("entity ");
                push_entity(&mut m, *id);
                push_str(&mut m, " already exists");
                assert(m@ =~= sketch_error_text(*self));
                m
            },
            SketchError::Invalid(msg) => text(msg.as_str()),
        }
    }
}

/// How a solve ended.
#[derive(Debug, Clone, Copy, PartialEq, Eq, Structural)]
pub enum SolveStatus {
    /// All constraints satisfied and no free degrees of freedom remain.
    FullyConstrained,
    /// All constraints satisfied; some geometry can still move.
    UnderConstrained,
    /// Constraints conflict or are redundant; the solver could not satisfy them all.
    Inconsistent,
}

} // verus!
