//! The result of one invocation, interpreted as two optional slots, and what
//! the transformer makes of it.
use vstd::prelude::*;

verus! {

/// Source location of an input element, used to attribute errors.
#[derive(Clone, Copy, Debug, PartialEq, Eq, Structural)]
pub struct Span {
    pub start: usize,
    pub end: usize,
}

/// An invocation result interpreted as two independently optional slots.
#[derive(Clone, Debug, PartialEq, Eq)]
pub enum Reply<V, E> {
    /// Invocation or interpretation failed.
    Failed(E),
    /// The two recognized slots; either may be absent.
    Slots { state: Option<V>, out: Option<V> },
}

/// One element of the output sequence.
#[derive(Clone, Debug, PartialEq, Eq)]
pub enum Emitted<V, E> {
    /// The content of an `out` slot.
    Value(V),
    /// A failure, carrying the location of the input element that caused it.
    Error { error: E, span: Span },
}

/// The state retained after a reply: the `state` slot where it is present,
/// the previous state otherwise.
pub open spec fn next_state<V, E>(state: V, reply: Reply<V, E>) -> V {
    match reply {
        Reply::Slots { state: Some(s), out: _ } => s,
        _ => state,
    }
}

/// What a reply contributes to the output at the position of the element
/// located at `span`: the `out` slot, an error element, or nothing.
pub open spec fn emission<V, E>(reply: Reply<V, E>, span: Span) -> Option<Emitted<V, E>> {
    match reply {
        Reply::Failed(e) => Some(Emitted::Error { error: e, span }),
        Reply::Slots { state: _, out: Some(v) } => Some(Emitted::Value(v)),
        Reply::Slots { state: _, out: None } => None,
    }
}

} // verus!
