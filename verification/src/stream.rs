//! The traversal as a whole, as a mathematical model over finite sequences.
//!
//! A traversal is described by the replies that the successive invocations
//! gave. Position `i` of every sequence here belongs to the `i`-th element
//! that was processed.
use vstd::prelude::*;
use crate::reply::{Emitted, Reply, Span, emission, next_state};

verus! {

/// The elements that are processed when the input holds `inputs`: the inputs
/// in order, followed by the sentinel where one is configured.
pub open spec fn processed<V>(inputs: Seq<V>, sentinel: Option<V>) -> Seq<V> {
    match sentinel {
        Some(s) => inputs.push(s),
        None => inputs,
    }
}

/// The state retained after the replies `replies`, starting from `initial`.
pub open spec fn state_after<V, E>(initial: V, replies: Seq<Reply<V, E>>) -> V
    decreases replies.len(),
{
    if replies.len() == 0 {
        initial
    } else {
        next_state(state_after(initial, replies.drop_last()), replies.last())
    }
}

/// The replies of a traversal of `elements` from `initial`, where the
/// transformation is the function `transform` of state and element.
pub open spec fn replies_of<V, E>(
    transform: spec_fn(V, V) -> Reply<V, E>,
    initial: V,
    elements: Seq<V>,
) -> Seq<Reply<V, E>>
    decreases elements.len(),
{
    if elements.len() == 0 {
        Seq::empty()
    } else {
        let before = replies_of(transform, initial, elements.drop_last());
        before.push(transform(state_after(initial, before), elements.last()))
    }
}

/// What each position contributes to the output: `None` where the element
/// was filtered out.
pub open spec fn slots<V, E>(replies: Seq<Reply<V, E>>, spans: Seq<Span>) -> Seq<
    Option<Emitted<V, E>>,
>
    recommends
        replies.len() == spans.len(),
{
    Seq::new(replies.len(), |i: int| emission(replies[i], spans[i]))
}

/// The output sequence: the contributions that are present, in order.
pub open spec fn compact<T>(slots: Seq<Option<T>>) -> Seq<T>
    decreases slots.len(),
{
    if slots.len() == 0 {
        Seq::empty()
    } else {
        match slots.last() {
            Some(x) => compact(slots.drop_last()).push(x),
            None => compact(slots.drop_last()),
        }
    }
}

/// For each element of the output, in order, the position that it stems from.
pub open spec fn origins<T>(slots: Seq<Option<T>>) -> Seq<int>
    decreases slots.len(),
{
    if slots.len() == 0 {
        Seq::empty()
    } else {
        match slots.last() {
            Some(_) => origins(slots.drop_last()).push(slots.len() - 1),
            None => origins(slots.drop_last()),
        }
    }
}

/// The output of a traversal with the given replies, element `i` being
/// located at `spans[i]`.
pub open spec fn output<V, E>(replies: Seq<Reply<V, E>>, spans: Seq<Span>) -> Seq<Emitted<V, E>>
    recommends
        replies.len() == spans.len(),
{
    compact(slots(replies, spans))
}

} // verus!
