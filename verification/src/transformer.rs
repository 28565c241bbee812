//! The transformer: the retained state and the decisions of one traversal.
use vstd::prelude::*;
use crate::reply::{Emitted, Reply, Span, emission, next_state};

verus! {

/// Owns the state of one traversal. It is not restartable: a new traversal
/// needs a new transformer with a fresh initial state.
pub struct Transformer<V> {
    state: V,
    sentinel: Option<V>,
    exhausted: bool,
}

/// What a transformer holds, as contracts see it.
pub struct TransformerView<V> {
    /// The retained state.
    pub state: V,
    /// The end-of-stream sentinel that is still to be processed, if any.
    pub sentinel: Option<V>,
    /// Whether the end of the input has been seen.
    pub exhausted: bool,
}

impl<V> View for Transformer<V> {
    type V = TransformerView<V>;

    closed spec fn view(&self) -> TransformerView<V> {
        TransformerView { state: self.state, sentinel: self.sentinel, exhausted: self.exhausted }
    }
}

impl<V> Transformer<V> {
    /// A transformer that ends its output when the input ends.
    pub fn new(initial_state: V) -> (t: Self)
        ensures
            t@ == (TransformerView { state: initial_state, sentinel: None, exhausted: false }),
    {
        Transformer { state: initial_state, sentinel: None, exhausted: false }
    }

    /// A transformer that, once the input has ended, has `sentinel` processed
    /// as one last element, so that the transformation can flush trailing
    /// output.
    pub fn with_exhaustion_call(initial_state: V, sentinel: V) -> (t: Self)
        ensures
            t@ == (TransformerView {
                state: initial_state,
                sentinel: Some(sentinel),
                exhausted: false,
            }),
    {
        Transformer { state: initial_state, sentinel: Some(sentinel), exhausted: false }
    }

    /// The state to pass to the next invocation.
    pub fn state(&self) -> (s: &V)
        ensures
            *s == self@.state,
    {
        &self.state
    }

    /// Whether an invocation on the end-of-stream sentinel is still to come.
    pub fn emit_on_exhaustion(&self) -> (b: bool)
        ensures
            b == (self@.sentinel is Some),
    {
        self.sentinel.is_some()
    }

    /// Whether the end of the input has been seen.
    pub fn is_exhausted(&self) -> (b: bool)
        ensures
            b == self@.exhausted,
    {
        self.exhausted
    }

    /// Decides what to process after one pull on the input. `pulled` is what
    /// the input produced, `None` at its end. The result is the element to
    /// invoke the transformation on, or `None` when the output has ended.
    ///
    /// While the input lasts, each pulled element is processed. At the end of
    /// the input the sentinel, where one was configured, is handed out exactly
    /// once. After that nothing is processed any more.
    pub fn next_element(&mut self, pulled: Option<V>) -> (element: Option<V>)
        ensures
            final(self)@.state == old(self)@.state,
            final(self)@.exhausted == (old(self)@.exhausted || pulled is None),
            final(self)@.sentinel == if old(self)@.exhausted || pulled is Some {
                old(self)@.sentinel
            } else {
                None
            },
            element == if old(self)@.exhausted {
                None
            } else if pulled is Some {
                pulled
            } else {
                old(self)@.sentinel
            },
    {
        if self.exhausted {
            None
        } else {
            match pulled {
                Some(e) => Some(e),
                None => {
                    self.exhausted = true;
                    self.sentinel.take()
                },
            }
        }
    }

    /// Takes in the interpreted result of the invocation on the element
    /// located at `span`: replaces the state where the reply carries one, and
    /// returns what is emitted at this position, if anything.
    pub fn absorb<E>(&mut self, span: Span, reply: Reply<V, E>) -> (emitted: Option<Emitted<V, E>>)
        ensures
            final(self)@.state == next_state(old(self)@.state, reply),
            final(self)@.sentinel == old(self)@.sentinel,
            final(self)@.exhausted == old(self)@.exhausted,
            emitted == emission(reply, span),
            reply is Failed ==> final(self)@ == old(self)@,
            reply matches Reply::Slots { state: None, .. } ==> final(self)@ == old(self)@,
    {
        match reply {
            Reply::Failed(error) => Some(Emitted::Error { error, span }),
            Reply::Slots { state, out } => {
                match state {
                    Some(s) => {
                        self.state = s;
                    },
                    None => {},
                }
                match out {
                    Some(v) => Some(Emitted::Value(v)),
                    None => None,
                }
            },
        }
    }
}

} // verus!
