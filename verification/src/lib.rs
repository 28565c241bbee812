//! A stateful, single-pass stream transformer.
//!
//! A [`transformer::Transformer`] threads one retained state value through
//! successive invocations of a caller-supplied transformation. Each invocation
//! receives the current state and one input element; its result is read as a
//! [`reply::Reply`], a pair of optional slots (`state`, `out`). The
//! transformer replaces its state when the first is present and emits an
//! element when the second is. Failures become in-stream error elements
//! tagged with the location of the input that caused them.
//!
//! The transformer performs no invocation itself. Its driver pulls an input
//! element, asks the transformer what to process, invokes the transformation
//! and hands the result back, so the traversal is as lazy as the driver.
//!
//! - [`reply`]: replies and emitted elements, and what one reply does.
//! - [`transformer`]: the retained state and the decisions of one traversal.
//! - [`values`]: the same steps on Nushell values, where the transformation
//!   is a closure whose result is a record with the columns `state` and `out`.
//! - [`driver`]: traversals of a queue of inputs, one output at a time or
//!   to the end.
//! - [`stream`]: the model of a whole traversal over finite sequences.
//! - [`laws`]: what holds of every traversal, proved over that model.
pub mod reply;
pub mod transformer;
pub mod stream;
pub mod laws;
pub mod driver;
pub mod values;
