//! Nushell values at the boundary of the transformer: how the result of a
//! closure call is read as a reply, and how what is emitted becomes a value
//! of the output stream.
//!
//! The items marked `external_body` state what the `nu-protocol` functions
//! they call do; Verus takes these statements on trust.
use vstd::prelude::*;
use nu_protocol::{Record, ShellError, Value};
use crate::reply::{Emitted, Reply, Span, emission, next_state};
use crate::transformer::Transformer;

verus! {

/// `nu_protocol::Value`, carried through as an opaque value.
#[verifier::external_type_specification]
#[verifier::external_body]
pub struct ExValue(nu_protocol::Value);

/// `nu_protocol::Record`, known only through `entries`.
#[verifier::external_type_specification]
#[verifier::external_body]
pub struct ExRecord(nu_protocol::Record);

/// `nu_protocol::ShellError`, carried through as an opaque value.
#[verifier::external_type_specification]
#[verifier::external_body]
pub struct ExShellError(nu_protocol::ShellError);

/// What `Value::into_record` returns for `value`: the record that it holds,
/// or the conversion error for a value of any other kind.
pub uninterp spec fn record_of(value: Value) -> Result<Record, ShellError>;

/// The columns of a record with their values, in the record's order.
pub uninterp spec fn entries(record: Record) -> Seq<(Seq<char>, Value)>;

/// The location that `Value::span` reports for `value`.
pub uninterp spec fn location_of(value: Value) -> Span;

/// The error value that `Value::error` builds from an error and a location.
pub uninterp spec fn error_value(error: ShellError, span: Span) -> Value;

/// The nothing value that `Value::nothing` builds at a location.
pub uninterp spec fn nothing_value(span: Span) -> Value;

/// The value that `Value::clone` returns for `value`. For every kind of value
/// but a custom one it is built from the same fields; a custom value decides
/// itself what its clone is, so the copy is named and not equated with its
/// source.
pub uninterp spec fn copy_of(value: Value) -> Value;

/// The value of the last column called `name`, if there is one.
pub open spec fn lookup(entries: Seq<(Seq<char>, Value)>, name: Seq<char>) -> Option<Value>
    decreases entries.len(),
{
    if entries.len() == 0 {
        None
    } else if entries.last().0 == name {
        Some(entries.last().1)
    } else {
        lookup(entries.drop_last(), name)
    }
}

/// The columns that are left once the last column called `name`, if there is
/// one, has been taken out.
pub open spec fn without(entries: Seq<(Seq<char>, Value)>, name: Seq<char>) -> Seq<
    (Seq<char>, Value),
>
    decreases entries.len(),
{
    if entries.len() == 0 {
        entries
    } else if entries.last().0 == name {
        entries.drop_last()
    } else {
        without(entries.drop_last(), name).push(entries.last())
    }
}

/// Taking out a column of one name leaves the columns of every other name
/// to be found as before.
pub proof fn lemma_lookup_without(
    entries: Seq<(Seq<char>, Value)>,
    name: Seq<char>,
    other: Seq<char>,
)
    requires
        name != other,
    ensures
        lookup(without(entries, name), other) == lookup(entries, other),
    decreases entries.len(),
{
    if entries.len() > 0 && entries.last().0 != name {
        let rest = without(entries.drop_last(), name);
        lemma_lookup_without(entries.drop_last(), name, other);
        assert(rest.push(entries.last()).drop_last() =~= rest);
    }
}

/// The reply that the result of a closure call stands for. A failed call and
/// a result that is no record both count as failed; of a record, the columns
/// `state` and `out` are the two slots, and other columns are ignored.
pub open spec fn interpret_spec(result: Result<Value, ShellError>) -> Reply<Value, ShellError> {
    match result {
        Err(e) => Reply::Failed(e),
        Ok(value) => match record_of(value) {
            Err(e) => Reply::Failed(e),
            Ok(record) => Reply::Slots {
                state: lookup(entries(record), "state"@),
                out: lookup(entries(record), "out"@),
            },
        },
    }
}

/// The value that stands for an emitted element in the output stream.
pub open spec fn value_of(emitted: Emitted<Value, ShellError>) -> Value {
    match emitted {
        Emitted::Value(v) => v,
        Emitted::Error { error, span } => error_value(error, span),
    }
}

/// Calls `Value::span`. Every value carries the location it was made with;
/// the result is that location, field by field.
#[verifier::external_body]
fn value_span(value: &Value) -> (span: Span)
    ensures
        span == location_of(*value),
{
    let s = value.span();
    Span { start: s.start, end: s.end }
}

/// Calls `Value::into_record`, which unwraps a record value and fails with a
/// conversion error on a value of any other kind.
#[verifier::external_body]
fn into_record(value: Value) -> (result: Result<Record, ShellError>)
    ensures
        result == record_of(value),
{
    value.into_record()
}

/// Calls `Record::remove`, which compares column names exactly, takes the
/// last column with the given name out of the record and returns the value
/// that was stored there; the other columns keep their order.
#[verifier::external_body]
fn record_remove(record: &mut Record, name: &str) -> (value: Option<Value>)
    ensures
        value == lookup(entries(*old(record)), name@),
        entries(*final(record)) == without(entries(*old(record)), name@),
{
    record.remove(name)
}

/// Calls `Value::error`, which wraps an error and a location into a value;
/// `Value::span` reports that location for it.
#[verifier::external_body]
fn make_error(error: ShellError, span: Span) -> (value: Value)
    ensures
        value == error_value(error, span),
        location_of(value) == span,
{
    Value::error(error, nu_protocol::Span { start: span.start, end: span.end })
}

/// Calls `Value::nothing`, which builds the nothing value at a location;
/// `Value::span` reports that location for it.
#[verifier::external_body]
fn make_nothing(span: Span) -> (value: Value)
    ensures
        value == nothing_value(span),
        location_of(value) == span,
{
    Value::nothing(nu_protocol::Span { start: span.start, end: span.end })
}

/// Calls `Value::clone`. The copy is what cloning makes of the value, and no
/// more is claimed of it: a custom value may hand back another
/// representation of itself.
#[verifier::external_body]
fn clone_value(value: &Value) -> (copy: Value)
    ensures
        copy == copy_of(*value),
{
    value.clone()
}

/// The location of an input element, to which its errors are attributed.
pub fn location(element: &Value) -> (span: Span)
    ensures
        span == location_of(*element),
{
    value_span(element)
}

/// Reads the result of a closure call as a reply with the optional slots
/// `state` and `out`. The slots hold the values that the record stored, not
/// copies of them.
pub fn interpret(result: Result<Value, ShellError>) -> (reply: Reply<Value, ShellError>)
    ensures
        reply == interpret_spec(result),
{
    match result {
        Err(e) => Reply::Failed(e),
        Ok(value) => match into_record(value) {
            Err(e) => Reply::Failed(e),
            Ok(record) => {
                let ghost columns = entries(record);
                let mut record = record;
                let state = record_remove(&mut record, "state");
                let out = record_remove(&mut record, "out");
                proof {
                    reveal_strlit("state");
                    reveal_strlit("out");
                    assert("state"@.len() != "out"@.len());
                    lemma_lookup_without(columns, "state"@, "out"@);
                }
                Reply::Slots { state, out }
            },
        },
    }
}

/// Turns an emitted element into a value of the output stream: the content
/// of an `out` slot as it is, a failure as an error value at its location.
pub fn into_value(emitted: Emitted<Value, ShellError>) -> (value: Value)
    ensures
        value == value_of(emitted),
        emitted matches Emitted::Error { span, .. } ==> location_of(value) == span,
{
    match emitted {
        Emitted::Value(v) => v,
        Emitted::Error { error, span } => make_error(error, span),
    }
}

/// The end-of-stream sentinel: a nothing value located at `head`.
pub fn sentinel(head: Span) -> (value: Value)
    ensures
        value == nothing_value(head),
        location_of(value) == head,
{
    make_nothing(head)
}

/// The positional arguments of the closure call on `element`: a clone of
/// the retained state, then a clone of the element.
pub fn arguments(transformer: &Transformer<Value>, element: &Value) -> (args: Vec<Value>)
    ensures
        args@ == seq![copy_of(transformer@.state), copy_of(*element)],
{
    let mut args: Vec<Value> = Vec::new();
    args.push(clone_value(transformer.state()));
    args.push(clone_value(element));
    assert(args@ =~= seq![copy_of(transformer@.state), copy_of(*element)]);
    args
}

/// Takes in the result of the closure call on `element`. A failed call, or a
/// result that is no record, leaves the state as it was and yields an error
/// value at the element's location. Of a record, the column `state`, where
/// there is one, becomes the retained state, and the column `out`, where
/// there is one, is yielded.
pub fn on_result(
    transformer: &mut Transformer<Value>,
    element: &Value,
    result: Result<Value, ShellError>,
) -> (yielded: Option<Value>)
    ensures
        final(transformer)@.state == next_state(old(transformer)@.state, interpret_spec(result)),
        final(transformer)@.sentinel == old(transformer)@.sentinel,
        final(transformer)@.exhausted == old(transformer)@.exhausted,
        yielded == match emission(interpret_spec(result), location_of(*element)) {
            Some(e) => Some(value_of(e)),
            None => None,
        },
        interpret_spec(result) matches Reply::Failed(e) ==> {
            &&& final(transformer)@ == old(transformer)@
            &&& yielded == Some(error_value(e, location_of(*element)))
            &&& location_of(yielded->Some_0) == location_of(*element)
        },
        interpret_spec(result) matches Reply::Slots { state, out } ==> {
            &&& yielded == out
            &&& final(transformer)@.state == (match state {
                Some(s) => s,
                None => old(transformer)@.state,
            })
        },
{
    let span = location(element);
    let reply = interpret(result);
    match transformer.absorb(span, reply) {
        Some(e) => Some(into_value(e)),
        None => None,
    }
}

} // verus!
