//! Traversals of an input that is at hand as a queue.
//!
//! `next_output` pulls for one element of the output and `take_outputs` for
//! the first `k`, and both leave the rest of the queue unseen;
//! `transform_all` runs the traversal to its end. A consumer of an unbounded
//! input drives the transformer step by step instead.
use vstd::prelude::*;
use std::collections::VecDeque;
use crate::reply::{Emitted, Reply, Span, emission, next_state};
use crate::stream::{compact, output, processed, slots, state_after};
use crate::transformer::{Transformer, TransformerView};

verus! {

/// Whether `replies` can be what `invoke` answered on `elements` in turn,
/// each call being given the state retained after the replies before it.
#[verifier::opaque]
pub open spec fn answered<V, E, F: Fn(&V, &V) -> Reply<V, E>>(
    invoke: F,
    initial: V,
    elements: Seq<V>,
    replies: Seq<Reply<V, E>>,
) -> bool {
    &&& replies.len() == elements.len()
    &&& forall|i: int|
        0 <= i < elements.len() ==> call_ensures(
            invoke,
            (&state_after(initial, replies.take(i)), &elements[i]),
            #[trigger] replies[i],
        )
}

/// Whether `spans` can be what `locate` gave for `elements` in turn.
#[verifier::opaque]
pub open spec fn located<V, L: Fn(&V) -> Span>(locate: L, elements: Seq<V>, spans: Seq<Span>) -> bool {
    &&& spans.len() == elements.len()
    &&& forall|i: int|
        0 <= i < elements.len() ==> call_ensures(locate, (&elements[i],), #[trigger] spans[i])
}

/// Whether a traversal of `elements` from `initial` can have met the replies
/// `replies` and the locations `spans`.
pub open spec fn traversed<V, E, L: Fn(&V) -> Span, F: Fn(&V, &V) -> Reply<V, E>>(
    invoke: F,
    locate: L,
    initial: V,
    elements: Seq<V>,
    replies: Seq<Reply<V, E>>,
    spans: Seq<Span>,
) -> bool {
    &&& replies.len() == elements.len()
    &&& spans.len() == elements.len()
    &&& answered(invoke, initial, elements, replies)
    &&& located(locate, elements, spans)
}

/// The elements that a transformer processes when the input holds `inputs`:
/// none if it has seen the end of an input already.
pub open spec fn to_process<V>(exhausted: bool, sentinel: Option<V>, inputs: Seq<V>) -> Seq<V> {
    if exhausted {
        Seq::empty()
    } else {
        processed(inputs, sentinel)
    }
}

/// Runs a traversal of `inputs` to its end: pulls each element, has `invoke`
/// called on the retained state and the element, and takes the reply in;
/// where a sentinel is configured, it is processed after the last input.
/// Returns what was emitted, in order.
///
/// The replies are whatever `invoke` gave; the output and the final state
/// are those of the model for these replies.
pub fn transform_all<V, E, L, F>(
    transformer: &mut Transformer<V>,
    inputs: VecDeque<V>,
    locate: &L,
    invoke: &F,
) -> (out: Vec<Emitted<V, E>>) where L: Fn(&V) -> Span, F: Fn(&V, &V) -> Reply<V, E>
    requires
        forall|e: &V| call_requires(*locate, (e,)),
        forall|s: &V, e: &V| call_requires(*invoke, (s, e)),
    ensures
        final(transformer)@.sentinel == if old(transformer)@.exhausted {
            old(transformer)@.sentinel
        } else {
            None
        },
        final(transformer)@.exhausted,
        exists|replies: Seq<Reply<V, E>>, spans: Seq<Span>|
            {
                &&& #[trigger] traversed(
                    *invoke,
                    *locate,
                    old(transformer)@.state,
                    to_process(old(transformer)@.exhausted, old(transformer)@.sentinel, inputs@),
                    replies,
                    spans,
                )
                &&& final(transformer)@.state == state_after(old(transformer)@.state, replies)
                &&& out@ == output(replies, spans)
            },
{
    let ghost initial = transformer@.state;
    let ghost total = to_process(transformer@.exhausted, transformer@.sentinel, inputs@);
    let ghost rest_sentinel = if transformer@.exhausted {
        transformer@.sentinel
    } else {
        None
    };
    let ghost mut seen: Seq<V> = Seq::empty();
    let ghost mut replies: Seq<Reply<V, E>> = Seq::empty();
    let ghost mut spans: Seq<Span> = Seq::empty();
    let mut rest = inputs;
    let mut out: Vec<Emitted<V, E>> = Vec::new();
    assert(seen + rest@ =~= rest@);
    proof {
        reveal(answered);
        reveal(located);
    }
    loop
        invariant
            forall|e: &V| call_requires(*locate, (e,)),
            forall|s: &V, e: &V| call_requires(*invoke, (s, e)),
            transformer@.exhausted ==> seen == total && transformer@.sentinel == rest_sentinel,
            !transformer@.exhausted ==> rest_sentinel is None && total == processed(
                seen + rest@,
                transformer@.sentinel,
            ),
            replies.len() == seen.len(),
            spans.len() == seen.len(),
            answered(*invoke, initial, seen, replies),
            located(*locate, seen, spans),
            transformer@.state == state_after(initial, replies),
            out@ == output(replies, spans),
        ensures
            transformer@.exhausted,
            seen == total,
            transformer@.sentinel == rest_sentinel,
            replies.len() == seen.len(),
            spans.len() == seen.len(),
            answered(*invoke, initial, seen, replies),
            located(*locate, seen, spans),
            transformer@.state == state_after(initial, replies),
            out@ == output(replies, spans),
        decreases rest@.len() + (if transformer@.exhausted { 0int } else { 1int }),
    {
        let ghost queued = rest@;
        let ghost was = transformer@;
        let pulled = rest.pop_front();
        match transformer.next_element(pulled) {
            None => {
                proof {
                    if !was.exhausted {
                        assert(seen + queued =~= seen);
                    }
                }
                break ;
            },
            Some(element) => {
                let span = locate(&element);
                let reply = invoke(transformer.state(), &element);
                proof {
                    lemma_grow(*invoke, *locate, initial, seen, replies, spans, element, reply, span);
                    if pulled is Some {
                        assert(seen.push(element) + rest@ =~= seen + queued);
                    } else {
                        assert(seen + queued =~= seen);
                    }
                    seen = seen.push(element);
                    replies = replies.push(reply);
                    spans = spans.push(span);
                }
                match transformer.absorb(span, reply) {
                    Some(e) => {
                        out.push(e);
                    },
                    None => {},
                }
            },
        }
    }
    assert(traversed(*invoke, *locate, initial, total, replies, spans));
    out
}

/// Whether `replies` are those of the pulls for one element of the output:
/// every reply but the last contributes nothing, and the last contributes
/// `next`. With no reply at all there is no such element.
pub open spec fn pulled_for_one<V, E>(
    replies: Seq<Reply<V, E>>,
    spans: Seq<Span>,
    next: Option<Emitted<V, E>>,
) -> bool {
    &&& forall|j: int|
        0 <= j < replies.len() - 1 ==> emission(#[trigger] replies[j], spans[j]) is None
    &&& replies.len() > 0 ==> emission(replies.last(), spans.last()) == next
    &&& replies.len() == 0 ==> next is None
}

/// Whether a transformer that held `before`, with `queue` as its input, can
/// have met `replies` and `spans` while it pulled for one element of the
/// output, and have come to hold `after`, with `left` still in the queue.
pub open spec fn pulled_until<V, E, L: Fn(&V) -> Span, F: Fn(&V, &V) -> Reply<V, E>>(
    invoke: F,
    locate: L,
    before: TransformerView<V>,
    queue: Seq<V>,
    replies: Seq<Reply<V, E>>,
    spans: Seq<Span>,
    next: Option<Emitted<V, E>>,
    after: TransformerView<V>,
    left: Seq<V>,
) -> bool {
    let total = to_process(before.exhausted, before.sentinel, queue);
    let m = replies.len() as int;
    &&& m <= total.len()
    &&& traversed(invoke, locate, before.state, total.take(m), replies, spans)
    &&& pulled_for_one(replies, spans, next)
    &&& next is None ==> m == total.len()
    &&& after.state == state_after(before.state, replies)
    &&& left == queue.skip(if m <= queue.len() { m } else { queue.len() as int })
    &&& after.exhausted == (before.exhausted || next is None || m > queue.len())
    &&& after.sentinel == (if after.exhausted && !before.exhausted {
        None
    } else {
        before.sentinel
    })
}

/// Pulls the next element of the output out of a queue of inputs, and
/// nothing more: elements are taken from the front of `inputs` and processed
/// one by one until one of them contributes to the output or the traversal
/// has ended. What follows the element that gave the output stays in the
/// queue, unseen, and `invoke` is called on none of it.
///
/// The number of replies is the number of elements processed. All of them
/// but the last were filtered out; the last gave the result, or, where the
/// result is `None`, the traversal is at its end.
pub fn next_output<V, E, L, F>(
    transformer: &mut Transformer<V>,
    inputs: &mut VecDeque<V>,
    locate: &L,
    invoke: &F,
) -> (next: Option<Emitted<V, E>>) where L: Fn(&V) -> Span, F: Fn(&V, &V) -> Reply<V, E>
    requires
        forall|e: &V| call_requires(*locate, (e,)),
        forall|s: &V, e: &V| call_requires(*invoke, (s, e)),
    ensures
        exists|replies: Seq<Reply<V, E>>, spans: Seq<Span>| #[trigger]
            pulled_until(
                *invoke,
                *locate,
                old(transformer)@,
                old(inputs)@,
                replies,
                spans,
                next,
                final(transformer)@,
                final(inputs)@,
            ),
{
    let mut out = take_outputs(transformer, inputs, 1, locate, invoke);
    let ghost emitted = out@;
    let next = out.pop();
    proof {
        let (replies, spans) = choose|replies: Seq<Reply<V, E>>, spans: Seq<Span>| #[trigger]
            pulled_first(
                *invoke,
                *locate,
                old(transformer)@,
                old(inputs)@,
                1,
                replies,
                spans,
                emitted,
                transformer@,
                inputs@,
            );
        let given = slots(replies, spans);
        lemma_single_output(given);
        assert(emitted == compact(given));
        assert(spans.len() == replies.len());
        assert forall|j: int| 0 <= j < replies.len() implies given[j] == emission(
            #[trigger] replies[j],
            spans[j],
        ) by {}
        if emitted.len() == 1 {
            assert(replies.len() > 0);
            assert(given.last() == emission(replies.last(), spans.last()));
            assert(next == Some(emitted[0]));
        } else {
            assert(emitted.len() == 0);
            assert(next is None);
        }
        assert(pulled_for_one(replies, spans, next));
        assert(pulled_until(
            *invoke,
            *locate,
            old(transformer)@,
            old(inputs)@,
            replies,
            spans,
            next,
            transformer@,
            inputs@,
        ));
    }
    next
}

/// Where at most one contribution is present and it is the last, or none
/// is, every contribution before the last is absent.
proof fn lemma_single_output<T>(slots: Seq<Option<T>>)
    ensures
        compact(slots).len() == 0 ==> forall|j: int|
            0 <= j < slots.len() ==> (#[trigger] slots[j]) is None,
        compact(slots).len() == 1 && slots.len() > 0 && (slots.last() is Some) ==> {
            &&& compact(slots) == seq![slots.last()->Some_0]
            &&& forall|j: int| 0 <= j < slots.len() - 1 ==> (#[trigger] slots[j]) is None
        },
    decreases slots.len(),
{
    if slots.len() > 0 {
        let init = slots.drop_last();
        lemma_single_output(init);
        assert forall|j: int| 0 <= j < init.len() implies init[j] == slots[j] by {}
        if compact(slots).len() == 1 && (slots.last() is Some) {
            assert(compact(init).len() == 0);
            assert(compact(slots) =~= seq![slots.last()->Some_0]);
        }
    }
}

/// Whether a transformer that held `before`, with `queue` as its input, can
/// have met `replies` and `spans` while it pulled for the first `k` elements
/// of the output, have given `out`, and have come to hold `after`, with
/// `left` still in the queue.
///
/// The replies are those to the first `replies.len()` elements to process,
/// and that number is the least that gives `k` elements of output: no
/// element is processed for `k == 0`, and where `k` elements came out, the
/// last reply gave the last of them. Fewer than `k` come out only where the
/// traversal is at its end.
pub open spec fn pulled_first<V, E, L: Fn(&V) -> Span, F: Fn(&V, &V) -> Reply<V, E>>(
    invoke: F,
    locate: L,
    before: TransformerView<V>,
    queue: Seq<V>,
    k: nat,
    replies: Seq<Reply<V, E>>,
    spans: Seq<Span>,
    out: Seq<Emitted<V, E>>,
    after: TransformerView<V>,
    left: Seq<V>,
) -> bool {
    let total = to_process(before.exhausted, before.sentinel, queue);
    let m = replies.len() as int;
    &&& m <= total.len()
    &&& traversed(invoke, locate, before.state, total.take(m), replies, spans)
    &&& out == output(replies, spans)
    &&& out.len() <= k
    &&& k == 0 ==> m == 0
    &&& out.len() == k && m > 0 ==> emission(replies.last(), spans.last()) is Some
    &&& out.len() < k ==> m == total.len() && after.exhausted
    &&& after.state == state_after(before.state, replies)
    &&& left == queue.skip(if m <= queue.len() { m } else { queue.len() as int })
    &&& after.exhausted == (before.exhausted || out.len() < k || m > queue.len())
    &&& after.sentinel == (if after.exhausted && !before.exhausted {
        None
    } else {
        before.sentinel
    })
}

/// Pulls the first `k` elements of the output out of a queue of inputs, and
/// nothing more: elements are taken from the front of `inputs` and processed
/// one by one until `k` elements have come out or the traversal has ended.
/// The element that gave the last of them is the last one that `invoke` is
/// called on; what follows it stays in the queue, unseen. With `k == 0`
/// nothing is pulled and nothing is invoked.
pub fn take_outputs<V, E, L, F>(
    transformer: &mut Transformer<V>,
    inputs: &mut VecDeque<V>,
    k: usize,
    locate: &L,
    invoke: &F,
) -> (out: Vec<Emitted<V, E>>) where L: Fn(&V) -> Span, F: Fn(&V, &V) -> Reply<V, E>
    requires
        forall|e: &V| call_requires(*locate, (e,)),
        forall|s: &V, e: &V| call_requires(*invoke, (s, e)),
    ensures
        exists|replies: Seq<Reply<V, E>>, spans: Seq<Span>| #[trigger]
            pulled_first(
                *invoke,
                *locate,
                old(transformer)@,
                old(inputs)@,
                k as nat,
                replies,
                spans,
                out@,
                final(transformer)@,
                final(inputs)@,
            ),
{
    let ghost start = transformer@;
    let ghost queue = inputs@;
    let ghost total = to_process(start.exhausted, start.sentinel, queue);
    let ghost mut seen: Seq<V> = Seq::empty();
    let ghost mut replies: Seq<Reply<V, E>> = Seq::empty();
    let ghost mut spans: Seq<Span> = Seq::empty();
    let mut out: Vec<Emitted<V, E>> = Vec::new();
    assert(queue.skip(0) =~= queue);
    assert(total.take(0) =~= seen);
    proof {
        reveal(answered);
        reveal(located);
    }
    loop
        invariant
            forall|e: &V| call_requires(*locate, (e,)),
            forall|s: &V, e: &V| call_requires(*invoke, (s, e)),
            start == old(transformer)@,
            queue == old(inputs)@,
            total == to_process(start.exhausted, start.sentinel, queue),
            seen.len() <= total.len(),
            seen == total.take(seen.len() as int),
            replies.len() == seen.len(),
            spans.len() == seen.len(),
            answered(*invoke, start.state, seen, replies),
            located(*locate, seen, spans),
            out@ == output(replies, spans),
            out@.len() <= k,
            k == 0 ==> replies.len() == 0,
            out@.len() == k && replies.len() > 0 ==> emission(replies.last(), spans.last())
                is Some,
            transformer@.state == state_after(start.state, replies),
            !transformer@.exhausted ==> {
                &&& !start.exhausted
                &&& transformer@.sentinel == start.sentinel
                &&& seen.len() <= queue.len()
                &&& inputs@ == queue.skip(seen.len() as int)
            },
            transformer@.exhausted && start.exhausted ==> {
                &&& transformer@ == start
                &&& seen.len() == 0
                &&& inputs@ == queue
            },
            transformer@.exhausted && !start.exhausted ==> {
                &&& start.sentinel is Some
                &&& transformer@.sentinel is None
                &&& seen.len() == queue.len() + 1
                &&& inputs@.len() == 0
            },
        decreases inputs@.len() + (if transformer@.exhausted { 0int } else { 1int }),
    {
        if out.len() >= k {
            proof {
                assert(inputs@ =~= queue.skip(
                    if seen.len() <= queue.len() {
                        seen.len() as int
                    } else {
                        queue.len() as int
                    },
                ));
                assert(pulled_first(
                    *invoke,
                    *locate,
                    start,
                    queue,
                    k as nat,
                    replies,
                    spans,
                    out@,
                    transformer@,
                    inputs@,
                ));
            }
            return out;
        }
        if transformer.is_exhausted() {
            proof {
                assert(total.take(seen.len() as int) =~= total);
                assert(inputs@ =~= queue.skip(
                    if seen.len() <= queue.len() {
                        seen.len() as int
                    } else {
                        queue.len() as int
                    },
                ));
                assert(pulled_first(
                    *invoke,
                    *locate,
                    start,
                    queue,
                    k as nat,
                    replies,
                    spans,
                    out@,
                    transformer@,
                    inputs@,
                ));
            }
            return out;
        }
        let ghost waiting = inputs@;
        let pulled = inputs.pop_front();
        match transformer.next_element(pulled) {
            None => {
                proof {
                    assert(seen.len() == queue.len());
                    assert(total.take(seen.len() as int) =~= total);
                    assert(inputs@ =~= queue.skip(seen.len() as int));
                    assert(pulled_first(
                        *invoke,
                        *locate,
                        start,
                        queue,
                        k as nat,
                        replies,
                        spans,
                        out@,
                        transformer@,
                        inputs@,
                    ));
                }
                return out;
            },
            Some(element) => {
                let span = locate(&element);
                let reply = invoke(transformer.state(), &element);
                proof {
                    lemma_grow(
                        *invoke,
                        *locate,
                        start.state,
                        seen,
                        replies,
                        spans,
                        element,
                        reply,
                        span,
                    );
                    let n = seen.len() as int;
                    if pulled is Some {
                        assert(element == waiting[0]);
                        assert(waiting[0] == queue[n]);
                        assert(inputs@ =~= queue.skip(n + 1));
                    }
                    assert(total[n] == element);
                    assert(total.take(n + 1) =~= total.take(n).push(element));
                    seen = seen.push(element);
                    replies = replies.push(reply);
                    spans = spans.push(span);
                }
                match transformer.absorb(span, reply) {
                    Some(e) => {
                        out.push(e);
                    },
                    None => {},
                }
            },
        }
    }
}

/// One more element, with the reply and the location that were given for
/// it, extends a consistent traversal to a consistent one.
proof fn lemma_grow<V, E, L: Fn(&V) -> Span, F: Fn(&V, &V) -> Reply<V, E>>(
    invoke: F,
    locate: L,
    initial: V,
    seen: Seq<V>,
    replies: Seq<Reply<V, E>>,
    spans: Seq<Span>,
    element: V,
    reply: Reply<V, E>,
    span: Span,
)
    requires
        answered(invoke, initial, seen, replies),
        located(locate, seen, spans),
        call_ensures(invoke, (&state_after(initial, replies), &element), reply),
        call_ensures(locate, (&element,), span),
    ensures
        answered(invoke, initial, seen.push(element), replies.push(reply)),
        located(locate, seen.push(element), spans.push(span)),
        state_after(initial, replies.push(reply)) == next_state(
            state_after(initial, replies),
            reply,
        ),
        output(replies.push(reply), spans.push(span)) == match emission(reply, span) {
            Some(e) => output(replies, spans).push(e),
            None => output(replies, spans),
        },
{
    reveal(answered);
    reveal(located);
    let grown = replies.push(reply);
    assert(grown.drop_last() =~= replies);
    assert forall|i: int| 0 <= i < seen.push(element).len() implies call_ensures(
        invoke,
        (&state_after(initial, grown.take(i)), &seen.push(element)[i]),
        #[trigger] grown[i],
    ) by {
        if i < seen.len() {
            assert(grown.take(i) =~= replies.take(i));
            assert(grown[i] == replies[i]);
        } else {
            assert(grown.take(i) =~= replies);
        }
    }
    assert forall|i: int| 0 <= i < seen.push(element).len() implies call_ensures(
        locate,
        (&seen.push(element)[i],),
        #[trigger] spans.push(span)[i],
    ) by {
        if i < seen.len() {
            assert(spans.push(span)[i] == spans[i]);
        }
    }
    let slots_grown = slots(grown, spans.push(span));
    assert(slots_grown.drop_last() =~= slots(replies, spans));
    assert(slots_grown.last() == emission(reply, span));
}

} // verus!
