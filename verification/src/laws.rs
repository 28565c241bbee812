//! Laws of the traversal, proved over the model of `stream`.
use vstd::prelude::*;
use crate::reply::{Emitted, Reply, Span, emission, next_state};
use crate::driver::{answered, located, pulled_first, to_process, traversed};
use crate::stream::processed;
use crate::transformer::TransformerView;
use crate::stream::{compact, origins, output, replies_of, slots, state_after};

verus! {

/// Whether a reply leaves the retained state as it was.
pub open spec fn keeps_state<V, E>(reply: Reply<V, E>) -> bool {
    reply is Failed || reply matches Reply::Slots { state: None, .. }
}

/// Whether a reply puts an element into the output.
pub open spec fn emits<V, E>(reply: Reply<V, E>) -> bool {
    reply is Failed || reply matches Reply::Slots { out: Some(_), .. }
}

/// The number of replies that put an element into the output.
pub open spec fn emitting<V, E>(replies: Seq<Reply<V, E>>) -> nat
    decreases replies.len(),
{
    if replies.len() == 0 {
        0
    } else {
        emitting(replies.drop_last()) + if emits(replies.last()) {
            1nat
        } else {
            0nat
        }
    }
}

/// The state after folding `step` over `elements` from `initial`.
pub open spec fn fold_states<V>(step: spec_fn(V, V) -> V, initial: V, elements: Seq<V>) -> V
    decreases elements.len(),
{
    if elements.len() == 0 {
        initial
    } else {
        step(fold_states(step, initial, elements.drop_last()), elements.last())
    }
}

/// Order preservation. The output holds exactly the contributions that are
/// present, and the positions they stem from increase strictly along the
/// output.
pub proof fn lemma_order_preserved<T>(slots: Seq<Option<T>>)
    ensures
        origins(slots).len() == compact(slots).len(),
        forall|k: int|
            0 <= k < origins(slots).len() ==> 0 <= #[trigger] origins(slots)[k] < slots.len()
                && slots[origins(slots)[k]] == Some(compact(slots)[k]),
        forall|j: int, k: int|
            0 <= j < k < origins(slots).len() ==> origins(slots)[j] < origins(slots)[k],
        forall|i: int| 0 <= i < slots.len() && (slots[i] is Some) ==> origins(slots).contains(i),
    decreases slots.len(),
{
    if slots.len() > 0 {
        let init = slots.drop_last();
        let last = slots.len() - 1;
        lemma_order_preserved(init);
        assert forall|i: int| 0 <= i < slots.len() && (slots[i] is Some) implies origins(
            slots,
        ).contains(i) by {
            if i < last {
                assert(init[i] == slots[i]);
                assert(origins(init).contains(i));
                let k = origins(init).index_of(i);
                assert(origins(slots)[k] == i);
            } else {
                assert(origins(slots)[origins(slots).len() - 1] == i);
            }
        }
        assert forall|k: int| 0 <= k < origins(slots).len() implies 0 <= #[trigger] origins(
            slots,
        )[k] < slots.len() && slots[origins(slots)[k]] == Some(compact(slots)[k]) by {
            if k < origins(init).len() {
                assert(origins(slots)[k] == origins(init)[k]);
                assert(init[origins(init)[k]] == slots[origins(init)[k]]);
            }
        }
    }
}

/// The contributions of a traversal without its last element.
pub proof fn lemma_slots_drop_last<V, E>(replies: Seq<Reply<V, E>>, spans: Seq<Span>)
    requires
        replies.len() == spans.len(),
        replies.len() > 0,
    ensures
        slots(replies, spans).drop_last() == slots(replies.drop_last(), spans.drop_last()),
        slots(replies, spans).last() == emission(replies.last(), spans.last()),
{
    assert(slots(replies, spans).drop_last() =~= slots(replies.drop_last(), spans.drop_last()));
}

/// Filtering. The length of the output is the number of replies that emit:
/// those with an `out` slot and those that failed.
pub proof fn lemma_output_length<V, E>(replies: Seq<Reply<V, E>>, spans: Seq<Span>)
    requires
        replies.len() == spans.len(),
    ensures
        output(replies, spans).len() == emitting(replies),
        output(replies, spans).len() <= replies.len(),
    decreases replies.len(),
{
    if replies.len() > 0 {
        lemma_slots_drop_last(replies, spans);
        lemma_output_length(replies.drop_last(), spans.drop_last());
    }
}

/// Removing an absent contribution leaves the output as it is.
pub proof fn lemma_compact_remove_absent<T>(slots: Seq<Option<T>>, i: int)
    requires
        0 <= i < slots.len(),
        slots[i] is None,
    ensures
        compact(slots.remove(i)) == compact(slots),
    decreases slots.len(),
{
    let last = slots.len() - 1;
    if i == last {
        assert(slots.remove(i) =~= slots.drop_last());
    } else {
        lemma_compact_remove_absent(slots.drop_last(), i);
        assert(slots.remove(i).drop_last() =~= slots.drop_last().remove(i));
        assert(slots.remove(i).last() == slots.last());
    }
}

/// Filtering. A reply without an `out` slot contributes nothing at its
/// position, and the output is what it would be without that element.
pub proof fn lemma_omitted_out_filtered<V, E>(replies: Seq<Reply<V, E>>, spans: Seq<Span>, i: int)
    requires
        replies.len() == spans.len(),
        0 <= i < replies.len(),
        replies[i] matches Reply::Slots { out: None, .. },
    ensures
        slots(replies, spans)[i] is None,
        !origins(slots(replies, spans)).contains(i),
        output(replies, spans) == output(replies.remove(i), spans.remove(i)),
{
    let s = slots(replies, spans);
    lemma_order_preserved(s);
    lemma_compact_remove_absent(s, i);
    assert(s.remove(i) =~= slots(replies.remove(i), spans.remove(i)));
}

/// State preservation. A reply that failed, or that has no `state` slot,
/// can be taken out of a traversal without changing the state retained at
/// its end.
pub proof fn lemma_state_kept<V, E>(initial: V, replies: Seq<Reply<V, E>>, i: int)
    requires
        0 <= i < replies.len(),
        keeps_state(replies[i]),
    ensures
        state_after(initial, replies.take(i + 1)) == state_after(initial, replies.take(i)),
        state_after(initial, replies.remove(i)) == state_after(initial, replies),
    decreases replies.len(),
{
    let last = replies.len() - 1;
    assert(replies.take(i + 1).drop_last() =~= replies.take(i));
    if i == last {
        assert(replies.remove(i) =~= replies.drop_last());
    } else {
        lemma_state_kept(initial, replies.drop_last(), i);
        assert(replies.remove(i).drop_last() =~= replies.drop_last().remove(i));
        assert(replies.remove(i).last() == replies.last());
    }
}

/// One reply is given for each element.
pub proof fn lemma_replies_len<V, E>(
    transform: spec_fn(V, V) -> Reply<V, E>,
    initial: V,
    elements: Seq<V>,
)
    ensures
        replies_of(transform, initial, elements).len() == elements.len(),
    decreases elements.len(),
{
    if elements.len() > 0 {
        lemma_replies_len(transform, initial, elements.drop_last());
    }
}

/// Prefix stability. The replies to the first `k` elements are those of a
/// traversal of these `k` elements alone: nothing that comes later in the
/// input has any part in them.
pub proof fn lemma_replies_prefix<V, E>(
    transform: spec_fn(V, V) -> Reply<V, E>,
    initial: V,
    elements: Seq<V>,
    k: int,
)
    requires
        0 <= k <= elements.len(),
    ensures
        replies_of(transform, initial, elements.take(k)) == replies_of(
            transform,
            initial,
            elements,
        ).take(k),
    decreases elements.len(),
{
    lemma_replies_len(transform, initial, elements);
    if k == elements.len() {
        assert(elements.take(k) =~= elements);
        assert(replies_of(transform, initial, elements).take(k) =~= replies_of(
            transform,
            initial,
            elements,
        ));
    } else {
        let init = elements.drop_last();
        lemma_replies_len(transform, initial, init);
        lemma_replies_prefix(transform, initial, init, k);
        assert(init.take(k) =~= elements.take(k));
        assert(replies_of(transform, initial, elements).take(k) =~= replies_of(
            transform,
            initial,
            init,
        ).take(k));
    }
}

/// The reply at position `i` is the transformation applied to the state
/// retained after the elements before `i`, and to element `i`.
pub proof fn lemma_reply_at<V, E>(
    transform: spec_fn(V, V) -> Reply<V, E>,
    initial: V,
    elements: Seq<V>,
    i: int,
)
    requires
        0 <= i < elements.len(),
    ensures
        replies_of(transform, initial, elements)[i] == transform(
            state_after(initial, replies_of(transform, initial, elements).take(i)),
            elements[i],
        ),
{
    lemma_replies_len(transform, initial, elements);
    lemma_replies_prefix(transform, initial, elements, i);
    lemma_replies_prefix(transform, initial, elements, i + 1);
    let upto = elements.take(i + 1);
    assert(upto.drop_last() =~= elements.take(i));
    assert(upto.last() == elements[i]);
    lemma_replies_len(transform, initial, elements.take(i));
    assert(replies_of(transform, initial, upto)[i] == replies_of(transform, initial, elements).take(
        i + 1,
    )[i]);
}

/// Output stability. What the first `k` elements put into the output is a
/// prefix of the whole output: it is final once these elements have been
/// processed.
pub proof fn lemma_output_prefix<T>(slots: Seq<Option<T>>, k: int)
    requires
        0 <= k <= slots.len(),
    ensures
        compact(slots.take(k)).is_prefix_of(compact(slots)),
    decreases slots.len(),
{
    if k == slots.len() {
        assert(slots.take(k) =~= slots);
    } else {
        let init = slots.drop_last();
        lemma_output_prefix(init, k);
        assert(init.take(k) =~= slots.take(k));
    }
}

/// State threading. Where the transformation always answers with the state
/// `step(state, element)` and with the element as output, the invocation on
/// element `i` sees `step` folded over the `i` elements before it, and the
/// state retained at the end is `step` folded over all elements.
pub proof fn lemma_state_threading<V, E>(
    transform: spec_fn(V, V) -> Reply<V, E>,
    step: spec_fn(V, V) -> V,
    initial: V,
    elements: Seq<V>,
    i: int,
)
    requires
        forall|s: V, e: V| #[trigger]
            transform(s, e) == (Reply::<V, E>::Slots { state: Some(step(s, e)), out: Some(e) }),
        0 <= i <= elements.len(),
    ensures
        state_after(initial, replies_of(transform, initial, elements).take(i)) == fold_states(
            step,
            initial,
            elements.take(i),
        ),
        i < elements.len() ==> replies_of(transform, initial, elements)[i] == transform(
            fold_states(step, initial, elements.take(i)),
            elements[i],
        ),
    decreases i,
{
    lemma_replies_prefix(transform, initial, elements, i);
    lemma_replies_len(transform, initial, elements);
    let seen = elements.take(i);
    if i > 0 {
        lemma_state_threading(transform, step, initial, elements, i - 1);
        lemma_replies_prefix(transform, initial, elements, i - 1);
        assert(seen.drop_last() =~= elements.take(i - 1));
        assert(seen.last() == elements[i - 1]);
        lemma_replies_len(transform, initial, seen.drop_last());
        assert(replies_of(transform, initial, seen).drop_last() =~= replies_of(
            transform,
            initial,
            seen.drop_last(),
        ));
    }
    if i < elements.len() {
        lemma_reply_at(transform, initial, elements, i);
    }
}

/// Where the invocation is a function of state and element, the replies that
/// a traversal can meet are those of the model for that function.
pub proof fn lemma_answers_of_function<V, E, F: Fn(&V, &V) -> Reply<V, E>>(
    invoke: F,
    transform: spec_fn(V, V) -> Reply<V, E>,
    initial: V,
    elements: Seq<V>,
    replies: Seq<Reply<V, E>>,
)
    requires
        forall|s: &V, e: &V, r: Reply<V, E>| #[trigger]
            call_ensures(invoke, (s, e), r) ==> r == transform(*s, *e),
        answered(invoke, initial, elements, replies),
    ensures
        replies == replies_of(transform, initial, elements),
    decreases elements.len(),
{
    reveal(answered);
    if elements.len() == 0 {
        assert(replies =~= Seq::empty());
    } else {
        let last = elements.len() - 1;
        let before = replies.drop_last();
        assert forall|i: int| 0 <= i < last implies call_ensures(
            invoke,
            (&state_after(initial, before.take(i)), &elements.drop_last()[i]),
            #[trigger] before[i],
        ) by {
            assert(before.take(i) =~= replies.take(i));
            assert(before[i] == replies[i]);
        }
        lemma_answers_of_function(invoke, transform, initial, elements.drop_last(), before);
        assert(replies.take(last) =~= before);
        assert(call_ensures(
            invoke,
            (&state_after(initial, replies.take(last)), &elements[last]),
            replies[last],
        ));
        assert(replies =~= before.push(replies[last]));
    }
}

/// Error locality, at the failing position. A failed reply contributes
/// exactly one error element there, tagged with the location of its element,
/// and leaves the retained state as it was.
pub proof fn lemma_error_in_place<V, E>(
    initial: V,
    replies: Seq<Reply<V, E>>,
    spans: Seq<Span>,
    i: int,
)
    requires
        replies.len() == spans.len(),
        0 <= i < replies.len(),
        replies[i] is Failed,
    ensures
        slots(replies, spans)[i] == Some(
            Emitted::<V, E>::Error { error: replies[i]->Failed_0, span: spans[i] },
        ),
        origins(slots(replies, spans)).contains(i),
        state_after(initial, replies.take(i + 1)) == state_after(initial, replies.take(i)),
{
    lemma_order_preserved(slots(replies, spans));
    lemma_state_kept(initial, replies, i);
}

/// Removing a contribution that is present removes exactly one element of
/// the output: the one that comes after the contributions before it.
pub proof fn lemma_compact_remove_present<T>(slots: Seq<Option<T>>, i: int)
    requires
        0 <= i < slots.len(),
        slots[i] is Some,
    ensures
        compact(slots.take(i)).len() < compact(slots).len(),
        compact(slots)[compact(slots.take(i)).len() as int] == slots[i]->Some_0,
        compact(slots.remove(i)) == compact(slots).remove(compact(slots.take(i)).len() as int),
    decreases slots.len(),
{
    let last = slots.len() - 1;
    let init = slots.drop_last();
    if i == last {
        assert(slots.remove(i) =~= init);
        assert(slots.take(i) =~= init);
        assert(compact(slots).remove(compact(init).len() as int) =~= compact(init));
    } else {
        lemma_compact_remove_present(init, i);
        assert(init.take(i) =~= slots.take(i));
        assert(slots.remove(i).drop_last() =~= init.remove(i));
        assert(slots.remove(i).last() == slots.last());
        let rank = compact(slots.take(i)).len() as int;
        match slots.last() {
            Some(x) => {
                assert(compact(init).remove(rank).push(x) =~= compact(init).push(x).remove(rank));
            },
            None => {},
        }
    }
}

/// Error locality, in the output. A failed reply puts exactly one element
/// into the output, an error tagged with the location of its element, right
/// after what the elements before it emitted. Without that reply the output
/// is the same but for this one element.
pub proof fn lemma_error_one_element<V, E>(replies: Seq<Reply<V, E>>, spans: Seq<Span>, i: int)
    requires
        replies.len() == spans.len(),
        0 <= i < replies.len(),
        replies[i] is Failed,
    ensures
        output(replies.take(i), spans.take(i)).len() < output(replies, spans).len(),
        output(replies, spans)[output(replies.take(i), spans.take(i)).len() as int] == (
        Emitted::<V, E>::Error { error: replies[i]->Failed_0, span: spans[i] }),
        output(replies.remove(i), spans.remove(i)) == output(replies, spans).remove(
            output(replies.take(i), spans.take(i)).len() as int,
        ),
{
    let s = slots(replies, spans);
    lemma_compact_remove_present(s, i);
    assert(s.take(i) =~= slots(replies.take(i), spans.take(i)));
    assert(s.remove(i) =~= slots(replies.remove(i), spans.remove(i)));
}

/// Error locality, at the other positions. Where the invocation on element
/// `i` fails, every other element gets the reply that it would get if
/// element `i` were not in the input at all.
pub proof fn lemma_error_local<V, E>(
    transform: spec_fn(V, V) -> Reply<V, E>,
    initial: V,
    elements: Seq<V>,
    i: int,
)
    requires
        0 <= i < elements.len(),
        replies_of(transform, initial, elements)[i] is Failed,
    ensures
        replies_of(transform, initial, elements.remove(i)) == replies_of(
            transform,
            initial,
            elements,
        ).remove(i),
    decreases elements.len(),
{
    let last = elements.len() - 1;
    let init = elements.drop_last();
    let before = replies_of(transform, initial, init);
    lemma_replies_len(transform, initial, init);
    if i == last {
        assert(elements.remove(i) =~= init);
        assert(replies_of(transform, initial, elements).remove(i) =~= before);
    } else {
        assert(before[i] == replies_of(transform, initial, elements)[i]);
        lemma_error_local(transform, initial, init, i);
        lemma_state_kept(initial, before, i);
        assert(elements.remove(i).drop_last() =~= init.remove(i));
        assert(elements.remove(i).last() == elements.last());
        assert(replies_of(transform, initial, elements).remove(i) =~= before.remove(i).push(
            transform(state_after(initial, before), elements.last()),
        ));
    }
}

/// The state after two runs of replies in a row is the state after the
/// second run, started from the state after the first.
pub proof fn lemma_state_after_concat<V, E>(
    initial: V,
    first: Seq<Reply<V, E>>,
    second: Seq<Reply<V, E>>,
)
    ensures
        state_after(initial, first + second) == state_after(
            state_after(initial, first),
            second,
        ),
    decreases second.len(),
{
    if second.len() == 0 {
        assert(first + second =~= first);
    } else {
        lemma_state_after_concat(initial, first, second.drop_last());
        assert((first + second).drop_last() =~= first + second.drop_last());
        assert((first + second).last() == second.last());
    }
}

/// The output of two runs of contributions in a row is the output of the
/// first followed by the output of the second.
pub proof fn lemma_compact_concat<T>(first: Seq<Option<T>>, second: Seq<Option<T>>)
    ensures
        compact(first + second) == compact(first) + compact(second),
    decreases second.len(),
{
    if second.len() == 0 {
        assert(first + second =~= first);
        assert(compact(first) + compact(second) =~= compact(first));
    } else {
        lemma_compact_concat(first, second.drop_last());
        assert((first + second).drop_last() =~= first + second.drop_last());
        assert((first + second).last() == second.last());
        match second.last() {
            Some(x) => {
                assert((compact(first) + compact(second.drop_last())).push(x) =~= compact(first)
                    + compact(second.drop_last()).push(x));
            },
            None => {},
        }
    }
}

/// Two traversals in a row, the second from the state that the first left,
/// are one traversal of the elements of both.
pub proof fn lemma_traversed_concat<V, E, L: Fn(&V) -> Span, F: Fn(&V, &V) -> Reply<V, E>>(
    invoke: F,
    locate: L,
    initial: V,
    first: (Seq<V>, Seq<Reply<V, E>>, Seq<Span>),
    second: (Seq<V>, Seq<Reply<V, E>>, Seq<Span>),
)
    requires
        traversed(invoke, locate, initial, first.0, first.1, first.2),
        traversed(invoke, locate, state_after(initial, first.1), second.0, second.1, second.2),
    ensures
        traversed(
            invoke,
            locate,
            initial,
            first.0 + second.0,
            first.1 + second.1,
            first.2 + second.2,
        ),
        state_after(initial, first.1 + second.1) == state_after(
            state_after(initial, first.1),
            second.1,
        ),
        output(first.1 + second.1, first.2 + second.2) == output(first.1, first.2) + output(
            second.1,
            second.2,
        ),
{
    reveal(answered);
    reveal(located);
    let (e1, r1, s1) = first;
    let (e2, r2, s2) = second;
    let m1 = r1.len() as int;
    let elements = e1 + e2;
    let replies = r1 + r2;
    let spans = s1 + s2;
    lemma_state_after_concat(initial, r1, r2);
    lemma_compact_concat(slots(r1, s1), slots(r2, s2));
    assert(slots(replies, spans) =~= slots(r1, s1) + slots(r2, s2));
    assert forall|i: int| 0 <= i < elements.len() implies call_ensures(
        invoke,
        (&state_after(initial, replies.take(i)), &elements[i]),
        #[trigger] replies[i],
    ) by {
        if i < m1 {
            assert(replies.take(i) =~= r1.take(i));
            assert(replies[i] == r1[i]);
            assert(elements[i] == e1[i]);
        } else {
            let d = i - m1;
            assert(replies.take(i) =~= r1 + r2.take(d));
            lemma_state_after_concat(initial, r1, r2.take(d));
            assert(replies[i] == r2[d]);
            assert(elements[i] == e2[d]);
        }
    }
    assert forall|i: int| 0 <= i < elements.len() implies call_ensures(
        locate,
        (&elements[i],),
        #[trigger] spans[i],
    ) by {
        if i < m1 {
            assert(spans[i] == s1[i]);
            assert(elements[i] == e1[i]);
        } else {
            assert(spans[i] == s2[i - m1]);
            assert(elements[i] == e2[i - m1]);
        }
    }
}

/// What is still to be processed after a pull is what was to be processed
/// before it, without the elements that the pull processed.
pub proof fn lemma_rest_to_process<V, E, L: Fn(&V) -> Span, F: Fn(&V, &V) -> Reply<V, E>>(
    invoke: F,
    locate: L,
    before: TransformerView<V>,
    queue: Seq<V>,
    k: nat,
    met: (Seq<Reply<V, E>>, Seq<Span>, Seq<Emitted<V, E>>),
    after: TransformerView<V>,
    left: Seq<V>,
)
    requires
        pulled_first(invoke, locate, before, queue, k, met.0, met.1, met.2, after, left),
    ensures
        to_process(after.exhausted, after.sentinel, left) == to_process(
            before.exhausted,
            before.sentinel,
            queue,
        ).skip(met.0.len() as int),
{
    let m = met.0.len() as int;
    let total = to_process(before.exhausted, before.sentinel, queue);
    let rest = to_process(after.exhausted, after.sentinel, left);
    if !after.exhausted {
        assert(left == queue.skip(m));
        assert(processed(queue.skip(m), before.sentinel) =~= processed(
            queue,
            before.sentinel,
        ).skip(m));
    }
    assert(rest =~= total.skip(m));
}

/// Laziness, pull after pull. Pulling for `j` elements of the output and
/// then, from where that left the transformer and the queue, for `k` more,
/// is pulling for `j + k` elements at once: the same elements are processed,
/// in the same order and no others, and the outputs follow one another.
pub proof fn lemma_pulls_in_a_row<V, E, L: Fn(&V) -> Span, F: Fn(&V, &V) -> Reply<V, E>>(
    invoke: F,
    locate: L,
    before: TransformerView<V>,
    queue: Seq<V>,
    j: nat,
    first: (Seq<Reply<V, E>>, Seq<Span>, Seq<Emitted<V, E>>),
    between: TransformerView<V>,
    waiting: Seq<V>,
    k: nat,
    second: (Seq<Reply<V, E>>, Seq<Span>, Seq<Emitted<V, E>>),
    after: TransformerView<V>,
    left: Seq<V>,
)
    requires
        pulled_first(invoke, locate, before, queue, j, first.0, first.1, first.2, between, waiting),
        pulled_first(invoke, locate, between, waiting, k, second.0, second.1, second.2, after, left),
    ensures
        pulled_first(
            invoke,
            locate,
            before,
            queue,
            j + k,
            first.0 + second.0,
            first.1 + second.1,
            first.2 + second.2,
            after,
            left,
        ),
{
    let (r1, s1, o1) = first;
    let (r2, s2, o2) = second;
    let m1 = r1.len() as int;
    let m2 = r2.len() as int;
    let total = to_process(before.exhausted, before.sentinel, queue);
    let rest = to_process(between.exhausted, between.sentinel, waiting);
    lemma_rest_to_process(invoke, locate, before, queue, j, first, between, waiting);
    assert(total.take(m1 + m2) =~= total.take(m1) + rest.take(m2));
    lemma_traversed_concat(
        invoke,
        locate,
        before.state,
        (total.take(m1), r1, s1),
        (rest.take(m2), r2, s2),
    );
    if m2 > 0 {
        assert((r1 + r2).last() == r2.last());
        assert((s1 + s2).last() == s2.last());
    } else {
        assert(r1 + r2 =~= r1);
        assert(s1 + s2 =~= s1);
    }
    let taken = if m1 + m2 <= queue.len() {
        m1 + m2
    } else {
        queue.len() as int
    };
    assert(left =~= queue.skip(taken));
}

} // verus!
