use std::collections::VecDeque;

use stateful_filter::driver::{next_output, take_outputs, transform_all};
use stateful_filter::reply::{Emitted, Reply, Span};
use stateful_filter::transformer::Transformer;

const HERE: Span = Span { start: 2, end: 5 };

#[test]
fn absorb_slots_with_both_present() {
    let mut t = Transformer::new(1u32);
    let r: Reply<u32, String> = Reply::Slots { state: Some(2), out: Some(3) };
    assert_eq!(t.absorb(HERE, r), Some(Emitted::Value(3)));
    assert_eq!(*t.state(), 2);
}

#[test]
fn absorb_slots_with_state_only() {
    let mut t = Transformer::new(1u32);
    let r: Reply<u32, String> = Reply::Slots { state: Some(2), out: None };
    assert_eq!(t.absorb(HERE, r), None);
    assert_eq!(*t.state(), 2);
}

#[test]
fn absorb_slots_with_out_only() {
    let mut t = Transformer::new(1u32);
    let r: Reply<u32, String> = Reply::Slots { state: None, out: Some(3) };
    assert_eq!(t.absorb(HERE, r), Some(Emitted::Value(3)));
    assert_eq!(*t.state(), 1);
}

#[test]
fn absorb_empty_slots() {
    let mut t = Transformer::new(1u32);
    let r: Reply<u32, String> = Reply::Slots { state: None, out: None };
    assert_eq!(t.absorb(HERE, r), None);
    assert_eq!(*t.state(), 1);
}

#[test]
fn absorb_failure_emits_tagged_error_and_keeps_state() {
    let mut t = Transformer::new(1u32);
    let r: Reply<u32, String> = Reply::Failed("boom".to_string());
    assert_eq!(
        t.absorb(Span { start: 7, end: 9 }, r),
        Some(Emitted::Error { error: "boom".to_string(), span: Span { start: 7, end: 9 } })
    );
    assert_eq!(*t.state(), 1);
}

#[test]
fn new_transformer_has_no_exhaustion_call() {
    let t = Transformer::new(5u8);
    assert!(!t.emit_on_exhaustion());
    assert!(!t.is_exhausted());
    assert_eq!(*t.state(), 5);
}

#[test]
fn sentinel_is_handed_out_once() {
    let mut t = Transformer::with_exhaustion_call(0u8, 255u8);
    assert!(t.emit_on_exhaustion());
    assert_eq!(t.next_element(Some(4)), Some(4));
    assert!(t.emit_on_exhaustion());
    assert_eq!(t.next_element(None), Some(255));
    assert!(!t.emit_on_exhaustion());
    assert_eq!(t.next_element(None), None);
    assert_eq!(*t.state(), 0);
}

fn locate(e: &i64) -> Span {
    Span { start: *e as usize, end: *e as usize + 1 }
}

#[test]
fn transform_all_running_sum() {
    let mut t = Transformer::new(0i64);
    let invoke = |s: &i64, e: &i64| -> Reply<i64, String> {
        Reply::Slots { state: Some(s + e), out: Some(s + e) }
    };
    let out = transform_all(&mut t, VecDeque::from(vec![1, 2, 3]), &locate, &invoke);
    assert_eq!(out, vec![Emitted::Value(1), Emitted::Value(3), Emitted::Value(6)]);
    assert_eq!(*t.state(), 6);
    assert!(t.is_exhausted());
}

#[test]
fn transform_all_filters_and_reports_failures_in_place() {
    let mut t = Transformer::new(0i64);
    let invoke = |s: &i64, e: &i64| -> Reply<i64, String> {
        if *e == 3 {
            Reply::Failed("three".to_string())
        } else if e % 2 == 0 {
            Reply::Slots { state: Some(s + 1), out: Some(*e * 10 + s) }
        } else {
            Reply::Slots { state: None, out: None }
        }
    };
    let out = transform_all(&mut t, VecDeque::from(vec![1, 2, 3, 4, 5]), &locate, &invoke);
    assert_eq!(
        out,
        vec![
            Emitted::Value(20),
            Emitted::Error { error: "three".to_string(), span: Span { start: 3, end: 4 } },
            Emitted::Value(41),
        ]
    );
    assert_eq!(*t.state(), 2);
}

#[test]
fn transform_all_processes_the_sentinel_last() {
    let mut t = Transformer::with_exhaustion_call(0i64, -1i64);
    let invoke = |s: &i64, e: &i64| -> Reply<i64, String> {
        if *e == -1 {
            Reply::Slots { state: None, out: Some(*s) }
        } else {
            Reply::Slots { state: Some(s + e), out: None }
        }
    };
    let loc = |_e: &i64| Span { start: 0, end: 0 };
    let out = transform_all(&mut t, VecDeque::from(vec![5, 6]), &loc, &invoke);
    assert_eq!(out, vec![Emitted::Value(11)]);
    assert!(!t.emit_on_exhaustion());
}

#[test]
fn transform_all_on_empty_input() {
    let calls = std::cell::Cell::new(0);
    let invoke = |s: &i64, _e: &i64| -> Reply<i64, String> {
        calls.set(calls.get() + 1);
        Reply::Slots { state: None, out: Some(*s) }
    };
    let loc = |_e: &i64| Span { start: 0, end: 0 };
    let mut t = Transformer::new(4i64);
    let out = transform_all(&mut t, VecDeque::new(), &loc, &invoke);
    assert!(out.is_empty());
    assert_eq!(calls.get(), 0);
    let mut t = Transformer::with_exhaustion_call(4i64, 0i64);
    let out = transform_all(&mut t, VecDeque::new(), &loc, &invoke);
    assert_eq!(out, vec![Emitted::Value(4)]);
    assert_eq!(calls.get(), 1);
}

#[test]
fn transform_all_does_nothing_once_exhausted() {
    let mut t = Transformer::new(4i64);
    assert_eq!(t.next_element(None), None);
    let invoke =
        |s: &i64, e: &i64| -> Reply<i64, String> { Reply::Slots { state: Some(*e), out: Some(*s) } };
    let out = transform_all(&mut t, VecDeque::from(vec![1, 2]), &locate, &invoke);
    assert!(out.is_empty());
    assert_eq!(*t.state(), 4);
}

#[test]
fn output_of_a_prefix_is_a_prefix_of_the_output() {
    let invoke = |s: &i64, e: &i64| -> Reply<i64, String> {
        if e % 3 == 0 {
            Reply::Slots { state: Some(s + e), out: None }
        } else {
            Reply::Slots { state: None, out: Some(s * 100 + e) }
        }
    };
    let all = vec![1, 3, 4, 6, 7, 8];
    let mut t = Transformer::new(0i64);
    let whole = transform_all(&mut t, VecDeque::from(all.clone()), &locate, &invoke);
    for k in 0..all.len() {
        let mut t = Transformer::new(0i64);
        let part = transform_all(&mut t, VecDeque::from(all[..k].to_vec()), &locate, &invoke);
        assert_eq!(part[..], whole[..part.len()]);
    }
}

fn even_only(calls: &std::cell::Cell<usize>) -> impl Fn(&i64, &i64) -> Reply<i64, String> + '_ {
    move |s: &i64, e: &i64| {
        calls.set(calls.get() + 1);
        if e % 2 == 0 {
            Reply::Slots { state: Some(s + 1), out: Some(*e) }
        } else {
            Reply::Slots { state: None, out: None }
        }
    }
}

#[test]
fn next_output_pulls_up_to_the_first_emitting_element() {
    let calls = std::cell::Cell::new(0);
    let invoke = even_only(&calls);
    let mut t = Transformer::new(0i64);
    let mut queue = VecDeque::from(vec![1, 3, 4, 5, 6, 7]);
    assert_eq!(calls.get(), 0);
    assert_eq!(next_output(&mut t, &mut queue, &locate, &invoke), Some(Emitted::Value(4)));
    assert_eq!(calls.get(), 3);
    assert_eq!(queue, VecDeque::from(vec![5, 6, 7]));
    assert!(!t.is_exhausted());
    assert_eq!(next_output(&mut t, &mut queue, &locate, &invoke), Some(Emitted::Value(6)));
    assert_eq!(calls.get(), 5);
    assert_eq!(queue, VecDeque::from(vec![7]));
    assert_eq!(*t.state(), 2);
    assert_eq!(next_output(&mut t, &mut queue, &locate, &invoke), None);
    assert_eq!(calls.get(), 6);
    assert!(queue.is_empty());
    assert!(t.is_exhausted());
    assert_eq!(next_output(&mut t, &mut queue, &locate, &invoke), None);
    assert_eq!(calls.get(), 6);
}

#[test]
fn next_output_pulls_one_element_when_nothing_is_filtered() {
    let calls = std::cell::Cell::new(0);
    let invoke = |_s: &i64, e: &i64| -> Reply<i64, String> {
        calls.set(calls.get() + 1);
        Reply::Slots { state: None, out: Some(*e) }
    };
    let mut t = Transformer::new(0i64);
    let mut queue: VecDeque<i64> = (1..=1000).collect();
    for k in 1..=5 {
        assert_eq!(next_output(&mut t, &mut queue, &locate, &invoke), Some(Emitted::Value(k)));
        assert_eq!(calls.get(), k as usize);
        assert_eq!(queue.len(), 1000 - k as usize);
    }
}

#[test]
fn next_output_reports_a_failure_and_goes_on() {
    let invoke = |_s: &i64, e: &i64| -> Reply<i64, String> {
        if *e == 2 {
            Reply::Failed("two".to_string())
        } else {
            Reply::Slots { state: Some(*e), out: None }
        }
    };
    let mut t = Transformer::new(0i64);
    let mut queue = VecDeque::from(vec![1, 2, 3]);
    assert_eq!(
        next_output(&mut t, &mut queue, &locate, &invoke),
        Some(Emitted::Error { error: "two".to_string(), span: Span { start: 2, end: 3 } })
    );
    assert_eq!(*t.state(), 1);
    assert_eq!(queue, VecDeque::from(vec![3]));
    assert_eq!(next_output(&mut t, &mut queue, &locate, &invoke), None);
    assert_eq!(*t.state(), 3);
}

#[test]
fn next_output_ends_with_the_sentinel() {
    let invoke = |s: &i64, e: &i64| -> Reply<i64, String> {
        if *e < 0 {
            Reply::Slots { state: None, out: Some(*s) }
        } else {
            Reply::Slots { state: Some(s + e), out: None }
        }
    };
    let loc = |_e: &i64| Span { start: 0, end: 0 };
    let mut t = Transformer::with_exhaustion_call(0i64, -1i64);
    let mut queue = VecDeque::from(vec![2, 3]);
    assert_eq!(next_output(&mut t, &mut queue, &loc, &invoke), Some(Emitted::Value(5)));
    assert!(t.is_exhausted());
    assert!(!t.emit_on_exhaustion());
    assert_eq!(next_output(&mut t, &mut queue, &loc, &invoke), None);
}

#[test]
fn take_outputs_pulls_no_more_than_the_outputs_need() {
    let calls = std::cell::Cell::new(0);
    let invoke = even_only(&calls);
    let mut t = Transformer::new(0i64);
    let mut queue: VecDeque<i64> = (1..=100).collect();
    let out = take_outputs(&mut t, &mut queue, 3, &locate, &invoke);
    assert_eq!(out, vec![Emitted::Value(2), Emitted::Value(4), Emitted::Value(6)]);
    assert_eq!(calls.get(), 6);
    assert_eq!(queue.len(), 94);
    assert_eq!(queue.front(), Some(&7));
    assert!(!t.is_exhausted());
    assert_eq!(*t.state(), 3);
}

#[test]
fn take_outputs_of_none_pulls_nothing() {
    let calls = std::cell::Cell::new(0);
    let invoke = even_only(&calls);
    let mut t = Transformer::with_exhaustion_call(0i64, -2i64);
    let mut queue = VecDeque::from(vec![2, 4]);
    let out = take_outputs(&mut t, &mut queue, 0, &locate, &invoke);
    assert!(out.is_empty());
    assert_eq!(calls.get(), 0);
    assert_eq!(queue, VecDeque::from(vec![2, 4]));
    assert!(!t.is_exhausted());
    assert!(t.emit_on_exhaustion());
}

#[test]
fn take_outputs_with_one_filtered_pulls_one_more() {
    let calls = std::cell::Cell::new(0);
    let invoke = even_only(&calls);
    let mut t = Transformer::new(0i64);
    let mut queue = VecDeque::from(vec![2, 3, 4, 6, 8]);
    let out = take_outputs(&mut t, &mut queue, 2, &locate, &invoke);
    assert_eq!(out, vec![Emitted::Value(2), Emitted::Value(4)]);
    assert_eq!(calls.get(), 3);
    assert_eq!(queue, VecDeque::from(vec![6, 8]));
}

#[test]
fn take_outputs_stops_at_the_end_of_the_traversal() {
    let calls = std::cell::Cell::new(0);
    let invoke = even_only(&calls);
    let mut t = Transformer::new(0i64);
    let mut queue = VecDeque::from(vec![1, 2, 3]);
    let out = take_outputs(&mut t, &mut queue, 5, &locate, &invoke);
    assert_eq!(out, vec![Emitted::Value(2)]);
    assert_eq!(calls.get(), 3);
    assert!(queue.is_empty());
    assert!(t.is_exhausted());
    let again = take_outputs(&mut t, &mut queue, 5, &locate, &invoke);
    assert!(again.is_empty());
    assert_eq!(calls.get(), 3);
}

#[test]
fn take_outputs_in_turn_agree_with_the_whole_traversal() {
    let calls = std::cell::Cell::new(0);
    let invoke = even_only(&calls);
    let all: Vec<i64> = vec![1, 2, 4, 5, 7, 8, 9, 10];
    let mut whole = Transformer::new(0i64);
    let expected = transform_all(&mut whole, VecDeque::from(all.clone()), &locate, &invoke);
    let mut t = Transformer::new(0i64);
    let mut queue = VecDeque::from(all);
    let mut out = take_outputs(&mut t, &mut queue, 1, &locate, &invoke);
    out.extend(take_outputs(&mut t, &mut queue, 2, &locate, &invoke));
    out.extend(take_outputs(&mut t, &mut queue, 9, &locate, &invoke));
    assert_eq!(out, expected);
    assert_eq!(t.state(), whole.state());
}
