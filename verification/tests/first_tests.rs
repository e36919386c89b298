use push_stream::observable::{from_iter, throw, Observable};
use push_stream::observer::{Collector, Observer};
use push_stream::ops::first::{First, FirstOr, FirstOrObserver};
use push_stream::ops::take::{Take, TakeObserver};
use push_stream::signal::{Flow, Signal};
use std::collections::VecDeque;

fn count_next<E>(signals: &[Signal<i32, E>]) -> usize {
    signals.iter().filter(|s| matches!(s, Signal::Next(_))).count()
}

fn completed<E>(signals: &[Signal<i32, E>]) -> bool {
    signals.iter().any(|s| matches!(s, Signal::Complete))
}

#[test]
fn first() {
    let numbers = from_iter((0..2).collect::<VecDeque<i32>>());
    let seen = numbers.clone().first().actual_subscribe(Collector::new()).into_signals();

    assert_eq!(completed(&seen), true);
    assert_eq!(count_next(&seen), 1);
    assert_eq!(seen, vec![Signal::Next(0), Signal::Complete]);
}

#[test]
fn first_or() {
    let numbers = from_iter((0..2).collect::<VecDeque<i32>>());
    let seen = numbers.clone().first_or(100).actual_subscribe(Collector::new()).into_signals();

    // normal pass value
    assert_eq!(count_next(&seen), 1);
    assert_eq!(completed(&seen), true);
    assert_eq!(seen, vec![Signal::Next(0), Signal::Complete]);

    let silent = from_iter(VecDeque::<i32>::new());
    let seen = silent.first_or(100).actual_subscribe(Collector::new()).into_signals();
    assert_eq!(completed(&seen), true);
    assert_eq!(seen, vec![Signal::Next(100), Signal::Complete]);
}

#[test]
fn first_or_two_subscribers_both_get_the_default() {
    let silent = from_iter(VecDeque::<i32>::new());
    let one = silent.clone().first_or(100).actual_subscribe(Collector::new()).into_signals();
    let two = silent.first_or(100).actual_subscribe(Collector::new()).into_signals();
    assert_eq!(one, vec![Signal::Next(100), Signal::Complete]);
    assert_eq!(two, vec![Signal::Next(100), Signal::Complete]);
}

#[test]
fn first_or_error_bypasses_the_default() {
    let holder = FirstOrObserver::new(Collector::<i32, &str>::new(), 100);
    let mut chain = TakeObserver::new(holder, 1);
    chain.error("boom");
    let seen = chain.into_inner().into_inner().into_signals();
    assert_eq!(seen, vec![Signal::Error("boom")]);
}

#[test]
fn first_or_default_is_dropped_by_an_item() {
    let mut holder = FirstOrObserver::new(Collector::<i32, ()>::new(), 100);
    assert_eq!(holder.next(7), Flow::Continue);
    holder.complete();
    assert_eq!(holder.into_inner().into_signals(), vec![Signal::Next(7), Signal::Complete]);
}

#[test]
fn first_or_ignores_what_follows_the_end() {
    let mut holder = FirstOrObserver::new(Collector::<i32, &str>::new(), 100);
    holder.complete();
    assert_eq!(holder.next(1), Flow::Stop);
    holder.complete();
    holder.error("late");
    assert_eq!(holder.into_inner().into_signals(), vec![Signal::Next(100), Signal::Complete]);
}

#[test]
fn take_emits_the_prefix_then_completes() {
    let source = from_iter((0..10).collect::<VecDeque<i32>>());
    let seen = source.take(3).actual_subscribe(Collector::new()).into_signals();
    assert_eq!(
        seen,
        vec![Signal::Next(0), Signal::Next(1), Signal::Next(2), Signal::Complete]
    );
}

#[test]
fn take_of_a_short_stream_passes_it_whole() {
    let source = from_iter((0..2).collect::<VecDeque<i32>>());
    let seen = source.take(5).actual_subscribe(Collector::new()).into_signals();
    assert_eq!(seen, vec![Signal::Next(0), Signal::Next(1), Signal::Complete]);
}

#[test]
fn take_asks_to_stop_at_the_last_item() {
    let mut taker = TakeObserver::new(Collector::<i32, ()>::new(), 2);
    assert_eq!(taker.next(10), Flow::Continue);
    assert_eq!(taker.next(11), Flow::Stop);
    assert_eq!(taker.next(12), Flow::Stop);
    taker.complete();
    assert_eq!(
        taker.into_inner().into_signals(),
        vec![Signal::Next(10), Signal::Next(11), Signal::Complete]
    );
}

#[test]
fn take_zero_passes_only_the_end() {
    let source = from_iter((0..4).collect::<VecDeque<i32>>());
    let seen = source.take(0).actual_subscribe(Collector::new()).into_signals();
    assert_eq!(seen, vec![Signal::Complete]);
}

#[test]
fn take_forwards_an_error_once() {
    let mut taker = TakeObserver::new(Collector::<i32, &str>::new(), 3);
    taker.next(1);
    taker.error("boom");
    taker.error("again");
    taker.complete();
    assert_eq!(
        taker.into_inner().into_signals(),
        vec![Signal::Next(1), Signal::Error("boom")]
    );
}

#[test]
fn collector_keeps_everything_in_order() {
    let mut sink = Collector::<i32, &str>::new();
    assert_eq!(sink.next(1), Flow::Continue);
    sink.error("e");
    sink.complete();
    assert_eq!(
        sink.into_signals(),
        vec![Signal::Next(1), Signal::Error("e"), Signal::Complete]
    );
}

#[test]
fn first_or_of_a_failing_source_forwards_the_error() {
    let seen = throw::<i32, &str>("boom")
        .first_or(100)
        .actual_subscribe(Collector::new())
        .into_signals();
    assert_eq!(seen, vec![Signal::Error("boom")]);
}

#[test]
fn first_of_a_failing_source_forwards_the_error() {
    let seen = throw::<i32, &str>("boom").first().actual_subscribe(Collector::new()).into_signals();
    assert_eq!(seen, vec![Signal::Error("boom")]);
}
