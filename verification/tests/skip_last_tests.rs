use push_stream::observable::{from_iter, subscribe_both, throw, Fork, Observable};
use push_stream::observer::{Collector, Observer};
use push_stream::ops::skip_last::{SkipLast, SkipLastObserver};
use push_stream::ops::take::Take;
use push_stream::signal::{Flow, Signal};
use std::collections::VecDeque;

fn ticks_of(signals: &[Signal<i32, ()>]) -> Vec<i32> {
    let mut ticks = vec![];
    for s in signals {
        if let Signal::Next(v) = s {
            ticks.push(*v);
        }
    }
    ticks
}

fn is_shareable<T: Send + Sync + 'static>(_: &T) -> bool {
    true
}

#[test]
fn base_function() {
    let seen = from_iter((0..10).collect::<VecDeque<i32>>())
        .skip_last(5)
        .actual_subscribe(Collector::new())
        .into_signals();
    let completed = seen.last() == Some(&Signal::Complete);

    assert_eq!(ticks_of(&seen), vec![0, 1, 2, 3, 4]);
    assert_eq!(completed, true);
}

#[test]
fn base_empty_function() {
    let seen = from_iter((0..10).collect::<VecDeque<i32>>())
        .skip_last(11)
        .actual_subscribe(Collector::new())
        .into_signals();
    let completed = seen.last() == Some(&Signal::Complete);

    assert_eq!(ticks_of(&seen), Vec::<i32>::new());
    assert_eq!(completed, true);
}

#[test]
fn skip_last_support_fork() {
    let skip_last5 = from_iter((0..100).collect::<VecDeque<i32>>()).skip_last(5);
    let f1 = skip_last5.clone();
    let f2 = skip_last5;

    let nc1 = ticks_of(&f1.skip_last(5).actual_subscribe(Collector::new()).into_signals()).len();
    let nc2 = ticks_of(&f2.skip_last(5).actual_subscribe(Collector::new()).into_signals()).len();
    assert_eq!(nc1, 90);
    assert_eq!(nc2, 90);
}

#[test]
fn into_shared() {
    let chain = from_iter((0..100).collect::<VecDeque<i32>>()).skip_last(5).skip_last(5);
    assert!(is_shareable(&chain));
    let sink = Collector::<i32, ()>::new();
    assert!(is_shareable(&sink));
    chain.actual_subscribe(sink);
}

#[test]
fn skip_last_zero_forwards_everything() {
    let seen = from_iter((0..4).collect::<VecDeque<i32>>())
        .skip_last(0)
        .actual_subscribe(Collector::new())
        .into_signals();
    assert_eq!(
        seen,
        vec![
            Signal::Next(0),
            Signal::Next(1),
            Signal::Next(2),
            Signal::Next(3),
            Signal::Complete
        ]
    );
}

#[test]
fn skip_last_of_exactly_count_items_is_empty() {
    let seen = from_iter((0..5).collect::<VecDeque<i32>>())
        .skip_last(5)
        .actual_subscribe(Collector::new())
        .into_signals();
    assert_eq!(seen, vec![Signal::Complete]);
}

#[test]
fn skip_last_twice_adds_the_windows() {
    let seen = from_iter((0..10).collect::<VecDeque<i32>>())
        .skip_last(2)
        .skip_last(3)
        .actual_subscribe(Collector::new())
        .into_signals();
    assert_eq!(ticks_of(&seen), vec![0, 1, 2, 3, 4]);
    assert_eq!(seen.len(), 6);

    let none = from_iter((0..4).collect::<VecDeque<i32>>())
        .skip_last(2)
        .skip_last(3)
        .actual_subscribe(Collector::new())
        .into_signals();
    assert_eq!(none, vec![Signal::Complete]);
}

#[test]
fn skip_last_withholds_until_completion() {
    let mut holder = SkipLastObserver::new(Collector::<i32, ()>::new(), 1);
    assert_eq!(holder.next(1), Flow::Continue);
    assert_eq!(holder.next(2), Flow::Continue);
    let so_far = holder.into_inner().into_signals();
    assert_eq!(so_far, vec![]);
}

#[test]
fn skip_last_drops_the_buffer_on_error() {
    let mut holder = SkipLastObserver::new(Collector::<i32, &str>::new(), 1);
    holder.next(1);
    holder.next(2);
    holder.next(3);
    holder.error("boom");
    holder.complete();
    assert_eq!(holder.into_inner().into_signals(), vec![Signal::Error("boom")]);
}

#[test]
fn skip_last_completes_once() {
    let mut holder = SkipLastObserver::new(Collector::<i32, ()>::new(), 1);
    holder.next(1);
    holder.next(2);
    holder.complete();
    assert_eq!(holder.next(3), Flow::Stop);
    holder.complete();
    assert_eq!(
        holder.into_inner().into_signals(),
        vec![Signal::Next(1), Signal::Complete]
    );
}

#[test]
fn skip_last_then_take_ends_after_the_prefix() {
    let seen = from_iter((0..10).collect::<VecDeque<i32>>())
        .skip_last(2)
        .take(3)
        .actual_subscribe(Collector::new())
        .into_signals();
    assert_eq!(
        seen,
        vec![Signal::Next(0), Signal::Next(1), Signal::Next(2), Signal::Complete]
    );
}

#[test]
fn forks_do_not_share_state() {
    let source = from_iter((0..6).collect::<VecDeque<i32>>()).skip_last(2);
    let twin = source.clone();
    let one = source.take(1).actual_subscribe(Collector::new()).into_signals();
    let two = twin.actual_subscribe(Collector::new()).into_signals();
    assert_eq!(one, vec![Signal::Next(0), Signal::Complete]);
    assert_eq!(ticks_of(&two), vec![0, 1, 2, 3]);
}

#[test]
fn fork_emits_the_same_stream() {
    let source = from_iter((0..6).collect::<VecDeque<i32>>()).skip_last(2);
    let twin = source.fork();
    let one = source.actual_subscribe(Collector::new()).into_signals();
    let two = twin.actual_subscribe(Collector::new()).into_signals();
    assert_eq!(ticks_of(&one), vec![0, 1, 2, 3]);
    assert_eq!(one, two);
}

#[test]
fn subscribe_both_gives_each_observer_the_whole_stream() {
    let source = from_iter((0..100).collect::<VecDeque<i32>>()).skip_last(5).skip_last(5);
    let (one, two) = subscribe_both(source, Collector::new(), Collector::new());
    let one = one.into_signals();
    let two = two.into_signals();
    assert_eq!(ticks_of(&one).len(), 90);
    assert_eq!(ticks_of(&two).len(), 90);
    assert_eq!(ticks_of(&one), (0..90).collect::<Vec<i32>>());
    assert_eq!(one, two);
}

#[test]
fn source_stops_when_asked() {
    let holder = SkipLastObserver::new(Collector::<i32, ()>::new(), 0);
    let taker = push_stream::ops::take::TakeObserver::new(holder, 2);
    let fed = from_iter((0..10).collect::<VecDeque<i32>>()).actual_subscribe(taker);
    let seen = fed.into_inner().into_inner().into_signals();
    assert_eq!(seen, vec![Signal::Next(0), Signal::Next(1), Signal::Complete]);
}

#[test]
fn skip_last_of_a_failing_source_forwards_the_error() {
    let seen = throw::<i32, &str>("boom")
        .skip_last(3)
        .actual_subscribe(Collector::new())
        .into_signals();
    assert_eq!(seen, vec![Signal::Error("boom")]);
}
