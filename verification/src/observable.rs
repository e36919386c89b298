//! The observable contract, and the source that replays a sequence of items.

use vstd::prelude::*;
use std::collections::VecDeque;
use crate::signal::{nexts, Flow, Signal};
use crate::observer::Observer;

verus! {

/// A recipe for one stream. Subscribing consumes it, pushes the stream into
/// the observer, as far as the observer asks for it, and hands the observer
/// back.
pub trait Observable: Sized {
    type Item;

    type Err;

    spec fn inv(&self) -> bool;

    /// The signals a subscription pushes, in order.
    spec fn emits(&self) -> Seq<Signal<Self::Item, Self::Err>>;

    fn actual_subscribe<O: Observer<Self::Item, Self::Err>>(self, observer: O) -> (done: O)
        requires
            self.inv(),
            observer.inv(),
        ensures
            done.inv(),
            done.setup() == observer.setup(),
            done.outcome() == O::result(observer.setup(), observer.received() + self.emits()),
    ;
}

/// An observable that can be subscribed to more than once: a fork is a
/// second recipe for the same stream, with no state in common.
pub trait Fork: Observable {
    fn fork(&self) -> (twin: Self)
        requires
            self.inv(),
        ensures
            twin.inv(),
            twin.emits() == self.emits(),
    ;
}

/// Subscribes two observers to one observable, each to a fork of its own.
/// Each receives the whole stream, whatever the other does with it.
pub fn subscribe_both<S: Fork, A: Observer<S::Item, S::Err>, B: Observer<S::Item, S::Err>>(
    source: S,
    first: A,
    second: B,
) -> (done: (A, B))
    requires
        source.inv(),
        first.inv(),
        second.inv(),
    ensures
        done.0.inv(),
        done.1.inv(),
        done.0.setup() == first.setup(),
        done.1.setup() == second.setup(),
        done.0.outcome() == A::result(first.setup(), first.received() + source.emits()),
        done.1.outcome() == B::result(second.setup(), second.received() + source.emits()),
{
    let twin = source.fork();
    let one = twin.actual_subscribe(first);
    let two = source.actual_subscribe(second);
    (one, two)
}

/// A source that pushes the items it holds, first to last, then completes.
#[derive(Clone)]
pub struct FromIter<Item> {
    items: VecDeque<Item>,
}

impl<Item> FromIter<Item> {
    pub closed spec fn view(&self) -> Seq<Item> {
        self.items@
    }
}

/// The source that replays `items`, first to last, and then completes.
pub fn from_iter<Item>(items: VecDeque<Item>) -> (source: FromIter<Item>)
    ensures
        source@ == items@,
{
    FromIter { items }
}

impl<Item> Observable for FromIter<Item> {
    type Item = Item;

    type Err = ();

    open spec fn inv(&self) -> bool {
        true
    }

    open spec fn emits(&self) -> Seq<Signal<Item, ()>> {
        nexts(self@).push(Signal::Complete)
    }

    /// Pushes the items in order until the observer asks to stop; where it
    /// never does, the completion follows the last item.
    fn actual_subscribe<O: Observer<Item, ()>>(self, observer: O) -> (done: O)
        ensures
            done.received() == observer.received() + pushed::<Item, O>(
                observer.setup(),
                observer.received(),
                self@,
            ),
    {
        let ghost all = self.items@;
        let ghost start = observer;
        let ghost whole = nexts::<Item, ()>(all).push(Signal::Complete);
        let mut items = self.items;
        let mut observer = observer;
        let mut go = true;
        proof {
            assert(start.received() + nexts::<Item, ()>(all.take(0)) == start.received());
        }
        while go && items.len() > 0
            invariant
                observer.inv(),
                observer.setup() == start.setup(),
                items@.len() <= all.len(),
                items@ == all.skip(all.len() - items@.len()),
                observer.received() == start.received() + nexts::<Item, ()>(
                    all.take(all.len() - items@.len()),
                ),
                go == !halted_within::<Item, O>(
                    start.setup(),
                    start.received(),
                    all,
                    all.len() - items@.len(),
                ),
                !go ==> items@.len() < all.len() && !halted_within::<Item, O>(
                    start.setup(),
                    start.received(),
                    all,
                    all.len() - items@.len() - 1,
                ),
            decreases items@.len(),
        {
            let ghost k = all.len() - items@.len();
            match items.pop_front() {
                Some(value) => {
                    let flow = observer.next(value);
                    proof {
                        assert(value == all[k]);
                        assert(items@ == all.skip(k + 1));
                        assert(nexts::<Item, ()>(all.take(k + 1)) == nexts::<Item, ()>(
                            all.take(k),
                        ).push(Signal::Next(value)));
                        assert(observer.received() == start.received() + nexts::<Item, ()>(
                            all.take(k + 1),
                        ));
                        observer.lemma_outcome();
                    }
                    match flow {
                        Flow::Stop => {
                            go = false;
                        },
                        Flow::Continue => {},
                    }
                },
                None => {},
            }
        }
        let ghost k = all.len() - items@.len();
        let ghost sent = nexts::<Item, ()>(all.take(k));
        if go {
            proof {
                assert(all.take(all.len() as int) == all);
                assert(observer.received().push(Signal::Complete) == start.received() + whole);
            }
            observer.complete();
            proof {
                observer.lemma_outcome();
            }
        } else {
            proof {
                observer.lemma_outcome();
                lemma_halt::<Item, O>(start.setup(), start.received(), all, k);
                let rest = whole.skip(k);
                assert(whole == sent + rest);
                assert(start.received() + whole == (start.received() + sent) + rest);
                O::lemma_deaf(start.setup(), start.received() + sent, rest);
            }
        }
        observer
    }
}

/// Whether an observer fed the first `upto` of `values` has asked to stop at
/// one of them.
pub open spec fn halted_within<Item, O: Observer<Item, ()>>(
    setup: O::Setup,
    before: Seq<Signal<Item, ()>>,
    values: Seq<Item>,
    upto: int,
) -> bool
    decreases upto,
{
    if upto <= 0 {
        false
    } else {
        halted_within::<Item, O>(setup, before, values, upto - 1) || O::halts(
            setup,
            before + nexts(values.take(upto)),
        )
    }
}

/// What a replaying source hands an observer: the items up to the first at
/// which the observer asks to stop; the completion too where it never asks.
pub open spec fn pushed<Item, O: Observer<Item, ()>>(
    setup: O::Setup,
    before: Seq<Signal<Item, ()>>,
    values: Seq<Item>,
) -> Seq<Signal<Item, ()>> {
    if halted_within::<Item, O>(setup, before, values, values.len() as int) {
        nexts(values.take(first_halt::<Item, O>(setup, before, values, values.len() as int)))
    } else {
        nexts(values).push(Signal::Complete)
    }
}

/// The number of items after which the observer first asks to stop, among
/// the first `upto`; `upto` where it does not.
pub open spec fn first_halt<Item, O: Observer<Item, ()>>(
    setup: O::Setup,
    before: Seq<Signal<Item, ()>>,
    values: Seq<Item>,
    upto: int,
) -> int
    decreases upto,
{
    if upto <= 0 {
        0
    } else if halted_within::<Item, O>(setup, before, values, upto - 1) {
        first_halt::<Item, O>(setup, before, values, upto - 1)
    } else {
        upto
    }
}

/// Where the observer first asks to stop at item `k`, the source hands over
/// the first `k` items and nothing else.
pub proof fn lemma_halt<Item, O: Observer<Item, ()>>(
    setup: O::Setup,
    before: Seq<Signal<Item, ()>>,
    values: Seq<Item>,
    k: int,
)
    requires
        0 < k <= values.len(),
        halted_within::<Item, O>(setup, before, values, k),
        !halted_within::<Item, O>(setup, before, values, k - 1),
    ensures
        halted_within::<Item, O>(setup, before, values, values.len() as int),
        first_halt::<Item, O>(setup, before, values, values.len() as int) == k,
        O::halts(setup, before + nexts(values.take(k))),
        pushed::<Item, O>(setup, before, values) == nexts::<Item, ()>(values.take(k)),
{
    lemma_halt_within::<Item, O>(setup, before, values, k, values.len() as int);
}

/// Where the observer asks to stop at one of the first `k` items, the
/// source hands over at least one and at most `k` items, and nothing else.
pub proof fn lemma_halt_within<Item, O: Observer<Item, ()>>(
    setup: O::Setup,
    before: Seq<Signal<Item, ()>>,
    values: Seq<Item>,
    k: int,
    upto: int,
)
    requires
        0 <= k <= upto,
        halted_within::<Item, O>(setup, before, values, k),
    ensures
        halted_within::<Item, O>(setup, before, values, upto),
        1 <= first_halt::<Item, O>(setup, before, values, upto) <= k,
        !halted_within::<Item, O>(setup, before, values, k - 1) ==> first_halt::<Item, O>(
            setup,
            before,
            values,
            upto,
        ) == k,
    decreases upto,
{
    if upto > k {
        lemma_halt_within::<Item, O>(setup, before, values, k, upto - 1);
    } else if halted_within::<Item, O>(setup, before, values, k - 1) {
        lemma_halt_within::<Item, O>(setup, before, values, k - 1, k - 1);
    }
}

impl<Item: Copy> Fork for FromIter<Item> {
    fn fork(&self) -> (twin: Self) {
        let mut items: VecDeque<Item> = VecDeque::new();
        let mut i: usize = 0;
        while i < self.items.len()
            invariant
                i <= self.items@.len(),
                items@ == self.items@.take(i as int),
            decreases self.items@.len() - i,
        {
            let value = self.items[i];
            items.push_back(value);
            proof {
                assert(self.items@.take(i + 1) == self.items@.take(i as int).push(value));
            }
            i = i + 1;
        }
        proof {
            assert(self.items@.take(i as int) == self.items@);
        }
        FromIter { items }
    }
}

/// A source that fails at once: it pushes one error and no item.
pub struct Throw<Item, E> {
    err: E,
    items: Ghost<Seq<Item>>,
}

impl<Item, E> Throw<Item, E> {
    pub closed spec fn view(&self) -> E {
        self.err
    }
}

/// The source that pushes `err` and nothing else.
pub fn throw<Item, E>(err: E) -> (source: Throw<Item, E>)
    ensures
        source@ == err,
{
    Throw { err, items: Ghost(Seq::empty()) }
}

impl<Item, E> Observable for Throw<Item, E> {
    type Item = Item;

    type Err = E;

    open spec fn inv(&self) -> bool {
        true
    }

    open spec fn emits(&self) -> Seq<Signal<Item, E>> {
        seq![Signal::Error(self@)]
    }

    fn actual_subscribe<O: Observer<Item, E>>(self, observer: O) -> (done: O)
        ensures
            done.received() == observer.received().push(Signal::Error(self@)),
    {
        let mut observer = observer;
        proof {
            assert(observer.received().push(Signal::Error(self.err)) == observer.received()
                + seq![Signal::<Item, E>::Error(self.err)]);
        }
        observer.error(self.err);
        proof {
            observer.lemma_outcome();
        }
        observer
    }
}

impl<Item, E: Copy> Fork for Throw<Item, E> {
    fn fork(&self) -> (twin: Self) {
        Throw { err: self.err, items: Ghost(Seq::empty()) }
    }
}

} // verus!
