//! The operators that deliver the first item of a stream, or a default in
//! its place.

use vstd::prelude::*;
use crate::signal::{
    ending, items, lemma_closed, lemma_ended, lemma_items_grow, lemma_push, live, nexts, tail, Flow,
    Signal,
};
use crate::observer::Observer;
use crate::observable::{Fork, Observable};
use crate::ops::take::{lemma_take_one, lemma_take_short, take_out, TakeOp};

verus! {

/// Emits only the first item of an observable, then completes.
pub trait First: Observable {
    fn first(self) -> (op: TakeOp<Self>)
        ensures
            op.source == self,
            op.count == 1,
    {
        TakeOp { source: self, count: 1 }
    }
}

impl<S: Observable> First for S {
}

/// What reaches the observer behind the default holder, given what the
/// holder was handed: the live part of the log, but for a stream that
/// completes without an item, which becomes the default and a completion.
pub open spec fn first_or_out<Item, E>(log: Seq<Signal<Item, E>>, default: Item) -> Seq<
    Signal<Item, E>,
> {
    if items(log).len() == 0 && ending(log) matches Some(Signal::Complete) {
        seq![Signal::Next(default), Signal::Complete]
    } else {
        live(log)
    }
}

/// An observable that delivers the first item of its source, or `default`
/// if the source completes without one.
#[derive(Clone)]
pub struct FirstOrOp<S, V> {
    source: S,
    default: Option<V>,
}

impl<S, V> FirstOrOp<S, V> {
    pub closed spec fn source(&self) -> S {
        self.source
    }

    /// The default that is still pending, if any.
    pub closed spec fn pending(&self) -> Option<V> {
        self.default
    }
}

/// Emits only the first item of an observable, or a default item.
pub trait FirstOr: Observable {
    fn first_or(self, default: Self::Item) -> (op: FirstOrOp<TakeOp<Self>, Self::Item>)
        ensures
            op.source().source == self,
            op.source().count == 1,
            op.pending() == Some(default),
    {
        FirstOrOp { source: TakeOp { source: self, count: 1 }, default: Some(default) }
    }
}

impl<S: Observable> FirstOr for S {
}

/// The observer that `FirstOrOp` puts in front of the subscriber: it holds
/// the default until an item or the end of the stream decides its fate.
pub struct FirstOrObserver<O, Item, E> {
    observer: O,
    default: Option<Item>,
    done: bool,
    fallback: Ghost<Item>,
    log: Ghost<Seq<Signal<Item, E>>>,
    base: Ghost<Seq<Signal<Item, E>>>,
}

impl<O: Observer<Item, E>, Item, E> FirstOrObserver<O, Item, E> {
    /// The default this observer was built with.
    pub closed spec fn fallback(&self) -> Item {
        self.fallback@
    }

    /// The observer behind this one.
    pub closed spec fn inner(&self) -> O {
        self.observer
    }

    /// What the observer behind this one had received when it was wrapped.
    pub closed spec fn base(&self) -> Seq<Signal<Item, E>> {
        self.base@
    }

    pub fn new(observer: O, default: Item) -> (wrapped: Self)
        requires
            observer.inv(),
        ensures
            wrapped.inv(),
            wrapped.received() == Seq::<Signal<Item, E>>::empty(),
            wrapped.inner() == observer,
            wrapped.base() == observer.received(),
            wrapped.fallback() == default,
            wrapped.setup() == (default, observer.received(), observer.setup()),
    {
        proof {
            let none = Seq::<Signal<Item, E>>::empty();
            assert(nexts::<Item, E>(items(none)) + tail(ending(none)) == none);
            assert(observer.received() + none == observer.received());
        }
        FirstOrObserver {
            observer,
            default: Some(default),
            done: false,
            fallback: Ghost(default),
            log: Ghost(Seq::empty()),
            base: Ghost(observer.received()),
        }
    }

    /// Gives back the observer behind this one.
    pub fn into_inner(self) -> (observer: O)
        ensures
            observer == self.inner(),
    {
        self.observer
    }

    /// What the invariant says of the observer behind this one.
    pub proof fn lemma_inner(&self)
        requires
            self.inv(),
        ensures
            self.inner().inv(),
            self.inner().received() == self.base() + first_or_out(
                self.received(),
                self.fallback(),
            ),
            self.setup() == (self.fallback(), self.base(), self.inner().setup()),
            self.outcome() == self.inner().outcome(),
    {
    }
}

impl<O: Observer<Item, E>, Item, E> Observer<Item, E> for FirstOrObserver<O, Item, E> {
    type Setup = (Item, Seq<Signal<Item, E>>, O::Setup);

    closed spec fn inv(&self) -> bool {
        &&& self.observer.inv()
        &&& self.done == (ending(self.log@) is Some)
        &&& !self.done ==> (if items(self.log@).len() == 0 {
            self.default == Some(self.fallback@)
        } else {
            self.default is None
        })
        &&& self.observer.received() == self.base@ + first_or_out(self.log@, self.fallback@)
    }

    closed spec fn setup(&self) -> Self::Setup {
        (self.fallback@, self.base@, self.observer.setup())
    }

    closed spec fn received(&self) -> Seq<Signal<Item, E>> {
        self.log@
    }

    closed spec fn stopped(&self) -> bool {
        self.done || self.observer.stopped()
    }

    closed spec fn outcome(&self) -> Seq<Signal<Item, E>> {
        self.observer.outcome()
    }

    open spec fn result(setup: Self::Setup, log: Seq<Signal<Item, E>>) -> Seq<Signal<Item, E>> {
        O::result(setup.2, setup.1 + first_or_out(log, setup.0))
    }

    open spec fn halts(setup: Self::Setup, log: Seq<Signal<Item, E>>) -> bool {
        ending(log) is Some || O::halts(setup.2, setup.1 + first_or_out(log, setup.0))
    }

    proof fn lemma_outcome(&self) {
        self.observer.lemma_outcome();
    }

    proof fn lemma_deaf(setup: Self::Setup, log: Seq<Signal<Item, E>>, more: Seq<Signal<Item, E>>) {
        let short = first_or_out(log, setup.0);
        let long = first_or_out(log + more, setup.0);
        lemma_first_or_grows(log, more, setup.0);
        if Self::halts(setup, log) && ending(log) is None {
            let extra = long.skip(short.len() as int);
            assert(long == short + extra);
            assert(setup.1 + long == (setup.1 + short) + extra);
            O::lemma_deaf(setup.2, setup.1 + short, extra);
        }
    }

    /// Asks the source to stop after the end of the stream, and whenever the
    /// observer behind asks for it.
    fn next(&mut self, value: Item) -> (flow: Flow)
        ensures
            (flow is Stop) == (ending(old(self).received()) is Some
                || final(self).inner().stopped()),
            ending(old(self).received()) is Some ==> final(self).inner() == old(self).inner(),
            ending(old(self).received()) is None ==> final(self).inner().received() == old(
                self,
            ).inner().received().push(Signal::Next(value)),
    {
        let ghost before = self.log@;
        let ghost base = self.base@;
        let ghost seen = items(before);
        proof {
            lemma_push(before, Signal::Next(value));
        }
        self.log = Ghost(before.push(Signal::Next(value)));
        if self.done {
            Flow::Stop
        } else {
            self.default = None;
            let flow = self.observer.next(value);
            proof {
                let none = Seq::<Signal<Item, E>>::empty();
                assert(nexts::<Item, E>(seen) + none == nexts::<Item, E>(seen));
                assert(nexts::<Item, E>(seen.push(value)) + none == nexts::<Item, E>(seen).push(
                    Signal::Next(value),
                ));
                assert((base + nexts::<Item, E>(seen)).push(Signal::Next(value)) == base
                    + nexts::<Item, E>(seen).push(Signal::Next(value)));
            }
            flow
        }
    }

    /// Hands the error on, and never the default, unless the stream has
    /// ended before.
    fn error(&mut self, err: E)
        ensures
            ending(old(self).received()) is Some ==> final(self).inner() == old(self).inner(),
            ending(old(self).received()) is None ==> final(self).inner().received() == old(
                self,
            ).inner().received().push(Signal::Error(err)),
    {
        let ghost before = self.log@;
        let ghost base = self.base@;
        let ghost seen = items(before);
        proof {
            lemma_push(before, Signal::Error(err));
        }
        self.log = Ghost(before.push(Signal::Error(err)));
        if !self.done {
            self.done = true;
            self.observer.error(err);
            proof {
                let none = Seq::<Signal<Item, E>>::empty();
                assert(nexts::<Item, E>(seen) + none == nexts::<Item, E>(seen));
                assert(nexts::<Item, E>(seen) + seq![Signal::<Item, E>::Error(err)] == nexts::<
                    Item,
                    E,
                >(seen).push(Signal::Error(err)));
                assert((base + nexts::<Item, E>(seen)).push(Signal::Error(err)) == base + nexts::<
                    Item,
                    E,
                >(seen).push(Signal::Error(err)));
            }
        }
    }

    /// Hands on the default, where no item has come, and then the
    /// completion. Does nothing where the stream has ended before.
    fn complete(&mut self)
        ensures
            ending(old(self).received()) is Some ==> final(self).inner() == old(self).inner(),
            ending(old(self).received()) is None && items(old(self).received()).len() == 0
                ==> final(self).inner().received() == old(self).inner().received().push(
                Signal::Next(old(self).fallback()),
            ).push(Signal::Complete),
            ending(old(self).received()) is None && items(old(self).received()).len() > 0
                ==> final(self).inner().received() == old(self).inner().received().push(
                Signal::Complete,
            ),
    {
        let ghost before = self.log@;
        let ghost base = self.base@;
        let ghost seen = items(before);
        let ghost fallback = self.fallback@;
        proof {
            lemma_push(before, Signal::Complete);
        }
        self.log = Ghost(before.push(Signal::Complete));
        if !self.done {
            self.done = true;
            proof {
                let none = Seq::<Signal<Item, E>>::empty();
                assert(nexts::<Item, E>(seen) + none == nexts::<Item, E>(seen));
            }
            match self.default.take() {
                Some(d) => {
                    self.observer.next(d);
                    proof {
                        assert(seen.len() == 0);
                        assert(nexts::<Item, E>(seen) == Seq::<Signal<Item, E>>::empty());
                        assert(base + Seq::<Signal<Item, E>>::empty() == base);
                    }
                },
                None => {},
            }
            self.observer.complete();
            proof {
                if seen.len() == 0 {
                    assert(base.push(Signal::Next(fallback)).push(Signal::Complete) == base + seq![
                        Signal::<Item, E>::Next(fallback),
                        Signal::Complete,
                    ]);
                } else {
                    assert(nexts::<Item, E>(seen) + seq![Signal::<Item, E>::Complete] == nexts::<
                        Item,
                        E,
                    >(seen).push(Signal::Complete));
                    assert((base + nexts::<Item, E>(seen)).push(Signal::Complete) == base + nexts::<
                        Item,
                        E,
                    >(seen).push(Signal::Complete));
                }
            }
        }
    }
}

impl<S: Observable> Observable for FirstOrOp<S, S::Item> {
    type Item = S::Item;

    type Err = S::Err;

    open spec fn inv(&self) -> bool {
        self.source().inv() && self.pending() is Some
    }

    open spec fn emits(&self) -> Seq<Signal<S::Item, S::Err>> {
        first_or_out(self.source().emits(), self.pending()->Some_0)
    }

    fn actual_subscribe<O: Observer<S::Item, S::Err>>(self, observer: O) -> (done: O) {
        let FirstOrOp { source, default } = self;
        match default {
            Some(d) => {
                let wrapped = FirstOrObserver::new(observer, d);
                let finished = source.actual_subscribe(wrapped);
                proof {
                    finished.lemma_inner();
                    assert(Seq::<Signal<S::Item, S::Err>>::empty() + source.emits()
                        == source.emits());
                }
                finished.into_inner()
            },
            None => observer,
        }
    }
}

/// What passes only grows as the log grows, and stays as it is once the
/// stream has ended.
pub proof fn lemma_first_or_grows<Item, E>(
    log: Seq<Signal<Item, E>>,
    more: Seq<Signal<Item, E>>,
    default: Item,
)
    ensures
        first_or_out(log, default).is_prefix_of(first_or_out(log + more, default)),
        ending(log) is Some ==> first_or_out(log + more, default) == first_or_out(log, default),
{
    let short = items(log);
    let long = items(log + more);
    lemma_items_grow(log, more);
    if ending(log) is Some {
        lemma_ended(log, more);
    } else {
        assert(nexts::<Item, E>(short) + Seq::<Signal<Item, E>>::empty() == nexts::<Item, E>(
            short,
        ));
        assert(nexts::<Item, E>(short).is_prefix_of(
            nexts::<Item, E>(long) + tail(ending(log + more)),
        ));
    }
}

/// Of a stream that completes without an item, the first item or `default`
/// is `default`, followed by the completion.
pub proof fn lemma_first_or_empty<Item, E>(default: Item)
    ensures
        first_or_out(take_out(seq![Signal::<Item, E>::Complete], 1), default) == seq![
            Signal::<Item, E>::Next(default),
            Signal::Complete,
        ],
{
    let none = Seq::<Item>::empty();
    let end = Signal::<Item, E>::Complete;
    assert(seq![end] == nexts::<Item, E>(none).push(end));
    lemma_take_short(none, end, 1);
    lemma_closed(none, end);
}

/// Of a stream that fails without an item, the error passes and the default
/// is never delivered.
pub proof fn lemma_first_or_failed<Item, E>(err: E, default: Item)
    ensures
        first_or_out(take_out(seq![Signal::<Item, E>::Error(err)], 1), default) == seq![
            Signal::<Item, E>::Error(err),
        ],
{
    let none = Seq::<Item>::empty();
    let end = Signal::<Item, E>::Error(err);
    assert(seq![end] == nexts::<Item, E>(none).push(end));
    lemma_take_short(none, end, 1);
    lemma_closed(none, end);
    assert(nexts::<Item, E>(none) + seq![end] == seq![end]);
}

/// Of a stream with at least one item, the first item or `default` is the
/// first item, followed by a completion, whatever comes after it.
pub proof fn lemma_first_or_item<Item, E>(
    values: Seq<Item>,
    rest: Seq<Signal<Item, E>>,
    default: Item,
)
    requires
        values.len() >= 1,
    ensures
        first_or_out(take_out(nexts(values) + rest, 1), default) == seq![
            Signal::<Item, E>::Next(values[0]),
            Signal::Complete,
        ],
{
    let one = seq![values[0]];
    let end = Signal::<Item, E>::Complete;
    lemma_take_one(values, rest);
    assert(seq![Signal::<Item, E>::Next(values[0]), end] == nexts::<Item, E>(one).push(end));
    lemma_closed(one, end);
    assert(nexts::<Item, E>(one) + seq![end] == nexts::<Item, E>(one).push(end));
}

impl<S: Fork> Fork for FirstOrOp<S, S::Item> where S::Item: Copy {
    fn fork(&self) -> (twin: Self) {
        FirstOrOp { source: self.source.fork(), default: self.default }
    }
}

} // verus!
