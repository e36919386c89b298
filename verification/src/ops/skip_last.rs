//! The operator that withholds the last items of a stream.

use vstd::prelude::*;
use std::collections::VecDeque;
use crate::signal::{
    ending, items, lemma_closed, lemma_ended, lemma_nexts, lemma_push, nexts, Flow, Signal,
};
use crate::observer::Observer;
use crate::observable::{Fork, Observable};

verus! {

/// How many of `len` items are delivered when the last `count` are withheld.
pub open spec fn kept(len: nat, count: nat) -> nat {
    if len >= count {
        (len - count) as nat
    } else {
        0
    }
}

/// What reaches the observer behind the operator, given what the operator
/// was handed: nothing while the stream runs; at completion every live item
/// but the last `count`, then the completion; of a failed stream the error
/// alone.
pub open spec fn skip_last_out<Item, E>(log: Seq<Signal<Item, E>>, count: nat) -> Seq<
    Signal<Item, E>,
> {
    match ending(log) {
        None => Seq::empty(),
        Some(Signal::Complete) => nexts(items(log).take(kept(items(log).len(), count) as int)).push(
            Signal::Complete,
        ),
        Some(t) => seq![t],
    }
}

/// An observable that delivers its source's items except the last `count`.
#[derive(Clone)]
pub struct SkipLastOp<S> {
    pub source: S,
    pub count: usize,
}

/// The observer that `SkipLastOp` puts in front of the subscriber: it holds
/// every item back until the stream completes.
pub struct SkipLastObserver<O, Item, E> {
    observer: O,
    count: usize,
    queue: VecDeque<Item>,
    done: bool,
    log: Ghost<Seq<Signal<Item, E>>>,
    base: Ghost<Seq<Signal<Item, E>>>,
}

impl<O: Observer<Item, E>, Item, E> SkipLastObserver<O, Item, E> {
    /// The number of trailing items that are withheld.
    pub closed spec fn count(&self) -> nat {
        self.count as nat
    }

    /// The observer behind this one.
    pub closed spec fn inner(&self) -> O {
        self.observer
    }

    /// What the observer behind this one had received when it was wrapped.
    pub closed spec fn base(&self) -> Seq<Signal<Item, E>> {
        self.base@
    }

    /// The items held back: the live items while the stream runs.
    pub closed spec fn held(&self) -> Seq<Item> {
        self.queue@
    }

    pub fn new(observer: O, count: usize) -> (wrapped: Self)
        requires
            observer.inv(),
        ensures
            wrapped.inv(),
            wrapped.received() == Seq::<Signal<Item, E>>::empty(),
            wrapped.inner() == observer,
            wrapped.base() == observer.received(),
            wrapped.count() == count,
            wrapped.setup() == (count, observer.received(), observer.setup()),
    {
        SkipLastObserver {
            observer,
            count,
            queue: VecDeque::new(),
            done: false,
            log: Ghost(Seq::empty()),
            base: Ghost(observer.received()),
        }
    }

    /// Gives back the observer behind this one.
    pub fn into_inner(self) -> (observer: O)
        ensures
            observer == self.inner(),
    {
        self.observer
    }
}

impl<O: Observer<Item, E>, Item, E> Observer<Item, E> for SkipLastObserver<O, Item, E> {
    type Setup = (usize, Seq<Signal<Item, E>>, O::Setup);

    closed spec fn inv(&self) -> bool {
        &&& self.observer.inv()
        &&& self.done == (ending(self.log@) is Some)
        &&& !self.done ==> self.queue@ == items(self.log@)
        &&& self.observer.received() == self.base@ + skip_last_out(self.log@, self.count as nat)
    }

    closed spec fn setup(&self) -> Self::Setup {
        (self.count, self.base@, self.observer.setup())
    }

    closed spec fn received(&self) -> Seq<Signal<Item, E>> {
        self.log@
    }

    closed spec fn stopped(&self) -> bool {
        self.done
    }

    closed spec fn outcome(&self) -> Seq<Signal<Item, E>> {
        self.observer.outcome()
    }

    open spec fn result(setup: Self::Setup, log: Seq<Signal<Item, E>>) -> Seq<Signal<Item, E>> {
        O::result(setup.2, setup.1 + skip_last_out(log, setup.0 as nat))
    }

    open spec fn halts(setup: Self::Setup, log: Seq<Signal<Item, E>>) -> bool {
        ending(log) is Some
    }

    proof fn lemma_outcome(&self) {
        self.observer.lemma_outcome();
    }

    proof fn lemma_deaf(setup: Self::Setup, log: Seq<Signal<Item, E>>, more: Seq<Signal<Item, E>>) {
        if ending(log) is Some {
            lemma_ended(log, more);
        }
    }

    /// Holds the item back and hands nothing on. Asks the source to stop
    /// only once the stream has ended.
    fn next(&mut self, value: Item) -> (flow: Flow)
        ensures
            final(self).inner() == old(self).inner(),
            (flow is Stop) == (ending(old(self).received()) is Some),
            ending(old(self).received()) is None ==> final(self).held() == old(self).held().push(
                value,
            ),
    {
        proof {
            lemma_push(self.log@, Signal::Next(value));
        }
        self.log = Ghost(self.log@.push(Signal::Next(value)));
        if self.done {
            Flow::Stop
        } else {
            self.queue.push_back(value);
            Flow::Continue
        }
    }

    /// Hands the error on at once and loses the items held back, unless the
    /// stream has ended before.
    fn error(&mut self, err: E)
        ensures
            ending(old(self).received()) is Some ==> final(self).inner() == old(self).inner(),
            ending(old(self).received()) is None ==> final(self).inner().received() == old(
                self,
            ).inner().received().push(Signal::Error(err)),
    {
        proof {
            lemma_push(self.log@, Signal::Error(err));
        }
        self.log = Ghost(self.log@.push(Signal::Error(err)));
        if !self.done {
            self.done = true;
            proof {
                assert(self.base@ + Seq::<Signal<Item, E>>::empty() == self.base@);
                assert(self.base@.push(Signal::Error(err)) == self.base@ + seq![
                    Signal::<Item, E>::Error(err),
                ]);
            }
            self.observer.error(err);
        }
    }

    /// Hands on the items held back but the last `count`, oldest first, then
    /// the completion; the completion alone where no more than `count` are
    /// held. Does nothing where the stream has ended before.
    fn complete(&mut self)
        ensures
            ending(old(self).received()) is Some ==> final(self).inner() == old(self).inner(),
            ending(old(self).received()) is None ==> final(self).inner().received() == old(
                self,
            ).inner().received() + nexts::<Item, E>(
                old(self).held().take(kept(old(self).held().len(), old(self).count()) as int),
            ).push(Signal::Complete),
    {
        proof {
            lemma_push(self.log@, Signal::Complete);
        }
        let ghost all = self.queue@;
        let ghost base = self.base@;
        self.log = Ghost(self.log@.push(Signal::Complete));
        if !self.done {
            self.done = true;
            proof {
                assert(base + nexts::<Item, E>(all.take(0)) == base);
            }
            if self.count <= self.queue.len() {
                let skip_index = self.queue.len() - self.count;
                let mut sent: usize = 0;
                while sent < skip_index
                    invariant
                        sent <= skip_index <= all.len(),
                        self.observer.inv(),
                        self.observer.setup() == old(self).observer.setup(),
                        self.queue@ == all.skip(sent as int),
                        self.observer.received() == base + nexts::<Item, E>(
                            all.take(sent as int),
                        ),
                        self.count == old(self).count,
                        self.base == old(self).base,
                        self.done,
                        self.log@ == old(self).log@.push(Signal::Complete),
                    decreases skip_index - sent,
                {
                    match self.queue.pop_front() {
                        Some(value) => {
                            self.observer.next(value);
                            proof {
                                assert(value == all[sent as int]);
                                assert(self.queue@ == all.skip(sent + 1));
                                assert(nexts::<Item, E>(all.take(sent + 1)) == nexts::<
                                    Item,
                                    E,
                                >(all.take(sent as int)).push(Signal::Next(value)));
                                assert(self.observer.received() == base + nexts::<Item, E>(
                                    all.take(sent + 1),
                                ));
                            }
                        },
                        None => {},
                    }
                    sent = sent + 1;
                }
            }
            proof {
                let shown = nexts::<Item, E>(all.take(kept(all.len(), self.count as nat) as int));
                assert(self.observer.received() == base + shown);
                assert((base + shown).push(Signal::Complete) == base + shown.push(
                    Signal::Complete,
                ));
            }
            self.observer.complete();
        }
    }
}

impl<S> SkipLastOp<S> {
    pub fn new(source: S, count: usize) -> (op: Self)
        ensures
            op.source == source,
            op.count == count,
    {
        SkipLastOp { source, count }
    }
}

impl<S: Observable> Observable for SkipLastOp<S> {
    type Item = S::Item;

    type Err = S::Err;

    open spec fn inv(&self) -> bool {
        self.source.inv()
    }

    open spec fn emits(&self) -> Seq<Signal<S::Item, S::Err>> {
        skip_last_out(self.source.emits(), self.count as nat)
    }

    fn actual_subscribe<O: Observer<S::Item, S::Err>>(self, observer: O) -> (done: O) {
        let wrapped = SkipLastObserver::new(observer, self.count);
        let finished = self.source.actual_subscribe(wrapped);
        proof {
            finished.lemma_inner();
            assert(Seq::<Signal<S::Item, S::Err>>::empty() + self.source.emits()
                == self.source.emits());
        }
        finished.into_inner()
    }
}

impl<O: Observer<Item, E>, Item, E> SkipLastObserver<O, Item, E> {
    /// What the invariant says of the observer behind this one.
    pub proof fn lemma_inner(&self)
        requires
            self.inv(),
        ensures
            self.inner().inv(),
            self.inner().received() == self.base() + skip_last_out(self.received(), self.count()),
            self.setup() == (self.count() as usize, self.base(), self.inner().setup()),
            self.count() <= usize::MAX,
            self.outcome() == self.inner().outcome(),
            ending(self.received()) is None ==> self.held() == items(self.received()),
    {
    }
}

/// Withholds the last items of an observable.
pub trait SkipLast: Observable {
    fn skip_last(self, count: usize) -> (op: SkipLastOp<Self>)
        ensures
            op.source == self,
            op.count == count,
    {
        SkipLastOp { source: self, count }
    }
}

impl<S: Observable> SkipLast for S {
}

/// While the stream runs, nothing passes.
pub proof fn lemma_skip_last_running<Item, E>(values: Seq<Item>, count: nat)
    ensures
        skip_last_out(nexts::<Item, E>(values), count) == Seq::<Signal<Item, E>>::empty(),
{
    lemma_nexts::<Item, E>(values);
}

/// Of a stream of `values` that completes, all but the last `count` pass, in
/// order, then the completion; where there are no more than `count`, the
/// completion alone.
pub proof fn lemma_skip_last_completed<Item, E>(values: Seq<Item>, count: nat)
    ensures
        skip_last_out(nexts::<Item, E>(values).push(Signal::Complete), count) == nexts::<Item, E>(
            values.take(kept(values.len(), count) as int),
        ).push(Signal::Complete),
        values.len() <= count ==> skip_last_out(
            nexts::<Item, E>(values).push(Signal::Complete),
            count,
        ) == seq![Signal::<Item, E>::Complete],
{
    lemma_closed(values, Signal::<Item, E>::Complete);
    if values.len() <= count {
        assert(nexts::<Item, E>(values.take(0)).push(Signal::Complete) == seq![
            Signal::<Item, E>::Complete,
        ]);
    }
}

/// Of a stream that fails, the error alone passes: the items held back are
/// lost.
pub proof fn lemma_skip_last_failed<Item, E>(values: Seq<Item>, err: E, count: nat)
    ensures
        skip_last_out(nexts::<Item, E>(values).push(Signal::Error(err)), count) == seq![
            Signal::<Item, E>::Error(err),
        ],
{
    lemma_closed(values, Signal::<Item, E>::Error(err));
}

/// Withholding the last `a` items and then the last `b` of what is left
/// withholds the last `a + b`: of `values` the first `len - a - b` pass when
/// there are that many, else none.
pub proof fn lemma_skip_last_twice<Item, E>(values: Seq<Item>, a: nat, b: nat)
    ensures
        skip_last_out(skip_last_out(nexts::<Item, E>(values).push(Signal::Complete), a), b)
            == nexts::<Item, E>(values.take(kept(values.len(), a + b) as int)).push(
            Signal::Complete,
        ),
        kept(values.len(), a + b) == kept(kept(values.len(), a), b),
{
    let once = values.take(kept(values.len(), a) as int);
    lemma_skip_last_completed::<Item, E>(values, a);
    lemma_skip_last_completed::<Item, E>(once, b);
    assert(once.take(kept(once.len(), b) as int) == values.take(
        kept(values.len(), a + b) as int,
    ));
}

impl<S: Fork> Fork for SkipLastOp<S> {
    fn fork(&self) -> (twin: Self) {
        SkipLastOp { source: self.source.fork(), count: self.count }
    }
}

} // verus!
