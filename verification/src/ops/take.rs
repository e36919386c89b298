//! The operator that delivers a bounded number of leading items.

use vstd::prelude::*;
use crate::signal::{
    ending, items, lemma_closed, lemma_ended, lemma_items_grow, lemma_nexts, lemma_push, nexts,
    tail, Flow, Signal,
};
use crate::observer::{Collector, Observer};
use crate::observable::{
    first_halt, halted_within, lemma_halt, lemma_halt_within, pushed, Fork, Observable,
};

verus! {

/// Whether the items of `log` fill the count. A count of zero is filled by
/// the first item, which does not pass.
pub open spec fn filled<Item, E>(log: Seq<Signal<Item, E>>, count: nat) -> bool {
    items(log).len() >= 1 && items(log).len() >= count
}

/// What reaches the observer behind the operator, given what the operator
/// was handed. Once the count is filled, the first `count` items are
/// followed by a completion and nothing later matters. Before that, the
/// live part of the log passes unchanged.
pub open spec fn take_out<Item, E>(log: Seq<Signal<Item, E>>, count: nat) -> Seq<Signal<Item, E>> {
    if filled(log, count) {
        nexts(items(log).take(count as int)).push(Signal::Complete)
    } else {
        nexts(items(log)) + tail(ending(log))
    }
}

/// An observable that delivers the first `count` items of its source, then
/// completes.
#[derive(Clone)]
pub struct TakeOp<S> {
    pub source: S,
    pub count: usize,
}

/// The observer that `TakeOp` puts in front of the subscriber.
pub struct TakeObserver<O, Item, E> {
    observer: O,
    count: usize,
    hits: usize,
    done: bool,
    log: Ghost<Seq<Signal<Item, E>>>,
    base: Ghost<Seq<Signal<Item, E>>>,
}

impl<O: Observer<Item, E>, Item, E> TakeObserver<O, Item, E> {
    /// The number of items that pass.
    pub closed spec fn count(&self) -> nat {
        self.count as nat
    }

    /// The observer behind this one.
    pub closed spec fn inner(&self) -> O {
        self.observer
    }

    /// What the observer behind this one had received when it was wrapped.
    pub closed spec fn base(&self) -> Seq<Signal<Item, E>> {
        self.base@
    }

    pub fn new(observer: O, count: usize) -> (wrapped: Self)
        requires
            observer.inv(),
        ensures
            wrapped.inv(),
            wrapped.received() == Seq::<Signal<Item, E>>::empty(),
            wrapped.inner() == observer,
            wrapped.base() == observer.received(),
            wrapped.count() == count,
            wrapped.setup() == (count, observer.received(), observer.setup()),
    {
        proof {
            assert(observer.received() + Seq::<Signal<Item, E>>::empty() == observer.received());
        }
        TakeObserver {
            observer,
            count,
            hits: 0,
            done: false,
            log: Ghost(Seq::empty()),
            base: Ghost(observer.received()),
        }
    }

    /// Gives back the observer behind this one.
    pub fn into_inner(self) -> (observer: O)
        ensures
            observer == self.inner(),
    {
        self.observer
    }

    /// What the invariant says of the observer behind this one.
    pub proof fn lemma_inner(&self)
        requires
            self.inv(),
        ensures
            self.inner().inv(),
            self.inner().received() == self.base() + take_out(self.received(), self.count()),
            self.setup() == (self.count() as usize, self.base(), self.inner().setup()),
            self.count() <= usize::MAX,
            self.outcome() == self.inner().outcome(),
    {
    }
}

impl<O: Observer<Item, E>, Item, E> Observer<Item, E> for TakeObserver<O, Item, E> {
    type Setup = (usize, Seq<Signal<Item, E>>, O::Setup);

    closed spec fn inv(&self) -> bool {
        &&& self.observer.inv()
        &&& self.hits <= self.count
        &&& self.hits == if items(self.log@).len() <= self.count {
            items(self.log@).len()
        } else {
            self.count as nat
        }
        &&& self.done == (ending(self.log@) is Some || filled(self.log@, self.count as nat))
        &&& self.observer.received() == self.base@ + take_out(self.log@, self.count as nat)
    }

    closed spec fn setup(&self) -> Self::Setup {
        (self.count, self.base@, self.observer.setup())
    }

    closed spec fn received(&self) -> Seq<Signal<Item, E>> {
        self.log@
    }

    closed spec fn stopped(&self) -> bool {
        self.done || self.observer.stopped()
    }

    closed spec fn outcome(&self) -> Seq<Signal<Item, E>> {
        self.observer.outcome()
    }

    open spec fn result(setup: Self::Setup, log: Seq<Signal<Item, E>>) -> Seq<Signal<Item, E>> {
        O::result(setup.2, setup.1 + take_out(log, setup.0 as nat))
    }

    open spec fn halts(setup: Self::Setup, log: Seq<Signal<Item, E>>) -> bool {
        ending(log) is Some || filled(log, setup.0 as nat) || O::halts(
            setup.2,
            setup.1 + take_out(log, setup.0 as nat),
        )
    }

    proof fn lemma_outcome(&self) {
        self.observer.lemma_outcome();
    }

    proof fn lemma_deaf(setup: Self::Setup, log: Seq<Signal<Item, E>>, more: Seq<Signal<Item, E>>) {
        let count = setup.0 as nat;
        let short = take_out(log, count);
        let long = take_out(log + more, count);
        lemma_take_grows(log, more, count);
        if Self::halts(setup, log) && !(ending(log) is Some || filled(log, count)) {
            let extra = long.skip(short.len() as int);
            assert(long == short + extra);
            assert(setup.1 + long == (setup.1 + short) + extra);
            O::lemma_deaf(setup.2, setup.1 + short, extra);
        }
    }

    /// Passes the item on while the count is not filled, and completes the
    /// observer behind with the item that fills it. Asks the source to stop
    /// from that item on, after the end of the stream, and whenever the
    /// observer behind asks for it.
    fn next(&mut self, value: Item) -> (flow: Flow)
        ensures
            (flow is Stop) == (ending(old(self).received()) is Some || items(
                old(self).received(),
            ).len() + 1 >= old(self).count() || final(self).inner().stopped()),
            ending(old(self).received()) is Some || filled(old(self).received(), old(self).count())
                ==> final(self).inner() == old(self).inner(),
            !(ending(old(self).received()) is Some || filled(
                old(self).received(),
                old(self).count(),
            )) ==> final(self).inner().received() == (if old(self).count() == 0 {
                old(self).inner().received().push(Signal::Complete)
            } else if items(old(self).received()).len() + 1 == old(self).count() {
                old(self).inner().received().push(Signal::Next(value)).push(Signal::Complete)
            } else {
                old(self).inner().received().push(Signal::Next(value))
            }),
    {
        let ghost before = self.log@;
        let ghost base = self.base@;
        let ghost seen = items(before);
        proof {
            lemma_push(before, Signal::Next(value));
        }
        self.log = Ghost(before.push(Signal::Next(value)));
        if self.done {
            proof {
                if ending(before) is None {
                    assert(seen.push(value).take(self.count as int) == seen.take(
                        self.count as int,
                    ));
                }
            }
            Flow::Stop
        } else if self.count == 0 {
            self.observer.complete();
            self.done = true;
            proof {
                let now = seen.push(value);
                assert(seen.len() == 0);
                assert(nexts::<Item, E>(seen) + Seq::<Signal<Item, E>>::empty() == Seq::<
                    Signal<Item, E>,
                >::empty());
                assert(base + Seq::<Signal<Item, E>>::empty() == base);
                assert(nexts::<Item, E>(now.take(0)) == Seq::<Signal<Item, E>>::empty());
                assert(base.push(Signal::Complete) == base + Seq::<Signal<Item, E>>::empty().push(
                    Signal::Complete,
                ));
            }
            Flow::Stop
        } else {
            let flow = self.observer.next(value);
            self.hits = self.hits + 1;
            proof {
                assert(nexts::<Item, E>(seen) + Seq::<Signal<Item, E>>::empty() == nexts::<Item, E>(
                    seen,
                ));
                assert(nexts::<Item, E>(seen.push(value)) == nexts::<Item, E>(seen).push(
                    Signal::Next(value),
                ));
                assert((base + nexts::<Item, E>(seen)).push(Signal::Next(value)) == base + nexts::<
                    Item,
                    E,
                >(seen.push(value)));
            }
            if self.hits == self.count {
                self.observer.complete();
                self.done = true;
                proof {
                    let now = seen.push(value);
                    assert(now.take(self.count as int) == now);
                    assert((base + nexts::<Item, E>(now)).push(Signal::Complete) == base + nexts::<
                        Item,
                        E,
                    >(now).push(Signal::Complete));
                }
                Flow::Stop
            } else {
                proof {
                    let now = seen.push(value);
                    assert(nexts::<Item, E>(now) + Seq::<Signal<Item, E>>::empty() == nexts::<
                        Item,
                        E,
                    >(now));
                }
                flow
            }
        }
    }

    /// Hands the error on, unless the stream has ended or the count was
    /// filled before.
    fn error(&mut self, err: E)
        ensures
            ending(old(self).received()) is Some || filled(old(self).received(), old(self).count())
                ==> final(self).inner() == old(self).inner(),
            !(ending(old(self).received()) is Some || filled(
                old(self).received(),
                old(self).count(),
            )) ==> final(self).inner().received() == old(self).inner().received().push(
                Signal::Error(err),
            ),
    {
        let ghost before = self.log@;
        let ghost base = self.base@;
        proof {
            lemma_push(before, Signal::Error(err));
        }
        self.log = Ghost(before.push(Signal::Error(err)));
        if !self.done {
            self.done = true;
            self.observer.error(err);
            proof {
                let shown = take_out(before, self.count as nat);
                assert(take_out(self.log@, self.count as nat) == shown.push(Signal::Error(err)));
                assert((base + shown).push(Signal::Error(err)) == base + shown.push(
                    Signal::Error(err),
                ));
            }
        }
    }

    /// Hands the completion on, unless the stream has ended or the count
    /// was filled before.
    fn complete(&mut self)
        ensures
            ending(old(self).received()) is Some || filled(old(self).received(), old(self).count())
                ==> final(self).inner() == old(self).inner(),
            !(ending(old(self).received()) is Some || filled(
                old(self).received(),
                old(self).count(),
            )) ==> final(self).inner().received() == old(self).inner().received().push(
                Signal::Complete,
            ),
    {
        let ghost before = self.log@;
        let ghost base = self.base@;
        proof {
            lemma_push(before, Signal::Complete);
        }
        self.log = Ghost(before.push(Signal::Complete));
        if !self.done {
            self.done = true;
            self.observer.complete();
            proof {
                let shown = take_out(before, self.count as nat);
                assert(take_out(self.log@, self.count as nat) == shown.push(Signal::Complete));
                assert((base + shown).push(Signal::Complete) == base + shown.push(
                    Signal::Complete,
                ));
            }
        }
    }
}

impl<S: Observable> Observable for TakeOp<S> {
    type Item = S::Item;

    type Err = S::Err;

    open spec fn inv(&self) -> bool {
        self.source.inv()
    }

    open spec fn emits(&self) -> Seq<Signal<S::Item, S::Err>> {
        take_out(self.source.emits(), self.count as nat)
    }

    fn actual_subscribe<O: Observer<S::Item, S::Err>>(self, observer: O) -> (done: O) {
        let wrapped = TakeObserver::new(observer, self.count);
        let finished = self.source.actual_subscribe(wrapped);
        proof {
            finished.lemma_inner();
            assert(Seq::<Signal<S::Item, S::Err>>::empty() + self.source.emits() == self.source.emits());
        }
        finished.into_inner()
    }
}

/// Bounds an observable to its first items.
pub trait Take: Observable {
    fn take(self, count: usize) -> (op: TakeOp<Self>)
        ensures
            op.source == self,
            op.count == count,
    {
        TakeOp { source: self, count }
    }
}

impl<S: Observable> Take for S {
}

/// What passes only grows as the log grows, and stays as it is once the
/// stream has ended or the count is filled.
pub proof fn lemma_take_grows<Item, E>(
    log: Seq<Signal<Item, E>>,
    more: Seq<Signal<Item, E>>,
    count: nat,
)
    ensures
        take_out(log, count).is_prefix_of(take_out(log + more, count)),
        ending(log) is Some || filled(log, count) ==> take_out(log + more, count) == take_out(
            log,
            count,
        ),
{
    let short = items(log);
    let long = items(log + more);
    lemma_items_grow(log, more);
    if ending(log) is Some {
        lemma_ended(log, more);
    } else if filled(log, count) {
        assert(long.take(count as int) == short.take(count as int));
    } else {
        assert(nexts::<Item, E>(short) + Seq::<Signal<Item, E>>::empty() == nexts::<Item, E>(
            short,
        ));
        if filled(log + more, count) {
            assert(short.is_prefix_of(long.take(count as int)));
            assert(nexts::<Item, E>(short).is_prefix_of(
                nexts::<Item, E>(long.take(count as int)).push(Signal::Complete),
            ));
        } else {
            assert(nexts::<Item, E>(short).is_prefix_of(
                nexts::<Item, E>(long) + tail(ending(log + more)),
            ));
        }
    }
}

/// Of a stream with at least `count` items, `count` being at least one,
/// exactly the first `count` pass, in order, followed by a completion; the
/// signals after them, `rest`, have no part in it.
pub proof fn lemma_take_prefix<Item, E>(
    values: Seq<Item>,
    rest: Seq<Signal<Item, E>>,
    count: nat,
)
    requires
        1 <= count <= values.len(),
    ensures
        take_out(nexts(values) + rest, count) == nexts::<Item, E>(values.take(count as int)).push(
            Signal::Complete,
        ),
{
    let log = nexts::<Item, E>(values) + rest;
    lemma_items_prefix(values, rest);
    assert(items(log).take(count as int) == values.take(count as int));
}

/// The items of a log that begins with `values` begin with `values`.
pub proof fn lemma_items_prefix<Item, E>(values: Seq<Item>, rest: Seq<Signal<Item, E>>)
    ensures
        items(nexts(values) + rest).len() >= values.len(),
        items(nexts(values) + rest).take(values.len() as int) == values,
    decreases rest.len(),
{
    let head = nexts::<Item, E>(values);
    if rest.len() == 0 {
        assert(head + rest == head);
        lemma_nexts::<Item, E>(values);
        assert(values.take(values.len() as int) == values);
    } else {
        let front = rest.drop_last();
        lemma_items_prefix(values, front);
        assert(head + rest == (head + front).push(rest.last()));
        lemma_push(head + front, rest.last());
        let short = items(head + front);
        let long = items(head + rest);
        assert(long.take(values.len() as int) == short.take(values.len() as int));
    }
}

/// A stream that ends before `count` items have come passes unchanged, for a
/// `count` of at least one.
pub proof fn lemma_take_short<Item, E>(values: Seq<Item>, end: Signal<Item, E>, count: nat)
    requires
        !(end is Next),
        values.len() < count,
    ensures
        take_out(nexts(values).push(end), count) == nexts(values).push(end),
{
    lemma_closed(values, end);
    assert(nexts::<Item, E>(values) + seq![end] == nexts::<Item, E>(values).push(end));
}

/// A replaying source with at least `count` items, `count` being at least
/// one, hands an observer that takes `count` no more than the first `count`
/// of them, whatever stands behind that observer.
pub proof fn lemma_take_reads_at_most<Item, O: Observer<Item, ()>>(
    values: Seq<Item>,
    count: usize,
    base: Seq<Signal<Item, ()>>,
    behind: O::Setup,
)
    requires
        1 <= count <= values.len(),
    ensures
        pushed::<Item, TakeObserver<O, Item, ()>>((count, base, behind), Seq::empty(), values)
            == nexts::<Item, ()>(
            values.take(
                first_halt::<Item, TakeObserver<O, Item, ()>>(
                    (count, base, behind),
                    Seq::empty(),
                    values,
                    values.len() as int,
                ),
            ),
        ),
        1 <= first_halt::<Item, TakeObserver<O, Item, ()>>(
            (count, base, behind),
            Seq::empty(),
            values,
            values.len() as int,
        ) <= count,
{
    let head = nexts::<Item, ()>(values.take(count as int));
    lemma_nexts::<Item, ()>(values.take(count as int));
    assert(Seq::<Signal<Item, ()>>::empty() + head == head);
    lemma_halt_within::<Item, TakeObserver<O, Item, ()>>(
        (count, base, behind),
        Seq::empty(),
        values,
        count as int,
        values.len() as int,
    );
}

/// A replaying source with at least `count` items, `count` being at least
/// one, hands an observer that takes `count` and stands before a collector
/// exactly the first `count` items: it reads no further.
pub proof fn lemma_take_reads_prefix<Item>(
    values: Seq<Item>,
    count: usize,
    base: Seq<Signal<Item, ()>>,
)
    requires
        1 <= count <= values.len(),
    ensures
        pushed::<Item, TakeObserver<Collector<Item, ()>, Item, ()>>(
            (count, base, ()),
            Seq::empty(),
            values,
        ) == nexts::<Item, ()>(values.take(count as int)),
{
    let head = nexts::<Item, ()>(values.take(count as int));
    lemma_nexts::<Item, ()>(values.take(count as int));
    assert(Seq::<Signal<Item, ()>>::empty() + head == head);
    lemma_take_runs(values, count, base, count - 1);
    lemma_halt::<Item, TakeObserver<Collector<Item, ()>, Item, ()>>(
        (count, base, ()),
        Seq::empty(),
        values,
        count as int,
    );
}

/// Before the count is filled, an observer that stands before a collector
/// does not ask to stop.
proof fn lemma_take_runs<Item>(
    values: Seq<Item>,
    count: usize,
    base: Seq<Signal<Item, ()>>,
    upto: int,
)
    requires
        upto < count <= values.len(),
    ensures
        !halted_within::<Item, TakeObserver<Collector<Item, ()>, Item, ()>>(
            (count, base, ()),
            Seq::empty(),
            values,
            upto,
        ),
    decreases upto,
{
    if upto > 0 {
        lemma_take_runs(values, count, base, upto - 1);
        let head = nexts::<Item, ()>(values.take(upto));
        lemma_nexts::<Item, ()>(values.take(upto));
        assert(Seq::<Signal<Item, ()>>::empty() + head == head);
    }
}

/// Of a stream with at least one item, a `count` of one passes exactly that
/// item, then a completion.
pub proof fn lemma_take_one<Item, E>(values: Seq<Item>, rest: Seq<Signal<Item, E>>)
    requires
        values.len() >= 1,
    ensures
        take_out(nexts(values) + rest, 1) == seq![
            Signal::<Item, E>::Next(values[0]),
            Signal::Complete,
        ],
{
    lemma_take_prefix(values, rest, 1);
    assert(nexts::<Item, E>(values.take(1)).push(Signal::Complete) == seq![
        Signal::<Item, E>::Next(values[0]),
        Signal::Complete,
    ]);
}

impl<S: Fork> Fork for TakeOp<S> {
    fn fork(&self) -> (twin: Self) {
        TakeOp { source: self.source.fork(), count: self.count }
    }
}

} // verus!
