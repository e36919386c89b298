//! The observer contract, and an observer that records what it is handed.

use vstd::prelude::*;
use crate::signal::{Flow, Signal};

verus! {

/// A sink for the signals of one stream.
///
/// The model of an observer is the log of the signals it was handed, in
/// order. `setup` is what a decorating observer was built with; no signal
/// changes it. `outcome` is what has reached the end of the chain that the
/// observer heads; it is `result` of the setup and the log, whatever the
/// state. An observer that asks its source to stop is deaf: nothing handed
/// to it afterwards changes the outcome, so a source may stop there.
pub trait Observer<Item, E>: Sized {
    type Setup;

    spec fn inv(&self) -> bool;

    spec fn setup(&self) -> Self::Setup;

    spec fn received(&self) -> Seq<Signal<Item, E>>;

    /// Whether the observer asks its source for no more items.
    spec fn stopped(&self) -> bool;

    /// The signals that have reached the end of the chain.
    spec fn outcome(&self) -> Seq<Signal<Item, E>>;

    /// What reaches the end of the chain once `log` has been handed over.
    spec fn result(setup: Self::Setup, log: Seq<Signal<Item, E>>) -> Seq<Signal<Item, E>>;

    /// Whether the observer asks for no more once `log` has been handed over.
    spec fn halts(setup: Self::Setup, log: Seq<Signal<Item, E>>) -> bool;

    /// The state agrees with the log.
    proof fn lemma_outcome(&self)
        requires
            self.inv(),
        ensures
            self.outcome() == Self::result(self.setup(), self.received()),
            self.stopped() == Self::halts(self.setup(), self.received()),
    ;

    /// Past the point where the observer asks for no more, nothing counts.
    proof fn lemma_deaf(setup: Self::Setup, log: Seq<Signal<Item, E>>, more: Seq<Signal<Item, E>>)
        ensures
            Self::halts(setup, log) ==> Self::result(setup, log + more) == Self::result(
                setup,
                log,
            ),
    ;

    fn next(&mut self, value: Item) -> (flow: Flow)
        requires
            old(self).inv(),
        ensures
            final(self).inv(),
            final(self).setup() == old(self).setup(),
            final(self).received() == old(self).received().push(Signal::Next(value)),
            (flow is Stop) == final(self).stopped(),
    ;

    fn error(&mut self, err: E)
        requires
            old(self).inv(),
        ensures
            final(self).inv(),
            final(self).setup() == old(self).setup(),
            final(self).received() == old(self).received().push(Signal::Error(err)),
    ;

    fn complete(&mut self)
        requires
            old(self).inv(),
        ensures
            final(self).inv(),
            final(self).setup() == old(self).setup(),
            final(self).received() == old(self).received().push(Signal::Complete),
    ;
}

/// An observer that keeps every signal it is handed and never asks to stop.
pub struct Collector<Item, E> {
    signals: Vec<Signal<Item, E>>,
}

impl<Item, E> Collector<Item, E> {
    pub closed spec fn view(&self) -> Seq<Signal<Item, E>> {
        self.signals@
    }

    pub fn new() -> (collector: Self)
        ensures
            collector@ == Seq::<Signal<Item, E>>::empty(),
    {
        Collector { signals: Vec::new() }
    }

    /// The signals received so far, oldest first.
    pub fn into_signals(self) -> (signals: Vec<Signal<Item, E>>)
        ensures
            signals@ == self@,
    {
        self.signals
    }
}

impl<Item, E> Observer<Item, E> for Collector<Item, E> {
    type Setup = ();

    open spec fn inv(&self) -> bool {
        true
    }

    open spec fn setup(&self) -> () {
        ()
    }

    open spec fn received(&self) -> Seq<Signal<Item, E>> {
        self@
    }

    open spec fn stopped(&self) -> bool {
        false
    }

    open spec fn outcome(&self) -> Seq<Signal<Item, E>> {
        self@
    }

    open spec fn result(setup: (), log: Seq<Signal<Item, E>>) -> Seq<Signal<Item, E>> {
        log
    }

    open spec fn halts(setup: (), log: Seq<Signal<Item, E>>) -> bool {
        false
    }

    proof fn lemma_outcome(&self) {
    }

    proof fn lemma_deaf(setup: (), log: Seq<Signal<Item, E>>, more: Seq<Signal<Item, E>>) {
    }

    fn next(&mut self, value: Item) -> (flow: Flow)
        ensures
            flow is Continue,
    {
        self.signals.push(Signal::Next(value));
        Flow::Continue
    }

    fn error(&mut self, err: E) {
        self.signals.push(Signal::Error(err));
    }

    fn complete(&mut self) {
        self.signals.push(Signal::Complete);
    }
}

} // verus!
