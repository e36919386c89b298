//! Signals, logs of signals, and the two summaries of a log that operators act on.

use vstd::prelude::*;

verus! {

/// One event pushed from a source to an observer.
#[derive(Clone, Debug, PartialEq, Eq)]
pub enum Signal<Item, E> {
    Next(Item),
    Error(E),
    Complete,
}

/// What an observer answers to an item: whether the source should go on.
#[derive(Clone, Copy, Debug, PartialEq, Eq)]
pub enum Flow {
    Continue,
    Stop,
}

/// The first terminal signal of a log, if it has one. Whatever follows it is
/// dead: a stream ends once.
pub open spec fn ending<Item, E>(log: Seq<Signal<Item, E>>) -> Option<Signal<Item, E>>
    decreases log.len(),
{
    if log.len() == 0 {
        None
    } else {
        let before = ending(log.drop_last());
        if before is Some {
            before
        } else if log.last() is Next {
            None
        } else {
            Some(log.last())
        }
    }
}

/// The items of a log that come before its first terminal signal, in order.
pub open spec fn items<Item, E>(log: Seq<Signal<Item, E>>) -> Seq<Item>
    decreases log.len(),
{
    if log.len() == 0 {
        Seq::empty()
    } else {
        let before = items(log.drop_last());
        match log.last() {
            Signal::Next(v) => if ending(log.drop_last()) is None {
                before.push(v)
            } else {
                before
            },
            _ => before,
        }
    }
}

/// Each value as a `Next` signal.
pub open spec fn nexts<Item, E>(values: Seq<Item>) -> Seq<Signal<Item, E>> {
    Seq::new(values.len(), |i: int| Signal::Next(values[i]))
}

/// A terminal signal as a log of length one, or the empty log.
pub open spec fn tail<Item, E>(end: Option<Signal<Item, E>>) -> Seq<Signal<Item, E>> {
    match end {
        Some(t) => seq![t],
        None => Seq::empty(),
    }
}

/// The live part of a log: its items, then its terminal signal if it has one.
pub open spec fn live<Item, E>(log: Seq<Signal<Item, E>>) -> Seq<Signal<Item, E>> {
    nexts(items(log)) + tail(ending(log))
}

/// How `ending` and `items` change when one signal is appended.
pub proof fn lemma_push<Item, E>(log: Seq<Signal<Item, E>>, s: Signal<Item, E>)
    ensures
        ending(log.push(s)) == (if ending(log) is Some {
            ending(log)
        } else if s is Next {
            None
        } else {
            Some(s)
        }),
        items(log.push(s)) == (match s {
            Signal::Next(v) => if ending(log) is None {
                items(log).push(v)
            } else {
                items(log)
            },
            _ => items(log),
        }),
{
    assert(log.push(s).drop_last() == log);
    assert(log.push(s).last() == s);
}

/// A log of items alone is live as a whole and has not ended.
pub proof fn lemma_nexts<Item, E>(values: Seq<Item>)
    ensures
        ending(nexts::<Item, E>(values)) is None,
        items(nexts::<Item, E>(values)) == values,
    decreases values.len(),
{
    if values.len() == 0 {
        assert(items(nexts::<Item, E>(values)) == values);
    } else {
        let front = values.drop_last();
        lemma_nexts::<Item, E>(front);
        assert(nexts::<Item, E>(values) == nexts::<Item, E>(front).push(
            Signal::Next(values.last()),
        ));
        lemma_push(nexts::<Item, E>(front), Signal::Next(values.last()));
        assert(front.push(values.last()) == values);
    }
}

/// A log of items closed by one terminal signal: the items are live, the
/// terminal signal is its ending.
pub proof fn lemma_closed<Item, E>(values: Seq<Item>, end: Signal<Item, E>)
    requires
        !(end is Next),
    ensures
        ending(nexts(values).push(end)) == Some(end),
        items(nexts(values).push(end)) == values,
{
    lemma_nexts::<Item, E>(values);
    lemma_push(nexts(values), end);
}

/// Whatever follows the end of a stream changes neither its ending nor its
/// items.
pub proof fn lemma_ended<Item, E>(log: Seq<Signal<Item, E>>, more: Seq<Signal<Item, E>>)
    requires
        ending(log) is Some,
    ensures
        ending(log + more) == ending(log),
        items(log + more) == items(log),
    decreases more.len(),
{
    if more.len() == 0 {
        assert(log + more == log);
    } else {
        let front = more.drop_last();
        lemma_ended(log, front);
        assert(log + more == (log + front).push(more.last()));
        lemma_push(log + front, more.last());
    }
}

/// The items of a log only grow as the log grows.
pub proof fn lemma_items_grow<Item, E>(log: Seq<Signal<Item, E>>, more: Seq<Signal<Item, E>>)
    ensures
        items(log).is_prefix_of(items(log + more)),
        ending(log + more) is None ==> ending(log) is None,
    decreases more.len(),
{
    if more.len() == 0 {
        assert(log + more == log);
    } else {
        let front = more.drop_last();
        lemma_items_grow(log, front);
        assert(log + more == (log + front).push(more.last()));
        lemma_push(log + front, more.last());
    }
}

} // verus!
