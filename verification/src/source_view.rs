//! What an owner holds, as plain mathematics: its bus, and what its iterator
//! has yet to yield; and what a step of the iterator and a call of `next` do
//! to it.

use crate::bus_view::{after_poll, broadcasts, poll_outcome, BusView};
use crate::symbol::Symbol;
use vstd::prelude::*;

verus! {

/// The first value of a sequence, if it has one.
pub open spec fn first_of<T>(values: Seq<T>) -> Option<T> {
    if values.len() > 0 {
        Some(values[0])
    } else {
        None
    }
}

/// A sequence without its first value; the empty sequence stays empty.
pub open spec fn rest_of<T>(values: Seq<T>) -> Seq<T> {
    if values.len() > 0 {
        values.drop_first()
    } else {
        values
    }
}

/// `post` is `pre` after the iterator was asked once and gave `item`: a value
/// is broadcast, the end of the iterator changes nothing.
pub open spec fn advances<T: Clone>(pre: BusView<T>, item: Option<T>, post: BusView<T>) -> bool {
    match item {
        Some(value) => broadcasts(pre, value, post),
        None => post == pre,
    }
}

/// The receiver `id` found its backlog empty, the iterator was asked once and
/// gave `item`, and the receiver polled again and got `out`.
pub open spec fn refills<T: Clone>(
    pre: BusView<T>,
    id: Symbol,
    item: Option<T>,
    post: BusView<T>,
    out: Option<T>,
) -> bool {
    exists|mid: BusView<T>|
        {
            &&& #[trigger] advances(pre, item, mid)
            &&& out == match poll_outcome(mid, id) {
                Ok(value) => Some(value),
                Err(_) => None,
            }
            &&& post == after_poll(mid, id)
        }
}

/// The handle `id` asked for its next value and got `out`: the front of its
/// backlog if it had one, with the iterator left alone; else what one step
/// of the iterator, which gave `item`, put there.
pub open spec fn reads<T: Clone>(
    pre: BusView<T>,
    id: Symbol,
    item: Option<T>,
    post: BusView<T>,
    out: Option<T>,
) -> bool {
    match poll_outcome(pre, id) {
        Ok(value) => out == Some(value) && post == after_poll(pre, id),
        Err(_) => refills(pre, id, item, post, out),
    }
}

/// The bus as it is right after wrapping: nothing sent, and one live handle,
/// `id`, with nothing to read yet.
pub open spec fn fresh_bus<T>(bus: BusView<T>, id: Symbol) -> bool {
    &&& bus.sent == Seq::<T>::empty()
    &&& bus.queues == Map::<Symbol, Seq<T>>::empty().insert(id, Seq::empty())
    &&& bus.live == Set::<Symbol>::empty().insert(id)
    &&& bus.issued == 1
    &&& id.value() == 0
}

/// A bus together with what its iterator has yet to yield.
pub struct SourceView<T> {
    /// The bus.
    pub bus: BusView<T>,
    /// The values that the iterator will still yield, next first.
    pub pending: Seq<T>,
}

impl<T: Clone> SourceView<T> {
    /// All that the iterator yields from first to last: what was sent, then
    /// what is pending.
    pub open spec fn total(self) -> Seq<T> {
        self.bus.sent + self.pending
    }
}

/// The iterator was asked once, and what it gave was handed on: `post` is
/// `pre` with the next pending value, if there is one, broadcast.
pub open spec fn produces<T: Clone>(pre: SourceView<T>, post: SourceView<T>) -> bool {
    &&& advances(pre.bus, first_of(pre.pending), post.bus)
    &&& post.pending == rest_of(pre.pending)
}

/// One call of `next` by the handle `id` leads from `pre` to `post` and
/// returns `out`: the handle reads, and if it has to ask the iterator, the
/// iterator gives the next pending value, if there is one.
pub open spec fn takes_next<T: Clone>(
    pre: SourceView<T>,
    id: Symbol,
    post: SourceView<T>,
    out: Option<T>,
) -> bool {
    &&& reads(pre.bus, id, first_of(pre.pending), post.bus, out)
    &&& post.pending == if poll_outcome(pre.bus, id) is Ok {
        pre.pending
    } else {
        rest_of(pre.pending)
    }
}

} // verus!
