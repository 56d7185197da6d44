//! What a bus holds, as plain mathematics, and what each step does to it.

use crate::bus::TryRecvError;
use crate::copies::copies_of;
use crate::symbol::{symbol_limit, Symbol};
use vstd::prelude::*;

verus! {

/// What a bus holds, as plain mathematics.
pub struct BusView<T> {
    /// Every value broadcast so far, oldest first.
    pub sent: Seq<T>,
    /// The unread backlog of each registered receiver, oldest first.
    pub queues: Map<Symbol, Seq<T>>,
    /// The registered receivers that have not been closed.
    pub live: Set<Symbol>,
    /// How many identifiers the bus has handed out.
    pub issued: nat,
}

impl<T: Clone> BusView<T> {
    /// The part of `sent` that the receiver `id` has not read yet.
    pub open spec fn unread(self, id: Symbol) -> Seq<T> {
        self.sent.subrange(self.sent.len() - self.queues[id].len(), self.sent.len() as int)
    }

    /// How many of the values sent so far lie behind the receiver `id`.
    pub open spec fn cursor(self, id: Symbol) -> int {
        self.sent.len() - self.queues[id].len()
    }

    /// The registered receivers that have been closed.
    pub open spec fn stale(self) -> Set<Symbol> {
        self.queues.dom().difference(self.live)
    }

    /// What holds of every registered receiver: its identifier is below the
    /// count handed out, its backlog holds copies of the latest values sent,
    /// and if it is closed it has no backlog.
    pub open spec fn wf_at(self, id: Symbol) -> bool {
        &&& id.value() < self.issued
        &&& self.queues[id].len() <= self.sent.len()
        &&& copies_of(self.unread(id), self.queues[id])
        &&& !self.live.contains(id) ==> self.queues[id].len() == 0
    }

    /// What holds of every bus: finitely many receivers are registered, the
    /// live ones among them, and `wf_at` holds of each.
    pub open spec fn wf(self) -> bool {
        &&& self.queues.dom().finite()
        &&& self.live.subset_of(self.queues.dom())
        &&& self.issued <= symbol_limit()
        &&& forall|id: Symbol| #[trigger] self.queues.dom().contains(id) ==> self.wf_at(id)
    }
}

/// `post` is `pre` with the fresh receiver `id` registered, its queue empty.
pub open spec fn registers<T>(pre: BusView<T>, id: Symbol, post: BusView<T>) -> bool {
    &&& id.value() == pre.issued
    &&& post.sent == pre.sent
    &&& post.queues == pre.queues.insert(id, Seq::empty())
    &&& post.live == pre.live.insert(id)
    &&& post.issued == pre.issued + 1
}

/// `post` is `pre` after `value` was broadcast: a copy of it stands at the end
/// of every live queue, and nothing else has changed.
pub open spec fn broadcasts<T: Clone>(pre: BusView<T>, value: T, post: BusView<T>) -> bool {
    &&& post.sent == pre.sent.push(value)
    &&& post.queues.dom() == pre.queues.dom()
    &&& post.live == pre.live
    &&& post.issued == pre.issued
    &&& forall|id: Symbol|
        pre.queues.dom().contains(id) ==> if pre.live.contains(id) {
            &&& (#[trigger] post.queues[id]).len() == pre.queues[id].len() + 1
            &&& post.queues[id].drop_last() == pre.queues[id]
            &&& cloned(value, post.queues[id].last())
        } else {
            post.queues[id] == pre.queues[id]
        }
}

/// `post` is `pre` with the fresh receiver `id` registered, its queue a copy,
/// place by place, of the backlog of `source`; the queue of `source` and all
/// the others are as they were.
pub open spec fn branches<T: Clone>(
    pre: BusView<T>,
    source: Symbol,
    id: Symbol,
    post: BusView<T>,
) -> bool {
    &&& id.value() == pre.issued
    &&& post.sent == pre.sent
    &&& post.issued == pre.issued + 1
    &&& post.live == pre.live.insert(id)
    &&& post.queues.dom() == pre.queues.dom().insert(id)
    &&& forall|other: Symbol|
        pre.queues.dom().contains(other) ==> #[trigger] post.queues[other] == pre.queues[other]
    &&& post.queues[id].len() == pre.queues[source].len()
    &&& forall|i: int|
        0 <= i < pre.queues[source].len() ==> cloned(
            pre.queues[source][i],
            #[trigger] post.queues[id][i],
        )
}

/// What a poll by the receiver `id` returns.
pub open spec fn poll_outcome<T>(pre: BusView<T>, id: Symbol) -> Result<T, TryRecvError> {
    if !pre.live.contains(id) {
        Err(TryRecvError::Disconnected)
    } else if pre.queues[id].len() == 0 {
        Err(TryRecvError::Empty)
    } else {
        Ok(pre.queues[id][0])
    }
}

/// The bus after a poll by the receiver `id`: the front of its backlog, if it
/// has one, is gone.
pub open spec fn after_poll<T>(pre: BusView<T>, id: Symbol) -> BusView<T> {
    if pre.live.contains(id) && pre.queues[id].len() > 0 {
        BusView { queues: pre.queues.insert(id, pre.queues[id].drop_first()), ..pre }
    } else {
        pre
    }
}

/// The bus after the receiver `id` was closed: it stays registered, is no
/// longer live, and its backlog is gone.
pub open spec fn after_close<T>(pre: BusView<T>, id: Symbol) -> BusView<T> {
    if pre.live.contains(id) {
        BusView { queues: pre.queues.insert(id, Seq::empty()), live: pre.live.remove(id), ..pre }
    } else {
        pre
    }
}

} // verus!
