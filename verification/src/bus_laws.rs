//! What each step of a bus keeps: every step leads from a well-formed bus to
//! a well-formed bus, and moves no receiver's place but as stated here.

use crate::bus_view::{
    after_close, after_poll, branches, broadcasts, poll_outcome, registers, BusView,
};
use crate::copies::{copy_of, lemma_copy_of_itself, lemma_copy_then_clone};
use crate::symbol::{symbol_limit, Symbol};
use vstd::prelude::*;

verus! {

/// Registering a receiver keeps the bus well formed; the receiver is new, and
/// stands behind everything sent so far.
pub proof fn law_register<T: Clone>(pre: BusView<T>, id: Symbol, post: BusView<T>)
    requires
        pre.wf(),
        pre.issued < symbol_limit(),
        registers(pre, id, post),
    ensures
        post.wf(),
        !pre.queues.dom().contains(id),
        post.cursor(id) == post.sent.len(),
        forall|other: Symbol|
            pre.queues.dom().contains(other) ==> #[trigger] post.queues[other]
                == pre.queues[other],
{
    if pre.queues.dom().contains(id) {
        assert(id.value() < pre.issued);
    }
    assert forall|other: Symbol|
        #[trigger] post.queues.dom().contains(other) implies post.wf_at(other) by {
        if other != id {
            assert(pre.queues.dom().contains(other));
            assert(post.unread(other) == pre.unread(other));
        }
    }
}

/// A broadcast keeps the bus well formed and moves no live receiver's place:
/// what was sent grows by one, and so does every live backlog.
pub proof fn law_broadcast<T: Clone>(pre: BusView<T>, value: T, post: BusView<T>)
    requires
        pre.wf(),
        broadcasts(pre, value, post),
    ensures
        post.wf(),
        forall|id: Symbol|
            pre.live.contains(id) ==> #[trigger] post.cursor(id) == pre.cursor(id),
        forall|id: Symbol|
            pre.live.contains(id) ==> pre.queues[id].is_prefix_of(#[trigger] post.queues[id]),
{
    assert forall|id: Symbol| #[trigger] post.queues.dom().contains(id) implies post.wf_at(id) by {
        assert(pre.queues.dom().contains(id));
        let queue = post.queues[id];
        if pre.live.contains(id) {
            assert(post.unread(id) =~= pre.unread(id).push(value));
            assert forall|k: int| 0 <= k < queue.len() implies copy_of(
                post.unread(id)[k],
                #[trigger] queue[k],
            ) by {
                if k < pre.queues[id].len() {
                    assert(queue[k] == queue.drop_last()[k]);
                    assert(copy_of(pre.unread(id)[k], pre.queues[id][k]));
                } else {
                    lemma_copy_of_itself(value);
                    lemma_copy_then_clone(value, value, queue.last());
                }
            }
        } else {
            assert(post.unread(id) =~= Seq::<T>::empty());
        }
    }
    assert forall|id: Symbol| pre.live.contains(id) implies pre.queues[id].is_prefix_of(
        #[trigger] post.queues[id],
    ) by {
        assert(pre.queues.dom().contains(id));
        let queue = post.queues[id];
        assert(pre.queues[id] == queue.drop_last());
        assert(queue.drop_last() =~= queue.subrange(0, queue.len() - 1));
    }
    assert forall|id: Symbol| pre.live.contains(id) implies #[trigger] post.cursor(id)
        == pre.cursor(id) by {
        assert(pre.queues.dom().contains(id));
        assert(post.queues[id].len() == pre.queues[id].len() + 1);
    }
}

/// A fork keeps the bus well formed; the new receiver is new and stands at
/// the place of its source, and no other receiver has moved.
pub proof fn law_branch<T: Clone>(
    pre: BusView<T>,
    source: Symbol,
    id: Symbol,
    post: BusView<T>,
)
    requires
        pre.wf(),
        pre.queues.dom().contains(source),
        pre.issued < symbol_limit(),
        branches(pre, source, id, post),
    ensures
        post.wf(),
        !pre.queues.dom().contains(id),
        post.cursor(id) == pre.cursor(source),
        forall|other: Symbol|
            pre.queues.dom().contains(other) ==> #[trigger] post.cursor(other) == pre.cursor(
                other,
            ),
{
    if pre.queues.dom().contains(id) {
        assert(id.value() < pre.issued);
    }
    assert forall|other: Symbol|
        #[trigger] post.queues.dom().contains(other) implies post.wf_at(other) by {
        if other != id {
            assert(pre.queues.dom().contains(other));
            assert(post.queues[other] == pre.queues[other]);
            assert(post.unread(other) == pre.unread(other));
        } else {
            let queue = post.queues[id];
            assert(post.unread(id) == pre.unread(source));
            assert forall|k: int| 0 <= k < queue.len() implies copy_of(
                post.unread(id)[k],
                #[trigger] queue[k],
            ) by {
                assert(copy_of(pre.unread(source)[k], pre.queues[source][k]));
                lemma_copy_then_clone(pre.unread(source)[k], pre.queues[source][k], queue[k]);
            }
        }
    }
    assert forall|other: Symbol| pre.queues.dom().contains(other) implies #[trigger] post.cursor(
        other,
    ) == pre.cursor(other) by {
        assert(post.queues[other] == pre.queues[other]);
    }
}

/// A poll keeps the bus well formed. What it takes is a copy of the value
/// sent at the receiver's place, and the receiver moves on by one; a poll
/// that takes nothing changes nothing.
pub proof fn law_poll<T: Clone>(pre: BusView<T>, id: Symbol)
    requires
        pre.wf(),
    ensures
        after_poll(pre, id).wf(),
        match poll_outcome(pre, id) {
            Ok(value) => {
                &&& 0 <= pre.cursor(id) < pre.sent.len()
                &&& copy_of(pre.sent[pre.cursor(id)], value)
                &&& after_poll(pre, id).cursor(id) == pre.cursor(id) + 1
            },
            Err(_) => after_poll(pre, id) == pre,
        },
        forall|other: Symbol|
            other != id ==> #[trigger] after_poll(pre, id).queues[other] == pre.queues[other],
{
    let post = after_poll(pre, id);
    if pre.live.contains(id) && pre.queues[id].len() > 0 {
        assert(pre.queues.dom().contains(id));
        let queue = pre.queues[id];
        assert(copy_of(pre.unread(id)[0], queue[0]));
        assert(post.queues.dom() =~= pre.queues.dom());
        assert forall|other: Symbol|
            #[trigger] post.queues.dom().contains(other) implies post.wf_at(other) by {
            assert(pre.queues.dom().contains(other));
            if other == id {
                let rest = post.queues[id];
                assert forall|k: int| 0 <= k < rest.len() implies copy_of(
                    post.unread(id)[k],
                    #[trigger] rest[k],
                ) by {
                    assert(post.unread(id)[k] == pre.unread(id)[k + 1]);
                    assert(rest[k] == queue[k + 1]);
                }
            } else {
                assert(post.unread(other) == pre.unread(other));
            }
        }
    }
}

/// Closing a receiver keeps the bus well formed and leaves every other
/// receiver as it was: live if it was live, with the same backlog.
pub proof fn law_close<T: Clone>(pre: BusView<T>, id: Symbol)
    requires
        pre.wf(),
    ensures
        after_close(pre, id).wf(),
        after_close(pre, id).sent == pre.sent,
        forall|other: Symbol|
            other != id ==> #[trigger] after_close(pre, id).queues[other] == pre.queues[other],
        forall|other: Symbol|
            other != id ==> #[trigger] after_close(pre, id).live.contains(other)
                == pre.live.contains(other),
{
    let post = after_close(pre, id);
    if pre.live.contains(id) {
        assert(pre.queues.dom().contains(id));
        assert(post.queues.dom() =~= pre.queues.dom());
        assert forall|other: Symbol|
            #[trigger] post.queues.dom().contains(other) implies post.wf_at(other) by {
            assert(pre.queues.dom().contains(other));
            if other != id {
                assert(post.unread(other) == pre.unread(other));
            }
        }
    }
}

} // verus!
