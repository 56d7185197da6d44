//! What the handles of one owner read, whatever the iterator gives and
//! whatever the order in which the handles are polled, forked and closed.

use crate::bus_laws::{law_branch, law_broadcast, law_close, law_poll};
use crate::bus_view::{after_close, after_poll, branches, broadcasts, poll_outcome, BusView};
use crate::copies::copy_of;
use crate::source_view::{advances, reads};
use crate::symbol::{symbol_limit, Symbol};
use vstd::prelude::*;

verus! {

/// What was sent after the iterator was asked once and gave `item`.
pub open spec fn sent_with<T>(sent: Seq<T>, item: Option<T>) -> Seq<T> {
    match item {
        Some(value) => sent.push(value),
        None => sent,
    }
}

/// One step of the iterator, whatever it gives, keeps the bus well formed
/// and moves no live handle: each finds the new value, if there is one,
/// behind the backlog that it had.
pub proof fn law_advance<T: Clone>(pre: BusView<T>, item: Option<T>, post: BusView<T>)
    requires
        pre.wf(),
        advances(pre, item, post),
    ensures
        post.wf(),
        post.sent == sent_with(pre.sent, item),
        post.live == pre.live,
        post.queues.dom() == pre.queues.dom(),
        post.issued == pre.issued,
        forall|id: Symbol| pre.live.contains(id) ==> #[trigger] post.cursor(id) == pre.cursor(id),
        forall|id: Symbol|
            pre.live.contains(id) ==> pre.queues[id].is_prefix_of(#[trigger] post.queues[id]),
{
    match item {
        None => {
            assert forall|id: Symbol| pre.live.contains(id) implies
                pre.queues[id].is_prefix_of(#[trigger] post.queues[id]) by {
                let queue = pre.queues[id];
                assert(queue =~= queue.subrange(0, queue.len() as int));
            }
        },
        Some(value) => {
            law_broadcast(pre, value, post);
        },
    }
}

/// One call of `next`, whatever the iterator gives, keeps the bus well
/// formed. The live handle gets a copy of the value sent at its place and
/// moves on by one; it gets nothing only where it has read all that was sent
/// and the iterator gives nothing, and then nothing changes. A handle with a
/// backlog gets the front of it, and nothing is sent. No other live handle
/// moves or loses any of its backlog.
pub proof fn law_reads<T: Clone>(
    pre: BusView<T>,
    id: Symbol,
    item: Option<T>,
    post: BusView<T>,
    out: Option<T>,
)
    requires
        pre.wf(),
        pre.live.contains(id),
        reads(pre, id, item, post, out),
    ensures
        post.wf(),
        post.live == pre.live,
        post.queues.dom() == pre.queues.dom(),
        post.issued == pre.issued,
        post.sent == if pre.queues[id].len() > 0 {
            pre.sent
        } else {
            sent_with(pre.sent, item)
        },
        match out {
            Some(value) => {
                &&& 0 <= pre.cursor(id) < post.sent.len()
                &&& copy_of(post.sent[pre.cursor(id)], value)
                &&& post.cursor(id) == pre.cursor(id) + 1
            },
            None => {
                &&& post == pre
                &&& item is None
                &&& pre.cursor(id) == pre.sent.len()
            },
        },
        pre.queues[id].len() > 0 ==> out == Some(pre.queues[id][0]) && post.queues[id]
            == pre.queues[id].drop_first(),
        forall|other: Symbol|
            pre.live.contains(other) && other != id ==> #[trigger] post.cursor(other)
                == pre.cursor(other),
        forall|other: Symbol|
            pre.live.contains(other) && other != id ==> pre.queues[other].is_prefix_of(
                #[trigger] post.queues[other],
            ),
{
    assert(pre.queues.dom().contains(id));
    match poll_outcome(pre, id) {
        Ok(value) => {
            law_poll(pre, id);
            assert(post.queues.dom() =~= pre.queues.dom());
            assert forall|other: Symbol| pre.live.contains(other) && other != id implies
                pre.queues[other].is_prefix_of(#[trigger] post.queues[other]) by {
                let queue = pre.queues[other];
                assert(queue =~= queue.subrange(0, queue.len() as int));
            }
        },
        Err(_) => {
            let mid = choose|mid: BusView<T>|
                {
                    &&& #[trigger] advances(pre, item, mid)
                    &&& out == match poll_outcome(mid, id) {
                        Ok(value) => Some(value),
                        Err(_) => None,
                    }
                    &&& post == after_poll(mid, id)
                };
            law_advance(pre, item, mid);
            law_poll(mid, id);
            assert(post.queues.dom() =~= pre.queues.dom());
            if let Some(value) = item {
                assert(mid.queues.dom().contains(id));
                assert(mid.queues[id].len() == 1);
                assert(mid.queues[id][0] == mid.queues[id].last());
            }
            assert forall|other: Symbol| pre.live.contains(other) && other != id implies
                #[trigger] post.cursor(other) == pre.cursor(other) by {
                assert(mid.cursor(other) == pre.cursor(other));
                assert(post.queues[other] == mid.queues[other]);
            }
            assert forall|other: Symbol| pre.live.contains(other) && other != id implies
                pre.queues[other].is_prefix_of(#[trigger] post.queues[other]) by {
                assert(pre.queues[other].is_prefix_of(mid.queues[other]));
                assert(post.queues[other] == mid.queues[other]);
            }
        },
    }
}

/// One call on the owner or on a handle, with what the iterator gave where it
/// was asked, and what the call returned.
pub enum Call<T> {
    /// The owner asked the iterator, which gave `item`, and handed it on.
    Produce { item: Option<T> },
    /// The handle `who` asked for its next value and got `out`; if it had to
    /// ask the iterator, the iterator gave `item`.
    Next { who: Symbol, item: Option<T>, out: Option<T> },
    /// The handle `who` was forked, which made the handle `child`.
    Fork { who: Symbol, child: Symbol },
    /// The handle `who` was closed.
    Close { who: Symbol },
}

/// The call leads from `pre` to `post`; a call on a handle is made on a live
/// handle.
pub open spec fn call_step<T: Clone>(pre: BusView<T>, call: Call<T>, post: BusView<T>) -> bool {
    match call {
        Call::Produce { item } => advances(pre, item, post),
        Call::Next { who, item, out } => pre.live.contains(who) && reads(
            pre,
            who,
            item,
            post,
            out,
        ),
        Call::Fork { who, child } => {
            &&& pre.live.contains(who)
            &&& pre.issued < symbol_limit()
            &&& branches(pre, who, child, post)
        },
        Call::Close { who } => pre.live.contains(who) && post == after_close(pre, who),
    }
}

/// `calls` were made one after the other, in any order of handles, and led
/// through `states`, from the first to the last.
pub open spec fn is_run<T: Clone>(states: Seq<BusView<T>>, calls: Seq<Call<T>>) -> bool {
    &&& states.len() == calls.len() + 1
    &&& forall|i: int|
        0 <= i < calls.len() ==> call_step(states[i], #[trigger] calls[i], states[i + 1])
}

/// The call is a `next` on the handle `who`.
pub open spec fn is_next_by<T>(call: Call<T>, who: Symbol) -> bool {
    match call {
        Call::Next { who: asked, item, out } => asked == who,
        _ => false,
    }
}

/// The call is a `next` on the handle `who` that returned a value.
pub open spec fn is_read_by<T>(call: Call<T>, who: Symbol) -> bool {
    match call {
        Call::Next { who: asked, item, out } => asked == who && out is Some,
        _ => false,
    }
}

/// How many of `calls` are a `next` on the handle `who`.
pub open spec fn polls_by<T>(calls: Seq<Call<T>>, who: Symbol) -> nat
    decreases calls.len(),
{
    if calls.len() == 0 {
        0
    } else {
        polls_by(calls.drop_last(), who) + if is_next_by(calls.last(), who) {
            1nat
        } else {
            0nat
        }
    }
}

/// How many of `calls` are a `next` on the handle `who` that returned a
/// value.
pub open spec fn reads_by<T>(calls: Seq<Call<T>>, who: Symbol) -> nat
    decreases calls.len(),
{
    if calls.len() == 0 {
        0
    } else {
        reads_by(calls.drop_last(), who) + if is_read_by(calls.last(), who) {
            1nat
        } else {
            0nat
        }
    }
}

/// None of `calls` closes the handle `who`.
pub open spec fn keeps<T>(calls: Seq<Call<T>>, who: Symbol) -> bool {
    forall|i: int| 0 <= i < calls.len() ==> #[trigger] calls[i] != Call::<T>::Close { who }
}

/// A run to its first `upto` calls is a run.
proof fn lemma_run_prefix<T: Clone>(states: Seq<BusView<T>>, calls: Seq<Call<T>>, upto: int)
    requires
        is_run(states, calls),
        0 <= upto <= calls.len(),
    ensures
        is_run(states.take(upto + 1), calls.take(upto)),
        states.take(upto + 1)[0] == states[0],
        states.take(upto + 1).last() == states[upto],
        forall|who: Symbol| keeps(calls, who) ==> keeps(calls.take(upto), who),
{
    let front_states = states.take(upto + 1);
    let front_calls = calls.take(upto);
    assert forall|i: int| 0 <= i < front_calls.len() implies call_step(
        front_states[i],
        #[trigger] front_calls[i],
        front_states[i + 1],
    ) by {
        assert(call_step(states[i], calls[i], states[i + 1]));
    }
    assert forall|who: Symbol| keeps(calls, who) implies keeps(front_calls, who) by {
        assert forall|i: int| 0 <= i < front_calls.len() implies #[trigger] front_calls[i]
            != Call::<T>::Close { who } by {
            assert(calls[i] != Call::<T>::Close { who });
        }
    }
}

/// A run from its call `from` on is a run.
proof fn lemma_run_suffix<T: Clone>(states: Seq<BusView<T>>, calls: Seq<Call<T>>, from: int)
    requires
        is_run(states, calls),
        0 <= from <= calls.len(),
    ensures
        is_run(states.skip(from), calls.skip(from)),
        states.skip(from)[0] == states[from],
        states.skip(from).last() == states.last(),
        forall|who: Symbol| keeps(calls, who) ==> keeps(calls.skip(from), who),
{
    let back_states = states.skip(from);
    let back_calls = calls.skip(from);
    assert forall|i: int| 0 <= i < back_calls.len() implies call_step(
        back_states[i],
        #[trigger] back_calls[i],
        back_states[i + 1],
    ) by {
        assert(call_step(states[from + i], calls[from + i], states[from + i + 1]));
    }
    assert forall|who: Symbol| keeps(calls, who) implies keeps(back_calls, who) by {
        assert forall|i: int| 0 <= i < back_calls.len() implies #[trigger] back_calls[i]
            != Call::<T>::Close { who } by {
            assert(calls[from + i] != Call::<T>::Close { who });
        }
    }
}

/// Where a run has led: the bus is well formed, what was sent at the start
/// is the start of what was sent, and a handle that was live and has not
/// been closed is live and has moved on by one for each value that it got.
pub proof fn law_run<T: Clone>(states: Seq<BusView<T>>, calls: Seq<Call<T>>, id: Symbol)
    requires
        is_run(states, calls),
        states[0].wf(),
        states[0].live.contains(id),
        keeps(calls, id),
    ensures
        states.last().wf(),
        states.last().live.contains(id),
        states[0].sent.is_prefix_of(states.last().sent),
        states.last().cursor(id) == states[0].cursor(id) + reads_by(calls, id),
    decreases calls.len(),
{
    let sent = states[0].sent;
    if calls.len() == 0 {
        assert(sent =~= sent.subrange(0, sent.len() as int));
    } else {
        let upto = calls.len() - 1;
        lemma_run_prefix(states, calls, upto);
        law_run(states.take(upto + 1), calls.take(upto), id);
        assert(calls.take(upto) =~= calls.drop_last());
        let pre = states[upto];
        let post = states[upto + 1];
        assert(call_step(pre, calls[upto], post));
        assert(pre.queues.dom().contains(id));
        match calls[upto] {
            Call::Produce { item } => {
                law_advance(pre, item, post);
            },
            Call::Next { who, item, out } => {
                law_reads(pre, who, item, post, out);
            },
            Call::Fork { who, child } => {
                assert(pre.queues.dom().contains(who));
                law_branch(pre, who, child, post);
            },
            Call::Close { who } => {
                assert(calls[upto] != Call::<T>::Close { who: id });
                law_close(pre, who);
            },
        }
        assert(sent =~= post.sent.subrange(0, sent.len() as int));
    }
}

/// In a run, each value that a handle gets is a copy of the value sent at
/// the handle's place: the place where it stood at the start, moved on by
/// one for each value that it got before. So a handle that was live at the
/// start and has not been closed reads what was sent from its place on, in
/// order, and nothing twice. It gets nothing only where it has read all that
/// was sent and the iterator gives nothing; then the call changes nothing.
pub proof fn law_reads_what_was_sent<T: Clone>(
    states: Seq<BusView<T>>,
    calls: Seq<Call<T>>,
    id: Symbol,
)
    requires
        is_run(states, calls),
        states[0].wf(),
        states[0].live.contains(id),
        keeps(calls, id),
    ensures
        forall|i: int|
            0 <= i < calls.len() ==> match #[trigger] calls[i] {
                Call::Next { who, item, out } => who == id ==> {
                    let at = states[0].cursor(id) + reads_by(calls.take(i), id);
                    match out {
                        Some(value) => 0 <= at < states.last().sent.len() && copy_of(
                            states.last().sent[at],
                            value,
                        ),
                        None => {
                            &&& at == states[i].sent.len()
                            &&& item is None
                            &&& states[i + 1] == states[i]
                        },
                    }
                },
                _ => true,
            },
{
    assert forall|i: int| 0 <= i < calls.len() implies match #[trigger] calls[i] {
        Call::Next { who, item, out } => who == id ==> {
            let at = states[0].cursor(id) + reads_by(calls.take(i), id);
            match out {
                Some(value) => 0 <= at < states.last().sent.len() && copy_of(
                    states.last().sent[at],
                    value,
                ),
                None => {
                    &&& at == states[i].sent.len()
                    &&& item is None
                    &&& states[i + 1] == states[i]
                },
            }
        },
        _ => true,
    } by {
        match calls[i] {
            Call::Next { who, item, out } => {
                if who == id {
                    lemma_run_prefix(states, calls, i);
                    law_run(states.take(i + 1), calls.take(i), id);
                    assert(call_step(states[i], calls[i], states[i + 1]));
                    law_reads(states[i], id, item, states[i + 1], out);
                    lemma_run_suffix(states, calls, i + 1);
                    law_run(states.skip(i + 1), calls.skip(i + 1), id);
                    if out is Some {
                        let at = states[i].cursor(id);
                        let then = states[i + 1].sent;
                        assert(then[at] == then.subrange(0, then.len() as int)[at]);
                    }
                }
            },
            _ => {},
        }
    }
}

/// While a handle has polled no more often than it had values in its
/// backlog at the start of a run, the rest of that backlog stands at the
/// front of its queue.
proof fn lemma_run_front<T: Clone>(states: Seq<BusView<T>>, calls: Seq<Call<T>>, id: Symbol)
    requires
        is_run(states, calls),
        states[0].wf(),
        states[0].live.contains(id),
        keeps(calls, id),
        polls_by(calls, id) <= states[0].queues[id].len(),
    ensures
        states[0].queues[id].skip(polls_by(calls, id) as int).is_prefix_of(
            states.last().queues[id],
        ),
    decreases calls.len(),
{
    let backlog = states[0].queues[id];
    if calls.len() == 0 {
        assert(backlog.skip(0) =~= backlog);
    } else {
        let upto = calls.len() - 1;
        lemma_run_prefix(states, calls, upto);
        assert(calls.take(upto) =~= calls.drop_last());
        law_run(states.take(upto + 1), calls.take(upto), id);
        lemma_run_front(states.take(upto + 1), calls.take(upto), id);
        let pre = states[upto];
        let post = states[upto + 1];
        let polls = polls_by(calls.take(upto), id) as int;
        let rest = backlog.skip(polls);
        assert(rest.is_prefix_of(pre.queues[id]));
        assert(call_step(pre, calls[upto], post));
        assert(pre.queues.dom().contains(id));
        match calls[upto] {
            Call::Produce { item } => {
                law_advance(pre, item, post);
                let later = post.queues[id];
                assert(pre.queues[id].is_prefix_of(later));
                assert(rest =~= later.subrange(0, rest.len() as int));
            },
            Call::Next { who, item, out } => {
                law_reads(pre, who, item, post, out);
                if who == id {
                    assert(rest.len() > 0);
                    assert(backlog.skip(polls + 1) =~= rest.drop_first());
                    assert(rest.drop_first() =~= pre.queues[id].drop_first().subrange(
                        0,
                        rest.len() - 1,
                    ));
                } else {
                    let later = post.queues[id];
                    assert(pre.queues[id].is_prefix_of(later));
                    assert(rest =~= later.subrange(0, rest.len() as int));
                }
            },
            Call::Fork { who, child } => {
                assert(pre.queues.dom().contains(who));
                law_branch(pre, who, child, post);
                assert(post.queues[id] == pre.queues[id]);
            },
            Call::Close { who } => {
                assert(calls[upto] != Call::<T>::Close { who: id });
                law_close(pre, who);
                assert(post.queues[id] == pre.queues[id]);
            },
        }
    }
}

/// In a run, the first polls of a handle that was live at the start and has
/// not been closed give the values of the backlog that it had at the start,
/// in order, each once: the very values, none left out and none repeated.
pub proof fn law_backlog_comes_first<T: Clone>(
    states: Seq<BusView<T>>,
    calls: Seq<Call<T>>,
    id: Symbol,
)
    requires
        is_run(states, calls),
        states[0].wf(),
        states[0].live.contains(id),
        keeps(calls, id),
    ensures
        forall|i: int|
            0 <= i < calls.len() ==> match #[trigger] calls[i] {
                Call::Next { who, item, out } => who == id && polls_by(calls.take(i), id)
                    < states[0].queues[id].len() ==> out == Some(
                    states[0].queues[id][polls_by(calls.take(i), id) as int],
                ),
                _ => true,
            },
{
    let backlog = states[0].queues[id];
    assert forall|i: int| 0 <= i < calls.len() implies match #[trigger] calls[i] {
        Call::Next { who, item, out } => who == id && polls_by(calls.take(i), id) < backlog.len()
            ==> out == Some(backlog[polls_by(calls.take(i), id) as int]),
        _ => true,
    } by {
        match calls[i] {
            Call::Next { who, item, out } => {
                let polls = polls_by(calls.take(i), id) as int;
                if who == id && polls < backlog.len() {
                    lemma_run_prefix(states, calls, i);
                    law_run(states.take(i + 1), calls.take(i), id);
                    lemma_run_front(states.take(i + 1), calls.take(i), id);
                    let rest = backlog.skip(polls);
                    assert(rest.is_prefix_of(states[i].queues[id]));
                    assert(rest[0] == states[i].queues[id].subrange(0, rest.len() as int)[0]);
                    assert(call_step(states[i], calls[i], states[i + 1]));
                    law_reads(states[i], id, item, states[i + 1], out);
                }
            },
            _ => {},
        }
    }
}

/// Fork a handle that has a backlog, and then poll, fork and close handles
/// in any order without closing these two. The new handle starts with a
/// clone of each value of that backlog, in order. As many polls of either
/// handle as the backlog is long give that handle its values, in order,
/// each once: the handle that was forked gets the very values of its
/// backlog, the new handle their clones.
pub proof fn law_fork_copies_backlog<T: Clone>(
    pre: BusView<T>,
    source: Symbol,
    child: Symbol,
    states: Seq<BusView<T>>,
    calls: Seq<Call<T>>,
)
    requires
        pre.wf(),
        call_step(pre, (Call::Fork { who: source, child }), states[0]),
        is_run(states, calls),
        keeps(calls, source),
        keeps(calls, child),
    ensures
        states[0].queues[child].len() == pre.queues[source].len(),
        forall|k: int|
            0 <= k < pre.queues[source].len() ==> cloned(
                pre.queues[source][k],
                #[trigger] states[0].queues[child][k],
            ),
        forall|i: int|
            0 <= i < calls.len() ==> match #[trigger] calls[i] {
                Call::Next { who, item, out } => {
                    let polls = polls_by(calls.take(i), who) as int;
                    &&& who == source && polls < pre.queues[source].len() ==> out == Some(
                        pre.queues[source][polls],
                    )
                    &&& who == child && polls < pre.queues[source].len() ==> out == Some(
                        states[0].queues[child][polls],
                    )
                },
                _ => true,
            },
{
    assert(pre.queues.dom().contains(source));
    law_branch(pre, source, child, states[0]);
    assert(states[0].queues[source] == pre.queues[source]);
    law_backlog_comes_first(states, calls, source);
    law_backlog_comes_first(states, calls, child);
}

/// Fork a handle, and then poll, fork and close handles in any order
/// without closing these two: the new handle reads what was sent from the
/// place of the handle that was forked on, and nothing that lies before it;
/// the handle that was forked reads from its place on as
/// `law_reads_what_was_sent` says of every handle, fork or no fork.
pub proof fn law_fork_reads_from_the_same_place<T: Clone>(
    pre: BusView<T>,
    source: Symbol,
    child: Symbol,
    states: Seq<BusView<T>>,
    calls: Seq<Call<T>>,
)
    requires
        pre.wf(),
        call_step(pre, (Call::Fork { who: source, child }), states[0]),
        is_run(states, calls),
        keeps(calls, source),
        keeps(calls, child),
    ensures
        states[0].cursor(child) == pre.cursor(source),
        states[0].cursor(source) == pre.cursor(source),
        states[0].sent == pre.sent,
        forall|i: int|
            0 <= i < calls.len() ==> match #[trigger] calls[i] {
                Call::Next { who, item, out } => (who == source || who == child) && out is Some
                    ==> {
                    let at = pre.cursor(source) + reads_by(calls.take(i), who);
                    0 <= at < states.last().sent.len() && copy_of(states.last().sent[at], out->0)
                },
                _ => true,
            },
{
    assert(pre.queues.dom().contains(source));
    law_branch(pre, source, child, states[0]);
    law_reads_what_was_sent(states, calls, source);
    law_reads_what_was_sent(states, calls, child);
}

/// Close a handle, whatever it had left to read, and broadcast: every other
/// live handle is still live and gets the value at the end of the backlog
/// that it had, as it would have without the close.
pub proof fn law_close_keeps_delivery<T: Clone>(
    pre: BusView<T>,
    gone: Symbol,
    value: T,
    post: BusView<T>,
    other: Symbol,
)
    requires
        pre.wf(),
        pre.live.contains(other),
        other != gone,
        broadcasts(after_close(pre, gone), value, post),
    ensures
        post.wf(),
        post.live.contains(other),
        post.queues[other].len() == pre.queues[other].len() + 1,
        post.queues[other].drop_last() == pre.queues[other],
        cloned(value, post.queues[other].last()),
        post.cursor(other) == pre.cursor(other),
{
    let mid = after_close(pre, gone);
    law_close(pre, gone);
    assert(pre.queues.dom().contains(other));
    assert(mid.live.contains(other));
    assert(mid.queues[other] == pre.queues[other]);
    assert(mid.queues.dom().contains(other));
    law_broadcast(mid, value, post);
}

} // verus!
