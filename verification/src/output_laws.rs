//! What the handles read of an iterator that yields a given output and then
//! nothing, whatever the order in which they are polled, forked and closed.

use crate::bus_laws::{law_branch, law_close};
use crate::bus_view::{poll_outcome, BusView};
use crate::copies::{clone_is_exact, copy_of, lemma_exact_copy};
use crate::laws::{
    call_step, is_next_by, is_run, keeps, law_advance, law_reads, polls_by, Call,
};
use crate::source_view::{first_of, fresh_bus, produces, takes_next, SourceView};
use crate::symbol::{lemma_limit_is_large, symbol_limit, Symbol};
use vstd::prelude::*;

verus! {

/// `out` is what a handle gets when it stands at place `at` of `values`: a
/// copy of the value there, or nothing at the end.
pub open spec fn yields<T: Clone>(values: Seq<T>, at: int, out: Option<T>) -> bool {
    match out {
        Some(value) => 0 <= at < values.len() && copy_of(values[at], value),
        None => at >= values.len(),
    }
}

/// The smaller of two numbers.
pub open spec fn least(a: int, b: int) -> int {
    if a <= b {
        a
    } else {
        b
    }
}

/// The call leads from `pre` to `post`, and where it asks the iterator, the
/// iterator gives the next pending value, if there is one.
pub open spec fn source_step<T: Clone>(
    pre: SourceView<T>,
    call: Call<T>,
    post: SourceView<T>,
) -> bool {
    match call {
        Call::Produce { item } => item == first_of(pre.pending) && produces(pre, post),
        Call::Next { who, item, out } => {
            &&& pre.bus.live.contains(who)
            &&& poll_outcome(pre.bus, who) is Err ==> item == first_of(pre.pending)
            &&& takes_next(pre, who, post, out)
        },
        _ => call_step(pre.bus, call, post.bus) && post.pending == pre.pending,
    }
}

/// `calls` were made one after the other, in any order of handles, and led
/// through `states`, from the first to the last.
pub open spec fn is_source_run<T: Clone>(states: Seq<SourceView<T>>, calls: Seq<Call<T>>) -> bool {
    &&& states.len() == calls.len() + 1
    &&& forall|i: int|
        0 <= i < calls.len() ==> source_step(states[i], #[trigger] calls[i], states[i + 1])
}

/// What the buses of a run of an iterator with a given output go through is
/// a run: what `laws` says of every run holds of it.
pub proof fn law_source_run_is_run<T: Clone>(states: Seq<SourceView<T>>, calls: Seq<Call<T>>)
    requires
        is_source_run(states, calls),
    ensures
        is_run(Seq::new(states.len(), |i: int| states[i].bus), calls),
{
    let buses = Seq::new(states.len(), |i: int| states[i].bus);
    assert forall|i: int| 0 <= i < calls.len() implies call_step(
        buses[i],
        #[trigger] calls[i],
        buses[i + 1],
    ) by {
        assert(source_step(states[i], calls[i], states[i + 1]));
    }
}

/// One call keeps the iterator's output as a whole what it was: what was
/// sent, then what is pending. A `next` gives the live handle a copy of the
/// value at its place in that output, or nothing at the end of it.
pub proof fn law_source_step<T: Clone>(pre: SourceView<T>, call: Call<T>, post: SourceView<T>)
    requires
        pre.bus.wf(),
        source_step(pre, call, post),
    ensures
        post.bus.wf(),
        post.total() == pre.total(),
        match call {
            Call::Next { who, item, out } => yields(pre.total(), pre.bus.cursor(who), out),
            _ => true,
        },
{
    match call {
        Call::Produce { item } => {
            law_advance(pre.bus, item, post.bus);
            assert(post.total() =~= pre.total());
        },
        Call::Next { who, item, out } => {
            assert(pre.bus.queues.dom().contains(who));
            law_reads(pre.bus, who, first_of(pre.pending), post.bus, out);
            assert(post.total() =~= pre.total());
            if out is Some {
                let at = pre.bus.cursor(who);
                assert(post.total()[at] == post.bus.sent[at]);
            }
        },
        Call::Fork { who, child } => {
            assert(pre.bus.queues.dom().contains(who));
            law_branch(pre.bus, who, child, post.bus);
        },
        Call::Close { who } => {
            law_close(pre.bus, who);
        },
    }
}

/// A run to its first `upto` calls is a run.
proof fn lemma_source_run_prefix<T: Clone>(
    states: Seq<SourceView<T>>,
    calls: Seq<Call<T>>,
    upto: int,
)
    requires
        is_source_run(states, calls),
        0 <= upto <= calls.len(),
    ensures
        is_source_run(states.take(upto + 1), calls.take(upto)),
        states.take(upto + 1)[0] == states[0],
        states.take(upto + 1).last() == states[upto],
        forall|who: Symbol| keeps(calls, who) ==> keeps(calls.take(upto), who),
{
    let front_states = states.take(upto + 1);
    let front_calls = calls.take(upto);
    assert forall|i: int| 0 <= i < front_calls.len() implies source_step(
        front_states[i],
        #[trigger] front_calls[i],
        front_states[i + 1],
    ) by {
        assert(source_step(states[i], calls[i], states[i + 1]));
    }
    assert forall|who: Symbol| keeps(calls, who) implies keeps(front_calls, who) by {
        assert forall|i: int| 0 <= i < front_calls.len() implies #[trigger] front_calls[i]
            != Call::<T>::Close { who } by {
            assert(calls[i] != Call::<T>::Close { who });
        }
    }
}

/// Where a run has led: the bus is well formed, the iterator's output as a
/// whole is what it was, and a handle that was live and has not been closed
/// is live and has moved on by one for each of its polls, up to the end.
pub proof fn law_source_run<T: Clone>(
    states: Seq<SourceView<T>>,
    calls: Seq<Call<T>>,
    id: Symbol,
)
    requires
        is_source_run(states, calls),
        states[0].bus.wf(),
        states[0].bus.live.contains(id),
        keeps(calls, id),
    ensures
        states.last().bus.wf(),
        states.last().total() == states[0].total(),
        states.last().bus.live.contains(id),
        0 <= states[0].bus.cursor(id) <= states[0].total().len(),
        states.last().bus.cursor(id) == least(
            states[0].bus.cursor(id) + polls_by(calls, id),
            states[0].total().len() as int,
        ),
    decreases calls.len(),
{
    assert(states[0].bus.queues.dom().contains(id));
    if calls.len() > 0 {
        let upto = calls.len() - 1;
        lemma_source_run_prefix(states, calls, upto);
        law_source_run(states.take(upto + 1), calls.take(upto), id);
        assert(calls.take(upto) =~= calls.drop_last());
        let pre = states[upto];
        let post = states[upto + 1];
        assert(source_step(pre, calls[upto], post));
        assert(pre.bus.queues.dom().contains(id));
        law_source_step(pre, calls[upto], post);
        assert(post.bus.queues.dom().contains(id) ==> post.bus.wf_at(id));
        match calls[upto] {
            Call::Produce { item } => {
                law_advance(pre.bus, item, post.bus);
            },
            Call::Next { who, item, out } => {
                assert(pre.bus.queues.dom().contains(who));
                law_reads(pre.bus, who, first_of(pre.pending), post.bus, out);
            },
            Call::Fork { who, child } => {
                assert(pre.bus.queues.dom().contains(who));
                law_branch(pre.bus, who, child, post.bus);
            },
            Call::Close { who } => {
                assert(calls[upto] != Call::<T>::Close { who: id });
                law_close(pre.bus, who);
            },
        }
    }
}

/// In a run, each poll of a handle that was live at the start and has not
/// been closed gives a copy of the value at the handle's place in the
/// iterator's output: the place where it stood at the start, moved on by
/// one for each of its earlier polls. Past the end of the output it gives
/// nothing.
pub proof fn law_reads_in_order<T: Clone>(
    states: Seq<SourceView<T>>,
    calls: Seq<Call<T>>,
    id: Symbol,
)
    requires
        is_source_run(states, calls),
        states[0].bus.wf(),
        states[0].bus.live.contains(id),
        keeps(calls, id),
    ensures
        forall|i: int|
            0 <= i < calls.len() ==> match #[trigger] calls[i] {
                Call::Next { who, item, out } => who == id ==> yields(
                    states[0].total(),
                    states[0].bus.cursor(id) + polls_by(calls.take(i), id),
                    out,
                ),
                _ => true,
            },
{
    assert forall|i: int| 0 <= i < calls.len() implies match #[trigger] calls[i] {
        Call::Next { who, item, out } => who == id ==> yields(
            states[0].total(),
            states[0].bus.cursor(id) + polls_by(calls.take(i), id),
            out,
        ),
        _ => true,
    } by {
        match calls[i] {
            Call::Next { who, item, out } => {
                if who == id {
                    lemma_source_run_prefix(states, calls, i);
                    law_source_run(states.take(i + 1), calls.take(i), id);
                    assert(source_step(states[i], calls[i], states[i + 1]));
                    law_source_step(states[i], calls[i], states[i + 1]);
                }
            },
            _ => {},
        }
    }
}

/// A bus right after wrapping is well formed, and its one handle stands at
/// the start.
pub proof fn law_fresh<T: Clone>(bus: BusView<T>, id: Symbol)
    requires
        fresh_bus(bus, id),
    ensures
        bus.wf(),
        bus.live.contains(id),
        bus.cursor(id) == 0,
        bus.issued < symbol_limit(),
{
    lemma_limit_is_large();
    assert(bus.queues.dom() =~= Set::<Symbol>::empty().insert(id));
    assert forall|other: Symbol| #[trigger] bus.queues.dom().contains(other) implies bus.wf_at(
        other,
    ) by {
        assert(other == id);
    }
}

/// Where every call is a poll of one handle, as many polls came before a
/// call as calls.
proof fn lemma_only_polls<T>(calls: Seq<Call<T>>, id: Symbol)
    requires
        forall|i: int| 0 <= i < calls.len() ==> is_next_by(#[trigger] calls[i], id),
    ensures
        polls_by(calls, id) == calls.len(),
        keeps(calls, id),
    decreases calls.len(),
{
    if calls.len() > 0 {
        let front = calls.drop_last();
        assert forall|i: int| 0 <= i < front.len() implies is_next_by(#[trigger] front[i], id) by {
            assert(front[i] == calls[i]);
        }
        lemma_only_polls(front, id);
        assert(is_next_by(calls[calls.len() - 1], id));
    }
    assert forall|i: int| 0 <= i < calls.len() implies #[trigger] calls[i] != Call::<T>::Close {
        who: id,
    } by {
        assert(is_next_by(calls[i], id));
    }
}

/// Wrap an iterator that yields `output`, and poll the first handle any
/// number of times: the polls give copies of the values of `output` in
/// order, one each, and from then on nothing, every time. The iterator is
/// never made to yield more than `output`, and a poll that gave nothing
/// changed nothing.
pub proof fn law_first_handle_reads_all<T: Clone>(
    output: Seq<T>,
    id: Symbol,
    states: Seq<SourceView<T>>,
    calls: Seq<Call<T>>,
)
    requires
        is_source_run(states, calls),
        fresh_bus(states[0].bus, id),
        states[0].pending == output,
        forall|i: int| 0 <= i < calls.len() ==> is_next_by(#[trigger] calls[i], id),
    ensures
        forall|i: int|
            0 <= i < calls.len() ==> match #[trigger] calls[i] {
                Call::Next { who, item, out } => yields(output, i, out),
                _ => false,
            },
        forall|i: int| 0 <= i < states.len() ==> (#[trigger] states[i]).total() == output,
        forall|i: int|
            output.len() <= i < calls.len() ==> #[trigger] states[i + 1] == states[i],
{
    law_fresh(states[0].bus, id);
    lemma_only_polls(calls, id);
    law_reads_in_order(states, calls, id);
    assert(states[0].total() =~= output);
    assert forall|i: int| 0 <= i < calls.len() implies match #[trigger] calls[i] {
        Call::Next { who, item, out } => yields(output, i, out),
        _ => false,
    } by {
        assert(is_next_by(calls[i], id));
        assert forall|k: int| 0 <= k < calls.take(i).len() implies is_next_by(
            #[trigger] calls.take(i)[k],
            id,
        ) by {
            assert(calls.take(i)[k] == calls[k]);
        }
        lemma_only_polls(calls.take(i), id);
    }
    assert forall|i: int| 0 <= i < states.len() implies (#[trigger] states[i]).total()
        == output by {
        lemma_source_run_prefix(states, calls, i);
        law_source_run(states.take(i + 1), calls.take(i), id);
    }
    assert forall|i: int| output.len() <= i < calls.len() implies #[trigger] states[i + 1]
        == states[i] by {
        lemma_source_run_prefix(states, calls, i);
        law_source_run(states.take(i + 1), calls.take(i), id);
        assert(source_step(states[i], calls[i], states[i + 1]));
        assert(is_next_by(calls[i], id));
        match calls[i] {
            Call::Next { who, item, out } => {
                law_source_step(states[i], calls[i], states[i + 1]);
                law_reads(states[i].bus, id, first_of(states[i].pending), states[i + 1].bus, out);
            },
            _ => {},
        }
    }
}

/// Fork a handle that stands at some place, and then poll, fork and close
/// handles in any order without closing these two: the new handle reads
/// copies of the values from that place on, in order, and none of the
/// values before it; the handle that was forked reads the same, as
/// `law_reads_in_order` says of it where no fork has been made.
pub proof fn law_fork_reads_the_rest<T: Clone>(
    pre: SourceView<T>,
    source: Symbol,
    child: Symbol,
    states: Seq<SourceView<T>>,
    calls: Seq<Call<T>>,
)
    requires
        pre.bus.wf(),
        source_step(pre, (Call::Fork { who: source, child }), states[0]),
        is_source_run(states, calls),
        keeps(calls, source),
        keeps(calls, child),
    ensures
        forall|i: int|
            0 <= i < calls.len() ==> match #[trigger] calls[i] {
                Call::Next { who, item, out } => who == source || who == child ==> yields(
                    pre.total(),
                    pre.bus.cursor(source) + polls_by(calls.take(i), who),
                    out,
                ),
                _ => true,
            },
{
    assert(pre.bus.queues.dom().contains(source));
    law_branch(pre.bus, source, child, states[0].bus);
    law_reads_in_order(states, calls, source);
    law_reads_in_order(states, calls, child);
}

/// Fork the first handle before anything was read, and then poll, fork and
/// close handles in any order without closing these two: each of the two
/// reads copies of all the values of `output` in order, and then nothing.
pub proof fn law_fork_at_start_reads_all<T: Clone>(
    output: Seq<T>,
    start: SourceView<T>,
    first: Symbol,
    second: Symbol,
    states: Seq<SourceView<T>>,
    calls: Seq<Call<T>>,
)
    requires
        fresh_bus(start.bus, first),
        start.pending == output,
        source_step(start, (Call::Fork { who: first, child: second }), states[0]),
        is_source_run(states, calls),
        keeps(calls, first),
        keeps(calls, second),
    ensures
        forall|i: int|
            0 <= i < calls.len() ==> match #[trigger] calls[i] {
                Call::Next { who, item, out } => who == first || who == second ==> yields(
                    output,
                    polls_by(calls.take(i), who) as int,
                    out,
                ),
                _ => true,
            },
{
    law_fresh(start.bus, first);
    assert(start.total() =~= output);
    law_fork_reads_the_rest(start, first, second, states, calls);
}

/// Where clones are exact, what a handle gets at a place is the value there.
pub proof fn law_exact_clones<T: Clone>(values: Seq<T>, at: int, out: Option<T>)
    requires
        clone_is_exact::<T>(),
        yields(values, at, out),
    ensures
        out == if 0 <= at < values.len() {
            Some(values[at])
        } else {
            None
        },
{
    if let Some(value) = out {
        lemma_exact_copy(values[at], value);
    }
}

} // verus!
