//! The bus: a registry with one queue for each receiver, which hands every
//! value broadcast to every live receiver.

use crate::bus_view::{
    after_close, after_poll, branches, broadcasts, poll_outcome, registers, BusView,
};
use crate::copies::{copies_of, copy_of, lemma_copy_of_itself, lemma_copy_then_clone};
use crate::symbol::{symbol_limit, CounterStruct, Symbol};
use std::collections::VecDeque;
use std::marker::PhantomData;
use vstd::prelude::*;

verus! {

/// Why a poll gave no value.
#[derive(Debug, Clone, Copy, PartialEq, Eq, Structural)]
pub enum TryRecvError {
    /// The receiver is live and its backlog is empty.
    Empty,
    /// The receiver is not live on this bus.
    Disconnected,
}

/// A value that could not be delivered to a closed receiver.
#[derive(Debug)]
pub struct SendError<T>(pub T);

/// The registry: one queue for each receiver that was ever registered.
pub struct Bus<T: Clone> {
    ids: CounterStruct,
    channels: Vec<Channel<T>>,
    sent: Ghost<Seq<T>>,
}

impl<T: Clone> View for Bus<T> {
    type V = BusView<T>;

    /// What the bus holds: all that was sent, and each receiver's backlog.
    closed spec fn view(&self) -> BusView<T> {
        view_of(self.channels@, self.sent@, self.ids.value())
    }
}

impl<T: Clone> Bus<T> {
    /// Holds of every bus at every moment.
    #[verifier::type_invariant]
    spec fn inv(&self) -> bool {
        inv_of(self.channels@, self.sent@, self.ids.value())
    }

    /// The view of a bus is well formed.
    proof fn lemma_wf(&self)
        requires
            self.inv(),
        ensures
            self@.wf(),
    {
        lemma_view_wf(self.channels@, self.sent@, self.ids.value());
    }

    /// Tells the caller that this bus is well formed, as every bus is. It
    /// does nothing when it runs.
    pub fn well_formed(&self)
        ensures
            self@.wf(),
    {
        proof {
            use_type_invariant(self);
            self.lemma_wf();
        }
    }

    /// Whether the bus can still register a receiver.
    pub fn has_room(&self) -> (room: bool)
        ensures
            room == (self@.issued < symbol_limit()),
    {
        proof {
            self.ids.lemma_within_limit();
        }
        !self.ids.is_exhausted()
    }

    /// Whether `receiver` is registered on this bus.
    pub fn is_registered(&self, receiver: &BusReceiver<T>) -> (found: bool)
        ensures
            found == self@.queues.dom().contains(receiver.id()),
    {
        find(&self.channels, &receiver.id).is_some()
    }

    /// Registers a new receiver with an empty queue: it will read what is
    /// broadcast from now on.
    pub fn add_rx(&mut self) -> (receiver: BusReceiver<T>)
        requires
            old(self)@.issued < symbol_limit(),
        ensures
            registers(old(self)@, receiver.id(), final(self)@),
            final(self)@.wf(),
    {
        proof {
            use_type_invariant(&*self);
        }
        let mut channels: Vec<Channel<T>> = Vec::new();
        std::mem::swap(&mut channels, &mut self.channels);
        let mut ids = self.ids;
        let id = Symbol::new(&mut ids);
        let ghost before = channels@;
        channels.push(Channel { id: id.clone(), buffer: VecDeque::new(), connected: true });
        proof {
            lemma_pushed(before, channels@.last(), self.sent@, self.ids.value());
            assert(channels@ =~= before.push(channels@.last()));
        }
        self.ids = ids;
        self.channels = channels;
        proof {
            self.lemma_wf();
        }
        BusReceiver { id, marker: PhantomData }
    }

    /// Hands a copy of `value` to every live receiver; the last channel gets
    /// `value` itself. A closed receiver stops nothing: the others still get
    /// their copies, and the outcome holds one error for each closed
    /// receiver, with the copy that could not be delivered.
    pub fn broadcast(&mut self, value: T) -> (outcome: Result<(), Vec<SendError<T>>>)
        ensures
            broadcasts(old(self)@, value, final(self)@),
            final(self)@.wf(),
            outcome is Ok <==> old(self)@.stale().is_empty(),
            match outcome {
                Ok(_) => true,
                Err(errors) => {
                    &&& errors@.len() == old(self)@.stale().len()
                    &&& forall|k: int|
                        0 <= k < errors@.len() ==> cloned(value, (#[trigger] errors@[k]).0)
                },
            },
    {
        proof {
            use_type_invariant(&*self);
        }
        let mut channels: Vec<Channel<T>> = Vec::new();
        std::mem::swap(&mut channels, &mut self.channels);
        let ghost before = channels@;
        let ghost mut failed: Seq<Symbol> = Seq::empty();
        let mut errors: Vec<SendError<T>> = Vec::new();
        let count = channels.len();
        let last = if count > 0 {
            count - 1
        } else {
            0
        };
        let mut i: usize = 0;
        while i < last
            invariant
                i <= last,
                last < count || (last == 0 && count == 0),
                count == before.len(),
                channels@.len() == count,
                distinct(before),
                forall|j: int| 0 <= j < i ==> delivered(before[j], #[trigger] channels@[j], value),
                forall|j: int| i <= j < count ==> #[trigger] channels@[j] == before[j],
                reported(before, i as int, failed),
                errors@.len() == failed.len(),
                forall|k: int| 0 <= k < errors@.len() ==> cloned(value, (#[trigger] errors@[k]).0),
            decreases last - i,
        {
            let copy = value.clone();
            let ghost earlier = channels@;
            deliver(&mut channels[i], copy, &mut errors);
            proof {
                let now = channels@[i as int];
                assert(channels@ =~= earlier.update(i as int, now));
                assert(now.buffer@.drop_last() =~= before[i as int].buffer@
                    || !before[i as int].connected);
                failed = lemma_reported(before, i as int, failed);
            }
            i += 1;
        }
        if count > 0 {
            let ghost earlier = channels@;
            deliver(&mut channels[last], value, &mut errors);
            proof {
                let now = channels@[last as int];
                assert(channels@ =~= earlier.update(last as int, now));
                assert(now.buffer@.drop_last() =~= before[last as int].buffer@
                    || !before[last as int].connected);
                failed = lemma_reported(before, last as int, failed);
            }
        }
        proof {
            lemma_broadcast(before, channels@, self.sent@, value, self.ids.value());
            lemma_stale(before, failed, self.sent@, self.ids.value());
        }
        self.sent = Ghost(self.sent@.push(value));
        self.channels = channels;
        proof {
            self.lemma_wf();
        }
        if errors.len() > 0 {
            Err(errors)
        } else {
            Ok(())
        }
    }

    /// Registers a new receiver whose queue starts as a copy of the unread
    /// backlog of `prev`, which keeps its own backlog untouched.
    pub fn branch_off(&mut self, prev: &BusReceiver<T>) -> (receiver: BusReceiver<T>)
        requires
            old(self)@.queues.dom().contains(prev.id()),
            old(self)@.issued < symbol_limit(),
        ensures
            branches(old(self)@, prev.id(), receiver.id(), final(self)@),
            final(self)@.wf(),
    {
        proof {
            use_type_invariant(&*self);
        }
        let mut channels: Vec<Channel<T>> = Vec::new();
        std::mem::swap(&mut channels, &mut self.channels);
        let mut ids = self.ids;
        let id = Symbol::new(&mut ids);
        let ghost before = channels@;
        let mut buffer: VecDeque<T> = VecDeque::new();
        match find(&channels, &prev.id) {
            None => {},
            Some(i) => {
                proof {
                    lemma_slot(before, i as int);
                }
                let backlog = &channels[i].buffer;
                let mut k: usize = 0;
                while k < backlog.len()
                    invariant
                        k <= backlog@.len(),
                        buffer@.len() == k,
                        forall|j: int| 0 <= j < k ==> cloned(backlog@[j], #[trigger] buffer@[j]),
                    decreases backlog@.len() - k,
                {
                    let item = backlog[k].clone();
                    buffer.push_back(item);
                    k += 1;
                }
                proof {
                    lemma_copied_backlog(self.sent@, backlog@, buffer@);
                }
            },
        }
        channels.push(Channel { id: id.clone(), buffer, connected: true });
        proof {
            lemma_pushed(before, channels@.last(), self.sent@, self.ids.value());
            assert(channels@ =~= before.push(channels@.last()));
        }
        self.ids = ids;
        self.channels = channels;
        proof {
            self.lemma_wf();
        }
        BusReceiver { id, marker: PhantomData }
    }

    /// Takes the front of the backlog of the receiver `id`, if it is live and
    /// has one.
    pub(crate) fn poll(&mut self, id: &Symbol) -> (outcome: Result<T, TryRecvError>)
        ensures
            outcome == poll_outcome(old(self)@, *id),
            final(self)@ == after_poll(old(self)@, *id),
            final(self)@.wf(),
    {
        proof {
            use_type_invariant(&*self);
        }
        let mut channels: Vec<Channel<T>> = Vec::new();
        std::mem::swap(&mut channels, &mut self.channels);
        let ghost before = channels@;
        let outcome = match find(&channels, id) {
            None => Err(TryRecvError::Disconnected),
            Some(i) => {
                proof {
                    lemma_slot(before, i as int);
                }
                if !channels[i].connected {
                    Err(TryRecvError::Disconnected)
                } else {
                    let front = channels[i].buffer.pop_front();
                    proof {
                        let now = channels@[i as int];
                        assert(channels@ =~= before.update(i as int, now));
                        assert(now.id == before[i as int].id);
                        assert(now.connected);
                        lemma_updated(before, i as int, now, self.sent@, self.ids.value());
                        let pre = view_of(before, self.sent@, self.ids.value());
                        if front is None {
                            assert(pre.queues.insert(*id, now.buffer@) =~= pre.queues);
                        } else {
                            lemma_shorter_backlog(self.sent@, before[i as int].buffer@);
                            assert(now.buffer@ =~= before[i as int].buffer@.drop_first());
                        }
                        assert(pre.live.insert(*id) =~= pre.live);
                    }
                    match front {
                        None => Err(TryRecvError::Empty),
                        Some(value) => Ok(value),
                    }
                }
            },
        };
        self.channels = channels;
        proof {
            self.lemma_wf();
        }
        outcome
    }

    /// Closes the receiver `id`: its backlog is dropped, and from now on a
    /// broadcast reports that nothing can be delivered to it.
    pub(crate) fn close(&mut self, id: &Symbol)
        ensures
            final(self)@ == after_close(old(self)@, *id),
            final(self)@.wf(),
    {
        proof {
            use_type_invariant(&*self);
        }
        let mut channels: Vec<Channel<T>> = Vec::new();
        std::mem::swap(&mut channels, &mut self.channels);
        let ghost before = channels@;
        match find(&channels, id) {
            None => {},
            Some(i) => {
                proof {
                    lemma_slot(before, i as int);
                }
                if channels[i].connected {
                    channels[i].connected = false;
                    channels[i].buffer.clear();
                    proof {
                        let now = channels@[i as int];
                        assert(channels@ =~= before.update(i as int, now));
                        lemma_updated(before, i as int, now, self.sent@, self.ids.value());
                    }
                }
            },
        }
        self.channels = channels;
        proof {
            self.lemma_wf();
        }
    }
}

impl<T: Clone> Default for Bus<T> {
    /// A bus without receivers, on which nothing was sent.
    fn default() -> (bus: Self)
        ensures
            bus@.sent == Seq::<T>::empty(),
            bus@.queues == Map::<Symbol, Seq<T>>::empty(),
            bus@.live == Set::<Symbol>::empty(),
            bus@.issued == 0,
            bus@.wf(),
    {
        let bus = Bus {
            ids: CounterStruct::new(),
            channels: Vec::new(),
            sent: Ghost(Seq::empty()),
        };
        proof {
            bus.lemma_wf();
        }
        assert(bus@.queues =~= Map::<Symbol, Seq<T>>::empty());
        assert(bus@.live =~= Set::<Symbol>::empty());
        bus
    }
}

/// The reading end of one queue of a bus.
pub struct BusReceiver<T: Clone> {
    id: Symbol,
    marker: PhantomData<T>,
}

impl<T: Clone> BusReceiver<T> {
    /// The identifier under which the bus keeps this receiver's queue.
    pub closed spec fn id(&self) -> Symbol {
        self.id
    }

    /// Takes the oldest unread value from this receiver's queue on `bus`,
    /// without waiting for one.
    pub fn try_recv(&self, bus: &mut Bus<T>) -> (outcome: Result<T, TryRecvError>)
        ensures
            outcome == poll_outcome(old(bus)@, self.id()),
            final(bus)@ == after_poll(old(bus)@, self.id()),
            final(bus)@.wf(),
    {
        bus.poll(&self.id)
    }

    /// Gives this receiver up: `bus` drops its backlog and delivers nothing
    /// more to it.
    pub fn close(self, bus: &mut Bus<T>)
        ensures
            final(bus)@ == after_close(old(bus)@, self.id()),
            final(bus)@.wf(),
    {
        bus.close(&self.id)
    }
}

/// One receiver's entry in the registry.
struct Channel<T> {
    /// The receiver's identifier.
    id: Symbol,
    /// What was broadcast to the receiver and not yet read, oldest first.
    buffer: VecDeque<T>,
    /// Whether the receiver has not been closed.
    connected: bool,
}

/// The place of the channel with the identifier `id`, if there is one.
fn find<T>(channels: &Vec<Channel<T>>, id: &Symbol) -> (found: Option<usize>)
    ensures
        match found {
            Some(i) => i < channels.len() && channels[i as int].id == *id,
            None => !has_id(channels@, *id),
        },
{
    let mut i: usize = 0;
    while i < channels.len()
        invariant
            i <= channels.len(),
            forall|j: int| 0 <= j < i ==> (#[trigger] channels[j]).id != *id,
        decreases channels.len() - i,
    {
        if channels[i].id == *id {
            return Some(i);
        }
        i += 1;
    }
    None
}

/// Puts `item` at the end of the channel's queue, or among the errors if the
/// channel is closed.
fn deliver<T>(channel: &mut Channel<T>, item: T, errors: &mut Vec<SendError<T>>)
    ensures
        final(channel).id == old(channel).id,
        final(channel).connected == old(channel).connected,
        old(channel).connected ==> final(channel).buffer@ == old(channel).buffer@.push(item)
            && final(errors)@ == old(errors)@,
        !old(channel).connected ==> final(channel).buffer@ == old(channel).buffer@
            && final(errors)@ == old(errors)@.push(SendError(item)),
{
    if channel.connected {
        channel.buffer.push_back(item);
    } else {
        errors.push(SendError(item));
    }
}

/// Some channel has the identifier `id`.
spec fn has_id<T>(channels: Seq<Channel<T>>, id: Symbol) -> bool {
    exists|i: int| 0 <= i < channels.len() && (#[trigger] channels[i]).id == id
}

/// The place of a channel with the identifier `id`.
spec fn slot<T>(channels: Seq<Channel<T>>, id: Symbol) -> int {
    choose|i: int| 0 <= i < channels.len() && (#[trigger] channels[i]).id == id
}

/// No two channels have the same identifier.
spec fn distinct<T>(channels: Seq<Channel<T>>) -> bool {
    forall|i: int, j: int|
        0 <= i < j < channels.len() ==> (#[trigger] channels[i]).id != (#[trigger] channels[j]).id
}

/// The view of a bus with these channels.
spec fn view_of<T>(channels: Seq<Channel<T>>, sent: Seq<T>, issued: nat) -> BusView<T> {
    BusView {
        sent,
        queues: Map::new(
            |id: Symbol| has_id(channels, id),
            |id: Symbol| channels[slot(channels, id)].buffer@,
        ),
        live: Set::new(|id: Symbol| has_id(channels, id) && channels[slot(channels, id)].connected),
        issued,
    }
}

/// What the representation of a bus keeps: identifiers are distinct and
/// below the counter, a buffer holds copies of the latest values sent, and
/// a closed channel has an empty buffer.
spec fn inv_of<T: Clone>(channels: Seq<Channel<T>>, sent: Seq<T>, issued: nat) -> bool {
    &&& distinct(channels)
    &&& issued <= symbol_limit()
    &&& forall|i: int|
        0 <= i < channels.len() ==> {
            let c = #[trigger] channels[i];
            &&& c.id.value() < issued
            &&& c.buffer@.len() <= sent.len()
            &&& copies_of(sent.subrange(sent.len() - c.buffer@.len(), sent.len() as int), c.buffer@)
            &&& !c.connected ==> c.buffer@.len() == 0
        }
}

/// `post` is the channel `pre` after a copy of `value` was handed to it.
spec fn delivered<T: Clone>(pre: Channel<T>, post: Channel<T>, value: T) -> bool {
    &&& post.id == pre.id
    &&& post.connected == pre.connected
    &&& if pre.connected {
        &&& post.buffer@.len() == pre.buffer@.len() + 1
        &&& post.buffer@.drop_last() == pre.buffer@
        &&& cloned(value, post.buffer@.last())
    } else {
        post.buffer@ == pre.buffer@
    }
}

/// `failed` lists, each once, the identifiers of the closed channels among
/// the first `upto`.
spec fn reported<T>(channels: Seq<Channel<T>>, upto: int, failed: Seq<Symbol>) -> bool {
    &&& failed.no_duplicates()
    &&& forall|id: Symbol|
        failed.contains(id) <==> exists|j: int|
            0 <= j < upto && (#[trigger] channels[j]).id == id && !channels[j].connected
}

/// Where no identifier occurs twice, a channel's identifier is found at the
/// channel's own place.
proof fn lemma_slot<T>(channels: Seq<Channel<T>>, i: int)
    requires
        distinct(channels),
        0 <= i < channels.len(),
    ensures
        has_id(channels, channels[i].id),
        slot(channels, channels[i].id) == i,
{
    let id = channels[i].id;
    let j = slot(channels, id);
    assert(0 <= j < channels.len() && channels[j].id == id);
    if j < i {
        assert(channels[j].id != channels[i].id);
    } else if i < j {
        assert(channels[i].id != channels[j].id);
    }
}

/// Two sequences of channels with the same identifiers at the same places
/// keep, if the first has no identifier twice, each identifier at one place.
proof fn lemma_same_ids<T>(channels: Seq<Channel<T>>, changed: Seq<Channel<T>>)
    requires
        distinct(channels),
        changed.len() == channels.len(),
        forall|k: int| 0 <= k < channels.len() ==> (#[trigger] changed[k]).id == channels[k].id,
    ensures
        distinct(changed),
        forall|id: Symbol| has_id(changed, id) == has_id(channels, id),
        forall|id: Symbol| has_id(channels, id) ==> slot(changed, id) == slot(channels, id),
{
    assert forall|a: int, b: int| 0 <= a < b < changed.len() implies (#[trigger] changed[a]).id
        != (#[trigger] changed[b]).id by {
        assert(channels[a].id != channels[b].id);
    }
    assert forall|id: Symbol| has_id(changed, id) == has_id(channels, id) by {
        if has_id(changed, id) {
            let k = slot(changed, id);
            assert(channels[k].id == id);
        }
        if has_id(channels, id) {
            let k = slot(channels, id);
            assert(changed[k].id == id);
        }
    }
    assert forall|id: Symbol| has_id(channels, id) implies slot(changed, id) == slot(
        channels,
        id,
    ) by {
        let k = slot(channels, id);
        assert(changed[k].id == id);
        lemma_slot(changed, k);
    }
}

/// The identifiers of a sequence of channels are finitely many.
proof fn lemma_finite_ids<T>(channels: Seq<Channel<T>>)
    ensures
        Set::new(|id: Symbol| has_id(channels, id)).finite(),
    decreases channels.len(),
{
    let ids = Set::new(|id: Symbol| has_id(channels, id));
    if channels.len() == 0 {
        assert(ids =~= Set::empty());
    } else {
        let front = channels.drop_last();
        lemma_finite_ids(front);
        let front_ids = Set::new(|id: Symbol| has_id(front, id));
        assert forall|id: Symbol| ids.contains(id) == front_ids.insert(
            channels.last().id,
        ).contains(id) by {
            if has_id(channels, id) {
                let i = slot(channels, id);
                if i < channels.len() - 1 {
                    assert(front[i].id == id);
                }
            }
            if has_id(front, id) {
                let i = slot(front, id);
                assert(channels[i].id == id);
            }
            if id == channels.last().id {
                assert(channels[channels.len() - 1].id == id);
            }
        }
        assert(ids =~= front_ids.insert(channels.last().id));
    }
}

/// What the representation keeps makes the view well formed.
proof fn lemma_view_wf<T: Clone>(channels: Seq<Channel<T>>, sent: Seq<T>, issued: nat)
    requires
        inv_of(channels, sent, issued),
    ensures
        view_of(channels, sent, issued).wf(),
{
    let v = view_of(channels, sent, issued);
    lemma_finite_ids(channels);
    assert(v.queues.dom() =~= Set::new(|id: Symbol| has_id(channels, id)));
    assert forall|id: Symbol| #[trigger] v.queues.dom().contains(id) implies v.wf_at(id) by {
        let i = slot(channels, id);
        assert(channels[i].id == id);
    }
}

/// Appending a channel with a fresh identifier adds its queue to the view
/// and leaves the other queues as they were.
proof fn lemma_pushed<T: Clone>(
    channels: Seq<Channel<T>>,
    channel: Channel<T>,
    sent: Seq<T>,
    issued: nat,
)
    requires
        inv_of(channels, sent, issued),
        channel.id.value() == issued,
    ensures
        distinct(channels.push(channel)),
        !has_id(channels, channel.id),
        view_of(channels.push(channel), sent, issued).queues == view_of(
            channels,
            sent,
            issued,
        ).queues.insert(channel.id, channel.buffer@),
        channel.connected ==> view_of(channels.push(channel), sent, issued).live == view_of(
            channels,
            sent,
            issued,
        ).live.insert(channel.id),
{
    let longer = channels.push(channel);
    let pre = view_of(channels, sent, issued);
    let post = view_of(longer, sent, issued);
    if has_id(channels, channel.id) {
        let i = slot(channels, channel.id);
        assert(channels[i].id.value() < issued);
    }
    assert(distinct(longer)) by {
        assert forall|i: int, j: int| 0 <= i < j < longer.len() implies (#[trigger] longer[i]).id
            != (#[trigger] longer[j]).id by {
            if j < channels.len() {
                assert(channels[i].id != channels[j].id);
            } else {
                assert(channels[i].id.value() < issued);
            }
        }
    }
    assert forall|id: Symbol| has_id(longer, id) == (has_id(channels, id) || id
        == channel.id) by {
        if has_id(longer, id) {
            let i = slot(longer, id);
            if i < channels.len() {
                assert(channels[i].id == id);
            }
        }
        if has_id(channels, id) {
            let i = slot(channels, id);
            assert(longer[i].id == id);
        }
        if id == channel.id {
            assert(longer[channels.len() as int].id == id);
        }
    }
    assert forall|id: Symbol| has_id(channels, id) implies longer[slot(longer, id)]
        == channels[slot(channels, id)] by {
        let i = slot(channels, id);
        assert(longer[i].id == id);
        lemma_slot(longer, i);
    }
    lemma_slot(longer, channels.len() as int);
    assert(post.queues =~= pre.queues.insert(channel.id, channel.buffer@));
    if channel.connected {
        assert(post.live =~= pre.live.insert(channel.id));
    }
}

/// Replacing a channel by one with the same identifier replaces its queue in
/// the view and leaves the other queues as they were.
proof fn lemma_updated<T: Clone>(
    channels: Seq<Channel<T>>,
    i: int,
    channel: Channel<T>,
    sent: Seq<T>,
    issued: nat,
)
    requires
        distinct(channels),
        0 <= i < channels.len(),
        channel.id == channels[i].id,
    ensures
        distinct(channels.update(i, channel)),
        view_of(channels.update(i, channel), sent, issued).queues == view_of(
            channels,
            sent,
            issued,
        ).queues.insert(channel.id, channel.buffer@),
        view_of(channels.update(i, channel), sent, issued).live == if channel.connected {
            view_of(channels, sent, issued).live.insert(channel.id)
        } else {
            view_of(channels, sent, issued).live.remove(channel.id)
        },
{
    let changed = channels.update(i, channel);
    let pre = view_of(channels, sent, issued);
    let post = view_of(changed, sent, issued);
    lemma_same_ids(channels, changed);
    lemma_slot(changed, i);
    assert forall|id: Symbol| has_id(channels, id) && id != channel.id implies changed[slot(
        changed,
        id,
    )] == channels[slot(channels, id)] by {
        let k = slot(channels, id);
        assert(channels[k].id == id);
    }
    assert(post.queues =~= pre.queues.insert(channel.id, channel.buffer@));
    if channel.connected {
        assert(post.live =~= pre.live.insert(channel.id));
    } else {
        assert(post.live =~= pre.live.remove(channel.id));
    }
}

/// A backlog that holds copies of the latest values sent still does when
/// its front is taken away.
proof fn lemma_shorter_backlog<T: Clone>(sent: Seq<T>, backlog: Seq<T>)
    requires
        0 < backlog.len() <= sent.len(),
        copies_of(sent.subrange(sent.len() - backlog.len(), sent.len() as int), backlog),
    ensures
        copies_of(
            sent.subrange(sent.len() - backlog.drop_first().len(), sent.len() as int),
            backlog.drop_first(),
        ),
{
    let rest = backlog.drop_first();
    let unread = sent.subrange(sent.len() - backlog.len(), sent.len() as int);
    let later = sent.subrange(sent.len() - rest.len(), sent.len() as int);
    assert forall|k: int| 0 <= k < later.len() implies copy_of(later[k], #[trigger] rest[k]) by {
        assert(later[k] == unread[k + 1]);
        assert(rest[k] == backlog[k + 1]);
    }
}

/// Clones of a backlog that holds copies of the latest values sent are
/// copies of those values too.
proof fn lemma_copied_backlog<T: Clone>(sent: Seq<T>, backlog: Seq<T>, clones: Seq<T>)
    requires
        backlog.len() <= sent.len(),
        copies_of(sent.subrange(sent.len() - backlog.len(), sent.len() as int), backlog),
        clones.len() == backlog.len(),
        forall|j: int| 0 <= j < backlog.len() ==> cloned(backlog[j], #[trigger] clones[j]),
    ensures
        copies_of(sent.subrange(sent.len() - clones.len(), sent.len() as int), clones),
{
    let unread = sent.subrange(sent.len() - backlog.len(), sent.len() as int);
    assert forall|j: int|
        0 <= j < unread.len() implies copy_of(unread[j], #[trigger] clones[j]) by {
        assert(copy_of(unread[j], backlog[j]));
        lemma_copy_then_clone(unread[j], backlog[j], clones[j]);
    }
}

/// Handing a copy of `value` to every channel is a broadcast in the view, and
/// keeps what holds of every bus.
proof fn lemma_broadcast<T: Clone>(
    before: Seq<Channel<T>>,
    after: Seq<Channel<T>>,
    sent: Seq<T>,
    value: T,
    issued: nat,
)
    requires
        inv_of(before, sent, issued),
        after.len() == before.len(),
        forall|j: int| 0 <= j < before.len() ==> delivered(before[j], #[trigger] after[j], value),
    ensures
        inv_of(after, sent.push(value), issued),
        broadcasts(
            view_of(before, sent, issued),
            value,
            view_of(after, sent.push(value), issued),
        ),
{
    let longer = sent.push(value);
    let pre = view_of(before, sent, issued);
    let post = view_of(after, longer, issued);
    assert forall|k: int| 0 <= k < before.len() implies (#[trigger] after[k]).id
        == before[k].id by {
        assert(delivered(before[k], after[k], value));
    }
    lemma_same_ids(before, after);
    assert forall|i: int| 0 <= i < after.len() implies {
        let c = #[trigger] after[i];
        &&& c.id.value() < issued
        &&& c.buffer@.len() <= longer.len()
        &&& copies_of(
            longer.subrange(longer.len() - c.buffer@.len(), longer.len() as int),
            c.buffer@,
        )
        &&& !c.connected ==> c.buffer@.len() == 0
    } by {
        let b = before[i];
        let c = after[i];
        assert(delivered(b, c, value));
        let unread = sent.subrange(sent.len() - b.buffer@.len(), sent.len() as int);
        let later = longer.subrange(longer.len() - c.buffer@.len(), longer.len() as int);
        if b.connected {
            assert(later =~= unread.push(value));
            assert(b.buffer@ == c.buffer@.drop_last());
            assert forall|k: int| 0 <= k < later.len() implies copy_of(
                later[k],
                #[trigger] c.buffer@[k],
            ) by {
                if k < unread.len() {
                    assert(c.buffer@[k] == b.buffer@[k]);
                    assert(later[k] == unread[k]);
                } else {
                    lemma_copy_of_itself(value);
                    lemma_copy_then_clone(value, value, c.buffer@.last());
                }
            }
        } else {
            assert(later =~= unread);
        }
    }
    assert(post.queues.dom() =~= pre.queues.dom());
    assert(post.live =~= pre.live);
    assert forall|id: Symbol| pre.queues.dom().contains(id) implies if pre.live.contains(id) {
        &&& (#[trigger] post.queues[id]).len() == pre.queues[id].len() + 1
        &&& post.queues[id].drop_last() == pre.queues[id]
        &&& cloned(value, post.queues[id].last())
    } else {
        post.queues[id] == pre.queues[id]
    } by {
        let i = slot(before, id);
        assert(delivered(before[i], after[i], value));
    }
}

/// Going one channel further, a closed channel's identifier joins the list.
proof fn lemma_reported<T>(channels: Seq<Channel<T>>, upto: int, failed: Seq<Symbol>) -> (longer:
    Seq<Symbol>)
    requires
        distinct(channels),
        0 <= upto < channels.len(),
        reported(channels, upto, failed),
    ensures
        reported(channels, upto + 1, longer),
        longer == if channels[upto].connected {
            failed
        } else {
            failed.push(channels[upto].id)
        },
{
    let c = channels[upto];
    let longer = if c.connected {
        failed
    } else {
        failed.push(c.id)
    };
    if failed.contains(c.id) {
        let j = choose|j: int|
            0 <= j < upto && (#[trigger] channels[j]).id == c.id && !channels[j].connected;
        assert(channels[j].id != channels[upto].id);
    }
    assert forall|id: Symbol| longer.contains(id) <==> exists|j: int|
        0 <= j < upto + 1 && (#[trigger] channels[j]).id == id && !channels[j].connected by {
        if longer.contains(id) {
            let k = choose|k: int| 0 <= k < longer.len() && longer[k] == id;
            if k < failed.len() {
                assert(failed[k] == id);
                assert(failed.contains(id));
                let j = choose|j: int|
                    0 <= j < upto && (#[trigger] channels[j]).id == id && !channels[j].connected;
                assert(0 <= j < upto + 1 && channels[j].id == id && !channels[j].connected);
            } else {
                assert(channels[upto].id == id && !channels[upto].connected);
            }
        }
        if exists|j: int|
            0 <= j < upto + 1 && (#[trigger] channels[j]).id == id && !channels[j].connected {
            let j = choose|j: int|
                0 <= j < upto + 1 && (#[trigger] channels[j]).id == id && !channels[j].connected;
            if j < upto {
                assert(failed.contains(id));
                let k = choose|k: int| 0 <= k < failed.len() && failed[k] == id;
                assert(longer[k] == id);
            } else {
                assert(longer[failed.len() as int] == id);
            }
        }
    }
    longer
}

/// The identifiers of all the closed channels, each listed once, are as many
/// as the stale receivers of the view.
proof fn lemma_stale<T: Clone>(
    channels: Seq<Channel<T>>,
    failed: Seq<Symbol>,
    sent: Seq<T>,
    issued: nat,
)
    requires
        distinct(channels),
        reported(channels, channels.len() as int, failed),
    ensures
        failed.len() == view_of(channels, sent, issued).stale().len(),
        failed.len() == 0 <==> view_of(channels, sent, issued).stale().is_empty(),
{
    let stale = view_of(channels, sent, issued).stale();
    assert forall|id: Symbol| failed.to_set().contains(id) == stale.contains(id) by {
        if failed.contains(id) {
            let j = choose|j: int|
                0 <= j < channels.len() && (#[trigger] channels[j]).id == id
                    && !channels[j].connected;
            lemma_slot(channels, j);
        }
        if stale.contains(id) {
            let j = slot(channels, id);
            assert(channels[j].id == id && !channels[j].connected);
        }
    }
    assert(failed.to_set() =~= stale);
    failed.unique_seq_to_set();
    if failed.len() > 0 {
        assert(failed.contains(failed[0]));
    }
}

} // verus!
