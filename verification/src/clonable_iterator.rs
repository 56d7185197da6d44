//! Handles that read the output of one shared iterator, each at its own
//! place, and the owner of that iterator.

use crate::bus::{Bus, BusReceiver};
use crate::bus_view::{after_close, branches, poll_outcome, BusView};
use crate::source_view::{
    advances, first_of, fresh_bus, produces, reads, refills, takes_next, SourceView,
};
use crate::symbol::{symbol_limit, Symbol};
use vstd::prelude::*;
use vstd::std_specs::iter::IteratorSpec;

verus! {

/// The owner of the iterator and of the bus that fans its output out.
pub struct ClonableIteratorOwner<I: Iterator> where I::Item: Clone {
    inner: I,
    sender: Bus<I::Item>,
}

impl<I: Iterator> ClonableIteratorOwner<I> where I::Item: Clone {
    /// The iterator, as it stands now.
    pub closed spec fn source(&self) -> I {
        self.inner
    }

    /// The bus, as it stands now.
    pub closed spec fn bus(&self) -> BusView<I::Item> {
        self.sender@
    }

    /// Whether `handle` can be forked on this owner: it is registered here,
    /// and an identifier is left for the new handle.
    pub fn can_fork(&self, handle: &Clonable<I>) -> (possible: bool)
        ensures
            possible == (self.bus().queues.dom().contains(handle.id()) && self.bus().issued
                < symbol_limit()),
    {
        self.sender.is_registered(&handle.receiver) && self.sender.has_room()
    }

    /// Hands on what the iterator gave: a value goes to every live handle,
    /// the end of the iterator changes nothing. That a closed handle can be
    /// given nothing is no failure here: what the broadcast reports of it is
    /// dropped.
    pub fn publish(&mut self, item: Option<I::Item>)
        ensures
            advances(old(self).bus(), item, final(self).bus()),
            final(self).source() == old(self).source(),
            final(self).bus().wf(),
    {
        match item {
            Some(value) => {
                let _ = self.sender.broadcast(value);
            },
            None => {
                self.sender.well_formed();
            },
        }
    }

    /// Asks the iterator once and hands on what it gave.
    pub fn produce(&mut self)
        ensures
            final(self).bus().wf(),
            exists|item: Option<I::Item>| #[trigger]
                advances(old(self).bus(), item, final(self).bus()),
            final(self).source().obeys_prophetic_iter_laws() == old(
                self,
            ).source().obeys_prophetic_iter_laws(),
            old(self).source().obeys_prophetic_iter_laws() ==> produces(
                (SourceView { bus: old(self).bus(), pending: old(self).source().remaining() }),
                (SourceView {
                    bus: final(self).bus(),
                    pending: final(self).source().remaining(),
                }),
            ),
    {
        let item = self.inner.next();
        self.publish(item);
        assert(advances(old(self).bus(), item, self.bus()));
    }
}

/// A handle: one place in the output of the shared iterator. It is used
/// together with the owner that `new` returned with the first handle.
pub struct Clonable<I: Iterator> where I::Item: Clone {
    receiver: BusReceiver<I::Item>,
}

impl<I: Iterator> Clonable<I> where I::Item: Clone {
    /// The identifier of this handle's queue on the owner's bus.
    pub closed spec fn id(&self) -> Symbol {
        self.receiver.id()
    }

    /// Wraps `inner`: the owner of the iterator, and the first handle.
    pub fn new(inner: I) -> (made: (ClonableIteratorOwner<I>, Self))
        ensures
            made.0.source() == inner,
            fresh_bus(made.0.bus(), made.1.id()),
            made.0.bus().wf(),
            made.0.bus().issued < symbol_limit(),
    {
        let mut sender = Bus::default();
        proof {
            crate::symbol::lemma_limit_is_large();
        }
        let receiver = sender.add_rx();
        (ClonableIteratorOwner { inner, sender }, Clonable { receiver })
    }

    /// The next value for this handle: the front of its backlog, or else
    /// what one step of the iterator puts there; `None` if that is nothing.
    pub fn next(&mut self, owner: &mut ClonableIteratorOwner<I>) -> (out: Option<I::Item>)
        ensures
            final(self).id() == old(self).id(),
            final(owner).bus().wf(),
            final(owner).source().obeys_prophetic_iter_laws() == old(
                owner,
            ).source().obeys_prophetic_iter_laws(),
            exists|item: Option<I::Item>| #[trigger]
                reads(old(owner).bus(), old(self).id(), item, final(owner).bus(), out),
            poll_outcome(old(owner).bus(), old(self).id()) is Ok ==> final(owner).source() == old(
                owner,
            ).source(),
            old(owner).source().obeys_prophetic_iter_laws() ==> takes_next(
                (SourceView {
                    bus: old(owner).bus(),
                    pending: old(owner).source().remaining(),
                }),
                old(self).id(),
                (SourceView {
                    bus: final(owner).bus(),
                    pending: final(owner).source().remaining(),
                }),
                out,
            ),
    {
        match self.receiver.try_recv(&mut owner.sender) {
            Ok(value) => {
                assert(reads(old(owner).bus(), self.id(), None, owner.bus(), Some(value)));
                Some(value)
            },
            Err(_) => {
                owner.produce();
                let ghost mid = owner.bus();
                let out = match self.receiver.try_recv(&mut owner.sender) {
                    Ok(value) => Some(value),
                    Err(_) => None,
                };
                proof {
                    let item = choose|item: Option<I::Item>| #[trigger]
                        advances(old(owner).bus(), item, mid);
                    assert(refills(old(owner).bus(), self.id(), item, owner.bus(), out));
                    assert(reads(old(owner).bus(), self.id(), item, owner.bus(), out));
                    if old(owner).source().obeys_prophetic_iter_laws() {
                        let first = first_of(old(owner).source().remaining());
                        assert(advances(old(owner).bus(), first, mid));
                        assert(refills(old(owner).bus(), self.id(), first, owner.bus(), out));
                    }
                }
                out
            },
        }
    }

    /// A second handle at the place where this one stands: it will read what
    /// this one has yet to read, and this one is not disturbed.
    pub fn fork(&self, owner: &mut ClonableIteratorOwner<I>) -> (child: Self)
        requires
            old(owner).bus().queues.dom().contains(self.id()),
            old(owner).bus().issued < symbol_limit(),
        ensures
            branches(old(owner).bus(), self.id(), child.id(), final(owner).bus()),
            final(owner).source() == old(owner).source(),
            final(owner).bus().wf(),
    {
        let receiver = owner.sender.branch_off(&self.receiver);
        Clonable { receiver }
    }

    /// Gives the handle up: its backlog is dropped, and the other handles go
    /// on as before.
    pub fn close(self, owner: &mut ClonableIteratorOwner<I>)
        ensures
            final(owner).bus() == after_close(old(owner).bus(), self.id()),
            final(owner).source() == old(owner).source(),
            final(owner).bus().wf(),
    {
        self.receiver.close(&mut owner.sender)
    }
}

/// Adds `clonable` to every iterator whose items can be cloned.
pub trait IterExt: Iterator + Sized where Self::Item: Clone {
    /// Consumes the iterator and gives its owner and the first handle.
    fn clonable(self) -> (made: (ClonableIteratorOwner<Self>, Clonable<Self>))
        ensures
            made.0.source() == self,
            fresh_bus(made.0.bus(), made.1.id()),
            made.0.bus().wf(),
            made.0.bus().issued < symbol_limit(),
    {
        Clonable::new(self)
    }
}

impl<I: Iterator> IterExt for I where I::Item: Clone {

}

} // verus!
