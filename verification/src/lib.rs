//! Fan-out buffering that lets several independent cursors read the output of
//! one single-pass iterator.
//!
//! An iterator is wrapped once; that gives its owner and a first handle. A
//! handle can be forked at any time: the new handle reads, from that moment
//! on, exactly what the handle it came from has yet to read. The iterator
//! itself is never cloned or rewound, only its items are.
//!
//! - `symbol`: the identifiers of the handles, taken from a wide counter.
//! - `bus`: the registry of queues, one for each handle, which hands every
//!   value to every live handle.
//! - `bus_view`: what a bus holds and what each of its steps does, as plain
//!   mathematics; `bus_laws`: what every step keeps.
//! - `clonable_iterator`: the owner of the iterator, and the handles;
//!   `source_view`: what an owner holds and what its steps do, as plain
//!   mathematics.
//! - `copies`: what it means to be a copy, where copies are made by `Clone`.
//! - `laws`: what the handles read, whatever the iterator gives and
//!   whatever the order of the calls; `output_laws`: the same for an iterator
//!   that yields a given output and then nothing.
//!
//! A handle does not hold its owner: every call on a handle takes the owner
//! by `&mut`, so that the calls on one owner come one after the other. Code
//! that shares an owner among threads keeps it behind a lock.

pub mod bus;
pub mod bus_laws;
pub mod bus_view;
pub mod clonable_iterator;
pub mod copies;
pub mod laws;
pub mod output_laws;
pub mod source_view;
pub mod symbol;

pub use self::clonable_iterator::Clonable;
pub use self::clonable_iterator::ClonableIteratorOwner;
pub use self::clonable_iterator::IterExt;
