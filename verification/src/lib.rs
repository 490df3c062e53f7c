//! Single-producer broadcast: one source of items is fanned out, item by item
//! and in source order, to any number of subscribers, each behind its own
//! bounded mailbox.
//!
//! A [`StreamFeed`] collects subscribers. Spawning it freezes the subscriber
//! list and yields a [`Forwarder`], the state machine of the forwarding task.
//! Whoever schedules the task pulls from the source and performs the sends,
//! reports each outcome as an [`Event`], and is told by the returned
//! [`Action`] what to do next: the next item is pulled only when every mailbox
//! has accepted the current one.
//!
//! What the task does is defined by the mathematical [`model::Model`], which
//! the executable task follows step by step; what holds of every run is
//! proved in [`laws`].

pub mod feed;
pub mod forwarder;
pub mod laws;
pub mod mailbox;
pub mod model;

pub use feed::{Feed, StreamFeed};
pub use forwarder::{Action, Forwarder, Parcel};
pub use model::{Event, FailurePolicy, Stage};
