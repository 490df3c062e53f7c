//! Registration: the feed before activation.
//!
//! A feed takes subscribers until it is spawned. Spawning consumes the feed,
//! so that later registration is ruled out by ownership and needs no test at
//! run time.

use crate::forwarder::Forwarder;
use crate::mailbox::{open, MAILBOX_CAPACITY};
use crate::model::{FailurePolicy, Model};
use futures::sync::mpsc::{Receiver, Sender};
use vstd::prelude::*;

verus! {

/// Feed that can be subscribed to.
pub trait Feed<T>: Sized {
    /// The source of the items that the feed distributes.
    type Source;

    /// The write-ends of the mailboxes registered so far, oldest first.
    spec fn subscribers(&self) -> Seq<Sender<T>>;

    /// The source that the feed was built on.
    spec fn source(&self) -> Self::Source;

    /// What the forwarding task of the feed will do about a closed mailbox.
    spec fn policy(&self) -> FailurePolicy;

    /// Subscribe to this feed. The returned read-end receives every item that
    /// the source produces after the feed is spawned.
    ///
    /// Registers exactly one new mailbox, behind those already there.
    fn subscribe(&mut self) -> (mailbox: Receiver<T>)
        ensures
            final(self).subscribers().len() == old(self).subscribers().len() + 1,
            final(self).subscribers().drop_last() == old(self).subscribers(),
            final(self).source() == old(self).source(),
            final(self).policy() == old(self).policy(),
    ;

    /// Turn this feed into its forwarding task, consuming it.
    ///
    /// The task starts with nothing pulled, owns exactly the write-ends
    /// registered, in order, keeps the policy of the feed, and comes with the
    /// untouched source.
    fn spawn(self) -> (parts: (Forwarder<T>, Self::Source))
        ensures
            parts.0.wf(),
            parts.0@ == Model::<T>::init(self.subscribers().len(), self.policy()),
            parts.0.subscribers() == self.subscribers(),
            parts.1 == self.source(),
    ;
}

/// Feed over a source of type `S`, with one bounded mailbox per subscriber.
#[verifier::reject_recursive_types(T)]
pub struct StreamFeed<T, S> {
    /// Write-ends, one for each of our subscribers' mailboxes.
    subscribers: Vec<Sender<T>>,
    /// Source of the items that the feed distributes amongst the subscribers.
    source: S,
    policy: FailurePolicy,
}

impl<T, S> StreamFeed<T, S> {
    /// A feed over `source` without subscribers, whose broadcast ends when a
    /// mailbox is found closed.
    pub fn new(source: S) -> (feed: Self)
        ensures
            feed.subscribers().len() == 0,
            feed.source() == source,
            feed.policy() is AbortAllOnAnyFailure,
    {
        StreamFeed {
            subscribers: Vec::new(),
            source,
            policy: FailurePolicy::AbortAllOnAnyFailure,
        }
    }

    /// A feed over `source` without subscribers, with the given policy on
    /// closed mailboxes.
    pub fn with_policy(source: S, policy: FailurePolicy) -> (feed: Self)
        ensures
            feed.subscribers().len() == 0,
            feed.source() == source,
            feed.policy() == policy,
    {
        StreamFeed { subscribers: Vec::new(), source, policy }
    }
}

impl<T, S> Feed<T> for StreamFeed<T, S> {
    type Source = S;

    closed spec fn subscribers(&self) -> Seq<Sender<T>> {
        self.subscribers@
    }

    closed spec fn source(&self) -> S {
        self.source
    }

    closed spec fn policy(&self) -> FailurePolicy {
        self.policy
    }

    fn subscribe(&mut self) -> (mailbox: Receiver<T>) {
        let (sender, receiver) = open::<T>(MAILBOX_CAPACITY);
        self.subscribers.push(sender);
        assert(self.subscribers@.drop_last() =~= old(self).subscribers@);
        receiver
    }

    fn spawn(self) -> (parts: (Forwarder<T>, S)) {
        let StreamFeed { subscribers, source, policy } = self;
        (Forwarder::new(subscribers, policy), source)
    }
}

} // verus!
