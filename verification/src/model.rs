//! The forwarding task as a mathematical state machine.
//!
//! A [`Model`] records what the task has pulled from the source and what each
//! subscriber's mailbox has been reported to accept. [`Model::next`] is the
//! transition function, [`Model::run`] its extension to a whole trace of
//! events, and [`Model::inv`] the invariant that every reachable state
//! satisfies.

use vstd::prelude::*;

verus! {

/// What the task does when it finds the mailbox of a subscriber closed.
#[derive(Debug, Clone, Copy, PartialEq, Eq)]
pub enum FailurePolicy {
    /// The whole broadcast ends: the task faults, and no subscriber receives
    /// anything more.
    AbortAllOnAnyFailure,
    /// The subscriber is taken off the broadcast, and the others are served
    /// on.
    DropFailedSubscriberAndContinue,
}

/// Where the forwarding task stands.
///
/// There is no stage for the time before activation: until then there is no
/// task, only the feed that takes subscribers. The first two stages make up
/// the running task; the last two are terminal.
#[derive(Debug, Clone, Copy, PartialEq, Eq)]
pub enum Stage {
    /// Waiting for the source to produce its next item or to complete.
    AwaitingItem,
    /// The current item has been handed out; at least one mailbox has not
    /// accepted it yet.
    AwaitingSends,
    /// The source completed. The task has ended normally.
    Drained,
    /// The task has ended early: the source failed, or a mailbox was closed
    /// under the policy that ends the broadcast.
    Faulted,
}

/// What the scheduler of the task reports to it.
#[derive(Debug, PartialEq, Eq)]
pub enum Event<T> {
    /// The source produced this item.
    Item(T),
    /// The source completed.
    End,
    /// The source failed.
    Failed,
    /// The mailbox of the subscriber with this index accepted the current item.
    Accepted(usize),
    /// The mailbox of the subscriber with this index is closed: its read-end
    /// is gone, and the send of the current item failed.
    Closed(usize),
}

/// The kind of thing the task asks its scheduler to do next.
#[derive(Debug, Clone, Copy, PartialEq, Eq)]
pub enum Reaction {
    /// Pull the next item from the source.
    Pull,
    /// Send one copy of the item just pulled to every subscriber that is
    /// still served.
    Deliver,
    /// Keep waiting for the sends that are still under way.
    Wait,
    /// Stop: the task has ended.
    Stop,
}

/// The abstract state of a forwarding task with `logs.len()` subscribers.
pub struct Model<T> {
    /// The policy on closed mailboxes, fixed at activation.
    pub policy: FailurePolicy,
    /// The current stage.
    pub stage: Stage,
    /// Every item pulled from the source so far, oldest first.
    pub pulled: Seq<T>,
    /// For each subscriber, in registration order, the items that its mailbox
    /// has been reported to accept, oldest first.
    pub logs: Seq<Seq<T>>,
    /// For each subscriber, whether it is still served: `false` once its
    /// mailbox was found closed and the subscriber was dropped.
    pub served: Seq<bool>,
}

impl<T> Model<T> {
    /// The state right after activation with `n` subscribers: nothing pulled,
    /// nothing delivered, everyone served.
    pub open spec fn init(n: nat, policy: FailurePolicy) -> Self {
        Model {
            policy,
            stage: Stage::AwaitingItem,
            pulled: Seq::empty(),
            logs: Seq::new(n, |i: int| Seq::empty()),
            served: Seq::new(n, |i: int| true),
        }
    }

    /// The number of subscribers registered at activation.
    pub open spec fn subscribers(self) -> nat {
        self.logs.len()
    }

    /// Subscriber `i` exists and is still served.
    pub open spec fn serves(self, i: int) -> bool {
        0 <= i < self.served.len() && self.served[i]
    }

    /// Subscriber `i` is still served, and its mailbox has not yet accepted
    /// the item pulled last.
    pub open spec fn lags(self, i: int) -> bool {
        self.serves(i) && i < self.logs.len() && self.logs[i].len() < self.pulled.len()
    }

    /// No subscriber lags: every mailbox still served has accepted everything
    /// pulled.
    pub open spec fn settled(self) -> bool {
        forall|i: int| !self.lags(i)
    }

    /// The task has ended.
    pub open spec fn finished(self) -> bool {
        self.stage is Drained || self.stage is Faulted
    }

    /// Whether `event` can occur in this state. While the task waits for the
    /// source, only the source can report; while sends are under way, only a
    /// subscriber that still lags can report; once the task has ended, nothing
    /// can.
    pub open spec fn expects(self, event: Event<T>) -> bool {
        match self.stage {
            Stage::AwaitingItem => event is Item || event is End || event is Failed,
            Stage::AwaitingSends => match event {
                Event::Accepted(i) => self.lags(i as int),
                Event::Closed(i) => self.lags(i as int),
                _ => false,
            },
            Stage::Drained => false,
            Stage::Faulted => false,
        }
    }

    /// The stage of a running task with these logs: waiting for the source
    /// when nobody lags, waiting for sends otherwise.
    pub open spec fn resumed(self) -> Self {
        Model {
            stage: if self.settled() {
                Stage::AwaitingItem
            } else {
                Stage::AwaitingSends
            },
            ..self
        }
    }

    /// The state with the item pulled last appended to the log of subscriber `i`.
    pub open spec fn credited(self, i: int) -> Self {
        Model { logs: self.logs.update(i, self.logs[i].push(self.pulled.last())), ..self }
    }

    /// The state with subscriber `i` no longer served.
    pub open spec fn dropped(self, i: int) -> Self {
        Model { served: self.served.update(i, false), ..self }
    }

    /// The state after `event`. An event that is not expected changes nothing.
    pub open spec fn next(self, event: Event<T>) -> Self {
        if !self.expects(event) {
            self
        } else {
            match event {
                Event::Item(item) => (Model { pulled: self.pulled.push(item), ..self }).resumed(),
                Event::End => Model { stage: Stage::Drained, ..self },
                Event::Failed => Model { stage: Stage::Faulted, ..self },
                Event::Accepted(i) => self.credited(i as int).resumed(),
                Event::Closed(i) => match self.policy {
                    FailurePolicy::AbortAllOnAnyFailure => Model { stage: Stage::Faulted, ..self },
                    FailurePolicy::DropFailedSubscriberAndContinue => self.dropped(
                        i as int,
                    ).resumed(),
                },
            }
        }
    }

    /// What the task asks for in answer to an expected `event`.
    pub open spec fn reaction(self, event: Event<T>) -> Reaction {
        match self.next(event).stage {
            Stage::AwaitingItem => Reaction::Pull,
            Stage::AwaitingSends => if event is Item {
                Reaction::Deliver
            } else {
                Reaction::Wait
            },
            Stage::Drained => Reaction::Stop,
            Stage::Faulted => Reaction::Stop,
        }
    }

    /// The state after all of `events`, in order.
    pub open spec fn run(self, events: Seq<Event<T>>) -> Self
        decreases events.len(),
    {
        if events.len() == 0 {
            self
        } else {
            self.run(events.drop_last()).next(events.last())
        }
    }

    /// Every event of the trace is expected at the moment it occurs.
    pub open spec fn orderly(self, events: Seq<Event<T>>) -> bool
        decreases events.len(),
    {
        events.len() == 0 || (self.orderly(events.drop_last()) && self.run(
            events.drop_last(),
        ).expects(events.last()))
    }

    /// What holds of every state that a task can reach.
    ///
    /// Each log is a prefix of what was pulled, and that of a subscriber still
    /// served misses at most the last item; while the task waits for the
    /// source or has drained it, nobody lags; while sends are under way,
    /// somebody does; and under the policy that ends the broadcast on a closed
    /// mailbox, nobody is ever dropped.
    pub open spec fn inv(self) -> bool {
        &&& self.served.len() == self.logs.len()
        &&& forall|i: int|
            0 <= i < self.logs.len() ==> (#[trigger] self.logs[i]).is_prefix_of(self.pulled)
        &&& forall|i: int|
            self.serves(i) && i < self.logs.len() ==> (#[trigger] self.logs[i]).len() + 1
                >= self.pulled.len()
        &&& (self.stage is AwaitingItem || self.stage is Drained) ==> self.settled()
        &&& self.stage is AwaitingSends ==> !self.settled()
        &&& self.policy is AbortAllOnAnyFailure ==> forall|i: int|
            0 <= i < self.served.len() ==> self.served[i]
    }
}

/// The indices of the subscribers still served, in registration order.
pub open spec fn recipients(served: Seq<bool>) -> Seq<int>
    decreases served.len(),
{
    if served.len() == 0 {
        Seq::empty()
    } else if served.last() {
        recipients(served.drop_last()).push(served.len() - 1)
    } else {
        recipients(served.drop_last())
    }
}

/// The items that the source produced in a trace, in order.
pub open spec fn offered<T>(events: Seq<Event<T>>) -> Seq<T>
    decreases events.len(),
{
    if events.len() == 0 {
        Seq::empty()
    } else {
        match events.last() {
            Event::Item(item) => offered(events.drop_last()).push(item),
            _ => offered(events.drop_last()),
        }
    }
}

/// How often the mailbox of subscriber `j` is reported to accept an item in
/// a trace.
pub open spec fn acceptances<T>(events: Seq<Event<T>>, j: usize) -> nat
    decreases events.len(),
{
    if events.len() == 0 {
        0
    } else if events.last() == Event::<T>::Accepted(j) {
        acceptances(events.drop_last(), j) + 1
    } else {
        acceptances(events.drop_last(), j)
    }
}

/// The events of one undisturbed round: the source offers `item`, then the
/// first `k` of the mailboxes accept it, in registration order.
pub open spec fn round_up_to<T>(item: T, k: nat) -> Seq<Event<T>> {
    seq![Event::Item(item)] + Seq::new(k, |i: int| Event::Accepted(i as usize))
}

/// The events of an undisturbed broadcast of `items` to `n` subscribers: one
/// full round per item.
pub open spec fn undisturbed<T>(n: nat, items: Seq<T>) -> Seq<Event<T>>
    decreases items.len(),
{
    if items.len() == 0 {
        Seq::empty()
    } else {
        undisturbed(n, items.drop_last()) + round_up_to(items.last(), n)
    }
}

} // verus!
