//! The forwarding task after activation: an executable state machine that
//! follows [`Model`] step by step.
//!
//! The task does no waiting of its own. Its scheduler pulls from the source
//! and performs the sends, reports what happened through [`Forwarder::step`],
//! and does what the returned [`Action`] says.

use crate::laws::{lemma_credited, lemma_next_preserves_inv};
use crate::model::{recipients, Event, FailurePolicy, Model, Stage};
use futures::sync::mpsc::Sender;
use vstd::prelude::*;

verus! {

/// One copy of an item on its way to one subscriber.
#[derive(Debug, PartialEq, Eq)]
pub struct Parcel<T> {
    /// The index of the subscriber whose mailbox the copy goes to.
    pub subscriber: usize,
    /// The copy.
    pub item: T,
}

/// What the scheduler has to do after a step of the task.
#[derive(Debug, PartialEq, Eq)]
pub enum Action<T> {
    /// Pull the next item from the source.
    Pull,
    /// Begin the send of each parcel to the mailbox of its subscriber, and
    /// pull nothing until every send has been reported.
    Deliver(Vec<Parcel<T>>),
    /// Some sends of the current item are still under way: wait for them.
    Wait,
    /// The task has ended: drop it.
    Stop,
}

/// The parcels hold one clone of `item` for each of the subscribers `to`, in
/// that order.
pub open spec fn addressed<T: Clone>(parcels: Seq<Parcel<T>>, to: Seq<int>, item: T) -> bool {
    &&& parcels.len() == to.len()
    &&& forall|k: int|
        0 <= k < parcels.len() ==> (#[trigger] parcels[k]).subscriber == to[k] && cloned(
            item,
            parcels[k].item,
        )
}

impl<T: Clone> Action<T> {
    /// This action is what the task in state `m` owes in answer to `event`:
    /// it is of the kind that the model names, and where it delivers, it
    /// holds one clone of the item for each subscriber still served, in
    /// registration order.
    pub open spec fn answers(self, m: Model<T>, event: Event<T>) -> bool {
        match self {
            Action::Pull => m.reaction(event) is Pull,
            Action::Deliver(parcels) => {
                &&& m.reaction(event) is Deliver
                &&& event is Item
                &&& addressed(parcels@, recipients(m.served), event->Item_0)
            },
            Action::Wait => m.reaction(event) is Wait,
            Action::Stop => m.reaction(event) is Stop,
        }
    }
}

/// The number of `false` entries of `flags`.
spec fn unset(flags: Seq<bool>) -> nat
    decreases flags.len(),
{
    if flags.len() == 0 {
        0
    } else {
        unset(flags.drop_last()) + if flags.last() {
            0nat
        } else {
            1nat
        }
    }
}

/// No flag is unset exactly when the count of unset flags is zero.
proof fn lemma_unset_bounds(flags: Seq<bool>)
    ensures
        unset(flags) <= flags.len(),
        unset(flags) == 0 <==> forall|k: int| 0 <= k < flags.len() ==> flags[k],
    decreases flags.len(),
{
    if flags.len() > 0 {
        let front = flags.drop_last();
        lemma_unset_bounds(front);
        assert(forall|k: int| 0 <= k < front.len() ==> front[k] == flags[k]);
        if forall|k: int| 0 <= k < flags.len() ==> flags[k] {
            assert(forall|k: int| 0 <= k < front.len() ==> front[k]);
        }
    }
}

/// Setting one unset flag lowers the count of unset flags by one.
proof fn lemma_unset_after_set(flags: Seq<bool>, i: int)
    requires
        0 <= i < flags.len(),
        !flags[i],
    ensures
        unset(flags.update(i, true)) + 1 == unset(flags),
    decreases flags.len(),
{
    let front = flags.drop_last();
    if i == flags.len() - 1 {
        assert(flags.update(i, true).drop_last() =~= front);
    } else {
        lemma_unset_after_set(front, i);
        assert(flags.update(i, true).drop_last() =~= front.update(i, true));
    }
}

/// A vector of `n` flags, all set.
fn all_set(n: usize) -> (flags: Vec<bool>)
    ensures
        flags@.len() == n,
        forall|k: int| 0 <= k < n ==> flags@[k],
{
    let mut flags: Vec<bool> = Vec::new();
    while flags.len() < n
        invariant
            flags@.len() <= n,
            forall|k: int| 0 <= k < flags@.len() ==> flags@[k],
        decreases n - flags@.len(),
    {
        flags.push(true);
    }
    flags
}

/// One parcel with a clone of `item` for each subscriber still served,
/// together with the flags of a new round: set for those who are sent
/// nothing, unset for those who are.
fn address<T: Clone>(served: &Vec<bool>, item: &T) -> (out: (Vec<Parcel<T>>, Vec<bool>))
    ensures
        addressed(out.0@, recipients(served@), *item),
        out.1@.len() == served@.len(),
        forall|i: int| 0 <= i < served@.len() ==> out.1@[i] == !served@[i],
        unset(out.1@) == out.0@.len(),
{
    let mut parcels: Vec<Parcel<T>> = Vec::new();
    let mut flags: Vec<bool> = Vec::new();
    let mut i: usize = 0;
    while i < served.len()
        invariant
            i <= served@.len(),
            addressed(parcels@, recipients(served@.take(i as int)), *item),
            flags@.len() == i,
            forall|k: int| 0 <= k < i ==> flags@[k] == !served@[k],
            unset(flags@) == parcels@.len(),
        decreases served@.len() - i,
    {
        proof {
            assert(served@.take(i + 1).drop_last() =~= served@.take(i as int));
            assert(flags@.push(!served@[i as int]).drop_last() =~= flags@);
        }
        if served[i] {
            parcels.push(Parcel { subscriber: i, item: item.clone() });
        }
        flags.push(!served[i]);
        i = i + 1;
    }
    proof {
        assert(served@.take(i as int) =~= served@);
    }
    (parcels, flags)
}

/// The forwarding task of one feed, from activation on.
///
/// The subscriber list is fixed: no operation adds or removes a write-end.
#[verifier::reject_recursive_types(T)]
pub struct Forwarder<T> {
    /// The write-ends of the subscriber mailboxes, in registration order.
    subscribers: Vec<Sender<T>>,
    policy: FailurePolicy,
    stage: Stage,
    /// For each subscriber, whether it is still served.
    served: Vec<bool>,
    /// For each subscriber, whether nothing is owed to it: unset while a send
    /// to it is under way.
    done: Vec<bool>,
    /// The number of sends under way.
    under_way: usize,
    /// What was pulled and what was accepted so far.
    history: Ghost<(Seq<T>, Seq<Seq<T>>)>,
}

impl<T> View for Forwarder<T> {
    type V = Model<T>;

    closed spec fn view(&self) -> Model<T> {
        Model {
            policy: self.policy,
            stage: self.stage,
            pulled: self.history@.0,
            logs: self.history@.1,
            served: self.served@,
        }
    }
}

impl<T> Forwarder<T> {
    /// The representation is consistent and stands for a reachable state.
    pub closed spec fn wf(&self) -> bool {
        &&& self@.inv()
        &&& self@.logs.len() == self.subscribers@.len()
        &&& self.done@.len() == self.subscribers@.len()
        &&& forall|i: int| 0 <= i < self.done@.len() ==> #[trigger] self.done@[i] == !self@.lags(i)
        &&& self.under_way == unset(self.done@)
    }

    /// The write-ends of the subscriber mailboxes, in registration order.
    pub closed spec fn subscribers(&self) -> Seq<Sender<T>> {
        self.subscribers@
    }

    /// A well-formed task is in a state that satisfies the invariant of the
    /// model, with one log for each write-end.
    pub proof fn lemma_wf_state(&self)
        requires
            self.wf(),
        ensures
            self@.inv(),
            self@.subscribers() == self.subscribers().len(),
    {
    }

    /// Where the flags tell who lags in `m`, nobody lags exactly when no send
    /// is under way.
    proof fn lemma_settled_when_done(&self, m: Model<T>)
        requires
            self.done@.len() == m.logs.len(),
            forall|k: int| 0 <= k < self.done@.len() ==> #[trigger] self.done@[k] == !m.lags(k),
            self.under_way == unset(self.done@),
        ensures
            m.settled() == (self.under_way == 0),
    {
        lemma_unset_bounds(self.done@);
        if self.under_way == 0 {
            assert forall|k: int| !m.lags(k) by {
                if 0 <= k < self.done@.len() {
                    assert(self.done@[k]);
                }
            }
        } else {
            let k = choose|k: int| 0 <= k < self.done@.len() && !self.done@[k];
            assert(m.lags(k));
        }
    }

    /// The task that forwards to the given write-ends under the given policy,
    /// before anything was pulled.
    pub fn new(subscribers: Vec<Sender<T>>, policy: FailurePolicy) -> (task: Self)
        ensures
            task.wf(),
            task@ == Model::<T>::init(subscribers@.len(), policy),
            task.subscribers() == subscribers@,
    {
        let n: usize = subscribers.len();
        let served = all_set(n);
        let done = all_set(n);
        let ghost start = Model::<T>::init(n as nat, policy);
        proof {
            lemma_unset_bounds(done@);
            assert(served@ =~= start.served);
        }
        Forwarder {
            subscribers,
            policy,
            stage: Stage::AwaitingItem,
            served,
            done,
            under_way: 0,
            history: Ghost((start.pulled, start.logs)),
        }
    }

    /// The current stage.
    pub fn stage(&self) -> (stage: Stage)
        ensures
            stage == self@.stage,
    {
        self.stage
    }

    /// The policy on closed mailboxes.
    pub fn policy(&self) -> (policy: FailurePolicy)
        ensures
            policy == self@.policy,
    {
        self.policy
    }

    /// The number of subscribers registered at activation.
    pub fn subscriber_count(&self) -> (n: usize)
        ensures
            n == self.subscribers().len(),
    {
        self.subscribers.len()
    }

    /// The write-end of the mailbox of subscriber `i`, if there is one.
    pub fn subscriber(&self, i: usize) -> (end: Option<&Sender<T>>)
        ensures
            i < self.subscribers().len() ==> end == Some(&self.subscribers()[i as int]),
            i >= self.subscribers().len() ==> end is None,
    {
        if i < self.subscribers.len() {
            Some(&self.subscribers[i])
        } else {
            None
        }
    }

    /// Whether subscriber `i` exists and is still served.
    pub fn is_served(&self, i: usize) -> (served: bool)
        ensures
            served == self@.serves(i as int),
    {
        i < self.served.len() && self.served[i]
    }
}

impl<T: Clone> Forwarder<T> {
    /// Takes one event and says what to do next.
    ///
    /// An expected event moves the task as [`Model::next`] says, and the action
    /// returned is the one that [`Action::answers`] asks for. Any other event
    /// is handed back untouched and changes nothing.
    pub fn step(&mut self, event: Event<T>) -> (answer: Result<Action<T>, Event<T>>)
        requires
            old(self).wf(),
        ensures
            final(self).wf(),
            final(self).subscribers() == old(self).subscribers(),
            match answer {
                Ok(action) => {
                    &&& old(self)@.expects(event)
                    &&& final(self)@ == old(self)@.next(event)
                    &&& action.answers(old(self)@, event)
                },
                Err(refused) => {
                    &&& !old(self)@.expects(event)
                    &&& final(self)@ == old(self)@
                    &&& refused == event
                },
            },
    {
        let ghost before = self@;
        let ghost after = before.next(event);
        proof {
            lemma_next_preserves_inv(before, event);
        }
        match self.stage {
            Stage::AwaitingItem => match event {
                Event::Item(item) => {
                    let (parcels, done) = address(&self.served, &item);
                    proof {
                        lemma_unset_bounds(done@);
                        let taken = Model { pulled: before.pulled.push(item), ..before };
                        assert forall|i: int| 0 <= i < done@.len() implies #[trigger] done@[i]
                            == !taken.lags(i) by {
                            assert(!before.lags(i));
                        }
                    }
                    self.history = Ghost((after.pulled, after.logs));
                    self.done = done;
                    self.under_way = parcels.len();
                    if parcels.len() == 0 {
                        Ok(Action::Pull)
                    } else {
                        self.stage = Stage::AwaitingSends;
                        Ok(Action::Deliver(parcels))
                    }
                },
                Event::End => {
                    self.stage = Stage::Drained;
                    Ok(Action::Stop)
                },
                Event::Failed => {
                    self.stage = Stage::Faulted;
                    Ok(Action::Stop)
                },
                other => Err(other),
            },
            Stage::AwaitingSends => match event {
                Event::Accepted(i) => {
                    if i < self.done.len() && !self.done[i] {
                        proof {
                            lemma_credited(before, i as int);
                            lemma_unset_after_set(self.done@, i as int);
                        }
                        self.done[i] = true;
                        self.under_way = self.under_way - 1;
                        self.history = Ghost((after.pulled, after.logs));
                        proof {
                            self.lemma_settled_when_done(before.credited(i as int));
                        }
                        Ok(self.resume())
                    } else {
                        Err(Event::Accepted(i))
                    }
                },
                Event::Closed(i) => {
                    if i < self.done.len() && !self.done[i] {
                        match self.policy {
                            FailurePolicy::AbortAllOnAnyFailure => {
                                self.stage = Stage::Faulted;
                                Ok(Action::Stop)
                            },
                            FailurePolicy::DropFailedSubscriberAndContinue => {
                                proof {
                                    lemma_unset_after_set(self.done@, i as int);
                                }
                                self.served[i] = false;
                                self.done[i] = true;
                                self.under_way = self.under_way - 1;
                                proof {
                                    self.lemma_settled_when_done(before.dropped(i as int));
                                }
                                Ok(self.resume())
                            },
                        }
                    } else {
                        Err(Event::Closed(i))
                    }
                },
                other => Err(other),
            },
            Stage::Drained => Err(event),
            Stage::Faulted => Err(event),
        }
    }

    /// Goes back to the source once no send is under way.
    fn resume(&mut self) -> (action: Action<T>)
        requires
            old(self).stage is AwaitingSends,
        ensures
            *final(self) == (Forwarder {
                stage: if old(self).under_way == 0 {
                    Stage::AwaitingItem
                } else {
                    Stage::AwaitingSends
                },
                ..*old(self)
            }),
            action == if old(self).under_way == 0 {
                Action::<T>::Pull
            } else {
                Action::<T>::Wait
            },
    {
        if self.under_way == 0 {
            self.stage = Stage::AwaitingItem;
            Action::Pull
        } else {
            Action::Wait
        }
    }
}

} // verus!
