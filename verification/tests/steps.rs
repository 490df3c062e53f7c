//! The forwarding task step by step: which event it takes in which stage,
//! and what it asks for in return.

use futures::sync::mpsc::Receiver;
use pub_sub::mailbox::MAILBOX_CAPACITY;
use pub_sub::{Action, Event, FailurePolicy, Feed, Forwarder, Parcel, Stage, StreamFeed};

/// A task with `n` subscribers under `policy`, together with their read-ends.
fn task_under(policy: FailurePolicy, n: usize) -> (Forwarder<u8>, Vec<Receiver<u8>>) {
    let mut feed: StreamFeed<u8, ()> = StreamFeed::with_policy((), policy);
    let mut mailboxes = Vec::new();
    for _ in 0..n {
        mailboxes.push(feed.subscribe());
    }
    let (task, ()) = feed.spawn();
    (task, mailboxes)
}

/// A task with `n` subscribers whose broadcast ends on a closed mailbox.
fn task_with(n: usize) -> (Forwarder<u8>, Vec<Receiver<u8>>) {
    task_under(FailurePolicy::AbortAllOnAnyFailure, n)
}

/// One parcel with `item` for each of the subscribers `to`.
fn parcels(item: u8, to: &[usize]) -> Action<u8> {
    Action::Deliver(to.iter().map(|&subscriber| Parcel { subscriber, item }).collect())
}

#[test]
fn mailbox_capacity_is_one() {
    assert_eq!(MAILBOX_CAPACITY, 1);
}

#[test]
fn new_task_awaits_the_source() {
    let (task, _mailboxes) = task_with(2);
    assert_eq!(task.stage(), Stage::AwaitingItem);
    assert_eq!(task.subscriber_count(), 2);
    assert!(task.is_served(0));
    assert!(task.is_served(1));
    assert!(!task.is_served(2));
}

#[test]
fn task_built_from_write_ends_starts_like_a_spawned_one() {
    let (first, _a) = futures::sync::mpsc::channel::<u8>(MAILBOX_CAPACITY);
    let (second, _b) = futures::sync::mpsc::channel::<u8>(MAILBOX_CAPACITY);
    let policy = FailurePolicy::DropFailedSubscriberAndContinue;
    let mut task = Forwarder::new(vec![first, second], policy);
    assert_eq!(task.stage(), Stage::AwaitingItem);
    assert_eq!(task.subscriber_count(), 2);
    assert_eq!(task.policy(), FailurePolicy::DropFailedSubscriberAndContinue);
    assert_eq!(task.step(Event::Item(3)), Ok(parcels(3, &[0, 1])));
}

#[test]
fn item_is_copied_once_per_subscriber() {
    let (mut task, _mailboxes) = task_with(3);
    assert_eq!(
        task.step(Event::Item(9)),
        Ok(Action::Deliver(vec![
            Parcel { subscriber: 0, item: 9 },
            Parcel { subscriber: 1, item: 9 },
            Parcel { subscriber: 2, item: 9 },
        ]))
    );
    assert_eq!(task.stage(), Stage::AwaitingSends);
}

#[test]
fn next_item_is_pulled_only_after_every_mailbox_accepted() {
    let (mut task, _mailboxes) = task_with(3);
    assert_eq!(task.step(Event::Item(1)), Ok(parcels(1, &[0, 1, 2])));
    assert_eq!(task.step(Event::Accepted(2)), Ok(Action::Wait));
    assert_eq!(task.stage(), Stage::AwaitingSends);
    assert_eq!(task.step(Event::Accepted(0)), Ok(Action::Wait));
    assert_eq!(task.stage(), Stage::AwaitingSends);
    assert_eq!(task.step(Event::Accepted(1)), Ok(Action::Pull));
    assert_eq!(task.stage(), Stage::AwaitingItem);
    assert_eq!(task.step(Event::Item(2)), Ok(parcels(2, &[0, 1, 2])));
}

#[test]
fn stalled_mailbox_stalls_the_source() {
    let (mut task, _mailboxes) = task_with(2);
    assert_eq!(task.step(Event::Item(1)), Ok(parcels(1, &[0, 1])));
    assert_eq!(task.step(Event::Accepted(0)), Ok(Action::Wait));

    // Subscriber 1 never reports: nothing from the source is taken.
    assert_eq!(task.step(Event::Item(2)), Err(Event::Item(2)));
    assert_eq!(task.step(Event::End), Err(Event::End));
    assert_eq!(task.step(Event::Failed), Err(Event::Failed));
    assert_eq!(task.step(Event::Accepted(0)), Err(Event::Accepted(0)));
    assert_eq!(task.stage(), Stage::AwaitingSends);

    // Once it does, the broadcast goes on.
    assert_eq!(task.step(Event::Accepted(1)), Ok(Action::Pull));
}

#[test]
fn end_of_source_drains() {
    let (mut task, _mailboxes) = task_with(1);
    assert_eq!(task.step(Event::Item(4)), Ok(parcels(4, &[0])));
    assert_eq!(task.step(Event::Accepted(0)), Ok(Action::Pull));
    assert_eq!(task.step(Event::End), Ok(Action::Stop));
    assert_eq!(task.stage(), Stage::Drained);
}

#[test]
fn failure_of_source_faults() {
    let (mut task, _mailboxes) = task_with(1);
    assert_eq!(task.step(Event::Failed), Ok(Action::Stop));
    assert_eq!(task.stage(), Stage::Faulted);
}

#[test]
fn failure_of_source_faults_under_either_policy() {
    let (mut task, _mailboxes) = task_under(FailurePolicy::DropFailedSubscriberAndContinue, 1);
    assert_eq!(task.step(Event::Failed), Ok(Action::Stop));
    assert_eq!(task.stage(), Stage::Faulted);
}

#[test]
fn closed_mailbox_faults() {
    let (mut task, _mailboxes) = task_with(3);
    assert_eq!(task.step(Event::Item(1)), Ok(parcels(1, &[0, 1, 2])));
    assert_eq!(task.step(Event::Accepted(0)), Ok(Action::Wait));
    assert_eq!(task.step(Event::Closed(1)), Ok(Action::Stop));
    assert_eq!(task.stage(), Stage::Faulted);
    // Nobody is taken off the list; the send to subscriber 2 is abandoned.
    assert!(task.is_served(1));
    assert_eq!(task.step(Event::Accepted(2)), Err(Event::Accepted(2)));
    assert_eq!(task.stage(), Stage::Faulted);
}

#[test]
fn closed_mailbox_is_dropped_when_the_policy_says_so() {
    let (mut task, _mailboxes) = task_under(FailurePolicy::DropFailedSubscriberAndContinue, 3);
    assert_eq!(task.step(Event::Item(1)), Ok(parcels(1, &[0, 1, 2])));
    assert_eq!(task.step(Event::Accepted(0)), Ok(Action::Wait));
    assert_eq!(task.step(Event::Closed(1)), Ok(Action::Wait));
    assert_eq!(task.stage(), Stage::AwaitingSends);
    assert!(!task.is_served(1));
    assert_eq!(task.step(Event::Closed(1)), Err(Event::Closed(1)));
    assert_eq!(task.step(Event::Accepted(2)), Ok(Action::Pull));
    assert_eq!(task.step(Event::Item(2)), Ok(parcels(2, &[0, 2])));
}

#[test]
fn last_lagging_mailbox_closed_resumes_the_source() {
    let (mut task, _mailboxes) = task_under(FailurePolicy::DropFailedSubscriberAndContinue, 2);
    assert_eq!(task.step(Event::Item(1)), Ok(parcels(1, &[0, 1])));
    assert_eq!(task.step(Event::Accepted(1)), Ok(Action::Wait));
    assert_eq!(task.step(Event::Closed(0)), Ok(Action::Pull));
    assert_eq!(task.stage(), Stage::AwaitingItem);
}

#[test]
fn source_is_drained_after_every_subscriber_was_dropped() {
    let (mut task, _mailboxes) = task_under(FailurePolicy::DropFailedSubscriberAndContinue, 2);
    assert_eq!(task.step(Event::Item(1)), Ok(parcels(1, &[0, 1])));
    assert_eq!(task.step(Event::Closed(0)), Ok(Action::Wait));
    assert_eq!(task.step(Event::Closed(1)), Ok(Action::Pull));
    assert_eq!(task.step(Event::Item(2)), Ok(Action::Pull));
    assert_eq!(task.step(Event::Item(3)), Ok(Action::Pull));
    assert_eq!(task.step(Event::End), Ok(Action::Stop));
    assert_eq!(task.stage(), Stage::Drained);
}

#[test]
fn reports_from_mailboxes_are_refused_while_awaiting_the_source() {
    let (mut task, _mailboxes) = task_with(2);
    assert_eq!(task.step(Event::Accepted(0)), Err(Event::Accepted(0)));
    assert_eq!(task.step(Event::Closed(1)), Err(Event::Closed(1)));
    assert_eq!(task.stage(), Stage::AwaitingItem);
}

#[test]
fn report_from_unknown_subscriber_is_refused() {
    let (mut task, _mailboxes) = task_with(2);
    assert_eq!(task.step(Event::Item(1)), Ok(parcels(1, &[0, 1])));
    assert_eq!(task.step(Event::Accepted(2)), Err(Event::Accepted(2)));
    assert_eq!(task.step(Event::Closed(usize::MAX)), Err(Event::Closed(usize::MAX)));
    assert_eq!(task.stage(), Stage::AwaitingSends);
}

#[test]
fn second_report_from_one_subscriber_is_refused() {
    let (mut task, _mailboxes) = task_with(2);
    assert_eq!(task.step(Event::Item(1)), Ok(parcels(1, &[0, 1])));
    assert_eq!(task.step(Event::Accepted(1)), Ok(Action::Wait));
    assert_eq!(task.step(Event::Accepted(1)), Err(Event::Accepted(1)));
    assert_eq!(task.step(Event::Closed(1)), Err(Event::Closed(1)));
    assert_eq!(task.stage(), Stage::AwaitingSends);
}

#[test]
fn nothing_is_taken_after_the_end() {
    let (mut task, _mailboxes) = task_with(1);
    assert_eq!(task.step(Event::End), Ok(Action::Stop));
    assert_eq!(task.step(Event::Item(1)), Err(Event::Item(1)));
    assert_eq!(task.step(Event::End), Err(Event::End));
    assert_eq!(task.step(Event::Failed), Err(Event::Failed));
    assert_eq!(task.step(Event::Accepted(0)), Err(Event::Accepted(0)));
    assert_eq!(task.step(Event::Closed(0)), Err(Event::Closed(0)));
    assert_eq!(task.stage(), Stage::Drained);
}

#[test]
fn subscriber_is_none_past_the_last() {
    let (task, _mailboxes) = task_with(2);
    assert!(task.subscriber(0).is_some());
    assert!(task.subscriber(1).is_some());
    assert!(task.subscriber(2).is_none());
    assert!(task.subscriber(usize::MAX).is_none());
}
