//! What holds of every run of the forwarding task, proved of [`Model`].

use crate::model::{
    acceptances, offered, recipients, round_up_to, undisturbed, Event, FailurePolicy, Model,
    Reaction, Stage,
};
use vstd::prelude::*;

verus! {

/// Crediting a lagging subscriber with the item pulled last brings its log
/// level with what was pulled and leaves every other subscriber alone.
pub proof fn lemma_credited<T>(m: Model<T>, i: int)
    requires
        m.inv(),
        m.lags(i),
    ensures
        m.credited(i).logs.len() == m.logs.len(),
        m.credited(i).logs[i] == m.pulled,
        !m.credited(i).lags(i),
        forall|k: int| 0 <= k < m.logs.len() && k != i ==> m.credited(i).logs[k] == m.logs[k],
        forall|k: int| k != i ==> m.credited(i).lags(k) == m.lags(k),
{
    let log = m.logs[i];
    assert(log.is_prefix_of(m.pulled));
    assert(log.len() + 1 >= m.pulled.len());
    assert(log.push(m.pulled.last()) =~= m.pulled);
}

/// Whether somebody lags does not depend on the stage or the policy.
pub proof fn lemma_settled_by_logs<T>(a: Model<T>, b: Model<T>)
    requires
        a.pulled == b.pulled,
        a.logs == b.logs,
        a.served == b.served,
    ensures
        a.settled() == b.settled(),
{
    assert forall|i: int| a.lags(i) == b.lags(i) by {}
    if !a.settled() {
        let i = choose|i: int| a.lags(i);
        assert(b.lags(i));
    }
    if !b.settled() {
        let i = choose|i: int| b.lags(i);
        assert(a.lags(i));
    }
}

/// The invariant survives every event, expected or not, and the subscriber
/// list and the policy stay as they are.
pub proof fn lemma_next_preserves_inv<T>(m: Model<T>, event: Event<T>)
    requires
        m.inv(),
    ensures
        m.next(event).inv(),
        m.next(event).subscribers() == m.subscribers(),
        m.next(event).policy == m.policy,
{
    if m.expects(event) {
        let after = m.next(event);
        match event {
            Event::Item(item) => {
                lemma_settled_by_logs(after, Model { pulled: m.pulled.push(item), ..m });
                assert forall|i: int| 0 <= i < after.logs.len() implies {
                    &&& (#[trigger] after.logs[i]).is_prefix_of(after.pulled)
                    &&& after.serves(i) ==> after.logs[i].len() + 1 >= after.pulled.len()
                } by {
                    assert(m.logs[i].is_prefix_of(m.pulled));
                    assert(!m.lags(i));
                }
            },
            Event::End => {
                lemma_settled_by_logs(after, m);
            },
            Event::Accepted(i) => {
                lemma_credited(m, i as int);
                lemma_settled_by_logs(after, m.credited(i as int));
                assert forall|k: int| 0 <= k < after.logs.len() implies {
                    &&& (#[trigger] after.logs[k]).is_prefix_of(after.pulled)
                    &&& after.serves(k) ==> after.logs[k].len() + 1 >= after.pulled.len()
                } by {
                    if k != i {
                        assert(after.logs[k] == m.logs[k]);
                    }
                }
            },
            Event::Closed(i) => {
                if m.policy is DropFailedSubscriberAndContinue {
                    lemma_settled_by_logs(after, m.dropped(i as int));
                }
                assert forall|k: int| 0 <= k < after.logs.len() implies {
                    &&& (#[trigger] after.logs[k]).is_prefix_of(after.pulled)
                    &&& after.serves(k) ==> after.logs[k].len() + 1 >= after.pulled.len()
                } by {
                    assert(m.logs[k].is_prefix_of(m.pulled));
                    if after.serves(k) {
                        assert(m.serves(k));
                    }
                }
            },
            _ => {},
        }
    }
}

/// A task starts in a state that satisfies the invariant.
pub proof fn lemma_init_inv<T>(n: nat, policy: FailurePolicy)
    ensures
        Model::<T>::init(n, policy).inv(),
        Model::<T>::init(n, policy).subscribers() == n,
{
}

/// The invariant holds after every trace, and the subscriber list is frozen:
/// no event adds or removes a subscriber, or changes the policy.
pub proof fn lemma_run_preserves_inv<T>(m: Model<T>, events: Seq<Event<T>>)
    requires
        m.inv(),
    ensures
        m.run(events).inv(),
        m.run(events).subscribers() == m.subscribers(),
        m.run(events).policy == m.policy,
    decreases events.len(),
{
    if events.len() > 0 {
        lemma_run_preserves_inv(m, events.drop_last());
        lemma_next_preserves_inv(m.run(events.drop_last()), events.last());
    }
}

/// Running a trace made of two parts is running the first part and then the
/// second; the whole is orderly when both parts are, each from where it
/// starts; and the source offered what it offered in the two parts.
pub proof fn lemma_run_in_parts<T>(m: Model<T>, first: Seq<Event<T>>, second: Seq<Event<T>>)
    ensures
        m.run(first + second) == m.run(first).run(second),
        m.orderly(first + second) == (m.orderly(first) && m.run(first).orderly(second)),
        offered(first + second) == offered(first) + offered(second),
    decreases second.len(),
{
    if second.len() == 0 {
        assert(first + second =~= first);
        assert(offered(first) + offered(second) =~= offered(first));
    } else {
        assert((first + second).drop_last() =~= first + second.drop_last());
        assert((first + second).last() == second.last());
        lemma_run_in_parts(m, first, second.drop_last());
        match second.last() {
            Event::Item(item) => {
                assert(offered(first) + offered(second.drop_last()).push(item) =~= (offered(first)
                    + offered(second.drop_last())).push(item));
            },
            _ => {},
        }
    }
}

/// The task takes an item from the source only when the mailbox of every
/// subscriber still served has accepted every item before it.
pub proof fn lemma_item_waits_for_every_mailbox<T>(m: Model<T>, item: T, i: int)
    requires
        m.inv(),
        m.expects(Event::Item(item)),
        m.serves(i),
    ensures
        m.logs[i] == m.pulled,
{
    assert(!m.lags(i));
    assert(m.logs[i].is_prefix_of(m.pulled));
    assert(m.logs[i] =~= m.pulled);
}

/// Subscribers move in lockstep. Of any two subscribers still served, one
/// has received what the other has, and at most one item more.
pub proof fn lemma_subscribers_in_lockstep<T>(m: Model<T>, i: int, j: int)
    requires
        m.inv(),
        m.serves(i),
        m.serves(j),
        m.logs[i].len() <= m.logs[j].len(),
    ensures
        m.logs[i].is_prefix_of(m.logs[j]),
        m.logs[j].len() <= m.logs[i].len() + 1,
{
    assert(m.logs[i].is_prefix_of(m.pulled));
    assert(m.logs[j].is_prefix_of(m.pulled));
}

/// Both end states are final: once the task has drained the source or has
/// faulted, no event changes anything.
pub proof fn lemma_finished_is_final<T>(m: Model<T>, events: Seq<Event<T>>)
    requires
        m.finished(),
    ensures
        m.run(events) == m,
    decreases events.len(),
{
    if events.len() > 0 {
        lemma_finished_is_final(m, events.drop_last());
    }
}

/// Under the policy that ends the broadcast, a closed mailbox ends it for
/// everyone: the task faults at once, and whatever is reported afterwards, no
/// log grows any more, that of a subscriber whose own mailbox is open
/// included.
pub proof fn lemma_closed_mailbox_stops_everything<T>(
    m: Model<T>,
    i: usize,
    later: Seq<Event<T>>,
)
    requires
        m.policy is AbortAllOnAnyFailure,
        m.expects(Event::Closed(i)),
    ensures
        m.next(Event::Closed(i)).stage is Faulted,
        m.next(Event::Closed(i)).run(later).stage is Faulted,
        m.next(Event::Closed(i)).run(later).pulled == m.pulled,
        m.next(Event::Closed(i)).run(later).logs == m.logs,
{
    lemma_finished_is_final(m.next(Event::Closed(i)), later);
}

/// Under the policy that drops the subscriber, a closed mailbox costs only
/// its own subscriber: that one is served no more, every log stays as it is,
/// nobody else is dropped, and the task runs on.
pub proof fn lemma_closed_mailbox_is_dropped<T>(m: Model<T>, i: usize)
    requires
        m.inv(),
        m.policy is DropFailedSubscriberAndContinue,
        m.expects(Event::Closed(i)),
    ensures
        !m.next(Event::Closed(i)).finished(),
        !m.next(Event::Closed(i)).serves(i as int),
        m.next(Event::Closed(i)).pulled == m.pulled,
        m.next(Event::Closed(i)).logs == m.logs,
        forall|k: int| k != i ==> m.next(Event::Closed(i)).serves(k) == m.serves(k),
{
}

/// A subscriber that was dropped stays dropped, and its log stays as it was
/// when its mailbox was found closed.
pub proof fn lemma_dropped_for_good<T>(m: Model<T>, i: int, events: Seq<Event<T>>)
    requires
        m.inv(),
        0 <= i < m.subscribers(),
        !m.serves(i),
    ensures
        !m.run(events).serves(i),
        m.run(events).logs[i] == m.logs[i],
    decreases events.len(),
{
    if events.len() > 0 {
        let front = events.drop_last();
        lemma_dropped_for_good(m, i, front);
        lemma_run_preserves_inv(m, front);
    }
}

/// Without a failure of the source, and without a closed mailbox under the
/// policy that ends the broadcast, the task never faults.
pub proof fn lemma_fault_has_a_cause<T>(m: Model<T>, events: Seq<Event<T>>)
    requires
        !(m.stage is Faulted),
        forall|k: int| 0 <= k < events.len() ==> !(events[k] is Failed),
        m.policy is AbortAllOnAnyFailure ==> forall|k: int|
            0 <= k < events.len() ==> !(events[k] is Closed),
    ensures
        !(m.run(events).stage is Faulted),
        m.run(events).policy == m.policy,
    decreases events.len(),
{
    if events.len() > 0 {
        let front = events.drop_last();
        assert(forall|k: int| 0 <= k < front.len() ==> front[k] == events[k]);
        lemma_fault_has_a_cause(m, front);
        assert(events.last() == events[events.len() - 1]);
    }
}

/// In an orderly run the task pulls exactly what the source offers, in order.
pub proof fn lemma_pulled_is_offered<T>(m: Model<T>, events: Seq<Event<T>>)
    requires
        m.orderly(events),
    ensures
        m.run(events).pulled == m.pulled + offered(events),
    decreases events.len(),
{
    if events.len() == 0 {
        assert(m.pulled + offered(events) =~= m.pulled);
    } else {
        let front = events.drop_last();
        lemma_pulled_is_offered(m, front);
        match events.last() {
            Event::Item(item) => {
                assert(m.pulled + offered(front).push(item) =~= (m.pulled + offered(front)).push(
                    item,
                ));
            },
            _ => {},
        }
    }
}

/// Order is preserved end to end. After any orderly run, what a subscriber
/// has received is a prefix of what the source offered: nothing reordered,
/// nothing twice, nothing skipped. As long as the subscriber is served, it
/// misses at most the item under way.
pub proof fn lemma_order_is_preserved<T>(
    n: nat,
    policy: FailurePolicy,
    events: Seq<Event<T>>,
    i: int,
)
    requires
        Model::<T>::init(n, policy).orderly(events),
        0 <= i < n,
    ensures
        Model::<T>::init(n, policy).run(events).logs[i].is_prefix_of(offered(events)),
        Model::<T>::init(n, policy).run(events).serves(i) ==> Model::<T>::init(n, policy).run(
            events,
        ).logs[i].len() + 1 >= offered(events).len(),
{
    let start = Model::<T>::init(n, policy);
    lemma_run_preserves_inv(start, events);
    lemma_pulled_is_offered(start, events);
    assert(start.pulled + offered(events) =~= offered(events));
    let end = start.run(events);
    assert(end.logs[i].is_prefix_of(end.pulled));
}

/// When the source has run to completion in an orderly run, every subscriber
/// still served has received every item that the source offered, in the
/// order offered. Under the policy that ends the broadcast on a closed
/// mailbox that is every subscriber.
pub proof fn lemma_drained_means_delivered<T>(
    n: nat,
    policy: FailurePolicy,
    events: Seq<Event<T>>,
    i: int,
)
    requires
        Model::<T>::init(n, policy).orderly(events),
        Model::<T>::init(n, policy).run(events).stage is Drained,
        0 <= i < n,
        policy is AbortAllOnAnyFailure || Model::<T>::init(n, policy).run(events).serves(i),
    ensures
        Model::<T>::init(n, policy).run(events).logs[i] == offered(events),
{
    let start = Model::<T>::init(n, policy);
    lemma_run_preserves_inv(start, events);
    lemma_pulled_is_offered(start, events);
    assert(start.pulled + offered(events) =~= offered(events));
    let end = start.run(events);
    assert(end.serves(i));
    assert(!end.lags(i));
    assert(end.logs[i].is_prefix_of(end.pulled));
    assert(end.logs[i] =~= end.pulled);
}

/// The state in the middle of an undisturbed round: `item` has been pulled
/// and the first `k` mailboxes have accepted it.
proof fn lemma_round_up_to<T>(m: Model<T>, item: T, k: nat)
    requires
        m.inv(),
        m.stage is AwaitingItem,
        k <= m.logs.len() <= usize::MAX,
        forall|i: int| 0 <= i < m.logs.len() ==> m.serves(i),
    ensures
        m.orderly(round_up_to(item, k)),
        m.run(round_up_to(item, k)) == (Model {
            stage: if k == m.logs.len() {
                Stage::AwaitingItem
            } else {
                Stage::AwaitingSends
            },
            pulled: m.pulled.push(item),
            logs: Seq::new(
                m.logs.len(),
                |i: int|
                    if i < k {
                        m.pulled.push(item)
                    } else {
                        m.pulled
                    },
            ),
            ..m
        }),
        offered(round_up_to(item, k)) == seq![item],
    decreases k,
{
    let n = m.logs.len();
    let events = round_up_to(item, k);
    let front = events.drop_last();
    let claimed = Model {
        stage: if k == n {
            Stage::AwaitingItem
        } else {
            Stage::AwaitingSends
        },
        pulled: m.pulled.push(item),
        logs: Seq::new(
            n,
            |i: int|
                if i < k {
                    m.pulled.push(item)
                } else {
                    m.pulled
                },
        ),
        ..m
    };
    if k == 0 {
        assert(front =~= Seq::<Event<T>>::empty());
        assert(events.last() == Event::Item(item));
        assert(m.run(front) == m);
        assert(m.orderly(front));
        assert(m.expects(events.last()));
        assert(offered(front) =~= Seq::<T>::empty());
        assert(offered(events) =~= seq![item]);
        let taken = Model { pulled: m.pulled.push(item), ..m };
        assert(taken.logs =~= claimed.logs) by {
            assert forall|i: int| 0 <= i < n implies taken.logs[i] == claimed.logs[i] by {
                assert(!m.lags(i));
                assert(m.logs[i].is_prefix_of(m.pulled));
                assert(m.logs[i] =~= m.pulled);
            }
        }
        if n == 0 {
            assert(taken.settled());
        } else {
            assert(m.serves(0));
            assert(taken.lags(0));
        }
    } else {
        let j = (k - 1) as nat;
        lemma_round_up_to(m, item, j);
        assert(front =~= round_up_to(item, j));
        assert(events.last() == Event::<T>::Accepted(j as usize));
        let mid = m.run(front);
        assert(mid.logs[j as int] == m.pulled);
        assert(m.serves(j as int));
        assert(mid.lags(j as int));
        assert(m.orderly(front));
        assert(mid.expects(events.last()));
        let credited = mid.credited(j as int);
        assert(credited.logs[j as int] =~= m.pulled.push(item));
        assert(credited.logs =~= claimed.logs);
        if k == n {
            assert(credited.settled());
        } else {
            assert(m.serves(k as int));
            assert(credited.lags(k as int));
        }
        assert(mid.next(events.last()) == claimed);
    }
}

/// The state after an undisturbed broadcast of `items`: everything pulled,
/// every log complete, and the task ready for the next item.
proof fn lemma_undisturbed<T>(n: nat, policy: FailurePolicy, items: Seq<T>)
    requires
        n <= usize::MAX,
    ensures
        Model::<T>::init(n, policy).orderly(undisturbed(n, items)),
        Model::<T>::init(n, policy).run(undisturbed(n, items)) == (Model {
            pulled: items,
            logs: Seq::new(n, |i: int| items),
            ..Model::<T>::init(n, policy)
        }),
        offered(undisturbed(n, items)) == items,
    decreases items.len(),
{
    let start = Model::<T>::init(n, policy);
    if items.len() == 0 {
        assert(start.pulled =~= items);
        assert(start.logs =~= Seq::new(n, |i: int| items));
        assert(offered(undisturbed(n, items)) =~= items);
    } else {
        let front = items.drop_last();
        lemma_undisturbed(n, policy, front);
        let mid = start.run(undisturbed(n, front));
        lemma_run_preserves_inv(start, undisturbed(n, front));
        lemma_run_in_parts(start, undisturbed(n, front), round_up_to(items.last(), n));
        lemma_round_up_to(mid, items.last(), n);
        assert(front.push(items.last()) =~= items);
        assert(front + seq![items.last()] =~= items);
        let end = mid.run(round_up_to(items.last(), n));
        assert(end.logs =~= Seq::new(n, |i: int| items));
    }
}

/// Every finite sequence of items reaches every subscriber. Whatever the
/// items, the policy and the number of subscribers, the undisturbed broadcast
/// followed by the end of the source is an orderly run that drains the
/// source, and in the end every subscriber has received exactly the items
/// offered, in order.
pub proof fn lemma_broadcast_reaches_everyone<T>(n: nat, policy: FailurePolicy, items: Seq<T>)
    requires
        n <= usize::MAX,
    ensures
        Model::<T>::init(n, policy).orderly(undisturbed(n, items).push(Event::End)),
        offered(undisturbed(n, items).push(Event::End)) == items,
        Model::<T>::init(n, policy).run(undisturbed(n, items).push(Event::End)) == (Model {
            stage: Stage::Drained,
            pulled: items,
            logs: Seq::new(n, |i: int| items),
            ..Model::<T>::init(n, policy)
        }),
{
    lemma_undisturbed(n, policy, items);
    let events = undisturbed(n, items).push(Event::End);
    assert(events.drop_last() =~= undisturbed(n, items));
    assert(events.last() == Event::<T>::End);
}

/// A feed without subscribers drains its source and does nothing else. The
/// run is orderly, it never faults, each item is answered by a request for
/// the next one, and in the end the whole source has been pulled.
pub proof fn lemma_no_subscribers_drains_source<T>(policy: FailurePolicy, items: Seq<T>)
    ensures
        Model::<T>::init(0, policy).orderly(undisturbed(0, items).push(Event::End)),
        Model::<T>::init(0, policy).run(undisturbed(0, items).push(Event::End)) == (Model {
            stage: Stage::Drained,
            pulled: items,
            ..Model::<T>::init(0, policy)
        }),
        forall|k: int|
            0 <= k < items.len() ==> #[trigger] Model::<T>::init(0, policy).run(
                undisturbed(0, items.take(k)),
            ).reaction(Event::Item(items[k])) == Reaction::Pull,
{
    lemma_broadcast_reaches_everyone(0, policy, items);
    assert(Seq::new(0, |i: int| items) =~= Model::<T>::init(0, policy).logs);
    assert forall|k: int| 0 <= k < items.len() implies #[trigger] Model::<T>::init(0, policy).run(
        undisturbed(0, items.take(k)),
    ).reaction(Event::Item(items[k])) == Reaction::Pull by {
        lemma_undisturbed::<T>(0, policy, items.take(k));
        let m = Model::<T>::init(0, policy).run(undisturbed(0, items.take(k)));
        assert((Model { pulled: m.pulled.push(items[k]), ..m }).settled());
    }
}

/// One stalled mailbox stalls the whole broadcast. While the mailbox of a
/// lagging subscriber neither accepts the current item nor is found closed,
/// and no other closed mailbox ends the broadcast, the task keeps waiting
/// whatever else is reported: it pulls nothing more from the source, so that
/// no subscriber receives anything beyond the current item.
pub proof fn lemma_stalled_mailbox_stalls_everyone<T>(
    m: Model<T>,
    j: usize,
    events: Seq<Event<T>>,
)
    requires
        m.inv(),
        m.stage is AwaitingSends,
        m.lags(j as int),
        forall|k: int|
            0 <= k < events.len() ==> events[k] != Event::<T>::Accepted(j) && events[k]
                != Event::<T>::Closed(j),
        m.policy is AbortAllOnAnyFailure ==> forall|k: int|
            0 <= k < events.len() ==> !(events[k] is Closed),
    ensures
        m.run(events).stage is AwaitingSends,
        m.run(events).pulled == m.pulled,
        m.run(events).logs[j as int] == m.logs[j as int],
        m.run(events).lags(j as int),
        forall|i: int|
            0 <= i < m.logs.len() ==> (#[trigger] m.run(events).logs[i]).len() <= m.pulled.len(),
    decreases events.len(),
{
    lemma_run_preserves_inv(m, events);
    let end = m.run(events);
    if events.len() > 0 {
        let front = events.drop_last();
        assert(forall|k: int| 0 <= k < front.len() ==> front[k] == events[k]);
        lemma_stalled_mailbox_stalls_everyone(m, j, front);
        lemma_run_preserves_inv(m, front);
        let mid = m.run(front);
        let event = events.last();
        assert(event == events[events.len() - 1]);
        if mid.expects(event) {
            match event {
                Event::Accepted(i) => {
                    lemma_credited(mid, i as int);
                    assert(mid.credited(i as int).lags(j as int));
                },
                Event::Closed(i) => {
                    assert(mid.dropped(i as int).lags(j as int));
                },
                _ => {},
            }
        }
    }
    assert forall|i: int| 0 <= i < m.logs.len() implies (#[trigger] end.logs[i]).len()
        <= m.pulled.len() by {
        assert(end.logs[i].is_prefix_of(end.pulled));
    }
}


/// A log grows only by what its mailbox accepts: it never holds more items
/// than acceptances were reported.
pub proof fn lemma_log_counts_acceptances<T>(m: Model<T>, events: Seq<Event<T>>, j: usize)
    requires
        m.inv(),
        j < m.subscribers(),
    ensures
        m.run(events).logs[j as int].len() <= m.logs[j as int].len() + acceptances(events, j),
    decreases events.len(),
{
    if events.len() > 0 {
        let front = events.drop_last();
        lemma_log_counts_acceptances(m, front, j);
        lemma_run_preserves_inv(m, front);
    }
}

/// A mailbox that fills up holds back the whole broadcast. If the mailbox of
/// a subscriber that is still served has accepted no more than `capacity`
/// items, then no more than `capacity` items were delivered to it, the task
/// has pulled at most one item more from the source, and no subscriber has
/// received more than that.
pub proof fn lemma_full_mailbox_holds_back_everyone<T>(
    n: nat,
    policy: FailurePolicy,
    events: Seq<Event<T>>,
    j: usize,
    capacity: nat,
)
    requires
        j < n,
        acceptances(events, j) <= capacity,
        Model::<T>::init(n, policy).run(events).serves(j as int),
    ensures
        Model::<T>::init(n, policy).run(events).logs[j as int].len() <= capacity,
        Model::<T>::init(n, policy).run(events).pulled.len() <= capacity + 1,
        forall|i: int|
            0 <= i < n ==> (#[trigger] Model::<T>::init(n, policy).run(events).logs[i]).len()
                <= capacity + 1,
{
    let start = Model::<T>::init(n, policy);
    lemma_log_counts_acceptances(start, events, j);
    lemma_run_preserves_inv(start, events);
    let end = start.run(events);
    assert forall|i: int| 0 <= i < n implies (#[trigger] end.logs[i]).len() <= capacity + 1 by {
        assert(end.logs[i].is_prefix_of(end.pulled));
    }
}

/// The recipients of a delivery are exactly the subscribers still served,
/// each once, in registration order.
pub proof fn lemma_recipients(served: Seq<bool>)
    ensures
        recipients(served).len() <= served.len(),
        forall|k: int|
            0 <= k < recipients(served).len() ==> 0 <= #[trigger] recipients(served)[k]
                < served.len() && served[recipients(served)[k]],
        forall|k: int, l: int|
            0 <= k < l < recipients(served).len() ==> recipients(served)[k] < recipients(
                served,
            )[l],
        forall|i: int| 0 <= i < served.len() && served[i] ==> recipients(served).contains(i),
    decreases served.len(),
{
    if served.len() > 0 {
        let front = served.drop_last();
        let last = served.len() - 1;
        lemma_recipients(front);
        assert(forall|i: int| 0 <= i < front.len() ==> front[i] == served[i]);
        assert forall|i: int| 0 <= i < served.len() && served[i] implies recipients(
            served,
        ).contains(i) by {
            if i < last {
                let k = choose|k: int|
                    0 <= k < recipients(front).len() && recipients(front)[k] == i;
                assert(recipients(served)[k] == i);
            } else {
                assert(recipients(served)[recipients(front).len() as int] == i);
            }
        }
    }
}

/// While everybody is served, a delivery goes to every subscriber: the
/// recipient at position `i` is subscriber `i`.
pub proof fn lemma_recipients_when_all_served(served: Seq<bool>)
    requires
        forall|i: int| 0 <= i < served.len() ==> served[i],
    ensures
        recipients(served) == Seq::new(served.len(), |i: int| i),
    decreases served.len(),
{
    if served.len() > 0 {
        let front = served.drop_last();
        assert(forall|i: int| 0 <= i < front.len() ==> front[i] == served[i]);
        lemma_recipients_when_all_served(front);
    }
    assert(recipients(served) =~= Seq::new(served.len(), |i: int| i));
}

} // verus!
