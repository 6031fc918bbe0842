//! The run as a whole: the coordinator, the workers and the messages that are on
//! their way between them. Whichever of them moves next, every worker holds at
//! most one batch at a time, the run comes to an end, and at its end every worker
//! has been told to stop and has stopped.

use crate::coordinator::{
    lemma_step_keeps_the_statistics, next, outstanding, ActionView, CoordinatorView,
};
use crate::data_structures::{MessageView, StatisticView};
use crate::dispatcher::batch_tuples;
use crate::dispatcher::fresh_statistics;
use crate::enumerator::{addresses_for, all_addresses, all_tuples, lemma_addresses_for_len};
use crate::worker::{reply, Reply};
use vstd::multiset::Multiset;
use vstd::prelude::*;
use vstd::seq_lib::lemma_multiset_commutative;

verus! {

broadcast use vstd::multiset::group_multiset_axioms;

/// Whether a worker is still in its loop.
pub enum Phase {
    Running,
    Stopped,
}

/// The state of a run.
pub struct System {
    /// The state of the coordinator.
    pub coordinator: CoordinatorView,
    /// The coordinator waits for a message.
    pub awaiting: bool,
    /// The coordinator has asked for the workers to be joined.
    pub joined: bool,
    /// The messages on their way to the coordinator, oldest first.
    pub notices: Seq<MessageView>,
    /// For every worker the messages on their way to it, oldest first.
    pub inboxes: Seq<Seq<MessageView>>,
    /// For every worker whether it is still in its loop.
    pub phases: Seq<Phase>,
    /// The statistics that workers have processed.
    pub done: Multiset<StatisticView>,
}

/// Who moves next.
pub enum Move {
    /// The coordinator takes a step, with the oldest message if it waits for one.
    Coordinator,
    /// The worker of this index takes its oldest message.
    Worker(int),
}

/// The start of a run: every worker has announced itself free, and nothing else
/// has happened.
pub open spec fn initial(coordinator: CoordinatorView) -> System {
    System {
        coordinator,
        awaiting: false,
        joined: false,
        notices: Seq::new(coordinator.workers, |w: int| MessageView::Free(w as usize)),
        inboxes: Seq::new(coordinator.workers, |w: int| Seq::empty()),
        phases: Seq::new(coordinator.workers, |w: int| Phase::Running),
        done: Multiset::empty(),
    }
}

/// The move can be made: the coordinator moves until it has asked to join, and
/// while it waits only if a message has arrived; a worker moves while it is in its
/// loop and a message has arrived.
pub open spec fn enabled(s: System, m: Move) -> bool {
    match m {
        Move::Coordinator => !s.joined && (s.awaiting ==> s.notices.len() > 0),
        Move::Worker(w) => {
            &&& 0 <= w < s.inboxes.len()
            &&& w < s.phases.len()
            &&& s.phases[w] is Running
            &&& s.inboxes[w].len() > 0
        },
    }
}

/// The state after the coordinator's step has led to `coordinator` and `action`.
pub open spec fn perform(s: System, coordinator: CoordinatorView, action: ActionView) -> System {
    match action {
        ActionView::Receive => System { coordinator, awaiting: true, ..s },
        ActionView::Send(worker, message) => System {
            coordinator,
            awaiting: false,
            inboxes: if worker < s.inboxes.len() {
                s.inboxes.update(worker as int, s.inboxes[worker as int].push(message))
            } else {
                s.inboxes
            },
            ..s
        },
        ActionView::Join => System { coordinator, awaiting: false, joined: true, ..s },
    }
}

/// The state after the move.
pub open spec fn after(s: System, m: Move) -> System {
    match m {
        Move::Coordinator => if s.awaiting {
            let step = next(s.coordinator, Some(s.notices.first()));
            perform(System { notices: s.notices.drop_first(), ..s }, step.0, step.1)
        } else {
            let step = next(s.coordinator, None);
            perform(s, step.0, step.1)
        },
        Move::Worker(w) => {
            let rest = System { inboxes: s.inboxes.update(w, s.inboxes[w].drop_first()), ..s };
            match reply(w as usize, s.inboxes[w].first()) {
                Reply::Announce(notice) => System {
                    notices: s.notices.push(notice),
                    done: s.done.add(work_of(s.inboxes[w].first())),
                    ..rest
                },
                Reply::Exit => System { phases: s.phases.update(w, Phase::Stopped), ..rest },
                Reply::Ignore => rest,
            }
        },
    }
}

/// The moves can be made one after the other.
pub open spec fn possible(s: System, moves: Seq<Move>) -> bool
    decreases moves.len(),
{
    moves.len() > 0 ==> possible(s, moves.drop_last()) && enabled(
        reached(s, moves.drop_last()),
        moves.last(),
    )
}

/// The state after the moves.
pub open spec fn reached(s: System, moves: Seq<Move>) -> System
    decreases moves.len(),
{
    if moves.len() == 0 {
        s
    } else {
        after(reached(s, moves.drop_last()), moves.last())
    }
}

/// How many of the messages are wanted.
pub open spec fn count(messages: Seq<MessageView>, wanted: spec_fn(MessageView) -> bool) -> nat
    decreases messages.len(),
{
    if messages.len() == 0 {
        0
    } else {
        count(messages.drop_last(), wanted) + if wanted(messages.last()) {
            1nat
        } else {
            0nat
        }
    }
}

/// The notification of this worker.
pub open spec fn is_notice_of(worker: usize) -> spec_fn(MessageView) -> bool {
    |message: MessageView| message == MessageView::Free(worker)
}

/// A batch to process.
pub open spec fn is_work() -> spec_fn(MessageView) -> bool {
    |message: MessageView| message is Process
}

/// A stop signal.
pub open spec fn is_stop() -> spec_fn(MessageView) -> bool {
    |message: MessageView| message is Stop
}

/// How many messages are on their way to workers.
pub open spec fn on_the_way(inboxes: Seq<Seq<MessageView>>) -> nat
    decreases inboxes.len(),
{
    if inboxes.len() == 0 {
        0
    } else {
        on_the_way(inboxes.drop_last()) + inboxes.last().len()
    }
}

/// The statistics that a message brings to a worker.
pub open spec fn work_of(message: MessageView) -> Multiset<StatisticView> {
    match message {
        MessageView::Process(batch) => batch.to_multiset(),
        _ => Multiset::empty(),
    }
}

/// The statistics that wait in the queue of a worker.
pub open spec fn queued(inbox: Seq<MessageView>) -> Multiset<StatisticView>
    decreases inbox.len(),
{
    if inbox.len() == 0 {
        Multiset::empty()
    } else {
        queued(inbox.drop_last()).add(work_of(inbox.last()))
    }
}

/// The statistics that are on their way to workers.
pub open spec fn in_flight(inboxes: Seq<Seq<MessageView>>) -> Multiset<StatisticView>
    decreases inboxes.len(),
{
    if inboxes.len() == 0 {
        Multiset::empty()
    } else {
        in_flight(inboxes.drop_last()).add(queued(inboxes.last()))
    }
}

/// What holds of one worker throughout a run: it has announced itself free or
/// holds one batch, never both and never two batches; it has been told to stop
/// once if the coordinator has come to it, and not before; no notification is
/// sent to it; nothing follows a stop signal; and nothing waits for a worker that
/// has stopped.
pub open spec fn worker_invariant(s: System, w: int) -> bool {
    let inbox = s.inboxes[w];
    &&& count(s.notices, is_notice_of(w as usize)) + count(inbox, is_work()) == 1
    &&& count(inbox, is_stop()) + (if s.phases[w] is Stopped {
        1nat
    } else {
        0nat
    }) == (if w < s.coordinator.stopped {
        1nat
    } else {
        0nat
    })
    &&& forall|i: int| 0 <= i < inbox.len() ==> !((#[trigger] inbox[i]) is Free)
    &&& forall|i: int| 0 <= i < inbox.len() - 1 ==> !((#[trigger] inbox[i]) is Stop)
    &&& s.phases[w] is Stopped ==> inbox.len() == 0
}

/// What holds throughout a run.
pub open spec fn system_invariant(s: System) -> bool {
    let workers = s.coordinator.workers;
    &&& workers <= usize::MAX
    &&& s.inboxes.len() == workers
    &&& s.phases.len() == workers
    &&& s.coordinator.stopped <= workers
    &&& s.awaiting <==> s.coordinator.waiting is Some
    &&& s.joined ==> s.coordinator.stopped == workers
    &&& s.coordinator.stopped > 0 ==> s.coordinator.pending.len() == 0 && !s.awaiting
    &&& forall|i: int|
        0 <= i < s.notices.len() ==> ((#[trigger] s.notices[i]) matches MessageView::Free(w) && w
            < workers)
    &&& forall|w: int| 0 <= w < workers ==> #[trigger] worker_invariant(s, w)
}

/// Every statistic of `all` is in one place: processed, on its way to a worker,
/// or still with the coordinator.
pub open spec fn accounted(s: System, all: Multiset<StatisticView>) -> bool {
    s.done.add(in_flight(s.inboxes)).add(outstanding(s.coordinator).to_multiset()) =~= all
}

/// A bound on the moves that are left.
pub open spec fn potential(s: System) -> nat {
    (4 * s.coordinator.pending.len() + (if s.coordinator.waiting is Some {
        3nat
    } else {
        0nat
    }) + on_the_way(s.inboxes) + 2 * (s.coordinator.workers - s.coordinator.stopped) + (if s.awaiting {
        0nat
    } else {
        1nat
    }) + (if s.joined {
        0nat
    } else {
        1nat
    })) as nat
}

/// One more message is counted if it is wanted.
pub proof fn lemma_count_push(
    messages: Seq<MessageView>,
    message: MessageView,
    wanted: spec_fn(MessageView) -> bool,
)
    ensures
        count(messages.push(message), wanted) == count(messages, wanted) + if wanted(message) {
            1nat
        } else {
            0nat
        },
{
    assert(messages.push(message).drop_last() =~= messages);
}

/// Without its oldest message, a queue counts one less if that message was wanted.
pub proof fn lemma_count_drop_first(messages: Seq<MessageView>, wanted: spec_fn(MessageView) -> bool)
    requires
        messages.len() > 0,
    ensures
        count(messages, wanted) == count(messages.drop_first(), wanted) + if wanted(
            messages.first(),
        ) {
            1nat
        } else {
            0nat
        },
    decreases messages.len(),
{
    if messages.len() == 1 {
        assert(messages.drop_last() =~= Seq::<MessageView>::empty());
        assert(messages.drop_first() =~= Seq::<MessageView>::empty());
    } else {
        lemma_count_drop_first(messages.drop_last(), wanted);
        assert(messages.drop_first().drop_last() =~= messages.drop_last().drop_first());
    }
}

/// A queue counts none exactly when none of its messages is wanted.
pub proof fn lemma_count_none(messages: Seq<MessageView>, wanted: spec_fn(MessageView) -> bool)
    ensures
        count(messages, wanted) == 0 <==> forall|i: int|
            0 <= i < messages.len() ==> !wanted(#[trigger] messages[i]),
    decreases messages.len(),
{
    if messages.len() > 0 {
        lemma_count_none(messages.drop_last(), wanted);
        if count(messages, wanted) == 0 {
            assert forall|i: int| 0 <= i < messages.len() implies !wanted(
                #[trigger] messages[i],
            ) by {
                if i < messages.len() - 1 {
                    assert(messages.drop_last()[i] == messages[i]);
                }
            }
        } else {
            if forall|i: int| 0 <= i < messages.len() ==> !wanted(#[trigger] messages[i]) {
                assert forall|i: int| 0 <= i < messages.drop_last().len() implies !wanted(
                    #[trigger] messages.drop_last()[i],
                ) by {
                    assert(messages.drop_last()[i] == messages[i]);
                }
                assert(!wanted(messages[messages.len() - 1]));
            }
        }
    }
}

/// Among the first notifications that of worker `w` occurs once if it is among
/// them, and not otherwise.
proof fn lemma_count_prefix(workers: nat, upto: nat, w: int)
    requires
        workers <= usize::MAX,
        upto <= workers,
        0 <= w < workers,
    ensures
        count(
            Seq::new(workers, |v: int| MessageView::Free(v as usize)).take(upto as int),
            is_notice_of(w as usize),
        ) == if w < upto {
            1nat
        } else {
            0nat
        },
    decreases upto,
{
    let all = Seq::new(workers, |v: int| MessageView::Free(v as usize));
    if upto > 0 {
        lemma_count_prefix(workers, (upto - 1) as nat, w);
        assert(all.take(upto as int).drop_last() =~= all.take(upto - 1));
        assert(all.take(upto as int).last() == MessageView::Free((upto - 1) as usize));
    }
}

/// At the start the notification of every worker is on its way, once.
proof fn lemma_count_initial(workers: nat, w: int)
    requires
        workers <= usize::MAX,
        0 <= w < workers,
    ensures
        count(Seq::new(workers, |v: int| MessageView::Free(v as usize)), is_notice_of(w as usize))
            == 1,
        count(Seq::<MessageView>::empty(), is_work()) == 0,
        count(Seq::<MessageView>::empty(), is_stop()) == 0,
{
    lemma_count_prefix(workers, workers, w);
    assert(Seq::new(workers, |v: int| MessageView::Free(v as usize)).take(workers as int)
        =~= Seq::new(workers, |v: int| MessageView::Free(v as usize)));
}

/// A change of one worker's queue changes the number of messages on their way by
/// the change of that queue's length.
pub proof fn lemma_on_the_way_update(
    inboxes: Seq<Seq<MessageView>>,
    w: int,
    inbox: Seq<MessageView>,
)
    requires
        0 <= w < inboxes.len(),
    ensures
        on_the_way(inboxes.update(w, inbox)) + inboxes[w].len() == on_the_way(inboxes)
            + inbox.len(),
    decreases inboxes.len(),
{
    let changed = inboxes.update(w, inbox);
    if w == inboxes.len() - 1 {
        assert(changed.drop_last() =~= inboxes.drop_last());
    } else {
        lemma_on_the_way_update(inboxes.drop_last(), w, inbox);
        assert(changed.drop_last() =~= inboxes.drop_last().update(w, inbox));
    }
}

/// No statistics make up the empty multiset.
pub proof fn lemma_no_statistics()
    ensures
        Seq::<StatisticView>::empty().to_multiset() == Multiset::<StatisticView>::empty(),
{
    vstd::seq_lib::to_multiset_len(Seq::<StatisticView>::empty());
    vstd::multiset::lemma_multiset_empty_len(Seq::<StatisticView>::empty().to_multiset());
}

/// One more message adds its statistics to the queue.
pub proof fn lemma_queued_push(inbox: Seq<MessageView>, message: MessageView)
    ensures
        queued(inbox.push(message)) == queued(inbox).add(work_of(message)),
{
    assert(inbox.push(message).drop_last() =~= inbox);
}

/// The queue holds the statistics of its oldest message and those of the rest.
pub proof fn lemma_queued_drop_first(inbox: Seq<MessageView>)
    requires
        inbox.len() > 0,
    ensures
        queued(inbox) =~= queued(inbox.drop_first()).add(work_of(inbox.first())),
    decreases inbox.len(),
{
    if inbox.len() == 1 {
        assert(inbox.drop_last() =~= Seq::<MessageView>::empty());
        assert(inbox.drop_first() =~= Seq::<MessageView>::empty());
    } else {
        lemma_queued_drop_first(inbox.drop_last());
        assert(inbox.drop_first().drop_last() =~= inbox.drop_last().drop_first());
    }
}

/// A change of one worker's queue changes what is on its way by the change of
/// that queue.
pub proof fn lemma_in_flight_update(
    inboxes: Seq<Seq<MessageView>>,
    w: int,
    inbox: Seq<MessageView>,
)
    requires
        0 <= w < inboxes.len(),
    ensures
        in_flight(inboxes.update(w, inbox)).add(queued(inboxes[w])) =~= in_flight(inboxes).add(
            queued(inbox),
        ),
    decreases inboxes.len(),
{
    let changed = inboxes.update(w, inbox);
    if w == inboxes.len() - 1 {
        assert(changed.drop_last() =~= inboxes.drop_last());
    } else {
        lemma_in_flight_update(inboxes.drop_last(), w, inbox);
        assert(changed.drop_last() =~= inboxes.drop_last().update(w, inbox));
        let before = in_flight(inboxes.drop_last());
        let after = in_flight(inboxes.drop_last().update(w, inbox));
        assert(inboxes.drop_last()[w] == inboxes[w]);
        assert forall|x: StatisticView|
            after.count(x) + queued(inboxes[w]).count(x) == before.count(x) + queued(inbox).count(
                x,
            ) by {
            assert(after.add(queued(inboxes[w])).count(x) == before.add(queued(inbox)).count(x));
        }
    }
}

/// Nothing is on its way where every queue is empty.
pub proof fn lemma_in_flight_empty(inboxes: Seq<Seq<MessageView>>)
    requires
        forall|w: int| 0 <= w < inboxes.len() ==> (#[trigger] inboxes[w]).len() == 0,
    ensures
        in_flight(inboxes) =~= Multiset::empty(),
    decreases inboxes.len(),
{
    if inboxes.len() > 0 {
        assert(inboxes[inboxes.len() - 1].len() == 0);
        assert forall|w: int| 0 <= w < inboxes.drop_last().len() implies (
        #[trigger] inboxes.drop_last()[w]).len() == 0 by {
            assert(inboxes[w].len() == 0);
        }
        lemma_in_flight_empty(inboxes.drop_last());
    }
}

/// Where the next batch has no address, no tuple is left behind it.
pub proof fn lemma_nothing_left(pending: Seq<Seq<u16>>, nonce_length: nat, slice_size: nat)
    requires
        addresses_for(
            pending.take(batch_tuples(pending.len(), nonce_length, slice_size) as int),
            nonce_length,
        ).len() == 0,
    ensures
        pending.skip(batch_tuples(pending.len(), nonce_length, slice_size) as int).len() == 0,
{
    let taken = batch_tuples(pending.len(), nonce_length, slice_size);
    lemma_addresses_for_len(pending.take(taken as int), nonce_length);
    if nonce_length > 0 {
        assert(pending.take(taken as int).len() == 0) by (nonlinear_arith)
            requires
                pending.take(taken as int).len() * nonce_length == 0,
                nonce_length > 0,
        ;
    }
}

/// Where the next batch has an address, it takes a tuple.
pub proof fn lemma_something_taken(pending: Seq<Seq<u16>>, nonce_length: nat, slice_size: nat)
    requires
        addresses_for(
            pending.take(batch_tuples(pending.len(), nonce_length, slice_size) as int),
            nonce_length,
        ).len() > 0,
    ensures
        1 <= batch_tuples(pending.len(), nonce_length, slice_size) <= pending.len(),
{
    let taken = batch_tuples(pending.len(), nonce_length, slice_size);
    lemma_addresses_for_len(pending.take(taken as int), nonce_length);
    assert(taken <= pending.len()) by {
        if nonce_length > 0 && pending.len() > slice_size / nonce_length {
        }
    }
    if taken == 0 {
        assert(pending.take(0).len() * nonce_length == 0) by (nonlinear_arith)
            requires
                pending.take(0).len() == 0,
        ;
    }
}

/// A run starts in a state of which the invariant holds, with every statistic
/// still with the coordinator.
pub proof fn lemma_initial_invariant(coordinator: CoordinatorView)
    requires
        coordinator.workers <= usize::MAX,
        coordinator.waiting is None,
        coordinator.stopped == 0,
    ensures
        system_invariant(initial(coordinator)),
        accounted(initial(coordinator), outstanding(coordinator).to_multiset()),
{
    let s = initial(coordinator);
    lemma_in_flight_empty(s.inboxes);
    assert forall|w: int| 0 <= w < coordinator.workers implies #[trigger] worker_invariant(
        s,
        w,
    ) by {
        lemma_count_initial(coordinator.workers, w);
    }
}

/// A move of a worker keeps the invariant and lowers the bound.
pub proof fn lemma_worker_moves(s: System, w: int)
    requires
        system_invariant(s),
        enabled(s, Move::Worker(w)),
    ensures
        system_invariant(after(s, Move::Worker(w))),
        potential(after(s, Move::Worker(w))) < potential(s),
        after(s, Move::Worker(w)).coordinator.workers == s.coordinator.workers,
{
    let t = after(s, Move::Worker(w));
    let inbox = s.inboxes[w];
    let rest = inbox.drop_first();
    let workers = s.coordinator.workers;
    assert(worker_invariant(s, w));
    assert(!(inbox[0] is Free));
    lemma_count_drop_first(inbox, is_work());
    lemma_count_drop_first(inbox, is_stop());
    lemma_on_the_way_update(s.inboxes, w, rest);
    assert(t.inboxes[w] == rest);
    if inbox[0] is Stop {
        assert(inbox.len() == 1);
    }
    assert forall|v: int| 0 <= v < workers implies #[trigger] worker_invariant(t, v) by {
        assert(worker_invariant(s, v));
        if inbox[0] is Process {
            lemma_count_push(s.notices, MessageView::Free(w as usize), is_notice_of(v as usize));
        }
        if v == w {
            assert forall|i: int| 0 <= i < rest.len() implies !((#[trigger] rest[i]) is Free) by {
                assert(rest[i] == inbox[i + 1]);
            }
            assert forall|i: int| 0 <= i < rest.len() - 1 implies !((#[trigger] rest[i]) is Stop) by {
                assert(rest[i] == inbox[i + 1]);
            }
        } else {
            assert(t.inboxes[v] == s.inboxes[v]);
            assert(t.phases[v] == s.phases[v]);
        }
    }
    assert forall|i: int| 0 <= i < t.notices.len() implies ((#[trigger] t.notices[i]) matches MessageView::Free(
        u,
    ) && u < workers) by {
        if i < s.notices.len() {
            assert(t.notices[i] == s.notices[i]);
        }
    }
}

/// A move of the coordinator keeps the invariant and lowers the bound.
pub proof fn lemma_coordinator_moves(s: System)
    requires
        system_invariant(s),
        enabled(s, Move::Coordinator),
    ensures
        system_invariant(after(s, Move::Coordinator)),
        potential(after(s, Move::Coordinator)) < potential(s),
        after(s, Move::Coordinator).coordinator.workers == s.coordinator.workers,
{
    let t = after(s, Move::Coordinator);
    let c = s.coordinator;
    let workers = c.workers;
    if s.awaiting {
        let u = s.notices[0]->Free_0 as int;
        assert(s.notices[0] matches MessageView::Free(x) && x < workers);
        let inbox = s.inboxes[u];
        let message = MessageView::Process(c.waiting->0);
        assert(t.inboxes == s.inboxes.update(u, inbox.push(message)));
        assert(worker_invariant(s, u));
        lemma_on_the_way_update(s.inboxes, u, inbox.push(message));
        lemma_count_none(inbox, is_stop());
        assert forall|v: int| 0 <= v < workers implies #[trigger] worker_invariant(t, v) by {
            assert(worker_invariant(s, v));
            lemma_count_drop_first(s.notices, is_notice_of(v as usize));
            if v == u {
                lemma_count_push(inbox, message, is_work());
                lemma_count_push(inbox, message, is_stop());
                let longer = inbox.push(message);
                assert forall|i: int| 0 <= i < longer.len() - 1 implies !((
                #[trigger] longer[i]) is Stop) by {
                    assert(longer[i] == inbox[i]);
                    assert(!is_stop()(inbox[i]));
                }
            } else {
                assert(t.inboxes[v] == s.inboxes[v]);
            }
        }
        assert forall|i: int| 0 <= i < t.notices.len() implies ((
        #[trigger] t.notices[i]) matches MessageView::Free(x) && x < workers) by {
            assert(t.notices[i] == s.notices[i + 1]);
        }
    } else {
        let taken = batch_tuples(c.pending.len(), c.nonce_length, c.slice_size);
        let addresses = addresses_for(c.pending.take(taken as int), c.nonce_length);
        if addresses.len() > 0 {
            lemma_something_taken(c.pending, c.nonce_length, c.slice_size);
            if c.stopped > 0 {
                assert(c.pending.take(taken as int) =~= Seq::<Seq<u16>>::empty());
            }
            assert forall|v: int| 0 <= v < workers implies #[trigger] worker_invariant(t, v) by {
                assert(worker_invariant(s, v));
            }
        } else {
            lemma_nothing_left(c.pending, c.nonce_length, c.slice_size);
            if c.stopped < workers {
                let u = c.stopped as int;
                let inbox = s.inboxes[u];
                let longer = inbox.push(MessageView::Stop);
                assert(t.inboxes == s.inboxes.update(u, longer));
                assert(worker_invariant(s, u));
                lemma_on_the_way_update(s.inboxes, u, longer);
                lemma_count_none(inbox, is_stop());
                assert forall|v: int| 0 <= v < workers implies #[trigger] worker_invariant(
                    t,
                    v,
                ) by {
                    assert(worker_invariant(s, v));
                    if v == u {
                        lemma_count_push(inbox, MessageView::Stop, is_work());
                        lemma_count_push(inbox, MessageView::Stop, is_stop());
                        assert forall|i: int| 0 <= i < longer.len() - 1 implies !((
                        #[trigger] longer[i]) is Stop) by {
                            assert(longer[i] == inbox[i]);
                            assert(!is_stop()(inbox[i]));
                        }
                    } else {
                        assert(t.inboxes[v] == s.inboxes[v]);
                    }
                }
            } else {
                assert forall|v: int| 0 <= v < workers implies #[trigger] worker_invariant(
                    t,
                    v,
                ) by {
                    assert(worker_invariant(s, v));
                }
            }
        }
    }
}

/// Every move keeps the invariant and the pool, and lowers the bound.
pub proof fn lemma_move(s: System, m: Move)
    requires
        system_invariant(s),
        enabled(s, m),
    ensures
        system_invariant(after(s, m)),
        potential(after(s, m)) < potential(s),
        after(s, m).coordinator.workers == s.coordinator.workers,
{
    match m {
        Move::Coordinator => lemma_coordinator_moves(s),
        Move::Worker(w) => lemma_worker_moves(s, w),
    }
}

/// A step of the coordinator leaves every statistic in one place.
pub proof fn lemma_coordinator_accounts(s: System, all: Multiset<StatisticView>)
    requires
        system_invariant(s),
        enabled(s, Move::Coordinator),
        accounted(s, all),
    ensures
        accounted(after(s, Move::Coordinator), all),
{
    let t = after(s, Move::Coordinator);
    let received = if s.awaiting {
        Some(s.notices.first())
    } else {
        None
    };
    let step = next(s.coordinator, received);
    let sent = crate::coordinator::sent_by(step.1);
    assert(t.coordinator == step.0);
    assert(t.done == s.done);
    lemma_no_statistics();
    lemma_step_keeps_the_statistics(s.coordinator, received);
    lemma_multiset_commutative(sent, outstanding(step.0));
    let before = outstanding(s.coordinator).to_multiset();
    let later = outstanding(t.coordinator).to_multiset();
    assert(before == sent.to_multiset().add(later));
    assert(in_flight(t.inboxes) =~= in_flight(s.inboxes).add(sent.to_multiset())) by {
        match step.1 {
            ActionView::Send(u, message) => {
                if s.awaiting {
                    assert(s.notices[0] matches MessageView::Free(x) && x < s.coordinator.workers);
                }
                let inbox = s.inboxes[u as int];
                let longer = inbox.push(message);
                assert(t.inboxes == s.inboxes.update(u as int, longer));
                lemma_queued_push(inbox, message);
                lemma_in_flight_update(s.inboxes, u as int, longer);
                assert(work_of(message) == sent.to_multiset());
                assert forall|x: StatisticView|
                    in_flight(t.inboxes).count(x) == in_flight(s.inboxes).count(x)
                        + sent.to_multiset().count(x) by {
                    assert(in_flight(t.inboxes).add(queued(inbox)).count(x) == in_flight(
                        s.inboxes,
                    ).add(queued(longer)).count(x));
                    assert(queued(longer).count(x) == queued(inbox).count(x) + work_of(
                        message,
                    ).count(x));
                }
            },
            _ => {
                assert(t.inboxes == s.inboxes);
                assert(sent.to_multiset() == Multiset::<StatisticView>::empty());
            },
        }
    }
    assert forall|x: StatisticView|
        t.done.add(in_flight(t.inboxes)).add(later).count(x) == s.done.add(
            in_flight(s.inboxes),
        ).add(before).count(x) by {
        assert(before.count(x) == sent.to_multiset().count(x) + later.count(x));
        assert(in_flight(t.inboxes).count(x) == in_flight(s.inboxes).count(x)
            + sent.to_multiset().count(x));
    }
    assert(t.done.add(in_flight(t.inboxes)).add(later) =~= s.done.add(in_flight(s.inboxes)).add(
        before,
    ));
}

/// A step of a worker leaves every statistic in one place.
pub proof fn lemma_worker_accounts(s: System, w: int, all: Multiset<StatisticView>)
    requires
        system_invariant(s),
        enabled(s, Move::Worker(w)),
        accounted(s, all),
    ensures
        accounted(after(s, Move::Worker(w)), all),
{
    let t = after(s, Move::Worker(w));
    let inbox = s.inboxes[w];
    let rest = inbox.drop_first();
    let taken = work_of(inbox.first());
    assert(worker_invariant(s, w));
    assert(!(inbox[0] is Free));
    assert(t.coordinator == s.coordinator);
    assert(t.inboxes == s.inboxes.update(w, rest));
    assert(t.done =~= s.done.add(taken)) by {
        if inbox[0] is Stop {
            assert(taken == Multiset::<StatisticView>::empty());
        }
    }
    lemma_queued_drop_first(inbox);
    lemma_in_flight_update(s.inboxes, w, rest);
    let later = outstanding(s.coordinator).to_multiset();
    assert forall|x: StatisticView|
        t.done.add(in_flight(t.inboxes)).add(later).count(x) == s.done.add(
            in_flight(s.inboxes),
        ).add(later).count(x) by {
        assert(in_flight(t.inboxes).add(queued(inbox)).count(x) == in_flight(s.inboxes).add(
            queued(rest),
        ).count(x));
        assert(queued(inbox).count(x) == queued(rest).count(x) + taken.count(x));
        assert(t.done.count(x) == s.done.count(x) + taken.count(x));
    }
    assert(t.done.add(in_flight(t.inboxes)).add(later) =~= s.done.add(in_flight(s.inboxes)).add(
        later,
    ));
}

/// A move leaves every statistic in one place.
pub proof fn lemma_move_accounts(s: System, m: Move, all: Multiset<StatisticView>)
    requires
        system_invariant(s),
        enabled(s, m),
        accounted(s, all),
    ensures
        accounted(after(s, m), all),
{
    match m {
        Move::Coordinator => lemma_coordinator_accounts(s, all),
        Move::Worker(w) => lemma_worker_accounts(s, w, all),
    }
}

/// Whichever moves are made, the invariant holds after them, every statistic is
/// still in one place, and the moves are no more than the bound at the start
/// allows: every run comes to an end.
pub proof fn lemma_every_run_ends(s: System, moves: Seq<Move>, all: Multiset<StatisticView>)
    requires
        system_invariant(s),
        accounted(s, all),
        possible(s, moves),
    ensures
        system_invariant(reached(s, moves)),
        accounted(reached(s, moves), all),
        potential(reached(s, moves)) + moves.len() <= potential(s),
        reached(s, moves).coordinator.workers == s.coordinator.workers,
    decreases moves.len(),
{
    if moves.len() > 0 {
        lemma_every_run_ends(s, moves.drop_last(), all);
        lemma_move(reached(s, moves.drop_last()), moves.last());
        lemma_move_accounts(reached(s, moves.drop_last()), moves.last(), all);
    }
}

/// No worker ever has two batches on its way, nor one while its notification is
/// on its way.
pub proof fn lemma_one_batch_at_a_time(s: System, w: int)
    requires
        system_invariant(s),
        0 <= w < s.coordinator.workers,
    ensures
        count(s.inboxes[w], is_work()) + count(s.notices, is_notice_of(w as usize)) == 1,
{
    assert(worker_invariant(s, w));
}

/// When no move is left in a run with a worker, the coordinator has asked to
/// join, nothing is left to hand out or on its way, every worker has been told to
/// stop and has stopped, and the workers have processed every statistic once.
pub proof fn lemma_at_the_end_all_have_stopped(s: System, all: Multiset<StatisticView>)
    requires
        system_invariant(s),
        accounted(s, all),
        s.coordinator.workers >= 1,
        forall|m: Move| !enabled(s, m),
    ensures
        s.done == all,
        s.joined,
        s.coordinator.stopped == s.coordinator.workers,
        s.coordinator.pending.len() == 0,
        s.coordinator.waiting is None,
        forall|w: int|
            0 <= w < s.coordinator.workers ==> (#[trigger] s.phases[w]) is Stopped
                && s.inboxes[w].len() == 0,
{
    let workers = s.coordinator.workers;
    assert(!enabled(s, Move::Coordinator));
    if !s.joined {
        assert(worker_invariant(s, 0));
        assert(!enabled(s, Move::Worker(0)));
        lemma_count_none(s.notices, is_notice_of(0));
        lemma_count_none(s.inboxes[0], is_work());
    }
    assert forall|w: int| 0 <= w < workers implies (#[trigger] s.phases[w]) is Stopped
        && s.inboxes[w].len() == 0 by {
        assert(worker_invariant(s, w));
        assert(!enabled(s, Move::Worker(w)));
        lemma_count_none(s.inboxes[w], is_stop());
    }
    assert forall|w: int| 0 <= w < s.inboxes.len() implies (#[trigger] s.inboxes[w]).len()
        == 0 by {
        assert((s.phases[w]) is Stopped && s.inboxes[w].len() == 0);
    }
    lemma_in_flight_empty(s.inboxes);
    crate::enumerator::lemma_addresses_for_len(s.coordinator.pending, s.coordinator.nonce_length);
    assert(outstanding(s.coordinator) =~= Seq::<StatisticView>::empty());
    lemma_no_statistics();
    assert(s.done =~= all);
}

/// A run of a search with at least one worker, followed until no move is left:
/// it has made no more moves than the bound at its start, every worker has
/// stopped, and the workers have processed the fresh statistic of every address
/// of the search, each once, whichever of them moved when.
pub proof fn lemma_a_run_processes_every_address_once(
    start_bit: u16,
    end_bit: u16,
    header_length: u16,
    nonce_length: u8,
    tuple_size: u16,
    slice_size: usize,
    workers: usize,
    moves: Seq<Move>,
)
    requires
        workers >= 1,
        possible(
            initial(
                CoordinatorView {
                    pending: all_tuples(start_bit, end_bit, header_length, tuple_size),
                    header_length: header_length as nat,
                    nonce_length: nonce_length as nat,
                    slice_size: slice_size as nat,
                    workers: workers as nat,
                    waiting: None,
                    stopped: 0,
                },
            ),
            moves,
        ),
        forall|m: Move|
            !enabled(
                reached(
                    initial(
                        CoordinatorView {
                            pending: all_tuples(start_bit, end_bit, header_length, tuple_size),
                            header_length: header_length as nat,
                            nonce_length: nonce_length as nat,
                            slice_size: slice_size as nat,
                            workers: workers as nat,
                            waiting: None,
                            stopped: 0,
                        },
                    ),
                    moves,
                ),
                m,
            ),
    ensures
        ({
            let start = initial(
                CoordinatorView {
                    pending: all_tuples(start_bit, end_bit, header_length, tuple_size),
                    header_length: header_length as nat,
                    nonce_length: nonce_length as nat,
                    slice_size: slice_size as nat,
                    workers: workers as nat,
                    waiting: None,
                    stopped: 0,
                },
            );
            let end = reached(start, moves);
            &&& moves.len() <= potential(start)
            &&& end.joined
            &&& forall|w: int| 0 <= w < workers ==> (#[trigger] end.phases[w]) is Stopped
            &&& end.done == fresh_statistics(
                all_addresses(start_bit, end_bit, header_length, nonce_length, tuple_size),
            ).to_multiset()
        }),
{
    let coordinator = CoordinatorView {
        pending: all_tuples(start_bit, end_bit, header_length, tuple_size),
        header_length: header_length as nat,
        nonce_length: nonce_length as nat,
        slice_size: slice_size as nat,
        workers: workers as nat,
        waiting: None,
        stopped: 0,
    };
    let all = outstanding(coordinator).to_multiset();
    lemma_initial_invariant(coordinator);
    lemma_every_run_ends(initial(coordinator), moves, all);
    lemma_at_the_end_all_have_stopped(reached(initial(coordinator), moves), all);
    assert(outstanding(coordinator) =~= fresh_statistics(
        all_addresses(start_bit, end_bit, header_length, nonce_length, tuple_size),
    ));
}

} // verus!
