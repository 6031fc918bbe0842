//! The coordinator of a run, as a machine that is stepped from outside: it says
//! what to do next, and is told what was received. It hands every batch to a worker
//! that announced itself free, and when nothing is left it tells every worker to
//! stop and asks for them to be joined.

use crate::data_structures::{views, Message, MessageView, Statistic, StatisticView};
use crate::dispatcher::{batch_tuples, fresh_statistics, is_batch, Dispatcher};
use crate::enumerator::{
    addresses_for, all_tuples, lemma_addresses_for_join, lemma_addresses_for_len,
};
use vstd::prelude::*;

verus! {

/// What the coordinator asks for.
#[derive(Debug)]
pub enum Action {
    /// Wait for the next message of a worker and hand it to the next step.
    Receive,
    /// Send the message to the worker of this index.
    Send(usize, Message),
    /// Every worker was told to stop: wait until all of them have ended. The run
    /// is over.
    Join,
}

/// What an [`Action`] holds, as mathematical values.
pub enum ActionView {
    Receive,
    Send(usize, MessageView),
    Join,
}

impl View for Action {
    type V = ActionView;

    open spec fn view(&self) -> ActionView {
        match *self {
            Action::Receive => ActionView::Receive,
            Action::Send(worker, message) => ActionView::Send(worker, message@),
            Action::Join => ActionView::Join,
        }
    }
}

/// The state of a run, as mathematical values.
pub struct CoordinatorView {
    /// The tuples that have not gone into a batch yet.
    pub pending: Seq<Seq<u16>>,
    /// The number of header bits that the tuples are taken from.
    pub header_length: nat,
    /// The number of nonce bits that every tuple is paired with.
    pub nonce_length: nat,
    /// The batch length that a batch is to exceed.
    pub slice_size: nat,
    /// The number of workers in the pool.
    pub workers: nat,
    /// The batch that waits for a worker to announce itself free.
    pub waiting: Option<Seq<StatisticView>>,
    /// The number of workers that were told to stop.
    pub stopped: nat,
}

/// One step of the coordinator. While a batch waits, a notification of a worker
/// of the pool sends the batch to that worker, and anything else makes the
/// coordinator wait on. With no batch waiting, the next batch is cut and waits; and
/// once no address is left the workers are told to stop, one with each step, and
/// then joined.
pub open spec fn next(state: CoordinatorView, received: Option<MessageView>) -> (
    CoordinatorView,
    ActionView,
) {
    match state.waiting {
        Some(batch) => match received {
            Some(MessageView::Free(worker)) => if worker < state.workers {
                (
                    CoordinatorView { waiting: None, ..state },
                    ActionView::Send(worker, MessageView::Process(batch)),
                )
            } else {
                (state, ActionView::Receive)
            },
            _ => (state, ActionView::Receive),
        },
        None => {
            let taken = batch_tuples(state.pending.len(), state.nonce_length, state.slice_size);
            let addresses = addresses_for(state.pending.take(taken as int), state.nonce_length);
            let rest = state.pending.skip(taken as int);
            if addresses.len() > 0 {
                (
                    CoordinatorView {
                        pending: rest,
                        waiting: Some(fresh_statistics(addresses)),
                        ..state
                    },
                    ActionView::Receive,
                )
            } else if state.stopped < state.workers {
                (
                    CoordinatorView { pending: rest, stopped: state.stopped + 1, ..state },
                    ActionView::Send(state.stopped as usize, MessageView::Stop),
                )
            } else {
                (CoordinatorView { pending: rest, ..state }, ActionView::Join)
            }
        },
    }
}

/// The coordinator of a run.
pub struct Coordinator {
    dispatcher: Dispatcher,
    workers: usize,
    waiting: Option<Vec<Statistic>>,
    stopped: usize,
}

impl View for Coordinator {
    type V = CoordinatorView;

    closed spec fn view(&self) -> CoordinatorView {
        CoordinatorView {
            pending: self.dispatcher.pending(),
            header_length: self.dispatcher.header_length(),
            nonce_length: self.dispatcher.nonce_length(),
            slice_size: self.dispatcher.slice_size(),
            workers: self.workers as nat,
            waiting: match self.waiting {
                Some(batch) => Some(views(batch@)),
                None => None,
            },
            stopped: self.stopped as nat,
        }
    }
}

impl Coordinator {
    /// The producer of batches is in order, a waiting batch is one of its batches,
    /// and no more workers were told to stop than there are.
    pub closed spec fn well_formed(&self) -> bool {
        &&& self.dispatcher.well_formed()
        &&& self.stopped <= self.workers
        &&& self.waiting matches Some(batch) ==> is_batch(
            batch@,
            self.dispatcher.header_length(),
            self.dispatcher.nonce_length(),
        )
    }

    /// The coordinator of a search (see [`Dispatcher::new`]) with a pool of
    /// `workers` workers. Nothing has been handed out yet.
    pub fn new(
        start_bit: u16,
        end_bit: u16,
        header_length: u16,
        nonce_length: u8,
        tuple_size: u16,
        slice_size: usize,
        workers: usize,
    ) -> (c: Self)
        requires
            tuple_size < 32,
        ensures
            c.well_formed(),
            c@ == (CoordinatorView {
                pending: all_tuples(start_bit, end_bit, header_length, tuple_size),
                header_length: header_length as nat,
                nonce_length: nonce_length as nat,
                slice_size: slice_size as nat,
                workers: workers as nat,
                waiting: None,
                stopped: 0,
            }),
    {
        Coordinator {
            dispatcher: Dispatcher::new(
                start_bit,
                end_bit,
                header_length,
                nonce_length,
                tuple_size,
                slice_size,
            ),
            workers,
            waiting: None,
            stopped: 0,
        }
    }

    /// One step: what the coordinator asks for, `received` being the message that
    /// the last [`Action::Receive`] brought, if that was the last action. A batch
    /// that is sent holds fresh statistics with addresses inside the header and the
    /// nonce.
    pub fn step(&mut self, received: Option<Message>) -> (action: Action)
        requires
            old(self).well_formed(),
        ensures
            final(self).well_formed(),
            action matches Action::Send(_, Message::Process(batch)) ==> is_batch(
                batch@,
                old(self)@.header_length,
                old(self)@.nonce_length,
            ),
            (final(self)@, action@) == next(
                old(self)@,
                match received {
                    Some(message) => Some(message@),
                    None => None,
                },
            ),
    {
        match self.waiting.take() {
            Some(batch) => {
                match received {
                    Some(Message::Free(worker)) => {
                        if worker < self.workers {
                            return Action::Send(worker, Message::Process(batch));
                        }
                    },
                    _ => {},
                }
                self.waiting = Some(batch);
                Action::Receive
            },
            None => {
                match self.dispatcher.next_batch() {
                    Some(batch) => {
                        assert(views(batch@).len() == batch@.len());
                        self.waiting = Some(batch);
                        Action::Receive
                    },
                    None => {
                        if self.stopped < self.workers {
                            let worker = self.stopped;
                            self.stopped = self.stopped + 1;
                            Action::Send(worker, Message::Stop)
                        } else {
                            Action::Join
                        }
                    },
                }
            },
        }
    }
}

/// The state after one step for each of `received`, in turn.
pub open spec fn run(state: CoordinatorView, received: Seq<Option<MessageView>>) -> CoordinatorView
    decreases received.len(),
{
    if received.len() == 0 {
        state
    } else {
        next(run(state, received.drop_last()), received.last()).0
    }
}

/// What the coordinator asks for in these steps, in turn.
pub open spec fn actions(state: CoordinatorView, received: Seq<Option<MessageView>>) -> Seq<
    ActionView,
>
    decreases received.len(),
{
    if received.len() == 0 {
        Seq::empty()
    } else {
        actions(state, received.drop_last()).push(
            next(run(state, received.drop_last()), received.last()).1,
        )
    }
}

/// The statistics that an action sends to a worker.
pub open spec fn sent_by(action: ActionView) -> Seq<StatisticView> {
    match action {
        ActionView::Send(_, MessageView::Process(batch)) => batch,
        _ => Seq::empty(),
    }
}

/// The statistics that the actions send to workers, in the order of the actions.
pub open spec fn handed_out(actions: Seq<ActionView>) -> Seq<StatisticView>
    decreases actions.len(),
{
    if actions.len() == 0 {
        Seq::empty()
    } else {
        handed_out(actions.drop_last()) + sent_by(actions.last())
    }
}

/// The statistics that are still to be sent: those of the waiting batch, then
/// those of the pending tuples.
pub open spec fn outstanding(state: CoordinatorView) -> Seq<StatisticView> {
    (match state.waiting {
        Some(batch) => batch,
        None => Seq::empty(),
    }) + fresh_statistics(addresses_for(state.pending, state.nonce_length))
}

/// A step sends a batch or leaves it to be sent: nothing is dropped and nothing
/// is made up. A stop signal and the request to join come only when nothing is
/// left to send.
pub proof fn lemma_step_keeps_the_statistics(
    state: CoordinatorView,
    received: Option<MessageView>,
)
    ensures
        sent_by(next(state, received).1) + outstanding(next(state, received).0) == outstanding(
            state,
        ),
        next(state, received).1 == ActionView::Join || (next(state, received).1 matches ActionView::Send(
            _,
            MessageView::Stop,
        )) ==> outstanding(next(state, received).0).len() == 0 && outstanding(state).len() == 0,
{
    let after = next(state, received).0;
    let n = state.nonce_length;
    if state.waiting is None {
        let taken = batch_tuples(state.pending.len(), n, state.slice_size);
        let first = state.pending.take(taken as int);
        let rest = state.pending.skip(taken as int);
        assert(state.pending =~= first + rest);
        lemma_addresses_for_join(first, rest, n);
        assert(fresh_statistics(addresses_for(first, n) + addresses_for(rest, n))
            =~= fresh_statistics(addresses_for(first, n)) + fresh_statistics(
            addresses_for(rest, n),
        ));
        if addresses_for(first, n).len() == 0 {
            lemma_addresses_for_len(first, n);
            lemma_addresses_for_len(rest, n);
            assert(rest.len() == 0 || n == 0) by {
                if n > 0 {
                    assert(first.len() == 0) by (nonlinear_arith)
                        requires
                            first.len() * n == 0,
                            n > 0,
                    ;
                }
            }
            assert(rest.len() * n == 0) by (nonlinear_arith)
                requires
                    rest.len() == 0 || n == 0,
            ;
            assert(outstanding(after) =~= Seq::<StatisticView>::empty());
            assert(outstanding(state) =~= Seq::<StatisticView>::empty());
        } else {
            assert(sent_by(next(state, received).1) + outstanding(after) =~= outstanding(state));
        }
    } else {
        assert(sent_by(next(state, received).1) + outstanding(after) =~= outstanding(state));
    }
}

/// Over any number of steps, what was sent to workers and what is still to be
/// sent are together what was to be sent at the start, in the same order: every
/// statistic goes to a worker once, and none is lost.
pub proof fn lemma_run_keeps_the_statistics(
    state: CoordinatorView,
    received: Seq<Option<MessageView>>,
)
    ensures
        handed_out(actions(state, received)) + outstanding(run(state, received)) == outstanding(
            state,
        ),
    decreases received.len(),
{
    if received.len() == 0 {
        assert(handed_out(actions(state, received)) + outstanding(state) =~= outstanding(state));
    } else {
        let earlier = received.drop_last();
        lemma_run_keeps_the_statistics(state, earlier);
        lemma_step_keeps_the_statistics(run(state, earlier), received.last());
        let steps = actions(state, received);
        assert(steps.drop_last() =~= actions(state, earlier));
        assert(handed_out(steps) + outstanding(run(state, received)) =~= handed_out(
            actions(state, earlier),
        ) + (sent_by(steps.last()) + outstanding(run(state, received))));
    }
}

/// Once the request to join has come, every statistic of the run has been sent
/// to a worker.
pub proof fn lemma_join_comes_last(state: CoordinatorView, received: Seq<Option<MessageView>>)
    requires
        received.len() > 0,
        actions(state, received).last() == ActionView::Join,
    ensures
        handed_out(actions(state, received)) == outstanding(state),
{
    lemma_run_keeps_the_statistics(state, received);
    lemma_step_keeps_the_statistics(run(state, received.drop_last()), received.last());
    assert(outstanding(run(state, received)) =~= Seq::<StatisticView>::empty());
    assert(handed_out(actions(state, received)) + Seq::<StatisticView>::empty() =~= handed_out(
        actions(state, received),
    ));
}

/// Once nothing is left to send, every worker is told to stop, each once and in
/// the order of the pool, and then the coordinator asks to join them, whatever
/// is received in between.
pub proof fn lemma_shutdown_reaches_every_worker(
    state: CoordinatorView,
    received: Seq<Option<MessageView>>,
)
    requires
        state.pending.len() == 0,
        state.waiting is None,
        state.stopped <= state.workers,
        received.len() <= state.workers - state.stopped + 1,
    ensures
        run(state, received).pending.len() == 0,
        run(state, received).waiting is None,
        run(state, received).workers == state.workers,
        run(state, received).stopped == if received.len() <= state.workers - state.stopped {
            state.stopped + received.len()
        } else {
            state.workers
        },
        actions(state, received).len() == received.len(),
        forall|i: int|
            0 <= i < received.len() ==> #[trigger] actions(state, received)[i] == if state.stopped
                + i < state.workers {
                ActionView::Send((state.stopped + i) as usize, MessageView::Stop)
            } else {
                ActionView::Join
            },
    decreases received.len(),
{
    if received.len() > 0 {
        let earlier = received.drop_last();
        lemma_shutdown_reaches_every_worker(state, earlier);
        let before = run(state, earlier);
        assert(addresses_for(before.pending.take(0), before.nonce_length).len() == 0);
        assert forall|i: int| 0 <= i < received.len() implies #[trigger] actions(
            state,
            received,
        )[i] == if state.stopped + i < state.workers {
            ActionView::Send((state.stopped + i) as usize, MessageView::Stop)
        } else {
            ActionView::Join
        } by {
            if i < earlier.len() {
                assert(actions(state, received)[i] == actions(state, earlier)[i]);
            }
        }
    }
}

} // verus!
