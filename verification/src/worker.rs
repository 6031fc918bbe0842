//! The worker's side of the protocol: what one message makes a worker do.

use crate::data_structures::{
    views, BlockHeaderData, DataInstance, Message, MessageView, Statistic,
};
use crate::statistics::{
    address_inside, addresses_of, compute_histogram_and_stats, is_fresh, is_pure_test,
    lemma_address_fits_store, record_fits, store_covers, survivors, verdict_of,
};
use vstd::prelude::*;

verus! {

/// What a worker does after a message.
#[derive(Debug)]
pub enum WorkerAction {
    /// The batch is done: `kept`, if there is any, goes to the result sink, all of
    /// it at once, and `notice` to the coordinator. The worker is idle again.
    Report { kept: Option<Vec<Statistic>>, notice: Message },
    /// The worker leaves its loop.
    Exit,
    /// The message asks nothing of a worker, which waits for the next one.
    Ignore,
}

/// What a worker does after a message, apart from the statistics that it computes.
pub enum Reply {
    /// The worker has done a batch and sends this message to the coordinator.
    Announce(MessageView),
    /// The worker leaves its loop.
    Exit,
    /// The worker waits for the next message.
    Ignore,
}

/// The reply of worker `id` to a message: after a batch it announces itself free,
/// a stop signal ends it, and nothing else concerns it.
pub open spec fn reply(id: usize, received: MessageView) -> Reply {
    match received {
        MessageView::Process(_) => Reply::Announce(MessageView::Free(id)),
        MessageView::Stop => Reply::Exit,
        MessageView::Free(_) => Reply::Ignore,
    }
}

impl WorkerAction {
    /// The reply that the action carries.
    pub open spec fn reply(&self) -> Reply {
        match *self {
            WorkerAction::Report { kept, notice } => Reply::Announce(notice@),
            WorkerAction::Exit => Reply::Exit,
            WorkerAction::Ignore => Reply::Ignore,
        }
    }
}

/// A batch that a worker can process: fresh statistics whose addresses lie inside
/// every record.
pub open spec fn is_workable(batch: Seq<Statistic>, data: Seq<BlockHeaderData>) -> bool {
    &&& forall|i: int| 0 <= i < batch.len() ==> is_fresh(#[trigger] batch[i]@)
    &&& forall|i: int, j: int|
        0 <= i < batch.len() && 0 <= j < data.len() ==> record_fits(
            #[trigger] data[j],
            (#[trigger] batch[i]).address@,
        )
}

/// A batch of fresh statistics inside the lengths that the store covers is one
/// that a worker can process.
pub proof fn lemma_batch_is_workable(
    batch: Seq<Statistic>,
    data: Seq<BlockHeaderData>,
    header_length: nat,
    nonce_length: nat,
)
    requires
        store_covers(data, header_length, nonce_length),
        forall|i: int|
            0 <= i < batch.len() ==> is_fresh(#[trigger] batch[i]@) && address_inside(
                batch[i]@.address,
                header_length,
                nonce_length,
            ),
    ensures
        is_workable(batch, data),
{
    assert forall|i: int, j: int| 0 <= i < batch.len() && 0 <= j < data.len() implies record_fits(
        #[trigger] data[j],
        (#[trigger] batch[i]).address@,
    ) by {
        assert(is_fresh(batch[i]@));
        lemma_address_fits_store(data, batch[i]@.address, header_length, nonce_length);
    }
}

/// One step of worker `id`: a batch is computed and filtered, and the worker
/// announces itself free; a stop signal ends the worker; nothing else concerns it.
/// Nothing is reported to the result sink when no statistic of the batch kept a
/// bucket.
pub fn worker<F: Fn(DataInstance, u8) -> bool>(
    id: usize,
    data: &Vec<BlockHeaderData>,
    received: Message,
    sample_threshold: usize,
    informative: &F,
) -> (action: WorkerAction)
    requires
        data.len() <= u32::MAX,
        is_pure_test(informative),
        received matches Message::Process(batch) ==> is_workable(batch@, data@),
    ensures
        action.reply() == reply(id, received@),
        match received {
            Message::Process(batch) => {
                let results = survivors(
                    data@,
                    addresses_of(batch@),
                    sample_threshold as nat,
                    verdict_of(informative),
                );
                &&& action matches WorkerAction::Report { kept, notice }
                &&& notice == Message::Free(id)
                &&& match kept {
                    Some(statistics) => results.len() > 0 && views(statistics@) == results,
                    None => results.len() == 0,
                }
            },
            Message::Stop => action is Exit,
            Message::Free(_) => action is Ignore,
        },
{
    match received {
        Message::Process(batch) => {
            let kept = compute_histogram_and_stats(data, batch, sample_threshold, informative);
            assert(views(kept@).len() == kept@.len());
            if kept.len() > 0 {
                WorkerAction::Report { kept: Some(kept), notice: Message::Free(id) }
            } else {
                WorkerAction::Report { kept: None, notice: Message::Free(id) }
            }
        },
        Message::Stop => WorkerAction::Exit,
        Message::Free(_) => WorkerAction::Ignore,
    }
}

} // verus!
