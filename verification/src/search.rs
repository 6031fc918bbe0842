//! The whole search in one thread: every address is materialised, counted and
//! filtered in the order of the enumeration. A run that spreads the batches over
//! workers keeps the same statistics.

use crate::data_structures::{views, BlockHeaderData, DataInstance, Statistic};
use crate::dispatcher::{batch_tuples, fresh_statistics, Dispatcher};
use crate::enumerator::{
    addresses_for, all_addresses, all_tuples, lemma_addresses_for_join, lemma_addresses_for_len,
};
use crate::statistics::{
    addresses_of, check_store, compute_histogram_and_stats, is_pure_test, lemma_survivors_of_parts,
    store_covers, survivors, verdict_of,
};
use crate::worker::lemma_batch_is_workable;
use vstd::prelude::*;

verus! {

/// The store can be searched with tuples of this size: the buckets of a tuple can
/// be keyed, a bucket can count every record, and every record is long enough.
pub open spec fn searchable(
    data: Seq<BlockHeaderData>,
    header_length: u16,
    nonce_length: u8,
    tuple_size: u16,
) -> bool {
    &&& tuple_size < 32
    &&& data.len() <= u32::MAX
    &&& store_covers(data, header_length as nat, nonce_length as nat)
}

/// Examines every address of the search over the records and returns the
/// statistics that kept a bucket, in the order of the enumeration. `None` where the
/// store cannot be searched.
pub fn search<F: Fn(DataInstance, u8) -> bool>(
    data: &Vec<BlockHeaderData>,
    start_bit: u16,
    end_bit: u16,
    header_length: u16,
    nonce_length: u8,
    tuple_size: u16,
    slice_size: usize,
    sample_threshold: usize,
    informative: &F,
) -> (r: Option<Vec<Statistic>>)
    requires
        is_pure_test(informative),
    ensures
        match r {
            Some(kept) => {
                &&& searchable(data@, header_length, nonce_length, tuple_size)
                &&& views(kept@) == survivors(
                    data@,
                    all_addresses(start_bit, end_bit, header_length, nonce_length, tuple_size),
                    sample_threshold as nat,
                    verdict_of(informative),
                )
            },
            None => !searchable(data@, header_length, nonce_length, tuple_size),
        },
{
    if tuple_size >= 32 || data.len() > u32::MAX as usize || !check_store(
        data,
        header_length,
        nonce_length,
    ) {
        return None;
    }
    let mut dispatcher = Dispatcher::new(
        start_bit,
        end_bit,
        header_length,
        nonce_length,
        tuple_size,
        slice_size,
    );
    let mut kept: Vec<Statistic> = Vec::new();
    let ghost all = all_tuples(start_bit, end_bit, header_length, tuple_size);
    let ghost n = nonce_length as nat;
    let ghost threshold = sample_threshold as nat;
    let ghost verdict = verdict_of(informative);
    let ghost mut done: nat = 0;
    proof {
        assert(all.skip(0) =~= all);
        assert(views(kept@) =~= survivors(data@, addresses_for(all.take(0), n), threshold, verdict))
            by {
            reveal(Seq::filter);
        }
    }
    loop
        invariant
            is_pure_test(informative),
            searchable(data@, header_length, nonce_length, tuple_size),
            dispatcher.well_formed(),
            dispatcher.header_length() == header_length,
            dispatcher.nonce_length() == n,
            n == nonce_length,
            threshold == sample_threshold,
            verdict == verdict_of(informative),
            done <= all.len(),
            dispatcher.pending() == all.skip(done as int),
            views(kept@) == survivors(
                data@,
                addresses_for(all.take(done as int), n),
                threshold,
                verdict,
            ),
        ensures
            done == all.len(),
            views(kept@) == survivors(
                data@,
                addresses_for(all.take(done as int), n),
                threshold,
                verdict,
            ),
        decreases all.len() - done,
    {
        let ghost pending = dispatcher.pending();
        let ghost taken = batch_tuples(pending.len(), n, dispatcher.slice_size());
        let ghost first = all.take(done as int);
        let ghost second = pending.take(taken as int);
        let ghost addresses = addresses_for(second, n);
        let next = dispatcher.next_batch();
        proof {
            assert(all.take((done + taken) as int) =~= first + second);
            lemma_addresses_for_join(first, second, n);
            lemma_addresses_for_len(second, n);
            lemma_survivors_of_parts(
                data@,
                addresses_for(first, n),
                addresses,
                threshold,
                verdict,
            );
            assert(pending.skip(taken as int) =~= all.skip((done + taken) as int));
        }
        match next {
            None => {
                proof {
                    assert(addresses =~= Seq::empty());
                    assert(survivors(data@, addresses, threshold, verdict) =~= Seq::empty()) by {
                        reveal(Seq::filter);
                    }
                    assert(views(kept@) + Seq::empty() =~= views(kept@));
                    done = done + taken;
                }
                break ;
            },
            Some(batch) => {
                proof {
                    assert(views(batch@).len() == batch@.len());
                    assert(fresh_statistics(addresses).len() == addresses.len());
                    assert(addresses_of(batch@) =~= addresses) by {
                        assert forall|i: int| 0 <= i < batch@.len() implies addresses_of(batch@)[i]
                            == addresses[i] by {
                            assert(views(batch@)[i] == fresh_statistics(addresses)[i]);
                        }
                    }
                    assert(taken > 0) by (nonlinear_arith)
                        requires
                            taken * n > 0,
                    ;
                    lemma_batch_is_workable(batch@, data@, header_length as nat, n);
                }
                let ghost before = kept@;
                let mut part = compute_histogram_and_stats(
                    data,
                    batch,
                    sample_threshold,
                    informative,
                );
                let ghost added = part@;
                kept.append(&mut part);
                proof {
                    assert(views(kept@) =~= views(before) + views(added));
                    done = done + taken;
                }
            },
        }
    }
    assert(all.take(all.len() as int) =~= all);
    Some(kept)
}

} // verus!
