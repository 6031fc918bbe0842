//! The producer of batches: it cuts the stream of addresses into batches of fresh
//! statistics, each just long enough to exceed the slice size.

use crate::data_structures::{views, AddressView, Statistic, StatisticView};
use crate::enumerator::{
    addresses_for, all_tuples, fan_out, lemma_addresses_for, lemma_addresses_for_len,
    lemma_tuples_from_membership, TupleEnumerator,
};
use crate::statistics::{account_address, address_inside, fresh_statistic, is_fresh};
use vstd::prelude::*;

verus! {

/// The statistics of the addresses before any record is counted, in order.
pub open spec fn fresh_statistics(addresses: Seq<AddressView>) -> Seq<StatisticView> {
    addresses.map_values(|address: AddressView| fresh_statistic(address))
}

/// How many of `pending` tuples go into the next batch: as few as make the batch
/// longer than `slice_size`, or all of them if there are not as many. Without nonce
/// bits no tuple has an address, and all are passed over.
pub open spec fn batch_tuples(pending: nat, nonce_length: nat, slice_size: nat) -> nat {
    if nonce_length == 0 || pending <= slice_size / nonce_length {
        pending
    } else {
        slice_size / nonce_length + 1
    }
}

/// A count of tuples that stops at the first batch longer than the slice size, or
/// at the end of the pending ones, is the batch size.
pub proof fn lemma_batch_tuples(pending: nat, nonce_length: nat, slice_size: nat, taken: nat)
    requires
        taken <= pending,
        taken == 0 || (taken - 1) * nonce_length <= slice_size,
        taken * nonce_length > slice_size || taken == pending,
    ensures
        taken == batch_tuples(pending, nonce_length, slice_size),
{
    if nonce_length == 0 {
        assert(taken * nonce_length == 0) by (nonlinear_arith)
            requires
                nonce_length == 0,
        ;
    } else {
        let full = slice_size / nonce_length;
        assert(full * nonce_length <= slice_size < (full + 1) * nonce_length) by (nonlinear_arith)
            requires
                nonce_length > 0,
                full == slice_size / nonce_length,
        ;
        if taken * nonce_length > slice_size {
            assert(taken > full) by (nonlinear_arith)
                requires
                    taken * nonce_length > slice_size,
                    full * nonce_length <= slice_size,
                    nonce_length > 0,
            ;
            assert(taken - 1 <= full) by (nonlinear_arith)
                requires
                    taken > 0,
                    (taken - 1) * nonce_length <= slice_size,
                    slice_size < (full + 1) * nonce_length,
                    nonce_length > 0,
            ;
        } else {
            assert(taken <= full) by (nonlinear_arith)
                requires
                    taken * nonce_length <= slice_size,
                    slice_size < (full + 1) * nonce_length,
                    nonce_length > 0,
            ;
        }
    }
}

/// A tuple of `tuple_size` positions in a header of `header_length` bits.
pub open spec fn inside(tuple: Seq<u16>, header_length: nat, tuple_size: nat) -> bool {
    &&& tuple.len() == tuple_size
    &&& forall|k: int| 0 <= k < tuple.len() ==> #[trigger] tuple[k] < header_length
}

/// The statistics are fresh, and their addresses lie inside a header of
/// `header_length` bits and a nonce of `nonce_length` bits.
pub open spec fn is_batch(batch: Seq<Statistic>, header_length: nat, nonce_length: nat) -> bool {
    forall|i: int|
        0 <= i < batch.len() ==> is_fresh(#[trigger] batch[i]@) && address_inside(
            batch[i]@.address,
            header_length,
            nonce_length,
        )
}

/// The fresh statistics of the addresses of tuples inside the header are a batch.
pub proof fn lemma_fresh_statistics_are_a_batch(
    batch: Seq<Statistic>,
    tuples: Seq<Seq<u16>>,
    header_length: nat,
    nonce_length: nat,
    tuple_size: nat,
)
    requires
        tuple_size < 32,
        nonce_length <= u8::MAX,
        forall|i: int| 0 <= i < tuples.len() ==> inside(#[trigger] tuples[i], header_length, tuple_size),
        views(batch) == fresh_statistics(addresses_for(tuples, nonce_length)),
    ensures
        is_batch(batch, header_length, nonce_length),
{
    let addresses = addresses_for(tuples, nonce_length);
    lemma_addresses_for(tuples, nonce_length);
    assert(views(batch).len() == batch.len());
    assert(fresh_statistics(addresses).len() == addresses.len());
    assert forall|i: int| 0 <= i < batch.len() implies is_fresh(#[trigger] batch[i]@)
        && address_inside(batch[i]@.address, header_length, nonce_length) by {
        assert(views(batch)[i] == batch[i]@);
        assert(fresh_statistics(addresses)[i] == fresh_statistic(addresses[i]));
        assert(addresses.contains(addresses[i]));
        let n = choose|n: int| 0 <= n < tuples.len() && tuples[n] == addresses[i].header_bits;
        assert(inside(tuples[n], header_length, tuple_size));
    }
}

/// The producer of batches: a search and the batch size that it aims at.
pub struct Dispatcher {
    enumerator: TupleEnumerator,
    header_length: u16,
    tuple_size: u16,
    nonce_length: u8,
    slice_size: usize,
}

impl Dispatcher {
    /// The tuples that have not gone into a batch yet.
    pub closed spec fn pending(&self) -> Seq<Seq<u16>> {
        self.enumerator.remaining()
    }

    /// The number of header bits that the tuples are taken from.
    pub closed spec fn header_length(&self) -> nat {
        self.header_length as nat
    }

    /// The number of nonce bits that every tuple is paired with.
    pub closed spec fn nonce_length(&self) -> nat {
        self.nonce_length as nat
    }

    /// The batch length that a batch is to exceed.
    pub closed spec fn slice_size(&self) -> nat {
        self.slice_size as nat
    }

    /// The search is in order, every pending tuple lies inside the header, and its
    /// buckets can be keyed.
    pub closed spec fn well_formed(&self) -> bool {
        &&& self.enumerator.well_formed()
        &&& self.tuple_size < 32
        &&& forall|i: int|
            0 <= i < self.pending().len() ==> inside(
                #[trigger] self.pending()[i],
                self.header_length as nat,
                self.tuple_size as nat,
            )
    }

    /// A producer for the search over tuples of `tuple_size` positions in a header
    /// of `header_length` bits, first position in `[start_bit, end_bit]`, each
    /// paired with the `nonce_length` bits of the nonce.
    pub fn new(
        start_bit: u16,
        end_bit: u16,
        header_length: u16,
        nonce_length: u8,
        tuple_size: u16,
        slice_size: usize,
    ) -> (d: Self)
        requires
            tuple_size < 32,
        ensures
            d.well_formed(),
            d.pending() == all_tuples(start_bit, end_bit, header_length, tuple_size),
            d.header_length() == header_length,
            d.nonce_length() == nonce_length,
            d.slice_size() == slice_size,
    {
        let enumerator = TupleEnumerator::new(start_bit, end_bit, header_length, tuple_size);
        let d = Dispatcher { enumerator, header_length, tuple_size, nonce_length, slice_size };
        proof {
            let all = all_tuples(start_bit, end_bit, header_length, tuple_size);
            assert forall|i: int| 0 <= i < all.len() implies inside(
                #[trigger] all[i],
                header_length as nat,
                tuple_size as nat,
            ) by {
                assert(all.contains(all[i]));
                lemma_tuples_from_membership(
                    all[i],
                    Seq::empty(),
                    start_bit as int,
                    tuple_size as nat,
                    end_bit as int,
                    header_length as int,
                );
            }
        }
        d
    }

    /// Appends the fresh statistics of one tuple to the batch, one per nonce bit.
    fn account_tuple(&self, tuple: &Vec<u16>, batch: &mut Vec<Statistic>)
        requires
            tuple.len() < 32,
        ensures
            views(final(batch)@) == views(old(batch)@) + fresh_statistics(
                fan_out(tuple@, self.nonce_length()),
            ),
    {
        let ghost before = views(batch@);
        let ghost added = fresh_statistics(fan_out(tuple@, self.nonce_length as nat));
        let mut bit: u8 = 0;
        assert(views(batch@) =~= before + added.take(0));
        while bit < self.nonce_length
            invariant
                bit <= self.nonce_length,
                tuple.len() < 32,
                added == fresh_statistics(fan_out(tuple@, self.nonce_length as nat)),
                views(batch@) == before + added.take(bit as int),
            decreases self.nonce_length - bit,
        {
            let ghost so_far = batch@;
            account_address(tuple, bit, batch);
            assert(batch@ =~= so_far.push(batch@.last()));
            assert(views(batch@) =~= views(so_far).push(batch@.last()@));
            assert(added[bit as int] == batch@.last()@);
            assert(added.take(bit + 1) =~= added.take(bit as int).push(added[bit as int]));
            assert(views(batch@) =~= before + added.take(bit + 1));
            bit += 1;
        }
        assert(added.take(bit as int) =~= added);
    }

    /// The next batch: the fresh statistics of the next pending tuples, as few as
    /// make the batch longer than the slice size, or of all that are left. `None`
    /// once nothing is left to hand out.
    pub fn next_batch(&mut self) -> (r: Option<Vec<Statistic>>)
        requires
            old(self).well_formed(),
        ensures
            final(self).well_formed(),
            final(self).header_length() == old(self).header_length(),
            final(self).nonce_length() == old(self).nonce_length(),
            final(self).slice_size() == old(self).slice_size(),
            r matches Some(batch) ==> is_batch(
                batch@,
                old(self).header_length(),
                old(self).nonce_length(),
            ),
            ({
                let taken = batch_tuples(
                    old(self).pending().len(),
                    old(self).nonce_length(),
                    old(self).slice_size(),
                );
                let addresses = addresses_for(
                    old(self).pending().take(taken as int),
                    old(self).nonce_length(),
                );
                &&& final(self).pending() == old(self).pending().skip(taken as int)
                &&& match r {
                    Some(batch) => batch.len() > 0 && views(batch@) == fresh_statistics(addresses),
                    None => addresses.len() == 0 && final(self).pending().len() == 0,
                }
            }),
    {
        let mut batch: Vec<Statistic> = Vec::new();
        let ghost start = self.pending();
        let ghost n = self.nonce_length as nat;
        let ghost slice = self.slice_size as nat;
        let ghost length = self.header_length as nat;
        let ghost size = self.tuple_size as nat;
        let ghost mut taken: nat = 0;
        proof {
            assert(start.skip(0) =~= start);
            assert(views(batch@) =~= fresh_statistics(addresses_for(start.take(0), n)));
        }
        loop
            invariant
                self.well_formed(),
                self.nonce_length == n,
                self.slice_size == slice,
                self.header_length == length,
                self.tuple_size == size,
                forall|i: int| 0 <= i < start.len() ==> inside(#[trigger] start[i], length, size),
                taken <= start.len(),
                self.pending() == start.skip(taken as int),
                views(batch@) == fresh_statistics(addresses_for(start.take(taken as int), n)),
                batch.len() == taken * n,
                taken == 0 || (taken - 1) * n <= slice,
            ensures
                self.well_formed(),
                self.nonce_length == n,
                self.slice_size == slice,
                self.header_length == length,
                self.tuple_size == size,
                taken <= start.len(),
                self.pending() == start.skip(taken as int),
                views(batch@) == fresh_statistics(addresses_for(start.take(taken as int), n)),
                batch.len() == taken * n,
                taken == 0 || (taken - 1) * n <= slice,
                taken * n > slice || taken == start.len(),
            decreases start.len() - taken,
        {
            if batch.len() > self.slice_size {
                break ;
            }
            let ghost pending = self.pending();
            match self.enumerator.next_tuple() {
                None => {
                    break ;
                },
                Some(tuple) => {
                    proof {
                        assert(pending[0] == start[taken as int]);
                        assert(tuple@.len() == self.tuple_size);
                        assert(pending.drop_first() =~= start.skip(taken as int + 1));
                        let longer = start.take(taken as int + 1);
                        assert(longer.drop_last() =~= start.take(taken as int));
                        assert(longer.last() == tuple@);
                        assert forall|i: int| 0 <= i < self.pending().len() implies inside(
                            #[trigger] self.pending()[i],
                            length,
                            size,
                        ) by {
                            assert(self.pending()[i] == pending[i + 1]);
                        }
                    }
                    self.account_tuple(&tuple, &mut batch);
                    proof {
                        let added = fan_out(tuple@, n);
                        let earlier = addresses_for(start.take(taken as int), n);
                        assert(fresh_statistics(earlier + added) =~= fresh_statistics(earlier)
                            + fresh_statistics(added));
                        assert(batch.len() == (taken + 1) * n) by (nonlinear_arith)
                            requires
                                batch.len() == taken * n + n,
                        ;
                        taken = taken + 1;
                    }
                },
            }
        }
        proof {
            lemma_batch_tuples(start.len(), n, slice, taken);
            lemma_addresses_for_len(start.take(taken as int), n);
            assert forall|i: int| 0 <= i < start.take(taken as int).len() implies inside(
                #[trigger] start.take(taken as int)[i],
                length,
                size,
            ) by {
                assert(start.take(taken as int)[i] == start[i]);
            }
            lemma_fresh_statistics_are_a_batch(batch@, start.take(taken as int), length, n, size);
        }
        if batch.len() > 0 {
            Some(batch)
        } else {
            proof {
                if n > 0 {
                    assert(taken == 0) by (nonlinear_arith)
                        requires
                            taken * n == 0,
                            n > 0,
                    ;
                }
            }
            None
        }
    }
}

} // verus!
