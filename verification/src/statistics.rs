//! Histograms over the record store: the bucket that a record falls into, the
//! counting pass, the derived totals and the threshold filter.

use crate::data_structures::{
    views, AddressView, BlockHeaderData, DataAddress, DataInstance, Statistic, StatisticView,
};
use vstd::std_specs::hash::spec_keys_iter;
use vstd::std_specs::iter::IteratorSpec;
use std::collections::HashMap;
use vstd::arithmetic::power2::{lemma2_to64, lemma_pow2_strictly_increases, lemma_pow2_unfold, pow2};
use vstd::prelude::*;

verus! {

broadcast use vstd::std_specs::hash::group_hash_axioms;

/// The bucket key of a header under a tuple: the header's bits at the tuple's
/// positions, packed with the first position as the most significant bit.
pub open spec fn bucket_key(header: Seq<bool>, header_bits: Seq<u16>) -> nat
    decreases header_bits.len(),
{
    if header_bits.len() == 0 {
        0
    } else {
        2 * bucket_key(header, header_bits.drop_last()) + if header[header_bits.last() as int] {
            1nat
        } else {
            0nat
        }
    }
}

/// A bucket key has as many bits as the tuple has positions.
pub proof fn lemma_bucket_key_bound(header: Seq<bool>, header_bits: Seq<u16>)
    ensures
        bucket_key(header, header_bits) < pow2(header_bits.len()),
    decreases header_bits.len(),
{
    if header_bits.len() == 0 {
        lemma2_to64();
    } else {
        lemma_bucket_key_bound(header, header_bits.drop_last());
        lemma_pow2_unfold(header_bits.len());
    }
}

/// The bucket keys of a tuple of `tuple_size` positions: `[0, 2^tuple_size)`.
pub open spec fn bucket_keys(tuple_size: nat) -> Set<u32> {
    Set::new(|key: u32| (key as nat) < pow2(tuple_size))
}

/// The histogram of a tuple before any record is counted: every bucket key, with
/// zeroed counters.
pub open spec fn empty_histogram(tuple_size: nat) -> Map<u32, DataInstance> {
    Map::new(|key: u32| (key as nat) < pow2(tuple_size), |key: u32| DataInstance::zero())
}

/// The statistic of an address before any record is counted.
pub open spec fn fresh_statistic(address: AddressView) -> StatisticView {
    StatisticView { address, instances: empty_histogram(address.header_bits.len()) }
}

/// The statistic has not been counted into yet, and its tuple is short enough for
/// its bucket keys to fit.
pub open spec fn is_fresh(s: StatisticView) -> bool {
    &&& s.address.header_bits.len() < 32
    &&& s == fresh_statistic(s.address)
}

/// The keys below a bound are as many as the bound says.
pub proof fn lemma_keys_below(bound: nat)
    requires
        bound <= u32::MAX + 1,
    ensures
        Set::new(|key: u32| (key as nat) < bound).finite(),
        Set::new(|key: u32| (key as nat) < bound).len() == bound,
    decreases bound,
{
    let keys = Set::new(|key: u32| (key as nat) < bound);
    if bound == 0 {
        assert(keys =~= Set::<u32>::empty());
    } else {
        let fewer = Set::new(|key: u32| (key as nat) < (bound - 1) as nat);
        lemma_keys_below((bound - 1) as nat);
        assert(keys =~= fewer.insert((bound - 1) as u32));
    }
}

/// An empty histogram holds exactly `2^tuple_size` buckets.
pub proof fn lemma_empty_histogram_size(tuple_size: nat)
    requires
        tuple_size < 32,
    ensures
        empty_histogram(tuple_size).dom() == bucket_keys(tuple_size),
        empty_histogram(tuple_size).dom().finite(),
        empty_histogram(tuple_size).len() == pow2(tuple_size),
{
    lemma_pow2_strictly_increases(tuple_size, 32);
    lemma2_to64();
    lemma_keys_below(pow2(tuple_size));
    assert(empty_histogram(tuple_size).dom() =~= bucket_keys(tuple_size));
}

/// The number of bucket keys of a tuple: `2^tuple_size`.
fn bucket_count(tuple_size: usize) -> (count: u32)
    requires
        tuple_size < 32,
    ensures
        count == pow2(tuple_size as nat),
{
    let mut count: u32 = 1;
    let mut i: usize = 0;
    proof {
        lemma2_to64();
    }
    while i < tuple_size
        invariant
            i <= tuple_size < 32,
            count == pow2(i as nat),
        decreases tuple_size - i,
    {
        proof {
            lemma2_to64();
            lemma_pow2_unfold((i + 1) as nat);
            lemma_pow2_strictly_increases((i + 1) as nat, 32);
        }
        count = count * 2;
        i += 1;
    }
    count
}

/// Appends to `stats` the statistic of the address (`stack`, `nonce_bit`), with
/// all of its `2^stack.len()` buckets at zero.
pub fn account_address(stack: &Vec<u16>, nonce_bit: u8, stats: &mut Vec<Statistic>)
    requires
        stack.len() < 32,
    ensures
        final(stats)@.len() == old(stats)@.len() + 1,
        final(stats)@.drop_last() == old(stats)@,
        final(stats)@.last()@ == fresh_statistic(
            AddressView { header_bits: stack@, nonce_bit },
        ),
        final(stats)@.last().instances@.len() == pow2(stack@.len()),
{
    let mut header_bits: Vec<u16> = Vec::new();
    let mut i: usize = 0;
    while i < stack.len()
        invariant
            i <= stack.len(),
            header_bits@ == stack@.take(i as int),
        decreases stack.len() - i,
    {
        header_bits.push(stack[i]);
        i += 1;
        assert(header_bits@ =~= stack@.take(i as int));
    }
    assert(stack@.take(i as int) =~= stack@);
    let max = bucket_count(stack.len());
    let mut instances: HashMap<u32, DataInstance> = HashMap::new();
    let mut key: u32 = 0;
    while key < max
        invariant
            key <= max,
            instances@ == Map::new(|k: u32| k < key, |k: u32| DataInstance::zero()),
        decreases max - key,
    {
        instances.insert(key, DataInstance { zeros: 0, ones: 0, total: 0 });
        key += 1;
        assert(instances@ =~= Map::new(|k: u32| k < key, |k: u32| DataInstance::zero()));
    }
    assert(instances@ =~= empty_histogram(stack@.len()));
    proof {
        lemma_empty_histogram_size(stack@.len());
    }
    let ghost before = stats@;
    stats.push(Statistic { address: DataAddress { header_bits, nonce_bit }, instances });
    assert(stats@.drop_last() =~= before);
}

/// The record can be read at every position that the address names.
pub open spec fn record_fits(entry: BlockHeaderData, address: AddressView) -> bool {
    &&& forall|i: int|
        0 <= i < address.header_bits.len() ==> #[trigger] address.header_bits[i]
            < entry.header@.len()
    &&& address.nonce_bit < entry.nonce@.len()
}

/// Every position that the address names exists in a header of `header_length`
/// bits and a nonce of `nonce_length` bits.
pub open spec fn address_inside(address: AddressView, header_length: nat, nonce_length: nat) -> bool {
    &&& forall|i: int|
        0 <= i < address.header_bits.len() ==> #[trigger] address.header_bits[i] < header_length
    &&& address.nonce_bit < nonce_length
}

/// Every record holds at least `header_length` header bits and `nonce_length`
/// nonce bits.
pub open spec fn store_covers(
    data: Seq<BlockHeaderData>,
    header_length: nat,
    nonce_length: nat,
) -> bool {
    forall|j: int|
        0 <= j < data.len() ==> (#[trigger] data[j]).header@.len() >= header_length
            && data[j].nonce@.len() >= nonce_length
}

/// Whether every record is long enough for a search over headers of
/// `header_length` bits and nonces of `nonce_length` bits.
pub fn check_store(data: &Vec<BlockHeaderData>, header_length: u16, nonce_length: u8) -> (r: bool)
    ensures
        r == store_covers(data@, header_length as nat, nonce_length as nat),
{
    let mut j: usize = 0;
    while j < data.len()
        invariant
            j <= data.len(),
            store_covers(data@.take(j as int), header_length as nat, nonce_length as nat),
        decreases data.len() - j,
    {
        if data[j].header.len() < header_length as usize || data[j].nonce.len()
            < nonce_length as usize {
            return false;
        }
        j += 1;
    }
    assert(data@.take(j as int) =~= data@);
    true
}

/// An address inside the lengths that the store covers can be read in every
/// record.
pub proof fn lemma_address_fits_store(
    data: Seq<BlockHeaderData>,
    address: AddressView,
    header_length: nat,
    nonce_length: nat,
)
    requires
        store_covers(data, header_length, nonce_length),
        address_inside(address, header_length, nonce_length),
    ensures
        forall|j: int| 0 <= j < data.len() ==> record_fits(#[trigger] data[j], address),
{
}

/// The record falls into bucket `key` of the address with the nonce bit at `outcome`.
pub open spec fn falls_in(
    entry: BlockHeaderData,
    address: AddressView,
    key: u32,
    outcome: bool,
) -> bool {
    &&& bucket_key(entry.header@, address.header_bits) == key
    &&& entry.nonce@[address.nonce_bit as int] == outcome
}

/// How many records fall into bucket `key` of the address with the nonce bit at
/// `outcome`.
pub open spec fn occurrences(
    data: Seq<BlockHeaderData>,
    address: AddressView,
    key: u32,
    outcome: bool,
) -> nat
    decreases data.len(),
{
    if data.len() == 0 {
        0
    } else {
        occurrences(data.drop_last(), address, key, outcome) + if falls_in(
            data.last(),
            address,
            key,
            outcome,
        ) {
            1nat
        } else {
            0nat
        }
    }
}

/// A bucket cannot hold more samples than there are records.
pub proof fn lemma_occurrences_bound(data: Seq<BlockHeaderData>, address: AddressView, key: u32)
    ensures
        occurrences(data, address, key, false) + occurrences(data, address, key, true)
            <= data.len(),
    decreases data.len(),
{
    if data.len() > 0 {
        lemma_occurrences_bound(data.drop_last(), address, key);
    }
}

/// The histogram after the counting pass and before the totals are derived.
pub open spec fn tallies(data: Seq<BlockHeaderData>, address: AddressView) -> Map<
    u32,
    DataInstance,
> {
    Map::new(
        |key: u32| (key as nat) < pow2(address.header_bits.len()),
        |key: u32|
            DataInstance {
                zeros: occurrences(data, address, key, false) as u32,
                ones: occurrences(data, address, key, true) as u32,
                total: 0,
            },
    )
}

/// The histogram of an address over the records: for every bucket key the number
/// of records in the bucket whose nonce bit is 0, the number of those whose nonce bit
/// is 1, and their sum.
pub open spec fn histogram(data: Seq<BlockHeaderData>, address: AddressView) -> Map<
    u32,
    DataInstance,
> {
    Map::new(
        |key: u32| (key as nat) < pow2(address.header_bits.len()),
        |key: u32|
            DataInstance::counted(
                occurrences(data, address, key, false),
                occurrences(data, address, key, true),
            ),
    )
}

/// The same buckets, each with its total set to the sum of its two counters.
pub open spec fn totalled(values: Map<u32, DataInstance>) -> Map<u32, DataInstance> {
    Map::new(
        |key: u32| values.contains_key(key),
        |key: u32|
            DataInstance {
                zeros: values[key].zeros,
                ones: values[key].ones,
                total: (values[key].zeros + values[key].ones) as u32,
            },
    )
}

/// Deriving the totals of the tallies gives the histogram.
pub proof fn lemma_totalled_tallies(data: Seq<BlockHeaderData>, address: AddressView)
    requires
        data.len() <= u32::MAX,
    ensures
        totalled(tallies(data, address)) == histogram(data, address),
        forall|key: u32| #[trigger]
            histogram(data, address).contains_key(key) ==> histogram(
                data,
                address,
            )[key].consistent(),
{
    assert forall|key: u32| #[trigger]
        tallies(data, address).contains_key(key) implies totalled(tallies(data, address))[key]
        == histogram(data, address)[key] && histogram(data, address)[key].consistent() by {
        lemma_occurrences_bound(data, address, key);
    }
    assert(totalled(tallies(data, address)) =~= histogram(data, address));
}

/// The bucket key of a record under the tuple `header_bits`.
pub fn header_value(entry: &BlockHeaderData, header_bits: &Vec<u16>) -> (key: u32)
    requires
        header_bits.len() < 32,
        forall|i: int| 0 <= i < header_bits.len() ==> #[trigger] header_bits[i] < entry.header.len(),
    ensures
        key == bucket_key(entry.header@, header_bits@),
        key < pow2(header_bits@.len()),
{
    let mut key: u32 = 0;
    let mut i: usize = 0;
    while i < header_bits.len()
        invariant
            i <= header_bits.len() < 32,
            key == bucket_key(entry.header@, header_bits@.take(i as int)),
            forall|j: int|
                0 <= j < header_bits.len() ==> #[trigger] header_bits[j] < entry.header.len(),
        decreases header_bits.len() - i,
    {
        proof {
            let longer = header_bits@.take(i + 1);
            assert(longer.drop_last() =~= header_bits@.take(i as int));
            lemma_bucket_key_bound(entry.header@, longer);
            lemma_pow2_strictly_increases(longer.len(), 32);
            lemma2_to64();
        }
        let bit: u32 = if entry.header[header_bits[i] as usize] {
            1
        } else {
            0
        };
        key = key * 2 + bit;
        i += 1;
    }
    proof {
        assert(header_bits@.take(i as int) =~= header_bits@);
        lemma_bucket_key_bound(entry.header@, header_bits@);
    }
    key
}

/// The counting pass: every record adds one to the counter of its nonce bit's
/// outcome, in the bucket that its header falls into.
pub fn count_records(
    data: &Vec<BlockHeaderData>,
    address: &DataAddress,
    instances: &mut HashMap<u32, DataInstance>,
)
    requires
        data.len() <= u32::MAX,
        address.header_bits.len() < 32,
        forall|j: int| 0 <= j < data.len() ==> record_fits(#[trigger] data[j], address@),
        old(instances)@ == empty_histogram(address@.header_bits.len()),
    ensures
        final(instances)@ == tallies(data@, address@),
{
    let mut j: usize = 0;
    assert(instances@ =~= tallies(data@.take(0), address@));
    while j < data.len()
        invariant
            j <= data.len() <= u32::MAX,
            address.header_bits.len() < 32,
            forall|j: int| 0 <= j < data.len() ==> record_fits(#[trigger] data[j], address@),
            instances@ == tallies(data@.take(j as int), address@),
        decreases data.len() - j,
    {
        let entry = &data[j];
        assert(record_fits(data[j as int], address@));
        let key = header_value(entry, &address.header_bits);
        let outcome = entry.nonce[address.nonce_bit as usize];
        let ghost seen = data@.take(j as int);
        let ghost more = data@.take(j + 1);
        proof {
            assert(more.drop_last() =~= seen);
            assert(more.last() == data[j as int]);
            lemma_occurrences_bound(seen, address@, key);
            lemma_occurrences_bound(more, address@, key);
        }
        let found = instances.get(&key);
        if let Some(counters) = found {
            let updated = if outcome {
                DataInstance { zeros: counters.zeros, ones: counters.ones + 1, total: 0 }
            } else {
                DataInstance { zeros: counters.zeros + 1, ones: counters.ones, total: 0 }
            };
            instances.insert(key, updated);
        }
        j += 1;
        assert(instances@ =~= tallies(more, address@));
    }
    assert(data@.take(j as int) =~= data@);
}

/// The keys of a histogram, each once, in no particular order.
fn keys_of(values: &HashMap<u32, DataInstance>) -> (keys: Vec<u32>)
    ensures
        keys@.to_set() == values@.dom(),
        keys@.no_duplicates(),
{
    let mut keys: Vec<u32> = Vec::new();
    let ghost all = spec_keys_iter(values).remaining();
    for key in it: values.keys()
        invariant
            it.seq() == all,
            keys@ == all.take(it.index() as int).unref(),
    {
        keys.push(*key);
        assert(keys@ =~= all.take(it.index() + 1).unref());
    }
    assert(all.take(all.len() as int) =~= all);
    keys
}

/// Derives the total of every bucket from its two counters.
pub fn update_statistics(values: &mut HashMap<u32, DataInstance>)
    requires
        forall|key: u32| #[trigger]
            old(values)@.contains_key(key) ==> old(values)@[key].zeros + old(values)@[key].ones
                <= u32::MAX,
    ensures
        final(values)@ == totalled(old(values)@),
        forall|key: u32| #[trigger]
            final(values)@.contains_key(key) ==> final(values)@[key].consistent(),
{
    let keys = keys_of(values);
    let ghost before = values@;
    let mut i: usize = 0;
    while i < keys.len()
        invariant
            i <= keys.len(),
            keys@.to_set() == before.dom(),
            keys@.no_duplicates(),
            forall|key: u32| #[trigger]
                before.contains_key(key) ==> before[key].zeros + before[key].ones <= u32::MAX,
            values@.dom() == before.dom(),
            forall|n: int| 0 <= n < i ==> values@[#[trigger] keys@[n]] == totalled(before)[keys@[n]],
            forall|n: int| i <= n < keys.len() ==> values@[#[trigger] keys@[n]] == before[keys@[n]],
        decreases keys.len() - i,
    {
        let key = keys[i];
        assert(keys@.to_set().contains(keys@[i as int]));
        assert(before.contains_key(key));
        let found = values.get(&key);
        if let Some(counters) = found {
            let updated = DataInstance {
                zeros: counters.zeros,
                ones: counters.ones,
                total: counters.zeros + counters.ones,
            };
            values.insert(key, updated);
        }
        assert(values@.dom() =~= before.dom());
        i += 1;
    }
    assert forall|key: u32| #[trigger] before.contains_key(key) implies values@[key] == totalled(
        before,
    )[key] by {
        assert(keys@.to_set().contains(key));
        let n = choose|n: int| 0 <= n < keys@.len() && keys@[n] == key;
        assert(values@[keys@[n]] == totalled(before)[keys@[n]]);
    }
    assert(values@ =~= totalled(before));
}

/// A bucket is kept when it holds more samples than the threshold and the
/// information test accepts it.
pub open spec fn passes(value: DataInstance, sample_threshold: nat, informative: bool) -> bool {
    value.total > sample_threshold && informative
}

/// The buckets of `values` that are kept.
pub open spec fn surviving(
    values: Map<u32, DataInstance>,
    nonce_bit: u8,
    sample_threshold: nat,
    verdict: spec_fn(DataInstance, u8) -> bool,
) -> Map<u32, DataInstance> {
    Map::new(
        |key: u32|
            values.contains_key(key) && passes(
                values[key],
                sample_threshold,
                verdict(values[key], nonce_bit),
            ),
        |key: u32| values[key],
    )
}

/// What is left of the histogram of an address once the filter has run.
pub open spec fn outcome(
    data: Seq<BlockHeaderData>,
    address: AddressView,
    sample_threshold: nat,
    verdict: spec_fn(DataInstance, u8) -> bool,
) -> StatisticView {
    StatisticView {
        address,
        instances: surviving(
            histogram(data, address),
            address.nonce_bit,
            sample_threshold,
            verdict,
        ),
    }
}

/// The filtered histograms of the addresses, in order.
pub open spec fn outcomes(
    data: Seq<BlockHeaderData>,
    addresses: Seq<AddressView>,
    sample_threshold: nat,
    verdict: spec_fn(DataInstance, u8) -> bool,
) -> Seq<StatisticView> {
    addresses.map_values(|address: AddressView| outcome(data, address, sample_threshold, verdict))
}

/// The statistics among `all` that kept a bucket, in order.
pub open spec fn with_buckets(all: Seq<StatisticView>) -> Seq<StatisticView> {
    all.filter(|s: StatisticView| s.instances.len() > 0)
}

/// What a batch of addresses yields: for each address the buckets of its
/// histogram that pass the filter, without the addresses of which no bucket is left.
pub open spec fn survivors(
    data: Seq<BlockHeaderData>,
    addresses: Seq<AddressView>,
    sample_threshold: nat,
    verdict: spec_fn(DataInstance, u8) -> bool,
) -> Seq<StatisticView> {
    with_buckets(outcomes(data, addresses, sample_threshold, verdict))
}

/// The addresses of a batch of statistics, in order.
pub open spec fn addresses_of(stats: Seq<Statistic>) -> Seq<AddressView> {
    stats.map_values(|s: Statistic| s.address@)
}

/// The information test is defined on every bucket and gives one answer on each.
pub open spec fn is_pure_test<F: Fn(DataInstance, u8) -> bool>(informative: &F) -> bool {
    &&& forall|value: DataInstance, nonce_bit: u8| informative.requires((value, nonce_bit))
    &&& forall|value: DataInstance, nonce_bit: u8, a: bool, b: bool|
        #![trigger informative.ensures((value, nonce_bit), a), informative.ensures((value, nonce_bit), b)]
        informative.ensures((value, nonce_bit), a) && informative.ensures((value, nonce_bit), b)
            ==> a == b
}

/// The answers of an information test, as a function of the bucket and the nonce bit.
pub open spec fn verdict_of<F: Fn(DataInstance, u8) -> bool>(informative: &F) -> spec_fn(
    DataInstance,
    u8,
) -> bool {
    |value: DataInstance, nonce_bit: u8| informative.ensures((value, nonce_bit), true)
}

/// Whether a bucket is kept: it holds more samples than `sample_thr`, and the
/// information test accepts it.
pub fn passes_thresholds<F: Fn(DataInstance, u8) -> bool>(
    value: &DataInstance,
    nonce_bit: u8,
    sample_thr: usize,
    informative: &F,
) -> (r: bool)
    requires
        is_pure_test(informative),
    ensures
        r == passes(*value, sample_thr as nat, verdict_of(informative)(*value, nonce_bit)),
{
    if value.total as u64 > sample_thr as u64 {
        let accepted = informative(*value, nonce_bit);
        assert(informative.ensures((*value, nonce_bit), accepted));
        accepted
    } else {
        false
    }
}

/// Removes from the histogram every bucket that does not pass the thresholds.
pub fn retain_passing<F: Fn(DataInstance, u8) -> bool>(
    values: &mut HashMap<u32, DataInstance>,
    nonce_bit: u8,
    sample_thr: usize,
    informative: &F,
)
    requires
        is_pure_test(informative),
    ensures
        final(values)@ == surviving(
            old(values)@,
            nonce_bit,
            sample_thr as nat,
            verdict_of(informative),
        ),
{
    let keys = keys_of(values);
    let ghost before = values@;
    let ghost kept = surviving(before, nonce_bit, sample_thr as nat, verdict_of(informative));
    let mut i: usize = 0;
    while i < keys.len()
        invariant
            i <= keys.len(),
            is_pure_test(informative),
            keys@.to_set() == before.dom(),
            keys@.no_duplicates(),
            kept == surviving(before, nonce_bit, sample_thr as nat, verdict_of(informative)),
            forall|key: u32| #[trigger] values@.contains_key(key) ==> before.contains_key(key),
            forall|key: u32| #[trigger] values@.contains_key(key) ==> values@[key] == before[key],
            forall|n: int|
                0 <= n < i ==> (values@.contains_key(#[trigger] keys@[n]) <==> kept.contains_key(
                    keys@[n],
                )),
            forall|n: int| i <= n < keys.len() ==> values@.contains_key(#[trigger] keys@[n]),
        decreases keys.len() - i,
    {
        let key = keys[i];
        assert(values@.contains_key(keys@[i as int]));
        let found = values.get(&key);
        if let Some(counters) = found {
            if !passes_thresholds(counters, nonce_bit, sample_thr, informative) {
                values.remove(&key);
            }
        }
        i += 1;
    }
    assert forall|key: u32| values@.contains_key(key) <==> kept.contains_key(key) by {
        if before.contains_key(key) {
            assert(keys@.to_set().contains(key));
            let n = choose|n: int| 0 <= n < keys@.len() && keys@[n] == key;
            assert(values@.contains_key(keys@[n]) <==> kept.contains_key(keys@[n]));
        }
    }
    assert(values@ =~= kept);
}

/// One more address adds its outcome to the survivors if a bucket of it is left.
pub proof fn lemma_survivors_push(
    data: Seq<BlockHeaderData>,
    addresses: Seq<AddressView>,
    address: AddressView,
    sample_threshold: nat,
    verdict: spec_fn(DataInstance, u8) -> bool,
)
    ensures
        survivors(data, addresses.push(address), sample_threshold, verdict) == if outcome(
            data,
            address,
            sample_threshold,
            verdict,
        ).instances.len() > 0 {
            survivors(data, addresses, sample_threshold, verdict).push(
                outcome(data, address, sample_threshold, verdict),
            )
        } else {
            survivors(data, addresses, sample_threshold, verdict)
        },
{
    reveal(Seq::filter);
    let all = outcomes(data, addresses.push(address), sample_threshold, verdict);
    assert(all.drop_last() =~= outcomes(data, addresses, sample_threshold, verdict));
    assert(all.last() == outcome(data, address, sample_threshold, verdict));
}

/// Fills the histogram of every statistic of the batch from the records, derives
/// the totals, removes the buckets that do not pass the thresholds, and returns the
/// statistics that kept a bucket, in the order of the batch.
pub fn compute_histogram_and_stats<F: Fn(DataInstance, u8) -> bool>(
    data: &Vec<BlockHeaderData>,
    stats: Vec<Statistic>,
    sample_threshold: usize,
    informative: &F,
) -> (kept: Vec<Statistic>)
    requires
        data.len() <= u32::MAX,
        is_pure_test(informative),
        forall|i: int| 0 <= i < stats.len() ==> is_fresh(#[trigger] stats[i]@),
        forall|i: int, j: int|
            0 <= i < stats.len() && 0 <= j < data.len() ==> record_fits(
                #[trigger] data[j],
                (#[trigger] stats[i]).address@,
            ),
    ensures
        views(kept@) == survivors(
            data@,
            addresses_of(stats@),
            sample_threshold as nat,
            verdict_of(informative),
        ),
{
    let mut final_stats: Vec<Statistic> = Vec::new();
    let ghost batch = stats@;
    let ghost addresses = addresses_of(stats@);
    let ghost verdict = verdict_of(informative);
    assert(views(final_stats@) =~= survivors(
        data@,
        addresses.take(0),
        sample_threshold as nat,
        verdict,
    )) by {
        reveal(Seq::filter);
    }
    for s in it: stats
        invariant
            it.seq() == batch,
            addresses == addresses_of(batch),
            verdict == verdict_of(informative),
            data.len() <= u32::MAX,
            is_pure_test(informative),
            forall|i: int| 0 <= i < batch.len() ==> is_fresh(#[trigger] batch[i]@),
            forall|i: int, j: int|
                0 <= i < batch.len() && 0 <= j < data.len() ==> record_fits(
                    #[trigger] data[j],
                    (#[trigger] batch[i]).address@,
                ),
            views(final_stats@) == survivors(
                data@,
                addresses.take(it.index() as int),
                sample_threshold as nat,
                verdict,
            ),
    {
        let mut s = s;
        let ghost address = s.address@;
        assert(s == batch[it.index() as int]);
        assert(is_fresh(s@));
        count_records(data, &s.address, &mut s.instances);
        proof {
            lemma_totalled_tallies(data@, address);
            assert forall|key: u32| #[trigger] s.instances@.contains_key(key) implies s.instances@[key].zeros
                + s.instances@[key].ones <= u32::MAX by {
                lemma_occurrences_bound(data@, address, key);
            }
        }
        update_statistics(&mut s.instances);
        retain_passing(&mut s.instances, s.address.nonce_bit, sample_threshold, informative);
        proof {
            assert(s@ == outcome(data@, address, sample_threshold as nat, verdict));
            assert(addresses.take(it.index() + 1) =~= addresses.take(it.index() as int).push(
                address,
            ));
            lemma_survivors_push(
                data@,
                addresses.take(it.index() as int),
                address,
                sample_threshold as nat,
                verdict,
            );
        }
        let ghost before = final_stats@;
        if s.instances.len() > 0 {
            final_stats.push(s);
            assert(views(final_stats@) =~= views(before).push(s@));
        }
    }
    assert(addresses.take(batch.len() as int) =~= addresses);
    final_stats
}

/// The survivors of a batch are those of its parts, one after the other: how the
/// addresses are cut into batches does not change what is kept.
pub proof fn lemma_survivors_of_parts(
    data: Seq<BlockHeaderData>,
    first: Seq<AddressView>,
    second: Seq<AddressView>,
    sample_threshold: nat,
    verdict: spec_fn(DataInstance, u8) -> bool,
)
    ensures
        survivors(data, first + second, sample_threshold, verdict) == survivors(
            data,
            first,
            sample_threshold,
            verdict,
        ) + survivors(data, second, sample_threshold, verdict),
{
    let a = outcomes(data, first, sample_threshold, verdict);
    let b = outcomes(data, second, sample_threshold, verdict);
    assert(outcomes(data, first + second, sample_threshold, verdict) =~= a + b);
    Seq::filter_distributes_over_add(a, b, |s: StatisticView| s.instances.len() > 0);
}

/// The addresses of the batches, batch after batch.
pub open spec fn addresses_in(batches: Seq<Seq<AddressView>>) -> Seq<AddressView>
    decreases batches.len(),
{
    if batches.len() == 0 {
        Seq::empty()
    } else {
        addresses_in(batches.drop_last()) + batches.last()
    }
}

/// What the batches yield, batch after batch.
pub open spec fn survivors_of_batches(
    data: Seq<BlockHeaderData>,
    batches: Seq<Seq<AddressView>>,
    sample_threshold: nat,
    verdict: spec_fn(DataInstance, u8) -> bool,
) -> Seq<StatisticView>
    decreases batches.len(),
{
    if batches.len() == 0 {
        Seq::empty()
    } else {
        survivors_of_batches(data, batches.drop_last(), sample_threshold, verdict) + survivors(
            data,
            batches.last(),
            sample_threshold,
            verdict,
        )
    }
}

/// Into however many batches the addresses are cut, the batches keep what the
/// addresses keep when they are taken as one.
pub proof fn lemma_survivors_of_batches(
    data: Seq<BlockHeaderData>,
    batches: Seq<Seq<AddressView>>,
    sample_threshold: nat,
    verdict: spec_fn(DataInstance, u8) -> bool,
)
    ensures
        survivors_of_batches(data, batches, sample_threshold, verdict) == survivors(
            data,
            addresses_in(batches),
            sample_threshold,
            verdict,
        ),
    decreases batches.len(),
{
    if batches.len() == 0 {
        reveal(Seq::filter);
        assert(survivors(data, addresses_in(batches), sample_threshold, verdict) =~= Seq::empty());
    } else {
        lemma_survivors_of_batches(data, batches.drop_last(), sample_threshold, verdict);
        lemma_survivors_of_parts(
            data,
            addresses_in(batches.drop_last()),
            batches.last(),
            sample_threshold,
            verdict,
        );
    }
}

/// Two runs over the same addresses keep the same statistics, however each of
/// them cuts the addresses into two batches, and in whichever order the batches
/// of the second run are finished.
pub proof fn lemma_two_runs_agree(
    data: Seq<BlockHeaderData>,
    first: (Seq<AddressView>, Seq<AddressView>),
    second: (Seq<AddressView>, Seq<AddressView>),
    sample_threshold: nat,
    verdict: spec_fn(DataInstance, u8) -> bool,
)
    requires
        first.0 + first.1 == second.0 + second.1,
    ensures
        survivors(data, first.0, sample_threshold, verdict) + survivors(
            data,
            first.1,
            sample_threshold,
            verdict,
        ) == survivors(data, second.0, sample_threshold, verdict) + survivors(
            data,
            second.1,
            sample_threshold,
            verdict,
        ),
        (survivors(data, first.0, sample_threshold, verdict) + survivors(
            data,
            first.1,
            sample_threshold,
            verdict,
        )).to_set() == (survivors(data, second.1, sample_threshold, verdict) + survivors(
            data,
            second.0,
            sample_threshold,
            verdict,
        )).to_set(),
{
    lemma_survivors_of_parts(data, first.0, first.1, sample_threshold, verdict);
    lemma_survivors_of_parts(data, second.0, second.1, sample_threshold, verdict);
    let a = survivors(data, second.0, sample_threshold, verdict);
    let b = survivors(data, second.1, sample_threshold, verdict);
    assert forall|s: StatisticView| (a + b).contains(s) <==> (b + a).contains(s) by {
        vstd::seq_lib::lemma_seq_concat_contains_all_elements(a, b, s);
        vstd::seq_lib::lemma_seq_concat_contains_all_elements(b, a, s);
    }
    assert((a + b).to_set() =~= (b + a).to_set());
}

/// What is known of a bucket that the filter kept: its counters are the numbers
/// of records that fall into it, they sum to its total, the total exceeds the
/// sample threshold, and the information test accepts it.
pub proof fn lemma_kept_bucket(
    data: Seq<BlockHeaderData>,
    address: AddressView,
    sample_threshold: nat,
    verdict: spec_fn(DataInstance, u8) -> bool,
    key: u32,
)
    requires
        data.len() <= u32::MAX,
        outcome(data, address, sample_threshold, verdict).instances.contains_key(key),
    ensures
        ({
            let bucket = outcome(data, address, sample_threshold, verdict).instances[key];
            &&& key < pow2(address.header_bits.len())
            &&& bucket.zeros == occurrences(data, address, key, false)
            &&& bucket.ones == occurrences(data, address, key, true)
            &&& bucket.zeros + bucket.ones == bucket.total
            &&& bucket.total > sample_threshold
            &&& verdict(bucket, address.nonce_bit)
        }),
{
    lemma_occurrences_bound(data, address, key);
}

/// A bucket that holds no more samples than the threshold is not kept, whatever
/// the information test says of it.
pub proof fn lemma_small_bucket_is_dropped(
    values: Map<u32, DataInstance>,
    nonce_bit: u8,
    sample_threshold: nat,
    verdict: spec_fn(DataInstance, u8) -> bool,
    key: u32,
)
    requires
        values.contains_key(key),
        values[key].total <= sample_threshold,
    ensures
        !surviving(values, nonce_bit, sample_threshold, verdict).contains_key(key),
{
}

/// Every survivor is the outcome of one of the addresses and holds a bucket.
pub proof fn lemma_survivors_are_outcomes(
    data: Seq<BlockHeaderData>,
    addresses: Seq<AddressView>,
    sample_threshold: nat,
    verdict: spec_fn(DataInstance, u8) -> bool,
)
    ensures
        forall|i: int|
            0 <= i < survivors(data, addresses, sample_threshold, verdict).len() ==> {
                let kept = #[trigger] survivors(data, addresses, sample_threshold, verdict)[i];
                &&& kept.instances.len() > 0
                &&& exists|j: int|
                    0 <= j < addresses.len() && kept == outcome(
                        data,
                        #[trigger] addresses[j],
                        sample_threshold,
                        verdict,
                    )
            },
    decreases addresses.len(),
{
    if addresses.len() == 0 {
        reveal(Seq::filter);
    } else {
        let before = addresses.drop_last();
        let last = addresses.last();
        assert(addresses =~= before.push(last));
        lemma_survivors_push(data, before, last, sample_threshold, verdict);
        lemma_survivors_are_outcomes(data, before, sample_threshold, verdict);
        let all = survivors(data, addresses, sample_threshold, verdict);
        let earlier = survivors(data, before, sample_threshold, verdict);
        assert forall|i: int| 0 <= i < all.len() implies {
            let kept = #[trigger] all[i];
            &&& kept.instances.len() > 0
            &&& exists|j: int|
                0 <= j < addresses.len() && kept == outcome(
                    data,
                    #[trigger] addresses[j],
                    sample_threshold,
                    verdict,
                )
        } by {
            if i < earlier.len() {
                assert(all[i] == earlier[i]);
                let j = choose|j: int|
                    0 <= j < before.len() && earlier[i] == outcome(
                        data,
                        #[trigger] before[j],
                        sample_threshold,
                        verdict,
                    );
                assert(addresses[j] == before[j]);
            } else {
                assert(all[i] == outcome(
                    data,
                    addresses[addresses.len() - 1],
                    sample_threshold,
                    verdict,
                ));
            }
        }
    }
}

/// After the computation the counters of every bucket of every survivor sum to
/// its total.
pub proof fn lemma_survivors_are_consistent(
    data: Seq<BlockHeaderData>,
    addresses: Seq<AddressView>,
    sample_threshold: nat,
    verdict: spec_fn(DataInstance, u8) -> bool,
)
    requires
        data.len() <= u32::MAX,
    ensures
        forall|i: int, key: u32|
            0 <= i < survivors(data, addresses, sample_threshold, verdict).len() && (
            #[trigger] survivors(data, addresses, sample_threshold, verdict)[i]).instances.contains_key(
                key,
            ) ==> (#[trigger] survivors(
                data,
                addresses,
                sample_threshold,
                verdict,
            )[i].instances[key]).consistent(),
{
    let all = survivors(data, addresses, sample_threshold, verdict);
    lemma_survivors_are_outcomes(data, addresses, sample_threshold, verdict);
    assert forall|i: int, key: u32|
        0 <= i < all.len() && (#[trigger] all[i]).instances.contains_key(key) implies (
    #[trigger] all[i].instances[key]).consistent() by {
        let j = choose|j: int|
            0 <= j < addresses.len() && all[i] == outcome(
                data,
                #[trigger] addresses[j],
                sample_threshold,
                verdict,
            );
        lemma_kept_bucket(data, addresses[j], sample_threshold, verdict, key);
    }
}

} // verus!
