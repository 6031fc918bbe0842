use nonce_bias::data_structures::{BlockHeaderData, DataAddress, DataInstance, Statistic};
use nonce_bias::statistics::{
    account_address, compute_histogram_and_stats, count_records, header_value, passes_thresholds,
    retain_passing, update_statistics,
};
use std::collections::HashMap;

fn bits(text: &str) -> Vec<bool> {
    text.chars().map(|c| c == '1').collect()
}

fn record(header: &str, nonce: &str) -> BlockHeaderData {
    BlockHeaderData { nonce: bits(nonce), header: bits(header) }
}

fn fresh(header_bits: &[u16], nonce_bit: u8) -> Statistic {
    let mut stats = Vec::new();
    account_address(&header_bits.to_vec(), nonce_bit, &mut stats);
    stats.pop().expect("one statistic was added")
}

#[test]
fn an_address_is_added_behind_the_others() {
    let mut stats = Vec::new();
    account_address(&vec![4, 9], 2, &mut stats);
    account_address(&vec![7], 0, &mut stats);
    assert_eq!(stats.len(), 2);
    assert_eq!(stats[0].address.header_bits, vec![4, 9]);
    assert_eq!(stats[0].address.nonce_bit, 2);
    assert_eq!(stats[0].instances.len(), 4);
    assert_eq!(stats[1].address.header_bits, vec![7]);
    assert_eq!(stats[1].instances.len(), 2);
    for statistic in &stats {
        for bucket in statistic.instances.values() {
            assert_eq!(*bucket, DataInstance { zeros: 0, ones: 0, total: 0 });
        }
    }
}

#[test]
fn a_tuple_of_five_bits_has_thirty_two_buckets() {
    let statistic = fresh(&[0, 1, 2, 3, 4], 0);
    assert_eq!(statistic.instances.len(), 32);
    let mut keys: Vec<u32> = statistic.instances.keys().copied().collect();
    keys.sort();
    assert_eq!(keys, (0..32).collect::<Vec<u32>>());
}

#[test]
fn the_first_position_is_the_most_significant_bit() {
    let entry = record("0110", "0");
    assert_eq!(header_value(&entry, &vec![1, 3]), 2);
    assert_eq!(header_value(&entry, &vec![3, 1]), 1);
    assert_eq!(header_value(&entry, &vec![0, 1, 2]), 3);
    assert_eq!(header_value(&entry, &vec![1, 2, 3]), 6);
    assert_eq!(header_value(&entry, &vec![]), 0);
}

#[test]
fn thirty_one_bits_fit_a_key() {
    let entry = BlockHeaderData { nonce: vec![false], header: vec![true; 31] };
    let positions: Vec<u16> = (0..31).collect();
    assert_eq!(header_value(&entry, &positions), 0x7fff_ffff);
}

#[test]
fn every_record_is_counted_once() {
    let data = vec![
        record("00", "10"),
        record("01", "11"),
        record("01", "01"),
        record("11", "00"),
        record("01", "10"),
    ];
    let mut statistic = fresh(&[0, 1], 0);
    count_records(&data, &statistic.address, &mut statistic.instances);
    assert_eq!(statistic.instances[&0], DataInstance { zeros: 0, ones: 1, total: 0 });
    assert_eq!(statistic.instances[&1], DataInstance { zeros: 1, ones: 2, total: 0 });
    assert_eq!(statistic.instances[&2], DataInstance { zeros: 0, ones: 0, total: 0 });
    assert_eq!(statistic.instances[&3], DataInstance { zeros: 1, ones: 0, total: 0 });
    update_statistics(&mut statistic.instances);
    assert_eq!(statistic.instances[&0], DataInstance { zeros: 0, ones: 1, total: 1 });
    assert_eq!(statistic.instances[&1], DataInstance { zeros: 1, ones: 2, total: 3 });
    assert_eq!(statistic.instances[&2], DataInstance { zeros: 0, ones: 0, total: 0 });
    assert_eq!(statistic.instances[&3], DataInstance { zeros: 1, ones: 0, total: 1 });
    let counted: u32 = statistic.instances.values().map(|bucket| bucket.total).sum();
    assert_eq!(counted, 5);
}

#[test]
fn the_second_nonce_bit_is_counted_by_its_address() {
    let data = vec![record("0", "10"), record("0", "11"), record("1", "01")];
    let mut statistic = fresh(&[0], 1);
    count_records(&data, &statistic.address, &mut statistic.instances);
    update_statistics(&mut statistic.instances);
    assert_eq!(statistic.instances[&0], DataInstance { zeros: 1, ones: 1, total: 2 });
    assert_eq!(statistic.instances[&1], DataInstance { zeros: 0, ones: 1, total: 1 });
}

#[test]
fn totals_are_the_sums_of_the_counters() {
    let mut values = HashMap::new();
    values.insert(3, DataInstance { zeros: 4, ones: 5, total: 0 });
    values.insert(9, DataInstance { zeros: 0, ones: 0, total: 7 });
    values.insert(1, DataInstance { zeros: u32::MAX, ones: 0, total: 1 });
    update_statistics(&mut values);
    assert_eq!(values.len(), 3);
    assert_eq!(values[&3], DataInstance { zeros: 4, ones: 5, total: 9 });
    assert_eq!(values[&9], DataInstance { zeros: 0, ones: 0, total: 0 });
    assert_eq!(values[&1], DataInstance { zeros: u32::MAX, ones: 0, total: u32::MAX });
}

#[test]
fn a_bucket_passes_above_both_thresholds_only() {
    let bucket = DataInstance { zeros: 3, ones: 2, total: 5 };
    let yes = |_value: DataInstance, _bit: u8| true;
    let no = |_value: DataInstance, _bit: u8| false;
    assert!(passes_thresholds(&bucket, 0, 4, &yes));
    assert!(!passes_thresholds(&bucket, 0, 5, &yes));
    assert!(!passes_thresholds(&bucket, 0, 10, &yes));
    assert!(!passes_thresholds(&bucket, 0, 4, &no));
    assert!(!passes_thresholds(&bucket, 0, 10, &no));
    assert!(!passes_thresholds(&bucket, 0, usize::MAX, &yes));
}

#[test]
fn the_information_test_sees_the_bucket_and_the_nonce_bit() {
    let bucket = DataInstance { zeros: 3, ones: 2, total: 5 };
    let test = |value: DataInstance, bit: u8| value.zeros == 3 && value.ones == 2 && bit == 6;
    assert!(passes_thresholds(&bucket, 6, 0, &test));
    assert!(!passes_thresholds(&bucket, 5, 0, &test));
}

#[test]
fn only_passing_buckets_stay() {
    let mut values = HashMap::new();
    values.insert(0, DataInstance { zeros: 1, ones: 1, total: 2 });
    values.insert(1, DataInstance { zeros: 6, ones: 0, total: 6 });
    values.insert(2, DataInstance { zeros: 0, ones: 9, total: 9 });
    values.insert(3, DataInstance { zeros: 2, ones: 1, total: 3 });
    retain_passing(&mut values, 0, 2, &|value: DataInstance, _bit: u8| value.zeros == 0 || value.ones == 0);
    let mut keys: Vec<u32> = values.keys().copied().collect();
    keys.sort();
    assert_eq!(keys, vec![1, 2]);
    assert_eq!(values[&1], DataInstance { zeros: 6, ones: 0, total: 6 });
    assert_eq!(values[&2], DataInstance { zeros: 0, ones: 9, total: 9 });
}

#[test]
fn a_statistic_without_buckets_is_dropped() {
    let data = vec![record("01", "1"), record("01", "0"), record("10", "1")];
    let stats = vec![fresh(&[0], 0), fresh(&[1], 0), fresh(&[0, 1], 0)];
    let kept = compute_histogram_and_stats(&data, stats, 1, &|value: DataInstance, _bit: u8| {
        value.zeros == value.ones
    });
    assert_eq!(kept.len(), 3);
    let stats = vec![fresh(&[0], 0), fresh(&[1], 0), fresh(&[0, 1], 0)];
    let kept = compute_histogram_and_stats(&data, stats, 1, &|value: DataInstance, _bit: u8| {
        value.zeros != value.ones
    });
    assert!(kept.is_empty());
    let stats = vec![fresh(&[0], 0), fresh(&[1], 0), fresh(&[0, 1], 0)];
    let kept = compute_histogram_and_stats(&data, stats, 0, &|value: DataInstance, _bit: u8| {
        value.zeros != value.ones
    });
    assert_eq!(kept.len(), 3);
    assert_eq!(kept[0].address.header_bits, vec![0]);
    assert_eq!(kept[0].instances.len(), 1);
    assert_eq!(kept[0].instances[&1], DataInstance { zeros: 0, ones: 1, total: 1 });
    assert_eq!(kept[2].address.header_bits, vec![0, 1]);
    assert_eq!(kept[2].instances.len(), 1);
    assert_eq!(kept[2].instances[&2], DataInstance { zeros: 0, ones: 1, total: 1 });
}

#[test]
fn an_empty_store_keeps_nothing() {
    let data: Vec<BlockHeaderData> = Vec::new();
    let kept = compute_histogram_and_stats(&data, vec![fresh(&[0], 0)], 0, &|_v: DataInstance, _b: u8| true);
    assert!(kept.is_empty());
}

#[test]
fn an_empty_batch_keeps_nothing() {
    let data = vec![record("01", "1")];
    let kept = compute_histogram_and_stats(&data, Vec::new(), 0, &|_v: DataInstance, _b: u8| true);
    assert!(kept.is_empty());
}

#[test]
fn counters_sum_to_the_number_of_records() {
    let data: Vec<BlockHeaderData> = (0..37u32)
        .map(|n| BlockHeaderData {
            nonce: vec![n % 3 == 0],
            header: (0..5).map(|bit| (n >> bit) & 1 == 1).collect(),
        })
        .collect();
    let stats = vec![fresh(&[0, 2, 4], 0), fresh(&[1], 0), fresh(&[], 0)];
    let kept = compute_histogram_and_stats(&data, stats, 0, &|_v: DataInstance, _b: u8| true);
    assert_eq!(kept.len(), 3);
    for statistic in &kept {
        let mut counted = 0;
        for bucket in statistic.instances.values() {
            assert_eq!(bucket.zeros + bucket.ones, bucket.total);
            assert!(bucket.total > 0);
            counted += bucket.total;
        }
        assert_eq!(counted, 37);
    }
    assert_eq!(kept[2].instances[&0], DataInstance { zeros: 24, ones: 13, total: 37 });
}

#[test]
fn an_address_keeps_its_fields_through_the_computation() {
    let data = vec![record("0101", "011")];
    let kept = compute_histogram_and_stats(&data, vec![fresh(&[1, 3], 2)], 0, &|_v: DataInstance, _b: u8| true);
    assert_eq!(kept.len(), 1);
    assert!(kept[0].address.same_as(&DataAddress { header_bits: vec![1, 3], nonce_bit: 2 }));
    assert_eq!(kept[0].instances[&3], DataInstance { zeros: 0, ones: 1, total: 1 });
}
