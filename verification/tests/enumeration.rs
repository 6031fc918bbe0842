use nonce_bias::data_structures::DataAddress;
use nonce_bias::dispatcher::Dispatcher;
use nonce_bias::enumerator::TupleEnumerator;

fn tuples(start_bit: u16, end_bit: u16, header_length: u16, tuple_size: u16) -> Vec<Vec<u16>> {
    let mut enumerator = TupleEnumerator::new(start_bit, end_bit, header_length, tuple_size);
    let mut all = Vec::new();
    while let Some(tuple) = enumerator.next_tuple() {
        all.push(tuple);
    }
    assert!(enumerator.next_tuple().is_none());
    all
}

fn addresses(
    start_bit: u16,
    end_bit: u16,
    header_length: u16,
    nonce_length: u8,
    tuple_size: u16,
    slice_size: usize,
) -> Vec<(Vec<u16>, u8)> {
    let mut dispatcher =
        Dispatcher::new(start_bit, end_bit, header_length, nonce_length, tuple_size, slice_size);
    let mut all = Vec::new();
    while let Some(batch) = dispatcher.next_batch() {
        for statistic in batch {
            all.push((statistic.address.header_bits, statistic.address.nonce_bit));
        }
    }
    all
}

fn binomial(n: u64, k: u64) -> u64 {
    if k > n {
        return 0;
    }
    let mut value = 1;
    for i in 0..k {
        value = value * (n - i) / (i + 1);
    }
    value
}

#[test]
fn pairs_come_in_lexicographic_order() {
    assert_eq!(
        tuples(0, 3, 4, 2),
        vec![vec![0, 1], vec![0, 2], vec![0, 3], vec![1, 2], vec![1, 3], vec![2, 3]]
    );
}

#[test]
fn the_first_position_stays_in_its_range() {
    assert_eq!(tuples(1, 1, 4, 2), vec![vec![1, 2], vec![1, 3]]);
    assert_eq!(tuples(1, 2, 5, 3), vec![vec![1, 2, 3], vec![1, 2, 4], vec![1, 3, 4], vec![2, 3, 4]]);
}

#[test]
fn later_positions_run_to_the_end_of_the_header() {
    assert_eq!(tuples(0, 0, 4, 2), vec![vec![0, 1], vec![0, 2], vec![0, 3]]);
}

#[test]
fn an_end_bit_behind_the_header_changes_nothing() {
    assert_eq!(tuples(0, 100, 3, 1), vec![vec![0], vec![1], vec![2]]);
    assert_eq!(tuples(0, u16::MAX, 3, 2), vec![vec![0, 1], vec![0, 2], vec![1, 2]]);
}

#[test]
fn a_header_shorter_than_the_tuple_has_no_tuple() {
    assert!(tuples(0, 3, 3, 4).is_empty());
    assert!(tuples(0, 3, 0, 1).is_empty());
    assert!(tuples(2, 3, 4, 3).is_empty());
}

#[test]
fn a_start_behind_the_end_has_no_tuple() {
    assert!(tuples(3, 2, 8, 2).is_empty());
    assert!(tuples(9, 20, 8, 1).is_empty());
}

#[test]
fn the_empty_tuple_is_yielded_once() {
    assert_eq!(tuples(0, 3, 4, 0), vec![Vec::<u16>::new()]);
    assert_eq!(tuples(7, 3, 0, 0), vec![Vec::<u16>::new()]);
}

#[test]
fn the_whole_header_is_one_tuple() {
    assert_eq!(tuples(0, 3, 4, 4), vec![vec![0, 1, 2, 3]]);
}

#[test]
fn the_largest_positions_are_reached() {
    assert_eq!(tuples(65533, 65535, 65535, 2), vec![vec![65533, 65534]]);
    assert_eq!(tuples(65534, 65535, 65535, 1), vec![vec![65534]]);
}

#[test]
fn every_combination_is_yielded_once() {
    for header_length in 0..8u16 {
        for tuple_size in 0..6u16 {
            let all = tuples(0, header_length, header_length, tuple_size);
            assert_eq!(all.len() as u64, binomial(header_length as u64, tuple_size as u64));
            for (position, tuple) in all.iter().enumerate() {
                assert_eq!(tuple.len(), tuple_size as usize);
                assert!(tuple.windows(2).all(|pair| pair[0] < pair[1]));
                assert!(tuple.iter().all(|bit| *bit < header_length));
                assert!(position == 0 || all[position - 1] < *tuple);
            }
        }
    }
}

#[test]
fn the_count_follows_the_range_of_the_first_position() {
    // First position 2, 3 or 4 in a header of 10 bits, two more positions behind it.
    let all = tuples(2, 4, 10, 3);
    assert_eq!(all.len() as u64, binomial(7, 2) + binomial(6, 2) + binomial(5, 2));
    assert!(all.iter().all(|tuple| 2 <= tuple[0] && tuple[0] <= 4));
}

#[test]
fn every_tuple_meets_every_nonce_bit() {
    let all = addresses(0, 2, 3, 2, 2, 1);
    assert_eq!(
        all,
        vec![
            (vec![0, 1], 0),
            (vec![0, 1], 1),
            (vec![0, 2], 0),
            (vec![0, 2], 1),
            (vec![1, 2], 0),
            (vec![1, 2], 1),
        ]
    );
}

#[test]
fn the_addresses_are_the_tuples_times_the_nonce_bits() {
    for slice_size in [0usize, 1, 7, 1000] {
        let all = addresses(1, 3, 6, 5, 2, slice_size);
        assert_eq!(all.len() as u64, (binomial(4, 1) + binomial(3, 1) + binomial(2, 1)) * 5);
        for (position, address) in all.iter().enumerate() {
            assert!(all[..position].iter().all(|earlier| earlier != address));
        }
    }
}

#[test]
fn fresh_statistics_hold_every_bucket_at_zero() {
    let mut dispatcher = Dispatcher::new(0, 3, 4, 1, 3, 0);
    let batch = dispatcher.next_batch().expect("a tuple of three bits");
    assert_eq!(batch.len(), 1);
    assert_eq!(batch[0].instances.len(), 8);
    for key in 0..8u32 {
        let bucket = batch[0].instances.get(&key).expect("every key is there");
        assert_eq!((bucket.zeros, bucket.ones, bucket.total), (0, 0, 0));
    }
}

#[test]
fn the_empty_tuple_has_one_bucket() {
    let mut dispatcher = Dispatcher::new(0, 3, 4, 2, 0, 10);
    let batch = dispatcher.next_batch().expect("one tuple, two nonce bits");
    assert_eq!(batch.len(), 2);
    assert_eq!(batch[0].instances.len(), 1);
    assert!(batch[0].instances.contains_key(&0));
    assert_eq!(batch[1].address.nonce_bit, 1);
    assert!(dispatcher.next_batch().is_none());
}

#[test]
fn addresses_are_equal_when_both_fields_are() {
    let a = DataAddress { header_bits: vec![1, 2], nonce_bit: 3 };
    assert!(a.same_as(&DataAddress { header_bits: vec![1, 2], nonce_bit: 3 }));
    assert!(!a.same_as(&DataAddress { header_bits: vec![1, 2], nonce_bit: 4 }));
    assert!(!a.same_as(&DataAddress { header_bits: vec![1, 3], nonce_bit: 3 }));
    assert!(!a.same_as(&DataAddress { header_bits: vec![1], nonce_bit: 3 }));
    assert!(!a.same_as(&DataAddress { header_bits: vec![1, 2, 3], nonce_bit: 3 }));
}
