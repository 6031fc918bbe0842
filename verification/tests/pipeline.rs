use nonce_bias::data_structures::{BlockHeaderData, DataInstance, Message, Statistic};
use nonce_bias::coordinator::{Action, Coordinator};
use nonce_bias::dispatcher::Dispatcher;
use nonce_bias::search::search;
use nonce_bias::statistics::{check_store, compute_histogram_and_stats};
use nonce_bias::worker::{worker, WorkerAction};

fn bits(text: &str) -> Vec<bool> {
    text.chars().map(|c| c == '1').collect()
}

fn record(header: &str, nonce: &str) -> BlockHeaderData {
    BlockHeaderData { nonce: bits(nonce), header: bits(header) }
}

fn four_records() -> Vec<BlockHeaderData> {
    vec![record("0011", "0"), record("0101", "0"), record("1010", "1"), record("1100", "1")]
}

fn entropy(value: &DataInstance) -> f32 {
    let mut p_zero: f32 = 0.0;
    let mut p_one: f32 = 0.0;
    if value.total > 0 {
        p_zero = value.zeros as f32 / value.total as f32;
        p_one = value.ones as f32 / value.total as f32;
    }
    let mut sum: f32 = 0.0;
    if p_zero > 0.0 {
        sum += p_zero * p_zero.log2();
    }
    if p_one > 0.0 {
        sum += p_one * p_one.log2();
    }
    -1.0 * sum
}

fn all_batches(dispatcher: &mut Dispatcher) -> Vec<Vec<Statistic>> {
    let mut batches = Vec::new();
    while let Some(batch) = dispatcher.next_batch() {
        batches.push(batch);
    }
    batches
}

#[test]
fn end_to_end_four_records_one_bit_tuples() {
    let data = four_records();
    let prior: f32 = 1.0;
    let info_threshold: f32 = -1.0;
    let mut dispatcher = Dispatcher::new(0, 3, 4, 1, 1, 100);
    let batches = all_batches(&mut dispatcher);
    assert_eq!(batches.len(), 1);
    let mut kept = Vec::new();
    for batch in batches {
        assert_eq!(batch.len(), 4);
        kept.extend(compute_histogram_and_stats(&data, batch, 0, &|value: DataInstance, _bit: u8| {
            prior - entropy(&value) > info_threshold
        }));
    }
    assert_eq!(kept.len(), 4);
    let expected: [[(u32, u32); 2]; 4] =
        [[(2, 0), (0, 2)], [(1, 1), (1, 1)], [(1, 1), (1, 1)], [(0, 2), (2, 0)]];
    let entropies: [f32; 4] = [0.0, 1.0, 1.0, 0.0];
    for (position, statistic) in kept.iter().enumerate() {
        assert_eq!(statistic.address.header_bits, vec![position as u16]);
        assert_eq!(statistic.address.nonce_bit, 0);
        assert_eq!(statistic.instances.len(), 2);
        let mut counted = 0;
        for key in 0..2u32 {
            let bucket = statistic.instances.get(&key).expect("both buckets are kept");
            let (zeros, ones) = expected[position][key as usize];
            assert_eq!(*bucket, DataInstance { zeros, ones, total: zeros + ones });
            assert_eq!(entropy(bucket), entropies[position]);
            assert_eq!(prior - entropy(bucket), 1.0 - entropies[position]);
            counted += bucket.total;
        }
        assert_eq!(counted, 4);
    }
}

#[test]
fn a_small_bucket_is_dropped_whatever_its_information() {
    let mut data = Vec::new();
    for _ in 0..5 {
        data.push(record("1", "1"));
    }
    for _ in 0..11 {
        data.push(record("0", "1"));
    }
    let mut dispatcher = Dispatcher::new(0, 0, 1, 1, 1, 0);
    let batch = dispatcher.next_batch().expect("one address");
    let kept = compute_histogram_and_stats(&data, batch, 10, &|_value: DataInstance, _bit: u8| true);
    assert_eq!(kept.len(), 1);
    assert_eq!(kept[0].instances.len(), 1);
    assert!(kept[0].instances.get(&1).is_none());
    assert_eq!(kept[0].instances.get(&0), Some(&DataInstance { zeros: 0, ones: 11, total: 11 }));
}

#[test]
fn a_bucket_at_the_sample_threshold_is_dropped() {
    let mut data = Vec::new();
    for _ in 0..10 {
        data.push(record("1", "0"));
    }
    let mut dispatcher = Dispatcher::new(0, 0, 1, 1, 1, 0);
    let batch = dispatcher.next_batch().expect("one address");
    let kept = compute_histogram_and_stats(&data, batch, 10, &|_value: DataInstance, _bit: u8| true);
    assert!(kept.is_empty());
}

#[test]
fn an_uninformative_bucket_is_dropped() {
    let data = four_records();
    let mut dispatcher = Dispatcher::new(0, 3, 4, 1, 1, 100);
    let batch = dispatcher.next_batch().expect("four addresses");
    let kept = compute_histogram_and_stats(&data, batch, 0, &|value: DataInstance, _bit: u8| {
        1.0 - entropy(&value) > 0.5
    });
    assert_eq!(kept.len(), 2);
    assert_eq!(kept[0].address.header_bits, vec![0]);
    assert_eq!(kept[1].address.header_bits, vec![3]);
}

#[test]
fn two_runs_keep_the_same_buckets_however_the_batches_are_cut() {
    let data = four_records();
    let run = |slice_size: usize| {
        let mut dispatcher = Dispatcher::new(0, 3, 4, 1, 2, slice_size);
        let mut kept = Vec::new();
        for batch in all_batches(&mut dispatcher) {
            for statistic in
                compute_histogram_and_stats(&data, batch, 0, &|_v: DataInstance, _b: u8| true)
            {
                let mut buckets: Vec<(u32, u32, u32)> =
                    statistic.instances.iter().map(|(k, v)| (*k, v.zeros, v.ones)).collect();
                buckets.sort();
                kept.push((statistic.address.header_bits, statistic.address.nonce_bit, buckets));
            }
        }
        kept
    };
    let whole = run(1000);
    assert_eq!(whole.len(), 6);
    assert_eq!(whole, run(1000));
    assert_eq!(whole, run(0));
    assert_eq!(whole, run(3));
}

#[test]
fn batches_exceed_the_slice_size_by_whole_tuples() {
    // 4 tuples of one position, 3 nonce bits each: 12 addresses.
    let mut dispatcher = Dispatcher::new(0, 3, 4, 3, 1, 4);
    let lengths: Vec<usize> = all_batches(&mut dispatcher).iter().map(|b| b.len()).collect();
    assert_eq!(lengths, vec![6, 6]);
    let mut dispatcher = Dispatcher::new(0, 3, 4, 3, 1, 6);
    let lengths: Vec<usize> = all_batches(&mut dispatcher).iter().map(|b| b.len()).collect();
    assert_eq!(lengths, vec![9, 3]);
    let mut dispatcher = Dispatcher::new(0, 3, 4, 3, 1, 0);
    let lengths: Vec<usize> = all_batches(&mut dispatcher).iter().map(|b| b.len()).collect();
    assert_eq!(lengths, vec![3, 3, 3, 3]);
}

#[test]
fn the_last_batch_is_handed_out_too() {
    let mut dispatcher = Dispatcher::new(0, 3, 4, 1, 1, 2);
    let batches = all_batches(&mut dispatcher);
    assert_eq!(batches.len(), 2);
    assert_eq!(batches[0].len(), 3);
    assert_eq!(batches[1].len(), 1);
    assert_eq!(batches[1][0].address.header_bits, vec![3]);
    assert!(dispatcher.next_batch().is_none());
}

#[test]
fn a_search_without_nonce_bits_hands_out_nothing() {
    let mut dispatcher = Dispatcher::new(0, 3, 4, 0, 1, 2);
    assert!(dispatcher.next_batch().is_none());
    assert!(dispatcher.next_batch().is_none());
}

#[test]
fn a_batch_goes_to_the_worker_that_is_free() {
    let mut coordinator = Coordinator::new(0, 0, 1, 1, 1, 0, 8);
    assert!(matches!(coordinator.step(None), Action::Receive));
    match coordinator.step(Some(Message::Free(7))) {
        Action::Send(7, Message::Process(sent)) => {
            assert_eq!(sent.len(), 1);
            assert_eq!(sent[0].address.header_bits, vec![0]);
        }
        other => panic!("unexpected: {:?}", other),
    }
}

#[test]
fn a_batch_waits_when_the_message_is_no_notification() {
    let mut coordinator = Coordinator::new(0, 0, 1, 1, 1, 0, 2);
    assert!(matches!(coordinator.step(None), Action::Receive));
    assert!(matches!(coordinator.step(None), Action::Receive));
    assert!(matches!(coordinator.step(Some(Message::Stop)), Action::Receive));
    assert!(matches!(coordinator.step(Some(Message::Process(Vec::new()))), Action::Receive));
    assert!(matches!(coordinator.step(Some(Message::Free(2))), Action::Receive));
    assert!(matches!(
        coordinator.step(Some(Message::Free(1))),
        Action::Send(1, Message::Process(_))
    ));
}

#[test]
fn every_worker_gets_one_stop_signal() {
    let mut coordinator = Coordinator::new(0, 3, 0, 1, 1, 0, 3);
    assert!(matches!(coordinator.step(None), Action::Send(0, Message::Stop)));
    assert!(matches!(coordinator.step(Some(Message::Free(1))), Action::Send(1, Message::Stop)));
    assert!(matches!(coordinator.step(None), Action::Send(2, Message::Stop)));
    assert!(matches!(coordinator.step(None), Action::Join));
    assert!(matches!(coordinator.step(None), Action::Join));
}

#[test]
fn a_pool_without_workers_is_joined_at_once() {
    let mut coordinator = Coordinator::new(0, 3, 4, 0, 1, 0, 0);
    assert!(matches!(coordinator.step(None), Action::Join));
}

#[test]
fn a_run_hands_out_every_address_and_then_stops_every_worker() {
    for workers in 1..4usize {
        for slice_size in [0usize, 2, 5, 100] {
            let mut coordinator = Coordinator::new(0, 3, 4, 2, 2, slice_size, workers);
            let mut handed_out = Vec::new();
            let mut stopped = Vec::new();
            let mut received = None;
            let mut turn = 0;
            loop {
                match coordinator.step(received.take()) {
                    Action::Receive => {
                        assert!(stopped.is_empty());
                        received = Some(Message::Free(turn % workers));
                        turn += 1;
                    }
                    Action::Send(worker, Message::Process(batch)) => {
                        assert!(stopped.is_empty());
                        assert_eq!(worker, (turn - 1) % workers);
                        assert!(batch.len() > slice_size || handed_out.len() + batch.len() == 12);
                        for statistic in batch {
                            handed_out
                                .push((statistic.address.header_bits, statistic.address.nonce_bit));
                        }
                    }
                    Action::Send(worker, Message::Stop) => stopped.push(worker),
                    Action::Send(_, Message::Free(_)) => panic!("workers are not notified"),
                    Action::Join => break,
                }
            }
            assert_eq!(stopped, (0..workers).collect::<Vec<usize>>());
            let mut expected = Vec::new();
            for tuple in [[0u16, 1], [0, 2], [0, 3], [1, 2], [1, 3], [2, 3]] {
                expected.push((tuple.to_vec(), 0u8));
                expected.push((tuple.to_vec(), 1u8));
            }
            assert_eq!(handed_out, expected);
        }
    }
}

#[test]
fn a_worker_processes_reports_and_stops() {
    let data = four_records();
    let mut dispatcher = Dispatcher::new(0, 3, 4, 1, 1, 100);
    let batch = dispatcher.next_batch().expect("four addresses");
    let accept = |_value: DataInstance, _bit: u8| true;
    match worker(5, &data, Message::Process(batch), 1, &accept) {
        WorkerAction::Report { kept: Some(kept), notice: Message::Free(5) } => {
            assert_eq!(kept.len(), 4);
        }
        other => panic!("unexpected: {:?}", other),
    }
    assert!(matches!(worker(5, &data, Message::Stop, 1, &accept), WorkerAction::Exit));
    assert!(matches!(worker(5, &data, Message::Free(2), 1, &accept), WorkerAction::Ignore));
}

#[test]
fn a_worker_reports_nothing_when_no_bucket_is_kept() {
    let data = four_records();
    let mut dispatcher = Dispatcher::new(0, 3, 4, 1, 1, 100);
    let batch = dispatcher.next_batch().expect("four addresses");
    let accept = |_value: DataInstance, _bit: u8| true;
    match worker(0, &data, Message::Process(batch), 2, &accept) {
        WorkerAction::Report { kept: None, notice: Message::Free(0) } => {}
        other => panic!("unexpected: {:?}", other),
    }
    match worker(3, &data, Message::Process(Vec::new()), 0, &accept) {
        WorkerAction::Report { kept: None, notice: Message::Free(3) } => {}
        other => panic!("unexpected: {:?}", other),
    }
}

#[test]
fn the_search_in_one_thread_keeps_what_the_batches_keep() {
    let data = four_records();
    let test = |value: DataInstance, bit: u8| bit == 0 && 1.0 - entropy(&value) > 0.5;
    for slice_size in [0usize, 1, 3, 100] {
        let kept = search(&data, 0, 3, 4, 1, 2, slice_size, 0, &test).expect("the store is covered");
        let mut batched = Vec::new();
        let mut dispatcher = Dispatcher::new(0, 3, 4, 1, 2, slice_size);
        for batch in all_batches(&mut dispatcher) {
            batched.extend(compute_histogram_and_stats(&data, batch, 0, &test));
        }
        assert_eq!(kept.len(), batched.len());
        for (one, other) in kept.iter().zip(batched.iter()) {
            assert!(one.address.same_as(&other.address));
            assert_eq!(one.instances, other.instances);
        }
        let tuples: Vec<Vec<u16>> = kept.iter().map(|s| s.address.header_bits.clone()).collect();
        assert_eq!(tuples, vec![vec![0, 1], vec![0, 2], vec![0, 3], vec![1, 3], vec![2, 3]]);
        assert_eq!(kept[0].instances.len(), 4);
        assert_eq!(kept[0].instances[&3], DataInstance { zeros: 0, ones: 1, total: 1 });
        assert_eq!(kept[2].instances.len(), 2);
        assert_eq!(kept[2].instances[&1], DataInstance { zeros: 2, ones: 0, total: 2 });
        assert_eq!(kept[2].instances[&2], DataInstance { zeros: 0, ones: 2, total: 2 });
    }
}

#[test]
fn a_store_that_is_too_short_is_not_searched() {
    let data = four_records();
    let accept = |_value: DataInstance, _bit: u8| true;
    assert!(search(&data, 0, 3, 5, 1, 1, 10, 0, &accept).is_none());
    assert!(search(&data, 0, 3, 4, 2, 1, 10, 0, &accept).is_none());
    assert!(search(&data, 0, 3, 4, 1, 32, 10, 0, &accept).is_none());
    assert!(search(&data, 0, 3, 4, 1, 31, 10, 0, &accept).expect("no tuple at all").is_empty());
    assert!(search(&Vec::new(), 0, 3, 4, 1, 2, 10, 0, &accept).expect("no record").is_empty());
    assert!(check_store(&data, 4, 1));
    assert!(check_store(&data, 3, 0));
    assert!(!check_store(&data, 5, 1));
    assert!(!check_store(&data, 4, 2));
    assert!(check_store(&Vec::new(), 100, 100));
    let mut uneven = four_records();
    uneven.push(record("001", "1"));
    assert!(!check_store(&uneven, 4, 1));
    assert!(check_store(&uneven, 3, 1));
}

#[test]
fn any_schedule_stops_every_worker_and_keeps_the_same_statistics() {
    let data = four_records();
    let test = |value: DataInstance, _bit: u8| 1.0 - entropy(&value) > 0.5;
    let expected: Vec<(Vec<u16>, u8, Vec<(u32, u32, u32)>)> = {
        let mut all = Vec::new();
        for statistic in search(&data, 0, 3, 4, 1, 2, 1, 0, &test).expect("the store is covered") {
            let mut buckets: Vec<(u32, u32, u32)> =
                statistic.instances.iter().map(|(k, v)| (*k, v.zeros, v.ones)).collect();
            buckets.sort();
            all.push((statistic.address.header_bits, statistic.address.nonce_bit, buckets));
        }
        all.sort();
        all
    };
    assert_eq!(expected.len(), 5);
    let mut seed: u64 = 0x2545F4914F6CDD1D;
    for round in 0..200 {
        let workers = 1 + round % 4;
        let slice_size = round % 3;
        let mut coordinator = Coordinator::new(0, 3, 4, 1, 2, slice_size, workers);
        let mut notices: Vec<Message> = (0..workers).map(Message::Free).collect();
        let mut inboxes: Vec<Vec<Message>> = (0..workers).map(|_| Vec::new()).collect();
        let mut running = vec![true; workers];
        let mut awaiting = false;
        let mut joined = false;
        let mut kept = Vec::new();
        let mut moves = 0;
        loop {
            let mut able: Vec<usize> =
                (0..workers).filter(|w| running[*w] && !inboxes[*w].is_empty()).collect();
            if !joined && (!awaiting || !notices.is_empty()) {
                able.push(workers);
            }
            if able.is_empty() {
                break;
            }
            seed ^= seed << 13;
            seed ^= seed >> 7;
            seed ^= seed << 17;
            let mover = able[(seed % able.len() as u64) as usize];
            moves += 1;
            if mover == workers {
                let received = if awaiting { Some(notices.remove(0)) } else { None };
                match coordinator.step(received) {
                    Action::Receive => awaiting = true,
                    Action::Send(worker, message) => {
                        awaiting = false;
                        if matches!(message, Message::Process(_)) {
                            let held =
                                inboxes[worker].iter().filter(|m| matches!(m, Message::Process(_)));
                            assert_eq!(held.count(), 0);
                        }
                        inboxes[worker].push(message);
                    }
                    Action::Join => {
                        awaiting = false;
                        joined = true;
                    }
                }
            } else {
                let message = inboxes[mover].remove(0);
                match worker(mover, &data, message, 0, &test) {
                    WorkerAction::Report { kept: results, notice } => {
                        for statistic in results.unwrap_or_default() {
                            let mut buckets: Vec<(u32, u32, u32)> = statistic
                                .instances
                                .iter()
                                .map(|(k, v)| (*k, v.zeros, v.ones))
                                .collect();
                            buckets.sort();
                            kept.push((
                                statistic.address.header_bits,
                                statistic.address.nonce_bit,
                                buckets,
                            ));
                        }
                        notices.push(notice);
                    }
                    WorkerAction::Exit => running[mover] = false,
                    WorkerAction::Ignore => panic!("no notification is sent to a worker"),
                }
            }
        }
        assert!(joined);
        assert!(running.iter().all(|r| !r));
        assert!(inboxes.iter().all(|inbox| inbox.is_empty()));
        assert!(moves <= 4 * 6 + 2 * workers + 2);
        kept.sort();
        assert_eq!(kept, expected);
    }
}
