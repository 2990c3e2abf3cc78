use std::collections::HashMap;
use txn_pipeline::clock::{Clock, Instant};
use txn_pipeline::multi_bucket::{
    BucketError, MultiBucketTimelineIndex, MultiBucketTimelineIndexIds,
};
use txn_pipeline::timeline_index::TimelineIndex;
use txn_pipeline::transaction::{
    AccountAddress, Duration, HashValue, InsertionInfo, MempoolTransaction, ReplayProtector,
    SequenceInfo, SignedTransaction, SystemTime, TimelineState,
};

fn timeline_txn(sender: u128, score: u64) -> MempoolTransaction {
    MempoolTransaction {
        txn: SignedTransaction {
            sender: AccountAddress { high: 0, low: sender },
            sequence_number: 0,
            committed_hash: HashValue { high: 0, low: sender },
        },
        expiration_time: Duration { nanos: 0 },
        ranking_score: score,
        timeline_state: TimelineState::NotReady,
        sequence_info: SequenceInfo {
            transaction_replay_protector: ReplayProtector::SequenceNumber(0),
        },
        insertion_info: InsertionInfo {
            insertion_time: SystemTime { nanos: 0 },
            park_time: None,
        },
        was_parked: false,
    }
}

fn senders_of(batch: &Vec<(AccountAddress, ReplayProtector)>) -> Vec<u128> {
    batch.iter().map(|entry| entry.0.low).collect()
}

fn filled_timeline(count: u128) -> TimelineIndex {
    let mut index = TimelineIndex::new();
    for sender in 1..count + 1 {
        let mut txn = timeline_txn(sender, 0);
        index.insert_at(&mut txn, Instant { nanos: 10 * sender });
    }
    index
}

#[test]
fn ids_start_at_one_and_grow() {
    let mut index = TimelineIndex::new();
    let mut first = timeline_txn(1, 0);
    let mut second = timeline_txn(2, 0);
    index.insert_at(&mut first, Instant { nanos: 5 });
    index.insert_at(&mut second, Instant { nanos: 6 });
    assert_eq!(first.timeline_state, TimelineState::Ready(1));
    assert_eq!(second.timeline_state, TimelineState::Ready(2));
    index.remove(&second);
    let mut third = timeline_txn(3, 0);
    index.insert_at(&mut third, Instant { nanos: 7 });
    assert_eq!(third.timeline_state, TimelineState::Ready(3));
    assert_eq!(index.size(), 2);
}

#[test]
fn reading_starts_after_the_id_and_is_limited() {
    let index = filled_timeline(5);
    assert_eq!(senders_of(&index.read_timeline(0, 10, None)), vec![1, 2, 3, 4, 5]);
    assert_eq!(senders_of(&index.read_timeline(2, 2, None)), vec![3, 4]);
    assert_eq!(senders_of(&index.read_timeline(5, 2, None)), Vec::<u128>::new());
    assert_eq!(senders_of(&index.read_timeline(0, 0, None)), Vec::<u128>::new());
}

#[test]
fn reading_stops_at_the_time_given() {
    let index = filled_timeline(5);
    assert_eq!(senders_of(&index.read_timeline(0, 10, Some(Instant { nanos: 30 }))), vec![1, 2]);
    assert_eq!(senders_of(&index.read_timeline(0, 1, Some(Instant { nanos: 30 }))), vec![1]);
    let mut uneven = TimelineIndex::new();
    let mut late = timeline_txn(1, 0);
    let mut early = timeline_txn(2, 0);
    uneven.insert_at(&mut late, Instant { nanos: 50 });
    uneven.insert_at(&mut early, Instant { nanos: 10 });
    assert!(uneven.read_timeline(0, 10, Some(Instant { nanos: 40 })).is_empty());
}

#[test]
fn reading_resumes_where_it_stopped() {
    let index = filled_timeline(5);
    let mut in_parts = senders_of(&index.read_timeline(1, 2, None));
    in_parts.extend(senders_of(&index.read_timeline(3, 2, None)));
    assert_eq!(in_parts, senders_of(&index.read_timeline(1, 4, None)));
}

#[test]
fn ranges_exclude_the_start_and_include_the_end() {
    let index = filled_timeline(5);
    assert_eq!(senders_of(&index.timeline_range(1, 3)), vec![2, 3]);
    assert_eq!(senders_of(&index.timeline_range(3, 3)), Vec::<u128>::new());
    assert_eq!(senders_of(&index.timeline_range(0, 99)), vec![1, 2, 3, 4, 5]);
    let mut joined = senders_of(&index.timeline_range(0, 2));
    joined.extend(senders_of(&index.timeline_range(2, 5)));
    assert_eq!(joined, senders_of(&index.timeline_range(0, 5)));
}

#[test]
fn removal_needs_an_id_of_the_timeline() {
    let mut index = filled_timeline(3);
    index.remove(&timeline_txn(2, 0));
    assert_eq!(index.size(), 3);
    let mut stranger = timeline_txn(9, 0);
    stranger.timeline_state = TimelineState::Ready(9);
    index.remove(&stranger);
    assert_eq!(index.size(), 3);
    stranger.timeline_state = TimelineState::NonQualified;
    index.remove(&stranger);
    assert_eq!(index.size(), 3);
    stranger.timeline_state = TimelineState::Ready(2);
    index.remove(&stranger);
    assert_eq!(senders_of(&index.read_timeline(0, 9, None)), vec![1, 3]);
    index.remove(&stranger);
    assert_eq!(index.size(), 2);
}

#[test]
fn clock_gives_insertion_times() {
    let clock = Clock::start();
    let first = clock.now();
    let mut index = TimelineIndex::new();
    let mut txn = timeline_txn(1, 0);
    index.insert(&mut txn, &clock);
    let last = clock.now();
    assert!(first.nanos <= last.nanos);
    assert_eq!(txn.timeline_state, TimelineState::Ready(1));
    assert!(index.read_timeline(0, 1, Some(Instant { nanos: 0 })).is_empty());
    let later = Instant { nanos: last.nanos + 1 };
    assert_eq!(senders_of(&index.read_timeline(0, 1, Some(later))), vec![1]);
}

#[test]
fn wall_clock_is_past_the_year_2020() {
    let now = SystemTime::now();
    assert!(now.nanos > 1_577_836_800_000_000_000);
    assert_eq!(SystemTime::at_distance(Ok(7)).nanos, 7);
    assert_eq!(SystemTime::at_distance(Err(7)).nanos, -7);
}

fn buckets(mins: Vec<u64>) -> MultiBucketTimelineIndex {
    match MultiBucketTimelineIndex::new(mins) {
        Ok(index) => index,
        Err(error) => panic!("{}", error.message()),
    }
}

#[test]
fn bucket_minimums_are_checked() {
    assert!(matches!(MultiBucketTimelineIndex::new(vec![]), Err(BucketError::Empty)));
    assert!(matches!(MultiBucketTimelineIndex::new(vec![1, 2]), Err(BucketError::FirstNotZero)));
    assert!(matches!(MultiBucketTimelineIndex::new(vec![0, 5, 5]), Err(BucketError::NotRising)));
    assert!(matches!(MultiBucketTimelineIndex::new(vec![0, 5, 4]), Err(BucketError::NotRising)));
    assert!(MultiBucketTimelineIndex::new(vec![0]).is_ok());
    assert_eq!(BucketError::Empty.message(), "Must not be empty");
    assert_eq!(BucketError::FirstNotZero.message(), "First bucket must start at 0");
    assert_eq!(BucketError::NotRising.message(), "Values must be sorted and not repeat");
}

#[test]
fn buckets_are_labelled_by_their_least_score() {
    let index = buckets(vec![0, 100, 18_446_744_073_709_551_615]);
    assert_eq!(index.get_bucket(0), "0");
    assert_eq!(index.get_bucket(99), "0");
    assert_eq!(index.get_bucket(100), "100");
    assert_eq!(index.get_bucket(101), "100");
    assert_eq!(index.get_bucket(18_446_744_073_709_551_615), "18446744073709551615");
    assert_eq!(index.get_sizes(), vec![("0", 0), ("100", 0), ("18446744073709551615", 0)]);
}

fn filled_buckets() -> MultiBucketTimelineIndex {
    let mut index = buckets(vec![0, 10, 20]);
    let mut time: u128 = 0;
    for (sender, score) in [(1u128, 5u64), (2, 15), (3, 25), (4, 10), (5, 20), (6, 0)] {
        time = time + 10;
        let mut txn = timeline_txn(sender, score);
        index.insert_at(&mut txn, Instant { nanos: time });
    }
    index
}

fn lists_of(returned: Vec<Vec<(AccountAddress, ReplayProtector)>>) -> Vec<Vec<u128>> {
    returned.iter().map(|batch| senders_of(batch)).collect()
}

#[test]
fn higher_buckets_are_read_first() {
    let index = filled_buckets();
    assert_eq!(index.size(), 6);
    assert_eq!(index.get_sizes(), vec![("0", 2), ("10", 2), ("20", 2)]);
    let start = MultiBucketTimelineIndexIds { id_per_bucket: vec![0, 0, 0] };
    assert_eq!(
        lists_of(index.read_timeline(&start, 10, None)),
        vec![vec![1, 6], vec![2, 4], vec![3, 5]]
    );
    assert_eq!(
        lists_of(index.read_timeline(&start, 3, None)),
        vec![vec![], vec![2], vec![3, 5]]
    );
    assert_eq!(lists_of(index.read_timeline(&start, 0, None)), vec![vec![], vec![], Vec::<u128>::new()]);
    let seen = MultiBucketTimelineIndexIds { id_per_bucket: vec![1, 2, 0] };
    assert_eq!(
        lists_of(index.read_timeline(&seen, 10, Some(Instant { nanos: 50 }))),
        vec![vec![], vec![], vec![3]]
    );
}

#[test]
fn ranges_are_read_by_bucket() {
    let index = filled_buckets();
    let mut pairs: HashMap<u8, (u64, u64)> = HashMap::new();
    pairs.insert(0, (0, 1));
    pairs.insert(1, (1, 2));
    pairs.insert(7, (9, 1));
    let mut senders = senders_of(&index.timeline_range(pairs));
    senders.sort();
    assert_eq!(senders, vec![1, 4]);
    assert_eq!(
        senders_of(&index.ranges_in_order(&vec![(2, (0, 2)), (9, (0, 9)), (0, (1, 2))])),
        vec![3, 5, 6]
    );
}

#[test]
fn bucket_removal_undoes_insertion() {
    let mut index = filled_buckets();
    let clock = Clock::start();
    let mut txn = timeline_txn(7, 12);
    index.insert(&mut txn, &clock);
    assert_eq!(txn.timeline_state, TimelineState::Ready(3));
    assert_eq!(index.get_sizes(), vec![("0", 2), ("10", 3), ("20", 2)]);
    index.remove(&txn);
    assert_eq!(index.get_sizes(), vec![("0", 2), ("10", 2), ("20", 2)]);
    assert_eq!(index.size(), 6);
}
