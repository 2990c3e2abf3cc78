use std::cmp::Ordering;
use txn_pipeline::priority_index::{OrderedQueueKey, PriorityIndex};
use txn_pipeline::transaction::{
    AccountAddress, Duration, HashValue, InsertionInfo, MempoolTransaction, ReplayProtector,
    SequenceInfo, SignedTransaction, SystemTime, TimelineState, TransactionSummary,
};
use txn_pipeline::ttl_index::{TTLIndex, TTLOrderingKey};

fn queue_address(n: u128) -> AccountAddress {
    AccountAddress { high: 0, low: n }
}

fn queue_hash(n: u128) -> HashValue {
    HashValue { high: 0, low: n }
}

fn queue_txn(sender: u128, number: u64, score: u64, inserted: i128, expires: u128) -> MempoolTransaction {
    MempoolTransaction {
        txn: SignedTransaction {
            sender: queue_address(sender),
            sequence_number: number,
            committed_hash: queue_hash(1000 * sender + number as u128),
        },
        expiration_time: Duration { nanos: expires },
        ranking_score: score,
        timeline_state: TimelineState::NotReady,
        sequence_info: SequenceInfo {
            transaction_replay_protector: ReplayProtector::SequenceNumber(number),
        },
        insertion_info: InsertionInfo {
            insertion_time: SystemTime { nanos: inserted },
            park_time: None,
        },
        was_parked: false,
    }
}

fn base_key() -> OrderedQueueKey {
    OrderedQueueKey {
        gas_ranking_score: 5,
        expiration_time: Duration { nanos: 100 },
        insertion_time: SystemTime { nanos: 10 },
        address: queue_address(1),
        replay_protector: ReplayProtector::SequenceNumber(3),
        hash: queue_hash(7),
    }
}

#[test]
fn keys_compare_by_gas_score_first() {
    let low = base_key();
    let high = OrderedQueueKey {
        gas_ranking_score: 6,
        insertion_time: SystemTime { nanos: 99 },
        ..base_key()
    };
    assert_eq!(low.cmp(&high), Ordering::Less);
    assert_eq!(high.cmp(&low), Ordering::Greater);
    assert_eq!(low.partial_cmp(&high), Some(Ordering::Less));
    assert!(low < high);
}

#[test]
fn earlier_insertion_is_the_greater_key() {
    let early = base_key();
    let late = OrderedQueueKey { insertion_time: SystemTime { nanos: 11 }, ..base_key() };
    assert_eq!(early.cmp(&late), Ordering::Greater);
    assert_eq!(late.cmp(&early), Ordering::Less);
    let before_epoch = OrderedQueueKey { insertion_time: SystemTime { nanos: -1 }, ..base_key() };
    assert_eq!(before_epoch.cmp(&early), Ordering::Greater);
}

#[test]
fn ties_are_broken_by_address_protector_and_hash() {
    let key = base_key();
    let by_address = OrderedQueueKey {
        address: AccountAddress { high: 1, low: 0 },
        ..base_key()
    };
    assert_eq!(key.cmp(&by_address), Ordering::Less);
    let by_number = OrderedQueueKey {
        replay_protector: ReplayProtector::SequenceNumber(4),
        ..base_key()
    };
    assert_eq!(key.cmp(&by_number), Ordering::Less);
    let nonce = OrderedQueueKey { replay_protector: ReplayProtector::Nonce(9), ..base_key() };
    assert_eq!(nonce.cmp(&key), Ordering::Less);
    let smaller_nonce = OrderedQueueKey { replay_protector: ReplayProtector::Nonce(8), ..base_key() };
    assert_eq!(smaller_nonce.cmp(&nonce), Ordering::Less);
    let by_hash = OrderedQueueKey { hash: queue_hash(6), ..base_key() };
    assert_eq!(by_hash.cmp(&key), Ordering::Less);
    assert_eq!(key.cmp(&base_key()), Ordering::Equal);
}

#[test]
fn earlier_expiration_is_the_greater_key() {
    let key = base_key();
    let sooner = OrderedQueueKey { expiration_time: Duration { nanos: 99 }, ..base_key() };
    assert_eq!(sooner.cmp(&key), Ordering::Greater);
    assert_eq!(key.cmp(&sooner), Ordering::Less);
    let sooner_in_nothing_else = OrderedQueueKey {
        expiration_time: Duration { nanos: 99 },
        insertion_time: SystemTime { nanos: 1_000 },
        address: queue_address(0),
        replay_protector: ReplayProtector::Nonce(0),
        hash: queue_hash(0),
        ..base_key()
    };
    assert_eq!(sooner_in_nothing_else.cmp(&key), Ordering::Greater);
    let richer = OrderedQueueKey { gas_ranking_score: 6, ..base_key() };
    assert_eq!(sooner.cmp(&richer), Ordering::Less);
}

#[test]
fn priority_queue_comes_out_by_gas_and_insertion() {
    let mut index = PriorityIndex::new();
    assert_eq!(index.size(), 0);
    assert!(index.iter().is_empty());
    index.insert(&queue_txn(1, 0, 5, 30, 130));
    index.insert(&queue_txn(2, 0, 9, 40, 130));
    index.insert(&queue_txn(3, 0, 5, 20, 130));
    index.insert(&queue_txn(4, 0, 1, 10, 130));
    assert_eq!(index.size(), 4);
    let senders: Vec<u128> = index.iter().iter().map(|key| key.address.low).collect();
    assert_eq!(senders, vec![2, 3, 1, 4]);
}

#[test]
fn same_score_comes_out_by_expiration() {
    let mut index = PriorityIndex::new();
    index.insert(&queue_txn(1, 0, 5, 1, 100));
    index.insert(&queue_txn(2, 0, 5, 2, 50));
    index.insert(&queue_txn(3, 0, 5, 3, 75));
    index.insert(&queue_txn(4, 0, 6, 4, 200));
    let expirations: Vec<u128> = index.iter().iter().map(|key| key.expiration_time.nanos).collect();
    assert_eq!(expirations, vec![200, 50, 75, 100]);
}

#[test]
fn priority_queue_finds_and_forgets() {
    let mut index = PriorityIndex::new();
    let kept = queue_txn(1, 0, 5, 30, 130);
    let dropped = queue_txn(1, 1, 5, 30, 130);
    index.insert(&kept);
    assert!(!index.contains(&dropped));
    index.insert(&dropped);
    assert!(index.contains(&dropped));
    index.insert(&dropped);
    assert_eq!(index.size(), 2);
    index.remove(&dropped);
    assert!(!index.contains(&dropped));
    assert!(index.contains(&kept));
    assert_eq!(index.size(), 1);
    index.remove(&dropped);
    assert_eq!(index.size(), 1);
}

#[test]
fn priority_queue_keeps_keys_that_differ_in_expiration() {
    let mut index = PriorityIndex::new();
    let late = queue_txn(1, 0, 5, 30, 999);
    let soon = queue_txn(1, 0, 5, 30, 130);
    index.insert(&late);
    index.insert(&soon);
    assert_eq!(index.size(), 2);
    assert_eq!(index.iter()[0].expiration_time.nanos, 130);
    assert_eq!(index.iter()[1].expiration_time.nanos, 999);
    index.remove(&soon);
    assert!(index.contains(&late));
    assert!(!index.contains(&soon));
}

#[test]
fn pointers_name_sender_protector_and_hash() {
    let txn = queue_txn(4, 2, 5, 30, 130);
    let pointer = TransactionSummary::from(&txn);
    assert_eq!(pointer.sender, queue_address(4));
    assert_eq!(pointer.replay_protector, ReplayProtector::SequenceNumber(2));
    assert_eq!(pointer.hash, queue_hash(4002));
    let mut index = PriorityIndex::new();
    index.insert(&txn);
    let key = index.iter()[0];
    assert_eq!(TransactionSummary::from(&key), pointer);
}

fn ttl_key_at(expires: u128, address: u128, protector: ReplayProtector) -> TTLOrderingKey {
    TTLOrderingKey {
        expiration_time: Duration { nanos: expires },
        address: queue_address(address),
        replay_protector: protector,
    }
}

#[test]
fn ttl_keys_compare_by_expiration_address_and_protector() {
    let key = ttl_key_at(10, 5, ReplayProtector::SequenceNumber(5));
    assert_eq!(key.cmp(&ttl_key_at(11, 1, ReplayProtector::Nonce(0))), Ordering::Less);
    assert_eq!(key.cmp(&ttl_key_at(10, 4, ReplayProtector::SequenceNumber(9))), Ordering::Greater);
    assert_eq!(key.cmp(&ttl_key_at(10, 5, ReplayProtector::SequenceNumber(6))), Ordering::Less);
    assert_eq!(key.cmp(&ttl_key_at(10, 5, ReplayProtector::Nonce(6))), Ordering::Greater);
    assert_eq!(key.cmp(&key), Ordering::Equal);
    assert!(key < ttl_key_at(10, 6, ReplayProtector::Nonce(0)));
}

#[test]
fn collection_takes_what_expired_more_than_a_microsecond_ago() {
    let mut index = TTLIndex::new(Box::new(|txn: &MempoolTransaction| txn.expiration_time));
    index.insert(&queue_txn(1, 0, 1, 0, 9_000));
    index.insert(&queue_txn(2, 0, 1, 0, 3_000));
    index.insert(&queue_txn(3, 0, 1, 0, 8_999));
    index.insert(&queue_txn(4, 0, 1, 0, 20_000));
    assert_eq!(index.size(), 4);
    let taken: Vec<u128> = index
        .gc(Duration { nanos: 10_000 })
        .iter()
        .map(|key| key.expiration_time.nanos)
        .collect();
    assert_eq!(taken, vec![3_000, 8_999]);
    let left: Vec<u128> = index.iter().iter().map(|key| key.expiration_time.nanos).collect();
    assert_eq!(left, vec![9_000, 20_000]);
    assert!(index.gc(Duration { nanos: 10_000 }).is_empty());
    assert!(index.gc(Duration { nanos: 500 }).is_empty());
    assert_eq!(index.size(), 2);
}

#[test]
fn collection_within_the_first_microsecond_takes_nothing() {
    let mut index = TTLIndex::new(Box::new(|txn: &MempoolTransaction| txn.expiration_time));
    index.insert(&queue_txn(0, 0, 1, 0, 0));
    assert!(index.gc(Duration { nanos: 0 }).is_empty());
    assert!(index.gc(Duration { nanos: 1_000 }).is_empty());
    assert_eq!(index.gc(Duration { nanos: 1_001 }).len(), 1);
    assert_eq!(index.size(), 0);
}

#[test]
fn ttl_index_uses_its_own_timer() {
    let mut index = TTLIndex::new(Box::new(|txn: &MempoolTransaction| Duration {
        nanos: txn.ranking_score as u128,
    }));
    let txn = queue_txn(1, 0, 77, 0, 5);
    index.insert(&txn);
    assert_eq!(index.iter()[0].expiration_time.nanos, 77);
    index.insert(&txn);
    assert_eq!(index.size(), 1);
    index.remove(&queue_txn(2, 0, 77, 0, 5));
    assert_eq!(index.size(), 1);
    index.remove(&txn);
    assert_eq!(index.size(), 0);
}
