use txn_pipeline::parking_lot::ParkingLotIndex;
use txn_pipeline::transaction::{
    AccountAddress, Duration, HashValue, InsertionInfo, MempoolTransaction, ReplayProtector,
    SequenceInfo, SignedTransaction, SystemTime, TimelineState,
};

fn parked_address(n: u128) -> AccountAddress {
    AccountAddress { high: 0, low: n }
}

fn parked_txn(sender: u128, number: u64, hash: u128) -> MempoolTransaction {
    MempoolTransaction {
        txn: SignedTransaction {
            sender: parked_address(sender),
            sequence_number: number,
            committed_hash: HashValue { high: 0, low: hash },
        },
        expiration_time: Duration { nanos: 0 },
        ranking_score: 0,
        timeline_state: TimelineState::NotReady,
        sequence_info: SequenceInfo {
            transaction_replay_protector: ReplayProtector::SequenceNumber(number),
        },
        insertion_info: InsertionInfo {
            insertion_time: SystemTime { nanos: 0 },
            park_time: None,
        },
        was_parked: false,
    }
}

fn is_in(index: &ParkingLotIndex, txn: &MempoolTransaction) -> bool {
    index.contains(
        &txn.txn.sender,
        txn.sequence_info.transaction_replay_protector,
        txn.txn.committed_hash,
    )
}

#[test]
fn parking_marks_the_transaction_once() {
    let mut index = ParkingLotIndex::new();
    let mut txn = parked_txn(1, 4, 40);
    index.insert_at(&mut txn, SystemTime { nanos: 11 });
    assert!(txn.was_parked);
    assert_eq!(txn.insertion_info.park_time, Some(SystemTime { nanos: 11 }));
    index.insert_at(&mut txn, SystemTime { nanos: 12 });
    assert_eq!(txn.insertion_info.park_time, Some(SystemTime { nanos: 11 }));
    assert!(is_in(&index, &txn));
    assert_eq!(index.size(), 1);
}

#[test]
fn parking_by_the_wall_clock() {
    let mut index = ParkingLotIndex::new();
    let mut txn = parked_txn(1, 4, 40);
    index.insert(&mut txn);
    assert!(txn.was_parked);
    match txn.insertion_info.park_time {
        Some(time) => assert!(time.nanos > 1_577_836_800_000_000_000),
        None => panic!("not parked"),
    }
}

#[test]
fn orderless_transactions_are_not_parked() {
    let mut index = ParkingLotIndex::new();
    let mut txn = parked_txn(1, 4, 40);
    txn.sequence_info.transaction_replay_protector = ReplayProtector::Nonce(4);
    let before = txn;
    index.insert(&mut txn);
    assert_eq!(txn, before);
    assert_eq!(index.size(), 0);
    assert!(!is_in(&index, &txn));
    let mut ordered = parked_txn(1, 4, 40);
    index.insert(&mut ordered);
    assert!(!is_in(&index, &txn));
    index.remove(&txn);
    assert!(is_in(&index, &ordered));
}

#[test]
fn accounts_leave_with_their_last_transaction() {
    let mut index = ParkingLotIndex::new();
    let mut first = parked_txn(1, 4, 40);
    let mut second = parked_txn(1, 5, 50);
    let mut other = parked_txn(2, 4, 40);
    index.insert(&mut first);
    index.insert(&mut second);
    index.insert(&mut other);
    assert_eq!(index.size(), 2);
    let mut addresses = index.get_addresses();
    addresses.sort_by_key(|entry| entry.0.low);
    assert_eq!(addresses, vec![(parked_address(1), 2), (parked_address(2), 1)]);
    index.remove(&first);
    assert!(!is_in(&index, &first));
    assert!(is_in(&index, &second));
    index.remove(&first);
    assert_eq!(index.size(), 2);
    index.remove(&second);
    assert_eq!(index.size(), 1);
    assert_eq!(index.get_addresses(), vec![(parked_address(2), 1)]);
    index.remove(&second);
    assert_eq!(index.size(), 1);
}

#[test]
fn popping_takes_the_highest_sequence_number() {
    let mut index = ParkingLotIndex::new();
    assert!(index.get_poppable().is_none());
    for (number, hash) in [(4u64, 90u128), (7, 10), (7, 20), (5, 99)] {
        index.insert(&mut parked_txn(1, number, hash));
    }
    for _ in 0..20 {
        match index.get_poppable() {
            Some(pointer) => {
                assert_eq!(pointer.sender, parked_address(1));
                assert_eq!(pointer.replay_protector, ReplayProtector::SequenceNumber(7));
                assert_eq!(pointer.hash, HashValue { high: 0, low: 20 });
            },
            None => panic!("nothing to pop"),
        }
    }
    assert!(index.poppable_of(&parked_address(2)).is_none());
    assert!(index.poppable_of(&parked_address(1)).is_some());
}

#[test]
fn popping_picks_accounts_at_random() {
    let mut index = ParkingLotIndex::new();
    for sender in 0..4 {
        index.insert(&mut parked_txn(sender, 1, sender));
    }
    let mut seen = vec![false; 4];
    for _ in 0..2000 {
        match index.get_poppable() {
            Some(pointer) => seen[pointer.sender.low as usize] = true,
            None => panic!("nothing to pop"),
        }
    }
    assert_eq!(seen, vec![true; 4]);
}
