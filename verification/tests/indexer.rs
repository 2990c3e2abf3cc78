use txn_pipeline::chunking::chunk_transactions;
use txn_pipeline::decimal::to_decimal;
use txn_pipeline::grpc_client::{after_attempt, max_elapsed_time, AfterAttempt};
use txn_pipeline::timestamp::{
    clamp_timestamp, parse_timestamp, timestamp_to_iso, Timestamp, MAX_TIMESTAMP_SECS,
};
use txn_pipeline::transaction::Duration;
use txn_pipeline::wire::Transaction;

#[test]
fn test_chunk_the_transactions_correctly_with_large_transaction() {
    let t = Transaction {
        version: 2,
        timestamp: Some(Timestamp {
            seconds: 1,
            nanos: 0,
        }),
        ..Transaction::default()
    };
    // Create a vec with 10 transactions.
    let transactions = vec![t.clone(); 10];
    assert!(t.encoded_len() > 1);
    let chunked_transactions = chunk_transactions(transactions, 1);
    assert_eq!(chunked_transactions.len(), 10);
}

#[test]
fn test_chunk_the_transactions_correctly() {
    let t = Transaction {
        version: 2,
        timestamp: Some(Timestamp {
            seconds: 1,
            nanos: 0,
        }),
        ..Transaction::default()
    };
    // Create a vec with 10 transactions.
    let transactions = vec![t.clone(); 10];
    assert!(t.encoded_len() == 6);
    let chunked_transactions = chunk_transactions(transactions, 20);
    assert_eq!(chunked_transactions.len(), 4);
    let total_count = chunked_transactions
        .iter()
        .map(|chunk| chunk.len())
        .sum::<usize>();
    assert!(total_count == 10);
}

fn txn_of_len(version: u64, len: usize) -> Transaction {
    Transaction { timestamp: None, version, other_fields: vec![0; len - 2] }
}

#[test]
fn chunks_keep_the_order_and_take_what_fits() {
    let lens = [5usize, 5, 11, 4, 6, 1_000, 3];
    let mut txns: Vec<Transaction> = Vec::new();
    for (i, len) in lens.iter().enumerate() {
        let txn = txn_of_len(1 + i as u64, *len);
        assert_eq!(txn.encoded_len(), *len);
        txns.push(txn);
    }
    let chunks = chunk_transactions(txns, 10);
    let versions: Vec<Vec<u64>> = chunks
        .iter()
        .map(|chunk| chunk.iter().map(|txn| txn.version).collect())
        .collect();
    assert_eq!(versions, vec![vec![1, 2], vec![3], vec![4, 5], vec![6], vec![7]]);
    assert!(chunk_transactions(Vec::new(), 10).is_empty());
}

#[test]
fn a_limit_of_zero_still_serves_every_transaction() {
    let chunks = chunk_transactions(vec![Transaction::default(), txn_of_len(1, 3)], 0);
    assert_eq!(chunks.len(), 2);
    let empty = chunk_transactions(vec![Transaction::default(), Transaction::default()], 0);
    assert_eq!(empty.len(), 1);
}

#[test]
fn message_lengths_are_those_of_protobuf() {
    assert_eq!(Transaction::default().encoded_len(), 0);
    assert_eq!(Timestamp { seconds: 0, nanos: 0 }.encoded_len(), 0);
    assert_eq!(Timestamp { seconds: 127, nanos: 0 }.encoded_len(), 2);
    assert_eq!(Timestamp { seconds: 128, nanos: 0 }.encoded_len(), 3);
    assert_eq!(Timestamp { seconds: -1, nanos: 0 }.encoded_len(), 11);
    assert_eq!(Timestamp { seconds: 0, nanos: -1 }.encoded_len(), 11);
    assert_eq!(Timestamp { seconds: 0, nanos: 999_999_999 }.encoded_len(), 6);
    assert_eq!(Timestamp { seconds: i64::MIN, nanos: i32::MIN }.encoded_len(), 22);
    let empty_timestamp = Transaction {
        timestamp: Some(Timestamp { seconds: 0, nanos: 0 }),
        ..Transaction::default()
    };
    assert_eq!(empty_timestamp.encoded_len(), 2);
    let largest = Transaction {
        timestamp: Some(Timestamp { seconds: i64::MIN, nanos: i32::MIN }),
        version: u64::MAX,
        other_fields: vec![1, 2, 3],
    };
    assert_eq!(largest.encoded_len(), 24 + 11 + 3);
}

#[test]
fn timestamps_are_written_in_iso_format() {
    let epoch = Timestamp { seconds: 0, nanos: 0 };
    assert_eq!(timestamp_to_iso(&epoch), "1970-01-01T00:00:00.000000000Z");
    let some_time = Timestamp { seconds: 1_700_000_000, nanos: 120_000_000 };
    assert_eq!(timestamp_to_iso(&some_time), "2023-11-14T22:13:20.120000000Z");
    let before_epoch = Timestamp { seconds: -1, nanos: 5 };
    assert_eq!(timestamp_to_iso(&before_epoch), "1969-12-31T23:59:59.000000005Z");
}

#[test]
fn late_timestamps_become_the_latest_supported() {
    let latest = Timestamp { seconds: MAX_TIMESTAMP_SECS, nanos: 0 };
    let beyond = Timestamp { seconds: i64::MAX, nanos: -5 };
    assert_eq!(clamp_timestamp(&beyond), latest);
    assert_eq!(clamp_timestamp(&Timestamp { seconds: MAX_TIMESTAMP_SECS, nanos: 9 }), latest);
    assert_eq!(timestamp_to_iso(&beyond), "9999-12-31T23:59:59.000000000Z");
    let just_before = Timestamp { seconds: MAX_TIMESTAMP_SECS - 1, nanos: 9 };
    assert_eq!(clamp_timestamp(&just_before), just_before);
    assert_eq!(timestamp_to_iso(&just_before), "9999-12-31T23:59:58.000000009Z");
    assert_eq!(parse_timestamp(&beyond, 3), parse_timestamp(&latest, 4));
    assert!(parse_timestamp(&just_before, 3) < parse_timestamp(&latest, 3));
}

#[test]
fn leap_seconds_are_dates() {
    let leap = Timestamp { seconds: 59, nanos: 1_500_000_000 };
    assert_eq!(timestamp_to_iso(&leap), "1970-01-01T00:00:60.500000000Z");
}

#[test]
fn dates_reach_as_far_back_as_they_can() {
    let first = Timestamp { seconds: -8_334_601_228_800, nanos: 0 };
    let second = Timestamp { seconds: -8_334_601_228_799, nanos: 0 };
    assert!(parse_timestamp(&first, 0) < parse_timestamp(&second, 0));
    assert!(timestamp_to_iso(&first).starts_with("-262143-01-01T00:00:00"));
}

#[test]
fn iso_texts_rise_with_timestamps() {
    let times = [
        (-62_135_596_800, 0),
        (-1, 999_999_999),
        (0, 0),
        (0, 1),
        (86_399, 0),
        (86_400, 0),
        (951_782_400, 0),
        (951_868_800, 0),
        (MAX_TIMESTAMP_SECS - 1, 999_999_999),
        (MAX_TIMESTAMP_SECS, 0),
        (MAX_TIMESTAMP_SECS, 7),
        (i64::MAX, 0),
    ];
    let texts: Vec<String> = times
        .iter()
        .map(|(seconds, nanos)| timestamp_to_iso(&Timestamp { seconds: *seconds, nanos: *nanos }))
        .collect();
    for text in &texts {
        assert_eq!(text.len(), 30);
    }
    for i in 1..texts.len() {
        assert!(texts[i - 1] <= texts[i]);
    }
    assert_eq!(texts[0], "0001-01-01T00:00:00.000000000Z");
    assert_eq!(texts[6], "2000-02-29T00:00:00.000000000Z");
    assert_eq!(texts[7], "2000-03-01T00:00:00.000000000Z");
}

#[test]
fn years_before_the_common_era_are_signed() {
    let year_zero = Timestamp { seconds: -62_167_219_200, nanos: 0 };
    assert_eq!(timestamp_to_iso(&year_zero), "0000-01-01T00:00:00.000000000Z");
    let before = Timestamp { seconds: -62_167_219_201, nanos: 0 };
    assert_eq!(timestamp_to_iso(&before), "-0001-12-31T23:59:59.000000000Z");
    let first = Timestamp { seconds: -8_334_601_228_800, nanos: 0 };
    assert_eq!(timestamp_to_iso(&first), "-262143-01-01T00:00:00.000000000Z");
}

#[test]
fn decimals_read_back() {
    assert_eq!(to_decimal(0), "0");
    assert_eq!(to_decimal(10), "10");
    assert_eq!(to_decimal(u64::MAX), "18446744073709551615");
}

#[test]
fn every_failed_attempt_is_tried_again() {
    assert!(matches!(after_attempt::<u8, &str>(Ok(3)), AfterAttempt::Connected(3)));
    assert!(matches!(after_attempt::<u8, &str>(Err("no")), AfterAttempt::TryAgain("no")));
}

#[test]
fn a_requested_time_limit_replaces_the_default() {
    let default_limit = Some(Duration { nanos: 900_000_000_000 });
    let requested = Some(Duration { nanos: 5 });
    assert_eq!(max_elapsed_time(default_limit, requested), requested);
    assert_eq!(max_elapsed_time(default_limit, None), default_limit);
    assert_eq!(max_elapsed_time(None, requested), requested);
    assert_eq!(max_elapsed_time(None, None), None);
}
