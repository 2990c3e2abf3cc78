use txn_pipeline::chunk_to_commit::ChunkToCommit;
use txn_pipeline::state_update::{StateKey, StateUpdates, StateValue, TransactionOutput};

fn commit_key(bytes: &[u8]) -> StateKey {
    StateKey { bytes: bytes.to_vec() }
}

fn commit_write(key: &[u8], value: &[u8]) -> (StateKey, Option<StateValue>) {
    (commit_key(key), Some(StateValue { bytes: value.to_vec() }))
}

fn commit_output(updates: Vec<(StateKey, Option<StateValue>)>) -> TransactionOutput {
    TransactionOutput { state_updates: updates }
}

fn written(updates: &StateUpdates, key: &[u8]) -> Option<Option<Vec<u8>>> {
    updates
        .get(&commit_key(key))
        .map(|value| value.as_ref().map(|v| v.bytes.clone()))
}

fn chunk_of<'a>(
    first_version: u64,
    checkpoint: Option<usize>,
    transactions: &'a [u8],
    outputs: &'a [TransactionOutput],
) -> ChunkToCommit<'a, u8, u8, u8, u8> {
    ChunkToCommit {
        first_version,
        last_state_checkpoint_index: checkpoint,
        transactions,
        transaction_outputs: outputs,
        transaction_infos: &[],
        base_state_version: None,
        latest_in_memory_state: &0,
        sharded_state_cache: None,
        is_reconfig: false,
    }
}

#[test]
fn versions_follow_the_first() {
    let chunk = chunk_of(7, None, &[1, 2, 3], &[]);
    assert_eq!(chunk.len(), 3);
    assert!(!chunk.is_empty());
    assert_eq!(chunk.next_version(), 10);
    assert_eq!(chunk.expect_last_version(), 9);
    let empty = chunk_of(7, None, &[], &[]);
    assert_eq!(empty.len(), 0);
    assert!(empty.is_empty());
    assert_eq!(empty.next_version(), 7);
    assert_eq!(empty.expect_last_version(), 6);
    let copy = chunk.clone();
    assert_eq!(copy.next_version(), 10);
}

#[test]
fn updates_end_with_the_last_checkpoint() {
    let outputs = vec![
        commit_output(vec![commit_write(b"a", b"1"), commit_write(b"b", b"1")]),
        commit_output(vec![(commit_key(b"b"), None), commit_write(b"a", b"2"), commit_write(b"a", b"3")]),
        commit_output(vec![commit_write(b"a", b"4"), commit_write(b"c", b"1")]),
    ];
    let chunk = chunk_of(0, Some(1), &[1, 2, 3], &outputs);
    match chunk.collect_updates_until_last_state_checkpoint() {
        Some(updates) => {
            assert_eq!(updates.len(), 2);
            assert_eq!(written(&updates, b"a"), Some(Some(b"3".to_vec())));
            assert_eq!(written(&updates, b"b"), Some(None));
            assert_eq!(written(&updates, b"c"), None);
        },
        None => panic!("no updates"),
    }
    let first_only = chunk_of(0, Some(0), &[1, 2, 3], &outputs);
    match first_only.collect_updates_until_last_state_checkpoint() {
        Some(updates) => {
            assert_eq!(written(&updates, b"a"), Some(Some(b"1".to_vec())));
            assert_eq!(written(&updates, b"b"), Some(Some(b"1".to_vec())));
        },
        None => panic!("no updates"),
    }
    let none = chunk_of(0, None, &[1, 2, 3], &outputs);
    assert!(none.collect_updates_until_last_state_checkpoint().is_none());
}

#[test]
fn entries_are_listed_by_key() {
    let mut updates = StateUpdates::new();
    updates.record_all(&commit_output(vec![
        commit_write(b"b", b"1"),
        commit_write(b"", b"2"),
        commit_write(b"ab", b"3"),
        commit_write(b"a", b"4"),
    ]));
    updates.record(&commit_key(b"b"), &None);
    let keys: Vec<Vec<u8>> = updates.to_entries().iter().map(|entry| entry.0.bytes.clone()).collect();
    assert_eq!(keys, vec![b"".to_vec(), b"a".to_vec(), b"ab".to_vec(), b"b".to_vec()]);
    assert_eq!(written(&updates, b"b"), Some(None));
    assert_eq!(written(&updates, b"ab"), Some(Some(b"3".to_vec())));
}
