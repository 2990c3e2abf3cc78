use txn_pipeline::bencher::{Bencher, BencherState};
use txn_pipeline::sharded_executor::{
    wrap_result, AnalyzedTransaction, BlockStep, ExecutionLimits, ExecutorShardCommand,
    PartitionV3, ShardAction, ShardEvent, ShardState, ShardedExecutorService, StopTarget, SubBlock,
    SubBlocksForShard, TransactionWithDependencies,
};

type Txn = TransactionWithDependencies<AnalyzedTransaction<u32, ()>, ()>;
type State = ShardState<&'static str, Txn, u32>;
type Event =
    ShardEvent<&'static str, Txn, AnalyzedTransaction<u32, ()>, u8, &'static str, u32, String>;
type Action = ShardAction<&'static str, Txn, u32, u8, &'static str, u32, String>;

fn shard_txn(n: u32) -> Txn {
    TransactionWithDependencies {
        txn: AnalyzedTransaction { transaction: n, hints: () },
        cross_shard_dependencies: (),
    }
}

fn shard_sub_block(start_index: usize, txns: Vec<u32>) -> SubBlock<Txn> {
    SubBlock { start_index, transactions: txns.into_iter().map(shard_txn).collect() }
}

fn shard_block(lists: Vec<Vec<u32>>) -> SubBlocksForShard<Txn> {
    SubBlocksForShard {
        shard_id: 3,
        sub_blocks: lists
            .into_iter()
            .enumerate()
            .map(|(i, txns)| shard_sub_block(i, txns))
            .collect(),
    }
}

fn shard_limits() -> ExecutionLimits {
    ExecutionLimits { concurrency_level: 8, maybe_block_gas_limit: Some(1_000) }
}

fn shard_command(lists: Vec<Vec<u32>>) -> Event {
    ShardEvent::Received(ExecutorShardCommand::ExecuteSubBlocks {
        state_view: "state",
        transactions: shard_block(lists),
        concurrency_level_per_shard: 8,
        maybe_block_gas_limit: Some(1_000),
    })
}

#[test]
fn threads_are_named_after_the_shard() {
    let service = ShardedExecutorService::new(12, 16, 4);
    assert_eq!(service.shard_id, 12);
    assert_eq!(service.num_shards, 16);
    assert_eq!(service.pool_threads, 6);
    assert_eq!(service.thread_name(0), "sharded-executor-shard-12-0");
    assert_eq!(service.thread_name(105), "sharded-executor-shard-12-105");
}

#[test]
fn an_execution_verifies_executes_stops_and_reports() {
    let txns = vec![shard_txn(5), shard_txn(6)];
    let (task, to_verify) = ShardedExecutorService::execute_transactions_with_dependencies(
        Some(3),
        txns,
        Some("sender"),
        2,
        shard_limits(),
    );
    assert_eq!(to_verify, vec![5, 6]);
    let (task, execution) = task.on_verified("verified");
    assert_eq!(execution.txns, "verified");
    assert_eq!(execution.limits, shard_limits());
    assert_eq!(execution.cross_shard_commit_sender, Some("sender"));
    let (task, target) = task.on_executed(Err::<u32, &str>("failed"));
    assert_eq!(target, StopTarget::Shard { shard_id: 3, round: 2 });
    assert_eq!(task.on_stop_sent(), Err("failed"));
}

#[test]
fn the_global_shard_is_stopped_globally() {
    let (task, to_verify) =
        ShardedExecutorService::execute_transactions_with_dependencies::<u32, (), (), u8>(
            None,
            Vec::new(),
            None,
            9,
            shard_limits(),
        );
    assert!(to_verify.is_empty());
    let (task, execution) = task.on_verified(0u8);
    assert!(execution.cross_shard_commit_sender.is_none());
    let (task, target) = task.on_executed(Ok::<u32, &str>(1));
    assert_eq!(target, StopTarget::Global);
    assert_eq!(task.on_stop_sent(), Ok(1));
}

#[test]
fn a_sub_block_runs_on_its_own_shard() {
    let service = ShardedExecutorService::new(3, 4, 1);
    let (task, to_verify) =
        service.execute_sub_block(shard_sub_block(7, vec![1, 2]), "sender", 5, shard_limits());
    assert_eq!(to_verify, vec![1, 2]);
    let (task, execution) = task.on_verified(());
    assert_eq!(execution.cross_shard_commit_sender, Some("sender"));
    let (_, target) = task.on_executed(());
    assert_eq!(target, StopTarget::Shard { shard_id: 3, round: 5 });
}

#[test]
fn rounds_are_executed_in_order() {
    let service = ShardedExecutorService::new(3, 4, 1);
    let mut step: BlockStep<Txn, u32, String> =
        service.execute_block(shard_block(vec![vec![1], vec![2, 3], vec![]]));
    let mut rounds: Vec<(usize, usize, usize)> = Vec::new();
    let outputs = loop {
        match step {
            BlockStep::Execute { run, sub_block, round } => {
                rounds.push((round, sub_block.start_index, sub_block.transactions.len()));
                let output = sub_block.transactions.iter().map(|t| 10 * t.txn.transaction).collect();
                step = run.on_executed(Ok(output));
            },
            BlockStep::Finished(result) => break result,
        }
    };
    assert_eq!(rounds, vec![(0, 0, 1), (1, 1, 2), (2, 2, 0)]);
    assert_eq!(outputs, Ok(vec![vec![10], vec![20, 30], vec![]]));
}

#[test]
fn the_first_failure_ends_the_block() {
    let service = ShardedExecutorService::new(3, 4, 1);
    let mut step: BlockStep<Txn, u32, String> =
        service.execute_block(shard_block(vec![vec![1], vec![2], vec![3]]));
    let mut executed = 0;
    let outcome = loop {
        match step {
            BlockStep::Execute { run, sub_block, round } => {
                executed = executed + 1;
                step = if round == 1 {
                    run.on_executed(Err(format!("round {}", round)))
                } else {
                    run.on_executed(Ok(vec![sub_block.transactions[0].txn.transaction]))
                };
            },
            BlockStep::Finished(result) => break result,
        }
    };
    assert_eq!(executed, 2);
    assert_eq!(outcome, Err("round 1".to_string()));
}

#[test]
fn a_shard_answers_each_command_until_it_is_stopped() {
    let service = ShardedExecutorService::new(3, 4, 1);
    let mut commands: Vec<Event> = vec![
        ShardEvent::Received(ExecutorShardCommand::Stop),
        shard_command(vec![]),
        shard_command(vec![vec![1], vec![2]]),
    ];
    let (mut state, mut action): (State, Action) = service.start();
    let mut sent: Vec<Result<Vec<Vec<u32>>, String>> = Vec::new();
    loop {
        let event: Event = match action {
            ShardAction::Receive => commands.pop().expect("a command"),
            ShardAction::ExecuteSubBlock { sub_block, round, limits } => {
                assert_eq!(state.state_view(), Some(&"state"));
                assert_eq!(limits, shard_limits());
                assert_eq!(sub_block.start_index, round);
                ShardEvent::SubBlockExecuted(Ok(vec![sub_block.transactions[0].txn.transaction]))
            },
            ShardAction::ExecutePartition { .. } => panic!("no partition was sent"),
            ShardAction::SendResult(result) => {
                assert!(state.state_view().is_none());
                sent.push(result);
                ShardEvent::ResultSent
            },
            ShardAction::Shutdown => break,
        };
        let (next_state, next_action) = service.on_event(state, event);
        state = next_state;
        action = next_action;
    }
    assert!(matches!(state, ShardState::Stopped));
    assert!(commands.is_empty());
    assert_eq!(sent, vec![Ok(vec![vec![1], vec![2]]), Ok(vec![])]);
}

#[test]
fn a_failed_round_is_answered_with_its_error() {
    let service = ShardedExecutorService::new(3, 4, 1);
    let (state, _): (State, Action) = service.start();
    let (state, action) = service.on_event(state, shard_command(vec![vec![1], vec![2]]));
    assert!(matches!(action, ShardAction::ExecuteSubBlock { round: 0, .. }));
    let failure: Event = ShardEvent::SubBlockExecuted(Err("bad".to_string()));
    let (state, action): (State, Action) = service.on_event(state, failure);
    assert!(matches!(state, ShardState::Sending));
    assert!(matches!(action, ShardAction::SendResult(Err(error)) if error == "bad"));
}

#[test]
fn a_partition_is_answered_as_one_round() {
    let service = ShardedExecutorService::new(3, 4, 1);
    let (state, _): (State, Action) = service.start();
    let command: Event = ShardEvent::Received(ExecutorShardCommand::ExecuteV3Partition {
        state_view: "state",
        partition: PartitionV3 {
            block_id: 9,
            txns: vec![
                AnalyzedTransaction { transaction: 1, hints: () },
                AnalyzedTransaction { transaction: 2, hints: () },
            ],
            indexes: "indexes",
        },
        concurrency_level_per_shard: 2,
        maybe_block_gas_limit: None,
    });
    let (state, action) = service.on_event(state, command);
    match action {
        ShardAction::ExecutePartition { state_view, job, limits } => {
            assert_eq!(state_view, "state");
            assert_eq!(job.block_id, 9);
            assert_eq!(job.num_shards, 4);
            assert_eq!(job.shard_id, 3);
            assert_eq!(job.txns, vec![1, 2]);
            assert_eq!(job.indexes, "indexes");
            assert_eq!(limits.concurrency_level, 2);
            assert_eq!(limits.maybe_block_gas_limit, None);
        },
        _ => panic!("not a partition"),
    }
    let executed: Event = ShardEvent::PartitionExecuted(Ok(vec![7, 8]));
    let (state, action): (State, Action) = service.on_event(state, executed);
    assert!(matches!(state, ShardState::Sending));
    assert!(matches!(action, ShardAction::SendResult(Ok(rounds)) if rounds == vec![vec![7, 8]]));
    assert_eq!(wrap_result(Err::<Vec<u8>, &str>("bad")), Err("bad"));
    assert_eq!(wrap_result(Ok::<Vec<u8>, &str>(vec![])), Ok(vec![vec![]]));
}

#[test]
fn a_bencher_takes_the_default_parameters() {
    let bencher: Bencher<u8, u16, u32, Vec<u64>> = Bencher::new(100, 20);
    assert_eq!(bencher.transaction_size, 100);
    assert_eq!(bencher.universe_size, 20);
    assert!(bencher.transaction_gen_param.is_empty());
}

#[test]
fn a_run_is_assembled_in_order() {
    let state = BencherState::assemble(
        vec![3u32, 1, 2],
        |gen: u32| 10 * gen,
        |transactions: &Vec<u32>| transactions.iter().sum::<u32>(),
    );
    assert_eq!(state.transactions, vec![30, 10, 20]);
    assert_eq!(state.baseline_output, 60);
}
