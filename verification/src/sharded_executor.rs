//! The decisions of a shard that executes blocks on behalf of a coordinator. The virtual machine,
//! the threads and the messages between shards are the caller's: each function here takes what has
//! happened and says what is to be done next.

use crate::decimal::{decimal, to_decimal};
use vstd::prelude::*;
use vstd::string::*;

verus! {

/// The number of a shard.
pub type ShardId = usize;

/// A transaction with what was found out about it in advance.
pub struct AnalyzedTransaction<X, H> {
    pub transaction: X,
    pub hints: H,
}

/// A transaction with the shards and transactions that it depends on.
pub struct TransactionWithDependencies<T, D> {
    pub txn: T,
    pub cross_shard_dependencies: D,
}

/// A part of a block that is executed in one round.
pub struct SubBlock<T> {
    pub start_index: usize,
    pub transactions: Vec<T>,
}

/// The parts of a block that one shard executes, in the order of the rounds.
pub struct SubBlocksForShard<T> {
    pub shard_id: ShardId,
    pub sub_blocks: Vec<SubBlock<T>>,
}

/// How much a block may use.
#[derive(Clone, Copy, Debug, PartialEq, Eq, Structural)]
pub struct ExecutionLimits {
    pub concurrency_level: usize,
    pub maybe_block_gas_limit: Option<u64>,
}

/// The bare transactions.
pub open spec fn bare_transactions<X, H, D>(
    txns: Seq<TransactionWithDependencies<AnalyzedTransaction<X, H>, D>>,
) -> Seq<X> {
    txns.map_values(
        |t: TransactionWithDependencies<AnalyzedTransaction<X, H>, D>| t.txn.transaction,
    )
}

/// The bare transactions of analyzed ones.
pub open spec fn bare_analyzed<X, H>(txns: Seq<AnalyzedTransaction<X, H>>) -> Seq<X> {
    txns.map_values(|t: AnalyzedTransaction<X, H>| t.transaction)
}

/// Strips transactions of their dependencies and their analysis.
fn strip_dependencies<X, H, D>(
    transactions: Vec<TransactionWithDependencies<AnalyzedTransaction<X, H>, D>>,
) -> (txns: Vec<X>)
    ensures
        txns@ == bare_transactions(transactions@),
{
    let ghost all = transactions@;
    let mut txns: Vec<X> = Vec::new();
    for txn in iter: transactions
        invariant
            iter.seq() == all,
            txns@ == bare_transactions(all.take(iter.index())),
            iter.index() == iter.seq().len() ==> all.take(iter.index()) == all,
    {
        let ghost taken = txn;
        assert(all.take(iter.index() + 1) =~= all.take(iter.index()).push(taken));
        txns.push(txn.txn.transaction);
        assert(txns@ =~= bare_transactions(all.take(iter.index() + 1)));
    }
    txns
}

/// Strips transactions of their analysis.
fn strip_analysis<X, H>(transactions: Vec<AnalyzedTransaction<X, H>>) -> (txns: Vec<X>)
    ensures
        txns@ == bare_analyzed(transactions@),
{
    let ghost all = transactions@;
    let mut txns: Vec<X> = Vec::new();
    for txn in iter: transactions
        invariant
            iter.seq() == all,
            txns@ == bare_analyzed(all.take(iter.index())),
            iter.index() == iter.seq().len() ==> all.take(iter.index()) == all,
    {
        let ghost taken = txn;
        assert(all.take(iter.index() + 1) =~= all.take(iter.index()).push(taken));
        txns.push(txn.transaction);
        assert(txns@ =~= bare_analyzed(all.take(iter.index() + 1)));
    }
    txns
}

/// Where the message goes that stops the receiver of commits from other shards.
#[derive(Clone, Copy, Debug, PartialEq, Eq, Structural)]
pub enum StopTarget {
    /// The shard itself, for a round.
    Shard { shard_id: ShardId, round: usize },
    /// The global shard.
    Global,
}

/// The receiver that a task has to stop: its own shard's, or the global one if it runs on no shard.
pub open spec fn stop_target(shard_id: Option<ShardId>, round: usize) -> StopTarget {
    match shard_id {
        Some(shard_id) => StopTarget::Shard { shard_id, round },
        None => StopTarget::Global,
    }
}

/// What the virtual machine is asked to execute. `P` are the verified transactions, and `C` is what
/// tells other shards of commits.
pub struct BlockExecution<P, C> {
    pub txns: P,
    pub limits: ExecutionLimits,
    pub cross_shard_commit_sender: Option<C>,
}

/// The execution of some transactions, while they are being verified.
pub struct VerifyingTask<C> {
    pub shard_id: Option<ShardId>,
    pub round: usize,
    pub limits: ExecutionLimits,
    pub cross_shard_commit_sender: Option<C>,
}

/// The execution of some transactions, while the virtual machine is at work.
pub struct ExecutingTask {
    pub shard_id: Option<ShardId>,
    pub round: usize,
}

/// The execution of some transactions, while the receiver of commits is being stopped. `R` is what
/// the virtual machine returned.
pub struct StoppingTask<R> {
    pub result: R,
}

impl<C> VerifyingTask<C> {
    /// Once the transactions have been verified, they are executed within the limits.
    pub fn on_verified<P>(self, pre_processed_txns: P) -> (next: (
        ExecutingTask,
        BlockExecution<P, C>,
    ))
        ensures
            next.0.shard_id == self.shard_id,
            next.0.round == self.round,
            next.1.txns == pre_processed_txns,
            next.1.limits == self.limits,
            next.1.cross_shard_commit_sender == self.cross_shard_commit_sender,
    {
        (
            ExecutingTask { shard_id: self.shard_id, round: self.round },
            BlockExecution {
                txns: pre_processed_txns,
                limits: self.limits,
                cross_shard_commit_sender: self.cross_shard_commit_sender,
            },
        )
    }
}

impl ExecutingTask {
    /// Once the transactions have been executed, whatever came of it, the receiver of commits is
    /// stopped.
    pub fn on_executed<R>(self, result: R) -> (next: (StoppingTask<R>, StopTarget))
        ensures
            next.0.result == result,
            next.1 == stop_target(self.shard_id, self.round),
            match self.shard_id {
                Some(shard_id) => next.1 == (StopTarget::Shard { shard_id, round: self.round }),
                None => next.1 is Global,
            },
    {
        let target = match self.shard_id {
            Some(shard_id) => StopTarget::Shard { shard_id, round: self.round },
            None => StopTarget::Global,
        };
        (StoppingTask { result }, target)
    }
}

impl<R> StoppingTask<R> {
    /// Once the receiver has been told to stop, the result is handed back.
    pub fn on_stop_sent(self) -> (result: R)
        ensures
            result == self.result,
    {
        self.result
    }
}

/// A block of which a sub-block is being executed.
pub struct BlockRun<T, O> {
    /// The sub-blocks of later rounds, the next round last.
    pending: Vec<SubBlock<T>>,
    outputs: Vec<Vec<O>>,
}

/// What is to be done about a block next.
pub enum BlockStep<T, O, E> {
    /// To execute a sub-block, and to report what came of it.
    Execute { run: BlockRun<T, O>, sub_block: SubBlock<T>, round: usize },
    /// Nothing more: this came of the block.
    Finished(Result<Vec<Vec<O>>, E>),
}

impl<T, O> BlockRun<T, O> {
    /// The sub-blocks of later rounds, in their order.
    pub closed spec fn left(&self) -> Seq<SubBlock<T>> {
        self.pending@.reverse()
    }

    /// The outputs of the rounds that are over.
    pub closed spec fn outputs(&self) -> Seq<Vec<O>> {
        self.outputs@
    }

    /// Goes on to the next sub-block, or ends the block if there is none.
    fn advance<E>(self) -> (step: BlockStep<T, O, E>)
        ensures
            is_next_step(self.left(), self.outputs(), step),
    {
        let mut run = self;
        let ghost left = run.left();
        match run.pending.pop() {
            Some(sub_block) => {
                let round: usize = run.outputs.len();
                proof {
                    assert(left[0] == sub_block);
                    assert(run.left() =~= left.drop_first());
                }
                BlockStep::Execute { run, sub_block, round }
            },
            None => BlockStep::Finished(Ok(run.outputs)),
        }
    }

    /// Takes note of what came of the sub-block that was executed. A failure ends the block.
    pub fn on_executed<E>(self, result: Result<Vec<O>, E>) -> (step: BlockStep<T, O, E>)
        ensures
            match result {
                Ok(output) => is_next_step(self.left(), self.outputs().push(output), step),
                Err(error) => step == BlockStep::<T, O, E>::Finished(Err(error)),
            },
    {
        match result {
            Ok(output) => {
                let mut run = self;
                run.outputs.push(output);
                run.advance()
            },
            Err(error) => BlockStep::Finished(Err(error)),
        }
    }
}

/// Whether `step` is what follows when some sub-blocks are left and some outputs are there: the
/// first sub-block is executed in the round that is numbered by the outputs, and if none is left
/// the outputs are the result.
pub open spec fn is_next_step<T, O, E>(
    left: Seq<SubBlock<T>>,
    outputs: Seq<Vec<O>>,
    step: BlockStep<T, O, E>,
) -> bool {
    match step {
        BlockStep::Execute { run, sub_block, round } => {
            &&& left.len() > 0
            &&& sub_block == left[0]
            &&& round == outputs.len()
            &&& run.left() == left.drop_first()
            &&& run.outputs() == outputs
        },
        BlockStep::Finished(Ok(all)) => left.len() == 0 && all@ == outputs,
        BlockStep::Finished(Err(_)) => false,
    }
}

/// What comes of a block of which `left` sub-blocks are still to be executed, when `results` come of
/// them: the outputs of all rounds, or the first failure.
pub open spec fn block_outcome<O, E>(
    outputs: Seq<Vec<O>>,
    left: nat,
    results: Seq<Result<Vec<O>, E>>,
) -> Result<Seq<Vec<O>>, E>
    decreases left,
{
    if left == 0 {
        Ok(outputs)
    } else {
        match results[0] {
            Ok(output) => block_outcome(
                outputs.push(output),
                (left - 1) as nat,
                results.drop_first(),
            ),
            Err(error) => Err(error),
        }
    }
}

/// What comes of a block at a step, when `results` come of the sub-blocks that it still executes.
pub open spec fn step_outcome<T, O, E>(
    step: BlockStep<T, O, E>,
    results: Seq<Result<Vec<O>, E>>,
) -> Result<Seq<Vec<O>>, E> {
    match step {
        BlockStep::Execute { run, sub_block, round } => block_outcome(
            run.outputs(),
            run.left().len() + 1,
            results,
        ),
        BlockStep::Finished(Ok(all)) => Ok(all@),
        BlockStep::Finished(Err(error)) => Err(error),
    }
}

/// Each step keeps what comes of the block.
pub proof fn law_steps_keep_the_outcome<T, O, E>(
    left: Seq<SubBlock<T>>,
    outputs: Seq<Vec<O>>,
    step: BlockStep<T, O, E>,
    results: Seq<Result<Vec<O>, E>>,
)
    requires
        is_next_step(left, outputs, step),
    ensures
        step_outcome(step, results) == block_outcome(outputs, left.len(), results),
{
}

/// If every round succeeds, the block gives the outputs of all rounds, in their order.
pub proof fn law_success_keeps_all_outputs<O, E>(
    outputs: Seq<Vec<O>>,
    rounds: Seq<Vec<O>>,
    results: Seq<Result<Vec<O>, E>>,
)
    requires
        results.len() == rounds.len(),
        forall|i: int| 0 <= i < rounds.len() ==> #[trigger] results[i] == Ok::<Vec<O>, E>(rounds[i]),
    ensures
        block_outcome(outputs, rounds.len(), results) == Ok::<Seq<Vec<O>>, E>(outputs + rounds),
    decreases rounds.len(),
{
    if rounds.len() == 0 {
        assert(outputs + rounds =~= outputs);
    } else {
        assert(results[0] == Ok::<Vec<O>, E>(rounds[0]));
        let rest = results.drop_first();
        assert forall|i: int| 0 <= i < rounds.len() - 1 implies #[trigger] rest[i] == Ok::<
            Vec<O>,
            E,
        >(rounds.drop_first()[i]) by {
            assert(rest[i] == results[i + 1]);
        }
        law_success_keeps_all_outputs(outputs.push(rounds[0]), rounds.drop_first(), rest);
        assert(outputs.push(rounds[0]) + rounds.drop_first() =~= outputs + rounds);
    }
}

/// If a round fails, the block fails with the error of the first that does.
pub proof fn law_first_failure_ends_the_block<O, E>(
    outputs: Seq<Vec<O>>,
    left: nat,
    results: Seq<Result<Vec<O>, E>>,
    at: int,
    error: E,
)
    requires
        0 <= at < left,
        at < results.len(),
        results[at] == Err::<Vec<O>, E>(error),
        forall|i: int| 0 <= i < at ==> (#[trigger] results[i]) is Ok,
    ensures
        block_outcome(outputs, left, results) == Err::<Seq<Vec<O>>, E>(error),
    decreases at,
{
    if at > 0 {
        assert(results[0] is Ok);
        let rest = results.drop_first();
        assert(rest[at - 1] == results[at]);
        assert forall|i: int| 0 <= i < at - 1 implies (#[trigger] rest[i]) is Ok by {
            assert(rest[i] == results[i + 1]);
        }
        law_first_failure_ends_the_block(
            outputs.push(results[0]->Ok_0),
            (left - 1) as nat,
            rest,
            at - 1,
            error,
        );
    }
}

/// A part of a block that was cut out for a shard with all that its provider of transactions needs.
/// `I` are the indexes and dependencies, which are only carried along.
pub struct PartitionV3<T, B, I> {
    pub block_id: B,
    pub txns: Vec<T>,
    pub indexes: I,
}

/// What the coordinator asks of a shard. `S` is the state that it executes on.
pub enum ExecutorShardCommand<S, T, A, B, I> {
    ExecuteSubBlocks {
        state_view: S,
        transactions: SubBlocksForShard<T>,
        concurrency_level_per_shard: usize,
        maybe_block_gas_limit: Option<u64>,
    },
    ExecuteV3Partition {
        state_view: S,
        partition: PartitionV3<A, B, I>,
        concurrency_level_per_shard: usize,
        maybe_block_gas_limit: Option<u64>,
    },
    Stop,
}

/// The provider of the transactions of a partition, as it has to be set up.
pub struct PartitionJob<X, B, I> {
    pub block_id: B,
    pub num_shards: usize,
    pub shard_id: ShardId,
    /// The transactions, which are to be preprocessed in this order.
    pub txns: Vec<X>,
    pub indexes: I,
}

/// What a shard is at.
pub enum ShardState<S, T, O> {
    /// Waiting for a command.
    Receiving,
    /// Executing a sub-block of a block.
    ExecutingBlock { state_view: S, run: BlockRun<T, O>, limits: ExecutionLimits },
    /// Executing a partition.
    ExecutingPartition,
    /// Sending a result.
    Sending,
    /// Shut down.
    Stopped,
}

/// What has happened to a shard.
pub enum ShardEvent<S, T, A, B, I, O, E> {
    Received(ExecutorShardCommand<S, T, A, B, I>),
    SubBlockExecuted(Result<Vec<O>, E>),
    PartitionExecuted(Result<Vec<O>, E>),
    ResultSent,
}

/// What a shard has to do.
pub enum ShardAction<S, T, X, B, I, O, E> {
    /// To wait for a command.
    Receive,
    /// To execute a sub-block on the state that the shard holds.
    ExecuteSubBlock { sub_block: SubBlock<T>, round: usize, limits: ExecutionLimits },
    /// To preprocess and execute a partition, with nobody to tell of commits.
    ExecutePartition { state_view: S, job: PartitionJob<X, B, I>, limits: ExecutionLimits },
    /// To send a result to the coordinator.
    SendResult(Result<Vec<Vec<O>>, E>),
    /// To end.
    Shutdown,
}

/// How many transactions a thread preprocesses at least.
pub const MIN_PREPROCESSED_AT_ONCE: usize = 25;

/// How many threads a shard needs besides those that execute: one for the receiver of commits from
/// other shards and one that waits for the block to be finished.
pub const EXTRA_THREADS: usize = 2;

/// A shard that executes blocks.
#[derive(Clone, Copy, Debug, PartialEq, Eq, Structural)]
pub struct ShardedExecutorService {
    pub shard_id: ShardId,
    pub num_shards: usize,
    pub pool_threads: usize,
}

/// What one round gives is what the block gives.
pub open spec fn wrapped<O, E>(
    result: Result<Vec<O>, E>,
    in_rounds: Result<Vec<Vec<O>>, E>,
) -> bool {
    match result {
        Ok(output) => in_rounds matches Ok(rounds) && rounds@ == seq![output],
        Err(error) => in_rounds == Err::<Vec<Vec<O>>, E>(error),
    }
}

/// Puts the result of a partition, which is executed in one round, into the form of a result by
/// rounds.
pub fn wrap_result<O, E>(result: Result<Vec<O>, E>) -> (in_rounds: Result<Vec<Vec<O>>, E>)
    ensures
        wrapped(result, in_rounds),
{
    match result {
        Ok(output) => {
            let mut rounds: Vec<Vec<O>> = Vec::new();
            rounds.push(output);
            assert(rounds@ =~= seq![output]);
            Ok(rounds)
        },
        Err(error) => Err(error),
    }
}

impl ShardedExecutorService {
    /// A shard whose blocks are executed by `num_threads` threads.
    pub fn new(shard_id: ShardId, num_shards: usize, num_threads: usize) -> (service: Self)
        requires
            num_threads + EXTRA_THREADS <= usize::MAX,
        ensures
            service.shard_id == shard_id,
            service.num_shards == num_shards,
            service.pool_threads == num_threads + 2,
    {
        ShardedExecutorService { shard_id, num_shards, pool_threads: num_threads + EXTRA_THREADS }
    }

    /// The name of a thread of the shard.
    pub fn thread_name(&self, thread: usize) -> (name: String)
        ensures
            name@ == "sharded-executor-shard-"@ + decimal(self.shard_id as nat) + "-"@ + decimal(
                thread as nat,
            ),
    {
        let mut name = String::from_str("sharded-executor-shard-");
        let shard = to_decimal(self.shard_id as u64);
        name.append(shard.as_str());
        name.append("-");
        let number = to_decimal(thread as u64);
        name.append(number.as_str());
        name
    }

    /// Begins the execution of some transactions on a shard, or on the global shard if none is
    /// given. Returns the transactions that are to be verified first.
    pub fn execute_transactions_with_dependencies<X, H, D, C>(
        shard_id: Option<ShardId>,
        transactions: Vec<TransactionWithDependencies<AnalyzedTransaction<X, H>, D>>,
        cross_shard_commit_sender: Option<C>,
        round: usize,
        limits: ExecutionLimits,
    ) -> (begun: (VerifyingTask<C>, Vec<X>))
        ensures
            begun.0.shard_id == shard_id,
            begun.0.round == round,
            begun.0.limits == limits,
            begun.0.cross_shard_commit_sender == cross_shard_commit_sender,
            begun.1@ == bare_transactions(transactions@),
            begun.1@.len() == transactions@.len(),
            forall|i: int|
                0 <= i < transactions@.len() ==> #[trigger] begun.1@[i]
                    == transactions@[i].txn.transaction,
    {
        let txns = strip_dependencies(transactions);
        (VerifyingTask { shard_id, round, limits, cross_shard_commit_sender }, txns)
    }

    /// Begins the execution of a sub-block on this shard. Returns the transactions that are to be
    /// verified first.
    pub fn execute_sub_block<X, H, D, C>(
        &self,
        sub_block: SubBlock<TransactionWithDependencies<AnalyzedTransaction<X, H>, D>>,
        cross_shard_commit_sender: C,
        round: usize,
        limits: ExecutionLimits,
    ) -> (begun: (VerifyingTask<C>, Vec<X>))
        ensures
            begun.0.shard_id == Some(self.shard_id),
            begun.0.round == round,
            begun.0.limits == limits,
            begun.0.cross_shard_commit_sender == Some(cross_shard_commit_sender),
            begun.1@ == bare_transactions(sub_block.transactions@),
            begun.1@.len() == sub_block.transactions@.len(),
            forall|i: int|
                0 <= i < sub_block.transactions@.len() ==> #[trigger] begun.1@[i]
                    == sub_block.transactions@[i].txn.transaction,
    {
        Self::execute_transactions_with_dependencies(
            Some(self.shard_id),
            sub_block.transactions,
            Some(cross_shard_commit_sender),
            round,
            limits,
        )
    }

    /// Begins the execution of a block.
    pub fn execute_block<T, O, E>(&self, transactions: SubBlocksForShard<T>) -> (step: BlockStep<
        T,
        O,
        E,
    >)
        ensures
            is_next_step(transactions.sub_blocks@, Seq::<Vec<O>>::empty(), step),
    {
        let ghost blocks = transactions.sub_blocks@;
        let mut sub_blocks = transactions.sub_blocks;
        let mut pending: Vec<SubBlock<T>> = Vec::new();
        while sub_blocks.len() > 0
            invariant
                blocks == sub_blocks@ + pending@.reverse(),
            decreases sub_blocks.len(),
        {
            let ghost kept = sub_blocks@;
            let ghost moved = pending@;
            if let Some(sub_block) = sub_blocks.pop() {
                pending.push(sub_block);
                proof {
                    assert(kept =~= sub_blocks@.push(sub_block));
                    assert(pending@.reverse() =~= seq![sub_block] + moved.reverse());
                    assert(blocks =~= sub_blocks@ + pending@.reverse());
                }
            }
        }
        let run: BlockRun<T, O> = BlockRun { pending, outputs: Vec::new() };
        proof {
            assert(run.left() =~= blocks);
            assert(run.outputs() =~= Seq::<Vec<O>>::empty());
        }
        run.advance()
    }

    /// A shard starts by waiting for a command.
    pub fn start<S, T, X, B, I, O, E>(&self) -> (begun: (
        ShardState<S, T, O>,
        ShardAction<S, T, X, B, I, O, E>,
    ))
        ensures
            begun.0 is Receiving,
            begun.1 is Receive,
    {
        (ShardState::Receiving, ShardAction::Receive)
    }

    /// Decides what the shard does when something has happened that it was waiting for.
    pub fn on_event<S, T, X, H, B, I, O, E>(
        &self,
        state: ShardState<S, T, O>,
        event: ShardEvent<S, T, AnalyzedTransaction<X, H>, B, I, O, E>,
    ) -> (next: (ShardState<S, T, O>, ShardAction<S, T, X, B, I, O, E>))
        requires
            awaits(state, event),
        ensures
            is_shard_step(*self, state, event, next.0, next.1),
    {
        match (state, event) {
            (ShardState::Receiving, ShardEvent::Received(command)) => self.on_command(command),
            (
                ShardState::ExecutingBlock { state_view, run, limits },
                ShardEvent::SubBlockExecuted(result),
            ) => {
                let step = run.on_executed(result);
                Self::on_block_step(state_view, step, limits)
            },
            (ShardState::ExecutingPartition, ShardEvent::PartitionExecuted(result)) => {
                (ShardState::Sending, ShardAction::SendResult(wrap_result(result)))
            },
            (_, _) => (ShardState::Receiving, ShardAction::Receive),
        }
    }

    /// Goes on with a block as a step of it says.
    fn on_block_step<S, T, X, B, I, O, E>(
        state_view: S,
        step: BlockStep<T, O, E>,
        limits: ExecutionLimits,
    ) -> (next: (ShardState<S, T, O>, ShardAction<S, T, X, B, I, O, E>))
        ensures
            follows_block_step(state_view, step, limits, next.0, next.1),
    {
        match step {
            BlockStep::Execute { run, sub_block, round } => (
                ShardState::ExecutingBlock { state_view, run, limits },
                ShardAction::ExecuteSubBlock { sub_block, round, limits },
            ),
            BlockStep::Finished(result) => (ShardState::Sending, ShardAction::SendResult(result)),
        }
    }

    /// Decides what the shard does about a command.
    fn on_command<S, T, X, H, B, I, O, E>(
        &self,
        command: ExecutorShardCommand<S, T, AnalyzedTransaction<X, H>, B, I>,
    ) -> (next: (ShardState<S, T, O>, ShardAction<S, T, X, B, I, O, E>))
        ensures
            is_command_step(*self, command, next.0, next.1),
    {
        match command {
            ExecutorShardCommand::ExecuteSubBlocks {
                state_view,
                transactions,
                concurrency_level_per_shard,
                maybe_block_gas_limit,
            } => {
                let limits = ExecutionLimits {
                    concurrency_level: concurrency_level_per_shard,
                    maybe_block_gas_limit,
                };
                let step: BlockStep<T, O, E> = self.execute_block(transactions);
                Self::on_block_step(state_view, step, limits)
            },
            ExecutorShardCommand::ExecuteV3Partition {
                state_view,
                partition,
                concurrency_level_per_shard,
                maybe_block_gas_limit,
            } => {
                let limits = ExecutionLimits {
                    concurrency_level: concurrency_level_per_shard,
                    maybe_block_gas_limit,
                };
                let PartitionV3 { block_id, txns, indexes } = partition;
                let job = PartitionJob {
                    block_id,
                    num_shards: self.num_shards,
                    shard_id: self.shard_id,
                    txns: strip_analysis(txns),
                    indexes,
                };
                (
                    ShardState::ExecutingPartition,
                    ShardAction::ExecutePartition { state_view, job, limits },
                )
            },
            ExecutorShardCommand::Stop => (ShardState::Stopped, ShardAction::Shutdown),
        }
    }
}

impl<S, T, O> ShardState<S, T, O> {
    /// The state that the shard executes a block on, while it does.
    pub fn state_view(&self) -> (view: Option<&S>)
        ensures
            match *self {
                ShardState::ExecutingBlock { state_view, .. } => view == Some(&state_view),
                _ => view is None,
            },
    {
        match self {
            ShardState::ExecutingBlock { state_view, .. } => Some(state_view),
            _ => None,
        }
    }
}

/// Whether a shard in a state is waiting for such an event.
pub open spec fn awaits<S, T, A, B, I, O, E>(
    state: ShardState<S, T, O>,
    event: ShardEvent<S, T, A, B, I, O, E>,
) -> bool {
    match event {
        ShardEvent::Received(_) => state is Receiving,
        ShardEvent::SubBlockExecuted(_) => state is ExecutingBlock,
        ShardEvent::PartitionExecuted(_) => state is ExecutingPartition,
        ShardEvent::ResultSent => state is Sending,
    }
}

/// Whether a shard goes on with a block as a step of it says: it executes the sub-block, and when
/// the block is finished it sends the result and holds the state no longer.
pub open spec fn follows_block_step<S, T, X, B, I, O, E>(
    view: S,
    step: BlockStep<T, O, E>,
    limits: ExecutionLimits,
    next: ShardState<S, T, O>,
    action: ShardAction<S, T, X, B, I, O, E>,
) -> bool {
    match step {
        BlockStep::Execute { run, sub_block, round } => {
            &&& next == (ShardState::ExecutingBlock { state_view: view, run, limits })
            &&& action == (ShardAction::ExecuteSubBlock::<S, T, X, B, I, O, E> {
                sub_block,
                round,
                limits,
            })
        },
        BlockStep::Finished(result) => {
            &&& next is Sending
            &&& action == ShardAction::SendResult::<S, T, X, B, I, O, E>(result)
        },
    }
}

/// Whether a shard does about a command what it should: it begins a block or a partition, each
/// within the limits of the command, or it shuts down.
pub open spec fn is_command_step<S, T, X, H, B, I, O, E>(
    service: ShardedExecutorService,
    command: ExecutorShardCommand<S, T, AnalyzedTransaction<X, H>, B, I>,
    next: ShardState<S, T, O>,
    action: ShardAction<S, T, X, B, I, O, E>,
) -> bool {
    match command {
        ExecutorShardCommand::ExecuteSubBlocks {
            state_view,
            transactions,
            concurrency_level_per_shard,
            maybe_block_gas_limit,
        } => exists|step: BlockStep<T, O, E>|
            {
                &&& #[trigger] is_next_step(
                    transactions.sub_blocks@,
                    Seq::<Vec<O>>::empty(),
                    step,
                )
                &&& follows_block_step(
                    state_view,
                    step,
                    ExecutionLimits {
                        concurrency_level: concurrency_level_per_shard,
                        maybe_block_gas_limit,
                    },
                    next,
                    action,
                )
            },
        ExecutorShardCommand::ExecuteV3Partition {
            state_view,
            partition,
            concurrency_level_per_shard,
            maybe_block_gas_limit,
        } => {
            &&& next is ExecutingPartition
            &&& action matches ShardAction::ExecutePartition { state_view: view, job, limits }
            &&& view == state_view
            &&& job.block_id == partition.block_id
            &&& job.num_shards == service.num_shards
            &&& job.shard_id == service.shard_id
            &&& job.txns@ == bare_analyzed(partition.txns@)
            &&& job.indexes == partition.indexes
            &&& limits.concurrency_level == concurrency_level_per_shard
            &&& limits.maybe_block_gas_limit == maybe_block_gas_limit
        },
        ExecutorShardCommand::Stop => next is Stopped && action is Shutdown,
    }
}

/// Whether a shard does about an event what it should.
pub open spec fn is_shard_step<S, T, X, H, B, I, O, E>(
    service: ShardedExecutorService,
    state: ShardState<S, T, O>,
    event: ShardEvent<S, T, AnalyzedTransaction<X, H>, B, I, O, E>,
    next: ShardState<S, T, O>,
    action: ShardAction<S, T, X, B, I, O, E>,
) -> bool {
    match event {
        ShardEvent::Received(command) => is_command_step(service, command, next, action),
        ShardEvent::SubBlockExecuted(result) => {
            &&& state matches ShardState::ExecutingBlock { state_view, run, limits }
            &&& match result {
                Ok(output) => exists|step: BlockStep<T, O, E>|
                    {
                        &&& #[trigger] is_next_step(run.left(), run.outputs().push(output), step)
                        &&& follows_block_step(state_view, step, limits, next, action)
                    },
                Err(error) => {
                    &&& next is Sending
                    &&& action == ShardAction::SendResult::<S, T, X, B, I, O, E>(Err(error))
                },
            }
        },
        ShardEvent::PartitionExecuted(result) => {
            &&& next is Sending
            &&& action matches ShardAction::SendResult(sent)
            &&& wrapped(result, sent)
        },
        ShardEvent::ResultSent => next is Receiving && action is Receive,
    }
}

/// What a shard sends in the end about the block that it is at, when `results` come of the
/// sub-blocks that are still to be executed.
pub open spec fn answer<S, T, X, B, I, O, E>(
    state: ShardState<S, T, O>,
    action: ShardAction<S, T, X, B, I, O, E>,
    results: Seq<Result<Vec<O>, E>>,
) -> Option<Result<Seq<Vec<O>>, E>> {
    match (state, action) {
        (ShardState::ExecutingBlock { state_view, run, limits }, _) => Some(
            block_outcome(run.outputs(), run.left().len() + 1, results),
        ),
        (ShardState::Sending, ShardAction::SendResult(Ok(all))) => Some(Ok(all@)),
        (ShardState::Sending, ShardAction::SendResult(Err(error))) => Some(Err(error)),
        (_, _) => None,
    }
}

/// A command to execute a block is answered with what comes of its sub-blocks: the outputs of all
/// rounds or the first failure.
pub proof fn law_a_block_is_answered<S, T, X, H, B, I, O, E>(
    service: ShardedExecutorService,
    state_view: S,
    transactions: SubBlocksForShard<T>,
    limits: ExecutionLimits,
    next: ShardState<S, T, O>,
    action: ShardAction<S, T, X, B, I, O, E>,
    results: Seq<Result<Vec<O>, E>>,
)
    requires
        is_command_step(
            service,
            (ExecutorShardCommand::<S, T, AnalyzedTransaction<X, H>, B, I>::ExecuteSubBlocks {
                state_view,
                transactions,
                concurrency_level_per_shard: limits.concurrency_level,
                maybe_block_gas_limit: limits.maybe_block_gas_limit,
            }),
            next,
            action,
        ),
    ensures
        answer(next, action, results) == Some(
            block_outcome(Seq::<Vec<O>>::empty(), transactions.sub_blocks@.len(), results),
        ),
{
    let step = choose|step: BlockStep<T, O, E>|
        {
            &&& #[trigger] is_next_step(transactions.sub_blocks@, Seq::<Vec<O>>::empty(), step)
            &&& follows_block_step(state_view, step, limits, next, action)
        };
    law_steps_keep_the_outcome(transactions.sub_blocks@, Seq::<Vec<O>>::empty(), step, results);
}

/// Each round that is over leaves the answer about the block as it was.
pub proof fn law_rounds_keep_the_answer<S, T, X, H, B, I, O, E>(
    service: ShardedExecutorService,
    state: ShardState<S, T, O>,
    before: ShardAction<S, T, X, B, I, O, E>,
    result: Result<Vec<O>, E>,
    next: ShardState<S, T, O>,
    action: ShardAction<S, T, X, B, I, O, E>,
    results: Seq<Result<Vec<O>, E>>,
)
    requires
        is_shard_step(
            service,
            state,
            ShardEvent::<S, T, AnalyzedTransaction<X, H>, B, I, O, E>::SubBlockExecuted(result),
            next,
            action,
        ),
    ensures
        answer(next, action, results) == answer(state, before, seq![result] + results),
{
    let all = seq![result] + results;
    assert(all[0] == result);
    assert(all.drop_first() =~= results);
    match (state, result) {
        (ShardState::ExecutingBlock { state_view, run, limits }, Ok(output)) => {
            let step = choose|step: BlockStep<T, O, E>|
                {
                    &&& #[trigger] is_next_step(run.left(), run.outputs().push(output), step)
                    &&& follows_block_step(state_view, step, limits, next, action)
                };
            law_steps_keep_the_outcome(run.left(), run.outputs().push(output), step, results);
        },
        (_, _) => {},
    }
}

/// How many answers a shard in a state still owes.
pub open spec fn owed<S, T, O>(state: ShardState<S, T, O>) -> int {
    if state is ExecutingBlock || state is ExecutingPartition {
        1
    } else {
        0
    }
}

/// How many answers an event asks for: one if it is a command to execute something.
pub open spec fn asked<S, T, A, B, I, O, E>(event: ShardEvent<S, T, A, B, I, O, E>) -> int {
    match event {
        ShardEvent::Received(ExecutorShardCommand::Stop) => 0,
        ShardEvent::Received(_) => 1,
        _ => 0,
    }
}

/// How many answers an action gives.
pub open spec fn answered<S, T, X, B, I, O, E>(action: ShardAction<S, T, X, B, I, O, E>) -> int {
    if action is SendResult {
        1
    } else {
        0
    }
}

/// Each command to execute something is answered once: an answer is given when it is owed, and
/// what is not given is still owed.
pub proof fn law_each_command_is_answered_once<S, T, X, H, B, I, O, E>(
    service: ShardedExecutorService,
    state: ShardState<S, T, O>,
    event: ShardEvent<S, T, AnalyzedTransaction<X, H>, B, I, O, E>,
    next: ShardState<S, T, O>,
    action: ShardAction<S, T, X, B, I, O, E>,
)
    requires
        awaits(state, event),
        is_shard_step(service, state, event, next, action),
    ensures
        owed(next) + answered(action) == owed(state) + asked(event),
{
}

/// A step of a shard, as it was taken.
pub struct ShardStep<S, T, A, X, B, I, O, E> {
    pub state: ShardState<S, T, O>,
    pub event: ShardEvent<S, T, A, B, I, O, E>,
    pub next: ShardState<S, T, O>,
    pub action: ShardAction<S, T, X, B, I, O, E>,
}

/// Whether these are the steps of a shard from its start.
pub open spec fn is_run<S, T, X, H, B, I, O, E>(
    service: ShardedExecutorService,
    steps: Seq<ShardStep<S, T, AnalyzedTransaction<X, H>, X, B, I, O, E>>,
) -> bool {
    &&& steps.len() > 0 ==> steps[0].state is Receiving
    &&& forall|i: int|
        0 <= i < steps.len() ==> {
            &&& awaits((#[trigger] steps[i]).state, steps[i].event)
            &&& is_shard_step(
                service,
                steps[i].state,
                steps[i].event,
                steps[i].next,
                steps[i].action,
            )
        }
    &&& forall|i: int, j: int|
        0 <= i && j == i + 1 && j < steps.len() ==> (#[trigger] steps[j]).state == (
        #[trigger] steps[i]).next
}

/// How many answers were asked for in all.
pub open spec fn all_asked<S, T, A, X, B, I, O, E>(
    steps: Seq<ShardStep<S, T, A, X, B, I, O, E>>,
) -> int
    decreases steps.len(),
{
    if steps.len() == 0 {
        0
    } else {
        all_asked(steps.drop_last()) + asked(steps.last().event)
    }
}

/// How many answers were given in all.
pub open spec fn all_answered<S, T, A, X, B, I, O, E>(
    steps: Seq<ShardStep<S, T, A, X, B, I, O, E>>,
) -> int
    decreases steps.len(),
{
    if steps.len() == 0 {
        0
    } else {
        all_answered(steps.drop_last()) + answered(steps.last().action)
    }
}

/// From its start on a shard has given as many answers as it was asked for, but for the one that
/// it is working on.
pub proof fn law_answers_match_commands<S, T, X, H, B, I, O, E>(
    service: ShardedExecutorService,
    steps: Seq<ShardStep<S, T, AnalyzedTransaction<X, H>, X, B, I, O, E>>,
)
    requires
        is_run(service, steps),
        steps.len() > 0,
    ensures
        all_answered(steps) + owed(steps.last().next) == all_asked(steps),
    decreases steps.len(),
{
    let last = steps.last();
    let before = steps.drop_last();
    assert(last == steps[steps.len() - 1]);
    law_each_command_is_answered_once(service, last.state, last.event, last.next, last.action);
    if before.len() > 0 {
        assert forall|i: int| 0 <= i < before.len() implies #[trigger] before[i] == steps[i] by {}
        assert(before.last() == steps[steps.len() - 2]);
        assert(last.state == before.last().next);
        law_answers_match_commands(service, before);
    } else {
        assert(all_answered(before) == 0 && all_asked(before) == 0);
    }
}

/// A shard shuts down when it is told to stop, and only then.
pub proof fn law_only_stop_ends_a_shard<S, T, X, H, B, I, O, E>(
    service: ShardedExecutorService,
    state: ShardState<S, T, O>,
    event: ShardEvent<S, T, AnalyzedTransaction<X, H>, B, I, O, E>,
    next: ShardState<S, T, O>,
    action: ShardAction<S, T, X, B, I, O, E>,
)
    requires
        awaits(state, event),
        is_shard_step(service, state, event, next, action),
    ensures
        next is Stopped <==> event == ShardEvent::<
            S,
            T,
            AnalyzedTransaction<X, H>,
            B,
            I,
            O,
            E,
        >::Received(ExecutorShardCommand::Stop),
        action is Shutdown <==> next is Stopped,
{
}

/// Stripping transactions loses none of them: each stands at its place, without what was added.
pub proof fn law_stripping_keeps_every_transaction<X, H, D>(
    txns: Seq<TransactionWithDependencies<AnalyzedTransaction<X, H>, D>>,
    analyzed: Seq<AnalyzedTransaction<X, H>>,
)
    ensures
        bare_transactions(txns).len() == txns.len(),
        forall|i: int|
            0 <= i < txns.len() ==> #[trigger] bare_transactions(txns)[i]
                == txns[i].txn.transaction,
        bare_analyzed(analyzed).len() == analyzed.len(),
        forall|i: int|
            0 <= i < analyzed.len() ==> #[trigger] bare_analyzed(analyzed)[i]
                == analyzed[i].transaction,
{
}

/// A task on a shard stops the receiver of that shard and of its own round, and a task on no shard
/// stops the global one.
pub proof fn law_each_task_stops_its_own_receiver(shard_id: ShardId, round: usize)
    ensures
        stop_target(Some(shard_id), round) == (StopTarget::Shard { shard_id, round }),
        stop_target(None, round) is Global,
{
}

/// While sub-blocks are left, the first of them is executed in the round that is numbered by the
/// outputs so far, and the others are left for later.
pub proof fn law_the_first_sub_block_is_next<T, O, E>(
    left: Seq<SubBlock<T>>,
    outputs: Seq<Vec<O>>,
    step: BlockStep<T, O, E>,
)
    requires
        is_next_step(left, outputs, step),
        left.len() > 0,
    ensures
        step matches BlockStep::Execute { run, sub_block, round } && {
            &&& sub_block == left[0]
            &&& round == outputs.len()
            &&& run.outputs() == outputs
            &&& run.left().len() == left.len() - 1
            &&& forall|i: int| 0 <= i < left.len() - 1 ==> #[trigger] run.left()[i] == left[i + 1]
        },
{
}

/// When no sub-block is left, the block is finished with all outputs.
pub proof fn law_a_block_ends_with_all_outputs<T, O, E>(
    left: Seq<SubBlock<T>>,
    outputs: Seq<Vec<O>>,
    step: BlockStep<T, O, E>,
)
    requires
        is_next_step(left, outputs, step),
        left.len() == 0,
    ensures
        step matches BlockStep::Finished(Ok(all)) && all@ == outputs,
{
}

/// What one round gives comes as the only round, and a failure stays what it is.
pub proof fn law_one_round_is_wrapped<O, E>(
    result: Result<Vec<O>, E>,
    in_rounds: Result<Vec<Vec<O>>, E>,
)
    requires
        wrapped(result, in_rounds),
    ensures
        result matches Ok(output) ==> (in_rounds matches Ok(rounds) && rounds@.len() == 1
            && rounds@[0] == output),
        result matches Err(error) ==> (in_rounds matches Err(same) && same == error),
{
}

/// A shard waits for a command when it has nothing to do, for a result while it executes, and for the
/// sending while it sends.
pub proof fn law_what_a_shard_waits_for<S, T, A, B, I, O, E>(
    state: ShardState<S, T, O>,
    command: ExecutorShardCommand<S, T, A, B, I>,
    result: Result<Vec<O>, E>,
)
    ensures
        awaits(state, ShardEvent::<S, T, A, B, I, O, E>::Received(command)) <==> state is Receiving,
        awaits(state, ShardEvent::<S, T, A, B, I, O, E>::SubBlockExecuted(result)) <==> state is ExecutingBlock,
        awaits(state, ShardEvent::<S, T, A, B, I, O, E>::PartitionExecuted(result)) <==> state is ExecutingPartition,
        awaits(state, ShardEvent::<S, T, A, B, I, O, E>::ResultSent) <==> state is Sending,
{
}

/// A command to execute a block begins with the first sub-block in round zero, on the state and within
/// the limits of the command. A block without sub-blocks is answered at once, with no outputs.
pub proof fn law_a_block_begins_with_its_first_sub_block<S, T, X, H, B, I, O, E>(
    service: ShardedExecutorService,
    state: ShardState<S, T, O>,
    view: S,
    transactions: SubBlocksForShard<T>,
    concurrency: usize,
    gas_limit: Option<u64>,
    next: ShardState<S, T, O>,
    action: ShardAction<S, T, X, B, I, O, E>,
)
    requires
        is_shard_step(
            service,
            state,
            ShardEvent::<S, T, AnalyzedTransaction<X, H>, B, I, O, E>::Received(
                (ExecutorShardCommand::ExecuteSubBlocks {
                    state_view: view,
                    transactions,
                    concurrency_level_per_shard: concurrency,
                    maybe_block_gas_limit: gas_limit,
                }),
            ),
            next,
            action,
        ),
    ensures
        transactions.sub_blocks@.len() > 0 ==> {
            &&& action matches ShardAction::ExecuteSubBlock { sub_block, round, limits: granted }
            &&& sub_block == transactions.sub_blocks@[0]
            &&& round == 0
            &&& granted.concurrency_level == concurrency
            &&& granted.maybe_block_gas_limit == gas_limit
            &&& next matches ShardState::ExecutingBlock { state_view, run, limits }
            &&& state_view == view
            &&& limits == granted
            &&& run.outputs().len() == 0
            &&& run.left().len() == transactions.sub_blocks@.len() - 1
            &&& forall|i: int|
                0 <= i < run.left().len() ==> #[trigger] run.left()[i]
                    == transactions.sub_blocks@[i + 1]
        },
        transactions.sub_blocks@.len() == 0 ==> {
            &&& next is Sending
            &&& action matches ShardAction::SendResult(Ok(all))
            &&& all@.len() == 0
        },
{
    let none = Seq::<Vec<O>>::empty();
    let limits = ExecutionLimits {
        concurrency_level: concurrency,
        maybe_block_gas_limit: gas_limit,
    };
    let step = choose|step: BlockStep<T, O, E>|
        {
            &&& #[trigger] is_next_step(transactions.sub_blocks@, none, step)
            &&& follows_block_step(view, step, limits, next, action)
        };
    assert(is_next_step(transactions.sub_blocks@, none, step));
}

/// A round that succeeds adds its output, and the next sub-block follows in the next round on the same
/// state and within the same limits. After the last round all outputs are sent, and after a round that
/// fails its error is.
pub proof fn law_rounds_follow_each_other<S, T, X, H, B, I, O, E>(
    service: ShardedExecutorService,
    view: S,
    before: BlockRun<T, O>,
    granted: ExecutionLimits,
    result: Result<Vec<O>, E>,
    next: ShardState<S, T, O>,
    action: ShardAction<S, T, X, B, I, O, E>,
)
    requires
        is_shard_step(
            service,
            (ShardState::ExecutingBlock { state_view: view, run: before, limits: granted }),
            ShardEvent::<S, T, AnalyzedTransaction<X, H>, B, I, O, E>::SubBlockExecuted(result),
            next,
            action,
        ),
    ensures
        result is Ok && before.left().len() > 0 ==> {
            &&& action matches ShardAction::ExecuteSubBlock { sub_block, round, limits: same }
            &&& sub_block == before.left()[0]
            &&& round == before.outputs().len() + 1
            &&& same == granted
            &&& next matches ShardState::ExecutingBlock { state_view, run, limits }
            &&& state_view == view
            &&& limits == granted
            &&& run.outputs().len() == before.outputs().len() + 1
            &&& run.outputs().last() == result->Ok_0
            &&& forall|i: int|
                0 <= i < before.outputs().len() ==> #[trigger] run.outputs()[i]
                    == before.outputs()[i]
            &&& run.left().len() == before.left().len() - 1
            &&& forall|i: int|
                0 <= i < run.left().len() ==> #[trigger] run.left()[i] == before.left()[i + 1]
        },
        result is Ok && before.left().len() == 0 ==> {
            &&& next is Sending
            &&& action matches ShardAction::SendResult(Ok(all))
            &&& all@.len() == before.outputs().len() + 1
            &&& all@.last() == result->Ok_0
            &&& forall|i: int|
                0 <= i < before.outputs().len() ==> #[trigger] all@[i] == before.outputs()[i]
        },
        result matches Err(error) ==> {
            &&& next is Sending
            &&& action matches ShardAction::SendResult(Err(sent))
            &&& sent == error
        },
{
    if let Ok(output) = result {
        let outputs = before.outputs().push(output);
        let step = choose|step: BlockStep<T, O, E>|
            {
                &&& #[trigger] is_next_step(before.left(), outputs, step)
                &&& follows_block_step(view, step, granted, next, action)
            };
        assert(is_next_step(before.left(), outputs, step));
    }
}

/// A command to execute a partition is carried out on its state and within its limits, for this shard
/// among all, with every transaction at its place. What comes of it is sent as the only round.
pub proof fn law_a_partition_is_executed_whole<S, T, X, H, B, I, O, E>(
    service: ShardedExecutorService,
    state: ShardState<S, T, O>,
    view: S,
    partition: PartitionV3<AnalyzedTransaction<X, H>, B, I>,
    concurrency: usize,
    gas_limit: Option<u64>,
    next: ShardState<S, T, O>,
    action: ShardAction<S, T, X, B, I, O, E>,
)
    requires
        is_shard_step(
            service,
            state,
            ShardEvent::<S, T, AnalyzedTransaction<X, H>, B, I, O, E>::Received(
                (ExecutorShardCommand::ExecuteV3Partition {
                    state_view: view,
                    partition,
                    concurrency_level_per_shard: concurrency,
                    maybe_block_gas_limit: gas_limit,
                }),
            ),
            next,
            action,
        ),
    ensures
        next is ExecutingPartition,
        action matches ShardAction::ExecutePartition { state_view, job, limits } && {
            &&& state_view == view
            &&& job.block_id == partition.block_id
            &&& job.num_shards == service.num_shards
            &&& job.shard_id == service.shard_id
            &&& job.indexes == partition.indexes
            &&& job.txns@.len() == partition.txns@.len()
            &&& forall|i: int|
                0 <= i < partition.txns@.len() ==> #[trigger] job.txns@[i]
                    == partition.txns@[i].transaction
            &&& limits.concurrency_level == concurrency
            &&& limits.maybe_block_gas_limit == gas_limit
        },
{
}

/// What comes of a partition is sent as the only round, or as the error that it is.
pub proof fn law_a_partition_is_answered_as_one_round<S, T, X, H, B, I, O, E>(
    service: ShardedExecutorService,
    state: ShardState<S, T, O>,
    result: Result<Vec<O>, E>,
    next: ShardState<S, T, O>,
    action: ShardAction<S, T, X, B, I, O, E>,
)
    requires
        is_shard_step(
            service,
            state,
            ShardEvent::<S, T, AnalyzedTransaction<X, H>, B, I, O, E>::PartitionExecuted(result),
            next,
            action,
        ),
    ensures
        next is Sending,
        result matches Ok(output) ==> {
            &&& action matches ShardAction::SendResult(Ok(rounds))
            &&& rounds@.len() == 1
            &&& rounds@[0] == output
        },
        result matches Err(error) ==> {
            &&& action matches ShardAction::SendResult(Err(sent))
            &&& sent == error
        },
{
}

/// When a result has been sent, the shard waits for the next command.
pub proof fn law_a_shard_goes_on_after_sending<S, T, X, H, B, I, O, E>(
    service: ShardedExecutorService,
    state: ShardState<S, T, O>,
    next: ShardState<S, T, O>,
    action: ShardAction<S, T, X, B, I, O, E>,
)
    requires
        is_shard_step(
            service,
            state,
            ShardEvent::<S, T, AnalyzedTransaction<X, H>, B, I, O, E>::ResultSent,
            next,
            action,
        ),
    ensures
        next is Receiving,
        action is Receive,
{
}

/// Transactions are preprocessed by at least 25 at a time, and a shard has two threads besides those
/// that execute.
pub proof fn law_threads_and_portions()
    ensures
        MIN_PREPROCESSED_AT_ONCE == 25,
        EXTRA_THREADS == 2,
{
}

} // verus!
