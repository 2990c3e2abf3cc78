//! A chunk of executed transactions on its way into storage.

use crate::state_update::{
    all_updates, last_writes, law_every_update_counts, law_nothing_else_is_left_behind,
    law_updates_compose, updates_of, StateUpdates, TransactionOutput,
};
use vstd::prelude::*;

verus! {

/// The number of a transaction in the ledger.
pub type Version = u64;

/// A chunk of transactions to be committed. The transactions (`T`), their infos (`I`), the state in
/// memory (`D`) and the state cache (`C`) are only carried along.
pub struct ChunkToCommit<'a, T, I, D, C> {
    pub first_version: Version,
    pub last_state_checkpoint_index: Option<usize>,
    pub transactions: &'a [T],
    pub transaction_outputs: &'a [TransactionOutput],
    pub transaction_infos: &'a [I],
    pub base_state_version: Option<Version>,
    pub latest_in_memory_state: &'a D,
    pub sharded_state_cache: Option<&'a C>,
    pub is_reconfig: bool,
}

impl<'a, T, I, D, C> Clone for ChunkToCommit<'a, T, I, D, C> {
    fn clone(&self) -> (chunk: Self)
        ensures
            chunk == *self,
    {
        ChunkToCommit {
            first_version: self.first_version,
            last_state_checkpoint_index: self.last_state_checkpoint_index,
            transactions: self.transactions,
            transaction_outputs: self.transaction_outputs,
            transaction_infos: self.transaction_infos,
            base_state_version: self.base_state_version,
            latest_in_memory_state: self.latest_in_memory_state,
            sharded_state_cache: self.sharded_state_cache,
            is_reconfig: self.is_reconfig,
        }
    }
}

impl<'a, T, I, D, C> ChunkToCommit<'a, T, I, D, C> {
    /// How many transactions the chunk holds.
    pub fn len(&self) -> (count: usize)
        ensures
            count == self.transactions@.len(),
    {
        self.transactions.len()
    }

    /// Whether the chunk holds no transactions.
    pub fn is_empty(&self) -> (empty: bool)
        ensures
            empty == (self.transactions@.len() == 0),
    {
        self.len() == 0
    }

    /// The version that follows the chunk.
    pub fn next_version(&self) -> (version: Version)
        requires
            self.first_version + self.transactions@.len() <= u64::MAX,
        ensures
            version == self.first_version + self.transactions@.len(),
    {
        self.first_version + self.len() as Version
    }

    /// The last version of the chunk.
    pub fn expect_last_version(&self) -> (version: Version)
        requires
            self.first_version + self.transactions@.len() <= u64::MAX,
            self.first_version + self.transactions@.len() > 0,
        ensures
            version == self.first_version + self.transactions@.len() - 1,
    {
        self.next_version() - 1
    }

    /// What remains of the state updates up to the last checkpoint, the transaction of which is
    /// included; nothing, if there is no checkpoint.
    pub fn collect_updates_until_last_state_checkpoint(&self) -> (updates: Option<StateUpdates>)
        requires
            self.last_state_checkpoint_index matches Some(index) ==> index
                < self.transaction_outputs@.len(),
        ensures
            match self.last_state_checkpoint_index {
                Some(index) => {
                    &&& updates matches Some(u)
                    &&& u.wf()
                    &&& u@ == last_writes(all_updates(self.transaction_outputs@.take(index + 1)))
                    &&& forall|i: int, j: int|
                        0 <= i <= index && 0 <= j
                            < self.transaction_outputs@[i].state_updates@.len() ==> u@.contains_key(
                            (#[trigger] self.transaction_outputs@[i].state_updates@[j]).0.bytes@,
                        )
                    &&& forall|key: Seq<u8>| #[trigger]
                        u@.contains_key(key) ==> exists|i: int, j: int|
                            0 <= i <= index && 0 <= j
                                < self.transaction_outputs@[i].state_updates@.len() && (
                            #[trigger] self.transaction_outputs@[i].state_updates@[j]).0.bytes@
                                == key
                },
                None => updates is None,
            },
    {
        match self.last_state_checkpoint_index {
            None => None,
            Some(index) => {
                let ghost outputs = self.transaction_outputs@;
                let mut updates = StateUpdates::new();
                let mut next: usize = 0;
                proof {
                    assert(outputs.take(0) =~= Seq::<TransactionOutput>::empty());
                }
                while next <= index
                    invariant
                        outputs == self.transaction_outputs@,
                        index < outputs.len(),
                        next <= index + 1,
                        updates.wf(),
                        updates@ == last_writes(all_updates(outputs.take(next as int))),
                    decreases index + 1 - next,
                {
                    updates.record_all(&self.transaction_outputs[next]);
                    proof {
                        law_updates_compose(
                            Map::empty(),
                            all_updates(outputs.take(next as int)),
                            updates_of(outputs[next as int]),
                        );
                        assert(outputs.take(next + 1).drop_last() =~= outputs.take(next as int));
                    }
                    next = next + 1;
                }
                proof {
                    let taken = outputs.take(index + 1);
                    assert forall|i: int, j: int|
                        0 <= i <= index && 0 <= j
                            < outputs[i].state_updates@.len() implies updates@.contains_key(
                        (#[trigger] outputs[i].state_updates@[j]).0.bytes@,
                    ) by {
                        assert(taken[i] == outputs[i]);
                        law_every_update_counts(taken, i, j);
                    }
                    assert forall|key: Seq<u8>| #[trigger] updates@.contains_key(key) implies exists|
                        i: int,
                        j: int,
                    |
                        0 <= i <= index && 0 <= j < outputs[i].state_updates@.len() && (
                        #[trigger] outputs[i].state_updates@[j]).0.bytes@ == key by {
                        law_nothing_else_is_left_behind(taken, key);
                        let (i, j) = choose|i: int, j: int|
                            0 <= i < taken.len() && 0 <= j < taken[i].state_updates@.len() && (
                            #[trigger] taken[i].state_updates@[j]).0.bytes@ == key;
                        assert(outputs[i].state_updates@[j].0.bytes@ == key);
                    }
                }
                Some(updates)
            },
        }
    }
}

/// Up to a checkpoint, the value of an update is collected if no later update of the same transaction
/// and none of a later transaction up to the checkpoint has the same key.
pub proof fn law_the_last_write_before_the_checkpoint_is_collected(
    outputs: Seq<TransactionOutput>,
    index: int,
    i: int,
    j: int,
)
    requires
        0 <= i <= index < outputs.len(),
        0 <= j < outputs[i].state_updates@.len(),
        forall|l: int|
            j < l < outputs[i].state_updates@.len() ==> (
            #[trigger] outputs[i].state_updates@[l]).0.bytes@
                != outputs[i].state_updates@[j].0.bytes@,
        forall|k: int, l: int|
            i < k <= index && 0 <= l < outputs[k].state_updates@.len() ==> (
            #[trigger] outputs[k].state_updates@[l]).0.bytes@
                != outputs[i].state_updates@[j].0.bytes@,
    ensures
        ({
            let (key, value) = outputs[i].state_updates@[j];
            let collected = last_writes(all_updates(outputs.take(index + 1)));
            &&& collected.contains_key(key.bytes@)
            &&& collected[key.bytes@] == (match value {
                Some(v) => Some(v.bytes@),
                None => None,
            })
        }),
{
    let taken = outputs.take(index + 1);
    let key = outputs[i].state_updates@[j].0.bytes@;
    assert(taken[i] == outputs[i]);
    assert forall|k: int, l: int|
        i < k < taken.len() && 0 <= l < taken[k].state_updates@.len() implies (
    #[trigger] taken[k].state_updates@[l]).0.bytes@ != key by {
        assert(outputs[k].state_updates@[l].0.bytes@ != key);
    }
    law_every_update_counts(taken, i, j);
}

} // verus!
