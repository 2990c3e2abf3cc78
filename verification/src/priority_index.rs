//! The priority queue of the mempool, from which blocks are formed.

use crate::order::{
    has_rank, lemma_lex_irreflexive, lemma_lex_total, lemma_lex_transitive, lex_before,
    law_descending_listing_is_unique, without_rank, OrderedSet, SortKey,
};
use crate::transaction::{
    AccountAddress, Duration, HashValue, MempoolTransaction, ReplayProtector, SystemTime,
    TransactionSummary,
};
use std::cmp::Ordering;
use vstd::prelude::*;
use vstd::std_specs::cmp::PartialOrdSpec;
use vstd::std_specs::convert::FromSpec;

verus! {

/// A logical reference to a transaction of the main store, ordered by priority.
#[derive(Clone, Copy, Debug, PartialEq, Eq, Structural, Hash)]
pub struct OrderedQueueKey {
    pub gas_ranking_score: u64,
    pub expiration_time: Duration,
    pub insertion_time: SystemTime,
    pub address: AccountAddress,
    pub replay_protector: ReplayProtector,
    pub hash: HashValue,
}

/// How two keys compare: by gas score, then the earlier expiration is the greater, then the earlier
/// insertion is the greater, then by address, by replay protector and by hash.
pub open spec fn queue_order(a: OrderedQueueKey, b: OrderedQueueKey) -> Ordering {
    if a.gas_ranking_score != b.gas_ranking_score {
        if a.gas_ranking_score < b.gas_ranking_score {
            Ordering::Less
        } else {
            Ordering::Greater
        }
    } else if a.expiration_time != b.expiration_time {
        if a.expiration_time.nanos > b.expiration_time.nanos {
            Ordering::Less
        } else {
            Ordering::Greater
        }
    } else if a.insertion_time != b.insertion_time {
        if a.insertion_time.nanos > b.insertion_time.nanos {
            Ordering::Less
        } else {
            Ordering::Greater
        }
    } else if a.address != b.address {
        if a.address.is_before(&b.address) {
            Ordering::Less
        } else {
            Ordering::Greater
        }
    } else if a.replay_protector != b.replay_protector {
        if a.replay_protector.is_before(&b.replay_protector) {
            Ordering::Less
        } else {
            Ordering::Greater
        }
    } else if a.hash != b.hash {
        if a.hash.is_before(&b.hash) {
            Ordering::Less
        } else {
            Ordering::Greater
        }
    } else {
        Ordering::Equal
    }
}

impl OrderedQueueKey {
    /// Compares by priority.
    pub fn cmp(&self, other: &OrderedQueueKey) -> (order: Ordering)
        ensures
            order == queue_order(*self, *other),
    {
        if self.gas_ranking_score != other.gas_ranking_score {
            return if self.gas_ranking_score < other.gas_ranking_score {
                Ordering::Less
            } else {
                Ordering::Greater
            };
        }
        if self.expiration_time != other.expiration_time {
            return if self.expiration_time.nanos > other.expiration_time.nanos {
                Ordering::Less
            } else {
                Ordering::Greater
            };
        }
        if self.insertion_time != other.insertion_time {
            return if self.insertion_time.nanos > other.insertion_time.nanos {
                Ordering::Less
            } else {
                Ordering::Greater
            };
        }
        if self.address != other.address {
            return if self.address.precedes(&other.address) {
                Ordering::Less
            } else {
                Ordering::Greater
            };
        }
        if self.replay_protector != other.replay_protector {
            return if self.replay_protector.precedes(&other.replay_protector) {
                Ordering::Less
            } else {
                Ordering::Greater
            };
        }
        if self.hash != other.hash {
            return if self.hash.precedes(&other.hash) {
                Ordering::Less
            } else {
                Ordering::Greater
            };
        }
        Ordering::Equal
    }
}

impl PartialOrd for OrderedQueueKey {
    fn partial_cmp(&self, other: &OrderedQueueKey) -> (order: Option<Ordering>) {
        Some(self.cmp(other))
    }
}

impl vstd::std_specs::cmp::PartialOrdSpecImpl for OrderedQueueKey {
    open spec fn obeys_partial_cmp_spec() -> bool {
        true
    }

    open spec fn partial_cmp_spec(&self, other: &OrderedQueueKey) -> Option<Ordering> {
        Some(queue_order(*self, *other))
    }
}

impl SortKey for OrderedQueueKey {
    open spec fn rank(&self) -> Seq<int> {
        seq![
            self.gas_ranking_score as int,
            -(self.expiration_time.nanos as int),
            -(self.insertion_time.nanos as int),
            self.address.rank()[0],
            self.address.rank()[1],
            self.replay_protector.rank()[0],
            self.replay_protector.rank()[1],
            self.hash.rank()[0],
            self.hash.rank()[1],
        ]
    }

    fn precedes(&self, other: &Self) -> (before: bool) {
        proof {
            lemma_queue_rank(*self, *other);
        }
        match self.cmp(other) {
            Ordering::Less => true,
            _ => false,
        }
    }
}

/// The order of the ranks of two keys is their order of priority.
proof fn lemma_queue_rank(a: OrderedQueueKey, b: OrderedQueueKey)
    ensures
        lex_before(a.rank(), b.rank()) == (queue_order(a, b) == Ordering::Less),
        (a.rank() == b.rank()) == (queue_order(a, b) == Ordering::Equal),
        lex_before(b.rank(), a.rank()) == (queue_order(a, b) == Ordering::Greater),
{
    reveal_with_fuel(lex_before, 10);
    lemma_lex_irreflexive(a.rank());
    lemma_lex_total(a.rank(), b.rank());
    if lex_before(a.rank(), b.rank()) && lex_before(b.rank(), a.rank()) {
        lemma_lex_transitive(a.rank(), b.rank(), a.rank());
    }
    if a.rank() == b.rank() {
        assert(a.rank()[0] == b.rank()[0]);
        assert(a.rank()[1] == b.rank()[1]);
        assert(a.rank()[2] == b.rank()[2]);
        assert(a.rank()[3] == b.rank()[3]);
        assert(a.rank()[4] == b.rank()[4]);
        assert(a.rank()[5] == b.rank()[5]);
        assert(a.rank()[6] == b.rank()[6]);
        assert(a.rank()[7] == b.rank()[7]);
        assert(a.rank()[8] == b.rank()[8]);
        assert(a.address == b.address);
        assert(a.replay_protector == b.replay_protector);
        assert(a.hash == b.hash);
    }
    if queue_order(a, b) == Ordering::Equal {
        assert(a.rank() =~= b.rank());
    }
}

/// The key under which the queue holds a transaction.
pub open spec fn queue_key(txn: MempoolTransaction) -> OrderedQueueKey {
    OrderedQueueKey {
        gas_ranking_score: txn.ranking_score,
        expiration_time: txn.expiration_time,
        insertion_time: txn.insertion_info.insertion_time,
        address: txn.txn.sender,
        replay_protector: txn.sequence_info.transaction_replay_protector,
        hash: txn.txn.committed_hash,
    }
}

/// Whether each key of `keys` is greater than every later one.
pub open spec fn highest_first(keys: Seq<OrderedQueueKey>) -> bool {
    forall|i: int, j: int|
        0 <= i < j < keys.len() ==> queue_order(#[trigger] keys[i], #[trigger] keys[j])
            == Ordering::Greater
}

/// The main priority queue of the mempool, ordered by gas score and at the second level by expiration
/// time. It holds logical references to the transactions, not the transactions themselves.
pub struct PriorityIndex {
    data: OrderedSet<OrderedQueueKey>,
}

impl View for PriorityIndex {
    type V = Set<OrderedQueueKey>;

    closed spec fn view(&self) -> Set<OrderedQueueKey> {
        self.data@
    }
}

impl PriorityIndex {
    pub closed spec fn wf(&self) -> bool {
        self.data.wf()
    }

    /// An empty queue.
    pub fn new() -> (index: Self)
        ensures
            index.wf(),
            index@ == Set::<OrderedQueueKey>::empty(),
    {
        PriorityIndex { data: OrderedSet::new() }
    }

    /// Adds a transaction.
    pub fn insert(&mut self, txn: &MempoolTransaction)
        requires
            old(self).wf(),
        ensures
            final(self).wf(),
            final(self)@ == old(self)@.insert(queue_key(*txn)),
            final(self)@ == old(self)@.insert(
                (OrderedQueueKey {
                    gas_ranking_score: txn.ranking_score,
                    expiration_time: txn.expiration_time,
                    insertion_time: txn.insertion_info.insertion_time,
                    address: txn.txn.sender,
                    replay_protector: txn.sequence_info.transaction_replay_protector,
                    hash: txn.txn.committed_hash,
                }),
            ),
    {
        let key = self.make_key(txn);
        proof {
            lemma_queue_sets(self@, key);
        }
        self.data.insert(key);
        proof {
            assert(self@ =~= old(self)@.insert(key));
        }
    }

    /// Drops a transaction.
    pub fn remove(&mut self, txn: &MempoolTransaction)
        requires
            old(self).wf(),
        ensures
            final(self).wf(),
            final(self)@ == old(self)@.remove(queue_key(*txn)),
    {
        let key = self.make_key(txn);
        proof {
            lemma_queue_sets(self@, key);
        }
        self.data.remove(&key);
    }

    /// Whether the transaction is in the queue.
    pub fn contains(&self, txn: &MempoolTransaction) -> (found: bool)
        requires
            self.wf(),
        ensures
            found == self@.contains(queue_key(*txn)),
    {
        let key = self.make_key(txn);
        proof {
            lemma_queue_sets(self@, key);
        }
        self.data.contains(&key)
    }

    fn make_key(&self, txn: &MempoolTransaction) -> (key: OrderedQueueKey)
        ensures
            key == queue_key(*txn),
    {
        OrderedQueueKey {
            gas_ranking_score: txn.ranking_score,
            expiration_time: txn.expiration_time,
            insertion_time: txn.insertion_info.insertion_time,
            address: txn.get_sender(),
            replay_protector: txn.sequence_info.transaction_replay_protector,
            hash: txn.get_committed_hash(),
        }
    }

    /// The keys, those of the highest priority first.
    pub fn iter(&self) -> (keys: Vec<OrderedQueueKey>)
        requires
            self.wf(),
        ensures
            highest_first(keys@),
            keys@.to_set() == self@,
    {
        let keys = self.data.to_descending();
        proof {
            assert forall|i: int, j: int| 0 <= i < j < keys.len() implies queue_order(
                #[trigger] keys[i],
                #[trigger] keys[j],
            ) == Ordering::Greater by {
                lemma_queue_rank(keys[i], keys[j]);
            }
        }
        keys
    }

    /// How many transactions the queue holds.
    pub fn size(&self) -> (count: usize)
        requires
            self.wf(),
        ensures
            self@.finite(),
            count == self@.len(),
    {
        self.data.len()
    }
}

/// A set of keys holds a rank just if it holds the key of that rank.
proof fn lemma_queue_sets(keys: Set<OrderedQueueKey>, key: OrderedQueueKey)
    ensures
        has_rank(keys, key.rank()) == keys.contains(key),
        without_rank(keys, key.rank()) == keys.remove(key),
{
    assert forall|k: OrderedQueueKey| (k.rank() == key.rank()) == (k == key) by {
        lemma_queue_rank(k, key);
    }
    assert(without_rank(keys, key.rank()) =~= keys.remove(key));
}

impl From<&OrderedQueueKey> for TransactionSummary {
    fn from(key: &OrderedQueueKey) -> (pointer: Self) {
        TransactionSummary {
            sender: key.address,
            replay_protector: key.replay_protector,
            hash: key.hash,
        }
    }
}

impl vstd::std_specs::convert::FromSpecImpl<&OrderedQueueKey> for TransactionSummary {
    open spec fn obeys_from_spec() -> bool {
        true
    }

    open spec fn from_spec(key: &OrderedQueueKey) -> Self {
        TransactionSummary {
            sender: key.address,
            replay_protector: key.replay_protector,
            hash: key.hash,
        }
    }
}

/// The order of the keys is total: swapping two keys reverses it, it is transitive, and only equal
/// keys compare equal.
pub proof fn law_queue_order_is_total(a: OrderedQueueKey, b: OrderedQueueKey, c: OrderedQueueKey)
    ensures
        (queue_order(a, b) == Ordering::Less) == (queue_order(b, a) == Ordering::Greater),
        queue_order(a, b) == Ordering::Less && queue_order(b, c) == Ordering::Less ==> queue_order(
            a,
            c,
        ) == Ordering::Less,
        (queue_order(a, b) == Ordering::Equal) == (a == b),
{
    lemma_queue_rank(a, b);
    lemma_queue_rank(b, a);
    lemma_queue_rank(b, c);
    lemma_queue_rank(a, c);
    if queue_order(a, b) == Ordering::Less && queue_order(b, c) == Ordering::Less {
        lemma_lex_transitive(a.rank(), b.rank(), c.rank());
    }
}

/// Transactions come out by gas score, and those that agree in score and expiration time come out in
/// the order of insertion.
pub proof fn law_highest_gas_first(keys: Seq<OrderedQueueKey>, i: int, j: int)
    requires
        highest_first(keys),
        0 <= i < j < keys.len(),
    ensures
        keys[i].gas_ranking_score >= keys[j].gas_ranking_score,
        keys[i].gas_ranking_score == keys[j].gas_ranking_score && keys[i].expiration_time
            == keys[j].expiration_time ==> keys[i].insertion_time.nanos
            <= keys[j].insertion_time.nanos,
{
    assert(queue_order(keys[i], keys[j]) == Ordering::Greater);
}

/// Transactions of the same gas score come out by expiration time, the earliest to expire first.
pub proof fn law_same_score_comes_out_by_expiration(keys: Seq<OrderedQueueKey>, i: int, j: int)
    requires
        highest_first(keys),
        0 <= i < j < keys.len(),
        keys[i].gas_ranking_score == keys[j].gas_ranking_score,
    ensures
        keys[i].expiration_time.nanos <= keys[j].expiration_time.nanos,
{
    assert(queue_order(keys[i], keys[j]) == Ordering::Greater);
}

/// Between keys of the same gas score that expire at different times, nothing else counts.
pub proof fn law_expiration_is_the_second_level(
    a: OrderedQueueKey,
    b: OrderedQueueKey,
    c: OrderedQueueKey,
    d: OrderedQueueKey,
)
    requires
        a.gas_ranking_score == b.gas_ranking_score,
        a.expiration_time != b.expiration_time,
        c.gas_ranking_score == a.gas_ranking_score,
        c.expiration_time == a.expiration_time,
        d.gas_ranking_score == b.gas_ranking_score,
        d.expiration_time == b.expiration_time,
    ensures
        queue_order(a, b) != Ordering::Equal,
        queue_order(c, d) == queue_order(a, b),
{
}

/// The set of keys fixes the order in which they come out.
pub proof fn law_listing_is_unique(a: Seq<OrderedQueueKey>, b: Seq<OrderedQueueKey>)
    requires
        highest_first(a),
        highest_first(b),
        a.to_set() == b.to_set(),
    ensures
        a == b,
{
    assert forall|i: int, j: int| 0 <= i < j < a.len() implies lex_before(
        (#[trigger] a[j]).rank(),
        (#[trigger] a[i]).rank(),
    ) by {
        lemma_queue_rank(a[i], a[j]);
    }
    assert forall|i: int, j: int| 0 <= i < j < b.len() implies lex_before(
        (#[trigger] b[j]).rank(),
        (#[trigger] b[i]).rank(),
    ) by {
        lemma_queue_rank(b[i], b[j]);
    }
    law_descending_listing_is_unique(a, b);
}

/// A transaction that was added is found, and one that was removed is not.
pub proof fn law_insert_is_found_and_remove_is_gone(
    keys: Set<OrderedQueueKey>,
    txn: MempoolTransaction,
)
    ensures
        keys.insert(queue_key(txn)).contains(queue_key(txn)),
        !keys.remove(queue_key(txn)).contains(queue_key(txn)),
{
}

/// Removing a transaction undoes its insertion.
pub proof fn law_remove_undoes_insert(keys: Set<OrderedQueueKey>, txn: MempoolTransaction)
    requires
        !keys.contains(queue_key(txn)),
    ensures
        keys.insert(queue_key(txn)).remove(queue_key(txn)) == keys,
{
    assert(keys.insert(queue_key(txn)).remove(queue_key(txn)) =~= keys);
}

/// Adding or removing a transaction leaves every other one where it is.
pub proof fn law_others_are_kept(
    keys: Set<OrderedQueueKey>,
    txn: MempoolTransaction,
    other: MempoolTransaction,
)
    requires
        queue_order(queue_key(txn), queue_key(other)) != Ordering::Equal,
    ensures
        keys.insert(queue_key(txn)).contains(queue_key(other)) == keys.contains(queue_key(other)),
        keys.remove(queue_key(txn)).contains(queue_key(other)) == keys.contains(queue_key(other)),
{
    lemma_queue_rank(queue_key(txn), queue_key(other));
}

/// A key holds the score, the times, the sender, the replay protector and the hash of its transaction.
pub proof fn law_a_key_holds_its_transaction(txn: MempoolTransaction)
    ensures
        queue_key(txn).gas_ranking_score == txn.ranking_score,
        queue_key(txn).expiration_time == txn.expiration_time,
        queue_key(txn).insertion_time == txn.insertion_info.insertion_time,
        queue_key(txn).address == txn.txn.sender,
        queue_key(txn).replay_protector == txn.sequence_info.transaction_replay_protector,
        queue_key(txn).hash == txn.txn.committed_hash,
{
}

/// Of two transactions the one with the higher score has the greater key, of two with the same score
/// the one that expires earlier, and of two that agree in both the one that was inserted earlier.
pub proof fn law_better_transactions_have_greater_keys(a: MempoolTransaction, b: MempoolTransaction)
    ensures
        a.ranking_score > b.ranking_score ==> queue_order(queue_key(a), queue_key(b))
            == Ordering::Greater,
        a.ranking_score == b.ranking_score && a.expiration_time.nanos < b.expiration_time.nanos
            ==> queue_order(queue_key(a), queue_key(b)) == Ordering::Greater,
        a.ranking_score == b.ranking_score && a.expiration_time == b.expiration_time
            && a.insertion_info.insertion_time.nanos < b.insertion_info.insertion_time.nanos
            ==> queue_order(queue_key(a), queue_key(b)) == Ordering::Greater,
{
}

/// Keys that agree in score and times are ordered by address, then by replay protector, then by
/// hash.
pub proof fn law_ties_are_broken_by_name(a: OrderedQueueKey, b: OrderedQueueKey)
    requires
        a.gas_ranking_score == b.gas_ranking_score,
        a.expiration_time == b.expiration_time,
        a.insertion_time == b.insertion_time,
    ensures
        a.address.is_before(&b.address) ==> queue_order(a, b) == Ordering::Less,
        a.address == b.address && a.replay_protector.is_before(&b.replay_protector) ==> queue_order(
            a,
            b,
        ) == Ordering::Less,
        a.address == b.address && a.replay_protector == b.replay_protector && a.hash.is_before(
            &b.hash,
        ) ==> queue_order(a, b) == Ordering::Less,
{
}

/// Where two transactions of different scores are both listed, the one with the higher score is
/// listed first.
pub proof fn law_higher_scores_are_listed_first(
    keys: Seq<OrderedQueueKey>,
    a: MempoolTransaction,
    b: MempoolTransaction,
    i: int,
    j: int,
)
    requires
        highest_first(keys),
        0 <= i < keys.len(),
        0 <= j < keys.len(),
        keys[i] == queue_key(a),
        keys[j] == queue_key(b),
        a.ranking_score > b.ranking_score,
    ensures
        i < j,
{
    if j < i {
        assert(queue_order(keys[j], keys[i]) == Ordering::Greater);
    }
}

/// A listing is just one in which each key is greater than every later one.
pub proof fn law_listings_fall(keys: Seq<OrderedQueueKey>)
    ensures
        highest_first(keys) <==> forall|i: int, j: int|
            0 <= i < j < keys.len() ==> queue_order(#[trigger] keys[i], #[trigger] keys[j])
                == Ordering::Greater,
{
}

/// Comparing two keys with an operator is comparing them by priority.
pub proof fn law_operators_compare_by_priority(a: OrderedQueueKey, b: OrderedQueueKey)
    ensures
        a.partial_cmp_spec(&b) == Some(queue_order(a, b)),
{
}

/// The pointer to the transaction of a key has the sender, the replay protector and the hash of the
/// key, so it is the pointer to the transaction.
pub proof fn law_a_key_points_to_its_transaction(txn: &MempoolTransaction)
    ensures
        ({
            let by_key: TransactionSummary = FromSpec::from_spec(&queue_key(*txn));
            let by_txn: TransactionSummary = FromSpec::from_spec(txn);
            &&& by_key == by_txn
            &&& by_key.sender == txn.txn.sender
            &&& by_key.replay_protector == txn.sequence_info.transaction_replay_protector
            &&& by_key.hash == txn.txn.committed_hash
        }),
{
}

} // verus!
