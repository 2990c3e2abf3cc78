//! The index by which the mempool finds transactions that have outlived their time.

use crate::order::{
    ascending, has_rank, law_ascending_listing_is_unique, lemma_lex_irreflexive, lemma_lex_total,
    lemma_lex_transitive, lex_before, without_rank, OrderedSet, SortKey,
};
use crate::transaction::{AccountAddress, Duration, MempoolTransaction, ReplayProtector};
use std::cmp::Ordering;
use vstd::prelude::*;
use vstd::std_specs::cmp::PartialOrdSpec;

verus! {

/// A logical reference to a transaction of the main store, ordered by expiration time.
#[derive(Clone, Copy, Debug, PartialEq, Eq, Structural)]
pub struct TTLOrderingKey {
    pub expiration_time: Duration,
    pub address: AccountAddress,
    pub replay_protector: ReplayProtector,
}

/// How two keys compare: by expiration time, then by address, then by replay protector.
pub open spec fn ttl_order(a: TTLOrderingKey, b: TTLOrderingKey) -> Ordering {
    if a.expiration_time != b.expiration_time {
        if a.expiration_time.nanos < b.expiration_time.nanos {
            Ordering::Less
        } else {
            Ordering::Greater
        }
    } else if a.address != b.address {
        if a.address.is_before(&b.address) {
            Ordering::Less
        } else {
            Ordering::Greater
        }
    } else if a.replay_protector != b.replay_protector {
        if a.replay_protector.is_before(&b.replay_protector) {
            Ordering::Less
        } else {
            Ordering::Greater
        }
    } else {
        Ordering::Equal
    }
}

impl TTLOrderingKey {
    /// Compares by expiration time first.
    pub fn cmp(&self, other: &TTLOrderingKey) -> (order: Ordering)
        ensures
            order == ttl_order(*self, *other),
    {
        if self.expiration_time != other.expiration_time {
            return if self.expiration_time.nanos < other.expiration_time.nanos {
                Ordering::Less
            } else {
                Ordering::Greater
            };
        }
        if self.address != other.address {
            return if self.address.precedes(&other.address) {
                Ordering::Less
            } else {
                Ordering::Greater
            };
        }
        if self.replay_protector != other.replay_protector {
            return if self.replay_protector.precedes(&other.replay_protector) {
                Ordering::Less
            } else {
                Ordering::Greater
            };
        }
        Ordering::Equal
    }
}

impl PartialOrd for TTLOrderingKey {
    fn partial_cmp(&self, other: &TTLOrderingKey) -> (order: Option<Ordering>) {
        Some(self.cmp(other))
    }
}

impl vstd::std_specs::cmp::PartialOrdSpecImpl for TTLOrderingKey {
    open spec fn obeys_partial_cmp_spec() -> bool {
        true
    }

    open spec fn partial_cmp_spec(&self, other: &TTLOrderingKey) -> Option<Ordering> {
        Some(ttl_order(*self, *other))
    }
}

impl SortKey for TTLOrderingKey {
    open spec fn rank(&self) -> Seq<int> {
        seq![
            self.expiration_time.nanos as int,
            self.address.rank()[0],
            self.address.rank()[1],
            self.replay_protector.rank()[0],
            self.replay_protector.rank()[1],
        ]
    }

    fn precedes(&self, other: &Self) -> (before: bool) {
        proof {
            lemma_ttl_rank(*self, *other);
        }
        match self.cmp(other) {
            Ordering::Less => true,
            _ => false,
        }
    }
}

/// The order of the ranks of two keys is their own order, and keys of equal rank are equal.
proof fn lemma_ttl_rank(a: TTLOrderingKey, b: TTLOrderingKey)
    ensures
        lex_before(a.rank(), b.rank()) == (ttl_order(a, b) == Ordering::Less),
        (a.rank() == b.rank()) == (a == b),
        (ttl_order(a, b) == Ordering::Equal) == (a == b),
        lex_before(b.rank(), a.rank()) == (ttl_order(a, b) == Ordering::Greater),
{
    reveal_with_fuel(lex_before, 6);
    lemma_lex_irreflexive(a.rank());
    lemma_lex_total(a.rank(), b.rank());
    if lex_before(a.rank(), b.rank()) && lex_before(b.rank(), a.rank()) {
        lemma_lex_transitive(a.rank(), b.rank(), a.rank());
    }
    if a.rank() == b.rank() {
        assert(a.rank()[0] == b.rank()[0]);
        assert(a.rank()[1] == b.rank()[1]);
        assert(a.rank()[2] == b.rank()[2]);
        assert(a.rank()[3] == b.rank()[3]);
        assert(a.rank()[4] == b.rank()[4]);
        assert(a.address == b.address);
        assert(a.replay_protector == b.replay_protector);
    }
}

/// The key of a transaction that expires at the given time.
pub open spec fn ttl_key(txn: MempoolTransaction, expiration_time: Duration) -> TTLOrderingKey {
    TTLOrderingKey {
        expiration_time,
        address: txn.txn.sender,
        replay_protector: txn.sequence_info.transaction_replay_protector,
    }
}

/// Whether each key of `keys` is less than every later one.
pub open spec fn soonest_first(keys: Seq<TTLOrderingKey>) -> bool {
    forall|i: int, j: int|
        0 <= i < j < keys.len() ==> ttl_order(#[trigger] keys[i], #[trigger] keys[j])
            == Ordering::Less
}

/// The expiration time, in nanoseconds, below which a collection at `now` takes transactions:
/// one microsecond before `now`, or zero.
pub open spec fn collection_limit(now: Duration) -> int {
    if now.nanos >= 1000 {
        now.nanos - 1000
    } else {
        0
    }
}

/// The keys that a collection at `now` takes.
pub open spec fn collected(keys: Set<TTLOrderingKey>, now: Duration) -> Set<TTLOrderingKey> {
    keys.filter(|k: TTLOrderingKey| k.expiration_time.nanos < collection_limit(now))
}

/// The keys that a collection at `now` leaves.
pub open spec fn left_active(keys: Set<TTLOrderingKey>, now: Duration) -> Set<TTLOrderingKey> {
    keys.filter(|k: TTLOrderingKey| k.expiration_time.nanos >= collection_limit(now))
}

/// The transactions of the mempool by expiration time, which `F` reads off a transaction. A job
/// asks it from time to time for the transactions that have to go.
pub struct TTLIndex<F> {
    data: OrderedSet<TTLOrderingKey>,
    get_expiration_time: Box<F>,
}

impl<F> View for TTLIndex<F> {
    type V = Set<TTLOrderingKey>;

    closed spec fn view(&self) -> Set<TTLOrderingKey> {
        self.data@
    }
}

impl<F: Fn(&MempoolTransaction) -> Duration> TTLIndex<F> {
    /// The keys are in order, and every transaction has an expiration time.
    pub closed spec fn wf(&self) -> bool {
        &&& self.data.wf()
        &&& forall|txn: &MempoolTransaction| call_requires(self.get_expiration_time, (txn,))
    }

    /// What gives a transaction its expiration time.
    pub closed spec fn timer(&self) -> F {
        *self.get_expiration_time
    }

    /// An empty index.
    pub fn new(get_expiration_time: Box<F>) -> (index: Self)
        requires
            forall|txn: &MempoolTransaction| call_requires(*get_expiration_time, (txn,)),
        ensures
            index.wf(),
            index.timer() == *get_expiration_time,
            index@ == Set::<TTLOrderingKey>::empty(),
    {
        TTLIndex { data: OrderedSet::new(), get_expiration_time }
    }

    /// Adds a transaction.
    pub fn insert(&mut self, txn: &MempoolTransaction)
        requires
            old(self).wf(),
        ensures
            final(self).wf(),
            final(self).timer() == old(self).timer(),
            exists|t: Duration|
                {
                    &&& #[trigger] call_ensures(old(self).timer(), (txn,), t)
                    &&& final(self)@ == old(self)@.insert(ttl_key(*txn, t))
                },
    {
        let key = self.make_key(txn);
        proof {
            lemma_ttl_sets(self@, key);
        }
        self.data.insert(key);
        proof {
            assert(self@ =~= old(self)@.insert(key));
        }
    }

    /// Drops a transaction.
    pub fn remove(&mut self, txn: &MempoolTransaction)
        requires
            old(self).wf(),
        ensures
            final(self).wf(),
            final(self).timer() == old(self).timer(),
            exists|t: Duration|
                {
                    &&& #[trigger] call_ensures(old(self).timer(), (txn,), t)
                    &&& final(self)@ == old(self)@.remove(ttl_key(*txn, t))
                },
    {
        let key = self.make_key(txn);
        proof {
            lemma_ttl_sets(self@, key);
        }
        self.data.remove(&key);
    }

    /// Takes all old transactions out, the soonest to expire first.
    pub fn gc(&mut self, now: Duration) -> (taken: Vec<TTLOrderingKey>)
        requires
            old(self).wf(),
        ensures
            final(self).wf(),
            final(self).timer() == old(self).timer(),
            soonest_first(taken@),
            taken@.to_set() == collected(old(self)@, now),
            final(self)@ == left_active(old(self)@, now),
    {
        let limit: u128 = if now.nanos >= 1000 {
            now.nanos - 1000
        } else {
            0
        };
        let bound = TTLOrderingKey {
            expiration_time: Duration { nanos: limit },
            address: AccountAddress::zero(),
            replay_protector: ReplayProtector::Nonce(0),
        };
        let taken = self.data.take_before(&bound);
        proof {
            lemma_before_least_key(bound);
            assert(taken@.to_set() =~= collected(old(self)@, now));
            assert(self@ =~= left_active(old(self)@, now));
            lemma_soonest_first(taken@);
        }
        taken
    }

    /// The key of a transaction.
    fn make_key(&self, txn: &MempoolTransaction) -> (key: TTLOrderingKey)
        requires
            self.wf(),
        ensures
            call_ensures(self.timer(), (txn,), key.expiration_time),
            key == ttl_key(*txn, key.expiration_time),
    {
        TTLOrderingKey {
            expiration_time: (self.get_expiration_time)(txn),
            address: txn.get_sender(),
            replay_protector: txn.sequence_info.transaction_replay_protector,
        }
    }

    /// The keys, the soonest to expire first.
    pub fn iter(&self) -> (keys: Vec<TTLOrderingKey>)
        requires
            self.wf(),
        ensures
            soonest_first(keys@),
            keys@.to_set() == self@,
    {
        let keys = self.data.to_ascending();
        proof {
            lemma_soonest_first(keys@);
        }
        keys
    }

    /// How many transactions the index holds.
    pub fn size(&self) -> (count: usize)
        requires
            self.wf(),
        ensures
            self@.finite(),
            count == self@.len(),
    {
        self.data.len()
    }
}

/// A set of keys holds a rank just if it holds the key of that rank.
proof fn lemma_ttl_sets(keys: Set<TTLOrderingKey>, key: TTLOrderingKey)
    ensures
        has_rank(keys, key.rank()) == keys.contains(key),
        without_rank(keys, key.rank()) == keys.remove(key),
{
    assert forall|k: TTLOrderingKey| (k.rank() == key.rank()) == (k == key) by {
        lemma_ttl_rank(k, key);
    }
    assert(without_rank(keys, key.rank()) =~= keys.remove(key));
}

/// Nothing with the expiration time of `bound` comes before it, since it has the least address
/// and the least replay protector.
proof fn lemma_before_least_key(bound: TTLOrderingKey)
    requires
        bound.address.high == 0,
        bound.address.low == 0,
        bound.replay_protector == ReplayProtector::Nonce(0),
    ensures
        forall|k: TTLOrderingKey| #[trigger]
            lex_before(k.rank(), bound.rank()) == (k.expiration_time.nanos
                < bound.expiration_time.nanos),
{
    assert forall|k: TTLOrderingKey| #[trigger]
        lex_before(k.rank(), bound.rank()) == (k.expiration_time.nanos
            < bound.expiration_time.nanos) by {
        lemma_ttl_rank(k, bound);
    }
}

/// Keys of rising ranks are listed the soonest to expire first.
proof fn lemma_soonest_first(keys: Seq<TTLOrderingKey>)
    ensures
        soonest_first(keys) == ascending(keys),
{
    assert forall|i: int, j: int| 0 <= i < j < keys.len() implies (ttl_order(
        #[trigger] keys[i],
        #[trigger] keys[j],
    ) == Ordering::Less) == lex_before(keys[i].rank(), keys[j].rank()) by {
        lemma_ttl_rank(keys[i], keys[j]);
    }
}

/// The order of the keys is total: swapping two keys reverses it, it is transitive, and only
/// equal keys compare equal.
pub proof fn law_ttl_order_is_total(a: TTLOrderingKey, b: TTLOrderingKey, c: TTLOrderingKey)
    ensures
        (ttl_order(a, b) == Ordering::Less) == (ttl_order(b, a) == Ordering::Greater),
        ttl_order(a, b) == Ordering::Less && ttl_order(b, c) == Ordering::Less ==> ttl_order(a, c)
            == Ordering::Less,
        (ttl_order(a, b) == Ordering::Equal) == (a == b),
{
    lemma_ttl_rank(a, b);
    lemma_ttl_rank(b, a);
    lemma_ttl_rank(b, c);
    lemma_ttl_rank(a, c);
    if ttl_order(a, b) == Ordering::Less && ttl_order(b, c) == Ordering::Less {
        lemma_lex_transitive(a.rank(), b.rank(), c.rank());
    }
}

/// Keys are listed by expiration time.
pub proof fn law_listed_by_expiration(keys: Seq<TTLOrderingKey>, i: int, j: int)
    requires
        soonest_first(keys),
        0 <= i < j < keys.len(),
    ensures
        keys[i].expiration_time.nanos <= keys[j].expiration_time.nanos,
{
    assert(ttl_order(keys[i], keys[j]) == Ordering::Less);
}

/// The set of keys fixes the order in which they are listed.
pub proof fn law_listing_is_unique(a: Seq<TTLOrderingKey>, b: Seq<TTLOrderingKey>)
    requires
        soonest_first(a),
        soonest_first(b),
        a.to_set() == b.to_set(),
    ensures
        a == b,
{
    lemma_soonest_first(a);
    lemma_soonest_first(b);
    law_ascending_listing_is_unique(a, b);
}

/// A collection splits the keys in two: what it takes has expired before `now`, it leaves all the
/// rest, and what it leaves can have expired at most a microsecond before `now`.
pub proof fn law_collection_splits(keys: Set<TTLOrderingKey>, now: Duration, key: TTLOrderingKey)
    ensures
        keys.contains(key) == (collected(keys, now).contains(key) || left_active(
            keys,
            now,
        ).contains(key)),
        !(collected(keys, now).contains(key) && left_active(keys, now).contains(key)),
        collected(keys, now).contains(key) ==> key.expiration_time.nanos + 1000 < now.nanos,
        left_active(keys, now).contains(key) ==> key.expiration_time.nanos + 1000 >= now.nanos,
{
}

/// Collecting again at the same time or earlier takes nothing more.
pub proof fn law_second_collection_is_empty(
    keys: Set<TTLOrderingKey>,
    now: Duration,
    earlier: Duration,
)
    requires
        earlier.nanos <= now.nanos,
    ensures
        collected(left_active(keys, now), earlier) == Set::<TTLOrderingKey>::empty(),
        left_active(left_active(keys, now), earlier) == left_active(keys, now),
{
    assert(collected(left_active(keys, now), earlier) =~= Set::<TTLOrderingKey>::empty());
    assert(left_active(left_active(keys, now), earlier) =~= left_active(keys, now));
}

/// Removing a transaction undoes its insertion, as long as it has the same expiration time.
pub proof fn law_remove_undoes_insert(
    keys: Set<TTLOrderingKey>,
    txn: MempoolTransaction,
    expiration_time: Duration,
)
    requires
        !keys.contains(ttl_key(txn, expiration_time)),
    ensures
        keys.insert(ttl_key(txn, expiration_time)).remove(ttl_key(txn, expiration_time)) == keys,
{
    let key = ttl_key(txn, expiration_time);
    assert(keys.insert(key).remove(key) =~= keys);
}

/// A key holds the expiration time that it was made for, and the sender and the replay protector of
/// its transaction.
pub proof fn law_a_key_holds_its_transaction(txn: MempoolTransaction, expiration_time: Duration)
    ensures
        ttl_key(txn, expiration_time).expiration_time == expiration_time,
        ttl_key(txn, expiration_time).address == txn.txn.sender,
        ttl_key(txn, expiration_time).replay_protector
            == txn.sequence_info.transaction_replay_protector,
{
}

/// Keys are ordered by expiration time, then by address, then by replay protector.
pub proof fn law_keys_are_ordered_by_expiration_and_name(a: TTLOrderingKey, b: TTLOrderingKey)
    ensures
        a.expiration_time.nanos < b.expiration_time.nanos ==> ttl_order(a, b) == Ordering::Less,
        a.expiration_time == b.expiration_time && a.address.is_before(&b.address) ==> ttl_order(a, b)
            == Ordering::Less,
        a.expiration_time == b.expiration_time && a.address == b.address
            && a.replay_protector.is_before(&b.replay_protector) ==> ttl_order(a, b)
            == Ordering::Less,
        a.partial_cmp_spec(&b) == Some(ttl_order(a, b)),
{
}

/// A listing is just one in which each key is less than every later one.
pub proof fn law_listings_rise(keys: Seq<TTLOrderingKey>)
    ensures
        soonest_first(keys) <==> forall|i: int, j: int|
            0 <= i < j < keys.len() ==> ttl_order(#[trigger] keys[i], #[trigger] keys[j])
                == Ordering::Less,
{
}

/// A collection takes a transaction just if it expires more than a microsecond before `now`.
pub proof fn law_collection_takes_the_expired(
    keys: Set<TTLOrderingKey>,
    txn: MempoolTransaction,
    expiration_time: Duration,
    now: Duration,
)
    ensures
        ({
            let key = ttl_key(txn, expiration_time);
            let all = keys.insert(key);
            &&& collected(all, now).contains(key) <==> expiration_time.nanos + 1000 < now.nanos
            &&& left_active(all, now).contains(key) <==> expiration_time.nanos + 1000 >= now.nanos
        }),
{
}

} // verus!
