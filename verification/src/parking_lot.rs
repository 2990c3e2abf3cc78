//! The index of transactions that cannot be included in the next block yet.

use crate::order::{has_rank, lex_before, without_rank, OrderedMap, OrderedSet, SortKey};
use crate::transaction::{
    AccountAddress, HashValue, MempoolTransaction, ReplayProtector, SystemTime, TxnPointer,
};
use rand::seq::SliceRandom;
use vstd::prelude::*;

verus! {

/// The parked transactions of each account, by sequence number and hash.
pub type Lot = Map<AccountAddress, Set<(u64, HashValue)>>;

/// The parked transactions of an account.
pub open spec fn parked_of(lot: Lot, account: AccountAddress) -> Set<(u64, HashValue)> {
    if lot.contains_key(account) {
        lot[account]
    } else {
        Set::empty()
    }
}

/// The lot with one more transaction of an account.
pub open spec fn lot_with(lot: Lot, account: AccountAddress, item: (u64, HashValue)) -> Lot {
    lot.insert(account, parked_of(lot, account).insert(item))
}

/// The lot without a transaction of an account. An account without transactions has no place in
/// it.
pub open spec fn lot_without(lot: Lot, account: AccountAddress, item: (u64, HashValue)) -> Lot {
    if !lot.contains_key(account) {
        lot
    } else if lot[account].remove(item) == Set::<(u64, HashValue)>::empty() {
        lot.remove(account)
    } else {
        lot.insert(account, lot[account].remove(item))
    }
}

/// The lot after a transaction was parked. An orderless transaction is always ready, so it is not
/// parked.
pub open spec fn lot_after_insert(lot: Lot, txn: MempoolTransaction) -> Lot {
    match txn.sequence_info.transaction_replay_protector {
        ReplayProtector::SequenceNumber(number) => lot_with(
            lot,
            txn.txn.sender,
            (number, txn.txn.committed_hash),
        ),
        ReplayProtector::Nonce(_) => lot,
    }
}

/// The lot after a transaction was taken out.
pub open spec fn lot_after_remove(lot: Lot, txn: MempoolTransaction) -> Lot {
    match txn.sequence_info.transaction_replay_protector {
        ReplayProtector::SequenceNumber(_) => lot_without(
            lot,
            txn.txn.sender,
            (txn.txn.sequence_number, txn.txn.committed_hash),
        ),
        ReplayProtector::Nonce(_) => lot,
    }
}

/// The transaction after it was parked at the time `now`: it keeps the time at which it was parked
/// first.
pub open spec fn made_parked(txn: MempoolTransaction, now: SystemTime) -> MempoolTransaction {
    match txn.sequence_info.transaction_replay_protector {
        ReplayProtector::SequenceNumber(_) => MempoolTransaction {
            insertion_info: crate::transaction::InsertionInfo {
                park_time: match txn.insertion_info.park_time {
                    Some(time) => Some(time),
                    None => Some(now),
                },
                ..txn.insertion_info
            },
            was_parked: true,
            ..txn
        },
        ReplayProtector::Nonce(_) => txn,
    }
}

/// Whether a transaction is in the lot.
pub open spec fn is_parked(
    lot: Lot,
    account: AccountAddress,
    replay_protector: ReplayProtector,
    hash: HashValue,
) -> bool {
    match replay_protector {
        ReplayProtector::SequenceNumber(number) => parked_of(lot, account).contains((number, hash)),
        ReplayProtector::Nonce(_) => false,
    }
}

/// Whether `item` has the highest sequence number of `txns`, and among those the highest hash.
pub open spec fn is_highest(txns: Set<(u64, HashValue)>, item: (u64, HashValue)) -> bool {
    &&& txns.contains(item)
    &&& forall|other: (u64, HashValue)| #[trigger]
        txns.contains(other) ==> other == item || other.0 < item.0 || (other.0 == item.0
            && other.1.is_before(&item.1))
}

/// Whether each account of the lot has at least one transaction there.
pub open spec fn no_empty_accounts(lot: Lot) -> bool {
    forall|a: AccountAddress| #[trigger]
        lot.contains_key(a) ==> lot[a] != Set::<(u64, HashValue)>::empty()
}

/// `rand::seq::SliceRandom::choose`, with the generator of `rand::thread_rng`, picks an element of
/// a slice at random. All that is claimed is that it picks one of the elements if there are any,
/// and nothing otherwise: which one is left to chance.
#[verifier::external_body]
fn choose_at_random(addresses: &Vec<AccountAddress>) -> (chosen: Option<AccountAddress>)
    ensures
        match chosen {
            Some(address) => addresses@.contains(address),
            None => addresses.len() == 0,
        },
{
    addresses.choose(&mut rand::thread_rng()).copied()
}

/// Keeps track of transactions that are not ready, e.g. because their sequence number is too high,
/// so that they can be evicted when the mempool is full.
pub struct ParkingLotIndex {
    data: OrderedMap<AccountAddress, OrderedSet<(u64, HashValue)>>,
}

impl View for ParkingLotIndex {
    type V = Map<AccountAddress, Set<(u64, HashValue)>>;

    closed spec fn view(&self) -> Map<AccountAddress, Set<(u64, HashValue)>> {
        Map::new(
            |a: AccountAddress| self.data@.contains_key(a.rank()),
            |a: AccountAddress| self.data@[a.rank()]@,
        )
    }
}

impl ParkingLotIndex {
    /// Each account of the lot has at least one transaction there.
    pub closed spec fn wf(&self) -> bool {
        &&& self.data.wf()
        &&& forall|rank: Seq<int>| #[trigger]
            self.data@.contains_key(rank) ==> self.data@[rank].wf() && self.data@[rank]@
                != Set::<(u64, HashValue)>::empty()
    }

    /// An empty lot.
    pub fn new() -> (index: Self)
        ensures
            index.wf(),
            index@ == Map::<AccountAddress, Set<(u64, HashValue)>>::empty(),
    {
        let index = ParkingLotIndex { data: OrderedMap::new() };
        proof {
            assert(index@ =~= Map::<AccountAddress, Set<(u64, HashValue)>>::empty());
        }
        index
    }

    /// Parks a transaction at the time `now`, and marks it.
    pub fn insert_at(&mut self, txn: &mut MempoolTransaction, now: SystemTime)
        requires
            old(self).wf(),
        ensures
            final(self).wf(),
            final(self)@ == lot_after_insert(old(self)@, *old(txn)),
            *final(txn) == made_parked(*old(txn), now),
    {
        match txn.sequence_info.transaction_replay_protector {
            ReplayProtector::SequenceNumber(sequence_num) => {
                if txn.insertion_info.park_time.is_none() {
                    txn.insertion_info.park_time = Some(now);
                }
                txn.was_parked = true;
                let sender = txn.txn.sender;
                let item: (u64, HashValue) = (sequence_num, txn.get_committed_hash());
                self.park(sender, item);
            },
            ReplayProtector::Nonce(_) => {},
        }
    }

    /// Adds a transaction to those of an account.
    fn park(&mut self, sender: AccountAddress, item: (u64, HashValue))
        requires
            old(self).wf(),
        ensures
            final(self).wf(),
            final(self)@ == lot_with(old(self)@, sender, item),
    {
        let ghost before = self.data@;
        let mut txns: OrderedSet<(u64, HashValue)> = match self.data.remove(&sender) {
            Some(txns) => txns,
            None => OrderedSet::new(),
        };
        proof {
            lemma_items(txns@, item);
        }
        txns.insert(item);
        self.data.insert(sender, txns);
        proof {
            lemma_addresses();
            assert(txns@ =~= parked_of(old(self)@, sender).insert(item));
            assert(txns@.contains(item));
            assert(self@ =~= lot_with(old(self)@, sender, item));
        }
    }

    /// Parks a transaction at the time that the wall clock shows, and marks it.
    pub fn insert(&mut self, txn: &mut MempoolTransaction)
        requires
            old(self).wf(),
        ensures
            final(self).wf(),
            final(self)@ == lot_after_insert(old(self)@, *old(txn)),
            exists|now: SystemTime|
                {
                    &&& call_ensures(SystemTime::now, (), now)
                    &&& *final(txn) == #[trigger] made_parked(*old(txn), now)
                },
    {
        let now = SystemTime::now();
        self.insert_at(txn, now);
    }

    /// Takes a transaction out.
    pub fn remove(&mut self, txn: &MempoolTransaction)
        requires
            old(self).wf(),
        ensures
            final(self).wf(),
            final(self)@ == lot_after_remove(old(self)@, *txn),
    {
        match txn.sequence_info.transaction_replay_protector {
            ReplayProtector::SequenceNumber(_) => {
                let sender = txn.txn.sender;
                let item: (u64, HashValue) = (txn.txn.sequence_number, txn.get_committed_hash());
                let left: bool = match self.data.get_mut(&sender) {
                    Some(txns) => {
                        proof {
                            lemma_items(txns@, item);
                        }
                        txns.remove(&item);
                        let count: usize = txns.len();
                        proof {
                            if count == 0 {
                                txns@.lemma_len0_is_empty();
                            }
                        }
                        count > 0
                    },
                    None => true,
                };
                if !left {
                    self.data.remove(&sender);
                }
                proof {
                    lemma_addresses();
                    assert(self@ =~= lot_after_remove(old(self)@, *txn));
                }
            },
            ReplayProtector::Nonce(_) => {},
        }
    }

    /// Whether a transaction is in the lot.
    pub fn contains(
        &self,
        account: &AccountAddress,
        replay_protector: ReplayProtector,
        hash: HashValue,
    ) -> (found: bool)
        requires
            self.wf(),
        ensures
            found == is_parked(self@, *account, replay_protector, hash),
    {
        match replay_protector {
            ReplayProtector::SequenceNumber(seq_num) => match self.data.get(account) {
                Some(txns) => {
                    proof {
                        lemma_items(txns@, (seq_num, hash));
                    }
                    txns.contains(&(seq_num, hash))
                },
                None => false,
            },
            ReplayProtector::Nonce(_) => false,
        }
    }

    /// A pointer to the parked transaction of an account with the highest sequence number.
    pub fn poppable_of(&self, sender: &AccountAddress) -> (pointer: Option<TxnPointer>)
        requires
            self.wf(),
        ensures
            match pointer {
                Some(p) => {
                    &&& self@.contains_key(*sender)
                    &&& p.sender == *sender
                    &&& p.replay_protector matches ReplayProtector::SequenceNumber(number)
                        && is_highest(self@[*sender], (number, p.hash))
                },
                None => !self@.contains_key(*sender),
            },
    {
        match self.data.get(sender) {
            Some(txns) => match txns.last() {
                Some(last) => {
                    let (number, hash) = *last;
                    proof {
                        let item = (number, hash);
                        assert forall|other: (u64, HashValue)| #[trigger]
                            self@[*sender].contains(other) implies other == item || other.0 < item.0
                            || (other.0 == item.0 && other.1.is_before(&item.1)) by {
                            lemma_item_order(other, item);
                        }
                    }
                    Some(
                        TxnPointer {
                            sender: *sender,
                            replay_protector: ReplayProtector::SequenceNumber(number),
                            hash,
                        },
                    )
                },
                None => None,
            },
            None => None,
        }
    }

    /// A pointer to a random transaction that is not ready: of a random account, the one with the
    /// highest sequence number.
    pub fn get_poppable(&self) -> (pointer: Option<TxnPointer>)
        requires
            self.wf(),
        ensures
            match pointer {
                Some(p) => {
                    &&& self@.contains_key(p.sender)
                    &&& p.replay_protector matches ReplayProtector::SequenceNumber(number)
                        && is_highest(self@[p.sender], (number, p.hash))
                },
                None => self@ == Map::<AccountAddress, Set<(u64, HashValue)>>::empty(),
            },
    {
        let addresses = self.data.to_keys();
        proof {
            self.lemma_accounts();
        }
        match choose_at_random(&addresses) {
            Some(sender) => {
                assert(addresses@.to_set().contains(sender));
                self.poppable_of(&sender)
            },
            None => {
                proof {
                    assert(addresses@.to_set() =~= Set::<AccountAddress>::empty());
                    assert(self@ =~= Map::<AccountAddress, Set<(u64, HashValue)>>::empty());
                }
                None
            },
        }
    }

    /// How many accounts have parked transactions.
    pub fn size(&self) -> (count: usize)
        requires
            self.wf(),
        ensures
            self@.dom().finite(),
            count == self@.dom().len(),
    {
        proof {
            self.lemma_accounts();
        }
        self.data.len()
    }

    /// The accounts with parked transactions, each with the number of them, in no particular order.
    pub fn get_addresses(&self) -> (addresses: Vec<(AccountAddress, u64)>)
        requires
            self.wf(),
        ensures
            forall|i: int, j: int|
                0 <= i < j < addresses.len() ==> (#[trigger] addresses[i]).0 != (
                #[trigger] addresses[j]).0,
            forall|i: int|
                0 <= i < addresses.len() ==> self@.contains_key((#[trigger] addresses[i]).0)
                    && self@[addresses[i].0].finite() && addresses[i].1
                    == self@[addresses[i].0].len(),
            forall|a: AccountAddress| #[trigger]
                self@.contains_key(a) ==> exists|i: int|
                    0 <= i < addresses.len() && (#[trigger] addresses[i]).0 == a,
    {
        let keys = self.data.to_keys();
        proof {
            self.lemma_accounts();
        }
        let mut addresses: Vec<(AccountAddress, u64)> = Vec::new();
        let mut next: usize = 0;
        while next < keys.len()
            invariant
                self.wf(),
                keys@.no_duplicates(),
                keys@.to_set() == self@.dom(),
                next <= keys.len(),
                addresses.len() == next,
                forall|i: int|
                    0 <= i < next ==> (#[trigger] addresses[i]).0 == keys[i]
                        && self@[addresses[i].0].finite() && addresses[i].1
                        == self@[addresses[i].0].len(),
            decreases keys.len() - next,
        {
            let address = keys[next];
            assert(keys@.to_set().contains(address));
            assert(self@.contains_key(address));
            if let Some(txns) = self.data.get(&address) {
                addresses.push((address, txns.len() as u64));
            }
            next = next + 1;
        }
        proof {
            assert forall|i: int| 0 <= i < addresses.len() implies self@.contains_key(
                (#[trigger] addresses[i]).0,
            ) by {
                assert(keys@.to_set().contains(keys[i]));
            }
            assert forall|a: AccountAddress| #[trigger] self@.contains_key(a) implies exists|i: int|
                0 <= i < addresses.len() && (#[trigger] addresses[i]).0 == a by {
                assert(keys@.to_set().contains(a));
                let i = choose|i: int| 0 <= i < keys.len() && keys[i] == a;
                assert(addresses[i].0 == a);
            }
        }
        addresses
    }

    /// Each account of the lot has at least one transaction there.
    pub proof fn law_no_empty_accounts(&self)
        requires
            self.wf(),
        ensures
            no_empty_accounts(self@),
    {
        assert forall|a: AccountAddress| #[trigger] self@.contains_key(a) implies self@[a]
            != Set::<(u64, HashValue)>::empty() by {
            assert(self.data@.contains_key(a.rank()));
        }
    }

    /// The accounts are the keys of the entries.
    proof fn lemma_accounts(&self)
        ensures
            self.data.key_set() == self@.dom(),
    {
        lemma_addresses();
        assert forall|a: AccountAddress| self.data.key_set().contains(a) == self@.contains_key(a) by {
            self.data.lemma_ranks(a.rank());
        }
        assert(self.data.key_set() =~= self@.dom());
    }
}

/// Different addresses have different ranks.
proof fn lemma_addresses()
    ensures
        forall|a: AccountAddress, b: AccountAddress| #[trigger] a.rank() == #[trigger] b.rank() ==> a
            == b,
{
    assert forall|a: AccountAddress, b: AccountAddress| #[trigger]
        a.rank() == #[trigger] b.rank() implies a == b by {
        assert(a.rank()[0] == b.rank()[0]);
        assert(a.rank()[1] == b.rank()[1]);
    }
}

/// The order of the ranks of two transactions, and that only equal ones have equal ranks.
proof fn lemma_item_order(a: (u64, HashValue), b: (u64, HashValue))
    ensures
        (a.rank() == b.rank()) == (a == b),
        lex_before(a.rank(), b.rank()) == (a.0 < b.0 || (a.0 == b.0 && a.1.is_before(&b.1))),
{
    reveal_with_fuel(lex_before, 4);
    if a.rank() == b.rank() {
        assert(a.rank()[0] == b.rank()[0]);
        assert(a.rank()[1] == b.rank()[1]);
        assert(a.rank()[2] == b.rank()[2]);
    }
}

/// A set of transactions holds a rank just if it holds the transaction of that rank.
proof fn lemma_items(txns: Set<(u64, HashValue)>, item: (u64, HashValue))
    ensures
        has_rank(txns, item.rank()) == txns.contains(item),
        without_rank(txns, item.rank()) == txns.remove(item),
{
    assert forall|other: (u64, HashValue)| (other.rank() == item.rank()) == (other == item) by {
        lemma_item_order(other, item);
    }
    assert(without_rank(txns, item.rank()) =~= txns.remove(item));
}

/// Taking a transaction out right after it was parked leaves the lot as it was.
pub proof fn law_remove_undoes_insert(lot: Lot, txn: MempoolTransaction, now: SystemTime)
    requires
        no_empty_accounts(lot),
        txn.wf(),
        !is_parked(
            lot,
            txn.txn.sender,
            txn.sequence_info.transaction_replay_protector,
            txn.txn.committed_hash,
        ),
    ensures
        lot_after_remove(lot_after_insert(lot, txn), made_parked(txn, now)) == lot,
{
    if let ReplayProtector::SequenceNumber(number) = txn.sequence_info.transaction_replay_protector {
        let item = (number, txn.txn.committed_hash);
        let before = parked_of(lot, txn.txn.sender);
        assert(before.insert(item).remove(item) =~= before);
        assert(lot_after_remove(lot_after_insert(lot, txn), made_parked(txn, now)) =~= lot);
    }
}

/// A parked transaction is found, and one that was taken out is not.
pub proof fn law_insert_is_found_and_remove_is_gone(lot: Lot, txn: MempoolTransaction)
    requires
        txn.wf(),
        txn.sequence_info.transaction_replay_protector is SequenceNumber,
    ensures
        is_parked(
            lot_after_insert(lot, txn),
            txn.txn.sender,
            txn.sequence_info.transaction_replay_protector,
            txn.txn.committed_hash,
        ),
        !is_parked(
            lot_after_remove(lot, txn),
            txn.txn.sender,
            txn.sequence_info.transaction_replay_protector,
            txn.txn.committed_hash,
        ),
{
}

/// Parking or taking out a transaction leaves every other one where it is.
pub proof fn law_others_are_kept(
    lot: Lot,
    txn: MempoolTransaction,
    account: AccountAddress,
    replay_protector: ReplayProtector,
    hash: HashValue,
)
    requires
        txn.wf(),
        account != txn.txn.sender || replay_protector
            != txn.sequence_info.transaction_replay_protector || hash != txn.txn.committed_hash,
    ensures
        is_parked(lot_after_insert(lot, txn), account, replay_protector, hash) == is_parked(
            lot,
            account,
            replay_protector,
            hash,
        ),
        is_parked(lot_after_remove(lot, txn), account, replay_protector, hash) == is_parked(
            lot,
            account,
            replay_protector,
            hash,
        ),
{
    if let ReplayProtector::SequenceNumber(number) = replay_protector {
        let item = (txn.txn.sequence_number, txn.txn.committed_hash);
        if lot.contains_key(txn.txn.sender) && account == txn.txn.sender
            && lot[account].contains((number, hash)) && (number, hash) != item {
            assert(lot[account].remove(item).contains((number, hash)));
        }
    }
}

/// An orderless transaction is never in the lot, and parking it or taking it out changes nothing.
pub proof fn law_orderless_is_never_parked(
    lot: Lot,
    txn: MempoolTransaction,
    now: SystemTime,
    nonce: u64,
)
    requires
        txn.sequence_info.transaction_replay_protector == ReplayProtector::Nonce(nonce),
    ensures
        lot_after_insert(lot, txn) == lot,
        lot_after_remove(lot, txn) == lot,
        made_parked(txn, now) == txn,
        !is_parked(
            lot,
            txn.txn.sender,
            txn.sequence_info.transaction_replay_protector,
            txn.txn.committed_hash,
        ),
{
}

/// A transaction keeps the time at which it was parked first.
pub proof fn law_first_park_time_is_kept(
    txn: MempoolTransaction,
    first: SystemTime,
    second: SystemTime,
)
    ensures
        made_parked(made_parked(txn, first), second) == made_parked(txn, first),
{
}

/// An account has at most one transaction to pop.
pub proof fn law_highest_is_unique(
    txns: Set<(u64, HashValue)>,
    a: (u64, HashValue),
    b: (u64, HashValue),
)
    requires
        is_highest(txns, a),
        is_highest(txns, b),
    ensures
        a == b,
{
}

/// A transaction is in the lot just if its account has it there by sequence number and hash.
pub proof fn law_parked_by_number_and_hash(
    lot: Lot,
    account: AccountAddress,
    number: u64,
    hash: HashValue,
)
    ensures
        is_parked(lot, account, ReplayProtector::SequenceNumber(number), hash) <==> (
        lot.contains_key(account) && lot[account].contains((number, hash))),
{
}

/// Parking a transaction with a sequence number adds it to those of its sender, and adds nothing
/// else.
pub proof fn law_parking_adds_one(
    lot: Lot,
    txn: MempoolTransaction,
    number: u64,
    account: AccountAddress,
    item: (u64, HashValue),
)
    requires
        txn.sequence_info.transaction_replay_protector == ReplayProtector::SequenceNumber(number),
    ensures
        ({
            let after = lot_after_insert(lot, txn);
            &&& after.contains_key(account) <==> lot.contains_key(account) || account
                == txn.txn.sender
            &&& after.contains_key(account) && after[account].contains(item) <==> (
            lot.contains_key(account) && lot[account].contains(item)) || (account == txn.txn.sender
                && item.0 == number && item.1 == txn.txn.committed_hash)
        }),
{
}

/// Taking out a transaction with a sequence number takes it from those of its sender, and takes
/// nothing else. The sender stays just as long as it has transactions left.
pub proof fn law_taking_out_takes_one(
    lot: Lot,
    txn: MempoolTransaction,
    account: AccountAddress,
    item: (u64, HashValue),
)
    requires
        no_empty_accounts(lot),
        txn.sequence_info.transaction_replay_protector is SequenceNumber,
    ensures
        ({
            let after = lot_after_remove(lot, txn);
            &&& after.contains_key(account) && after[account].contains(item) <==> (
            lot.contains_key(account) && lot[account].contains(item)) && !(account
                == txn.txn.sender && item.0 == txn.txn.sequence_number && item.1
                == txn.txn.committed_hash)
            &&& after.contains_key(account) <==> exists|left: (u64, HashValue)|
                {
                    &&& lot.contains_key(account)
                    &&& #[trigger] lot[account].contains(left)
                    &&& !(account == txn.txn.sender && left.0 == txn.txn.sequence_number && left.1
                        == txn.txn.committed_hash)
                }
        }),
{
    let after = lot_after_remove(lot, txn);
    let taken = (txn.txn.sequence_number, txn.txn.committed_hash);
    if lot.contains_key(account) {
        let rest = if account == txn.txn.sender {
            lot[account].remove(taken)
        } else {
            lot[account]
        };
        if rest != Set::<(u64, HashValue)>::empty() {
            assert(exists|left: (u64, HashValue)| #[trigger] rest.contains(left)) by {
                if forall|left: (u64, HashValue)| !#[trigger] rest.contains(left) {
                    assert(rest =~= Set::<(u64, HashValue)>::empty());
                }
            }
            let left = choose|left: (u64, HashValue)| #[trigger] rest.contains(left);
            assert(lot[account].contains(left));
        } else {
            assert forall|left: (u64, HashValue)| #[trigger]
                lot[account].contains(left) implies account == txn.txn.sender && left == taken by {
                assert(!rest.contains(left));
            }
        }
        if rest.contains(item) {
            assert(rest != Set::<(u64, HashValue)>::empty());
        }
    }
}

/// A lot has no empty accounts just if each of its accounts has a transaction.
pub proof fn law_accounts_have_transactions(lot: Lot, account: AccountAddress)
    requires
        no_empty_accounts(lot),
        lot.contains_key(account),
    ensures
        exists|item: (u64, HashValue)| #[trigger] lot[account].contains(item),
{
    if forall|item: (u64, HashValue)| !#[trigger] lot[account].contains(item) {
        assert(lot[account] =~= Set::<(u64, HashValue)>::empty());
    }
}

/// A parked transaction is marked, keeps its first park time or else takes the present time, and is
/// otherwise as it was.
pub proof fn law_parking_marks_the_transaction(txn: MempoolTransaction, now: SystemTime)
    requires
        txn.sequence_info.transaction_replay_protector is SequenceNumber,
    ensures
        made_parked(txn, now).was_parked,
        txn.insertion_info.park_time is None ==> made_parked(txn, now).insertion_info.park_time
            == Some(now),
        txn.insertion_info.park_time is Some ==> made_parked(txn, now).insertion_info.park_time
            == txn.insertion_info.park_time,
        made_parked(txn, now).insertion_info.insertion_time == txn.insertion_info.insertion_time,
        made_parked(txn, now).txn == txn.txn,
        made_parked(txn, now).expiration_time == txn.expiration_time,
        made_parked(txn, now).ranking_score == txn.ranking_score,
        made_parked(txn, now).timeline_state == txn.timeline_state,
        made_parked(txn, now).sequence_info == txn.sequence_info,
{
}

/// The transaction to pop is one of the account, no other has a higher sequence number, and none with
/// the same number a higher hash.
pub proof fn law_none_is_higher_than_the_highest(
    txns: Set<(u64, HashValue)>,
    highest: (u64, HashValue),
    other: (u64, HashValue),
)
    requires
        is_highest(txns, highest),
        txns.contains(other),
    ensures
        txns.contains(highest),
        other.0 <= highest.0,
        other.0 == highest.0 ==> other.1 == highest.1 || other.1.is_before(&highest.1),
{
}

} // verus!
