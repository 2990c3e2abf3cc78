//! The transactions of a mempool, and the values by which its indexes order and find them.

use crate::order::{lex_before, SortKey};
use vstd::prelude::*;
use vstd::std_specs::convert::FromSpec;

verus! {

/// The address of an account: 32 bytes, read as one number in big-endian order and split in two
/// halves, so that the order of addresses is that of their bytes.
#[derive(Clone, Copy, Debug, PartialEq, Eq, Structural, Hash)]
pub struct AccountAddress {
    /// The first 16 bytes.
    pub high: u128,
    /// The last 16 bytes.
    pub low: u128,
}

impl AccountAddress {
    /// The address whose bytes are all zero.
    pub fn zero() -> (address: Self)
        ensures
            address.high == 0,
            address.low == 0,
    {
        AccountAddress { high: 0, low: 0 }
    }
}

impl AccountAddress {
    /// Whether the bytes of `self` come before those of `other`.
    pub open spec fn is_before(&self, other: &Self) -> bool {
        self.high < other.high || (self.high == other.high && self.low < other.low)
    }
}

impl SortKey for AccountAddress {
    open spec fn rank(&self) -> Seq<int> {
        seq![self.high as int, self.low as int]
    }

    fn precedes(&self, other: &Self) -> (before: bool)
        ensures
            before == self.is_before(other),
    {
        proof {
            reveal_with_fuel(lex_before, 3);
        }
        self.high < other.high || (self.high == other.high && self.low < other.low)
    }
}

/// A 32-byte hash, split in halves as an address is.
#[derive(Clone, Copy, Debug, PartialEq, Eq, Structural, Hash)]
pub struct HashValue {
    /// The first 16 bytes.
    pub high: u128,
    /// The last 16 bytes.
    pub low: u128,
}

impl HashValue {
    /// Whether the bytes of `self` come before those of `other`.
    pub open spec fn is_before(&self, other: &Self) -> bool {
        self.high < other.high || (self.high == other.high && self.low < other.low)
    }
}

impl SortKey for HashValue {
    open spec fn rank(&self) -> Seq<int> {
        seq![self.high as int, self.low as int]
    }

    fn precedes(&self, other: &Self) -> (before: bool)
        ensures
            before == self.is_before(other),
    {
        proof {
            reveal_with_fuel(lex_before, 3);
        }
        self.high < other.high || (self.high == other.high && self.low < other.low)
    }
}

/// What keeps a transaction from being replayed. Nonces are ordered before sequence numbers.
#[derive(Clone, Copy, Debug, PartialEq, Eq, Structural, Hash)]
pub enum ReplayProtector {
    /// An orderless transaction.
    Nonce(u64),
    /// A transaction with its place among those of its sender.
    SequenceNumber(u64),
}

impl ReplayProtector {
    /// Whether `self` is ordered before `other`.
    pub open spec fn is_before(&self, other: &Self) -> bool {
        match (*self, *other) {
            (ReplayProtector::Nonce(a), ReplayProtector::Nonce(b)) => a < b,
            (ReplayProtector::Nonce(_), ReplayProtector::SequenceNumber(_)) => true,
            (ReplayProtector::SequenceNumber(_), ReplayProtector::Nonce(_)) => false,
            (ReplayProtector::SequenceNumber(a), ReplayProtector::SequenceNumber(b)) => a < b,
        }
    }
}

impl SortKey for ReplayProtector {
    open spec fn rank(&self) -> Seq<int> {
        match *self {
            ReplayProtector::Nonce(nonce) => seq![0, nonce as int],
            ReplayProtector::SequenceNumber(number) => seq![1, number as int],
        }
    }

    fn precedes(&self, other: &Self) -> (before: bool)
        ensures
            before == self.is_before(other),
    {
        proof {
            reveal_with_fuel(lex_before, 3);
        }
        match (*self, *other) {
            (ReplayProtector::Nonce(a), ReplayProtector::Nonce(b)) => a < b,
            (ReplayProtector::Nonce(_), ReplayProtector::SequenceNumber(_)) => true,
            (ReplayProtector::SequenceNumber(_), ReplayProtector::Nonce(_)) => false,
            (ReplayProtector::SequenceNumber(a), ReplayProtector::SequenceNumber(b)) => a < b,
        }
    }
}

impl SortKey for (u64, HashValue) {
    open spec fn rank(&self) -> Seq<int> {
        seq![self.0 as int, self.1.high as int, self.1.low as int]
    }

    fn precedes(&self, other: &Self) -> (before: bool) {
        proof {
            reveal_with_fuel(lex_before, 4);
        }
        self.0 < other.0 || (self.0 == other.0 && (self.1.high < other.1.high || (self.1.high
            == other.1.high && self.1.low < other.1.low)))
    }
}

/// A span of time, in nanoseconds. An expiration time is the span since the Unix epoch.
#[derive(Clone, Copy, Debug, PartialEq, Eq, Structural, Hash)]
pub struct Duration {
    pub nanos: u128,
}

/// A time of the wall clock, in nanoseconds from the Unix epoch, before it if negative.
#[derive(Clone, Copy, Debug, PartialEq, Eq, Structural, Hash)]
pub struct SystemTime {
    pub nanos: i128,
}

/// Where a transaction stands with regard to the timeline.
#[derive(Clone, Copy, Debug, PartialEq, Eq, Structural, Hash)]
pub enum TimelineState {
    /// It is on the timeline, under this id.
    Ready(u64),
    /// It may come onto the timeline later.
    NotReady,
    /// It never comes onto the timeline.
    NonQualified,
}

/// What the indexes read of a signed transaction.
#[derive(Clone, Copy, Debug, PartialEq, Eq, Structural, Hash)]
pub struct SignedTransaction {
    pub sender: AccountAddress,
    pub sequence_number: u64,
    pub committed_hash: HashValue,
}

/// How a transaction is sequenced.
#[derive(Clone, Copy, Debug, PartialEq, Eq, Structural, Hash)]
pub struct SequenceInfo {
    pub transaction_replay_protector: ReplayProtector,
}

/// When a transaction was inserted and parked.
#[derive(Clone, Copy, Debug, PartialEq, Eq, Structural, Hash)]
pub struct InsertionInfo {
    pub insertion_time: SystemTime,
    pub park_time: Option<SystemTime>,
}

/// A transaction of the mempool.
#[derive(Clone, Copy, Debug, PartialEq, Eq, Structural, Hash)]
pub struct MempoolTransaction {
    pub txn: SignedTransaction,
    /// When the mempool has to drop the transaction.
    pub expiration_time: Duration,
    pub ranking_score: u64,
    pub timeline_state: TimelineState,
    pub sequence_info: SequenceInfo,
    pub insertion_info: InsertionInfo,
    pub was_parked: bool,
}

impl MempoolTransaction {
    /// A sequence number that protects the transaction is the one it was signed with.
    pub open spec fn wf(&self) -> bool {
        self.sequence_info.transaction_replay_protector matches ReplayProtector::SequenceNumber(
            number,
        ) ==> number == self.txn.sequence_number
    }

    pub fn get_sender(&self) -> (sender: AccountAddress)
        ensures
            sender == self.txn.sender,
    {
        self.txn.sender
    }

    pub fn get_committed_hash(&self) -> (hash: HashValue)
        ensures
            hash == self.txn.committed_hash,
    {
        self.txn.committed_hash
    }
}

/// What names a transaction outside the mempool.
#[derive(Clone, Copy, Debug, PartialEq, Eq, Structural, Hash)]
pub struct TransactionSummary {
    pub sender: AccountAddress,
    pub replay_protector: ReplayProtector,
    pub hash: HashValue,
}

/// A logical pointer to a transaction of the mempool.
pub type TxnPointer = TransactionSummary;

impl From<&MempoolTransaction> for TransactionSummary {
    fn from(txn: &MempoolTransaction) -> (pointer: Self) {
        TransactionSummary {
            sender: txn.get_sender(),
            replay_protector: txn.sequence_info.transaction_replay_protector,
            hash: txn.get_committed_hash(),
        }
    }
}

impl vstd::std_specs::convert::FromSpecImpl<&MempoolTransaction> for TransactionSummary {
    open spec fn obeys_from_spec() -> bool {
        true
    }

    open spec fn from_spec(txn: &MempoolTransaction) -> Self {
        TransactionSummary {
            sender: txn.txn.sender,
            replay_protector: txn.sequence_info.transaction_replay_protector,
            hash: txn.txn.committed_hash,
        }
    }
}

/// Addresses and hashes are ordered as the numbers that their bytes make.
pub proof fn law_bytes_are_ordered_as_numbers(
    a: AccountAddress,
    b: AccountAddress,
    c: HashValue,
    d: HashValue,
)
    ensures
        a.is_before(&b) <==> a.high * 0x1_0000_0000_0000_0000_0000_0000_0000_0000 + a.low < b.high
            * 0x1_0000_0000_0000_0000_0000_0000_0000_0000 + b.low,
        c.is_before(&d) <==> c.high * 0x1_0000_0000_0000_0000_0000_0000_0000_0000 + c.low < d.high
            * 0x1_0000_0000_0000_0000_0000_0000_0000_0000 + d.low,
{
}

/// Nonces come before sequence numbers, and each kind is ordered by its numbers.
pub proof fn law_protectors_are_ordered_by_kind_and_number(a: u64, b: u64)
    ensures
        ReplayProtector::Nonce(a).is_before(&ReplayProtector::SequenceNumber(b)),
        !ReplayProtector::SequenceNumber(a).is_before(&ReplayProtector::Nonce(b)),
        ReplayProtector::Nonce(a).is_before(&ReplayProtector::Nonce(b)) <==> a < b,
        ReplayProtector::SequenceNumber(a).is_before(&ReplayProtector::SequenceNumber(b)) <==> a
            < b,
{
}

/// The pointer to a transaction has its sender, its replay protector and its hash.
pub proof fn law_a_pointer_names_its_transaction(txn: &MempoolTransaction)
    ensures
        ({
            let pointer: TransactionSummary = FromSpec::from_spec(txn);
            &&& pointer.sender == txn.txn.sender
            &&& pointer.replay_protector == txn.sequence_info.transaction_replay_protector
            &&& pointer.hash == txn.txn.committed_hash
        }),
{
}

} // verus!
