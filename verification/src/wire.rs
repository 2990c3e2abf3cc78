//! Indexed transactions, and how long they are as protobuf messages.

use crate::timestamp::Timestamp;
use vstd::prelude::*;

verus! {

/// How many bytes a number takes as a varint: one for each seven bits.
pub open spec fn varint_len(value: nat) -> nat
    decreases value,
{
    if value < 128 {
        1
    } else {
        1 + varint_len(value / 128)
    }
}

/// How many bytes the key of a field takes.
pub open spec fn field_key_len(tag: nat) -> nat {
    varint_len(8 * tag)
}

/// How many bytes a signed number takes as a varint. A negative one is extended to 64 bits first,
/// which takes ten.
pub open spec fn signed_varint_len(value: int) -> nat {
    if value < 0 {
        10
    } else {
        varint_len(value as nat)
    }
}

/// `prost::encoding::encoded_len_varint` counts the bytes of a number in LEB128 format.
pub assume_specification[ prost::encoding::encoded_len_varint ](value: u64) -> (len: usize)
    ensures
        len == varint_len(value as nat),
;

/// `prost::encoding::key_len` counts the bytes of the key of a field. Tags of messages are less
/// than 2^29.
pub assume_specification[ prost::encoding::key_len ](tag: u32) -> (len: usize)
    requires
        tag < 536_870_912,
    ensures
        len == field_key_len(tag as nat),
;

/// `prost::encoding::uint64::encoded_len` counts the bytes of a `uint64` field, key and value.
pub assume_specification[ prost::encoding::uint64::encoded_len ](tag: u32, value: &u64) -> (len:
    usize)
    requires
        tag < 536_870_912,
    ensures
        len == field_key_len(tag as nat) + varint_len(*value as nat),
;

/// `prost::encoding::int64::encoded_len` counts the bytes of an `int64` field, key and value.
pub assume_specification[ prost::encoding::int64::encoded_len ](tag: u32, value: &i64) -> (len:
    usize)
    requires
        tag < 536_870_912,
    ensures
        len == field_key_len(tag as nat) + signed_varint_len(*value as int),
;

/// `prost::encoding::int32::encoded_len` counts the bytes of an `int32` field, key and value.
pub assume_specification[ prost::encoding::int32::encoded_len ](tag: u32, value: &i32) -> (len:
    usize)
    requires
        tag < 536_870_912,
    ensures
        len == field_key_len(tag as nat) + signed_varint_len(*value as int),
;

/// A number of at most 64 bits takes at most ten bytes.
proof fn lemma_varint_len_bound(value: nat)
    requires
        value <= u64::MAX,
    ensures
        1 <= varint_len(value) <= 10,
{
    reveal_with_fuel(varint_len, 11);
}

/// The tags of the fields of a timestamp message.
pub const SECONDS_TAG: u32 = 1;

pub const NANOS_TAG: u32 = 2;

/// The tags of the fields of a transaction message.
pub const TIMESTAMP_TAG: u32 = 1;

pub const VERSION_TAG: u32 = 2;

/// How many bytes a timestamp takes as a message. Fields that are zero are left out.
pub open spec fn timestamp_len(ts: Timestamp) -> nat {
    (if ts.seconds == 0 {
        0
    } else {
        field_key_len(SECONDS_TAG as nat) + signed_varint_len(ts.seconds as int)
    }) + (if ts.nanos == 0 {
        0
    } else {
        field_key_len(NANOS_TAG as nat) + signed_varint_len(ts.nanos as int)
    })
}

impl Timestamp {
    /// How many bytes the timestamp takes as a message.
    pub fn encoded_len(&self) -> (len: usize)
        ensures
            len == timestamp_len(*self),
            len == (if self.seconds == 0 {
                0
            } else {
                1 + signed_varint_len(self.seconds as int)
            }) + (if self.nanos == 0 {
                0
            } else {
                1 + signed_varint_len(self.nanos as int)
            }),
            len <= 40,
    {
        proof {
            lemma_varint_len_bound(8 * SECONDS_TAG as nat);
            lemma_varint_len_bound(8 * NANOS_TAG as nat);
            if self.seconds >= 0 {
                lemma_varint_len_bound(self.seconds as nat);
            }
            if self.nanos >= 0 {
                lemma_varint_len_bound(self.nanos as nat);
            }
        }
        let seconds_len: usize = if self.seconds == 0 {
            0
        } else {
            prost::encoding::int64::encoded_len(SECONDS_TAG, &self.seconds)
        };
        let nanos_len: usize = if self.nanos == 0 {
            0
        } else {
            prost::encoding::int32::encoded_len(NANOS_TAG, &self.nanos)
        };
        seconds_len + nanos_len
    }
}

/// An indexed transaction.
#[derive(Debug, PartialEq, Eq)]
pub struct Transaction {
    pub timestamp: Option<Timestamp>,
    pub version: u64,
    /// All other fields, as they stand in the message.
    pub other_fields: Vec<u8>,
}

impl Transaction {
    /// How many bytes the transaction takes as a message. Fields that are zero or absent are left
    /// out, and a message within a message is preceded by its length.
    pub open spec fn message_len(&self) -> nat {
        (match self.timestamp {
            None => 0,
            Some(ts) => field_key_len(TIMESTAMP_TAG as nat) + varint_len(timestamp_len(ts))
                + timestamp_len(ts),
        }) + (if self.version == 0 {
            0
        } else {
            field_key_len(VERSION_TAG as nat) + varint_len(self.version as nat)
        }) + self.other_fields@.len()
    }

    /// How many bytes the transaction takes as a message.
    pub fn encoded_len(&self) -> (len: usize)
        requires
            self.message_len() <= usize::MAX,
        ensures
            len == self.message_len(),
            len == (match self.timestamp {
                None => 0,
                Some(ts) => 1 + varint_len(timestamp_len(ts)) + timestamp_len(ts),
            }) + (if self.version == 0 {
                0
            } else {
                1 + varint_len(self.version as nat)
            }) + self.other_fields@.len(),
    {
        let timestamp_field_len: usize = match &self.timestamp {
            None => 0,
            Some(ts) => {
                let len: usize = ts.encoded_len();
                proof {
                    lemma_varint_len_bound(8 * TIMESTAMP_TAG as nat);
                    lemma_varint_len_bound(len as nat);
                }
                prost::encoding::key_len(TIMESTAMP_TAG) + prost::encoding::encoded_len_varint(
                    len as u64,
                ) + len
            },
        };
        let version_len: usize = if self.version == 0 {
            0
        } else {
            prost::encoding::uint64::encoded_len(VERSION_TAG, &self.version)
        };
        timestamp_field_len + version_len + self.other_fields.len()
    }
}

impl Clone for Transaction {
    fn clone(&self) -> (txn: Self)
        ensures
            txn.timestamp == self.timestamp,
            txn.version == self.version,
            txn.other_fields@ == self.other_fields@,
    {
        let other_fields = self.other_fields.clone();
        assert(other_fields@ =~= self.other_fields@);
        Transaction { timestamp: self.timestamp, version: self.version, other_fields }
    }
}

impl Default for Transaction {
    fn default() -> (txn: Self)
        ensures
            txn.timestamp is None,
            txn.version == 0,
            txn.other_fields@ == Seq::<u8>::empty(),
    {
        Transaction { timestamp: None, version: 0, other_fields: Vec::new() }
    }
}

/// A number takes one byte more with every seven bits.
pub proof fn law_varints_grow_by_seven_bits(value: nat)
    ensures
        value < 128 ==> varint_len(value) == 1,
        varint_len(128 * value + 127) == if value == 0 {
            1
        } else {
            1 + varint_len(value)
        },
        signed_varint_len(value as int) == varint_len(value),
        value > 0 ==> signed_varint_len(-(value as int)) == 10,
{
    assert((128 * value + 127) / 128 == value);
}

/// Each field of a timestamp is counted for itself, whatever the other is: one byte for its key and
/// those of its value, and nothing if it is zero.
pub proof fn law_timestamp_fields_are_counted_apart(ts: Timestamp)
    ensures
        timestamp_len(ts) == timestamp_len(Timestamp { seconds: ts.seconds, nanos: 0 })
            + timestamp_len(Timestamp { seconds: 0, nanos: ts.nanos }),
        ts.seconds != 0 ==> timestamp_len(Timestamp { seconds: ts.seconds, nanos: 0 }) == 1
            + signed_varint_len(ts.seconds as int),
        ts.nanos != 0 ==> timestamp_len(Timestamp { seconds: 0, nanos: ts.nanos }) == 1
            + signed_varint_len(ts.nanos as int),
        timestamp_len(Timestamp { seconds: 0, nanos: 0 }) == 0,
{
}

/// Each field of a transaction is counted for itself, whatever the others are: the timestamp with its
/// key and its length in front, the version with its key unless it is zero, and the other fields as
/// they stand.
pub proof fn law_transaction_fields_are_counted_apart(
    with_timestamp: Transaction,
    with_version: Transaction,
    with_others: Transaction,
    whole: Transaction,
)
    requires
        with_timestamp.timestamp == whole.timestamp,
        with_timestamp.version == 0,
        with_timestamp.other_fields@.len() == 0,
        with_version.timestamp is None,
        with_version.version == whole.version,
        with_version.other_fields@.len() == 0,
        with_others.timestamp is None,
        with_others.version == 0,
        with_others.other_fields@ == whole.other_fields@,
    ensures
        whole.message_len() == with_timestamp.message_len() + with_version.message_len()
            + with_others.message_len(),
        whole.timestamp is None ==> with_timestamp.message_len() == 0,
        whole.timestamp matches Some(ts) ==> with_timestamp.message_len() == 1 + varint_len(
            timestamp_len(ts),
        ) + timestamp_len(ts),
        with_version.message_len() == if whole.version == 0 {
            0
        } else {
            1 + varint_len(whole.version as nat)
        },
        with_others.message_len() == whole.other_fields@.len(),
{
}

} // verus!
