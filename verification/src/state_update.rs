//! State updates of transactions, and what remains of them when later ones overwrite earlier ones.

use crate::order::{lex_before, OrderedMap, SortKey};
use vstd::prelude::*;

verus! {

/// The key of a state item, as its bytes.
#[derive(Debug, PartialEq, Eq)]
pub struct StateKey {
    pub bytes: Vec<u8>,
}

impl View for StateKey {
    type V = Seq<u8>;

    open spec fn view(&self) -> Seq<u8> {
        self.bytes@
    }
}

/// Bytes as numbers.
pub open spec fn byte_rank(bytes: Seq<u8>) -> Seq<int> {
    bytes.map_values(|b: u8| b as int)
}

impl SortKey for StateKey {
    open spec fn rank(&self) -> Seq<int> {
        byte_rank(self@)
    }

    fn precedes(&self, other: &Self) -> (before: bool) {
        let ghost a = self.rank();
        let ghost b = other.rank();
        let mut next: usize = 0;
        proof {
            assert(a.skip(0) =~= a);
            assert(b.skip(0) =~= b);
        }
        while next < self.bytes.len() && next < other.bytes.len()
            invariant
                a == byte_rank(self.bytes@),
                b == byte_rank(other.bytes@),
                next <= self.bytes.len(),
                next <= other.bytes.len(),
                lex_before(a, b) == lex_before(a.skip(next as int), b.skip(next as int)),
            decreases self.bytes.len() - next,
        {
            proof {
                assert(a.skip(next as int)[0] == self.bytes[next as int] as int);
                assert(b.skip(next as int)[0] == other.bytes[next as int] as int);
                assert(a.skip(next as int).drop_first() =~= a.skip(next + 1));
                assert(b.skip(next as int).drop_first() =~= b.skip(next + 1));
            }
            if self.bytes[next] != other.bytes[next] {
                return self.bytes[next] < other.bytes[next];
            }
            next = next + 1;
        }
        next < other.bytes.len()
    }
}

/// The value of a state item, as its bytes.
#[derive(Debug, PartialEq, Eq)]
pub struct StateValue {
    pub bytes: Vec<u8>,
}

impl View for StateValue {
    type V = Seq<u8>;

    open spec fn view(&self) -> Seq<u8> {
        self.bytes@
    }
}

/// The bytes of a value, if there is one. An update without a value deletes the item.
pub open spec fn value_bytes(value: Option<StateValue>) -> Option<Seq<u8>> {
    match value {
        Some(v) => Some(v@),
        None => None,
    }
}

fn copy_bytes(bytes: &Vec<u8>) -> (copy: Vec<u8>)
    ensures
        copy@ == bytes@,
{
    let copy = bytes.clone();
    assert(copy@ =~= bytes@);
    copy
}

/// What a transaction did.
#[derive(Debug)]
pub struct TransactionOutput {
    /// The updates, in the order in which they were made.
    pub state_updates: Vec<(StateKey, Option<StateValue>)>,
}

/// An update as plain bytes.
pub open spec fn update_bytes(update: (StateKey, Option<StateValue>)) -> (
    Seq<u8>,
    Option<Seq<u8>>,
) {
    (update.0@, value_bytes(update.1))
}

/// The updates of a transaction.
pub open spec fn updates_of(output: TransactionOutput) -> Seq<(Seq<u8>, Option<Seq<u8>>)> {
    output.state_updates@.map_values(|u: (StateKey, Option<StateValue>)| update_bytes(u))
}

/// The updates of several transactions, one transaction after the other.
pub open spec fn all_updates(outputs: Seq<TransactionOutput>) -> Seq<(Seq<u8>, Option<Seq<u8>>)>
    decreases outputs.len(),
{
    if outputs.len() == 0 {
        Seq::empty()
    } else {
        all_updates(outputs.drop_last()) + updates_of(outputs.last())
    }
}

/// A map after some updates were written over it, one after the other.
pub open spec fn overwritten(
    base: Map<Seq<u8>, Option<Seq<u8>>>,
    updates: Seq<(Seq<u8>, Option<Seq<u8>>)>,
) -> Map<Seq<u8>, Option<Seq<u8>>>
    decreases updates.len(),
{
    if updates.len() == 0 {
        base
    } else {
        overwritten(base, updates.drop_last()).insert(updates.last().0, updates.last().1)
    }
}

/// What remains of some updates: for each key the last value.
pub open spec fn last_writes(updates: Seq<(Seq<u8>, Option<Seq<u8>>)>) -> Map<
    Seq<u8>,
    Option<Seq<u8>>,
> {
    overwritten(Map::empty(), updates)
}

/// Writing two lists of updates over a map is writing them as one list.
pub proof fn law_updates_compose(
    base: Map<Seq<u8>, Option<Seq<u8>>>,
    first: Seq<(Seq<u8>, Option<Seq<u8>>)>,
    second: Seq<(Seq<u8>, Option<Seq<u8>>)>,
)
    ensures
        overwritten(overwritten(base, first), second) == overwritten(base, first + second),
    decreases second.len(),
{
    if second.len() == 0 {
        assert(first + second =~= first);
    } else {
        law_updates_compose(base, first, second.drop_last());
        assert((first + second).drop_last() =~= first + second.drop_last());
    }
}

/// A map from the keys that were updated to the values that they were given.
pub struct StateUpdates {
    entries: OrderedMap<StateKey, Option<StateValue>>,
}

impl View for StateUpdates {
    type V = Map<Seq<u8>, Option<Seq<u8>>>;

    closed spec fn view(&self) -> Map<Seq<u8>, Option<Seq<u8>>> {
        Map::new(
            |k: Seq<u8>| self.entries@.contains_key(byte_rank(k)),
            |k: Seq<u8>| value_bytes(self.entries@[byte_rank(k)]),
        )
    }
}

impl StateUpdates {
    pub closed spec fn wf(&self) -> bool {
        self.entries.wf()
    }

    /// No updates.
    pub fn new() -> (updates: Self)
        ensures
            updates.wf(),
            updates@ == Map::<Seq<u8>, Option<Seq<u8>>>::empty(),
    {
        let updates = StateUpdates { entries: OrderedMap::new() };
        assert(updates@ =~= Map::<Seq<u8>, Option<Seq<u8>>>::empty());
        updates
    }

    /// Records an update, in place of an earlier one of the same key.
    pub fn record(&mut self, key: &StateKey, value: &Option<StateValue>)
        requires
            old(self).wf(),
        ensures
            final(self).wf(),
            final(self)@ == old(self)@.insert(key@, value_bytes(*value)),
    {
        let key_copy = StateKey { bytes: copy_bytes(&key.bytes) };
        let value_copy: Option<StateValue> = match value {
            Some(v) => Some(StateValue { bytes: copy_bytes(&v.bytes) }),
            None => None,
        };
        self.entries.insert(key_copy, value_copy);
        proof {
            assert forall|k: Seq<u8>| #[trigger] byte_rank(k) == byte_rank(key@) implies k
                == key@ by {
                lemma_byte_rank_injective(k, key@);
            }
            assert(self@ =~= old(self)@.insert(key@, value_bytes(*value)));
        }
    }

    /// Records the updates of a transaction, in their order.
    pub fn record_all(&mut self, output: &TransactionOutput)
        requires
            old(self).wf(),
        ensures
            final(self).wf(),
            final(self)@ == overwritten(old(self)@, updates_of(*output)),
    {
        let ghost updates = updates_of(*output);
        let mut next: usize = 0;
        while next < output.state_updates.len()
            invariant
                self.wf(),
                updates == updates_of(*output),
                next <= output.state_updates.len(),
                self@ == overwritten(old(self)@, updates.take(next as int)),
            decreases output.state_updates.len() - next,
        {
            let (key, value) = &output.state_updates[next];
            self.record(key, value);
            proof {
                let longer = updates.take(next + 1);
                assert(longer.drop_last() =~= updates.take(next as int));
                assert(longer.last() == updates[next as int]);
            }
            next = next + 1;
        }
        proof {
            assert(updates.take(next as int) =~= updates);
        }
    }

    /// What the updates say of a key: nothing, that it was deleted, or its value.
    pub fn get(&self, key: &StateKey) -> (value: Option<&Option<StateValue>>)
        requires
            self.wf(),
        ensures
            match value {
                Some(v) => self@.contains_key(key@) && value_bytes(*v) == self@[key@],
                None => !self@.contains_key(key@),
            },
    {
        self.entries.get(key)
    }

    /// How many keys were updated.
    pub fn len(&self) -> (count: usize)
        requires
            self.wf(),
        ensures
            self@.dom().finite(),
            count == self@.dom().len(),
    {
        proof {
            self.lemma_keys();
        }
        self.entries.len()
    }

    /// The updates, each key once, in the order of the keys.
    pub fn to_entries(&self) -> (entries: Vec<(&StateKey, &Option<StateValue>)>)
        requires
            self.wf(),
        ensures
            entries.len() == self@.dom().len(),
            forall|i: int|
                0 <= i < entries.len() ==> self@.contains_key((#[trigger] entries[i]).0@)
                    && value_bytes(*entries[i].1) == self@[entries[i].0@],
            forall|i: int, j: int|
                0 <= i < j < entries.len() ==> lex_before(
                    byte_rank((#[trigger] entries[i]).0@),
                    byte_rank((#[trigger] entries[j]).0@),
                ),
    {
        let count: usize = self.len();
        proof {
            self.lemma_keys();
            self.entries.law_listing();
        }
        let mut entries: Vec<(&StateKey, &Option<StateValue>)> = Vec::new();
        let mut next: usize = 0;
        while next < count
            invariant
                self.wf(),
                count == self.entries.key_set().len(),
                next <= count,
                entries.len() == next,
                forall|i: int|
                    0 <= i < next ==> *(#[trigger] entries[i]).0 == self.entries.listed()[i]
                        && self@.contains_key(entries[i].0@) && value_bytes(*entries[i].1)
                        == self@[entries[i].0@],
            decreases count - next,
        {
            entries.push(self.entries.entry_at(next));
            next = next + 1;
        }
        entries
    }

    /// The updated keys are those of the entries, and there are as many.
    proof fn lemma_keys(&self)
        requires
            self.wf(),
        ensures
            self@.dom().finite(),
            self@.dom().len() == self.entries.key_set().len(),
    {
        self.entries.law_listing();
        let keys = self.entries.listed();
        let bytes = keys.map_values(|k: StateKey| k@);
        assert forall|i: int, j: int| 0 <= i < j < keys.len() implies bytes[i] != bytes[j] by {
            assert(lex_before(keys[i].rank(), keys[j].rank()));
            crate::order::lemma_lex_irreflexive(keys[i].rank());
        }
        assert(bytes.no_duplicates());
        assert forall|k: Seq<u8>| bytes.contains(k) == self@.contains_key(k) by {
            self.entries.lemma_ranks(byte_rank(k));
            if bytes.contains(k) {
                let i = choose|i: int| 0 <= i < bytes.len() && bytes[i] == k;
                assert(keys.to_set().contains(keys[i]));
                assert(keys[i].rank() == byte_rank(k));
            }
            if self@.contains_key(k) {
                let key = choose|key: StateKey| #[trigger]
                    self.entries.key_set().contains(key) && key.rank() == byte_rank(k);
                assert(keys.to_set().contains(key));
                let i = choose|i: int| 0 <= i < keys.len() && keys[i] == key;
                lemma_byte_rank_injective(key@, k);
                assert(bytes[i] == k);
            }
        }
        assert(bytes.to_set() =~= self@.dom());
        bytes.unique_seq_to_set();
    }
}

/// Different bytes have different ranks.
proof fn lemma_byte_rank_injective(a: Seq<u8>, b: Seq<u8>)
    requires
        byte_rank(a) == byte_rank(b),
    ensures
        a == b,
{
    assert(a.len() == byte_rank(a).len());
    assert(b.len() == byte_rank(b).len());
    assert forall|i: int| 0 <= i < a.len() implies a[i] == b[i] by {
        assert(byte_rank(a)[i] == a[i] as int);
        assert(byte_rank(b)[i] == b[i] as int);
    }
    assert(a =~= b);
}

/// A key is among what remains just if it was updated.
pub proof fn law_updated_keys_remain(updates: Seq<(Seq<u8>, Option<Seq<u8>>)>, key: Seq<u8>)
    ensures
        last_writes(updates).contains_key(key) == exists|i: int|
            0 <= i < updates.len() && (#[trigger] updates[i]).0 == key,
    decreases updates.len(),
{
    if updates.len() > 0 {
        let rest = updates.drop_last();
        law_updated_keys_remain(rest, key);
        if updates.last().0 == key {
            assert(updates[updates.len() - 1].0 == key);
        }
        if last_writes(rest).contains_key(key) {
            let i = choose|i: int| 0 <= i < rest.len() && (#[trigger] rest[i]).0 == key;
            assert(updates[i].0 == key);
        }
        if exists|i: int| 0 <= i < updates.len() && (#[trigger] updates[i]).0 == key {
            let i = choose|i: int| 0 <= i < updates.len() && (#[trigger] updates[i]).0 == key;
            if i < rest.len() {
                assert(rest[i].0 == key);
            }
        }
    }
}

/// The value that remains of a key is the last that it was given.
pub proof fn law_last_update_wins(updates: Seq<(Seq<u8>, Option<Seq<u8>>)>, at: int)
    requires
        0 <= at < updates.len(),
        forall|i: int| at < i < updates.len() ==> (#[trigger] updates[i]).0 != updates[at].0,
    ensures
        last_writes(updates).contains_key(updates[at].0),
        last_writes(updates)[updates[at].0] == updates[at].1,
    decreases updates.len(),
{
    if at < updates.len() - 1 {
        let rest = updates.drop_last();
        assert forall|i: int| at < i < rest.len() implies (#[trigger] rest[i]).0 != rest[at].0 by {
            assert(rest[i] == updates[i]);
        }
        law_last_update_wins(rest, at);
        assert(updates[updates.len() - 1].0 != updates[at].0);
    }
}

/// Keys and values are their bytes, and keys are ranked byte by byte.
pub proof fn law_state_items_are_their_bytes(key: StateKey, value: StateValue)
    ensures
        key@ == key.bytes@,
        value@ == value.bytes@,
        value_bytes(Some(value)) == Some(value.bytes@),
        value_bytes(None) is None,
        byte_rank(key.bytes@).len() == key.bytes@.len(),
        forall|i: int|
            0 <= i < key.bytes@.len() ==> #[trigger] byte_rank(key.bytes@)[i] == key.bytes@[i],
{
}

/// The updates of a transaction are those that its output lists, each with its key and its value.
pub proof fn law_updates_are_read_in_order(output: TransactionOutput)
    ensures
        updates_of(output).len() == output.state_updates@.len(),
        forall|j: int|
            0 <= j < output.state_updates@.len() ==> (#[trigger] updates_of(output)[j]).0
                == output.state_updates@[j].0.bytes@ && updates_of(output)[j].1 == (
            match output.state_updates@[j].1 {
                Some(value) => Some(value.bytes@),
                None => None,
            }),
{
}

/// What is written over a map adds the keys that are written, and leaves the values of all others.
pub proof fn law_writing_over_keeps_the_rest(
    base: Map<Seq<u8>, Option<Seq<u8>>>,
    updates: Seq<(Seq<u8>, Option<Seq<u8>>)>,
    key: Seq<u8>,
)
    ensures
        overwritten(base, updates).contains_key(key) <==> base.contains_key(key) || exists|i: int|
            0 <= i < updates.len() && (#[trigger] updates[i]).0 == key,
        (forall|i: int| 0 <= i < updates.len() ==> (#[trigger] updates[i]).0 != key) ==> overwritten(
            base,
            updates,
        ).contains_key(key) == base.contains_key(key) && overwritten(base, updates)[key]
            == base[key],
    decreases updates.len(),
{
    if updates.len() > 0 {
        let rest = updates.drop_last();
        let last = updates.len() - 1;
        law_writing_over_keeps_the_rest(base, rest, key);
        assert(updates.last() == updates[last]);
        if exists|i: int| 0 <= i < rest.len() && (#[trigger] rest[i]).0 == key {
            let i = choose|i: int| 0 <= i < rest.len() && (#[trigger] rest[i]).0 == key;
            assert(updates[i].0 == key);
        }
        if exists|i: int| 0 <= i < updates.len() && (#[trigger] updates[i]).0 == key {
            let i = choose|i: int| 0 <= i < updates.len() && (#[trigger] updates[i]).0 == key;
            if i < last {
                assert(rest[i].0 == key);
            }
        } else {
            assert(updates[last].0 != key);
            assert forall|i: int| 0 <= i < rest.len() implies (#[trigger] rest[i]).0 != key by {
                assert(updates[i].0 != key);
            }
        }
    }
}

/// Of what is written over a map, the last value of a key remains.
pub proof fn law_writing_over_keeps_the_last_value(
    base: Map<Seq<u8>, Option<Seq<u8>>>,
    updates: Seq<(Seq<u8>, Option<Seq<u8>>)>,
    at: int,
)
    requires
        0 <= at < updates.len(),
        forall|i: int| at < i < updates.len() ==> (#[trigger] updates[i]).0 != updates[at].0,
    ensures
        overwritten(base, updates).contains_key(updates[at].0),
        overwritten(base, updates)[updates[at].0] == updates[at].1,
    decreases updates.len(),
{
    if at < updates.len() - 1 {
        let rest = updates.drop_last();
        assert forall|i: int| at < i < rest.len() implies (#[trigger] rest[i]).0 != rest[at].0 by {
            assert(rest[i] == updates[i]);
        }
        law_writing_over_keeps_the_last_value(base, rest, at);
        assert(updates[updates.len() - 1].0 != updates[at].0);
    }
}

/// Of several transactions, every update leaves its key behind, and the value too if no later update
/// of the same transaction and none of a later one has that key.
pub proof fn law_every_update_counts(outputs: Seq<TransactionOutput>, i: int, j: int)
    requires
        0 <= i < outputs.len(),
        0 <= j < outputs[i].state_updates@.len(),
    ensures
        ({
            let (key, value) = outputs[i].state_updates@[j];
            let remaining = last_writes(all_updates(outputs));
            &&& remaining.contains_key(key.bytes@)
            &&& (forall|l: int|
                j < l < outputs[i].state_updates@.len() ==> (
                #[trigger] outputs[i].state_updates@[l]).0.bytes@ != key.bytes@) && (forall|
                k: int,
                l: int,
            |
                i < k < outputs.len() && 0 <= l < outputs[k].state_updates@.len() ==> (
                #[trigger] outputs[k].state_updates@[l]).0.bytes@ != key.bytes@)
                ==> remaining[key.bytes@] == (match value {
                Some(v) => Some(v.bytes@),
                None => None,
            })
        }),
    decreases outputs.len(),
{
    let (key, value) = outputs[i].state_updates@[j];
    let front = outputs.drop_last();
    let last = outputs.last();
    let ups = updates_of(last);
    law_updates_compose(Map::empty(), all_updates(front), ups);
    law_writing_over_keeps_the_rest(last_writes(all_updates(front)), ups, key.bytes@);
    law_updates_are_read_in_order(last);
    if i < outputs.len() - 1 {
        assert(front[i] == outputs[i]);
        law_every_update_counts(front, i, j);
        if forall|k: int, l: int|
            i < k < outputs.len() && 0 <= l < outputs[k].state_updates@.len() ==> (
            #[trigger] outputs[k].state_updates@[l]).0.bytes@ != key.bytes@ {
            assert forall|l: int| 0 <= l < ups.len() implies (#[trigger] ups[l]).0 != key.bytes@ by {
                assert(outputs[outputs.len() - 1].state_updates@[l].0.bytes@ != key.bytes@);
            }
            assert forall|k: int, l: int|
                i < k < front.len() && 0 <= l < front[k].state_updates@.len() implies (
            #[trigger] front[k].state_updates@[l]).0.bytes@ != key.bytes@ by {
                assert(outputs[k].state_updates@[l].0.bytes@ != key.bytes@);
            }
        }
    } else {
        assert(ups[j].0 == key.bytes@);
        if forall|l: int|
            j < l < outputs[i].state_updates@.len() ==> (
            #[trigger] outputs[i].state_updates@[l]).0.bytes@ != key.bytes@ {
            assert forall|l: int| j < l < ups.len() implies (#[trigger] ups[l]).0 != key.bytes@ by {
                assert(outputs[i].state_updates@[l].0.bytes@ != key.bytes@);
            }
            law_writing_over_keeps_the_last_value(last_writes(all_updates(front)), ups, j);
        }
    }
}

/// Of several transactions, no key is left behind that none of them updated.
pub proof fn law_nothing_else_is_left_behind(outputs: Seq<TransactionOutput>, key: Seq<u8>)
    requires
        last_writes(all_updates(outputs)).contains_key(key),
    ensures
        exists|i: int, j: int|
            0 <= i < outputs.len() && 0 <= j < outputs[i].state_updates@.len() && (
            #[trigger] outputs[i].state_updates@[j]).0.bytes@ == key,
    decreases outputs.len(),
{
    if outputs.len() > 0 {
        let front = outputs.drop_last();
        let last = outputs.last();
        let ups = updates_of(last);
        law_updates_compose(Map::empty(), all_updates(front), ups);
        law_writing_over_keeps_the_rest(last_writes(all_updates(front)), ups, key);
        law_updates_are_read_in_order(last);
        if last_writes(all_updates(front)).contains_key(key) {
            law_nothing_else_is_left_behind(front, key);
            let (i, j) = choose|i: int, j: int|
                0 <= i < front.len() && 0 <= j < front[i].state_updates@.len() && (
                #[trigger] front[i].state_updates@[j]).0.bytes@ == key;
            assert(outputs[i].state_updates@[j].0.bytes@ == key);
        } else {
            let j = choose|j: int| 0 <= j < ups.len() && (#[trigger] ups[j]).0 == key;
            assert(outputs[outputs.len() - 1].state_updates@[j].0.bytes@ == key);
        }
    }
}

} // verus!
