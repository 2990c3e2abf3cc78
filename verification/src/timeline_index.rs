//! The ordered log of the transactions that are ready for broadcast.

use crate::clock::{Clock, Instant};
use crate::transaction::{AccountAddress, MempoolTransaction, ReplayProtector, TimelineState};
use vstd::prelude::*;

verus! {

/// A transaction on the timeline.
#[derive(Clone, Copy, Debug, PartialEq, Eq, Structural)]
pub struct TimelineEntry {
    pub timeline_id: u64,
    pub address: AccountAddress,
    pub replay_protector: ReplayProtector,
    pub insertion_time: Instant,
}

/// The logical references to the transactions of some entries.
pub open spec fn references(entries: Seq<TimelineEntry>) -> Seq<(AccountAddress, ReplayProtector)> {
    entries.map_values(|e: TimelineEntry| (e.address, e.replay_protector))
}

/// The entries whose ids are greater than `start` and at most `end`.
pub open spec fn between(entries: Seq<TimelineEntry>, start: int, end: int) -> Seq<TimelineEntry> {
    entries.filter(|e: TimelineEntry| start < e.timeline_id <= end)
}

/// The entries whose ids are greater than `start`.
pub open spec fn after(entries: Seq<TimelineEntry>, start: int) -> Seq<TimelineEntry> {
    entries.filter(|e: TimelineEntry| start < e.timeline_id)
}

/// The entries up to the first that was not inserted before the given time; all, if no time is
/// given.
pub open spec fn up_to(entries: Seq<TimelineEntry>, before: Option<Instant>) -> Seq<TimelineEntry>
    decreases entries.len(),
{
    match before {
        None => entries,
        Some(time) => if entries.len() == 0 || entries[0].insertion_time.nanos >= time.nanos {
            Seq::empty()
        } else {
            seq![entries[0]] + up_to(entries.drop_first(), before)
        },
    }
}

/// The first `count` of `items`, or all if there are fewer.
pub open spec fn first_of<T>(items: Seq<T>, count: int) -> Seq<T> {
    if items.len() <= count {
        items
    } else {
        items.take(count)
    }
}

/// What a reader gets who has seen everything up to `timeline_id`.
pub open spec fn timeline_read(
    entries: Seq<TimelineEntry>,
    timeline_id: int,
    count: int,
    before: Option<Instant>,
) -> Seq<(AccountAddress, ReplayProtector)> {
    references(first_of(up_to(after(entries, timeline_id), before), count))
}

/// The entry of a transaction.
pub open spec fn entry_of(txn: MempoolTransaction, timeline_id: u64, now: Instant) -> TimelineEntry {
    TimelineEntry {
        timeline_id,
        address: txn.txn.sender,
        replay_protector: txn.sequence_info.transaction_replay_protector,
        insertion_time: now,
    }
}

/// The transaction once it is on the timeline.
pub open spec fn made_ready(txn: MempoolTransaction, timeline_id: u64) -> MempoolTransaction {
    MempoolTransaction { timeline_state: TimelineState::Ready(timeline_id), ..txn }
}

/// The entries without that of the transaction.
pub open spec fn timeline_without(
    entries: Seq<TimelineEntry>,
    txn: MempoolTransaction,
) -> Seq<TimelineEntry> {
    match txn.timeline_state {
        TimelineState::Ready(id) => entries.filter(|e: TimelineEntry| e.timeline_id != id),
        _ => entries,
    }
}

/// Whether the ids of `entries` rise strictly.
pub open spec fn ids_rise(entries: Seq<TimelineEntry>) -> bool {
    forall|i: int, j: int|
        0 <= i < j < entries.len() ==> (#[trigger] entries[i]).timeline_id < (
        #[trigger] entries[j]).timeline_id
}

/// The entries that satisfy a condition, where they stand in one piece.
proof fn lemma_filter_is_subrange(
    entries: Seq<TimelineEntry>,
    pred: spec_fn(TimelineEntry) -> bool,
    low: int,
    high: int,
)
    requires
        0 <= low <= high <= entries.len(),
        forall|i: int| 0 <= i < entries.len() ==> pred(#[trigger] entries[i]) == (low <= i < high),
    ensures
        entries.filter(pred) == entries.subrange(low, high),
    decreases entries.len(),
{
    reveal(Seq::filter);
    if entries.len() > 0 {
        let rest = entries.drop_last();
        assert forall|i: int| 0 <= i < rest.len() implies pred(#[trigger] rest[i]) == (low <= i
            < high) by {
            assert(rest[i] == entries[i]);
        }
        assert(pred(entries[entries.len() - 1]) == (low <= entries.len() - 1 < high));
        if high == entries.len() && low < high {
            lemma_filter_is_subrange(rest, pred, low, high - 1);
            assert(entries.subrange(low, high) =~= rest.subrange(low, high - 1).push(
                entries.last(),
            ));
        } else if low == entries.len() {
            lemma_filter_is_subrange(rest, pred, low - 1, high - 1);
            assert(entries.subrange(low, high) =~= rest.subrange(low - 1, high - 1));
        } else {
            lemma_filter_is_subrange(rest, pred, low, high);
            assert(entries.subrange(low, high) =~= rest.subrange(low, high));
        }
    } else {
        assert(entries.filter(pred) =~= entries.subrange(low, high));
    }
}

/// While no entry reaches the given time, none is cut off.
proof fn lemma_up_to(entries: Seq<TimelineEntry>, before: Option<Instant>, count: int)
    requires
        0 <= count <= entries.len(),
        before matches Some(time) ==> forall|i: int|
            0 <= i < count ==> (#[trigger] entries[i]).insertion_time.nanos < time.nanos,
    ensures
        up_to(entries, before) == entries.take(count) + up_to(entries.skip(count), before),
    decreases count,
{
    if count == 0 || before is None {
        assert(entries.skip(0) =~= entries);
        assert(up_to(entries, before) =~= entries.take(count) + up_to(entries.skip(count), before));
    } else {
        let rest = entries.drop_first();
        assert(entries[0].insertion_time.nanos < before->0.nanos);
        assert forall|i: int| 0 <= i < count - 1 implies (#[trigger] rest[i]).insertion_time.nanos
            < before->0.nanos by {
            assert(rest[i] == entries[i + 1]);
        }
        lemma_up_to(rest, before, count - 1);
        assert(rest.skip(count - 1) =~= entries.skip(count));
        assert(entries.take(count) =~= seq![entries[0]] + rest.take(count - 1));
        assert(up_to(entries, before) =~= entries.take(count) + up_to(entries.skip(count), before));
    }
}

/// An ordered log of all transactions that are ready for broadcast: from a timeline id, which
/// grows with each insertion, to a logical reference to a transaction of the main store.
pub struct TimelineIndex {
    timeline_id: u64,
    timeline: Vec<TimelineEntry>,
}

impl View for TimelineIndex {
    type V = Seq<TimelineEntry>;

    /// The entries, in the order of their ids.
    closed spec fn view(&self) -> Seq<TimelineEntry> {
        self.timeline@
    }
}

impl TimelineIndex {
    /// Ids rise, start at one and have not reached the next id.
    pub open spec fn wf(&self) -> bool {
        &&& ids_rise(self@)
        &&& 1 <= self.next_id()
        &&& forall|i: int|
            0 <= i < self@.len() ==> 1 <= (#[trigger] self@[i]).timeline_id < self.next_id()
    }

    /// The id of the next transaction to be inserted.
    pub closed spec fn next_id(&self) -> u64 {
        self.timeline_id
    }

    /// An empty timeline.
    pub fn new() -> (index: Self)
        ensures
            index.wf(),
            index.next_id() == 1,
            index@ == Seq::<TimelineEntry>::empty(),
    {
        TimelineIndex { timeline_id: 1, timeline: Vec::new() }
    }

    /// How many entries have ids of at most `timeline_id`.
    fn first_after(&self, timeline_id: u64) -> (at: usize)
        requires
            self.wf(),
        ensures
            at <= self@.len(),
            forall|i: int|
                0 <= i < self@.len() ==> ((#[trigger] self@[i]).timeline_id <= timeline_id) == (i
                    < at),
    {
        let mut low: usize = 0;
        let mut high: usize = self.timeline.len();
        while low < high
            invariant
                self.wf(),
                low <= high <= self@.len(),
                self@ == self.timeline@,
                forall|i: int| 0 <= i < low ==> (#[trigger] self@[i]).timeline_id <= timeline_id,
                forall|i: int|
                    high <= i < self@.len() ==> (#[trigger] self@[i]).timeline_id > timeline_id,
            decreases high - low,
        {
            let mid: usize = low + (high - low) / 2;
            assert(self@[mid as int] == self.timeline[mid as int]);
            if self.timeline[mid].timeline_id <= timeline_id {
                low = mid + 1;
            } else {
                high = mid;
            }
        }
        low
    }

    /// Reads all transactions of the timeline since `timeline_id`, at most `count` of them. If
    /// `before` is given, reading stops at the first that was not inserted before that time.
    pub fn read_timeline(
        &self,
        timeline_id: u64,
        count: usize,
        before: Option<Instant>,
    ) -> (batch: Vec<(AccountAddress, ReplayProtector)>)
        requires
            self.wf(),
        ensures
            batch@ == timeline_read(self@, timeline_id as int, count as int, before),
    {
        let start: usize = self.first_after(timeline_id);
        let ghost rest = self@.skip(start as int);
        proof {
            lemma_filter_is_subrange(
                self@,
                |e: TimelineEntry| (timeline_id as int) < e.timeline_id,
                start as int,
                self@.len() as int,
            );
            assert(after(self@, timeline_id as int) =~= rest);
        }
        let mut batch: Vec<(AccountAddress, ReplayProtector)> = Vec::new();
        let mut next: usize = start;
        while next < self.timeline.len()
            invariant
                start <= next <= self@.len(),
                self@ == self.timeline@,
                rest == self@.skip(start as int),
                after(self@, timeline_id as int) == rest,
                batch@ == references(rest.take(next - start)),
                next - start <= count,
                before matches Some(time) ==> forall|i: int|
                    0 <= i < next - start ==> (#[trigger] rest[i]).insertion_time.nanos
                        < time.nanos,
            decreases self.timeline.len() - next,
        {
            let entry = self.timeline[next];
            assert(rest[next - start] == entry);
            if let Some(time) = before {
                if entry.insertion_time.nanos >= time.nanos {
                    proof {
                        lemma_up_to(rest, before, next - start);
                        assert(rest.skip(next - start)[0] == entry);
                        assert(up_to(rest, before) =~= rest.take(next - start));
                    }
                    return batch;
                }
            }
            if batch.len() == count {
                proof {
                    lemma_up_to(rest, before, next - start);
                    assert(first_of(up_to(rest, before), count as int) =~= rest.take(next - start));
                }
                return batch;
            }
            batch.push((entry.address, entry.replay_protector));
            next = next + 1;
            assert(batch@ =~= references(rest.take(next - start)));
        }
        proof {
            lemma_up_to(rest, before, next - start);
            assert(rest.take(next - start) =~= rest);
            assert(up_to(rest, before) =~= rest);
        }
        batch
    }

    /// Reads the transactions of the timeline from `start_id` (exclusive) to `end_id`
    /// (inclusive).
    pub fn timeline_range(&self, start_id: u64, end_id: u64) -> (range: Vec<
        (AccountAddress, ReplayProtector),
    >)
        requires
            self.wf(),
            start_id <= end_id,
        ensures
            range@ == references(between(self@, start_id as int, end_id as int)),
    {
        let start: usize = self.first_after(start_id);
        let end: usize = self.first_after(end_id);
        proof {
            if end < start {
                assert(self@[end as int].timeline_id <= start_id);
            }
            lemma_filter_is_subrange(
                self@,
                |e: TimelineEntry| (start_id as int) < e.timeline_id <= (end_id as int),
                start as int,
                end as int,
            );
            assert(between(self@, start_id as int, end_id as int) =~= self@.subrange(
                start as int,
                end as int,
            ));
        }
        let mut range: Vec<(AccountAddress, ReplayProtector)> = Vec::new();
        let mut next: usize = start;
        while next < end
            invariant
                start <= next <= end <= self@.len(),
                self@ == self.timeline@,
                range@ == references(self@.subrange(start as int, next as int)),
            decreases end - next,
        {
            let entry = self.timeline[next];
            range.push((entry.address, entry.replay_protector));
            next = next + 1;
            assert(range@ =~= references(self@.subrange(start as int, next as int)));
        }
        range
    }

    /// Appends a transaction that is inserted at the time `now`, and tells it its id.
    pub fn insert_at(&mut self, txn: &mut MempoolTransaction, now: Instant)
        requires
            old(self).wf(),
            old(self).next_id() < u64::MAX,
        ensures
            final(self).wf(),
            final(self).next_id() == old(self).next_id() + 1,
            final(self)@ == old(self)@.push(entry_of(*old(txn), old(self).next_id(), now)),
            final(self)@.last() == (TimelineEntry {
                timeline_id: old(self).next_id(),
                address: old(txn).txn.sender,
                replay_protector: old(txn).sequence_info.transaction_replay_protector,
                insertion_time: now,
            }),
            *final(txn) == made_ready(*old(txn), old(self).next_id()),
            final(txn).timeline_state == TimelineState::Ready(old(self).next_id()),
    {
        self.timeline.push(
            TimelineEntry {
                timeline_id: self.timeline_id,
                address: txn.get_sender(),
                replay_protector: txn.sequence_info.transaction_replay_protector,
                insertion_time: now,
            },
        );
        txn.timeline_state = TimelineState::Ready(self.timeline_id);
        self.timeline_id = self.timeline_id + 1;
    }

    /// Appends a transaction at the time that the clock shows, and tells it its id.
    pub fn insert(&mut self, txn: &mut MempoolTransaction, clock: &Clock)
        requires
            old(self).wf(),
            old(self).next_id() < u64::MAX,
        ensures
            final(self).wf(),
            final(self).next_id() == old(self).next_id() + 1,
            exists|now: Instant|
                {
                    &&& call_ensures(Clock::now, (clock,), now)
                    &&& final(self)@ == old(self)@.push(
                        #[trigger] entry_of(*old(txn), old(self).next_id(), now),
                    )
                },
            *final(txn) == made_ready(*old(txn), old(self).next_id()),
    {
        let now = clock.now();
        self.insert_at(txn, now);
    }

    /// Drops the entry of a transaction that is on the timeline.
    pub fn remove(&mut self, txn: &MempoolTransaction)
        requires
            old(self).wf(),
        ensures
            final(self).wf(),
            final(self).next_id() == old(self).next_id(),
            final(self)@ == timeline_without(old(self)@, *txn),
    {
        if let TimelineState::Ready(timeline_id) = txn.timeline_state {
            let end: usize = self.first_after(timeline_id);
            let ghost before = self@;
            if end > 0 && self.timeline[end - 1].timeline_id == timeline_id {
                self.timeline.remove(end - 1);
                proof {
                    lemma_drop_id(before, timeline_id, end - 1);
                }
            } else {
                proof {
                    lemma_no_id(before, timeline_id, end as int);
                }
            }
        }
    }

    /// How many transactions are on the timeline.
    pub fn size(&self) -> (count: usize)
        ensures
            count == self@.len(),
    {
        self.timeline.len()
    }
}

/// Without the id at a place, the timeline is the rest of the entries, and its ids still rise.
proof fn lemma_drop_id(entries: Seq<TimelineEntry>, id: u64, at: int)
    requires
        ids_rise(entries),
        0 <= at < entries.len(),
        entries[at].timeline_id == id,
    ensures
        entries.filter(|e: TimelineEntry| e.timeline_id != id) == entries.remove(at),
        ids_rise(entries.remove(at)),
{
    let pred = |e: TimelineEntry| e.timeline_id != id;
    assert forall|i: int| 0 <= i < entries.len() implies pred(#[trigger] entries[i]) == (i
        != at) by {
        if i < at {
            assert(entries[i].timeline_id < entries[at].timeline_id);
        } else if at < i {
            assert(entries[at].timeline_id < entries[i].timeline_id);
        }
    }
    lemma_filter_drops_one(entries, pred, at);
}

/// Without an id that it does not hold, the timeline is as it was.
proof fn lemma_no_id(entries: Seq<TimelineEntry>, id: u64, end: int)
    requires
        ids_rise(entries),
        0 <= end <= entries.len(),
        forall|i: int|
            0 <= i < entries.len() ==> ((#[trigger] entries[i]).timeline_id <= id) == (i < end),
        end > 0 ==> entries[end - 1].timeline_id != id,
    ensures
        entries.filter(|e: TimelineEntry| e.timeline_id != id) == entries,
{
    let pred = |e: TimelineEntry| e.timeline_id != id;
    assert forall|i: int| 0 <= i < entries.len() implies pred(#[trigger] entries[i]) by {
        if i < end - 1 {
            assert(entries[i].timeline_id < entries[end - 1].timeline_id);
        }
    }
    lemma_filter_is_subrange(entries, pred, 0, entries.len() as int);
    assert(entries.subrange(0, entries.len() as int) =~= entries);
}

/// Filtering out the one entry at a place is removing it.
proof fn lemma_filter_drops_one(
    entries: Seq<TimelineEntry>,
    pred: spec_fn(TimelineEntry) -> bool,
    at: int,
)
    requires
        0 <= at < entries.len(),
        forall|i: int| 0 <= i < entries.len() ==> pred(#[trigger] entries[i]) == (i != at),
    ensures
        entries.filter(pred) == entries.remove(at),
    decreases entries.len(),
{
    reveal(Seq::filter);
    let rest = entries.drop_last();
    assert(pred(entries[entries.len() - 1]) == (entries.len() - 1 != at));
    assert forall|i: int| 0 <= i < rest.len() implies pred(#[trigger] rest[i]) == (i != at) by {
        assert(rest[i] == entries[i]);
    }
    if at == entries.len() - 1 {
        lemma_filter_is_subrange(rest, pred, 0, rest.len() as int);
        assert(rest.subrange(0, rest.len() as int) =~= entries.remove(at));
    } else {
        lemma_filter_drops_one(rest, pred, at);
        assert(rest.remove(at).push(entries.last()) =~= entries.remove(at));
    }
}

/// The entries after an id, as a part of the timeline.
proof fn lemma_after_is_suffix(entries: Seq<TimelineEntry>, start: int) -> (at: int)
    requires
        ids_rise(entries),
    ensures
        0 <= at <= entries.len(),
        after(entries, start) == entries.skip(at),
        forall|i: int|
            0 <= i < entries.len() ==> ((#[trigger] entries[i]).timeline_id <= start) == (i < at),
{
    let at = lemma_split_point(entries, start);
    lemma_filter_is_subrange(
        entries,
        |e: TimelineEntry| start < e.timeline_id,
        at,
        entries.len() as int,
    );
    assert(entries.skip(at) =~= entries.subrange(at, entries.len() as int));
    at
}

/// Where the ids exceed a bound for the first time.
proof fn lemma_split_point(entries: Seq<TimelineEntry>, bound: int) -> (at: int)
    requires
        ids_rise(entries),
    ensures
        0 <= at <= entries.len(),
        forall|i: int|
            0 <= i < entries.len() ==> ((#[trigger] entries[i]).timeline_id <= bound) == (i < at),
    decreases entries.len(),
{
    if entries.len() == 0 {
        0
    } else if entries.last().timeline_id <= bound {
        assert forall|i: int| 0 <= i < entries.len() implies (#[trigger] entries[i]).timeline_id
            <= bound by {
            if i < entries.len() - 1 {
                assert(entries[i].timeline_id < entries[entries.len() - 1].timeline_id);
            }
        }
        entries.len() as int
    } else {
        let rest = entries.drop_last();
        assert(ids_rise(rest)) by {
            assert forall|i: int, j: int| 0 <= i < j < rest.len() implies (
            #[trigger] rest[i]).timeline_id < (#[trigger] rest[j]).timeline_id by {
                assert(rest[i] == entries[i] && rest[j] == entries[j]);
            }
        }
        let at = lemma_split_point(rest, bound);
        assert forall|i: int| 0 <= i < entries.len() implies ((
        #[trigger] entries[i]).timeline_id <= bound) == (i < at) by {
            if i < rest.len() {
                assert(rest[i] == entries[i]);
            }
        }
        at
    }
}

/// Reading up to a time keeps a first part of the entries, each inserted before that time, and
/// stops only at an entry that was not.
proof fn lemma_up_to_is_prefix(entries: Seq<TimelineEntry>, before: Option<Instant>) -> (kept: int)
    ensures
        0 <= kept <= entries.len(),
        up_to(entries, before) == entries.take(kept),
        before is None ==> kept == entries.len(),
        before matches Some(time) ==> {
            &&& forall|i: int|
                0 <= i < kept ==> (#[trigger] entries[i]).insertion_time.nanos < time.nanos
            &&& kept < entries.len() ==> entries[kept].insertion_time.nanos >= time.nanos
        },
    decreases entries.len(),
{
    match before {
        None => {
            assert(entries.take(entries.len() as int) =~= entries);
            entries.len() as int
        },
        Some(time) => {
            if entries.len() == 0 || entries[0].insertion_time.nanos >= time.nanos {
                assert(entries.take(0) =~= Seq::<TimelineEntry>::empty());
                0
            } else {
                let rest = entries.drop_first();
                let kept = lemma_up_to_is_prefix(rest, before);
                assert(entries.take(kept + 1) =~= seq![entries[0]] + rest.take(kept));
                assert forall|i: int| 0 <= i < kept + 1 implies (
                #[trigger] entries[i]).insertion_time.nanos < time.nanos by {
                    if i > 0 {
                        assert(rest[i - 1] == entries[i]);
                    }
                }
                kept + 1
            }
        },
    }
}

/// The id of a new transaction is greater than every id on the timeline, so ids are unique and
/// grow with each insertion.
pub proof fn law_new_id_is_fresh(index: TimelineIndex, i: int)
    requires
        index.wf(),
        0 <= i < index@.len(),
    ensures
        index@[i].timeline_id < index.next_id(),
{
}

/// Removing a transaction right after its insertion leaves the timeline as it was.
pub proof fn law_remove_undoes_insert(index: TimelineIndex, txn: MempoolTransaction, now: Instant)
    requires
        index.wf(),
    ensures
        timeline_without(
            index@.push(entry_of(txn, index.next_id(), now)),
            made_ready(txn, index.next_id()),
        ) == index@,
{
    let id = index.next_id();
    let pushed = index@.push(entry_of(txn, id, now));
    let pred = |e: TimelineEntry| e.timeline_id != id;
    assert forall|i: int| 0 <= i < pushed.len() implies pred(#[trigger] pushed[i]) == (i
        != index@.len()) by {
        if i < index@.len() {
            assert(pushed[i] == index@[i]);
        }
    }
    lemma_filter_drops_one(pushed, pred, index@.len() as int);
    assert(pushed.remove(index@.len() as int) =~= index@);
}

/// A transaction that was just inserted is what a reader gets who has seen all the others.
pub proof fn law_inserted_is_read(
    index: TimelineIndex,
    txn: MempoolTransaction,
    now: Instant,
    count: int,
)
    requires
        index.wf(),
        count >= 1,
    ensures
        timeline_read(
            index@.push(entry_of(txn, index.next_id(), now)),
            index.next_id() - 1,
            count,
            None,
        ) == seq![(txn.txn.sender, txn.sequence_info.transaction_replay_protector)],
{
    let entry = entry_of(txn, index.next_id(), now);
    let pushed = index@.push(entry);
    let start = index.next_id() - 1;
    assert forall|i: int| 0 <= i < pushed.len() implies (start < (
    #[trigger] pushed[i]).timeline_id) == (index@.len() <= i < pushed.len()) by {
        if i < index@.len() {
            assert(pushed[i] == index@[i]);
        }
    }
    lemma_filter_is_subrange(
        pushed,
        |e: TimelineEntry| start < e.timeline_id,
        index@.len() as int,
        pushed.len() as int,
    );
    assert(after(pushed, start) =~= seq![entry]);
    assert(timeline_read(pushed, start, count, None) =~= seq![
        (txn.txn.sender, txn.sequence_info.transaction_replay_protector),
    ]);
}

/// A read returns at most `count` transactions.
pub proof fn law_read_is_bounded(
    entries: Seq<TimelineEntry>,
    timeline_id: int,
    count: int,
    before: Option<Instant>,
)
    requires
        count >= 0,
    ensures
        timeline_read(entries, timeline_id, count, before).len() <= count,
{
}

/// With a time given, a read returns only transactions that were inserted before it.
pub proof fn law_read_is_before(entries: Seq<TimelineEntry>, time: Instant, i: int)
    requires
        0 <= i < up_to(entries, Some(time)).len(),
    ensures
        up_to(entries, Some(time))[i].insertion_time.nanos < time.nanos,
{
    let kept = lemma_up_to_is_prefix(entries, Some(time));
    assert(up_to(entries, Some(time))[i] == entries[i]);
}

/// Where insertion times never fall, reading up to a time returns every transaction that was
/// inserted before it.
pub proof fn law_monotonic_read_is_complete(entries: Seq<TimelineEntry>, time: Instant)
    requires
        forall|i: int, j: int|
            0 <= i <= j < entries.len() ==> (#[trigger] entries[i]).insertion_time.nanos <= (
            #[trigger] entries[j]).insertion_time.nanos,
    ensures
        up_to(entries, Some(time)) == entries.filter(
            |e: TimelineEntry| e.insertion_time.nanos < time.nanos,
        ),
{
    let kept = lemma_up_to_is_prefix(entries, Some(time));
    let pred = |e: TimelineEntry| e.insertion_time.nanos < time.nanos;
    assert forall|i: int| 0 <= i < entries.len() implies pred(#[trigger] entries[i]) == (0 <= i
        < kept) by {
        if i >= kept {
            assert(entries[kept].insertion_time.nanos <= entries[i].insertion_time.nanos);
        }
    }
    lemma_filter_is_subrange(entries, pred, 0, kept);
    assert(entries.take(kept) =~= entries.subrange(0, kept));
}

/// Two ranges that meet are one range.
pub proof fn law_ranges_join(entries: Seq<TimelineEntry>, start: int, middle: int, end: int)
    requires
        ids_rise(entries),
        start <= middle <= end,
    ensures
        between(entries, start, end) == between(entries, start, middle) + between(
            entries,
            middle,
            end,
        ),
{
    let a = lemma_split_point(entries, start);
    let b = lemma_split_point(entries, middle);
    let c = lemma_split_point(entries, end);
    if b < a {
        assert(entries[b].timeline_id <= start);
    }
    if c < b {
        assert(entries[c].timeline_id <= middle);
    }
    lemma_filter_is_subrange(entries, |e: TimelineEntry| start < e.timeline_id <= end, a, c);
    lemma_filter_is_subrange(entries, |e: TimelineEntry| start < e.timeline_id <= middle, a, b);
    lemma_filter_is_subrange(entries, |e: TimelineEntry| middle < e.timeline_id <= end, b, c);
    assert(entries.subrange(a, c) =~= entries.subrange(a, b) + entries.subrange(b, c));
}

/// A reader who takes `first` transactions and goes on from the id of the last of them gets the
/// same as one who takes `first + second` at once.
pub proof fn law_read_resumes(
    entries: Seq<TimelineEntry>,
    timeline_id: int,
    first: int,
    second: int,
    before: Option<Instant>,
)
    requires
        ids_rise(entries),
        first >= 1,
        second >= 0,
        first <= up_to(after(entries, timeline_id), before).len(),
    ensures
        timeline_read(entries, timeline_id, first + second, before) == timeline_read(
            entries,
            timeline_id,
            first,
            before,
        ) + timeline_read(
            entries,
            up_to(after(entries, timeline_id), before)[first - 1].timeline_id as int,
            second,
            before,
        ),
{
    let rest = after(entries, timeline_id);
    let at = lemma_after_is_suffix(entries, timeline_id);
    let kept = lemma_up_to_is_prefix(rest, before);
    let all = up_to(rest, before);
    let last = all[first - 1].timeline_id as int;
    assert(all[first - 1] == entries[at + first - 1]);
    let next = lemma_after_is_suffix(entries, last);
    assert(next == at + first) by {
        if next < at + first {
            assert(entries[at + first - 1].timeline_id <= last);
        }
        if next > at + first {
            assert(entries[at + first].timeline_id <= last);
            assert(entries[at + first - 1].timeline_id < entries[at + first].timeline_id);
        }
    }
    assert(after(entries, last) =~= rest.skip(first));
    lemma_up_to(rest, before, first);
    assert(all =~= rest.take(first) + up_to(rest.skip(first), before));
    assert(first_of(all, first) =~= rest.take(first));
    assert(first_of(all, first + second) =~= rest.take(first) + first_of(
        up_to(rest.skip(first), before),
        second,
    ));
    assert(references(first_of(all, first + second)) =~= references(rest.take(first)) + references(
        first_of(up_to(rest.skip(first), before), second),
    ));
}

/// The entry of a transaction holds the id and the time that it was made for, and the sender and the
/// replay protector of the transaction.
pub proof fn law_an_entry_holds_its_transaction(
    txn: MempoolTransaction,
    timeline_id: u64,
    now: Instant,
)
    ensures
        entry_of(txn, timeline_id, now).timeline_id == timeline_id,
        entry_of(txn, timeline_id, now).address == txn.txn.sender,
        entry_of(txn, timeline_id, now).replay_protector
            == txn.sequence_info.transaction_replay_protector,
        entry_of(txn, timeline_id, now).insertion_time.nanos == now.nanos,
{
}

/// A transaction on the timeline knows its id, and is otherwise as it was.
pub proof fn law_a_ready_transaction_knows_its_id(txn: MempoolTransaction, timeline_id: u64)
    ensures
        made_ready(txn, timeline_id).timeline_state == TimelineState::Ready(timeline_id),
        made_ready(txn, timeline_id).txn == txn.txn,
        made_ready(txn, timeline_id).expiration_time == txn.expiration_time,
        made_ready(txn, timeline_id).ranking_score == txn.ranking_score,
        made_ready(txn, timeline_id).sequence_info == txn.sequence_info,
        made_ready(txn, timeline_id).insertion_info == txn.insertion_info,
        made_ready(txn, timeline_id).was_parked == txn.was_parked,
{
}

/// The logical reference to a transaction is its sender and its replay protector, and there is one
/// for each entry, in the order of the entries.
pub proof fn law_references_name_each_entry(entries: Seq<TimelineEntry>)
    ensures
        references(entries).len() == entries.len(),
        forall|i: int|
            0 <= i < entries.len() ==> (#[trigger] references(entries)[i]).0 == entries[i].address
                && references(entries)[i].1 == entries[i].replay_protector,
{
}

/// The ids of a timeline rise just if each is less than every later one.
pub proof fn law_ids_rise_strictly(entries: Seq<TimelineEntry>)
    ensures
        ids_rise(entries) <==> forall|i: int, j: int|
            0 <= i < j < entries.len() ==> (#[trigger] entries[i]).timeline_id < (
            #[trigger] entries[j]).timeline_id,
{
}

/// A transaction that was just inserted is held back from a reader who asks for those before a time
/// that is not later, and goes to one who asks for those before a later time.
pub proof fn law_inserted_is_read_before_later_times(
    index: TimelineIndex,
    txn: MempoolTransaction,
    now: Instant,
    count: int,
    time: Instant,
)
    requires
        index.wf(),
        count >= 1,
    ensures
        timeline_read(
            index@.push(entry_of(txn, index.next_id(), now)),
            index.next_id() - 1,
            count,
            Some(time),
        ) == if now.nanos >= time.nanos {
            Seq::<(AccountAddress, ReplayProtector)>::empty()
        } else {
            seq![(txn.txn.sender, txn.sequence_info.transaction_replay_protector)]
        },
{
    let entry = entry_of(txn, index.next_id(), now);
    let pushed = index@.push(entry);
    let start = index.next_id() - 1;
    assert forall|i: int| 0 <= i < pushed.len() implies (start < (
    #[trigger] pushed[i]).timeline_id) == (index@.len() <= i < pushed.len()) by {
        if i < index@.len() {
            assert(pushed[i] == index@[i]);
        }
    }
    lemma_filter_is_subrange(
        pushed,
        |e: TimelineEntry| start < e.timeline_id,
        index@.len() as int,
        pushed.len() as int,
    );
    let rest = after(pushed, start);
    assert(rest =~= seq![entry]);
    let kept = lemma_up_to_is_prefix(rest, Some(time));
    assert(rest[0].insertion_time.nanos == now.nanos);
    if now.nanos >= time.nanos {
        assert(up_to(rest, Some(time)) =~= Seq::<TimelineEntry>::empty());
        assert(timeline_read(pushed, start, count, Some(time)) =~= Seq::<
            (AccountAddress, ReplayProtector),
        >::empty());
    } else {
        assert(up_to(rest, Some(time)) =~= seq![entry]);
        assert(timeline_read(pushed, start, count, Some(time)) =~= seq![
            (txn.txn.sender, txn.sequence_info.transaction_replay_protector),
        ]);
    }
}

/// A read gives the transactions right after those up to `timeline_id`, one after the other. It stops
/// only at the limit, at the end of the timeline, or at the first transaction that was not inserted
/// before the time given. The place at which it starts is returned.
pub proof fn law_a_read_goes_on_until_it_must_stop(
    entries: Seq<TimelineEntry>,
    timeline_id: int,
    count: int,
    before: Option<Instant>,
) -> (at: int)
    requires
        ids_rise(entries),
        count >= 0,
    ensures
        ({
            let batch = timeline_read(entries, timeline_id, count, before);
            &&& 0 <= at <= at + batch.len() <= entries.len()
            &&& forall|i: int|
                0 <= i < entries.len() ==> ((#[trigger] entries[i]).timeline_id <= timeline_id) == (i
                    < at)
            &&& forall|i: int|
                0 <= i < batch.len() ==> (#[trigger] batch[i]).0 == entries[at + i].address
                    && batch[i].1 == entries[at + i].replay_protector
            &&& before matches Some(time) ==> forall|i: int|
                at <= i < at + batch.len() ==> (#[trigger] entries[i]).insertion_time.nanos
                    < time.nanos
            &&& batch.len() <= count
            &&& batch.len() < count && at + batch.len() < entries.len() ==> (before matches Some(
                time,
            ) && entries[at + batch.len()].insertion_time.nanos >= time.nanos)
        }),
{
    let at = lemma_after_is_suffix(entries, timeline_id);
    let rest = after(entries, timeline_id);
    let kept = lemma_up_to_is_prefix(rest, before);
    let batch = timeline_read(entries, timeline_id, count, before);
    assert(batch.len() == if kept <= count { kept } else { count });
    assert forall|i: int| 0 <= i < batch.len() implies (#[trigger] batch[i]).0 == entries[at
        + i].address && batch[i].1 == entries[at + i].replay_protector by {
        assert(rest[i] == entries[at + i]);
    }
    if let Some(time) = before {
        assert forall|i: int| at <= i < at + batch.len() implies (
        #[trigger] entries[i]).insertion_time.nanos < time.nanos by {
            assert(rest[i - at] == entries[i]);
        }
        if batch.len() < count && at + batch.len() < entries.len() {
            assert(rest[kept] == entries[at + kept]);
        }
    }
    at
}

/// A range holds the entries whose ids lie in it, each of them and in the order of the ids.
pub proof fn law_a_range_holds_its_ids(entries: Seq<TimelineEntry>, start: int, end: int)
    requires
        ids_rise(entries),
        start <= end,
    ensures
        forall|e: TimelineEntry| #[trigger]
            between(entries, start, end).contains(e) <==> entries.contains(e) && start
                < e.timeline_id && e.timeline_id <= end,
        ids_rise(between(entries, start, end)),
{
    let a = lemma_split_point(entries, start);
    let b = lemma_split_point(entries, end);
    if b < a {
        assert(entries[b].timeline_id <= start);
    }
    lemma_filter_is_subrange(entries, |e: TimelineEntry| start < e.timeline_id <= end, a, b);
    let range = between(entries, start, end);
    assert(range =~= entries.subrange(a, b));
    assert forall|e: TimelineEntry| #[trigger] range.contains(e) <==> entries.contains(e) && start
        < e.timeline_id && e.timeline_id <= end by {
        if range.contains(e) {
            let i = choose|i: int| 0 <= i < range.len() && range[i] == e;
            assert(entries[a + i] == e);
        }
        if entries.contains(e) && start < e.timeline_id && e.timeline_id <= end {
            let i = choose|i: int| 0 <= i < entries.len() && entries[i] == e;
            assert(range[i - a] == e);
        }
    }
    assert forall|i: int, j: int| 0 <= i < j < range.len() implies (#[trigger] range[i]).timeline_id
        < (#[trigger] range[j]).timeline_id by {
        assert(range[i] == entries[a + i] && range[j] == entries[a + j]);
    }
}

/// Removing a transaction takes out the entry with its id, if it is on the timeline, and leaves all
/// others in their order.
pub proof fn law_only_its_own_entry_is_removed(
    entries: Seq<TimelineEntry>,
    txn: MempoolTransaction,
)
    requires
        ids_rise(entries),
    ensures
        forall|e: TimelineEntry| #[trigger]
            timeline_without(entries, txn).contains(e) <==> entries.contains(e)
                && txn.timeline_state != TimelineState::Ready(e.timeline_id),
        ids_rise(timeline_without(entries, txn)),
{
    if let TimelineState::Ready(id) = txn.timeline_state {
        let end = lemma_split_point(entries, id as int);
        let left = timeline_without(entries, txn);
        if end > 0 && entries[end - 1].timeline_id == id {
            let at = end - 1;
            lemma_drop_id(entries, id, at);
            assert forall|e: TimelineEntry| #[trigger] left.contains(e) <==> entries.contains(e)
                && txn.timeline_state != TimelineState::Ready(e.timeline_id) by {
                if left.contains(e) {
                    let i = choose|i: int| 0 <= i < left.len() && left[i] == e;
                    let j = if i < at {
                        i
                    } else {
                        i + 1
                    };
                    assert(entries[j] == e);
                    if j < at {
                        assert(entries[j].timeline_id < entries[at].timeline_id);
                    } else {
                        assert(entries[at].timeline_id < entries[j].timeline_id);
                    }
                }
                if entries.contains(e) && e.timeline_id != id {
                    let j = choose|j: int| 0 <= j < entries.len() && entries[j] == e;
                    assert(left[if j < at {
                        j
                    } else {
                        j - 1
                    }] == e);
                }
            }
        } else {
            lemma_no_id(entries, id, end);
            assert forall|i: int| 0 <= i < entries.len() implies (
            #[trigger] entries[i]).timeline_id != id by {
                if i < end - 1 {
                    assert(entries[i].timeline_id < entries[end - 1].timeline_id);
                }
            }
        }
    }
}

} // verus!
