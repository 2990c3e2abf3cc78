//! Timelines of ready transactions, one for each bucket of ranking scores.

use crate::clock::{Clock, Instant};
use crate::decimal::{decimal, law_decimal_reads_back, to_decimal};
use crate::timeline_index::{
    after, between, entry_of, first_of, made_ready, references, timeline_read, timeline_without,
    up_to, TimelineIndex,
};
use crate::transaction::{AccountAddress, MempoolTransaction, ReplayProtector};
use std::collections::HashMap;
use vstd::prelude::*;

verus! {

/// Why a list of bucket minimums is refused.
#[derive(Clone, Copy, Debug, PartialEq, Eq, Structural)]
pub enum BucketError {
    Empty,
    FirstNotZero,
    NotRising,
}

impl BucketError {
    /// The refusal in words.
    pub fn message(&self) -> (text: &'static str)
        ensures
            text@ == match *self {
                BucketError::Empty => "Must not be empty"@,
                BucketError::FirstNotZero => "First bucket must start at 0"@,
                BucketError::NotRising => "Values must be sorted and not repeat"@,
            },
    {
        match *self {
            BucketError::Empty => "Must not be empty",
            BucketError::FirstNotZero => "First bucket must start at 0",
            BucketError::NotRising => "Values must be sorted and not repeat",
        }
    }
}

/// Whether each minimum is less than every later one.
pub open spec fn rising(mins: Seq<u64>) -> bool {
    forall|i: int, j: int| 0 <= i < j < mins.len() ==> mins[i] < mins[j]
}

/// The bucket of a score: the last whose minimum the score reaches.
pub open spec fn bucket_of(mins: Seq<u64>, ranking_score: u64) -> int
    decreases mins.len(),
{
    if mins.len() <= 1 {
        0
    } else if mins.last() <= ranking_score {
        mins.len() - 1
    } else {
        bucket_of(mins.drop_last(), ranking_score)
    }
}

/// The bucket of a score is the one bucket whose minimum the score reaches while it stays below
/// the minimum of the next.
pub proof fn law_bucket_is_unique(mins: Seq<u64>, ranking_score: u64, at: int)
    requires
        rising(mins),
        mins.len() > 0,
        mins[0] == 0,
        0 <= at < mins.len(),
    ensures
        0 <= bucket_of(mins, ranking_score) < mins.len(),
        (at == bucket_of(mins, ranking_score)) == (mins[at] <= ranking_score && (at + 1
            < mins.len() ==> ranking_score < mins[at + 1])),
    decreases mins.len(),
{
    if mins.len() > 1 && mins.last() > ranking_score {
        let rest = mins.drop_last();
        assert(forall|i: int| 0 <= i < rest.len() ==> rest[i] == mins[i]);
        if at < rest.len() {
            law_bucket_is_unique(rest, ranking_score, at);
        } else {
            law_bucket_is_unique(rest, ranking_score, 0);
        }
    }
}

/// Up to where a reader has read each timeline.
#[derive(Debug)]
pub struct MultiBucketTimelineIndexIds {
    pub id_per_bucket: Vec<u64>,
}

/// The number of a timeline.
pub type TimelineIndexIdentifier = u8;

/// How many transactions some timelines hold together.
pub open spec fn total_size(timelines: Seq<TimelineIndex>) -> nat
    decreases timelines.len(),
{
    if timelines.len() == 0 {
        0
    } else {
        total_size(timelines.drop_last()) + timelines.last()@.len()
    }
}

/// How many items some lists hold together.
pub open spec fn total_len<T>(lists: Seq<Vec<T>>) -> nat
    decreases lists.len(),
{
    if lists.len() == 0 {
        0
    } else {
        lists[0]@.len() + total_len(lists.drop_first())
    }
}

/// Timelines of ready transactions, one for each bucket of ranking scores.
pub struct MultiBucketTimelineIndex {
    timelines: Vec<TimelineIndex>,
    bucket_mins: Vec<u64>,
    bucket_mins_to_string: Vec<String>,
}

impl MultiBucketTimelineIndex {
    /// The least score of each bucket.
    pub closed spec fn mins(&self) -> Seq<u64> {
        self.bucket_mins@
    }

    /// The timeline of each bucket.
    pub closed spec fn timelines(&self) -> Seq<TimelineIndex> {
        self.timelines@
    }

    /// The buckets cover all scores from zero on, in rising order, and each has its timeline and
    /// its label.
    pub closed spec fn wf(&self) -> bool {
        &&& self.bucket_mins.len() > 0
        &&& self.bucket_mins[0] == 0
        &&& rising(self.bucket_mins@)
        &&& self.timelines.len() == self.bucket_mins.len()
        &&& self.bucket_mins_to_string.len() == self.bucket_mins.len()
        &&& forall|i: int| 0 <= i < self.timelines.len() ==> (#[trigger] self.timelines[i]).wf()
        &&& forall|i: int|
            0 <= i < self.bucket_mins_to_string.len() ==> (
            #[trigger] self.bucket_mins_to_string[i])@ == decimal(self.bucket_mins[i] as nat)
    }

    /// What being well formed says in terms of the minimums and the timelines.
    pub proof fn law_shape(&self)
        requires
            self.wf(),
        ensures
            self.mins().len() > 0,
            self.mins()[0] == 0,
            rising(self.mins()),
            self.timelines().len() == self.mins().len(),
            forall|i: int| 0 <= i < self.timelines().len() ==> (#[trigger] self.timelines()[i]).wf(),
    {
    }

    /// Empty timelines for the given buckets. The minimums have to start at zero and to rise.
    pub fn new(bucket_mins: Vec<u64>) -> (index: Result<Self, BucketError>)
        ensures
            match index {
                Ok(index) => {
                    &&& bucket_mins.len() > 0
                    &&& bucket_mins[0] == 0
                    &&& rising(bucket_mins@)
                    &&& index.wf()
                    &&& index.mins() == bucket_mins@
                    &&& index.timelines().len() == bucket_mins.len()
                    &&& forall|i: int|
                        0 <= i < index.timelines().len() ==> (
                        #[trigger] index.timelines()[i])@.len() == 0 && index.timelines()[i].next_id()
                            == 1
                },
                Err(BucketError::Empty) => bucket_mins.len() == 0,
                Err(BucketError::FirstNotZero) => bucket_mins.len() > 0 && bucket_mins[0] != 0,
                Err(BucketError::NotRising) => bucket_mins.len() > 0 && bucket_mins[0] == 0
                    && !rising(bucket_mins@),
            },
    {
        if bucket_mins.len() == 0 {
            return Err(BucketError::Empty);
        }
        if bucket_mins[0] != 0 {
            return Err(BucketError::FirstNotZero);
        }
        let mut timelines: Vec<TimelineIndex> = Vec::new();
        let mut bucket_mins_to_string: Vec<String> = Vec::new();
        let mut next: usize = 0;
        while next < bucket_mins.len()
            invariant
                next <= bucket_mins.len(),
                bucket_mins.len() > 0,
                bucket_mins[0] == 0,
                rising(bucket_mins@.take(next as int)),
                timelines.len() == next,
                bucket_mins_to_string.len() == next,
                forall|i: int|
                    0 <= i < next ==> (#[trigger] timelines[i]).wf() && timelines[i]@.len() == 0
                        && timelines[i].next_id() == 1,
                forall|i: int|
                    0 <= i < next ==> (#[trigger] bucket_mins_to_string[i])@ == decimal(
                        bucket_mins[i] as nat,
                    ),
            decreases bucket_mins.len() - next,
        {
            if next > 0 && bucket_mins[next - 1] >= bucket_mins[next] {
                proof {
                    assert(!(bucket_mins@[next - 1] < bucket_mins@[next as int]));
                }
                return Err(BucketError::NotRising);
            }
            timelines.push(TimelineIndex::new());
            bucket_mins_to_string.push(to_decimal(bucket_mins[next]));
            proof {
                let before = bucket_mins@.take(next as int);
                let now = bucket_mins@.take(next + 1);
                assert forall|i: int, j: int| 0 <= i < j < now.len() implies now[i] < now[j] by {
                    if j < next {
                        assert(before[i] < before[j]);
                    } else if i < next - 1 {
                        assert(before[i] < before[next - 1]);
                    }
                }
            }
            next = next + 1;
        }
        proof {
            assert(bucket_mins@.take(next as int) =~= bucket_mins@);
        }
        Ok(MultiBucketTimelineIndex { timelines, bucket_mins, bucket_mins_to_string })
    }

    /// The place of the bucket of a score.
    fn bucket_index(&self, ranking_score: u64) -> (at: usize)
        requires
            self.wf(),
        ensures
            at < self.bucket_mins.len(),
            at == bucket_of(self.mins(), ranking_score),
    {
        let mut low: usize = 0;
        let mut high: usize = self.bucket_mins.len();
        while high - low > 1
            invariant
                self.wf(),
                0 <= low < high <= self.bucket_mins.len(),
                self.bucket_mins[low as int] <= ranking_score,
                high < self.bucket_mins.len() ==> ranking_score < self.bucket_mins[high as int],
            decreases high - low,
        {
            let mid: usize = low + (high - low) / 2;
            if self.bucket_mins[mid] <= ranking_score {
                low = mid;
            } else {
                high = mid;
            }
        }
        proof {
            law_bucket_is_unique(self.bucket_mins@, ranking_score, low as int);
        }
        low
    }

    /// The timeline of the bucket of a score.
    fn get_timeline(&mut self, ranking_score: u64) -> (timeline: &mut TimelineIndex)
        requires
            old(self).wf(),
        ensures
            0 <= bucket_of(old(self).mins(), ranking_score) < old(self).timelines().len(),
            *timeline == old(self).timelines()[bucket_of(old(self).mins(), ranking_score)],
            timeline.wf(),
            final(self).mins() == old(self).mins(),
            final(self).timelines() == old(self).timelines().update(
                bucket_of(old(self).mins(), ranking_score),
                *final(timeline),
            ),
            final(timeline).wf() ==> final(self).wf(),
    {
        let index: usize = self.bucket_index(ranking_score);
        &mut self.timelines[index]
    }

    /// Appends a transaction to the timeline of its score at the time `now`, and tells it its id.
    pub fn insert_at(&mut self, txn: &mut MempoolTransaction, now: Instant)
        requires
            old(self).wf(),
            old(self).timelines()[bucket_of(old(self).mins(), old(txn).ranking_score)].next_id()
                < u64::MAX,
        ensures
            final(self).wf(),
            final(self).mins() == old(self).mins(),
            ({
                let at = bucket_of(old(self).mins(), old(txn).ranking_score);
                let timeline = old(self).timelines()[at];
                &&& 0 <= at < old(self).timelines().len()
                &&& final(self).timelines() == old(self).timelines().update(
                    at,
                    final(self).timelines()[at],
                )
                &&& final(self).timelines()[at]@ == timeline@.push(
                    entry_of(*old(txn), timeline.next_id(), now),
                )
                &&& final(self).timelines()[at].next_id() == timeline.next_id() + 1
                &&& *final(txn) == made_ready(*old(txn), timeline.next_id())
            }),
    {
        self.get_timeline(txn.ranking_score).insert_at(txn, now);
    }

    /// Appends a transaction to the timeline of its score at the time that the clock shows, and
    /// tells it its id.
    pub fn insert(&mut self, txn: &mut MempoolTransaction, clock: &Clock)
        requires
            old(self).wf(),
            old(self).timelines()[bucket_of(old(self).mins(), old(txn).ranking_score)].next_id()
                < u64::MAX,
        ensures
            final(self).wf(),
            final(self).mins() == old(self).mins(),
            ({
                let at = bucket_of(old(self).mins(), old(txn).ranking_score);
                let timeline = old(self).timelines()[at];
                &&& 0 <= at < old(self).timelines().len()
                &&& final(self).timelines() == old(self).timelines().update(
                    at,
                    final(self).timelines()[at],
                )
                &&& exists|now: Instant|
                    {
                        &&& call_ensures(Clock::now, (clock,), now)
                        &&& final(self).timelines()[at]@ == timeline@.push(
                            #[trigger] entry_of(*old(txn), timeline.next_id(), now),
                        )
                    }
                &&& final(self).timelines()[at].next_id() == timeline.next_id() + 1
                &&& *final(txn) == made_ready(*old(txn), timeline.next_id())
            }),
    {
        let now = clock.now();
        self.insert_at(txn, now);
    }

    /// Drops a transaction from the timeline of its score.
    pub fn remove(&mut self, txn: &MempoolTransaction)
        requires
            old(self).wf(),
        ensures
            final(self).wf(),
            final(self).mins() == old(self).mins(),
            ({
                let at = bucket_of(old(self).mins(), txn.ranking_score);
                let timeline = old(self).timelines()[at];
                &&& 0 <= at < old(self).timelines().len()
                &&& final(self).timelines() == old(self).timelines().update(
                    at,
                    final(self).timelines()[at],
                )
                &&& final(self).timelines()[at]@ == timeline_without(timeline@, *txn)
                &&& final(self).timelines()[at].next_id() == timeline.next_id()
            }),
    {
        self.get_timeline(txn.ranking_score).remove(txn);
    }

    /// Reads the transactions of all timelines since the ids that `timeline_id` gives for them, at
    /// most `count` in all, those of the higher buckets first. The lists of transactions come in
    /// the order of the buckets.
    pub fn read_timeline(
        &self,
        timeline_id: &MultiBucketTimelineIndexIds,
        count: usize,
        before: Option<Instant>,
    ) -> (returned: Vec<Vec<(AccountAddress, ReplayProtector)>>)
        requires
            self.wf(),
            timeline_id.id_per_bucket.len() == self.mins().len(),
        ensures
            is_read(
                self.timelines(),
                timeline_id.id_per_bucket@,
                count as int,
                before,
                returned@,
            ),
    {
        let mut added: usize = 0;
        let mut returned: Vec<Vec<(AccountAddress, ReplayProtector)>> = Vec::new();
        let mut left: usize = self.timelines.len();
        while left > 0
            invariant
                self.wf(),
                timeline_id.id_per_bucket.len() == self.timelines.len(),
                left <= self.timelines.len(),
                returned.len() == self.timelines.len() - left,
                added == total_len(returned@),
                added <= count,
                forall|i: int|
                    0 <= i < returned.len() ==> (#[trigger] returned[i])@ == timeline_read(
                        self.timelines[left + i]@,
                        timeline_id.id_per_bucket[left + i] as int,
                        count - total_len(returned@.skip(i + 1)),
                        before,
                    ),
            decreases left,
        {
            left = left - 1;
            let ghost so_far = returned@;
            let txns: Vec<(AccountAddress, ReplayProtector)> = if added == count {
                Vec::new()
            } else {
                self.timelines[left].read_timeline(
                    timeline_id.id_per_bucket[left],
                    count - added,
                    before,
                )
            };
            proof {
                assert(txns@ =~= timeline_read(
                    self.timelines[left as int]@,
                    timeline_id.id_per_bucket[left as int] as int,
                    count - added,
                    before,
                ));
            }
            added = added + txns.len();
            returned.insert(0, txns);
            proof {
                assert(returned@.drop_first() =~= so_far);
                assert forall|i: int| 0 <= i < returned.len() implies (#[trigger] returned[i])@
                    == timeline_read(
                    self.timelines[left + i]@,
                    timeline_id.id_per_bucket[left + i] as int,
                    count - total_len(returned@.skip(i + 1)),
                    before,
                ) by {
                    if i == 0 {
                        assert(returned@.skip(1) =~= so_far);
                    } else {
                        assert(returned[i] == so_far[i - 1]);
                        assert(returned@.skip(i + 1) =~= so_far.skip(i));
                    }
                }
            }
        }
        returned
    }

    /// Reads a range of each timeline that `pairs` names, in the order of `pairs`.
    pub fn ranges_in_order(&self, pairs: &Vec<(TimelineIndexIdentifier, (u64, u64))>) -> (txns: Vec<
        (AccountAddress, ReplayProtector),
    >)
        requires
            self.wf(),
            forall|i: int|
                0 <= i < pairs.len() && (#[trigger] pairs[i]).0 < self.timelines().len()
                    ==> pairs[i].1.0 <= pairs[i].1.1,
        ensures
            txns@ == ranges_of(self.timelines(), pairs@),
    {
        let mut all_txns: Vec<(AccountAddress, ReplayProtector)> = Vec::new();
        let mut next: usize = 0;
        while next < pairs.len()
            invariant
                self.wf(),
                next <= pairs.len(),
                self.timelines() == self.timelines@,
                forall|i: int|
                    0 <= i < pairs.len() && (#[trigger] pairs[i]).0 < self.timelines().len()
                        ==> pairs[i].1.0 <= pairs[i].1.1,
                all_txns@ == ranges_of(self.timelines(), pairs@.take(next as int)),
            decreases pairs.len() - next,
        {
            let (identifier, (start_id, end_id)) = pairs[next];
            let at: usize = identifier as usize;
            let mut txns: Vec<(AccountAddress, ReplayProtector)> = if at < self.timelines.len() {
                self.timelines[at].timeline_range(start_id, end_id)
            } else {
                Vec::new()
            };
            proof {
                assert(txns@ =~= range_of(self.timelines(), pairs[next as int]));
                assert(pairs@.take(next + 1).drop_last() =~= pairs@.take(next as int));
            }
            all_txns.append(&mut txns);
            next = next + 1;
        }
        proof {
            assert(pairs@.take(next as int) =~= pairs@);
        }
        all_txns
    }

    /// Reads a range of each timeline that the map names, from the first id (exclusive) to the
    /// second (inclusive). The map is walked in no particular order.
    pub fn timeline_range(
        &self,
        start_end_pairs: HashMap<TimelineIndexIdentifier, (u64, u64)>,
    ) -> (txns: Vec<(AccountAddress, ReplayProtector)>)
        requires
            self.wf(),
            start_end_pairs@.len() == self.timelines().len(),
            forall|k: TimelineIndexIdentifier| #[trigger]
                start_end_pairs@.contains_key(k) && k < self.timelines().len()
                    ==> start_end_pairs@[k].0 <= start_end_pairs@[k].1,
        ensures
            exists|pairs: Seq<(TimelineIndexIdentifier, (u64, u64))>| #[trigger]
                lists(pairs, start_end_pairs@) && txns@ == ranges_of(self.timelines(), pairs),
    {
        let pairs = pairs_of(&start_end_pairs);
        proof {
            assert forall|i: int|
                0 <= i < pairs.len() && (#[trigger] pairs[i]).0
                    < self.timelines().len() implies pairs[i].1.0 <= pairs[i].1.1 by {
                assert(pairs@.to_set().contains(pairs[i]));
                assert(start_end_pairs@.kv_pairs().contains(pairs[i]));
                assert(start_end_pairs@.contains_key(pairs[i].0));
            }
        }
        self.ranges_in_order(&pairs)
    }

    /// How many transactions the timelines hold together.
    pub fn size(&self) -> (count: usize)
        requires
            self.wf(),
            total_size(self.timelines()) <= usize::MAX,
        ensures
            count == total_size(self.timelines()),
    {
        let mut size: usize = 0;
        let mut next: usize = 0;
        while next < self.timelines.len()
            invariant
                self.wf(),
                next <= self.timelines.len(),
                total_size(self.timelines@) <= usize::MAX,
                size == total_size(self.timelines@.take(next as int)),
            decreases self.timelines.len() - next,
        {
            proof {
                lemma_total_size_grows(self.timelines@, next + 1);
                assert(self.timelines@.take(next + 1).drop_last() =~= self.timelines@.take(
                    next as int,
                ));
            }
            size = size + self.timelines[next].size();
            next = next + 1;
        }
        proof {
            assert(self.timelines@.take(next as int) =~= self.timelines@);
        }
        size
    }

    /// The size of each timeline, with the label of its bucket.
    pub fn get_sizes(&self) -> (sizes: Vec<(&str, usize)>)
        requires
            self.wf(),
        ensures
            sizes.len() == self.timelines().len(),
            forall|i: int|
                0 <= i < sizes.len() ==> (#[trigger] sizes[i]).0@ == decimal(
                    self.mins()[i] as nat,
                ) && sizes[i].1 == self.timelines()[i]@.len(),
    {
        let mut sizes: Vec<(&str, usize)> = Vec::new();
        let mut next: usize = 0;
        while next < self.timelines.len()
            invariant
                self.wf(),
                next <= self.timelines.len(),
                sizes.len() == next,
                forall|i: int|
                    0 <= i < sizes.len() ==> (#[trigger] sizes[i]).0@ == decimal(
                        self.bucket_mins[i] as nat,
                    ) && sizes[i].1 == self.timelines[i]@.len(),
            decreases self.timelines.len() - next,
        {
            sizes.push((self.bucket_mins_to_string[next].as_str(), self.timelines[next].size()));
            next = next + 1;
        }
        sizes
    }

    /// The label of the bucket of a score, which is the least score of the bucket.
    pub fn get_bucket(&self, ranking_score: u64) -> (label: &str)
        requires
            self.wf(),
        ensures
            label@ == decimal(self.mins()[bucket_of(self.mins(), ranking_score)] as nat),
    {
        let index: usize = self.bucket_index(ranking_score);
        self.bucket_mins_to_string[index].as_str()
    }
}

/// The transactions of a timeline in a range of ids, or nothing if there is no such timeline.
pub open spec fn range_of(
    timelines: Seq<TimelineIndex>,
    pair: (TimelineIndexIdentifier, (u64, u64)),
) -> Seq<(AccountAddress, ReplayProtector)> {
    if pair.0 < timelines.len() {
        references(between(timelines[pair.0 as int]@, pair.1.0 as int, pair.1.1 as int))
    } else {
        Seq::empty()
    }
}

/// The transactions of several ranges, one range after the other.
pub open spec fn ranges_of(
    timelines: Seq<TimelineIndex>,
    pairs: Seq<(TimelineIndexIdentifier, (u64, u64))>,
) -> Seq<(AccountAddress, ReplayProtector)>
    decreases pairs.len(),
{
    if pairs.len() == 0 {
        Seq::empty()
    } else {
        ranges_of(timelines, pairs.drop_last()) + range_of(timelines, pairs.last())
    }
}

/// Whether `pairs` lists each entry of `map` once.
pub open spec fn lists(
    pairs: Seq<(TimelineIndexIdentifier, (u64, u64))>,
    map: Map<TimelineIndexIdentifier, (u64, u64)>,
) -> bool {
    pairs.no_duplicates() && pairs.to_set() == map.kv_pairs()
}

/// The entries of a map, in some order.
fn pairs_of(map: &HashMap<TimelineIndexIdentifier, (u64, u64)>) -> (pairs: Vec<
    (TimelineIndexIdentifier, (u64, u64)),
>)
    ensures
        lists(pairs@, map@),
{
    broadcast use vstd::std_specs::hash::group_hash_axioms;

    let mut pairs: Vec<(TimelineIndexIdentifier, (u64, u64))> = Vec::new();
    for (key, value) in iter: map.iter()
        invariant
            iter.seq().no_duplicates(),
            iter.seq().unref().to_set() == map@.kv_pairs(),
            pairs@ == iter.seq().unref().take(iter.index()),
            pairs@.no_duplicates(),
            iter.index() == iter.seq().len() ==> pairs@ == iter.seq().unref(),
    {
        let ghost now = pairs@.push((*key, *value));
        assert(now =~= iter.seq().unref().take(iter.index() + 1));
        assert forall|i: int, j: int|
            0 <= i < now.len() && 0 <= j < now.len() && i != j implies now[i] != now[j] by {
            assert(iter.seq()[i] != iter.seq()[j]);
        }
        assert(iter.index() + 1 == iter.seq().len() ==> now =~= iter.seq().unref());
        pairs.push((*key, *value));
    }
    pairs
}

/// A part of the timelines holds no more than all of them.
proof fn lemma_total_size_grows(timelines: Seq<TimelineIndex>, count: int)
    requires
        0 <= count <= timelines.len(),
    ensures
        total_size(timelines.take(count)) <= total_size(timelines),
    decreases timelines.len(),
{
    if count == timelines.len() {
        assert(timelines.take(count) =~= timelines);
    } else {
        lemma_total_size_grows(timelines.drop_last(), count);
        assert(timelines.drop_last().take(count) =~= timelines.take(count));
    }
}

/// What a reader could get of a timeline if there were no limit.
pub open spec fn readable(timeline: TimelineIndex, timeline_id: u64, before: Option<Instant>) -> Seq<
    (AccountAddress, ReplayProtector),
> {
    references(up_to(after(timeline@, timeline_id as int), before))
}

/// Whether `returned` is what a read of all timelines gives: each list is read of its timeline
/// within what the lists of the higher buckets have left of the limit.
pub open spec fn is_read(
    timelines: Seq<TimelineIndex>,
    ids: Seq<u64>,
    count: int,
    before: Option<Instant>,
    returned: Seq<Vec<(AccountAddress, ReplayProtector)>>,
) -> bool {
    &&& returned.len() == timelines.len()
    &&& total_len(returned) <= count
    &&& forall|i: int|
        0 <= i < returned.len() ==> (#[trigger] returned[i])@ == timeline_read(
            timelines[i]@,
            ids[i] as int,
            count - total_len(returned.skip(i + 1)),
            before,
        )
}

/// A list and the lists after it are a part of all the lists.
proof fn lemma_total_len_skip<T>(lists: Seq<Vec<T>>, at: int)
    requires
        0 <= at < lists.len(),
    ensures
        lists[at]@.len() + total_len(lists.skip(at + 1)) == total_len(lists.skip(at)),
        total_len(lists.skip(at)) <= total_len(lists),
    decreases at,
{
    assert(lists.skip(at).drop_first() =~= lists.skip(at + 1));
    if at == 0 {
        assert(lists.skip(0) =~= lists);
    } else {
        lemma_total_len_skip(lists, at - 1);
    }
}

/// A read that returns fewer transactions than it was allowed leaves none out.
pub proof fn law_short_read_is_complete(
    timelines: Seq<TimelineIndex>,
    ids: Seq<u64>,
    count: int,
    before: Option<Instant>,
    returned: Seq<Vec<(AccountAddress, ReplayProtector)>>,
    at: int,
)
    requires
        is_read(timelines, ids, count, before, returned),
        total_len(returned) < count,
        0 <= at < returned.len(),
    ensures
        returned[at]@ == readable(timelines[at], ids[at], before),
{
    lemma_total_len_skip(returned, at);
    let limit = count - total_len(returned.skip(at + 1));
    let available = up_to(after(timelines[at]@, ids[at] as int), before);
    assert(returned[at]@ == references(first_of(available, limit)));
}

/// While a bucket still has transactions to give, the buckets below it give none.
pub proof fn law_lower_buckets_wait(
    timelines: Seq<TimelineIndex>,
    ids: Seq<u64>,
    count: int,
    before: Option<Instant>,
    returned: Seq<Vec<(AccountAddress, ReplayProtector)>>,
    low: int,
    high: int,
)
    requires
        is_read(timelines, ids, count, before, returned),
        0 <= low < high < returned.len(),
        returned[high]@ != readable(timelines[high], ids[high], before),
    ensures
        returned[low]@.len() == 0,
{
    lemma_total_len_skip(returned, high);
    let limit = count - total_len(returned.skip(high + 1));
    let available = up_to(after(timelines[high]@, ids[high] as int), before);
    assert(returned[high]@ == references(first_of(available, limit)));
    assert(returned[high]@.len() == limit);
    lemma_total_len_skip(returned, low);
    lemma_total_len_falls(returned, low + 1, high);
}

/// Later lists hold no more than earlier ones and they together.
proof fn lemma_total_len_falls<T>(lists: Seq<Vec<T>>, from: int, to: int)
    requires
        0 <= from <= to <= lists.len(),
    ensures
        total_len(lists.skip(to)) <= total_len(lists.skip(from)),
    decreases to - from,
{
    if from < to {
        lemma_total_len_skip(lists, from);
        lemma_total_len_falls(lists, from + 1, to);
    }
}

/// Inserting a transaction does not move it to another bucket, and removing it from its bucket
/// leaves the timeline there as it was before.
pub proof fn law_remove_undoes_insert(
    index: MultiBucketTimelineIndex,
    txn: MempoolTransaction,
    now: Instant,
)
    requires
        index.wf(),
    ensures
        ({
            let at = bucket_of(index.mins(), txn.ranking_score);
            let timeline = index.timelines()[at];
            let ready = made_ready(txn, timeline.next_id());
            &&& bucket_of(index.mins(), ready.ranking_score) == at
            &&& timeline_without(
                timeline@.push(entry_of(txn, timeline.next_id(), now)),
                ready,
            ) == timeline@
        }),
{
    let at = bucket_of(index.mins(), txn.ranking_score);
    law_bucket_is_unique(index.mins(), txn.ranking_score, 0);
    index.law_shape();
    assert(index.timelines()[at].wf());
    crate::timeline_index::law_remove_undoes_insert(index.timelines()[at], txn, now);
}

/// Different buckets have different labels.
pub proof fn law_labels_differ(mins: Seq<u64>, i: int, j: int)
    requires
        rising(mins),
        0 <= i < j < mins.len(),
    ensures
        decimal(mins[i] as nat) != decimal(mins[j] as nat),
{
    law_decimal_reads_back(mins[i] as nat);
    law_decimal_reads_back(mins[j] as nat);
}

/// A higher score never falls into a lower bucket.
pub proof fn law_buckets_are_monotonic(mins: Seq<u64>, low: u64, high: u64)
    requires
        rising(mins),
        mins.len() > 0,
        mins[0] == 0,
        low <= high,
    ensures
        bucket_of(mins, low) <= bucket_of(mins, high),
{
    law_bucket_is_unique(mins, low, 0);
    law_bucket_is_unique(mins, high, 0);
    let a = bucket_of(mins, low);
    let b = bucket_of(mins, high);
    law_bucket_is_unique(mins, low, a);
    law_bucket_is_unique(mins, high, b);
    if b < a && b + 1 < a {
        assert(mins[b + 1] < mins[a]);
    }
}

/// Taking one pair out takes its transactions out.
proof fn lemma_ranges_without_one(
    timelines: Seq<TimelineIndex>,
    pairs: Seq<(TimelineIndexIdentifier, (u64, u64))>,
    at: int,
)
    requires
        0 <= at < pairs.len(),
    ensures
        ranges_of(timelines, pairs).to_multiset() == ranges_of(
            timelines,
            pairs.remove(at),
        ).to_multiset().add(range_of(timelines, pairs[at]).to_multiset()),
    decreases pairs.len(),
{
    broadcast use vstd::seq_lib::lemma_seq_union_to_multiset_commutative;

    let last = range_of(timelines, pairs.last());
    let rest = pairs.drop_last();
    vstd::seq_lib::lemma_multiset_commutative(ranges_of(timelines, rest), last);
    if at == pairs.len() - 1 {
        assert(pairs.remove(at) =~= rest);
    } else {
        lemma_ranges_without_one(timelines, rest, at);
        let without = pairs.remove(at);
        assert(without.drop_last() =~= rest.remove(at));
        vstd::seq_lib::lemma_multiset_commutative(ranges_of(timelines, rest.remove(at)), last);
        assert(ranges_of(timelines, pairs).to_multiset() =~= ranges_of(
            timelines,
            without,
        ).to_multiset().add(range_of(timelines, pairs[at]).to_multiset()));
    }
}

/// In whatever order a map is walked, the same transactions are read, each as often.
pub proof fn law_walking_order_is_immaterial(
    timelines: Seq<TimelineIndex>,
    a: Seq<(TimelineIndexIdentifier, (u64, u64))>,
    b: Seq<(TimelineIndexIdentifier, (u64, u64))>,
)
    requires
        a.no_duplicates(),
        b.no_duplicates(),
        a.to_set() == b.to_set(),
    ensures
        ranges_of(timelines, a).to_multiset() == ranges_of(timelines, b).to_multiset(),
    decreases a.len(),
{
    if a.len() == 0 {
        if b.len() > 0 {
            assert(b.to_set().contains(b[0]));
            assert(a.to_set().contains(b[0]));
        }
    } else {
        let pair = a.last();
        assert(a.to_set().contains(pair));
        assert(b.to_set().contains(pair));
        let at = choose|at: int| 0 <= at < b.len() && b[at] == pair;
        let rest_a = a.remove(a.len() - 1);
        let rest_b = b.remove(at);
        assert forall|p: (TimelineIndexIdentifier, (u64, u64))|
            rest_a.contains(p) <==> rest_b.contains(p) by {
            if rest_a.contains(p) {
                let i = choose|i: int| 0 <= i < rest_a.len() && rest_a[i] == p;
                assert(a[i] == p && p != pair);
                assert(a.to_set().contains(p));
                assert(b.to_set().contains(p));
                let j = choose|j: int| 0 <= j < b.len() && b[j] == p;
                assert(rest_b[if j < at { j } else { j - 1 }] == p);
            }
            if rest_b.contains(p) {
                let j = choose|j: int| 0 <= j < rest_b.len() && rest_b[j] == p;
                assert(b[if j < at { j } else { j + 1 }] == p);
                assert(p != pair);
                assert(b.to_set().contains(p));
                assert(a.to_set().contains(p));
                let i = choose|i: int| 0 <= i < a.len() && a[i] == p;
                assert(rest_a[i] == p);
            }
        }
        assert(rest_a.to_set() =~= rest_b.to_set());
        law_walking_order_is_immaterial(timelines, rest_a, rest_b);
        lemma_ranges_without_one(timelines, a, a.len() - 1);
        lemma_ranges_without_one(timelines, b, at);
    }
}

/// Minimums rise just if each is less than the one that follows it.
pub proof fn law_rising_minimums_do_not_repeat(mins: Seq<u64>)
    ensures
        rising(mins) <==> forall|i: int, j: int|
            0 <= i && j == i + 1 && j < mins.len() ==> #[trigger] mins[i] < #[trigger] mins[j],
{
    if forall|i: int, j: int|
        0 <= i && j == i + 1 && j < mins.len() ==> #[trigger] mins[i] < #[trigger] mins[j] {
        assert forall|i: int, j: int| 0 <= i < j < mins.len() implies mins[i] < mins[j] by {
            lemma_steps_rise(mins, i, j);
        }
    }
}

/// Where each minimum is less than the next, it is less than every later one.
proof fn lemma_steps_rise(mins: Seq<u64>, i: int, j: int)
    requires
        0 <= i < j < mins.len(),
        forall|k: int, l: int|
            0 <= k && l == k + 1 && l < mins.len() ==> #[trigger] mins[k] < #[trigger] mins[l],
    ensures
        mins[i] < mins[j],
    decreases j,
{
    assert(mins[j - 1] < mins[j]);
    if i < j - 1 {
        lemma_steps_rise(mins, i, j - 1);
    }
}

/// Timelines hold together what they hold each.
pub proof fn law_sizes_add_up(a: Seq<TimelineIndex>, b: Seq<TimelineIndex>, timeline: TimelineIndex)
    ensures
        total_size(seq![timeline]) == timeline@.len(),
        total_size(a + b) == total_size(a) + total_size(b),
        total_size(Seq::empty()) == 0,
    decreases b.len(),
{
    reveal_with_fuel(total_size, 2);
    assert(seq![timeline].drop_last() =~= Seq::<TimelineIndex>::empty());
    if b.len() == 0 {
        assert(a + b =~= a);
    } else {
        law_sizes_add_up(a, b.drop_last(), timeline);
        assert((a + b).drop_last() =~= a + b.drop_last());
    }
}

/// Changing one timeline changes the size by as much as that timeline grows or shrinks.
pub proof fn law_size_follows_each_timeline(
    timelines: Seq<TimelineIndex>,
    at: int,
    timeline: TimelineIndex,
)
    requires
        0 <= at < timelines.len(),
    ensures
        total_size(timelines.update(at, timeline)) + timelines[at]@.len() == total_size(timelines)
            + timeline@.len(),
{
    let first = timelines.take(at);
    let rest = timelines.skip(at + 1);
    law_sizes_add_up(first, seq![timelines[at]], timelines[at]);
    law_sizes_add_up(first, seq![timeline], timeline);
    law_sizes_add_up(first + seq![timelines[at]], rest, timeline);
    law_sizes_add_up(first + seq![timeline], rest, timeline);
    assert(timelines =~= first + seq![timelines[at]] + rest);
    assert(timelines.update(at, timeline) =~= first + seq![timeline] + rest);
}

/// Lists hold together what they hold each.
pub proof fn law_lengths_add_up<T>(a: Seq<Vec<T>>, b: Seq<Vec<T>>, list: Vec<T>)
    ensures
        total_len(seq![list]) == list@.len(),
        total_len(a + b) == total_len(a) + total_len(b),
        total_len(Seq::<Vec<T>>::empty()) == 0,
    decreases a.len(),
{
    reveal_with_fuel(total_len, 2);
    assert(seq![list].drop_first() =~= Seq::<Vec<T>>::empty());
    if a.len() == 0 {
        assert(a + b =~= b);
    } else {
        law_lengths_add_up(a.drop_first(), b, list);
        assert((a + b).drop_first() =~= a.drop_first() + b);
    }
}

/// What could be read of a timeline is what a read gives whose limit is not reached.
pub proof fn law_readable_is_an_unlimited_read(
    timeline: TimelineIndex,
    timeline_id: u64,
    before: Option<Instant>,
    count: int,
)
    requires
        count >= timeline@.len(),
        timeline.wf(),
    ensures
        readable(timeline, timeline_id, before) == timeline_read(
            timeline@,
            timeline_id as int,
            count,
            before,
        ),
{
    let unlimited = crate::timeline_index::law_a_read_goes_on_until_it_must_stop(
        timeline@,
        timeline_id as int,
        count + 1,
        before,
    );
    let limited = crate::timeline_index::law_a_read_goes_on_until_it_must_stop(
        timeline@,
        timeline_id as int,
        count,
        before,
    );
    let available = up_to(after(timeline@, timeline_id as int), before);
    assert(readable(timeline, timeline_id, before) == references(available));
    if available.len() > count {
        assert(timeline_read(timeline@, timeline_id as int, count + 1, before).len() == count + 1);
    }
}

/// A read of all timelines gives one list for each, which holds the first of what could be read of
/// it, and all the lists together keep to the limit.
pub proof fn law_each_list_is_read_from_its_start(
    timelines: Seq<TimelineIndex>,
    ids: Seq<u64>,
    count: int,
    before: Option<Instant>,
    returned: Seq<Vec<(AccountAddress, ReplayProtector)>>,
    at: int,
    i: int,
)
    requires
        is_read(timelines, ids, count, before, returned),
        0 <= at < returned.len(),
        0 <= i < returned[at]@.len(),
    ensures
        returned.len() == timelines.len(),
        total_len(returned) <= count,
        i < readable(timelines[at], ids[at], before).len(),
        returned[at]@[i] == readable(timelines[at], ids[at], before)[i],
{
    let limit = count - total_len(returned.skip(at + 1));
    let available = up_to(after(timelines[at]@, ids[at] as int), before);
    lemma_total_len_skip(returned, at);
    assert(returned[at]@ == references(first_of(available, limit)));
}

/// A range is read of the timeline that its pair names, from the first id (exclusive) to the second
/// (inclusive), and gives nothing if there is no such timeline.
pub proof fn law_a_pair_names_a_range(
    timelines: Seq<TimelineIndex>,
    identifier: TimelineIndexIdentifier,
    start_id: u64,
    end_id: u64,
)
    ensures
        identifier >= timelines.len() ==> range_of(timelines, (identifier, (start_id, end_id))).len()
            == 0,
        identifier < timelines.len() ==> range_of(timelines, (identifier, (start_id, end_id)))
            == references(
            between(timelines[identifier as int]@, start_id as int, end_id as int),
        ),
{
}

/// Ranges are read one after the other, each whole.
pub proof fn law_ranges_are_read_in_turn(
    timelines: Seq<TimelineIndex>,
    a: Seq<(TimelineIndexIdentifier, (u64, u64))>,
    b: Seq<(TimelineIndexIdentifier, (u64, u64))>,
    pair: (TimelineIndexIdentifier, (u64, u64)),
)
    ensures
        ranges_of(timelines, seq![pair]) == range_of(timelines, pair),
        ranges_of(timelines, a + b) == ranges_of(timelines, a) + ranges_of(timelines, b),
    decreases b.len(),
{
    reveal_with_fuel(ranges_of, 2);
    assert(seq![pair].drop_last() =~= Seq::<(TimelineIndexIdentifier, (u64, u64))>::empty());
    assert(ranges_of(timelines, seq![pair]) =~= range_of(timelines, pair));
    if b.len() == 0 {
        assert(a + b =~= a);
        assert(ranges_of(timelines, a) + ranges_of(timelines, b) =~= ranges_of(timelines, a));
    } else {
        law_ranges_are_read_in_turn(timelines, a, b.drop_last(), pair);
        assert((a + b).drop_last() =~= a + b.drop_last());
        assert(ranges_of(timelines, a + b) =~= ranges_of(timelines, a) + ranges_of(timelines, b));
    }
}

/// A list of pairs is a listing of a map just if it holds each entry of the map, no other, and none
/// twice.
pub proof fn law_a_listing_holds_each_entry_once(
    pairs: Seq<(TimelineIndexIdentifier, (u64, u64))>,
    map: Map<TimelineIndexIdentifier, (u64, u64)>,
    identifier: TimelineIndexIdentifier,
    range: (u64, u64),
    i: int,
    j: int,
)
    requires
        lists(pairs, map),
    ensures
        pairs.contains((identifier, range)) <==> map.contains_key(identifier) && map[identifier]
            == range,
        0 <= i < j < pairs.len() ==> pairs[i] != pairs[j],
{
    assert(pairs.to_set().contains((identifier, range)) == map.kv_pairs().contains(
        (identifier, range),
    ));
}

/// A read of all timelines gives as many lists as there are timelines, and no more transactions than
/// were asked for.
pub proof fn law_a_read_gives_a_list_for_each_bucket(
    timelines: Seq<TimelineIndex>,
    ids: Seq<u64>,
    count: int,
    before: Option<Instant>,
    returned: Seq<Vec<(AccountAddress, ReplayProtector)>>,
)
    requires
        is_read(timelines, ids, count, before, returned),
    ensures
        returned.len() == timelines.len(),
        total_len(returned) <= count,
{
}

} // verus!
