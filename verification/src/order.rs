//! A total order on ranked keys, and a set and a map that keep their keys in it.

use vstd::prelude::*;

verus! {

/// The lexicographic order on sequences of integers: the first position at which the two differ
/// decides, and a proper prefix comes first.
pub open spec fn lex_before(a: Seq<int>, b: Seq<int>) -> bool
    decreases a.len(),
{
    if b.len() == 0 {
        false
    } else if a.len() == 0 {
        true
    } else if a[0] != b[0] {
        a[0] < b[0]
    } else {
        lex_before(a.drop_first(), b.drop_first())
    }
}

/// No sequence comes before itself.
pub proof fn lemma_lex_irreflexive(a: Seq<int>)
    ensures
        !lex_before(a, a),
    decreases a.len(),
{
    if a.len() > 0 {
        lemma_lex_irreflexive(a.drop_first());
    }
}

/// The lexicographic order is transitive.
pub proof fn lemma_lex_transitive(a: Seq<int>, b: Seq<int>, c: Seq<int>)
    requires
        lex_before(a, b),
        lex_before(b, c),
    ensures
        lex_before(a, c),
    decreases a.len(),
{
    if a.len() > 0 && b.len() > 0 && c.len() > 0 && a[0] == b[0] && b[0] == c[0] {
        lemma_lex_transitive(a.drop_first(), b.drop_first(), c.drop_first());
    }
}

/// Of two sequences that differ, one comes before the other.
pub proof fn lemma_lex_total(a: Seq<int>, b: Seq<int>)
    ensures
        lex_before(a, b) || a == b || lex_before(b, a),
    decreases a.len(),
{
    if a.len() == 0 || b.len() == 0 {
        if a.len() == b.len() {
            assert(a =~= b);
        }
    } else if a[0] == b[0] {
        lemma_lex_total(a.drop_first(), b.drop_first());
        if a.drop_first() == b.drop_first() {
            assert(a =~= seq![a[0]] + a.drop_first());
            assert(b =~= seq![b[0]] + b.drop_first());
        }
    }
}

/// A key whose place in an ordered collection is fixed by its rank. Two keys of equal rank take
/// the same place, although they may differ otherwise.
pub trait SortKey: Sized {
    /// What the key is ordered by, most significant part first.
    spec fn rank(&self) -> Seq<int>;

    /// Whether the rank of this key comes before that of `other`.
    fn precedes(&self, other: &Self) -> (before: bool)
        ensures
            before == lex_before(self.rank(), other.rank()),
    ;
}

/// Whether `keys` holds a key of the given rank.
pub open spec fn has_rank<K: SortKey>(keys: Set<K>, rank: Seq<int>) -> bool {
    exists|k: K| #[trigger] keys.contains(k) && k.rank() == rank
}

/// `keys` without those of the given rank.
pub open spec fn without_rank<K: SortKey>(keys: Set<K>, rank: Seq<int>) -> Set<K> {
    keys.filter(|k: K| k.rank() != rank)
}

/// Whether the ranks of `keys` rise strictly from each key to every later one.
pub open spec fn ascending<K: SortKey>(keys: Seq<K>) -> bool {
    forall|i: int, j: int|
        0 <= i < j < keys.len() ==> lex_before((#[trigger] keys[i]).rank(), (#[trigger] keys[j]).rank())
}

/// Whether the ranks of `keys` fall strictly from each key to every later one.
pub open spec fn descending<K: SortKey>(keys: Seq<K>) -> bool {
    forall|i: int, j: int|
        0 <= i < j < keys.len() ==> lex_before((#[trigger] keys[j]).rank(), (#[trigger] keys[i]).rank())
}

/// A set that holds at most one key of each rank and hands its keys out by rank.
pub struct OrderedSet<K> {
    items: Vec<K>,
}

impl<K> View for OrderedSet<K> {
    type V = Set<K>;

    closed spec fn view(&self) -> Set<K> {
        self.items@.to_set()
    }
}

impl<K: SortKey> OrderedSet<K> {
    /// The keys are stored in ascending order of rank.
    pub closed spec fn wf(&self) -> bool {
        ascending(self.items@)
    }

    /// The empty set.
    pub fn new() -> (set: Self)
        ensures
            set.wf(),
            set@ == Set::<K>::empty(),
    {
        let set = OrderedSet { items: Vec::new() };
        assert(set@ =~= Set::<K>::empty());
        set
    }

    /// No two keys of the set have the same rank.
    pub proof fn law_one_key_per_rank(&self, a: K, b: K)
        requires
            self.wf(),
            self@.contains(a),
            self@.contains(b),
            a.rank() == b.rank(),
        ensures
            a == b,
    {
        let i = choose|i: int| 0 <= i < self.items.len() && self.items[i] == a;
        let j = choose|j: int| 0 <= j < self.items.len() && self.items[j] == b;
        lemma_lex_irreflexive(a.rank());
        if i < j {
            assert(lex_before(self.items[i].rank(), self.items[j].rank()));
        } else if j < i {
            assert(lex_before(self.items[j].rank(), self.items[i].rank()));
        }
    }

    /// How many stored keys come before `key`.
    fn lower_bound(&self, key: &K) -> (at: usize)
        requires
            self.wf(),
        ensures
            at <= self.items.len(),
            forall|i: int|
                0 <= i < at ==> lex_before((#[trigger] self.items[i]).rank(), key.rank()),
            forall|i: int|
                at <= i < self.items.len() ==> !lex_before(
                    (#[trigger] self.items[i]).rank(),
                    key.rank(),
                ),
    {
        let mut low: usize = 0;
        let mut high: usize = self.items.len();
        while low < high
            invariant
                self.wf(),
                low <= high <= self.items.len(),
                forall|i: int|
                    0 <= i < low ==> lex_before((#[trigger] self.items[i]).rank(), key.rank()),
                forall|i: int|
                    high <= i < self.items.len() ==> !lex_before(
                        (#[trigger] self.items[i]).rank(),
                        key.rank(),
                    ),
            decreases high - low,
        {
            let mid: usize = low + (high - low) / 2;
            let ghost middle = self.items[mid as int].rank();
            if self.items[mid].precedes(key) {
                proof {
                    assert forall|i: int| 0 <= i < mid + 1 implies lex_before(
                        (#[trigger] self.items[i]).rank(),
                        key.rank(),
                    ) by {
                        if i < mid {
                            lemma_lex_transitive(self.items[i].rank(), middle, key.rank());
                        }
                    }
                }
                low = mid + 1;
            } else {
                proof {
                    assert forall|i: int| mid <= i < self.items.len() implies !lex_before(
                        (#[trigger] self.items[i]).rank(),
                        key.rank(),
                    ) by {
                        if mid < i && lex_before(self.items[i].rank(), key.rank()) {
                            lemma_lex_transitive(middle, self.items[i].rank(), key.rank());
                        }
                    }
                }
                high = mid;
            }
        }
        low
    }

    /// Where the key of the rank of `key` stands, or else where it would have to stand.
    fn search(&self, key: &K) -> (found: Result<usize, usize>)
        requires
            self.wf(),
        ensures
            match found {
                Ok(at) => at < self.items.len() && self.items[at as int].rank() == key.rank(),
                Err(at) => {
                    &&& at <= self.items.len()
                    &&& !has_rank(self@, key.rank())
                    &&& forall|i: int|
                        0 <= i < at ==> lex_before((#[trigger] self.items[i]).rank(), key.rank())
                    &&& forall|i: int|
                        at <= i < self.items.len() ==> lex_before(
                            key.rank(),
                            (#[trigger] self.items[i]).rank(),
                        )
                },
            },
    {
        let at: usize = self.lower_bound(key);
        if at < self.items.len() && !key.precedes(&self.items[at]) {
            proof {
                lemma_lex_total(self.items[at as int].rank(), key.rank());
            }
            return Ok(at);
        }
        proof {
            assert forall|i: int| at <= i < self.items.len() implies lex_before(
                key.rank(),
                (#[trigger] self.items[i]).rank(),
            ) by {
                if at < i {
                    lemma_lex_transitive(
                        key.rank(),
                        self.items[at as int].rank(),
                        self.items[i].rank(),
                    );
                }
            }
            lemma_lex_irreflexive(key.rank());
            if has_rank(self@, key.rank()) {
                let k = choose|k: K| #[trigger] self@.contains(k) && k.rank() == key.rank();
                let i = choose|i: int| 0 <= i < self.items.len() && self.items[i] == k;
                assert(self.items[i].rank() == key.rank());
            }
        }
        Err(at)
    }

    /// Adds `key`, unless a key of its rank is there already. Tells whether it was added.
    pub fn insert(&mut self, key: K) -> (added: bool)
        requires
            old(self).wf(),
        ensures
            final(self).wf(),
            added == !has_rank(old(self)@, key.rank()),
            final(self)@ == if added {
                old(self)@.insert(key)
            } else {
                old(self)@
            },
    {
        match self.search(&key) {
            Ok(at) => {
                assert(self@.contains(self.items[at as int]));
                false
            },
            Err(at) => {
                let ghost before = self.items@;
                self.items.insert(at, key);
                proof {
                    lemma_insert_to_set(before, at as int, key);
                }
                true
            },
        }
    }

    /// Takes out the key of the rank of `key`, if there is one. Tells whether there was.
    pub fn remove(&mut self, key: &K) -> (removed: bool)
        requires
            old(self).wf(),
        ensures
            final(self).wf(),
            removed == has_rank(old(self)@, key.rank()),
            final(self)@ == without_rank(old(self)@, key.rank()),
    {
        match self.search(key) {
            Ok(at) => {
                let ghost before = self.items@;
                proof {
                    assert(self@.contains(before[at as int]));
                    lemma_remove_to_set(before, at as int);
                }
                self.items.remove(at);
                true
            },
            Err(at) => {
                assert(without_rank(self@, key.rank()) =~= self@);
                false
            },
        }
    }

    /// Whether a key of the rank of `key` is in the set.
    pub fn contains(&self, key: &K) -> (found: bool)
        requires
            self.wf(),
        ensures
            found == has_rank(self@, key.rank()),
    {
        match self.search(key) {
            Ok(at) => {
                assert(self@.contains(self.items[at as int]));
                true
            },
            Err(_) => false,
        }
    }

    /// How many keys the set holds.
    pub fn len(&self) -> (count: usize)
        requires
            self.wf(),
        ensures
            self@.finite(),
            count == self@.len(),
    {
        proof {
            lemma_ascending_distinct(self.items@);
            self.items@.unique_seq_to_set();
        }
        self.items.len()
    }

    /// The key of the greatest rank, if there is one.
    pub fn last(&self) -> (greatest: Option<&K>)
        requires
            self.wf(),
        ensures
            match greatest {
                Some(k) => {
                    &&& self@.contains(*k)
                    &&& forall|other: K| #[trigger]
                        self@.contains(other) ==> other.rank() == k.rank() || lex_before(
                            other.rank(),
                            k.rank(),
                        )
                },
                None => self@ == Set::<K>::empty(),
            },
    {
        let count: usize = self.items.len();
        if count == 0 {
            assert(self@ =~= Set::<K>::empty());
            return None;
        }
        proof {
            assert(self@.contains(self.items[count - 1]));
            assert forall|other: K| #[trigger] self@.contains(other) implies other.rank()
                == self.items[count - 1].rank() || lex_before(
                other.rank(),
                self.items[count - 1].rank(),
            ) by {
                let i = choose|i: int| 0 <= i < self.items.len() && self.items[i] == other;
                assert(i == count - 1 || lex_before(
                    self.items[i].rank(),
                    self.items[count - 1].rank(),
                ));
            }
        }
        Some(&self.items[count - 1])
    }

    /// Takes out the keys that come before `bound`, and returns them in ascending order.
    pub fn take_before(&mut self, bound: &K) -> (taken: Vec<K>)
        requires
            old(self).wf(),
        ensures
            final(self).wf(),
            ascending(taken@),
            taken@.to_set() == old(self)@.filter(|k: K| lex_before(k.rank(), bound.rank())),
            final(self)@ == old(self)@.filter(|k: K| !lex_before(k.rank(), bound.rank())),
    {
        let at: usize = self.lower_bound(bound);
        let ghost before = self.items@;
        let mut taken: Vec<K> = Vec::new();
        std::mem::swap(&mut taken, &mut self.items);
        self.items = taken.split_off(at);
        proof {
            assert(before == taken@ + self.items@);
            assert forall|k: K| taken@.to_set().contains(k) <==> #[trigger] before.to_set().contains(
                k,
            ) && lex_before(k.rank(), bound.rank()) by {
                if taken@.contains(k) {
                    let i = choose|i: int| 0 <= i < taken.len() && taken[i] == k;
                    assert(before[i] == k);
                }
                if before.contains(k) && lex_before(k.rank(), bound.rank()) {
                    let i = choose|i: int| 0 <= i < before.len() && before[i] == k;
                    assert(i < at);
                    assert(taken[i] == k);
                }
            }
            assert(taken@.to_set() =~= before.to_set().filter(
                |k: K| lex_before(k.rank(), bound.rank()),
            ));
            assert forall|k: K| self@.contains(k) <==> #[trigger] before.to_set().contains(k)
                && !lex_before(k.rank(), bound.rank()) by {
                if self.items@.contains(k) {
                    let i = choose|i: int| 0 <= i < self.items.len() && self.items[i] == k;
                    assert(before[at + i] == k);
                }
                if before.contains(k) && !lex_before(k.rank(), bound.rank()) {
                    let i = choose|i: int| 0 <= i < before.len() && before[i] == k;
                    assert(self.items[i - at] == k);
                }
            }
            assert(self@ =~= before.to_set().filter(|k: K| !lex_before(k.rank(), bound.rank())));
        }
        taken
    }
}

impl<K: SortKey + Copy> OrderedSet<K> {
    /// The keys in ascending order.
    pub fn to_ascending(&self) -> (keys: Vec<K>)
        requires
            self.wf(),
        ensures
            ascending(keys@),
            keys@.to_set() == self@,
    {
        let mut keys: Vec<K> = Vec::new();
        let mut next: usize = 0;
        while next < self.items.len()
            invariant
                next <= self.items.len(),
                keys@ == self.items@.take(next as int),
            decreases self.items.len() - next,
        {
            keys.push(self.items[next]);
            next = next + 1;
        }
        assert(keys@ =~= self.items@);
        keys
    }

    /// The keys in descending order.
    pub fn to_descending(&self) -> (keys: Vec<K>)
        requires
            self.wf(),
        ensures
            descending(keys@),
            keys@.to_set() == self@,
    {
        let mut keys: Vec<K> = Vec::new();
        let mut left: usize = self.items.len();
        while left > 0
            invariant
                left <= self.items.len(),
                keys.len() == self.items.len() - left,
                forall|i: int|
                    0 <= i < keys.len() ==> #[trigger] keys[i] == self.items[self.items.len() - 1 - i],
            decreases left,
        {
            left = left - 1;
            keys.push(self.items[left]);
        }
        proof {
            assert forall|k: K| keys@.contains(k) <==> self.items@.contains(k) by {
                if keys@.contains(k) {
                    let i = choose|i: int| 0 <= i < keys.len() && keys[i] == k;
                    assert(self.items[self.items.len() - 1 - i] == k);
                }
                if self.items@.contains(k) {
                    let i = choose|i: int| 0 <= i < self.items.len() && self.items[i] == k;
                    assert(keys[self.items.len() - 1 - i] == k);
                }
            }
            assert(keys@.to_set() =~= self@);
        }
        keys
    }
}

/// A map with at most one entry for each rank, whose entries stand in ascending order of rank.
pub struct OrderedMap<K, V> {
    keys: OrderedSet<K>,
    values: Vec<V>,
}

impl<K: SortKey, V> View for OrderedMap<K, V> {
    type V = Map<Seq<int>, V>;

    /// From the rank of each key to its value.
    closed spec fn view(&self) -> Map<Seq<int>, V> {
        Map::new(
            |rank: Seq<int>| has_rank(self.keys@, rank),
            |rank: Seq<int>| self.values@[self.place(rank)],
        )
    }
}

impl<K: SortKey, V> OrderedMap<K, V> {
    /// The keys are in order, and each has its value.
    pub closed spec fn wf(&self) -> bool {
        self.keys.wf() && self.keys.items.len() == self.values.len()
    }

    /// The keys of the entries.
    pub closed spec fn key_set(&self) -> Set<K> {
        self.keys@
    }

    /// Where the entry of the given rank stands.
    closed spec fn place(&self, rank: Seq<int>) -> int {
        choose|i: int| 0 <= i < self.keys.items.len() && (#[trigger] self.keys.items[i]).rank() == rank
    }

    /// The entry at a place is the entry of the rank of its key.
    proof fn lemma_entry(&self, at: int)
        requires
            self.wf(),
            0 <= at < self.values.len(),
        ensures
            self@.contains_key(self.keys.items[at].rank()),
            self@[self.keys.items[at].rank()] == self.values[at],
            self.key_set().contains(self.keys.items[at]),
    {
        let rank = self.keys.items[at].rank();
        assert(self.keys@.contains(self.keys.items[at]));
        let p = self.place(rank);
        lemma_lex_irreflexive(rank);
        if p < at {
            assert(lex_before(self.keys.items[p].rank(), self.keys.items[at].rank()));
        } else if at < p {
            assert(lex_before(self.keys.items[at].rank(), self.keys.items[p].rank()));
        }
    }

    /// Every rank of the map is that of the key at some place.
    proof fn lemma_place(&self, rank: Seq<int>) -> (at: int)
        requires
            self.wf(),
            self@.contains_key(rank),
        ensures
            0 <= at < self.values.len(),
            self.keys.items[at].rank() == rank,
            self@[rank] == self.values[at],
    {
        let k = choose|k: K| #[trigger] self.keys@.contains(k) && k.rank() == rank;
        let at = choose|i: int| 0 <= i < self.keys.items.len() && self.keys.items[i] == k;
        self.lemma_entry(at);
        at
    }

    /// Changing the value at a place changes the value of the rank of its key.
    proof fn lemma_changed(&self, changed: Self, at: int)
        requires
            self.wf(),
            0 <= at < self.values.len(),
            changed.keys == self.keys,
            changed.values@ == self.values@.update(at, changed.values[at]),
        ensures
            changed@ == self@.insert(self.keys.items[at].rank(), changed.values[at]),
    {
        let rank = self.keys.items[at].rank();
        self.lemma_entry(at);
        changed.lemma_entry(at);
        assert forall|r: Seq<int>| #[trigger] self@.contains_key(r) && r != rank implies changed@[r]
            == self@[r] by {
            let i = self.lemma_place(r);
            changed.lemma_entry(i);
        }
        assert(changed@ =~= self@.insert(rank, changed.values[at]));
    }

    /// The ranks of the map are the ranks of its keys.
    pub proof fn lemma_ranks(&self, rank: Seq<int>)
        ensures
            self@.contains_key(rank) == has_rank(self.key_set(), rank),
    {
    }

    /// The empty map.
    pub fn new() -> (map: Self)
        ensures
            map.wf(),
            map@ == Map::<Seq<int>, V>::empty(),
            map.key_set() == Set::<K>::empty(),
    {
        let map = OrderedMap { keys: OrderedSet { items: Vec::new() }, values: Vec::new() };
        assert(map.key_set() =~= Set::<K>::empty());
        assert(map@ =~= Map::<Seq<int>, V>::empty());
        map
    }

    /// Sets the value of `key`. A key of the same rank that is there already stays.
    pub fn insert(&mut self, key: K, value: V)
        requires
            old(self).wf(),
        ensures
            final(self).wf(),
            final(self)@ == old(self)@.insert(key.rank(), value),
            final(self).key_set() == if old(self)@.contains_key(key.rank()) {
                old(self).key_set()
            } else {
                old(self).key_set().insert(key)
            },
    {
        let ghost rank = key.rank();
        match self.keys.search(&key) {
            Ok(at) => {
                proof {
                    self.lemma_entry(at as int);
                }
                self.values.set(at, value);
                proof {
                    old(self).lemma_changed(*self, at as int);
                }
            },
            Err(at) => {
                let ghost before = self.keys.items@;
                self.keys.items.insert(at, key);
                self.values.insert(at, value);
                proof {
                    lemma_insert_to_set(before, at as int, key);
                    self.lemma_entry(at as int);
                    assert forall|r: Seq<int>| r != rank implies #[trigger] self@.contains_key(r)
                        == old(self)@.contains_key(r) && (self@.contains_key(r) ==> self@[r]
                        == old(self)@[r]) by {
                        if self@.contains_key(r) {
                            let i = self.lemma_place(r);
                            old(self).lemma_entry(if i < at { i } else { i - 1 });
                        }
                        if old(self)@.contains_key(r) {
                            let i = old(self).lemma_place(r);
                            self.lemma_entry(if i < at { i } else { i + 1 });
                        }
                    }
                    assert(self@ =~= old(self)@.insert(rank, value));
                }
            },
        }
    }

    /// Takes out the entry of the rank of `key`, and returns its value.
    pub fn remove(&mut self, key: &K) -> (removed: Option<V>)
        requires
            old(self).wf(),
        ensures
            final(self).wf(),
            match removed {
                Some(value) => old(self)@.contains_key(key.rank()) && value == old(
                    self,
                )@[key.rank()],
                None => !old(self)@.contains_key(key.rank()),
            },
            final(self)@ == old(self)@.remove(key.rank()),
            final(self).key_set() == without_rank(old(self).key_set(), key.rank()),
    {
        let ghost rank = key.rank();
        match self.keys.search(key) {
            Ok(at) => {
                let ghost before = self.keys.items@;
                proof {
                    self.lemma_entry(at as int);
                    lemma_remove_to_set(before, at as int);
                }
                self.keys.items.remove(at);
                let value = self.values.remove(at);
                proof {
                    assert forall|r: Seq<int>| r != rank implies #[trigger] self@.contains_key(r)
                        == old(self)@.contains_key(r) && (self@.contains_key(r) ==> self@[r]
                        == old(self)@[r]) by {
                        if self@.contains_key(r) {
                            let i = self.lemma_place(r);
                            old(self).lemma_entry(if i < at { i } else { i + 1 });
                        }
                        if old(self)@.contains_key(r) {
                            let i = old(self).lemma_place(r);
                            assert(i != at);
                            self.lemma_entry(if i < at { i } else { i - 1 });
                        }
                    }
                    assert(self@ =~= old(self)@.remove(rank));
                }
                Some(value)
            },
            Err(_) => {
                proof {
                    assert(self@ =~= self@.remove(rank));
                    assert(without_rank(self.key_set(), rank) =~= self.key_set());
                }
                None
            },
        }
    }

    /// The value of `key`.
    pub fn get(&self, key: &K) -> (value: Option<&V>)
        requires
            self.wf(),
        ensures
            match value {
                Some(v) => self@.contains_key(key.rank()) && *v == self@[key.rank()],
                None => !self@.contains_key(key.rank()),
            },
    {
        match self.keys.search(key) {
            Ok(at) => {
                proof {
                    self.lemma_entry(at as int);
                }
                Some(&self.values[at])
            },
            Err(_) => None,
        }
    }

    /// The value of `key`, to be changed in place.
    pub fn get_mut(&mut self, key: &K) -> (value: Option<&mut V>)
        requires
            old(self).wf(),
        ensures
            match value {
                Some(v) => {
                    &&& old(self)@.contains_key(key.rank())
                    &&& *v == old(self)@[key.rank()]
                    &&& final(self).wf()
                    &&& final(self)@ == old(self)@.insert(key.rank(), *final(v))
                    &&& final(self).key_set() == old(self).key_set()
                },
                None => !old(self)@.contains_key(key.rank()) && *final(self) == *old(self),
            },
    {
        match self.keys.search(key) {
            Ok(at) => {
                proof {
                    self.lemma_entry(at as int);
                    assert forall|changed: Self|
                        changed.keys == self.keys && changed.values@ == self.values@.update(
                            at as int,
                            changed.values[at as int],
                        ) implies #[trigger] changed@ == self@.insert(
                        key.rank(),
                        changed.values[at as int],
                    ) by {
                        self.lemma_changed(changed, at as int);
                    }
                }
                Some(&mut self.values[at])
            },
            Err(_) => None,
        }
    }

    /// The key and the value at a place, counted in ascending order of rank.
    pub fn entry_at(&self, at: usize) -> (entry: (&K, &V))
        requires
            self.wf(),
            at < self.key_set().len(),
        ensures
            *entry.0 == self.listed()[at as int],
            self@.contains_key(entry.0.rank()),
            *entry.1 == self@[entry.0.rank()],
    {
        proof {
            self.law_listing();
            self.lemma_entry(at as int);
        }
        (&self.keys.items[at], &self.values[at])
    }

    /// The keys in ascending order.
    pub closed spec fn listed(&self) -> Seq<K> {
        self.keys.items@
    }

    /// The listing of the keys is in ascending order and holds each key once.
    pub proof fn law_listing(&self)
        requires
            self.wf(),
        ensures
            ascending(self.listed()),
            self.listed().no_duplicates(),
            self.listed().to_set() == self.key_set(),
            self.listed().len() == self.key_set().len(),
    {
        lemma_ascending_distinct(self.keys.items@);
        self.keys.items@.unique_seq_to_set();
    }

    /// How many entries the map holds.
    pub fn len(&self) -> (count: usize)
        requires
            self.wf(),
        ensures
            self.key_set().finite(),
            count == self.key_set().len(),
    {
        self.keys.len()
    }
}

impl<K: SortKey + Copy, V> OrderedMap<K, V> {
    /// The keys of the entries in ascending order.
    pub fn to_keys(&self) -> (keys: Vec<K>)
        requires
            self.wf(),
        ensures
            ascending(keys@),
            keys@.no_duplicates(),
            keys@.to_set() == self.key_set(),
    {
        let keys = self.keys.to_ascending();
        proof {
            lemma_ascending_distinct(keys@);
        }
        keys
    }
}

/// Keys of strictly rising ranks are distinct.
proof fn lemma_ascending_distinct<K: SortKey>(keys: Seq<K>)
    requires
        ascending(keys),
    ensures
        keys.no_duplicates(),
{
    assert forall|i: int, j: int| 0 <= i < keys.len() && 0 <= j < keys.len() && i != j implies keys[i]
        != keys[j] by {
        lemma_lex_irreflexive(keys[i].rank());
        if i < j {
            assert(lex_before(keys[i].rank(), keys[j].rank()));
        } else {
            assert(lex_before(keys[j].rank(), keys[i].rank()));
        }
    }
}

/// There is only one way to list a set of keys in ascending order.
pub proof fn law_ascending_listing_is_unique<K: SortKey>(a: Seq<K>, b: Seq<K>)
    requires
        ascending(a),
        ascending(b),
        a.to_set() == b.to_set(),
    ensures
        a == b,
    decreases a.len(),
{
    if a.len() == 0 {
        if b.len() > 0 {
            assert(b.to_set().contains(b[0]));
            assert(a.to_set().contains(b[0]));
        }
        assert(a =~= b);
    } else {
        assert(a.to_set().contains(a.last()));
        assert(b.to_set().contains(a.last()));
        let j = choose|j: int| 0 <= j < b.len() && b[j] == a.last();
        assert(b.to_set().contains(b.last()));
        assert(a.to_set().contains(b.last()));
        let i = choose|i: int| 0 <= i < a.len() && a[i] == b.last();
        if j < b.len() - 1 {
            assert(lex_before(b[j].rank(), b[b.len() - 1].rank()));
            lemma_lex_irreflexive(a.last().rank());
            if i < a.len() - 1 {
                assert(lex_before(a[i].rank(), a[a.len() - 1].rank()));
                lemma_lex_transitive(a.last().rank(), b.last().rank(), a.last().rank());
            }
        }
        assert(a.last() == b.last());
        lemma_ascending_distinct(a);
        lemma_ascending_distinct(b);
        assert forall|k: K| a.drop_last().contains(k) <==> b.drop_last().contains(k) by {
            if a.drop_last().contains(k) {
                let p = choose|p: int| 0 <= p < a.len() - 1 && a.drop_last()[p] == k;
                assert(a[p] == k && a[p] != a[a.len() - 1]);
                assert(a.to_set().contains(k));
                assert(b.to_set().contains(k));
                let q = choose|q: int| 0 <= q < b.len() && b[q] == k;
                assert(b.drop_last()[q] == k);
            }
            if b.drop_last().contains(k) {
                let p = choose|p: int| 0 <= p < b.len() - 1 && b.drop_last()[p] == k;
                assert(b[p] == k && b[p] != b[b.len() - 1]);
                assert(b.to_set().contains(k));
                assert(a.to_set().contains(k));
                let q = choose|q: int| 0 <= q < a.len() && a[q] == k;
                assert(a.drop_last()[q] == k);
            }
        }
        assert(a.drop_last().to_set() =~= b.drop_last().to_set());
        law_ascending_listing_is_unique(a.drop_last(), b.drop_last());
        assert(a =~= a.drop_last().push(a.last()));
        assert(b =~= b.drop_last().push(b.last()));
    }
}

/// There is only one way to list a set of keys in descending order.
pub proof fn law_descending_listing_is_unique<K: SortKey>(a: Seq<K>, b: Seq<K>)
    requires
        descending(a),
        descending(b),
        a.to_set() == b.to_set(),
    ensures
        a == b,
{
    lemma_reverse_to_set(a);
    lemma_reverse_to_set(b);
    law_ascending_listing_is_unique(a.reverse(), b.reverse());
    assert(a =~= a.reverse().reverse());
    assert(b =~= b.reverse().reverse());
}

/// Reversing a sequence keeps its elements.
proof fn lemma_reverse_to_set<K>(keys: Seq<K>)
    ensures
        keys.reverse().to_set() == keys.to_set(),
{
    assert forall|k: K| keys.contains(k) <==> keys.reverse().contains(k) by {
        if keys.contains(k) {
            let i = choose|i: int| 0 <= i < keys.len() && keys[i] == k;
            assert(keys.reverse()[keys.len() - 1 - i] == k);
        }
        if keys.reverse().contains(k) {
            let i = choose|i: int| 0 <= i < keys.len() && keys.reverse()[i] == k;
            assert(keys[keys.len() - 1 - i] == k);
        }
    }
    assert(keys.reverse().to_set() =~= keys.to_set());
}

/// Inserting into a sequence inserts into the set of its elements.
proof fn lemma_insert_to_set<K>(keys: Seq<K>, at: int, key: K)
    requires
        0 <= at <= keys.len(),
    ensures
        keys.insert(at, key).to_set() == keys.to_set().insert(key),
{
    let after = keys.insert(at, key);
    assert forall|k: K| after.contains(k) <==> keys.contains(k) || k == key by {
        if keys.contains(k) {
            let i = choose|i: int| 0 <= i < keys.len() && keys[i] == k;
            assert(after[if i < at { i } else { i + 1 }] == k);
        }
        if k == key {
            assert(after[at] == k);
        }
        if after.contains(k) && k != key {
            let i = choose|i: int| 0 <= i < after.len() && after[i] == k;
            assert(keys[if i < at { i } else { i - 1 }] == k);
        }
    }
    assert(after.to_set() =~= keys.to_set().insert(key));
}

/// Removing the key at a place of an ascending sequence removes its rank from the set.
proof fn lemma_remove_to_set<K: SortKey>(keys: Seq<K>, at: int)
    requires
        ascending(keys),
        0 <= at < keys.len(),
    ensures
        ascending(keys.remove(at)),
        keys.remove(at).to_set() == without_rank(keys.to_set(), keys[at].rank()),
{
    let after = keys.remove(at);
    let rank = keys[at].rank();
    lemma_lex_irreflexive(rank);
    assert forall|k: K| after.contains(k) <==> keys.contains(k) && k.rank() != rank by {
        if after.contains(k) {
            let i = choose|i: int| 0 <= i < after.len() && after[i] == k;
            let j = if i < at { i } else { i + 1 };
            assert(keys[j] == k);
            assert(lex_before(keys[j].rank(), rank) || lex_before(rank, keys[j].rank()));
        }
        if keys.contains(k) && k.rank() != rank {
            let i = choose|i: int| 0 <= i < keys.len() && keys[i] == k;
            assert(after[if i < at { i } else { i - 1 }] == k);
        }
    }
    assert(after.to_set() =~= without_rank(keys.to_set(), rank));
}

/// The first difference between two sequences decides their order, and a sequence comes before each
/// that it is the beginning of.
pub proof fn law_first_difference_decides(a: Seq<int>, b: Seq<int>, at: int)
    requires
        0 <= at <= a.len(),
        at < b.len(),
        forall|i: int| 0 <= i < at ==> a[i] == b[i],
        at < a.len() ==> a[at] != b[at],
    ensures
        lex_before(a, b) == (at == a.len() || a[at] < b[at]),
        lex_before(b, a) == (at < a.len() && b[at] < a[at]),
    decreases at,
{
    if at > 0 {
        let (rest_a, rest_b) = (a.drop_first(), b.drop_first());
        assert(a[0] == b[0]);
        assert forall|i: int| 0 <= i < at - 1 implies rest_a[i] == rest_b[i] by {
            assert(a[i + 1] == b[i + 1]);
        }
        law_first_difference_decides(rest_a, rest_b, at - 1);
    }
}

/// A set holds a rank just if one of its keys has it, and taking a rank out takes out the keys that
/// have it.
pub proof fn law_ranks_of_a_set<K: SortKey>(keys: Set<K>, rank: Seq<int>, key: K)
    ensures
        has_rank(keys, rank) <==> exists|k: K| #[trigger] keys.contains(k) && k.rank() == rank,
        without_rank(keys, rank).contains(key) <==> keys.contains(key) && key.rank() != rank,
{
}

/// What is listed in ascending order rises from each key to every later one, and what is listed in
/// descending order falls.
pub proof fn law_listings_are_in_order<K: SortKey>(keys: Seq<K>, i: int, j: int)
    requires
        0 <= i < j < keys.len(),
    ensures
        ascending(keys) ==> lex_before(keys[i].rank(), keys[j].rank()),
        descending(keys) ==> lex_before(keys[j].rank(), keys[i].rank()),
{
}

} // verus!
