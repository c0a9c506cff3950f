//! Occurrence counters: a count per key, the tallies of one log.
use vstd::prelude::*;
use vstd::hash_map::StringHashMap;
use vstd::std_specs::hash::obeys_key_model;
use std::collections::HashMap;

verus! {

broadcast use vstd::std_specs::hash::group_hash_axioms;

/// How many times `k` was counted in `m` (0 where it never was).
pub open spec fn count<K>(m: Map<K, nat>, k: K) -> nat {
    if m.contains_key(k) {
        m[k]
    } else {
        0
    }
}

/// `m` after counting `k` another `n` times.
pub open spec fn bump<K>(m: Map<K, nat>, k: K, n: nat) -> Map<K, nat> {
    m.insert(k, count(m, k) + n)
}

/// The counts of two tallies added key by key.
pub open spec fn merge_counts<K>(a: Map<K, nat>, b: Map<K, nat>) -> Map<K, nat> {
    Map::new(|k: K| a.contains_key(k) || b.contains_key(k), |k: K| count(a, k) + count(b, k))
}

/// Adding `b` to `a` key by key keeps every count within `u64`.
pub open spec fn merge_fits<K>(a: Map<K, nat>, b: Map<K, nat>) -> bool {
    forall|k: K| #![trigger a.contains_key(k)] #![trigger b.contains_key(k)]
        count(a, k) + count(b, k) <= u64::MAX
}

/// Every count of `m` is at most `bound`.
pub open spec fn counts_at_most<K>(m: Map<K, nat>, bound: nat) -> bool {
    forall|k: K| #[trigger] m.contains_key(k) ==> m[k] <= bound
}

/// Merging tallies does not depend on their order.
pub proof fn lemma_merge_counts_commutative<K>(a: Map<K, nat>, b: Map<K, nat>)
    ensures
        merge_counts(a, b) == merge_counts(b, a),
{
    assert(merge_counts(a, b) =~= merge_counts(b, a));
}

/// Merging tallies does not depend on their grouping.
pub proof fn lemma_merge_counts_associative<K>(a: Map<K, nat>, b: Map<K, nat>, c: Map<K, nat>)
    ensures
        merge_counts(merge_counts(a, b), c) == merge_counts(a, merge_counts(b, c)),
{
    assert(merge_counts(merge_counts(a, b), c) =~= merge_counts(a, merge_counts(b, c)));
}

/// The empty tally changes nothing when merged.
pub proof fn lemma_merge_counts_empty<K>(a: Map<K, nat>)
    ensures
        merge_counts(a, Map::empty()) == a,
        merge_counts(Map::empty(), a) == a,
{
    assert(merge_counts(a, Map::empty()) =~= a);
    assert(merge_counts(Map::empty(), a) =~= a);
}

/// Counting a key is merging a tally that holds only that key.
pub proof fn lemma_bump_is_merge<K>(m: Map<K, nat>, k: K, n: nat)
    ensures
        bump(m, k, n) == merge_counts(m, Map::empty().insert(k, n)),
{
    assert(bump(m, k, n) =~= merge_counts(m, Map::empty().insert(k, n)));
}

/// Counting two keys gives the same tally in either order.
pub proof fn lemma_bump_commutes<K>(m: Map<K, nat>, k1: K, n1: nat, k2: K, n2: nat)
    ensures
        bump(bump(m, k1, n1), k2, n2) == bump(bump(m, k2, n2), k1, n1),
{
    assert(bump(bump(m, k1, n1), k2, n2) =~= bump(bump(m, k2, n2), k1, n1));
}

/// Counting into the right side of a merge is counting into the merge.
pub proof fn lemma_bump_merge<K>(a: Map<K, nat>, b: Map<K, nat>, k: K, n: nat)
    ensures
        merge_counts(a, bump(b, k, n)) == bump(merge_counts(a, b), k, n),
{
    assert(merge_counts(a, bump(b, k, n)) =~= bump(merge_counts(a, b), k, n));
}

/// A count per text key (client addresses, request paths).
pub struct TextCounts {
    map: StringHashMap<u64>,
    keys: Vec<String>,
}

impl View for TextCounts {
    type V = Map<Seq<char>, nat>;

    closed spec fn view(&self) -> Map<Seq<char>, nat> {
        Map::new(|k: Seq<char>| self.map@.contains_key(k), |k: Seq<char>| self.map@[k] as nat)
    }
}

impl TextCounts {
    /// The keys in the order they were first counted.
    pub closed spec fn key_order(&self) -> Seq<Seq<char>> {
        self.keys@.map_values(|s: String| s@)
    }

    /// The key list names every counted key once.
    pub closed spec fn wf(&self) -> bool {
        &&& forall|i: int|
            0 <= i < self.keys.len() ==> self.map@.contains_key(#[trigger] self.keys@[i]@)
        &&& forall|i: int, j: int|
            #![trigger self.keys@[i], self.keys@[j]]
            0 <= i < j < self.keys.len() ==> self.keys@[i]@ != self.keys@[j]@
        &&& forall|k: Seq<char>| #[trigger]
            self.map@.contains_key(k) ==> exists|i: int|
                0 <= i < self.keys.len() && self.keys@[i]@ == k
    }

    pub proof fn lemma_key_order(&self)
        requires
            self.wf(),
        ensures
            self.key_order().no_duplicates(),
            forall|k: Seq<char>| self@.contains_key(k) <==> self.key_order().contains(k),
            self.key_order().len() == self@.dom().len(),
            self@.dom().finite(),
    {
        let ks = self.key_order();
        assert forall|i: int, j: int| 0 <= i < ks.len() && 0 <= j < ks.len() && i != j implies ks[i]
            != ks[j] by {
            if i < j {
                assert(self.keys@[i]@ != self.keys@[j]@);
            } else {
                assert(self.keys@[j]@ != self.keys@[i]@);
            }
        }
        assert forall|k: Seq<char>| self@.contains_key(k) <==> ks.contains(k) by {
            if self@.contains_key(k) {
                assert(self.map@.contains_key(k));
                let i = choose|i: int| 0 <= i < self.keys.len() && self.keys@[i]@ == k;
                assert(ks[i] == k);
            }
            if ks.contains(k) {
                let i = choose|i: int| 0 <= i < ks.len() && ks[i] == k;
                assert(self.map@.contains_key(self.keys@[i]@));
            }
        }
        assert(self@.dom() =~= ks.to_set());
        ks.unique_seq_to_set();
    }

    /// An empty counter.
    pub fn new() -> (r: Self)
        ensures
            r.wf(),
            r@ == Map::<Seq<char>, nat>::empty(),
    {
        let r = TextCounts { map: StringHashMap::new(), keys: Vec::new() };
        assert(r@ =~= Map::<Seq<char>, nat>::empty());
        r
    }

    /// How many times `key` was counted, if it was.
    pub fn get(&self, key: &str) -> (r: Option<&u64>)
        ensures
            match r {
                Some(n) => self@.contains_key(key@) && self@[key@] == *n as nat,
                None => !self@.contains_key(key@),
            },
    {
        self.map.get(key)
    }

    /// How many times `key` was counted (0 where it never was).
    pub fn count_of(&self, key: &str) -> (r: u64)
        ensures
            r == count(self@, key@),
    {
        match self.map.get(key) {
            Some(n) => *n,
            None => 0,
        }
    }

    /// Number of distinct keys.
    pub fn len(&self) -> (r: usize)
        requires
            self.wf(),
        ensures
            r == self@.dom().len(),
    {
        proof {
            self.lemma_key_order();
        }
        self.keys.len()
    }

    /// Counts `key` another `n` times where the count stays within `u64`,
    /// and says whether it did; otherwise the counter is left as it is.
    pub fn try_add(&mut self, key: String, n: u64) -> (ok: bool)
        requires
            old(self).wf(),
        ensures
            final(self).wf(),
            ok == (count(old(self)@, key@) + n <= u64::MAX),
            ok ==> final(self)@ == bump(old(self)@, key@, n as nat),
            !ok ==> final(self)@ == old(self)@,
    {
        let c = self.count_of(key.as_str());
        if c <= u64::MAX - n {
            self.add(key, n);
            true
        } else {
            false
        }
    }

    /// Counts `key` another `n` times.
    pub fn add(&mut self, key: String, n: u64)
        requires
            old(self).wf(),
            count(old(self)@, key@) + n <= u64::MAX,
        ensures
            final(self).wf(),
            final(self)@ == bump(old(self)@, key@, n as nat),
    {
        let ghost k = key@;
        match self.map.get(key.as_str()) {
            Some(c) => {
                let c = *c;
                self.map.insert(key, c + n);
                assert forall|i: int| 0 <= i < self.keys.len() implies self.map@.contains_key(
                    #[trigger] self.keys@[i]@,
                ) by {
                    assert(old(self).map@.contains_key(self.keys@[i]@));
                }
                assert forall|q: Seq<char>| #[trigger]
                    self.map@.contains_key(q) implies exists|i: int|
                    0 <= i < self.keys.len() && self.keys@[i]@ == q by {
                    assert(old(self).map@.contains_key(q));
                }
            },
            None => {
                let copy = key.clone();
                self.keys.push(copy);
                self.map.insert(key, n);
                let last = self.keys.len() - 1;
                assert(self.keys@[last as int]@ == k);
                assert forall|i: int| 0 <= i < self.keys.len() implies self.map@.contains_key(
                    #[trigger] self.keys@[i]@,
                ) by {
                    if i < last {
                        assert(old(self).map@.contains_key(old(self).keys@[i]@));
                    }
                }
                assert forall|i: int, j: int|
                    0 <= i < j < self.keys.len() implies #[trigger] self.keys@[i]@
                    != #[trigger] self.keys@[j]@ by {
                    if j == last {
                        assert(old(self).map@.contains_key(old(self).keys@[i]@));
                    } else {
                        assert(old(self).keys@[i]@ != old(self).keys@[j]@);
                    }
                }
                assert forall|q: Seq<char>| #[trigger]
                    self.map@.contains_key(q) implies exists|i: int|
                    0 <= i < self.keys.len() && self.keys@[i]@ == q by {
                    if q == k {
                        assert(self.keys@[last as int]@ == q);
                    } else {
                        assert(old(self).map@.contains_key(q));
                        let i = choose|i: int|
                            0 <= i < old(self).keys.len() && old(self).keys@[i]@ == q;
                        assert(self.keys@[i]@ == q);
                    }
                }
            },
        }
        assert(self@ =~= bump(old(self)@, k, n as nat));
    }

    /// The counted keys with their counts, in the order the keys were first
    /// counted.
    pub fn entries(&self) -> (r: Vec<(String, u64)>)
        requires
            self.wf(),
        ensures
            r@.len() == self@.dom().len(),
            r@.map_values(|e: (String, u64)| e.0@) == self.key_order(),
            forall|i: int|
                0 <= i < r@.len() ==> self@.contains_key(#[trigger] r@[i].0@) && self@[r@[i].0@]
                    == r@[i].1 as nat,
    {
        proof {
            self.lemma_key_order();
        }
        let mut r: Vec<(String, u64)> = Vec::new();
        let mut i: usize = 0;
        while i < self.keys.len()
            invariant
                self.wf(),
                0 <= i <= self.keys.len(),
                r@.len() == i,
                forall|j: int| 0 <= j < i ==> #[trigger] r@[j].0@ == self.keys@[j]@,
                forall|j: int|
                    0 <= j < i ==> self@.contains_key(#[trigger] r@[j].0@) && self@[r@[j].0@]
                        == r@[j].1 as nat,
            decreases self.keys.len() - i,
        {
            let key = self.keys[i].clone();
            assert(self.map@.contains_key(self.keys@[i as int]@));
            let c = self.count_of(key.as_str());
            r.push((key, c));
            i = i + 1;
        }
        assert(r@.map_values(|e: (String, u64)| e.0@) =~= self.key_order());
        r
    }

    /// A copy of the counter: the same keys with the same counts.
    pub fn duplicate(&self) -> (r: Self)
        requires
            self.wf(),
        ensures
            r.wf(),
            r@ == self@,
    {
        let entries = self.entries();
        proof {
            self.lemma_key_order();
        }
        let ghost ko = self.key_order();
        let mut r = TextCounts::new();
        let mut i: usize = 0;
        while i < entries.len()
            invariant
                r.wf(),
                i <= entries@.len(),
                entries@.len() == ko.len(),
                ko.no_duplicates(),
                ko == self.key_order(),
                forall|j: int| 0 <= j < entries@.len() ==> #[trigger] entries@[j].0@ == ko[j],
                forall|j: int|
                    0 <= j < entries@.len() ==> self@.contains_key(#[trigger] entries@[j].0@)
                        && self@[entries@[j].0@] == entries@[j].1 as nat,
                forall|k: Seq<char>|
                    #[trigger] r@.contains_key(k) <==> exists|j: int| 0 <= j < i && ko[j] == k,
                forall|k: Seq<char>| #[trigger] r@.contains_key(k) ==> r@[k] == self@[k],
            decreases entries@.len() - i,
        {
            proof {
                assert(entries@.map_values(|e: (String, u64)| e.0@)[i as int] == entries@[i as int].0@);
                if r@.contains_key(ko[i as int]) {
                    let j = choose|j: int| 0 <= j < i && ko[j] == ko[i as int];
                    assert(false);
                }
            }
            let k = entries[i].0.clone();
            let n = entries[i].1;
            r.add(k, n);
            proof {
                assert forall|q: Seq<char>| #[trigger] r@.contains_key(q) implies exists|j: int|
                    0 <= j < i + 1 && ko[j] == q by {
                    if q != ko[i as int] {
                        let j = choose|j: int| 0 <= j < i && ko[j] == q;
                    }
                }
            }
            i = i + 1;
        }
        proof {
            assert forall|k: Seq<char>| self@.contains_key(k) implies r@.contains_key(k) by {
                assert(ko.contains(k));
                let x = choose|x: int| 0 <= x < ko.len() && ko[x] == k;
            }
            assert forall|k: Seq<char>| r@.contains_key(k) implies self@.contains_key(k) by {
                let j = choose|j: int| 0 <= j < i && ko[j] == k;
                assert(entries@[j].0@ == k);
            }
            assert(r@ =~= self@);
        }
        r
    }

    /// Whether adding `other` to this counter keeps every count within `u64`.
    pub fn can_merge(&self, other: &TextCounts) -> (r: bool)
        requires
            other.wf(),
        ensures
            r == merge_fits(self@, other@),
    {
        let mut i: usize = 0;
        while i < other.keys.len()
            invariant
                other.wf(),
                0 <= i <= other.keys.len(),
                forall|j: int|
                    0 <= j < i ==> count(self@, #[trigger] other.keys@[j]@) + count(
                        other@,
                        other.keys@[j]@,
                    ) <= u64::MAX,
            decreases other.keys.len() - i,
        {
            let a = self.count_of(other.keys[i].as_str());
            let b = other.count_of(other.keys[i].as_str());
            if a > u64::MAX - b {
                return false;
            }
            i = i + 1;
        }
        assert forall|k: Seq<char>| count(self@, k) + count(other@, k) <= u64::MAX by {
            if other@.contains_key(k) {
                assert(other.map@.contains_key(k));
                let j = choose|j: int| 0 <= j < other.keys.len() && other.keys@[j]@ == k;
                assert(count(self@, other.keys@[j]@) + count(other@, other.keys@[j]@)
                    <= u64::MAX);
            }
        }
        true
    }

    /// Adds the counts of `other` key by key.
    pub fn merge_from(&mut self, other: &TextCounts)
        requires
            old(self).wf(),
            other.wf(),
            merge_fits(old(self)@, other@),
        ensures
            final(self).wf(),
            final(self)@ == merge_counts(old(self)@, other@),
    {
        let ghost start = self@;
        let mut i: usize = 0;
        while i < other.keys.len()
            invariant
                self.wf(),
                other.wf(),
                0 <= i <= other.keys.len(),
                merge_fits(start, other@),
                forall|k: Seq<char>|
                    #![trigger self@.contains_key(k)]
                    #![trigger count(self@, k)]
                    (self@.contains_key(k) <==> (start.contains_key(k) || exists|j: int|
                        0 <= j < i && other.keys@[j]@ == k)) && count(self@, k) == count(start, k)
                        + (if exists|j: int| 0 <= j < i && other.keys@[j]@ == k {
                        count(other@, k)
                    } else {
                        0
                    }),
            decreases other.keys.len() - i,
        {
            let key = other.keys[i].clone();
            let ghost k = key@;
            let n = other.count_of(key.as_str());
            assert forall|j: int| 0 <= j < i implies other.keys@[j]@ != k by {
                assert(other.keys@[j]@ != other.keys@[i as int]@);
            }
            assert(!(exists|j: int| 0 <= j < i && other.keys@[j]@ == k));
            assert(count(self@, k) == count(start, k));
            assert(start.contains_key(k) || !start.contains_key(k));
            let ghost before = self@;
            self.add(key, n);
            assert forall|q: Seq<char>|
                #![trigger self@.contains_key(q)]
                #![trigger count(self@, q)]
                (self@.contains_key(q) <==> (start.contains_key(q) || exists|j: int|
                    0 <= j < i + 1 && other.keys@[j]@ == q)) && count(self@, q) == count(start, q)
                    + (if exists|j: int| 0 <= j < i + 1 && other.keys@[j]@ == q {
                    count(other@, q)
                } else {
                    0
                }) by {
                assert(count(before, q) == count(start, q) + (if exists|j: int|
                    0 <= j < i && other.keys@[j]@ == q {
                    count(other@, q)
                } else {
                    0
                }));
                if q == k {
                    assert(other.keys@[i as int]@ == q);
                } else {
                    if exists|j: int| 0 <= j < i + 1 && other.keys@[j]@ == q {
                        let j = choose|j: int| 0 <= j < i + 1 && other.keys@[j]@ == q;
                        assert(j < i);
                    }
                }
            }
            i = i + 1;
        }
        assert forall|k: Seq<char>| other@.contains_key(k) implies exists|j: int|
            0 <= j < other.keys.len() && other.keys@[j]@ == k by {
            assert(other.map@.contains_key(k));
        }
        assert(self@ =~= merge_counts(start, other@));
    }
}

/// A key of a [`KeyCounts`]: a small integer, ordered by its value.
pub trait CountKey: Copy + Eq + std::hash::Hash + Sized {
    /// The value by which keys are ordered.
    spec fn rank(self) -> int;

    fn key_rank(&self) -> (r: u32)
        ensures
            r as int == self.rank(),
    ;

    proof fn lemma_rank_injective(a: Self, b: Self)
        ensures
            a.rank() == b.rank() ==> a == b,
    ;

    proof fn lemma_rank_nonnegative(a: Self)
        ensures
            0 <= a.rank(),
    ;

    proof fn lemma_key_model()
        ensures
            obeys_key_model::<Self>(),
    ;
}

impl CountKey for u8 {
    open spec fn rank(self) -> int {
        self as int
    }

    fn key_rank(&self) -> (r: u32) {
        *self as u32
    }

    proof fn lemma_rank_injective(a: Self, b: Self) {
    }

    proof fn lemma_rank_nonnegative(a: Self) {
    }

    proof fn lemma_key_model() {
    }
}

impl CountKey for u16 {
    open spec fn rank(self) -> int {
        self as int
    }

    fn key_rank(&self) -> (r: u32) {
        *self as u32
    }

    proof fn lemma_rank_injective(a: Self, b: Self) {
    }

    proof fn lemma_rank_nonnegative(a: Self) {
    }

    proof fn lemma_key_model() {
    }
}

/// A count per small integer key (status codes, hours).
pub struct KeyCounts<K: CountKey> {
    map: HashMap<K, u64>,
    keys: Vec<K>,
}

impl<K: CountKey> View for KeyCounts<K> {
    type V = Map<K, nat>;

    closed spec fn view(&self) -> Map<K, nat> {
        Map::new(|k: K| self.map@.contains_key(k), |k: K| self.map@[k] as nat)
    }
}

impl<K: CountKey> KeyCounts<K> {
    /// The keys in the order they were first counted.
    pub closed spec fn key_order(&self) -> Seq<K> {
        self.keys@
    }

    /// The key list names every counted key once.
    pub closed spec fn wf(&self) -> bool {
        &&& forall|i: int|
            0 <= i < self.keys.len() ==> self.map@.contains_key(#[trigger] self.keys@[i])
        &&& forall|i: int, j: int|
            #![trigger self.keys@[i], self.keys@[j]]
            0 <= i < j < self.keys.len() ==> self.keys@[i] != self.keys@[j]
        &&& forall|k: K| #[trigger]
            self.map@.contains_key(k) ==> exists|i: int|
                0 <= i < self.keys.len() && self.keys@[i] == k
    }

    pub proof fn lemma_key_order(&self)
        requires
            self.wf(),
        ensures
            self.key_order().no_duplicates(),
            forall|k: K| self@.contains_key(k) <==> self.key_order().contains(k),
            self.key_order().len() == self@.dom().len(),
            self@.dom().finite(),
    {
        let ks = self.key_order();
        assert forall|i: int, j: int| 0 <= i < ks.len() && 0 <= j < ks.len() && i != j implies ks[i]
            != ks[j] by {
            if i < j {
                assert(self.keys@[i] != self.keys@[j]);
            } else {
                assert(self.keys@[j] != self.keys@[i]);
            }
        }
        assert forall|k: K| self@.contains_key(k) <==> ks.contains(k) by {
            if self@.contains_key(k) {
                assert(self.map@.contains_key(k));
                let i = choose|i: int| 0 <= i < self.keys.len() && self.keys@[i] == k;
                assert(ks[i] == k);
            }
            if ks.contains(k) {
                let i = choose|i: int| 0 <= i < ks.len() && ks[i] == k;
                assert(self.map@.contains_key(self.keys@[i]));
            }
        }
        assert(self@.dom() =~= ks.to_set());
        ks.unique_seq_to_set();
    }

    /// An empty counter.
    pub fn new() -> (r: Self)
        ensures
            r.wf(),
            r@ == Map::<K, nat>::empty(),
    {
        let r = KeyCounts { map: HashMap::new(), keys: Vec::new() };
        assert(r@ =~= Map::<K, nat>::empty());
        r
    }

    /// How many times `key` was counted, if it was.
    pub fn get(&self, key: &K) -> (r: Option<&u64>)
        ensures
            match r {
                Some(n) => self@.contains_key(*key) && self@[*key] == *n as nat,
                None => !self@.contains_key(*key),
            },
    {
        proof {
            K::lemma_key_model();
        }
        self.map.get(key)
    }

    /// How many times `key` was counted (0 where it never was).
    pub fn count_of(&self, key: K) -> (r: u64)
        ensures
            r == count(self@, key),
    {
        proof {
            K::lemma_key_model();
        }
        match self.map.get(&key) {
            Some(n) => *n,
            None => 0,
        }
    }

    /// Number of distinct keys.
    pub fn len(&self) -> (r: usize)
        requires
            self.wf(),
        ensures
            r == self@.dom().len(),
    {
        proof {
            self.lemma_key_order();
        }
        self.keys.len()
    }

    /// Counts `key` another `n` times where the count stays within `u64`,
    /// and says whether it did; otherwise the counter is left as it is.
    pub fn try_add(&mut self, key: K, n: u64) -> (ok: bool)
        requires
            old(self).wf(),
        ensures
            final(self).wf(),
            ok == (count(old(self)@, key) + n <= u64::MAX),
            ok ==> final(self)@ == bump(old(self)@, key, n as nat),
            !ok ==> final(self)@ == old(self)@,
    {
        let c = self.count_of(key);
        if c <= u64::MAX - n {
            self.add(key, n);
            true
        } else {
            false
        }
    }

    /// Counts `key` another `n` times.
    pub fn add(&mut self, key: K, n: u64)
        requires
            old(self).wf(),
            count(old(self)@, key) + n <= u64::MAX,
        ensures
            final(self).wf(),
            final(self)@ == bump(old(self)@, key, n as nat),
    {
        proof {
            K::lemma_key_model();
        }
        let ghost k = key;
        match self.map.get(&key) {
            Some(c) => {
                let c = *c;
                self.map.insert(key, c + n);
                assert forall|i: int| 0 <= i < self.keys.len() implies self.map@.contains_key(
                    #[trigger] self.keys@[i],
                ) by {
                    assert(old(self).map@.contains_key(self.keys@[i]));
                }
                assert forall|q: K| #[trigger]
                    self.map@.contains_key(q) implies exists|i: int|
                    0 <= i < self.keys.len() && self.keys@[i] == q by {
                    assert(old(self).map@.contains_key(q));
                }
            },
            None => {
                let copy = key;
                self.keys.push(copy);
                self.map.insert(key, n);
                let last = self.keys.len() - 1;
                assert(self.keys@[last as int] == k);
                assert forall|i: int| 0 <= i < self.keys.len() implies self.map@.contains_key(
                    #[trigger] self.keys@[i],
                ) by {
                    if i < last {
                        assert(old(self).map@.contains_key(old(self).keys@[i]));
                    }
                }
                assert forall|i: int, j: int|
                    0 <= i < j < self.keys.len() implies #[trigger] self.keys@[i]
                    != #[trigger] self.keys@[j] by {
                    if j == last {
                        assert(old(self).map@.contains_key(old(self).keys@[i]));
                    } else {
                        assert(old(self).keys@[i] != old(self).keys@[j]);
                    }
                }
                assert forall|q: K| #[trigger]
                    self.map@.contains_key(q) implies exists|i: int|
                    0 <= i < self.keys.len() && self.keys@[i] == q by {
                    if q == k {
                        assert(self.keys@[last as int] == q);
                    } else {
                        assert(old(self).map@.contains_key(q));
                        let i = choose|i: int|
                            0 <= i < old(self).keys.len() && old(self).keys@[i] == q;
                        assert(self.keys@[i] == q);
                    }
                }
            },
        }
        assert(self@ =~= bump(old(self)@, k, n as nat));
    }

    /// The counted keys with their counts, in the order the keys were first
    /// counted.
    pub fn entries(&self) -> (r: Vec<(K, u64)>)
        requires
            self.wf(),
        ensures
            r@.len() == self@.dom().len(),
            r@.map_values(|e: (K, u64)| e.0) == self.key_order(),
            forall|i: int|
                0 <= i < r@.len() ==> self@.contains_key(#[trigger] r@[i].0) && self@[r@[i].0]
                    == r@[i].1 as nat,
    {
        proof {
            self.lemma_key_order();
        }
        let mut r: Vec<(K, u64)> = Vec::new();
        let mut i: usize = 0;
        while i < self.keys.len()
            invariant
                self.wf(),
                0 <= i <= self.keys.len(),
                r@.len() == i,
                forall|j: int| 0 <= j < i ==> #[trigger] r@[j].0 == self.keys@[j],
                forall|j: int|
                    0 <= j < i ==> self@.contains_key(#[trigger] r@[j].0) && self@[r@[j].0]
                        == r@[j].1 as nat,
            decreases self.keys.len() - i,
        {
            let key = self.keys[i];
            assert(self.map@.contains_key(self.keys@[i as int]));
            let c = self.count_of(key);
            r.push((key, c));
            i = i + 1;
        }
        assert(r@.map_values(|e: (K, u64)| e.0) =~= self.key_order());
        r
    }

    /// A copy of the counter: the same keys with the same counts.
    pub fn duplicate(&self) -> (r: Self)
        requires
            self.wf(),
        ensures
            r.wf(),
            r@ == self@,
    {
        let entries = self.entries();
        proof {
            self.lemma_key_order();
        }
        let ghost ko = self.key_order();
        let mut r = KeyCounts::new();
        let mut i: usize = 0;
        while i < entries.len()
            invariant
                r.wf(),
                i <= entries@.len(),
                entries@.len() == ko.len(),
                ko.no_duplicates(),
                ko == self.key_order(),
                forall|j: int| 0 <= j < entries@.len() ==> #[trigger] entries@[j].0 == ko[j],
                forall|j: int|
                    0 <= j < entries@.len() ==> self@.contains_key(#[trigger] entries@[j].0)
                        && self@[entries@[j].0] == entries@[j].1 as nat,
                forall|k: K|
                    #[trigger] r@.contains_key(k) <==> exists|j: int| 0 <= j < i && ko[j] == k,
                forall|k: K| #[trigger] r@.contains_key(k) ==> r@[k] == self@[k],
            decreases entries@.len() - i,
        {
            proof {
                assert(entries@.map_values(|e: (K, u64)| e.0)[i as int] == entries@[i as int].0);
                if r@.contains_key(ko[i as int]) {
                    let j = choose|j: int| 0 <= j < i && ko[j] == ko[i as int];
                    assert(false);
                }
            }
            let k = entries[i].0;
            let n = entries[i].1;
            r.add(k, n);
            proof {
                assert forall|q: K| #[trigger] r@.contains_key(q) implies exists|j: int|
                    0 <= j < i + 1 && ko[j] == q by {
                    if q != ko[i as int] {
                        let j = choose|j: int| 0 <= j < i && ko[j] == q;
                    }
                }
            }
            i = i + 1;
        }
        proof {
            assert forall|k: K| self@.contains_key(k) implies r@.contains_key(k) by {
                assert(ko.contains(k));
                let x = choose|x: int| 0 <= x < ko.len() && ko[x] == k;
            }
            assert forall|k: K| r@.contains_key(k) implies self@.contains_key(k) by {
                let j = choose|j: int| 0 <= j < i && ko[j] == k;
                assert(entries@[j].0 == k);
            }
            assert(r@ =~= self@);
        }
        r
    }

    /// Whether adding `other` to this counter keeps every count within `u64`.
    pub fn can_merge(&self, other: &KeyCounts<K>) -> (r: bool)
        requires
            other.wf(),
        ensures
            r == merge_fits(self@, other@),
    {
        let mut i: usize = 0;
        while i < other.keys.len()
            invariant
                other.wf(),
                0 <= i <= other.keys.len(),
                forall|j: int|
                    0 <= j < i ==> count(self@, #[trigger] other.keys@[j]) + count(
                        other@,
                        other.keys@[j],
                    ) <= u64::MAX,
            decreases other.keys.len() - i,
        {
            let a = self.count_of(other.keys[i]);
            let b = other.count_of(other.keys[i]);
            if a > u64::MAX - b {
                return false;
            }
            i = i + 1;
        }
        assert forall|k: K| count(self@, k) + count(other@, k) <= u64::MAX by {
            if other@.contains_key(k) {
                assert(other.map@.contains_key(k));
                let j = choose|j: int| 0 <= j < other.keys.len() && other.keys@[j] == k;
                assert(count(self@, other.keys@[j]) + count(other@, other.keys@[j])
                    <= u64::MAX);
            }
        }
        true
    }

    /// Adds the counts of `other` key by key.
    pub fn merge_from(&mut self, other: &KeyCounts<K>)
        requires
            old(self).wf(),
            other.wf(),
            merge_fits(old(self)@, other@),
        ensures
            final(self).wf(),
            final(self)@ == merge_counts(old(self)@, other@),
    {
        let ghost start = self@;
        let mut i: usize = 0;
        while i < other.keys.len()
            invariant
                self.wf(),
                other.wf(),
                0 <= i <= other.keys.len(),
                merge_fits(start, other@),
                forall|k: K|
                    #![trigger self@.contains_key(k)]
                    #![trigger count(self@, k)]
                    (self@.contains_key(k) <==> (start.contains_key(k) || exists|j: int|
                        0 <= j < i && other.keys@[j] == k)) && count(self@, k) == count(start, k)
                        + (if exists|j: int| 0 <= j < i && other.keys@[j] == k {
                        count(other@, k)
                    } else {
                        0
                    }),
            decreases other.keys.len() - i,
        {
            let key = other.keys[i];
            let ghost k = key;
            let n = other.count_of(key);
            assert forall|j: int| 0 <= j < i implies other.keys@[j] != k by {
                assert(other.keys@[j] != other.keys@[i as int]);
            }
            assert(!(exists|j: int| 0 <= j < i && other.keys@[j] == k));
            assert(count(self@, k) == count(start, k));
            assert(start.contains_key(k) || !start.contains_key(k));
            let ghost before = self@;
            self.add(key, n);
            assert forall|q: K|
                #![trigger self@.contains_key(q)]
                #![trigger count(self@, q)]
                (self@.contains_key(q) <==> (start.contains_key(q) || exists|j: int|
                    0 <= j < i + 1 && other.keys@[j] == q)) && count(self@, q) == count(start, q)
                    + (if exists|j: int| 0 <= j < i + 1 && other.keys@[j] == q {
                    count(other@, q)
                } else {
                    0
                }) by {
                assert(count(before, q) == count(start, q) + (if exists|j: int|
                    0 <= j < i && other.keys@[j] == q {
                    count(other@, q)
                } else {
                    0
                }));
                if q == k {
                    assert(other.keys@[i as int] == q);
                } else {
                    if exists|j: int| 0 <= j < i + 1 && other.keys@[j] == q {
                        let j = choose|j: int| 0 <= j < i + 1 && other.keys@[j] == q;
                        assert(j < i);
                    }
                }
            }
            i = i + 1;
        }
        assert forall|k: K| other@.contains_key(k) implies exists|j: int|
            0 <= j < other.keys.len() && other.keys@[j] == k by {
            assert(other.map@.contains_key(k));
        }
        assert(self@ =~= merge_counts(start, other@));
    }
}

} // verus!
