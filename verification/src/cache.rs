//! The in-memory layer of the summary cache: a bounded least-recently-used
//! map from cache key to summary, and the names of the on-disk entries.
use vstd::prelude::*;
use lru::LruCache;
use crate::ai::{error_reply, AiError, AiSummary};
use crate::text::push_str;

verus! {

/// How many summaries the memory layer keeps.
pub const MEM_CACHE_CAP: usize = 256;

/// What a summary holds, as values.
pub struct AiSummaryView {
    pub technical: Seq<char>,
    pub plain: Seq<char>,
    pub input_tokens: u64,
    pub output_tokens: u64,
    pub provider: Seq<char>,
    pub model: Seq<char>,
    pub cached: bool,
}

impl View for AiSummary {
    type V = AiSummaryView;

    open spec fn view(&self) -> AiSummaryView {
        AiSummaryView {
            technical: self.technical@,
            plain: self.plain@,
            input_tokens: self.input_tokens,
            output_tokens: self.output_tokens,
            provider: self.provider@,
            model: self.model@,
            cached: self.cached,
        }
    }
}

impl AiSummary {
    /// A copy of the summary.
    pub fn duplicate(&self) -> (r: AiSummary)
        ensures
            r@ == self@,
    {
        AiSummary {
            technical: self.technical.clone(),
            plain: self.plain.clone(),
            input_tokens: self.input_tokens,
            output_tokens: self.output_tokens,
            provider: self.provider.clone(),
            model: self.model.clone(),
            cached: self.cached,
        }
    }
}

#[verifier::external_type_specification]
#[verifier::external_body]
#[verifier::reject_recursive_types(K)]
#[verifier::reject_recursive_types(V)]
#[verifier::reject_recursive_types(S)]
pub struct ExLruCache<K, V, S>(LruCache<K, V, S>);

#[verifier::external_type_specification]
#[verifier::external_body]
pub struct ExLruHasher(lru::DefaultHasher);

/// The key-summary pairs an `lru::LruCache` holds.
pub uninterp spec fn lru_entries(c: LruCache<String, AiSummary>) -> Map<Seq<char>, AiSummaryView>;

/// The keys an `lru::LruCache` holds, from the most recently used to the
/// least recently used.
pub uninterp spec fn lru_order(c: LruCache<String, AiSummary>) -> Seq<Seq<char>>;

/// The capacity an `lru::LruCache` was made with.
pub uninterp spec fn lru_capacity(c: LruCache<String, AiSummary>) -> nat;

/// `order` with `key` moved to its front.
pub open spec fn to_front(order: Seq<Seq<char>>, key: Seq<char>) -> Seq<Seq<char>> {
    seq![key] + order.remove(order.index_of(key))
}

/// `lru::LruCache::new`: trusted to give an empty cache of capacity `cap`.
#[verifier::external_body]
fn lru_new(cap: usize) -> (made: LruCache<String, AiSummary>)
    requires
        cap > 0,
    ensures
        lru_entries(made).is_empty(),
        lru_order(made).len() == 0,
        lru_capacity(made) == cap,
{
    LruCache::new(std::num::NonZeroUsize::new(cap).unwrap())
}

/// `lru::LruCache::get` (then a copy of the value by the verified
/// `AiSummary::duplicate`): trusted to return the
/// summary stored under `key` if there is one, to leave the stored pairs as
/// they are, and to make `key`, where it is held, the most recently used.
#[verifier::external_body]
fn lru_get(c: &mut LruCache<String, AiSummary>, key: &str) -> (r: Option<AiSummary>)
    ensures
        lru_entries(*final(c)) == lru_entries(*old(c)),
        lru_capacity(*final(c)) == lru_capacity(*old(c)),
        match r {
            Some(v) => lru_entries(*old(c)).contains_key(key@) && v@ == lru_entries(*old(c))[key@]
                && lru_order(*final(c)) == to_front(lru_order(*old(c)), key@),
            None => !lru_entries(*old(c)).contains_key(key@) && lru_order(*final(c)) == lru_order(
                *old(c),
            ),
        },
{
    c.get(key).map(|v| v.duplicate())
}

/// `lru::LruCache::put`: trusted to store `value` under `key` and make it
/// the most recently used key; where `key` is new and the cache holds
/// `capacity` pairs, the least recently used pair is dropped first.
#[verifier::external_body]
fn lru_put(c: &mut LruCache<String, AiSummary>, key: String, value: AiSummary)
    requires
        lru_entries(*old(c)).dom().finite(),
        lru_entries(*old(c)).len() <= lru_capacity(*old(c)),
    ensures
        lru_capacity(*final(c)) == lru_capacity(*old(c)),
        lru_entries(*old(c)).contains_key(key@) ==> lru_entries(*final(c)) == lru_entries(
            *old(c),
        ).insert(key@, value@) && lru_order(*final(c)) == to_front(lru_order(*old(c)), key@),
        !lru_entries(*old(c)).contains_key(key@) && lru_entries(*old(c)).len() < lru_capacity(
            *old(c),
        ) ==> lru_entries(*final(c)) == lru_entries(*old(c)).insert(key@, value@) && lru_order(
            *final(c),
        ) == seq![key@] + lru_order(*old(c)),
        !lru_entries(*old(c)).contains_key(key@) && lru_entries(*old(c)).len() == lru_capacity(
            *old(c),
        ) ==> lru_entries(*final(c)) == lru_entries(*old(c)).remove(
            lru_order(*old(c)).last(),
        ).insert(key@, value@) && lru_order(*final(c)) == seq![key@] + lru_order(
            *old(c),
        ).drop_last(),
{
    c.put(key, value);
}

/// Recently used summaries by cache key, at most [`MEM_CACHE_CAP`] of them.
pub struct MemoryCache {
    lru: LruCache<String, AiSummary>,
}

impl View for MemoryCache {
    type V = Map<Seq<char>, AiSummaryView>;

    closed spec fn view(&self) -> Map<Seq<char>, AiSummaryView> {
        lru_entries(self.lru)
    }
}

impl MemoryCache {
    /// The stored keys, from the most recently used to the least recently
    /// used.
    pub closed spec fn recency(&self) -> Seq<Seq<char>> {
        lru_order(self.lru)
    }

    /// The cache holds at most [`MEM_CACHE_CAP`] summaries, and its recency
    /// order lists each stored key once.
    pub closed spec fn wf(&self) -> bool {
        &&& lru_capacity(self.lru) == MEM_CACHE_CAP
        &&& recency_matches(lru_entries(self.lru), lru_order(self.lru))
        &&& lru_entries(self.lru).len() <= MEM_CACHE_CAP
    }

    /// An empty cache.
    pub fn new() -> (r: Self)
        ensures
            r.wf(),
            r@ == Map::<Seq<char>, AiSummaryView>::empty(),
            r.recency().len() == 0,
    {
        let r = MemoryCache { lru: lru_new(MEM_CACHE_CAP) };
        proof {
            assert(r@ =~= Map::<Seq<char>, AiSummaryView>::empty());
        }
        r
    }

    /// The summary stored under `key`, if any. What is stored does not
    /// change; a key that is found becomes the most recently used.
    pub fn lookup(&mut self, key: &str) -> (r: Option<AiSummary>)
        requires
            old(self).wf(),
        ensures
            final(self).wf(),
            final(self)@ == old(self)@,
            match r {
                Some(v) => found(old(self)@, key@) == Some(v@),
                None => found(old(self)@, key@) is None,
            },
            final(self).recency() == looked_up(old(self).recency(), old(self)@, key@),
    {
        let r = lru_get(&mut self.lru, key);
        proof {
            if old(self)@.contains_key(key@) {
                lemma_to_front_matches(old(self)@, old(self).recency(), key@);
            }
        }
        r
    }

    /// Stores `summary` under `key` and makes `key` the most recently used;
    /// where `key` is new and the cache is full, the least recently used
    /// summary is dropped first.
    pub fn store(&mut self, key: String, summary: AiSummary)
        requires
            old(self).wf(),
        ensures
            final(self).wf(),
            final(self)@ == after_store(old(self)@, old(self).recency(), key@, summary@).0,
            final(self).recency() == after_store(old(self)@, old(self).recency(), key@, summary@).1,
    {
        let ghost m = self@;
        let ghost o = self.recency();
        proof {
            lemma_recency_finite(m, o);
        }
        lru_put(&mut self.lru, key, summary);
        proof {
            if m.contains_key(key@) {
                lemma_to_front_matches(m, o, key@);
                assert(m.insert(key@, summary@).dom() =~= m.dom());
            } else if m.len() < MEM_CACHE_CAP {
                lemma_push_front_matches(m, o, key@, summary@);
            } else {
                lemma_evict_matches(m, o, key@, summary@);
            }
        }
    }
}

/// `order` lists the keys of `m`, each once.
pub open spec fn recency_matches(m: Map<Seq<char>, AiSummaryView>, order: Seq<Seq<char>>) -> bool {
    &&& order.no_duplicates()
    &&& forall|k: Seq<char>| #[trigger] m.contains_key(k) <==> order.contains(k)
    &&& order.len() == m.dom().len()
    &&& m.dom().finite()
}

/// The recency order after a lookup of `key` in a cache holding `m`.
pub open spec fn looked_up(order: Seq<Seq<char>>, m: Map<Seq<char>, AiSummaryView>, key: Seq<char>) -> Seq<Seq<char>> {
    if m.contains_key(key) {
        to_front(order, key)
    } else {
        order
    }
}

/// What a lookup under `key` finds in a cache holding `m`.
pub open spec fn found(m: Map<Seq<char>, AiSummaryView>, key: Seq<char>) -> Option<AiSummaryView> {
    if m.contains_key(key) {
        Some(m[key])
    } else {
        None
    }
}

/// The pairs and recency order after storing `v` under `key` in a cache
/// holding `m` in recency order `order`.
pub open spec fn after_store(
    m: Map<Seq<char>, AiSummaryView>,
    order: Seq<Seq<char>>,
    key: Seq<char>,
    v: AiSummaryView,
) -> (Map<Seq<char>, AiSummaryView>, Seq<Seq<char>>) {
    if m.contains_key(key) {
        (m.insert(key, v), to_front(order, key))
    } else if m.len() < MEM_CACHE_CAP {
        (m.insert(key, v), seq![key] + order)
    } else {
        (m.remove(order.last()).insert(key, v), seq![key] + order.drop_last())
    }
}

proof fn lemma_recency_finite(m: Map<Seq<char>, AiSummaryView>, order: Seq<Seq<char>>)
    requires
        recency_matches(m, order),
    ensures
        m.dom().finite(),
{
}

proof fn lemma_to_front_matches(
    m: Map<Seq<char>, AiSummaryView>,
    order: Seq<Seq<char>>,
    key: Seq<char>,
)
    requires
        recency_matches(m, order),
        m.contains_key(key),
    ensures
        recency_matches(m, to_front(order, key)),
{
    assert(order.contains(key));
    let i = order.index_of(key);
    assert(0 <= i < order.len() && order[i] == key);
    let rest = order.remove(i);
    let f = to_front(order, key);
    assert forall|a: int, b: int| 0 <= a < b < f.len() implies f[a] != f[b] by {
        if a == 0 {
            let j = if b - 1 < i { b - 1 } else { b };
            assert(f[b] == order[j]);
            assert(j != i);
        } else {
            let ja = if a - 1 < i { a - 1 } else { a };
            let jb = if b - 1 < i { b - 1 } else { b };
            assert(f[a] == order[ja]);
            assert(f[b] == order[jb]);
        }
    }
    assert forall|k: Seq<char>| #[trigger] m.contains_key(k) <==> f.contains(k) by {
        if m.contains_key(k) {
            let j = choose|j: int| 0 <= j < order.len() && order[j] == k;
            if j == i {
                assert(f[0] == k);
            } else if j < i {
                assert(f[j + 1] == k);
            } else {
                assert(f[j] == k);
            }
        }
        if f.contains(k) {
            let x = choose|x: int| 0 <= x < f.len() && f[x] == k;
            if x > 0 {
                let j = if x - 1 < i { x - 1 } else { x };
                assert(order[j] == k);
            }
        }
    }
}

proof fn lemma_push_front_matches(
    m: Map<Seq<char>, AiSummaryView>,
    order: Seq<Seq<char>>,
    key: Seq<char>,
    v: AiSummaryView,
)
    requires
        recency_matches(m, order),
        !m.contains_key(key),
    ensures
        recency_matches(m.insert(key, v), seq![key] + order),
{
    let f = seq![key] + order;
    assert(!order.contains(key));
    assert forall|a: int, b: int| 0 <= a < b < f.len() implies f[a] != f[b] by {
        if a == 0 {
            assert(f[b] == order[b - 1]);
        } else {
            assert(f[a] == order[a - 1]);
            assert(f[b] == order[b - 1]);
        }
    }
    assert forall|k: Seq<char>| #[trigger] m.insert(key, v).contains_key(k) <==> f.contains(k) by {
        if m.contains_key(k) {
            let j = choose|j: int| 0 <= j < order.len() && order[j] == k;
            assert(f[j + 1] == k);
        }
        if k == key {
            assert(f[0] == k);
        }
        if f.contains(k) {
            let x = choose|x: int| 0 <= x < f.len() && f[x] == k;
            if x > 0 {
                assert(order[x - 1] == k);
            }
        }
    }
}

proof fn lemma_evict_matches(
    m: Map<Seq<char>, AiSummaryView>,
    order: Seq<Seq<char>>,
    key: Seq<char>,
    v: AiSummaryView,
)
    requires
        recency_matches(m, order),
        !m.contains_key(key),
        m.len() == MEM_CACHE_CAP,
    ensures
        recency_matches(m.remove(order.last()).insert(key, v), seq![key] + order.drop_last()),
        m.remove(order.last()).insert(key, v).len() == MEM_CACHE_CAP,
{
    let last = order.last();
    assert(order[order.len() - 1] == last);
    assert(m.contains_key(last));
    let d = order.drop_last();
    let m1 = m.remove(last);
    assert(!d.contains(last)) by {
        if d.contains(last) {
            let x = choose|x: int| 0 <= x < d.len() && d[x] == last;
            assert(order[x] == order[order.len() - 1]);
        }
    }
    assert(d.no_duplicates());
    assert forall|k: Seq<char>| #[trigger] m1.contains_key(k) <==> d.contains(k) by {
        if m1.contains_key(k) {
            let j = choose|j: int| 0 <= j < order.len() && order[j] == k;
            assert(j != order.len() - 1);
            assert(d[j] == k);
        }
        if d.contains(k) {
            let x = choose|x: int| 0 <= x < d.len() && d[x] == k;
            assert(order[x] == k);
        }
    }
    assert(m1.dom().len() == m.dom().len() - 1);
    assert(recency_matches(m1, d));
    lemma_push_front_matches(m1, d, key, v);
}

/// A lookup right after a store under the same key finds what was stored.
pub proof fn lemma_lookup_after_store(
    m: Map<Seq<char>, AiSummaryView>,
    order: Seq<Seq<char>>,
    key: Seq<char>,
    v: AiSummaryView,
)
    ensures
        found(after_store(m, order, key, v).0, key) == Some(v),
{
}

/// A store changes what no other key finds, but for the one summary it
/// drops: the least recently used, and only where `key` is new and the
/// cache is full.
pub proof fn lemma_store_keeps_others(
    m: Map<Seq<char>, AiSummaryView>,
    order: Seq<Seq<char>>,
    key: Seq<char>,
    v: AiSummaryView,
    other: Seq<char>,
)
    requires
        other != key,
    ensures
        m.contains_key(key) || m.len() < MEM_CACHE_CAP ==> found(after_store(m, order, key, v).0, other)
            == found(m, other),
        other != order.last() ==> found(after_store(m, order, key, v).0, other) == found(m, other),
        !m.contains_key(key) && m.len() >= MEM_CACHE_CAP && other == order.last() ==> found(
            after_store(m, order, key, v).0,
            other,
        ) is None,
{
}

/// What the summary endpoint does after looking its key up in the cache.
pub enum SummaryStep {
    /// Answer with this summary; no upstream call is made.
    Reply(AiSummary),
    /// Nothing is cached: ask the model.
    AskUpstream,
}

/// A cache hit is answered at once, marked as cached; a miss asks the model.
pub fn after_lookup(hit: Option<AiSummary>) -> (r: SummaryStep)
    ensures
        hit is None <==> r is AskUpstream,
        hit matches Some(h) ==> r matches SummaryStep::Reply(x) && x@ == (AiSummaryView {
            cached: true,
            ..h@
        }),
{
    match hit {
        Some(h) => {
            let mut x = h;
            x.cached = true;
            SummaryStep::Reply(x)
        },
        None => SummaryStep::AskUpstream,
    }
}

/// After the model answers: a summary is both stored and returned; an error
/// stores nothing and is answered with its status code and text.
pub fn after_upstream(result: Result<AiSummary, AiError>) -> (r: (
    Option<AiSummary>,
    Result<AiSummary, (u16, String)>,
))
    ensures
        result matches Ok(x) ==> (r.0 matches Some(a) && a@ == x@) && (r.1 matches Ok(b) && b@
            == x@),
        result matches Err(e) ==> r.0 is None && (r.1 matches Err(f) && f.0 == error_reply(e).0
            && f.1@ == error_reply(e).1),
{
    match result {
        Ok(x) => (Some(x.duplicate()), Ok(x)),
        Err(e) => (None, Err(e.reply())),
    }
}

/// Where a read of the two-layer cache goes after the memory layer.
pub enum MemoryRead {
    /// The memory layer held the summary.
    Found(AiSummary),
    /// Not in memory: read the entry's file.
    ReadDisk,
}

/// A memory hit is the answer; a miss goes on to the file.
pub fn after_memory(hit: Option<AiSummary>) -> (r: MemoryRead)
    ensures
        hit is None <==> r is ReadDisk,
        hit matches Some(h) ==> r matches MemoryRead::Found(x) && x@ == h@,
{
    match hit {
        Some(h) => MemoryRead::Found(h),
        None => MemoryRead::ReadDisk,
    }
}

/// After the file is read and decoded: a summary found there is put back
/// into memory and returned; a missing or unreadable entry gives nothing.
pub fn after_disk(parsed: Option<AiSummary>) -> (r: (Option<AiSummary>, Option<AiSummary>))
    ensures
        parsed is None ==> r.0 is None && r.1 is None,
        parsed matches Some(s) ==> (r.0 matches Some(a) && a@ == s@) && (r.1 matches Some(b) && b@
            == s@),
{
    match parsed {
        Some(s) => (Some(s.duplicate()), Some(s)),
        None => (None, None),
    }
}

/// The file that holds the summary stored under `key`: `<key>.json`.
pub fn cache_file_name(key: &str) -> (r: String)
    ensures
        r@ == key@ + ".json"@,
{
    let mut s = String::new();
    push_str(&mut s, key);
    push_str(&mut s, ".json");
    s
}

/// The file a summary is first written to before it is renamed into place:
/// `.<key>.tmp`.
pub fn cache_temp_name(key: &str) -> (r: String)
    ensures
        r@ == "."@ + key@ + ".tmp"@,
{
    let mut s = String::new();
    push_str(&mut s, ".");
    push_str(&mut s, key);
    push_str(&mut s, ".tmp");
    s
}

/// One use of the memory cache: a store or a lookup.
pub enum CacheStep {
    Store(Seq<char>, AiSummaryView),
    Lookup(Seq<char>),
}

/// The key a step stores or looks up.
pub open spec fn step_key(st: CacheStep) -> Seq<char> {
    match st {
        CacheStep::Store(k, _) => k,
        CacheStep::Lookup(k) => k,
    }
}

/// The pairs and recency order after one step.
pub open spec fn apply_step(
    m: Map<Seq<char>, AiSummaryView>,
    order: Seq<Seq<char>>,
    st: CacheStep,
) -> (Map<Seq<char>, AiSummaryView>, Seq<Seq<char>>) {
    match st {
        CacheStep::Store(k, v) => after_store(m, order, k, v),
        CacheStep::Lookup(k) => (m, looked_up(order, m, k)),
    }
}

/// The pairs and recency order after a series of steps, in order.
pub open spec fn run_steps(
    m: Map<Seq<char>, AiSummaryView>,
    order: Seq<Seq<char>>,
    steps: Seq<CacheStep>,
) -> (Map<Seq<char>, AiSummaryView>, Seq<Seq<char>>)
    decreases steps.len(),
{
    if steps.len() == 0 {
        (m, order)
    } else {
        let p = run_steps(m, order, steps.drop_last());
        apply_step(p.0, p.1, steps.last())
    }
}

/// `key` still maps to `v`, and every key used more recently than it lies
/// in `others`.
pub open spec fn kept(
    m: Map<Seq<char>, AiSummaryView>,
    order: Seq<Seq<char>>,
    key: Seq<char>,
    v: AiSummaryView,
    others: Set<Seq<char>>,
) -> bool {
    &&& recency_matches(m, order)
    &&& m.len() <= MEM_CACHE_CAP
    &&& m.contains_key(key)
    &&& m[key] == v
    &&& exists|p: int|
        0 <= p < order.len() && order[p] == key && forall|j: int|
            0 <= j < p ==> others.contains(#[trigger] order[j])
}

proof fn lemma_after_store_valid(
    m: Map<Seq<char>, AiSummaryView>,
    order: Seq<Seq<char>>,
    key: Seq<char>,
    v: AiSummaryView,
)
    requires
        recency_matches(m, order),
        m.len() <= MEM_CACHE_CAP,
    ensures
        recency_matches(after_store(m, order, key, v).0, after_store(m, order, key, v).1),
        after_store(m, order, key, v).0.len() <= MEM_CACHE_CAP,
        after_store(m, order, key, v).1[0] == key,
        after_store(m, order, key, v).1.len() > 0,
{
    if m.contains_key(key) {
        lemma_to_front_matches(m, order, key);
        assert(m.insert(key, v).dom() =~= m.dom());
        lemma_to_front_matches(m.insert(key, v), order, key);
    } else if m.len() < MEM_CACHE_CAP {
        lemma_push_front_matches(m, order, key, v);
    } else {
        lemma_evict_matches(m, order, key, v);
    }
}

proof fn lemma_index_unique(order: Seq<Seq<char>>, a: int, b: int)
    requires
        order.no_duplicates(),
        0 <= a < order.len(),
        0 <= b < order.len(),
        order[a] == order[b],
    ensures
        a == b,
{
}

proof fn lemma_kept_step(
    m: Map<Seq<char>, AiSummaryView>,
    order: Seq<Seq<char>>,
    key: Seq<char>,
    v: AiSummaryView,
    others: Set<Seq<char>>,
    st: CacheStep,
)
    requires
        kept(m, order, key, v, others),
        others.finite(),
        others.len() < MEM_CACHE_CAP,
        others.contains(step_key(st)),
        !others.contains(key),
    ensures
        kept(apply_step(m, order, st).0, apply_step(m, order, st).1, key, v, others),
{
    let q = step_key(st);
    assert(q != key);
    let p = choose|p: int|
        0 <= p < order.len() && order[p] == key && forall|j: int|
            0 <= j < p ==> others.contains(#[trigger] order[j]);
    let m2 = apply_step(m, order, st).0;
    let o2 = apply_step(m, order, st).1;
    if m.contains_key(q) {
        // The key moves to the front: a lookup or a store of a held key.
        assert(order.contains(q));
        let i = order.index_of(q);
        assert(0 <= i < order.len() && order[i] == q);
        assert(i != p);
        lemma_to_front_matches(m, order, q);
        assert(o2 == to_front(order, q));
        match st {
            CacheStep::Store(k, w) => {
                assert(m2 == m.insert(q, w));
                assert(m2.dom() =~= m.dom());
                lemma_to_front_matches(m2, order, q);
            },
            CacheStep::Lookup(k) => {
                assert(m2 == m);
            },
        }
        let np = if i < p { p } else { p + 1 };
        assert(o2[np] == key);
        assert forall|j: int| 0 <= j < np implies others.contains(#[trigger] o2[j]) by {
            if j > 0 {
                if j - 1 < i {
                    assert(o2[j] == order[j - 1]);
                } else {
                    assert(o2[j] == order[j]);
                }
            }
        }
    } else {
        match st {
            CacheStep::Lookup(k) => {
                assert(m2 == m && o2 == order);
            },
            CacheStep::Store(k, w) => {
                assert(!order.contains(q));
                if m.len() < MEM_CACHE_CAP {
                    lemma_push_front_matches(m, order, q, w);
                    assert(o2 == seq![q] + order);
                    assert(o2[p + 1] == key);
                    assert forall|j: int| 0 <= j < p + 1 implies others.contains(#[trigger] o2[j]) by {
                        if j > 0 {
                            assert(o2[j] == order[j - 1]);
                        }
                    }
                } else {
                    // Full: the least recently used key is dropped, and it is not `key`.
                    if p == order.len() - 1 {
                        let ahead = order.subrange(0, p);
                        assert(ahead.no_duplicates()) by {
                            assert forall|a: int, b: int|
                                0 <= a < ahead.len() && 0 <= b < ahead.len() && a != b implies ahead[a]
                                != ahead[b] by {
                                assert(ahead[a] == order[a] && ahead[b] == order[b]);
                            }
                        }
                        ahead.unique_seq_to_set();
                        let big = ahead.to_set().insert(q);
                        assert(!ahead.to_set().contains(q)) by {
                            if ahead.to_set().contains(q) {
                                let x = choose|x: int| 0 <= x < ahead.len() && ahead[x] == q;
                                assert(order[x] == q);
                            }
                        }
                        assert(big.subset_of(others)) by {
                            assert forall|z: Seq<char>| big.contains(z) implies others.contains(z) by {
                                if z != q {
                                    assert(ahead.contains(z));
                                    let x = choose|x: int| 0 <= x < ahead.len() && ahead[x] == z;
                                    assert(order[x] == z);
                                }
                            }
                        }
                        vstd::set_lib::lemma_len_subset(big, others);
                        assert(false);
                    }
                    lemma_evict_matches(m, order, q, w);
                    let last = order.last();
                    assert(last != key);
                    assert(o2 == seq![q] + order.drop_last());
                    assert(o2[p + 1] == key);
                    assert forall|j: int| 0 <= j < p + 1 implies others.contains(#[trigger] o2[j]) by {
                        if j > 0 {
                            assert(o2[j] == order[j - 1]);
                        }
                    }
                    assert(m2 == m.remove(last).insert(q, w));
                }
            },
        }
    }
}

proof fn lemma_kept_steps(
    m: Map<Seq<char>, AiSummaryView>,
    order: Seq<Seq<char>>,
    key: Seq<char>,
    v: AiSummaryView,
    others: Set<Seq<char>>,
    steps: Seq<CacheStep>,
)
    requires
        kept(m, order, key, v, others),
        others.finite(),
        others.len() < MEM_CACHE_CAP,
        !others.contains(key),
        forall|i: int| 0 <= i < steps.len() ==> others.contains(step_key(#[trigger] steps[i])),
    ensures
        kept(run_steps(m, order, steps).0, run_steps(m, order, steps).1, key, v, others),
    decreases steps.len(),
{
    if steps.len() > 0 {
        let front = steps.drop_last();
        assert forall|i: int| 0 <= i < front.len() implies others.contains(
            step_key(#[trigger] front[i]),
        ) by {
            assert(front[i] == steps[i]);
        }
        lemma_kept_steps(m, order, key, v, others, front);
        let r = run_steps(m, order, front);
        assert(others.contains(step_key(steps[steps.len() - 1])));
        lemma_kept_step(r.0, r.1, key, v, others, steps.last());
    }
}

/// A summary stored under `key` is still found after any series of stores
/// and lookups whose keys are other than `key` and number fewer than
/// [`MEM_CACHE_CAP`] (`others` holds them).
pub proof fn lemma_found_after_steps(
    m: Map<Seq<char>, AiSummaryView>,
    order: Seq<Seq<char>>,
    key: Seq<char>,
    v: AiSummaryView,
    others: Set<Seq<char>>,
    steps: Seq<CacheStep>,
)
    requires
        recency_matches(m, order),
        m.len() <= MEM_CACHE_CAP,
        others.finite(),
        others.len() < MEM_CACHE_CAP,
        !others.contains(key),
        forall|i: int| 0 <= i < steps.len() ==> others.contains(step_key(#[trigger] steps[i])),
    ensures
        found(run_steps(after_store(m, order, key, v).0, after_store(m, order, key, v).1, steps).0, key)
            == Some(v),
{
    lemma_after_store_valid(m, order, key, v);
    let s0 = after_store(m, order, key, v);
    assert(s0.1[0] == key);
    assert(kept(s0.0, s0.1, key, v, others));
    lemma_kept_steps(s0.0, s0.1, key, v, others, steps);
}

} // verus!
