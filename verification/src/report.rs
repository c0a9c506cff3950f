//! Ordered views of the tallies and the text blocks built from them.
use vstd::prelude::*;
use crate::counts::{CountKey, KeyCounts, TextCounts};
use crate::text::push_str;

verus! {

/// `r` lists every entry of `m` once, in increasing key order.
pub open spec fn sorted_by_key<K: CountKey>(m: Map<K, nat>, r: Seq<(K, u64)>) -> bool {
    &&& r.len() == m.dom().len()
    &&& forall|i: int|
        0 <= i < r.len() ==> m.contains_key(#[trigger] r[i].0) && m[r[i].0] == r[i].1 as nat
    &&& forall|i: int, j: int| 0 <= i < j < r.len() ==> (#[trigger] r[i].0).rank() < (
    #[trigger] r[j].0).rank()
    &&& forall|k: K| #[trigger] m.contains_key(k) ==> exists|i: int| 0 <= i < r.len() && r[i].0 == k
}

/// `r` holds the `n` largest counts of `m` (all of them where `m` has fewer
/// keys), largest first, each key once; every key left out was counted no
/// more often than the last one kept. Among equal counts, which keys are
/// kept and in which order is not fixed.
pub open spec fn top_by_count(m: Map<Seq<char>, nat>, n: nat, r: Seq<(Seq<char>, nat)>) -> bool {
    &&& r.len() == if n < m.dom().len() {
        n
    } else {
        m.dom().len()
    }
    &&& forall|i: int| 0 <= i < r.len() ==> m.contains_key(#[trigger] r[i].0) && m[r[i].0] == r[i].1
    &&& forall|i: int, j: int| 0 <= i < j < r.len() ==> #[trigger] r[i].0 != #[trigger] r[j].0
    &&& forall|i: int, j: int| 0 <= i < j < r.len() ==> #[trigger] r[i].1 >= #[trigger] r[j].1
    &&& forall|k: Seq<char>|
        #[trigger] m.contains_key(k) && (forall|i: int| 0 <= i < r.len() ==> r[i].0 != k) ==> r.len()
            == n && (n > 0 ==> m[k] <= r[r.len() - 1].1)
}

pub open spec fn text_entry_views(r: Seq<(String, u64)>) -> Seq<(Seq<char>, nat)> {
    r.map_values(|e: (String, u64)| (e.0@, e.1 as nat))
}

#[verifier::opaque]
pub open spec fn ranks_increasing<K: CountKey>(r: Seq<(K, u64)>) -> bool {
    forall|t: int, u: int| 0 <= t < u < r.len() ==> (#[trigger] r[t].0).rank() < (
    #[trigger] r[u].0).rank()
}

#[verifier::opaque]
pub open spec fn entries_of<K>(m: Map<K, nat>, r: Seq<(K, u64)>) -> bool {
    forall|t: int| 0 <= t < r.len() ==> m.contains_key(#[trigger] r[t].0) && m[r[t].0] == r[t].1 as nat
}

#[verifier::opaque]
pub open spec fn distinct_keys<K>(es: Seq<(K, u64)>) -> bool {
    forall|a: int, b: int| 0 <= a < b < es.len() ==> #[trigger] es[a].0 != #[trigger] es[b].0
}

proof fn lemma_new_key_absent<K: CountKey>(r: Seq<(K, u64)>, es: Seq<(K, u64)>, i: int, p: int)
    requires
        0 <= i < es.len(),
        0 <= p <= r.len(),
        distinct_keys(es),
        same_keys(r, es, i),
        ranks_increasing(r),
        forall|t: int| 0 <= t < p ==> (#[trigger] r[t].0).rank() < es[i].0.rank(),
        p < r.len() ==> r[p].0.rank() >= es[i].0.rank(),
    ensures
        forall|t: int| p <= t < r.len() ==> (#[trigger] r[t].0).rank() > es[i].0.rank(),
{
    reveal(distinct_keys);
    reveal(same_keys);
    reveal(ranks_increasing);
    assert forall|t: int| 0 <= t < r.len() implies r[t].0 != es[i].0 by {
        let j = choose|j: int| 0 <= j < i && #[trigger] r[t].0 == es[j].0;
        assert(es[j].0 != es[i].0);
    }
    assert forall|t: int| p <= t < r.len() implies (#[trigger] r[t].0).rank() > es[i].0.rank() by {
        if t > p {
            assert(r[p].0.rank() < r[t].0.rank());
        }
        K::lemma_rank_injective(r[t].0, es[i].0);
    }
}

/// `r` and the first `i` elements of `es` hold the same keys.
#[verifier::opaque]
pub open spec fn same_keys<K>(r: Seq<(K, u64)>, es: Seq<(K, u64)>, i: int) -> bool {
    &&& forall|t: int| 0 <= t < r.len() ==> exists|j: int| 0 <= j < i && #[trigger] r[t].0 == es[j].0
    &&& forall|j: int| 0 <= j < i ==> exists|t: int| 0 <= t < r.len() && r[t].0 == #[trigger] es[j].0
}

proof fn lemma_insert_keeps_order<K: CountKey>(r: Seq<(K, u64)>, p: int, e: (K, u64))
    requires
        0 <= p <= r.len(),
        ranks_increasing(r),
        forall|t: int| 0 <= t < p ==> (#[trigger] r[t].0).rank() < e.0.rank(),
        forall|t: int| p <= t < r.len() ==> (#[trigger] r[t].0).rank() > e.0.rank(),
    ensures
        ranks_increasing(r.insert(p, e)),
{
    reveal(ranks_increasing);
    r.insert_ensures(p, e);
    let q = r.insert(p, e);
    assert forall|t: int, u: int| 0 <= t < u < q.len() implies (#[trigger] q[t].0).rank() < (
    #[trigger] q[u].0).rank() by {
        if u > p {
            assert(q[u] == r[u - 1]);
        }
        if t > p {
            assert(q[t] == r[t - 1]);
        }
    }
}

proof fn lemma_insert_keeps_keys<K>(
    m: Map<K, nat>,
    r: Seq<(K, u64)>,
    es: Seq<(K, u64)>,
    i: int,
    p: int,
)
    requires
        0 <= i < es.len(),
        0 <= p <= r.len(),
        entries_of(m, r),
        entries_of(m, es),
        same_keys(r, es, i),
    ensures
        entries_of(m, r.insert(p, es[i])),
        same_keys(r.insert(p, es[i]), es, i + 1),
{
    reveal(entries_of);
    reveal(same_keys);
    let e = es[i];
    r.insert_ensures(p, e);
    let q = r.insert(p, e);
    assert forall|t: int| 0 <= t < q.len() implies m.contains_key(#[trigger] q[t].0) && m[q[t].0]
        == q[t].1 as nat by {
        if t > p {
            assert(q[t] == r[t - 1]);
        }
    }
    assert forall|t: int| 0 <= t < q.len() implies exists|j: int|
        0 <= j < i + 1 && #[trigger] q[t].0 == es[j].0 by {
        if t < p {
            let j = choose|j: int| 0 <= j < i && #[trigger] r[t].0 == es[j].0;
            assert(q[t].0 == es[j].0);
        } else if t == p {
            assert(q[t].0 == es[i].0);
        } else {
            assert(q[t] == r[t - 1]);
            let j = choose|j: int| 0 <= j < i && #[trigger] r[t - 1].0 == es[j].0;
            assert(q[t].0 == es[j].0);
        }
    }
    assert forall|j: int| 0 <= j < i + 1 implies exists|t: int|
        0 <= t < q.len() && q[t].0 == #[trigger] es[j].0 by {
        if j == i {
            assert(q[p].0 == es[j].0);
        } else {
            let t = choose|t: int| 0 <= t < r.len() && r[t].0 == #[trigger] es[j].0;
            if t < p {
                assert(q[t].0 == es[j].0);
            } else {
                assert(q[t + 1].0 == es[j].0);
            }
        }
    }
}

/// The entries of a counter in increasing key order.
pub fn sorted<K: CountKey>(m: &KeyCounts<K>) -> (r: Vec<(K, u64)>)
    requires
        m.wf(),
    ensures
        sorted_by_key(m@, r@),
{
    let entries = m.entries();
    proof {
        m.lemma_key_order();
    }
    let ghost es = entries@;
    proof {
        reveal(distinct_keys);
        reveal(entries_of);
        assert forall|a: int, b: int| 0 <= a < b < es.len() implies #[trigger] es[a].0
            != #[trigger] es[b].0 by {
            assert(m.key_order()[a] == es[a].0);
            assert(m.key_order()[b] == es[b].0);
        }
        assert forall|k: K| #[trigger] m@.contains_key(k) implies exists|j: int|
            0 <= j < es.len() && es[j].0 == k by {
            assert(m.key_order().contains(k));
            let j = choose|j: int| 0 <= j < m.key_order().len() && m.key_order()[j] == k;
            assert(es[j].0 == k);
        }
    }
    let mut r: Vec<(K, u64)> = Vec::new();
    let mut i: usize = 0;
    proof {
        reveal(ranks_increasing);
        reveal(same_keys);
        reveal(entries_of);
    }
    while i < entries.len()
        invariant
            es == entries@,
            i <= es.len(),
            distinct_keys(es),
            entries_of(m@, es),
            r@.len() == i,
            entries_of(m@, r@),
            ranks_increasing(r@),
            same_keys(r@, es, i as int),
        decreases es.len() - i,
    {
        let e = entries[i];
        let rank = e.0.key_rank();
        let mut p: usize = 0;
        while p < r.len() && r[p].0.key_rank() < rank
            invariant
                p <= r@.len(),
                rank as int == e.0.rank(),
                forall|t: int| 0 <= t < p ==> (#[trigger] r@[t].0).rank() < e.0.rank(),
            decreases r@.len() - p,
        {
            p = p + 1;
        }
        proof {
            lemma_new_key_absent(r@, es, i as int, p as int);
            lemma_insert_keeps_order(r@, p as int, e);
            lemma_insert_keeps_keys(m@, r@, es, i as int, p as int);
        }
        r.insert(p, e);
        i = i + 1;
    }
    proof {
        reveal(entries_of);
        reveal(same_keys);
        reveal(ranks_increasing);
        assert forall|k: K| #[trigger] m@.contains_key(k) implies exists|t: int|
            0 <= t < r@.len() && r@[t].0 == k by {
            let j = choose|j: int| 0 <= j < es.len() && es[j].0 == k;
            let t = choose|t: int| 0 <= t < r@.len() && r@[t].0 == #[trigger] es[j].0;
        }
    }
    r
}

/// Every entry of `rv` is an entry of `m`.
#[verifier::opaque]
pub open spec fn counted_in(m: Map<Seq<char>, nat>, rv: Seq<(Seq<char>, nat)>) -> bool {
    forall|t: int| 0 <= t < rv.len() ==> m.contains_key(#[trigger] rv[t].0) && m[rv[t].0] == rv[t].1
}

/// No key occurs twice in `rv`.
#[verifier::opaque]
pub open spec fn keys_distinct(rv: Seq<(Seq<char>, nat)>) -> bool {
    forall|a: int, b: int| 0 <= a < b < rv.len() ==> #[trigger] rv[a].0 != #[trigger] rv[b].0
}

/// The counts of `rv` never grow from one entry to the next.
#[verifier::opaque]
pub open spec fn counts_descending(rv: Seq<(Seq<char>, nat)>) -> bool {
    forall|a: int, b: int| 0 <= a < b < rv.len() ==> #[trigger] rv[a].1 >= #[trigger] rv[b].1
}

pub open spec fn holds_key(rv: Seq<(Seq<char>, nat)>, k: Seq<char>) -> bool {
    exists|t: int| 0 <= t < rv.len() && rv[t].0 == k
}

/// The keys of `rv` come from the first `i` keys of `es`; those of them that
/// `rv` leaves out were counted no more often than its last entry.
#[verifier::opaque]
pub open spec fn top_of_prefix(rv: Seq<(Seq<char>, nat)>, es: Seq<(Seq<char>, nat)>, i: int, n: nat) -> bool {
    &&& forall|t: int| 0 <= t < rv.len() ==> exists|j: int| 0 <= j < i && #[trigger] rv[t].0 == es[j].0
    &&& forall|j: int| 0 <= j < i && !holds_key(rv, #[trigger] es[j].0) ==> rv.len() == n && (n > 0
        ==> es[j].1 <= rv[rv.len() - 1].1)
}

proof fn lemma_top_new_key(
    rv: Seq<(Seq<char>, nat)>,
    es: Seq<(Seq<char>, nat)>,
    i: int,
    n: nat,
    p: int,
)
    requires
        0 <= i < es.len(),
        0 <= p <= rv.len(),
        keys_distinct(es),
        counts_descending(rv),
        top_of_prefix(rv, es, i, n),
        p < rv.len() ==> rv[p].1 < es[i].1,
    ensures
        forall|t: int| 0 <= t < rv.len() ==> rv[t].0 != es[i].0,
        forall|t: int| p <= t < rv.len() ==> #[trigger] rv[t].1 < es[i].1,
{
    reveal(keys_distinct);
    reveal(counts_descending);
    reveal(top_of_prefix);
    assert forall|t: int| 0 <= t < rv.len() implies rv[t].0 != es[i].0 by {
        let j = choose|j: int| 0 <= j < i && #[trigger] rv[t].0 == es[j].0;
        assert(es[j].0 != es[i].0);
    }
    assert forall|t: int| p <= t < rv.len() implies #[trigger] rv[t].1 < es[i].1 by {
        if t > p {
            assert(rv[p].1 >= rv[t].1);
        }
    }
}

proof fn lemma_top_insert_shape(
    m: Map<Seq<char>, nat>,
    rv: Seq<(Seq<char>, nat)>,
    es: Seq<(Seq<char>, nat)>,
    i: int,
    p: int,
    next: Seq<(Seq<char>, nat)>,
)
    requires
        0 <= i < es.len(),
        0 <= p <= rv.len(),
        counted_in(m, es),
        counted_in(m, rv),
        keys_distinct(rv),
        counts_descending(rv),
        forall|t: int| 0 <= t < p ==> #[trigger] rv[t].1 >= es[i].1,
        forall|t: int| 0 <= t < rv.len() ==> rv[t].0 != es[i].0,
        forall|t: int| p <= t < rv.len() ==> #[trigger] rv[t].1 < es[i].1,
        next == rv.insert(p, es[i]) || (rv.len() > 0 && next == rv.insert(p, es[i]).drop_last()),
    ensures
        counted_in(m, next),
        keys_distinct(next),
        counts_descending(next),
{
    reveal(counted_in);
    reveal(keys_distinct);
    reveal(counts_descending);
    let e = es[i];
    let q = rv.insert(p, e);
    rv.insert_ensures(p, e);
    assert forall|t: int| 0 <= t < q.len() implies (t < p ==> q[t] == rv[t]) && (t > p ==> q[t]
        == rv[t - 1]) && (t == p ==> q[t] == e) by {}
    assert forall|t: int| 0 <= t < next.len() implies m.contains_key(#[trigger] next[t].0)
        && m[next[t].0] == next[t].1 by {
        assert(next[t] == q[t]);
    }
    assert forall|a: int, b: int| 0 <= a < b < next.len() implies #[trigger] next[a].0
        != #[trigger] next[b].0 by {
        assert(next[a] == q[a] && next[b] == q[b]);
    }
    assert forall|a: int, b: int| 0 <= a < b < next.len() implies #[trigger] next[a].1
        >= #[trigger] next[b].1 by {
        assert(next[a] == q[a] && next[b] == q[b]);
    }
}

proof fn lemma_top_insert_prefix(
    m: Map<Seq<char>, nat>,
    rv: Seq<(Seq<char>, nat)>,
    es: Seq<(Seq<char>, nat)>,
    i: int,
    n: nat,
    p: int,
    next: Seq<(Seq<char>, nat)>,
)
    requires
        0 <= i < es.len(),
        0 <= p <= rv.len(),
        counted_in(m, es),
        counted_in(m, rv),
        counts_descending(rv),
        top_of_prefix(rv, es, i, n),
        forall|t: int| 0 <= t < p ==> #[trigger] rv[t].1 >= es[i].1,
        forall|t: int| p <= t < rv.len() ==> #[trigger] rv[t].1 < es[i].1,
        (rv.len() < n && next == rv.insert(p, es[i])) || (rv.len() == n && p < rv.len() && next
            == rv.insert(p, es[i]).drop_last()),
    ensures
        top_of_prefix(next, es, i + 1, n),
{
    reveal(counted_in);
    reveal(counts_descending);
    reveal(top_of_prefix);
    let e = es[i];
    let q = rv.insert(p, e);
    rv.insert_ensures(p, e);
    assert forall|t: int| 0 <= t < q.len() implies (t < p ==> q[t] == rv[t]) && (t > p ==> q[t]
        == rv[t - 1]) && (t == p ==> q[t] == e) by {}
    assert forall|t: int| 0 <= t < next.len() implies exists|j: int|
        0 <= j < i + 1 && #[trigger] next[t].0 == es[j].0 by {
        assert(next[t] == q[t]);
        if t < p {
            let j = choose|j: int| 0 <= j < i && #[trigger] rv[t].0 == es[j].0;
            assert(next[t].0 == es[j].0);
        } else if t == p {
            assert(next[t].0 == es[i].0);
        } else {
            let j = choose|j: int| 0 <= j < i && #[trigger] rv[t - 1].0 == es[j].0;
            assert(next[t].0 == es[j].0);
        }
    }
    assert forall|j: int| 0 <= j < i + 1 && !holds_key(next, #[trigger] es[j].0) implies next.len()
        == n && (n > 0 ==> es[j].1 <= next[next.len() - 1].1) by {
        if j == i {
            assert(next[p].0 == es[j].0);
        } else if holds_key(rv, es[j].0) {
            let t = choose|t: int| 0 <= t < rv.len() && rv[t].0 == es[j].0;
            if t < p {
                assert(next[t].0 == es[j].0);
            } else if t + 1 < next.len() {
                assert(next[t + 1].0 == es[j].0);
            } else {
                assert(next[next.len() - 1] == q[next.len() - 1]);
                if p == n - 1 {
                    assert(q[next.len() - 1] == e);
                } else {
                    assert(q[next.len() - 1] == rv[n - 2]);
                }
            }
        } else {
            assert(next[next.len() - 1] == q[next.len() - 1]);
            if p == n - 1 {
                assert(q[next.len() - 1] == e);
            } else {
                assert(q[next.len() - 1] == rv[n - 2]);
            }
        }
    }
}

proof fn lemma_top_skip(
    rv: Seq<(Seq<char>, nat)>,
    es: Seq<(Seq<char>, nat)>,
    i: int,
    n: nat,
)
    requires
        0 <= i < es.len(),
        rv.len() == n,
        top_of_prefix(rv, es, i, n),
        forall|t: int| 0 <= t < rv.len() ==> #[trigger] rv[t].1 >= es[i].1,
    ensures
        top_of_prefix(rv, es, i + 1, n),
{
    reveal(top_of_prefix);
    assert forall|j: int| 0 <= j < i + 1 && !holds_key(rv, #[trigger] es[j].0) implies rv.len()
        == n && (n > 0 ==> es[j].1 <= rv[rv.len() - 1].1) by {
        if j == i && n > 0 {
            assert(rv[rv.len() - 1].1 >= es[i].1);
        }
    }
    assert forall|t: int| 0 <= t < rv.len() implies exists|j: int|
        0 <= j < i + 1 && #[trigger] rv[t].0 == es[j].0 by {
        let j = choose|j: int| 0 <= j < i && #[trigger] rv[t].0 == es[j].0;
    }
}

proof fn lemma_views_insert(r: Seq<(String, u64)>, p: int, e: (String, u64))
    requires
        0 <= p <= r.len(),
    ensures
        text_entry_views(r.insert(p, e)) == text_entry_views(r).insert(p, (e.0@, e.1 as nat)),
{
    r.insert_ensures(p, e);
    text_entry_views(r).insert_ensures(p, (e.0@, e.1 as nat));
    assert(text_entry_views(r.insert(p, e)) =~= text_entry_views(r).insert(p, (e.0@, e.1 as nat)));
}

/// The `n` most counted keys of a counter with their counts, most counted
/// first. Which of several equally counted keys comes first, or is kept at
/// the cut, is not fixed.
pub fn top_n(m: &TextCounts, n: usize) -> (r: Vec<(String, u64)>)
    requires
        m.wf(),
    ensures
        top_by_count(m@, n as nat, text_entry_views(r@)),
{
    let entries = m.entries();
    proof {
        m.lemma_key_order();
    }
    let ghost es = text_entry_views(entries@);
    proof {
        reveal(counted_in);
        reveal(keys_distinct);
        assert forall|a: int, b: int| 0 <= a < b < es.len() implies #[trigger] es[a].0
            != #[trigger] es[b].0 by {
            assert(m.key_order()[a] == entries@[a].0@);
            assert(m.key_order()[b] == entries@[b].0@);
        }
        assert forall|t: int| 0 <= t < es.len() implies m@.contains_key(#[trigger] es[t].0)
            && m@[es[t].0] == es[t].1 by {
            assert(es[t] == (entries@[t].0@, entries@[t].1 as nat));
        }
        assert forall|k: Seq<char>| #[trigger] m@.contains_key(k) implies exists|j: int|
            0 <= j < es.len() && es[j].0 == k by {
            assert(m.key_order().contains(k));
            let j = choose|j: int| 0 <= j < m.key_order().len() && m.key_order()[j] == k;
            assert(es[j].0 == k);
        }
    }
    let mut r: Vec<(String, u64)> = Vec::new();
    let mut i: usize = 0;
    proof {
        reveal(counts_descending);
        reveal(top_of_prefix);
        assert(text_entry_views(r@) =~= Seq::<(Seq<char>, nat)>::empty());
    }
    while i < entries.len()
        invariant
            es == text_entry_views(entries@),
            i <= es.len(),
            counted_in(m@, es),
            keys_distinct(es),
            text_entry_views(r@).len() == if (n as nat) < (i as nat) { n as nat } else { i as nat },
            counted_in(m@, text_entry_views(r@)),
            keys_distinct(text_entry_views(r@)),
            counts_descending(text_entry_views(r@)),
            top_of_prefix(text_entry_views(r@), es, i as int, n as nat),
        decreases es.len() - i,
    {
        let c = entries[i].1;
        let ghost rv = text_entry_views(r@);
        let mut p: usize = 0;
        while p < r.len() && r[p].1 >= c
            invariant
                p <= r@.len(),
                rv == text_entry_views(r@),
                c as nat == es[i as int].1,
                forall|t: int| 0 <= t < p ==> #[trigger] rv[t].1 >= es[i as int].1,
            decreases r@.len() - p,
        {
            assert(rv[p as int].1 == r@[p as int].1 as nat);
            p = p + 1;
        }
        proof {
            if p < r@.len() {
                assert(rv[p as int].1 == r@[p as int].1 as nat);
            }
            lemma_top_new_key(rv, es, i as int, n as nat, p as int);
        }
        let e = (entries[i].0.clone(), c);
        assert(es[i as int] == (e.0@, e.1 as nat));
        if r.len() < n {
            proof {
                lemma_views_insert(r@, p as int, e);
                lemma_top_insert_shape(m@, rv, es, i as int, p as int, rv.insert(p as int, es[i as int]));
                lemma_top_insert_prefix(m@, rv, es, i as int, n as nat, p as int, rv.insert(p as int, es[i as int]));
                rv.insert_ensures(p as int, es[i as int]);
            }
            r.insert(p, e);
        } else if p < r.len() {
            proof {
                lemma_views_insert(r@, p as int, e);
                let next = rv.insert(p as int, es[i as int]).drop_last();
                lemma_top_insert_shape(m@, rv, es, i as int, p as int, next);
                lemma_top_insert_prefix(m@, rv, es, i as int, n as nat, p as int, next);
                rv.insert_ensures(p as int, es[i as int]);
            }
            r.insert(p, e);
            let ghost before_pop = r@;
            r.pop();
            proof {
                assert(text_entry_views(r@) =~= text_entry_views(before_pop).drop_last());
            }
        } else {
            proof {
                lemma_top_skip(rv, es, i as int, n as nat);
            }
        }
        i = i + 1;
    }
    proof {
        reveal(counted_in);
        reveal(keys_distinct);
        reveal(counts_descending);
        reveal(top_of_prefix);
        let rv = text_entry_views(r@);
        assert forall|k: Seq<char>| #[trigger] m@.contains_key(k) && (forall|t: int|
            0 <= t < rv.len() ==> rv[t].0 != k) implies rv.len() == n && (n > 0 ==> m@[k]
            <= rv[rv.len() - 1].1) by {
            let j = choose|j: int| 0 <= j < es.len() && es[j].0 == k;
            assert(!holds_key(rv, es[j].0));
        }
    }
    r
}

/// Lines joined with `\n` between them, as `[String]::join("\n")` does.
pub open spec fn join_lines(ls: Seq<Seq<char>>) -> Seq<char>
    decreases ls.len(),
{
    if ls.len() == 0 {
        Seq::empty()
    } else if ls.len() == 1 {
        ls[0]
    } else {
        join_lines(ls.drop_last()) + seq!['\n'] + ls.last()
    }
}

pub open spec fn string_views(ls: Seq<String>) -> Seq<Seq<char>> {
    ls.map_values(|l: String| l@)
}

/// Joins lines with `\n` between them.
pub fn join_strings(lines: &Vec<String>) -> (r: String)
    ensures
        r@ == join_lines(string_views(lines@)),
{
    let mut out = String::new();
    let mut i: usize = 0;
    while i < lines.len()
        invariant
            i <= lines@.len(),
            out@ == join_lines(string_views(lines@.take(i as int))),
        decreases lines@.len() - i,
    {
        proof {
            let next = string_views(lines@.take(i + 1));
            assert(next.drop_last() =~= string_views(lines@.take(i as int)));
            assert(next.last() == lines@[i as int]@);
        }
        if i > 0 {
            crate::text::push_char(&mut out, '\n');
        }
        push_str(&mut out, lines[i].as_str());
        proof {
            if i == 0 {
                assert(string_views(lines@.take(1))[0] == lines@[0]@);
                assert(string_views(lines@.take(0)) =~= Seq::<Seq<char>>::empty());
                assert(out@ =~= lines@[0]@);
            } else {
                assert(out@ =~= join_lines(string_views(lines@.take(i as int))) + seq!['\n']
                    + lines@[i as int]@);
            }
        }
        i = i + 1;
    }
    assert(lines@.take(lines@.len() as int) =~= lines@);
    out
}

/// The entries of `map` in increasing key order, one line each as
/// `fmt_line` writes it, joined with `\n`.
pub fn format_kv_sorted<K: CountKey, F: Fn(&K, &u64) -> String>(map: &KeyCounts<K>, fmt_line: F) -> (r: String)
    requires
        map.wf(),
        forall|k: K, v: u64| fmt_line.requires((&k, &v)),
    ensures
        exists|es: Seq<(K, u64)>, ls: Seq<String>|
            {
                &&& sorted_by_key(map@, es)
                &&& ls.len() == es.len()
                &&& forall|i: int|
                    0 <= i < es.len() ==> fmt_line.ensures((&es[i].0, &es[i].1), #[trigger] ls[i])
                &&& r@ == join_lines(string_views(ls))
            },
{
    let entries = sorted(map);
    let mut lines: Vec<String> = Vec::new();
    let mut i: usize = 0;
    while i < entries.len()
        invariant
            i <= entries@.len(),
            lines@.len() == i,
            forall|k: K, v: u64| fmt_line.requires((&k, &v)),
            forall|j: int|
                0 <= j < i ==> fmt_line.ensures((&entries@[j].0, &entries@[j].1), #[trigger] lines@[j]),
        decreases entries@.len() - i,
    {
        let line = fmt_line(&entries[i].0, &entries[i].1);
        lines.push(line);
        i = i + 1;
    }
    let r = join_strings(&lines);
    assert(sorted_by_key(map@, entries@));
    r
}

/// The `n` most counted entries of `map`, most counted first, one line each
/// as `fmt_line` writes it, joined with `\n`. Which of several equally
/// counted keys comes first is not fixed.
pub fn format_top_n<F: Fn(&String, &u64) -> String>(map: &TextCounts, n: usize, fmt_line: F) -> (r: String)
    requires
        map.wf(),
        forall|k: String, v: u64| fmt_line.requires((&k, &v)),
    ensures
        exists|es: Seq<(String, u64)>, ls: Seq<String>|
            {
                &&& top_by_count(map@, n as nat, text_entry_views(es))
                &&& ls.len() == es.len()
                &&& forall|i: int|
                    0 <= i < es.len() ==> fmt_line.ensures((&es[i].0, &es[i].1), #[trigger] ls[i])
                &&& r@ == join_lines(string_views(ls))
            },
{
    let entries = top_n(map, n);
    let mut lines: Vec<String> = Vec::new();
    let mut i: usize = 0;
    while i < entries.len()
        invariant
            i <= entries@.len(),
            lines@.len() == i,
            forall|k: String, v: u64| fmt_line.requires((&k, &v)),
            forall|j: int|
                0 <= j < i ==> fmt_line.ensures((&entries@[j].0, &entries@[j].1), #[trigger] lines@[j]),
        decreases entries@.len() - i,
    {
        let line = fmt_line(&entries[i].0, &entries[i].1);
        lines.push(line);
        i = i + 1;
    }
    join_strings(&lines)
}

} // verus!
