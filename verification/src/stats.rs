//! The tallies of a log: line counts, request and byte totals, and counts per
//! client address, status code, request path and hour.
use vstd::prelude::*;
use crate::counts::{
    bump, count, lemma_bump_commutes, lemma_bump_merge, lemma_merge_counts_associative,
    lemma_merge_counts_commutative, lemma_merge_counts_empty, merge_counts, merge_fits, KeyCounts,
    TextCounts,
};
use crate::parse::RecordView;

verus! {

/// What a [`Stats`] holds, as numbers and maps.
#[verifier::ext_equal]
pub struct StatsView {
    pub total_lines: nat,
    pub parsed_lines: nat,
    pub requests: nat,
    pub bytes: nat,
    pub by_ip: Map<Seq<char>, nat>,
    pub by_status: Map<u16, nat>,
    pub by_path: Map<Seq<char>, nat>,
    pub by_hour: Map<u8, nat>,
}

/// Tallies before any line: all zero, no keys.
pub open spec fn empty_stats() -> StatsView {
    StatsView {
        total_lines: 0,
        parsed_lines: 0,
        requests: 0,
        bytes: 0,
        by_ip: Map::empty(),
        by_status: Map::empty(),
        by_path: Map::empty(),
        by_hour: Map::empty(),
    }
}

/// The tallies after one more request (client address, hour, path, status,
/// size): one more request, its size added, and its address, status, path
/// and hour each counted once more. The line counts do not change.
pub open spec fn record_stats(s: StatsView, r: RecordView) -> StatsView {
    StatsView {
        total_lines: s.total_lines,
        parsed_lines: s.parsed_lines,
        requests: s.requests + 1,
        bytes: s.bytes + r.4 as nat,
        by_ip: bump(s.by_ip, r.0, 1),
        by_status: bump(s.by_status, r.3, 1),
        by_path: bump(s.by_path, r.2, 1),
        by_hour: bump(s.by_hour, r.1, 1),
    }
}

/// Two tallies added field by field and key by key.
pub open spec fn merge_stats(a: StatsView, b: StatsView) -> StatsView {
    StatsView {
        total_lines: a.total_lines + b.total_lines,
        parsed_lines: a.parsed_lines + b.parsed_lines,
        requests: a.requests + b.requests,
        bytes: a.bytes + b.bytes,
        by_ip: merge_counts(a.by_ip, b.by_ip),
        by_status: merge_counts(a.by_status, b.by_status),
        by_path: merge_counts(a.by_path, b.by_path),
        by_hour: merge_counts(a.by_hour, b.by_hour),
    }
}

/// Recording `r` keeps every total and count of `s` within `u64`.
pub open spec fn record_fits(s: StatsView, r: RecordView) -> bool {
    &&& s.requests + 1 <= u64::MAX
    &&& s.bytes + r.4 <= u64::MAX
    &&& count(s.by_ip, r.0) + 1 <= u64::MAX
    &&& count(s.by_status, r.3) + 1 <= u64::MAX
    &&& count(s.by_path, r.2) + 1 <= u64::MAX
    &&& count(s.by_hour, r.1) + 1 <= u64::MAX
}

/// Merging `a` and `b` keeps every total and count within `u64`.
pub open spec fn stats_merge_fits(a: StatsView, b: StatsView) -> bool {
    &&& a.total_lines + b.total_lines <= u64::MAX
    &&& a.parsed_lines + b.parsed_lines <= u64::MAX
    &&& a.requests + b.requests <= u64::MAX
    &&& a.bytes + b.bytes <= u64::MAX
    &&& merge_fits(a.by_ip, b.by_ip)
    &&& merge_fits(a.by_status, b.by_status)
    &&& merge_fits(a.by_path, b.by_path)
    &&& merge_fits(a.by_hour, b.by_hour)
}

/// Aggregated statistics of an access log.
pub struct Stats {
    pub total_lines: u64,
    pub parsed_lines: u64,
    pub requests: u64,
    pub bytes: u64,
    pub by_ip: TextCounts,
    pub by_status: KeyCounts<u16>,
    pub by_path: TextCounts,
    pub by_hour: KeyCounts<u8>,
}

impl View for Stats {
    type V = StatsView;

    open spec fn view(&self) -> StatsView {
        StatsView {
            total_lines: self.total_lines as nat,
            parsed_lines: self.parsed_lines as nat,
            requests: self.requests as nat,
            bytes: self.bytes as nat,
            by_ip: self.by_ip@,
            by_status: self.by_status@,
            by_path: self.by_path@,
            by_hour: self.by_hour@,
        }
    }
}

impl Default for Stats {
    /// Tallies of no line at all.
    fn default() -> (r: Self)
        ensures
            r.wf(),
            r@ == empty_stats(),
    {
        Stats::empty()
    }
}

impl Stats {
    /// Each counter lists its keys once.
    pub open spec fn wf(&self) -> bool {
        &&& self.by_ip.wf()
        &&& self.by_status.wf()
        &&& self.by_path.wf()
        &&& self.by_hour.wf()
    }

    fn empty() -> (r: Self)
        ensures
            r.wf(),
            r@ == empty_stats(),
    {
        Stats {
            total_lines: 0,
            parsed_lines: 0,
            requests: 0,
            bytes: 0,
            by_ip: TextCounts::new(),
            by_status: KeyCounts::new(),
            by_path: TextCounts::new(),
            by_hour: KeyCounts::new(),
        }
    }

    /// A copy of the statistics: the same totals and the same tallies.
    pub fn duplicate(&self) -> (r: Stats)
        requires
            self.wf(),
        ensures
            r.wf(),
            r@ == self@,
    {
        Stats {
            total_lines: self.total_lines,
            parsed_lines: self.parsed_lines,
            requests: self.requests,
            bytes: self.bytes,
            by_ip: self.by_ip.duplicate(),
            by_status: self.by_status.duplicate(),
            by_path: self.by_path.duplicate(),
            by_hour: self.by_hour.duplicate(),
        }
    }

    /// Counts one request.
    pub fn record(&mut self, ip: String, hour: u8, path: String, status: u16, bytes: u64)
        requires
            old(self).wf(),
            record_fits(old(self)@, (ip@, hour, path@, status, bytes)),
        ensures
            final(self).wf(),
            final(self)@ == record_stats(old(self)@, (ip@, hour, path@, status, bytes)),
            final(self).requests == old(self).requests + 1,
            final(self).bytes == old(self).bytes + bytes,
            final(self).total_lines == old(self).total_lines,
            final(self).parsed_lines == old(self).parsed_lines,
            forall|k: Seq<char>|
                #[trigger] count(final(self).by_ip@, k) == count(old(self).by_ip@, k) + if k == ip@ {
                    1int
                } else {
                    0int
                },
            forall|k: u16|
                #[trigger] count(final(self).by_status@, k) == count(old(self).by_status@, k) + if k
                    == status {
                    1int
                } else {
                    0int
                },
            forall|k: Seq<char>|
                #[trigger] count(final(self).by_path@, k) == count(old(self).by_path@, k) + if k
                    == path@ {
                    1int
                } else {
                    0int
                },
            forall|k: u8|
                #[trigger] count(final(self).by_hour@, k) == count(old(self).by_hour@, k) + if k
                    == hour {
                    1int
                } else {
                    0int
                },
    {
        proof {
            lemma_record_counts(old(self)@, (ip@, hour, path@, status, bytes));
        }
        self.requests = self.requests + 1;
        self.bytes = self.bytes + bytes;
        self.by_ip.add(ip, 1);
        self.by_status.add(status, 1);
        self.by_path.add(path, 1);
        self.by_hour.add(hour, 1);
    }

    /// Whether merging `other` into this keeps every total and count within
    /// `u64`.
    pub fn can_merge(&self, other: &Stats) -> (r: bool)
        requires
            other.wf(),
        ensures
            r == stats_merge_fits(self@, other@),
    {
        self.total_lines <= u64::MAX - other.total_lines && self.parsed_lines <= u64::MAX
            - other.parsed_lines && self.requests <= u64::MAX - other.requests && self.bytes
            <= u64::MAX - other.bytes && self.by_ip.can_merge(&other.by_ip)
            && self.by_status.can_merge(&other.by_status) && self.by_path.can_merge(&other.by_path)
            && self.by_hour.can_merge(&other.by_hour)
    }

    /// Adds two tallies field by field and key by key.
    pub fn merge(self, other: Stats) -> (r: Stats)
        requires
            self.wf(),
            other.wf(),
            stats_merge_fits(self@, other@),
        ensures
            r.wf(),
            r@ == merge_stats(self@, other@),
    {
        let mut s = self;
        s.total_lines = s.total_lines + other.total_lines;
        s.parsed_lines = s.parsed_lines + other.parsed_lines;
        s.requests = s.requests + other.requests;
        s.bytes = s.bytes + other.bytes;
        s.by_ip.merge_from(&other.by_ip);
        s.by_status.merge_from(&other.by_status);
        s.by_path.merge_from(&other.by_path);
        s.by_hour.merge_from(&other.by_hour);
        s
    }

    /// [`Stats::merge`] where every sum fits in `u64`, and `None` where one
    /// would not.
    pub fn try_merge(self, other: Stats) -> (r: Option<Stats>)
        requires
            self.wf(),
            other.wf(),
        ensures
            r is None <==> !stats_merge_fits(self@, other@),
            r matches Some(m) ==> m.wf() && m@ == merge_stats(self@, other@),
    {
        if self.can_merge(&other) {
            Some(self.merge(other))
        } else {
            None
        }
    }
}

/// Merging statistics does not depend on the order of the two sides.
pub proof fn lemma_merge_commutative(a: StatsView, b: StatsView)
    ensures
        merge_stats(a, b) == merge_stats(b, a),
{
    lemma_merge_counts_commutative(a.by_ip, b.by_ip);
    lemma_merge_counts_commutative(a.by_status, b.by_status);
    lemma_merge_counts_commutative(a.by_path, b.by_path);
    lemma_merge_counts_commutative(a.by_hour, b.by_hour);
}

/// Merging statistics does not depend on how they are grouped.
pub proof fn lemma_merge_associative(a: StatsView, b: StatsView, c: StatsView)
    ensures
        merge_stats(merge_stats(a, b), c) == merge_stats(a, merge_stats(b, c)),
{
    lemma_merge_counts_associative(a.by_ip, b.by_ip, c.by_ip);
    lemma_merge_counts_associative(a.by_status, b.by_status, c.by_status);
    lemma_merge_counts_associative(a.by_path, b.by_path, c.by_path);
    lemma_merge_counts_associative(a.by_hour, b.by_hour, c.by_hour);
}

/// The default (empty) statistics are the identity of merging.
pub proof fn lemma_merge_identity(a: StatsView)
    ensures
        merge_stats(a, empty_stats()) == a,
        merge_stats(empty_stats(), a) == a,
{
    lemma_merge_counts_empty(a.by_ip);
    lemma_merge_counts_empty(a.by_status);
    lemma_merge_counts_empty(a.by_path);
    lemma_merge_counts_empty(a.by_hour);
}

/// Recording two requests gives the same statistics in either order.
pub proof fn lemma_record_commutes(s: StatsView, r1: RecordView, r2: RecordView)
    ensures
        record_stats(record_stats(s, r1), r2) == record_stats(record_stats(s, r2), r1),
{
    lemma_bump_commutes(s.by_ip, r1.0, 1, r2.0, 1);
    lemma_bump_commutes(s.by_status, r1.3, 1, r2.3, 1);
    lemma_bump_commutes(s.by_path, r1.2, 1, r2.2, 1);
    lemma_bump_commutes(s.by_hour, r1.1, 1, r2.1, 1);
}

/// Recording into the right side of a merge is recording into the merge.
pub proof fn lemma_record_into_merge(a: StatsView, b: StatsView, r: RecordView)
    ensures
        merge_stats(a, record_stats(b, r)) == record_stats(merge_stats(a, b), r),
{
    lemma_bump_merge(a.by_ip, b.by_ip, r.0, 1);
    lemma_bump_merge(a.by_status, b.by_status, r.3, 1);
    lemma_bump_merge(a.by_path, b.by_path, r.2, 1);
    lemma_bump_merge(a.by_hour, b.by_hour, r.1, 1);
}

/// Recording a request is merging the statistics of that request alone.
pub proof fn lemma_record_is_merge(s: StatsView, r: RecordView)
    ensures
        record_stats(s, r) == merge_stats(s, record_stats(empty_stats(), r)),
{
    lemma_merge_identity(s);
    lemma_record_into_merge(s, empty_stats(), r);
}

/// Recording a request counts its address, status, path and hour exactly
/// once more, adds one request and its size, and changes no other count.
pub proof fn lemma_record_counts(s: StatsView, r: RecordView)
    ensures
        record_stats(s, r).requests == s.requests + 1,
        record_stats(s, r).bytes == s.bytes + r.4,
        record_stats(s, r).total_lines == s.total_lines,
        record_stats(s, r).parsed_lines == s.parsed_lines,
        forall|k: Seq<char>|
            #[trigger] count(record_stats(s, r).by_ip, k) == count(s.by_ip, k) + if k == r.0 {
                1int
            } else {
                0int
            },
        forall|k: u16|
            #[trigger] count(record_stats(s, r).by_status, k) == count(s.by_status, k) + if k
                == r.3 {
                1int
            } else {
                0int
            },
        forall|k: Seq<char>|
            #[trigger] count(record_stats(s, r).by_path, k) == count(s.by_path, k) + if k == r.2 {
                1int
            } else {
                0int
            },
        forall|k: u8|
            #[trigger] count(record_stats(s, r).by_hour, k) == count(s.by_hour, k) + if k == r.1 {
                1int
            } else {
                0int
            },
{
}

} // verus!
