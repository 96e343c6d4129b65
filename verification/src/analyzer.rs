//! Aggregation of parsed records into request statistics, and the merge of
//! partial statistics (the reduce step of a parallel fold).

use vstd::prelude::*;

use crate::counts::{add_counts, add_entries, add_entry, bump, count_of, entries_view, CountTable};
use crate::parser::{ParsedLogRecord, RecordView};
use crate::sorting::{sort_ascending, sort_by_count_desc};
use crate::text::{char_vecs_view, chars_of, lines, split_lines, string_from_chars};
use vstd::utf8::{decode_utf8, valid_utf8};

verus! {

// ---------------------------------------------------------------------------
// Input: bytes to lines
// ---------------------------------------------------------------------------

/// The characters `String::from_utf8_lossy` gives for `bytes`: their UTF-8
/// decoding, each invalid sequence replaced by U+FFFD.
pub uninterp spec fn utf8_lossy(bytes: Seq<u8>) -> Seq<char>;

/// `String::from_utf8_lossy`, made an owned string. Its result is named
/// [`utf8_lossy`]; on valid UTF-8 it is the plain decoding. How invalid
/// sequences are replaced is left unsaid here.
#[verifier::external_body]
fn decode_utf8_lossy(bytes: &[u8]) -> (s: String)
    ensures
        s@ == utf8_lossy(bytes@),
        valid_utf8(bytes@) ==> s@ == decode_utf8(bytes@),
{
    String::from_utf8_lossy(bytes).into_owned()
}

/// A sequence of strings, by their characters.
pub open spec fn strings_view(v: Seq<String>) -> Seq<Seq<char>> {
    v.map_values(|s: String| s@)
}

/// The lines of a log file's bytes, decoded as UTF-8 (invalid sequences
/// replaced), split at '\n', each without a trailing '\r'.
pub fn log_lines(bytes: &[u8]) -> (r: Vec<String>)
    ensures
        strings_view(r@) == lines(utf8_lossy(bytes@)),
        valid_utf8(bytes@) ==> strings_view(r@) == lines(decode_utf8(bytes@)),
{
    let text = decode_utf8_lossy(bytes);
    let chars = chars_of(text.as_str());
    let pieces = split_lines(chars.as_slice());
    let mut out: Vec<String> = Vec::new();
    let mut i: usize = 0;
    while i < pieces.len()
        invariant
            i <= pieces@.len(),
            strings_view(out@) == char_vecs_view(pieces@).take(i as int),
        decreases pieces@.len() - i,
    {
        let ghost before = out@;
        let line = string_from_chars(pieces[i].as_slice());
        out.push(line);
        assert(strings_view(out@) == strings_view(before).push(pieces@[i as int]@));
        assert(char_vecs_view(pieces@).take(i + 1) == char_vecs_view(pieces@).take(i as int).push(
            pieces@[i as int]@,
        ));
        i = i + 1;
    }
    assert(char_vecs_view(pieces@).take(pieces@.len() as int) == char_vecs_view(pieces@));
    out
}

// ---------------------------------------------------------------------------
// Records to statistics
// ---------------------------------------------------------------------------

/// The bit pattern of an `f64` greater than `0.0`: a positive finite number
/// or positive infinity (sign bit clear, not zero, not NaN).
pub open spec fn is_positive_latency(bits: u64) -> bool {
    0 < bits <= 0x7ff0_0000_0000_0000
}

/// Tests [`is_positive_latency`].
pub fn latency_is_positive(bits: u64) -> (r: bool)
    ensures
        r == is_positive_latency(bits),
{
    0 < bits && bits <= 0x7ff0_0000_0000_0000
}

/// Which status class a code falls in: 2, 3, 4 or 5 for 200..=299 up to
/// 500..=599, and 0 for any other code.
pub open spec fn status_class(status: u16) -> int {
    if 200 <= status <= 299 {
        2
    } else if 300 <= status <= 399 {
        3
    } else if 400 <= status <= 499 {
        4
    } else if 500 <= status <= 599 {
        5
    } else {
        0
    }
}

/// The mathematical content of [`AggregatedStats`].
#[verifier::ext_equal]
pub struct StatsView {
    pub total_requests: nat,
    pub total_bytes: nat,
    pub status_2xx: nat,
    pub status_3xx: nat,
    pub status_4xx: nat,
    pub status_5xx: nat,
    pub path_counts: Map<Seq<char>, nat>,
    pub ip_counts: Map<Seq<char>, nat>,
    pub latencies: Seq<u64>,
}

/// Statistics of no request at all.
pub open spec fn empty_stats() -> StatsView {
    StatsView {
        total_requests: 0,
        total_bytes: 0,
        status_2xx: 0,
        status_3xx: 0,
        status_4xx: 0,
        status_5xx: 0,
        path_counts: Map::empty(),
        ip_counts: Map::empty(),
        latencies: Seq::empty(),
    }
}

/// The statistics `s` with one more request `r` counted: one request more,
/// its bytes added, its status class counted, its path and address counted,
/// and its latency kept when it is greater than zero.
pub open spec fn spec_record(s: StatsView, r: RecordView) -> StatsView {
    let c = status_class(r.status);
    StatsView {
        total_requests: s.total_requests + 1,
        total_bytes: s.total_bytes + r.bytes as nat,
        status_2xx: if c == 2 {
            s.status_2xx + 1
        } else {
            s.status_2xx
        },
        status_3xx: if c == 3 {
            s.status_3xx + 1
        } else {
            s.status_3xx
        },
        status_4xx: if c == 4 {
            s.status_4xx + 1
        } else {
            s.status_4xx
        },
        status_5xx: if c == 5 {
            s.status_5xx + 1
        } else {
            s.status_5xx
        },
        path_counts: bump(s.path_counts, r.path, 1),
        ip_counts: bump(s.ip_counts, r.ip, 1),
        latencies: if is_positive_latency(r.latency_ms) {
            s.latencies.push(r.latency_ms)
        } else {
            s.latencies
        },
    }
}

/// The statistics of two disjoint sets of requests taken together: every
/// counter and every per-key count added, latencies of `a` then of `b`.
pub open spec fn spec_merge(a: StatsView, b: StatsView) -> StatsView {
    StatsView {
        total_requests: a.total_requests + b.total_requests,
        total_bytes: a.total_bytes + b.total_bytes,
        status_2xx: a.status_2xx + b.status_2xx,
        status_3xx: a.status_3xx + b.status_3xx,
        status_4xx: a.status_4xx + b.status_4xx,
        status_5xx: a.status_5xx + b.status_5xx,
        path_counts: add_counts(a.path_counts, b.path_counts),
        ip_counts: add_counts(a.ip_counts, b.ip_counts),
        latencies: a.latencies + b.latencies,
    }
}

/// The statistics of a sequence of records, counted one after the other.
pub open spec fn spec_aggregate(rs: Seq<RecordView>) -> StatsView
    decreases rs.len(),
{
    if rs.len() == 0 {
        empty_stats()
    } else {
        spec_record(spec_aggregate(rs.drop_last()), rs.last())
    }
}

/// Request statistics: totals, status classes, counts per path and per
/// client address, and the positive latencies (as `f64` bit patterns).
#[derive(Debug, Clone)]
pub struct AggregatedStats {
    pub total_requests: u64,
    pub total_bytes: u64,
    pub status_2xx: u64,
    pub status_3xx: u64,
    pub status_4xx: u64,
    pub status_5xx: u64,
    pub path_counts: CountTable,
    pub ip_counts: CountTable,
    pub latencies: Vec<u64>,
}

impl View for AggregatedStats {
    type V = StatsView;

    open spec fn view(&self) -> StatsView {
        StatsView {
            total_requests: self.total_requests as nat,
            total_bytes: self.total_bytes as nat,
            status_2xx: self.status_2xx as nat,
            status_3xx: self.status_3xx as nat,
            status_4xx: self.status_4xx as nat,
            status_5xx: self.status_5xx as nat,
            path_counts: self.path_counts@,
            ip_counts: self.ip_counts@,
            latencies: self.latencies@,
        }
    }
}

impl AggregatedStats {
    /// Every request is counted under exactly one path and one address, in at
    /// most one status class, and keeps at most one latency.
    pub open spec fn wf(&self) -> bool {
        &&& self.path_counts.wf()
        &&& self.ip_counts.wf()
        &&& self.path_counts.total() == self.total_requests
        &&& self.ip_counts.total() == self.total_requests
        &&& self.status_2xx + self.status_3xx + self.status_4xx + self.status_5xx
            <= self.total_requests
        &&& self.latencies@.len() <= self.total_requests
    }

    /// Statistics of no request at all.
    pub fn new() -> (s: AggregatedStats)
        ensures
            s.wf(),
            s@ == empty_stats(),
            s.path_counts.ordered().len() == 0,
            s.ip_counts.ordered().len() == 0,
    {
        AggregatedStats {
            total_requests: 0,
            total_bytes: 0,
            status_2xx: 0,
            status_3xx: 0,
            status_4xx: 0,
            status_5xx: 0,
            path_counts: CountTable::new(),
            ip_counts: CountTable::new(),
            latencies: Vec::new(),
        }
    }

    /// Counts one more request.
    pub fn record(&mut self, record: ParsedLogRecord)
        requires
            old(self).wf(),
            old(self).total_requests < u64::MAX,
            old(self).total_bytes + record.bytes <= u64::MAX,
        ensures
            final(self).wf(),
            final(self)@ == spec_record(old(self)@, record@),
            final(self).path_counts.ordered() == add_entry(
                old(self).path_counts.ordered(),
                record.path@,
                1,
            ),
            final(self).ip_counts.ordered() == add_entry(old(self).ip_counts.ordered(), record.ip@, 1),
    {
        let ghost r = record@;
        self.total_requests = self.total_requests + 1;
        self.total_bytes = self.total_bytes + record.bytes;
        let status = record.status;
        if 200 <= status && status <= 299 {
            self.status_2xx = self.status_2xx + 1;
        } else if 300 <= status && status <= 399 {
            self.status_3xx = self.status_3xx + 1;
        } else if 400 <= status && status <= 499 {
            self.status_4xx = self.status_4xx + 1;
        } else if 500 <= status && status <= 599 {
            self.status_5xx = self.status_5xx + 1;
        }
        self.path_counts.add(record.path, 1);
        self.ip_counts.add(record.ip, 1);
        if latency_is_positive(record.latency_ms) {
            self.latencies.push(record.latency_ms);
        }
        assert(self@ == spec_record(old(self)@, r));
    }

    /// Adds the statistics of `other`, which counts other requests.
    pub fn merge(&mut self, other: AggregatedStats)
        requires
            old(self).wf(),
            other.wf(),
            old(self).total_requests + other.total_requests <= u64::MAX,
            old(self).total_bytes + other.total_bytes <= u64::MAX,
        ensures
            final(self).wf(),
            final(self)@ == spec_merge(old(self)@, other@),
            final(self).path_counts.ordered() == add_entries(
                old(self).path_counts.ordered(),
                other.path_counts.ordered(),
            ),
            final(self).ip_counts.ordered() == add_entries(
                old(self).ip_counts.ordered(),
                other.ip_counts.ordered(),
            ),
    {
        let ghost o = other@;
        self.total_requests = self.total_requests + other.total_requests;
        self.total_bytes = self.total_bytes + other.total_bytes;
        self.status_2xx = self.status_2xx + other.status_2xx;
        self.status_3xx = self.status_3xx + other.status_3xx;
        self.status_4xx = self.status_4xx + other.status_4xx;
        self.status_5xx = self.status_5xx + other.status_5xx;
        self.path_counts.merge(&other.path_counts);
        self.ip_counts.merge(&other.ip_counts);
        let mut lat = other.latencies;
        self.latencies.append(&mut lat);
        assert(self@ == spec_merge(old(self)@, o));
    }
}

impl Default for AggregatedStats {
    fn default() -> (s: AggregatedStats)
        ensures
            s.wf(),
            s@ == empty_stats(),
            s.path_counts.ordered().len() == 0,
            s.ip_counts.ordered().len() == 0,
    {
        AggregatedStats::new()
    }
}

// ---------------------------------------------------------------------------
// The report: latency percentiles and the most frequent paths and addresses
// ---------------------------------------------------------------------------

/// `s` is in ascending order.
pub open spec fn sorted_asc(s: Seq<u64>) -> bool {
    forall|i: int, j: int| 0 <= i <= j < s.len() ==> s[i] <= s[j]
}

/// `s` is in descending order of counts.
pub open spec fn sorted_by_count_desc(s: Seq<(Seq<char>, u64)>) -> bool {
    forall|i: int, j: int| 0 <= i <= j < s.len() ==> s[i].1 >= s[j].1
}

/// The test "the count is `c`" on entries.
pub open spec fn count_is(c: u64) -> spec_fn((Seq<char>, u64)) -> bool {
    |e: (Seq<char>, u64)| e.1 == c
}

/// The entries of `s` whose count is `c`, in their order in `s`.
pub open spec fn with_count(s: Seq<(Seq<char>, u64)>, c: u64) -> Seq<(Seq<char>, u64)> {
    s.filter(count_is(c))
}

/// `s` is what a stable sort of `e` by descending count gives: in descending
/// order of counts, and, for each count, the entries with that count in the
/// order they have in `e`.
pub open spec fn is_stable_desc_sort(s: Seq<(Seq<char>, u64)>, e: Seq<(Seq<char>, u64)>) -> bool {
    &&& sorted_by_count_desc(s)
    &&& forall|c: u64| #[trigger] with_count(s, c) == with_count(e, c)
}

/// `s` is the first `k` entries (or all, when there are fewer) of a stable
/// sort of `e` by descending count.
pub open spec fn is_top_entries(s: Seq<(Seq<char>, u64)>, e: Seq<(Seq<char>, u64)>, k: nat) -> bool {
    exists|sorted: Seq<(Seq<char>, u64)>|
        is_stable_desc_sort(sorted, e) && s == sorted.take(
            if k <= e.len() {
                k as int
            } else {
                e.len() as int
            },
        )
}

/// The position of the `pct`-th percentile among `n` sorted values: the
/// value `n * pct / 100` rounded down, but at most `n - 1`. (For `pct` 50,
/// 90, 95 and 99 this is the index that `(n as f64 * 0.pct) as usize`, capped
/// at `n - 1`, gives for every `n` below 10^14.)
pub open spec fn rank_index(n: nat, pct: nat) -> int {
    let i = (n * pct / 100) as int;
    if i < n {
        i
    } else {
        n - 1
    }
}

/// The `pct`-th percentile of the ascending values `sorted`, or 0 (the bit
/// pattern of `0.0`) when there are none. Percentile 0 is the least value and
/// percentile 100 the greatest.
pub open spec fn percentile(sorted: Seq<u64>, pct: nat) -> u64 {
    if sorted.len() == 0 {
        0
    } else {
        sorted[rank_index(sorted.len(), pct)]
    }
}

/// The `pct`-th percentile of the ascending values `sorted`.
fn percentile_of(sorted: &Vec<u64>, pct: u64) -> (r: u64)
    requires
        pct <= 100,
    ensures
        r == percentile(sorted@, pct as nat),
{
    let n = sorted.len();
    if n == 0 {
        return 0;
    }
    assert((n as u128) * (pct as u128) <= 0xffff_ffff_ffff_ffffu128 * 100) by (nonlinear_arith)
        requires
            n <= 0xffff_ffff_ffff_ffffu64,
            pct <= 100,
    ;
    let wide: u128 = (n as u128) * (pct as u128) / 100;
    assert(wide <= n) by (nonlinear_arith)
        requires
            wide == (n as u128) * (pct as u128) / 100,
            pct <= 100,
    ;
    let i: usize = if wide < n as u128 {
        wide as usize
    } else {
        n - 1
    };
    sorted[i]
}

/// The `k` most frequent entries of a count table, most frequent first;
/// entries with equal counts keep the table's order.
pub fn top_entries(t: &CountTable, k: usize) -> (r: Vec<(String, u64)>)
    ensures
        is_top_entries(entries_view(r@), t.ordered(), k as nat),
{
    let mut v = t.to_vec();
    let ghost e = entries_view(v@);
    sort_by_count_desc(&mut v);
    let ghost sorted = entries_view(v@);
    assert(sorted.len() == e.len()) by {
        lemma_stable_sort_len(sorted, e);
    }
    v.truncate(k);
    assert(entries_view(v@) == sorted.take(
        if k <= e.len() {
            k as int
        } else {
            e.len() as int
        },
    ));
    v
}

/// A stable sort keeps the entries, and so their number.
proof fn lemma_stable_sort_len(s: Seq<(Seq<char>, u64)>, e: Seq<(Seq<char>, u64)>)
    requires
        is_stable_desc_sort(s, e),
    ensures
        s.len() == e.len(),
        s.to_multiset() == e.to_multiset(),
{
    assert(s.to_multiset() == e.to_multiset()) by {
        assert forall|x: (Seq<char>, u64)| s.to_multiset().count(x) == e.to_multiset().count(x) by {
            lemma_count_filter(s, x);
            lemma_count_filter(e, x);
            assert(with_count(s, x.1) == with_count(e, x.1));
        }
        assert(s.to_multiset() =~= e.to_multiset());
    }
    s.to_multiset_ensures();
    e.to_multiset_ensures();
}

/// How often `x` occurs in `s` is how often it occurs among the entries of
/// its count.
proof fn lemma_count_filter(s: Seq<(Seq<char>, u64)>, x: (Seq<char>, u64))
    ensures
        s.to_multiset().count(x) == with_count(s, x.1).to_multiset().count(x),
    decreases s.len(),
{
    broadcast use vstd::seq_lib::group_to_multiset_ensures;
    if s.len() > 0 {
        let p = s.drop_last();
        lemma_count_filter(p, x);
        assert(s == p.push(s.last()));
        p.lemma_filter_push(s.last(), count_is(x.1));
        assert(with_count(s, x.1) == if s.last().1 == x.1 {
            with_count(p, x.1).push(s.last())
        } else {
            with_count(p, x.1)
        });
    }
}

/// The summary of request statistics; the error rate and the mean latency
/// are computed from it by floating-point division. Latencies are `f64`
/// bit patterns.
#[derive(Debug)]
pub struct AnalysisReport {
    pub total_requests: u64,
    pub total_bytes: u64,
    /// Requests with a 4xx or 5xx status.
    pub error_requests: u64,
    pub status_2xx: u64,
    pub status_3xx: u64,
    pub status_4xx: u64,
    pub status_5xx: u64,
    /// The positive latencies, in ascending order.
    pub sorted_latencies: Vec<u64>,
    pub min_latency_ms: u64,
    pub p50_latency_ms: u64,
    pub p90_latency_ms: u64,
    pub p95_latency_ms: u64,
    pub p99_latency_ms: u64,
    pub max_latency_ms: u64,
    pub top_paths: Vec<(String, u64)>,
    pub top_ips: Vec<(String, u64)>,
}

/// Summarizes request statistics: the counters, the latencies sorted with
/// their minimum, p50, p90, p95, p99 and maximum, and the `top_k` most
/// requested paths and most frequent client addresses.
pub fn build_report(stats: AggregatedStats, top_k: usize) -> (r: AnalysisReport)
    requires
        stats.wf(),
    ensures
        r.total_requests == stats.total_requests,
        r.total_bytes == stats.total_bytes,
        r.error_requests == stats.status_4xx + stats.status_5xx,
        r.error_requests <= r.total_requests,
        r.status_2xx == stats.status_2xx,
        r.status_3xx == stats.status_3xx,
        r.status_4xx == stats.status_4xx,
        r.status_5xx == stats.status_5xx,
        sorted_asc(r.sorted_latencies@),
        r.sorted_latencies@.to_multiset() == stats.latencies@.to_multiset(),
        r.min_latency_ms == percentile(r.sorted_latencies@, 0),
        r.p50_latency_ms == percentile(r.sorted_latencies@, 50),
        r.p90_latency_ms == percentile(r.sorted_latencies@, 90),
        r.p95_latency_ms == percentile(r.sorted_latencies@, 95),
        r.p99_latency_ms == percentile(r.sorted_latencies@, 99),
        r.max_latency_ms == percentile(r.sorted_latencies@, 100),
        is_top_entries(entries_view(r.top_paths@), stats.path_counts.ordered(), top_k as nat),
        is_top_entries(entries_view(r.top_ips@), stats.ip_counts.ordered(), top_k as nat),
{
    let top_paths = top_entries(&stats.path_counts, top_k);
    let top_ips = top_entries(&stats.ip_counts, top_k);
    let mut sorted = stats.latencies;
    sort_ascending(&mut sorted);
    AnalysisReport {
        total_requests: stats.total_requests,
        total_bytes: stats.total_bytes,
        error_requests: stats.status_4xx + stats.status_5xx,
        status_2xx: stats.status_2xx,
        status_3xx: stats.status_3xx,
        status_4xx: stats.status_4xx,
        status_5xx: stats.status_5xx,
        min_latency_ms: percentile_of(&sorted, 0),
        p50_latency_ms: percentile_of(&sorted, 50),
        p90_latency_ms: percentile_of(&sorted, 90),
        p95_latency_ms: percentile_of(&sorted, 95),
        p99_latency_ms: percentile_of(&sorted, 99),
        max_latency_ms: percentile_of(&sorted, 100),
        sorted_latencies: sorted,
        top_paths,
        top_ips,
    }
}

// ---------------------------------------------------------------------------
// Laws of the report
// ---------------------------------------------------------------------------

proof fn lemma_with_count_prepend(s: Seq<(Seq<char>, u64)>, c: u64)
    requires
        s.len() > 0,
    ensures
        with_count(s, c) == if s[0].1 == c {
            seq![s[0]] + with_count(s.drop_first(), c)
        } else {
            with_count(s.drop_first(), c)
        },
{
    let f = count_is(c);
    assert(s =~= seq![s[0]] + s.drop_first());
    s.drop_first().lemma_filter_prepend(s[0], f);
    assert(with_count(s, c) == s.filter(f));
    assert(with_count(s.drop_first(), c) == s.drop_first().filter(f));
    assert(Seq::<(Seq<char>, u64)>::empty() + s.drop_first().filter(f) =~= s.drop_first().filter(
        f,
    ));
}

/// The entries of a count are entries of the sequence, with that count; an
/// entry's own count has at least that entry.
proof fn lemma_with_count_members(s: Seq<(Seq<char>, u64)>, c: u64)
    ensures
        forall|j: int|
            0 <= j < with_count(s, c).len() ==> s.contains(#[trigger] with_count(s, c)[j])
                && with_count(s, c)[j].1 == c,
        forall|i: int| 0 <= i < s.len() && s[i].1 == c ==> with_count(s, c).len() > 0,
{
    let p = count_is(c);
    assert(with_count(s, c) == s.filter(p));
    assert forall|j: int| 0 <= j < with_count(s, c).len() implies s.contains(
        #[trigger] with_count(s, c)[j],
    ) && with_count(s, c)[j].1 == c by {
        let f = s.filter(p);
        assert(f.contains(f[j]));
        s.lemma_filter_contains_rev(p, f[j]);
        s.lemma_filter_pred(p, j);
    }
    assert forall|i: int| 0 <= i < s.len() && s[i].1 == c implies with_count(s, c).len() > 0 by {
        s.lemma_filter_contains(p, i);
    }
}

/// Two sequences in descending order of counts whose entries of each count
/// agree, in order, are equal.
proof fn lemma_same_groups_equal(s1: Seq<(Seq<char>, u64)>, s2: Seq<(Seq<char>, u64)>)
    requires
        sorted_by_count_desc(s1),
        sorted_by_count_desc(s2),
        forall|c: u64| #[trigger] with_count(s1, c) == with_count(s2, c),
    ensures
        s1 == s2,
    decreases s1.len() + s2.len(),
{
    if s1.len() == 0 && s2.len() == 0 {
        assert(s1 =~= s2);
    } else if s1.len() == 0 {
        lemma_with_count_members(s2, s2[0].1);
        lemma_with_count_members(s1, s2[0].1);
        assert(with_count(s1, s2[0].1).len() == 0);
    } else if s2.len() == 0 {
        lemma_with_count_members(s1, s1[0].1);
        lemma_with_count_members(s2, s1[0].1);
        assert(with_count(s2, s1[0].1).len() == 0);
    } else {
        let a = s1[0];
        let b = s2[0];
        // a's count occurs in s2, so b's count is at least a's, and back
        lemma_with_count_members(s1, a.1);
        lemma_with_count_members(s2, a.1);
        lemma_with_count_members(s1, b.1);
        lemma_with_count_members(s2, b.1);
        assert(with_count(s2, a.1) == with_count(s1, a.1));
        let x = with_count(s2, a.1)[0];
        assert(s2.contains(x));
        let k = choose|k: int| 0 <= k < s2.len() && s2[k] == x;
        assert(s2[k].1 == a.1);
        assert(with_count(s1, b.1) == with_count(s2, b.1));
        let y = with_count(s1, b.1)[0];
        assert(s1.contains(y));
        let m = choose|m: int| 0 <= m < s1.len() && s1[m] == y;
        assert(s1[m].1 == b.1);
        assert(a.1 == b.1);
        let t1 = s1.drop_first();
        let t2 = s2.drop_first();
        lemma_with_count_prepend(s1, a.1);
        lemma_with_count_prepend(s2, a.1);
        assert(a == with_count(s1, a.1)[0]);
        assert(b == with_count(s2, a.1)[0]);
        assert forall|c: u64| #[trigger] with_count(t1, c) == with_count(t2, c) by {
            lemma_with_count_prepend(s1, c);
            lemma_with_count_prepend(s2, c);
            if c == a.1 {
                assert(with_count(t1, c) == with_count(s1, c).drop_first());
                assert(with_count(t2, c) == with_count(s2, c).drop_first());
            }
        }
        assert(sorted_by_count_desc(t1)) by {
            assert forall|i: int, j: int| 0 <= i <= j < t1.len() implies t1[i].1 >= t1[j].1 by {
                assert(t1[i] == s1[i + 1] && t1[j] == s1[j + 1]);
            }
        }
        assert(sorted_by_count_desc(t2)) by {
            assert forall|i: int, j: int| 0 <= i <= j < t2.len() implies t2[i].1 >= t2[j].1 by {
                assert(t2[i] == s2[i + 1] && t2[j] == s2[j + 1]);
            }
        }
        lemma_same_groups_equal(t1, t2);
        assert(s1 =~= seq![a] + t1);
        assert(s2 =~= seq![b] + t2);
    }
}

/// The stable sort by descending count is unique, so the top entries of a
/// count table are determined by the table: whatever two sorts give agree.
pub proof fn lemma_top_entries_unique(
    s1: Seq<(Seq<char>, u64)>,
    s2: Seq<(Seq<char>, u64)>,
    e: Seq<(Seq<char>, u64)>,
    k: nat,
)
    requires
        is_top_entries(s1, e, k),
        is_top_entries(s2, e, k),
    ensures
        s1 == s2,
{
    let a = choose|sorted: Seq<(Seq<char>, u64)>|
        is_stable_desc_sort(sorted, e) && s1 == sorted.take(
            if k <= e.len() {
                k as int
            } else {
                e.len() as int
            },
        );
    let b = choose|sorted: Seq<(Seq<char>, u64)>|
        is_stable_desc_sort(sorted, e) && s2 == sorted.take(
            if k <= e.len() {
                k as int
            } else {
                e.len() as int
            },
        );
    assert forall|c: u64| #[trigger] with_count(a, c) == with_count(b, c) by {
        assert(with_count(a, c) == with_count(e, c));
        assert(with_count(b, c) == with_count(e, c));
    }
    lemma_same_groups_equal(a, b);
}

/// Percentiles grow with the rank: for ascending values, the `p`-th
/// percentile is at most the `q`-th when `p <= q`. In particular
/// min <= p50 <= p90 <= p95 <= p99 <= max.
pub proof fn lemma_percentile_monotone(sorted: Seq<u64>, p: nat, q: nat)
    requires
        sorted_asc(sorted),
        p <= q,
    ensures
        percentile(sorted, p) <= percentile(sorted, q),
{
    if sorted.len() > 0 {
        let n = sorted.len();
        assert(n * p / 100 <= n * q / 100) by (nonlinear_arith)
            requires
                p <= q,
        ;
    }
}

/// Every kept latency lies between the minimum (percentile 0) and the maximum
/// (percentile 100) of its sorted copy, and every percentile is one of the
/// kept latencies.
pub proof fn lemma_percentile_bounds(sorted: Seq<u64>, latencies: Seq<u64>, p: nat)
    requires
        sorted_asc(sorted),
        sorted.to_multiset() == latencies.to_multiset(),
    ensures
        forall|i: int|
            0 <= i < latencies.len() ==> percentile(sorted, 0) <= #[trigger] latencies[i]
                <= percentile(sorted, 100),
        sorted.len() > 0 ==> latencies.contains(percentile(sorted, p)),
{
    broadcast use vstd::seq_lib::group_to_multiset_ensures;
    sorted.to_multiset_ensures();
    latencies.to_multiset_ensures();
    assert forall|i: int| 0 <= i < latencies.len() implies percentile(sorted, 0)
        <= #[trigger] latencies[i] <= percentile(sorted, 100) by {
        assert(latencies.contains(latencies[i]));
        assert(latencies.to_multiset().count(latencies[i]) > 0);
        assert(sorted.to_multiset().count(latencies[i]) > 0);
        assert(sorted.contains(latencies[i]));
        let j = choose|j: int| 0 <= j < sorted.len() && sorted[j] == latencies[i];
        assert(sorted.len() * 100 / 100 == sorted.len());
    }
    if sorted.len() > 0 {
        let n = sorted.len();
        let i = rank_index(n, p);
        assert(0 <= n * p / 100) by (nonlinear_arith);
        assert(sorted.contains(sorted[i]));
        assert(sorted.to_multiset().count(sorted[i]) > 0);
        assert(latencies.to_multiset().count(sorted[i]) > 0);
    }
}

// ---------------------------------------------------------------------------
// Laws of record and merge: the parallel fold/reduce over chunks of lines
// gives what counting every record in order gives.
// ---------------------------------------------------------------------------

proof fn lemma_add_counts_empty(m: Map<Seq<char>, nat>)
    ensures
        add_counts(Map::empty(), m) == m,
        add_counts(m, Map::empty()) == m,
{
    assert(add_counts(Map::empty(), m) =~= m);
    assert(add_counts(m, Map::empty()) =~= m);
}

proof fn lemma_add_counts_assoc(a: Map<Seq<char>, nat>, b: Map<Seq<char>, nat>, c: Map<Seq<char>, nat>)
    ensures
        add_counts(add_counts(a, b), c) == add_counts(a, add_counts(b, c)),
{
    assert(add_counts(add_counts(a, b), c) =~= add_counts(a, add_counts(b, c)));
}

proof fn lemma_add_counts_comm(a: Map<Seq<char>, nat>, b: Map<Seq<char>, nat>)
    ensures
        add_counts(a, b) == add_counts(b, a),
{
    assert(add_counts(a, b) =~= add_counts(b, a));
}

proof fn lemma_add_counts_bump(a: Map<Seq<char>, nat>, b: Map<Seq<char>, nat>, k: Seq<char>)
    ensures
        bump(add_counts(a, b), k, 1) == add_counts(a, bump(b, k, 1)),
{
    assert(bump(add_counts(a, b), k, 1) =~= add_counts(a, bump(b, k, 1)));
}

/// Merging with the statistics of no request changes nothing, on either side.
pub proof fn lemma_merge_identity(s: StatsView)
    ensures
        spec_merge(empty_stats(), s) == s,
        spec_merge(s, empty_stats()) == s,
{
    lemma_add_counts_empty(s.path_counts);
    lemma_add_counts_empty(s.ip_counts);
    assert(Seq::<u64>::empty() + s.latencies =~= s.latencies);
    assert(s.latencies + Seq::<u64>::empty() =~= s.latencies);
    assert(spec_merge(empty_stats(), s) =~= s);
    assert(spec_merge(s, empty_stats()) =~= s);
}

/// Merging is associative: how partial statistics are grouped before they
/// are merged does not matter.
pub proof fn lemma_merge_assoc(a: StatsView, b: StatsView, c: StatsView)
    ensures
        spec_merge(spec_merge(a, b), c) == spec_merge(a, spec_merge(b, c)),
{
    lemma_add_counts_assoc(a.path_counts, b.path_counts, c.path_counts);
    lemma_add_counts_assoc(a.ip_counts, b.ip_counts, c.ip_counts);
    assert(a.latencies + b.latencies + c.latencies =~= a.latencies + (b.latencies + c.latencies));
    assert(spec_merge(spec_merge(a, b), c) =~= spec_merge(a, spec_merge(b, c)));
}

/// Merging is commutative in every counter and count, and in the latencies
/// kept as a multiset (only their order depends on the order of merging).
pub proof fn lemma_merge_comm(a: StatsView, b: StatsView)
    ensures
        ({
            let ab = spec_merge(a, b);
            let ba = spec_merge(b, a);
            &&& ab.total_requests == ba.total_requests
            &&& ab.total_bytes == ba.total_bytes
            &&& ab.status_2xx == ba.status_2xx
            &&& ab.status_3xx == ba.status_3xx
            &&& ab.status_4xx == ba.status_4xx
            &&& ab.status_5xx == ba.status_5xx
            &&& ab.path_counts == ba.path_counts
            &&& ab.ip_counts == ba.ip_counts
            &&& ab.latencies.to_multiset() == ba.latencies.to_multiset()
        }),
{
    lemma_add_counts_comm(a.path_counts, b.path_counts);
    lemma_add_counts_comm(a.ip_counts, b.ip_counts);
    vstd::seq_lib::lemma_multiset_commutative(a.latencies, b.latencies);
    vstd::seq_lib::lemma_multiset_commutative(b.latencies, a.latencies);
    assert(spec_merge(a, b).latencies.to_multiset() =~= spec_merge(b, a).latencies.to_multiset());
}

/// Counting a record after a merge is counting it in the right-hand part.
pub proof fn lemma_record_merge(a: StatsView, b: StatsView, r: RecordView)
    ensures
        spec_record(spec_merge(a, b), r) == spec_merge(a, spec_record(b, r)),
{
    lemma_add_counts_bump(a.path_counts, b.path_counts, r.path);
    lemma_add_counts_bump(a.ip_counts, b.ip_counts, r.ip);
    assert((a.latencies + b.latencies).push(r.latency_ms) =~= a.latencies + b.latencies.push(
        r.latency_ms,
    ));
    assert(spec_record(spec_merge(a, b), r) =~= spec_merge(a, spec_record(b, r)));
}

/// The statistics of two consecutive runs of records are the merge of the
/// statistics of each run: this is what makes a fold over chunks followed by
/// a merge of the partial results equal to counting every record in order.
pub proof fn lemma_aggregate_append(xs: Seq<RecordView>, ys: Seq<RecordView>)
    ensures
        spec_aggregate(xs + ys) == spec_merge(spec_aggregate(xs), spec_aggregate(ys)),
    decreases ys.len(),
{
    if ys.len() == 0 {
        assert(xs + ys =~= xs);
        lemma_merge_identity(spec_aggregate(xs));
    } else {
        let zs = xs + ys;
        assert(zs.drop_last() =~= xs + ys.drop_last());
        assert(zs.last() == ys.last());
        lemma_aggregate_append(xs, ys.drop_last());
        lemma_record_merge(spec_aggregate(xs), spec_aggregate(ys.drop_last()), ys.last());
    }
}


/// Two statistics that agree in every counter and every per-key count and
/// keep the same latencies, up to their order.
pub open spec fn stats_equiv(a: StatsView, b: StatsView) -> bool {
    &&& a.total_requests == b.total_requests
    &&& a.total_bytes == b.total_bytes
    &&& a.status_2xx == b.status_2xx
    &&& a.status_3xx == b.status_3xx
    &&& a.status_4xx == b.status_4xx
    &&& a.status_5xx == b.status_5xx
    &&& a.path_counts == b.path_counts
    &&& a.ip_counts == b.ip_counts
    &&& a.latencies.to_multiset() == b.latencies.to_multiset()
}

proof fn lemma_record_equiv(a: StatsView, b: StatsView, r: RecordView)
    requires
        stats_equiv(a, b),
    ensures
        stats_equiv(spec_record(a, r), spec_record(b, r)),
{
    broadcast use vstd::seq_lib::group_to_multiset_ensures;
    a.latencies.to_multiset_ensures();
    b.latencies.to_multiset_ensures();
}

/// Counting a record in the left part of a merge or in the right part gives
/// the same statistics, up to the order of latencies.
proof fn lemma_record_shift(x: StatsView, y: StatsView, r: RecordView)
    ensures
        stats_equiv(spec_merge(spec_record(x, r), y), spec_merge(x, spec_record(y, r))),
{
    broadcast use vstd::seq_lib::group_to_multiset_ensures;
    let lhs = spec_merge(spec_record(x, r), y);
    let rhs = spec_merge(x, spec_record(y, r));
    assert(lhs.path_counts =~= rhs.path_counts);
    assert(lhs.ip_counts =~= rhs.ip_counts);
    if is_positive_latency(r.latency_ms) {
        let l = r.latency_ms;
        vstd::seq_lib::lemma_multiset_commutative(x.latencies.push(l), y.latencies);
        vstd::seq_lib::lemma_multiset_commutative(x.latencies, y.latencies.push(l));
        x.latencies.to_multiset_ensures();
        y.latencies.to_multiset_ensures();
        assert(lhs.latencies.to_multiset() =~= rhs.latencies.to_multiset());
    }
}

/// The order of the records does not matter: any reordering of a sequence of
/// records gives the same counters, the same counts per path and per address,
/// and the same latencies up to their order.
pub proof fn lemma_aggregate_permutation(rs: Seq<RecordView>, qs: Seq<RecordView>)
    requires
        rs.to_multiset() == qs.to_multiset(),
    ensures
        stats_equiv(spec_aggregate(rs), spec_aggregate(qs)),
    decreases rs.len(),
{
    broadcast use vstd::seq_lib::group_to_multiset_ensures;
    rs.to_multiset_ensures();
    qs.to_multiset_ensures();
    if rs.len() == 0 {
        assert(qs.len() == 0);
        assert(qs =~= rs);
    } else {
        let r = rs.last();
        let p = rs.drop_last();
        assert(rs =~= p.push(r));
        assert(rs.contains(r)) by {
            assert(rs[rs.len() - 1] == r);
        }
        assert(rs.to_multiset().count(r) > 0);
        assert(qs.contains(r));
        let j = choose|j: int| 0 <= j < qs.len() && qs[j] == r;
        let a = qs.take(j);
        let b = qs.skip(j + 1);
        let q2 = qs.remove(j);
        assert(q2 =~= a + b);
        assert(qs =~= a.push(r) + b);
        // the rest of each sequence has the same multiset
        p.to_multiset_ensures();
        assert(p.to_multiset() =~= rs.to_multiset().remove(r));
        assert(q2.to_multiset() =~= qs.to_multiset().remove(r));
        lemma_aggregate_permutation(p, q2);
        // aggregate(qs) = merge(record(aggregate(a), r), aggregate(b))
        lemma_aggregate_append(a.push(r), b);
        assert(a.push(r).drop_last() =~= a);
        // aggregate(q2) = merge(aggregate(a), aggregate(b))
        lemma_aggregate_append(a, b);
        lemma_record_merge(spec_aggregate(a), spec_aggregate(b), r);
        lemma_record_shift(spec_aggregate(a), spec_aggregate(b), r);
        lemma_record_equiv(spec_aggregate(p), spec_aggregate(q2), r);
    }
}


/// The counts of a sequence of entries, in order.
pub open spec fn counts_of(s: Seq<(Seq<char>, u64)>) -> Seq<u64> {
    s.map_values(|e: (Seq<char>, u64)| e.1)
}

/// Entries that are the same up to order have counts that are the same up to
/// order.
proof fn lemma_counts_multiset(s1: Seq<(Seq<char>, u64)>, s2: Seq<(Seq<char>, u64)>)
    requires
        s1.to_multiset() == s2.to_multiset(),
    ensures
        counts_of(s1).to_multiset() == counts_of(s2).to_multiset(),
    decreases s1.len(),
{
    broadcast use vstd::seq_lib::group_to_multiset_ensures;
    broadcast use vstd::multiset::group_multiset_axioms;
    s1.to_multiset_ensures();
    s2.to_multiset_ensures();
    if s1.len() == 0 {
        assert(counts_of(s1) =~= counts_of(s2));
    } else {
        let x = s1.last();
        let p1 = s1.drop_last();
        assert(s1 =~= p1.push(x));
        assert(s1.contains(x)) by {
            assert(s1[s1.len() - 1] == x);
        }
        assert(s1.to_multiset().count(x) > 0);
        assert(s2.contains(x));
        let j = choose|j: int| 0 <= j < s2.len() && s2[j] == x;
        let p2 = s2.remove(j);
        p1.to_multiset_ensures();
        assert(p1.to_multiset() =~= s1.to_multiset().remove(x));
        assert(p2.to_multiset() =~= s2.to_multiset().remove(x));
        lemma_counts_multiset(p1, p2);
        let c1 = counts_of(s1);
        let c2 = counts_of(s2);
        assert(c1 =~= counts_of(p1).push(x.1));
        assert(counts_of(p2) =~= c2.remove(j));
        assert(c2[j] == x.1);
        counts_of(p1).to_multiset_ensures();
        c2.to_multiset_ensures();
        assert(c2.contains(x.1)) by {
            assert(c2[j] == x.1);
        }
        assert(c1.to_multiset() =~= c2.to_multiset());
    }
}

/// Two descending sequences of integers with the same values are equal.
proof fn lemma_sorted_desc_unique(a: Seq<u64>, b: Seq<u64>)
    requires
        forall|i: int, j: int| 0 <= i <= j < a.len() ==> a[i] >= a[j],
        forall|i: int, j: int| 0 <= i <= j < b.len() ==> b[i] >= b[j],
        a.to_multiset() == b.to_multiset(),
    ensures
        a == b,
    decreases a.len(),
{
    broadcast use vstd::seq_lib::group_to_multiset_ensures;
    broadcast use vstd::multiset::group_multiset_axioms;
    a.to_multiset_ensures();
    b.to_multiset_ensures();
    if a.len() == 0 {
        assert(a =~= b);
    } else {
        assert(a.contains(a[0]));
        assert(a.to_multiset().count(a[0]) > 0);
        assert(b.contains(a[0]));
        assert(b.contains(b[0]));
        assert(b.to_multiset().count(b[0]) > 0);
        assert(a.contains(b[0]));
        assert(a[0] == b[0]);
        assert(a.remove(0) =~= a.drop_first());
        assert(b.remove(0) =~= b.drop_first());
        lemma_sorted_desc_unique(a.drop_first(), b.drop_first());
        assert(a.len() == b.len());
        assert forall|i: int| 0 <= i < a.len() implies a[i] == b[i] by {
            if i > 0 {
                assert(a[i] == a.drop_first()[i - 1]);
                assert(b[i] == b.drop_first()[i - 1]);
            }
        }
        assert(a =~= b);
    }
}

/// Two ascending sequences of integers with the same values are equal.
proof fn lemma_sorted_asc_unique(a: Seq<u64>, b: Seq<u64>)
    requires
        sorted_asc(a),
        sorted_asc(b),
        a.to_multiset() == b.to_multiset(),
    ensures
        a == b,
    decreases a.len(),
{
    broadcast use vstd::seq_lib::group_to_multiset_ensures;
    broadcast use vstd::multiset::group_multiset_axioms;
    a.to_multiset_ensures();
    b.to_multiset_ensures();
    if a.len() == 0 {
        assert(a =~= b);
    } else {
        assert(a.contains(a[0]));
        assert(a.to_multiset().count(a[0]) > 0);
        assert(b.contains(a[0]));
        assert(b.contains(b[0]));
        assert(b.to_multiset().count(b[0]) > 0);
        assert(a.contains(b[0]));
        assert(a[0] == b[0]);
        assert(a.remove(0) =~= a.drop_first());
        assert(b.remove(0) =~= b.drop_first());
        lemma_sorted_asc_unique(a.drop_first(), b.drop_first());
        assert(a.len() == b.len());
        assert forall|i: int| 0 <= i < a.len() implies a[i] == b[i] by {
            if i > 0 {
                assert(a[i] == a.drop_first()[i - 1]);
                assert(b[i] == b.drop_first()[i - 1]);
            }
        }
        assert(a =~= b);
    }
}

/// Latencies that are the same up to order sort to the same sequence, so
/// every percentile (minimum, p50, p90, p95, p99, maximum) is the same.
pub proof fn lemma_percentiles_reorder(
    sorted1: Seq<u64>,
    sorted2: Seq<u64>,
    latencies1: Seq<u64>,
    latencies2: Seq<u64>,
)
    requires
        sorted_asc(sorted1),
        sorted_asc(sorted2),
        sorted1.to_multiset() == latencies1.to_multiset(),
        sorted2.to_multiset() == latencies2.to_multiset(),
        latencies1.to_multiset() == latencies2.to_multiset(),
    ensures
        sorted1 == sorted2,
        forall|p: nat| percentile(sorted1, p) == percentile(sorted2, p),
{
    lemma_sorted_asc_unique(sorted1, sorted2);
}

/// Two count tables that hold the same counts, whatever the order of their
/// entries, have top lists with the same sequence of counts.
pub proof fn lemma_top_counts_reorder(
    s1: Seq<(Seq<char>, u64)>,
    s2: Seq<(Seq<char>, u64)>,
    t1: CountTable,
    t2: CountTable,
    k: nat,
)
    requires
        t1.wf(),
        t2.wf(),
        t1@ == t2@,
        is_top_entries(s1, t1.ordered(), k),
        is_top_entries(s2, t2.ordered(), k),
    ensures
        counts_of(s1) == counts_of(s2),
{
    broadcast use vstd::seq_lib::group_to_multiset_ensures;
    let e1 = t1.ordered();
    let e2 = t2.ordered();
    t1.lemma_same_counts_same_entries(&t2);
    e1.to_multiset_ensures();
    e2.to_multiset_ensures();
    let m = if k <= e1.len() {
        k as int
    } else {
        e1.len() as int
    };
    let a = choose|sorted: Seq<(Seq<char>, u64)>| is_stable_desc_sort(sorted, e1) && s1 == sorted.take(m);
    assert(e1.len() == e2.len());
    let b = choose|sorted: Seq<(Seq<char>, u64)>| is_stable_desc_sort(sorted, e2) && s2 == sorted.take(m);
    lemma_stable_sort_len(a, e1);
    lemma_stable_sort_len(b, e2);
    lemma_counts_multiset(a, b);
    let ca = counts_of(a);
    let cb = counts_of(b);
    assert forall|i: int, j: int| 0 <= i <= j < ca.len() implies ca[i] >= ca[j] by {}
    assert forall|i: int, j: int| 0 <= i <= j < cb.len() implies cb[i] >= cb[j] by {}
    lemma_sorted_desc_unique(ca, cb);
    assert(counts_of(s1) =~= ca.take(m));
    assert(counts_of(s2) =~= cb.take(m));
}


// ---------------------------------------------------------------------------
// Laws of single operations, stated by what they do
// ---------------------------------------------------------------------------

/// Which percentile is which element: among `n` sorted values, the `pct`-th
/// percentile is the element at the position `j` with
/// `j * 100 <= n * pct < (j + 1) * 100`; percentile 100 is the last element;
/// the median (percentile 50) of an odd number `2m + 1` of values is the
/// middle one, at position `m`, and of an even number `2m` the one at `m`.
pub proof fn lemma_percentile_position(sorted: Seq<u64>, pct: nat, j: int)
    requires
        sorted.len() > 0,
    ensures
        0 <= j < sorted.len() && j * 100 <= sorted.len() * pct < (j + 1) * 100 ==> percentile(
            sorted,
            pct,
        ) == sorted[j],
        pct >= 100 ==> percentile(sorted, pct) == sorted[sorted.len() - 1],
        pct == 0 ==> percentile(sorted, pct) == sorted[0],
        forall|m: int|
            0 <= m && (sorted.len() == 2 * m + 1 || sorted.len() == 2 * m) ==> #[trigger] percentile(
                sorted,
                50,
            ) == sorted[m],
{
    let n = sorted.len();
    if 0 <= j < n && j * 100 <= n * pct < (j + 1) * 100 {
        assert(n * pct / 100 == j) by (nonlinear_arith)
            requires
                j * 100 <= n * pct < (j + 1) * 100,
                0 <= j,
        ;
    }
    if pct >= 100 {
        assert(n * pct / 100 >= n) by (nonlinear_arith)
            requires
                pct >= 100,
                n > 0,
        ;
    }
    assert forall|m: int|
        0 <= m && (n == 2 * m + 1 || n == 2 * m) implies #[trigger] percentile(sorted, 50)
        == sorted[m] by {
        assert(n * 50 / 100 == m) by (nonlinear_arith)
            requires
                n == 2 * m + 1 || n == 2 * m,
                0 <= m,
        ;
    }
}

/// Counting a request raises exactly the counter of its status class: the
/// 2xx counter for a status in 200..=299, the 3xx counter for 300..=399, the
/// 4xx counter for 400..=499, the 5xx counter for 500..=599, and none for any
/// other status; the total rises by one and the bytes by the request's size.
pub proof fn lemma_record_status_classes(s: StatsView, r: RecordView)
    ensures
        ({
            let t = spec_record(s, r);
            &&& t.total_requests == s.total_requests + 1
            &&& t.total_bytes == s.total_bytes + r.bytes
            &&& t.status_2xx == s.status_2xx + if 200 <= r.status <= 299 {
                1int
            } else {
                0int
            }
            &&& t.status_3xx == s.status_3xx + if 300 <= r.status <= 399 {
                1int
            } else {
                0int
            }
            &&& t.status_4xx == s.status_4xx + if 400 <= r.status <= 499 {
                1int
            } else {
                0int
            }
            &&& t.status_5xx == s.status_5xx + if 500 <= r.status <= 599 {
                1int
            } else {
                0int
            }
            &&& t.path_counts[r.path] == count_of(s.path_counts, r.path) + 1
            &&& t.ip_counts[r.ip] == count_of(s.ip_counts, r.ip) + 1
        }),
{
}

/// Counting a request keeps its latency exactly when the latency is greater
/// than `0.0`: its bit pattern lies in `1..=0x7ff0_0000_0000_0000` (the
/// positive numbers, including those below 1 ms, and positive infinity).
/// Zero, negative numbers and NaN are not kept.
pub proof fn lemma_record_keeps_positive_latency(s: StatsView, r: RecordView)
    ensures
        1 <= r.latency_ms <= 0x7ff0_0000_0000_0000u64 ==> spec_record(s, r).latencies
            == s.latencies.push(r.latency_ms),
        !(1 <= r.latency_ms <= 0x7ff0_0000_0000_0000u64) ==> spec_record(s, r).latencies
            == s.latencies,
{
}

} // verus!
