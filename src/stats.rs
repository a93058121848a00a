use vstd::prelude::*;

verus! {

/// Timestamps are seconds since the Unix epoch, in UTC; every timestamp that a
/// calendar date can carry lies within this many seconds of the epoch.
pub const TIME_LIMIT: i64 = 10_000_000_000_000;

/// The largest span, in seconds, that a requested series may cover.
pub const SPAN_LIMIT: i64 = 1_000_000_000_000_000_000;

/// A status code that counts as "up".
pub const STATUS_OK: i16 = 200;

/// One stored probe result of a site.
#[derive(Clone, Copy, Debug, PartialEq, Eq, Structural)]
pub struct LogRecord {
    pub created_at: i64,
    pub status: i16,
}

/// One point of an uptime series: the start of a bucket and, when the bucket
/// holds probe results, the share of them that were "up", in percent.
#[derive(Clone, Copy, Debug, PartialEq, Eq, Structural)]
pub struct WebsiteStats {
    pub time: i64,
    pub uptime_pct: Option<i16>,
}

/// A probe result whose status was not "up".
#[derive(Clone, Copy, Debug, PartialEq, Eq, Structural)]
pub struct Incident {
    pub time: i64,
    pub status: i16,
}

/// `t` is a timestamp that a calendar date can carry.
pub open spec fn time_in_range(t: int) -> bool {
    -TIME_LIMIT <= t <= TIME_LIMIT
}

/// Every log carries such a timestamp.
pub open spec fn logs_in_range(logs: Seq<LogRecord>) -> bool {
    forall|i: int| 0 <= i < logs.len() ==> #[trigger] time_in_range(logs[i].created_at as int)
}

/// The start of the bucket of width `width` that holds instant `t`: `t` with
/// everything below the bucket's granularity set to zero.
pub open spec fn bucket_start(t: int, width: int) -> int {
    t - t % width
}

/// Number of the logs that fall into the bucket starting at `k`.
pub open spec fn total_in(logs: Seq<LogRecord>, width: int, k: int) -> nat
    decreases logs.len(),
{
    if logs.len() == 0 {
        0
    } else {
        total_in(logs.drop_last(), width, k) + if bucket_start(logs.last().created_at as int, width) == k { 1nat } else { 0nat }
    }
}

/// Number of the logs with status 200 that fall into the bucket starting at `k`.
pub open spec fn up_in(logs: Seq<LogRecord>, width: int, k: int) -> nat
    decreases logs.len(),
{
    if logs.len() == 0 {
        0
    } else {
        up_in(logs.drop_last(), width, k) + if bucket_start(logs.last().created_at as int, width) == k
            && logs.last().status == STATUS_OK { 1nat } else { 0nat }
    }
}

/// Integer percentage of "up" results, truncated.
pub open spec fn percentage(up: int, total: int) -> int {
    (100 * up) / total
}

/// The point that the bucket starting at `k` yields.
pub open spec fn bucket_point(logs: Seq<LogRecord>, width: int, k: int) -> WebsiteStats {
    WebsiteStats {
        time: k as i64,
        uptime_pct: Some(percentage(up_in(logs, width, k) as int, total_in(logs, width, k) as int) as i16),
    }
}

/// The earliest bucket holding a log that starts strictly after `after`
/// (any bucket when `after` is `None`).
pub open spec fn next_bucket(logs: Seq<LogRecord>, width: int, after: Option<int>) -> Option<int>
    decreases logs.len(),
{
    if logs.len() == 0 {
        None
    } else {
        let rest = next_bucket(logs.drop_last(), width, after);
        let k = bucket_start(logs.last().created_at as int, width);
        if after is Some && k <= after->0 {
            rest
        } else {
            match rest {
                None => Some(k),
                Some(m) => Some(if k < m { k } else { m }),
            }
        }
    }
}

/// The non-empty buckets after `after`, oldest first, at most `limit` of them.
pub open spec fn first_buckets(logs: Seq<LogRecord>, width: int, limit: nat, after: Option<int>) -> Seq<WebsiteStats>
    decreases limit,
{
    if limit == 0 {
        Seq::empty()
    } else {
        match next_bucket(logs, width, after) {
            None => Seq::empty(),
            Some(k) => seq![bucket_point(logs, width, k)] + first_buckets(logs, width, (limit - 1) as nat, Some(k)),
        }
    }
}

proof fn lemma_bucket_start(t: int, width: int)
    requires
        width > 0,
    ensures
        t - width < bucket_start(t, width) <= t,
        bucket_start(t, width) % width == 0,
{
    assert(0 <= t % width < width);
    assert((t - t % width) % width == 0) by {
        vstd::arithmetic::div_mod::lemma_fundamental_div_mod(t, width);
        vstd::arithmetic::div_mod::lemma_mod_multiples_basic(t / width, width);
        assert(t - t % width == width * (t / width));
        vstd::arithmetic::mul::lemma_mul_is_commutative(width, t / width);
    }
}

proof fn lemma_up_le_total(logs: Seq<LogRecord>, width: int, k: int)
    ensures
        up_in(logs, width, k) <= total_in(logs, width, k),
    decreases logs.len(),
{
    if logs.len() > 0 {
        lemma_up_le_total(logs.drop_last(), width, k);
    }
}

proof fn lemma_next_bucket_found(logs: Seq<LogRecord>, width: int, after: Option<int>)
    requires
        logs_in_range(logs),
        0 < width <= TIME_LIMIT,
    ensures
        next_bucket(logs, width, after) matches Some(k) ==> total_in(logs, width, k) > 0
            && (after matches Some(a) ==> k > a) && -2 * TIME_LIMIT <= k <= TIME_LIMIT,
    decreases logs.len(),
{
    if logs.len() > 0 {
        assert(time_in_range(logs[logs.len() - 1].created_at as int));
        lemma_next_bucket_found(logs.drop_last(), width, after);
        lemma_bucket_start(logs.last().created_at as int, width);
        let rest = next_bucket(logs.drop_last(), width, after);
        if let Some(m) = rest {
            lemma_total_mono(logs, width, m);
        }
    }
}

proof fn lemma_total_mono(logs: Seq<LogRecord>, width: int, k: int)
    requires
        logs.len() > 0,
    ensures
        total_in(logs, width, k) >= total_in(logs.drop_last(), width, k),
{
}

/// An optional timestamp as a mathematical integer.
pub open spec fn widen(t: Option<i64>) -> Option<int> {
    match t {
        Some(v) => Some(v as int),
        None => None,
    }
}

/// Start of the bucket of width `width` that holds `t`.
pub fn truncate_to_bucket(t: i64, width: i64) -> (r: i64)
    requires
        time_in_range(t as int),
        0 < width <= TIME_LIMIT,
    ensures
        r == bucket_start(t as int, width as int),
{
    proof { lemma_bucket_start(t as int, width as int); }
    let rem = t.checked_rem_euclid(width).unwrap();
    t - rem
}


/// Counts the logs in the bucket starting at `k`: all of them, and those with status 200.
fn count_bucket(logs: &Vec<LogRecord>, width: i64, k: i64) -> (r: (usize, usize))
    requires
        logs_in_range(logs@),
        0 < width <= TIME_LIMIT,
    ensures
        r.0 == up_in(logs@, width as int, k as int),
        r.1 == total_in(logs@, width as int, k as int),
{
    let mut up: usize = 0;
    let mut total: usize = 0;
    let mut i: usize = 0;
    while i < logs.len()
        invariant
            i <= logs@.len(),
            logs_in_range(logs@),
            0 < width <= TIME_LIMIT,
                up == up_in(logs@.take(i as int), width as int, k as int),
            total == total_in(logs@.take(i as int), width as int, k as int),
            up <= total <= i,
        decreases logs@.len() - i,
    {
        let l = logs[i];
        proof {
            assert(logs@.take(i + 1).drop_last() =~= logs@.take(i as int));
            assert(time_in_range(logs@[i as int].created_at as int));
        }
        if truncate_to_bucket(l.created_at, width) == k {
            total = total + 1;
            if l.status == STATUS_OK {
                up = up + 1;
            }
        }
        i = i + 1;
    }
    proof {
        assert(logs@.take(i as int) =~= logs@);
    }
    (up, total)
}

/// The earliest bucket holding a log that starts strictly after `after`.
fn find_next_bucket(logs: &Vec<LogRecord>, width: i64, after: Option<i64>) -> (r: Option<i64>)
    requires
        logs_in_range(logs@),
        0 < width <= TIME_LIMIT,
    ensures
        r matches Some(k) ==> next_bucket(logs@, width as int, widen(after)) == Some(k as int),
        r is None ==> next_bucket(logs@, width as int, widen(after)) is None,
{
    let ghost aft = widen(after);
    let mut best: Option<i64> = None;
    let mut i: usize = 0;
    while i < logs.len()
        invariant
            i <= logs@.len(),
            logs_in_range(logs@),
            0 < width <= TIME_LIMIT,
            aft == widen(after),
            best matches Some(k) ==> next_bucket(logs@.take(i as int), width as int, aft) == Some(k as int),
            best is None ==> next_bucket(logs@.take(i as int), width as int, aft) is None,
        decreases logs@.len() - i,
    {
        proof {
            assert(logs@.take(i + 1).drop_last() =~= logs@.take(i as int));
            assert(time_in_range(logs@[i as int].created_at as int));
        }
        let k = truncate_to_bucket(logs[i].created_at, width);
        let later = match after {
            None => true,
            Some(a) => k > a,
        };
        if later {
            best = match best {
                None => Some(k),
                Some(m) => Some(if k < m { k } else { m }),
            };
        }
        i = i + 1;
    }
    proof {
        assert(logs@.take(i as int) =~= logs@);
    }
    best
}

/// Groups the logs into buckets of `width` seconds and returns the non-empty
/// buckets in ascending order of time, at most `limit` of them (the earliest
/// ones), each with the truncated percentage of its results whose status is 200.
pub fn bucket_logs(logs: &Vec<LogRecord>, width: i64, limit: usize) -> (r: Vec<WebsiteStats>)
    requires
        logs_in_range(logs@),
        0 < width <= TIME_LIMIT,
    ensures
        r@ == first_buckets(logs@, width as int, limit as nat, None),
{
    let mut r: Vec<WebsiteStats> = Vec::new();
    let mut after: Option<i64> = None;
    while r.len() < limit
        invariant
            r@.len() <= limit,
            logs_in_range(logs@),
            0 < width <= TIME_LIMIT,
            first_buckets(logs@, width as int, limit as nat, None)
                == r@ + first_buckets(logs@, width as int, (limit - r@.len()) as nat, widen(after)),
        decreases limit - r@.len(),
    {
        let next = find_next_bucket(logs, width, after);
        match next {
            None => {
                proof {
                    assert(first_buckets(logs@, width as int, (limit - r@.len()) as nat, widen(after)) =~= Seq::empty());
                    assert(r@ + Seq::<WebsiteStats>::empty() =~= r@);
                }
                return r;
            },
            Some(k) => {
                let ghost aft = widen(after);
                proof {
                    lemma_next_bucket_found(logs@, width as int, aft);
                    lemma_up_le_total(logs@, width as int, k as int);
                }
                let (up, total) = count_bucket(logs, width, k);
                let pct: u128 = (up as u128) * 100 / (total as u128);
                proof {
                    let (u, t) = (up as int, total as int);
                    assert((100 * u) / t <= 100) by (nonlinear_arith)
                        requires u <= t, t > 0;
                    assert(percentage(u, t) == pct);
                }
                let ghost old_r = r@;
                r.push(WebsiteStats { time: k, uptime_pct: Some(pct as i16) });
                after = Some(k);
                proof {
                    let rest = (limit - old_r.len()) as nat;
                    assert(first_buckets(logs@, width as int, rest, aft)
                        == seq![bucket_point(logs@, width as int, k as int)]
                            + first_buckets(logs@, width as int, (rest - 1) as nat, Some(k as int)));
                    assert(r@ =~= old_r.push(bucket_point(logs@, width as int, k as int)));
                    assert(old_r + (seq![bucket_point(logs@, width as int, k as int)]
                            + first_buckets(logs@, width as int, (rest - 1) as nat, Some(k as int)))
                        =~= r@ + first_buckets(logs@, width as int, (rest - 1) as nat, Some(k as int)));
                }
            },
        }
    }
    proof {
        assert(first_buckets(logs@, width as int, 0, widen(after)) =~= Seq::empty());
        assert(r@ + Seq::<WebsiteStats>::empty() =~= r@);
    }
    r
}

/// Times strictly increase along the series.
pub open spec fn ascending(s: Seq<WebsiteStats>) -> bool {
    forall|i: int, j: int| 0 <= i < j < s.len() ==> s[i].time < s[j].time
}

/// Times strictly decrease along the series.
pub open spec fn descending(s: Seq<WebsiteStats>) -> bool {
    forall|i: int, j: int| 0 <= i < j < s.len() ==> s[i].time > s[j].time
}

/// The start of the `i`-th bucket counted back from the one that holds `now`.
pub open spec fn synth_time(now: int, width: int, i: int) -> int {
    bucket_start(now, width) - i * width
}

/// Some point of `s` starts at `t`.
pub open spec fn has_time(s: Seq<WebsiteStats>, t: int) -> bool {
    exists|k: int| 0 <= k < s.len() && s[k].time == t
}

/// `t` is the start of one of the last `count` buckets up to `now`.
pub open spec fn is_recent_bucket(now: int, width: int, count: int, t: int) -> bool {
    exists|i: int| 0 <= i < count && t == synth_time(now, width, i)
}

/// Every point of `data` starts one of the last `count` buckets up to `now`.
pub open spec fn within_window(data: Seq<WebsiteStats>, now: int, width: int, count: int) -> bool {
    forall|d: int| 0 <= d < data.len() ==> #[trigger] is_recent_bucket(now, width, count, data[d].time as int)
}

/// The series `r` is `data` completed with "no data" points: when `data` holds
/// fewer than `splits` points, `r` holds every point of `data` and one point
/// without a percentage for each of the last `splits` buckets up to `now` that
/// `data` lacks, newest first; otherwise `r` is `data` as it stands.
pub open spec fn gap_filled(data: Seq<WebsiteStats>, splits: int, width: int, now: int, r: Seq<WebsiteStats>) -> bool {
    if data.len() >= splits {
        r == data
    } else {
        &&& descending(r)
        &&& forall|d: int| 0 <= d < data.len() ==> #[trigger] r.contains(data[d])
        &&& forall|i: int| 0 <= i < splits ==> #[trigger] has_time(r, synth_time(now, width, i))
        &&& forall|k: int| 0 <= k < r.len() ==> #[trigger] data.contains(r[k]) || (r[k].uptime_pct is None
            && is_recent_bucket(now, width, splits, r[k].time as int) && !has_time(data, r[k].time as int))
    }
}

/// Buckets are at least a second wide, no wider than any timestamp's distance
/// from the epoch, and the whole series spans no more than `SPAN_LIMIT`.
pub open spec fn span_fits(splits: int, width: int) -> bool {
    0 < width <= TIME_LIMIT && splits * width <= SPAN_LIMIT
}

proof fn lemma_synth_step(now: int, width: int, j: int)
    ensures
        synth_time(now, width, j + 1) == synth_time(now, width, j) - width,
{
    assert((j + 1) * width == j * width + width) by (nonlinear_arith);
}

proof fn lemma_synth_order(now: int, width: int, i: int, j: int)
    requires
        width > 0,
        i < j,
    ensures
        synth_time(now, width, j) < synth_time(now, width, i),
{
    assert(i * width < j * width) by (nonlinear_arith)
        requires i < j, width > 0;
}

/// Completes a series of buckets with "no data" points for each of the last
/// `splits` buckets of `number_of_seconds` up to `now` that it lacks, newest
/// first; a series that already has `splits` points is returned unchanged.
pub fn fill_data_gaps(data: Vec<WebsiteStats>, splits: usize, number_of_seconds: i64, now: i64) -> (r: Vec<WebsiteStats>)
    requires
        ascending(data@),
        time_in_range(now as int),
        span_fits(splits as int, number_of_seconds as int),
    ensures
        gap_filled(data@, splits as int, number_of_seconds as int, now as int, r@),
        data@.len() == 0 ==> r@.len() == splits && forall|k: int| 0 <= k < splits ==> #[trigger] r@[k].time == synth_time(now as int, number_of_seconds as int, k)
            && r@[k].uptime_pct is None,
        data@.len() < splits && within_window(data@, now as int, number_of_seconds as int, splits as int)
            ==> r@.len() == splits && forall|k: int| 0 <= k < splits ==> #[trigger] r@[k].time == synth_time(now as int, number_of_seconds as int, k),
{
    if data.len() >= splits {
        return data;
    }
    let width = number_of_seconds;
    let ghost w = width as int;
    let ghost n = now as int;
    let ghost sp = splits as int;
    let base = truncate_to_bucket(now, width);
    let mut r: Vec<WebsiteStats> = Vec::new();
    let mut di: usize = data.len();
    let mut j: usize = 0;
    let mut cur: i64 = base;
    proof {
        lemma_bucket_start(n, w);
        assert(0 * w == 0);
    }
    while di > 0 || j < splits
        invariant
            ascending(data@),
            time_in_range(now as int),
            span_fits(sp, w),
            w == width, n == now, sp == splits, w > 0,
            di <= data@.len(),
            j <= splits,
            base == bucket_start(n, w),
            cur == synth_time(n, w, j as int),
            -2 * TIME_LIMIT - SPAN_LIMIT <= cur <= TIME_LIMIT,
            descending(r@),
            r@.len() > 0 ==> forall|d: int| 0 <= d < di ==> data@[d].time < r@.last().time,
            r@.len() > 0 && j < splits ==> cur < r@.last().time,
            forall|d: int| di <= d < data@.len() ==> #[trigger] r@.contains(data@[d]),
            forall|i: int| 0 <= i < j ==> #[trigger] has_time(r@, synth_time(n, w, i)),
            forall|k: int| 0 <= k < r@.len() ==> #[trigger] data@.contains(r@[k]) || (r@[k].uptime_pct is None
                && is_recent_bucket(n, w, sp, r@[k].time as int) && !has_time(data@, r@[k].time as int)),
            data@.len() == 0 ==> r@.len() == j && forall|k: int| 0 <= k < j ==> #[trigger] r@[k].time == synth_time(n, w, k)
                && r@[k].uptime_pct is None,
            within_window(data@, n, w, sp) ==> r@.len() == j && forall|k: int| 0 <= k < j ==> #[trigger] r@[k].time == synth_time(n, w, k),
        decreases di + splits - j,
    {
        let ghost old_r = r@;
        let ghost old_cur = cur as int;
        let ghost old_j = j as int;
        let take_synth = j < splits && (di == 0 || cur >= data[di - 1].time);
        if take_synth {
            let same = di > 0 && cur == data[di - 1].time;
            if same {
                r.push(data[di - 1]);
                di = di - 1;
            } else {
                r.push(WebsiteStats { time: cur, uptime_pct: None });
                proof {
                    assert forall|d: int| 0 <= d < data@.len() implies data@[d].time != cur by {
                        if d < di {
                            if d < di - 1 {
                                assert(data@[d].time < data@[di - 1].time);
                            }
                        } else {
                            assert(old_r.contains(data@[d]));
                            let k = choose|k: int| 0 <= k < old_r.len() && old_r[k] == data@[d];
                            if k < old_r.len() - 1 {
                                assert(old_r[k].time > old_r.last().time);
                            }
                        }
                    }
                    assert(is_recent_bucket(n, w, sp, cur as int));
                }
            }
            proof {
                lemma_synth_step(n, w, j as int);
                assert((j + 1) * w <= sp * w) by (nonlinear_arith)
                    requires j + 1 <= sp, w > 0;
                assert(j * w >= 0) by (nonlinear_arith)
                    requires j >= 0, w > 0;
                lemma_bucket_start(n, w);
            }
            j = j + 1;
            cur = cur - width;
        } else {
            proof {
                if within_window(data@, n, w, sp) {
                    let t = data@[di - 1].time as int;
                    assert(is_recent_bucket(n, w, sp, t));
                    let i = choose|i: int| 0 <= i < sp && t == synth_time(n, w, i);
                    if i >= j {
                        if i > j {
                            lemma_synth_order(n, w, j as int, i);
                        }
                    } else {
                        assert(r@[i].time == synth_time(n, w, i));
                        if i < j - 1 {
                            lemma_synth_order(n, w, i, j - 1);
                            assert(r@[j - 1].time == synth_time(n, w, j - 1));
                        }
                        assert(data@[di - 1].time < r@.last().time);
                    }
                }
            }
            r.push(data[di - 1]);
            di = di - 1;
        }
        proof {
            let last = r@.last();
            assert(r@ =~= old_r.push(last));
            assert forall|a: int, b: int| 0 <= a < b < r@.len() implies r@[a].time > r@[b].time by {
                if b < old_r.len() {
                    assert(old_r[a].time > old_r[b].time);
                } else if a < old_r.len() - 1 {
                    assert(old_r[a].time > old_r.last().time);
                }
            }
            assert forall|d: int| di <= d < data@.len() implies #[trigger] r@.contains(data@[d]) by {
                if d == di && (!take_synth || old_cur == data@[d].time) {
                    assert(r@[r@.len() - 1] == data@[d]);
                } else {
                    assert(old_r.contains(data@[d]));
                    let k = choose|k: int| 0 <= k < old_r.len() && old_r[k] == data@[d];
                    assert(r@[k] == data@[d]);
                }
            }
            assert forall|i: int| 0 <= i < j implies #[trigger] has_time(r@, synth_time(n, w, i)) by {
                if i == old_j && take_synth {
                    assert(r@[r@.len() - 1].time == synth_time(n, w, i));
                } else {
                    assert(has_time(old_r, synth_time(n, w, i)));
                    let k = choose|k: int| 0 <= k < old_r.len() && old_r[k].time == synth_time(n, w, i);
                    assert(r@[k].time == synth_time(n, w, i));
                }
            }
            assert forall|k: int| 0 <= k < r@.len() implies #[trigger] data@.contains(r@[k]) || (r@[k].uptime_pct is None
                && is_recent_bucket(n, w, sp, r@[k].time as int) && !has_time(data@, r@[k].time as int)) by {
                if k < old_r.len() {
                    assert(r@[k] == old_r[k]);
                } else if !take_synth || r@[k].uptime_pct is Some {
                    assert(data@.contains(r@[k]));
                }
            }
            if take_synth && j < splits {
                lemma_synth_order(n, w, old_j, j as int);
            }
            if take_synth {
                assert forall|d: int| 0 <= d < di implies data@[d].time < r@.last().time by {
                    if d < di - 1 {
                        assert(data@[d].time < data@[di - 1].time);
                    }
                }
            } else {
                assert forall|d: int| 0 <= d < di implies data@[d].time < r@.last().time by {
                    assert(data@[d].time < data@[di as int].time);
                }
            }
        }
    }
    r
}

/// Every point of `first_buckets` starts after `after`, the points ascend and
/// each carries a percentage.
proof fn lemma_first_buckets_shape(logs: Seq<LogRecord>, width: int, limit: nat, after: Option<int>)
    requires
        logs_in_range(logs),
        0 < width <= TIME_LIMIT,
    ensures
        ascending(first_buckets(logs, width, limit, after)),
        forall|k: int| 0 <= k < first_buckets(logs, width, limit, after).len() ==>
            (#[trigger] first_buckets(logs, width, limit, after)[k]).uptime_pct is Some
            && (after matches Some(a) ==> first_buckets(logs, width, limit, after)[k].time > a),
    decreases limit,
{
    if limit > 0 {
        lemma_next_bucket_found(logs, width, after);
        if let Some(b) = next_bucket(logs, width, after) {
            let rest = first_buckets(logs, width, (limit - 1) as nat, Some(b));
            lemma_first_buckets_shape(logs, width, (limit - 1) as nat, Some(b));
            let s = first_buckets(logs, width, limit, after);
            assert(s == seq![bucket_point(logs, width, b)] + rest);
            assert forall|k: int| 0 <= k < s.len() implies (#[trigger] s[k]).uptime_pct is Some
                && (after matches Some(a) ==> s[k].time > a) by {
                if k > 0 {
                    assert(s[k] == rest[k - 1]);
                }
            }
            assert forall|i: int, j: int| 0 <= i < j < s.len() implies s[i].time < s[j].time by {
                assert(s[j] == rest[j - 1]);
                if i > 0 {
                    assert(s[i] == rest[i - 1]);
                }
            }
        }
    }
}

/// Some log falls into the bucket starting at `t`.
pub open spec fn is_logged_bucket(logs: Seq<LogRecord>, width: int, t: int) -> bool {
    exists|i: int| 0 <= i < logs.len() && bucket_start(logs[i].created_at as int, width) == t
}

/// Every log falls into one of the last `count` buckets up to `now`.
pub open spec fn logs_within_window(logs: Seq<LogRecord>, width: int, count: int, now: int) -> bool {
    forall|i: int| 0 <= i < logs.len() ==> #[trigger] is_recent_bucket(now, width, count, bucket_start(logs[i].created_at as int, width))
}

proof fn lemma_next_bucket_logged(logs: Seq<LogRecord>, width: int, after: Option<int>)
    ensures
        next_bucket(logs, width, after) matches Some(k) ==> is_logged_bucket(logs, width, k),
    decreases logs.len(),
{
    if logs.len() > 0 {
        lemma_next_bucket_logged(logs.drop_last(), width, after);
        if let Some(m) = next_bucket(logs.drop_last(), width, after) {
            let i = choose|i: int| 0 <= i < logs.drop_last().len() && bucket_start(logs.drop_last()[i].created_at as int, width) == m;
            assert(logs[i] == logs.drop_last()[i]);
        }
        assert(logs[logs.len() - 1] == logs.last());
    }
}

/// Each point of `first_buckets` starts a bucket that holds a log.
proof fn lemma_first_buckets_logged(logs: Seq<LogRecord>, width: int, limit: nat, after: Option<int>)
    requires
        logs_in_range(logs),
        0 < width <= TIME_LIMIT,
    ensures
        forall|k: int| 0 <= k < first_buckets(logs, width, limit, after).len() ==>
            is_logged_bucket(logs, width, (#[trigger] first_buckets(logs, width, limit, after)[k]).time as int),
    decreases limit,
{
    if limit > 0 {
        lemma_next_bucket_found(logs, width, after);
        lemma_next_bucket_logged(logs, width, after);
        if let Some(b) = next_bucket(logs, width, after) {
            let rest = first_buckets(logs, width, (limit - 1) as nat, Some(b));
            lemma_first_buckets_logged(logs, width, (limit - 1) as nat, Some(b));
            let s = first_buckets(logs, width, limit, after);
            assert(s == seq![bucket_point(logs, width, b)] + rest);
            assert forall|k: int| 0 <= k < s.len() implies is_logged_bucket(logs, width, (#[trigger] s[k]).time as int) by {
                if k > 0 {
                    assert(s[k] == rest[k - 1]);
                }
            }
        }
    }
}

proof fn lemma_first_buckets_len(logs: Seq<LogRecord>, width: int, limit: nat, after: Option<int>)
    ensures
        first_buckets(logs, width, limit, after).len() <= limit,
    decreases limit,
{
    if limit > 0 {
        if let Some(b) = next_bucket(logs, width, after) {
            lemma_first_buckets_len(logs, width, (limit - 1) as nat, Some(b));
        }
    }
}

/// The series a site with no logs gets: `count` points without a percentage,
/// the `k`-th starting `k` buckets before the bucket that holds `now`.
pub open spec fn empty_series(now: int, width: int, count: int, r: Seq<WebsiteStats>) -> bool {
    &&& r.len() == count
    &&& forall|k: int| 0 <= k < count ==> #[trigger] r[k].time == synth_time(now, width, k) && r[k].uptime_pct is None
}

/// The uptime series of a site over the trailing `bucket_count` buckets of
/// `bucket_seconds`, given all of its logs and the instant `now`.
pub open spec fn is_recent_stats(logs: Seq<LogRecord>, bucket_seconds: int, bucket_count: nat, now: int, r: Seq<WebsiteStats>) -> bool {
    gap_filled(first_buckets(logs, bucket_seconds, bucket_count, None), bucket_count as int, bucket_seconds, now, r)
}

/// Uptime series of a site from its logs: the earliest `bucket_count`
/// non-empty buckets of `bucket_seconds`, completed with "no data" points for
/// the trailing buckets up to `now` when there are fewer than `bucket_count`.
pub fn recent_stats(logs: &Vec<LogRecord>, bucket_seconds: i64, bucket_count: usize, now: i64) -> (r: Vec<WebsiteStats>)
    requires
        logs_in_range(logs@),
        time_in_range(now as int),
        span_fits(bucket_count as int, bucket_seconds as int),
    ensures
        is_recent_stats(logs@, bucket_seconds as int, bucket_count as nat, now as int, r@),
        logs@.len() == 0 ==> empty_series(now as int, bucket_seconds as int, bucket_count as int, r@),
        logs_within_window(logs@, bucket_seconds as int, bucket_count as int, now as int)
            ==> r@.len() == bucket_count,
{
    let data = bucket_logs(logs, bucket_seconds, bucket_count);
    proof {
        lemma_first_buckets_shape(logs@, bucket_seconds as int, bucket_count as nat, None);
        lemma_first_buckets_logged(logs@, bucket_seconds as int, bucket_count as nat, None);
        if logs_within_window(logs@, bucket_seconds as int, bucket_count as int, now as int) {
            assert forall|d: int| 0 <= d < data@.len() implies #[trigger] is_recent_bucket(now as int,
                bucket_seconds as int, bucket_count as int, data@[d].time as int) by {
                let i = choose|i: int| 0 <= i < logs@.len()
                    && bucket_start(logs@[i].created_at as int, bucket_seconds as int) == data@[d].time as int;
                assert(is_recent_bucket(now as int, bucket_seconds as int, bucket_count as int,
                    bucket_start(logs@[i].created_at as int, bucket_seconds as int)));
            }
            if data@.len() >= bucket_count {
                lemma_first_buckets_len(logs@, bucket_seconds as int, bucket_count as nat, None);
            }
        }
        if logs@.len() == 0 && bucket_count > 0 {
            assert(next_bucket(logs@, bucket_seconds as int, None) is None);
        }
    }
    fill_data_gaps(data, bucket_count, bucket_seconds, now)
}

/// Width of an hourly bucket, in seconds.
pub const HOUR_SECONDS: i64 = 3600;

/// Number of hourly buckets in a daily series.
pub const HOURS_PER_DAY: usize = 24;

/// The hourly uptime series of the last day.
pub fn get_daily_stats(logs: &Vec<LogRecord>, now: i64) -> (r: Vec<WebsiteStats>)
    requires
        logs_in_range(logs@),
        time_in_range(now as int),
    ensures
        is_recent_stats(logs@, HOUR_SECONDS as int, HOURS_PER_DAY as nat, now as int, r@),
        logs@.len() == 0 ==> empty_series(now as int, HOUR_SECONDS as int, HOURS_PER_DAY as int, r@),
        logs_within_window(logs@, HOUR_SECONDS as int, HOURS_PER_DAY as int, now as int) ==> r@.len() == HOURS_PER_DAY,
{
    recent_stats(logs, HOUR_SECONDS, HOURS_PER_DAY, now)
}

/// Relies on chrono's `Utc::now` and `DateTime::timestamp`: the current time in
/// whole seconds since the epoch. `Utc::now` builds its value with
/// `DateTime::from_timestamp(..).unwrap()`, so it only returns dates within
/// chrono's year range (about 262 000 years either side of year 0), whose
/// timestamps lie within `TIME_LIMIT` of the epoch.
#[verifier::external_body]
fn current_time() -> (r: i64)
    ensures
        time_in_range(r as int),
{
    chrono::Utc::now().timestamp()
}

/// The hourly uptime series of the last day, up to the current time.
pub fn get_daily_stats_now(logs: &Vec<LogRecord>) -> (r: Vec<WebsiteStats>)
    requires
        logs_in_range(logs@),
    ensures
        exists|now: int| time_in_range(now) && is_recent_stats(logs@, HOUR_SECONDS as int, HOURS_PER_DAY as nat, now, r@),
{
    let now = current_time();
    get_daily_stats(logs, now)
}

/// The incidents among `logs`: the results whose status is not 200, in order.
pub open spec fn incidents_of(logs: Seq<LogRecord>) -> Seq<Incident>
    decreases logs.len(),
{
    if logs.len() == 0 {
        Seq::empty()
    } else {
        let rest = incidents_of(logs.drop_last());
        if logs.last().status != STATUS_OK {
            rest.push(Incident { time: logs.last().created_at, status: logs.last().status })
        } else {
            rest
        }
    }
}

/// Lists the results whose status is not 200, in the order of `logs`.
pub fn incidents(logs: &Vec<LogRecord>) -> (r: Vec<Incident>)
    ensures
        r@ == incidents_of(logs@),
{
    let mut r: Vec<Incident> = Vec::new();
    let mut i: usize = 0;
    while i < logs.len()
        invariant
            i <= logs@.len(),
            r@ == incidents_of(logs@.take(i as int)),
        decreases logs@.len() - i,
    {
        proof {
            assert(logs@.take(i + 1).drop_last() =~= logs@.take(i as int));
        }
        let l = logs[i];
        if l.status != STATUS_OK {
            r.push(Incident { time: l.created_at, status: l.status });
        }
        i = i + 1;
    }
    proof {
        assert(logs@.take(i as int) =~= logs@);
    }
    r
}

/// Two series computed from the same logs at different instants carry the
/// same logged points: a point with a percentage is in one exactly when it is
/// in the other; only the "no data" points depend on the instant.
pub proof fn lemma_logged_points_stable(
    logs: Seq<LogRecord>,
    bucket_seconds: int,
    bucket_count: nat,
    now1: int,
    now2: int,
    r1: Seq<WebsiteStats>,
    r2: Seq<WebsiteStats>,
)
    requires
        logs_in_range(logs),
        0 < bucket_seconds <= TIME_LIMIT,
        is_recent_stats(logs, bucket_seconds, bucket_count, now1, r1),
        is_recent_stats(logs, bucket_seconds, bucket_count, now2, r2),
    ensures
        forall|e: WebsiteStats| e.uptime_pct is Some ==> (r1.contains(e) <==> r2.contains(e)),
{
    let data = first_buckets(logs, bucket_seconds, bucket_count, None);
    lemma_first_buckets_shape(logs, bucket_seconds, bucket_count, None);
    if data.len() < bucket_count {
        assert forall|e: WebsiteStats| e.uptime_pct is Some implies (r1.contains(e) <==> r2.contains(e)) by {
            if r1.contains(e) {
                let k = choose|k: int| 0 <= k < r1.len() && r1[k] == e;
                assert(data.contains(r1[k]));
                let d = choose|d: int| 0 <= d < data.len() && data[d] == e;
                assert(r2.contains(data[d]));
            }
            if r2.contains(e) {
                let k = choose|k: int| 0 <= k < r2.len() && r2[k] == e;
                assert(data.contains(r2[k]));
                let d = choose|d: int| 0 <= d < data.len() && data[d] == e;
                assert(r1.contains(data[d]));
            }
        }
    }
}

/// A site without logs gets one point per bucket, newest first, each starting
/// on a bucket boundary and none with a percentage.
pub proof fn lemma_empty_series_shape(now: int, width: int, count: int, r: Seq<WebsiteStats>)
    requires
        width > 0,
        empty_series(now, width, count, r),
    ensures
        r.len() == count,
        descending(r),
        forall|k: int| 0 <= k < r.len() ==> (#[trigger] r[k]).time as int % width == 0 && r[k].uptime_pct is None,
{
    assert forall|i: int, j: int| 0 <= i < j < r.len() implies r[i].time > r[j].time by {
        lemma_synth_order(now, width, i, j);
    }
    assert forall|k: int| 0 <= k < r.len() implies (#[trigger] r[k]).time as int % width == 0 by {
        lemma_bucket_start(now, width);
        let b = bucket_start(now, width);
        assert(r[k].time as int == b - k * width);
        assert((b - k * width) % width == 0) by {
            vstd::arithmetic::div_mod::lemma_mod_multiples_vanish(-k, b, width);
            assert(b - k * width == width * (-k) + b) by (nonlinear_arith);
        }
    }
}

} // verus!
