//! Gap-aware aggregation of the player-count history into fixed time
//! buckets for charting. Only active periods are ever persisted, so the
//! aggregator reconstructs the quiet ones: every bucket without samples
//! reports zero, and the summary is absent — not zero — when no sample fell
//! into the window at all.

use crate::records::{HistoryEntry, ServerHistory};
use vstd::prelude::*;

verus! {

/// The instant a RFC 3339 timestamp text denotes, as Unix seconds, if the
/// text parses.
pub uninterp spec fn rfc3339_epoch(s: Seq<char>) -> Option<i64>;

/// Relies on chrono's `DateTime::parse_from_rfc3339` and `timestamp`:
/// parsing is a function of the text alone, and `timestamp` reads the
/// parsed instant back as Unix seconds.
#[verifier::external_body]
fn parse_rfc3339_epoch(s: &str) -> (r: Option<i64>)
    ensures
        r == rfc3339_epoch(s@),
{
    match chrono::DateTime::parse_from_rfc3339(s) {
        Ok(dt) => Some(dt.timestamp()),
        Err(_) => None,
    }
}

/// One aggregated time bucket: index 0 is the most recent hour.
#[derive(Debug, Clone, PartialEq)]
pub struct AggregatedBucket {
    pub bucket_index: usize,
    pub average_player_count: usize,
}

/// Summary over the aggregated buckets; absent when no sample fell into
/// the window.
#[derive(Debug, Clone, PartialEq)]
pub struct HistorySummary {
    pub min: usize,
    pub max: usize,
    pub avg: usize,
}

/// The sample lands in bucket `h`: its timestamp parses, does not lie in
/// the future, and is `h` whole hours before `now`.
pub open spec fn in_bucket(s: ServerHistory, now: i64, h: int) -> bool {
    match rfc3339_epoch(s.recorded_at@) {
        Some(t) => t <= now && (now - t) / 3600 == h,
        None => false,
    }
}

/// Sum of the player counts of the samples in bucket `h`.
pub open spec fn bucket_sum(samples: Seq<ServerHistory>, now: i64, h: int) -> int
    decreases samples.len(),
{
    if samples.len() == 0 {
        0
    } else {
        bucket_sum(samples.drop_last(), now, h) + if in_bucket(samples.last(), now, h) {
            samples.last().player_count as int
        } else {
            0
        }
    }
}

/// Number of samples in bucket `h`.
pub open spec fn bucket_cnt(samples: Seq<ServerHistory>, now: i64, h: int) -> int
    decreases samples.len(),
{
    if samples.len() == 0 {
        0
    } else {
        bucket_cnt(samples.drop_last(), now, h) + if in_bucket(samples.last(), now, h) {
            1int
        } else {
            0int
        }
    }
}

/// The value of bucket `h`: the mean of its samples rounded toward zero,
/// and zero for a bucket without samples.
pub open spec fn bucket_value(samples: Seq<ServerHistory>, now: i64, h: int) -> int {
    if bucket_cnt(samples, now, h) == 0 {
        0
    } else {
        bucket_sum(samples, now, h) / bucket_cnt(samples, now, h)
    }
}

/// Smallest element of a non-empty integer sequence.
pub open spec fn seq_min(s: Seq<int>) -> int
    decreases s.len(),
{
    if s.len() <= 1 {
        s[0]
    } else if s.last() < seq_min(s.drop_last()) {
        s.last()
    } else {
        seq_min(s.drop_last())
    }
}

/// Largest element of a non-empty integer sequence.
pub open spec fn seq_max(s: Seq<int>) -> int
    decreases s.len(),
{
    if s.len() <= 1 {
        s[0]
    } else if s.last() > seq_max(s.drop_last()) {
        s.last()
    } else {
        seq_max(s.drop_last())
    }
}

/// Sum of an integer sequence.
pub open spec fn seq_sum(s: Seq<int>) -> int
    decreases s.len(),
{
    if s.len() == 0 {
        0
    } else {
        seq_sum(s.drop_last()) + s.last()
    }
}

/// The bucket values of an aggregation, as a sequence.
pub open spec fn bucket_values(samples: Seq<ServerHistory>, now: i64, bucket_count: int) -> Seq<
    int,
> {
    Seq::new(bucket_count as nat, |h: int| bucket_value(samples, now, h))
}

/// Aggregates history samples into `bucket_count` hourly buckets relative
/// to `now`: bucket `h` is the mean player count of the samples recorded
/// between `h` and `h + 1` whole hours ago, zero where nothing was
/// recorded; samples out of the window or with unparsable timestamps are
/// discarded. The summary reports the least, mean and largest bucket value,
/// and is absent — distinguishing no data from zero players — when not one
/// sample fell into the window.
pub fn aggregate(samples: &Vec<ServerHistory>, now: i64, bucket_count: usize) -> (r: (
    Vec<AggregatedBucket>,
    Option<HistorySummary>,
))
    ensures
        r.0@.len() == bucket_count,
        forall|h: int| 0 <= h < bucket_count ==> #[trigger] r.0@[h].bucket_index == h
            && r.0@[h].average_player_count == bucket_value(samples@, now, h),
        ({
            let has_data = exists|h: int| 0 <= h < bucket_count && bucket_cnt(samples@, now, h) > 0;
            let values = bucket_values(samples@, now, bucket_count as int);
            match r.1 {
                Some(s) => has_data && bucket_count > 0 && s.min == seq_min(values) && s.max
                    == seq_max(values) && s.avg == seq_sum(values) / (bucket_count as int),
                None => !has_data,
            }
        }),
{
    let mut buckets: Vec<AggregatedBucket> = Vec::new();
    let mut any_data = false;
    let mut h: usize = 0;
    while h < bucket_count
        invariant
            0 <= h <= bucket_count,
            buckets@.len() == h,
            forall|k: int| 0 <= k < h ==> #[trigger] buckets@[k].bucket_index == k
                && buckets@[k].average_player_count == bucket_value(samples@, now, k),
            any_data == exists|k: int| 0 <= k < h && bucket_cnt(samples@, now, k) > 0,
        decreases bucket_count - h,
    {
        let mut sum: u128 = 0;
        let mut cnt: usize = 0;
        let mut i: usize = 0;
        while i < samples.len()
            invariant
                0 <= i <= samples@.len(),
                sum == bucket_sum(samples@.take(i as int), now, h as int),
                cnt == bucket_cnt(samples@.take(i as int), now, h as int),
                cnt <= i,
                sum <= cnt as int * usize::MAX as int,
            decreases samples@.len() - i,
        {
            let s = &samples[i];
            proof {
                assert(samples@.take(i + 1).drop_last() =~= samples@.take(i as int));
                assert(samples@.take(i + 1).last() == samples@[i as int]);
            }
            match parse_rfc3339_epoch(s.recorded_at.as_str()) {
                Some(t) => {
                    if t <= now {
                        let diff: i128 = now as i128 - t as i128;
                        let hours: i128 = diff / 3600;
                        if hours == h as i128 {
                            proof {
                                assert(in_bucket(samples@[i as int], now, h as int));
                                assert(sum + s.player_count <= (cnt + 1) as int * usize::MAX as int)
                                    by (nonlinear_arith)
                                    requires
                                        sum <= cnt as int * usize::MAX as int,
                                        s.player_count <= usize::MAX,
                                ;
                            }
                            sum = sum + s.player_count as u128;
                            cnt = cnt + 1;
                        } else {
                            proof {
                                assert(!in_bucket(samples@[i as int], now, h as int));
                            }
                        }
                    } else {
                        proof {
                            assert(!in_bucket(samples@[i as int], now, h as int));
                        }
                    }
                },
                None => {
                    proof {
                        assert(!in_bucket(samples@[i as int], now, h as int));
                    }
                },
            }
            i += 1;
        }
        proof {
            assert(samples@.take(i as int) =~= samples@);
        }
        let value: usize = if cnt == 0 {
            0
        } else {
            proof {
                assert(sum / (cnt as u128) <= usize::MAX) by (nonlinear_arith)
                    requires
                        sum <= cnt as int * usize::MAX as int,
                        cnt >= 1,
                ;
            }
            (sum / (cnt as u128)) as usize
        };
        if cnt > 0 {
            any_data = true;
        }
        buckets.push(AggregatedBucket { bucket_index: h, average_player_count: value });
        h += 1;
    }
    if !any_data || bucket_count == 0 {
        return (buckets, None);
    }
    let ghost values = bucket_values(samples@, now, bucket_count as int);
    proof {
        assert(values.len() == bucket_count);
        assert(buckets@[0].bucket_index == 0);
        assert(values[0] == buckets@[0].average_player_count as int);
        assert forall|q: int| 0 <= q < bucket_count implies #[trigger] buckets@[q].average_player_count
            == bucket_value(samples@, now, q) by {
            assert(buckets@[q].bucket_index == q);
        }
    }
    proof {
        assert(values.take(1).drop_last() =~= Seq::<int>::empty());
        assert(seq_sum(Seq::<int>::empty()) == 0);
        assert(values.take(1).last() == values[0]);
        assert(seq_sum(values.take(1)) == values[0]);
        assert(seq_min(values.take(1)) == values[0]);
        assert(seq_max(values.take(1)) == values[0]);
    }
    let mut mn: usize = buckets[0].average_player_count;
    let mut mx: usize = buckets[0].average_player_count;
    let mut total: u128 = buckets[0].average_player_count as u128;
    let mut k: usize = 1;
    while k < bucket_count
        invariant
            1 <= k <= bucket_count,
            buckets@.len() == bucket_count,
            values == bucket_values(samples@, now, bucket_count as int),
            forall|j: int| 0 <= j < bucket_count ==> #[trigger] buckets@[j].average_player_count
                == bucket_value(samples@, now, j),
            mn == seq_min(values.take(k as int)),
            mx == seq_max(values.take(k as int)),
            total == seq_sum(values.take(k as int)),
            total <= k as int * usize::MAX as int,
        decreases bucket_count - k,
    {
        let v = buckets[k].average_player_count;
        proof {
            assert(values.take(k + 1).drop_last() =~= values.take(k as int));
            assert(values.take(k + 1).last() == values[k as int]);
            assert(values[k as int] == v as int);
            assert(total + v <= (k + 1) as int * usize::MAX as int) by (nonlinear_arith)
                requires
                    total <= k as int * usize::MAX as int,
                    v <= usize::MAX,
            ;
        }
        if v < mn {
            mn = v;
        }
        if v > mx {
            mx = v;
        }
        total = total + v as u128;
        k += 1;
    }
    proof {
        assert(values.take(k as int) =~= values);
        assert(total / (bucket_count as u128) <= usize::MAX) by (nonlinear_arith)
            requires
                total <= bucket_count as int * usize::MAX as int,
                bucket_count >= 1,
        ;
    }
    let avg = (total / (bucket_count as u128)) as usize;
    (buckets, Some(HistorySummary { min: mn, max: mx, avg }))
}

/// Sum of the player counts of `entries[lo..hi]`.
pub open spec fn entry_sum(entries: Seq<HistoryEntry>, lo: int, hi: int) -> int
    decreases hi - lo,
{
    if lo >= hi {
        0
    } else {
        entries[lo].player_count + entry_sum(entries, lo + 1, hi)
    }
}

/// Mean player count of `entries[lo..hi]`, rounded toward zero.
pub open spec fn chunk_avg(entries: Seq<HistoryEntry>, lo: int, hi: int) -> int {
    if lo >= hi {
        0
    } else {
        entry_sum(entries, lo, hi) / (hi - lo)
    }
}

/// Aggregates an already ordered history slice — newest first, no
/// timestamps trusted — into at most `target_buckets` buckets: the entries
/// are cut into contiguous chunks of `max(1, len / target_buckets)`
/// entries, at most `target_buckets` chunks are kept, and each bucket is
/// its chunk's mean player count, rounded toward zero.
pub fn aggregate_chunks(entries: &Vec<HistoryEntry>, target_buckets: usize) -> (r: Vec<usize>)
    requires
        target_buckets > 0,
    ensures
        ({
            let len = entries@.len() as int;
            let size = if len / (target_buckets as int) >= 1 {
                len / (target_buckets as int)
            } else {
                1
            };
            &&& r@.len() <= target_buckets
            &&& forall|q: int| 0 <= q < r@.len() ==> #[trigger] (q * size) < len
            &&& (r@.len() == target_buckets || r@.len() * size >= len)
            &&& forall|q: int| 0 <= q < r@.len() ==> #[trigger] r@[q] as int == chunk_avg(
                entries@,
                q * size,
                if q * size + size <= len {
                    q * size + size
                } else {
                    len
                },
            )
        }),
{
    let len = entries.len();
    let size_raw = len / target_buckets;
    let size: usize = if size_raw >= 1 {
        size_raw
    } else {
        1
    };
    let ghost size_s = size as int;
    let mut out: Vec<usize> = Vec::new();
    let mut lo: usize = 0;
    let mut j: usize = 0;
    while j < target_buckets && lo < len
        invariant
            0 <= j <= target_buckets,
            size >= 1,
            size_s == size as int,
            len == entries@.len(),
            lo as int == j as int * size_s || (lo == len && j as int * size_s >= len),
            lo <= len,
            out@.len() == j,
            forall|q: int| 0 <= q < j ==> #[trigger] (q * size_s) < len,
            forall|q: int| 0 <= q < j ==> #[trigger] out@[q] as int == chunk_avg(
                entries@,
                q * size_s,
                if q * size_s + size_s <= len { q * size_s + size_s } else { len as int },
            ),
        decreases target_buckets - j,
    {
        let hi = if len - lo > size {
            lo + size
        } else {
            len
        };
        proof {
            assert(lo as int == j as int * size_s);
        }
        let mut sum: u128 = 0;
        let mut i: usize = lo;
        while i < hi
            invariant
                lo <= i <= hi <= len,
                len == entries@.len(),
                sum == entry_sum(entries@, lo as int, i as int),
                sum <= (i - lo) as int * usize::MAX as int,
            decreases hi - i,
        {
            proof {
                lemma_entry_sum_snoc(entries@, lo as int, i as int);
                assert(sum + entries@[i as int].player_count <= (i + 1 - lo) as int
                    * usize::MAX as int) by (nonlinear_arith)
                    requires
                        sum <= (i - lo) as int * usize::MAX as int,
                        entries@[i as int].player_count <= usize::MAX,
                ;
            }
            sum = sum + entries[i].player_count as u128;
            i += 1;
        }
        let width = hi - lo;
        proof {
            assert(sum / (width as u128) <= usize::MAX) by (nonlinear_arith)
                requires
                    sum <= width as int * usize::MAX as int,
                    width >= 1,
            ;
        }
        let avg = (sum / (width as u128)) as usize;
        out.push(avg);
        proof {
            assert((j + 1) as int * size_s == j as int * size_s + size_s) by (nonlinear_arith);
        }
        lo = hi;
        j += 1;
    }
    proof {
        assert forall|q: int| 0 <= q < out@.len() implies #[trigger] (q * size_s) < len by {
            assert(q * size_s < len);
        }
        if j < target_buckets {
            assert(lo >= len);
            assert(j as int * size_s >= len || lo as int == j as int * size_s);
        }
    }
    out
}

proof fn lemma_entry_sum_snoc(entries: Seq<HistoryEntry>, lo: int, i: int)
    requires
        lo <= i < entries.len(),
        0 <= lo,
    ensures
        entry_sum(entries, lo, i + 1) == entry_sum(entries, lo, i) + entries[i].player_count,
    decreases i - lo,
{
    if lo < i {
        lemma_entry_sum_snoc(entries, lo + 1, i);
    } else {
        assert(entry_sum(entries, lo + 1, i + 1) == 0);
    }
}

} // verus!
