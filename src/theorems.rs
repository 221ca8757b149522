use vstd::prelude::*;
use crate::bucket::{Bucket, Fraction, bucket_of, bucket_fields_ok, frac_le, lemma_frac_le_antisymmetric};
use crate::histogram::{volume_in_bucket, histogram_of, has_index, is_populated, is_control};
use crate::profile::{Profile, profile_ok, position_ok, control_of, price_range};

verus! {

/// The sum of the bucket volumes of `h`.
pub open spec fn bucket_total(h: Seq<Bucket>) -> int
    decreases h.len(),
{
    if h.len() == 0 {
        0
    } else {
        bucket_total(h.drop_last()) + h.last().volume
    }
}

/// The sum of `volume` over its first `j` samples.
pub open spec fn volume_total(volume: Seq<u64>, j: int) -> int
    decreases j,
{
    if j <= 0 {
        0
    } else {
        volume_total(volume, j - 1) + volume[j - 1]
    }
}

/// The volume of the first `j` samples that some bucket holds.
pub open spec fn assigned_total(close: Seq<i64>, volume: Seq<u64>, range: int, bins: int, j: int) -> int
    decreases j,
{
    if j <= 0 {
        0
    } else {
        assigned_total(close, volume, range, bins, j - 1) + if bucket_of(close[j - 1] as int, range, bins) != 0 {
            volume[j - 1] as int
        } else {
            0
        }
    }
}

/// The volume that the first `j` samples bring to the buckets named by the
/// first `m` records of `h`.
spec fn sum_at(close: Seq<i64>, volume: Seq<u64>, range: int, bins: int, h: Seq<Bucket>, m: int, j: int) -> int
    decreases m,
{
    if m <= 0 {
        0
    } else {
        sum_at(close, volume, range, bins, h, m - 1, j) + volume_in_bucket(close, volume, range, bins, h[m - 1].index as int, j)
    }
}

spec fn sorted_indices(h: Seq<Bucket>) -> bool {
    forall|k1: int, k2: int| 0 <= k1 < k2 < h.len() ==> h[k1].index < h[k2].index
}

spec fn index_before(h: Seq<Bucket>, m: int, n: int) -> bool {
    exists|k: int| 0 <= k < m && #[trigger] h[k].index == n
}

proof fn lemma_sum_empty(close: Seq<i64>, volume: Seq<u64>, range: int, bins: int, h: Seq<Bucket>, m: int)
    ensures
        sum_at(close, volume, range, bins, h, m, 0) == 0,
    decreases m,
{
    if m > 0 {
        lemma_sum_empty(close, volume, range, bins, h, m - 1);
    }
}

proof fn lemma_sum_step(close: Seq<i64>, volume: Seq<u64>, range: int, bins: int, h: Seq<Bucket>, m: int, j: int)
    requires
        0 <= m <= h.len(),
        0 <= j,
        sorted_indices(h),
    ensures
        sum_at(close, volume, range, bins, h, m, j + 1) == sum_at(close, volume, range, bins, h, m, j) + if index_before(
            h,
            m,
            bucket_of(close[j] as int, range, bins),
        ) {
            volume[j] as int
        } else {
            0
        },
    decreases m,
{
    let n0 = bucket_of(close[j] as int, range, bins);
    if m > 0 {
        lemma_sum_step(close, volume, range, bins, h, m - 1, j);
        if index_before(h, m, n0) {
            let k = choose|k: int| 0 <= k < m && #[trigger] h[k].index == n0;
            if k < m - 1 {
                assert(index_before(h, m - 1, n0));
                assert(h[k].index < h[m - 1].index);
            } else {
                assert(!index_before(h, m - 1, n0)) by {
                    if index_before(h, m - 1, n0) {
                        let k2 = choose|k2: int| 0 <= k2 < m - 1 && #[trigger] h[k2].index == n0;
                        assert(h[k2].index < h[m - 1].index);
                    }
                }
            }
        } else {
            assert(h[m - 1].index != n0);
            assert(!index_before(h, m - 1, n0)) by {
                if index_before(h, m - 1, n0) {
                    let k2 = choose|k2: int| 0 <= k2 < m - 1 && #[trigger] h[k2].index == n0;
                }
            }
        }
    }
}

proof fn lemma_sum_assigned(close: Seq<i64>, volume: Seq<u64>, range: int, bins: int, h: Seq<Bucket>, j: int)
    requires
        0 <= j <= close.len(),
        sorted_indices(h),
        forall|k: int| 0 <= k < h.len() ==> (#[trigger] h[k]).index >= 1,
        forall|i: int|
            0 <= i < j && #[trigger] bucket_of(close[i] as int, range, bins) != 0 ==> has_index(
                h,
                bucket_of(close[i] as int, range, bins),
            ),
    ensures
        sum_at(close, volume, range, bins, h, h.len() as int, j) == assigned_total(close, volume, range, bins, j),
    decreases j,
{
    if j == 0 {
        lemma_sum_empty(close, volume, range, bins, h, h.len() as int);
    } else {
        lemma_sum_assigned(close, volume, range, bins, h, j - 1);
        lemma_sum_step(close, volume, range, bins, h, h.len() as int, j - 1);
        let n0 = bucket_of(close[j - 1] as int, range, bins);
        if n0 != 0 {
            assert(has_index(h, n0));
            let k = choose|k: int| 0 <= k < h.len() && #[trigger] h[k].index == n0;
            assert(index_before(h, h.len() as int, n0));
        } else {
            assert(!index_before(h, h.len() as int, n0)) by {
                if index_before(h, h.len() as int, n0) {
                    let k = choose|k: int| 0 <= k < h.len() && #[trigger] h[k].index == n0;
                    assert(h[k].index >= 1);
                }
            }
        }
    }
}

proof fn lemma_bucket_total(close: Seq<i64>, volume: Seq<u64>, range: int, bins: int, h: Seq<Bucket>, m: int)
    requires
        0 <= m <= h.len(),
        histogram_of(close, volume, range, bins, h),
    ensures
        bucket_total(h.subrange(0, m)) == sum_at(close, volume, range, bins, h, m, close.len() as int),
    decreases m,
{
    if m > 0 {
        lemma_bucket_total(close, volume, range, bins, h, m - 1);
        assert(h.subrange(0, m).drop_last() =~= h.subrange(0, m - 1));
        assert(h[m - 1].volume == volume_in_bucket(close, volume, range, bins, h[m - 1].index as int, close.len() as int));
    }
}

proof fn lemma_assigned_is_total(close: Seq<i64>, volume: Seq<u64>, range: int, bins: int, j: int)
    requires
        0 <= j <= close.len(),
        forall|i: int| 0 <= i < j && bucket_of(close[i] as int, range, bins) == 0 ==> volume[i] == 0,
    ensures
        assigned_total(close, volume, range, bins, j) == volume_total(volume, j),
    decreases j,
{
    if j > 0 {
        lemma_assigned_is_total(close, volume, range, bins, j - 1);
    }
}

/// The buckets of a histogram together hold the volume of exactly those
/// samples of its window that fall into some bucket: none is lost, none is
/// counted twice.
pub proof fn lemma_histogram_holds_assigned_volume(
    close: Seq<i64>,
    volume: Seq<u64>,
    range: int,
    bins: int,
    h: Seq<Bucket>,
)
    requires
        close.len() == volume.len(),
        histogram_of(close, volume, range, bins, h),
    ensures
        bucket_total(h) == assigned_total(close, volume, range, bins, close.len() as int),
{
    lemma_sum_assigned(close, volume, range, bins, h, close.len() as int);
    lemma_bucket_total(close, volume, range, bins, h, h.len() as int);
    assert(h.subrange(0, h.len() as int) =~= h);
}

/// Where every sample of a window that no bucket holds carries no volume, the
/// bucket volumes of its histogram add up to the volume of the whole window.
pub proof fn lemma_partition(close: Seq<i64>, volume: Seq<u64>, range: int, bins: int, h: Seq<Bucket>)
    requires
        close.len() == volume.len(),
        histogram_of(close, volume, range, bins, h),
        forall|i: int| 0 <= i < close.len() && bucket_of(close[i] as int, range, bins) == 0 ==> volume[i] == 0,
    ensures
        bucket_total(h) == volume_total(volume, volume.len() as int),
{
    lemma_histogram_holds_assigned_volume(close, volume, range, bins, h);
    lemma_assigned_is_total(close, volume, range, bins, close.len() as int);
}

spec fn strictly_sorted(a: Seq<int>) -> bool {
    forall|k1: int, k2: int| 0 <= k1 < k2 < a.len() ==> a[k1] < a[k2]
}

proof fn lemma_sorted_eq(a: Seq<int>, b: Seq<int>)
    requires
        strictly_sorted(a),
        strictly_sorted(b),
        forall|x: int| a.contains(x) <==> b.contains(x),
    ensures
        a == b,
    decreases a.len(),
{
    if a.len() == 0 {
        if b.len() > 0 {
            assert(b.contains(b[0]));
        }
        assert(a =~= b);
    } else {
        assert(a.contains(a[0]));
        assert(b.len() > 0);
        assert(b.contains(b[0]));
        let s = choose|s: int| 0 <= s < a.len() && a[s] == b[0];
        let t = choose|t: int| 0 <= t < b.len() && b[t] == a[0];
        assert(a[0] <= a[s]);
        assert(b[0] <= b[t]);
        let a1 = a.drop_first();
        let b1 = b.drop_first();
        assert forall|x: int| a1.contains(x) implies b1.contains(x) by {
            let i = choose|i: int| 0 <= i < a1.len() && a1[i] == x;
            assert(a[i + 1] == x && a[0] < x);
            assert(b.contains(x));
            let u = choose|u: int| 0 <= u < b.len() && b[u] == x;
            assert(u != 0);
            assert(b1[u - 1] == x);
        }
        assert forall|x: int| b1.contains(x) implies a1.contains(x) by {
            let i = choose|i: int| 0 <= i < b1.len() && b1[i] == x;
            assert(b[i + 1] == x && b[0] < x);
            assert(a.contains(x));
            let u = choose|u: int| 0 <= u < a.len() && a[u] == x;
            assert(u != 0);
            assert(a1[u - 1] == x);
        }
        lemma_sorted_eq(a1, b1);
        assert(a =~= b) by {
            assert forall|i: int| 0 <= i < a.len() implies a[i] == b[i] by {
                if i > 0 {
                    assert(a[i] == a1[i - 1]);
                    assert(b[i] == b1[i - 1]);
                }
            }
        }
    }
}

spec fn indices_of(h: Seq<Bucket>) -> Seq<int> {
    h.map_values(|b: Bucket| b.index as int)
}

proof fn lemma_indices_contain(close: Seq<i64>, volume: Seq<u64>, range: int, bins: int, h1: Seq<Bucket>, h2: Seq<Bucket>, x: int)
    requires
        histogram_of(close, volume, range, bins, h1),
        histogram_of(close, volume, range, bins, h2),
        indices_of(h1).contains(x),
    ensures
        indices_of(h2).contains(x),
{
    let k = choose|k: int| 0 <= k < indices_of(h1).len() && indices_of(h1)[k] == x;
    assert(h1[k].index == x);
    assert(is_populated(close, range, bins, x, close.len() as int));
    let i = choose|i: int| 0 <= i < close.len() && #[trigger] bucket_of(close[i] as int, range, bins) == x;
    assert(h1[k].index >= 1);
    assert(has_index(h2, x));
    let t = choose|t: int| 0 <= t < h2.len() && #[trigger] h2[t].index == x;
    assert(indices_of(h2)[t] == x);
}

/// A window has one histogram: two that both meet its description are equal.
pub proof fn lemma_histogram_unique(close: Seq<i64>, volume: Seq<u64>, range: int, bins: int, h1: Seq<Bucket>, h2: Seq<Bucket>)
    requires
        histogram_of(close, volume, range, bins, h1),
        histogram_of(close, volume, range, bins, h2),
    ensures
        h1 == h2,
{
    let a = indices_of(h1);
    let b = indices_of(h2);
    assert forall|x: int| a.contains(x) <==> b.contains(x) by {
        if a.contains(x) {
            lemma_indices_contain(close, volume, range, bins, h1, h2, x);
        }
        if b.contains(x) {
            lemma_indices_contain(close, volume, range, bins, h2, h1, x);
        }
    }
    assert(strictly_sorted(a));
    assert(strictly_sorted(b));
    lemma_sorted_eq(a, b);
    assert(h1.len() == a.len() && h2.len() == b.len());
    assert forall|k: int| 0 <= k < h1.len() implies h1[k] == h2[k] by {
        assert(a[k] == b[k]);
        assert(bucket_fields_ok(h1[k], range, bins));
        assert(bucket_fields_ok(h2[k], range, bins));
    }
    assert(h1 =~= h2);
}

/// The point of control depends on which buckets a histogram holds, not on
/// their order: two histograms with the same buckets have the same one.
pub proof fn lemma_control_order_independent(h1: Seq<Bucket>, h2: Seq<Bucket>, poc1: Option<Fraction>, poc2: Option<Fraction>)
    requires
        forall|b: Bucket| h1.contains(b) <==> h2.contains(b),
        control_of(h1, poc1),
        control_of(h2, poc2),
    ensures
        poc1 == poc2,
{
    if poc1 is Some {
        let k1 = choose|k: int| is_control(h1, k) && poc1 == Some(h1[k].middle);
        assert(h1.contains(h1[k1]));
        assert(h2.len() > 0);
        let k2 = choose|k: int| is_control(h2, k) && poc2 == Some(h2[k].middle);
        assert(h2.contains(h2[k2]));
        let t1 = choose|t: int| 0 <= t < h2.len() && h2[t] == h1[k1];
        let t2 = choose|t: int| 0 <= t < h1.len() && h1[t] == h2[k2];
        assert(h1[t2].volume <= h1[k1].volume);
        assert(h2[t1].volume <= h2[k2].volume);
        assert(frac_le(h1[t2].middle, h1[k1].middle));
        assert(frac_le(h2[t1].middle, h2[k2].middle));
        lemma_frac_le_antisymmetric(h1[k1].middle, h2[k2].middle);
    } else if poc2 is Some {
        let k2 = choose|k: int| is_control(h2, k) && poc2 == Some(h2[k].middle);
        assert(h2.contains(h2[k2]));
    }
}

/// A histogram has one point of control.
pub proof fn lemma_control_unique(h: Seq<Bucket>, poc1: Option<Fraction>, poc2: Option<Fraction>)
    requires
        control_of(h, poc1),
        control_of(h, poc2),
    ensures
        poc1 == poc2,
{
    lemma_control_order_independent(h, h, poc1, poc2);
}

/// Computing a profile twice on the same inputs gives the same points of
/// control and the same histograms at every position.
pub proof fn lemma_profile_deterministic(close: Seq<i64>, volume: Seq<u64>, bins: int, window: int, p1: Profile, p2: Profile)
    requires
        profile_ok(close, volume, bins, window, p1),
        profile_ok(close, volume, bins, window, p2),
    ensures
        p1.0@ == p2.0@,
        forall|i: int|
            #![trigger p1.1@[i]]
            0 <= i < close.len() ==> (p1.1@[i] is Some) == (p2.1@[i] is Some) && (p1.1@[i] is Some
                ==> p1.1@[i]->0@ == p2.1@[i]->0@),
{
    let r = price_range(close);
    assert forall|i: int| #![trigger p1.1@[i]] #![trigger p1.0@[i]] 0 <= i < close.len() implies p1.0@[i] == p2.0@[i] && (p1.1@[i] is Some) == (p2.1@[i] is Some)
        && (p1.1@[i] is Some ==> p1.1@[i]->0@ == p2.1@[i]->0@) by {
        assert(position_ok(close, volume, bins, window, r, i, p1.0@[i], p1.1@[i]));
        assert(position_ok(close, volume, bins, window, r, i, p2.0@[i], p2.1@[i]));
        if i >= window {
            lemma_histogram_unique(
                close.subrange(i - window, i),
                volume.subrange(i - window, i),
                r,
                bins,
                p1.1@[i]->0@,
                p2.1@[i]->0@,
            );
            lemma_control_unique(p1.1@[i]->0@, p1.0@[i], p2.0@[i]);
        }
    }
    assert(p1.0@ =~= p2.0@);
}

/// Some sample of the window `close` falls into a bucket.
pub open spec fn window_has_assigned(close: Seq<i64>, range: int, bins: int) -> bool {
    exists|i: int| 0 <= i < close.len() && #[trigger] bucket_of(close[i] as int, range, bins) != 0
}

/// Before a full window both outputs are undefined; from then on every
/// histogram is defined, and so is the point of control wherever a sample of
/// the window falls into a bucket (a window with none has no point of control).
pub proof fn lemma_warm_up(close: Seq<i64>, volume: Seq<u64>, bins: int, window: int, p: Profile)
    requires
        profile_ok(close, volume, bins, window, p),
        window >= 1,
    ensures
        forall|i: int| 0 <= i < close.len() && i < window ==> p.0@[i] is None && #[trigger] p.1@[i] is None,
        forall|i: int| 0 <= i < close.len() && i >= window ==> #[trigger] p.1@[i] is Some,
        forall|i: int|
            0 <= i < close.len() && i >= window ==> (#[trigger] p.0@[i] is Some <==> window_has_assigned(
                close.subrange(i - window, i),
                price_range(close),
                bins,
            )),
{
    let r = price_range(close);
    assert forall|i: int| #![trigger p.1@[i]] #![trigger p.0@[i]] 0 <= i < close.len() implies
        (i < window ==> p.0@[i] is None && p.1@[i] is None)
        && (i >= window ==> p.1@[i] is Some && (p.0@[i] is Some <==> window_has_assigned(
            close.subrange(i - window, i),
            r,
            bins,
        ))) by {
        assert(position_ok(close, volume, bins, window, r, i, p.0@[i], p.1@[i]));
        if i >= window {
            let c = close.subrange(i - window, i);
            let h = p.1@[i]->0@;
            if window_has_assigned(c, r, bins) {
                let j = choose|j: int| 0 <= j < c.len() && #[trigger] bucket_of(c[j] as int, r, bins) != 0;
                assert(has_index(h, bucket_of(c[j] as int, r, bins)));
            }
            if h.len() > 0 {
                assert(is_populated(c, r, bins, h[0].index as int, c.len() as int));
                assert(h[0].index >= 1);
                let j = choose|j: int| 0 <= j < c.len() && #[trigger] bucket_of(c[j] as int, r, bins) == h[0].index;
                assert(bucket_of(c[j] as int, r, bins) != 0);
            }
        }
    }
}

} // verus!
