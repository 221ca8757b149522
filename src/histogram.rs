use vstd::prelude::*;
use crate::bucket::{
    Bucket, Fraction, bucket_of, bucket_fields_ok, bucket_index, frac_le, fraction_le,
    lemma_assigned_in_bucket, lemma_frac_le_transitive,
};

verus! {

/// The largest value of a `u64`, the most volume that one sample carries.
pub const MAX_SAMPLE_VOLUME: u128 = 0xffff_ffff_ffff_ffff;

/// The volume of the first `j` samples that are assigned to bucket `n`.
pub open spec fn volume_in_bucket(
    close: Seq<i64>,
    volume: Seq<u64>,
    range: int,
    bins: int,
    n: int,
    j: int,
) -> int
    decreases j,
{
    if j <= 0 {
        0
    } else {
        volume_in_bucket(close, volume, range, bins, n, j - 1) + if bucket_of(
            close[j - 1] as int,
            range,
            bins,
        ) == n {
            volume[j - 1] as int
        } else {
            0
        }
    }
}

/// One of the first `j` samples is assigned to bucket `n`.
pub open spec fn is_populated(close: Seq<i64>, range: int, bins: int, n: int, j: int) -> bool {
    exists|i: int| 0 <= i < j && #[trigger] bucket_of(close[i] as int, range, bins) == n
}

/// Some bucket of `h` has index `n`.
pub open spec fn has_index(h: Seq<Bucket>, n: int) -> bool {
    exists|k: int| 0 <= k < h.len() && #[trigger] h[k].index == n
}

/// `h` is the histogram of the first `j` samples: one record for each bucket
/// that one of them is assigned to, in ascending order of index, each holding
/// the volume of the samples assigned to it.
pub open spec fn histogram_upto(
    close: Seq<i64>,
    volume: Seq<u64>,
    range: int,
    bins: int,
    j: int,
    h: Seq<Bucket>,
) -> bool {
    &&& forall|k: int| 0 <= k < h.len() ==> bucket_fields_ok(#[trigger] h[k], range, bins)
    &&& forall|k: int|
        0 <= k < h.len() ==> (#[trigger] h[k]).volume == volume_in_bucket(
            close,
            volume,
            range,
            bins,
            h[k].index as int,
            j,
        )
    &&& forall|k: int| 0 <= k < h.len() ==> is_populated(close, range, bins, (#[trigger] h[k]).index as int, j)
    &&& forall|i: int|
        0 <= i < j && #[trigger] bucket_of(close[i] as int, range, bins) != 0 ==> has_index(
            h,
            bucket_of(close[i] as int, range, bins),
        )
    &&& forall|k1: int, k2: int| 0 <= k1 < k2 < h.len() ==> h[k1].index < h[k2].index
}

/// `h` is the histogram of the window `close`, `volume`.
pub open spec fn histogram_of(
    close: Seq<i64>,
    volume: Seq<u64>,
    range: int,
    bins: int,
    h: Seq<Bucket>,
) -> bool {
    histogram_upto(close, volume, range, bins, close.len() as int, h)
}

/// Bucket `k` of `h` is the point of control: no bucket has more volume, and
/// none of as much volume has a higher middle price (ties go to the highest
/// price, whatever the order of the buckets).
pub open spec fn is_control(h: Seq<Bucket>, k: int) -> bool {
    &&& 0 <= k < h.len()
    &&& forall|t: int| 0 <= t < h.len() ==> (#[trigger] h[t]).volume <= h[k].volume
    &&& forall|t: int|
        0 <= t < h.len() && (#[trigger] h[t]).volume == h[k].volume ==> frac_le(h[t].middle, h[k].middle)
}

proof fn lemma_volume_bound(close: Seq<i64>, volume: Seq<u64>, range: int, bins: int, n: int, j: int)
    requires
        0 <= j <= close.len(),
        j <= volume.len(),
    ensures
        0 <= volume_in_bucket(close, volume, range, bins, n, j) <= j * MAX_SAMPLE_VOLUME,
    decreases j,
{
    if j > 0 {
        lemma_volume_bound(close, volume, range, bins, n, j - 1);
    }
}

proof fn lemma_volume_unpopulated(
    close: Seq<i64>,
    volume: Seq<u64>,
    range: int,
    bins: int,
    n: int,
    j: int,
)
    requires
        0 <= j <= close.len(),
        !is_populated(close, range, bins, n, j),
    ensures
        volume_in_bucket(close, volume, range, bins, n, j) == 0,
    decreases j,
{
    if j > 0 {
        assert(bucket_of(close[j - 1] as int, range, bins) != n);
        assert(!is_populated(close, range, bins, n, j - 1)) by {
            if is_populated(close, range, bins, n, j - 1) {
                let i = choose|i: int| 0 <= i < j - 1 && #[trigger] bucket_of(close[i] as int, range, bins) == n;
                assert(bucket_of(close[i] as int, range, bins) == n);
            }
        }
        lemma_volume_unpopulated(close, volume, range, bins, n, j - 1);
    }
}

/// The first slot of `h` whose bucket index is not below `n`.
fn find_slot(h: &Vec<Bucket>, n: usize) -> (k: usize)
    ensures
        k <= h.len(),
        forall|t: int| 0 <= t < k ==> h@[t].index < n,
        k < h.len() ==> h@[k as int].index >= n,
{
    let mut k: usize = 0;
    while k < h.len() && h[k].index < n
        invariant
            k <= h.len(),
            forall|t: int| 0 <= t < k ==> h@[t].index < n,
        decreases h.len() - k,
    {
        k = k + 1;
    }
    k
}

/// The record of bucket `n`, holding `volume`.
fn new_bucket(n: usize, range: u64, bins: usize, volume: u128) -> (b: Bucket)
    requires
        1 <= n <= bins,
        n * range <= 0x7fff_ffff_ffff_ffff * bins,
    ensures
        bucket_fields_ok(b, range as int, bins as int),
        b.index == n,
        b.volume == volume,
{
    let r: u128 = range as u128;
    proof {
        assert(n * r + (n * r + r) <= 0xffff_ffff_ffff_ffff_ffff_ffff_ffff_ffff) by (nonlinear_arith)
            requires
                n * r <= 0x7fff_ffff_ffff_ffff * bins,
                bins <= 0xffff_ffff_ffff_ffff,
                r <= 0xffff_ffff_ffff_ffff,
        ;
        assert((n + 1) * r == n * r + r) by (nonlinear_arith);
        assert((2 * n + 1) * r == n * r + (n * r + r)) by (nonlinear_arith);
    }
    let lower: u128 = (n as u128) * r;
    let upper: u128 = lower + r;
    Bucket {
        index: n,
        lower: Fraction { numer: lower, denom: bins as u128 },
        upper: Fraction { numer: upper, denom: bins as u128 },
        middle: Fraction { numer: lower + upper, denom: 2 * (bins as u128) },
        volume,
    }
}

/// Adds sample `j` of the window to `h`, the histogram of the samples before it.
fn add_sample(h: &mut Vec<Bucket>, close_slice: &[i64], volume_slice: &[u64], j: usize, bins: usize, range: u64)
    requires
        close_slice@.len() == volume_slice@.len(),
        bins >= 1,
        j < close_slice@.len(),
        histogram_upto(close_slice@, volume_slice@, range as int, bins as int, j as int, old(h)@),
    ensures
        histogram_upto(close_slice@, volume_slice@, range as int, bins as int, j + 1, final(h)@),
{
    let ghost c = close_slice@;
    let ghost v = volume_slice@;
    let ghost ri = range as int;
    let ghost bi = bins as int;
    let p = close_slice[j];
    let vol = volume_slice[j];
    let ghost old_h = h@;
    let ghost nj = bucket_of(p as int, ri, bi);
    assert forall|m: int| #[trigger] volume_in_bucket(c, v, ri, bi, m, j + 1)
        == volume_in_bucket(c, v, ri, bi, m, j as int) + if nj == m { vol as int } else { 0 } by {}
    assert forall|m: int| #[trigger] is_populated(c, ri, bi, m, j as int)
        implies is_populated(c, ri, bi, m, j + 1) by {
        let i = choose|i: int| 0 <= i < j && #[trigger] bucket_of(c[i] as int, ri, bi) == m;
        assert(bucket_of(c[i] as int, ri, bi) == m);
    }
    match bucket_index(p, range, bins) {
        None => {
            assert(histogram_upto(c, v, ri, bi, j + 1, h@));
        },
        Some(n) => {
            let k = find_slot(&h, n);
            assert(is_populated(c, ri, bi, n as int, j + 1)) by {
                assert(bucket_of(c[j as int] as int, ri, bi) == n);
            }
            if k < h.len() && h[k].index == n {
                let b = h[k];
                proof {
                    lemma_volume_bound(c, v, ri, bi, n as int, j as int);
                    assert(j * MAX_SAMPLE_VOLUME + MAX_SAMPLE_VOLUME <= 0xffff_ffff_ffff_ffff_ffff_ffff_ffff_ffff) by (nonlinear_arith)
                        requires
                            j < 0x1_0000_0000_0000_0000,
                    ;
                }
                h.set(k, Bucket { volume: b.volume + vol as u128, ..b });
                assert forall|t: int| 0 <= t < h@.len() && t != k implies h@[t].index != n by {
                    if t < k {
                        assert(old_h[t].index < old_h[k as int].index);
                    } else {
                        assert(old_h[k as int].index < old_h[t].index);
                    }
                }
                assert forall|i: int|
                    0 <= i < j + 1 && #[trigger] bucket_of(c[i] as int, ri, bi) != 0 implies has_index(
                    h@,
                    bucket_of(c[i] as int, ri, bi),
                ) by {
                    if i < j {
                        let t = choose|t: int| 0 <= t < old_h.len() && #[trigger] old_h[t].index == bucket_of(c[i] as int, ri, bi);
                        assert(h@[t].index == old_h[t].index);
                    } else {
                        assert(h@[k as int].index == n);
                    }
                }
                assert(histogram_upto(c, v, ri, bi, j + 1, h@));
            } else {
                proof {
                    lemma_assigned_in_bucket(p as int, ri, bi);
                    assert(n * ri <= p * bi);
                    assert(n * ri <= 0x7fff_ffff_ffff_ffff * bi) by (nonlinear_arith)
                        requires
                            n * ri <= p * bi,
                            p <= 0x7fff_ffff_ffff_ffff,
                            bi >= 1,
                    ;
                    assert(!is_populated(c, ri, bi, n as int, j as int)) by {
                        if is_populated(c, ri, bi, n as int, j as int) {
                            let i = choose|i: int| 0 <= i < j && #[trigger] bucket_of(c[i] as int, ri, bi) == n;
                            assert(bucket_of(c[i] as int, ri, bi) == n);
                            assert(has_index(old_h, n as int));
                            let t = choose|t: int| 0 <= t < old_h.len() && #[trigger] old_h[t].index == n;
                            if t < k {
                            } else if t > k {
                                assert(old_h[k as int].index < old_h[t].index);
                            }
                        }
                    }
                    lemma_volume_unpopulated(c, v, ri, bi, n as int, j as int);
                }
                let b = new_bucket(n, range, bins, vol as u128);
                h.insert(k, b);
                proof {
                    assert(h@ == old_h.insert(k as int, b));
                    old_h.insert_ensures(k as int, b);
                    assert(h@[k as int] == b);
                    assert forall|t: int| 0 <= t < old_h.len() implies #[trigger] old_h[t].index != n by {
                        if t >= k {
                            if t > k {
                                assert(old_h[k as int].index < old_h[t].index);
                            }
                        }
                    }
                    assert forall|t: int| 0 <= t < h@.len() implies bucket_fields_ok(#[trigger] h@[t], ri, bi)
                        && h@[t].volume == volume_in_bucket(c, v, ri, bi, h@[t].index as int, j + 1)
                        && is_populated(c, ri, bi, h@[t].index as int, j + 1) by {
                        if t < k {
                            assert(h@[t] == old_h[t]);
                        } else if t > k {
                            assert(h@[t] == old_h[t - 1]);
                        }
                    }
                    assert forall|k1: int, k2: int| 0 <= k1 < k2 < h@.len() implies h@[k1].index < h@[k2].index by {
                        if k2 < k {
                            assert(h@[k1] == old_h[k1] && h@[k2] == old_h[k2]);
                        } else if k2 == k {
                            assert(h@[k1] == old_h[k1]);
                        } else if k1 < k {
                            assert(h@[k1] == old_h[k1] && h@[k2] == old_h[k2 - 1]);
                        } else if k1 == k {
                            assert(h@[k2] == old_h[k2 - 1]);
                            if k2 - 1 > k {
                                assert(old_h[k as int].index < old_h[k2 - 1].index);
                            }
                        } else {
                            assert(h@[k1] == old_h[k1 - 1] && h@[k2] == old_h[k2 - 1]);
                        }
                    }
                    assert forall|i: int|
                        0 <= i < j + 1 && #[trigger] bucket_of(c[i] as int, ri, bi) != 0 implies has_index(
                        h@,
                        bucket_of(c[i] as int, ri, bi),
                    ) by {
                        if i < j {
                            let t = choose|t: int| 0 <= t < old_h.len() && #[trigger] old_h[t].index == bucket_of(c[i] as int, ri, bi);
                            if t < k {
                                assert(h@[t] == old_h[t]);
                            } else {
                                assert(h@[t + 1] == old_h[t]);
                            }
                        } else {
                            assert(h@[k as int].index == n);
                        }
                    }
                }
            }
        },
    }
}

/// Builds the histogram of one window: each sample goes to the first bucket
/// that holds its price, on the grid of `bins` buckets of width
/// `range / bins`; buckets that no sample reaches are left out.
pub fn compute_histogram(close_slice: &[i64], volume_slice: &[u64], bins: usize, range: u64) -> (h: Vec<Bucket>)
    requires
        close_slice@.len() == volume_slice@.len(),
        bins >= 1,
    ensures
        histogram_of(close_slice@, volume_slice@, range as int, bins as int, h@),
{
    let ghost c = close_slice@;
    let ghost v = volume_slice@;
    let ghost ri = range as int;
    let ghost bi = bins as int;
    let mut h: Vec<Bucket> = Vec::new();
    let mut j: usize = 0;
    while j < close_slice.len()
        invariant
            c == close_slice@,
            v == volume_slice@,
            c.len() == v.len(),
            ri == range,
            bi == bins,
            bins >= 1,
            j <= c.len(),
            histogram_upto(c, v, ri, bi, j as int, h@),
        decreases c.len() - j,
    {
        add_sample(&mut h, close_slice, volume_slice, j, bins, range);
        j = j + 1;
    }
    h
}

/// The middle price of the bucket with the most volume; where several share
/// it, the highest of those middles. `None` for an empty histogram.
pub fn compute_point_of_control(histogram: &Vec<Bucket>) -> (r: Option<Fraction>)
    requires
        forall|k: int| 0 <= k < histogram@.len() ==> (#[trigger] histogram@[k]).middle.denom > 0,
    ensures
        histogram@.len() == 0 <==> r is None,
        r is Some ==> exists|k: int| is_control(histogram@, k) && r == Some(histogram@[k].middle),
{
    if histogram.len() == 0 {
        return None;
    }
    let mut best: usize = 0;
    let mut t: usize = 1;
    while t < histogram.len()
        invariant
            best < t <= histogram@.len(),
            forall|k: int| 0 <= k < histogram@.len() ==> (#[trigger] histogram@[k]).middle.denom > 0,
            forall|u: int| 0 <= u < t ==> (#[trigger] histogram@[u]).volume <= histogram@[best as int].volume,
            forall|u: int|
                0 <= u < t && (#[trigger] histogram@[u]).volume == histogram@[best as int].volume ==> frac_le(
                    histogram@[u].middle,
                    histogram@[best as int].middle,
                ),
        decreases histogram@.len() - t,
    {
        let cand = histogram[t];
        let top = histogram[best];
        if cand.volume > top.volume || (cand.volume == top.volume && !fraction_le(cand.middle, top.middle)) {
            proof {
                let h = histogram@;
                assert(frac_le(top.middle, cand.middle) || cand.volume > top.volume);
                assert forall|u: int| 0 <= u <= t && (#[trigger] h[u]).volume == cand.volume implies frac_le(
                    h[u].middle,
                    cand.middle,
                ) by {
                    if u < t {
                        lemma_frac_le_transitive(h[u].middle, top.middle, cand.middle);
                    }
                }
            }
            best = t;
        }
        t = t + 1;
    }
    assert(is_control(histogram@, best as int));
    Some(histogram[best].middle)
}

} // verus!
