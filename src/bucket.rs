use vstd::prelude::*;

verus! {

/// The exact value `numer / denom`.
#[derive(Clone, Copy, Debug, PartialEq, Eq, Structural)]
pub struct Fraction {
    pub numer: u128,
    pub denom: u128,
}

/// `x <= y` by value, cross-multiplied; fractions of equal value by
/// numerator, then by denominator, so that any two fractions are ordered.
pub open spec fn frac_le(x: Fraction, y: Fraction) -> bool {
    ||| x.numer * y.denom < y.numer * x.denom
    ||| x.numer * y.denom == y.numer * x.denom && x.numer < y.numer
    ||| x.numer * y.denom == y.numer * x.denom && x.numer == y.numer && x.denom <= y.denom
}

/// Two fractions that are each at most the other are the same fraction.
pub proof fn lemma_frac_le_antisymmetric(x: Fraction, y: Fraction)
    requires
        frac_le(x, y),
        frac_le(y, x),
    ensures
        x == y,
{
}

/// The order of fractions with positive denominators is transitive.
pub proof fn lemma_frac_le_transitive(x: Fraction, y: Fraction, z: Fraction)
    requires
        x.denom > 0,
        y.denom > 0,
        z.denom > 0,
        frac_le(x, y),
        frac_le(y, z),
    ensures
        frac_le(x, z),
{
    let (a, b, c, d, e, f) = (x.numer as int, x.denom as int, y.numer as int, y.denom as int, z.numer as int, z.denom as int);
    assert(a * d <= c * b && c * f <= e * d);
    assert(a * f * d <= e * b * d) by (nonlinear_arith)
        requires
            a * d <= c * b,
            c * f <= e * d,
            b > 0,
            d > 0,
            f > 0,
    ;
    assert(a * f <= e * b) by (nonlinear_arith)
        requires
            a * f * d <= e * b * d,
            d > 0,
    ;
    if a * f == e * b {
        assert(a * d == c * b && c * f == e * d) by (nonlinear_arith)
            requires
                a * f == e * b,
                a * d <= c * b,
                c * f <= e * d,
                b > 0,
                d > 0,
                f > 0,
        ;
    }
}

/// `a * b` as a high and a low 128-bit half.
fn mul_wide(a: u128, b: u128) -> (r: (u128, u128))
    ensures
        r.0 * 0x1_0000_0000_0000_0000_0000_0000_0000_0000 + r.1 == a * b,
{
    let w: u128 = 0x1_0000_0000_0000_0000;
    let (a1, a0) = (a / w, a % w);
    let (b1, b0) = (b / w, b % w);
    assert(a1 < w && a0 < w && b1 < w && b0 < w);
    assert(a0 * b0 < w * w && a0 * b1 < w * w && a1 * b0 < w * w && a1 * b1 < w * w) by (nonlinear_arith)
        requires
            a1 < w,
            a0 < w,
            b1 < w,
            b0 < w,
            w == 0x1_0000_0000_0000_0000u128,
    ;
    let p00 = a0 * b0;
    let p01 = a0 * b1;
    let p10 = a1 * b0;
    let p11 = a1 * b1;
    assert(a * b == p11 * (w * w) + (p01 + p10) * w + p00) by (nonlinear_arith)
        requires
            a == a1 * w + a0,
            b == b1 * w + b0,
            p00 == a0 * b0,
            p01 == a0 * b1,
            p10 == a1 * b0,
            p11 == a1 * b1,
    ;
    let mid = p00 / w + p01 % w + p10 % w;
    let lo = (mid % w) * w + p00 % w;
    assert(a * b < w * w * (w * w)) by (nonlinear_arith)
        requires
            a < w * w,
            b < w * w,
            w == 0x1_0000_0000_0000_0000u128,
    ;
    assert(p11 + p01 / w + p10 / w + mid / w < w * w) by (nonlinear_arith)
        requires
            a * b == p11 * (w * w) + (p01 + p10) * w + p00,
            a * b < w * w * (w * w),
            p01 == (p01 / w) * w + p01 % w,
            p10 == (p10 / w) * w + p10 % w,
            p00 == (p00 / w) * w + p00 % w,
            mid == p00 / w + p01 % w + p10 % w,
            mid == (mid / w) * w + mid % w,
            0 <= p00 % w,
            0 <= mid % w,
            w > 0,
    ;
    let hi = p11 + p01 / w + p10 / w + mid / w;
    assert(hi * (w * w) + lo == a * b);
    (hi, lo)
}

/// Whether `x <= y` in the order of `frac_le`.
pub fn fraction_le(x: Fraction, y: Fraction) -> (r: bool)
    ensures
        r == frac_le(x, y),
{
    let (h1, l1) = mul_wide(x.numer, y.denom);
    let (h2, l2) = mul_wide(y.numer, x.denom);
    if h1 < h2 || (h1 == h2 && l1 < l2) {
        true
    } else if h1 == h2 && l1 == l2 {
        x.numer < y.numer || (x.numer == y.numer && x.denom <= y.denom)
    } else {
        false
    }
}

/// One populated price bucket of a histogram.
///
/// With `w = range / bins` the bucket of index `n` covers prices from
/// `n * w` to `(n + 1) * w`; `middle` lies halfway between them and `volume`
/// is the volume of the samples that fell into it.
#[derive(Clone, Copy, Debug, PartialEq, Eq, Structural)]
pub struct Bucket {
    pub index: usize,
    pub lower: Fraction,
    pub upper: Fraction,
    pub middle: Fraction,
    pub volume: u128,
}

/// Price `p` lies in bucket `n` of the grid with `bins` buckets of width
/// `range / bins`: `n * w <= p < (n + 1) * w`, where the last bucket is also
/// closed above. Both sides are multiplied by `bins`, so this is exact.
pub open spec fn in_bucket(p: int, n: int, range: int, bins: int) -> bool {
    &&& n * range <= p * bins
    &&& if n == bins {
        p * bins <= (n + 1) * range
    } else {
        p * bins < (n + 1) * range
    }
}

/// The first bucket from `n` up to `bins` that holds `p`, or 0 if none does.
pub open spec fn scan_buckets(p: int, n: int, range: int, bins: int) -> int
    decreases bins + 1 - n,
{
    if n < 1 || n > bins {
        0
    } else if in_bucket(p, n, range, bins) {
        n
    } else {
        scan_buckets(p, n + 1, range, bins)
    }
}

/// The bucket that a sample of price `p` is assigned to: the first one, in
/// ascending order, that holds it; 0 when no bucket holds it.
pub open spec fn bucket_of(p: int, range: int, bins: int) -> int {
    scan_buckets(p, 1, range, bins)
}

/// `b` carries the bounds and middle of its own index on the grid of `bins`
/// buckets over `range`.
pub open spec fn bucket_fields_ok(b: Bucket, range: int, bins: int) -> bool {
    &&& 1 <= b.index <= bins
    &&& b.lower.numer == b.index * range
    &&& b.lower.denom == bins
    &&& b.upper.numer == (b.index + 1) * range
    &&& b.upper.denom == bins
    &&& b.middle.numer == (2 * b.index + 1) * range
    &&& b.middle.denom == 2 * bins
}

proof fn lemma_scan_finds(p: int, k: int, n: int, range: int, bins: int)
    requires
        1 <= k <= n <= bins,
        in_bucket(p, n, range, bins),
        forall|m: int| k <= m < n ==> !in_bucket(p, m, range, bins),
    ensures
        scan_buckets(p, k, range, bins) == n,
    decreases n - k,
{
    if k < n {
        lemma_scan_finds(p, k + 1, n, range, bins);
    }
}

proof fn lemma_scan_none(p: int, k: int, range: int, bins: int)
    requires
        1 <= k,
        forall|m: int| k <= m <= bins ==> !in_bucket(p, m, range, bins),
    ensures
        scan_buckets(p, k, range, bins) == 0,
    decreases bins + 1 - k,
{
    if k <= bins {
        lemma_scan_none(p, k + 1, range, bins);
    }
}

proof fn lemma_scan_result(p: int, k: int, range: int, bins: int)
    requires
        1 <= k,
    ensures
        scan_buckets(p, k, range, bins) == 0 || (k <= scan_buckets(p, k, range, bins) <= bins
            && in_bucket(p, scan_buckets(p, k, range, bins), range, bins)),
        scan_buckets(p, k, range, bins) == 0 ==> forall|m: int|
            k <= m <= bins ==> !in_bucket(p, m, range, bins),
    decreases bins + 1 - k,
{
    if k <= bins && !in_bucket(p, k, range, bins) {
        lemma_scan_result(p, k + 1, range, bins);
    }
}

/// A sample that is assigned to a bucket lies in it.
pub proof fn lemma_assigned_in_bucket(p: int, range: int, bins: int)
    ensures
        bucket_of(p, range, bins) == 0 || (1 <= bucket_of(p, range, bins) <= bins
            && in_bucket(p, bucket_of(p, range, bins), range, bins)),
{
    lemma_scan_result(p, 1, range, bins);
}

/// No price lies in two different buckets.
pub proof fn lemma_bucket_unique(p: int, n: int, m: int, range: int, bins: int)
    requires
        1 <= n <= bins,
        1 <= m <= bins,
        range >= 0,
        in_bucket(p, n, range, bins),
        in_bucket(p, m, range, bins),
    ensures
        n == m,
{
    if n < m {
        assert((n + 1) * range <= m * range) by (nonlinear_arith)
            requires
                n + 1 <= m,
                range >= 0,
        ;
    } else if m < n {
        assert((m + 1) * range <= n * range) by (nonlinear_arith)
            requires
                m + 1 <= n,
                range >= 0,
        ;
    }
}

/// Every price that lies between the lower bound of the first bucket and the
/// upper bound of the last one falls into exactly one bucket, and is assigned
/// to it.
pub proof fn lemma_bucket_coverage(p: int, range: int, bins: int)
    requires
        bins >= 1,
        range >= 0,
        range <= p * bins <= (bins + 1) * range,
    ensures
        1 <= bucket_of(p, range, bins) <= bins,
        in_bucket(p, bucket_of(p, range, bins), range, bins),
        forall|n: int| 1 <= n <= bins && #[trigger] in_bucket(p, n, range, bins) ==> n == bucket_of(p, range, bins),
{
    assert(bins * range <= p * bins || p * bins < bins * range);
    if bins * range <= p * bins {
        assert(in_bucket(p, bins, range, bins));
    } else {
        let q = p * bins / range;
        assert(range > 0) by (nonlinear_arith)
            requires
                p * bins < bins * range,
                range <= p * bins,
                bins >= 1,
        ;
        assert(q * range <= p * bins < (q + 1) * range) by (nonlinear_arith)
            requires
                q == p * bins / range,
                range > 0,
        ;
        assert(1 <= q < bins) by (nonlinear_arith)
            requires
                q * range <= p * bins < (q + 1) * range,
                range <= p * bins < bins * range,
                range > 0,
        ;
        assert(in_bucket(p, q, range, bins));
    }
    lemma_scan_result(p, 1, range, bins);
    assert forall|n: int| 1 <= n <= bins && #[trigger] in_bucket(p, n, range, bins) implies n == bucket_of(p, range, bins) by {
        lemma_bucket_unique(p, n, bucket_of(p, range, bins), range, bins);
    }
}

/// The bucket that a sample of price `price` is assigned to, on the grid of
/// `bins` buckets of width `range / bins`; `None` when no bucket holds it.
pub fn bucket_index(price: i64, range: u64, bins: usize) -> (r: Option<usize>)
    requires
        bins >= 1,
    ensures
        match r {
            Some(n) => n == bucket_of(price as int, range as int, bins as int) && n >= 1,
            None => bucket_of(price as int, range as int, bins as int) == 0,
        },
{
    let ghost p = price as int;
    let ghost ri = range as int;
    let ghost bi = bins as int;
    if price < 0 {
        proof {
            assert forall|m: int| 1 <= m <= bi implies !in_bucket(p, m, ri, bi) by {
                assert(p * bi < 0 <= m * ri) by (nonlinear_arith)
                    requires
                        p < 0,
                        bi >= 1,
                        m >= 1,
                        ri >= 0,
                ;
            }
            lemma_scan_none(p, 1, ri, bi);
        }
        return None;
    }
    assert((price as u128) * (bins as u128) < 0x8000_0000_0000_0000_0000_0000_0000_0000) by (nonlinear_arith)
        requires
            0 <= price as u128 <= 0x7fff_ffff_ffff_ffff,
            bins as u128 <= 0xffff_ffff_ffff_ffff,
    ;
    let pb: u128 = (price as u128) * (bins as u128);
    assert(pb == p * bi);
    if range == 0 {
        proof {
            assert forall|m: int| 1 <= m < bi implies !in_bucket(p, m, ri, bi) by {}
        }
        if pb == 0 {
            proof {
                assert(in_bucket(p, bi, ri, bi));
                lemma_scan_finds(p, 1, bi, ri, bi);
            }
            return Some(bins);
        } else {
            proof {
                lemma_scan_none(p, 1, ri, bi);
            }
            return None;
        }
    }
    let r128: u128 = range as u128;
    let q: u128 = pb / r128;
    proof {
        assert(q * ri <= p * bi < (q + 1) * ri) by (nonlinear_arith)
            requires
                q == p * bi / ri,
                ri > 0,
        ;
    }
    if q == 0 {
        proof {
            assert(p * bi < ri) by (nonlinear_arith)
                requires
                    p * bi < (q + 1) * ri,
                    q == 0,
            ;
            assert forall|m: int| 1 <= m <= bi implies !in_bucket(p, m, ri, bi) by {
                assert(p * bi < m * ri) by (nonlinear_arith)
                    requires
                        p * bi < ri,
                        m >= 1,
                        ri > 0,
                ;
            }
            lemma_scan_none(p, 1, ri, bi);
        }
        None
    } else if q < bins as u128 {
        proof {
            let qi = q as int;
            assert forall|m: int| 1 <= m < qi implies !in_bucket(p, m, ri, bi) by {
                assert((m + 1) * ri <= qi * ri) by (nonlinear_arith)
                    requires
                        m + 1 <= qi,
                        ri > 0,
                ;
            }
            assert(in_bucket(p, qi, ri, bi));
            lemma_scan_finds(p, 1, qi, ri, bi);
        }
        Some(q as usize)
    } else {
        proof {
            let qi = q as int;
            assert forall|m: int| 1 <= m < bi implies !in_bucket(p, m, ri, bi) by {
                assert((m + 1) * ri <= qi * ri) by (nonlinear_arith)
                    requires
                        m + 1 <= bi,
                        bi <= qi,
                        ri > 0,
                ;
            }
            assert(bi * ri <= p * bi) by (nonlinear_arith)
                requires
                    bi <= qi,
                    qi * ri <= p * bi,
                    ri > 0,
            ;
        }
        assert((bins as u128 + 1) * r128 <= 0xffff_ffff_ffff_ffff_ffff_ffff_ffff_ffff) by (nonlinear_arith)
            requires
                bins as u128 + 1 <= 0x1_0000_0000_0000_0000,
                r128 <= 0xffff_ffff_ffff_ffff,
        ;
        let top: u128 = (bins as u128 + 1) * r128;
        if pb <= top {
            proof {
                assert(in_bucket(p, bi, ri, bi));
                lemma_scan_finds(p, 1, bi, ri, bi);
            }
            Some(bins)
        } else {
            proof {
                lemma_scan_none(p, 1, ri, bi);
            }
            None
        }
    }
}

} // verus!
