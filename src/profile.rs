use vstd::prelude::*;
use rayon::iter::{IntoParallelIterator, ParallelIterator};
use crate::bucket::{Bucket, Fraction};
use crate::histogram::{compute_histogram, compute_point_of_control, histogram_of, is_control};

verus! {

/// Why a profile cannot be computed from the given inputs.
#[derive(Clone, Copy, Debug, PartialEq, Eq, Structural)]
pub enum ProfileError {
    /// The bucket count is zero.
    InvalidBins { bins: usize },
    /// The window is empty or longer than the series.
    InvalidWindow { window: usize, len: usize },
    /// The price and volume series differ in length.
    LengthMismatch { close_len: usize, volume_len: usize },
}

/// Per position of the series: the point of control and the histogram, both
/// `None` where the position has too little history.
pub type Profile = (Vec<Option<Fraction>>, Vec<Option<Vec<Bucket>>>);

/// `x` is the lowest price of `s`.
pub open spec fn is_lowest(s: Seq<i64>, x: int) -> bool {
    &&& exists|i: int| 0 <= i < s.len() && s[i] == x
    &&& forall|i: int| 0 <= i < s.len() ==> x <= #[trigger] s[i]
}

/// `x` is the highest price of `s`.
pub open spec fn is_highest(s: Seq<i64>, x: int) -> bool {
    &&& exists|i: int| 0 <= i < s.len() && s[i] == x
    &&& forall|i: int| 0 <= i < s.len() ==> #[trigger] s[i] <= x
}

/// The spread between the highest and the lowest price of the whole series;
/// the bucket width is this spread divided by the bucket count.
pub open spec fn price_range(s: Seq<i64>) -> int {
    (choose|x: int| is_highest(s, x)) - (choose|x: int| is_lowest(s, x))
}

/// `poc` is the point of control of histogram `h`.
pub open spec fn control_of(h: Seq<Bucket>, poc: Option<Fraction>) -> bool {
    &&& h.len() == 0 <==> poc is None
    &&& poc is Some ==> exists|k: int| is_control(h, k) && poc == Some(h[k].middle)
}

/// Position `i` of a profile: nothing before a full window; from then on the
/// histogram of the `window` samples before `i` and its point of control.
pub open spec fn position_ok(
    close: Seq<i64>,
    volume: Seq<u64>,
    bins: int,
    window: int,
    range: int,
    i: int,
    poc: Option<Fraction>,
    hist: Option<Vec<Bucket>>,
) -> bool {
    if i < window {
        poc is None && hist is None
    } else {
        &&& hist is Some
        &&& histogram_of(
            close.subrange(i - window, i),
            volume.subrange(i - window, i),
            range,
            bins,
            hist->0@,
        )
        &&& control_of(hist->0@, poc)
    }
}

/// `p` is the volume profile of the series for `bins` buckets and `window`.
pub open spec fn profile_ok(close: Seq<i64>, volume: Seq<u64>, bins: int, window: int, p: Profile) -> bool {
    &&& p.0@.len() == close.len()
    &&& p.1@.len() == close.len()
    &&& forall|i: int|
        0 <= i < close.len() ==> #[trigger] position_ok(
            close,
            volume,
            bins,
            window,
            price_range(close),
            i,
            p.0@[i],
            p.1@[i],
        )
}

/// The inputs on which a profile is computed.
pub open spec fn inputs_valid(close: Seq<i64>, volume: Seq<u64>, bins: int, window: int) -> bool {
    &&& bins >= 1
    &&& window >= 1
    &&& close.len() == volume.len()
    &&& window <= close.len()
}

/// The point of control and the histogram at position `i`.
pub fn profile_at(
    close: &Vec<i64>,
    volume: &Vec<u64>,
    bins: usize,
    range: u64,
    window: usize,
    i: usize,
) -> (r: (Option<Fraction>, Option<Vec<Bucket>>))
    requires
        close@.len() == volume@.len(),
        bins >= 1,
        i < close@.len(),
    ensures
        position_ok(close@, volume@, bins as int, window as int, range as int, i as int, r.0, r.1),
{
    if i < window {
        (None, None)
    } else {
        let histogram = compute_histogram(&close[i - window..i], &volume[i - window..i], bins, range);
        let poc = compute_point_of_control(&histogram);
        (poc, Some(histogram))
    }
}

/// Relies on rayon's `into_par_iter` on `Range<usize>`, `map` and `collect`
/// into a pair of `Vec`s (an ordered unzip): the closure runs once for each
/// position `i` of the series, and its result lands at index `i` of both
/// vectors. The closure calls `profile_at` alone, whose contract is verified.
#[verifier::external_body]
fn scan_positions(close: &Vec<i64>, volume: &Vec<u64>, bins: usize, range: u64, window: usize) -> (r: Profile)
    requires
        close@.len() == volume@.len(),
        bins >= 1,
    ensures
        r.0@.len() == close@.len(),
        r.1@.len() == close@.len(),
        forall|i: int|
            0 <= i < close@.len() ==> position_ok(
                close@,
                volume@,
                bins as int,
                window as int,
                range as int,
                i,
                r.0@[i],
                r.1@[i],
            ),
{
    (0..close.len()).into_par_iter().map(|i| profile_at(close, volume, bins, range, window, i)).collect()
}

/// Computes the volume profile of a price and volume series: for each
/// position with `window` samples before it, the histogram of those samples
/// over `bins` buckets of the series' whole price range, and its point of
/// control. The inputs are checked first, in the order of the errors.
pub fn compute_volume_profile(close: Vec<i64>, volume: Vec<u64>, bins: usize, window: usize) -> (r: Result<
    Profile,
    ProfileError,
>)
    ensures
        bins == 0 ==> r == Err::<Profile, ProfileError>(ProfileError::InvalidBins { bins }),
        bins != 0 && window == 0 ==> r == Err::<Profile, ProfileError>(
            ProfileError::InvalidWindow { window, len: close.len() },
        ),
        bins != 0 && window != 0 && close.len() != volume.len() ==> r == Err::<Profile, ProfileError>(
            ProfileError::LengthMismatch { close_len: close.len(), volume_len: volume.len() },
        ),
        bins != 0 && window != 0 && close.len() == volume.len() && window > close.len() ==> r == Err::<
            Profile,
            ProfileError,
        >(ProfileError::InvalidWindow { window, len: close.len() }),
        inputs_valid(close@, volume@, bins as int, window as int) ==> r is Ok && profile_ok(
            close@,
            volume@,
            bins as int,
            window as int,
            r->Ok_0,
        ),
{
    if bins == 0 {
        return Err(ProfileError::InvalidBins { bins });
    }
    if window == 0 {
        return Err(ProfileError::InvalidWindow { window, len: close.len() });
    }
    if close.len() != volume.len() {
        return Err(ProfileError::LengthMismatch { close_len: close.len(), volume_len: volume.len() });
    }
    if window > close.len() {
        return Err(ProfileError::InvalidWindow { window, len: close.len() });
    }
    let mut low: i64 = close[0];
    let mut high: i64 = close[0];
    let mut j: usize = 1;
    while j < close.len()
        invariant
            1 <= j <= close@.len(),
            exists|i: int| 0 <= i < j && close@[i] == low,
            exists|i: int| 0 <= i < j && close@[i] == high,
            forall|i: int| 0 <= i < j ==> low <= #[trigger] close@[i] <= high,
        decreases close@.len() - j,
    {
        if close[j] < low {
            low = close[j];
        }
        if close[j] > high {
            high = close[j];
        }
        j = j + 1;
    }
    proof {
        assert(is_lowest(close@, low as int));
        assert(is_highest(close@, high as int));
        let lo = choose|x: int| is_lowest(close@, x);
        let hi = choose|x: int| is_highest(close@, x);
        let il = choose|i: int| 0 <= i < close@.len() && close@[i] == lo;
        let ih = choose|i: int| 0 <= i < close@.len() && close@[i] == hi;
        assert(low <= close@[il]);
        assert(close@[ih] <= high);
        assert(price_range(close@) == high - low);
        assert(close@[0] <= high && low <= close@[0]);
    }
    let range: u64 = ((high as i128) - (low as i128)) as u64;
    let p = scan_positions(&close, &volume, bins, range, window);
    Ok(p)
}

} // verus!
