//! Volume profile: a histogram of traded volume by price bucket over a
//! trailing window, with its point of control, for every position of a series.
//!
//! Prices are integer ticks (`i64`) and volumes integer units (`u64`). Bucket
//! bounds are exact fractions, so every result here is exact.
//!
//! Policies where a choice had to be made:
//! - the window of position `i` is the `window` samples before `i`, not `i`
//!   itself;
//! - bucket `n` (from 1 to `bins`) covers `[n * w, (n + 1) * w)`, the last one
//!   also its upper bound, with `w` the whole series' price range over `bins`;
//!   a sample goes to the first bucket that holds it, and to none if none does;
//! - a histogram lists only the buckets that some sample reached, by index;
//! - the point of control is the middle of the bucket with the most volume,
//!   the highest middle price on a tie (compared exactly, whatever the order
//!   of the buckets), and undefined for an empty histogram.

pub mod bucket;
pub mod histogram;
pub mod profile;
pub mod theorems;

pub use bucket::{Bucket, Fraction, bucket_index, fraction_le};
pub use histogram::{compute_histogram, compute_point_of_control};
pub use profile::{Profile, ProfileError, compute_volume_profile, profile_at};
