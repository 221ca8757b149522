use volume_profile::{
    Bucket, Fraction, ProfileError, bucket_index, fraction_le, compute_histogram, compute_point_of_control,
    compute_volume_profile, profile_at,
};

fn frac(numer: u128, denom: u128) -> Fraction {
    Fraction { numer, denom }
}

fn bucket(index: usize, range: u128, bins: u128, volume: u128) -> Bucket {
    let n = index as u128;
    Bucket {
        index,
        lower: frac(n * range, bins),
        upper: frac((n + 1) * range, bins),
        middle: frac((2 * n + 1) * range, 2 * bins),
        volume,
    }
}

fn one_to_ten() -> (Vec<i64>, Vec<u64>) {
    ((1..=10).collect(), vec![10; 10])
}

#[test]
fn example_series_profile() {
    let (close, volume) = one_to_ten();
    let (poc, hists) = compute_volume_profile(close, volume, 2, 5).unwrap();
    assert_eq!(poc.len(), 10);
    assert_eq!(hists.len(), 10);
    for i in 0..5 {
        assert_eq!(poc[i], None);
        assert!(hists[i].is_none());
    }
    // range 9 over 2 buckets: bucket 1 is [4.5, 9), bucket 2 is [9, 13.5]
    assert_eq!(hists[5], Some(vec![bucket(1, 9, 2, 10)]));
    assert_eq!(hists[5].as_ref().unwrap()[0].lower, frac(9, 2));
    assert_eq!(hists[5].as_ref().unwrap()[0].upper, frac(18, 2));
    assert_eq!(hists[6], Some(vec![bucket(1, 9, 2, 20)]));
    assert_eq!(hists[7], Some(vec![bucket(1, 9, 2, 30)]));
    assert_eq!(hists[8], Some(vec![bucket(1, 9, 2, 40)]));
    assert_eq!(hists[9], Some(vec![bucket(1, 9, 2, 40), bucket(2, 9, 2, 10)]));
    for i in 5..10 {
        assert_eq!(poc[i], Some(frac(27, 4)));
    }
}

#[test]
fn shape_matches_input() {
    let close: Vec<i64> = vec![5, 3, 8, 1, 9, 2, 7];
    let volume: Vec<u64> = vec![1, 2, 3, 4, 5, 6, 7];
    for window in 1..=7 {
        let (poc, hists) = compute_volume_profile(close.clone(), volume.clone(), 4, window).unwrap();
        assert_eq!(poc.len(), close.len());
        assert_eq!(hists.len(), close.len());
        assert!(hists[6].as_ref().map_or(true, |h| !h.is_empty()));
        for i in 0..close.len() {
            assert_eq!(hists[i].is_none(), i < window);
            let populated = hists[i].as_ref().map_or(false, |h| !h.is_empty());
            assert_eq!(poc[i].is_some(), populated);
        }
    }
}

#[test]
fn window_of_whole_series_leaves_all_undefined() {
    let (close, volume) = one_to_ten();
    let (poc, hists) = compute_volume_profile(close, volume, 3, 10).unwrap();
    assert!(poc.iter().all(|p| p.is_none()));
    assert!(hists.iter().all(|h| h.is_none()));
}

#[test]
fn zero_bins_is_invalid() {
    let (close, volume) = one_to_ten();
    assert_eq!(compute_volume_profile(close, volume, 0, 5), Err(ProfileError::InvalidBins { bins: 0 }));
}

#[test]
fn window_longer_than_series_is_invalid() {
    let (close, volume) = one_to_ten();
    assert_eq!(
        compute_volume_profile(close, volume, 2, 11),
        Err(ProfileError::InvalidWindow { window: 11, len: 10 })
    );
}

#[test]
fn zero_window_is_invalid() {
    let (close, volume) = one_to_ten();
    assert_eq!(
        compute_volume_profile(close, volume, 2, 0),
        Err(ProfileError::InvalidWindow { window: 0, len: 10 })
    );
}

#[test]
fn length_mismatch_is_invalid() {
    let close: Vec<i64> = (1..=10).collect();
    let volume: Vec<u64> = vec![10; 9];
    assert_eq!(
        compute_volume_profile(close, volume, 2, 5),
        Err(ProfileError::LengthMismatch { close_len: 10, volume_len: 9 })
    );
}

#[test]
fn bins_are_checked_before_lengths() {
    let close: Vec<i64> = vec![1, 2, 3];
    let volume: Vec<u64> = vec![1];
    assert_eq!(compute_volume_profile(close, volume, 0, 5), Err(ProfileError::InvalidBins { bins: 0 }));
}

#[test]
fn covered_window_keeps_all_volume() {
    // range 30 over 3 buckets: [10, 20), [20, 30), [30, 40]
    let close: Vec<i64> = vec![10, 20, 30, 40, 25];
    let volume: Vec<u64> = vec![1, 2, 3, 4, 5];
    let (poc, hists) = compute_volume_profile(close, volume.clone(), 3, 3).unwrap();
    let h3 = hists[3].as_ref().unwrap();
    assert_eq!(*h3, vec![bucket(1, 30, 3, 1), bucket(2, 30, 3, 2), bucket(3, 30, 3, 3)]);
    let total: u128 = h3.iter().map(|b| b.volume).sum();
    assert_eq!(total, 6);
    assert_eq!(poc[3], Some(frac(210, 6)));
    let h4 = hists[4].as_ref().unwrap();
    assert_eq!(*h4, vec![bucket(2, 30, 3, 2), bucket(3, 30, 3, 7)]);
    let total: u128 = h4.iter().map(|b| b.volume).sum();
    assert_eq!(total, volume[1..4].iter().map(|v| *v as u128).sum::<u128>());
    assert_eq!(poc[4], Some(frac(210, 6)));
}

#[test]
fn prices_below_first_bucket_are_not_counted() {
    let close: Vec<i64> = vec![1, 2, 3, 4, 5];
    let volume: Vec<u64> = vec![7, 7, 7, 7, 7];
    let h = compute_histogram(&close, &volume, 2, 9);
    assert_eq!(h, vec![bucket(1, 9, 2, 7)]);
}

#[test]
fn bucket_boundaries() {
    // range 30 over 3 buckets: [10, 20), [20, 30), [30, 40]
    assert_eq!(bucket_index(9, 30, 3), None);
    assert_eq!(bucket_index(10, 30, 3), Some(1));
    assert_eq!(bucket_index(19, 30, 3), Some(1));
    assert_eq!(bucket_index(20, 30, 3), Some(2));
    assert_eq!(bucket_index(30, 30, 3), Some(3));
    assert_eq!(bucket_index(40, 30, 3), Some(3));
    assert_eq!(bucket_index(41, 30, 3), None);
    assert_eq!(bucket_index(-5, 30, 3), None);
    assert_eq!(bucket_index(0, 30, 3), None);
}

#[test]
fn bucket_of_fractional_width() {
    // range 9 over 2 buckets: [4.5, 9), [9, 13.5]
    assert_eq!(bucket_index(4, 9, 2), None);
    assert_eq!(bucket_index(5, 9, 2), Some(1));
    assert_eq!(bucket_index(8, 9, 2), Some(1));
    assert_eq!(bucket_index(9, 9, 2), Some(2));
    assert_eq!(bucket_index(13, 9, 2), Some(2));
    assert_eq!(bucket_index(14, 9, 2), None);
}

#[test]
fn zero_range_grid() {
    assert_eq!(bucket_index(0, 0, 4), Some(4));
    assert_eq!(bucket_index(3, 0, 4), None);
}

#[test]
fn flat_series_has_empty_histograms() {
    let close: Vec<i64> = vec![5; 6];
    let volume: Vec<u64> = vec![1; 6];
    let (poc, hists) = compute_volume_profile(close, volume, 3, 2).unwrap();
    for i in 2..6 {
        assert_eq!(hists[i], Some(vec![]));
        assert_eq!(poc[i], None);
    }
}

#[test]
fn extreme_prices_do_not_overflow() {
    let close: Vec<i64> = vec![i64::MIN, i64::MAX, i64::MAX];
    let volume: Vec<u64> = vec![u64::MAX, u64::MAX, u64::MAX];
    let (_, hists) = compute_volume_profile(close, volume, usize::MAX, 2).unwrap();
    // width 1: the largest price lands in bucket i64::MAX
    let h = hists[2].as_ref().unwrap();
    assert_eq!(h.len(), 1);
    assert_eq!(h[0].index, i64::MAX as usize);
    assert_eq!(h[0].volume, u64::MAX as u128);
    let r = u64::MAX as u128;
    let n = i64::MAX as u128;
    assert_eq!(h[0].middle, frac((2 * n + 1) * r, 2 * r));
    let h = compute_histogram(&[i64::MAX, i64::MAX], &[u64::MAX, u64::MAX], 1, 1);
    assert_eq!(h.len(), 0);
    let h = compute_histogram(&[i64::MAX, i64::MAX], &[u64::MAX, u64::MAX], 3, u64::MAX);
    assert_eq!(h.len(), 1);
    assert_eq!(h[0].index, 1);
    assert_eq!(h[0].volume, 2 * (u64::MAX as u128));
}

#[test]
fn point_of_control_takes_largest_volume() {
    let h = vec![bucket(1, 30, 3, 4), bucket(2, 30, 3, 9), bucket(3, 30, 3, 2)];
    assert_eq!(compute_point_of_control(&h), Some(frac(150, 6)));
}

#[test]
fn point_of_control_tie_goes_to_highest_bucket() {
    let h = compute_histogram(&[10, 30], &[5, 5], 3, 30);
    assert_eq!(h, vec![bucket(1, 30, 3, 5), bucket(3, 30, 3, 5)]);
    assert_eq!(compute_point_of_control(&h), Some(frac(210, 6)));
}

#[test]
fn point_of_control_of_empty_histogram() {
    assert_eq!(compute_point_of_control(&vec![]), None);
}

#[test]
fn repeated_calls_agree() {
    let close: Vec<i64> = (0..200).map(|i| (i * 37 % 101) as i64 - 20).collect();
    let volume: Vec<u64> = (0..200).map(|i| (i * 13 % 17) as u64).collect();
    let a = compute_volume_profile(close.clone(), volume.clone(), 7, 25);
    let b = compute_volume_profile(close.clone(), volume.clone(), 7, 25);
    assert_eq!(a, b);
    let (poc, hists) = a.unwrap();
    for i in 0..close.len() {
        let (p, h) = profile_at(&close, &volume, 7, 100, 25, i);
        assert_eq!(p, poc[i]);
        assert_eq!(h, hists[i]);
    }
}

fn with_middle(middle: Fraction, volume: u128) -> Bucket {
    Bucket { index: 1, lower: middle, upper: middle, middle, volume }
}

#[test]
fn point_of_control_tie_ignores_bucket_order() {
    let high = with_middle(frac(25, 1), 5);
    let low = with_middle(frac(15, 1), 5);
    assert_eq!(compute_point_of_control(&vec![high, low]), Some(frac(25, 1)));
    assert_eq!(compute_point_of_control(&vec![low, high]), Some(frac(25, 1)));
    let small = with_middle(frac(40, 1), 4);
    assert_eq!(compute_point_of_control(&vec![high, small, low]), Some(frac(25, 1)));
    assert_eq!(compute_point_of_control(&vec![low, small, high]), Some(frac(25, 1)));
}

#[test]
fn point_of_control_tie_compares_fractions_by_value() {
    // 7/2 is above 10/3, though its numerator is smaller
    let a = with_middle(frac(7, 2), 3);
    let b = with_middle(frac(10, 3), 3);
    assert_eq!(compute_point_of_control(&vec![a, b]), Some(frac(7, 2)));
    assert_eq!(compute_point_of_control(&vec![b, a]), Some(frac(7, 2)));
    // equal values: the larger numerator wins, in either order
    let c = with_middle(frac(1, 2), 3);
    let d = with_middle(frac(2, 4), 3);
    assert_eq!(compute_point_of_control(&vec![c, d]), Some(frac(2, 4)));
    assert_eq!(compute_point_of_control(&vec![d, c]), Some(frac(2, 4)));
}

#[test]
fn fraction_order_on_wide_products() {
    let m = u128::MAX;
    assert!(fraction_le(frac(m - 1, m), frac(m, m)));
    assert!(!fraction_le(frac(m, m), frac(m - 1, m)));
    assert!(fraction_le(frac(m - 1, m), frac(m - 2, m - 1)) == false);
    assert!(fraction_le(frac(m - 2, m - 1), frac(m - 1, m)));
    assert!(fraction_le(frac(3, 6), frac(1, 2)) == false);
    assert!(fraction_le(frac(1, 2), frac(3, 6)));
    assert!(fraction_le(frac(2, 4), frac(2, 4)));
}
