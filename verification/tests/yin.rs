use autotune_rs::audio::Yin;

#[test]
fn minimum_frame_size_is_twice_the_largest_lag() {
    let yin = Yin::with_lags(48_000, 48, 800, 0.1f64);
    assert_eq!(yin.minimum_frame_size(), 1600);
    assert_eq!(yin.sample_rate, 48_000);
    assert_eq!(yin.tau_min, 48);
    assert_eq!(yin.tau_max, 800);
    assert_eq!(yin.threshold, 0.1);
}

fn comparisons(cmndf: &[f64], threshold: f64) -> (Vec<bool>, Vec<bool>) {
    let below = cmndf.iter().map(|d| *d < threshold).collect();
    let falls = (0..cmndf.len())
        .map(|t| t + 1 < cmndf.len() && cmndf[t + 1] < cmndf[t])
        .collect();
    (below, falls)
}

#[test]
fn absolute_threshold_follows_the_dip_down() {
    let cmndf = [1.0, 0.9, 0.5, 0.08, 0.05, 0.03, 0.06, 0.02, 0.5];
    let (below, falls) = comparisons(&cmndf, 0.1);
    assert_eq!(Yin::<f64>::absolute_threshold(&below, &falls, 1, 9), Some(5));
}

#[test]
fn absolute_threshold_none_when_nothing_below() {
    let cmndf = [1.0, 0.9, 0.5, 0.3, 0.2];
    let (below, falls) = comparisons(&cmndf, 0.1);
    assert_eq!(Yin::<f64>::absolute_threshold(&below, &falls, 1, 5), None);
}

#[test]
fn absolute_threshold_respects_the_window() {
    let cmndf = [1.0, 0.05, 0.5, 0.07, 0.04, 0.01];
    let (below, falls) = comparisons(&cmndf, 0.1);
    // lag 1 is below the threshold but outside the window
    assert_eq!(Yin::<f64>::absolute_threshold(&below, &falls, 2, 5), Some(4));
    // the descent stops at the end of the window
    assert_eq!(Yin::<f64>::absolute_threshold(&below, &falls, 2, 6), Some(5));
    // an empty window finds nothing
    assert_eq!(Yin::<f64>::absolute_threshold(&below, &falls, 4, 4), None);
    assert_eq!(Yin::<f64>::absolute_threshold(&below, &falls, 5, 3), None);
}

#[test]
fn interpolation_neighbours_inside_and_at_the_edges() {
    assert_eq!(Yin::<f64>::interpolation_neighbours(10, 4), Some((3, 4, 5)));
    assert_eq!(Yin::<f64>::interpolation_neighbours(10, 0), None);
    assert_eq!(Yin::<f64>::interpolation_neighbours(10, 9), None);
    assert_eq!(Yin::<f64>::interpolation_neighbours(10, 8), Some((7, 8, 9)));
}

#[test]
fn difference_span_needs_the_minimum_frame_size() {
    let yin = Yin::with_lags(48_000, 48, 800, 0.1f64);
    assert_eq!(yin.difference_span(1599), None);
    assert_eq!(yin.difference_span(0), None);
    assert_eq!(yin.difference_span(1600), Some(800));
    assert_eq!(yin.difference_span(3200), Some(2400));
    let empty = Yin::with_lags(48_000, 0, 0, 0.1f64);
    assert_eq!(empty.difference_span(0), Some(0));
}
