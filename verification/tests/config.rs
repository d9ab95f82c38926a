use autotune_rs::audio::config::best_config;

#[test]
fn most_bits_per_sample_first() {
    let configs = [(16, 48_000), (32, 44_100), (24, 96_000)];
    assert_eq!(best_config(&configs), Some(1));
}

#[test]
fn then_highest_sample_rate() {
    let configs = [(32, 44_100), (16, 192_000), (32, 96_000), (32, 48_000)];
    assert_eq!(best_config(&configs), Some(2));
}

#[test]
fn first_of_equal_configs() {
    let configs = [(16, 48_000), (32, 48_000), (32, 48_000)];
    assert_eq!(best_config(&configs), Some(1));
}

#[test]
fn no_config() {
    assert_eq!(best_config(&[]), None);
    assert_eq!(best_config(&[(8, 8_000)]), Some(0));
}
