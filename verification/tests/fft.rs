use autotune_rs::fft::bit_reverse_permutation;
use autotune_rs::fft::butterfly_schedule;
use autotune_rs::fft::reverse_bits;

#[test]
fn reverse_bits_examples() {
    assert_eq!(reverse_bits(0b101010, 6), 0b010101);
    assert_eq!(reverse_bits(0b1101, 2), 0b10);
    assert_eq!(reverse_bits(0b110, 1), 0);
    assert_eq!(reverse_bits(usize::MAX, usize::BITS), usize::MAX);
    assert_eq!(reverse_bits(1, usize::BITS), 1usize << (usize::BITS - 1));
}

#[test]
fn reverse_bits_on_a_single_high_bit() {
    // bit 5 lies above the low 4 bits, so nothing of it remains
    assert_eq!(reverse_bits(0b100000, 4), 0);
    // over all six bits of the number it moves to bit 0, and back
    assert_eq!(reverse_bits(0b100000, 6), 0b000001);
    assert_eq!(reverse_bits(0b000001, 6), 0b100000);
}

#[test]
fn reverse_bits_is_an_involution() {
    for width in 1..=8u32 {
        for n in 0..(1usize << width) {
            let r = reverse_bits(n, width);
            assert!(r < (1usize << width));
            assert_eq!(reverse_bits(r, width), n);
        }
    }
    for n in [0usize, 1, 2, 12345, usize::MAX, usize::MAX / 3] {
        let width = usize::BITS;
        assert_eq!(reverse_bits(reverse_bits(n, width), width), n);
        let width = usize::BITS - 1;
        let low = n & (usize::MAX >> 1);
        assert_eq!(reverse_bits(reverse_bits(n, width), width), low);
    }
}

#[test]
fn bit_reverse_permutation_of_eight() {
    let mut data: Vec<u32> = (0..8).collect();
    bit_reverse_permutation(&mut data);
    assert_eq!(data, vec![0, 4, 2, 6, 1, 5, 3, 7]);
    bit_reverse_permutation(&mut data);
    assert_eq!(data, (0..8).collect::<Vec<u32>>());
}

#[test]
fn bit_reverse_permutation_of_two() {
    let mut data = vec!['a', 'b'];
    bit_reverse_permutation(&mut data);
    assert_eq!(data, vec!['a', 'b']);
}

#[test]
fn bit_reverse_permutation_beyond_power_of_two() {
    // length 6: indices 0..4 are reordered over 2 bits, 4 and 5 stay
    let mut data: Vec<u32> = (0..6).collect();
    bit_reverse_permutation(&mut data);
    assert_eq!(data, vec![0, 2, 1, 3, 4, 5]);
}

#[test]
fn butterfly_schedules_of_eight() {
    assert_eq!(
        butterfly_schedule(8, 0),
        vec![(0, 1, 0), (2, 3, 0), (4, 5, 0), (6, 7, 0)]
    );
    assert_eq!(
        butterfly_schedule(8, 1),
        vec![(0, 2, 0), (1, 3, 1), (4, 6, 0), (5, 7, 1)]
    );
    assert_eq!(
        butterfly_schedule(8, 2),
        vec![(0, 4, 0), (1, 5, 1), (2, 6, 2), (3, 7, 3)]
    );
    assert_eq!(butterfly_schedule(2, 0), vec![(0, 1, 0)]);
}

#[test]
fn butterflies_of_a_stage_touch_every_element_once() {
    let len = 16;
    for stage in 0..4 {
        let schedule = butterfly_schedule(len, stage);
        assert_eq!(schedule.len(), len / 2);
        let mut seen = vec![false; len];
        for (top, bottom, j) in schedule {
            assert!(top < bottom && bottom < len);
            assert_eq!(bottom - top, 1 << stage);
            assert!(j < 1 << stage);
            assert!(!seen[top] && !seen[bottom]);
            seen[top] = true;
            seen[bottom] = true;
        }
        assert!(seen.iter().all(|s| *s));
    }
}
