use autotune_rs::audio::frame::first_channel;
use autotune_rs::audio::FrameAssembler;

#[test]
fn frame_completes_after_its_size_in_samples() {
    let mut assembler = FrameAssembler::new(vec![0i32; 3]);
    assert_eq!(assembler.frame_size(), 3);
    assert!(!assembler.push(1));
    assert!(!assembler.push(2));
    assert_eq!(assembler.filled(), 2);
    assert!(assembler.push(3));
    assert_eq!(assembler.filled(), 0);
    assert_eq!(assembler.frame(), &[1, 2, 3]);
    // filling starts over at the first slot
    assert!(!assembler.push(4));
    assert_eq!(assembler.frame(), &[4, 2, 3]);
    assert!(!assembler.push(5));
    assert!(assembler.push(6));
    assert_eq!(assembler.frame(), &[4, 5, 6]);
}

#[test]
fn single_sample_frames_complete_every_time() {
    let mut assembler = FrameAssembler::new(vec![0.0f64]);
    assert!(assembler.push(0.5));
    assert!(assembler.push(0.25));
    assert_eq!(assembler.frame(), &[0.25]);
}

#[test]
fn first_channel_of_interleaved_stereo() {
    let samples = [1, -1, 2, -2, 3, -3];
    assert_eq!(first_channel(&samples, 2), vec![1, 2, 3]);
}

#[test]
fn first_channel_with_incomplete_last_group() {
    let samples = [1, 10, 100, 2, 20, 200, 3];
    assert_eq!(first_channel(&samples, 3), vec![1, 2, 3]);
    assert_eq!(first_channel(&samples, 1), samples.to_vec());
    assert_eq!(first_channel(&samples, 10), vec![1]);
    let empty: [u8; 0] = [];
    assert_eq!(first_channel(&empty, 2), Vec::<u8>::new());
}

#[test]
fn consecutive_frames_are_consecutive_blocks() {
    let samples: Vec<u32> = (0..12).collect();
    let mut assembler = FrameAssembler::new(vec![0u32; 4]);
    let mut frames = Vec::new();
    for sample in samples.iter() {
        if assembler.push(*sample) {
            frames.push(assembler.frame().to_vec());
        }
    }
    assert_eq!(frames, vec![vec![0, 1, 2, 3], vec![4, 5, 6, 7], vec![8, 9, 10, 11]]);
    assert_eq!(assembler.filled(), 0);
}
