# autotune_rs

A pitch detector: it listens to an audio input device, estimates the
frequency of the sound with the YIN algorithm and shows the closest note.

- `src/` is the verified library (Verus):
  - `audio/pitch.rs`: notes and pitches, semitone arithmetic and names;
  - `audio/yin.rs`: the lag window of the YIN estimator, the absolute-threshold
    search and the interpolation neighbourhood;
  - `audio/config.rs`: the choice of the stream configuration (most bits per
    sample, then highest sample rate);
  - `audio/frame.rs`: assembly of incoming samples into frames, and selection
    of the first channel of interleaved audio;
  - `fft.rs`: bit reversal of indices, the reordering stage and the butterfly
    schedule of the radix-2 FFT;
  - `interface.rs`: which devices are offered, how the interface state answers
    messages, and the rounds of the detection loop.
- `app/` is the program around it: the audio stream (cpal), the detection thread,
  the floating-point parts of YIN, of the FFT and of pitch frequencies, and the
  window (iced).
- `tests/` exercises the library.
