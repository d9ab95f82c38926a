//! Pitch detection building blocks: notes and pitches, the bit-reversal
//! stage of the radix-2 FFT, the index logic of the YIN estimator, frame
//! assembly of incoming audio, and the decisions of the user interface.

pub mod audio;
pub mod fft;
pub mod interface;
