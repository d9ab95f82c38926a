//! Audio related logic.

pub mod pitch;

pub use pitch::Note;
pub use pitch::Pitch;
pub mod yin;

pub use yin::Yin;
pub mod frame;

pub use frame::FrameAssembler;
pub mod config;
