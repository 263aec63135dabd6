//! Verified core of the Adae audio engine: timestamps, key allocation, sample-domain
//! conversions, and the bookkeeping of the timeline's tracks and clips, the mixer's tracks and
//! the audio tracks that pair them.

pub mod key_generator;
pub mod keys;
pub mod timestamp;
pub mod circular_array;
pub mod samples;
pub mod clip_store;
pub mod timeline;
pub mod playback;
pub mod mirror;
pub mod mixer;
pub mod engine;
pub mod utils;
pub mod config;

pub use engine::{AudioTrackState, EngineCore, EngineState};
pub use keys::{AudioClipKey, AudioTrackKey, MixerTrackKey, StoredAudioClipKey, TimelineTrackKey};
pub use timestamp::Timestamp;
