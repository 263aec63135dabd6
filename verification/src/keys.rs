use vstd::prelude::*;

use crate::key_generator::Key;

verus! {

/// Identifies an audio track: a timeline track paired with a mixer track.
#[derive(Debug, Clone, Copy, PartialEq, Eq, Hash, Structural)]
pub struct AudioTrackKey(pub u32);

/// Identifies a track on the timeline.
#[derive(Debug, Clone, Copy, PartialEq, Eq, Hash, Structural)]
pub struct TimelineTrackKey(pub u32);

/// Identifies a track on the mixer.
#[derive(Debug, Clone, Copy, PartialEq, Eq, Hash, Structural)]
pub struct MixerTrackKey(pub u32);

/// Identifies an audio clip uniquely across the entire timeline.
#[derive(Debug, Clone, Copy, PartialEq, Eq, Hash, Structural)]
pub struct AudioClipKey(pub u32);

/// Identifies an imported (stored) audio clip.
#[derive(Debug, Clone, Copy, PartialEq, Eq, Hash, Structural)]
pub struct StoredAudioClipKey(pub u32);

impl Key for AudioTrackKey {
    open spec fn key_id(&self) -> u32 {
        self.0
    }

    proof fn lemma_id_determines_key(a: Self, b: Self) {
    }

    fn new(id: u32) -> (k: Self) {
        AudioTrackKey(id)
    }

    fn id(&self) -> (r: u32) {
        self.0
    }
}

impl Key for TimelineTrackKey {
    open spec fn key_id(&self) -> u32 {
        self.0
    }

    proof fn lemma_id_determines_key(a: Self, b: Self) {
    }

    fn new(id: u32) -> (k: Self) {
        TimelineTrackKey(id)
    }

    fn id(&self) -> (r: u32) {
        self.0
    }
}

impl Key for MixerTrackKey {
    open spec fn key_id(&self) -> u32 {
        self.0
    }

    proof fn lemma_id_determines_key(a: Self, b: Self) {
    }

    fn new(id: u32) -> (k: Self) {
        MixerTrackKey(id)
    }

    fn id(&self) -> (r: u32) {
        self.0
    }
}

impl Key for AudioClipKey {
    open spec fn key_id(&self) -> u32 {
        self.0
    }

    proof fn lemma_id_determines_key(a: Self, b: Self) {
    }

    fn new(id: u32) -> (k: Self) {
        AudioClipKey(id)
    }

    fn id(&self) -> (r: u32) {
        self.0
    }
}

impl Key for StoredAudioClipKey {
    open spec fn key_id(&self) -> u32 {
        self.0
    }

    proof fn lemma_id_determines_key(a: Self, b: Self) {
    }

    fn new(id: u32) -> (k: Self) {
        StoredAudioClipKey(id)
    }

    fn id(&self) -> (r: u32) {
        self.0
    }
}

} // verus!
