use adae::clip_store::AudioClipStoreState;
use adae::engine::{EngineState, ProcessorState};
use adae::keys::{AudioClipKey, AudioTrackKey, MixerTrackKey, StoredAudioClipKey, TimelineTrackKey};
use adae::mixer::{MixerState, MixerTrackState, CENTRED, UNITY_GAIN};
use adae::timeline::{AudioClipState, TimelineState, TimelineTrackState};
use adae::timestamp::Timestamp;

fn store(paths: &[(&str, u32)]) -> AudioClipStoreState {
    AudioClipStoreState { clips: paths.iter().map(|(p, k)| (p.to_string(), StoredAudioClipKey(*k))).collect() }
}

fn track(key: u32, output: u32, clips: Vec<AudioClipState>) -> TimelineTrackState {
    TimelineTrackState { key: TimelineTrackKey(key), clips, output_track: MixerTrackKey(output) }
}

fn mixer_track(key: u32, volume: u32) -> MixerTrackState {
    MixerTrackState { key: MixerTrackKey(key), panning: CENTRED, volume }
}

fn timeline(tracks: Vec<TimelineTrackState>) -> TimelineState {
    TimelineState { bpm_cents: 12_000, audio_clip_store: store(&[("a.wav", 0)]), tracks }
}

#[test]
fn store_states_compare_as_sets() {
    assert_eq!(store(&[("a.wav", 0), ("b.wav", 1)]), store(&[("b.wav", 1), ("a.wav", 0)]));
    assert_ne!(store(&[("a.wav", 0), ("b.wav", 1)]), store(&[("a.wav", 1), ("b.wav", 0)]));
    assert_ne!(store(&[("a.wav", 0)]), store(&[("a.wav", 0), ("b.wav", 1)]));
    assert_eq!(AudioClipStoreState::default(), store(&[]));
}

#[test]
fn track_states_compare_by_key() {
    let clip = AudioClipState {
        key: AudioClipKey(3),
        start_offset: 0,
        start: Timestamp::zero(),
        length: None,
        inner: StoredAudioClipKey(0),
    };
    assert_eq!(track(1, 2, vec![clip]), track(1, 5, Vec::new()));
    assert_ne!(track(1, 2, Vec::new()), track(2, 2, Vec::new()));
}

#[test]
fn timeline_states_compare_tracks_as_sets() {
    assert_eq!(
        timeline(vec![track(1, 1, Vec::new()), track(2, 2, Vec::new())]),
        timeline(vec![track(2, 2, Vec::new()), track(1, 1, Vec::new())])
    );
    assert_ne!(timeline(vec![track(1, 1, Vec::new())]), timeline(vec![track(2, 1, Vec::new())]));
    let mut other_tempo = timeline(Vec::new());
    other_tempo.bpm_cents = 13_000;
    assert_ne!(timeline(Vec::new()), other_tempo);
    let mut other_store = timeline(Vec::new());
    other_store.audio_clip_store = store(&[("b.wav", 0)]);
    assert_ne!(timeline(Vec::new()), other_store);
}

#[test]
fn timeline_state_default() {
    let d = TimelineState::default();
    assert_eq!(d.bpm_cents, 120_00);
    assert!(d.tracks.is_empty());
    assert!(d.audio_clip_store.clips.is_empty());
}

#[test]
fn mixer_states_compare_tracks_as_sets() {
    let a = MixerState { tracks: vec![mixer_track(1, UNITY_GAIN), mixer_track(2, 0)], master: mixer_track(0, UNITY_GAIN) };
    let b = MixerState { tracks: vec![mixer_track(2, 0), mixer_track(1, UNITY_GAIN)], master: mixer_track(0, UNITY_GAIN) };
    assert_eq!(a, b);
    let c = MixerState { tracks: vec![mixer_track(2, 0), mixer_track(1, 0)], master: mixer_track(0, UNITY_GAIN) };
    assert_ne!(a, c);
    let d = MixerState { tracks: vec![mixer_track(1, UNITY_GAIN), mixer_track(2, 0)], master: mixer_track(0, 0) };
    assert_ne!(a, d);
}

#[test]
fn engine_states_compare_audio_tracks_as_sets() {
    let processor = ProcessorState {
        mixer: MixerState { tracks: vec![mixer_track(1, UNITY_GAIN)], master: mixer_track(0, UNITY_GAIN) },
        timeline: timeline(vec![track(1, 1, Vec::new())]),
    };
    let a = EngineState {
        processor: processor.clone(),
        audio_tracks: vec![
            (AudioTrackKey(0), TimelineTrackKey(1), MixerTrackKey(1)),
            (AudioTrackKey(1), TimelineTrackKey(2), MixerTrackKey(2)),
        ],
    };
    let b = EngineState {
        processor: processor.clone(),
        audio_tracks: vec![
            (AudioTrackKey(1), TimelineTrackKey(2), MixerTrackKey(2)),
            (AudioTrackKey(0), TimelineTrackKey(1), MixerTrackKey(1)),
        ],
    };
    assert_eq!(a, b);
    let c = EngineState {
        processor,
        audio_tracks: vec![(AudioTrackKey(0), TimelineTrackKey(2), MixerTrackKey(1))],
    };
    assert_ne!(a, c);
}
