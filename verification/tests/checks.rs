use adae::clip_store::{AudioClipStore, AudioClipStoreState, ImportStart, StoredClipInfo};
use adae::engine::{engine_rebuild_ready_check, EngineState};
use adae::key_generator::ids_distinct;
use adae::keys::{AudioClipKey, AudioTrackKey, MixerTrackKey, StoredAudioClipKey, TimelineTrackKey};
use adae::mixer::{MixerState, MixerTrackState, CENTRED, UNITY_GAIN};
use adae::timeline::{rebuild_ready_check, AudioClipState, Timeline, TimelineState, TimelineTrackState};
use adae::timestamp::Timestamp;

const INFO: StoredClipInfo = StoredClipInfo { length: 1_322_978, sample_rate: 44_100 };

fn import_audio_clip(tl: &mut Timeline) -> StoredAudioClipKey {
    let path = String::from("test_files/44100 16-bit.wav");
    match tl.begin_import(&path).unwrap() {
        ImportStart::New(k) => {
            tl.finish_import(path, k, INFO);
            k
        }
        ImportStart::AlreadyImported(k) => k,
    }
}

fn clip(key: u32, start: u32, length: Option<u32>) -> AudioClipState {
    AudioClipState {
        key: AudioClipKey(key),
        start_offset: 0,
        start: Timestamp::from_beat_units(start),
        length: length.map(Timestamp::from_beat_units),
        inner: StoredAudioClipKey(0),
    }
}

fn store() -> (AudioClipStoreState, AudioClipStore) {
    let state = AudioClipStoreState { clips: vec![(String::from("a.wav"), StoredAudioClipKey(0))] };
    let store = AudioClipStore::from_decoded(&state, &vec![Some(INFO)]);
    (state, store)
}

fn timeline_state(tracks: Vec<TimelineTrackState>) -> TimelineState {
    TimelineState { bpm_cents: 12_000, audio_clip_store: store().0, tracks }
}

fn fresh_track_state(key: u32) -> MixerTrackState {
    MixerTrackState { key: MixerTrackKey(key), panning: CENTRED, volume: UNITY_GAIN }
}

fn track(key: u32, clips: Vec<AudioClipState>) -> TimelineTrackState {
    TimelineTrackState { key: TimelineTrackKey(key), clips, output_track: MixerTrackKey(key) }
}

#[test]
fn ids_distinct_finds_repeated_ids() {
    assert!(ids_distinct(&vec![AudioClipKey(1), AudioClipKey(2), AudioClipKey(3)]));
    assert!(!ids_distinct(&vec![AudioClipKey(1), AudioClipKey(2), AudioClipKey(1)]));
    assert!(ids_distinct::<AudioClipKey>(&Vec::new()));
}

#[test]
fn rebuild_ready_check_accepts_a_valid_state() {
    let state = timeline_state(vec![track(0, vec![clip(0, 0, None), clip(1, 100_000, Some(1024))]), track(1, Vec::new())]);
    assert!(rebuild_ready_check(&state, 48_000, &store().1));
}

#[test]
fn rebuild_ready_check_refuses_bad_states() {
    let (_, s) = store();
    // Two tracks under one key.
    assert!(!rebuild_ready_check(&timeline_state(vec![track(0, Vec::new()), track(0, Vec::new())]), 48_000, &s));
    // Two clips under one key, on different tracks.
    let state = timeline_state(vec![track(0, vec![clip(5, 0, None)]), track(1, vec![clip(5, 0, None)])]);
    assert!(!rebuild_ready_check(&state, 48_000, &s));
    // A clip of a stored clip that is not in the store.
    let mut missing = clip(0, 0, None);
    missing.inner = StoredAudioClipKey(9);
    assert!(!rebuild_ready_check(&timeline_state(vec![track(0, vec![missing])]), 48_000, &s));
    // A clip that ends past the end of the timeline.
    let late = clip(0, u32::MAX - 10, Some(100));
    assert!(!rebuild_ready_check(&timeline_state(vec![track(0, vec![late])]), 48_000, &s));
    // No tempo, or no sample rate.
    let mut still = timeline_state(Vec::new());
    still.bpm_cents = 0;
    assert!(!rebuild_ready_check(&still, 48_000, &s));
    assert!(!rebuild_ready_check(&timeline_state(Vec::new()), 0, &s));
}

#[test]
fn engine_rebuild_ready_check_refuses_repeated_audio_tracks() {
    let mut state = EngineState::default();
    state.processor.timeline = timeline_state(Vec::new());
    assert!(engine_rebuild_ready_check(&state, 48_000, &store().1));
    state.audio_tracks = vec![
        (AudioTrackKey(0), TimelineTrackKey(0), MixerTrackKey(0)),
        (AudioTrackKey(0), TimelineTrackKey(1), MixerTrackKey(1)),
    ];
    assert!(!engine_rebuild_ready_check(&state, 48_000, &store().1));
    state.audio_tracks.pop();
    state.processor.mixer = MixerState { tracks: vec![fresh_track_state(1), fresh_track_state(1)], master: fresh_track_state(0) };
    assert!(!engine_rebuild_ready_check(&state, 48_000, &store().1));
}

#[test]
fn engine_state_default() {
    let d = EngineState::default();
    assert!(d.audio_tracks.is_empty());
    assert!(d.processor.mixer.tracks.is_empty());
    assert_eq!(d.processor.mixer.master, fresh_track_state(0));
    assert_eq!(d.processor.timeline.bpm_cents, 120_00);
}

#[test]
fn timeline_clip_lookups() {
    let mut tl = Timeline::new(48_000, 12_000);
    let ck = import_audio_clip(&mut tl);
    let tk = tl.add_track(MixerTrackKey(0)).unwrap();
    let ak = tl.add_audio_clip(tk, ck, Timestamp::zero(), None).unwrap();
    assert_eq!(tl.clip_count(), 1);
    assert_eq!(tl.clip_track(ak), Some(tk));
    assert_eq!(tl.clip_track(AudioClipKey(77)), None);
    assert!(tl.clip_is_reachable(ak));
    assert!(tl.clip_is_reachable(AudioClipKey(77)));
    // Deleting the track leaves the clip's key in use, but the clip cannot be found.
    tl.delete_track(tk).unwrap();
    assert_eq!(tl.clip_count(), 1);
    assert!(!tl.clip_is_reachable(ak));
}

#[test]
fn timeline_clip_state_fits() {
    let mut tl = Timeline::new(48_000, 12_000);
    let ck = import_audio_clip(&mut tl);
    let mut s = clip(0, 0, None);
    s.inner = ck;
    assert!(tl.clip_state_fits(&s));
    s.start = Timestamp::from_beat_units(u32::MAX - 10);
    assert!(!tl.clip_state_fits(&s));
    s.length = Some(Timestamp::from_beat_units(10));
    assert!(tl.clip_state_fits(&s));
    // A clip of a stored clip that is not there fits anywhere.
    s.inner = StoredAudioClipKey(9);
    s.length = None;
    assert!(tl.clip_state_fits(&s));
}

#[test]
fn crop_start_offset_check() {
    let mut state = timeline_state(vec![TimelineTrackState {
        key: TimelineTrackKey(0),
        output_track: MixerTrackKey(0),
        clips: vec![clip(3, 2048, Some(2048))],
    }]);
    let (_, s) = store();
    let tl = Timeline::from_state(&state, 48_000, s);
    assert!(tl.crop_start_fits(AudioClipKey(3), Timestamp::from_beats(1)));
    assert!(tl.crop_start_fits(AudioClipKey(9), Timestamp::from_beats(1)));

    state.tracks[0].clips[0].start_offset = u64::MAX;
    let (_, s) = store();
    let tl = Timeline::from_state(&state, 48_000, s);
    assert!(!tl.crop_start_fits(AudioClipKey(3), Timestamp::from_beats(1)));
}

#[test]
fn a_path_recorded_twice_stands_for_its_later_key() {
    let state = AudioClipStoreState {
        clips: vec![(String::from("a.wav"), StoredAudioClipKey(0)), (String::from("a.wav"), StoredAudioClipKey(4))],
    };
    let mut store = AudioClipStore::from_decoded(&state, &vec![Some(INFO), Some(INFO)]);
    assert_eq!(store.imported_key(&String::from("a.wav")), Some(StoredAudioClipKey(4)));
    assert_eq!(store.begin_import(&String::from("a.wav")), Ok(ImportStart::AlreadyImported(StoredAudioClipKey(4))));
}
