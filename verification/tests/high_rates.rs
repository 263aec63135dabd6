use adae::clip_store::{AudioClipStore, AudioClipStoreState, ImportStart, StoredClipInfo};
use adae::engine::{engine_rebuild_ready_check, EngineCore, EngineState};
use adae::keys::MixerTrackKey;
use adae::timeline::{rebuild_ready_check, Timeline, TimelineState};
use adae::timestamp::{rate_fits_check, Timestamp};

#[test]
fn timeline_at_768_khz() {
    assert!(rate_fits_check(768_000, 12_000));
    let state = TimelineState {
        bpm_cents: 12_000,
        audio_clip_store: AudioClipStoreState { clips: Vec::new() },
        tracks: Vec::new(),
    };
    let store = AudioClipStore::new();
    assert!(rebuild_ready_check(&state, 768_000, &store));
    let mut tl = Timeline::from_state(&state, 768_000, store);
    assert_eq!(tl.sample_rate(), 768_000);

    let tk = tl.add_track(MixerTrackKey(1)).unwrap();
    let path = String::from("a.wav");
    let ck = match tl.begin_import(&path).unwrap() {
        ImportStart::New(k) => {
            tl.finish_import(path, k, StoredClipInfo { length: 96_000, sample_rate: 96_000 });
            k
        }
        ImportStart::AlreadyImported(k) => k,
    };
    let c = tl.add_audio_clip(tk, ck, Timestamp::from_beats(4_000_000), None).unwrap();
    // One second of audio at 120 BPM is two beats.
    assert_eq!(tl.audio_clip(c).unwrap().end(12_000).beat_units(), (4_000_000 + 2) * 1024);

    let empty_engine = EngineState::default();
    let store = AudioClipStore::new();
    assert!(engine_rebuild_ready_check(&empty_engine, 768_000, &store));
    let e = EngineCore::from_state(&empty_engine, 768_000, store);
    assert_eq!(e.audio_tracks().len(), 0);
}

#[test]
fn samples_at_high_rates() {
    // u32::MAX beat units at 768 kHz and 120 BPM: beyond what a 64-bit product of the three factors holds.
    let t = Timestamp::from_beat_units(u32::MAX);
    assert_eq!(t.samples(768_000, 12_000), (u32::MAX as u128 * 768_000 * 6000 / (12_000 * 1024)) as u64);
    assert_eq!(Timestamp::from_samples(1_536_000, 768_000, 12_000), Timestamp::from_beats(4));
}

#[test]
fn rates_whose_timestamps_do_not_fit() {
    assert!(!rate_fits_check(0, 12_000));
    assert!(!rate_fits_check(48_000, 0));
    assert!(!rate_fits_check(u32::MAX, 1));
    assert!(rate_fits_check(u32::MAX, 6));
}
