use adae::clip_store::{AudioClipStore, AudioClipStoreState, ImportStart, StoredClipInfo};
use adae::engine::{
    AudioTrackOverflowError, AudioTrackReconstructionError, EngineCore, EngineState, InvalidAudioTrackError,
    InvalidAudioTracksError, ProcessorState,
};
use adae::keys::{AudioTrackKey, MixerTrackKey, StoredAudioClipKey};
use adae::mixer::{MixerState, MixerTrackState, CENTRED, UNITY_GAIN};
use adae::timeline::TimelineState;
use adae::timestamp::Timestamp;
use adae::AudioTrackState;

fn empty_state() -> EngineState {
    EngineState {
        processor: ProcessorState {
            mixer: MixerState {
                tracks: Vec::new(),
                master: MixerTrackState { key: MixerTrackKey(0), panning: CENTRED, volume: UNITY_GAIN },
            },
            timeline: TimelineState {
                bpm_cents: 12_000,
                audio_clip_store: AudioClipStoreState { clips: Vec::new() },
                tracks: Vec::new(),
            },
        },
        audio_tracks: Vec::new(),
    }
}

fn dummy() -> EngineCore {
    EngineCore::from_state(&empty_state(), 48_000, AudioClipStore::new())
}

fn import_audio_clip(e: &mut EngineCore) -> StoredAudioClipKey {
    let path = String::from("test_files/44100 16-bit.wav");
    match e.timeline_mut().begin_import(&path).unwrap() {
        ImportStart::New(k) => {
            e.timeline_mut().finish_import(path, k, StoredClipInfo { length: 1_322_978, sample_rate: 44_100 });
            k
        }
        ImportStart::AlreadyImported(k) => k,
    }
}

#[test]
fn audio_tracks_get_from_key() {
    let mut e = dummy();
    let at = e.add_audio_track().unwrap();
    let k = e.audio_mixer_track_key(at).unwrap();
    let t = e.mixer().track(k).unwrap();
    assert_eq!(t.key, k);
}

#[test]
fn audio_tracks_add_audio_track() {
    let mut e = dummy();
    assert_eq!(e.audio_tracks().len(), 0);

    let at = e.add_audio_track().unwrap();

    assert_eq!(e.audio_tracks().len(), 1);
    assert_eq!(e.audio_tracks().first(), Some(&at));
}

#[test]
fn audio_tracks_add_audio_tracks() {
    let mut e = dummy();
    assert_eq!(e.audio_tracks().len(), 0);

    let mut ats: Vec<AudioTrackKey> = e.add_audio_tracks(42).unwrap();

    assert_eq!(ats.len(), 42);
    assert_eq!(e.audio_tracks().len(), 42);
    for at1 in e.audio_tracks() {
        let pos = ats.iter().position(|&at2| at1 == at2).expect("add_audio_tracks() returned different tracks");
        ats.swap_remove(pos);
    }
    assert_eq!(ats.len(), 0);
}

#[test]
fn audio_tracks_delete_audio_track() {
    let mut e = dummy();
    let at = e.add_audio_track().unwrap();

    let r = e.delete_audio_track(at);

    assert!(r.is_ok());
    assert_eq!(e.audio_tracks().len(), 0);
}

#[test]
fn audio_tracks_delete_audio_tracks() {
    let mut e = dummy();
    let ats = e.add_audio_tracks(42).unwrap();

    let r = e.delete_audio_tracks(ats);

    assert!(r.is_ok());
    assert_eq!(e.audio_tracks().len(), 0);
}

#[test]
fn audio_tracks_reconstruct_audio_track() {
    let mut e = dummy();
    let at = e.add_audio_track().unwrap();

    let mk = e.audio_mixer_track_key(at).unwrap();
    e.mixer_mut().set_track_parameters(mk, 0.42f32.to_bits(), 0.65f32.to_bits()).unwrap();
    let tk = e.audio_timeline_track_key(at);

    let s = e.delete_audio_track(at).unwrap();

    let at_new = e.reconstruct_audio_track(s).unwrap();

    assert_eq!(e.audio_tracks().len(), 1);
    assert_eq!(e.audio_tracks().first(), Some(&at_new));
    assert_eq!(at_new, at);
    assert_eq!(e.audio_timeline_track_key(at_new), tk);
    assert_eq!(e.audio_mixer_track_key(at_new), Ok(mk));
    let t = e.mixer().track(mk).unwrap();
    assert_eq!(f32::from_bits(t.panning), 0.42);
    assert_eq!(f32::from_bits(t.volume), 0.65);
}

#[test]
fn audio_tracks_reconstruct_audio_track_repeat() {
    let mut e = dummy();
    let ats: Vec<AudioTrackKey> = e.add_audio_tracks(42).unwrap();

    for &at in &ats {
        let mk = e.audio_mixer_track_key(at).unwrap();
        e.mixer_mut().set_track_parameters(mk, 0.42f32.to_bits(), 0.65f32.to_bits()).unwrap();
    }

    let ss: Vec<AudioTrackState> = e.delete_audio_tracks(ats.clone()).unwrap();

    for (at, s) in ats.iter().zip(ss) {
        let at_new = e.reconstruct_audio_track(s).unwrap();
        assert_eq!(at_new, *at);
        let t = e.mixer().track(e.audio_mixer_track_key(at_new).unwrap()).unwrap();
        assert_eq!(f32::from_bits(t.panning), 0.42);
        assert_eq!(f32::from_bits(t.volume), 0.65);
    }
    assert_eq!(e.audio_tracks().len(), 42);
}

#[test]
fn audio_tracks_reconstruct_audio_track_with_clip() {
    let mut e = dummy();
    let at = e.add_audio_track().unwrap();
    let tk = e.audio_timeline_track_key(at).unwrap();
    let ck = import_audio_clip(&mut e);
    let ac = e.timeline_mut().add_audio_clip(tk, ck, Timestamp::from_beats(0), None).unwrap();

    let s = e.delete_audio_track(at).unwrap();
    let at_new = e.reconstruct_audio_track(s).unwrap();

    let tk_new = e.audio_timeline_track_key(at_new).unwrap();
    let clips = e.timeline().audio_clips(tk_new).unwrap();
    assert_eq!(clips.len(), 1);
    assert_eq!(clips[0].key, ac);
    assert_eq!(e.timeline().audio_clip(ac).unwrap().start(), Timestamp::zero());
}

#[test]
fn audio_tracks_reconstruct_audio_tracks() {
    let mut e = dummy();
    let ats: Vec<AudioTrackKey> = e.add_audio_tracks(42).unwrap();

    let ss: Vec<AudioTrackState> = e.delete_audio_tracks(ats.clone()).unwrap();
    let ats_new: Vec<AudioTrackKey> = e.reconstruct_audio_tracks(ss).unwrap();

    assert_eq!(e.audio_tracks().len(), 42);
    assert_eq!(ats, ats_new);
}

#[test]
fn audio_track_errors() {
    let mut e = dummy();
    assert_eq!(e.delete_audio_track(AudioTrackKey(5)).unwrap_err(), InvalidAudioTrackError { key: AudioTrackKey(5) });
    assert_eq!(e.audio_timeline_track_key(AudioTrackKey(5)), Err(InvalidAudioTrackError { key: AudioTrackKey(5) }));
    assert!(!e.has_audio_track(AudioTrackKey(5)));
    let at = e.add_audio_track().unwrap();
    assert!(e.has_audio_track(at));
    assert_eq!(
        e.delete_audio_tracks(vec![AudioTrackKey(7), at, AudioTrackKey(9)]).unwrap_err(),
        InvalidAudioTracksError { keys: vec![AudioTrackKey(7), AudioTrackKey(9)] }
    );
    assert_eq!(e.audio_tracks().len(), 1);
    assert_eq!(e.add_audio_tracks(u32::MAX).unwrap_err(), AudioTrackOverflowError::TimelineTracks(adae::timeline::TimelineTrackOverflowError));

    let s = e.delete_audio_track(at).unwrap();
    let other = e.add_audio_track().unwrap();
    // The new track took fresh keys of all three kinds, so the old state can come back.
    assert_ne!(other, at);
    let at2 = e.reconstruct_audio_track(s).unwrap();
    assert_eq!(at2, at);
    let s = e.delete_audio_track(at).unwrap();
    let mut clash = s.clone();
    clash.key = other;
    assert_eq!(e.reconstruct_audio_track(clash), Err(AudioTrackReconstructionError::AudioTracks(other)));
    let mut clash = s.clone();
    clash.timeline_track_state.key = e.audio_timeline_track_key(other).unwrap();
    assert_eq!(
        e.reconstruct_audio_track(clash),
        Err(AudioTrackReconstructionError::TimelineTracks(e.audio_timeline_track_key(other).unwrap()))
    );
    let mut clash = s.clone();
    clash.mixer_track_state.key = e.audio_mixer_track_key(other).unwrap();
    assert_eq!(
        e.reconstruct_audio_track(clash),
        Err(AudioTrackReconstructionError::MixerTracks(e.audio_mixer_track_key(other).unwrap()))
    );
}

#[test]
fn engine_state_round_trip() {
    let mut e = dummy();
    let ats = e.add_audio_tracks(3).unwrap();
    let ck = import_audio_clip(&mut e);
    let tk = e.audio_timeline_track_key(ats[1]).unwrap();
    e.timeline_mut().add_audio_clip(tk, ck, Timestamp::from_beats(2), Some(Timestamp::from_beats(1))).unwrap();
    let state = e.state();
    assert_eq!(state.audio_tracks.len(), 3);
    assert_eq!(state.processor.timeline.tracks.len(), 3);
    assert_eq!(state.processor.mixer.tracks.len(), 3);

    let mut store = AudioClipStore::from_decoded(
        &state.processor.timeline.audio_clip_store,
        &vec![Some(StoredClipInfo { length: 1_322_978, sample_rate: 44_100 })],
    );
    assert!(store.contains(ck));
    let _ = &mut store;
    let e2 = EngineCore::from_state(&state, 48_000, store);
    assert_eq!(e2.audio_tracks().len(), 3);
    for at in ats {
        assert_eq!(e2.audio_timeline_track_key(at), e.audio_timeline_track_key(at));
        assert_eq!(e2.audio_mixer_track_key(at), e.audio_mixer_track_key(at));
    }
    assert_eq!(e2.timeline().audio_clips(tk).unwrap(), e.timeline().audio_clips(tk).unwrap());
    assert_eq!(e2.state(), state);
}

#[test]
fn engine_state_round_trip_after_deleting_a_track_with_clips() {
    let mut e = dummy();
    let ats = e.add_audio_tracks(2).unwrap();
    let ck = import_audio_clip(&mut e);
    let tk0 = e.audio_timeline_track_key(ats[0]).unwrap();
    let tk1 = e.audio_timeline_track_key(ats[1]).unwrap();
    e.timeline_mut().add_audio_clip(tk0, ck, Timestamp::from_beats(0), Some(Timestamp::from_beats(1))).unwrap();
    e.timeline_mut().add_audio_clip(tk1, ck, Timestamp::from_beats(2), Some(Timestamp::from_beats(1))).unwrap();
    e.delete_audio_track(ats[0]).unwrap();

    let state = e.state();
    let store = AudioClipStore::from_decoded(
        &state.processor.timeline.audio_clip_store,
        &vec![Some(StoredClipInfo { length: 1_322_978, sample_rate: 44_100 })],
    );
    assert!(adae::engine::engine_rebuild_ready_check(&state, 48_000, &store));
    let e2 = EngineCore::from_state(&state, 48_000, store);
    assert_eq!(e2.state(), state);
    assert_eq!(e2.timeline().audio_clips(tk1).unwrap(), e.timeline().audio_clips(tk1).unwrap());
}
