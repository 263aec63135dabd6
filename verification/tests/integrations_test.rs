use adae::clip_store::{AudioClipStore, AudioClipStoreState, ImportStart, StoredClipInfo};
use adae::engine::{EngineCore, EngineState, ProcessorState};
use adae::keys::{AudioClipKey, AudioTrackKey, MixerTrackKey, StoredAudioClipKey};
use adae::mixer::{MixerState, MixerTrackState, CENTRED, UNITY_GAIN};
use adae::timeline::{MoveAudioClipError, MoveAudioClipToTrackError, TimelineEvent, TimelineState};
use adae::timestamp::Timestamp;
use adae::AudioTrackState;

fn dummy() -> EngineCore {
    let state = EngineState {
        processor: ProcessorState {
            mixer: MixerState {
                tracks: Vec::new(),
                master: MixerTrackState { key: MixerTrackKey(0), panning: CENTRED, volume: UNITY_GAIN },
            },
            timeline: TimelineState {
                bpm_cents: 12_000,
                audio_clip_store: AudioClipStoreState { clips: Vec::new() },
                tracks: Vec::new(),
            },
        },
        audio_tracks: Vec::new(),
    };
    EngineCore::from_state(&state, 48_000, AudioClipStore::new())
}

fn import_audio_clip(e: &mut EngineCore) -> StoredAudioClipKey {
    let path = String::from("test_files/44100 16-bit.wav");
    match e.timeline_mut().begin_import(&path).unwrap() {
        ImportStart::New(k) => {
            e.timeline_mut().finish_import(path, k, StoredClipInfo { length: 1_322_978, sample_rate: 44_100 });
            k
        }
        ImportStart::AlreadyImported(k) => k,
    }
}

#[test]
fn integrations_test_create_dummy_engine() {
    let e = dummy();
    assert_eq!(e.audio_tracks().len(), 0);
    assert_eq!(e.timeline().clip_count(), 0);
}

#[test]
fn integrations_test_jump_to() {
    let mut e = dummy();
    e.timeline_mut().take_events();
    e.timeline_mut().jump_to(Timestamp::from_beats(42));
    let events = e.timeline_mut().take_events();
    assert_eq!(events.len(), 1);
    assert!(matches!(events[0], TimelineEvent::JumpTo { position } if position == Timestamp::from_beats(42)));
}

#[test]
fn integrations_test_set_panning() {
    let mut e = dummy();
    let at = e.add_audio_track().unwrap();
    let mk = e.audio_mixer_track_key(at).unwrap();
    let volume = e.mixer().track(mk).unwrap().volume;

    e.mixer_mut().set_track_parameters(mk, 0.123f32.to_bits(), volume).unwrap();

    assert_eq!(f32::from_bits(e.mixer().track(mk).unwrap().panning), 0.123);
}

#[test]
fn integrations_test_set_volume() {
    let mut e = dummy();
    let at = e.add_audio_track().unwrap();
    let mk = e.audio_mixer_track_key(at).unwrap();
    let panning = e.mixer().track(mk).unwrap().panning;

    e.mixer_mut().set_track_parameters(mk, panning, 0.123f32.to_bits()).unwrap();

    assert_eq!(f32::from_bits(e.mixer().track(mk).unwrap().volume), 0.123);
}

#[test]
fn integrations_test_import_new_audio_clip() {
    let mut e = dummy();
    assert_eq!(e.timeline().state().audio_clip_store.clips.len(), 0);
    import_audio_clip(&mut e);
    assert_eq!(e.timeline().state().audio_clip_store.clips.len(), 1);
}

#[test]
fn integrations_test_length() {
    let mut e = dummy();
    let ck = import_audio_clip(&mut e);

    let ac = e.timeline().stored_audio_clip(ck).unwrap();

    assert_eq!(ac.length, 1_322_978);
}

#[test]
fn integrations_test_get_from_key() {
    let mut e = dummy();
    let at = e.add_audio_track().unwrap();
    let k = e.audio_mixer_track_key(at).unwrap();
    let t = e.mixer().track(k).unwrap();
    assert_eq!(t.key, k);
}

#[test]
fn integrations_test_add_audio_track() {
    let mut e = dummy();
    assert_eq!(e.audio_tracks().len(), 0);

    let at = e.add_audio_track().unwrap();

    assert_eq!(e.audio_tracks().len(), 1);
    assert_eq!(e.audio_tracks().first(), Some(&at));
}

#[test]
fn integrations_test_add_audio_tracks() {
    let mut e = dummy();
    assert_eq!(e.audio_tracks().len(), 0);

    let mut ats: Vec<AudioTrackKey> = e.add_audio_tracks(42).unwrap();

    assert_eq!(ats.len(), 42);
    assert_eq!(e.audio_tracks().len(), 42);
    for at1 in e.audio_tracks() {
        let pos = ats.iter().position(|&at2| at1 == at2).expect("add_audio_tracks() returned different tracks");
        ats.swap_remove(pos);
    }
    assert_eq!(ats.len(), 0);
}

#[test]
fn integrations_test_delete_audio_track() {
    let mut e = dummy();
    let at = e.add_audio_track().unwrap();

    let r = e.delete_audio_track(at);

    assert!(r.is_ok());
    assert_eq!(e.audio_tracks().len(), 0);
}

#[test]
fn integrations_test_delete_audio_tracks() {
    let mut e = dummy();
    let ats = e.add_audio_tracks(42).unwrap();

    let r = e.delete_audio_tracks(ats);

    assert!(r.is_ok());
    assert_eq!(e.audio_tracks().len(), 0);
}

#[test]
fn integrations_test_reconstruct_audio_track() {
    let mut e = dummy();
    let at = e.add_audio_track().unwrap();

    let mk = e.audio_mixer_track_key(at).unwrap();
    e.mixer_mut().set_track_parameters(mk, 0.42f32.to_bits(), 0.65f32.to_bits()).unwrap();
    let tk = e.audio_timeline_track_key(at);

    let s = e.delete_audio_track(at).unwrap();

    let at_new = e.reconstruct_audio_track(s).unwrap();

    assert_eq!(e.audio_tracks().len(), 1);
    assert_eq!(e.audio_tracks().first(), Some(&at_new));
    assert_eq!(at_new, at);
    assert_eq!(e.audio_timeline_track_key(at_new), tk);
    assert_eq!(e.audio_mixer_track_key(at_new), Ok(mk));
    let t = e.mixer().track(mk).unwrap();
    assert_eq!(f32::from_bits(t.panning), 0.42);
    assert_eq!(f32::from_bits(t.volume), 0.65);
}

#[test]
fn integrations_test_reconstruct_audio_track_repeat() {
    let mut e = dummy();
    let ats: Vec<AudioTrackKey> = e.add_audio_tracks(42).unwrap();

    for &at in &ats {
        let mk = e.audio_mixer_track_key(at).unwrap();
        e.mixer_mut().set_track_parameters(mk, 0.42f32.to_bits(), 0.65f32.to_bits()).unwrap();
    }

    let ss: Vec<AudioTrackState> = e.delete_audio_tracks(ats.clone()).unwrap();

    for (at, s) in ats.iter().zip(ss) {
        let at_new = e.reconstruct_audio_track(s).unwrap();
        assert_eq!(at_new, *at);
        let t = e.mixer().track(e.audio_mixer_track_key(at_new).unwrap()).unwrap();
        assert_eq!(f32::from_bits(t.panning), 0.42);
        assert_eq!(f32::from_bits(t.volume), 0.65);
    }
    assert_eq!(e.audio_tracks().len(), 42);
}

#[test]
fn integrations_test_reconstruct_audio_track_with_clip() {
    let mut e = dummy();
    let at = e.add_audio_track().unwrap();
    let tk = e.audio_timeline_track_key(at).unwrap();
    let ck = import_audio_clip(&mut e);
    let ac = e.timeline_mut().add_audio_clip(tk, ck, Timestamp::from_beats(0), None).unwrap();

    let s = e.delete_audio_track(at).unwrap();
    let at_new = e.reconstruct_audio_track(s).unwrap();

    let tk_new = e.audio_timeline_track_key(at_new).unwrap();
    let clips = e.timeline().audio_clips(tk_new).unwrap();
    assert_eq!(clips.len(), 1);
    assert_eq!(clips[0].key, ac);
    assert_eq!(e.timeline().audio_clip(ac).unwrap().start(), Timestamp::zero());
}

#[test]
fn integrations_test_reconstruct_audio_tracks() {
    let mut e = dummy();
    let ats: Vec<AudioTrackKey> = e.add_audio_tracks(42).unwrap();

    let ss: Vec<AudioTrackState> = e.delete_audio_tracks(ats.clone()).unwrap();
    let ats_new: Vec<AudioTrackKey> = e.reconstruct_audio_tracks(ss).unwrap();

    assert_eq!(e.audio_tracks().len(), 42);
    assert_eq!(ats, ats_new);
}

#[test]
fn integrations_test_add_audio_clip() {
    let mut e = dummy();
    let at = e.add_audio_track().unwrap();
    let tk = e.audio_timeline_track_key(at).unwrap();

    assert_eq!(
        e.timeline().audio_clips(tk)
            .unwrap()
            .len(),
        0
    );

    let ck = import_audio_clip(&mut e);
    let r = e.timeline_mut().add_audio_clip(
        tk,
        ck,
        Timestamp::from_beats(0),
        None,
    );

    assert!(r.is_ok());
    assert_eq!(
        e.timeline().audio_clips(tk)
            .unwrap()
            .len(),
        1
    );
}

#[test]
fn integrations_test_delete_audio_clip() {
    let mut e = dummy();
    let at = e.add_audio_track().unwrap();
    let tk = e.audio_timeline_track_key(at).unwrap();

    let ck = import_audio_clip(&mut e);
    let ac = e.timeline_mut()
        .add_audio_clip(
            tk,
            ck,
            Timestamp::from_beats(0),
            None,
        )
        .unwrap();

    assert_eq!(
        e.timeline().audio_clips(tk)
            .unwrap()
            .len(),
        1
    );

    let r = e.timeline_mut().delete_audio_clip(ac);

    assert!(r.is_ok());
    assert_eq!(
        e.timeline().audio_clips(tk)
            .unwrap()
            .len(),
        0
    );
}

#[test]
fn integrations_test_delete_audio_clips() {
    let mut e = dummy();
    let at = e.add_audio_track().unwrap();
    let tk = e.audio_timeline_track_key(at).unwrap();
    let ck = import_audio_clip(&mut e);

    let mut acs = Vec::new();
    for i in 0..42 {
        acs.push(
            e.timeline_mut().add_audio_clip(
                tk,
                ck,
                Timestamp::from_beats(i),
                Some(Timestamp::from_beats(1)),
            )
            .unwrap(),
        );
    }

    assert_eq!(
        e.timeline().audio_clips(tk)
            .unwrap()
            .len(),
        42
    );

    let r = e.timeline_mut().delete_audio_clips(acs);

    assert!(r.is_ok());
    assert_eq!(
        e.timeline().audio_clips(tk)
            .unwrap()
            .len(),
        0
    );
}

#[test]
fn integrations_test_reconstruct_audio_clip() {
    let mut e = dummy();
    let at = e.add_audio_track().unwrap();
    let tk = e.audio_timeline_track_key(at).unwrap();

    let ck = import_audio_clip(&mut e);
    let ac = e.timeline_mut()
        .add_audio_clip(
            tk,
            ck,
            Timestamp::from_beats(0),
            None,
        )
        .unwrap();

    let s = e.timeline_mut().delete_audio_clip(ac).unwrap();

    let ac_new = e.timeline_mut()
        .reconstruct_audio_clip(tk, s)
        .unwrap();

    assert_eq!(
        e.timeline().audio_clips(tk)
            .unwrap()
            .len(),
        1
    );
    assert_eq!(ac, ac_new);
}

#[test]
fn integrations_test_reconstruct_audio_clips() {
    let mut e = dummy();
    let at = e.add_audio_track().unwrap();
    let tk = e.audio_timeline_track_key(at).unwrap();

    let ck = import_audio_clip(&mut e);

    let mut acs = Vec::new();
    for i in 0..42 {
        let ac = e.timeline_mut()
            .add_audio_clip(
                tk,
                ck,
                Timestamp::from_beats(i),
                Some(Timestamp::from_beats(1)),
            )
            .unwrap();
        acs.push(ac);
    }

    let ss = e.timeline_mut().delete_audio_clips(acs.clone()).unwrap();

    let acs_new: Vec<AudioClipKey> = e.timeline_mut()
        .reconstruct_audio_clips(tk, ss)
        .unwrap();

    assert_eq!(
        e.timeline().audio_clips(tk)
            .unwrap()
            .len(),
        42
    );
    assert_eq!(acs, acs_new);
}

#[test]
fn integrations_test_move_audo_clip() {
    let mut e = dummy();
    let at = e.add_audio_track().unwrap();
    let tk = e.audio_timeline_track_key(at).unwrap();

    let ck = import_audio_clip(&mut e);
    let ack = e.timeline_mut()
        .add_audio_clip(
            tk,
            ck,
            Timestamp::from_beats(0),
            Some(Timestamp::from_beats(1)),
        )
        .unwrap();

    let r = e.timeline_mut().audio_clip_move(ack, Timestamp::from_beats(1));

    let ac = e.timeline().audio_clip(ack).unwrap();

    assert_eq!(r, Ok(()));
    assert_eq!(ac.start(), Timestamp::from_beats(1));
}

#[test]
fn integrations_test_move_audo_clip_overlapping() {
    let mut e = dummy();
    let at = e.add_audio_track().unwrap();
    let tk = e.audio_timeline_track_key(at).unwrap();

    let ck = import_audio_clip(&mut e);
    let ack = e.timeline_mut()
        .add_audio_clip(
            tk,
            ck,
            Timestamp::from_beats(0),
            Some(Timestamp::from_beats(1)),
        )
        .unwrap();
    e.timeline_mut().add_audio_clip(
        tk,
        ck,
        Timestamp::from_beats(1),
        Some(Timestamp::from_beats(2)),
    )
    .unwrap();

    let r = e.timeline_mut().audio_clip_move(ack, Timestamp::from_beats(2));

    let ac = e.timeline().audio_clip(ack).unwrap();

    assert_eq!(r, Err(MoveAudioClipError::Overlapping));
    assert_eq!(ac.start(), Timestamp::from_beats(0));
}

#[test]
fn integrations_test_crop_audio_clip_start() {
    let mut e = dummy();
    let at = e.add_audio_track().unwrap();
    let tk = e.audio_timeline_track_key(at).unwrap();

    let ck = import_audio_clip(&mut e);
    let ack = e.timeline_mut()
        .add_audio_clip(
            tk,
            ck,
            Timestamp::from_beats(0),
            Some(Timestamp::from_beats(2)),
        )
        .unwrap();

    let r = e.timeline_mut().audio_clip_crop_start(ack, Timestamp::from_beats(1));

    let ac = e.timeline().audio_clip(ack).unwrap();

    assert_eq!(r, Ok(()));
    assert_eq!(ac.start(), Timestamp::from_beats(1));
    assert_eq!(ac.length(e.timeline().bpm_cents()), Timestamp::from_beats(1));
}

#[test]
fn integrations_test_crop_audio_clip_start_overlapping() {
    let mut e = dummy();
    let at = e.add_audio_track().unwrap();
    let tk = e.audio_timeline_track_key(at).unwrap();

    let ck = import_audio_clip(&mut e);
    let ack = e.timeline_mut()
        .add_audio_clip(
            tk,
            ck,
            Timestamp::from_beats(0),
            Some(Timestamp::from_beats(2)),
        )
        .unwrap();
    e.timeline_mut().audio_clip_crop_start(ack, Timestamp::from_beats(1))
        .unwrap();

    e.timeline_mut().add_audio_clip(
        tk,
        ck,
        Timestamp::from_beats(0),
        Some(Timestamp::from_beats(1)),
    )
    .unwrap();

    let r = e.timeline_mut().audio_clip_crop_start(ack, Timestamp::from_beats(2));

    let ac = e.timeline().audio_clip(ack).unwrap();

    assert_eq!(r, Err(MoveAudioClipError::Overlapping));
    assert_eq!(ac.start(), Timestamp::from_beats(1));
    assert_eq!(ac.length(e.timeline().bpm_cents()), Timestamp::from_beats(1));
}

#[test]
fn integrations_test_crop_audio_clip_end() {
    let mut e = dummy();
    let at = e.add_audio_track().unwrap();
    let tk = e.audio_timeline_track_key(at).unwrap();

    let ck = import_audio_clip(&mut e);
    let ack = e.timeline_mut()
        .add_audio_clip(
            tk,
            ck,
            Timestamp::from_beats(0),
            Some(Timestamp::from_beats(2)),
        )
        .unwrap();

    let r = e.timeline_mut().audio_clip_crop_end(ack, Timestamp::from_beats(1));

    let ac = e.timeline().audio_clip(ack).unwrap();

    assert_eq!(r, Ok(()));
    assert_eq!(ac.start(), Timestamp::from_beats(0));
    assert_eq!(ac.length(e.timeline().bpm_cents()), Timestamp::from_beats(1));
}

#[test]
fn integrations_test_crop_audio_clip_end_overlapping() {
    let mut e = dummy();
    let at = e.add_audio_track().unwrap();
    let tk = e.audio_timeline_track_key(at).unwrap();

    let ck = import_audio_clip(&mut e);
    let ack = e.timeline_mut()
        .add_audio_clip(
            tk,
            ck,
            Timestamp::from_beats(0),
            Some(Timestamp::from_beats(1)),
        )
        .unwrap();
    e.timeline_mut().add_audio_clip(
        tk,
        ck,
        Timestamp::from_beats(1),
        Some(Timestamp::from_beats(1)),
    )
    .unwrap();

    let r = e.timeline_mut().audio_clip_crop_end(ack, Timestamp::from_beats(2));

    let ac = e.timeline().audio_clip(ack).unwrap();

    assert_eq!(r, Err(MoveAudioClipError::Overlapping));
    assert_eq!(ac.start(), Timestamp::from_beats(0));
    assert_eq!(ac.length(e.timeline().bpm_cents()), Timestamp::from_beats(1));
}

#[test]
fn integrations_test_move_audio_clip_to_another_track() {
    let mut e = dummy();
    let at1 = e.add_audio_track().unwrap();
    let tk1 = e.audio_timeline_track_key(at1).unwrap();
    let at2 = e.add_audio_track().unwrap();
    let tk2 = e.audio_timeline_track_key(at2).unwrap();

    let ck = import_audio_clip(&mut e);
    let ac = e.timeline_mut()
        .add_audio_clip(
            tk1,
            ck,
            Timestamp::from_beats(0),
            Some(Timestamp::from_beats(1)),
        )
        .unwrap();

    let r = e.timeline_mut().audio_clip_move_to_track(
        ac,
        Timestamp::from_beats(42),
        tk2,
    );

    assert!(r.is_ok());
    assert_eq!(
        e.timeline().audio_clips(tk1)
            .unwrap()
            .len(),
        0
    );
    assert_eq!(
        e.timeline().audio_clips(tk2)
            .unwrap()
            .len(),
        1
    );
    assert_eq!(e.timeline().audio_clip(ac).unwrap().start(), Timestamp::from_beats(42));
}

#[test]
fn integrations_test_move_audio_clip_to_another_track_overlapping() {
    let mut e = dummy();
    let at1 = e.add_audio_track().unwrap();
    let tk1 = e.audio_timeline_track_key(at1).unwrap();
    let at2 = e.add_audio_track().unwrap();
    let tk2 = e.audio_timeline_track_key(at2).unwrap();

    let ck = import_audio_clip(&mut e);
    let ac = e.timeline_mut()
        .add_audio_clip(
            tk1,
            ck,
            Timestamp::from_beats(0),
            Some(Timestamp::from_beats(1)),
        )
        .unwrap();
    e.timeline_mut().add_audio_clip(
        tk2,
        ck,
        Timestamp::from_beats(2),
        Some(Timestamp::from_beats(1)),
    )
    .unwrap();

    let r = e.timeline_mut().audio_clip_move_to_track(
        ac,
        Timestamp::from_beats(2),
        tk2,
    );

    assert_eq!(r, Err(MoveAudioClipToTrackError::Overlapping));
    assert_eq!(
        e.timeline().audio_clips(tk1)
            .unwrap()
            .len(),
        1
    );
    assert_eq!(
        e.timeline().audio_clips(tk2)
            .unwrap()
            .len(),
        1
    );
    assert_eq!(e.timeline().audio_clip(ac).unwrap().start(), Timestamp::from_beats(0));
}

#[test]
fn timeline_create_dummy_engine() {
    let e = dummy();
    assert_eq!(e.timeline().bpm_cents(), 12_000);
    assert_eq!(e.timeline().sample_rate(), 48_000);
}

#[test]
fn timeline_jump_to() {
    let mut e = dummy();
    e.timeline_mut().jump_to(Timestamp::from_beats(42));
    let events = e.timeline_mut().take_events();
    assert!(matches!(events.last(), Some(TimelineEvent::JumpTo { position }) if *position == Timestamp::from_beats(42)));
}

#[test]
fn mixer_tracks_set_panning() {
    let mut e = dummy();
    let at = e.add_audio_track().unwrap();
    let mk = e.audio_mixer_track_key(at).unwrap();
    let volume = e.mixer().track(mk).unwrap().volume;

    e.mixer_mut().set_track_parameters(mk, 0.123f32.to_bits(), volume).unwrap();

    assert_eq!(f32::from_bits(e.mixer().track(mk).unwrap().panning), 0.123);
}

#[test]
fn mixer_tracks_set_volume() {
    let mut e = dummy();
    let at = e.add_audio_track().unwrap();
    let mk = e.audio_mixer_track_key(at).unwrap();
    let panning = e.mixer().track(mk).unwrap().panning;

    e.mixer_mut().set_track_parameters(mk, panning, 0.123f32.to_bits()).unwrap();

    assert_eq!(f32::from_bits(e.mixer().track(mk).unwrap().volume), 0.123);
}

#[test]
fn stored_audio_clips_import_new_audio_clip() {
    let mut e = dummy();
    assert_eq!(e.timeline().state().audio_clip_store.clips.len(), 0);
    import_audio_clip(&mut e);
    assert_eq!(e.timeline().state().audio_clip_store.clips.len(), 1);
}

#[test]
fn stored_audio_clips_get_from_key() {
    let mut e = dummy();
    let ck = import_audio_clip(&mut e);

    let clips = e.timeline().state().audio_clip_store.clips;

    assert_eq!(clips.len(), 1);
    assert_eq!(clips[0].1, ck);
    assert!(e.timeline().stored_audio_clip(ck).is_ok());
}

#[test]
fn stored_audio_clips_length() {
    let mut e = dummy();
    let ck = import_audio_clip(&mut e);

    let ac = e.timeline().stored_audio_clip(ck).unwrap();

    assert_eq!(ac.length, 1_322_978);
}
