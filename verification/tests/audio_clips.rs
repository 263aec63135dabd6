use adae::clip_store::{AudioClipStore, AudioClipStoreState, ImportStart, StoredClipInfo};
use adae::engine::{EngineCore, EngineState, ProcessorState};
use adae::keys::{AudioClipKey, MixerTrackKey, StoredAudioClipKey};
use adae::mixer::{MixerState, MixerTrackState, CENTRED, UNITY_GAIN};
use adae::timeline::{MoveAudioClipError, MoveAudioClipToTrackError, TimelineState};
use adae::timestamp::Timestamp;

fn dummy() -> EngineCore {
    let state = EngineState {
        processor: ProcessorState {
            mixer: MixerState {
                tracks: Vec::new(),
                master: MixerTrackState { key: MixerTrackKey(0), panning: CENTRED, volume: UNITY_GAIN },
            },
            timeline: TimelineState {
                bpm_cents: 12_000,
                audio_clip_store: AudioClipStoreState { clips: Vec::new() },
                tracks: Vec::new(),
            },
        },
        audio_tracks: Vec::new(),
    };
    EngineCore::from_state(&state, 48_000, AudioClipStore::new())
}

fn import_audio_clip(e: &mut EngineCore) -> StoredAudioClipKey {
    let path = String::from("test_files/44100 16-bit.wav");
    match e.timeline_mut().begin_import(&path).unwrap() {
        ImportStart::New(k) => {
            e.timeline_mut().finish_import(path, k, StoredClipInfo { length: 1_322_978, sample_rate: 44_100 });
            k
        }
        ImportStart::AlreadyImported(k) => k,
    }
}

#[test]
fn audio_clips_add_audio_clip() {
    let mut e = dummy();
    let at = e.add_audio_track().unwrap();
    let tk = e.audio_timeline_track_key(at).unwrap();

    assert_eq!(
        e.timeline().audio_clips(tk)
            .unwrap()
            .len(),
        0
    );

    let ck = import_audio_clip(&mut e);
    let r = e.timeline_mut().add_audio_clip(
        tk,
        ck,
        Timestamp::from_beats(0),
        None,
    );

    assert!(r.is_ok());
    assert_eq!(
        e.timeline().audio_clips(tk)
            .unwrap()
            .len(),
        1
    );
}

#[test]
fn audio_clips_delete_audio_clip() {
    let mut e = dummy();
    let at = e.add_audio_track().unwrap();
    let tk = e.audio_timeline_track_key(at).unwrap();

    let ck = import_audio_clip(&mut e);
    let ac = e.timeline_mut()
        .add_audio_clip(
            tk,
            ck,
            Timestamp::from_beats(0),
            None,
        )
        .unwrap();

    assert_eq!(
        e.timeline().audio_clips(tk)
            .unwrap()
            .len(),
        1
    );

    let r = e.timeline_mut().delete_audio_clip(ac);

    assert!(r.is_ok());
    assert_eq!(
        e.timeline().audio_clips(tk)
            .unwrap()
            .len(),
        0
    );
}

#[test]
fn audio_clips_delete_audio_clips() {
    let mut e = dummy();
    let at = e.add_audio_track().unwrap();
    let tk = e.audio_timeline_track_key(at).unwrap();
    let ck = import_audio_clip(&mut e);

    let mut acs = Vec::new();
    for i in 0..42 {
        acs.push(
            e.timeline_mut().add_audio_clip(
                tk,
                ck,
                Timestamp::from_beats(i),
                Some(Timestamp::from_beats(1)),
            )
            .unwrap(),
        );
    }

    assert_eq!(
        e.timeline().audio_clips(tk)
            .unwrap()
            .len(),
        42
    );

    let r = e.timeline_mut().delete_audio_clips(acs);

    assert!(r.is_ok());
    assert_eq!(
        e.timeline().audio_clips(tk)
            .unwrap()
            .len(),
        0
    );
}

#[test]
fn audio_clips_reconstruct_audio_clip() {
    let mut e = dummy();
    let at = e.add_audio_track().unwrap();
    let tk = e.audio_timeline_track_key(at).unwrap();

    let ck = import_audio_clip(&mut e);
    let ac = e.timeline_mut()
        .add_audio_clip(
            tk,
            ck,
            Timestamp::from_beats(0),
            None,
        )
        .unwrap();

    let s = e.timeline_mut().delete_audio_clip(ac).unwrap();

    let ac_new = e.timeline_mut()
        .reconstruct_audio_clip(tk, s)
        .unwrap();

    assert_eq!(
        e.timeline().audio_clips(tk)
            .unwrap()
            .len(),
        1
    );
    assert_eq!(ac, ac_new);
}

#[test]
fn audio_clips_reconstruct_audio_clips() {
    let mut e = dummy();
    let at = e.add_audio_track().unwrap();
    let tk = e.audio_timeline_track_key(at).unwrap();

    let ck = import_audio_clip(&mut e);

    let mut acs = Vec::new();
    for i in 0..42 {
        let ac = e.timeline_mut()
            .add_audio_clip(
                tk,
                ck,
                Timestamp::from_beats(i),
                Some(Timestamp::from_beats(1)),
            )
            .unwrap();
        acs.push(ac);
    }

    let ss = e.timeline_mut().delete_audio_clips(acs.clone()).unwrap();

    let acs_new: Vec<AudioClipKey> = e.timeline_mut()
        .reconstruct_audio_clips(tk, ss)
        .unwrap();

    assert_eq!(
        e.timeline().audio_clips(tk)
            .unwrap()
            .len(),
        42
    );
    assert_eq!(acs, acs_new);
}

#[test]
fn audio_clips_move_audo_clip() {
    let mut e = dummy();
    let at = e.add_audio_track().unwrap();
    let tk = e.audio_timeline_track_key(at).unwrap();

    let ck = import_audio_clip(&mut e);
    let ack = e.timeline_mut()
        .add_audio_clip(
            tk,
            ck,
            Timestamp::from_beats(0),
            Some(Timestamp::from_beats(1)),
        )
        .unwrap();

    let r = e.timeline_mut().audio_clip_move(ack, Timestamp::from_beats(1));

    let ac = e.timeline().audio_clip(ack).unwrap();

    assert_eq!(r, Ok(()));
    assert_eq!(ac.start(), Timestamp::from_beats(1));
}

#[test]
fn audio_clips_move_audo_clip_overlapping() {
    let mut e = dummy();
    let at = e.add_audio_track().unwrap();
    let tk = e.audio_timeline_track_key(at).unwrap();

    let ck = import_audio_clip(&mut e);
    let ack = e.timeline_mut()
        .add_audio_clip(
            tk,
            ck,
            Timestamp::from_beats(0),
            Some(Timestamp::from_beats(1)),
        )
        .unwrap();
    e.timeline_mut().add_audio_clip(
        tk,
        ck,
        Timestamp::from_beats(1),
        Some(Timestamp::from_beats(2)),
    )
    .unwrap();

    let r = e.timeline_mut().audio_clip_move(ack, Timestamp::from_beats(2));

    let ac = e.timeline().audio_clip(ack).unwrap();

    assert_eq!(r, Err(MoveAudioClipError::Overlapping));
    assert_eq!(ac.start(), Timestamp::from_beats(0));
}

#[test]
fn audio_clips_crop_audio_clip_start() {
    let mut e = dummy();
    let at = e.add_audio_track().unwrap();
    let tk = e.audio_timeline_track_key(at).unwrap();

    let ck = import_audio_clip(&mut e);
    let ack = e.timeline_mut()
        .add_audio_clip(
            tk,
            ck,
            Timestamp::from_beats(0),
            Some(Timestamp::from_beats(2)),
        )
        .unwrap();

    let r = e.timeline_mut().audio_clip_crop_start(ack, Timestamp::from_beats(1));

    let ac = e.timeline().audio_clip(ack).unwrap();

    assert_eq!(r, Ok(()));
    assert_eq!(ac.start(), Timestamp::from_beats(1));
    assert_eq!(ac.length(e.timeline().bpm_cents()), Timestamp::from_beats(1));
}

#[test]
fn audio_clips_crop_audio_clip_start_overlapping() {
    let mut e = dummy();
    let at = e.add_audio_track().unwrap();
    let tk = e.audio_timeline_track_key(at).unwrap();

    let ck = import_audio_clip(&mut e);
    let ack = e.timeline_mut()
        .add_audio_clip(
            tk,
            ck,
            Timestamp::from_beats(0),
            Some(Timestamp::from_beats(2)),
        )
        .unwrap();
    e.timeline_mut().audio_clip_crop_start(ack, Timestamp::from_beats(1))
        .unwrap();

    e.timeline_mut().add_audio_clip(
        tk,
        ck,
        Timestamp::from_beats(0),
        Some(Timestamp::from_beats(1)),
    )
    .unwrap();

    let r = e.timeline_mut().audio_clip_crop_start(ack, Timestamp::from_beats(2));

    let ac = e.timeline().audio_clip(ack).unwrap();

    assert_eq!(r, Err(MoveAudioClipError::Overlapping));
    assert_eq!(ac.start(), Timestamp::from_beats(1));
    assert_eq!(ac.length(e.timeline().bpm_cents()), Timestamp::from_beats(1));
}

#[test]
fn crop_audio_clip_start_too_long() {
    let mut e = dummy();
    let at = e.add_audio_track().unwrap();
    let tk = e.audio_timeline_track_key(at).unwrap();

    let ck = import_audio_clip(&mut e);
    let ack = e.timeline_mut()
        .add_audio_clip(
            tk,
            ck,
            Timestamp::from_beats(1),
            Some(Timestamp::from_beats(2)),
        )
        .unwrap();

    // When stretched beyond its original length
    e.timeline_mut().audio_clip_crop_start(ack, Timestamp::from_beats(1))
        .unwrap();
    e.timeline_mut().audio_clip_crop_start(ack, Timestamp::from_beats(3))
        .unwrap();

    let ac = e.timeline().audio_clip(ack).unwrap();

    // Then it's capped at the original length
    assert_eq!(ac.start(), Timestamp::from_beats(1));
    assert_eq!(ac.length(e.timeline().bpm_cents()), Timestamp::from_beats(2));
}

#[test]
fn crop_audio_clip_start_originally_before_zero() {
    let mut e = dummy();
    let at = e.add_audio_track().unwrap();
    let tk = e.audio_timeline_track_key(at).unwrap();

    // Given a clip whose inner start is before zero
    let ck = import_audio_clip(&mut e);
    let ack = e.timeline_mut()
        .add_audio_clip(
            tk,
            ck,
            Timestamp::from_beats(0),
            Some(Timestamp::from_beats(3)),
        )
        .unwrap();
    e.timeline_mut().audio_clip_crop_start(ack, Timestamp::from_beats(2))
        .unwrap();
    e.timeline_mut().audio_clip_move(ack, Timestamp::from_beats(0)).unwrap();

    // When start is cropped it should not overflow
    e.timeline_mut().audio_clip_crop_start(ack, Timestamp::from_beats(1))
        .unwrap();
}

#[test]
fn audio_clips_crop_audio_clip_end() {
    let mut e = dummy();
    let at = e.add_audio_track().unwrap();
    let tk = e.audio_timeline_track_key(at).unwrap();

    let ck = import_audio_clip(&mut e);
    let ack = e.timeline_mut()
        .add_audio_clip(
            tk,
            ck,
            Timestamp::from_beats(0),
            Some(Timestamp::from_beats(2)),
        )
        .unwrap();

    let r = e.timeline_mut().audio_clip_crop_end(ack, Timestamp::from_beats(1));

    let ac = e.timeline().audio_clip(ack).unwrap();

    assert_eq!(r, Ok(()));
    assert_eq!(ac.start(), Timestamp::from_beats(0));
    assert_eq!(ac.length(e.timeline().bpm_cents()), Timestamp::from_beats(1));
}

#[test]
fn audio_clips_crop_audio_clip_end_overlapping() {
    let mut e = dummy();
    let at = e.add_audio_track().unwrap();
    let tk = e.audio_timeline_track_key(at).unwrap();

    let ck = import_audio_clip(&mut e);
    let ack = e.timeline_mut()
        .add_audio_clip(
            tk,
            ck,
            Timestamp::from_beats(0),
            Some(Timestamp::from_beats(1)),
        )
        .unwrap();
    e.timeline_mut().add_audio_clip(
        tk,
        ck,
        Timestamp::from_beats(1),
        Some(Timestamp::from_beats(1)),
    )
    .unwrap();

    let r = e.timeline_mut().audio_clip_crop_end(ack, Timestamp::from_beats(2));

    let ac = e.timeline().audio_clip(ack).unwrap();

    assert_eq!(r, Err(MoveAudioClipError::Overlapping));
    assert_eq!(ac.start(), Timestamp::from_beats(0));
    assert_eq!(ac.length(e.timeline().bpm_cents()), Timestamp::from_beats(1));
}

#[test]
fn audio_clips_move_audio_clip_to_another_track() {
    let mut e = dummy();
    let at1 = e.add_audio_track().unwrap();
    let tk1 = e.audio_timeline_track_key(at1).unwrap();
    let at2 = e.add_audio_track().unwrap();
    let tk2 = e.audio_timeline_track_key(at2).unwrap();

    let ck = import_audio_clip(&mut e);
    let ac = e.timeline_mut()
        .add_audio_clip(
            tk1,
            ck,
            Timestamp::from_beats(0),
            Some(Timestamp::from_beats(1)),
        )
        .unwrap();

    let r = e.timeline_mut().audio_clip_move_to_track(
        ac,
        Timestamp::from_beats(42),
        tk2,
    );

    assert!(r.is_ok());
    assert_eq!(
        e.timeline().audio_clips(tk1)
            .unwrap()
            .len(),
        0
    );
    assert_eq!(
        e.timeline().audio_clips(tk2)
            .unwrap()
            .len(),
        1
    );
    assert_eq!(e.timeline().audio_clip(ac).unwrap().start(), Timestamp::from_beats(42));
}

#[test]
fn audio_clips_move_audio_clip_to_another_track_overlapping() {
    let mut e = dummy();
    let at1 = e.add_audio_track().unwrap();
    let tk1 = e.audio_timeline_track_key(at1).unwrap();
    let at2 = e.add_audio_track().unwrap();
    let tk2 = e.audio_timeline_track_key(at2).unwrap();

    let ck = import_audio_clip(&mut e);
    let ac = e.timeline_mut()
        .add_audio_clip(
            tk1,
            ck,
            Timestamp::from_beats(0),
            Some(Timestamp::from_beats(1)),
        )
        .unwrap();
    e.timeline_mut().add_audio_clip(
        tk2,
        ck,
        Timestamp::from_beats(2),
        Some(Timestamp::from_beats(1)),
    )
    .unwrap();

    let r = e.timeline_mut().audio_clip_move_to_track(
        ac,
        Timestamp::from_beats(2),
        tk2,
    );

    assert_eq!(r, Err(MoveAudioClipToTrackError::Overlapping));
    assert_eq!(
        e.timeline().audio_clips(tk1)
            .unwrap()
            .len(),
        1
    );
    assert_eq!(
        e.timeline().audio_clips(tk2)
            .unwrap()
            .len(),
        1
    );
    assert_eq!(e.timeline().audio_clip(ac).unwrap().start(), Timestamp::from_beats(0));
}

