use adae::clip_store::{ImportStart, StoredClipInfo};
use adae::keys::{AudioClipKey, MixerTrackKey, StoredAudioClipKey, TimelineTrackKey};
use adae::timeline::{
    AddClipError, AudioClipReconstructionError, InvalidAudioClipError, InvalidAudioClipsError, InvalidTimelineTrackError,
    MoveAudioClipError, MoveAudioClipToTrackError, Timeline, TimelineEvent,
};
use adae::timestamp::Timestamp;

fn import_audio_clip(tl: &mut Timeline) -> StoredAudioClipKey {
    let path = String::from("test_files/44100 16-bit.wav");
    match tl.begin_import(&path).unwrap() {
        ImportStart::New(k) => {
            tl.finish_import(path, k, StoredClipInfo { length: 1_322_978, sample_rate: 44_100 });
            k
        }
        ImportStart::AlreadyImported(k) => k,
    }
}

#[test]
fn timeline_add_track() {
    let mut tl = Timeline::new(40_000, 12_000);

    for _ in 0..50 {
        tl.add_track(MixerTrackKey(0)).unwrap();
    }

    assert_eq!(tl.remaining_keys(), u32::MAX - 50);
    assert_eq!(tl.take_events().len(), 50);
}

#[test]
fn mod_add_track() {
    let mut tl = Timeline::new(40_000, 12_000);
    for _ in 0..50 {
        tl.add_track(MixerTrackKey(0)).unwrap();
    }
    assert_eq!(tl.remaining_keys(), u32::MAX - 50);
    assert_eq!(tl.state().tracks.len(), 50);
}

#[test]
fn timeline_add_clip() {
    let mut tl = Timeline::new(40_000, 12_000);

    let ck = import_audio_clip(&mut tl);
    let tk = tl.add_track(MixerTrackKey(0)).unwrap();
    tl.add_audio_clip(tk, ck, Timestamp::from_beat_units(0), None).unwrap();

    let events = tl.take_events();
    assert!(matches!(events.last(), Some(TimelineEvent::AddClip { track_key, .. }) if *track_key == tk));
}

#[test]
fn mod_add_clip() {
    let mut tl = Timeline::new(40_000, 12_000);
    let ck = import_audio_clip(&mut tl);
    let tk = tl.add_track(MixerTrackKey(0)).unwrap();
    let ak = tl.add_audio_clip(tk, ck, Timestamp::from_beat_units(0), None).unwrap();
    assert_eq!(tl.audio_clip(ak).unwrap().stored_clip(), ck);
    assert_eq!(tl.audio_clips(tk).unwrap().len(), 1);
}

#[test]
fn timeline_add_overlapping() {
    let mut tl = Timeline::new(40_000, 12_000);

    let ck = import_audio_clip(&mut tl);
    let tk = tl.add_track(MixerTrackKey(0)).unwrap();

    tl.add_audio_clip(tk, ck, Timestamp::from_beat_units(42), Some(Timestamp::from_beat_units(8))).unwrap();
    tl.add_audio_clip(tk, ck, Timestamp::from_beat_units(50), None).unwrap();
    let res = tl.add_audio_clip(tk, ck, Timestamp::from_beat_units(0), Some(Timestamp::from_beat_units(43)));

    assert_eq!(res, Err(AddClipError::Overlapping));
}

#[test]
fn mod_add_overlapping() {
    let mut tl = Timeline::new(40_000, 12_000);
    let ck = import_audio_clip(&mut tl);
    let tk = tl.add_track(MixerTrackKey(0)).unwrap();
    tl.add_audio_clip(tk, ck, Timestamp::from_beat_units(42), Some(Timestamp::from_beat_units(8))).unwrap();
    tl.add_audio_clip(tk, ck, Timestamp::from_beat_units(50), None).unwrap();
    let res = tl.add_audio_clip(tk, ck, Timestamp::from_beat_units(0), Some(Timestamp::from_beat_units(43)));
    assert_eq!(res, Err(AddClipError::Overlapping));
    assert_eq!(tl.audio_clips(tk).unwrap().len(), 2);
}

#[test]
fn delete_clip_immediately() {
    let mut tl = Timeline::new(40_000, 12_000);

    let ck = import_audio_clip(&mut tl);
    let tk = tl.add_track(MixerTrackKey(0)).unwrap();
    let ak = tl.add_audio_clip(tk, ck, Timestamp::from_beat_units(0), None).unwrap();

    tl.delete_audio_clip(ak).unwrap();
    assert_eq!(tl.audio_clips(tk).unwrap().len(), 0);
}

#[test]
fn delete_clip_delayed() {
    let mut tl = Timeline::new(40_000, 12_000);

    let ck = import_audio_clip(&mut tl);
    let tk = tl.add_track(MixerTrackKey(0)).unwrap();
    let ak = tl.add_audio_clip(tk, ck, Timestamp::from_beat_units(0), None).unwrap();
    tl.take_events();

    tl.delete_audio_clip(ak).unwrap();
    let events = tl.take_events();
    assert!(matches!(events[0], TimelineEvent::DeleteClip { track_key, clip_start } if track_key == tk && clip_start == Timestamp::zero()));
}

#[test]
fn add_clip_errors() {
    let mut tl = Timeline::new(48_000, 12_000);
    let ck = import_audio_clip(&mut tl);
    let tk = tl.add_track(MixerTrackKey(0)).unwrap();
    assert_eq!(
        tl.add_audio_clip(TimelineTrackKey(99), ck, Timestamp::zero(), None),
        Err(AddClipError::InvalidTimelineTrack(TimelineTrackKey(99)))
    );
    assert_eq!(
        tl.add_audio_clip(tk, StoredAudioClipKey(99), Timestamp::zero(), None),
        Err(AddClipError::InvalidClip(StoredAudioClipKey(99)))
    );
}

#[test]
fn clip_length_of_whole_stored_clip() {
    // 1322978 frames at 44.1 kHz played at 48 kHz are 1439977 frames; at 120 BPM one beat is
    // 24000 frames, so the clip lasts 61439.02 beat units: 61440 rounded up.
    let mut tl = Timeline::new(48_000, 12_000);
    let ck = import_audio_clip(&mut tl);
    let tk = tl.add_track(MixerTrackKey(0)).unwrap();
    let ak = tl.add_audio_clip(tk, ck, Timestamp::from_beats(1), None).unwrap();
    let c = tl.audio_clip(ak).unwrap();
    assert_eq!(c.source_frames, 1_439_977);
    assert_eq!(c.length(12_000).beat_units(), 61_440);
    assert_eq!(c.end(12_000).beat_units(), 1024 + 61_440);
}

#[test]
fn invalid_clip_errors() {
    let mut tl = Timeline::new(48_000, 12_000);
    assert_eq!(tl.audio_clip(AudioClipKey(3)), Err(InvalidAudioClipError { clip_key: AudioClipKey(3) }));
    assert_eq!(tl.delete_audio_clip(AudioClipKey(3)), Err(InvalidAudioClipError { clip_key: AudioClipKey(3) }));
    assert_eq!(tl.audio_clips(TimelineTrackKey(1)).unwrap_err(), InvalidTimelineTrackError { key: TimelineTrackKey(1) });
    assert_eq!(
        tl.audio_clip_move(AudioClipKey(3), Timestamp::zero()),
        Err(MoveAudioClipError::InvalidClip(InvalidAudioClipError { clip_key: AudioClipKey(3) }))
    );
    let ck = import_audio_clip(&mut tl);
    let tk = tl.add_track(MixerTrackKey(0)).unwrap();
    let ak = tl.add_audio_clip(tk, ck, Timestamp::zero(), Some(Timestamp::from_beats(1))).unwrap();
    assert_eq!(
        tl.delete_audio_clips(vec![AudioClipKey(7), ak, AudioClipKey(8)]).unwrap_err(),
        InvalidAudioClipsError { keys: vec![AudioClipKey(7), AudioClipKey(8)] }
    );
    assert_eq!(tl.audio_clips(tk).unwrap().len(), 1);
    assert_eq!(
        tl.audio_clip_move_to_track(ak, Timestamp::zero(), TimelineTrackKey(42)),
        Err(MoveAudioClipToTrackError::InvalidNewTrack { track_key: TimelineTrackKey(42) })
    );
}

#[test]
fn reconstruct_clip_errors() {
    let mut tl = Timeline::new(48_000, 12_000);
    let ck = import_audio_clip(&mut tl);
    let tk = tl.add_track(MixerTrackKey(0)).unwrap();
    let ak = tl.add_audio_clip(tk, ck, Timestamp::zero(), Some(Timestamp::from_beats(2))).unwrap();
    let other = tl.add_audio_clip(tk, ck, Timestamp::from_beats(2), Some(Timestamp::from_beats(1))).unwrap();
    let s = tl.audio_clip(ak).unwrap().state();
    assert_eq!(tl.reconstruct_audio_clip(tk, s), Err(AudioClipReconstructionError::KeyInUse(ak)));
    let s = tl.delete_audio_clip(ak).unwrap();
    assert_eq!(tl.reconstruct_audio_clip(TimelineTrackKey(5), s), Err(AudioClipReconstructionError::InvalidTrack(TimelineTrackKey(5))));
    tl.audio_clip_move(other, Timestamp::from_beats(1)).unwrap();
    assert_eq!(tl.reconstruct_audio_clip(tk, s), Err(AudioClipReconstructionError::Overlapping));
    let mut bad = s;
    bad.inner = StoredAudioClipKey(77);
    assert_eq!(tl.reconstruct_audio_clip(tk, bad), Err(AudioClipReconstructionError::InvalidStoredClip(StoredAudioClipKey(77))));
}

#[test]
fn freed_clip_key_is_reused_by_the_next_clip() {
    let mut tl = Timeline::new(48_000, 12_000);
    let ck = import_audio_clip(&mut tl);
    let tk = tl.add_track(MixerTrackKey(0)).unwrap();
    let ak = tl.add_audio_clip(tk, ck, Timestamp::zero(), Some(Timestamp::from_beats(2))).unwrap();
    let s = tl.delete_audio_clip(ak).unwrap();
    let again = tl.add_audio_clip(tk, ck, Timestamp::from_beats(4), None).unwrap();
    assert_eq!(again, ak);
    assert_eq!(tl.reconstruct_audio_clip(tk, s), Err(AudioClipReconstructionError::KeyInUse(ak)));
}

#[test]
fn delete_then_reconstruct_clip_restores_it() {
    let mut tl = Timeline::new(48_000, 12_000);
    let ck = import_audio_clip(&mut tl);
    let tk = tl.add_track(MixerTrackKey(0)).unwrap();
    let ak = tl.add_audio_clip(tk, ck, Timestamp::from_beats(3), Some(Timestamp::from_beats(2))).unwrap();
    tl.audio_clip_crop_start(ak, Timestamp::from_beats(1)).unwrap();
    let before = tl.audio_clip(ak).unwrap();
    let s = tl.delete_audio_clip(ak).unwrap();
    assert_eq!(s, before.state());
    assert_eq!(tl.reconstruct_audio_clip(tk, s), Ok(ak));
    assert_eq!(tl.audio_clip(ak).unwrap(), before);
}

#[test]
fn batch_delete_and_reconstruct_clips() {
    let mut tl = Timeline::new(48_000, 12_000);
    let ck = import_audio_clip(&mut tl);
    let tk = tl.add_track(MixerTrackKey(0)).unwrap();
    let mut keys = Vec::new();
    for i in 0..10 {
        keys.push(tl.add_audio_clip(tk, ck, Timestamp::from_beats(i), Some(Timestamp::from_beats(1))).unwrap());
    }
    let states = tl.delete_audio_clips(keys.clone()).unwrap();
    assert_eq!(states.len(), 10);
    assert_eq!(tl.audio_clips(tk).unwrap().len(), 0);
    assert_eq!(tl.reconstruct_audio_clips(tk, states.clone()), Ok(keys.clone()));
    assert_eq!(tl.audio_clips(tk).unwrap().len(), 10);
    // A batch whose clips overlap each other is refused as a whole.
    let states = tl.delete_audio_clips(keys.clone()).unwrap();
    let mut overlapping = states.clone();
    overlapping[1].start = Timestamp::zero();
    assert_eq!(tl.reconstruct_audio_clips(tk, overlapping), Err(AudioClipReconstructionError::Overlapping));
    assert_eq!(tl.audio_clips(tk).unwrap().len(), 0);
    let mut reused = states.clone();
    let taken = tl.add_audio_clip(tk, ck, Timestamp::from_beats(100), None).unwrap();
    reused[2].key = taken;
    assert_eq!(tl.reconstruct_audio_clips(tk, reused), Err(AudioClipReconstructionError::KeyInUse(taken)));
}

#[test]
fn move_and_crop() {
    let mut tl = Timeline::new(48_000, 12_000);
    let ck = import_audio_clip(&mut tl);
    let tk = tl.add_track(MixerTrackKey(0)).unwrap();
    let a = tl.add_audio_clip(tk, ck, Timestamp::zero(), Some(Timestamp::from_beats(1))).unwrap();
    let b = tl.add_audio_clip(tk, ck, Timestamp::from_beats(2), Some(Timestamp::from_beats(1))).unwrap();

    assert_eq!(tl.audio_clip_move(a, Timestamp::from_beats(1)), Ok(()));
    assert_eq!(tl.audio_clip(a).unwrap().start(), Timestamp::from_beats(1));
    assert_eq!(tl.audio_clip_move(a, Timestamp::from_beats(2)), Err(MoveAudioClipError::Overlapping));

    assert_eq!(tl.audio_clip_crop_end(a, Timestamp::from_beats(2)), Err(MoveAudioClipError::Overlapping));
    assert_eq!(tl.audio_clip_crop_end(b, Timestamp::from_beats(5)), Ok(()));
    assert_eq!(tl.audio_clip(b).unwrap().length(12_000), Timestamp::from_beats(5));

    // `b` starts at the start of its stored clip: its start cannot move earlier.
    assert_eq!(tl.audio_clip_crop_start(b, Timestamp::from_beats(6)), Ok(()));
    assert_eq!(tl.audio_clip(b).unwrap().start(), Timestamp::from_beats(2));
    // Cropping it shorter moves the start and the offset into the stored clip.
    assert_eq!(tl.audio_clip_crop_start(b, Timestamp::from_beats(4)), Ok(()));
    let c = tl.audio_clip(b).unwrap();
    assert_eq!(c.start(), Timestamp::from_beats(3));
    assert_eq!(c.length(12_000), Timestamp::from_beats(4));
    assert_eq!(c.start_offset, 24_000);
    // Extending it back by a beat would now overlap `a`, moved next to it.
    tl.audio_clip_move(a, Timestamp::from_beats(2)).unwrap();
    assert_eq!(tl.audio_clip_crop_start(b, Timestamp::from_beats(5)), Err(MoveAudioClipError::Overlapping));
    assert_eq!(tl.audio_clip(b).unwrap(), c);
}

#[test]
fn crop_start_is_capped_at_the_stored_clip() {
    let mut tl = Timeline::new(48_000, 12_000);
    let ck = import_audio_clip(&mut tl);
    let tk = tl.add_track(MixerTrackKey(0)).unwrap();
    let a = tl.add_audio_clip(tk, ck, Timestamp::from_beats(1), Some(Timestamp::from_beats(2))).unwrap();
    tl.audio_clip_crop_start(a, Timestamp::from_beats(1)).unwrap();
    tl.audio_clip_crop_start(a, Timestamp::from_beats(3)).unwrap();
    let c = tl.audio_clip(a).unwrap();
    assert_eq!(c.start(), Timestamp::from_beats(1));
    assert_eq!(c.length(12_000), Timestamp::from_beats(2));
    assert_eq!(c.start_offset, 0);
    // At the start of the timeline the start is capped too.
    let b = tl.add_audio_clip(tk, ck, Timestamp::from_beats(10), Some(Timestamp::from_beats(3))).unwrap();
    tl.audio_clip_crop_start(b, Timestamp::from_beats(2)).unwrap();
    tl.audio_clip_move(b, Timestamp::zero()).unwrap_err();
    tl.audio_clip_move(b, Timestamp::from_beats(4)).unwrap();
    tl.audio_clip_crop_start(b, Timestamp::from_beats(9)).unwrap();
    let c = tl.audio_clip(b).unwrap();
    assert_eq!(c.start(), Timestamp::from_beats(3));
    assert_eq!(c.length(12_000), Timestamp::from_beats(3));
}

#[test]
fn move_to_another_track() {
    let mut tl = Timeline::new(48_000, 12_000);
    let ck = import_audio_clip(&mut tl);
    let t1 = tl.add_track(MixerTrackKey(0)).unwrap();
    let t2 = tl.add_track(MixerTrackKey(1)).unwrap();
    let a = tl.add_audio_clip(t1, ck, Timestamp::zero(), Some(Timestamp::from_beats(1))).unwrap();
    tl.add_audio_clip(t2, ck, Timestamp::from_beats(2), Some(Timestamp::from_beats(1))).unwrap();
    assert_eq!(tl.audio_clip_move_to_track(a, Timestamp::from_beats(2), t2), Err(MoveAudioClipToTrackError::Overlapping));
    assert_eq!(tl.audio_clip_move_to_track(a, Timestamp::from_beats(42), t2), Ok(()));
    assert_eq!(tl.audio_clips(t1).unwrap().len(), 0);
    assert_eq!(tl.audio_clips(t2).unwrap().len(), 2);
    assert_eq!(tl.audio_clip(a).unwrap().start(), Timestamp::from_beats(42));
    // The clip now belongs to its new track: deleting it empties that track.
    tl.delete_audio_clip(a).unwrap();
    assert_eq!(tl.audio_clips(t2).unwrap().len(), 1);
}

#[test]
fn tracks_and_state() {
    let mut tl = Timeline::new(48_000, 12_000);
    let ck = import_audio_clip(&mut tl);
    let ks = tl.add_tracks(vec![MixerTrackKey(3), MixerTrackKey(4)]).unwrap();
    assert_eq!(ks.len(), 2);
    tl.add_audio_clip(ks[1], ck, Timestamp::zero(), None).unwrap();
    let ts = tl.track_state(ks[1]).unwrap();
    assert_eq!(ts.output_track, MixerTrackKey(4));
    assert_eq!(ts.clips.len(), 1);
    assert_eq!(tl.delete_tracks(vec![ks[0], TimelineTrackKey(9)]), Err(InvalidTimelineTrackError { key: TimelineTrackKey(9) }));
    tl.delete_track(ks[1]).unwrap();
    assert!(!tl.key_in_use(ks[1]));
    tl.reconstruct_track(&ts);
    assert_eq!(tl.audio_clips(ks[1]).unwrap().len(), 1);
    tl.jump_to(Timestamp::from_beats(4));
    let events = tl.take_events();
    assert!(matches!(events.last(), Some(TimelineEvent::JumpTo { position }) if *position == Timestamp::from_beats(4)));

    let state = tl.state();
    assert_eq!(state.bpm_cents, 12_000);
    assert_eq!(state.tracks.len(), 2);
    assert_eq!(state.audio_clip_store.clips.len(), 1);
}

#[test]
fn import_twice_gives_the_same_key() {
    let mut tl = Timeline::new(48_000, 12_000);
    let a = import_audio_clip(&mut tl);
    let b = import_audio_clip(&mut tl);
    assert_eq!(a, b);
    assert_eq!(tl.stored_audio_clip(a).unwrap().length, 1_322_978);
}
