use adae::clip_store::{AudioClipStore, AudioClipStoreState, ImportStart, StoredClipInfo};
use adae::engine::{EngineCore, EngineState, ProcessorState};
use adae::keys::{AudioClipKey, MixerTrackKey, StoredAudioClipKey};
use adae::mixer::{MixerState, MixerTrackState, CENTRED, UNITY_GAIN};
use adae::playback::{AudioClipProcessor, TimelineTrackProcessor};
use adae::timeline::{TimelineEvent, TimelineState};
use adae::timestamp::Timestamp;

fn dummy() -> EngineCore {
    let state = EngineState {
        processor: ProcessorState {
            mixer: MixerState {
                tracks: Vec::new(),
                master: MixerTrackState { key: MixerTrackKey(0), panning: CENTRED, volume: UNITY_GAIN },
            },
            timeline: TimelineState {
                bpm_cents: 12_000,
                audio_clip_store: AudioClipStoreState { clips: Vec::new() },
                tracks: Vec::new(),
            },
        },
        audio_tracks: Vec::new(),
    };
    EngineCore::from_state(&state, 48_000, AudioClipStore::new())
}

fn import_audio_clip(e: &mut EngineCore) -> StoredAudioClipKey {
    let path = String::from("test_files/44100 16-bit.wav");
    match e.timeline_mut().begin_import(&path).unwrap() {
        ImportStart::New(k) => {
            e.timeline_mut().finish_import(path, k, StoredClipInfo { length: 1_322_978, sample_rate: 44_100 });
            k
        }
        ImportStart::AlreadyImported(k) => k,
    }
}

/// Applies the timeline's events to the audio thread's copy of one track, as the audio thread does.
fn follow(e: &mut EngineCore, copy: &mut TimelineTrackProcessor) {
    let position = Timestamp::zero();
    for event in e.timeline_mut().take_events() {
        match event {
            TimelineEvent::AddClip { clip, .. } => {
                copy.insert_clip(AudioClipProcessor::from_state(&clip, 1_440_000), position);
            }
            TimelineEvent::DeleteClip { clip_start, .. } => {
                copy.delete_clip(clip_start, position);
            }
            TimelineEvent::MoveAudioClip { old_start, new_start, .. } => {
                copy.move_clip(old_start, new_start, position);
            }
            TimelineEvent::CropAudioClipStart { old_start, new_start, new_length, new_start_offset, .. } => {
                copy.crop_clip_start(old_start, new_start, new_length, new_start_offset, position);
            }
            TimelineEvent::CropAudioClipEnd { clip_start, new_length, .. } => {
                copy.crop_clip_end(clip_start, new_length, position);
            }
            _ => {}
        }
    }
}

fn timeline_clips(e: &EngineCore, tk: adae::TimelineTrackKey) -> Vec<(AudioClipKey, Timestamp, Option<Timestamp>)> {
    let mut v: Vec<_> = e.timeline().audio_clips(tk).unwrap().iter().map(|c| (c.key, c.start, c.length)).collect();
    v.sort_by_key(|c| c.0 .0);
    v
}

fn copy_clips(copy: &TimelineTrackProcessor) -> Vec<(AudioClipKey, Timestamp, Option<Timestamp>)> {
    let mut v: Vec<_> = (0..copy.len()).map(|i| copy.clip(i)).map(|c| (c.key, c.start, c.length)).collect();
    v.sort_by_key(|c| c.0 .0);
    v
}

#[test]
fn audio_thread_copy_mirrors_the_track() {
    let mut e = dummy();
    let at = e.add_audio_track().unwrap();
    let tk = e.audio_timeline_track_key(at).unwrap();
    let ck = import_audio_clip(&mut e);
    let mut copy = TimelineTrackProcessor::new(MixerTrackKey(1), 48_000, 12_000);
    follow(&mut e, &mut copy);

    let a = e.timeline_mut().add_audio_clip(tk, ck, Timestamp::from_beats(0), Some(Timestamp::from_beats(2))).unwrap();
    let b = e.timeline_mut().add_audio_clip(tk, ck, Timestamp::from_beats(4), Some(Timestamp::from_beats(2))).unwrap();
    let c = e.timeline_mut().add_audio_clip(tk, ck, Timestamp::from_beats(8), None).unwrap();
    follow(&mut e, &mut copy);
    assert_eq!(copy.len(), 3);
    assert_eq!(copy_clips(&copy), timeline_clips(&e, tk));

    e.timeline_mut().audio_clip_move(a, Timestamp::from_beats(2)).unwrap();
    follow(&mut e, &mut copy);
    assert_eq!(copy_clips(&copy), timeline_clips(&e, tk));

    e.timeline_mut().audio_clip_crop_end(b, Timestamp::from_beats(3)).unwrap();
    follow(&mut e, &mut copy);
    assert_eq!(copy_clips(&copy), timeline_clips(&e, tk));

    e.timeline_mut().audio_clip_crop_start(c, Timestamp::from_beats(1)).unwrap();
    follow(&mut e, &mut copy);
    assert_eq!(copy_clips(&copy), timeline_clips(&e, tk));

    e.timeline_mut().delete_audio_clip(b).unwrap();
    follow(&mut e, &mut copy);
    assert_eq!(copy.len(), 2);
    assert_eq!(copy_clips(&copy), timeline_clips(&e, tk));
}
