use adae::keys::MixerTrackKey;
use adae::mixer::{
    InvalidMixerTrackError, Mixer, MixerEvent, MixerState, MixerTrackOverflowError, MixerTrackState, CENTRED, UNITY_GAIN,
};

fn empty_mixer() -> Mixer {
    Mixer::from_state(&MixerState {
        tracks: Vec::new(),
        master: MixerTrackState { key: MixerTrackKey(0), panning: CENTRED, volume: UNITY_GAIN },
    })
}

#[test]
fn mixer_add_track() {
    let mut m = empty_mixer();

    for _ in 0..50 {
        m.add_track().unwrap();
    }

    assert_eq!(m.state().tracks.len(), 50);
    assert_eq!(m.take_events().len(), 50);
}

#[test]
fn add_tracks() {
    let mut m = empty_mixer();

    for _ in 0..50 {
        m.add_tracks(5).unwrap();
    }

    assert_eq!(m.state().tracks.len(), 50 * 5);
    assert_eq!(m.remaining_keys(), u32::MAX - 250);
    assert_eq!(m.add_tracks(u32::MAX), Err(MixerTrackOverflowError));
}

#[test]
fn reconstruct_track() {
    let mut m = empty_mixer();

    let mut keys = Vec::new();
    for _ in 0..50 {
        keys.push(m.add_track().unwrap());
    }

    let mut states = Vec::new();
    for key in keys {
        let state = m.track(key).unwrap();
        m.delete_track(key).unwrap();
        states.push(state);
    }

    for state in states {
        m.reconstruct_track(&state);
    }

    assert_eq!(m.state().tracks.len(), 50);
}

#[test]
fn reconstruct_tracks() {
    let mut m = empty_mixer();

    let batch_size = 5;

    let states: Vec<MixerTrackState> = (1..50 * batch_size + 1)
        .map(|key| MixerTrackState { panning: CENTRED, volume: UNITY_GAIN, key: MixerTrackKey(key as u32) })
        .collect();

    for state in states.chunks(batch_size) {
        m.reconstruct_tracks(&state.to_vec());
    }

    assert_eq!(m.state().tracks.len(), 50 * batch_size);
}

#[test]
fn delete_track_immediately() {
    let mut m = empty_mixer();

    let k = m.add_track().unwrap();
    m.delete_track(k).unwrap();

    assert_eq!(m.state().tracks.len(), 0);
}

#[test]
fn delete_track_delayed() {
    let mut m = empty_mixer();

    let k = m.add_track().unwrap();
    let added = m.take_events();
    assert!(matches!(added[0], MixerEvent::AddTrack { .. }));
    m.delete_track(k).unwrap();
    let removed = m.take_events();
    assert!(matches!(removed[0], MixerEvent::RemoveTrack { key } if key == k));

    assert_eq!(m.state().tracks.len(), 0);
}

#[test]
fn delete_invalid_tracks() {
    let mut m = empty_mixer();
    let k = m.add_track().unwrap();
    assert_eq!(m.delete_track(MixerTrackKey(77)), Err(InvalidMixerTrackError { key: MixerTrackKey(77) }));
    assert_eq!(m.delete_tracks(vec![k, MixerTrackKey(77)]), Err(InvalidMixerTrackError { key: MixerTrackKey(77) }));
    assert!(m.key_in_use(k));
    assert_eq!(m.delete_tracks(vec![k]), Ok(()));
    assert!(!m.key_in_use(k));
}

#[test]
fn parameters_survive_delete_and_reconstruct() {
    let mut m = empty_mixer();
    let k = m.add_track().unwrap();
    let panning = 0.42f32.to_bits();
    let volume = 0.65f32.to_bits();
    m.set_track_parameters(k, panning, volume).unwrap();
    let state = m.track(k).unwrap();
    m.delete_track(k).unwrap();
    assert!(m.track(k).is_err());
    m.reconstruct_track(&state);
    let back = m.track(k).unwrap();
    assert_eq!(f32::from_bits(back.panning), 0.42);
    assert_eq!(f32::from_bits(back.volume), 0.65);
    assert_eq!(m.set_track_parameters(MixerTrackKey(99), 0, 0), Err(InvalidMixerTrackError { key: MixerTrackKey(99) }));
}

#[test]
fn master_parameters() {
    let mut m = empty_mixer();
    m.set_master_parameters(CENTRED, 0.5f32.to_bits());
    assert_eq!(f32::from_bits(m.master().volume), 0.5);
    assert_eq!(m.state().master, m.master());
}

#[test]
fn state_round_trip() {
    let mut m = empty_mixer();
    m.add_tracks(3).unwrap();
    let s = m.state();
    let m2 = Mixer::from_state(&s);
    assert_eq!(m2.state().tracks.len(), 3);
    for t in s.tracks.iter() {
        assert_eq!(m2.track(t.key), Ok(*t));
    }
}
