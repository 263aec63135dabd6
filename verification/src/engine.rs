use vstd::prelude::*;

use std::collections::HashMap;

use vstd::std_specs::cmp::PartialEqSpec;
use vstd::std_specs::cmp::PartialEqSpecImpl;

use crate::key_generator::{ids_of, is_next_free, max_id, Key, KeyGenerator};
use crate::keys::{AudioTrackKey, MixerTrackKey, TimelineTrackKey};
use crate::mixer::{describes_mixer, mixer_rebuilt, fresh_track, Mixer, MixerState, MixerTrackOverflowError, MixerTrackState};
use crate::clip_store::{path_pairs, AudioClipStore};
use crate::timeline::{
    all_clip_keys, describes_state, rebuild_ready, rebuilt_from_state, state_track_keys, clip_end, clip_from_state, AudioClip, Timeline, TimelineState, TimelineTrackOverflowError, TimelineTrackState,
};

verus! {

broadcast use vstd::std_specs::hash::group_hash_axioms;

/// Why the engine refused a configuration.
#[derive(Debug, PartialEq, Eq, Structural)]
pub enum InvalidConfigError {
    DeviceNotAvailable,
    Other,
}

/// Why no audio track could be added: the timeline or the mixer has no key left for another
/// track, or no audio track key is left.
#[derive(Debug, PartialEq, Eq, Structural)]
pub enum AudioTrackOverflowError {
    MixerTracks(MixerTrackOverflowError),
    TimelineTracks(TimelineTrackOverflowError),
    AudioTracks,
}

/// Produced when no audio track has the given key.
#[derive(Debug, PartialEq, Eq, Structural)]
pub struct InvalidAudioTrackError {
    pub key: AudioTrackKey,
}

/// Produced when some of the given keys belong to no audio track; lists those keys.
#[derive(Debug, PartialEq, Eq)]
pub struct InvalidAudioTracksError {
    pub keys: Vec<AudioTrackKey>,
}

/// Why an audio track could not be reconstructed: one of its keys is in use.
#[derive(Debug, PartialEq, Eq, Structural)]
pub enum AudioTrackReconstructionError {
    AudioTracks(AudioTrackKey),
    TimelineTracks(TimelineTrackKey),
    MixerTracks(MixerTrackKey),
}

/// The two tracks an audio track is made of.
#[derive(Debug, Clone, Copy, PartialEq, Eq, Hash, Structural)]
pub struct AudioTrack {
    pub timeline_track_key: TimelineTrackKey,
    pub track_key: MixerTrackKey,
}

impl AudioTrack {
    /// The timeline track.
    pub fn timeline_track_key(&self) -> (r: TimelineTrackKey)
        ensures
            r == self.timeline_track_key,
    {
        self.timeline_track_key
    }

    /// The mixer track.
    pub fn track_key(&self) -> (r: MixerTrackKey)
        ensures
            r == self.track_key,
    {
        self.track_key
    }
}

/// What a deleted audio track needs to be reconstructed.
#[derive(Debug, Clone)]
pub struct AudioTrackState {
    pub key: AudioTrackKey,
    pub timeline_track_state: TimelineTrackState,
    pub mixer_track_state: MixerTrackState,
}

/// The state of the parts of the engine that run on the audio thread.
#[derive(Debug, Clone)]
pub struct ProcessorState {
    pub mixer: MixerState,
    pub timeline: TimelineState,
}

/// The state of the engine, from which it can be rebuilt later.
#[derive(Debug, Clone)]
pub struct EngineState {
    pub processor: ProcessorState,
    pub audio_tracks: Vec<(AudioTrackKey, TimelineTrackKey, MixerTrackKey)>,
}

/// The mixers' states hold the same tracks and master, and the timelines' states the same tempo,
/// stored clips and tracks, each in any order.
pub open spec fn same_processor_state(a: ProcessorState, b: ProcessorState) -> bool {
    &&& a.mixer.tracks@.to_set() == b.mixer.tracks@.to_set()
    &&& a.mixer.master == b.mixer.master
    &&& a.timeline.bpm_cents == b.timeline.bpm_cents
    &&& path_pairs(a.timeline.audio_clip_store.clips@) == path_pairs(b.timeline.audio_clip_store.clips@)
    &&& state_track_keys(a.timeline.tracks@) == state_track_keys(b.timeline.tracks@)
}

impl Default for ProcessorState {
    /// An empty mixer and an empty timeline at 120 BPM.
    fn default() -> (r: Self)
        ensures
            r.mixer.tracks@.len() == 0,
            r.mixer.master == fresh_track(MixerTrackKey(0)),
            r.timeline.bpm_cents == 12_000,
            r.timeline.audio_clip_store.clips@.len() == 0,
            r.timeline.tracks@.len() == 0,
    {
        ProcessorState { mixer: MixerState::default(), timeline: TimelineState::default() }
    }
}

impl Default for EngineState {
    /// An engine with no tracks, no stored clips, and a tempo of 120 BPM.
    fn default() -> (r: Self)
        ensures
            r.processor.mixer.tracks@.len() == 0,
            r.processor.mixer.master == fresh_track(MixerTrackKey(0)),
            r.processor.timeline.bpm_cents == 12_000,
            r.processor.timeline.audio_clip_store.clips@.len() == 0,
            r.processor.timeline.tracks@.len() == 0,
            r.audio_tracks@.len() == 0,
    {
        EngineState { processor: ProcessorState::default(), audio_tracks: Vec::new() }
    }
}

impl PartialEq for ProcessorState {
    /// Two states are equal when their mixers' and timelines' states are.
    fn eq(&self, other: &Self) -> (r: bool) {
        self.mixer == other.mixer && self.timeline == other.timeline
    }
}

impl PartialEqSpecImpl for ProcessorState {
    open spec fn obeys_eq_spec() -> bool {
        true
    }

    open spec fn eq_spec(&self, other: &Self) -> bool {
        same_processor_state(*self, *other)
    }
}

impl Eq for ProcessorState {}

/// Every audio track triple of `a` is one of `b`.
fn triples_within(
    a: &Vec<(AudioTrackKey, TimelineTrackKey, MixerTrackKey)>,
    b: &Vec<(AudioTrackKey, TimelineTrackKey, MixerTrackKey)>,
) -> (r: bool)
    ensures
        r == a@.to_set().subset_of(b@.to_set()),
{
    let mut i: usize = 0;
    while i < a.len()
        invariant
            i <= a.len(),
            forall|k: int| 0 <= k < i ==> b@.contains(#[trigger] a@[k]),
        decreases a.len() - i,
    {
        let mut j: usize = 0;
        let mut found = false;
        while j < b.len() && !found
            invariant
                i < a.len(),
                j <= b.len(),
                found ==> b@.contains(a@[i as int]),
                !found ==> forall|k: int| 0 <= k < j ==> #[trigger] b@[k] != a@[i as int],
            decreases (b.len() - j) * 2 + (if found { 0int } else { 1int }),
        {
            if a[i].0 == b[j].0 && a[i].1 == b[j].1 && a[i].2 == b[j].2 {
                assert(b@[j as int] == a@[i as int]);
                found = true;
            } else {
                j = j + 1;
            }
        }
        if !found {
            proof {
                assert(!b@.contains(a@[i as int]));
                assert(a@.to_set().contains(a@[i as int]));
            }
            return false;
        }
        i = i + 1;
    }
    proof {
        assert forall|x| #[trigger] a@.to_set().contains(x) implies b@.to_set().contains(x) by {
            let k = choose|k: int| 0 <= k < a@.len() && a@[k] == x;
            assert(b@.contains(a@[k]));
        }
    }
    true
}

impl PartialEq for EngineState {
    /// Two engine states are equal when their processors' states are, and they pair the same
    /// tracks, in any order.
    fn eq(&self, other: &Self) -> (r: bool) {
        let r = self.processor == other.processor && triples_within(&self.audio_tracks, &other.audio_tracks)
            && triples_within(&other.audio_tracks, &self.audio_tracks);
        proof {
            if r {
                assert(self.audio_tracks@.to_set() =~= other.audio_tracks@.to_set());
            }
        }
        r
    }
}

impl PartialEqSpecImpl for EngineState {
    open spec fn obeys_eq_spec() -> bool {
        true
    }

    open spec fn eq_spec(&self, other: &Self) -> bool {
        &&& same_processor_state(self.processor, other.processor)
        &&& self.audio_tracks@.to_set() == other.audio_tracks@.to_set()
    }
}

impl Eq for EngineState {}

/// The engine's model: the timeline, the mixer, and the audio tracks that pair a timeline
/// track with the mixer track it plays into.
pub struct EngineCore {
    timeline: Timeline,
    mixer: Mixer,
    key_generator: KeyGenerator<AudioTrackKey>,
    audio_tracks: HashMap<u32, (TimelineTrackKey, MixerTrackKey)>,
}

impl EngineCore {
    /// The timeline.
    pub closed spec fn timeline_spec(&self) -> Timeline {
        self.timeline
    }

    /// The mixer.
    pub closed spec fn mixer_spec(&self) -> Mixer {
        self.mixer
    }

    /// The audio tracks, by key id.
    pub closed spec fn audio_tracks_spec(&self) -> Map<u32, (TimelineTrackKey, MixerTrackKey)> {
        self.audio_tracks@
    }

    /// The ids of the audio track keys in use.
    pub closed spec fn audio_keys(&self) -> Set<u32> {
        self.key_generator.used()
    }

    /// The id of the audio track key handed out last.
    pub closed spec fn audio_key_last(&self) -> u32 {
        self.key_generator.last()
    }

    pub closed spec fn wf(&self) -> bool {
        &&& self.timeline.wf()
        &&& self.mixer.wf()
        &&& self.key_generator.wf()
        &&& self.audio_tracks@.dom() == self.key_generator.used()
    }

    /// The timeline track and the mixer track of the audio track with the given key id exist.
    pub open spec fn parts_exist(&self, k: u32) -> bool {
        &&& self.timeline_spec().track_keys().contains(self.audio_tracks_spec()[k].0.0)
        &&& self.mixer_spec().keys().contains(self.audio_tracks_spec()[k].1.0)
    }

    /// An engine with the timeline, the mixer and the audio tracks of the state; its audio track
    /// key counter stands at the largest key among them.
    pub fn from_parts(timeline: Timeline, mixer: Mixer, audio_tracks: &Vec<(AudioTrackKey, TimelineTrackKey, MixerTrackKey)>) -> (e: Self)
        requires
            timeline.wf(),
            mixer.wf(),
            audio_tracks@.len() <= u32::MAX,
            ids_of(audio_tracks@.map_values(|t: (AudioTrackKey, TimelineTrackKey, MixerTrackKey)| t.0)).no_duplicates(),
        ensures
            e.wf(),
            e.timeline_spec() == timeline,
            e.mixer_spec() == mixer,
            ({
                let ids = ids_of(audio_tracks@.map_values(|t: (AudioTrackKey, TimelineTrackKey, MixerTrackKey)| t.0));
                &&& e.audio_keys() == ids.to_set()
                &&& e.audio_key_last() == max_id(ids)
            }),
            forall|i: int| 0 <= i < audio_tracks@.len() ==> e.audio_tracks_spec()[(#[trigger] audio_tracks@[i]).0.0] == (
            audio_tracks@[i].1, audio_tracks@[i].2),
    {
        let ghost ids = ids_of(audio_tracks@.map_values(|t: (AudioTrackKey, TimelineTrackKey, MixerTrackKey)| t.0));
        let mut keys: Vec<AudioTrackKey> = Vec::new();
        let mut map: HashMap<u32, (TimelineTrackKey, MixerTrackKey)> = HashMap::new();
        let mut i: usize = 0;
        while i < audio_tracks.len()
            invariant
                i <= audio_tracks@.len(),
                ids == ids_of(audio_tracks@.map_values(|t: (AudioTrackKey, TimelineTrackKey, MixerTrackKey)| t.0)),
                ids.no_duplicates(),
                keys@ == audio_tracks@.take(i as int).map_values(|t: (AudioTrackKey, TimelineTrackKey, MixerTrackKey)| t.0),
                map@.dom() == ids.take(i as int).to_set(),
                forall|j: int| 0 <= j < i ==> map@[(#[trigger] audio_tracks@[j]).0.0] == (audio_tracks@[j].1, audio_tracks@[j].2),
            decreases audio_tracks@.len() - i,
        {
            let (a, t, m) = audio_tracks[i];
            keys.push(a);
            map.insert(a.0, (t, m));
            proof {
                assert(ids[i as int] == a.0);
                assert(ids.take(i as int + 1) =~= ids.take(i as int).push(a.0));
                ids.take(i as int).lemma_push_to_set_commute(a.0);
                assert(map@.dom() =~= ids.take(i as int + 1).to_set());
                assert(audio_tracks@.take(i as int + 1) =~= audio_tracks@.take(i as int).push(audio_tracks@[i as int]));
                assert(keys@ =~= audio_tracks@.take(i as int + 1).map_values(
                    |t: (AudioTrackKey, TimelineTrackKey, MixerTrackKey)| t.0,
                ));
                assert forall|j: int| 0 <= j < i + 1 implies map@[(#[trigger] audio_tracks@[j]).0.0] == (
                audio_tracks@[j].1, audio_tracks@[j].2) by {
                    if j < i {
                        assert(ids[j] == audio_tracks@[j].0.0);
                        assert(ids[j] != ids[i as int]);
                    }
                }
            }
            i = i + 1;
        }
        proof {
            assert(ids.take(audio_tracks@.len() as int) =~= ids);
            assert(audio_tracks@.take(audio_tracks@.len() as int) =~= audio_tracks@);
            assert(keys@.map_values(|k: AudioTrackKey| k.key_id()) =~= ids);
            assert forall|x: int, y: int| 0 <= x < y < keys@.len() implies keys@[x].key_id() != keys@[y].key_id() by {
                assert(ids[x] != ids[y]);
            }
        }
        let key_generator = KeyGenerator::from_keys(keys.as_slice());
        EngineCore { timeline, mixer, key_generator, audio_tracks: map }
    }

    /// The timeline.
    pub fn timeline(&self) -> (r: &Timeline)
        ensures
            *r == self.timeline_spec(),
    {
        &self.timeline
    }

    /// The timeline, to change its clips; the audio tracks stay as they are.
    pub fn timeline_mut(&mut self) -> (r: &mut Timeline)
        ensures
            *r == old(self).timeline_spec(),
            final(self).timeline_spec() == *final(r),
            final(self).mixer_spec() == old(self).mixer_spec(),
            final(self).audio_tracks_spec() == old(self).audio_tracks_spec(),
            final(self).audio_keys() == old(self).audio_keys(),
            final(self).audio_key_last() == old(self).audio_key_last(),
            old(self).wf() && final(r).wf() ==> final(self).wf(),
    {
        &mut self.timeline
    }

    /// The mixer.
    pub fn mixer(&self) -> (r: &Mixer)
        ensures
            *r == self.mixer_spec(),
    {
        &self.mixer
    }

    /// The mixer, to change its tracks' parameters; the audio tracks stay as they are.
    pub fn mixer_mut(&mut self) -> (r: &mut Mixer)
        ensures
            *r == old(self).mixer_spec(),
            final(self).mixer_spec() == *final(r),
            final(self).timeline_spec() == old(self).timeline_spec(),
            final(self).audio_tracks_spec() == old(self).audio_tracks_spec(),
            final(self).audio_keys() == old(self).audio_keys(),
            final(self).audio_key_last() == old(self).audio_key_last(),
            old(self).wf() && final(r).wf() ==> final(self).wf(),
    {
        &mut self.mixer
    }

    /// The keys of all audio tracks, each once, in no particular order.
    pub fn audio_tracks(&self) -> (r: Vec<AudioTrackKey>)
        requires
            self.wf(),
        ensures
            r@.len() == self.audio_keys().len(),
            ids_of(r@).no_duplicates(),
            ids_of(r@).to_set() == self.audio_keys(),
    {
        let mut r: Vec<AudioTrackKey> = Vec::new();
        let ghost dom = self.audio_tracks@.dom();
        for k in it: self.audio_tracks.keys()
            invariant
                dom == self.audio_tracks@.dom(),
                it.seq().unref().no_duplicates(),
                it.seq().unref().to_set() == dom,
                it.seq().len() == dom.len(),
                ids_of(r@) == it.seq().unref().take(it.index() as int),
                it.index() == it.seq().len() ==> ids_of(r@) == it.seq().unref(),
        {
            let ghost ks = it.seq().unref();
            let ghost idx = it.index();
            let ghost before = r@;
            r.push(AudioTrackKey(*k));
            proof {
                assert(ks[idx as int] == *k);
                assert(r@ =~= before.push(AudioTrackKey(*k)));
                assert(ids_of(r@) =~= ids_of(before).push(*k));
                assert(ks.take(idx + 1) =~= ks.take(idx as int).push(*k));
                assert(ids_of(r@) =~= ks.take(idx + 1));
                assert(ks.take(ks.len() as int) =~= ks);
            }
        }
        r
    }

    /// Whether an audio track has the key.
    pub fn has_audio_track(&self, key: AudioTrackKey) -> (r: bool)
        requires
            self.wf(),
        ensures
            r == self.audio_keys().contains(key.0),
    {
        self.audio_tracks.contains_key(&key.0)
    }

    /// The two tracks of the audio track with the given key.
    pub fn audio_track(&self, key: AudioTrackKey) -> (r: Result<AudioTrack, InvalidAudioTrackError>)
        requires
            self.wf(),
        ensures
            r is Ok <==> self.audio_keys().contains(key.0),
            r matches Ok(t) ==> t.timeline_track_key == self.audio_tracks_spec()[key.0].0 && t.track_key
                == self.audio_tracks_spec()[key.0].1,
            r matches Err(e) ==> e.key == key,
    {
        match self.audio_tracks.get(&key.0) {
            Some(pair) => Ok(AudioTrack { timeline_track_key: pair.0, track_key: pair.1 }),
            None => Err(InvalidAudioTrackError { key }),
        }
    }

    /// The timeline track of the audio track with the given key.
    pub fn audio_timeline_track_key(&self, key: AudioTrackKey) -> (r: Result<TimelineTrackKey, InvalidAudioTrackError>)
        requires
            self.wf(),
        ensures
            r is Ok <==> self.audio_keys().contains(key.0),
            r matches Ok(t) ==> t == self.audio_tracks_spec()[key.0].0,
            r matches Err(e) ==> e.key == key,
    {
        match self.audio_tracks.get(&key.0) {
            Some(pair) => Ok(pair.0),
            None => Err(InvalidAudioTrackError { key }),
        }
    }

    /// The mixer track of the audio track with the given key.
    pub fn audio_mixer_track_key(&self, key: AudioTrackKey) -> (r: Result<MixerTrackKey, InvalidAudioTrackError>)
        requires
            self.wf(),
        ensures
            r is Ok <==> self.audio_keys().contains(key.0),
            r matches Ok(m) ==> m == self.audio_tracks_spec()[key.0].1,
            r matches Err(e) ==> e.key == key,
    {
        match self.audio_tracks.get(&key.0) {
            Some(pair) => Ok(pair.1),
            None => Err(InvalidAudioTrackError { key }),
        }
    }
}


/// `st` is the state of `e`: the states of its timeline and its mixer, and every audio track with
/// its two tracks, each once.
pub open spec fn describes_engine(e: EngineCore, st: EngineState) -> bool {
    &&& describes_state(e.timeline_spec(), st.processor.timeline)
    &&& describes_mixer(e.mixer_spec(), st.processor.mixer)
    &&& st.audio_tracks@.len() == e.audio_keys().len()
    &&& forall|i: int| 0 <= i < st.audio_tracks@.len() ==> {
        let (a, t, m) = #[trigger] st.audio_tracks@[i];
        &&& e.audio_tracks_spec().contains_key(a.0)
        &&& e.audio_tracks_spec()[a.0] == (t, m)
    }
    &&& forall|i: int, j: int| 0 <= i < j < st.audio_tracks@.len() ==> (#[trigger] st.audio_tracks@[i]).0 != (
    #[trigger] st.audio_tracks@[j]).0
    &&& forall|k: u32| #[trigger] e.audio_tracks_spec().contains_key(k) ==> exists|i: int|
        0 <= i < st.audio_tracks@.len() && #[trigger] st.audio_tracks@[i].0.0 == k
}

/// An engine can be rebuilt from `state` on `clip_store` at `sample_rate`: its timeline can (see
/// [`rebuild_ready`]), and the mixer's track keys and the audio track keys are distinct.
pub open spec fn engine_rebuild_ready(state: EngineState, sample_rate: u32, clip_store: AudioClipStore) -> bool {
    &&& rebuild_ready(state.processor.timeline, sample_rate, clip_store)
    &&& state.processor.mixer.tracks@.len() <= u32::MAX
    &&& ids_of(state.processor.mixer.tracks@.map_values(|t: MixerTrackState| t.key)).no_duplicates()
    &&& state.audio_tracks@.len() <= u32::MAX
    &&& ids_of(state.audio_tracks@.map_values(|t: (AudioTrackKey, TimelineTrackKey, MixerTrackKey)| t.0)).no_duplicates()
}

/// `e` was rebuilt from `state`: its timeline from the timeline's state (see
/// [`rebuilt_from_state`]), its mixer from the mixer's, and its audio tracks are those of the
/// state, its key counter standing at the largest of them.
pub open spec fn engine_rebuilt(e: EngineCore, state: EngineState, sample_rate: u32, clip_store: AudioClipStore) -> bool {
    let ids = ids_of(state.audio_tracks@.map_values(|t: (AudioTrackKey, TimelineTrackKey, MixerTrackKey)| t.0));
    &&& e.wf()
    &&& rebuilt_from_state(e.timeline_spec(), state.processor.timeline, sample_rate, clip_store)
    &&& mixer_rebuilt(e.mixer_spec(), state.processor.mixer)
    &&& e.audio_keys() == ids.to_set()
    &&& e.audio_key_last() == max_id(ids)
    &&& forall|i: int| 0 <= i < state.audio_tracks@.len() ==> e.audio_tracks_spec()[(#[trigger] state.audio_tracks@[i]).0.0] == (
    state.audio_tracks@[i].1, state.audio_tracks@[i].2)
}

/// Whether an engine can be rebuilt from `state` on `clip_store` at `sample_rate` (see
/// [`engine_rebuild_ready`]).
pub fn engine_rebuild_ready_check(state: &EngineState, sample_rate: u32, clip_store: &AudioClipStore) -> (r: bool)
    requires
        clip_store.wf(),
    ensures
        r == engine_rebuild_ready(*state, sample_rate, *clip_store),
{
    if !crate::timeline::rebuild_ready_check(&state.processor.timeline, sample_rate, clip_store) {
        return false;
    }
    let ghost mts = state.processor.mixer.tracks@;
    let mut mixer_keys: Vec<MixerTrackKey> = Vec::new();
    let mut i: usize = 0;
    while i < state.processor.mixer.tracks.len()
        invariant
            mts == state.processor.mixer.tracks@,
            i <= mts.len(),
            mixer_keys@ == mts.take(i as int).map_values(|t: MixerTrackState| t.key),
        decreases mts.len() - i,
    {
        mixer_keys.push(state.processor.mixer.tracks[i].key);
        proof {
            assert(mts.take(i as int + 1) =~= mts.take(i as int).push(mts[i as int]));
            assert(mixer_keys@ =~= mts.take(i as int + 1).map_values(|t: MixerTrackState| t.key));
        }
        i = i + 1;
    }
    let ghost ats = state.audio_tracks@;
    let mut audio_keys: Vec<AudioTrackKey> = Vec::new();
    let mut i: usize = 0;
    while i < state.audio_tracks.len()
        invariant
            ats == state.audio_tracks@,
            i <= ats.len(),
            audio_keys@ == ats.take(i as int).map_values(|t: (AudioTrackKey, TimelineTrackKey, MixerTrackKey)| t.0),
        decreases ats.len() - i,
    {
        audio_keys.push(state.audio_tracks[i].0);
        proof {
            assert(ats.take(i as int + 1) =~= ats.take(i as int).push(ats[i as int]));
            assert(audio_keys@ =~= ats.take(i as int + 1).map_values(
                |t: (AudioTrackKey, TimelineTrackKey, MixerTrackKey)| t.0,
            ));
        }
        i = i + 1;
    }
    proof {
        assert(mts.take(mts.len() as int) =~= mts);
        assert(ats.take(ats.len() as int) =~= ats);
    }
    state.processor.mixer.tracks.len() <= 0xffff_ffff && crate::key_generator::ids_distinct(&mixer_keys)
        && state.audio_tracks.len() <= 0xffff_ffff && crate::key_generator::ids_distinct(&audio_keys)
}

/// What deleting the audio track `key` from `old` leaves in `new`, `s` being the state given back.
pub open spec fn audio_track_deleted(old: EngineCore, new: EngineCore, key: AudioTrackKey, s: AudioTrackState) -> bool {
    let t = old.audio_tracks_spec()[key.0].0;
    let m = old.audio_tracks_spec()[key.0].1;
    &&& s.key == key
    &&& s.timeline_track_state.key == t
    &&& old.timeline_spec().describes_track(s.timeline_track_state)
    &&& s.mixer_track_state == old.mixer_spec().tracks()[m.0]
    &&& new.audio_keys() == old.audio_keys().remove(key.0)
    &&& new.audio_key_last() == old.audio_key_last()
    &&& new.audio_tracks_spec() == old.audio_tracks_spec().remove(key.0)
    &&& new.timeline_spec().track_keys() == old.timeline_spec().track_keys().remove(t.0)
    &&& new.timeline_spec().tracks() == old.timeline_spec().tracks().remove(t.0)
    &&& new.timeline_spec().clip_keys() == old.timeline_spec().clip_keys()
    &&& new.timeline_spec().clip_to_track() == old.timeline_spec().clip_to_track()
    &&& new.timeline_spec().store() == old.timeline_spec().store()
    &&& new.timeline_spec().sample_rate_spec() == old.timeline_spec().sample_rate_spec()
    &&& new.timeline_spec().bpm() == old.timeline_spec().bpm()
    &&& new.mixer_spec().keys() == old.mixer_spec().keys().remove(m.0)
    &&& new.mixer_spec().tracks() == old.mixer_spec().tracks().remove(m.0)
}

/// The state `s` of a deleted audio track can be put back on `e`, once its keys are free.
pub open spec fn reconstruct_ready(e: EngineCore, s: AudioTrackState) -> bool {
    let tl = e.timeline_spec();
    let clips = s.timeline_track_state.clips@;
    &&& e.audio_keys().len() < u32::MAX
    &&& e.mixer_spec().keys().len() < u32::MAX
    &&& tl.track_keys().len() < u32::MAX
    &&& forall|i: int| 0 <= i < clips.len() ==> tl.store().clips().contains_key(#[trigger] clips[i].inner.0)
    &&& forall|i: int| 0 <= i < clips.len() ==> tl.state_fits(#[trigger] clips[i])
    &&& forall|i: int| 0 <= i < clips.len() ==> tl.clip_keys().contains(#[trigger] clips[i].key.0)
        && tl.clip_to_track()[clips[i].key.0] == s.timeline_track_state.key
}

/// The keys of the state `s` are all free on `e`.
pub open spec fn keys_free(e: EngineCore, s: AudioTrackState) -> bool {
    &&& !e.audio_keys().contains(s.key.0)
    &&& !e.timeline_spec().track_keys().contains(s.timeline_track_state.key.0)
    &&& !e.mixer_spec().keys().contains(s.mixer_track_state.key.0)
}

/// What reconstructing the audio track of state `s` on `old` leaves in `new`.
pub open spec fn audio_track_reconstructed(old: EngineCore, new: EngineCore, s: AudioTrackState) -> bool {
    let k = s.key;
    let t = s.timeline_track_state.key;
    let m = s.mixer_track_state.key;
    &&& new.audio_keys() == old.audio_keys().insert(k.0)
    &&& new.audio_key_last() == old.audio_key_last()
    &&& new.audio_tracks_spec() == old.audio_tracks_spec().insert(k.0, (t, m))
    &&& new.timeline_spec().track_keys() == old.timeline_spec().track_keys().insert(t.0)
    &&& new.timeline_spec().tracks().dom() == old.timeline_spec().tracks().dom().insert(t.0)
    &&& new.timeline_spec().clips_of(t.0) == old.timeline_spec().batch_prefix(
        s.timeline_track_state.clips@,
        s.timeline_track_state.clips@.len() as int,
    )
    &&& new.timeline_spec().tracks()[t.0].output_track == s.timeline_track_state.output_track
    &&& forall|u: u32| #[trigger] old.timeline_spec().tracks().contains_key(u) ==> new.timeline_spec().clips_of(u)
        == old.timeline_spec().clips_of(u) && new.timeline_spec().tracks()[u].output_track
        == old.timeline_spec().tracks()[u].output_track
    &&& new.timeline_spec().clip_keys() == old.timeline_spec().clip_keys()
    &&& new.timeline_spec().clip_to_track() == old.timeline_spec().clip_to_track()
    &&& new.timeline_spec().store() == old.timeline_spec().store()
    &&& new.mixer_spec().keys() == old.mixer_spec().keys().insert(m.0)
    &&& new.mixer_spec().tracks() == old.mixer_spec().tracks().insert(m.0, s.mixer_track_state)
}

/// `a` and `b` have the same audio tracks, the same timeline tracks with the same outputs and
/// clips, the same clip keys and stored clips, and the same mixer tracks.
pub open spec fn same_tracks(a: EngineCore, b: EngineCore) -> bool {
    &&& a.audio_tracks_spec() == b.audio_tracks_spec()
    &&& a.audio_keys() == b.audio_keys()
    &&& a.timeline_spec().track_keys() == b.timeline_spec().track_keys()
    &&& a.timeline_spec().tracks().dom() == b.timeline_spec().tracks().dom()
    &&& forall|t: u32| #[trigger] a.timeline_spec().tracks().contains_key(t) ==> a.timeline_spec().clips_of(t)
        == b.timeline_spec().clips_of(t) && a.timeline_spec().tracks()[t].output_track == b.timeline_spec().tracks()[t].output_track
    &&& a.timeline_spec().clip_keys() == b.timeline_spec().clip_keys()
    &&& a.timeline_spec().clip_to_track() == b.timeline_spec().clip_to_track()
    &&& a.timeline_spec().store() == b.timeline_spec().store()
    &&& a.mixer_spec().keys() == b.mixer_spec().keys()
    &&& a.mixer_spec().tracks() == b.mixer_spec().tracks()
}

impl EngineCore {
    /// The invalid keys among `keys`, in order.
    pub open spec fn invalid_audio_keys(&self, keys: Seq<AudioTrackKey>) -> Seq<AudioTrackKey> {
        keys.filter(|k: AudioTrackKey| !self.audio_keys().contains(k.0))
    }

    /// Add an audio track: a fresh mixer track, and an empty timeline track that plays into it.
    pub fn add_audio_track(&mut self) -> (r: Result<AudioTrackKey, AudioTrackOverflowError>)
        requires
            old(self).wf(),
        ensures
            final(self).wf(),
            old(self).timeline_spec().track_keys().len() == u32::MAX ==> r == Err::<AudioTrackKey, AudioTrackOverflowError>(
                AudioTrackOverflowError::TimelineTracks(TimelineTrackOverflowError),
            ),
            old(self).timeline_spec().track_keys().len() < u32::MAX && old(self).mixer_spec().keys().len() == u32::MAX ==> r
                == Err::<AudioTrackKey, AudioTrackOverflowError>(AudioTrackOverflowError::MixerTracks(MixerTrackOverflowError)),
            old(self).timeline_spec().track_keys().len() < u32::MAX && old(self).mixer_spec().keys().len() < u32::MAX
                && old(self).audio_keys().len() == u32::MAX ==> r == Err::<AudioTrackKey, AudioTrackOverflowError>(
                AudioTrackOverflowError::AudioTracks,
            ),
            old(self).timeline_spec().track_keys().len() < u32::MAX && old(self).mixer_spec().keys().len() < u32::MAX
                && old(self).audio_keys().len() < u32::MAX ==> r is Ok,
            r is Err ==> *final(self) == *old(self),
            r matches Ok(k) ==> {
                let pair = final(self).audio_tracks_spec()[k.0];
                let t = pair.0;
                let m = pair.1;
                &&& is_next_free(old(self).audio_key_last(), old(self).audio_keys(), k.0)
                &&& final(self).audio_keys() == old(self).audio_keys().insert(k.0)
                &&& final(self).audio_key_last() == k.0
                &&& final(self).audio_tracks_spec() == old(self).audio_tracks_spec().insert(k.0, pair)
                &&& is_next_free(old(self).mixer_spec().key_last(), old(self).mixer_spec().keys(), m.0)
                &&& final(self).mixer_spec().keys() == old(self).mixer_spec().keys().insert(m.0)
                &&& final(self).mixer_spec().tracks() == old(self).mixer_spec().tracks().insert(m.0, fresh_track(m))
                &&& is_next_free(old(self).timeline_spec().track_key_last(), old(self).timeline_spec().track_keys(), t.0)
                &&& final(self).timeline_spec().track_keys() == old(self).timeline_spec().track_keys().insert(t.0)
                &&& final(self).timeline_spec().tracks().dom() == old(self).timeline_spec().tracks().dom().insert(t.0)
                &&& final(self).timeline_spec().clips_of(t.0) == Map::<u32, AudioClip>::empty()
                &&& final(self).timeline_spec().tracks()[t.0].output_track == m
                &&& final(self).parts_exist(k.0)
            },
    {
        if self.timeline.remaining_keys() == 0 {
            return Err(AudioTrackOverflowError::TimelineTracks(TimelineTrackOverflowError));
        }
        if self.mixer.remaining_keys() == 0 {
            return Err(AudioTrackOverflowError::MixerTracks(MixerTrackOverflowError));
        }
        if self.key_generator.remaining_keys() == 0 {
            return Err(AudioTrackOverflowError::AudioTracks);
        }
        let m = match self.mixer.add_track() {
            Ok(m) => m,
            Err(_) => {
                assert(false);
                return Err(AudioTrackOverflowError::AudioTracks);
            },
        };
        let t = match self.timeline.add_track(m) {
            Ok(t) => t,
            Err(_) => {
                assert(false);
                return Err(AudioTrackOverflowError::AudioTracks);
            },
        };
        let k = match self.key_generator.next() {
            Ok(k) => k,
            Err(_) => {
                assert(false);
                return Err(AudioTrackOverflowError::AudioTracks);
            },
        };
        self.audio_tracks.insert(k.0, (t, m));
        proof {
            assert(self.audio_tracks@.dom() =~= self.key_generator.used());
        }
        Ok(k)
    }

    /// Delete the audio track with the given key, and its timeline and mixer tracks, giving back
    /// what it takes to reconstruct it.
    pub fn delete_audio_track(&mut self, key: AudioTrackKey) -> (r: Result<AudioTrackState, InvalidAudioTrackError>)
        requires
            old(self).wf(),
            old(self).audio_keys().contains(key.0) ==> old(self).parts_exist(key.0),
        ensures
            final(self).wf(),
            r is Ok <==> old(self).audio_keys().contains(key.0),
            r matches Err(e) ==> e.key == key && *final(self) == *old(self),
            r matches Ok(s) ==> audio_track_deleted(*old(self), *final(self), key, s),
    {
        let (t, m) = match self.audio_tracks.get(&key.0) {
            Some(pair) => *pair,
            None => return Err(InvalidAudioTrackError { key }),
        };
        let timeline_track_state = match self.timeline.track_state(t) {
            Ok(ts) => ts,
            Err(_) => {
                assert(false);
                return Err(InvalidAudioTrackError { key });
            },
        };
        proof {
            self.mixer.lemma_wf();
        }
        let mixer_track_state = match self.mixer.track(m) {
            Ok(ms) => ms,
            Err(_) => {
                assert(false);
                return Err(InvalidAudioTrackError { key });
            },
        };
        let _ = self.timeline.delete_track(t);
        let _ = self.mixer.delete_track(m);
        let _ = self.audio_tracks.remove(&key.0);
        let _ = self.key_generator.free(key);
        proof {
            assert(self.audio_tracks@.dom() =~= self.key_generator.used());
        }
        Ok(AudioTrackState { key, timeline_track_state, mixer_track_state })
    }

    /// Put a deleted audio track back: its timeline track with its clips, and its mixer track.
    /// Fails, changing nothing, when one of its keys is in use: the audio track's, then the
    /// timeline track's, then the mixer track's.
    pub fn reconstruct_audio_track(&mut self, state: AudioTrackState) -> (r: Result<AudioTrackKey, AudioTrackReconstructionError>)
        requires
            old(self).wf(),
            keys_free(*old(self), state) ==> reconstruct_ready(*old(self), state),
        ensures
            final(self).wf(),
            ({
                let t = state.timeline_track_state.key;
                let m = state.mixer_track_state.key;
                &&& old(self).audio_keys().contains(state.key.0) ==> r == Err::<AudioTrackKey, AudioTrackReconstructionError>(
                    AudioTrackReconstructionError::AudioTracks(state.key),
                )
                &&& !old(self).audio_keys().contains(state.key.0) && old(self).timeline_spec().track_keys().contains(t.0) ==> r
                    == Err::<AudioTrackKey, AudioTrackReconstructionError>(AudioTrackReconstructionError::TimelineTracks(t))
                &&& !old(self).audio_keys().contains(state.key.0) && !old(self).timeline_spec().track_keys().contains(t.0)
                    && old(self).mixer_spec().keys().contains(m.0) ==> r == Err::<AudioTrackKey, AudioTrackReconstructionError>(
                    AudioTrackReconstructionError::MixerTracks(m),
                )
                &&& keys_free(*old(self), state) ==> r == Ok::<AudioTrackKey, AudioTrackReconstructionError>(state.key)
                &&& r is Err ==> *final(self) == *old(self)
                &&& r is Ok ==> audio_track_reconstructed(*old(self), *final(self), state) && final(self).parts_exist(state.key.0)
            }),
    {
        let key = state.key;
        let t = state.timeline_track_state.key;
        let m = state.mixer_track_state.key;
        if self.key_generator.in_use(key) {
            return Err(AudioTrackReconstructionError::AudioTracks(key));
        }
        if self.timeline.key_in_use(t) {
            return Err(AudioTrackReconstructionError::TimelineTracks(t));
        }
        if self.mixer.key_in_use(m) {
            return Err(AudioTrackReconstructionError::MixerTracks(m));
        }
        self.timeline.reconstruct_track(&state.timeline_track_state);
        self.mixer.reconstruct_track(&state.mixer_track_state);
        self.audio_tracks.insert(key.0, (t, m));
        let _ = self.key_generator.reserve(key);
        proof {
            assert(self.audio_tracks@.dom() =~= self.key_generator.used());
        }
        Ok(key)
    }
}


impl EngineCore {
    /// Add `count` audio tracks: fresh mixer tracks, and empty timeline tracks that play into
    /// them. Fails, changing nothing, when the timeline, then the mixer, then the audio tracks
    /// have fewer keys left.
    pub fn add_audio_tracks(&mut self, count: u32) -> (r: Result<Vec<AudioTrackKey>, AudioTrackOverflowError>)
        requires
            old(self).wf(),
        ensures
            final(self).wf(),
            ({
                let tl_left = u32::MAX - old(self).timeline_spec().track_keys().len();
                let mx_left = u32::MAX - old(self).mixer_spec().keys().len();
                let au_left = u32::MAX - old(self).audio_keys().len();
                &&& count > tl_left ==> r == Err::<Vec<AudioTrackKey>, AudioTrackOverflowError>(
                    AudioTrackOverflowError::TimelineTracks(TimelineTrackOverflowError),
                )
                &&& count <= tl_left && count > mx_left ==> r == Err::<Vec<AudioTrackKey>, AudioTrackOverflowError>(
                    AudioTrackOverflowError::MixerTracks(MixerTrackOverflowError),
                )
                &&& count <= tl_left && count <= mx_left && count > au_left ==> r == Err::<
                    Vec<AudioTrackKey>,
                    AudioTrackOverflowError,
                >(AudioTrackOverflowError::AudioTracks)
                &&& count <= tl_left && count <= mx_left && count <= au_left ==> r is Ok
            }),
            r is Err ==> *final(self) == *old(self),
            r matches Ok(keys) ==> {
                let ids = ids_of(keys@);
                &&& keys@.len() == count
                &&& crate::key_generator::is_fresh_run(old(self).audio_key_last(), old(self).audio_keys(), ids)
                &&& final(self).audio_keys() == old(self).audio_keys().union(ids.to_set())
                &&& forall|k: u32| #[trigger] old(self).audio_tracks_spec().contains_key(k) ==> final(self).audio_tracks_spec()[k]
                    == old(self).audio_tracks_spec()[k]
                &&& forall|i: int| 0 <= i < keys@.len() ==> {
                    let pair = final(self).audio_tracks_spec()[#[trigger] keys@[i].0];
                    &&& final(self).audio_tracks_spec().contains_key(keys@[i].0)
                    &&& final(self).parts_exist(keys@[i].0)
                    &&& final(self).timeline_spec().clips_of(pair.0.0) == Map::<u32, AudioClip>::empty()
                    &&& final(self).timeline_spec().tracks()[pair.0.0].output_track == pair.1
                    &&& final(self).mixer_spec().tracks()[pair.1.0] == fresh_track(pair.1)
                }
            },
    {
        if self.timeline.remaining_keys() < count {
            return Err(AudioTrackOverflowError::TimelineTracks(TimelineTrackOverflowError));
        }
        if self.mixer.remaining_keys() < count {
            return Err(AudioTrackOverflowError::MixerTracks(MixerTrackOverflowError));
        }
        if self.key_generator.remaining_keys() < count {
            return Err(AudioTrackOverflowError::AudioTracks);
        }
        let mixer_keys = match self.mixer.add_tracks(count) {
            Ok(keys) => keys,
            Err(_) => {
                assert(false);
                return Err(AudioTrackOverflowError::AudioTracks);
            },
        };
        let mut outputs: Vec<MixerTrackKey> = Vec::new();
        let mut i: usize = 0;
        while i < mixer_keys.len()
            invariant
                i <= mixer_keys@.len(),
                outputs@ == mixer_keys@.take(i as int),
            decreases mixer_keys@.len() - i,
        {
            outputs.push(mixer_keys[i]);
            i = i + 1;
            assert(outputs@ =~= mixer_keys@.take(i as int));
        }
        assert(outputs@ =~= mixer_keys@);
        let timeline_keys = match self.timeline.add_tracks(outputs) {
            Ok(keys) => keys,
            Err(_) => {
                assert(false);
                return Err(AudioTrackOverflowError::AudioTracks);
            },
        };
        let audio_keys = match self.key_generator.next_n(count) {
            Ok(keys) => keys,
            Err(_) => {
                assert(false);
                return Err(AudioTrackOverflowError::AudioTracks);
            },
        };
        let ghost ids = ids_of(audio_keys@);
        let ghost before = self.audio_tracks@;
        let ghost mx = self.mixer;
        let ghost tl = self.timeline;
        let ghost kg = self.key_generator;
        let mut i: usize = 0;
        while i < audio_keys.len()
            invariant
                self.mixer == mx,
                self.timeline == tl,
                self.key_generator == kg,
                mx.wf(),
                tl.wf(),
                kg.wf(),
                kg.used() == before.dom().union(ids.to_set()),
                i <= audio_keys@.len(),
                audio_keys@.len() == count,
                timeline_keys@.len() == count,
                mixer_keys@.len() == count,
                ids == ids_of(audio_keys@),
                ids.no_duplicates(),
                forall|j: int| 0 <= j < ids.len() ==> !before.contains_key(#[trigger] ids[j]),
                self.audio_tracks@.dom() == before.dom().union(ids.take(i as int).to_set()),
                forall|k: u32| #[trigger] before.contains_key(k) ==> self.audio_tracks@[k] == before[k],
                forall|j: int| 0 <= j < i ==> self.audio_tracks@[#[trigger] audio_keys@[j].0] == (timeline_keys@[j], mixer_keys@[j]),
            decreases audio_keys@.len() - i,
        {
            let a = audio_keys[i];
            self.audio_tracks.insert(a.0, (timeline_keys[i], mixer_keys[i]));
            proof {
                assert(ids[i as int] == a.0);
                assert(ids.take(i as int + 1) =~= ids.take(i as int).push(a.0));
                ids.take(i as int).lemma_push_to_set_commute(a.0);
                assert(self.audio_tracks@.dom() =~= before.dom().union(ids.take(i as int + 1).to_set()));
                assert forall|k: u32| #[trigger] before.contains_key(k) implies self.audio_tracks@[k] == before[k] by {
                    assert(k != a.0);
                }
                assert forall|j: int| 0 <= j < i + 1 implies self.audio_tracks@[#[trigger] audio_keys@[j].0] == (
                timeline_keys@[j], mixer_keys@[j]) by {
                    if j < i {
                        assert(ids[j] == audio_keys@[j].0);
                        assert(ids[j] != ids[i as int]);
                    }
                }
            }
            i = i + 1;
        }
        proof {
            assert(ids.take(count as int) =~= ids);
            assert(self.audio_tracks@.dom() =~= self.key_generator.used());
            self.mixer.lemma_wf();
            let tids = ids_of(timeline_keys@);
            assert forall|j: int| 0 <= j < count implies {
                let pair = self.audio_tracks@[#[trigger] audio_keys@[j].0];
                &&& self.audio_tracks@.contains_key(audio_keys@[j].0)
                &&& self.parts_exist(audio_keys@[j].0)
                &&& self.timeline.clips_of(pair.0.0) == Map::<u32, AudioClip>::empty()
                &&& self.timeline.tracks()[pair.0.0].output_track == pair.1
                &&& self.mixer.tracks()[pair.1.0] == fresh_track(pair.1)
            } by {
                assert(ids[j] == audio_keys@[j].0);
                assert(ids.take(count as int).to_set().contains(ids[j])) by {
                    assert(ids.take(count as int)[j] == ids[j]);
                }
                assert(tids[j] == timeline_keys@[j].0);
                assert(tids.to_set().contains(tids[j]));
                assert(ids_of(mixer_keys@)[j] == mixer_keys@[j].0);
                assert(ids_of(mixer_keys@).to_set().contains(mixer_keys@[j].0));
            }
        }
        Ok(audio_keys)
    }
}

impl EngineCore {
    /// Delete the audio tracks with the given keys, and their timeline and mixer tracks, giving
    /// back their states in order. If some key belongs to no audio track, nothing is deleted and
    /// the error lists those keys.
    pub fn delete_audio_tracks(&mut self, keys: Vec<AudioTrackKey>) -> (r: Result<Vec<AudioTrackState>, InvalidAudioTracksError>)
        requires
            old(self).wf(),
            ids_of(keys@).no_duplicates(),
            forall|i: int| 0 <= i < keys@.len() && old(self).audio_keys().contains(#[trigger] keys@[i].0) ==> old(self).parts_exist(
                keys@[i].0,
            ),
            forall|i: int, j: int|
                0 <= i < j < keys@.len() && old(self).audio_keys().contains(#[trigger] keys@[i].0) && old(self).audio_keys().contains(
                    #[trigger] keys@[j].0,
                ) ==> old(self).audio_tracks_spec()[keys@[i].0].0 != old(self).audio_tracks_spec()[keys@[j].0].0
                    && old(self).audio_tracks_spec()[keys@[i].0].1 != old(self).audio_tracks_spec()[keys@[j].0].1,
        ensures
            final(self).wf(),
            r is Ok <==> forall|i: int| 0 <= i < keys@.len() ==> old(self).audio_keys().contains(#[trigger] keys@[i].0),
            r matches Err(e) ==> e.keys@ == old(self).invalid_audio_keys(keys@) && *final(self) == *old(self),
            r matches Ok(states) ==> {
                let ids = ids_of(keys@).to_set();
                let tids = keys@.map_values(|k: AudioTrackKey| old(self).audio_tracks_spec()[k.0].0.0).to_set();
                let mids = keys@.map_values(|k: AudioTrackKey| old(self).audio_tracks_spec()[k.0].1.0).to_set();
                &&& states@.len() == keys@.len()
                &&& forall|i: int| 0 <= i < keys@.len() ==> {
                    let pair = old(self).audio_tracks_spec()[keys@[i].0];
                    &&& (#[trigger] states@[i]).key == keys@[i]
                    &&& states@[i].timeline_track_state.key == pair.0
                    &&& old(self).timeline_spec().describes_track(states@[i].timeline_track_state)
                    &&& states@[i].mixer_track_state == old(self).mixer_spec().tracks()[pair.1.0]
                }
                &&& final(self).audio_keys() == old(self).audio_keys().difference(ids)
                &&& final(self).audio_tracks_spec() == old(self).audio_tracks_spec().remove_keys(ids)
                &&& final(self).timeline_spec().track_keys() == old(self).timeline_spec().track_keys().difference(tids)
                &&& final(self).timeline_spec().tracks() == old(self).timeline_spec().tracks().remove_keys(tids)
                &&& final(self).timeline_spec().clip_keys() == old(self).timeline_spec().clip_keys()
                &&& final(self).timeline_spec().clip_to_track() == old(self).timeline_spec().clip_to_track()
                &&& final(self).mixer_spec().keys() == old(self).mixer_spec().keys().difference(mids)
                &&& final(self).mixer_spec().tracks() == old(self).mixer_spec().tracks().remove_keys(mids)
            },
    {
        let mut all_valid = true;
        let mut i: usize = 0;
        while i < keys.len()
            invariant
                i <= keys@.len(),
                self.wf(),
                all_valid <==> forall|j: int| 0 <= j < i ==> self.audio_keys().contains(#[trigger] keys@[j].0),
            decreases keys@.len() - i,
        {
            if !self.audio_tracks.contains_key(&keys[i].0) {
                all_valid = false;
            }
            i = i + 1;
        }
        if !all_valid {
            let mut invalid: Vec<AudioTrackKey> = Vec::new();
            let mut i: usize = 0;
            while i < keys.len()
                invariant
                    i <= keys@.len(),
                    self.wf(),
                    invalid@ == self.invalid_audio_keys(keys@.take(i as int)),
                decreases keys@.len() - i,
            {
                let k = keys[i];
                proof {
                    assert(keys@.take(i as int + 1) =~= keys@.take(i as int).push(k));
                    keys@.take(i as int).lemma_filter_push(k, |k: AudioTrackKey| !self.audio_keys().contains(k.0));
                }
                if !self.audio_tracks.contains_key(&k.0) {
                    invalid.push(k);
                }
                i = i + 1;
            }
            assert(keys@.take(keys@.len() as int) =~= keys@);
            return Err(InvalidAudioTracksError { keys: invalid });
        }
        let ghost pairs = self.audio_tracks@;
        let mut timeline_keys: Vec<TimelineTrackKey> = Vec::new();
        let mut mixer_keys: Vec<MixerTrackKey> = Vec::new();
        let mut states: Vec<AudioTrackState> = Vec::new();
        proof {
            self.mixer.lemma_wf();
        }
        let mut i: usize = 0;
        while i < keys.len()
            invariant
                i <= keys@.len(),
                self.wf(),
                *self == *old(self),
                pairs == self.audio_tracks@,
                forall|j: int| 0 <= j < keys@.len() ==> self.audio_keys().contains(#[trigger] keys@[j].0),
                forall|j: int| 0 <= j < keys@.len() && old(self).audio_keys().contains(#[trigger] keys@[j].0) ==> old(self).parts_exist(
                    keys@[j].0,
                ),
                self.mixer.tracks().dom() == self.mixer.keys(),
                timeline_keys@ == keys@.take(i as int).map_values(|k: AudioTrackKey| pairs[k.0].0),
                mixer_keys@ == keys@.take(i as int).map_values(|k: AudioTrackKey| pairs[k.0].1),
                states@.len() == i,
                forall|j: int| 0 <= j < i ==> {
                    let pair = pairs[keys@[j].0];
                    &&& (#[trigger] states@[j]).key == keys@[j]
                    &&& states@[j].timeline_track_state.key == pair.0
                    &&& self.timeline.describes_track(states@[j].timeline_track_state)
                    &&& states@[j].mixer_track_state == self.mixer.tracks()[pair.1.0]
                },
            decreases keys@.len() - i,
        {
            let k = keys[i];
            let (t, m) = match self.audio_tracks.get(&k.0) {
                Some(pair) => *pair,
                None => {
                    assert(false);
                    return Err(InvalidAudioTracksError { keys: Vec::new() });
                },
            };
            let timeline_track_state = match self.timeline.track_state(t) {
                Ok(ts) => ts,
                Err(_) => {
                    assert(false);
                    return Err(InvalidAudioTracksError { keys: Vec::new() });
                },
            };
            let mixer_track_state = match self.mixer.track(m) {
                Ok(ms) => ms,
                Err(_) => {
                    assert(false);
                    return Err(InvalidAudioTracksError { keys: Vec::new() });
                },
            };
            timeline_keys.push(t);
            mixer_keys.push(m);
            states.push(AudioTrackState { key: k, timeline_track_state, mixer_track_state });
            proof {
                assert(keys@.take(i as int + 1) =~= keys@.take(i as int).push(k));
                assert(timeline_keys@ =~= keys@.take(i as int + 1).map_values(|k: AudioTrackKey| pairs[k.0].0));
                assert(mixer_keys@ =~= keys@.take(i as int + 1).map_values(|k: AudioTrackKey| pairs[k.0].1));
            }
            i = i + 1;
        }
        let ghost tids = keys@.map_values(|k: AudioTrackKey| pairs[k.0].0.0);
        let ghost mids = keys@.map_values(|k: AudioTrackKey| pairs[k.0].1.0);
        proof {
            assert(keys@.take(keys@.len() as int) =~= keys@);
            assert(ids_of(timeline_keys@) =~= tids);
            assert(ids_of(mixer_keys@) =~= mids);
            assert(tids.no_duplicates()) by {
                assert forall|a: int, b: int| 0 <= a < b < tids.len() implies tids[a] != tids[b] by {
                    if tids[a] == tids[b] {
                        crate::key_generator::Key::lemma_id_determines_key(pairs[keys@[a].0].0, pairs[keys@[b].0].0);
                    }
                }
            }
            assert(mids.no_duplicates()) by {
                assert forall|a: int, b: int| 0 <= a < b < mids.len() implies mids[a] != mids[b] by {
                    if mids[a] == mids[b] {
                        crate::key_generator::Key::lemma_id_determines_key(pairs[keys@[a].0].1, pairs[keys@[b].0].1);
                    }
                }
            }
        }
        let _ = self.timeline.delete_tracks(timeline_keys);
        let _ = self.mixer.delete_tracks(mixer_keys);
        let ghost ids = ids_of(keys@);
        let mut i: usize = 0;
        while i < keys.len()
            invariant
                i <= keys@.len(),
                ids == ids_of(keys@),
                ids.no_duplicates(),
                forall|j: int| 0 <= j < keys@.len() ==> old(self).audio_keys().contains(#[trigger] keys@[j].0),
                old(self).wf(),
                self.key_generator.wf(),
                self.key_generator.used() == old(self).audio_keys().difference(ids.take(i as int).to_set()),
                self.key_generator.last() == old(self).audio_key_last(),
                self.audio_tracks@ == old(self).audio_tracks_spec().remove_keys(ids.take(i as int).to_set()),
                self.timeline.wf(),
                self.mixer.wf(),
                self.timeline.track_keys() == old(self).timeline_spec().track_keys().difference(tids.to_set()),
                self.timeline.tracks() == old(self).timeline_spec().tracks().remove_keys(tids.to_set()),
                self.timeline.clip_keys() == old(self).timeline_spec().clip_keys(),
                self.timeline.clip_to_track() == old(self).timeline_spec().clip_to_track(),
                self.mixer.keys() == old(self).mixer_spec().keys().difference(mids.to_set()),
                self.mixer.tracks() == old(self).mixer_spec().tracks().remove_keys(mids.to_set()),
            decreases keys@.len() - i,
        {
            let key = keys[i];
            proof {
                assert(ids[i as int] == key.0);
                ids.take(i as int).lemma_push_to_set_commute(key.0);
                assert(ids.take(i as int + 1) =~= ids.take(i as int).push(key.0));
            }
            let _ = self.key_generator.free(key);
            let _ = self.audio_tracks.remove(&key.0);
            i = i + 1;
            assert(self.key_generator.used() =~= old(self).audio_keys().difference(ids.take(i as int).to_set()));
            assert(self.audio_tracks@ =~= old(self).audio_tracks_spec().remove_keys(ids.take(i as int).to_set()));
        }
        proof {
            assert(ids.take(keys@.len() as int) =~= ids);
            assert(self.audio_tracks@.dom() =~= self.key_generator.used());
        }
        Ok(states)
    }
}

/// The error that reconstructing `s` on `e` gives when one of its keys is in use: the audio
/// track's key is checked first, then the timeline track's, then the mixer track's.
pub open spec fn key_in_use_error(e: EngineCore, s: AudioTrackState) -> AudioTrackReconstructionError {
    if e.audio_keys().contains(s.key.0) {
        AudioTrackReconstructionError::AudioTracks(s.key)
    } else if e.timeline_spec().track_keys().contains(s.timeline_track_state.key.0) {
        AudioTrackReconstructionError::TimelineTracks(s.timeline_track_state.key)
    } else {
        AudioTrackReconstructionError::MixerTracks(s.mixer_track_state.key)
    }
}

impl EngineCore {
    /// Put deleted audio tracks back: each timeline track (without its clips) and each mixer
    /// track, under their old keys. Fails, changing nothing, on the first state with a key in use.
    pub fn reconstruct_audio_tracks(&mut self, states: Vec<AudioTrackState>) -> (r: Result<Vec<AudioTrackKey>, AudioTrackReconstructionError>)
        requires
            old(self).wf(),
            ids_of(states@.map_values(|s: AudioTrackState| s.key)).no_duplicates(),
            ids_of(states@.map_values(|s: AudioTrackState| s.timeline_track_state.key)).no_duplicates(),
            ids_of(states@.map_values(|s: AudioTrackState| s.mixer_track_state.key)).no_duplicates(),
            (forall|i: int| 0 <= i < states@.len() ==> keys_free(*old(self), #[trigger] states@[i])) ==> {
                &&& old(self).audio_keys().len() + states@.len() <= u32::MAX
                &&& old(self).timeline_spec().track_keys().len() + states@.len() <= u32::MAX
                &&& old(self).mixer_spec().keys().len() + states@.len() <= u32::MAX
            },
        ensures
            final(self).wf(),
            !(forall|i: int| 0 <= i < states@.len() ==> keys_free(*old(self), #[trigger] states@[i])) ==> exists|i: int|
                0 <= i < states@.len() && !keys_free(*old(self), #[trigger] states@[i]) && (forall|j: int|
                    0 <= j < i ==> keys_free(*old(self), #[trigger] states@[j])) && r == Err::<
                    Vec<AudioTrackKey>,
                    AudioTrackReconstructionError,
                >(key_in_use_error(*old(self), states@[i])),
            (forall|i: int| 0 <= i < states@.len() ==> keys_free(*old(self), #[trigger] states@[i])) ==> r is Ok,
            r is Err ==> *final(self) == *old(self),
            r matches Ok(keys) ==> {
                let ids = ids_of(keys@);
                let tids = ids_of(states@.map_values(|s: AudioTrackState| s.timeline_track_state.key));
                let mids = ids_of(states@.map_values(|s: AudioTrackState| s.mixer_track_state.key));
                &&& keys@ == states@.map_values(|s: AudioTrackState| s.key)
                &&& final(self).audio_keys() == old(self).audio_keys().union(ids.to_set())
                &&& final(self).audio_key_last() == old(self).audio_key_last()
                &&& forall|k: u32| #[trigger] old(self).audio_tracks_spec().contains_key(k) ==> final(self).audio_tracks_spec()[k]
                    == old(self).audio_tracks_spec()[k]
                &&& forall|i: int| 0 <= i < states@.len() ==> final(self).audio_tracks_spec()[(#[trigger] states@[i]).key.0] == (
                states@[i].timeline_track_state.key, states@[i].mixer_track_state.key)
                &&& final(self).timeline_spec().track_keys() == old(self).timeline_spec().track_keys().union(tids.to_set())
                &&& final(self).timeline_spec().tracks().dom() == old(self).timeline_spec().tracks().dom().union(tids.to_set())
                &&& forall|t: u32| #[trigger] old(self).timeline_spec().tracks().contains_key(t) ==> final(self).timeline_spec().tracks()[t]
                    == old(self).timeline_spec().tracks()[t]
                &&& forall|i: int| 0 <= i < states@.len() ==> {
                    let t = (#[trigger] states@[i]).timeline_track_state;
                    &&& final(self).timeline_spec().clips_of(t.key.0) == Map::<u32, AudioClip>::empty()
                    &&& final(self).timeline_spec().tracks()[t.key.0].output_track == t.output_track
                    &&& final(self).mixer_spec().tracks()[states@[i].mixer_track_state.key.0] == states@[i].mixer_track_state
                }
                &&& final(self).timeline_spec().clip_keys() == old(self).timeline_spec().clip_keys()
                &&& final(self).timeline_spec().clip_to_track() == old(self).timeline_spec().clip_to_track()
                &&& final(self).mixer_spec().keys() == old(self).mixer_spec().keys().union(mids.to_set())
                &&& forall|k: u32| #[trigger] old(self).mixer_spec().tracks().contains_key(k) ==> final(self).mixer_spec().tracks()[k]
                    == old(self).mixer_spec().tracks()[k]
            },
    {
        let mut i: usize = 0;
        while i < states.len()
            invariant
                i <= states@.len(),
                self.wf(),
                *self == *old(self),
                forall|j: int| 0 <= j < i ==> keys_free(*old(self), #[trigger] states@[j]),
            decreases states@.len() - i,
        {
            let s = &states[i];
            if self.key_generator.in_use(s.key) {
                return Err(AudioTrackReconstructionError::AudioTracks(s.key));
            }
            if self.timeline.key_in_use(s.timeline_track_state.key) {
                return Err(AudioTrackReconstructionError::TimelineTracks(s.timeline_track_state.key));
            }
            if self.mixer.key_in_use(s.mixer_track_state.key) {
                return Err(AudioTrackReconstructionError::MixerTracks(s.mixer_track_state.key));
            }
            i = i + 1;
        }
        let mut timeline_states: Vec<TimelineTrackState> = Vec::new();
        let mut mixer_states: Vec<MixerTrackState> = Vec::new();
        let mut i: usize = 0;
        while i < states.len()
            invariant
                i <= states@.len(),
                timeline_states@.len() == i,
                forall|j: int| 0 <= j < i ==> (#[trigger] timeline_states@[j]).key == states@[j].timeline_track_state.key
                    && timeline_states@[j].output_track == states@[j].timeline_track_state.output_track,
                mixer_states@ == states@.take(i as int).map_values(|s: AudioTrackState| s.mixer_track_state),
            decreases states@.len() - i,
        {
            let s = &states[i];
            timeline_states.push(
                TimelineTrackState {
                    key: s.timeline_track_state.key,
                    clips: Vec::new(),
                    output_track: s.timeline_track_state.output_track,
                },
            );
            mixer_states.push(s.mixer_track_state);
            proof {
                assert(states@.take(i as int + 1) =~= states@.take(i as int).push(states@[i as int]));
                assert(mixer_states@ =~= states@.take(i as int + 1).map_values(|s: AudioTrackState| s.mixer_track_state));
            }
            i = i + 1;
        }
        let ghost tids = ids_of(states@.map_values(|s: AudioTrackState| s.timeline_track_state.key));
        let ghost mids = ids_of(states@.map_values(|s: AudioTrackState| s.mixer_track_state.key));
        proof {
            assert(states@.take(states@.len() as int) =~= states@);
            assert(ids_of(timeline_states@.map_values(|t: TimelineTrackState| t.key)) =~= tids);
            assert(ids_of(mixer_states@.map_values(|t: MixerTrackState| t.key)) =~= mids);
            assert forall|j: int| 0 <= j < timeline_states@.len() implies !self.timeline.track_keys().contains(
                #[trigger] timeline_states@[j].key.0,
            ) by {
                assert(keys_free(*old(self), states@[j]));
            }
            assert forall|j: int| 0 <= j < mixer_states@.len() implies !self.mixer.keys().contains(#[trigger] mixer_states@[j].key.0) by {
                assert(keys_free(*old(self), states@[j]));
            }
        }
        self.timeline.reconstruct_tracks(&timeline_states);
        self.mixer.reconstruct_tracks(&mixer_states);
        let ghost ids = ids_of(states@.map_values(|s: AudioTrackState| s.key));
        let mut keys: Vec<AudioTrackKey> = Vec::new();
        let ghost tl = self.timeline;
        let ghost mx = self.mixer;
        let mut i: usize = 0;
        while i < states.len()
            invariant
                i <= states@.len(),
                self.timeline == tl,
                self.mixer == mx,
                tl.wf(),
                mx.wf(),
                ids == ids_of(states@.map_values(|s: AudioTrackState| s.key)),
                ids.no_duplicates(),
                forall|j: int| 0 <= j < states@.len() ==> keys_free(*old(self), #[trigger] states@[j]),
                old(self).audio_keys().len() + states@.len() <= u32::MAX,
                old(self).wf(),
                self.key_generator.wf(),
                self.key_generator.used() == old(self).audio_keys().union(ids.take(i as int).to_set()),
                self.key_generator.used().len() == old(self).audio_keys().len() + i,
                self.key_generator.last() == old(self).audio_key_last(),
                self.audio_tracks@.dom() == old(self).audio_tracks_spec().dom().union(ids.take(i as int).to_set()),
                forall|k: u32| #[trigger] old(self).audio_tracks_spec().contains_key(k) ==> self.audio_tracks@[k]
                    == old(self).audio_tracks_spec()[k],
                forall|j: int| 0 <= j < i ==> self.audio_tracks@[(#[trigger] states@[j]).key.0] == (
                states@[j].timeline_track_state.key, states@[j].mixer_track_state.key),
                keys@ == states@.take(i as int).map_values(|s: AudioTrackState| s.key),
            decreases states@.len() - i,
        {
            let s = &states[i];
            let key = s.key;
            proof {
                assert(ids[i as int] == key.0);
                assert(!ids.take(i as int).contains(key.0));
                assert(keys_free(*old(self), states@[i as int]));
                old(self).key_generator.lemma_wf();
            }
            let _ = self.key_generator.reserve(key);
            self.audio_tracks.insert(key.0, (s.timeline_track_state.key, s.mixer_track_state.key));
            keys.push(key);
            proof {
                assert(ids.take(i as int + 1) =~= ids.take(i as int).push(key.0));
                ids.take(i as int).lemma_push_to_set_commute(key.0);
                assert(self.key_generator.used() =~= old(self).audio_keys().union(ids.take(i as int + 1).to_set()));
                assert(self.audio_tracks@.dom() =~= old(self).audio_tracks_spec().dom().union(ids.take(i as int + 1).to_set()));
                assert forall|k: u32| #[trigger] old(self).audio_tracks_spec().contains_key(k) implies self.audio_tracks@[k]
                    == old(self).audio_tracks_spec()[k] by {
                    assert(k != key.0);
                }
                assert forall|j: int| 0 <= j < i + 1 implies self.audio_tracks@[(#[trigger] states@[j]).key.0] == (
                states@[j].timeline_track_state.key, states@[j].mixer_track_state.key) by {
                    if j < i {
                        assert(ids[j] == states@[j].key.0);
                        assert(ids[j] != ids[i as int]);
                    }
                }
                assert(states@.take(i as int + 1) =~= states@.take(i as int).push(states@[i as int]));
                assert(keys@ =~= states@.take(i as int + 1).map_values(|s: AudioTrackState| s.key));
            }
            i = i + 1;
        }
        proof {
            assert(ids.take(states@.len() as int) =~= ids);
            assert(states@.take(states@.len() as int) =~= states@);
            assert(ids_of(keys@) =~= ids);
            assert(self.audio_tracks@.dom() =~= self.key_generator.used());
            assert forall|j: int| 0 <= j < states@.len() implies {
                let t = (#[trigger] states@[j]).timeline_track_state;
                &&& self.timeline.clips_of(t.key.0) == Map::<u32, AudioClip>::empty()
                &&& self.timeline.tracks()[t.key.0].output_track == t.output_track
                &&& self.mixer.tracks()[states@[j].mixer_track_state.key.0] == states@[j].mixer_track_state
            } by {
                assert(timeline_states@[j].key == states@[j].timeline_track_state.key);
                assert(mixer_states@[j] == states@[j].mixer_track_state);
            }
        }
        Ok(keys)
    }

    /// The state of the engine: its timeline, its mixer, and every audio track with its two tracks.
    pub fn state(&self) -> (r: EngineState)
        requires
            self.wf(),
        ensures
            describes_engine(*self, r),
    {
        let mut audio_tracks: Vec<(AudioTrackKey, TimelineTrackKey, MixerTrackKey)> = Vec::new();
        let ghost m = self.audio_tracks@;
        for k in it: self.audio_tracks.keys()
            invariant
                m == self.audio_tracks@,
                it.seq().unref().no_duplicates(),
                it.seq().unref().to_set() == m.dom(),
                it.seq().len() == m.dom().len(),
                audio_tracks@.len() == it.index(),
                forall|i: int| 0 <= i < audio_tracks@.len() ==> (#[trigger] audio_tracks@[i]).0.0 == *it.seq()[i] && m.contains_key(
                    audio_tracks@[i].0.0,
                ) && m[audio_tracks@[i].0.0] == (audio_tracks@[i].1, audio_tracks@[i].2),
                it.index() == it.seq().len() ==> forall|k: u32| #[trigger] m.contains_key(k) ==> exists|i: int|
                    0 <= i < audio_tracks@.len() && #[trigger] audio_tracks@[i].0.0 == k,
        {
            let ghost ks = it.seq().unref();
            let ghost idx = it.index();
            proof {
                assert(ks[idx as int] == *k);
                assert(ks.to_set().contains(*k));
            }
            let (t, mk) = match self.audio_tracks.get(k) {
                Some(pair) => *pair,
                None => {
                    assert(false);
                    (TimelineTrackKey(0), MixerTrackKey(0))
                },
            };
            audio_tracks.push((AudioTrackKey(*k), t, mk));
            proof {
                assert forall|k2: u32| idx + 1 == ks.len() && #[trigger] m.contains_key(k2) implies exists|i: int|
                    0 <= i < audio_tracks@.len() && #[trigger] audio_tracks@[i].0.0 == k2 by {
                    assert(ks.to_set().contains(k2));
                    let i = choose|i: int| 0 <= i < ks.len() && ks[i] == k2;
                    assert(ks[i] == *it.seq()[i]);
                    assert(audio_tracks@[i].0.0 == k2);
                }
            }
        }
        proof {
            assert forall|i: int, j: int| 0 <= i < j < audio_tracks@.len() implies (#[trigger] audio_tracks@[i]).0 != (
            #[trigger] audio_tracks@[j]).0 by {
                assert(audio_tracks@[i].0.0 != audio_tracks@[j].0.0);
            }
        }
        let mixer = self.mixer.state();
        let timeline = self.timeline.state();
        EngineState { processor: ProcessorState { mixer, timeline }, audio_tracks }
    }
}

impl EngineCore {
    /// Rebuild the engine from its state, on a store already rebuilt from the state's stored
    /// clips (see [`Timeline::from_state`], [`Mixer::from_state`] and [`EngineCore::from_parts`]).
    pub fn from_state(state: &EngineState, sample_rate: u32, clip_store: AudioClipStore) -> (e: Self)
        requires
            engine_rebuild_ready(*state, sample_rate, clip_store),
        ensures
            engine_rebuilt(e, *state, sample_rate, clip_store),
    {
        let timeline = Timeline::from_state(&state.processor.timeline, sample_rate, clip_store);
        let mixer = Mixer::from_state(&state.processor.mixer);
        Self::from_parts(timeline, mixer, &state.audio_tracks)
    }
}

/// The state that deleting an audio track gives back can always be put back right away: its
/// keys are free again, and everything its timeline track needs is still there.
pub proof fn lemma_deleted_audio_track_reconstructible(e0: EngineCore, e1: EngineCore, key: AudioTrackKey, s: AudioTrackState)
    requires
        e0.wf(),
        e0.audio_keys().contains(key.0),
        e0.parts_exist(key.0),
        audio_track_deleted(e0, e1, key, s),
    ensures
        keys_free(e1, s),
        reconstruct_ready(e1, s),
{
    let t = e0.audio_tracks_spec()[key.0].0;
    let m = e0.audio_tracks_spec()[key.0].1;
    e0.timeline_spec().lemma_wf();
    e0.mixer_spec().lemma_wf();
    e0.key_generator.lemma_wf();
    e0.timeline_spec().lemma_described_clips(s.timeline_track_state);
    assert(s.mixer_track_state.key.0 == m.0);
    let clips = s.timeline_track_state.clips@;
    assert forall|i: int| 0 <= i < clips.len() implies e1.timeline_spec().state_fits(#[trigger] clips[i]) by {
        assert(e0.timeline_spec().state_fits(clips[i]));
    }
}

/// Deleting an audio track and then reconstructing it from the state that the deletion gave
/// back restores every audio track, timeline track (with its output and clips), clip key and
/// mixer track as they were.
pub proof fn lemma_delete_reconstruct_audio_track(
    e0: EngineCore,
    e1: EngineCore,
    e2: EngineCore,
    key: AudioTrackKey,
    s: AudioTrackState,
)
    requires
        e0.wf(),
        e0.audio_keys().contains(key.0),
        e0.parts_exist(key.0),
        audio_track_deleted(e0, e1, key, s),
        audio_track_reconstructed(e1, e2, s),
    ensures
        same_tracks(e0, e2),
{
    let t = e0.audio_tracks_spec()[key.0].0;
    let m = e0.audio_tracks_spec()[key.0].1;
    e0.timeline_spec().lemma_wf();
    e0.mixer_spec().lemma_wf();
    e0.timeline_spec().lemma_described_clips(s.timeline_track_state);
    assert(s.mixer_track_state.key.0 == m.0);
    crate::key_generator::Key::lemma_id_determines_key(s.mixer_track_state.key, m);
    assert(e2.audio_tracks_spec() =~= e0.audio_tracks_spec());
    assert(e2.audio_keys() =~= e0.audio_keys());
    assert(e2.timeline_spec().track_keys() =~= e0.timeline_spec().track_keys());
    assert(e2.timeline_spec().tracks().dom() =~= e0.timeline_spec().tracks().dom());
    assert(e2.mixer_spec().keys() =~= e0.mixer_spec().keys());
    assert(e2.mixer_spec().tracks() =~= e0.mixer_spec().tracks());
    assert forall|u: u32| #[trigger] e0.timeline_spec().tracks().contains_key(u) implies e0.timeline_spec().clips_of(u)
        == e2.timeline_spec().clips_of(u) && e0.timeline_spec().tracks()[u].output_track
        == e2.timeline_spec().tracks()[u].output_track by {
        if u != t.0 {
            assert(e1.timeline_spec().tracks().contains_key(u));
            assert(e1.timeline_spec().tracks()[u] == e0.timeline_spec().tracks()[u]);
        }
    }
}

/// Rebuilding an engine from its own state, on its timeline's store and at its sample rate, gives
/// back its timeline's tracks with their outputs and clips, its clip keys that lie on tracks (each
/// on the same track), its mixer's tracks, keys and master, and its audio tracks. When every clip
/// key in use belongs to a clip on a track (no timeline track was deleted with clips on it), the
/// clip keys are all the same.
pub proof fn lemma_engine_state_round_trip(e: EngineCore, st: EngineState, e2: EngineCore)
    requires
        e.wf(),
        describes_engine(e, st),
    ensures
        engine_rebuild_ready(st, e.timeline_spec().sample_rate_spec(), e.timeline_spec().store()),
        engine_rebuilt(e2, st, e.timeline_spec().sample_rate_spec(), e.timeline_spec().store()) ==> {
            &&& e2.timeline_spec().bpm() == e.timeline_spec().bpm()
            &&& e2.timeline_spec().sample_rate_spec() == e.timeline_spec().sample_rate_spec()
            &&& e2.timeline_spec().store() == e.timeline_spec().store()
            &&& e2.timeline_spec().track_keys() == e.timeline_spec().track_keys()
            &&& e2.timeline_spec().tracks().dom() == e.timeline_spec().tracks().dom()
            &&& forall|t: u32| #[trigger] e.timeline_spec().tracks().contains_key(t) ==> e2.timeline_spec().clips_of(t)
                == e.timeline_spec().clips_of(t) && e2.timeline_spec().tracks()[t].output_track
                == e.timeline_spec().tracks()[t].output_track
            &&& forall|k: u32| #[trigger] e2.timeline_spec().clip_keys().contains(k) <==> e.timeline_spec().clip_located(k)
            &&& forall|k: u32| #[trigger] e.timeline_spec().clip_located(k) ==> e2.timeline_spec().clip_to_track()[k]
                == e.timeline_spec().clip_to_track()[k]
            &&& (forall|k: u32| #[trigger] e.timeline_spec().clip_keys().contains(k) ==> e.timeline_spec().clip_located(k))
                ==> e2.timeline_spec().clip_keys() == e.timeline_spec().clip_keys()
                && e2.timeline_spec().clip_to_track() == e.timeline_spec().clip_to_track()
            &&& e2.mixer_spec().tracks() == e.mixer_spec().tracks()
            &&& e2.mixer_spec().keys() == e.mixer_spec().keys()
            &&& e2.mixer_spec().master_spec() == e.mixer_spec().master_spec()
            &&& e2.audio_keys() == e.audio_keys()
            &&& e2.audio_tracks_spec() == e.audio_tracks_spec()
        },
{
    let tl = e.timeline_spec();
    crate::timeline::lemma_state_round_trip(tl, st.processor.timeline, e2.timeline_spec());
    crate::mixer::lemma_mixer_state_round_trip(e.mixer_spec(), st.processor.mixer, e2.mixer_spec());
    e.key_generator.lemma_wf();
    let ats = st.audio_tracks@;
    let ids = ids_of(ats.map_values(|t: (AudioTrackKey, TimelineTrackKey, MixerTrackKey)| t.0));
    assert forall|x: int, y: int| 0 <= x < y < ids.len() implies ids[x] != ids[y] by {
        assert(ats[x].0 != ats[y].0);
    }
    assert(ids.to_set() =~= e.audio_keys()) by {
        assert forall|k: u32| ids.to_set().contains(k) <==> e.audio_keys().contains(k) by {
            if ids.to_set().contains(k) {
                let i = choose|i: int| 0 <= i < ids.len() && ids[i] == k;
                assert(e.audio_tracks_spec().contains_key(ats[i].0.0));
            }
            if e.audio_keys().contains(k) {
                assert(e.audio_tracks_spec().contains_key(k));
                let i = choose|i: int| 0 <= i < ats.len() && #[trigger] ats[i].0.0 == k;
                assert(ids[i] == k);
            }
        }
    }
    if engine_rebuilt(e2, st, tl.sample_rate_spec(), tl.store()) {
        e2.key_generator.lemma_wf();
        assert(e2.audio_tracks_spec() =~= e.audio_tracks_spec()) by {
            assert forall|k: u32| #[trigger] e2.audio_tracks_spec().contains_key(k) implies e2.audio_tracks_spec()[k]
                == e.audio_tracks_spec()[k] by {
                assert(e.audio_tracks_spec().contains_key(k));
                let i = choose|i: int| 0 <= i < ats.len() && #[trigger] ats[i].0.0 == k;
            }
        }
    }
}

/// The track keys of a state that describes a timeline are the timeline's track keys.
proof fn lemma_described_track_keys(tl: Timeline, st: TimelineState)
    requires
        describes_state(tl, st),
    ensures
        forall|x: TimelineTrackKey| #[trigger] state_track_keys(st.tracks@).contains(x) <==> tl.tracks().contains_key(x.0),
{
    let keys = st.tracks@.map_values(|t: TimelineTrackState| t.key);
    assert forall|x: TimelineTrackKey| #[trigger] state_track_keys(st.tracks@).contains(x) <==> tl.tracks().contains_key(x.0) by {
        if state_track_keys(st.tracks@).contains(x) {
            let i = choose|i: int| 0 <= i < keys.len() && keys[i] == x;
            assert(tl.describes_track(st.tracks@[i]));
        }
        if tl.tracks().contains_key(x.0) {
            let i = choose|i: int| 0 <= i < st.tracks@.len() && #[trigger] st.tracks@[i].key.0 == x.0;
            assert(keys[i] == x);
        }
    }
}

/// The state of an engine rebuilt from an engine's own state equals that state, as `==` on
/// states compares them (tracks, stored clips and audio tracks in any order).
pub proof fn lemma_engine_state_recreated(e: EngineCore, st: EngineState, e2: EngineCore, st2: EngineState)
    requires
        e.wf(),
        describes_engine(e, st),
        engine_rebuilt(e2, st, e.timeline_spec().sample_rate_spec(), e.timeline_spec().store()),
        describes_engine(e2, st2),
    ensures
        PartialEqSpec::eq_spec(&st2, &st),
{
    lemma_engine_state_round_trip(e, st, e2);
    lemma_described_track_keys(e.timeline_spec(), st.processor.timeline);
    lemma_described_track_keys(e2.timeline_spec(), st2.processor.timeline);
    assert(state_track_keys(st2.processor.timeline.tracks@) =~= state_track_keys(st.processor.timeline.tracks@));
    let m1 = st.processor.mixer.tracks@;
    let m2 = st2.processor.mixer.tracks@;
    assert forall|x: MixerTrackState| m2.to_set().contains(x) <==> m1.to_set().contains(x) by {
        if m2.to_set().contains(x) {
            let i = choose|i: int| 0 <= i < m2.len() && m2[i] == x;
            assert(e2.mixer_spec().tracks().contains_key(m2[i].key.0));
            let j = choose|j: int| 0 <= j < m1.len() && #[trigger] m1[j].key.0 == x.key.0;
            assert(m1[j] == x);
        }
        if m1.to_set().contains(x) {
            let i = choose|i: int| 0 <= i < m1.len() && m1[i] == x;
            assert(e.mixer_spec().tracks().contains_key(m1[i].key.0));
            let j = choose|j: int| 0 <= j < m2.len() && #[trigger] m2[j].key.0 == x.key.0;
            assert(m2[j] == x);
        }
    }
    assert(m2.to_set() =~= m1.to_set());
    let a1 = st.audio_tracks@;
    let a2 = st2.audio_tracks@;
    assert forall|x: (AudioTrackKey, TimelineTrackKey, MixerTrackKey)| a2.to_set().contains(x) <==> a1.to_set().contains(x) by {
        if a2.to_set().contains(x) {
            let i = choose|i: int| 0 <= i < a2.len() && a2[i] == x;
            assert(e2.audio_tracks_spec().contains_key(a2[i].0.0));
            let j = choose|j: int| 0 <= j < a1.len() && #[trigger] a1[j].0.0 == x.0.0;
            assert(a1[j] == x);
        }
        if a1.to_set().contains(x) {
            let i = choose|i: int| 0 <= i < a1.len() && a1[i] == x;
            assert(e.audio_tracks_spec().contains_key(a1[i].0.0));
            let j = choose|j: int| 0 <= j < a2.len() && #[trigger] a2[j].0.0 == x.0.0;
            assert(a2[j] == x);
        }
    }
    assert(a2.to_set() =~= a1.to_set());
}

} // verus!
