use vstd::prelude::*;

use std::collections::HashMap;

use vstd::std_specs::cmp::PartialEqSpecImpl;

use crate::key_generator::{ids_of, is_fresh_run, is_next_free, max_id, Key, KeyGenerator};
use crate::keys::MixerTrackKey;

verus! {

broadcast use vstd::std_specs::hash::group_hash_axioms;

/// What a mixer track keeps between sessions: its key, and its panning and volume, each as the
/// bit pattern of a 32-bit float (`f32::to_bits`).
#[derive(Debug, Clone, Copy, PartialEq, Eq, Hash, Structural)]
pub struct MixerTrackState {
    pub key: MixerTrackKey,
    pub panning: u32,
    pub volume: u32,
}

/// The bit pattern of the float 0.0: a centred track.
pub const CENTRED: u32 = 0;

/// The bit pattern of the float 1.0: unity gain.
pub const UNITY_GAIN: u32 = 0x3f80_0000;

/// The state of the mixer: its tracks, and the master track that they all play into.
#[derive(Debug, Clone)]
pub struct MixerState {
    pub tracks: Vec<MixerTrackState>,
    pub master: MixerTrackState,
}

/// Every track state of `a` is one of `b`.
fn track_states_within(a: &Vec<MixerTrackState>, b: &Vec<MixerTrackState>) -> (r: bool)
    ensures
        r == a@.to_set().subset_of(b@.to_set()),
{
    let mut i: usize = 0;
    while i < a.len()
        invariant
            i <= a.len(),
            forall|k: int| 0 <= k < i ==> b@.contains(#[trigger] a@[k]),
        decreases a.len() - i,
    {
        let mut j: usize = 0;
        let mut found = false;
        while j < b.len() && !found
            invariant
                i < a.len(),
                j <= b.len(),
                found ==> b@.contains(a@[i as int]),
                !found ==> forall|k: int| 0 <= k < j ==> #[trigger] b@[k] != a@[i as int],
            decreases (b.len() - j) * 2 + (if found { 0int } else { 1int }),
        {
            if a[i] == b[j] {
                assert(b@[j as int] == a@[i as int]);
                found = true;
            } else {
                j = j + 1;
            }
        }
        if !found {
            proof {
                assert(!b@.contains(a@[i as int]));
                assert(a@.to_set().contains(a@[i as int]));
            }
            return false;
        }
        i = i + 1;
    }
    proof {
        assert forall|x| #[trigger] a@.to_set().contains(x) implies b@.to_set().contains(x) by {
            let k = choose|k: int| 0 <= k < a@.len() && a@[k] == x;
            assert(b@.contains(a@[k]));
        }
    }
    true
}

impl Default for MixerState {
    /// No tracks, and a master track under key 0, centred at unity gain.
    fn default() -> (r: Self)
        ensures
            r.tracks@.len() == 0,
            r.master == fresh_track(MixerTrackKey(0)),
    {
        MixerState { tracks: Vec::new(), master: MixerTrackState { key: MixerTrackKey(0), panning: CENTRED, volume: UNITY_GAIN } }
    }
}

impl PartialEq for MixerState {
    /// Two mixer states are equal when they hold the same track states, in any order, and the same
    /// master track.
    fn eq(&self, other: &Self) -> (r: bool) {
        let r = track_states_within(&self.tracks, &other.tracks) && track_states_within(&other.tracks, &self.tracks)
            && self.master == other.master;
        proof {
            if r {
                assert(self.tracks@.to_set() =~= other.tracks@.to_set());
            }
        }
        r
    }
}

impl PartialEqSpecImpl for MixerState {
    open spec fn obeys_eq_spec() -> bool {
        true
    }

    open spec fn eq_spec(&self, other: &Self) -> bool {
        &&& self.tracks@.to_set() == other.tracks@.to_set()
        &&& self.master == other.master
    }
}

impl Eq for MixerState {}

/// Produced when no mixer track has the given key.
#[derive(Debug, PartialEq, Eq, Structural)]
pub struct InvalidMixerTrackError {
    pub key: MixerTrackKey,
}

/// Produced when no key is left for another mixer track.
#[derive(Debug, PartialEq, Eq, Structural)]
pub struct MixerTrackOverflowError;

/// A change that the audio thread's copy of the mixer has to follow.
#[derive(Debug)]
pub enum MixerEvent {
    AddTrack { state: MixerTrackState },
    AddTracks { states: Vec<MixerTrackState> },
    RemoveTrack { key: MixerTrackKey },
    RemoveTracks { keys: Vec<MixerTrackKey> },
    SetParameters { state: MixerTrackState },
    SetMasterParameters { state: MixerTrackState },
}

/// A fresh track: centred, at unity gain.
pub open spec fn fresh_track(key: MixerTrackKey) -> MixerTrackState {
    MixerTrackState { key, panning: CENTRED, volume: UNITY_GAIN }
}

/// `new` is `old` with one more event at its end.
pub open spec fn one_mixer_event_pushed(old: Seq<MixerEvent>, new: Seq<MixerEvent>) -> bool {
    new.len() == old.len() + 1 && new.drop_last() == old
}

/// The tracks of the mixer, by key id, and the changes not yet given to the audio thread.
pub struct Mixer {
    key_generator: KeyGenerator<MixerTrackKey>,
    tracks: HashMap<u32, MixerTrackState>,
    master: MixerTrackState,
    events: Vec<MixerEvent>,
}

impl Mixer {
    /// The tracks, by key id.
    pub closed spec fn tracks(&self) -> Map<u32, MixerTrackState> {
        self.tracks@
    }

    /// The ids of the keys in use.
    pub closed spec fn keys(&self) -> Set<u32> {
        self.key_generator.used()
    }

    /// The id of the key handed out last.
    pub closed spec fn key_last(&self) -> u32 {
        self.key_generator.last()
    }

    pub closed spec fn master_spec(&self) -> MixerTrackState {
        self.master
    }

    /// The changes not yet handed to the audio thread, oldest first.
    pub closed spec fn events(&self) -> Seq<MixerEvent> {
        self.events@
    }

    pub closed spec fn wf(&self) -> bool {
        &&& self.key_generator.wf()
        &&& self.tracks@.dom() == self.key_generator.used()
        &&& forall|k: u32| #[trigger] self.tracks@.contains_key(k) ==> self.tracks@[k].key.0 == k
    }

    /// The tracks of a well-formed mixer are those whose keys are in use, each under its own key.
    pub proof fn lemma_wf(&self)
        requires
            self.wf(),
        ensures
            self.tracks().dom() == self.keys(),
            forall|k: u32| #[trigger] self.tracks().contains_key(k) ==> self.tracks()[k].key.0 == k,
            self.keys().finite(),
            self.keys().len() <= u32::MAX,
    {
        self.key_generator.lemma_wf();
    }

    /// A mixer with the tracks and master of the state, whose key counter stands at the largest
    /// key among them.
    pub fn from_state(state: &MixerState) -> (m: Self)
        requires
            state.tracks@.len() <= u32::MAX,
            ids_of(state.tracks@.map_values(|t: MixerTrackState| t.key)).no_duplicates(),
        ensures
            m.wf(),
            mixer_rebuilt(m, *state),
            m.events() == Seq::<MixerEvent>::empty(),
    {
        let ghost ids = ids_of(state.tracks@.map_values(|t: MixerTrackState| t.key));
        let mut keys: Vec<MixerTrackKey> = Vec::new();
        let mut tracks: HashMap<u32, MixerTrackState> = HashMap::new();
        let mut i: usize = 0;
        while i < state.tracks.len()
            invariant
                i <= state.tracks@.len(),
                ids == ids_of(state.tracks@.map_values(|t: MixerTrackState| t.key)),
                ids.no_duplicates(),
                keys@ == state.tracks@.take(i as int).map_values(|t: MixerTrackState| t.key),
                tracks@.dom() == ids.take(i as int).to_set(),
                forall|j: int| 0 <= j < i ==> tracks@[#[trigger] state.tracks@[j].key.0] == state.tracks@[j],
                forall|k: u32| #[trigger] tracks@.contains_key(k) ==> tracks@[k].key.0 == k,
            decreases state.tracks@.len() - i,
        {
            let t = state.tracks[i];
            keys.push(t.key);
            tracks.insert(t.key.0, t);
            proof {
                assert(ids[i as int] == t.key.0);
                assert(ids.take(i as int + 1) =~= ids.take(i as int).push(t.key.0));
                ids.take(i as int).lemma_push_to_set_commute(t.key.0);
                assert(tracks@.dom() =~= ids.take(i as int + 1).to_set());
                assert(state.tracks@.take(i as int + 1) =~= state.tracks@.take(i as int).push(t));
                assert(keys@ =~= state.tracks@.take(i as int + 1).map_values(|t: MixerTrackState| t.key));
                assert forall|j: int| 0 <= j < i + 1 implies tracks@[#[trigger] state.tracks@[j].key.0] == state.tracks@[j] by {
                    if j < i {
                        assert(ids[j] == state.tracks@[j].key.0);
                        assert(ids[j] != ids[i as int]);
                    }
                }
            }
            i = i + 1;
        }
        proof {
            assert(ids.take(state.tracks@.len() as int) =~= ids);
            assert(state.tracks@.take(state.tracks@.len() as int) =~= state.tracks@);
            assert(keys@.map_values(|k: MixerTrackKey| k.key_id()) =~= ids);
            assert forall|x: int, y: int| 0 <= x < y < keys@.len() implies keys@[x].key_id() != keys@[y].key_id() by {
                assert(ids[x] != ids[y]);
            }
        }
        let key_generator = KeyGenerator::from_keys(keys.as_slice());
        Mixer { key_generator, tracks, master: state.master, events: Vec::new() }
    }

    /// The master track.
    pub fn master(&self) -> (r: MixerTrackState)
        ensures
            r == self.master_spec(),
    {
        self.master
    }

    /// The track with the given key.
    pub fn track(&self, key: MixerTrackKey) -> (r: Result<MixerTrackState, InvalidMixerTrackError>)
        requires
            self.wf(),
        ensures
            r is Ok <==> self.tracks().contains_key(key.0),
            r matches Ok(t) ==> t == self.tracks()[key.0] && t.key == key,
            r matches Err(e) ==> e.key == key,
    {
        match self.tracks.get(&key.0) {
            Some(t) => {
                proof {
                    crate::key_generator::Key::lemma_id_determines_key(t.key, key);
                }
                Ok(*t)
            },
            None => Err(InvalidMixerTrackError { key }),
        }
    }

    /// Whether a mixer track has the key.
    pub fn key_in_use(&self, key: MixerTrackKey) -> (r: bool)
        requires
            self.wf(),
        ensures
            r == self.keys().contains(key.0),
    {
        self.key_generator.in_use(key)
    }

    /// How many more mixer tracks can be added.
    pub fn remaining_keys(&self) -> (r: u32)
        requires
            self.wf(),
        ensures
            r == u32::MAX - self.keys().len(),
    {
        self.key_generator.remaining_keys()
    }

    /// Hand over the changes not yet given to the audio thread, oldest first.
    pub fn take_events(&mut self) -> (r: Vec<MixerEvent>)
        ensures
            r@ == old(self).events(),
            final(self).events() == Seq::<MixerEvent>::empty(),
            final(self).tracks() == old(self).tracks(),
            final(self).keys() == old(self).keys(),
            final(self).key_last() == old(self).key_last(),
            final(self).master_spec() == old(self).master_spec(),
            old(self).wf() ==> final(self).wf(),
    {
        let mut taken: Vec<MixerEvent> = Vec::new();
        std::mem::swap(&mut taken, &mut self.events);
        taken
    }

    /// Set the panning and volume of the track with the given key.
    pub fn set_track_parameters(&mut self, key: MixerTrackKey, panning: u32, volume: u32) -> (r: Result<(), InvalidMixerTrackError>)
        requires
            old(self).wf(),
        ensures
            final(self).wf(),
            r is Ok <==> old(self).tracks().contains_key(key.0),
            r matches Err(e) ==> e.key == key && *final(self) == *old(self),
            r is Ok ==> {
                let t = MixerTrackState { key, panning, volume };
                &&& final(self).tracks() == old(self).tracks().insert(key.0, t)
                &&& final(self).keys() == old(self).keys()
                &&& final(self).key_last() == old(self).key_last()
                &&& final(self).master_spec() == old(self).master_spec()
                &&& one_mixer_event_pushed(old(self).events(), final(self).events())
                &&& final(self).events().last() matches MixerEvent::SetParameters { state: s } && s == t
            },
    {
        if !self.tracks.contains_key(&key.0) {
            return Err(InvalidMixerTrackError { key });
        }
        let t = MixerTrackState { key, panning, volume };
        self.tracks.insert(key.0, t);
        proof {
            assert(self.tracks@.dom() =~= self.key_generator.used());
        }
        let ghost old_events = self.events@;
        self.events.push(MixerEvent::SetParameters { state: t });
        assert(self.events@.drop_last() =~= old_events);
        Ok(())
    }

    /// Set the panning and volume of the master track.
    pub fn set_master_parameters(&mut self, panning: u32, volume: u32)
        requires
            old(self).wf(),
        ensures
            final(self).wf(),
            final(self).master_spec() == (MixerTrackState { panning, volume, ..old(self).master_spec() }),
            final(self).tracks() == old(self).tracks(),
            final(self).keys() == old(self).keys(),
            final(self).key_last() == old(self).key_last(),
            one_mixer_event_pushed(old(self).events(), final(self).events()),
            final(self).events().last() matches MixerEvent::SetMasterParameters { state: s } && s == final(self).master_spec(),
    {
        self.master = MixerTrackState { key: self.master.key, panning, volume };
        let ghost old_events = self.events@;
        self.events.push(MixerEvent::SetMasterParameters { state: self.master });
        assert(self.events@.drop_last() =~= old_events);
    }

    /// Add a fresh track under the next free key.
    pub fn add_track(&mut self) -> (r: Result<MixerTrackKey, MixerTrackOverflowError>)
        requires
            old(self).wf(),
        ensures
            final(self).wf(),
            final(self).master_spec() == old(self).master_spec(),
            r is Err <==> old(self).keys().len() == u32::MAX,
            r is Err ==> *final(self) == *old(self),
            r matches Ok(key) ==> {
                &&& is_next_free(old(self).key_last(), old(self).keys(), key.0)
                &&& final(self).keys() == old(self).keys().insert(key.0)
                &&& final(self).key_last() == key.0
                &&& final(self).tracks() == old(self).tracks().insert(key.0, fresh_track(key))
                &&& one_mixer_event_pushed(old(self).events(), final(self).events())
                &&& final(self).events().last() matches MixerEvent::AddTrack { state: s } && s == fresh_track(key)
            },
    {
        let key = match self.key_generator.next() {
            Ok(key) => key,
            Err(_) => return Err(MixerTrackOverflowError),
        };
        let t = MixerTrackState { key, panning: CENTRED, volume: UNITY_GAIN };
        self.tracks.insert(key.0, t);
        proof {
            assert(self.tracks@.dom() =~= self.key_generator.used());
        }
        let ghost old_events = self.events@;
        self.events.push(MixerEvent::AddTrack { state: t });
        assert(self.events@.drop_last() =~= old_events);
        Ok(key)
    }

    /// Add `count` fresh tracks under the next free keys, in order; fails, changing nothing, when
    /// fewer keys are left.
    #[verifier::loop_isolation(false)]
    pub fn add_tracks(&mut self, count: u32) -> (r: Result<Vec<MixerTrackKey>, MixerTrackOverflowError>)
        requires
            old(self).wf(),
        ensures
            final(self).wf(),
            final(self).master_spec() == old(self).master_spec(),
            r is Err <==> count > u32::MAX - old(self).keys().len(),
            r is Err ==> *final(self) == *old(self),
            r matches Ok(keys) ==> {
                let ids = ids_of(keys@);
                &&& keys@.len() == count
                &&& is_fresh_run(old(self).key_last(), old(self).keys(), ids)
                &&& final(self).keys() == old(self).keys().union(ids.to_set())
                &&& final(self).key_last() == (if count == 0 { old(self).key_last() } else { ids.last() })
                &&& final(self).tracks().dom() == old(self).tracks().dom().union(ids.to_set())
                &&& forall|k: u32| #[trigger] old(self).tracks().contains_key(k) ==> final(self).tracks()[k] == old(self).tracks()[k]
                &&& forall|i: int| 0 <= i < keys@.len() ==> final(self).tracks()[#[trigger] keys@[i].0] == fresh_track(keys@[i])
                &&& one_mixer_event_pushed(old(self).events(), final(self).events())
                &&& final(self).events().last() matches MixerEvent::AddTracks { states: s } && s@ == keys@.map_values(
                    |k: MixerTrackKey| fresh_track(k),
                )
            },
    {
        let keys = match self.key_generator.next_n(count) {
            Ok(keys) => keys,
            Err(_) => return Err(MixerTrackOverflowError),
        };
        let ghost ids = ids_of(keys@);
        let mut states: Vec<MixerTrackState> = Vec::new();
        proof {
            assert(ids.take(0).to_set() =~= Set::<u32>::empty());
            assert(self.tracks@.dom() =~= old(self).tracks@.dom().union(ids.take(0).to_set()));
            assert(states@ =~= keys@.take(0).map_values(|k: MixerTrackKey| fresh_track(k)));
        }
        let mut i: usize = 0;
        while i < keys.len()
            invariant
                i <= keys@.len(),
                ids == ids_of(keys@),
                ids.no_duplicates(),
                keys@.len() == count,
                count <= u32::MAX - old(self).keys().len(),
                self.key_generator.last() == (if count == 0 { old(self).key_last() } else { ids.last() }),
                forall|j: int| 0 <= j < ids.len() ==> !old(self).keys().contains(#[trigger] ids[j]),
                old(self).wf(),
                self.key_generator.wf(),
                self.key_generator.used() == old(self).keys().union(ids.to_set()),
                self.master == old(self).master,
                self.events == old(self).events,
                self.tracks@.dom() == old(self).tracks@.dom().union(ids.take(i as int).to_set()),
                forall|k: u32| #[trigger] old(self).tracks@.contains_key(k) ==> self.tracks@[k] == old(self).tracks@[k],
                forall|j: int| 0 <= j < i ==> self.tracks@[#[trigger] keys@[j].0] == fresh_track(keys@[j]),
                forall|k: u32| #[trigger] self.tracks@.contains_key(k) ==> self.tracks@[k].key.0 == k,
                states@ == keys@.take(i as int).map_values(|k: MixerTrackKey| fresh_track(k)),
            decreases keys@.len() - i,
        {
            let key = keys[i];
            let t = MixerTrackState { key, panning: CENTRED, volume: UNITY_GAIN };
            self.tracks.insert(key.0, t);
            states.push(t);
            proof {
                assert(ids[i as int] == key.0);
                assert(ids.take(i as int + 1) =~= ids.take(i as int).push(key.0));
                ids.take(i as int).lemma_push_to_set_commute(key.0);
                assert(self.tracks@.dom() =~= old(self).tracks@.dom().union(ids.take(i as int + 1).to_set()));
                assert forall|k: u32| #[trigger] old(self).tracks@.contains_key(k) implies self.tracks@[k] == old(self).tracks@[k] by {
                    assert(k != key.0);
                }
                assert forall|j: int| 0 <= j < i + 1 implies self.tracks@[#[trigger] keys@[j].0] == fresh_track(keys@[j]) by {
                    if j < i {
                        assert(ids[j] == keys@[j].0);
                        assert(ids[j] != ids[i as int]);
                    }
                }
                assert(keys@.take(i as int + 1) =~= keys@.take(i as int).push(key));
                assert(states@ =~= keys@.take(i as int + 1).map_values(|k: MixerTrackKey| fresh_track(k)));
            }
            i = i + 1;
        }
        proof {
            assert(ids.take(keys@.len() as int) =~= ids);
            assert(keys@.take(keys@.len() as int) =~= keys@);
            assert(self.tracks@.dom() =~= self.key_generator.used());
        }
        let ghost old_events = self.events@;
        self.events.push(MixerEvent::AddTracks { states });
        assert(self.events@.drop_last() =~= old_events);
        Ok(keys)
    }

    /// Put a deleted track back under its key.
    pub fn reconstruct_track(&mut self, state: &MixerTrackState)
        requires
            old(self).wf(),
            !old(self).keys().contains(state.key.0),
            old(self).keys().len() < u32::MAX,
        ensures
            final(self).wf(),
            final(self).master_spec() == old(self).master_spec(),
            final(self).keys() == old(self).keys().insert(state.key.0),
            final(self).key_last() == old(self).key_last(),
            final(self).tracks() == old(self).tracks().insert(state.key.0, *state),
            one_mixer_event_pushed(old(self).events(), final(self).events()),
            final(self).events().last() matches MixerEvent::AddTrack { state: s } && s == *state,
    {
        let _ = self.key_generator.reserve(state.key);
        self.tracks.insert(state.key.0, *state);
        proof {
            assert(self.tracks@.dom() =~= self.key_generator.used());
        }
        let ghost old_events = self.events@;
        self.events.push(MixerEvent::AddTrack { state: *state });
        assert(self.events@.drop_last() =~= old_events);
    }

    /// Put deleted tracks back, each under its key.
    pub fn reconstruct_tracks(&mut self, states: &Vec<MixerTrackState>)
        requires
            old(self).wf(),
            ids_of(states@.map_values(|t: MixerTrackState| t.key)).no_duplicates(),
            forall|i: int| 0 <= i < states@.len() ==> !old(self).keys().contains(#[trigger] states@[i].key.0),
            old(self).keys().len() + states@.len() <= u32::MAX,
        ensures
            final(self).wf(),
            final(self).master_spec() == old(self).master_spec(),
            ({
                let ids = ids_of(states@.map_values(|t: MixerTrackState| t.key));
                &&& final(self).keys() == old(self).keys().union(ids.to_set())
                &&& final(self).tracks().dom() == old(self).tracks().dom().union(ids.to_set())
            }),
            final(self).key_last() == old(self).key_last(),
            forall|k: u32| #[trigger] old(self).tracks().contains_key(k) ==> final(self).tracks()[k] == old(self).tracks()[k],
            forall|i: int| 0 <= i < states@.len() ==> final(self).tracks()[#[trigger] states@[i].key.0] == states@[i],
            one_mixer_event_pushed(old(self).events(), final(self).events()),
            final(self).events().last() matches MixerEvent::AddTracks { states: s } && s@ == states@,
    {
        let ghost ids = ids_of(states@.map_values(|t: MixerTrackState| t.key));
        let mut added: Vec<MixerTrackState> = Vec::new();
        let mut i: usize = 0;
        while i < states.len()
            invariant
                i <= states@.len(),
                ids == ids_of(states@.map_values(|t: MixerTrackState| t.key)),
                ids.no_duplicates(),
                forall|j: int| 0 <= j < states@.len() ==> !old(self).keys().contains(#[trigger] states@[j].key.0),
                old(self).keys().len() + states@.len() <= u32::MAX,
                old(self).wf(),
                self.key_generator.wf(),
                self.key_generator.used() == old(self).keys().union(ids.take(i as int).to_set()),
                self.key_generator.used().len() == old(self).keys().len() + i,
                self.key_generator.last() == old(self).key_last(),
                self.master == old(self).master,
                self.events == old(self).events,
                self.tracks@.dom() == old(self).tracks@.dom().union(ids.take(i as int).to_set()),
                forall|k: u32| #[trigger] old(self).tracks@.contains_key(k) ==> self.tracks@[k] == old(self).tracks@[k],
                forall|j: int| 0 <= j < i ==> self.tracks@[#[trigger] states@[j].key.0] == states@[j],
                forall|k: u32| #[trigger] self.tracks@.contains_key(k) ==> self.tracks@[k].key.0 == k,
                added@ == states@.take(i as int),
            decreases states@.len() - i,
        {
            let t = states[i];
            proof {
                assert(ids[i as int] == t.key.0);
                assert(!ids.take(i as int).contains(t.key.0));
            }
            let _ = self.key_generator.reserve(t.key);
            self.tracks.insert(t.key.0, t);
            added.push(t);
            proof {
                assert(ids.take(i as int + 1) =~= ids.take(i as int).push(t.key.0));
                ids.take(i as int).lemma_push_to_set_commute(t.key.0);
                assert(self.key_generator.used() =~= old(self).keys().union(ids.take(i as int + 1).to_set()));
                assert(self.tracks@.dom() =~= old(self).tracks@.dom().union(ids.take(i as int + 1).to_set()));
                assert forall|k: u32| #[trigger] old(self).tracks@.contains_key(k) implies self.tracks@[k] == old(self).tracks@[k] by {
                    assert(k != t.key.0);
                }
                assert forall|j: int| 0 <= j < i + 1 implies self.tracks@[#[trigger] states@[j].key.0] == states@[j] by {
                    if j < i {
                        assert(ids[j] == states@[j].key.0);
                        assert(ids[j] != ids[i as int]);
                    }
                }
                assert(added@ =~= states@.take(i as int + 1));
            }
            i = i + 1;
        }
        proof {
            assert(ids.take(states@.len() as int) =~= ids);
            assert(added@ =~= states@);
            assert(self.tracks@.dom() =~= self.key_generator.used());
        }
        let ghost old_events = self.events@;
        self.events.push(MixerEvent::AddTracks { states: added });
        assert(self.events@.drop_last() =~= old_events);
    }

    /// Delete the track with the given key.
    pub fn delete_track(&mut self, key: MixerTrackKey) -> (r: Result<(), InvalidMixerTrackError>)
        requires
            old(self).wf(),
        ensures
            final(self).wf(),
            r is Ok <==> old(self).keys().contains(key.0),
            r matches Err(e) ==> e.key == key && *final(self) == *old(self),
            r is Ok ==> {
                &&& final(self).keys() == old(self).keys().remove(key.0)
                &&& final(self).key_last() == old(self).key_last()
                &&& final(self).tracks() == old(self).tracks().remove(key.0)
                &&& final(self).master_spec() == old(self).master_spec()
                &&& one_mixer_event_pushed(old(self).events(), final(self).events())
                &&& final(self).events().last() matches MixerEvent::RemoveTrack { key: k } && k == key
            },
    {
        if !self.key_generator.in_use(key) {
            return Err(InvalidMixerTrackError { key });
        }
        let _ = self.key_generator.free(key);
        let _ = self.tracks.remove(&key.0);
        proof {
            assert(self.tracks@.dom() =~= self.key_generator.used());
        }
        let ghost old_events = self.events@;
        self.events.push(MixerEvent::RemoveTrack { key });
        assert(self.events@.drop_last() =~= old_events);
        Ok(())
    }

    /// Delete the tracks with the given keys; fails, changing nothing, on the first key that
    /// belongs to no track.
    pub fn delete_tracks(&mut self, keys: Vec<MixerTrackKey>) -> (r: Result<(), InvalidMixerTrackError>)
        requires
            old(self).wf(),
            ids_of(keys@).no_duplicates(),
        ensures
            final(self).wf(),
            r is Ok <==> forall|i: int| 0 <= i < keys@.len() ==> old(self).keys().contains(#[trigger] keys@[i].0),
            r matches Err(e) ==> *final(self) == *old(self) && exists|i: int|
                0 <= i < keys@.len() && keys@[i] == e.key && !old(self).keys().contains(#[trigger] keys@[i].0) && forall|j: int|
                    0 <= j < i ==> old(self).keys().contains(#[trigger] keys@[j].0),
            r is Ok ==> {
                let ids = ids_of(keys@).to_set();
                &&& final(self).keys() == old(self).keys().difference(ids)
                &&& final(self).key_last() == old(self).key_last()
                &&& final(self).tracks() == old(self).tracks().remove_keys(ids)
                &&& final(self).master_spec() == old(self).master_spec()
                &&& one_mixer_event_pushed(old(self).events(), final(self).events())
                &&& final(self).events().last() matches MixerEvent::RemoveTracks { keys: k } && k@ == keys@
            },
    {
        let mut i: usize = 0;
        while i < keys.len()
            invariant
                self.wf(),
                *self == *old(self),
                i <= keys@.len(),
                forall|j: int| 0 <= j < i ==> self.keys().contains(#[trigger] keys@[j].0),
            decreases keys@.len() - i,
        {
            if !self.key_generator.in_use(keys[i]) {
                return Err(InvalidMixerTrackError { key: keys[i] });
            }
            i = i + 1;
        }
        let ghost ids = ids_of(keys@);
        let mut i: usize = 0;
        while i < keys.len()
            invariant
                self.key_generator.wf(),
                self.master == old(self).master,
                self.events == old(self).events,
                ids == ids_of(keys@),
                ids.no_duplicates(),
                forall|j: int| 0 <= j < keys@.len() ==> old(self).keys().contains(#[trigger] keys@[j].0),
                i <= keys@.len(),
                self.key_generator.used() == old(self).keys().difference(ids.take(i as int).to_set()),
                self.key_generator.last() == old(self).key_last(),
                self.tracks@ == old(self).tracks@.remove_keys(ids.take(i as int).to_set()),
                old(self).wf(),
            decreases keys@.len() - i,
        {
            let key = keys[i];
            proof {
                assert(ids[i as int] == key.0);
                ids.take(i as int).lemma_push_to_set_commute(key.0);
                assert(ids.take(i as int + 1) =~= ids.take(i as int).push(key.0));
            }
            let _ = self.key_generator.free(key);
            let _ = self.tracks.remove(&key.0);
            i = i + 1;
            assert(self.key_generator.used() =~= old(self).keys().difference(ids.take(i as int).to_set()));
            assert(self.tracks@ =~= old(self).tracks@.remove_keys(ids.take(i as int).to_set()));
        }
        assert(ids.take(keys@.len() as int) =~= ids);
        proof {
            assert(self.tracks@.dom() =~= self.key_generator.used());
        }
        let ghost old_events = self.events@;
        self.events.push(MixerEvent::RemoveTracks { keys });
        assert(self.events@.drop_last() =~= old_events);
        Ok(())
    }

    /// The state of the mixer: every track, each once, and the master.
    pub fn state(&self) -> (r: MixerState)
        requires
            self.wf(),
        ensures
            describes_mixer(*self, r),
    {
        let mut tracks: Vec<MixerTrackState> = Vec::new();
        let ghost m = self.tracks@;
        for k in it: self.tracks.keys()
            invariant
                self.wf(),
                m == self.tracks@,
                it.seq().unref().no_duplicates(),
                it.seq().unref().to_set() == m.dom(),
                it.seq().len() == m.dom().len(),
                tracks@.len() == it.index(),
                forall|i: int| 0 <= i < tracks@.len() ==> tracks@[i] == m[*it.seq()[i]] && tracks@[i].key.0 == *it.seq()[i],
                forall|i: int| 0 <= i < tracks@.len() ==> m.contains_key(#[trigger] tracks@[i].key.0) && m[tracks@[i].key.0] == tracks@[i],
                forall|i: int, j: int| 0 <= i < j < tracks@.len() ==> (#[trigger] tracks@[i]).key != (#[trigger] tracks@[j]).key,
                it.index() == it.seq().len() ==> forall|k: u32| #[trigger] m.contains_key(k) ==> exists|i: int|
                    0 <= i < tracks@.len() && #[trigger] tracks@[i].key.0 == k,
        {
            let ghost ks = it.seq().unref();
            let ghost idx = it.index();
            proof {
                assert(ks[idx as int] == *k);
                assert(ks.to_set().contains(*k));
            }
            let t = match self.tracks.get(k) {
                Some(t) => *t,
                None => {
                    assert(false);
                    return MixerState { tracks, master: self.master };
                },
            };
            tracks.push(t);
            proof {
                assert(tracks@[idx as int].key.0 == *k);
                assert forall|i: int, j: int| 0 <= i < j < tracks@.len() implies (#[trigger] tracks@[i]).key != (#[trigger] tracks@[j]).key by {
                    assert(ks[i] == *it.seq()[i]);
                    assert(ks[j] == *it.seq()[j]);
                }
                assert forall|k2: u32| idx + 1 == ks.len() && #[trigger] m.contains_key(k2) implies exists|i: int|
                    0 <= i < tracks@.len() && #[trigger] tracks@[i].key.0 == k2 by {
                    assert(ks.to_set().contains(k2));
                    let i = choose|i: int| 0 <= i < ks.len() && ks[i] == k2;
                    assert(ks[i] == *it.seq()[i]);
                    assert(tracks@[i].key.0 == k2);
                }
            }
        }
        MixerState { tracks, master: self.master }
    }
}

/// `st` is the state of `m`: its master, and every track, each once.
pub open spec fn describes_mixer(m: Mixer, st: MixerState) -> bool {
    &&& st.master == m.master_spec()
    &&& st.tracks@.len() == m.tracks().dom().len()
    &&& forall|i: int| 0 <= i < st.tracks@.len() ==> m.tracks().contains_key(#[trigger] st.tracks@[i].key.0)
        && m.tracks()[st.tracks@[i].key.0] == st.tracks@[i]
    &&& forall|i: int, j: int| 0 <= i < j < st.tracks@.len() ==> (#[trigger] st.tracks@[i]).key != (#[trigger] st.tracks@[j]).key
    &&& forall|k: u32| #[trigger] m.tracks().contains_key(k) ==> exists|i: int| 0 <= i < st.tracks@.len() && #[trigger] st.tracks@[i].key.0 == k
}

/// `m` was built from `st`: its keys, each holding its track, are those of the state's tracks, its
/// key counter stands at the largest of them, and its master is the state's.
pub open spec fn mixer_rebuilt(m: Mixer, st: MixerState) -> bool {
    let ids = ids_of(st.tracks@.map_values(|t: MixerTrackState| t.key));
    &&& m.keys() == ids.to_set()
    &&& m.key_last() == max_id(ids)
    &&& m.tracks().dom() == ids.to_set()
    &&& forall|i: int| 0 <= i < st.tracks@.len() ==> m.tracks()[#[trigger] st.tracks@[i].key.0] == st.tracks@[i]
    &&& m.master_spec() == st.master
}

/// Rebuilding a mixer from its own state gives back its tracks, keys and master.
pub proof fn lemma_mixer_state_round_trip(m: Mixer, st: MixerState, m2: Mixer)
    requires
        m.wf(),
        describes_mixer(m, st),
    ensures
        st.tracks@.len() <= u32::MAX,
        ids_of(st.tracks@.map_values(|t: MixerTrackState| t.key)).no_duplicates(),
        mixer_rebuilt(m2, st) ==> {
            &&& m2.tracks() == m.tracks()
            &&& m2.keys() == m.keys()
            &&& m2.master_spec() == m.master_spec()
        },
{
    m.lemma_wf();
    let ids = ids_of(st.tracks@.map_values(|t: MixerTrackState| t.key));
    assert forall|x: int, y: int| 0 <= x < y < ids.len() implies ids[x] != ids[y] by {
        assert(st.tracks@[x].key != st.tracks@[y].key);
    }
    assert(ids.to_set() =~= m.keys()) by {
        assert forall|k: u32| ids.to_set().contains(k) <==> m.keys().contains(k) by {
            if ids.to_set().contains(k) {
                let i = choose|i: int| 0 <= i < ids.len() && ids[i] == k;
                assert(m.tracks().contains_key(st.tracks@[i].key.0));
            }
            if m.keys().contains(k) {
                assert(m.tracks().contains_key(k));
                let i = choose|i: int| 0 <= i < st.tracks@.len() && #[trigger] st.tracks@[i].key.0 == k;
                assert(ids[i] == k);
            }
        }
    }
    if mixer_rebuilt(m2, st) {
        assert(m2.tracks() =~= m.tracks()) by {
            assert forall|k: u32| #[trigger] m2.tracks().contains_key(k) implies m2.tracks()[k] == m.tracks()[k] by {
                assert(m.tracks().contains_key(k));
                let i = choose|i: int| 0 <= i < st.tracks@.len() && #[trigger] st.tracks@[i].key.0 == k;
            }
        }
    }
}

/// Deleting a mixer track and reconstructing it from its state restores the mixer's tracks and
/// keys as they were.
pub proof fn lemma_delete_reconstruct_track(m0: Mixer, m1: Mixer, m2: Mixer, key: MixerTrackKey)
    requires
        m0.wf(),
        m0.keys().contains(key.0),
        m1.keys() == m0.keys().remove(key.0),
        m1.tracks() == m0.tracks().remove(key.0),
        m2.keys() == m1.keys().insert(m0.tracks()[key.0].key.0),
        m2.tracks() == m1.tracks().insert(m0.tracks()[key.0].key.0, m0.tracks()[key.0]),
    ensures
        !m1.keys().contains(m0.tracks()[key.0].key.0),
        m2.keys() == m0.keys(),
        m2.tracks() == m0.tracks(),
{
    m0.lemma_wf();
    assert(m2.keys() =~= m0.keys());
    assert(m2.tracks() =~= m0.tracks());
}

} // verus!
