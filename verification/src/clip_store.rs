use vstd::prelude::*;

use std::collections::HashMap;

use crate::key_generator::{Key, KeyGenerator, OverflowError};
use crate::keys::StoredAudioClipKey;
use crate::samples::rescale_ceil;
use vstd::std_specs::cmp::PartialEqSpecImpl;
use vstd::string::StringExecFns;

verus! {

broadcast use vstd::std_specs::hash::group_hash_axioms;

/// The most frames a stored clip can last at any output sample rate: fifty hours at the highest
/// rate a `u32` holds stay below it.
pub const MAX_CLIP_FRAMES: u64 = 0x4_0000_0000_0000;

/// The longest stored clip, in seconds, that the engine accepts (fifty hours).
pub const MAX_CLIP_SECONDS: u64 = 180_000;

/// What the engine needs to know of a decoded audio file.
#[derive(Debug, Clone, Copy, PartialEq, Eq, Structural)]
pub struct StoredClipInfo {
    /// Length in frames (samples per channel) at the clip's own sample rate.
    pub length: u64,
    /// The clip's own sample rate.
    pub sample_rate: u32,
}

impl StoredClipInfo {
    /// A positive sample rate, and at most [`MAX_CLIP_SECONDS`] of audio.
    pub open spec fn valid(self) -> bool {
        &&& 0 < self.sample_rate
        &&& self.length <= MAX_CLIP_SECONDS * self.sample_rate
    }

    /// The length in frames at the given sample rate, rounded up.
    pub open spec fn frames_at(self, sample_rate: u32) -> int {
        rescale_ceil(self.length as int, sample_rate as int, self.sample_rate as int)
    }

    /// Whether a decoded file can be stored: it has a sample rate, and lasts at most
    /// [`MAX_CLIP_SECONDS`] seconds.
    pub fn is_valid(&self) -> (r: bool)
        ensures
            r == self.valid(),
            r <==> 0 < self.sample_rate && seconds_ceil(self.length as int, self.sample_rate as int) <= MAX_CLIP_SECONDS,
    {
        proof {
            lemma_valid_by_duration(*self);
        }
        0 < self.sample_rate && self.length <= MAX_CLIP_SECONDS
            * (self.sample_rate as u64)
    }
}

/// The frames that `seconds` seconds last at `sample_rate`.
pub open spec fn frames_of_seconds(seconds: int, sample_rate: int) -> int {
    seconds * sample_rate
}

/// The duration of `frames` frames at `sample_rate`, in whole seconds, rounded up.
pub open spec fn seconds_ceil(frames: int, sample_rate: int) -> int {
    (frames + sample_rate - 1) / sample_rate
}

/// A decoded clip is accepted exactly when it has a sample rate and lasts at most
/// [`MAX_CLIP_SECONDS`] seconds, its duration counted in whole seconds rounded up; so a clip of
/// `s` seconds is accepted at any sample rate when `s` is within the limit, and refused when it is
/// beyond.
pub proof fn lemma_valid_by_duration(info: StoredClipInfo)
    ensures
        info.valid() <==> 0 < info.sample_rate && seconds_ceil(info.length as int, info.sample_rate as int)
            <= MAX_CLIP_SECONDS,
        forall|s: int|
            0 <= s <= MAX_CLIP_SECONDS && 0 < info.sample_rate && info.length == #[trigger] frames_of_seconds(s, info.sample_rate as int)
                ==> info.valid(),
        forall|s: int|
            s > MAX_CLIP_SECONDS && info.length == #[trigger] frames_of_seconds(s, info.sample_rate as int) ==> !info.valid(),
{
    let l = info.length as int;
    let r = info.sample_rate as int;
    let m = MAX_CLIP_SECONDS as int;
    if r > 0 {
        let q = (l + r - 1) / r;
        assert(q * r <= l + r - 1 < (q + 1) * r) by (nonlinear_arith)
            requires
                q == (l + r - 1) / r,
                r > 0,
                l >= 0,
        ;
        assert(l <= m * r ==> q <= m) by (nonlinear_arith)
            requires
                q * r <= l + r - 1,
                r > 0,
        ;
        assert(q <= m ==> l <= m * r) by (nonlinear_arith)
            requires
                l + r - 1 < (q + 1) * r,
                r > 0,
        ;
    }
    assert forall|s: int| 0 <= s <= m && 0 < r && l == #[trigger] frames_of_seconds(s, r) implies l <= m * r by {
        assert(s * r <= m * r) by (nonlinear_arith)
            requires
                s <= m,
                r > 0,
        ;
    }
    assert forall|s: int| s > m && l == #[trigger] frames_of_seconds(s, r) implies !(l <= m * r && 0 < r) by {
        if r > 0 {
            assert(s * r > m * r) by (nonlinear_arith)
                requires
                    s > m,
                    r > 0,
            ;
        }
    }
}

/// A valid stored clip, played at any output sample rate, lasts at most
/// [`MAX_CLIP_FRAMES`] frames.
pub proof fn lemma_frames_at_bounded(info: StoredClipInfo, sample_rate: u32)
    requires
        info.valid(),
    ensures
        0 <= info.frames_at(sample_rate) <= MAX_CLIP_FRAMES,
{
    let n = info.length as int;
    let to = sample_rate as int;
    let from = info.sample_rate as int;
    let q = (n * to + from - 1) / from;
    assert(n * to <= 180_000 * from * to) by (nonlinear_arith)
        requires
            0 <= n <= 180_000 * from,
            0 <= to,
    ;
    assert(q * from <= n * to + from - 1) by (nonlinear_arith)
        requires
            q == (n * to + from - 1) / from,
            from > 0,
            n * to + from - 1 >= 0,
    ;
    assert(q < 180_000 * to + 1) by (nonlinear_arith)
        requires
            q * from <= n * to + from - 1,
            n * to <= 180_000 * from * to,
            from > 0,
    ;
    assert(q >= 0) by (nonlinear_arith)
        requires
            q == (n * to + from - 1) / from,
            from > 0,
            n * to + from - 1 >= 0,
    ;
    assert(180_000 * to <= 180_000 * 0xffff_ffff) by (nonlinear_arith)
        requires
            0 <= to <= 0xffff_ffff,
    ;
}

/// Produced when no key is left for another stored clip.
#[derive(Debug, PartialEq, Eq, Structural)]
pub struct ClipOverflowError;

/// Produced when no stored clip has the given key.
#[derive(Debug, PartialEq, Eq, Structural)]
pub struct InvalidStoredAudioClipError {
    pub key: StoredAudioClipKey,
}

/// Why a file could not be imported.
#[derive(Debug, PartialEq, Eq)]
pub enum ImportError {
    /// No file at the path.
    FileNotFound(String),
    /// The file's format is not supported.
    UknownFormat,
    /// The file has more than two channels.
    TooManyChannels,
    /// No key is left for another stored clip.
    OverFlow(ClipOverflowError),
    /// Decoding failed, or the decoded audio cannot be stored; the message says why.
    Other(String),
}

/// The most channels a stored clip may have.
pub const MAX_CHANNELS: u32 = 2;

/// Whether decoded audio of `channels` channels can be stored: at most [`MAX_CHANNELS`] channels,
/// and a valid length and sample rate.
pub fn check_decoded(channels: u32, info: StoredClipInfo) -> (r: Result<StoredClipInfo, ImportError>)
    ensures
        channels > MAX_CHANNELS ==> r == Err::<StoredClipInfo, ImportError>(ImportError::TooManyChannels),
        channels <= MAX_CHANNELS && !info.valid() ==> (r matches Err(ImportError::Other(m)) && m@
            == "unsupported sample rate or length"@),
        channels <= MAX_CHANNELS && info.valid() ==> r == Ok::<StoredClipInfo, ImportError>(info),
{
    if channels > MAX_CHANNELS {
        return Err(ImportError::TooManyChannels);
    }
    if !info.is_valid() {
        proof {
            reveal_strlit("unsupported sample rate or length");
        }
        return Err(ImportError::Other(String::from_str("unsupported sample rate or length")));
    }
    Ok(info)
}

/// The persistent state of the store: which file each stored clip was imported from.
#[derive(Debug, Clone)]
pub struct AudioClipStoreState {
    pub clips: Vec<(String, StoredAudioClipKey)>,
}

/// The (path, key) pairs of a store's state, as a set: their order does not matter.
pub open spec fn path_pairs(clips: Seq<(String, StoredAudioClipKey)>) -> Set<(Seq<char>, StoredAudioClipKey)> {
    clips.map_values(|c: (String, StoredAudioClipKey)| (c.0@, c.1)).to_set()
}

/// Every (path, key) pair of `a` is one of `b`.
fn pairs_within(a: &Vec<(String, StoredAudioClipKey)>, b: &Vec<(String, StoredAudioClipKey)>) -> (r: bool)
    ensures
        r == path_pairs(a@).subset_of(path_pairs(b@)),
{
    let ghost pa = a@.map_values(|c: (String, StoredAudioClipKey)| (c.0@, c.1));
    let ghost pb = b@.map_values(|c: (String, StoredAudioClipKey)| (c.0@, c.1));
    let mut i: usize = 0;
    while i < a.len()
        invariant
            i <= a.len(),
            pa == a@.map_values(|c: (String, StoredAudioClipKey)| (c.0@, c.1)),
            pb == b@.map_values(|c: (String, StoredAudioClipKey)| (c.0@, c.1)),
            forall|k: int| 0 <= k < i ==> pb.contains(#[trigger] pa[k]),
        decreases a.len() - i,
    {
        let mut j: usize = 0;
        let mut found = false;
        while j < b.len() && !found
            invariant
                i < a.len(),
                j <= b.len(),
                pa == a@.map_values(|c: (String, StoredAudioClipKey)| (c.0@, c.1)),
                pb == b@.map_values(|c: (String, StoredAudioClipKey)| (c.0@, c.1)),
                found ==> pb.contains(pa[i as int]),
                !found ==> forall|k: int| 0 <= k < j ==> #[trigger] pb[k] != pa[i as int],
            decreases (b.len() - j) * 2 + (if found { 0int } else { 1int }),
        {
            if a[i].1 == b[j].1 && a[i].0 == b[j].0 {
                assert(pb[j as int] == pa[i as int]);
                found = true;
            } else {
                assert(pb[j as int] != pa[i as int]);
                j = j + 1;
            }
        }
        if !found {
            proof {
                assert(!pb.contains(pa[i as int]));
                assert(pa.to_set().contains(pa[i as int]));
                assert(!pb.to_set().contains(pa[i as int]));
            }
            return false;
        }
        i = i + 1;
    }
    proof {
        assert forall|x| #[trigger] pa.to_set().contains(x) implies pb.to_set().contains(x) by {
            let k = choose|k: int| 0 <= k < pa.len() && pa[k] == x;
            assert(pb.contains(pa[k]));
        }
    }
    true
}

impl PartialEq for AudioClipStoreState {
    /// Two states are equal when they hold the same (path, key) pairs, in any order.
    fn eq(&self, other: &Self) -> (r: bool) {
        let r = pairs_within(&self.clips, &other.clips) && pairs_within(&other.clips, &self.clips);
        proof {
            if r {
                assert(path_pairs(self.clips@) =~= path_pairs(other.clips@));
            }
        }
        r
    }
}

impl PartialEqSpecImpl for AudioClipStoreState {
    open spec fn obeys_eq_spec() -> bool {
        true
    }

    open spec fn eq_spec(&self, other: &Self) -> bool {
        path_pairs(self.clips@) == path_pairs(other.clips@)
    }
}

impl Eq for AudioClipStoreState {}

impl Default for AudioClipStoreState {
    /// A state with no stored clips.
    fn default() -> (r: Self)
        ensures
            r.clips@.len() == 0,
    {
        AudioClipStoreState { clips: Vec::new() }
    }
}

/// How an import proceeds.
#[derive(Debug, PartialEq, Eq, Structural)]
pub enum ImportStart {
    /// The file was imported before, under this key; nothing has to be decoded.
    AlreadyImported(StoredAudioClipKey),
    /// The file is new: this key has been reserved for it, and the file has to be decoded.
    New(StoredAudioClipKey),
}

/// The set of imported clips, keyed, and the file each one came from.
pub struct AudioClipStore {
    paths: Vec<(String, StoredAudioClipKey)>,
    clips: HashMap<u32, StoredClipInfo>,
    key_generator: KeyGenerator<StoredAudioClipKey>,
}

/// The last key recorded for the path, if any: a path recorded twice stands for its later key.
pub open spec fn path_key(paths: Seq<(String, StoredAudioClipKey)>, path: Seq<char>) -> Option<
    StoredAudioClipKey,
>
    decreases paths.len(),
{
    if paths.len() == 0 {
        None
    } else if paths.last().0@ == path {
        Some(paths.last().1)
    } else {
        path_key(paths.drop_last(), path)
    }
}

impl AudioClipStore {
    /// The imported clips, by key id.
    pub closed spec fn clips(&self) -> Map<u32, StoredClipInfo> {
        self.clips@
    }

    /// The recorded files and their keys, in order of import.
    pub closed spec fn paths(&self) -> Seq<(String, StoredAudioClipKey)> {
        self.paths@
    }

    /// The keys reserved for stored clips.
    pub closed spec fn used_keys(&self) -> Set<u32> {
        self.key_generator.used()
    }

    /// How many more keys can be reserved.
    pub closed spec fn remaining(&self) -> int {
        self.key_generator.remaining()
    }

    /// The id of the key reserved last.
    pub closed spec fn last_id(&self) -> u32 {
        self.key_generator.last()
    }

    pub closed spec fn wf(&self) -> bool {
        &&& self.key_generator.wf()
        &&& self.clips@.dom().subset_of(self.key_generator.used())
        &&& forall|k: u32| #[trigger] self.clips@.contains_key(k) ==> self.clips@[k].valid()
    }

    /// An empty store.
    pub fn new() -> (s: Self)
        ensures
            s.wf(),
            s.clips() == Map::<u32, StoredClipInfo>::empty(),
            s.paths() == Seq::<(String, StoredAudioClipKey)>::empty(),
            s.used_keys() == Set::<u32>::empty(),
    {
        AudioClipStore { paths: Vec::new(), clips: HashMap::new(), key_generator: KeyGenerator::new() }
    }

    /// The info of the stored clip with the given key.
    pub fn get(&self, key: StoredAudioClipKey) -> (r: Result<StoredClipInfo, InvalidStoredAudioClipError>)
        requires
            self.wf(),
        ensures
            r is Ok <==> self.clips().contains_key(key.0),
            r matches Ok(info) ==> info == self.clips()[key.0] && info.valid(),
            r matches Err(e) ==> e.key == key,
    {
        match self.clips.get(&key.0) {
            Some(info) => Ok(*info),
            None => Err(InvalidStoredAudioClipError { key }),
        }
    }

    /// Whether a clip is stored under the key.
    pub fn contains(&self, key: StoredAudioClipKey) -> (r: bool)
        requires
            self.wf(),
        ensures
            r == self.clips().contains_key(key.0),
    {
        self.clips.contains_key(&key.0)
    }

    /// The key under which the file was last recorded, if it was.
    pub fn imported_key(&self, path: &String) -> (r: Option<StoredAudioClipKey>)
        ensures
            r == path_key(self.paths(), path@),
    {
        let mut i: usize = self.paths.len();
        assert(self.paths@.take(i as int) =~= self.paths@);
        while i > 0
            invariant
                i <= self.paths@.len(),
                path_key(self.paths@, path@) == path_key(self.paths@.take(i as int), path@),
            decreases i,
        {
            assert(self.paths@.take(i as int).drop_last() =~= self.paths@.take(i as int - 1));
            if self.paths[i - 1].0.eq(path) {
                return Some(self.paths[i - 1].1);
            }
            i = i - 1;
        }
        None
    }

    /// Start importing a file: a file imported before gives its key back, a new file gets a fresh
    /// key reserved for it, which [`AudioClipStore::finish_import`] then stores the decoded clip under.
    /// A key reserved here stays reserved even if decoding then fails.
    pub fn begin_import(&mut self, path: &String) -> (r: Result<ImportStart, ClipOverflowError>)
        requires
            old(self).wf(),
        ensures
            final(self).wf(),
            final(self).clips() == old(self).clips(),
            final(self).paths() == old(self).paths(),
            path_key(old(self).paths(), path@) matches Some(k) ==> r == Ok::<ImportStart, ClipOverflowError>(ImportStart::AlreadyImported(k))
                && final(self).used_keys() == old(self).used_keys(),
            path_key(old(self).paths(), path@) is None ==> {
                &&& r is Err <==> old(self).remaining() == 0
                &&& r is Err ==> final(self).used_keys() == old(self).used_keys()
                &&& r matches Ok(start) ==> start matches ImportStart::New(k) && {
                    &&& crate::key_generator::is_next_free(old(self).last_id(), old(self).used_keys(), k.0)
                    &&& final(self).used_keys() == old(self).used_keys().insert(k.0)
                }
            },
    {
        if let Some(key) = self.imported_key(path) {
            return Ok(ImportStart::AlreadyImported(key));
        }
        match self.key_generator.next() {
            Ok(key) => Ok(ImportStart::New(key)),
            Err(_) => Err(ClipOverflowError),
        }
    }

    /// Store a decoded clip under a key reserved by [`AudioClipStore::begin_import`], recording its file.
    pub fn finish_import(&mut self, path: String, key: StoredAudioClipKey, info: StoredClipInfo)
        requires
            old(self).wf(),
            old(self).used_keys().contains(key.0),
            info.valid(),
        ensures
            final(self).wf(),
            final(self).clips() == old(self).clips().insert(key.0, info),
            final(self).paths() == old(self).paths().push((path, key)),
            final(self).used_keys() == old(self).used_keys(),
    {
        self.clips.insert(key.0, info);
        self.paths.push((path, key));
    }

    /// The persistent state: every recorded file with its key.
    pub fn state(&self) -> (r: AudioClipStoreState)
        ensures
            r.clips@ == self.paths(),
    {
        let mut clips: Vec<(String, StoredAudioClipKey)> = Vec::new();
        let mut i: usize = 0;
        while i < self.paths.len()
            invariant
                i <= self.paths@.len(),
                clips@ == self.paths@.take(i as int),
            decreases self.paths@.len() - i,
        {
            let (path, key) = &self.paths[i];
            clips.push((path.clone(), *key));
            i = i + 1;
            assert(clips@ =~= self.paths@.take(i as int));
        }
        assert(self.paths@.take(self.paths@.len() as int) =~= self.paths@);
        AudioClipStoreState { clips }
    }

    /// Rebuild a store from a state whose files have been decoded: `decoded[i]` holds what was
    /// decoded from `state.clips[i]`, or `None` when that file could not be imported.
    /// Every file stays recorded; only the decoded ones are stored and have their keys reserved.
    pub fn from_decoded(state: &AudioClipStoreState, decoded: &Vec<Option<StoredClipInfo>>) -> (s: Self)
        requires
            decoded@.len() == state.clips@.len(),
            state.clips@.len() <= u32::MAX,
            forall|i: int| 0 <= i < decoded@.len() && (#[trigger] decoded@[i]) is Some ==> decoded@[i]->0.valid(),
            forall|i: int, j: int|
                0 <= i < j < state.clips@.len() && decoded@[i] is Some && decoded@[j] is Some
                    ==> state.clips@[i].1 != state.clips@[j].1,
        ensures
            s.wf(),
            s.paths() == state.clips@,
            forall|k: u32|
                s.clips().contains_key(k) <==> exists|i: int|
                    0 <= i < decoded@.len() && decoded@[i] is Some && #[trigger] state.clips@[i].1.0 == k,
            forall|i: int|
                0 <= i < decoded@.len() && (#[trigger] decoded@[i]) is Some ==> s.clips()[state.clips@[i].1.0]
                    == decoded@[i]->0,
            s.used_keys() == s.clips().dom(),
    {
        let mut s = AudioClipStore::new();
        let mut i: usize = 0;
        while i < decoded.len()
            invariant
                decoded@.len() == state.clips@.len(),
                state.clips@.len() <= u32::MAX,
                forall|a: int| 0 <= a < decoded@.len() && (#[trigger] decoded@[a]) is Some ==> decoded@[a]->0.valid(),
                forall|a: int, b: int|
                    0 <= a < b < state.clips@.len() && decoded@[a] is Some && decoded@[b] is Some
                        ==> state.clips@[a].1 != state.clips@[b].1,
                i <= decoded@.len(),
                s.wf(),
                s.paths@ == state.clips@.take(i as int),
                s.clips@.dom().finite(),
                s.clips@.dom().len() <= i,
                forall|k: u32|
                    s.clips@.contains_key(k) <==> exists|a: int|
                        0 <= a < i && decoded@[a] is Some && #[trigger] state.clips@[a].1.0 == k,
                forall|a: int|
                    0 <= a < i && (#[trigger] decoded@[a]) is Some ==> s.clips@[state.clips@[a].1.0] == decoded@[a]->0,
                s.key_generator.used() == s.clips@.dom(),
            decreases decoded@.len() - i,
        {
            let (path, key) = &state.clips[i];
            s.paths.push((path.clone(), *key));
            match decoded[i] {
                Some(info) => {
                    let id = key.id();
                    assert(!s.clips@.contains_key(id)) by {
                        if s.clips@.contains_key(id) {
                            let a = choose|a: int|
                                0 <= a < i && decoded@[a] is Some && #[trigger] state.clips@[a].1.0 == id;
                            assert(state.clips@[a].1 == state.clips@[i as int].1);
                        }
                    }
                    let r = s.key_generator.reserve(*key);
                    s.clips.insert(id, info);
                }
                None => {}
            }
            i = i + 1;
            assert(s.paths@ =~= state.clips@.take(i as int));
        }
        assert(state.clips@.take(decoded@.len() as int) =~= state.clips@);
        s
    }
}

} // verus!
