use vstd::prelude::*;

use std::collections::HashMap;

use vstd::std_specs::cmp::PartialEqSpecImpl;

use crate::clip_store::{
    path_pairs, AudioClipStore, AudioClipStoreState, ClipOverflowError, ImportStart, InvalidStoredAudioClipError,
    StoredClipInfo, MAX_CLIP_FRAMES,
};
use crate::key_generator::{Key, KeyGenerator, OverflowError};
use crate::keys::{AudioClipKey, MixerTrackKey, StoredAudioClipKey, TimelineTrackKey};
use crate::clip_store::lemma_frames_at_bounded;
use crate::samples::{rescale_ceil, rescale_frames};
use crate::timestamp::{
    beat_units_ceil_of, beat_units_of, lemma_beat_units_monotonic, lemma_samples_monotonic, lemma_samples_round_trip,
    rate_fits, rate_fits_check, samples_of, Timestamp,
};

verus! {

broadcast use vstd::std_specs::hash::group_hash_axioms;

/// A clip placed on a timeline track.
#[derive(Debug, Clone, Copy, PartialEq, Eq, Structural)]
pub struct AudioClip {
    pub key: AudioClipKey,
    /// Start on the timeline.
    pub start: Timestamp,
    /// Duration on the timeline; `None` plays the stored clip till its end.
    pub length: Option<Timestamp>,
    /// Where in the stored clip this clip starts, in frames at the output sample rate
    /// (non-zero once the start has been cropped).
    pub start_offset: u64,
    /// The stored clip this clip plays.
    pub stored_clip: StoredAudioClipKey,
    /// Length of the stored clip in frames at the output sample rate.
    pub source_frames: u64,
    /// The output sample rate.
    pub sample_rate: u32,
}

/// The persistent state of an audio clip.
#[derive(Debug, Clone, Copy, PartialEq, Eq, Hash, Structural)]
pub struct AudioClipState {
    pub key: AudioClipKey,
    pub start_offset: u64,
    pub start: Timestamp,
    pub length: Option<Timestamp>,
    pub inner: StoredAudioClipKey,
}

/// The length of a clip on the timeline, in beat units: its own length if it has one,
/// otherwise the whole stored clip, rounded up to whole beat units.
pub open spec fn clip_length(c: AudioClip, bpm_cents: u16) -> int {
    match c.length {
        Some(l) => l@ as int,
        None => (beat_units_ceil_of(
            c.source_frames as int,
            c.sample_rate as int,
            bpm_cents as int,
        ) as u32) as int,
    }
}

/// Where a clip ends on the timeline, in beat units.
pub open spec fn clip_end(c: AudioClip, bpm_cents: u16) -> int {
    c.start@ + clip_length(c, bpm_cents)
}

/// The clip's numbers stay inside the ranges in which its arithmetic cannot overflow.
pub open spec fn clip_fits(c: AudioClip, bpm_cents: u16) -> bool {
    &&& rate_fits(c.sample_rate as int, bpm_cents as int)
    &&& c.source_frames <= MAX_CLIP_FRAMES
    &&& clip_end(c, bpm_cents) <= u32::MAX
}

/// The clip that a state describes, playing the given stored clip at the output sample rate.
pub open spec fn clip_from_state(s: AudioClipState, info: StoredClipInfo, sample_rate: u32) -> AudioClip {
    AudioClip {
        key: s.key,
        start: s.start,
        length: s.length,
        start_offset: s.start_offset,
        stored_clip: s.inner,
        source_frames: info.frames_at(sample_rate) as u64,
        sample_rate,
    }
}

/// A clip can stand on a timeline with the given sample rate, tempo and stored clips: it plays at
/// the timeline's rate, one of the stored clips, whose length it knows, and its arithmetic cannot
/// overflow.
#[verifier::opaque]
pub open spec fn clip_ok_on(c: AudioClip, sample_rate: u32, bpm_cents: u16, stored: Map<u32, StoredClipInfo>) -> bool {
    &&& c.sample_rate == sample_rate
    &&& clip_fits(c, bpm_cents)
    &&& stored.contains_key(c.stored_clip.0)
    &&& c.source_frames == stored[c.stored_clip.0].frames_at(sample_rate)
}

/// The first sample of a clip whose start is cropped so that `new_length` is left, keeping its end:
/// the sample of the wanted start (no earlier than the start of the timeline), but never one before
/// the first sample of its stored clip.
pub open spec fn crop_start_sample(c: AudioClip, new_length: Timestamp, bpm_cents: u16) -> int {
    let sr = c.sample_rate as int;
    let end = clip_end(c, bpm_cents);
    let wanted = if end >= new_length@ { end - new_length@ } else { 0 };
    let old_start = samples_of(c.start@ as int, sr, bpm_cents as int);
    let first = if old_start >= c.start_offset { old_start - c.start_offset } else { 0 };
    let at = samples_of(wanted, sr, bpm_cents as int);
    if at >= first {
        at
    } else {
        first
    }
}

/// The clip once its start is cropped so that `new_length` is left: it starts at the beat unit of
/// [`crop_start_sample`], ends where it ended, and its offset into the stored clip moves by as many
/// samples as its start did.
pub open spec fn cropped_start(c: AudioClip, new_length: Timestamp, bpm_cents: u16) -> AudioClip {
    let sample = crop_start_sample(c, new_length, bpm_cents);
    let start = beat_units_of(sample, c.sample_rate as int, bpm_cents as int);
    AudioClip {
        start: Timestamp { beat_units: start as u32 },
        length: Some(Timestamp { beat_units: (clip_end(c, bpm_cents) - start) as u32 }),
        start_offset: (c.start_offset + sample - samples_of(c.start@ as int, c.sample_rate as int, bpm_cents as int)) as u64,
        ..c
    }
}

/// The clips that the first `i` states describe, by key id (a later state wins over an earlier
/// one with the same key), playing the given stored clips at the given sample rate.
pub open spec fn states_to_clips(
    states: Seq<AudioClipState>,
    i: int,
    stored: Map<u32, StoredClipInfo>,
    sample_rate: u32,
) -> Map<u32, AudioClip>
    decreases i,
{
    if i <= 0 {
        Map::empty()
    } else {
        states_to_clips(states, i - 1, stored, sample_rate).insert(
            states[i - 1].key.0,
            clip_from_state(states[i - 1], stored[states[i - 1].inner.0], sample_rate),
        )
    }
}

/// The keys of the clips of the given tracks, track after track.
pub open spec fn all_clip_keys(tracks: Seq<TimelineTrackState>) -> Seq<AudioClipKey>
    decreases tracks.len(),
{
    if tracks.len() == 0 {
        Seq::empty()
    } else {
        all_clip_keys(tracks.drop_last()) + tracks.last().clips@.map_values(|c: AudioClipState| c.key)
    }
}

/// The clip keys of the first `i` tracks come first among those of all tracks.
proof fn lemma_all_clip_keys_prefix(tracks: Seq<TimelineTrackState>, i: int)
    requires
        0 <= i <= tracks.len(),
    ensures
        all_clip_keys(tracks.take(i)).len() <= all_clip_keys(tracks).len(),
        all_clip_keys(tracks).take(all_clip_keys(tracks.take(i)).len() as int) == all_clip_keys(tracks.take(i)),
    decreases tracks.len(),
{
    if i == tracks.len() {
        assert(tracks.take(i) =~= tracks);
        assert(all_clip_keys(tracks).take(all_clip_keys(tracks).len() as int) =~= all_clip_keys(tracks));
    } else {
        let rest = tracks.drop_last();
        assert(tracks.take(i) =~= rest.take(i));
        lemma_all_clip_keys_prefix(rest, i);
        let l = all_clip_keys(tracks.take(i)).len() as int;
        assert(all_clip_keys(tracks).take(l) =~= all_clip_keys(rest).take(l));
    }
}

/// The keys of the clips of the first `i + 1` tracks are those of the first `i`, then those of track `i`.
proof fn lemma_all_clip_keys_step(tracks: Seq<TimelineTrackState>, i: int)
    requires
        0 <= i < tracks.len(),
    ensures
        all_clip_keys(tracks.take(i + 1)) == all_clip_keys(tracks.take(i)) + tracks[i].clips@.map_values(
            |c: AudioClipState| c.key,
        ),
{
    assert(tracks.take(i + 1).drop_last() =~= tracks.take(i));
}

/// The persistent state of a clip.
pub open spec fn clip_state_of(c: AudioClip) -> AudioClipState {
    AudioClipState {
        key: c.key,
        start_offset: c.start_offset,
        start: c.start,
        length: c.length,
        inner: c.stored_clip,
    }
}

/// The three ways in which the timeline tests a span against the clips already on a track.
#[derive(Debug, Clone, Copy, PartialEq, Eq, Structural)]
pub enum ConflictKind {
    /// Either start lies inside the other clip: used when a clip is added.
    Overlap,
    /// The half-open spans intersect: used when a clip is moved or its start is cropped.
    Span,
    /// The other clip starts strictly inside the span: used when a clip's end is cropped.
    StartsWithin,
}

/// The clip `c` conflicts with the span from `a` to `b` (unless it is the excluded clip).
pub open spec fn conflicts(kind: ConflictKind, a: int, b: int, exclude: Option<u32>, c: AudioClip, bpm_cents: u16) -> bool {
    &&& exclude != Some(c.key.0)
    &&& match kind {
        ConflictKind::Overlap => (c.start@ <= a && a < clip_end(c, bpm_cents)) || (a <= c.start@ && c.start@ < b),
        ConflictKind::Span => a < clip_end(c, bpm_cents) && c.start@ < b,
        ConflictKind::StartsWithin => a < c.start@ && c.start@ < b,
    }
}

/// Some clip in `clips` conflicts with the span from `a` to `b`.
pub open spec fn has_conflict(
    clips: Map<u32, AudioClip>,
    kind: ConflictKind,
    a: int,
    b: int,
    exclude: Option<u32>,
    bpm_cents: u16,
) -> bool {
    exists|k: u32| #[trigger] clips.contains_key(k) && conflicts(kind, a, b, exclude, clips[k], bpm_cents)
}

/// Two clips do not overlap: one of them ends at or before the other starts.
pub open spec fn apart(c1: AudioClip, c2: AudioClip, bpm_cents: u16) -> bool {
    clip_end(c1, bpm_cents) <= c2.start@ || clip_end(c2, bpm_cents) <= c1.start@
}

/// No two clips of the map overlap.
pub open spec fn clips_apart(clips: Map<u32, AudioClip>, bpm_cents: u16) -> bool {
    forall|k1: u32, k2: u32|
        #[trigger] clips.contains_key(k1) && #[trigger] clips.contains_key(k2) && k1 != k2 ==> apart(
            clips[k1],
            clips[k2],
            bpm_cents,
        )
}

/// Putting `c` under key `k` into clips that are apart keeps them apart when no other clip conflicts
/// with its span, tested as when a clip is added or moved.
proof fn lemma_put_apart(
    clips: Map<u32, AudioClip>,
    k: u32,
    c: AudioClip,
    kind: ConflictKind,
    exclude: Option<u32>,
    bpm_cents: u16,
)
    requires
        clips_apart(clips, bpm_cents),
        kind == ConflictKind::Overlap || kind == ConflictKind::Span,
        forall|j: u32| #[trigger] clips.contains_key(j) ==> clips[j].key.0 == j,
        exclude == None::<u32> || exclude == Some(k),
        !has_conflict(clips, kind, c.start@ as int, clip_end(c, bpm_cents), exclude, bpm_cents),
    ensures
        clips_apart(clips.insert(k, c), bpm_cents),
{
    let m = clips.insert(k, c);
    assert forall|k1: u32, k2: u32| #[trigger] m.contains_key(k1) && #[trigger] m.contains_key(k2) && k1 != k2 implies apart(
        m[k1],
        m[k2],
        bpm_cents,
    ) by {
        if k1 == k {
            assert(clips.contains_key(k2));
            assert(!conflicts(kind, c.start@ as int, clip_end(c, bpm_cents), exclude, clips[k2], bpm_cents));
        } else if k2 == k {
            assert(clips.contains_key(k1));
            assert(!conflicts(kind, c.start@ as int, clip_end(c, bpm_cents), exclude, clips[k1], bpm_cents));
        } else {
            assert(clips.contains_key(k1) && clips.contains_key(k2));
        }
    }
}

/// Giving clip `k` the length `new_length` would stretch it over another clip that starts where it
/// does: the clip `k` must be empty for the two to be apart, and it would no longer be.
pub open spec fn stretches_over_neighbour(clips: Map<u32, AudioClip>, k: u32, new_length: Timestamp, bpm_cents: u16) -> bool {
    &&& new_length@ > 0
    &&& exists|j: u32|
        #[trigger] clips.contains_key(j) && j != k && clips[j].start@ == clips[k].start@ && clip_end(clips[j], bpm_cents)
            > clips[j].start@
}

/// Cropping the end of clip `k` keeps the clips apart when no other clip starts strictly inside its
/// new span, unless it stretches over a clip that starts where it does.
proof fn lemma_crop_end_apart(clips: Map<u32, AudioClip>, k: u32, new_length: Timestamp, bpm_cents: u16)
    requires
        clips_apart(clips, bpm_cents),
        clips.contains_key(k),
        forall|j: u32| #[trigger] clips.contains_key(j) ==> clips[j].key.0 == j,
        !has_conflict(
            clips,
            ConflictKind::StartsWithin,
            clips[k].start@ as int,
            clips[k].start@ + new_length@,
            Some(k),
            bpm_cents,
        ),
        !stretches_over_neighbour(clips, k, new_length, bpm_cents),
    ensures
        clips_apart(clips.insert(k, AudioClip { length: Some(new_length), ..clips[k] }), bpm_cents),
{
    let c = clips[k];
    let c2 = AudioClip { length: Some(new_length), ..c };
    let m = clips.insert(k, c2);
    assert forall|k1: u32, k2: u32| #[trigger] m.contains_key(k1) && #[trigger] m.contains_key(k2) && k1 != k2 implies apart(
        m[k1],
        m[k2],
        bpm_cents,
    ) by {
        if k1 == k || k2 == k {
            let j = if k1 == k { k2 } else { k1 };
            assert(clips.contains_key(j) && clips.contains_key(k));
            assert(apart(clips[k], clips[j], bpm_cents));
            assert(!conflicts(
                ConflictKind::StartsWithin,
                c.start@ as int,
                c.start@ + new_length@,
                Some(k),
                clips[j],
                bpm_cents,
            ));
            if clips[j].start@ == c.start@ && clip_end(clips[j], bpm_cents) > clips[j].start@ {
                assert(new_length@ == 0);
            }
        } else {
            assert(clips.contains_key(k1) && clips.contains_key(k2));
        }
    }
}

/// Removing a clip keeps the others apart.
proof fn lemma_remove_apart(clips: Map<u32, AudioClip>, k: u32, bpm_cents: u16)
    requires
        clips_apart(clips, bpm_cents),
    ensures
        clips_apart(clips.remove(k), bpm_cents),
{
    let m = clips.remove(k);
    assert forall|k1: u32, k2: u32| #[trigger] m.contains_key(k1) && #[trigger] m.contains_key(k2) && k1 != k2 implies apart(
        m[k1],
        m[k2],
        bpm_cents,
    ) by {
        assert(clips.contains_key(k1) && clips.contains_key(k2));
    }
}

impl AudioClip {
    /// The clip's length on the timeline.
    pub fn length(&self, bpm_cents: u16) -> (r: Timestamp)
        requires
            0 < self.sample_rate,
            self.source_frames <= MAX_CLIP_FRAMES,
        ensures
            r@ == clip_length(*self, bpm_cents),
    {
        match self.length {
            Some(l) => l,
            None => {
                Timestamp::from_samples_ceil(self.source_frames, self.sample_rate, bpm_cents)
            },
        }
    }

    /// Where the clip ends on the timeline.
    pub fn end(&self, bpm_cents: u16) -> (r: Timestamp)
        requires
            clip_fits(*self, bpm_cents),
        ensures
            r@ == clip_end(*self, bpm_cents),
    {
        let length = self.length(bpm_cents);
        Timestamp::from_beat_units(self.start.beat_units + length.beat_units)
    }

    /// Whether the clips overlap: either one starts inside the other.
    pub fn overlaps(&self, other: &Self, bpm_cents: u16) -> (r: bool)
        requires
            clip_fits(*self, bpm_cents),
            clip_fits(*other, bpm_cents),
        ensures
            r == ((self.start@ <= other.start@ && other.start@ < clip_end(*self, bpm_cents)) || (
            other.start@ <= self.start@ && self.start@ < clip_end(*other, bpm_cents))),
    {
        let start1 = self.start.beat_units;
        let end1 = self.end(bpm_cents).beat_units;
        let start2 = other.start.beat_units;
        let end2 = other.end(bpm_cents).beat_units;
        (start1 <= start2 && start2 < end1) || (start2 <= start1 && start1 < end2)
    }

    /// The key of the clip.
    pub fn key(&self) -> (r: AudioClipKey)
        ensures
            r == self.key,
    {
        self.key
    }

    /// The start of the clip on the timeline.
    pub fn start(&self) -> (r: Timestamp)
        ensures
            r == self.start,
    {
        self.start
    }

    /// The stored clip this clip plays.
    pub fn stored_clip(&self) -> (r: StoredAudioClipKey)
        ensures
            r == self.stored_clip,
    {
        self.stored_clip
    }

    /// The persistent state of the clip.
    pub fn state(&self) -> (r: AudioClipState)
        ensures
            r == clip_state_of(*self),
    {
        AudioClipState {
            key: self.key,
            start_offset: self.start_offset,
            start: self.start,
            length: self.length,
            inner: self.stored_clip,
        }
    }
}

/// Whether some clip conflicts with the span from `a` to `b`.
fn find_conflict(
    clips: &HashMap<u32, AudioClip>,
    kind: ConflictKind,
    a: u32,
    b: u32,
    exclude: Option<u32>,
    bpm_cents: u16,
) -> (r: bool)
    requires
        forall|k: u32| #[trigger] clips@.contains_key(k) ==> clip_fits(clips@[k], bpm_cents),
    ensures
        r == has_conflict(clips@, kind, a as int, b as int, exclude, bpm_cents),
{
    let ghost mut checked: Set<AudioClip> = Set::empty();
    for c in it: clips.values()
        invariant
            forall|k: u32| #[trigger] clips@.contains_key(k) ==> clip_fits(clips@[k], bpm_cents),
            forall|x: AudioClip| checked.contains(x) ==> !conflicts(kind, a as int, b as int, exclude, x, bpm_cents),
            checked == it.seq().take(it.index()).unref().to_set(),
            it.seq().unref().to_set() == clips@.values(),
            it.index() == it.seq().len() ==> checked == clips@.values(),
    {
        proof {
            assert(it.seq().unref()[it.index()] == *c);
            assert(it.seq().unref().to_set().contains(*c));
            assert(clips@.values().contains(*c));
            let k = choose|k: u32| clips@.contains_key(k) && clips@[k] == *c;
            assert(clip_fits(clips@[k], bpm_cents));
        }
        let excluded = match exclude {
            Some(e) => e == c.key.0,
            None => false,
        };
        let hit = if excluded {
            false
        } else {
            match kind {
                ConflictKind::Overlap => {
                    let end = c.end(bpm_cents).beat_units;
                    (c.start.beat_units <= a && a < end) || (a <= c.start.beat_units && c.start.beat_units < b)
                },
                ConflictKind::Span => {
                    let end = c.end(bpm_cents).beat_units;
                    a < end && c.start.beat_units < b
                },
                ConflictKind::StartsWithin => a < c.start.beat_units && c.start.beat_units < b,
            }
        };
        if hit {
            proof {
                let k = choose|k: u32| clips@.contains_key(k) && clips@[k] == *c;
                assert(conflicts(kind, a as int, b as int, exclude, clips@[k], bpm_cents));
            }
            return true;
        }
        proof {
            assert(it.seq().take(it.index() + 1).unref() =~= it.seq().take(it.index()).unref().push(*c));
            it.seq().take(it.index()).unref().lemma_push_to_set_commute(*c);
            checked = checked.insert(*c);
            assert(it.seq().take(it.seq().len() as int) =~= it.seq());
        }
    }
    proof {
        assert forall|k: u32| #[trigger] clips@.contains_key(k) implies !conflicts(kind, a as int, b as int, exclude, clips@[k], bpm_cents) by {
            assert(clips@.values().contains(clips@[k]));
        }
    }
    false
}

/// Adding a clip under a new key adds exactly its own conflicts.
proof fn lemma_conflict_insert(
    m: Map<u32, AudioClip>,
    k: u32,
    c: AudioClip,
    kind: ConflictKind,
    a: int,
    b: int,
    exclude: Option<u32>,
    bpm_cents: u16,
)
    requires
        !m.contains_key(k),
    ensures
        has_conflict(m.insert(k, c), kind, a, b, exclude, bpm_cents) <==> has_conflict(m, kind, a, b, exclude, bpm_cents)
            || conflicts(kind, a, b, exclude, c, bpm_cents),
{
    let n = m.insert(k, c);
    if has_conflict(n, kind, a, b, exclude, bpm_cents) {
        let w = choose|w: u32| #[trigger] n.contains_key(w) && conflicts(kind, a, b, exclude, n[w], bpm_cents);
        if w != k {
            assert(m.contains_key(w));
        }
    }
    if has_conflict(m, kind, a, b, exclude, bpm_cents) {
        let w = choose|w: u32| #[trigger] m.contains_key(w) && conflicts(kind, a, b, exclude, m[w], bpm_cents);
        assert(n.contains_key(w));
    }
    if conflicts(kind, a, b, exclude, c, bpm_cents) {
        assert(n.contains_key(k));
    }
}

/// An id is in a sequence with one more id pushed exactly when it is that id or was there already.
proof fn lemma_push_contains(s: Seq<u32>, x: u32, k: u32)
    ensures
        s.push(x).contains(k) <==> s.contains(k) || k == x,
{
    if s.push(x).contains(k) {
        let j = choose|j: int| 0 <= j < s.push(x).len() && s.push(x)[j] == k;
        if j < s.len() {
            assert(s[j] == k);
        }
    }
    if s.contains(k) {
        let j = choose|j: int| 0 <= j < s.len() && s[j] == k;
        assert(s.push(x)[j] == k);
    }
    if k == x {
        assert(s.push(x)[s.len() as int] == k);
    }
}

/// Whether some clip in `clips` conflicts with the span from `a` to `b`.
fn vec_conflict(clips: &Vec<AudioClip>, kind: ConflictKind, a: u32, b: u32, bpm_cents: u16) -> (r: bool)
    requires
        forall|j: int| 0 <= j < clips@.len() ==> clip_fits(#[trigger] clips@[j], bpm_cents),
    ensures
        r == exists|j: int| 0 <= j < clips@.len() && conflicts(kind, a as int, b as int, None, #[trigger] clips@[j], bpm_cents),
{
    let mut i: usize = 0;
    while i < clips.len()
        invariant
            i <= clips@.len(),
            forall|j: int| 0 <= j < clips@.len() ==> clip_fits(#[trigger] clips@[j], bpm_cents),
            forall|j: int| 0 <= j < i ==> !conflicts(kind, a as int, b as int, None, #[trigger] clips@[j], bpm_cents),
        decreases clips@.len() - i,
    {
        let c = &clips[i];
        let hit = match kind {
            ConflictKind::Overlap => {
                let end = c.end(bpm_cents).beat_units;
                (c.start.beat_units <= a && a < end) || (a <= c.start.beat_units && c.start.beat_units < b)
            },
            ConflictKind::Span => {
                let end = c.end(bpm_cents).beat_units;
                a < end && c.start.beat_units < b
            },
            ConflictKind::StartsWithin => a < c.start.beat_units && c.start.beat_units < b,
        };
        if hit {
            assert(conflicts(kind, a as int, b as int, None, clips@[i as int], bpm_cents));
            return true;
        }
        i = i + 1;
    }
    false
}

/// Produced when no key is left for another timeline track.
#[derive(Debug, PartialEq, Eq, Structural)]
pub struct TimelineTrackOverflowError;

/// Produced when no timeline track has the given key.
#[derive(Debug, PartialEq, Eq, Structural)]
pub struct InvalidTimelineTrackError {
    pub key: TimelineTrackKey,
}

/// Why a clip could not be added.
#[derive(Debug, PartialEq, Eq, Structural)]
pub enum AddClipError {
    InvalidTimelineTrack(TimelineTrackKey),
    InvalidClip(StoredAudioClipKey),
    Overlapping,
}

/// Produced when no clip has the given key.
#[derive(Debug, PartialEq, Eq, Structural)]
pub struct InvalidAudioClipError {
    pub clip_key: AudioClipKey,
}

/// Produced when some of the given clip keys belong to no clip; lists those keys.
#[derive(Debug, PartialEq, Eq)]
pub struct InvalidAudioClipsError {
    pub keys: Vec<AudioClipKey>,
}

/// Why a deleted clip could not be reconstructed.
#[derive(Debug, PartialEq, Eq, Structural)]
pub enum AudioClipReconstructionError {
    InvalidTrack(TimelineTrackKey),
    InvalidStoredClip(StoredAudioClipKey),
    KeyInUse(AudioClipKey),
    Overlapping,
}

/// Why a clip could not be moved or cropped.
#[derive(Debug, PartialEq, Eq, Structural)]
pub enum MoveAudioClipError {
    InvalidClip(InvalidAudioClipError),
    Overlapping,
}

/// Why a clip could not be moved to another track.
#[derive(Debug, PartialEq, Eq, Structural)]
pub enum MoveAudioClipToTrackError {
    InvalidClip(InvalidAudioClipError),
    InvalidNewTrack { track_key: TimelineTrackKey },
    Overlapping,
}

/// The reconstruction error that corresponds to an error of adding a clip.
pub open spec fn reconstruction_error_of(e: AddClipError) -> AudioClipReconstructionError {
    match e {
        AddClipError::InvalidTimelineTrack(k) => AudioClipReconstructionError::InvalidTrack(k),
        AddClipError::InvalidClip(k) => AudioClipReconstructionError::InvalidStoredClip(k),
        AddClipError::Overlapping => AudioClipReconstructionError::Overlapping,
    }
}

fn reconstruction_error(e: AddClipError) -> (r: AudioClipReconstructionError)
    ensures
        r == reconstruction_error_of(e),
{
    match e {
        AddClipError::InvalidTimelineTrack(k) => AudioClipReconstructionError::InvalidTrack(k),
        AddClipError::InvalidClip(k) => AudioClipReconstructionError::InvalidStoredClip(k),
        AddClipError::Overlapping => AudioClipReconstructionError::Overlapping,
    }
}

/// A change that the audio thread's copy of the timeline has to follow.
#[derive(Debug)]
pub enum TimelineEvent {
    /// The playhead jumps to the given position.
    JumpTo { position: Timestamp },
    /// A track was added (or reconstructed) with the given clips.
    AddTrack { key: TimelineTrackKey, output: MixerTrackKey, clips: Vec<AudioClipState> },
    /// Empty tracks were added, each with its output.
    AddTracks { tracks: Vec<(TimelineTrackKey, MixerTrackKey)> },
    RemoveTrack { key: TimelineTrackKey },
    RemoveTracks { keys: Vec<TimelineTrackKey> },
    AddClip { track_key: TimelineTrackKey, clip: AudioClipState },
    AddClips { track_key: TimelineTrackKey, clips: Vec<AudioClipState> },
    DeleteClip { track_key: TimelineTrackKey, clip_start: Timestamp },
    DeleteClips { track_keys_and_clip_starts: Vec<(TimelineTrackKey, Timestamp)> },
    MoveAudioClip { track_key: TimelineTrackKey, old_start: Timestamp, new_start: Timestamp },
    CropAudioClipStart {
        track_key: TimelineTrackKey,
        old_start: Timestamp,
        new_start: Timestamp,
        new_length: Timestamp,
        new_start_offset: u64,
    },
    CropAudioClipEnd { track_key: TimelineTrackKey, clip_start: Timestamp, new_length: Timestamp },
}

/// `new` is `old` with one more event at its end.
pub open spec fn one_event_pushed(old: Seq<TimelineEvent>, new: Seq<TimelineEvent>) -> bool {
    new.len() == old.len() + 1 && new.drop_last() == old
}

pub open spec fn is_add_track_event(
    e: TimelineEvent,
    key: TimelineTrackKey,
    output: MixerTrackKey,
    clips: Seq<AudioClipState>,
) -> bool {
    e matches TimelineEvent::AddTrack { key: k, output: o, clips: c } && k == key && o == output && c@ == clips
}

pub open spec fn is_add_tracks_event(e: TimelineEvent, tracks: Seq<(TimelineTrackKey, MixerTrackKey)>) -> bool {
    e matches TimelineEvent::AddTracks { tracks: t } && t@ == tracks
}

pub open spec fn is_remove_track_event(e: TimelineEvent, key: TimelineTrackKey) -> bool {
    e matches TimelineEvent::RemoveTrack { key: k } && k == key
}

pub open spec fn is_remove_tracks_event(e: TimelineEvent, keys: Seq<TimelineTrackKey>) -> bool {
    e matches TimelineEvent::RemoveTracks { keys: k } && k@ == keys
}

pub open spec fn is_add_clip_event(e: TimelineEvent, track_key: TimelineTrackKey, clip: AudioClipState) -> bool {
    e matches TimelineEvent::AddClip { track_key: t, clip: c } && t == track_key && c == clip
}

pub open spec fn is_add_clips_event(e: TimelineEvent, track_key: TimelineTrackKey, clips: Seq<AudioClipState>) -> bool {
    e matches TimelineEvent::AddClips { track_key: t, clips: c } && t == track_key && c@ == clips
}

pub open spec fn is_delete_clip_event(e: TimelineEvent, track_key: TimelineTrackKey, clip_start: Timestamp) -> bool {
    e matches TimelineEvent::DeleteClip { track_key: t, clip_start: s } && t == track_key && s == clip_start
}

pub open spec fn is_delete_clips_event(e: TimelineEvent, starts: Seq<(TimelineTrackKey, Timestamp)>) -> bool {
    e matches TimelineEvent::DeleteClips { track_keys_and_clip_starts: s } && s@ == starts
}

/// A track of the timeline: its clips by key id, and the mixer track it plays into.
pub struct TimelineTrack {
    pub clips: HashMap<u32, AudioClip>,
    pub output_track: MixerTrackKey,
}

/// The persistent state of a timeline track.
#[derive(Debug, Clone)]
pub struct TimelineTrackState {
    pub key: TimelineTrackKey,
    pub clips: Vec<AudioClipState>,
    pub output_track: MixerTrackKey,
}

/// The persistent state of the timeline.
#[derive(Debug, Clone)]
pub struct TimelineState {
    pub bpm_cents: u16,
    pub audio_clip_store: AudioClipStoreState,
    pub tracks: Vec<TimelineTrackState>,
}

impl PartialEq for TimelineTrackState {
    /// Two track states are equal when they are of the same track.
    fn eq(&self, other: &Self) -> (r: bool) {
        self.key == other.key
    }
}

impl PartialEqSpecImpl for TimelineTrackState {
    open spec fn obeys_eq_spec() -> bool {
        true
    }

    open spec fn eq_spec(&self, other: &Self) -> bool {
        self.key == other.key
    }
}

impl Eq for TimelineTrackState {}

/// The keys of the tracks of a timeline's state, as a set: their order does not matter.
pub open spec fn state_track_keys(tracks: Seq<TimelineTrackState>) -> Set<TimelineTrackKey> {
    tracks.map_values(|t: TimelineTrackState| t.key).to_set()
}

/// Every track key of `a` is one of `b`.
fn track_keys_within(a: &Vec<TimelineTrackState>, b: &Vec<TimelineTrackState>) -> (r: bool)
    ensures
        r == state_track_keys(a@).subset_of(state_track_keys(b@)),
{
    let ghost ka = a@.map_values(|t: TimelineTrackState| t.key);
    let ghost kb = b@.map_values(|t: TimelineTrackState| t.key);
    let mut i: usize = 0;
    while i < a.len()
        invariant
            i <= a.len(),
            ka == a@.map_values(|t: TimelineTrackState| t.key),
            kb == b@.map_values(|t: TimelineTrackState| t.key),
            forall|k: int| 0 <= k < i ==> kb.contains(#[trigger] ka[k]),
        decreases a.len() - i,
    {
        let mut j: usize = 0;
        let mut found = false;
        while j < b.len() && !found
            invariant
                i < a.len(),
                j <= b.len(),
                ka == a@.map_values(|t: TimelineTrackState| t.key),
                kb == b@.map_values(|t: TimelineTrackState| t.key),
                found ==> kb.contains(ka[i as int]),
                !found ==> forall|k: int| 0 <= k < j ==> #[trigger] kb[k] != ka[i as int],
            decreases (b.len() - j) * 2 + (if found { 0int } else { 1int }),
        {
            if a[i].key == b[j].key {
                assert(kb[j as int] == ka[i as int]);
                found = true;
            } else {
                j = j + 1;
            }
        }
        if !found {
            proof {
                assert(!kb.contains(ka[i as int]));
                assert(ka.to_set().contains(ka[i as int]));
            }
            return false;
        }
        i = i + 1;
    }
    proof {
        assert forall|x| #[trigger] ka.to_set().contains(x) implies kb.to_set().contains(x) by {
            let k = choose|k: int| 0 <= k < ka.len() && ka[k] == x;
            assert(kb.contains(ka[k]));
        }
    }
    true
}

impl PartialEq for TimelineState {
    /// Two timeline states are equal when they have the same tempo and stored clips, and the same
    /// tracks in any order (tracks being equal when their keys are).
    fn eq(&self, other: &Self) -> (r: bool) {
        let r = self.bpm_cents == other.bpm_cents && self.audio_clip_store == other.audio_clip_store
            && track_keys_within(&self.tracks, &other.tracks) && track_keys_within(&other.tracks, &self.tracks);
        proof {
            if r {
                assert(state_track_keys(self.tracks@) =~= state_track_keys(other.tracks@));
            }
        }
        r
    }
}

impl PartialEqSpecImpl for TimelineState {
    open spec fn obeys_eq_spec() -> bool {
        true
    }

    open spec fn eq_spec(&self, other: &Self) -> bool {
        &&& self.bpm_cents == other.bpm_cents
        &&& path_pairs(self.audio_clip_store.clips@) == path_pairs(other.audio_clip_store.clips@)
        &&& state_track_keys(self.tracks@) == state_track_keys(other.tracks@)
    }
}

impl Eq for TimelineState {}

impl Default for TimelineState {
    /// An empty timeline at 120 BPM.
    fn default() -> (r: Self)
        ensures
            r.bpm_cents == 12_000,
            r.audio_clip_store.clips@.len() == 0,
            r.tracks@.len() == 0,
    {
        TimelineState { bpm_cents: 12_000, audio_clip_store: AudioClipStoreState::default(), tracks: Vec::new() }
    }
}

/// What deleting the clip with key `k` from `old` leaves in `new`, `s` being the state given back.
pub open spec fn clip_deleted(old: Timeline, new: Timeline, k: AudioClipKey, s: AudioClipState) -> bool {
    let t = old.clip_to_track()[k.0];
    &&& s == clip_state_of(old.clip(k.0))
    &&& new.same_frame(&old)
    &&& new.clips_same_except(&old, t.0)
    &&& new.clips_of(t.0) == old.clips_of(t.0).remove(k.0)
    &&& new.clip_keys() == old.clip_keys().remove(k.0)
    &&& new.clip_to_track() == old.clip_to_track().remove(k.0)
    &&& one_event_pushed(old.events(), new.events())
    &&& is_delete_clip_event(new.events().last(), t, old.clip(k.0).start)
}

/// What putting the clip of state `s` back on `track` of `old` leaves in `new`.
pub open spec fn clip_put_back(old: Timeline, new: Timeline, track: TimelineTrackKey, s: AudioClipState) -> bool {
    &&& new.same_frame(&old)
    &&& new.clips_same_except(&old, track.0)
    &&& new.clips_of(track.0) == old.clips_of(track.0).insert(s.key.0, old.clip_for(s))
    &&& new.clip_keys() == old.clip_keys().insert(s.key.0)
    &&& new.clip_to_track() == old.clip_to_track().insert(s.key.0, track)
    &&& one_event_pushed(old.events(), new.events())
    &&& is_add_clip_event(new.events().last(), track, AudioClipState { start_offset: 0, ..s })
}

/// `st` is the state of `tl`: its tempo, its stored files, and each of its tracks once.
pub open spec fn describes_state(tl: Timeline, st: TimelineState) -> bool {
    &&& st.bpm_cents == tl.bpm()
    &&& st.audio_clip_store.clips@ == tl.store().paths()
    &&& st.tracks@.len() == tl.tracks().dom().len()
    &&& forall|i: int| 0 <= i < st.tracks@.len() ==> tl.describes_track(#[trigger] st.tracks@[i])
    &&& forall|i: int, j: int| 0 <= i < j < st.tracks@.len() ==> (#[trigger] st.tracks@[i]).key != (#[trigger] st.tracks@[j]).key
    &&& forall|t: u32| #[trigger] tl.tracks().contains_key(t) ==> exists|i: int| 0 <= i < st.tracks@.len() && #[trigger] st.tracks@[i].key.0 == t
}

/// A timeline can be rebuilt from `state` on `clip_store` at `sample_rate`: the track keys are
/// distinct, so are the clip keys across all tracks, every clip's stored clip is in the store,
/// and every clip ends within the timeline.
pub open spec fn rebuild_ready(state: TimelineState, sample_rate: u32, clip_store: AudioClipStore) -> bool {
    &&& clip_store.wf()
    &&& rate_fits(sample_rate as int, state.bpm_cents as int)
    &&& 0 < state.bpm_cents
    &&& state.tracks@.len() <= u32::MAX
    &&& crate::key_generator::ids_of(state.tracks@.map_values(|t: TimelineTrackState| t.key)).no_duplicates()
    &&& all_clip_keys(state.tracks@).len() <= u32::MAX
    &&& crate::key_generator::ids_of(all_clip_keys(state.tracks@)).no_duplicates()
    &&& forall|a: int, j: int|
        0 <= a < state.tracks@.len() && 0 <= j < state.tracks@[a].clips@.len() ==> {
            let c = #[trigger] state.tracks@[a].clips@[j];
            &&& clip_store.clips().contains_key(c.inner.0)
            &&& clip_end(clip_from_state(c, clip_store.clips()[c.inner.0], sample_rate), state.bpm_cents) <= u32::MAX
        }
}

/// `tl` is the timeline rebuilt from `state` on `clip_store` at `sample_rate`: its tracks, their
/// clips and outputs, and the keys in use are those of the state; the key counters stand at the
/// largest keys; no event is pending.
pub open spec fn rebuilt_from_state(tl: Timeline, state: TimelineState, sample_rate: u32, clip_store: AudioClipStore) -> bool {
    let track_ids = crate::key_generator::ids_of(state.tracks@.map_values(|t: TimelineTrackState| t.key));
    let clip_ids = crate::key_generator::ids_of(all_clip_keys(state.tracks@));
    &&& tl.wf()
    &&& tl.sample_rate_spec() == sample_rate
    &&& tl.bpm() == state.bpm_cents
    &&& tl.store() == clip_store
    &&& tl.track_keys() == track_ids.to_set()
    &&& tl.track_key_last() == crate::key_generator::max_id(track_ids)
    &&& tl.tracks().dom() == track_ids.to_set()
    &&& tl.clip_keys() == clip_ids.to_set()
    &&& tl.clip_key_last() == crate::key_generator::max_id(clip_ids)
    &&& forall|a: int| 0 <= a < state.tracks@.len() ==> {
        &&& tl.clips_of(#[trigger] state.tracks@[a].key.0) == tl.batch_prefix(
            state.tracks@[a].clips@,
            state.tracks@[a].clips@.len() as int,
        )
        &&& tl.tracks()[state.tracks@[a].key.0].output_track == state.tracks@[a].output_track
    }
    &&& forall|a: int, j: int|
        0 <= a < state.tracks@.len() && 0 <= j < state.tracks@[a].clips@.len() ==> tl.clip_to_track()[(
        #[trigger] state.tracks@[a].clips@[j]).key.0] == state.tracks@[a].key
    &&& tl.events() == Seq::<TimelineEvent>::empty()
}

/// The editable model of the timeline: tracks, the clips on them, the stored clips they play,
/// and the changes not yet handed to the audio thread.
pub struct Timeline {
    sample_rate: u32,
    bpm_cents: u16,
    track_key_generator: KeyGenerator<TimelineTrackKey>,
    clip_key_generator: KeyGenerator<AudioClipKey>,
    clip_to_track: HashMap<u32, TimelineTrackKey>,
    clip_store: AudioClipStore,
    tracks: HashMap<u32, TimelineTrack>,
    events: Vec<TimelineEvent>,
}

impl Timeline {
    pub closed spec fn sample_rate_spec(&self) -> u32 {
        self.sample_rate
    }

    pub closed spec fn bpm(&self) -> u16 {
        self.bpm_cents
    }

    /// The tracks, by key id.
    pub closed spec fn tracks(&self) -> Map<u32, TimelineTrack> {
        self.tracks@
    }

    /// The clips on the track with the given key id.
    pub open spec fn clips_of(&self, track: u32) -> Map<u32, AudioClip> {
        self.tracks()[track].clips@
    }

    /// The ids of the timeline track keys in use.
    pub closed spec fn track_keys(&self) -> Set<u32> {
        self.track_key_generator.used()
    }

    pub closed spec fn track_key_last(&self) -> u32 {
        self.track_key_generator.last()
    }

    /// The ids of the clip keys in use.
    pub closed spec fn clip_keys(&self) -> Set<u32> {
        self.clip_key_generator.used()
    }

    pub closed spec fn clip_key_last(&self) -> u32 {
        self.clip_key_generator.last()
    }

    /// The track each clip key belongs to.
    pub closed spec fn clip_to_track(&self) -> Map<u32, TimelineTrackKey> {
        self.clip_to_track@
    }

    /// The stored clips.
    pub closed spec fn store(&self) -> AudioClipStore {
        self.clip_store
    }

    /// The changes not yet handed to the audio thread, oldest first.
    pub closed spec fn events(&self) -> Seq<TimelineEvent> {
        self.events@
    }

    /// The clip key is in use and the clip can be found on its track.
    pub open spec fn clip_located(&self, clip: u32) -> bool {
        &&& self.clip_to_track().contains_key(clip)
        &&& self.tracks().contains_key(self.clip_to_track()[clip].0)
        &&& self.clips_of(self.clip_to_track()[clip].0).contains_key(clip)
    }

    /// A clip key that is in use can be found on its track.
    ///
    /// (It cannot when its track was deleted, or reconstructed by
    /// [`Timeline::reconstruct_tracks`], which leaves the clips out.)
    pub open spec fn clip_reachable(&self, clip: u32) -> bool {
        self.clip_keys().contains(clip) ==> self.clip_located(clip)
    }

    /// The clip with the given key id (meaningful when it is located).
    pub open spec fn clip(&self, clip: u32) -> AudioClip {
        self.clips_of(self.clip_to_track()[clip].0)[clip]
    }

    /// A clip can stand on this timeline.
    pub closed spec fn clip_ok(&self, c: AudioClip) -> bool {
        clip_ok_on(c, self.sample_rate, self.bpm_cents, self.clip_store.clips())
    }

    pub closed spec fn wf(&self) -> bool {
        &&& rate_fits(self.sample_rate as int, self.bpm_cents as int)
        &&& 0 < self.bpm_cents
        &&& self.track_key_generator.wf()
        &&& self.clip_key_generator.wf()
        &&& self.clip_store.wf()
        &&& self.tracks@.dom() == self.track_key_generator.used()
        &&& self.clip_to_track@.dom() == self.clip_key_generator.used()
        &&& forall|t: u32, c: u32|
            #![trigger self.tracks@[t].clips@[c]]
            self.tracks@.contains_key(t) && self.tracks@[t].clips@.contains_key(c) ==> {
                &&& self.clip_to_track@.contains_key(c)
                &&& self.clip_to_track@[c].0 == t
                &&& self.tracks@[t].clips@[c].key.0 == c
                &&& clip_ok_on(self.tracks@[t].clips@[c], self.sample_rate, self.bpm_cents, self.clip_store.clips())
            }
    }

    /// The clip that the state would become on this timeline.
    pub open spec fn clip_for(&self, s: AudioClipState) -> AudioClip {
        clip_from_state(s, self.store().clips()[s.inner.0], self.sample_rate_spec())
    }

    /// What adding the clip described by `s` to the track gives: the first check that fails, in
    /// the order track, stored clip, overlap.
    pub open spec fn add_outcome(&self, track: TimelineTrackKey, s: AudioClipState) -> Result<(), AddClipError> {
        if !self.track_keys().contains(track.0) {
            Err(AddClipError::InvalidTimelineTrack(track))
        } else if !self.store().clips().contains_key(s.inner.0) {
            Err(AddClipError::InvalidClip(s.inner))
        } else if has_conflict(
            self.clips_of(track.0),
            ConflictKind::Overlap,
            s.start@ as int,
            clip_end(self.clip_for(s), self.bpm()),
            None,
            self.bpm(),
        ) {
            Err(AddClipError::Overlapping)
        } else {
            Ok(())
        }
    }

    /// When the track and the stored clip exist, the clip described by `s` ends within the timeline.
    pub open spec fn add_fits(&self, track: TimelineTrackKey, s: AudioClipState) -> bool {
        self.track_keys().contains(track.0) && self.store().clips().contains_key(s.inner.0) ==> clip_end(
            self.clip_for(s),
            self.bpm(),
        ) <= u32::MAX
    }

    /// Everything but the clips, their keys and the pending events is as in `old`.
    pub open spec fn same_frame(&self, old: &Timeline) -> bool {
        &&& self.sample_rate_spec() == old.sample_rate_spec()
        &&& self.bpm() == old.bpm()
        &&& self.store() == old.store()
        &&& self.track_keys() == old.track_keys()
        &&& self.track_key_last() == old.track_key_last()
        &&& self.clip_key_last() == old.clip_key_last()
        &&& self.tracks().dom() == old.tracks().dom()
        &&& forall|t: u32| #[trigger] old.tracks().contains_key(t) ==> self.tracks()[t].output_track == old.tracks()[t].output_track
    }

    /// No two clips on one track overlap.
    pub open spec fn tracks_apart(&self) -> bool {
        forall|t: u32| #[trigger] self.tracks().contains_key(t) ==> clips_apart(self.clips_of(t), self.bpm())
    }

    /// Every track other than `t` has the clips it had in `old`.
    pub open spec fn clips_same_except(&self, old: &Timeline, t: u32) -> bool {
        forall|u: u32| #[trigger] old.tracks().contains_key(u) && u != t ==> self.clips_of(u) == old.clips_of(u)
    }

    /// An empty timeline.
    pub fn new(sample_rate: u32, bpm_cents: u16) -> (tl: Self)
        requires
            rate_fits(sample_rate as int, bpm_cents as int),
            0 < bpm_cents,
        ensures
            tl.tracks_apart(),
            tl.wf(),
            tl.sample_rate_spec() == sample_rate,
            tl.bpm() == bpm_cents,
            tl.tracks() == Map::<u32, TimelineTrack>::empty(),
            tl.track_keys() == Set::<u32>::empty(),
            tl.track_key_last() == u32::MAX,
            tl.clip_keys() == Set::<u32>::empty(),
            tl.clip_key_last() == u32::MAX,
            tl.clip_to_track() == Map::<u32, TimelineTrackKey>::empty(),
            tl.store().clips() == Map::<u32, StoredClipInfo>::empty(),
            tl.events() == Seq::<TimelineEvent>::empty(),
    {
        Timeline {
            sample_rate,
            bpm_cents,
            track_key_generator: KeyGenerator::new(),
            clip_key_generator: KeyGenerator::new(),
            clip_to_track: HashMap::new(),
            clip_store: AudioClipStore::new(),
            tracks: HashMap::new(),
            events: Vec::new(),
        }
    }

    /// The tempo, in BPM-cents (12000 is 120 BPM).
    pub fn bpm_cents(&self) -> (r: u16)
        ensures
            r == self.bpm(),
    {
        self.bpm_cents
    }

    /// The output sample rate.
    pub fn sample_rate(&self) -> (r: u32)
        ensures
            r == self.sample_rate_spec(),
    {
        self.sample_rate
    }

    /// Whether a timeline track has the key.
    pub fn key_in_use(&self, key: TimelineTrackKey) -> (r: bool)
        requires
            self.wf(),
        ensures
            r == self.track_keys().contains(key.0),
    {
        self.track_key_generator.in_use(key)
    }

    /// How many more timeline tracks can be added.
    pub fn remaining_keys(&self) -> (r: u32)
        requires
            self.wf(),
        ensures
            r == u32::MAX - self.track_keys().len(),
    {
        self.track_key_generator.remaining_keys()
    }

    /// The number of clip keys in use.
    pub fn clip_count(&self) -> (r: u32)
        requires
            self.wf(),
        ensures
            r == self.clip_keys().len(),
    {
        self.clip_key_generator.used_keys()
    }

    /// Hand over the changes not yet given to the audio thread, oldest first.
    pub fn take_events(&mut self) -> (r: Vec<TimelineEvent>)
        requires
            old(self).wf(),
        ensures
            old(self).tracks_apart() ==> final(self).tracks_apart(),
            final(self).wf(),
            r@ == old(self).events(),
            final(self).events() == Seq::<TimelineEvent>::empty(),
            final(self).tracks() == old(self).tracks(),
            final(self).track_keys() == old(self).track_keys(),
            final(self).track_key_last() == old(self).track_key_last(),
            final(self).clip_keys() == old(self).clip_keys(),
            final(self).clip_key_last() == old(self).clip_key_last(),
            final(self).clip_to_track() == old(self).clip_to_track(),
            final(self).store() == old(self).store(),
            final(self).sample_rate_spec() == old(self).sample_rate_spec(),
            final(self).bpm() == old(self).bpm(),
    {
        let mut taken: Vec<TimelineEvent> = Vec::new();
        std::mem::swap(&mut taken, &mut self.events);
        proof {
            if old(self).tracks_apart() {
                lemma_same_tracks_apart(*old(self), *self);
            }
        }
        taken
    }

    /// Reserve the next track key and add an empty track under it, without telling the audio thread.
    fn insert_new_track(&mut self, output: MixerTrackKey) -> (key: TimelineTrackKey)
        requires
            old(self).wf(),
            old(self).track_keys().len() < u32::MAX,
        ensures
            final(self).wf(),
            final(self).sample_rate_spec() == old(self).sample_rate_spec(),
            final(self).bpm() == old(self).bpm(),
            final(self).store() == old(self).store(),
            final(self).clip_keys() == old(self).clip_keys(),
            final(self).clip_key_last() == old(self).clip_key_last(),
            final(self).clip_to_track() == old(self).clip_to_track(),
            final(self).events() == old(self).events(),
            crate::key_generator::is_next_free(old(self).track_key_last(), old(self).track_keys(), key.0),
            final(self).track_keys() == old(self).track_keys().insert(key.0),
            final(self).track_key_last() == key.0,
            !old(self).tracks().contains_key(key.0),
            final(self).tracks() == old(self).tracks().insert(key.0, final(self).tracks()[key.0]),
            final(self).clips_of(key.0) == Map::<u32, AudioClip>::empty(),
            final(self).tracks()[key.0].output_track == output,
    {
        let key = match self.track_key_generator.next() {
            Ok(key) => key,
            Err(_) => {
                assert(false);
                return TimelineTrackKey(0);
            },
        };
        self.tracks.insert(key.0, TimelineTrack { clips: HashMap::new(), output_track: output });
        assert(self.tracks@ =~= old(self).tracks@.insert(key.0, self.tracks@[key.0]));
        key
    }

    /// Add empty tracks, one for each output, in order.
    #[verifier::rlimit(100)]
    #[verifier::spinoff_prover]
    pub fn add_tracks(&mut self, outputs: Vec<MixerTrackKey>) -> (r: Result<Vec<TimelineTrackKey>, TimelineTrackOverflowError>)
        requires
            old(self).wf(),
        ensures
            old(self).tracks_apart() ==> final(self).tracks_apart(),
            final(self).wf(),
            final(self).sample_rate_spec() == old(self).sample_rate_spec(),
            final(self).bpm() == old(self).bpm(),
            final(self).store() == old(self).store(),
            final(self).clip_keys() == old(self).clip_keys(),
            final(self).clip_key_last() == old(self).clip_key_last(),
            final(self).clip_to_track() == old(self).clip_to_track(),
            r is Err <==> outputs@.len() > u32::MAX - old(self).track_keys().len(),
            r is Err ==> *final(self) == *old(self),
            r matches Ok(keys) ==> {
                let ids = crate::key_generator::ids_of(keys@);
                &&& keys@.len() == outputs@.len()
                &&& crate::key_generator::is_fresh_run(old(self).track_key_last(), old(self).track_keys(), ids)
                &&& final(self).track_keys() == old(self).track_keys().union(ids.to_set())
                &&& final(self).track_key_last() == (if keys@.len() == 0 { old(self).track_key_last() } else { ids.last() })
                &&& final(self).tracks().dom() == old(self).tracks().dom().union(ids.to_set())
                &&& forall|t: u32| #[trigger] old(self).tracks().contains_key(t) ==> final(self).tracks()[t] == old(self).tracks()[t]
                &&& forall|i: int| 0 <= i < keys@.len() ==> {
                    &&& final(self).clips_of(#[trigger] ids[i]) == Map::<u32, AudioClip>::empty()
                    &&& final(self).tracks()[ids[i]].output_track == outputs@[i]
                }
                &&& one_event_pushed(old(self).events(), final(self).events())
                &&& is_add_tracks_event(final(self).events().last(), keys@.zip_with(outputs@))
            },
    {
        let count = outputs.len();
        if count > u32::MAX as usize {
            return Err(TimelineTrackOverflowError);
        }
        if self.track_key_generator.remaining_keys() < count as u32 {
            return Err(TimelineTrackOverflowError);
        }
        let mut keys: Vec<TimelineTrackKey> = Vec::new();
        let mut pairs: Vec<(TimelineTrackKey, MixerTrackKey)> = Vec::new();
        proof {
            crate::key_generator::lemma_fresh_run_empty(self.track_key_last(), self.track_keys());
            assert(crate::key_generator::ids_of(keys@) =~= Seq::<u32>::empty());
        }
        let mut i: usize = 0;
        while i < count
            invariant
                self.wf(),
                count == outputs@.len(),
                count <= u32::MAX - old(self).track_keys().len(),
                i <= count,
                keys@.len() == i,
                self.sample_rate_spec() == old(self).sample_rate_spec(),
                self.bpm() == old(self).bpm(),
                self.store() == old(self).store(),
                self.clip_keys() == old(self).clip_keys(),
                self.clip_key_last() == old(self).clip_key_last(),
                self.clip_to_track() == old(self).clip_to_track(),
                self.events() == old(self).events(),
                crate::key_generator::is_fresh_run(old(self).track_key_last(), old(self).track_keys(), crate::key_generator::ids_of(keys@)),
                self.track_keys() == old(self).track_keys().union(crate::key_generator::ids_of(keys@).to_set()),
                self.track_keys().len() == old(self).track_keys().len() + i,
                self.track_key_last() == (if i == 0 { old(self).track_key_last() } else { crate::key_generator::ids_of(keys@).last() }),
                self.tracks().dom() == old(self).tracks().dom().union(crate::key_generator::ids_of(keys@).to_set()),
                forall|t: u32| #[trigger] old(self).tracks().contains_key(t) ==> self.tracks()[t] == old(self).tracks()[t],
                forall|j: int| 0 <= j < i ==> {
                    &&& self.clips_of(#[trigger] crate::key_generator::ids_of(keys@)[j]) == Map::<u32, AudioClip>::empty()
                    &&& self.tracks()[crate::key_generator::ids_of(keys@)[j]].output_track == outputs@[j]
                },
                pairs@ == keys@.zip_with(outputs@.take(i as int)),
            decreases count - i,
        {
            let ghost ids = crate::key_generator::ids_of(keys@);
            let ghost before = *self;
            let output = outputs[i];
            let key = self.insert_new_track(output);
            keys.push(key);
            pairs.push((key, output));
            let ghost ids2 = crate::key_generator::ids_of(keys@);
            proof {
                assert(ids2 =~= ids.push(key.0));
                crate::key_generator::lemma_fresh_run_push(old(self).track_key_last(), old(self).track_keys(), ids, key.0);
                ids.lemma_push_to_set_commute(key.0);
                assert(self.track_keys() =~= old(self).track_keys().union(ids2.to_set()));
                assert(self.tracks().dom() =~= old(self).tracks().dom().union(ids2.to_set()));
                assert forall|t: u32| #[trigger] old(self).tracks().contains_key(t) implies self.tracks()[t] == old(self).tracks()[t] by {
                    assert(before.tracks().contains_key(t));
                }
                assert(outputs@.take(i as int + 1) =~= outputs@.take(i as int).push(output));
            }
            i = i + 1;
            assert(pairs@ =~= keys@.zip_with(outputs@.take(i as int)));
        }
        assert(outputs@.take(count as int) =~= outputs@);
        let ghost old_events = self.events@;
        self.events.push(TimelineEvent::AddTracks { tracks: pairs });
        assert(self.events@.drop_last() =~= old_events);
        Ok(keys)
    }

    /// Delete the track with the given key. Its clips keep their keys, so that the track can be reconstructed.
    pub fn delete_track(&mut self, key: TimelineTrackKey) -> (r: Result<(), InvalidTimelineTrackError>)
        requires
            old(self).wf(),
        ensures
            old(self).tracks_apart() ==> final(self).tracks_apart(),
            final(self).wf(),
            r is Ok <==> old(self).track_keys().contains(key.0),
            r matches Err(e) ==> e.key == key && *final(self) == *old(self),
            r is Ok ==> {
                &&& final(self).track_keys() == old(self).track_keys().remove(key.0)
                &&& final(self).track_key_last() == old(self).track_key_last()
                &&& final(self).tracks() == old(self).tracks().remove(key.0)
                &&& final(self).clip_keys() == old(self).clip_keys()
                &&& final(self).clip_key_last() == old(self).clip_key_last()
                &&& final(self).clip_to_track() == old(self).clip_to_track()
                &&& final(self).store() == old(self).store()
                &&& final(self).sample_rate_spec() == old(self).sample_rate_spec()
                &&& final(self).bpm() == old(self).bpm()
                &&& one_event_pushed(old(self).events(), final(self).events())
                &&& is_remove_track_event(final(self).events().last(), key)
            },
    {
        if !self.track_key_generator.in_use(key) {
            return Err(InvalidTimelineTrackError { key });
        }
        let _ = self.track_key_generator.free(key);
        let _ = self.tracks.remove(&key.0);
        let ghost old_events = self.events@;
        self.events.push(TimelineEvent::RemoveTrack { key });
        assert(self.events@.drop_last() =~= old_events);
        proof {
            if old(self).tracks_apart() {
                lemma_fewer_clips_apart(*old(self), *self);
            }
        }
        Ok(())
    }

    /// Delete the tracks with the given keys; fails, changing nothing, on the first key that belongs to no track.
    pub fn delete_tracks(&mut self, keys: Vec<TimelineTrackKey>) -> (r: Result<(), InvalidTimelineTrackError>)
        requires
            old(self).wf(),
            crate::key_generator::ids_of(keys@).no_duplicates(),
        ensures
            old(self).tracks_apart() ==> final(self).tracks_apart(),
            final(self).wf(),
            r is Ok <==> forall|i: int| 0 <= i < keys@.len() ==> old(self).track_keys().contains(#[trigger] keys@[i].0),
            r matches Err(e) ==> *final(self) == *old(self) && exists|i: int|
                0 <= i < keys@.len() && keys@[i] == e.key && !old(self).track_keys().contains(#[trigger] keys@[i].0)
                    && forall|j: int| 0 <= j < i ==> old(self).track_keys().contains(#[trigger] keys@[j].0),
            r is Ok ==> {
                let ids = crate::key_generator::ids_of(keys@).to_set();
                &&& final(self).track_keys() == old(self).track_keys().difference(ids)
                &&& final(self).track_key_last() == old(self).track_key_last()
                &&& final(self).tracks() == old(self).tracks().remove_keys(ids)
                &&& final(self).clip_keys() == old(self).clip_keys()
                &&& final(self).clip_key_last() == old(self).clip_key_last()
                &&& final(self).clip_to_track() == old(self).clip_to_track()
                &&& final(self).store() == old(self).store()
                &&& final(self).sample_rate_spec() == old(self).sample_rate_spec()
                &&& final(self).bpm() == old(self).bpm()
                &&& one_event_pushed(old(self).events(), final(self).events())
                &&& is_remove_tracks_event(final(self).events().last(), keys@)
            },
    {
        let mut i: usize = 0;
        while i < keys.len()
            invariant
                self.wf(),
                *self == *old(self),
                i <= keys@.len(),
                forall|j: int| 0 <= j < i ==> self.track_keys().contains(#[trigger] keys@[j].0),
            decreases keys@.len() - i,
        {
            if !self.track_key_generator.in_use(keys[i]) {
                return Err(InvalidTimelineTrackError { key: keys[i] });
            }
            i = i + 1;
        }
        let ghost ids = crate::key_generator::ids_of(keys@);
        let mut i: usize = 0;
        while i < keys.len()
            invariant
                self.track_key_generator.wf(),
                self.clip_key_generator == old(self).clip_key_generator,
                self.clip_to_track == old(self).clip_to_track,
                self.clip_store == old(self).clip_store,
                self.events == old(self).events,
                self.sample_rate == old(self).sample_rate,
                self.bpm_cents == old(self).bpm_cents,
                ids == crate::key_generator::ids_of(keys@),
                ids.no_duplicates(),
                forall|j: int| 0 <= j < keys@.len() ==> old(self).track_keys().contains(#[trigger] keys@[j].0),
                i <= keys@.len(),
                self.track_key_generator.used() == old(self).track_key_generator.used().difference(ids.take(i as int).to_set()),
                self.track_key_generator.last() == old(self).track_key_generator.last(),
                self.tracks@ == old(self).tracks@.remove_keys(ids.take(i as int).to_set()),
                old(self).wf(),
            decreases keys@.len() - i,
        {
            let key = keys[i];
            proof {
                assert(ids[i as int] == key.0);
                ids.take(i as int).lemma_push_to_set_commute(key.0);
                assert(ids.take(i as int + 1) =~= ids.take(i as int).push(key.0));
                assert(!ids.take(i as int).contains(key.0));
            }
            let _ = self.track_key_generator.free(key);
            let _ = self.tracks.remove(&key.0);
            i = i + 1;
            assert(self.track_key_generator.used() =~= old(self).track_key_generator.used().difference(ids.take(i as int).to_set()));
            assert(self.tracks@ =~= old(self).tracks@.remove_keys(ids.take(i as int).to_set()));
        }
        assert(ids.take(keys@.len() as int) =~= ids);
        proof {
            assert forall|t: u32, c: u32|
                #![trigger self.tracks@[t].clips@[c]]
                self.tracks@.contains_key(t) && self.tracks@[t].clips@.contains_key(c) implies {
                    &&& self.clip_to_track@.contains_key(c)
                    &&& self.clip_to_track@[c].0 == t
                    &&& self.tracks@[t].clips@[c].key.0 == c
                    &&& clip_ok_on(self.tracks@[t].clips@[c], self.sample_rate, self.bpm_cents, self.clip_store.clips())
                } by {
                assert(old(self).tracks@.contains_key(t));
                assert(old(self).tracks@[t] == self.tracks@[t]);
            }
            assert(self.tracks@.dom() =~= self.track_key_generator.used());
        }
        let ghost old_events = self.events@;
        self.events.push(TimelineEvent::RemoveTracks { keys });
        assert(self.events@.drop_last() =~= old_events);
        proof {
            if old(self).tracks_apart() {
                assert forall|u: u32| #[trigger] self.tracks().contains_key(u) implies old(self).tracks().contains_key(u)
                    && self.clips_of(u).submap_of(old(self).clips_of(u)) by {
                    assert(old(self).tracks@.contains_key(u));
                    assert(old(self).tracks@[u] == self.tracks@[u]);
                }
                lemma_fewer_clips_apart(*old(self), *self);
            }
        }
        Ok(())
    }

    /// Add an empty track that plays into the given mixer track.
    pub fn add_track(&mut self, output: MixerTrackKey) -> (r: Result<TimelineTrackKey, TimelineTrackOverflowError>)
        requires
            old(self).wf(),
        ensures
            old(self).tracks_apart() ==> final(self).tracks_apart(),
            final(self).wf(),
            final(self).sample_rate_spec() == old(self).sample_rate_spec(),
            final(self).bpm() == old(self).bpm(),
            final(self).store() == old(self).store(),
            final(self).clip_keys() == old(self).clip_keys(),
            final(self).clip_key_last() == old(self).clip_key_last(),
            final(self).clip_to_track() == old(self).clip_to_track(),
            r is Err <==> old(self).track_keys().len() == u32::MAX,
            r is Err ==> *final(self) == *old(self),
            r matches Ok(key) ==> {
                &&& crate::key_generator::is_next_free(old(self).track_key_last(), old(self).track_keys(), key.0)
                &&& final(self).track_keys() == old(self).track_keys().insert(key.0)
                &&& final(self).track_key_last() == key.0
                &&& final(self).tracks() == old(self).tracks().insert(key.0, final(self).tracks()[key.0])
                &&& final(self).clips_of(key.0) == Map::<u32, AudioClip>::empty()
                &&& final(self).tracks()[key.0].output_track == output
                &&& one_event_pushed(old(self).events(), final(self).events())
                &&& is_add_track_event(final(self).events().last(), key, output, Seq::empty())
            },
    {
        let key = match self.track_key_generator.next() {
            Ok(key) => key,
            Err(_) => return Err(TimelineTrackOverflowError),
        };
        self.tracks.insert(key.0, TimelineTrack { clips: HashMap::new(), output_track: output });
        let ghost old_events = self.events@;
        self.events.push(TimelineEvent::AddTrack { key, output, clips: Vec::new() });
        assert(self.events@.drop_last() =~= old_events);
        assert(self.tracks@ =~= old(self).tracks@.insert(key.0, self.tracks@[key.0]));
        proof {
            if old(self).tracks_apart() {
                assert forall|u: u32| #[trigger] self.tracks().contains_key(u) implies clips_apart(self.clips_of(u), self.bpm()) by {
                    if u != key.0 {
                        assert(old(self).tracks().contains_key(u));
                    }
                }
            }
        }
        Ok(key)
    }
}


impl Timeline {
    /// What the invariant says of each clip on a track.
    proof fn lemma_clip_facts(&self, t: u32, c: u32)
        requires
            self.wf(),
            self.tracks().contains_key(t),
            self.clips_of(t).contains_key(c),
        ensures
            self.clip_to_track().contains_key(c),
            self.clip_to_track()[c].0 == t,
            self.clips_of(t)[c].key.0 == c,
            self.clips_of(t)[c].sample_rate == self.sample_rate_spec(),
            clip_fits(self.clips_of(t)[c], self.bpm()),
            self.store().clips().contains_key(self.clips_of(t)[c].stored_clip.0),
            self.clips_of(t)[c].source_frames == self.store().clips()[self.clips_of(t)[c].stored_clip.0].frames_at(
                self.sample_rate_spec(),
            ),
    {
        reveal(clip_ok_on);
        assert(self.tracks@[t].clips@.contains_key(c));
    }

    /// Every clip on every track fits.
    proof fn lemma_all_fit(&self, t: u32)
        requires
            self.wf(),
            self.tracks().contains_key(t),
        ensures
            forall|k: u32| #[trigger] self.clips_of(t).contains_key(k) ==> clip_fits(self.clips_of(t)[k], self.bpm()),
    {
        assert forall|k: u32| #[trigger] self.clips_of(t).contains_key(k) implies clip_fits(self.clips_of(t)[k], self.bpm()) by {
            self.lemma_clip_facts(t, k);
        }
    }

    /// Build the clip that a state describes, checking the track and the stored clip.
    fn clip_of_state(&self, track: TimelineTrackKey, s: AudioClipState) -> (r: Result<AudioClip, AddClipError>)
        requires
            self.wf(),
            self.add_fits(track, s),
        ensures
            r is Ok <==> self.track_keys().contains(track.0) && self.store().clips().contains_key(s.inner.0),
            r matches Ok(c) ==> c == self.clip_for(s) && clip_fits(c, self.bpm()) && self.clip_ok(c),
            r matches Err(e) ==> Err::<(), AddClipError>(e) == self.add_outcome(track, s),
    {
        if !self.track_key_generator.in_use(track) {
            return Err(AddClipError::InvalidTimelineTrack(track));
        }
        let info = match self.clip_store.get(s.inner) {
            Ok(info) => info,
            Err(_) => return Err(AddClipError::InvalidClip(s.inner)),
        };
        proof {
            lemma_frames_at_bounded(info, self.sample_rate);
        }
        let frames = rescale_frames(info.length, self.sample_rate, info.sample_rate);
        let clip = AudioClip {
            key: s.key,
            start: s.start,
            length: s.length,
            start_offset: s.start_offset,
            stored_clip: s.inner,
            source_frames: frames,
            sample_rate: self.sample_rate,
        };
        proof {
            reveal(clip_ok_on);
        }
        Ok(clip)
    }

    /// Put a clip on a track under its (free) key and reserve the key, checking the track, the
    /// stored clip and overlaps first. Tells the audio thread nothing.
    fn insert_clip(&mut self, track: TimelineTrackKey, s: AudioClipState) -> (r: Result<(), AddClipError>)
        requires
            old(self).wf(),
            !old(self).clip_keys().contains(s.key.0),
            old(self).clip_keys().len() < u32::MAX,
            old(self).add_fits(track, s),
        ensures
            final(self).wf(),
            r == old(self).add_outcome(track, s),
            r is Err ==> *final(self) == *old(self),
            old(self).tracks_apart() ==> final(self).tracks_apart(),
            r is Ok ==> {
                &&& final(self).same_frame(old(self))
                &&& final(self).clips_same_except(old(self), track.0)
                &&& final(self).clips_of(track.0) == old(self).clips_of(track.0).insert(s.key.0, old(self).clip_for(s))
                &&& final(self).clip_keys() == old(self).clip_keys().insert(s.key.0)
                &&& final(self).clip_to_track() == old(self).clip_to_track().insert(s.key.0, track)
                &&& final(self).events() == old(self).events()
            },
    {
        let clip = match self.clip_of_state(track, s) {
            Ok(clip) => clip,
            Err(e) => return Err(e),
        };
        let end = clip.end(self.bpm_cents).beat_units;
        let conflict = match self.tracks.get(&track.0) {
            Some(t) => {
                proof {
                    self.lemma_all_fit(track.0);
                }
                find_conflict(&t.clips, ConflictKind::Overlap, s.start.beat_units, end, None, self.bpm_cents)
            },
            None => {
                assert(false);
                true
            },
        };
        if conflict {
            return Err(AddClipError::Overlapping);
        }
        let ghost old_tracks = self.tracks@;
        let mut t = match self.tracks.remove(&track.0) {
            Some(t) => t,
            None => {
                assert(false);
                return Err(AddClipError::Overlapping);
            },
        };
        t.clips.insert(s.key.0, clip);
        self.tracks.insert(track.0, t);
        self.clip_to_track.insert(s.key.0, track);
        let _ = self.clip_key_generator.reserve(s.key);
        proof {
            assert(self.tracks@ =~= old_tracks.insert(track.0, t));
            assert(!old(self).clip_to_track@.contains_key(s.key.0));
            assert forall|u: u32, c: u32|
                #![trigger self.tracks@[u].clips@[c]]
                self.tracks@.contains_key(u) && self.tracks@[u].clips@.contains_key(c) implies {
                    &&& self.clip_to_track@.contains_key(c)
                    &&& self.clip_to_track@[c].0 == u
                    &&& self.tracks@[u].clips@[c].key.0 == c
                    &&& clip_ok_on(self.tracks@[u].clips@[c], self.sample_rate, self.bpm_cents, self.clip_store.clips())
                } by {
                if u == track.0 && c == s.key.0 {
                } else {
                    assert(old(self).tracks@[u].clips@.contains_key(c));
                }
            }
            assert(self.clip_to_track@.dom() =~= self.clip_key_generator.used());
            assert(self.clips_of(track.0) =~= old(self).clips_of(track.0).insert(s.key.0, clip));
            if old(self).tracks_apart() {
                assert(old(self).tracks().contains_key(track.0));
                assert forall|j: u32| #[trigger] old(self).clips_of(track.0).contains_key(j) implies old(self).clips_of(
                    track.0,
                )[j].key.0 == j by {
                    old(self).lemma_clip_facts(track.0, j);
                }
                lemma_put_apart(old(self).clips_of(track.0), s.key.0, clip, ConflictKind::Overlap, None, self.bpm_cents);
                lemma_tracks_apart_step(*old(self), *self, track.0);
            }
        }
        Ok(())
    }

    /// Put a clip that plays the stored clip on the track, from `start`, for `length` (or to the end
    /// of the stored clip), under the next free clip key.
    pub fn add_audio_clip(
        &mut self,
        track_key: TimelineTrackKey,
        stored_clip_key: StoredAudioClipKey,
        start: Timestamp,
        length: Option<Timestamp>,
    ) -> (r: Result<AudioClipKey, AddClipError>)
        requires
            old(self).wf(),
            old(self).clip_keys().len() < u32::MAX,
            old(self).add_fits(
                track_key,
                AudioClipState { key: AudioClipKey(0), start_offset: 0, start, length, inner: stored_clip_key },
            ),
        ensures
            final(self).wf(),
            old(self).tracks_apart() ==> final(self).tracks_apart(),
            ({
                let s = AudioClipState { key: AudioClipKey(0), start_offset: 0, start, length, inner: stored_clip_key };
                &&& r is Ok <==> old(self).add_outcome(track_key, s) is Ok
                &&& r matches Err(e) ==> Err::<(), AddClipError>(e) == old(self).add_outcome(track_key, s)
                    && *final(self) == *old(self)
                &&& r matches Ok(k) ==> {
                    let sk = AudioClipState { key: k, ..s };
                    &&& crate::key_generator::is_next_free(old(self).clip_key_last(), old(self).clip_keys(), k.0)
                    &&& final(self).same_frame(old(self))
                    &&& final(self).clips_same_except(old(self), track_key.0)
                    &&& final(self).clips_of(track_key.0) == old(self).clips_of(track_key.0).insert(k.0, old(self).clip_for(sk))
                    &&& final(self).clip_keys() == old(self).clip_keys().insert(k.0)
                    &&& final(self).clip_to_track() == old(self).clip_to_track().insert(k.0, track_key)
                    &&& one_event_pushed(old(self).events(), final(self).events())
                    &&& is_add_clip_event(final(self).events().last(), track_key, sk)
                }
            }),
    {
        let key = match self.clip_key_generator.peek_next() {
            Ok(key) => key,
            Err(_) => {
                assert(false);
                return Err(AddClipError::Overlapping);
            },
        };
        let s = AudioClipState { key, start_offset: 0, start, length, inner: stored_clip_key };
        proof {
            let s0 = AudioClipState { key: AudioClipKey(0), start_offset: 0, start, length, inner: stored_clip_key };
            assert(old(self).clip_for(s) == AudioClip { key, ..old(self).clip_for(s0) });
            assert(clip_end(old(self).clip_for(s), old(self).bpm()) == clip_end(old(self).clip_for(s0), old(self).bpm()));
            assert(old(self).add_outcome(track_key, s) == old(self).add_outcome(track_key, s0));
        }
        match self.insert_clip(track_key, s) {
            Ok(()) => {},
            Err(e) => return Err(e),
        }
        let ghost old_events = self.events@;
        self.events.push(TimelineEvent::AddClip { track_key, clip: s });
        assert(self.events@.drop_last() =~= old_events);
        Ok(key)
    }
}


impl Timeline {
    /// Where the clip with the given key id lies: its track. Requires the clip to be located.
    fn locate(&self, clip_key: AudioClipKey) -> (r: (TimelineTrackKey, AudioClip))
        requires
            self.wf(),
            self.clip_located(clip_key.0),
        ensures
            r.0 == self.clip_to_track()[clip_key.0],
            r.1 == self.clip(clip_key.0),
            clip_fits(r.1, self.bpm()),
            r.1.key == clip_key,
            r.1.sample_rate == self.sample_rate_spec(),
    {
        let track_key = match self.clip_to_track.get(&clip_key.0) {
            Some(t) => *t,
            None => {
                assert(false);
                TimelineTrackKey(0)
            },
        };
        let clip = match self.tracks.get(&track_key.0) {
            Some(t) => match t.clips.get(&clip_key.0) {
                Some(c) => *c,
                None => {
                    assert(false);
                    return (track_key, AudioClip {
                        key: clip_key,
                        start: Timestamp::zero(),
                        length: None,
                        start_offset: 0,
                        stored_clip: StoredAudioClipKey(0),
                        source_frames: 0,
                        sample_rate: 1,
                    });
                },
            },
            None => {
                assert(false);
                return (track_key, AudioClip {
                    key: clip_key,
                    start: Timestamp::zero(),
                    length: None,
                    start_offset: 0,
                    stored_clip: StoredAudioClipKey(0),
                    source_frames: 0,
                    sample_rate: 1,
                });
            },
        };
        proof {
            self.lemma_clip_facts(track_key.0, clip_key.0);
            crate::key_generator::Key::lemma_id_determines_key(clip.key, clip_key);
        }
        (track_key, clip)
    }

    /// The track of the clip with the given key, if the key is in use.
    pub fn clip_track(&self, clip_key: AudioClipKey) -> (r: Option<TimelineTrackKey>)
        requires
            self.wf(),
        ensures
            r == (if self.clip_keys().contains(clip_key.0) {
                Some(self.clip_to_track()[clip_key.0])
            } else {
                None::<TimelineTrackKey>
            }),
    {
        match self.clip_to_track.get(&clip_key.0) {
            Some(t) => Some(*t),
            None => None,
        }
    }

    /// Whether the clip with the given key, if the key is in use, can be found on its track (it
    /// cannot once its track was deleted).
    pub fn clip_is_reachable(&self, clip_key: AudioClipKey) -> (r: bool)
        requires
            self.wf(),
        ensures
            r == self.clip_reachable(clip_key.0),
    {
        match self.clip_to_track.get(&clip_key.0) {
            None => true,
            Some(t) => match self.tracks.get(&t.0) {
                Some(track) => track.clips.contains_key(&clip_key.0),
                None => false,
            },
        }
    }

    /// Whether the clip that the state describes, if its stored clip exists, ends within the
    /// timeline.
    pub fn clip_state_fits(&self, s: &AudioClipState) -> (r: bool)
        requires
            self.wf(),
        ensures
            r == self.state_fits(*s),
    {
        !self.clip_store.contains(s.inner) || stored_and_fits(&self.clip_store, self.sample_rate, self.bpm_cents, s)
    }

    /// The clip with the given key.
    pub fn audio_clip(&self, clip_key: AudioClipKey) -> (r: Result<AudioClip, InvalidAudioClipError>)
        requires
            self.wf(),
            self.clip_reachable(clip_key.0),
        ensures
            r is Ok <==> self.clip_keys().contains(clip_key.0),
            r matches Ok(c) ==> c == self.clip(clip_key.0) && c.key == clip_key,
            r matches Err(e) ==> e.clip_key == clip_key,
    {
        if !self.clip_key_generator.in_use(clip_key) {
            return Err(InvalidAudioClipError { clip_key });
        }
        let (_, clip) = self.locate(clip_key);
        Ok(clip)
    }

    /// The clips on the track, in no particular order.
    pub fn audio_clips(&self, track_key: TimelineTrackKey) -> (r: Result<Vec<AudioClip>, InvalidTimelineTrackError>)
        requires
            self.wf(),
        ensures
            r is Ok <==> self.track_keys().contains(track_key.0),
            r matches Err(e) ==> e.key == track_key,
            r matches Ok(v) ==> {
                let clips = self.clips_of(track_key.0);
                &&& v@.len() == clips.dom().len()
                &&& forall|i: int| 0 <= i < v@.len() ==> clips.contains_key(#[trigger] v@[i].key.0) && clips[v@[i].key.0] == v@[i]
                &&& forall|i: int, j: int| 0 <= i < j < v@.len() ==> (#[trigger] v@[i]).key != (#[trigger] v@[j]).key
                &&& forall|k: u32| #[trigger] clips.contains_key(k) ==> exists|i: int| 0 <= i < v@.len() && #[trigger] v@[i].key.0 == k
            },
    {
        let t = match self.tracks.get(&track_key.0) {
            Some(t) => t,
            None => return Err(InvalidTimelineTrackError { key: track_key }),
        };
        let mut v: Vec<AudioClip> = Vec::new();
        let ghost clips = self.clips_of(track_key.0);
        for k in it: t.clips.keys()
            invariant
                clips == t.clips@,
                self.wf(),
                self.tracks().contains_key(track_key.0),
                self.tracks()[track_key.0] == *t,
                it.seq().unref().no_duplicates(),
                it.seq().unref().to_set() == clips.dom(),
                v@.len() == it.index(),
                it.seq().len() == clips.dom().len(),
                forall|i: int| 0 <= i < v@.len() ==> v@[i] == clips[*it.seq()[i]] && v@[i].key.0 == *it.seq()[i],
                forall|i: int| 0 <= i < v@.len() ==> clips.contains_key(#[trigger] v@[i].key.0) && clips[v@[i].key.0] == v@[i],
                forall|i: int, j: int| 0 <= i < j < v@.len() ==> (#[trigger] v@[i]).key != (#[trigger] v@[j]).key,
                it.index() == it.seq().len() ==> forall|k: u32| #[trigger] clips.contains_key(k) ==> exists|i: int|
                    0 <= i < v@.len() && #[trigger] v@[i].key.0 == k,
        {
            let ghost ks = it.seq().unref();
            proof {
                assert(ks[it.index() as int] == *k);
                assert(ks.to_set().contains(*k));
            }
            let c = match t.clips.get(k) {
                Some(c) => *c,
                None => {
                    assert(false);
                    return Err(InvalidTimelineTrackError { key: track_key });
                },
            };
            proof {
                self.lemma_clip_facts(track_key.0, *k);
            }
            let ghost idx = it.index();
            v.push(c);
            proof {
                assert forall|i: int, j: int| 0 <= i < j < v@.len() implies (#[trigger] v@[i]).key != (#[trigger] v@[j]).key by {
                    assert(ks[i] == *it.seq()[i]);
                    assert(ks[j] == *it.seq()[j]);
                }
                assert forall|k2: u32| idx + 1 == ks.len() && #[trigger] clips.contains_key(k2) implies exists|i: int|
                    0 <= i < v@.len() && #[trigger] v@[i].key.0 == k2 by {
                    assert(ks.to_set().contains(k2));
                    let i = choose|i: int| 0 <= i < ks.len() && ks[i] == k2;
                    assert(ks[i] == *it.seq()[i]);
                    assert(v@[i].key.0 == k2);
                }
            }
        }
        Ok(v)
    }

    /// Delete the clip with the given key, giving back its state, from which it can be
    /// reconstructed.
    pub fn delete_audio_clip(&mut self, clip_key: AudioClipKey) -> (r: Result<AudioClipState, InvalidAudioClipError>)
        requires
            old(self).wf(),
            old(self).clip_reachable(clip_key.0),
        ensures
            final(self).wf(),
            r is Ok <==> old(self).clip_keys().contains(clip_key.0),
            r matches Err(e) ==> e.clip_key == clip_key && *final(self) == *old(self),
            r matches Ok(s) ==> clip_deleted(*old(self), *final(self), clip_key, s),
            old(self).tracks_apart() ==> final(self).tracks_apart(),
    {
        if !self.clip_key_generator.in_use(clip_key) {
            return Err(InvalidAudioClipError { clip_key });
        }
        let (track_key, clip) = self.take_clip(clip_key);
        proof {
            assert(old(self).tracks().contains_key(track_key.0));
        }
        let ghost old_events = self.events@;
        self.events.push(TimelineEvent::DeleteClip { track_key, clip_start: clip.start });
        assert(self.events@.drop_last() =~= old_events);
        Ok(clip.state())
    }

    /// Put a deleted clip back on a track, under its old key.
    pub fn reconstruct_audio_clip(&mut self, track_key: TimelineTrackKey, clip_state: AudioClipState) -> (r: Result<
        AudioClipKey,
        AudioClipReconstructionError,
    >)
        requires
            old(self).wf(),
            old(self).clip_keys().len() < u32::MAX,
            old(self).add_fits(track_key, clip_state),
        ensures
            final(self).wf(),
            old(self).clip_keys().contains(clip_state.key.0) ==> r == Err::<AudioClipKey, AudioClipReconstructionError>(
                AudioClipReconstructionError::KeyInUse(clip_state.key),
            ),
            !old(self).clip_keys().contains(clip_state.key.0) ==> match old(self).add_outcome(track_key, clip_state) {
                Ok(()) => r == Ok::<AudioClipKey, AudioClipReconstructionError>(clip_state.key),
                Err(e) => r == Err::<AudioClipKey, AudioClipReconstructionError>(reconstruction_error_of(e)),
            },
            r is Err ==> *final(self) == *old(self),
            r is Ok ==> clip_put_back(*old(self), *final(self), track_key, clip_state),
            old(self).tracks_apart() ==> final(self).tracks_apart(),
    {
        let key = clip_state.key;
        if self.clip_key_generator.in_use(key) {
            return Err(AudioClipReconstructionError::KeyInUse(key));
        }
        match self.insert_clip(track_key, clip_state) {
            Ok(()) => {},
            Err(e) => return Err(reconstruction_error(e)),
        }
        let ghost old_events = self.events@;
        self.events.push(
            TimelineEvent::AddClip {
                track_key,
                clip: AudioClipState {
                    key,
                    start_offset: 0,
                    start: clip_state.start,
                    length: clip_state.length,
                    inner: clip_state.inner,
                },
            },
        );
        assert(self.events@.drop_last() =~= old_events);
        Ok(key)
    }
}


impl Timeline {
    /// Put `clip` in place of the clip with the same key on the track.
    fn replace_clip(&mut self, track_key: TimelineTrackKey, clip: AudioClip)
        requires
            old(self).wf(),
            old(self).tracks().contains_key(track_key.0),
            old(self).clips_of(track_key.0).contains_key(clip.key.0),
            clip.sample_rate == old(self).sample_rate_spec(),
            clip_fits(clip, old(self).bpm()),
            clip.stored_clip == old(self).clips_of(track_key.0)[clip.key.0].stored_clip,
            clip.source_frames == old(self).clips_of(track_key.0)[clip.key.0].source_frames,
        ensures
            final(self).wf(),
            final(self).same_frame(old(self)),
            final(self).clips_same_except(old(self), track_key.0),
            final(self).clips_of(track_key.0) == old(self).clips_of(track_key.0).insert(clip.key.0, clip),
            final(self).clip_keys() == old(self).clip_keys(),
            final(self).clip_to_track() == old(self).clip_to_track(),
            final(self).events() == old(self).events(),
    {
        proof {
            old(self).lemma_clip_facts(track_key.0, clip.key.0);
        }
        let ghost old_tracks = self.tracks@;
        let mut t = match self.tracks.remove(&track_key.0) {
            Some(t) => t,
            None => {
                assert(false);
                return;
            },
        };
        t.clips.insert(clip.key.0, clip);
        self.tracks.insert(track_key.0, t);
        proof {
            assert(self.tracks@ =~= old_tracks.insert(track_key.0, t));
            assert forall|u: u32, c: u32|
                #![trigger self.tracks@[u].clips@[c]]
                self.tracks@.contains_key(u) && self.tracks@[u].clips@.contains_key(c) implies {
                    &&& self.clip_to_track@.contains_key(c)
                    &&& self.clip_to_track@[c].0 == u
                    &&& self.tracks@[u].clips@[c].key.0 == c
                    &&& clip_ok_on(self.tracks@[u].clips@[c], self.sample_rate, self.bpm_cents, self.clip_store.clips())
                } by {
                assert(old(self).tracks@[u].clips@.contains_key(c));
                if u == track_key.0 && c == clip.key.0 {
                    reveal(clip_ok_on);
                }
            }
            assert(self.clips_of(track_key.0) =~= old(self).clips_of(track_key.0).insert(clip.key.0, clip));
        }
    }

    /// Move the clip to start at `new_start`, unless it would then overlap another clip on its track.
    pub fn audio_clip_move(&mut self, clip_key: AudioClipKey, new_start: Timestamp) -> (r: Result<(), MoveAudioClipError>)
        requires
            old(self).wf(),
            old(self).clip_reachable(clip_key.0),
            old(self).clip_keys().contains(clip_key.0) ==> new_start@ + clip_length(old(self).clip(clip_key.0), old(self).bpm())
                <= u32::MAX,
        ensures
            final(self).wf(),
            old(self).tracks_apart() ==> final(self).tracks_apart(),
            ({
                let c = old(self).clip(clip_key.0);
                let t = old(self).clip_to_track()[clip_key.0];
                let new_end = new_start@ + clip_length(c, old(self).bpm());
                &&& !old(self).clip_keys().contains(clip_key.0) ==> r == Err::<(), MoveAudioClipError>(
                    MoveAudioClipError::InvalidClip(InvalidAudioClipError { clip_key }),
                )
                &&& old(self).clip_keys().contains(clip_key.0) ==> (r == Err::<(), MoveAudioClipError>(MoveAudioClipError::Overlapping)
                    <==> has_conflict(old(self).clips_of(t.0), ConflictKind::Span, new_start@ as int, new_end, Some(clip_key.0), old(self).bpm()))
                &&& old(self).clip_keys().contains(clip_key.0) && !has_conflict(old(self).clips_of(t.0), ConflictKind::Span,
                    new_start@ as int, new_end, Some(clip_key.0), old(self).bpm()) ==> r is Ok
                &&& r is Err ==> *final(self) == *old(self)
                &&& r is Ok ==> {
                    &&& old(self).clip_keys().contains(clip_key.0)
                    &&& final(self).same_frame(old(self))
                    &&& final(self).clips_same_except(old(self), t.0)
                    &&& final(self).clips_of(t.0) == old(self).clips_of(t.0).insert(clip_key.0, AudioClip { start: new_start, ..c })
                    &&& final(self).clip_keys() == old(self).clip_keys()
                    &&& final(self).clip_to_track() == old(self).clip_to_track()
                    &&& one_event_pushed(old(self).events(), final(self).events())
                    &&& final(self).events().last() matches TimelineEvent::MoveAudioClip { track_key: tk, old_start: os, new_start: ns }
                        && tk == t && os == c.start && ns == new_start
                }
            }),
    {
        if !self.clip_key_generator.in_use(clip_key) {
            return Err(MoveAudioClipError::InvalidClip(InvalidAudioClipError { clip_key }));
        }
        let (track_key, clip) = self.locate(clip_key);
        let length = clip.length(self.bpm_cents);
        let new_end = new_start.beat_units + length.beat_units;
        let conflict = match self.tracks.get(&track_key.0) {
            Some(t) => {
                proof {
                    self.lemma_all_fit(track_key.0);
                }
                find_conflict(&t.clips, ConflictKind::Span, new_start.beat_units, new_end, Some(clip_key.0), self.bpm_cents)
            },
            None => {
                assert(false);
                true
            },
        };
        if conflict {
            return Err(MoveAudioClipError::Overlapping);
        }
        let moved = AudioClip { start: new_start, ..clip };
        self.replace_clip(track_key, moved);
        let ghost old_events = self.events@;
        self.events.push(TimelineEvent::MoveAudioClip { track_key, old_start: clip.start, new_start });
        assert(self.events@.drop_last() =~= old_events);
        proof {
            if old(self).tracks_apart() {
                lemma_put_keeps_apart(*old(self), *self, track_key.0, moved, ConflictKind::Span, Some(clip_key.0));
            }
        }
        Ok(())
    }

    /// Give the clip the length `new_length`, keeping its start, unless another clip on its track
    /// then starts inside it. A clip extended past the end of its stored clip plays silence there.
    pub fn audio_clip_crop_end(&mut self, clip_key: AudioClipKey, new_length: Timestamp) -> (r: Result<(), MoveAudioClipError>)
        requires
            old(self).wf(),
            old(self).clip_reachable(clip_key.0),
            old(self).clip_keys().contains(clip_key.0) ==> old(self).clip(clip_key.0).start@ + new_length@ <= u32::MAX,
        ensures
            final(self).wf(),
            old(self).tracks_apart() && !(old(self).clip_keys().contains(clip_key.0) && stretches_over_neighbour(
                old(self).clips_of(old(self).clip_to_track()[clip_key.0].0),
                clip_key.0,
                new_length,
                old(self).bpm(),
            )) ==> final(self).tracks_apart(),
            ({
                let c = old(self).clip(clip_key.0);
                let t = old(self).clip_to_track()[clip_key.0];
                &&& !old(self).clip_keys().contains(clip_key.0) ==> r == Err::<(), MoveAudioClipError>(
                    MoveAudioClipError::InvalidClip(InvalidAudioClipError { clip_key }),
                )
                &&& old(self).clip_keys().contains(clip_key.0) ==> (r == Err::<(), MoveAudioClipError>(MoveAudioClipError::Overlapping)
                    <==> has_conflict(old(self).clips_of(t.0), ConflictKind::StartsWithin, c.start@ as int, c.start@ + new_length@,
                    Some(clip_key.0), old(self).bpm()))
                &&& old(self).clip_keys().contains(clip_key.0) && !has_conflict(old(self).clips_of(t.0), ConflictKind::StartsWithin,
                    c.start@ as int, c.start@ + new_length@, Some(clip_key.0), old(self).bpm()) ==> r is Ok
                &&& r is Err ==> *final(self) == *old(self)
                &&& r is Ok ==> {
                    &&& old(self).clip_keys().contains(clip_key.0)
                    &&& final(self).same_frame(old(self))
                    &&& final(self).clips_same_except(old(self), t.0)
                    &&& final(self).clips_of(t.0) == old(self).clips_of(t.0).insert(clip_key.0, AudioClip { length: Some(new_length), ..c })
                    &&& final(self).clip_keys() == old(self).clip_keys()
                    &&& final(self).clip_to_track() == old(self).clip_to_track()
                    &&& one_event_pushed(old(self).events(), final(self).events())
                    &&& final(self).events().last() matches TimelineEvent::CropAudioClipEnd { track_key: tk, clip_start: cs, new_length: nl }
                        && tk == t && cs == c.start && nl == new_length
                }
            }),
    {
        if !self.clip_key_generator.in_use(clip_key) {
            return Err(MoveAudioClipError::InvalidClip(InvalidAudioClipError { clip_key }));
        }
        let (track_key, clip) = self.locate(clip_key);
        let new_end = clip.start.beat_units + new_length.beat_units;
        let conflict = match self.tracks.get(&track_key.0) {
            Some(t) => {
                proof {
                    self.lemma_all_fit(track_key.0);
                }
                find_conflict(&t.clips, ConflictKind::StartsWithin, clip.start.beat_units, new_end, Some(clip_key.0), self.bpm_cents)
            },
            None => {
                assert(false);
                true
            },
        };
        if conflict {
            return Err(MoveAudioClipError::Overlapping);
        }
        let cropped = AudioClip { length: Some(new_length), ..clip };
        self.replace_clip(track_key, cropped);
        let ghost old_events = self.events@;
        self.events.push(TimelineEvent::CropAudioClipEnd { track_key, clip_start: clip.start, new_length });
        assert(self.events@.drop_last() =~= old_events);
        proof {
            if old(self).tracks_apart() && !stretches_over_neighbour(old(self).clips_of(track_key.0), clip_key.0, new_length, self.bpm_cents) {
                assert forall|j: u32| #[trigger] old(self).clips_of(track_key.0).contains_key(j) implies old(self).clips_of(
                    track_key.0,
                )[j].key.0 == j by {
                    old(self).lemma_clip_facts(track_key.0, j);
                }
                lemma_crop_end_apart(old(self).clips_of(track_key.0), clip_key.0, new_length, self.bpm_cents);
                lemma_tracks_apart_step(*old(self), *self, track_key.0);
            }
        }
        Ok(())
    }
}


impl Timeline {
    /// Whether cropping the start of the clip to `new_length` keeps its offset into the stored clip
    /// within 64 bits, as [`Timeline::audio_clip_crop_start`] requires; true for a key not in use.
    pub fn crop_start_fits(&self, clip_key: AudioClipKey, new_length: Timestamp) -> (r: bool)
        requires
            self.wf(),
            self.clip_reachable(clip_key.0),
        ensures
            r == (self.clip_keys().contains(clip_key.0) ==> self.clip(clip_key.0).start_offset + crop_start_sample(
                self.clip(clip_key.0),
                new_length,
                self.bpm(),
            ) <= u64::MAX),
    {
        if !self.clip_key_generator.in_use(clip_key) {
            return true;
        }
        let (_, clip) = self.locate(clip_key);
        let sr = self.sample_rate;
        let bpm = self.bpm_cents;
        let old_length = clip.length(bpm);
        let end = clip.start.beat_units + old_length.beat_units;
        let wanted = if end >= new_length.beat_units {
            end - new_length.beat_units
        } else {
            0
        };
        proof {
            lemma_samples_monotonic(clip.start@ as int, end as int, sr as int, bpm as int);
            lemma_samples_monotonic(wanted as int, end as int, sr as int, bpm as int);
        }
        let old_start_sample = clip.start.samples(sr, bpm);
        let first = old_start_sample.saturating_sub(clip.start_offset);
        let at = Timestamp::from_beat_units(wanted).samples(sr, bpm);
        let sample = if at >= first {
            at
        } else {
            first
        };
        assert(sample == crop_start_sample(clip, new_length, bpm));
        clip.start_offset <= u64::MAX - sample
    }
}

impl Timeline {
    /// Give the clip the length `new_length`, keeping its end, unless it would then overlap another
    /// clip on its track. The start moves no earlier than the start of the timeline, nor before the
    /// first sample of the stored clip: there the length is capped.
    pub fn audio_clip_crop_start(&mut self, clip_key: AudioClipKey, new_length: Timestamp) -> (r: Result<(), MoveAudioClipError>)
        requires
            old(self).wf(),
            old(self).clip_reachable(clip_key.0),
            old(self).clip_keys().contains(clip_key.0) ==> old(self).clip(clip_key.0).start_offset + crop_start_sample(
                old(self).clip(clip_key.0),
                new_length,
                old(self).bpm(),
            ) <= u64::MAX,
        ensures
            final(self).wf(),
            old(self).tracks_apart() ==> final(self).tracks_apart(),
            ({
                let c = old(self).clip(clip_key.0);
                let t = old(self).clip_to_track()[clip_key.0];
                let cropped = cropped_start(c, new_length, old(self).bpm());
                &&& !old(self).clip_keys().contains(clip_key.0) ==> r == Err::<(), MoveAudioClipError>(
                    MoveAudioClipError::InvalidClip(InvalidAudioClipError { clip_key }),
                )
                &&& old(self).clip_keys().contains(clip_key.0) ==> (r == Err::<(), MoveAudioClipError>(MoveAudioClipError::Overlapping)
                    <==> has_conflict(old(self).clips_of(t.0), ConflictKind::Span, cropped.start@ as int,
                    clip_end(c, old(self).bpm()), Some(clip_key.0), old(self).bpm()))
                &&& old(self).clip_keys().contains(clip_key.0) && !has_conflict(old(self).clips_of(t.0), ConflictKind::Span,
                    cropped.start@ as int, clip_end(c, old(self).bpm()), Some(clip_key.0), old(self).bpm()) ==> r is Ok
                &&& r is Err ==> *final(self) == *old(self)
                &&& r is Ok ==> {
                    &&& old(self).clip_keys().contains(clip_key.0)
                    &&& clip_end(cropped, old(self).bpm()) == clip_end(c, old(self).bpm())
                    &&& final(self).same_frame(old(self))
                    &&& final(self).clips_same_except(old(self), t.0)
                    &&& final(self).clips_of(t.0) == old(self).clips_of(t.0).insert(clip_key.0, cropped)
                    &&& final(self).clip_keys() == old(self).clip_keys()
                    &&& final(self).clip_to_track() == old(self).clip_to_track()
                    &&& one_event_pushed(old(self).events(), final(self).events())
                    &&& final(self).events().last() matches TimelineEvent::CropAudioClipStart {
                        track_key: tk,
                        old_start: os,
                        new_start: ns,
                        new_length: nl,
                        new_start_offset: no,
                    } && tk == t && os == c.start && ns == cropped.start && Some(nl) == cropped.length
                        && no == cropped.start_offset
                }
            }),
    {
        if !self.clip_key_generator.in_use(clip_key) {
            return Err(MoveAudioClipError::InvalidClip(InvalidAudioClipError { clip_key }));
        }
        let (track_key, clip) = self.locate(clip_key);
        let sr = self.sample_rate;
        let bpm = self.bpm_cents;
        let old_length = clip.length(bpm);
        let end = clip.start.beat_units + old_length.beat_units;
        let wanted = if end >= new_length.beat_units {
            end - new_length.beat_units
        } else {
            0
        };
        proof {
            lemma_samples_monotonic(clip.start@ as int, end as int, sr as int, bpm as int);
            lemma_samples_monotonic(wanted as int, end as int, sr as int, bpm as int);
            lemma_samples_round_trip(end as int, sr as int, bpm as int);
        }
        let old_start_sample = clip.start.samples(sr, bpm);
        let first = old_start_sample.saturating_sub(clip.start_offset);
        let at = Timestamp::from_beat_units(wanted).samples(sr, bpm);
        let sample = if at >= first {
            at
        } else {
            first
        };
        proof {
            let top = samples_of(end as int, sr as int, bpm as int);
            assert(sample <= top);
            lemma_beat_units_monotonic(sample as int, top, sr as int, bpm as int);
        }
        let new_start = Timestamp::from_samples(sample, sr, bpm);
        let new_offset = clip.start_offset + sample - old_start_sample;
        let cropped_length = Timestamp::from_beat_units(end - new_start.beat_units);
        let conflict = match self.tracks.get(&track_key.0) {
            Some(t) => {
                proof {
                    self.lemma_all_fit(track_key.0);
                }
                find_conflict(&t.clips, ConflictKind::Span, new_start.beat_units, end, Some(clip_key.0), bpm)
            },
            None => {
                assert(false);
                true
            },
        };
        if conflict {
            return Err(MoveAudioClipError::Overlapping);
        }
        let cropped = AudioClip { start: new_start, length: Some(cropped_length), start_offset: new_offset, ..clip };
        assert(cropped == cropped_start(clip, new_length, bpm));
        self.replace_clip(track_key, cropped);
        let ghost old_events = self.events@;
        self.events.push(
            TimelineEvent::CropAudioClipStart {
                track_key,
                old_start: clip.start,
                new_start,
                new_length: cropped_length,
                new_start_offset: new_offset,
            },
        );
        assert(self.events@.drop_last() =~= old_events);
        proof {
            if old(self).tracks_apart() {
                lemma_put_keeps_apart(*old(self), *self, track_key.0, cropped, ConflictKind::Span, Some(clip_key.0));
            }
        }
        Ok(())
    }
}


impl Timeline {
    /// Move the clip to `new_start` on another track (or on its own), unless it would then overlap
    /// a clip there.
    pub fn audio_clip_move_to_track(
        &mut self,
        clip_key: AudioClipKey,
        new_start: Timestamp,
        new_track_key: TimelineTrackKey,
    ) -> (r: Result<(), MoveAudioClipToTrackError>)
        requires
            old(self).wf(),
            old(self).clip_reachable(clip_key.0),
            old(self).clip_keys().contains(clip_key.0) ==> new_start@ + clip_length(old(self).clip(clip_key.0), old(self).bpm())
                <= u32::MAX,
        ensures
            final(self).wf(),
            old(self).tracks_apart() ==> final(self).tracks_apart(),
            ({
                let c = old(self).clip(clip_key.0);
                let t = old(self).clip_to_track()[clip_key.0];
                let moved = AudioClip { start: new_start, ..c };
                let new_end = new_start@ + clip_length(c, old(self).bpm());
                let n = old(self).events().len() as int;
                &&& !old(self).clip_keys().contains(clip_key.0) ==> r == Err::<(), MoveAudioClipToTrackError>(
                    MoveAudioClipToTrackError::InvalidClip(InvalidAudioClipError { clip_key }),
                )
                &&& old(self).clip_keys().contains(clip_key.0) && !old(self).track_keys().contains(new_track_key.0) ==> r
                    == Err::<(), MoveAudioClipToTrackError>(MoveAudioClipToTrackError::InvalidNewTrack { track_key: new_track_key })
                &&& old(self).clip_keys().contains(clip_key.0) && old(self).track_keys().contains(new_track_key.0) ==> (r
                    == Err::<(), MoveAudioClipToTrackError>(MoveAudioClipToTrackError::Overlapping) <==> has_conflict(
                    old(self).clips_of(new_track_key.0),
                    ConflictKind::Span,
                    new_start@ as int,
                    new_end,
                    Some(clip_key.0),
                    old(self).bpm(),
                ))
                &&& old(self).clip_keys().contains(clip_key.0) && old(self).track_keys().contains(new_track_key.0) && !has_conflict(
                    old(self).clips_of(new_track_key.0),
                    ConflictKind::Span,
                    new_start@ as int,
                    new_end,
                    Some(clip_key.0),
                    old(self).bpm(),
                ) ==> r is Ok
                &&& r is Err ==> *final(self) == *old(self)
                &&& r is Ok ==> {
                    &&& old(self).clip_keys().contains(clip_key.0)
                    &&& final(self).same_frame(old(self))
                    &&& forall|u: u32| #[trigger] old(self).tracks().contains_key(u) && u != t.0 && u != new_track_key.0
                        ==> final(self).clips_of(u) == old(self).clips_of(u)
                    &&& t != new_track_key ==> final(self).clips_of(t.0) == old(self).clips_of(t.0).remove(clip_key.0)
                    &&& final(self).clips_of(new_track_key.0) == old(self).clips_of(new_track_key.0).insert(clip_key.0, moved)
                    &&& final(self).clip_keys() == old(self).clip_keys()
                    &&& final(self).clip_to_track() == old(self).clip_to_track().insert(clip_key.0, new_track_key)
                    &&& final(self).events().len() == n + 2
                    &&& final(self).events().take(n) == old(self).events()
                    &&& is_delete_clip_event(final(self).events()[n], t, c.start)
                    &&& is_add_clip_event(final(self).events()[n + 1], new_track_key, clip_state_of(moved))
                }
            }),
    {
        if !self.clip_key_generator.in_use(clip_key) {
            return Err(MoveAudioClipToTrackError::InvalidClip(InvalidAudioClipError { clip_key }));
        }
        let (old_track_key, clip) = self.locate(clip_key);
        if !self.track_key_generator.in_use(new_track_key) {
            return Err(MoveAudioClipToTrackError::InvalidNewTrack { track_key: new_track_key });
        }
        let length = clip.length(self.bpm_cents);
        let new_end = new_start.beat_units + length.beat_units;
        let conflict = match self.tracks.get(&new_track_key.0) {
            Some(t) => {
                proof {
                    self.lemma_all_fit(new_track_key.0);
                    assert(t.clips@ == self.clips_of(new_track_key.0));
                }
                find_conflict(&t.clips, ConflictKind::Span, new_start.beat_units, new_end, Some(clip_key.0), self.bpm_cents)
            },
            None => {
                assert(false);
                true
            },
        };
        if conflict {
            return Err(MoveAudioClipToTrackError::Overlapping);
        }
        proof {
            old(self).lemma_clip_facts(old_track_key.0, clip_key.0);
        }
        let ghost tracks0 = self.tracks@;
        let mut t = match self.tracks.remove(&old_track_key.0) {
            Some(t) => t,
            None => {
                assert(false);
                return Err(MoveAudioClipToTrackError::Overlapping);
            },
        };
        let _ = t.clips.remove(&clip_key.0);
        self.tracks.insert(old_track_key.0, t);
        let ghost tracks1 = self.tracks@;
        assert(tracks1 =~= tracks0.insert(old_track_key.0, t));
        let moved = AudioClip { start: new_start, ..clip };
        let mut t2 = match self.tracks.remove(&new_track_key.0) {
            Some(t2) => t2,
            None => {
                assert(false);
                return Err(MoveAudioClipToTrackError::Overlapping);
            },
        };
        t2.clips.insert(clip_key.0, moved);
        self.tracks.insert(new_track_key.0, t2);
        self.clip_to_track.insert(clip_key.0, new_track_key);
        proof {
            assert(self.tracks@ =~= tracks1.insert(new_track_key.0, t2));
            assert forall|u: u32, c: u32|
                #![trigger self.tracks@[u].clips@[c]]
                self.tracks@.contains_key(u) && self.tracks@[u].clips@.contains_key(c) implies {
                    &&& self.clip_to_track@.contains_key(c)
                    &&& self.clip_to_track@[c].0 == u
                    &&& self.tracks@[u].clips@[c].key.0 == c
                    &&& clip_ok_on(self.tracks@[u].clips@[c], self.sample_rate, self.bpm_cents, self.clip_store.clips())
                } by {
                if u == new_track_key.0 && c == clip_key.0 {
                    reveal(clip_ok_on);
                } else {
                    assert(old(self).tracks@[u].clips@.contains_key(c));
                }
            }
            assert(self.clip_to_track@.dom() =~= self.clip_key_generator.used());
            if old_track_key != new_track_key {
                assert(self.clips_of(old_track_key.0) =~= old(self).clips_of(old_track_key.0).remove(clip_key.0));
                assert(!old(self).clips_of(new_track_key.0).contains_key(clip_key.0));
                assert(self.clips_of(new_track_key.0) =~= old(self).clips_of(new_track_key.0).insert(clip_key.0, moved));
            } else {
                assert(self.clips_of(new_track_key.0) =~= old(self).clips_of(new_track_key.0).insert(clip_key.0, moved));
            }
        }
        let ghost events0 = self.events@;
        self.events.push(TimelineEvent::DeleteClip { track_key: old_track_key, clip_start: clip.start });
        self.events.push(TimelineEvent::AddClip { track_key: new_track_key, clip: moved.state() });
        assert(self.events@.take(events0.len() as int) =~= events0);
        proof {
            if old(self).tracks_apart() {
                assert forall|j: u32| #[trigger] old(self).clips_of(new_track_key.0).contains_key(j) implies old(self).clips_of(
                    new_track_key.0,
                )[j].key.0 == j by {
                    old(self).lemma_clip_facts(new_track_key.0, j);
                }
                assert(old(self).tracks().contains_key(new_track_key.0));
                assert(old(self).tracks().contains_key(old_track_key.0));
                lemma_put_apart(
                    old(self).clips_of(new_track_key.0),
                    clip_key.0,
                    moved,
                    ConflictKind::Span,
                    Some(clip_key.0),
                    self.bpm_cents,
                );
                lemma_remove_apart(old(self).clips_of(old_track_key.0), clip_key.0, self.bpm_cents);
                assert forall|u: u32| #[trigger] self.tracks().contains_key(u) implies clips_apart(self.clips_of(u), self.bpm()) by {
                    assert(old(self).tracks().contains_key(u));
                }
            }
        }
        Ok(())
    }
}


impl Timeline {
    /// The keys among `keys` that belong to no clip, in order.
    pub open spec fn invalid_clip_keys(&self, keys: Seq<AudioClipKey>) -> Seq<AudioClipKey> {
        keys.filter(|k: AudioClipKey| !self.clip_keys().contains(k.0))
    }

    /// Take the clip with the given key off its track and free its key. Tells the audio thread nothing.
    fn take_clip(&mut self, clip_key: AudioClipKey) -> (r: (TimelineTrackKey, AudioClip))
        requires
            old(self).wf(),
            old(self).clip_keys().contains(clip_key.0),
            old(self).clip_located(clip_key.0),
        ensures
            final(self).wf(),
            r.0 == old(self).clip_to_track()[clip_key.0],
            r.1 == old(self).clip(clip_key.0),
            final(self).same_frame(old(self)),
            forall|u: u32| #[trigger] old(self).tracks().contains_key(u) ==> final(self).clips_of(u) == old(self).clips_of(u).remove(clip_key.0),
            final(self).clips_same_except(old(self), r.0.0),
            final(self).clip_keys() == old(self).clip_keys().remove(clip_key.0),
            final(self).clip_to_track() == old(self).clip_to_track().remove(clip_key.0),
            final(self).events() == old(self).events(),
            old(self).tracks_apart() ==> final(self).tracks_apart(),
    {
        let (track_key, clip) = self.locate(clip_key);
        let ghost old_tracks = self.tracks@;
        let mut t = match self.tracks.remove(&track_key.0) {
            Some(t) => t,
            None => {
                assert(false);
                return (track_key, clip);
            },
        };
        let _ = t.clips.remove(&clip_key.0);
        self.tracks.insert(track_key.0, t);
        let _ = self.clip_key_generator.free(clip_key);
        let _ = self.clip_to_track.remove(&clip_key.0);
        proof {
            assert(self.tracks@ =~= old_tracks.insert(track_key.0, t));
            assert forall|u: u32, c: u32|
                #![trigger self.tracks@[u].clips@[c]]
                self.tracks@.contains_key(u) && self.tracks@[u].clips@.contains_key(c) implies {
                    &&& self.clip_to_track@.contains_key(c)
                    &&& self.clip_to_track@[c].0 == u
                    &&& self.tracks@[u].clips@[c].key.0 == c
                    &&& clip_ok_on(self.tracks@[u].clips@[c], self.sample_rate, self.bpm_cents, self.clip_store.clips())
                } by {
                assert(old(self).tracks@[u].clips@.contains_key(c));
            }
            assert(self.clip_to_track@.dom() =~= self.clip_key_generator.used());
            assert forall|u: u32| #[trigger] old(self).tracks().contains_key(u) implies self.clips_of(u) == old(self).clips_of(u).remove(
                clip_key.0,
            ) by {
                if u == track_key.0 {
                    assert(self.clips_of(u) =~= old(self).clips_of(u).remove(clip_key.0));
                } else {
                    if old(self).clips_of(u).contains_key(clip_key.0) {
                        assert(old(self).tracks@[u].clips@[clip_key.0].key.0 == clip_key.0);
                        assert(false);
                    }
                    assert(self.tracks@[u] == old(self).tracks@[u]);
                    assert(self.clips_of(u) =~= old(self).clips_of(u).remove(clip_key.0));
                }
            }
            if old(self).tracks_apart() {
                lemma_fewer_clips_apart(*old(self), *self);
            }
        }
        (track_key, clip)
    }

    /// Delete the clips with the given keys, giving back their states, in order. If some key belongs
    /// to no clip, nothing is deleted and the error lists those keys.
    pub fn delete_audio_clips(&mut self, clip_keys: Vec<AudioClipKey>) -> (r: Result<Vec<AudioClipState>, InvalidAudioClipsError>)
        requires
            old(self).wf(),
            crate::key_generator::ids_of(clip_keys@).no_duplicates(),
            forall|i: int| 0 <= i < clip_keys@.len() ==> old(self).clip_reachable(#[trigger] clip_keys@[i].0),
        ensures
            old(self).tracks_apart() ==> final(self).tracks_apart(),
            final(self).wf(),
            r is Ok <==> forall|i: int| 0 <= i < clip_keys@.len() ==> old(self).clip_keys().contains(#[trigger] clip_keys@[i].0),
            r matches Err(e) ==> e.keys@ == old(self).invalid_clip_keys(clip_keys@) && *final(self) == *old(self),
            r matches Ok(states) ==> {
                let ids = crate::key_generator::ids_of(clip_keys@).to_set();
                &&& states@ == clip_keys@.map_values(|k: AudioClipKey| clip_state_of(old(self).clip(k.0)))
                &&& final(self).same_frame(old(self))
                &&& forall|u: u32| #[trigger] old(self).tracks().contains_key(u) ==> final(self).clips_of(u) == old(self).clips_of(u).remove_keys(ids)
                &&& final(self).clip_keys() == old(self).clip_keys().difference(ids)
                &&& final(self).clip_to_track() == old(self).clip_to_track().remove_keys(ids)
                &&& one_event_pushed(old(self).events(), final(self).events())
                &&& is_delete_clips_event(
                    final(self).events().last(),
                    clip_keys@.map_values(|k: AudioClipKey| (old(self).clip_to_track()[k.0], old(self).clip(k.0).start)),
                )
            },
    {
        let mut all_valid = true;
        let mut i: usize = 0;
        while i < clip_keys.len()
            invariant
                i <= clip_keys@.len(),
                self.wf(),
                all_valid <==> forall|j: int| 0 <= j < i ==> self.clip_keys().contains(#[trigger] clip_keys@[j].0),
            decreases clip_keys@.len() - i,
        {
            if !self.clip_key_generator.in_use(clip_keys[i]) {
                all_valid = false;
            }
            i = i + 1;
        }
        if !all_valid {
            let mut invalid: Vec<AudioClipKey> = Vec::new();
            let mut i: usize = 0;
            while i < clip_keys.len()
                invariant
                    i <= clip_keys@.len(),
                    self.wf(),
                    invalid@ == self.invalid_clip_keys(clip_keys@.take(i as int)),
                decreases clip_keys@.len() - i,
            {
                let k = clip_keys[i];
                proof {
                    assert(clip_keys@.take(i as int + 1) =~= clip_keys@.take(i as int).push(k));
                    clip_keys@.take(i as int).lemma_filter_push(k, |k: AudioClipKey| !self.clip_keys().contains(k.0));
                }
                if !self.clip_key_generator.in_use(k) {
                    invalid.push(k);
                }
                i = i + 1;
            }
            assert(clip_keys@.take(clip_keys@.len() as int) =~= clip_keys@);
            return Err(InvalidAudioClipsError { keys: invalid });
        }
        let ghost ids = crate::key_generator::ids_of(clip_keys@);
        let mut states: Vec<AudioClipState> = Vec::new();
        let mut starts: Vec<(TimelineTrackKey, Timestamp)> = Vec::new();
        let mut i: usize = 0;
        while i < clip_keys.len()
            invariant
                i <= clip_keys@.len(),
                self.wf(),
                old(self).wf(),
                ids == crate::key_generator::ids_of(clip_keys@),
                ids.no_duplicates(),
                forall|j: int| 0 <= j < clip_keys@.len() ==> old(self).clip_keys().contains(#[trigger] clip_keys@[j].0),
                forall|j: int| 0 <= j < clip_keys@.len() ==> old(self).clip_reachable(#[trigger] clip_keys@[j].0),
                self.same_frame(old(self)),
                self.events() == old(self).events(),
                old(self).tracks_apart() ==> self.tracks_apart(),
                forall|u: u32| #[trigger] old(self).tracks().contains_key(u) ==> self.clips_of(u) == old(self).clips_of(u).remove_keys(
                    ids.take(i as int).to_set(),
                ),
                self.clip_keys() == old(self).clip_keys().difference(ids.take(i as int).to_set()),
                self.clip_to_track() == old(self).clip_to_track().remove_keys(ids.take(i as int).to_set()),
                states@ == clip_keys@.take(i as int).map_values(|k: AudioClipKey| clip_state_of(old(self).clip(k.0))),
                starts@ == clip_keys@.take(i as int).map_values(
                    |k: AudioClipKey| (old(self).clip_to_track()[k.0], old(self).clip(k.0).start),
                ),
            decreases clip_keys@.len() - i,
        {
            let k = clip_keys[i];
            proof {
                assert(ids[i as int] == k.0);
                assert(!ids.take(i as int).contains(k.0));
                assert(!ids.take(i as int).to_set().contains(k.0));
                let t = old(self).clip_to_track()[k.0].0;
                assert(old(self).clip_located(k.0));
                assert(self.clip_to_track()[k.0] == old(self).clip_to_track()[k.0]);
                assert(self.clips_of(t) == old(self).clips_of(t).remove_keys(ids.take(i as int).to_set()));
                assert(self.clips_of(t).contains_key(k.0));
                assert(self.clip(k.0) == old(self).clip(k.0));
            }
            let (track_key, clip) = self.take_clip(k);
            states.push(clip.state());
            starts.push((track_key, clip.start));
            proof {
                let before = ids.take(i as int).to_set();
                assert(ids.take(i as int + 1) =~= ids.take(i as int).push(k.0));
                ids.take(i as int).lemma_push_to_set_commute(k.0);
                let after = ids.take(i as int + 1).to_set();
                assert(after =~= before.insert(k.0));
                assert forall|u: u32| #[trigger] old(self).tracks().contains_key(u) implies self.clips_of(u) == old(self).clips_of(u).remove_keys(
                    after,
                ) by {
                    assert(self.clips_of(u) =~= old(self).clips_of(u).remove_keys(after));
                }
                assert(self.clip_keys() =~= old(self).clip_keys().difference(after));
                assert(self.clip_to_track() =~= old(self).clip_to_track().remove_keys(after));
                assert(clip_keys@.take(i as int + 1) =~= clip_keys@.take(i as int).push(k));
                assert(states@ =~= clip_keys@.take(i as int + 1).map_values(|k: AudioClipKey| clip_state_of(old(self).clip(k.0))));
                assert(starts@ =~= clip_keys@.take(i as int + 1).map_values(
                    |k: AudioClipKey| (old(self).clip_to_track()[k.0], old(self).clip(k.0).start),
                ));
            }
            i = i + 1;
        }
        proof {
            assert(ids.take(clip_keys@.len() as int) =~= ids);
            assert(clip_keys@.take(clip_keys@.len() as int) =~= clip_keys@);
        }
        let ghost old_events = self.events@;
        self.events.push(TimelineEvent::DeleteClips { track_keys_and_clip_starts: starts });
        assert(self.events@.drop_last() =~= old_events);
        Ok(states)
    }
}


impl Timeline {
    /// The clips of a batch before index `i`, by key id, as they would stand on this timeline.
    pub open spec fn batch_prefix(&self, states: Seq<AudioClipState>, i: int) -> Map<u32, AudioClip> {
        states_to_clips(states, i, self.store().clips(), self.sample_rate_spec())
    }

    /// Why the clip at index `i` of a batch cannot be added to the track: its stored clip is
    /// missing, or it overlaps a clip on the track or an earlier clip of the batch.
    pub open spec fn batch_step_error(
        &self,
        track: TimelineTrackKey,
        states: Seq<AudioClipState>,
        i: int,
    ) -> Option<AudioClipReconstructionError> {
        let s = states[i];
        let end = clip_end(self.clip_for(s), self.bpm());
        if !self.store().clips().contains_key(s.inner.0) {
            Some(AudioClipReconstructionError::InvalidStoredClip(s.inner))
        } else if has_conflict(self.clips_of(track.0), ConflictKind::Overlap, s.start@ as int, end, None, self.bpm())
            || has_conflict(self.batch_prefix(states, i), ConflictKind::Overlap, s.start@ as int, end, None, self.bpm()) {
            Some(AudioClipReconstructionError::Overlapping)
        } else {
            None
        }
    }

    /// The keys of the batch prefix are those of its states.
    proof fn lemma_batch_prefix(&self, states: Seq<AudioClipState>, i: int)
        requires
            0 <= i <= states.len(),
            crate::key_generator::ids_of(states.map_values(|s: AudioClipState| s.key)).no_duplicates(),
        ensures
            forall|x: u32| #[trigger] self.batch_prefix(states, i).contains_key(x) <==> exists|j: int|
                0 <= j < i && #[trigger] states[j].key.0 == x,
            forall|j: int| 0 <= j < i ==> #[trigger] self.batch_prefix(states, i)[states[j].key.0] == self.clip_for(states[j]),
        decreases i,
    {
        let ids = crate::key_generator::ids_of(states.map_values(|s: AudioClipState| s.key));
        if i > 0 {
            self.lemma_batch_prefix(states, i - 1);
            assert forall|j: int| 0 <= j < i implies #[trigger] self.batch_prefix(states, i)[states[j].key.0] == self.clip_for(states[j]) by {
                if j < i - 1 {
                    assert(ids[j] == states[j].key.0);
                    assert(ids[i - 1] == states[i - 1].key.0);
                }
            }
        }
    }

    /// A batch prefix conflicts with a span exactly when one of its clips does.
    proof fn lemma_batch_conflict(&self, states: Seq<AudioClipState>, i: int, kind: ConflictKind, a: int, b: int, bpm_cents: u16)
        requires
            0 <= i <= states.len(),
            crate::key_generator::ids_of(states.map_values(|s: AudioClipState| s.key)).no_duplicates(),
        ensures
            has_conflict(self.batch_prefix(states, i), kind, a, b, None, bpm_cents) <==> exists|j: int|
                0 <= j < i && conflicts(kind, a, b, None, #[trigger] self.clip_for(states[j]), bpm_cents),
        decreases i,
    {
        if i > 0 {
            let ids = crate::key_generator::ids_of(states.map_values(|s: AudioClipState| s.key));
            self.lemma_batch_conflict(states, i - 1, kind, a, b, bpm_cents);
            self.lemma_batch_prefix(states, i - 1);
            assert(!self.batch_prefix(states, i - 1).contains_key(states[i - 1].key.0)) by {
                if self.batch_prefix(states, i - 1).contains_key(states[i - 1].key.0) {
                    let j = choose|j: int| 0 <= j < i - 1 && #[trigger] states[j].key.0 == states[i - 1].key.0;
                    assert(ids[j] == ids[i - 1]);
                }
            }
            lemma_conflict_insert(
                self.batch_prefix(states, i - 1),
                states[i - 1].key.0,
                self.clip_for(states[i - 1]),
                kind,
                a,
                b,
                None,
                bpm_cents,
            );
        }
    }

    /// Put deleted clips back on a track, under their old keys, in order. Fails, changing
    /// nothing, on the first key in use; then if the track is missing; then on the first clip whose
    /// stored clip is missing or that overlaps a clip on the track or an earlier clip of the batch.
    pub fn reconstruct_audio_clips(&mut self, track_key: TimelineTrackKey, clip_states: Vec<AudioClipState>) -> (r: Result<
        Vec<AudioClipKey>,
        AudioClipReconstructionError,
    >)
        requires
            old(self).wf(),
            crate::key_generator::ids_of(clip_states@.map_values(|s: AudioClipState| s.key)).no_duplicates(),
            old(self).clip_keys().len() + clip_states@.len() <= u32::MAX,
            forall|i: int| 0 <= i < clip_states@.len() ==> old(self).add_fits(track_key, #[trigger] clip_states@[i]),
        ensures
            old(self).tracks_apart() ==> final(self).tracks_apart(),
            final(self).wf(),
            ({
                let n = clip_states@.len() as int;
                let none_in_use = forall|i: int| 0 <= i < n ==> !old(self).clip_keys().contains(#[trigger] clip_states@[i].key.0);
                &&& !none_in_use ==> exists|i: int|
                    0 <= i < n && old(self).clip_keys().contains(#[trigger] clip_states@[i].key.0) && (forall|j: int|
                        0 <= j < i ==> !old(self).clip_keys().contains(#[trigger] clip_states@[j].key.0)) && r
                        == Err::<Vec<AudioClipKey>, AudioClipReconstructionError>(
                        AudioClipReconstructionError::KeyInUse(clip_states@[i].key),
                    )
                &&& none_in_use && !old(self).track_keys().contains(track_key.0) ==> r == Err::<
                    Vec<AudioClipKey>,
                    AudioClipReconstructionError,
                >(AudioClipReconstructionError::InvalidTrack(track_key))
                &&& none_in_use && old(self).track_keys().contains(track_key.0) ==> {
                    &&& r is Ok <==> forall|i: int| 0 <= i < n ==> (#[trigger] old(self).batch_step_error(track_key, clip_states@, i)) is None
                    &&& r matches Err(e) ==> exists|i: int|
                        0 <= i < n && old(self).batch_step_error(track_key, clip_states@, i) == Some(e) && forall|j: int|
                            0 <= j < i ==> (#[trigger] old(self).batch_step_error(track_key, clip_states@, j)) is None
                }
                &&& r is Err ==> *final(self) == *old(self)
                &&& r matches Ok(keys) ==> {
                    let ids = crate::key_generator::ids_of(keys@);
                    &&& keys@ == clip_states@.map_values(|s: AudioClipState| s.key)
                    &&& final(self).same_frame(old(self))
                    &&& final(self).clips_same_except(old(self), track_key.0)
                    &&& final(self).clips_of(track_key.0) == old(self).clips_of(track_key.0).union_prefer_right(
                        old(self).batch_prefix(clip_states@, n),
                    )
                    &&& final(self).clip_keys() == old(self).clip_keys().union(ids.to_set())
                    &&& forall|k: u32| #[trigger] final(self).clip_to_track().contains_key(k) <==> old(self).clip_to_track().contains_key(k)
                        || ids.contains(k)
                    &&& forall|k: u32| #[trigger] old(self).clip_to_track().contains_key(k) && !ids.contains(k)
                        ==> final(self).clip_to_track()[k] == old(self).clip_to_track()[k]
                    &&& forall|i: int| 0 <= i < n ==> final(self).clip_to_track()[#[trigger] ids[i]] == track_key
                    &&& one_event_pushed(old(self).events(), final(self).events())
                    &&& is_add_clips_event(
                        final(self).events().last(),
                        track_key,
                        clip_states@.map_values(|s: AudioClipState| AudioClipState { start_offset: 0, ..s }),
                    )
                }
            }),
    {
        let ghost n = clip_states@.len() as int;
        let ghost ids = crate::key_generator::ids_of(clip_states@.map_values(|s: AudioClipState| s.key));
        let mut i: usize = 0;
        while i < clip_states.len()
            invariant
                i <= clip_states@.len(),
                self.wf(),
                *self == *old(self),
                forall|j: int| 0 <= j < i ==> !self.clip_keys().contains(#[trigger] clip_states@[j].key.0),
            decreases clip_states@.len() - i,
        {
            if self.clip_key_generator.in_use(clip_states[i].key) {
                return Err(AudioClipReconstructionError::KeyInUse(clip_states[i].key));
            }
            i = i + 1;
        }
        if !self.track_key_generator.in_use(track_key) {
            return Err(AudioClipReconstructionError::InvalidTrack(track_key));
        }
        // Check the whole batch before changing anything.
        let mut seen: Vec<AudioClip> = Vec::new();
        let mut i: usize = 0;
        while i < clip_states.len()
            invariant
                i <= clip_states@.len(),
                n == clip_states@.len(),
                self.wf(),
                *self == *old(self),
                forall|j: int| 0 <= j < n ==> !self.clip_keys().contains(#[trigger] clip_states@[j].key.0),
                self.track_keys().contains(track_key.0),
                ids == crate::key_generator::ids_of(clip_states@.map_values(|s: AudioClipState| s.key)),
                ids.no_duplicates(),
                forall|j: int| 0 <= j < n ==> self.add_fits(track_key, #[trigger] clip_states@[j]),
                seen@.len() == i,
                forall|j: int| 0 <= j < i ==> #[trigger] seen@[j] == self.clip_for(clip_states@[j]),
                forall|j: int| 0 <= j < i ==> clip_fits(#[trigger] seen@[j], self.bpm()),
                forall|j: int| 0 <= j < i ==> (#[trigger] self.batch_step_error(track_key, clip_states@, j)) is None,
            decreases clip_states@.len() - i,
        {
            let s = clip_states[i];
            let clip = match self.clip_of_state(track_key, s) {
                Ok(clip) => clip,
                Err(_) => {
                    assert(self.batch_step_error(track_key, clip_states@, i as int) == Some(
                        AudioClipReconstructionError::InvalidStoredClip(s.inner),
                    ));
                    return Err(AudioClipReconstructionError::InvalidStoredClip(s.inner));
                },
            };
            let end = clip.end(self.bpm_cents).beat_units;
            let on_track = match self.tracks.get(&track_key.0) {
                Some(t) => {
                    proof {
                        self.lemma_all_fit(track_key.0);
                        assert(t.clips@ == self.clips_of(track_key.0));
                    }
                    find_conflict(&t.clips, ConflictKind::Overlap, s.start.beat_units, end, None, self.bpm_cents)
                },
                None => {
                    assert(false);
                    true
                },
            };
            let in_batch = vec_conflict(&seen, ConflictKind::Overlap, s.start.beat_units, end, self.bpm_cents);
            proof {
                self.lemma_batch_conflict(clip_states@, i as int, ConflictKind::Overlap, s.start@ as int, end as int, self.bpm());
                if in_batch {
                    let j = choose|j: int| 0 <= j < seen@.len() && conflicts(ConflictKind::Overlap, s.start@ as int, end as int, None,
                        #[trigger] seen@[j], self.bpm_cents);
                    assert(seen@[j] == self.clip_for(clip_states@[j]));
                }
                if has_conflict(self.batch_prefix(clip_states@, i as int), ConflictKind::Overlap, s.start@ as int, end as int, None,
                    self.bpm()) {
                    let j = choose|j: int| 0 <= j < i && conflicts(ConflictKind::Overlap, s.start@ as int, end as int, None,
                        #[trigger] self.clip_for(clip_states@[j]), self.bpm());
                    assert(seen@[j] == self.clip_for(clip_states@[j]));
                }
            }
            if on_track || in_batch {
                return Err(AudioClipReconstructionError::Overlapping);
            }
            seen.push(clip);
            i = i + 1;
        }
        // Then put every clip on the track.
        let mut keys: Vec<AudioClipKey> = Vec::new();
        let mut event_states: Vec<AudioClipState> = Vec::new();
        let mut i: usize = 0;
        while i < clip_states.len()
            invariant
                i <= clip_states@.len(),
                n == clip_states@.len(),
                self.wf(),
                old(self).wf(),
                old(self).track_keys().contains(track_key.0),
                ids == crate::key_generator::ids_of(clip_states@.map_values(|s: AudioClipState| s.key)),
                ids.no_duplicates(),
                old(self).clip_keys().len() + n <= u32::MAX,
                forall|j: int| 0 <= j < n ==> !old(self).clip_keys().contains(#[trigger] clip_states@[j].key.0),
                forall|j: int| 0 <= j < n ==> old(self).add_fits(track_key, #[trigger] clip_states@[j]),
                forall|j: int| 0 <= j < n ==> (#[trigger] old(self).batch_step_error(track_key, clip_states@, j)) is None,
                self.same_frame(old(self)),
                self.events() == old(self).events(),
                old(self).tracks_apart() ==> self.tracks_apart(),
                self.clips_same_except(old(self), track_key.0),
                self.clips_of(track_key.0) == old(self).clips_of(track_key.0).union_prefer_right(
                    old(self).batch_prefix(clip_states@, i as int),
                ),
                self.clip_keys() == old(self).clip_keys().union(ids.take(i as int).to_set()),
                forall|k: u32| #[trigger] self.clip_to_track().contains_key(k) <==> old(self).clip_to_track().contains_key(k)
                    || ids.take(i as int).contains(k),
                forall|k: u32| #[trigger] old(self).clip_to_track().contains_key(k) && !ids.take(i as int).contains(k)
                    ==> self.clip_to_track()[k] == old(self).clip_to_track()[k],
                forall|j: int| 0 <= j < i ==> self.clip_to_track()[#[trigger] ids[j]] == track_key,
                keys@ == clip_states@.take(i as int).map_values(|s: AudioClipState| s.key),
                event_states@ == clip_states@.take(i as int).map_values(|s: AudioClipState| AudioClipState { start_offset: 0, ..s }),
            decreases clip_states@.len() - i,
        {
            let s = clip_states[i];
            let ghost before = *self;
            proof {
                assert(ids[i as int] == s.key.0);
                assert(!ids.take(i as int).contains(s.key.0));
                ids.take(i as int).unique_seq_to_set();
                assert(self.clip_keys().len() == old(self).clip_keys().len() + i) by {
                    assert(old(self).clip_keys().disjoint(ids.take(i as int).to_set())) by {
                        assert forall|x: u32| ids.take(i as int).to_set().contains(x) implies !old(self).clip_keys().contains(x) by {
                            let j = choose|j: int| 0 <= j < i && ids.take(i as int)[j] == x;
                            assert(ids[j] == clip_states@[j].key.0);
                        }
                    }
                    vstd::set_lib::lemma_set_disjoint_lens(old(self).clip_keys(), ids.take(i as int).to_set());
                }
                old(self).lemma_batch_prefix(clip_states@, i as int);
                old(self).lemma_batch_conflict(clip_states@, i as int, ConflictKind::Overlap, s.start@ as int, clip_end(old(self).clip_for(s), old(self).bpm()), old(self).bpm());
                assert(old(self).batch_step_error(track_key, clip_states@, i as int) is None);
                let ov = old(self).clips_of(track_key.0);
                let pre = old(self).batch_prefix(clip_states@, i as int);
                let a = s.start@ as int;
                let b = clip_end(old(self).clip_for(s), old(self).bpm());
                assert(!has_conflict(self.clips_of(track_key.0), ConflictKind::Overlap, a, b, None, self.bpm())) by {
                    if has_conflict(self.clips_of(track_key.0), ConflictKind::Overlap, a, b, None, self.bpm()) {
                        let w = choose|w: u32| #[trigger] self.clips_of(track_key.0).contains_key(w) && conflicts(ConflictKind::Overlap, a, b, None, self.clips_of(track_key.0)[w], self.bpm());
                        if pre.contains_key(w) {
                            assert(pre.contains_key(w) && conflicts(ConflictKind::Overlap, a, b, None, pre[w], self.bpm()));
                        } else {
                            assert(ov.contains_key(w) && conflicts(ConflictKind::Overlap, a, b, None, ov[w], self.bpm()));
                        }
                    }
                }
                assert(self.clip_for(s) == old(self).clip_for(s));
                assert(self.add_outcome(track_key, s) == Ok::<(), AddClipError>(()));
            }
            let res = self.insert_clip(track_key, s);
            keys.push(s.key);
            event_states.push(AudioClipState { key: s.key, start_offset: 0, start: s.start, length: s.length, inner: s.inner });
            proof {
                let ti = ids.take(i as int);
                let ti1 = ids.take(i as int + 1);
                assert(ti1 =~= ti.push(s.key.0));
                ti.lemma_push_to_set_commute(s.key.0);
                assert(self.clip_keys() =~= old(self).clip_keys().union(ti1.to_set()));
                assert(old(self).batch_prefix(clip_states@, i as int + 1) == old(self).batch_prefix(clip_states@, i as int).insert(
                    s.key.0,
                    old(self).clip_for(s),
                ));
                assert(self.clips_of(track_key.0) =~= old(self).clips_of(track_key.0).union_prefer_right(
                    old(self).batch_prefix(clip_states@, i as int + 1),
                ));
                assert forall|u: u32| #[trigger] old(self).tracks().contains_key(u) && u != track_key.0 implies self.clips_of(u) == old(self).clips_of(u) by {
                    assert(before.tracks().contains_key(u));
                }
                assert forall|k: u32| #[trigger] self.clip_to_track().contains_key(k) <==> old(self).clip_to_track().contains_key(k)
                    || ti1.contains(k) by {
                    lemma_push_contains(ti, s.key.0, k);
                }
                assert forall|k: u32| #[trigger] old(self).clip_to_track().contains_key(k) && !ti1.contains(k)
                    implies self.clip_to_track()[k] == old(self).clip_to_track()[k] by {
                    lemma_push_contains(ti, s.key.0, k);
                }
                assert forall|j: int| 0 <= j < i + 1 implies self.clip_to_track()[#[trigger] ids[j]] == track_key by {
                    if j < i {
                        assert(ids[j] != s.key.0);
                    }
                }
                assert(clip_states@.take(i as int + 1) =~= clip_states@.take(i as int).push(s));
                assert(keys@ =~= clip_states@.take(i as int + 1).map_values(|s: AudioClipState| s.key));
                assert(event_states@ =~= clip_states@.take(i as int + 1).map_values(
                    |s: AudioClipState| AudioClipState { start_offset: 0, ..s },
                ));
            }
            i = i + 1;
        }
        proof {
            assert(ids.take(n) =~= ids);
            assert(clip_states@.take(n) =~= clip_states@);
            assert(crate::key_generator::ids_of(keys@) =~= ids);
        }
        let ghost old_events = self.events@;
        self.events.push(TimelineEvent::AddClips { track_key, clips: event_states });
        assert(self.events@.drop_last() =~= old_events);
        Ok(keys)
    }
}


impl Timeline {
    /// When its stored clip exists, the clip described by `s` ends within the timeline.
    pub open spec fn state_fits(&self, s: AudioClipState) -> bool {
        self.store().clips().contains_key(s.inner.0) ==> clip_end(self.clip_for(s), self.bpm()) <= u32::MAX
    }

    /// `ts` describes the track with its key: its output, and its clips' states, each once.
    pub open spec fn describes_track(&self, ts: TimelineTrackState) -> bool {
        let clips = self.clips_of(ts.key.0);
        &&& self.tracks().contains_key(ts.key.0)
        &&& ts.output_track == self.tracks()[ts.key.0].output_track
        &&& ts.clips@.len() == clips.dom().len()
        &&& forall|i: int| 0 <= i < ts.clips@.len() ==> clips.contains_key(#[trigger] ts.clips@[i].key.0)
            && clip_state_of(clips[ts.clips@[i].key.0]) == ts.clips@[i]
        &&& forall|i: int, j: int| 0 <= i < j < ts.clips@.len() ==> (#[trigger] ts.clips@[i]).key != (#[trigger] ts.clips@[j]).key
        &&& forall|k: u32| #[trigger] clips.contains_key(k) ==> exists|i: int| 0 <= i < ts.clips@.len() && #[trigger] ts.clips@[i].key.0 == k
    }

    /// Put the clip described by `s` on the track under its key, which is free or already
    /// belongs to that track, without checking overlaps. Tells the audio thread nothing.
    fn place_clip(&mut self, track: TimelineTrackKey, s: AudioClipState)
        requires
            old(self).wf(),
            old(self).tracks().contains_key(track.0),
            old(self).store().clips().contains_key(s.inner.0),
            old(self).state_fits(s),
            old(self).clip_keys().contains(s.key.0) ==> old(self).clip_to_track()[s.key.0] == track,
            !old(self).clip_keys().contains(s.key.0) ==> old(self).clip_keys().len() < u32::MAX,
        ensures
            final(self).wf(),
            final(self).same_frame(old(self)),
            final(self).clips_same_except(old(self), track.0),
            final(self).clips_of(track.0) == old(self).clips_of(track.0).insert(s.key.0, old(self).clip_for(s)),
            final(self).clip_keys() == old(self).clip_keys().insert(s.key.0),
            final(self).clip_to_track() == old(self).clip_to_track().insert(s.key.0, track),
            final(self).events() == old(self).events(),
    {
        let clip = match self.clip_of_state(track, s) {
            Ok(clip) => clip,
            Err(_) => {
                assert(false);
                return;
            },
        };
        let ghost old_tracks = self.tracks@;
        let mut t = match self.tracks.remove(&track.0) {
            Some(t) => t,
            None => {
                assert(false);
                return;
            },
        };
        t.clips.insert(s.key.0, clip);
        self.tracks.insert(track.0, t);
        self.clip_to_track.insert(s.key.0, track);
        let _ = self.clip_key_generator.reserve(s.key);
        proof {
            assert(self.tracks@ =~= old_tracks.insert(track.0, t));
            assert forall|u: u32, c: u32|
                #![trigger self.tracks@[u].clips@[c]]
                self.tracks@.contains_key(u) && self.tracks@[u].clips@.contains_key(c) implies {
                    &&& self.clip_to_track@.contains_key(c)
                    &&& self.clip_to_track@[c].0 == u
                    &&& self.tracks@[u].clips@[c].key.0 == c
                    &&& clip_ok_on(self.tracks@[u].clips@[c], self.sample_rate, self.bpm_cents, self.clip_store.clips())
                } by {
                if u == track.0 && c == s.key.0 {
                } else {
                    assert(old(self).tracks@[u].clips@.contains_key(c));
                    if c == s.key.0 {
                        assert(old(self).tracks@[u].clips@[c].key.0 == c);
                    }
                }
            }
            assert(self.clip_to_track@.dom() =~= self.clip_key_generator.used());
            assert(self.clips_of(track.0) =~= old(self).clips_of(track.0).insert(s.key.0, clip));
        }
    }

    /// Put a deleted track back, with its clips, whose keys still belong to it.
    pub fn reconstruct_track(&mut self, state: &TimelineTrackState)
        requires
            old(self).wf(),
            !old(self).track_keys().contains(state.key.0),
            old(self).track_keys().len() < u32::MAX,
            forall|i: int| 0 <= i < state.clips@.len() ==> old(self).store().clips().contains_key(#[trigger] state.clips@[i].inner.0),
            forall|i: int| 0 <= i < state.clips@.len() ==> old(self).state_fits(#[trigger] state.clips@[i]),
            forall|i: int| 0 <= i < state.clips@.len() ==> old(self).clip_keys().contains(#[trigger] state.clips@[i].key.0)
                && old(self).clip_to_track()[state.clips@[i].key.0] == state.key,
        ensures
            old(self).tracks_apart() && clips_apart(old(self).batch_prefix(state.clips@, state.clips@.len() as int), old(self).bpm()) ==> final(self).tracks_apart(),
            final(self).wf(),
            final(self).sample_rate_spec() == old(self).sample_rate_spec(),
            final(self).bpm() == old(self).bpm(),
            final(self).store() == old(self).store(),
            final(self).track_keys() == old(self).track_keys().insert(state.key.0),
            final(self).track_key_last() == old(self).track_key_last(),
            final(self).tracks().dom() == old(self).tracks().dom().insert(state.key.0),
            forall|t: u32| #[trigger] old(self).tracks().contains_key(t) ==> final(self).clips_of(t) == old(self).clips_of(t)
                && final(self).tracks()[t].output_track == old(self).tracks()[t].output_track,
            final(self).tracks()[state.key.0].output_track == state.output_track,
            final(self).clips_of(state.key.0) == old(self).batch_prefix(state.clips@, state.clips@.len() as int),
            final(self).clip_keys() == old(self).clip_keys(),
            final(self).clip_key_last() == old(self).clip_key_last(),
            final(self).clip_to_track() == old(self).clip_to_track(),
            one_event_pushed(old(self).events(), final(self).events()),
            is_add_track_event(final(self).events().last(), state.key, state.output_track, state.clips@),
    {
        let key = state.key;
        let _ = self.track_key_generator.reserve(key);
        self.tracks.insert(key.0, TimelineTrack { clips: HashMap::new(), output_track: state.output_track });
        proof {
            assert forall|u: u32, c: u32|
                #![trigger self.tracks@[u].clips@[c]]
                self.tracks@.contains_key(u) && self.tracks@[u].clips@.contains_key(c) implies {
                    &&& self.clip_to_track@.contains_key(c)
                    &&& self.clip_to_track@[c].0 == u
                    &&& self.tracks@[u].clips@[c].key.0 == c
                    &&& clip_ok_on(self.tracks@[u].clips@[c], self.sample_rate, self.bpm_cents, self.clip_store.clips())
                } by {
                assert(old(self).tracks@[u].clips@.contains_key(c));
            }
            assert(self.tracks@.dom() =~= self.track_key_generator.used());
            assert(self.clips_of(key.0) =~= Map::<u32, AudioClip>::empty());
        }
        let ghost mid = *self;
        let mut clips: Vec<AudioClipState> = Vec::new();
        let mut i: usize = 0;
        while i < state.clips.len()
            invariant
                i <= state.clips@.len(),
                self.wf(),
                old(self).wf(),
                !old(self).track_keys().contains(key.0),
                key == state.key,
                forall|j: int| 0 <= j < state.clips@.len() ==> old(self).store().clips().contains_key(#[trigger] state.clips@[j].inner.0),
                forall|j: int| 0 <= j < state.clips@.len() ==> old(self).state_fits(#[trigger] state.clips@[j]),
                forall|j: int| 0 <= j < state.clips@.len() ==> old(self).clip_keys().contains(#[trigger] state.clips@[j].key.0)
                    && old(self).clip_to_track()[state.clips@[j].key.0] == state.key,
                self.same_frame(&mid),
                mid.sample_rate_spec() == old(self).sample_rate_spec(),
                mid.bpm() == old(self).bpm(),
                mid.store() == old(self).store(),
                mid.track_keys() == old(self).track_keys().insert(key.0),
                mid.track_key_last() == old(self).track_key_last(),
                mid.tracks().dom() == old(self).tracks().dom().insert(key.0),
                forall|t: u32| #[trigger] old(self).tracks().contains_key(t) ==> mid.tracks()[t] == old(self).tracks()[t],
                mid.tracks()[key.0].output_track == state.output_track,
                mid.clip_key_last() == old(self).clip_key_last(),
                self.clips_same_except(&mid, key.0),
                self.clips_of(key.0) == old(self).batch_prefix(state.clips@, i as int),
                self.clip_keys() == old(self).clip_keys(),
                self.clip_to_track() == old(self).clip_to_track(),
                self.events() == old(self).events(),
                clips@ == state.clips@.take(i as int),
            decreases state.clips@.len() - i,
        {
            let s = state.clips[i];
            proof {
                assert(self.clip_for(s) == old(self).clip_for(s));
            }
            self.place_clip(key, s);
            clips.push(s);
            proof {
                assert(self.clip_to_track() =~= old(self).clip_to_track());
                assert(self.clip_keys() =~= old(self).clip_keys());
                assert(clips@ =~= state.clips@.take(i as int + 1));
            }
            i = i + 1;
        }
        proof {
            assert(clips@ =~= state.clips@);
            assert(mid.tracks().contains_key(key.0));
            assert forall|t: u32| #[trigger] old(self).tracks().contains_key(t) implies self.clips_of(t) == old(self).clips_of(t)
                && self.tracks()[t].output_track == old(self).tracks()[t].output_track by {
                assert(mid.tracks().contains_key(t));
                assert(t != key.0);
                assert(self.clips_of(t) == mid.clips_of(t));
            }
        }
        let ghost old_events = self.events@;
        self.events.push(TimelineEvent::AddTrack { key, output: state.output_track, clips });
        assert(self.events@.drop_last() =~= old_events);
    }
}


impl Timeline {
    /// Put deleted tracks back, each under its key, with its output but without its clips.
    pub fn reconstruct_tracks(&mut self, states: &Vec<TimelineTrackState>)
        requires
            old(self).wf(),
            crate::key_generator::ids_of(states@.map_values(|t: TimelineTrackState| t.key)).no_duplicates(),
            forall|i: int| 0 <= i < states@.len() ==> !old(self).track_keys().contains(#[trigger] states@[i].key.0),
            old(self).track_keys().len() + states@.len() <= u32::MAX,
        ensures
            old(self).tracks_apart() ==> final(self).tracks_apart(),
            final(self).wf(),
            ({
                let ids = crate::key_generator::ids_of(states@.map_values(|t: TimelineTrackState| t.key));
                &&& final(self).sample_rate_spec() == old(self).sample_rate_spec()
                &&& final(self).bpm() == old(self).bpm()
                &&& final(self).store() == old(self).store()
                &&& final(self).track_keys() == old(self).track_keys().union(ids.to_set())
                &&& final(self).track_key_last() == old(self).track_key_last()
                &&& final(self).tracks().dom() == old(self).tracks().dom().union(ids.to_set())
                &&& forall|t: u32| #[trigger] old(self).tracks().contains_key(t) ==> final(self).tracks()[t] == old(self).tracks()[t]
                &&& forall|i: int| 0 <= i < states@.len() ==> {
                    &&& final(self).clips_of(#[trigger] states@[i].key.0) == Map::<u32, AudioClip>::empty()
                    &&& final(self).tracks()[states@[i].key.0].output_track == states@[i].output_track
                }
                &&& final(self).clip_keys() == old(self).clip_keys()
                &&& final(self).clip_key_last() == old(self).clip_key_last()
                &&& final(self).clip_to_track() == old(self).clip_to_track()
                &&& one_event_pushed(old(self).events(), final(self).events())
                &&& is_add_tracks_event(
                    final(self).events().last(),
                    states@.map_values(|t: TimelineTrackState| (t.key, t.output_track)),
                )
            }),
    {
        let ghost ids = crate::key_generator::ids_of(states@.map_values(|t: TimelineTrackState| t.key));
        let mut pairs: Vec<(TimelineTrackKey, MixerTrackKey)> = Vec::new();
        let mut i: usize = 0;
        while i < states.len()
            invariant
                i <= states@.len(),
                old(self).wf(),
                self.track_key_generator.wf(),
                self.clip_key_generator == old(self).clip_key_generator,
                self.clip_to_track == old(self).clip_to_track,
                self.clip_store == old(self).clip_store,
                self.events == old(self).events,
                self.sample_rate == old(self).sample_rate,
                self.bpm_cents == old(self).bpm_cents,
                ids == crate::key_generator::ids_of(states@.map_values(|t: TimelineTrackState| t.key)),
                ids.no_duplicates(),
                forall|j: int| 0 <= j < states@.len() ==> !old(self).track_keys().contains(#[trigger] states@[j].key.0),
                old(self).track_keys().len() + states@.len() <= u32::MAX,
                self.track_key_generator.used() == old(self).track_key_generator.used().union(ids.take(i as int).to_set()),
                self.track_key_generator.used().len() == old(self).track_key_generator.used().len() + i,
                self.track_key_generator.last() == old(self).track_key_generator.last(),
                self.tracks@.dom() == old(self).tracks@.dom().union(ids.take(i as int).to_set()),
                forall|t: u32| #[trigger] old(self).tracks@.contains_key(t) ==> self.tracks@[t] == old(self).tracks@[t],
                forall|j: int| 0 <= j < i ==> {
                    &&& (#[trigger] self.tracks@[states@[j].key.0]).clips@ == Map::<u32, AudioClip>::empty()
                    &&& self.tracks@[states@[j].key.0].output_track == states@[j].output_track
                },
                pairs@ == states@.take(i as int).map_values(|t: TimelineTrackState| (t.key, t.output_track)),
            decreases states@.len() - i,
        {
            let key = states[i].key;
            let output = states[i].output_track;
            proof {
                assert(ids[i as int] == key.0);
                assert(!ids.take(i as int).contains(key.0));
                assert(!self.track_key_generator.used().contains(key.0));
            }
            let _ = self.track_key_generator.reserve(key);
            self.tracks.insert(key.0, TimelineTrack { clips: HashMap::new(), output_track: output });
            pairs.push((key, output));
            proof {
                assert(ids.take(i as int + 1) =~= ids.take(i as int).push(key.0));
                ids.take(i as int).lemma_push_to_set_commute(key.0);
                assert(self.track_key_generator.used() =~= old(self).track_key_generator.used().union(ids.take(i as int + 1).to_set()));
                assert(self.tracks@.dom() =~= old(self).tracks@.dom().union(ids.take(i as int + 1).to_set()));
                assert forall|j: int| 0 <= j < i + 1 implies {
                    &&& (#[trigger] self.tracks@[states@[j].key.0]).clips@ == Map::<u32, AudioClip>::empty()
                    &&& self.tracks@[states@[j].key.0].output_track == states@[j].output_track
                } by {
                    if j < i {
                        assert(ids[j] == states@[j].key.0);
                        assert(ids[j] != ids[i as int]);
                    }
                }
                assert(states@.take(i as int + 1) =~= states@.take(i as int).push(states@[i as int]));
                assert(pairs@ =~= states@.take(i as int + 1).map_values(|t: TimelineTrackState| (t.key, t.output_track)));
            }
            i = i + 1;
        }
        proof {
            assert(ids.take(states@.len() as int) =~= ids);
            assert(states@.take(states@.len() as int) =~= states@);
            assert forall|t: u32, c: u32|
                #![trigger self.tracks@[t].clips@[c]]
                self.tracks@.contains_key(t) && self.tracks@[t].clips@.contains_key(c) implies {
                    &&& self.clip_to_track@.contains_key(c)
                    &&& self.clip_to_track@[c].0 == t
                    &&& self.tracks@[t].clips@[c].key.0 == c
                    &&& clip_ok_on(self.tracks@[t].clips@[c], self.sample_rate, self.bpm_cents, self.clip_store.clips())
                } by {
                if !old(self).tracks@.contains_key(t) {
                    assert(ids.to_set().contains(t));
                    let j = choose|j: int| 0 <= j < ids.len() && ids[j] == t;
                    assert(ids[j] == states@[j].key.0);
                    assert(self.tracks@[states@[j].key.0].clips@ == Map::<u32, AudioClip>::empty());
                }
            }
            assert(self.tracks@.dom() =~= self.track_key_generator.used());
        }
        let ghost old_events = self.events@;
        self.events.push(TimelineEvent::AddTracks { tracks: pairs });
        assert(self.events@.drop_last() =~= old_events);
        proof {
            if old(self).tracks_apart() {
                assert forall|u: u32| #[trigger] self.tracks().contains_key(u) implies clips_apart(self.clips_of(u), self.bpm()) by {
                    if old(self).tracks().contains_key(u) {
                        assert(self.tracks()[u] == old(self).tracks()[u]);
                    } else {
                        assert(ids.to_set().contains(u));
                        let j = choose|j: int| 0 <= j < ids.len() && ids[j] == u;
                        assert(ids[j] == states@[j].key.0);
                        assert(self.clips_of(states@[j].key.0) == Map::<u32, AudioClip>::empty());
                    }
                }
            }
        }
    }

    /// The persistent state of the track with the given key.
    pub fn track_state(&self, key: TimelineTrackKey) -> (r: Result<TimelineTrackState, InvalidTimelineTrackError>)
        requires
            self.wf(),
        ensures
            r is Ok <==> self.track_keys().contains(key.0),
            r matches Err(e) ==> e.key == key,
            r matches Ok(ts) ==> ts.key == key && self.describes_track(ts),
    {
        let clips = match self.audio_clips(key) {
            Ok(clips) => clips,
            Err(e) => return Err(e),
        };
        let output_track = match self.tracks.get(&key.0) {
            Some(t) => t.output_track,
            None => {
                assert(false);
                return Err(InvalidTimelineTrackError { key });
            },
        };
        let ghost m = self.clips_of(key.0);
        let mut states: Vec<AudioClipState> = Vec::new();
        let mut i: usize = 0;
        while i < clips.len()
            invariant
                i <= clips@.len(),
                states@.len() == i,
                forall|j: int| 0 <= j < i ==> #[trigger] states@[j] == clip_state_of(clips@[j]),
            decreases clips@.len() - i,
        {
            states.push(clips[i].state());
            i = i + 1;
        }
        let ts = TimelineTrackState { key, clips: states, output_track };
        proof {
            assert forall|j: int| 0 <= j < ts.clips@.len() implies m.contains_key(#[trigger] ts.clips@[j].key.0)
                && clip_state_of(m[ts.clips@[j].key.0]) == ts.clips@[j] by {
                assert(states@[j] == clip_state_of(clips@[j]));
                assert(m.contains_key(clips@[j].key.0));
            }
            assert forall|a: int, b: int| 0 <= a < b < ts.clips@.len() implies (#[trigger] ts.clips@[a]).key != (
            #[trigger] ts.clips@[b]).key by {
                assert(states@[a] == clip_state_of(clips@[a]));
                assert(states@[b] == clip_state_of(clips@[b]));
            }
            assert forall|k: u32| #[trigger] m.contains_key(k) implies exists|j: int| 0 <= j < ts.clips@.len() && #[trigger] ts.clips@[j].key.0 == k by {
                let j = choose|j: int| 0 <= j < clips@.len() && #[trigger] clips@[j].key.0 == k;
                assert(states@[j] == clip_state_of(clips@[j]));
                assert(ts.clips@[j].key.0 == k);
            }
        }
        Ok(ts)
    }

    /// The persistent state of the timeline: its tempo, its stored clips and every track.
    pub fn state(&self) -> (r: TimelineState)
        requires
            self.wf(),
        ensures
            describes_state(*self, r),
    {
        let mut tracks: Vec<TimelineTrackState> = Vec::new();
        let ghost dom = self.tracks@.dom();
        for k in it: self.tracks.keys()
            invariant
                self.wf(),
                dom == self.tracks().dom(),
                it.seq().unref().no_duplicates(),
                it.seq().unref().to_set() == dom,
                it.seq().len() == dom.len(),
                tracks@.len() == it.index(),
                forall|i: int| 0 <= i < tracks@.len() ==> tracks@[i].key.0 == *it.seq()[i],
                forall|i: int| 0 <= i < tracks@.len() ==> self.describes_track(#[trigger] tracks@[i]),
                forall|i: int, j: int| 0 <= i < j < tracks@.len() ==> (#[trigger] tracks@[i]).key != (#[trigger] tracks@[j]).key,
                it.index() == it.seq().len() ==> forall|t: u32| #[trigger] dom.contains(t) ==> exists|i: int|
                    0 <= i < tracks@.len() && #[trigger] tracks@[i].key.0 == t,
        {
            let ghost ks = it.seq().unref();
            let ghost idx = it.index();
            proof {
                assert(ks[idx as int] == *k);
                assert(ks.to_set().contains(*k));
            }
            let ts = match self.track_state(TimelineTrackKey(*k)) {
                Ok(ts) => ts,
                Err(_) => {
                    assert(false);
                    return TimelineState { bpm_cents: self.bpm_cents, audio_clip_store: self.clip_store.state(), tracks };
                },
            };
            tracks.push(ts);
            proof {
                assert(tracks@[idx as int].key.0 == *k);
                assert forall|i: int, j: int| 0 <= i < j < tracks@.len() implies (#[trigger] tracks@[i]).key != (#[trigger] tracks@[j]).key by {
                    assert(ks[i] == *it.seq()[i]);
                    assert(ks[j] == *it.seq()[j]);
                }
                assert forall|t: u32| idx + 1 == ks.len() && #[trigger] dom.contains(t) implies exists|i: int|
                    0 <= i < tracks@.len() && #[trigger] tracks@[i].key.0 == t by {
                    assert(ks.to_set().contains(t));
                    let i = choose|i: int| 0 <= i < ks.len() && ks[i] == t;
                    assert(ks[i] == *it.seq()[i]);
                    assert(tracks@[i].key.0 == t);
                }
            }
        }
        TimelineState { bpm_cents: self.bpm_cents, audio_clip_store: self.clip_store.state(), tracks }
    }

    /// Move the playhead to the given position.
    pub fn jump_to(&mut self, position: Timestamp)
        requires
            old(self).wf(),
        ensures
            old(self).tracks_apart() ==> final(self).tracks_apart(),
            final(self).wf(),
            final(self).same_frame(old(self)),
            forall|t: u32| #[trigger] old(self).tracks().contains_key(t) ==> final(self).clips_of(t) == old(self).clips_of(t),
            final(self).clip_keys() == old(self).clip_keys(),
            final(self).clip_to_track() == old(self).clip_to_track(),
            one_event_pushed(old(self).events(), final(self).events()),
            final(self).events().last() matches TimelineEvent::JumpTo { position: p } && p == position,
    {
        let ghost old_events = self.events@;
        self.events.push(TimelineEvent::JumpTo { position });
        assert(self.events@.drop_last() =~= old_events);
        proof {
            if old(self).tracks_apart() {
                assert(self.tracks() == old(self).tracks());
                lemma_same_tracks_apart(*old(self), *self);
            }
        }
    }
}


impl Timeline {
    /// Start importing a file into the stored clips (see [`AudioClipStore::begin_import`]).
    pub fn begin_import(&mut self, path: &String) -> (r: Result<ImportStart, ClipOverflowError>)
        requires
            old(self).wf(),
        ensures
            old(self).tracks_apart() ==> final(self).tracks_apart(),
            final(self).wf(),
            final(self).store().clips() == old(self).store().clips(),
            final(self).store().paths() == old(self).store().paths(),
            crate::clip_store::path_key(old(self).store().paths(), path@) matches Some(k) ==> r == Ok::<ImportStart, ClipOverflowError>(
                ImportStart::AlreadyImported(k),
            ) && final(self).store().used_keys() == old(self).store().used_keys(),
            crate::clip_store::path_key(old(self).store().paths(), path@) is None ==> {
                &&& r is Err <==> old(self).store().remaining() == 0
                &&& r is Err ==> final(self).store().used_keys() == old(self).store().used_keys()
                &&& r matches Ok(start) ==> start matches ImportStart::New(k) && {
                    &&& crate::key_generator::is_next_free(old(self).store().last_id(), old(self).store().used_keys(), k.0)
                    &&& final(self).store().used_keys() == old(self).store().used_keys().insert(k.0)
                }
            },
            final(self).sample_rate_spec() == old(self).sample_rate_spec(),
            final(self).bpm() == old(self).bpm(),
            final(self).tracks() == old(self).tracks(),
            final(self).track_keys() == old(self).track_keys(),
            final(self).track_key_last() == old(self).track_key_last(),
            final(self).clip_keys() == old(self).clip_keys(),
            final(self).clip_key_last() == old(self).clip_key_last(),
            final(self).clip_to_track() == old(self).clip_to_track(),
            final(self).events() == old(self).events(),
    {
        let r = self.clip_store.begin_import(path);
        proof {
            if old(self).tracks_apart() {
                lemma_same_tracks_apart(*old(self), *self);
            }
        }
        r
    }

    /// Store a decoded clip under the key that [`Timeline::begin_import`] reserved for it.
    pub fn finish_import(&mut self, path: String, key: StoredAudioClipKey, info: StoredClipInfo)
        requires
            old(self).wf(),
            old(self).store().used_keys().contains(key.0),
            !old(self).store().clips().contains_key(key.0),
            info.valid(),
        ensures
            old(self).tracks_apart() ==> final(self).tracks_apart(),
            final(self).wf(),
            final(self).store().clips() == old(self).store().clips().insert(key.0, info),
            final(self).store().paths() == old(self).store().paths().push((path, key)),
            final(self).store().used_keys() == old(self).store().used_keys(),
            final(self).sample_rate_spec() == old(self).sample_rate_spec(),
            final(self).bpm() == old(self).bpm(),
            final(self).tracks() == old(self).tracks(),
            final(self).track_keys() == old(self).track_keys(),
            final(self).track_key_last() == old(self).track_key_last(),
            final(self).clip_keys() == old(self).clip_keys(),
            final(self).clip_key_last() == old(self).clip_key_last(),
            final(self).clip_to_track() == old(self).clip_to_track(),
            final(self).events() == old(self).events(),
    {
        self.clip_store.finish_import(path, key, info);
        proof {
            reveal(clip_ok_on);
            assert forall|t: u32, c: u32|
                #![trigger self.tracks@[t].clips@[c]]
                self.tracks@.contains_key(t) && self.tracks@[t].clips@.contains_key(c) implies clip_ok_on(
                    self.tracks@[t].clips@[c],
                    self.sample_rate,
                    self.bpm_cents,
                    self.clip_store.clips(),
                ) by {
                assert(clip_ok_on(self.tracks@[t].clips@[c], self.sample_rate, self.bpm_cents, old(self).clip_store.clips()));
            }
            if old(self).tracks_apart() {
                lemma_same_tracks_apart(*old(self), *self);
            }
        }
    }

    /// The stored clip with the given key.
    pub fn stored_audio_clip(&self, key: StoredAudioClipKey) -> (r: Result<StoredClipInfo, InvalidStoredAudioClipError>)
        requires
            self.wf(),
        ensures
            r is Ok <==> self.store().clips().contains_key(key.0),
            r matches Ok(info) ==> info == self.store().clips()[key.0],
            r matches Err(e) ==> e.key == key,
    {
        self.clip_store.get(key)
    }

    /// Add an empty track under a free key. Tells the audio thread nothing.
    fn insert_empty_track(&mut self, key: TimelineTrackKey, output: MixerTrackKey)
        requires
            old(self).wf(),
            !old(self).track_keys().contains(key.0),
            old(self).track_keys().len() < u32::MAX,
        ensures
            final(self).wf(),
            final(self).sample_rate_spec() == old(self).sample_rate_spec(),
            final(self).bpm() == old(self).bpm(),
            final(self).store() == old(self).store(),
            final(self).track_keys() == old(self).track_keys().insert(key.0),
            final(self).track_key_last() == old(self).track_key_last(),
            final(self).tracks().dom() == old(self).tracks().dom().insert(key.0),
            forall|t: u32| #[trigger] old(self).tracks().contains_key(t) ==> final(self).tracks()[t] == old(self).tracks()[t],
            final(self).clips_of(key.0) == Map::<u32, AudioClip>::empty(),
            final(self).tracks()[key.0].output_track == output,
            final(self).clip_keys() == old(self).clip_keys(),
            final(self).clip_key_last() == old(self).clip_key_last(),
            final(self).clip_to_track() == old(self).clip_to_track(),
            final(self).events() == old(self).events(),
    {
        let _ = self.track_key_generator.reserve(key);
        self.tracks.insert(key.0, TimelineTrack { clips: HashMap::new(), output_track: output });
        proof {
            assert forall|u: u32, c: u32|
                #![trigger self.tracks@[u].clips@[c]]
                self.tracks@.contains_key(u) && self.tracks@[u].clips@.contains_key(c) implies {
                    &&& self.clip_to_track@.contains_key(c)
                    &&& self.clip_to_track@[c].0 == u
                    &&& self.tracks@[u].clips@[c].key.0 == c
                    &&& clip_ok_on(self.tracks@[u].clips@[c], self.sample_rate, self.bpm_cents, self.clip_store.clips())
                } by {
                assert(old(self).tracks@[u].clips@.contains_key(c));
            }
            assert(self.tracks@.dom() =~= self.track_key_generator.used());
            assert(self.clips_of(key.0) =~= Map::<u32, AudioClip>::empty());
        }
    }

    /// Build the timeline that a persistent state describes, on a store already rebuilt from the
    /// state's stored clips: every track with its clips, the track keys and clip keys in use, and
    /// the key counters where [`KeyGenerator::from_keys`] puts them.
    pub fn from_state(state: &TimelineState, sample_rate: u32, clip_store: AudioClipStore) -> (tl: Self)
        requires
            rebuild_ready(*state, sample_rate, clip_store),
        ensures
            rebuilt_from_state(tl, *state, sample_rate, clip_store),
    {
        let ghost tracks = state.tracks@;
        let ghost n = tracks.len() as int;
        let ghost track_ids = crate::key_generator::ids_of(tracks.map_values(|t: TimelineTrackState| t.key));
        let ghost all = all_clip_keys(tracks);
        let mut tl = Timeline {
            sample_rate,
            bpm_cents: state.bpm_cents,
            track_key_generator: KeyGenerator::new(),
            clip_key_generator: KeyGenerator::new(),
            clip_to_track: HashMap::new(),
            clip_store,
            tracks: HashMap::new(),
            events: Vec::new(),
        };
        proof {
            assert(tl.clip_to_track@.dom() =~= tl.clip_key_generator.used());
            assert(tl.tracks@.dom() =~= tl.track_key_generator.used());
        }
        let mut track_keys: Vec<TimelineTrackKey> = Vec::new();
        let mut clip_keys: Vec<AudioClipKey> = Vec::new();
        let mut a: usize = 0;
        while a < state.tracks.len()
            invariant
                a <= n,
                n == state.tracks@.len(),
                tracks == state.tracks@,
                n <= u32::MAX,
                track_ids == crate::key_generator::ids_of(tracks.map_values(|t: TimelineTrackState| t.key)),
                track_ids.no_duplicates(),
                all == all_clip_keys(tracks),
                all.len() <= u32::MAX,
                crate::key_generator::ids_of(all).no_duplicates(),
                forall|b: int, j: int|
                    0 <= b < tracks.len() && 0 <= j < tracks[b].clips@.len() ==> {
                        let c = #[trigger] tracks[b].clips@[j];
                        &&& clip_store.clips().contains_key(c.inner.0)
                        &&& clip_end(clip_from_state(c, clip_store.clips()[c.inner.0], sample_rate), state.bpm_cents) <= u32::MAX
                    },
                tl.wf(),
                tl.sample_rate_spec() == sample_rate,
                tl.bpm() == state.bpm_cents,
                tl.store() == clip_store,
                tl.events() == Seq::<TimelineEvent>::empty(),
                tl.track_key_last() == u32::MAX,
                tl.clip_key_last() == u32::MAX,
                track_keys@ == tracks.take(a as int).map_values(|t: TimelineTrackState| t.key),
                tl.track_keys() == track_ids.take(a as int).to_set(),
                tl.tracks().dom() == track_ids.take(a as int).to_set(),
                clip_keys@ == all_clip_keys(tracks.take(a as int)),
                tl.clip_keys() == crate::key_generator::ids_of(clip_keys@).to_set(),
                forall|b: int| 0 <= b < a ==> {
                    &&& tl.clips_of(#[trigger] tracks[b].key.0) == tl.batch_prefix(tracks[b].clips@, tracks[b].clips@.len() as int)
                    &&& tl.tracks()[tracks[b].key.0].output_track == tracks[b].output_track
                },
                forall|b: int, j: int|
                    0 <= b < a && 0 <= j < tracks[b].clips@.len() ==> tl.clip_to_track()[(#[trigger] tracks[b].clips@[j]).key.0]
                        == tracks[b].key,
            decreases n - a,
        {
            let ts = &state.tracks[a];
            let key = ts.key;
            proof {
                assert(track_ids[a as int] == key.0);
                assert(!track_ids.take(a as int).contains(key.0));
                track_ids.take(a as int).unique_seq_to_set();
            }
            let ghost before = tl;
            tl.insert_empty_track(key, ts.output_track);
            track_keys.push(key);
            proof {
                assert(track_ids.take(a as int + 1) =~= track_ids.take(a as int).push(key.0));
                track_ids.take(a as int).lemma_push_to_set_commute(key.0);
                assert(tracks.take(a as int + 1) =~= tracks.take(a as int).push(tracks[a as int]));
                assert(track_keys@ =~= tracks.take(a as int + 1).map_values(|t: TimelineTrackState| t.key));
                lemma_all_clip_keys_prefix(tracks, a as int);
                lemma_all_clip_keys_prefix(tracks, a as int + 1);
                lemma_all_clip_keys_step(tracks, a as int);
                assert forall|b: int| 0 <= b < a implies tl.clips_of(#[trigger] tracks[b].key.0) == tl.batch_prefix(
                    tracks[b].clips@,
                    tracks[b].clips@.len() as int,
                ) && tl.tracks()[tracks[b].key.0].output_track == tracks[b].output_track by {
                    assert(track_ids[b] == tracks[b].key.0);
                    assert(track_ids.take(a as int).contains(tracks[b].key.0)) by {
                        assert(track_ids.take(a as int)[b] == tracks[b].key.0);
                    }
                    assert(before.tracks().contains_key(tracks[b].key.0));
                }
            }
            let ghost base = clip_keys@.len() as int;
            let ghost mid = tl;
            let mut j: usize = 0;
            while j < ts.clips.len()
                invariant
                    a < n,
                    n == state.tracks@.len(),
                    tracks == state.tracks@,
                    *ts == tracks[a as int],
                    key == ts.key,
                    all == all_clip_keys(tracks),
                    all.len() <= u32::MAX,
                    crate::key_generator::ids_of(all).no_duplicates(),
                    base == all_clip_keys(tracks.take(a as int)).len(),
                    all.take(base + ts.clips@.len()) == all_clip_keys(tracks.take(a as int + 1)),
                    all_clip_keys(tracks.take(a as int + 1)) == all_clip_keys(tracks.take(a as int)) + ts.clips@.map_values(
                        |c: AudioClipState| c.key,
                    ),
                    base + ts.clips@.len() <= all.len(),
                    forall|b: int, k: int|
                        0 <= b < tracks.len() && 0 <= k < tracks[b].clips@.len() ==> {
                            let c = #[trigger] tracks[b].clips@[k];
                            &&& clip_store.clips().contains_key(c.inner.0)
                            &&& clip_end(clip_from_state(c, clip_store.clips()[c.inner.0], sample_rate), state.bpm_cents) <= u32::MAX
                        },
                    j <= ts.clips@.len(),
                    tl.wf(),
                    tl.sample_rate_spec() == sample_rate,
                    tl.bpm() == state.bpm_cents,
                    tl.store() == clip_store,
                    tl.same_frame(&mid),
                    mid.tracks().contains_key(key.0),
                    tl.clips_same_except(&mid, key.0),
                    tl.events() == Seq::<TimelineEvent>::empty(),
                    tl.clips_of(key.0) == tl.batch_prefix(ts.clips@, j as int),
                    clip_keys@ == all.take(base + j),
                    tl.clip_keys() == crate::key_generator::ids_of(clip_keys@).to_set(),
                    forall|k: int| 0 <= k < j ==> tl.clip_to_track()[(#[trigger] ts.clips@[k]).key.0] == key,
                    forall|k: u32| #[trigger] mid.clip_to_track().contains_key(k) ==> tl.clip_to_track().contains_key(k)
                        && tl.clip_to_track()[k] == mid.clip_to_track()[k],
                decreases ts.clips@.len() - j,
            {
                let c = ts.clips[j];
                let ghost ids = crate::key_generator::ids_of(all);
                let ghost pos = base + j;
                proof {
                    assert(all[pos] == c.key) by {
                        assert(all.take(base + ts.clips@.len())[pos] == all_clip_keys(tracks.take(a as int + 1))[pos]);
                    }
                    assert(ids[pos] == c.key.0);
                    assert(clip_keys@ =~= all.take(pos));
                    assert(!crate::key_generator::ids_of(clip_keys@).contains(c.key.0)) by {
                        if crate::key_generator::ids_of(clip_keys@).contains(c.key.0) {
                            let q = choose|q: int| 0 <= q < clip_keys@.len() && crate::key_generator::ids_of(clip_keys@)[q] == c.key.0;
                            assert(ids[q] == c.key.0);
                        }
                    }
                    assert(crate::key_generator::ids_of(clip_keys@).no_duplicates()) by {
                        assert forall|x: int, y: int| 0 <= x < y < clip_keys@.len() implies crate::key_generator::ids_of(clip_keys@)[x]
                            != crate::key_generator::ids_of(clip_keys@)[y] by {
                            assert(ids[x] != ids[y]);
                        }
                    }
                    crate::key_generator::ids_of(clip_keys@).unique_seq_to_set();
                    assert(tl.clip_for(c) == clip_from_state(c, clip_store.clips()[c.inner.0], sample_rate));
                    assert(tracks[a as int].clips@[j as int] == c);
                }
                tl.place_clip(key, c);
                clip_keys.push(c.key);
                proof {
                    assert(all.take(pos + 1) =~= all.take(pos).push(c.key));
                    assert(clip_keys@ =~= all.take(pos + 1));
                    assert(crate::key_generator::ids_of(clip_keys@) =~= crate::key_generator::ids_of(all.take(pos)).push(c.key.0));
                    crate::key_generator::ids_of(all.take(pos)).lemma_push_to_set_commute(c.key.0);
                    assert forall|k: int| 0 <= k < j + 1 implies tl.clip_to_track()[(#[trigger] ts.clips@[k]).key.0] == key by {
                    }
                }
                j = j + 1;
            }
            proof {
                assert(clip_keys@ =~= all_clip_keys(tracks.take(a as int + 1)));
                assert forall|b: int| 0 <= b < a + 1 implies {
                    &&& tl.clips_of(#[trigger] tracks[b].key.0) == tl.batch_prefix(tracks[b].clips@, tracks[b].clips@.len() as int)
                    &&& tl.tracks()[tracks[b].key.0].output_track == tracks[b].output_track
                } by {
                    if b < a {
                        assert(track_ids[b] == tracks[b].key.0);
                        assert(track_ids[b] != track_ids[a as int]);
                        assert(mid.tracks().contains_key(tracks[b].key.0)) by {
                            assert(track_ids.take(a as int)[b] == tracks[b].key.0);
                        }
                    }
                }
                assert forall|b: int, k: int|
                    0 <= b < a + 1 && 0 <= k < tracks[b].clips@.len() implies tl.clip_to_track()[(#[trigger] tracks[b].clips@[k]).key.0]
                        == tracks[b].key by {
                    if b < a {
                        assert(mid.clip_to_track().contains_key(tracks[b].clips@[k].key.0)) by {
                            assert(mid.clip_keys().contains(tracks[b].clips@[k].key.0)) by {
                                lemma_all_clip_keys_prefix(tracks, b);
                                lemma_all_clip_keys_prefix(tracks, b + 1);
                                lemma_all_clip_keys_step(tracks, b);
                                lemma_all_clip_keys_prefix(tracks.take(a as int), b + 1);
                                assert(tracks.take(a as int).take(b + 1) =~= tracks.take(b + 1));
                                let p = all_clip_keys(tracks.take(b)).len() + k;
                                assert(all_clip_keys(tracks.take(b + 1))[p] == tracks[b].clips@[k].key);
                                assert(all_clip_keys(tracks.take(a as int))[p] == tracks[b].clips@[k].key);
                                assert(crate::key_generator::ids_of(all_clip_keys(tracks.take(a as int)))[p] == tracks[b].clips@[k].key.0);
                            }
                        }
                    }
                }
            }
            a = a + 1;
        }
        proof {
            assert(tracks.take(n) =~= tracks);
            assert(track_ids.take(n) =~= track_ids);
            assert(crate::key_generator::ids_of(track_keys@) =~= track_ids);
            assert(clip_keys@ =~= all);
        }
        proof {
            assert forall|x: int, y: int| 0 <= x < y < track_keys@.len() implies track_keys@[x].key_id() != track_keys@[y].key_id() by {
                assert(track_ids[x] != track_ids[y]);
            }
            assert forall|x: int, y: int| 0 <= x < y < clip_keys@.len() implies clip_keys@[x].key_id() != clip_keys@[y].key_id() by {
                assert(crate::key_generator::ids_of(all)[x] != crate::key_generator::ids_of(all)[y]);
            }
        }
        tl.track_key_generator = KeyGenerator::from_keys(track_keys.as_slice());
        tl.clip_key_generator = KeyGenerator::from_keys(clip_keys.as_slice());
        proof {
            assert(track_keys@.map_values(|k: TimelineTrackKey| k.key_id()) =~= track_ids);
            assert(clip_keys@.map_values(|k: AudioClipKey| k.key_id()) =~= crate::key_generator::ids_of(all));
        }
        tl
    }
}


impl Timeline {
    /// A clip on the timeline is what its own state describes there, and that state can be put
    /// back: its stored clip exists, it fits, and its key is in use on its track.
    pub proof fn lemma_clip_state_round_trip(&self, t: u32, c: u32)
        requires
            self.wf(),
            self.tracks().contains_key(t),
            self.clips_of(t).contains_key(c),
        ensures
            self.clip_for(clip_state_of(self.clips_of(t)[c])) == self.clips_of(t)[c],
            self.store().clips().contains_key(self.clips_of(t)[c].stored_clip.0),
            self.state_fits(clip_state_of(self.clips_of(t)[c])),
            self.clip_keys().contains(c),
            self.clip_to_track()[c].0 == t,
            self.clips_of(t)[c].key.0 == c,
    {
        self.lemma_clip_facts(t, c);
    }

    /// The clip states of a description of a track rebuild exactly the track's clips, and each
    /// of them can be put back.
    pub proof fn lemma_described_clips(&self, ts: TimelineTrackState)
        requires
            self.wf(),
            self.describes_track(ts),
        ensures
            crate::key_generator::ids_of(ts.clips@.map_values(|s: AudioClipState| s.key)).no_duplicates(),
            self.batch_prefix(ts.clips@, ts.clips@.len() as int) == self.clips_of(ts.key.0),
            forall|i: int| 0 <= i < ts.clips@.len() ==> {
                &&& self.store().clips().contains_key(#[trigger] ts.clips@[i].inner.0)
                &&& self.state_fits(ts.clips@[i])
                &&& self.clip_keys().contains(ts.clips@[i].key.0)
                &&& self.clip_to_track()[ts.clips@[i].key.0] == ts.key
            },
    {
        let states = ts.clips@;
        let n = states.len() as int;
        let t = ts.key.0;
        let clips = self.clips_of(t);
        let ids = crate::key_generator::ids_of(states.map_values(|s: AudioClipState| s.key));
        assert(ids.no_duplicates()) by {
            assert forall|i: int, j: int| 0 <= i < j < ids.len() implies ids[i] != ids[j] by {
                assert(states[i].key != states[j].key);
                if ids[i] == ids[j] {
                    crate::key_generator::Key::lemma_id_determines_key(states[i].key, states[j].key);
                }
            }
        }
        assert forall|i: int| 0 <= i < n implies {
            &&& self.store().clips().contains_key(#[trigger] states[i].inner.0)
            &&& self.state_fits(states[i])
            &&& self.clip_keys().contains(states[i].key.0)
            &&& self.clip_to_track()[states[i].key.0] == ts.key
            &&& self.clip_for(states[i]) == clips[states[i].key.0]
        } by {
            let k = states[i].key.0;
            assert(clips.contains_key(k));
            self.lemma_clip_state_round_trip(t, k);
            assert(states[i] == clip_state_of(clips[k]));
            if self.clip_to_track()[k] != ts.key {
                crate::key_generator::Key::lemma_id_determines_key(self.clip_to_track()[k], ts.key);
            }
        }
        self.lemma_batch_prefix(states, n);
        let m = self.batch_prefix(states, n);
        assert forall|x: u32| #[trigger] m.contains_key(x) <==> clips.contains_key(x) by {
            if clips.contains_key(x) {
                let i = choose|i: int| 0 <= i < states.len() && #[trigger] states[i].key.0 == x;
                assert(0 <= i < n && states[i].key.0 == x);
            }
        }
        assert forall|x: u32| #[trigger] m.contains_key(x) implies m[x] == clips[x] by {
            let j = choose|j: int| 0 <= j < n && #[trigger] states[j].key.0 == x;
            assert(m[states[j].key.0] == self.clip_for(states[j]));
        }
        assert(m =~= clips);
    }
}


impl Timeline {
    /// The tracks of a well-formed timeline are those whose keys are in use, finitely many; so
    /// are the clip keys in use.
    pub proof fn lemma_wf(&self)
        requires
            self.wf(),
        ensures
            self.tracks().dom() == self.track_keys(),
            self.track_keys().finite(),
            self.track_keys().len() <= u32::MAX,
            self.clip_to_track().dom() == self.clip_keys(),
            self.clip_keys().finite(),
            self.clip_keys().len() <= u32::MAX,
            rate_fits(self.sample_rate_spec() as int, self.bpm() as int),
            0 < self.bpm(),
            self.store().wf(),
            forall|t: u32, c: u32| #[trigger] self.tracks().contains_key(t) && #[trigger] self.clips_of(t).contains_key(c)
                ==> self.clip_keys().contains(c) && self.clip_to_track()[c].0 == t,
    {
        assert forall|t: u32, c: u32| #[trigger] self.tracks().contains_key(t) && #[trigger] self.clips_of(t).contains_key(c)
            implies self.clip_keys().contains(c) && self.clip_to_track()[c].0 == t by {
            assert(self.tracks@[t].clips@[c].key.0 == c);
        }
        self.track_key_generator.lemma_wf();
        self.clip_key_generator.lemma_wf();
    }
}

/// A timeline whose tracks are apart stays so when track `t` gets clips that are apart, the other
/// tracks keeping theirs.
proof fn lemma_tracks_apart_step(t0: Timeline, t1: Timeline, t: u32)
    requires
        t0.tracks_apart(),
        t1.same_frame(&t0),
        t1.clips_same_except(&t0, t),
        clips_apart(t1.clips_of(t), t1.bpm()),
    ensures
        t1.tracks_apart(),
{
    assert forall|u: u32| #[trigger] t1.tracks().contains_key(u) implies clips_apart(t1.clips_of(u), t1.bpm()) by {
        if u != t {
            assert(t0.tracks().contains_key(u));
        }
    }
}

/// A timeline with the same tracks and tempo as one whose tracks are apart has its tracks apart.
proof fn lemma_same_tracks_apart(t0: Timeline, t1: Timeline)
    requires
        t0.tracks_apart(),
        t1.bpm() == t0.bpm(),
        t1.tracks() == t0.tracks(),
    ensures
        t1.tracks_apart(),
{
    assert forall|u: u32| #[trigger] t1.tracks().contains_key(u) implies clips_apart(t1.clips_of(u), t1.bpm()) by {
        assert(t0.tracks().contains_key(u));
    }
}

/// Taking clips away keeps the tracks apart: every track of `t1` was a track of `t0`, and holds
/// some of the clips it held there.
proof fn lemma_fewer_clips_apart(t0: Timeline, t1: Timeline)
    requires
        t0.tracks_apart(),
        t1.bpm() == t0.bpm(),
        forall|u: u32| #[trigger] t1.tracks().contains_key(u) ==> t0.tracks().contains_key(u) && t1.clips_of(u).submap_of(
            t0.clips_of(u),
        ),
    ensures
        t1.tracks_apart(),
{
    assert forall|u: u32| #[trigger] t1.tracks().contains_key(u) implies clips_apart(t1.clips_of(u), t1.bpm()) by {
        let m = t1.clips_of(u);
        let m0 = t0.clips_of(u);
        assert(t0.tracks().contains_key(u));
        assert forall|k1: u32, k2: u32| #[trigger] m.contains_key(k1) && #[trigger] m.contains_key(k2) && k1 != k2 implies apart(
            m[k1],
            m[k2],
            t1.bpm(),
        ) by {
            assert(m0.contains_key(k1) && m0.contains_key(k2));
        }
    }
}

/// Putting `c` on track `t` under its key keeps the tracks apart, when no other clip on the track
/// conflicts with its span, tested as when a clip is added or moved.
proof fn lemma_put_keeps_apart(t0: Timeline, t1: Timeline, t: u32, c: AudioClip, kind: ConflictKind, exclude: Option<u32>)
    requires
        t0.wf(),
        t0.tracks_apart(),
        t0.tracks().contains_key(t),
        kind == ConflictKind::Overlap || kind == ConflictKind::Span,
        exclude == None::<u32> || exclude == Some(c.key.0),
        !has_conflict(t0.clips_of(t), kind, c.start@ as int, clip_end(c, t0.bpm()), exclude, t0.bpm()),
        t1.same_frame(&t0),
        t1.clips_same_except(&t0, t),
        t1.clips_of(t) == t0.clips_of(t).insert(c.key.0, c),
    ensures
        t1.tracks_apart(),
{
    assert forall|j: u32| #[trigger] t0.clips_of(t).contains_key(j) implies t0.clips_of(t)[j].key.0 == j by {
        t0.lemma_clip_facts(t, j);
    }
    lemma_put_apart(t0.clips_of(t), c.key.0, c, kind, exclude, t0.bpm());
    lemma_tracks_apart_step(t0, t1, t);
}

/// Deleting a clip and putting it back on its track from the state that the deletion gave back
/// succeeds, unless another clip on the track now overlaps it, and restores every track's
/// clips, the clip keys and their tracks as they were.
pub proof fn lemma_delete_reconstruct_audio_clip(t0: Timeline, t1: Timeline, k: AudioClipKey, s: AudioClipState)
    requires
        t0.wf(),
        t0.clip_keys().contains(k.0),
        t0.clip_located(k.0),
        clip_deleted(t0, t1, k, s),
        !has_conflict(
            t0.clips_of(t0.clip_to_track()[k.0].0).remove(k.0),
            ConflictKind::Overlap,
            t0.clip(k.0).start@ as int,
            clip_end(t0.clip(k.0), t0.bpm()),
            None,
            t0.bpm(),
        ),
    ensures
        !t1.clip_keys().contains(k.0),
        t1.clip_keys().len() < u32::MAX,
        t1.add_fits(t0.clip_to_track()[k.0], s),
        t1.add_outcome(t0.clip_to_track()[k.0], s) == Ok::<(), AddClipError>(()),
        forall|t2: Timeline| #[trigger] clip_put_back(t1, t2, t0.clip_to_track()[k.0], s) ==> {
            &&& t2.same_frame(&t0)
            &&& forall|u: u32| #[trigger] t0.tracks().contains_key(u) ==> t2.clips_of(u) == t0.clips_of(u)
            &&& t2.clip_keys() == t0.clip_keys()
            &&& t2.clip_to_track() == t0.clip_to_track()
        },
{
    let tr = t0.clip_to_track()[k.0];
    t0.lemma_wf();
    t0.lemma_clip_state_round_trip(tr.0, k.0);
    let c = t0.clip(k.0);
    assert(t1.clip_for(s) == t0.clip_for(s));
    assert(t1.clip_for(s) == c);
    assert(s.key == k) by {
        crate::key_generator::Key::lemma_id_determines_key(c.key, k);
    }
    assert forall|t2: Timeline| #[trigger] clip_put_back(t1, t2, tr, s) implies {
        &&& t2.same_frame(&t0)
        &&& forall|u: u32| #[trigger] t0.tracks().contains_key(u) ==> t2.clips_of(u) == t0.clips_of(u)
        &&& t2.clip_keys() == t0.clip_keys()
        &&& t2.clip_to_track() == t0.clip_to_track()
    } by {
        assert(t2.clips_of(tr.0) =~= t0.clips_of(tr.0));
        assert(t2.clip_keys() =~= t0.clip_keys());
        assert(t2.clip_to_track() =~= t0.clip_to_track());
        assert forall|u: u32| #[trigger] t0.tracks().contains_key(u) implies t2.clips_of(u) == t0.clips_of(u) by {
            if u != tr.0 {
                assert(t1.tracks().contains_key(u));
            }
        }
    }
}

/// The clip `k` lies on one of the first `i` tracks of `tracks`.
spec fn on_first_tracks(tl: Timeline, tracks: Seq<TimelineTrackState>, i: int, k: u32) -> bool {
    exists|a: int| 0 <= a < i && #[trigger] tl.clips_of(tracks[a].key.0).contains_key(k)
}

/// Whether the stored clip of `s` is in the store, and the clip that `s` describes, playing it at
/// `sample_rate`, then ends within the timeline.
fn stored_and_fits(clip_store: &AudioClipStore, sample_rate: u32, bpm_cents: u16, s: &AudioClipState) -> (r: bool)
    requires
        clip_store.wf(),
        rate_fits(sample_rate as int, bpm_cents as int),
    ensures
        r == (clip_store.clips().contains_key(s.inner.0) && clip_end(
            clip_from_state(*s, clip_store.clips()[s.inner.0], sample_rate),
            bpm_cents,
        ) <= u32::MAX),
{
    let info = match clip_store.get(s.inner) {
        Ok(info) => info,
        Err(_) => return false,
    };
    proof {
        lemma_frames_at_bounded(info, sample_rate);
    }
    let frames = rescale_frames(info.length, sample_rate, info.sample_rate);
    let clip = AudioClip {
        key: s.key,
        start: s.start,
        length: s.length,
        start_offset: s.start_offset,
        stored_clip: s.inner,
        source_frames: frames,
        sample_rate,
    };
    assert(clip == clip_from_state(*s, info, sample_rate));
    let length = clip.length(bpm_cents);
    (s.start.beat_units as u64) + (length.beat_units as u64) <= 0xffff_ffff
}

/// Whether a timeline can be rebuilt from `state` on `clip_store` at `sample_rate` (see
/// [`rebuild_ready`]).
pub fn rebuild_ready_check(state: &TimelineState, sample_rate: u32, clip_store: &AudioClipStore) -> (r: bool)
    requires
        clip_store.wf(),
    ensures
        r == rebuild_ready(*state, sample_rate, *clip_store),
{
    if !rate_fits_check(sample_rate, state.bpm_cents) {
        return false;
    }
    let ghost tracks = state.tracks@;
    let mut track_keys: Vec<TimelineTrackKey> = Vec::new();
    let mut clip_keys: Vec<AudioClipKey> = Vec::new();
    let mut fits = true;
    let mut i: usize = 0;
    while i < state.tracks.len()
        invariant
            tracks == state.tracks@,
            i <= tracks.len(),
            rate_fits(sample_rate as int, state.bpm_cents as int),
            clip_store.wf(),
            track_keys@ == tracks.take(i as int).map_values(|t: TimelineTrackState| t.key),
            clip_keys@ == all_clip_keys(tracks.take(i as int)),
            fits <==> forall|a: int, j: int|
                0 <= a < i && 0 <= j < tracks[a].clips@.len() ==> {
                    let c = #[trigger] tracks[a].clips@[j];
                    &&& clip_store.clips().contains_key(c.inner.0)
                    &&& clip_end(clip_from_state(c, clip_store.clips()[c.inner.0], sample_rate), state.bpm_cents) <= u32::MAX
                },
        decreases tracks.len() - i,
    {
        let t = &state.tracks[i];
        track_keys.push(t.key);
        let ghost before = clip_keys@;
        let ghost fits_before = fits;
        let mut j: usize = 0;
        while j < t.clips.len()
            invariant
                tracks == state.tracks@,
                i < tracks.len(),
                *t == tracks[i as int],
                j <= t.clips@.len(),
                rate_fits(sample_rate as int, state.bpm_cents as int),
                clip_store.wf(),
                before == all_clip_keys(tracks.take(i as int)),
                clip_keys@ == before + t.clips@.take(j as int).map_values(|c: AudioClipState| c.key),
                fits_before <==> forall|a: int, jj: int|
                    0 <= a < i && 0 <= jj < tracks[a].clips@.len() ==> {
                        let c = #[trigger] tracks[a].clips@[jj];
                        &&& clip_store.clips().contains_key(c.inner.0)
                        &&& clip_end(clip_from_state(c, clip_store.clips()[c.inner.0], sample_rate), state.bpm_cents) <= u32::MAX
                    },
                fits <==> fits_before && forall|jj: int|
                    0 <= jj < j ==> {
                        let c = #[trigger] t.clips@[jj];
                        &&& clip_store.clips().contains_key(c.inner.0)
                        &&& clip_end(clip_from_state(c, clip_store.clips()[c.inner.0], sample_rate), state.bpm_cents) <= u32::MAX
                    },
            decreases t.clips@.len() - j,
        {
            let c = t.clips[j];
            clip_keys.push(c.key);
            if !stored_and_fits(clip_store, sample_rate, state.bpm_cents, &c) {
                fits = false;
            }
            proof {
                assert(t.clips@.take(j as int + 1) =~= t.clips@.take(j as int).push(c));
                assert(clip_keys@ =~= before + t.clips@.take(j as int + 1).map_values(|c: AudioClipState| c.key));
            }
            j = j + 1;
        }
        proof {
            lemma_all_clip_keys_step(tracks, i as int);
            assert(t.clips@.take(t.clips@.len() as int) =~= t.clips@);
            assert(clip_keys@ =~= all_clip_keys(tracks.take(i as int + 1)));
            assert(tracks.take(i as int + 1) =~= tracks.take(i as int).push(tracks[i as int]));
            assert(track_keys@ =~= tracks.take(i as int + 1).map_values(|t: TimelineTrackState| t.key));
            assert(fits <==> forall|a: int, jj: int|
                0 <= a < i + 1 && 0 <= jj < tracks[a].clips@.len() ==> {
                    let c = #[trigger] tracks[a].clips@[jj];
                    &&& clip_store.clips().contains_key(c.inner.0)
                    &&& clip_end(clip_from_state(c, clip_store.clips()[c.inner.0], sample_rate), state.bpm_cents) <= u32::MAX
                }) by {
                if fits {
                    assert forall|a: int, jj: int| 0 <= a < i + 1 && 0 <= jj < tracks[a].clips@.len() implies {
                        let c = #[trigger] tracks[a].clips@[jj];
                        &&& clip_store.clips().contains_key(c.inner.0)
                        &&& clip_end(clip_from_state(c, clip_store.clips()[c.inner.0], sample_rate), state.bpm_cents) <= u32::MAX
                    } by {
                        if a == i {
                            assert(t.clips@[jj] == tracks[a].clips@[jj]);
                        }
                    }
                }
            }
        }
        i = i + 1;
    }
    proof {
        assert(tracks.take(tracks.len() as int) =~= tracks);
    }
    if !fits || state.tracks.len() > 0xffff_ffff || clip_keys.len() > 0xffff_ffff {
        return false;
    }
    crate::key_generator::ids_distinct(&track_keys) && crate::key_generator::ids_distinct(&clip_keys)
}

/// A timeline rebuilt from a state has no overlapping clips on a track when each track of the
/// state holds clips that do not overlap (the rebuild itself does not test for overlaps).
pub proof fn lemma_rebuilt_apart(tl: Timeline, state: TimelineState, sample_rate: u32, clip_store: AudioClipStore)
    requires
        rebuilt_from_state(tl, state, sample_rate, clip_store),
        forall|a: int| 0 <= a < state.tracks@.len() ==> clips_apart(
            #[trigger] tl.batch_prefix(state.tracks@[a].clips@, state.tracks@[a].clips@.len() as int),
            state.bpm_cents,
        ),
    ensures
        tl.tracks_apart(),
{
    let track_ids = crate::key_generator::ids_of(state.tracks@.map_values(|t: TimelineTrackState| t.key));
    assert forall|u: u32| #[trigger] tl.tracks().contains_key(u) implies clips_apart(tl.clips_of(u), tl.bpm()) by {
        assert(track_ids.to_set().contains(u));
        let a = choose|a: int| 0 <= a < track_ids.len() && track_ids[a] == u;
        assert(track_ids[a] == state.tracks@[a].key.0);
        assert(tl.clips_of(state.tracks@[a].key.0) == tl.batch_prefix(
            state.tracks@[a].clips@,
            state.tracks@[a].clips@.len() as int,
        ));
    }
}

/// In a state of the timeline, the clip keys of the first `i` tracks are distinct, and each
/// is that of a clip on one of those tracks.
proof fn lemma_state_clip_keys(tl: Timeline, st: TimelineState, i: int)
    requires
        tl.wf(),
        describes_state(tl, st),
        0 <= i <= st.tracks@.len(),
    ensures
        crate::key_generator::ids_of(all_clip_keys(st.tracks@.take(i))).no_duplicates(),
        forall|p: int|
            0 <= p < all_clip_keys(st.tracks@.take(i)).len() ==> on_first_tracks(
                tl,
                st.tracks@,
                i,
                #[trigger] crate::key_generator::ids_of(all_clip_keys(st.tracks@.take(i)))[p],
            ),
    decreases i,
{
    let tracks = st.tracks@;
    let ids = crate::key_generator::ids_of(all_clip_keys(tracks.take(i)));
    tl.lemma_wf();
    if i == 0 {
        assert(tracks.take(0) =~= Seq::<TimelineTrackState>::empty());
        assert(all_clip_keys(tracks.take(0)) =~= Seq::<AudioClipKey>::empty());
    } else {
        lemma_state_clip_keys(tl, st, i - 1);
        lemma_all_clip_keys_step(tracks, i - 1);
        let before = crate::key_generator::ids_of(all_clip_keys(tracks.take(i - 1)));
        let ts = tracks[i - 1];
        let mine = crate::key_generator::ids_of(ts.clips@.map_values(|c: AudioClipState| c.key));
        assert(ids =~= before + mine);
        assert(tl.describes_track(ts));
        let m = before.len() as int;
        assert forall|p: int| 0 <= p < ids.len() implies on_first_tracks(tl, tracks, i, #[trigger] ids[p]) by {
            if p < m {
                assert(ids[p] == before[p]);
                assert(on_first_tracks(tl, tracks, i - 1, before[p]));
                let a = choose|a: int| 0 <= a < i - 1 && #[trigger] tl.clips_of(tracks[a].key.0).contains_key(before[p]);
                assert(tl.clips_of(tracks[a].key.0).contains_key(ids[p]));
            } else {
                assert(ids[p] == ts.clips@[p - m].key.0);
                assert(tl.clips_of(tracks[i - 1].key.0).contains_key(ids[p]));
            }
        }
        assert forall|x: int, y: int| 0 <= x < y < ids.len() implies ids[x] != ids[y] by {
            if y < m {
                assert(ids[x] == before[x] && ids[y] == before[y]);
            } else if x >= m {
                assert(ids[x] == ts.clips@[x - m].key.0 && ids[y] == ts.clips@[y - m].key.0);
                assert(ts.clips@[x - m].key != ts.clips@[y - m].key);
            } else {
                assert(ids[x] == before[x]);
                assert(ids[y] == ts.clips@[y - m].key.0);
                assert(on_first_tracks(tl, tracks, i - 1, before[x]));
                let a = choose|a: int| 0 <= a < i - 1 && #[trigger] tl.clips_of(tracks[a].key.0).contains_key(before[x]);
                assert(tl.tracks().contains_key(tracks[a].key.0));
                assert(tl.clips_of(ts.key.0).contains_key(ids[y]));
                if ids[x] == ids[y] {
                    assert(tl.clip_to_track()[ids[x]].0 == tracks[a].key.0);
                    assert(tl.clip_to_track()[ids[y]].0 == ts.key.0);
                    assert(tracks[a].key != tracks[i - 1].key);
                }
            }
        }
    }
}

/// Rebuilding a timeline from its own state, on its own store, gives back its tracks with their
/// outputs and clips; its clip keys are those of the clips on its tracks, each on the same track.
/// When every clip key in use belongs to a clip on a track (no track was deleted with clips on
/// it), the clip keys are all the same.
pub proof fn lemma_state_round_trip(tl: Timeline, st: TimelineState, tl2: Timeline)
    requires
        tl.wf(),
        describes_state(tl, st),
    ensures
        rebuild_ready(st, tl.sample_rate_spec(), tl.store()),
        rebuilt_from_state(tl2, st, tl.sample_rate_spec(), tl.store()) ==> {
            &&& tl2.sample_rate_spec() == tl.sample_rate_spec()
            &&& tl2.bpm() == tl.bpm()
            &&& tl2.store() == tl.store()
            &&& tl2.track_keys() == tl.track_keys()
            &&& tl2.tracks().dom() == tl.tracks().dom()
            &&& forall|t: u32| #[trigger] tl.tracks().contains_key(t) ==> tl2.clips_of(t) == tl.clips_of(t)
                && tl2.tracks()[t].output_track == tl.tracks()[t].output_track
            &&& forall|k: u32| #[trigger] tl2.clip_keys().contains(k) <==> tl.clip_located(k)
            &&& forall|k: u32| #[trigger] tl.clip_located(k) ==> tl2.clip_to_track()[k] == tl.clip_to_track()[k]
            &&& (forall|k: u32| #[trigger] tl.clip_keys().contains(k) ==> tl.clip_located(k)) ==> {
                &&& tl2.clip_keys() == tl.clip_keys()
                &&& tl2.clip_to_track() == tl.clip_to_track()
            }
        },
{
    let tracks = st.tracks@;
    let n = tracks.len() as int;
    let track_ids = crate::key_generator::ids_of(tracks.map_values(|t: TimelineTrackState| t.key));
    let all = all_clip_keys(tracks);
    let clip_ids = crate::key_generator::ids_of(all);
    tl.lemma_wf();
    assert(tracks.take(n) =~= tracks);
    lemma_state_clip_keys(tl, st, n);
    // The track keys are distinct.
    assert forall|x: int, y: int| 0 <= x < y < track_ids.len() implies track_ids[x] != track_ids[y] by {
        assert(tracks[x].key != tracks[y].key);
        if track_ids[x] == track_ids[y] {
            crate::key_generator::Key::lemma_id_determines_key(tracks[x].key, tracks[y].key);
        }
    }
    // Every clip key of the state is in use.
    assert(clip_ids.to_set().subset_of(tl.clip_keys())) by {
        assert forall|k: u32| clip_ids.to_set().contains(k) implies tl.clip_keys().contains(k) by {
            let p = choose|p: int| 0 <= p < clip_ids.len() && clip_ids[p] == k;
            assert(on_first_tracks(tl, tracks, n, clip_ids[p]));
            let a = choose|a: int| 0 <= a < n && #[trigger] tl.clips_of(tracks[a].key.0).contains_key(clip_ids[p]);
            assert(tl.tracks().contains_key(tracks[a].key.0));
        }
    }
    clip_ids.unique_seq_to_set();
    vstd::set_lib::lemma_len_subset(clip_ids.to_set(), tl.clip_keys());
    // Every clip of the state can be put back.
    assert forall|a: int, j: int| 0 <= a < n && 0 <= j < tracks[a].clips@.len() implies {
        let c = #[trigger] tracks[a].clips@[j];
        &&& tl.store().clips().contains_key(c.inner.0)
        &&& clip_end(clip_from_state(c, tl.store().clips()[c.inner.0], tl.sample_rate_spec()), st.bpm_cents) <= u32::MAX
    } by {
        tl.lemma_described_clips(tracks[a]);
        assert(tl.state_fits(tracks[a].clips@[j]));
    }
    // Every clip key on a track is one of the state's, at a known place.
    assert forall|k: u32| #[trigger] tl.clip_located(k) implies exists|a: int, j: int|
        0 <= a < n && 0 <= j < tracks[a].clips@.len() && tracks[a].clips@[j].key.0 == k && clip_ids.contains(k) by {
        let t = tl.clip_to_track()[k].0;
        let a = choose|a: int| 0 <= a < n && #[trigger] tracks[a].key.0 == t;
        assert(tl.describes_track(tracks[a]));
        assert(tl.clips_of(tracks[a].key.0).contains_key(k));
        let j = choose|j: int| 0 <= j < tracks[a].clips@.len() && #[trigger] tracks[a].clips@[j].key.0 == k;
        lemma_all_clip_keys_prefix(tracks, a + 1);
        lemma_all_clip_keys_step(tracks, a);
        let p = all_clip_keys(tracks.take(a)).len() + j;
        assert(all_clip_keys(tracks.take(a + 1))[p] == tracks[a].clips@[j].key);
        assert(all[p] == tracks[a].clips@[j].key);
        assert(clip_ids[p] == k);
    }
    if rebuilt_from_state(tl2, st, tl.sample_rate_spec(), tl.store()) {
        tl2.lemma_wf();
        assert forall|x: u32| track_ids.to_set().contains(x) <==> tl.tracks().contains_key(x) by {
            if track_ids.to_set().contains(x) {
                let i = choose|i: int| 0 <= i < track_ids.len() && track_ids[i] == x;
                assert(tl.describes_track(tracks[i]));
            }
            if tl.tracks().contains_key(x) {
                let i = choose|i: int| 0 <= i < n && #[trigger] tracks[i].key.0 == x;
                assert(track_ids[i] == x);
            }
        }
        assert(tl2.tracks().dom() =~= tl.tracks().dom());
        assert(tl2.track_keys() =~= tl.track_keys());
        assert forall|t: u32| #[trigger] tl.tracks().contains_key(t) implies tl2.clips_of(t) == tl.clips_of(t)
            && tl2.tracks()[t].output_track == tl.tracks()[t].output_track by {
            let i = choose|i: int| 0 <= i < n && #[trigger] tracks[i].key.0 == t;
            tl.lemma_described_clips(tracks[i]);
            assert(tl2.batch_prefix(tracks[i].clips@, tracks[i].clips@.len() as int) == tl.batch_prefix(
                tracks[i].clips@,
                tracks[i].clips@.len() as int,
            ));
        }
        // Every clip key of the state is on a track.
        assert forall|k: u32| #[trigger] tl2.clip_keys().contains(k) <==> tl.clip_located(k) by {
            if tl2.clip_keys().contains(k) {
                let p = choose|p: int| 0 <= p < clip_ids.len() && clip_ids[p] == k;
                assert(on_first_tracks(tl, tracks, n, clip_ids[p]));
                let a = choose|a: int| 0 <= a < n && #[trigger] tl.clips_of(tracks[a].key.0).contains_key(clip_ids[p]);
                assert(tl.tracks().contains_key(tracks[a].key.0));
            }
            if tl.clip_located(k) {
                let a = choose|a: int, j: int|
                    0 <= a < n && 0 <= j < tracks[a].clips@.len() && tracks[a].clips@[j].key.0 == k && clip_ids.contains(k);
                assert(clip_ids.to_set().contains(k));
            }
        }
        assert forall|k: u32| #[trigger] tl.clip_located(k) implies tl2.clip_to_track()[k] == tl.clip_to_track()[k] by {
            let t = tl.clip_to_track()[k].0;
            let a = choose|a: int| 0 <= a < n && #[trigger] tracks[a].key.0 == t;
            assert(tl.describes_track(tracks[a]));
            assert(tl.clips_of(tracks[a].key.0).contains_key(k));
            let j = choose|j: int| 0 <= j < tracks[a].clips@.len() && #[trigger] tracks[a].clips@[j].key.0 == k;
            assert(tl2.clip_to_track()[tracks[a].clips@[j].key.0] == tracks[a].key);
            crate::key_generator::Key::lemma_id_determines_key(tl.clip_to_track()[k], tracks[a].key);
        }
        if forall|k: u32| #[trigger] tl.clip_keys().contains(k) ==> tl.clip_located(k) {
            assert(tl2.clip_keys() =~= tl.clip_keys());
            assert(tl2.clip_to_track() =~= tl.clip_to_track());
        }
    }
}

} // verus!
