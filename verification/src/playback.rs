//! What the audio thread keeps of one timeline track: its clips ordered by start, and which of
//! them is playing or plays next. The samples themselves are rendered by readers that the caller
//! owns; the functions here decide where each reader has to jump and how many frames it is asked
//! for.

use vstd::prelude::*;

use crate::clip_store::MAX_CLIP_FRAMES;
use crate::keys::{AudioClipKey, MixerTrackKey};
use crate::timestamp::{beat_units_ceil_of, lemma_samples_monotonic, rate_fits, samples_of, Timestamp};
use crate::timeline::AudioClipState;

verus! {

/// A clip as the audio thread plays it.
#[derive(Debug, Clone, Copy, PartialEq, Eq, Structural)]
pub struct AudioClipProcessor {
    /// The clip on the timeline whose samples this plays.
    pub key: AudioClipKey,
    /// Start on the timeline.
    pub start: Timestamp,
    /// Duration on the timeline; `None` plays the stored clip till its end.
    pub length: Option<Timestamp>,
    /// Where in the stored clip playing starts, in frames at the output sample rate.
    pub start_offset: u64,
    /// Length of the stored clip in frames at the output sample rate.
    pub source_frames: u64,
}

/// The length of a clip on the timeline, in beat units: its own, or what is left of the stored clip
/// after its start offset, rounded up to whole beat units.
pub open spec fn proc_length(c: AudioClipProcessor, sample_rate: u32, bpm_cents: u16) -> int {
    match c.length {
        Some(l) => l@ as int,
        None => (beat_units_ceil_of(
            c.source_frames - c.start_offset,
            sample_rate as int,
            bpm_cents as int,
        ) as u32) as int,
    }
}

/// Where a clip ends on the timeline, in beat units.
pub open spec fn proc_end(c: AudioClipProcessor, sample_rate: u32, bpm_cents: u16) -> int {
    c.start@ + proc_length(c, sample_rate, bpm_cents)
}

/// The clip's numbers stay in the ranges where its arithmetic cannot overflow: a clip that plays
/// till the end of its stored clip starts inside it, and the end fits a timestamp.
pub open spec fn proc_fits(c: AudioClipProcessor, sample_rate: u32, bpm_cents: u16) -> bool {
    &&& c.source_frames <= MAX_CLIP_FRAMES
    &&& c.length is None ==> c.start_offset <= c.source_frames
    &&& proc_end(c, sample_rate, bpm_cents) <= u32::MAX
}

/// The frames that a clip plays, at the output sample rate.
pub open spec fn proc_length_samples(c: AudioClipProcessor, sample_rate: u32, bpm_cents: u16) -> int {
    match c.length {
        None => c.source_frames - c.start_offset,
        Some(l) => samples_of(l@ as int, sample_rate as int, bpm_cents as int),
    }
}

/// The frame of the stored clip that plays at `position`: as far into the clip as the position is
/// past its start (nothing when it is before), after the start offset, and never past the end of
/// the stored clip.
pub open spec fn jump_target(c: AudioClipProcessor, position: Timestamp, sample_rate: u32, bpm_cents: u16) -> int {
    let pos = samples_of(position@ as int, sample_rate as int, bpm_cents as int);
    let start = samples_of(c.start@ as int, sample_rate as int, bpm_cents as int);
    let into = if pos >= start { pos - start } else { 0 };
    if into + c.start_offset <= c.source_frames {
        into + c.start_offset
    } else {
        c.source_frames as int
    }
}

/// The sample rate and tempo at which timestamps of the whole timeline convert to samples
/// inside 64-bit arithmetic (see [`rate_fits`]).
pub open spec fn rate_ok(sample_rate: u32, bpm_cents: u16) -> bool {
    rate_fits(sample_rate as int, bpm_cents as int)
}

/// How many clips at the front of `clips` start at or before `position`: for clips ordered by
/// start, the index at which a clip starting at `position` goes after those starting with it.
pub open spec fn upper_bound(clips: Seq<AudioClipProcessor>, position: int) -> int
    decreases clips.len(),
{
    if clips.len() == 0 || clips[0].start@ > position {
        0
    } else {
        1 + upper_bound(clips.drop_first(), position)
    }
}

/// The index of the first clip that starts at `start`.
pub open spec fn first_with_start(clips: Seq<AudioClipProcessor>, start: u32) -> int
    decreases clips.len(),
{
    if clips.len() == 0 || clips[0].start@ == start {
        0
    } else {
        1 + first_with_start(clips.drop_first(), start)
    }
}

/// Some clip starts at `start`.
pub open spec fn has_start(clips: Seq<AudioClipProcessor>, start: u32) -> bool {
    exists|i: int| 0 <= i < clips.len() && #[trigger] clips[i].start@ == start
}

/// The clips are ordered by start.
pub open spec fn sorted_by_start(clips: Seq<AudioClipProcessor>) -> bool {
    forall|i: int, j: int| 0 <= i <= j < clips.len() ==> #[trigger] clips[i].start@ <= #[trigger] clips[j].start@
}

/// The clip that is relevant at `position`: the last one that starts at or before it, if that one
/// has not ended by then; otherwise the one after it (or the first clip, when none has started).
/// The index equals the number of clips when none is left to play.
pub open spec fn relevant_at(clips: Seq<AudioClipProcessor>, position: int, sample_rate: u32, bpm_cents: u16) -> int {
    let ub = upper_bound(clips, position);
    if ub == 0 {
        0
    } else if proc_end(clips[ub - 1], sample_rate, bpm_cents) <= position {
        ub
    } else {
        ub - 1
    }
}

/// A cursor over `len` clips moved one step back; index `len` stands for no clip, and moving back
/// from the first clip leaves none, moving back from none reaches the last.
pub open spec fn move_prev(cursor: int, len: int) -> int {
    if cursor == 0 {
        len
    } else {
        cursor - 1
    }
}

/// A cursor over `len` clips moved one step on; from no clip it reaches the first, from the last it
/// leaves none.
pub open spec fn move_next(cursor: int, len: int) -> int {
    if cursor == len {
        0
    } else {
        cursor + 1
    }
}

/// Where the cursor that stood at `cursor` among `clips` stands once a clip is inserted at `at`:
/// on the same clip, or on none.
pub open spec fn cursor_after_insert(cursor: int, len: int, at: int) -> int {
    if cursor == len {
        len + 1
    } else if at <= cursor {
        cursor + 1
    } else {
        cursor
    }
}

/// Where the cursor that stood at `cursor` among `len` clips stands once the clip at `at` is
/// removed, the cursor not being on it.
pub open spec fn cursor_after_remove(cursor: int, len: int, at: int) -> int {
    if cursor == len {
        len - 1
    } else if at < cursor {
        cursor - 1
    } else {
        cursor
    }
}

/// The jump that a reader has to make: the key of the clip it plays, and the frame to go to.
pub open spec fn jump_of(
    clips: Seq<AudioClipProcessor>,
    i: int,
    position: Timestamp,
    sample_rate: u32,
    bpm_cents: u16,
) -> Option<(AudioClipKey, u64)> {
    if 0 <= i < clips.len() {
        Some((clips[i].key, jump_target(clips[i], position, sample_rate, bpm_cents) as u64))
    } else {
        None
    }
}

/// Characterises [`upper_bound`]: every clip before `i` starts at or before `position`, and the clip
/// at `i`, if any, after it.
pub proof fn lemma_upper_bound(clips: Seq<AudioClipProcessor>, position: int, i: int)
    requires
        0 <= i <= clips.len(),
        forall|j: int| 0 <= j < i ==> #[trigger] clips[j].start@ <= position,
        i < clips.len() ==> clips[i].start@ > position,
    ensures
        upper_bound(clips, position) == i,
    decreases i,
{
    if i > 0 {
        assert(clips[0].start@ <= position);
        let rest = clips.drop_first();
        assert forall|j: int| 0 <= j < i - 1 implies #[trigger] rest[j].start@ <= position by {
            assert(rest[j] == clips[j + 1]);
        }
        if i - 1 < rest.len() {
            assert(rest[i - 1] == clips[i]);
        }
        lemma_upper_bound(rest, position, i - 1);
    }
}

/// On clips ordered by start, every clip before [`upper_bound`] starts at or before `position`,
/// and every clip from it on after.
pub proof fn lemma_upper_bound_sorted(clips: Seq<AudioClipProcessor>, position: int)
    requires
        sorted_by_start(clips),
    ensures
        0 <= upper_bound(clips, position) <= clips.len(),
        forall|j: int| 0 <= j < upper_bound(clips, position) ==> #[trigger] clips[j].start@ <= position,
        forall|j: int| upper_bound(clips, position) <= j < clips.len() ==> #[trigger] clips[j].start@ > position,
    decreases clips.len(),
{
    if clips.len() > 0 && clips[0].start@ <= position {
        let rest = clips.drop_first();
        assert(sorted_by_start(rest)) by {
            assert forall|i: int, j: int| 0 <= i <= j < rest.len() implies #[trigger] rest[i].start@ <= #[trigger] rest[j].start@ by {
                assert(rest[i] == clips[i + 1] && rest[j] == clips[j + 1]);
            }
        }
        lemma_upper_bound_sorted(rest, position);
        let u = upper_bound(clips, position);
        assert forall|j: int| 0 <= j < u implies #[trigger] clips[j].start@ <= position by {
            if j > 0 {
                assert(clips[j] == rest[j - 1]);
            }
        }
        assert forall|j: int| u <= j < clips.len() implies #[trigger] clips[j].start@ > position by {
            assert(clips[j] == rest[j - 1]);
        }
    } else if clips.len() > 0 {
        assert forall|j: int| 0 <= j < clips.len() implies #[trigger] clips[j].start@ > position by {
            assert(clips[0].start@ <= clips[j].start@);
        }
    }
}

/// Inserting a clip after every clip that starts at or before it keeps the clips ordered by start.
pub proof fn lemma_insert_sorted(clips: Seq<AudioClipProcessor>, c: AudioClipProcessor)
    requires
        sorted_by_start(clips),
    ensures
        sorted_by_start(clips.insert(upper_bound(clips, c.start@ as int), c)),
{
    lemma_upper_bound_sorted(clips, c.start@ as int);
    let at = upper_bound(clips, c.start@ as int);
    let s = clips.insert(at, c);
    assert forall|i: int, j: int| 0 <= i <= j < s.len() implies #[trigger] s[i].start@ <= #[trigger] s[j].start@ by {
        if i < at {
            assert(s[i] == clips[i]);
        } else if i > at {
            assert(s[i] == clips[i - 1]);
        }
        if j < at {
            assert(s[j] == clips[j]);
        } else if j > at {
            assert(s[j] == clips[j - 1]);
        }
    }
}

/// Removing a clip keeps the clips ordered by start.
pub proof fn lemma_remove_sorted(clips: Seq<AudioClipProcessor>, at: int)
    requires
        sorted_by_start(clips),
        0 <= at < clips.len(),
    ensures
        sorted_by_start(clips.remove(at)),
{
    let s = clips.remove(at);
    assert forall|i: int, j: int| 0 <= i <= j < s.len() implies #[trigger] s[i].start@ <= #[trigger] s[j].start@ by {
        let i0 = if i < at { i } else { i + 1 };
        let j0 = if j < at { j } else { j + 1 };
        assert(s[i] == clips[i0] && s[j] == clips[j0]);
    }
}

/// Giving the clip at `at` a start between those of its neighbours keeps the clips ordered by start.
pub proof fn lemma_update_sorted(clips: Seq<AudioClipProcessor>, at: int, c: AudioClipProcessor)
    requires
        sorted_by_start(clips),
        0 <= at < clips.len(),
        at > 0 ==> clips[at - 1].start@ <= c.start@,
        at + 1 < clips.len() ==> c.start@ <= clips[at + 1].start@,
    ensures
        sorted_by_start(clips.update(at, c)),
{
    let s = clips.update(at, c);
    assert forall|i: int, j: int| 0 <= i <= j < s.len() implies #[trigger] s[i].start@ <= #[trigger] s[j].start@ by {
        if i == at && j > at {
            assert(clips[at + 1].start@ <= clips[j].start@);
        } else if j == at && i < at {
            assert(clips[i].start@ <= clips[at - 1].start@);
        }
    }
}

/// Every clip ends where the next one starts or before: no two clips overlap.
pub open spec fn spaced(clips: Seq<AudioClipProcessor>, sample_rate: u32, bpm_cents: u16) -> bool {
    forall|i: int, j: int|
        0 <= i < j < clips.len() ==> proc_end(#[trigger] clips[i], sample_rate, bpm_cents) <= #[trigger] clips[j].start@
}

/// `i` is the first clip that has not ended at `position`, or the number of clips when all have.
pub open spec fn first_unfinished(clips: Seq<AudioClipProcessor>, position: int, sample_rate: u32, bpm_cents: u16, i: int) -> bool {
    &&& 0 <= i <= clips.len()
    &&& forall|j: int| 0 <= j < i ==> proc_end(#[trigger] clips[j], sample_rate, bpm_cents) <= position
    &&& i < clips.len() ==> proc_end(clips[i], sample_rate, bpm_cents) > position
}

/// On ordered clips that do not overlap, the clip relevant at a position is the one playing there
/// or, if none is, the next to play; none is left when every clip has ended.
pub proof fn lemma_relevant_is_first_unfinished(
    clips: Seq<AudioClipProcessor>,
    position: int,
    sample_rate: u32,
    bpm_cents: u16,
)
    requires
        sorted_by_start(clips),
        spaced(clips, sample_rate, bpm_cents),
    ensures
        first_unfinished(clips, position, sample_rate, bpm_cents, relevant_at(clips, position, sample_rate, bpm_cents)),
{
    lemma_upper_bound_sorted(clips, position);
    let ub = upper_bound(clips, position);
    let r = relevant_at(clips, position, sample_rate, bpm_cents);
    if r < clips.len() {
        assert(proc_end(clips[r], sample_rate, bpm_cents) > position) by {
            if r >= ub {
                assert(clips[r].start@ > position);
            }
        }
    }
    assert forall|j: int| 0 <= j < r implies proc_end(#[trigger] clips[j], sample_rate, bpm_cents) <= position by {
        if j < ub - 1 {
            assert(proc_end(clips[j], sample_rate, bpm_cents) <= clips[ub - 1].start@);
            assert(clips[ub - 1].start@ <= position);
        }
    }
}

/// The first clip that starts at `start` is one of the clips, when one is.
pub proof fn lemma_first_with_start_bounds(clips: Seq<AudioClipProcessor>, start: u32, k: int)
    requires
        0 <= k < clips.len(),
        clips[k].start@ == start,
    ensures
        0 <= first_with_start(clips, start) <= k,
        clips[first_with_start(clips, start)].start@ == start,
        forall|j: int| 0 <= j < first_with_start(clips, start) ==> #[trigger] clips[j].start@ != start,
    decreases k,
{
    if clips[0].start@ != start {
        let rest = clips.drop_first();
        assert(rest[k - 1] == clips[k]);
        lemma_first_with_start_bounds(rest, start, k - 1);
        assert forall|j: int| 0 <= j < first_with_start(clips, start) implies #[trigger] clips[j].start@ != start by {
            if j > 0 {
                assert(clips[j] == rest[j - 1]);
            }
        }
    }
}

/// Characterises [`first_with_start`]: the clip at `i` starts at `start`, and none before it does.
pub proof fn lemma_first_with_start(clips: Seq<AudioClipProcessor>, start: u32, i: int)
    requires
        0 <= i < clips.len(),
        clips[i].start@ == start,
        forall|j: int| 0 <= j < i ==> #[trigger] clips[j].start@ != start,
    ensures
        first_with_start(clips, start) == i,
    decreases i,
{
    if i > 0 {
        assert(clips[0].start@ != start);
        let rest = clips.drop_first();
        assert forall|j: int| 0 <= j < i - 1 implies #[trigger] rest[j].start@ != start by {
            assert(rest[j] == clips[j + 1]);
        }
        assert(rest[i - 1] == clips[i]);
        lemma_first_with_start(rest, start, i - 1);
    }
}

impl AudioClipProcessor {
    /// A clip with the given place on the timeline, playing a stored clip of `source_frames` frames.
    pub fn new(
        key: AudioClipKey,
        start: Timestamp,
        length: Option<Timestamp>,
        start_offset: u64,
        source_frames: u64,
    ) -> (c: Self)
        ensures
            c == (AudioClipProcessor { key, start, length, start_offset, source_frames }),
    {
        AudioClipProcessor { key, start, length, start_offset, source_frames }
    }

    /// The clip that a persistent state describes, playing a stored clip of `source_frames` frames.
    pub fn from_state(state: &AudioClipState, source_frames: u64) -> (c: Self)
        ensures
            c == (AudioClipProcessor {
                key: state.key,
                start: state.start,
                length: state.length,
                start_offset: state.start_offset,
                source_frames,
            }),
    {
        AudioClipProcessor {
            key: state.key,
            start: state.start,
            length: state.length,
            start_offset: state.start_offset,
            source_frames,
        }
    }

    /// Where the clip ends on the timeline.
    pub fn end(&self, sample_rate: u32, bpm_cents: u16) -> (r: Timestamp)
        requires
            rate_ok(sample_rate, bpm_cents),
            proc_fits(*self, sample_rate, bpm_cents),
        ensures
            r@ == proc_end(*self, sample_rate, bpm_cents),
    {
        match self.length {
            Some(length) => Timestamp::from_beat_units(self.start.beat_units + length.beat_units),
            None => {
                let frames = self.source_frames - self.start_offset;
                let length = Timestamp::from_samples_ceil(frames, sample_rate, bpm_cents);
                Timestamp::from_beat_units(self.start.beat_units + length.beat_units)
            },
        }
    }

    /// The frame of the stored clip at which playing starts: where a reset puts the reader.
    pub fn reset_target(&self) -> (r: u64)
        ensures
            r == self.start_offset,
    {
        self.start_offset
    }

    /// The frame of the stored clip that plays at `position` (see [`jump_target`]): where a jump
    /// puts the reader.
    pub fn jump_to(&self, position: Timestamp, sample_rate: u32, bpm_cents: u16) -> (r: u64)
        requires
            rate_ok(sample_rate, bpm_cents),
        ensures
            r == jump_target(*self, position, sample_rate, bpm_cents),
    {
        proof {
            lemma_timestamp_samples_fit(position, sample_rate, bpm_cents);
            lemma_timestamp_samples_fit(self.start, sample_rate, bpm_cents);
        }
        let pos = position.samples(sample_rate, bpm_cents);
        let start = self.start.samples(sample_rate, bpm_cents);
        let into = if pos >= start { pos - start } else { 0 };
        if self.start_offset <= self.source_frames && into <= self.source_frames - self.start_offset {
            into + self.start_offset
        } else {
            self.source_frames
        }
    }

    /// The frames that the clip plays.
    pub fn length_samples(&self, sample_rate: u32, bpm_cents: u16) -> (r: u64)
        requires
            rate_ok(sample_rate, bpm_cents),
            proc_fits(*self, sample_rate, bpm_cents),
        ensures
            r == proc_length_samples(*self, sample_rate, bpm_cents),
    {
        match self.length {
            None => self.source_frames - self.start_offset,
            Some(length) => {
                proof {
                    lemma_timestamp_samples_fit(length, sample_rate, bpm_cents);
                }
                length.samples(sample_rate, bpm_cents)
            },
        }
    }

    /// How many of `buffer_size` requested frames the clip gives when its reader stands at
    /// `reader_position`: no more than are left of it.
    pub fn output_frames(&self, sample_rate: u32, bpm_cents: u16, buffer_size: u64, reader_position: u64) -> (r: u64)
        requires
            rate_ok(sample_rate, bpm_cents),
            proc_fits(*self, sample_rate, bpm_cents),
        ensures
            r == (if proc_length_samples(*self, sample_rate, bpm_cents) - reader_position <= buffer_size {
                if reader_position <= proc_length_samples(*self, sample_rate, bpm_cents) {
                    proc_length_samples(*self, sample_rate, bpm_cents) - reader_position
                } else {
                    0
                }
            } else {
                buffer_size as int
            }),
    {
        let length = self.length_samples(sample_rate, bpm_cents);
        let remaining = if length >= reader_position { length - reader_position } else { 0 };
        if remaining <= buffer_size {
            remaining
        } else {
            buffer_size
        }
    }
}

/// The index at which a clip starting at `position` goes: after every clip that starts at or
/// before it.
fn find_upper_bound(clips: &Vec<AudioClipProcessor>, position: u32) -> (r: usize)
    requires
        sorted_by_start(clips@),
    ensures
        r == upper_bound(clips@, position as int),
{
    let mut i: usize = 0;
    while i < clips.len() && clips[i].start.beat_units <= position
        invariant
            i <= clips.len(),
            forall|j: int| 0 <= j < i ==> #[trigger] clips@[j].start@ <= position,
        decreases clips.len() - i,
    {
        i = i + 1;
    }
    proof {
        lemma_upper_bound(clips@, position as int, i as int);
    }
    i
}

/// The index of the first clip that starts at `start`.
fn find_start(clips: &Vec<AudioClipProcessor>, start: u32) -> (r: usize)
    requires
        has_start(clips@, start),
    ensures
        r == first_with_start(clips@, start),
        r < clips.len(),
        clips@[r as int].start@ == start,
{
    let mut i: usize = 0;
    while i < clips.len() && clips[i].start.beat_units != start
        invariant
            i <= clips.len(),
            forall|j: int| 0 <= j < i ==> #[trigger] clips@[j].start@ != start,
        decreases clips.len() - i,
    {
        i = i + 1;
    }
    proof {
        if i == clips.len() {
            let k = choose|k: int| 0 <= k < clips@.len() && #[trigger] clips@[k].start@ == start;
            assert(clips@[k].start@ != start);
        }
        lemma_first_with_start(clips@, start, i as int);
    }
    i
}

/// What a track's buffer gets next.
#[derive(Debug, Clone, Copy, PartialEq, Eq, Structural)]
pub enum OutputPlan {
    /// No clip is left to play: the rest of the buffer is silent.
    Silence,
    /// Silence up to frame `zeros_until` of the buffer, then up to `requested` frames of `clip`.
    Play { zeros_until: u64, clip: AudioClipProcessor, requested: u64 },
}

/// `new` is `old` once `clip` is inserted at `position`: the clip goes after those that start at
/// or before it; the cursor stays on its clip, or goes back one step when the new clip is more
/// relevant: it ends after `position`, and before the relevant clip starts (if there is one).
pub open spec fn clip_inserted(
    old: &TimelineTrackProcessor,
    new: &TimelineTrackProcessor,
    clip: AudioClipProcessor,
    position: Timestamp,
) -> bool {
    let s = old.clips_spec();
    let len = s.len() as int;
    let cursor = old.relevant_spec();
    let end = proc_end(clip, old.sample_rate_spec(), old.bpm_spec());
    let at = upper_bound(s, clip.start@ as int);
    let more_relevant = position@ < end && (cursor < len ==> end <= s[cursor].start@);
    let moved = cursor_after_insert(cursor, len, at);
    &&& new.clips_spec() == s.insert(at, clip)
    &&& new.relevant_spec() == (if more_relevant { move_prev(moved, len + 1) } else { moved })
}

/// `new` is `old` once the end of the first clip that starts at `clip_start` is cropped to
/// `new_length` at `position`: when the clip now covers `position`, which it had ended before, the
/// cursor goes back one step; when the clip now ends before `position`, which it covered, the
/// cursor goes on one step.
pub open spec fn clip_end_cropped(
    old: &TimelineTrackProcessor,
    new: &TimelineTrackProcessor,
    clip_start: Timestamp,
    new_length: Timestamp,
    position: Timestamp,
) -> bool {
    let s = old.clips_spec();
    let len = s.len() as int;
    let at = first_with_start(s, clip_start@);
    let c = s[at];
    let old_end = proc_end(c, old.sample_rate_spec(), old.bpm_spec());
    let new_end = clip_start@ + new_length@;
    let pos = position@ as int;
    let back = c.start@ <= pos && old_end < pos && pos <= new_end;
    let on = c.start@ <= pos && new_end < pos && pos <= old_end;
    let cursor = old.relevant_spec();
    &&& new.clips_spec() == s.update(at, AudioClipProcessor { length: Some(new_length), ..c })
    &&& new.relevant_spec() == (if back {
        move_prev(cursor, len)
    } else if on {
        move_next(cursor, len)
    } else {
        cursor
    })
}

/// The audio thread's copy of a timeline track: its clips, ordered by start, and the cursor on
/// the clip that is playing or plays next.
pub struct TimelineTrackProcessor {
    sample_rate: u32,
    bpm_cents: u16,
    /// Ordered by start; of clips with equal starts, the one added last comes last.
    clips: Vec<AudioClipProcessor>,
    /// The clip that is either currently playing, or will be played next; `clips.len()` when the
    /// track is past its last clip.
    relevant: usize,
    output_track: MixerTrackKey,
}

impl TimelineTrackProcessor {
    /// The clips, ordered by start.
    pub closed spec fn clips_spec(&self) -> Seq<AudioClipProcessor> {
        self.clips@
    }

    /// The index of the relevant clip; the number of clips when there is none.
    pub closed spec fn relevant_spec(&self) -> int {
        self.relevant as int
    }

    pub closed spec fn sample_rate_spec(&self) -> u32 {
        self.sample_rate
    }

    pub closed spec fn bpm_spec(&self) -> u16 {
        self.bpm_cents
    }

    pub closed spec fn output_spec(&self) -> MixerTrackKey {
        self.output_track
    }

    /// The track is well formed: its rate converts timestamps safely, its clips are ordered by
    /// start and each fits, and the cursor is on a clip or past the last.
    pub open spec fn wf(&self) -> bool {
        &&& rate_ok(self.sample_rate_spec(), self.bpm_spec())
        &&& sorted_by_start(self.clips_spec())
        &&& forall|i: int| 0 <= i < self.clips_spec().len()
            ==> #[trigger] proc_fits(self.clips_spec()[i], self.sample_rate_spec(), self.bpm_spec())
        &&& 0 <= self.relevant_spec() <= self.clips_spec().len()
    }

    /// The settings are the same as those of `old`.
    pub open spec fn same_settings(&self, old: &Self) -> bool {
        &&& self.sample_rate_spec() == old.sample_rate_spec()
        &&& self.bpm_spec() == old.bpm_spec()
        &&& self.output_spec() == old.output_spec()
    }

    /// An empty track playing into `output`.
    pub fn new(output: MixerTrackKey, sample_rate: u32, bpm_cents: u16) -> (t: Self)
        requires
            rate_ok(sample_rate, bpm_cents),
        ensures
            t.wf(),
            t.clips_spec() == Seq::<AudioClipProcessor>::empty(),
            t.relevant_spec() == 0,
            t.sample_rate_spec() == sample_rate,
            t.bpm_spec() == bpm_cents,
            t.output_spec() == output,
    {
        TimelineTrackProcessor { sample_rate, bpm_cents, clips: Vec::new(), relevant: 0, output_track: output }
    }

    /// The mixer track this track plays into.
    pub fn output_track(&self) -> (r: MixerTrackKey)
        ensures
            r == self.output_spec(),
    {
        self.output_track
    }

    /// The number of clips.
    pub fn len(&self) -> (r: usize)
        ensures
            r == self.clips_spec().len(),
    {
        self.clips.len()
    }

    /// The clip at index `i`, in order of start.
    pub fn clip(&self, i: usize) -> (r: AudioClipProcessor)
        requires
            i < self.clips_spec().len(),
        ensures
            r == self.clips_spec()[i as int],
    {
        self.clips[i]
    }

    /// The clip that is playing or plays next, if any.
    pub fn relevant_clip(&self) -> (r: Option<AudioClipProcessor>)
        requires
            self.wf(),
        ensures
            r == (if self.relevant_spec() < self.clips_spec().len() {
                Some(self.clips_spec()[self.relevant_spec()])
            } else {
                None
            }),
    {
        if self.relevant < self.clips.len() {
            Some(self.clips[self.relevant])
        } else {
            None
        }
    }

    /// Moves the cursor to the clip that is relevant at `position` (see [`relevant_at`]).
    fn update_relevant_clip(&mut self, position: Timestamp)
        requires
            old(self).wf(),
        ensures
            final(self).wf(),
            final(self).same_settings(&*old(self)),
            final(self).clips_spec() == old(self).clips_spec(),
            final(self).relevant_spec() == relevant_at(
                old(self).clips_spec(),
                position@ as int,
                old(self).sample_rate_spec(),
                old(self).bpm_spec(),
            ),
    {
        let ub = find_upper_bound(&self.clips, position.beat_units);
        proof {
            lemma_upper_bound_sorted(self.clips@, position@ as int);
        }
        if ub == 0 {
            self.relevant = 0;
        } else if self.clips[ub - 1].end(self.sample_rate, self.bpm_cents).beat_units <= position.beat_units {
            self.relevant = ub;
        } else {
            self.relevant = ub - 1;
        }
    }

    /// Jumps to `position`: the cursor goes to the clip relevant there, and that clip's reader, if
    /// there is one, to the frame that plays there.
    pub fn jump(&mut self, position: Timestamp) -> (r: Option<(AudioClipKey, u64)>)
        requires
            old(self).wf(),
        ensures
            final(self).wf(),
            final(self).same_settings(&*old(self)),
            final(self).clips_spec() == old(self).clips_spec(),
            final(self).relevant_spec() == relevant_at(
                old(self).clips_spec(),
                position@ as int,
                old(self).sample_rate_spec(),
                old(self).bpm_spec(),
            ),
            r == jump_of(
                final(self).clips_spec(),
                final(self).relevant_spec(),
                position,
                old(self).sample_rate_spec(),
                old(self).bpm_spec(),
            ),
    {
        self.update_relevant_clip(position);
        self.relevant_jump(position)
    }

    /// The jump that the relevant clip's reader makes to `position`, if there is a relevant clip.
    fn relevant_jump(&self, position: Timestamp) -> (r: Option<(AudioClipKey, u64)>)
        requires
            self.wf(),
        ensures
            r == jump_of(self.clips_spec(), self.relevant_spec(), position, self.sample_rate_spec(), self.bpm_spec()),
    {
        if self.relevant < self.clips.len() {
            let c = self.clips[self.relevant];
            Some((c.key, c.jump_to(position, self.sample_rate, self.bpm_cents)))
        } else {
            None
        }
    }
    /// Adds a clip, after those that start at or before it. The cursor stays on its clip, or goes
    /// back one step when the new clip is more relevant: it ends after `position`, and before the
    /// relevant clip starts (if there is one). Gives the jump to `position` of the new clip's
    /// reader when the clip is playing there.
    pub fn insert_clip(&mut self, clip: AudioClipProcessor, position: Timestamp) -> (r: Option<(AudioClipKey, u64)>)
        requires
            old(self).wf(),
            proc_fits(clip, old(self).sample_rate_spec(), old(self).bpm_spec()),
            old(self).clips_spec().len() < usize::MAX,
        ensures
            final(self).wf(),
            final(self).same_settings(&*old(self)),
            clip_inserted(&*old(self), &*final(self), clip, position),
            r == (if clip.start@ <= position@ && position@ < proc_end(clip, old(self).sample_rate_spec(), old(self).bpm_spec()) {
                Some((clip.key, jump_target(clip, position, old(self).sample_rate_spec(), old(self).bpm_spec()) as u64))
            } else {
                None
            }),
    {
        let len = self.clips.len();
        let end = clip.end(self.sample_rate, self.bpm_cents);
        let more_relevant = if self.relevant < len {
            position.beat_units < end.beat_units && end.beat_units <= self.clips[self.relevant].start.beat_units
        } else {
            position.beat_units < end.beat_units
        };
        let jump = if clip.start.beat_units <= position.beat_units && position.beat_units < end.beat_units {
            Some((clip.key, clip.jump_to(position, self.sample_rate, self.bpm_cents)))
        } else {
            None
        };
        let at = find_upper_bound(&self.clips, clip.start.beat_units);
        proof {
            lemma_insert_sorted(self.clips@, clip);
            lemma_upper_bound_sorted(self.clips@, clip.start@ as int);
        }
        self.clips.insert(at, clip);
        let moved = if self.relevant == len {
            len + 1
        } else if at <= self.relevant {
            self.relevant + 1
        } else {
            self.relevant
        };
        self.relevant = if more_relevant {
            if moved == 0 {
                len + 1
            } else {
                moved - 1
            }
        } else {
            moved
        };
        proof {
            let s2 = self.clips@;
            assert forall|i: int| 0 <= i < s2.len() implies #[trigger] proc_fits(s2[i], self.sample_rate, self.bpm_cents) by {
                if i < at {
                    assert(s2[i] == old(self).clips@[i]);
                } else if i > at {
                    assert(s2[i] == old(self).clips@[i - 1]);
                }
            }
        }
        jump
    }

    /// Removes the first clip that starts at `clip_start`, and gives its key. The cursor goes to
    /// the last clip that starts at or before `position`, or to none when no clip does.
    pub fn delete_clip(&mut self, clip_start: Timestamp, position: Timestamp) -> (r: AudioClipKey)
        requires
            old(self).wf(),
            has_start(old(self).clips_spec(), clip_start@),
        ensures
            final(self).wf(),
            final(self).same_settings(&*old(self)),
            ({
                let s = old(self).clips_spec();
                let at = first_with_start(s, clip_start@);
                let rest = s.remove(at);
                let ub = upper_bound(rest, position@ as int);
                &&& final(self).clips_spec() == rest
                &&& r == s[at].key
                &&& final(self).relevant_spec() == (if ub == 0 { rest.len() as int } else { ub - 1 })
            }),
    {
        let at = find_start(&self.clips, clip_start.beat_units);
        proof {
            lemma_remove_sorted(self.clips@, at as int);
        }
        let removed = self.clips.remove(at);
        proof {
            let s2 = self.clips@;
            assert forall|i: int| 0 <= i < s2.len() implies #[trigger] proc_fits(s2[i], self.sample_rate, self.bpm_cents) by {
                if i < at {
                    assert(s2[i] == old(self).clips@[i]);
                } else {
                    assert(s2[i] == old(self).clips@[i + 1]);
                }
            }
            lemma_upper_bound_sorted(self.clips@, position@ as int);
        }
        let ub = find_upper_bound(&self.clips, position.beat_units);
        self.relevant = if ub == 0 { self.clips.len() } else { ub - 1 };
        removed.key
    }

    /// Crops the start of the first clip that starts at `old_start`: it starts at `new_start`, is
    /// `new_length` long, and plays its stored clip from `new_start_offset`. The cursor stays; when
    /// the relevant clip is the cropped one and the position is not past both its old and its new
    /// start, gives the jump to `position` of its reader.
    pub fn crop_clip_start(
        &mut self,
        old_start: Timestamp,
        new_start: Timestamp,
        new_length: Timestamp,
        new_start_offset: u64,
        position: Timestamp,
    ) -> (r: Option<(AudioClipKey, u64)>)
        requires
            old(self).wf(),
            has_start(old(self).clips_spec(), old_start@),
            new_start@ + new_length@ <= u32::MAX,
            ({
                let s = old(self).clips_spec();
                let at = first_with_start(s, old_start@);
                &&& at > 0 ==> s[at - 1].start@ <= new_start@
                &&& at + 1 < s.len() ==> new_start@ <= s[at + 1].start@
            }),
        ensures
            final(self).wf(),
            final(self).same_settings(&*old(self)),
            final(self).relevant_spec() == old(self).relevant_spec(),
            ({
                let s = old(self).clips_spec();
                let at = first_with_start(s, old_start@);
                let cropped = AudioClipProcessor {
                    start: new_start,
                    length: Some(new_length),
                    start_offset: new_start_offset,
                    ..s[at]
                };
                let s2 = s.update(at, cropped);
                let cursor = old(self).relevant_spec();
                &&& final(self).clips_spec() == s2
                &&& r == (if cursor < s2.len() && s2[cursor].start@ == new_start@ && (position@ <= old_start@
                    || position@ <= new_start@) {
                    jump_of(s2, cursor, position, old(self).sample_rate_spec(), old(self).bpm_spec())
                } else {
                    None
                })
            }),
    {
        let at = find_start(&self.clips, old_start.beat_units);
        let c = self.clips[at];
        let cropped = AudioClipProcessor {
            start: new_start,
            length: Some(new_length),
            start_offset: new_start_offset,
            ..c
        };
        proof {
            lemma_update_sorted(self.clips@, at as int, cropped);
        }
        self.clips.set(at, cropped);
        proof {
            let s2 = self.clips@;
            assert forall|i: int| 0 <= i < s2.len() implies #[trigger] proc_fits(s2[i], self.sample_rate, self.bpm_cents) by {
                if i != at {
                    assert(s2[i] == old(self).clips@[i]);
                } else {
                    assert(proc_fits(old(self).clips@[i], self.sample_rate, self.bpm_cents));
                }
            }
        }
        if self.relevant < self.clips.len() && self.clips[self.relevant].start.beat_units == new_start.beat_units && (
        position.beat_units <= old_start.beat_units || position.beat_units <= new_start.beat_units) {
            self.relevant_jump(position)
        } else {
            None
        }
    }

    /// Crops the end of the first clip that starts at `clip_start` to `new_length`. When the clip
    /// now covers `position`, which it had ended before, the cursor goes back one step and the
    /// jump to `position` of the clip it lands on is given; when the clip now ends before
    /// `position`, which it covered, the cursor goes on one step.
    pub fn crop_clip_end(&mut self, clip_start: Timestamp, new_length: Timestamp, position: Timestamp) -> (r: Option<
        (AudioClipKey, u64),
    >)
        requires
            old(self).wf(),
            has_start(old(self).clips_spec(), clip_start@),
            clip_start@ + new_length@ <= u32::MAX,
        ensures
            final(self).wf(),
            final(self).same_settings(&*old(self)),
            clip_end_cropped(&*old(self), &*final(self), clip_start, new_length, position),
            ({
                let s = old(self).clips_spec();
                let c = s[first_with_start(s, clip_start@)];
                let pos = position@ as int;
                let back = c.start@ <= pos && proc_end(c, old(self).sample_rate_spec(), old(self).bpm_spec()) < pos
                    && pos <= clip_start@ + new_length@;
                r == (if back {
                    jump_of(
                        final(self).clips_spec(),
                        final(self).relevant_spec(),
                        position,
                        old(self).sample_rate_spec(),
                        old(self).bpm_spec(),
                    )
                } else {
                    None
                })
            }),
    {
        let at = find_start(&self.clips, clip_start.beat_units);
        let c = self.clips[at];
        let old_end = c.end(self.sample_rate, self.bpm_cents);
        let cropped = AudioClipProcessor { length: Some(new_length), ..c };
        proof {
            lemma_update_sorted(self.clips@, at as int, cropped);
        }
        self.clips.set(at, cropped);
        proof {
            let s2 = self.clips@;
            assert forall|i: int| 0 <= i < s2.len() implies #[trigger] proc_fits(s2[i], self.sample_rate, self.bpm_cents) by {
                if i != at {
                    assert(s2[i] == old(self).clips@[i]);
                } else {
                    assert(proc_fits(old(self).clips@[i], self.sample_rate, self.bpm_cents));
                }
            }
        }
        let start = c.start.beat_units;
        let new_end = start + new_length.beat_units;
        let pos = position.beat_units;
        let back = start <= pos && old_end.beat_units < pos && pos <= new_end;
        let on = start <= pos && new_end < pos && pos <= old_end.beat_units;
        let len = self.clips.len();
        if back {
            self.relevant = if self.relevant == 0 { len } else { self.relevant - 1 };
            self.relevant_jump(position)
        } else {
            if on {
                self.relevant = if self.relevant == len { 0 } else { self.relevant + 1 };
            }
            None
        }
    }

    /// Moves the first clip that starts at `old_start` to `new_start`, among the clips in order;
    /// the cursor stays on its clip. When that clip is the moved one, the cursor goes to the clip
    /// relevant at `position` if the moved clip has ended by then or the next clip starts before
    /// it; when it is another, the cursor goes back one step if the moved clip ends after
    /// `position` and before the relevant clip starts. Gives the jump to `position` of the reader
    /// of the clip the cursor then stands on, when it is the moved clip still relevant or the one
    /// it stepped back to.
    pub fn move_clip(&mut self, old_start: Timestamp, new_start: Timestamp, position: Timestamp) -> (r: Option<
        (AudioClipKey, u64),
    >)
        requires
            old(self).wf(),
            has_start(old(self).clips_spec(), old_start@),
            proc_end(
                AudioClipProcessor {
                    start: new_start,
                    ..old(self).clips_spec()[first_with_start(old(self).clips_spec(), old_start@)]
                },
                old(self).sample_rate_spec(),
                old(self).bpm_spec(),
            ) <= u32::MAX,
        ensures
            final(self).wf(),
            final(self).same_settings(&*old(self)),
            ({
                let s = old(self).clips_spec();
                let len = s.len() as int;
                let f = first_with_start(s, old_start@);
                let c = AudioClipProcessor { start: new_start, ..s[f] };
                let rest = s.remove(f);
                let at = upper_bound(rest, new_start@ as int);
                let s2 = rest.insert(at, c);
                let cursor = old(self).relevant_spec();
                let r1 = if cursor == f {
                    at
                } else {
                    cursor_after_insert(cursor_after_remove(cursor, len, f), len - 1, at)
                };
                let new_end = proc_end(c, old(self).sample_rate_spec(), old(self).bpm_spec());
                let pos = position@ as int;
                let was_relevant = r1 < len && s2[r1].start@ == new_start@;
                let next_starts_before = r1 + 1 < len && s2[r1 + 1].start@ < new_start@;
                let no_longer = new_end <= pos || next_starts_before;
                let has_become = pos < new_end && (r1 < len ==> new_end <= s2[r1].start@);
                let r2 = if was_relevant {
                    if no_longer {
                        relevant_at(s2, pos, old(self).sample_rate_spec(), old(self).bpm_spec())
                    } else {
                        r1
                    }
                } else if has_become {
                    move_prev(r1, len)
                } else {
                    r1
                };
                let is_relevant = if was_relevant { !no_longer } else { has_become };
                &&& final(self).clips_spec() == s2
                &&& final(self).relevant_spec() == r2
                &&& r == (if is_relevant {
                    jump_of(s2, r2, position, old(self).sample_rate_spec(), old(self).bpm_spec())
                } else {
                    None
                })
            }),
    {
        let f = find_start(&self.clips, old_start.beat_units);
        let len = self.clips.len();
        proof {
            lemma_remove_sorted(self.clips@, f as int);
        }
        let c = self.clips.remove(f);
        let moved = AudioClipProcessor { start: new_start, ..c };
        assert(proc_fits(old(self).clips@[f as int], self.sample_rate, self.bpm_cents));
        let new_end = moved.end(self.sample_rate, self.bpm_cents);
        let ghost rest = self.clips@;
        proof {
            lemma_insert_sorted(rest, moved);
            lemma_upper_bound_sorted(rest, new_start@ as int);
        }
        let at = find_upper_bound(&self.clips, new_start.beat_units);
        self.clips.insert(at, moved);
        proof {
            let s2 = self.clips@;
            assert forall|i: int| 0 <= i < s2.len() implies #[trigger] proc_fits(s2[i], self.sample_rate, self.bpm_cents) by {
                if i < at {
                    assert(s2[i] == rest[i]);
                } else if i > at {
                    assert(s2[i] == rest[i - 1]);
                }
                if i != at {
                    let k = if i < at { i } else { i - 1 };
                    if k < f {
                        assert(rest[k] == old(self).clips@[k]);
                    } else {
                        assert(rest[k] == old(self).clips@[k + 1]);
                    }
                }
            }
        }
        let r1 = if self.relevant == f {
            at
        } else {
            let in_rest = if self.relevant == len {
                len - 1
            } else if f < self.relevant {
                self.relevant - 1
            } else {
                self.relevant
            };
            if in_rest == len - 1 {
                len
            } else if at <= in_rest {
                in_rest + 1
            } else {
                in_rest
            }
        };
        self.relevant = r1;
        let pos = position.beat_units;
        let was_relevant = r1 < len && self.clips[r1].start.beat_units == new_start.beat_units;
        let is_relevant = if was_relevant {
            let next_starts_before = r1 + 1 < len && self.clips[r1 + 1].start.beat_units < new_start.beat_units;
            let no_longer = new_end.beat_units <= pos || next_starts_before;
            if no_longer {
                self.update_relevant_clip(position);
            }
            !no_longer
        } else {
            let has_become = pos < new_end.beat_units && (r1 >= len || new_end.beat_units
                <= self.clips[r1].start.beat_units);
            if has_become {
                self.relevant = if r1 == 0 { len } else { r1 - 1 };
            }
            has_become
        };
        if is_relevant {
            self.relevant_jump(position)
        } else {
            None
        }
    }

    /// What the buffer gets next, `progress` frames into it, at `position` frames into the
    /// timeline: nothing but silence when no clip is left; otherwise silence until the relevant
    /// clip starts (within the buffer), then that clip for the rest of the buffer.
    pub fn output_plan(&self, position: u64, progress: u64, buffer_size: u64) -> (r: OutputPlan)
        requires
            self.wf(),
            progress <= buffer_size,
            position + buffer_size <= u64::MAX,
        ensures
            r == (if self.relevant_spec() < self.clips_spec().len() {
                let c = self.clips_spec()[self.relevant_spec()];
                let clip_start = samples_of(c.start@ as int, self.sample_rate_spec() as int, self.bpm_spec() as int);
                let zeros_until = if position + progress < clip_start {
                    if clip_start - position <= buffer_size {
                        clip_start - position
                    } else {
                        buffer_size as int
                    }
                } else {
                    progress as int
                };
                OutputPlan::Play { zeros_until: zeros_until as u64, clip: c, requested: (buffer_size - zeros_until) as u64 }
            } else {
                OutputPlan::Silence
            }),
    {
        if self.relevant < self.clips.len() {
            let c = self.clips[self.relevant];
            proof {
                lemma_timestamp_samples_fit(c.start, self.sample_rate, self.bpm_cents);
            }
            let clip_start = c.start.samples(self.sample_rate, self.bpm_cents);
            let zeros_until = if position + progress < clip_start {
                if clip_start - position <= buffer_size {
                    clip_start - position
                } else {
                    buffer_size
                }
            } else {
                progress
            };
            OutputPlan::Play { zeros_until, clip: c, requested: buffer_size - zeros_until }
        } else {
            OutputPlan::Silence
        }
    }

    /// After the relevant clip gave `output_samples` samples for `requested` frames: when that is
    /// fewer, the clip is done and the cursor goes on one step, giving the reset of the reader of
    /// the clip it lands on (to the clip's start offset).
    pub fn clip_output_done(&mut self, output_samples: u64, requested: u64) -> (r: Option<(AudioClipKey, u64)>)
        requires
            old(self).wf(),
        ensures
            final(self).wf(),
            final(self).same_settings(&*old(self)),
            final(self).clips_spec() == old(self).clips_spec(),
            ({
                let s = old(self).clips_spec();
                let cursor = old(self).relevant_spec();
                let moved = if output_samples < requested { move_next(cursor, s.len() as int) } else { cursor };
                &&& final(self).relevant_spec() == moved
                &&& r == (if output_samples < requested && moved < s.len() {
                    Some((s[moved].key, s[moved].start_offset))
                } else {
                    None
                })
            }),
    {
        if output_samples < requested {
            self.relevant = if self.relevant == self.clips.len() { 0 } else { self.relevant + 1 };
            if self.relevant < self.clips.len() {
                let c = self.clips[self.relevant];
                return Some((c.key, c.reset_target()));
            }
        }
        None
    }
}

/// At most one index is the first unfinished clip.
proof fn lemma_first_unfinished_unique(
    clips: Seq<AudioClipProcessor>,
    position: int,
    sample_rate: u32,
    bpm_cents: u16,
    i: int,
    k: int,
)
    requires
        first_unfinished(clips, position, sample_rate, bpm_cents, i),
        first_unfinished(clips, position, sample_rate, bpm_cents, k),
    ensures
        i == k,
{
    if i < k {
        assert(proc_end(clips[i], sample_rate, bpm_cents) <= position);
    } else if k < i {
        assert(proc_end(clips[k], sample_rate, bpm_cents) <= position);
    }
}

/// Adding a clip to a track whose cursor is on the clip relevant at `position` leaves the cursor on
/// the clip relevant there, when the clips, the new one among them, do not overlap; unless the new
/// clip is empty, has not ended at `position`, and starts where the relevant clip starts (the
/// cursor then goes back one clip too many).
pub proof fn lemma_insert_keeps_relevance(
    t0: TimelineTrackProcessor,
    t1: TimelineTrackProcessor,
    clip: AudioClipProcessor,
    position: Timestamp,
)
    requires
        t0.wf(),
        proc_fits(clip, t0.sample_rate_spec(), t0.bpm_spec()),
        t0.relevant_spec() == relevant_at(t0.clips_spec(), position@ as int, t0.sample_rate_spec(), t0.bpm_spec()),
        spaced(
            t0.clips_spec().insert(upper_bound(t0.clips_spec(), clip.start@ as int), clip),
            t0.sample_rate_spec(),
            t0.bpm_spec(),
        ),
        !(t0.relevant_spec() < t0.clips_spec().len() && t0.clips_spec()[t0.relevant_spec()].start@ == clip.start@
            && proc_length(clip, t0.sample_rate_spec(), t0.bpm_spec()) == 0 && position@ < proc_end(
            clip,
            t0.sample_rate_spec(),
            t0.bpm_spec(),
        )),
        clip_inserted(&t0, &t1, clip, position),
    ensures
        t1.relevant_spec() == relevant_at(t1.clips_spec(), position@ as int, t0.sample_rate_spec(), t0.bpm_spec()),
{
    let sr = t0.sample_rate_spec();
    let bpm = t0.bpm_spec();
    let s = t0.clips_spec();
    let len = s.len() as int;
    let p = position@ as int;
    let at = upper_bound(s, clip.start@ as int);
    let s2 = s.insert(at, clip);
    let u = t0.relevant_spec();
    let v = t1.relevant_spec();
    lemma_upper_bound_sorted(s, clip.start@ as int);
    lemma_insert_sorted(s, clip);
    assert(spaced(s, sr, bpm)) by {
        assert forall|i: int, j: int| 0 <= i < j < s.len() implies proc_end(#[trigger] s[i], sr, bpm) <= #[trigger] s[j].start@ by {
            let i2 = if i < at { i } else { i + 1 };
            let j2 = if j < at { j } else { j + 1 };
            assert(s2[i2] == s[i] && s2[j2] == s[j]);
        }
    }
    lemma_relevant_is_first_unfinished(s, p, sr, bpm);
    lemma_relevant_is_first_unfinished(s2, p, sr, bpm);
    let end = proc_end(clip, sr, bpm);
    assert(s2[at] == clip);
    assert forall|j: int| 0 <= j < at implies #[trigger] s2[j] == s[j] by {}
    assert forall|j: int| at < j < s2.len() implies #[trigger] s2[j] == s[j - 1] by {}
    if end > p {
        if u == len {
            if at < len {
                assert(end <= s2[at + 1].start@);
                assert(proc_end(s[at], sr, bpm) <= p);
            }
        } else if at <= u {
            assert(end <= s2[u + 1].start@);
            if at < u {
                assert(end <= s2[at + 1].start@);
                assert(proc_end(s[at], sr, bpm) <= p);
            }
        } else {
            assert(s[u].start@ <= clip.start@);
        }
    }
    assert(first_unfinished(s2, p, sr, bpm, v));
    lemma_first_unfinished_unique(s2, p, sr, bpm, v, relevant_at(s2, p, sr, bpm));
}

/// Cropping the end of a clip on a track whose cursor is on the clip relevant at `position` leaves
/// the cursor on the clip relevant there, when the clips do not overlap before or after; unless
/// the clip's end moves and `position` is its old or its new end (the cursor then stands one clip
/// off).
pub proof fn lemma_crop_end_keeps_relevance(
    t0: TimelineTrackProcessor,
    t1: TimelineTrackProcessor,
    clip_start: Timestamp,
    new_length: Timestamp,
    position: Timestamp,
)
    requires
        t0.wf(),
        has_start(t0.clips_spec(), clip_start@),
        t0.relevant_spec() == relevant_at(t0.clips_spec(), position@ as int, t0.sample_rate_spec(), t0.bpm_spec()),
        spaced(t0.clips_spec(), t0.sample_rate_spec(), t0.bpm_spec()),
        spaced(t1.clips_spec(), t0.sample_rate_spec(), t0.bpm_spec()),
        ({
            let old_end = proc_end(
                t0.clips_spec()[first_with_start(t0.clips_spec(), clip_start@)],
                t0.sample_rate_spec(),
                t0.bpm_spec(),
            );
            let new_end = clip_start@ + new_length@;
            !(old_end != new_end && (position@ == old_end || position@ == new_end))
        }),
        clip_end_cropped(&t0, &t1, clip_start, new_length, position),
    ensures
        t1.relevant_spec() == relevant_at(t1.clips_spec(), position@ as int, t0.sample_rate_spec(), t0.bpm_spec()),
{
    let sr = t0.sample_rate_spec();
    let bpm = t0.bpm_spec();
    let s = t0.clips_spec();
    let len = s.len() as int;
    let p = position@ as int;
    let f = first_with_start(s, clip_start@);
    let k = choose|k: int| 0 <= k < s.len() && #[trigger] s[k].start@ == clip_start@;
    lemma_first_with_start_bounds(s, clip_start@, k);
    let c = s[f];
    let s2 = t1.clips_spec();
    let u = t0.relevant_spec();
    let v = t1.relevant_spec();
    assert(sorted_by_start(s2)) by {
        assert forall|i: int, j: int| 0 <= i <= j < s2.len() implies #[trigger] s2[i].start@ <= #[trigger] s2[j].start@ by {
            assert(s[i].start@ <= s[j].start@);
        }
    }
    lemma_relevant_is_first_unfinished(s, p, sr, bpm);
    lemma_relevant_is_first_unfinished(s2, p, sr, bpm);
    assert forall|j: int| 0 <= j < s.len() && j != f implies #[trigger] s2[j] == s[j] by {}
    assert(proc_end(s2[f], sr, bpm) == clip_start@ + new_length@);
    if f + 1 < len {
        assert(proc_end(s[f], sr, bpm) <= s[f + 1].start@);
        assert(proc_end(s2[f], sr, bpm) <= s2[f + 1].start@);
    }
    if c.start@ <= p {
        assert forall|j: int| 0 <= j < f implies proc_end(#[trigger] s[j], sr, bpm) <= p by {
            assert(proc_end(s[j], sr, bpm) <= s[f].start@);
        }
    }
    assert(first_unfinished(s2, p, sr, bpm, v));
    lemma_first_unfinished_unique(s2, p, sr, bpm, v, relevant_at(s2, p, sr, bpm));
}

/// Where the reader of a stored clip of `len` frames stands after a jump to `frame`: there, or at
/// the end of the stored clip if `frame` is past it.
pub fn reader_jump(frame: u64, len: u64) -> (r: u64)
    ensures
        r == (if frame <= len { frame } else { len }),
{
    if frame <= len {
        frame
    } else {
        len
    }
}

/// How many frames the reader of a stored clip of `len` frames, standing at `position`, copies when
/// asked for `requested` frames with room for `room`: the least of the three.
pub fn frames_to_read(requested: u64, len: u64, position: u64, room: u64) -> (r: u64)
    requires
        position <= len,
    ensures
        r <= requested,
        r <= len - position,
        r <= room,
        r == requested || r == len - position || r == room,
{
    let left = len - position;
    let n = if requested <= left {
        requested
    } else {
        left
    };
    if n <= room {
        n
    } else {
        room
    }
}

/// Any timestamp converts to samples inside 64-bit arithmetic at an accepted rate and tempo.
proof fn lemma_timestamp_samples_fit(t: Timestamp, sample_rate: u32, bpm_cents: u16)
    requires
        rate_ok(sample_rate, bpm_cents),
    ensures
        0 <= samples_of(t@ as int, sample_rate as int, bpm_cents as int) <= u64::MAX,
{
    lemma_samples_monotonic(t@ as int, 0xffff_ffff, sample_rate as int, bpm_cents as int);
}

} // verus!
