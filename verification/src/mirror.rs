//! How the audio thread's copy of a timeline track follows the track: each change that the
//! timeline makes to a track's clips, made in the same way to the copy, keeps the copy a mirror of
//! the track.

use vstd::prelude::*;

use crate::playback::{
    first_with_start, has_start, lemma_first_with_start_bounds, lemma_remove_sorted, lemma_upper_bound_sorted,
    sorted_by_start, upper_bound, AudioClipProcessor,
};
use crate::timeline::{apart, clip_length, clips_apart, cropped_start, AudioClip};
use crate::timestamp::Timestamp;

verus! {

/// The audio thread's clip `p` stands for the timeline clip `c`: it has its key, start and length.
pub open spec fn mirrors_clip(c: AudioClip, p: AudioClipProcessor) -> bool {
    &&& p.key == c.key
    &&& p.start == c.start
    &&& p.length == c.length
}

/// The audio thread's clips `procs` stand, one for one, for the clips of a timeline track: each
/// stands for the clip under its key, each clip of the track has one, and no key comes twice.
pub open spec fn mirrors(clips: Map<u32, AudioClip>, procs: Seq<AudioClipProcessor>) -> bool {
    &&& forall|i: int|
        0 <= i < procs.len() ==> clips.contains_key(#[trigger] procs[i].key.0) && mirrors_clip(clips[procs[i].key.0], procs[i])
    &&& forall|k: u32| #[trigger] clips.contains_key(k) ==> exists|i: int| 0 <= i < procs.len() && #[trigger] procs[i].key.0 == k
    &&& forall|i: int, j: int| 0 <= i < j < procs.len() ==> #[trigger] procs[i].key.0 != #[trigger] procs[j].key.0
}

/// No other clip of the track starts where clip `k` starts.
pub open spec fn start_unique(clips: Map<u32, AudioClip>, k: u32) -> bool {
    forall|j: u32| #[trigger] clips.contains_key(j) && j != k ==> clips[j].start@ != clips[k].start@
}

/// On a track whose clips do not overlap, no two clips share a start when none of them is empty.
pub proof fn lemma_apart_starts_unique(clips: Map<u32, AudioClip>, k: u32, bpm_cents: u16)
    requires
        clips_apart(clips, bpm_cents),
        clips.contains_key(k),
        forall|j: u32| #[trigger] clips.contains_key(j) ==> clip_length(clips[j], bpm_cents) > 0,
    ensures
        start_unique(clips, k),
{
    assert forall|j: u32| #[trigger] clips.contains_key(j) && j != k implies clips[j].start@ != clips[k].start@ by {
        assert(apart(clips[j], clips[k], bpm_cents));
        assert(clip_length(clips[j], bpm_cents) > 0 && clip_length(clips[k], bpm_cents) > 0);
    }
}

/// In a mirror, the first clip that starts where clip `k` starts stands for `k`, when no other
/// clip of the track starts there.
proof fn lemma_mirror_find(clips: Map<u32, AudioClip>, procs: Seq<AudioClipProcessor>, k: u32)
    requires
        mirrors(clips, procs),
        clips.contains_key(k),
        start_unique(clips, k),
    ensures
        has_start(procs, clips[k].start@),
        0 <= first_with_start(procs, clips[k].start@) < procs.len(),
        procs[first_with_start(procs, clips[k].start@)].key.0 == k,
{
    let i = choose|i: int| 0 <= i < procs.len() && #[trigger] procs[i].key.0 == k;
    assert(clips.contains_key(procs[i].key.0));
    let s = clips[k].start@;
    lemma_first_with_start_bounds(procs, s, i);
    let f = first_with_start(procs, s);
    let kf = procs[f].key.0;
    assert(clips.contains_key(kf) && mirrors_clip(clips[kf], procs[f]));
    if kf != k {
        assert(clips[kf].start@ != clips[k].start@);
    }
}

/// Removing clip `k` from the track and the clip that stands for it from the copy keeps the mirror.
proof fn lemma_mirror_remove(clips: Map<u32, AudioClip>, procs: Seq<AudioClipProcessor>, k: u32, f: int)
    requires
        mirrors(clips, procs),
        0 <= f < procs.len(),
        procs[f].key.0 == k,
    ensures
        mirrors(clips.remove(k), procs.remove(f)),
{
    let c2 = clips.remove(k);
    let p2 = procs.remove(f);
    assert forall|i: int| 0 <= i < p2.len() implies c2.contains_key(#[trigger] p2[i].key.0) && mirrors_clip(
        c2[p2[i].key.0],
        p2[i],
    ) by {
        let i0 = if i < f { i } else { i + 1 };
        assert(p2[i] == procs[i0]);
        assert(clips.contains_key(procs[i0].key.0));
        if i0 < f {
            assert(procs[i0].key.0 != procs[f].key.0);
        } else {
            assert(procs[f].key.0 != procs[i0].key.0);
        }
    }
    assert forall|k2: u32| #[trigger] c2.contains_key(k2) implies exists|i: int| 0 <= i < p2.len() && #[trigger] p2[i].key.0 == k2 by {
        assert(clips.contains_key(k2));
        let i0 = choose|i: int| 0 <= i < procs.len() && #[trigger] procs[i].key.0 == k2;
        assert(i0 != f);
        let i = if i0 < f { i0 } else { i0 - 1 };
        assert(p2[i] == procs[i0]);
    }
    assert forall|i: int, j: int| 0 <= i < j < p2.len() implies #[trigger] p2[i].key.0 != #[trigger] p2[j].key.0 by {
        let i0 = if i < f { i } else { i + 1 };
        let j0 = if j < f { j } else { j + 1 };
        assert(p2[i] == procs[i0] && p2[j] == procs[j0]);
    }
}

/// Adding clip `c` under its key to the track and a clip that stands for it anywhere in the copy
/// keeps the mirror.
proof fn lemma_mirror_insert(
    clips: Map<u32, AudioClip>,
    procs: Seq<AudioClipProcessor>,
    c: AudioClip,
    p: AudioClipProcessor,
    at: int,
)
    requires
        mirrors(clips, procs),
        !clips.contains_key(c.key.0),
        mirrors_clip(c, p),
        0 <= at <= procs.len(),
    ensures
        mirrors(clips.insert(c.key.0, c), procs.insert(at, p)),
{
    let k = c.key.0;
    let c2 = clips.insert(k, c);
    let p2 = procs.insert(at, p);
    assert forall|i: int| 0 <= i < p2.len() implies c2.contains_key(#[trigger] p2[i].key.0) && mirrors_clip(
        c2[p2[i].key.0],
        p2[i],
    ) by {
        if i < at {
            assert(p2[i] == procs[i]);
            assert(clips.contains_key(procs[i].key.0));
        } else if i > at {
            assert(p2[i] == procs[i - 1]);
            assert(clips.contains_key(procs[i - 1].key.0));
        }
    }
    assert forall|k2: u32| #[trigger] c2.contains_key(k2) implies exists|i: int| 0 <= i < p2.len() && #[trigger] p2[i].key.0 == k2 by {
        if k2 == k {
            assert(p2[at].key.0 == k2);
        } else {
            assert(clips.contains_key(k2));
            let i0 = choose|i: int| 0 <= i < procs.len() && #[trigger] procs[i].key.0 == k2;
            let i = if i0 < at { i0 } else { i0 + 1 };
            assert(p2[i] == procs[i0]);
        }
    }
    assert forall|i: int, j: int| 0 <= i < j < p2.len() implies #[trigger] p2[i].key.0 != #[trigger] p2[j].key.0 by {
        if i != at && j != at {
            let i0 = if i < at { i } else { i - 1 };
            let j0 = if j < at { j } else { j - 1 };
            assert(p2[i] == procs[i0] && p2[j] == procs[j0]);
        } else if i == at {
            let j0 = j - 1;
            assert(p2[j] == procs[j0]);
            assert(clips.contains_key(procs[j0].key.0));
        } else {
            assert(p2[i] == procs[i]);
            assert(clips.contains_key(procs[i].key.0));
        }
    }
}

/// Replacing clip `k` of the track by `c` and the clip that stands for it by one that stands for
/// `c` keeps the mirror.
proof fn lemma_mirror_update(
    clips: Map<u32, AudioClip>,
    procs: Seq<AudioClipProcessor>,
    f: int,
    c: AudioClip,
    p: AudioClipProcessor,
)
    requires
        mirrors(clips, procs),
        0 <= f < procs.len(),
        procs[f].key.0 == c.key.0,
        mirrors_clip(c, p),
    ensures
        mirrors(clips.insert(c.key.0, c), procs.update(f, p)),
{
    let k = c.key.0;
    let c2 = clips.insert(k, c);
    let p2 = procs.update(f, p);
    assert forall|i: int| 0 <= i < p2.len() implies c2.contains_key(#[trigger] p2[i].key.0) && mirrors_clip(
        c2[p2[i].key.0],
        p2[i],
    ) by {
        if i != f {
            assert(p2[i] == procs[i]);
            assert(clips.contains_key(procs[i].key.0));
            if i < f {
                assert(procs[i].key.0 != procs[f].key.0);
            } else {
                assert(procs[f].key.0 != procs[i].key.0);
            }
        }
    }
    assert forall|k2: u32| #[trigger] c2.contains_key(k2) implies exists|i: int| 0 <= i < p2.len() && #[trigger] p2[i].key.0 == k2 by {
        if k2 == k {
            assert(p2[f].key.0 == k2);
        } else {
            assert(clips.contains_key(k2));
            let i0 = choose|i: int| 0 <= i < procs.len() && #[trigger] procs[i].key.0 == k2;
            assert(p2[i0] == procs[i0]);
        }
    }
    assert forall|i: int, j: int| 0 <= i < j < p2.len() implies #[trigger] p2[i].key.0 != #[trigger] p2[j].key.0 by {
        assert(procs[i].key.0 != procs[j].key.0);
    }
}

/// Adding a clip to a track, and to the audio thread's copy of the track a clip that stands for
/// it, put after the clips that start at or before it, keeps the copy a mirror of the track.
pub proof fn lemma_add_clip_mirrored(
    clips: Map<u32, AudioClip>,
    procs: Seq<AudioClipProcessor>,
    c: AudioClip,
    p: AudioClipProcessor,
)
    requires
        mirrors(clips, procs),
        sorted_by_start(procs),
        !clips.contains_key(c.key.0),
        mirrors_clip(c, p),
    ensures
        mirrors(clips.insert(c.key.0, c), procs.insert(upper_bound(procs, p.start@ as int), p)),
{
    lemma_upper_bound_sorted(procs, p.start@ as int);
    lemma_mirror_insert(clips, procs, c, p, upper_bound(procs, p.start@ as int));
}

/// Deleting clip `k` from a track, and from the copy the first clip that starts where `k` starts,
/// deletes the clip that stands for `k` and keeps the copy a mirror, when no other clip of the
/// track starts there.
pub proof fn lemma_delete_clip_mirrored(clips: Map<u32, AudioClip>, procs: Seq<AudioClipProcessor>, k: u32)
    requires
        mirrors(clips, procs),
        clips.contains_key(k),
        start_unique(clips, k),
    ensures
        has_start(procs, clips[k].start@),
        procs[first_with_start(procs, clips[k].start@)].key.0 == k,
        mirrors(clips.remove(k), procs.remove(first_with_start(procs, clips[k].start@))),
{
    lemma_mirror_find(clips, procs, k);
    lemma_mirror_remove(clips, procs, k, first_with_start(procs, clips[k].start@));
}

/// Cropping the end of clip `k` to `new_length` on a track and on the first clip of the copy that
/// starts where `k` starts keeps the copy a mirror, when no other clip of the track starts there.
pub proof fn lemma_crop_end_mirrored(
    clips: Map<u32, AudioClip>,
    procs: Seq<AudioClipProcessor>,
    k: u32,
    new_length: Timestamp,
)
    requires
        mirrors(clips, procs),
        clips.contains_key(k),
        start_unique(clips, k),
    ensures
        ({
            let f = first_with_start(procs, clips[k].start@);
            mirrors(
                clips.insert(k, AudioClip { length: Some(new_length), ..clips[k] }),
                procs.update(f, AudioClipProcessor { length: Some(new_length), ..procs[f] }),
            )
        }),
{
    lemma_mirror_find(clips, procs, k);
    let f = first_with_start(procs, clips[k].start@);
    assert(clips.contains_key(procs[f].key.0));
    lemma_mirror_update(
        clips,
        procs,
        f,
        AudioClip { length: Some(new_length), ..clips[k] },
        AudioClipProcessor { length: Some(new_length), ..procs[f] },
    );
}

/// Cropping the start of clip `k` on a track (to the clip [`cropped_start`] gives) and, with the
/// new start, length and start offset, on the first clip of the copy that starts where `k` starts
/// keeps the copy a mirror, when no other clip of the track starts there.
pub proof fn lemma_crop_start_mirrored(
    clips: Map<u32, AudioClip>,
    procs: Seq<AudioClipProcessor>,
    k: u32,
    new_length: Timestamp,
    bpm_cents: u16,
)
    requires
        mirrors(clips, procs),
        clips.contains_key(k),
        start_unique(clips, k),
    ensures
        ({
            let f = first_with_start(procs, clips[k].start@);
            let cropped = cropped_start(clips[k], new_length, bpm_cents);
            mirrors(
                clips.insert(k, cropped),
                procs.update(
                    f,
                    AudioClipProcessor {
                        start: cropped.start,
                        length: cropped.length,
                        start_offset: cropped.start_offset,
                        ..procs[f]
                    },
                ),
            )
        }),
{
    lemma_mirror_find(clips, procs, k);
    let f = first_with_start(procs, clips[k].start@);
    assert(clips.contains_key(procs[f].key.0));
    let cropped = cropped_start(clips[k], new_length, bpm_cents);
    lemma_mirror_update(
        clips,
        procs,
        f,
        cropped,
        AudioClipProcessor { start: cropped.start, length: cropped.length, start_offset: cropped.start_offset, ..procs[f] },
    );
}

/// Moving clip `k` to `new_start` on a track, and on the copy taking out the first clip that
/// starts where `k` starts and putting it, with the new start, after the clips that start at or
/// before `new_start`, keeps the copy a mirror, when no other clip of the track starts where `k`
/// starts.
pub proof fn lemma_move_clip_mirrored(
    clips: Map<u32, AudioClip>,
    procs: Seq<AudioClipProcessor>,
    k: u32,
    new_start: Timestamp,
)
    requires
        mirrors(clips, procs),
        sorted_by_start(procs),
        clips.contains_key(k),
        start_unique(clips, k),
    ensures
        ({
            let f = first_with_start(procs, clips[k].start@);
            let rest = procs.remove(f);
            mirrors(
                clips.insert(k, AudioClip { start: new_start, ..clips[k] }),
                rest.insert(upper_bound(rest, new_start@ as int), AudioClipProcessor { start: new_start, ..procs[f] }),
            )
        }),
{
    lemma_mirror_find(clips, procs, k);
    let f = first_with_start(procs, clips[k].start@);
    assert(clips.contains_key(procs[f].key.0));
    let rest = procs.remove(f);
    lemma_mirror_remove(clips, procs, k, f);
    lemma_remove_sorted(procs, f);
    lemma_upper_bound_sorted(rest, new_start@ as int);
    let moved = AudioClip { start: new_start, ..clips[k] };
    lemma_mirror_insert(
        clips.remove(k),
        rest,
        moved,
        AudioClipProcessor { start: new_start, ..procs[f] },
        upper_bound(rest, new_start@ as int),
    );
    assert(clips.remove(k).insert(k, moved) =~= clips.insert(k, moved));
}

} // verus!
