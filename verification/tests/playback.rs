use adae::playback::{AudioClipProcessor, OutputPlan, TimelineTrackProcessor};
use adae::{AudioClipKey, MixerTrackKey, Timestamp};

const SAMPLE_RATE: u32 = 48_000;
const BPM_CENTS: u16 = 12_000;

fn clip_a() -> AudioClipProcessor {
    AudioClipProcessor::new(
        AudioClipKey(1),
        Timestamp::from_beat_units(1024),
        Some(Timestamp::from_beat_units(2048)),
        0,
        96_000,
    )
}

fn clip_b() -> AudioClipProcessor {
    AudioClipProcessor::new(AudioClipKey(2), Timestamp::from_beat_units(4096), None, 0, 48_000)
}

fn track_with_two_clips() -> TimelineTrackProcessor {
    let mut track = TimelineTrackProcessor::new(MixerTrackKey(7), SAMPLE_RATE, BPM_CENTS);
    assert_eq!(track.insert_clip(clip_b(), Timestamp::zero()), None);
    assert_eq!(track.insert_clip(clip_a(), Timestamp::zero()), None);
    track
}

fn relevant_key(track: &TimelineTrackProcessor) -> Option<AudioClipKey> {
    track.relevant_clip().map(|c| c.key)
}

#[test]
fn playback_clip_end_and_lengths() {
    assert_eq!(clip_a().end(SAMPLE_RATE, BPM_CENTS).beat_units(), 3072);
    // 48 000 frames at 120 BPM and 48 kHz are exactly two beats.
    assert_eq!(clip_b().end(SAMPLE_RATE, BPM_CENTS).beat_units(), 6144);
    assert_eq!(clip_a().length_samples(SAMPLE_RATE, BPM_CENTS), 48_000);
    assert_eq!(clip_b().length_samples(SAMPLE_RATE, BPM_CENTS), 48_000);
}

#[test]
fn playback_clip_jump_targets() {
    let a = clip_a();
    // Before the clip: its first frame.
    assert_eq!(a.jump_to(Timestamp::zero(), SAMPLE_RATE, BPM_CENTS), 0);
    // One beat into the clip.
    assert_eq!(a.jump_to(Timestamp::from_beat_units(2048), SAMPLE_RATE, BPM_CENTS), 24_000);
    // Far past the end of the stored clip: its end.
    assert_eq!(a.jump_to(Timestamp::from_beat_units(100_000), SAMPLE_RATE, BPM_CENTS), 96_000);
    let offset = AudioClipProcessor::new(AudioClipKey(3), Timestamp::zero(), None, 1_000, 96_000);
    assert_eq!(offset.jump_to(Timestamp::from_beat_units(1024), SAMPLE_RATE, BPM_CENTS), 25_000);
    assert_eq!(offset.reset_target(), 1_000);
}

#[test]
fn playback_clip_output_frames() {
    let a = clip_a();
    assert_eq!(a.output_frames(SAMPLE_RATE, BPM_CENTS, 512, 24_000), 512);
    assert_eq!(a.output_frames(SAMPLE_RATE, BPM_CENTS, 512, 47_800), 200);
    assert_eq!(a.output_frames(SAMPLE_RATE, BPM_CENTS, 512, 60_000), 0);
}

#[test]
fn playback_insert_orders_clips() {
    let track = track_with_two_clips();
    assert_eq!(track.len(), 2);
    assert_eq!(track.clip(0).key, AudioClipKey(1));
    assert_eq!(track.clip(1).key, AudioClipKey(2));
    assert_eq!(relevant_key(&track), Some(AudioClipKey(1)));
    assert_eq!(track.output_track(), MixerTrackKey(7));
}

#[test]
fn playback_insert_while_playing_jumps_new_clip() {
    let mut track = TimelineTrackProcessor::new(MixerTrackKey(0), SAMPLE_RATE, BPM_CENTS);
    let jump = track.insert_clip(clip_a(), Timestamp::from_beat_units(2048));
    assert_eq!(jump, Some((AudioClipKey(1), 24_000)));
    assert_eq!(relevant_key(&track), Some(AudioClipKey(1)));
}

#[test]
fn playback_jump_finds_relevant_clip() {
    let mut track = track_with_two_clips();
    assert_eq!(track.jump(Timestamp::from_beat_units(2048)), Some((AudioClipKey(1), 24_000)));
    assert_eq!(relevant_key(&track), Some(AudioClipKey(1)));
    // Between the clips: the next one, from its start.
    assert_eq!(track.jump(Timestamp::from_beat_units(3500)), Some((AudioClipKey(2), 0)));
    assert_eq!(relevant_key(&track), Some(AudioClipKey(2)));
    // Past every clip: none.
    assert_eq!(track.jump(Timestamp::from_beat_units(7000)), None);
    assert_eq!(relevant_key(&track), None);
}

#[test]
fn playback_output_plan_pads_and_plays() {
    let mut track = track_with_two_clips();
    track.jump(Timestamp::zero());
    // The first clip starts 24 000 frames in: the whole buffer is silent.
    let clip = track.clip(0);
    assert_eq!(
        track.output_plan(0, 0, 512),
        OutputPlan::Play { zeros_until: 512, clip, requested: 0 }
    );
    assert_eq!(
        track.output_plan(23_800, 0, 512),
        OutputPlan::Play { zeros_until: 200, clip, requested: 312 }
    );
    assert_eq!(track.clip_output_done(0, 0), None);
    assert_eq!(relevant_key(&track), Some(AudioClipKey(1)));
    track.jump(Timestamp::from_beat_units(2048));
    assert_eq!(
        track.output_plan(48_000, 0, 512),
        OutputPlan::Play { zeros_until: 0, clip, requested: 512 }
    );
    // The clip gave fewer samples than frames were asked for: on to the next one, from its start.
    assert_eq!(track.clip_output_done(400, 512), Some((AudioClipKey(2), 0)));
    assert_eq!(relevant_key(&track), Some(AudioClipKey(2)));
    assert_eq!(track.clip_output_done(0, 512), None);
    assert_eq!(track.output_plan(200_000, 0, 512), OutputPlan::Silence);
}

#[test]
fn playback_delete_clip_moves_cursor_to_upper_bound() {
    let mut track = track_with_two_clips();
    track.jump(Timestamp::from_beat_units(5000));
    assert_eq!(track.delete_clip(Timestamp::from_beat_units(1024), Timestamp::from_beat_units(5000)), AudioClipKey(1));
    assert_eq!(track.len(), 1);
    assert_eq!(relevant_key(&track), Some(AudioClipKey(2)));
    // Before every remaining clip the cursor is left on none.
    let mut track = track_with_two_clips();
    track.jump(Timestamp::zero());
    assert_eq!(track.delete_clip(Timestamp::from_beat_units(4096), Timestamp::zero()), AudioClipKey(2));
    assert_eq!(relevant_key(&track), None);
}

#[test]
fn playback_crop_clip_end_moves_cursor() {
    let mut track = track_with_two_clips();
    track.jump(Timestamp::from_beat_units(5000));
    assert_eq!(relevant_key(&track), Some(AudioClipKey(2)));
    // The clip now ends before the position: the cursor goes on.
    let r = track.crop_clip_end(
        Timestamp::from_beat_units(4096),
        Timestamp::from_beat_units(512),
        Timestamp::from_beat_units(5000),
    );
    assert_eq!(r, None);
    assert_eq!(relevant_key(&track), None);
    // It covers the position again: the cursor comes back and the reader jumps.
    let r = track.crop_clip_end(
        Timestamp::from_beat_units(4096),
        Timestamp::from_beat_units(2048),
        Timestamp::from_beat_units(5000),
    );
    assert_eq!(r, Some((AudioClipKey(2), 21_187)));
    assert_eq!(relevant_key(&track), Some(AudioClipKey(2)));
}

#[test]
fn playback_crop_clip_start_jumps_relevant_clip() {
    let mut track = track_with_two_clips();
    track.jump(Timestamp::from_beat_units(5000));
    let r = track.crop_clip_start(
        Timestamp::from_beat_units(4096),
        Timestamp::from_beat_units(5120),
        Timestamp::from_beat_units(1024),
        24_000,
        Timestamp::from_beat_units(5000),
    );
    assert_eq!(r, Some((AudioClipKey(2), 24_000)));
    let c = track.clip(1);
    assert_eq!(c.start, Timestamp::from_beat_units(5120));
    assert_eq!(c.length, Some(Timestamp::from_beat_units(1024)));
    assert_eq!(c.start_offset, 24_000);
}

#[test]
fn playback_move_clip_keeps_cursor_on_moved_clip() {
    let mut track = track_with_two_clips();
    track.jump(Timestamp::zero());
    let r = track.move_clip(Timestamp::from_beat_units(1024), Timestamp::from_beat_units(8192), Timestamp::zero());
    assert_eq!(r, Some((AudioClipKey(1), 0)));
    assert_eq!(track.clip(0).key, AudioClipKey(2));
    assert_eq!(track.clip(1).key, AudioClipKey(1));
    assert_eq!(track.clip(1).start, Timestamp::from_beat_units(8192));
    assert_eq!(relevant_key(&track), Some(AudioClipKey(1)));
}

#[test]
fn playback_move_clip_out_of_relevance() {
    let mut track = track_with_two_clips();
    track.jump(Timestamp::from_beat_units(2048));
    // The relevant clip moves before the position: the clip relevant there takes over.
    let r = track.move_clip(Timestamp::from_beat_units(1024), Timestamp::zero(), Timestamp::from_beat_units(2048));
    assert_eq!(r, None);
    assert_eq!(relevant_key(&track), Some(AudioClipKey(2)));
}

#[test]
fn playback_move_clip_into_relevance() {
    let mut track = track_with_two_clips();
    track.jump(Timestamp::from_beat_units(3500));
    assert_eq!(relevant_key(&track), Some(AudioClipKey(2)));
    // The other clip now covers the position: the cursor steps back onto it, and it jumps.
    let r = track.move_clip(
        Timestamp::from_beat_units(1024),
        Timestamp::from_beat_units(2048),
        Timestamp::from_beat_units(3500),
    );
    assert_eq!(r, Some((AudioClipKey(1), 34_031)));
    assert_eq!(relevant_key(&track), Some(AudioClipKey(1)));
}

// The audio thread's rendering of one track, with readers that give non-zero samples for every
// frame of their clip, as the engine's readers do for a clip that is not silent.

const TRACK_SAMPLE_RATE: u32 = 40_960;
/// Samples per beat unit at 40 960 Hz and 120 BPM.
const SBU: usize = 20;
/// The frames of the test file (30 s at 44.1 kHz) at 40 960 Hz, rounded up.
const SOURCE_FRAMES: u64 = 1_228_780;

struct Sim {
    track: TimelineTrackProcessor,
    readers: std::collections::HashMap<u32, u64>,
    position: u64,
    next_key: u32,
}

impl Sim {
    fn new() -> Self {
        Sim {
            track: TimelineTrackProcessor::new(MixerTrackKey(0), TRACK_SAMPLE_RATE, BPM_CENTS),
            readers: std::collections::HashMap::new(),
            position: 0,
            next_key: 0,
        }
    }

    fn position_timestamp(&self) -> Timestamp {
        Timestamp::from_samples(self.position, TRACK_SAMPLE_RATE, BPM_CENTS)
    }

    fn apply(&mut self, jump: Option<(AudioClipKey, u64)>) {
        if let Some((key, frame)) = jump {
            self.readers.insert(key.0, frame.min(SOURCE_FRAMES));
        }
    }

    fn insert(&mut self, start: u32, length: Option<u32>) -> AudioClipProcessor {
        let clip = AudioClipProcessor::new(
            AudioClipKey(self.next_key),
            Timestamp::from_beat_units(start),
            length.map(Timestamp::from_beat_units),
            0,
            SOURCE_FRAMES,
        );
        self.next_key += 1;
        self.readers.insert(clip.key.0, 0);
        let jump = self.track.insert_clip(clip, self.position_timestamp());
        self.apply(jump);
        clip
    }

    fn jump(&mut self, position: u64) {
        self.position = position;
        let jump = self.track.jump(self.position_timestamp());
        self.apply(jump);
    }

    fn move_clip(&mut self, old_start: u32, new_start: u32) {
        let jump = self.track.move_clip(
            Timestamp::from_beat_units(old_start),
            Timestamp::from_beat_units(new_start),
            self.position_timestamp(),
        );
        self.apply(jump);
    }

    /// Render `frames` frames from the current position (which does not move).
    fn output(&mut self, frames: usize) -> Vec<f32> {
        let mut out = vec![0.0; frames * 2];
        let frames = frames as u64;
        let mut progress = 0;
        while progress < frames {
            match self.track.output_plan(self.position, progress, frames) {
                OutputPlan::Silence => break,
                OutputPlan::Play { zeros_until, clip, requested } => {
                    progress = zeros_until;
                    let pos = self.readers[&clip.key.0];
                    let capped = clip.output_frames(TRACK_SAMPLE_RATE, BPM_CENTS, requested, pos);
                    let written = capped.min(SOURCE_FRAMES - pos);
                    for s in &mut out[progress as usize * 2..(progress + written) as usize * 2] {
                        *s = 0.5;
                    }
                    self.readers.insert(clip.key.0, pos + written);
                    progress += written;
                    let reset = self.track.clip_output_done(written * 2, requested);
                    self.apply(reset);
                }
            }
        }
        out
    }

    fn relevant_length(&self) -> Option<u32> {
        self.track.relevant_clip().map(|c| c.length.unwrap().beat_units())
    }
}

fn all_zero(s: &[f32]) -> bool {
    s.iter().all(|&x| x == 0.0)
}

fn none_zero(s: &[f32]) -> bool {
    s.iter().all(|&x| x != 0.0)
}

#[test]
fn insert() {
    let mut t = Sim::new();
    t.insert(3, Some(1));
    t.insert(1, Some(2));
    // The second clip goes before the first.
    assert_eq!(t.relevant_length(), Some(2));
}

#[test]
fn track_output() {
    let mut t = Sim::new();
    t.insert(1, Some(1));
    t.insert(3, Some(2));

    // Empty
    assert!(all_zero(&t.output(SBU)));
    t.position += SBU as u64;

    // The first clip
    assert_eq!(t.relevant_length(), Some(1));
    assert!(none_zero(&t.output(SBU)));
    t.position += SBU as u64;

    // Empty
    assert!(all_zero(&t.output(SBU)));
    t.position += SBU as u64;

    // The second clip, then nothing
    assert_eq!(t.relevant_length(), Some(2));
    let out = t.output(3 * SBU);
    assert!(none_zero(&out[..2 * (2 * SBU)]));
    assert!(all_zero(&out[2 * (2 * SBU)..]));

    // The end
    assert_eq!(t.relevant_length(), None);
    assert!(all_zero(&t.output(SBU)));
    assert_eq!(t.relevant_length(), None);
}

#[test]
fn output_many() {
    const SBUC: usize = SBU * 2;
    let mut t = Sim::new();
    t.insert(0, Some(1));
    t.insert(2, Some(1));
    t.insert(4, Some(1));
    let c4 = t.insert(6, None);
    let c4_end = c4.end(TRACK_SAMPLE_RATE, BPM_CENTS).beat_units() as usize;
    t.insert(c4_end as u32 + 1, Some(1));

    // Everything in one go.
    let out = t.output((c4_end + 3) * SBU);
    assert!(none_zero(&out[..SBUC]));
    assert!(all_zero(&out[SBUC..2 * SBUC]));
    assert!(none_zero(&out[2 * SBUC..3 * SBUC]));
    assert!(all_zero(&out[3 * SBUC..4 * SBUC]));
    assert!(none_zero(&out[4 * SBUC..5 * SBUC]));
    assert!(all_zero(&out[5 * SBUC..6 * SBUC]));
    assert!(none_zero(&out[6 * SBUC..8 * SBUC]));
    assert!(none_zero(&out[(c4_end - 3) * SBUC..(c4_end - 1) * SBUC]));
    // The long clip ends between (c4_end - 1) and c4_end.
    assert!(all_zero(&out[c4_end * SBUC..(c4_end + 1) * SBUC]));
    assert!(none_zero(&out[(c4_end + 1) * SBUC..(c4_end + 2) * SBUC]));
    assert!(all_zero(&out[(c4_end + 2) * SBUC..(c4_end + 3) * SBUC]));
}

#[test]
fn track_jump() {
    let mut t = Sim::new();
    t.insert(1, Some(1));
    t.insert(3, Some(2));

    t.jump(2 * SBU as u64);

    // Empty
    assert!(all_zero(&t.output(SBU)));
    t.position += SBU as u64;

    // The second clip, then nothing
    assert_eq!(t.relevant_length(), Some(2));
    let out = t.output(3 * SBU);
    assert!(none_zero(&out[..2 * (2 * SBU)]));
    assert!(all_zero(&out[2 * (2 * SBU)..]));
    t.position += 3 * SBU as u64;

    // The end
    assert_eq!(t.relevant_length(), None);
    assert!(all_zero(&t.output(SBU)));
    assert_eq!(t.relevant_length(), None);
    t.position += SBU as u64;

    t.jump(0);

    // Empty
    assert!(all_zero(&t.output(SBU)));
    t.position += SBU as u64;

    // The first clip
    assert_eq!(t.relevant_length(), Some(1));
    assert!(none_zero(&t.output(SBU)));
}

#[test]
fn move_clip_into_relevance() {
    let mut t = Sim::new();
    t.insert(0, Some(1));
    // Jump to past the end of the clip: it is no longer relevant.
    t.jump(SBU as u64);
    assert!(t.track.relevant_clip().is_none());
    // Move the clip past the position: it is relevant again.
    t.move_clip(0, 1);
    assert!(t.track.relevant_clip().is_some());
}

#[test]
fn move_clip_out_of_relevance() {
    let mut t = Sim::new();
    t.insert(1, Some(1));
    t.jump(SBU as u64);
    assert!(t.track.relevant_clip().is_some());
    // Move the clip before the position: it is no longer relevant.
    t.move_clip(1, 0);
    assert!(t.track.relevant_clip().is_none());
}

#[test]
fn playback_source_frames_of_test_clip() {
    assert_eq!(adae::samples::rescale_frames(1_322_978, TRACK_SAMPLE_RATE, 44_100), SOURCE_FRAMES);
}

#[test]
fn reader_positions_and_counts() {
    assert_eq!(adae::playback::reader_jump(10, 100), 10);
    assert_eq!(adae::playback::reader_jump(150, 100), 100);
    assert_eq!(adae::playback::frames_to_read(64, 100, 90, 128), 10);
    assert_eq!(adae::playback::frames_to_read(64, 100, 0, 32), 32);
    assert_eq!(adae::playback::frames_to_read(16, 100, 0, 32), 16);
}
