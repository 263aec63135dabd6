use adae::timestamp::Timestamp;

#[test]
fn zero() {
    let ts = Timestamp::zero();
    assert_eq!(ts.beat_units(), 0);
    assert_eq!(ts.beats(), 0);
    assert_eq!(ts.samples(40_000, 100), 0);
}

#[test]
fn beats_to_beats() {
    let ts = Timestamp::from_beats(8605);
    assert_eq!(ts.beats(), 8605);
}

#[test]
fn beats_to_beat_units() {
    let ts = Timestamp::from_beats(8605);
    assert_eq!(ts.beat_units(), 8_811_520);
}

#[test]
fn beat_units_to_beats() {
    let ts = Timestamp::from_beat_units(8_812_520);
    assert_eq!(ts.beats(), 8605);
}

#[test]
fn beat_units_to_samples() {
    let ts = Timestamp::from_beat_units(1_024_000);
    let result = ts.samples(40_000, 100_00);
    assert_eq!(result, 24_000_000);
}

#[test]
fn max_milli_beats_to_samples() {
    let ts = Timestamp::from_beat_units(u32::MAX);
    let result = ts.samples(40_000, 100_00);
    assert_eq!(result, (u32::MAX as u64 * 40_000 * 60) / (100 * 1024));
}

#[test]
fn samples_round_trip_never_grows() {
    // At 48 kHz and 120 BPM one beat is 24000 samples exactly.
    let ts = Timestamp::from_beats(3);
    let samples = ts.samples(48_000, 12_000);
    assert_eq!(samples, 72_000);
    assert_eq!(Timestamp::from_samples(samples, 48_000, 12_000), ts);
    // At 44.1 kHz the conversion rounds down, and converting back never gives more.
    let ts = Timestamp::from_beat_units(1000);
    let samples = ts.samples(44_100, 12_345);
    assert_eq!(samples, 20_931);
    assert!(Timestamp::from_samples(samples, 44_100, 12_345).beat_units() <= 1000);
}

#[test]
fn samples_ceil_covers_every_sample() {
    assert_eq!(Timestamp::from_samples(1, 48_000, 12_000).beat_units(), 0);
    assert_eq!(Timestamp::from_samples_ceil(1, 48_000, 12_000).beat_units(), 1);
    assert_eq!(Timestamp::from_samples_ceil(24_000, 48_000, 12_000).beat_units(), 1024);
}

#[test]
fn timestamps_are_ordered_by_beat_units() {
    assert!(Timestamp::from_beats(1) < Timestamp::from_beats(2));
    assert!(Timestamp::from_beat_units(1025) > Timestamp::from_beats(1));
    assert_eq!(Timestamp::from_beats(3).max(Timestamp::zero()), Timestamp::from_beats(3));
}

#[test]
fn samples_and_back() {
    let t = Timestamp::from_beat_units(777);
    // At 12288 Hz and 120 BPM a beat unit lasts exactly six samples.
    assert_eq!(t.samples(12_288, 12_000), 4662);
    assert_eq!(Timestamp::from_samples(t.samples(12_288, 12_000), 12_288, 12_000), t);
    let back = Timestamp::from_samples(t.samples(44_100, 12_000), 44_100, 12_000);
    assert!(back <= t);
    assert_eq!(back, Timestamp::from_beat_units(776));
}
