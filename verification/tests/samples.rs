use adae::samples::{rescale_frames, OriginalSamples, ResampledSamples};

#[test]
fn sample_domains() {
    let sample_rate = 44_100;
    let clip_sample_rate = 22_050;

    let resampled = OriginalSamples::new(clip_sample_rate as usize).into_resampled(sample_rate, clip_sample_rate);
    assert_eq!(resampled, ResampledSamples::new(sample_rate as usize));

    let original = ResampledSamples::new(sample_rate as usize).into_original(sample_rate, clip_sample_rate);
    assert_eq!(original, OriginalSamples::new(clip_sample_rate as usize));
}

#[test]
fn resampling_rounds_up() {
    // 10 frames at 44.1 kHz cover 10.88... frames at 48 kHz: 11 whole frames.
    assert_eq!(OriginalSamples::new(10).into_resampled(48_000, 44_100), ResampledSamples::new(11));
    // And back: 11 frames at 48 kHz cover 10.10... frames at 44.1 kHz: 11 whole frames.
    assert_eq!(ResampledSamples::new(11).into_original(48_000, 44_100), OriginalSamples::new(11));
    assert_eq!(rescale_frames(1_322_978, 48_000, 44_100), 1_439_977);
}

#[test]
fn samples_saturating_sub() {
    assert_eq!(OriginalSamples::new(3).saturating_sub(OriginalSamples::new(5)), OriginalSamples::new(0));
    assert_eq!(OriginalSamples::new(5).saturating_sub(OriginalSamples::new(3)), OriginalSamples::new(2));
    assert_eq!(ResampledSamples::new(3).saturating_sub(ResampledSamples::new(5)), ResampledSamples::new(0));
    assert_eq!(ResampledSamples::new(9).saturating_sub(ResampledSamples::new(4)), ResampledSamples::new(5));
}

#[test]
fn resampling_saturates() {
    assert_eq!(OriginalSamples::new(10).into_resampled(48_000, 0), ResampledSamples::new(usize::MAX));
    assert_eq!(OriginalSamples::new(0).into_resampled(48_000, 0), ResampledSamples::new(0));
    assert_eq!(ResampledSamples::new(usize::MAX).into_original(1, 2), OriginalSamples::new(usize::MAX));
    assert_eq!(OriginalSamples::new(7).into_resampled(48_000, 48_000), ResampledSamples::new(7));
}
