use vstd::prelude::*;

verus! {

/// `n * to / from`, rounded up: the number of frames that `n` frames at rate `from` cover at rate `to`.
pub open spec fn rescale_ceil(n: int, to: int, from: int) -> int {
    (n * to + from - 1) / from
}

/// What converting `n` frames from rate `from` to rate `to` gives: `n * to / from` rounded up,
/// saturated at `usize::MAX`; from a rate of zero, nothing for nothing and `usize::MAX` otherwise.
pub open spec fn rescale_saturating(n: int, to: int, from: int) -> int {
    if from == 0 {
        if n == 0 || to == 0 {
            0
        } else {
            usize::MAX as int
        }
    } else if rescale_ceil(n, to, from) > usize::MAX {
        usize::MAX as int
    } else {
        rescale_ceil(n, to, from)
    }
}

/// `n * to / from` rounded up and saturated (see [`rescale_saturating`]), computed without overflow.
fn rescale(n: usize, to: u32, from: u32) -> (r: usize)
    ensures
        r == rescale_saturating(n as int, to as int, from as int),
{
    if from == 0 {
        return if n == 0 || to == 0 {
            0
        } else {
            usize::MAX
        };
    }
    assert((n as int) * (to as int) <= 0xffff_ffff_ffff_ffff * 0xffff_ffff) by (nonlinear_arith)
        requires
            0 <= n <= 0xffff_ffff_ffff_ffff,
            0 <= to <= 0xffff_ffff,
    ;
    let product: u128 = (n as u128) * (to as u128);
    let q = (product + ((from - 1) as u128)) / (from as u128);
    if q > usize::MAX as u128 {
        usize::MAX
    } else {
        q as usize
    }
}

/// `frames * to / from` rounded up, for 64-bit frame counts.
pub fn rescale_frames(frames: u64, to: u32, from: u32) -> (r: u64)
    requires
        from > 0,
        rescale_ceil(frames as int, to as int, from as int) <= u64::MAX,
    ensures
        r == rescale_ceil(frames as int, to as int, from as int),
{
    assert((frames as int) * (to as int) <= 0xffff_ffff_ffff_ffff * 0xffff_ffff) by (nonlinear_arith)
        requires
            0 <= frames <= 0xffff_ffff_ffff_ffff,
            0 <= to <= 0xffff_ffff,
    ;
    let product: u128 = (frames as u128) * (to as u128);
    let q = (product + ((from - 1) as u128)) / (from as u128);
    q as u64
}

/// A number of frames in the domain of the clip's original sample rate.
#[derive(Debug, PartialEq, Eq, Clone, Copy, Hash, Structural)]
pub struct OriginalSamples(pub usize);

/// A number of frames in the domain of the engine's (output) sample rate.
#[derive(Debug, PartialEq, Eq, Clone, Copy, Hash, Structural)]
pub struct ResampledSamples(pub usize);

impl OriginalSamples {
    pub fn new(samples: usize) -> (r: Self)
        ensures
            r.0 == samples,
    {
        OriginalSamples(samples)
    }

    /// The same span of time in the output's sample rate, rounded up to whole frames (saturated:
    /// see [`rescale_saturating`]).
    pub fn into_resampled(self, resampled_sample_rate: u32, original_sample_rate: u32) -> (r:
        ResampledSamples)
        ensures
            r.0 == rescale_saturating(
                self.0 as int,
                resampled_sample_rate as int,
                original_sample_rate as int,
            ),
    {
        ResampledSamples(rescale(self.0, resampled_sample_rate, original_sample_rate))
    }

    /// Subtraction that stops at zero.
    pub fn saturating_sub(self, rhs: Self) -> (r: Self)
        ensures
            r.0 == (if self.0 >= rhs.0 { self.0 - rhs.0 } else { 0 }),
    {
        OriginalSamples(self.0.saturating_sub(rhs.0))
    }
}

impl ResampledSamples {
    pub fn new(samples: usize) -> (r: Self)
        ensures
            r.0 == samples,
    {
        ResampledSamples(samples)
    }

    /// The same span of time in the clip's original sample rate, rounded up to whole frames
    /// (saturated: see [`rescale_saturating`]).
    pub fn into_original(self, sample_rate: u32, clip_sample_rate: u32) -> (r: OriginalSamples)
        ensures
            r.0 == rescale_saturating(self.0 as int, clip_sample_rate as int, sample_rate as int),
    {
        OriginalSamples(rescale(self.0, clip_sample_rate, sample_rate))
    }

    /// Subtraction that stops at zero.
    pub fn saturating_sub(self, rhs: Self) -> (r: Self)
        ensures
            r.0 == (if self.0 >= rhs.0 { self.0 - rhs.0 } else { 0 }),
    {
        ResampledSamples(self.0.saturating_sub(rhs.0))
    }
}

/// Converting a span to another sample rate and back never loses frames:
/// rounding up on both ways gives at least the frames one started with.
pub proof fn lemma_resample_round_trip(n: nat, to: nat, from: nat)
    requires
        to > 0,
        from > 0,
    ensures
        rescale_ceil(rescale_ceil(n as int, to as int, from as int), from as int, to as int) >= n,
{
    let m = rescale_ceil(n as int, to as int, from as int);
    assert(m * from >= n * to) by (nonlinear_arith)
        requires
            m == (n * to + from - 1) as int / from as int,
            from > 0,
            n >= 0,
            to > 0,
    ;
    assert(rescale_ceil(m, from as int, to as int) >= n) by (nonlinear_arith)
        requires
            m * from >= n * to,
            to > 0,
            n >= 0,
            from > 0,
    ;
}

/// When one rate is a whole multiple of the other, converting there and back is exact.
pub proof fn lemma_resample_exact_ratio(n: nat, from: nat, factor: nat)
    requires
        from > 0,
        factor > 0,
    ensures
        rescale_ceil(n as int, (from * factor) as int, from as int) == n * factor,
        rescale_ceil((n * factor) as int, from as int, (from * factor) as int) == n,
{
    assert(rescale_ceil(n as int, (from * factor) as int, from as int) == n * factor) by (nonlinear_arith)
        requires
            from > 0,
            factor > 0,
    ;
    assert(rescale_ceil((n * factor) as int, from as int, (from * factor) as int) == n) by (nonlinear_arith)
        requires
            from > 0,
            factor > 0,
    ;
}

/// When the output rate is a whole multiple of the clip's rate, converting a count of frames to the
/// output's rate and back gives it back, as long as the converted count fits in a `usize`.
pub proof fn lemma_resample_exact_round_trip(n: nat, from: nat, factor: nat)
    requires
        from > 0,
        factor > 0,
        n * factor <= usize::MAX,
    ensures
        rescale_saturating(
            rescale_saturating(n as int, (from * factor) as int, from as int),
            from as int,
            (from * factor) as int,
        ) == n,
{
    lemma_resample_exact_ratio(n, from, factor);
    assert(n <= n * factor) by (nonlinear_arith)
        requires
            factor > 0,
    ;
    assert(from * factor > 0) by (nonlinear_arith)
        requires
            from > 0,
            factor > 0,
    ;
}

} // verus!
