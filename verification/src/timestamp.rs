use vstd::prelude::*;

verus! {

/// Number of beat units in one beat.
pub const UNITS_PER_BEAT: u32 = 1024;

/// Samples covered by `beat_units` at the given sample rate and tempo (in BPM-cents), rounded down.
pub open spec fn samples_of(beat_units: int, sample_rate: int, bpm_cents: int) -> int {
    (beat_units * sample_rate * 6000) / (bpm_cents * 1024)
}

/// Beat units covered by `samples` at the given sample rate and tempo (in BPM-cents), rounded down.
pub open spec fn beat_units_of(samples: int, sample_rate: int, bpm_cents: int) -> int {
    (samples * bpm_cents * 1024) / (sample_rate * 6000)
}

/// Beat units covered by `samples`, rounded up.
pub open spec fn beat_units_ceil_of(samples: int, sample_rate: int, bpm_cents: int) -> int {
    (samples * bpm_cents * 1024 + sample_rate * 6000 - 1) / (sample_rate * 6000)
}

/// Every timestamp converts into a number of samples that fits in 64 bits at this sample rate and
/// tempo: the largest one, `u32::MAX` beat units, covers at most `u64::MAX` samples. This holds of
/// every sample rate at a tempo of at least 0.06 BPM, and of every rate up to 733 MHz at any tempo.
pub open spec fn rate_fits(sample_rate: int, bpm_cents: int) -> bool {
    &&& 0 < sample_rate
    &&& 0 < bpm_cents
    &&& samples_of(0xffff_ffff, sample_rate, bpm_cents) <= 0xffff_ffff_ffff_ffff
}

/// Whether every timestamp converts into 64-bit sample counts at this sample rate and tempo.
pub fn rate_fits_check(sample_rate: u32, bpm_cents: u16) -> (r: bool)
    ensures
        r == rate_fits(sample_rate as int, bpm_cents as int),
{
    if sample_rate == 0 || bpm_cents == 0 {
        return false;
    }
    assert(0xffff_ffff * (sample_rate as int) * 6000 <= 0xffff_ffff * 0xffff_ffff * 6000) by (nonlinear_arith)
        requires
            0 < sample_rate <= 0xffff_ffff,
    ;
    let numerator: u128 = 0xffff_ffffu128 * (sample_rate as u128) * 6000u128;
    let denominator: u128 = (bpm_cents as u128) * 1024u128;
    numerator / denominator <= 0xffff_ffff_ffff_ffffu128
}

/// A position or a duration on the timeline, counted in beat units
/// (one beat is 1024 beat units, so it divides evenly by powers of two).
/// Timestamps are ordered by their beat units.
#[derive(Debug, Clone, Copy, PartialEq, Eq, PartialOrd, Ord, Hash, Structural)]
pub struct Timestamp {
    /// One beat is 1024 beat units.
    pub beat_units: u32,
}

impl View for Timestamp {
    type V = u32;

    open spec fn view(&self) -> u32 {
        self.beat_units
    }
}

impl Timestamp {
    /// The smallest possible timestamp: the very beginning of the timeline.
    pub fn zero() -> (t: Self)
        ensures
            t@ == 0,
    {
        Timestamp { beat_units: 0 }
    }

    /// A timestamp of the given number of beat units.
    pub fn from_beat_units(beat_units: u32) -> (t: Self)
        ensures
            t@ == beat_units,
    {
        Timestamp { beat_units }
    }

    /// A timestamp of the given number of whole beats.
    pub fn from_beats(beats: u32) -> (t: Self)
        requires
            beats * 1024 <= u32::MAX,
        ensures
            t@ == beats * 1024,
    {
        Timestamp { beat_units: beats * UNITS_PER_BEAT }
    }

    /// The timestamp reached after `samples` samples at the given sample rate and tempo, rounded down.
    /// As in a plain integer cast, a result beyond `u32::MAX` beat units keeps its low 32 bits.
    pub fn from_samples(samples: u64, sample_rate: u32, bpm_cents: u16) -> (t: Self)
        requires
            sample_rate > 0,
        ensures
            t@ == beat_units_of(samples as int, sample_rate as int, bpm_cents as int) as u32,
    {
        assert((samples as int) * (bpm_cents as int) * 1024 <= 0xffff_ffff_ffff_ffff * 0xffff * 1024) by (nonlinear_arith)
            requires
                0 <= samples <= 0xffff_ffff_ffff_ffff,
                0 <= bpm_cents <= 0xffff,
        ;
        let numerator: u128 = (samples as u128) * (bpm_cents as u128) * 1024u128;
        let denominator: u128 = (sample_rate as u128) * 6000u128;
        let beat_units = numerator / denominator;
        Timestamp { beat_units: beat_units as u32 }
    }

    /// Like [`Timestamp::from_samples`], but rounded up, so that the result covers every sample.
    pub fn from_samples_ceil(samples: u64, sample_rate: u32, bpm_cents: u16) -> (t: Self)
        requires
            sample_rate > 0,
        ensures
            t@ == beat_units_ceil_of(samples as int, sample_rate as int, bpm_cents as int) as u32,
    {
        assert((samples as int) * (bpm_cents as int) * 1024 <= 0xffff_ffff_ffff_ffff * 0xffff * 1024) by (nonlinear_arith)
            requires
                0 <= samples <= 0xffff_ffff_ffff_ffff,
                0 <= bpm_cents <= 0xffff,
        ;
        let numerator: u128 = (samples as u128) * (bpm_cents as u128) * 1024u128;
        let denominator: u128 = (sample_rate as u128) * 6000u128;
        let beat_units = (numerator + denominator - 1) / denominator;
        Timestamp { beat_units: beat_units as u32 }
    }

    /// The number of beat units.
    pub fn beat_units(&self) -> (r: u32)
        ensures
            r == self@,
    {
        self.beat_units
    }

    /// The number of whole beats, rounded down.
    pub fn beats(&self) -> (r: u32)
        ensures
            r == self@ / 1024,
    {
        self.beat_units / UNITS_PER_BEAT
    }

    /// The number of samples this timestamp covers at the given sample rate and tempo, rounded down.
    pub fn samples(&self, sample_rate: u32, bpm_cents: u16) -> (r: u64)
        requires
            bpm_cents > 0,
            samples_of(self@ as int, sample_rate as int, bpm_cents as int) <= u64::MAX,
        ensures
            r == samples_of(self@ as int, sample_rate as int, bpm_cents as int),
    {
        assert((self.beat_units as int) * (sample_rate as int) * 6000 <= 0xffff_ffff * 0xffff_ffff * 6000) by (nonlinear_arith)
            requires
                0 <= self.beat_units <= 0xffff_ffff,
                0 <= sample_rate <= 0xffff_ffff,
        ;
        let numerator: u128 = (self.beat_units as u128) * (sample_rate as u128) * 6000u128;
        let denominator: u128 = (bpm_cents as u128) * 1024;
        (numerator / denominator) as u64
    }
}


/// Converting beat units to samples and back never gives more than one started with, and the
/// samples stay within what the beat units cover.
pub proof fn lemma_samples_round_trip(x: int, sample_rate: int, bpm_cents: int)
    requires
        0 <= x,
        0 < sample_rate,
        0 < bpm_cents,
    ensures
        0 <= samples_of(x, sample_rate, bpm_cents),
        samples_of(x, sample_rate, bpm_cents) * bpm_cents * 1024 <= x * sample_rate * 6000,
        beat_units_of(samples_of(x, sample_rate, bpm_cents), sample_rate, bpm_cents) <= x,
{
    let n = x * sample_rate * 6000;
    let d = bpm_cents * 1024;
    let s = n / d;
    assert(0 <= n) by (nonlinear_arith)
        requires
            0 <= x,
            0 < sample_rate,
            n == x * sample_rate * 6000,
    ;
    assert(0 <= s && s * d <= n) by (nonlinear_arith)
        requires
            s == n / d,
            0 < d,
            0 <= n,
    ;
    assert(s * bpm_cents * 1024 == s * d) by (nonlinear_arith)
        requires
            d == bpm_cents * 1024,
    ;
    let m = sample_rate * 6000;
    assert(n == x * m) by (nonlinear_arith)
        requires
            n == x * sample_rate * 6000,
            m == sample_rate * 6000,
    ;
    assert((s * d) / m <= x) by (nonlinear_arith)
        requires
            s * d <= x * m,
            0 < m,
            0 <= s * d,
    ;
}

/// Converting more samples gives at least as many beat units.
pub proof fn lemma_beat_units_monotonic(a: int, b: int, sample_rate: int, bpm_cents: int)
    requires
        0 <= a <= b,
        0 < sample_rate,
        0 < bpm_cents,
    ensures
        beat_units_of(a, sample_rate, bpm_cents) <= beat_units_of(b, sample_rate, bpm_cents),
        0 <= beat_units_of(a, sample_rate, bpm_cents),
{
    let m = sample_rate * 6000;
    assert(a * bpm_cents * 1024 <= b * bpm_cents * 1024) by (nonlinear_arith)
        requires
            0 <= a <= b,
            0 < bpm_cents,
    ;
    assert(0 <= a * bpm_cents * 1024) by (nonlinear_arith)
        requires
            0 <= a,
            0 < bpm_cents,
    ;
    assert((a * bpm_cents * 1024) / m <= (b * bpm_cents * 1024) / m) by (nonlinear_arith)
        requires
            a * bpm_cents * 1024 <= b * bpm_cents * 1024,
            0 < m,
    ;
    assert(0 <= (a * bpm_cents * 1024) / m) by (nonlinear_arith)
        requires
            0 <= a * bpm_cents * 1024,
            0 < m,
    ;
}

/// Converting more beat units gives at least as many samples; at a sample rate and tempo where
/// every timestamp fits (see [`rate_fits`]), both counts fit in 64 bits.
pub proof fn lemma_samples_monotonic(a: int, b: int, sample_rate: int, bpm_cents: int)
    requires
        0 <= a <= b <= u32::MAX,
        rate_fits(sample_rate, bpm_cents),
    ensures
        samples_of(a, sample_rate, bpm_cents) <= samples_of(b, sample_rate, bpm_cents),
        0 <= samples_of(a, sample_rate, bpm_cents),
        samples_of(b, sample_rate, bpm_cents) <= u64::MAX,
        samples_of(a, sample_rate, bpm_cents) <= u64::MAX,
{
    let d = bpm_cents * 1024;
    assert(0 <= a * sample_rate * 6000 <= b * sample_rate * 6000 <= 0xffff_ffff * sample_rate * 6000) by (nonlinear_arith)
        requires
            0 <= a <= b <= 0xffff_ffff,
            0 < sample_rate,
    ;
    assert((a * sample_rate * 6000) / d <= (b * sample_rate * 6000) / d <= (0xffff_ffff * sample_rate * 6000) / d) by (nonlinear_arith)
        requires
            a * sample_rate * 6000 <= b * sample_rate * 6000 <= 0xffff_ffff * sample_rate * 6000,
            0 < d,
    ;
    assert(0 <= (a * sample_rate * 6000) / d) by (nonlinear_arith)
        requires
            0 <= a * sample_rate * 6000,
            0 < d,
    ;
}

/// Converting beat units to samples and back never gives more beat units than one started with;
/// when a beat unit lasts a whole number of samples, it gives exactly as many.
pub proof fn lemma_timestamp_samples_round_trip(x: int, sample_rate: int, bpm_cents: int)
    requires
        0 <= x,
        0 < sample_rate,
        0 < bpm_cents,
    ensures
        beat_units_of(samples_of(x, sample_rate, bpm_cents), sample_rate, bpm_cents) <= x,
        (sample_rate * 6000) % (bpm_cents * 1024) == 0 ==> beat_units_of(
            samples_of(x, sample_rate, bpm_cents),
            sample_rate,
            bpm_cents,
        ) == x,
{
    lemma_samples_round_trip(x, sample_rate, bpm_cents);
    let m = sample_rate * 6000;
    let d = bpm_cents * 1024;
    if m % d == 0 {
        let q = m / d;
        assert(m == q * d) by (nonlinear_arith)
            requires
                m % d == 0,
                q == m / d,
                d > 0,
        ;
        assert(x * sample_rate * 6000 == (x * q) * d) by (nonlinear_arith)
            requires
                m == q * d,
                m == sample_rate * 6000,
        ;
        assert((x * q) * d / d == x * q) by (nonlinear_arith)
            requires
                d > 0,
        ;
        assert(samples_of(x, sample_rate, bpm_cents) == x * q);
        assert((x * q) * bpm_cents * 1024 == x * m) by (nonlinear_arith)
            requires
                m == q * d,
                d == bpm_cents * 1024,
        ;
        assert((x * m) / m == x) by (nonlinear_arith)
            requires
                m > 0,
        ;
    }
}

/// A timestamp made of whole beats gives those beats back.
pub proof fn lemma_beats_round_trip(beats: u32)
    requires
        beats * 1024 <= u32::MAX,
    ensures
        (beats * 1024) / 1024 == beats,
{
}

} // verus!
