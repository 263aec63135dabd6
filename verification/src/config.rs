use vstd::prelude::*;
use vstd::string::StringExecFns;

verus! {

/// The sample rate asked of a device when it allows a choice.
pub const PREFERRED_SAMPLE_RATE: u32 = 48_000;

/// The buffer size, in frames, asked of a device when it allows a choice.
pub const PREFERRED_BUFFER_SIZE: u32 = 512;

/// How a device's samples are stored.
#[derive(Debug, Clone, Copy, PartialEq, Eq, Structural)]
pub enum SampleFormat {
    Int(SampleFormatInt),
    IntUnsigned(SampleFormatIntUnsigned),
    Float(SampleFormatFloat),
}

#[derive(Debug, Clone, Copy, PartialEq, Eq, Structural)]
pub enum SampleFormatInt {
    I8,
    I16,
    I32,
    I64,
}

#[derive(Debug, Clone, Copy, PartialEq, Eq, Structural)]
pub enum SampleFormatIntUnsigned {
    U8,
    U16,
    U32,
    U64,
}

#[derive(Debug, Clone, Copy, PartialEq, Eq, Structural)]
pub enum SampleFormatFloat {
    F32,
    F64,
}

/// The description of a sample format shown to users.
pub open spec fn sample_format_name(f: SampleFormat) -> Seq<char> {
    match f {
        SampleFormat::Int(SampleFormatInt::I8) => "8-bit"@,
        SampleFormat::Int(SampleFormatInt::I16) => "16-bit"@,
        SampleFormat::Int(SampleFormatInt::I32) => "32-bit"@,
        SampleFormat::Int(SampleFormatInt::I64) => "64-bit"@,
        SampleFormat::IntUnsigned(SampleFormatIntUnsigned::U8) => "8-bit unsigned"@,
        SampleFormat::IntUnsigned(SampleFormatIntUnsigned::U16) => "16-bit unsigned"@,
        SampleFormat::IntUnsigned(SampleFormatIntUnsigned::U32) => "32-bit unsigned"@,
        SampleFormat::IntUnsigned(SampleFormatIntUnsigned::U64) => "64-bit unsigned"@,
        SampleFormat::Float(SampleFormatFloat::F32) => "32-bit floating point"@,
        SampleFormat::Float(SampleFormatFloat::F64) => "64-bit floating point"@,
    }
}

impl SampleFormat {
    /// The description shown to users, such as `"16-bit"` or `"32-bit floating point"`.
    pub fn name(&self) -> (r: String)
        ensures
            r@ == sample_format_name(*self),
    {
        match self {
            SampleFormat::Int(f) => match f {
                SampleFormatInt::I8 => String::from_str("8-bit"),
                SampleFormatInt::I16 => String::from_str("16-bit"),
                SampleFormatInt::I32 => String::from_str("32-bit"),
                SampleFormatInt::I64 => String::from_str("64-bit"),
            },
            SampleFormat::IntUnsigned(f) => match f {
                SampleFormatIntUnsigned::U8 => String::from_str("8-bit unsigned"),
                SampleFormatIntUnsigned::U16 => String::from_str("16-bit unsigned"),
                SampleFormatIntUnsigned::U32 => String::from_str("32-bit unsigned"),
                SampleFormatIntUnsigned::U64 => String::from_str("64-bit unsigned"),
            },
            SampleFormat::Float(f) => match f {
                SampleFormatFloat::F32 => String::from_str("32-bit floating point"),
                SampleFormatFloat::F64 => String::from_str("64-bit floating point"),
            },
        }
    }
}

/// The configuration an output stream is opened with.
#[derive(Debug, Clone, Copy, PartialEq, Eq, Structural)]
pub struct OutputConfig {
    pub channels: u16,
    pub sample_format: SampleFormat,
    pub sample_rate: u32,
    /// Buffer size in frames; `None` leaves it to the device.
    pub buffer_size: Option<u32>,
}

/// The configurations a device supports: its sample rates and buffer sizes, each an inclusive
/// range `(lowest, highest)`; no buffer size range when the device does not tell.
#[derive(Debug, Clone, Copy)]
pub struct OutputConfigRange {
    pub channels: u16,
    pub sample_format: SampleFormat,
    pub sample_rate: (u32, u32),
    pub buffer_size: Option<(u32, u32)>,
}

/// `x` moved into the inclusive range from `lo` to `hi`.
pub open spec fn clamp(x: u32, lo: u32, hi: u32) -> u32 {
    if x < lo {
        lo
    } else if x > hi {
        hi
    } else {
        x
    }
}

/// How far apart two values are.
pub open spec fn distance(a: int, b: int) -> int {
    if a >= b {
        a - b
    } else {
        b - a
    }
}

/// Choosing from a range: the chosen value lies in the range, is the preferred value itself when
/// that lies in the range, and no value of the range is nearer the preferred one.
pub proof fn lemma_clamp_nearest(x: u32, lo: u32, hi: u32)
    requires
        lo <= hi,
    ensures
        lo <= clamp(x, lo, hi) <= hi,
        lo <= x <= hi ==> clamp(x, lo, hi) == x,
        forall|y: u32| lo <= y <= hi ==> distance(clamp(x, lo, hi) as int, x as int) <= #[trigger] distance(y as int, x as int),
{
}

fn clamp_u32(x: u32, lo: u32, hi: u32) -> (r: u32)
    requires
        lo <= hi,
    ensures
        r == clamp(x, lo, hi),
        lo <= r <= hi,
        forall|y: u32| lo <= y <= hi ==> distance(r as int, x as int) <= #[trigger] distance(y as int, x as int),
{
    proof {
        lemma_clamp_nearest(x, lo, hi);
    }
    if x < lo {
        lo
    } else if x > hi {
        hi
    } else {
        x
    }
}

impl OutputConfigRange {
    /// The configuration within the range nearest to the preferred sample rate and buffer size.
    pub fn default_config(&self) -> (r: OutputConfig)
        requires
            self.sample_rate.0 <= self.sample_rate.1,
            self.buffer_size matches Some(b) ==> b.0 <= b.1,
        ensures
            r.channels == self.channels,
            r.sample_format == self.sample_format,
            r.sample_rate == clamp(PREFERRED_SAMPLE_RATE, self.sample_rate.0, self.sample_rate.1),
            r.buffer_size == match self.buffer_size {
                Some(b) => Some(clamp(PREFERRED_BUFFER_SIZE, b.0, b.1)),
                None => None,
            },
            self.sample_rate.0 <= r.sample_rate <= self.sample_rate.1,
            forall|y: u32| self.sample_rate.0 <= y <= self.sample_rate.1 ==> distance(
                r.sample_rate as int,
                PREFERRED_SAMPLE_RATE as int,
            ) <= #[trigger] distance(y as int, PREFERRED_SAMPLE_RATE as int),
            r.buffer_size is Some <==> self.buffer_size is Some,
            forall|n: u32, b: (u32, u32)| r.buffer_size == Some(n) && self.buffer_size == Some(b) ==> {
                &&& b.0 <= n <= b.1
                &&& forall|y: u32| b.0 <= y <= b.1 ==> distance(n as int, PREFERRED_BUFFER_SIZE as int) <= #[trigger] distance(
                    y as int,
                    PREFERRED_BUFFER_SIZE as int,
                )
            },
    {
        let sample_rate = clamp_u32(PREFERRED_SAMPLE_RATE, self.sample_rate.0, self.sample_rate.1);
        let buffer_size = match self.buffer_size {
            Some(b) => Some(clamp_u32(PREFERRED_BUFFER_SIZE, b.0, b.1)),
            None => None,
        };
        OutputConfig { channels: self.channels, sample_format: self.sample_format, sample_rate, buffer_size }
    }
}

/// What a component needs to know of the stream when it produces a buffer.
#[derive(Debug, Clone, Copy, PartialEq, Eq, Structural)]
pub struct Info {
    pub sample_rate: u32,
    pub buffer_size: usize,
}

impl Info {
    pub fn new(sample_rate: u32, buffer_size: usize) -> (r: Self)
        ensures
            r.sample_rate == sample_rate,
            r.buffer_size == buffer_size,
    {
        Info { sample_rate, buffer_size }
    }
}

} // verus!
