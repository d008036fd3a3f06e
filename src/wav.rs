//! Decoding of a minimal linear-PCM RIFF/WAVE container.

use vstd::prelude::*;

verus! {

/// Smallest buffer that can hold the outer header and the two chunks.
pub const MIN_WAV_LEN: usize = 44;

/// Offset of the first chunk, right after the outer header.
pub const FIRST_CHUNK: usize = 12;

/// Why a container was refused.
#[derive(Clone, Copy, Debug, PartialEq, Eq, Structural)]
pub enum WavError {
    /// Shorter than the minimal header size.
    TooSmall,
    /// The `RIFF` or `WAVE` marker is missing.
    MissingHeader,
    /// A `fmt ` chunk too short to hold the format fields.
    FormatChunkTruncated,
    /// No `data` chunk within the buffer.
    MissingData,
    /// The audio format code is not uncompressed PCM.
    NotPcm,
    /// Samples are not 16 bits wide.
    NotSixteenBit,
    /// More than one channel, or none.
    NotMono,
    /// A sample rate of zero.
    InvalidSampleRate,
}

impl WavError {
    /// A description of the error.
    pub fn message(&self) -> (r: &'static str)
        ensures
            *self == WavError::TooSmall ==> r@ == "buffer too small"@,
            *self == WavError::MissingHeader ==> r@ == "missing RIFF/WAVE header"@,
            *self == WavError::FormatChunkTruncated ==> r@ == "fmt chunk truncated"@,
            *self == WavError::MissingData ==> r@ == "missing data chunk"@,
            *self == WavError::NotPcm ==> r@ == "only PCM is supported"@,
            *self == WavError::NotSixteenBit ==> r@ == "only 16-bit PCM supported"@,
            *self == WavError::NotMono ==> r@ == "only mono audio supported"@,
            *self == WavError::InvalidSampleRate ==> r@ == "invalid sample rate"@,
    {
        match self {
            WavError::TooSmall => "buffer too small",
            WavError::MissingHeader => "missing RIFF/WAVE header",
            WavError::FormatChunkTruncated => "fmt chunk truncated",
            WavError::MissingData => "missing data chunk",
            WavError::NotPcm => "only PCM is supported",
            WavError::NotSixteenBit => "only 16-bit PCM supported",
            WavError::NotMono => "only mono audio supported",
            WavError::InvalidSampleRate => "invalid sample rate",
        }
    }
}

/// The fields of a `fmt ` chunk that decoding reads.
#[derive(Clone, Copy, Debug, PartialEq, Eq, Structural)]
pub struct WavFormat {
    pub audio_format: u16,
    pub channels: u16,
    pub sample_rate: u32,
    pub bits_per_sample: u16,
}

/// Where the walk over the chunks stopped.
pub enum ChunkScan {
    /// A `data` chunk: where its bytes start and how many there are.
    Data { start: int, size: int },
    /// A `fmt ` chunk whose fields run past the end of the buffer.
    FormatTruncated,
    /// The chunks ran out, or one claimed more bytes than remain.
    NoData,
}

pub open spec fn le_u16(b: Seq<u8>, i: int) -> int {
    b[i] as int + 256 * b[i + 1] as int
}

pub open spec fn le_u32(b: Seq<u8>, i: int) -> int {
    b[i] as int + 256 * b[i + 1] as int + 65536 * b[i + 2] as int + 16777216 * b[i + 3] as int
}

/// The signed 16-bit little-endian value at `i`.
pub open spec fn le_i16(b: Seq<u8>, i: int) -> int {
    if le_u16(b, i) >= 32768 {
        le_u16(b, i) - 65536
    } else {
        le_u16(b, i)
    }
}

pub open spec fn has_tag(b: Seq<u8>, i: int, t: Seq<u8>) -> bool {
    b[i] == t[0] && b[i + 1] == t[1] && b[i + 2] == t[2] && b[i + 3] == t[3]
}

pub open spec fn riff_tag() -> Seq<u8> {
    seq![0x52u8, 0x49u8, 0x46u8, 0x46u8]
}

pub open spec fn wave_tag() -> Seq<u8> {
    seq![0x57u8, 0x41u8, 0x56u8, 0x45u8]
}

pub open spec fn fmt_tag() -> Seq<u8> {
    seq![0x66u8, 0x6du8, 0x74u8, 0x20u8]
}

pub open spec fn data_tag() -> Seq<u8> {
    seq![0x64u8, 0x61u8, 0x74u8, 0x61u8]
}

/// The format fields of a `fmt ` chunk whose body starts at `s`.
pub open spec fn format_at(b: Seq<u8>, s: int) -> WavFormat {
    WavFormat {
        audio_format: le_u16(b, s) as u16,
        channels: le_u16(b, s + 2) as u16,
        sample_rate: le_u32(b, s + 4) as u32,
        bits_per_sample: le_u16(b, s + 14) as u16,
    }
}

/// Walks the chunks from `i` on, with `f` the format fields seen so far (the
/// last `fmt ` chunk wins), up to the first `data` chunk.
pub open spec fn scan_chunks(b: Seq<u8>, i: int, f: WavFormat) -> (ChunkScan, WavFormat)
    decreases b.len() - i,
{
    if i < 0 || i + 8 > b.len() {
        (ChunkScan::NoData, f)
    } else {
        let start = i + 8;
        let size = le_u32(b, i + 4);
        if start + size > b.len() {
            (ChunkScan::NoData, f)
        } else if has_tag(b, i, fmt_tag()) {
            if start + 16 > b.len() {
                (ChunkScan::FormatTruncated, f)
            } else {
                scan_chunks(b, start + size, format_at(b, start))
            }
        } else if has_tag(b, i, data_tag()) {
            (ChunkScan::Data { start, size }, f)
        } else {
            scan_chunks(b, start + size, f)
        }
    }
}

/// Format fields before any `fmt ` chunk was seen.
pub open spec fn no_format() -> WavFormat {
    WavFormat { audio_format: 0, channels: 0, sample_rate: 0, bits_per_sample: 0 }
}

/// The `count` samples stored from byte `start` on.
pub open spec fn samples_at(b: Seq<u8>, start: int, count: int) -> Seq<i16> {
    Seq::new(count as nat, |k: int| le_i16(b, start + 2 * k) as i16)
}

/// What decoding `b` gives: the samples and the sample rate, or the error.
pub open spec fn wav_spec(b: Seq<u8>) -> Result<(Seq<i16>, u32), WavError> {
    if b.len() < MIN_WAV_LEN {
        Err(WavError::TooSmall)
    } else if !has_tag(b, 0, riff_tag()) || !has_tag(b, 8, wave_tag()) {
        Err(WavError::MissingHeader)
    } else {
        let (scan, f) = scan_chunks(b, FIRST_CHUNK as int, no_format());
        match scan {
            ChunkScan::FormatTruncated => Err(WavError::FormatChunkTruncated),
            ChunkScan::NoData => Err(WavError::MissingData),
            ChunkScan::Data { start, size } => {
                if f.audio_format != 1 {
                    Err(WavError::NotPcm)
                } else if f.bits_per_sample != 16 {
                    Err(WavError::NotSixteenBit)
                } else if f.channels != 1 {
                    Err(WavError::NotMono)
                } else if f.sample_rate == 0 {
                    Err(WavError::InvalidSampleRate)
                } else {
                    Ok((samples_at(b, start, size / 2), f.sample_rate))
                }
            },
        }
    }
}

fn read_u16(b: &[u8], i: usize) -> (r: u16)
    requires
        i + 2 <= b@.len(),
    ensures
        r as int == le_u16(b@, i as int),
{
    b[i] as u16 + 256 * (b[i + 1] as u16)
}

fn read_u32(b: &[u8], i: usize) -> (r: u32)
    requires
        i + 4 <= b@.len(),
    ensures
        r as int == le_u32(b@, i as int),
{
    b[i] as u32 + 256 * (b[i + 1] as u32) + 65536 * (b[i + 2] as u32) + 16777216 * (b[i + 3]
        as u32)
}

fn read_i16(b: &[u8], i: usize) -> (r: i16)
    requires
        i + 2 <= b@.len(),
    ensures
        r as int == le_i16(b@, i as int),
{
    let v = read_u16(b, i);
    if v >= 32768 {
        (v as i32 - 65536) as i16
    } else {
        v as i16
    }
}

fn tag_is(b: &[u8], i: usize, t0: u8, t1: u8, t2: u8, t3: u8) -> (r: bool)
    requires
        i + 4 <= b@.len(),
    ensures
        r == has_tag(b@, i as int, seq![t0, t1, t2, t3]),
{
    b[i] == t0 && b[i + 1] == t1 && b[i + 2] == t2 && b[i + 3] == t3
}

/// Decodes a mono 16-bit PCM container into its samples and sample rate.
pub fn parse_wav(buf: &[u8]) -> (r: Result<(Vec<i16>, u32), WavError>)
    ensures
        match r {
            Ok((pcm, rate)) => wav_spec(buf@) == Ok::<(Seq<i16>, u32), WavError>((pcm@, rate)),
            Err(e) => wav_spec(buf@) == Err::<(Seq<i16>, u32), WavError>(e),
        },
{
    let ghost b = buf@;
    if buf.len() < MIN_WAV_LEN {
        return Err(WavError::TooSmall);
    }
    assert(riff_tag() == seq![0x52u8, 0x49u8, 0x46u8, 0x46u8]);
    assert(wave_tag() == seq![0x57u8, 0x41u8, 0x56u8, 0x45u8]);
    if !tag_is(buf, 0, 0x52, 0x49, 0x46, 0x46) || !tag_is(buf, 8, 0x57, 0x41, 0x56, 0x45) {
        return Err(WavError::MissingHeader);
    }
    let mut fmt = WavFormat { audio_format: 0, channels: 0, sample_rate: 0, bits_per_sample: 0 };
    let mut idx: usize = FIRST_CHUNK;
    let mut data: Option<(usize, usize)> = None;
    let ghost whole = scan_chunks(b, FIRST_CHUNK as int, no_format());
    while idx <= buf.len() && buf.len() - idx >= 8
        invariant_except_break
            data is None,
            scan_chunks(b, idx as int, fmt) == whole,
        invariant
            b == buf@,
            idx <= buf.len() + 8,
            whole == scan_chunks(b, FIRST_CHUNK as int, no_format()),
            b.len() >= MIN_WAV_LEN,
            has_tag(b, 0, riff_tag()) && has_tag(b, 8, wave_tag()),
        ensures
            match data {
                None => whole.0 is NoData && whole.1 == fmt,
                Some(d) => whole == (ChunkScan::Data { start: d.0 as int, size: d.1 as int }, fmt)
                    && d.0 + d.1 <= buf.len(),
            },
        decreases buf.len() + 8 - idx,
    {
        assert(fmt_tag() == seq![0x66u8, 0x6du8, 0x74u8, 0x20u8]);
        assert(data_tag() == seq![0x64u8, 0x61u8, 0x74u8, 0x61u8]);
        let chunk_size = read_u32(buf, idx + 4) as usize;
        let chunk_start = idx + 8;
        if chunk_size > buf.len() - chunk_start {
            break;
        }
        if tag_is(buf, idx, 0x66, 0x6d, 0x74, 0x20) {
            if buf.len() - chunk_start < 16 {
                assert(whole.0 is FormatTruncated);
                return Err(WavError::FormatChunkTruncated);
            }
            fmt = WavFormat {
                audio_format: read_u16(buf, chunk_start),
                channels: read_u16(buf, chunk_start + 2),
                sample_rate: read_u32(buf, chunk_start + 4),
                bits_per_sample: read_u16(buf, chunk_start + 14),
            };
        } else if tag_is(buf, idx, 0x64, 0x61, 0x74, 0x61) {
            data = Some((chunk_start, chunk_size));
            break;
        }
        idx = chunk_start + chunk_size;
    }
    let (data_start, data_size) = match data {
        Some(d) => d,
        None => {
            return Err(WavError::MissingData);
        },
    };
    if fmt.audio_format != 1 {
        return Err(WavError::NotPcm);
    }
    if fmt.bits_per_sample != 16 {
        return Err(WavError::NotSixteenBit);
    }
    if fmt.channels != 1 {
        return Err(WavError::NotMono);
    }
    if fmt.sample_rate == 0 {
        return Err(WavError::InvalidSampleRate);
    }
    let count = data_size / 2;
    let mut pcm: Vec<i16> = Vec::with_capacity(count);
    let mut k: usize = 0;
    while k < count
        invariant
            b == buf@,
            data_start + data_size <= buf.len(),
            count == data_size / 2,
            k <= count,
            pcm@ =~= samples_at(b, data_start as int, count as int).take(k as int),
        decreases count - k,
    {
        pcm.push(read_i16(buf, data_start + 2 * k));
        k = k + 1;
    }
    assert(pcm@ =~= samples_at(b, data_start as int, count as int));
    Ok((pcm, fmt.sample_rate))
}

} // verus!
