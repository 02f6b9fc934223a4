//! The WAV file that system-audio capture writes, and the bookkeeping of the
//! capture loop that feeds it.

use vstd::prelude::*;
use crate::text::{push_str, string_from_chars};

verus! {

broadcast use vstd::string::group_string_axioms;

/// The four little-endian bytes of `v`.
pub open spec fn le_bytes(v: u32) -> Seq<u8> {
    seq![(v % 256) as u8, ((v / 256) % 256) as u8, ((v / 65536) % 256) as u8, (v / 16777216) as u8]
}

fn push_le32(out: &mut Vec<u8>, v: u32)
    ensures
        final(out)@ == old(out)@ + le_bytes(v),
{
    out.push((v % 256) as u8);
    out.push(((v / 256) % 256) as u8);
    out.push(((v / 65536) % 256) as u8);
    out.push((v / 16777216) as u8);
    assert(final(out)@ =~= old(out)@ + le_bytes(v)) by {
        assert(v / 16777216 < 256);
    }
}

fn push_tag(out: &mut Vec<u8>, a: u8, b: u8, c: u8, d: u8)
    ensures
        final(out)@ == old(out)@ + seq![a, b, c, d],
{
    out.push(a);
    out.push(b);
    out.push(c);
    out.push(d);
    assert(final(out)@ =~= old(out)@ + seq![a, b, c, d]);
}

pub open spec fn riff_tag() -> Seq<u8> { seq![0x52u8, 0x49u8, 0x46u8, 0x46u8] }
pub open spec fn wave_tag() -> Seq<u8> { seq![0x57u8, 0x41u8, 0x56u8, 0x45u8] }
pub open spec fn fmt_tag() -> Seq<u8> { seq![0x66u8, 0x6Du8, 0x74u8, 0x20u8] }
pub open spec fn data_tag() -> Seq<u8> { seq![0x64u8, 0x61u8, 0x74u8, 0x61u8] }

/// The header of a WAV file for the wave format block `format`, with both
/// sizes left zero until the file is finished: `RIFF`, size, `WAVE`, the
/// `fmt ` chunk (padded to an even length), and the `data` chunk's head.
pub open spec fn wav_header_bytes(format: Seq<u8>) -> Seq<u8> {
    riff_tag() + le_bytes(0) + wave_tag() + fmt_tag() + le_bytes(format.len() as u32) + format
        + (if format.len() % 2 != 0 { seq![0u8] } else { seq![] }) + data_tag() + le_bytes(0)
}

/// A WAV header and where its two size fields are.
pub struct WavHeader {
    pub bytes: Vec<u8>,
    /// Offset of the RIFF chunk's size.
    pub riff_size_offset: u64,
    /// Offset of the data chunk's size.
    pub data_size_offset: u64,
}

/// Why a WAV file could not be started.
#[derive(Clone, Copy, Debug, PartialEq, Eq, Structural)]
pub enum WavError {
    FormatTooLarge,
}

impl WavError {
    pub fn message(&self) -> (m: String)
        ensures
            m@ == "WAV format block is too large"@,
    {
        "WAV format block is too large".to_string()
    }
}

/// The header of a WAV file with the format block `format_bytes`; refused
/// when the block does not fit a 32-bit length.
pub fn wav_header(format_bytes: &Vec<u8>) -> (r: Result<WavHeader, WavError>)
    ensures
        format_bytes@.len() > u32::MAX ==> r == Err::<WavHeader, WavError>(WavError::FormatTooLarge),
        format_bytes@.len() <= u32::MAX ==> r is Ok && r->Ok_0.bytes@ == wav_header_bytes(format_bytes@)
            && r->Ok_0.riff_size_offset == 4
            && r->Ok_0.data_size_offset == wav_header_bytes(format_bytes@).len() - 4,
{
    if format_bytes.len() as u64 > u32::MAX as u64 {
        return Err(WavError::FormatTooLarge);
    }
    let len = format_bytes.len() as u32;
    let mut out: Vec<u8> = Vec::new();
    push_tag(&mut out, 0x52, 0x49, 0x46, 0x46);
    push_le32(&mut out, 0);
    push_tag(&mut out, 0x57, 0x41, 0x56, 0x45);
    push_tag(&mut out, 0x66, 0x6D, 0x74, 0x20);
    push_le32(&mut out, len);
    let ghost before = out@;
    let mut i: usize = 0;
    while i < format_bytes.len()
        invariant
            i <= format_bytes@.len(),
            out@ == before + format_bytes@.subrange(0, i as int),
        decreases format_bytes.len() - i,
    {
        out.push(format_bytes[i]);
        i += 1;
        assert(out@ =~= before + format_bytes@.subrange(0, i as int));
    }
    assert(format_bytes@.subrange(0, format_bytes@.len() as int) =~= format_bytes@);
    if format_bytes.len() % 2 != 0 {
        out.push(0u8);
    }
    push_tag(&mut out, 0x64, 0x61, 0x74, 0x61);
    let data_size_offset = out.len() as u64;
    push_le32(&mut out, 0);
    assert(out@ =~= wav_header_bytes(format_bytes@));
    Ok(WavHeader { bytes: out, riff_size_offset: 4, data_size_offset })
}

/// Data bytes written after a chunk of `len` more bytes, saturating.
pub fn wav_data_written_after(written: u64, chunk_len: usize) -> (w: u64)
    ensures
        w == (if written + chunk_len > u64::MAX { u64::MAX as int } else { written + chunk_len }),
{
    written.saturating_add(chunk_len as u64)
}

/// The two sizes written into a finished WAV file of `file_len` bytes that
/// holds `written_data_bytes` of samples: the RIFF size (the file less its
/// first 8 bytes) and the data size, each capped at the 32-bit maximum.
pub fn wav_final_sizes(file_len: u64, written_data_bytes: u64) -> (r: (u32, u32))
    ensures
        r.0 == (if file_len < 8 { 0 } else if file_len - 8 > u32::MAX { u32::MAX as int } else { file_len - 8 }),
        r.1 == (if written_data_bytes > u32::MAX { u32::MAX as int } else { written_data_bytes as int }),
{
    let riff = file_len.saturating_sub(8);
    let riff_size = if riff > u32::MAX as u64 { u32::MAX } else { riff as u32 };
    let data_size = if written_data_bytes > u32::MAX as u64 { u32::MAX } else { written_data_bytes as u32 };
    (riff_size, data_size)
}

/// The little-endian bytes of a size field.
pub fn le32_bytes(v: u32) -> (b: Vec<u8>)
    ensures
        b@ == le_bytes(v),
{
    let mut b: Vec<u8> = Vec::new();
    push_le32(&mut b, v);
    assert(b@ =~= le_bytes(v));
    b
}

// ---------------------------------------------------------------------------
// The capture loop
// ---------------------------------------------------------------------------

/// Why the capture of the system's output could not run.
#[derive(Clone, Debug, PartialEq, Eq)]
pub enum LoopbackError {
    /// The mix format has a zero block alignment.
    InvalidBlockAlign,
    /// The capture thread reported an error while starting.
    Startup(String),
    /// The capture thread did not report back in time.
    TimedOut,
    /// The capture thread panicked while starting.
    Panicked,
    /// The capture thread ended without reporting back.
    ExitedEarly,
}

impl LoopbackError {
    pub fn message(&self) -> (m: String)
        ensures
            m@ == match self {
                LoopbackError::InvalidBlockAlign => "WASAPI loopback returned invalid block alignment (0)"@,
                LoopbackError::Startup(e) => e@,
                LoopbackError::TimedOut => "Timed out while starting WASAPI loopback audio capture"@,
                LoopbackError::Panicked => "WASAPI loopback capture thread panicked during startup"@,
                LoopbackError::ExitedEarly => "WASAPI loopback capture thread exited unexpectedly during startup"@,
            },
    {
        match self {
            LoopbackError::InvalidBlockAlign => "WASAPI loopback returned invalid block alignment (0)".to_string(),
            LoopbackError::Startup(e) => e.clone(),
            LoopbackError::TimedOut => "Timed out while starting WASAPI loopback audio capture".to_string(),
            LoopbackError::Panicked => "WASAPI loopback capture thread panicked during startup".to_string(),
            LoopbackError::ExitedEarly => "WASAPI loopback capture thread exited unexpectedly during startup".to_string(),
        }
    }
}

/// The block alignment of the mix format must not be zero.
pub fn check_block_align(block_align: usize) -> (r: Result<usize, LoopbackError>)
    ensures
        block_align == 0 ==> r == Err::<usize, LoopbackError>(LoopbackError::InvalidBlockAlign),
        block_align > 0 ==> r == Ok::<usize, LoopbackError>(block_align),
{
    if block_align == 0 { Err(LoopbackError::InvalidBlockAlign) } else { Ok(block_align) }
}

/// Bytes in a packet of `frame_count` frames, saturating.
pub fn packet_byte_count(frame_count: u32, block_align: usize) -> (n: usize)
    ensures
        n == (if frame_count * block_align > usize::MAX { usize::MAX as int } else { frame_count * block_align }),
{
    assert(frame_count as u128 * block_align as u128 <= u32::MAX as u128 * u64::MAX as u128) by (nonlinear_arith)
        requires frame_count <= u32::MAX, block_align <= u64::MAX;
    let p: u128 = frame_count as u128 * block_align as u128;
    if p > usize::MAX as u128 { usize::MAX } else { p as usize }
}

/// A packet is written as silence when the device flags it silent, gives no
/// buffer, or is empty.
pub fn packet_is_silent(flags: u32, silent_flag: u32, data_is_null: bool, byte_count: usize) -> (b: bool)
    ensures
        b == ((flags & silent_flag) != 0 || data_is_null || byte_count == 0),
{
    (flags & silent_flag) != 0 || data_is_null || byte_count == 0
}

/// What the capture thread reported while starting.
#[derive(Clone, Debug)]
pub enum LoopbackStartup {
    Ready,
    Failed(String),
    TimedOut,
    /// The thread ended without reporting; how it ended.
    Disconnected(ThreadEnd),
}

/// How the capture thread ended.
#[derive(Clone, Debug)]
pub enum ThreadEnd {
    Finished,
    Failed(String),
    Panicked,
}

/// The result of starting the capture, from what the thread reported.
pub fn loopback_startup_result(report: LoopbackStartup) -> (r: Result<(), LoopbackError>)
    ensures
        match report {
            LoopbackStartup::Ready => r is Ok,
            LoopbackStartup::Failed(e) => r is Err && (r->Err_0 matches LoopbackError::Startup(m) && m@ == e@),
            LoopbackStartup::TimedOut => r == Err::<(), LoopbackError>(LoopbackError::TimedOut),
            LoopbackStartup::Disconnected(end) => match end {
                ThreadEnd::Failed(e) => r is Err && (r->Err_0 matches LoopbackError::Startup(m) && m@ == e@),
                ThreadEnd::Panicked => r == Err::<(), LoopbackError>(LoopbackError::Panicked),
                ThreadEnd::Finished => r == Err::<(), LoopbackError>(LoopbackError::ExitedEarly),
            },
        },
{
    match report {
        LoopbackStartup::Ready => Ok(()),
        LoopbackStartup::Failed(e) => Err(LoopbackError::Startup(e)),
        LoopbackStartup::TimedOut => Err(LoopbackError::TimedOut),
        LoopbackStartup::Disconnected(end) => match end {
            ThreadEnd::Failed(e) => Err(LoopbackError::Startup(e)),
            ThreadEnd::Panicked => Err(LoopbackError::Panicked),
            ThreadEnd::Finished => Err(LoopbackError::ExitedEarly),
        },
    }
}

} // verus!
