//! Bounded RIFF/WAVE container parser for Source audio assets.
use vstd::prelude::*;
use core::ops::Range;
use crate::text::{byte_list, decimal, push_byte_list, push_decimal, push_str};
use crate::binary::{self, Reader, le_value, lemma_pow256_values, lemma_le_value_bound, pow256};

verus! {

pub const WAVE_FORMAT_PCM: u16 = 0x0001;
pub const WAVE_FORMAT_IEEE_FLOAT: u16 = 0x0003;
pub const WAVE_FORMAT_EXTENSIBLE: u16 = 0xfffe;

/// The largest file, chunk count, channel count and sample rate a parse accepts.
#[derive(Debug, Clone, Copy)]
pub struct Limits {
    pub max_file_size: usize,
    pub max_chunks: usize,
    pub max_channels: u16,
    pub max_sample_rate: u32,
}

impl Default for Limits {
    fn default() -> (r: Self)
        ensures
            r == default_limits(),
    {
        Limits {
            max_file_size: 1024 * 1024 * 1024,
            max_chunks: 65_536,
            max_channels: 32,
            max_sample_rate: 768_000,
        }
    }
}

pub open spec fn default_limits() -> Limits {
    Limits {
        max_file_size: 0x4000_0000,
        max_chunks: 65_536,
        max_channels: 32,
        max_sample_rate: 768_000,
    }
}

/// One RIFF chunk: its four-byte id and where its payload lies in the file.
#[derive(Debug, PartialEq, Eq)]
pub struct Chunk {
    pub id: [u8; 4],
    pub data: Range<usize>,
}

impl Clone for Chunk {
    fn clone(&self) -> (r: Self)
        ensures
            r == *self,
    {
        Chunk { id: self.id, data: Range { start: self.data.start, end: self.data.end } }
    }
}

/// The `fmt ` chunk's fields.
#[derive(Debug, Clone, PartialEq, Eq)]
pub struct Format {
    pub format_tag: u16,
    pub channels: u16,
    pub sample_rate: u32,
    pub average_bytes_per_second: u32,
    pub block_align: u16,
    pub bits_per_sample: u16,
    pub extension: Vec<u8>,
    /// False for Valve's known PCM quirk where `block_align` is 1 even for
    /// 16-bit mono data. `sample_frame_bytes` remains safe for decoding.
    pub pcm_layout_consistent: bool,
}

/// A `Format` with its extension bytes as a sequence.
pub struct FormatView {
    pub format_tag: u16,
    pub channels: u16,
    pub sample_rate: u32,
    pub average_bytes_per_second: u32,
    pub block_align: u16,
    pub bits_per_sample: u16,
    pub extension: Seq<u8>,
    pub pcm_layout_consistent: bool,
}

impl View for Format {
    type V = FormatView;

    open spec fn view(&self) -> FormatView {
        FormatView {
            format_tag: self.format_tag,
            channels: self.channels,
            sample_rate: self.sample_rate,
            average_bytes_per_second: self.average_bytes_per_second,
            block_align: self.block_align,
            bits_per_sample: self.bits_per_sample,
            extension: self.extension@,
            pcm_layout_consistent: self.pcm_layout_consistent,
        }
    }
}

/// PCM and IEEE float data are laid out as whole samples per channel.
pub open spec fn is_pcm_like(tag: u16) -> bool {
    tag == WAVE_FORMAT_PCM || tag == WAVE_FORMAT_IEEE_FLOAT
}

/// Bytes per sample: the bit width rounded up to whole bytes.
pub open spec fn sample_bytes(bits: u16) -> nat {
    (bits as nat + 7) / 8
}

/// How many bytes one frame of samples takes, or `None` where that does not fit a `usize`.
pub open spec fn spec_sample_frame_bytes(tag: u16, channels: u16, bits: u16, block_align: u16) -> Option<usize> {
    if is_pcm_like(tag) {
        if channels * sample_bytes(bits) <= usize::MAX {
            Some((channels * sample_bytes(bits)) as usize)
        } else {
            None
        }
    } else {
        Some(block_align as usize)
    }
}

impl Format {
    pub fn sample_frame_bytes(&self) -> (r: Option<usize>)
        ensures
            r == spec_sample_frame_bytes(self.format_tag, self.channels, self.bits_per_sample, self.block_align),
    {
        if self.format_tag == WAVE_FORMAT_PCM || self.format_tag == WAVE_FORMAT_IEEE_FLOAT {
            let per_sample = (self.bits_per_sample as usize + 7) / 8;
            (self.channels as usize).checked_mul(per_sample)
        } else {
            Some(self.block_align as usize)
        }
    }
}

/// Why a file was refused.
#[derive(Debug)]
pub enum Error {
    Binary(binary::Error),
    FileTooLarge { size: usize, limit: usize },
    InvalidSignature([u8; 4]),
    InvalidForm([u8; 4]),
    DeclaredSizeMismatch { declared: usize, actual: usize },
    ChunkLimitExceeded(usize),
    InvalidChunkRange { id: [u8; 4], offset: usize, size: usize },
    DuplicateChunk([u8; 4]),
    MissingFormatChunk,
    MissingDataChunk,
    InvalidFormatChunk(usize),
    InvalidChannels(u16),
    InvalidSampleRate(u32),
    InvalidBlockAlign(u16),
    InvalidBitsPerSample(u16),
    InvalidPcmLayout,
    InvalidFormatExtension { declared: usize, available: usize },
    MisalignedSampleData { size: usize, block_align: u16 },
    SizeOverflow,
}

pub type Result<T> = core::result::Result<T, Error>;

// ---------------------------------------------------------------------------
// The format, as a function of the file's bytes
// ---------------------------------------------------------------------------

pub open spec fn u16_at(s: Seq<u8>, at: int) -> u16 {
    le_value(s.subrange(at, at + 2)) as u16
}

pub open spec fn u32_at(s: Seq<u8>, at: int) -> u32 {
    le_value(s.subrange(at, at + 4)) as u32
}

pub open spec fn id_at(s: Seq<u8>, at: int) -> [u8; 4] {
    [s[at], s[at + 1], s[at + 2], s[at + 3]]
}

pub open spec fn riff_id() -> [u8; 4] {
    [0x52, 0x49, 0x46, 0x46]
}

pub open spec fn wave_id() -> [u8; 4] {
    [0x57, 0x41, 0x56, 0x45]
}

pub open spec fn fmt_id() -> [u8; 4] {
    [0x66, 0x6d, 0x74, 0x20]
}

pub open spec fn data_id() -> [u8; 4] {
    [0x64, 0x61, 0x74, 0x61]
}

pub open spec fn eof(offset: nat, requested: nat, remaining: nat) -> Error {
    Error::Binary(
        binary::Error::UnexpectedEof {
            offset: offset as usize,
            requested: requested as usize,
            remaining: remaining as usize,
        },
    )
}

/// What the `fmt ` chunk's bytes say, or why they are refused.
pub open spec fn format_spec(b: Seq<u8>, limits: Limits) -> Result<FormatView> {
    let len = b.len();
    if len < 16 {
        Err(Error::InvalidFormatChunk(len as usize))
    } else {
        let tag = u16_at(b, 0);
        let channels = u16_at(b, 2);
        let rate = u32_at(b, 4);
        let average = u32_at(b, 8);
        let align = u16_at(b, 12);
        let bits = u16_at(b, 14);
        if channels == 0 || channels > limits.max_channels {
            Err(Error::InvalidChannels(channels))
        } else if rate == 0 || rate > limits.max_sample_rate {
            Err(Error::InvalidSampleRate(rate))
        } else if align == 0 {
            Err(Error::InvalidBlockAlign(align))
        } else if bits == 0 || bits > 64 {
            Err(Error::InvalidBitsPerSample(bits))
        } else {
            let extension: Result<Seq<u8>> = if len == 16 {
                Ok(Seq::empty())
            } else if is_pcm_like(tag) {
                Ok(b.subrange(16, len as int))
            } else if len < 18 {
                Err(eof(16, 2, (len - 16) as nat))
            } else {
                let declared = u16_at(b, 16);
                if declared > len - 18 {
                    Err(
                        Error::InvalidFormatExtension {
                            declared: declared as usize,
                            available: (len - 18) as usize,
                        },
                    )
                } else {
                    Ok(b.subrange(18, 18 + declared))
                }
            };
            match extension {
                Err(e) => Err(e),
                Ok(extension) => {
                    let view = FormatView {
                        format_tag: tag,
                        channels,
                        sample_rate: rate,
                        average_bytes_per_second: average,
                        block_align: align,
                        bits_per_sample: bits,
                        extension,
                        pcm_layout_consistent: true,
                    };
                    if is_pcm_like(tag) {
                        let expected_align = channels * sample_bytes(bits);
                        let expected_rate = rate * expected_align;
                        if expected_rate > usize::MAX {
                            Err(Error::SizeOverflow)
                        } else if average != expected_rate {
                            Err(Error::InvalidPcmLayout)
                        } else {
                            Ok(FormatView { pcm_layout_consistent: align == expected_align, ..view })
                        }
                    } else {
                        Ok(view)
                    }
                }
            }
        }
    }
}

/// The chunks from offset `pos` on, and whether the last one omits its pad byte at the end
/// of the file; `count` chunks have been read before `pos`.
pub open spec fn walk(s: Seq<u8>, pos: nat, count: nat, max_chunks: nat) -> Result<(Seq<Chunk>, bool)>
    decreases s.len() - pos,
{
    let len = s.len();
    if pos >= len {
        Ok((Seq::empty(), false))
    } else if count >= max_chunks {
        Err(Error::ChunkLimitExceeded(max_chunks as usize))
    } else if pos + 4 > len {
        Err(eof(pos, 4, (len - pos) as nat))
    } else if pos + 8 > len {
        Err(eof(pos + 4, 4, (len - pos - 4) as nat))
    } else {
        let id = id_at(s, pos as int);
        let size = u32_at(s, pos + 4int);
        let start = pos + 8;
        let end = start + size;
        if end > usize::MAX {
            Err(Error::SizeOverflow)
        } else if end > len {
            Err(Error::InvalidChunkRange { id, offset: start as usize, size: size as usize })
        } else {
            let chunk = Chunk { id, data: Range { start: start as usize, end: end as usize } };
            if size % 2 == 1 && end == len {
                Ok((seq![chunk], true))
            } else {
                let next: nat = if size % 2 == 1 {
                    (end + 1) as nat
                } else {
                    end as nat
                };
                match walk(s, next, count + 1, max_chunks) {
                    Ok((rest, missing)) => Ok((seq![chunk] + rest, missing)),
                    Err(e) => Err(e),
                }
            }
        }
    }
}

/// The last of `chunks` has an odd size and ends where the file does, so its pad byte
/// is missing.
pub open spec fn ends_unpadded(chunks: Seq<Chunk>, len: nat) -> bool {
    chunks.len() > 0 && (chunks.last().data.end - chunks.last().data.start) % 2 == 1
        && chunks.last().data.end == len
}

proof fn lemma_walk_missing(s: Seq<u8>, pos: nat, count: nat, max_chunks: nat)
    ensures
        walk(s, pos, count, max_chunks) matches Ok((chunks, missing)) ==> (missing <==> ends_unpadded(
            chunks,
            s.len(),
        )),
    decreases s.len() - pos,
{
    let len = s.len();
    if pos < len && count < max_chunks && pos + 8 <= len {
        let size = u32_at(s, pos + 4int);
        let end = pos + 8 + size;
        if end <= usize::MAX && end <= len && !(size % 2 == 1 && end == len) {
            let next: nat = if size % 2 == 1 {
                (end + 1) as nat
            } else {
                end as nat
            };
            lemma_walk_missing(s, next, count + 1, max_chunks);
            if let Ok((rest, missing)) = walk(s, next, count + 1, max_chunks) {
                let chunks = walk(s, pos, count, max_chunks)->Ok_0.0;
                assert(chunks == seq![chunks[0]] + rest);
                if rest.len() > 0 {
                    assert(chunks.last() == rest.last());
                }
            }
        }
    }
}

/// A parsed file is missing its final pad byte exactly when its last chunk has an odd
/// size and ends at the end of the file; an odd chunk anywhere else is followed by its
/// pad byte.
pub proof fn lemma_missing_padding_is_an_odd_last_chunk(s: Seq<u8>, limits: Limits)
    requires
        wave_spec(s, limits) is Ok,
    ensures
        wave_spec(s, limits)->Ok_0.missing_final_padding <==> ends_unpadded(
            wave_spec(s, limits)->Ok_0.chunks,
            s.len(),
        ),
{
    lemma_walk_missing(s, 12, 0, limits.max_chunks as nat);
}

/// Two chunks carry this id.
pub open spec fn has_two(chunks: Seq<Chunk>, id: [u8; 4]) -> bool {
    exists|i: int, j: int| 0 <= i < j < chunks.len() && chunks[i].id == id && chunks[j].id == id
}

/// Some chunk carries this id.
pub open spec fn has_one(chunks: Seq<Chunk>, id: [u8; 4]) -> bool {
    exists|i: int| 0 <= i < chunks.len() && chunks[i].id == id
}

/// The payloads of the `data` chunks, in file order.
pub open spec fn data_ranges(chunks: Seq<Chunk>) -> Seq<Range<usize>> {
    chunks.filter(|c: Chunk| c.id == data_id()).map_values(|c: Chunk| c.data)
}

/// The first range whose size is not a whole number of frames.
pub open spec fn first_misaligned(ranges: Seq<Range<usize>>, frame: nat) -> Option<Range<usize>>
    decreases ranges.len(),
{
    if ranges.len() == 0 {
        None
    } else if (ranges[0].end - ranges[0].start) % (frame as int) != 0 {
        Some(ranges[0])
    } else {
        first_misaligned(ranges.drop_first(), frame)
    }
}

/// A parsed file: its bytes, format, every chunk, and the `data` payloads.
pub struct WaveView {
    pub bytes: Seq<u8>,
    pub format: FormatView,
    pub chunks: Seq<Chunk>,
    pub data_chunks: Seq<Range<usize>>,
    pub missing_final_padding: bool,
}

/// What a file parses to under `limits`, or why it is refused.
pub open spec fn wave_spec(s: Seq<u8>, limits: Limits) -> Result<WaveView> {
    let len = s.len();
    if len > limits.max_file_size {
        Err(Error::FileTooLarge { size: len as usize, limit: limits.max_file_size })
    } else if len < 4 {
        Err(eof(0, 4, len))
    } else if id_at(s, 0) != riff_id() {
        Err(Error::InvalidSignature(id_at(s, 0)))
    } else if len < 8 {
        Err(eof(4, 4, (len - 4) as nat))
    } else {
        let declared = u32_at(s, 4) + 8;
        let permits_missing = declared == if len < usize::MAX { len + 1int } else { len as int };
        if declared > usize::MAX {
            Err(Error::SizeOverflow)
        } else if declared != len && !permits_missing {
            Err(Error::DeclaredSizeMismatch { declared: declared as usize, actual: len as usize })
        } else if len < 12 {
            Err(eof(8, 4, (len - 8) as nat))
        } else if id_at(s, 8) != wave_id() {
            Err(Error::InvalidForm(id_at(s, 8)))
        } else {
            match walk(s, 12, 0, limits.max_chunks as nat) {
                Err(e) => Err(e),
                Ok((chunks, missing)) => {
                    if permits_missing && !missing {
                        Err(Error::DeclaredSizeMismatch { declared: declared as usize, actual: len as usize })
                    } else if has_two(chunks, fmt_id()) {
                        Err(Error::DuplicateChunk(fmt_id()))
                    } else if !has_one(chunks, fmt_id()) {
                        Err(Error::MissingFormatChunk)
                    } else {
                        let k = choose|k: int| 0 <= k < chunks.len() && chunks[k].id == fmt_id();
                        let fmt = chunks[k].data;
                        match format_spec(s.subrange(fmt.start as int, fmt.end as int), limits) {
                            Err(e) => Err(e),
                            Ok(format) => {
                                let data = data_ranges(chunks);
                                if data.len() == 0 {
                                    Err(Error::MissingDataChunk)
                                } else {
                                    let frame = (format.channels * sample_bytes(format.bits_per_sample)) as nat;
                                    match (is_pcm_like(format.format_tag), first_misaligned(data, frame)) {
                                        (true, Some(r)) => Err(
                                            Error::MisalignedSampleData {
                                                size: (r.end - r.start) as usize,
                                                block_align: if frame > 0xffff {
                                                    0xffff
                                                } else {
                                                    frame as u16
                                                },
                                            },
                                        ),
                                        _ => Ok(
                                            WaveView {
                                                bytes: s,
                                                format,
                                                chunks,
                                                data_chunks: data,
                                                missing_final_padding: missing,
                                            },
                                        ),
                                    }
                                }
                            },
                        }
                    }
                },
            }
        }
    }
}


/// The chunks read so far, followed by what the rest of the walk finds.
pub open spec fn prepend(done: Seq<Chunk>, rest: Result<(Seq<Chunk>, bool)>) -> Result<(Seq<Chunk>, bool)> {
    match rest {
        Ok((more, missing)) => Ok((done + more, missing)),
        Err(e) => Err(e),
    }
}

/// Every chunk's payload lies inside a file of `len` bytes.
pub open spec fn chunks_inside(chunks: Seq<Chunk>, len: nat) -> bool {
    forall|i: int| 0 <= i < chunks.len() ==> range_within(#[trigger] chunks[i].data, len)
}

/// A range that is ordered and ends within `len`.
pub open spec fn range_within(r: Range<usize>, len: nat) -> bool {
    r.start <= r.end <= len
}

/// Every range lies inside a file of `len` bytes.
pub open spec fn ranges_inside(ranges: Seq<Range<usize>>, len: nat) -> bool {
    forall|i: int| 0 <= i < ranges.len() ==> range_within(#[trigger] ranges[i], len)
}

fn same_id(a: &[u8; 4], b: &[u8; 4]) -> (r: bool)
    ensures
        r == (*a == *b),
{
    let same = a[0] == b[0] && a[1] == b[1] && a[2] == b[2] && a[3] == b[3];
    proof {
        if same {
            assert(a@ =~= b@);
            vstd::array::axiom_array_ext_equal(*a, *b);
        }
    }
    same
}

fn riff() -> (r: [u8; 4])
    ensures
        r == riff_id(),
{
    [0x52, 0x49, 0x46, 0x46]
}

fn wave() -> (r: [u8; 4])
    ensures
        r == wave_id(),
{
    [0x57, 0x41, 0x56, 0x45]
}

fn fmt() -> (r: [u8; 4])
    ensures
        r == fmt_id(),
{
    [0x66, 0x6d, 0x74, 0x20]
}

fn data() -> (r: [u8; 4])
    ensures
        r == data_id(),
{
    [0x64, 0x61, 0x74, 0x61]
}

proof fn lemma_u16_window(s: Seq<u8>, at: int)
    requires
        0 <= at,
        at + 2 <= s.len(),
    ensures
        le_value(s.subrange(at, at + 2)) < 0x10000,
        le_value(s.subrange(at, at + 2)) == u16_at(s, at),
{
    lemma_le_value_bound(s.subrange(at, at + 2));
    lemma_pow256_values();
}

proof fn lemma_u32_window(s: Seq<u8>, at: int)
    requires
        0 <= at,
        at + 4 <= s.len(),
    ensures
        le_value(s.subrange(at, at + 4)) < 0x1_0000_0000,
        le_value(s.subrange(at, at + 4)) == u32_at(s, at),
{
    lemma_le_value_bound(s.subrange(at, at + 4));
    lemma_pow256_values();
}

proof fn lemma_u16_bytes(s: Seq<u8>, at: int)
    requires
        0 <= at,
        at + 2 <= s.len(),
    ensures
        u16_at(s, at) == s[at] + 256 * s[at + 1],
{
    lemma_u16_window(s, at);
    let w = s.subrange(at, at + 2);
    assert(w.drop_first().drop_first().len() == 0);
    assert(le_value(w.drop_first()) == w[1] + 256 * le_value(w.drop_first().drop_first()));
}

/// A PCM-like format reads as laid out as the format describes exactly when its block
/// alignment is its channel count times its sample width rounded up to whole bytes;
/// any other format is taken as it says. The fields are the chunk's little-endian
/// words: the tag at 0, the channels at 2, the alignment at 12, the sample width at 14.
pub proof fn lemma_pcm_layout_consistent(b: Seq<u8>, limits: Limits)
    requires
        format_spec(b, limits) is Ok,
    ensures
        ({
            let f = format_spec(b, limits)->Ok_0;
            &&& f.format_tag == b[0] + 256 * b[1]
            &&& f.channels == b[2] + 256 * b[3]
            &&& f.block_align == b[12] + 256 * b[13]
            &&& f.bits_per_sample == b[14] + 256 * b[15]
            &&& f.pcm_layout_consistent == (!(f.format_tag == 1 || f.format_tag == 3) || f.block_align
                == f.channels * ((f.bits_per_sample + 7) / 8))
        }),
{
    lemma_u16_bytes(b, 0);
    lemma_u16_bytes(b, 2);
    lemma_u16_bytes(b, 12);
    lemma_u16_bytes(b, 14);
}

/// Reads the `fmt ` chunk's payload.
fn parse_format(bytes: &[u8], limits: Limits) -> (r: Result<Format>)
    ensures
        match r {
            Ok(f) => format_spec(bytes@, limits) == Ok::<FormatView, Error>(f@),
            Err(e) => format_spec(bytes@, limits) == Err::<FormatView, Error>(e),
        },
{
    let len = bytes.len();
    if len < 16 {
        return Err(Error::InvalidFormatChunk(len));
    }
    let ghost s = bytes@;
    proof {
        lemma_u16_window(s, 0);
        lemma_u16_window(s, 2);
        lemma_u32_window(s, 4);
        lemma_u32_window(s, 8);
        lemma_u16_window(s, 12);
        lemma_u16_window(s, 14);
    }
    let mut reader = Reader::new(bytes);
    let format_tag = match reader.read_u16_le() {
        Ok(v) => v,
        Err(e) => return Err(Error::Binary(e)),
    };
    let channels = match reader.read_u16_le() {
        Ok(v) => v,
        Err(e) => return Err(Error::Binary(e)),
    };
    let sample_rate = match reader.read_u32_le() {
        Ok(v) => v,
        Err(e) => return Err(Error::Binary(e)),
    };
    let average_bytes_per_second = match reader.read_u32_le() {
        Ok(v) => v,
        Err(e) => return Err(Error::Binary(e)),
    };
    let block_align = match reader.read_u16_le() {
        Ok(v) => v,
        Err(e) => return Err(Error::Binary(e)),
    };
    let bits_per_sample = match reader.read_u16_le() {
        Ok(v) => v,
        Err(e) => return Err(Error::Binary(e)),
    };
    assert(reader.pos() == 16);
    if channels == 0 || channels > limits.max_channels {
        return Err(Error::InvalidChannels(channels));
    }
    if sample_rate == 0 || sample_rate > limits.max_sample_rate {
        return Err(Error::InvalidSampleRate(sample_rate));
    }
    if block_align == 0 {
        return Err(Error::InvalidBlockAlign(block_align));
    }
    if bits_per_sample == 0 || bits_per_sample > 64 {
        return Err(Error::InvalidBitsPerSample(bits_per_sample));
    }
    let pcm_like = format_tag == WAVE_FORMAT_PCM || format_tag == WAVE_FORMAT_IEEE_FLOAT;
    let remaining = reader.remaining();
    let extension: Vec<u8> = if remaining == 0 {
        proof {
            assert(s.subrange(16, 16) =~= Seq::<u8>::empty());
        }
        Vec::new()
    } else if pcm_like {
        let tail = match reader.take(remaining) {
            Ok(t) => t,
            Err(e) => return Err(Error::Binary(e)),
        };
        vstd::slice::slice_to_vec(tail)
    } else {
        let declared = match reader.read_u16_le() {
            Ok(v) => v as usize,
            Err(e) => return Err(Error::Binary(e)),
        };
        proof {
            lemma_u16_window(s, 16);
        }
        let available = reader.remaining();
        if declared > available {
            return Err(Error::InvalidFormatExtension { declared, available });
        }
        let tail = match reader.take(declared) {
            Ok(t) => t,
            Err(e) => return Err(Error::Binary(e)),
        };
        vstd::slice::slice_to_vec(tail)
    };
    let mut pcm_layout_consistent = true;
    if pcm_like {
        let per_sample = (bits_per_sample as usize + 7) / 8;
        assert(channels * per_sample <= 0xffff * 8) by (nonlinear_arith)
            requires
                channels <= 0xffff,
                per_sample <= 8,
        ;
        let expected_align = match (channels as usize).checked_mul(per_sample) {
            Some(v) => v,
            None => return Err(Error::SizeOverflow),
        };
        let expected_rate = match (sample_rate as usize).checked_mul(expected_align) {
            Some(v) => v,
            None => return Err(Error::SizeOverflow),
        };
        if average_bytes_per_second as usize != expected_rate {
            return Err(Error::InvalidPcmLayout);
        }
        pcm_layout_consistent = block_align as usize == expected_align;
    }
    let format = Format {
        format_tag,
        channels,
        sample_rate,
        average_bytes_per_second,
        block_align,
        bits_per_sample,
        extension,
        pcm_layout_consistent,
    };
    proof {
        let expected = format_spec(s, limits);
        assert(expected is Ok);
        assert(expected->Ok_0.extension =~= format@.extension);
        assert(expected == Ok::<FormatView, Error>(format@));
    }
    Ok(format)
}

/// Walks the chunk headers after the twelve-byte RIFF header.
fn walk_chunks(bytes: &[u8], limits: Limits) -> (r: Result<(Vec<Chunk>, bool)>)
    requires
        bytes@.len() >= 12,
    ensures
        match r {
            Ok((chunks, missing)) => {
                &&& walk(bytes@, 12, 0, limits.max_chunks as nat) == Ok::<(Seq<Chunk>, bool), Error>((chunks@, missing))
                &&& chunks_inside(chunks@, bytes@.len())
            },
            Err(e) => walk(bytes@, 12, 0, limits.max_chunks as nat) == Err::<(Seq<Chunk>, bool), Error>(e),
        },
{
    let ghost s = bytes@;
    let ghost max = limits.max_chunks as nat;
    let len = bytes.len();
    let mut reader = match Reader::with_position(bytes, 12) {
        Ok(r) => r,
        Err(e) => return Err(Error::Binary(e)),
    };
    let mut chunks: Vec<Chunk> = Vec::new();
    let mut missing = false;
    proof {
        assert(chunks@ + Seq::<Chunk>::empty() =~= chunks@);
        assert(prepend(chunks@, walk(s, 12, 0, max)) == walk(s, 12, 0, max)) by {
            match walk(s, 12, 0, max) {
                Ok((more, m)) => {
                    assert(Seq::<Chunk>::empty() + more =~= more);
                },
                Err(e) => {},
            }
        }
    }
    while reader.position() < len
        invariant
            reader.wf(),
            reader.data() == s,
            s == bytes@,
            len == s.len(),
            12 <= reader.pos() <= len,
            max == limits.max_chunks,
            chunks_inside(chunks@, len as nat),
            missing ==> reader.pos() == len,
            missing ==> walk(s, 12, 0, max) == Ok::<(Seq<Chunk>, bool), Error>((chunks@, true)),
            !missing ==> walk(s, 12, 0, max) == prepend(chunks@, walk(s, reader.pos(), chunks@.len(), max)),
        decreases len - reader.pos(),
    {
        let pos = reader.position();
        if chunks.len() >= limits.max_chunks {
            return Err(Error::ChunkLimitExceeded(limits.max_chunks));
        }
        let tag = match reader.take(4) {
            Ok(t) => t,
            Err(e) => return Err(Error::Binary(e)),
        };
        let id: [u8; 4] = [tag[0], tag[1], tag[2], tag[3]];
        let size32 = match reader.read_u32_le() {
            Ok(v) => v,
            Err(e) => return Err(Error::Binary(e)),
        };
        proof {
            lemma_u32_window(s, pos + 4);
            assert(id == id_at(s, pos as int));
        }
        let size = size32 as usize;
        let start = reader.position();
        let end = match start.checked_add(size) {
            Some(end) => end,
            None => return Err(Error::SizeOverflow),
        };
        if end > len {
            return Err(Error::InvalidChunkRange { id, offset: start, size });
        }
        let ghost before = chunks@;
        let chunk = Chunk { id, data: Range { start, end } };
        match reader.seek(end) {
            Ok(()) => {},
            Err(e) => return Err(Error::Binary(e)),
        }
        if size % 2 != 0 {
            if reader.position() == len {
                missing = true;
            } else {
                match reader.skip(1) {
                    Ok(()) => {},
                    Err(e) => return Err(Error::Binary(e)),
                }
            }
        }
        chunks.push(chunk);
        proof {
            if missing {
                assert(chunks@ =~= before + seq![chunk]);
                assert(before + seq![chunk] + Seq::<Chunk>::empty() =~= chunks@);
            } else {
                let next = reader.pos();
                match walk(s, next, chunks@.len(), max) {
                    Ok((more, m)) => {
                        assert(before + (seq![chunk] + more) =~= chunks@ + more);
                    },
                    Err(e) => {},
                }
            }
        }
    }
    proof {
        if !missing {
            assert(chunks@ + Seq::<Chunk>::empty() =~= chunks@);
        }
    }
    Ok((chunks, missing))
}

/// The one chunk with this id, if any; refused where there are two.
fn unique_chunk(chunks: &Vec<Chunk>, id: [u8; 4]) -> (r: Result<Option<usize>>)
    ensures
        match r {
            Ok(Some(k)) => k < chunks@.len() && chunks@[k as int].id == id && !has_two(chunks@, id),
            Ok(None) => !has_one(chunks@, id) && !has_two(chunks@, id),
            Err(e) => has_two(chunks@, id) && e == Error::DuplicateChunk(id),
        },
{
    let mut found: Option<usize> = None;
    let mut i: usize = 0;
    while i < chunks.len()
        invariant
            i <= chunks@.len(),
            match found {
                Some(k) => k < i && chunks@[k as int].id == id && forall|j: int| 0 <= j < i && j != k ==> #[trigger] chunks@[j].id != id,
                None => forall|j: int| 0 <= j < i ==> #[trigger] chunks@[j].id != id,
            },
        decreases chunks@.len() - i,
    {
        if same_id(&chunks[i].id, &id) {
            match found {
                Some(k) => {
                    proof {
                        assert(chunks@[k as int].id == id && chunks@[i as int].id == id);
                    }
                    return Err(Error::DuplicateChunk(id));
                },
                None => {
                    found = Some(i);
                },
            }
        }
        i = i + 1;
    }
    Ok(found)
}

/// The index of the first range whose size is not a multiple of `frame`.
fn find_misaligned(ranges: &Vec<Range<usize>>, frame: usize, Ghost(len): Ghost<nat>) -> (r: Option<usize>)
    requires
        frame > 0,
        ranges_inside(ranges@, len),
    ensures
        match r {
            Some(k) => k < ranges@.len() && first_misaligned(ranges@, frame as nat) == Some(ranges@[k as int]),
            None => first_misaligned(ranges@, frame as nat) is None,
        },
{
    let ghost all = ranges@;
    proof {
        assert(all.subrange(0, all.len() as int) =~= all);
    }
    let mut i: usize = 0;
    while i < ranges.len()
        invariant
            i <= all.len(),
            all == ranges@,
            frame > 0,
            ranges_inside(all, len),
            first_misaligned(all, frame as nat) == first_misaligned(all.subrange(i as int, all.len() as int), frame as nat),
        decreases all.len() - i,
    {
        let ghost rest = all.subrange(i as int, all.len() as int);
        proof {
            assert(rest.drop_first() =~= all.subrange(i + 1, all.len() as int));
            assert(range_within(all[i as int], len));
            assert(rest[0] == all[i as int]);
        }
        let size = ranges[i].end - ranges[i].start;
        if size % frame != 0 {
            return Some(i);
        }
        i = i + 1;
    }
    proof {
        assert(all.subrange(all.len() as int, all.len() as int).len() == 0);
    }
    None
}

/// The payload ranges of the `data` chunks.
fn data_chunk_ranges(chunks: &Vec<Chunk>) -> (r: Vec<Range<usize>>)
    ensures
        r@ == data_ranges(chunks@),
{
    let mut out: Vec<Range<usize>> = Vec::new();
    let mut i: usize = 0;
    let want = data();
    proof {
        assert(chunks@.subrange(0, 0) =~= Seq::<Chunk>::empty());
        reveal_with_fuel(Seq::<_>::filter, 1);
        assert(data_ranges(chunks@.subrange(0, 0)) =~= Seq::<Range<usize>>::empty());
    }
    while i < chunks.len()
        invariant
            i <= chunks@.len(),
            want == data_id(),
            out@ == data_ranges(chunks@.subrange(0, i as int)),
        decreases chunks@.len() - i,
    {
        let ghost prefix = chunks@.subrange(0, i as int);
        let ghost next = chunks@.subrange(0, i + 1);
        proof {
            assert(next.drop_last() =~= prefix);
            reveal_with_fuel(Seq::<_>::filter, 1);
        }
        if same_id(&chunks[i].id, &want) {
            let range = Range { start: chunks[i].data.start, end: chunks[i].data.end };
            out.push(range);
            proof {
                assert(next.filter(|c: Chunk| c.id == data_id()) == prefix.filter(|c: Chunk| c.id == data_id()).push(chunks@[i as int]));
                assert(out@ =~= data_ranges(next));
            }
        } else {
            proof {
                assert(next.filter(|c: Chunk| c.id == data_id()) == prefix.filter(|c: Chunk| c.id == data_id()));
            }
        }
        i = i + 1;
    }
    proof {
        assert(chunks@.subrange(0, chunks@.len() as int) =~= chunks@);
    }
    out
}

/// A WAVE file whose chunks and format have been checked.
#[derive(Debug)]
pub struct Wave<'a> {
    bytes: &'a [u8],
    format: Format,
    chunks: Vec<Chunk>,
    data_chunks: Vec<Range<usize>>,
    missing_final_padding: bool,
}

impl<'a> View for Wave<'a> {
    type V = WaveView;

    closed spec fn view(&self) -> WaveView {
        WaveView {
            bytes: self.bytes@,
            format: self.format@,
            chunks: self.chunks@,
            data_chunks: self.data_chunks@,
            missing_final_padding: self.missing_final_padding,
        }
    }
}

impl<'a> Wave<'a> {
    #[verifier::type_invariant]
    closed spec fn inv(&self) -> bool {
        ranges_inside(self.data_chunks@, self.bytes@.len())
    }

    pub fn parse(bytes: &'a [u8]) -> (r: Result<Self>)
        ensures
            match r {
                Ok(w) => wave_spec(bytes@, default_limits()) == Ok::<WaveView, Error>(w@),
                Err(e) => wave_spec(bytes@, default_limits()) == Err::<WaveView, Error>(e),
            },
    {
        Self::parse_with_limits(bytes, Limits::default())
    }

    pub fn parse_with_limits(bytes: &'a [u8], limits: Limits) -> (r: Result<Self>)
        ensures
            match r {
                Ok(w) => wave_spec(bytes@, limits) == Ok::<WaveView, Error>(w@),
                Err(e) => wave_spec(bytes@, limits) == Err::<WaveView, Error>(e),
            },
    {
        let ghost s = bytes@;
        let len = bytes.len();
        if len > limits.max_file_size {
            return Err(Error::FileTooLarge { size: len, limit: limits.max_file_size });
        }
        let mut reader = Reader::new(bytes);
        let tag = match reader.take(4) {
            Ok(t) => t,
            Err(e) => return Err(Error::Binary(e)),
        };
        let signature: [u8; 4] = [tag[0], tag[1], tag[2], tag[3]];
        assert(signature == id_at(s, 0));
        if !same_id(&signature, &riff()) {
            return Err(Error::InvalidSignature(signature));
        }
        let riff_size = match reader.read_u32_le() {
            Ok(v) => v,
            Err(e) => return Err(Error::Binary(e)),
        };
        proof {
            lemma_u32_window(s, 4);
        }
        let declared_size = match (riff_size as usize).checked_add(8) {
            Some(v) => v,
            None => return Err(Error::SizeOverflow),
        };
        let permits_missing_final_padding = declared_size == len.saturating_add(1);
        if declared_size != len && !permits_missing_final_padding {
            return Err(Error::DeclaredSizeMismatch { declared: declared_size, actual: len });
        }
        let form_tag = match reader.take(4) {
            Ok(t) => t,
            Err(e) => return Err(Error::Binary(e)),
        };
        let form: [u8; 4] = [form_tag[0], form_tag[1], form_tag[2], form_tag[3]];
        assert(form == id_at(s, 8));
        if !same_id(&form, &wave()) {
            return Err(Error::InvalidForm(form));
        }
        let (chunks, missing_final_padding) = walk_chunks(bytes, limits)?;
        if permits_missing_final_padding && !missing_final_padding {
            return Err(Error::DeclaredSizeMismatch { declared: declared_size, actual: len });
        }
        let format_index = match unique_chunk(&chunks, fmt())? {
            Some(k) => k,
            None => return Err(Error::MissingFormatChunk),
        };
        let format_range = Range { start: chunks[format_index].data.start, end: chunks[format_index].data.end };
        proof {
            let k = choose|k: int| 0 <= k < chunks@.len() && chunks@[k].id == fmt_id();
            assert(k == format_index);
        }
        let format = parse_format(vstd::slice::slice_subrange(bytes, format_range.start, format_range.end), limits)?;
        let data_chunks = data_chunk_ranges(&chunks);
        if data_chunks.len() == 0 {
            return Err(Error::MissingDataChunk);
        }
        proof {
            assert forall|i: int| 0 <= i < data_chunks@.len() implies #[trigger] data_chunks@[i].start <= data_chunks@[i].end <= len by {
                lemma_data_ranges_inside(chunks@, len as nat, i);
            }
        }
        if format.format_tag == WAVE_FORMAT_PCM || format.format_tag == WAVE_FORMAT_IEEE_FLOAT {
            proof {
                lemma_format_bounds(bytes@.subrange(format_range.start as int, format_range.end as int), limits);
                let c = format.channels as int;
                let b = sample_bytes(format.bits_per_sample) as int;
                assert(1 <= b <= 8);
                assert(1 <= c * b <= 0xffff * 8) by (nonlinear_arith)
                    requires
                        1 <= c <= 0xffff,
                        1 <= b <= 8,
                ;
            }
            let frame_bytes = match format.sample_frame_bytes() {
                Some(v) => v,
                None => return Err(Error::SizeOverflow),
            };
            if let Some(k) = find_misaligned(&data_chunks, frame_bytes, Ghost(len as nat)) {
                let size = data_chunks[k].end - data_chunks[k].start;
                let block_align: u16 = if frame_bytes > 0xffff {
                    0xffff
                } else {
                    frame_bytes as u16
                };
                return Err(Error::MisalignedSampleData { size, block_align });
            }
        }
        let wave = Wave { bytes, format, chunks, data_chunks, missing_final_padding };
        proof {
            let expected = wave_spec(s, limits);
            assert(expected is Ok);
            assert(expected == Ok::<WaveView, Error>(wave@));
        }
        Ok(wave)
    }

    pub fn format(&self) -> (r: &Format)
        ensures
            r@ == self@.format,
    {
        &self.format
    }

    pub fn chunks(&self) -> (r: &[Chunk])
        ensures
            r@ == self@.chunks,
    {
        self.chunks.as_slice()
    }

    /// The payload of every `data` chunk, in file order.
    pub fn data_chunks(&self) -> (r: Vec<&'a [u8]>)
        ensures
            r@.len() == self@.data_chunks.len(),
            forall|i: int| 0 <= i < r@.len() ==> #[trigger] r@[i]@ == self@.bytes.subrange(
                self@.data_chunks[i].start as int,
                self@.data_chunks[i].end as int,
            ),
    {
        proof {
            use_type_invariant(self);
        }
        let mut out: Vec<&'a [u8]> = Vec::new();
        let mut i: usize = 0;
        while i < self.data_chunks.len()
            invariant
                i <= self.data_chunks@.len(),
                ranges_inside(self.data_chunks@, self.bytes@.len()),
                out@.len() == i,
                forall|j: int| 0 <= j < i ==> #[trigger] out@[j]@ == self.bytes@.subrange(
                    self.data_chunks@[j].start as int,
                    self.data_chunks@[j].end as int,
                ),
            decreases self.data_chunks@.len() - i,
        {
            let range = &self.data_chunks[i];
            out.push(vstd::slice::slice_subrange(self.bytes, range.start, range.end));
            i = i + 1;
        }
        out
    }

    /// Valve-authored assets commonly omit the physical pad byte for an odd
    /// final chunk while retaining it in the RIFF size. The parser accepts and
    /// reports that precise EOF-only compatibility case.
    pub fn missing_final_padding(&self) -> (r: bool)
        ensures
            r == self@.missing_final_padding,
    {
        self.missing_final_padding
    }
}

proof fn lemma_format_bounds(b: Seq<u8>, limits: Limits)
    ensures
        format_spec(b, limits) matches Ok(f) ==> 1 <= f.channels && 1 <= f.bits_per_sample <= 64,
{
}

proof fn lemma_filter_inside(chunks: Seq<Chunk>, pred: spec_fn(Chunk) -> bool, len: nat)
    requires
        chunks_inside(chunks, len),
    ensures
        chunks_inside(chunks.filter(pred), len),
    decreases chunks.len(),
{
    reveal_with_fuel(Seq::<_>::filter, 1);
    if chunks.len() > 0 {
        let rest = chunks.drop_last();
        assert(chunks_inside(rest, len)) by {
            assert forall|i: int| 0 <= i < rest.len() implies #[trigger] rest[i].data.start
                <= rest[i].data.end <= len by {
                assert(rest[i] == chunks[i]);
            }
        }
        lemma_filter_inside(rest, pred, len);
        let kept = rest.filter(pred);
        let last = chunks.last();
        assert(last.data.start <= last.data.end <= len) by {
            assert(last == chunks[chunks.len() - 1]);
        }
        if pred(last) {
            assert(chunks.filter(pred) == kept.push(last));
            assert forall|i: int| 0 <= i < kept.push(last).len() implies #[trigger] kept.push(
                last,
            )[i].data.start <= kept.push(last)[i].data.end <= len by {
                if i < kept.len() {
                    assert(kept.push(last)[i] == kept[i]);
                }
            }
        } else {
            assert(chunks.filter(pred) == kept);
        }
    }
}

proof fn lemma_data_ranges_inside(chunks: Seq<Chunk>, len: nat, i: int)
    requires
        chunks_inside(chunks, len),
        0 <= i < data_ranges(chunks).len(),
    ensures
        data_ranges(chunks)[i].start <= data_ranges(chunks)[i].end <= len,
{
    let pred = |c: Chunk| c.id == data_id();
    lemma_filter_inside(chunks, pred, len);
    let kept = chunks.filter(pred);
    assert(data_ranges(chunks) == kept.map_values(|c: Chunk| c.data));
    assert(i < kept.len());
    assert(chunks_inside(kept, len));
    let r = kept[i].data;
    assert(r.start <= r.end <= len);
    assert(data_ranges(chunks)[i] == r);
}

// ---------------------------------------------------------------------------
// Messages
// ---------------------------------------------------------------------------

/// What an error says.
pub open spec fn error_text(e: Error) -> Seq<char> {
    match e {
        Error::Binary(inner) => binary::error_text(inner),
        Error::FileTooLarge { size, limit } => "WAVE file size "@ + decimal(size as nat) + " exceeds limit "@ + decimal(
            limit as nat,
        ),
        Error::InvalidSignature(value) => "invalid RIFF signature "@ + byte_list(value@),
        Error::InvalidForm(value) => "invalid RIFF form "@ + byte_list(value@) + "; expected WAVE"@,
        Error::DeclaredSizeMismatch { declared, actual } => "RIFF declared size "@ + decimal(declared as nat)
            + " does not match file size "@ + decimal(actual as nat),
        Error::ChunkLimitExceeded(limit) => "RIFF chunk count exceeds "@ + decimal(limit as nat),
        Error::InvalidChunkRange { id, offset, size } => "RIFF chunk "@ + byte_list(id@) + " has invalid range "@
            + decimal(offset as nat) + "+"@ + decimal(size as nat),
        Error::DuplicateChunk(id) => "duplicate required RIFF chunk "@ + byte_list(id@),
        Error::MissingFormatChunk => "WAVE file has no fmt chunk"@,
        Error::MissingDataChunk => "WAVE file has no data chunk"@,
        Error::InvalidFormatChunk(size) => "WAVE fmt chunk is only "@ + decimal(size as nat) + " bytes"@,
        Error::InvalidChannels(value) => "invalid WAVE channel count "@ + decimal(value as nat),
        Error::InvalidSampleRate(value) => "invalid WAVE sample rate "@ + decimal(value as nat),
        Error::InvalidBlockAlign(value) => "invalid WAVE block alignment "@ + decimal(value as nat),
        Error::InvalidBitsPerSample(value) => "invalid WAVE bits per sample "@ + decimal(value as nat),
        Error::InvalidPcmLayout => "inconsistent PCM WAVE layout"@,
        Error::InvalidFormatExtension { declared, available } => "WAVE fmt extension declares "@ + decimal(
            declared as nat,
        ) + " bytes but only "@ + decimal(available as nat) + " are present"@,
        Error::MisalignedSampleData { size, block_align } => "WAVE data size "@ + decimal(size as nat)
            + " is not aligned to block size "@ + decimal(block_align as nat),
        Error::SizeOverflow => "WAVE size arithmetic overflow"@,
    }
}

impl Error {
    /// The error as a sentence.
    pub fn message(&self) -> (r: String)
        ensures
            r@ == error_text(*self),
    {
        let mut s = String::new();
        match self {
            Error::Binary(inner) => {
                return inner.message();
            },
            Error::FileTooLarge { size, limit } => {
                push_str(&mut s, "WAVE file size ");
                push_decimal(&mut s, *size as u64);
                push_str(&mut s, " exceeds limit ");
                push_decimal(&mut s, *limit as u64);
            },
            Error::InvalidSignature(value) => {
                push_str(&mut s, "invalid RIFF signature ");
                push_byte_list(&mut s, value);
            },
            Error::InvalidForm(value) => {
                push_str(&mut s, "invalid RIFF form ");
                push_byte_list(&mut s, value);
                push_str(&mut s, "; expected WAVE");
            },
            Error::DeclaredSizeMismatch { declared, actual } => {
                push_str(&mut s, "RIFF declared size ");
                push_decimal(&mut s, *declared as u64);
                push_str(&mut s, " does not match file size ");
                push_decimal(&mut s, *actual as u64);
            },
            Error::ChunkLimitExceeded(limit) => {
                push_str(&mut s, "RIFF chunk count exceeds ");
                push_decimal(&mut s, *limit as u64);
            },
            Error::InvalidChunkRange { id, offset, size } => {
                push_str(&mut s, "RIFF chunk ");
                push_byte_list(&mut s, id);
                push_str(&mut s, " has invalid range ");
                push_decimal(&mut s, *offset as u64);
                push_str(&mut s, "+");
                push_decimal(&mut s, *size as u64);
            },
            Error::DuplicateChunk(id) => {
                push_str(&mut s, "duplicate required RIFF chunk ");
                push_byte_list(&mut s, id);
            },
            Error::MissingFormatChunk => {
                push_str(&mut s, "WAVE file has no fmt chunk");
            },
            Error::MissingDataChunk => {
                push_str(&mut s, "WAVE file has no data chunk");
            },
            Error::InvalidFormatChunk(size) => {
                push_str(&mut s, "WAVE fmt chunk is only ");
                push_decimal(&mut s, *size as u64);
                push_str(&mut s, " bytes");
            },
            Error::InvalidChannels(value) => {
                push_str(&mut s, "invalid WAVE channel count ");
                push_decimal(&mut s, *value as u64);
            },
            Error::InvalidSampleRate(value) => {
                push_str(&mut s, "invalid WAVE sample rate ");
                push_decimal(&mut s, *value as u64);
            },
            Error::InvalidBlockAlign(value) => {
                push_str(&mut s, "invalid WAVE block alignment ");
                push_decimal(&mut s, *value as u64);
            },
            Error::InvalidBitsPerSample(value) => {
                push_str(&mut s, "invalid WAVE bits per sample ");
                push_decimal(&mut s, *value as u64);
            },
            Error::InvalidPcmLayout => {
                push_str(&mut s, "inconsistent PCM WAVE layout");
            },
            Error::InvalidFormatExtension { declared, available } => {
                push_str(&mut s, "WAVE fmt extension declares ");
                push_decimal(&mut s, *declared as u64);
                push_str(&mut s, " bytes but only ");
                push_decimal(&mut s, *available as u64);
                push_str(&mut s, " are present");
            },
            Error::MisalignedSampleData { size, block_align } => {
                push_str(&mut s, "WAVE data size ");
                push_decimal(&mut s, *size as u64);
                push_str(&mut s, " is not aligned to block size ");
                push_decimal(&mut s, *block_align as u64);
            },
            Error::SizeOverflow => {
                push_str(&mut s, "WAVE size arithmetic overflow");
            },
        }
        s
    }
}

} // verus!
