//! Framing a WAVE file around encoded samples.
//!
//! Bytes in, bytes out. `acid` and `smpl` are what make an exported loop drop
//! into a sampler at the right tempo and loop seamlessly, and no reader crate
//! writes them — which is why the chunk layer is hand-rolled.

use crate::error::Error;
use crate::text::{ascii_lowercase, chars_of, lowercase_of, spells, trim, trim_range};
use super::chunks::{
    acid_body, acid_for_loop, le16, le32, push_bytes, push_u16, push_u32, smpl_body, AcidChunk, ChunkId,
    SampleLoop, SmplChunk, ACID, DATA, FMT, FORMAT_IEEE_FLOAT, FORMAT_PCM, ICMT, INFO, LIST, RIFF, SMPL,
    WAVE,
};
use vstd::prelude::*;
use super::read::{
    all_info, is_chunk, is_readable_acid, is_readable_smpl, is_wave, lemma_all_info_concat,
};
use crate::naming::{lemma_first_where_at, lemma_first_where_none};

verus! {

/// The `fact` chunk, required for non-PCM formats.
pub const FACT: ChunkId = [0x66, 0x61, 0x63, 0x74];

/// Output sample encoding.
///
/// A deliberately short list: these are the depths a loop is worth exporting
/// at. 8-bit is not offered, and 64-bit float would only make files twice as
/// large as any sampler can use.
#[derive(Copy, Clone, Debug, PartialEq, Eq, Structural)]
pub enum BitDepth {
    Int16,
    /// Transparent, and half the size of 32-bit float: the default.
    Int24,
    Int32,
    /// Lossless for anything the pipeline produced, including samples past
    /// unity — nothing is clipped and nothing needs dither.
    Float32,
}

/// Bits per sample at each depth.
pub open spec fn depth_bits(d: BitDepth) -> int {
    match d {
        BitDepth::Int16 => 16,
        BitDepth::Int24 => 24,
        BitDepth::Int32 => 32,
        BitDepth::Float32 => 32,
    }
}

impl Default for BitDepth {
    fn default() -> (d: BitDepth)
        ensures
            d == BitDepth::Int24,
    {
        BitDepth::Int24
    }
}

impl BitDepth {
    pub fn bits(self) -> (r: u16)
        ensures
            r == depth_bits(self),
    {
        match self {
            BitDepth::Int16 => 16,
            BitDepth::Int24 => 24,
            BitDepth::Int32 => 32,
            BitDepth::Float32 => 32,
        }
    }

    pub fn bytes(self) -> (r: usize)
        ensures
            r == depth_bits(self) / 8,
    {
        self.bits() as usize / 8
    }

    pub fn is_float(self) -> (r: bool)
        ensures
            r == (self == BitDepth::Float32),
    {
        match self {
            BitDepth::Float32 => true,
            _ => false,
        }
    }

    /// Whether quantising to this depth can clip. Float cannot.
    pub fn clips(self) -> (r: bool)
        ensures
            r == (self != BitDepth::Float32),
    {
        !self.is_float()
    }

    /// Reads a depth as written on a command line: `16`, `24`, `32`, or
    /// `32f`, `f32`, `float`, ignoring case and surrounding whitespace. Any
    /// other name is refused, lower-cased.
    pub fn parse(s: &str) -> (r: Result<BitDepth, Error>)
        ensures
            depth_read(s@, r),
    {
        let v = chars_of(s);
        let (a, b) = trim_range(&v, 0, v.len());
        proof {
            assert(v@.subrange(0, v.len() as int) =~= s@);
        }
        let name = lowercase_of(&v, a, b);
        if spells(&name, "16") {
            Ok(BitDepth::Int16)
        } else if spells(&name, "24") {
            Ok(BitDepth::Int24)
        } else if spells(&name, "32") {
            Ok(BitDepth::Int32)
        } else if spells(&name, "32f") || spells(&name, "f32") || spells(&name, "float") {
            Ok(BitDepth::Float32)
        } else {
            let mut text = String::new();
            let mut i: usize = 0;
            while i < name.len()
                invariant
                    i <= name.len(),
                    text@ == name@.take(i as int),
                decreases name.len() - i,
            {
                crate::text::push_char(&mut text, name[i]);
                proof {
                    assert(text@ =~= name@.take(i + 1));
                }
                i = i + 1;
            }
            proof {
                assert(name@.take(name.len() as int) =~= name@);
            }
            Err(Error::BitDepthName(text))
        }
    }
}

/// What [`BitDepth::parse`] gives for text `s`: the depth it names, or the
/// trimmed, lower-cased text when it names none.
pub open spec fn depth_read(s: Seq<char>, r: Result<BitDepth, Error>) -> bool {
    match bit_depth_named(s) {
        Ok(d) => r == Ok::<BitDepth, Error>(d),
        Err(_) => r matches Err(Error::BitDepthName(t)) && t@ == ascii_lowercase(trim(s)),
    }
}

/// The depth a name selects, case and surrounding whitespace ignored; `Err`
/// for any other name.
pub open spec fn bit_depth_named(s: Seq<char>) -> Result<BitDepth, ()> {
    let n = ascii_lowercase(trim(s));
    if n == "16"@ {
        Ok(BitDepth::Int16)
    } else if n == "24"@ {
        Ok(BitDepth::Int24)
    } else if n == "32"@ {
        Ok(BitDepth::Int32)
    } else if n == "32f"@ || n == "f32"@ || n == "float"@ {
        Ok(BitDepth::Float32)
    } else {
        Err(())
    }
}

/// The bit depth names, read trimmed and in any case: `16`, `24` and `32`
/// are the integer depths, `32f`, `f32` and `float` the float one, and
/// nothing else names a depth.
pub proof fn law_bit_depth_names(s: Seq<char>)
    ensures
        ({
            let n = ascii_lowercase(trim(s));
            &&& bit_depth_named(s) == Ok::<BitDepth, ()>(BitDepth::Int16) <==> n == "16"@
            &&& bit_depth_named(s) == Ok::<BitDepth, ()>(BitDepth::Int24) <==> n == "24"@
            &&& bit_depth_named(s) == Ok::<BitDepth, ()>(BitDepth::Int32) <==> n == "32"@
            &&& bit_depth_named(s) == Ok::<BitDepth, ()>(BitDepth::Float32) <==> (n == "32f"@ || n
                == "f32"@ || n == "float"@)
            &&& bit_depth_named(s) is Err <==> !(n == "16"@ || n == "24"@ || n == "32"@ || n
                == "32f"@ || n == "f32"@ || n == "float"@)
        }),
{
    reveal_strlit("16");
    reveal_strlit("24");
    reveal_strlit("32");
    reveal_strlit("32f");
    reveal_strlit("f32");
    reveal_strlit("float");
    assert("16"@ != "24"@ && "16"@ != "32"@ && "24"@ != "32"@) by {
        assert("16"@[0] != "24"@[0]);
        assert("16"@[0] != "32"@[0]);
        assert("24"@[0] != "32"@[0]);
    }
    assert("16"@ != "32f"@ && "16"@ != "f32"@ && "16"@ != "float"@ && "24"@ != "32f"@ && "24"@
        != "f32"@ && "24"@ != "float"@ && "32"@ != "32f"@ && "32"@ != "f32"@ && "32"@
        != "float"@) by {
        assert("16"@.len() != "32f"@.len());
        assert("16"@.len() != "f32"@.len());
        assert("16"@.len() != "float"@.len());
    }
}

impl core::str::FromStr for BitDepth {
    type Err = Error;

    /// [`BitDepth::parse`].
    fn from_str(s: &str) -> (r: Result<BitDepth, Error>)
        ensures
            depth_read(s@, r),
    {
        BitDepth::parse(s)
    }
}

/// The pad byte after an odd-sized body: chunks are word-aligned.
pub open spec fn pad(n: nat) -> Seq<u8> {
    if n % 2 == 1 {
        seq![0u8]
    } else {
        seq![]
    }
}

/// A chunk as written: id, size, body, and a pad byte after an odd body.
pub open spec fn chunk_bytes(id: Seq<u8>, body: Seq<u8>) -> Seq<u8> {
    id + le32((body.len() as u32) as int) + body + pad(body.len())
}

/// Appends one chunk.
pub fn push_chunk(out: &mut Vec<u8>, id: ChunkId, body: &[u8])
    ensures
        final(out)@ == old(out)@ + chunk_bytes(id@, body@),
{
    push_bytes(out, &id);
    #[verifier::truncate]
    let size = body.len() as u32;
    push_u32(out, size);
    push_bytes(out, body);
    if body.len() % 2 == 1 {
        out.push(0);
    }
    proof {
        assert(final(out)@ =~= old(out)@ + chunk_bytes(id@, body@));
    }
}

/// Bytes per frame at `depth` for `channels` channels.
pub open spec fn block_align(depth: BitDepth, channels: int) -> int {
    (depth_bits(depth) / 8) * channels
}

/// The `fmt ` body for `depth`, `channels` and `sample_rate`: PCM or IEEE
/// float, and for float the (empty) extension size a non-PCM `fmt ` needs.
pub open spec fn fmt_bytes(depth: BitDepth, channels: u16, sample_rate: u32) -> Seq<u8> {
    let tag: int = if depth == BitDepth::Float32 {
        FORMAT_IEEE_FLOAT as int
    } else {
        FORMAT_PCM as int
    };
    let align = block_align(depth, channels as int);
    le16(tag) + le16(channels as int) + le32(sample_rate as int) + le32(sample_rate * align)
        + le16(align) + le16(depth_bits(depth)) + (if depth == BitDepth::Float32 {
        le16(0)
    } else {
        seq![]
    })
}

/// What a `fmt ` body says, read back field by field: the format tag (PCM,
/// or IEEE float for float output), the channel count, the sample rate, the
/// bits per sample; a block of one frame is the bytes of one sample times the
/// channels, and the byte rate is a block for every frame of a second.
pub proof fn law_fmt_fields_agree(depth: BitDepth, channels: u16, sample_rate: u32)
    requires
        block_align(depth, channels as int) <= u16::MAX,
        sample_rate * block_align(depth, channels as int) <= u32::MAX,
    ensures
        ({
            let f = fmt_bytes(depth, channels, sample_rate);
            &&& f.len() == (if depth == BitDepth::Float32 {
                18int
            } else {
                16int
            })
            &&& super::chunks::u16_le(f, 0) == (if depth == BitDepth::Float32 {
                3int
            } else {
                1int
            })
            &&& super::chunks::u16_le(f, 2) == channels
            &&& super::chunks::u32_le(f, 4) == sample_rate
            &&& super::chunks::u16_le(f, 14) == depth_bits(depth)
            &&& super::chunks::u16_le(f, 12) * 8 == super::chunks::u16_le(f, 14)
                * super::chunks::u16_le(f, 2)
            &&& super::chunks::u32_le(f, 8) == super::chunks::u32_le(f, 4) * super::chunks::u16_le(
                f,
                12,
            )
        }),
{
    let f = fmt_bytes(depth, channels, sample_rate);
    let tag: int = if depth == BitDepth::Float32 {
        FORMAT_IEEE_FLOAT as int
    } else {
        FORMAT_PCM as int
    };
    let align = block_align(depth, channels as int);
    assert(align >= 0) by (nonlinear_arith)
        requires
            align == (depth_bits(depth) / 8) * channels,
            depth_bits(depth) >= 16,
            channels >= 0,
    ;
    assert(sample_rate * align >= 0) by (nonlinear_arith)
        requires
            align >= 0,
            sample_rate >= 0,
    ;
    assert(f.subrange(0, 2) =~= le16(tag));
    assert(f.subrange(2, 4) =~= le16(channels as int));
    assert(f.subrange(4, 8) =~= le32(sample_rate as int));
    assert(f.subrange(8, 12) =~= le32(sample_rate * align));
    assert(f.subrange(12, 14) =~= le16(align));
    assert(f.subrange(14, 16) =~= le16(depth_bits(depth)));
    super::chunks::lemma_le16(tag, f, 0);
    super::chunks::lemma_le16(channels as int, f, 2);
    super::chunks::lemma_le32(sample_rate as int, f, 4);
    super::chunks::lemma_le32(sample_rate * align, f, 8);
    super::chunks::lemma_le16(align, f, 12);
    super::chunks::lemma_le16(depth_bits(depth), f, 14);
    assert((depth_bits(depth) / 8) * 8 == depth_bits(depth));
    assert(align * 8 == depth_bits(depth) * channels) by (nonlinear_arith)
        requires
            align == (depth_bits(depth) / 8) * channels,
            (depth_bits(depth) / 8) * 8 == depth_bits(depth),
    ;
    assert(f.len() == (if depth == BitDepth::Float32 {
        18int
    } else {
        16int
    }));
}

/// The `fmt ` chunk body.
pub fn fmt_body(depth: BitDepth, channels: u16, sample_rate: u32) -> (r: Vec<u8>)
    requires
        block_align(depth, channels as int) <= u16::MAX,
        sample_rate * block_align(depth, channels as int) <= u32::MAX,
    ensures
        r@ == fmt_bytes(depth, channels, sample_rate),
{
    let tag = if depth.is_float() {
        FORMAT_IEEE_FLOAT
    } else {
        FORMAT_PCM
    };
    let align = depth.bytes() as u16 * channels;
    let mut v: Vec<u8> = Vec::new();
    push_u16(&mut v, tag);
    push_u16(&mut v, channels);
    push_u32(&mut v, sample_rate);
    push_u32(&mut v, sample_rate * align as u32);
    push_u16(&mut v, align);
    push_u16(&mut v, depth.bits());
    if depth.is_float() {
        push_u16(&mut v, 0);
    }
    proof {
        assert(v@ =~= fmt_bytes(depth, channels, sample_rate));
    }
    v
}

/// The sub-chunks of an `INFO` list, one per entry, the text as UTF-8.
pub open spec fn info_entry_bytes(entries: Seq<(Seq<u8>, Seq<char>)>) -> Seq<u8>
    decreases entries.len(),
{
    if entries.len() == 0 {
        seq![]
    } else {
        info_entry_bytes(entries.drop_last()) + chunk_bytes(
            entries.last().0,
            vstd::utf8::encode_utf8(entries.last().1),
        )
    }
}

/// A `LIST` body of `INFO` entries.
pub fn build_info_list(entries: &[(ChunkId, String)]) -> (r: Vec<u8>)
    ensures
        r@ == INFO@ + info_entry_bytes(
            entries@.map_values(|e: (ChunkId, String)| super::chunks::info_model(e)),
        ),
{
    let ghost models = entries@.map_values(|e: (ChunkId, String)| super::chunks::info_model(e));
    let mut v: Vec<u8> = Vec::new();
    push_bytes(&mut v, &INFO);
    let mut i: usize = 0;
    while i < entries.len()
        invariant
            i <= entries@.len(),
            models == entries@.map_values(|e: (ChunkId, String)| super::chunks::info_model(e)),
            v@ == INFO@ + info_entry_bytes(models.take(i as int)),
        decreases entries.len() - i,
    {
        let text = entries[i].1.as_str();
        let bytes = text.as_bytes();
        push_chunk(&mut v, entries[i].0, bytes);
        proof {
            assert(models.take(i + 1).drop_last() =~= models.take(i as int));
            assert(models.take(i + 1).last() == models[i as int]);
        }
        i = i + 1;
    }
    proof {
        assert(models.take(entries@.len() as int) =~= models);
    }
    v
}

/// What the output file declares about itself, beyond `fmt `.
///
/// All optional: a file with none of it is still a valid WAVE, just a mute one
/// about its own tempo.
#[derive(Clone, Debug, PartialEq)]
pub struct Metadata {
    pub acid: Option<AcidChunk>,
    pub smpl: Option<SmplChunk>,
    /// Free text, written as `LIST`/`INFO`/`ICMT`: a human-readable fallback
    /// for hosts that ignore `acid`.
    pub comment: Option<String>,
    /// Anything else, written verbatim after the standard chunks.
    pub extra: Vec<(ChunkId, Vec<u8>)>,
}

impl Default for Metadata {
    fn default() -> (m: Metadata)
        ensures
            m.acid is None,
            m.smpl is None,
            m.comment is None,
            m.extra@.len() == 0,
    {
        Metadata { acid: None, smpl: None, comment: None, extra: Vec::new() }
    }
}

impl Metadata {
    /// The tags a finished loop should carry: tempo, beat count, meter and
    /// loop points, and nothing else.
    pub fn for_loop(tempo_bits: u32, beats: u32, numerator: u16, denominator: u16, frames: u32) -> (m: Metadata)
        ensures
            m.acid == Some(acid_for_loop(tempo_bits, beats, numerator, denominator)),
            m.smpl matches Some(c) && c.midi_unity_note == 60 && c.midi_pitch_fraction == 0 && (
            frames == 0 ==> c.loops@.len() == 0) && (frames > 0 ==> c.loops@ == seq![
                SampleLoop { start: 0, end: (frames - 1) as u32, play_count: 0 },
            ]),
            m.comment is None,
            m.extra@.len() == 0,
    {
        Metadata {
            acid: Some(AcidChunk::for_loop(tempo_bits, beats, numerator, denominator)),
            smpl: Some(SmplChunk::whole_file(frames)),
            comment: None,
            extra: Vec::new(),
        }
    }

    /// The same tags, with `comment` as the free text.
    pub fn with_comment(self, comment: String) -> (m: Metadata)
        ensures
            m.acid == self.acid,
            m.smpl == self.smpl,
            m.comment == Some(comment),
            m.extra == self.extra,
    {
        Metadata { comment: Some(comment), ..self }
    }
}

/// How to encode the output.
#[derive(Clone, Debug, PartialEq)]
pub struct WriteSpec {
    pub depth: BitDepth,
    pub metadata: Metadata,
}

impl Default for WriteSpec {
    fn default() -> (w: WriteSpec)
        ensures
            w.depth == BitDepth::Int24,
            w.metadata.acid is None && w.metadata.smpl is None && w.metadata.comment is None
                && w.metadata.extra@.len() == 0,
    {
        WriteSpec { depth: BitDepth::Int24, metadata: Metadata::default() }
    }
}

impl WriteSpec {
    pub fn new(depth: BitDepth) -> (w: WriteSpec)
        ensures
            w.depth == depth,
            w.metadata.acid is None && w.metadata.smpl is None && w.metadata.comment is None
                && w.metadata.extra@.len() == 0,
    {
        WriteSpec { depth, metadata: Metadata::default() }
    }

    pub fn with_metadata(self, metadata: Metadata) -> (w: WriteSpec)
        ensures
            w.depth == self.depth,
            w.metadata == metadata,
    {
        WriteSpec { metadata, ..self }
    }
}

/// The extra chunks, written verbatim, in order.
pub open spec fn extra_bytes(es: Seq<(ChunkId, Vec<u8>)>) -> Seq<u8>
    decreases es.len(),
{
    if es.len() == 0 {
        seq![]
    } else {
        extra_bytes(es.drop_last()) + chunk_bytes(es.last().0@, es.last().1@)
    }
}

/// The tag chunks, in the order they are written: `acid`, `smpl`, the
/// comment as a `LIST`, then the extras.
pub open spec fn tag_bytes(m: Metadata, sample_rate: u32) -> Seq<u8> {
    (match m.acid {
        Some(a) => chunk_bytes(ACID@, acid_body(a)),
        None => seq![],
    }) + (match m.smpl {
        Some(c) => chunk_bytes(SMPL@, smpl_body(c, sample_rate)),
        None => seq![],
    }) + (match m.comment {
        Some(c) => chunk_bytes(LIST@, INFO@ + info_entry_bytes(seq![(ICMT@, c@)])),
        None => seq![],
    }) + extra_bytes(m.extra@)
}

/// The channel count as a header holds it, and the bytes of sample data, for
/// `channel_count` channels of `frames` frames at `depth`.
pub open spec fn layout_of(channel_count: int, frames: int, depth: BitDepth) -> Result<
    (u16, int),
    Error,
> {
    if channel_count > u16::MAX {
        Err(Error::TooManyChannels(channel_count as usize))
    } else if frames * block_align(depth, channel_count) > usize::MAX {
        Err(Error::FileTooLarge(u64::MAX))
    } else {
        Ok((channel_count as u16, frames * block_align(depth, channel_count)))
    }
}

/// The channel count as a header holds it, and the length of the sample
/// data: more channels than a header can declare, or more data than this
/// machine can hold, is refused.
pub fn data_length(channel_count: usize, frames: usize, depth: BitDepth) -> (r: Result<
    (u16, usize),
    Error,
>)
    ensures
        match layout_of(channel_count as int, frames as int, depth) {
            Ok((c, n)) => r == Ok::<(u16, usize), Error>((c, n as usize)),
            Err(e) => r == Err::<(u16, usize), Error>(e),
        },
{
    if channel_count > 0xFFFF {
        return Err(Error::TooManyChannels(channel_count));
    }
    let channels = channel_count as u16;
    let bytes = depth.bytes();
    proof {
        assert(bytes * channels <= 4 * 65535) by (nonlinear_arith)
            requires
                bytes <= 4,
                channels <= 65535,
        ;
    }
    let align = bytes * channels as usize;
    match frames.checked_mul(align) {
        Some(n) => Ok((channels, n)),
        None => Err(Error::FileTooLarge(u64::MAX)),
    }
}

/// The body of the RIFF envelope: `WAVE`, `fmt `, `fact` for float, `data`,
/// then the tags.
///
/// Tags last on purpose: readers that walk chunks find them wherever they
/// sit, while the ones that assume audio starts at byte 44 — hardware
/// samplers, phone players — only work if nothing is inserted ahead of
/// `data`.
pub open spec fn wave_body(
    channels: u16,
    frames: int,
    sample_rate: u32,
    depth: BitDepth,
    data: Seq<u8>,
    m: Metadata,
) -> Seq<u8> {
    WAVE@ + (chunk_bytes(FMT@, fmt_bytes(depth, channels, sample_rate)) + (opt_chunk(
        depth == BitDepth::Float32,
        FACT@,
        le32((frames as u32) as int),
    ) + (chunk_bytes(DATA@, data) + tag_bytes(m, sample_rate))))
}

/// What [`write`] needs of its inputs beyond what it checks: the samples fill
/// the layout exactly, the header's byte rate fits its field, and a `smpl`
/// chunk has a rate and a loop count to write.
pub open spec fn write_inputs_fit(
    channel_count: int,
    frames: int,
    sample_rate: u32,
    data: Seq<u8>,
    spec: WriteSpec,
) -> bool {
    &&& layout_of(channel_count, frames, spec.depth) matches Ok((c, n)) ==> data.len() == n
        && block_align(spec.depth, c as int) <= u16::MAX && sample_rate * block_align(
        spec.depth,
        c as int,
    ) <= u32::MAX
    &&& spec.metadata.smpl matches Some(c) ==> sample_rate > 0 && c.loops@.len() <= u32::MAX
}

/// Appends the tag chunks.
fn push_tags(body: &mut Vec<u8>, m: &Metadata, sample_rate: u32)
    requires
        m.smpl matches Some(c) ==> sample_rate > 0 && c.loops@.len() <= u32::MAX,
    ensures
        final(body)@ == old(body)@ + tag_bytes(*m, sample_rate),
{
    let ghost start = body@;
    if let Some(acid) = m.acid {
        push_chunk(body, ACID, &acid.to_body());
    }
    let ghost after_acid = body@;
    if let Some(smpl) = &m.smpl {
        push_chunk(body, SMPL, &smpl.to_body(sample_rate));
    }
    let ghost after_smpl = body@;
    if let Some(comment) = &m.comment {
        let entries = vec![(ICMT, comment.clone())];
        let list = build_info_list(&entries);
        proof {
            assert(entries@.map_values(|e: (ChunkId, String)| super::chunks::info_model(e))
                =~= seq![(ICMT@, comment@)]);
        }
        push_chunk(body, LIST, &list);
    }
    let ghost after_comment = body@;
    let mut i: usize = 0;
    while i < m.extra.len()
        invariant
            i <= m.extra@.len(),
            body@ == after_comment + extra_bytes(m.extra@.take(i as int)),
        decreases m.extra@.len() - i,
    {
        push_chunk(body, m.extra[i].0, &m.extra[i].1);
        proof {
            assert(m.extra@.take(i + 1).drop_last() =~= m.extra@.take(i as int));
            assert(m.extra@.take(i + 1).last() == m.extra@[i as int]);
        }
        i = i + 1;
    }
    proof {
        assert(m.extra@.take(m.extra@.len() as int) =~= m.extra@);
        assert(body@ =~= start + tag_bytes(*m, sample_rate));
    }
}

/// The body of the RIFF envelope.
#[verifier::spinoff_prover]
#[verifier::rlimit(40)]
fn wave_body_of(
    channels: u16,
    frames: usize,
    sample_rate: u32,
    data: &[u8],
    spec: &WriteSpec,
) -> (body: Vec<u8>)
    requires
        block_align(spec.depth, channels as int) <= u16::MAX,
        sample_rate * block_align(spec.depth, channels as int) <= u32::MAX,
        spec.metadata.smpl matches Some(c) ==> sample_rate > 0 && c.loops@.len() <= u32::MAX,
    ensures
        body@ == wave_body(channels, frames as int, sample_rate, spec.depth, data@, spec.metadata),
{
    let depth = spec.depth;
    let mut body: Vec<u8> = Vec::new();
    push_bytes(&mut body, &WAVE);
    let fmt = fmt_body(depth, channels, sample_rate);
    push_chunk(&mut body, FMT, &fmt);
    if depth.is_float() {
        // Non-PCM formats declare their length in frames separately.
        let mut fact: Vec<u8> = Vec::new();
        #[verifier::truncate]
        let n = frames as u32;
        push_u32(&mut fact, n);
        push_chunk(&mut body, FACT, &fact);
    }
    push_chunk(&mut body, DATA, data);
    push_tags(&mut body, &spec.metadata, sample_rate);
    proof {
        assert(body@ =~= wave_body(channels, frames as int, sample_rate, depth, data@, spec.metadata));
    }
    body
}

/// Frames a WAVE file around `data`, the samples already encoded and
/// interleaved at `spec.depth`.
///
/// The RIFF size field is written honestly. A file past the 4 GiB a RIFF
/// size can address is refused with its size.
pub fn write(
    channel_count: usize,
    frames: usize,
    sample_rate: u32,
    data: &[u8],
    spec: &WriteSpec,
) -> (r: Result<Vec<u8>, Error>)
    requires
        write_inputs_fit(channel_count as int, frames as int, sample_rate, data@, *spec),
    ensures
        match layout_of(channel_count as int, frames as int, spec.depth) {
            Err(e) => r == Err::<Vec<u8>, Error>(e),
            Ok((c, n)) => {
                let body = wave_body(c, frames as int, sample_rate, spec.depth, data@, spec.metadata);
                if body.len() + 8 > u32::MAX {
                    r == Err::<Vec<u8>, Error>(Error::FileTooLarge(
                        (if body.len() + 8 <= u64::MAX {
                            body.len() + 8
                        } else {
                            u64::MAX as nat
                        }) as u64,
                    ))
                } else {
                    r matches Ok(out) && out@ == RIFF@ + le32(body.len() as int) + body
                }
            },
        },
{
    let (channels, _) = match data_length(channel_count, frames, spec.depth) {
        Ok(layout) => layout,
        Err(e) => {
            return Err(e);
        },
    };
    let body = wave_body_of(channels, frames, sample_rate, data, spec);
    let len = body.len();
    if len > 0xFFFF_FFFF - 8 {
        let total: u64 = if len as u64 <= 0xFFFF_FFFF_FFFF_FFFF - 8 {
            len as u64 + 8
        } else {
            0xFFFF_FFFF_FFFF_FFFF
        };
        return Err(Error::FileTooLarge(total));
    }
    let mut out: Vec<u8> = Vec::new();
    push_bytes(&mut out, &RIFF);
    push_u32(&mut out, len as u32);
    push_bytes(&mut out, body.as_slice());
    Ok(out)
}

/// A chunk written in full is walked back as itself, whatever follows it.
pub proof fn lemma_walk_written_chunk(id: Seq<u8>, body: Seq<u8>, rest: Seq<u8>)
    requires
        id.len() == 4,
        body.len() <= u32::MAX,
    ensures
        super::chunks::chunks_of(chunk_bytes(id, body) + rest) == seq![(id, body)]
            + super::chunks::chunks_of(rest),
{
    let s = chunk_bytes(id, body) + rest;
    let n = body.len() as int;
    assert((n as u32) as int == n);
    assert(s.subrange(4, 8) =~= le32(n));
    super::chunks::lemma_le32(n, s, 4);
    assert(super::chunks::clamped_size(s) == n);
    assert(s.subrange(0, 4) =~= id);
    assert(s.subrange(8, 8 + n) =~= body);
    assert(super::chunks::after_first_chunk(s) =~= rest);
}

/// The identifiers a written file uses are all different.
proof fn lemma_ids_differ()
    ensures
        FMT@ != DATA@,
        FACT@ != DATA@,
        FMT@ != FACT@,
        ACID@ != FMT@ && ACID@ != FACT@ && ACID@ != DATA@ && ACID@ != SMPL@ && ACID@ != LIST@,
        SMPL@ != FMT@ && SMPL@ != FACT@ && SMPL@ != DATA@ && SMPL@ != LIST@,
        LIST@ != FMT@ && LIST@ != FACT@ && LIST@ != DATA@,
        FMT@.len() == 4 && DATA@.len() == 4 && FACT@.len() == 4 && ACID@.len() == 4 && SMPL@.len()
            == 4 && LIST@.len() == 4 && ICMT@.len() == 4 && INFO@.len() == 4 && RIFF@.len() == 4
            && WAVE@.len() == 4,
{
    assert(FMT@[0] == 0x66);
    assert(DATA@[0] == 0x64);
    assert(FACT@[0] == 0x66 && FACT@[1] == 0x61);
    assert(FMT@[1] == 0x6d);
    assert(ACID@[0] == 0x61);
    assert(SMPL@[0] == 0x73);
    assert(LIST@[0] == 0x4c);
}

/// The `fmt ` body written for a depth reads back as that depth.
#[verifier::rlimit(60)]
proof fn lemma_format_reads_back(depth: BitDepth, channels: u16, sample_rate: u32)
    requires
        channels >= 1,
        sample_rate >= 1,
        block_align(depth, channels as int) <= u16::MAX,
        sample_rate * block_align(depth, channels as int) <= u32::MAX,
    ensures
        super::chunks::format_of(fmt_bytes(depth, channels, sample_rate)) == Ok::<
            super::chunks::Format,
            Error,
        >(written_format(depth, channels, sample_rate)),
{
    let b = fmt_bytes(depth, channels, sample_rate);
    let align = block_align(depth, channels as int);
    let tag: int = if depth == BitDepth::Float32 {
        FORMAT_IEEE_FLOAT as int
    } else {
        FORMAT_PCM as int
    };
    assert(b.subrange(0, 2) =~= le16(tag));
    super::chunks::lemma_le16(tag, b, 0);
    assert(b.subrange(2, 4) =~= le16(channels as int));
    super::chunks::lemma_le16(channels as int, b, 2);
    assert(b.subrange(4, 8) =~= le32(sample_rate as int));
    super::chunks::lemma_le32(sample_rate as int, b, 4);
    assert(b.subrange(12, 14) =~= le16(align));
    super::chunks::lemma_le16(align, b, 12);
    assert(b.subrange(14, 16) =~= le16(depth_bits(depth)));
    super::chunks::lemma_le16(depth_bits(depth), b, 14);
}

/// The format a file written at `depth` declares.
pub open spec fn written_format(depth: BitDepth, channels: u16, sample_rate: u32) -> super::chunks::Format {
    super::chunks::Format {
        format: if depth == BitDepth::Float32 {
            super::chunks::SampleFormat::Float
        } else {
            super::chunks::SampleFormat::Int
        },
        channels,
        sample_rate,
        bits_per_sample: depth_bits(depth) as u16,
        block_align: block_align(depth, channels as int) as u16,
    }
}

/// An optional chunk, as written and as walked back.
pub open spec fn opt_chunk(present: bool, id: Seq<u8>, body: Seq<u8>) -> Seq<u8> {
    if present {
        chunk_bytes(id, body)
    } else {
        seq![]
    }
}

pub open spec fn opt_walked(present: bool, id: Seq<u8>, body: Seq<u8>) -> Seq<(Seq<u8>, Seq<u8>)> {
    if present {
        seq![(id, body)]
    } else {
        seq![]
    }
}

/// Walking an optional chunk and what follows it.
proof fn lemma_walk_opt(present: bool, id: Seq<u8>, body: Seq<u8>, rest: Seq<u8>)
    requires
        id.len() == 4,
        body.len() <= u32::MAX,
    ensures
        super::chunks::chunks_of(opt_chunk(present, id, body) + rest) == opt_walked(present, id, body)
            + super::chunks::chunks_of(rest),
{
    if present {
        lemma_walk_written_chunk(id, body, rest);
    } else {
        assert(opt_chunk(present, id, body) + rest =~= rest);
        assert(opt_walked(present, id, body) + super::chunks::chunks_of(rest) =~= super::chunks::chunks_of(
            rest,
        ));
    }
}

/// The body of the `acid` chunk written for `m`, if any.
pub open spec fn acid_part(m: Metadata) -> Seq<u8> {
    match m.acid {
        Some(a) => acid_body(a),
        None => seq![],
    }
}

/// The body of the `smpl` chunk written for `m`, if any.
pub open spec fn smpl_part(m: Metadata, sample_rate: u32) -> Seq<u8> {
    match m.smpl {
        Some(c) => smpl_body(c, sample_rate),
        None => seq![],
    }
}

/// The body of the comment's `LIST` chunk written for `m`, if any.
pub open spec fn list_part(m: Metadata) -> Seq<u8> {
    match m.comment {
        Some(c) => INFO@ + info_entry_bytes(seq![(ICMT@, c@)]),
        None => seq![],
    }
}

/// The tag chunks, walked back.
proof fn lemma_walk_tags(m: Metadata, sample_rate: u32)
    requires
        m.extra@.len() == 0,
        tag_bytes(m, sample_rate).len() <= u32::MAX,
    ensures
        super::chunks::chunks_of(tag_bytes(m, sample_rate)) == opt_walked(
            m.acid is Some,
            ACID@,
            acid_part(m),
        ) + opt_walked(m.smpl is Some, SMPL@, smpl_part(m, sample_rate)) + opt_walked(
            m.comment is Some,
            LIST@,
            list_part(m),
        ),
{
    lemma_ids_differ();
    let a = opt_chunk(m.acid is Some, ACID@, acid_part(m));
    let b = opt_chunk(m.smpl is Some, SMPL@, smpl_part(m, sample_rate));
    let c = opt_chunk(m.comment is Some, LIST@, list_part(m));
    assert(extra_bytes(m.extra@) =~= Seq::<u8>::empty());
    assert(tag_bytes(m, sample_rate) =~= a + (b + (c + Seq::<u8>::empty())));
    assert(acid_part(m).len() <= u32::MAX);
    assert(smpl_part(m, sample_rate).len() <= u32::MAX);
    assert(list_part(m).len() <= u32::MAX);
    lemma_walk_opt(m.comment is Some, LIST@, list_part(m), Seq::<u8>::empty());
    lemma_walk_opt(m.smpl is Some, SMPL@, smpl_part(m, sample_rate), c + Seq::<u8>::empty());
    lemma_walk_opt(m.acid is Some, ACID@, acid_part(m), b + (c + Seq::<u8>::empty()));
    assert(super::chunks::chunks_of(Seq::<u8>::empty()) =~= Seq::<(Seq<u8>, Seq<u8>)>::empty());
    assert(opt_walked(m.acid is Some, ACID@, acid_part(m)) + (opt_walked(
        m.smpl is Some,
        SMPL@,
        smpl_part(m, sample_rate),
    ) + (opt_walked(m.comment is Some, LIST@, list_part(m)) + Seq::<
        (Seq<u8>, Seq<u8>),
    >::empty())) =~= opt_walked(m.acid is Some, ACID@, acid_part(m)) + opt_walked(
        m.smpl is Some,
        SMPL@,
        smpl_part(m, sample_rate),
    ) + opt_walked(m.comment is Some, LIST@, list_part(m)));
}

/// The file [`write`] frames around `data`.
pub open spec fn written_file(
    channels: u16,
    frames: int,
    sample_rate: u32,
    depth: BitDepth,
    data: Seq<u8>,
    m: Metadata,
) -> Seq<u8> {
    let body = wave_body(channels, frames, sample_rate, depth, data, m);
    RIFF@ + le32(body.len() as int) + body
}

/// A written file opens with `RIFF` and a size field that is honest: it
/// counts exactly the bytes after it.
pub proof fn law_written_size_field_is_honest(
    channels: u16,
    frames: int,
    sample_rate: u32,
    depth: BitDepth,
    data: Seq<u8>,
    m: Metadata,
)
    requires
        wave_body(channels, frames, sample_rate, depth, data, m).len() + 8 <= u32::MAX,
    ensures
        written_file(channels, frames, sample_rate, depth, data, m).subrange(0, 4) == RIFF@,
        super::chunks::u32_le(written_file(channels, frames, sample_rate, depth, data, m), 4) + 8
            == written_file(channels, frames, sample_rate, depth, data, m).len(),
{
    let body = wave_body(channels, frames, sample_rate, depth, data, m);
    let f = written_file(channels, frames, sample_rate, depth, data, m);
    assert(f.subrange(0, 4) =~= RIFF@);
    assert(f.subrange(4, 8) =~= le32(body.len() as int));
    super::chunks::lemma_le32(body.len() as int, f, 4);
}

/// Three four-byte fields, then the rest.
proof fn lemma_skip_header(a: Seq<u8>, b: Seq<u8>, c: Seq<u8>, rest: Seq<u8>)
    requires
        a.len() == 4,
        b.len() == 4,
        c.len() == 4,
    ensures
        (a + b + (c + rest)).skip(12) == rest,
        (a + b + (c + rest)).subrange(0, 4) == a,
        (a + b + (c + rest)).subrange(8, 12) == c,
        (a + b + (c + rest)).len() >= 12,
{
    assert((a + b + (c + rest)).skip(12) =~= rest);
    assert((a + b + (c + rest)).subrange(0, 4) =~= a);
    assert((a + b + (c + rest)).subrange(8, 12) =~= c);
}

/// Chunks none of which is a `LIST` carry no `INFO` text.
proof fn lemma_all_info_none(s: Seq<(Seq<u8>, Seq<u8>)>)
    requires
        forall|i: int| 0 <= i < s.len() ==> (#[trigger] s[i]).0 != LIST@,
    ensures
        all_info(s) == Seq::<(Seq<u8>, Seq<char>)>::empty(),
    decreases s.len(),
{
    if s.len() > 0 {
        assert forall|i: int| 0 <= i < s.drop_first().len() implies (
        #[trigger] s.drop_first()[i]).0 != LIST@ by {
            assert(s.drop_first()[i] == s[i + 1]);
        }
        lemma_all_info_none(s.drop_first());
        assert(s[0].0 != LIST@);
        assert(all_info(s) =~= Seq::<(Seq<u8>, Seq<char>)>::empty() + all_info(s.drop_first()));
    }
}

/// The chunks of a written file, walked back: `fmt `, `fact` for float,
/// `data`, then the tags.
proof fn lemma_walk_written_file(
    channels: u16,
    frames: int,
    sample_rate: u32,
    depth: BitDepth,
    data: Seq<u8>,
    m: Metadata,
)
    requires
        m.extra@.len() == 0,
        wave_body(channels, frames, sample_rate, depth, data, m).len() + 8 <= u32::MAX,
    ensures
        is_wave(written_file(channels, frames, sample_rate, depth, data, m)),
        super::chunks::chunks_of(written_file(channels, frames, sample_rate, depth, data, m).skip(12))
            == seq![(FMT@, fmt_bytes(depth, channels, sample_rate))] + (opt_walked(
            depth == BitDepth::Float32,
            FACT@,
            le32((frames as u32) as int),
        ) + (seq![(DATA@, data)] + tag_walk(m, sample_rate))),
{
    lemma_ids_differ();
    let body = wave_body(channels, frames, sample_rate, depth, data, m);
    let fmtb = fmt_bytes(depth, channels, sample_rate);
    let is_float = depth == BitDepth::Float32;
    let factb = le32((frames as u32) as int);
    let tags = tag_bytes(m, sample_rate);
    let rest3 = chunk_bytes(DATA@, data) + tags;
    let rest2 = opt_chunk(is_float, FACT@, factb) + rest3;
    let rest1 = chunk_bytes(FMT@, fmtb) + rest2;
    assert(body == WAVE@ + rest1);
    lemma_skip_header(RIFF@, le32(body.len() as int), WAVE@, rest1);
    assert(data.len() <= rest3.len() <= rest1.len());
    assert(fmtb.len() <= rest1.len());
    assert(tags.len() <= rest3.len());
    lemma_walk_tags(m, sample_rate);
    lemma_walk_written_chunk(DATA@, data, tags);
    lemma_walk_opt(is_float, FACT@, factb, rest3);
    lemma_walk_written_chunk(FMT@, fmtb, rest2);
}

/// The tag chunks of `m`, walked back.
pub open spec fn tag_walk(m: Metadata, sample_rate: u32) -> Seq<(Seq<u8>, Seq<u8>)> {
    opt_walked(m.acid is Some, ACID@, acid_part(m)) + opt_walked(
        m.smpl is Some,
        SMPL@,
        smpl_part(m, sample_rate),
    ) + opt_walked(m.comment is Some, LIST@, list_part(m))
}

/// The tags read back from chunks that hold `m`'s tag chunks after others
/// that are not tags.
proof fn lemma_tags_read_back(
    head: Seq<(Seq<u8>, Seq<u8>)>,
    m: Metadata,
    sample_rate: u32,
)
    requires
        forall|i: int|
            0 <= i < head.len() ==> (#[trigger] head[i]).0 != ACID@ && head[i].0 != SMPL@
                && head[i].0 != LIST@,
        sample_rate >= 1,
        m.smpl matches Some(c) ==> c.loops@.len() <= u32::MAX,
    ensures
        (match crate::naming::first_where(head + tag_walk(m, sample_rate), is_readable_acid()) {
            Some(j) => super::chunks::acid_of((head + tag_walk(m, sample_rate))[j].1),
            None => None,
        }) == m.acid,
        match m.smpl {
            Some(c) => crate::naming::first_where(head + tag_walk(m, sample_rate), is_readable_smpl())
                matches Some(j) && (head + tag_walk(m, sample_rate))[j].1 == smpl_body(c, sample_rate),
            None => crate::naming::first_where(head + tag_walk(m, sample_rate), is_readable_smpl())
                is None,
        },
        all_info(head + tag_walk(m, sample_rate)) == (match m.comment {
            Some(c) => super::chunks::info_list_of(list_part(m)),
            None => seq![],
        }),
{
    lemma_ids_differ();
    let wa = opt_walked(m.acid is Some, ACID@, acid_part(m));
    let ws = opt_walked(m.smpl is Some, SMPL@, smpl_part(m, sample_rate));
    let wl = opt_walked(m.comment is Some, LIST@, list_part(m));
    let cs = head + tag_walk(m, sample_rate);
    let h = head.len() as int;
    let na = wa.len() as int;
    let ns = ws.len() as int;
    assert(cs =~= head + wa + ws + wl);
    assert forall|i: int| 0 <= i < h implies #[trigger] cs[i] == head[i] by {}
    assert forall|i: int| 0 <= i < na implies #[trigger] cs[h + i] == wa[i] by {}
    assert forall|i: int| 0 <= i < ns implies #[trigger] cs[h + na + i] == ws[i] by {}
    assert forall|i: int| 0 <= i < wl.len() implies #[trigger] cs[h + na + ns + i] == wl[i] by {}
    match m.acid {
        Some(a) => {
            assert(cs[h] == wa[0]);
            assert forall|i: int| 0 <= i < h implies !#[trigger] is_readable_acid()(cs[i]) by {
                assert(cs[i] == head[i]);
            }
            lemma_first_where_at(cs, is_readable_acid(), h);
            super::chunks::law_acid_round_trip(a);
        },
        None => {
            assert forall|i: int| 0 <= i < cs.len() implies !#[trigger] is_readable_acid()(cs[i]) by {
                if i < h {
                    assert(cs[i] == head[i]);
                } else if i < h + ns {
                    assert(cs[i] == ws[i - h]);
                } else {
                    assert(cs[i] == wl[i - h - ns]);
                }
            }
            lemma_first_where_none(cs, is_readable_acid());
        },
    }
    match m.smpl {
        Some(c) => {
            super::chunks::lemma_records(c.loops@, 0);
            assert(cs[h + na] == ws[0]);
            assert forall|i: int| 0 <= i < h + na implies !#[trigger] is_readable_smpl()(cs[i]) by {
                if i < h {
                    assert(cs[i] == head[i]);
                } else {
                    assert(cs[i] == wa[i - h]);
                }
            }
            lemma_first_where_at(cs, is_readable_smpl(), h + na);
        },
        None => {
            assert forall|i: int| 0 <= i < cs.len() implies !#[trigger] is_readable_smpl()(cs[i]) by {
                if i < h {
                    assert(cs[i] == head[i]);
                } else if i < h + na {
                    assert(cs[i] == wa[i - h]);
                } else {
                    assert(cs[i] == wl[i - h - na]);
                }
            }
            lemma_first_where_none(cs, is_readable_smpl());
        },
    }
    let front = head + wa + ws;
    assert forall|i: int| 0 <= i < front.len() implies (#[trigger] front[i]).0 != LIST@ by {
        if i < h {
            assert(front[i] == head[i]);
        } else if i < h + na {
            assert(front[i] == wa[i - h]);
        } else {
            assert(front[i] == ws[i - h - na]);
        }
    }
    lemma_all_info_none(front);
    lemma_all_info_concat(front, wl);
    if m.comment is Some {
        assert(wl.drop_first() =~= Seq::<(Seq<u8>, Seq<u8>)>::empty());
        assert(all_info(Seq::<(Seq<u8>, Seq<u8>)>::empty()) =~= Seq::<(Seq<u8>, Seq<char>)>::empty());
        assert(all_info(wl) =~= super::chunks::info_list_of(list_part(m)));
    } else {
        assert(all_info(wl) =~= Seq::<(Seq<u8>, Seq<char>)>::empty());
    }
    assert(all_info(cs) =~= all_info(wl));
}

/// The comment's `LIST` reads back as one `ICMT` entry.
proof fn lemma_comment_reads_back(c: Seq<char>)
    requires
        vstd::utf8::encode_utf8(c).len() <= u32::MAX,
    ensures
        super::chunks::info_list_of(INFO@ + info_entry_bytes(seq![(ICMT@, c)]))
            == super::chunks::info_entries(seq![(ICMT@, vstd::utf8::encode_utf8(c))]),
{
    lemma_ids_differ();
    let e = vstd::utf8::encode_utf8(c);
    let lb = INFO@ + info_entry_bytes(seq![(ICMT@, c)]);
    assert(seq![(ICMT@, c)].drop_last() =~= Seq::<(Seq<u8>, Seq<char>)>::empty());
    assert(seq![(ICMT@, c)].last() == (ICMT@, c));
    assert(info_entry_bytes(Seq::<(Seq<u8>, Seq<char>)>::empty()) =~= Seq::<u8>::empty());
    assert(info_entry_bytes(seq![(ICMT@, c)]) == info_entry_bytes(
        Seq::<(Seq<u8>, Seq<char>)>::empty(),
    ) + chunk_bytes(ICMT@, e));
    assert(info_entry_bytes(seq![(ICMT@, c)]) =~= chunk_bytes(ICMT@, e));
    assert(lb.subrange(0, 4) =~= INFO@);
    assert(lb.skip(4) =~= chunk_bytes(ICMT@, e) + Seq::<u8>::empty());
    lemma_walk_written_chunk(ICMT@, e, Seq::<u8>::empty());
    assert(super::chunks::chunks_of(Seq::<u8>::empty()) =~= Seq::<(Seq<u8>, Seq<u8>)>::empty());
    assert(seq![(ICMT@, e)] + Seq::<(Seq<u8>, Seq<u8>)>::empty() =~= seq![(ICMT@, e)]);
}

/// A file [`write`] frames reads back through `Wav::parse` as what was
/// written: the format it declares, the samples, and the tags — the `acid`
/// chunk as it was, the `smpl` chunk's tuning and loops, and the comment as
/// the `INFO` text its UTF-8 decodes to.
#[verifier::rlimit(100)]
pub proof fn law_written_file_reads_back<'a>(
    channels: u16,
    frames: int,
    sample_rate: u32,
    depth: BitDepth,
    data: Seq<u8>,
    m: Metadata,
    r: Result<super::read::Wav<'a>, Error>,
)
    requires
        channels >= 1,
        sample_rate >= 1,
        block_align(depth, channels as int) <= u16::MAX,
        sample_rate * block_align(depth, channels as int) <= u32::MAX,
        m.extra@.len() == 0,
        wave_body(channels, frames, sample_rate, depth, data, m).len() + 8 <= u32::MAX,
        super::read::wav_read(
            r,
            super::chunks::chunks_of(
                written_file(channels, frames, sample_rate, depth, data, m).skip(12),
            ),
        ),
    ensures
        is_wave(written_file(channels, frames, sample_rate, depth, data, m)),
        r matches Ok(w) && w.format_model() == written_format(depth, channels, sample_rate)
            && w.data_model() == data && w.tags_model().acid == m.acid,
        r matches Ok(w) && (match m.smpl {
            Some(c) => w.tags_model().smpl matches Some(d) && d.midi_unity_note
                == c.midi_unity_note && d.midi_pitch_fraction == c.midi_pitch_fraction && d.loops@
                == c.loops@,
            None => w.tags_model().smpl is None,
        }),
        r matches Ok(w) && w.tags_model().info@.map_values(
            |e: (ChunkId, String)| super::chunks::info_model(e),
        ) == (match m.comment {
            Some(c) => super::chunks::info_entries(seq![(ICMT@, vstd::utf8::encode_utf8(c@))]),
            None => seq![],
        }),
{
    lemma_ids_differ();
    lemma_walk_written_file(channels, frames, sample_rate, depth, data, m);
    lemma_format_reads_back(depth, channels, sample_rate);
    let body = wave_body(channels, frames, sample_rate, depth, data, m);
    let fmtb = fmt_bytes(depth, channels, sample_rate);
    let is_float = depth == BitDepth::Float32;
    let factb = le32((frames as u32) as int);
    let fact = opt_walked(is_float, FACT@, factb);
    let head = seq![(FMT@, fmtb)] + fact + seq![(DATA@, data)];
    let cs = head + tag_walk(m, sample_rate);
    assert(cs =~= seq![(FMT@, fmtb)] + (fact + (seq![(DATA@, data)] + tag_walk(m, sample_rate))));
    let k: int = if is_float {
        2
    } else {
        1
    };
    assert(head.len() == k + 1);
    assert(cs[0] == (FMT@, fmtb));
    assert(cs[k] == (DATA@, data));
    assert(is_float ==> cs[1] == (FACT@, factb));
    assert forall|i: int| 0 <= i < head.len() implies (#[trigger] head[i]).0 != ACID@ && head[i].0
        != SMPL@ && head[i].0 != LIST@ by {
        if i == 0 {
            assert(head[i] == (FMT@, fmtb));
        } else if i == k {
            assert(head[i] == (DATA@, data));
        } else {
            assert(head[i] == (FACT@, factb));
        }
    }
    lemma_first_where_at(cs, is_chunk(FMT), 0);
    assert forall|i: int| 0 <= i < k implies !#[trigger] is_chunk(DATA)(cs[i]) by {
        if i == 0 {
        } else {
            assert(cs[i] == (FACT@, factb));
        }
    }
    lemma_first_where_at(cs, is_chunk(DATA), k);
    let tags = tag_bytes(m, sample_rate);
    assert(tags.len() <= body.len());
    match m.smpl {
        Some(c) => {
            super::chunks::lemma_records(c.loops@, 0);
            assert(smpl_part(m, sample_rate).len() <= tags.len());
        },
        None => {},
    }
    lemma_tags_read_back(head, m, sample_rate);
    match m.smpl {
        Some(c) => {
            super::chunks::law_smpl_round_trip(c, sample_rate);
        },
        None => {},
    }
    match m.comment {
        Some(c) => {
            assert(list_part(m).len() <= tags.len());
            lemma_comment_reads_back(c@);
        },
        None => {},
    }
}

} // verus!
