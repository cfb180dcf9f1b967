//! RIFF chunk walking and the chunks a loop cares about.
//!
//! The chunk layer is hand-rolled because `acid` and `smpl` chunks have to be
//! *written*, not only read; reading through the same layer keeps the round
//! trip symmetric.

use crate::error::Error;
use crate::text::{chars_of, push_char, string_of, trim, trim_range};
use vstd::prelude::*;

verus! {

/// A four-character RIFF identifier.
pub type ChunkId = [u8; 4];

pub const RIFF: ChunkId = [0x52, 0x49, 0x46, 0x46];

pub const WAVE: ChunkId = [0x57, 0x41, 0x56, 0x45];

pub const FMT: ChunkId = [0x66, 0x6d, 0x74, 0x20];

pub const DATA: ChunkId = [0x64, 0x61, 0x74, 0x61];

pub const ACID: ChunkId = [0x61, 0x63, 0x69, 0x64];

pub const SMPL: ChunkId = [0x73, 0x6d, 0x70, 0x6c];

pub const LIST: ChunkId = [0x4c, 0x49, 0x53, 0x54];

pub const INFO: ChunkId = [0x49, 0x4e, 0x46, 0x4f];

pub const ICMT: ChunkId = [0x49, 0x43, 0x4d, 0x54];

pub const FORMAT_PCM: u16 = 0x0001;

pub const FORMAT_IEEE_FLOAT: u16 = 0x0003;

pub const FORMAT_EXTENSIBLE: u16 = 0xFFFE;

/// The little-endian 16-bit number at `at`.
pub open spec fn u16_le(s: Seq<u8>, at: int) -> int {
    s[at] + 256 * s[at + 1]
}

/// The little-endian 32-bit number at `at`.
pub open spec fn u32_le(s: Seq<u8>, at: int) -> int {
    s[at] + 256 * s[at + 1] + 65536 * s[at + 2] + 16777216 * s[at + 3]
}

/// The four bytes at `at`, as an identifier.
pub fn read_id(b: &[u8], at: usize) -> (r: ChunkId)
    requires
        at + 4 <= b@.len(),
    ensures
        r@ == b@.subrange(at as int, at + 4),
{
    let r = [b[at], b[at + 1], b[at + 2], b[at + 3]];
    proof {
        assert(r@ =~= b@.subrange(at as int, at + 4));
    }
    r
}

/// The little-endian 16-bit number at `at`.
pub fn read_u16(b: &[u8], at: usize) -> (r: u16)
    requires
        at + 2 <= b@.len(),
    ensures
        r == u16_le(b@, at as int),
{
    b[at] as u16 + 256 * (b[at + 1] as u16)
}

/// The little-endian 32-bit number at `at`.
pub fn read_u32(b: &[u8], at: usize) -> (r: u32)
    requires
        at + 4 <= b@.len(),
    ensures
        r == u32_le(b@, at as int),
{
    b[at] as u32 + 256 * (b[at + 1] as u32) + 65536 * (b[at + 2] as u32) + 16777216 * (
    b[at + 3] as u32)
}

/// Whether two identifiers are the same four bytes.
pub fn same_id(a: ChunkId, b: ChunkId) -> (r: bool)
    ensures
        r == (a@ == b@),
{
    let r = a[0] == b[0] && a[1] == b[1] && a[2] == b[2] && a[3] == b[3];
    proof {
        if r {
            assert(a@ =~= b@);
        }
    }
    r
}

/// Whether `head` opens a RIFF/WAVE file: `RIFF`, four bytes of size, then
/// `WAVE`. Twelve bytes decide it, whatever the file is called.
pub fn starts_like_wave(head: &[u8]) -> (r: bool)
    ensures
        r == (head@.len() >= 12 && head@.subrange(0, 4) == RIFF@ && head@.subrange(8, 12) == WAVE@),
{
    if head.len() < 12 {
        return false;
    }
    same_id(read_id(head, 0), RIFF) && same_id(read_id(head, 8), WAVE)
}

/// One chunk: its id and its body, padding byte already excluded.
#[derive(Copy, Clone, Debug)]
pub struct Chunk<'a> {
    pub id: ChunkId,
    pub body: &'a [u8],
}

/// A chunk as a model: its id and its body.
pub open spec fn chunk_model(c: Chunk) -> (Seq<u8>, Seq<u8>) {
    (c.id@, c.body@)
}

/// The body size a chunk header at the front of `rest` declares, clamped to
/// what actually remains.
pub open spec fn clamped_size(rest: Seq<u8>) -> int {
    let declared = u32_le(rest, 4);
    if declared <= rest.len() - 8 {
        declared
    } else {
        rest.len() - 8
    }
}

/// The first chunk of `rest`, whose header is whole.
pub open spec fn first_chunk(rest: Seq<u8>) -> (Seq<u8>, Seq<u8>) {
    (rest.subrange(0, 4), rest.subrange(8, 8 + clamped_size(rest)))
}

/// What is left after the first chunk of `rest` and its pad byte.
pub open spec fn after_first_chunk(rest: Seq<u8>) -> Seq<u8> {
    let size = clamped_size(rest);
    let advance = 8 + size + size % 2;
    if advance <= rest.len() {
        rest.skip(advance)
    } else {
        seq![]
    }
}

/// The chunks `rest` holds, in order.
///
/// A chunk claiming more than remains is handed back with what is actually
/// there — for `data` that is a short file, not a broken one — and the walk
/// stops at the first header that is not whole, so a file with a truncated
/// trailing chunk still yields everything before it.
pub open spec fn chunks_of(rest: Seq<u8>) -> Seq<(Seq<u8>, Seq<u8>)>
    decreases rest.len(),
{
    if rest.len() < 8 {
        seq![]
    } else {
        seq![first_chunk(rest)] + chunks_of(after_first_chunk(rest))
    }
}

/// Walks the chunks of a RIFF/WAVE file.
pub struct Chunks<'a> {
    rest: &'a [u8],
}

impl<'a> Chunks<'a> {
    /// The bytes not yet walked.
    pub closed spec fn remaining(&self) -> Seq<u8> {
        self.rest@
    }

    /// Validates the `RIFF….WAVE` envelope and returns a walker over its body.
    ///
    /// The RIFF size field is advisory only: encoders get it wrong in both
    /// directions, so the actual length of the bytes is the authority, and
    /// individual chunks are clamped to what remains as they are walked.
    pub fn parse(bytes: &'a [u8]) -> (r: Result<Chunks<'a>, Error>)
        ensures
            bytes@.len() < 12 ==> r == Err::<Chunks<'a>, Error>(Error::NotRiff),
            bytes@.len() >= 12 && bytes@.subrange(0, 4) != RIFF@ ==> r == Err::<
                Chunks<'a>,
                Error,
            >(Error::NotRiff),
            bytes@.len() >= 12 && bytes@.subrange(0, 4) == RIFF@ && bytes@.subrange(8, 12)
                != WAVE@ ==> r == Err::<Chunks<'a>, Error>(Error::NotWave),
            bytes@.len() >= 12 && bytes@.subrange(0, 4) == RIFF@ && bytes@.subrange(8, 12)
                == WAVE@ ==> (r matches Ok(c) && c.remaining() == bytes@.skip(12)),
    {
        if bytes.len() < 12 {
            return Err(Error::NotRiff);
        }
        if !same_id(read_id(bytes, 0), RIFF) {
            return Err(Error::NotRiff);
        }
        if !same_id(read_id(bytes, 8), WAVE) {
            return Err(Error::NotWave);
        }
        let rest = &bytes[12..bytes.len()];
        proof {
            assert(rest@ =~= bytes@.skip(12));
        }
        Ok(Chunks { rest })
    }

    /// How far the RIFF size field is from the real file length, in bytes:
    /// positive when the header claims more than the file holds. `None`
    /// unless the bytes start with a RIFF header.
    pub fn size_field_error(bytes: &[u8]) -> (r: Option<i64>)
        requires
            bytes@.len() <= i64::MAX,
        ensures
            bytes@.len() >= 8 && bytes@.subrange(0, 4) == RIFF@ ==> r == Some(
                (u32_le(bytes@, 4) + 8 - bytes@.len()) as i64,
            ),
            !(bytes@.len() >= 8 && bytes@.subrange(0, 4) == RIFF@) ==> r is None,
    {
        if bytes.len() >= 8 && same_id(read_id(bytes, 0), RIFF) {
            Some(read_u32(bytes, 4) as i64 + 8 - bytes.len() as i64)
        } else {
            None
        }
    }

    /// The next chunk, or `None` once no whole header remains.
    pub fn next_chunk(&mut self) -> (r: Option<Chunk<'a>>)
        ensures
            old(self).remaining().len() < 8 ==> r is None && final(self).remaining() == old(
                self,
            ).remaining(),
            old(self).remaining().len() >= 8 ==> (r matches Some(c) && chunk_model(c)
                == first_chunk(old(self).remaining())) && final(self).remaining()
                == after_first_chunk(old(self).remaining()),
    {
        let rest = self.rest;
        if rest.len() < 8 {
            return None;
        }
        let id = read_id(rest, 0);
        let declared = read_u32(rest, 4) as usize;
        let available = rest.len() - 8;
        let size = if declared <= available {
            declared
        } else {
            available
        };
        let body = &rest[8..8 + size];
        // Chunks are word-aligned: an odd size is followed by a pad byte that
        // is not part of the body.
        let end = 8 + size;
        self.rest = if size % 2 == 0 {
            &rest[end..rest.len()]
        } else if end < rest.len() {
            &rest[end + 1..rest.len()]
        } else {
            &rest[rest.len()..rest.len()]
        };
        proof {
            assert(self.rest@ =~= after_first_chunk(rest@));
            assert(id@ == rest@.subrange(0, 4));
        }
        Some(Chunk { id, body })
    }

    /// Every chunk that remains, in order.
    pub fn into_vec(self) -> (v: Vec<Chunk<'a>>)
        ensures
            v@.map_values(|c: Chunk<'a>| chunk_model(c)) == chunks_of(self.remaining()),
    {
        let mut walker = self;
        let mut v: Vec<Chunk<'a>> = Vec::new();
        loop
            invariant
                v@.map_values(|c: Chunk<'a>| chunk_model(c)) + chunks_of(walker.remaining())
                    == chunks_of(self.remaining()),
            decreases walker.remaining().len(),
        {
            let ghost before = walker.remaining();
            let ghost vb = v@;
            match walker.next_chunk() {
                None => {
                    proof {
                        assert(chunks_of(before) =~= Seq::<(Seq<u8>, Seq<u8>)>::empty());
                        assert(v@.map_values(|c: Chunk<'a>| chunk_model(c)) =~= v@.map_values(
                            |c: Chunk<'a>| chunk_model(c),
                        ) + chunks_of(before));
                    }
                    return v;
                },
                Some(c) => {
                    v.push(c);
                    proof {
                        assert(v@.map_values(|c: Chunk<'a>| chunk_model(c)) =~= vb.map_values(
                            |c: Chunk<'a>| chunk_model(c),
                        ).push(first_chunk(before)));
                        assert(chunks_of(before) == seq![first_chunk(before)] + chunks_of(
                            after_first_chunk(before),
                        ));
                        assert(v@.map_values(|c: Chunk<'a>| chunk_model(c)) + chunks_of(
                            walker.remaining(),
                        ) =~= vb.map_values(|c: Chunk<'a>| chunk_model(c)) + chunks_of(before));
                    }
                },
            }
        }
    }
}

/// The two bytes of `x`, little-endian.
pub open spec fn le16(x: int) -> Seq<u8> {
    seq![(x % 256) as u8, (x / 256 % 256) as u8]
}

/// The four bytes of `x`, little-endian.
pub open spec fn le32(x: int) -> Seq<u8> {
    seq![
        (x % 256) as u8,
        (x / 256 % 256) as u8,
        (x / 65536 % 256) as u8,
        (x / 16777216 % 256) as u8,
    ]
}

/// Reading back what [`le16`] wrote gives the number.
pub proof fn lemma_le16(x: int, s: Seq<u8>, at: int)
    requires
        0 <= x < 0x1_0000,
        0 <= at,
        at + 2 <= s.len(),
        s.subrange(at, at + 2) == le16(x),
    ensures
        u16_le(s, at) == x,
{
    assert(s[at] == s.subrange(at, at + 2)[0]);
    assert(s[at + 1] == s.subrange(at, at + 2)[1]);
}

/// Reading back what [`le32`] wrote gives the number.
pub proof fn lemma_le32(x: int, s: Seq<u8>, at: int)
    requires
        0 <= x < 0x1_0000_0000,
        0 <= at,
        at + 4 <= s.len(),
        s.subrange(at, at + 4) == le32(x),
    ensures
        u32_le(s, at) == x,
{
    assert(s[at] == s.subrange(at, at + 4)[0]);
    assert(s[at + 1] == s.subrange(at, at + 4)[1]);
    assert(s[at + 2] == s.subrange(at, at + 4)[2]);
    assert(s[at + 3] == s.subrange(at, at + 4)[3]);
}

/// Appends `x` as two little-endian bytes.
pub fn push_u16(v: &mut Vec<u8>, x: u16)
    ensures
        final(v)@ == old(v)@ + le16(x as int),
{
    v.push((x % 256) as u8);
    v.push((x / 256) as u8);
    proof {
        assert(final(v)@ =~= old(v)@ + le16(x as int));
    }
}

/// Appends `x` as four little-endian bytes.
pub fn push_u32(v: &mut Vec<u8>, x: u32)
    ensures
        final(v)@ == old(v)@ + le32(x as int),
{
    v.push((x % 256) as u8);
    v.push((x / 256 % 256) as u8);
    v.push((x / 65536 % 256) as u8);
    v.push((x / 16777216) as u8);
    proof {
        assert(final(v)@ =~= old(v)@ + le32(x as int));
    }
}

/// Appends the bytes of `b`.
pub fn push_bytes(v: &mut Vec<u8>, b: &[u8])
    ensures
        final(v)@ == old(v)@ + b@,
{
    let mut i: usize = 0;
    while i < b.len()
        invariant
            i <= b.len(),
            v@ == old(v)@ + b@.take(i as int),
        decreases b.len() - i,
    {
        v.push(b[i]);
        proof {
            assert(b@.take(i + 1) =~= b@.take(i as int).push(b@[i as int]));
        }
        i = i + 1;
    }
    proof {
        assert(b@.take(b.len() as int) =~= b@);
    }
}

/// Sample encoding as declared by the `fmt ` chunk.
#[derive(Copy, Clone, Debug, PartialEq, Eq, Structural)]
pub enum SampleFormat {
    /// Signed integer PCM, little-endian.
    Int,
    /// IEEE 754 floating point.
    Float,
}

/// The contents of the `fmt ` chunk, after resolving `WAVE_FORMAT_EXTENSIBLE`.
#[derive(Copy, Clone, Debug, PartialEq, Eq, Structural)]
pub struct Format {
    pub format: SampleFormat,
    pub channels: u16,
    pub sample_rate: u32,
    pub bits_per_sample: u16,
    /// Bytes per frame across all channels, as declared.
    pub block_align: u16,
}

/// The format tag a `fmt ` body declares: `WAVE_FORMAT_EXTENSIBLE` keeps the
/// real one in the first two bytes of the SubFormat GUID, 24 bytes in.
pub open spec fn declared_tag(b: Seq<u8>) -> int {
    if u16_le(b, 0) == FORMAT_EXTENSIBLE {
        u16_le(b, 24)
    } else {
        u16_le(b, 0)
    }
}

/// The bit depths each encoding can be read at: 16, 24 or 32-bit integers,
/// 32 or 64-bit floats.
pub open spec fn readable_depth(format: SampleFormat, bits: u16) -> bool {
    match format {
        SampleFormat::Int => bits == 16 || bits == 24 || bits == 32,
        SampleFormat::Float => bits == 32 || bits == 64,
    }
}

/// What a `fmt ` body declares, or why it cannot be read.
pub open spec fn format_of(b: Seq<u8>) -> Result<Format, Error> {
    if b.len() < 16 || (u16_le(b, 0) == FORMAT_EXTENSIBLE && b.len() < 26) {
        Err(Error::MalformedChunk("fmt "))
    } else {
        let tag = declared_tag(b);
        let channels = u16_le(b, 2) as u16;
        let sample_rate = u32_le(b, 4) as u32;
        let bits = u16_le(b, 14) as u16;
        if tag != FORMAT_PCM && tag != FORMAT_IEEE_FLOAT {
            Err(Error::UnsupportedFormat(tag as u16))
        } else {
            let format = if tag == FORMAT_PCM {
                SampleFormat::Int
            } else {
                SampleFormat::Float
            };
            if channels == 0 || sample_rate == 0 {
                Err(Error::MalformedChunk("fmt "))
            } else if !readable_depth(format, bits) {
                Err(Error::UnsupportedBitDepth(bits))
            } else {
                Ok(
                    Format {
                        format,
                        channels,
                        sample_rate,
                        bits_per_sample: bits,
                        block_align: u16_le(b, 12) as u16,
                    },
                )
            }
        }
    }
}

impl Format {
    /// Reads a `fmt ` chunk body.
    pub fn parse(body: &[u8]) -> (r: Result<Format, Error>)
        ensures
            r == format_of(body@),
    {
        if body.len() < 16 {
            return Err(Error::MalformedChunk("fmt "));
        }
        let mut tag = read_u16(body, 0);
        let channels = read_u16(body, 2);
        let sample_rate = read_u32(body, 4);
        let block_align = read_u16(body, 12);
        let bits_per_sample = read_u16(body, 14);
        if tag == FORMAT_EXTENSIBLE {
            if body.len() < 26 {
                return Err(Error::MalformedChunk("fmt "));
            }
            tag = read_u16(body, 24);
        }
        let format = if tag == FORMAT_PCM {
            SampleFormat::Int
        } else if tag == FORMAT_IEEE_FLOAT {
            SampleFormat::Float
        } else {
            return Err(Error::UnsupportedFormat(tag));
        };
        if channels == 0 {
            return Err(Error::MalformedChunk("fmt "));
        }
        if sample_rate == 0 {
            return Err(Error::MalformedChunk("fmt "));
        }
        let readable = match format {
            SampleFormat::Int => bits_per_sample == 16 || bits_per_sample == 24 || bits_per_sample
                == 32,
            SampleFormat::Float => bits_per_sample == 32 || bits_per_sample == 64,
        };
        if !readable {
            return Err(Error::UnsupportedBitDepth(bits_per_sample));
        }
        Ok(Format { format, channels, sample_rate, bits_per_sample, block_align })
    }

    /// Bytes per sample: the bit depth over eight.
    pub fn bytes_per_sample(&self) -> (r: usize)
        ensures
            r == self.bits_per_sample / 8,
    {
        self.bits_per_sample as usize / 8
    }

    /// Bytes per frame, computed from bit depth and channel count rather than
    /// taken from `block_align` — encoders get that field wrong often enough
    /// that trusting it would misalign the whole stream.
    pub fn frame_size(&self) -> (r: usize)
        ensures
            r == (self.bits_per_sample / 8) * self.channels,
    {
        proof {
            assert((self.bits_per_sample / 8) * self.channels <= 8192 * 65535) by (nonlinear_arith)
                requires
                    self.bits_per_sample / 8 <= 8192,
                    self.channels <= 65535,
            ;
        }
        self.bytes_per_sample() * self.channels as usize
    }

    /// Whether `block_align` agrees with the computed frame size. A mismatch
    /// is worth reporting, but is not fatal.
    pub fn block_align_is_consistent(&self) -> (r: bool)
        ensures
            r == (self.block_align == (self.bits_per_sample / 8) * self.channels),
    {
        self.block_align as usize == self.frame_size()
    }
}

/// The `acid` chunk — how ACIDized loops declare tempo and length.
///
/// The most reliable tempo source a file can carry: it beats parsing the
/// filename. The tempo is held as the bits of the IEEE 754 single it is
/// stored as.
#[derive(Copy, Clone, Debug, PartialEq, Eq, Structural)]
pub struct AcidChunk {
    pub flags: u32,
    pub root_note: u16,
    pub beats: u32,
    pub meter_denominator: u16,
    pub meter_numerator: u16,
    /// The tempo's `f32` bit pattern, as it sits in the chunk.
    pub tempo_bits: u32,
}

/// The flag bit of a one-shot, which has no tempo to speak of.
pub const ACID_ONE_SHOT: u32 = 0x01;

/// The flag bit saying the root note is set.
pub const ACID_ROOT_NOTE_SET: u32 = 0x02;

/// The flag bit saying the loop may be stretched to tempo.
pub const ACID_STRETCH: u32 = 0x04;

/// The flag bit saying the loop plays from disk.
pub const ACID_DISK_BASED: u32 = 0x08;

/// What an `acid` body declares: bytes 6 to 12 are two fields no
/// documentation agrees on, and are not read.
pub open spec fn acid_of(b: Seq<u8>) -> Option<AcidChunk> {
    if b.len() < 24 {
        None
    } else {
        Some(
            AcidChunk {
                flags: u32_le(b, 0) as u32,
                root_note: u16_le(b, 4) as u16,
                beats: u32_le(b, 12) as u32,
                meter_denominator: u16_le(b, 16) as u16,
                meter_numerator: u16_le(b, 18) as u16,
                tempo_bits: u32_le(b, 20) as u32,
            },
        )
    }
}

/// The 24 bytes an `acid` chunk is written as; the two undocumented fields
/// are zero.
pub open spec fn acid_body(a: AcidChunk) -> Seq<u8> {
    le32(a.flags as int) + le16(a.root_note as int) + seq![0u8, 0u8, 0u8, 0u8, 0u8, 0u8] + le32(
        a.beats as int,
    ) + le16(a.meter_denominator as int) + le16(a.meter_numerator as int) + le32(
        a.tempo_bits as int,
    )
}

/// The `acid` chunk of a finished loop: not a one-shot, root note middle C,
/// with its beat count, meter and tempo (as the `f32` bit pattern the chunk
/// stores).
pub open spec fn acid_for_loop(tempo_bits: u32, beats: u32, numerator: u16, denominator: u16) -> AcidChunk {
    AcidChunk {
        flags: 0,
        root_note: 60,
        beats,
        meter_denominator: denominator,
        meter_numerator: numerator,
        tempo_bits,
    }
}

impl AcidChunk {
    /// The `acid` chunk a finished loop carries.
    pub fn for_loop(tempo_bits: u32, beats: u32, numerator: u16, denominator: u16) -> (r: AcidChunk)
        ensures
            r == acid_for_loop(tempo_bits, beats, numerator, denominator),
    {
        AcidChunk {
            flags: 0,
            root_note: 60,
            beats,
            meter_denominator: denominator,
            meter_numerator: numerator,
            tempo_bits,
        }
    }

    /// Reads an `acid` chunk body; too short a body is no chunk.
    pub fn parse(body: &[u8]) -> (r: Option<AcidChunk>)
        ensures
            r == acid_of(body@),
    {
        if body.len() < 24 {
            return None;
        }
        Some(
            AcidChunk {
                flags: read_u32(body, 0),
                root_note: read_u16(body, 4),
                beats: read_u32(body, 12),
                meter_denominator: read_u16(body, 16),
                meter_numerator: read_u16(body, 18),
                tempo_bits: read_u32(body, 20),
            },
        )
    }

    /// Whether the one-shot flag is set.
    pub fn is_one_shot(&self) -> (r: bool)
        ensures
            r == (self.flags % 2 == 1),
    {
        let f = self.flags;
        assert(f & 1 != 0 <==> f % 2 == 1) by (bit_vector);
        f & ACID_ONE_SHOT != 0
    }

    /// The chunk body, as [`AcidChunk::parse`] reads it back.
    pub fn to_body(&self) -> (r: Vec<u8>)
        ensures
            r@ == acid_body(*self),
    {
        let mut v: Vec<u8> = Vec::new();
        push_u32(&mut v, self.flags);
        push_u16(&mut v, self.root_note);
        let mut k: usize = 0;
        while k < 6
            invariant
                k <= 6,
                v@ == le32(self.flags as int) + le16(self.root_note as int) + Seq::new(
                    k as nat,
                    |i: int| 0u8,
                ),
            decreases 6 - k,
        {
            v.push(0);
            proof {
                assert(Seq::new((k + 1) as nat, |i: int| 0u8) =~= Seq::new(k as nat, |i: int| 0u8).push(
                    0u8,
                ));
            }
            k = k + 1;
        }
        proof {
            assert(Seq::new(6, |i: int| 0u8) =~= seq![0u8, 0u8, 0u8, 0u8, 0u8, 0u8]);
        }
        push_u32(&mut v, self.beats);
        push_u16(&mut v, self.meter_denominator);
        push_u16(&mut v, self.meter_numerator);
        push_u32(&mut v, self.tempo_bits);
        v
    }
}

/// Writing an `acid` chunk and reading it back gives the same chunk.
pub proof fn law_acid_round_trip(a: AcidChunk)
    ensures
        acid_of(acid_body(a)) == Some(a),
{
    let b = acid_body(a);
    assert(b.len() == 24);
    assert(b.subrange(0, 4) =~= le32(a.flags as int));
    lemma_le32(a.flags as int, b, 0);
    assert(b.subrange(4, 6) =~= le16(a.root_note as int));
    lemma_le16(a.root_note as int, b, 4);
    assert(b.subrange(12, 16) =~= le32(a.beats as int));
    lemma_le32(a.beats as int, b, 12);
    assert(b.subrange(16, 18) =~= le16(a.meter_denominator as int));
    lemma_le16(a.meter_denominator as int, b, 16);
    assert(b.subrange(18, 20) =~= le16(a.meter_numerator as int));
    lemma_le16(a.meter_numerator as int, b, 18);
    assert(b.subrange(20, 24) =~= le32(a.tempo_bits as int));
    lemma_le32(a.tempo_bits as int, b, 20);
    assert(b.subrange(0, 4) =~= le32(a.flags as int));
}

/// One loop region from the `smpl` chunk.
#[derive(Copy, Clone, Debug, PartialEq, Eq, Structural)]
pub struct SampleLoop {
    pub start: u32,
    /// Inclusive last frame, per the RIFF layout — not a half-open end.
    pub end: u32,
    pub play_count: u32,
}

/// The `smpl` chunk — loop points and tuning.
#[derive(Clone, Debug, PartialEq, Eq)]
pub struct SmplChunk {
    pub midi_unity_note: u32,
    pub midi_pitch_fraction: u32,
    pub loops: Vec<SampleLoop>,
}

/// The loop record `i` of a `smpl` body: 24 bytes each, after a 36-byte
/// header.
pub open spec fn smpl_loop_at(b: Seq<u8>, i: int) -> SampleLoop {
    let at = 36 + 24 * i;
    SampleLoop {
        start: u32_le(b, at + 8) as u32,
        end: u32_le(b, at + 12) as u32,
        play_count: u32_le(b, at + 20) as u32,
    }
}

/// How many loop records a `smpl` body yields: as many as it declares, or as
/// many whole records as it holds if that is fewer — a truncated loop table
/// keeps what parsed.
pub open spec fn smpl_loop_count(b: Seq<u8>) -> int {
    let declared = u32_le(b, 28);
    let whole = (b.len() - 36) / 24;
    if declared <= whole {
        declared
    } else {
        whole
    }
}

/// What a `smpl` body of at least 36 bytes reads as: its tuning, and its loop
/// records in order.
pub open spec fn smpl_reads(c: SmplChunk, b: Seq<u8>) -> bool {
    &&& c.midi_unity_note == u32_le(b, 12)
    &&& c.midi_pitch_fraction == u32_le(b, 16)
    &&& c.loops@.len() == smpl_loop_count(b)
    &&& forall|i: int| 0 <= i < c.loops@.len() ==> #[trigger] c.loops@[i] == smpl_loop_at(b, i)
}

/// The bytes a `smpl` chunk is written as at `sample_rate`: the header
/// (manufacturer and product zero, the sample period in nanoseconds, the
/// tuning, no SMPTE offset, the loop count, no sampler data), then one 24-byte
/// record per loop (its index as cue id, forward type, start, end, no
/// fraction, play count).
pub open spec fn smpl_body(c: SmplChunk, sample_rate: u32) -> Seq<u8> {
    le32(0) + le32(0) + le32(1_000_000_000int / sample_rate as int) + le32(
        c.midi_unity_note as int,
    ) + le32(c.midi_pitch_fraction as int) + le32(0) + le32(0) + le32(c.loops@.len() as int)
        + le32(0) + smpl_records(c.loops@, 0)
}

/// The loop records of `loops` from index `i` on.
pub open spec fn smpl_records(loops: Seq<SampleLoop>, i: int) -> Seq<u8>
    decreases loops.len() - i,
{
    if i < 0 || i >= loops.len() {
        seq![]
    } else {
        smpl_record(loops[i], i) + smpl_records(loops, i + 1)
    }
}

/// One 24-byte loop record: cue id `i`, forward type, start, end, no
/// fraction, play count.
pub open spec fn smpl_record(l: SampleLoop, i: int) -> Seq<u8> {
    le32(i) + le32(0) + le32(l.start as int) + le32(l.end as int) + le32(0) + le32(
        l.play_count as int,
    )
}

/// The `k`-th 24-byte record of `s`.
pub open spec fn record_slice(s: Seq<u8>, k: int) -> Seq<u8> {
    s.subrange(24 * k, 24 * k + 24)
}

/// The records from `i` on are 24 bytes each, in order.
pub proof fn lemma_records(loops: Seq<SampleLoop>, i: int)
    requires
        0 <= i <= loops.len(),
    ensures
        smpl_records(loops, i).len() == 24 * (loops.len() - i),
        forall|j: int|
            i <= j < loops.len() ==> #[trigger] record_slice(smpl_records(loops, i), j - i)
                == smpl_record(loops[j], j),
    decreases loops.len() - i,
{
    if i < loops.len() {
        lemma_records(loops, i + 1);
        let head = smpl_record(loops[i], i);
        let tail = smpl_records(loops, i + 1);
        let all = smpl_records(loops, i);
        assert(all == head + tail);
        assert(head.len() == 24);
        assert forall|j: int| i <= j < loops.len() implies #[trigger] record_slice(all, j - i)
            == smpl_record(loops[j], j) by {
            if j == i {
                assert(record_slice(all, 0) =~= head);
            } else {
                assert(record_slice(tail, j - (i + 1)) == smpl_record(loops[j], j));
                assert(record_slice(all, j - i) =~= record_slice(tail, j - (i + 1)));
            }
        }
    }
}

/// Frames a loop covers against a file of `total` frames.
pub open spec fn loop_frames(l: SampleLoop, total: int) -> int {
    if l.end < l.start {
        0
    } else if l.end >= total {
        l.end - l.start
    } else {
        l.end - l.start + 1
    }
}

impl SampleLoop {
    /// Frames the loop covers, reading its end point inclusively, as the
    /// layout has it, but tolerating writers that meant it exclusively: an end
    /// at or past the file's last frame counts as exclusive.
    pub fn frame_count(self, total: u32) -> (r: u32)
        ensures
            r == loop_frames(self, total as int),
    {
        if self.end < self.start {
            0
        } else if self.end >= total {
            self.end - self.start
        } else {
            self.end - self.start + 1
        }
    }
}

impl SmplChunk {
    /// The `smpl` chunk of a finished loop: unity note middle C, untuned, and
    /// one loop over all `frames` frames, played forever. A file of no frames
    /// has no loop to mark.
    pub fn whole_file(frames: u32) -> (r: SmplChunk)
        ensures
            r.midi_unity_note == 60,
            r.midi_pitch_fraction == 0,
            frames == 0 ==> r.loops@.len() == 0,
            frames > 0 ==> r.loops@ == seq![SampleLoop { start: 0, end: (frames - 1) as u32, play_count: 0 }],
    {
        let mut loops: Vec<SampleLoop> = Vec::new();
        if frames > 0 {
            loops.push(SampleLoop { start: 0, end: frames - 1, play_count: 0 });
        }
        SmplChunk { midi_unity_note: 60, midi_pitch_fraction: 0, loops }
    }
}

impl SmplChunk {
    /// Reads a `smpl` chunk body; a body shorter than its header is no chunk.
    pub fn parse(body: &[u8]) -> (r: Option<SmplChunk>)
        requires
            body@.len() <= usize::MAX - 64,
        ensures
            body@.len() < 36 ==> r is None,
            body@.len() >= 36 ==> (r matches Some(c) && smpl_reads(c, body@)),
    {
        if body.len() < 36 {
            return None;
        }
        let midi_unity_note = read_u32(body, 12);
        let midi_pitch_fraction = read_u32(body, 16);
        let loop_count = read_u32(body, 28) as usize;
        let mut loops: Vec<SampleLoop> = Vec::new();
        let mut i: usize = 0;
        while i < loop_count
            invariant
                36 <= body@.len() <= usize::MAX - 64,
                loop_count == u32_le(body@, 28),
                i <= loop_count,
                i <= smpl_loop_count(body@),
                loops@.len() == i,
                36 + 24 * i <= body@.len(),
                forall|q: int| 0 <= q < i ==> #[trigger] loops@[q] == smpl_loop_at(body@, q),
            ensures
                loops@.len() == smpl_loop_count(body@),
                forall|q: int|
                    0 <= q < loops@.len() ==> #[trigger] loops@[q] == smpl_loop_at(body@, q),
            decreases loop_count - i,
        {
            let at = 36 + i * 24;
            if at + 24 > body.len() {
                // A truncated loop table: keep what parsed.
                break;
            }
            loops.push(
                SampleLoop {
                    start: read_u32(body, at + 8),
                    end: read_u32(body, at + 12),
                    play_count: read_u32(body, at + 20),
                },
            );
            i = i + 1;
        }
        Some(SmplChunk { midi_unity_note, midi_pitch_fraction, loops })
    }
}

impl SmplChunk {
    /// The chunk body at `sample_rate`, as [`SmplChunk::parse`] reads it back.
    pub fn to_body(&self, sample_rate: u32) -> (r: Vec<u8>)
        requires
            sample_rate > 0,
            self.loops@.len() <= u32::MAX,
        ensures
            r@ == smpl_body(*self, sample_rate),
    {
        let mut v: Vec<u8> = Vec::new();
        push_u32(&mut v, 0);
        push_u32(&mut v, 0);
        push_u32(&mut v, 1_000_000_000 / sample_rate);
        push_u32(&mut v, self.midi_unity_note);
        push_u32(&mut v, self.midi_pitch_fraction);
        push_u32(&mut v, 0);
        push_u32(&mut v, 0);
        push_u32(&mut v, self.loops.len() as u32);
        push_u32(&mut v, 0);
        let ghost header = v@;
        let mut i: usize = 0;
        while i < self.loops.len()
            invariant
                i <= self.loops@.len() <= u32::MAX,
                v@ + smpl_records(self.loops@, i as int) == header + smpl_records(self.loops@, 0),
            decreases self.loops@.len() - i,
        {
            let l = self.loops[i];
            let ghost before = v@;
            push_u32(&mut v, i as u32);
            push_u32(&mut v, 0);
            push_u32(&mut v, l.start);
            push_u32(&mut v, l.end);
            push_u32(&mut v, 0);
            push_u32(&mut v, l.play_count);
            proof {
                assert(v@ =~= before + smpl_record(l, i as int));
                assert(smpl_records(self.loops@, i as int) == smpl_record(l, i as int)
                    + smpl_records(self.loops@, i + 1));
                assert(v@ + smpl_records(self.loops@, i + 1) =~= before + smpl_records(
                    self.loops@,
                    i as int,
                ));
            }
            i = i + 1;
        }
        proof {
            assert(smpl_records(self.loops@, i as int) =~= Seq::<u8>::empty());
            assert(v@ =~= v@ + smpl_records(self.loops@, i as int));
            assert(v@ =~= smpl_body(*self, sample_rate));
        }
        v
    }
}

/// Writing a `smpl` chunk and reading it back gives the same tuning and the
/// same loops, in order.
pub proof fn law_smpl_round_trip(c: SmplChunk, sample_rate: u32)
    requires
        sample_rate > 0,
        c.loops@.len() <= u32::MAX,
    ensures
        smpl_body(c, sample_rate).len() >= 36,
        u32_le(smpl_body(c, sample_rate), 12) == c.midi_unity_note,
        u32_le(smpl_body(c, sample_rate), 16) == c.midi_pitch_fraction,
        smpl_loop_count(smpl_body(c, sample_rate)) == c.loops@.len(),
        forall|i: int|
            0 <= i < c.loops@.len() ==> #[trigger] smpl_loop_at(smpl_body(c, sample_rate), i)
                == c.loops@[i],
{
    let loops = c.loops@;
    let n = loops.len();
    let b = smpl_body(c, sample_rate);
    let records = smpl_records(loops, 0);
    lemma_records(loops, 0);
    let header = b.subrange(0, 36);
    assert(b =~= header + records);
    assert(b.len() == 36 + 24 * n);
    assert(b.subrange(12, 16) =~= le32(c.midi_unity_note as int));
    lemma_le32(c.midi_unity_note as int, b, 12);
    assert(b.subrange(16, 20) =~= le32(c.midi_pitch_fraction as int));
    lemma_le32(c.midi_pitch_fraction as int, b, 16);
    assert(b.subrange(28, 32) =~= le32(n as int));
    lemma_le32(n as int, b, 28);
    assert((b.len() - 36) / 24 == n);
    assert forall|i: int| 0 <= i < n implies #[trigger] smpl_loop_at(b, i) == loops[i] by {
        let at = 36 + 24 * i;
        let rec = smpl_record(loops[i], i);
        assert(record_slice(records, i - 0) == rec);
        assert(b.subrange(at, at + 24) =~= rec);
        assert(rec.subrange(8, 12) =~= le32(loops[i].start as int));
        assert(rec.subrange(12, 16) =~= le32(loops[i].end as int));
        assert(rec.subrange(20, 24) =~= le32(loops[i].play_count as int));
        assert(b.subrange(at + 8, at + 12) =~= le32(loops[i].start as int));
        lemma_le32(loops[i].start as int, b, at + 8);
        assert(b.subrange(at + 12, at + 16) =~= le32(loops[i].end as int));
        lemma_le32(loops[i].end as int, b, at + 12);
        assert(b.subrange(at + 20, at + 24) =~= le32(loops[i].play_count as int));
        lemma_le32(loops[i].play_count as int, b, at + 20);
    }
}

/// What `String::from_utf8_lossy` decodes `bytes` to: the text, with each
/// invalid sequence replaced by U+FFFD.
pub uninterp spec fn utf8_lossy(bytes: Seq<u8>) -> Seq<char>;

/// Decodes bytes as UTF-8, replacing what is not.
///
/// Calls `String::from_utf8_lossy`. The contract names its result, and says
/// what its documentation does: valid UTF-8 comes back as the text it
/// encodes. How invalid sequences are replaced is left unsaid.
#[verifier::external_body]
fn decode_lossy(bytes: &[u8]) -> (s: String)
    ensures
        s@ == utf8_lossy(bytes@),
        vstd::utf8::valid_utf8(bytes@) ==> s@ == vstd::utf8::decode_utf8(bytes@),
{
    String::from_utf8_lossy(bytes).into_owned()
}

/// Trailing NUL characters removed.
pub open spec fn trim_end_nul(s: Seq<char>) -> Seq<char>
    decreases s.len(),
{
    if s.len() > 0 && s.last() == '\0' {
        trim_end_nul(s.drop_last())
    } else {
        s
    }
}

/// The text an `INFO` entry holds, once decoded: trailing NULs and
/// surrounding whitespace removed.
pub open spec fn info_text(body: Seq<u8>) -> Seq<char> {
    trim(trim_end_nul(utf8_lossy(body)))
}

/// The entries of an `INFO` list's sub-chunks, empty texts left out.
pub open spec fn info_entries(chunks: Seq<(Seq<u8>, Seq<u8>)>) -> Seq<(Seq<u8>, Seq<char>)>
    decreases chunks.len(),
{
    if chunks.len() == 0 {
        seq![]
    } else {
        let t = info_text(chunks[0].1);
        let rest = info_entries(chunks.drop_first());
        if t.len() > 0 {
            seq![(chunks[0].0, t)] + rest
        } else {
            rest
        }
    }
}

/// The `(id, text)` pairs a `LIST` body holds, when it is an `INFO` list.
pub open spec fn info_list_of(body: Seq<u8>) -> Seq<(Seq<u8>, Seq<char>)> {
    if body.len() < 4 || body.subrange(0, 4) != INFO@ {
        seq![]
    } else {
        info_entries(chunks_of(body.skip(4)))
    }
}

/// An `INFO` pair as a model.
pub open spec fn info_model(e: (ChunkId, String)) -> (Seq<u8>, Seq<char>) {
    (e.0@, e.1@)
}

/// Decoded `INFO` text tidied: trailing NULs, then surrounding whitespace,
/// removed.
pub fn tidy_info_text(decoded: &str) -> (r: String)
    ensures
        r@ == trim(trim_end_nul(decoded@)),
{
    let v = chars_of(decoded);
    let mut end = v.len();
    proof {
        assert(v@.subrange(0, v.len() as int) =~= v@);
    }
    while end > 0 && v[end - 1] == '\0'
        invariant
            end <= v.len(),
            v@ == decoded@,
            trim_end_nul(v@.subrange(0, end as int)) == trim_end_nul(v@),
        decreases end,
    {
        proof {
            assert(v@.subrange(0, end as int).drop_last() =~= v@.subrange(0, end - 1));
        }
        end = end - 1;
    }
    proof {
        assert(trim_end_nul(v@.subrange(0, end as int)) == v@.subrange(0, end as int));
    }
    let (a, b) = trim_range(&v, 0, end);
    string_of(&v, a, b)
}

/// Reads `LIST`/`INFO` sub-chunks into `(id, text)` pairs, in order, leaving
/// out the ones with no text. A `LIST` that is not an `INFO` list yields
/// nothing.
pub fn parse_info_list(body: &[u8]) -> (r: Vec<(ChunkId, String)>)
    ensures
        r@.map_values(|e: (ChunkId, String)| info_model(e)) == info_list_of(body@),
{
    let mut out: Vec<(ChunkId, String)> = Vec::new();
    if body.len() < 4 || !same_id(read_id(body, 0), INFO) {
        proof {
            assert(out@.map_values(|e: (ChunkId, String)| info_model(e)) =~= Seq::<
                (Seq<u8>, Seq<char>),
            >::empty());
        }
        return out;
    }
    let rest = &body[4..body.len()];
    proof {
        assert(rest@ =~= body@.skip(4));
    }
    let mut walker = Chunks { rest };
    loop
        invariant
            out@.map_values(|e: (ChunkId, String)| info_model(e)) + info_entries(
                chunks_of(walker.remaining()),
            ) == info_entries(chunks_of(body@.skip(4))),
            body@.len() >= 4,
            body@.subrange(0, 4) == INFO@,
        decreases walker.remaining().len(),
    {
        let ghost before = walker.remaining();
        let ghost ob = out@;
        match walker.next_chunk() {
            None => {
                proof {
                    assert(chunks_of(before) =~= Seq::<(Seq<u8>, Seq<u8>)>::empty());
                    assert(info_entries(chunks_of(before)) =~= Seq::<
                        (Seq<u8>, Seq<char>),
                    >::empty());
                    assert(out@.map_values(|e: (ChunkId, String)| info_model(e)) =~= out@.map_values(
                        |e: (ChunkId, String)| info_model(e),
                    ) + info_entries(chunks_of(before)));
                }
                return out;
            },
            Some(c) => {
                let text = tidy_info_text(decode_lossy(c.body).as_str());
                let ghost cs = chunks_of(before);
                proof {
                    assert(cs == seq![first_chunk(before)] + chunks_of(walker.remaining()));
                    assert(cs[0] == chunk_model(c));
                    assert(cs.drop_first() =~= chunks_of(walker.remaining()));
                }
                if !text.as_str().is_empty() {
                    out.push((c.id, text));
                    proof {
                        assert(out@.map_values(|e: (ChunkId, String)| info_model(e)) =~= ob.map_values(
                            |e: (ChunkId, String)| info_model(e),
                        ).push((c.id@, text@)));
                        assert(info_entries(cs) == seq![(c.id@, text@)] + info_entries(
                            chunks_of(walker.remaining()),
                        ));
                        assert(out@.map_values(|e: (ChunkId, String)| info_model(e))
                            + info_entries(chunks_of(walker.remaining())) =~= ob.map_values(
                            |e: (ChunkId, String)| info_model(e),
                        ) + info_entries(cs));
                    }
                } else {
                    proof {
                        assert(info_entries(cs) == info_entries(chunks_of(walker.remaining())));
                    }
                }
            },
        }
    }
}

} // verus!
