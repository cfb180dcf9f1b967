//! Parsing a WAVE file: headers and tags resolved, samples left encoded.
//!
//! The library takes bytes, never a path, so the same code serves any front
//! end that can hand it the contents of a file.

use crate::error::Error;
use crate::naming::first_where;
use super::chunks::{
    acid_of, chunk_model, chunks_of, format_of, info_list_of, info_model, parse_info_list,
    readable_depth, same_id, smpl_reads, AcidChunk, Chunk, ChunkId, Chunks, Format, SmplChunk,
    ACID, DATA, FMT, LIST, SMPL,
};
use vstd::prelude::*;

verus! {

/// Everything a source file declares about itself, without its samples.
#[derive(Clone, Debug, PartialEq)]
pub struct Tags {
    pub acid: Option<AcidChunk>,
    pub smpl: Option<SmplChunk>,
    pub info: Vec<(ChunkId, String)>,
}

/// A chunk with identifier `id`.
pub open spec fn is_chunk(id: ChunkId) -> spec_fn((Seq<u8>, Seq<u8>)) -> bool {
    |c: (Seq<u8>, Seq<u8>)| c.0 == id@
}

/// An `acid` chunk long enough to read.
pub open spec fn is_readable_acid() -> spec_fn((Seq<u8>, Seq<u8>)) -> bool {
    |c: (Seq<u8>, Seq<u8>)| c.0 == ACID@ && c.1.len() >= 24
}

/// A `smpl` chunk long enough to read.
pub open spec fn is_readable_smpl() -> spec_fn((Seq<u8>, Seq<u8>)) -> bool {
    |c: (Seq<u8>, Seq<u8>)| c.0 == SMPL@ && c.1.len() >= 36
}

/// The `INFO` pairs of every `LIST` chunk among `cs`, in order.
pub open spec fn all_info(cs: Seq<(Seq<u8>, Seq<u8>)>) -> Seq<(Seq<u8>, Seq<char>)>
    decreases cs.len(),
{
    if cs.len() == 0 {
        seq![]
    } else {
        (if cs[0].0 == LIST@ {
            info_list_of(cs[0].1)
        } else {
            seq![]
        }) + all_info(cs.drop_first())
    }
}

/// The tags `cs` declares: the first readable `acid` and `smpl` chunks, and
/// the text of every `INFO` list.
pub open spec fn tags_read(t: Tags, cs: Seq<(Seq<u8>, Seq<u8>)>) -> bool {
    &&& t.acid == (match first_where(cs, is_readable_acid()) {
        Some(j) => acid_of(cs[j].1),
        None => None,
    })
    &&& (match first_where(cs, is_readable_smpl()) {
        Some(j) => t.smpl matches Some(c) && smpl_reads(c, cs[j].1),
        None => t.smpl is None,
    })
    &&& t.info@.map_values(|e: (ChunkId, String)| info_model(e)) == all_info(cs)
}

/// The RIFF/WAVE envelope is whole.
pub open spec fn is_wave(bytes: Seq<u8>) -> bool {
    bytes.len() >= 12 && bytes.subrange(0, 4) == super::chunks::RIFF@ && bytes.subrange(8, 12)
        == super::chunks::WAVE@
}

/// A parsed WAVE file: headers and tags resolved, samples still encoded.
#[derive(Debug)]
pub struct Wav<'a> {
    format: Format,
    data: &'a [u8],
    tags: Tags,
}

impl<'a> Clone for Wav<'a> {
    fn clone(&self) -> (r: Wav<'a>)
        ensures
            r.format_model() == self.format_model(),
            r.data_model() == self.data_model(),
    {
        proof {
            use_type_invariant(self);
        }
        Wav { format: self.format, data: self.data, tags: self.tags.clone() }
    }
}

impl<'a> Wav<'a> {
    /// Only formats that can be read are ever held.
    #[verifier::type_invariant]
    pub closed spec fn inv(self) -> bool {
        self.format.channels > 0 && readable_depth(self.format.format, self.format.bits_per_sample)
    }

    /// The `fmt ` chunk, resolved.
    pub closed spec fn format_model(self) -> Format {
        self.format
    }

    /// The body of the `data` chunk.
    pub closed spec fn data_model(self) -> Seq<u8> {
        self.data@
    }

    /// The tags.
    pub closed spec fn tags_model(self) -> Tags {
        self.tags
    }

    /// Parses a WAVE file.
    ///
    /// The first `fmt ` chunk decides the format, and a format that cannot be
    /// read is refused as soon as it is met; the first `data` chunk holds the
    /// samples. A file without either is refused, `fmt ` first.
    pub fn parse(bytes: &'a [u8]) -> (r: Result<Wav<'a>, Error>)
        requires
            bytes@.len() <= usize::MAX - 64,
        ensures
            bytes@.len() < 12 ==> r == Err::<Wav<'a>, Error>(Error::NotRiff),
            bytes@.len() >= 12 && bytes@.subrange(0, 4) != super::chunks::RIFF@ ==> r == Err::<
                Wav<'a>,
                Error,
            >(Error::NotRiff),
            bytes@.len() >= 12 && bytes@.subrange(0, 4) == super::chunks::RIFF@ && bytes@.subrange(
                8,
                12,
            ) != super::chunks::WAVE@ ==> r == Err::<Wav<'a>, Error>(Error::NotWave),
            is_wave(bytes@) ==> wav_read(r, chunks_of(bytes@.skip(12))),
    {
        let mut walker = match Chunks::parse(bytes) {
            Ok(w) => w,
            Err(e) => {
                return Err(e);
            },
        };
        let ghost cs = chunks_of(bytes@.skip(12));
        let ghost mut done: Seq<(Seq<u8>, Seq<u8>)> = seq![];
        let mut format: Option<Format> = None;
        let mut data: Option<&'a [u8]> = None;
        let mut acid: Option<AcidChunk> = None;
        let mut smpl: Option<SmplChunk> = None;
        let mut info: Vec<(ChunkId, String)> = Vec::new();
        proof {
            assert(done + chunks_of(walker.remaining()) =~= cs);
            assert(info@.map_values(|e: (ChunkId, String)| info_model(e)) =~= all_info(done));
        }
        loop
            invariant
                bytes@.len() <= usize::MAX - 64,
                walker.remaining().len() <= bytes@.len(),
                is_wave(bytes@),
                cs == chunks_of(bytes@.skip(12)),
                done + chunks_of(walker.remaining()) == cs,
                match first_where(done, is_chunk(FMT)) {
                    None => format is None,
                    Some(j) => format matches Some(f) && format_of(done[j].1) == Ok::<Format, Error>(f),
                },
                match first_where(done, is_chunk(DATA)) {
                    None => data is None,
                    Some(j) => data matches Some(d) && d@ == done[j].1,
                },
                acid == (match first_where(done, is_readable_acid()) {
                    Some(j) => acid_of(done[j].1),
                    None => None,
                }),
                match first_where(done, is_readable_smpl()) {
                    Some(j) => smpl matches Some(c) && smpl_reads(c, done[j].1),
                    None => smpl is None,
                },
                info@.map_values(|e: (ChunkId, String)| info_model(e)) == all_info(done),
            ensures
                done == cs,
            decreases walker.remaining().len(),
        {
            let ghost before = walker.remaining();
            let ghost ib = info@;
            match walker.next_chunk() {
                None => {
                    proof {
                        assert(chunks_of(before) =~= Seq::<(Seq<u8>, Seq<u8>)>::empty());
                        assert(done =~= cs);
                    }
                    break;
                },
                Some(chunk) => {
                    let ghost c = chunk_model(chunk);
                    proof {
                        assert(c.0 == chunk.id@);
                        assert(is_chunk(FMT)(c) == (c.0 == FMT@));
                        assert(is_chunk(DATA)(c) == (c.0 == DATA@));
                        assert(is_readable_acid()(c) == (c.0 == ACID@ && c.1.len() >= 24));
                        assert(is_readable_smpl()(c) == (c.0 == SMPL@ && c.1.len() >= 36));
                        assert(forall|j: int| 0 <= j < done.len() ==> #[trigger] done.push(c)[j] == done[j]);
                        assert(done.push(c)[done.len() as int] == c);
                        assert(chunks_of(before) == seq![c] + chunks_of(walker.remaining()));
                        crate::naming::lemma_first_where_found(done.push(c), is_chunk(FMT));
                        crate::naming::lemma_first_where_found(done.push(c), is_chunk(DATA));
                        crate::naming::lemma_first_where_found(done, is_chunk(FMT));
                        crate::naming::lemma_first_where_found(done, is_chunk(DATA));
                        crate::naming::lemma_first_where_found(done.push(c), is_readable_acid());
                        crate::naming::lemma_first_where_found(done.push(c), is_readable_smpl());
                        crate::naming::lemma_first_where_found(done, is_readable_acid());
                        crate::naming::lemma_first_where_found(done, is_readable_smpl());
                        assert((done.push(c)) + chunks_of(walker.remaining()) =~= done + chunks_of(
                            before,
                        ));
                        lemma_first_where_push(done, c, is_chunk(FMT));
                        lemma_first_where_push(done, c, is_chunk(DATA));
                        lemma_first_where_push(done, c, is_readable_acid());
                        lemma_first_where_push(done, c, is_readable_smpl());
                        lemma_all_info_push(done, c);
                    }
                    if same_id(chunk.id, FMT) {
                        if format.is_none() {
                            match Format::parse(chunk.body) {
                                Ok(f) => {
                                    format = Some(f);
                                },
                                Err(e) => {
                                    proof {
                                        assert(first_where(done.push(c), is_chunk(FMT)) == Some(
                                            done.len() as int,
                                        ));
                                        lemma_first_where_prefix(done.push(c), chunks_of(walker.remaining()), is_chunk(FMT));
                                    }
                                    return Err(e);
                                },
                            }
                        }
                    } else if same_id(chunk.id, DATA) {
                        if data.is_none() {
                            data = Some(chunk.body);
                        }
                    } else if same_id(chunk.id, ACID) {
                        if acid.is_none() {
                            acid = AcidChunk::parse(chunk.body);
                        }
                    } else if same_id(chunk.id, SMPL) {
                        if smpl.is_none() {
                            smpl = SmplChunk::parse(chunk.body);
                        }
                    } else if same_id(chunk.id, LIST) {
                        let mut more = parse_info_list(chunk.body);
                        let ghost mb = more@;
                        info.append(&mut more);
                        proof {
                            assert(info@.map_values(|e: (ChunkId, String)| info_model(e)) =~= ib.map_values(
                                |e: (ChunkId, String)| info_model(e),
                            ) + mb.map_values(|e: (ChunkId, String)| info_model(e)));
                        }
                    }
                    proof {
                        done = done.push(c);
                    }
                },
            }
        }
        let format = match format {
            Some(f) => f,
            None => {
                return Err(Error::MissingChunk("fmt "));
            },
        };
        let data = match data {
            Some(d) => d,
            None => {
                return Err(Error::MissingChunk("data"));
            },
        };
        Ok(Wav { format, data, tags: Tags { acid, smpl, info } })
    }

    /// The format, resolved.
    pub fn format(&self) -> (r: Format)
        ensures
            r == self.format_model(),
    {
        self.format
    }

    /// The tags the file declares.
    pub fn tags(&self) -> (r: &Tags)
        ensures
            *r == self.tags_model(),
    {
        &self.tags
    }

    /// The encoded samples: the body of the `data` chunk.
    pub fn data(&self) -> (r: &'a [u8])
        ensures
            r@ == self.data_model(),
    {
        self.data
    }

    pub fn sample_rate(&self) -> (r: u32)
        ensures
            r == self.format_model().sample_rate,
    {
        self.format.sample_rate
    }

    pub fn channel_count(&self) -> (r: usize)
        ensures
            r == self.format_model().channels,
    {
        self.format.channels as usize
    }

    /// Whole frames present in the `data` chunk.
    ///
    /// A trailing partial frame is ignored rather than zero-filled: half a
    /// stereo frame is damage, and inventing the other half would hide it.
    pub fn frames(&self) -> (r: usize)
        ensures
            r == self.data_model().len() as int / ((self.format_model().bits_per_sample / 8)
                * self.format_model().channels),
    {
        proof {
            use_type_invariant(self);
            self.lemma_frame_size();
        }
        self.data.len() / self.format.frame_size()
    }

    /// True when the `data` chunk does not divide evenly into frames.
    pub fn has_partial_frame(&self) -> (r: bool)
        ensures
            r == (self.data_model().len() as int % ((self.format_model().bits_per_sample / 8)
                * self.format_model().channels) != 0),
    {
        proof {
            use_type_invariant(self);
            self.lemma_frame_size();
        }
        self.data.len() % self.format.frame_size() != 0
    }

    /// A readable format has a frame of at least two bytes.
    proof fn lemma_frame_size(self)
        requires
            self.inv(),
        ensures
            (self.format.bits_per_sample / 8) * self.format.channels >= 2,
    {
        assert((self.format.bits_per_sample / 8) * self.format.channels >= 2) by (nonlinear_arith)
            requires
                self.format.bits_per_sample / 8 >= 2,
                self.format.channels >= 1,
        ;
    }
}

/// What parsing a well-formed envelope gives, from its chunks `cs`.
pub open spec fn wav_read<'a>(r: Result<Wav<'a>, Error>, cs: Seq<(Seq<u8>, Seq<u8>)>) -> bool {
    match first_where(cs, is_chunk(FMT)) {
        None => r == Err::<Wav<'a>, Error>(Error::MissingChunk("fmt ")),
        Some(j) => match format_of(cs[j].1) {
            Err(e) => r == Err::<Wav<'a>, Error>(e),
            Ok(f) => match first_where(cs, is_chunk(DATA)) {
                None => r == Err::<Wav<'a>, Error>(Error::MissingChunk("data")),
                Some(k) => r matches Ok(w) && w.format_model() == f && w.data_model() == cs[k].1
                    && tags_read(w.tags_model(), cs),
            },
        },
    }
}

/// The first match in `s` pushed with `c`.
proof fn lemma_first_where_push<T>(s: Seq<T>, c: T, p: spec_fn(T) -> bool)
    ensures
        first_where(s.push(c), p) == (match first_where(s, p) {
            Some(j) => Some(j),
            None => if p(c) {
                Some(s.len() as int)
            } else {
                None
            },
        }),
    decreases s.len(),
{
    assert(s.push(c)[s.len() as int] == c);
    if s.len() > 0 {
        assert(s.push(c)[0] == s[0]);
        assert(s.push(c).drop_first() =~= s.drop_first().push(c));
        lemma_first_where_push(s.drop_first(), c, p);
        if !p(s[0]) {
            let inner = first_where(s.drop_first().push(c), p);
            assert(first_where(s.push(c), p) == (match inner {
                Some(j) => Some(j + 1),
                None => None::<int>,
            }));
            assert(first_where(s, p) == (match first_where(s.drop_first(), p) {
                Some(j) => Some(j + 1),
                None => None::<int>,
            }));
        }
    } else {
        assert(s.push(c).drop_first() =~= Seq::<T>::empty());
        assert(first_where(Seq::<T>::empty(), p) is None);
    }
}

/// A first match in a prefix is the first match of the whole.
proof fn lemma_first_where_prefix<T>(s: Seq<T>, t: Seq<T>, p: spec_fn(T) -> bool)
    requires
        first_where(s, p) is Some,
    ensures
        first_where(s + t, p) == first_where(s, p),
    decreases s.len(),
{
    if s.len() > 0 && !p(s[0]) {
        assert((s + t).drop_first() =~= s.drop_first() + t);
        lemma_first_where_prefix(s.drop_first(), t, p);
    }
}

/// The `INFO` pairs of `s` pushed with `c`.
proof fn lemma_all_info_push(s: Seq<(Seq<u8>, Seq<u8>)>, c: (Seq<u8>, Seq<u8>))
    ensures
        all_info(s.push(c)) == all_info(s) + (if c.0 == LIST@ {
            info_list_of(c.1)
        } else {
            seq![]
        }),
    decreases s.len(),
{
    if s.len() == 0 {
        assert(s.push(c)[0] == c);
        assert(s.push(c).drop_first() =~= Seq::<(Seq<u8>, Seq<u8>)>::empty());
        assert(all_info(Seq::<(Seq<u8>, Seq<u8>)>::empty()) =~= Seq::<(Seq<u8>, Seq<char>)>::empty());
        assert(all_info(s.push(c)) =~= (if c.0 == LIST@ {
            info_list_of(c.1)
        } else {
            seq![]
        }) + Seq::<(Seq<u8>, Seq<char>)>::empty());
    } else {
        assert(s.push(c).drop_first() =~= s.drop_first().push(c));
        lemma_all_info_push(s.drop_first(), c);
        assert(s.push(c)[0] == s[0]);
        assert(all_info(s.push(c)) =~= all_info(s) + (if c.0 == LIST@ {
            info_list_of(c.1)
        } else {
            seq![]
        }));
    }
}

/// The `INFO` pairs of two runs of chunks, one after the other.
pub proof fn lemma_all_info_concat(s: Seq<(Seq<u8>, Seq<u8>)>, t: Seq<(Seq<u8>, Seq<u8>)>)
    ensures
        all_info(s + t) == all_info(s) + all_info(t),
    decreases s.len(),
{
    if s.len() == 0 {
        assert(s + t =~= t);
        assert(all_info(s) =~= Seq::<(Seq<u8>, Seq<char>)>::empty());
        assert(all_info(s) + all_info(t) =~= all_info(t));
    } else {
        assert((s + t).drop_first() =~= s.drop_first() + t);
        assert((s + t)[0] == s[0]);
        lemma_all_info_concat(s.drop_first(), t);
        let head = if s[0].0 == LIST@ {
            info_list_of(s[0].1)
        } else {
            seq![]
        };
        assert(all_info(s + t) =~= head + (all_info(s.drop_first()) + all_info(t)));
        assert(all_info(s) =~= head + all_info(s.drop_first()));
        assert(head + (all_info(s.drop_first()) + all_info(t)) =~= (head + all_info(s.drop_first()))
            + all_info(t));
    }
}

} // verus!
