use loopslcr::wav::chunks::{
    parse_info_list, AcidChunk, ChunkId, Chunks, Format, SampleFormat, SampleLoop, SmplChunk,
    ACID, DATA, FMT, FORMAT_EXTENSIBLE, FORMAT_IEEE_FLOAT, FORMAT_PCM, ICMT, INFO, LIST, RIFF, SMPL,
    WAVE,
};
use loopslcr::wav::read::Wav;
use loopslcr::wav::write::{data_length, BitDepth, Metadata, WriteSpec};
use loopslcr::Error;

/// Builds a RIFF/WAVE envelope around the given chunk bodies.
fn riff(chunks: &[(ChunkId, Vec<u8>)]) -> Vec<u8> {
    let mut body = Vec::from(WAVE);
    for (id, data) in chunks {
        body.extend_from_slice(id);
        body.extend_from_slice(&(data.len() as u32).to_le_bytes());
        body.extend_from_slice(data);
        if data.len() % 2 == 1 {
            body.push(0);
        }
    }
    let mut out = Vec::from(RIFF);
    out.extend_from_slice(&(body.len() as u32).to_le_bytes());
    out.extend_from_slice(&body);
    out
}

fn fmt_pcm(channels: u16, rate: u32, bits: u16) -> Vec<u8> {
    let block_align = channels * bits / 8;
    let mut v = Vec::new();
    v.extend_from_slice(&FORMAT_PCM.to_le_bytes());
    v.extend_from_slice(&channels.to_le_bytes());
    v.extend_from_slice(&rate.to_le_bytes());
    v.extend_from_slice(&(rate * block_align as u32).to_le_bytes());
    v.extend_from_slice(&block_align.to_le_bytes());
    v.extend_from_slice(&bits.to_le_bytes());
    v
}

fn walk(bytes: &[u8]) -> Vec<(ChunkId, Vec<u8>)> {
    Chunks::parse(bytes)
        .unwrap()
        .into_vec()
        .into_iter()
        .map(|c| (c.id, c.body.to_vec()))
        .collect()
}

#[test]
fn walks_chunks_in_order() {
    let bytes = riff(&[(FMT, fmt_pcm(2, 44_100, 16)), (DATA, vec![1, 2, 3, 4]), (ACID, vec![0; 24])]);
    let ids: Vec<ChunkId> = walk(&bytes).into_iter().map(|c| c.0).collect();
    assert_eq!(ids, vec![FMT, DATA, ACID]);
}

#[test]
fn odd_sized_chunks_are_padded_but_not_included() {
    let bytes = riff(&[(DATA, vec![9, 9, 9]), (ACID, vec![0; 24])]);
    let chunks = walk(&bytes);
    assert_eq!(chunks.len(), 2);
    assert_eq!(chunks[0].1, vec![9, 9, 9]);
    assert_eq!(chunks[1].0, ACID);
}

#[test]
fn rejects_non_riff() {
    assert_eq!(Chunks::parse(b"not a wave file at all").err().map(|_| ()), Some(()));
    assert!(matches!(Chunks::parse(b"not a wave file at all"), Err(Error::NotRiff)));
    assert!(matches!(Chunks::parse(&[]), Err(Error::NotRiff)));
    let mut bytes = riff(&[(DATA, vec![0; 4])]);
    bytes[8..12].copy_from_slice(b"AVI ");
    assert!(matches!(Chunks::parse(&bytes), Err(Error::NotWave)));
}

#[test]
fn survives_a_truncated_file() {
    let mut bytes = riff(&[(FMT, fmt_pcm(1, 44_100, 16)), (DATA, vec![7; 100])]);
    bytes.truncate(bytes.len() - 60);
    let chunks = walk(&bytes);
    assert_eq!(chunks.len(), 2);
    assert_eq!(chunks[1].0, DATA);
    assert_eq!(chunks[1].1.len(), 40);
    assert!(chunks[1].1.iter().all(|&b| b == 7));
}

#[test]
fn a_riff_size_field_that_understates_the_file_costs_no_audio() {
    let mut bytes = riff(&[(FMT, fmt_pcm(2, 44_100, 24)), (DATA, vec![7; 600])]);
    let honest = u32::from_le_bytes([bytes[4], bytes[5], bytes[6], bytes[7]]);
    bytes[4..8].copy_from_slice(&(honest - 44).to_le_bytes());
    let chunks = walk(&bytes);
    assert_eq!(chunks.len(), 2);
    assert_eq!(chunks[1].1.len(), 600, "data chunk was truncated");
    assert_eq!(Chunks::size_field_error(&bytes), Some(-44));
}

#[test]
fn size_field_error_reports_both_directions() {
    let bytes = riff(&[(DATA, vec![0; 8])]);
    assert_eq!(Chunks::size_field_error(&bytes), Some(0));

    let mut over = bytes.clone();
    let honest = u32::from_le_bytes([over[4], over[5], over[6], over[7]]);
    over[4..8].copy_from_slice(&(honest + 100).to_le_bytes());
    assert_eq!(Chunks::size_field_error(&over), Some(100));

    assert_eq!(Chunks::size_field_error(b"nope"), None);
}

#[test]
fn parses_plain_pcm_formats() {
    for (channels, rate, bits) in [(1u16, 44_100u32, 16u16), (2, 48_000, 24), (2, 96_000, 32)] {
        let f = Format::parse(&fmt_pcm(channels, rate, bits)).unwrap();
        assert_eq!(f.format, SampleFormat::Int);
        assert_eq!(f.channels, channels);
        assert_eq!(f.sample_rate, rate);
        assert_eq!(f.bits_per_sample, bits);
        assert_eq!(f.frame_size(), channels as usize * bits as usize / 8);
    }
}

#[test]
fn resolves_wave_format_extensible() {
    let mut body = fmt_pcm(2, 44_100, 24);
    body[0..2].copy_from_slice(&FORMAT_EXTENSIBLE.to_le_bytes());
    body.extend_from_slice(&22u16.to_le_bytes()); // cbSize
    body.extend_from_slice(&24u16.to_le_bytes()); // valid bits
    body.extend_from_slice(&3u32.to_le_bytes()); // channel mask
    body.extend_from_slice(&FORMAT_PCM.to_le_bytes()); // GUID starts here
    body.extend_from_slice(&[0; 14]);

    let f = Format::parse(&body).unwrap();
    assert_eq!(f.format, SampleFormat::Int);
    assert_eq!(f.bits_per_sample, 24);

    let mut float_body = body.clone();
    float_body[24..26].copy_from_slice(&FORMAT_IEEE_FLOAT.to_le_bytes());
    float_body[14..16].copy_from_slice(&32u16.to_le_bytes());
    assert_eq!(Format::parse(&float_body).unwrap().format, SampleFormat::Float);
}

#[test]
fn rejects_formats_we_cannot_read() {
    let mut adpcm = fmt_pcm(2, 44_100, 16);
    adpcm[0..2].copy_from_slice(&0x0011u16.to_le_bytes());
    assert_eq!(Format::parse(&adpcm).err(), Some(Error::UnsupportedFormat(0x11)));
    let eight_bit = fmt_pcm(1, 44_100, 8);
    assert_eq!(Format::parse(&eight_bit).err(), Some(Error::UnsupportedBitDepth(8)));
    assert_eq!(Format::parse(&[0; 4]).err(), Some(Error::MalformedChunk("fmt ")));
    let mut zero_channels = fmt_pcm(1, 44_100, 16);
    zero_channels[2..4].copy_from_slice(&0u16.to_le_bytes());
    assert_eq!(Format::parse(&zero_channels).err(), Some(Error::MalformedChunk("fmt ")));
}

#[test]
fn parses_acid_tempo() {
    let mut body = vec![0u8; 24];
    body[0..4].copy_from_slice(&4u32.to_le_bytes());
    body[12..16].copy_from_slice(&32u32.to_le_bytes()); // beats
    body[16..18].copy_from_slice(&4u16.to_le_bytes());
    body[18..20].copy_from_slice(&4u16.to_le_bytes());
    body[20..24].copy_from_slice(&103.0f32.to_le_bytes());
    let acid = AcidChunk::parse(&body).unwrap();
    assert_eq!(f32::from_bits(acid.tempo_bits), 103.0);
    assert_eq!(acid.beats, 32);
    assert_eq!((acid.meter_numerator, acid.meter_denominator), (4, 4));
    assert!(!acid.is_one_shot());
    assert_eq!(AcidChunk::parse(&[0; 10]), None);
    // Written back, it is the same chunk.
    assert_eq!(AcidChunk::parse(&acid.to_body()), Some(acid));
}

#[test]
fn parses_smpl_loops() {
    let mut body = vec![0u8; 36];
    body[12..16].copy_from_slice(&60u32.to_le_bytes()); // unity note
    body[28..32].copy_from_slice(&1u32.to_le_bytes()); // one loop
    let mut loop_data = vec![0u8; 24];
    loop_data[8..12].copy_from_slice(&0u32.to_le_bytes());
    loop_data[12..16].copy_from_slice(&822_057u32.to_le_bytes());
    body.extend_from_slice(&loop_data);

    let smpl = SmplChunk::parse(&body).unwrap();
    assert_eq!(smpl.midi_unity_note, 60);
    assert_eq!(smpl.loops.len(), 1);
    assert_eq!(smpl.loops[0].start, 0);
    assert_eq!(smpl.loops[0].end, 822_057);
}

#[test]
fn truncated_loop_table_keeps_what_parsed() {
    let mut body = vec![0u8; 36];
    body[28..32].copy_from_slice(&5u32.to_le_bytes()); // claims five loops
    body.extend_from_slice(&[0u8; 24]); // provides one
    assert_eq!(SmplChunk::parse(&body).unwrap().loops.len(), 1);
}

#[test]
fn a_smpl_chunk_reads_back_as_written() {
    let smpl = SmplChunk {
        midi_unity_note: 60,
        midi_pitch_fraction: 7,
        loops: vec![
            SampleLoop { start: 0, end: 822_057, play_count: 0 },
            SampleLoop { start: 10, end: 20, play_count: 3 },
        ],
    };
    let body = smpl.to_body(44_100);
    assert_eq!(body.len(), 36 + 2 * 24);
    assert_eq!(u32::from_le_bytes([body[8], body[9], body[10], body[11]]), 1_000_000_000 / 44_100);
    assert_eq!(SmplChunk::parse(&body), Some(smpl));
}

#[test]
fn parses_info_text() {
    let mut body = Vec::from(INFO);
    for (id, text) in [(ICMT, "103 BPM, 8 bars\0"), (*b"INAM", "loop")] {
        body.extend_from_slice(&id);
        body.extend_from_slice(&(text.len() as u32).to_le_bytes());
        body.extend_from_slice(text.as_bytes());
        if text.len() % 2 == 1 {
            body.push(0);
        }
    }
    let info = parse_info_list(&body);
    assert_eq!(info.len(), 2);
    assert_eq!(info[0], (ICMT, "103 BPM, 8 bars".to_string()));
    assert_eq!(info[1], (*b"INAM", "loop".to_string()));
    assert!(parse_info_list(b"adtl").is_empty());
}

#[test]
fn bit_depth_parses_from_the_command_line() {
    assert_eq!("16".parse::<BitDepth>().unwrap(), BitDepth::Int16);
    assert_eq!("24".parse::<BitDepth>().unwrap(), BitDepth::Int24);
    assert_eq!("32".parse::<BitDepth>().unwrap(), BitDepth::Int32);
    assert_eq!("32f".parse::<BitDepth>().unwrap(), BitDepth::Float32);
    assert_eq!(" Float ".parse::<BitDepth>().unwrap(), BitDepth::Float32);
    assert!("8".parse::<BitDepth>().is_err());
    assert_eq!(BitDepth::default(), BitDepth::Int24);
}

#[test]
fn a_refused_depth_is_named_in_lower_case() {
    assert_eq!(" F64 ".parse::<BitDepth>(), Err(Error::BitDepthName("f64".to_string())));
    assert_eq!(BitDepth::Int24.bytes(), 3);
    assert!(BitDepth::Float32.is_float());
    assert!(!BitDepth::Float32.clips());
    assert!(BitDepth::Int16.clips());
}

#[test]
fn a_written_file_reads_back() {
    // Two channels of 16-bit, three frames, already encoded.
    let data: Vec<u8> = vec![1, 0, 2, 0, 3, 0, 4, 0, 5, 0, 6, 0];
    let acid = AcidChunk {
        flags: 4,
        root_note: 0,
        beats: 32,
        meter_denominator: 4,
        meter_numerator: 4,
        tempo_bits: 103.0f32.to_bits(),
    };
    let smpl = SmplChunk {
        midi_unity_note: 60,
        midi_pitch_fraction: 0,
        loops: vec![SampleLoop { start: 0, end: 2, play_count: 0 }],
    };
    let metadata = Metadata { acid: Some(acid), smpl: Some(smpl.clone()), comment: None, extra: Vec::new() }
        .with_comment("103 BPM, 8 bars".to_string());
    let spec = WriteSpec::new(BitDepth::Int16).with_metadata(metadata);
    let (channels, len) = data_length(2, 3, BitDepth::Int16).unwrap();
    assert_eq!((channels, len), (2, 12));
    let bytes = loopslcr::wav::write::write(2, 3, 44_100, &data, &spec).unwrap();
    assert_eq!(Chunks::size_field_error(&bytes), Some(0));

    let wav = Wav::parse(&bytes).unwrap();
    assert_eq!(wav.sample_rate(), 44_100);
    assert_eq!(wav.channel_count(), 2);
    assert_eq!(wav.frames(), 3);
    assert!(!wav.has_partial_frame());
    assert_eq!(wav.data(), data.as_slice());
    assert_eq!(wav.format().format, SampleFormat::Int);
    assert!(wav.format().block_align_is_consistent());
    assert_eq!(wav.tags().acid, Some(acid));
    assert_eq!(wav.tags().smpl, Some(smpl));
    assert_eq!(wav.tags().info, vec![(ICMT, "103 BPM, 8 bars".to_string())]);
    // Audio starts at byte 44: nothing is inserted ahead of `data`.
    assert_eq!(&bytes[36..40], &DATA);
}

#[test]
fn float_output_carries_a_fact_chunk() {
    let data = vec![0u8; 8];
    let bytes = loopslcr::wav::write::write(1, 2, 48_000, &data, &WriteSpec::new(BitDepth::Float32)).unwrap();
    let ids: Vec<ChunkId> = walk(&bytes).into_iter().map(|c| c.0).collect();
    assert_eq!(ids, vec![FMT, *b"fact", DATA]);
    assert_eq!(Wav::parse(&bytes).unwrap().format().format, SampleFormat::Float);
}

#[test]
fn impossible_layouts_are_refused() {
    assert_eq!(data_length(70_000, 1, BitDepth::Int16), Err(Error::TooManyChannels(70_000)));
    assert_eq!(data_length(2, usize::MAX, BitDepth::Int16), Err(Error::FileTooLarge(u64::MAX)));
    assert_eq!(loopslcr::wav::write::write(70_000, 1, 44_100, &[], &WriteSpec::default()), Err(Error::TooManyChannels(70_000)));
}

#[test]
fn a_file_without_fmt_or_data_is_refused() {
    let no_fmt = riff(&[(DATA, vec![0; 4])]);
    assert!(matches!(Wav::parse(&no_fmt), Err(Error::MissingChunk("fmt "))));
    let no_data = riff(&[(FMT, fmt_pcm(1, 44_100, 16))]);
    assert!(matches!(Wav::parse(&no_data), Err(Error::MissingChunk("data"))));
    let mut odd = riff(&[(FMT, fmt_pcm(2, 44_100, 16)), (DATA, vec![0; 10])]);
    let wav = Wav::parse(&odd).unwrap();
    assert_eq!(wav.frames(), 2);
    assert!(wav.has_partial_frame());
    odd.truncate(10);
    assert!(Wav::parse(&odd).is_err());
}

/// Writes `frames` frames of silence, already encoded at `depth`.
fn write_silence(channels: usize, frames: usize, spec: &WriteSpec) -> Vec<u8> {
    let (_, len) = data_length(channels, frames, spec.depth).unwrap();
    loopslcr::wav::write::write(channels, frames, 44_100, &vec![0u8; len], spec).unwrap()
}

#[test]
fn missing_chunks_are_named_in_the_error() {
    // fmt but no data.
    let no_data = riff(&[(FMT, fmt_pcm(1, 44_100, 16))]);
    assert_eq!(Wav::parse(&no_data).err(), Some(Error::MissingChunk("data")));
}

#[test]
fn a_trailing_partial_frame_is_reported_not_invented() {
    // Stereo 16-bit needs 4 bytes per frame; give it 10.
    let bytes = riff(&[(FMT, fmt_pcm(2, 44_100, 16)), (DATA, vec![1, 0, 2, 0, 3, 0, 4, 0, 0, 0])]);
    let wav = Wav::parse(&bytes).unwrap();
    assert!(wav.has_partial_frame());
    assert_eq!(wav.frames(), 2); // the complete ones only
}

#[test]
fn unknown_chunks_are_skipped_not_fatal() {
    let bytes = riff(&[
        (FMT, fmt_pcm(1, 44_100, 16)),
        (*b"junk", vec![0; 7]), // odd size, exercises padding
        (*b"fact", vec![0; 4]),
        (DATA, vec![1, 0, 2, 0, 3, 0]),
    ]);
    let wav = Wav::parse(&bytes).unwrap();
    assert_eq!(wav.frames(), 3);
}

#[test]
fn the_riff_size_field_is_honest() {
    for depth in [BitDepth::Int24, BitDepth::Float32] {
        // An odd frame count at 24-bit mono gives an odd data size, which
        // exercises the pad byte.
        let bytes = write_silence(1, 101, &WriteSpec::new(depth));
        assert_eq!(Chunks::size_field_error(&bytes), Some(0), "{depth:?}");
        assert_eq!(bytes.len() % 2, 0, "{depth:?}: file is not word-aligned");
    }
}

#[test]
fn tags_round_trip() {
    let spec = WriteSpec::new(BitDepth::Int24).with_metadata(
        Metadata::for_loop(103.0f32.to_bits(), 32, 4, 4, 32).with_comment("103 BPM, 8 bars".to_string()),
    );
    let bytes = write_silence(2, 32, &spec);

    let wav = Wav::parse(&bytes).unwrap();
    assert_eq!(wav.frames(), 32, "tags after data cost audio");

    let acid = wav.tags().acid.unwrap();
    assert_eq!(f32::from_bits(acid.tempo_bits), 103.0);
    assert_eq!(acid.beats, 32);
    assert_eq!((acid.meter_numerator, acid.meter_denominator), (4, 4));
    assert!(!acid.is_one_shot());

    let smpl = wav.tags().smpl.clone().unwrap();
    assert_eq!(smpl.loops, vec![SampleLoop { start: 0, end: 31, play_count: 0 }]);
    // Written per the layout, so the inclusive read is the right one.
    assert_eq!(smpl.loops[0].frame_count(32), 32);
    assert_eq!(smpl.midi_unity_note, 60);

    assert_eq!(wav.tags().info, vec![(ICMT, "103 BPM, 8 bars".to_string())]);
}

#[test]
fn data_comes_before_the_tags() {
    // A reader that stops at `data` must still get all the audio, and one
    // that assumes audio starts at byte 44 must find it there.
    let bytes = write_silence(
        2,
        16,
        &WriteSpec::new(BitDepth::Int16).with_metadata(Metadata::for_loop(90.0f32.to_bits(), 16, 4, 4, 16)),
    );
    let ids: Vec<ChunkId> = walk(&bytes).into_iter().map(|c| c.0).collect();
    assert_eq!(ids, vec![FMT, DATA, ACID, SMPL]);
    assert_eq!(&bytes[36..40], &DATA);
}

#[test]
fn an_odd_length_comment_stays_aligned() {
    // An odd-length INFO string forces a pad byte mid-file; a chunk after
    // it will only parse if the padding was handled.
    let spec = WriteSpec::new(BitDepth::Int16).with_metadata(Metadata {
        comment: Some("odd".to_string()),
        extra: vec![(*b"junk", vec![1, 2, 3, 4])],
        ..Metadata::default()
    });
    let bytes = write_silence(1, 8, &spec);
    let wav = Wav::parse(&bytes).unwrap();
    assert_eq!(wav.tags().info, vec![(ICMT, "odd".to_string())]);
    let ids: Vec<ChunkId> = walk(&bytes).into_iter().map(|c| c.0).collect();
    assert_eq!(ids, vec![FMT, DATA, LIST, *b"junk"]);
}

#[test]
fn an_empty_buffer_is_still_a_valid_file() {
    let bytes = write_silence(2, 0, &WriteSpec::new(BitDepth::Int24));
    let wav = Wav::parse(&bytes).unwrap();
    assert_eq!(wav.frames(), 0);
    assert!(!wav.has_partial_frame());
}

#[test]
fn a_loop_end_is_read_inclusively_unless_it_runs_off_the_file() {
    let l = SampleLoop { start: 0, end: 31, play_count: 0 };
    assert_eq!(l.frame_count(32), 32);
    // An end at or past the last frame was meant exclusively.
    assert_eq!(SampleLoop { start: 0, end: 32, play_count: 0 }.frame_count(32), 32);
    assert_eq!(SampleLoop { start: 4, end: 3, play_count: 0 }.frame_count(32), 0);
    assert_eq!(SmplChunk::whole_file(0).loops, vec![]);
    assert_eq!(SmplChunk::whole_file(1).loops, vec![SampleLoop { start: 0, end: 0, play_count: 0 }]);
    let acid = AcidChunk::for_loop(7, 8, 3, 4);
    assert_eq!((acid.tempo_bits, acid.beats, acid.meter_numerator, acid.meter_denominator), (7, 8, 3, 4));
    assert_eq!((acid.flags, acid.root_note), (0, 60));
}

#[test]
fn twelve_bytes_decide_whether_a_file_is_wave() {
    let wave = riff(&[(FMT, fmt_pcm(1, 44_100, 16)), (DATA, vec![0, 0])]);
    assert!(loopslcr::wav::chunks::starts_like_wave(&wave[..12]));
    assert!(loopslcr::wav::chunks::starts_like_wave(&wave));
    assert!(!loopslcr::wav::chunks::starts_like_wave(&wave[..11]));
    assert!(!loopslcr::wav::chunks::starts_like_wave(b"PK\x03\x04 a zip file"));
    assert!(!loopslcr::wav::chunks::starts_like_wave(b"RIFF\0\0\0\0AVI LIST"));
}
