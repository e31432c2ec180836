use qoar::byte_decoder;
use qoar::decoder::{DecodeError, DecodeWriteKind, Decoder};
use qoar::io::{Buffer, ReadError, ReadResult, SourceStream};
use qoar::layout::{pack_file_header, pack_frame_header};
use qoar::pcm_io::{Error, PcmBuffer, PcmFrame, PcmSink, PcmStream};
use std::collections::VecDeque;

const STEREO: [u64; 12] = [
    0x716f_6166_0000_0000,
    0x0200_bb80_002d_0060,
    0x0,
    0xe000_4000,
    0x0,
    0xe000_4000,
    0xf5f1_6f7d_f59d_1614,
    0xf4ea_df79_5477_5653,
    0xf770_e85c_5ea9_d564,
    0xf285_1736_a53b_cad3,
    0xefa4_6000_0000_0000,
    0xd696_e000_0000_0000,
];

const STEREO_BEGIN: [i16; 8] = [5120, 5120, -3896, 5320, 1337, -3696, 4841, -8067];

fn bytes(words: &[u64]) -> Vec<u8> {
    let mut out = Vec::new();
    for word in words {
        out.extend_from_slice(&word.to_be_bytes());
    }
    out
}

fn buffer(words: &[u64]) -> Buffer {
    Buffer(words.iter().copied().collect::<VecDeque<u64>>())
}

fn from_bytes(stream: &[u8]) -> Result<(usize, Vec<i16>), byte_decoder::Error> {
    let mut samples = Vec::new();
    let read = byte_decoder::Decoder::new().decode(stream, &mut samples)?;
    Ok((read, samples))
}

fn interleaved(sink: PcmBuffer) -> Vec<i16> {
    let mut out = Vec::new();
    for frame in sink.unwrap() {
        out.extend_from_slice(&frame.data());
    }
    out
}

/// A mono stream of `frames` frames of silence, `samples` samples each.
fn mono(declared: u32, frames: usize, samples: u16) -> Vec<u64> {
    let mut out = vec![pack_file_header(declared)];
    let slices = (samples as usize + 19) / 20;
    for _ in 0..frames {
        out.push(pack_frame_header(1, 8000, samples, (24 + 8 * slices) as u16));
        out.push(0);
        out.push(0xe000_4000);
        for _ in 0..slices {
            out.push(0);
        }
    }
    out
}

struct Stuck(usize);

impl SourceStream for Stuck {
    fn read_long(&mut self) -> ReadResult {
        if self.0 == 0 {
            Err(ReadError::Io(String::from("stuck")))
        } else {
            self.0 -= 1;
            Ok(STEREO[STEREO.len() - 1 - self.0.min(STEREO.len() - 1)])
        }
    }
}

struct Deaf {
    describes: bool,
    takes: usize,
    closes: bool,
}

impl PcmStream for Deaf {
    fn channel_count(&self) -> usize {
        0
    }

    fn sample_rate(&self) -> u32 {
        0
    }
}

impl PcmSink for Deaf {
    fn write(&mut self, buf: &[i16], _chn: usize) -> Result<usize, Error> {
        if self.takes == 0 {
            Err(Error::Write(String::from("deaf")))
        } else {
            Ok(buf.len().min(self.takes))
        }
    }

    fn write_interleaved(&mut self, _buf: &[i16]) -> Result<usize, Error> {
        Ok(0)
    }

    fn sample_capacity(&self) -> usize {
        self.takes
    }

    fn set_descriptor(&mut self, _sample_rate: u32, _channel_count: usize) -> Result<(), Error> {
        if self.describes {
            Ok(())
        } else {
            Err(Error::DescriptorSet)
        }
    }

    fn close(&mut self) -> Result<(), Error> {
        if self.closes {
            Ok(())
        } else {
            Err(Error::Other(String::from("open")))
        }
    }
}

#[test]
fn a_known_stream_is_decoded_to_known_samples() {
    let (read, samples) = from_bytes(&bytes(&STEREO)).unwrap();
    assert_eq!(read, 96);
    assert_eq!(samples.len(), 90);
    assert_eq!(samples[..8], STEREO_BEGIN);
}

#[test]
fn a_sink_takes_the_same_samples_channel_by_channel() {
    let mut source = buffer(&STEREO);
    let sink = Decoder::new(PcmBuffer::default()).decode(&mut source).unwrap();
    assert!(source.0.is_empty());
    assert_eq!(sink.channel_count(), 2);
    assert_eq!(sink.sample_rate(), 48000);
    assert_eq!(sink.len(), 45);
    let (_, samples) = from_bytes(&bytes(&STEREO)).unwrap();
    assert_eq!(interleaved(sink), samples);
}

#[test]
fn eight_zero_bytes_have_no_magic_number() {
    assert_eq!(from_bytes(&[0; 8]), Err(byte_decoder::Error::UnknownMagic([0, 0, 0, 0])));
    let mut source = buffer(&[0]);
    match Decoder::new(PcmBuffer::default()).decode(&mut source) {
        Err(DecodeError::UnknownMagic(found)) => assert_eq!(found, [0, 0, 0, 0]),
        _ => panic!("decoded"),
    }
    assert_eq!(from_bytes(b"RIFFxxxxWAVE"), Err(byte_decoder::Error::UnknownMagic(*b"RIFF")));
}

#[test]
fn a_stream_that_ends_early_is_refused() {
    assert_eq!(from_bytes(&[]), Err(byte_decoder::Error::Eos));
    assert_eq!(from_bytes(b"qoaf"), Err(byte_decoder::Error::Eos));
    let whole = bytes(&STEREO);
    for cut in [9, 16, 17, 48, 95] {
        assert_eq!(from_bytes(&whole[..cut]), Err(byte_decoder::Error::Eos));
    }
    for cut in [0, 2, 6, 11] {
        let mut source = buffer(&STEREO[..cut]);
        match Decoder::new(PcmBuffer::default()).decode(&mut source) {
            Err(DecodeError::Eof) => {}
            _ => panic!("decoded"),
        }
    }
    let mut declared = STEREO;
    declared[0] |= 46;
    assert_eq!(from_bytes(&bytes(&declared)), Err(byte_decoder::Error::Eos));
    let mut source = buffer(&declared);
    match Decoder::new(PcmBuffer::default()).decode(&mut source) {
        Err(DecodeError::Eof) => {}
        _ => panic!("decoded"),
    }
}

#[test]
fn a_stream_of_unknown_length_ends_where_its_frames_end() {
    assert_eq!(from_bytes(&bytes(&STEREO[..1])), Ok((8, vec![])));
    let mut source = buffer(&STEREO[..1]);
    let sink = Decoder::new(PcmBuffer::default()).decode(&mut source).unwrap();
    assert!(sink.is_empty());

    let mut twice = STEREO.to_vec();
    twice.extend_from_slice(&STEREO[1..]);
    let (read, samples) = from_bytes(&bytes(&twice)).unwrap();
    assert_eq!(read, 8 * 23);
    assert_eq!(samples.len(), 180);
    assert_eq!(samples[90..98], STEREO_BEGIN);
}

#[test]
fn the_declared_samples_end_the_decoding() {
    let mut stream = mono(30, 3, 20);
    stream.push(0xdead_beef);
    let (read, samples) = from_bytes(&bytes(&stream)).unwrap();
    assert_eq!(read, 8 * 9);
    assert_eq!(samples.len(), 40);

    let mut source = buffer(&stream);
    let sink = Decoder::new(PcmBuffer::default()).decode(&mut source).unwrap();
    assert_eq!(sink.len(), 40);
    assert_eq!(source.0.len(), 5);
}

#[test]
fn a_frame_decodes_to_what_its_rows_hold() {
    let samples = from_bytes(&bytes(&mono(0, 1, 45))).unwrap().1;
    assert_eq!(samples.len(), 45);
    let long = mono(0, 1, 6000);
    assert_eq!(long.len(), 1 + 3 + 300);
    assert_eq!(from_bytes(&bytes(&long)), Err(byte_decoder::Error::DescriptorChange(0, 0)));
    let mut capped = long[..4 + 256].to_vec();
    capped[0] |= 6000;
    let (read, samples) = from_bytes(&bytes(&capped)).unwrap();
    assert_eq!(read, 8 * 260);
    assert_eq!(samples.len(), 5120);
}

#[test]
fn a_frame_of_another_rate_or_channel_count_is_refused() {
    let mut other = STEREO.to_vec();
    other.extend_from_slice(&mono(0, 1, 20)[1..]);
    assert_eq!(
        from_bytes(&bytes(&other)),
        Err(byte_decoder::Error::DescriptorChange(8000, 1))
    );
    let mut source = buffer(&other);
    match Decoder::new(PcmBuffer::default()).decode(&mut source) {
        Err(DecodeError::Write(DecodeWriteKind::SetDescriptor, Error::DescriptorSet)) => {}
        _ => panic!("decoded"),
    }
}

#[test]
fn bytes_after_the_last_word_are_no_frame() {
    let mut stream = bytes(&STEREO);
    stream.push(0);
    assert_eq!(from_bytes(&stream), Err(byte_decoder::Error::Eos));
    let mut fixed = mono(20, 1, 20);
    fixed.truncate(5);
    let mut stream = bytes(&fixed);
    stream.push(1);
    assert_eq!(from_bytes(&stream).unwrap().0, 40);
}

#[test]
fn the_samples_go_after_what_the_sink_holds() {
    let mut samples = vec![7i16, 8, 9];
    let read = byte_decoder::Decoder::new().decode(&bytes(&STEREO), &mut samples).unwrap();
    assert_eq!(read, 96);
    assert_eq!(samples.len(), 93);
    assert_eq!(samples[..3], [7, 8, 9]);
    assert_eq!(samples[3..11], STEREO_BEGIN);
}

#[test]
fn frames_are_decoded_one_by_one() {
    let mut twice = STEREO.to_vec();
    twice.extend_from_slice(&STEREO[1..]);
    let mut source = buffer(&twice);
    let mut decoder = Decoder::new(PcmBuffer::default());
    assert_eq!(decoder.decode_frame(&mut source).unwrap(), true);
    assert_eq!(source.0.len(), 11);
    assert_eq!(decoder.decode_frame(&mut source).unwrap(), true);
    assert_eq!(decoder.decode_frame(&mut source).unwrap(), false);
    assert_eq!(decoder.decode_frame(&mut source).unwrap(), false);
    let sink = decoder.close().unwrap();
    assert_eq!(sink.len(), 90);
}

#[test]
fn a_source_that_fails_ends_the_decoding() {
    match Decoder::new(PcmBuffer::default()).decode(&mut Stuck(0)) {
        Err(DecodeError::Read(ReadError::Io(why))) => assert_eq!(why, "stuck"),
        _ => panic!("decoded"),
    }
    let mut source = buffer(&STEREO[..3]);
    let mut decoder = Decoder::new(PcmFrame::new(45, 48000, 2));
    match decoder.decode_frame(&mut source) {
        Err(DecodeError::Eof) => {}
        _ => panic!("decoded"),
    }
}

#[test]
fn a_sink_that_fails_ends_the_decoding() {
    let refuse = |sink: Deaf| Decoder::new(sink).decode(&mut buffer(&STEREO)).err().unwrap();
    assert_eq!(
        refuse(Deaf { describes: false, takes: 20, closes: true }),
        DecodeError::Write(DecodeWriteKind::SetDescriptor, Error::DescriptorSet)
    );
    assert_eq!(
        refuse(Deaf { describes: true, takes: 0, closes: true }),
        DecodeError::Write(DecodeWriteKind::Sample, Error::Write(String::from("deaf")))
    );
    match refuse(Deaf { describes: true, takes: 19, closes: true }) {
        DecodeError::Write(DecodeWriteKind::Sample, Error::Write(_)) => {}
        other => panic!("{:?}", other),
    }
    assert_eq!(
        refuse(Deaf { describes: true, takes: 20, closes: false }),
        DecodeError::SinkClose(Error::Other(String::from("open")))
    );
    assert!(Decoder::new(Deaf { describes: true, takes: 20, closes: true })
        .decode(&mut buffer(&STEREO))
        .is_ok());
}

#[test]
fn a_frame_that_is_too_small_takes_a_part_only() {
    let mut source = buffer(&STEREO);
    match Decoder::new(PcmFrame::new(30, 48000, 2)).decode(&mut source) {
        Err(DecodeError::Write(DecodeWriteKind::Sample, Error::Write(_))) => {}
        _ => panic!("decoded"),
    }
    let sink = Decoder::new(PcmFrame::new(45, 48000, 2)).decode(&mut buffer(&STEREO)).unwrap();
    assert!(sink.is_full());
    assert_eq!(sink.data()[..8], STEREO_BEGIN);
}

#[test]
fn the_end_of_a_source_is_an_error_of_its_own() {
    assert_eq!(DecodeError::from(ReadError::Eof), DecodeError::Eof);
    assert_eq!(
        DecodeError::from(ReadError::Other(String::from("x"))),
        DecodeError::Read(ReadError::Other(String::from("x")))
    );
    assert_eq!(buffer(&[]).read_long(), Err(ReadError::Eof));
}

#[test]
fn a_stream_that_fails_leaves_the_samples_before_the_fault() {
    let mut samples = vec![3i16, 4];
    assert_eq!(
        byte_decoder::Decoder::new().decode(&[0; 8], &mut samples),
        Err(byte_decoder::Error::UnknownMagic([0; 4]))
    );
    assert_eq!(samples, vec![3, 4]);
    assert_eq!(
        byte_decoder::Decoder::new().decode(&[], &mut samples),
        Err(byte_decoder::Error::Eos)
    );
    assert_eq!(samples, vec![3, 4]);

    let mut other = STEREO.to_vec();
    other.extend_from_slice(&mono(0, 1, 20)[1..]);
    let mut samples = Vec::new();
    assert_eq!(
        byte_decoder::Decoder::new().decode(&bytes(&other), &mut samples),
        Err(byte_decoder::Error::DescriptorChange(8000, 1))
    );
    assert_eq!(samples, from_bytes(&bytes(&STEREO)).unwrap().1);

    let mut cut = STEREO.to_vec();
    cut.extend_from_slice(&STEREO[1..9]);
    let mut samples = Vec::new();
    assert_eq!(
        byte_decoder::Decoder::new().decode(&bytes(&cut), &mut samples),
        Err(byte_decoder::Error::Eos)
    );
    assert_eq!(samples.len(), 90);
}

#[test]
fn a_decoder_over_buffers_fails_at_a_broken_stream_only() {
    assert!(Decoder::new(PcmBuffer::default()).decode(&mut buffer(&STEREO)).is_ok());
    let mut decoder = Decoder::new(PcmBuffer::default());
    let mut source = buffer(&mono(20, 1, 20));
    assert_eq!(decoder.decode_frame(&mut source), Ok(true));
    assert_eq!(decoder.decode_frame(&mut source), Ok(false));
    source.0.push_back(7);
    assert_eq!(decoder.decode_frame(&mut source), Ok(false));
    assert_eq!(source.0.len(), 1);
}

#[test]
fn the_sink_is_returned_with_the_descriptor_of_the_stream() {
    let mut source = buffer(&mono(0, 2, 20));
    let sink = Decoder::new(PcmBuffer::new(8)).decode(&mut source).unwrap();
    assert_eq!(sink.descriptor(), Ok((8000, 1)));
    assert_eq!(sink.len(), 40);

    let mut source = buffer(&[pack_file_header(0)]);
    let mut held = PcmBuffer::new(8);
    held.set_descriptor(44100, 2).unwrap();
    let sink = Decoder::new(held).decode(&mut source).unwrap();
    assert_eq!(sink.descriptor(), Ok((44100, 2)));
}
