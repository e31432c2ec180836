use qoar::byte_decoder;
use qoar::descriptor::{DescriptorError, StreamDescriptor};
use qoar::io::{Buffer, SinkStream, WriteError, WriteResult};
use qoar::layout::unpack_frame_header;
use qoar::pcm_io::{Error, PcmBuffer, PcmFrame, PcmSink, PcmSource, PcmStream};
use qoar::{EncodeError, Encoder, LinearScaler, WriteKind};

const STEREO: [u64; 12] = [
    0x716f_6166_0000_0000,
    0x0200_bb80_002d_0060,
    0x0,
    0xe000_4000,
    0x0,
    0xe000_4000,
    0xf5f1_6f7d_f59d_1614,
    0xf4ea_df79_5477_5653,
    0xf770_e85c_5ea9_d564,
    0xf285_1736_a53b_cad3,
    0xefa4_6000_0000_0000,
    0xd696_e000_0000_0000,
];

fn noise(len: usize) -> Vec<i16> {
    let mut out = Vec::new();
    let mut x: u64 = 12345;
    for _ in 0..len {
        x = (x * 1103515245 + 12345) % (1 << 31);
        out.push((((x >> 8) % 20001) as i64 - 10000) as i16);
    }
    out
}

fn described(rate: u32, channels: usize) -> StreamDescriptor {
    let mut desc = StreamDescriptor::default();
    desc.suggest_sample_rate(rate);
    desc.suggest_channel_count(channels);
    desc
}

fn words(buffer: Buffer) -> Vec<u64> {
    buffer.unwrap().into_iter().collect()
}

fn decoded(stream: &[u64]) -> Vec<i16> {
    let mut bytes = Vec::new();
    for word in stream {
        bytes.extend_from_slice(&word.to_be_bytes());
    }
    let mut samples = Vec::new();
    let read = byte_decoder::Decoder::new().decode(&bytes, &mut samples).unwrap();
    assert_eq!(read, bytes.len());
    samples
}

/// The places of the frame headers in a stream.
fn frames(stream: &[u64]) -> Vec<(usize, u8, u32, u16, u16)> {
    let mut out = Vec::new();
    let mut at = 1;
    while at < stream.len() {
        let (channels, rate, samples, size) = unpack_frame_header(stream[at]);
        out.push((at, channels, rate, samples, size));
        let slices = (samples as usize + 19) / 20;
        at += 1 + 2 * channels as usize + slices * channels as usize;
    }
    assert_eq!(at, stream.len());
    out
}

struct Failing {
    room: usize,
    flushes: bool,
}

impl SinkStream for Failing {
    fn write_long(&mut self, _value: u64) -> WriteResult {
        if self.room == 0 {
            Err(WriteError::Other(String::from("full")))
        } else {
            self.room -= 1;
            Ok(())
        }
    }

    fn flush(&mut self) -> WriteResult {
        if self.flushes {
            Ok(())
        } else {
            Err(WriteError::Io(String::from("stuck")))
        }
    }
}

struct Broken;

impl PcmStream for Broken {
    fn channel_count(&self) -> usize {
        1
    }

    fn sample_rate(&self) -> u32 {
        8000
    }
}

impl PcmSource for Broken {
    fn read<K: PcmSink>(&mut self, _buf: &mut K, _sample_count: usize) -> Result<usize, Error> {
        Err(Error::Read(String::from("gone")))
    }

    fn sample_count(&self) -> usize {
        0
    }
}

#[test]
fn a_stream_of_unknown_length_is_encoded_to_known_words() {
    let mut samples = noise(90);
    let mut encoder = Encoder::new_streaming(Buffer::new());
    encoder.encode_vec(&mut samples, described(48000, 2)).unwrap();
    assert!(samples.is_empty());
    let stream = words(encoder.close().unwrap().unwrap());
    assert_eq!(stream, STEREO);
}

#[test]
fn the_sixteen_lane_encoder_writes_the_same_words() {
    let mut samples = noise(90);
    let mut encoder = Encoder::new_streaming_simd(Buffer::new());
    encoder.encode_vec(&mut samples, described(48000, 2)).unwrap();
    assert_eq!(words(encoder.close().unwrap().unwrap()), STEREO);

    let mut samples = noise(90);
    let mut fixed = Encoder::new_fixed_simd(45, 48000, 2, Buffer::new()).unwrap();
    fixed.encode_vec(&mut samples, StreamDescriptor::default()).unwrap();
    let stream = words(fixed.close().unwrap().unwrap());
    assert_eq!(stream[0], 0x716f_6166_0000_002d);
    assert_eq!(stream[1..], STEREO[1..]);
}

#[test]
fn silence_of_one_frame_is_encoded_to_one_frame() {
    let mut samples = vec![0i16; 5120];
    let mut encoder = Encoder::new_fixed(5120, 44100, 1, Buffer::new()).unwrap();
    encoder.encode_vec(&mut samples, StreamDescriptor::default()).unwrap();
    let stream = words(encoder.close().unwrap().unwrap());
    assert_eq!(stream.len(), 260);
    assert_eq!(stream[0], 0x716f_6166_0000_1400);
    assert_eq!(stream[1], 0x0100_ac44_1400_0818);
    assert_eq!(stream[2], 0);
    assert_eq!(stream[3], 0xe000_4000);
    assert_eq!(stream[4], 0x00d1_0d02_0005_1451);
    for slice in &stream[5..] {
        assert_eq!(*slice, 0x0451_4514_5145_1451);
    }
    let back = decoded(&stream);
    assert_eq!(back.len(), 5120);
    for sample in back {
        assert!(sample.abs() <= 1);
    }
}

#[test]
fn a_sine_wave_comes_back_close_to_itself() {
    let mut samples = Vec::new();
    for i in 0..5120 {
        let phase = 2.0 * std::f64::consts::PI * 440.0 * i as f64 / 48000.0;
        let value = (10000.0 * phase.sin()).round() as i16;
        samples.push(value);
        samples.push(-value / 2);
    }
    let original = samples.clone();
    let mut encoder = Encoder::new_fixed(5120, 48000, 2, Buffer::new()).unwrap();
    encoder.encode_vec(&mut samples, StreamDescriptor::default()).unwrap();
    let stream = words(encoder.close().unwrap().unwrap());
    assert_eq!(frames(&stream).len(), 1);
    assert_eq!(stream.len(), 518);
    let back = decoded(&stream);
    assert_eq!(back.len(), original.len());
    let mut error = 0.0;
    for (a, b) in original.iter().zip(back.iter()) {
        let diff = *a as f64 - *b as f64;
        error += diff * diff;
    }
    let psnr = 10.0 * (65535.0 * 65535.0 / (error / original.len() as f64)).log10();
    assert!(psnr > 30.0);
}

#[test]
fn a_hundred_samples_are_one_frame_of_five_slices() {
    let mut samples = noise(200);
    let mut encoder = Encoder::new_streaming(Buffer::new());
    encoder.encode_vec(&mut samples, described(22050, 2)).unwrap();
    let stream = words(encoder.close().unwrap().unwrap());
    assert_eq!(stream[0] & 0xffff_ffff, 0);
    assert_eq!(frames(&stream), vec![(1, 2, 22050, 100, 24 * 2 + 8 * 5 * 2)]);
    assert_eq!(stream.len(), 1 + 1 + 4 + 10);
    assert_eq!(decoded(&stream).len(), 200);
}

#[test]
fn missing_samples_are_made_up_with_silence() {
    let mut samples = noise(800);
    let mut encoder = Encoder::new_fixed(1000, 8000, 1, Buffer::new()).unwrap();
    encoder.encode_vec(&mut samples, StreamDescriptor::default()).unwrap();
    let stream = words(encoder.close().unwrap().unwrap());
    assert_eq!(stream[0] & 0xffff_ffff, 1000);
    assert_eq!(frames(&stream), vec![(1, 1, 8000, 1000, 24 + 8 * 50)]);
    let back = decoded(&stream);
    assert_eq!(back.len(), 1000);

    let mut whole = noise(800);
    whole.extend_from_slice(&[0i16; 200]);
    let mut other = Encoder::new_fixed(1000, 8000, 1, Buffer::new()).unwrap();
    other.encode_vec(&mut whole, StreamDescriptor::default()).unwrap();
    assert_eq!(words(other.close().unwrap().unwrap()), stream);
}

#[test]
fn full_frames_and_a_rest_make_one_frame_more() {
    for (k, r) in [(1usize, 0usize), (2, 0), (0, 1), (0, 19), (1, 21), (2, 5119), (1, 100)] {
        let count = k * 5120 + r;
        let mut samples = noise(count);
        let mut encoder = Encoder::new_streaming(Buffer::new());
        encoder.encode_vec(&mut samples, described(44100, 1)).unwrap();
        let stream = words(encoder.close().unwrap().unwrap());
        let found = frames(&stream);
        assert_eq!(found.len(), k + if r > 0 { 1 } else { 0 });
        for frame in &found[..k] {
            assert_eq!(frame.3, 5120);
        }
        if r > 0 {
            let last = found[k];
            assert_eq!(last.3 as usize, r);
            let slices = (r + 19) / 20;
            assert_eq!(stream.len() - last.0, 1 + 2 + slices);
            let unused = (20 * slices - r) * 3;
            assert_eq!(stream[stream.len() - 1] & ((1u64 << unused) - 1), 0);
        }
        assert_eq!(decoded(&stream).len(), count);
    }
}

#[test]
fn samples_of_a_known_length_may_come_in_any_portions() {
    let all = noise(2 * 5300);
    let mut whole = all.clone();
    let mut one = Encoder::new_fixed(5300, 32000, 2, Buffer::new()).unwrap();
    one.encode_vec(&mut whole, StreamDescriptor::default()).unwrap();
    let expected = words(one.close().unwrap().unwrap());
    assert_eq!(frames(&expected).len(), 2);

    let mut parts = Encoder::new_fixed(5300, 32000, 2, Buffer::new()).unwrap();
    for part in all.chunks(2 * 37) {
        let mut part = part.to_vec();
        parts.encode_vec(&mut part, StreamDescriptor::default()).unwrap();
        assert!(part.is_empty());
    }
    assert_eq!(words(parts.close().unwrap().unwrap()), expected);
}

#[test]
fn more_than_the_declared_samples_stays_with_the_caller() {
    let mut samples = noise(50);
    let mut encoder = Encoder::new_fixed(40, 8000, 1, Buffer::new()).unwrap();
    encoder.encode_vec(&mut samples, StreamDescriptor::default()).unwrap();
    assert_eq!(samples, noise(50)[40..].to_vec());
    let stream = words(encoder.close().unwrap().unwrap());
    assert_eq!(decoded(&stream).len(), 40);
}

#[test]
fn a_part_of_a_sample_for_all_channels_stays_with_the_caller() {
    let mut samples = noise(47);
    let mut encoder = Encoder::new_streaming(Buffer::new());
    encoder.encode_vec(&mut samples, described(8000, 2)).unwrap();
    assert_eq!(samples.len(), 1);
    let stream = words(encoder.close().unwrap().unwrap());
    assert_eq!(decoded(&stream).len(), 46);
}

#[test]
fn a_limit_on_the_samples_is_kept() {
    let mut samples = noise(100);
    let mut desc = described(8000, 1);
    desc.suggest_sample_count(30);
    let mut encoder = Encoder::new_streaming(Buffer::new());
    encoder.encode_vec(&mut samples, desc).unwrap();
    assert_eq!(samples.len(), 70);
    let stream = words(encoder.close().unwrap().unwrap());
    assert_eq!(frames(&stream), vec![(1, 1, 8000, 30, 24 + 16)]);
}

#[test]
fn the_channel_count_follows_from_the_sample_count() {
    let mut samples = noise(90);
    let mut desc = StreamDescriptor::default();
    desc.suggest_sample_rate(48000);
    desc.suggest_sample_count(45);
    let mut encoder = Encoder::new_streaming(Buffer::new());
    encoder.encode_vec(&mut samples, desc).unwrap();
    assert_eq!(words(encoder.close().unwrap().unwrap()), STEREO);
}

#[test]
fn a_closed_encoder_encodes_nothing() {
    let mut encoder = Encoder::new_streaming(Buffer::new());
    assert!(encoder.close().unwrap().is_ok());
    assert!(encoder.close().is_none());
    let mut samples = noise(10);
    assert_eq!(encoder.encode_vec(&mut samples, described(8000, 1)), Err(EncodeError::Closed));
    assert_eq!(encoder.flush(), Err(EncodeError::Closed));
    assert_eq!(encoder.encode(&mut PcmBuffer::default()), Err(EncodeError::Closed));
    assert_eq!(samples.len(), 10);
}

#[test]
fn an_encoder_without_samples_writes_the_file_header_at_most() {
    let mut unknown = Encoder::new_streaming(Buffer::new());
    unknown.flush().unwrap();
    assert_eq!(words(unknown.close().unwrap().unwrap()), Vec::<u64>::new());

    let mut known = Encoder::new_fixed(3, 8000, 1, Buffer::new()).unwrap();
    known.flush().unwrap();
    let stream = words(known.close().unwrap().unwrap());
    assert_eq!(stream[0], 0x716f_6166_0000_0003);
    assert_eq!(frames(&stream), vec![(1, 1, 8000, 3, 24 + 8)]);
    assert_eq!(decoded(&stream), vec![1, -1, 0]);
}

#[test]
fn a_descriptor_that_no_stream_can_have_is_refused() {
    let refused = |samples, rate, channels| match Encoder::new_fixed(
        samples,
        rate,
        channels,
        Buffer::new(),
    ) {
        Err(error) => error,
        Ok(_) => panic!("accepted"),
    };
    assert_eq!(
        refused(10, 0, 1),
        EncodeError::InvalidDescriptor(DescriptorError::UnsupportedRate(0))
    );
    assert_eq!(
        refused(10, 1 << 24, 1),
        EncodeError::InvalidDescriptor(DescriptorError::UnsupportedRate(1 << 24))
    );
    assert_eq!(refused(0, 8000, 1), EncodeError::InvalidDescriptor(DescriptorError::NoSamples));
    assert_eq!(refused(10, 8000, 0), EncodeError::InvalidDescriptor(DescriptorError::NoChannels));
    assert_eq!(
        refused(10, 8000, 256),
        EncodeError::InvalidDescriptor(DescriptorError::TooManyChannels(256))
    );
    assert_eq!(
        refused(1 << 32, 8000, 1),
        EncodeError::InvalidDescriptor(DescriptorError::TooManySamples(1 << 32))
    );
    assert!(Encoder::new_fixed(u32::MAX as usize, (1 << 24) - 1, 255, Buffer::new()).is_ok());

    let mut streaming = Encoder::new_streaming(Buffer::new());
    let mut samples = noise(600);
    assert_eq!(
        streaming.encode_vec(&mut samples, described(8000, 300)),
        Err(EncodeError::InvalidDescriptor(DescriptorError::TooManyChannels(300)))
    );
    assert_eq!(samples.len(), 600);
}

#[test]
fn the_descriptor_of_a_stream_cannot_change() {
    let mut fixed = Encoder::new_fixed(100, 8000, 1, Buffer::new()).unwrap();
    let mut samples = noise(10);
    assert_eq!(
        fixed.encode_vec(&mut samples, described(8001, 1)),
        Err(EncodeError::InvalidDescriptorChange)
    );
    assert_eq!(
        fixed.encode_vec(&mut samples, described(8000, 2)),
        Err(EncodeError::InvalidDescriptorChange)
    );
    assert_eq!(fixed.encode_vec(&mut samples, described(8000, 1)), Ok(()));

    let mut streaming = Encoder::new_streaming(Buffer::new());
    let mut samples = noise(10);
    streaming.encode_vec(&mut samples, described(8000, 1)).unwrap();
    let mut samples = noise(10);
    assert_eq!(
        streaming.encode_vec(&mut samples, described(16000, 1)),
        Err(EncodeError::InvalidDescriptorChange)
    );
    assert_eq!(streaming.encode_vec(&mut samples, StreamDescriptor::default()), Ok(()));
    assert!(samples.is_empty());
}

#[test]
fn samples_without_a_descriptor_wait() {
    let mut encoder = Encoder::new_streaming(Buffer::new());
    let mut samples = noise(10);
    assert_eq!(encoder.encode_vec(&mut samples, StreamDescriptor::default()), Ok(()));
    assert_eq!(samples.len(), 10);
}

#[test]
fn a_sink_that_refuses_a_word_ends_the_encoding() {
    let kinds = [
        WriteKind::FileHeader,
        WriteKind::FrameHeader,
        WriteKind::LmsState("history"),
        WriteKind::LmsState("weights"),
        WriteKind::LmsState("history"),
        WriteKind::LmsState("weights"),
        WriteKind::SliceData(0),
        WriteKind::SliceData(1),
        WriteKind::SliceData(0),
    ];
    for (room, kind) in kinds.iter().enumerate() {
        let mut encoder = Encoder::new_streaming(Failing { room, flushes: true });
        let mut samples = noise(90);
        match encoder.encode_vec(&mut samples, described(48000, 2)) {
            Err(EncodeError::Write(at, WriteError::Other(why))) => {
                assert_eq!(at, *kind);
                assert_eq!(why, "full");
            }
            other => panic!("{:?}", other),
        }
    }
    let mut encoder = Encoder::new_streaming(Failing { room: 12, flushes: true });
    let mut samples = noise(90);
    assert_eq!(encoder.encode_vec(&mut samples, described(48000, 2)), Ok(()));
}

#[test]
fn a_sink_that_cannot_flush_ends_the_encoding() {
    let mut encoder = Encoder::new_streaming(Failing { room: 100, flushes: false });
    let mut samples = noise(90);
    assert_eq!(
        encoder.encode_vec(&mut samples, described(48000, 2)),
        Err(EncodeError::Flush(WriteError::Io(String::from("stuck"))))
    );
    match encoder.close() {
        Some(Err(EncodeError::Flush(_))) => {}
        _ => panic!("closed"),
    }
}

#[test]
fn a_source_is_encoded_until_it_is_exhausted() {
    let all = noise(90);
    let mut source = PcmBuffer::new(16);
    source.set_descriptor(48000, 2).unwrap();
    assert_eq!(source.write_interleaved(&all), Ok(45));
    let mut encoder = Encoder::new_fixed(45, 48000, 2, Buffer::new()).unwrap();
    encoder.encode(&mut source).unwrap();
    assert!(source.is_empty());
    let stream = words(encoder.close().unwrap().unwrap());
    assert_eq!(stream[0], 0x716f_6166_0000_002d);
    assert_eq!(stream[1..], STEREO[1..]);
}

#[test]
fn a_source_of_unknown_length_is_framed_as_it_delivers() {
    let all = noise(90);
    let mut source = PcmFrame::new(45, 48000, 2);
    assert_eq!(source.write_interleaved(&all), Ok(45));
    let mut encoder: Encoder<Buffer, LinearScaler> = Encoder::new_streaming(Buffer::new());
    encoder.encode(&mut source).unwrap();
    assert_eq!(words(encoder.close().unwrap().unwrap()), STEREO);
}

#[test]
fn a_source_of_other_channels_is_refused() {
    let mut source = PcmFrame::new(45, 48000, 2);
    let mut encoder = Encoder::new_fixed(45, 48000, 1, Buffer::new()).unwrap();
    assert_eq!(encoder.encode(&mut source), Err(EncodeError::InvalidDescriptorChange));
    let mut other = Encoder::new_fixed(45, 44100, 2, Buffer::new()).unwrap();
    assert_eq!(other.encode(&mut source), Err(EncodeError::InvalidDescriptorChange));
}

#[test]
fn a_source_that_fails_ends_the_encoding() {
    let mut encoder = Encoder::new_streaming(Buffer::new());
    assert_eq!(
        encoder.encode(&mut Broken),
        Err(EncodeError::SampleRead(Error::Read(String::from("gone"))))
    );
}

#[test]
fn a_source_without_a_descriptor_is_left_alone() {
    let mut encoder = Encoder::new_streaming(Buffer::new());
    let mut source = PcmBuffer::default();
    assert_eq!(encoder.encode(&mut source), Ok(()));
    assert_eq!(words(encoder.close().unwrap().unwrap()), Vec::<u64>::new());
}

struct Reported {
    rate: u32,
    channels: usize,
    samples: usize,
    reads: usize,
}

impl PcmStream for Reported {
    fn channel_count(&self) -> usize {
        self.channels
    }

    fn sample_rate(&self) -> u32 {
        self.rate
    }
}

impl PcmSource for Reported {
    fn read<K: PcmSink>(&mut self, _buf: &mut K, _sample_count: usize) -> Result<usize, Error> {
        self.reads += 1;
        Ok(0)
    }

    fn sample_count(&self) -> usize {
        self.samples
    }
}

#[test]
fn what_a_source_reports_is_held_against_the_stream_first() {
    let refused = |rate: u32, channels: usize, samples: usize| {
        let mut encoder = Encoder::new_fixed(100, 44100, 2, Buffer::new()).unwrap();
        let mut source = Reported { rate, channels, samples, reads: 0 };
        let result = encoder.encode(&mut source);
        assert_eq!(source.reads, 0);
        assert_eq!(words(encoder.close().unwrap().unwrap()).len(), 1 + 1 + 4 + 10);
        result
    };
    assert_eq!(refused(48000, 2, 10), Err(EncodeError::InvalidDescriptorChange));
    assert_eq!(refused(1 << 24, 2, 10), Err(EncodeError::InvalidDescriptorChange));
    assert_eq!(refused(u32::MAX, 2, 0), Err(EncodeError::InvalidDescriptorChange));
    assert_eq!(refused(48000, 2, usize::MAX), Err(EncodeError::InvalidDescriptorChange));
    assert_eq!(refused(44100, 1, 10), Err(EncodeError::InvalidDescriptorChange));
    assert_eq!(refused(44100, 300, 10), Err(EncodeError::InvalidDescriptorChange));
    assert_eq!(refused(0, 3, 10), Err(EncodeError::InvalidDescriptorChange));
    assert_eq!(refused(44100, 0, 10), Ok(()));
    assert_eq!(refused(0, 0, 10), Ok(()));

    let mut encoder = Encoder::new_fixed(100, 44100, 2, Buffer::new()).unwrap();
    let mut same = Reported { rate: 44100, channels: 2, samples: usize::MAX, reads: 0 };
    assert_eq!(encoder.encode(&mut same), Ok(()));
    assert_eq!(same.reads, 1);
    let mut unknown = Reported { rate: 0, channels: 2, samples: 0, reads: 0 };
    assert_eq!(encoder.encode(&mut unknown), Ok(()));
    assert_eq!(unknown.reads, 1);
}

#[test]
fn a_stream_of_unknown_length_takes_what_the_source_reports() {
    let fresh = |rate: u32, channels: usize| {
        let mut encoder = Encoder::new_streaming(Buffer::new());
        let mut source = Reported { rate, channels, samples: 0, reads: 0 };
        (encoder.encode(&mut source), source.reads)
    };
    assert_eq!(
        fresh(1 << 24, 2),
        (Err(EncodeError::InvalidDescriptor(DescriptorError::UnsupportedRate(1 << 24))), 0)
    );
    assert_eq!(
        fresh(8000, 256),
        (Err(EncodeError::InvalidDescriptor(DescriptorError::TooManyChannels(256))), 0)
    );
    assert_eq!(fresh(0, 2), (Ok(()), 0));
    assert_eq!(fresh(8000, 0), (Ok(()), 0));
    assert_eq!(fresh(8000, 2), (Ok(()), 1));
}

#[test]
fn an_encoder_over_a_buffer_does_not_fail() {
    let mut encoder = Encoder::new_streaming(Buffer::new());
    for part in noise(20000).chunks(333) {
        let mut part = part.to_vec();
        assert_eq!(encoder.encode_vec(&mut part, described(8000, 3)), Ok(()));
        assert_eq!(encoder.flush(), Ok(()));
    }
    assert!(matches!(encoder.close(), Some(Ok(_))));
}

#[test]
fn a_long_source_is_encoded_to_its_end() {
    let all = noise(12000);
    let mut expected = Encoder::new_streaming(Buffer::new());
    expected.encode_vec(&mut all.clone(), described(8000, 2)).unwrap();
    let expected = words(expected.close().unwrap().unwrap());

    let mut frame = PcmFrame::new(6000, 8000, 2);
    assert_eq!(frame.write_interleaved(&all), Ok(6000));
    let mut encoder = Encoder::new_streaming(Buffer::new());
    assert_eq!(encoder.encode(&mut frame), Ok(()));
    assert!(frame.is_empty());
    assert_eq!(words(encoder.close().unwrap().unwrap()), expected);

    let mut buffer = PcmBuffer::new(77);
    buffer.set_descriptor(8000, 2).unwrap();
    assert_eq!(buffer.write_interleaved(&all), Ok(6000));
    let mut encoder = Encoder::new_streaming(Buffer::new());
    assert_eq!(encoder.encode(&mut buffer), Ok(()));
    assert!(buffer.is_empty());
    let stream = words(encoder.close().unwrap().unwrap());
    assert_eq!(stream, expected);
    assert_eq!(decoded(&stream).len(), 12000);
}

#[test]
fn a_source_of_a_known_length_is_read_as_far_as_declared() {
    let all = noise(200);
    let mut frame = PcmFrame::new(100, 8000, 2);
    assert_eq!(frame.write_interleaved(&all), Ok(100));
    let mut encoder = Encoder::new_fixed(60, 8000, 2, Buffer::new()).unwrap();
    assert_eq!(encoder.encode(&mut frame), Ok(()));
    assert_eq!(frame.len(), 40);
    assert_eq!(frame.data(), all[120..].to_vec());
    let stream = words(encoder.close().unwrap().unwrap());
    assert_eq!(decoded(&stream), {
        let mut first = Encoder::new_fixed(60, 8000, 2, Buffer::new()).unwrap();
        first.encode_vec(&mut all[..120].to_vec(), StreamDescriptor::default()).unwrap();
        decoded(&words(first.close().unwrap().unwrap()))
    });
}

struct Plain {
    left: Vec<i16>,
}

impl PcmStream for Plain {
    fn channel_count(&self) -> usize {
        1
    }

    fn sample_rate(&self) -> u32 {
        8000
    }
}

impl PcmSource for Plain {
    fn read<K: PcmSink>(&mut self, buf: &mut K, sample_count: usize) -> Result<usize, Error> {
        let n = sample_count.min(self.left.len()).min(7);
        let taken = buf.write(&self.left[..n], 0)?;
        self.left.drain(..taken);
        Ok(taken)
    }

    fn sample_count(&self) -> usize {
        self.left.len()
    }
}

#[test]
fn a_source_may_deliver_in_small_portions() {
    let all = noise(50);
    let mut expected = Encoder::new_fixed(50, 8000, 1, Buffer::new()).unwrap();
    expected.encode_vec(&mut all.clone(), StreamDescriptor::default()).unwrap();
    let mut source = Plain { left: all };
    let mut encoder = Encoder::new_fixed(50, 8000, 1, Buffer::new()).unwrap();
    assert_eq!(encoder.encode(&mut source), Ok(()));
    assert!(source.left.is_empty());
    assert_eq!(
        words(encoder.close().unwrap().unwrap()),
        words(expected.close().unwrap().unwrap())
    );
}

#[test]
fn every_call_ends_its_frames_in_a_stream_of_unknown_length() {
    let mut encoder = Encoder::new_streaming(Buffer::new());
    for size in [2560usize, 2560, 5120, 10240, 30] {
        let mut part = noise(size);
        encoder.encode_vec(&mut part, described(8000, 1)).unwrap();
        assert!(part.is_empty());
    }
    let stream = words(encoder.close().unwrap().unwrap());
    let found = frames(&stream);
    let samples: Vec<u16> = found.iter().map(|frame| frame.3).collect();
    assert_eq!(samples, vec![2560, 2560, 5120, 5120, 5120, 30]);
    assert_eq!(stream.len(), 1 + 2 * (3 + 128) + 3 * (3 + 256) + (3 + 2));
    assert_eq!(decoded(&stream).len(), 2560 * 2 + 5120 * 3 + 30);
}

#[test]
fn the_last_slice_of_every_channel_is_padded() {
    for count in [1usize, 7, 19, 21, 5127] {
        let mut samples = noise(3 * count);
        let mut encoder = Encoder::new_streaming(Buffer::new());
        encoder.encode_vec(&mut samples, described(8000, 3)).unwrap();
        let stream = words(encoder.close().unwrap().unwrap());
        let unused = 3 * (20 - count % 20);
        for word in &stream[stream.len() - 3..] {
            assert_eq!(word & ((1u64 << unused) - 1), 0);
        }
        assert_eq!(decoded(&stream).len(), 3 * count);
    }
}
