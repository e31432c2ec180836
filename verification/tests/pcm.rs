use qoar::descriptor::{DescriptorError, StreamDescriptor};
use qoar::io::{Buffer, IntoSinkStream, IntoSourceStream, ReadError, SinkStream, SourceStream};
use qoar::pcm_io::{Error, PcmBuffer, PcmFrame, PcmSink, PcmSource, PcmStream};
use std::collections::VecDeque;

#[test]
fn a_descriptor_holds_what_a_stream_can_have() {
    assert!(StreamDescriptor::new(None, None, None).is_ok());
    let desc = StreamDescriptor::new(Some(1), Some(1), Some(1)).unwrap();
    assert_eq!((desc.samples(), desc.rate(), desc.channels()), (Some(1), Some(1), Some(1)));
    assert!(StreamDescriptor::new(Some(u32::MAX as usize), Some(16777215), Some(255)).is_ok());
    assert_eq!(
        StreamDescriptor::new(Some(0), Some(0), Some(0)),
        Err(DescriptorError::UnsupportedRate(0))
    );
    assert_eq!(
        StreamDescriptor::new(Some(0), Some(16777216), Some(0)),
        Err(DescriptorError::UnsupportedRate(16777216))
    );
    assert_eq!(StreamDescriptor::new(Some(0), None, Some(0)), Err(DescriptorError::NoSamples));
    assert_eq!(
        StreamDescriptor::new(Some(1 << 32), None, Some(0)),
        Err(DescriptorError::TooManySamples(1 << 32))
    );
    assert_eq!(StreamDescriptor::new(None, Some(8000), Some(0)), Err(DescriptorError::NoChannels));
    assert_eq!(
        StreamDescriptor::new(None, None, Some(256)),
        Err(DescriptorError::TooManyChannels(256))
    );
}

#[test]
fn a_suggestion_fills_what_is_not_known() {
    let mut desc = StreamDescriptor::default();
    assert!(desc.is_streaming());
    assert_eq!(desc.unwrap_all(), (0, 0, 0));
    desc.suggest_sample_rate(8000);
    desc.suggest_sample_rate(9000);
    desc.suggest_channel_count(2);
    desc.suggest_channel_count(3);
    desc.suggest_sample_count(50);
    desc.suggest_sample_count(70);
    assert_eq!(desc.unwrap_all(), (50, 8000, 2));
    desc.suggest_sample_count(20);
    assert_eq!(desc.samples(), Some(20));
    assert!(!desc.is_streaming());
}

#[test]
fn what_is_not_known_is_taken_from_another_descriptor() {
    let fallback = StreamDescriptor::new(Some(10), Some(8000), Some(2)).unwrap();
    let mut desc = StreamDescriptor::default();
    desc.suggest_sample_rate(0);
    desc.suggest_channel_count(0);
    desc.infer(&fallback);
    assert_eq!((desc.samples(), desc.rate(), desc.channels()), (Some(10), None, None));

    let mut desc = StreamDescriptor::default();
    desc.suggest_channel_count(4);
    desc.infer(&fallback);
    assert_eq!(desc.unwrap_all(), (10, 8000, 4));

    let mut option = None;
    StreamDescriptor::set(&mut option, &Some(5));
    assert_eq!(option, Some(5));
    StreamDescriptor::set(&mut option, &Some(6));
    assert_eq!(option, Some(5));
    StreamDescriptor::set(&mut option, &None);
    assert_eq!(option, Some(5));
}

#[test]
fn a_block_of_samples_tells_what_a_descriptor_lacks() {
    let samples = vec![0i16; 90];
    let nothing = StreamDescriptor::default();

    let mut desc = StreamDescriptor::default();
    desc.suggest_channel_count(2);
    desc.infer_from_vec(&samples, &nothing);
    assert_eq!(desc.unwrap_all(), (45, 0, 2));

    let mut desc = StreamDescriptor::default();
    desc.suggest_sample_count(30);
    desc.infer_from_vec(&samples, &nothing);
    assert_eq!(desc.unwrap_all(), (30, 0, 3));

    let mut desc = StreamDescriptor::default();
    desc.suggest_sample_count(100);
    desc.infer_from_vec(&samples, &nothing);
    assert_eq!(desc.unwrap_all(), (90, 0, 1));

    let mut desc = StreamDescriptor::default();
    desc.suggest_sample_count(100);
    desc.infer_from_vec(&Vec::new(), &nothing);
    assert_eq!(desc.unwrap_all(), (100, 0, 0));

    let mut desc = StreamDescriptor::default();
    desc.infer_from_vec(&samples, &nothing);
    assert_eq!(desc, nothing);
}

#[test]
fn a_buffer_of_words_is_a_queue() {
    let mut buffer = Buffer::new();
    buffer.write_long(1).unwrap();
    buffer.write_long(0x0102_0304_0506_0708).unwrap();
    buffer.flush().unwrap();
    assert_eq!(buffer.read_long(), Ok(1));
    buffer.write_long(3).unwrap();
    assert_eq!(buffer.clone().encode(), vec![1, 2, 3, 4, 5, 6, 7, 8, 0, 0, 0, 0, 0, 0, 0, 3]);
    assert_eq!(buffer.read_long(), Ok(0x0102_0304_0506_0708));
    assert_eq!(buffer.read_long(), Ok(3));
    assert_eq!(buffer.read_long(), Err(ReadError::Eof));
    assert_eq!(buffer.unwrap(), VecDeque::new());
}

#[test]
fn whole_words_are_taken_off_a_vector_of_bytes() {
    let mut bytes: Vec<u8> = (1..=19).collect();
    let buffer = Buffer::decode(&mut bytes);
    assert_eq!(bytes, vec![17, 18, 19]);
    assert_eq!(
        buffer.clone().unwrap(),
        VecDeque::from(vec![0x0102_0304_0506_0708, 0x090a_0b0c_0d0e_0f10])
    );
    assert_eq!(buffer.encode(), (1..=16).collect::<Vec<u8>>());
    let mut few = vec![1u8, 2];
    assert_eq!(Buffer::decode(&mut few), Buffer::new());
    assert_eq!(few, vec![1, 2]);
}

#[test]
fn a_stream_of_words_is_its_own_source_and_sink() {
    let queue = VecDeque::from(vec![4u64, 5]);
    let buffer = Buffer::from(queue).into_source().into_sink();
    assert_eq!(buffer, Buffer(VecDeque::from(vec![4, 5])));
    assert_eq!(Buffer::default(), Buffer::new());
}

#[test]
fn a_frame_holds_channels_up_to_its_size() {
    let mut frame = PcmFrame::new(4, 8000, 2);
    assert_eq!((frame.rate(), frame.channels()), (8000, 2));
    assert_eq!((frame.sample_rate(), frame.channel_count()), (8000, 2));
    assert!(frame.is_empty());
    assert_eq!(frame.sample_capacity(), 4);
    assert_eq!(frame.write(&[1, 2, 3], 0), Ok(3));
    assert!(frame.is_empty());
    assert_eq!(frame.len(), 0);
    assert_eq!(frame.sample_capacity(), 1);
    assert_eq!(frame.write(&[-1, -2, -3, -4, -5], 1), Ok(4));
    assert_eq!(frame.len(), 3);
    assert_eq!(frame.sample_count(), 3);
    assert!(!frame.is_full());
    assert_eq!(frame.data(), vec![1, -1, 2, -2, 3, -3]);
    assert_eq!(frame.write(&[4, 5], 0), Ok(1));
    assert!(frame.is_full());
    assert_eq!(frame.write(&[9], 0), Ok(0));
    assert_eq!(frame.sample_capacity(), 0);
    match frame.write(&[9], 2) {
        Err(Error::Write(_)) => {}
        _ => panic!("written"),
    }
    assert_eq!(frame.unwrap(), vec![1, -1, 2, -2, 3, -3, 4, -4]);
}

#[test]
fn a_frame_takes_interleaved_samples() {
    let mut frame = PcmFrame::new(3, 8000, 2);
    assert_eq!(frame.write_interleaved(&[1, -1, 2, -2, 3]), Ok(2));
    assert_eq!(frame.write_interleaved(&[3, -3, 4, -4]), Ok(1));
    assert_eq!(frame.data(), vec![1, -1, 2, -2, 3, -3]);
    frame.grow(2);
    assert_eq!(frame.write_interleaved(&[4, -4, 5, -5, 6, -6]), Ok(2));
    assert_eq!(frame.len(), 5);
    frame.grow(usize::MAX);
    assert_eq!(frame.sample_capacity(), usize::MAX - 5);
}

#[test]
fn a_frame_can_be_trimmed() {
    let mut frame = PcmFrame::new(10, 8000, 2);
    frame.write(&[1, 2, 3], 0).unwrap();
    frame.write(&[-1], 1).unwrap();
    frame.trim();
    assert!(frame.is_full());
    assert_eq!(frame.write(&[5], 1), Ok(0));
    assert_eq!(frame.data(), vec![1, -1]);
}

#[test]
fn a_frame_accepts_its_own_descriptor_only() {
    let mut frame = PcmFrame::new(10, 8000, 2);
    assert_eq!(frame.set_descriptor(8000, 2), Ok(()));
    assert_eq!(frame.set_descriptor(8000, 1), Err(Error::DescriptorSet));
    assert_eq!(frame.set_descriptor(8001, 2), Err(Error::DescriptorSet));
    assert_eq!(frame.flush(), Ok(()));
    assert_eq!(frame.close(), Ok(()));
    assert_eq!(frame.descriptor(), StreamDescriptor::new(None, Some(8000), Some(2)).unwrap());
}

#[test]
fn a_frame_delivers_its_first_samples() {
    let mut frame = PcmFrame::new(10, 8000, 2);
    frame.write_interleaved(&[1, -1, 2, -2, 3, -3]).unwrap();
    assert_eq!(frame.descriptor(), StreamDescriptor::new(Some(3), Some(8000), Some(2)).unwrap());
    let mut sink = PcmBuffer::default();
    assert_eq!(frame.read(&mut sink, 2), Ok(2));
    assert_eq!(frame.data(), vec![3, -3]);
    assert_eq!(frame.read(&mut sink, 2), Ok(1));
    assert_eq!(frame.read(&mut sink, 2), Ok(0));
    assert!(frame.is_empty());
    assert_eq!(sink.len(), 3);
    assert_eq!(sink.encode(), vec![1, 0, 255, 255, 2, 0, 254, 255, 3, 0, 253, 255]);

    let mut other = PcmFrame::new(10, 8000, 1);
    other.write(&[1], 0).unwrap();
    assert_eq!(other.read(&mut sink, 1), Err(Error::DescriptorSet));
    let mut small = PcmFrame::new(1, 8000, 1);
    let mut source = PcmFrame::new(2, 8000, 1);
    source.write(&[5, 6], 0).unwrap();
    match source.read(&mut small, 2) {
        Err(Error::Write(_)) => {}
        _ => panic!("read"),
    }
}

#[test]
fn a_buffer_needs_a_descriptor() {
    let mut buffer = PcmBuffer::new(4);
    assert!(buffer.is_empty());
    assert_eq!((buffer.sample_rate(), buffer.channel_count()), (0, 0));
    assert_eq!(buffer.descriptor(), Err(Error::UninitializedDescriptor));
    assert_eq!(buffer.write(&[1], 0), Err(Error::UninitializedDescriptor));
    assert_eq!(buffer.write_interleaved(&[1]), Err(Error::UninitializedDescriptor));
    assert_eq!(buffer.set_descriptor(0, 1), Err(Error::UninitializedDescriptor));
    assert_eq!(buffer.set_descriptor(8000, 0), Err(Error::UninitializedDescriptor));
    assert!(buffer.frame().is_none());
    assert_eq!(buffer.set_descriptor(8000, 2), Ok(()));
    assert_eq!(buffer.descriptor(), Ok((8000, 2)));
    assert_eq!(buffer.set_descriptor(8000, 2), Ok(()));
    assert_eq!(buffer.set_descriptor(8000, 1), Err(Error::DescriptorSet));
    assert_eq!(buffer.frame().unwrap().channels(), 2);
    assert_eq!(buffer.sample_capacity(), usize::MAX);
    assert_eq!(PcmSource::descriptor(&buffer), StreamDescriptor::new(None, Some(8000), Some(2)).unwrap());
}

#[test]
fn a_buffer_grows_frame_by_frame() {
    let mut buffer = PcmBuffer::new(2);
    buffer.set_descriptor(8000, 2).unwrap();
    assert_eq!(buffer.write(&[1, 2, 3], 0), Ok(3));
    assert_eq!(buffer.write(&[-1, -2, -3], 1), Ok(3));
    match buffer.write(&[0], 2) {
        Err(Error::Write(_)) => {}
        _ => panic!("written"),
    }
    assert_eq!(buffer.len(), 3);
    buffer.set_descriptor(8000, 2).unwrap();
    assert_eq!(buffer.write_interleaved(&[4, -4, 5]), Ok(1));
    assert_eq!(buffer.len(), 4);
    assert_eq!(buffer.sample_count(), 4);
    let frames = buffer.clone().unwrap();
    assert_eq!(frames.len(), 2);
    assert_eq!(frames[0].data(), vec![1, -1, 2, -2, 3, -3]);
    assert_eq!(frames[1].data(), vec![4, -4]);
    assert_eq!(
        buffer.encode(),
        vec![1, 0, 255, 255, 2, 0, 254, 255, 3, 0, 253, 255, 4, 0, 252, 255]
    );

    let mut sink = PcmFrame::new(10, 8000, 2);
    assert_eq!(buffer.read(&mut sink, 2), Ok(2));
    assert_eq!(buffer.read(&mut sink, 2), Ok(1));
    assert_eq!(buffer.read(&mut sink, 2), Ok(1));
    assert_eq!(buffer.read(&mut sink, 2), Ok(0));
    assert!(buffer.is_empty());
    assert_eq!(buffer.channel_count(), 2);
    assert_eq!(sink.data(), vec![1, -1, 2, -2, 3, -3, 4, -4]);
    buffer.write(&[9], 0).unwrap();
    buffer.clear();
    assert!(buffer.frame().is_none());
    assert!(buffer.is_empty());
    assert_eq!(buffer.sample_count(), 0);
    assert_eq!((buffer.sample_rate(), buffer.channel_count()), (0, 0));
    assert_eq!(buffer.descriptor(), Err(Error::UninitializedDescriptor));
    assert_eq!(buffer.set_descriptor(9000, 1), Ok(()));
}

#[test]
fn frames_are_equal_whatever_their_limits() {
    let mut small = PcmFrame::new(4, 8000, 2);
    let mut large = PcmFrame::new(9, 8000, 2);
    assert_eq!(small, large);
    small.write_interleaved(&[1, -1, 2, -2]).unwrap();
    assert_ne!(small, large);
    large.write_interleaved(&[1, -1, 2, -2]).unwrap();
    assert_eq!(small, large);
    large.write(&[3], 1).unwrap();
    assert_ne!(small, large);
    small.write(&[3], 1).unwrap();
    assert_eq!(small, large);
    small.write(&[4], 0).unwrap();
    large.write(&[5], 0).unwrap();
    assert_ne!(small, large);
    assert_ne!(PcmFrame::new(4, 8000, 2), PcmFrame::new(4, 8000, 1));
    assert_ne!(PcmFrame::new(4, 8000, 2), PcmFrame::new(4, 9000, 2));
}
