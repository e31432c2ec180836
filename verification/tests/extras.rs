use qoar::decoder::{dec_file_header, dec_frame_header, dec_lms, dec_slice, DecodeError, Decoder};
use qoar::encoder::{enc_file_header, enc_frame_header, enc_lms_state, enc_prelude, enc_slice};
use qoar::io::{push_be_bytes, read_be_word, Buffer, SinkStream, SourceStream};
use std::collections::VecDeque;
use qoar::pcm_io::{read_all, write_frame, Error, PcmBuffer, PcmFrame, PcmSink, PcmSource};
use qoar::util::Then;
use qoar::{Frame, LinearScaler, QoaLmsState, QoaSlice, VectorScaler};

fn noise(len: usize) -> Vec<i16> {
    let mut out = Vec::new();
    let mut x: u64 = 12345;
    for _ in 0..len {
        x = (x * 1103515245 + 12345) % (1 << 31);
        out.push((((x >> 8) % 20001) as i64 - 10000) as i16);
    }
    out
}

#[test]
fn a_condition_gives_a_value_or_an_error() {
    assert_eq!(true.then_ok::<u8, u16>(3), Ok(3));
    assert_eq!(false.then_ok::<u8, u16>(3), Err(0));
    assert_eq!(true.then_err::<u8, u16>(4), Err(4));
    assert_eq!(false.then_err::<u8, u16>(4), Ok(0));
    assert_eq!(true.and_then(|| Some(5)), Some(5));
    assert_eq!(true.and_then(|| None::<u8>), None);
    assert_eq!(false.and_then(|| Some(5)), None);
}

#[test]
fn what_is_written_word_by_word_can_be_read_word_by_word() {
    let mut buffer = Buffer::new();
    let lms = QoaLmsState { history: [1, -2, 3, -4], weights: [-5, 6, -7, 8] };
    enc_file_header(&mut buffer, 77).unwrap();
    enc_frame_header(&mut buffer, 3, 44100, 20, 144).unwrap();
    enc_lms_state(&mut buffer, &lms).unwrap();
    enc_prelude(&mut buffer, &vec![lms, QoaLmsState::default()]).unwrap();
    let slice = QoaSlice { quant: 7, resid: [5; 20] };
    buffer.write_long(slice.pack()).unwrap();
    assert_eq!(buffer.0.len(), 9);

    assert_eq!(dec_file_header(&mut buffer), Ok(77));
    assert_eq!(dec_frame_header(&mut buffer), Ok((3, 44100, 20, 144)));
    let mut states = vec![QoaLmsState::default(); 3];
    assert_eq!(dec_lms(&mut buffer, &mut states), Ok(()));
    assert_eq!(states, vec![lms, lms, QoaLmsState::default()]);
    let mut back = QoaSlice::default();
    assert_eq!(dec_slice(&mut buffer, &mut back), Ok(()));
    assert_eq!(back, slice);
    assert_eq!(dec_slice(&mut buffer, &mut back), Err(DecodeError::Eof));
    assert_eq!(dec_file_header(&mut buffer), Err(DecodeError::Eof));
    assert_eq!(dec_frame_header(&mut buffer), Err(DecodeError::Eof));
    assert_eq!(dec_lms(&mut buffer, &mut states), Err(DecodeError::Eof));
    assert_eq!(dec_file_header(&mut Buffer::from_words(vec![5])), Err(DecodeError::UnknownMagic([0; 4])));
}

#[test]
fn a_row_of_slices_is_written_channel_by_channel() {
    let samples = noise(40);
    let mut buffer = Buffer::new();
    let mut lms = vec![QoaLmsState::default(); 2];
    enc_slice::<Buffer, LinearScaler>(&mut buffer, &samples, 2, &mut lms).unwrap();
    let mut other = Buffer::new();
    let mut states = vec![QoaLmsState::default(); 2];
    enc_slice::<Buffer, VectorScaler>(&mut other, &samples, 2, &mut states).unwrap();
    assert_eq!(buffer, other);
    assert_eq!(lms, states);
    assert_eq!(buffer.0.len(), 2);
    assert_eq!(buffer.read_long().unwrap() >> 60, 15);
}

#[test]
fn the_bytes_of_a_word_stand_highest_first() {
    let mut bytes = vec![9u8];
    push_be_bytes(&mut bytes, 0x0102_0304_0506_0708);
    assert_eq!(bytes, vec![9, 1, 2, 3, 4, 5, 6, 7, 8]);
    assert_eq!(read_be_word(&bytes, 1), 0x0102_0304_0506_0708);
    assert_eq!(read_be_word(&bytes, 0), 0x0901_0203_0405_0607);
    assert_eq!(Buffer::from_words(vec![1, 2]).unwrap(), VecDeque::from(vec![1u64, 2]));
}

#[test]
fn a_frame_in_the_making_counts_its_rows() {
    let mut frame = Frame::new(2);
    assert_eq!(frame.slice_width, 40);
    assert!(frame.complete());
    assert!(frame.start(45, 2));
    assert_eq!((frame.slice_count, frame.slice_index, frame.samples), (3, 0, 45));
    assert!(!frame.complete());
    assert!(!frame.start(100, 1));
    assert_eq!(frame.samples, 45);
    frame.reset();
    assert!(frame.complete());
    assert!(frame.start(9000, 1));
    assert_eq!((frame.slice_count, frame.samples, frame.slice_width), (256, 5120, 20));
}

#[test]
fn a_source_is_read_out_into_a_buffer() {
    let mut source = PcmFrame::new(7000, 8000, 2);
    let all = noise(14000);
    assert_eq!(source.write_interleaved(&all), Ok(7000));
    let buffer = read_all(source).unwrap();
    assert_eq!(buffer.len(), 7000);
    let mut flat = Vec::new();
    for frame in buffer.unwrap() {
        flat.extend_from_slice(&frame.data());
    }
    assert_eq!(flat, all);
    assert_eq!(read_all(PcmBuffer::default()).err(), Some(Error::UninitializedDescriptor));
}

#[test]
fn a_frame_is_handed_to_a_sink() {
    let mut frame = PcmFrame::new(4, 8000, 2);
    frame.write(&[1, 2, 3], 0).unwrap();
    frame.write(&[-1, -2], 1).unwrap();
    assert_eq!(frame.room(0), 1);
    assert_eq!(frame.room(1), 2);
    let mut sink = PcmBuffer::default();
    let rest = write_frame(&mut sink, frame).unwrap().unwrap();
    assert_eq!(sink.len(), 2);
    assert_eq!(sink.sample_count(), 2);
    assert!(rest.is_empty());
    assert_eq!(rest.room(0), 3);

    let mut even = PcmFrame::new(4, 8000, 2);
    even.write_interleaved(&[5, -5]).unwrap();
    assert_eq!(write_frame(&mut sink, even), Ok(None));
    assert_eq!(write_frame(&mut sink, PcmFrame::new(4, 9000, 2)), Err(Error::DescriptorSet));
    assert_eq!(sink.len(), 3);
}

#[test]
fn a_decoder_can_be_made_from_its_sink() {
    let mut source = Buffer::from_words(vec![0x716f_6166_0000_0000]);
    let sink = Decoder::from_sink(PcmBuffer::default()).decode(&mut source).unwrap();
    assert!(sink.is_empty());
}

#[test]
fn a_source_with_nothing_to_deliver_leaves_the_sink_alone() {
    let mut empty = PcmFrame::new(4, 8000, 2);
    let mut other = PcmFrame::new(4, 9000, 1);
    assert_eq!(empty.read(&mut other, 3), Ok(0));
    let mut full = PcmFrame::new(4, 8000, 2);
    full.write_interleaved(&[1, -1]).unwrap();
    assert_eq!(full.read(&mut other, 0), Ok(0));
    assert_eq!(full.read(&mut other, 1), Err(Error::DescriptorSet));
    assert_eq!(full.data(), vec![1, -1]);

    let mut buffer = PcmBuffer::new(4);
    assert_eq!(buffer.read(&mut other, 3), Ok(0));
    buffer.set_descriptor(8000, 2).unwrap();
    assert_eq!(buffer.read(&mut other, 3), Ok(0));
    buffer.write_interleaved(&[1, -1, 2, -2]).unwrap();
    assert_eq!(buffer.read(&mut other, 0), Ok(0));
    assert_eq!(buffer.read(&mut other, 1), Err(Error::DescriptorSet));
    assert_eq!(buffer.len(), 2);
    assert!(other.is_empty());
}

#[test]
fn a_buffer_takes_all_that_it_is_given() {
    let mut buffer = PcmBuffer::new(2);
    buffer.set_descriptor(8000, 2).unwrap();
    assert_eq!(buffer.clone().unwrap().len(), 1);
    buffer.set_descriptor(8000, 2).unwrap();
    assert_eq!(buffer.clone().unwrap().len(), 1);
    assert_eq!(buffer.write(&[1, 2, 3, 4, 5], 1), Ok(5));
    assert_eq!(buffer.write_interleaved(&[7, 8, 9, 10, 11]), Ok(2));
    assert_eq!(buffer.write(&[6; 5], 0), Ok(5));
    assert_eq!(buffer.len(), 7);
    buffer.set_descriptor(8000, 2).unwrap();
    let frames = buffer.unwrap();
    assert_eq!(frames.len(), 2);
    assert!(frames[1].is_empty());
    assert_eq!(frames[1].sample_capacity(), 2);
}

#[test]
fn a_frame_takes_as_many_interleaved_samples_as_fit() {
    let mut frame = PcmFrame::new(3, 8000, 2);
    frame.write(&[1, 2], 0).unwrap();
    assert_eq!(frame.write_interleaved(&[0; 9]), Ok(1));
    assert_eq!(frame.write_interleaved(&[0; 9]), Ok(0));
    assert_eq!(frame.flush(), Ok(()));
}

#[test]
fn a_source_without_a_descriptor_cannot_be_read_out() {
    assert_eq!(read_all(PcmBuffer::new(3)).err(), Some(Error::UninitializedDescriptor));
    let source = PcmFrame::new(3, 8000, 1);
    let buffer = read_all(source).unwrap();
    assert!(buffer.is_empty());
    assert_eq!(buffer.descriptor(), Ok((8000, 1)));
}

#[test]
fn a_fresh_decoder_of_bytes_decodes_like_a_used_one() {
    let stream = Buffer::from_words(vec![0x716f_6166_0000_0000]).encode();
    let mut decoder = qoar::byte_decoder::Decoder::new();
    let mut samples = Vec::new();
    assert_eq!(decoder.decode(&stream, &mut samples), Ok(8));
    assert_eq!(decoder.decode(&stream, &mut samples), Ok(8));
    assert!(samples.is_empty());
}

#[test]
fn a_buffer_of_words_begins_empty() {
    assert!(Buffer::default().0.is_empty());
    assert_eq!(Buffer::default(), Buffer::new());
    assert_eq!(Buffer::default().encode(), Vec::<u8>::new());
}

#[test]
fn a_fault_of_the_samples_is_a_fault_of_the_decoding() {
    assert_eq!(
        qoar::byte_decoder::Error::from(Error::DescriptorSet),
        qoar::byte_decoder::Error::IO(Error::DescriptorSet)
    );
    assert_eq!(
        qoar::byte_decoder::Error::from(Error::Read(String::from("gone"))),
        qoar::byte_decoder::Error::IO(Error::Read(String::from("gone")))
    );
}

#[test]
fn the_frames_of_a_buffer_make_one_frame() {
    let all = noise(14);
    let mut buffer = PcmBuffer::new(3);
    buffer.set_descriptor(8000, 2).unwrap();
    assert_eq!(buffer.write_interleaved(&all[..6]), Ok(3));
    buffer.set_descriptor(8000, 2).unwrap();
    assert_eq!(buffer.write_interleaved(&all[6..]), Ok(4));
    assert_eq!(buffer.clone().unwrap().len(), 2);
    let frame = buffer.into_frame().unwrap();
    assert_eq!(frame.len(), 7);
    assert_eq!(frame.rate(), 8000);
    assert_eq!(frame.channels(), 2);
    assert_eq!(frame.data(), all);

    let mut empty = PcmBuffer::new(3);
    empty.set_descriptor(8000, 2).unwrap();
    let frame = empty.into_frame().unwrap();
    assert!(frame.is_empty());
    assert_eq!(frame.channels(), 2);
    assert_eq!(PcmBuffer::new(3).into_frame(), None);
    assert_eq!(PcmBuffer::default().into_frame(), None);
}

#[test]
fn a_source_that_delivers_is_read_to_its_end() {
    let all = noise(6000);
    let mut frame = PcmFrame::new(6000, 8000, 1);
    assert_eq!(frame.write_interleaved(&all), Ok(6000));
    let buffer = read_all(frame).unwrap();
    assert_eq!(buffer.len(), 6000);
    assert_eq!(buffer.descriptor(), Ok((8000, 1)));
    assert_eq!(buffer.into_frame().unwrap().data(), all);

    let mut source = PcmBuffer::new(7);
    source.set_descriptor(8000, 2).unwrap();
    assert_eq!(source.write_interleaved(&all), Ok(3000));
    let buffer = read_all(source).unwrap();
    assert_eq!(buffer.len(), 3000);
    assert_eq!(buffer.into_frame().unwrap().data(), all);
}

#[test]
fn a_sink_that_takes_is_given_the_whole_frame() {
    let mut frame = PcmFrame::new(5, 8000, 2);
    frame.write_interleaved(&[1, -1, 2, -2, 3, -3]).unwrap();
    let mut sink = PcmBuffer::new(2);
    assert_eq!(write_frame(&mut sink, frame), Ok(None));
    assert_eq!(sink.descriptor(), Ok((8000, 2)));
    assert_eq!(sink.len(), 3);
    assert_eq!(sink.into_frame().unwrap().data(), vec![1, -1, 2, -2, 3, -3]);
}

#[test]
fn a_decoder_of_bytes_by_default_is_a_fresh_one() {
    let stream = Buffer::from_words(vec![0x716f_6166_0000_0000]).encode();
    let mut samples = Vec::new();
    assert_eq!(qoar::byte_decoder::Decoder::default().decode(&stream, &mut samples), Ok(8));
    assert!(samples.is_empty());
    assert_eq!(
        qoar::byte_decoder::Decoder::default().decode(&[0u8; 8], &mut samples),
        Err(qoar::byte_decoder::Error::UnknownMagic([0, 0, 0, 0]))
    );
}
