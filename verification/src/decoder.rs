//! The decoder: reconstruction of the samples from the words of a stream.

use vstd::prelude::*;
use crate::io::{ReadError, SourceStream};
use crate::layout::{
    header_channels, header_frame_samples, header_rate, slices_for, unpack_file_header,
    unpack_frame_header, unpack_lms, word_magic, word_samples, words_lms,
};
use crate::pcm_io::PcmSink;
use crate::tables::MAGIC;
use vstd::slice::slice_subrange;
use vstd::array::array_as_slice;
use crate::lms::QoaLmsState;
use crate::slice::{word_quant, word_resid, QoaSlice};
use crate::tables::{clamp, dequantize, spec_dequantize};

pub mod bytes;

verus! {

/// The sample that a decoder in state `lms` reconstructs from quantized
/// index `q` under scale factor number `sf`: the prediction and the
/// dequantized residual, limited to sixteen bits.
pub open spec fn reconstructed(lms: QoaLmsState, sf: int, q: int) -> int {
    clamp(lms.spec_predict() + spec_dequantize(sf, q), -32768, 32767)
}

/// The state of the decoder after that sample.
pub open spec fn lms_after_sample(lms: QoaLmsState, sf: int, q: int) -> QoaLmsState {
    lms.spec_update(reconstructed(lms, sf, q) as i32, spec_dequantize(sf, q) as i32)
}

/// Samples of one channel and the state that the channel is left in.
pub ghost struct Decoded {
    pub samples: Seq<i16>,
    pub lms: QoaLmsState,
}

/// The first `len` samples that the slice `word` holds for a channel in state
/// `lms`.
pub open spec fn decode_slice(word: u64, lms: QoaLmsState, len: nat) -> Decoded
    decreases len,
{
    if len == 0 {
        Decoded { samples: Seq::empty(), lms }
    } else {
        let before = decode_slice(word, lms, (len - 1) as nat);
        let sf = word_quant(word);
        let q = word_resid(word, len - 1);
        Decoded {
            samples: before.samples.push(reconstructed(before.lms, sf, q) as i16),
            lms: lms_after_sample(before.lms, sf, q),
        }
    }
}

/// The number of rows of slices that a frame of `samples` samples per channel
/// holds: one for every twenty samples, and 256 at most.
pub open spec fn frame_rows(samples: int) -> int {
    if slices_for(samples) < 256 {
        slices_for(samples)
    } else {
        256
    }
}

/// The number of samples that row `row` of such a frame holds for each
/// channel: twenty, or what is left for the last row.
pub open spec fn row_len(samples: int, row: int) -> int {
    if samples - 20 * row < 20 {
        samples - 20 * row
    } else {
        20
    }
}

/// The number of samples per channel that such a frame holds: its rows can
/// hold 5120.
pub open spec fn frame_samples(samples: int) -> int {
    if samples < 5120 {
        samples
    } else {
        5120
    }
}

/// What the first `rows` rows of a frame hold for channel `chn`, where the
/// slices of the frame stand in `words` from `base` on, row by row and
/// `channels` to a row.
#[verifier::opaque]
pub open spec fn decode_channel(
    words: Seq<u64>,
    base: int,
    channels: int,
    chn: int,
    lms: QoaLmsState,
    samples: int,
    rows: nat,
) -> Decoded
    decreases rows,
{
    if rows == 0 {
        Decoded { samples: Seq::empty(), lms }
    } else {
        let before = decode_channel(words, base, channels, chn, lms, samples, (rows - 1) as nat);
        let row = rows - 1;
        let slice = decode_slice(
            words[base + row * channels + chn],
            before.lms,
            row_len(samples, row) as nat,
        );
        Decoded { samples: before.samples + slice.samples, lms: slice.lms }
    }
}

/// The number of words of the frame whose header is `header`: the header,
/// two words of predictor state for each channel, and the rows of slices.
pub open spec fn frame_words(header: u64) -> int {
    let channels = header_channels(header) as int;
    1 + 2 * channels + frame_rows(header_frame_samples(header) as int) * channels
}

/// The state that the frame at `at` holds for channel `chn`.
pub open spec fn frame_lms(words: Seq<u64>, at: int, chn: int) -> QoaLmsState {
    words_lms(words[at + 1 + 2 * chn], words[at + 2 + 2 * chn])
}

/// What the first `rows` rows of the frame at `at` hold for channel `chn`.
pub open spec fn frame_channel(words: Seq<u64>, at: int, chn: int, rows: nat) -> Decoded {
    let channels = header_channels(words[at]) as int;
    decode_channel(
        words,
        at + 1 + 2 * channels,
        channels,
        chn,
        frame_lms(words, at, chn),
        header_frame_samples(words[at]) as int,
        rows,
    )
}

/// The samples of channel `chn` in the frame at `at`.
pub open spec fn frame_channel_samples(words: Seq<u64>, at: int, chn: int) -> Seq<i16> {
    frame_channel(
        words,
        at,
        chn,
        frame_rows(header_frame_samples(words[at]) as int) as nat,
    ).samples
}

/// The number of samples per channel in the first `rows` rows of a frame of
/// `samples` samples per channel.
pub open spec fn rows_samples(samples: int, rows: int) -> int {
    if rows >= frame_rows(samples) {
        frame_samples(samples)
    } else {
        20 * rows
    }
}

/// The samples of the first `rows` rows of the frame at `at`, interleaved:
/// sample `i` of channel `c` stands at `i * channels + c`.
pub open spec fn rows_interleaved(words: Seq<u64>, at: int, rows: nat) -> Seq<i16> {
    let channels = header_channels(words[at]) as int;
    let samples = rows_samples(header_frame_samples(words[at]) as int, rows as int);
    Seq::new(
        (samples * channels) as nat,
        |k: int| frame_channel(words, at, k % channels, rows).samples[k / channels],
    )
}

/// The samples of the frame at `at`, interleaved.
pub open spec fn frame_interleaved(words: Seq<u64>, at: int) -> Seq<i16> {
    rows_interleaved(words, at, frame_rows(header_frame_samples(words[at]) as int) as nat)
}

/// No row holds no sample and leaves the state as it is; one more row adds
/// the samples of its slice.
pub proof fn lemma_decode_channel_step(
    words: Seq<u64>,
    base: int,
    channels: int,
    chn: int,
    lms: QoaLmsState,
    samples: int,
    rows: nat,
)
    ensures
        decode_channel(words, base, channels, chn, lms, samples, 0) == (Decoded {
            samples: Seq::empty(),
            lms,
        }),
        ({
            let before = decode_channel(words, base, channels, chn, lms, samples, rows);
            let slice = decode_slice(
                words[base + rows * channels + chn],
                before.lms,
                row_len(samples, rows as int) as nat,
            );
            decode_channel(words, base, channels, chn, lms, samples, rows + 1) == (Decoded {
                samples: before.samples + slice.samples,
                lms: slice.lms,
            })
        }),
{
    reveal_with_fuel(decode_channel, 2);
}

/// A frame takes up a word at least: its header.
pub proof fn lemma_frame_words_positive(header: u64)
    ensures
        frame_words(header) >= 1,
{
    let channels = header_channels(header) as int;
    let rows = frame_rows(header_frame_samples(header) as int);
    assert(rows * channels >= 0) by (nonlinear_arith)
        requires
            rows >= 0,
            channels >= 0,
    ;
}

/// A slice decodes to as many samples as are asked of it.
pub proof fn lemma_decode_slice_len(word: u64, lms: QoaLmsState, len: nat)
    ensures
        decode_slice(word, lms, len).samples.len() == len,
    decreases len,
{
    if len > 0 {
        lemma_decode_slice_len(word, lms, (len - 1) as nat);
    }
}

/// The first `rows` rows of a frame hold twenty samples each for a channel,
/// but for the last row of the frame, which holds what is left.
pub proof fn lemma_decode_channel_len(
    words: Seq<u64>,
    base: int,
    channels: int,
    chn: int,
    lms: QoaLmsState,
    samples: int,
    rows: nat,
)
    requires
        0 <= samples,
        rows <= frame_rows(samples),
    ensures
        decode_channel(words, base, channels, chn, lms, samples, rows).samples.len() == (if rows
            == frame_rows(samples) {
            frame_samples(samples)
        } else {
            20 * (rows as int)
        }),
    decreases rows,
{
    lemma_decode_channel_step(words, base, channels, chn, lms, samples, (rows - 1) as nat);
    if rows > 0 {
        lemma_decode_channel_len(words, base, channels, chn, lms, samples, (rows - 1) as nat);
        let before = decode_channel(words, base, channels, chn, lms, samples, (rows - 1) as nat);
        lemma_decode_slice_len(
            words[base + (rows - 1) * channels + chn],
            before.lms,
            row_len(samples, rows - 1) as nat,
        );
    }
}

/// Decodes the first `len` samples of the slice `word` into `out` and
/// advances the state of the channel.
pub fn decode_slice_into(word: u64, lms: &mut QoaLmsState, len: usize, out: &mut [i16; 20])
    requires
        len <= 20,
    ensures
        *final(lms) == decode_slice(word, *old(lms), len as nat).lms,
        forall|i: int|
            0 <= i < len ==> final(out)[i] == decode_slice(word, *old(lms), len as nat).samples[i],
        forall|i: int| len <= i < 20 ==> final(out)[i] == old(out)[i],
{
    let mut slice = QoaSlice::default();
    slice.unpack(word);
    let sf = slice.quant as usize;
    let mut i: usize = 0;
    while i < len
        invariant
            i <= len <= 20,
            sf == word_quant(word),
            sf < 16,
            slice.wf(),
            forall|k: int| 0 <= k < 20 ==> slice.resid[k] == word_resid(word, k),
            *lms == decode_slice(word, *old(lms), i as nat).lms,
            forall|k: int|
                0 <= k < i ==> out[k] == decode_slice(word, *old(lms), i as nat).samples[k],
            forall|k: int| i <= k < 20 ==> out[k] == old(out)[k],
        decreases len - i,
    {
        let q = slice.resid[i];
        let predicted = lms.predict();
        let dequantized = dequantize(sf, q);
        let sum: i64 = predicted as i64 + dequantized as i64;
        let reconst: i16 = if sum < -32768 {
            -32768
        } else if sum > 32767 {
            32767
        } else {
            sum as i16
        };
        let ghost before = decode_slice(word, *old(lms), i as nat);
        let ghost after = decode_slice(word, *old(lms), (i + 1) as nat);
        proof {
            lemma_decode_slice_len(word, *old(lms), i as nat);
            assert(after.samples == before.samples.push(reconst));
            assert forall|k: int| 0 <= k < i implies out[k] == after.samples[k] by {
                assert(after.samples[k] == before.samples[k]);
            }
        }
        out[i] = reconst;
        lms.update(reconst, dequantized);
        i += 1;
    }
}

/// What the sink was asked to do when it failed.
#[derive(Copy, Clone, Debug, PartialEq, Eq)]
pub enum DecodeWriteKind {
    /// To set the sample rate and the channel count.
    SetDescriptor,
    /// To take samples.
    Sample,
}

/// Why a stream could not be decoded.
#[derive(Clone, Debug, PartialEq, Eq)]
pub enum DecodeError {
    /// The stream does not open with the magic number; these four bytes
    /// stand in its place.
    UnknownMagic([u8; 4]),
    /// The stream ended inside the file header or a frame, or before the
    /// samples that the file header declares.
    Eof,
    /// The source of the words failed.
    Read(ReadError),
    /// The sink of the samples failed.
    Write(DecodeWriteKind, crate::pcm_io::Error),
    /// The sink of the samples could not be closed.
    SinkClose(crate::pcm_io::Error),
}

impl From<ReadError> for DecodeError {
    fn from(value: ReadError) -> (e: DecodeError) {
        match value {
            ReadError::Eof => DecodeError::Eof,
            other => DecodeError::Read(other),
        }
    }
}

impl vstd::std_specs::convert::FromSpecImpl<ReadError> for DecodeError {
    open spec fn obeys_from_spec() -> bool {
        true
    }

    open spec fn from_spec(value: ReadError) -> DecodeError {
        match value {
            ReadError::Eof => DecodeError::Eof,
            other => DecodeError::Read(other),
        }
    }
}

/// Reads a file header: the number of samples per channel that the stream
/// declares, or 0 for a stream of unknown length.
pub fn dec_file_header<S: SourceStream>(source: &mut S) -> (r: Result<u32, DecodeError>)
    ensures
        match r {
            Ok(samples) => {
                &&& old(source).remaining().len() > 0
                &&& word_magic(old(source).remaining()[0]) == MAGIC
                &&& samples == word_samples(old(source).remaining()[0])
                &&& final(source).remaining() == old(source).remaining().skip(1)
            },
            Err(DecodeError::Eof) => old(source).remaining().len() == 0,
            Err(DecodeError::UnknownMagic(bytes)) => {
                &&& old(source).remaining().len() > 0
                &&& word_magic(old(source).remaining()[0]) != MAGIC
                &&& bytes@ == crate::layout::be_bytes4(word_magic(old(source).remaining()[0]))
            },
            Err(e) => e is Read,
        },
        old(source).unfailing() ==> final(source).unfailing() && !(r is Err && r->Err_0 is Read),
{
    let word = match source.read_long() {
        Ok(word) => word,
        Err(ReadError::Eof) => {
            return Err(DecodeError::Eof);
        },
        Err(other) => {
            return Err(DecodeError::Read(other));
        },
    };
    match unpack_file_header(word) {
        Ok(samples) => Ok(samples),
        Err(bytes) => Err(DecodeError::UnknownMagic(bytes)),
    }
}

/// Reads a frame header: channel count, sample rate, samples per channel
/// and frame size.
pub fn dec_frame_header<S: SourceStream>(source: &mut S) -> (r: Result<
    (u8, u32, u16, u16),
    DecodeError,
>)
    ensures
        match r {
            Ok(header) => {
                &&& old(source).remaining().len() > 0
                &&& header.0 == header_channels(old(source).remaining()[0])
                &&& header.1 == header_rate(old(source).remaining()[0])
                &&& header.2 == header_frame_samples(old(source).remaining()[0])
                &&& header.3 == crate::layout::header_size(old(source).remaining()[0])
                &&& final(source).remaining() == old(source).remaining().skip(1)
            },
            Err(DecodeError::Eof) => old(source).remaining().len() == 0,
            Err(e) => e is Read,
        },
        old(source).unfailing() ==> final(source).unfailing() && !(r is Err && r->Err_0 is Read),
{
    match source.read_long() {
        Ok(word) => Ok(unpack_frame_header(word)),
        Err(ReadError::Eof) => Err(DecodeError::Eof),
        Err(other) => Err(DecodeError::Read(other)),
    }
}

/// Reads the state of each channel in `lms`: two words for each, the
/// history and the weights.
pub fn dec_lms<S: SourceStream>(source: &mut S, lms: &mut Vec<QoaLmsState>) -> (r: Result<
    (),
    DecodeError,
>)
    ensures
        final(lms).len() == old(lms).len(),
        match r {
            Ok(_) => {
                &&& 2 * old(lms).len() <= old(source).remaining().len()
                &&& final(source).remaining() == old(source).remaining().skip(2 * old(lms).len())
                &&& forall|c: int|
                    0 <= c < old(lms).len() ==> #[trigger] final(lms)[c] == words_lms(
                        old(source).remaining()[2 * c],
                        old(source).remaining()[2 * c + 1],
                    )
            },
            Err(DecodeError::Eof) => old(source).remaining().len() < 2 * old(lms).len(),
            Err(e) => e is Read,
        },
        old(source).unfailing() ==> final(source).unfailing() && !(r is Err && r->Err_0 is Read),
        old(lms).len() == 0 ==> r is Ok,
{
    let ghost words = source.remaining();
    let mut c: usize = 0;
    assert(source.remaining() =~= words.skip(0));
    while c < lms.len()
        invariant
            c <= lms.len(),
            lms.len() == old(lms).len(),
            words == old(source).remaining(),
            2 * c <= words.len(),
            old(source).unfailing() ==> source.unfailing(),
            source.remaining() == words.skip(2 * c),
            forall|k: int|
                0 <= k < c ==> #[trigger] lms[k] == words_lms(words[2 * k], words[2 * k + 1]),
        decreases lms.len() - c,
    {
        let history = match source.read_long() {
            Ok(word) => word,
            Err(ReadError::Eof) => {
                return Err(DecodeError::Eof);
            },
            Err(other) => {
                return Err(DecodeError::Read(other));
            },
        };
        assert(source.remaining() =~= words.skip(2 * c + 1));
        let weights = match source.read_long() {
            Ok(word) => word,
            Err(ReadError::Eof) => {
                return Err(DecodeError::Eof);
            },
            Err(other) => {
                return Err(DecodeError::Read(other));
            },
        };
        assert(source.remaining() =~= words.skip(2 * (c + 1)));
        lms[c] = unpack_lms(history, weights);
        c += 1;
    }
    Ok(())
}

/// Reads a slice.
pub fn dec_slice<S: SourceStream>(source: &mut S, slice: &mut QoaSlice) -> (r: Result<
    (),
    DecodeError,
>)
    ensures
        match r {
            Ok(_) => {
                &&& old(source).remaining().len() > 0
                &&& final(source).remaining() == old(source).remaining().skip(1)
                &&& final(slice).wf()
                &&& final(slice).quant == word_quant(old(source).remaining()[0])
                &&& forall|i: int|
                    0 <= i < 20 ==> final(slice).resid[i] == word_resid(
                        old(source).remaining()[0],
                        i,
                    )
            },
            Err(DecodeError::Eof) => old(source).remaining().len() == 0 && *final(slice) == *old(
                slice,
            ),
            Err(e) => e is Read && *final(slice) == *old(slice),
        },
        old(source).unfailing() ==> final(source).unfailing() && !(r is Err && r->Err_0 is Read),
{
    match source.read_long() {
        Ok(word) => {
            slice.unpack(word);
            Ok(())
        },
        Err(ReadError::Eof) => Err(DecodeError::Eof),
        Err(other) => Err(DecodeError::Read(other)),
    }
}

/// The samples of channel `chn` in the frame at `at`, or nothing where the
/// frame has no such channel.
pub open spec fn frame_plane(words: Seq<u64>, at: int, chn: int) -> Seq<i16> {
    if 0 <= chn < header_channels(words[at]) {
        frame_channel_samples(words, at, chn)
    } else {
        Seq::empty()
    }
}

/// What is left of `remaining` declared samples after a frame of `samples`.
pub open spec fn samples_after(remaining: u32, samples: u16) -> u32 {
    if remaining > samples {
        (remaining - samples) as u32
    } else {
        0
    }
}

/// Whether a frame is to be decoded from `words`, when `samples` are still
/// declared, or none are declared in a stream of unknown length: some of
/// the declared samples are missing, or words are left in a stream of
/// unknown length; and the words hold a whole frame.
pub open spec fn frame_next(words: Seq<u64>, samples: Option<u32>) -> bool {
    &&& samples != Some(0u32)
    &&& words.len() > 0
    &&& frame_words(words[0]) <= words.len()
}

/// The declared samples that are left after the frame that `words` begin
/// with.
pub open spec fn samples_left(words: Seq<u64>, samples: Option<u32>) -> Option<u32> {
    match samples {
        Some(left) => Some(samples_after(left, header_frame_samples(words[0]))),
        None => None,
    }
}

/// The words that are left when all frames are decoded; nothing where the
/// words end inside a frame or before the declared samples.
#[verifier::opaque]
pub open spec fn stream_rest(words: Seq<u64>, samples: Option<u32>) -> Option<Seq<u64>>
    decreases words.len(),
{
    if frame_next(words, samples) {
        stream_rest(words.skip(frame_words(words[0])), samples_left(words, samples))
    } else if samples == Some(0u32) || (samples is None && words.len() == 0) {
        Some(words)
    } else {
        None
    }
}

/// The samples of channel `chn` in the frames that `words` hold.
#[verifier::opaque]
pub open spec fn stream_plane(words: Seq<u64>, samples: Option<u32>, chn: int) -> Seq<i16>
    decreases words.len(),
{
    if frame_next(words, samples) {
        frame_plane(words, 0, chn) + stream_plane(
            words.skip(frame_words(words[0])),
            samples_left(words, samples),
            chn,
        )
    } else {
        Seq::empty()
    }
}

/// The sample rate and the channel count of the last frame that `words`
/// hold; `start` where they hold none.
pub open spec fn stream_descriptor(words: Seq<u64>, samples: Option<u32>, start: (u32, int)) -> (
    u32,
    int,
)
    decreases words.len(),
{
    if frame_next(words, samples) {
        stream_descriptor(
            words.skip(frame_words(words[0])),
            samples_left(words, samples),
            (header_rate(words[0]), header_channels(words[0]) as int),
        )
    } else {
        start
    }
}

/// The frames of a stream are its first frame and then the frames of the
/// words after it; where there is no whole first frame, there are no
/// samples, and the words that are left are all of them if no more were to
/// come.
pub proof fn lemma_stream_unfold(words: Seq<u64>, samples: Option<u32>)
    ensures
        frame_next(words, samples) ==> stream_rest(words, samples) == stream_rest(
            words.skip(frame_words(words[0])),
            samples_left(words, samples),
        ),
        frame_next(words, samples) ==> forall|c: int| #[trigger]
            stream_plane(words, samples, c) == frame_plane(words, 0, c) + stream_plane(
                words.skip(frame_words(words[0])),
                samples_left(words, samples),
                c,
            ),
        !frame_next(words, samples) ==> forall|c: int| #[trigger]
            stream_plane(words, samples, c) == Seq::<i16>::empty(),
        !frame_next(words, samples) ==> stream_rest(words, samples) == (if samples == Some(0u32)
            || (samples is None && words.len() == 0) {
            Some(words)
        } else {
            None
        }),
{
    reveal_with_fuel(stream_rest, 1);
    reveal_with_fuel(stream_plane, 1);
    if frame_next(words, samples) {
        lemma_frame_words_positive(words[0]);
    }
}

/// What a decoder does next with the words that are to come.
pub ghost enum Step {
    /// Nothing: the declared samples are all decoded, or, in a stream of
    /// unknown length, no word is left.
    Finished,
    /// It fails: the words end inside the file header or a frame, or
    /// before the declared samples.
    Truncated,
    /// It fails: this number stands where the magic number should.
    BadMagic(u32),
    /// It decodes the frame that the words begin with, after the file
    /// header where that is still to be read.
    Frame,
}

/// The declared sample count that a file header gives; nothing where it
/// says with 0 that the length is unknown.
pub open spec fn declared_samples(header: u64) -> Option<u32> {
    if word_samples(header) == 0 {
        None
    } else {
        Some(word_samples(header))
    }
}

/// The words after the file header, where that is still to be read.
pub open spec fn frames_of(header_pending: bool, words: Seq<u64>) -> Seq<u64> {
    if header_pending {
        words.skip(1)
    } else {
        words
    }
}

/// The declared samples that are left once the file header is read.
pub open spec fn samples_of(header_pending: bool, samples: Option<u32>, words: Seq<u64>) -> Option<
    u32,
> {
    if header_pending {
        declared_samples(words[0])
    } else {
        samples
    }
}

/// What a decoder does next: it reads the file header first where that is
/// still to be read.
pub open spec fn next_step(header_pending: bool, samples: Option<u32>, words: Seq<u64>) -> Step {
    if header_pending && words.len() == 0 {
        Step::Truncated
    } else if header_pending && word_magic(words[0]) != MAGIC {
        Step::BadMagic(word_magic(words[0]))
    } else {
        let frames = frames_of(header_pending, words);
        let left = samples_of(header_pending, samples, words);
        if frame_next(frames, left) {
            Step::Frame
        } else if left == Some(0u32) || (left is None && frames.len() == 0) {
            Step::Finished
        } else {
            Step::Truncated
        }
    }
}

/// Whether the file header, where it is still to be read, is there and
/// holds the magic number.
pub open spec fn header_found(header_pending: bool, words: Seq<u64>) -> bool {
    header_pending ==> words.len() > 0 && word_magic(words[0]) == MAGIC
}

/// Whether a frame header is to be read from `words`: not all declared
/// samples are decoded, and a word is left.
pub open spec fn frame_pending(words: Seq<u64>, samples: Option<u32>) -> bool {
    samples != Some(0u32) && words.len() > 0
}

/// Whether every frame that `words` hold, and a last one that is cut short,
/// has the sample rate `rate` and the channel count `channels`.
pub open spec fn stream_uniform(words: Seq<u64>, samples: Option<u32>, rate: u32, channels: u8) -> bool
    decreases words.len(),
{
    if frame_pending(words, samples) {
        &&& header_rate(words[0]) == rate
        &&& header_channels(words[0]) == channels
        &&& frame_next(words, samples) ==> stream_uniform(
            words.skip(frame_words(words[0])),
            samples_left(words, samples),
            rate,
            channels,
        )
    } else {
        true
    }
}

/// Whether the sink is one that takes all frames that `words` hold: it
/// takes what it is given, the frames have one sample rate and channel
/// count, which the sink has too if it has any, and a number can count the
/// samples of each channel with those of the frames.
pub open spec fn stream_fits<Sn: PcmSink>(sink: Sn, words: Seq<u64>, samples: Option<u32>) -> bool {
    &&& sink.taking()
    &&& frame_pending(words, samples) ==> {
        &&& header_rate(words[0]) != 0
        &&& header_channels(words[0]) != 0
        &&& sink.stream_channels() == 0 || (sink.stream_rate() == header_rate(words[0])
            && sink.stream_channels() == header_channels(words[0]))
        &&& stream_uniform(words, samples, header_rate(words[0]), header_channels(words[0]))
        &&& forall|c: int|
            0 <= c < header_channels(words[0]) ==> (#[trigger] sink.channel(c)).len()
                + stream_plane(words, samples, c).len() + 5120 <= usize::MAX
    }
}

/// A sink that takes all frames takes the first, and after it the others.
pub proof fn lemma_stream_fits_step<Sn: PcmSink>(
    before: Sn,
    after: Sn,
    words: Seq<u64>,
    samples: Option<u32>,
)
    requires
        stream_fits(before, words, samples),
        frame_pending(words, samples),
    ensures
        sink_takes(before, words[0]),
        frame_next(words, samples) && after.taking() && after.stream_rate() == header_rate(
            words[0],
        ) && after.stream_channels() == header_channels(words[0]) && (forall|c: int| #[trigger]
            after.channel(c) == before.channel(c) + frame_plane(words, 0, c)) ==> stream_fits(
            after,
            words.skip(frame_words(words[0])),
            samples_left(words, samples),
        ),
{
    lemma_stream_unfold(words, samples);
    let channels = header_channels(words[0]);
    assert forall|c: int| 0 <= c < channels implies (#[trigger] before.channel(c)).len()
        + frame_samples(header_frame_samples(words[0]) as int) <= usize::MAX by {
        assert(before.channel(c).len() + stream_plane(words, samples, c).len() + 5120
            <= usize::MAX);
    }
    if frame_next(words, samples) && after.taking() && after.stream_rate() == header_rate(words[0])
        && after.stream_channels() == channels && (forall|c: int| #[trigger]
        after.channel(c) == before.channel(c) + frame_plane(words, 0, c)) {
        let rest = words.skip(frame_words(words[0]));
        let left = samples_left(words, samples);
        let rate = header_rate(words[0]);
        assert(stream_uniform(words, samples, rate, channels));
        assert(stream_uniform(rest, left, rate, channels));
        if frame_pending(rest, left) {
            assert(header_rate(rest[0]) == rate && header_channels(rest[0]) == channels);
            assert forall|c: int| 0 <= c < header_channels(rest[0]) implies (
            #[trigger] after.channel(c)).len() + stream_plane(rest, left, c).len() + 5120
                <= usize::MAX by {
                assert(before.channel(c).len() + stream_plane(words, samples, c).len() + 5120
                    <= usize::MAX);
                assert(stream_plane(words, samples, c) == frame_plane(words, 0, c) + stream_plane(
                    rest,
                    left,
                    c,
                ));
            }
        }
    }
}

/// Whether the sink is one that takes the frame of this header: it takes
/// what it is given, the frame has a sample rate and a channel count, the
/// sink has none or the same, and a number can count the samples of each
/// channel with those of the frame.
pub open spec fn sink_takes<Sn: PcmSink>(sink: Sn, header: u64) -> bool {
    &&& sink.taking()
    &&& header_rate(header) != 0
    &&& header_channels(header) != 0
    &&& sink.stream_channels() == 0 || (sink.stream_rate() == header_rate(header)
        && sink.stream_channels() == header_channels(header))
    &&& forall|c: int|
        0 <= c < header_channels(header) ==> (#[trigger] sink.channel(c)).len() + frame_samples(
            header_frame_samples(header) as int,
        ) <= usize::MAX
}

/// Decodes a stream of words, frame by frame, into a sink of samples.
pub struct Decoder<S: PcmSink> {
    samples: Option<u32>,
    sink: S,
    header: bool,
    lms: Vec<QoaLmsState>,
    slice_buf: [i16; 20],
}

impl<Sn: PcmSink> Decoder<Sn> {
    /// The sink.
    pub closed spec fn sink(&self) -> Sn {
        self.sink
    }

    /// Whether the file header is still to be read.
    pub closed spec fn header_pending(&self) -> bool {
        self.header
    }

    /// The declared samples that are not decoded yet; nothing in a stream of
    /// unknown length, and before the file header is read.
    pub closed spec fn remaining(&self) -> Option<u32> {
        self.samples
    }

    /// The sink is fit for use.
    pub closed spec fn wf(&self) -> bool {
        self.sink.stream_wf()
    }

    /// A decoder that begins with the file header.
    pub fn new(sink: Sn) -> (d: Self)
        requires
            sink.stream_wf(),
        ensures
            d.wf(),
            d.sink() == sink,
            d.header_pending(),
            d.remaining() is None,
    {
        Decoder {
            samples: None,
            sink,
            header: true,
            lms: Vec::new(),
            slice_buf: [0, 0, 0, 0, 0, 0, 0, 0, 0, 0, 0, 0, 0, 0, 0, 0, 0, 0, 0, 0],
        }
    }

    /// Reads a word of a frame: the end of the stream is an error here.
    fn read_word<S: SourceStream>(source: &mut S) -> (r: Result<u64, DecodeError>)
        ensures
            match r {
                Ok(word) => {
                    &&& old(source).remaining().len() > 0
                    &&& word == old(source).remaining()[0]
                    &&& final(source).remaining() == old(source).remaining().skip(1)
                },
                Err(DecodeError::Eof) => old(source).remaining().len() == 0,
                Err(e) => e is Read,
            },
            old(source).unfailing() ==> final(source).unfailing() && !(r is Err && r->Err_0 is Read),
    {
        match source.read_long() {
            Ok(word) => Ok(word),
            Err(ReadError::Eof) => Err(DecodeError::Eof),
            Err(other) => Err(DecodeError::Read(other)),
        }
    }

    /// Takes `n` off the declared samples that are not decoded yet.
    fn sub_samples(&mut self, n: u32)
        ensures
            final(self).sink == old(self).sink,
            final(self).header == old(self).header,
            final(self).lms == old(self).lms,
            final(self).samples == (match old(self).samples {
                Some(left) => Some(if left > n { (left - n) as u32 } else { 0 }),
                None => None,
            }),
    {
        if let Some(left) = self.samples {
            self.samples = Some(if left > n { left - n } else { 0 });
        }
    }

    /// Reads the states of the channels of the frame whose header was the
    /// word before.
    fn load_lms<S: SourceStream>(&mut self, source: &mut S, channels: usize, Ghost(words): Ghost<
        Seq<u64>,
    >, Ghost(at): Ghost<int>) -> (r: Result<(), DecodeError>)
        requires
            0 <= at < words.len(),
            old(source).remaining() == words.skip(at + 1),
        ensures
            final(self).sink == old(self).sink,
            final(self).header == old(self).header,
            final(self).samples == old(self).samples,
            match r {
                Ok(_) => {
                    &&& at + 1 + 2 * channels <= words.len()
                    &&& final(source).remaining() == words.skip(at + 1 + 2 * channels)
                    &&& final(self).lms.len() == channels
                    &&& forall|c: int|
                        0 <= c < channels ==> #[trigger] final(self).lms[c] == frame_lms(words, at, c)
                },
                Err(DecodeError::Eof) => at + 1 + 2 * channels > words.len(),
                Err(e) => e is Read,
            },
            old(source).unfailing() ==> final(source).unfailing() && !(r is Err && r->Err_0 is Read),
    {
        self.lms.clear();
        let mut c: usize = 0;
        while c < channels
            invariant
                c <= channels,
                0 <= at < words.len(),
                at + 1 + 2 * c <= words.len(),
                self.sink == old(self).sink,
                self.header == old(self).header,
                self.samples == old(self).samples,
                old(source).unfailing() ==> source.unfailing(),
                source.remaining() == words.skip(at + 1 + 2 * c),
                self.lms.len() == c,
                forall|k: int| 0 <= k < c ==> #[trigger] self.lms[k] == frame_lms(words, at, k),
            decreases channels - c,
        {
            let history = match Self::read_word(source) {
                Ok(word) => word,
                Err(err) => {
                    return Err(err);
                },
            };
            assert(source.remaining() =~= words.skip(at + 2 + 2 * c));
            let weights = match Self::read_word(source) {
                Ok(word) => word,
                Err(err) => {
                    return Err(err);
                },
            };
            assert(source.remaining() =~= words.skip(at + 1 + 2 * (c + 1)));
            self.lms.push(unpack_lms(history, weights));
            c += 1;
        }
        Ok(())
    }

    /// Whether the sink takes what the decoder makes of the words that are
    /// to come: it takes what it is given, and where a frame follows, after
    /// the file header if that is still to be read, it is one that takes
    /// that frame.
    pub open spec fn frame_fits(&self, words: Seq<u64>) -> bool {
        let frames = frames_of(self.header_pending(), words);
        let left = samples_of(self.header_pending(), self.remaining(), words);
        &&& self.sink().taking()
        &&& header_found(self.header_pending(), words) && frame_pending(frames, left)
            ==> sink_takes(self.sink(), frames[0])
    }

    /// Whether the sink takes what the decoder makes of all the words that
    /// are to come: it takes what it is given, and where frames follow,
    /// after the file header if that is still to be read, it is one that
    /// takes them all.
    pub open spec fn stream_fits(&self, words: Seq<u64>) -> bool {
        &&& self.sink().taking()
        &&& header_found(self.header_pending(), words) ==> stream_fits(
            self.sink(),
            frames_of(self.header_pending(), words),
            samples_of(self.header_pending(), self.remaining(), words),
        )
    }

    /// Whether the sink takes the rows of a frame of `channels` channels
    /// and `samples` samples per channel.
    closed spec fn rows_fit(&self, channels: usize, samples: usize) -> bool {
        &&& self.sink.taking()
        &&& self.sink.stream_channels() == channels
        &&& forall|c: int|
            0 <= c < channels ==> (#[trigger] self.sink.channel(c)).len() + frame_samples(
                samples as int,
            ) <= usize::MAX
    }

    /// Channel `chn` of the frame at `at` is decoded up to row `rows`: its
    /// state is the one that these rows leave, and the sink holds their
    /// samples after what it held.
    closed spec fn decoded_to(
        &self,
        before: Sn,
        words: Seq<u64>,
        at: int,
        chn: int,
        rows: nat,
    ) -> bool {
        &&& self.lms[chn] == frame_channel(words, at, chn, rows).lms
        &&& self.sink.channel(chn) == before.channel(chn) + frame_channel(words, at, chn, rows).samples
    }

    /// Decodes the rows of slices of a frame and hands their samples to
    /// the sink, block by block.
    fn decode_rows<S: SourceStream>(
        &mut self,
        source: &mut S,
        channels: usize,
        samples: usize,
        Ghost(words): Ghost<Seq<u64>>,
        Ghost(at): Ghost<int>,
    ) -> (r: Result<(), DecodeError>)
        requires
            old(self).wf(),
            0 <= at < words.len(),
            at + 1 + 2 * channels <= words.len(),
            channels == header_channels(words[at]),
            samples == header_frame_samples(words[at]),
            old(source).remaining() == words.skip(at + 1 + 2 * channels),
            old(self).lms.len() == channels,
            forall|c: int|
                0 <= c < channels ==> #[trigger] old(self).lms[c] == frame_lms(words, at, c),
        ensures
            final(self).wf(),
            final(self).header == old(self).header,
            final(self).samples == old(self).samples,
            match r {
                Ok(_) => {
                    &&& at + frame_words(words[at]) <= words.len()
                    &&& final(source).remaining() == words.skip(at + frame_words(words[at]))
                    &&& forall|c: int| #[trigger]
                        final(self).sink.channel(c) == old(self).sink.channel(c) + frame_plane(
                            words,
                            at,
                            c,
                        )
                    &&& final(self).sink.stream_channels() == old(self).sink.stream_channels()
                    &&& final(self).sink.stream_rate() == old(self).sink.stream_rate()
                },
                Err(DecodeError::Eof) => at + frame_words(words[at]) > words.len(),
                Err(e) => e is Read || e is Write,
            },
            old(source).unfailing() ==> final(source).unfailing() && !(r is Err && r->Err_0 is Read),
            old(self).rows_fit(channels, samples) ==> final(self).sink.taking() && !(r is Err
                && r->Err_0 is Write),
    {
        let ghost fits = self.rows_fit(channels, samples);
        let slices = (samples + 19) / 20;
        let rows = if slices < 256 { slices } else { 256 };
        let ghost base = at + 1 + 2 * channels;
        let ghost before = self.sink;
        proof {
            assert forall|c: int| 0 <= c < channels implies #[trigger] self.decoded_to(
                before,
                words,
                at,
                c,
                0,
            ) by {
                lemma_decode_channel_step(
                    words,
                    base,
                    channels as int,
                    c,
                    frame_lms(words, at, c),
                    samples as int,
                    0,
                );
                assert(before.channel(c) + Seq::<i16>::empty() =~= before.channel(c));
            }
            assert(0 * channels == 0);
        }
        let mut row: usize = 0;
        while row < rows
            invariant
                row <= rows,
                rows == frame_rows(samples as int),
                self.wf(),
                self.header == old(self).header,
                self.samples == old(self).samples,
                before == old(self).sink,
                0 <= at < words.len(),
                channels == header_channels(words[at]),
                samples == header_frame_samples(words[at]),
                base == at + 1 + 2 * channels,
                0 <= row * channels,
                base + row * channels <= words.len(),
                source.remaining() == words.skip(base + row * channels),
                self.lms.len() == channels,
                forall|c: int|
                    0 <= c < channels ==> #[trigger] self.decoded_to(before, words, at, c, row as nat),
                forall|c: int|
                    !(0 <= c < channels) ==> #[trigger] self.sink.channel(c) == before.channel(c),
                self.sink.stream_channels() == before.stream_channels(),
                self.sink.stream_rate() == before.stream_rate(),
                old(source).unfailing() ==> source.unfailing(),
                fits == old(self).rows_fit(channels, samples),
                fits ==> self.sink.taking(),
            decreases rows - row,
        {
            let left = samples - 20 * row;
            let len = if left < 20 { left } else { 20 };
            let mut c: usize = 0;
            proof {
                assert((row + 1) * channels == row * channels + channels && row * channels
                    + channels <= rows * channels) by (nonlinear_arith)
                    requires
                        row < rows,
                        channels >= 0,
                ;
            }
            while c < channels
                invariant
                    c <= channels,
                    row < rows,
                    rows == frame_rows(samples as int),
                    len == row_len(samples as int, row as int),
                    len <= 20,
                    self.wf(),
                    self.header == old(self).header,
                    self.samples == old(self).samples,
                    before == old(self).sink,
                    0 <= at < words.len(),
                    channels == header_channels(words[at]),
                    samples == header_frame_samples(words[at]),
                    base == at + 1 + 2 * channels,
                    0 <= row * channels,
                    row * channels + channels <= rows * channels,
                    base + row * channels + c <= words.len(),
                    source.remaining() == words.skip(base + row * channels + c),
                    self.lms.len() == channels,
                    forall|k: int|
                        0 <= k < c ==> #[trigger] self.decoded_to(
                            before,
                            words,
                            at,
                            k,
                            (row + 1) as nat,
                        ),
                    forall|k: int|
                        c <= k < channels ==> #[trigger] self.decoded_to(
                            before,
                            words,
                            at,
                            k,
                            row as nat,
                        ),
                    forall|k: int|
                        !(0 <= k < channels) ==> #[trigger] self.sink.channel(k) == before.channel(
                            k,
                        ),
                    self.sink.stream_channels() == before.stream_channels(),
                    self.sink.stream_rate() == before.stream_rate(),
                    old(source).unfailing() ==> source.unfailing(),
                    fits == old(self).rows_fit(channels, samples),
                    fits ==> self.sink.taking(),
                decreases channels - c,
            {
                let ghost place = base + row * channels + c;
                let word = match Self::read_word(source) {
                    Ok(word) => word,
                    Err(err) => {
                        return Err(err);
                    },
                };
                assert(word == words[place]);
                assert(source.remaining() =~= words.skip(place + 1));
                let mut state = self.lms[c];
                let ghost state_before = state;
                let ghost lms_before = self.lms@;
                let ghost sink_before = self.sink;
                let ghost me = *self;
                assert(self.decoded_to(before, words, at, c as int, row as nat));
                decode_slice_into(word, &mut state, len, &mut self.slice_buf);
                self.lms[c] = state;
                let block = slice_subrange(array_as_slice(&self.slice_buf), 0, len);
                proof {
                    if fits {
                        lemma_decode_channel_len(
                            words,
                            base,
                            channels as int,
                            c as int,
                            frame_lms(words, at, c as int),
                            samples as int,
                            row as nat,
                        );
                        assert(me.decoded_to(before, words, at, c as int, row as nat));
                        assert(before.channel(c as int).len() + frame_samples(samples as int)
                            <= usize::MAX);
                    }
                }
                match self.sink.write(block, c) {
                    Ok(took) => {
                        if took != len {
                            return Err(
                                DecodeError::Write(
                                    DecodeWriteKind::Sample,
                                    crate::pcm_io::Error::Write(
                                        "the sink took a part of the samples".to_owned(),
                                    ),
                                ),
                            );
                        }
                    },
                    Err(err) => {
                        return Err(DecodeError::Write(DecodeWriteKind::Sample, err));
                    },
                }
                proof {
                    let slice = decode_slice(word, state_before, len as nat);
                    lemma_decode_slice_len(word, state_before, len as nat);
                    assert(block@ =~= slice.samples);
                    assert(block@.take(len as int) =~= block@);
                    lemma_decode_channel_step(
                        words,
                        base,
                        channels as int,
                        c as int,
                        frame_lms(words, at, c as int),
                        samples as int,
                        row as nat,
                    );
                    let fc = frame_channel(words, at, c as int, row as nat);
                    assert(sink_before.channel(c as int) + slice.samples =~= before.channel(
                        c as int,
                    ) + (fc.samples + slice.samples));
                    assert(self.decoded_to(before, words, at, c as int, (row + 1) as nat));
                    assert forall|k: int| 0 <= k < c implies #[trigger] self.decoded_to(
                        before,
                        words,
                        at,
                        k,
                        (row + 1) as nat,
                    ) by {
                        assert(me.decoded_to(before, words, at, k, (row + 1) as nat));
                        assert(self.lms[k] == lms_before[k]);
                        assert(self.sink.channel(k) == sink_before.channel(k));
                    }
                    assert forall|k: int| c < k < channels implies #[trigger] self.decoded_to(
                        before,
                        words,
                        at,
                        k,
                        row as nat,
                    ) by {
                        assert(me.decoded_to(before, words, at, k, row as nat));
                        assert(self.lms[k] == lms_before[k]);
                        assert(self.sink.channel(k) == sink_before.channel(k));
                    }
                    assert forall|k: int| !(0 <= k < channels) implies #[trigger] self.sink.channel(
                        k,
                    ) == before.channel(k) by {
                        assert(self.sink.channel(k) == sink_before.channel(k));
                    }
                }
                c += 1;
            }
            let ghost done = (row + 1) as nat;
            row += 1;
            proof {
                assert forall|k: int| 0 <= k < channels implies #[trigger] self.decoded_to(
                    before,
                    words,
                    at,
                    k,
                    row as nat,
                ) by {
                    assert(self.decoded_to(before, words, at, k, done));
                }
            }
        }
        proof {
            assert forall|c: int| #[trigger]
                self.sink.channel(c) == before.channel(c) + frame_plane(words, at, c) by {
                if 0 <= c < channels {
                    assert(self.decoded_to(before, words, at, c, rows as nat));
                } else {
                    assert(before.channel(c) + Seq::<i16>::empty() =~= before.channel(c));
                }
            }
        }
        Ok(())
    }

    /// Decodes the next frame from `source`, after the file header where
    /// that is still to be read, and hands its samples to the sink. Returns
    /// whether there was a frame.
    pub fn decode_frame<S: SourceStream>(&mut self, source: &mut S) -> (r: Result<bool, DecodeError>)
        requires
            old(self).wf(),
        ensures
            final(self).wf(),
            ({
                let words = old(source).remaining();
                let step = next_step(old(self).header_pending(), old(self).remaining(), words);
                let frames = frames_of(old(self).header_pending(), words);
                let left = samples_of(old(self).header_pending(), old(self).remaining(), words);
                match r {
                    Ok(true) => {
                        &&& step is Frame
                        &&& !final(self).header_pending()
                        &&& final(self).remaining() == samples_left(frames, left)
                        &&& final(source).remaining() == frames.skip(frame_words(frames[0]))
                        &&& final(self).sink().stream_rate() == header_rate(frames[0])
                        &&& final(self).sink().stream_channels() == header_channels(frames[0])
                        &&& forall|c: int| #[trigger]
                            final(self).sink().channel(c) == old(self).sink().channel(c)
                                + frame_plane(frames, 0, c)
                    },
                    Ok(false) => {
                        &&& step is Finished
                        &&& !final(self).header_pending()
                        &&& final(self).remaining() == left
                        &&& final(source).remaining() == frames
                        &&& forall|c: int| #[trigger]
                            final(self).sink().channel(c) == old(self).sink().channel(c)
                    },
                    Err(DecodeError::Eof) => step is Truncated,
                    Err(DecodeError::UnknownMagic(bytes)) => step is BadMagic && bytes@
                        == crate::layout::be_bytes4(step->0),
                    Err(DecodeError::Read(_)) => true,
                    Err(DecodeError::Write(_, _)) => step is Frame || step is Truncated,
                    Err(DecodeError::SinkClose(_)) => false,
                }
            }),
            !old(self).header_pending() && old(self).remaining() == Some(0u32) ==> r == Ok::<
                bool,
                DecodeError,
            >(false) && final(source).remaining() == old(source).remaining(),
            old(source).unfailing() ==> final(source).unfailing() && !(r is Err && r->Err_0 is Read),
            old(self).frame_fits(old(source).remaining()) ==> final(self).sink().taking() && !(r is Err
                && r->Err_0 is Write),
            r is Ok && !r->Ok_0 ==> final(self).sink() == old(self).sink(),
            r is Err && !(header_found(old(self).header_pending(), old(source).remaining())
                && frame_pending(
                frames_of(old(self).header_pending(), old(source).remaining()),
                samples_of(
                    old(self).header_pending(),
                    old(self).remaining(),
                    old(source).remaining(),
                ),
            )) ==> final(self).sink() == old(self).sink(),
    {
        let ghost words = source.remaining();
        if self.header {
            let declared = match dec_file_header(source) {
                Ok(declared) => declared,
                Err(err) => {
                    return Err(err);
                },
            };
            self.header = false;
            self.samples = if declared == 0 { None } else { Some(declared) };
        }
        let ghost frames = source.remaining();
        if let Some(left) = self.samples {
            if left == 0 {
                return Ok(false);
            }
        }
        let header = match source.read_long() {
            Ok(word) => word,
            Err(ReadError::Eof) => {
                if self.samples.is_none() {
                    assert(source.remaining() =~= frames);
                    return Ok(false);
                } else {
                    return Err(DecodeError::Eof);
                }
            },
            Err(other) => {
                return Err(DecodeError::Read(other));
            },
        };
        let (channels, rate, samples, _) = unpack_frame_header(header);
        self.load_lms(source, channels as usize, Ghost(frames), Ghost(0))?;
        match self.sink.set_descriptor(rate, channels as usize) {
            Ok(()) => {},
            Err(err) => {
                return Err(DecodeError::Write(DecodeWriteKind::SetDescriptor, err));
            },
        }
        let ghost sink_before = self.sink;
        match self.decode_rows(source, channels as usize, samples as usize, Ghost(frames), Ghost(0)) {
            Ok(()) => {},
            Err(err) => {
                return Err(err);
            },
        }
        self.sub_samples(samples as u32);
        proof {
            assert forall|c: int| #[trigger]
                self.sink().channel(c) == old(self).sink().channel(c) + frame_plane(frames, 0, c) by {
                assert(sink_before.channel(c) == old(self).sink().channel(c));
            }
        }
        Ok(true)
    }

    /// Decodes all frames from `source` and returns the sink, closed.
    pub fn decode<S: SourceStream>(self, source: &mut S) -> (r: Result<Sn, DecodeError>)
        requires
            self.wf(),
        ensures
            ({
                let words = old(source).remaining();
                let frames = frames_of(self.header_pending(), words);
                let left = samples_of(self.header_pending(), self.remaining(), words);
                match r {
                    Ok(sink) => {
                        &&& self.header_pending() ==> words.len() > 0 && word_magic(words[0])
                            == MAGIC
                        &&& stream_rest(frames, left) == Some(final(source).remaining())
                        &&& sink.stream_wf()
                        &&& forall|c: int| #[trigger]
                            sink.channel(c) == self.sink().channel(c) + stream_plane(frames, left, c)
                        &&& (sink.stream_rate(), sink.stream_channels() as int)
                            == stream_descriptor(
                            frames,
                            left,
                            (self.sink().stream_rate(), self.sink().stream_channels() as int),
                        )
                    },
                    Err(DecodeError::Eof) => self.header_pending() && words.len() == 0
                        || stream_rest(frames, left) is None,
                    Err(DecodeError::UnknownMagic(bytes)) => {
                        &&& self.header_pending()
                        &&& words.len() > 0
                        &&& word_magic(words[0]) != MAGIC
                        &&& bytes@ == crate::layout::be_bytes4(word_magic(words[0]))
                    },
                    Err(_) => true,
                }
            }),
            old(source).unfailing() ==> final(source).unfailing() && !(r is Err && r->Err_0 is Read),
            self.stream_fits(old(source).remaining()) ==> !(r is Err && (r->Err_0 is Write
                || r->Err_0 is SinkClose)),
            self.stream_fits(old(source).remaining()) && r is Ok ==> r->Ok_0.taking(),
    {
        let ghost fits = self.stream_fits(source.remaining());
        let ghost words = source.remaining();
        let ghost frames = frames_of(self.header_pending(), words);
        let ghost left = samples_of(self.header_pending(), self.remaining(), words);
        let ghost start = self.sink();
        let ghost described = stream_descriptor(
            frames,
            left,
            (start.stream_rate(), start.stream_channels() as int),
        );
        let mut this = self;
        proof {
            lemma_stream_unfold(frames, left);
            if frame_next(frames, left) {
                lemma_frame_words_positive(frames[0]);
            }
            if fits && header_found(self.header_pending(), words) && frame_pending(frames, left) {
                lemma_stream_fits_step(self.sink(), self.sink(), frames, left);
            }
        }
        let mut more = match this.decode_frame(source) {
            Ok(more) => more,
            Err(err) => {
                return Err(err);
            },
        };
        proof {
            if more && fits {
                lemma_stream_fits_step(self.sink(), this.sink(), frames, left);
            }
            if more {
                assert forall|c: int| #[trigger]
                    start.channel(c) + stream_plane(frames, left, c) == this.sink().channel(c)
                        + stream_plane(source.remaining(), this.remaining(), c) by {
                    let frame = frame_plane(frames, 0, c);
                    let rest = stream_plane(source.remaining(), this.remaining(), c);
                    assert((start.channel(c) + frame) + rest =~= start.channel(c) + (frame + rest));
                }
            } else {
                assert forall|c: int| #[trigger]
                    this.sink().channel(c) == start.channel(c) + stream_plane(frames, left, c) by {
                    assert(start.channel(c) + Seq::<i16>::empty() =~= start.channel(c));
                }
            }
        }
        while more
            invariant
                this.wf(),
                !this.header_pending(),
                words == old(source).remaining(),
                frames == frames_of(self.header_pending(), words),
                left == samples_of(self.header_pending(), self.remaining(), words),
                self.header_pending() ==> words.len() > 0 && word_magic(words[0]) == MAGIC,
                fits == self.stream_fits(old(source).remaining()),
                old(source).unfailing() ==> source.unfailing(),
                fits ==> this.sink().taking(),
                fits && more ==> stream_fits(this.sink(), source.remaining(), this.remaining()),
                more ==> stream_rest(frames, left) == stream_rest(
                    source.remaining(),
                    this.remaining(),
                ),
                more ==> forall|c: int| #[trigger]
                    start.channel(c) + stream_plane(frames, left, c) == this.sink().channel(c)
                        + stream_plane(source.remaining(), this.remaining(), c),
                !more ==> stream_rest(frames, left) == Some(source.remaining()),
                !more ==> forall|c: int| #[trigger]
                    this.sink().channel(c) == start.channel(c) + stream_plane(frames, left, c),
                start == self.sink(),
                described == stream_descriptor(
                    frames,
                    left,
                    (start.stream_rate(), start.stream_channels() as int),
                ),
                more ==> described == stream_descriptor(
                    source.remaining(),
                    this.remaining(),
                    (this.sink().stream_rate(), this.sink().stream_channels() as int),
                ),
                !more ==> described == (
                    this.sink().stream_rate(),
                    this.sink().stream_channels() as int,
                ),
            decreases source.remaining().len() + (if more { 1nat } else { 0nat }),
        {
            let ghost before = this;
            let ghost now = source.remaining();
            proof {
                lemma_stream_unfold(now, this.remaining());
                if frame_next(now, this.remaining()) {
                    lemma_frame_words_positive(now[0]);
                }
                if fits && frame_pending(now, this.remaining()) {
                    lemma_stream_fits_step(this.sink(), this.sink(), now, this.remaining());
                }
            }
            more = match this.decode_frame(source) {
                Ok(more) => more,
                Err(err) => {
                    return Err(err);
                },
            };
            proof {
                if more && fits {
                    lemma_stream_fits_step(before.sink(), this.sink(), now, before.remaining());
                }
                if more {
                    assert forall|c: int| #[trigger]
                        start.channel(c) + stream_plane(frames, left, c) == this.sink().channel(c)
                            + stream_plane(source.remaining(), this.remaining(), c) by {
                        let frame = frame_plane(now, 0, c);
                        let rest = stream_plane(source.remaining(), this.remaining(), c);
                        assert(start.channel(c) + stream_plane(frames, left, c)
                            == before.sink().channel(c) + stream_plane(now, before.remaining(), c));
                        assert((before.sink().channel(c) + frame) + rest
                            =~= before.sink().channel(c) + (frame + rest));
                    }
                } else {
                    assert forall|c: int| #[trigger]
                        this.sink().channel(c) == start.channel(c) + stream_plane(
                            frames,
                            left,
                            c,
                        ) by {
                        assert(start.channel(c) + stream_plane(frames, left, c)
                            == before.sink().channel(c) + stream_plane(now, before.remaining(), c));
                        assert(before.sink().channel(c) + Seq::<i16>::empty()
                            =~= before.sink().channel(c));
                    }
                }
            }
        }
        this.close()
    }

    /// Closes the sink and returns it.
    pub fn close(self) -> (r: Result<Sn, DecodeError>)
        requires
            self.wf(),
        ensures
            match r {
                Ok(sink) => {
                    &&& sink.stream_wf()
                    &&& sink.stream_rate() == self.sink().stream_rate()
                    &&& sink.stream_channels() == self.sink().stream_channels()
                    &&& forall|c: int| #[trigger] sink.channel(c) == self.sink().channel(c)
                },
                Err(e) => e is SinkClose,
            },
            self.sink().taking() ==> r is Ok && r->Ok_0.taking(),
    {
        let mut sink = self.sink;
        match sink.close() {
            Ok(()) => Ok(sink),
            Err(err) => Err(DecodeError::SinkClose(err)),
        }
    }
}

impl<S: PcmSink> Decoder<S> {
    /// A decoder into `sink` that begins with the file header; the sink must
    /// be fit for use.
    pub fn from_sink(value: S) -> (d: Self)
        requires
            value.stream_wf(),
        ensures
            d.wf(),
            d.sink() == value,
            d.header_pending(),
            d.remaining() is None,
    {
        Self::new(value)
    }
}

} // verus!
