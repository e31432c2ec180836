//! The encoder: framing of samples into words.

use vstd::prelude::*;
use crate::descriptor::{DescriptorError, StreamDescriptor};
use crate::io::{SinkStream, WriteError};
use crate::layout::{
    compute_frame_size, file_header_word, frame_header_word, frame_size, lanes_word,
    pack_file_header, pack_frame_header, pack_lanes, slices_for,
};
use crate::lms::QoaLmsState;
use crate::encoder::slice_scaler::{
    slice_lms, slice_word, window_of, LinearScaler, SliceScaler, VectorScaler,
};
use crate::descriptor::descriptor_fault;
use crate::tables::{FRAME_LEN, SLICE_LEN};
use crate::pcm_io::{
    interleaved, lemma_least_len_even, PcmBuffer, PcmFrame, PcmSink, PcmSource,
};
use vstd::slice::slice_subrange;

pub mod slice_scaler;

verus! {

/// What a word that could not be written was to hold.
#[derive(Clone, Debug, PartialEq, Eq)]
pub enum WriteKind {
    /// The file header.
    FileHeader,
    /// A frame header.
    FrameHeader,
    /// The predictor state of a channel: its `"history"` or its `"weights"`.
    LmsState(&'static str),
    /// A slice of the channel of this number.
    SliceData(u8),
}

/// Why samples could not be encoded.
#[derive(Clone, Debug, PartialEq, Eq)]
pub enum EncodeError {
    /// The sample count, sample rate or channel count is not one that a
    /// stream can have.
    InvalidDescriptor(DescriptorError),
    /// The sample rate or channel count differs from the one that the
    /// stream was begun with.
    InvalidDescriptorChange,
    /// The source of the samples failed.
    SampleRead(crate::pcm_io::Error),
    /// The sink refused a word.
    Write(WriteKind, WriteError),
    /// The sink could not be flushed.
    Flush(WriteError),
    /// The encoder was closed before.
    Closed,
}

/// The words of one row of slices: the slice of each channel, encoded from
/// the block of interleaved samples `block` with the channels in the states
/// `lms`.
pub open spec fn row_words(block: Seq<i16>, lms: Seq<QoaLmsState>, channels: int) -> Seq<u64> {
    Seq::new(channels as nat, |c: int| slice_word(window_of(block, c, channels), lms[c]))
}

/// The states of the channels after that row.
pub open spec fn row_lms(block: Seq<i16>, lms: Seq<QoaLmsState>, channels: int) -> Seq<
    QoaLmsState,
> {
    Seq::new(channels as nat, |c: int| slice_lms(window_of(block, c, channels), lms[c]))
}

/// The words that hold the states of the channels: for each channel the
/// history and then the weights.
pub open spec fn prelude_words(lms: Seq<QoaLmsState>) -> Seq<u64> {
    Seq::new(
        2 * lms.len(),
        |k: int|
            if k % 2 == 0 {
                lanes_word(lms[k / 2].history)
            } else {
                lanes_word(lms[k / 2].weights)
            },
    )
}

/// The words that open a frame of `samples` samples per channel: the frame
/// header and the states of the channels.
pub open spec fn frame_head(channels: u8, rate: u32, samples: u16, lms: Seq<QoaLmsState>) -> Seq<
    u64,
> {
    seq![
        frame_header_word(
            channels,
            rate,
            samples,
            frame_size(channels as int, slices_for(samples as int)),
        ),
    ] + prelude_words(lms)
}

/// Writes the file header of a stream of `sample_count` samples per channel.
pub fn enc_file_header<S: SinkStream>(sink: &mut S, sample_count: u32) -> (r: Result<
    (),
    EncodeError,
>)
    ensures
        r is Ok ==> final(sink).written() == old(sink).written().push(
            file_header_word(sample_count),
        ),
        r is Err ==> r->Err_0 is Write,
        old(sink).accepting() ==> r is Ok && final(sink).accepting(),
{
    match sink.write_long(pack_file_header(sample_count)) {
        Ok(()) => Ok(()),
        Err(err) => Err(EncodeError::Write(WriteKind::FileHeader, err)),
    }
}

/// Writes a frame header.
pub fn enc_frame_header<S: SinkStream>(
    sink: &mut S,
    channel_count: u8,
    sample_rate: u32,
    sample_count: u16,
    size: u16,
) -> (r: Result<(), EncodeError>)
    requires
        sample_rate < 0x100_0000,
    ensures
        r is Ok ==> final(sink).written() == old(sink).written().push(
            frame_header_word(channel_count, sample_rate, sample_count, size),
        ),
        r is Err ==> r->Err_0 is Write,
        old(sink).accepting() ==> r is Ok && final(sink).accepting(),
{
    match sink.write_long(pack_frame_header(channel_count, sample_rate, sample_count, size)) {
        Ok(()) => Ok(()),
        Err(err) => Err(EncodeError::Write(WriteKind::FrameHeader, err)),
    }
}

/// Writes the state of one channel: its history, then its weights.
pub fn enc_lms_state<S: SinkStream>(sink: &mut S, value: &QoaLmsState) -> (r: Result<
    (),
    EncodeError,
>)
    ensures
        r is Ok ==> final(sink).written() == old(sink).written().push(
            lanes_word(value.history),
        ).push(lanes_word(value.weights)),
        r is Err ==> r->Err_0 is Write,
        old(sink).accepting() ==> r is Ok && final(sink).accepting(),
{
    match sink.write_long(pack_lanes(&value.history)) {
        Ok(()) => {},
        Err(err) => {
            return Err(EncodeError::Write(WriteKind::LmsState("history"), err));
        },
    }
    match sink.write_long(pack_lanes(&value.weights)) {
        Ok(()) => Ok(()),
        Err(err) => Err(EncodeError::Write(WriteKind::LmsState("weights"), err)),
    }
}

/// Writes the states of all channels.
pub fn enc_prelude<S: SinkStream>(sink: &mut S, lms: &Vec<QoaLmsState>) -> (r: Result<
    (),
    EncodeError,
>)
    ensures
        r is Ok ==> final(sink).written() == old(sink).written() + prelude_words(lms@),
        r is Err ==> r->Err_0 is Write,
        old(sink).accepting() ==> r is Ok && final(sink).accepting(),
        lms.len() == 0 ==> r is Ok,
{
    let mut c: usize = 0;
    assert(sink.written() =~= old(sink).written() + prelude_words(lms@).take(0));
    while c < lms.len()
        invariant
            c <= lms.len(),
            sink.written() == old(sink).written() + prelude_words(lms@).take(2 * c),
            old(sink).accepting() ==> sink.accepting(),
        decreases lms.len() - c,
    {
        let ghost before = sink.written();
        match enc_lms_state(sink, &lms[c]) {
            Ok(()) => {},
            Err(err) => {
                return Err(err);
            },
        }
        assert(sink.written() =~= old(sink).written() + prelude_words(lms@).take(2 * (c + 1)));
        c += 1;
    }
    assert(prelude_words(lms@).take(2 * lms.len()) =~= prelude_words(lms@));
    Ok(())
}

/// Encodes one row of slices from a block of interleaved samples and writes
/// it: the slice of each channel in turn.
pub fn enc_slice<S: SinkStream, Sc: SliceScaler>(
    sink: &mut S,
    samples: &[i16],
    channel_count: usize,
    lms: &mut Vec<QoaLmsState>,
) -> (r: Result<(), EncodeError>)
    requires
        old(lms).len() == channel_count,
        channel_count <= 255,
    ensures
        final(lms).len() == channel_count,
        r is Ok ==> {
            &&& final(sink).written() == old(sink).written() + row_words(
                samples@,
                old(lms)@,
                channel_count as int,
            )
            &&& final(lms)@ == row_lms(samples@, old(lms)@, channel_count as int)
        },
        r is Err ==> r->Err_0 is Write,
        old(sink).accepting() ==> r is Ok && final(sink).accepting(),
        channel_count == 0 ==> r is Ok,
{
    let ghost words = row_words(samples@, old(lms)@, channel_count as int);
    let ghost states = row_lms(samples@, old(lms)@, channel_count as int);
    let mut chn: usize = 0;
    assert(sink.written() =~= old(sink).written() + words.take(0));
    while chn < channel_count
        invariant
            chn <= channel_count <= 255,
            lms.len() == channel_count,
            words == row_words(samples@, old(lms)@, channel_count as int),
            states == row_lms(samples@, old(lms)@, channel_count as int),
            sink.written() == old(sink).written() + words.take(chn as int),
            old(sink).accepting() ==> sink.accepting(),
            forall|c: int| 0 <= c < chn ==> lms[c] == states[c],
            forall|c: int| chn <= c < channel_count ==> lms[c] == old(lms)[c],
        decreases channel_count - chn,
    {
        let mut state = lms[chn];
        let word = Sc::scale(samples, &mut state, chn, channel_count);
        lms[chn] = state;
        match sink.write_long(word) {
            Ok(()) => {},
            Err(err) => {
                return Err(EncodeError::Write(WriteKind::SliceData(chn as u8), err));
            },
        }
        assert(sink.written() =~= old(sink).written() + words.take(chn + 1));
        chn += 1;
    }
    assert(words.take(channel_count as int) =~= words);
    assert(lms@ =~= states);
    Ok(())
}

/// A frame in the making: how many rows of slices it is to hold and how
/// many of them are written.
#[derive(Clone, Debug)]
pub struct Frame {
    /// The number of interleaved samples in a full row: twenty for each
    /// channel.
    pub slice_width: usize,
    /// The number of rows of the frame.
    pub slice_count: u16,
    /// The number of rows written.
    pub slice_index: u16,
    /// The number of samples per channel that the frame declares.
    pub samples: u16,
    /// Samples that wait for the rest of their row, interleaved.
    pub buffer: Vec<i16>,
}

impl Frame {
    /// The frame declares at most 5120 samples, has a row for every twenty of
    /// them, and not more rows written than it has.
    pub open spec fn wf(self) -> bool {
        &&& self.samples <= 5120
        &&& self.slice_count == slices_for(self.samples as int)
        &&& self.slice_index <= self.slice_count
    }

    /// The number of samples per channel that are still to be written to the
    /// frame.
    pub open spec fn left(self) -> nat {
        if self.slice_index < self.slice_count {
            (self.samples - 20 * self.slice_index) as nat
        } else {
            0
        }
    }

    /// A frame for `channel_count` channels that holds nothing.
    pub fn new(channel_count: usize) -> (f: Self)
        requires
            channel_count <= 255,
        ensures
            f.wf(),
            f.left() == 0,
            f.slice_count == 0,
            f.slice_index == 0,
            f.samples == 0,
            f.buffer@ == Seq::<i16>::empty(),
            f.slice_width == 20 * channel_count,
    {
        Frame {
            slice_width: SLICE_LEN * channel_count,
            slice_count: 0,
            slice_index: 0,
            samples: 0,
            buffer: Vec::new(),
        }
    }

    /// Begins a frame of `samples` samples per channel, 5120 at most, where
    /// the one before is complete. Returns whether it did.
    pub fn start(&mut self, samples: usize, channels: usize) -> (started: bool)
        requires
            old(self).wf(),
            channels <= 255,
        ensures
            final(self).wf(),
            started == (old(self).left() == 0),
            final(self).buffer == old(self).buffer,
            started ==> {
                &&& final(self).samples == (if samples < 5120 { samples } else { 5120 })
                &&& final(self).slice_index == 0
                &&& final(self).left() == final(self).samples
                &&& final(self).slice_width == 20 * channels
            },
            !started ==> *final(self) == *old(self),
    {
        if self.complete() {
            let samples = if samples < FRAME_LEN { samples } else { FRAME_LEN };
            self.slice_width = SLICE_LEN * channels;
            self.slice_count = ((samples + SLICE_LEN - 1) / SLICE_LEN) as u16;
            self.slice_index = 0;
            self.samples = samples as u16;
            true
        } else {
            false
        }
    }

    /// Whether all rows of the frame are written.
    pub fn complete(&self) -> (done: bool)
        requires
            self.wf(),
        ensures
            done == (self.left() == 0),
    {
        self.slice_index >= self.slice_count
    }

    /// Forgets the frame.
    pub fn reset(&mut self)
        ensures
            final(self).wf(),
            final(self).left() == 0,
            final(self).slice_count == 0,
            final(self).slice_index == 0,
            final(self).samples == 0,
            final(self).buffer == old(self).buffer,
            final(self).slice_width == old(self).slice_width,
    {
        self.slice_count = 0;
        self.slice_index = 0;
        self.samples = 0;
    }
}

/// What the framing of samples depends on: the declared samples that are not
/// encoded yet (none in a stream of unknown length), the states of the
/// channels, the samples per channel that the frame in the making still
/// lacks, and the samples that wait for their row.
pub ghost struct Framing {
    pub remaining: Option<nat>,
    pub lms: Seq<QoaLmsState>,
    pub left: nat,
    pub pending: Seq<i16>,
}

/// The number of samples per channel that the next frame declares: what is
/// known to come, 5120 at most. In a stream of known length that is what
/// remains of the declared count; else it is what is at hand.
pub open spec fn next_frame_samples(f: Framing, channels: int) -> nat {
    let known = match f.remaining {
        Some(r) => r,
        None => f.pending.len() / (channels as nat),
    };
    if known < 5120 {
        known
    } else {
        5120
    }
}

/// What is left of the declared count after `len` more samples.
pub open spec fn remaining_after(remaining: Option<nat>, len: nat) -> Option<nat> {
    match remaining {
        Some(r) => Some(if r > len { (r - len) as nat } else { 0 }),
        None => None,
    }
}

/// The number of samples per channel in the next row of a frame that still
/// lacks `left` samples: twenty, or what the frame lacks.
pub open spec fn next_row_len(left: nat) -> nat {
    if left < 20 {
        left
    } else {
        20
    }
}

/// The framing after a frame of `samples` samples per channel was begun.
pub open spec fn frame_begun(f: Framing, samples: nat) -> Framing {
    Framing { remaining: f.remaining, lms: f.lms, left: samples, pending: f.pending }
}

/// The framing after the next row was written.
pub open spec fn row_written(f: Framing, channels: int) -> Framing {
    let len = next_row_len(f.left);
    Framing {
        remaining: remaining_after(f.remaining, len),
        lms: row_lms(f.pending.take(len * channels), f.lms, channels),
        left: (f.left - len) as nat,
        pending: f.pending.skip(len * channels),
    }
}

/// Whether nothing can be written: no frame is in the making and none can
/// be begun, or the next row is not filled.
pub open spec fn stalled(f: Framing, channels: int) -> bool {
    if f.left == 0 {
        f.pending.len() < channels || next_frame_samples(f, channels) == 0
    } else {
        f.pending.len() < next_row_len(f.left) * channels
    }
}

/// Writes out every row that the pending samples fill. Where no frame is in
/// the making and a sample of each channel is at hand, a frame is begun: its
/// header and the states of the channels are written. A row takes twenty
/// samples of each channel, or, as the last row of its frame, what the frame
/// still lacks. Returns the framing that is left and the words written.
#[verifier::opaque]
pub open spec fn drain(f: Framing, rate: u32, channels: int) -> (Framing, Seq<u64>)
    decreases f.pending.len(), (if f.left == 0 { 1nat } else { 0nat }),
{
    if channels <= 0 || stalled(f, channels) {
        (f, Seq::empty())
    } else if f.left == 0 {
        let samples = next_frame_samples(f, channels);
        let rest = drain(frame_begun(f, samples), rate, channels);
        (rest.0, frame_head(channels as u8, rate, samples as u16, f.lms) + rest.1)
    } else {
        proof {
            lemma_row_takes(next_row_len(f.left) as int, channels);
        }
        let block = f.pending.take(next_row_len(f.left) * channels);
        let rest = drain(row_written(f, channels), rate, channels);
        (rest.0, row_words(block, f.lms, channels) + rest.1)
    }
}

/// A row of at least one sample per channel takes at least one sample.
pub proof fn lemma_row_takes(len: int, channels: int)
    by (nonlinear_arith)
    requires
        1 <= len <= 20,
        1 <= channels,
    ensures
        channels <= len * channels <= 20 * channels,
{
}

/// Nothing is written where the framing is stalled.
pub proof fn lemma_drain_stalled(f: Framing, rate: u32, channels: int)
    requires
        channels <= 0 || stalled(f, channels),
    ensures
        drain(f, rate, channels) == (f, Seq::<u64>::empty()),
{
    reveal_with_fuel(drain, 1);
}

/// Where a frame can be begun, its head is written, and then what the
/// framing with that frame begun writes.
pub proof fn lemma_drain_begin(f: Framing, rate: u32, channels: int)
    requires
        channels > 0,
        f.left == 0,
        !stalled(f, channels),
    ensures
        ({
            let samples = next_frame_samples(f, channels);
            let rest = drain(frame_begun(f, samples), rate, channels);
            drain(f, rate, channels) == (
                rest.0,
                frame_head(channels as u8, rate, samples as u16, f.lms) + rest.1,
            )
        }),
{
    reveal_with_fuel(drain, 1);
}

/// Where the next row is filled, it is written, and then what the framing
/// after that row writes.
pub proof fn lemma_drain_row(f: Framing, rate: u32, channels: int)
    requires
        channels > 0,
        f.left > 0,
        !stalled(f, channels),
    ensures
        ({
            let block = f.pending.take(next_row_len(f.left) * channels);
            let rest = drain(row_written(f, channels), rate, channels);
            drain(f, rate, channels) == (rest.0, row_words(block, f.lms, channels) + rest.1)
        }),
{
    reveal_with_fuel(drain, 1);
}

/// `n` samples of silence.
pub open spec fn silence(n: nat) -> Seq<i16> {
    Seq::new(n, |i: int| 0i16)
}

/// The framing with `extra` samples after the pending ones.
pub open spec fn with_more(f: Framing, extra: Seq<i16>) -> Framing {
    Framing {
        remaining: f.remaining,
        lms: f.lms,
        left: f.left,
        pending: f.pending + extra,
    }
}

/// The number of samples that the pending ones lack to make up the declared
/// count.
pub open spec fn shortfall(f: Framing, channels: int) -> nat {
    match f.remaining {
        Some(r) => if r * channels > f.pending.len() {
            (r * channels - f.pending.len()) as nat
        } else {
            0
        },
        None => 0,
    }
}

/// What draining leaves can write nothing more. In a stream of known length
/// it leaves no more of the declared count than there was, a frame in the
/// making that lacks no more than remains, and the same shortfall.
pub proof fn lemma_drain_leaves(f: Framing, rate: u32, channels: int)
    requires
        channels > 0,
    ensures
        stalled(drain(f, rate, channels).0, channels),
        drain(f, rate, channels).0.remaining is Some <==> f.remaining is Some,
        f.remaining is Some && f.left <= f.remaining->0 ==> {
            let rest = drain(f, rate, channels).0;
            &&& rest.remaining->0 <= f.remaining->0
            &&& rest.left <= rest.remaining->0
            &&& rest.remaining->0 * channels - rest.pending.len() == f.remaining->0 * channels
                - f.pending.len()
        },
    decreases f.pending.len(), (if f.left == 0 { 1nat } else { 0nat }),
{
    if stalled(f, channels) {
        lemma_drain_stalled(f, rate, channels);
    } else if f.left == 0 {
        lemma_drain_begin(f, rate, channels);
        lemma_drain_leaves(frame_begun(f, next_frame_samples(f, channels)), rate, channels);
    } else {
        lemma_drain_row(f, rate, channels);
        let len = next_row_len(f.left);
        lemma_row_takes(len as int, channels);
        let next = row_written(f, channels);
        lemma_drain_leaves(next, rate, channels);
        if f.remaining is Some && f.left <= f.remaining->0 {
            let r = f.remaining->0;
            assert((r - len) * channels == r * channels - len * channels) by (nonlinear_arith);
        }
    }
}

/// In a stream of known length, samples may come in any portions: draining,
/// then draining again with more samples, writes what draining with all of
/// them at once writes.
pub proof fn lemma_drain_in_portions(f: Framing, extra: Seq<i16>, rate: u32, channels: int)
    requires
        channels > 0,
        f.remaining is Some,
    ensures
        ({
            let first = drain(f, rate, channels);
            let second = drain(with_more(first.0, extra), rate, channels);
            drain(with_more(f, extra), rate, channels) == (second.0, first.1 + second.1)
        }),
    decreases f.pending.len(), (if f.left == 0 { 1nat } else { 0nat }),
{
    let all = with_more(f, extra);
    let first = drain(f, rate, channels);
    if stalled(f, channels) {
        lemma_drain_stalled(f, rate, channels);
        let second = drain(all, rate, channels);
        assert(Seq::<u64>::empty() + second.1 =~= second.1);
    } else if f.left == 0 {
        let samples = next_frame_samples(f, channels);
        assert(samples == next_frame_samples(all, channels));
        lemma_drain_begin(f, rate, channels);
        lemma_drain_begin(all, rate, channels);
        let begun = frame_begun(f, samples);
        assert(frame_begun(all, samples) == with_more(begun, extra));
        lemma_drain_in_portions(begun, extra, rate, channels);
        let head = frame_head(channels as u8, rate, samples as u16, f.lms);
        let inner = drain(begun, rate, channels);
        let second = drain(with_more(inner.0, extra), rate, channels);
        assert(head + (inner.1 + second.1) =~= (head + inner.1) + second.1);
    } else {
        let len = next_row_len(f.left);
        lemma_row_takes(len as int, channels);
        lemma_drain_row(f, rate, channels);
        lemma_drain_row(all, rate, channels);
        let k = len * channels;
        assert(all.pending.take(k) =~= f.pending.take(k));
        assert(all.pending.skip(k) =~= f.pending.skip(k) + extra);
        let next = row_written(f, channels);
        assert(row_written(all, channels) == with_more(next, extra));
        lemma_drain_in_portions(next, extra, rate, channels);
        let row = row_words(f.pending.take(k), f.lms, channels);
        let inner = drain(next, rate, channels);
        let second = drain(with_more(inner.0, extra), rate, channels);
        assert(row + (inner.1 + second.1) =~= (row + inner.1) + second.1);
    }
}

/// Where the next row is filled, draining encodes some of the declared
/// count.
pub proof fn lemma_drain_progress(f: Framing, rate: u32, channels: int)
    requires
        channels > 0,
        f.remaining is Some,
        f.remaining->0 > 0,
        f.left <= f.remaining->0,
        f.pending.len() >= next_row_len(
            if f.left > 0 {
                f.left
            } else {
                next_frame_samples(f, channels)
            },
        ) * channels,
    ensures
        drain(f, rate, channels).0.remaining->0 < f.remaining->0,
    decreases (if f.left == 0 { 1nat } else { 0nat }),
{
    if f.left == 0 {
        let samples = next_frame_samples(f, channels);
        lemma_row_takes(next_row_len(samples) as int, channels);
        lemma_drain_begin(f, rate, channels);
        lemma_drain_progress(frame_begun(f, samples), rate, channels);
    } else {
        lemma_row_takes(next_row_len(f.left) as int, channels);
        lemma_drain_row(f, rate, channels);
        lemma_drain_leaves(row_written(f, channels), rate, channels);
    }
}

/// The sum of the numbers.
pub open spec fn total(sizes: Seq<nat>) -> nat
    decreases sizes.len(),
{
    if sizes.len() == 0 {
        0
    } else {
        total(sizes.drop_last()) + sizes.last()
    }
}

/// The `len` samples from sample `from` on of each of the first `channels`
/// channels, interleaved.
pub open spec fn portion(planes: Seq<Seq<i16>>, channels: nat, from: nat, len: nat) -> Seq<i16> {
    interleaved(
        Seq::new(channels, |c: int| planes[c].subrange(from as int, (from + len) as int)),
        len,
    )
}

/// Whether a source that held `planes` has delivered portions of the sizes
/// `sizes`, each of 5120 samples per channel at most and of one at least,
/// and now holds `rest`, and an encoder that was in state `pre` has taken
/// them one after the other and is in state `post`.
pub open spec fn portions_taken(
    pre: EncoderState,
    post: EncoderState,
    rate: u32,
    channels: usize,
    planes: Seq<Seq<i16>>,
    rest: Seq<Seq<i16>>,
    sizes: Seq<nat>,
) -> bool {
    &&& post == pre.after_portions(rate, channels, planes, sizes)
    &&& forall|i: int| 0 <= i < sizes.len() ==> 1 <= #[trigger] sizes[i] <= 5120
    &&& forall|c: int|
        0 <= c < channels ==> total(sizes) <= (#[trigger] planes[c]).len() && rest[c]
            == planes[c].skip(total(sizes) as int)
}

/// How an encoder takes a source of samples.
pub ghost enum Verdict {
    /// It is closed.
    Closed,
    /// The sample rate or channel count differs from the one of the
    /// stream, or the source does not have the channel count that it is
    /// to be encoded with.
    Change,
    /// The sample rate or channel count is not one that a stream can have.
    Invalid(DescriptorError),
    /// The sample rate or the channel count is not known: nothing is done.
    Idle,
    /// It encodes what the source delivers.
    Go { rate: u32, channels: usize },
}

/// A state that the samples were encoded into is the state that is taken
/// from them.
pub proof fn lemma_encoded_is_taken(
    pre: EncoderState,
    post: EncoderState,
    rate: u32,
    channels: usize,
    samples: Seq<i16>,
)
    requires
        pre.encoded(post, rate, channels, samples),
    ensures
        post == pre.taken(rate, channels, samples),
{
    let done = drain(pre.framing_with(channels, samples), rate, channels as int);
    let taken = pre.taken(rate, channels, samples);
    assert(post.framing() == done.0);
    assert(post.desc.sample_count == taken.desc.sample_count);
    assert(post.desc == taken.desc);
}

/// An encoder that is open takes a block of `n` samples per channel whole,
/// if the block comes with the sample rate and channel count of the stream
/// and, in a stream of known length, the declared count has room for it.
pub proof fn lemma_block_admitted(st: EncoderState, rate: u32, channels: usize, n: nat, len: usize)
    requires
        st.sink is Some,
        1 <= rate < 0x100_0000,
        1 <= channels <= 255,
        len == n * channels,
        st.desc.sample_rate is Some <==> st.desc.channel_count is Some,
        st.desc.sample_rate is Some ==> st.desc.sample_rate == Some(rate) && st.desc.channel_count
            == Some(channels),
        st.desc.sample_count is Some ==> st.desc.sample_rate is Some && n + st.pending.len() / (
        channels as nat) <= st.desc.sample_count->0,
    ensures
        st.admission(
            len,
            StreamDescriptor {
                sample_count: None,
                sample_rate: Some(rate),
                channel_count: Some(channels),
            },
        ) == (Admission::Take { rate, channels, groups: n }),
{
    let desc = StreamDescriptor {
        sample_count: None,
        sample_rate: Some(rate),
        channel_count: Some(channels),
    };
    vstd::arithmetic::div_mod::lemma_div_multiples_vanish(n as int, channels as int);
    assert(n * channels == channels * n) by (nonlinear_arith);
    assert(len as nat / (channels as nat) == n);
    let eff = desc.spec_infer_from_len(len, st.desc);
    assert(eff.sample_rate == Some(rate));
    assert(eff.channel_count == Some(channels));
    assert(st.groups(len, eff) == n);
}

/// How an encoder takes a call that offers it samples.
pub ghost enum Admission {
    /// It is closed.
    Closed,
    /// The sample rate or channel count differs from the one of the stream.
    Change,
    /// The sample rate or channel count is not one that a stream can have.
    Invalid(DescriptorError),
    /// The sample rate or the channel count is not known: nothing is done.
    Idle,
    /// It encodes the first `groups` samples of each channel.
    Take { rate: u32, channels: usize, groups: nat },
}

/// `lms` cut or filled up with the initial state to `channels` entries.
pub open spec fn lms_resized(lms: Seq<QoaLmsState>, channels: nat) -> Seq<QoaLmsState> {
    Seq::new(
        channels,
        |c: int|
            if c < lms.len() {
                lms[c]
            } else {
                QoaLmsState::spec_default()
            },
    )
}

/// What an encoder holds, as plain values.
pub ghost struct EncoderState {
    /// The words that the sink has taken, or nothing once the encoder is
    /// closed.
    pub sink: Option<Seq<u64>>,
    /// The sample rate and channel count of the stream where they are
    /// known, and, in a stream of known length, the declared samples that
    /// are not encoded yet.
    pub desc: StreamDescriptor,
    /// Whether the file header is written.
    pub has_header: bool,
    /// The states of the channels.
    pub lms: Seq<QoaLmsState>,
    /// The samples per channel that the frame in the making still lacks.
    pub left: nat,
    /// The samples that wait for their row.
    pub pending: Seq<i16>,
}

impl EncoderState {
    /// The framing that the state holds.
    pub open spec fn framing(self) -> Framing {
        Framing {
            remaining: match self.desc.sample_count {
                Some(r) => Some(r as nat),
                None => None,
            },
            lms: self.lms,
            left: self.left,
            pending: self.pending,
        }
    }

    /// The number of samples per channel that the encoder takes from a block
    /// of `len` interleaved samples under the descriptor `eff`: what the
    /// block holds, limited by the sample count of the descriptor and, in a
    /// stream of known length, by the declared samples that are neither
    /// encoded nor pending.
    pub open spec fn groups(self, len: usize, eff: StreamDescriptor) -> nat {
        let channels = eff.channel_count->0 as nat;
        let at_hand = len as nat / channels;
        let cap = if eff.sample_count is Some { eff.sample_count->0 as nat } else { 0 };
        let offered = if cap < at_hand { cap } else { at_hand };
        match self.desc.sample_count {
            Some(remaining) => {
                let buffered = self.pending.len() / channels;
                let room = if remaining > buffered { (remaining - buffered) as nat } else { 0 };
                if offered < room {
                    offered
                } else {
                    room
                }
            },
            None => offered,
        }
    }

    /// How the encoder takes a call with a block of `len` interleaved
    /// samples and the descriptor `desc`.
    pub open spec fn admission(self, len: usize, desc: StreamDescriptor) -> Admission {
        let eff = desc.spec_infer_from_len(len, self.desc);
        if self.sink is None {
            Admission::Closed
        } else if self.desc.sample_rate is Some {
            if eff.sample_rate != self.desc.sample_rate || eff.channel_count
                != self.desc.channel_count {
                Admission::Change
            } else {
                Admission::Take {
                    rate: eff.sample_rate->0,
                    channels: eff.channel_count->0,
                    groups: self.groups(len, eff),
                }
            }
        } else if eff.sample_rate is None || eff.channel_count is None {
            Admission::Idle
        } else {
            match descriptor_fault(None, eff.sample_rate, eff.channel_count) {
                Some(fault) => Admission::Invalid(fault),
                None => Admission::Take {
                    rate: eff.sample_rate->0,
                    channels: eff.channel_count->0,
                    groups: self.groups(len, eff),
                },
            }
        }
    }

    /// The file header, where it is still to be written: it declares the
    /// sample count of the stream, or 0 where that is not known.
    pub open spec fn header_words(self) -> Seq<u64> {
        if self.has_header {
            Seq::empty()
        } else {
            seq![
                file_header_word(
                    if self.desc.sample_count is Some {
                        self.desc.sample_count->0 as u32
                    } else {
                        0
                    },
                ),
            ]
        }
    }

    /// The framing from which the encoder goes on when it is given
    /// `samples` for a stream of `channels` channels.
    pub open spec fn framing_with(self, channels: usize, samples: Seq<i16>) -> Framing {
        Framing {
            remaining: self.framing().remaining,
            lms: lms_resized(self.lms, channels as nat),
            left: self.left,
            pending: self.pending + samples,
        }
    }

    /// The state after the interleaved `samples` were given to an encoder
    /// in state `self`: the file header is written where it was not, the
    /// samples join the pending ones, and every row that these fill is
    /// written.
    pub open spec fn taken(self, rate: u32, channels: usize, samples: Seq<i16>) -> EncoderState {
        let done = drain(self.framing_with(channels, samples), rate, channels as int);
        EncoderState {
            sink: Some(self.sink->0 + self.header_words() + done.1),
            desc: StreamDescriptor {
                sample_count: match done.0.remaining {
                    Some(r) => Some(r as usize),
                    None => None,
                },
                sample_rate: Some(rate),
                channel_count: Some(channels),
            },
            has_header: true,
            lms: done.0.lms,
            left: done.0.left,
            pending: done.0.pending,
        }
    }

    /// The state after the samples in `planes` were given in portions of
    /// the sizes `sizes`, one after the other.
    pub open spec fn after_portions(
        self,
        rate: u32,
        channels: usize,
        planes: Seq<Seq<i16>>,
        sizes: Seq<nat>,
    ) -> EncoderState
        decreases sizes.len(),
    {
        if sizes.len() == 0 {
            self
        } else {
            self.after_portions(rate, channels, planes, sizes.drop_last()).taken(
                rate,
                channels,
                portion(planes, channels as nat, total(sizes.drop_last()), sizes.last()),
            )
        }
    }

    /// How the encoder takes a source that reports the sample rate
    /// `source_rate` and the channel count `source_channels`, 0 standing for
    /// one that the source does not know. What the source reports is held
    /// against the sample rate and channel count of the stream before
    /// anything else is weighed; a stream that has none yet takes them
    /// from the source, if they are ones that a stream can have.
    pub open spec fn verdict(self, source_rate: u32, source_channels: usize) -> Verdict {
        if self.sink is None {
            Verdict::Closed
        } else if self.desc.sample_rate is Some {
            if (source_rate != 0 && Some(source_rate) != self.desc.sample_rate) || (source_channels
                != 0 && Some(source_channels) != self.desc.channel_count) {
                Verdict::Change
            } else if source_channels == 0 {
                Verdict::Idle
            } else {
                Verdict::Go { rate: self.desc.sample_rate->0, channels: source_channels }
            }
        } else if source_rate == 0 || source_channels == 0 {
            Verdict::Idle
        } else {
            match descriptor_fault(None, Some(source_rate), Some(source_channels)) {
                Some(fault) => Verdict::Invalid(fault),
                None => Verdict::Go { rate: source_rate, channels: source_channels },
            }
        }
    }

    /// Whether the encoder has read out a source of `channels` channels that
    /// still holds `rest`: the samples that wait make up what remained of
    /// the declared count, or some channel of the source holds no more.
    pub open spec fn read_out(self, channels: usize, rest: Seq<Seq<i16>>) -> bool {
        ||| self.desc.sample_count is Some && self.desc.sample_count->0 * channels
            <= self.pending.len()
        ||| exists|c: int| 0 <= c < channels && (#[trigger] rest[c]).len() == 0
    }

    /// Whether an encoder in state `self` that is given a source may end
    /// with the result `r` and in state `post`, where the source reports
    /// the sample rate `source_rate` and the channel count
    /// `source_channels` and held the samples `planes`, of which it holds
    /// `rest` afterwards: the encoder has taken what the source delivered,
    /// portion by portion.
    pub open spec fn fed(
        self,
        post: EncoderState,
        source_rate: u32,
        source_channels: usize,
        planes: Seq<Seq<i16>>,
        rest: Seq<Seq<i16>>,
        r: Result<(), EncodeError>,
    ) -> bool {
        let verdict = self.verdict(source_rate, source_channels);
        &&& verdict is Closed ==> r == Err::<(), EncodeError>(EncodeError::Closed) && post == self
        &&& verdict is Change ==> r == Err::<(), EncodeError>(EncodeError::InvalidDescriptorChange)
            && post == self
        &&& verdict is Invalid ==> r == Err::<(), EncodeError>(
            EncodeError::InvalidDescriptor(verdict->0),
        ) && post == self
        &&& verdict is Idle ==> r is Ok && post == self
        &&& verdict is Go ==> match r {
            Ok(_) => exists|sizes: Seq<nat>| #[trigger]
                portions_taken(self, post, verdict->rate, verdict->channels, planes, rest, sizes),
            Err(e) => e is Write || e is Flush || e is SampleRead,
        }
    }

    /// Whether `post` is the state after the interleaved `samples` were
    /// given to an encoder in state `self`: the file header is written
    /// where it was not, the samples join the pending ones, and every row
    /// that these fill is written.
    pub open spec fn encoded(
        self,
        post: EncoderState,
        rate: u32,
        channels: usize,
        samples: Seq<i16>,
    ) -> bool {
        let done = drain(self.framing_with(channels, samples), rate, channels as int);
        &&& post.sink == Some(self.sink->0 + self.header_words() + done.1)
        &&& post.framing() == done.0
        &&& post.desc.sample_rate == Some(rate)
        &&& post.desc.channel_count == Some(channels)
        &&& post.has_header
    }

    /// The words that the sink holds when the encoder is closed: the
    /// file header where it was not written, and every row that the pending
    /// samples fill once silence makes them up to the declared count. Of a
    /// stream whose sample rate and channel count never came to be known,
    /// nothing is written.
    pub open spec fn closing_words(self) -> Seq<u64> {
        if self.desc.sample_rate is Some {
            let channels = self.desc.channel_count->0 as int;
            let padded = with_more(self.framing(), silence(shortfall(self.framing(), channels)));
            self.sink->0 + self.header_words() + drain(padded, self.desc.sample_rate->0, channels).1
        } else {
            self.sink->0
        }
    }

    /// Whether a call that offers the interleaved samples `source` under the
    /// descriptor `desc` may end with the result `r`, the state `post` and
    /// `rest` left of the samples.
    pub open spec fn offered(
        self,
        post: EncoderState,
        source: Seq<i16>,
        rest: Seq<i16>,
        desc: StreamDescriptor,
        r: Result<(), EncodeError>,
    ) -> bool {
        match self.admission(source.len() as usize, desc) {
            Admission::Closed => r == Err::<(), EncodeError>(EncodeError::Closed) && post == self
                && rest == source,
            Admission::Change => r == Err::<(), EncodeError>(
                EncodeError::InvalidDescriptorChange,
            ) && post == self && rest == source,
            Admission::Invalid(fault) => r == Err::<(), EncodeError>(
                EncodeError::InvalidDescriptor(fault),
            ) && post == self && rest == source,
            Admission::Idle => r is Ok && post == self && rest == source,
            Admission::Take { rate, channels, groups } => match r {
                Ok(_) => self.encoded(post, rate, channels, source.take(groups * channels)) && rest
                    == source.skip(groups * channels),
                Err(e) => e is Write || e is Flush,
            },
        }
    }
}

/// Encodes PCM samples to a sink of words, in frames of at most 5120 samples
/// per channel.
///
/// An encoder must be closed with `close`: that writes the file header where
/// it is still to be written, makes up the samples that a stream of known
/// length lacks, flushes the sink and hands it back. An encoder that is
/// dropped without that does none of it.
pub struct Encoder<S: SinkStream, Sc: SliceScaler = LinearScaler> {
    desc: StreamDescriptor,
    sink: Option<S>,
    has_header: bool,
    lms_states: Vec<QoaLmsState>,
    frame: Frame,
    _scaler: Sc,
}

/// An encoder that scales its slices with the sixteen-lane scaler.
pub type SimdEncoder<S> = Encoder<S, VectorScaler>;

impl<S: SinkStream, Sc: SliceScaler> Encoder<S, Sc> {
    /// What the encoder holds.
    pub closed spec fn state(&self) -> EncoderState {
        EncoderState {
            sink: match self.sink {
                Some(sink) => Some(sink.written()),
                None => None,
            },
            desc: self.desc,
            has_header: self.has_header,
            lms: self.lms_states@,
            left: self.frame.left(),
            pending: self.frame.buffer@,
        }
    }

    /// Whether the sink, as long as the encoder has it, takes every word
    /// and can always be flushed.
    pub closed spec fn unfailing(&self) -> bool {
        self.sink is Some ==> self.sink->0.accepting()
    }

    /// The sample rate and the channel count are both known or both not,
    /// and where known they are ones that a stream can have; each channel
    /// has a state; the frame in the making lacks no more than what remains
    /// of the declared count.
    pub closed spec fn wf(&self) -> bool {
        &&& self.frame.wf()
        &&& self.desc.sample_rate is Some <==> self.desc.channel_count is Some
        &&& self.desc.sample_rate is Some ==> {
            &&& 1 <= self.desc.sample_rate->0 < 0x100_0000
            &&& 1 <= self.desc.channel_count->0 <= 255
            &&& self.lms_states.len() == self.desc.channel_count->0
        }
        &&& self.desc.sample_count is Some ==> {
            &&& self.desc.sample_rate is Some
            &&& self.frame.left() <= self.desc.sample_count->0 <= 0xffff_ffff
        }
    }

    /// An encoder of a stream of `sample_count` samples per channel that
    /// scales its slices with `scaler`.
    pub fn _new_fixed(
        sample_count: usize,
        sample_rate: u32,
        channel_count: usize,
        sink: S,
        scaler: Sc,
    ) -> (r: Result<Self, EncodeError>)
        ensures
            match descriptor_fault(Some(sample_count), Some(sample_rate), Some(channel_count)) {
                Some(fault) => r is Err && r->Err_0 == EncodeError::InvalidDescriptor(fault),
                None => r is Ok && r->Ok_0.wf() && r->Ok_0.unfailing() == sink.accepting()
                    && r->Ok_0.state() == (EncoderState {
                    sink: Some(sink.written()),
                    desc: StreamDescriptor {
                        sample_count: Some(sample_count),
                        sample_rate: Some(sample_rate),
                        channel_count: Some(channel_count),
                    },
                    has_header: false,
                    lms: lms_resized(Seq::empty(), channel_count as nat),
                    left: 0,
                    pending: Seq::empty(),
                }),
            },
    {
        let desc = match StreamDescriptor::new(
            Some(sample_count),
            Some(sample_rate),
            Some(channel_count),
        ) {
            Ok(desc) => desc,
            Err(fault) => {
                return Err(EncodeError::InvalidDescriptor(fault));
            },
        };
        let mut encoder = Encoder {
            desc: StreamDescriptor { sample_count: None, sample_rate: None, channel_count: None },
            sink: Some(sink),
            has_header: false,
            lms_states: Vec::new(),
            frame: Frame::new(channel_count),
            _scaler: scaler,
        };
        encoder.resize_lms(channel_count);
        encoder.desc = desc;
        Ok(encoder)
    }

    /// An encoder of a stream of unknown length that scales its slices with
    /// `scaler`.
    pub fn _new_streaming(sink: S, scaler: Sc) -> (e: Self)
        ensures
            e.wf(),
            e.unfailing() == sink.accepting(),
            e.state() == (EncoderState {
                sink: Some(sink.written()),
                desc: StreamDescriptor { sample_count: None, sample_rate: None, channel_count: None },
                has_header: false,
                lms: Seq::empty(),
                left: 0,
                pending: Seq::empty(),
            }),
    {
        Encoder {
            desc: StreamDescriptor { sample_count: None, sample_rate: None, channel_count: None },
            sink: Some(sink),
            has_header: false,
            lms_states: Vec::new(),
            frame: Frame::new(0),
            _scaler: scaler,
        }
    }

    /// The framing that the encoder holds when the first `pos` pending
    /// samples are taken as written.
    closed spec fn framing_at(&self, pos: int) -> Framing {
        Framing {
            remaining: self.state().framing().remaining,
            lms: self.lms_states@,
            left: self.frame.left(),
            pending: self.frame.buffer@.skip(pos),
        }
    }

    /// What the loops of the encoder keep: the descriptor is complete and
    /// the frame in the making fits what remains.
    closed spec fn steady(&self, rate: u32, channels: usize) -> bool {
        &&& self.frame.wf()
        &&& self.desc.sample_rate == Some(rate)
        &&& self.desc.channel_count == Some(channels)
        &&& self.desc.sample_count is Some ==> self.frame.left() <= self.desc.sample_count->0
            <= 0xffff_ffff
        &&& 1 <= rate < 0x100_0000
        &&& 1 <= channels <= 255
        &&& self.lms_states.len() == channels
    }

    /// Begins a frame of `samples` samples per channel and writes its head.
    fn begin_frame(&mut self, sink: &mut S, rate: u32, channels: usize, samples: usize) -> (r:
        Result<(), EncodeError>)
        requires
            old(self).steady(rate, channels),
            old(self).frame.left() == 0,
            1 <= samples <= 5120,
            old(self).desc.sample_count is Some ==> samples <= old(self).desc.sample_count->0,
        ensures
            final(self).steady(rate, channels),
            final(self).sink == old(self).sink,
            final(self).has_header == old(self).has_header,
            final(self).desc == old(self).desc,
            final(self).lms_states == old(self).lms_states,
            final(self).frame.buffer == old(self).frame.buffer,
            r is Ok ==> {
                &&& final(self).frame.left() == samples
                &&& final(sink).written() == old(sink).written() + frame_head(
                    channels as u8,
                    rate,
                    samples as u16,
                    old(self).lms_states@,
                )
            },
            r is Err ==> r->Err_0 is Write && final(self).frame.left() == 0,
            old(sink).accepting() ==> r is Ok && final(sink).accepting(),
    {
        self.frame.start(samples, channels);
        let size = compute_frame_size(channels as u8, self.frame.slice_count);
        match enc_frame_header(sink, channels as u8, rate, samples as u16, size) {
            Ok(()) => {},
            Err(err) => {
                self.frame.reset();
                return Err(err);
            },
        }
        let ghost header = sink.written();
        match enc_prelude(sink, &self.lms_states) {
            Ok(()) => {},
            Err(err) => {
                self.frame.reset();
                return Err(err);
            },
        }
        assert(sink.written() =~= old(sink).written() + frame_head(
            channels as u8,
            rate,
            samples as u16,
            old(self).lms_states@,
        ));
        Ok(())
    }

    /// Encodes and writes the row that the pending samples from `pos` on
    /// fill.
    fn write_row(&mut self, sink: &mut S, rate: u32, channels: usize, pos: usize, len: usize) -> (r:
        Result<(), EncodeError>)
        requires
            old(self).steady(rate, channels),
            old(self).frame.left() > 0,
            len == next_row_len(old(self).frame.left()),
            pos + len * channels <= old(self).frame.buffer.len(),
        ensures
            final(self).steady(rate, channels),
            final(self).sink == old(self).sink,
            final(self).has_header == old(self).has_header,
            final(self).frame.buffer == old(self).frame.buffer,
            final(self).desc.sample_count is Some <==> old(self).desc.sample_count is Some,
            r is Ok ==> {
                &&& final(self).framing_at(pos + len * channels) == row_written(
                    old(self).framing_at(pos as int),
                    channels as int,
                )
                &&& final(sink).written() == old(sink).written() + row_words(
                    old(self).framing_at(pos as int).pending.take(len * channels),
                    old(self).lms_states@,
                    channels as int,
                )
            },
            r is Err ==> r->Err_0 is Write && final(self).frame.left() == old(self).frame.left(),
            old(sink).accepting() ==> r is Ok && final(sink).accepting(),
    {
        proof {
            lemma_row_takes(len as int, channels as int);
        }
        let block = slice_subrange(self.frame.buffer.as_slice(), pos, pos + len * channels);
        assert(block@ =~= self.framing_at(pos as int).pending.take(len * channels));
        assert(self.framing_at(pos as int).pending.skip(len * channels) =~= self.frame.buffer@.skip(
            pos + len * channels,
        ));
        match enc_slice::<S, Sc>(sink, block, channels, &mut self.lms_states) {
            Ok(()) => {},
            Err(err) => {
                return Err(err);
            },
        }
        self.frame.slice_index = self.frame.slice_index + 1;
        if let Some(r) = self.desc.sample_count {
            self.desc.sample_count = Some(r - len);
        }
        if self.frame.complete() {
            self.frame.reset();
        }
        Ok(())
    }

    /// Writes out every row that the pending samples fill.
    fn drain_rows(&mut self) -> (r: Result<(), EncodeError>)
        requires
            old(self).wf(),
            old(self).sink is Some,
            old(self).desc.sample_rate is Some,
        ensures
            final(self).wf(),
            final(self).sink is Some,
            final(self).desc.sample_rate == old(self).desc.sample_rate,
            final(self).desc.channel_count == old(self).desc.channel_count,
            final(self).desc.sample_count is Some <==> old(self).desc.sample_count is Some,
            final(self).has_header == old(self).has_header,
            r is Ok ==> {
                let done = drain(
                    old(self).state().framing(),
                    old(self).desc.sample_rate->0,
                    old(self).desc.channel_count->0 as int,
                );
                &&& final(self).state().framing() == done.0
                &&& final(self).state().sink == Some(old(self).state().sink->0 + done.1)
            },
            r is Err ==> r->Err_0 is Write,
            old(self).unfailing() ==> r is Ok && final(self).unfailing(),
            stalled(old(self).state().framing(), old(self).desc.channel_count->0 as int) ==> r is Ok,
    {
        let rate = self.desc.sample_rate.unwrap();
        let channels = self.desc.channel_count.unwrap();
        let ghost start = self.state().framing();
        let ghost goal = drain(start, rate, channels as int);
        let ghost written = self.state().sink->0;
        let ghost mut words: Seq<u64> = Seq::empty();
        let mut pos: usize = 0;
        let ghost sure = self.unfailing();
        let ghost mut moved = false;
        let mut sink = self.sink.take().unwrap();
        assert(sink.written() =~= written + words);
        assert(self.frame.buffer@.skip(0) =~= self.frame.buffer@);
        assert(goal.1 =~= words + goal.1);
        loop
            invariant
                self.steady(rate, channels),
                self.sink is None,
                sure == old(self).unfailing(),
                sure ==> sink.accepting(),
                start == old(self).state().framing(),
                !moved ==> self.framing_at(pos as int) == start,
                moved ==> !stalled(start, channels as int),
                self.has_header == old(self).has_header,
                old(self).desc.sample_rate == Some(rate),
                old(self).desc.channel_count == Some(channels),
                self.desc.sample_count is Some <==> old(self).desc.sample_count is Some,
                pos <= self.frame.buffer.len(),
                sink.written() == written + words,
                goal.0 == drain(self.framing_at(pos as int), rate, channels as int).0,
                goal.1 == words + drain(self.framing_at(pos as int), rate, channels as int).1,
            ensures
                self.framing_at(pos as int) == goal.0,
                goal.1 == words,
            decreases self.frame.buffer.len() - pos, (if self.frame.left() == 0 { 1nat } else { 0nat }),
        {
            let ghost now = self.framing_at(pos as int);
            let at_hand = self.frame.buffer.len() - pos;
            if self.frame.complete() {
                let known = match self.desc.sample_count {
                    Some(r) => r,
                    None => at_hand / channels,
                };
                let samples = if known < FRAME_LEN { known } else { FRAME_LEN };
                assert(samples == next_frame_samples(now, channels as int));
                if at_hand < channels || samples == 0 {
                    proof {
                        lemma_drain_stalled(now, rate, channels as int);
                        assert(words + Seq::<u64>::empty() =~= words);
                    }
                    break;
                }
                proof {
                    lemma_drain_begin(now, rate, channels as int);
                }
                let ghost head = frame_head(channels as u8, rate, samples as u16, self.lms_states@);
                match self.begin_frame(&mut sink, rate, channels, samples) {
                    Ok(()) => {},
                    Err(err) => {
                        self.sink = Some(sink);
                        return Err(err);
                    },
                }
                proof {
                    moved = true;
                    let more = drain(frame_begun(now, samples as nat), rate, channels as int).1;
                    assert(self.framing_at(pos as int) == frame_begun(now, samples as nat));
                    assert(sink.written() =~= written + (words + head));
                    assert((words + head) + more =~= words + (head + more));
                    words = words + head;
                }
            } else {
                let left: usize = self.frame.samples as usize - 20 * self.frame.slice_index as usize;
                let len = if left < SLICE_LEN { left } else { SLICE_LEN };
                proof {
                    lemma_row_takes(len as int, channels as int);
                }
                if at_hand < len * channels {
                    proof {
                        lemma_drain_stalled(now, rate, channels as int);
                        assert(words + Seq::<u64>::empty() =~= words);
                    }
                    break;
                }
                proof {
                    lemma_drain_row(now, rate, channels as int);
                }
                let ghost row = row_words(
                    now.pending.take(len * channels),
                    self.lms_states@,
                    channels as int,
                );
                match self.write_row(&mut sink, rate, channels, pos, len) {
                    Ok(()) => {},
                    Err(err) => {
                        self.sink = Some(sink);
                        return Err(err);
                    },
                }
                proof {
                    moved = true;
                    let more = drain(row_written(now, channels as int), rate, channels as int).1;
                    assert(sink.written() =~= written + (words + row));
                    assert((words + row) + more =~= words + (row + more));
                    words = words + row;
                }
                pos = pos + len * channels;
            }
        }
        let rest = self.frame.buffer.split_off(pos);
        self.frame.buffer = rest;
        self.sink = Some(sink);
        Ok(())
    }

    /// Writes the file header where it is not written yet.
    fn ensure_header(&mut self) -> (r: Result<(), EncodeError>)
        requires
            old(self).wf(),
            old(self).sink is Some,
        ensures
            final(self).wf(),
            final(self).sink is Some,
            final(self).desc == old(self).desc,
            final(self).lms_states == old(self).lms_states,
            final(self).frame == old(self).frame,
            r is Ok ==> {
                &&& final(self).has_header
                &&& final(self).state().sink == Some(
                    old(self).state().sink->0 + old(self).state().header_words(),
                )
            },
            r is Err ==> r->Err_0 is Write && final(self).has_header == old(self).has_header,
            old(self).unfailing() ==> r is Ok,
            old(self).has_header ==> r is Ok,
            old(self).unfailing() ==> final(self).unfailing(),
    {
        if self.has_header {
            assert(self.state().sink->0 + self.state().header_words() =~= self.state().sink->0);
            return Ok(());
        }
        let declared: u32 = match self.desc.sample_count {
            Some(count) => count as u32,
            None => 0,
        };
        let mut sink = self.sink.take().unwrap();
        let ghost before = sink.written();
        let r = enc_file_header(&mut sink, declared);
        proof {
            if r is Ok {
                assert(sink.written() =~= before + old(self).state().header_words());
            }
        }
        self.sink = Some(sink);
        if r.is_ok() {
            self.has_header = true;
        }
        r
    }

    /// Gives every channel a state: `channels` states, the new ones initial.
    fn resize_lms(&mut self, channels: usize)
        ensures
            final(self).lms_states@ == lms_resized(old(self).lms_states@, channels as nat),
            final(self).desc == old(self).desc,
            final(self).sink == old(self).sink,
            final(self).has_header == old(self).has_header,
            final(self).frame == old(self).frame,
    {
        self.lms_states.truncate(channels);
        while self.lms_states.len() < channels
            invariant
                self.lms_states.len() <= channels,
                self.lms_states.len() >= old(self).lms_states.len() || self.lms_states.len()
                    >= channels,
                self.desc == old(self).desc,
                self.sink == old(self).sink,
                self.has_header == old(self).has_header,
                self.frame == old(self).frame,
                forall|c: int|
                    0 <= c < self.lms_states.len() ==> self.lms_states[c] == lms_resized(
                        old(self).lms_states@,
                        channels as nat,
                    )[c],
            decreases channels - self.lms_states.len(),
        {
            self.lms_states.push(QoaLmsState::default());
        }
        assert(self.lms_states@ =~= lms_resized(old(self).lms_states@, channels as nat));
    }

    /// Encodes samples from a `Vec` of interleaved samples. The descriptor
    /// may give the sample rate and the channel count, which a stream of
    /// unknown length takes from the first call that gives them, and a limit
    /// on the number of samples per channel to take. The samples that are
    /// taken leave `source`.
    ///
    /// In a stream of known length, rows that the samples do not fill wait
    /// for the next call. In a stream of unknown length nothing waits: a
    /// frame header declares the samples of its frame, so every call ends
    /// its last frame with the samples it was given, in a short slice where
    /// they do not fill a row. Only a part of a sample for all channels is
    /// left with the caller. Where the sink takes every word, the call
    /// succeeds on every block of samples that it admits.
    pub fn encode_vec(&mut self, source: &mut Vec<i16>, desc: StreamDescriptor) -> (r: Result<
        (),
        EncodeError,
    >)
        requires
            old(self).wf(),
        ensures
            final(self).wf(),
            old(self).state().offered(final(self).state(), old(source)@, final(source)@, desc, r),
            old(self).unfailing() ==> final(self).unfailing() && !(r is Err && (r->Err_0 is Write
                || r->Err_0 is Flush)),
    {
        if self.sink.is_none() {
            return Err(EncodeError::Closed);
        }
        let mut eff = desc;
        eff.infer_from_vec(source, &self.desc);
        if self.desc.sample_rate.is_some() {
            let same_rate = match (eff.sample_rate, self.desc.sample_rate) {
                (Some(a), Some(b)) => a == b,
                _ => false,
            };
            let same_channels = match (eff.channel_count, self.desc.channel_count) {
                (Some(a), Some(b)) => a == b,
                _ => false,
            };
            if !same_rate || !same_channels {
                return Err(EncodeError::InvalidDescriptorChange);
            }
        } else {
            if eff.sample_rate.is_none() || eff.channel_count.is_none() {
                return Ok(());
            }
            match StreamDescriptor::new(None, eff.sample_rate, eff.channel_count) {
                Ok(_) => {},
                Err(fault) => {
                    return Err(EncodeError::InvalidDescriptor(fault));
                },
            }
        }
        let rate = eff.sample_rate.unwrap();
        let channels = eff.channel_count.unwrap();
        let at_hand = source.len() / channels;
        let cap = match eff.sample_count {
            Some(count) => count,
            None => 0,
        };
        let mut groups = if cap < at_hand { cap } else { at_hand };
        if let Some(remaining) = self.desc.sample_count {
            let buffered = self.frame.buffer.len() / channels;
            let room = if remaining > buffered { remaining - buffered } else { 0 };
            if room < groups {
                groups = room;
            }
        }
        assert(groups == old(self).state().groups(old(source)@.len() as usize, eff));
        assert(groups * channels <= source.len()) by (nonlinear_arith)
            requires
                groups <= source.len() / channels,
                channels > 0,
        {
            vstd::arithmetic::div_mod::lemma_fundamental_div_mod(
                source.len() as int,
                channels as int,
            );
            assert(groups * channels <= (source.len() / channels) * channels);
        }
        self.ensure_header()?;
        self.desc.sample_rate = Some(rate);
        self.desc.channel_count = Some(channels);
        self.resize_lms(channels);
        let mut rest = source.split_off(groups * channels);
        self.frame.buffer.append(source);
        *source = rest;
        let ghost given = old(self).state().framing_with(channels, old(source)@.take(groups * channels));
        assert(self.state().framing() == given);
        self.drain_rows()?;
        let mut sink = self.sink.take().unwrap();
        let flushed = sink.flush();
        self.sink = Some(sink);
        match flushed {
            Ok(()) => {
                proof {
                    let done = drain(given, rate, channels as int);
                    assert(old(self).state().sink->0 + old(self).state().header_words() + done.1
                        =~= (old(self).state().sink->0 + old(self).state().header_words())
                        + done.1);
                }
                Ok(())
            },
            Err(err) => Err(EncodeError::Flush(err)),
        }
    }

    /// Writes the file header where it is not written yet, and hands on
    /// what the sink may hold back. What waits for the rest of its row
    /// waits on.
    pub fn flush(&mut self) -> (r: Result<(), EncodeError>)
        requires
            old(self).wf(),
        ensures
            final(self).wf(),
            old(self).state().offered(
                final(self).state(),
                Seq::empty(),
                Seq::empty(),
                StreamDescriptor { sample_count: None, sample_rate: None, channel_count: None },
                r,
            ),
            old(self).unfailing() ==> final(self).unfailing() && !(r is Err && (r->Err_0 is Write
                || r->Err_0 is Flush)),
    {
        let mut nothing: Vec<i16> = Vec::new();
        let r = self.encode_vec(&mut nothing, StreamDescriptor::default());
        proof {
            let desc = StreamDescriptor { sample_count: None, sample_rate: None, channel_count: None };
            let adm = old(self).state().admission(0, desc);
            if adm is Take {
                let channels = adm->channels as int;
                assert(0int / channels == 0) by (nonlinear_arith)
                    requires
                        channels > 0,
                ;
                assert(adm->groups == 0);
                assert(adm->groups * adm->channels == 0) by (nonlinear_arith)
                    requires
                        adm->groups == 0,
                ;
                assert(Seq::<i16>::empty().skip(0) =~= Seq::<i16>::empty());
                assert(Seq::<i16>::empty().take(0) =~= Seq::<i16>::empty());
            }
        }
        r
    }

    /// Makes the pending samples up to the declared count with silence and
    /// writes out every row.
    fn pad_out(&mut self) -> (r: Result<(), EncodeError>)
        requires
            old(self).wf(),
            old(self).sink is Some,
            old(self).desc.sample_rate is Some,
        ensures
            final(self).wf(),
            final(self).sink is Some,
            final(self).has_header == old(self).has_header,
            r is Ok ==> {
                let channels = old(self).desc.channel_count->0 as int;
                let padded = with_more(
                    old(self).state().framing(),
                    silence(shortfall(old(self).state().framing(), channels)),
                );
                final(self).state().sink == Some(
                    old(self).state().sink->0 + drain(
                        padded,
                        old(self).desc.sample_rate->0,
                        channels,
                    ).1,
                )
            },
            r is Err ==> r->Err_0 is Write,
            old(self).unfailing() ==> r is Ok && final(self).unfailing(),
    {
        let rate = self.desc.sample_rate.unwrap();
        let channels = self.desc.channel_count.unwrap();
        let ghost start = self.state().framing();
        let ghost written = self.state().sink->0;
        let ghost goal = drain(
            with_more(start, silence(shortfall(start, channels as int))),
            rate,
            channels as int,
        ).1;
        self.drain_rows()?;
        let ghost mut words = drain(start, rate, channels as int).1;
        proof {
            lemma_drain_leaves(start, rate, channels as int);
            let rest = self.state().framing();
            if start.remaining is Some {
                lemma_drain_in_portions(
                    start,
                    silence(shortfall(start, channels as int)),
                    rate,
                    channels as int,
                );
                assert(shortfall(rest, channels as int) == shortfall(start, channels as int));
            } else {
                assert(with_more(start, silence(0)) =~= start);
                assert(with_more(rest, silence(0)) =~= rest);
                lemma_drain_stalled(rest, rate, channels as int);
                assert(words + Seq::<u64>::empty() =~= words);
            }
        }
        loop
            invariant
                self.wf(),
                self.sink is Some,
                self.has_header == old(self).has_header,
                self.desc.sample_rate == Some(rate),
                self.desc.channel_count == Some(channels),
                self.state().sink == Some(written + words),
                old(self).unfailing() ==> self.unfailing(),
                stalled(self.state().framing(), channels as int),
                goal == words + drain(
                    with_more(
                        self.state().framing(),
                        silence(shortfall(self.state().framing(), channels as int)),
                    ),
                    rate,
                    channels as int,
                ).1,
            ensures
                goal == words,
            decreases
                    (if self.desc.sample_count is Some {
                        self.desc.sample_count->0
                    } else {
                        0
                    }),
        {
            let ghost now = self.state().framing();
            let remaining = match self.desc.sample_count {
                Some(r) => r,
                None => 0,
            };
            if remaining == 0 {
                proof {
                    assert(shortfall(now, channels as int) == 0) by {
                        if now.remaining is Some {
                            assert(0 * (channels as int) == 0);
                        }
                    }
                    assert(with_more(now, silence(0)) =~= now);
                    lemma_drain_stalled(now, rate, channels as int);
                    assert(words + Seq::<u64>::empty() =~= words);
                }
                break;
            }
            let lacking: usize = if self.frame.complete() {
                if remaining < FRAME_LEN { remaining } else { FRAME_LEN }
            } else {
                self.frame.samples as usize - 20 * self.frame.slice_index as usize
            };
            let len = if lacking < SLICE_LEN { lacking } else { SLICE_LEN };
            proof {
                lemma_row_takes(len as int, channels as int);
            }
            let row = len * channels;
            let ghost before = self.frame.buffer@;
            let mut added: usize = 0;
            while self.frame.buffer.len() < row
                invariant
                    self.wf(),
                    self.sink is Some,
                    self.has_header == old(self).has_header,
                    self.desc.sample_rate == Some(rate),
                    self.desc.channel_count == Some(channels),
                    self.desc.sample_count == Some(remaining),
                    self.state().sink == Some(written + words),
                    old(self).unfailing() ==> self.unfailing(),
                    self.lms_states@ == now.lms,
                    self.frame.left() == now.left,
                    self.frame.buffer@ == before + silence(added as nat),
                    before.len() + added <= row,
                decreases row - self.frame.buffer.len(),
            {
                self.frame.buffer.push(0);
                added = added + 1;
                assert(self.frame.buffer@ =~= before + silence(added as nat));
            }
            let ghost given = self.state().framing();
            proof {
                let short = shortfall(now, channels as int);
                assert(remaining * channels >= row) by (nonlinear_arith)
                    requires
                        remaining >= len,
                        row == len * channels,
                        channels >= 0,
                ;
                assert(given == with_more(now, silence(added as nat)));
                assert(short >= added);
                let more = silence((short - added) as nat);
                assert(silence(added as nat) + more =~= silence(short));
                assert((now.pending + silence(added as nat)) + more =~= now.pending + silence(
                    short,
                ));
                assert(with_more(given, more) == with_more(now, silence(short)));
                lemma_drain_in_portions(given, more, rate, channels as int);
                lemma_drain_leaves(given, rate, channels as int);
                lemma_drain_progress(given, rate, channels as int);
                let rest = drain(given, rate, channels as int).0;
                assert(shortfall(rest, channels as int) == short - added);
            }
            self.drain_rows()?;
            proof {
                let step = drain(given, rate, channels as int);
                let rest = drain(
                    with_more(step.0, silence(shortfall(step.0, channels as int))),
                    rate,
                    channels as int,
                ).1;
                assert(written + words + step.1 =~= written + (words + step.1));
                assert(words + (step.1 + rest) =~= (words + step.1) + rest);
                words = words + step.1;
            }
        }
        proof {
            assert(written + goal =~= written + words);
        }
        Ok(())
    }

    /// Closes the encoder and returns the sink, if the encoder was not
    /// closed before. The file header is written where it was not, and in
    /// a stream of known length silence makes up the samples that were not
    /// given.
    pub fn close(&mut self) -> (r: Option<Result<S, EncodeError>>)
        requires
            old(self).wf(),
        ensures
            final(self).wf(),
            match r {
                None => old(self).state().sink is None && final(self).state() == old(self).state(),
                Some(Ok(sink)) => {
                    &&& old(self).state().sink is Some
                    &&& final(self).state().sink is None
                    &&& sink.written() == old(self).state().closing_words()
                },
                Some(Err(e)) => old(self).state().sink is Some && (e is Write || e is Flush),
            },
            old(self).unfailing() && old(self).state().sink is Some ==> r is Some && r->0 is Ok
                && r->0->Ok_0.accepting(),
            old(self).unfailing() ==> final(self).unfailing(),
    {
        if self.sink.is_none() {
            return None;
        }
        if self.desc.sample_rate.is_some() {
            match self.ensure_header() {
                Ok(()) => {},
                Err(err) => {
                    return Some(Err(err));
                },
            }
            match self.pad_out() {
                Ok(()) => {},
                Err(err) => {
                    return Some(Err(err));
                },
            }
        }
        let mut sink = self.sink.take().unwrap();
        match sink.flush() {
            Ok(()) => Some(Ok(sink)),
            Err(err) => {
                self.sink = Some(sink);
                Some(Err(EncodeError::Flush(err)))
            },
        }
    }

    /// Encodes the samples that a source delivers, until it delivers no
    /// more or, in a stream of known length, the declared samples are all
    /// there. The source delivers its samples in portions of its choice,
    /// of 5120 samples per channel at most, each into a buffer that takes
    /// all it is given. A source that is not read, because the encoder is
    /// closed, the source is refused or it does not know its channel count,
    /// is left as it was. A source that delivers what it holds and knows
    /// its sample rate is read out, and fails no call over a sink that takes
    /// every word.
    pub fn encode<P: PcmSource>(&mut self, source: &mut P) -> (r: Result<(), EncodeError>)
        requires
            old(self).wf(),
            old(source).stream_wf(),
        ensures
            final(self).wf(),
            final(source).stream_wf(),
            old(self).state().fed(
                final(self).state(),
                old(source).stream_rate(),
                old(source).stream_channels(),
                Seq::new(255, |c: int| old(source).pending(c)),
                Seq::new(255, |c: int| final(source).pending(c)),
                r,
            ),
            old(self).unfailing() ==> final(self).unfailing() && !(r is Err && (r->Err_0 is Write
                || r->Err_0 is Flush)),
            !(old(self).state().verdict(old(source).stream_rate(), old(source).stream_channels())
                is Go) ==> *final(source) == *old(source),
            old(self).state().verdict(old(source).stream_rate(), old(source).stream_channels())
                is Go && old(self).unfailing() && old(source).delivering() && old(
                source,
            ).stream_rate() != 0 ==> r is Ok,
            r is Ok && old(self).state().verdict(
                old(source).stream_rate(),
                old(source).stream_channels(),
            ) is Go && old(source).delivering() && old(source).stream_rate() != 0
                ==> final(self).state().read_out(
                old(source).stream_channels(),
                Seq::new(255, |c: int| final(source).pending(c)),
            ),
    {
        if self.sink.is_none() {
            return Err(EncodeError::Closed);
        }
        let source_rate = source.sample_rate();
        let source_channels = source.channel_count();
        let rate = match self.desc.sample_rate {
            Some(rate) => {
                let channels = self.desc.channel_count.unwrap();
                if (source_rate != 0 && source_rate != rate) || (source_channels != 0
                    && source_channels != channels) {
                    return Err(EncodeError::InvalidDescriptorChange);
                }
                if source_channels == 0 {
                    return Ok(());
                }
                rate
            },
            None => {
                if source_rate == 0 || source_channels == 0 {
                    return Ok(());
                }
                match StreamDescriptor::new(None, Some(source_rate), Some(source_channels)) {
                    Ok(_) => {},
                    Err(fault) => {
                        return Err(EncodeError::InvalidDescriptor(fault));
                    },
                }
                source_rate
            },
        };
        let channels = source_channels;
        let ghost start = self.state();
        let ghost planes = Seq::new(255, |c: int| old(source).pending(c));
        let ghost mut sizes: Seq<nat> = Seq::empty();
        let desc = StreamDescriptor {
            sample_count: None,
            sample_rate: Some(rate),
            channel_count: Some(channels),
        };
        assert forall|c: int| 0 <= c < channels implies #[trigger] source.pending(c) == planes[c].skip(
            0,
        ) by {
            assert(planes[c].skip(0) =~= planes[c]);
        }
        let ghost sure = source.delivering() && source.stream_rate() != 0;
        loop
            invariant
                self.wf(),
                source.stream_wf(),
                self.sink is Some,
                source.stream_channels() == channels,
                sure == (old(source).delivering() && old(source).stream_rate() != 0),
                sure ==> source.delivering() && source.stream_rate() == rate,
                1 <= rate < 0x100_0000,
                1 <= channels <= 255,
                desc == (StreamDescriptor {
                    sample_count: None,
                    sample_rate: Some(rate),
                    channel_count: Some(channels),
                }),
                self.desc.sample_rate is Some ==> self.desc.sample_rate == Some(rate)
                    && self.desc.channel_count == Some(channels),
                start == old(self).state(),
                old(self).unfailing() ==> self.unfailing(),
                planes == Seq::new(255, |c: int| old(source).pending(c)),
                old(self).state().verdict(
                    old(source).stream_rate(),
                    old(source).stream_channels(),
                ) == (Verdict::Go { rate, channels }),
                self.state() == start.after_portions(rate, channels, planes, sizes),
                forall|i: int| 0 <= i < sizes.len() ==> 1 <= #[trigger] sizes[i] <= 5120,
                forall|c: int|
                    0 <= c < channels ==> total(sizes) <= (#[trigger] planes[c]).len()
                        && source.pending(c) == planes[c].skip(total(sizes) as int),
            ensures
                self.wf(),
                source.stream_wf(),
                sure == (old(source).delivering() && old(source).stream_rate() != 0),
                sure ==> self.state().read_out(
                    channels,
                    Seq::new(255, |c: int| source.pending(c)),
                ),
                source.stream_channels() == channels,
                start == old(self).state(),
                old(self).unfailing() ==> self.unfailing(),
                planes == Seq::new(255, |c: int| old(source).pending(c)),
                old(self).state().verdict(
                    old(source).stream_rate(),
                    old(source).stream_channels(),
                ) == (Verdict::Go { rate, channels }),
                self.state() == start.after_portions(rate, channels, planes, sizes),
                forall|i: int| 0 <= i < sizes.len() ==> 1 <= #[trigger] sizes[i] <= 5120,
                forall|c: int|
                    0 <= c < channels ==> total(sizes) <= (#[trigger] planes[c]).len()
                        && source.pending(c) == planes[c].skip(total(sizes) as int),
            decreases source.pending(0).len(),
        {
            let room = match self.desc.sample_count {
                Some(remaining) => {
                    let buffered = self.frame.buffer.len() / channels;
                    if remaining > buffered { remaining - buffered } else { 0 }
                },
                None => FRAME_LEN,
            };
            let max = if room < FRAME_LEN { room } else { FRAME_LEN };
            if max == 0 {
                proof {
                    let remaining = self.desc.sample_count->0;
                    let held = self.frame.buffer.len();
                    vstd::arithmetic::div_mod::lemma_fundamental_div_mod(
                        held as int,
                        channels as int,
                    );
                    assert(remaining * channels <= held) by (nonlinear_arith)
                        requires
                            remaining <= held / channels,
                            held == channels * (held / channels) + held % channels,
                            0 <= held % channels,
                            channels > 0,
                    ;
                }
                break;
            }
            let mut buf = PcmBuffer::new(max);
            match buf.set_descriptor(rate, channels) {
                Ok(()) => {},
                Err(err) => {
                    return Err(EncodeError::SampleRead(err));
                },
            }
            let ghost fresh = buf;
            let ghost before_source = *source;
            let ghost dry = exists|c: int|
                0 <= c < channels && (#[trigger] source.pending(c)).len() == 0;
            proof {
                assert(buf.frames() =~= seq![buf.frames().last()]);
                assert forall|c: int| 0 <= c < channels implies #[trigger] buf.channel(c)
                    =~= Seq::<i16>::empty() by {
                    crate::pcm_io::lemma_frames_plane_front(buf.frames(), c);
                    assert(buf.frames().skip(1) =~= Seq::<PcmFrame>::empty());
                }
                if sure && !dry {
                    assert(crate::pcm_io::sink_admits(buf, source.stream_rate(), channels, max));
                }
            }
            let n = match source.read(&mut buf, max) {
                Ok(n) => n,
                Err(err) => {
                    return Err(EncodeError::SampleRead(err));
                },
            };
            if n == 0 {
                proof {
                    assert forall|c: int| 0 <= c < channels implies total(sizes) <= (
                    #[trigger] planes[c]).len() && source.pending(c) == planes[c].skip(
                        total(sizes) as int,
                    ) by {
                        assert(before_source.pending(c).skip(0) =~= before_source.pending(c));
                    }
                    if sure {
                        assert(dry);
                        let c = choose|c: int|
                            0 <= c < channels && (#[trigger] before_source.pending(c)).len() == 0;
                        assert(before_source.pending(c).skip(0) =~= before_source.pending(c));
                        assert(Seq::new(255, |c: int| source.pending(c))[c].len() == 0);
                    }
                }
                break;
            }
            let ghost held = buf;
            let buf = match buf.into_frame() {
                Some(frame) => frame,
                None => {
                    return Err(
                        EncodeError::SampleRead(crate::pcm_io::Error::UninitializedDescriptor),
                    );
                },
            };
            let ghost taken = total(sizes);
            proof {
                buf.lemma_wf();
                assert forall|c: int| 0 <= c < channels implies #[trigger] buf.planes()[c]
                    == planes[c].subrange(taken as int, taken + n) by {
                    assert(buf.planes()[c] == held.channel(c));
                    assert(held.channel(c) == fresh.channel(c) + before_source.pending(c).take(
                        n as int,
                    ));
                    assert(fresh.channel(c) =~= Seq::<i16>::empty());
                    assert(planes[c].skip(taken as int).take(n as int) =~= planes[c].subrange(
                        taken as int,
                        taken + n,
                    ));
                    assert(Seq::<i16>::empty() + planes[c].subrange(taken as int, taken + n)
                        =~= planes[c].subrange(taken as int, taken + n));
                }
                let cut = Seq::new(
                    channels as nat,
                    |c: int| planes[c].subrange(taken as int, (taken + n) as int),
                );
                assert(buf.planes().len() == cut.len());
                assert forall|c: int| 0 <= c < cut.len() implies buf.planes()[c] == cut[c] by {
                    assert(buf.planes()[c] == planes[c].subrange(taken as int, taken + n));
                }
                assert(buf.planes() =~= cut);
                lemma_least_len_even(buf.planes(), n as nat);
            }
            let mut data = buf.unwrap();
            assert(data@ == portion(planes, channels as nat, taken, n as nat));
            let ghost before = self.state();
            proof {
                assert(data@.len() == n * channels);
                assert(data@.take(n * channels) =~= data@);
                lemma_block_admitted(before, rate, channels, n as nat, data.len());
            }
            match self.encode_vec(&mut data, desc) {
                Ok(()) => {},
                Err(err) => {
                    return Err(err);
                },
            }
            proof {
                let next = sizes.push(n as nat);
                assert(next.drop_last() =~= sizes);
                lemma_encoded_is_taken(
                    before,
                    self.state(),
                    rate,
                    channels,
                    portion(planes, channels as nat, taken, n as nat),
                );
                assert forall|c: int| 0 <= c < channels implies total(next) <= (
                #[trigger] planes[c]).len() && source.pending(c) == planes[c].skip(
                    total(next) as int,
                ) by {
                    assert(before_source.pending(c) == planes[c].skip(taken as int));
                    assert(planes[c].skip(taken as int).skip(n as int) =~= planes[c].skip(
                        taken + n,
                    ));
                }
                sizes = next;
            }
        }
        proof {
            let rest = Seq::new(255, |c: int| source.pending(c));
            let verdict = old(self).state().verdict(
                old(source).stream_rate(),
                old(source).stream_channels(),
            );
            assert(portions_taken(
                old(self).state(),
                self.state(),
                verdict->rate,
                verdict->channels,
                planes,
                rest,
                sizes,
            ));
        }
        Ok(())
    }
}

impl<S: SinkStream> Encoder<S, LinearScaler> {
    /// An encoder of a stream of `sample_count` samples per channel.
    pub fn new_fixed(sample_count: usize, sample_rate: u32, channel_count: usize, sink: S) -> (r:
        Result<Self, EncodeError>)
        ensures
            match descriptor_fault(Some(sample_count), Some(sample_rate), Some(channel_count)) {
                Some(fault) => r is Err && r->Err_0 == EncodeError::InvalidDescriptor(fault),
                None => r is Ok && r->Ok_0.wf() && r->Ok_0.unfailing() == sink.accepting()
                    && r->Ok_0.state() == (EncoderState {
                    sink: Some(sink.written()),
                    desc: StreamDescriptor {
                        sample_count: Some(sample_count),
                        sample_rate: Some(sample_rate),
                        channel_count: Some(channel_count),
                    },
                    has_header: false,
                    lms: lms_resized(Seq::empty(), channel_count as nat),
                    left: 0,
                    pending: Seq::empty(),
                }),
            },
    {
        Self::_new_fixed(sample_count, sample_rate, channel_count, sink, LinearScaler)
    }

    /// An encoder of a stream of unknown length.
    pub fn new_streaming(sink: S) -> (e: Self)
        ensures
            e.wf(),
            e.unfailing() == sink.accepting(),
            e.state() == (EncoderState {
                sink: Some(sink.written()),
                desc: StreamDescriptor { sample_count: None, sample_rate: None, channel_count: None },
                has_header: false,
                lms: Seq::empty(),
                left: 0,
                pending: Seq::empty(),
            }),
    {
        Self::_new_streaming(sink, LinearScaler)
    }
}

impl<S: SinkStream> Encoder<S, VectorScaler> {
    /// An encoder of a stream of `sample_count` samples per channel that
    /// scales its slices with the sixteen-lane scaler.
    pub fn new_fixed_simd(sample_count: usize, sample_rate: u32, channel_count: usize, sink: S) -> (r:
        Result<Self, EncodeError>)
        ensures
            match descriptor_fault(Some(sample_count), Some(sample_rate), Some(channel_count)) {
                Some(fault) => r is Err && r->Err_0 == EncodeError::InvalidDescriptor(fault),
                None => r is Ok && r->Ok_0.wf() && r->Ok_0.unfailing() == sink.accepting()
                    && r->Ok_0.state() == (EncoderState {
                    sink: Some(sink.written()),
                    desc: StreamDescriptor {
                        sample_count: Some(sample_count),
                        sample_rate: Some(sample_rate),
                        channel_count: Some(channel_count),
                    },
                    has_header: false,
                    lms: lms_resized(Seq::empty(), channel_count as nat),
                    left: 0,
                    pending: Seq::empty(),
                }),
            },
    {
        Self::_new_fixed(sample_count, sample_rate, channel_count, sink, VectorScaler)
    }

    /// An encoder of a stream of unknown length that scales its slices with
    /// the sixteen-lane scaler.
    pub fn new_streaming_simd(sink: S) -> (e: Self)
        ensures
            e.wf(),
            e.unfailing() == sink.accepting(),
            e.state() == (EncoderState {
                sink: Some(sink.written()),
                desc: StreamDescriptor { sample_count: None, sample_rate: None, channel_count: None },
                has_header: false,
                lms: Seq::empty(),
                left: 0,
                pending: Seq::empty(),
            }),
    {
        Self::_new_streaming(sink, VectorScaler)
    }
}

} // verus!
