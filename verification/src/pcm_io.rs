//! Sources and sinks of PCM samples, and buffers of samples in memory.

use vstd::prelude::*;
use vstd::slice::slice_subrange;
use vstd::std_specs::cmp::PartialEqSpecImpl;
use crate::descriptor::StreamDescriptor;

verus! {

/// Why a source or a sink of samples failed.
#[derive(Clone, Debug, PartialEq, Eq)]
pub enum Error {
    /// The sample rate or the channel count of the stream is fixed and
    /// cannot be set to other values.
    DescriptorSet,
    /// Samples were written before the sample rate and the channel count
    /// were set.
    UninitializedDescriptor,
    /// Samples could not be read; the text says why.
    Read(String),
    /// Samples could not be written; the text says why.
    Write(String),
    /// Anything else.
    Other(String),
}

/// The samples of channel `chn` in a block of interleaved samples of
/// `channels` channels.
pub open spec fn deinterleaved(samples: Seq<i16>, channels: int, chn: int) -> Seq<i16> {
    Seq::new(samples.len() / (channels as nat), |i: int| samples[i * channels + chn])
}

/// The first `len` samples of each channel, interleaved: sample `i` of
/// channel `c` stands at `i * channels + c`.
pub open spec fn interleaved(planes: Seq<Seq<i16>>, len: nat) -> Seq<i16> {
    Seq::new(
        len * planes.len(),
        |k: int| planes[k % (planes.len() as int)][k / (planes.len() as int)],
    )
}

/// The least length among the channels, or 0 where there is no channel.
pub open spec fn least_len(planes: Seq<Seq<i16>>) -> nat
    decreases planes.len(),
{
    if planes.len() == 0 {
        0
    } else if planes.len() == 1 {
        planes[0].len()
    } else {
        let rest = least_len(planes.drop_last());
        if planes.last().len() < rest {
            planes.last().len()
        } else {
            rest
        }
    }
}

/// The greatest length among the channels.
pub open spec fn greatest_len(planes: Seq<Seq<i16>>) -> nat
    decreases planes.len(),
{
    if planes.len() == 0 {
        0
    } else {
        let rest = greatest_len(planes.drop_last());
        if planes.last().len() > rest {
            planes.last().len()
        } else {
            rest
        }
    }
}

/// No channel is shorter than the least length or longer than the greatest.
pub proof fn lemma_len_bounds(planes: Seq<Seq<i16>>, c: int)
    requires
        0 <= c < planes.len(),
    ensures
        least_len(planes) <= planes[c].len() <= greatest_len(planes),
    decreases planes.len(),
{
    if planes.len() > 1 {
        if c < planes.len() - 1 {
            lemma_len_bounds(planes.drop_last(), c);
        }
    } else {
        assert(greatest_len(planes.drop_last()) == 0);
    }
}

/// Where every channel holds `n` samples, `n` is the least length.
pub proof fn lemma_least_len_even(planes: Seq<Seq<i16>>, n: nat)
    requires
        planes.len() >= 1,
        forall|c: int| 0 <= c < planes.len() ==> #[trigger] planes[c].len() == n,
    ensures
        least_len(planes) == n,
    decreases planes.len(),
{
    if planes.len() > 1 {
        lemma_least_len_even(planes.drop_last(), n);
    }
}

/// A stream of PCM samples.
///
/// The spec functions of this trait and of `PcmSource` and `PcmSink` are
/// the model that the contracts speak of. An implementation in verified
/// code states its own; of one that keeps the empty model given here no
/// sample that is taken or delivered can be proved. Of an implementation
/// outside verified code nothing is proved: it is trusted to behave as its
/// methods' contracts say.
pub trait PcmStream {
    /// What the stream needs to hold of itself before it is used, and
    /// keeps.
    open spec fn stream_wf(&self) -> bool {
        true
    }

    /// The channel count of the stream, or 0 where it is not known.
    open spec fn stream_channels(&self) -> usize {
        0
    }

    /// The sample rate of the stream, or 0 where it is not known.
    open spec fn stream_rate(&self) -> u32 {
        0
    }

    /// Returns the channel count of the stream, or 0 where it is not known.
    fn channel_count(&self) -> (n: usize)
        requires
            self.stream_wf(),
        ensures
            n == self.stream_channels(),
    ;

    /// Returns the sample rate of the stream, or 0 where it is not known.
    fn sample_rate(&self) -> (r: u32)
        requires
            self.stream_wf(),
        ensures
            r == self.stream_rate(),
    ;
}

/// A sink of PCM samples.
pub trait PcmSink: PcmStream {
    /// The samples that channel `chn` has taken so far.
    open spec fn channel(&self, chn: int) -> Seq<i16> {
        Seq::empty()
    }

    /// Whether the sink takes what it is given: the sample rate and channel
    /// count that it has or, where it has none, any that a stream can have;
    /// whole blocks of samples for its channels, as long as a number can
    /// count the samples of a channel; and whether it can always be flushed
    /// and closed. A sink that does not say so of itself is not taken to be
    /// such.
    open spec fn taking(&self) -> bool {
        false
    }

    /// Appends samples from `buf` to channel `chn` and returns how many it
    /// took.
    fn write(&mut self, buf: &[i16], chn: usize) -> (r: Result<usize, Error>)
        requires
            old(self).stream_wf(),
        ensures
            final(self).stream_wf(),
            old(self).taking() && chn < old(self).stream_channels() && old(self).channel(
                chn as int,
            ).len() + buf.len() <= usize::MAX ==> r == Ok::<usize, Error>(buf.len())
                && final(self).taking(),
            match r {
                Ok(n) => {
                    &&& n <= buf.len()
                    &&& final(self).channel(chn as int) == old(self).channel(chn as int)
                        + buf@.take(n as int)
                    &&& forall|c: int|
                        c != chn ==> #[trigger] final(self).channel(c) == old(self).channel(c)
                    &&& final(self).stream_channels() == old(self).stream_channels()
                    &&& final(self).stream_rate() == old(self).stream_rate()
                },
                Err(_) => true,
            },
    ;

    /// Appends interleaved samples from `buf`, a sample to each channel in
    /// turn, and returns how many samples each channel took.
    fn write_interleaved(&mut self, buf: &[i16]) -> (r: Result<usize, Error>)
        requires
            old(self).stream_wf(),
        ensures
            final(self).stream_wf(),
            old(self).taking() && old(self).stream_rate() != 0 && old(self).stream_channels() != 0
                && (forall|c: int|
                0 <= c < old(self).stream_channels() ==> (#[trigger] old(self).channel(c)).len()
                    + buf.len() / old(self).stream_channels() <= usize::MAX) ==> r == Ok::<
                usize,
                Error,
            >((buf.len() / old(self).stream_channels()) as usize) && final(self).taking(),
            match r {
                Ok(n) => {
                    let channels = old(self).stream_channels() as int;
                    &&& n * channels <= buf.len()
                    &&& forall|c: int|
                        0 <= c < channels ==> #[trigger] final(self).channel(c) == old(
                            self,
                        ).channel(c) + deinterleaved(buf@, channels, c).take(n as int)
                    &&& forall|c: int|
                        !(0 <= c < channels) ==> #[trigger] final(self).channel(c) == old(
                            self,
                        ).channel(c)
                    &&& final(self).stream_channels() == old(self).stream_channels()
                    &&& final(self).stream_rate() == old(self).stream_rate()
                },
                Err(_) => true,
            },
    ;

    /// The number of samples that each channel can still take.
    fn sample_capacity(&self) -> usize
        requires
            self.stream_wf(),
    ;

    /// Sets the sample rate and the channel count of the samples that
    /// follow.
    fn set_descriptor(&mut self, sample_rate: u32, channel_count: usize) -> (r: Result<(), Error>)
        requires
            old(self).stream_wf(),
        ensures
            final(self).stream_wf(),
            old(self).taking() && sample_rate != 0 && channel_count != 0 && (old(
                self,
            ).stream_channels() == 0 || (old(self).stream_rate() == sample_rate && old(
                self,
            ).stream_channels() == channel_count)) ==> r is Ok && final(self).taking(),
            r is Ok ==> {
                &&& final(self).stream_rate() == sample_rate
                &&& final(self).stream_channels() == channel_count
                &&& forall|c: int| #[trigger] final(self).channel(c) == old(self).channel(c)
            },
    ;

    /// Hands on the samples that the sink may hold back. A sink that holds
    /// nothing back has nothing to do and succeeds.
    fn flush(&mut self) -> (r: Result<(), Error>)
        requires
            old(self).stream_wf(),
        ensures
            final(self).stream_wf(),
            old(self).taking() ==> r is Ok && final(self).taking(),
            r is Ok ==> {
                &&& final(self).stream_rate() == old(self).stream_rate()
                &&& final(self).stream_channels() == old(self).stream_channels()
                &&& forall|c: int| #[trigger] final(self).channel(c) == old(self).channel(c)
            },
        default_ensures
            r is Ok,
            final(self).stream_rate() == old(self).stream_rate(),
            final(self).stream_channels() == old(self).stream_channels(),
            forall|c: int| #[trigger] final(self).channel(c) == old(self).channel(c),
    {
        Ok(())
    }

    /// Closes the sink.
    fn close(&mut self) -> (r: Result<(), Error>)
        requires
            old(self).stream_wf(),
        ensures
            final(self).stream_wf(),
            old(self).taking() ==> r is Ok && final(self).taking(),
            r is Ok ==> {
                &&& final(self).stream_rate() == old(self).stream_rate()
                &&& final(self).stream_channels() == old(self).stream_channels()
                &&& forall|c: int| #[trigger] final(self).channel(c) == old(self).channel(c)
            },
    {
        self.flush()
    }
}

/// `value`, or nothing where it is 0.
pub open spec fn known_usize(value: usize) -> Option<usize> {
    if value > 0 {
        Some(value)
    } else {
        None
    }
}

/// `value`, or nothing where it is 0.
pub open spec fn known_u32(value: u32) -> Option<u32> {
    if value > 0 {
        Some(value)
    } else {
        None
    }
}

/// The descriptor of a stream of which these three values are known, 0
/// standing for a value that is not: it holds the values if they are ones
/// that a stream can have, else nothing.
pub open spec fn described(samples: usize, rate: u32, channels: usize) -> StreamDescriptor {
    if crate::descriptor::descriptor_fault(
        known_usize(samples),
        known_u32(rate),
        known_usize(channels),
    ) is None {
        StreamDescriptor {
            sample_count: known_usize(samples),
            sample_rate: known_u32(rate),
            channel_count: known_usize(channels),
        }
    } else {
        StreamDescriptor { sample_count: None, sample_rate: None, channel_count: None }
    }
}

/// Whether the sink is one that takes `samples` more samples for each of
/// `channels` channels at the sample rate `rate`: it takes what it is
/// given, neither the rate nor the channel count is 0, the sink has none or
/// the same, and a number can count the samples of each channel with the
/// new ones.
pub open spec fn sink_admits<K: PcmSink>(sink: K, rate: u32, channels: usize, samples: usize) -> bool {
    &&& sink.taking()
    &&& rate != 0
    &&& channels != 0
    &&& sink.stream_channels() == 0 || (sink.stream_rate() == rate && sink.stream_channels()
        == channels)
    &&& forall|c: int|
        0 <= c < channels ==> (#[trigger] sink.channel(c)).len() + samples <= usize::MAX
}

/// Where every channel holds a sample, the least length is not 0.
pub proof fn lemma_least_len_positive(planes: Seq<Seq<i16>>)
    requires
        planes.len() >= 1,
        forall|c: int| 0 <= c < planes.len() ==> (#[trigger] planes[c]).len() > 0,
    ensures
        least_len(planes) > 0,
    decreases planes.len(),
{
    if planes.len() > 1 {
        lemma_least_len_positive(planes.drop_last());
    }
}

/// Where every channel holds `n` samples, `n` is the greatest length.
pub proof fn lemma_greatest_len_even(planes: Seq<Seq<i16>>, n: nat)
    requires
        planes.len() >= 1,
        forall|c: int| 0 <= c < planes.len() ==> (#[trigger] planes[c]).len() == n,
    ensures
        greatest_len(planes) == n,
    decreases planes.len(),
{
    if planes.len() > 1 {
        lemma_greatest_len_even(planes.drop_last(), n);
    } else {
        assert(greatest_len(planes.drop_last()) == 0);
    }
}

/// A source of PCM samples.
pub trait PcmSource: PcmStream {
    /// The samples that channel `chn` has yet to deliver.
    open spec fn pending(&self, chn: int) -> Seq<i16> {
        Seq::empty()
    }

    /// Whether the source delivers what it holds: reading from it gives a
    /// sample of each channel at least, as long as every channel holds one
    /// and the sink takes what it is given. A source that does not say so
    /// of itself is not taken to be such.
    open spec fn delivering(&self) -> bool {
        false
    }

    /// Delivers the next samples of each channel to the sink, `sample_count`
    /// at most, and returns how many each channel delivered; 0 says that
    /// the source is exhausted. Where it delivers samples, it has set the
    /// sink to its sample rate and channel count.
    fn read<K: PcmSink>(&mut self, buf: &mut K, sample_count: usize) -> (r: Result<usize, Error>)
        requires
            old(self).stream_wf(),
            old(buf).stream_wf(),
        ensures
            final(self).stream_wf(),
            final(buf).stream_wf(),
            old(self).delivering() ==> final(self).delivering(),
            r is Ok && r->Ok_0 > 0 ==> final(buf).stream_rate() == old(self).stream_rate(),
            r is Ok && r->Ok_0 > 0 ==> final(buf).stream_channels() == old(self).stream_channels(),
            old(self).delivering() && sample_count > 0 && (forall|c: int|
                0 <= c < old(self).stream_channels() ==> (#[trigger] old(self).pending(c)).len()
                    > 0) && sink_admits(
                *old(buf),
                old(self).stream_rate(),
                old(self).stream_channels(),
                sample_count,
            ) ==> r is Ok && r->Ok_0 > 0 && final(buf).taking(),
            old(self).delivering() && (sample_count == 0 || exists|c: int|
                0 <= c < old(self).stream_channels() && (#[trigger] old(self).pending(c)).len()
                    == 0) ==> r is Ok && *final(buf) == *old(buf),
            match r {
                Ok(n) => {
                    &&& n <= sample_count
                    &&& final(self).stream_channels() == old(self).stream_channels()
                    &&& final(self).stream_rate() == old(self).stream_rate()
                    &&& forall|c: int|
                        0 <= c < old(self).stream_channels() ==> {
                            &&& n <= #[trigger] old(self).pending(c).len()
                            &&& final(self).pending(c) == old(self).pending(c).skip(n as int)
                            &&& final(buf).channel(c) == old(buf).channel(c) + old(self).pending(
                                c,
                            ).take(n as int)
                        }
                },
                Err(_) => true,
            },
    ;

    /// The number of samples of each channel that the source can deliver,
    /// or 0 where it is not known.
    open spec fn available(&self) -> usize {
        0
    }

    /// Returns the number of samples of each channel that the source can
    /// deliver, or 0 where it is not known.
    fn sample_count(&self) -> (n: usize)
        requires
            self.stream_wf(),
        ensures
            n == self.available(),
    ;

    /// What the source knows of its stream: a sample count, a sample rate
    /// or a channel count of 0 counts as not known, and so does all of it
    /// where the three are not ones that a stream can have.
    fn descriptor(&self) -> (d: StreamDescriptor)
        requires
            self.stream_wf(),
        ensures
            d == described(self.available(), self.stream_rate(), self.stream_channels()),
    {
        let samples = self.sample_count();
        let rate = self.sample_rate();
        let channels = self.channel_count();
        match StreamDescriptor::new(
            if samples > 0 { Some(samples) } else { None },
            if rate > 0 { Some(rate) } else { None },
            if channels > 0 { Some(channels) } else { None },
        ) {
            Ok(d) => d,
            Err(_) => StreamDescriptor::default(),
        }
    }
}

/// Samples of a fixed sample rate and channel count, held channel by
/// channel, with a limit on the number of samples per channel.
#[derive(Clone, Debug, Eq)]
pub struct PcmFrame {
    data: Vec<Vec<i16>>,
    size: usize,
    rate: u32,
    chan: usize,
}

/// Whether two rows of samples are the same.
fn same_samples(a: &Vec<i16>, b: &Vec<i16>) -> (r: bool)
    ensures
        r == (a@ == b@),
{
    if a.len() != b.len() {
        return false;
    }
    let mut i: usize = 0;
    while i < a.len()
        invariant
            i <= a.len(),
            a.len() == b.len(),
            forall|k: int| 0 <= k < i ==> a[k] == b[k],
        decreases a.len() - i,
    {
        if a[i] != b[i] {
            return false;
        }
        i += 1;
    }
    assert(a@ =~= b@);
    true
}

impl PartialEq for PcmFrame {
    /// Frames are equal where they hold the same samples and have the same
    /// sample rate and channel count, whatever their limits.
    fn eq(&self, other: &Self) -> (r: bool) {
        if self.rate != other.rate || self.chan != other.chan {
            return false;
        }
        if self.data.len() != other.data.len() {
            assert(self.planes().len() != other.planes().len());
            return false;
        }
        let mut c: usize = 0;
        while c < self.data.len()
            invariant
                c <= self.data.len(),
                self.data.len() == other.data.len(),
                forall|k: int| 0 <= k < c ==> self.data[k]@ == other.data[k]@,
            decreases self.data.len() - c,
        {
            if !same_samples(&self.data[c], &other.data[c]) {
                assert(self.planes()[c as int] != other.planes()[c as int]);
                return false;
            }
            c += 1;
        }
        assert(self.planes() =~= other.planes());
        true
    }
}

impl PartialEqSpecImpl for PcmFrame {
    open spec fn obeys_eq_spec() -> bool {
        true
    }

    open spec fn eq_spec(&self, other: &Self) -> bool {
        &&& self.planes() == other.planes()
        &&& self.spec_rate() == other.spec_rate()
        &&& self.spec_channels() == other.spec_channels()
    }
}

impl PcmFrame {
    /// The samples of each channel.
    pub closed spec fn planes(&self) -> Seq<Seq<i16>> {
        Seq::new(self.data.len() as nat, |c: int| self.data[c]@)
    }

    /// The limit on the number of samples per channel.
    pub closed spec fn capacity(&self) -> usize {
        self.size
    }

    /// The sample rate.
    pub closed spec fn spec_rate(&self) -> u32 {
        self.rate
    }

    /// The channel count.
    pub closed spec fn spec_channels(&self) -> usize {
        self.chan
    }

    /// The frame has a channel at least, a sample rate, and no channel holds
    /// more than the limit.
    pub closed spec fn wf(&self) -> bool {
        &&& self.chan >= 1
        &&& self.rate >= 1
        &&& self.data.len() == self.chan
        &&& forall|c: int| 0 <= c < self.chan ==> #[trigger] self.data[c].len() <= self.size
    }

    /// The frame has as many channels as its channel count says, and none
    /// holds more than the limit.
    pub proof fn lemma_wf(&self)
        requires
            self.wf(),
        ensures
            self.planes().len() == self.spec_channels(),
            self.spec_channels() >= 1,
            self.spec_rate() >= 1,
            greatest_len(self.planes()) <= self.capacity(),
    {
        self.lemma_greatest(self.chan as int);
        assert(self.planes().take(self.chan as int) =~= self.planes());
    }

    proof fn lemma_greatest(&self, n: int)
        requires
            self.wf(),
            0 <= n <= self.chan,
        ensures
            greatest_len(self.planes().take(n)) <= self.size,
        decreases n,
    {
        if n > 0 {
            self.lemma_greatest(n - 1);
            assert(self.planes().take(n).drop_last() =~= self.planes().take(n - 1));
            assert(self.data[n - 1].len() <= self.size);
        }
    }

    /// Creates a frame that holds nothing and can hold `sample_count`
    /// samples per channel.
    pub fn new(sample_count: usize, sample_rate: u32, channel_count: usize) -> (f: Self)
        requires
            sample_rate != 0,
            channel_count != 0,
        ensures
            f.wf(),
            f.capacity() == sample_count,
            f.spec_rate() == sample_rate,
            f.spec_channels() == channel_count,
            f.planes() == Seq::new(channel_count as nat, |c: int| Seq::<i16>::empty()),
    {
        let mut data: Vec<Vec<i16>> = Vec::new();
        while data.len() < channel_count
            invariant
                data.len() <= channel_count,
                forall|c: int| 0 <= c < data.len() ==> #[trigger] data[c]@ == Seq::<i16>::empty(),
            decreases channel_count - data.len(),
        {
            data.push(Vec::new());
        }
        let f = PcmFrame { data, size: sample_count, rate: sample_rate, chan: channel_count };
        assert(f.planes() =~= Seq::new(channel_count as nat, |c: int| Seq::<i16>::empty()));
        f
    }

    /// The number of samples that every channel holds.
    pub fn len(&self) -> (n: usize)
        requires
            self.wf(),
        ensures
            n == least_len(self.planes()),
            n <= self.capacity(),
    {
        let mut least = self.data[0].len();
        let mut c: usize = 1;
        assert(self.planes().take(1) =~= seq![self.data[0]@]);
        while c < self.chan
            invariant
                1 <= c <= self.chan,
                self.wf(),
                least == least_len(self.planes().take(c as int)),
                least <= self.size,
            decreases self.chan - c,
        {
            assert(self.planes().take(c + 1).drop_last() =~= self.planes().take(c as int));
            if self.data[c].len() < least {
                least = self.data[c].len();
            }
            c += 1;
        }
        assert(self.planes().take(self.chan as int) =~= self.planes());
        least
    }

    /// The greatest number of samples that a channel holds.
    fn longest(&self) -> (n: usize)
        requires
            self.wf(),
        ensures
            n == greatest_len(self.planes()),
            n <= self.capacity(),
    {
        let mut greatest: usize = 0;
        let mut c: usize = 0;
        assert(self.planes().take(0) =~= Seq::<Seq<i16>>::empty());
        while c < self.chan
            invariant
                c <= self.chan,
                self.wf(),
                greatest == greatest_len(self.planes().take(c as int)),
                greatest <= self.size,
            decreases self.chan - c,
        {
            assert(self.planes().take(c + 1).drop_last() =~= self.planes().take(c as int));
            if self.data[c].len() > greatest {
                greatest = self.data[c].len();
            }
            c += 1;
        }
        assert(self.planes().take(self.chan as int) =~= self.planes());
        greatest
    }

    /// The number of samples that channel `chn` can still take.
    pub fn room(&self, chn: usize) -> (n: usize)
        requires
            self.wf(),
            chn < self.spec_channels(),
        ensures
            n == self.capacity() - self.planes()[chn as int].len(),
    {
        self.size - self.data[chn].len()
    }

    /// Whether some channel holds nothing.
    pub fn is_empty(&self) -> (b: bool)
        requires
            self.wf(),
        ensures
            b == (least_len(self.planes()) == 0),
    {
        self.len() == 0
    }

    /// Whether every channel holds as many samples as the frame can hold.
    pub fn is_full(&self) -> (b: bool)
        requires
            self.wf(),
        ensures
            b == (least_len(self.planes()) >= self.capacity()),
    {
        self.len() >= self.size
    }

    /// The sample rate.
    pub fn rate(&self) -> (r: u32)
        ensures
            r == self.spec_rate(),
    {
        self.rate
    }

    /// The channel count.
    pub fn channels(&self) -> (n: usize)
        ensures
            n == self.spec_channels(),
    {
        self.chan
    }

    /// The samples that every channel holds, interleaved.
    pub fn data(&self) -> (samples: Vec<i16>)
        requires
            self.wf(),
        ensures
            samples@ == interleaved(self.planes(), least_len(self.planes())),
    {
        let len = self.len();
        let ghost block = interleaved(self.planes(), len as nat);
        let mut samples: Vec<i16> = Vec::new();
        let mut i: usize = 0;
        assert(samples@ =~= block.take(0));
        while i < len
            invariant
                i <= len,
                self.wf(),
                len == least_len(self.planes()),
                block == interleaved(self.planes(), len as nat),
                0 <= i * self.chan <= len * self.chan,
                samples@ == block.take(i * self.chan),
            decreases len - i,
        {
            assert((i + 1) * self.chan == i * self.chan + self.chan && (i + 1) * self.chan <= len
                * self.chan) by (nonlinear_arith)
                requires
                    i < len,
            ;
            let mut c: usize = 0;
            while c < self.chan
                invariant
                    i < len,
                    c <= self.chan,
                    self.wf(),
                    len == least_len(self.planes()),
                    block == interleaved(self.planes(), len as nat),
                    0 <= i * self.chan,
                    i * self.chan + self.chan <= len * self.chan,
                    samples@ == block.take(i * self.chan + c),
                decreases self.chan - c,
            {
                proof {
                    crate::decoder::bytes::lemma_interleaved_index(
                        i as int,
                        self.chan as int,
                        c as int,
                    );
                    lemma_len_bounds(self.planes(), c as int);
                }
                samples.push(self.data[c][i]);
                assert(samples@ =~= block.take(i * self.chan + c + 1));
                c += 1;
            }
            i += 1;
        }
        assert(block.take(len * self.chan) =~= block);
        samples
    }

    /// Gives up the frame for the samples that every channel holds,
    /// interleaved.
    pub fn unwrap(self) -> (samples: Vec<i16>)
        requires
            self.wf(),
        ensures
            samples@ == interleaved(self.planes(), least_len(self.planes())),
    {
        self.data()
    }

    /// Lets the frame hold `sample_count` samples per channel more, as far
    /// as a number can say.
    pub fn grow(&mut self, sample_count: usize)
        requires
            old(self).wf(),
        ensures
            final(self).wf(),
            final(self).planes() == old(self).planes(),
            final(self).spec_rate() == old(self).spec_rate(),
            final(self).spec_channels() == old(self).spec_channels(),
            final(self).capacity() == (if old(self).capacity() + sample_count > usize::MAX {
                usize::MAX
            } else {
                (old(self).capacity() + sample_count) as usize
            }),
    {
        self.size = if sample_count > usize::MAX - self.size {
            usize::MAX
        } else {
            self.size + sample_count
        };
        assert(self.planes() =~= old(self).planes());
    }

    /// Drops what some channel holds beyond the others, and lets the frame
    /// hold no more than it does.
    pub fn trim(&mut self)
        requires
            old(self).wf(),
        ensures
            final(self).wf(),
            final(self).capacity() == least_len(old(self).planes()),
            final(self).spec_rate() == old(self).spec_rate(),
            final(self).spec_channels() == old(self).spec_channels(),
            final(self).planes() == Seq::new(
                old(self).planes().len(),
                |c: int| old(self).planes()[c].take(least_len(old(self).planes()) as int),
            ),
    {
        let len = self.len();
        self.size = len;
        let mut c: usize = 0;
        while c < self.chan
            invariant
                c <= self.chan,
                self.chan == old(self).chan,
                self.rate == old(self).rate,
                self.chan >= 1,
                self.rate >= 1,
                self.size == len,
                len == least_len(old(self).planes()),
                self.data.len() == self.chan,
                old(self).wf(),
                forall|k: int| 0 <= k < c ==> #[trigger] self.data[k]@ == old(self).data[k]@.take(len as int),
                forall|k: int| c <= k < self.chan ==> #[trigger] self.data[k] == old(self).data[k],
            decreases self.chan - c,
        {
            proof {
                lemma_len_bounds(old(self).planes(), c as int);
            }
            self.data[c].truncate(len);
            c += 1;
        }
        assert forall|k: int| 0 <= k < self.chan implies #[trigger] self.data[k].len()
            <= self.size by {
            lemma_len_bounds(old(self).planes(), k);
            assert(self.data[k]@ == old(self).data[k]@.take(len as int));
        }
        assert(self.planes() =~= Seq::new(
            old(self).planes().len(),
            |c: int| old(self).planes()[c].take(least_len(old(self).planes()) as int),
        ));
    }
}

impl PcmStream for PcmFrame {
    open spec fn stream_wf(&self) -> bool {
        self.wf()
    }

    open spec fn stream_channels(&self) -> usize {
        self.spec_channels()
    }

    open spec fn stream_rate(&self) -> u32 {
        self.spec_rate()
    }

    fn channel_count(&self) -> (n: usize) {
        self.chan
    }

    fn sample_rate(&self) -> (r: u32) {
        self.rate
    }
}

/// Channel `chn` of the planes, or nothing where there is no such channel.
pub open spec fn plane(planes: Seq<Seq<i16>>, chn: int) -> Seq<i16> {
    if 0 <= chn < planes.len() {
        planes[chn]
    } else {
        Seq::empty()
    }
}

impl PcmSink for PcmFrame {
    open spec fn channel(&self, chn: int) -> Seq<i16> {
        plane(self.planes(), chn)
    }

    /// A frame takes no more than it can hold.
    open spec fn taking(&self) -> bool {
        false
    }

    /// Appends samples from `buf` to channel `chn`, as many as the channel
    /// can still hold. There must be such a channel.
    fn write(&mut self, buf: &[i16], chn: usize) -> (r: Result<usize, Error>)
        ensures
            final(self).capacity() == old(self).capacity(),
            r is Ok <==> chn < old(self).spec_channels(),
            r is Ok ==> r->Ok_0 == (if buf.len() < old(self).capacity() - old(self).channel(
                chn as int,
            ).len() {
                buf.len() as int
            } else {
                old(self).capacity() - old(self).channel(chn as int).len()
            }),
    {
        if chn >= self.chan {
            return Err(Error::Write("channel index out of bounds".to_owned()));
        }
        let room = self.size - self.data[chn].len();
        let n = if buf.len() < room { buf.len() } else { room };
        self.data[chn].extend_from_slice(slice_subrange(buf, 0, n));
        proof {
            assert(self.planes()[chn as int] =~= old(self).planes()[chn as int] + buf@.take(
                n as int,
            ));
            assert forall|c: int| c != chn implies #[trigger] self.channel(c) == old(self).channel(
                c,
            ) by {
                if 0 <= c < self.chan {
                    assert(self.data[c] == old(self).data[c]);
                }
            }
        }
        Ok(n)
    }

    /// Appends interleaved samples from `buf`, as many of each channel as
    /// every channel can still hold.
    fn write_interleaved(&mut self, buf: &[i16]) -> (r: Result<usize, Error>)
        ensures
            r is Ok,
            final(self).capacity() == old(self).capacity(),
            r->Ok_0 == (if buf.len() / old(self).spec_channels() < old(self).capacity()
                - greatest_len(old(self).planes()) {
                (buf.len() / old(self).spec_channels()) as int
            } else {
                old(self).capacity() - greatest_len(old(self).planes())
            }),
    {
        let groups = buf.len() / self.chan;
        let room = self.size - self.longest();
        let n = if groups < room { groups } else { room };
        assert(n * self.chan <= buf.len()) by (nonlinear_arith)
            requires
                n <= buf.len() / self.chan,
                self.chan > 0,
        {
            vstd::arithmetic::div_mod::lemma_fundamental_div_mod(buf.len() as int, self.chan as int);
            assert(n * self.chan <= (buf.len() / self.chan) * self.chan);
        }
        let mut c: usize = 0;
        while c < self.chan
            invariant
                c <= self.chan,
                self.chan == old(self).chan,
                self.rate == old(self).rate,
                self.size == old(self).size,
                self.data.len() == self.chan,
                old(self).wf(),
                n <= buf.len() / self.chan,
                n * self.chan <= buf.len(),
                n <= self.size - greatest_len(old(self).planes()),
                forall|k: int|
                    0 <= k < c ==> #[trigger] self.data[k]@ == old(self).data[k]@ + deinterleaved(
                        buf@,
                        self.chan as int,
                        k,
                    ).take(n as int),
                forall|k: int| c <= k < self.chan ==> #[trigger] self.data[k] == old(self).data[k],
            decreases self.chan - c,
        {
            let ghost column = deinterleaved(buf@, self.chan as int, c as int);
            let mut i: usize = 0;
            assert(self.data[c as int]@ =~= old(self).data[c as int]@ + column.take(0));
            proof {
                lemma_len_bounds(old(self).planes(), c as int);
            }
            while i < n
                invariant
                    i <= n,
                    c < self.chan,
                    self.chan == old(self).chan,
                    self.rate == old(self).rate,
                    self.size == old(self).size,
                    self.data.len() == self.chan,
                    old(self).wf(),
                    n <= buf.len() / self.chan,
                    n * self.chan <= buf.len(),
                    old(self).data[c as int].len() + n <= self.size,
                    column == deinterleaved(buf@, self.chan as int, c as int),
                    self.data[c as int]@ == old(self).data[c as int]@ + column.take(i as int),
                    forall|k: int|
                        0 <= k < c ==> #[trigger] self.data[k]@ == old(self).data[k]@
                            + deinterleaved(buf@, self.chan as int, k).take(n as int),
                    forall|k: int|
                        c < k < self.chan ==> #[trigger] self.data[k] == old(self).data[k],
                decreases n - i,
            {
                assert(i * self.chan + c < n * self.chan && 0 <= i * self.chan) by (nonlinear_arith)
                    requires
                        i < n,
                        c < self.chan,
                ;
                let ghost before = self.data[c as int]@;
                self.data[c].push(buf[i * self.chan + c]);
                assert(self.data[c as int]@ =~= old(self).data[c as int]@ + column.take(i + 1));
                i += 1;
            }
            c += 1;
        }
        proof {
            assert forall|k: int| 0 <= k < self.chan implies #[trigger] self.data[k].len()
                <= self.size by {
                lemma_len_bounds(old(self).planes(), k);
                assert(self.data[k]@ == old(self).data[k]@ + deinterleaved(
                    buf@,
                    self.chan as int,
                    k,
                ).take(n as int));
            }
        }
        Ok(n)
    }

    /// The number of samples that every channel can still take.
    fn sample_capacity(&self) -> (n: usize)
        ensures
            n == self.capacity() - greatest_len(self.planes()),
    {
        self.size - self.longest()
    }

    /// Accepts the sample rate and the channel count of the frame and no
    /// other.
    fn set_descriptor(&mut self, sample_rate: u32, channel_count: usize) -> (r: Result<(), Error>)
        ensures
            *final(self) == *old(self),
            r is Ok <==> sample_rate == old(self).spec_rate() && channel_count == old(
                self,
            ).spec_channels(),
    {
        if sample_rate != self.rate || channel_count != self.chan {
            Err(Error::DescriptorSet)
        } else {
            Ok(())
        }
    }
}

impl PcmSource for PcmFrame {
    open spec fn pending(&self, chn: int) -> Seq<i16> {
        plane(self.planes(), chn)
    }

    open spec fn delivering(&self) -> bool {
        true
    }

    /// Delivers the first samples of each channel to the sink, as many as
    /// every channel holds and `sample_count` at most, and drops them. The
    /// sink must take them all; where it does not, or fails, the frame keeps
    /// its samples. Where there is nothing to deliver, the sink is left
    /// alone.
    fn read<K: PcmSink>(&mut self, buf: &mut K, sample_count: usize) -> (r: Result<usize, Error>)
        ensures
            final(self).capacity() == old(self).capacity(),
            final(self).spec_rate() == old(self).spec_rate(),
            final(self).spec_channels() == old(self).spec_channels(),
            r is Ok ==> r->Ok_0 == (if sample_count < least_len(old(self).planes()) {
                sample_count as nat
            } else {
                least_len(old(self).planes())
            }),
            sample_count == 0 || least_len(old(self).planes()) == 0 ==> r is Ok && *final(self)
                == *old(self) && *final(buf) == *old(buf),
            r is Err ==> *final(self) == *old(self),
    {
        let len = self.len();
        let n = if sample_count < len { sample_count } else { len };
        let ghost admits = sample_count > 0 && (forall|c: int|
            0 <= c < self.stream_channels() ==> (#[trigger] self.pending(c)).len() > 0)
            && sink_admits(*buf, self.stream_rate(), self.stream_channels(), sample_count);
        proof {
            if admits {
                self.lemma_wf();
                assert forall|c: int| 0 <= c < self.planes().len() implies (
                #[trigger] self.planes()[c]).len() > 0 by {
                    assert(self.pending(c).len() > 0);
                }
                lemma_least_len_positive(self.planes());
            }
        }
        let ghost exhausted = exists|c: int|
            0 <= c < self.stream_channels() && (#[trigger] self.pending(c)).len() == 0;
        proof {
            if exhausted {
                let c = choose|c: int|
                    0 <= c < self.stream_channels() && (#[trigger] self.pending(c)).len() == 0;
                self.lemma_wf();
                lemma_len_bounds(self.planes(), c);
            }
        }
        if n == 0 {
            proof {
                assert forall|c: int| 0 <= c < self.stream_channels() implies {
                    &&& 0 <= #[trigger] self.pending(c).len()
                    &&& self.pending(c) == self.pending(c).skip(0)
                    &&& buf.channel(c) == buf.channel(c) + self.pending(c).take(0)
                } by {
                    assert(self.pending(c).skip(0) =~= self.pending(c));
                    assert(buf.channel(c) + self.pending(c).take(0) =~= buf.channel(c));
                }
            }
            return Ok(0);
        }
        match buf.set_descriptor(self.rate, self.chan) {
            Ok(()) => {},
            Err(err) => {
                return Err(err);
            },
        }
        let mut c: usize = 0;
        while c < self.chan
            invariant
                c <= self.chan,
                self.wf(),
                *self == *old(self),
                buf.stream_wf(),
                buf.stream_rate() == self.rate,
                buf.stream_channels() == self.chan,
                n <= sample_count,
                !exhausted,
                exhausted == (exists|c: int|
                    0 <= c < old(self).stream_channels() && (#[trigger] old(self).pending(c)).len()
                        == 0),
                admits == (sample_count > 0 && (forall|c: int|
                    0 <= c < old(self).stream_channels() ==> (#[trigger] old(self).pending(
                        c,
                    )).len() > 0) && sink_admits(
                    *old(buf),
                    old(self).stream_rate(),
                    old(self).stream_channels(),
                    sample_count,
                )),
                admits ==> buf.taking(),
                sample_count != 0,
                least_len(self.planes()) != 0,
                n <= least_len(self.planes()),
                forall|k: int|
                    0 <= k < c ==> #[trigger] buf.channel(k) == old(buf).channel(k) + self.planes()[k].take(
                        n as int,
                    ),
                forall|k: int| !(0 <= k < c) ==> #[trigger] buf.channel(k) == old(buf).channel(k),
            decreases self.chan - c,
        {
            proof {
                lemma_len_bounds(self.planes(), c as int);
            }
            let block = slice_subrange(self.data[c].as_slice(), 0, n);
            assert(block@ =~= self.planes()[c as int].take(n as int));
            let ghost before = *buf;
            proof {
                if admits {
                    assert(buf.channel(c as int) == old(buf).channel(c as int));
                    assert(old(buf).channel(c as int).len() + sample_count <= usize::MAX);
                }
            }
            match buf.write(block, c) {
                Ok(took) => {
                    if took != n {
                        return Err(Error::Write("the sink took a part of the samples".to_owned()));
                    }
                    assert(block@.take(n as int) =~= block@);
                },
                Err(err) => {
                    return Err(err);
                },
            }
            proof {
                assert forall|k: int| 0 <= k < c + 1 implies #[trigger] buf.channel(k) == old(
                    buf,
                ).channel(k) + self.planes()[k].take(n as int) by {
                    if k < c {
                        assert(buf.channel(k) == before.channel(k));
                    }
                }
                assert forall|k: int| !(0 <= k < c + 1) implies #[trigger] buf.channel(k) == old(
                    buf,
                ).channel(k) by {
                    assert(buf.channel(k) == before.channel(k));
                }
            }
            c += 1;
        }
        c = 0;
        while c < self.chan
            invariant
                c <= self.chan,
                self.chan == old(self).chan,
                self.rate == old(self).rate,
                self.size == old(self).size,
                self.data.len() == self.chan,
                old(self).wf(),
                n <= least_len(old(self).planes()),
                forall|k: int| 0 <= k < c ==> #[trigger] self.data[k]@ == old(self).data[k]@.skip(n as int),
                forall|k: int| c <= k < self.chan ==> #[trigger] self.data[k] == old(self).data[k],
            decreases self.chan - c,
        {
            proof {
                lemma_len_bounds(old(self).planes(), c as int);
            }
            let rest = self.data[c].split_off(n);
            self.data[c] = rest;
            c += 1;
        }
        proof {
            assert forall|k: int| 0 <= k < self.chan implies #[trigger] self.data[k].len()
                <= self.size by {
                lemma_len_bounds(old(self).planes(), k);
                assert(old(self).data[k].len() <= old(self).size);
                assert(self.data[k]@ == old(self).data[k]@.skip(n as int));
            }
            assert forall|k: int| 0 <= k < old(self).stream_channels() implies {
                &&& n <= #[trigger] old(self).pending(k).len()
                &&& self.pending(k) == old(self).pending(k).skip(n as int)
                &&& buf.channel(k) == old(buf).channel(k) + old(self).pending(k).take(n as int)
            } by {
                lemma_len_bounds(old(self).planes(), k);
                assert(self.data[k]@ == old(self).data[k]@.skip(n as int));
            }
        }
        Ok(n)
    }

    open spec fn available(&self) -> usize {
        least_len(self.planes()) as usize
    }

    /// The number of samples that every channel holds.
    fn sample_count(&self) -> (n: usize)
        ensures
            n == least_len(self.planes()),
    {
        self.len()
    }
}

/// The samples of channel `chn` in a row of frames, one frame after the
/// other.
pub open spec fn frames_plane(frames: Seq<PcmFrame>, chn: int) -> Seq<i16>
    decreases frames.len(),
{
    if frames.len() == 0 {
        Seq::empty()
    } else {
        frames_plane(frames.drop_last(), chn) + plane(frames.last().planes(), chn)
    }
}

/// The number of samples that every channel holds, summed over the frames.
pub open spec fn frames_len(frames: Seq<PcmFrame>) -> nat
    decreases frames.len(),
{
    if frames.len() == 0 {
        0
    } else {
        frames_len(frames.drop_last()) + least_len(frames.last().planes())
    }
}

/// The samples that every channel holds, interleaved, frame after frame.
pub open spec fn frames_interleaved(frames: Seq<PcmFrame>) -> Seq<i16>
    decreases frames.len(),
{
    if frames.len() == 0 {
        Seq::empty()
    } else {
        frames_interleaved(frames.drop_last()) + interleaved(
            frames.last().planes(),
            least_len(frames.last().planes()),
        )
    }
}

/// The two bytes of the sixteen bits of each sample, the lower first.
pub open spec fn le_bytes(samples: Seq<i16>) -> Seq<u8> {
    Seq::new(
        2 * samples.len(),
        |k: int|
            if k % 2 == 0 {
                (samples[k / 2] as u16 % 256) as u8
            } else {
                (samples[k / 2] as u16 / 256) as u8
            },
    )
}

proof fn lemma_sample_bytes(bits: u16)
    by (bit_vector)
    ensures
        ((bits & 0xff) as u8) == bits % 256,
        ((bits >> 8) as u8) == bits / 256,
{
}

/// The samples of a channel in a row of frames are those of the first frame
/// and then those of the frames after it.
pub proof fn lemma_frames_plane_front(frames: Seq<PcmFrame>, chn: int)
    requires
        frames.len() > 0,
    ensures
        frames_plane(frames, chn) == plane(frames[0].planes(), chn) + frames_plane(
            frames.skip(1),
            chn,
        ),
    decreases frames.len(),
{
    if frames.len() == 1 {
        assert(frames.drop_last() =~= Seq::<PcmFrame>::empty());
        assert(frames.skip(1) =~= Seq::<PcmFrame>::empty());
        assert(frames.last() == frames[0]);
        assert(frames_plane(frames.drop_last(), chn) =~= Seq::<i16>::empty());
        assert(frames_plane(frames.skip(1), chn) =~= Seq::<i16>::empty());
        assert(frames_plane(frames, chn) == frames_plane(frames.drop_last(), chn) + plane(
            frames.last().planes(),
            chn,
        ));
        assert(frames_plane(frames, chn) =~= plane(frames[0].planes(), chn) + Seq::<i16>::empty());
    } else {
        lemma_frames_plane_front(frames.drop_last(), chn);
        assert(frames.skip(1).drop_last() =~= frames.drop_last().skip(1));
        assert(frames_plane(frames, chn) =~= plane(frames[0].planes(), chn) + frames_plane(
            frames.skip(1),
            chn,
        ));
    }
}

/// Where no channel holds a sample, the greatest length is 0.
pub proof fn lemma_greatest_of_empty(planes: Seq<Seq<i16>>)
    requires
        forall|c: int| 0 <= c < planes.len() ==> (#[trigger] planes[c]).len() == 0,
    ensures
        greatest_len(planes) == 0,
    decreases planes.len(),
{
    if planes.len() > 0 {
        lemma_greatest_of_empty(planes.drop_last());
    }
}

/// Some channel has the greatest length.
pub proof fn lemma_greatest_attained(planes: Seq<Seq<i16>>) -> (c: int)
    requires
        planes.len() >= 1,
    ensures
        0 <= c < planes.len(),
        planes[c].len() == greatest_len(planes),
    decreases planes.len(),
{
    if planes.len() == 1 {
        assert(greatest_len(planes.drop_last()) == 0);
        0
    } else if planes.last().len() > greatest_len(planes.drop_last()) {
        planes.len() - 1
    } else {
        lemma_greatest_attained(planes.drop_last())
    }
}

/// A buffer of PCM samples of one sample rate and channel count, held in a
/// row of frames.
#[derive(Clone, Debug)]
pub struct PcmBuffer {
    buf: Vec<PcmFrame>,
    frame_size: usize,
    rate: u32,
    chan: usize,
}

impl PcmBuffer {
    /// The frames of the buffer.
    pub closed spec fn frames(&self) -> Seq<PcmFrame> {
        self.buf@
    }

    /// The number of samples per channel that a new frame can hold.
    pub closed spec fn frame_size(&self) -> usize {
        self.frame_size
    }

    /// The sample rate of the buffer, or 0 where it has none yet.
    pub closed spec fn spec_rate(&self) -> u32 {
        self.rate
    }

    /// Whether a frame is to be begun before more samples are taken: the
    /// buffer has none, or every channel of the last one holds as much as
    /// the frame can hold.
    pub open spec fn frame_due(&self) -> bool {
        self.frames().len() == 0 || least_len(self.frames().last().planes())
            >= self.frames().last().capacity()
    }

    /// The number of samples that channel `chn` of the last frame holds, or
    /// 0 where the buffer has no frame.
    pub open spec fn last_held(&self, chn: int) -> nat {
        if self.frames().len() > 0 {
            plane(self.frames().last().planes(), chn).len()
        } else {
            0
        }
    }

    /// The greatest number of samples that a channel of the last frame
    /// holds, or 0 where the buffer has no frame.
    pub open spec fn last_longest(&self) -> nat {
        if self.frames().len() > 0 {
            greatest_len(self.frames().last().planes())
        } else {
            0
        }
    }

    /// The number of samples that every channel of the first frame holds,
    /// or 0 where the buffer has no frame.
    pub open spec fn first_len(&self) -> nat {
        if self.frames().len() > 0 {
            least_len(self.frames()[0].planes())
        } else {
            0
        }
    }

    /// The channel count of the buffer, or 0 where it has none yet.
    pub closed spec fn spec_channels(&self) -> usize {
        self.chan
    }

    /// New frames can hold a sample at least, and every frame is well
    /// formed and has the sample rate and channel count of the buffer.
    pub closed spec fn wf(&self) -> bool {
        &&& self.frame_size > 0
        &&& self.chan != 0 <==> self.rate != 0
        &&& forall|i: int|
            0 <= i < self.buf.len() ==> {
                &&& (#[trigger] self.buf[i]).wf()
                &&& self.buf[i].spec_rate() == self.rate
                &&& self.buf[i].spec_channels() == self.chan
            }
    }

    /// A buffer that holds nothing, whose frames will hold `frame_size`
    /// samples per channel.
    pub fn new(frame_size: usize) -> (b: Self)
        requires
            frame_size > 0,
        ensures
            b.wf(),
            b.frames() == Seq::<PcmFrame>::empty(),
            b.frame_size() == frame_size,
            b.spec_rate() == 0,
            b.spec_channels() == 0,
    {
        PcmBuffer { buf: Vec::new(), frame_size, rate: 0, chan: 0 }
    }

    /// The number of samples that every channel holds, as far as a number
    /// can say.
    pub fn len(&self) -> (n: usize)
        requires
            self.wf(),
        ensures
            n == (if frames_len(self.frames()) > usize::MAX {
                usize::MAX as nat
            } else {
                frames_len(self.frames())
            }),
    {
        let mut n: usize = 0;
        let mut i: usize = 0;
        assert(self.buf@.take(0) =~= Seq::<PcmFrame>::empty());
        while i < self.buf.len()
            invariant
                i <= self.buf.len(),
                self.wf(),
                n == (if frames_len(self.buf@.take(i as int)) > usize::MAX {
                    usize::MAX as nat
                } else {
                    frames_len(self.buf@.take(i as int))
                }),
            decreases self.buf.len() - i,
        {
            assert(self.buf@.take(i + 1).drop_last() =~= self.buf@.take(i as int));
            assert(self.buf[i as int].wf());
            let more = self.buf[i].len();
            n = if more > usize::MAX - n { usize::MAX } else { n + more };
            i += 1;
        }
        assert(self.buf@.take(self.buf.len() as int) =~= self.buf@);
        n
    }

    /// Whether no sample is held for every channel.
    pub fn is_empty(&self) -> (b: bool)
        requires
            self.wf(),
        ensures
            b == (frames_len(self.frames()) == 0),
    {
        self.len() == 0
    }

    /// Drops all frames, and with them the sample rate and the channel
    /// count.
    pub fn clear(&mut self)
        requires
            old(self).wf(),
        ensures
            final(self).wf(),
            final(self).frames() == Seq::<PcmFrame>::empty(),
            final(self).frame_size() == old(self).frame_size(),
            final(self).spec_rate() == 0,
            final(self).spec_channels() == 0,
    {
        self.buf.clear();
        self.rate = 0;
        self.chan = 0;
    }

    /// Gives up the buffer for its frames.
    pub fn unwrap(self) -> (frames: Vec<PcmFrame>)
        ensures
            frames@ == self.frames(),
    {
        self.buf
    }

    /// The samples that every channel holds, interleaved frame by frame,
    /// each as two bytes, the lower first.
    pub fn encode(&self) -> (bytes: Vec<u8>)
        requires
            self.wf(),
        ensures
            bytes@ == le_bytes(frames_interleaved(self.frames())),
    {
        let mut bytes: Vec<u8> = Vec::new();
        let mut i: usize = 0;
        assert(self.buf@.take(0) =~= Seq::<PcmFrame>::empty());
        assert(bytes@ =~= le_bytes(Seq::<i16>::empty()));
        while i < self.buf.len()
            invariant
                i <= self.buf.len(),
                self.wf(),
                bytes@ == le_bytes(frames_interleaved(self.buf@.take(i as int))),
            decreases self.buf.len() - i,
        {
            assert(self.buf@.take(i + 1).drop_last() =~= self.buf@.take(i as int));
            assert(self.buf[i as int].wf());
            let ghost done = frames_interleaved(self.buf@.take(i as int));
            let samples = self.buf[i].data();
            let mut k: usize = 0;
            assert(done + samples@.take(0) =~= done);
            while k < samples.len()
                invariant
                    k <= samples.len(),
                    bytes@ == le_bytes(done + samples@.take(k as int)),
                decreases samples.len() - k,
            {
                let s = samples[k];
                let bits = #[verifier::truncate]
                (s as u16);
                proof {
                    lemma_sample_bytes(bits);
                }
                let ghost before = bytes@;
                bytes.push(
                    #[verifier::truncate]
                    ((bits & 0xff) as u8),
                );
                bytes.push(
                    #[verifier::truncate]
                    ((bits >> 8) as u8),
                );
                proof {
                    let now = done + samples@.take(k + 1);
                    let was = done + samples@.take(k as int);
                    assert(now =~= was.push(s));
                    assert(bytes@.len() == le_bytes(now).len());
                    assert forall|j: int| 0 <= j < bytes@.len() implies bytes@[j] == le_bytes(
                        now,
                    )[j] by {
                        if j < before.len() {
                            assert(before[j] == le_bytes(was)[j]);
                            assert(was[j / 2] == now[j / 2]);
                        }
                    }
                    assert(bytes@ =~= le_bytes(now));
                }
                k += 1;
            }
            assert(samples@.take(samples.len() as int) =~= samples@);
            i += 1;
        }
        assert(self.buf@.take(self.buf.len() as int) =~= self.buf@);
        bytes
    }

    /// The samples of all frames in one frame: each channel holds what it
    /// holds in the frames, one after the other. A buffer without a sample
    /// rate and channel count makes no frame.
    pub fn into_frame(self) -> (r: Option<PcmFrame>)
        requires
            self.wf(),
        ensures
            r is Some <==> self.spec_channels() != 0,
            r is Some ==> {
                let f = r->0;
                &&& f.wf()
                &&& f.spec_rate() == self.spec_rate()
                &&& f.spec_channels() == self.spec_channels()
                &&& f.planes() == Seq::new(
                    self.spec_channels() as nat,
                    |c: int| frames_plane(self.frames(), c),
                )
            },
    {
        if self.chan == 0 {
            return None;
        }
        let mut data: Vec<Vec<i16>> = Vec::new();
        while data.len() < self.chan
            invariant
                data.len() <= self.chan,
                forall|c: int| 0 <= c < data.len() ==> #[trigger] data[c]@ == Seq::<i16>::empty(),
            decreases self.chan - data.len(),
        {
            data.push(Vec::new());
        }
        let mut i: usize = 0;
        assert(self.buf@.take(0) =~= Seq::<PcmFrame>::empty());
        while i < self.buf.len()
            invariant
                i <= self.buf.len(),
                self.wf(),
                data.len() == self.chan,
                forall|c: int|
                    0 <= c < self.chan ==> #[trigger] data[c]@ == frames_plane(
                        self.buf@.take(i as int),
                        c,
                    ),
            decreases self.buf.len() - i,
        {
            assert(self.buf@.take(i + 1).drop_last() =~= self.buf@.take(i as int));
            assert(self.buf[i as int].wf());
            let mut c: usize = 0;
            while c < self.chan
                invariant
                    c <= self.chan,
                    i < self.buf.len(),
                    self.wf(),
                    self.buf[i as int].wf(),
                    self.buf[i as int].spec_channels() == self.chan,
                    data.len() == self.chan,
                    self.buf@.take(i + 1).drop_last() == self.buf@.take(i as int),
                    forall|k: int|
                        0 <= k < c ==> #[trigger] data[k]@ == frames_plane(self.buf@.take(i + 1), k),
                    forall|k: int|
                        c <= k < self.chan ==> #[trigger] data[k]@ == frames_plane(
                            self.buf@.take(i as int),
                            k,
                        ),
                decreases self.chan - c,
            {
                proof {
                    self.buf[i as int].lemma_wf();
                }
                data[c].extend_from_slice(self.buf[i].data[c].as_slice());
                assert(self.buf@.take(i + 1).last() == self.buf[i as int]);
                assert(plane(self.buf[i as int].planes(), c as int) == self.buf[i as int].data[c as int]@);
                c += 1;
            }
            i += 1;
        }
        assert(self.buf@.take(self.buf.len() as int) =~= self.buf@);
        let f = PcmFrame { data, size: usize::MAX, rate: self.rate, chan: self.chan };
        assert(f.planes() =~= Seq::new(
            self.spec_channels() as nat,
            |c: int| frames_plane(self.frames(), c),
        ));
        Some(f)
    }

    /// The last frame, where there is one.
    pub fn frame(&self) -> (f: Option<&PcmFrame>)
        ensures
            match f {
                Some(frame) => self.frames().len() > 0 && *frame == self.frames().last(),
                None => self.frames().len() == 0,
            },
    {
        if self.buf.len() == 0 {
            None
        } else {
            Some(&self.buf[self.buf.len() - 1])
        }
    }

    /// The sample rate and the channel count of the buffer, once they are
    /// set.
    pub fn descriptor(&self) -> (r: Result<(u32, usize), Error>)
        ensures
            match r {
                Ok(d) => d.0 == self.spec_rate() && d.1 == self.spec_channels() && d.1 != 0,
                Err(e) => e == Error::UninitializedDescriptor && self.spec_channels() == 0,
            },
    {
        if self.chan == 0 {
            Err(Error::UninitializedDescriptor)
        } else {
            Ok((self.rate, self.chan))
        }
    }
}

impl Default for PcmBuffer {
    fn default() -> (b: Self)
        ensures
            b.wf(),
            b.frames() == Seq::<PcmFrame>::empty(),
            b.frame_size() == crate::tables::FRAME_LEN,
            b.spec_rate() == 0,
            b.spec_channels() == 0,
    {
        PcmBuffer::new(crate::tables::FRAME_LEN)
    }
}

impl PcmStream for PcmBuffer {
    open spec fn stream_wf(&self) -> bool {
        self.wf()
    }

    open spec fn stream_channels(&self) -> usize {
        self.spec_channels()
    }

    open spec fn stream_rate(&self) -> u32 {
        self.spec_rate()
    }

    fn channel_count(&self) -> (n: usize) {
        self.chan
    }

    fn sample_rate(&self) -> (r: u32) {
        self.rate
    }
}

impl PcmBuffer {
    /// Takes the last frame off the buffer, or a new frame where the buffer
    /// has none.
    fn take_last(&mut self) -> (last: PcmFrame)
        requires
            old(self).wf(),
            old(self).chan != 0,
            old(self).rate != 0,
        ensures
            final(self).wf(),
            final(self).rate == old(self).rate,
            final(self).chan == old(self).chan,
            final(self).frame_size == old(self).frame_size,
            last.wf(),
            last.spec_rate() == old(self).rate,
            last.spec_channels() == old(self).chan,
            forall|c: int| #[trigger]
                frames_plane(old(self).buf@, c) == frames_plane(final(self).buf@, c) + plane(
                    last.planes(),
                    c,
                ),
            forall|c: int| plane(last.planes(), c).len() == old(self).last_held(c),
            greatest_len(last.planes()) == old(self).last_longest(),
    {
        match self.buf.pop() {
            Some(last) => {
                assert(old(self).buf[old(self).buf.len() - 1].wf());
                assert(self.buf@ =~= old(self).buf@.drop_last());
                last
            },
            None => {
                let last = PcmFrame::new(self.frame_size, self.rate, self.chan);
                proof {
                    lemma_greatest_of_empty(last.planes());
                }
                assert forall|c: int| #[trigger]
                    frames_plane(old(self).buf@, c) == frames_plane(self.buf@, c) + plane(
                        last.planes(),
                        c,
                    ) by {
                    assert(plane(last.planes(), c) =~= Seq::<i16>::empty());
                    assert(frames_plane(self.buf@, c) + Seq::<i16>::empty() =~= frames_plane(
                        self.buf@,
                        c,
                    ));
                }
                last
            },
        }
    }

    /// Puts a frame after the last one.
    fn put_last(&mut self, last: PcmFrame)
        requires
            old(self).wf(),
            last.wf(),
            last.spec_rate() == old(self).rate,
            last.spec_channels() == old(self).chan,
        ensures
            final(self).wf(),
            final(self).rate == old(self).rate,
            final(self).chan == old(self).chan,
            final(self).frame_size == old(self).frame_size,
            forall|c: int| #[trigger]
                frames_plane(final(self).buf@, c) == frames_plane(old(self).buf@, c) + plane(
                    last.planes(),
                    c,
                ),
    {
        self.buf.push(last);
        assert(self.buf@.drop_last() =~= old(self).buf@);
        assert forall|i: int| 0 <= i < self.buf.len() implies {
            &&& (#[trigger] self.buf[i]).wf()
            &&& self.buf[i].spec_rate() == self.rate
            &&& self.buf[i].spec_channels() == self.chan
        } by {
            if i < old(self).buf.len() {
                assert(old(self).buf[i].wf());
            }
        }
    }
}

impl PcmSink for PcmBuffer {
    open spec fn channel(&self, chn: int) -> Seq<i16> {
        frames_plane(self.frames(), chn)
    }

    open spec fn taking(&self) -> bool {
        true
    }

    /// Appends the samples of `buf` to channel `chn`; the last frame is
    /// made larger where it cannot hold them. The sample rate and the
    /// channel count must be set, and there must be such a channel.
    fn write(&mut self, buf: &[i16], chn: usize) -> (r: Result<usize, Error>)
        ensures
            r is Ok <==> chn < old(self).spec_channels(),
            r is Ok ==> r->Ok_0 == (if old(self).last_held(chn as int) + buf.len() > usize::MAX {
                usize::MAX - old(self).last_held(chn as int)
            } else {
                buf.len() as int
            }),
            r is Err ==> final(self).frames() == old(self).frames(),
            final(self).frame_size() == old(self).frame_size(),
            final(self).spec_rate() == old(self).spec_rate(),
            final(self).spec_channels() == old(self).spec_channels(),
    {
        if self.chan == 0 {
            return Err(Error::UninitializedDescriptor);
        }
        if chn >= self.chan {
            return Err(Error::Write("channel index out of bounds".to_owned()));
        }
        let ghost before = self.buf@;
        let mut last = self.take_last();
        let ghost rest = self.buf@;
        let ghost held = last;
        let room = last.room(chn);
        if room < buf.len() {
            last.grow(buf.len() - room);
        }
        let r = last.write(buf, chn);
        self.put_last(last);
        proof {
            assert forall|c: int| c != chn implies #[trigger] self.channel(c) == old(self).channel(
                c,
            ) by {
                assert(frames_plane(before, c) == frames_plane(rest, c) + plane(held.planes(), c));
                assert(last.channel(c) == held.channel(c));
            }
            if r is Ok {
                let n = r->Ok_0 as int;
                assert(frames_plane(before, chn as int) == frames_plane(rest, chn as int) + plane(
                    held.planes(),
                    chn as int,
                ));
                assert((frames_plane(rest, chn as int) + held.channel(chn as int)) + buf@.take(n)
                    =~= frames_plane(rest, chn as int) + (held.channel(chn as int) + buf@.take(
                    n,
                )));
            }
        }
        r
    }

    /// Appends interleaved samples from `buf`; the last frame is made
    /// larger where it cannot hold them. The sample rate and the channel
    /// count must be set.
    fn write_interleaved(&mut self, buf: &[i16]) -> (r: Result<usize, Error>)
        ensures
            r is Ok <==> old(self).spec_channels() != 0 && old(self).spec_rate() != 0,
            r is Ok ==> r->Ok_0 == (if old(self).last_longest() + buf.len() / old(
                self,
            ).spec_channels() > usize::MAX {
                usize::MAX - old(self).last_longest()
            } else {
                (buf.len() / old(self).spec_channels()) as int
            }),
            r is Err ==> *final(self) == *old(self),
            final(self).frame_size() == old(self).frame_size(),
            final(self).spec_rate() == old(self).spec_rate(),
            final(self).spec_channels() == old(self).spec_channels(),
    {
        if self.chan == 0 || self.rate == 0 {
            return Err(Error::UninitializedDescriptor);
        }
        proof {
            if self.frames().len() > 0 {
                let planes = self.frames().last().planes();
                let c = lemma_greatest_attained(planes);
                assert(self.channel(c) == frames_plane(self.frames().drop_last(), c) + plane(
                    planes,
                    c,
                ));
                assert(self.last_longest() <= self.channel(c).len());
            }
        }
        let ghost before = self.buf@;
        let mut last = self.take_last();
        let ghost rest = self.buf@;
        let ghost held = last;
        let groups = buf.len() / self.chan;
        let room = last.sample_capacity();
        if room < groups {
            last.grow(groups - room);
        }
        let r = last.write_interleaved(buf);
        self.put_last(last);
        proof {
            let channels = self.chan as int;
            let n = r->Ok_0 as int;
            assert forall|c: int| 0 <= c < channels implies #[trigger] self.channel(c) == old(
                self,
            ).channel(c) + deinterleaved(buf@, channels, c).take(n) by {
                let more = deinterleaved(buf@, channels, c).take(n);
                assert(frames_plane(before, c) == frames_plane(rest, c) + plane(held.planes(), c));
                assert(last.channel(c) == held.channel(c) + more);
                assert((frames_plane(rest, c) + held.channel(c)) + more =~= frames_plane(rest, c)
                    + (held.channel(c) + more));
            }
            assert forall|c: int| !(0 <= c < channels) implies #[trigger] self.channel(c) == old(
                self,
            ).channel(c) by {
                assert(frames_plane(before, c) == frames_plane(rest, c) + plane(held.planes(), c));
                assert(last.channel(c) == held.channel(c));
            }
        }
        r
    }

    /// A buffer takes what it is given.
    fn sample_capacity(&self) -> (n: usize)
        ensures
            n == usize::MAX,
    {
        usize::MAX
    }

    /// Sets the sample rate and the channel count of a buffer that has
    /// none, and accepts the ones that it has; a frame is begun where
    /// there is none or the last one is full. Neither may be 0, and a
    /// buffer that holds frames takes no other than it has.
    fn set_descriptor(&mut self, sample_rate: u32, channel_count: usize) -> (r: Result<(), Error>)
        ensures
            r is Ok <==> sample_rate != 0 && channel_count != 0 && (old(self).frames().len() == 0 || (
            sample_rate == old(self).spec_rate() && channel_count == old(self).spec_channels())),
            r is Err ==> *final(self) == *old(self),
            r is Err ==> r->Err_0 == (if sample_rate == 0 || channel_count == 0 {
                Error::UninitializedDescriptor
            } else {
                Error::DescriptorSet
            }),
            final(self).frame_size() == old(self).frame_size(),
            r is Ok && !old(self).frame_due() ==> final(self).frames() == old(self).frames(),
            r is Ok && old(self).frame_due() ==> {
                &&& final(self).frames().len() == old(self).frames().len() + 1
                &&& final(self).frames().drop_last() == old(self).frames()
                &&& final(self).frames().last().capacity() == old(self).frame_size()
                &&& final(self).frames().last().planes() == Seq::new(
                    channel_count as nat,
                    |c: int| Seq::<i16>::empty(),
                )
            },
    {
        if sample_rate == 0 || channel_count == 0 {
            return Err(Error::UninitializedDescriptor);
        }
        if self.buf.len() > 0 {
            proof {
                assert(self.buf[0].wf());
                self.buf[0].lemma_wf();
            }
            if sample_rate != self.rate || channel_count != self.chan {
                return Err(Error::DescriptorSet);
            }
            assert(self.buf[self.buf.len() - 1].wf());
            if !self.buf[self.buf.len() - 1].is_full() {
                return Ok(());
            }
        }
        self.rate = sample_rate;
        self.chan = channel_count;
        let fresh = PcmFrame::new(self.frame_size, sample_rate, channel_count);
        let ghost before = self.buf@;
        self.buf.push(fresh);
        proof {
            assert(self.buf@.drop_last() =~= before);
            assert forall|i: int| 0 <= i < self.buf.len() implies {
                &&& (#[trigger] self.buf[i]).wf()
                &&& self.buf[i].spec_rate() == self.rate
                &&& self.buf[i].spec_channels() == self.chan
            } by {
                if i < before.len() {
                    assert(old(self).buf[i].wf());
                }
            }
            assert forall|c: int| #[trigger] self.channel(c) == old(self).channel(c) by {
                assert(plane(fresh.planes(), c) =~= Seq::<i16>::empty());
                assert(frames_plane(before, c) + Seq::<i16>::empty() =~= frames_plane(before, c));
            }
        }
        Ok(())
    }
}

impl PcmSource for PcmBuffer {
    open spec fn pending(&self, chn: int) -> Seq<i16> {
        frames_plane(self.frames(), chn)
    }

    /// A buffer delivers what it holds where every frame holds a sample
    /// and as many for one channel as for another.
    open spec fn delivering(&self) -> bool {
        forall|i: int|
            0 <= i < self.frames().len() ==> 0 < least_len((#[trigger] self.frames()[i]).planes())
                == greatest_len(self.frames()[i].planes())
    }

    open spec fn available(&self) -> usize {
        if frames_len(self.frames()) > usize::MAX {
            usize::MAX
        } else {
            frames_len(self.frames()) as usize
        }
    }

    /// Delivers the first samples of the first frame to the sink, as many
    /// as every channel of that frame holds and `sample_count` at most,
    /// and drops them; a frame that holds nothing any more is dropped.
    /// Where there is nothing to deliver, the sink is left alone; where the
    /// sink fails, the buffer keeps its frames.
    fn read<K: PcmSink>(&mut self, buf: &mut K, sample_count: usize) -> (r: Result<usize, Error>)
        ensures
            old(self).first_len() == 0 || sample_count == 0 ==> r is Ok && *final(buf) == *old(
                buf,
            ),
            r is Ok ==> r->Ok_0 == (if sample_count < old(self).first_len() {
                sample_count as nat
            } else {
                old(self).first_len()
            }),
            r is Err ==> final(self).frames() == old(self).frames(),
            final(self).frame_size() == old(self).frame_size(),
            final(self).spec_rate() == old(self).spec_rate(),
            final(self).spec_channels() == old(self).spec_channels(),
    {
        if self.buf.len() == 0 {
            proof {
                assert(self.pending(0).len() == 0);
                assert forall|c: int| 0 <= c < self.stream_channels() implies {
                    &&& 0 <= #[trigger] self.pending(c).len()
                    &&& self.pending(c) == self.pending(c).skip(0)
                    &&& buf.channel(c) == buf.channel(c) + self.pending(c).take(0)
                } by {
                    assert(self.pending(c).skip(0) =~= self.pending(c));
                    assert(buf.channel(c) + self.pending(c).take(0) =~= buf.channel(c));
                }
            }
            return Ok(0);
        }
        let ghost before = self.buf@;
        let ghost sure = self.delivering();
        let ghost admits = sample_count > 0 && (forall|c: int|
            0 <= c < self.stream_channels() ==> (#[trigger] self.pending(c)).len() > 0)
            && sink_admits(*buf, self.stream_rate(), self.stream_channels(), sample_count);
        assert(self.buf[0].wf());
        let mut first = self.buf.remove(0);
        let ghost rest = self.buf@;
        let ghost held = first;
        assert(rest =~= before.skip(1));
        proof {
            held.lemma_wf();
            if sure {
                assert forall|c: int| 0 <= c < old(self).stream_channels() implies (
                #[trigger] old(self).pending(c)).len() > 0 by {
                    assert(0 < least_len(before[0].planes()));
                    lemma_len_bounds(held.planes(), c);
                    lemma_frames_plane_front(before, c);
                }
            }
            if sure {
                assert(0 < least_len(before[0].planes()) == greatest_len(before[0].planes()));
                assert forall|c: int| 0 <= c < held.stream_channels() implies (
                #[trigger] held.pending(c)).len() > 0 by {
                    lemma_len_bounds(held.planes(), c);
                }
            }
        }
        let r = first.read(buf, sample_count);
        let keep = first.longest() > 0;
        proof {
            if sure {
                first.lemma_wf();
                let len = least_len(held.planes());
                if r is Ok {
                    let n = r->Ok_0 as nat;
                    assert forall|c: int| 0 <= c < first.planes().len() implies (
                    #[trigger] first.planes()[c]).len() == len - n by {
                        lemma_len_bounds(held.planes(), c);
                        assert(first.pending(c) == held.pending(c).skip(n as int));
                    }
                    lemma_least_len_even(first.planes(), (len - n) as nat);
                    lemma_greatest_len_even(first.planes(), (len - n) as nat);
                }
            }
        }
        proof {
            if r is Err {
                held.lemma_wf();
                if greatest_len(held.planes()) == 0 {
                    lemma_len_bounds(held.planes(), 0);
                }
            }
        }
        if keep {
            self.buf.insert(0, first);
        }
        proof {
            if r is Err {
                assert(self.buf@ =~= before);
            }
        }
        proof {
            if sure {
                assert forall|i: int| 0 <= i < self.buf.len() implies 0 < least_len(
                    (#[trigger] self.buf@[i]).planes(),
                ) == greatest_len(self.buf@[i].planes()) by {
                    if keep {
                        if i > 0 {
                            assert(self.buf@[i] == rest[i - 1]);
                            assert(rest[i - 1] == before[i]);
                        } else {
                            assert(self.buf@[0] == first);
                        }
                    } else {
                        assert(self.buf@[i] == before[i + 1]);
                    }
                }
            }
        }
        proof {
            assert forall|i: int| 0 <= i < self.buf.len() implies {
                &&& (#[trigger] self.buf[i]).wf()
                &&& self.buf[i].spec_rate() == self.rate
                &&& self.buf[i].spec_channels() == self.chan
            } by {
                if keep {
                    if i > 0 {
                        assert(self.buf[i] == rest[i - 1]);
                        assert(rest[i - 1] == before[i]);
                        assert(old(self).buf[i].wf());
                    } else {
                        assert(self.buf[0] == first);
                    }
                } else {
                    assert(self.buf[i] == before[i + 1]);
                    assert(old(self).buf[i + 1].wf());
                }
            }
            if r is Ok {
                let n = r->Ok_0 as int;
                held.lemma_wf();
                assert forall|c: int| 0 <= c < old(self).stream_channels() implies {
                    &&& n <= #[trigger] old(self).pending(c).len()
                    &&& self.pending(c) == old(self).pending(c).skip(n)
                    &&& buf.channel(c) == old(buf).channel(c) + old(self).pending(c).take(n)
                } by {
                    lemma_frames_plane_front(before, c);
                    let head = held.pending(c);
                    let tail = frames_plane(rest, c);
                    assert(old(self).pending(c) == head + tail);
                    assert((head + tail).take(n) =~= head.take(n));
                    assert((head + tail).skip(n) =~= head.skip(n) + tail);
                    if keep {
                        lemma_frames_plane_front(self.buf@, c);
                        assert(self.buf@.skip(1) =~= rest);
                    } else {
                        first.lemma_wf();
                        lemma_len_bounds(first.planes(), c);
                        assert(first.pending(c) =~= Seq::<i16>::empty());
                        assert(Seq::<i16>::empty() + tail =~= tail);
                    }
                }
            }
        }
        r
    }

    /// The number of samples that every channel holds, as far as a number
    /// can say.
    fn sample_count(&self) -> (n: usize) {
        self.len()
    }
}

/// Gives a sink the samples that every channel of a frame holds, after the
/// sample rate and channel count of the frame are set. Returns the frame
/// with what is left in it, or nothing where no channel is left with a
/// sample.
pub fn write_frame<K: PcmSink>(sink: &mut K, frame: PcmFrame) -> (r: Result<
    Option<PcmFrame>,
    Error,
>)
    requires
        old(sink).stream_wf(),
        frame.wf(),
    ensures
        final(sink).stream_wf(),
        match r {
            Ok(rest) => {
                &&& rest is Some ==> rest->0.wf() && rest->0.spec_channels()
                    == frame.spec_channels()
                &&& forall|c: int|
                    0 <= c < frame.spec_channels() ==> #[trigger] final(sink).channel(c) == old(
                        sink,
                    ).channel(c) + frame.planes()[c].take(least_len(frame.planes()) as int)
                &&& forall|c: int|
                    0 <= c < frame.spec_channels() ==> (#[trigger] frame.planes()[c]).skip(
                        least_len(frame.planes()) as int,
                    ) == (match rest {
                        Some(left) => left.planes()[c],
                        None => Seq::empty(),
                    })
            },
            Err(_) => true,
        },
        sink_admits(
            *old(sink),
            frame.spec_rate(),
            frame.spec_channels(),
            least_len(frame.planes()) as usize,
        ) ==> r is Ok && final(sink).taking(),
{
    let mut frame = frame;
    let ghost admits = sink_admits(
        *sink,
        frame.spec_rate(),
        frame.spec_channels(),
        least_len(frame.planes()) as usize,
    );
    proof {
        frame.lemma_wf();
        assert forall|c: int|
            least_len(frame.planes()) > 0 && 0 <= c < frame.stream_channels() implies (
        #[trigger] frame.pending(c)).len() > 0 by {
            lemma_len_bounds(frame.planes(), c);
        }
    }
    match sink.set_descriptor(frame.rate(), frame.channels()) {
        Ok(()) => {},
        Err(err) => {
            return Err(err);
        },
    }
    let ghost described = *sink;
    let len = frame.len();
    let ghost whole = frame;
    let n = match frame.read(sink, len) {
        Ok(n) => n,
        Err(err) => {
            return Err(err);
        },
    };
    proof {
        whole.lemma_wf();
        assert forall|c: int| 0 <= c < whole.spec_channels() implies #[trigger] sink.channel(c)
            == old(sink).channel(c) + whole.planes()[c].take(n as int) by {
            assert(described.channel(c) == old(sink).channel(c));
            assert(whole.pending(c) == whole.planes()[c]);
        }
    }
    proof {
        frame.lemma_wf();
        assert forall|c: int| 0 <= c < whole.spec_channels() implies (
        #[trigger] whole.planes()[c]).skip(n as int) == frame.planes()[c] by {
            assert(frame.pending(c) == whole.pending(c).skip(n as int));
        }
    }
    if frame.longest() == 0 {
        proof {
            assert forall|c: int| 0 <= c < whole.spec_channels() implies (
            #[trigger] whole.planes()[c]).skip(n as int) == Seq::<i16>::empty() by {
                lemma_len_bounds(frame.planes(), c);
                assert(frame.planes()[c] =~= Seq::<i16>::empty());
            }
        }
        Ok(None)
    } else {
        Ok(Some(frame))
    }
}

/// Whether the buffer holds just the first `n` samples of each channel of
/// the source.
pub open spec fn read_out<P: PcmSource>(source: P, buffer: PcmBuffer, n: nat) -> bool {
    forall|c: int|
        0 <= c < source.stream_channels() ==> n <= (#[trigger] source.pending(c)).len()
            && buffer.channel(c) == source.pending(c).take(n as int)
}

/// Whether the buffer holds just the first samples of each channel of the
/// source, the same number of each.
pub open spec fn read_from<P: PcmSource>(source: P, buffer: PcmBuffer) -> bool {
    exists|n: nat| #[trigger] read_out(source, buffer, n)
}

/// Whether a source can be read out: it knows its sample rate and channel
/// count, and a number can count the samples of each channel with one
/// portion more.
pub open spec fn readable<P: PcmSource>(source: P) -> bool {
    &&& source.stream_rate() != 0
    &&& source.stream_channels() != 0
    &&& forall|c: int|
        0 <= c < source.stream_channels() ==> (#[trigger] source.pending(c)).len() + 5120
            <= usize::MAX
}

/// Whether the buffer holds all samples of some channel of the source: the
/// source was read to its end.
pub open spec fn read_to_end<P: PcmSource>(source: P, buffer: PcmBuffer) -> bool {
    exists|c: int|
        0 <= c < source.stream_channels() && buffer.channel(c) == #[trigger] source.pending(c)
}

/// Reads a source into a buffer until it delivers no more. The source must
/// know its sample rate and channel count: where either is 0, nothing is
/// read. A source that delivers what it holds is read to its end.
pub fn read_all<P: PcmSource>(source: P) -> (r: Result<PcmBuffer, Error>)
    requires
        source.stream_wf(),
    ensures
        source.stream_rate() == 0 || source.stream_channels() == 0 ==> r == Err::<PcmBuffer, Error>(
            Error::UninitializedDescriptor,
        ),
        match r {
            Ok(buffer) => {
                &&& buffer.wf()
                &&& buffer.spec_rate() == source.stream_rate()
                &&& buffer.spec_channels() == source.stream_channels()
                &&& read_from(source, buffer)
            },
            Err(_) => true,
        },
        source.delivering() && readable(source) ==> r is Ok && read_to_end(source, r->Ok_0),
{
    let ghost whole = source;
    let mut reader = source;
    let mut buffer = PcmBuffer::new(crate::tables::FRAME_LEN);
    let rate = reader.sample_rate();
    let channels = reader.channel_count();
    let ghost planes = Seq::new(channels as nat, |c: int| reader.pending(c));
    match buffer.set_descriptor(rate, channels) {
        Ok(()) => {},
        Err(err) => {
            return Err(err);
        },
    }
    let ghost mut taken: nat = 0;
    let ghost sure = source.delivering() && readable(source);
    let mut failure: Option<Error> = None;
    proof {
        assert forall|c: int| 0 <= c < channels implies buffer.channel(c) == planes[c].take(
            0,
        ) && reader.pending(c) == planes[c].skip(0) by {
            assert(planes[c].take(0) =~= Seq::<i16>::empty());
            assert(planes[c].skip(0) =~= planes[c]);
        }
    }
    loop
        invariant_except_break
            failure is None,
            sure ==> reader.delivering(),
            sure ==> rate != 0 && forall|c: int|
                0 <= c < channels ==> (#[trigger] planes[c]).len() + 5120 <= usize::MAX,
            reader.stream_wf(),
            buffer.wf(),
            channels >= 1,
            reader.stream_channels() == channels,
            reader.stream_rate() == rate,
            buffer.spec_channels() == channels,
            buffer.spec_rate() == rate,
            planes.len() == channels,
            whole.stream_channels() == channels,
            forall|c: int| 0 <= c < channels ==> #[trigger] planes[c] == whole.pending(c),
            forall|c: int|
                0 <= c < channels ==> taken <= (#[trigger] planes[c]).len() && buffer.channel(c)
                    == planes[c].take(taken as int) && reader.pending(c) == planes[c].skip(
                    taken as int,
                ),
        ensures
            failure is None ==> {
                &&& buffer.wf()
                &&& buffer.spec_channels() == channels
                &&& buffer.spec_rate() == rate
                &&& read_out(whole, buffer, taken)
            },
            sure ==> failure is None && read_to_end(whole, buffer),
        decreases reader.pending(0).len(),
    {
        let ghost before = reader;
        let ghost held = buffer;
        let ghost dry = exists|c: int|
            0 <= c < channels && (#[trigger] reader.pending(c)).len() == 0;
        proof {
            if sure && !dry {
                assert forall|c: int| 0 <= c < channels implies (#[trigger] buffer.channel(c)).len()
                    + crate::tables::FRAME_LEN <= usize::MAX by {
                    assert(buffer.channel(c) == planes[c].take(taken as int));
                    assert(planes[c].len() + 5120 <= usize::MAX);
                }
                assert(sink_admits(buffer, rate, channels, crate::tables::FRAME_LEN));
            }
        }
        let n = match reader.read(&mut buffer, crate::tables::FRAME_LEN) {
            Ok(n) => n,
            Err(err) => {
                failure = Some(err);
                break;
            },
        };
        if buffer.channel_count() != channels || buffer.sample_rate() != rate {
            failure = Some(Error::DescriptorSet);
            break;
        }
        proof {
            assert forall|c: int| 0 <= c < channels implies taken + n <= (
            #[trigger] planes[c]).len() && buffer.channel(c) == planes[c].take(taken + n)
                && reader.pending(c) == planes[c].skip(taken + n) by {
                assert(before.pending(c) == planes[c].skip(taken as int));
                assert(held.channel(c) == planes[c].take(taken as int));
                assert(planes[c].take(taken as int) + planes[c].skip(taken as int).take(n as int)
                    =~= planes[c].take(taken + n));
                assert(planes[c].skip(taken as int).skip(n as int) =~= planes[c].skip(taken + n));
            }
            taken = (taken + n) as nat;
        }
        if n == 0 {
            proof {
                if sure {
                    assert(dry);
                    let c = choose|c: int|
                        0 <= c < channels && (#[trigger] before.pending(c)).len() == 0;
                    assert(planes[c].skip((taken - n) as int).len() == 0);
                    assert(planes[c].take(taken as int) =~= planes[c]);
                    assert(buffer.channel(c) == whole.pending(c));
                }
                assert forall|c: int| 0 <= c < whole.stream_channels() implies taken <= (
                #[trigger] whole.pending(c)).len() && buffer.channel(c) == whole.pending(c).take(
                    taken as int,
                ) by {
                    assert(planes[c] == whole.pending(c));
                }
            }
            break;
        }
    }
    match failure {
        Some(err) => Err(err),
        None => {
            assert(read_out(source, buffer, taken));
            assert(read_from(source, buffer));
            Ok(buffer)
        },
    }
}

} // verus!
