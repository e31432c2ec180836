//! What is known of a stream: its length, sample rate and channel count.

use vstd::prelude::*;

verus! {

/// Why a stream descriptor is refused.
#[derive(Copy, Clone, Debug, PartialEq, Eq)]
pub enum DescriptorError {
    /// The sample rate is outside `[1, 2^24)`.
    UnsupportedRate(u32),
    /// The channel count is 0.
    NoChannels,
    /// The sample count is 0.
    NoSamples,
    /// The channel count is above 255.
    TooManyChannels(usize),
    /// The sample count is above `2^32 - 1`.
    TooManySamples(usize),
}

/// The number of samples per channel, the sample rate and the channel count
/// of a stream, each of them known or not.
#[derive(Copy, Clone, Debug, PartialEq, Eq)]
pub struct StreamDescriptor {
    /// The number of samples per channel.
    pub sample_count: Option<usize>,
    /// The sample rate.
    pub sample_rate: Option<u32>,
    /// The number of channels.
    pub channel_count: Option<usize>,
}

/// The first of the constraints on a descriptor that the three values break:
/// the rate lies in `[1, 2^24)`, the sample count in `[1, 2^32)` and the
/// channel count in `[1, 255]`.
pub open spec fn descriptor_fault(
    sample_count: Option<usize>,
    sample_rate: Option<u32>,
    channel_count: Option<usize>,
) -> Option<DescriptorError> {
    if sample_rate is Some && !(1 <= sample_rate->0 < 0x100_0000) {
        Some(DescriptorError::UnsupportedRate(sample_rate->0))
    } else if sample_count == Some(0usize) {
        Some(DescriptorError::NoSamples)
    } else if sample_count is Some && sample_count->0 > 0xffff_ffff {
        Some(DescriptorError::TooManySamples(sample_count->0))
    } else if channel_count == Some(0usize) {
        Some(DescriptorError::NoChannels)
    } else if channel_count is Some && channel_count->0 > 255 {
        Some(DescriptorError::TooManyChannels(channel_count->0))
    } else {
        None
    }
}

/// `value` where it is known, else `fallback`.
pub open spec fn or_else<T>(value: Option<T>, fallback: Option<T>) -> Option<T> {
    if value is Some {
        value
    } else {
        fallback
    }
}

/// `value` unless it is a known zero, which stands for "not known".
pub open spec fn nonzero_u32(value: Option<u32>) -> Option<u32> {
    if value == Some(0u32) {
        None
    } else {
        value
    }
}

/// `value` unless it is a known zero, which stands for "not known".
pub open spec fn nonzero_usize(value: Option<usize>) -> Option<usize> {
    if value == Some(0usize) {
        None
    } else {
        value
    }
}

impl StreamDescriptor {
    /// Every value that is known satisfies its constraint.
    pub open spec fn valid(self) -> bool {
        descriptor_fault(self.sample_count, self.sample_rate, self.channel_count) is None
    }

    /// The descriptor with each unknown value taken from `fallback`, and with
    /// a rate or a channel count of zero taken as unknown.
    pub open spec fn spec_infer(self, fallback: StreamDescriptor) -> StreamDescriptor {
        StreamDescriptor {
            sample_count: or_else(self.sample_count, fallback.sample_count),
            sample_rate: nonzero_u32(or_else(self.sample_rate, fallback.sample_rate)),
            channel_count: nonzero_usize(or_else(self.channel_count, fallback.channel_count)),
        }
    }

    /// The descriptor inferred from `fallback` and from a block of `len`
    /// interleaved samples: a known sample count is limited to `len` and
    /// gives the channel count, or else a known channel count gives the
    /// sample count.
    pub open spec fn spec_infer_from_len(self, len: usize, fallback: StreamDescriptor) -> StreamDescriptor {
        let inferred = self.spec_infer(fallback);
        if inferred.sample_count is Some {
            let count = inferred.sample_count->0;
            let limited = if count < len { count } else { len };
            if inferred.channel_count is None && limited > 0 {
                StreamDescriptor {
                    sample_count: Some(limited),
                    sample_rate: inferred.sample_rate,
                    channel_count: Some((len / limited) as usize),
                }
            } else {
                inferred
            }
        } else if inferred.channel_count is Some {
            StreamDescriptor {
                sample_count: Some((len / inferred.channel_count->0) as usize),
                sample_rate: inferred.sample_rate,
                channel_count: inferred.channel_count,
            }
        } else {
            inferred
        }
    }

    /// Creates a descriptor from values that satisfy their constraints.
    pub fn new(
        sample_count: Option<usize>,
        sample_rate: Option<u32>,
        channel_count: Option<usize>,
    ) -> (r: Result<Self, DescriptorError>)
        ensures
            r == match descriptor_fault(sample_count, sample_rate, channel_count) {
                Some(fault) => Err::<StreamDescriptor, DescriptorError>(fault),
                None => Ok(StreamDescriptor { sample_count, sample_rate, channel_count }),
            },
    {
        if let Some(rate) = sample_rate {
            if rate < 1 || rate >= 0x100_0000 {
                return Err(DescriptorError::UnsupportedRate(rate));
            }
        }
        if let Some(count) = sample_count {
            if count == 0 {
                return Err(DescriptorError::NoSamples);
            }
            if count > 0xffff_ffff {
                return Err(DescriptorError::TooManySamples(count));
            }
        }
        if let Some(channels) = channel_count {
            if channels == 0 {
                return Err(DescriptorError::NoChannels);
            }
            if channels > 255 {
                return Err(DescriptorError::TooManyChannels(channels));
            }
        }
        Ok(StreamDescriptor { sample_count, sample_rate, channel_count })
    }

    /// The number of samples per channel, where known.
    pub fn samples(&self) -> (r: Option<usize>)
        ensures
            r == self.sample_count,
    {
        self.sample_count
    }

    /// The sample rate, where known.
    pub fn rate(&self) -> (r: Option<u32>)
        ensures
            r == self.sample_rate,
    {
        self.sample_rate
    }

    /// The channel count, where known.
    pub fn channels(&self) -> (r: Option<usize>)
        ensures
            r == self.channel_count,
    {
        self.channel_count
    }

    /// Limits the sample count to `sample_count`, or sets it where it is not
    /// known.
    pub fn suggest_sample_count(&mut self, sample_count: usize)
        ensures
            final(self).sample_count == Some(
                if old(self).sample_count is Some && old(self).sample_count->0 < sample_count {
                    old(self).sample_count->0
                } else {
                    sample_count
                },
            ),
            final(self).sample_rate == old(self).sample_rate,
            final(self).channel_count == old(self).channel_count,
    {
        let limited = match self.sample_count {
            Some(count) => if count < sample_count { count } else { sample_count },
            None => sample_count,
        };
        self.sample_count = Some(limited);
    }

    /// Sets the sample rate where it is not known.
    pub fn suggest_sample_rate(&mut self, sample_rate: u32)
        ensures
            final(self).sample_rate == or_else(old(self).sample_rate, Some(sample_rate)),
            final(self).sample_count == old(self).sample_count,
            final(self).channel_count == old(self).channel_count,
    {
        if self.sample_rate.is_none() {
            self.sample_rate = Some(sample_rate);
        }
    }

    /// Sets the channel count where it is not known.
    pub fn suggest_channel_count(&mut self, channel_count: usize)
        ensures
            final(self).channel_count == or_else(old(self).channel_count, Some(channel_count)),
            final(self).sample_count == old(self).sample_count,
            final(self).sample_rate == old(self).sample_rate,
    {
        if self.channel_count.is_none() {
            self.channel_count = Some(channel_count);
        }
    }

    /// Whether the length of the stream is unknown.
    pub fn is_streaming(&self) -> (r: bool)
        ensures
            r == (self.sample_count is None),
    {
        self.sample_count.is_none()
    }

    /// The three values, with 0 for each that is not known.
    pub fn unwrap_all(self) -> (r: (usize, u32, usize))
        ensures
            r.0 == (if self.sample_count is Some { self.sample_count->0 } else { 0 }),
            r.1 == (if self.sample_rate is Some { self.sample_rate->0 } else { 0 }),
            r.2 == (if self.channel_count is Some { self.channel_count->0 } else { 0 }),
    {
        let samples = match self.sample_count {
            Some(count) => count,
            None => 0,
        };
        let rate = match self.sample_rate {
            Some(rate) => rate,
            None => 0,
        };
        let channels = match self.channel_count {
            Some(channels) => channels,
            None => 0,
        };
        (samples, rate, channels)
    }

    /// Fills `option` from `fallback` where it holds nothing.
    pub fn set<T: Copy>(option: &mut Option<T>, fallback: &Option<T>)
        ensures
            *final(option) == or_else(*old(option), *fallback),
    {
        if option.is_none() {
            if let Some(value) = fallback {
                *option = Some(*value);
            }
        }
    }

    /// Takes each unknown value from `fallback`; a rate or a channel count
    /// of zero counts as unknown.
    pub fn infer(&mut self, fallback: &Self)
        ensures
            *final(self) == old(self).spec_infer(*fallback),
    {
        Self::set(&mut self.sample_count, &fallback.sample_count);
        Self::set(&mut self.sample_rate, &fallback.sample_rate);
        Self::set(&mut self.channel_count, &fallback.channel_count);
        if let Some(rate) = self.sample_rate {
            if rate == 0 {
                self.sample_rate = None;
            }
        }
        if let Some(channels) = self.channel_count {
            if channels == 0 {
                self.channel_count = None;
            }
        }
    }

    /// Takes each unknown value from `fallback`, then infers the channel
    /// count or the sample count from the length of `vec`.
    pub fn infer_from_vec(&mut self, vec: &Vec<i16>, fallback: &Self)
        ensures
            *final(self) == old(self).spec_infer_from_len(vec.len(), *fallback),
    {
        self.infer(fallback);
        if let Some(count) = self.sample_count {
            let limited = if count < vec.len() { count } else { vec.len() };
            if self.channel_count.is_none() && limited > 0 {
                self.sample_count = Some(limited);
                self.channel_count = Some(vec.len() / limited);
            }
        } else if let Some(channels) = self.channel_count {
            self.sample_count = Some(vec.len() / channels);
        }
    }
}

impl Default for StreamDescriptor {
    fn default() -> (d: Self)
        ensures
            d.sample_count is None,
            d.sample_rate is None,
            d.channel_count is None,
    {
        StreamDescriptor { sample_count: None, sample_rate: None, channel_count: None }
    }
}

} // verus!
