//! The layout of the words of a stream: file header, frame header and the
//! serialized predictor state.

use vstd::prelude::*;
use crate::lms::QoaLmsState;
use crate::tables::MAGIC;

verus! {

/// The file header of a stream of `samples` samples per channel: the magic
/// number in bits 63..32, the count in bits 31..0. A count of 0 announces a
/// stream of unknown length.
pub open spec fn file_header_word(samples: u32) -> u64 {
    (MAGIC as int * 0x1_0000_0000 + samples) as u64
}

/// The upper half of a word, where a file header holds the magic number.
pub open spec fn word_magic(word: u64) -> u32 {
    (word / 0x1_0000_0000) as u32
}

/// The lower half of a word, where a file header holds the sample count.
pub open spec fn word_samples(word: u64) -> u32 {
    (word % 0x1_0000_0000) as u32
}

/// The four bytes of a number, highest first.
pub open spec fn be_bytes4(x: u32) -> Seq<u8> {
    seq![
        (x / 0x100_0000) as u8,
        (x / 0x1_0000 % 256) as u8,
        (x / 0x100 % 256) as u8,
        (x % 256) as u8,
    ]
}

/// The frame header: channel count in bits 63..56, sample rate in bits
/// 55..32, samples per channel in bits 31..16, frame size in bits 15..0.
pub open spec fn frame_header_word(channels: u8, rate: u32, samples: u16, size: u16) -> u64 {
    (channels as int * 0x100_0000_0000_0000 + rate as int * 0x1_0000_0000 + samples as int
        * 0x1_0000 + size) as u64
}

/// The channel count of a frame header.
pub open spec fn header_channels(word: u64) -> u8 {
    (word / 0x100_0000_0000_0000) as u8
}

/// The sample rate of a frame header.
pub open spec fn header_rate(word: u64) -> u32 {
    (word / 0x1_0000_0000 % 0x100_0000) as u32
}

/// The number of samples per channel of a frame header.
pub open spec fn header_frame_samples(word: u64) -> u16 {
    (word / 0x1_0000 % 0x1_0000) as u16
}

/// The frame size of a frame header.
pub open spec fn header_size(word: u64) -> u16 {
    (word % 0x1_0000) as u16
}

/// The number of slices per channel that hold `samples` samples.
pub open spec fn slices_for(samples: int) -> int {
    (samples + 19) / 20
}

/// The size that a frame of `slices` slices per channel declares, reduced to
/// the sixteen bits of its field.
pub open spec fn frame_size(channels: int, slices: int) -> u16 {
    ((24 * channels + 8 * slices * channels) % 0x1_0000) as u16
}

/// The low sixteen bits of a lane of the predictor state.
pub open spec fn lane_bits(x: i32) -> int {
    x as int % 0x1_0000
}

/// A sixteen-bit field read as a signed number.
pub open spec fn sign_extend16(bits: int) -> int {
    if bits >= 0x8000 {
        bits - 0x1_0000
    } else {
        bits
    }
}

/// The word that holds the low sixteen bits of each of four lanes, lane 0 in
/// bits 63..48 and lane 3 in bits 15..0.
pub open spec fn lanes_word(lanes: [i32; 4]) -> u64 {
    (lane_bits(lanes[0]) * 0x1_0000_0000_0000 + lane_bits(lanes[1]) * 0x1_0000_0000 + lane_bits(
        lanes[2],
    ) * 0x1_0000 + lane_bits(lanes[3])) as u64
}

/// Lane `i` of a word, sign-extended.
pub open spec fn word_lane(word: u64, i: int) -> int {
    if i == 0 {
        sign_extend16(word as int / 0x1_0000_0000_0000)
    } else if i == 1 {
        sign_extend16(word as int / 0x1_0000_0000 % 0x1_0000)
    } else if i == 2 {
        sign_extend16(word as int / 0x1_0000 % 0x1_0000)
    } else {
        sign_extend16(word as int % 0x1_0000)
    }
}

/// The predictor state that two words hold: the history in the first, the
/// weights in the second.
pub open spec fn words_lms(history: u64, weights: u64) -> QoaLmsState {
    QoaLmsState {
        history: [
            word_lane(history, 0) as i32,
            word_lane(history, 1) as i32,
            word_lane(history, 2) as i32,
            word_lane(history, 3) as i32,
        ],
        weights: [
            word_lane(weights, 0) as i32,
            word_lane(weights, 1) as i32,
            word_lane(weights, 2) as i32,
            word_lane(weights, 3) as i32,
        ],
    }
}

/// Every lane of the state fits in sixteen bits.
pub open spec fn lms_fits16(lms: QoaLmsState) -> bool {
    &&& forall|i: int| 0 <= i < 4 ==> -0x8000 <= #[trigger] lms.history[i] < 0x8000
    &&& forall|i: int| 0 <= i < 4 ==> -0x8000 <= #[trigger] lms.weights[i] < 0x8000
}

proof fn lemma_halves(hi: u32, lo: u32)
    by (bit_vector)
    ensures
        ((hi as u64) << 32 | lo as u64) == hi * 0x1_0000_0000 + lo,
{
}

proof fn lemma_split(w: u64)
    by (bit_vector)
    ensures
        ((w >> 32) as u32) == w / 0x1_0000_0000,
        (w as u32) == w % 0x1_0000_0000,
        ((w >> 56) as u8) == w / 0x100_0000_0000_0000,
        (((w >> 32) & 0xff_ffff) as u32) == w / 0x1_0000_0000 % 0x100_0000,
        ((w >> 48) as u16) == w / 0x1_0000_0000_0000,
        ((w >> 32) as u16) == w / 0x1_0000_0000 % 0x1_0000,
        ((w >> 16) as u16) == w / 0x1_0000 % 0x1_0000,
        (w as u16) == w % 0x1_0000,
{
}

proof fn lemma_bytes4(x: u32)
    by (bit_vector)
    ensures
        ((x >> 24) as u8) == x / 0x100_0000,
        ((x >> 16) as u8) == x / 0x1_0000 % 256,
        ((x >> 8) as u8) == x / 0x100 % 256,
        (x as u8) == x % 256,
{
}

proof fn lemma_frame_fields(channels: u8, rate: u32, samples: u16, size: u16)
    by (bit_vector)
    requires
        rate < 0x100_0000,
    ensures
        ((channels as u64) << 56 | (rate as u64) << 32 | (samples as u64) << 16 | size as u64)
            == channels * 0x100_0000_0000_0000 + rate * 0x1_0000_0000 + samples * 0x1_0000 + size,
{
}

proof fn lemma_lanes(a: u16, b: u16, c: u16, d: u16)
    by (bit_vector)
    ensures
        ((a as u64) << 48 | (b as u64) << 32 | (c as u64) << 16 | (d as u64)) == a
            * 0x1_0000_0000_0000 + b * 0x1_0000_0000 + c * 0x1_0000 + d,
{
}

proof fn lemma_frame_fields_back(channels: u8, rate: u32, samples: u16, size: u16)
    by (bit_vector)
    requires
        rate < 0x100_0000,
    ensures
        ({
            let w = (channels * 0x100_0000_0000_0000 + rate * 0x1_0000_0000 + samples * 0x1_0000
                + size) as u64;
            &&& w == channels * 0x100_0000_0000_0000 + rate * 0x1_0000_0000 + samples * 0x1_0000
                + size
            &&& w / 0x100_0000_0000_0000 == channels
            &&& w / 0x1_0000_0000 % 0x100_0000 == rate
            &&& w / 0x1_0000 % 0x1_0000 == samples
            &&& w % 0x1_0000 == size
        }),
{
}

proof fn lemma_lanes_back(a: u16, b: u16, c: u16, d: u16)
    by (bit_vector)
    ensures
        ({
            let w = (a * 0x1_0000_0000_0000 + b * 0x1_0000_0000 + c * 0x1_0000 + d) as u64;
            &&& w == a * 0x1_0000_0000_0000 + b * 0x1_0000_0000 + c * 0x1_0000 + d
            &&& w / 0x1_0000_0000_0000 == a
            &&& w / 0x1_0000_0000 % 0x1_0000 == b
            &&& w / 0x1_0000 % 0x1_0000 == c
            &&& w % 0x1_0000 == d
        }),
{
}

proof fn lemma_lane_bits(x: i32)
    by (bit_vector)
    ensures
        (x as u16) == x % 0x1_0000,
{
}

proof fn lemma_sign_extend(u: u16)
    by (bit_vector)
    ensures
        (u as i16) == (if u >= 0x8000 { u - 0x1_0000 } else { u as int }),
{
}

/// Builds the file header of a stream of `sample_count` samples per channel.
pub fn pack_file_header(sample_count: u32) -> (word: u64)
    ensures
        word == file_header_word(sample_count),
{
    proof {
        lemma_halves(MAGIC, sample_count);
    }
    (MAGIC as u64) << 32 | sample_count as u64
}

/// The four bytes of `x`, highest first.
pub fn to_be_bytes4(x: u32) -> (bytes: [u8; 4])
    ensures
        bytes@ == be_bytes4(x),
{
    proof {
        lemma_bytes4(x);
    }
    let bytes = [
        #[verifier::truncate]
        ((x >> 24) as u8),
        #[verifier::truncate]
        ((x >> 16) as u8),
        #[verifier::truncate]
        ((x >> 8) as u8),
        #[verifier::truncate]
        (x as u8),
    ];
    assert(bytes@ =~= be_bytes4(x));
    bytes
}

/// Reads a file header: the sample count, or the four bytes that stand where
/// the magic number should.
pub fn unpack_file_header(word: u64) -> (r: Result<u32, [u8; 4]>)
    ensures
        match r {
            Ok(samples) => word_magic(word) == MAGIC && samples == word_samples(word),
            Err(bytes) => word_magic(word) != MAGIC && bytes@ == be_bytes4(word_magic(word)),
        },
{
    proof {
        lemma_split(word);
    }
    let magic = #[verifier::truncate]
    ((word >> 32) as u32);
    if magic != MAGIC {
        return Err(to_be_bytes4(magic));
    }
    Ok(
        #[verifier::truncate]
        (word as u32),
    )
}

/// Builds a frame header.
pub fn pack_frame_header(channels: u8, rate: u32, samples: u16, size: u16) -> (word: u64)
    requires
        rate < 0x100_0000,
    ensures
        word == frame_header_word(channels, rate, samples, size),
{
    proof {
        lemma_frame_fields(channels, rate, samples, size);
    }
    (channels as u64) << 56 | (rate as u64) << 32 | (samples as u64) << 16 | size as u64
}

/// Reads a frame header: channel count, sample rate, samples per channel and
/// frame size.
pub fn unpack_frame_header(word: u64) -> (r: (u8, u32, u16, u16))
    ensures
        r.0 == header_channels(word),
        r.1 == header_rate(word),
        r.2 == header_frame_samples(word),
        r.3 == header_size(word),
{
    proof {
        lemma_split(word);
    }
    let channels = #[verifier::truncate]
    ((word >> 56) as u8);
    let rate = #[verifier::truncate]
    (((word >> 32) & 0xff_ffff) as u32);
    let samples = #[verifier::truncate]
    ((word >> 16) as u16);
    let size = #[verifier::truncate]
    (word as u16);
    (channels, rate, samples, size)
}

/// Computes the size that a frame declares.
pub fn compute_frame_size(channels: u8, slices: u16) -> (size: u16)
    requires
        slices <= 256,
    ensures
        size == frame_size(channels as int, slices as int),
{
    let per_channel: u32 = 24 + 8 * (slices as u32);
    assert(per_channel * channels <= 2072 * 255 && per_channel * channels == 24 * channels + 8
        * slices * channels) by (nonlinear_arith)
        requires
            per_channel == 24 + 8 * slices,
            slices <= 256,
            channels <= 255,
    ;
    let total: u32 = per_channel * (channels as u32);
    (total % 0x1_0000) as u16
}

/// Packs four lanes into one word, keeping the low sixteen bits of each.
pub fn pack_lanes(lanes: &[i32; 4]) -> (word: u64)
    ensures
        word == lanes_word(*lanes),
{
    let a = #[verifier::truncate]
    (lanes[0] as u16);
    let b = #[verifier::truncate]
    (lanes[1] as u16);
    let c = #[verifier::truncate]
    (lanes[2] as u16);
    let d = #[verifier::truncate]
    (lanes[3] as u16);
    proof {
        lemma_lane_bits(lanes[0]);
        lemma_lane_bits(lanes[1]);
        lemma_lane_bits(lanes[2]);
        lemma_lane_bits(lanes[3]);
        lemma_lanes(a, b, c, d);
    }
    (a as u64) << 48 | (b as u64) << 32 | (c as u64) << 16 | d as u64
}

/// Unpacks the four sign-extended lanes of a word.
pub fn unpack_lanes(word: u64) -> (lanes: [i32; 4])
    ensures
        forall|i: int| 0 <= i < 4 ==> lanes[i] == word_lane(word, i),
{
    let a = #[verifier::truncate]
    ((word >> 48) as u16);
    let b = #[verifier::truncate]
    ((word >> 32) as u16);
    let c = #[verifier::truncate]
    ((word >> 16) as u16);
    let d = #[verifier::truncate]
    (word as u16);
    proof {
        lemma_split(word);
        lemma_sign_extend(a);
        lemma_sign_extend(b);
        lemma_sign_extend(c);
        lemma_sign_extend(d);
    }
    [
        #[verifier::truncate]
        (a as i16) as i32,
        #[verifier::truncate]
        (b as i16) as i32,
        #[verifier::truncate]
        (c as i16) as i32,
        #[verifier::truncate]
        (d as i16) as i32,
    ]
}

/// Unpacks the predictor state that two words hold.
pub fn unpack_lms(history: u64, weights: u64) -> (lms: QoaLmsState)
    ensures
        lms == words_lms(history, weights),
{
    let lms = QoaLmsState { history: unpack_lanes(history), weights: unpack_lanes(weights) };
    assert(lms.history =~= words_lms(history, weights).history);
    assert(lms.weights =~= words_lms(history, weights).weights);
    lms
}

/// Reading the file header of a stream of `n` samples gives `n` back.
pub proof fn lemma_file_header_round_trip(n: u32)
    ensures
        word_magic(file_header_word(n)) == MAGIC,
        word_samples(file_header_word(n)) == n,
{
}

/// Reading a frame header gives back the four fields it was built from.
pub proof fn lemma_frame_header_round_trip(channels: u8, rate: u32, samples: u16, size: u16)
    requires
        rate < 0x100_0000,
    ensures
        header_channels(frame_header_word(channels, rate, samples, size)) == channels,
        header_rate(frame_header_word(channels, rate, samples, size)) == rate,
        header_frame_samples(frame_header_word(channels, rate, samples, size)) == samples,
        header_size(frame_header_word(channels, rate, samples, size)) == size,
{
    lemma_frame_fields_back(channels, rate, samples, size);
}

/// Four lanes that fit in sixteen bits each come back from the word they were
/// packed into.
pub proof fn lemma_lanes_round_trip(lanes: [i32; 4])
    requires
        forall|i: int| 0 <= i < 4 ==> -0x8000 <= #[trigger] lanes[i] < 0x8000,
    ensures
        forall|i: int| 0 <= i < 4 ==> word_lane(lanes_word(lanes), i) == lanes[i],
{
    assert(-0x8000 <= lanes[0] < 0x8000);
    assert(-0x8000 <= lanes[1] < 0x8000);
    assert(-0x8000 <= lanes[2] < 0x8000);
    assert(-0x8000 <= lanes[3] < 0x8000);
    lemma_lanes_back(
        lane_bits(lanes[0]) as u16,
        lane_bits(lanes[1]) as u16,
        lane_bits(lanes[2]) as u16,
        lane_bits(lanes[3]) as u16,
    );
}

/// A predictor state whose lanes fit in sixteen bits comes back from the two
/// words it was serialized to.
pub proof fn lemma_lms_round_trip(lms: QoaLmsState)
    requires
        lms_fits16(lms),
    ensures
        words_lms(lanes_word(lms.history), lanes_word(lms.weights)) == lms,
{
    lemma_lanes_round_trip(lms.history);
    lemma_lanes_round_trip(lms.weights);
    let back = words_lms(lanes_word(lms.history), lanes_word(lms.weights));
    assert(back.history =~= lms.history);
    assert(back.weights =~= lms.weights);
}

} // verus!
