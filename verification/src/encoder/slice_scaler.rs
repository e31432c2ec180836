//! The search for the scale factor of a slice.

use vstd::prelude::*;
use crate::lms::QoaLmsState;
use crate::simd::{const_splat, LmsStateVector, SimdLanes};
use crate::slice::{lemma_pack_word_bound, lemma_pow8, lemma_pow8_monotonic, pack_word, pow8};
use crate::tables::{
    clamp, dequantize, div_wide, quantize, spec_dequantize, spec_div, spec_quantize, SLICE_LEN,
};

verus! {

/// The quantized index of `sample` under scale factor number `sf`, for a
/// channel in state `lms`: the residual against the prediction, divided by
/// the scale factor and looked up in the quantization table.
pub open spec fn quantized_of(sample: i16, sf: int, lms: QoaLmsState) -> int {
    spec_quantize(spec_div(sample - lms.spec_predict(), sf))
}

/// The dequantized residual that stands for `sample`.
pub open spec fn dequantized_of(sample: i16, sf: int, lms: QoaLmsState) -> int {
    spec_dequantize(sf, quantized_of(sample, sf, lms))
}

/// The sample that a decoder reconstructs: the prediction and the
/// dequantized residual, limited to sixteen bits.
pub open spec fn reconst_of(sample: i16, sf: int, lms: QoaLmsState) -> int {
    clamp(lms.spec_predict() + dequantized_of(sample, sf, lms), -32768, 32767)
}

/// The state of the channel after `sample` was encoded.
pub open spec fn lms_after(sample: i16, sf: int, lms: QoaLmsState) -> QoaLmsState {
    lms.spec_update(
        reconst_of(sample, sf, lms) as i32,
        dequantized_of(sample, sf, lms) as i32,
    )
}

/// One attempt at a slice: the squared error it makes, the quantized
/// residuals it consists of and the predictor state it ends in.
pub ghost struct Candidate {
    pub error: int,
    pub resid: Seq<u8>,
    pub lms: QoaLmsState,
}

/// The attempt at encoding `window` with scale factor number `sf`, starting
/// from state `lms`.
pub open spec fn run_candidate(window: Seq<i16>, sf: int, lms: QoaLmsState) -> Candidate
    decreases window.len(),
{
    if window.len() == 0 {
        Candidate { error: 0, resid: Seq::empty(), lms }
    } else {
        let before = run_candidate(window.drop_last(), sf, lms);
        let sample = window.last();
        let diff = sample - reconst_of(sample, sf, before.lms);
        Candidate {
            error: before.error + diff * diff,
            resid: before.resid.push(quantized_of(sample, sf, before.lms) as u8),
            lms: lms_after(sample, sf, before.lms),
        }
    }
}

/// The best of the first `n` scale factors: the one of least error, and of
/// those the lowest.
pub open spec fn best_sf(window: Seq<i16>, lms: QoaLmsState, n: nat) -> int
    decreases n,
{
    if n <= 1 {
        0
    } else {
        let best = best_sf(window, lms, (n - 1) as nat);
        if run_candidate(window, n - 1, lms).error < run_candidate(window, best, lms).error {
            n - 1
        } else {
            best
        }
    }
}

/// The samples of channel `chn` in a block of interleaved samples, the first
/// twenty at most.
pub open spec fn window_of(samples: Seq<i16>, chn: int, channels: int) -> Seq<i16> {
    let len = if samples.len() / (channels as nat) < 20 {
        samples.len() / (channels as nat)
    } else {
        20
    };
    Seq::new(len, |i: int| samples[chn + i * channels])
}

/// The word of the slice that `window` is encoded to from state `lms`: the
/// best scale factor and its residuals, with zero residuals after them where
/// the window is shorter than twenty samples.
pub open spec fn slice_word(window: Seq<i16>, lms: QoaLmsState) -> u64 {
    let sf = best_sf(window, lms, 16);
    (pack_word(sf, run_candidate(window, sf, lms).resid) * pow8((20 - window.len()) as nat)) as u64
}

/// The state of the channel after `window` was encoded.
pub open spec fn slice_lms(window: Seq<i16>, lms: QoaLmsState) -> QoaLmsState {
    run_candidate(window, best_sf(window, lms, 16), lms).lms
}

/// An attempt holds one residual below 8 for each sample, and its error is
/// at most the square of the sample range for each of them.
pub proof fn lemma_candidate_shape(window: Seq<i16>, sf: int, lms: QoaLmsState)
    requires
        0 <= sf < 16,
    ensures
        run_candidate(window, sf, lms).resid.len() == window.len(),
        forall|i: int|
            0 <= i < window.len() ==> #[trigger] run_candidate(window, sf, lms).resid[i] < 8,
        0 <= run_candidate(window, sf, lms).error <= window.len() * 0xffff_0001,
    decreases window.len(),
{
    if window.len() > 0 {
        lemma_candidate_shape(window.drop_last(), sf, lms);
        let before = run_candidate(window.drop_last(), sf, lms);
        let sample = window.last();
        let diff = sample - reconst_of(sample, sf, before.lms);
        assert(0 <= diff * diff <= 0xffff_0001) by (nonlinear_arith)
            requires
                -65535 <= diff <= 65535,
        ;
    }
}

/// The best scale factor makes the least error, and no lower one makes the
/// same.
pub proof fn lemma_best_sf_minimal(window: Seq<i16>, lms: QoaLmsState, n: nat)
    requires
        1 <= n,
    ensures
        0 <= best_sf(window, lms, n) < n,
        forall|k: int|
            0 <= k < n ==> run_candidate(window, best_sf(window, lms, n), lms).error
                <= #[trigger] run_candidate(window, k, lms).error,
        forall|k: int|
            0 <= k < best_sf(window, lms, n) ==> run_candidate(
                window,
                best_sf(window, lms, n),
                lms,
            ).error < #[trigger] run_candidate(window, k, lms).error,
    decreases n,
{
    if n > 1 {
        lemma_best_sf_minimal(window, lms, (n - 1) as nat);
    }
}

/// Where the window is shorter than twenty samples, the bits of the missing
/// residuals are zero.
pub proof fn lemma_short_slice_padding(window: Seq<i16>, lms: QoaLmsState)
    requires
        window.len() <= 20,
    ensures
        slice_word(window, lms) as int == pack_word(
            best_sf(window, lms, 16),
            run_candidate(window, best_sf(window, lms, 16), lms).resid,
        ) * pow8((20 - window.len()) as nat),
        slice_word(window, lms) as int % pow8((20 - window.len()) as nat) == 0,
{
    let sf = best_sf(window, lms, 16);
    lemma_best_sf_minimal(window, lms, 16);
    lemma_candidate_shape(window, sf, lms);
    let resid = run_candidate(window, sf, lms).resid;
    let pad = (20 - window.len()) as nat;
    lemma_pack_word_bound(sf, resid);
    lemma_shifted_fits(pack_word(sf, resid), window.len(), pad);
    lemma_pow8(pad);
    vstd::arithmetic::div_mod::lemma_mod_multiples_basic(pack_word(sf, resid), pow8(pad));
}

/// A packed word of `n` residuals, moved up by `pad` digits, fits in 64 bits
/// when `n + pad` is 20.
proof fn lemma_shifted_fits(word: int, n: nat, pad: nat)
    requires
        0 <= word < 16 * pow8(n),
        n + pad == 20,
    ensures
        0 <= word * pow8(pad) < 0x1_0000_0000_0000_0000,
{
    lemma_pow8_product(n, pad);
    lemma_pow8(20);
    lemma_pow8(pad);
    assert(0 <= word * pow8(pad) < 16 * (pow8(n) * pow8(pad))) by (nonlinear_arith)
        requires
            0 <= word < 16 * pow8(n),
            pow8(pad) > 0,
    ;
}

/// `8^a * 8^b` is `8^(a + b)`.
proof fn lemma_pow8_product(a: nat, b: nat)
    ensures
        pow8(a) * pow8(b) == pow8(a + b),
    decreases b,
{
    if b == 0 {
        assert(pow8(a) * 1 == pow8(a));
    } else {
        lemma_pow8_product(a, (b - 1) as nat);
        lemma_pow8((b - 1) as nat);
        lemma_pow8((a + b - 1) as nat);
        assert(pow8(a) * (8 * pow8((b - 1) as nat)) == 8 * (pow8(a) * pow8((b - 1) as nat)))
            by (nonlinear_arith);
    }
}

/// How a slice is scaled: from the samples of one channel in a block of
/// interleaved samples to the word of the slice.
pub trait SliceScaler {
    /// Encodes the first twenty samples at most of channel `chn` and leaves
    /// in `lms` the state that the channel ends in.
    fn scale(samples: &[i16], lms: &mut QoaLmsState, chn: usize, channel_count: usize) -> (word:
        u64)
        requires
            chn < channel_count,
        ensures
            word == slice_word(window_of(samples@, chn as int, channel_count as int), *old(lms)),
            *final(lms) == slice_lms(
                window_of(samples@, chn as int, channel_count as int),
                *old(lms),
            ),
    ;
}

/// The scaler that tries the sixteen scale factors one after the other.
pub struct LinearScaler;

/// The number of samples of each channel that a slice takes from a block of
/// `total` interleaved samples.
pub fn window_len(total: usize, channel_count: usize) -> (len: usize)
    requires
        channel_count > 0,
    ensures
        len == if total / channel_count < 20 { total / channel_count } else { 20 },
        len * channel_count <= total,
        len <= 20,
{
    let per_channel = total / channel_count;
    let len = if per_channel < SLICE_LEN { per_channel } else { SLICE_LEN };
    assert(len * channel_count <= total) by (nonlinear_arith)
        requires
            len <= total / channel_count,
            channel_count > 0,
    {
        vstd::arithmetic::div_mod::lemma_fundamental_div_mod(total as int, channel_count as int);
        assert(len * channel_count <= (total / channel_count) * channel_count);
    }
    len
}

/// The place of sample `i` of channel `chn` in a block of interleaved samples.
pub fn sample_index(i: usize, chn: usize, channel_count: usize, len: usize, total: usize) -> (at:
    usize)
    requires
        i < len,
        chn < channel_count,
        len * channel_count <= total,
    ensures
        at == chn + i * channel_count,
        at < total,
{
    assert(chn + i * channel_count < len * channel_count && 0 <= i * channel_count) by (nonlinear_arith)
        requires
            i < len,
            chn < channel_count,
    ;
    chn + i * channel_count
}

impl LinearScaler {
    /// Quantizes `sample` under scale factor number `sf` and advances the
    /// predictor: returns the quantized index, the dequantized residual and
    /// the reconstructed sample.
    pub fn scale_sample(sample: i16, sf: usize, lms: &mut QoaLmsState) -> (r: (u8, i32, i16))
        requires
            sf < 16,
        ensures
            r.0 == quantized_of(sample, sf as int, *old(lms)),
            r.1 == dequantized_of(sample, sf as int, *old(lms)),
            r.2 == reconst_of(sample, sf as int, *old(lms)),
            *final(lms) == lms_after(sample, sf as int, *old(lms)),
            r.0 < 8,
    {
        let predicted = lms.predict();
        let residual: i64 = sample as i64 - predicted as i64;
        let scaled = div_wide(residual, sf);
        let quantized = quantize(scaled);
        let dequantized = dequantize(sf, quantized);
        let sum: i64 = predicted as i64 + dequantized as i64;
        let reconst: i16 = if sum < -32768 {
            -32768
        } else if sum > 32767 {
            32767
        } else {
            sum as i16
        };
        lms.update(reconst, dequantized);
        (quantized, dequantized, reconst)
    }

    /// Encodes the window under one scale factor: returns the error, the
    /// packed residuals and the state the channel ends in.
    fn attempt(
        samples: &[i16],
        lms: &QoaLmsState,
        chn: usize,
        channel_count: usize,
        len: usize,
        sf: usize,
    ) -> (r: (u64, u64, QoaLmsState))
        requires
            chn < channel_count,
            sf < 16,
            len == window_of(samples@, chn as int, channel_count as int).len(),
            len * channel_count <= samples.len(),
        ensures
            ({
                let c = run_candidate(
                    window_of(samples@, chn as int, channel_count as int),
                    sf as int,
                    *lms,
                );
                &&& r.0 == c.error
                &&& r.1 == pack_word(sf as int, c.resid)
                &&& r.2 == c.lms
            }),
    {
        let ghost window = window_of(samples@, chn as int, channel_count as int);
        let mut state = *lms;
        let mut word: u64 = sf as u64;
        let mut error: u64 = 0;
        let mut i: usize = 0;
        assert(window.take(0) =~= Seq::<i16>::empty());
        while i < len
            invariant
                i <= len <= 20,
                chn < channel_count,
                sf < 16,
                len == window.len(),
                len * channel_count <= samples.len(),
                window == window_of(samples@, chn as int, channel_count as int),
                error == run_candidate(window.take(i as int), sf as int, *lms).error,
                word == pack_word(
                    sf as int,
                    run_candidate(window.take(i as int), sf as int, *lms).resid,
                ),
                state == run_candidate(window.take(i as int), sf as int, *lms).lms,
            decreases len - i,
        {
            let at = sample_index(i, chn, channel_count, len, samples.len());
            let sample = samples[at];
            proof {
                let cur = window.take(i as int);
                let next = window.take(i + 1);
                assert(next.drop_last() =~= cur);
                assert(next.last() == sample);
                lemma_candidate_shape(cur, sf as int, *lms);
                lemma_candidate_shape(next, sf as int, *lms);
                lemma_pack_word_bound(sf as int, run_candidate(cur, sf as int, *lms).resid);
                lemma_pow8_monotonic(i as nat, 19);
                lemma_pow8(19);
                lemma_pow8(20);
            }
            let (quantized, _, reconst) = Self::scale_sample(sample, sf, &mut state);
            proof {
                let before = run_candidate(window.take(i as int), sf as int, *lms).resid;
                let after = run_candidate(window.take(i + 1), sf as int, *lms).resid;
                assert(after.drop_last() =~= before);
                assert(after.last() == quantized);
                crate::slice::lemma_octal_step(word, quantized);
            }
            word = word << 3 | quantized as u64;
            let diff: i64 = sample as i64 - reconst as i64;
            assert(0 <= diff * diff <= 0xffff_0001) by (nonlinear_arith)
                requires
                    -65535 <= diff <= 65535,
            ;
            error = error + (diff * diff) as u64;
            i += 1;
        }
        assert(window.take(len as int) =~= window);
        (error, word, state)
    }
}

impl SliceScaler for LinearScaler {
    fn scale(samples: &[i16], lms: &mut QoaLmsState, chn: usize, channel_count: usize) -> (word:
        u64)
    {
        let len = window_len(samples.len(), channel_count);
        let ghost window = window_of(samples@, chn as int, channel_count as int);
        let start = *lms;
        let (mut best_error, mut best_word, mut best_lms) = Self::attempt(
            samples,
            &start,
            chn,
            channel_count,
            len,
            0,
        );
        let ghost mut best: int = 0;
        let mut sf: usize = 1;
        while sf < 16
            invariant
                1 <= sf <= 16,
                chn < channel_count,
                len == window.len(),
                len * channel_count <= samples.len(),
                window == window_of(samples@, chn as int, channel_count as int),
                best == best_sf(window, start, sf as nat),
                0 <= best < sf,
                best_error == run_candidate(window, best, start).error,
                best_word == pack_word(best, run_candidate(window, best, start).resid),
                best_lms == run_candidate(window, best, start).lms,
            decreases 16 - sf,
        {
            let (error, word, state) = Self::attempt(samples, &start, chn, channel_count, len, sf);
            if error < best_error {
                best_error = error;
                best_word = word;
                best_lms = state;
                proof {
                    best = sf as int;
                }
            }
            sf += 1;
        }
        *lms = best_lms;
        proof {
            lemma_candidate_shape(window, best, start);
            lemma_pack_word_bound(best, run_candidate(window, best, start).resid);
            lemma_shifted_fits(best_word as int, len as nat, (20 - len) as nat);
            crate::slice::lemma_shl_octal(best_word, (20 - len) as nat);
        }
        best_word << ((SLICE_LEN - len) * 3)
    }
}

/// The scaler that tries the sixteen scale factors side by side, one lane for
/// each, and then picks the lane of least error.
pub struct VectorScaler;

/// Lane `sf` of the three vectors holds what `sample` quantizes to under
/// scale factor number `sf` from the state of that lane.
pub open spec fn lane_scaled(
    quantized: [i32; 16],
    dequantized: [i32; 16],
    reconst: [i32; 16],
    sample: i16,
    lms: LmsStateVector,
    sf: int,
) -> bool {
    &&& quantized[sf] == quantized_of(sample, sf, lms.lane(sf))
    &&& dequantized[sf] == dequantized_of(sample, sf, lms.lane(sf))
    &&& reconst[sf] == reconst_of(sample, sf, lms.lane(sf))
}

/// Lane `sf` of the error and word vectors holds the attempt at `window`
/// with scale factor number `sf`.
pub open spec fn lane_tracks(
    errors: [u64; 16],
    words: [u64; 16],
    window: Seq<i16>,
    start: QoaLmsState,
    sf: int,
) -> bool {
    &&& errors[sf] == run_candidate(window, sf, start).error
    &&& words[sf] == pack_word(sf, run_candidate(window, sf, start).resid)
}

/// Lane `sf` of the state vector holds the state that the attempt at
/// `window` with scale factor number `sf` ends in.
pub open spec fn lane_state(
    lms: LmsStateVector,
    window: Seq<i16>,
    start: QoaLmsState,
    sf: int,
) -> bool {
    lms.lane(sf) == run_candidate(window, sf, start).lms
}

/// What one more sample adds to an attempt.
proof fn lemma_candidate_step(window: Seq<i16>, sample: i16, sf: int, lms: QoaLmsState)
    requires
        0 <= sf < 16,
        window.len() < 20,
    ensures
        ({
            let before = run_candidate(window, sf, lms);
            let after = run_candidate(window.push(sample), sf, lms);
            let diff = sample - reconst_of(sample, sf, before.lms);
            let q = quantized_of(sample, sf, before.lms);
            &&& after.error == before.error + diff * diff
            &&& after.lms == lms_after(sample, sf, before.lms)
            &&& 0 <= q < 8
            &&& 0 <= diff * diff <= 0xffff_0001
            &&& 0 <= before.error <= 19 * 0xffff_0001
            &&& 0 <= pack_word(sf, before.resid) < 0x2000_0000_0000_0000
            &&& pack_word(sf, after.resid) == pack_word(sf, before.resid) * 8 + q
        }),
{
    let before = run_candidate(window, sf, lms);
    let after = run_candidate(window.push(sample), sf, lms);
    let diff = sample - reconst_of(sample, sf, before.lms);
    assert(window.push(sample).drop_last() =~= window);
    assert(after.resid.drop_last() =~= before.resid);
    lemma_candidate_shape(window, sf, lms);
    lemma_pack_word_bound(sf, before.resid);
    lemma_pow8_monotonic(window.len(), 19);
    lemma_pow8(19);
    lemma_pow8(20);
    assert(0 <= diff * diff <= 0xffff_0001) by (nonlinear_arith)
        requires
            -65535 <= diff <= 65535,
    ;
}

/// The first lane of least error is the best scale factor.
proof fn lemma_min_lane_is_best(window: Seq<i16>, lms: QoaLmsState, lane: int)
    requires
        0 <= lane < 16,
        forall|k: int|
            0 <= k < 16 ==> run_candidate(window, lane, lms).error <= #[trigger] run_candidate(
                window,
                k,
                lms,
            ).error,
        forall|k: int|
            0 <= k < lane ==> run_candidate(window, lane, lms).error < #[trigger] run_candidate(
                window,
                k,
                lms,
            ).error,
    ensures
        lane == best_sf(window, lms, 16),
{
    lemma_best_sf_minimal(window, lms, 16);
    let best = best_sf(window, lms, 16);
    let e_lane = run_candidate(window, lane, lms).error;
    let e_best = run_candidate(window, best, lms).error;
    assert(e_lane <= e_best);
    assert(e_best <= e_lane);
}

impl VectorScaler {
    /// Quantizes `sample` in each lane under the scale factor of that lane:
    /// returns the quantized indices, the dequantized residuals and the
    /// reconstructed samples.
    pub fn scale_sample(sample: [i32; 16], lms: &LmsStateVector) -> (r: (
        [i32; 16],
        [i32; 16],
        [i32; 16],
    ))
        requires
            -32768 <= sample[0] <= 32767,
            forall|sf: int| 0 <= sf < 16 ==> #[trigger] sample[sf] == sample[0],
        ensures
            forall|sf: int|
                0 <= sf < 16 ==> #[trigger] lane_scaled(r.0, r.1, r.2, sample[0] as i16, *lms, sf),
            forall|sf: int| 0 <= sf < 16 ==> -32768 <= #[trigger] r.2[sf] <= 32767,
            forall|sf: int| 0 <= sf < 16 ==> 0 <= #[trigger] r.0[sf] < 8,
    {
        let prediction = lms.predict();
        let mut residual: [i64; 16] = [0, 0, 0, 0, 0, 0, 0, 0, 0, 0, 0, 0, 0, 0, 0, 0];
        let mut sf: usize = 0;
        while sf < 16
            invariant
                sf <= 16,
                -32768 <= sample[0] <= 32767,
                forall|i: int| 0 <= i < 16 ==> #[trigger] sample[i] == sample[0],
                forall|i: int| 0 <= i < sf ==> #[trigger] residual[i] == sample[0] - prediction[i],
                forall|i: int| sf <= i < 16 ==> #[trigger] residual[i] == 0,
            decreases 16 - sf,
        {
            residual[sf] = sample[sf] as i64 - prediction[sf] as i64;
            sf += 1;
        }
        let scaled = crate::simd::div_wide(residual);
        let mut quantized = const_splat(0);
        let mut dequantized = const_splat(0);
        let mut reconst = const_splat(0);
        sf = 0;
        while sf < 16
            invariant
                sf <= 16,
                -32768 <= sample[0] <= 32767,
                forall|i: int| 0 <= i < 16 ==> #[trigger] prediction[i] == lms.lane(i).spec_predict(),
                forall|i: int| 0 <= i < 16 ==> #[trigger] residual[i] == sample[0] - prediction[i],
                forall|i: int| 0 <= i < 16 ==> #[trigger] scaled[i] == spec_div(residual[i] as int, i),
                forall|i: int|
                    0 <= i < sf ==> #[trigger] lane_scaled(
                        quantized,
                        dequantized,
                        reconst,
                        sample[0] as i16,
                        *lms,
                        i,
                    ),
                forall|i: int| 0 <= i < sf ==> -32768 <= #[trigger] reconst[i] <= 32767,
                forall|i: int| 0 <= i < sf ==> 0 <= #[trigger] quantized[i] < 8,
            decreases 16 - sf,
        {
            let ghost q0 = quantized;
            let ghost d0 = dequantized;
            let ghost r0 = reconst;
            assert(residual[sf as int] == sample[0] - prediction[sf as int]);
            assert(scaled[sf as int] == spec_div(residual[sf as int] as int, sf as int));
            assert(prediction[sf as int] == lms.lane(sf as int).spec_predict());
            let q = quantize(scaled[sf]);
            let dq = dequantize(sf, q);
            let sum: i64 = prediction[sf] as i64 + dq as i64;
            quantized[sf] = q as i32;
            dequantized[sf] = dq;
            reconst[sf] = if sum < -32768 {
                -32768
            } else if sum > 32767 {
                32767
            } else {
                sum as i32
            };
            assert forall|i: int| 0 <= i < sf + 1 implies #[trigger] lane_scaled(
                quantized,
                dequantized,
                reconst,
                sample[0] as i16,
                *lms,
                i,
            ) by {
                if i < sf {
                    assert(lane_scaled(q0, d0, r0, sample[0] as i16, *lms, i));
                }
            }
            sf += 1;
        }
        (quantized, dequantized, reconst)
    }
}

impl VectorScaler {
    /// Adds to each lane the squared error of its reconstructed sample and
    /// appends its quantized index to its word.
    fn accumulate(
        errors: &mut [u64; 16],
        words: &mut [u64; 16],
        value: i16,
        quantized: &[i32; 16],
        reconst: &[i32; 16],
    )
        requires
            forall|k: int| 0 <= k < 16 ==> #[trigger] old(errors)[k] <= 19 * 0xffff_0001,
            forall|k: int| 0 <= k < 16 ==> #[trigger] old(words)[k] < 0x2000_0000_0000_0000,
            forall|k: int| 0 <= k < 16 ==> 0 <= #[trigger] quantized[k] < 8,
            forall|k: int| 0 <= k < 16 ==> -32768 <= #[trigger] reconst[k] <= 32767,
        ensures
            forall|k: int|
                0 <= k < 16 ==> #[trigger] final(errors)[k] == old(errors)[k] + (value - reconst[k])
                    * (value - reconst[k]),
            forall|k: int|
                0 <= k < 16 ==> #[trigger] final(words)[k] == old(words)[k] * 8 + quantized[k],
    {
        let mut sf: usize = 0;
        while sf < 16
            invariant
                sf <= 16,
                forall|k: int| 0 <= k < 16 ==> #[trigger] old(errors)[k] <= 19 * 0xffff_0001,
                forall|k: int| 0 <= k < 16 ==> #[trigger] old(words)[k] < 0x2000_0000_0000_0000,
                forall|k: int| 0 <= k < 16 ==> 0 <= #[trigger] quantized[k] < 8,
                forall|k: int| 0 <= k < 16 ==> -32768 <= #[trigger] reconst[k] <= 32767,
                forall|k: int|
                    0 <= k < sf ==> #[trigger] errors[k] == old(errors)[k] + (value - reconst[k])
                        * (value - reconst[k]),
                forall|k: int| 0 <= k < sf ==> #[trigger] words[k] == old(words)[k] * 8 + quantized[k],
                forall|k: int| sf <= k < 16 ==> #[trigger] errors[k] == old(errors)[k],
                forall|k: int| sf <= k < 16 ==> #[trigger] words[k] == old(words)[k],
            decreases 16 - sf,
        {
            assert(old(errors)[sf as int] <= 19 * 0xffff_0001);
            assert(old(words)[sf as int] < 0x2000_0000_0000_0000);
            assert(0 <= quantized[sf as int] < 8);
            assert(-32768 <= reconst[sf as int] <= 32767);
            let diff: i64 = value as i64 - reconst[sf] as i64;
            assert(0 <= diff * diff <= 0xffff_0001) by (nonlinear_arith)
                requires
                    -65535 <= diff <= 65535,
            ;
            proof {
                crate::slice::lemma_octal_step(words[sf as int], quantized[sf as int] as u8);
            }
            errors[sf] = errors[sf] + (diff * diff) as u64;
            words[sf] = words[sf] << 3 | quantized[sf] as u64;
            sf += 1;
        }
    }
}

impl SliceScaler for VectorScaler {
    fn scale(samples: &[i16], lms: &mut QoaLmsState, chn: usize, channel_count: usize) -> (word:
        u64)
    {
        let len = window_len(samples.len(), channel_count);
        let ghost window = window_of(samples@, chn as int, channel_count as int);
        let ghost start = *lms;
        let mut lms_vec = LmsStateVector::from(*lms);
        let mut cur_err: [u64; 16] = [0, 0, 0, 0, 0, 0, 0, 0, 0, 0, 0, 0, 0, 0, 0, 0];
        let mut slice: [u64; 16] = [0, 1, 2, 3, 4, 5, 6, 7, 8, 9, 10, 11, 12, 13, 14, 15];
        proof {
            assert(window.take(0) =~= Seq::<i16>::empty());
            assert forall|sf: int| 0 <= sf < 16 implies #[trigger] lane_state(
                lms_vec,
                window.take(0),
                start,
                sf,
            ) by {
                assert(lms_vec.0[sf] == LmsStateVector::splat(start).0[sf]);
            }
            assert forall|sf: int| 0 <= sf < 16 implies #[trigger] lane_tracks(
                cur_err,
                slice,
                window.take(0),
                start,
                sf,
            ) by {
                assert(cur_err[sf] == 0);
                assert(slice[sf] == sf);
            }
        }
        let mut i: usize = 0;
        while i < len
            invariant
                i <= len <= 20,
                chn < channel_count,
                len == window.len(),
                len * channel_count <= samples.len(),
                window == window_of(samples@, chn as int, channel_count as int),
                forall|sf: int|
                    0 <= sf < 16 ==> #[trigger] lane_state(lms_vec, window.take(i as int), start, sf),
                forall|sf: int|
                    0 <= sf < 16 ==> #[trigger] lane_tracks(
                        cur_err,
                        slice,
                        window.take(i as int),
                        start,
                        sf,
                    ),
            decreases len - i,
        {
            let at = sample_index(i, chn, channel_count, len, samples.len());
            let value = samples[at];
            let sample = const_splat(value as i32);
            let (quantized, dequantized, reconst) = Self::scale_sample(sample, &lms_vec);
            let ghost before = lms_vec;
            let ghost e0 = cur_err;
            let ghost s0 = slice;
            let ghost cur = window.take(i as int);
            let ghost next = window.take(i + 1);
            proof {
                assert(next =~= cur.push(value));
                assert(sample[0] as i16 == value);
                assert forall|k: int| 0 <= k < 16 implies #[trigger] cur_err[k] <= 19 * 0xffff_0001 by {
                    assert(lane_tracks(cur_err, slice, cur, start, k));
                    lemma_candidate_step(cur, value, k, start);
                }
                assert forall|k: int| 0 <= k < 16 implies #[trigger] slice[k]
                    < 0x2000_0000_0000_0000 by {
                    assert(lane_tracks(cur_err, slice, cur, start, k));
                    lemma_candidate_step(cur, value, k, start);
                }
            }
            Self::accumulate(&mut cur_err, &mut slice, value, &quantized, &reconst);
            lms_vec.update(reconst, dequantized);
            proof {
                assert forall|k: int| 0 <= k < 16 implies #[trigger] lane_state(
                    lms_vec,
                    next,
                    start,
                    k,
                ) by {
                    assert(lane_scaled(quantized, dequantized, reconst, value, before, k));
                    assert(lane_state(before, cur, start, k));
                    lemma_candidate_step(cur, value, k, start);
                }
                assert forall|k: int| 0 <= k < 16 implies #[trigger] lane_tracks(
                    cur_err,
                    slice,
                    next,
                    start,
                    k,
                ) by {
                    assert(lane_scaled(quantized, dequantized, reconst, value, before, k));
                    assert(lane_state(before, cur, start, k));
                    assert(lane_tracks(e0, s0, cur, start, k));
                    lemma_candidate_step(cur, value, k, start);
                    assert(cur_err[k] == e0[k] + (value - reconst[k]) * (value - reconst[k]));
                    assert(slice[k] == s0[k] * 8 + quantized[k]);
                }
            }
            i += 1;
        }
        assert(window.take(len as int) =~= window);
        let best = cur_err.min_lane();
        proof {
            let values = cur_err.lane_values();
            assert forall|k: int| 0 <= k < 16 implies run_candidate(window, best as int, start).error
                <= #[trigger] run_candidate(window, k, start).error by {
                assert(lane_tracks(cur_err, slice, window, start, k));
                assert(lane_tracks(cur_err, slice, window, start, best as int));
                assert(<[u64; 16] as SimdLanes<u64>>::lane_le(values[best as int], values[k]));
            }
            assert forall|k: int| 0 <= k < best implies run_candidate(
                window,
                best as int,
                start,
            ).error < #[trigger] run_candidate(window, k, start).error by {
                assert(lane_tracks(cur_err, slice, window, start, k));
                assert(lane_tracks(cur_err, slice, window, start, best as int));
                assert(!<[u64; 16] as SimdLanes<u64>>::lane_le(values[k], values[best as int]));
            }
            lemma_min_lane_is_best(window, start, best as int);
            assert(lane_tracks(cur_err, slice, window, start, best as int));
            assert(lane_state(lms_vec, window, start, best as int));
            lemma_candidate_shape(window, best as int, start);
            lemma_pack_word_bound(best as int, run_candidate(window, best as int, start).resid);
            lemma_shifted_fits(slice[best as int] as int, len as nat, (20 - len) as nat);
            crate::slice::lemma_shl_octal(slice[best as int], (20 - len) as nat);
        }
        *lms = lms_vec.collapse(best);
        slice[best] << ((SLICE_LEN - len) * 3)
    }
}

} // verus!
