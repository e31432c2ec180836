//! What holds between the encoder and the decoder.

use vstd::prelude::*;
use crate::decoder::{decode_slice, lms_after_sample, reconstructed};
use crate::encoder::slice_scaler::{
    best_sf, lemma_best_sf_minimal, lemma_candidate_shape, lemma_short_slice_padding, lms_after,
    quantized_of, reconst_of, run_candidate, slice_lms, slice_word, window_of,
};
use crate::encoder::{
    drain, frame_begun, frame_head, lemma_drain_begin, lemma_drain_in_portions, lemma_drain_leaves,
    lemma_drain_row, lemma_drain_stalled, lemma_row_takes, lms_resized, next_frame_samples,
    next_row_len, portion, portions_taken, row_words, row_written, shortfall, silence, stalled,
    total, with_more, EncoderState, Framing,
};
use crate::decoder::bytes::{
    decode_from, decode_stream, lemma_interleaved_index, lemma_interleaved_place,
};
use crate::io::{bytes_of_words, lemma_words_round_trip, words_of_bytes};
use crate::layout::{
    file_header_word, lemma_file_header_round_trip, word_magic, word_samples,
};
use crate::tables::MAGIC;
use crate::decoder::{
    frame_interleaved, frame_lms, frame_plane, frame_rows, frame_samples, frame_words,
    lemma_decode_channel_len, lemma_stream_unfold, rows_samples, samples_left, stream_plane,
    stream_rest,
};
use crate::layout::{
    header_channels, header_frame_samples, header_rate, lemma_frame_header_round_trip,
};
use crate::layout::{frame_header_word, frame_size, slices_for};
use crate::lms::QoaLmsState;
use crate::slice::{
    lemma_pack_word_digits, lemma_pack_word_pad, pack_word, pow8, word_quant, word_resid,
};

verus! {

/// The samples that a decoder reconstructs from the attempt at `window` with
/// scale factor number `sf`: those that the encoder reckoned with.
pub open spec fn reconstruction(window: Seq<i16>, sf: int, lms: QoaLmsState) -> Seq<i16>
    decreases window.len(),
{
    if window.len() == 0 {
        Seq::empty()
    } else {
        let before = run_candidate(window.drop_last(), sf, lms);
        reconstruction(window.drop_last(), sf, lms).push(
            reconst_of(window.last(), sf, before.lms) as i16,
        )
    }
}

/// The residuals of an attempt at the first samples of a window are the
/// first residuals of the attempt at the whole window.
pub proof fn lemma_candidate_prefix(window: Seq<i16>, sf: int, lms: QoaLmsState, k: int)
    requires
        0 <= sf < 16,
        0 <= k <= window.len(),
    ensures
        run_candidate(window.take(k), sf, lms).resid == run_candidate(window, sf, lms).resid.take(
            k,
        ),
        reconstruction(window.take(k), sf, lms) == reconstruction(window, sf, lms).take(k),
        reconstruction(window, sf, lms).len() == window.len(),
    decreases window.len(),
{
    lemma_candidate_shape(window, sf, lms);
    if window.len() == 0 {
        assert(window.take(k) =~= window);
        assert(run_candidate(window, sf, lms).resid.take(k) =~= run_candidate(
            window,
            sf,
            lms,
        ).resid);
        assert(reconstruction(window, sf, lms).take(k) =~= reconstruction(window, sf, lms));
    } else {
        let init = window.drop_last();
        lemma_candidate_shape(init, sf, lms);
        lemma_candidate_prefix(init, sf, lms, init.len() as int);
        if k == window.len() {
            assert(window.take(k) =~= window);
            assert(run_candidate(window, sf, lms).resid.take(k) =~= run_candidate(
                window,
                sf,
                lms,
            ).resid);
            assert(reconstruction(window, sf, lms).take(k) =~= reconstruction(window, sf, lms));
        } else {
            lemma_candidate_prefix(init, sf, lms, k);
            assert(window.take(k) =~= init.take(k));
            assert(run_candidate(window, sf, lms).resid.take(k) =~= run_candidate(
                init,
                sf,
                lms,
            ).resid.take(k));
            assert(reconstruction(window, sf, lms).take(k) =~= reconstruction(init, sf, lms).take(
                k,
            ));
        }
    }
}

/// Residual `i` of the word is the quantized index that the attempt at the
/// window made of sample `i`.
pub open spec fn residual_agrees(
    word: u64,
    window: Seq<i16>,
    sf: int,
    lms: QoaLmsState,
    i: int,
) -> bool {
    word_resid(word, i) == quantized_of(window[i], sf, run_candidate(window.take(i), sf, lms).lms)
}

/// Residual `i` of an attempt is the quantized index of sample `i` in the
/// state that the samples before it left.
proof fn lemma_candidate_residual(window: Seq<i16>, sf: int, lms: QoaLmsState, i: int)
    requires
        0 <= sf < 16,
        0 <= i < window.len(),
    ensures
        run_candidate(window, sf, lms).resid[i] == quantized_of(
            window[i],
            sf,
            run_candidate(window.take(i), sf, lms).lms,
        ),
{
    let longer = window.take(i + 1);
    lemma_candidate_prefix(window, sf, lms, i + 1);
    lemma_candidate_shape(longer, sf, lms);
    lemma_candidate_shape(window, sf, lms);
    assert(longer.drop_last() =~= window.take(i));
    assert(longer.last() == window[i]);
    let part = run_candidate(longer, sf, lms).resid;
    assert(part == run_candidate(window, sf, lms).resid.take(i + 1));
    assert(part[i] == run_candidate(window, sf, lms).resid[i]);
    assert(part.last() == part[i]);
}

/// What a decoder makes of the quantized index of a sample is what the
/// encoder reckoned with.
proof fn lemma_step_agrees(sample: i16, sf: int, lms: QoaLmsState, q: int)
    requires
        q == quantized_of(sample, sf, lms),
    ensures
        reconstructed(lms, sf, q) == reconst_of(sample, sf, lms),
        lms_after_sample(lms, sf, q) == lms_after(sample, sf, lms),
{
}

/// A decoder that reads the residuals of an attempt, in the state that the
/// encoder made the attempt from, reconstructs the samples that the encoder
/// reckoned with and ends in the state that the encoder ended in.
proof fn lemma_attempt_decodes(word: u64, window: Seq<i16>, sf: int, lms: QoaLmsState, k: nat)
    requires
        k <= window.len(),
        word_quant(word) == sf,
        forall|i: int| 0 <= i < window.len() ==> #[trigger] residual_agrees(word, window, sf, lms, i),
    ensures
        decode_slice(word, lms, k).samples == reconstruction(window.take(k as int), sf, lms),
        decode_slice(word, lms, k).lms == run_candidate(window.take(k as int), sf, lms).lms,
    decreases k,
{
    if k == 0 {
        assert(window.take(0) =~= Seq::<i16>::empty());
    } else {
        lemma_attempt_decodes(word, window, sf, lms, (k - 1) as nat);
        let shorter = window.take(k - 1);
        let longer = window.take(k as int);
        assert(longer.drop_last() =~= shorter);
        assert(longer.last() == window[k - 1]);
        let before = run_candidate(shorter, sf, lms);
        let sample = window[k - 1];
        let q = word_resid(word, k - 1);
        assert(residual_agrees(word, window, sf, lms, k - 1));
        lemma_step_agrees(sample, sf, before.lms, q);
    }
}

/// The decoder follows the encoder: from the word of a slice, and in the
/// state that the encoder was in, a decoder reconstructs for each sample of
/// the window the sample that the encoder reckoned with, and ends in the
/// state that the encoder ended in.
pub proof fn lemma_decoder_follows_encoder(window: Seq<i16>, lms: QoaLmsState)
    requires
        window.len() <= 20,
    ensures
        decode_slice(slice_word(window, lms), lms, window.len()).lms == slice_lms(window, lms),
        decode_slice(slice_word(window, lms), lms, window.len()).samples == reconstruction(
            window,
            best_sf(window, lms, 16),
            lms,
        ),
{
    let sf = best_sf(window, lms, 16);
    lemma_best_sf_minimal(window, lms, 16);
    lemma_candidate_shape(window, sf, lms);
    let resid = run_candidate(window, sf, lms).resid;
    let pad = (20 - window.len()) as nat;
    let padded = resid + Seq::new(pad, |i: int| 0u8);
    lemma_pack_word_pad(sf, resid, pad);
    lemma_pack_word_digits(sf, padded);
    let word = slice_word(window, lms);
    assert(word == pack_word(sf, padded) as u64);
    assert forall|i: int| 0 <= i < window.len() implies #[trigger] residual_agrees(
        word,
        window,
        sf,
        lms,
        i,
    ) by {
        assert(padded[i] == resid[i]);
        lemma_candidate_residual(window, sf, lms, i);
    }
    lemma_attempt_decodes(word, window, sf, lms, window.len());
    assert(window.take(window.len() as int) =~= window);
}

/// The number of words of a frame of `samples` samples per channel: the
/// header, two words of state for each channel, and a slice of each channel
/// for every twenty samples or part of them.
pub open spec fn frame_len(samples: nat, channels: nat) -> nat {
    (1 + 2 * channels + slices_for(samples as int) * channels) as nat
}

/// The number of words of the frames that hold `n` samples per channel, 5120
/// to a frame.
pub open spec fn frames_len(n: nat, channels: nat) -> nat
    decreases n,
{
    if n == 0 {
        0
    } else if n <= 5120 {
        frame_len(n, channels)
    } else {
        frame_len(5120, channels) + frames_len((n - 5120) as nat, channels)
    }
}

/// The framing after the rows that the frame in the making lacks.
pub open spec fn frame_ended(f: Framing, channels: int) -> Framing
    decreases f.left,
{
    if f.left == 0 {
        f
    } else {
        frame_ended(row_written(f, channels), channels)
    }
}

/// A frame whose samples are all at hand is written to its end: it takes a
/// row of slices for every twenty samples or part of them, and leaves the
/// samples after its own.
pub proof fn lemma_frame_written(f: Framing, rate: u32, channels: int)
    requires
        channels > 0,
        f.pending.len() >= f.left * channels,
        f.remaining is Some ==> f.left <= f.remaining->0,
    ensures
        drain(f, rate, channels).0 == drain(frame_ended(f, channels), rate, channels).0,
        drain(f, rate, channels).1.len() == slices_for(f.left as int) * channels + drain(
            frame_ended(f, channels),
            rate,
            channels,
        ).1.len(),
        frame_ended(f, channels).left == 0,
        frame_ended(f, channels).pending.len() == f.pending.len() - f.left * channels,
        f.remaining is None ==> frame_ended(f, channels).remaining is None,
        f.remaining is Some ==> frame_ended(f, channels).remaining == Some(
            (f.remaining->0 - f.left) as nat,
        ),
        frame_ended(f, channels).lms.len() == (if f.left == 0 {
            f.lms.len()
        } else {
            channels as nat
        }),
        drain(f, rate, channels).1.skip(slices_for(f.left as int) * channels) == drain(
            frame_ended(f, channels),
            rate,
            channels,
        ).1,
    decreases f.left,
{
    if f.left > 0 {
        let len = next_row_len(f.left);
        lemma_row_takes(len as int, channels);
        assert(f.left * channels >= len * channels && (f.left - len) * channels == f.left
            * channels - len * channels) by (nonlinear_arith)
            requires
                f.left >= len,
                channels > 0,
        ;
        lemma_drain_row(f, rate, channels);
        let next = row_written(f, channels);
        lemma_frame_written(next, rate, channels);
        let block = f.pending.take(len * channels);
        assert(row_words(block, f.lms, channels).len() == channels);
        assert(slices_for(f.left as int) == 1 + slices_for(f.left - len));
        assert(slices_for(f.left as int) * channels == channels + slices_for(f.left - len)
            * channels) by (nonlinear_arith)
            requires
                slices_for(f.left as int) == 1 + slices_for(f.left - len),
        ;
        let row = row_words(block, f.lms, channels);
        let more = drain(next, rate, channels).1;
        assert(slices_for(f.left - len) * channels >= 0) by (nonlinear_arith)
            requires
                slices_for(f.left - len) >= 0,
                channels > 0,
        ;
        assert((row + more).skip(channels + slices_for(f.left - len) * channels) =~= more.skip(
            slices_for(f.left - len) * channels,
        ));
    } else {
        assert(drain(f, rate, channels).1.skip(0) =~= drain(f, rate, channels).1);
        assert(slices_for(0) * channels == 0) by (nonlinear_arith)
            requires
                slices_for(0) == 0,
        ;
    }
}

/// Samples that are all at hand are encoded in frames of 5120 samples per
/// channel and a last frame of what is left: `n` samples per channel take
/// `n / 5120` full frames and, where `n` is no multiple of 5120, one frame
/// more, whose rows number a twentieth of its samples, rounded up. No
/// sample is left behind, and the first word is the header of a frame of
/// 5120 samples, or of `n` where these are fewer. This holds of a stream of
/// unknown length and of one that declares the `n` samples.
pub proof fn lemma_stream_frames(f: Framing, rate: u32, channels: int, n: nat)
    requires
        1 <= channels <= 255,
        f.left == 0,
        f.lms.len() == channels,
        f.pending.len() == n * channels,
        f.remaining is None || f.remaining == Some(n),
    ensures
        drain(f, rate, channels).1.len() == frames_len(n, channels as nat),
        drain(f, rate, channels).0.left == 0,
        drain(f, rate, channels).0.pending.len() == 0,
        n > 0 ==> drain(f, rate, channels).1[0] == frame_header_word(
            channels as u8,
            rate,
            (if n < 5120 { n } else { 5120 }) as u16,
            frame_size(channels, slices_for(if n < 5120 { n as int } else { 5120 })),
        ),
    decreases n,
{
    if n == 0 {
        assert(0 * channels == 0);
        lemma_drain_stalled(f, rate, channels);
    } else {
        assert(n * channels >= channels) by (nonlinear_arith)
            requires
                n >= 1,
                channels >= 1,
        ;
        vstd::arithmetic::div_mod::lemma_div_multiples_vanish(n as int, channels);
        assert(n * channels == channels * n) by (nonlinear_arith);
        assert(f.pending.len() / (channels as nat) == n);
        let samples = next_frame_samples(f, channels);
        assert(samples == if n < 5120 { n } else { 5120 });
        assert(!stalled(f, channels));
        lemma_drain_begin(f, rate, channels);
        let begun = frame_begun(f, samples);
        assert(samples * channels <= n * channels && (n - samples) * channels == n * channels
            - samples * channels) by (nonlinear_arith)
            requires
                samples <= n,
                channels >= 1,
        ;
        lemma_frame_written(begun, rate, channels);
        let ended = frame_ended(begun, channels);
        lemma_stream_frames(ended, rate, channels, (n - samples) as nat);
        let head = frame_head(channels as u8, rate, samples as u16, f.lms);
        assert(head.len() == 1 + 2 * channels);
        assert(drain(f, rate, channels).1 == head + drain(begun, rate, channels).1);
        assert(drain(f, rate, channels).1[0] == head[0]);
        assert(slices_for(samples as int) * channels >= 0) by (nonlinear_arith)
            requires
                slices_for(samples as int) >= 0,
                channels >= 0,
        ;
    }
}

/// Every frame of such a stream declares its samples: frame number `j`,
/// counted from 0, begins after `j` full frames with the header of a frame
/// of 5120 samples per channel, or of what is left of the `n` where these
/// are fewer.
pub proof fn lemma_stream_frame_headers(f: Framing, rate: u32, channels: int, n: nat, j: nat)
    requires
        1 <= channels <= 255,
        f.left == 0,
        f.lms.len() == channels,
        f.pending.len() == n * channels,
        f.remaining is None || f.remaining == Some(n),
        j * 5120 < n,
    ensures
        ({
            let at = j * frame_len(5120, channels as nat);
            let samples = if n - j * 5120 < 5120 { n - j * 5120 } else { 5120 };
            &&& at < drain(f, rate, channels).1.len()
            &&& drain(f, rate, channels).1[at as int] == frame_header_word(
                channels as u8,
                rate,
                samples as u16,
                frame_size(channels, slices_for(samples)),
            )
        }),
    decreases j,
{
    lemma_stream_frames(f, rate, channels, n);
    if j == 0 {
        assert(frames_len(n, channels as nat) > 0);
    } else {
        lemma_groups(n, channels);
        assert(f.pending.len() / (channels as nat) == n);
        assert(next_frame_samples(f, channels) == 5120);
        lemma_drain_begin(f, rate, channels);
        let begun = frame_begun(f, 5120);
        assert(5120 * channels <= n * channels && (n - 5120) * channels == n * channels - 5120
            * channels) by (nonlinear_arith)
            requires
                5120 <= n,
                channels >= 1,
        ;
        lemma_frame_written(begun, rate, channels);
        let ended = frame_ended(begun, channels);
        let rest = (n - 5120) as nat;
        let before = (j - 1) as nat;
        assert(before * 5120 < rest);
        lemma_stream_frame_headers(ended, rate, channels, rest, before);
        let head = frame_head(channels as u8, rate, 5120u16, f.lms);
        let body = drain(begun, rate, channels).1;
        let tail = drain(ended, rate, channels).1;
        let rows = slices_for(5120) * channels;
        assert(head.len() == 1 + 2 * channels);
        assert(body.skip(rows) == tail);
        let size = frame_len(5120, channels as nat);
        assert(size == head.len() + rows);
        let at = j * size;
        assert(at == size + before * size) by (nonlinear_arith)
            requires
                at == j * size,
                j == before + 1,
        ;
        let inner = before * size;
        assert(tail[inner as int] == body[rows + inner]);
        assert((head + body)[at as int] == body[rows + inner]);
    }
}

/// The frames of `k * 5120 + r` samples per channel, where `r` is less than
/// 5120, are `k` full frames and, where `r` is not 0, one frame of `r`
/// samples.
pub proof fn lemma_frames_len_split(k: nat, r: nat, channels: nat)
    requires
        r < 5120,
    ensures
        frames_len(k * 5120 + r, channels) == k * frame_len(5120, channels) + (if r > 0 {
            frame_len(r, channels)
        } else {
            0
        }),
    decreases k,
{
    if k == 0 {
        assert(0 * frame_len(5120, channels) == 0);
    } else if k == 1 && r == 0 {
        assert(1 * frame_len(5120, channels) == frame_len(5120, channels));
    } else {
        lemma_frames_len_split((k - 1) as nat, r, channels);
        assert(k * 5120 + r - 5120 == (k - 1) * 5120 + r);
        assert(k * frame_len(5120, channels) == frame_len(5120, channels) + (k - 1) * frame_len(
            5120,
            channels,
        )) by (nonlinear_arith)
            requires
                k >= 1,
        ;
    }
}

/// Draining leaves a state for each channel, as long as there was one for
/// each.
pub proof fn lemma_drain_keeps_channels(f: Framing, rate: u32, channels: int)
    requires
        channels > 0,
        f.lms.len() == channels,
    ensures
        drain(f, rate, channels).0.lms.len() == channels,
    decreases f.pending.len(), (if f.left == 0 { 1nat } else { 0nat }),
{
    if stalled(f, channels) {
        lemma_drain_stalled(f, rate, channels);
    } else if f.left == 0 {
        lemma_drain_begin(f, rate, channels);
        lemma_drain_keeps_channels(
            frame_begun(f, next_frame_samples(f, channels)),
            rate,
            channels,
        );
    } else {
        lemma_drain_row(f, rate, channels);
        lemma_row_takes(next_row_len(f.left) as int, channels);
        lemma_drain_keeps_channels(row_written(f, channels), rate, channels);
    }
}

/// Two portions of the samples that follow each other make up one portion.
pub proof fn lemma_portions_join(planes: Seq<Seq<i16>>, channels: nat, from: nat, a: nat, b: nat)
    requires
        channels > 0,
        planes.len() >= channels,
        forall|c: int| 0 <= c < channels ==> from + a + b <= (#[trigger] planes[c]).len(),
    ensures
        portion(planes, channels, from, a) + portion(planes, channels, from + a, b) == portion(
            planes,
            channels,
            from,
            a + b,
        ),
{
    let first = portion(planes, channels, from, a);
    let second = portion(planes, channels, from + a, b);
    let both = portion(planes, channels, from, a + b);
    let ch = channels as int;
    assert((a + b) * channels == a * channels + b * channels) by (nonlinear_arith);
    assert(both.len() == first.len() + second.len());
    assert forall|k: int| 0 <= k < both.len() implies both[k] == (first + second)[k] by {
        lemma_interleaved_place(k, ch, a as int);
        lemma_interleaved_place(k, ch, (a + b) as int);
        let c = k % ch;
        let i = k / ch;
        assert(from + a + b <= planes[c].len());
        if k < a * channels {
            assert(first[k] == planes[c].subrange(from as int, (from + a) as int)[i]);
        } else {
            let kk = k - a * channels;
            let j = i - a;
            assert(i * ch == a * ch + j * ch) by (nonlinear_arith)
                requires
                    i == a + j,
            ;
            assert(kk == j * ch + c);
            lemma_interleaved_index(j, ch, c);
            assert(second[kk] == planes[c].subrange((from + a) as int, (from + a + b) as int)[j]);
        }
    }
    assert(both =~= first + second);
}

/// In a stream of known length it does not matter in which portions the
/// samples come: an encoder that takes one portion after the other ends in
/// the state, and has written the words, of an encoder that takes them all
/// at once.
pub proof fn lemma_portions_do_not_matter(
    st: EncoderState,
    rate: u32,
    channels: usize,
    planes: Seq<Seq<i16>>,
    sizes: Seq<nat>,
)
    requires
        1 <= channels <= 255,
        st.sink is Some,
        st.desc.sample_count is Some,
        st.left <= st.desc.sample_count->0 <= 0xffff_ffff,
        planes.len() >= channels,
        forall|c: int| 0 <= c < channels ==> total(sizes) <= (#[trigger] planes[c]).len(),
    ensures
        st.after_portions(rate, channels, planes, sizes) == (if sizes.len() == 0 {
            st
        } else {
            st.taken(rate, channels, portion(planes, channels as nat, 0, total(sizes)))
        }),
    decreases sizes.len(),
{
    if sizes.len() == 1 {
        assert(sizes.drop_last() =~= Seq::<nat>::empty());
        assert(total(sizes.drop_last()) == 0);
        assert(total(sizes) == sizes.last());
        assert(st.after_portions(rate, channels, planes, sizes.drop_last()) == st);
    } else if sizes.len() > 1 {
        let init = sizes.drop_last();
        let done = total(init);
        let last = sizes.last();
        lemma_portions_do_not_matter(st, rate, channels, planes, init);
        let a = portion(planes, channels as nat, 0, done);
        let b = portion(planes, channels as nat, done, last);
        lemma_portions_join(planes, channels as nat, 0, done, last);
        let mid = st.taken(rate, channels, a);
        let f = st.framing_with(channels, a);
        let first = drain(f, rate, channels as int);
        lemma_drain_keeps_channels(f, rate, channels as int);
        crate::encoder::lemma_drain_leaves(f, rate, channels as int);
        lemma_drain_in_portions(f, b, rate, channels as int);
        assert(mid.framing() == first.0);
        assert(lms_resized(first.0.lms, channels as nat) =~= first.0.lms);
        assert(mid.framing_with(channels, b) == with_more(first.0, b));
        assert(with_more(f, b).pending =~= st.pending + (a + b));
        assert(with_more(f, b) == st.framing_with(channels, a + b));
        let second = drain(with_more(first.0, b), rate, channels as int);
        assert(mid.header_words() =~= Seq::<u64>::empty());
        assert((st.sink->0 + st.header_words() + first.1) + Seq::<u64>::empty() + second.1
            =~= st.sink->0 + st.header_words() + (first.1 + second.1));
        assert(total(sizes) == done + last);
        let whole = st.taken(rate, channels, a + b);
        let stepwise = mid.taken(rate, channels, b);
        assert(st.after_portions(rate, channels, planes, sizes) == stepwise);
        assert(drain(st.framing_with(channels, a + b), rate, channels as int) == (
            second.0,
            first.1 + second.1,
        ));
        assert(stepwise.sink == whole.sink);
        assert(stepwise.desc == whole.desc);
        assert(stepwise == whole);
    }
}

/// What is encoded can be decoded: where the words from `at` on are those
/// that an encoder writes for `n` samples per channel that are all at hand,
/// a decoder that begins at `at` finds whole frames up to the last word
/// and as many samples for each channel as were encoded. This holds of a
/// stream of unknown length and of one that declares the `n` samples.
pub proof fn lemma_encoded_frames_decode(
    words: Seq<u64>,
    at: int,
    f: Framing,
    rate: u32,
    channels: int,
    n: nat,
    first: Option<(u32, u8)>,
)
    requires
        1 <= channels <= 255,
        rate < 0x100_0000,
        0 <= at <= words.len(),
        words.skip(at) == drain(f, rate, channels).1,
        f.left == 0,
        f.lms.len() == channels,
        f.pending.len() == n * channels,
        f.remaining is None || f.remaining == Some(n),
        first is None || first == Some((rate, channels as u8)),
    ensures
        ({
            let decoded = decode_from(
                words,
                false,
                at,
                if f.remaining is Some { n as int } else { 0 },
                f.remaining is None,
                first,
            );
            &&& decoded is Ok
            &&& decoded->Ok_0.end == words.len()
            &&& decoded->Ok_0.samples.len() == n * channels
        }),
    decreases n,
{
    let streaming = f.remaining is None;
    let remaining: int = if f.remaining is Some { n as int } else { 0 };
    lemma_stream_frames(f, rate, channels, n);
    if n == 0 {
        assert(0 * channels == 0);
        lemma_drain_stalled(f, rate, channels);
        assert(words.skip(at).len() == 0);
        assert(at == words.len());
    } else {
        assert(n * channels >= channels) by (nonlinear_arith)
            requires
                n >= 1,
                channels >= 1,
        ;
        vstd::arithmetic::div_mod::lemma_div_multiples_vanish(n as int, channels);
        assert(n * channels == channels * n) by (nonlinear_arith);
        assert(f.pending.len() / (channels as nat) == n);
        let samples = next_frame_samples(f, channels);
        assert(samples == if n < 5120 { n } else { 5120 });
        lemma_drain_begin(f, rate, channels);
        let begun = frame_begun(f, samples);
        assert(samples * channels <= n * channels && (n - samples) * channels == n * channels
            - samples * channels) by (nonlinear_arith)
            requires
                samples <= n,
                channels >= 1,
        ;
        lemma_frame_written(begun, rate, channels);
        let ended = frame_ended(begun, channels);
        let head = frame_head(channels as u8, rate, samples as u16, f.lms);
        let body = drain(begun, rate, channels).1;
        let rows = slices_for(samples as int);
        assert(rows * channels >= 0) by (nonlinear_arith)
            requires
                rows >= 0,
                channels >= 0,
        ;
        let size = 1 + 2 * channels + rows * channels;
        assert(head.len() == 1 + 2 * channels);
        assert(words.skip(at) == head + body);
        assert(body.len() >= rows * channels);
        assert(words.len() - at == head.len() + body.len());
        assert(words[at] == words.skip(at)[0]);
        assert(words[at] == head[0]);
        lemma_frame_header_round_trip(
            channels as u8,
            rate,
            samples as u16,
            frame_size(channels, slices_for(samples as int)),
        );
        assert(header_channels(words[at]) == channels);
        assert(header_rate(words[at]) == rate);
        assert(header_frame_samples(words[at]) == samples);
        assert(frame_rows(samples as int) == rows);
        assert(frame_words(words[at]) == size);
        assert(words.skip(at).skip(size) =~= words.skip(at + size));
        assert((head + body).skip(head.len() + rows * channels) =~= body.skip(rows * channels));
        assert(words.skip(at + size) =~= body.skip(rows * channels));
        lemma_encoded_frames_decode(
            words,
            at + size,
            ended,
            rate,
            channels,
            (n - samples) as nat,
            Some((rate, channels as u8)),
        );
        let frame = frame_interleaved(words, at);
        assert(rows_samples(samples as int, rows) == frame_samples(samples as int));
        assert(frame.len() == samples * channels);
        let left: int = if remaining > samples { remaining - samples } else { 0 };
        assert(left == (if ended.remaining is Some { (n - samples) as int } else { 0 }));
    }
}

/// A stream that an encoder writes decodes to as many samples as were
/// encoded: the bytes of the file header and of the words written for `n`
/// samples per channel that are all at hand are a whole stream, and hold
/// `n` samples for each channel. The file header declares the `n` samples,
/// or 0 for a stream of unknown length.
pub proof fn lemma_encoded_stream_decodes(f: Framing, rate: u32, channels: int, n: nat)
    requires
        1 <= channels <= 255,
        rate < 0x100_0000,
        f.left == 0,
        f.lms.len() == channels,
        f.pending.len() == n * channels,
        f.remaining is None || (f.remaining == Some(n) && 1 <= n <= 0xffff_ffff),
    ensures
        ({
            let declared = if f.remaining is Some { n as u32 } else { 0u32 };
            let stream = seq![file_header_word(declared)] + drain(f, rate, channels).1;
            let decoded = decode_stream(bytes_of_words(stream));
            &&& decoded is Ok
            &&& decoded->Ok_0.end == stream.len()
            &&& decoded->Ok_0.samples.len() == n * channels
        }),
{
    let declared = if f.remaining is Some { n as u32 } else { 0u32 };
    let stream = seq![file_header_word(declared)] + drain(f, rate, channels).1;
    let bytes = bytes_of_words(stream);
    lemma_words_round_trip(stream);
    lemma_file_header_round_trip(declared);
    assert(words_of_bytes(bytes) == stream);
    assert(bytes.len() == stream.len() * 8);
    assert(bytes.len() % 8 == 0);
    assert(stream[0] == file_header_word(declared));
    assert(stream.skip(1) =~= drain(f, rate, channels).1);
    lemma_encoded_frames_decode(stream, 1, f, rate, channels, n, None);
}

/// Whether `words` begin with whole frames that share out `remaining`
/// samples per channel: each has the sample rate `rate` and `channels`
/// channels, and declares between 1 and 5120 samples and no more than are
/// still due.
pub open spec fn frames_share(words: Seq<u64>, remaining: int, rate: u32, channels: u8) -> bool
    decreases words.len(),
{
    if remaining <= 0 {
        true
    } else if words.len() == 0 {
        false
    } else {
        let samples = header_frame_samples(words[0]) as int;
        &&& header_rate(words[0]) == rate
        &&& header_channels(words[0]) == channels
        &&& 1 <= samples <= 5120
        &&& samples <= remaining
        &&& frame_words(words[0]) <= words.len()
        &&& frames_share(words.skip(frame_words(words[0])), remaining - samples, rate, channels)
    }
}

/// Whole frames that share out the samples that are due decode to exactly
/// these samples for each channel.
pub proof fn lemma_shared_frames_decode(
    words: Seq<u64>,
    tail: bool,
    at: int,
    remaining: int,
    rate: u32,
    channels: u8,
    first: Option<(u32, u8)>,
)
    requires
        0 <= remaining,
        0 <= at <= words.len(),
        frames_share(words.skip(at), remaining, rate, channels),
        first is None || first == Some((rate, channels)),
    ensures
        decode_from(words, tail, at, remaining, false, first) is Ok,
        decode_from(words, tail, at, remaining, false, first)->Ok_0.samples.len() == remaining
            * channels,
    decreases words.len() - at,
{
    if remaining > 0 {
        let samples = header_frame_samples(words[at]) as int;
        let size = frame_words(words[at]);
        assert(words.skip(at)[0] == words[at]);
        assert(words.skip(at).skip(size) =~= words.skip(at + size));
        lemma_shared_frames_decode(
            words,
            tail,
            at + size,
            remaining - samples,
            rate,
            channels,
            Some((rate, channels)),
        );
        let frame = frame_interleaved(words, at);
        assert(rows_samples(samples, frame_rows(samples)) == frame_samples(samples));
        assert(frame.len() == samples * channels);
        assert(samples * channels + (remaining - samples) * channels == remaining * channels)
            by (nonlinear_arith);
    } else {
        assert(0 * channels == 0);
    }
}

/// A stream of known length decodes to exactly the declared samples for each
/// channel, where its frames are whole and share them out: where the file
/// header declares `n` samples per channel and the frames have `c`
/// channels, the decoded samples number `n * c`.
pub proof fn lemma_declared_samples_decoded(bytes: Seq<u8>, rate: u32, channels: u8)
    requires
        bytes.len() >= 8,
        word_magic(words_of_bytes(bytes)[0]) == MAGIC,
        word_samples(words_of_bytes(bytes)[0]) > 0,
        frames_share(
            words_of_bytes(bytes).skip(1),
            word_samples(words_of_bytes(bytes)[0]) as int,
            rate,
            channels,
        ),
    ensures
        decode_stream(bytes) is Ok,
        decode_stream(bytes)->Ok_0.samples.len() == word_samples(words_of_bytes(bytes)[0])
            * channels,
{
    let words = words_of_bytes(bytes);
    lemma_shared_frames_decode(
        words,
        bytes.len() % 8 != 0,
        1,
        word_samples(words[0]) as int,
        rate,
        channels,
        None,
    );
}

/// The frames of such a stream give each channel exactly the samples that
/// are due, and end where the stream ends or other words follow.
pub proof fn lemma_shared_frames_planes(words: Seq<u64>, remaining: u32, rate: u32, channels: u8)
    requires
        frames_share(words, remaining as int, rate, channels),
    ensures
        stream_rest(words, Some(remaining)) is Some,
        forall|c: int|
            0 <= c < channels ==> (#[trigger] stream_plane(words, Some(remaining), c)).len()
                == remaining,
    decreases words.len(),
{
    lemma_stream_unfold(words, Some(remaining));
    if remaining > 0 {
        let samples = header_frame_samples(words[0]);
        let left = samples_left(words, Some(remaining));
        assert(left == Some((remaining - samples) as u32));
        let rest = words.skip(frame_words(words[0]));
        lemma_shared_frames_planes(rest, (remaining - samples) as u32, rate, channels);
        assert forall|c: int| 0 <= c < channels implies (#[trigger] stream_plane(
            words,
            Some(remaining),
            c,
        )).len() == remaining by {
            lemma_decode_channel_len(
                words,
                1 + 2 * channels,
                channels as int,
                c,
                frame_lms(words, 0, c),
                samples as int,
                frame_rows(samples as int) as nat,
            );
            assert(frame_plane(words, 0, c).len() == samples);
            assert(stream_plane(rest, left, c).len() == remaining - samples);
        }
    }
}

/// Whether each of the last `channels` words of `words` is a multiple of
/// `8^pad`: its lowest `pad` residuals are zero.
#[verifier::opaque]
pub open spec fn ends_padded(words: Seq<u64>, channels: int, pad: nat) -> bool {
    &&& words.len() >= channels
    &&& forall|c: int|
        0 <= c < channels ==> (#[trigger] words[words.len() - channels + c]) as int % pow8(pad) == 0
}

/// Words that end padded still do so behind other words.
proof fn lemma_padded_behind(head: Seq<u64>, rest: Seq<u64>, channels: int, pad: nat)
    requires
        channels >= 0,
        ends_padded(rest, channels, pad),
    ensures
        ends_padded(head + rest, channels, pad),
{
    reveal(ends_padded);
    let words = head + rest;
    assert forall|c: int| 0 <= c < channels implies (#[trigger] words[words.len() - channels
        + c]) as int % pow8(pad) == 0 by {
        assert(words[words.len() - channels + c] == rest[rest.len() - channels + c]);
    }
}

/// A row of fewer than twenty samples per channel is padded.
proof fn lemma_short_row_padded(block: Seq<i16>, lms: Seq<QoaLmsState>, channels: int, len: nat)
    requires
        1 <= channels,
        len < 20,
        block.len() == len * channels,
    ensures
        ends_padded(row_words(block, lms, channels), channels, (20 - len) as nat),
{
    reveal(ends_padded);
    let row = row_words(block, lms, channels);
    vstd::arithmetic::div_mod::lemma_div_multiples_vanish(len as int, channels);
    assert(len * channels == channels * len) by (nonlinear_arith);
    assert(block.len() / (channels as nat) == len);
    assert forall|c: int| 0 <= c < channels implies (#[trigger] row[row.len() - channels + c]) as int
        % pow8((20 - len) as nat) == 0 by {
        let window = window_of(block, c, channels);
        assert(window.len() == len);
        lemma_short_slice_padding(window, lms[c]);
        assert(row[c] == slice_word(window, lms[c]));
    }
}

/// `n` samples for each of `channels` channels are `n` groups of samples.
proof fn lemma_groups(n: nat, channels: int)
    requires
        1 <= channels,
    ensures
        (n * channels) / channels == n,
        n >= 1 ==> n * channels >= channels,
{
    vstd::arithmetic::div_mod::lemma_div_multiples_vanish(n as int, channels);
    assert(n * channels == channels * n) by (nonlinear_arith);
    assert(n >= 1 ==> n * channels >= channels) by (nonlinear_arith)
        requires
            channels >= 1,
    ;
}

/// The framing after a row of `len` samples per channel, where `n` samples
/// per channel were pending.
proof fn lemma_row_leaves(f: Framing, channels: int, n: nat)
    requires
        1 <= channels,
        0 < f.left <= n,
        f.pending.len() == n * channels,
        f.remaining is None || f.remaining == Some(n),
    ensures
        ({
            let len = next_row_len(f.left);
            let written = row_written(f, channels);
            &&& !stalled(f, channels)
            &&& f.pending.take(len * channels).len() == len * channels
            &&& written.pending.len() == (n - len) * channels
            &&& written.left == f.left - len
            &&& written.remaining is None || written.remaining == Some((n - len) as nat)
        }),
{
    let len = next_row_len(f.left);
    lemma_row_takes(len as int, channels);
    assert(len * channels <= n * channels) by (nonlinear_arith)
        requires
            len <= n,
            channels >= 1,
    ;
    assert((n - len) * channels == n * channels - len * channels) by (nonlinear_arith);
}

/// The frame that is begun where `n` samples per channel are pending and
/// none is in the making takes 5120 of them, or all where these are fewer.
proof fn lemma_frame_takes(f: Framing, channels: int, n: nat)
    requires
        1 <= channels,
        1 <= n,
        f.left == 0,
        f.pending.len() == n * channels,
        f.remaining is None || f.remaining == Some(n),
    ensures
        !stalled(f, channels),
        next_frame_samples(f, channels) == (if n < 5120 { n } else { 5120 }),
{
    lemma_groups(n, channels);
    assert(f.pending.len() / (channels as nat) == n);
}

/// The last row that is written for `n` samples per channel that are all at
/// hand is padded, where `n` is no multiple of twenty and a frame is in the
/// making that lacks `f.left` of them: it is the last frame, or it ends
/// with a full row.
proof fn lemma_last_row(f: Framing, rate: u32, channels: int, n: nat)
    requires
        1 <= channels <= 255,
        n % 20 != 0,
        f.pending.len() == n * channels,
        f.remaining is None || f.remaining == Some(n),
        f.left == n || (0 < f.left < n && f.left % 20 == 0),
    ensures
        ends_padded(drain(f, rate, channels).1, channels, (20 - n % 20) as nat),
    decreases n, 0nat,
{
    let pad = (20 - n % 20) as nat;
    let len = next_row_len(f.left);
    lemma_row_leaves(f, channels, n);
    lemma_drain_row(f, rate, channels);
    let block = f.pending.take(len * channels);
    let row = row_words(block, f.lms, channels);
    let written = row_written(f, channels);
    let rest = drain(written, rate, channels).1;
    if len == 20 {
        let m = (n - 20) as nat;
        assert(m % 20 == n % 20);
        if written.left == 0 {
            lemma_last_frames(written, rate, channels, m);
        } else {
            lemma_last_row(written, rate, channels, m);
        }
        lemma_padded_behind(row, rest, channels, pad);
    } else {
        assert(len == n);
        assert(written.pending.len() == 0) by {
            assert(0 * channels == 0);
        }
        lemma_drain_stalled(written, rate, channels);
        assert(row + rest =~= row);
        lemma_short_row_padded(block, f.lms, channels, len);
    }
}

/// The last row that is written for `n` samples per channel that are all at
/// hand is padded, where `n` is no multiple of twenty and no frame is in
/// the making.
proof fn lemma_last_frames(f: Framing, rate: u32, channels: int, n: nat)
    requires
        1 <= channels <= 255,
        n % 20 != 0,
        f.left == 0,
        f.pending.len() == n * channels,
        f.remaining is None || f.remaining == Some(n),
    ensures
        ends_padded(drain(f, rate, channels).1, channels, (20 - n % 20) as nat),
    decreases n, 1nat,
{
    let samples = next_frame_samples(f, channels);
    lemma_frame_takes(f, channels, n);
    lemma_drain_begin(f, rate, channels);
    let begun = frame_begun(f, samples);
    lemma_last_row(begun, rate, channels, n);
    lemma_padded_behind(
        frame_head(channels as u8, rate, samples as u16, f.lms),
        drain(begun, rate, channels).1,
        channels,
        (20 - n % 20) as nat,
    );
}

/// The last slices of a stream are padded: where `n` samples per channel
/// that are all at hand are encoded, and `n` is no multiple of twenty, the
/// stream ends with a slice of each channel that holds the last `n % 20`
/// samples, and the residuals that such a slice lacks are zero.
pub proof fn lemma_last_slices_padded(f: Framing, rate: u32, channels: int, n: nat)
    requires
        1 <= channels <= 255,
        n % 20 != 0,
        f.left == 0,
        f.pending.len() == n * channels,
        f.remaining is None || f.remaining == Some(n),
    ensures
        ends_padded(drain(f, rate, channels).1, channels, (20 - n % 20) as nat),
{
    lemma_last_frames(f, rate, channels, n);
}

/// Closing adds nothing to samples that were all at hand: where an encoder
/// that holds no samples takes `n` samples per channel in one call, in a
/// stream of known length all that are declared, the sink holds the whole
/// stream, and nothing is left to write when the encoder is closed.
pub proof fn lemma_closing_adds_nothing(
    s: EncoderState,
    post: EncoderState,
    rate: u32,
    channels: usize,
    samples: Seq<i16>,
    n: nat,
)
    requires
        s.sink is Some,
        s.left == 0,
        s.pending.len() == 0,
        1 <= channels <= 255,
        samples.len() == n * channels,
        s.desc.sample_count is None || (n <= usize::MAX && s.desc.sample_count == Some(
            n as usize,
        )),
        s.encoded(post, rate, channels, samples),
    ensures
        post.closing_words() == post.sink->0,
{
    let f = s.framing_with(channels, samples);
    assert(f.pending =~= samples);
    lemma_stream_frames(f, rate, channels as int, n);
    lemma_drain_leaves(f, rate, channels as int);
    let left = post.framing();
    assert(left == drain(f, rate, channels as int).0);
    if left.remaining is Some {
        let r = left.remaining->0;
        assert(r * channels == 0);
    }
    assert(shortfall(left, channels as int) == 0);
    assert(left.pending + silence(0) =~= left.pending);
    assert(with_more(left, silence(0)) == left);
    lemma_drain_stalled(left, rate, channels as int);
    assert(post.sink->0 + post.header_words() + Seq::<u64>::empty() =~= post.sink->0);
}

/// What closing leaves in the sink ends with padded slices: where an
/// encoder that holds no samples takes `n` samples per channel in one call,
/// in a stream of known length all that are declared, and `n` is no
/// multiple of twenty, the words in the sink end with a slice of each
/// channel whose missing residuals are zero.
pub proof fn lemma_closed_stream_ends_padded(
    s: EncoderState,
    post: EncoderState,
    rate: u32,
    channels: usize,
    samples: Seq<i16>,
    n: nat,
)
    requires
        s.sink is Some,
        s.left == 0,
        s.pending.len() == 0,
        1 <= channels <= 255,
        samples.len() == n * channels,
        n % 20 != 0,
        s.desc.sample_count is None || (n <= usize::MAX && s.desc.sample_count == Some(
            n as usize,
        )),
        s.encoded(post, rate, channels, samples),
    ensures
        ends_padded(post.closing_words(), channels as int, (20 - n % 20) as nat),
{
    let f = s.framing_with(channels, samples);
    assert(f.pending =~= samples);
    lemma_last_slices_padded(f, rate, channels as int, n);
    lemma_padded_behind(
        s.sink->0 + s.header_words(),
        drain(f, rate, channels as int).1,
        channels as int,
        (20 - n % 20) as nat,
    );
    lemma_closing_adds_nothing(s, post, rate, channels, samples, n);
}

/// The number of words of the frames that a stream of unknown length holds
/// for portions of the sizes `sizes`, each given in a call of its own: the
/// frames of each portion, one portion after the other.
pub open spec fn portions_len(sizes: Seq<nat>, channels: nat) -> nat
    decreases sizes.len(),
{
    if sizes.len() == 0 {
        0
    } else {
        portions_len(sizes.drop_last(), channels) + frames_len(sizes.last(), channels)
    }
}

/// In a stream of unknown length every call ends its frames: where an
/// encoder that holds no samples takes portions one after the other, it
/// holds no samples after any of them, and the sink has the file header,
/// where that was still to be written, and then for each portion the frames
/// that its samples take when they are all at hand.
pub proof fn lemma_streamed_portions(
    st: EncoderState,
    rate: u32,
    channels: usize,
    planes: Seq<Seq<i16>>,
    sizes: Seq<nat>,
)
    requires
        1 <= channels <= 255,
        st.sink is Some,
        st.desc.sample_count is None,
        st.left == 0,
        st.pending.len() == 0,
    ensures
        ({
            let post = st.after_portions(rate, channels, planes, sizes);
            &&& post.sink is Some
            &&& post.desc.sample_count is None
            &&& post.left == 0
            &&& post.pending.len() == 0
            &&& sizes.len() > 0 ==> post.has_header
            &&& post.sink->0.len() == st.sink->0.len() + (if sizes.len() == 0 {
                0
            } else {
                st.header_words().len()
            }) + portions_len(sizes, channels as nat)
        }),
    decreases sizes.len(),
{
    if sizes.len() > 0 {
        let init = sizes.drop_last();
        let last = sizes.last();
        lemma_streamed_portions(st, rate, channels, planes, init);
        let mid = st.after_portions(rate, channels, planes, init);
        let b = portion(planes, channels as nat, total(init), last);
        assert(b.len() == last * channels);
        let f = mid.framing_with(channels, b);
        assert(f.pending =~= b);
        lemma_stream_frames(f, rate, channels as int, last);
        lemma_drain_leaves(f, rate, channels as int);
        if init.len() == 0 {
            assert(mid == st);
        } else {
            assert(mid.header_words() =~= Seq::<u64>::empty());
        }
    }
}

/// A source that is read out is encoded whole: where an encoder of a
/// stream of `n` samples per channel that holds no samples has taken, in
/// portions, from a source that held `n` samples for each channel, and the
/// samples that wait make up what remains of the declared count or some
/// channel of the source holds no more, the encoder has taken all `n`
/// samples of each channel, and is in the state, and has written the
/// words, of an encoder that was given them all at once.
pub proof fn lemma_source_encoded(
    pre: EncoderState,
    post: EncoderState,
    rate: u32,
    channels: usize,
    planes: Seq<Seq<i16>>,
    rest: Seq<Seq<i16>>,
    sizes: Seq<nat>,
    n: nat,
)
    requires
        1 <= channels <= 255,
        1 <= n <= 0xffff_ffff,
        pre.sink is Some,
        pre.left == 0,
        pre.pending.len() == 0,
        pre.desc.sample_count == Some(n as usize),
        planes.len() >= channels,
        forall|c: int| 0 <= c < channels ==> (#[trigger] planes[c]).len() == n,
        portions_taken(pre, post, rate, channels, planes, rest, sizes),
        post.read_out(channels, rest),
    ensures
        total(sizes) == n,
        post == pre.taken(rate, channels, portion(planes, channels as nat, 0, n)),
        post.closing_words() == post.sink->0,
{
    lemma_source_taken(pre, post, rate, channels, planes, rest, sizes, n);
    let all = portion(planes, channels as nat, 0, n);
    let f = pre.framing_with(channels, all);
    lemma_drain_leaves(f, rate, channels as int);
    assert(post.framing() == drain(f, rate, channels as int).0);
    assert(pre.encoded(post, rate, channels, all));
    lemma_closing_adds_nothing(pre, post, rate, channels, all, n);
}

/// Such an encoder has taken all `n` samples of each channel.
proof fn lemma_source_taken(
    pre: EncoderState,
    post: EncoderState,
    rate: u32,
    channels: usize,
    planes: Seq<Seq<i16>>,
    rest: Seq<Seq<i16>>,
    sizes: Seq<nat>,
    n: nat,
)
    requires
        1 <= channels <= 255,
        1 <= n <= 0xffff_ffff,
        pre.sink is Some,
        pre.left == 0,
        pre.pending.len() == 0,
        pre.desc.sample_count == Some(n as usize),
        planes.len() >= channels,
        forall|c: int| 0 <= c < channels ==> (#[trigger] planes[c]).len() == n,
        portions_taken(pre, post, rate, channels, planes, rest, sizes),
        post.read_out(channels, rest),
    ensures
        total(sizes) == n,
        post == pre.taken(rate, channels, portion(planes, channels as nat, 0, n)),
{
    let taken = total(sizes);
    assert(taken <= planes[0].len());
    lemma_portions_do_not_matter(pre, rate, channels, planes, sizes);
    if exists|c: int| 0 <= c < channels && (#[trigger] rest[c]).len() == 0 {
        let c = choose|c: int| 0 <= c < channels && (#[trigger] rest[c]).len() == 0;
        assert(rest[c] == planes[c].skip(taken as int));
        assert(taken == n);
    } else if sizes.len() == 0 {
        assert(post == pre);
        assert(n * channels >= 1) by (nonlinear_arith)
            requires
                n >= 1,
                channels >= 1,
        ;
    } else {
        let given = portion(planes, channels as nat, 0, taken);
        let f = pre.framing_with(channels, given);
        assert(f.pending =~= given);
        lemma_drain_leaves(f, rate, channels as int);
        let left = drain(f, rate, channels as int).0;
        assert(post.framing() == left);
        let r = left.remaining->0;
        assert(r <= n);
        assert(post.desc.sample_count->0 == r);
        assert(r * channels - left.pending.len() == n * channels - taken * channels);
        assert(taken >= n) by (nonlinear_arith)
            requires
                n * channels - taken * channels <= 0,
                channels >= 1,
        ;
    }
}

/// In a stream of unknown length a source that is read out is encoded
/// whole, each portion in frames of its own: where an encoder that holds no
/// samples has taken, in portions, from a source that held `n` samples for
/// each channel, and some channel of the source holds no more, the portions
/// make up the `n` samples, none of them waits, and nothing is left to
/// write when the encoder is closed.
pub proof fn lemma_streamed_source(
    pre: EncoderState,
    post: EncoderState,
    rate: u32,
    channels: usize,
    planes: Seq<Seq<i16>>,
    rest: Seq<Seq<i16>>,
    sizes: Seq<nat>,
    n: nat,
)
    requires
        1 <= channels <= 255,
        pre.sink is Some,
        pre.left == 0,
        pre.pending.len() == 0,
        pre.desc.sample_count is None,
        forall|c: int| 0 <= c < channels ==> (#[trigger] planes[c]).len() == n,
        portions_taken(pre, post, rate, channels, planes, rest, sizes),
        post.read_out(channels, rest),
    ensures
        total(sizes) == n,
        post.pending.len() == 0,
        post.sink->0.len() == pre.sink->0.len() + (if sizes.len() == 0 {
            0
        } else {
            pre.header_words().len()
        }) + portions_len(sizes, channels as nat),
        sizes.len() > 0 ==> post.closing_words() == post.sink->0,
{
    lemma_streamed_portions(pre, rate, channels, planes, sizes);
    let c = choose|c: int| 0 <= c < channels && (#[trigger] rest[c]).len() == 0;
    assert(rest[c] == planes[c].skip(total(sizes) as int));
    if sizes.len() > 0 {
        let init = sizes.drop_last();
        lemma_streamed_portions(pre, rate, channels, planes, init);
        let mid = pre.after_portions(rate, channels, planes, init);
        let last = portion(planes, channels as nat, total(init), sizes.last());
        assert(last.len() == sizes.last() * channels);
        let f = mid.framing_with(channels, last);
        lemma_drain_leaves(f, rate, channels as int);
        assert(post.framing() == drain(f, rate, channels as int).0);
        assert(mid.encoded(post, rate, channels, last));
        lemma_closing_adds_nothing(mid, post, rate, channels, last, sizes.last());
    }
}

} // verus!
