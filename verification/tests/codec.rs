use qoar::encoder::slice_scaler::{LinearScaler, SliceScaler, VectorScaler};
use qoar::layout::{
    compute_frame_size, pack_file_header, pack_frame_header, pack_lanes, unpack_file_header,
    unpack_frame_header, unpack_lanes, unpack_lms,
};
use qoar::simd::{const_splat, LmsStateVector, SimdLanes};
use qoar::tables::{dequantize, div_wide, quantize};
use qoar::{div, QoaLmsState, QoaSlice, DEQUANT_TABLE, MAGIC, QUANT_TABLE, RECIP_TABLE, SF_TABLE};

const WINDOW: [i16; 20] = [
    0, 100, -200, 300, -400, 500, -600, 700, -800, 900, -1000, 1100, -1200, 1300, -1400, 1500,
    -1600, 1700, -1800, 1900,
];

fn noise(len: usize) -> Vec<i16> {
    let mut out = Vec::new();
    let mut x: u64 = 12345;
    for _ in 0..len {
        x = (x * 1103515245 + 12345) % (1 << 31);
        out.push((((x >> 8) % 20001) as i64 - 10000) as i16);
    }
    out
}

#[test]
fn the_magic_number_spells_qoaf() {
    assert_eq!(MAGIC.to_be_bytes(), *b"qoaf");
}

#[test]
fn the_reciprocals_belong_to_the_scale_factors() {
    for i in 0..16 {
        let exact = 65536.0 / SF_TABLE[i] as f64;
        assert_eq!(RECIP_TABLE[i], exact.ceil() as i64);
        assert_eq!(SF_TABLE[i], ((i + 1) as f64).powf(2.75).round() as i32);
    }
}

#[test]
fn the_dequantized_residuals_come_in_pairs() {
    for row in DEQUANT_TABLE.iter() {
        for pair in 0..4 {
            assert!(row[2 * pair] > 0);
            assert_eq!(row[2 * pair + 1], -row[2 * pair]);
        }
    }
    assert_eq!(QUANT_TABLE[8], 0);
    assert_eq!(QUANT_TABLE[0], 7);
    assert_eq!(QUANT_TABLE[16], 6);
}

#[test]
fn the_rounding_divide_gives_known_quotients() {
    assert_eq!(div(0, 0), 0);
    assert_eq!(div(100, 0), 100);
    assert_eq!(div(100, 1), 14);
    assert_eq!(div(-100, 1), -14);
    assert_eq!(div(1, 15), 1);
    assert_eq!(div(-1, 15), -1);
    assert_eq!(div(32767, 15), 16);
    assert_eq!(div(-32768, 15), -16);
    assert_eq!(div(1000, 7), 3);
    assert_eq!(div(-1000, 7), -3);
    assert_eq!(div(3, 1), 1);
    assert_eq!(div(-3, 1), -1);
}

#[test]
fn the_rounding_divide_does_not_overflow_at_the_ends() {
    assert_eq!(div(i32::MAX, 0), i32::MAX);
    assert_eq!(div(i32::MIN, 0), i32::MIN);
    assert_eq!(div(i32::MAX, 15), 1048576);
    assert_eq!(div_wide(0x4_0000_0000, 0), 0x4_0000_0000);
    assert_eq!(div_wide(-0x4_0000_0000, 15), -8388608);
}

#[test]
fn a_residual_is_quantized_and_dequantized_by_the_tables() {
    assert_eq!(quantize(0), 0);
    assert_eq!(quantize(-100), 7);
    assert_eq!(quantize(100), 6);
    assert_eq!(quantize(-1), 1);
    assert_eq!(quantize(3), 2);
    assert_eq!(quantize(5), 4);
    assert_eq!(dequantize(0, 0), 1);
    assert_eq!(dequantize(15, 7), -14336);
    assert_eq!(dequantize(7, 4), 1368);
}

#[test]
fn the_initial_state_predicts_silence() {
    let lms = QoaLmsState::default();
    assert_eq!(lms.history, [0, 0, 0, 0]);
    assert_eq!(lms.weights, [0, 0, -8192, 16384]);
    assert_eq!(lms.predict(), 0);
}

#[test]
fn the_prediction_is_the_weighted_sum_shifted_by_thirteen() {
    let lms = QoaLmsState { history: [100, -200, 300, -400], weights: [1000, -2000, 3000, -4000] };
    assert_eq!(lms.predict(), 366);
    let negative = QoaLmsState { history: [1, 0, 0, 0], weights: [-1, 0, 0, 0] };
    assert_eq!(negative.predict(), -1);
}

#[test]
fn the_prediction_is_cut_to_thirty_two_bits() {
    let lms = QoaLmsState {
        history: [32767, -32768, 32767, -32768],
        weights: [i32::MAX, i32::MIN, i32::MAX, i32::MIN],
    };
    assert_eq!(lms.predict(), -524296);
}

#[test]
fn an_update_moves_the_weights_by_the_sign_of_the_old_history() {
    let mut lms =
        QoaLmsState { history: [100, -200, 300, -400], weights: [1000, -2000, 3000, -4000] };
    lms.update(123, -50);
    assert_eq!(lms.history, [-200, 300, -400, 123]);
    assert_eq!(lms.weights, [996, -1996, 2996, -3996]);
}

#[test]
fn an_update_wraps_the_weights() {
    let mut lms = QoaLmsState {
        history: [-5, 0, 7, -1],
        weights: [i32::MAX, 5, i32::MIN, -2147483600],
    };
    lms.update(-7, 14336);
    assert_eq!(lms.history, [0, 7, -1, -7]);
    assert_eq!(lms.weights, [2147482751, 901, -2147482752, 2147482800]);
}

#[test]
fn a_file_header_gives_back_its_sample_count() {
    for n in [0u32, 1, 5120, 1000, u32::MAX] {
        let word = pack_file_header(n);
        assert_eq!(word >> 32, 0x716f_6166);
        assert_eq!(unpack_file_header(word), Ok(n));
    }
}

#[test]
fn a_word_without_the_magic_number_is_no_file_header() {
    assert_eq!(unpack_file_header(0), Err([0, 0, 0, 0]));
    assert_eq!(unpack_file_header(0x5249_4646_0000_0010), Err(*b"RIFF"));
}

#[test]
fn a_frame_header_gives_back_its_fields() {
    let word = pack_frame_header(2, 48000, 45, 96);
    assert_eq!(word, 0x0200_bb80_002d_0060);
    assert_eq!(unpack_frame_header(word), (2, 48000, 45, 96));
    for (channels, rate, samples, size) in
        [(1u8, 1u32, 1u16, 0u16), (255, 0xff_ffff, 65535, 65535), (8, 44100, 5120, 16576)]
    {
        let word = pack_frame_header(channels, rate, samples, size);
        assert_eq!(unpack_frame_header(word), (channels, rate, samples, size));
    }
}

#[test]
fn the_frame_size_counts_the_words_of_the_frame() {
    assert_eq!(compute_frame_size(1, 256), 2072);
    assert_eq!(compute_frame_size(2, 3), 96);
    assert_eq!(compute_frame_size(255, 256), ((24 * 255 + 8 * 256 * 255) % 65536) as u16);
}

#[test]
fn a_state_of_sixteen_bit_lanes_survives_serialization() {
    let lms =
        QoaLmsState { history: [-32768, 32767, -1, 0], weights: [1, -2, 16384, -8192] };
    let history = pack_lanes(&lms.history);
    let weights = pack_lanes(&lms.weights);
    assert_eq!(history, 0x8000_7fff_ffff_0000);
    assert_eq!(weights, 0x0001_fffe_4000_e000);
    assert_eq!(unpack_lanes(history), lms.history);
    assert_eq!(unpack_lms(history, weights), lms);
}

#[test]
fn a_lane_beyond_sixteen_bits_is_cut() {
    assert_eq!(pack_lanes(&[0x1_0001, -0x1_0001, 0, 0]), 0x0001_ffff_0000_0000);
}

#[test]
fn a_slice_survives_packing() {
    let mut resid = [0u8; 20];
    for i in 0..20 {
        resid[i] = ((i * 5 + 3) % 8) as u8;
    }
    for quant in 0..16u8 {
        let slice = QoaSlice { quant, resid };
        let mut back = QoaSlice::default();
        back.unpack(slice.pack());
        assert_eq!(back, slice);
    }
}

#[test]
fn the_first_residual_stands_highest() {
    let mut resid = [0u8; 20];
    resid[0] = 7;
    resid[19] = 5;
    assert_eq!(QoaSlice { quant: 15, resid }.pack(), 0xfe00_0000_0000_0005);
}

#[test]
fn a_sample_is_scaled_as_the_tables_say() {
    let mut lms = QoaLmsState::default();
    let (quantized, dequantized, reconst) = LinearScaler::scale_sample(1000, 7, &mut lms);
    assert_eq!(quantized, 2);
    assert_eq!(dequantized, 760);
    assert_eq!(reconst, 760);
    assert_eq!(lms.history, [0, 0, 0, 760]);
    assert_eq!(lms.weights, [47, 47, -8145, 16431]);
}

#[test]
fn a_reconstructed_sample_is_clamped() {
    let mut lms = QoaLmsState { history: [0, 0, 0, 32767], weights: [0, 0, 0, 16384] };
    let (_, dequantized, reconst) = LinearScaler::scale_sample(32767, 15, &mut lms);
    assert_eq!(lms.history[3], 32767);
    assert_eq!(reconst, 32767);
    assert!(dequantized != 0);
}

#[test]
fn a_slice_is_scaled_to_a_known_word() {
    let mut lms = QoaLmsState::default();
    let word = LinearScaler::scale(&WINDOW, &mut lms, 0, 1);
    assert_eq!(word, 0xa048_2ac6_aef2_ef2e);
    assert_eq!(lms.history, [-697, 1178, -1787, 2217]);
    assert_eq!(lms.weights, [2520, -2776, -5078, 13038]);
}

#[test]
fn a_short_slice_stands_in_the_high_bits() {
    let mut lms = QoaLmsState::default();
    let word = LinearScaler::scale(&WINDOW[..7], &mut lms, 0, 1);
    assert_eq!(word, 0x704a_b280_0000_0000);
    assert_eq!(word & ((1 << 39) - 1), 0);
    assert_eq!(lms.history, [529, -312, 226, -628]);
    assert_eq!(lms.weights, [116, -226, -7904, 16064]);
}

#[test]
fn silence_is_scaled_by_the_first_scale_factor() {
    let mut lms = QoaLmsState::default();
    let word = LinearScaler::scale(&[0i16; 20], &mut lms, 0, 1);
    assert_eq!(word, 0x00d1_0d02_0005_1451);
    assert_eq!(word >> 60, 0);
}

#[test]
fn an_empty_block_is_scaled_to_nothing() {
    let mut lms = QoaLmsState::default();
    assert_eq!(LinearScaler::scale(&[], &mut lms, 0, 1), 0);
    assert_eq!(lms, QoaLmsState::default());
}

#[test]
fn a_channel_is_picked_out_of_interleaved_samples() {
    let mut interleaved = Vec::new();
    for s in WINDOW {
        interleaved.push(-s);
        interleaved.push(s);
        interleaved.push(7);
    }
    let mut lms = QoaLmsState::default();
    assert_eq!(LinearScaler::scale(&interleaved, &mut lms, 1, 3), 0xa048_2ac6_aef2_ef2e);
}

#[test]
fn the_two_scalers_agree() {
    let samples = noise(40 * 16);
    let mut linear = [QoaLmsState::default(); 2];
    let mut vector = [QoaLmsState::default(); 2];
    for block in samples.chunks(40) {
        for chn in 0..2 {
            let a = LinearScaler::scale(block, &mut linear[chn], chn, 2);
            let b = VectorScaler::scale(block, &mut vector[chn], chn, 2);
            assert_eq!(a, b);
            assert_eq!(linear[chn], vector[chn]);
        }
    }
    let mut a = QoaLmsState::default();
    let mut b = QoaLmsState::default();
    assert_eq!(
        LinearScaler::scale(&samples[..13], &mut a, 0, 1),
        VectorScaler::scale(&samples[..13], &mut b, 0, 1)
    );
    assert_eq!(a, b);
}

#[test]
fn the_lanes_scale_a_sample_as_the_scale_factors_do() {
    let start = QoaLmsState { history: [10, -20, 300, -4000], weights: [100, -200, -8000, 16000] };
    let lanes = LmsStateVector::from(start);
    let (quantized, dequantized, reconst) =
        VectorScaler::scale_sample(const_splat(-1234), &lanes);
    for sf in 0..16 {
        let mut lms = start;
        let (q, dq, re) = LinearScaler::scale_sample(-1234, sf, &mut lms);
        assert_eq!(quantized[sf], q as i32);
        assert_eq!(dequantized[sf], dq);
        assert_eq!(reconst[sf], re as i32);
    }
}

#[test]
fn the_lanes_divide_and_predict_like_the_scalar_forms() {
    let mut values = [0i64; 16];
    for i in 0..16 {
        values[i] = (i as i64 - 8) * 12345;
    }
    let quotients = qoar::simd::div_wide(values);
    let mut narrow = [0i32; 16];
    for i in 0..16 {
        assert_eq!(quotients[i], div(values[i] as i32, i) as i64);
        narrow[i] = values[i] as i32;
    }
    let quotients = qoar::simd::div(narrow);
    for i in 0..16 {
        assert_eq!(quotients[i], div(narrow[i], i));
    }
    assert_eq!(qoar::simd::div([i32::MIN; 16])[0], i32::MIN);
    assert_eq!(qoar::simd::div([i32::MAX; 16])[0], i32::MAX);
    assert_eq!(qoar::simd::div([7; 16])[15], 1);
    assert_eq!(qoar::simd::div([-2049; 16])[15], -1);
    assert_eq!(qoar::simd::div([-4096; 16])[15], -2);
    let start = QoaLmsState { history: [1, -2, 3, -4], weights: [4000, 3000, 2000, 1000] };
    let mut lanes = LmsStateVector::from(start);
    assert_eq!(lanes.predict(), const_splat(start.predict()));
    let mut residuals = [0i32; 16];
    for sf in 0..16 {
        residuals[sf] = DEQUANT_TABLE[sf][3];
    }
    lanes.update(const_splat(55), residuals);
    for sf in 0..16 {
        let mut lms = start;
        lms.update(55, residuals[sf]);
        assert_eq!(lanes.collapse(sf), lms);
    }
}

#[test]
fn the_first_of_the_least_lanes_is_chosen() {
    let mut lanes = [9u64; 16];
    assert_eq!(lanes.min_lane(), 0);
    lanes[5] = 3;
    lanes[11] = 3;
    assert_eq!(lanes.min_lane(), 5);
    lanes[15] = 0;
    assert_eq!(lanes.min_lane(), 15);
}
