//! The fixed tables of the format and the rounding divide built on them.

use vstd::prelude::*;

verus! {

/// The four bytes `"qoaf"` that open every stream, read as a big-endian number.
pub const MAGIC: u32 = 0x716f_6166;

/// Samples of one channel that a slice holds.
pub const SLICE_LEN: usize = 20;

/// Samples of one channel that a frame holds at most: 256 slices.
pub const FRAME_LEN: usize = 5120;

/// Maps a scaled residual, clamped to `[-8, 8]` and offset by 8, to its
/// three-bit quantized index.
pub const QUANT_TABLE: [u8; 17] = [7, 7, 7, 5, 5, 3, 3, 1, 0, 0, 2, 2, 4, 4, 6, 6, 6];

/// The sixteen scale factors, `round((i + 1)^2.75)`.
pub const SF_TABLE: [i32; 16] = [
    1, 7, 21, 45, 84, 138, 211, 304, 421, 562, 731, 928, 1157, 1419, 1715, 2048,
];

/// Fixed-point reciprocals of the scale factors, `2^16 / SF_TABLE[i]` rounded up.
pub const RECIP_TABLE: [i64; 16] = [
    65536, 9363, 3121, 1457, 781, 475, 311, 216, 156, 117, 90, 71, 57, 47, 39, 32,
];

/// The dequantized residual for each scale factor (row) and quantized index
/// (column).
pub const DEQUANT_TABLE: [[i32; 8]; 16] = [
    [1, -1, 3, -3, 5, -5, 7, -7],
    [5, -5, 18, -18, 32, -32, 49, -49],
    [16, -16, 53, -53, 95, -95, 147, -147],
    [34, -34, 113, -113, 203, -203, 315, -315],
    [63, -63, 210, -210, 378, -378, 588, -588],
    [104, -104, 345, -345, 621, -621, 966, -966],
    [158, -158, 528, -528, 950, -950, 1477, -1477],
    [228, -228, 760, -760, 1368, -1368, 2128, -2128],
    [316, -316, 1053, -1053, 1895, -1895, 2947, -2947],
    [422, -422, 1405, -1405, 2529, -2529, 3934, -3934],
    [548, -548, 1828, -1828, 3290, -3290, 5117, -5117],
    [696, -696, 2320, -2320, 4176, -4176, 6496, -6496],
    [868, -868, 2893, -2893, 5207, -5207, 8099, -8099],
    [1064, -1064, 3548, -3548, 6386, -6386, 9933, -9933],
    [1286, -1286, 4288, -4288, 7718, -7718, 12005, -12005],
    [1536, -1536, 5120, -5120, 9216, -9216, 14336, -14336],
];

/// The sign of an integer: 1, 0 or -1.
pub open spec fn sign(x: int) -> int {
    if x > 0 {
        1
    } else if x < 0 {
        -1
    } else {
        0
    }
}

/// `x` limited to the interval `[lo, hi]`.
pub open spec fn clamp(x: int, lo: int, hi: int) -> int {
    if x < lo {
        lo
    } else if x > hi {
        hi
    } else {
        x
    }
}

/// The rounding divide of `v` by scale factor number `sf`: the product with
/// the reciprocal is rounded to the nearest multiple of `2^16`, and the
/// quotient is then moved by one where its sign differs from that of `v`.
pub open spec fn spec_div(v: int, sf: int) -> int {
    let n = (v * RECIP_TABLE[sf] + 32768) / 65536;
    n + sign(v) - sign(n)
}

/// The quantized index of a scaled residual.
pub open spec fn spec_quantize(scaled: int) -> int {
    QUANT_TABLE[clamp(scaled, -8, 8) + 8] as int
}

/// The dequantized residual of index `q` under scale factor number `sf`.
pub open spec fn spec_dequantize(sf: int, q: int) -> int {
    DEQUANT_TABLE[sf][q] as int
}

/// The product of a value of at most 35 bits and a reciprocal stays within 51 bits.
proof fn lemma_scaled_product(v: int, recip: int)
    by (nonlinear_arith)
    requires
        -0x4_0000_0000 <= v <= 0x4_0000_0000,
        32 <= recip <= 65536,
    ensures
        -0x4_0000_0000 * 65536 <= v * recip <= 0x4_0000_0000 * 65536,
        v > 0 ==> v * recip >= v * 32,
        v < 0 ==> v * recip <= v * 32,
        v >= 0 ==> v * recip <= v * 65536,
        v <= 0 ==> v * recip >= v * 65536,
{
}

/// An arithmetic shift to the right by 16 is the floor of the division by `2^16`.
proof fn lemma_shr16(t: i64)
    by (bit_vector)
    ensures
        t >> 16 == t / 65536,
{
}

/// The rounding divide on 64-bit values, for residuals that may exceed 32 bits.
pub fn div_wide(v: i64, sf: usize) -> (r: i64)
    requires
        sf < 16,
        -0x4_0000_0000 <= v <= 0x4_0000_0000,
    ensures
        r == spec_div(v as int, sf as int),
        v >= 0 ==> 0 <= r <= v,
        v <= 0 ==> v <= r <= 0,
{
    let recip = RECIP_TABLE[sf];
    proof {
        lemma_scaled_product(v as int, recip as int);
    }
    let t: i64 = v * recip + 32768;
    let n: i64 = t >> 16;
    proof {
        lemma_shr16(t);
    }
    let sv: i64 = if v > 0 { 1 } else if v < 0 { -1 } else { 0 };
    let sn: i64 = if n > 0 { 1 } else if n < 0 { -1 } else { 0 };
    n + sv - sn
}

/// The rounding divide of `v` by scale factor number `sf`.
pub fn div(v: i32, sf: usize) -> (r: i32)
    requires
        sf < 16,
    ensures
        r == spec_div(v as int, sf as int),
{
    let r = div_wide(v as i64, sf);
    r as i32
}

/// Looks up the quantized index of a scaled residual.
pub fn quantize(scaled: i64) -> (q: u8)
    ensures
        q == spec_quantize(scaled as int),
        q < 8,
{
    let clamped: i64 = if scaled < -8 { -8 } else if scaled > 8 { 8 } else { scaled };
    QUANT_TABLE[(clamped + 8) as usize]
}

/// Looks up the dequantized residual of index `q` under scale factor number `sf`.
pub fn dequantize(sf: usize, q: u8) -> (d: i32)
    requires
        sf < 16,
        q < 8,
    ensures
        d == spec_dequantize(sf as int, q as int),
        -14336 <= d <= 14336,
{
    DEQUANT_TABLE[sf][q as usize]
}

} // verus!
