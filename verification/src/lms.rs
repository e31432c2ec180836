//! The per-channel LMS predictor.

use vstd::prelude::*;

verus! {

/// The state of the predictor of one channel: the last four reconstructed
/// samples and the four adaptive weights.
#[derive(Copy, Clone, Debug, PartialEq, Eq)]
pub struct QoaLmsState {
    /// The last four reconstructed samples, oldest first.
    pub history: [i32; 4],
    /// The weight of each entry of the history.
    pub weights: [i32; 4],
}

/// The weights that every channel starts with.
pub const INITIAL_WEIGHTS: [i32; 4] = [0, 0, -8192, 16384];

/// The two's-complement reduction of an integer to 32 bits.
pub open spec fn wrap_i32(x: int) -> int {
    (x + 0x8000_0000) % 0x1_0000_0000 - 0x8000_0000
}

/// The product of two 32-bit values stays within 63 bits.
proof fn lemma_product_bound(a: int, b: int)
    by (nonlinear_arith)
    requires
        -0x8000_0000 <= a < 0x8000_0000,
        -0x8000_0000 <= b < 0x8000_0000,
    ensures
        -0x4000_0000_0000_0000 <= a * b <= 0x4000_0000_0000_0000,
{
}

/// An arithmetic shift to the right by 13 is the floor of the division by
/// `2^13`, and narrowing to 32 bits is the two's-complement reduction.
proof fn lemma_shr13_narrow(s: i128)
    by (bit_vector)
    ensures
        s >> 13 == s / 8192,
        ((s >> 13) as i32) == ((s >> 13) + 0x8000_0000) % 0x1_0000_0000 - 0x8000_0000,
{
}

/// An arithmetic shift to the right by 4 is the floor of the division by 16.
proof fn lemma_shr4(r: i32)
    by (bit_vector)
    ensures
        r >> 4 == r / 16,
{
}

impl QoaLmsState {
    /// The sum of the products of each history entry with its weight.
    pub open spec fn dot(self) -> int {
        self.history[0] * self.weights[0] + self.history[1] * self.weights[1] + self.history[2]
            * self.weights[2] + self.history[3] * self.weights[3]
    }

    /// The predicted next sample: the weighted sum divided by `2^13`, rounded
    /// down and reduced to 32 bits.
    pub open spec fn spec_predict(self) -> int {
        wrap_i32(self.dot() / 8192)
    }

    /// The weight of lane `i` after an update with `residual`: it moves by
    /// `residual / 16`, rounded down, towards the sign of the history entry of
    /// that lane.
    pub open spec fn updated_weight(self, i: int, residual: i32) -> int {
        let delta = residual as int / 16;
        wrap_i32(self.weights[i] + if self.history[i] < 0 { -delta } else { delta })
    }

    /// The state after `sample` was reconstructed with the dequantized
    /// `residual`: each weight is adjusted by the history entry that it
    /// belonged to before the shift, the oldest history entry is dropped and
    /// `sample` becomes the newest.
    pub open spec fn spec_update(self, sample: i32, residual: i32) -> QoaLmsState {
        QoaLmsState {
            history: [self.history[1], self.history[2], self.history[3], sample],
            weights: [
                self.updated_weight(0, residual) as i32,
                self.updated_weight(1, residual) as i32,
                self.updated_weight(2, residual) as i32,
                self.updated_weight(3, residual) as i32,
            ],
        }
    }

    /// The state that every channel starts with.
    pub open spec fn spec_default() -> QoaLmsState {
        QoaLmsState { history: [0, 0, 0, 0], weights: INITIAL_WEIGHTS }
    }

    /// Predicts the next sample from the history.
    pub fn predict(&self) -> (p: i32)
        ensures
            p == self.spec_predict(),
    {
        let h0 = self.history[0] as i128;
        let h1 = self.history[1] as i128;
        let h2 = self.history[2] as i128;
        let h3 = self.history[3] as i128;
        let w0 = self.weights[0] as i128;
        let w1 = self.weights[1] as i128;
        let w2 = self.weights[2] as i128;
        let w3 = self.weights[3] as i128;
        proof {
            lemma_product_bound(h0 as int, w0 as int);
            lemma_product_bound(h1 as int, w1 as int);
            lemma_product_bound(h2 as int, w2 as int);
            lemma_product_bound(h3 as int, w3 as int);
        }
        let sum: i128 = h0 * w0 + h1 * w1 + h2 * w2 + h3 * w3;
        proof {
            lemma_shr13_narrow(sum);
        }
        #[verifier::truncate]
        ((sum >> 13) as i32)
    }

    /// Adapts the weights to the dequantized `residual` and shifts `sample`
    /// into the history.
    pub fn update(&mut self, sample: i16, residual: i32)
        ensures
            *final(self) == old(self).spec_update(sample as i32, residual),
    {
        let delta: i32 = residual >> 4;
        proof {
            lemma_shr4(residual);
        }
        let mut i: usize = 0;
        while i < 4
            invariant
                i <= 4,
                delta == residual as int / 16,
                self.history == old(self).history,
                forall|j: int| 0 <= j < i ==> self.weights[j] == old(self).updated_weight(j, residual),
                forall|j: int| i <= j < 4 ==> self.weights[j] == old(self).weights[j],
            decreases 4 - i,
        {
            let step: i32 = if self.history[i] < 0 { -delta } else { delta };
            self.weights[i] = self.weights[i].wrapping_add(step);
            i += 1;
        }
        self.history = [self.history[1], self.history[2], self.history[3], sample as i32];
        assert(self.weights =~= old(self).spec_update(sample as i32, residual).weights);
        assert(self.history =~= old(self).spec_update(sample as i32, residual).history);
    }
}

impl Default for QoaLmsState {
    fn default() -> (s: Self)
        ensures
            s == QoaLmsState::spec_default(),
    {
        QoaLmsState { history: [0, 0, 0, 0], weights: INITIAL_WEIGHTS }
    }
}

} // verus!
