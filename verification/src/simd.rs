//! Sixteen-lane forms of the predictor and the rounding divide: lane `i`
//! works with scale factor number `i`.

use vstd::prelude::*;
use vstd::std_specs::convert::FromSpecImpl;
use crate::lms::QoaLmsState;
use crate::tables::spec_div;

verus! {

/// An array of sixteen lanes that all hold `v`.
pub fn const_splat(v: i32) -> (lanes: [i32; 16])
    ensures
        forall|i: int| 0 <= i < 16 ==> lanes[i] == v,
{
    [v, v, v, v, v, v, v, v, v, v, v, v, v, v, v, v]
}

/// The rounding divide of each lane by the scale factor of its number.
pub fn div(v: [i32; 16]) -> (lanes: [i32; 16])
    ensures
        forall|i: int| 0 <= i < 16 ==> lanes[i] == spec_div(v[i] as int, i),
{
    let mut lanes = v;
    let mut sf: usize = 0;
    while sf < 16
        invariant
            sf <= 16,
            forall|i: int| 0 <= i < sf ==> lanes[i] == spec_div(v[i] as int, i),
        decreases 16 - sf,
    {
        lanes[sf] = crate::tables::div(v[sf], sf);
        sf += 1;
    }
    lanes
}

/// The rounding divide of each lane by the scale factor of its number, on
/// 64-bit lanes, for residuals that may exceed 32 bits.
pub fn div_wide(v: [i64; 16]) -> (lanes: [i64; 16])
    requires
        forall|i: int| 0 <= i < 16 ==> -0x4_0000_0000 <= #[trigger] v[i] <= 0x4_0000_0000,
    ensures
        forall|i: int| 0 <= i < 16 ==> lanes[i] == spec_div(v[i] as int, i),
{
    let mut lanes = v;
    let mut sf: usize = 0;
    while sf < 16
        invariant
            sf <= 16,
            forall|i: int| 0 <= i < 16 ==> -0x4_0000_0000 <= #[trigger] v[i] <= 0x4_0000_0000,
            forall|i: int| 0 <= i < sf ==> lanes[i] == spec_div(v[i] as int, i),
        decreases 16 - sf,
    {
        lanes[sf] = crate::tables::div_wide(v[sf], sf);
        sf += 1;
    }
    lanes
}

/// The choice of one lane out of sixteen.
pub trait SimdLanes<T> {
    /// The values of the lanes.
    spec fn lane_values(self) -> Seq<T>;

    /// Whether `a` is at most `b`.
    spec fn lane_le(a: T, b: T) -> bool;

    /// The number of the first lane that holds the least value.
    fn min_lane(self) -> (lane: usize)
        ensures
            lane < 16,
            forall|i: int| 0 <= i < 16 ==> Self::lane_le(self.lane_values()[lane as int], #[trigger] self.lane_values()[i]),
            forall|i: int| 0 <= i < lane ==> !Self::lane_le(#[trigger] self.lane_values()[i], self.lane_values()[lane as int]),
    ;
}

impl SimdLanes<u64> for [u64; 16] {
    open spec fn lane_values(self) -> Seq<u64> {
        self@
    }

    open spec fn lane_le(a: u64, b: u64) -> bool {
        a <= b
    }

    fn min_lane(self) -> (lane: usize) {
        let mut lane: usize = 0;
        let mut i: usize = 1;
        while i < 16
            invariant
                1 <= i <= 16,
                lane < i,
                forall|j: int| 0 <= j < i ==> self[lane as int] <= #[trigger] self[j],
                forall|j: int| 0 <= j < lane ==> #[trigger] self[j] > self[lane as int],
            decreases 16 - i,
        {
            if self[i] < self[lane] {
                lane = i;
            }
            i += 1;
        }
        lane
    }
}

/// The predictor state of one channel as two vectors of four lanes.
#[derive(Copy, Clone)]
pub struct LmsState {
    pub history: [i32; 4],
    pub weights: [i32; 4],
}

impl View for LmsState {
    type V = QoaLmsState;

    open spec fn view(&self) -> QoaLmsState {
        QoaLmsState { history: self.history, weights: self.weights }
    }
}

impl LmsState {
    /// Predicts the next sample from the history.
    pub fn predict(&self) -> (p: i32)
        ensures
            p == self@.spec_predict(),
    {
        let scalar = QoaLmsState { history: self.history, weights: self.weights };
        scalar.predict()
    }

    /// Adapts the weights to the dequantized `residual` and shifts `sample`
    /// into the history.
    pub fn update(&mut self, sample: i32, residual: i32)
        requires
            -32768 <= sample <= 32767,
        ensures
            final(self)@ == old(self)@.spec_update(sample, residual),
    {
        let mut scalar = QoaLmsState { history: self.history, weights: self.weights };
        scalar.update(sample as i16, residual);
        self.history = scalar.history;
        self.weights = scalar.weights;
    }
}

impl From<LmsState> for QoaLmsState {
    fn from(value: LmsState) -> (s: QoaLmsState) {
        QoaLmsState { history: value.history, weights: value.weights }
    }
}

impl FromSpecImpl<LmsState> for QoaLmsState {
    open spec fn obeys_from_spec() -> bool {
        true
    }

    open spec fn from_spec(value: LmsState) -> QoaLmsState {
        value@
    }
}

impl From<QoaLmsState> for LmsState {
    fn from(value: QoaLmsState) -> (s: LmsState) {
        LmsState { history: value.history, weights: value.weights }
    }
}

impl FromSpecImpl<QoaLmsState> for LmsState {
    open spec fn obeys_from_spec() -> bool {
        true
    }

    open spec fn from_spec(value: QoaLmsState) -> LmsState {
        LmsState { history: value.history, weights: value.weights }
    }
}

/// The predictor states of sixteen attempts at one slice, one for each scale
/// factor.
#[derive(Copy, Clone)]
pub struct LmsStateVector(pub [LmsState; 16]);

impl LmsStateVector {
    /// The state of lane `sf`.
    pub open spec fn lane(self, sf: int) -> QoaLmsState {
        self.0[sf]@
    }

    /// The vector whose sixteen lanes all hold `value`.
    pub open spec fn splat(value: QoaLmsState) -> LmsStateVector {
        let lane = LmsState { history: value.history, weights: value.weights };
        LmsStateVector(
            [
                lane,
                lane,
                lane,
                lane,
                lane,
                lane,
                lane,
                lane,
                lane,
                lane,
                lane,
                lane,
                lane,
                lane,
                lane,
                lane,
            ],
        )
    }

    /// Sixteen lanes that all start from `state`.
    pub fn new(state: LmsState) -> (v: Self)
        ensures
            forall|sf: int| 0 <= sf < 16 ==> v.0[sf] == state,
    {
        LmsStateVector(
            [
                state,
                state,
                state,
                state,
                state,
                state,
                state,
                state,
                state,
                state,
                state,
                state,
                state,
                state,
                state,
                state,
            ],
        )
    }

    /// The prediction of each lane.
    pub fn predict(&self) -> (p: [i32; 16])
        ensures
            forall|sf: int| 0 <= sf < 16 ==> p[sf] == self.lane(sf).spec_predict(),
    {
        let mut p = const_splat(0);
        let mut sf: usize = 0;
        while sf < 16
            invariant
                sf <= 16,
                forall|i: int| 0 <= i < sf ==> p[i] == self.lane(i).spec_predict(),
            decreases 16 - sf,
        {
            p[sf] = self.0[sf].predict();
            sf += 1;
        }
        p
    }

    /// Updates each lane with its own sample and residual.
    pub fn update(&mut self, sample: [i32; 16], residual: [i32; 16])
        requires
            forall|sf: int| 0 <= sf < 16 ==> -32768 <= #[trigger] sample[sf] <= 32767,
        ensures
            forall|sf: int|
                0 <= sf < 16 ==> final(self).lane(sf) == old(self).lane(sf).spec_update(
                    sample[sf],
                    residual[sf],
                ),
    {
        let mut sf: usize = 0;
        while sf < 16
            invariant
                sf <= 16,
                forall|i: int| 0 <= i < 16 ==> -32768 <= #[trigger] sample[i] <= 32767,
                forall|i: int|
                    0 <= i < sf ==> #[trigger] self.lane(i) == old(self).lane(i).spec_update(
                        sample[i],
                        residual[i],
                    ),
                forall|i: int| sf <= i < 16 ==> #[trigger] self.lane(i) == old(self).lane(i),
            decreases 16 - sf,
        {
            let ghost before = *self;
            let mut lane = self.0[sf];
            lane.update(sample[sf], residual[sf]);
            self.0[sf] = lane;
            assert forall|i: int| 0 <= i < 16 && i != sf implies #[trigger] self.lane(i)
                == before.lane(i) by {
                assert(self.0[i] == before.0[i]);
            }
            assert(self.lane(sf as int) == lane@);
            assert(before.lane(sf as int) == old(self).lane(sf as int));
            sf += 1;
        }
    }

    /// The state of lane `sf` alone.
    pub fn collapse(self, sf: usize) -> (s: QoaLmsState)
        requires
            sf < 16,
        ensures
            s == self.lane(sf as int),
    {
        QoaLmsState::from(self.0[sf])
    }
}

impl From<QoaLmsState> for LmsStateVector {
    fn from(value: QoaLmsState) -> (v: LmsStateVector) {
        let v = LmsStateVector::new(LmsState::from(value));
        assert(v.0 =~= LmsStateVector::splat(value).0);
        v
    }
}

impl FromSpecImpl<QoaLmsState> for LmsStateVector {
    open spec fn obeys_from_spec() -> bool {
        true
    }

    open spec fn from_spec(value: QoaLmsState) -> LmsStateVector {
        LmsStateVector::splat(value)
    }
}

} // verus!
