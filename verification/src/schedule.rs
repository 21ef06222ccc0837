//! Noise level, the retrieval hard gate, and the refresh schedule.
//!
//! The hard gate is asymmetric between training and inference. The asymmetry keeps
//! the low-noise band from turning into a copying task during training while
//! still using it at inference, where it helps most.
use crate::binary32::{Binary32, ONE_BITS};
use vstd::prelude::*;

verus! {

/// A masked-diffusion noise level, `t` in `[0, 1]`.
///
/// `t = 1` is fully masked, `t = 0` is clean. Values outside the unit
/// interval and non-finite values are rejected at construction.
#[derive(Clone, Copy, Debug)]
pub struct NoiseLevel {
    t: Binary32,
}

/// Whether a number lies in the closed unit interval.
pub open spec fn in_unit_interval(t: Binary32) -> bool {
    t.finite() && 0 <= t.units() <= crate::binary32::one_units()
}

/// Whether a number lies in the closed unit interval.
pub fn is_in_unit_interval(t: Binary32) -> (b: bool)
    ensures
        b == in_unit_interval(t),
{
    proof {
        crate::binary32::lemma_one_units();
    }
    let zero: Binary32 = Binary32::from_bits(0);
    let one: Binary32 = Binary32::from_bits(ONE_BITS);
    t.is_finite() && zero.at_most(t) && t.at_most(one)
}

/// What a number becomes as a noise level: itself inside the unit interval,
/// the nearer end outside it, and one where it is not finite.
pub open spec fn saturated(t: Binary32) -> Binary32 {
    if !t.finite() {
        Binary32 { bits: ONE_BITS }
    } else if t.units() < 0 {
        Binary32 { bits: 0 }
    } else if t.units() > crate::binary32::one_units() {
        Binary32 { bits: ONE_BITS }
    } else {
        t
    }
}

impl NoiseLevel {
    /// The number this level holds.
    pub closed spec fn value(self) -> Binary32 {
        self.t
    }

    /// Every level that a constructor returns lies in the unit interval.
    pub open spec fn valid(self) -> bool {
        in_unit_interval(self.value())
    }

    /// Fully masked.
    pub fn masked() -> (t: Self)
        ensures
            t.value().bits == ONE_BITS,
            t.valid(),
    {
        proof {
            crate::binary32::lemma_one_units();
        }
        NoiseLevel { t: Binary32::from_bits(ONE_BITS) }
    }

    /// Fully denoised.
    pub fn clean() -> (t: Self)
        ensures
            t.value().bits == 0,
            t.valid(),
    {
        proof {
            crate::binary32::lemma_one_units();
        }
        NoiseLevel { t: Binary32::from_bits(0) }
    }

    /// Construct a noise level, rejecting anything outside `[0, 1]`.
    pub fn new(t: Binary32) -> (level: Option<Self>)
        ensures
            level is Some <==> in_unit_interval(t),
            level is Some ==> level->0.value() == t,
    {
        if is_in_unit_interval(t) {
            Some(NoiseLevel { t })
        } else {
            None
        }
    }

    /// Construct a noise level, clamping into `[0, 1]`.
    ///
    /// Non-finite input clamps to [`Self::masked`], which is the
    /// conservative direction: a broken schedule skips retrieval rather than
    /// retrieving on a garbage query.
    pub fn saturating(t: Binary32) -> (level: Self)
        ensures
            level.value() == saturated(t),
            level.valid(),
    {
        proof {
            crate::binary32::lemma_one_units();
        }
        let zero: Binary32 = Binary32::from_bits(0);
        let one: Binary32 = Binary32::from_bits(ONE_BITS);
        if !t.is_finite() {
            Self::masked()
        } else if t.less(zero) {
            Self::clean()
        } else if one.less(t) {
            Self::masked()
        } else {
            NoiseLevel { t }
        }
    }

    /// The underlying value.
    pub fn get(self) -> (t: Binary32)
        ensures
            t == self.value(),
    {
        self.t
    }
}

impl PartialEq for NoiseLevel {
    fn eq(&self, other: &Self) -> (b: bool) {
        self.t.same(other.t)
    }
}

impl vstd::std_specs::cmp::PartialEqSpecImpl for NoiseLevel {
    open spec fn obeys_eq_spec() -> bool {
        true
    }

    open spec fn eq_spec(&self, other: &Self) -> bool {
        self.value().is_same(other.value())
    }
}

impl PartialOrd for NoiseLevel {
    fn partial_cmp(&self, other: &Self) -> (order: Option<core::cmp::Ordering>) {
        if self.t.less(other.t) {
            Some(core::cmp::Ordering::Less)
        } else if other.t.less(self.t) {
            Some(core::cmp::Ordering::Greater)
        } else if self.t.same(other.t) {
            Some(core::cmp::Ordering::Equal)
        } else {
            None
        }
    }
}

impl vstd::std_specs::cmp::PartialOrdSpecImpl for NoiseLevel {
    open spec fn obeys_partial_cmp_spec() -> bool {
        true
    }

    open spec fn partial_cmp_spec(&self, other: &Self) -> Option<core::cmp::Ordering> {
        if self.value().is_less(other.value()) {
            Some(core::cmp::Ordering::Less)
        } else if other.value().is_less(self.value()) {
            Some(core::cmp::Ordering::Greater)
        } else if self.value().is_same(other.value()) {
            Some(core::cmp::Ordering::Equal)
        } else {
            None
        }
    }
}

/// Which side of the training/inference asymmetry a call is on.
///
/// A required argument rather than a defaulted flag: the two phases gate on
/// different bands, and picking the wrong one is a silent failure.
#[derive(Clone, Copy, Debug, PartialEq, Eq, Structural)]
pub enum Phase {
    /// Denoising loss is being computed and the retriever can leak answers.
    Training,
    /// Sampling. Nothing to leak: the tokens being revealed are the output.
    Inference,
}

/// The word of `0.15`.
pub const TRAINING_LOW_BITS: u32 = 0x3E19_999A;

/// The word of `0.85`.
pub const TRAINING_HIGH_BITS: u32 = 0x3F59_999A;

/// The word of `-1.0`, below every noise level.
pub const INFERENCE_LOW_BITS: u32 = 0xBF80_0000;

/// The word of `0.9`.
pub const INFERENCE_HIGH_BITS: u32 = 0x3F66_6666;

/// The band of noise levels in which retrieval is allowed to run.
///
/// Both ends exist for distinct reasons, and only one of them survives into
/// inference:
///
/// * **High `t`**: the query is nearly all `[MASK]`. Its embedding carries
///   no signal, so retrieval returns noise. Skipped in both phases.
/// * **Low `t`**: during *training* the query is nearly clean, so a
///   neighbour's continuation can contain the handful of tokens still masked,
///   and the low-`t` loss goes trivial. Skipped. At *inference* there is no
///   held-out answer to leak, and this is the band where a retrieved
///   continuation is most useful, so it is kept.
#[derive(Clone, Copy, Debug)]
pub struct RetrievalBand {
    low: Binary32,
    high: Binary32,
}

impl PartialEq for RetrievalBand {
    fn eq(&self, other: &Self) -> (b: bool) {
        self.low.same(other.low) && self.high.same(other.high)
    }
}

impl vstd::std_specs::cmp::PartialEqSpecImpl for RetrievalBand {
    open spec fn obeys_eq_spec() -> bool {
        true
    }

    open spec fn eq_spec(&self, other: &Self) -> bool {
        self.low().is_same(other.low()) && self.high().is_same(other.high())
    }
}

impl RetrievalBand {
    /// The exclusive lower end.
    pub closed spec fn low(self) -> Binary32 {
        self.low
    }

    /// The exclusive upper end.
    pub closed spec fn high(self) -> Binary32 {
        self.high
    }

    /// Whether `t` falls inside the band.
    pub open spec fn contains(self, t: NoiseLevel) -> bool {
        self.low().is_less(t.value()) && t.value().is_less(self.high())
    }

    /// The training band, `0.15 < t < 0.85`.
    pub fn default_training() -> (band: Self)
        ensures
            band.low().bits == TRAINING_LOW_BITS,
            band.high().bits == TRAINING_HIGH_BITS,
    {
        RetrievalBand {
            low: Binary32::from_bits(TRAINING_LOW_BITS),
            high: Binary32::from_bits(TRAINING_HIGH_BITS),
        }
    }

    /// The inference band, `t < 0.9`: it keeps the whole low end, and only
    /// the noise-dominated top is skipped.
    pub fn default_inference() -> (band: Self)
        ensures
            band.low().bits == INFERENCE_LOW_BITS,
            band.high().bits == INFERENCE_HIGH_BITS,
    {
        RetrievalBand {
            low: Binary32::from_bits(INFERENCE_LOW_BITS),
            high: Binary32::from_bits(INFERENCE_HIGH_BITS),
        }
    }

    /// A custom band, `low < t < high`.
    pub fn new(low: Binary32, high: Binary32) -> (band: Option<Self>)
        ensures
            band is Some <==> low.finite() && high.finite() && low.is_less(high),
            band is Some ==> band->0.low() == low && band->0.high() == high,
    {
        if low.is_finite() && high.is_finite() && low.less(high) {
            Some(RetrievalBand { low, high })
        } else {
            None
        }
    }

    /// The band that applies in `phase`.
    pub fn for_phase(phase: Phase) -> (band: Self)
        ensures
            band.low().bits == phase_low_bits(phase),
            band.high().bits == phase_high_bits(phase),
    {
        match phase {
            Phase::Training => Self::default_training(),
            Phase::Inference => Self::default_inference(),
        }
    }

    /// Whether `t` falls inside the band.
    pub fn admits(self, t: NoiseLevel) -> (b: bool)
        ensures
            b == self.contains(t),
    {
        self.low.less(t.get()) && t.get().less(self.high)
    }
}

/// The lower end of the band of `phase`.
pub open spec fn phase_low_bits(phase: Phase) -> u32 {
    match phase {
        Phase::Training => TRAINING_LOW_BITS,
        Phase::Inference => INFERENCE_LOW_BITS,
    }
}

/// The upper end of the band of `phase`.
pub open spec fn phase_high_bits(phase: Phase) -> u32 {
    match phase {
        Phase::Training => TRAINING_HIGH_BITS,
        Phase::Inference => INFERENCE_HIGH_BITS,
    }
}

/// Whether retrieval may run at `t` in `phase`.
pub open spec fn gate_open(t: NoiseLevel, phase: Phase) -> bool {
    &&& (Binary32 { bits: phase_low_bits(phase) }).is_less(t.value())
    &&& t.value().is_less((Binary32 { bits: phase_high_bits(phase) }))
}

/// The hard gate: may retrieval run at this noise level, in this phase?
///
/// The soft, learned gate can eventually subsume this. The hard gate is what
/// makes the *training* run safe before that happens, and it also saves the
/// index traffic outright.
pub fn retrieve_now(t: NoiseLevel, phase: Phase) -> (b: bool)
    ensures
        b == gate_open(t, phase),
{
    RetrievalBand::for_phase(phase).admits(t)
}

/// Two levels of one value are the same level.
pub proof fn lemma_level_is_its_value(a: NoiseLevel, b: NoiseLevel)
    requires
        a.value() == b.value(),
    ensures
        a == b,
{
}

/// Every level at which training may retrieve, inference may too.
pub proof fn law_training_band_is_inside_inference_band(t: NoiseLevel)
    requires
        gate_open(t, Phase::Training),
    ensures
        gate_open(t, Phase::Inference),
{
    crate::binary32::lemma_rank_orders(
        (Binary32 { bits: INFERENCE_LOW_BITS }),
        (Binary32 { bits: TRAINING_LOW_BITS }),
    );
    crate::binary32::lemma_rank_orders(
        (Binary32 { bits: TRAINING_HIGH_BITS }),
        (Binary32 { bits: INFERENCE_HIGH_BITS }),
    );
}

/// At inference a valid level is gated on its upper end alone.
pub proof fn law_inference_keeps_the_low_end(t: NoiseLevel)
    requires
        t.valid(),
    ensures
        gate_open(t, Phase::Inference) <==> t.value().is_less(
            (Binary32 { bits: INFERENCE_HIGH_BITS }),
        ),
{
    crate::binary32::lemma_one_units();
    crate::binary32::lemma_rank_orders(
        (Binary32 { bits: INFERENCE_LOW_BITS }),
        (Binary32 { bits: 0 }),
    );
}

/// At and above `0.9` no phase retrieves.
pub proof fn law_high_noise_is_closed(t: NoiseLevel, phase: Phase)
    requires
        (Binary32 { bits: INFERENCE_HIGH_BITS }).is_at_most(t.value()),
    ensures
        !gate_open(t, phase),
{
    crate::binary32::lemma_rank_orders(
        (Binary32 { bits: TRAINING_HIGH_BITS }),
        (Binary32 { bits: INFERENCE_HIGH_BITS }),
    );
}

/// Whether the numbers of `s` fall strictly.
pub open spec fn strictly_descending(s: Seq<Binary32>) -> bool {
    forall|i: int, j: int| 0 <= i < j < s.len() ==> (#[trigger] s[j]).is_less(#[trigger] s[i])
}

/// Tracks which refresh thresholds a descending `t` has crossed.
///
/// Encoding neighbours is the expensive half of retrieval. Re-querying every
/// denoising step makes index traffic scale with `steps`; refreshing at a few
/// thresholds and caching the encoded neighbours between them does not.
///
/// The schedule is stateful because "crosses" is a claim about a *transition*.
#[derive(Clone, Debug)]
pub struct RefreshSchedule {
    /// Descending thresholds.
    thresholds: Vec<Binary32>,
    /// Index of the next threshold to fire.
    next: usize,
    /// Set once the first step has been observed.
    started: bool,
}

/// What a schedule has left to do.
pub struct ScheduleState {
    /// The thresholds, descending.
    pub thresholds: Seq<Binary32>,
    /// How many have fired.
    pub fired: nat,
    /// Whether a step has been observed.
    pub started: bool,
}

impl ScheduleState {
    /// How many thresholds from `from` on are at or above `t` without a gap.
    pub open spec fn run_from(self, from: nat, t: NoiseLevel) -> nat
        decreases self.thresholds.len() - from,
    {
        if from < self.thresholds.len() && t.value().is_at_most(self.thresholds[from as int]) {
            1 + self.run_from(from + 1, t)
        } else {
            0
        }
    }

    /// The state after a step at `t`.
    pub open spec fn after(self, t: NoiseLevel) -> ScheduleState {
        ScheduleState {
            thresholds: self.thresholds,
            fired: self.fired + self.run_from(self.fired, t),
            started: true,
        }
    }

    /// Whether a step at `t` refreshes.
    pub open spec fn refreshes(self, t: NoiseLevel) -> bool {
        !self.started || self.run_from(self.fired, t) > 0
    }

    /// The state after the steps of `ts`.
    pub open spec fn after_all(self, ts: Seq<NoiseLevel>) -> ScheduleState
        decreases ts.len(),
    {
        if ts.len() == 0 {
            self
        } else {
            self.after(ts[0]).after_all(ts.drop_first())
        }
    }

    /// How many of the steps of `ts` refresh.
    pub open spec fn refresh_count(self, ts: Seq<NoiseLevel>) -> nat
        decreases ts.len(),
    {
        if ts.len() == 0 {
            0
        } else {
            (if self.refreshes(ts[0]) {
                1nat
            } else {
                0nat
            }) + self.after(ts[0]).refresh_count(ts.drop_first())
        }
    }
}

impl View for RefreshSchedule {
    type V = ScheduleState;

    closed spec fn view(&self) -> ScheduleState {
        ScheduleState {
            thresholds: self.thresholds@,
            fired: self.next as nat,
            started: self.started,
        }
    }
}

/// Where `t` belongs among the strictly descending `sorted`: the first index
/// whose number is not above `t`.
fn descending_position(sorted: &Vec<Binary32>, t: Binary32) -> (pos: usize)
    requires
        !t.nan(),
        forall|i: int| 0 <= i < sorted.len() ==> !(#[trigger] sorted[i]).nan(),
    ensures
        pos <= sorted.len(),
        forall|i: int| 0 <= i < pos ==> t.is_less(#[trigger] sorted[i]),
        pos < sorted.len() ==> sorted[pos as int].is_at_most(t),
{
    let mut pos: usize = 0;
    while pos < sorted.len() && t.less(sorted[pos])
        invariant
            pos <= sorted.len(),
            forall|i: int| 0 <= i < pos ==> t.is_less(#[trigger] sorted[i]),
        decreases sorted.len() - pos,
    {
        pos = pos + 1;
    }
    pos
}

impl RefreshSchedule {
    /// The thresholds stand in strictly falling order and the count of those
    /// that fired stays within them.
    pub open spec fn wf(self) -> bool {
        &&& strictly_descending(self@.thresholds)
        &&& forall|i: int|
            0 <= i < self@.thresholds.len() ==> in_unit_interval(#[trigger] self@.thresholds[i])
        &&& self@.fired <= self@.thresholds.len()
    }

    /// The default schedule: refresh at `t = 0.8`, `0.5`, `0.25`.
    pub fn default_thresholds() -> (schedule: Self)
        ensures
            schedule.wf(),
            schedule@.fired == 0,
            !schedule@.started,
            schedule@.thresholds.len() == 3,
            schedule@.thresholds[0].bits == 0x3F4C_CCCD,
            schedule@.thresholds[1].bits == 0x3F00_0000,
            schedule@.thresholds[2].bits == 0x3E80_0000,
    {
        let mut thresholds: Vec<Binary32> = Vec::new();
        thresholds.push(Binary32::from_bits(0x3F4C_CCCD));
        thresholds.push(Binary32::from_bits(0x3F00_0000));
        thresholds.push(Binary32::from_bits(0x3E80_0000));
        proof {
            let a = thresholds@[0];
            let b = thresholds@[1];
            let c = thresholds@[2];
            crate::binary32::lemma_one_units();
            crate::binary32::lemma_rank_orders(b, a);
            crate::binary32::lemma_rank_orders(c, b);
            crate::binary32::lemma_rank_orders(a, (Binary32 { bits: ONE_BITS }));
        }
        RefreshSchedule { thresholds, next: 0, started: false }
    }

    /// Build a schedule from a set of thresholds.
    ///
    /// Order does not matter: they are sorted descending, to match a `t`
    /// that starts at 1.0 and falls. Duplicates and out-of-range values are
    /// dropped.
    pub fn new(thresholds: &[Binary32]) -> (schedule: Self)
        ensures
            schedule.wf(),
            schedule@.fired == 0,
            !schedule@.started,
            forall|i: int|
                0 <= i < schedule@.thresholds.len() ==> thresholds@.contains(
                    #[trigger] schedule@.thresholds[i],
                ),
            forall|i: int|
                0 <= i < thresholds@.len() && in_unit_interval(#[trigger] thresholds@[i])
                    ==> exists|j: int|
                    0 <= j < schedule@.thresholds.len() && thresholds@[i].is_same(
                        #[trigger] schedule@.thresholds[j],
                    ),
    {
        let mut sorted: Vec<Binary32> = Vec::new();
        let mut k: usize = 0;
        while k < thresholds.len()
            invariant
                k <= thresholds.len(),
                strictly_descending(sorted@),
                forall|i: int| 0 <= i < sorted.len() ==> in_unit_interval(#[trigger] sorted[i]),
                forall|i: int|
                    0 <= i < sorted.len() ==> thresholds@.contains(#[trigger] sorted@[i]),
                forall|i: int|
                    0 <= i < k && in_unit_interval(#[trigger] thresholds@[i]) ==> exists|j: int|
                        0 <= j < sorted.len() && thresholds@[i].is_same(#[trigger] sorted@[j]),
            decreases thresholds.len() - k,
        {
            let t: Binary32 = thresholds[k];
            if is_in_unit_interval(t) {
                let pos: usize = descending_position(&sorted, t);
                if pos < sorted.len() && sorted[pos].same(t) {
                    assert(t.is_same(sorted@[pos as int]));
                } else {
                    let ghost before = sorted@;
                    sorted.insert(pos, t);
                    proof {
                        assert forall|i: int| 0 <= i < sorted.len() implies thresholds@.contains(
                            #[trigger] sorted@[i],
                        ) by {
                            if i < pos {
                                assert(sorted@[i] == before[i]);
                            } else if i == pos {
                                assert(thresholds@[k as int] == t);
                            } else {
                                assert(sorted@[i] == before[i - 1]);
                            }
                        }
                        assert forall|i: int, j: int| 0 <= i < j < sorted.len() implies (
                        #[trigger] sorted@[j]).is_less(#[trigger] sorted@[i]) by {
                            let a = if i < pos {
                                before[i]
                            } else {
                                before[i - 1]
                            };
                            let b = if j < pos {
                                before[j]
                            } else {
                                before[j - 1]
                            };
                            if i == pos {
                                assert(b == before[j - 1]);
                                if j - 1 > pos {
                                    assert(before[j - 1].is_less(before[pos as int]));
                                }
                            }
                        }
                        assert forall|i: int|
                            0 <= i < k + 1 && in_unit_interval(
                                #[trigger] thresholds@[i],
                            ) implies exists|j: int|
                            0 <= j < sorted.len() && thresholds@[i].is_same(
                                #[trigger] sorted@[j],
                            ) by {
                            if i < k {
                                let j = choose|j: int|
                                    0 <= j < before.len() && thresholds@[i].is_same(
                                        #[trigger] before[j],
                                    );
                                if j < pos {
                                    assert(sorted@[j] == before[j]);
                                } else {
                                    assert(sorted@[j + 1] == before[j]);
                                }
                            } else {
                                assert(sorted@[pos as int] == t);
                            }
                        }
                    }
                }
            }
            k = k + 1;
        }
        let schedule = RefreshSchedule { thresholds: sorted, next: 0, started: false };
        proof {
            assert(schedule@.thresholds == sorted@);
            assert forall|i: int|
                0 <= i < thresholds@.len() && in_unit_interval(
                    #[trigger] thresholds@[i],
                ) implies exists|j: int|
                0 <= j < schedule@.thresholds.len() && thresholds@[i].is_same(
                    #[trigger] schedule@.thresholds[j],
                ) by {
                let j = choose|j: int|
                    0 <= j < sorted.len() && thresholds@[i].is_same(#[trigger] sorted@[j]);
                assert(thresholds@[i].is_same(schedule@.thresholds[j]));
            }
        }
        schedule
    }

    /// Advance to `t` and report whether a refresh threshold was crossed.
    ///
    /// The first call always refreshes: there is nothing cached yet, and a
    /// first step that starts below the top threshold would otherwise run the
    /// whole trajectory with no neighbours at all.
    ///
    /// If several thresholds fall between the previous `t` and this one, they
    /// collapse into a single refresh, because a refresh recomputes from the
    /// current `t` regardless of how many thresholds it skipped.
    pub fn advance(&mut self, t: NoiseLevel) -> (refresh: bool)
        requires
            old(self).wf(),
        ensures
            final(self).wf(),
            final(self)@ == old(self)@.after(t),
            refresh == old(self)@.refreshes(t),
    {
        let first: bool = !self.started;
        self.started = true;
        let mut crossed: bool = false;
        let ghost start = old(self)@;
        while self.next < self.thresholds.len() && t.get().at_most(self.thresholds[self.next])
            invariant
                self.started,
                self.thresholds@ == start.thresholds,
                start.fired <= self.next <= self.thresholds.len(),
                start.run_from(start.fired, t) == (self.next - start.fired) + start.run_from(
                    self.next as nat,
                    t,
                ),
                crossed == (self.next > start.fired),
            decreases self.thresholds.len() - self.next,
        {
            self.next = self.next + 1;
            crossed = true;
        }
        crossed || first
    }

    /// Rewind to the start of the trajectory, for the next sample.
    pub fn reset(&mut self)
        ensures
            final(self)@ == (ScheduleState {
                thresholds: old(self)@.thresholds,
                fired: 0,
                started: false,
            }),
            old(self).wf() ==> final(self).wf(),
    {
        self.next = 0;
        self.started = false;
    }

    /// Thresholds not yet crossed.
    pub fn remaining(&self) -> (rest: &[Binary32])
        requires
            self.wf(),
        ensures
            rest@ == self@.thresholds.skip(self@.fired as int),
    {
        vstd::slice::slice_subrange(self.thresholds.as_slice(), self.next, self.thresholds.len())
    }
}

/// Level `i` of a trajectory of `steps` steps: one less the share of the way
/// already gone.
pub open spec fn trajectory_level(i: nat, steps: nat) -> Binary32 {
    Binary32 {
        bits: (Binary32 { bits: ONE_BITS }).difference_bits(
            (Binary32 { bits: Binary32::ratio_bits(i, (steps - 1) as nat) }),
        ),
    }
}

/// The descending noise levels visited by a `steps`-step denoising loop.
///
/// Evenly spaced from `1.0` down to `0.0`. A single-step schedule yields
/// only `t = 1.0`.
pub fn trajectory(steps: usize) -> (levels: Vec<NoiseLevel>)
    ensures
        levels.len() == steps,
        steps == 1 ==> levels[0].value().bits == ONE_BITS,
        steps > 1 ==> forall|i: int|
            0 <= i < steps ==> (#[trigger] levels[i]).value() == trajectory_level(
                i as nat,
                steps as nat,
            ),
        forall|i: int| 0 <= i < steps ==> (#[trigger] levels[i]).valid(),
{
    let mut levels: Vec<NoiseLevel> = Vec::new();
    if steps == 1 {
        levels.push(NoiseLevel::masked());
        return levels;
    }
    let one: Binary32 = Binary32::from_bits(ONE_BITS);
    let mut i: usize = 0;
    while i < steps
        invariant
            steps != 1,
            i <= steps,
            one.bits == ONE_BITS,
            levels.len() == i,
            forall|j: int|
                0 <= j < i ==> (#[trigger] levels[j]).value() == trajectory_level(
                    j as nat,
                    steps as nat,
                ),
            forall|j: int| 0 <= j < i ==> (#[trigger] levels[j]).valid(),
        decreases steps - i,
    {
        let frac: Binary32 = Binary32::ratio(i as u64, (steps - 1) as u64);
        let t: Binary32 = one.minus(frac);
        proof {
            assert(one == (Binary32 { bits: ONE_BITS }));
            crate::arithmetic::lemma_ratio_bounds(i as nat, (steps - 1) as nat);
            crate::arithmetic::lemma_one_minus(frac.bits);
            crate::binary32::lemma_one_units();
            crate::binary32::lemma_magnitude_compares(t.word(), ONE_BITS as nat);
        }
        levels.push(NoiseLevel::saturating(t));
        i = i + 1;
    }
    levels
}

/// A trajectory starts fully masked, ends clean, and never rises.
pub proof fn law_trajectory_descends(i: nat, j: nat, steps: nat)
    requires
        2 <= steps <= u64::MAX,
        i <= j < steps,
    ensures
        trajectory_level(0, steps).bits == ONE_BITS,
        trajectory_level((steps - 1) as nat, steps).bits == 0,
        trajectory_level(j, steps).is_at_most(trajectory_level(i, steps)),
{
    let total = (steps - 1) as nat;
    crate::binary32::lemma_one_units();
    let ri = Binary32::ratio_bits(i, total);
    let rj = Binary32::ratio_bits(j, total);
    crate::arithmetic::lemma_ratio_bounds(i, total);
    crate::arithmetic::lemma_ratio_bounds(j, total);
    crate::arithmetic::lemma_ratio_bounds(0, total);
    crate::arithmetic::lemma_ratio_bounds(total, total);
    crate::arithmetic::lemma_ratio_monotone(i, j, total);
    crate::arithmetic::lemma_one_minus(0);
    crate::arithmetic::lemma_one_minus(ONE_BITS);
    crate::arithmetic::lemma_one_minus(ri);
    crate::arithmetic::lemma_one_minus(rj);
    let one = crate::binary32::one_units();
    crate::arithmetic::lemma_zero_is_nearest(1);
    assert(one * 1 == one);
    crate::binary32::lemma_nearest_exact(ONE_BITS, one, 1);
    crate::binary32::lemma_magnitude_compares(ri as nat, rj as nat);
    let vi = (one - crate::binary32::magnitude(ri as nat)) as nat;
    let vj = (one - crate::binary32::magnitude(rj as nat)) as nat;
    assert(vj * 1 <= vi * 1);
    crate::binary32::lemma_nearest_monotone(vj, 1, vi, 1);
    crate::binary32::lemma_rank_orders(trajectory_level(j, steps), trajectory_level(i, steps));
}

/// A run of crossed thresholds stays within the thresholds there are.
proof fn lemma_run_bounded(s: ScheduleState, from: nat, t: NoiseLevel)
    requires
        from <= s.thresholds.len(),
    ensures
        from + s.run_from(from, t) <= s.thresholds.len(),
    decreases s.thresholds.len() - from,
{
    if from < s.thresholds.len() && t.value().is_at_most(s.thresholds[from as int]) {
        lemma_run_bounded(s, from + 1, t);
    }
}

/// Each threshold fires at most once: however many steps are taken, no more
/// of them refresh than there are thresholds left, and one for the first.
pub proof fn law_each_threshold_fires_once(s: ScheduleState, ts: Seq<NoiseLevel>)
    requires
        s.fired <= s.thresholds.len(),
    ensures
        s.refresh_count(ts) <= (s.thresholds.len() - s.fired) + (if s.started {
            0int
        } else {
            1int
        }),
    decreases ts.len(),
{
    if ts.len() > 0 {
        lemma_run_bounded(s, s.fired, ts[0]);
        law_each_threshold_fires_once(s.after(ts[0]), ts.drop_first());
    }
}

/// Once a step has been taken at `t`, another at a level no lower does not
/// refresh.
pub proof fn law_no_refresh_without_descent(s: ScheduleState, t: NoiseLevel, again: NoiseLevel)
    requires
        s.fired <= s.thresholds.len(),
        t.value().is_at_most(again.value()),
    ensures
        !s.after(t).refreshes(again),
{
    lemma_run_stops(s, s.fired, t, again);
}

proof fn lemma_run_stops(s: ScheduleState, from: nat, t: NoiseLevel, again: NoiseLevel)
    requires
        from <= s.thresholds.len(),
        t.value().is_at_most(again.value()),
    ensures
        s.run_from(from + s.run_from(from, t), again) == 0,
    decreases s.thresholds.len() - from,
{
    if from < s.thresholds.len() && t.value().is_at_most(s.thresholds[from as int]) {
        lemma_run_stops(s, from + 1, t, again);
    }
}

/// A run takes exactly the thresholds at or above `t`.
proof fn lemma_run_takes(s: ScheduleState, from: nat, t: NoiseLevel)
    requires
        from <= s.thresholds.len(),
        strictly_descending(s.thresholds),
        forall|i: int| 0 <= i < s.thresholds.len() ==> !(#[trigger] s.thresholds[i]).nan(),
    ensures
        ({
            let upto = from + s.run_from(from, t);
            &&& upto <= s.thresholds.len()
            &&& forall|i: int|
                from <= i < upto ==> t.value().is_at_most(#[trigger] s.thresholds[i])
            &&& forall|i: int|
                upto <= i < s.thresholds.len() ==> !t.value().is_at_most(
                    #[trigger] s.thresholds[i],
                )
        }),
    decreases s.thresholds.len() - from,
{
    if from < s.thresholds.len() {
        if t.value().is_at_most(s.thresholds[from as int]) {
            lemma_run_takes(s, from + 1, t);
        } else {
            assert forall|i: int| from <= i < s.thresholds.len() implies !t.value().is_at_most(
                #[trigger] s.thresholds[i],
            ) by {
                if i > from {
                    assert(s.thresholds[i].is_less(s.thresholds[from as int]));
                }
            }
        }
    }
}

/// A refresh is a crossing: after a step at `last`, a step at `t` refreshes
/// exactly where some threshold that had not fired before lies below `last` and
/// at or above `t`. The first step of all refreshes at any level.
pub proof fn law_a_refresh_is_a_crossing(s: ScheduleState, last: NoiseLevel, t: NoiseLevel)
    requires
        s.fired <= s.thresholds.len(),
        strictly_descending(s.thresholds),
        forall|i: int| 0 <= i < s.thresholds.len() ==> !(#[trigger] s.thresholds[i]).nan(),
        last.valid(),
        t.valid(),
    ensures
        !s.started ==> s.refreshes(t),
        s.after(last).refreshes(t) <==> exists|i: int|
            s.fired <= i < s.thresholds.len() && (#[trigger] s.thresholds[i]).is_less(last.value())
                && t.value().is_at_most(s.thresholds[i]),
{
    let next = s.after(last);
    lemma_run_takes(s, s.fired, last);
    lemma_run_takes(next, next.fired, t);
    if next.refreshes(t) {
        let i = next.fired as int;
        assert(t.value().is_at_most(s.thresholds[i]));
        assert(s.thresholds[i].is_less(last.value()));
    } else {
        assert forall|i: int| s.fired <= i < s.thresholds.len() implies !((
        #[trigger] s.thresholds[i]).is_less(last.value()) && t.value().is_at_most(
            s.thresholds[i],
        )) by {
            if i < next.fired {
                assert(last.value().is_at_most(s.thresholds[i]));
            } else {
                assert(!t.value().is_at_most(next.thresholds[i]));
            }
        }
    }
}

/// Levels are evenly spaced: level `i` of `steps` is one less the fraction
/// `i / (steps - 1)`, each rounded to the nearest word.
pub proof fn law_levels_are_evenly_spaced(i: nat, steps: nat)
    requires
        2 <= steps <= u64::MAX,
        i < steps,
    ensures
        ({
            let one = crate::binary32::one_units();
            let above = crate::binary32::nearest(i * one, 1);
            let below = crate::binary32::nearest(((steps - 1) as nat) * one, 1);
            exists|f: u32| #[trigger]
                crate::binary32::is_nearest(
                    crate::binary32::magnitude(above as nat) * one,
                    crate::binary32::magnitude(below as nat),
                    f as nat,
                ) && f <= ONE_BITS && crate::binary32::is_nearest(
                    (one - crate::binary32::magnitude(f as nat)) as nat,
                    1,
                    trajectory_level(i, steps).bits as nat,
                )
        }),
{
    reveal(Binary32::quotient_bits);
    let total = (steps - 1) as nat;
    let one = crate::binary32::one_units();
    let a = Binary32 { bits: Binary32::count_bits(i) };
    let b = Binary32 { bits: Binary32::count_bits(total) };
    crate::arithmetic::lemma_count(i);
    crate::arithmetic::lemma_count(total);
    crate::arithmetic::lemma_ratio_bounds(i, total);
    let f = Binary32::ratio_bits(i, total);
    crate::binary32::lemma_magnitude_compares(0, b.word());
    assert(crate::binary32::magnitude(0) == 0) by (nonlinear_arith);
    crate::binary32::lemma_nearest_exists(a.size() * one, b.size());
    assert(a.word() == a.bits && b.word() == b.bits);
    assert(!a.negative() && !b.negative());
    assert(i * vstd::arithmetic::power2::pow2(149) == i * one);
    assert(f == crate::binary32::nearest(a.size() * one, b.size()));
    assert(crate::binary32::is_nearest(
        crate::binary32::magnitude(a.bits as nat) * one,
        crate::binary32::magnitude(b.bits as nat),
        f as nat,
    ));
    crate::arithmetic::lemma_one_minus(f);
    crate::binary32::lemma_one_units();
    crate::binary32::lemma_magnitude_compares(f as nat, ONE_BITS as nat);
    crate::binary32::lemma_nearest_exists(
        (one - crate::binary32::magnitude(f as nat)) as nat,
        1,
    );
}

/// The hard gate in numbers: training retrieves between `0.15` and `0.85`, and
/// sampling at every level below `0.9`. Levels a hundredth inside are let
/// through, and those a hundredth outside are not.
pub proof fn law_the_hard_gate_in_hundredths(t: NoiseLevel)
    requires
        t.valid(),
    ensures
        ({
            let one = crate::binary32::one_units();
            let level = 100 * t.value().units();
            &&& 16 * one <= level <= 84 * one ==> gate_open(t, Phase::Training)
            &&& level <= 14 * one || 86 * one <= level ==> !gate_open(t, Phase::Training)
            &&& level <= 89 * one ==> gate_open(t, Phase::Inference)
            &&& 91 * one <= level ==> !gate_open(t, Phase::Inference)
        }),
{
    vstd::arithmetic::power2::lemma2_to64();
    crate::binary32::lemma_one_units();
    let one = crate::binary32::one_units();
    let low = Binary32 { bits: TRAINING_LOW_BITS };
    let high = Binary32 { bits: TRAINING_HIGH_BITS };
    let top = Binary32 { bits: INFERENCE_HIGH_BITS };
    let below = Binary32 { bits: INFERENCE_LOW_BITS };
    lemma_word_units(TRAINING_LOW_BITS, 0x99_999A, 123);
    lemma_word_units(TRAINING_HIGH_BITS, 0xD9_999A, 125);
    lemma_word_units(INFERENCE_HIGH_BITS, 0xE6_6666, 125);
    assert(low.units() * 0x400_0000 == 0x99_999A * one);
    assert(high.units() * 0x100_0000 == 0xD9_999A * one);
    assert(top.units() * 0x100_0000 == 0xE6_6666 * one);
    assert(below.word() == ONE_BITS && below.negative());
}

proof fn lemma_word_units(bits: u32, sig: nat, p: nat)
    requires
        bits < 0x4000_0000,
        sig == crate::binary32::significand(bits as nat),
        p == crate::binary32::scale_exponent(bits as nat),
        p <= 149,
    ensures
        (Binary32 { bits }).units() * vstd::arithmetic::power2::pow2((149 - p) as nat) == sig
            * crate::binary32::one_units(),
        (Binary32 { bits }).finite(),
{
    let gap = (149 - p) as nat;
    vstd::arithmetic::power2::lemma_pow2_adds(p, gap);
    let (x, y) = (vstd::arithmetic::power2::pow2(p), vstd::arithmetic::power2::pow2(gap));
    assert((sig * x) * y == sig * (x * y)) by (nonlinear_arith);
}

/// The hard gate is open strictly inside its band: above the word of 0.15 and below
/// that of 0.85 while training, and below the word of 0.9 while sampling, however
/// low the level.
pub proof fn law_the_hard_gate_is_open_strictly_inside(t: NoiseLevel)
    requires
        t.valid(),
        !t.value().negative(),
    ensures
        gate_open(t, Phase::Training) <==> 0x3E19_999A < t.value().bits < 0x3F59_999A,
        gate_open(t, Phase::Inference) <==> t.value().bits < 0x3F66_6666,
{
    let x = t.value();
    crate::binary32::law_words_are_ordered_as_their_numbers(
        (Binary32 { bits: TRAINING_LOW_BITS }),
        x,
    );
    crate::binary32::law_words_are_ordered_as_their_numbers(
        x,
        (Binary32 { bits: TRAINING_HIGH_BITS }),
    );
    crate::binary32::law_words_are_ordered_as_their_numbers(
        (Binary32 { bits: INFERENCE_LOW_BITS }),
        x,
    );
    crate::binary32::law_words_are_ordered_as_their_numbers(
        x,
        (Binary32 { bits: INFERENCE_HIGH_BITS }),
    );
}

/// A level is drawn into the unit interval: it keeps what lies inside, moves what
/// lies outside no further than to the nearer end, and takes what is not finite
/// for fully masked.
pub proof fn law_a_level_is_drawn_into_the_unit_interval(t: Binary32, other: Binary32)
    requires
        in_unit_interval(other),
    ensures
        in_unit_interval(saturated(t)),
        in_unit_interval(t) ==> saturated(t) == t,
        t.finite() ==> crate::arithmetic::distance(t.units(), saturated(t).units())
            <= crate::arithmetic::distance(t.units(), other.units()),
        !t.finite() ==> saturated(t).units() == crate::binary32::one_units(),
{
    crate::binary32::lemma_one_units();
    assert(crate::binary32::magnitude(0) == 0 * vstd::arithmetic::power2::pow2(0));
}

} // verus!
