//! The evaluation protocol.
//!
//! The structural guards in [`crate::view`] and
//! [`crate::retrieval::leakage`] prevent the leaks we know how to name. They
//! cannot prove absence. This module is the empirical check that a perplexity
//! improvement is retrieval being *used* rather than *copied*.
//!
//! The same trained weights are evaluated against several neighbour blocks.
//! Everything else about the step is identical, so the differences between
//! them are attributable. Every condition is reported per noise band as well
//! as overall: copying concentrates at low `t`, which is exactly what a single
//! averaged number hides.
use crate::binary32::{Binary32, NAN_BITS, ONE_BITS};
use crate::chunk::{chunk_queries, ChunkAdmission, ChunkedView};
use crate::config::CcaConfig;
use crate::corpus::{ChunkEmbedder, TrainingSequence};
use crate::generate::fill_neighbour_inputs;
use crate::loss::MaskedDiffusionLoss;
use crate::retrieval::corpus::{neighbour_id, NeighbourCorpus};
use crate::retrieval::index::NeighbourIndex;
use crate::retrieval::leakage::{ngram_overlap, LeakageGuard};
use crate::retrieval::{retrieve, Neighbours};
use crate::rng::Rng;
use crate::schedule::{NoiseLevel, Phase};
use crate::train::{draw_mask, RetrievalSources, StepInputs};
use crate::view::{CleanSequence, IdSource, MaskToken, NoisedView};
use vstd::prelude::*;

verus! {

/// Which neighbour block a condition feeds the model.
#[derive(Clone, Copy, Debug, PartialEq, Eq, Structural, Hash)]
pub enum NeighbourCondition {
    /// What the index returns for this sequence.
    Real,
    /// Corpus passages chosen at random rather than by relevance.
    Random,
    /// No neighbours; the retrieval mask is zero everywhere.
    Ablated,
    /// The sequence's own continuation: what a perfect retriever finds.
    Oracle,
}

impl NeighbourCondition {
    /// Every condition, in report order.
    pub fn all() -> (conditions: Vec<Self>)
        ensures
            conditions@ == seq![
                NeighbourCondition::Real,
                NeighbourCondition::Random,
                NeighbourCondition::Ablated,
                NeighbourCondition::Oracle,
            ],
    {
        let mut conditions: Vec<Self> = Vec::new();
        conditions.push(NeighbourCondition::Real);
        conditions.push(NeighbourCondition::Random);
        conditions.push(NeighbourCondition::Ablated);
        conditions.push(NeighbourCondition::Oracle);
        conditions
    }

    /// A short label for reports.
    pub fn label(self) -> (label: &'static str)
        ensures
            label@ == match self {
                NeighbourCondition::Real => "real"@,
                NeighbourCondition::Random => "random"@,
                NeighbourCondition::Ablated => "ablated"@,
                NeighbourCondition::Oracle => "oracle"@,
            },
    {
        match self {
            NeighbourCondition::Real => "real",
            NeighbourCondition::Random => "random",
            NeighbourCondition::Ablated => "ablated",
            NeighbourCondition::Oracle => "oracle",
        }
    }
}

/// Mean loss over one noise band.
#[derive(Clone, Copy, Debug, PartialEq)]
pub struct BandLoss {
    /// Half-open `[low, high)` noise range.
    pub low: Binary32,
    /// Upper edge.
    pub high: Binary32,
    /// Mean loss over the steps that landed in this band.
    pub mean_loss: Binary32,
    /// Steps that landed here and scored something.
    pub steps: usize,
}

/// One condition's results.
#[derive(Clone, Debug, PartialEq)]
pub struct ConditionReport {
    /// Which condition.
    pub condition: NeighbourCondition,
    /// Mean loss across every scoring step.
    pub mean_loss: Binary32,
    /// The same, split by noise band.
    pub bands: Vec<BandLoss>,
}

/// Whether a band lies entirely under `t` and holds anything.
pub open spec fn band_counts(band: BandLoss, t: Binary32) -> bool {
    band.high.is_at_most(t) && band.steps > 0
}

/// How many steps the counted bands among the first `upto` hold.
pub open spec fn steps_below(bands: Seq<BandLoss>, t: Binary32, upto: nat) -> nat
    decreases upto,
{
    if upto == 0 {
        0
    } else {
        let band = bands[upto - 1];
        steps_below(bands, t, (upto - 1) as nat) + (if band_counts(band, t) {
            band.steps as nat
        } else {
            0
        })
    }
}

/// The step-weighted sum of the counted bands' losses among the first `upto`.
pub open spec fn loss_below(bands: Seq<BandLoss>, t: Binary32, upto: nat) -> Binary32
    decreases upto,
{
    if upto == 0 {
        Binary32 { bits: 0 }
    } else {
        let band = bands[upto - 1];
        let rest = loss_below(bands, t, (upto - 1) as nat);
        if band_counts(band, t) {
            let weighted = Binary32 {
                bits: band.mean_loss.product_bits(
                    (Binary32 { bits: Binary32::count_bits(band.steps as nat) }),
                ),
            };
            Binary32 { bits: rest.sum_bits(weighted) }
        } else {
            rest
        }
    }
}

impl ConditionReport {
    /// Mean loss below `t`, across the bands that fall entirely under it.
    pub fn mean_below(&self, t: Binary32) -> (mean: Option<Binary32>)
        requires
            steps_below(self.bands@, t, self.bands@.len()) <= usize::MAX,
        ensures
            mean is Some <==> steps_below(self.bands@, t, self.bands@.len()) > 0,
            mean matches Some(x) ==> x.bits == loss_below(
                self.bands@,
                t,
                self.bands@.len(),
            ).quotient_bits(
                (Binary32 {
                    bits: Binary32::count_bits(steps_below(self.bands@, t, self.bands@.len())),
                }),
            ),
    {
        let mut sum: Binary32 = Binary32::from_bits(0);
        let mut count: usize = 0;
        let mut i: usize = 0;
        while i < self.bands.len()
            invariant
                i <= self.bands@.len(),
                count == steps_below(self.bands@, t, i as nat),
                sum == loss_below(self.bands@, t, i as nat),
                steps_below(self.bands@, t, self.bands@.len()) <= usize::MAX,
            decreases self.bands.len() - i,
        {
            let band: BandLoss = self.bands[i];
            proof {
                lemma_steps_below_monotone(self.bands@, t, (i + 1) as nat, self.bands@.len());
            }
            if band.high.at_most(t) && band.steps > 0 {
                sum = sum.plus(band.mean_loss.times(Binary32::from_count(band.steps as u64)));
                count = count + band.steps;
            }
            i = i + 1;
        }
        if count > 0 {
            Some(sum.over(Binary32::from_count(count as u64)))
        } else {
            None
        }
    }
}

proof fn lemma_steps_below_monotone(bands: Seq<BandLoss>, t: Binary32, low: nat, high: nat)
    requires
        low <= high,
    ensures
        steps_below(bands, t, low) <= steps_below(bands, t, high),
    decreases high,
{
    if low < high {
        lemma_steps_below_monotone(bands, t, low, (high - 1) as nat);
    }
}

/// The full protocol run.
#[derive(Clone, Debug, PartialEq)]
pub struct EvalReport {
    /// One entry per condition evaluated.
    pub conditions: Vec<ConditionReport>,
}

/// Where the report of `condition` stands among the first `upto`.
pub open spec fn position_of(
    conditions: Seq<ConditionReport>,
    condition: NeighbourCondition,
    upto: nat,
) -> Option<int>
    decreases upto,
{
    if upto == 0 {
        None
    } else {
        match position_of(conditions, condition, (upto - 1) as nat) {
            Some(i) => Some(i),
            None => if conditions[upto - 1].condition == condition {
                Some(upto - 1)
            } else {
                None
            },
        }
    }
}

impl EvalReport {
    /// The first report of `condition`.
    pub open spec fn report_of(self, condition: NeighbourCondition) -> Option<ConditionReport> {
        match position_of(self.conditions@, condition, self.conditions@.len()) {
            Some(i) => Some(self.conditions@[i]),
            None => None,
        }
    }

    /// The loss of `from` less the loss of `to`, where both were evaluated.
    pub open spec fn difference_of(
        self,
        from: NeighbourCondition,
        to: NeighbourCondition,
    ) -> Option<Binary32> {
        match (self.report_of(from), self.report_of(to)) {
            (Some(a), Some(b)) => Some(
                Binary32 { bits: a.mean_loss.difference_bits(b.mean_loss) },
            ),
            _ => None,
        }
    }

    /// The report for one condition.
    pub fn get(&self, condition: NeighbourCondition) -> (report: Option<&ConditionReport>)
        ensures
            report is Some <==> self.report_of(condition) is Some,
            report is Some ==> *report->0 == self.report_of(condition)->0,
    {
        let mut i: usize = 0;
        while i < self.conditions.len()
            invariant
                i <= self.conditions@.len(),
                position_of(self.conditions@, condition, i as nat) is None,
            decreases self.conditions.len() - i,
        {
            if self.conditions[i].condition == condition {
                proof {
                    lemma_position_stays(
                        self.conditions@,
                        condition,
                        (i + 1) as nat,
                        self.conditions@.len(),
                    );
                }
                return Some(&self.conditions[i]);
            }
            i = i + 1;
        }
        None
    }

    fn delta(&self, from: NeighbourCondition, to: NeighbourCondition) -> (d: Option<Binary32>)
        ensures
            d == self.difference_of(from, to),
    {
        match self.get(from) {
            Some(a) => {
                match self.get(to) {
                    Some(b) => Some(a.mean_loss.minus(b.mean_loss)),
                    None => None,
                }
            },
            None => None,
        }
    }

    /// What the retrieval path is worth: ablated less real.
    ///
    /// Positive means retrieval helps.
    pub fn retrieval_gain(&self) -> (gain: Option<Binary32>)
        ensures
            gain == self.difference_of(NeighbourCondition::Ablated, NeighbourCondition::Real),
    {
        self.delta(NeighbourCondition::Ablated, NeighbourCondition::Real)
    }

    /// The copy diagnostic: random less real.
    ///
    /// How much worse the model gets when its neighbours stop being relevant.
    pub fn copy_gap(&self) -> (gap: Option<Binary32>)
        ensures
            gap == self.difference_of(NeighbourCondition::Random, NeighbourCondition::Real),
    {
        self.delta(NeighbourCondition::Random, NeighbourCondition::Real)
    }

    /// The copy gap over the retrieval gain.
    ///
    /// A model that has learned to copy does *worse than ablated* on random
    /// neighbours, so the gap runs well past the gain.
    ///
    /// `None` when the gain is too small to divide by (`1e-6`), which is
    /// itself a result: nothing was learned to leak through.
    pub fn copy_ratio(&self) -> (ratio: Option<Binary32>)
        ensures
            ratio == match (
                self.difference_of(NeighbourCondition::Ablated, NeighbourCondition::Real),
                self.difference_of(NeighbourCondition::Random, NeighbourCondition::Real),
            ) {
                (Some(gain), Some(gap)) => if (Binary32 { bits: 0x3586_37BD }).is_less(
                    gain.absolute(),
                ) {
                    Some(Binary32 { bits: gap.quotient_bits(gain) })
                } else {
                    None
                },
                _ => None,
            },
    {
        match self.retrieval_gain() {
            Some(gain) => {
                match self.copy_gap() {
                    Some(gap) => {
                        if Binary32::from_bits(0x3586_37BD).less(gain.abs()) {
                            Some(gap.over(gain))
                        } else {
                            None
                        }
                    },
                    None => None,
                }
            },
            None => None,
        }
    }

    /// Whether random neighbours are *worse* than no neighbours at all.
    ///
    /// The sharpest single signature of copying.
    pub fn random_worse_than_ablated(&self) -> (worse: Option<bool>)
        ensures
            worse == match (
                self.report_of(NeighbourCondition::Random),
                self.report_of(NeighbourCondition::Ablated),
            ) {
                (Some(random), Some(ablated)) => Some(ablated.mean_loss.is_less(random.mean_loss)),
                _ => None,
            },
    {
        match self.get(NeighbourCondition::Random) {
            Some(random) => {
                match self.get(NeighbourCondition::Ablated) {
                    Some(ablated) => Some(ablated.mean_loss.less(random.mean_loss)),
                    None => None,
                }
            },
            None => None,
        }
    }
}

proof fn lemma_position_stays(
    conditions: Seq<ConditionReport>,
    condition: NeighbourCondition,
    low: nat,
    high: nat,
)
    requires
        low <= high,
        position_of(conditions, condition, low) is Some,
    ensures
        position_of(conditions, condition, high) == position_of(conditions, condition, low),
    decreases high,
{
    if low < high {
        lemma_position_stays(conditions, condition, low, (high - 1) as nat);
    }
}

/// Runs the protocol.
#[derive(Clone, Debug)]
pub struct Evaluator {
    cca: CcaConfig,
    loss: MaskedDiffusionLoss,
    mask_token: MaskToken,
    bands: Vec<(Binary32, Binary32)>,
    rng: Rng,
}

/// Whether a level falls in a band: at or above its lower edge and below its
/// upper one, which a band that reaches one takes in too.
pub open spec fn in_band(t: Binary32, band: (Binary32, Binary32)) -> bool {
    let one = Binary32 { bits: ONE_BITS };
    band.0.is_at_most(t) && (t.is_less(band.1) || (one.is_at_most(band.1) && t.is_at_most(one)))
}

/// The first band among the first `upto` that a level falls in.
pub open spec fn band_index(
    t: Binary32,
    bands: Seq<(Binary32, Binary32)>,
    upto: nat,
) -> Option<usize>
    decreases upto,
{
    if upto == 0 {
        None
    } else {
        match band_index(t, bands, (upto - 1) as nat) {
            Some(i) => Some(i),
            None => if in_band(t, bands[upto - 1]) {
                Some((upto - 1) as usize)
            } else {
                None
            },
        }
    }
}

proof fn lemma_band_stays(t: Binary32, bands: Seq<(Binary32, Binary32)>, low: nat, high: nat)
    requires
        low <= high,
        band_index(t, bands, low) is Some,
    ensures
        band_index(t, bands, high) == band_index(t, bands, low),
    decreases high,
{
    if low < high {
        lemma_band_stays(t, bands, low, (high - 1) as nat);
    }
}

/// The seed that a document and a level give: every condition masks with it,
/// so that all of them see the same corruption.
pub open spec fn eval_seed(document: u64, t: Binary32) -> u64 {
    let scaled = Binary32 { bits: t.product_bits((Binary32 { bits: 0x4974_2400 })) };
    document ^ scaled.whole_part().wrapping_mul(0x9E37_79B9)
}

/// What one trial hands to the session.
#[derive(Clone, Debug)]
pub struct PreparedScore {
    /// The view the graph reads.
    pub view: NoisedView,
    /// The dense label tensor.
    pub labels: Vec<Binary32>,
    /// The rest of what the graph is fed.
    pub inputs: StepInputs,
}

/// Whether the block of `chunk` holds anything but mask tokens.
pub open spec fn block_filled(tokens: Seq<u32>, mask: u32, rows: int, chunk: int) -> bool {
    exists|i: int|
        chunk * rows <= i < chunk * rows + rows && 0 <= i < tokens.len() && #[trigger] tokens[i]
            != mask
}

/// The tokens a slot holds at random: those of a drawn corpus passage, or
/// mask tokens where there is none.
pub open spec fn random_slot(
    corpus: NeighbourCorpus,
    mask: u32,
    r: nat,
    seed: u64,
) -> Seq<u32> {
    let pick = crate::retrieval::corpus::id_of(
        (crate::rng::drawn(seed) % (corpus@.documents.len() as u64)) as nat,
    );
    if pick.0 * corpus@.r + corpus@.r <= corpus@.tokens.len() {
        crate::retrieval::corpus::slot(corpus@.tokens, pick.0 as int, corpus@.r as int)
    } else {
        Seq::new(r, |i: int| mask)
    }
}

/// The tokens of the first `upto` slots at random.
pub open spec fn random_slots(
    corpus: NeighbourCorpus,
    mask: u32,
    r: nat,
    seed: u64,
    upto: nat,
) -> Seq<u32>
    decreases upto,
{
    if upto == 0 {
        Seq::empty()
    } else {
        let i = (upto - 1) as nat;
        random_slots(corpus, mask, r, seed, i) + random_slot(
            corpus,
            mask,
            r,
            crate::rng::advanced_by(seed, i),
        )
    }
}

/// How many tokens of its own continuation chunk `chunk` can be given.
pub open spec fn oracle_take(content: int, m: int, r: int, chunk: int) -> int {
    let available = content - chunk * m;
    if available <= 0 {
        0
    } else if available < r {
        available
    } else {
        r
    }
}

/// The tokens a slot of `chunk` holds under the oracle: the chunk and its
/// continuation, as far as there is any.
pub open spec fn oracle_slot(
    seq: TrainingSequence,
    mask: u32,
    m: int,
    r: int,
    chunk: int,
) -> Seq<u32> {
    let take = oracle_take(seq.content_len as int, m, r, chunk);
    seq.tokens@.subrange(chunk * m, chunk * m + take) + Seq::new((r - take) as nat, |i: int| mask)
}

/// The tokens of the first `upto` slots under the oracle, `k` to a chunk.
pub open spec fn oracle_slots(
    seq: TrainingSequence,
    mask: u32,
    m: int,
    k: int,
    r: int,
    upto: nat,
) -> Seq<u32>
    decreases upto,
{
    if upto == 0 {
        Seq::empty()
    } else {
        oracle_slots(seq, mask, m, k, r, (upto - 1) as nat) + oracle_slot(
            seq,
            mask,
            m,
            r,
            (upto - 1) / k,
        )
    }
}

/// The neighbour block when there are none: mask tokens throughout.
pub open spec fn blank_block(cca: CcaConfig, mask: u32) -> Seq<u32> {
    Seq::new((cca.l() * cca.k() * cca.r()) as nat, |i: int| mask)
}

/// Whether `found` is what evaluation retrieves for a view: what the index
/// answers to the queries of its chunks, all of them admitted.
pub open spec fn evaluated_neighbours<I: NeighbourIndex, E: ChunkEmbedder>(
    found: Neighbours,
    queries: crate::chunk::ChunkQueries,
    admission: ChunkAdmission,
    cca: CcaConfig,
    view: NoisedView,
    document: crate::retrieval::corpus::DocumentId,
    embedder: E,
    index: I,
    guard: LeakageGuard,
    corpus: NeighbourCorpus,
) -> bool {
    &&& admission.limit().bits == ONE_BITS
    &&& crate::retrieval::retrieved_for_view(
        found,
        queries,
        view,
        cca,
        admission,
        embedder,
        index,
        corpus,
        guard,
        document,
    )
}

/// The neighbour block of a condition.
pub open spec fn condition_block<I: NeighbourIndex, E: ChunkEmbedder>(
    tokens: Seq<u32>,
    condition: NeighbourCondition,
    cca: CcaConfig,
    mask: u32,
    seed: u64,
    view: NoisedView,
    seq: TrainingSequence,
    embedder: E,
    index: I,
    guard: LeakageGuard,
    corpus: NeighbourCorpus,
) -> bool {
    match condition {
        NeighbourCondition::Ablated => tokens == blank_block(cca, mask),
        NeighbourCondition::Real => if crate::schedule::gate_open(view@.t, Phase::Inference) {
            exists|
                found: Neighbours,
                queries: crate::chunk::ChunkQueries,
                admission: ChunkAdmission,
            | #[trigger]
                evaluated_neighbours(
                    found,
                    queries,
                    admission,
                    cca,
                    view,
                    seq.document,
                    embedder,
                    index,
                    guard,
                    corpus,
                ) && tokens == crate::generate::blocks_of(cca, mask, Some(found), cca.l() as int)
        } else {
            tokens == blank_block(cca, mask)
        },
        NeighbourCondition::Random => if corpus@.documents.len() == 0 {
            tokens == blank_block(cca, mask)
        } else {
            tokens == random_slots(
                corpus,
                mask,
                cca.r() as nat,
                seed,
                (cca.l() * cca.k()) as nat,
            )
        },
        NeighbourCondition::Oracle => tokens == oracle_slots(
            seq,
            mask,
            cca.m() as int,
            cca.k() as int,
            cca.r() as int,
            (cca.l() * cca.k()) as nat,
        ),
    }
}

/// How many draws a condition takes from the evaluator's generator.
pub open spec fn condition_draws(
    condition: NeighbourCondition,
    cca: CcaConfig,
    corpus: NeighbourCorpus,
) -> nat {
    if condition == NeighbourCondition::Random && corpus@.documents.len() > 0 {
        (cca.l() * cca.k()) as nat
    } else {
        0
    }
}

/// The retrieval mask of a trial: one in the rows of a chunk whose block
/// holds anything but mask tokens.
pub open spec fn score_mask(cca: CcaConfig, mask: u32, tokens: Seq<u32>) -> Seq<Binary32> {
    Seq::new(
        cca.n() as nat,
        |row: int|
            Binary32 {
                bits: if block_filled(
                    tokens,
                    mask,
                    cca.k() * cca.r(),
                    row / cca.m() as int,
                ) {
                    ONE_BITS
                } else {
                    0
                },
            },
    )
}

/// Whether masking `seq` at `t` leaves anything to score.
pub open spec fn scores(seq: TrainingSequence, t: Binary32) -> bool {
    crate::view::count_true(
        crate::train::mask_draws(
            eval_seed(seq.document.0, t),
            t,
            seq.content_len as nat,
            seq.tokens@.len(),
        ),
    ) > 0
}

/// What every condition sees of `seq` at `t`.
pub open spec fn evaluated_view(
    clean: CleanSequence,
    view: NoisedView,
    seq: TrainingSequence,
    t: NoiseLevel,
    mask_token: MaskToken,
) -> bool {
    &&& clean@ == seq.tokens@
    &&& view.wf()
    &&& view@.t == t
    &&& view@.mask_token == mask_token
    &&& view@.source == Some(clean.identity())
    &&& view@.masked == crate::train::mask_draws(
        eval_seed(seq.document.0, t.value()),
        t.value(),
        seq.content_len as nat,
        seq.tokens@.len(),
    )
    &&& view@.tokens == crate::view::masked_tokens(seq.tokens@, view@.masked, mask_token)
}

/// Every condition sees the same corruption of the same sequence.
pub proof fn law_conditions_see_one_corruption(
    clean_a: CleanSequence,
    view_a: NoisedView,
    clean_b: CleanSequence,
    view_b: NoisedView,
    seq: TrainingSequence,
    t: NoiseLevel,
    mask_token: MaskToken,
)
    requires
        evaluated_view(clean_a, view_a, seq, t, mask_token),
        evaluated_view(clean_b, view_b, seq, t, mask_token),
    ensures
        view_a@.tokens == view_b@.tokens,
        view_a@.masked == view_b@.masked,
{
}

/// The number of whole slots of one block, and that they fit.
proof fn lemma_slots(cca: CcaConfig)
    requires
        cca.wf(),
        cca.l() * cca.k() * cca.r() <= usize::MAX,
    ensures
        0 < cca.l() * cca.k() <= usize::MAX,
        0 < cca.k() * cca.r() <= usize::MAX,
        cca.l() * (cca.k() * cca.r()) == cca.l() * cca.k() * cca.r(),
{
    cca.lemma_chunks();
    let (l, k, r) = (cca.l() as int, cca.k() as int, cca.r() as int);
    assert(l * (k * r) == l * k * r && 0 < k * r <= l * k * r && 0 < l * k <= l * k * r)
        by (nonlinear_arith)
        requires
            l > 0,
            k > 0,
            r > 0,
    ;
}

/// Where a slot's tokens stand among those of the first `upto` slots.
proof fn lemma_oracle_place(
    seq: TrainingSequence,
    mask: u32,
    m: int,
    k: int,
    r: int,
    l: int,
    upto: nat,
    slot: int,
    i: int,
)
    requires
        m > 0,
        k > 0,
        r > 0,
        seq.content_len <= seq.tokens@.len() == l * m,
        0 <= slot < upto <= l * k,
        0 <= i < r,
    ensures
        oracle_slots(seq, mask, m, k, r, upto).len() == upto * r,
        oracle_slots(seq, mask, m, k, r, upto)[slot * r + i] == if (slot / k) * m + i
            < seq.content_len {
            seq.tokens@[(slot / k) * m + i]
        } else {
            mask
        },
    decreases upto,
{
    let last = (upto - 1) as nat;
    let chunk = last as int / k;
    assert(upto * r == last * r + r) by (nonlinear_arith)
        requires
            upto == last + 1,
    ;
    assert(chunk >= 0) by {
        vstd::arithmetic::div_mod::lemma_div_pos_is_pos(last as int, k);
    }
    assert(chunk < l) by {
        vstd::arithmetic::div_mod::lemma_fundamental_div_mod(last as int, k);
        assert(chunk < l) by (nonlinear_arith)
            requires
                k * chunk <= last,
                last < l * k,
                k > 0,
        ;
    }
    assert(0 <= chunk * m <= l * m) by (nonlinear_arith)
        requires
            0 <= chunk < l,
            m > 0,
    ;
    assert(oracle_slot(seq, mask, m, r, chunk).len() == r);
    if last > 0 {
        lemma_oracle_place(seq, mask, m, k, r, l, last, if slot < last { slot } else { 0 }, i);
    } else {
        assert(oracle_slots(seq, mask, m, k, r, 0).len() == 0);
        assert(0 * r == 0) by (nonlinear_arith);
    }
    if slot < last {
        assert(0 <= slot * r + i < last * r) by (nonlinear_arith)
            requires
                0 <= slot < last,
                0 <= i < r,
        ;
    } else {
        assert(oracle_slots(seq, mask, m, k, r, upto)[slot * r + i] == oracle_slot(
            seq,
            mask,
            m,
            r,
            chunk,
        )[i]);
    }
}

/// Slot `j` of chunk `chunk` is slot `chunk * k + j` of all.
proof fn lemma_slot_of_chunk(cca: CcaConfig, chunk: int, j: int)
    requires
        cca.wf(),
        0 <= chunk < cca.l(),
        0 <= j < cca.k(),
    ensures
        0 <= chunk * cca.k() + j < cca.l() * cca.k(),
        (chunk * cca.k() + j) / cca.k() as int == chunk,
{
    let (l, k) = (cca.l() as int, cca.k() as int);
    assert(0 <= chunk * k + j < l * k) by (nonlinear_arith)
        requires
            0 <= chunk < l,
            0 <= j < k,
    ;
    vstd::arithmetic::div_mod::lemma_fundamental_div_mod_converse(chunk * k + j, k, chunk, j);
}

/// The oracle shows every chunk its own text: token `i` of every slot of a chunk
/// is the token `i` places after the start of that chunk, as far as the content
/// goes, and the mask token behind it.
pub proof fn law_the_oracle_shows_a_chunk_and_its_continuation<
    I: NeighbourIndex,
    E: ChunkEmbedder,
>(
    tokens: Seq<u32>,
    cca: CcaConfig,
    mask: u32,
    seed: u64,
    view: NoisedView,
    seq: TrainingSequence,
    embedder: E,
    index: I,
    guard: LeakageGuard,
    corpus: NeighbourCorpus,
    chunk: int,
    j: int,
    i: int,
)
    requires
        cca.wf(),
        condition_block(
            tokens,
            NeighbourCondition::Oracle,
            cca,
            mask,
            seed,
            view,
            seq,
            embedder,
            index,
            guard,
            corpus,
        ),
        seq.content_len <= seq.tokens@.len() == cca.n(),
        0 <= chunk < cca.l(),
        0 <= j < cca.k(),
        0 <= i < cca.r(),
    ensures
        tokens.len() == cca.l() * cca.k() * cca.r(),
        tokens[(chunk * cca.k() + j) * cca.r() + i] == if chunk * cca.m() + i < seq.content_len {
            seq.tokens@[chunk * cca.m() + i]
        } else {
            mask
        },
{
    cca.lemma_chunks();
    lemma_slot_of_chunk(cca, chunk, j);
    lemma_oracle_place(
        seq,
        mask,
        cca.m() as int,
        cca.k() as int,
        cca.r() as int,
        cca.l() as int,
        (cca.l() * cca.k()) as nat,
        chunk * cca.k() + j,
        i,
    );
}

/// Where a drawn slot's tokens stand among those of the first `upto` slots.
proof fn lemma_random_place(
    corpus: NeighbourCorpus,
    mask: u32,
    r: nat,
    seed: u64,
    upto: nat,
    slot: int,
    i: int,
)
    requires
        corpus.wf(),
        corpus@.r == r,
        0 < corpus@.documents.len() <= u32::MAX,
        0 <= slot < upto,
        0 <= i < r,
    ensures
        random_slots(corpus, mask, r, seed, upto).len() == upto * r,
        ({
            let count = corpus@.documents.len();
            let pick = crate::rng::drawn(crate::rng::advanced_by(seed, slot as nat)) as nat % count;
            random_slots(corpus, mask, r, seed, upto)[slot * r + i] == corpus@.tokens[pick * r + i]
        }),
    decreases upto,
{
    let last = (upto - 1) as nat;
    let count = corpus@.documents.len();
    let state = crate::rng::advanced_by(seed, last);
    let pick = crate::rng::drawn(state) as nat % count;
    assert(upto * r == last * r + r) by (nonlinear_arith)
        requires
            upto == last + 1,
    ;
    assert(0 <= pick * r && pick * r + r <= count * r) by (nonlinear_arith)
        requires
            0 <= pick < count,
    ;
    assert(crate::rng::drawn(state) % (count as u64) == pick);
    assert(crate::retrieval::corpus::id_of(pick).0 == pick);
    assert(random_slot(corpus, mask, r, state) == crate::retrieval::corpus::slot(
        corpus@.tokens,
        pick as int,
        r as int,
    ));
    if last > 0 {
        lemma_random_place(corpus, mask, r, seed, last, if slot < last { slot } else { 0 }, i);
    } else {
        assert(random_slots(corpus, mask, r, seed, 0).len() == 0);
        assert(0 * r == 0) by (nonlinear_arith);
    }
    if slot < last {
        assert(0 <= slot * r + i < last * r) by (nonlinear_arith)
            requires
                0 <= slot < last,
                0 <= i < r,
        ;
    }
}

/// At random, every slot holds a passage of the corpus, drawn anew for the slot
/// and without regard to the sequence or the view.
pub proof fn law_random_slots_hold_drawn_passages<I: NeighbourIndex, E: ChunkEmbedder>(
    tokens: Seq<u32>,
    cca: CcaConfig,
    mask: u32,
    seed: u64,
    view: NoisedView,
    seq: TrainingSequence,
    embedder: E,
    index: I,
    guard: LeakageGuard,
    corpus: NeighbourCorpus,
    chunk: int,
    j: int,
    i: int,
)
    requires
        cca.wf(),
        condition_block(
            tokens,
            NeighbourCondition::Random,
            cca,
            mask,
            seed,
            view,
            seq,
            embedder,
            index,
            guard,
            corpus,
        ),
        corpus.wf(),
        corpus@.r == cca.r(),
        0 < corpus@.documents.len() <= u32::MAX,
        0 <= chunk < cca.l(),
        0 <= j < cca.k(),
        0 <= i < cca.r(),
    ensures
        tokens.len() == cca.l() * cca.k() * cca.r(),
        ({
            let slot = (chunk * cca.k() + j) as nat;
            let pick = crate::rng::drawn(crate::rng::advanced_by(seed, slot)) as nat
                % corpus@.documents.len();
            tokens[slot * cca.r() + i] == corpus@.tokens[pick * cca.r() + i]
        }),
{
    cca.lemma_chunks();
    lemma_slot_of_chunk(cca, chunk, j);
    lemma_random_place(
        corpus,
        mask,
        cca.r() as nat,
        seed,
        (cca.l() * cca.k()) as nat,
        chunk * cca.k() + j,
        i,
    );
}

/// Without neighbours, and with no corpus to draw from, every slot holds mask
/// tokens, and no row attends.
pub proof fn law_an_ablated_trial_shows_nothing<I: NeighbourIndex, E: ChunkEmbedder>(
    tokens: Seq<u32>,
    condition: NeighbourCondition,
    cca: CcaConfig,
    mask: u32,
    seed: u64,
    view: NoisedView,
    seq: TrainingSequence,
    embedder: E,
    index: I,
    guard: LeakageGuard,
    corpus: NeighbourCorpus,
    i: int,
    row: int,
)
    requires
        cca.wf(),
        condition_block(
            tokens,
            condition,
            cca,
            mask,
            seed,
            view,
            seq,
            embedder,
            index,
            guard,
            corpus,
        ),
        condition == NeighbourCondition::Ablated || (condition == NeighbourCondition::Random
            && corpus@.documents.len() == 0),
        0 <= i < cca.l() * cca.k() * cca.r(),
        0 <= row < cca.n(),
    ensures
        tokens.len() == cca.l() * cca.k() * cca.r(),
        tokens[i] == mask,
        score_mask(cca, mask, tokens)[row].bits == 0,
{
}

/// A row of a trial attends exactly where some slot of its own chunk holds a
/// token other than the mask.
pub proof fn law_a_row_attends_where_its_chunk_was_given_something(
    cca: CcaConfig,
    mask: u32,
    tokens: Seq<u32>,
    chunk: int,
    row: int,
)
    requires
        cca.wf(),
        tokens.len() == cca.l() * cca.k() * cca.r(),
        0 <= chunk < cca.l(),
        0 <= row < cca.m(),
    ensures
        score_mask(cca, mask, tokens).len() == cca.n(),
        (exists|i: int|
            0 <= i < cca.k() * cca.r() && #[trigger] tokens[chunk * (cca.k() * cca.r()) + i] != mask)
            ==> score_mask(cca, mask, tokens)[chunk * cca.m() + row].bits == ONE_BITS,
        (forall|i: int|
            0 <= i < cca.k() * cca.r() ==> #[trigger] tokens[chunk * (cca.k() * cca.r()) + i]
                == mask) ==> score_mask(cca, mask, tokens)[chunk * cca.m() + row].bits == 0,
{
    cca.lemma_chunks();
    let (l, m, k, r) = (cca.l() as int, cca.m() as int, cca.k() as int, cca.r() as int);
    let rows = k * r;
    assert(0 <= chunk * m + row < l * m) by (nonlinear_arith)
        requires
            0 <= chunk < l,
            0 <= row < m,
    ;
    assert(0 <= chunk * rows && chunk * rows + rows <= l * k * r) by (nonlinear_arith)
        requires
            0 <= chunk < l,
            rows == k * r,
            k > 0,
            r > 0,
    ;
    vstd::arithmetic::div_mod::lemma_fundamental_div_mod_converse(chunk * m + row, m, chunk, row);
    if exists|i: int| 0 <= i < rows && #[trigger] tokens[chunk * rows + i] != mask {
        let i = choose|i: int| 0 <= i < rows && #[trigger] tokens[chunk * rows + i] != mask;
        assert(tokens[chunk * rows + i] != mask);
        assert(block_filled(tokens, mask, rows, chunk));
    } else {
        assert forall|at: int|
            chunk * rows <= at < chunk * rows + rows && 0 <= at < tokens.len() implies #[trigger] tokens[at]
            == mask by {
            assert(tokens[chunk * rows + (at - chunk * rows)] == mask);
        }
    }
}

/// Append `count` mask tokens.
fn pad(tokens: &mut Vec<u32>, mask: u32, count: usize)
    ensures
        final(tokens)@ == old(tokens)@ + Seq::new(count as nat, |i: int| mask),
{
    let blank: Vec<u32> = vec![mask; count];
    let ghost before = tokens@;
    tokens.extend_from_slice(blank.as_slice());
    proof {
        assert(tokens@ =~= before + Seq::new(count as nat, |i: int| mask));
    }
}

impl Evaluator {
    /// The shapes.
    pub closed spec fn shapes(self) -> CcaConfig {
        self.cca
    }

    /// The objective.
    pub closed spec fn objective(self) -> MaskedDiffusionLoss {
        self.loss
    }

    /// The mask token.
    pub closed spec fn mask(self) -> MaskToken {
        self.mask_token
    }

    /// The noise bands.
    pub closed spec fn edges(self) -> Seq<(Binary32, Binary32)> {
        self.bands@
    }

    /// Where the generator of random neighbours stands.
    pub closed spec fn seed(self) -> u64 {
        self.rng.seed()
    }

    /// The buffers a trial fills can be held in memory.
    pub open spec fn wf(self) -> bool {
        &&& self.shapes().wf()
        &&& self.shapes().l() * self.shapes().k() * self.shapes().r() <= usize::MAX
        &&& self.shapes().n() * self.objective().vocab() <= usize::MAX
    }

    /// Everything but the generator stays as it is.
    pub open spec fn keeps(self, other: Evaluator) -> bool {
        &&& self.shapes() == other.shapes()
        &&& self.objective() == other.objective()
        &&& self.mask() == other.mask()
        &&& self.edges() == other.edges()
    }

    /// Five equal bands over `[0, 1]`.
    pub fn default_bands() -> (bands: Vec<(Binary32, Binary32)>)
        ensures
            bands@ == Seq::new(5, |i: int| (band_edge(i as nat), band_edge((i + 1) as nat))),
    {
        let mut bands: Vec<(Binary32, Binary32)> = Vec::new();
        let fifth: Binary32 = Binary32::from_bits(0x3E4C_CCCD);
        let mut i: u64 = 0;
        while i < 5
            invariant
                i <= 5,
                fifth.bits == 0x3E4C_CCCDu32,
                bands@ == Seq::new(
                    i as nat,
                    |j: int| (band_edge(j as nat), band_edge((j + 1) as nat)),
                ),
            decreases 5 - i,
        {
            let low: Binary32 = Binary32::from_count(i).times(fifth);
            let high: Binary32 = Binary32::from_count(i + 1).times(fifth);
            bands.push((low, high));
            proof {
                assert(fifth == (Binary32 { bits: 0x3E4C_CCCD }));
                assert(bands@ =~= Seq::new(
                    (i + 1) as nat,
                    |j: int| (band_edge(j as nat), band_edge((j + 1) as nat)),
                ));
            }
            i = i + 1;
        }
        bands
    }

    /// An evaluator over `cca` shapes and a `vocab_size` vocabulary.
    pub fn new(cca: CcaConfig, vocab_size: usize, mask_token: MaskToken, seed: u64) -> (evaluator:
        Self)
        ensures
            evaluator.shapes() == cca,
            evaluator.objective().vocab() == vocab_size,
            evaluator.objective().floor().bits == crate::loss::DEFAULT_MIN_T,
            evaluator.mask() == mask_token,
            evaluator.edges() == Seq::new(
                5,
                |i: int| (band_edge(i as nat), band_edge((i + 1) as nat)),
            ),
            evaluator.seed() == seed,
    {
        Evaluator {
            cca,
            loss: MaskedDiffusionLoss::new(vocab_size),
            mask_token,
            bands: Self::default_bands(),
            rng: Rng::new(seed),
        }
    }

    /// Override the noise bands.
    pub fn with_bands(self, bands: Vec<(Binary32, Binary32)>) -> (evaluator: Self)
        ensures
            evaluator.shapes() == self.shapes(),
            evaluator.objective() == self.objective(),
            evaluator.mask() == self.mask(),
            evaluator.edges() == bands@,
            evaluator.seed() == self.seed(),
    {
        Evaluator {
            cca: self.cca,
            loss: self.loss,
            mask_token: self.mask_token,
            bands,
            rng: self.rng,
        }
    }

    /// The first band that `t` falls in.
    pub fn band_of(&self, t: NoiseLevel) -> (band: Option<usize>)
        ensures
            band == band_index(t.value(), self.edges(), self.edges().len()),
            band matches Some(i) ==> i < self.edges().len(),
    {
        let v: Binary32 = t.get();
        let one: Binary32 = Binary32::from_bits(ONE_BITS);
        let mut i: usize = 0;
        while i < self.bands.len()
            invariant
                i <= self.bands@.len(),
                v == t.value(),
                one.bits == ONE_BITS,
                band_index(v, self.bands@, i as nat) is None,
            decreases self.bands.len() - i,
        {
            let (low, high) = self.bands[i];
            if low.at_most(v) && (v.less(high) || (one.at_most(high) && v.at_most(one))) {
                proof {
                    assert(one == (Binary32 { bits: ONE_BITS }));
                    lemma_band_stays(v, self.bands@, (i + 1) as nat, self.bands@.len());
                }
                return Some(i);
            }
            i = i + 1;
        }
        None
    }

    /// Mask deterministically from `t` so every condition sees the *same*
    /// corruption of the same sequence. Re-drawing per condition would put
    /// the masking noise into the differences the protocol is reading.
    pub fn deterministic_view(
        &self,
        seq: &TrainingSequence,
        t: NoiseLevel,
        ids: &mut IdSource,
    ) -> (pair: (CleanSequence, NoisedView))
        ensures
            evaluated_view(pair.0, pair.1, *seq, t, self.mask()),
            forall|i: int|
                seq.content_len <= i < seq.tokens@.len() ==> !(#[trigger] pair.1@.masked[i]),
            pair.0.identity().value() == old(ids).sequences(),
            pair.1@.id.value() == old(ids).views(),
            crate::view::drawn(*old(ids), *final(ids), 1, 1),
    {
        let mut tokens: Vec<u32> = Vec::new();
        tokens.extend_from_slice(seq.tokens.as_slice());
        proof {
            assert(tokens@ =~= seq.tokens@);
        }
        let clean: CleanSequence = CleanSequence::new(tokens, ids);
        let scaled: u64 = t.get().times(Binary32::from_bits(0x4974_2400)).to_whole();
        let mut rng: Rng = Rng::new(seq.document.0 ^ scaled.wrapping_mul(0x9E37_79B9));
        let draws: Vec<bool> = draw_mask(&mut rng, t, seq.content_len, seq.tokens.len());
        let view: NoisedView = clean.mask_at(t, self.mask_token, draws, ids);
        proof {
            crate::view::lemma_one_draw(old(ids).views());
            crate::view::lemma_one_draw(old(ids).sequences());
        }
        (clean, view)
    }

    /// The neighbours the index holds for `view`, if the inference gate is
    /// open.
    ///
    /// Evaluation is inference: there is no held-out answer to leak, so the
    /// inference band applies and every chunk is admitted.
    fn real_neighbours<I: NeighbourIndex, E: ChunkEmbedder>(
        &self,
        view: &NoisedView,
        seq: &TrainingSequence,
        sources: &mut RetrievalSources<'_, I, E>,
    ) -> (found: Option<Neighbours>)
        requires
            self.wf(),
            view.wf(),
            view@.tokens.len() == self.shapes().n(),
            old(sources).embedder.dim() == old(sources).index.width(),
            old(sources).corpus@.r == self.shapes().r(),
            self.shapes().l() * old(sources).embedder.dim() <= usize::MAX,
        ensures
            found is Some <==> crate::schedule::gate_open(view@.t, Phase::Inference),
            found is Some ==> exists|
                queries: crate::chunk::ChunkQueries,
                admission: ChunkAdmission,
            | #[trigger]
                evaluated_neighbours(
                    found->0,
                    queries,
                    admission,
                    self.shapes(),
                    *view,
                    seq.document,
                    *old(sources).embedder,
                    *old(sources).index,
                    *old(sources).guard,
                    *old(sources).corpus,
                ),
            final(sources).index == old(sources).index,
            final(sources).corpus == old(sources).corpus,
            final(sources).guard == old(sources).guard,
            crate::chunk::encodes_alike(*final(sources).embedder, *old(sources).embedder),
    {
        match ChunkedView::new(view, self.cca) {
            Ok(chunked) => {
                let admission: ChunkAdmission = ChunkAdmission::permissive();
                match chunk_queries(chunked, Phase::Inference, admission, sources.embedder) {
                    Some(queries) => {
                        let found: Neighbours = retrieve(
                            &queries,
                            self.cca,
                            sources.index,
                            sources.corpus,
                            sources.guard,
                            seq.document,
                        );
                        let result: Option<Neighbours> = Some(found);
                        proof {
                            assert(evaluated_neighbours(
                                result->0,
                                queries,
                                admission,
                                self.cca,
                                *view,
                                seq.document,
                                *old(sources).embedder,
                                *old(sources).index,
                                *old(sources).guard,
                                *old(sources).corpus,
                            ));
                        }
                        result
                    },
                    None => None,
                }
            },
            Err(_) => None,
        }
    }

    /// Corpus passages chosen at random, one per slot.
    ///
    /// Real passages, wrong ones. They are well-formed text from the same
    /// corpus, so any degradation is about relevance rather than about the
    /// input turning to noise.
    fn random_block(&mut self, corpus: &NeighbourCorpus) -> (tokens: Vec<u32>)
        requires
            old(self).wf(),
            corpus@.r == old(self).shapes().r(),
            corpus@.documents.len() > 0,
        ensures
            tokens@ == random_slots(
                *corpus,
                old(self).mask().0,
                old(self).shapes().r() as nat,
                old(self).seed(),
                (old(self).shapes().l() * old(self).shapes().k()) as nat,
            ),
            tokens@.len() == old(self).shapes().l() * old(self).shapes().k()
                * old(self).shapes().r(),
            final(self).keeps(*old(self)),
            final(self).seed() == crate::rng::advanced_by(
                old(self).seed(),
                (old(self).shapes().l() * old(self).shapes().k()) as nat,
            ),
    {
        proof {
            lemma_slots(self.cca);
        }
        let r: usize = self.cca.neighbour_len();
        let slots: usize = self.cca.num_chunks() * self.cca.neighbours_per_chunk();
        let count: usize = corpus.len();
        let ghost seed = self.rng.seed();
        let ghost mask = self.mask_token.0;
        let mut tokens: Vec<u32> = Vec::new();
        let mut i: usize = 0;
        while i < slots
            invariant
                i <= slots,
                self.keeps(*old(self)),
                mask == self.mask_token.0,
                r == corpus@.r,
                count == corpus@.documents.len(),
                count > 0,
                tokens@ == random_slots(*corpus, mask, r as nat, seed, i as nat),
                tokens@.len() == i * r,
                self.rng.seed() == crate::rng::advanced_by(seed, i as nat),
            decreases slots - i,
        {
            let ghost before = tokens@;
            let pick = neighbour_id(self.rng.below(count));
            match corpus.tokens(pick) {
                Some(passage) => {
                    tokens.extend_from_slice(passage);
                },
                None => {
                    pad(&mut tokens, self.mask_token.0, r);
                },
            }
            proof {
                let state = crate::rng::advanced_by(seed, i as nat);
                assert(pick.0 * r >= 0) by (nonlinear_arith);
                assert(tokens@ =~= before + random_slot(*corpus, mask, r as nat, state));
                assert((i + 1) * r == i * r + r) by (nonlinear_arith);
            }
            i = i + 1;
        }
        tokens
    }

    /// The chunk plus its true continuation, in every slot: exactly what a
    /// perfect retriever would return. Padded chunks near the tail simply get
    /// less of it.
    fn oracle_block(&self, seq: &TrainingSequence) -> (tokens: Vec<u32>)
        requires
            self.wf(),
            seq.content_len <= seq.tokens@.len(),
            seq.tokens@.len() == self.shapes().n(),
        ensures
            tokens@ == oracle_slots(
                *seq,
                self.mask().0,
                self.shapes().m() as int,
                self.shapes().k() as int,
                self.shapes().r() as int,
                (self.shapes().l() * self.shapes().k()) as nat,
            ),
            tokens@.len() == self.shapes().l() * self.shapes().k() * self.shapes().r(),
    {
        proof {
            lemma_slots(self.cca);
            self.cca.lemma_chunks();
        }
        let m: usize = self.cca.chunk_size();
        let k: usize = self.cca.neighbours_per_chunk();
        let r: usize = self.cca.neighbour_len();
        let l: usize = self.cca.num_chunks();
        let slots: usize = l * k;
        let mask: u32 = self.mask_token.0;
        let mut tokens: Vec<u32> = Vec::new();
        let mut i: usize = 0;
        while i < slots
            invariant
                i <= slots,
                slots == l * k,
                k > 0,
                l * m == seq.tokens@.len(),
                l * m <= usize::MAX,
                seq.content_len <= seq.tokens@.len(),
                tokens@ == oracle_slots(*seq, mask, m as int, k as int, r as int, i as nat),
                tokens@.len() == i * r,
            decreases slots - i,
        {
            let ghost before = tokens@;
            let chunk: usize = i / k;
            proof {
                assert(chunk < l) by (nonlinear_arith)
                    requires
                        chunk == i / k,
                        i < l * k,
                        k > 0,
                ;
                crate::chunk::lemma_slot_in_range(chunk as int, l as int, m as int);
            }
            let from: usize = chunk * m;
            let available: usize = if seq.content_len > from {
                seq.content_len - from
            } else {
                0
            };
            let take: usize = if available < r {
                available
            } else {
                r
            };
            let slice: &[u32] = vstd::slice::slice_subrange(
                seq.tokens.as_slice(),
                from,
                from + take,
            );
            tokens.extend_from_slice(slice);
            pad(&mut tokens, mask, r - take);
            proof {
                assert(take == oracle_take(
                    seq.content_len as int,
                    m as int,
                    r as int,
                    chunk as int,
                ));
                assert(tokens@ =~= before + oracle_slot(
                    *seq,
                    mask,
                    m as int,
                    r as int,
                    chunk as int,
                ));
                assert((i + 1) * r == i * r + r) by (nonlinear_arith);
            }
            i = i + 1;
        }
        tokens
    }

    /// The neighbour block of `condition`.
    fn fill_neighbours<I: NeighbourIndex, E: ChunkEmbedder>(
        &mut self,
        view: &NoisedView,
        seq: &TrainingSequence,
        condition: NeighbourCondition,
        sources: &mut RetrievalSources<'_, I, E>,
    ) -> (tokens: Vec<u32>)
        requires
            old(self).wf(),
            view.wf(),
            view@.tokens.len() == old(self).shapes().n(),
            seq.tokens@.len() == old(self).shapes().n(),
            condition_ready(condition, old(self).shapes(), *seq, *old(sources)),
        ensures
            condition_block(
                tokens@,
                condition,
                old(self).shapes(),
                old(self).mask().0,
                old(self).seed(),
                *view,
                *seq,
                *old(sources).embedder,
                *old(sources).index,
                *old(sources).guard,
                *old(sources).corpus,
            ),
            tokens@.len() == old(self).shapes().l() * old(self).shapes().k()
                * old(self).shapes().r(),
            final(self).keeps(*old(self)),
            final(self).seed() == crate::rng::advanced_by(
                old(self).seed(),
                condition_draws(condition, old(self).shapes(), *old(sources).corpus),
            ),
            crate::train::sources_kept(*final(sources), *old(sources)),
    {
        proof {
            lemma_slots(self.cca);
        }
        let rows: usize = self.cca.neighbour_kv_rows();
        let total: usize = self.cca.num_chunks() * rows;
        let mut blank: Vec<u32> = Vec::new();
        pad(&mut blank, self.mask_token.0, total);
        proof {
            assert(blank@ =~= blank_block(self.cca, self.mask_token.0));
        }
        match condition {
            NeighbourCondition::Ablated => blank,
            NeighbourCondition::Real => {
                match self.real_neighbours(view, seq, sources) {
                    Some(found) => {
                        let mut mask: Vec<Binary32> = Vec::new();
                        let mut tokens: Vec<u32> = Vec::new();
                        fill_neighbour_inputs(
                            self.cca,
                            self.mask_token.0,
                            Some(&found),
                            &mut mask,
                            &mut tokens,
                        );
                        tokens
                    },
                    None => blank,
                }
            },
            NeighbourCondition::Random => {
                if sources.corpus.len() == 0 {
                    blank
                } else {
                    self.random_block(sources.corpus)
                }
            },
            NeighbourCondition::Oracle => self.oracle_block(seq),
        }
    }

    /// One in the rows of every chunk whose block holds a token.
    fn filled_rows(&self, tokens: &[u32]) -> (mask: Vec<Binary32>)
        requires
            self.wf(),
            tokens@.len() == self.shapes().l() * self.shapes().k() * self.shapes().r(),
        ensures
            mask@ == score_mask(self.shapes(), self.mask().0, tokens@),
    {
        proof {
            lemma_slots(self.cca);
            self.cca.lemma_chunks();
        }
        let m: usize = self.cca.chunk_size();
        let l: usize = self.cca.num_chunks();
        let rows: usize = self.cca.neighbour_kv_rows();
        let token: u32 = self.mask_token.0;
        let ghost goal = score_mask(self.cca, token, tokens@);
        let mut mask: Vec<Binary32> = Vec::new();
        let mut chunk: usize = 0;
        while chunk < l
            invariant
                chunk <= l,
                m == self.cca.m(),
                m > 0,
                l * m == self.cca.n(),
                rows == self.cca.k() * self.cca.r(),
                tokens@.len() == l * rows,
                l * rows <= usize::MAX,
                goal == score_mask(self.cca, token, tokens@),
                mask@.len() == chunk * m,
                mask@ == goal.take(chunk * m),
            decreases l - chunk,
        {
            proof {
                crate::chunk::lemma_slot_in_range(chunk as int, l as int, m as int);
                crate::chunk::lemma_slot_in_range(chunk as int, l as int, rows as int);
            }
            let start: usize = chunk * rows;
            let mut filled: bool = false;
            let mut i: usize = 0;
            while i < rows
                invariant
                    i <= rows,
                    start == chunk * rows,
                    start + rows <= tokens@.len(),
                    start + rows <= usize::MAX,
                    filled <==> exists|j: int|
                        start <= j < start + i && #[trigger] tokens@[j] != token,
                decreases rows - i,
            {
                if tokens[start + i] != token {
                    filled = true;
                }
                i = i + 1;
            }
            assert(filled == block_filled(tokens@, token, rows as int, chunk as int));
            let bits: u32 = if filled {
                ONE_BITS
            } else {
                0
            };
            let mut row: usize = 0;
            while row < m
                invariant
                    row <= m,
                    chunk < l,
                    m == self.cca.m(),
                    rows == self.cca.k() * self.cca.r(),
                    l * m == self.cca.n(),
                    chunk * m + m <= l * m,
                    filled == block_filled(tokens@, token, rows as int, chunk as int),
                    bits == if filled {
                        ONE_BITS
                    } else {
                        0u32
                    },
                    goal == score_mask(self.cca, token, tokens@),
                    mask@.len() == chunk * m + row,
                    mask@ == goal.take(chunk * m + row),
                decreases m - row,
            {
                mask.push(Binary32::from_bits(bits));
                proof {
                    let i = chunk * m + row;
                    vstd::arithmetic::div_mod::lemma_fundamental_div_mod_converse(
                        i,
                        m as int,
                        chunk as int,
                        row as int,
                    );
                    assert(goal[i].bits == bits);
                    assert(mask@ =~= goal.take(i + 1));
                }
                row = row + 1;
            }
            proof {
                assert((chunk + 1) * m == chunk * m + m) by (nonlinear_arith);
            }
            chunk = chunk + 1;
        }
        proof {
            assert(goal.take(l * m) =~= goal);
        }
        mask
    }

    /// Whether the buffers a trial fills can be held in memory.
    pub fn fits(&self) -> (fits: bool)
        requires
            self.shapes().wf(),
        ensures
            fits == self.wf(),
    {
        let (l, k, r): (usize, usize, usize) = (
            self.cca.num_chunks(),
            self.cca.neighbours_per_chunk(),
            self.cca.neighbour_len(),
        );
        proof {
            let (lk, rr) = (l * k, r as int);
            assert(lk > usize::MAX ==> lk * rr > usize::MAX) by (nonlinear_arith)
                requires
                    lk >= 0,
                    rr > 0,
            ;
        }
        let block_fits: bool = match l.checked_mul(k) {
            Some(slots) => slots.checked_mul(r).is_some(),
            None => false,
        };
        block_fits && self.cca.seq_len().checked_mul(self.loss.vocab_size()).is_some()
    }

    /// Whether a trial of `seq` at `t` under `condition` can be prepared.
    pub fn ready<I: NeighbourIndex, E: ChunkEmbedder>(
        &self,
        seq: &TrainingSequence,
        t: NoiseLevel,
        condition: NeighbourCondition,
        sources: &RetrievalSources<'_, I, E>,
    ) -> (ready: bool)
        requires
            self.shapes().wf(),
        ensures
            ready == trial_ready(*seq, t, condition, *self, *sources),
    {
        let n: usize = seq.tokens.len();
        if n != self.cca.seq_len() {
            return false;
        }
        let scaled: u64 = t.get().times(Binary32::from_bits(0x4974_2400)).to_whole();
        let mut rng: Rng = Rng::new(seq.document.0 ^ scaled.wrapping_mul(0x9E37_79B9));
        let draws: Vec<bool> = draw_mask(&mut rng, t, seq.content_len, n);
        let vocab: usize = self.loss.vocab_size();
        let mut i: usize = 0;
        while i < n
            invariant
                i <= n,
                n == seq.tokens@.len(),
                vocab == self.objective().vocab(),
                draws@ == crate::train::mask_draws(
                    eval_seed(seq.document.0, t.value()),
                    t.value(),
                    seq.content_len as nat,
                    n as nat,
                ),
                draws@.len() == n,
                forall|j: int| 0 <= j < i && #[trigger] draws@[j] ==> seq.tokens@[j] < vocab,
            decreases n - i,
        {
            if draws[i] && seq.tokens[i] as usize >= vocab {
                return false;
            }
            i += 1;
        }
        match condition {
            NeighbourCondition::Real => {
                let dim: usize = sources.embedder.embed_dim();
                dim == sources.index.query_dim() && sources.corpus.neighbour_len()
                    == self.cca.neighbour_len() && self.cca.num_chunks().checked_mul(
                    dim,
                ).is_some()
            },
            NeighbourCondition::Random => {
                sources.corpus.len() == 0 || sources.corpus.neighbour_len()
                    == self.cca.neighbour_len()
            },
            NeighbourCondition::Ablated => true,
            NeighbourCondition::Oracle => seq.content_len <= n,
        }
    }

    /// Prepare one trial: everything the session is fed, or `None` where the
    /// masking left nothing to score.
    pub fn prepare<I: NeighbourIndex, E: ChunkEmbedder>(
        &mut self,
        seq: &TrainingSequence,
        t: NoiseLevel,
        condition: NeighbourCondition,
        sources: &mut RetrievalSources<'_, I, E>,
        ids: &mut IdSource,
    ) -> (prepared: Option<PreparedScore>)
        requires
            old(self).wf(),
            trial_ready(*seq, t, condition, *old(self), *old(sources)),
        ensures
            final(self).keeps(*old(self)),
            crate::train::sources_kept(*final(sources), *old(sources)),
            prepared is Some <==> scores(*seq, t.value()),
            prepared is None ==> *final(self) == *old(self) && *final(sources) == *old(sources),
            final(self).seed() == crate::rng::advanced_by(
                old(self).seed(),
                trial_draws(*seq, t, condition, *old(self), *old(sources).corpus),
            ),
            prepared is Some ==> prepares(
                prepared->0,
                *seq,
                t,
                condition,
                *old(self),
                *old(sources),
            ),
            prepared is Some ==> prepared->0.view@.id.value() == old(ids).views(),
            crate::view::drawn(*old(ids), *final(ids), 1, 1),
    {
        let (clean, view) = self.deterministic_view(seq, t, ids);
        proof {
            crate::train::lemma_no_token_fault(
                view@.masked,
                clean@,
                self.loss.vocab(),
                clean@.len(),
            );
        }
        let mut labels: Vec<Binary32> = Vec::new();
        let stats = match self.loss.build_labels(&view, &clean, &mut labels) {
            Ok(stats) => stats,
            Err(_) => {
                proof {
                    assert(false);
                }
                return None;
            },
        };
        if !stats.contributes() {
            return None;
        }
        let n: usize = self.cca.seq_len();
        let mut t_col: Vec<Binary32> = Vec::new();
        let mut i: usize = 0;
        while i < n
            invariant
                i <= n,
                t_col@ == Seq::new(i as nat, |j: int| t.value()),
            decreases n - i,
        {
            t_col.push(t.get());
            assert(t_col@ =~= Seq::new((i + 1) as nat, |j: int| t.value()));
            i = i + 1;
        }
        let ghost before = *self;
        let neighbour_tokens: Vec<u32> = self.fill_neighbours(&view, seq, condition, sources);
        let retrieval_mask: Vec<Binary32> = self.filled_rows(neighbour_tokens.as_slice());
        let prepared = PreparedScore {
            view,
            labels,
            inputs: StepInputs { t_col, retrieval_mask, neighbour_tokens },
        };
        proof {
            assert(evaluated_view(clean, prepared.view, *seq, t, before.mask()));
            assert(prepares(prepared, *seq, t, condition, before, *old(sources)));
        }
        Some(prepared)
    }
}

/// Whether the sources suit what `condition` asks of them.
pub open spec fn condition_ready<I: NeighbourIndex, E: ChunkEmbedder>(
    condition: NeighbourCondition,
    cca: CcaConfig,
    seq: TrainingSequence,
    sources: RetrievalSources<'_, I, E>,
) -> bool {
    match condition {
        NeighbourCondition::Real => {
            &&& sources.embedder.dim() == sources.index.width()
            &&& sources.corpus@.r == cca.r()
            &&& cca.l() * sources.embedder.dim() <= usize::MAX
        },
        NeighbourCondition::Random => sources.corpus@.documents.len() > 0 ==> sources.corpus@.r
            == cca.r(),
        NeighbourCondition::Ablated => true,
        NeighbourCondition::Oracle => seq.content_len <= seq.tokens@.len(),
    }
}

/// Whether every token that is masked of `seq` at `t` is in the vocabulary.
pub open spec fn masks_known_tokens_at(seq: TrainingSequence, t: NoiseLevel, vocab: usize) -> bool {
    let masked = crate::train::mask_draws(
        eval_seed(seq.document.0, t.value()),
        t.value(),
        seq.content_len as nat,
        seq.tokens@.len(),
    );
    forall|i: int| 0 <= i < seq.tokens@.len() && #[trigger] masked[i] ==> seq.tokens@[i] < vocab
}

/// Whether a trial of `seq` at `t` can be prepared.
pub open spec fn trial_ready<I: NeighbourIndex, E: ChunkEmbedder>(
    seq: TrainingSequence,
    t: NoiseLevel,
    condition: NeighbourCondition,
    evaluator: Evaluator,
    sources: RetrievalSources<'_, I, E>,
) -> bool {
    &&& seq.tokens@.len() == evaluator.shapes().n()
    &&& masks_known_tokens_at(seq, t, evaluator.objective().vocab())
    &&& condition_ready(condition, evaluator.shapes(), seq, sources)
}

/// How many draws a trial takes from the evaluator's generator.
pub open spec fn trial_draws(
    seq: TrainingSequence,
    t: NoiseLevel,
    condition: NeighbourCondition,
    evaluator: Evaluator,
    corpus: NeighbourCorpus,
) -> nat {
    if scores(seq, t.value()) {
        condition_draws(condition, evaluator.shapes(), corpus)
    } else {
        0
    }
}

/// Whether `prepared` is the trial of `seq` at `t` under `condition`.
pub open spec fn prepares<I: NeighbourIndex, E: ChunkEmbedder>(
    prepared: PreparedScore,
    seq: TrainingSequence,
    t: NoiseLevel,
    condition: NeighbourCondition,
    evaluator: Evaluator,
    sources: RetrievalSources<'_, I, E>,
) -> bool {
    let cca = evaluator.shapes();
    &&& exists|clean: CleanSequence| #[trigger]
        evaluated_view(clean, prepared.view, seq, t, evaluator.mask())
    &&& prepared.labels@ == crate::loss::dense_labels(
        prepared.view@.masked,
        seq.tokens@,
        evaluator.objective().vocab() as nat,
        evaluator.objective().weight_at(t),
    )
    &&& prepared.inputs.t_col@ == Seq::new(cca.n() as nat, |i: int| t.value())
    &&& condition_block(
        prepared.inputs.neighbour_tokens@,
        condition,
        cca,
        evaluator.mask().0,
        evaluator.seed(),
        prepared.view,
        seq,
        *sources.embedder,
        *sources.index,
        *sources.guard,
        *sources.corpus,
    )
    &&& prepared.inputs.retrieval_mask@ == score_mask(
        cca,
        evaluator.mask().0,
        prepared.inputs.neighbour_tokens@,
    )
}

/// The edge of band `i`: `i` fifths.
pub open spec fn band_edge(i: nat) -> Binary32 {
    Binary32 {
        bits: (Binary32 { bits: Binary32::count_bits(i) }).product_bits(
            (Binary32 { bits: 0x3E4C_CCCD }),
        ),
    }
}

/// The losses one condition collected.
#[derive(Clone, Debug)]
pub struct Tally {
    /// Which condition.
    pub condition: NeighbourCondition,
    /// The loss of every scoring step.
    pub losses: Vec<Binary32>,
    /// The same, split by noise band.
    pub bands: Vec<Vec<Binary32>>,
}

impl Tally {
    /// The losses of band `i`.
    pub open spec fn band(self, i: int) -> Seq<Binary32> {
        self.bands@[i]@
    }

    /// An empty tally over `bands` noise bands.
    pub fn new(condition: NeighbourCondition, bands: usize) -> (tally: Self)
        ensures
            tally.condition == condition,
            tally.losses@.len() == 0,
            tally.bands@.len() == bands,
            forall|i: int| 0 <= i < bands ==> (#[trigger] tally.band(i)).len() == 0,
    {
        let mut lists: Vec<Vec<Binary32>> = Vec::new();
        let mut i: usize = 0;
        while i < bands
            invariant
                i <= bands,
                lists@.len() == i,
                forall|j: int| 0 <= j < i ==> (#[trigger] lists@[j])@.len() == 0,
            decreases bands - i,
        {
            lists.push(Vec::new());
            i = i + 1;
        }
        Tally { condition, losses: Vec::new(), bands: lists }
    }

    /// Add the loss of one step, which fell in `band`.
    pub fn add(&mut self, band: Option<usize>, loss: Binary32)
        requires
            band matches Some(i) ==> i < old(self).bands@.len(),
        ensures
            final(self).condition == old(self).condition,
            final(self).losses@ == old(self).losses@.push(loss),
            final(self).bands@.len() == old(self).bands@.len(),
            forall|i: int|
                0 <= i < old(self).bands@.len() ==> #[trigger] final(self).band(i) == if (band matches Some(
                    b,
                ) && b == i) {
                    old(self).band(i).push(loss)
                } else {
                    old(self).band(i)
                },
    {
        self.losses.push(loss);
        match band {
            Some(i) => {
                let list: &mut Vec<Binary32> = &mut self.bands[i];
                list.push(loss);
            },
            None => {},
        }
    }
}

/// One trial of a run: which condition, sequence and level.
#[derive(Clone, Copy, Debug, PartialEq, Eq, Structural)]
pub struct Position {
    /// Index of the condition.
    pub condition: usize,
    /// Index of the sequence.
    pub sequence: usize,
    /// Index of the noise level.
    pub level: usize,
}

/// The trial after `p`: levels run fastest, conditions slowest.
pub open spec fn successor(p: Position, sequences: nat, levels: nat) -> Position {
    if p.level + 1 < levels {
        Position { level: (p.level + 1) as usize, ..p }
    } else if p.sequence + 1 < sequences {
        Position { condition: p.condition, sequence: (p.sequence + 1) as usize, level: 0 }
    } else {
        Position { condition: (p.condition + 1) as usize, sequence: 0, level: 0 }
    }
}

/// Whether `p` is a trial of the run, or its end.
pub open spec fn on_course(p: Position, conditions: nat, sequences: nat, levels: nat) -> bool {
    &&& p.condition <= conditions <= usize::MAX
    &&& sequences <= usize::MAX
    &&& levels <= usize::MAX
    &&& p.condition < conditions ==> p.sequence < sequences && p.level < levels
}

/// The first trial from `p` on that has anything to score.
pub open spec fn upcoming(
    p: Position,
    conditions: nat,
    sequences: Seq<TrainingSequence>,
    levels: Seq<NoiseLevel>,
) -> Option<Position>
    decreases conditions - p.condition, sequences.len() - p.sequence, levels.len() - p.level,
{
    if !on_course(p, conditions, sequences.len(), levels.len()) || p.condition >= conditions {
        None
    } else if scores(sequences[p.sequence as int], levels[p.level as int].value()) {
        Some(p)
    } else {
        upcoming(successor(p, sequences.len(), levels.len()), conditions, sequences, levels)
    }
}

/// How many trials are looked at from `p` on, up to the first that scores
/// anything.
pub open spec fn looked_at(
    p: Position,
    conditions: nat,
    sequences: Seq<TrainingSequence>,
    levels: Seq<NoiseLevel>,
) -> nat
    decreases conditions - p.condition, sequences.len() - p.sequence, levels.len() - p.level,
{
    if !on_course(p, conditions, sequences.len(), levels.len()) || p.condition >= conditions {
        0
    } else if scores(sequences[p.sequence as int], levels[p.level as int].value()) {
        1
    } else {
        1 + looked_at(successor(p, sequences.len(), levels.len()), conditions, sequences, levels)
    }
}

/// How many of the trials before `p` belong to condition `c`.
pub open spec fn trials_before(p: Position, c: int, sequences: nat, levels: nat) -> nat {
    if c < p.condition {
        sequences * levels
    } else if c == p.condition {
        p.sequence as nat * levels + p.level as nat
    } else {
        0
    }
}

/// Of the first `upto` pairs of a sequence and a level, levels running
/// fastest, how many score anything; with a band, how many of those at a level
/// in the band.
pub open spec fn scoring_pairs(
    sequences: Seq<TrainingSequence>,
    levels: Seq<NoiseLevel>,
    edges: Seq<(Binary32, Binary32)>,
    band: Option<int>,
    upto: nat,
) -> nat
    decreases upto,
{
    if upto == 0 {
        0
    } else {
        let i = (upto - 1) as nat;
        let t = levels[(i % levels.len()) as int].value();
        let counts = scores(sequences[(i / levels.len()) as int], t) && (band matches Some(b)
            ==> band_index(t, edges, edges.len()) == Some(b as usize));
        scoring_pairs(sequences, levels, edges, band, i) + (if counts {
            1nat
        } else {
            0nat
        })
    }
}

/// One more trial of one condition lies behind the next position.
proof fn lemma_trials_before(p: Position, c: int, conditions: nat, sequences: nat, levels: nat)
    requires
        on_course(p, conditions, sequences, levels),
        p.condition < conditions,
    ensures
        on_course(successor(p, sequences, levels), conditions, sequences, levels),
        trials_before(successor(p, sequences, levels), c, sequences, levels) == trials_before(
            p,
            c,
            sequences,
            levels,
        ) + (if c == p.condition {
            1nat
        } else {
            0nat
        }),
        (p.sequence as nat * levels + p.level as nat) / levels == p.sequence,
        (p.sequence as nat * levels + p.level as nat) % levels == p.level,
{
    let (s, v) = (p.sequence as int, p.level as int);
    let l = levels as int;
    vstd::arithmetic::div_mod::lemma_fundamental_div_mod_converse(s * l + v, l, s, v);
    assert((s + 1) * l == s * l + l) by (nonlinear_arith);
    assert(0 * l == 0) by (nonlinear_arith);
}

/// Trials that score nothing are not counted.
proof fn lemma_upcoming_counts(
    p: Position,
    conditions: nat,
    sequences: Seq<TrainingSequence>,
    levels: Seq<NoiseLevel>,
    edges: Seq<(Binary32, Binary32)>,
    band: Option<int>,
    c: int,
)
    requires
        on_course(p, conditions, sequences.len(), levels.len()),
        0 <= c < conditions,
    ensures
        ({
            let here = scoring_pairs(
                sequences,
                levels,
                edges,
                band,
                trials_before(p, c, sequences.len(), levels.len()),
            );
            match upcoming(p, conditions, sequences, levels) {
                Some(q) => scoring_pairs(
                    sequences,
                    levels,
                    edges,
                    band,
                    trials_before(q, c, sequences.len(), levels.len()),
                ) == here && on_course(q, conditions, sequences.len(), levels.len())
                    && q.condition < conditions,
                None => scoring_pairs(
                    sequences,
                    levels,
                    edges,
                    band,
                    sequences.len() * levels.len(),
                ) == here,
            }
        }),
    decreases conditions - p.condition, sequences.len() - p.sequence, levels.len() - p.level,
{
    if p.condition < conditions && !scores(
        sequences[p.sequence as int],
        levels[p.level as int].value(),
    ) {
        lemma_trials_before(p, c, conditions, sequences.len(), levels.len());
        lemma_upcoming_counts(
            successor(p, sequences.len(), levels.len()),
            conditions,
            sequences,
            levels,
            edges,
            band,
            c,
        );
    }
}

/// A run of the protocol: every condition over every sequence at every level.
///
/// The session that scores a trial runs outside: [`Self::next`] hands out what
/// it is fed, and [`Self::record`] takes the loss it gives back.
#[derive(Clone, Debug)]
pub struct EvalRun {
    conditions: Vec<NeighbourCondition>,
    sequences: usize,
    levels: usize,
    position: Position,
    waiting: Option<Position>,
    tallies: Vec<Tally>,
}

impl EvalRun {
    /// The conditions evaluated.
    pub closed spec fn asked(self) -> Seq<NeighbourCondition> {
        self.conditions@
    }

    /// How many sequences and levels there are.
    pub closed spec fn extent(self) -> (nat, nat) {
        (self.sequences as nat, self.levels as nat)
    }

    /// The trial to look at next.
    pub closed spec fn at(self) -> Position {
        self.position
    }

    /// The trial whose loss is awaited.
    pub closed spec fn awaited(self) -> Option<Position> {
        self.waiting
    }

    /// What was collected so far, one tally per condition.
    pub closed spec fn collected(self) -> Seq<Tally> {
        self.tallies@
    }

    /// The cursor is on course, and there is a tally for every condition.
    pub open spec fn wf(self, bands: nat) -> bool {
        &&& on_course(self.at(), self.asked().len(), self.extent().0, self.extent().1)
        &&& self.awaited() matches Some(p) ==> p.condition < self.asked().len() && p.sequence
            < self.extent().0 && p.level < self.extent().1
        &&& self.collected().len() == self.asked().len()
        &&& forall|c: int|
            0 <= c < self.collected().len() ==> (#[trigger] self.collected()[c]).condition
                == self.asked()[c] && self.collected()[c].bands@.len() == bands
    }

    /// The trial up to which losses were collected.
    pub open spec fn reached(self) -> Position {
        match self.awaited() {
            Some(p) => p,
            None => self.at(),
        }
    }

    /// Every condition has collected one loss for every pair of a sequence and
    /// a level behind it that scores anything, each in the band of its level.
    pub open spec fn tallied(
        self,
        sequences: Seq<TrainingSequence>,
        levels: Seq<NoiseLevel>,
        edges: Seq<(Binary32, Binary32)>,
    ) -> bool {
        &&& self.extent() == (sequences.len(), levels.len())
        &&& self.awaited() matches Some(p) ==> self.at() == successor(
            p,
            sequences.len(),
            levels.len(),
        ) && scores(sequences[p.sequence as int], levels[p.level as int].value())
        &&& forall|c: int|
            0 <= c < self.asked().len() ==> {
                let behind = trials_before(self.reached(), c, sequences.len(), levels.len());
                &&& (#[trigger] self.collected()[c]).losses@.len() == scoring_pairs(
                    sequences,
                    levels,
                    edges,
                    None,
                    behind,
                )
                &&& forall|i: int|
                    0 <= i < edges.len() ==> (#[trigger] self.collected()[c].band(i)).len()
                        == scoring_pairs(sequences, levels, edges, Some(i), behind)
            }
    }

    /// A run of `conditions` over `sequences` sequences at `levels` levels.
    pub fn new(
        evaluator: &Evaluator,
        conditions: &[NeighbourCondition],
        sequences: usize,
        levels: usize,
    ) -> (run: Self)
        ensures
            run.wf(evaluator.edges().len()),
            run.asked() == conditions@,
            run.extent() == (sequences as nat, levels as nat),
            run.awaited() is None,
            run.at() == (Position {
                condition: if sequences == 0 || levels == 0 {
                    conditions@.len() as usize
                } else {
                    0
                },
                sequence: 0,
                level: 0,
            }),
            forall|c: int|
                0 <= c < conditions@.len() ==> (#[trigger] run.collected()[c]).losses@.len() == 0,
            forall|c: int, i: int|
                0 <= c < conditions@.len() && 0 <= i < evaluator.edges().len() ==> (
                #[trigger] run.collected()[c].band(i)).len() == 0,
            forall|over: Seq<TrainingSequence>, at: Seq<NoiseLevel>|
                over.len() == sequences && at.len() == levels ==> #[trigger] run.tallied(
                    over,
                    at,
                    evaluator.edges(),
                ),
    {
        let mut asked: Vec<NeighbourCondition> = Vec::new();
        let mut tallies: Vec<Tally> = Vec::new();
        let bands: usize = evaluator.bands.len();
        let mut c: usize = 0;
        while c < conditions.len()
            invariant
                c <= conditions@.len(),
                asked@ == conditions@.take(c as int),
                tallies@.len() == c,
                forall|j: int|
                    0 <= j < c ==> (#[trigger] tallies@[j]).condition == conditions@[j]
                        && tallies@[j].bands@.len() == bands && tallies@[j].losses@.len() == 0,
                forall|j: int, i: int|
                    0 <= j < c && 0 <= i < bands ==> (#[trigger] tallies@[j].band(i)).len() == 0,
            decreases conditions.len() - c,
        {
            asked.push(conditions[c]);
            tallies.push(Tally::new(conditions[c], bands));
            assert(asked@ =~= conditions@.take(c + 1));
            c = c + 1;
        }
        assert(conditions@.take(c as int) =~= conditions@);
        let first: usize = if sequences == 0 || levels == 0 {
            conditions.len()
        } else {
            0
        };
        let run = EvalRun {
            conditions: asked,
            sequences,
            levels,
            position: Position { condition: first, sequence: 0, level: 0 },
            waiting: None,
            tallies,
        };
        proof {
            assert forall|over: Seq<TrainingSequence>, at: Seq<NoiseLevel>|
                over.len() == sequences && at.len() == levels implies #[trigger] run.tallied(
                over,
                at,
                evaluator.edges(),
            ) by {
                assert(0 * levels == 0) by (nonlinear_arith);
                assert(sequences == 0 || levels == 0 ==> sequences * levels == 0)
                    by (nonlinear_arith);
                assert forall|c: int| 0 <= c < run.asked().len() implies trials_before(
                    #[trigger] run.reached(),
                    c,
                    over.len(),
                    at.len(),
                ) == 0 by {
                }
            }
        }
        run
    }

    /// What the session is fed for the next trial that scores anything, or
    /// `None` once there is no such trial left.
    pub fn next<I: NeighbourIndex, E: ChunkEmbedder>(
        &mut self,
        evaluator: &mut Evaluator,
        sequences: &[TrainingSequence],
        levels: &[NoiseLevel],
        sources: &mut RetrievalSources<'_, I, E>,
        ids: &mut IdSource,
    ) -> (prepared: Option<PreparedScore>)
        requires
            old(self).wf(old(evaluator).edges().len()),
            old(self).extent() == (sequences@.len(), levels@.len()),
            old(evaluator).wf(),
            forall|c: int, s: int, v: int|
                0 <= c < old(self).asked().len() && 0 <= s < sequences@.len() && 0 <= v
                    < levels@.len() ==> trial_ready(
                    #[trigger] sequences@[s],
                    #[trigger] levels@[v],
                    #[trigger] old(self).asked()[c],
                    *old(evaluator),
                    *old(sources),
                ),
        ensures
            final(self).wf(old(evaluator).edges().len()),
            final(self).asked() == old(self).asked(),
            final(self).extent() == old(self).extent(),
            final(self).collected() == old(self).collected(),
            final(evaluator).keeps(*old(evaluator)),
            crate::train::sources_kept(*final(sources), *old(sources)),
            ({
                let trial = upcoming(
                    old(self).at(),
                    old(self).asked().len(),
                    sequences@,
                    levels@,
                );
                &&& prepared is Some <==> trial is Some
                &&& final(self).awaited() == trial
                &&& trial matches Some(p) ==> {
                    &&& final(self).at() == successor(p, sequences@.len(), levels@.len())
                    &&& prepares(
                        prepared->0,
                        sequences@[p.sequence as int],
                        levels@[p.level as int],
                        old(self).asked()[p.condition as int],
                        *old(evaluator),
                        *old(sources),
                    )
                    &&& final(evaluator).seed() == crate::rng::advanced_by(
                        old(evaluator).seed(),
                        condition_draws(
                            old(self).asked()[p.condition as int],
                            old(evaluator).shapes(),
                            *old(sources).corpus,
                        ),
                    )
                }
                &&& trial is None ==> final(evaluator).seed() == old(evaluator).seed()
                &&& trial is None ==> final(self).at().condition == old(self).asked().len()
            }),
            ({
                let looks = looked_at(
                    old(self).at(),
                    old(self).asked().len(),
                    sequences@,
                    levels@,
                );
                &&& crate::view::drawn(*old(ids), *final(ids), looks, looks)
                &&& prepared matches Some(trial) ==> looks > 0 && trial.view@.id.value()
                    == crate::view::after_draws(old(ids).views(), (looks - 1) as nat)
            }),
            old(self).awaited() is None && old(self).tallied(
                sequences@,
                levels@,
                old(evaluator).edges(),
            ) ==> final(self).tallied(sequences@, levels@, old(evaluator).edges()),
    {
        let ghost bands = evaluator.edges().len();
        let ghost start = self.position;
        let ghost mut looks: nat = 0;
        while self.position.condition < self.conditions.len()
            invariant
                self.wf(bands),
                old(self).wf(bands),
                bands == old(evaluator).edges().len(),
                self.asked() == old(self).asked(),
                self.extent() == old(self).extent(),
                self.extent() == (sequences@.len(), levels@.len()),
                self.collected() == old(self).collected(),
                start == old(self).at(),
                crate::view::drawn(*old(ids), *ids, looks, looks),
                looked_at(start, self.asked().len(), sequences@, levels@) == looks + looked_at(
                    self.position,
                    self.asked().len(),
                    sequences@,
                    levels@,
                ),
                *evaluator == *old(evaluator),
                *sources == *old(sources),
                evaluator.wf(),
                forall|c: int, s: int, v: int|
                    0 <= c < old(self).asked().len() && 0 <= s < sequences@.len() && 0 <= v
                        < levels@.len() ==> trial_ready(
                        #[trigger] sequences@[s],
                        #[trigger] levels@[v],
                        #[trigger] old(self).asked()[c],
                        *old(evaluator),
                        *old(sources),
                    ),
                upcoming(start, self.asked().len(), sequences@, levels@) == upcoming(
                    self.position,
                    self.asked().len(),
                    sequences@,
                    levels@,
                ),
            decreases
                    self.conditions.len() - self.position.condition,
                    self.sequences - self.position.sequence,
                    self.levels - self.position.level,
        {
            let p: Position = self.position;
            let condition: NeighbourCondition = self.conditions[p.condition];
            proof {
                assert(trial_ready(
                    sequences@[p.sequence as int],
                    levels@[p.level as int],
                    self.asked()[p.condition as int],
                    *evaluator,
                    *sources,
                ));
            }
            let prepared: Option<PreparedScore> = evaluator.prepare(
                &sequences[p.sequence],
                levels[p.level],
                condition,
                sources,
                ids,
            );
            proof {
                crate::view::lemma_draws_add(old(ids).views(), looks, 1);
                crate::view::lemma_draws_add(old(ids).sequences(), looks, 1);
                looks = looks + 1;
            }
            self.position = if p.level + 1 < self.levels {
                Position { condition: p.condition, sequence: p.sequence, level: p.level + 1 }
            } else if p.sequence + 1 < self.sequences {
                Position { condition: p.condition, sequence: p.sequence + 1, level: 0 }
            } else {
                Position { condition: p.condition + 1, sequence: 0, level: 0 }
            };
            assert(self.position == successor(p, sequences@.len(), levels@.len()));
            if prepared.is_some() {
                self.waiting = Some(p);
                proof {
                    lemma_asked(*old(self), *self, sequences@, levels@, old(evaluator).edges());
                }
                return prepared;
            }
        }
        self.waiting = None;
        proof {
            lemma_asked(*old(self), *self, sequences@, levels@, old(evaluator).edges());
        }
        None
    }

    /// Take the loss of the trial that [`Self::next`] handed out last.
    pub fn record(&mut self, evaluator: &Evaluator, levels: &[NoiseLevel], loss: Binary32)
        requires
            old(self).wf(evaluator.edges().len()),
            old(self).extent().1 == levels@.len(),
        ensures
            final(self).wf(evaluator.edges().len()),
            final(self).asked() == old(self).asked(),
            final(self).extent() == old(self).extent(),
            final(self).at() == old(self).at(),
            final(self).awaited() is None,
            final(self).collected().len() == old(self).collected().len(),
            forall|c: int|
                0 <= c < old(self).collected().len() && !(old(self).awaited() matches Some(p)
                    && p.condition == c) ==> #[trigger] final(self).collected()[c]
                    == old(self).collected()[c],
            old(self).awaited() matches Some(p) ==> {
                let before = old(self).collected()[p.condition as int];
                let after = final(self).collected()[p.condition as int];
                let band = band_index(
                    levels@[p.level as int].value(),
                    evaluator.edges(),
                    evaluator.edges().len(),
                );
                &&& after.losses@ == before.losses@.push(loss)
                &&& forall|i: int|
                    0 <= i < evaluator.edges().len() ==> #[trigger] after.band(i) == if (band matches Some(
                        b,
                    ) && b == i) {
                        before.band(i).push(loss)
                    } else {
                        before.band(i)
                    }
            },
            old(self).awaited() is Some ==> forall|sequences: Seq<TrainingSequence>| #[trigger]
                old(self).tallied(sequences, levels@, evaluator.edges()) ==> final(self).tallied(
                    sequences,
                    levels@,
                    evaluator.edges(),
                ),
    {
        let ghost before = *self;
        match self.waiting {
            Some(p) => {
                let band: Option<usize> = evaluator.band_of(levels[p.level]);
                let tally: &mut Tally = &mut self.tallies[p.condition];
                tally.add(band, loss);
            },
            None => {},
        }
        self.waiting = None;
        proof {
            if before.awaited() is Some {
                assert forall|sequences: Seq<TrainingSequence>| #[trigger]
                    before.tallied(sequences, levels@, evaluator.edges()) implies self.tallied(
                    sequences,
                    levels@,
                    evaluator.edges(),
                ) by {
                    assert(evaluator.bands.len() <= usize::MAX);
                    lemma_recorded(before, *self, sequences, levels@, evaluator.edges());
                }
            }
        }
    }

    /// What was collected, one tally per condition.
    pub fn tallies(&self) -> (tallies: &[Tally])
        ensures
            tallies@ == self.collected(),
    {
        self.tallies.as_slice()
    }
}

/// Going on to the next trial that scores anything counts nothing.
proof fn lemma_asked(
    before: EvalRun,
    after: EvalRun,
    sequences: Seq<TrainingSequence>,
    levels: Seq<NoiseLevel>,
    edges: Seq<(Binary32, Binary32)>,
)
    requires
        before.wf(edges.len()),
        after.asked() == before.asked(),
        after.extent() == before.extent(),
        before.extent() == (sequences.len(), levels.len()),
        after.collected() == before.collected(),
        after.awaited() == upcoming(before.at(), before.asked().len(), sequences, levels),
        match after.awaited() {
            Some(p) => after.at() == successor(p, sequences.len(), levels.len()) && scores(
                sequences[p.sequence as int],
                levels[p.level as int].value(),
            ),
            None => after.at().condition == after.asked().len(),
        },
    ensures
        before.awaited() is None && before.tallied(sequences, levels, edges) ==> after.tallied(
            sequences,
            levels,
            edges,
        ),
{
    if before.awaited() is None && before.tallied(sequences, levels, edges) {
        let n = before.asked().len();
        assert forall|c: int| 0 <= c < after.asked().len() implies ({
            let behind = trials_before(after.reached(), c, sequences.len(), levels.len());
            &&& (#[trigger] after.collected()[c]).losses@.len() == scoring_pairs(
                sequences,
                levels,
                edges,
                None,
                behind,
            )
            &&& forall|i: int|
                0 <= i < edges.len() ==> (#[trigger] after.collected()[c].band(i)).len()
                    == scoring_pairs(sequences, levels, edges, Some(i), behind)
        }) by {
            let was = before.collected()[c];
            lemma_upcoming_counts(before.at(), n, sequences, levels, edges, None, c);
            assert forall|i: int| 0 <= i < edges.len() implies (
            #[trigger] after.collected()[c].band(i)).len() == scoring_pairs(
                sequences,
                levels,
                edges,
                Some(i),
                trials_before(after.reached(), c, sequences.len(), levels.len()),
            ) by {
                assert(was.band(i).len() == scoring_pairs(
                    sequences,
                    levels,
                    edges,
                    Some(i),
                    trials_before(before.at(), c, sequences.len(), levels.len()),
                ));
                lemma_upcoming_counts(before.at(), n, sequences, levels, edges, Some(i), c);
            }
        }
    }
}

/// Taking the awaited loss counts the trial it belongs to.
proof fn lemma_recorded(
    before: EvalRun,
    after: EvalRun,
    sequences: Seq<TrainingSequence>,
    levels: Seq<NoiseLevel>,
    edges: Seq<(Binary32, Binary32)>,
)
    requires
        before.wf(edges.len()),
        edges.len() <= usize::MAX,
        before.awaited() is Some,
        before.tallied(sequences, levels, edges),
        after.asked() == before.asked(),
        after.extent() == before.extent(),
        after.at() == before.at(),
        after.awaited() is None,
        after.collected().len() == before.collected().len(),
        forall|c: int|
            0 <= c < before.collected().len() && before.awaited()->0.condition != c
                ==> #[trigger] after.collected()[c] == before.collected()[c],
        ({
            let p = before.awaited()->0;
            let was = before.collected()[p.condition as int];
            let is = after.collected()[p.condition as int];
            let band = band_index(levels[p.level as int].value(), edges, edges.len());
            &&& is.losses@.len() == was.losses@.len() + 1
            &&& forall|i: int|
                0 <= i < edges.len() ==> (#[trigger] is.band(i)).len() == was.band(i).len() + (if (
                band matches Some(b) && b == i) {
                    1nat
                } else {
                    0nat
                })
        }),
    ensures
        after.tallied(sequences, levels, edges),
{
    let p = before.awaited()->0;
    assert forall|c: int| 0 <= c < after.asked().len() implies ({
        let behind = trials_before(after.reached(), c, sequences.len(), levels.len());
        &&& (#[trigger] after.collected()[c]).losses@.len() == scoring_pairs(
            sequences,
            levels,
            edges,
            None,
            behind,
        )
        &&& forall|i: int|
            0 <= i < edges.len() ==> (#[trigger] after.collected()[c].band(i)).len()
                == scoring_pairs(sequences, levels, edges, Some(i), behind)
    }) by {
        lemma_trials_before(p, c, before.asked().len(), sequences.len(), levels.len());
        let was = before.collected()[c];
        assert(was.losses@.len() == scoring_pairs(
            sequences,
            levels,
            edges,
            None,
            trials_before(p, c, sequences.len(), levels.len()),
        ));
        assert forall|i: int| 0 <= i < edges.len() implies (#[trigger] after.collected()[c].band(
            i,
        )).len() == scoring_pairs(
            sequences,
            levels,
            edges,
            Some(i),
            trials_before(after.reached(), c, sequences.len(), levels.len()),
        ) by {
            assert(was.band(i).len() == scoring_pairs(
                sequences,
                levels,
                edges,
                Some(i),
                trials_before(p, c, sequences.len(), levels.len()),
            ));
        }
    }
}

/// A finished run is even: every condition has collected one loss for every
/// pair of a sequence and a level that scores anything, and so each band holds
/// as many steps under one condition as under any other.
pub proof fn law_a_finished_run_is_even(
    run: EvalRun,
    sequences: Seq<TrainingSequence>,
    levels: Seq<NoiseLevel>,
    edges: Seq<(Binary32, Binary32)>,
    c: int,
    i: int,
)
    requires
        run.tallied(sequences, levels, edges),
        run.awaited() is None,
        run.at().condition == run.asked().len(),
        0 <= c < run.asked().len(),
        0 <= i < edges.len(),
    ensures
        run.collected()[c].losses@.len() == scoring_pairs(
            sequences,
            levels,
            edges,
            None,
            sequences.len() * levels.len(),
        ),
        run.collected()[c].band(i).len() == scoring_pairs(
            sequences,
            levels,
            edges,
            Some(i),
            sequences.len() * levels.len(),
        ),
        forall|d: int|
            0 <= d < run.asked().len() ==> (#[trigger] run.collected()[d]).losses@.len()
                == run.collected()[c].losses@.len() && run.collected()[d].band(i).len()
                == run.collected()[c].band(i).len(),
{
    assert(run.collected()[c].band(i).len() == scoring_pairs(
        sequences,
        levels,
        edges,
        Some(i),
        sequences.len() * levels.len(),
    ));
    assert forall|d: int| 0 <= d < run.asked().len() implies (
    #[trigger] run.collected()[d]).losses@.len() == run.collected()[c].losses@.len()
        && run.collected()[d].band(i).len() == run.collected()[c].band(i).len() by {
        assert(run.collected()[d].band(i).len() == scoring_pairs(
            sequences,
            levels,
            edges,
            Some(i),
            sequences.len() * levels.len(),
        ));
    }
}

/// A mean, or not a number where there is nothing to average.
pub open spec fn mean_or_nan(count: nat, mean: Binary32) -> Binary32 {
    if count == 0 {
        Binary32 { bits: crate::binary32::NAN_BITS }
    } else {
        mean
    }
}

impl Evaluator {
    /// The report of one condition, given the mean of its losses and of those
    /// in each band.
    pub fn report(&self, tally: &Tally, mean: Binary32, band_means: &[Binary32]) -> (report:
        ConditionReport)
        requires
            tally.bands@.len() == self.edges().len(),
            band_means@.len() == self.edges().len(),
        ensures
            report.condition == tally.condition,
            report.mean_loss == mean_or_nan(tally.losses@.len(), mean),
            report.bands@ == Seq::new(
                self.edges().len(),
                |i: int|
                    BandLoss {
                        low: self.edges()[i].0,
                        high: self.edges()[i].1,
                        mean_loss: mean_or_nan(tally.band(i).len(), band_means@[i]),
                        steps: tally.band(i).len() as usize,
                    },
            ),
    {
        let nan: Binary32 = Binary32::from_bits(NAN_BITS);
        let mut bands: Vec<BandLoss> = Vec::new();
        let ghost goal = Seq::new(
            self.edges().len(),
            |i: int|
                BandLoss {
                    low: self.edges()[i].0,
                    high: self.edges()[i].1,
                    mean_loss: mean_or_nan(tally.band(i).len(), band_means@[i]),
                    steps: tally.band(i).len() as usize,
                },
        );
        let mut i: usize = 0;
        while i < self.bands.len()
            invariant
                i <= self.bands@.len(),
                nan == (Binary32 { bits: NAN_BITS }),
                tally.bands@.len() == self.bands@.len(),
                band_means@.len() == self.bands@.len(),
                goal == Seq::new(
                    self.edges().len(),
                    |i: int|
                        BandLoss {
                            low: self.edges()[i].0,
                            high: self.edges()[i].1,
                            mean_loss: mean_or_nan(tally.band(i).len(), band_means@[i]),
                            steps: tally.band(i).len() as usize,
                        },
                ),
                bands@ == goal.take(i as int),
            decreases self.bands.len() - i,
        {
            let (low, high) = self.bands[i];
            let steps: usize = tally.bands[i].len();
            let mean_loss: Binary32 = if steps == 0 {
                nan
            } else {
                band_means[i]
            };
            bands.push(BandLoss { low, high, mean_loss, steps });
            assert(bands@ =~= goal.take(i + 1));
            i = i + 1;
        }
        assert(goal.take(i as int) =~= goal);
        ConditionReport {
            condition: tally.condition,
            mean_loss: if tally.losses.len() == 0 {
                nan
            } else {
                mean
            },
            bands,
        }
    }
}

/// The largest overlap of the first `upto` corpus passages with `content`.
pub open spec fn largest_overlap(
    corpus: NeighbourCorpus,
    content: Seq<u32>,
    order: int,
    upto: nat,
) -> Binary32
    decreases upto,
{
    if upto == 0 {
        Binary32 { bits: 0 }
    } else {
        let rest = largest_overlap(corpus, content, order, (upto - 1) as nat);
        let id = crate::retrieval::corpus::id_of((upto - 1) as nat);
        if id.0 * corpus@.r + corpus@.r <= corpus@.tokens.len() {
            let passage = crate::retrieval::corpus::slot(
                corpus@.tokens,
                id.0 as int,
                corpus@.r as int,
            );
            rest.larger_of(
                (Binary32 {
                    bits: crate::retrieval::leakage::overlap_bits(passage, content, order),
                }),
            )
        } else {
            rest
        }
    }
}

/// Compute the n-gram overlap of each evaluation sequence with the corpus.
///
/// Retrieval papers leak here routinely: an evaluation document that is also
/// in the index makes retrieval look spectacular for reasons that have nothing
/// to do with the model. Report metrics separately on the low-overlap subset.
pub fn eval_overlap(
    sequences: &[TrainingSequence],
    corpus: &NeighbourCorpus,
    order: usize,
) -> (overlaps: Vec<Binary32>)
    requires
        forall|s: int|
            0 <= s < sequences@.len() ==> (#[trigger] sequences@[s]).content_len
                <= sequences@[s].tokens@.len(),
    ensures
        overlaps@ == Seq::new(
            sequences@.len(),
            |s: int|
                largest_overlap(
                    *corpus,
                    sequences@[s].tokens@.take(sequences@[s].content_len as int),
                    order as int,
                    corpus@.documents.len(),
                ),
        ),
{
    let mut overlaps: Vec<Binary32> = Vec::new();
    let ghost goal = Seq::new(
        sequences@.len(),
        |s: int|
            largest_overlap(
                *corpus,
                sequences@[s].tokens@.take(sequences@[s].content_len as int),
                order as int,
                corpus@.documents.len(),
            ),
    );
    let count: usize = corpus.len();
    let mut s: usize = 0;
    while s < sequences.len()
        invariant
            s <= sequences@.len(),
            count == corpus@.documents.len(),
            forall|s: int|
                0 <= s < sequences@.len() ==> (#[trigger] sequences@[s]).content_len
                    <= sequences@[s].tokens@.len(),
            goal == Seq::new(
                sequences@.len(),
                |s: int|
                    largest_overlap(
                        *corpus,
                        sequences@[s].tokens@.take(sequences@[s].content_len as int),
                        order as int,
                        corpus@.documents.len(),
                    ),
            ),
            overlaps@ == goal.take(s as int),
        decreases sequences.len() - s,
    {
        let seq: &TrainingSequence = &sequences[s];
        assert(sequences@[s as int].content_len <= sequences@[s as int].tokens@.len());
        let content: &[u32] = vstd::slice::slice_subrange(
            seq.tokens.as_slice(),
            0,
            seq.content_len,
        );
        assert(content@ =~= seq.tokens@.take(seq.content_len as int));
        let mut largest: Binary32 = Binary32::from_bits(0);
        let mut i: usize = 0;
        while i < count
            invariant
                i <= count,
                largest == largest_overlap(*corpus, content@, order as int, i as nat),
            decreases count - i,
        {
            match corpus.tokens(neighbour_id(i)) {
                Some(passage) => {
                    largest = largest.larger(ngram_overlap(passage, content, order));
                },
                None => {},
            }
            i = i + 1;
        }
        overlaps.push(largest);
        assert(overlaps@ =~= goal.take(s + 1));
        s = s + 1;
    }
    assert(goal.take(s as int) =~= goal);
    overlaps
}

/// Real neighbours are those retrieved for the view: where the hard gate of
/// sampling is open, token `i` of a filled slot `j` of a chunk is token `i` of
/// the corpus passage that was retrieved there, accepted by the guard for the
/// document of the sequence; where it is closed, every token is the mask token.
pub proof fn law_real_slots_hold_what_was_retrieved<I: NeighbourIndex, E: ChunkEmbedder>(
    tokens: Seq<u32>,
    cca: CcaConfig,
    mask: u32,
    seed: u64,
    view: NoisedView,
    seq: TrainingSequence,
    embedder: E,
    index: I,
    guard: LeakageGuard,
    corpus: NeighbourCorpus,
    chunk: int,
    j: int,
    i: int,
)
    requires
        cca.wf(),
        condition_block(
            tokens,
            NeighbourCondition::Real,
            cca,
            mask,
            seed,
            view,
            seq,
            embedder,
            index,
            guard,
            corpus,
        ),
        corpus.wf(),
        corpus@.r == cca.r(),
        0 <= chunk < cca.l(),
        0 <= j < cca.k(),
        0 <= i < cca.r(),
    ensures
        !crate::schedule::gate_open(view@.t, Phase::Inference) ==> tokens[(chunk * cca.k() + j)
            * cca.r() + i] == mask,
        crate::schedule::gate_open(view@.t, Phase::Inference) ==> exists|
            found: Neighbours,
            queries: crate::chunk::ChunkQueries,
            admission: ChunkAdmission,
        |
            admission.limit().bits == ONE_BITS && #[trigger] crate::retrieval::retrieved_for_view(
                found,
                queries,
                view,
                cca,
                admission,
                embedder,
                index,
                corpus,
                guard,
                seq.document,
            ) && (match found.id_at(chunk, j) {
                Some(id) => {
                    &&& guard.allows(seq.document, id, corpus)
                    &&& id.0 < corpus@.documents.len() ==> tokens[(chunk * cca.k() + j) * cca.r()
                        + i] == corpus@.tokens[id.0 * cca.r() + i]
                },
                None => tokens[(chunk * cca.k() + j) * cca.r() + i] == if found.has_neighbours(
                    chunk,
                ) {
                    0
                } else {
                    mask
                },
            }),
{
    cca.lemma_chunks();
    lemma_slot_of_chunk(cca, chunk, j);
    let (l, k, r) = (cca.l() as int, cca.k() as int, cca.r() as int);
    let at = chunk * k + j;
    assert(0 <= at * r && at * r + r <= l * k * r) by (nonlinear_arith)
        requires
            0 <= at < l * k,
            r > 0,
    ;
    if crate::schedule::gate_open(view@.t, Phase::Inference) {
        let (found, queries, admission) = choose|
            found: Neighbours,
            queries: crate::chunk::ChunkQueries,
            admission: ChunkAdmission,
        | #[trigger]
            evaluated_neighbours(
                found,
                queries,
                admission,
                cca,
                view,
                seq.document,
                embedder,
                index,
                guard,
                corpus,
            ) && tokens == crate::generate::blocks_of(cca, mask, Some(found), cca.l() as int);
        crate::generate::law_a_chunk_is_fed_its_own_neighbours(
            cca,
            mask,
            Some(found),
            chunk,
            j,
            i,
            0,
        );
        crate::retrieval::law_slots_hold_their_neighbour(
            found,
            queries,
            cca,
            index,
            corpus,
            guard,
            seq.document,
            chunk,
            j,
        );
        if found.id_at(chunk, j) is Some {
            let named = found.id_at(chunk, j)->0;
            assert(found@.ids[at] == Some(named));
            if named.0 < corpus@.documents.len() {
                let held = corpus@.documents.len() as int;
                let id = named.0 as int;
                assert(0 <= id * r && id * r + r <= held * r) by (nonlinear_arith)
                    requires
                        0 <= id < held,
                        r > 0,
                ;
                let mine = crate::retrieval::corpus::slot(found@.tokens, at, r);
                let theirs = crate::retrieval::corpus::slot(corpus@.tokens, id, r);
                assert(mine[i] == found@.tokens[at * r + i]);
                assert(theirs[i] == corpus@.tokens[id * r + i]);
            }
        }
        let mine = crate::retrieval::corpus::slot(found@.tokens, at, r);
        assert(mine[i] == found@.tokens[at * r + i]);
        assert(crate::retrieval::retrieved_for_view(
            found,
            queries,
            view,
            cca,
            admission,
            embedder,
            index,
            corpus,
            guard,
            seq.document,
        ));
    }
}

/// Documents are masked apart: at one level no two documents share a seed.
pub proof fn law_no_two_documents_share_a_seed(a: u64, b: u64, t: Binary32)
    requires
        a != b,
    ensures
        eval_seed(a, t) != eval_seed(b, t),
{
    let scaled = Binary32 { bits: t.product_bits((Binary32 { bits: 0x4974_2400 })) };
    let c: u64 = scaled.whole_part().wrapping_mul(0x9E37_79B9);
    assert(a != b ==> (a ^ c) != (b ^ c)) by (bit_vector);
}

/// A level falls into the first band that holds it: at or above the lower edge
/// and below the upper one, or at most one where the band reaches one.
pub proof fn law_a_level_falls_into_the_first_band_that_holds_it(
    t: Binary32,
    bands: Seq<(Binary32, Binary32)>,
    upto: nat,
)
    requires
        upto <= bands.len() <= usize::MAX,
    ensures
        ({
            let one = Binary32 { bits: ONE_BITS };
            let holds = |i: int|
                bands[i].0.is_at_most(t) && (t.is_less(bands[i].1) || (one.is_at_most(bands[i].1)
                    && t.is_at_most(one)));
            match band_index(t, bands, upto) {
                Some(b) => b < upto && holds(b as int) && forall|i: int|
                    0 <= i < b ==> !#[trigger] holds(i),
                None => forall|i: int| 0 <= i < upto ==> !#[trigger] holds(i),
            }
        }),
    decreases upto,
{
    if upto > 0 {
        law_a_level_falls_into_the_first_band_that_holds_it(t, bands, (upto - 1) as nat);
    }
}

/// Only bands below `t` count: two reports that agree in every band which lies
/// entirely below `t` and holds anything have one mean below `t`.
pub proof fn law_only_the_bands_below_count(
    a: Seq<BandLoss>,
    b: Seq<BandLoss>,
    t: Binary32,
    upto: nat,
)
    requires
        a.len() == b.len(),
        upto <= a.len(),
        forall|i: int|
            0 <= i < a.len() && (((#[trigger] a[i]).high.is_at_most(t) && a[i].steps > 0) || (
            b[i].high.is_at_most(t) && b[i].steps > 0)) ==> a[i] == b[i],
    ensures
        steps_below(a, t, upto) == steps_below(b, t, upto),
        loss_below(a, t, upto) == loss_below(b, t, upto),
    decreases upto,
{
    if upto > 0 {
        law_only_the_bands_below_count(a, b, t, (upto - 1) as nat);
        let last = upto - 1;
        assert(a[last] == a[upto - 1]);
    }
}

/// Every band below `t` counts with its steps: where one band alone lies
/// entirely below `t` and holds anything, its steps are all the steps, and its
/// mean times those is all the loss.
pub proof fn law_a_band_counts_with_its_steps(
    bands: Seq<BandLoss>,
    t: Binary32,
    at: int,
    upto: nat,
)
    requires
        0 <= at < upto <= bands.len(),
        bands[at].high.is_at_most(t) && bands[at].steps > 0,
        forall|i: int|
            0 <= i < bands.len() && i != at ==> !((#[trigger] bands[i]).high.is_at_most(t)
                && bands[i].steps > 0),
        !(Binary32 {
            bits: bands[at].mean_loss.product_bits(
                (Binary32 { bits: Binary32::count_bits(bands[at].steps as nat) }),
            ),
        }).nan(),
        !bands[at].mean_loss.negative(),
    ensures
        steps_below(bands, t, upto) == bands[at].steps,
        loss_below(bands, t, upto).bits == bands[at].mean_loss.product_bits(
            (Binary32 { bits: Binary32::count_bits(bands[at].steps as nat) }),
        ),
    decreases upto,
{
    let i = upto - 1;
    if i > at {
        law_a_band_counts_with_its_steps(bands, t, at, i as nat);
        assert(!band_counts(bands[i], t));
    } else {
        lemma_no_band_counts(bands, t, at, i as nat);
        let count = Binary32 { bits: Binary32::count_bits(bands[at].steps as nat) };
        let weighted = Binary32 { bits: bands[at].mean_loss.product_bits(count) };
        crate::arithmetic::lemma_count(bands[at].steps as nat);
        lemma_product_sign(bands[at].mean_loss, count);
        crate::retrieval::index::lemma_plus_zero(weighted);
    }
}

proof fn lemma_no_band_counts(bands: Seq<BandLoss>, t: Binary32, at: int, upto: nat)
    requires
        upto <= at < bands.len(),
        forall|i: int|
            0 <= i < bands.len() && i != at ==> !((#[trigger] bands[i]).high.is_at_most(t)
                && bands[i].steps > 0),
    ensures
        steps_below(bands, t, upto) == 0,
        loss_below(bands, t, upto).bits == 0,
    decreases upto,
{
    if upto > 0 {
        lemma_no_band_counts(bands, t, at, (upto - 1) as nat);
        assert(!band_counts(bands[upto - 1], t));
    }
}

/// The product of two numbers that are not negative is not negative.
proof fn lemma_product_sign(a: Binary32, b: Binary32)
    requires
        !a.negative(),
        !b.negative(),
        !(Binary32 { bits: a.product_bits(b) }).nan(),
    ensures
        !(Binary32 { bits: a.product_bits(b) }).negative(),
{
    reveal(Binary32::product_bits);
    vstd::arithmetic::power2::lemma_pow2_pos(149);
    crate::binary32::lemma_nearest_exists(
        a.size() * b.size(),
        vstd::arithmetic::power2::pow2(149),
    );
}

/// The overlap of a window with the corpus is that of the passage that overlaps
/// it most: no passage shares a larger part of its own grams with the window,
/// and some passage shares as much, or none shares anything.
pub proof fn law_the_overlap_is_the_largest(
    corpus: NeighbourCorpus,
    content: Seq<u32>,
    order: int,
    upto: nat,
    i: int,
)
    requires
        corpus.wf(),
        upto <= corpus@.documents.len() <= u32::MAX,
        order > 0,
        corpus@.r <= usize::MAX,
        0 <= i < upto,
    ensures
        ({
            let largest = largest_overlap(corpus, content, order, upto);
            let overlap = |p: int|
                Binary32 {
                    bits: crate::retrieval::leakage::overlap_bits(
                        corpus@.tokens.subrange(p * corpus@.r, p * corpus@.r + corpus@.r),
                        content,
                        order,
                    ),
                };
            &&& largest.bits <= ONE_BITS
            &&& overlap(i).is_at_most(largest)
            &&& largest.bits == 0 || exists|p: int| 0 <= p < upto && #[trigger] overlap(p) == largest
        }),
{
    lemma_largest(corpus, content, order, upto);
    let overlap = |p: int|
        Binary32 {
            bits: crate::retrieval::leakage::overlap_bits(
                corpus@.tokens.subrange(p * corpus@.r, p * corpus@.r + corpus@.r),
                content,
                order,
            ),
        };
    let largest = largest_overlap(corpus, content, order, upto);
    assert(passage_overlap(corpus, content, order, i).is_at_most(largest));
    assert(overlap(i) == passage_overlap(corpus, content, order, i));
    if largest.bits != 0 {
        let p = choose|p: int|
            0 <= p < upto && #[trigger] passage_overlap(corpus, content, order, p) == largest;
        assert(overlap(p) == largest);
    }
}

spec fn passage_overlap(corpus: NeighbourCorpus, content: Seq<u32>, order: int, p: int) -> Binary32 {
    Binary32 {
        bits: crate::retrieval::leakage::overlap_bits(
            corpus@.tokens.subrange(p * corpus@.r, p * corpus@.r + corpus@.r),
            content,
            order,
        ),
    }
}

proof fn lemma_largest(corpus: NeighbourCorpus, content: Seq<u32>, order: int, upto: nat)
    requires
        corpus.wf(),
        upto <= corpus@.documents.len() <= u32::MAX,
        order > 0,
        corpus@.r <= usize::MAX,
    ensures
        ({
            let largest = largest_overlap(corpus, content, order, upto);
            &&& largest.bits <= ONE_BITS
            &&& forall|p: int|
                0 <= p < upto ==> (#[trigger] passage_overlap(
                    corpus,
                    content,
                    order,
                    p,
                )).is_at_most(largest)
            &&& largest.bits == 0 || exists|p: int|
                0 <= p < upto && #[trigger] passage_overlap(corpus, content, order, p) == largest
        }),
    decreases upto,
{
    if upto > 0 {
        let at = (upto - 1) as nat;
        lemma_largest(corpus, content, order, at);
        let rest = largest_overlap(corpus, content, order, at);
        let (n, r) = (corpus@.documents.len() as int, corpus@.r as int);
        assert(0 <= at * r && at * r + r <= n * r) by (nonlinear_arith)
            requires
                0 <= at,
                at + 1 <= n,
                r >= 0,
        ;
        assert(crate::retrieval::corpus::id_of(at).0 == at);
        let own = passage_overlap(corpus, content, order, at as int);
        crate::retrieval::leakage::law_overlap_is_a_fraction(
            corpus@.tokens.subrange(at * r, at * r + r),
            content,
            order,
        );
        let largest = largest_overlap(corpus, content, order, upto);
        assert(largest == rest.larger_of(own));
        assert forall|p: int| 0 <= p < upto implies (#[trigger] passage_overlap(
            corpus,
            content,
            order,
            p,
        )).is_at_most(largest) by {
            if p < at {
                assert(passage_overlap(corpus, content, order, p).is_at_most(rest));
            }
        }
        if largest.bits != 0 {
            if largest == own {
                assert(passage_overlap(corpus, content, order, at as int) == largest);
            } else {
                assert(largest == rest);
                let p = choose|p: int|
                    0 <= p < at && #[trigger] passage_overlap(corpus, content, order, p) == rest;
                assert(passage_overlap(corpus, content, order, p) == largest);
            }
        }
    }
}

proof fn lemma_position(
    conditions: Seq<ConditionReport>,
    condition: NeighbourCondition,
    i: int,
    upto: nat,
)
    requires
        0 <= i < upto <= conditions.len(),
        conditions[i].condition == condition,
        forall|j: int| 0 <= j < i ==> (#[trigger] conditions[j]).condition != condition,
    ensures
        position_of(conditions, condition, upto) == Some(i),
    decreases upto,
{
    if upto == i + 1 {
        lemma_no_position(conditions, condition, i as nat);
    } else {
        lemma_position(conditions, condition, i, (upto - 1) as nat);
    }
}

proof fn lemma_no_position(
    conditions: Seq<ConditionReport>,
    condition: NeighbourCondition,
    upto: nat,
)
    requires
        upto <= conditions.len(),
        forall|j: int| 0 <= j < upto ==> (#[trigger] conditions[j]).condition != condition,
    ensures
        position_of(conditions, condition, upto) is None,
    decreases upto,
{
    if upto > 0 {
        lemma_no_position(conditions, condition, (upto - 1) as nat);
    }
}

/// The report of a condition is the first that bears its name, and there is none
/// where none bears it.
pub proof fn law_a_condition_is_reported_by_its_first_entry(
    report: EvalReport,
    condition: NeighbourCondition,
    i: int,
)
    requires
        0 <= i <= report.conditions@.len(),
        forall|j: int| 0 <= j < i ==> (#[trigger] report.conditions@[j]).condition != condition,
        i < report.conditions@.len() ==> report.conditions@[i].condition == condition,
    ensures
        report.report_of(condition) == if i < report.conditions@.len() {
            Some(report.conditions@[i])
        } else {
            None
        },
{
    if i < report.conditions@.len() {
        lemma_position(report.conditions@, condition, i, report.conditions@.len());
    } else {
        lemma_no_position(report.conditions@, condition, report.conditions@.len());
    }
}

/// What one condition is worth over another is positive exactly where its loss is
/// the lower, and negative exactly where it is the higher; it is nothing where
/// either was not evaluated.
pub proof fn law_a_gain_is_positive_where_the_loss_is_lower(
    report: EvalReport,
    from: NeighbourCondition,
    to: NeighbourCondition,
)
    ensures
        match (report.report_of(from), report.report_of(to)) {
            (Some(a), Some(b)) => {
                &&& report.difference_of(from, to) is Some
                &&& a.mean_loss.finite() && b.mean_loss.finite() ==> {
                    let gain = report.difference_of(from, to)->0;
                    &&& gain.units() > 0 <==> b.mean_loss.units() < a.mean_loss.units()
                    &&& gain.units() < 0 <==> a.mean_loss.units() < b.mean_loss.units()
                }
            },
            _ => report.difference_of(from, to) is None,
        },
{
    match (report.report_of(from), report.report_of(to)) {
        (Some(a), Some(b)) => {
            if a.mean_loss.finite() && b.mean_loss.finite() {
                crate::arithmetic::law_a_difference_has_the_sign_of_the_order(
                    a.mean_loss,
                    b.mean_loss,
                );
            }
        },
        _ => {},
    }
}

/// What has nothing to average has no mean; what has something keeps its own.
pub proof fn law_an_empty_tally_has_no_mean(count: nat, mean: Binary32)
    ensures
        count == 0 ==> mean_or_nan(count, mean).nan(),
        count > 0 ==> mean_or_nan(count, mean) == mean,
{
}

proof fn lemma_some_true(flags: Seq<bool>)
    ensures
        crate::view::count_true(flags) > 0 <==> exists|i: int| 0 <= i < flags.len() && flags[i],
    decreases flags.len(),
{
    if flags.len() > 0 {
        let rest = flags.drop_last();
        lemma_some_true(rest);
        if crate::view::count_true(rest) > 0 {
            let i = choose|i: int| 0 <= i < rest.len() && rest[i];
            assert(flags[i]);
        }
        if flags.last() {
            assert(flags[flags.len() - 1]);
        }
        if exists|i: int| 0 <= i < flags.len() && flags[i] {
            let i = choose|i: int| 0 <= i < flags.len() && flags[i];
            if i < rest.len() {
                assert(rest[i]);
            }
        }
    }
}

/// Draw `i` of a generator seeded with `seed`, between zero and one.
pub open spec fn unit_draw(seed: u64, i: nat) -> Binary32 {
    Binary32 { bits: crate::rng::drawn_unit_bits(crate::rng::advanced_by(seed, i)) }
}

/// A trial is scored exactly where some content position of the sequence is
/// masked by its own draw.
pub proof fn law_a_trial_scores_where_a_position_is_masked(seq: TrainingSequence, t: Binary32)
    ensures
        scores(seq, t) <==> exists|i: int|
            0 <= i < seq.tokens@.len() && i < seq.content_len && (#[trigger] unit_draw(
                eval_seed(seq.document.0, t),
                i as nat,
            )).is_less(t),
{
    let seed = eval_seed(seq.document.0, t);
    let n = seq.tokens@.len();
    let flags = crate::train::mask_draws(seed, t, seq.content_len as nat, n);
    lemma_some_true(flags);
    crate::train::lemma_draws_len(seed, t, seq.content_len as nat, n);
    assert forall|i: int| 0 <= i < n implies flags[i] == (i < seq.content_len && (
    #[trigger] unit_draw(seed, i as nat)).is_less(t)) by {
        crate::train::lemma_mask_draw(seed, t, seq.content_len as nat, n, i);
    }
    if scores(seq, t) {
        let i = choose|i: int| 0 <= i < flags.len() && flags[i];
        assert(unit_draw(seed, i as nat).is_less(t));
    }
}

/// A prepared trial shows the sequence with its drawn positions masked and asks
/// for what stood there: the noise level stands in every row, an unmasked token is
/// shown as it is and asked for nowhere, and a masked one is hidden and asked for
/// with the weight of the level, at its own class alone.
pub proof fn law_a_trial_asks_for_what_it_hides<I: NeighbourIndex, E: ChunkEmbedder>(
    prepared: PreparedScore,
    seq: TrainingSequence,
    t: NoiseLevel,
    condition: NeighbourCondition,
    evaluator: Evaluator,
    sources: RetrievalSources<'_, I, E>,
    i: int,
    class: int,
)
    requires
        prepares(prepared, seq, t, condition, evaluator, sources),
        seq.tokens@.len() == evaluator.shapes().n(),
        0 <= i < seq.tokens@.len(),
        0 <= class < evaluator.objective().vocab(),
    ensures
        ({
            let seed = eval_seed(seq.document.0, t.value());
            let hidden = i < seq.content_len && unit_draw(seed, i as nat).is_less(t.value());
            &&& prepared.inputs.t_col@.len() == seq.tokens@.len()
            &&& prepared.inputs.t_col@[i] == t.value()
            &&& prepared.view@.tokens.len() == seq.tokens@.len()
            &&& prepared.view@.tokens[i] == if hidden {
                evaluator.mask().0
            } else {
                seq.tokens@[i]
            }
            &&& prepared.labels@[i * evaluator.objective().vocab() + class] == if hidden && class
                == seq.tokens@[i] {
                evaluator.objective().weight_at(t)
            } else {
                Binary32 { bits: 0 }
            }
        }),
{
    let seed = eval_seed(seq.document.0, t.value());
    let n = seq.tokens@.len();
    crate::train::lemma_draws_len(seed, t.value(), seq.content_len as nat, n);
    crate::train::lemma_mask_draw(seed, t.value(), seq.content_len as nat, n, i);
    crate::loss::law_only_masked_positions_score(
        prepared.view@.masked,
        seq.tokens@,
        evaluator.objective().vocab() as nat,
        evaluator.objective().weight_at(t),
        i,
        class,
    );
}

/// The number of a trial, counted in the order in which a run goes through them.
pub open spec fn number_of(p: Position, sequences: nat, levels: nat) -> nat {
    (p.condition as nat * sequences + p.sequence as nat) * levels + p.level as nat
}

proof fn lemma_next_number(p: Position, conditions: nat, sequences: nat, levels: nat)
    requires
        on_course(p, conditions, sequences, levels),
        p.condition < conditions,
    ensures
        number_of(successor(p, sequences, levels), sequences, levels) == number_of(
            p,
            sequences,
            levels,
        ) + 1,
        on_course(successor(p, sequences, levels), conditions, sequences, levels),
{
    let (c, s, n, l) = (p.condition as int, p.sequence as int, sequences as int, levels as int);
    assert((c * n + (s + 1)) * l == (c * n + s) * l + l) by (nonlinear_arith);
    assert(((c + 1) * n + 0) * l == (c * n + (n - 1)) * l + l) by (nonlinear_arith);
}

proof fn lemma_number_tells(p: Position, q: Position, conditions: nat, sequences: nat, levels: nat)
    requires
        on_course(p, conditions, sequences, levels),
        on_course(q, conditions, sequences, levels),
        p.condition < conditions,
        q.condition < conditions,
        number_of(p, sequences, levels) == number_of(q, sequences, levels),
    ensures
        p == q,
{
    let l = levels as int;
    let n = sequences as int;
    let a = p.condition * n + p.sequence;
    let b = q.condition * n + q.sequence;
    vstd::arithmetic::div_mod::lemma_fundamental_div_mod_converse(a * l + p.level, l, a, p.level as int);
    vstd::arithmetic::div_mod::lemma_fundamental_div_mod_converse(b * l + q.level, l, b, q.level as int);
    vstd::arithmetic::div_mod::lemma_fundamental_div_mod_converse(
        a,
        n,
        p.condition as int,
        p.sequence as int,
    );
    vstd::arithmetic::div_mod::lemma_fundamental_div_mod_converse(
        b,
        n,
        q.condition as int,
        q.sequence as int,
    );
}

/// A run skips a trial only where there is nothing to score, and goes through the
/// trials in order: what comes next scores, and no trial from here to there does;
/// where nothing comes, no trial from here on scores.
pub proof fn law_a_run_skips_only_what_scores_nothing(
    p: Position,
    conditions: nat,
    sequences: Seq<TrainingSequence>,
    levels: Seq<NoiseLevel>,
    x: Position,
)
    requires
        on_course(p, conditions, sequences.len(), levels.len()),
        on_course(x, conditions, sequences.len(), levels.len()),
        x.condition < conditions,
        number_of(p, sequences.len(), levels.len()) <= number_of(
            x,
            sequences.len(),
            levels.len(),
        ),
    ensures
        ({
            let scoring = scores(sequences[x.sequence as int], levels[x.level as int].value());
            match upcoming(p, conditions, sequences, levels) {
                Some(q) => {
                    &&& q.condition < conditions
                    &&& on_course(q, conditions, sequences.len(), levels.len())
                    &&& number_of(p, sequences.len(), levels.len()) <= number_of(
                        q,
                        sequences.len(),
                        levels.len(),
                    )
                    &&& scores(sequences[q.sequence as int], levels[q.level as int].value())
                    &&& number_of(x, sequences.len(), levels.len()) < number_of(
                        q,
                        sequences.len(),
                        levels.len(),
                    ) ==> !scoring
                },
                None => !scoring,
            }
        }),
    decreases conditions - p.condition, sequences.len() - p.sequence, levels.len() - p.level,
{
    let (n, l) = (sequences.len(), levels.len());
    if p.condition >= conditions {
        // No trial of the run has a number as large as the end's.
        let (c, m) = (x.condition as int, conditions as int);
        let (a, b) = (c * n + x.sequence, p.condition * n + p.sequence);
        assert(a + 1 <= b) by (nonlinear_arith)
            requires
                a == c * n + x.sequence,
                b == p.condition * n + p.sequence,
                c + 1 <= p.condition,
                x.sequence < n,
                p.sequence >= 0,
        ;
        assert(a * l + x.level < b * l) by (nonlinear_arith)
            requires
                a + 1 <= b,
                x.level < l,
        ;
        assert(b * l + p.level >= b * l);
    } else if !scores(sequences[p.sequence as int], levels[p.level as int].value()) {
        lemma_next_number(p, conditions, n, l);
        if number_of(x, n, l) == number_of(p, n, l) {
            lemma_number_tells(p, x, conditions, n, l);
            let next = successor(p, n, l);
            lemma_upcoming_is_later(next, conditions, sequences, levels);
        } else {
            law_a_run_skips_only_what_scores_nothing(
                successor(p, n, l),
                conditions,
                sequences,
                levels,
                x,
            );
        }
    }
}

proof fn lemma_upcoming_is_later(
    p: Position,
    conditions: nat,
    sequences: Seq<TrainingSequence>,
    levels: Seq<NoiseLevel>,
)
    requires
        on_course(p, conditions, sequences.len(), levels.len()),
    ensures
        upcoming(p, conditions, sequences, levels) matches Some(q) ==> {
            &&& q.condition < conditions
            &&& on_course(q, conditions, sequences.len(), levels.len())
            &&& number_of(p, sequences.len(), levels.len()) <= number_of(
                q,
                sequences.len(),
                levels.len(),
            )
            &&& scores(sequences[q.sequence as int], levels[q.level as int].value())
        },
    decreases conditions - p.condition, sequences.len() - p.sequence, levels.len() - p.level,
{
    let (n, l) = (sequences.len(), levels.len());
    if p.condition < conditions && !scores(
        sequences[p.sequence as int],
        levels[p.level as int].value(),
    ) {
        lemma_next_number(p, conditions, n, l);
        lemma_upcoming_is_later(successor(p, n, l), conditions, sequences, levels);
    }
}

/// Levels are masked apart: the seed of a document at a level is told by how many
/// whole millionths the level comes to, and two levels that differ in that give
/// one document different seeds.
pub proof fn law_levels_are_masked_apart(document: u64, s: Binary32, t: Binary32)
    requires
        crate::schedule::in_unit_interval(s),
        crate::schedule::in_unit_interval(t),
        !s.negative(),
        !t.negative(),
    ensures
        ({
            let million = Binary32 { bits: 0x4974_2400 };
            let one = crate::binary32::one_units();
            let (a, b) = (
                (Binary32 { bits: s.product_bits(million) }).units() / one as int,
                (Binary32 { bits: t.product_bits(million) }).units() / one as int,
            );
            &&& million.units() == 1_000_000 * one
            &&& 0 <= a <= 1_000_000
            &&& eval_seed(document, s) == document ^ ((a * 0x9E37_79B9) as u64)
            &&& a != b ==> eval_seed(document, s) != eval_seed(document, t)
        }),
{
    lemma_millionths(document, s);
    lemma_millionths(document, t);
    let million = Binary32 { bits: 0x4974_2400 };
    let one = crate::binary32::one_units();
    let a = (Binary32 { bits: s.product_bits(million) }).units() / one as int;
    let b = (Binary32 { bits: t.product_bits(million) }).units() / one as int;
    if a != b {
        let x = (a * 0x9E37_79B9) as u64;
        let y = (b * 0x9E37_79B9) as u64;
        assert(x != y);
        assert(x != y ==> (document ^ x) != (document ^ y)) by (bit_vector);
    }
}

proof fn lemma_millionths(document: u64, t: Binary32)
    requires
        crate::schedule::in_unit_interval(t),
        !t.negative(),
    ensures
        ({
            let million = Binary32 { bits: 0x4974_2400 };
            let one = crate::binary32::one_units();
            let k = (Binary32 { bits: t.product_bits(million) }).units() / one as int;
            &&& million.units() == 1_000_000 * one
            &&& 0 <= k <= 1_000_000
            &&& eval_seed(document, t) == document ^ ((k * 0x9E37_79B9) as u64)
        }),
{
    let million = Binary32 { bits: 0x4974_2400 };
    let one = crate::binary32::one_units();
    vstd::arithmetic::power2::lemma_pow2_pos(149);
    assert(million.size() == 1_000_000 * one) by {
        vstd::arithmetic::power2::lemma2_to64();
        vstd::arithmetic::power2::lemma_pow2_adds(4, 145);
        let z = vstd::arithmetic::power2::pow2(145);
        assert(0x4974_2400nat / 0x80_0000 == 146 && 0x4974_2400nat % 0x80_0000 == 0x74_2400);
        assert(0xF4_2400 * z == 1_000_000 * (16 * z)) by (nonlinear_arith);
    }
    let (u, m) = (t.size(), million.size());
    assert(u * m <= m * one) by (nonlinear_arith)
        requires
            u <= one,
    ;
    crate::init::lemma_product_within(t, million, 0x4974_2400);
    let p = Binary32 { bits: t.product_bits(million) };
    let w = p.size();
    assert(0 <= w / one <= 1_000_000) by (nonlinear_arith)
        requires
            0 <= w <= 1_000_000 * one,
            one > 0,
    ;
}

} // verus!
