//! Inference: retrieval inside the denoising loop.
//!
//! A diffusion model's context *sharpens*: each step yields a cleaner view of
//! the whole sequence, so the query can be re-issued against a better sketch.
//! The cost of that is index traffic, and the control here is the refresh
//! schedule: re-query at a few thresholds and cache the encoded neighbours in
//! between.
//!
//! The sampler reveals the positions the model is most confident about. It is
//! not the reverse process of the training bound, so numbers produced by
//! running this loop are not likelihood bounds.
use crate::binary32::{Binary32, ONE_BITS};
use crate::chunk::{chunk_queries, ChunkAdmission, ChunkedView, RetrieverEncode};
use crate::config::CcaConfig;
use crate::retrieval::corpus::{slot_of, DocumentId, NeighbourCorpus};
use crate::retrieval::index::NeighbourIndex;
use crate::retrieval::leakage::LeakageGuard;
use crate::retrieval::{retrieve, Neighbours};
use crate::schedule::{trajectory, NoiseLevel, Phase, RefreshSchedule, ScheduleState};
use crate::view::{IdSource, MaskToken, NoisedView};
use vstd::prelude::*;

verus! {

/// Runs the model forward for one denoising step.
///
/// A trait so that the loop's control flow (when to refresh, what to cache,
/// what to reveal) is testable without a GPU.
pub trait Denoiser {
    /// Vocabulary width of the returned logits.
    closed spec fn vocab(&self) -> nat {
        arbitrary()
    }

    /// Whether `logits` are what the model gives for `view` with `neighbours`.
    closed spec fn denoises(
        &self,
        view: NoisedView,
        neighbours: Option<Neighbours>,
        logits: Seq<Binary32>,
    ) -> bool {
        arbitrary()
    }

    /// `e` to the power `x`, as the model's arithmetic rounds it.
    closed spec fn exponential(&self, x: Binary32) -> Binary32 {
        arbitrary()
    }

    /// Vocabulary width of the returned logits.
    fn vocab_size(&self) -> (vocab: usize)
        ensures
            vocab == self.vocab(),
    ;

    /// Logits for every position, row-major `[n, vocab]`.
    ///
    /// `neighbours` is `None` when the hard gate closed at this `t`. An
    /// implementation must then feed a zero retrieval mask, not a stale
    /// neighbour block.
    fn logits(&mut self, view: &NoisedView, neighbours: Option<&Neighbours>) -> (logits: Vec<
        Binary32,
    >)
        ensures
            old(self).denoises(*view, crate::generate::held(neighbours), logits@),
            final(self).vocab() == old(self).vocab(),
            forall|seen: NoisedView, given: Option<Neighbours>, out: Seq<Binary32>| #[trigger]
                final(self).denoises(seen, given, out) == old(self).denoises(seen, given, out),
            forall|x: Binary32| #[trigger] final(self).exponential(x) == old(self).exponential(x),
    ;

    /// `e` to the power `x`: the one transcendental function that ranking
    /// positions needs.
    fn exp(&self, x: Binary32) -> (y: Binary32)
        ensures
            y == self.exponential(x),
    ;
}

/// Whether two states of a denoiser run the same model.
pub open spec fn denoises_alike<D: Denoiser>(a: D, b: D) -> bool {
    &&& a.vocab() == b.vocab()
    &&& forall|view: NoisedView, neighbours: Option<Neighbours>, logits: Seq<Binary32>| #[trigger]
        a.denoises(view, neighbours, logits) == b.denoises(view, neighbours, logits)
    &&& forall|x: Binary32| #[trigger] a.exponential(x) == b.exponential(x)
}

/// How many positions a step reveals.
#[derive(Clone, Copy, Debug, PartialEq, Eq, Structural)]
pub enum RevealPolicy {
    /// Reveal `remaining_masked / remaining_steps`, rounded up, so the
    /// trajectory finishes with everything revealed regardless of where
    /// rounding lands.
    Linear,
    /// Reveal a fixed count per step.
    Fixed(usize),
}

impl Default for RevealPolicy {
    fn default() -> (policy: Self)
        ensures
            policy == RevealPolicy::Linear,
    {
        RevealPolicy::Linear
    }
}

impl RevealPolicy {
    /// How many positions to reveal.
    pub open spec fn amount(self, remaining_steps: nat, remaining_masked: nat) -> nat {
        match self {
            RevealPolicy::Linear => if remaining_steps <= 1 {
                remaining_masked
            } else {
                ((remaining_masked + remaining_steps - 1) / remaining_steps as int) as nat
            },
            RevealPolicy::Fixed(k) => if k < remaining_masked {
                k as nat
            } else {
                remaining_masked
            },
        }
    }

    /// Positions to reveal at a step with `remaining_steps` left (this one
    /// included) and `remaining_masked` still masked.
    pub fn count(self, remaining_steps: usize, remaining_masked: usize) -> (count: usize)
        ensures
            count == self.amount(remaining_steps as nat, remaining_masked as nat),
            count <= remaining_masked,
    {
        match self {
            RevealPolicy::Linear => {
                if remaining_steps <= 1 {
                    remaining_masked
                } else {
                    let whole: usize = remaining_masked / remaining_steps;
                    proof {
                        lemma_div_ceil(remaining_masked as int, remaining_steps as int);
                    }
                    if remaining_masked % remaining_steps == 0 {
                        whole
                    } else {
                        whole + 1
                    }
                }
            },
            RevealPolicy::Fixed(k) => {
                if k < remaining_masked {
                    k
                } else {
                    remaining_masked
                }
            },
        }
    }
}

/// Rounding a quotient up.
proof fn lemma_div_ceil(a: int, b: int)
    requires
        a >= 0,
        b > 1,
    ensures
        a % b == 0 ==> (a + b - 1) / b == a / b,
        a % b != 0 ==> (a + b - 1) / b == a / b + 1,
        (a + b - 1) / b <= a,
        a / b <= a,
        a % b != 0 ==> a / b + 1 <= a,
{
    let q = a / b;
    let r = a % b;
    vstd::arithmetic::div_mod::lemma_fundamental_div_mod(a, b);
    vstd::arithmetic::mul::lemma_mul_is_commutative(b, q);
    assert(q >= 0 && q * b >= 2 * q) by (nonlinear_arith)
        requires
            a == q * b + r,
            0 <= r < b,
            b > 1,
            a >= 0,
    ;
    if r == 0 {
        vstd::arithmetic::div_mod::lemma_fundamental_div_mod_converse(a + b - 1, b, q, b - 1);
    } else {
        assert((q + 1) * b == q * b + b) by (nonlinear_arith);
        vstd::arithmetic::div_mod::lemma_fundamental_div_mod_converse(a + b - 1, b, q + 1, r - 1);
    }
}

/// What is left after `steps` steps that each reveal what the policy says.
pub open spec fn left_after(policy: RevealPolicy, steps: nat, masked: nat) -> nat
    decreases steps,
{
    if steps == 0 {
        masked
    } else {
        left_after(
            policy,
            (steps - 1) as nat,
            (masked - policy.amount(steps, masked)) as nat,
        )
    }
}

/// A linear reveal finishes the trajectory: however many positions are masked
/// and however many steps there are, nothing is left after the last one.
pub proof fn law_linear_reveal_finishes(steps: nat, masked: nat)
    requires
        steps > 0,
    ensures
        left_after(RevealPolicy::Linear, steps, masked) == 0,
    decreases steps,
{
    if steps > 1 {
        lemma_div_ceil(masked as int, steps as int);
        law_linear_reveal_finishes(
            (steps - 1) as nat,
            (masked - RevealPolicy::Linear.amount(steps, masked)) as nat,
        );
    } else {
        assert(left_after(RevealPolicy::Linear, 0, 0) == 0);
    }
}

/// The first class below `upto`, other than `mask_id`, that no class before
/// it reaches and no class after it exceeds; classes that are not numbers or
/// minus infinity do not count.
pub open spec fn peak_class(row: Seq<Binary32>, mask_id: int, upto: int) -> Option<int>
    decreases upto,
{
    if upto <= 0 {
        None
    } else {
        let i = upto - 1;
        let rest = peak_class(row, mask_id, i);
        let v = row[i];
        let above = match rest {
            Some(a) => row[a].is_less(v),
            None => (Binary32 { bits: 0xFF80_0000 }).is_less(v),
        };
        if i != mask_id && above {
            Some(i)
        } else {
            rest
        }
    }
}

/// The class a position would be revealed as: the peak of its row, where that
/// is finite.
pub open spec fn legal_class(row: Seq<Binary32>, mask_id: int) -> Option<int> {
    match peak_class(row, mask_id, row.len() as int) {
        Some(a) => if row[a].finite() {
            Some(a)
        } else {
            None
        },
        None => None,
    }
}

/// The class that `pos` would be revealed as, if its row is there and has
/// one.
pub open spec fn class_at(logits: Seq<Binary32>, vocab: int, mask_id: int, pos: int) -> Option<
    int,
> {
    if pos * vocab + vocab <= logits.len() {
        legal_class(crate::retrieval::corpus::slot(logits, pos, vocab), mask_id)
    } else {
        None
    }
}

/// The masked positions below `upto` that can be revealed, each with its
/// token.
pub open spec fn candidates(
    masked: Seq<bool>,
    logits: Seq<Binary32>,
    vocab: int,
    mask_id: int,
    upto: int,
) -> Seq<(usize, u32)>
    decreases upto,
{
    if upto <= 0 {
        Seq::empty()
    } else {
        let pos = upto - 1;
        let rest = candidates(masked, logits, vocab, mask_id, pos);
        match class_at(logits, vocab, mask_id, pos) {
            Some(class) => if masked[pos] {
                rest.push((pos as usize, class as u32))
            } else {
                rest
            },
            None => rest,
        }
    }
}

/// Whether candidate `j` is taken before candidate `i`: it is more confident,
/// or as confident and stands earlier. A confidence that is not a number comes
/// after every other.
pub open spec fn taken_before(conf: Seq<Binary32>, j: int, i: int) -> bool {
    if conf[j].nan() != conf[i].nan() {
        conf[i].nan()
    } else {
        conf[i].is_less(conf[j]) || (!conf[j].is_less(conf[i]) && j < i)
    }
}

/// How many of the first `upto` candidates are taken before candidate `i`.
pub open spec fn rank_below(conf: Seq<Binary32>, i: int, upto: int) -> nat
    decreases upto,
{
    if upto <= 0 {
        0
    } else {
        rank_below(conf, i, upto - 1) + (if taken_before(conf, upto - 1, i) {
            1nat
        } else {
            0nat
        })
    }
}

/// The candidates among the first `upto` that rank under `count`, in order of
/// position.
pub open spec fn most_confident(
    cands: Seq<(usize, u32)>,
    conf: Seq<Binary32>,
    count: nat,
    upto: int,
) -> Seq<(usize, u32)>
    decreases upto,
{
    if upto <= 0 {
        Seq::empty()
    } else {
        let rest = most_confident(cands, conf, count, upto - 1);
        if rank_below(conf, upto - 1, cands.len() as int) < count {
            rest.push(cands[upto - 1])
        } else {
            rest
        }
    }
}

/// Whether `picks` is what confidences `conf` select: of the masked positions
/// that can be revealed, the `count` most confident.
pub open spec fn selects(
    masked: Seq<bool>,
    logits: Seq<Binary32>,
    vocab: int,
    mask_id: int,
    count: nat,
    conf: Seq<Binary32>,
    picks: Seq<(usize, u32)>,
) -> bool {
    let cands = candidates(masked, logits, vocab, mask_id, masked.len() as int);
    conf.len() == cands.len() && picks == most_confident(cands, conf, count, cands.len() as int)
}

/// The sum of the exponentials of the first `upto` logits of a row, each less
/// `peak`; the class `mask_id` is left out.
pub open spec fn exp_sum_bits<D: Denoiser>(
    denoiser: D,
    row: Seq<Binary32>,
    mask_id: int,
    peak: Binary32,
    upto: int,
) -> u32
    decreases upto,
{
    if upto <= 0 {
        0
    } else {
        let rest = exp_sum_bits(denoiser, row, mask_id, peak, upto - 1);
        if upto - 1 == mask_id {
            rest
        } else {
            (Binary32 { bits: rest }).sum_bits(
                denoiser.exponential(
                    (Binary32 { bits: row[upto - 1].difference_bits(peak) }),
                ),
            )
        }
    }
}

/// The largest softmax probability of a row, taken over every class but
/// `mask_id`, where `peak` is the largest of those logits.
pub open spec fn confidence<D: Denoiser>(
    denoiser: D,
    row: Seq<Binary32>,
    mask_id: int,
    peak: Binary32,
) -> Binary32 {
    Binary32 {
        bits: (Binary32 { bits: crate::binary32::ONE_BITS }).quotient_bits(
            (Binary32 {
                bits: exp_sum_bits(denoiser, row, mask_id, peak, row.len() as int),
            }),
        ),
    }
}

/// The confidences of the positions below `upto` that can be revealed.
pub open spec fn confidences<D: Denoiser>(
    denoiser: D,
    masked: Seq<bool>,
    logits: Seq<Binary32>,
    vocab: int,
    mask_id: int,
    upto: int,
) -> Seq<Binary32> {
    let cands = candidates(masked, logits, vocab, mask_id, upto);
    Seq::new(
        cands.len(),
        |c: int|
            {
                let row = crate::retrieval::corpus::slot(logits, cands[c].0 as int, vocab);
                confidence(denoiser, row, mask_id, row[cands[c].1 as int])
            },
    )
}

/// Whether `picks` is what unmasking the `count` most confident positions
/// gives.
pub open spec fn unmasks<D: Denoiser>(
    denoiser: D,
    view: crate::view::ViewState,
    logits: Seq<Binary32>,
    vocab: int,
    count: nat,
    picks: Seq<(usize, u32)>,
) -> bool {
    let mask_id = view.mask_token.0 as int;
    if count == 0 || vocab == 0 {
        picks.len() == 0
    } else {
        selects(
            view.masked,
            logits,
            vocab,
            mask_id,
            count,
            confidences(denoiser, view.masked, logits, vocab, mask_id, view.masked.len() as int),
            picks,
        )
    }
}

/// The largest softmax probability of `row`, taken over every class but
/// `mask_id`, where `peak` is the largest of those logits.
///
/// Comparing raw maximum logits instead would rank positions by their rows'
/// arbitrary offsets rather than by how peaked the distributions are.
pub fn peak_probability<D: Denoiser>(
    denoiser: &D,
    row: &[Binary32],
    mask_id: usize,
    peak: Binary32,
) -> (p: Binary32)
    ensures
        p == confidence(*denoiser, row@, mask_id as int, peak),
{
    let mut sum: Binary32 = Binary32::from_bits(0);
    let mut i: usize = 0;
    while i < row.len()
        invariant
            i <= row.len(),
            sum.bits == exp_sum_bits(*denoiser, row@, mask_id as int, peak, i as int),
        decreases row.len() - i,
    {
        if i != mask_id {
            let below: Binary32 = row[i].minus(peak);
            proof {
                assert(below == (Binary32 { bits: row@[i as int].difference_bits(peak) }));
                assert(sum == (Binary32 { bits: sum.bits }));
            }
            sum = sum.plus(denoiser.exp(below));
        }
        i = i + 1;
    }
    proof {
        assert(sum == (Binary32 { bits: sum.bits }));
    }
    let one: Binary32 = Binary32::from_bits(ONE_BITS);
    proof {
        assert(one == (Binary32 { bits: crate::binary32::ONE_BITS }));
    }
    one.over(sum)
}

/// The peak of a row: the class and whether there is one.
fn find_peak(row: &[Binary32], mask_id: usize) -> (peak: Option<usize>)
    ensures
        peak is Some <==> legal_class(row@, mask_id as int) is Some,
        peak is Some ==> legal_class(row@, mask_id as int) == Some(peak->0 as int) && peak->0
            < row@.len(),
{
    let mut arg: Option<usize> = None;
    let mut max: Binary32 = Binary32::from_bits(0xFF80_0000);
    let mut i: usize = 0;
    while i < row.len()
        invariant
            i <= row.len(),
            arg is Some ==> arg->0 < i && row@[arg->0 as int] == max,
            arg is None ==> max.bits == 0xFF80_0000u32,
            peak_class(row@, mask_id as int, i as int) == match arg {
                Some(a) => Some(a as int),
                None => None,
            },
        decreases row.len() - i,
    {
        let v: Binary32 = row[i];
        proof {
            if arg is None {
                assert(max == (Binary32 { bits: 0xFF80_0000 }));
            }
        }
        if i != mask_id && max.less(v) {
            max = v;
            arg = Some(i);
        }
        i = i + 1;
    }
    match arg {
        Some(a) => {
            if row[a].is_finite() {
                Some(a)
            } else {
                None
            }
        },
        None => None,
    }
}

/// Of `cands`, the `count` most confident, in order of position; of two as
/// confident, the one that stands earlier, so that a trajectory is
/// reproducible.
pub fn take_most_confident(cands: &[(usize, u32)], conf: &[Binary32], count: usize) -> (picks: Vec<
    (usize, u32),
>)
    requires
        cands@.len() == conf@.len(),
    ensures
        picks@ == most_confident(cands@, conf@, count as nat, cands@.len() as int),
        picks@.len() == if count < cands@.len() {
            count as nat
        } else {
            cands@.len()
        },
{
    let mut picks: Vec<(usize, u32)> = Vec::new();
    let n: usize = cands.len();
    let mut i: usize = 0;
    while i < n
        invariant
            i <= n,
            n == cands@.len(),
            n == conf@.len(),
            picks@ == most_confident(cands@, conf@, count as nat, i as int),
        decreases n - i,
    {
        let mut rank: usize = 0;
        let mut j: usize = 0;
        while j < n
            invariant
                j <= n,
                i < n,
                n == conf@.len(),
                rank <= j,
                rank == rank_below(conf@, i as int, j as int),
            decreases n - j,
        {
            let before: bool = if conf[j].is_nan() != conf[i].is_nan() {
                conf[i].is_nan()
            } else {
                conf[i].less(conf[j]) || (!conf[j].less(conf[i]) && j < i)
            };
            if before {
                rank = rank + 1;
            }
            j = j + 1;
        }
        if rank < count {
            picks.push(cands[i]);
        }
        i = i + 1;
    }
    proof {
        lemma_as_many_as_asked(cands@, conf@, count as nat);
    }
    picks
}

/// What comes before something that comes before a third comes before it too.
proof fn lemma_taken_in_order(conf: Seq<Binary32>, a: int, b: int, c: int)
    requires
        taken_before(conf, a, b),
        taken_before(conf, b, c),
    ensures
        taken_before(conf, a, c),
{
}

/// Of the first `n` candidates, those taken before candidate `n` are those that
/// rank under it.
proof fn lemma_rank_of_next(conf: Seq<Binary32>, n: int, i: int)
    requires
        0 <= i < n,
    ensures
        taken_before(conf, i, n) <==> rank_below(conf, i, n) < rank_below(conf, n, n),
{
    lemma_ranks(conf, i, n, n);
}

/// Ranks among the first `upto` go with the order of the candidates.
proof fn lemma_ranks(conf: Seq<Binary32>, i: int, n: int, upto: int)
    requires
        0 <= i < n,
        upto <= n,
    ensures
        taken_before(conf, i, n) ==> rank_below(conf, i, upto) + (if i < upto {
            1nat
        } else {
            0nat
        }) <= rank_below(conf, n, upto),
        !taken_before(conf, i, n) ==> rank_below(conf, n, upto) <= rank_below(conf, i, upto),
    decreases upto,
{
    if upto > 0 {
        lemma_ranks(conf, i, n, upto - 1);
        let k = upto - 1;
        if taken_before(conf, i, n) && taken_before(conf, k, i) {
            lemma_taken_in_order(conf, k, i, n);
        }
        if !taken_before(conf, i, n) && taken_before(conf, k, n) {
            assert(taken_before(conf, n, i));
            lemma_taken_in_order(conf, k, n, i);
        }
    }
}

/// How many of the first `upto` candidates rank under `count` among the first
/// `n`.
spec fn ranked(conf: Seq<Binary32>, n: int, upto: int, count: int) -> nat
    decreases upto,
{
    if upto <= 0 {
        0
    } else {
        ranked(conf, n, upto - 1, count) + (if rank_below(conf, upto - 1, n) < count {
            1nat
        } else {
            0nat
        })
    }
}

/// One candidate more takes one place.
proof fn lemma_ranked_next(conf: Seq<Binary32>, n: int, upto: int, count: int)
    requires
        upto <= n,
    ensures
        ranked(conf, n + 1, upto, count) == ranked(
            conf,
            n,
            upto,
            if rank_below(conf, n, n) < count {
                count - 1
            } else {
                count
            },
        ),
    decreases upto,
{
    if upto > 0 {
        lemma_ranked_next(conf, n, upto - 1, count);
        lemma_rank_of_next(conf, n, upto - 1);
        assert(taken_before(conf, n, upto - 1) == !taken_before(conf, upto - 1, n));
    }
}

/// Every place is taken by one candidate.
proof fn lemma_places_are_taken(conf: Seq<Binary32>, n: int, count: int)
    requires
        0 <= n,
        0 <= count,
    ensures
        ranked(conf, n, n, count) == if count < n {
            count
        } else {
            n
        },
    decreases n,
{
    if n > 0 {
        let m = n - 1;
        let own = rank_below(conf, m, m);
        lemma_ranked_next(conf, m, m, count);
        lemma_places_are_taken(conf, m, count);
        if own < count {
            lemma_places_are_taken(conf, m, count - 1);
        }
        assert(!taken_before(conf, m, m));
        assert(rank_below(conf, m, n) == own);
        lemma_rank_bound(conf, m, m);
    }
}

/// As many are taken as are asked for, if there are so many.
proof fn lemma_as_many_as_asked(cands: Seq<(usize, u32)>, conf: Seq<Binary32>, count: nat)
    ensures
        most_confident(cands, conf, count, cands.len() as int).len() == if count < cands.len() {
            count
        } else {
            cands.len()
        },
{
    lemma_taken_are_ranked(cands, conf, count, cands.len() as int);
    lemma_places_are_taken(conf, cands.len() as int, count as int);
}

proof fn lemma_taken_are_ranked(
    cands: Seq<(usize, u32)>,
    conf: Seq<Binary32>,
    count: nat,
    upto: int,
)
    ensures
        most_confident(cands, conf, count, upto).len() == ranked(
            conf,
            cands.len() as int,
            upto,
            count as int,
        ),
    decreases upto,
{
    if upto > 0 {
        lemma_taken_are_ranked(cands, conf, count, upto - 1);
    }
}

/// Pick the `count` masked positions the model is most confident about, and
/// the token it would put there.
///
/// # `[MASK]` is not a legal output
///
/// The mask token has an id like any other, and an unconstrained `argmax`
/// will happily choose it. The forward process never re-masks an unmasked
/// position, so a `[MASK]` written into the sequence is stuck there. It also
/// corrupts the ranking: a position where the model is *sure* the answer is
/// `[MASK]` would be revealed first. So the mask id is excluded from both the
/// `argmax` and the softmax denominator.
pub fn unmask_top_confidence<D: Denoiser>(
    view: &NoisedView,
    logits: &[Binary32],
    vocab: usize,
    count: usize,
    denoiser: &D,
) -> (picks: Vec<(usize, u32)>)
    requires
        view.wf(),
        vocab <= 0x1_0000_0000,
    ensures
        unmasks(*denoiser, view@, logits@, vocab as int, count as nat, picks@),
        vocab > 0 ==> ({
            let open = candidates(
                view@.masked,
                logits@,
                vocab as int,
                view@.mask_token.0 as int,
                view@.masked.len() as int,
            ).len();
            picks@.len() == if count < open {
                count as nat
            } else {
                open
            }
        }),
{
    let mut picks: Vec<(usize, u32)> = Vec::new();
    if count == 0 || vocab == 0 {
        return picks;
    }
    let mask_id: usize = view.mask_token().0 as usize;
    let masked: &[bool] = view.masked();
    let mut cands: Vec<(usize, u32)> = Vec::new();
    let mut conf: Vec<Binary32> = Vec::new();
    let mut pos: usize = 0;
    while pos < masked.len()
        invariant
            pos <= masked@.len(),
            vocab <= 0x1_0000_0000,
            conf@ == confidences(
                *denoiser,
                masked@,
                logits@,
                vocab as int,
                mask_id as int,
                pos as int,
            ),
            cands@ == candidates(
                masked@,
                logits@,
                vocab as int,
                mask_id as int,
                pos as int,
            ),
        decreases masked.len() - pos,
    {
        match slot_of(logits, pos, vocab) {
            Some(row) => {
                if masked[pos] {
                    match find_peak(row, mask_id) {
                        Some(class) => {
                            proof {
                                assert(row@.len() <= vocab);
                            }
                            let p: Binary32 = peak_probability(
                                denoiser,
                                row,
                                mask_id,
                                row[class],
                            );
                            let ghost before = conf@;
                            cands.push((pos, class as u32));
                            conf.push(p);
                            proof {
                                assert(conf@ =~= confidences(
                                    *denoiser,
                                    masked@,
                                    logits@,
                                    vocab as int,
                                    mask_id as int,
                                    pos + 1,
                                ));
                            }
                        },
                        None => {},
                    }
                }
            },
            None => {},
        }
        pos = pos + 1;
    }
    picks = take_most_confident(cands.as_slice(), conf.as_slice(), count);
    proof {
        assert(selects(
            view@.masked,
            logits@,
            vocab as int,
            view@.mask_token.0 as int,
            count as nat,
            conf@,
            picks@,
        ));
    }
    picks
}

/// Sampling parameters.
#[derive(Clone, Debug)]
pub struct SamplingConfig {
    /// Denoising steps.
    pub steps: usize,
    /// When to re-query the index.
    pub refresh: RefreshSchedule,
    /// Per-chunk admission for query construction.
    pub admission: ChunkAdmission,
    /// How many positions to reveal per step.
    pub reveal: RevealPolicy,
    /// Document id the prompt belongs to, for the leakage guard. At inference
    /// there is no held-out answer, but a corpus that contains the prompt's
    /// own source still returns it verbatim.
    pub document: DocumentId,
}

impl SamplingConfig {
    /// The defaults: 32 steps, refreshing at `t = 0.8, 0.5, 0.25`.
    pub fn new(document: DocumentId) -> (sampling: Self)
        ensures
            sampling.steps == 32,
            sampling.refresh.wf(),
            sampling.refresh@.thresholds.len() == 3,
            sampling.refresh@.thresholds[0].bits == 0x3F4C_CCCD,
            sampling.refresh@.thresholds[1].bits == 0x3F00_0000,
            sampling.refresh@.thresholds[2].bits == 0x3E80_0000,
            sampling.admission.limit().bits == 0x3F59_999A,
            sampling.reveal == RevealPolicy::Linear,
            sampling.document == document,
    {
        SamplingConfig {
            steps: 32,
            refresh: RefreshSchedule::default_thresholds(),
            admission: ChunkAdmission::default(),
            reveal: RevealPolicy::Linear,
            document,
        }
    }
}

/// What one trajectory did, for diagnostics.
#[derive(Clone, Copy, Debug, PartialEq, Eq, Structural)]
pub struct SamplingTrace {
    /// Steps run.
    pub steps: usize,
    /// Steps that re-queried the index.
    pub refreshes: usize,
    /// Steps that ran with no neighbours because the hard gate was closed.
    pub gated_out: usize,
    /// Positions revealed in total.
    pub revealed: usize,
}

impl Default for SamplingTrace {
    fn default() -> (trace: Self)
        ensures
            trace.steps == 0,
            trace.refreshes == 0,
            trace.gated_out == 0,
            trace.revealed == 0,
    {
        SamplingTrace { steps: 0, refreshes: 0, gated_out: 0, revealed: 0 }
    }
}

/// Everything the sampler needs to answer a query.
pub struct RetrievalContext<'a, I: NeighbourIndex, E: RetrieverEncode> {
    /// The nearest-neighbour index.
    pub index: &'a I,
    /// Token storage behind the index.
    pub corpus: &'a NeighbourCorpus,
    /// Which neighbours this document may retrieve.
    pub guard: &'a LeakageGuard,
    /// Turns chunks of the noised view into query vectors.
    pub encoder: &'a mut E,
}

/// Whether `found` is what querying the index for a view gives: nothing where
/// the hard gate is closed, and else what the index answers to the view's queries.
pub open spec fn refreshed<I: NeighbourIndex, E: RetrieverEncode>(
    found: Option<Neighbours>,
    view: NoisedView,
    cfg: CcaConfig,
    admission: ChunkAdmission,
    document: DocumentId,
    encoder: E,
    index: I,
    corpus: NeighbourCorpus,
    guard: LeakageGuard,
) -> bool {
    &&& found is Some <==> crate::schedule::gate_open(view@.t, Phase::Inference)
    &&& found is Some ==> exists|queries: crate::chunk::ChunkQueries| #[trigger]
        crate::retrieval::retrieved_for_view(
            found->0,
            queries,
            view,
            cfg,
            admission,
            encoder,
            index,
            corpus,
            guard,
            document,
        )
}

/// Two states of one encoder retrieve alike.
proof fn lemma_same_encoder<I: NeighbourIndex, E: RetrieverEncode>(
    found: Option<Neighbours>,
    view: NoisedView,
    cfg: CcaConfig,
    admission: ChunkAdmission,
    document: DocumentId,
    a: E,
    b: E,
    index: I,
    corpus: NeighbourCorpus,
    guard: LeakageGuard,
)
    requires
        refreshed(found, view, cfg, admission, document, a, index, corpus, guard),
        crate::chunk::encodes_alike(a, b),
    ensures
        refreshed(found, view, cfg, admission, document, b, index, corpus, guard),
{
    if found is Some {
        let queries = choose|queries: crate::chunk::ChunkQueries| #[trigger]
            crate::retrieval::retrieved_for_view(
                found->0,
                queries,
                view,
                cfg,
                admission,
                a,
                index,
                corpus,
                guard,
                document,
            );
        crate::chunk::lemma_alike_queries(queries, view, cfg, admission, a, b);
        assert(crate::retrieval::retrieved_for_view(
            found->0,
            queries,
            view,
            cfg,
            admission,
            b,
            index,
            corpus,
            guard,
            document,
        ));
    }
}

/// Query the index for the view as it stands, if the hard gate is open.
fn refresh<I: NeighbourIndex, E: RetrieverEncode>(
    view: &NoisedView,
    cfg: CcaConfig,
    sampling: &SamplingConfig,
    retrieval: &mut RetrievalContext<'_, I, E>,
) -> (found: Option<Neighbours>)
    requires
        view.wf(),
        cfg.wf(),
        view@.tokens.len() == cfg.n(),
        old(retrieval).encoder.width() == old(retrieval).index.width(),
        old(retrieval).corpus@.r == cfg.r(),
        cfg.l() * cfg.k() * cfg.r() <= usize::MAX,
        cfg.l() * old(retrieval).encoder.width() <= usize::MAX,
    ensures
        refreshed(
            found,
            *view,
            cfg,
            sampling.admission,
            sampling.document,
            *old(retrieval).encoder,
            *old(retrieval).index,
            *old(retrieval).corpus,
            *old(retrieval).guard,
        ),
        crate::chunk::encodes_alike(*final(retrieval).encoder, *old(retrieval).encoder),
        *final(final(retrieval).encoder) == *final(old(retrieval).encoder),
        final(retrieval).index == old(retrieval).index,
        final(retrieval).corpus == old(retrieval).corpus,
        final(retrieval).guard == old(retrieval).guard,
{
    match ChunkedView::new(view, cfg) {
        Ok(chunked) => {
            match chunk_queries(chunked, Phase::Inference, sampling.admission, retrieval.encoder) {
                Some(queries) => {
                    let found: Neighbours = retrieve(
                        &queries,
                        cfg,
                        retrieval.index,
                        retrieval.corpus,
                        retrieval.guard,
                        sampling.document,
                    );
                    let result: Option<Neighbours> = Some(found);
                    proof {
                        assert(crate::retrieval::retrieved_for_view(
                            result->0,
                            queries,
                            *view,
                            cfg,
                            sampling.admission,
                            *old(retrieval).encoder,
                            *old(retrieval).index,
                            *old(retrieval).corpus,
                            *old(retrieval).guard,
                            sampling.document,
                        ));
                    }
                    result
                },
                None => None,
            }
        },
        Err(_) => None,
    }
}

/// The retrieval bookkeeping of a trajectory.
pub struct GateRun {
    /// The refresh schedule.
    pub schedule: ScheduleState,
    /// Whether a neighbour block is cached.
    pub cached: bool,
    /// Steps that queried the index.
    pub refreshes: nat,
    /// Steps that ran with no neighbours.
    pub gated: nat,
}

impl GateRun {
    /// The bookkeeping after a step at `t`.
    pub open spec fn step(self, t: NoiseLevel) -> GateRun {
        let fresh = self.schedule.refreshes(t);
        let open = crate::schedule::gate_open(t, Phase::Inference);
        let cached = if fresh {
            open
        } else {
            self.cached
        };
        GateRun {
            schedule: self.schedule.after(t),
            cached,
            refreshes: self.refreshes + (if fresh && open {
                1nat
            } else {
                0nat
            }),
            gated: self.gated + (if cached {
                0nat
            } else {
                1nat
            }),
        }
    }
}

/// The bookkeeping after the first `upto` of `levels`.
pub open spec fn gate_run(thresholds: Seq<Binary32>, levels: Seq<NoiseLevel>, upto: int) -> GateRun
    decreases upto,
{
    if upto <= 0 {
        GateRun {
            schedule: ScheduleState { thresholds, fired: 0, started: false },
            cached: false,
            refreshes: 0,
            gated: 0,
        }
    } else {
        gate_run(thresholds, levels, upto - 1).step(levels[upto - 1])
    }
}

/// The canvas a trajectory starts from: the prompt, then mask tokens.
pub open spec fn canvas(prompt: Seq<u32>, mask: u32, n: nat) -> Seq<u32> {
    prompt + Seq::new((n - prompt.len()) as nat, |i: int| mask)
}

/// Every visible position shows something other than the mask token.
pub open spec fn visible_is_legal(view: NoisedView) -> bool {
    forall|i: int|
        0 <= i < view@.tokens.len() && !(#[trigger] view@.masked[i]) ==> view@.tokens[i]
            != view@.mask_token.0
}

/// The prompt stands as it was given, but for mask tokens in it.
pub open spec fn prompt_stands(view: NoisedView, prompt: Seq<u32>) -> bool {
    forall|i: int|
        0 <= i < prompt.len() && #[trigger] prompt[i] != view@.mask_token.0 ==> view@.tokens[i]
            == prompt[i] && !view@.masked[i]
}

/// What a candidate is: a masked position with a legal class of its row.
proof fn lemma_candidates(
    masked: Seq<bool>,
    logits: Seq<Binary32>,
    vocab: int,
    mask_id: int,
    upto: int,
)
    requires
        upto <= masked.len() <= usize::MAX,
        0 <= vocab <= 0x1_0000_0000,
        0 <= mask_id,
    ensures
        ({
            let cands = candidates(masked, logits, vocab, mask_id, upto);
            &&& cands.len() <= crate::view::count_true(masked.take(if upto > 0 { upto } else { 0 }))
            &&& forall|c: int|
                0 <= c < cands.len() ==> {
                    &&& (#[trigger] cands[c]).0 < upto
                    &&& masked[cands[c].0 as int]
                    &&& cands[c].1 != mask_id
                }
            &&& forall|a: int, b: int|
                0 <= a < b < cands.len() ==> (#[trigger] cands[a]).0 < (#[trigger] cands[b]).0
            &&& forall|pos: int|
                0 <= pos < upto && #[trigger] masked[pos] && class_at(logits, vocab, mask_id, pos) is Some
                    ==> exists|c: int| 0 <= c < cands.len() && (#[trigger] cands[c]).0 == pos
        }),
    decreases upto,
{
    if upto > 0 {
        let pos = upto - 1;
        lemma_candidates(masked, logits, vocab, mask_id, pos);
        let rest = candidates(masked, logits, vocab, mask_id, pos);
        let cands = candidates(masked, logits, vocab, mask_id, upto);
        assert(masked.take(upto).drop_last() =~= masked.take(pos));
        let row = crate::retrieval::corpus::slot(logits, pos, vocab);
        assert(pos * vocab >= 0) by (nonlinear_arith)
            requires
                pos >= 0,
                vocab >= 0,
        ;
        if class_at(logits, vocab, mask_id, pos) is Some {
            lemma_peak_class(row, mask_id, row.len() as int);
        }
        assert forall|p: int|
            0 <= p < upto && #[trigger] masked[p] && class_at(logits, vocab, mask_id, p) is Some implies exists|
            c: int,
        | 0 <= c < cands.len() && (#[trigger] cands[c]).0 == p by {
            if p < pos {
                let c = choose|c: int| 0 <= c < rest.len() && (#[trigger] rest[c]).0 == p;
                assert(cands[c] == rest[c]);
            } else {
                assert(cands.last().0 == pos);
                assert(cands[cands.len() - 1].0 == pos);
            }
        }
    }
}

proof fn lemma_peak_class(row: Seq<Binary32>, mask_id: int, upto: int)
    ensures
        peak_class(row, mask_id, upto) matches Some(a) ==> 0 <= a < upto && a != mask_id,
    decreases upto,
{
    if upto > 0 {
        lemma_peak_class(row, mask_id, upto - 1);
    }
}

proof fn lemma_rank_bound(conf: Seq<Binary32>, i: int, upto: int)
    requires
        0 <= i,
    ensures
        rank_below(conf, i, upto) <= (if upto > 0 {
            upto
        } else {
            0
        }),
        i < upto ==> rank_below(conf, i, upto) < upto,
    decreases upto,
{
    if upto > 0 {
        lemma_rank_bound(conf, i, upto - 1);
        assert(!taken_before(conf, i, i));
    }
}

/// What is taken: some of the candidates, in order, and all of them where
/// there are no more than were asked for.
proof fn lemma_most_confident(
    cands: Seq<(usize, u32)>,
    conf: Seq<Binary32>,
    count: nat,
    upto: int,
)
    requires
        upto <= cands.len(),
        forall|a: int, b: int|
            0 <= a < b < cands.len() ==> (#[trigger] cands[a]).0 < (#[trigger] cands[b]).0,
    ensures
        ({
            let picks = most_confident(cands, conf, count, upto);
            &&& picks.len() <= (if upto > 0 { upto } else { 0 })
            &&& forall|p: int|
                0 <= p < picks.len() ==> exists|c: int|
                    0 <= c < upto && #[trigger] cands[c] == #[trigger] picks[p]
            &&& forall|a: int, b: int|
                0 <= a < b < picks.len() ==> (#[trigger] picks[a]).0 < (#[trigger] picks[b]).0
            &&& cands.len() <= count ==> (upto >= 0 ==> picks == cands.take(upto))
        }),
    decreases upto,
{
    if upto > 0 {
        lemma_most_confident(cands, conf, count, upto - 1);
        lemma_rank_bound(conf, upto - 1, cands.len() as int);
        let rest = most_confident(cands, conf, count, upto - 1);
        let picks = most_confident(cands, conf, count, upto);
        assert forall|p: int| 0 <= p < picks.len() implies exists|c: int|
            0 <= c < upto && #[trigger] cands[c] == #[trigger] picks[p] by {
            if p < rest.len() {
                assert(picks[p] == rest[p]);
                let c = choose|c: int| 0 <= c < upto - 1 && #[trigger] cands[c] == rest[p];
                assert(cands[c] == picks[p]);
            } else {
                assert(cands[upto - 1] == picks[p]);
            }
        }
        assert forall|a: int, b: int| 0 <= a < b < picks.len() implies (#[trigger] picks[a]).0 < (
        #[trigger] picks[b]).0 by {
            assert(picks[a] == rest[a]);
            if b < rest.len() {
                assert(picks[b] == rest[b]);
            } else {
                let c = choose|c: int| 0 <= c < upto - 1 && #[trigger] cands[c] == rest[a];
                assert(cands[c].0 < cands[upto - 1].0);
            }
        }
        if cands.len() <= count {
            assert(picks =~= cands.take(upto));
        }
    } else {
        assert(cands.len() <= count && upto == 0 ==> most_confident(cands, conf, count, upto)
            =~= cands.take(0));
    }
}

/// Revealing distinct masked positions takes exactly that many masks away,
/// shows the listed tokens there, and leaves the rest.
proof fn lemma_reveal_effect(
    tokens: Seq<u32>,
    masked: Seq<bool>,
    picks: Seq<(usize, u32)>,
    mask: u32,
)
    requires
        masked.len() == tokens.len(),
        forall|p: int|
            0 <= p < picks.len() ==> (#[trigger] picks[p]).0 < tokens.len() && masked[picks[p].0 as int]
                && picks[p].1 != mask,
        forall|a: int, b: int|
            0 <= a < b < picks.len() ==> (#[trigger] picks[a]).0 < (#[trigger] picks[b]).0,
    ensures
        ({
            let after = crate::view::write_tokens(tokens, picks);
            let flags = crate::view::clear_flags(masked, picks);
            &&& after.len() == tokens.len()
            &&& flags.len() == masked.len()
            &&& crate::view::count_true(flags) + picks.len() == crate::view::count_true(masked)
            &&& forall|i: int|
                0 <= i < masked.len() && !(#[trigger] masked[i]) ==> !flags[i] && after[i]
                    == tokens[i]
            &&& forall|i: int|
                0 <= i < masked.len() && masked[i] && !(#[trigger] flags[i]) ==> after[i] != mask
            &&& forall|i: int|
                0 <= i < masked.len() && #[trigger] flags[i] ==> masked[i] && (forall|p: int|
                    0 <= p < picks.len() ==> (#[trigger] picks[p]).0 != i)
        }),
    decreases picks.len(),
{
    if picks.len() > 0 {
        let rest = picks.drop_last();
        assert forall|p: int| 0 <= p < rest.len() implies (#[trigger] rest[p]).0 < tokens.len()
            && masked[rest[p].0 as int] && rest[p].1 != mask by {
            assert(rest[p] == picks[p]);
        }
        assert forall|a: int, b: int| 0 <= a < b < rest.len() implies (#[trigger] rest[a]).0 < (
        #[trigger] rest[b]).0 by {
            assert(rest[a] == picks[a] && rest[b] == picks[b]);
        }
        lemma_reveal_effect(tokens, masked, rest, mask);
        let (pos, tok) = picks.last();
        let last = picks.len() - 1;
        assert(picks[last] == picks.last());
        let before = crate::view::clear_flags(masked, rest);
        // The last position was not cleared yet: it is none of the earlier ones.
        assert(before[pos as int]) by {
            crate::view::law_reveal_leaves_others(tokens, masked, rest, pos as int);
        }
        crate::view::lemma_count_true_update(before, pos as int, false);
        let flags = crate::view::clear_flags(masked, picks);
        assert forall|i: int| 0 <= i < masked.len() && #[trigger] flags[i] implies masked[i] && (
        forall|p: int| 0 <= p < picks.len() ==> (#[trigger] picks[p]).0 != i) by {
            assert(i != pos);
            assert(before[i]);
            assert forall|p: int| 0 <= p < picks.len() implies (#[trigger] picks[p]).0 != i by {
                if p < last {
                    assert(rest[p] == picks[p]);
                }
            }
        }
    }
}

/// One step of a trajectory.
pub struct SampleStep {
    /// The view the step ran on.
    pub view: NoisedView,
    /// The neighbours the denoiser was given.
    pub neighbours: Option<Neighbours>,
    /// What the denoiser gave back.
    pub logits: Seq<Binary32>,
    /// The positions revealed, and the tokens put there.
    pub picks: Seq<(usize, u32)>,
    /// The view the step left.
    pub after: NoisedView,
}

/// What a trajectory runs with.
pub struct SampleSetup<I: NeighbourIndex, E: RetrieverEncode, D: Denoiser> {
    /// The canvas it starts from.
    pub start: Seq<u32>,
    /// The mask token.
    pub mask_token: MaskToken,
    /// The shapes.
    pub cfg: CcaConfig,
    /// The noise levels, one per step.
    pub levels: Seq<NoiseLevel>,
    /// The refresh thresholds.
    pub thresholds: Seq<Binary32>,
    /// Which chunks are queried for.
    pub admission: ChunkAdmission,
    /// How many positions a step reveals.
    pub reveal: RevealPolicy,
    /// The document the prompt belongs to.
    pub document: DocumentId,
    /// The query encoder.
    pub encoder: E,
    /// The index.
    pub index: I,
    /// The tokens behind it.
    pub corpus: NeighbourCorpus,
    /// Which neighbours the document may retrieve.
    pub guard: LeakageGuard,
    /// The model.
    pub denoiser: D,
}

impl<I: NeighbourIndex, E: RetrieverEncode, D: Denoiser> SampleSetup<I, E, D> {
    /// Whether step `i` follows from the one before it: it sees what that one
    /// left, at its own noise level; it queries the index where the schedule
    /// says so and otherwise keeps the neighbours it has; and it reveals what
    /// the denoiser is most confident about.
    pub open spec fn follows(self, steps: Seq<SampleStep>, i: int) -> bool {
        let step = steps[i];
        &&& step.view.wf()
        &&& step.view@.mask_token == self.mask_token
        &&& step.view@.t == self.levels[i]
        &&& step.view@.tokens == if i == 0 {
            self.start
        } else {
            steps[i - 1].after@.tokens
        }
        &&& step.view@.masked == if i == 0 {
            Seq::new(self.start.len(), |j: int| self.start[j] == self.mask_token.0)
        } else {
            steps[i - 1].after@.masked
        }
        &&& if gate_run(self.thresholds, self.levels, i).schedule.refreshes(self.levels[i]) {
            refreshed(
                step.neighbours,
                step.view,
                self.cfg,
                self.admission,
                self.document,
                self.encoder,
                self.index,
                self.corpus,
                self.guard,
            )
        } else {
            step.neighbours == if i == 0 {
                None
            } else {
                steps[i - 1].neighbours
            }
        }
        &&& self.denoiser.denoises(step.view, step.neighbours, step.logits)
        &&& unmasks(
            self.denoiser,
            step.view@,
            step.logits,
            self.denoiser.vocab() as int,
            self.reveal.amount(
                (self.levels.len() - i) as nat,
                crate::view::count_true(step.view@.masked),
            ),
            step.picks,
        )
        &&& step.after@.tokens == crate::view::write_tokens(step.view@.tokens, step.picks)
        &&& step.after@.masked == crate::view::clear_flags(step.view@.masked, step.picks)
    }

    /// Whether `steps` are the first `upto` steps of the trajectory.
    pub open spec fn runs(self, steps: Seq<SampleStep>, upto: int) -> bool {
        &&& steps.len() == upto
        &&& forall|i: int| 0 <= i < upto ==> #[trigger] self.follows(steps, i)
    }

    /// Whether `view` is what the trajectory leaves.
    pub open spec fn leaves(self, steps: Seq<SampleStep>, view: NoisedView) -> bool {
        &&& self.runs(steps, self.levels.len() as int)
        &&& view@.tokens == if steps.len() == 0 {
            self.start
        } else {
            steps.last().after@.tokens
        }
        &&& view@.masked == if steps.len() == 0 {
            Seq::new(self.start.len(), |j: int| self.start[j] == self.mask_token.0)
        } else {
            steps.last().after@.masked
        }
    }

    proof fn lemma_next_step(self, steps: Seq<SampleStep>, next: SampleStep)
        requires
            self.runs(steps, steps.len() as int),
            self.follows(steps.push(next), steps.len() as int),
        ensures
            self.runs(steps.push(next), steps.len() as int + 1),
    {
        let longer = steps.push(next);
        assert forall|i: int| 0 <= i < longer.len() implies #[trigger] self.follows(longer, i) by {
            if i < steps.len() {
                assert(self.follows(steps, i));
                assert(longer[i] == steps[i]);
                if i > 0 {
                    assert(longer[i - 1] == steps[i - 1]);
                }
            }
        }
    }
}

/// What a trajectory from `prompt` at `levels` runs with.
pub open spec fn setup_of<I: NeighbourIndex, E: RetrieverEncode, D: Denoiser>(
    prompt: Seq<u32>,
    mask_token: MaskToken,
    cfg: CcaConfig,
    levels: Seq<NoiseLevel>,
    sampling: SamplingConfig,
    encoder: E,
    index: I,
    corpus: NeighbourCorpus,
    guard: LeakageGuard,
    denoiser: D,
) -> SampleSetup<I, E, D> {
    SampleSetup {
        start: canvas(prompt, mask_token.0, cfg.n() as nat),
        mask_token,
        cfg,
        levels,
        thresholds: sampling.refresh@.thresholds,
        admission: sampling.admission,
        reveal: sampling.reveal,
        document: sampling.document,
        encoder,
        index,
        corpus,
        guard,
        denoiser,
    }
}

/// The views of a trajectory have identities of their own, drawn one after the
/// other behind `first`, which is that of the canvas: a step draws one for what
/// it sees and one for what it leaves.
pub open spec fn numbered(steps: Seq<SampleStep>, first: u64) -> bool {
    forall|i: int|
        0 <= i < steps.len() ==> (#[trigger] steps[i]).view@.id.value()
            == crate::view::after_draws(first, (2 * i + 1) as nat)
            && steps[i].after@.id.value() == crate::view::after_draws(first, (2 * i + 2) as nat)
}

/// No two views of a trajectory have one identity, as long as it draws fewer
/// than `2^64` of them.
pub proof fn law_a_trajectory_repeats_no_view(steps: Seq<SampleStep>, first: u64, i: int, j: int)
    requires
        numbered(steps, first),
        0 <= i < j < steps.len(),
        2 * steps.len() <= u64::MAX,
    ensures
        steps[i].view@.id != steps[i].after@.id,
        steps[i].view@.id != steps[j].view@.id,
        steps[i].view@.id != steps[j].after@.id,
        steps[i].after@.id != steps[j].view@.id,
        steps[i].after@.id != steps[j].after@.id,
{
    crate::view::law_draws_are_distinct(first, (2 * i + 1) as nat, (2 * i + 2) as nat);
    crate::view::law_draws_are_distinct(first, (2 * i + 1) as nat, (2 * j + 1) as nat);
    crate::view::law_draws_are_distinct(first, (2 * i + 1) as nat, (2 * j + 2) as nat);
    crate::view::law_draws_are_distinct(first, (2 * i + 2) as nat, (2 * j + 1) as nat);
    crate::view::law_draws_are_distinct(first, (2 * i + 2) as nat, (2 * j + 2) as nat);
}

/// Run one denoising trajectory.
///
/// Returns the final view and a trace. `prompt` supplies the positions that
/// start revealed; the rest of the `n` positions start masked.
pub fn sample<I: NeighbourIndex, E: RetrieverEncode, D: Denoiser>(
    prompt: &[u32],
    mask_token: MaskToken,
    cfg: CcaConfig,
    sampling: &mut SamplingConfig,
    retrieval: &mut RetrievalContext<'_, I, E>,
    denoiser: &mut D,
    ids: &mut IdSource,
) -> (result: (NoisedView, SamplingTrace))
    requires
        cfg.wf(),
        prompt@.len() <= cfg.n(),
        old(sampling).refresh.wf(),
        old(retrieval).encoder.width() == old(retrieval).index.width(),
        old(retrieval).corpus@.r == cfg.r(),
        cfg.l() * cfg.k() * cfg.r() <= usize::MAX,
        cfg.l() * old(retrieval).encoder.width() <= usize::MAX,
        old(denoiser).vocab() <= 0x1_0000_0000,
    ensures
        result.0.wf(),
        result.0@.tokens.len() == cfg.n(),
        result.0@.mask_token == mask_token,
        visible_is_legal(result.0),
        prompt_stands(result.0, prompt@),
        result.1.steps == old(sampling).steps,
        crate::view::count_true(result.0@.masked) + result.1.revealed == crate::view::count_true(
            Seq::new(
                cfg.n() as nat,
                |i: int| canvas(prompt@, mask_token.0, cfg.n() as nat)[i] == mask_token.0,
            ),
        ),
        exists|levels: Seq<NoiseLevel>, steps: Seq<SampleStep>|
            is_trajectory(levels, old(sampling).steps as nat) && traced(
                result.1,
                final(sampling).refresh@,
                gate_run(old(sampling).refresh@.thresholds, levels, levels.len() as int),
            ) && #[trigger] setup_of(
                prompt@,
                mask_token,
                cfg,
                levels,
                *old(sampling),
                *old(retrieval).encoder,
                *old(retrieval).index,
                *old(retrieval).corpus,
                *old(retrieval).guard,
                *old(denoiser),
            ).leaves(steps, result.0) && (old(sampling).reveal == RevealPolicy::Linear
                && steps.len() > 0 ==> only_hopeless_masked(
                result.0,
                steps.last().logits,
                old(denoiser).vocab() as int,
            )) && numbered(steps, old(ids).views()),
        result.0@.id.value() == crate::view::after_draws(
            old(ids).views(),
            2 * old(sampling).steps as nat,
        ),
        crate::view::drawn(*old(ids), *final(ids), 1 + 2 * old(sampling).steps as nat, 0),
        final(sampling).refresh.wf(),
        final(sampling).steps == old(sampling).steps,
        final(sampling).admission == old(sampling).admission,
        final(sampling).reveal == old(sampling).reveal,
        final(sampling).document == old(sampling).document,
        denoises_alike(*final(denoiser), *old(denoiser)),
        crate::chunk::encodes_alike(*final(retrieval).encoder, *old(retrieval).encoder),
        *final(final(retrieval).encoder) == *final(old(retrieval).encoder),
{
    let n: usize = cfg.seq_len();
    let mut tokens: Vec<u32> = Vec::new();
    tokens.extend_from_slice(prompt);
    let ghost given = tokens@;
    tokens.resize(n, mask_token.0);
    let ghost start = canvas(prompt@, mask_token.0, n as nat);
    proof {
        assert(given =~= prompt@);
        let front = tokens@.subrange(0, given.len() as int);
        assert(forall|i: int| 0 <= i < given.len() ==> front[i] == given[i]);
        assert(forall|i: int| 0 <= i < prompt@.len() ==> tokens@[i] == prompt@[i]);
        assert(forall|i: int| prompt@.len() <= i < n ==> tokens@[i] == mask_token.0);
        assert(tokens@ =~= start);
    }
    let mut view: NoisedView = NoisedView::from_tokens(
        tokens,
        NoiseLevel::masked(),
        mask_token,
        ids,
    );
    let ghost opening = Seq::new(n as nat, |i: int| start[i] == mask_token.0);
    proof {
        crate::view::lemma_one_draw(old(ids).views());
        crate::view::lemma_one_draw(old(ids).sequences());
        assert(view@.masked =~= opening);
        assert forall|i: int|
            0 <= i < prompt@.len() && #[trigger] prompt@[i] != view@.mask_token.0 implies view@.tokens[i]
            == prompt@[i] && !view@.masked[i] by {
            assert(start[i] == prompt@[i]);
        }
    }
    sampling.refresh.reset();
    let mut cached: Option<Neighbours> = None;
    let mut trace: SamplingTrace = SamplingTrace::default();
    let levels: Vec<NoiseLevel> = trajectory(sampling.steps);
    let ghost thresholds = old(sampling).refresh@.thresholds;
    let ghost vocab_nat = old(denoiser).vocab();
    let ghost mut steps: Seq<SampleStep> = Seq::empty();
    let ghost setup = setup_of(
        prompt@,
        mask_token,
        cfg,
        levels@,
        *old(sampling),
        *old(retrieval).encoder,
        *old(retrieval).index,
        *old(retrieval).corpus,
        *old(retrieval).guard,
        *old(denoiser),
    );
    let total: usize = levels.len();
    proof {
        crate::view::lemma_count_true_bound(opening);
        assert(sampling.refresh@ == gate_run(thresholds, levels@, 0).schedule);
    }
    let mut i: usize = 0;
    while i < total
        invariant
            i <= total,
            total == levels@.len(),
            total == sampling.steps,
            cfg.wf(),
            n == cfg.n(),
            prompt@.len() <= n,
            opening.len() == n,
            view.wf(),
            view@.tokens.len() == n,
            view@.mask_token == mask_token,
            visible_is_legal(view),
            prompt_stands(view, prompt@),
            trace.steps == i,
            trace.refreshes <= i,
            trace.gated_out <= i,
            crate::view::count_true(view@.masked) + trace.revealed == crate::view::count_true(
                opening,
            ),
            crate::view::count_true(opening) <= n,
            sampling.refresh.wf(),
            sampling.refresh@ == gate_run(thresholds, levels@, i as int).schedule,
            trace.refreshes == gate_run(thresholds, levels@, i as int).refreshes,
            trace.gated_out == gate_run(thresholds, levels@, i as int).gated,
            cached is Some == gate_run(thresholds, levels@, i as int).cached,
            sampling.steps == old(sampling).steps,
            sampling.admission == old(sampling).admission,
            sampling.reveal == old(sampling).reveal,
            sampling.document == old(sampling).document,
            crate::chunk::encodes_alike(*retrieval.encoder, *old(retrieval).encoder),
            *final(retrieval.encoder) == *final(old(retrieval).encoder),
            retrieval.index == old(retrieval).index,
            retrieval.corpus == old(retrieval).corpus,
            retrieval.guard == old(retrieval).guard,
            denoises_alike(*denoiser, *old(denoiser)),
            setup == setup_of(
                prompt@,
                mask_token,
                cfg,
                levels@,
                *old(sampling),
                *old(retrieval).encoder,
                *old(retrieval).index,
                *old(retrieval).corpus,
                *old(retrieval).guard,
                *old(denoiser),
            ),
            start == canvas(prompt@, mask_token.0, n as nat),
            thresholds == old(sampling).refresh@.thresholds,
            setup.runs(steps, i as int),
            numbered(steps, old(ids).views()),
            view@.id.value() == crate::view::after_draws(old(ids).views(), (2 * i) as nat),
            crate::view::drawn(*old(ids), *ids, (2 * i + 1) as nat, 0),
            i == 0 ==> view@.tokens == start && view@.masked == opening && cached is None,
            opening == Seq::new(start.len(), |j: int| start[j] == mask_token.0),
            i > 0 ==> view@.tokens == steps.last().after@.tokens && view@.masked
                == steps.last().after@.masked && cached == steps.last().neighbours,
            old(retrieval).encoder.width() == old(retrieval).index.width(),
            old(retrieval).corpus@.r == cfg.r(),
            cfg.l() * cfg.k() * cfg.r() <= usize::MAX,
            cfg.l() * old(retrieval).encoder.width() <= usize::MAX,
            denoiser.vocab() == vocab_nat,
            vocab_nat <= 0x1_0000_0000,
            sampling.reveal == RevealPolicy::Linear && i > 0 && i == total
                ==> only_hopeless_masked(view, steps.last().logits, vocab_nat as int),
        decreases total - i,
    {
        let t: NoiseLevel = levels[i];
        // The view carries the noise level the denoiser and the hard gate read, so
        // it advances before either runs.
        let empty: Vec<(usize, u32)> = Vec::new();
        let ghost left = view@;
        view = view.reveal_at(empty.as_slice(), t, ids);
        let ghost shown = view@;
        let ghost seen = view;
        proof {
            assert(shown.tokens =~= left.tokens);
            assert(shown.masked =~= left.masked);
        }
        if sampling.refresh.advance(t) {
            let ghost encoder = *retrieval.encoder;
            cached = refresh(&view, cfg, sampling, retrieval);
            proof {
                lemma_same_encoder(
                    cached,
                    view,
                    cfg,
                    sampling.admission,
                    sampling.document,
                    encoder,
                    *old(retrieval).encoder,
                    *old(retrieval).index,
                    *old(retrieval).corpus,
                    *old(retrieval).guard,
                );
            }
            if cached.is_some() {
                trace.refreshes = trace.refreshes + 1;
            }
        }
        if cached.is_none() {
            trace.gated_out = trace.gated_out + 1;
        }
        let logits: Vec<Binary32> = denoiser.logits(&view, cached.as_ref());
        let vocab: usize = denoiser.vocab_size();
        let remaining_masked: usize = view.num_masked();
        let to_reveal: usize = sampling.reveal.count(total - i, remaining_masked);
        let picks: Vec<(usize, u32)> = unmask_top_confidence(
            &view,
            logits.as_slice(),
            vocab,
            to_reveal,
            denoiser,
        );
        proof {
            lemma_picks(shown, logits@, vocab as int, to_reveal as nat, picks@);
            lemma_reveal_effect(shown.tokens, shown.masked, picks@, mask_token.0);
        }
        trace.revealed = trace.revealed + picks.len();
        view = view.reveal_at(picks.as_slice(), t, ids);
        proof {
            let step = SampleStep {
                view: seen,
                neighbours: cached,
                logits: logits@,
                picks: picks@,
                after: view,
            };
            let longer = steps.push(step);
            lemma_same_model(
                *denoiser,
                *old(denoiser),
                shown,
                logits@,
                vocab as int,
                to_reveal as nat,
                picks@,
            );
            assert(longer[i as int] == step);
            if i > 0 {
                assert(longer[i - 1] == steps.last());
            }
            if gate_run(thresholds, levels@, i as int).schedule.refreshes(levels@[i as int]) {
                assert(refreshed(
                    cached,
                    seen,
                    cfg,
                    old(sampling).admission,
                    old(sampling).document,
                    *old(retrieval).encoder,
                    *old(retrieval).index,
                    *old(retrieval).corpus,
                    *old(retrieval).guard,
                ));
            }
            assert(setup.denoiser.denoises(seen, cached, logits@));
            assert(setup.follows(longer, i as int));
            setup.lemma_next_step(steps, step);
            let first = old(ids).views();
            assert(numbered(longer, first)) by {
                assert forall|k: int| 0 <= k < longer.len() implies (
                #[trigger] longer[k]).view@.id.value() == crate::view::after_draws(
                    first,
                    (2 * k + 1) as nat,
                ) && longer[k].after@.id.value() == crate::view::after_draws(
                    first,
                    (2 * k + 2) as nat,
                ) by {
                    if k < i {
                        assert(longer[k] == steps[k]);
                    }
                }
            }
            steps = longer;
            assert forall|j: int|
                0 <= j < prompt@.len() && #[trigger] prompt@[j] != view@.mask_token.0 implies view@.tokens[j]
                == prompt@[j] && !view@.masked[j] by {
                assert(!shown.masked[j]);
            }
            assert forall|j: int|
                0 <= j < view@.tokens.len() && !(#[trigger] view@.masked[j]) implies view@.tokens[j]
                != view@.mask_token.0 by {
                if !shown.masked[j] {
                    assert(shown.tokens[j] != mask_token.0);
                }
            }
            if sampling.reveal == RevealPolicy::Linear && i + 1 == total {
                assert forall|pos: int|
                    0 <= pos < view@.masked.len() && #[trigger] view@.masked[pos] implies class_at(
                    logits@,
                    vocab_nat as int,
                    mask_token.0 as int,
                    pos,
                ) is None by {
                    lemma_all_taken(shown, logits@, vocab as int, to_reveal as nat, picks@, pos);
                }
            }
        }
        trace.steps = trace.steps + 1;
        i = i + 1;
    }
    proof {
        assert(is_trajectory(levels@, old(sampling).steps as nat));
        assert(setup.leaves(steps, view));
    }
    (view, trace)
}

/// Whether a trace and the schedule it leaves tell of `run`.
pub open spec fn traced(trace: SamplingTrace, schedule: ScheduleState, run: GateRun) -> bool {
    &&& trace.refreshes == run.refreshes
    &&& trace.gated_out == run.gated
    &&& schedule == run.schedule
}

/// Whether `levels` are those of a trajectory of `steps` steps.
pub open spec fn is_trajectory(levels: Seq<NoiseLevel>, steps: nat) -> bool {
    &&& levels.len() == steps
    &&& steps == 1 ==> levels[0].value().bits == crate::binary32::ONE_BITS
    &&& steps > 1 ==> forall|i: int|
        0 <= i < steps ==> (#[trigger] levels[i]).value() == crate::schedule::trajectory_level(
            i as nat,
            steps,
        )
}

/// Every position that is still masked is one that `logits` offer no legal
/// class for.
pub open spec fn only_hopeless_masked(view: NoisedView, logits: Seq<Binary32>, vocab: int) -> bool {
    forall|pos: int|
        0 <= pos < view@.masked.len() && #[trigger] view@.masked[pos] ==> class_at(
            logits,
            vocab,
            view@.mask_token.0 as int,
            pos,
        ) is None
}

/// Two states of one model select alike.
proof fn lemma_same_model<D: Denoiser>(
    a: D,
    b: D,
    view: crate::view::ViewState,
    logits: Seq<Binary32>,
    vocab: int,
    count: nat,
    picks: Seq<(usize, u32)>,
)
    requires
        denoises_alike(a, b),
        unmasks(a, view, logits, vocab, count, picks),
    ensures
        unmasks(b, view, logits, vocab, count, picks),
{
    let mask_id = view.mask_token.0 as int;
    let n = view.masked.len() as int;
    let cands = candidates(view.masked, logits, vocab, mask_id, n);
    assert forall|c: int| 0 <= c < cands.len() implies #[trigger] confidences(
        a,
        view.masked,
        logits,
        vocab,
        mask_id,
        n,
    )[c] == confidences(b, view.masked, logits, vocab, mask_id, n)[c] by {
        let row = crate::retrieval::corpus::slot(logits, cands[c].0 as int, vocab);
        lemma_same_sum(a, b, row, mask_id, row[cands[c].1 as int], row.len() as int);
    }
    assert(confidences(a, view.masked, logits, vocab, mask_id, n) =~= confidences(
        b,
        view.masked,
        logits,
        vocab,
        mask_id,
        n,
    ));
}

/// Two states of one model sum alike.
proof fn lemma_same_sum<D: Denoiser>(
    a: D,
    b: D,
    row: Seq<Binary32>,
    mask_id: int,
    peak: Binary32,
    upto: int,
)
    requires
        denoises_alike(a, b),
    ensures
        exp_sum_bits(a, row, mask_id, peak, upto) == exp_sum_bits(b, row, mask_id, peak, upto),
    decreases upto,
{
    if upto > 0 {
        lemma_same_sum(a, b, row, mask_id, peak, upto - 1);
    }
}

/// The mask token takes no part in a confidence: rows that differ in its logit
/// alone are ranked alike.
pub proof fn law_the_mask_logit_does_not_rank<D: Denoiser>(
    denoiser: D,
    a: Seq<Binary32>,
    b: Seq<Binary32>,
    mask_id: int,
    peak: Binary32,
)
    requires
        a.len() == b.len(),
        forall|i: int| 0 <= i < a.len() && i != mask_id ==> a[i] == b[i],
    ensures
        confidence(denoiser, a, mask_id, peak) == confidence(denoiser, b, mask_id, peak),
{
    lemma_mask_aside(denoiser, a, b, mask_id, peak, a.len() as int);
}

proof fn lemma_mask_aside<D: Denoiser>(
    denoiser: D,
    a: Seq<Binary32>,
    b: Seq<Binary32>,
    mask_id: int,
    peak: Binary32,
    upto: int,
)
    requires
        a.len() == b.len(),
        upto <= a.len(),
        forall|i: int| 0 <= i < a.len() && i != mask_id ==> a[i] == b[i],
    ensures
        exp_sum_bits(denoiser, a, mask_id, peak, upto) == exp_sum_bits(
            denoiser,
            b,
            mask_id,
            peak,
            upto,
        ),
    decreases upto,
{
    if upto > 0 {
        lemma_mask_aside(denoiser, a, b, mask_id, peak, upto - 1);
    }
}

/// What one step shows, the steps after it show.
proof fn lemma_step_keeps<I: NeighbourIndex, E: RetrieverEncode, D: Denoiser>(
    setup: SampleSetup<I, E, D>,
    steps: Seq<SampleStep>,
    i: int,
    j: int,
    pos: int,
)
    requires
        setup.runs(steps, steps.len() as int),
        setup.denoiser.vocab() <= 0x1_0000_0000,
        0 <= i <= j < steps.len(),
        0 <= pos < steps[i].view@.tokens.len(),
        !steps[i].view@.masked[pos],
    ensures
        pos < steps[j].after@.tokens.len(),
        steps[j].after@.masked.len() == steps[j].after@.tokens.len(),
        !steps[j].after@.masked[pos],
        steps[j].after@.tokens[pos] == steps[i].view@.tokens[pos],
    decreases j,
{
    if i < j {
        lemma_step_keeps(setup, steps, i, j - 1, pos);
    }
    let step = steps[j];
    assert(setup.follows(steps, j));
    lemma_picks(
        step.view@,
        step.logits,
        setup.denoiser.vocab() as int,
        setup.reveal.amount(
            (setup.levels.len() - j) as nat,
            crate::view::count_true(step.view@.masked),
        ),
        step.picks,
    );
    lemma_reveal_effect(
        step.view@.tokens,
        step.view@.masked,
        step.picks,
        step.view@.mask_token.0,
    );
}

/// A committed token stays: a position that some step of a trajectory sees
/// revealed shows the same token at the end of it.
pub proof fn law_a_committed_token_stays<I: NeighbourIndex, E: RetrieverEncode, D: Denoiser>(
    setup: SampleSetup<I, E, D>,
    steps: Seq<SampleStep>,
    view: NoisedView,
    i: int,
    pos: int,
)
    requires
        setup.leaves(steps, view),
        setup.denoiser.vocab() <= 0x1_0000_0000,
        0 <= i < steps.len(),
        0 <= pos < steps[i].view@.tokens.len(),
        !steps[i].view@.masked[pos],
    ensures
        !view@.masked[pos],
        view@.tokens[pos] == steps[i].view@.tokens[pos],
{
    lemma_step_keeps(setup, steps, i, steps.len() - 1, pos);
}

/// What a selection is made of.
proof fn lemma_picks(
    shown: crate::view::ViewState,
    logits: Seq<Binary32>,
    vocab: int,
    count: nat,
    picks: Seq<(usize, u32)>,
)
    requires
        shown.masked.len() == shown.tokens.len() <= usize::MAX,
        0 <= vocab <= 0x1_0000_0000,
        count == 0 || vocab == 0 ==> picks.len() == 0,
        count > 0 && vocab > 0 ==> exists|conf: Seq<Binary32>| #[trigger]
            selects(shown.masked, logits, vocab, shown.mask_token.0 as int, count, conf, picks),
    ensures
        forall|p: int|
            0 <= p < picks.len() ==> (#[trigger] picks[p]).0 < shown.tokens.len()
                && shown.masked[picks[p].0 as int] && picks[p].1 != shown.mask_token.0,
        forall|a: int, b: int|
            0 <= a < b < picks.len() ==> (#[trigger] picks[a]).0 < (#[trigger] picks[b]).0,
{
    if count > 0 && vocab > 0 {
        let mask_id = shown.mask_token.0 as int;
        let n = shown.masked.len() as int;
        let conf = choose|conf: Seq<Binary32>| #[trigger]
            selects(shown.masked, logits, vocab, mask_id, count, conf, picks);
        let cands = candidates(shown.masked, logits, vocab, mask_id, n);
        lemma_candidates(shown.masked, logits, vocab, mask_id, n);
        lemma_most_confident(cands, conf, count, cands.len() as int);
        assert forall|p: int| 0 <= p < picks.len() implies (#[trigger] picks[p]).0
            < shown.tokens.len() && shown.masked[picks[p].0 as int] && picks[p].1
            != shown.mask_token.0 by {
            let c = choose|c: int| 0 <= c < cands.len() && #[trigger] cands[c] == picks[p];
            assert(cands[c].0 < n);
        }
    }
}

/// Where every masked position was asked for, each one with a legal class was
/// taken.
proof fn lemma_all_taken(
    shown: crate::view::ViewState,
    logits: Seq<Binary32>,
    vocab: int,
    count: nat,
    picks: Seq<(usize, u32)>,
    pos: int,
)
    requires
        shown.masked.len() == shown.tokens.len() <= usize::MAX,
        0 <= vocab <= 0x1_0000_0000,
        count == crate::view::count_true(shown.masked),
        0 <= pos < shown.masked.len(),
        shown.masked[pos],
        forall|p: int| 0 <= p < picks.len() ==> (#[trigger] picks[p]).0 != pos,
        count > 0 && vocab > 0 ==> exists|conf: Seq<Binary32>| #[trigger]
            selects(shown.masked, logits, vocab, shown.mask_token.0 as int, count, conf, picks),
    ensures
        class_at(logits, vocab, shown.mask_token.0 as int, pos) is None,
{
    let mask_id = shown.mask_token.0 as int;
    let n = shown.masked.len() as int;
    if vocab == 0 {
        let row = crate::retrieval::corpus::slot(logits, pos, vocab);
        assert(pos * vocab == 0) by (nonlinear_arith)
            requires
                vocab == 0,
        ;
        assert(row.len() == 0);
    } else if class_at(logits, vocab, mask_id, pos) is Some {
        lemma_candidates(shown.masked, logits, vocab, mask_id, n);
        assert(shown.masked.take(n) =~= shown.masked);
        let cands = candidates(shown.masked, logits, vocab, mask_id, n);
        let c = choose|c: int| 0 <= c < cands.len() && (#[trigger] cands[c]).0 == pos;
        assert(cands.len() <= count);
        let conf = choose|conf: Seq<Binary32>| #[trigger]
            selects(shown.masked, logits, vocab, mask_id, count, conf, picks);
        lemma_most_confident(cands, conf, count, cands.len() as int);
        assert(cands.take(cands.len() as int) =~= cands);
        assert(picks[c].0 == pos);
    }
}

/// The peak of the first `upto` classes of a row: no legal class exceeds it,
/// the ones before it do not reach it, and there is one where some legal class
/// is above minus infinity.
proof fn lemma_peak_is_largest(row: Seq<Binary32>, mask_id: int, upto: int)
    requires
        0 <= upto <= row.len(),
    ensures
        ({
            let low = Binary32 { bits: 0xFF80_0000 };
            match peak_class(row, mask_id, upto) {
                Some(a) => {
                    &&& 0 <= a < upto && a != mask_id
                    &&& low.is_less(row[a])
                    &&& forall|c: int|
                        0 <= c < upto && c != mask_id ==> !row[a].is_less(#[trigger] row[c])
                    &&& forall|c: int|
                        0 <= c < a && c != mask_id ==> !row[a].is_at_most(#[trigger] row[c])
                },
                None => forall|c: int|
                    0 <= c < upto && c != mask_id ==> !low.is_less(#[trigger] row[c]),
            }
        }),
    decreases upto,
{
    if upto > 0 {
        lemma_peak_is_largest(row, mask_id, upto - 1);
    }
}

/// Minus infinity is below every finite number.
proof fn lemma_above_minus_infinity(v: Binary32)
    requires
        v.finite(),
    ensures
        (Binary32 { bits: 0xFF80_0000 }).is_less(v),
{
    let low = Binary32 { bits: 0xFF80_0000 };
    assert(low.word() == crate::binary32::INFINITY_BITS && low.negative());
    crate::binary32::lemma_magnitude_compares(v.word(), crate::binary32::INFINITY_BITS as nat);
}

/// A number that is neither finite nor plus infinity is not above minus
/// infinity.
proof fn lemma_not_above_minus_infinity(v: Binary32)
    requires
        !v.finite(),
        v.bits != crate::binary32::INFINITY_BITS,
    ensures
        !(Binary32 { bits: 0xFF80_0000 }).is_less(v),
{
    let low = Binary32 { bits: 0xFF80_0000 };
    assert(low.word() == crate::binary32::INFINITY_BITS && low.negative());
    if !v.nan() {
        assert(v.word() == crate::binary32::INFINITY_BITS);
        assert(v.negative());
    }
}

/// Where a selection comes from: each pick is the legal class of its position,
/// and a position with a legal class is left out only where as many as were
/// asked for are taken.
proof fn lemma_picks_are_classes<D: Denoiser>(
    denoiser: D,
    view: crate::view::ViewState,
    logits: Seq<Binary32>,
    vocab: int,
    count: nat,
    picks: Seq<(usize, u32)>,
)
    requires
        view.masked.len() <= usize::MAX,
        0 <= vocab <= 0x1_0000_0000,
        unmasks(denoiser, view, logits, vocab, count, picks),
    ensures
        forall|p: int|
            0 <= p < picks.len() ==> {
                &&& (#[trigger] picks[p]).0 < view.masked.len()
                &&& view.masked[picks[p].0 as int]
                &&& class_at(logits, vocab, view.mask_token.0 as int, picks[p].0 as int) == Some(
                    picks[p].1 as int,
                )
            },
        picks.len() < count && vocab > 0 ==> forall|pos: int|
            0 <= pos < view.masked.len() && #[trigger] view.masked[pos] && class_at(
                logits,
                vocab,
                view.mask_token.0 as int,
                pos,
            ) is Some ==> exists|p: int| 0 <= p < picks.len() && (#[trigger] picks[p]).0 == pos,
{
    let mask_id = view.mask_token.0 as int;
    let n = view.masked.len() as int;
    if count > 0 && vocab > 0 {
        let cands = candidates(view.masked, logits, vocab, mask_id, n);
        let conf = confidences(denoiser, view.masked, logits, vocab, mask_id, n);
        lemma_candidates(view.masked, logits, vocab, mask_id, n);
        lemma_candidate_classes(view.masked, logits, vocab, mask_id, n);
        lemma_most_confident(cands, conf, count, cands.len() as int);
        assert forall|p: int| 0 <= p < picks.len() implies (#[trigger] picks[p]).0
            < view.masked.len() && view.masked[picks[p].0 as int] && class_at(
            logits,
            vocab,
            mask_id,
            picks[p].0 as int,
        ) == Some(picks[p].1 as int) by {
            let c = choose|c: int| 0 <= c < cands.len() && #[trigger] cands[c] == picks[p];
            assert(cands[c].0 < n);
        }
        if picks.len() < count {
            lemma_as_many_as_asked(cands, conf, count);
            lemma_most_confident(cands, conf, count, cands.len() as int);
            assert(cands.len() <= count);
            assert(cands.take(cands.len() as int) =~= cands);
            assert(picks == cands);
        }
    }
}

/// Each candidate carries the legal class of its position.
proof fn lemma_candidate_classes(
    masked: Seq<bool>,
    logits: Seq<Binary32>,
    vocab: int,
    mask_id: int,
    upto: int,
)
    requires
        upto <= masked.len() <= usize::MAX,
        0 <= vocab <= 0x1_0000_0000,
    ensures
        ({
            let cands = candidates(masked, logits, vocab, mask_id, upto);
            forall|c: int|
                0 <= c < cands.len() ==> class_at(
                    logits,
                    vocab,
                    mask_id,
                    (#[trigger] cands[c]).0 as int,
                ) == Some(cands[c].1 as int)
        }),
    decreases upto,
{
    if upto > 0 {
        let pos = upto - 1;
        lemma_candidate_classes(masked, logits, vocab, mask_id, pos);
        assert(pos * vocab >= 0) by (nonlinear_arith)
            requires
                pos >= 0,
                vocab >= 0,
        ;
        if class_at(logits, vocab, mask_id, pos) is Some {
            let row = crate::retrieval::corpus::slot(logits, pos, vocab);
            lemma_peak_class(row, mask_id, row.len() as int);
        }
    }
}

/// A position is revealed as the legal token with the largest logit: the token
/// is in the vocabulary, is not the mask, its logit is finite, no other token
/// but the mask has a larger one, and none before it has an equal one.
pub proof fn law_a_position_shows_its_largest_legal_logit<D: Denoiser>(
    denoiser: D,
    view: crate::view::ViewState,
    logits: Seq<Binary32>,
    vocab: int,
    count: nat,
    picks: Seq<(usize, u32)>,
    p: int,
    class: int,
)
    requires
        view.masked.len() <= usize::MAX,
        0 <= vocab <= 0x1_0000_0000,
        unmasks(denoiser, view, logits, vocab, count, picks),
        0 <= p < picks.len(),
        0 <= class < vocab,
        class != view.mask_token.0,
    ensures
        picks[p].0 < view.masked.len(),
        view.masked[picks[p].0 as int],
        picks[p].1 < vocab,
        picks[p].1 != view.mask_token.0,
        picks[p].0 * vocab + vocab <= logits.len(),
        logits[picks[p].0 * vocab + picks[p].1].finite(),
        !logits[picks[p].0 * vocab + picks[p].1].is_less(logits[picks[p].0 * vocab + class]),
        class < picks[p].1 ==> !logits[picks[p].0 * vocab + picks[p].1].is_at_most(
            logits[picks[p].0 * vocab + class],
        ),
{
    lemma_picks_are_classes(denoiser, view, logits, vocab, count, picks);
    let pos = picks[p].0 as int;
    let row = crate::retrieval::corpus::slot(logits, pos, vocab);
    assert(pos * vocab >= 0) by (nonlinear_arith)
        requires
            pos >= 0,
            vocab >= 0,
    ;
    lemma_peak_is_largest(row, view.mask_token.0 as int, row.len() as int);
    assert(row[class] == logits[pos * vocab + class]);
    assert(row[picks[p].1 as int] == logits[pos * vocab + picks[p].1]);
}

/// A masked position that some legal token has a finite logit for, and no legal
/// token an infinite one, is revealed unless as many as were asked for are,
/// wherever the mask stands in the vocabulary.
pub proof fn law_a_position_with_a_finite_logit_is_revealed<D: Denoiser>(
    denoiser: D,
    view: crate::view::ViewState,
    logits: Seq<Binary32>,
    vocab: int,
    count: nat,
    picks: Seq<(usize, u32)>,
    pos: int,
    class: int,
)
    requires
        view.masked.len() <= usize::MAX,
        0 <= vocab <= 0x1_0000_0000,
        unmasks(denoiser, view, logits, vocab, count, picks),
        picks.len() < count,
        0 <= pos < view.masked.len(),
        view.masked[pos],
        pos * vocab + vocab <= logits.len(),
        0 <= class < vocab,
        class != view.mask_token.0,
        logits[pos * vocab + class].finite(),
        forall|c: int|
            0 <= c < vocab && c != view.mask_token.0 ==> (#[trigger] logits[pos * vocab + c]).bits
                != crate::binary32::INFINITY_BITS,
    ensures
        exists|p: int| 0 <= p < picks.len() && (#[trigger] picks[p]).0 == pos,
{
    lemma_picks_are_classes(denoiser, view, logits, vocab, count, picks);
    let mask_id = view.mask_token.0 as int;
    let row = crate::retrieval::corpus::slot(logits, pos, vocab);
    assert(pos * vocab >= 0) by (nonlinear_arith)
        requires
            pos >= 0,
            vocab >= 0,
    ;
    lemma_peak_is_largest(row, mask_id, row.len() as int);
    assert(row[class] == logits[pos * vocab + class]);
    lemma_above_minus_infinity(row[class]);
    assert(peak_class(row, mask_id, row.len() as int) is Some);
    let a = peak_class(row, mask_id, row.len() as int)->0;
    assert(row[a] == logits[pos * vocab + a]);
    if !row[a].finite() {
        lemma_not_above_minus_infinity(row[a]);
    }
    assert(class_at(logits, vocab, mask_id, pos) is Some);
}

/// What comes before a candidate ranks no later than it.
proof fn lemma_earlier_ranks_lower(conf: Seq<Binary32>, i: int, j: int, upto: int)
    requires
        taken_before(conf, i, j),
    ensures
        rank_below(conf, i, upto) <= rank_below(conf, j, upto),
    decreases upto,
{
    if upto > 0 {
        lemma_earlier_ranks_lower(conf, i, j, upto - 1);
        if taken_before(conf, upto - 1, i) {
            lemma_taken_in_order(conf, upto - 1, i, j);
        }
    }
}

/// What is taken of the first `upto` candidates is what ranks under `count`.
proof fn lemma_taken(cands: Seq<(usize, u32)>, conf: Seq<Binary32>, count: nat, upto: int)
    requires
        upto <= cands.len(),
    ensures
        ({
            let picks = most_confident(cands, conf, count, upto);
            let n = cands.len() as int;
            &&& forall|p: int|
                0 <= p < picks.len() ==> exists|c: int|
                    0 <= c < upto && #[trigger] cands[c] == #[trigger] picks[p] && rank_below(
                        conf,
                        c,
                        n,
                    ) < count
            &&& forall|c: int|
                0 <= c < upto && rank_below(conf, c, n) < count ==> exists|p: int|
                    0 <= p < picks.len() && #[trigger] picks[p] == #[trigger] cands[c]
        }),
    decreases upto,
{
    if upto > 0 {
        lemma_taken(cands, conf, count, upto - 1);
        let n = cands.len() as int;
        let rest = most_confident(cands, conf, count, upto - 1);
        let picks = most_confident(cands, conf, count, upto);
        assert forall|p: int| 0 <= p < picks.len() implies exists|c: int|
            0 <= c < upto && #[trigger] cands[c] == #[trigger] picks[p] && rank_below(conf, c, n)
                < count by {
            if p < rest.len() {
                assert(picks[p] == rest[p]);
                let c = choose|c: int|
                    0 <= c < upto - 1 && #[trigger] cands[c] == rest[p] && rank_below(conf, c, n)
                        < count;
                assert(cands[c] == picks[p]);
            } else {
                assert(cands[upto - 1] == picks[p]);
            }
        }
        assert forall|c: int| 0 <= c < upto && rank_below(conf, c, n) < count implies exists|
            p: int,
        | 0 <= p < picks.len() && #[trigger] picks[p] == #[trigger] cands[c] by {
            if c < upto - 1 {
                let p = choose|p: int| 0 <= p < rest.len() && #[trigger] rest[p] == cands[c];
                assert(picks[p] == cands[c]);
            } else {
                assert(picks[rest.len() as int] == cands[c]);
            }
        }
    }
}

/// The most confident positions are revealed first: where a position could have
/// been revealed and was not, as many as were asked for were, and each of those
/// is at least as confident, or as confident and earlier; a confidence that is no
/// number comes last. How confident a position is, is read off its own row of
/// logits, against the largest legal logit there.
pub proof fn law_the_most_confident_are_revealed<D: Denoiser>(
    denoiser: D,
    view: crate::view::ViewState,
    logits: Seq<Binary32>,
    vocab: int,
    count: nat,
    picks: Seq<(usize, u32)>,
    p: int,
    pos: int,
    token: int,
)
    requires
        view.masked.len() <= usize::MAX,
        0 <= vocab <= 0x1_0000_0000,
        unmasks(denoiser, view, logits, vocab, count, picks),
        0 <= p < picks.len(),
        0 <= pos < view.masked.len(),
        view.masked[pos],
        pos * vocab + vocab <= logits.len(),
        0 <= token < vocab,
        token != view.mask_token.0,
        logits[pos * vocab + token].finite(),
        forall|c: int|
            0 <= c < vocab && c != view.mask_token.0 ==> !logits[pos * vocab + token].is_less(
                #[trigger] logits[pos * vocab + c],
            ),
        forall|c: int|
            0 <= c < token && c != view.mask_token.0 ==> !logits[pos * vocab + token].is_at_most(
                #[trigger] logits[pos * vocab + c],
            ),
        forall|q: int| 0 <= q < picks.len() ==> (#[trigger] picks[q]).0 != pos,
    ensures
        picks.len() == count,
        ({
            let mask_id = view.mask_token.0 as int;
            let at = picks[p].0 * vocab;
            let taken = confidence(
                denoiser,
                logits.subrange(at, at + vocab),
                mask_id,
                logits[at + picks[p].1],
            );
            let left = confidence(
                denoiser,
                logits.subrange(pos * vocab, pos * vocab + vocab),
                mask_id,
                logits[pos * vocab + token],
            );
            &&& !left.nan() ==> left.is_at_most(taken)
            &&& taken.nan() ==> left.nan()
            &&& taken.nan() || taken.is_at_most(left) ==> picks[p].0 < pos
        }),
{
    let mask_id = view.mask_token.0 as int;
    let n = view.masked.len() as int;
    lemma_own_class(logits, vocab, mask_id, pos, token);
    let cands = candidates(view.masked, logits, vocab, mask_id, n);
    let conf = confidences(denoiser, view.masked, logits, vocab, mask_id, n);
    assert(exists|c: int| 0 <= c < cands.len() && (#[trigger] cands[c]).0 == pos) by {
        lemma_candidates(view.masked, logits, vocab, mask_id, n);
    }
    let u = choose|c: int| 0 <= c < cands.len() && (#[trigger] cands[c]).0 == pos;
    assert(cands[u].1 == token) by {
        lemma_candidate_classes(view.masked, logits, vocab, mask_id, n);
    }
    let c = lemma_taken_over(cands, conf, count, picks, p, u);
    assert(c < u ==> cands[c].0 < cands[u].0) by {
        lemma_candidates(view.masked, logits, vocab, mask_id, n);
    }
    let at = picks[p].0 * vocab;
    assert(at >= 0) by (nonlinear_arith)
        requires
            at == picks[p].0 * vocab,
            vocab >= 0,
    ;
    let own = crate::retrieval::corpus::slot(logits, cands[c].0 as int, vocab);
    assert(own[picks[p].1 as int] == logits[at + picks[p].1]) by {
        lemma_candidate_classes(view.masked, logits, vocab, mask_id, n);
        lemma_peak_class(own, mask_id, own.len() as int);
    }
    let row = crate::retrieval::corpus::slot(logits, pos, vocab);
    assert(row[token] == logits[pos * vocab + token]) by {
        assert(pos * vocab >= 0) by (nonlinear_arith)
            requires
                pos >= 0,
                vocab >= 0,
        ;
    }
    assert(conf[c] == confidence(denoiser, own, mask_id, own[cands[c].1 as int]));
    assert(conf[u] == confidence(denoiser, row, mask_id, row[cands[u].1 as int]));
}

/// What is taken comes before what is left, and as many are taken as were asked
/// for.
proof fn lemma_taken_over(
    cands: Seq<(usize, u32)>,
    conf: Seq<Binary32>,
    count: nat,
    picks: Seq<(usize, u32)>,
    p: int,
    u: int,
) -> (c: int)
    requires
        picks == most_confident(cands, conf, count, cands.len() as int),
        0 <= p < picks.len(),
        0 <= u < cands.len(),
        forall|q: int| 0 <= q < picks.len() ==> (#[trigger] picks[q]).0 != cands[u].0,
    ensures
        picks.len() == count,
        0 <= c < cands.len(),
        cands[c] == picks[p],
        !conf[u].nan() ==> conf[u].is_at_most(conf[c]),
        conf[c].nan() || conf[c].is_at_most(conf[u]) ==> c < u,
        conf[c].nan() ==> conf[u].nan(),
{
    let n = cands.len() as int;
    lemma_taken(cands, conf, count, n);
    lemma_as_many_as_asked(cands, conf, count);
    let c = choose|c: int|
        0 <= c < cands.len() && #[trigger] cands[c] == picks[p] && rank_below(conf, c, n) < count;
    if rank_below(conf, u, n) < count {
        let q = choose|q: int| 0 <= q < picks.len() && #[trigger] picks[q] == cands[u];
        assert(picks[q].0 == cands[u].0);
    }
    lemma_rank_bound(conf, u, n);
    if taken_before(conf, u, c) {
        lemma_earlier_ranks_lower(conf, u, c, n);
    }
    c
}

/// The first of the largest legal logits of a row is its class.
proof fn lemma_own_class(
    logits: Seq<Binary32>,
    vocab: int,
    mask_id: int,
    pos: int,
    token: int,
)
    requires
        0 <= pos,
        pos * vocab + vocab <= logits.len(),
        0 <= token < vocab,
        token != mask_id,
        logits[pos * vocab + token].finite(),
        forall|c: int|
            0 <= c < vocab && c != mask_id ==> !logits[pos * vocab + token].is_less(
                #[trigger] logits[pos * vocab + c],
            ),
        forall|c: int|
            0 <= c < token && c != mask_id ==> !logits[pos * vocab + token].is_at_most(
                #[trigger] logits[pos * vocab + c],
            ),
    ensures
        class_at(logits, vocab, mask_id, pos) == Some(token),
{
    let row = crate::retrieval::corpus::slot(logits, pos, vocab);
    assert(pos * vocab >= 0) by (nonlinear_arith)
        requires
            pos >= 0,
            vocab >= 0,
    ;
    lemma_peak_is_largest(row, mask_id, vocab);
    lemma_above_minus_infinity(row[token]);
    assert(row[token] == logits[pos * vocab + token]);
    let a = peak_class(row, mask_id, vocab)->0;
    assert(row[a] == logits[pos * vocab + a]);
    if a < token {
        assert(!row[token].is_at_most(row[a]));
    } else if token < a {
        assert(!row[a].is_at_most(row[token]));
    }
}

/// Nothing but one class adds to a sum of exponentials.
proof fn lemma_one_weight<D: Denoiser>(
    denoiser: D,
    row: Seq<Binary32>,
    mask_id: int,
    peak: Binary32,
    class: int,
    upto: int,
)
    requires
        0 <= upto <= row.len(),
        0 <= class < row.len(),
        class != mask_id,
        ({
            let w = denoiser.exponential(
                (Binary32 { bits: row[class].difference_bits(peak) }),
            );
            !w.nan() && !w.negative()
        }),
        forall|c: int|
            0 <= c < row.len() && c != mask_id && c != class ==> denoiser.exponential(
                (Binary32 { bits: (#[trigger] row[c]).difference_bits(peak) }),
            ).bits == 0,
    ensures
        exp_sum_bits(denoiser, row, mask_id, peak, upto) == if class < upto {
            denoiser.exponential((Binary32 { bits: row[class].difference_bits(peak) })).bits
        } else {
            0
        },
    decreases upto,
{
    if upto > 0 {
        lemma_one_weight(denoiser, row, mask_id, peak, class, upto - 1);
        let w = denoiser.exponential((Binary32 { bits: row[class].difference_bits(peak) }));
        crate::retrieval::index::lemma_plus_zero(w);
        crate::retrieval::index::lemma_plus_zero((Binary32 { bits: 0 }));
        let i = upto - 1;
        if i != mask_id && i != class {
            let v = denoiser.exponential((Binary32 { bits: row[i].difference_bits(peak) }));
            assert(v == (Binary32 { bits: 0 }));
        }
        assert(w == (Binary32 { bits: w.bits }));
    }
}

/// Every legal class counts towards a confidence, and the mask does not: where
/// one legal class alone has an exponential other than zero, the confidence is
/// one over it.
pub proof fn law_every_legal_class_counts<D: Denoiser>(
    denoiser: D,
    row: Seq<Binary32>,
    mask_id: int,
    peak: Binary32,
    class: int,
)
    requires
        0 <= class < row.len(),
        class != mask_id,
        ({
            let w = denoiser.exponential(
                (Binary32 { bits: row[class].difference_bits(peak) }),
            );
            !w.nan() && !w.negative()
        }),
        forall|c: int|
            0 <= c < row.len() && c != mask_id && c != class ==> denoiser.exponential(
                (Binary32 { bits: (#[trigger] row[c]).difference_bits(peak) }),
            ).bits == 0,
    ensures
        confidence(denoiser, row, mask_id, peak).bits == (Binary32 {
            bits: crate::binary32::ONE_BITS,
        }).quotient_bits(
            denoiser.exponential((Binary32 { bits: row[class].difference_bits(peak) })),
        ),
{
    lemma_one_weight(denoiser, row, mask_id, peak, class, row.len() as int);
    let w = denoiser.exponential((Binary32 { bits: row[class].difference_bits(peak) }));
    assert(w == (Binary32 { bits: w.bits }));
}

/// Larger summands make no smaller sum.
proof fn lemma_sum_grows(a: Binary32, b: Binary32, x: Binary32, y: Binary32)
    requires
        a.bits <= b.bits <= crate::binary32::INFINITY_BITS,
        x.bits <= y.bits <= crate::binary32::INFINITY_BITS,
    ensures
        a.sum_bits(x) <= b.sum_bits(y) <= crate::binary32::INFINITY_BITS,
{
    reveal(Binary32::sum_bits);
    let v = (a.units() + x.units()) as nat;
    let w = (b.units() + y.units()) as nat;
    crate::binary32::lemma_magnitude_compares(a.word(), b.word());
    crate::binary32::lemma_magnitude_compares(x.word(), y.word());
    crate::binary32::lemma_nearest_exists(v, 1);
    crate::binary32::lemma_nearest_exists(w, 1);
    assert(v * 1 <= w * 1);
    crate::binary32::lemma_nearest_monotone(v, 1, w, 1);
    crate::arithmetic::lemma_zero_is_nearest(1);
}

/// A larger divisor makes no larger quotient of one.
proof fn lemma_quotient_falls(a: Binary32, b: Binary32)
    requires
        a.bits <= b.bits <= crate::binary32::INFINITY_BITS,
    ensures
        ({
            let one = Binary32 { bits: crate::binary32::ONE_BITS };
            one.quotient_bits(b) <= one.quotient_bits(a) <= crate::binary32::INFINITY_BITS
        }),
{
    reveal(Binary32::quotient_bits);
    let one = Binary32 { bits: crate::binary32::ONE_BITS };
    let num = one.size() * vstd::arithmetic::power2::pow2(149);
    crate::binary32::lemma_magnitude_compares(a.word(), b.word());
    crate::binary32::lemma_magnitude_compares(0, a.word());
    assert(crate::binary32::magnitude(0) == 0) by (nonlinear_arith);
    if 0 < a.bits {
        crate::binary32::lemma_nearest_exists(num, a.size());
        if b.bits < crate::binary32::INFINITY_BITS {
            crate::binary32::lemma_nearest_exists(num, b.size());
            assert(num * a.size() <= num * b.size()) by (nonlinear_arith)
                requires
                    a.size() <= b.size(),
            ;
            crate::binary32::lemma_nearest_monotone(num, b.size(), num, a.size());
        }
    } else if 0 < b.bits < crate::binary32::INFINITY_BITS {
        crate::binary32::lemma_magnitude_compares(0, b.word());
        crate::binary32::lemma_nearest_exists(num, b.size());
    }
}

proof fn lemma_flatter_sum<D: Denoiser>(
    denoiser: D,
    sharp: Seq<Binary32>,
    sharp_peak: Binary32,
    flat: Seq<Binary32>,
    flat_peak: Binary32,
    mask_id: int,
    upto: int,
)
    requires
        0 <= upto <= sharp.len() == flat.len(),
        forall|c: int|
            0 <= c < sharp.len() && c != mask_id ==> denoiser.exponential(
                (Binary32 { bits: (#[trigger] sharp[c]).difference_bits(sharp_peak) }),
            ).bits <= denoiser.exponential(
                (Binary32 { bits: flat[c].difference_bits(flat_peak) }),
            ).bits <= crate::binary32::INFINITY_BITS,
    ensures
        exp_sum_bits(denoiser, sharp, mask_id, sharp_peak, upto) <= exp_sum_bits(
            denoiser,
            flat,
            mask_id,
            flat_peak,
            upto,
        ) <= crate::binary32::INFINITY_BITS,
    decreases upto,
{
    if upto > 0 {
        lemma_flatter_sum(denoiser, sharp, sharp_peak, flat, flat_peak, mask_id, upto - 1);
        let i = upto - 1;
        if i != mask_id {
            lemma_sum_grows(
                (Binary32 {
                    bits: exp_sum_bits(denoiser, sharp, mask_id, sharp_peak, i),
                }),
                (Binary32 { bits: exp_sum_bits(denoiser, flat, mask_id, flat_peak, i) }),
                denoiser.exponential(
                    (Binary32 { bits: sharp[i].difference_bits(sharp_peak) }),
                ),
                denoiser.exponential((Binary32 { bits: flat[i].difference_bits(flat_peak) })),
            );
        }
    }
}

/// A flatter row is no more confident: where every legal class falls short of
/// its peak by no more, going by the exponentials, than in another row, the
/// confidence is not larger. It is how far the others fall short that counts,
/// not how large the peak is.
pub proof fn law_a_flatter_row_is_no_more_confident<D: Denoiser>(
    denoiser: D,
    sharp: Seq<Binary32>,
    sharp_peak: Binary32,
    flat: Seq<Binary32>,
    flat_peak: Binary32,
    mask_id: int,
)
    requires
        sharp.len() == flat.len(),
        forall|c: int|
            0 <= c < sharp.len() && c != mask_id ==> denoiser.exponential(
                (Binary32 { bits: (#[trigger] sharp[c]).difference_bits(sharp_peak) }),
            ).bits <= denoiser.exponential(
                (Binary32 { bits: flat[c].difference_bits(flat_peak) }),
            ).bits <= crate::binary32::INFINITY_BITS,
    ensures
        confidence(denoiser, flat, mask_id, flat_peak).is_at_most(
            confidence(denoiser, sharp, mask_id, sharp_peak),
        ),
{
    let n = sharp.len() as int;
    lemma_flatter_sum(denoiser, sharp, sharp_peak, flat, flat_peak, mask_id, n);
    lemma_quotient_falls(
        (Binary32 { bits: exp_sum_bits(denoiser, sharp, mask_id, sharp_peak, n) }),
        (Binary32 { bits: exp_sum_bits(denoiser, flat, mask_id, flat_peak, n) }),
    );
    crate::binary32::lemma_magnitude_compares(
        confidence(denoiser, flat, mask_id, flat_peak).bits as nat,
        confidence(denoiser, sharp, mask_id, sharp_peak).bits as nat,
    );
}

/// A step works with what was retrieved last: where a step of a trajectory has
/// neighbours, they were retrieved for the view of some step no later than it,
/// at a level at which the hard gate is open, and the schedule asked for no
/// refresh in between; where the step itself refreshes, for its own view.
pub proof fn law_a_step_works_with_the_last_refresh<
    I: NeighbourIndex,
    E: RetrieverEncode,
    D: Denoiser,
>(setup: SampleSetup<I, E, D>, steps: Seq<SampleStep>, i: int)
    requires
        setup.runs(steps, steps.len() as int),
        0 <= i < steps.len(),
    ensures
        steps[i].neighbours is Some ==> exists|j: int|
            0 <= j <= i && #[trigger] setup.retrieves_at(steps, j, steps[i].neighbours->0) && forall|
                s: int,
            |
                j < s <= i ==> !(#[trigger] gate_run(
                    setup.thresholds,
                    setup.levels,
                    s,
                )).schedule.refreshes(setup.levels[s]),
        gate_run(setup.thresholds, setup.levels, i).schedule.refreshes(setup.levels[i]) ==> (
        steps[i].neighbours is Some <==> crate::schedule::gate_open(
            setup.levels[i],
            Phase::Inference,
        )),
    decreases i,
{
    assert(setup.follows(steps, i));
    let fresh = gate_run(setup.thresholds, setup.levels, i).schedule.refreshes(setup.levels[i]);
    if steps[i].neighbours is Some {
        if fresh {
            assert(setup.retrieves_at(steps, i, steps[i].neighbours->0));
        } else if i > 0 {
            law_a_step_works_with_the_last_refresh(setup, steps, i - 1);
            let j = choose|j: int|
                0 <= j <= i - 1 && #[trigger] setup.retrieves_at(
                    steps,
                    j,
                    steps[i - 1].neighbours->0,
                ) && forall|s: int|
                    j < s <= i - 1 ==> !(#[trigger] gate_run(
                        setup.thresholds,
                        setup.levels,
                        s,
                    )).schedule.refreshes(setup.levels[s]);
            assert(setup.retrieves_at(steps, j, steps[i].neighbours->0));
        }
    }
}

impl<I: NeighbourIndex, E: RetrieverEncode, D: Denoiser> SampleSetup<I, E, D> {
    /// `found` is what the index holds for the view of step `j`, at whose level
    /// the hard gate is open.
    pub open spec fn retrieves_at(self, steps: Seq<SampleStep>, j: int, found: Neighbours) -> bool {
        &&& crate::schedule::gate_open(self.levels[j], Phase::Inference)
        &&& exists|queries: crate::chunk::ChunkQueries| #[trigger]
            crate::retrieval::retrieved_for_view(
                found,
                queries,
                steps[j].view,
                self.cfg,
                self.admission,
                self.encoder,
                self.index,
                self.corpus,
                self.guard,
                self.document,
            )
    }
}

/// The tally of a trajectory is that of its steps: as many steps are counted as
/// gated as ran without neighbours.
pub proof fn law_gated_steps_ran_without_neighbours<
    I: NeighbourIndex,
    E: RetrieverEncode,
    D: Denoiser,
>(setup: SampleSetup<I, E, D>, steps: Seq<SampleStep>, upto: int)
    requires
        setup.runs(steps, steps.len() as int),
        0 <= upto <= steps.len(),
    ensures
        gate_run(setup.thresholds, setup.levels, upto).gated == crate::view::count_true(
            Seq::new(upto as nat, |i: int| steps[i].neighbours is None),
        ),
        upto > 0 ==> gate_run(setup.thresholds, setup.levels, upto).cached == (
        steps[upto - 1].neighbours is Some),
    decreases upto,
{
    let flags = Seq::new(upto as nat, |i: int| steps[i].neighbours is None);
    if upto > 0 {
        law_gated_steps_ran_without_neighbours(setup, steps, upto - 1);
        assert(setup.follows(steps, upto - 1));
        assert(flags.drop_last() =~= Seq::new(
            (upto - 1) as nat,
            |i: int| steps[i].neighbours is None,
        ));
    }
}

/// A trajectory starts from the prompt and masks, and a step sees what the one
/// before it left: at every place it shows the token that was revealed there, or
/// what was there before.
pub proof fn law_a_step_sees_what_was_revealed<
    I: NeighbourIndex,
    E: RetrieverEncode,
    D: Denoiser,
>(setup: SampleSetup<I, E, D>, steps: Seq<SampleStep>, i: int, pos: int)
    requires
        setup.runs(steps, steps.len() as int),
        setup.denoiser.vocab() <= 0x1_0000_0000,
        0 <= i < steps.len(),
        0 <= pos < steps[i].view@.tokens.len(),
    ensures
        i == 0 ==> steps[i].view@.tokens[pos] == setup.start[pos],
        i > 0 ==> steps[i].view@.tokens[pos] == steps[i - 1].after@.tokens[pos]
            && steps[i].view@.masked[pos] == steps[i - 1].after@.masked[pos],
        (exists|p: int| 0 <= p < steps[i].picks.len() && (#[trigger] steps[i].picks[p]).0 == pos)
            ==> !steps[i].after@.masked[pos] && exists|p: int|
            0 <= p < steps[i].picks.len() && (#[trigger] steps[i].picks[p]).0 == pos
                && steps[i].after@.tokens[pos] == steps[i].picks[p].1,
        (forall|p: int| 0 <= p < steps[i].picks.len() ==> (#[trigger] steps[i].picks[p]).0 != pos)
            ==> steps[i].after@.masked[pos] == steps[i].view@.masked[pos]
            && steps[i].after@.tokens[pos] == steps[i].view@.tokens[pos],
{
    assert(setup.follows(steps, i));
    let step = steps[i];
    lemma_picks(
        step.view@,
        step.logits,
        setup.denoiser.vocab() as int,
        setup.reveal.amount(
            (setup.levels.len() - i) as nat,
            crate::view::count_true(step.view@.masked),
        ),
        step.picks,
    );
    lemma_written(step.view@.tokens, step.view@.masked, step.picks, pos);
}

/// Where tokens are written at distinct positions, each shows, and nothing else
/// changes.
proof fn lemma_written(
    tokens: Seq<u32>,
    masked: Seq<bool>,
    picks: Seq<(usize, u32)>,
    pos: int,
)
    requires
        masked.len() == tokens.len(),
        0 <= pos < tokens.len(),
        forall|p: int| 0 <= p < picks.len() ==> (#[trigger] picks[p]).0 < tokens.len(),
    ensures
        crate::view::write_tokens(tokens, picks).len() == tokens.len(),
        crate::view::clear_flags(masked, picks).len() == tokens.len(),
        (exists|p: int| 0 <= p < picks.len() && (#[trigger] picks[p]).0 == pos)
            ==> !crate::view::clear_flags(masked, picks)[pos] && exists|p: int|
            0 <= p < picks.len() && (#[trigger] picks[p]).0 == pos && crate::view::write_tokens(
                tokens,
                picks,
            )[pos] == picks[p].1,
        (forall|p: int| 0 <= p < picks.len() ==> (#[trigger] picks[p]).0 != pos)
            ==> crate::view::clear_flags(masked, picks)[pos] == masked[pos]
            && crate::view::write_tokens(tokens, picks)[pos] == tokens[pos],
    decreases picks.len(),
{
    if picks.len() > 0 {
        let rest = picks.drop_last();
        let last = picks.len() - 1;
        assert forall|p: int| 0 <= p < rest.len() implies (#[trigger] rest[p]).0 < tokens.len() by {
            assert(rest[p] == picks[p]);
        }
        lemma_written(tokens, masked, rest, pos);
        assert(picks[last] == picks.last());
        if picks[last].0 != pos {
            if exists|p: int| 0 <= p < picks.len() && (#[trigger] picks[p]).0 == pos {
                let q = choose|p: int| 0 <= p < picks.len() && (#[trigger] picks[p]).0 == pos;
                assert(rest[q].0 == pos);
                let p = choose|p: int|
                    0 <= p < rest.len() && (#[trigger] rest[p]).0 == pos
                        && crate::view::write_tokens(tokens, rest)[pos] == rest[p].1;
                assert(picks[p].0 == pos && picks[p] == rest[p]);
            } else {
                assert forall|p: int| 0 <= p < rest.len() implies (#[trigger] rest[p]).0 != pos by {
                    assert(rest[p] == picks[p]);
                }
            }
        }
    }
}

/// A step reveals an even share: the least count that, taken at every step left,
/// would reveal everything; or, where the count is fixed, that count as long as
/// so many are masked.
pub proof fn law_a_step_reveals_an_even_share(policy: RevealPolicy, steps: nat, masked: nat, less: nat)
    requires
        steps > 0,
        less < policy.amount(steps, masked),
    ensures
        policy.amount(steps, masked) <= masked,
        policy is Linear ==> policy.amount(steps, masked) * steps >= masked && less * steps < masked,
        policy matches RevealPolicy::Fixed(k) ==> policy.amount(steps, masked) <= k && (
        policy.amount(steps, masked) == k || policy.amount(steps, masked) == masked),
{
    let c = policy.amount(steps, masked) as int;
    let (s, m, l) = (steps as int, masked as int, less as int);
    if policy is Linear {
        if steps == 1 {
            assert(c * 1 == c && l * 1 == l);
        } else {
            vstd::arithmetic::div_mod::lemma_fundamental_div_mod(m + s - 1, s);
            let q = (m + s - 1) / s;
            assert(q * s >= m && l * s < m && q <= m) by (nonlinear_arith)
                requires
                    s >= 2,
                    m >= 0,
                    0 <= l < q,
                    m + s - 1 == s * q + (m + s - 1) % s,
                    0 <= (m + s - 1) % s < s,
            ;
        }
    }
}

/// A trajectory starts from the prompt at the start of the canvas and mask tokens
/// in the rest of it, and runs with the rules it was given.
pub proof fn law_a_trajectory_starts_from_the_prompt<
    I: NeighbourIndex,
    E: RetrieverEncode,
    D: Denoiser,
>(
    prompt: Seq<u32>,
    mask_token: MaskToken,
    cfg: CcaConfig,
    levels: Seq<NoiseLevel>,
    sampling: SamplingConfig,
    encoder: E,
    index: I,
    corpus: NeighbourCorpus,
    guard: LeakageGuard,
    denoiser: D,
    pos: int,
)
    requires
        prompt.len() <= cfg.n(),
        0 <= pos < cfg.n(),
    ensures
        ({
            let setup = setup_of(
                prompt,
                mask_token,
                cfg,
                levels,
                sampling,
                encoder,
                index,
                corpus,
                guard,
                denoiser,
            );
            &&& setup.start.len() == cfg.n()
            &&& setup.start[pos] == if pos < prompt.len() {
                prompt[pos]
            } else {
                mask_token.0
            }
            &&& setup.mask_token == mask_token
            &&& setup.levels == levels
            &&& setup.thresholds == sampling.refresh@.thresholds
            &&& setup.admission == sampling.admission
            &&& setup.reveal == sampling.reveal
            &&& setup.document == sampling.document
        }),
{
}

/// A step runs at the noise level of its own number, and ranks what the model
/// makes of the view and the neighbours of that very step; at the first step
/// exactly the mask tokens of the canvas are masked.
pub proof fn law_a_step_runs_at_its_own_level<
    I: NeighbourIndex,
    E: RetrieverEncode,
    D: Denoiser,
>(setup: SampleSetup<I, E, D>, steps: Seq<SampleStep>, i: int, pos: int)
    requires
        setup.runs(steps, steps.len() as int),
        0 <= i < steps.len(),
        0 <= pos < steps[i].view@.masked.len(),
    ensures
        steps[i].view@.t == setup.levels[i],
        steps[i].view@.mask_token == setup.mask_token,
        setup.denoiser.denoises(steps[i].view, steps[i].neighbours, steps[i].logits),
        i == 0 ==> (steps[i].view@.masked[pos] <==> setup.start[pos] == setup.mask_token.0),
{
    assert(setup.follows(steps, i));
}

/// The refreshes of a trajectory are counted one by one: the steps at which the
/// schedule fires while the hard gate is open.
pub proof fn law_refreshes_are_counted_one_by_one(
    thresholds: Seq<Binary32>,
    levels: Seq<NoiseLevel>,
    upto: int,
)
    requires
        0 <= upto <= levels.len(),
    ensures
        gate_run(thresholds, levels, upto).refreshes == crate::view::count_true(
            Seq::new(
                upto as nat,
                |i: int|
                    gate_run(thresholds, levels, i).schedule.refreshes(levels[i])
                        && crate::schedule::gate_open(levels[i], Phase::Inference),
            ),
        ),
    decreases upto,
{
    let flags = Seq::new(
        upto as nat,
        |i: int|
            gate_run(thresholds, levels, i).schedule.refreshes(levels[i])
                && crate::schedule::gate_open(levels[i], Phase::Inference),
    );
    if upto > 0 {
        law_refreshes_are_counted_one_by_one(thresholds, levels, upto - 1);
        assert(flags.drop_last() =~= Seq::new(
            (upto - 1) as nat,
            |i: int|
                gate_run(thresholds, levels, i).schedule.refreshes(levels[i])
                    && crate::schedule::gate_open(levels[i], Phase::Inference),
        ));
    }
}

} // verus!
