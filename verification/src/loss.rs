//! The masked-diffusion training objective.
//!
//! The negative evidence lower bound
//!
//! ```text
//!   L = -1/(t n) * sum over masked i of log p(x0_i | x_t)
//! ```
//!
//! Three things distinguish it from ordinary language-model cross-entropy:
//!
//! * **Only masked positions score.** An unmasked position's token is already
//!   visible in the input; scoring it teaches the model to copy its own input.
//! * **The `1/t` weight** makes the per-step loss an unbiased estimate of the
//!   same bound rather than something dominated by high-noise steps.
//! * **The `1/n` normalisation is over the whole sequence**, not over the
//!   masked positions.
//!
//! A weighted cross-entropy operator takes arbitrary label *weights*, so a
//! masked position's label row is `onehot(x0_i) / t`, an unmasked position's
//! label row is all zeros, and the operator's own division by its row count
//! supplies the `1/n`.
use crate::binary32::{Binary32, ONE_BITS};
use crate::schedule::NoiseLevel;
use crate::text::decimal;
use crate::view::{CleanSequence, NoisedView, SequenceId};
use vstd::prelude::*;
use vstd::string::*;

verus! {

/// Why labels could not be built.
#[derive(Clone, Copy, Debug, PartialEq, Eq, Structural)]
pub enum LabelError {
    /// The view and the clean sequence are different lengths.
    LengthMismatch {
        /// The view's length.
        view: usize,
        /// The clean sequence's length.
        clean: usize,
    },
    /// The view was not masked from this clean sequence.
    ///
    /// Scoring against the wrong answers is as silent as the retrieval leak
    /// and looks like nothing but a model that will not converge.
    SequenceMismatch {
        /// The sequence the view came from, if any.
        view_source: Option<SequenceId>,
        /// The sequence whose targets were offered.
        offered: SequenceId,
    },
    /// A target token id is outside the vocabulary.
    TokenOutOfRange {
        /// Where the token stands.
        position: usize,
        /// The token.
        token: u32,
        /// The vocabulary's width.
        vocab: usize,
    },
}

/// The text of an error, in characters.
pub open spec fn label_error_chars(e: LabelError) -> Seq<char> {
    match e {
        LabelError::LengthMismatch { view, clean } => "view has "@ + crate::text::decimal_chars(
            view as nat,
        ) + " tokens, clean sequence has "@ + crate::text::decimal_chars(clean as nat),
        LabelError::SequenceMismatch { view_source, offered } => match view_source {
            Some(src) => "view was masked from sequence "@ + crate::text::decimal_chars(
                src.value() as nat,
            ) + " but targets came from "@ + crate::text::decimal_chars(offered.value() as nat),
            None =>
                "view has no clean source (it was built for sampling) but targets from sequence "@
                + crate::text::decimal_chars(offered.value() as nat) + " were offered"@,
        },
        LabelError::TokenOutOfRange { position, token, vocab } => "target token "@
            + crate::text::decimal_chars(token as nat) + " at position "@
            + crate::text::decimal_chars(position as nat) + " is outside vocabulary "@
            + crate::text::decimal_chars(vocab as nat),
    }
}

impl LabelError {
    /// What went wrong, in words.
    pub fn message(&self) -> (s: String)
        ensures
            s@ == label_error_chars(*self),
    {
        match self {
            LabelError::LengthMismatch { view, clean } => {
                let mut s: String = String::from_str("view has ");
                s.append(decimal(*view as u64).as_str());
                s.append(" tokens, clean sequence has ");
                s.append(decimal(*clean as u64).as_str());
                s
            },
            LabelError::SequenceMismatch { view_source, offered } => match view_source {
                Some(src) => {
                    let mut s: String = String::from_str("view was masked from sequence ");
                    s.append(decimal(src.get()).as_str());
                    s.append(" but targets came from ");
                    s.append(decimal(offered.get()).as_str());
                    s
                },
                None => {
                    let mut s: String = String::from_str(
                        "view has no clean source (it was built for sampling) but targets from sequence ",
                    );
                    s.append(decimal(offered.get()).as_str());
                    s.append(" were offered");
                    s
                },
            },
            LabelError::TokenOutOfRange { position, token, vocab } => {
                let mut s: String = String::from_str("target token ");
                s.append(decimal(*token as u64).as_str());
                s.append(" at position ");
                s.append(decimal(*position as u64).as_str());
                s.append(" is outside vocabulary ");
                s.append(decimal(*vocab as u64).as_str());
                s
            },
        }
    }
}

/// What one label tensor ended up containing.
#[derive(Clone, Copy, Debug, PartialEq)]
pub struct LabelStats {
    /// Positions that scored.
    pub scored: usize,
    /// Sequence length.
    pub seq_len: usize,
    /// The `1/t` weight applied to each scoring row.
    pub weight: Binary32,
}

impl LabelStats {
    /// Whether this step contributes any gradient at all.
    ///
    /// A step can legitimately mask nothing, and its loss and gradient are
    /// then exactly zero. That is correct, and it is also a wasted forward and
    /// backward pass, so a training loop is better off skipping the step.
    pub fn contributes(self) -> (b: bool)
        ensures
            b == (self.scored > 0),
    {
        self.scored > 0
    }
}

/// Builds `[n, vocab]` label tensors for the masked-diffusion objective.
#[derive(Clone, Copy, Debug, PartialEq)]
pub struct MaskedDiffusionLoss {
    vocab_size: usize,
    min_t: Binary32,
}

/// The default floor of `t`: the word of `0.001`.
///
/// The `1/t` weight diverges as `t` falls to zero. A floor bounds it at
/// `1000`, which keeps one unlucky low-`t` sample from dominating a batch.
pub const DEFAULT_MIN_T: u32 = 0x3A83_126F;

/// The word of the smallest positive normal number.
pub const MIN_POSITIVE_BITS: u32 = 0x0080_0000;

/// What keeps the targets of `clean` from being offered to `view`: the first
/// fault, in the order that they are looked for.
pub open spec fn label_fault(view: NoisedView, clean: CleanSequence, vocab: usize) -> Option<
    LabelError,
> {
    if view@.tokens.len() != clean@.len() {
        Some(
            LabelError::LengthMismatch {
                view: view@.tokens.len() as usize,
                clean: clean@.len() as usize,
            },
        )
    } else if view@.source != Some(clean.identity()) {
        Some(
            LabelError::SequenceMismatch {
                view_source: view@.source,
                offered: clean.identity(),
            },
        )
    } else {
        token_fault(view@.masked, clean@, vocab, clean@.len())
    }
}

/// The first masked position below `upto` whose target is outside the
/// vocabulary.
pub open spec fn token_fault(
    masked: Seq<bool>,
    targets: Seq<u32>,
    vocab: usize,
    upto: nat,
) -> Option<LabelError>
    decreases upto,
{
    if upto == 0 {
        None
    } else {
        let i = upto - 1;
        match token_fault(masked, targets, vocab, i as nat) {
            Some(fault) => Some(fault),
            None => if masked[i] && targets[i] >= vocab {
                Some(
                    LabelError::TokenOutOfRange { position: i as usize, token: targets[i], vocab },
                )
            } else {
                None
            },
        }
    }
}

/// The dense label tensor: at each masked position the weight at its target,
/// zeros everywhere else.
pub open spec fn dense_labels(
    masked: Seq<bool>,
    targets: Seq<u32>,
    vocab: nat,
    weight: Binary32,
) -> Seq<Binary32> {
    Seq::new(
        masked.len() * vocab,
        |i: int|
            if masked[i / vocab as int] && i % vocab as int == targets[i / vocab as int] {
                weight
            } else {
                Binary32 { bits: 0 }
            },
    )
}

/// The masked positions below `upto` with their targets, in order.
pub open spec fn label_entries(masked: Seq<bool>, targets: Seq<u32>, upto: nat) -> Seq<(u32, u32)>
    decreases upto,
{
    if upto == 0 {
        Seq::empty()
    } else {
        let i = upto - 1;
        let rest = label_entries(masked, targets, i as nat);
        if masked[i] {
            rest.push((i as u32, targets[i]))
        } else {
            rest
        }
    }
}

impl MaskedDiffusionLoss {
    /// Vocabulary width.
    pub closed spec fn vocab(self) -> usize {
        self.vocab_size
    }

    /// The floor of `t`.
    pub closed spec fn floor(self) -> Binary32 {
        self.min_t
    }

    /// The weight applied at `t`.
    pub open spec fn weight_at(self, t: NoiseLevel) -> Binary32 {
        Binary32 {
            bits: (Binary32 { bits: ONE_BITS }).quotient_bits(t.value().larger_of(self.floor())),
        }
    }

    /// A loss builder over a `vocab_size`-wide vocabulary.
    pub fn new(vocab_size: usize) -> (loss: Self)
        ensures
            loss.vocab() == vocab_size,
            loss.floor().bits == DEFAULT_MIN_T,
    {
        MaskedDiffusionLoss { vocab_size, min_t: Binary32::from_bits(DEFAULT_MIN_T) }
    }

    /// Override the `t` floor.
    pub fn with_min_t(self, min_t: Binary32) -> (loss: Self)
        ensures
            loss.vocab() == self.vocab(),
            loss.floor() == min_t.larger_of((Binary32 { bits: MIN_POSITIVE_BITS })),
    {
        MaskedDiffusionLoss {
            vocab_size: self.vocab_size,
            min_t: min_t.larger(Binary32::from_bits(MIN_POSITIVE_BITS)),
        }
    }

    /// Vocabulary width.
    pub fn vocab_size(self) -> (vocab: usize)
        ensures
            vocab == self.vocab(),
    {
        self.vocab_size
    }

    /// The `1/t` weight this builder would apply at noise level `t`.
    pub fn weight(self, t: NoiseLevel) -> (w: Binary32)
        ensures
            w == self.weight_at(t),
    {
        Binary32::from_bits(ONE_BITS).over(t.get().larger(self.min_t))
    }

    /// Bytes one dense label tensor occupies for a sequence of `seq_len`.
    pub fn label_bytes(self, seq_len: usize) -> (bytes: usize)
        requires
            seq_len * self.vocab() * 4 <= usize::MAX,
        ensures
            bytes == seq_len * self.vocab() * 4,
    {
        proof {
            assert(seq_len * self.vocab_size >= 0) by (nonlinear_arith);
        }
        seq_len * self.vocab_size * 4
    }

    /// Check that the targets of `clean` may be offered to `view`.
    fn check(self, view: &NoisedView, clean: &CleanSequence) -> (result: Result<(), LabelError>)
        requires
            view.wf(),
        ensures
            match label_fault(*view, *clean, self.vocab()) {
                Some(fault) => result == Err::<(), LabelError>(fault),
                None => result is Ok,
            },
    {
        if view.len() != clean.len() {
            return Err(LabelError::LengthMismatch { view: view.len(), clean: clean.len() });
        }
        let offered: SequenceId = clean.id();
        let view_source: Option<SequenceId> = view.source();
        let same: bool = match view_source {
            Some(src) => src == offered,
            None => false,
        };
        if !same {
            return Err(LabelError::SequenceMismatch { view_source, offered });
        }
        let targets: &[u32] = clean.targets();
        let masked: &[bool] = view.masked();
        let mut position: usize = 0;
        while position < targets.len()
            invariant
                position <= targets@.len(),
                targets@ == clean@,
                masked@ == view@.masked,
                masked@.len() == targets@.len(),
                view@.tokens.len() == clean@.len(),
                view@.source == Some(clean.identity()),
                token_fault(masked@, targets@, self.vocab_size, position as nat) is None,
            decreases targets.len() - position,
        {
            let token: u32 = targets[position];
            if masked[position] && token as usize >= self.vocab_size {
                proof {
                    lemma_token_fault_stays(
                        masked@,
                        targets@,
                        self.vocab_size,
                        (position + 1) as nat,
                        targets@.len(),
                    );
                }
                return Err(
                    LabelError::TokenOutOfRange { position, token, vocab: self.vocab_size },
                );
            }
            position = position + 1;
        }
        Ok(())
    }

    /// Write the label tensor for `view` into `out`, resizing it to
    /// `seq_len * vocab_size`.
    ///
    /// A rejected call leaves `out` untouched rather than half-filled with a
    /// tensor the caller might still upload.
    pub fn build_labels(
        self,
        view: &NoisedView,
        clean: &CleanSequence,
        out: &mut Vec<Binary32>,
    ) -> (result: Result<LabelStats, LabelError>)
        requires
            view.wf(),
            view@.tokens.len() * self.vocab() <= usize::MAX,
        ensures
            match label_fault(*view, *clean, self.vocab()) {
                Some(fault) => result == Err::<LabelStats, LabelError>(fault) && final(out)@
                    == old(out)@,
                None => result is Ok && final(out)@ == dense_labels(
                    view@.masked,
                    clean@,
                    self.vocab() as nat,
                    self.weight_at(view@.t),
                ) && result->Ok_0.scored == crate::view::count_true(view@.masked)
                    && result->Ok_0.seq_len == view@.tokens.len() && result->Ok_0.weight
                    == self.weight_at(view@.t),
            },
    {
        match self.check(view, clean) {
            Ok(()) => {},
            Err(fault) => {
                return Err(fault);
            },
        }
        let weight: Binary32 = self.weight(view.noise_level());
        let targets: &[u32] = clean.targets();
        let masked: &[bool] = view.masked();
        let n: usize = view.len();
        let vocab: usize = self.vocab_size;
        out.clear();
        let ghost dense = dense_labels(masked@, targets@, vocab as nat, weight);
        let mut position: usize = 0;
        while position < n
            invariant
                position <= n,
                n == masked@.len(),
                n == targets@.len(),
                n * vocab <= usize::MAX,
                dense == dense_labels(masked@, targets@, vocab as nat, weight),
                out@.len() == position * vocab,
                out@ == dense.take(position * vocab),
            decreases n - position,
        {
            let scores: bool = masked[position];
            let token: u32 = targets[position];
            proof {
                crate::chunk::lemma_slot_in_range(position as int, n as int, vocab as int);
            }
            let mut class: usize = 0;
            while class < vocab
                invariant
                    class <= vocab,
                    position < n,
                    n == masked@.len(),
                    n * vocab <= usize::MAX,
                    position * vocab + vocab <= n * vocab,
                    scores == masked@[position as int],
                    token == targets@[position as int],
                    dense == dense_labels(masked@, targets@, vocab as nat, weight),
                    out@.len() == position * vocab + class,
                    out@ == dense.take(position * vocab + class),
                decreases vocab - class,
            {
                let hit: bool = scores && class == token as usize;
                let ghost i = position * vocab + class;
                proof {
                    vstd::arithmetic::div_mod::lemma_fundamental_div_mod_converse(
                        i,
                        vocab as int,
                        position as int,
                        class as int,
                    );
                }
                if hit {
                    out.push(weight);
                } else {
                    out.push(Binary32::from_bits(0));
                }
                proof {
                    assert(out@ =~= dense.take(i + 1));
                }
                class = class + 1;
            }
            position = position + 1;
        }
        proof {
            assert(dense.take(n * vocab) =~= dense);
        }
        Ok(LabelStats { scored: view.num_masked(), seq_len: n, weight })
    }

    /// The masked positions of `view` with their targets, in place of the
    /// dense tensor that holds a weight at each of them.
    ///
    /// A rejected call leaves `entries` untouched.
    pub fn scatter(self, view: &NoisedView, clean: &CleanSequence, entries: &mut Vec<(u32, u32)>) -> (result:
        Result<LabelStats, LabelError>)
        requires
            view.wf(),
            view@.tokens.len() <= 0x1_0000_0000,
        ensures
            match label_fault(*view, *clean, self.vocab()) {
                Some(fault) => result == Err::<LabelStats, LabelError>(fault) && final(entries)@
                    == old(entries)@,
                None => result is Ok && final(entries)@ == label_entries(
                    view@.masked,
                    clean@,
                    clean@.len(),
                ) && result->Ok_0.scored == crate::view::count_true(view@.masked)
                    && result->Ok_0.seq_len == view@.tokens.len() && result->Ok_0.weight
                    == self.weight_at(view@.t),
            },
    {
        match self.check(view, clean) {
            Ok(()) => {},
            Err(fault) => {
                return Err(fault);
            },
        }
        let targets: &[u32] = clean.targets();
        let masked: &[bool] = view.masked();
        let n: usize = view.len();
        entries.clear();
        let mut position: usize = 0;
        while position < n
            invariant
                position <= n,
                n <= 0x1_0000_0000,
                n == masked@.len(),
                n == targets@.len(),
                entries@ == label_entries(masked@, targets@, position as nat),
            decreases n - position,
        {
            if masked[position] {
                entries.push((position as u32, targets[position]));
            }
            position = position + 1;
        }
        Ok(
            LabelStats {
                scored: view.num_masked(),
                seq_len: n,
                weight: self.weight(view.noise_level()),
            },
        )
    }
}

/// The first fault found stays the first.
proof fn lemma_token_fault_stays(
    masked: Seq<bool>,
    targets: Seq<u32>,
    vocab: usize,
    low: nat,
    high: nat,
)
    requires
        low <= high,
        token_fault(masked, targets, vocab, low) is Some,
    ensures
        token_fault(masked, targets, vocab, high) == token_fault(masked, targets, vocab, low),
    decreases high,
{
    if low < high {
        lemma_token_fault_stays(masked, targets, vocab, low, (high - 1) as nat);
    }
}

/// Where nothing is at fault, every masked target is inside the vocabulary.
pub proof fn lemma_targets_in_vocabulary(
    masked: Seq<bool>,
    targets: Seq<u32>,
    vocab: usize,
    upto: nat,
    i: int,
)
    requires
        token_fault(masked, targets, vocab, upto) is None,
        0 <= i < upto,
        masked[i],
    ensures
        targets[i] < vocab,
    decreases upto,
{
    if i < upto - 1 {
        lemma_targets_in_vocabulary(masked, targets, vocab, (upto - 1) as nat, i);
    }
}

/// Only masked positions score: every entry of an unmasked position's label
/// row is zero, and a masked row holds the weight at its target alone.
pub proof fn law_only_masked_positions_score(
    masked: Seq<bool>,
    targets: Seq<u32>,
    vocab: nat,
    weight: Binary32,
    position: int,
    class: int,
)
    requires
        0 <= position < masked.len(),
        0 <= class < vocab,
    ensures
        position * vocab + class < dense_labels(masked, targets, vocab, weight).len(),
        dense_labels(masked, targets, vocab, weight)[position * vocab + class] == (if masked[position]
            && class == targets[position] {
            weight
        } else {
            Binary32 { bits: 0 }
        }),
{
    crate::chunk::lemma_slot_in_range(position, masked.len() as int, vocab as int);
    vstd::arithmetic::div_mod::lemma_fundamental_div_mod_converse(
        position * vocab + class,
        vocab as int,
        position,
        class,
    );
}

/// Labels are refused exactly where they do not fit the view: the lengths
/// differ, the view was masked from another sequence or from none, or a masked
/// target is outside the vocabulary; and a target is named where it is the first
/// such one.
pub proof fn law_labels_are_refused_where_they_do_not_fit(
    view: NoisedView,
    clean: CleanSequence,
    vocab: usize,
)
    requires
        view@.masked.len() == view@.tokens.len(),
        clean@.len() <= usize::MAX,
    ensures
        label_fault(view, clean, vocab) is None <==> view@.tokens.len() == clean@.len()
            && view@.source == Some(clean.identity()) && forall|i: int|
            0 <= i < clean@.len() && #[trigger] view@.masked[i] ==> clean@[i] < vocab,
        label_fault(view, clean, vocab) matches Some(
            LabelError::TokenOutOfRange { position, token, vocab: width },
        ) ==> {
            &&& position < clean@.len() && view@.masked[position as int]
            &&& token == clean@[position as int] && token >= vocab && width == vocab
            &&& forall|i: int|
                0 <= i < position && #[trigger] view@.masked[i] ==> clean@[i] < vocab
        },
{
    if view@.tokens.len() == clean@.len() {
        lemma_first_fault(view@.masked, clean@, vocab, clean@.len());
    }
}

proof fn lemma_first_fault(masked: Seq<bool>, targets: Seq<u32>, vocab: usize, upto: nat)
    requires
        upto <= masked.len(),
        upto <= targets.len() <= usize::MAX,
    ensures
        match token_fault(masked, targets, vocab, upto) {
            None => forall|i: int| 0 <= i < upto && #[trigger] masked[i] ==> targets[i] < vocab,
            Some(LabelError::TokenOutOfRange { position, token, vocab: width }) => {
                &&& position < upto && masked[position as int]
                &&& token == targets[position as int] && token >= vocab && width == vocab
                &&& forall|i: int|
                    0 <= i < position && #[trigger] masked[i] ==> targets[i] < vocab
            },
            Some(_) => false,
        },
    decreases upto,
{
    if upto > 0 {
        lemma_first_fault(masked, targets, vocab, (upto - 1) as nat);
    }
}

/// The weight is one over the noise level: the word nearest to `1 / t` at every
/// level from the floor up, and to one over the floor below it.
pub proof fn law_the_weight_is_one_over_the_level(loss: MaskedDiffusionLoss, t: NoiseLevel)
    requires
        t.valid(),
        loss.floor().finite(),
        loss.floor().units() > 0,
    ensures
        ({
            let one = crate::binary32::one_units();
            let level = if t.value().units() < loss.floor().units() {
                loss.floor().units() as nat
            } else {
                t.value().units() as nat
            };
            &&& level > 0
            &&& crate::binary32::is_nearest(one * one, level, loss.weight_at(t).bits as nat)
        }),
{
    reveal(Binary32::quotient_bits);
    let one = Binary32 { bits: ONE_BITS };
    let x = t.value().larger_of(loss.floor());
    crate::binary32::lemma_one_units();
    crate::binary32::lemma_magnitude_compares(0, x.word());
    assert(crate::binary32::magnitude(0) == 0) by (nonlinear_arith);
    assert(x.finite() && x.units() > 0);
    assert(!x.negative());
    crate::binary32::lemma_nearest_exists(one.size() * crate::binary32::one_units(), x.size());
}

/// A noisier step weighs no more: the weight falls as the level rises.
pub proof fn law_the_weight_falls_as_the_level_rises(
    loss: MaskedDiffusionLoss,
    low: NoiseLevel,
    high: NoiseLevel,
)
    requires
        low.valid(),
        high.valid(),
        low.value().is_at_most(high.value()),
        loss.floor().finite(),
        loss.floor().units() > 0,
    ensures
        loss.weight_at(high).is_at_most(loss.weight_at(low)),
{
    law_the_weight_is_one_over_the_level(loss, low);
    law_the_weight_is_one_over_the_level(loss, high);
    let one = crate::binary32::one_units();
    let f = loss.floor().units();
    let a = if low.value().units() < f {
        f as nat
    } else {
        low.value().units() as nat
    };
    let b = if high.value().units() < f {
        f as nat
    } else {
        high.value().units() as nat
    };
    assert((one * one) * a <= (one * one) * b) by (nonlinear_arith)
        requires
            a <= b,
    ;
    crate::binary32::lemma_nearest_monotone(one * one, b, one * one, a);
    crate::binary32::lemma_nearest_is(one * one, b, loss.weight_at(high).bits);
    crate::binary32::lemma_nearest_is(one * one, a, loss.weight_at(low).bits);
    crate::binary32::lemma_magnitude_compares(
        loss.weight_at(high).bits as nat,
        loss.weight_at(low).bits as nat,
    );
}

/// Scattered labels are the masked positions in order, each with its own target,
/// and no others.
pub proof fn law_scattered_labels_are_the_masked_positions(
    masked: Seq<bool>,
    targets: Seq<u32>,
    position: int,
    class: u32,
)
    requires
        masked.len() == targets.len(),
        targets.len() <= 0x1_0000_0000,
        0 <= position < targets.len(),
    ensures
        ({
            let entries = label_entries(masked, targets, targets.len());
            &&& entries.contains((position as u32, class)) <==> masked[position] && class
                == targets[position]
            &&& entries.len() == crate::view::count_true(masked)
            &&& forall|a: int, b: int|
                0 <= a < b < entries.len() ==> (#[trigger] entries[a]).0 < (#[trigger] entries[b]).0
        }),
{
    lemma_scattered(masked, targets, targets.len(), position, class);
    assert(masked.take(targets.len() as int) =~= masked);
}

proof fn lemma_scattered(
    masked: Seq<bool>,
    targets: Seq<u32>,
    upto: nat,
    position: int,
    class: u32,
)
    requires
        upto <= masked.len(),
        masked.len() == targets.len(),
        targets.len() <= 0x1_0000_0000,
        0 <= position < targets.len(),
    ensures
        ({
            let entries = label_entries(masked, targets, upto);
            &&& entries.contains((position as u32, class)) <==> position < upto && masked[position]
                && class == targets[position]
            &&& entries.len() == crate::view::count_true(masked.take(upto as int))
            &&& forall|a: int| 0 <= a < entries.len() ==> (#[trigger] entries[a]).0 < upto
            &&& forall|a: int, b: int|
                0 <= a < b < entries.len() ==> (#[trigger] entries[a]).0 < (#[trigger] entries[b]).0
        }),
    decreases upto,
{
    let all = label_entries(masked, targets, upto);
    if upto == 0 {
        assert(masked.take(0) =~= Seq::<bool>::empty());
    } else {
        let p = upto - 1;
        lemma_scattered(masked, targets, p as nat, position, class);
        let rest = label_entries(masked, targets, p as nat);
        let asked = (position as u32, class);
        assert(masked.take(upto as int).drop_last() =~= masked.take(p));
        assert(masked.take(upto as int).last() == masked[p]);
        if masked[p] {
            let here = (p as u32, targets[p]);
            if rest.contains(asked) {
                let a = choose|a: int| 0 <= a < rest.len() && rest[a] == asked;
                assert(all[a] == asked);
            }
            if here == asked {
                assert(all[rest.len() as int] == asked);
            }
            if all.contains(asked) {
                let a = choose|a: int| 0 <= a < all.len() && all[a] == asked;
                if a < rest.len() {
                    assert(rest[a] == asked);
                }
            }
        }
    }
}

/// A message names every number of its error under that number's own label.
pub proof fn law_a_message_names_what_it_is_about(e: LabelError)
    ensures
        ({
            let text = label_error_chars(e);
            match e {
                LabelError::LengthMismatch { view, clean } => {
                    &&& crate::text::names(text, "view has "@, view as nat)
                    &&& crate::text::names(text, " tokens, clean sequence has "@, clean as nat)
                },
                LabelError::SequenceMismatch { view_source, offered } => match view_source {
                    Some(src) => {
                        &&& crate::text::names(
                            text,
                            "view was masked from sequence "@,
                            src.value() as nat,
                        )
                        &&& crate::text::names(
                            text,
                            " but targets came from "@,
                            offered.value() as nat,
                        )
                    },
                    None => crate::text::names(
                        text,
                        "view has no clean source (it was built for sampling) but targets from sequence "@,
                        offered.value() as nat,
                    ),
                },
                LabelError::TokenOutOfRange { position, token, vocab } => {
                    &&& crate::text::names(text, "target token "@, token as nat)
                    &&& crate::text::names(text, " at position "@, position as nat)
                    &&& crate::text::names(text, " is outside vocabulary "@, vocab as nat)
                },
            }
        }),
{
    let none = Seq::<char>::empty();
    let text = label_error_chars(e);
    match e {
        LabelError::LengthMismatch { view, clean } => {
            let (a, b) = ("view has "@, " tokens, clean sequence has "@);
            crate::text::lemma_names_two(a, view as nat, b, clean as nat, none);
            assert(a + crate::text::decimal_chars(view as nat) + b + crate::text::decimal_chars(
                clean as nat,
            ) + none =~= text);
        },
        LabelError::SequenceMismatch { view_source, offered } => match view_source {
            Some(src) => {
                let (a, b) = ("view was masked from sequence "@, " but targets came from "@);
                let (x, y) = (src.value() as nat, offered.value() as nat);
                crate::text::lemma_names_two(a, x, b, y, none);
                assert(a + crate::text::decimal_chars(x) + b + crate::text::decimal_chars(y) + none
                    =~= text);
            },
            None => {
                let a =
                    "view has no clean source (it was built for sampling) but targets from sequence "@;
                let x = crate::text::decimal_chars(offered.value() as nat);
                crate::text::lemma_holds(none, a + x, " were offered"@);
                assert(none + (a + x) + " were offered"@ =~= text);
            },
        },
        LabelError::TokenOutOfRange { position, token, vocab } => {
            let (a, b, c) = ("target token "@, " at position "@, " is outside vocabulary "@);
            let z = crate::text::decimal_chars(vocab as nat);
            crate::text::lemma_names_two(a, token as nat, b, position as nat, c + z);
            let head = a + crate::text::decimal_chars(token as nat) + b
                + crate::text::decimal_chars(position as nat);
            assert(head + (c + z) =~= text);
            crate::text::lemma_holds(head, c + z, none);
            assert(head + (c + z) + none =~= text);
        },
    }
}

} // verus!
