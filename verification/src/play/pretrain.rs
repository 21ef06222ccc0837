//! Pretraining the backbone: which windows there are, and what each step
//! hands to the session.
use super::CHUNK;
use crate::corpus::{training_sequences, Document, TrainingSequence};
use crate::loss::{LabelError, LabelStats, MaskedDiffusionLoss};
use crate::rng::Rng;
use crate::train::{noise_sequence, LabelWrite, NoiseSampler, SparseLabels};
use crate::view::{IdSource, MaskToken, NoisedView};
use vstd::prelude::*;
use vstd::string::*;

verus! {

/// The seed of the generator that masks pretraining windows.
pub const PRETRAIN_SEED: u64 = 0xDA7A;

/// The windows of `documents` that hold at least one chunk of text, or an error
/// where there is none.
pub fn training_windows(documents: &[Document], n: usize, pad: u32) -> (windows: Result<
    Vec<TrainingSequence>,
    String,
>)
    requires
        n > 0,
    ensures
        ({
            let all = crate::corpus::all_windows(
                documents@,
                n as int,
                pad,
                CHUNK as nat,
                documents@.len() as int,
            );
            if all.len() == 0 {
                windows is Err && windows->Err_0@
                    == "no training windows: lower --min-tokens or pass more --train-docs"@
            } else {
                windows is Ok && crate::corpus::window_views(windows->Ok_0@) == all
            }
        }),
        windows matches Ok(list) ==> forall|i: int|
            0 <= i < list@.len() ==> (#[trigger] list@[i]).tokens@.len() == n,
{
    let windows: Vec<TrainingSequence> = training_sequences(documents, n, pad, CHUNK);
    proof {
        let views = crate::corpus::window_views(windows@);
        assert forall|i: int| 0 <= i < windows@.len() implies (#[trigger] windows@[i]).tokens@.len()
            == n by {
            crate::corpus::law_windows_have_one_length(
                documents@,
                n as int,
                pad,
                CHUNK as nat,
                documents@.len() as int,
                i,
            );
            assert(views[i] == windows@[i]@);
        }
    }
    if windows.len() == 0 {
        return Err(
            String::from_str("no training windows: lower --min-tokens or pass more --train-docs"),
        );
    }
    Ok(windows)
}

/// What one pretraining step hands to the session.
#[derive(Clone, Debug)]
pub struct PretrainStep {
    /// The changes to the labels buffer.
    pub labels: LabelWrite,
    /// What the labels contain.
    pub stats: LabelStats,
    /// The view the graph reads.
    pub view: NoisedView,
}

impl PretrainStep {
    /// Whether the step scores anything, and so is worth running.
    pub fn runs(&self) -> (b: bool)
        ensures
            b == (self.stats.scored > 0),
    {
        self.stats.contributes()
    }
}

/// Drives pretraining, one window after another.
#[derive(Clone, Debug)]
pub struct Pretrainer {
    mask: MaskToken,
    objective: MaskedDiffusionLoss,
    labels: SparseLabels,
    rng: Rng,
}

/// Whether a step is the one that masking `seq` from `seed` gives.
pub open spec fn steps_on(
    step: PretrainStep,
    before: Pretrainer,
    after: Pretrainer,
    seq: TrainingSequence,
) -> bool {
    exists|clean: crate::view::CleanSequence| #[trigger]
        crate::train::noised(
            NoiseSampler::Uniform,
            before.mask_token(),
            seq,
            before.seed(),
            clean,
            step.view,
        ) && crate::train::planned(
            before.sparse(),
            after.sparse(),
            step.labels,
            step.stats,
            before.loss(),
            step.view,
            clean,
        )
}

impl Pretrainer {
    /// The mask token.
    pub closed spec fn mask_token(self) -> MaskToken {
        self.mask
    }

    /// The objective.
    pub closed spec fn loss(self) -> MaskedDiffusionLoss {
        self.objective
    }

    /// What the labels buffer holds.
    pub closed spec fn sparse(self) -> SparseLabels {
        self.labels
    }

    /// Where the generator stands.
    pub closed spec fn seed(self) -> u64 {
        self.rng.seed()
    }

    /// The parts agree.
    pub open spec fn wf(self) -> bool {
        &&& self.sparse().wf()
        &&& self.sparse().width() == self.loss().vocab()
        &&& self.sparse().rows() <= 0x1_0000_0000
    }

    /// Pretraining over windows of `n` tokens, none of them taken yet.
    pub fn new(n: usize, vocab: usize, mask: MaskToken) -> (pretrainer: Self)
        requires
            n * vocab <= usize::MAX,
            n <= 0x1_0000_0000,
        ensures
            pretrainer.wf(),
            pretrainer.sparse().rows() == n,
            pretrainer.sparse().written().len() == 0,
            pretrainer.loss().vocab() == vocab,
            pretrainer.loss().floor().bits == crate::loss::DEFAULT_MIN_T,
            pretrainer.mask_token() == mask,
            pretrainer.seed() == PRETRAIN_SEED,
    {
        Pretrainer {
            mask,
            objective: MaskedDiffusionLoss::new(vocab),
            labels: SparseLabels::new(n, vocab),
            rng: Rng::new(PRETRAIN_SEED),
        }
    }

    /// Prepare step `i`, on the windows in turn: mask the window at a fresh
    /// level, and plan its labels.
    pub fn prepare(
        &mut self,
        windows: &[TrainingSequence],
        i: usize,
        ids: &mut IdSource,
    ) -> (result: Result<PretrainStep, LabelError>)
        requires
            old(self).wf(),
            windows@.len() > 0,
            windows@[i as int % windows@.len() as int].tokens@.len() == old(self).sparse().rows(),
        ensures
            final(self).wf(),
            final(self).sparse().rows() == old(self).sparse().rows(),
            final(self).loss() == old(self).loss(),
            final(self).mask_token() == old(self).mask_token(),
            crate::view::drawn(*old(ids), *final(ids), 1, 1),
            result matches Ok(step) ==> step.view@.id.value() == old(ids).views(),
            ({
                let seq = windows@[i as int % windows@.len() as int];
                let masked = crate::train::mask_draws(
                    NoiseSampler::Uniform.seed_after(old(self).seed()),
                    NoiseSampler::Uniform.level(old(self).seed()),
                    seq.content_len as nat,
                    seq.tokens@.len(),
                );
                &&& final(self).seed() == crate::train::noised_seed(
                    NoiseSampler::Uniform,
                    seq,
                    old(self).seed(),
                )
                &&& match crate::loss::token_fault(
                    masked,
                    seq.tokens@,
                    old(self).loss().vocab(),
                    seq.tokens@.len(),
                ) {
                    Some(fault) => result == Err::<PretrainStep, LabelError>(fault),
                    None => result is Ok && steps_on(
                        result->Ok_0,
                        *old(self),
                        *final(self),
                        seq,
                    ),
                }
            }),
    {
        let seq: &TrainingSequence = &windows[i % windows.len()];
        let (clean, view) = noise_sequence(
            &mut self.rng,
            NoiseSampler::Uniform,
            self.mask,
            seq,
            ids,
        );
        match self.labels.plan(self.objective, &view, &clean) {
            Ok((labels, stats)) => {
                let result: Result<PretrainStep, LabelError> = Ok(
                    PretrainStep { labels, stats, view },
                );
                proof {
                    assert(crate::train::noised(
                        NoiseSampler::Uniform,
                        old(self).mask_token(),
                        *seq,
                        old(self).seed(),
                        clean,
                        result->Ok_0.view,
                    ));
                    assert(steps_on(result->Ok_0, *old(self), *self, *seq));
                }
                result
            },
            Err(fault) => Err(fault),
        }
    }
}

} // verus!
