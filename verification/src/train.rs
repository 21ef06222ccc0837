//! The host training loop, up to what the graph session does.
//!
//! Each step is one sequence: sample `t`, mask, retrieve, and lay out what the
//! session is fed. The session itself runs outside this library: it is handed
//! a [`PreparedStep`] and gives back a loss.
use crate::binary32::{Binary32, ONE_BITS};
use crate::chunk::{chunk_queries, ChunkAdmission, ChunkedView};
use crate::config::CcaConfig;
use crate::corpus::{ChunkEmbedder, TrainingSequence};
use crate::generate::fill_neighbour_inputs;
use crate::model::NeighbourInput;
use crate::loss::{LabelError, LabelStats, MaskedDiffusionLoss};
use crate::retrieval::corpus::NeighbourCorpus;
use crate::retrieval::index::NeighbourIndex;
use crate::retrieval::leakage::LeakageGuard;
use crate::retrieval::{retrieve, Neighbours};
use crate::schedule::{NoiseLevel, Phase};
use crate::text::decimal;
use crate::view::{count_set, CleanSequence, IdSource, MaskToken, NoisedView};
use vstd::prelude::*;
use vstd::string::*;

pub use crate::rng::Rng;

verus! {

/// How the noise level is drawn each step.
#[derive(Clone, Copy, Debug, PartialEq)]
pub enum NoiseSampler {
    /// `t` uniform in `(0, 1]`.
    Uniform,
    /// A fixed level. For diagnostics and for the by-`t` evaluation bands,
    /// where averaging over a sampled `t` is exactly what hides the effect
    /// being measured.
    Fixed(Binary32),
}

impl Default for NoiseSampler {
    fn default() -> (sampler: Self)
        ensures
            sampler == NoiseSampler::Uniform,
    {
        NoiseSampler::Uniform
    }
}

impl NoiseSampler {
    /// The level drawn from a generator at `seed`.
    ///
    /// Zero is excluded: at `t = 0` nothing is masked, and the step scores
    /// nothing.
    pub open spec fn level(self, seed: u64) -> Binary32 {
        match self {
            NoiseSampler::Uniform => crate::schedule::saturated(
                (Binary32 {
                    bits: (Binary32 { bits: ONE_BITS }).difference_bits(
                        (Binary32 { bits: crate::rng::drawn_unit_bits(seed) }),
                    ),
                }),
            ),
            NoiseSampler::Fixed(t) => crate::schedule::saturated(t),
        }
    }

    /// Where the generator stands after the draw.
    pub open spec fn seed_after(self, seed: u64) -> u64 {
        match self {
            NoiseSampler::Uniform => crate::rng::advanced(seed),
            NoiseSampler::Fixed(t) => seed,
        }
    }

    /// Draw a noise level.
    pub fn sample(self, rng: &mut Rng) -> (t: NoiseLevel)
        ensures
            t.value() == self.level(old(rng).seed()),
            t.valid(),
            final(rng).seed() == self.seed_after(old(rng).seed()),
    {
        match self {
            NoiseSampler::Uniform => {
                let x: Binary32 = rng.next_f32();
                NoiseLevel::saturating(Binary32::from_bits(ONE_BITS).minus(x))
            },
            NoiseSampler::Fixed(t) => NoiseLevel::saturating(t),
        }
    }
}

/// Where retrieval queries are built from. There is exactly one correct
/// answer.
#[derive(Clone, Copy, Debug, PartialEq, Eq, Structural)]
pub enum QuerySource {
    /// The noised view the denoiser sees. The retriever may only see what the
    /// denoiser sees.
    NoisedView,
}

impl Default for QuerySource {
    fn default() -> (source: Self)
        ensures
            source == QuerySource::NoisedView,
    {
        QuerySource::NoisedView
    }
}

/// Training hyper-parameters that are not the model's shape.
#[derive(Clone, Copy, Debug)]
pub struct TrainingConfig {
    /// Retrieval shapes; must match the model's.
    pub cca: CcaConfig,
    /// Vocabulary, for the label tensor.
    pub vocab_size: usize,
    /// The `[MASK]` token.
    pub mask_token: MaskToken,
    /// How `t` is drawn.
    pub noise: NoiseSampler,
    /// Per-chunk retrieval admission.
    pub admission: ChunkAdmission,
    /// Whether retrieval runs at all.
    ///
    /// `false` gives the no-retrieval baseline the evaluation protocol
    /// compares against, without building a second model.
    pub retrieval_enabled: bool,
    /// Where queries come from. Leave at the default.
    pub query_source: QuerySource,
}

impl TrainingConfig {
    /// Defaults for a `cca` shape over a `vocab_size` vocabulary.
    pub fn new(cca: CcaConfig, vocab_size: usize, mask_token: MaskToken) -> (cfg: Self)
        ensures
            cfg.cca == cca,
            cfg.vocab_size == vocab_size,
            cfg.mask_token == mask_token,
            cfg.noise == NoiseSampler::Uniform,
            cfg.admission.limit().bits == 0x3F59_999A,
            cfg.retrieval_enabled,
            cfg.query_source == QuerySource::NoisedView,
    {
        TrainingConfig {
            cca,
            vocab_size,
            mask_token,
            noise: NoiseSampler::Uniform,
            admission: ChunkAdmission::default(),
            retrieval_enabled: true,
            query_source: QuerySource::default(),
        }
    }

    /// The shapes are valid and every tensor of a step can be held.
    pub open spec fn wf(self) -> bool {
        &&& self.cca.wf()
        &&& self.cca.l() * self.cca.k() * self.cca.r() <= usize::MAX
        &&& self.cca.n() * self.vocab_size <= usize::MAX
        &&& self.cca.n() <= 0x1_0000_0000
    }
}

/// What one training step did.
#[derive(Clone, Copy, Debug, PartialEq)]
pub struct StepReport {
    /// The objective, as the session reported it.
    pub loss: Binary32,
    /// The noise level drawn.
    pub noise_level: NoiseLevel,
    /// Positions that scored.
    pub scored: usize,
    /// Chunks that retrieved at least one neighbour.
    pub chunks_retrieved: usize,
    /// Whether the hard gate admitted retrieval at all.
    pub gate_open: bool,
}

/// Everything retrieval needs, borrowed for the duration of a step.
pub struct RetrievalSources<'a, I: NeighbourIndex, E: ChunkEmbedder> {
    /// The nearest-neighbour index.
    pub index: &'a I,
    /// Token storage behind it.
    pub corpus: &'a NeighbourCorpus,
    /// Which neighbours a document may retrieve.
    pub guard: &'a LeakageGuard,
    /// Embeds chunks of the noised view into queries. The same type that
    /// embedded the corpus.
    pub embedder: &'a mut E,
}

/// Why a step could not run.
#[derive(Clone, Copy, Debug, PartialEq, Eq, Structural)]
pub enum StepError {
    /// The sequence length does not match the configuration.
    LengthMismatch {
        /// The sequence's length.
        got: usize,
        /// The configured length.
        expected: usize,
    },
    /// The model was built with cached neighbours, so there is no neighbour
    /// token input to bind and the encoder is not in the graph to receive
    /// gradients.
    NeighboursNotEncoded,
}

impl StepError {
    /// What went wrong, in words.
    pub fn message(&self) -> (s: String)
        ensures
            s@ == match *self {
                StepError::LengthMismatch { got, expected } => "sequence has "@
                    + crate::text::decimal_chars(got as nat) + " tokens, configuration says "@
                    + crate::text::decimal_chars(expected as nat),
                StepError::NeighboursNotEncoded =>
                    "training needs NeighbourInput::Encoded so the neighbour encoder is in the graph and receives gradients"@,
            },
    {
        match self {
            StepError::LengthMismatch { got, expected } => {
                let mut s: String = String::from_str("sequence has ");
                s.append(decimal(*got as u64).as_str());
                s.append(" tokens, configuration says ");
                s.append(decimal(*expected as u64).as_str());
                s
            },
            StepError::NeighboursNotEncoded => String::from_str(
                "training needs NeighbourInput::Encoded so the neighbour encoder is in the graph and receives gradients",
            ),
        }
    }
}

/// Whether the sources are what they were, but for the embedder's own state.
pub open spec fn sources_kept<I: NeighbourIndex, E: ChunkEmbedder>(
    after: RetrievalSources<'_, I, E>,
    before: RetrievalSources<'_, I, E>,
) -> bool {
    &&& after.index == before.index
    &&& after.corpus == before.corpus
    &&& after.guard == before.guard
    &&& crate::chunk::encodes_alike(*after.embedder, *before.embedder)
}

/// The per-position decisions of a corruption at `t`: a fresh draw for each
/// of the first `content` positions, none for padding.
pub open spec fn mask_draws(seed: u64, t: Binary32, content: nat, upto: nat) -> Seq<bool>
    decreases upto,
{
    if upto == 0 {
        Seq::empty()
    } else {
        let i = (upto - 1) as nat;
        mask_draws(seed, t, content, i).push(
            i < content && (Binary32 {
                bits: crate::rng::drawn_unit_bits(crate::rng::advanced_by(seed, i)),
            }).is_less(t),
        )
    }
}

/// How many draws a corruption of `len` positions takes.
pub open spec fn draw_count(content: nat, len: nat) -> nat {
    if content < len {
        content
    } else {
        len
    }
}

/// Draw the decisions of a corruption at `t`.
pub fn draw_mask(rng: &mut Rng, t: NoiseLevel, content_len: usize, len: usize) -> (draws: Vec<bool>)
    ensures
        draws@ == mask_draws(old(rng).seed(), t.value(), content_len as nat, len as nat),
        draws@.len() == len,
        final(rng).seed() == crate::rng::advanced_by(
            old(rng).seed(),
            draw_count(content_len as nat, len as nat),
        ),
        forall|i: int| content_len <= i < len ==> !(#[trigger] draws@[i]),
{
    let mut draws: Vec<bool> = Vec::new();
    let ghost seed = rng.seed();
    let mut i: usize = 0;
    while i < len
        invariant
            i <= len,
            draws@ == mask_draws(seed, t.value(), content_len as nat, i as nat),
            draws@.len() == i,
            rng.seed() == crate::rng::advanced_by(seed, draw_count(content_len as nat, i as nat)),
            forall|j: int| content_len <= j < i ==> !(#[trigger] draws@[j]),
        decreases len - i,
    {
        let masks: bool = if i < content_len {
            rng.next_f32().less(t.get())
        } else {
            false
        };
        draws.push(masks);
        i = i + 1;
    }
    draws
}

/// Writes the labels tensor in place, touching only what changed.
///
/// The dense tensor is `n * vocab` numbers carrying at most `n` non-zeros. The
/// session's input buffer survives between steps, so the dense upload is
/// avoidable: keep the buffer zeroed, and each step clear only the entries
/// the previous step wrote before writing this step's.
#[derive(Clone, Debug)]
pub struct SparseLabels {
    seq_len: usize,
    vocab: usize,
    /// Flat offsets written last step, cleared before the next write.
    dirty: Vec<usize>,
}

/// Why a sparse label write could not run.
#[derive(Clone, Copy, Debug, PartialEq, Eq, Structural)]
pub enum SparseLabelError {
    /// The session has no input by that name.
    NoSuchInput,
    /// The buffer is not `seq_len * vocab` numbers of four bytes.
    SizeMismatch {
        /// The buffer's bytes.
        got: usize,
        /// The bytes it should have.
        expected: usize,
    },
}

impl SparseLabelError {
    /// What went wrong, in words.
    pub fn message(&self) -> (s: String)
        ensures
            s@ == match *self {
                SparseLabelError::NoSuchInput => "no such input on this session"@,
                SparseLabelError::SizeMismatch { got, expected } => "labels buffer is "@
                    + crate::text::decimal_chars(got as nat) + " bytes, expected "@
                    + crate::text::decimal_chars(expected as nat),
            },
    {
        match self {
            SparseLabelError::NoSuchInput => String::from_str("no such input on this session"),
            SparseLabelError::SizeMismatch { got, expected } => {
                let mut s: String = String::from_str("labels buffer is ");
                s.append(decimal(*got as u64).as_str());
                s.append(" bytes, expected ");
                s.append(decimal(*expected as u64).as_str());
                s
            },
        }
    }
}

/// One step's changes to the labels buffer: offsets to clear, then offsets to
/// set to the weight.
#[derive(Clone, Debug)]
pub struct LabelWrite {
    /// Offsets the previous step wrote.
    pub clear: Vec<usize>,
    /// Offsets this step writes.
    pub set: Vec<usize>,
    /// What it writes there.
    pub weight: Binary32,
}

/// The flat offsets of the masked positions below `upto`: each at its target.
pub open spec fn label_offsets(masked: Seq<bool>, targets: Seq<u32>, vocab: int, upto: nat) -> Seq<
    usize,
>
    decreases upto,
{
    if upto == 0 {
        Seq::empty()
    } else {
        let i = upto - 1;
        let rest = label_offsets(masked, targets, vocab, i as nat);
        if masked[i] {
            rest.push((i * vocab + targets[i]) as usize)
        } else {
            rest
        }
    }
}

/// `buffer` with `value` at each of `offsets`.
pub open spec fn filled(
    buffer: Seq<Binary32>,
    offsets: Seq<usize>,
    value: Binary32,
) -> Seq<Binary32>
    decreases offsets.len(),
{
    if offsets.len() == 0 {
        buffer
    } else {
        filled(buffer, offsets.drop_last(), value).update(offsets.last() as int, value)
    }
}

/// Write `value` at each of `offsets`.
fn fill_at(buffer: &mut Vec<Binary32>, offsets: &Vec<usize>, value: Binary32)
    requires
        forall|j: int| 0 <= j < offsets@.len() ==> #[trigger] offsets@[j] < old(buffer)@.len(),
    ensures
        final(buffer)@ == filled(old(buffer)@, offsets@, value),
        final(buffer)@.len() == old(buffer)@.len(),
{
    let ghost start = buffer@;
    let mut j: usize = 0;
    while j < offsets.len()
        invariant
            j <= offsets@.len(),
            buffer@.len() == start.len(),
            forall|i: int| 0 <= i < offsets@.len() ==> #[trigger] offsets@[i] < start.len(),
            buffer@ == filled(start, offsets@.take(j as int), value),
        decreases offsets.len() - j,
    {
        proof {
            assert(offsets@.take(j + 1).drop_last() =~= offsets@.take(j as int));
        }
        buffer.set(offsets[j], value);
        j = j + 1;
    }
    proof {
        assert(offsets@.take(j as int) =~= offsets@);
    }
}

impl LabelWrite {
    /// What the buffer holds afterwards.
    pub open spec fn result(self, buffer: Seq<Binary32>) -> Seq<Binary32> {
        filled(filled(buffer, self.clear@, (Binary32 { bits: 0 })), self.set@, self.weight)
    }

    /// Every offset lies inside a buffer of `len` numbers.
    pub open spec fn within(self, len: nat) -> bool {
        &&& forall|j: int| 0 <= j < self.clear@.len() ==> #[trigger] self.clear@[j] < len
        &&& forall|j: int| 0 <= j < self.set@.len() ==> #[trigger] self.set@[j] < len
    }

    /// Make the changes.
    pub fn apply(&self, buffer: &mut Vec<Binary32>)
        requires
            self.within(old(buffer)@.len()),
        ensures
            final(buffer)@ == self.result(old(buffer)@),
            final(buffer)@.len() == old(buffer)@.len(),
    {
        fill_at(buffer, &self.clear, Binary32::from_bits(0));
        fill_at(buffer, &self.set, self.weight);
    }
}

impl SparseLabels {
    /// Rows of the labels input.
    pub closed spec fn rows(self) -> nat {
        self.seq_len as nat
    }

    /// Width of the labels input.
    pub closed spec fn width(self) -> nat {
        self.vocab as nat
    }

    /// The offsets that may be non-zero.
    pub closed spec fn written(self) -> Seq<usize> {
        self.dirty@
    }

    /// Every offset written lies inside the tensor.
    pub open spec fn wf(self) -> bool {
        &&& self.rows() * self.width() <= usize::MAX
        &&& forall|j: int|
            0 <= j < self.written().len() ==> #[trigger] self.written()[j] < self.rows()
                * self.width()
    }

    /// Whether `buffer` is zero but for what was written last.
    pub open spec fn tracks(self, buffer: Seq<Binary32>) -> bool {
        &&& buffer.len() == self.rows() * self.width()
        &&& forall|i: int|
            0 <= i < buffer.len() && (forall|j: int|
                0 <= j < self.written().len() ==> #[trigger] self.written()[j] != i) ==> (
            #[trigger] buffer[i]).bits == 0
    }

    /// A writer for an `[seq_len, vocab]` labels input.
    pub fn new(seq_len: usize, vocab: usize) -> (labels: Self)
        requires
            seq_len * vocab <= usize::MAX,
        ensures
            labels.wf(),
            labels.rows() == seq_len,
            labels.width() == vocab,
            labels.written().len() == 0,
    {
        SparseLabels { seq_len, vocab, dirty: Vec::new() }
    }

    /// Check the size of the buffer behind the labels input, in bytes, or that
    /// there is one.
    pub fn check_buffer(&self, size: Option<usize>) -> (result: Result<(), SparseLabelError>)
        requires
            self.rows() * self.width() * 4 <= usize::MAX,
        ensures
            result == match size {
                None => Err::<(), SparseLabelError>(SparseLabelError::NoSuchInput),
                Some(got) => if got == self.rows() * self.width() * 4 {
                    Ok(())
                } else {
                    Err(
                        SparseLabelError::SizeMismatch {
                            got,
                            expected: (self.rows() * self.width() * 4) as usize,
                        },
                    )
                },
            },
    {
        match size {
            None => Err(SparseLabelError::NoSuchInput),
            Some(got) => {
                proof {
                    assert(self.seq_len * self.vocab >= 0) by (nonlinear_arith);
                }
                let expected: usize = self.seq_len * self.vocab * 4;
                if got == expected {
                    Ok(())
                } else {
                    Err(SparseLabelError::SizeMismatch { got, expected })
                }
            },
        }
    }

    /// Forget what was written: the whole buffer has been zeroed.
    ///
    /// Must run once before the first write: a freshly allocated input buffer
    /// need not be zeroed, and every later step only undoes its own
    /// predecessor's writes.
    pub fn zero(&mut self)
        ensures
            final(self).rows() == old(self).rows(),
            final(self).width() == old(self).width(),
            final(self).written().len() == 0,
            old(self).wf() ==> final(self).wf(),
    {
        self.dirty.clear();
    }

    /// Plan the write of the labels for `view`, clearing the previous step's
    /// entries.
    pub fn plan(
        &mut self,
        loss: MaskedDiffusionLoss,
        view: &NoisedView,
        clean: &CleanSequence,
    ) -> (result: Result<(LabelWrite, LabelStats), LabelError>)
        requires
            old(self).wf(),
            view.wf(),
            view@.tokens.len() == old(self).rows(),
            loss.vocab() == old(self).width(),
            old(self).rows() <= 0x1_0000_0000,
        ensures
            final(self).wf(),
            final(self).rows() == old(self).rows(),
            final(self).width() == old(self).width(),
            match crate::loss::label_fault(*view, *clean, loss.vocab()) {
                Some(fault) => result == Err::<(LabelWrite, LabelStats), LabelError>(fault)
                    && final(self).written() == old(self).written(),
                None => result is Ok && planned(
                    *old(self),
                    *final(self),
                    result->Ok_0.0,
                    result->Ok_0.1,
                    loss,
                    *view,
                    *clean,
                ),
            },
    {
        let mut entries: Vec<(u32, u32)> = Vec::new();
        let stats: LabelStats = match loss.scatter(view, clean, &mut entries) {
            Ok(stats) => stats,
            Err(fault) => {
                return Err(fault);
            },
        };
        let vocab: usize = self.vocab;
        let rows: usize = self.seq_len;
        let ghost masked = view@.masked;
        let ghost targets = clean@;
        let mut set: Vec<usize> = Vec::new();
        let mut kept: Vec<usize> = Vec::new();
        proof {
            lemma_entries(masked, targets, loss.vocab(), targets.len());
        }
        let mut j: usize = 0;
        while j < entries.len()
            invariant
                j <= entries@.len(),
                rows * vocab <= usize::MAX,
                forall|i: int|
                    0 <= i < entries@.len() ==> (#[trigger] entries@[i]).0 < rows && entries@[i].1
                        < vocab,
                set@ == Seq::new(
                    j as nat,
                    |i: int| (entries@[i].0 * vocab + entries@[i].1) as usize,
                ),
                kept@ == set@,
                forall|i: int| 0 <= i < j ==> #[trigger] set@[i] < rows * vocab,
            decreases entries.len() - j,
        {
            let (position, token) = entries[j];
            proof {
                assert(entries@[j as int].0 < rows);
                crate::chunk::lemma_slot_in_range(position as int, rows as int, vocab as int);
            }
            let offset: usize = position as usize * vocab + token as usize;
            set.push(offset);
            kept.push(offset);
            j = j + 1;
        }
        proof {
            lemma_offsets_of_entries(masked, targets, vocab as int, targets.len());
            assert(set@ =~= label_offsets(masked, targets, vocab as int, targets.len()));
        }
        let mut clear: Vec<usize> = kept;
        std::mem::swap(&mut clear, &mut self.dirty);
        Ok((LabelWrite { clear, set, weight: stats.weight }, stats))
    }

    /// Write the labels for `view` into `buffer`, clearing the previous
    /// step's entries.
    ///
    /// Where the buffer is zero but for what was written last, it holds the
    /// dense label tensor afterwards.
    pub fn write(
        &mut self,
        buffer: &mut Vec<Binary32>,
        loss: MaskedDiffusionLoss,
        view: &NoisedView,
        clean: &CleanSequence,
    ) -> (result: Result<LabelStats, LabelError>)
        requires
            old(self).wf(),
            old(self).tracks(old(buffer)@),
            view.wf(),
            view@.tokens.len() == old(self).rows(),
            loss.vocab() == old(self).width(),
            old(self).rows() <= 0x1_0000_0000,
        ensures
            final(self).wf(),
            final(self).tracks(final(buffer)@),
            match crate::loss::label_fault(*view, *clean, loss.vocab()) {
                Some(fault) => result == Err::<LabelStats, LabelError>(fault) && final(buffer)@
                    == old(buffer)@,
                None => result is Ok && final(buffer)@ == crate::loss::dense_labels(
                    view@.masked,
                    clean@,
                    loss.vocab() as nat,
                    loss.weight_at(view@.t),
                ) && result->Ok_0.scored == crate::view::count_true(view@.masked)
                    && result->Ok_0.seq_len == view@.tokens.len() && result->Ok_0.weight
                    == loss.weight_at(view@.t),
            },
    {
        let ghost before = *self;
        match self.plan(loss, view, clean) {
            Err(fault) => Err(fault),
            Ok((write, stats)) => {
                let ghost held = buffer@;
                write.apply(buffer);
                proof {
                    law_sparse_write_is_dense(before, *self, write, stats, loss, *view, *clean, held);
                }
                Ok(stats)
            },
        }
    }
}

/// What a planned write is: it clears what was written last, and sets the
/// weight at every masked position's target.
pub open spec fn planned(
    before: SparseLabels,
    after: SparseLabels,
    write: LabelWrite,
    stats: LabelStats,
    loss: MaskedDiffusionLoss,
    view: NoisedView,
    clean: CleanSequence,
) -> bool {
    &&& write.clear@ == before.written()
    &&& write.set@ == label_offsets(view@.masked, clean@, loss.vocab() as int, clean@.len())
    &&& write.weight == loss.weight_at(view@.t)
    &&& write.within(before.rows() * before.width())
    &&& after.written() == write.set@
    &&& stats.scored == crate::view::count_true(view@.masked)
    &&& stats.seq_len == view@.tokens.len()
    &&& stats.weight == loss.weight_at(view@.t)
}

proof fn lemma_entries(masked: Seq<bool>, targets: Seq<u32>, vocab: usize, upto: nat)
    requires
        upto <= masked.len(),
        upto <= targets.len() <= 0x1_0000_0000,
        crate::loss::token_fault(masked, targets, vocab, targets.len()) is None,
    ensures
        forall|j: int|
            0 <= j < crate::loss::label_entries(masked, targets, upto).len() ==> (
            #[trigger] crate::loss::label_entries(masked, targets, upto)[j]).0 < upto
                && crate::loss::label_entries(masked, targets, upto)[j].1 < vocab,
    decreases upto,
{
    if upto > 0 {
        let i = upto - 1;
        lemma_entries(masked, targets, vocab, i as nat);
        if masked[i] {
            crate::loss::lemma_targets_in_vocabulary(masked, targets, vocab, targets.len(), i);
        }
        let rest = crate::loss::label_entries(masked, targets, i as nat);
        let all = crate::loss::label_entries(masked, targets, upto);
        assert forall|j: int| 0 <= j < all.len() implies (#[trigger] all[j]).0 < upto && all[j].1
            < vocab by {
            if j < rest.len() {
                assert(all[j] == rest[j]);
            } else {
                assert(all[j] == (i as u32, targets[i]));
            }
        }
    }
}

proof fn lemma_offsets_of_entries(masked: Seq<bool>, targets: Seq<u32>, vocab: int, upto: nat)
    requires
        upto <= masked.len(),
        upto <= targets.len() <= 0x1_0000_0000,
    ensures
        ({
            let entries = crate::loss::label_entries(masked, targets, upto);
            label_offsets(masked, targets, vocab, upto) == Seq::new(
                entries.len(),
                |i: int| (entries[i].0 * vocab + entries[i].1) as usize,
            )
        }),
    decreases upto,
{
    let entries = crate::loss::label_entries(masked, targets, upto);
    let all = Seq::new(entries.len(), |i: int| (entries[i].0 * vocab + entries[i].1) as usize);
    if upto > 0 {
        lemma_offsets_of_entries(masked, targets, vocab, (upto - 1) as nat);
    }
    assert(label_offsets(masked, targets, vocab, upto) =~= all);
}

/// What a filled buffer holds: the value at each offset, what was there
/// elsewhere.
proof fn lemma_filled(buffer: Seq<Binary32>, offsets: Seq<usize>, value: Binary32, i: int)
    requires
        0 <= i < buffer.len(),
        forall|j: int| 0 <= j < offsets.len() ==> #[trigger] offsets[j] < buffer.len(),
    ensures
        filled(buffer, offsets, value).len() == buffer.len(),
        (exists|j: int| 0 <= j < offsets.len() && #[trigger] offsets[j] == i) ==> filled(
            buffer,
            offsets,
            value,
        )[i] == value,
        (forall|j: int| 0 <= j < offsets.len() ==> #[trigger] offsets[j] != i) ==> filled(
            buffer,
            offsets,
            value,
        )[i] == buffer[i],
    decreases offsets.len(),
{
    if offsets.len() > 0 {
        let rest = offsets.drop_last();
        assert(offsets.last() == offsets[offsets.len() - 1]);
        assert forall|j: int| 0 <= j < rest.len() implies #[trigger] rest[j] < buffer.len() by {
            assert(rest[j] == offsets[j]);
        }
        lemma_filled(buffer, rest, value, i);
        if exists|j: int| 0 <= j < offsets.len() && #[trigger] offsets[j] == i {
            let j = choose|j: int| 0 <= j < offsets.len() && #[trigger] offsets[j] == i;
            if j < rest.len() {
                assert(rest[j] == i);
            }
        }
        if forall|j: int| 0 <= j < offsets.len() ==> #[trigger] offsets[j] != i {
            assert forall|j: int| 0 <= j < rest.len() implies #[trigger] rest[j] != i by {
                assert(rest[j] == offsets[j]);
            }
        }
    }
}

/// The offset of a masked position is its target's, and no other position
/// has it.
proof fn lemma_label_offsets(
    masked: Seq<bool>,
    targets: Seq<u32>,
    vocab: usize,
    upto: nat,
    i: int,
)
    requires
        upto <= masked.len(),
        masked.len() == targets.len(),
        masked.len() * vocab <= usize::MAX,
        crate::loss::token_fault(masked, targets, vocab, targets.len()) is None,
        0 <= i < masked.len() * vocab,
    ensures
        (exists|j: int|
            0 <= j < label_offsets(masked, targets, vocab as int, upto).len()
                && #[trigger] label_offsets(masked, targets, vocab as int, upto)[j] == i) <==> (i
            / vocab as int) < upto && masked[i / vocab as int] && i % vocab as int == targets[i
            / vocab as int],
        forall|j: int|
            0 <= j < label_offsets(masked, targets, vocab as int, upto).len() ==> #[trigger]
            label_offsets(masked, targets, vocab as int, upto)[j] < masked.len() * vocab,
    decreases upto,
{
    let v = vocab as int;
    let all = label_offsets(masked, targets, v, upto);
    vstd::arithmetic::div_mod::lemma_fundamental_div_mod(i, v);
    assert(0 <= i / v < masked.len()) by (nonlinear_arith)
        requires
            i == v * (i / v) + i % v,
            0 <= i % v < v,
            0 <= i < masked.len() * v,
            v > 0,
    ;
    if upto > 0 {
        let p = upto - 1;
        let rest = label_offsets(masked, targets, v, p as nat);
        lemma_label_offsets(masked, targets, vocab, p as nat, i);
        let here = p * v + targets[p];
        if masked[p] {
            crate::loss::lemma_targets_in_vocabulary(masked, targets, vocab, targets.len(), p);
            crate::chunk::lemma_slot_in_range(p, masked.len() as int, v);
            vstd::arithmetic::div_mod::lemma_fundamental_div_mod_converse(
                here,
                v,
                p,
                targets[p] as int,
            );
            assert(all.last() == here);
            assert(here == i <==> i / v == p && i % v == targets[p]) by {
                vstd::arithmetic::mul::lemma_mul_is_commutative(v, i / v);
            }
            if exists|j: int| 0 <= j < all.len() && #[trigger] all[j] == i {
                let j = choose|j: int| 0 <= j < all.len() && #[trigger] all[j] == i;
                if j < rest.len() {
                    assert(rest[j] == i);
                }
            }
            if here == i {
                assert(all[all.len() - 1] == i);
            } else if exists|j: int| 0 <= j < rest.len() && #[trigger] rest[j] == i {
                let j = choose|j: int| 0 <= j < rest.len() && #[trigger] rest[j] == i;
                assert(all[j] == i);
            }
        }
    }
}

/// Writing only what changed leaves the buffer as a dense upload would: where
/// it was zero but for the last write, it holds the dense label tensor.
pub proof fn law_sparse_write_is_dense(
    before: SparseLabels,
    after: SparseLabels,
    write: LabelWrite,
    stats: LabelStats,
    loss: MaskedDiffusionLoss,
    view: NoisedView,
    clean: CleanSequence,
    buffer: Seq<Binary32>,
)
    requires
        before.wf(),
        before.tracks(buffer),
        view.wf(),
        view@.tokens.len() == before.rows(),
        loss.vocab() == before.width(),
        crate::loss::label_fault(view, clean, loss.vocab()) is None,
        after.rows() == before.rows(),
        after.width() == before.width(),
        planned(before, after, write, stats, loss, view, clean),
    ensures
        write.result(buffer) == crate::loss::dense_labels(
            view@.masked,
            clean@,
            loss.vocab() as nat,
            loss.weight_at(view@.t),
        ),
        after.tracks(write.result(buffer)),
{
    let masked = view@.masked;
    let targets = clean@;
    let vocab = loss.vocab();
    let v = vocab as int;
    let zero = Binary32 { bits: 0 };
    let cleared = filled(buffer, write.clear@, zero);
    let result = write.result(buffer);
    let dense = crate::loss::dense_labels(masked, targets, vocab as nat, loss.weight_at(view@.t));
    let set = write.set@;
    assert forall|i: int| 0 <= i < buffer.len() implies result.len() == buffer.len() && #[trigger] result[i]
        == dense[i] && ((forall|j: int| 0 <= j < set.len() ==> #[trigger] set[j] != i)
        ==> result[i].bits == 0) by {
        lemma_filled(buffer, write.clear@, zero, i);
        lemma_filled(cleared, set, write.weight, i);
        lemma_label_offsets(masked, targets, vocab, targets.len(), i);
        vstd::arithmetic::div_mod::lemma_fundamental_div_mod(i, v);
        assert(0 <= i / v < masked.len()) by (nonlinear_arith)
            requires
                i == v * (i / v) + i % v,
                0 <= i % v < v,
                0 <= i < masked.len() * v,
                v > 0,
        ;
        if forall|j: int| 0 <= j < write.clear@.len() ==> #[trigger] write.clear@[j] != i {
            assert forall|j: int| 0 <= j < before.written().len() implies #[trigger] before.written()[j]
                != i by {
                assert(write.clear@[j] != i);
            }
            assert(buffer[i].bits == 0);
        }
        assert(cleared[i].bits == 0);
        assert(cleared[i] == zero);
    }
    assert(result.len() == buffer.len()) by {
        if buffer.len() > 0 {
            assert(result[0] == dense[0]);
        } else {
            assert(write.clear@.len() == 0) by {
                if write.clear@.len() > 0 {
                    assert(write.clear@[0] < before.rows() * before.width());
                }
            }
            assert(set.len() == 0) by {
                if set.len() > 0 {
                    assert(set[0] < before.rows() * before.width());
                }
            }
        }
    }
    assert(result =~= dense);
}

/// What the graph is fed at one step, besides the tokens of the view.
#[derive(Clone, Debug)]
pub struct StepInputs {
    /// The noise level, once per row.
    pub t_col: Vec<Binary32>,
    /// One in the rows of a chunk that has neighbours, zero in the others.
    pub retrieval_mask: Vec<Binary32>,
    /// The key/value tokens of all chunks.
    pub neighbour_tokens: Vec<u32>,
}

/// Whether `inputs` are those of `view` with `neighbours`.
pub open spec fn feeds(
    inputs: StepInputs,
    cca: CcaConfig,
    mask_token: MaskToken,
    t: NoiseLevel,
    neighbours: Option<Neighbours>,
) -> bool {
    &&& inputs.t_col@ == Seq::new(cca.n() as nat, |i: int| t.value())
    &&& inputs.retrieval_mask@ == crate::generate::retrieval_mask_of(cca, neighbours)
    &&& inputs.neighbour_tokens@ == crate::generate::blocks_of(
        cca,
        mask_token.0,
        neighbours,
        cca.l() as int,
    )
}

/// Lay out what the graph is fed for a view at `t` with `neighbours`.
pub fn step_inputs(
    cca: CcaConfig,
    mask_token: MaskToken,
    t: NoiseLevel,
    neighbours: Option<&Neighbours>,
) -> (inputs: StepInputs)
    requires
        cca.wf(),
        cca.l() * cca.k() * cca.r() <= usize::MAX,
        crate::generate::fits(crate::generate::held(neighbours), cca),
    ensures
        feeds(inputs, cca, mask_token, t, crate::generate::held(neighbours)),
{
    let n: usize = cca.seq_len();
    let mut t_col: Vec<Binary32> = Vec::new();
    let mut i: usize = 0;
    while i < n
        invariant
            i <= n,
            t_col@ == Seq::new(i as nat, |j: int| t.value()),
        decreases n - i,
    {
        t_col.push(t.get());
        assert(t_col@ =~= Seq::new((i + 1) as nat, |j: int| t.value()));
        i = i + 1;
    }
    let mut retrieval_mask: Vec<Binary32> = Vec::new();
    let mut neighbour_tokens: Vec<u32> = Vec::new();
    fill_neighbour_inputs(
        cca,
        mask_token.0,
        neighbours,
        &mut retrieval_mask,
        &mut neighbour_tokens,
    );
    StepInputs { t_col, retrieval_mask, neighbour_tokens }
}

/// A step that has something to run.
#[derive(Clone, Debug)]
pub struct StepRun {
    /// What the graph is fed.
    pub inputs: StepInputs,
    /// Chunks that retrieved at least one neighbour.
    pub chunks_retrieved: usize,
    /// Whether the hard gate admitted retrieval at all.
    pub gate_open: bool,
}

/// Everything a step hands to the session.
#[derive(Clone, Debug)]
pub struct PreparedStep {
    /// Whether the labels buffer is to be zeroed first.
    pub zero_labels: bool,
    /// The changes to the labels buffer.
    pub labels: LabelWrite,
    /// What the labels contain.
    pub stats: LabelStats,
    /// The view the graph reads.
    pub view: NoisedView,
    /// What to run, or `None` where the step would score nothing.
    pub run: Option<StepRun>,
}

/// Drives training over a built session.
#[derive(Clone, Debug)]
pub struct Trainer {
    cfg: TrainingConfig,
    loss: MaskedDiffusionLoss,
    rng: Rng,
    /// Writes only the entries that changed.
    labels: SparseLabels,
    /// The labels buffer is zeroed once, lazily, on the first step.
    labels_zeroed: bool,
    steps: usize,
}

/// What masking `seq` gives, at a level of `noise` and with `mask_token`, from
/// a generator at `seed`.
pub open spec fn noised(
    noise: NoiseSampler,
    mask_token: MaskToken,
    seq: TrainingSequence,
    seed: u64,
    clean: CleanSequence,
    view: NoisedView,
) -> bool {
    let t = noise.level(seed);
    &&& clean@ == seq.tokens@
    &&& view.wf()
    &&& view@.t.value() == t
    &&& view@.mask_token == mask_token
    &&& view@.source == Some(clean.identity())
    &&& view@.masked == mask_draws(
        noise.seed_after(seed),
        t,
        seq.content_len as nat,
        seq.tokens@.len(),
    )
    &&& view@.tokens == crate::view::masked_tokens(seq.tokens@, view@.masked, mask_token)
}

/// Where the generator stands after masking `seq`.
pub open spec fn noised_seed(noise: NoiseSampler, seq: TrainingSequence, seed: u64) -> u64 {
    crate::rng::advanced_by(
        noise.seed_after(seed),
        draw_count(seq.content_len as nat, seq.tokens@.len()),
    )
}

/// What masking `seq` with a generator at `seed` gives.
pub open spec fn corrupted(
    cfg: TrainingConfig,
    seq: TrainingSequence,
    seed: u64,
    clean: CleanSequence,
    view: NoisedView,
) -> bool {
    noised(cfg.noise, cfg.mask_token, seq, seed, clean, view)
}

/// Where the generator stands after masking `seq`.
pub open spec fn corrupted_seed(cfg: TrainingConfig, seq: TrainingSequence, seed: u64) -> u64 {
    noised_seed(cfg.noise, seq, seed)
}

/// Mask a training sequence at a freshly drawn noise level.
///
/// Padding is never masked, so it never scores.
pub fn noise_sequence(
    rng: &mut Rng,
    noise: NoiseSampler,
    mask_token: MaskToken,
    seq: &TrainingSequence,
    ids: &mut IdSource,
) -> (pair: (CleanSequence, NoisedView))
    ensures
        noised(noise, mask_token, *seq, old(rng).seed(), pair.0, pair.1),
        forall|i: int|
            seq.content_len <= i < seq.tokens@.len() ==> !(#[trigger] pair.1@.masked[i]),
        pair.0.identity().value() == old(ids).sequences(),
        pair.1@.id.value() == old(ids).views(),
        crate::view::drawn(*old(ids), *final(ids), 1, 1),
        final(rng).seed() == noised_seed(noise, *seq, old(rng).seed()),
{
    let t: NoiseLevel = noise.sample(rng);
    let mut tokens: Vec<u32> = Vec::new();
    tokens.extend_from_slice(seq.tokens.as_slice());
    proof {
        assert(tokens@ =~= seq.tokens@);
    }
    let clean: CleanSequence = CleanSequence::new(tokens, ids);
    let draws: Vec<bool> = draw_mask(rng, t, seq.content_len, seq.tokens.len());
    let view: NoisedView = clean.mask_at(t, mask_token, draws, ids);
    proof {
        crate::view::lemma_one_draw(old(ids).views());
        crate::view::lemma_one_draw(old(ids).sequences());
    }
    (clean, view)
}

/// Whether masking `seq` with a generator at `seed` masks only tokens that are
/// in the vocabulary.
pub open spec fn masks_known_tokens(cfg: TrainingConfig, seq: TrainingSequence, seed: u64) -> bool {
    let masked = mask_draws(
        cfg.noise.seed_after(seed),
        cfg.noise.level(seed),
        seq.content_len as nat,
        seq.tokens@.len(),
    );
    forall|i: int|
        0 <= i < seq.tokens@.len() && #[trigger] masked[i] ==> seq.tokens@[i] < cfg.vocab_size
}

/// Only content is ever masked, so a sequence whose content is all in the
/// vocabulary masks known tokens whatever is drawn.
pub proof fn law_known_content_masks_known_tokens(
    cfg: TrainingConfig,
    seq: TrainingSequence,
    seed: u64,
)
    requires
        forall|i: int|
            0 <= i < seq.tokens@.len() && i < seq.content_len ==> #[trigger] seq.tokens@[i]
                < cfg.vocab_size,
    ensures
        masks_known_tokens(cfg, seq, seed),
{
    let start = cfg.noise.seed_after(seed);
    let t = cfg.noise.level(seed);
    let content = seq.content_len as nat;
    let len = seq.tokens@.len();
    assert forall|i: int|
        0 <= i < len && #[trigger] mask_draws(start, t, content, len)[i] implies seq.tokens@[i]
        < cfg.vocab_size by {
        lemma_only_content_is_drawn(start, t, content, len, i);
    }
}

proof fn lemma_only_content_is_drawn(seed: u64, t: Binary32, content: nat, upto: nat, i: int)
    requires
        0 <= i < upto,
    ensures
        mask_draws(seed, t, content, upto).len() == upto,
        mask_draws(seed, t, content, upto)[i] ==> i < content,
    decreases upto,
{
    lemma_draws_len(seed, t, content, upto);
    lemma_draws_len(seed, t, content, (upto - 1) as nat);
    if i < upto - 1 {
        lemma_only_content_is_drawn(seed, t, content, (upto - 1) as nat, i);
    }
}

pub proof fn lemma_draws_len(seed: u64, t: Binary32, content: nat, upto: nat)
    ensures
        mask_draws(seed, t, content, upto).len() == upto,
    decreases upto,
{
    if upto > 0 {
        lemma_draws_len(seed, t, content, (upto - 1) as nat);
    }
}

/// What retrieval for a step gives: nothing where it is switched off or the
/// training gate is closed, and else what the index answers to the queries of
/// this very view.
pub open spec fn retrieved_for<I: NeighbourIndex, E: ChunkEmbedder>(
    neighbours: Option<Neighbours>,
    cfg: TrainingConfig,
    view: NoisedView,
    document: crate::retrieval::corpus::DocumentId,
    embedder: E,
    index: I,
    guard: LeakageGuard,
    corpus: NeighbourCorpus,
) -> bool {
    &&& neighbours is Some <==> cfg.retrieval_enabled && crate::schedule::gate_open(
        view@.t,
        Phase::Training,
    )
    &&& crate::generate::fits(neighbours, cfg.cca)
    &&& neighbours matches Some(found) ==> exists|queries: crate::chunk::ChunkQueries| #[trigger]
        crate::retrieval::retrieved_for_view(
            found,
            queries,
            view,
            cfg.cca,
            cfg.admission,
            embedder,
            index,
            corpus,
            guard,
            document,
        )
}

/// Whether two windows differ, if at all, only where `masked` says.
pub open spec fn agree_outside(
    a: TrainingSequence,
    b: TrainingSequence,
    masked: Seq<bool>,
) -> bool {
    &&& a.tokens@.len() == b.tokens@.len()
    &&& a.content_len == b.content_len
    &&& forall|i: int|
        0 <= i < a.tokens@.len() && !(#[trigger] masked[i]) ==> a.tokens@[i] == b.tokens@[i]
}

/// The answers do not leak into retrieval: two windows that differ only in the
/// tokens that a corruption masks give views that show the same, so what is
/// retrieved for one is, but for the view's identity, what is retrieved for the
/// other.
pub proof fn law_masked_tokens_do_not_reach_retrieval<I: NeighbourIndex, E: ChunkEmbedder>(
    cfg: TrainingConfig,
    a: TrainingSequence,
    b: TrainingSequence,
    seed: u64,
    clean_a: CleanSequence,
    clean_b: CleanSequence,
    view_a: NoisedView,
    view_b: NoisedView,
    found: Neighbours,
    queries: crate::chunk::ChunkQueries,
    embedder: E,
    index: I,
    corpus: NeighbourCorpus,
    guard: LeakageGuard,
    document: crate::retrieval::corpus::DocumentId,
)
    requires
        corrupted(cfg, a, seed, clean_a, view_a),
        corrupted(cfg, b, seed, clean_b, view_b),
        agree_outside(a, b, view_a@.masked),
        crate::retrieval::retrieved_for_view(
            found,
            queries,
            view_a,
            cfg.cca,
            cfg.admission,
            embedder,
            index,
            corpus,
            guard,
            document,
        ),
    ensures
        crate::chunk::show_alike(view_a, view_b),
        crate::retrieval::retrieved_for_view(
            found.of_view(view_b@.id),
            queries.of_view(view_b@.id),
            view_b,
            cfg.cca,
            cfg.admission,
            embedder,
            index,
            corpus,
            guard,
            document,
        ),
{
    assert(view_a@.masked == view_b@.masked);
    assert(view_a@.tokens =~= view_b@.tokens);
    assert(view_a@.t.value() == view_b@.t.value());
    crate::schedule::lemma_level_is_its_value(view_a@.t, view_b@.t);
    crate::retrieval::law_retrieval_sees_only_what_is_shown(
        found,
        queries,
        view_a,
        view_b,
        cfg.cca,
        cfg.admission,
        embedder,
        index,
        corpus,
        guard,
        document,
    );
}

/// How many chunks have neighbours.
pub open spec fn chunks_with_neighbours(neighbours: Option<Neighbours>) -> nat {
    match neighbours {
        Some(found) => crate::view::count_true(
            Seq::new(found@.l, |i: int| found.has_neighbours(i)),
        ),
        None => 0,
    }
}

/// Whether a step's run is the one for `neighbours`.
pub open spec fn runs_with(
    run: StepRun,
    cfg: TrainingConfig,
    view: NoisedView,
    neighbours: Option<Neighbours>,
) -> bool {
    &&& feeds(run.inputs, cfg.cca, cfg.mask_token, view@.t, neighbours)
    &&& run.gate_open == neighbours is Some
    &&& run.chunks_retrieved == chunks_with_neighbours(neighbours)
}

impl Trainer {
    /// The configuration.
    pub closed spec fn config(self) -> TrainingConfig {
        self.cfg
    }

    /// Where the generator stands.
    pub closed spec fn seed(self) -> u64 {
        self.rng.seed()
    }

    /// Steps taken.
    pub closed spec fn taken(self) -> nat {
        self.steps as nat
    }

    /// What the labels buffer was last given.
    pub closed spec fn sparse(self) -> SparseLabels {
        self.labels
    }

    /// Whether the labels buffer has been zeroed.
    pub closed spec fn zeroed(self) -> bool {
        self.labels_zeroed
    }

    /// The builder of labels.
    pub closed spec fn objective(self) -> MaskedDiffusionLoss {
        self.loss
    }

    /// The parts agree with the configuration.
    pub open spec fn wf(self) -> bool {
        &&& self.config().wf()
        &&& self.sparse().wf()
        &&& self.sparse().rows() == self.config().cca.n()
        &&& self.sparse().width() == self.config().vocab_size
        &&& self.objective().vocab() == self.config().vocab_size
        &&& self.objective().floor().bits == crate::loss::DEFAULT_MIN_T
        &&& !self.zeroed() ==> self.sparse().written().len() == 0
    }

    /// A trainer for `cfg`, seeded for reproducibility.
    pub fn new(cfg: TrainingConfig, seed: u64) -> (trainer: Self)
        requires
            cfg.wf(),
        ensures
            trainer.wf(),
            trainer.config() == cfg,
            trainer.seed() == seed,
            trainer.taken() == 0,
            !trainer.zeroed(),
    {
        Trainer {
            cfg,
            loss: MaskedDiffusionLoss::new(cfg.vocab_size),
            rng: Rng::new(seed),
            labels: SparseLabels::new(cfg.cca.seq_len(), cfg.vocab_size),
            labels_zeroed: false,
            steps: 0,
        }
    }

    /// Steps taken.
    pub fn steps(&self) -> (steps: usize)
        ensures
            steps == self.taken(),
    {
        self.steps
    }

    /// The generator, for callers that want to draw from the same stream.
    pub fn rng(&mut self) -> (rng: &mut Rng)
        ensures
            rng.seed() == old(self).seed(),
            final(self).seed() == final(rng).seed(),
            final(self).config() == old(self).config(),
            final(self).taken() == old(self).taken(),
            final(self).sparse() == old(self).sparse(),
            final(self).zeroed() == old(self).zeroed(),
            final(self).objective() == old(self).objective(),
    {
        &mut self.rng
    }

    /// Mask a training sequence at a freshly drawn noise level.
    ///
    /// Padding is never masked, so it never scores.
    pub fn corrupt(&mut self, seq: &TrainingSequence, ids: &mut IdSource) -> (pair: (
        CleanSequence,
        NoisedView,
    ))
        ensures
            corrupted(old(self).config(), *seq, old(self).seed(), pair.0, pair.1),
            forall|i: int|
                seq.content_len <= i < seq.tokens@.len() ==> !(#[trigger] pair.1@.masked[i]),
            pair.0.identity().value() == old(ids).sequences(),
            pair.1@.id.value() == old(ids).views(),
            crate::view::drawn(*old(ids), *final(ids), 1, 1),
            final(self).seed() == corrupted_seed(old(self).config(), *seq, old(self).seed()),
            final(self).config() == old(self).config(),
            final(self).taken() == old(self).taken(),
            final(self).sparse() == old(self).sparse(),
            final(self).zeroed() == old(self).zeroed(),
            final(self).objective() == old(self).objective(),
    {
        noise_sequence(&mut self.rng, self.cfg.noise, self.cfg.mask_token, seq, ids)
    }

    /// The neighbours the training step for `view` retrieves.
    fn retrieve_for<I: NeighbourIndex, E: ChunkEmbedder>(
        &self,
        view: &NoisedView,
        seq: &TrainingSequence,
        sources: &mut RetrievalSources<'_, I, E>,
    ) -> (neighbours: Option<Neighbours>)
        requires
            self.wf(),
            view.wf(),
            view@.tokens.len() == self.config().cca.n(),
            old(sources).embedder.dim() == old(sources).index.width(),
            old(sources).corpus@.r == self.config().cca.r(),
            self.config().cca.l() * old(sources).embedder.dim() <= usize::MAX,
        ensures
            retrieved_for(
                neighbours,
                self.config(),
                *view,
                seq.document,
                *old(sources).embedder,
                *old(sources).index,
                *old(sources).guard,
                *old(sources).corpus,
            ),
            sources_kept(*final(sources), *old(sources)),
    {
        if !self.cfg.retrieval_enabled {
            return None;
        }
        match ChunkedView::new(view, self.cfg.cca) {
            Ok(chunked) => {
                match chunk_queries(
                    chunked,
                    Phase::Training,
                    self.cfg.admission,
                    sources.embedder,
                ) {
                    Some(queries) => {
                        let found: Neighbours = retrieve(
                            &queries,
                            self.cfg.cca,
                            sources.index,
                            sources.corpus,
                            sources.guard,
                            seq.document,
                        );
                        proof {
                            assert(crate::retrieval::retrieved_for_view(
                                found,
                                queries,
                                *view,
                                self.cfg.cca,
                                self.cfg.admission,
                                *old(sources).embedder,
                                *old(sources).index,
                                *old(sources).corpus,
                                *old(sources).guard,
                                seq.document,
                            ));
                        }
                        Some(found)
                    },
                    None => None,
                }
            },
            Err(_) => None,
        }
    }

    /// Prepare one training step: everything up to the session.
    ///
    /// The step has nothing to run when it would score nothing, because the
    /// masking process happened to leave every position visible. Its loss and
    /// gradient would be exactly zero.
    pub fn prepare<I: NeighbourIndex, E: ChunkEmbedder>(
        &mut self,
        encoder_in_graph: bool,
        seq: &TrainingSequence,
        sources: &mut RetrievalSources<'_, I, E>,
        ids: &mut IdSource,
    ) -> (result: Result<PreparedStep, StepError>)
        requires
            old(self).wf(),
            old(sources).embedder.dim() == old(sources).index.width(),
            old(sources).corpus@.r == old(self).config().cca.r(),
            old(self).config().cca.l() * old(sources).embedder.dim() <= usize::MAX,
            masks_known_tokens(old(self).config(), *seq, old(self).seed()),
        ensures
            final(self).wf(),
            final(self).config() == old(self).config(),
            final(self).taken() == old(self).taken(),
            sources_kept(*final(sources), *old(sources)),
            seq.tokens@.len() != old(self).config().cca.n() ==> result == Err::<
                PreparedStep,
                StepError,
            >(
                StepError::LengthMismatch {
                    got: seq.tokens@.len() as usize,
                    expected: old(self).config().cca.n(),
                },
            ),
            seq.tokens@.len() == old(self).config().cca.n() && !encoder_in_graph ==> result == Err::<
                PreparedStep,
                StepError,
            >(StepError::NeighboursNotEncoded),
            result is Err ==> *final(self) == *old(self) && *final(ids) == *old(ids),
            seq.tokens@.len() == old(self).config().cca.n() && encoder_in_graph ==> result is Ok,
            result matches Ok(step) ==> {
                &&& step.view@.id.value() == old(ids).views()
                &&& crate::view::drawn(*old(ids), *final(ids), 1, 1)
                &&& final(self).zeroed()
                &&& step.zero_labels == !old(self).zeroed()
                &&& final(self).seed() == corrupted_seed(
                    old(self).config(),
                    *seq,
                    old(self).seed(),
                )
                &&& exists|clean: CleanSequence| #[trigger]
                    corrupted(old(self).config(), *seq, old(self).seed(), clean, step.view)
                        && planned(
                        old(self).sparse(),
                        final(self).sparse(),
                        step.labels,
                        step.stats,
                        old(self).objective(),
                        step.view,
                        clean,
                    )
                &&& step.run is Some <==> crate::view::count_true(step.view@.masked) > 0
                &&& step.run is Some ==> exists|neighbours: Option<Neighbours>| #[trigger]
                    retrieved_for(
                        neighbours,
                        old(self).config(),
                        step.view,
                        seq.document,
                        *old(sources).embedder,
                        *old(sources).index,
                        *old(sources).guard,
                        *old(sources).corpus,
                    ) && runs_with(step.run->0, old(self).config(), step.view, neighbours)
            },
    {
        let cca: CcaConfig = self.cfg.cca;
        if seq.tokens.len() != cca.seq_len() {
            return Err(
                StepError::LengthMismatch { got: seq.tokens.len(), expected: cca.seq_len() },
            );
        }
        if !encoder_in_graph {
            return Err(StepError::NeighboursNotEncoded);
        }
        let (clean, view) = self.corrupt(seq, ids);
        let zero_labels: bool = !self.labels_zeroed;
        if zero_labels {
            self.labels.zero();
            self.labels_zeroed = true;
        }
        proof {
            lemma_no_token_fault(view@.masked, clean@, self.cfg.vocab_size, clean@.len());
            if zero_labels {
                assert(self.labels.written() =~= old(self).sparse().written());
            }
        }
        let ghost sparse_before = self.labels;
        let planned_write = self.labels.plan(self.loss, &view, &clean);
        let (labels, stats) = match planned_write {
            Ok(pair) => pair,
            Err(_) => {
                proof {
                    assert(false);
                }
                return Err(StepError::NeighboursNotEncoded);
            },
        };
        let run: Option<StepRun> = if stats.contributes() {
            let neighbours: Option<Neighbours> = self.retrieve_for(&view, seq, sources);
            let borrowed: Option<&Neighbours> = neighbours.as_ref();
            proof {
                assert(crate::generate::held(borrowed) == neighbours);
            }
            let inputs: StepInputs = step_inputs(
                cca,
                self.cfg.mask_token,
                view.noise_level(),
                borrowed,
            );
            let chunks_retrieved: usize = match &neighbours {
                Some(found) => {
                    let mask: Vec<bool> = found.chunk_mask();
                    count_set(mask.as_slice())
                },
                None => 0,
            };
            let gate_open: bool = neighbours.is_some();
            let run = StepRun { inputs, chunks_retrieved, gate_open };
            proof {
                assert(runs_with(run, self.cfg, view, neighbours));
            }
            Some(run)
        } else {
            None
        };
        Ok(PreparedStep { zero_labels, labels, stats, view, run })
    }

    /// Record that the session ran `step` and reported `loss`.
    ///
    /// `None` where the step had nothing to run.
    pub fn complete(&mut self, step: &PreparedStep, loss: Binary32) -> (report: Option<StepReport>)
        requires
            old(self).wf(),
            old(self).taken() < usize::MAX,
        ensures
            final(self).wf(),
            final(self).config() == old(self).config(),
            final(self).seed() == old(self).seed(),
            final(self).sparse() == old(self).sparse(),
            final(self).zeroed() == old(self).zeroed(),
            report is Some <==> step.run is Some,
            final(self).taken() == old(self).taken() + (if step.run is Some {
                1nat
            } else {
                0nat
            }),
            report matches Some(r) ==> {
                &&& r.loss == loss
                &&& r.noise_level == step.view@.t
                &&& r.scored == step.stats.scored
                &&& r.chunks_retrieved == step.run->0.chunks_retrieved
                &&& r.gate_open == step.run->0.gate_open
            },
    {
        match &step.run {
            Some(run) => {
                self.steps = self.steps + 1;
                Some(
                    StepReport {
                        loss,
                        noise_level: step.view.noise_level(),
                        scored: step.stats.scored,
                        chunks_retrieved: run.chunks_retrieved,
                        gate_open: run.gate_open,
                    },
                )
            },
            None => None,
        }
    }
}

/// Where every masked target is in the vocabulary, no token is at fault.
pub proof fn lemma_no_token_fault(masked: Seq<bool>, targets: Seq<u32>, vocab: usize, upto: nat)
    requires
        upto <= targets.len(),
        forall|i: int| 0 <= i < targets.len() && masked[i] ==> #[trigger] targets[i] < vocab,
    ensures
        crate::loss::token_fault(masked, targets, vocab, upto) is None,
    decreases upto,
{
    if upto > 0 {
        lemma_no_token_fault(masked, targets, vocab, (upto - 1) as nat);
    }
}

/// Which optimizer the session applies.
#[derive(Clone, Copy, Debug, PartialEq)]
pub enum Optimizer {
    /// Plain SGD.
    Sgd {
        /// Learning rate.
        lr: Binary32,
    },
    /// Adam.
    Adam {
        /// Learning rate.
        lr: Binary32,
        /// First-moment decay.
        beta1: Binary32,
        /// Second-moment decay.
        beta2: Binary32,
        /// Denominator floor.
        eps: Binary32,
    },
}

impl Optimizer {
    /// Adam at `lr` with the usual decay constants: `0.9`, `0.999` and
    /// `1e-8`.
    pub fn adam(lr: Binary32) -> (optimizer: Self)
        ensures
            optimizer == (Optimizer::Adam {
                lr,
                beta1: Binary32 { bits: 0x3F66_6666 },
                beta2: Binary32 { bits: 0x3F7F_BE77 },
                eps: Binary32 { bits: 0x322B_CC77 },
            }),
    {
        Optimizer::Adam {
            lr,
            beta1: Binary32::from_bits(0x3F66_6666),
            beta2: Binary32::from_bits(0x3F7F_BE77),
            eps: Binary32::from_bits(0x322B_CC77),
        }
    }
}

/// Whether a model was built for training rather than for sampling.
pub fn check_trainable(neighbours: NeighbourInput) -> (result: Result<(), StepError>)
    ensures
        result == match neighbours {
            NeighbourInput::Encoded => Ok::<(), StepError>(()),
            NeighbourInput::Cached => Err(StepError::NeighboursNotEncoded),
        },
{
    match neighbours {
        NeighbourInput::Encoded => Ok(()),
        NeighbourInput::Cached => Err(StepError::NeighboursNotEncoded),
    }
}

/// The decision at one position.
pub proof fn lemma_mask_draw(seed: u64, t: Binary32, content: nat, upto: nat, i: int)
    requires
        0 <= i < upto,
    ensures
        mask_draws(seed, t, content, upto).len() == upto,
        mask_draws(seed, t, content, upto)[i] == (i < content && (Binary32 {
            bits: crate::rng::drawn_unit_bits(crate::rng::advanced_by(seed, i as nat)),
        }).is_less(t)),
    decreases upto,
{
    let last = (upto - 1) as nat;
    if i < last {
        lemma_mask_draw(seed, t, content, last, i);
    } else if last > 0 {
        lemma_mask_draw(seed, t, content, last, 0);
    } else {
        assert(mask_draws(seed, t, content, 0).len() == 0);
    }
}

/// Masking decides position by position: the draw for the level comes first, and
/// then every position of the content has a draw of its own, which masks it
/// where it is below the level. A masked position shows the mask token, every
/// other the token of the sequence, and padding is never masked.
pub proof fn law_a_position_is_masked_by_its_own_draw(
    noise: NoiseSampler,
    mask_token: MaskToken,
    seq: TrainingSequence,
    seed: u64,
    clean: CleanSequence,
    view: NoisedView,
    i: int,
)
    requires
        noised(noise, mask_token, seq, seed, clean, view),
        0 <= i < seq.tokens@.len(),
    ensures
        view@.tokens.len() == seq.tokens@.len(),
        view@.masked.len() == seq.tokens@.len(),
        ({
            let draws = match noise {
                NoiseSampler::Uniform => (i + 1) as nat,
                NoiseSampler::Fixed(_) => i as nat,
            };
            let draw = Binary32 {
                bits: crate::rng::drawn_unit_bits(crate::rng::advanced_by(seed, draws)),
            };
            &&& view@.masked[i] == (i < seq.content_len && draw.is_less(view@.t.value()))
            &&& view@.tokens[i] == if view@.masked[i] {
                mask_token.0
            } else {
                seq.tokens@[i]
            }
        }),
{
    let start = noise.seed_after(seed);
    lemma_mask_draw(start, view@.t.value(), seq.content_len as nat, seq.tokens@.len(), i);
    match noise {
        NoiseSampler::Uniform => {
            lemma_advanced_on(seed, i as nat);
        },
        NoiseSampler::Fixed(_) => {},
    }
}

/// One draw more first is one draw more in all.
proof fn lemma_advanced_on(seed: u64, draws: nat)
    ensures
        crate::rng::advanced_by(crate::rng::advanced(seed), draws) == crate::rng::advanced_by(
            seed,
            draws + 1,
        ),
    decreases draws,
{
    if draws > 0 {
        lemma_advanced_on(seed, (draws - 1) as nat);
    } else {
        assert(crate::rng::advanced_by(seed, 0) == seed);
        assert(crate::rng::advanced_by(crate::rng::advanced(seed), 0) == crate::rng::advanced(
            seed,
        ));
    }
}

/// More noise masks more: with the same draws, whatever is masked at a level is
/// masked at every level above it. At the top level the whole content is masked,
/// and at zero nothing is.
pub proof fn law_more_noise_masks_more(
    seed: u64,
    low: NoiseLevel,
    high: NoiseLevel,
    content: nat,
    len: nat,
    i: int,
)
    requires
        low.valid(),
        high.valid(),
        low.value().is_at_most(high.value()),
        0 <= i < len,
    ensures
        mask_draws(seed, low.value(), content, len)[i] ==> mask_draws(
            seed,
            high.value(),
            content,
            len,
        )[i],
        mask_draws(seed, low.value(), content, len)[i] ==> i < content,
        high.value().units() == crate::binary32::one_units() ==> (mask_draws(
            seed,
            high.value(),
            content,
            len,
        )[i] <==> i < content),
        low.value().units() == 0 ==> !mask_draws(seed, low.value(), content, len)[i],
{
    lemma_mask_draw(seed, low.value(), content, len, i);
    lemma_mask_draw(seed, high.value(), content, len, i);
    crate::rng::law_unit_draws_are_below_one(crate::rng::advanced_by(seed, i as nat));
}

/// The level of a step: drawn at random it is one less a draw from the unit
/// interval, so that it is above zero and at most one, and where it is fixed it
/// is the level that was asked for.
pub proof fn law_a_drawn_level_is_one_less_a_draw(seed: u64, t: Binary32)
    ensures
        ({
            let one = crate::binary32::one_units();
            let draw = Binary32 { bits: crate::rng::drawn_unit_bits(seed) };
            let level = NoiseSampler::Uniform.level(seed);
            &&& level.finite() && 0 < level.units() <= one
            &&& crate::binary32::is_nearest((one - draw.units()) as nat, 1, level.bits as nat)
        }),
        crate::schedule::in_unit_interval(t) ==> NoiseSampler::Fixed(t).level(seed) == t,
{
    crate::rng::law_one_less_a_draw_is_positive(seed);
    crate::rng::law_unit_draws_are_below_one(seed);
    crate::binary32::lemma_one_units();
    let r = crate::rng::drawn_unit_bits(seed);
    crate::arithmetic::lemma_one_minus(r);
    let one = crate::binary32::one_units();
    crate::binary32::lemma_nearest_exists(
        (one - crate::binary32::magnitude(r as nat)) as nat,
        1,
    );
    assert(crate::binary32::magnitude(0) == 0) by (nonlinear_arith);
}

/// What a step feeds is what its own view retrieved: the level in every row, and
/// at token `i` of slot `j` of a chunk the token `i` of the corpus passage that
/// slot `j` of that chunk names, where the hard gate is open and the chunk
/// retrieved something.
pub proof fn law_a_step_feeds_what_its_view_retrieved<I: NeighbourIndex, E: ChunkEmbedder>(
    run: StepRun,
    cfg: TrainingConfig,
    view: NoisedView,
    neighbours: Option<Neighbours>,
    document: crate::retrieval::corpus::DocumentId,
    embedder: E,
    index: I,
    guard: LeakageGuard,
    corpus: NeighbourCorpus,
    chunk: int,
    j: int,
    i: int,
    row: int,
)
    requires
        cfg.wf(),
        corpus.wf(),
        corpus@.r == cfg.cca.r(),
        retrieved_for(neighbours, cfg, view, document, embedder, index, guard, corpus),
        runs_with(run, cfg, view, neighbours),
        0 <= chunk < cfg.cca.l(),
        0 <= j < cfg.cca.k(),
        0 <= i < cfg.cca.r(),
        0 <= row < cfg.cca.n(),
    ensures
        run.inputs.t_col@[row] == view@.t.value(),
        run.gate_open <==> cfg.retrieval_enabled && crate::schedule::gate_open(
            view@.t,
            Phase::Training,
        ),
        !run.gate_open ==> run.inputs.retrieval_mask@[row].bits == 0,
        run.inputs.retrieval_mask@[row].bits == ONE_BITS <==> run.gate_open
            && neighbours->0.has_neighbours(row / cfg.cca.m() as int),
        run.gate_open ==> (neighbours->0.id_at(chunk, j) matches Some(id) ==> (id.0
            < corpus@.documents.len() ==> run.inputs.neighbour_tokens@[(chunk * cfg.cca.k() + j)
            * cfg.cca.r() + i] == corpus@.tokens[id.0 * cfg.cca.r() + i])),
{
    let cca = cfg.cca;
    cca.lemma_chunks();
    crate::generate::law_a_chunk_is_fed_its_own_neighbours(
        cca,
        cfg.mask_token.0,
        neighbours,
        chunk,
        j,
        i,
        0,
    );
    if neighbours is Some {
        let found = neighbours->0;
        let queries = choose|queries: crate::chunk::ChunkQueries| #[trigger]
            crate::retrieval::retrieved_for_view(
                found,
                queries,
                view,
                cca,
                cfg.admission,
                embedder,
                index,
                corpus,
                guard,
                document,
            );
        crate::retrieval::law_slots_hold_their_neighbour(
            found,
            queries,
            cca,
            index,
            corpus,
            guard,
            document,
            chunk,
            j,
        );
        let named = found.id_at(chunk, j)->0;
        if found.id_at(chunk, j) is Some && named.0 < corpus@.documents.len() {
            let id = named.0 as int;
            let r = cca.r() as int;
            let held = corpus@.documents.len() as int;
            assert(0 <= id * r && id * r + r <= held * r) by (nonlinear_arith)
                requires
                    0 <= id < held,
                    r > 0,
            ;
            let (l, k) = (cca.l() as int, cca.k() as int);
            let at = chunk * k + j;
            assert(0 <= at * r && at * r + r <= l * k * r) by (nonlinear_arith)
                requires
                    at == chunk * k + j,
                    0 <= chunk < l,
                    0 <= j < k,
                    r > 0,
            ;
            let mine = crate::retrieval::corpus::slot(found@.tokens, at, r);
            let theirs = crate::retrieval::corpus::slot(corpus@.tokens, id, r);
            assert(mine[i] == found@.tokens[at * r + i]);
            assert(theirs[i] == corpus@.tokens[id * r + i]);
        }
    }
}

/// A step uses every draw once: the level takes one where it is drawn, every
/// content position of the sequence takes one, and the next step goes on behind
/// them.
pub proof fn law_the_next_step_draws_behind_this_one(
    noise: NoiseSampler,
    seq: TrainingSequence,
    seed: u64,
)
    ensures
        ({
            let content = if seq.content_len < seq.tokens@.len() {
                seq.content_len as nat
            } else {
                seq.tokens@.len()
            };
            let level = match noise {
                NoiseSampler::Uniform => 1nat,
                NoiseSampler::Fixed(_) => 0nat,
            };
            noised_seed(noise, seq, seed) == crate::rng::advanced_by(seed, level + content)
        }),
{
    let content = draw_count(seq.content_len as nat, seq.tokens@.len());
    match noise {
        NoiseSampler::Uniform => {
            lemma_advanced_on(seed, content);
        },
        NoiseSampler::Fixed(_) => {},
    }
}

/// A planned write clears what the last step wrote, writes the weight of the level
/// where a masked position has its own token, and nowhere else; and it scores as
/// many positions as are masked.
pub proof fn law_a_planned_write_scores_the_masked_positions(
    before: SparseLabels,
    after: SparseLabels,
    write: LabelWrite,
    stats: LabelStats,
    loss: MaskedDiffusionLoss,
    view: NoisedView,
    clean: CleanSequence,
    i: int,
    class: int,
)
    requires
        planned(before, after, write, stats, loss, view, clean),
        view@.masked.len() == clean@.len(),
        clean@.len() * loss.vocab() <= usize::MAX,
        forall|p: int|
            0 <= p < clean@.len() && #[trigger] view@.masked[p] ==> clean@[p] < loss.vocab(),
        0 <= i < clean@.len(),
        0 <= class < loss.vocab(),
    ensures
        write.set@.contains((i * loss.vocab() + class) as usize) <==> view@.masked[i] && class
            == clean@[i],
        write.set@.len() == crate::view::count_true(view@.masked),
        stats.scored == write.set@.len(),
        write.clear@ == before.written(),
        after.written() == write.set@,
{
    let vocab = loss.vocab() as int;
    lemma_offset_set(view@.masked, clean@, vocab, clean@.len(), i, class);
    assert(view@.masked.take(clean@.len() as int) =~= view@.masked);
}

proof fn lemma_offset_set(
    masked: Seq<bool>,
    targets: Seq<u32>,
    vocab: int,
    upto: nat,
    i: int,
    class: int,
)
    requires
        upto <= masked.len(),
        masked.len() == targets.len(),
        targets.len() * vocab <= usize::MAX,
        forall|p: int| 0 <= p < targets.len() && #[trigger] masked[p] ==> targets[p] < vocab,
        0 <= i < targets.len(),
        0 <= class < vocab,
    ensures
        label_offsets(masked, targets, vocab, upto).contains((i * vocab + class) as usize) <==> i
            < upto && masked[i] && class == targets[i],
        label_offsets(masked, targets, vocab, upto).len() == crate::view::count_true(
            masked.take(upto as int),
        ),
    decreases upto,
{
    let all = label_offsets(masked, targets, vocab, upto);
    if upto == 0 {
        assert(masked.take(0) =~= Seq::<bool>::empty());
    } else {
        let p = upto - 1;
        lemma_offset_set(masked, targets, vocab, p as nat, i, class);
        let rest = label_offsets(masked, targets, vocab, p as nat);
        assert(masked.take(upto as int).drop_last() =~= masked.take(p));
        assert(masked.take(upto as int).last() == masked[p]);
        if masked[p] {
            let here = (p * vocab + targets[p]) as usize;
            let asked = (i * vocab + class) as usize;
            crate::chunk::lemma_slot_in_range(p, targets.len() as int, vocab);
            crate::chunk::lemma_slot_in_range(i, targets.len() as int, vocab);
            assert(here == p * vocab + targets[p] && asked == i * vocab + class);
            vstd::arithmetic::div_mod::lemma_fundamental_div_mod_converse(
                here as int,
                vocab,
                p,
                targets[p] as int,
            );
            vstd::arithmetic::div_mod::lemma_fundamental_div_mod_converse(
                asked as int,
                vocab,
                i,
                class,
            );
            assert(here == asked <==> i == p && class == targets[p]);
            if rest.contains(asked) {
                let a = choose|a: int| 0 <= a < rest.len() && rest[a] == asked;
                assert(all[a] == asked);
            }
            if here == asked {
                assert(all[rest.len() as int] == asked);
            }
            if all.contains(asked) {
                let a = choose|a: int| 0 <= a < all.len() && all[a] == asked;
                if a < rest.len() {
                    assert(rest[a] == asked);
                }
            }
        }
    }
}

} // verus!
