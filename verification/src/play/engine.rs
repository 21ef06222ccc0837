//! The engine behind a conversation: what is retrieved from, and what a prompt
//! becomes.
use super::EMBED_DIM;
use crate::config::CcaConfig;
use crate::corpus::{build_corpus, ChunkEmbedder, Document, HashedBagEmbedder};
use crate::generate::generate;
use crate::retrieval::corpus::{DocumentId, NeighbourCorpus};
use crate::retrieval::index::ExactIndex;
use crate::retrieval::leakage::LeakageGuard;
use crate::sample::{Denoiser, RetrievalContext, SamplingConfig};
use crate::shard::{CorpusShard, ShardError};
use crate::tokenizer::{decode_ids, encode_prompt};
use crate::view::{IdSource, MaskToken};
use vstd::prelude::*;
use vstd::string::*;

verus! {

/// The first `max` documents, or all of them where there are fewer.
pub open spec fn first_of<T>(documents: Seq<T>, max: nat) -> Seq<T> {
    if documents.len() > max {
        documents.take(max as int)
    } else {
        documents
    }
}

/// The first `max` documents of a shard.
pub fn load_docs(bytes: &[u8], max: usize) -> (documents: Result<Vec<Document>, ShardError>)
    ensures
        match crate::shard::shard_fault(bytes@, None) {
            Some(fault) => documents == Err::<Vec<Document>, ShardError>(fault),
            None => documents is Ok && crate::shard::all_contents(documents->Ok_0@) == first_of(
                crate::shard::documents_at(
                    bytes@,
                    crate::bytes::wide_word(bytes@, 20) as nat,
                ),
                max as nat,
            ),
        },
{
    match CorpusShard::read(bytes, None) {
        Ok(shard) => {
            let mut documents: Vec<Document> = shard.documents;
            let ghost all = documents@;
            if documents.len() > max {
                documents.truncate(max);
            }
            proof {
                assert(documents@ =~= first_of(all, max as nat));
                assert(crate::shard::all_contents(documents@) =~= first_of(
                    crate::shard::all_contents(all),
                    max as nat,
                ));
            }
            Ok(documents)
        },
        Err(fault) => Err(fault),
    }
}

/// What is retrieved from.
#[derive(Clone, Debug)]
pub struct IndexParts {
    /// The passages.
    pub corpus: NeighbourCorpus,
    /// The index over them.
    pub index: ExactIndex,
    /// What embedded them, and embeds the queries.
    pub embedder: HashedBagEmbedder,
}

/// Whether `embedder` embeds a span by the single tokens and the bigrams in it
/// that hold no mask token.
pub open spec fn embeds_bigrams(embedder: HashedBagEmbedder, mask: MaskToken) -> bool {
    &&& embedder.buckets() == EMBED_DIM
    &&& forall|
        span: Seq<u32>,
        t: Option<crate::schedule::NoiseLevel>,
        vector: Seq<crate::binary32::Binary32>,
    | #[trigger]
        embedder.embeds(span, t, vector) <==> vector == crate::corpus::normalised(
            crate::corpus::bag_orders(span, EMBED_DIM as nat, mask.0, 2),
        )
}

/// Whether `parts` index the passages of `documents`, embedded by their
/// single tokens and bigrams.
pub open spec fn indexes(
    parts: IndexParts,
    documents: Seq<Document>,
    cca: CcaConfig,
    mask: MaskToken,
) -> bool {
    &&& embeds_bigrams(parts.embedder, mask)
    &&& parts.corpus.wf()
    &&& parts.corpus@.r == cca.r()
    &&& parts.corpus@.dim == EMBED_DIM
    &&& crate::corpus::corpus_holds(
        parts.corpus,
        crate::corpus::all_records(
            documents,
            cca.m() as int,
            cca.r() as int,
            documents.len() as int,
        ),
        parts.embedder,
    )
    &&& parts.index.dim() == EMBED_DIM
    &&& parts.index.flat() == parts.corpus@.embeddings
    &&& parts.index.count() == parts.corpus@.documents.len()
}

/// Index the passages of `documents`.
pub fn index_documents(documents: &[Document], cca: CcaConfig, mask: MaskToken) -> (parts:
    IndexParts)
    requires
        cca.wf(),
        cca.m() <= cca.r(),
    ensures
        indexes(parts, documents@, cca, mask),
{
    let mut embedder: HashedBagEmbedder = HashedBagEmbedder::bigram(EMBED_DIM, mask.0);
    proof {
        assert forall|d: int| 0 <= d < documents@.len() implies crate::corpus::matched_chunks_fit(
            (#[trigger] documents@[d]).tokens@.len() as int,
            cca.m() as int,
            cca.r() as int,
        ) by {
            let len = documents@[d].tokens@.len() as int;
            if len >= cca.r() {
                vstd::arithmetic::div_mod::lemma_fundamental_div_mod(len - cca.r(), cca.m() as int);
                let (q, m) = ((len - cca.r()) / cca.m() as int, cca.m() as int);
                assert(q * m == m * q) by (nonlinear_arith);
            }
        }
    }
    let ghost fresh = embedder;
    proof {
        assert(embeds_bigrams(fresh, mask));
    }
    let corpus: NeighbourCorpus = build_corpus(documents, cca, &mut embedder);
    proof {
        assert(embedder.dim() == embedder.buckets() && fresh.dim() == fresh.buckets());
        assert(embeds_bigrams(embedder, mask));
    }
    let index: ExactIndex = ExactIndex::build(&corpus);
    IndexParts { corpus, index, embedder }
}

/// Index the shard of index documents, where there is one: the first
/// `max_docs` of it.
///
/// Where there is no shard, or it cannot be read, retrieval is empty; in the
/// second case the error says why.
pub fn load_index(shard: Option<&[u8]>, cca: CcaConfig, mask: MaskToken, max_docs: usize) -> (pair:
    (IndexParts, Option<ShardError>))
    requires
        cca.wf(),
        cca.m() <= cca.r(),
    ensures
        shard is None ==> indexes(pair.0, Seq::empty(), cca, mask) && pair.1 is None,
        shard matches Some(bytes) ==> match crate::shard::shard_fault(bytes@, None) {
            Some(fault) => indexes(pair.0, Seq::empty(), cca, mask) && pair.1 == Some(fault),
            None => pair.1 is None && exists|documents: Seq<Document>| #[trigger]
                indexes(pair.0, documents, cca, mask) && crate::shard::all_contents(documents)
                    == first_of(
                    crate::shard::documents_at(
                        bytes@,
                        crate::bytes::wide_word(bytes@, 20) as nat,
                    ),
                    max_docs as nat,
                ),
        },
{
    let none: Vec<Document> = Vec::new();
    proof {
        assert(none@ =~= Seq::<Document>::empty());
    }
    match shard {
        None => (index_documents(none.as_slice(), cca, mask), None),
        Some(bytes) => match load_docs(bytes, max_docs) {
            Ok(documents) => {
                let parts: IndexParts = index_documents(documents.as_slice(), cca, mask);
                let pair: (IndexParts, Option<ShardError>) = (parts, None);
                proof {
                    assert(indexes(pair.0, documents@, cca, mask));
                }
                pair
            },
            Err(fault) => (index_documents(none.as_slice(), cca, mask), Some(fault)),
        },
    }
}

/// Everything a conversation needs but the session.
pub struct Engine {
    /// The retrieval shapes.
    pub cca: CcaConfig,
    /// The mask token.
    pub mask: MaskToken,
    /// Denoising steps.
    pub steps: usize,
    /// The tokenizer.
    pub tokenizer: tokenizers::Tokenizer,
    /// What is retrieved from.
    pub parts: IndexParts,
    /// Which neighbours may be retrieved.
    pub guard: LeakageGuard,
    /// The source of identities.
    pub ids: IdSource,
}

/// Whether these are the sampling parameters of a conversation: the defaults
/// but for the steps, and a document that no corpus holds.
pub open spec fn samples_with(sampling: SamplingConfig, steps: usize) -> bool {
    &&& sampling.steps == steps
    &&& sampling.refresh@.thresholds.len() == 3
    &&& sampling.refresh@.thresholds[0].bits == 0x3F4C_CCCD
    &&& sampling.refresh@.thresholds[1].bits == 0x3F00_0000
    &&& sampling.refresh@.thresholds[2].bits == 0x3E80_0000
    &&& sampling.admission.limit().bits == 0x3F59_999A
    &&& sampling.reveal == crate::sample::RevealPolicy::Linear
    &&& sampling.document == DocumentId(u64::MAX)
}

/// Whether `tokens` is where a trajectory of the engine from `prompt` may end.
pub open spec fn continues<D: Denoiser>(
    tokens: Seq<u32>,
    prompt: Seq<u32>,
    engine: Engine,
    denoiser: D,
) -> bool {
    exists|
        sampling: SamplingConfig,
        levels: Seq<crate::schedule::NoiseLevel>,
        steps: Seq<crate::sample::SampleStep>,
        view: crate::view::NoisedView,
    |
        samples_with(sampling, engine.steps) && crate::sample::is_trajectory(
            levels,
            engine.steps as nat,
        ) && view@.tokens == tokens && #[trigger] crate::sample::setup_of(
            prompt,
            engine.mask,
            engine.cca,
            levels,
            sampling,
            engine.parts.embedder,
            engine.parts.index,
            engine.parts.corpus,
            engine.guard,
            denoiser,
        ).leaves(steps, view) && crate::sample::numbered(steps, engine.ids.views())
}

/// A text or an error, as values.
pub open spec fn words_of(text: Result<String, String>) -> Result<Seq<char>, Seq<char>> {
    match text {
        Ok(words) => Ok(words@),
        Err(message) => Err(message@),
    }
}

impl Engine {
    /// The parts agree with the shapes, and the queries of a view can be held.
    pub open spec fn wf(self) -> bool {
        &&& self.cca.wf()
        &&& self.parts.corpus@.r == self.cca.r()
        &&& self.parts.embedder.buckets() == self.parts.index.dim()
        &&& self.cca.l() * self.cca.k() * self.cca.r() <= usize::MAX
        &&& self.cca.l() * self.parts.embedder.buckets() <= usize::MAX
    }

    /// Whether nothing that generating depends on differs between two engines.
    pub open spec fn same_but_ids(self, other: Engine) -> bool {
        &&& self.cca == other.cca
        &&& self.mask == other.mask
        &&& self.steps == other.steps
        &&& self.tokenizer == other.tokenizer
        &&& self.parts.corpus == other.parts.corpus
        &&& self.parts.index == other.parts.index
        &&& self.guard == other.guard
        &&& crate::chunk::encodes_alike(self.parts.embedder, other.parts.embedder)
    }

    /// Continue `prompt` to a whole canvas.
    pub fn generate_tokens<D: Denoiser>(&mut self, prompt: &[u32], denoiser: &mut D) -> (tokens:
        Vec<u32>)
        requires
            old(self).wf(),
            prompt@.len() <= old(self).cca.n(),
            old(denoiser).vocab() <= 0x1_0000_0000,
        ensures
            tokens@.len() == old(self).cca.n(),
            continues(tokens@, prompt@, *old(self), *old(denoiser)),
            forall|i: int|
                0 <= i < prompt@.len() && #[trigger] prompt@[i] != old(self).mask.0 ==> tokens@[i]
                    == prompt@[i],
            final(self).same_but_ids(*old(self)),
            crate::view::drawn(old(self).ids, final(self).ids, 1 + 2 * old(self).steps as nat, 0),
            crate::sample::denoises_alike(*final(denoiser), *old(denoiser)),
    {
        let mut sampling: SamplingConfig = SamplingConfig::new(DocumentId(u64::MAX));
        sampling.steps = self.steps;
        let ghost asked = sampling;
        let mut retrieval = RetrievalContext {
            index: &self.parts.index,
            corpus: &self.parts.corpus,
            guard: &self.guard,
            encoder: &mut self.parts.embedder,
        };
        let tokens: Vec<u32> = generate(
            prompt,
            self.mask,
            self.cca,
            &mut sampling,
            &mut retrieval,
            denoiser,
            &mut self.ids,
        );
        proof {
            assert(samples_with(asked, old(self).steps));
        }
        tokens
    }

    /// Continue a prompt in words, and give the whole canvas in words.
    pub fn generate_text<D: Denoiser>(&mut self, prompt_text: &str, denoiser: &mut D) -> (text:
        Result<String, String>)
        requires
            old(self).wf(),
            old(denoiser).vocab() <= 0x1_0000_0000,
        ensures
            exists|outcome: Result<Seq<u32>, Seq<char>>| #[trigger]
                crate::tokenizer::encoded(old(self).tokenizer, prompt_text@, outcome)
                    && match outcome {
                    Ok(all) => exists|tokens: Seq<u32>| #[trigger]
                        continues(
                            tokens,
                            crate::tokenizer::capped(all, old(self).cca.n() as nat),
                            *old(self),
                            *old(denoiser),
                        ) && words_of(text) == crate::tokenizer::decoding::decoded(
                            old(self).tokenizer,
                            tokens,
                        ) && crate::view::drawn(
                            old(self).ids,
                            final(self).ids,
                            1 + 2 * old(self).steps as nat,
                            0,
                        ),
                    Err(e) => words_of(text) == Err::<Seq<char>, Seq<char>>(
                        "encoding prompt: "@ + e,
                    ) && final(self).ids == old(self).ids,
                },
            final(self).same_but_ids(*old(self)),
            crate::sample::denoises_alike(*final(denoiser), *old(denoiser)),
    {
        let n: usize = self.cca.seq_len();
        let prompt: Vec<u32> = match encode_prompt(&self.tokenizer, prompt_text, n) {
            Ok(prompt) => prompt,
            Err(message) => {
                return Err(message);
            },
        };
        let ghost outcome = choose|outcome: Result<Seq<u32>, Seq<char>>| #[trigger]
            crate::tokenizer::encoded(self.tokenizer, prompt_text@, outcome) && Ok::<
                Seq<u32>,
                Seq<char>,
            >(prompt@) == crate::tokenizer::prompt_of(outcome, n as nat);
        let tokens: Vec<u32> = self.generate_tokens(prompt.as_slice(), denoiser);
        proof {
            assert(continues(
                tokens@,
                crate::tokenizer::capped(outcome->Ok_0, n as nat),
                *old(self),
                *old(denoiser),
            ));
        }
        decode_ids(&self.tokenizer, tokens.as_slice())
    }
}

/// The first documents are loaded, as many as are wanted or there are, in order.
pub proof fn law_the_first_documents_are_loaded<T>(documents: Seq<T>, max: nat, i: int)
    ensures
        first_of(documents, max).len() <= max,
        first_of(documents, max).len() <= documents.len(),
        first_of(documents, max).len() == max || first_of(documents, max).len() == documents.len(),
        0 <= i < first_of(documents, max).len() ==> first_of(documents, max)[i] == documents[i],
{
}

} // verus!
