//! The denoising loop: refresh scheduling, revealing, and the retrieval
//! bookkeeping around them.

use anaphora::chunk::{chunk_queries, Chunk, ChunkAdmission, ChunkedView, RetrieverEncode};
use anaphora::config::CcaConfig;
use anaphora::generate::{decode_token_ids, generate};
use anaphora::retrieval::corpus::{DocumentId, NeighbourCorpus, NeighbourRecord};
use anaphora::retrieval::index::ExactIndex;
use anaphora::retrieval::leakage::{LeakageGuard, NgramOverlapFilter};
use anaphora::retrieval::{retrieve, Neighbours};
use anaphora::sample::{
    peak_probability, sample, take_most_confident, unmask_top_confidence, Denoiser, RetrievalContext,
    RevealPolicy, SamplingConfig,
};
use anaphora::schedule::{NoiseLevel, Phase, RefreshSchedule};
use anaphora::view::{IdSource, MaskToken, NoisedView};
use anaphora::Binary32;

const MASK: MaskToken = MaskToken(0);
const SEQ: usize = 8;
const VOCAB: usize = 16;

fn b(v: f32) -> Binary32 {
    Binary32::from_bits(v.to_bits())
}

fn f(x: Binary32) -> f32 {
    f32::from_bits(x.to_bits())
}

fn words(v: &[f32]) -> Vec<Binary32> {
    v.iter().map(|&x| b(x)).collect()
}

fn level(v: f32) -> NoiseLevel {
    NoiseLevel::new(b(v)).unwrap()
}

fn cfg() -> CcaConfig {
    CcaConfig::new(SEQ, 4, 1, 4, 1, 1, 4, 1, 0).expect("valid")
}

struct MeanEncoder;

impl RetrieverEncode for MeanEncoder {
    fn query_dim(&self) -> usize {
        1
    }
    fn encode_chunk(&mut self, chunk: Chunk<'_>, _t: NoiseLevel, out: &mut Vec<Binary32>) {
        let sum: u32 = chunk.tokens().iter().sum();
        out.push(b(sum as f32 / chunk.tokens().len() as f32));
    }
}

/// A model with nothing to say.
struct Softmax;

/// The largest softmax probability of a row, the mask class left out, in the
/// machine's own arithmetic.
fn softmax_peak(row: &[Binary32], mask_id: usize, peak: Binary32) -> Binary32 {
    let sum: f32 = row
        .iter()
        .enumerate()
        .filter(|&(class, _)| class != mask_id)
        .map(|(_, &v)| (f(v) - f(peak)).exp())
        .sum();
    b(1.0 / sum)
}

impl Denoiser for Softmax {
    fn vocab_size(&self) -> usize {
        VOCAB
    }
    fn logits(&mut self, view: &NoisedView, _neighbours: Option<&Neighbours>) -> Vec<Binary32> {
        vec![b(0.0); view.len() * VOCAB]
    }
    fn exp(&self, x: Binary32) -> Binary32 {
        b(f(x).exp())
    }
}

/// Returns logits that always favour token `position % VOCAB`, with a
/// confidence that rises with position so the reveal order is predictable.
struct RampDenoiser {
    calls: usize,
    saw_neighbours: Vec<bool>,
}

impl Denoiser for RampDenoiser {
    fn vocab_size(&self) -> usize {
        VOCAB
    }
    fn logits(&mut self, view: &NoisedView, neighbours: Option<&Neighbours>) -> Vec<Binary32> {
        self.calls += 1;
        self.saw_neighbours.push(neighbours.is_some());
        let mut out = vec![0.0f32; view.len() * VOCAB];
        for pos in 0..view.len() {
            out[pos * VOCAB + (pos % VOCAB)] = 1.0 + pos as f32;
        }
        words(&out)
    }
    fn exp(&self, x: Binary32) -> Binary32 {
        b(f(x).exp())
    }
}

fn ramp() -> RampDenoiser {
    RampDenoiser {
        calls: 0,
        saw_neighbours: Vec::new(),
    }
}

fn corpus_and_index() -> (NeighbourCorpus, ExactIndex) {
    let mut corpus = NeighbourCorpus::new(4, 1);
    for i in 0..4u32 {
        corpus
            .push(
                &NeighbourRecord {
                    document: DocumentId(100 + i as u64),
                    offset: 0,
                    tokens: vec![i + 1; 4],
                },
                &[b(i as f32)],
            )
            .expect("shapes match");
    }
    let index = ExactIndex::build(&corpus);
    (corpus, index)
}

#[test]
fn confidence_ranks_by_peakedness_not_raw_logit() {
    // Two rows with the same maximum logit but different spreads: the peaked
    // one is the confident one. Ranking by raw max logit would call them
    // equal.
    let mut ids = IdSource::new();
    let view = NoisedView::all_masked(2, MASK, &mut ids);
    let mut logits = vec![0.0f32; 2 * VOCAB];
    logits[5] = 3.0; // row 0: one spike, rest zero: peaked
    for v in logits[VOCAB..2 * VOCAB].iter_mut() {
        *v = 3.0; // row 1: uniformly 3.0: maximally unsure
    }
    logits[VOCAB + 7] = 3.0;

    let picks = unmask_top_confidence(&view, &words(&logits), VOCAB, 1, &Softmax);
    assert_eq!(picks, vec![(0, 5)], "the peaked row must win");
}

#[test]
fn only_masked_positions_are_revealed() {
    let mut ids = IdSource::new();
    let view = NoisedView::from_tokens(vec![9, 0, 0, 0], level(0.5), MASK, &mut ids);
    let mut logits = vec![0.0f32; 4 * VOCAB];
    // Make position 0 look maximally confident: it is already revealed.
    logits[1] = 100.0;
    for pos in 1..4 {
        logits[pos * VOCAB + pos] = 1.0;
    }
    let picks = unmask_top_confidence(&view, &words(&logits), VOCAB, 4, &Softmax);
    assert_eq!(picks.len(), 3);
    assert!(picks.iter().all(|&(pos, _)| pos != 0));
}

#[test]
fn linear_reveal_finishes_the_trajectory() {
    let policy = RevealPolicy::Linear;
    let mut masked = 10usize;
    let steps = 4;
    for step in 0..steps {
        masked -= policy.count(steps - step, masked);
    }
    assert_eq!(
        masked, 0,
        "every position must be revealed by the last step"
    );
}

#[test]
fn trajectory_reveals_everything_and_refreshes_on_schedule() {
    let (corpus, index) = corpus_and_index();
    let guard = LeakageGuard::by_source_document();
    let mut encoder = MeanEncoder;
    let mut retrieval = RetrievalContext {
        index: &index,
        corpus: &corpus,
        guard: &guard,
        encoder: &mut encoder,
    };
    let mut denoiser = ramp();
    let mut sampling = SamplingConfig {
        steps: 8,
        refresh: RefreshSchedule::new(&words(&[0.8, 0.5, 0.25])),
        admission: ChunkAdmission::permissive(),
        reveal: RevealPolicy::Linear,
        document: DocumentId(1),
    };
    let mut ids = IdSource::new();

    let (view, trace) = sample(
        &[7, 7],
        MASK,
        cfg(),
        &mut sampling,
        &mut retrieval,
        &mut denoiser,
        &mut ids,
    );

    assert_eq!(trace.steps, 8);
    assert_eq!(view.num_masked(), 0, "the trajectory must finish clean");
    assert_eq!(&view.tokens()[..2], &[7, 7], "the prompt must survive");
    assert_eq!(denoiser.calls, 8);
    // Two views a step and the first one, each with an identity of its own.
    assert_eq!(view.id().get(), 16);

    // t starts at 1.0, where the inference band (t < 0.9) is closed, so the
    // first step runs without neighbours; later steps retrieve.
    assert!(!denoiser.saw_neighbours[0]);
    assert!(denoiser.saw_neighbours.iter().any(|&seen| seen));
    assert!(trace.refreshes >= 1);
    assert!(trace.gated_out >= 1);
}

#[test]
fn empty_neighbour_block_reports_no_chunks() {
    let (corpus, index) = corpus_and_index();
    let mut guard = LeakageGuard::by_source_document();
    guard.audit(
        DocumentId(1),
        &[1, 2, 3, 4, 5],
        &corpus,
        NgramOverlapFilter::new(1, b(0.0)).unwrap(),
    );
    let mut ids = IdSource::new();
    let view = NoisedView::from_tokens(vec![1; SEQ], level(0.5), MASK, &mut ids);
    let chunked = ChunkedView::new(&view, cfg()).unwrap();
    let mut encoder = MeanEncoder;
    let queries = chunk_queries(
        chunked,
        Phase::Inference,
        ChunkAdmission::permissive(),
        &mut encoder,
    )
    .unwrap();
    let neighbours = retrieve(&queries, cfg(), &index, &corpus, &guard, DocumentId(1));
    assert_eq!(neighbours.num_filled(), 0);
    assert_eq!(neighbours.chunk_mask(), vec![false, false]);
}

#[test]
fn confidence_is_a_softmax_without_the_mask() {
    let rows: [&[f32]; 4] = [
        &[9.0, 1.5, -2.25, 0.125],
        &[0.0, 0.0, 0.0, 0.0],
        &[100.0, 3.0, f32::NEG_INFINITY, 2.5],
        &[-7.0, -0.5, -0.25, -0.75],
    ];
    for row in rows {
        let peak = row[1..].iter().fold(f32::NEG_INFINITY, |a, &x| a.max(x));
        let ours = peak_probability(&Softmax, &words(row), 0, b(peak));
        assert_eq!(ours, softmax_peak(&words(row), 0, b(peak)));
        // Whatever the mask's own logit is.
        let mut other = row.to_vec();
        other[0] = -3.0;
        assert_eq!(ours, peak_probability(&Softmax, &words(&other), 0, b(peak)));
    }
}

#[test]
fn the_mask_token_is_never_an_answer() {
    let mut ids = IdSource::new();
    let view = NoisedView::all_masked(2, MASK, &mut ids);
    let mut logits = vec![0.0f32; 2 * VOCAB];
    logits[0] = 50.0; // row 0 is sure of the mask token, and then of token 3
    logits[3] = 1.0;
    logits[VOCAB + 4] = 9.0;
    let picks = unmask_top_confidence(&view, &words(&logits), VOCAB, 2, &Softmax);
    assert_eq!(picks, vec![(0, 3), (1, 4)], "in order of position");
    let picks = unmask_top_confidence(&view, &words(&logits), VOCAB, 1, &Softmax);
    assert_eq!(picks, vec![(1, 4)]);
}

#[test]
fn the_most_confident_are_kept_in_order_of_position() {
    let cands = [(3usize, 30u32), (5, 50), (9, 90)];
    let conf = words(&[0.75, 0.25, 0.8]);
    assert_eq!(take_most_confident(&cands, &conf, 2), vec![(3, 30), (9, 90)]);
    // Ties resolve by position.
    let even = words(&[0.5, 0.5, 0.5]);
    assert_eq!(take_most_confident(&cands, &even, 1), vec![(3, 30)]);
    assert_eq!(take_most_confident(&cands, &conf, 9).len(), 3);
    assert!(take_most_confident(&cands, &conf, 0).is_empty());
    // What is not a number comes last, and takes no place from the others.
    let odd = words(&[0.5, f32::NAN, 0.9]);
    assert_eq!(take_most_confident(&cands, &odd, 1), vec![cands[2]]);
    assert_eq!(take_most_confident(&cands, &odd, 2), vec![cands[0], cands[2]]);
    assert_eq!(take_most_confident(&cands, &odd, 3), cands.to_vec());
    let none = words(&[f32::NAN, f32::NAN, f32::NAN]);
    assert_eq!(take_most_confident(&cands, &none, 2), vec![cands[0], cands[1]]);
}

#[test]
fn reveal_counts_are_exact() {
    assert_eq!(RevealPolicy::Linear.count(4, 10), 3);
    assert_eq!(RevealPolicy::Linear.count(1, 7), 7);
    assert_eq!(RevealPolicy::Linear.count(0, 7), 7);
    assert_eq!(RevealPolicy::Linear.count(5, 0), 0);
}

#[test]
fn sampling_defaults_are_the_documented_ones() {
    let sampling = SamplingConfig::new(DocumentId(9));
    assert_eq!(sampling.steps, 32);
    assert_eq!(sampling.document, DocumentId(9));
    assert_eq!(sampling.reveal, RevealPolicy::Linear);
    let rest: Vec<f32> = sampling.refresh.remaining().iter().map(|&x| f(x)).collect();
    assert_eq!(rest, vec![0.8, 0.5, 0.25]);
}

#[test]
fn a_generation_is_the_prompt_and_the_favoured_tokens() {
    let (corpus, index) = corpus_and_index();
    let guard = LeakageGuard::disabled();
    let mut encoder = MeanEncoder;
    let mut retrieval = RetrievalContext {
        index: &index,
        corpus: &corpus,
        guard: &guard,
        encoder: &mut encoder,
    };
    let mut sampling = SamplingConfig::new(DocumentId(u64::MAX));
    sampling.steps = 4;
    let mut ids = IdSource::new();
    let tokens = generate(
        &[7, 7],
        MASK,
        cfg(),
        &mut sampling,
        &mut retrieval,
        &mut ramp(),
        &mut ids,
    );
    assert_eq!(tokens, vec![7, 7, 2, 3, 4, 5, 6, 7]);
    assert_eq!(decode_token_ids(&tokens), "7 7 2 3 4 5 6 7");
    assert_eq!(decode_token_ids(&[]), "");
    assert_eq!(decode_token_ids(&[4294967295]), "4294967295");
}

#[test]
fn every_step_is_told_when_the_gate_is_closed() {
    // Nine steps visit t = 1, 7/8, .., 0: only the first is at or above 0.9.
    let (corpus, index) = corpus_and_index();
    let guard = LeakageGuard::disabled();
    let mut encoder = MeanEncoder;
    let mut retrieval = RetrievalContext {
        index: &index,
        corpus: &corpus,
        guard: &guard,
        encoder: &mut encoder,
    };
    let mut denoiser = ramp();
    let mut sampling = SamplingConfig::new(DocumentId(1));
    sampling.steps = 9;
    sampling.admission = ChunkAdmission::permissive();
    let mut ids = IdSource::new();
    let (_, trace) = sample(
        &[],
        MASK,
        cfg(),
        &mut sampling,
        &mut retrieval,
        &mut denoiser,
        &mut ids,
    );
    assert_eq!(trace.steps, 9);
    assert_eq!(trace.revealed, SEQ);
    assert!(!denoiser.saw_neighbours[0]);
    assert_eq!(
        trace.gated_out,
        denoiser.saw_neighbours.iter().filter(|&&seen| !seen).count()
    );
}

#[test]
fn slots_hold_the_neighbour_they_name() {
    let (corpus, index) = corpus_and_index();
    let guard = LeakageGuard::by_source_document();
    let wide = CcaConfig::new(SEQ, 4, 5, 4, 1, 1, 4, 1, 0).expect("valid");
    let mut ids = IdSource::new();
    // The first chunk is all masks and is not sent out; the second averages 2.
    let view = NoisedView::from_tokens(vec![0, 0, 0, 0, 2, 2, 2, 2], level(0.5), MASK, &mut ids);
    let mut encoder = MeanEncoder;
    let queries = chunk_queries(
        ChunkedView::new(&view, wide).unwrap(),
        Phase::Inference,
        ChunkAdmission::new(b(0.85)).unwrap(),
        &mut encoder,
    )
    .unwrap();
    let found = retrieve(&queries, wide, &index, &corpus, &guard, DocumentId(101));
    assert_eq!(found.chunk_mask(), vec![false, true]);
    assert_eq!(found.num_filled(), 3, "four entries, one of them excluded");
    for j in 0..5 {
        assert_eq!(found.id(0, j), None, "a withheld chunk retrieves nothing");
        assert_eq!(found.tokens(0, j), Some(&[0u32; 4][..]));
        match found.id(1, j) {
            Some(id) => {
                assert_eq!(found.tokens(1, j), corpus.tokens(id));
                assert_ne!(corpus.document(id), Some(DocumentId(101)));
            }
            None => assert_eq!(found.tokens(1, j), Some(&[0u32; 4][..])),
        }
    }
    assert_eq!(found.tokens(1, 0), Some(&[3u32; 4][..]), "the nearest comes first");
}

/// Favours another token at every call, and keeps what it was shown.
struct Fickle {
    shown: Vec<Vec<u32>>,
}

impl Denoiser for Fickle {
    fn vocab_size(&self) -> usize {
        VOCAB
    }
    fn logits(&mut self, view: &NoisedView, _neighbours: Option<&Neighbours>) -> Vec<Binary32> {
        self.shown.push(view.tokens().to_vec());
        let mut out = vec![0.0f32; view.len() * VOCAB];
        for pos in 0..view.len() {
            out[pos * VOCAB + self.shown.len()] = 2.0;
        }
        words(&out)
    }
    fn exp(&self, x: Binary32) -> Binary32 {
        b(f(x).exp())
    }
}

#[test]
fn a_committed_token_is_never_revised() {
    let (corpus, index) = corpus_and_index();
    let guard = LeakageGuard::by_source_document();
    let mut encoder = MeanEncoder;
    let mut retrieval = RetrievalContext {
        index: &index,
        corpus: &corpus,
        guard: &guard,
        encoder: &mut encoder,
    };
    let mut denoiser = Fickle { shown: Vec::new() };
    let mut sampling = SamplingConfig::new(DocumentId(1));
    sampling.steps = 4;
    let mut ids = IdSource::new();
    let (view, _) = sample(
        &[9],
        MASK,
        cfg(),
        &mut sampling,
        &mut retrieval,
        &mut denoiser,
        &mut ids,
    );
    assert_eq!(denoiser.shown.len(), 4);
    for shown in &denoiser.shown {
        for pos in 0..SEQ {
            if shown[pos] != MASK.0 {
                assert_eq!(view.tokens()[pos], shown[pos]);
            }
        }
    }
    // Seven masks over four steps: two, two, two and one.
    assert_eq!(view.tokens(), &[9, 1, 1, 2, 2, 3, 3, 4]);
}
