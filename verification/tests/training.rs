//! The host side of a training step.

use anaphora::config::CcaConfig;
use anaphora::corpus::{build_corpus, training_sequences, Document, HashedBagEmbedder};
use anaphora::init::{seed_parameters, seed_values};
use anaphora::model::NeighbourInput;
use anaphora::retrieval::corpus::{DocumentId, NeighbourCorpus};
use anaphora::retrieval::index::ExactIndex;
use anaphora::retrieval::leakage::LeakageGuard;
use anaphora::train::{
    check_trainable, NoiseSampler, Optimizer, RetrievalSources, Rng, SparseLabelError,
    SparseLabels, StepError, Trainer, TrainingConfig,
};
use anaphora::view::{IdSource, MaskToken};
use anaphora::Binary32;

const MASK: MaskToken = MaskToken(0);
const PAD: u32 = 1;
const VOCAB: usize = 48;
const SEQ: usize = 16;
const DIM: usize = 32;

fn b(v: f32) -> Binary32 {
    Binary32::from_bits(v.to_bits())
}

fn f(x: Binary32) -> f32 {
    f32::from_bits(x.to_bits())
}

fn cfg() -> CcaConfig {
    // n=16, m=4 gives l=4, k=2, r=8; d = 2 heads * 16 = 32. CCA after layer 1.
    CcaConfig::new(SEQ, 4, 2, 8, 2, 2, 16, 2, 1).expect("valid")
}

fn documents() -> Vec<Document> {
    // Tokens from 2 up, so they never collide with MASK(0) or PAD(1).
    (0..6u64)
        .map(|d| Document {
            id: DocumentId(d),
            tokens: (0..SEQ * 2)
                .map(|i| (2 + (d as usize * 5 + i * 3) % (VOCAB - 2)) as u32)
                .collect(),
        })
        .collect()
}

fn build_retrieval(cca: CcaConfig) -> (NeighbourCorpus, HashedBagEmbedder) {
    let mut embedder = HashedBagEmbedder::bigram(DIM, MASK.0);
    let corpus = build_corpus(&documents(), cca, &mut embedder);
    (corpus, embedder)
}

#[test]
fn rng_is_reproducible_from_a_seed() {
    let mut r = Rng::new(42);
    let stream: Vec<f32> = (0..64).map(|_| f(r.next_f32())).collect();
    assert!(stream.iter().all(|&v| (0.0..1.0).contains(&v)));
    let mut again = Rng::new(42);
    let repeat: Vec<f32> = (0..64).map(|_| f(again.next_f32())).collect();
    assert_eq!(stream, repeat, "a run must be reproducible from its seed");
    let mut other = Rng::new(43);
    let different: Vec<f32> = (0..64).map(|_| f(other.next_f32())).collect();
    assert_ne!(stream, different);
}

#[test]
fn corrupt_never_masks_padding() {
    let docs = vec![Document {
        id: DocumentId(1),
        tokens: (2..8).collect(),
    }];
    let seqs = training_sequences(&docs, SEQ, PAD, 1);
    let mut trainer = Trainer::new(
        TrainingConfig {
            noise: NoiseSampler::Fixed(b(1.0)),
            ..TrainingConfig::new(cfg(), VOCAB, MASK)
        },
        7,
    );
    let mut ids = IdSource::new();
    let (_, view) = trainer.corrupt(&seqs[0], &mut ids);
    assert_eq!(view.num_masked(), 6, "only the real tokens");
    assert!(view.masked()[6..].iter().all(|&m| !m));
}

#[test]
fn the_generator_is_splitmix() {
    let mut state: u64 = 42;
    let mut r = Rng::new(42);
    for _ in 0..16 {
        state = state.wrapping_add(0x9E37_79B9_7F4A_7C15);
        let mut z = state;
        z = (z ^ (z >> 30)).wrapping_mul(0xBF58_476D_1CE4_E5B9);
        z = (z ^ (z >> 27)).wrapping_mul(0x94D0_49BB_1331_11EB);
        assert_eq!(r.next_u64(), z ^ (z >> 31));
    }
    let mut r = Rng::new(9);
    for _ in 0..64 {
        assert!(r.below(5) < 5);
    }
}

#[test]
fn a_step_retrieves_for_its_own_view() {
    let cca = cfg();
    let (corpus, mut embedder) = build_retrieval(cca);
    let index = ExactIndex::build(&corpus);
    let guard = LeakageGuard::by_source_document();
    let seqs = training_sequences(&documents(), SEQ, PAD, SEQ);
    let mut trainer = Trainer::new(
        TrainingConfig {
            noise: NoiseSampler::Fixed(b(0.5)),
            ..TrainingConfig::new(cca, VOCAB, MASK)
        },
        0xBEEF,
    );
    let mut sources = RetrievalSources {
        index: &index,
        corpus: &corpus,
        guard: &guard,
        embedder: &mut embedder,
    };
    let mut ids = IdSource::new();
    let step = trainer
        .prepare(true, &seqs[0], &mut sources, &mut ids)
        .expect("well-formed");
    assert!(step.zero_labels, "the first step zeroes the labels buffer");
    assert_eq!(f(step.stats.weight), 2.0);
    assert_eq!(step.labels.set.len(), step.stats.scored);
    assert!(step.labels.clear.is_empty());
    let run = step.run.as_ref().expect("something is masked");
    assert!(run.gate_open);
    assert!(run.chunks_retrieved > 0);
    assert_eq!(run.inputs.t_col.len(), SEQ);
    assert!(run.inputs.t_col.iter().all(|&x| f(x) == 0.5));
    assert_eq!(run.inputs.neighbour_tokens.len(), 4 * 2 * 8);
    for (row, &open) in run.inputs.retrieval_mask.iter().enumerate() {
        assert!(f(open) == 0.0 || f(open) == 1.0, "row {row}");
    }
    let report = trainer.complete(&step, b(3.5)).expect("it ran");
    assert_eq!(f(report.loss), 3.5);
    assert_eq!(report.scored, step.stats.scored);
    assert_eq!(trainer.steps(), 1);

    let again = trainer
        .prepare(true, &seqs[1], &mut sources, &mut ids)
        .expect("well-formed");
    assert!(!again.zero_labels);
    assert_eq!(again.labels.clear, step.labels.set, "only what was written is undone");
}

#[test]
fn a_step_outside_the_band_feeds_no_neighbours() {
    let cca = cfg();
    let (corpus, mut embedder) = build_retrieval(cca);
    let index = ExactIndex::build(&corpus);
    let guard = LeakageGuard::by_source_document();
    let seqs = training_sequences(&documents(), SEQ, PAD, SEQ);
    let mut trainer = Trainer::new(
        TrainingConfig {
            noise: NoiseSampler::Fixed(b(1.0)),
            ..TrainingConfig::new(cca, VOCAB, MASK)
        },
        3,
    );
    let mut sources = RetrievalSources {
        index: &index,
        corpus: &corpus,
        guard: &guard,
        embedder: &mut embedder,
    };
    let mut ids = IdSource::new();
    let step = trainer
        .prepare(true, &seqs[0], &mut sources, &mut ids)
        .expect("well-formed");
    let run = step.run.expect("everything is masked");
    assert!(!run.gate_open);
    assert_eq!(run.chunks_retrieved, 0);
    assert!(run.inputs.retrieval_mask.iter().all(|&x| f(x) == 0.0));
    assert!(run.inputs.neighbour_tokens.iter().all(|&x| x == MASK.0));
}

#[test]
fn a_step_that_masks_nothing_runs_nothing() {
    let cca = cfg();
    let (corpus, mut embedder) = build_retrieval(cca);
    let index = ExactIndex::build(&corpus);
    let guard = LeakageGuard::by_source_document();
    let seqs = training_sequences(&documents(), SEQ, PAD, SEQ);
    let mut trainer = Trainer::new(
        TrainingConfig {
            noise: NoiseSampler::Fixed(b(0.0)),
            ..TrainingConfig::new(cca, VOCAB, MASK)
        },
        3,
    );
    let mut sources = RetrievalSources {
        index: &index,
        corpus: &corpus,
        guard: &guard,
        embedder: &mut embedder,
    };
    let mut ids = IdSource::new();
    let step = trainer
        .prepare(true, &seqs[0], &mut sources, &mut ids)
        .expect("well-formed");
    assert!(step.run.is_none());
    assert!(trainer.complete(&step, b(0.0)).is_none());
    assert_eq!(trainer.steps(), 0);
}

#[test]
fn a_step_that_cannot_train_is_refused() {
    let cca = cfg();
    let (corpus, mut embedder) = build_retrieval(cca);
    let index = ExactIndex::build(&corpus);
    let guard = LeakageGuard::by_source_document();
    let seqs = training_sequences(&documents(), SEQ / 2, PAD, 1);
    let mut trainer = Trainer::new(TrainingConfig::new(cca, VOCAB, MASK), 3);
    let mut sources = RetrievalSources {
        index: &index,
        corpus: &corpus,
        guard: &guard,
        embedder: &mut embedder,
    };
    let mut ids = IdSource::new();
    let e = trainer
        .prepare(true, &seqs[0], &mut sources, &mut ids)
        .unwrap_err();
    assert_eq!(
        e,
        StepError::LengthMismatch {
            got: 8,
            expected: 16
        }
    );
    assert_eq!(
        e.message(),
        "sequence has 8 tokens, configuration says 16"
    );
    let whole = training_sequences(&documents(), SEQ, PAD, 1);
    assert_eq!(
        trainer
            .prepare(false, &whole[0], &mut sources, &mut ids)
            .unwrap_err(),
        StepError::NeighboursNotEncoded
    );
    assert!(check_trainable(NeighbourInput::Encoded).is_ok());
    assert_eq!(
        check_trainable(NeighbourInput::Cached),
        Err(StepError::NeighboursNotEncoded)
    );
}

#[test]
fn a_labels_buffer_must_have_its_size() {
    let labels = SparseLabels::new(SEQ, VOCAB);
    assert!(labels.check_buffer(Some(SEQ * VOCAB * 4)).is_ok());
    assert_eq!(
        labels.check_buffer(None),
        Err(SparseLabelError::NoSuchInput)
    );
    assert_eq!(
        labels.check_buffer(Some(4)),
        Err(SparseLabelError::SizeMismatch {
            got: 4,
            expected: SEQ * VOCAB * 4
        })
    );
}

#[test]
fn initial_values_follow_the_name_and_the_seed() {
    let name = "backbone.layers.0.q_proj";
    let values: Vec<f32> = seed_values(name, 100, 7).iter().map(|&x| f(x)).collect();
    let mixed = name
        .bytes()
        .fold(0u64, |a, b| a.rotate_left(5) ^ u64::from(b));
    let mut rng = Rng::new(7 ^ mixed);
    let scale = (2.0f32 / 100.0).sqrt().min(0.08);
    let expected: Vec<f32> = (0..100)
        .map(|_| (f(rng.next_f32()) - 0.5) * 2.0 * scale)
        .collect();
    assert_eq!(values, expected);
    assert!(seed_values("a.norm", 3, 7).iter().all(|&x| f(x) == 1.0));
    let long: Vec<f32> = seed_values("w", 1000, 1).iter().map(|&x| f(x)).collect();
    let scale = (2.0f32 / 1000.0).sqrt().min(0.08);
    assert!(long.iter().all(|x| x.abs() <= scale));
}

#[test]
fn only_listed_parameters_are_seeded() {
    let params = vec![
        ("a".to_string(), 2),
        ("b".to_string(), 3),
        ("norm".to_string(), 1),
    ];
    let all = seed_parameters(&params, 5, None);
    assert_eq!(all.len(), 3);
    assert_eq!(all[1].0, "b");
    assert_eq!(all[1].1.len(), 3);
    let only = vec!["norm".to_string(), "a".to_string()];
    let some = seed_parameters(&params, 5, Some(&only));
    let names: Vec<&str> = some.iter().map(|w| w.0.as_str()).collect();
    assert_eq!(names, vec!["a", "norm"]);
    assert_eq!(some[0].1, all[0].1);
}

#[test]
fn adam_has_the_usual_constants() {
    match Optimizer::adam(b(3e-4)) {
        Optimizer::Adam {
            lr,
            beta1,
            beta2,
            eps,
        } => {
            assert_eq!(f(lr), 3e-4);
            assert_eq!(f(beta1), 0.9);
            assert_eq!(f(beta2), 0.999);
            assert_eq!(f(eps), 1e-8);
        }
        other => panic!("not Adam: {other:?}"),
    }
}
