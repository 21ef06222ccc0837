//! The evaluation protocol: its arithmetic.

use anaphora::config::CcaConfig;
use anaphora::corpus::{build_corpus, training_sequences, Document, HashedBagEmbedder};
use anaphora::eval::{
    eval_overlap, BandLoss, ConditionReport, EvalReport, EvalRun, Evaluator, NeighbourCondition,
};
use anaphora::retrieval::corpus::DocumentId;
use anaphora::retrieval::index::ExactIndex;
use anaphora::retrieval::leakage::LeakageGuard;
use anaphora::schedule::NoiseLevel;
use anaphora::train::RetrievalSources;
use anaphora::view::{IdSource, MaskToken};
use anaphora::Binary32;

const MASK: MaskToken = MaskToken(0);
const PAD: u32 = 1;
const VOCAB: usize = 48;
const SEQ: usize = 16;
const DIM: usize = 32;

fn b(v: f32) -> Binary32 {
    Binary32::from_bits(v.to_bits())
}

fn f(x: Binary32) -> f32 {
    f32::from_bits(x.to_bits())
}

fn report(condition: NeighbourCondition, mean: f32) -> ConditionReport {
    ConditionReport {
        condition,
        mean_loss: b(mean),
        bands: vec![BandLoss {
            low: b(0.0),
            high: b(1.0),
            mean_loss: b(mean),
            steps: 1,
        }],
    }
}

#[test]
fn a_healthy_model_lands_random_near_ablated() {
    // Relevant neighbours help; irrelevant ones simply stop helping, because
    // the soft gate can learn to shut. The gap should not run far past the gain.
    let r = EvalReport {
        conditions: vec![
            report(NeighbourCondition::Real, 3.0),
            report(NeighbourCondition::Random, 3.4),
            report(NeighbourCondition::Ablated, 3.5),
            report(NeighbourCondition::Oracle, 2.5),
        ],
    };
    assert!((f(r.retrieval_gain().unwrap()) - 0.5).abs() < 1e-6);
    assert!((f(r.copy_gap().unwrap()) - 0.4).abs() < 1e-6);
    assert!(f(r.copy_ratio().unwrap()) < 1.0, "gap stays inside the gain");
    assert_eq!(r.random_worse_than_ablated(), Some(false));
}

#[test]
fn a_copying_model_is_worse_than_ablated_on_random_neighbours() {
    // The sharpest single signature. A model transcribing neighbour content
    // it cannot evaluate does actively worse than one given no neighbours.
    let r = EvalReport {
        conditions: vec![
            report(NeighbourCondition::Real, 1.0),
            report(NeighbourCondition::Random, 6.0),
            report(NeighbourCondition::Ablated, 3.5),
            report(NeighbourCondition::Oracle, 0.8),
        ],
    };
    assert!((f(r.retrieval_gain().unwrap()) - 2.5).abs() < 1e-6);
    assert!((f(r.copy_gap().unwrap()) - 5.0).abs() < 1e-6);
    assert!(f(r.copy_ratio().unwrap()) > 1.0, "gap runs past the gain");
    assert_eq!(r.random_worse_than_ablated(), Some(true));
}

#[test]
fn no_learning_leaves_the_ratio_undefined() {
    // Which is itself a result: nothing was learned for anything to leak
    // through, so the ratio has no denominator.
    let r = EvalReport {
        conditions: vec![
            report(NeighbourCondition::Real, 3.5),
            report(NeighbourCondition::Random, 3.5),
            report(NeighbourCondition::Ablated, 3.5),
        ],
    };
    assert!(r.copy_ratio().is_none());
}

#[test]
fn band_means_weight_by_step_count() {
    let c = ConditionReport {
        condition: NeighbourCondition::Real,
        mean_loss: b(0.0),
        bands: vec![
            BandLoss {
                low: b(0.0),
                high: b(0.2),
                mean_loss: b(1.0),
                steps: 3,
            },
            BandLoss {
                low: b(0.2),
                high: b(0.4),
                mean_loss: b(2.0),
                steps: 1,
            },
            BandLoss {
                low: b(0.4),
                high: b(1.0),
                mean_loss: b(9.0),
                steps: 5,
            },
        ],
    };
    // (1*3 + 2*1) / 4
    assert!((f(c.mean_below(b(0.4)).unwrap()) - 1.25).abs() < 1e-6);
    assert!(
        c.mean_below(b(0.1)).is_none(),
        "no band lies entirely below 0.1"
    );
}

#[test]
fn overlap_finds_an_evaluation_document_that_is_in_the_index() {
    // Retrieval papers leak here routinely, and it is cheap to rule out.
    let cca = CcaConfig::new(SEQ, 4, 2, 8, 1, 1, 8, 1, 0).expect("valid");
    let indexed: Vec<u32> = (10..10 + SEQ as u32).collect();
    let corpus = build_corpus(
        &[Document {
            id: DocumentId(1),
            tokens: indexed.clone(),
        }],
        cca,
        &mut HashedBagEmbedder::bigram(DIM, MASK.0),
    );

    let duplicate = Document {
        id: DocumentId(99),
        tokens: indexed,
    };
    let novel = Document {
        id: DocumentId(98),
        tokens: (500..500 + SEQ as u32).collect(),
    };
    let seqs = training_sequences(&[duplicate, novel], SEQ, PAD, 1);
    let overlap: Vec<f32> = eval_overlap(&seqs, &corpus, 3)
        .iter()
        .map(|&x| f(x))
        .collect();

    assert!(
        overlap[0] > 0.5,
        "the duplicate should be caught: {}",
        overlap[0]
    );
    assert_eq!(overlap[1], 0.0, "the novel document should not be");
}

fn documents() -> Vec<Document> {
    (0..6u64)
        .map(|d| Document {
            id: DocumentId(d),
            tokens: (0..SEQ * 2)
                .map(|i| (2 + (d as usize * 5 + i * 3) % (VOCAB - 2)) as u32)
                .collect(),
        })
        .collect()
}

#[test]
fn every_condition_scores_the_same_corruptions() {
    let cca = CcaConfig::new(SEQ, 4, 2, 8, 2, 2, 16, 2, 1).expect("valid");
    let mut embedder = HashedBagEmbedder::bigram(DIM, MASK.0);
    let corpus = build_corpus(&documents(), cca, &mut embedder);
    let index = ExactIndex::build(&corpus);
    let guard = LeakageGuard::by_source_document();
    let seqs = training_sequences(&documents(), SEQ, PAD, SEQ);
    let levels: Vec<NoiseLevel> = [0.3f32, 0.5, 0.7]
        .iter()
        .map(|&t| NoiseLevel::new(b(t)).unwrap())
        .collect();
    let mut evaluator = Evaluator::new(cca, VOCAB, MASK, 5);
    let mut sources = RetrievalSources {
        index: &index,
        corpus: &corpus,
        guard: &guard,
        embedder: &mut embedder,
    };
    let mut ids = IdSource::new();
    let conditions = NeighbourCondition::all();
    assert!(evaluator.fits());
    for seq in &seqs {
        for &level in &levels {
            for &condition in &conditions {
                assert!(evaluator.ready(seq, level, condition, &sources));
            }
        }
    }
    let short = Evaluator::new(cca, 2, MASK, 5);
    assert!(!short.ready(&seqs[0], levels[2], NeighbourCondition::Ablated, &sources));
    let mut run = EvalRun::new(&evaluator, &conditions, seqs.len(), levels.len());
    let mut shown: Vec<Vec<u32>> = Vec::new();
    let mut blocks: Vec<Vec<u32>> = Vec::new();
    let mut masks: Vec<Vec<f32>> = Vec::new();
    while let Some(score) = run.next(&mut evaluator, &seqs, &levels, &mut sources, &mut ids) {
        // Every view has an identity of its own, in the order of the trials.
        assert_eq!(score.view.id().get(), shown.len() as u64);
        shown.push(score.view.tokens().to_vec());
        blocks.push(score.inputs.neighbour_tokens.clone());
        masks.push(score.inputs.retrieval_mask.iter().map(|&x| f(x)).collect());
        run.record(&evaluator, &levels, b(shown.len() as f32));
    }
    let per = shown.len() / 4;
    assert_eq!(shown.len(), per * 4);
    assert!(per > 0);
    for c in 1..4 {
        assert_eq!(&shown[..per], &shown[c * per..(c + 1) * per]);
    }
    // Real, random, ablated, oracle.
    assert_ne!(&blocks[..per], &blocks[per..2 * per]);
    assert!(masks[2 * per..3 * per]
        .iter()
        .all(|m| m.iter().all(|&x| x == 0.0)));
    assert!(masks[3 * per..].iter().all(|m| m.iter().all(|&x| x == 1.0)));
    let tallies = run.tallies();
    assert_eq!(tallies.len(), 4);
    assert!(tallies.iter().all(|t| t.losses.len() == per));
    assert_eq!(f(tallies[1].losses[0]), (per + 1) as f32);
    // Every pair scored, and each band holds as many under one condition as
    // under another.
    assert_eq!(per, seqs.len() * levels.len());
    let steps =
        |c: usize| -> Vec<usize> { tallies[c].bands.iter().map(|band| band.len()).collect() };
    assert_eq!(steps(0).iter().sum::<usize>(), per);
    for c in 1..4 {
        assert_eq!(steps(c), steps(0));
    }
}

#[test]
fn bands_are_half_open_and_cover_the_unit_interval() {
    let cca = CcaConfig::new(SEQ, 4, 2, 8, 2, 2, 16, 2, 1).expect("valid");
    let evaluator = Evaluator::new(cca, VOCAB, MASK, 5);
    let bands: Vec<(f32, f32)> = Evaluator::default_bands()
        .iter()
        .map(|&(low, high)| (f(low), f(high)))
        .collect();
    assert_eq!(bands.len(), 5);
    assert_eq!(bands[0].0, 0.0);
    for pair in bands.windows(2) {
        assert_eq!(pair[0].1, pair[1].0);
    }
    let at = |v: f32| evaluator.band_of(NoiseLevel::new(b(v)).unwrap());
    assert_eq!(at(0.0), Some(0));
    assert_eq!(at(0.2), Some(1));
    assert_eq!(at(0.5), Some(2));
    assert_eq!(at(1.0), Some(4));
}

#[test]
fn conditions_have_their_labels() {
    let labels: Vec<&str> = NeighbourCondition::all().iter().map(|c| c.label()).collect();
    assert_eq!(labels, vec!["real", "random", "ablated", "oracle"]);
}
