//! The masked-diffusion objective.

use anaphora::loss::{LabelError, MaskedDiffusionLoss};
use anaphora::schedule::NoiseLevel;
use anaphora::train::SparseLabels;
use anaphora::view::{CleanSequence, IdSource, MaskToken, NoisedView};
use anaphora::Binary32;

const MASK: MaskToken = MaskToken(0);
const VOCAB: usize = 16;
const SEQ: usize = 8;

fn b(v: f32) -> Binary32 {
    Binary32::from_bits(v.to_bits())
}

fn f(x: Binary32) -> f32 {
    f32::from_bits(x.to_bits())
}

fn t(v: f32) -> NoiseLevel {
    NoiseLevel::new(b(v)).expect("in range")
}

fn clean(ids: &mut IdSource) -> CleanSequence {
    CleanSequence::new((0..SEQ).map(|i| (i + 1) as u32).collect(), ids)
}

#[test]
fn only_masked_positions_score() {
    let mut ids = IdSource::new();
    let clean = clean(&mut ids);
    let view = clean.mask_with(t(0.5), MASK, |i| i % 2 == 0, &mut ids);
    let loss = MaskedDiffusionLoss::new(VOCAB);
    let mut labels = Vec::new();
    let stats = loss
        .build_labels(&view, &clean, &mut labels)
        .expect("valid");

    assert_eq!(stats.scored, 4);
    assert_eq!(stats.seq_len, SEQ);
    assert!((f(stats.weight) - 2.0).abs() < 1e-6, "1/t at t=0.5 is 2");

    let labels: Vec<f32> = labels.iter().map(|&x| f(x)).collect();
    for pos in 0..SEQ {
        let row = &labels[pos * VOCAB..(pos + 1) * VOCAB];
        let sum: f32 = row.iter().sum();
        if pos % 2 == 0 {
            // Masked: exactly one weighted entry, at the true token.
            assert!((sum - 2.0).abs() < 1e-6, "row {pos} should carry 1/t");
            assert!((row[pos + 1] - 2.0).abs() < 1e-6, "wrong target at {pos}");
        } else {
            // Unmasked: the position's token is already visible in the input,
            // so scoring it would only teach the model to copy its input.
            assert_eq!(sum, 0.0, "row {pos} must not score");
        }
    }
}

#[test]
fn weight_is_one_over_t_with_a_floor() {
    let loss = MaskedDiffusionLoss::new(VOCAB);
    assert!((f(loss.weight(t(0.25))) - 4.0).abs() < 1e-6);
    assert!((f(loss.weight(t(1.0))) - 1.0).abs() < 1e-6);
    // The weight diverges as t goes to zero; the floor bounds it. A tiny t is
    // a legitimate draw from the schedule, not a caller error.
    assert!(f(loss.weight(NoiseLevel::clean())).is_finite());
    assert!((f(loss.weight(NoiseLevel::clean())) - 1000.0).abs() < 1e-3);
}

#[test]
fn targets_from_another_sequence_are_rejected() {
    // The mirror image of the retrieval leak: not the retriever seeing too
    // much, but the loss scoring against the wrong answers.
    let mut ids = IdSource::new();
    let a = clean(&mut ids);
    let b = CleanSequence::new((0..SEQ).map(|i| (i + 2) as u32).collect(), &mut ids);
    let view = a.mask_with(t(0.5), MASK, |_| true, &mut ids);
    let loss = MaskedDiffusionLoss::new(VOCAB);
    let mut labels = Vec::new();
    assert!(matches!(
        loss.build_labels(&view, &b, &mut labels),
        Err(LabelError::SequenceMismatch { .. })
    ));
    assert!(
        labels.is_empty(),
        "a rejected call must not fill the tensor"
    );
}

#[test]
fn a_sampling_view_has_no_targets() {
    // Sampling starts from a canvas, not from a held-out answer.
    let mut ids = IdSource::new();
    let view = NoisedView::all_masked(SEQ, MASK, &mut ids);
    let loss = MaskedDiffusionLoss::new(VOCAB);
    let mut labels = Vec::new();
    assert!(matches!(
        loss.build_labels(&view, &clean(&mut ids), &mut labels),
        Err(LabelError::SequenceMismatch {
            view_source: None,
            ..
        })
    ));
}

#[test]
fn out_of_vocabulary_targets_are_rejected() {
    let mut ids = IdSource::new();
    let clean = CleanSequence::new(vec![99; SEQ], &mut ids);
    let view = clean.mask_with(t(0.5), MASK, |_| true, &mut ids);
    let loss = MaskedDiffusionLoss::new(VOCAB);
    let mut labels = Vec::new();
    assert!(matches!(
        loss.build_labels(&view, &clean, &mut labels),
        Err(LabelError::TokenOutOfRange { .. })
    ));
}

#[test]
fn a_step_that_masks_nothing_contributes_nothing() {
    let mut ids = IdSource::new();
    let clean = clean(&mut ids);
    let view = clean.mask_with(t(0.5), MASK, |_| false, &mut ids);
    let loss = MaskedDiffusionLoss::new(VOCAB);
    let mut labels = Vec::new();
    let stats = loss
        .build_labels(&view, &clean, &mut labels)
        .expect("valid");
    assert_eq!(stats.scored, 0);
    assert!(!stats.contributes(), "the caller should skip this step");
    assert!(labels.iter().all(|&w| f(w) == 0.0));
}

#[test]
fn dense_label_cost_is_reported() {
    // The operator takes dense [n, vocab] labels, so the tensor carries at
    // most `n` non-zero values in `n * vocab` numbers.
    let llada = MaskedDiffusionLoss::new(126_464);
    assert_eq!(llada.label_bytes(512), 512 * 126_464 * 4);
    assert!(llada.label_bytes(2048) > 1_000_000_000, "over a gigabyte");
}

#[test]
fn a_view_of_another_length_is_rejected() {
    let mut ids = IdSource::new();
    let a = clean(&mut ids);
    let short = CleanSequence::new(vec![1, 2], &mut ids);
    let view = short.mask_with(t(0.5), MASK, |_| true, &mut ids);
    let loss = MaskedDiffusionLoss::new(VOCAB);
    let mut labels = Vec::new();
    let e = loss.build_labels(&view, &a, &mut labels).unwrap_err();
    assert_eq!(e, LabelError::LengthMismatch { view: 2, clean: 8 });
    assert!(e.message().contains('2') && e.message().contains('8'));
}

#[test]
fn the_weight_is_rounded_as_a_division() {
    let loss = MaskedDiffusionLoss::new(VOCAB);
    for v in [0.3f32, 0.7, 0.123456, 0.999] {
        assert_eq!(f(loss.weight(t(v))), 1.0 / v);
    }
    let raised = loss.with_min_t(b(0.5));
    assert_eq!(f(raised.weight(t(0.1))), 2.0);
}

#[test]
fn a_sparse_write_leaves_the_dense_tensor() {
    let mut ids = IdSource::new();
    let clean = clean(&mut ids);
    let loss = MaskedDiffusionLoss::new(VOCAB);
    let mut writer = SparseLabels::new(SEQ, VOCAB);
    let mut buffer = vec![b(0.0); SEQ * VOCAB];
    writer.zero();
    for round in 0..3usize {
        let view = clean.mask_with(t(0.25), MASK, |i| i % 3 == round, &mut ids);
        let stats = writer
            .write(&mut buffer, loss, &view, &clean)
            .expect("valid");
        let mut dense = Vec::new();
        let expected = loss.build_labels(&view, &clean, &mut dense).expect("valid");
        assert_eq!(buffer, dense);
        assert_eq!(stats.scored, expected.scored);
    }
}

#[test]
fn entries_are_the_masked_targets() {
    let mut ids = IdSource::new();
    let clean = clean(&mut ids);
    let view = clean.mask_with(t(0.5), MASK, |i| i == 2 || i == 5, &mut ids);
    let loss = MaskedDiffusionLoss::new(VOCAB);
    let mut entries = Vec::new();
    let stats = loss.scatter(&view, &clean, &mut entries).expect("valid");
    assert_eq!(entries, vec![(2, 3), (5, 6)]);
    assert_eq!(stats.scored, 2);
}
