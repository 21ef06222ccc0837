//! The hard gate's training/inference asymmetry, and the refresh schedule.

use anaphora::schedule::{
    retrieve_now, trajectory, NoiseLevel, Phase, RefreshSchedule, RetrievalBand,
};
use anaphora::Binary32;

fn b(v: f32) -> Binary32 {
    Binary32::from_bits(v.to_bits())
}

fn f(x: Binary32) -> f32 {
    f32::from_bits(x.to_bits())
}

fn t(v: f32) -> NoiseLevel {
    NoiseLevel::new(b(v)).expect("in range")
}

fn schedule(thresholds: &[f32]) -> RefreshSchedule {
    let words: Vec<Binary32> = thresholds.iter().map(|&v| b(v)).collect();
    RefreshSchedule::new(&words)
}

#[test]
fn low_noise_band_is_training_only() {
    // Near t=0 the training query is nearly clean, so a neighbour's
    // continuation can hold the few remaining answers and the low-t loss goes
    // trivial. At inference there is nothing to leak and this is where
    // retrieval helps most.
    assert!(!retrieve_now(t(0.05), Phase::Training));
    assert!(retrieve_now(t(0.05), Phase::Inference));
}

#[test]
fn high_noise_band_is_closed_in_both_phases() {
    // Nearly all [MASK]: the query embedding is noise in either phase.
    assert!(!retrieve_now(t(0.95), Phase::Training));
    assert!(!retrieve_now(t(0.95), Phase::Inference));
}

#[test]
fn mid_band_is_open_in_both_phases() {
    for v in [0.2, 0.5, 0.8] {
        assert!(retrieve_now(t(v), Phase::Training), "training at t={v}");
        assert!(retrieve_now(t(v), Phase::Inference), "inference at t={v}");
    }
}

#[test]
fn band_edges_are_exclusive() {
    let band = RetrievalBand::default_training();
    assert!(!band.admits(t(0.15)));
    assert!(!band.admits(t(0.85)));
    assert!(band.admits(t(0.150001)));
}

#[test]
fn noise_levels_and_bands_compare_by_value() {
    assert!(t(0.2) < t(0.5));
    assert!(t(0.5) <= t(0.5));
    assert!(t(0.9) > t(0.5));
    assert_eq!(t(0.0).partial_cmp(&t(-0.0)), Some(std::cmp::Ordering::Equal));
    assert_eq!(RetrievalBand::default_training(), RetrievalBand::default_training());
    assert_ne!(RetrievalBand::default_training(), RetrievalBand::default_inference());
}

#[test]
fn noise_level_rejects_out_of_range() {
    assert!(NoiseLevel::new(b(-0.01)).is_none());
    assert!(NoiseLevel::new(b(1.01)).is_none());
    assert!(NoiseLevel::new(b(f32::NAN)).is_none());
    // A broken schedule should skip retrieval, not retrieve on garbage.
    assert_eq!(NoiseLevel::saturating(b(f32::NAN)), NoiseLevel::masked());
}

#[test]
fn first_step_always_refreshes() {
    // Nothing is cached at the start, so a trajectory whose first t sits
    // below every threshold must still retrieve once rather than run the
    // whole way with no neighbours.
    let mut schedule = schedule(&[0.8]);
    assert!(schedule.advance(t(0.2)));
}

#[test]
fn thresholds_fire_once_each_on_descent() {
    let mut schedule = schedule(&[0.8, 0.5, 0.25]);
    let fired: Vec<bool> = [1.0, 0.9, 0.8, 0.7, 0.5, 0.4, 0.25, 0.1]
        .iter()
        .map(|&v| schedule.advance(t(v)))
        .collect();
    // t=1.0 is the first step; 0.8, 0.5 and 0.25 are the crossings.
    assert_eq!(
        fired,
        vec![true, false, true, false, true, false, true, false]
    );
    assert!(schedule.remaining().is_empty());
}

#[test]
fn coarse_steps_collapse_skipped_thresholds() {
    // A refresh recomputes from the current t, so crossing three thresholds
    // in one step is one refresh, not three.
    let mut schedule = schedule(&[0.8, 0.5, 0.25]);
    assert!(schedule.advance(t(1.0)));
    assert!(schedule.advance(t(0.1)));
    assert!(!schedule.advance(t(0.05)));
}

#[test]
fn reset_rewinds_for_the_next_sample() {
    let mut schedule = schedule(&[0.5]);
    schedule.advance(t(1.0));
    schedule.advance(t(0.4));
    assert!(schedule.remaining().is_empty());
    schedule.reset();
    assert_eq!(schedule.remaining().len(), 1);
}

#[test]
fn trajectory_descends_from_masked_to_clean() {
    let steps = trajectory(5);
    assert_eq!(steps.len(), 5);
    assert_eq!(steps[0], NoiseLevel::masked());
    assert_eq!(steps[4], NoiseLevel::clean());
    for pair in steps.windows(2) {
        assert!(f(pair[0].get()) > f(pair[1].get()));
    }
    assert!(trajectory(0).is_empty());
    assert_eq!(trajectory(1), vec![NoiseLevel::masked()]);
}

#[test]
fn trajectory_levels_are_evenly_spaced() {
    let levels: Vec<f32> = trajectory(5).iter().map(|l| f(l.get())).collect();
    assert_eq!(levels, vec![1.0, 0.75, 0.5, 0.25, 0.0]);
}

#[test]
fn saturation_clamps_and_sends_the_unordered_to_masked() {
    assert_eq!(f(NoiseLevel::saturating(b(-3.0)).get()), 0.0);
    assert_eq!(f(NoiseLevel::saturating(b(7.0)).get()), 1.0);
    assert_eq!(f(NoiseLevel::saturating(b(0.25)).get()), 0.25);
    assert_eq!(
        NoiseLevel::saturating(b(f32::INFINITY)),
        NoiseLevel::masked()
    );
    assert_eq!(
        NoiseLevel::saturating(b(f32::NEG_INFINITY)),
        NoiseLevel::masked()
    );
}

#[test]
fn a_clean_view_still_retrieves_at_inference() {
    assert!(retrieve_now(NoiseLevel::clean(), Phase::Inference));
    assert!(!retrieve_now(NoiseLevel::clean(), Phase::Training));
    assert!(!retrieve_now(NoiseLevel::masked(), Phase::Inference));
}

#[test]
fn a_step_no_lower_does_not_refresh_again() {
    let mut schedule = schedule(&[0.8, 0.5]);
    assert!(schedule.advance(t(0.6)));
    assert!(!schedule.advance(t(0.6)));
    assert!(!schedule.advance(t(0.7)));
    assert!(schedule.advance(t(0.5)));
}

#[test]
fn thresholds_are_sorted_and_cleaned() {
    let schedule = schedule(&[0.25, f32::NAN, 0.8, 1.5, 0.5, -0.1, 0.5]);
    let rest: Vec<f32> = schedule.remaining().iter().map(|&x| f(x)).collect();
    assert_eq!(rest, vec![0.8, 0.5, 0.25]);
}

#[test]
fn a_band_needs_its_ends_in_order() {
    assert!(RetrievalBand::new(b(0.5), b(0.5)).is_none());
    assert!(RetrievalBand::new(b(0.6), b(0.5)).is_none());
    let band = RetrievalBand::new(b(0.5), b(0.75)).expect("ordered");
    assert!(band.admits(t(0.6)));
    assert!(!band.admits(t(0.5)));
    assert!(!band.admits(t(0.75)));
}
