//! The leakage guards: view identity, document provenance, n-gram audit.

use anaphora::chunk::{chunk_queries, Chunk, ChunkAdmission, ChunkedView, RetrieverEncode};
use anaphora::config::CcaConfig;
use anaphora::retrieval::corpus::{
    CorpusError, DocumentId, NeighbourCorpus, NeighbourId, NeighbourRecord,
};
use anaphora::retrieval::index::{ExactIndex, NeighbourIndex};
use anaphora::retrieval::leakage::{ngram_overlap, LeakageGuard, NgramOverlapFilter};
use anaphora::retrieval::retrieve;
use anaphora::schedule::{NoiseLevel, Phase};
use anaphora::view::{check_same_view, CleanSequence, IdSource, MaskToken, NoisedView};
use anaphora::Binary32;

const MASK: MaskToken = MaskToken(0);

fn b(v: f32) -> Binary32 {
    Binary32::from_bits(v.to_bits())
}

fn f(x: Binary32) -> f32 {
    f32::from_bits(x.to_bits())
}

fn level(v: f32) -> NoiseLevel {
    NoiseLevel::new(b(v)).unwrap()
}

struct ConstEncoder;

impl RetrieverEncode for ConstEncoder {
    fn query_dim(&self) -> usize {
        1
    }
    fn encode_chunk(&mut self, chunk: Chunk<'_>, _t: NoiseLevel, out: &mut Vec<Binary32>) {
        out.push(b(chunk.index() as f32));
    }
}

fn corpus_with(docs: &[(u64, &[u32])], r: usize) -> NeighbourCorpus {
    let mut corpus = NeighbourCorpus::new(r, 2);
    for (i, &(doc, tokens)) in docs.iter().enumerate() {
        corpus
            .push(
                &NeighbourRecord {
                    document: DocumentId(doc),
                    offset: 0,
                    tokens: tokens.to_vec(),
                },
                &[b(i as f32), b(0.0)],
            )
            .expect("shapes match");
    }
    corpus
}

#[test]
fn derived_values_carry_their_view_identity() {
    let mut ids = IdSource::new();
    let clean = CleanSequence::new(vec![1, 2, 3, 4], &mut ids);
    let a = clean.mask_with(level(0.5), MASK, |i| i % 2 == 0, &mut ids);
    let b = clean.mask_with(level(0.5), MASK, |i| i % 2 == 0, &mut ids);
    // Same sequence, same t, same masking rule: still different views, so a
    // value derived from one is not interchangeable with the other.
    assert_ne!(a.id(), b.id());
}

#[test]
fn revealing_produces_a_new_view() {
    // A denoising step changes the sequence, so neighbours retrieved against
    // the previous view are stale. Staleness has to be the refresh
    // schedule's decision, which it cannot be if reveal mutates in place.
    let mut ids = IdSource::new();
    let view = NoisedView::all_masked(4, MASK, &mut ids);
    let next = view.reveal_at(&[(0, 7)], level(0.5), &mut ids);
    assert_ne!(view.id(), next.id());
    assert_eq!(next.tokens()[0], 7);
    assert!(!next.masked()[0]);
    assert_eq!(view.num_masked(), 4);
    assert_eq!(next.num_masked(), 3);
}

#[test]
fn mask_rate_counts_what_masking_actually_did() {
    let mut ids = IdSource::new();
    let clean = CleanSequence::new(vec![1, 2, 3, 4], &mut ids);
    let view = clean.mask_with(level(0.9), MASK, |i| i < 1, &mut ids);
    // t says 0.9; the process masked one position in four.
    assert_eq!(f(view.noise_level().get()), 0.9);
    assert_eq!(f(view.mask_rate()), 0.25);
}

#[test]
fn ngram_overlap_is_a_fraction_of_distinct_grams() {
    let a = [1, 2, 3, 4];
    assert_eq!(f(ngram_overlap(&a, &a, 2)), 1.0);
    assert_eq!(f(ngram_overlap(&a, &[9, 9, 9], 2)), 0.0);
    // a's 2-grams: (1,2) (2,3) (3,4); b holds (2,3) only.
    let overlap = f(ngram_overlap(&a, &[2, 3], 2));
    assert!((overlap - 1.0 / 3.0).abs() < 1e-6);
    // Nothing to compare when a is shorter than n.
    assert_eq!(f(ngram_overlap(&[1], &[1], 4)), 0.0);
}

#[test]
fn source_document_is_excluded() {
    let corpus = corpus_with(&[(1, &[1, 2, 3, 4]), (2, &[5, 6, 7, 8])], 4);
    let guard = LeakageGuard::by_source_document();
    let ids: Vec<_> = (0..corpus.len()).map(|i| NeighbourId(i as u32)).collect();
    assert!(!guard.accepts(DocumentId(1), ids[0], &corpus));
    assert!(guard.accepts(DocumentId(1), ids[1], &corpus));
}

#[test]
fn audit_catches_near_duplicates_under_another_document_id() {
    // The case document provenance alone misses: the same text re-hosted
    // under a different id. This is why the audit exists.
    let training = [10, 11, 12, 13, 14, 15];
    let corpus = corpus_with(
        &[
            (1, &[10, 11, 12, 13, 14, 15]), // the training document itself
            (2, &[10, 11, 12, 13, 14, 15]), // a verbatim copy elsewhere
            (3, &[90, 91, 92, 93, 94, 95]), // unrelated
        ],
        6,
    );
    let mut guard = LeakageGuard::by_source_document();
    let filter = NgramOverlapFilter::new(3, b(0.1)).expect("valid");
    let excluded = guard.audit(DocumentId(1), &training, &corpus, filter);
    assert_eq!(excluded, 2, "both copies should be caught");

    let ids: Vec<_> = (0..3).map(NeighbourId).collect();
    assert!(!guard.accepts(DocumentId(1), ids[0], &corpus));
    assert!(!guard.accepts(DocumentId(1), ids[1], &corpus));
    assert!(guard.accepts(DocumentId(1), ids[2], &corpus));
}

#[test]
fn exclusions_apply_during_search_so_k_is_still_met() {
    // Filtering after the search would silently return fewer than k
    // neighbours: a change in the experiment, not in the safety margin.
    let mut corpus = NeighbourCorpus::new(2, 1);
    for (i, doc) in [1u64, 1, 2, 3].iter().enumerate() {
        corpus
            .push(
                &NeighbourRecord {
                    document: DocumentId(*doc),
                    offset: 0,
                    tokens: vec![i as u32, i as u32],
                },
                &[b(i as f32)],
            )
            .expect("shapes match");
    }
    let index = ExactIndex::build(&corpus);
    let guard = LeakageGuard::by_source_document();

    // Query nearest to the two excluded entries (embeddings 0.0 and 1.0).
    let accept = guard.accept_fn(DocumentId(1), &corpus);
    let found = index.search(&[b(0.0)], 2, &accept);
    assert_eq!(found.len(), 2, "search must still return k neighbours");
    for candidate in &found {
        assert_ne!(corpus.document(candidate.id), Some(DocumentId(1)));
    }
}

#[test]
fn view_mismatch_is_detected() {
    let cfg = CcaConfig::new(4, 2, 1, 2, 1, 1, 2, 1, 0).expect("valid");
    let mut ids = IdSource::new();
    let clean = CleanSequence::new(vec![1, 2, 3, 4], &mut ids);
    let view_a = clean.mask_with(level(0.5), MASK, |i| i == 0, &mut ids);
    let view_b = clean.mask_with(level(0.5), MASK, |i| i == 0, &mut ids);

    let chunked = ChunkedView::new(&view_a, cfg).expect("aligned");
    let queries = chunk_queries(
        chunked,
        Phase::Training,
        ChunkAdmission::permissive(),
        &mut ConstEncoder,
    )
    .expect("gate open at t=0.5");

    assert!(check_same_view(&view_a, &queries).is_ok());
    // Queries built from a *different* view of the same sequence are
    // rejected: this is the "cleaner query" leak that type inertness alone
    // does not cover.
    assert!(check_same_view(&view_b, &queries).is_err());
}

#[test]
fn a_search_returns_the_nearest_first() {
    let mut corpus = NeighbourCorpus::new(1, 1);
    for (i, x) in [5.0f32, 1.0, 3.0, 2.0].iter().enumerate() {
        corpus
            .push(
                &NeighbourRecord {
                    document: DocumentId(i as u64),
                    offset: i,
                    tokens: vec![i as u32],
                },
                &[b(*x)],
            )
            .expect("shapes match");
    }
    let index = ExactIndex::build(&corpus);
    let guard = LeakageGuard::disabled();
    let accept = guard.accept_fn(DocumentId(0), &corpus);
    let found = index.search(&[b(0.0)], 3, &accept);
    let ids: Vec<u32> = found.iter().map(|c| c.id.0).collect();
    assert_eq!(ids, vec![1, 3, 2]);
    let distances: Vec<f32> = found.iter().map(|c| f(c.distance)).collect();
    assert_eq!(distances, vec![1.0, 4.0, 9.0]);
    assert!(index.search(&[b(0.0)], 0, &accept).is_empty());
    assert_eq!(index.search(&[b(0.0)], 9, &accept).len(), 4);
}

#[test]
fn an_audit_only_takes_away() {
    let corpus = corpus_with(&[(2, &[1, 2, 3, 4]), (3, &[9, 9, 9, 9])], 4);
    let mut guard = LeakageGuard::disabled();
    assert!(guard.accepts(DocumentId(7), NeighbourId(0), &corpus));
    assert_eq!(guard.audited_exclusions(DocumentId(7)), 0);
    let filter = NgramOverlapFilter::new(2, b(0.5)).expect("valid");
    assert_eq!(filter.order(), 2);
    assert_eq!(guard.audit(DocumentId(7), &[1, 2, 3, 4], &corpus, filter), 1);
    assert_eq!(guard.audited_exclusions(DocumentId(7)), 1);
    assert!(!guard.accepts(DocumentId(7), NeighbourId(0), &corpus));
    assert!(guard.accepts(DocumentId(7), NeighbourId(1), &corpus));
    // Another document is not affected.
    assert!(guard.accepts(DocumentId(8), NeighbourId(0), &corpus));
}

#[test]
fn a_filter_needs_grams_and_a_fraction() {
    assert!(NgramOverlapFilter::new(0, b(0.1)).is_none());
    assert!(NgramOverlapFilter::new(3, b(1.5)).is_none());
    assert!(NgramOverlapFilter::new(3, b(f32::NAN)).is_none());
    let default = NgramOverlapFilter::default();
    assert_eq!(default.order(), 8);
    assert_eq!(f(default.max_overlap()), 0.1);
}

#[test]
fn a_corpus_rejects_records_of_another_shape() {
    let mut corpus = NeighbourCorpus::new(2, 1);
    let record = |tokens: Vec<u32>| NeighbourRecord {
        document: DocumentId(1),
        offset: 0,
        tokens,
    };
    let wrong_length = corpus.push(&record(vec![1, 2, 3]), &[b(0.0)]).unwrap_err();
    assert!(matches!(wrong_length, CorpusError::TokenLenMismatch {
            got: 3,
            expected: 2
        }));
    let wrong_width = corpus.push(&record(vec![1, 2]), &[]).unwrap_err();
    assert!(matches!(wrong_width, CorpusError::EmbedDimMismatch {
            got: 0,
            expected: 1
        }));
    assert!(corpus.is_empty());
    let id = corpus.push(&record(vec![1, 2]), &[b(0.5)]).expect("fits");
    assert_eq!(corpus.tokens(id), Some(&[1u32, 2][..]));
    assert_eq!(corpus.embedding(id), Some(&[b(0.5)][..]));
    assert_eq!(corpus.document(NeighbourId(1)), None);
    assert_eq!(
        wrong_length.message(),
        "neighbour has 3 tokens, corpus expects r=2"
    );
    assert_eq!(
        wrong_width.message(),
        "embedding has width 0, corpus expects d_r=1"
    );
}

#[test]
fn thresholds_compare_by_value() {
    assert_eq!(ChunkAdmission::new(b(0.5)), ChunkAdmission::new(b(0.5)));
    assert_ne!(ChunkAdmission::new(b(0.5)), ChunkAdmission::new(b(0.25)));
    assert_eq!(NgramOverlapFilter::new(3, b(0.5)), NgramOverlapFilter::new(3, b(0.5)));
    assert_ne!(NgramOverlapFilter::new(3, b(0.5)), NgramOverlapFilter::new(4, b(0.5)));
}

#[test]
fn a_repeated_audit_finds_nothing_new() {
    let corpus = corpus_with(&[(2, &[1, 2, 3, 4]), (3, &[9, 9, 9, 9])], 4);
    let mut guard = LeakageGuard::by_source_document();
    let filter = NgramOverlapFilter::new(2, b(0.5)).expect("valid");
    assert_eq!(guard.audit(DocumentId(7), &[1, 2, 3, 4], &corpus, filter), 1);
    assert_eq!(guard.audit(DocumentId(7), &[1, 2, 3, 4], &corpus, filter), 0);
    assert_eq!(guard.audited_exclusions(DocumentId(7)), 1);
}

#[test]
fn equally_near_entries_are_all_found() {
    let corpus = corpus_with(&[(1, &[1, 1]), (2, &[2, 2]), (3, &[3, 3])], 2);
    let index = ExactIndex::build(&corpus);
    let guard = LeakageGuard::disabled();
    let accept = guard.accept_fn(DocumentId(0), &corpus);
    // Entries 0 and 2 are at one distance from the query, entry 1 is nearer.
    let found = index.search(&[b(1.0), b(0.0)], 3, &accept);
    assert_eq!(found[0].id, NeighbourId(1));
    let mut rest: Vec<u32> = found[1..].iter().map(|c| c.id.0).collect();
    rest.sort_unstable();
    assert_eq!(rest, vec![0, 2]);
    assert_eq!(f(found[1].distance), f(found[2].distance));
}

#[test]
fn a_chunk_has_its_own_slots_and_no_others() {
    // Two chunks of two tokens, two neighbours of two tokens each.
    let cfg = CcaConfig::new(4, 2, 2, 2, 1, 1, 2, 1, 0).expect("valid");
    let mut corpus = NeighbourCorpus::new(2, 1);
    for (i, doc) in [1u64, 2].iter().enumerate() {
        corpus
            .push(
                &NeighbourRecord {
                    document: DocumentId(*doc),
                    offset: 0,
                    tokens: vec![10 + i as u32, 20 + i as u32],
                },
                &[b(i as f32)],
            )
            .expect("shapes match");
    }
    let index = ExactIndex::build(&corpus);
    let mut ids = IdSource::new();
    let clean = CleanSequence::new(vec![1, 2, 3, 4], &mut ids);
    let view = clean.mask_with(level(0.5), MASK, |i| i == 0, &mut ids);
    let queries = chunk_queries(
        ChunkedView::new(&view, cfg).expect("aligned"),
        Phase::Training,
        ChunkAdmission::permissive(),
        &mut ConstEncoder,
    )
    .expect("gate open at t=0.5");
    let guard = LeakageGuard::by_source_document();
    let found = retrieve(&queries, cfg, &index, &corpus, &guard, DocumentId(2));
    assert_eq!((found.num_chunks(), found.neighbours_per_chunk()), (2, 2));
    for chunk in 0..2 {
        assert!(found.chunk_has_neighbours(chunk));
        // Only the other document's entry is accepted.
        assert_eq!(found.id(chunk, 0), Some(NeighbourId(0)));
        assert_eq!(found.tokens(chunk, 0), Some(&[10, 20][..]));
        assert_eq!(found.id(chunk, 1), None);
        assert_eq!(found.tokens(chunk, 1), Some(&[0, 0][..]));
    }
    // The slot after the last of chunk 0 is not the first of chunk 1.
    assert_eq!(found.id(0, 2), None);
    assert_eq!(found.tokens(0, 2), None);
    assert_eq!(found.id(2, 0), None);
    assert_eq!(found.id(usize::MAX, usize::MAX), None);
    assert!(!found.chunk_has_neighbours(2));
    assert!(!found.chunk_has_neighbours(usize::MAX));
    assert_eq!(found.num_filled(), 2);
    assert_eq!(found.chunk_mask(), vec![true, true]);
    assert!(check_same_view(&view, &found).is_ok());
    let other = clean.mask_with(level(0.5), MASK, |i| i == 0, &mut ids);
    assert!(check_same_view(&other, &found).is_err());
    assert_eq!(clean.targets(), &[1, 2, 3, 4]);
}
