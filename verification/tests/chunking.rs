//! Chunking the noised view and building queries from it.

use anaphora::chunk::{chunk_queries, Chunk, ChunkAdmission, ChunkedView, RetrieverEncode};
use anaphora::config::{CcaConfig, ConfigError};
use anaphora::schedule::{NoiseLevel, Phase};
use anaphora::view::{CleanSequence, IdSource, MaskToken, NoisedView};
use anaphora::Binary32;

const MASK: MaskToken = MaskToken(0);

fn b(v: f32) -> Binary32 {
    Binary32::from_bits(v.to_bits())
}

fn f(x: Binary32) -> f32 {
    f32::from_bits(x.to_bits())
}

fn level(v: f32) -> NoiseLevel {
    NoiseLevel::new(b(v)).unwrap()
}

/// Records which chunks it was asked to encode, so a test can assert that a
/// skipped chunk was never handed to the retriever at all.
struct RecordingEncoder {
    seen: Vec<usize>,
    dim: usize,
}

impl RetrieverEncode for RecordingEncoder {
    fn query_dim(&self) -> usize {
        self.dim
    }
    fn encode_chunk(&mut self, chunk: Chunk<'_>, _t: NoiseLevel, out: &mut Vec<Binary32>) {
        self.seen.push(chunk.index());
        out.extend(std::iter::repeat_n(b(chunk.index() as f32), self.dim));
    }
}

fn cfg() -> CcaConfig {
    CcaConfig::new(8, 4, 1, 4, 1, 1, 4, 1, 0).expect("valid")
}

#[test]
fn chunks_partition_the_sequence() {
    let mut ids = IdSource::new();
    let view = NoisedView::from_tokens(
        vec![1, 2, 3, 4, 5, 6, 7, 8],
        NoiseLevel::clean(),
        MASK,
        &mut ids,
    );
    let chunked = ChunkedView::new(&view, cfg()).expect("aligned");
    assert_eq!(chunked.len(), 2);
    assert_eq!(chunked.get(0).unwrap().tokens(), &[1, 2, 3, 4]);
    assert_eq!(chunked.get(1).unwrap().tokens(), &[5, 6, 7, 8]);
    assert!(chunked.get(2).is_none());
}

#[test]
fn misaligned_view_is_rejected() {
    let mut ids = IdSource::new();
    let view = NoisedView::from_tokens(vec![1, 2, 3], NoiseLevel::clean(), MASK, &mut ids);
    assert!(ChunkedView::new(&view, cfg()).is_err());
}

#[test]
fn chunk_mask_rate_is_local() {
    // A global t says the average chunk has signal; it says nothing about a
    // chunk the masking process happened to flatten.
    let mut ids = IdSource::new();
    let clean = CleanSequence::new(vec![1, 2, 3, 4, 5, 6, 7, 8], &mut ids);
    let view = clean.mask_with(level(0.5), MASK, |i| i < 4, &mut ids);
    let chunked = ChunkedView::new(&view, cfg()).expect("aligned");
    assert_eq!(f(chunked.get(0).unwrap().mask_rate()), 1.0);
    assert_eq!(f(chunked.get(1).unwrap().mask_rate()), 0.0);
}

#[test]
fn fully_masked_chunk_is_not_sent_to_the_retriever() {
    let mut ids = IdSource::new();
    let clean = CleanSequence::new(vec![1, 2, 3, 4, 5, 6, 7, 8], &mut ids);
    let view = clean.mask_with(level(0.5), MASK, |i| i < 4, &mut ids);
    let chunked = ChunkedView::new(&view, cfg()).expect("aligned");

    let mut encoder = RecordingEncoder {
        seen: Vec::new(),
        dim: 2,
    };
    let queries = chunk_queries(
        chunked,
        Phase::Training,
        ChunkAdmission::new(b(0.85)).unwrap(),
        &mut encoder,
    )
    .expect("gate open at t=0.5");

    assert_eq!(encoder.seen, vec![1], "the flattened chunk must be skipped");
    assert!(!queries.is_admitted(0));
    assert!(queries.is_admitted(1));
    assert_eq!(queries.num_admitted(), 1);
    assert_eq!(queries.admitted_indices(), vec![1]);
}

#[test]
fn skipped_chunks_keep_the_layout_dense() {
    // A skipped chunk still occupies its slot, so `query(i)` stays a slice
    // index rather than becoming a lookup through a sparse map.
    let mut ids = IdSource::new();
    let clean = CleanSequence::new(vec![1, 2, 3, 4, 5, 6, 7, 8], &mut ids);
    let view = clean.mask_with(level(0.5), MASK, |i| i < 4, &mut ids);
    let chunked = ChunkedView::new(&view, cfg()).expect("aligned");
    let mut encoder = RecordingEncoder {
        seen: Vec::new(),
        dim: 2,
    };
    let queries = chunk_queries(
        chunked,
        Phase::Training,
        ChunkAdmission::new(b(0.85)).unwrap(),
        &mut encoder,
    )
    .unwrap();
    assert_eq!(queries.len(), 2);
    assert_eq!(queries.query(0), Some(&[b(0.0), b(0.0)][..]));
    assert_eq!(queries.query(1), Some(&[b(1.0), b(1.0)][..]));
}

#[test]
fn closed_hard_gate_spends_no_index_traffic() {
    let mut ids = IdSource::new();
    let clean = CleanSequence::new(vec![1, 2, 3, 4, 5, 6, 7, 8], &mut ids);
    // t = 0.05: open at inference, closed during training.
    let view = clean.mask_with(level(0.05), MASK, |i| i == 0, &mut ids);
    let chunked = ChunkedView::new(&view, cfg()).expect("aligned");

    let mut encoder = RecordingEncoder {
        seen: Vec::new(),
        dim: 2,
    };
    assert!(chunk_queries(
        chunked,
        Phase::Training,
        ChunkAdmission::permissive(),
        &mut encoder
    )
    .is_none());
    assert!(encoder.seen.is_empty(), "no chunk should have been encoded");

    assert!(chunk_queries(
        chunked,
        Phase::Inference,
        ChunkAdmission::permissive(),
        &mut encoder
    )
    .is_some());
    assert_eq!(encoder.seen, vec![0, 1]);
}

#[test]
fn config_rejects_impossible_shapes() {
    // n not a multiple of m.
    assert!(CcaConfig::new(10, 4, 1, 4, 1, 1, 4, 1, 0).is_err());
    // num_heads not a multiple of num_kv_heads.
    assert!(CcaConfig::new(8, 4, 1, 4, 3, 2, 4, 1, 0).is_err());
    // zero chunk size.
    assert!(CcaConfig::new(8, 0, 1, 4, 1, 1, 4, 1, 0).is_err());
}

#[test]
fn cca_layers_follow_the_insertion_period() {
    // P=3 from layer 6.
    let cfg = CcaConfig::retro_like(8, 8, 64).expect("valid");
    assert_eq!(cfg.cca_layers(12), vec![6, 9]);
    assert_eq!(cfg.num_chunks(), 32);
    assert_eq!(cfg.neighbour_kv_rows(), 2 * 128);
}

#[test]
fn every_zero_shape_is_named() {
    let zero = |e: ConfigError, name: &str| {
        assert_eq!(e.message(), format!("`{name}` must be non-zero"));
    };
    zero(CcaConfig::new(0, 4, 1, 4, 1, 1, 4, 1, 0).unwrap_err(), "n");
    zero(CcaConfig::new(8, 0, 1, 4, 1, 1, 4, 1, 0).unwrap_err(), "m");
    zero(CcaConfig::new(8, 4, 0, 4, 1, 1, 4, 1, 0).unwrap_err(), "k");
    zero(CcaConfig::new(8, 4, 1, 0, 1, 1, 4, 1, 0).unwrap_err(), "r");
    zero(
        CcaConfig::new(8, 4, 1, 4, 0, 1, 4, 1, 0).unwrap_err(),
        "num_heads",
    );
    zero(
        CcaConfig::new(8, 4, 1, 4, 1, 0, 4, 1, 0).unwrap_err(),
        "num_kv_heads",
    );
    zero(
        CcaConfig::new(8, 4, 1, 4, 1, 1, 0, 1, 0).unwrap_err(),
        "head_dim",
    );
    zero(
        CcaConfig::new(8, 4, 1, 4, 1, 1, 4, 0, 0).unwrap_err(),
        "insert_every",
    );
    assert_eq!(
        CcaConfig::new(8, 4, 1, 4, 3, 2, 4, 1, 0).unwrap_err().message(),
        "num_heads=3 is not a multiple of num_kv_heads=2"
    );
    assert_eq!(
        CcaConfig::new(10, 4, 1, 4, 1, 1, 4, 1, 0).unwrap_err(),
        ConfigError::SequenceNotChunkAligned { n: 10, m: 4 }
    );
}

#[test]
fn the_getters_give_back_the_shapes() {
    let cfg = CcaConfig::new(8, 4, 3, 5, 6, 2, 7, 2, 1).expect("valid");
    assert_eq!(cfg.seq_len(), 8);
    assert_eq!(cfg.chunk_size(), 4);
    assert_eq!(cfg.num_chunks(), 2);
    assert_eq!(cfg.neighbours_per_chunk(), 3);
    assert_eq!(cfg.neighbour_len(), 5);
    assert_eq!(cfg.model_dim(), 42);
    assert_eq!(cfg.kv_dim(), 14);
    assert_eq!(cfg.num_heads(), 6);
    assert_eq!(cfg.num_kv_heads(), 2);
    assert_eq!(cfg.head_dim(), 7);
    assert!(!cfg.is_cca_layer(0));
    assert!(cfg.is_cca_layer(1));
    assert!(!cfg.is_cca_layer(2));
}

#[test]
fn an_unaligned_view_is_described() {
    let mut ids = IdSource::new();
    let view = NoisedView::from_tokens(vec![1, 2, 3], NoiseLevel::clean(), MASK, &mut ids);
    let e = ChunkedView::new(&view, cfg()).unwrap_err();
    assert_eq!(e.seq_len, 3);
    assert_eq!(e.expected, 8);
    assert!(e.message().contains('3'));
}

#[test]
fn queries_depend_on_what_the_view_shows_alone() {
    // Two clean sequences that differ only where both are masked.
    let mut ids = IdSource::new();
    let one = CleanSequence::new(vec![1, 2, 3, 4, 5, 6, 7, 8], &mut ids);
    let other = CleanSequence::new(vec![9, 2, 3, 4, 5, 6, 7, 9], &mut ids);
    let hides = |i: usize| i == 0 || i == 7;
    let a = one.mask_with(level(0.25), MASK, hides, &mut ids);
    let b_view = other.mask_with(level(0.25), MASK, hides, &mut ids);
    assert_ne!(a.id(), b_view.id());
    let mut embedder = anaphora::HashedBagEmbedder::bigram(32, MASK.0);
    let qa = chunk_queries(
        ChunkedView::new(&a, cfg()).unwrap(),
        Phase::Training,
        ChunkAdmission::permissive(),
        &mut embedder,
    )
    .unwrap();
    let qb = chunk_queries(
        ChunkedView::new(&b_view, cfg()).unwrap(),
        Phase::Training,
        ChunkAdmission::permissive(),
        &mut embedder,
    )
    .unwrap();
    for c in 0..2 {
        assert_eq!(qa.query(c), qb.query(c));
    }
    // And not on nothing: a visible token counts.
    let c_view = other.mask_with(level(0.25), MASK, |i| i == 7, &mut ids);
    let qc = chunk_queries(
        ChunkedView::new(&c_view, cfg()).unwrap(),
        Phase::Training,
        ChunkAdmission::permissive(),
        &mut embedder,
    )
    .unwrap();
    assert_ne!(qa.query(0), qc.query(0));
    assert_eq!(qa.query(1), qc.query(1));
}
