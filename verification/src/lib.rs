//! **Anaphora**: retrieval-augmented masked-diffusion language modeling, with
//! its rules proved.
//!
//! Chunked cross-attention (CCA), as RETRO defined it, under a masked
//! diffusion LM instead of an autoregressive one. The shape is a retrofit:
//! freeze a pretrained diffusion backbone and train only the neighbour
//! encoder, the CCA blocks, and the gates.
//!
//! # The failure this crate is built to prevent
//!
//! > The retriever may only see what the denoiser sees.
//!
//! Build retrieval queries from the clean sequence during training and the
//! neighbours correlate with exactly the tokens that were masked. The loss
//! collapses into copy-from-neighbour and the experiment measures nothing.
//! **The failure is silent: perplexity improves.** That it cannot happen here
//! is `train::law_masked_tokens_do_not_reach_retrieval`.
//!
//! # Layout
//!
//! | module | what it holds |
//! |---|---|
//! | [`binary32`], [`arithmetic`], [`root`] | single-precision numbers as words, rounded exactly |
//! | [`rng`], [`hash`], [`number`], [`text`], [`bytes`] | small parts |
//! | [`view`], [`chunk`] | noised views and query construction |
//! | [`schedule`] | noise levels, the hard gate, refreshes |
//! | [`retrieval`] | index, corpus, leakage control |
//! | [`corpus`], [`shard`], [`prepare`] | documents, windows, shards and ingest |
//! | [`loss`], [`train`], [`init`] | the objective, a training step, initial values |
//! | [`model`] | the graph as a plan, and what trains in it |
//! | [`sample`], [`generate`](mod@generate) | the denoising loop |
//! | [`eval`] | the evaluation protocol |
//! | [`checkpoint`] | parameter dumps |
//! | [`tokenizer`], [`play`] | text in, text out |
//!
//! Numbers of the model are single-precision words ([`binary32::Binary32`]);
//! what only a device or a transcendental function can compute is handed in.
pub mod arithmetic;
pub mod binary32;
pub mod bytes;
pub mod checkpoint;
pub mod chunk;
pub mod config;
pub mod corpus;
pub mod eval;
pub mod generate;
pub mod hash;
pub mod init;
pub mod loss;
pub mod model;
pub mod number;
pub mod play;
pub mod prepare;
pub mod retrieval;
pub mod rng;
pub mod root;
pub mod sample;
pub mod schedule;
pub mod shard;
pub mod text;
pub mod tokenizer;
pub mod train;
pub mod view;

pub use binary32::Binary32;
pub use checkpoint::{Checkpoint, CheckpointError, CheckpointMeta};
pub use chunk::{chunk_queries, ChunkAdmission, ChunkQueries, ChunkedView, RetrieverEncode};
pub use config::{CcaConfig, ConfigError};
pub use corpus::{ChunkEmbedder, Document, HashedBagEmbedder, TrainingSequence};
pub use eval::{EvalReport, Evaluator, NeighbourCondition};
pub use generate::{decode_token_ids, generate};
pub use init::seed_parameters;
pub use loss::{LabelStats, MaskedDiffusionLoss};
pub use model::{CcaInsertion, CcaModel, ModelConfig, NeighbourInput};
pub use retrieval::{retrieve, Neighbours};
pub use schedule::{retrieve_now, trajectory, NoiseLevel, Phase, RefreshSchedule};
pub use shard::{split_of, CorpusShard, Split};
pub use train::{RetrievalSources, StepReport, Trainer, TrainingConfig};
pub use view::{CleanSequence, IdSource, MaskToken, NoisedView, SequenceId, ViewId};
