//! The interactive program's own decisions: the shapes it runs at, where its
//! weights come from, and what a typed line asks for.
pub mod arguments;
pub mod engine;
pub mod graphs;
pub mod pretrain;

use crate::binary32::Binary32;
use crate::checkpoint::CheckpointMeta;
use crate::config::CcaConfig;
use crate::corpus::TrainingSequence;
use crate::model::backbone::BackboneConfig;
use crate::model::encoder::{EncoderScope, NeighbourEncoderConfig};
use crate::model::gate::GateActivation;
use crate::model::{ModelConfig, NeighbourInput};
use crate::text::{numbered, same, trim, trim_end};
use crate::tokenizer::{mask_token_id, vocab_size};
use crate::train::{NoiseSampler, Trainer, TrainingConfig};
use crate::view::MaskToken;
use arguments::PlayArgs;
use vstd::prelude::*;
use vstd::string::*;

verus! {

/// Chunk size.
pub const CHUNK: usize = 16;

/// Attention heads.
pub const HEADS: u32 = 4;

/// Per-head width.
pub const HEAD_DIM: u32 = 32;

/// Backbone layers.
pub const LAYERS: usize = 6;

/// Feed-forward inner width.
pub const INTERMEDIATE: usize = 256;

/// Neighbour encoder layers.
pub const ENCODER_LAYERS: usize = 2;

/// Retrieval vector width.
pub const EMBED_DIM: usize = 64;

/// The shapes of everything the program builds.
#[derive(Clone, Copy, Debug)]
pub struct Shapes {
    /// The retrieval path.
    pub cca: CcaConfig,
    /// The backbone.
    pub backbone: BackboneConfig,
    /// The neighbour encoder.
    pub encoder: NeighbourEncoderConfig,
    /// What a checkpoint of these shapes is tagged with.
    pub meta: CheckpointMeta,
}

impl Shapes {
    /// Whether these are the shapes of a canvas of `seq_len` over `vocab`
    /// tokens.
    pub open spec fn are_for(self, seq_len: usize, vocab: usize) -> bool {
        &&& self.cca.wf()
        &&& self.cca.n() == seq_len
        &&& self.cca.m() == CHUNK
        &&& self.cca.k() == 2
        &&& self.cca.r() == 2 * CHUNK
        &&& self.cca.heads() == HEADS
        &&& self.cca.kv_heads() == HEADS
        &&& self.cca.head_width() == HEAD_DIM
        &&& self.cca.period() == 2
        &&& self.cca.first_layer() == 1
        &&& self.backbone == (BackboneConfig {
            vocab_size: vocab,
            num_layers: LAYERS,
            num_heads: HEADS,
            num_kv_heads: HEADS,
            head_dim: HEAD_DIM,
            intermediate_size: INTERMEDIATE,
            rope_theta: Binary32 { bits: 0x461C_4000 },
            rms_norm_eps: Binary32 { bits: 0x3727_C5AC },
        })
        &&& self.encoder == (NeighbourEncoderConfig {
            vocab_size: vocab,
            num_layers: ENCODER_LAYERS,
            num_heads: HEADS,
            num_kv_heads: HEADS,
            head_dim: HEAD_DIM,
            intermediate_size: INTERMEDIATE,
            scope: EncoderScope::PerNeighbour,
        })
        &&& self.meta == (CheckpointMeta {
            vocab_size: (vocab as nat % 0x1_0000_0000) as u32,
            seq_len: (seq_len as nat % 0x1_0000_0000) as u32,
            chunk: 16,
            num_layers: 6,
            num_heads: HEADS,
            head_dim: HEAD_DIM,
            intermediate_size: 256,
        })
    }

    /// The model of these shapes.
    pub open spec fn as_model(self) -> ModelConfig {
        ModelConfig {
            cca: self.cca,
            backbone: self.backbone,
            encoder: self.encoder,
            activation: GateActivation::Tanh,
            neighbours: NeighbourInput::Encoded,
        }
    }

    /// The model of these shapes.
    pub fn model(&self) -> (cfg: ModelConfig)
        ensures
            cfg == self.as_model(),
    {
        ModelConfig {
            cca: self.cca,
            backbone: self.backbone,
            encoder: self.encoder,
            activation: GateActivation::Tanh,
            neighbours: NeighbourInput::Encoded,
        }
    }
}

/// The model of every canvas up to eight million tokens can be built.
pub proof fn law_shapes_can_be_built(shapes: Shapes, seq_len: usize, vocab: usize)
    requires
        shapes.are_for(seq_len, vocab),
        seq_len <= 0x7F_FFFF,
    ensures
        shapes.as_model().fault() is None,
{
    let cca = shapes.cca;
    let (l, n) = (cca.l() as int, cca.n() as int);
    vstd::arithmetic::div_mod::lemma_fundamental_div_mod(n, 16);
    assert(cca.l() * cca.k() * cca.r() == 4 * n);
    assert(cca.d() == 128);
}

/// Whether a canvas can have this length.
pub open spec fn chunk_aligned(seq_len: nat) -> bool {
    seq_len > 0 && seq_len % (CHUNK as nat) == 0
}

/// The text for a canvas length that cannot be.
pub open spec fn seq_len_chars(seq_len: nat) -> Seq<char> {
    "--seq-len "@ + crate::text::decimal_chars(seq_len) + " must be a positive multiple of 16"@
}

/// The shapes for a canvas of `seq_len` over `vocab` tokens.
pub fn shapes(seq_len: usize, vocab: usize) -> (shapes: Result<Shapes, String>)
    ensures
        chunk_aligned(seq_len as nat) ==> shapes is Ok && shapes->Ok_0.are_for(seq_len, vocab),
        !chunk_aligned(seq_len as nat) ==> shapes is Err && shapes->Err_0@ == seq_len_chars(
            seq_len as nat,
        ),
{
    if seq_len == 0 || seq_len % CHUNK != 0 {
        return Err(numbered("--seq-len ", seq_len as u64, " must be a positive multiple of 16"));
    }
    let cca: CcaConfig = match CcaConfig::new(
        seq_len,
        CHUNK,
        2,
        CHUNK * 2,
        HEADS as usize,
        HEADS as usize,
        HEAD_DIM as usize,
        2,
        1,
    ) {
        Ok(cca) => cca,
        Err(fault) => {
            return Err(fault.message());
        },
    };
    let backbone = BackboneConfig {
        vocab_size: vocab,
        num_layers: LAYERS,
        num_heads: HEADS,
        num_kv_heads: HEADS,
        head_dim: HEAD_DIM,
        intermediate_size: INTERMEDIATE,
        rope_theta: Binary32::from_bits(0x461C_4000),
        rms_norm_eps: Binary32::from_bits(0x3727_C5AC),
    };
    let encoder = NeighbourEncoderConfig {
        vocab_size: vocab,
        num_layers: ENCODER_LAYERS,
        num_heads: HEADS,
        num_kv_heads: HEADS,
        head_dim: HEAD_DIM,
        intermediate_size: INTERMEDIATE,
        scope: EncoderScope::PerNeighbour,
    };
    let meta = CheckpointMeta {
        vocab_size: (vocab as u64 % 0x1_0000_0000) as u32,
        seq_len: (seq_len as u64 % 0x1_0000_0000) as u32,
        chunk: 16,
        num_layers: 6,
        num_heads: HEADS,
        head_dim: HEAD_DIM,
        intermediate_size: 256,
    };
    Ok(Shapes { cca, backbone, encoder, meta })
}

/// What the program runs with, once a tokenizer is there.
#[derive(Clone, Copy, Debug)]
pub struct Setup {
    /// The tokenizer's vocabulary.
    pub vocab: usize,
    /// Its mask token.
    pub mask: MaskToken,
    /// The shapes of everything.
    pub shapes: Shapes,
}

/// What is wrong with a request, the first fault found: no mask token, no
/// denoising step, or a canvas of no whole chunks.
pub open spec fn setup_fault(seq_len: nat, steps: nat, mask: Option<u32>) -> Option<Seq<char>> {
    if mask is None {
        Some("tokenizer has no recognisable mask token"@)
    } else if steps == 0 {
        Some("--steps must be positive"@)
    } else if !chunk_aligned(seq_len) {
        Some(seq_len_chars(seq_len))
    } else {
        None
    }
}

/// What to run with, for a tokenizer of this vocabulary, whose mask token is
/// `mask` or which has none.
pub fn setup_for(args: &PlayArgs, vocab: usize, mask: Result<u32, String>) -> (setup: Result<
    Setup,
    String,
>)
    ensures
        mask is Err ==> setup is Err && setup->Err_0 == mask->Err_0,
        mask matches Ok(id) ==> match setup_fault(args.seq_len as nat, args.steps as nat, Some(id)) {
            Some(fault) => setup is Err && setup->Err_0@ == fault,
            None => setup is Ok && setup->Ok_0.vocab == vocab && setup->Ok_0.mask == MaskToken(id)
                && setup->Ok_0.shapes.are_for(args.seq_len, vocab),
        },
{
    let mask: MaskToken = match mask {
        Ok(id) => MaskToken(id),
        Err(fault) => {
            return Err(fault);
        },
    };
    if args.steps == 0 {
        return Err(String::from_str("--steps must be positive"));
    }
    match shapes(args.seq_len, vocab) {
        Ok(shapes) => Ok(Setup { vocab, mask, shapes }),
        Err(fault) => Err(fault),
    }
}

/// What to run with, for this tokenizer.
pub fn setup(args: &PlayArgs, tokenizer: &tokenizers::Tokenizer) -> (setup: Result<Setup, String>)
    ensures
        match setup_fault(
            args.seq_len as nat,
            args.steps as nat,
            crate::tokenizer::mask_in(crate::tokenizer::vocabulary(*tokenizer)),
        ) {
            Some(fault) => setup is Err && setup->Err_0@ == fault,
            None => setup is Ok && setup->Ok_0.vocab == crate::tokenizer::entry_count(*tokenizer)
                && setup->Ok_0.mask == MaskToken(
                crate::tokenizer::mask_in(crate::tokenizer::vocabulary(*tokenizer))->0,
            ) && setup->Ok_0.shapes.are_for(args.seq_len, setup->Ok_0.vocab),
        },
{
    setup_for(args, vocab_size(tokenizer), mask_token_id(tokenizer))
}

/// Where the weights come from.
#[derive(Clone, Copy, Debug, PartialEq, Eq, Structural)]
pub enum WeightSource {
    /// Load the checkpoint.
    Load,
    /// Train, as asked.
    Train,
    /// Train, since there is no checkpoint.
    TrainMissing,
}

/// Where the weights come from: a checkpoint that exists, unless training was
/// asked for.
pub fn weight_source(train: bool, saved: bool) -> (source: WeightSource)
    ensures
        source == if train {
            WeightSource::Train
        } else if saved {
            WeightSource::Load
        } else {
            WeightSource::TrainMissing
        },
{
    if train {
        WeightSource::Train
    } else if saved {
        WeightSource::Load
    } else {
        WeightSource::TrainMissing
    }
}

/// The token that pads short windows: the one before the mask token.
pub fn pad_token(mask: MaskToken) -> (pad: u32)
    ensures
        pad == if mask.0 == 0 {
            u32::MAX
        } else {
            (mask.0 - 1) as u32
        },
{
    mask.0.wrapping_sub(1)
}

/// The seed of the generator that masks windows while the retrofit trains.
pub const RETROFIT_SEED: u64 = 0xCA11B;

/// The seed that the retrofit's parameters start from, where the backbone's
/// started from `seed`.
pub fn retrofit_seed(seed: u64) -> (mixed: u64)
    ensures
        mixed == seed ^ 0xF17,
{
    seed ^ 0xF17
}

/// The trainer of the retrofit.
pub fn retrofit_trainer(setup: &Setup) -> (trainer: Trainer)
    requires
        setup.shapes.cca.wf(),
        setup.shapes.cca.l() * setup.shapes.cca.k() * setup.shapes.cca.r() <= usize::MAX,
        setup.shapes.cca.n() * setup.vocab <= usize::MAX,
        setup.shapes.cca.n() <= 0x1_0000_0000,
    ensures
        trainer.wf(),
        trainer.seed() == RETROFIT_SEED,
        trainer.taken() == 0,
        !trainer.zeroed(),
        trainer.config().cca == setup.shapes.cca,
        trainer.config().vocab_size == setup.vocab,
        trainer.config().mask_token == setup.mask,
        trainer.config().noise == NoiseSampler::Uniform,
        trainer.config().retrieval_enabled,
        trainer.config().admission.limit().bits == 0x3F59_999A,
{
    Trainer::new(TrainingConfig::new(setup.shapes.cca, setup.vocab, setup.mask), RETROFIT_SEED)
}

/// The window that step `i` of the retrofit trains on: one after another, and
/// round again.
pub fn retrofit_window(windows: &[TrainingSequence], i: usize) -> (window: &TrainingSequence)
    requires
        windows@.len() > 0,
    ensures
        *window == windows@[i as int % windows@.len() as int],
{
    &windows[i % windows.len()]
}

/// Whether a line ends the conversation.
pub open spec fn quits(line: Seq<char>) -> bool {
    line == "quit"@ || line == "exit"@ || line == ":q"@ || line == ":quit"@
}

/// Whether a line ends the conversation.
pub fn is_quit(line: &str) -> (b: bool)
    ensures
        b == quits(line@),
{
    same(line, "quit") || same(line, "exit") || same(line, ":q") || same(line, ":quit")
}

/// What a typed line asks for.
#[derive(Clone, Debug)]
pub enum Turn {
    /// Nothing: ask again.
    Again,
    /// To end.
    Quit,
    /// A generation from this prompt.
    Generate(String),
}

/// What a typed line asks for, white space at its ends aside.
pub fn turn(line: &str) -> (turn: Turn)
    ensures
        ({
            let words = crate::text::trimmed_start(crate::text::trimmed_end(line@));
            if words.len() == 0 {
                turn is Again
            } else if quits(words) {
                turn is Quit
            } else {
                turn matches Turn::Generate(prompt) && prompt@ == words
            }
        }),
{
    let words: &str = trim(line);
    if words.unicode_len() == 0 {
        Turn::Again
    } else if is_quit(words) {
        Turn::Quit
    } else {
        Turn::Generate(String::from_str(words))
    }
}

/// The prompt on a line that was piped in, if there is one.
pub fn piped_prompt(line: &str) -> (prompt: Result<String, String>)
    ensures
        crate::text::trimmed_end(line@).len() > 0 ==> prompt is Ok && prompt->Ok_0@
            == crate::text::trimmed_end(line@),
        crate::text::trimmed_end(line@).len() == 0 ==> prompt is Err && prompt->Err_0@
            == "stdin was empty; pass --prompt TEXT or type a line"@,
{
    let prompt: &str = trim_end(line);
    if prompt.unicode_len() == 0 {
        Err(String::from_str("stdin was empty; pass --prompt TEXT or type a line"))
    } else {
        Ok(String::from_str(prompt))
    }
}

/// A request can be run exactly where the tokenizer has a mask token, there is a
/// step to take, and the canvas is some whole number of chunks of sixteen.
pub proof fn law_a_request_runs_where_it_can(seq_len: nat, steps: nat, mask: Option<u32>)
    ensures
        setup_fault(seq_len, steps, mask) is None <==> mask is Some && steps > 0 && seq_len >= 16
            && seq_len == 16 * (seq_len / 16),
{
}

} // verus!
