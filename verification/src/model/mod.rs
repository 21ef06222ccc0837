//! Graph construction: the frozen backbone, the CCA blocks, and the gates.
pub mod backbone;
pub mod cca;
pub mod encoder;
pub mod gate;
pub mod meaning;
pub mod names;
pub mod plan;
pub mod reach;
pub mod retrofit;
pub mod rows;
pub mod transformer;
pub mod values;

use crate::config::CcaConfig;
use crate::text::numbered;
use backbone::{Backbone, BackboneConfig};
use cca::{input_names, CcaBlock, CcaInputs};
use encoder::{NeighbourEncoder, NeighbourEncoderConfig};
use gate::{append_names, GateActivation};
use plan::{NodeId, Plan};
use vstd::prelude::*;
use vstd::string::*;

verus! {

/// Where the encoded neighbour keys/values come from.
#[derive(Clone, Copy, Debug, PartialEq, Eq, Structural)]
pub enum NeighbourInput {
    /// Encode neighbour token ids inside this graph.
    ///
    /// The training arrangement: gradients reach the encoder, which is one of
    /// the three things a retrofit trains.
    Encoded,
    /// Take the encoded keys/values as an input.
    ///
    /// The sampling arrangement. Encoding neighbours is the expensive half of
    /// retrieval, and a denoising trajectory refreshes only at a few
    /// thresholds, so the host encodes once per refresh and feeds the cached
    /// result on every step in between.
    Cached,
}

/// A CCA block and the backbone layer it was inserted after.
#[derive(Clone, Debug)]
pub struct CcaInsertion {
    /// Index of the backbone layer this block follows.
    pub layer: usize,
    /// The block itself.
    pub block: CcaBlock,
}

/// What to build.
#[derive(Clone, Copy, Debug, PartialEq)]
pub struct ModelConfig {
    /// Retrieval shapes.
    pub cca: CcaConfig,
    /// The frozen backbone.
    pub backbone: BackboneConfig,
    /// The trained neighbour encoder.
    pub encoder: NeighbourEncoderConfig,
    /// Gate activation.
    pub activation: GateActivation,
    /// Where encoded neighbours come from.
    pub neighbours: NeighbourInput,
}

/// Why a model cannot be built.
#[derive(Clone, Copy, Debug, PartialEq, Eq, Structural)]
pub enum BuildError {
    /// The CCA width differs from the backbone's residual width.
    BackboneWidth,
    /// The CCA width differs from the neighbour encoder's width.
    EncoderWidth,
    /// Rotary embedding needs an even, non-zero head width.
    OddHead,
    /// Some value of the graph is too large to address.
    TooLarge,
}

impl ModelConfig {
    /// What keeps this model from being built, if anything.
    pub open spec fn fault(self) -> Option<BuildError> {
        if !(self.backbone.layer_shape().wf() && self.encoder.wf() && cca::block_fits(self.cca)) {
            Some(BuildError::TooLarge)
        } else if self.cca.d() != self.backbone.layer_shape().d() {
            Some(BuildError::BackboneWidth)
        } else if self.cca.d() != self.encoder.layer_shape().d() {
            Some(BuildError::EncoderWidth)
        } else if self.backbone.num_layers > 0 && !self.backbone.layer_shape().rotates() {
            Some(BuildError::OddHead)
        } else {
            None
        }
    }

    /// Rows of the whole neighbour block.
    pub open spec fn kv_rows(self) -> nat {
        (self.cca.l() * self.cca.k() * self.cca.r()) as nat
    }

    /// Rows of one encoder pass.
    pub open spec fn group_rows(self) -> nat {
        self.encoder.rows_per_group(self.cca.k() as nat, self.cca.r() as nat)
    }

    /// What keeps this model from being built, if anything.
    pub fn check(&self) -> (fault: Option<BuildError>)
        requires
            self.cca.wf(),
        ensures
            fault == self.fault(),
    {
        let backbone = self.backbone;
        let encoder = self.encoder;
        let cca = self.cca;
        let heads_fit: bool = product_fits(backbone.num_heads, backbone.head_dim) && product_fits(
            backbone.num_kv_heads,
            backbone.head_dim,
        ) && product_fits(encoder.num_heads, encoder.head_dim) && product_fits(
            encoder.num_kv_heads,
            encoder.head_dim,
        );
        if !heads_fit || !cca_fits(cca) {
            return Some(BuildError::TooLarge);
        }
        if cca.model_dim() != backbone.model_dim() {
            return Some(BuildError::BackboneWidth);
        }
        if cca.model_dim() != encoder.model_dim() {
            return Some(BuildError::EncoderWidth);
        }
        if backbone.num_layers > 0 && (backbone.head_dim == 0 || backbone.head_dim % 2 != 0) {
            return Some(BuildError::OddHead);
        }
        None
    }
}

/// Whether a product of two counts is a narrow word.
fn product_fits(a: u32, b: u32) -> (fits: bool)
    ensures
        fits == (a * b <= u32::MAX),
{
    proof {
        assert(a * b <= 0xFFFF_FFFF * 0xFFFF_FFFF) by (nonlinear_arith)
            requires
                a <= 0xFFFF_FFFF,
                b <= 0xFFFF_FFFF,
        ;
    }
    a as u64 * b as u64 <= u32::MAX as u64
}

/// Whether the values a block works on can be addressed.
fn cca_fits(cfg: CcaConfig) -> (fits: bool)
    requires
        cfg.wf(),
    ensures
        fits == cca::block_fits(cfg),
{
    let n: usize = cfg.seq_len();
    let d: usize = cfg.model_dim();
    let l: usize = cfg.num_chunks();
    let k: usize = cfg.neighbours_per_chunk();
    let r: usize = cfg.neighbour_len();
    if n as u64 > u32::MAX as u64 || d as u64 >= u32::MAX as u64 {
        return false;
    }
    proof {
        cfg.lemma_chunks();
        let (a, b, c) = (l as int, k as int, r as int);
        assert(a * b <= a * b * c && a <= a * b) by (nonlinear_arith)
            requires
                a > 0,
                b > 0,
                c > 0,
        ;
        let (wide, rows) = (d as int, n as int);
        assert(rows * (wide + 1) <= 0xFFFF_FFFF * 0x1_0000_0000) by (nonlinear_arith)
            requires
                0 <= rows <= 0xFFFF_FFFF,
                0 <= wide + 1 <= 0x1_0000_0000,
        ;
    }
    let pairs: usize = match l.checked_mul(k) {
        Some(pairs) => pairs,
        None => {
            return false;
        },
    };
    let rows: usize = match pairs.checked_mul(r) {
        Some(rows) => rows,
        None => {
            return false;
        },
    };
    if rows as u64 > u32::MAX as u64 {
        return false;
    }
    proof {
        let (a, wide) = (rows as int, d as int);
        assert(a * wide <= 0xFFFF_FFFF * 0xFFFF_FFFF) by (nonlinear_arith)
            requires
                0 <= a <= 0xFFFF_FFFF,
                0 <= wide <= 0xFFFF_FFFF,
        ;
    }
    n as u128 * (d as u128 + 1) <= usize::MAX as u128 && rows as u128 * d as u128
        <= usize::MAX as u128
}

/// The noise level column.
pub open spec fn t_expr(cfg: ModelConfig) -> plan::Expr {
    plan::input_expr(input_names::T_COL@, seq![cfg.cca.n() as nat, 1nat], false)
}

/// The retrieval mask column.
pub open spec fn mask_expr(cfg: ModelConfig) -> plan::Expr {
    plan::input_expr(input_names::RETRIEVAL_MASK@, seq![cfg.cca.n() as nat, 1nat], false)
}

/// The embedded tokens of the whole neighbour block.
pub open spec fn neighbours_embedded(cfg: ModelConfig) -> plan::Expr {
    encoder::encoder_embed_expr(
        plan::input_expr("cca.neighbour_tokens"@, seq![cfg.kv_rows()], true),
        "neighbour_encoder"@,
        cfg.encoder,
    )
}

/// What the encoder makes of group `group` of the neighbour block, and of no
/// other.
pub open spec fn group_expr(cfg: ModelConfig, group: nat) -> plan::Expr {
    encoder::encoder_expr(
        rows::sliced(
            neighbours_embedded(cfg),
            cfg.kv_rows(),
            cfg.cca.d() as nat,
            group * cfg.group_rows(),
            cfg.group_rows(),
        ),
        "neighbour_encoder"@,
        cfg.encoder,
    )
}

/// The encoded neighbours: encoded here, or fed.
pub open spec fn kv_expr(cfg: ModelConfig) -> plan::Expr {
    match cfg.neighbours {
        NeighbourInput::Encoded => rows::stacked(
            Seq::new(
                cfg.kv_rows() / cfg.group_rows(),
                |group: int| (group_expr(cfg, group as nat), cfg.group_rows()),
            ),
            cfg.cca.d() as nat,
        ),
        NeighbourInput::Cached => plan::input_expr(
            input_names::NEIGHBOUR_KV@,
            seq![cfg.kv_rows(), cfg.cca.d() as nat],
            false,
        ),
    }
}

/// What the names of the block after layer `layer` start with.
pub open spec fn block_prefix(layer: nat) -> Seq<char> {
    "cca."@ + crate::text::decimal_chars(layer)
}

/// The residual after the first `upto` backbone layers and the blocks among
/// them.
pub open spec fn residual_expr(cfg: ModelConfig, upto: nat) -> plan::Expr
    decreases upto,
{
    if upto == 0 {
        plan::embedded(
            plan::input_expr("token_ids"@, seq![cfg.cca.n() as nat], true),
            transformer::leaf(
                "backbone"@ + ".embed"@,
                seq![cfg.backbone.vocab_size as nat, cfg.backbone.layer_shape().d()],
                true,
            ),
        )
    } else {
        let layer = (upto - 1) as nat;
        let x = backbone::backbone_layer_expr(
            residual_expr(cfg, layer),
            "backbone"@,
            cfg.backbone,
            true,
            layer,
        );
        if cfg.cca.follows(layer) {
            cca::block_expr(
                x,
                t_expr(cfg),
                mask_expr(cfg),
                kv_expr(cfg),
                block_prefix(layer),
                cfg.cca,
                cfg.activation,
            )
        } else {
            x
        }
    }
}

/// The logits.
pub open spec fn logits_expr(cfg: ModelConfig) -> plan::Expr {
    backbone::head_expr(
        residual_expr(cfg, cfg.backbone.num_layers as nat),
        "backbone"@,
        cfg.backbone,
        true,
    )
}

/// The parameters of the encoder, where there is one.
pub open spec fn own_encoder_params(cfg: ModelConfig) -> Seq<(Seq<char>, Seq<nat>)> {
    match cfg.neighbours {
        NeighbourInput::Encoded => encoder::encoder_params("neighbour_encoder"@, cfg.encoder),
        NeighbourInput::Cached => Seq::empty(),
    }
}

/// The parameters of the blocks after the first `upto` layers.
pub open spec fn blocks_params(cfg: ModelConfig, upto: nat) -> Seq<(Seq<char>, Seq<nat>)>
    decreases upto,
{
    if upto == 0 {
        Seq::empty()
    } else {
        let rest = blocks_params(cfg, (upto - 1) as nat);
        if cfg.cca.follows((upto - 1) as nat) {
            rest + cca::block_params(block_prefix((upto - 1) as nat), cfg.cca, cfg.activation)
        } else {
            rest
        }
    }
}

/// The parameters that a retrofit trains.
pub open spec fn trained_params(cfg: ModelConfig) -> Seq<(Seq<char>, Seq<nat>)> {
    own_encoder_params(cfg) + blocks_params(cfg, cfg.backbone.num_layers as nat)
}

/// Every parameter of the model, in the order in which it is declared.
pub open spec fn model_params(cfg: ModelConfig) -> Seq<(Seq<char>, Seq<nat>)> {
    backbone::backbone_params("backbone"@, cfg.backbone) + trained_params(cfg)
}

/// Whether `blocks` are the blocks after the first `upto` layers.
pub open spec fn blocks_match(
    blocks: Seq<CcaInsertion>,
    g: Plan,
    cfg: ModelConfig,
    upto: nat,
) -> bool {
    &&& Seq::new(blocks.len(), |i: int| blocks[i].layer) == cfg.cca.layers_below(upto)
    &&& forall|i: int|
        0 <= i < blocks.len() ==> {
            let block = (#[trigger] blocks[i]).block;
            &&& block.declared(g)
            &&& block.name() == block_prefix(blocks[i].layer as nat)
            &&& block.shape() == cfg.cca
            &&& block.kind() == cfg.activation
        }
}

/// A retrieval-augmented masked-diffusion model.
#[derive(Clone, Debug)]
pub struct CcaModel {
    cfg: CcaConfig,
    backbone: Backbone,
    encoder: Option<NeighbourEncoder>,
    blocks: Vec<CcaInsertion>,
    logits: NodeId,
}

/// The names of the first `upto` blocks' parameters.
pub open spec fn block_texts(blocks: Seq<CcaInsertion>, upto: nat) -> Seq<Seq<char>>
    decreases upto,
{
    if upto == 0 {
        Seq::empty()
    } else {
        let block = blocks[upto - 1].block;
        block_texts(blocks, (upto - 1) as nat) + (cca::own_texts(block.name())
            + block.own_gate().names().all_texts())
    }
}

/// The names of the first `upto` blocks' parameters that start at zero.
pub open spec fn zero_texts(blocks: Seq<CcaInsertion>, upto: nat) -> Seq<Seq<char>>
    decreases upto,
{
    if upto == 0 {
        Seq::empty()
    } else {
        zero_texts(blocks, (upto - 1) as nat)
            + blocks[upto - 1].block.own_gate().names().zero_texts()
    }
}

impl CcaModel {
    /// The retrieval shapes.
    pub closed spec fn shape(self) -> CcaConfig {
        self.cfg
    }

    /// The backbone.
    pub closed spec fn own_backbone(self) -> Backbone {
        self.backbone
    }

    /// The neighbour encoder, where it is in the graph.
    pub closed spec fn own_encoder(self) -> Option<NeighbourEncoder> {
        self.encoder
    }

    /// The blocks, in order.
    pub closed spec fn insertions(self) -> Seq<CcaInsertion> {
        self.blocks@
    }

    /// The node of the logits.
    pub closed spec fn output(self) -> NodeId {
        self.logits
    }

    /// The names of the encoder's parameters.
    pub open spec fn encoder_texts(self) -> Seq<Seq<char>> {
        match self.own_encoder() {
            Some(encoder) => gate::param_texts(
                encoder::encoder_params(encoder.name(), encoder.shape()),
            ),
            None => Seq::empty(),
        }
    }

    /// Whether this model was built in `g` from `cfg`.
    pub open spec fn built(self, g: Plan, cfg: ModelConfig) -> bool {
        &&& self.shape() == cfg.cca
        &&& self.own_backbone().declared(g)
        &&& self.own_backbone().shape() == cfg.backbone
        &&& self.own_backbone().name() == "backbone"@
        &&& self.own_backbone().frozen()
        &&& match cfg.neighbours {
            NeighbourInput::Encoded => {
                &&& self.own_encoder() is Some
                &&& self.own_encoder()->0.declared(g)
                &&& self.own_encoder()->0.name() == "neighbour_encoder"@
                &&& self.own_encoder()->0.shape() == cfg.encoder
            },
            NeighbourInput::Cached => self.own_encoder() is None,
        }
        &&& blocks_match(self.insertions(), g, cfg, cfg.backbone.num_layers as nat)
        &&& g.holds(self.output())
        &&& g.expr(self.output()) == logits_expr(cfg)
        &&& g.expr(self.output()).shape == seq![
            cfg.cca.n() as nat,
            cfg.backbone.vocab_size as nat,
        ]
        &&& g.label(self.output()) == Some("logits"@)
    }

    /// Build the forward graph.
    ///
    /// Declares these inputs:
    ///
    /// | name | shape | holds |
    /// |---|---|---|
    /// | `token_ids` | `[n]` | token ids |
    /// | `cca.t` | `[n, 1]` | numbers |
    /// | `cca.retrieval_mask` | `[n, 1]` | numbers |
    /// | `cca.neighbour_tokens` | `[l * k * r]` | token ids (when [`NeighbourInput::Encoded`]) |
    /// | `cca.neighbour_kv` | `[l * k * r, d]` | numbers (when [`NeighbourInput::Cached`]) |
    ///
    /// Returns the model, which holds the `[n, vocab]` logits node.
    pub fn build(g: &mut Plan, cfg: ModelConfig) -> (model: Self)
        requires
            old(g).wf(),
            cfg.fault() is None,
        ensures
            final(g).grows(*old(g)),
            model.built(*final(g), cfg),
            final(g).params() == old(g).params() + model_params(cfg),
    {
        let cca: CcaConfig = cfg.cca;
        let n: usize = cca.seq_len();
        let ghost start = g.params();
        let backbone: Backbone = Backbone::new(g, "backbone", cfg.backbone);
        let ghost declared = *g;
        let ids_shape: [usize; 1] = [n];
        let column: [usize; 2] = [n, 1];
        proof {
            rows::lemma_dims(ids_shape@);
            rows::lemma_dims(column@);
        }
        let token_ids: NodeId = g.input_u32("token_ids", ids_shape.as_slice());
        let t_col: NodeId = g.input(input_names::T_COL, column.as_slice());
        let retrieval_mask: NodeId = g.input(input_names::RETRIEVAL_MASK, column.as_slice());
        let (encoder, neighbour_kv) = Self::neighbours(g, cfg);
        let ghost encoded = *g;
        let inputs = CcaInputs { t_col, retrieval_mask, neighbour_kv };
        proof {
            backbone.lemma_stays(declared, *g);
            backbone.lemma_depth(*g);
            assert(g.params() =~= start + backbone::backbone_params("backbone"@, cfg.backbone)
                + own_encoder_params(cfg));
        }
        let embedded: NodeId = backbone.embed(g, token_ids);
        proof {
            backbone.lemma_stays(encoded, *g);
            assert(g.expr(embedded).shape =~= seq![n as nat, cca.d() as nat]);
        }
        let ghost opened = *g;
        let (x, blocks) = Self::stack(g, &backbone, embedded, inputs, cfg);
        proof {
            backbone.lemma_stays(opened, *g);
        }
        let ghost stacked = *g;
        let logits: NodeId = backbone.head(g, x);
        let logits: NodeId = g.named(logits, String::from_str("logits"));
        proof {
            backbone.lemma_stays(stacked, *g);
            lemma_blocks_grow(blocks@, stacked, *g, cfg, cfg.backbone.num_layers as nat);
            if encoder is Some {
                encoder->0.lemma_stays(encoded, *g);
            }
            assert(g.params() =~= start + model_params(cfg));
        }
        CcaModel { cfg: cca, backbone, encoder, blocks, logits }
    }

    /// Run the backbone's layers over `embedded`, with a block after each layer
    /// that has one.
    fn stack(
        g: &mut Plan,
        backbone: &Backbone,
        embedded: NodeId,
        inputs: CcaInputs,
        cfg: ModelConfig,
    ) -> (pair: (NodeId, Vec<CcaInsertion>))
        requires
            old(g).wf(),
            cfg.fault() is None,
            backbone.depth() == cfg.backbone.num_layers,
            backbone.shape() == cfg.backbone,
            backbone.name() == "backbone"@,
            backbone.frozen(),
            backbone.declared(*old(g)),
            old(g).holds(inputs.t_col),
            old(g).holds(inputs.retrieval_mask),
            old(g).holds(inputs.neighbour_kv),
            old(g).expr(inputs.t_col) == t_expr(cfg),
            old(g).expr(inputs.retrieval_mask) == mask_expr(cfg),
            old(g).expr(inputs.neighbour_kv) == kv_expr(cfg),
            old(g).expr(inputs.neighbour_kv).shape == seq![cfg.kv_rows(), cfg.cca.d() as nat],
            !old(g).expr(inputs.neighbour_kv).is_ids,
            old(g).holds(embedded),
            !old(g).expr(embedded).is_ids,
            old(g).expr(embedded) == residual_expr(cfg, 0),
            old(g).expr(embedded).shape == seq![cfg.cca.n() as nat, cfg.cca.d() as nat],
        ensures
            final(g).grows(*old(g)),
            final(g).holds(pair.0),
            !final(g).expr(pair.0).is_ids,
            final(g).expr(pair.0) == residual_expr(cfg, cfg.backbone.num_layers as nat),
            final(g).expr(pair.0).shape == seq![cfg.cca.n() as nat, cfg.cca.d() as nat],
            blocks_match(pair.1@, *final(g), cfg, cfg.backbone.num_layers as nat),
            final(g).params() == old(g).params() + blocks_params(
                cfg,
                cfg.backbone.num_layers as nat,
            ),
    {
        let cca: CcaConfig = cfg.cca;
        let mut x: NodeId = embedded;
        let mut blocks: Vec<CcaInsertion> = Vec::new();
        let ghost base = g.params();
        proof {
            assert(g.params() =~= base + blocks_params(cfg, 0));
            assert(cca.layers_below(0) =~= Seq::<usize>::empty());
            assert(Seq::new(blocks@.len(), |i: int| blocks@[i].layer) =~= cca.layers_below(0));
        }
        let mut layer: usize = 0;
        while layer < backbone.num_layers()
            invariant
                layer <= backbone.depth(),
                cfg.fault() is None,
                cca == cfg.cca,
                backbone.depth() == cfg.backbone.num_layers,
                backbone.shape() == cfg.backbone,
                backbone.name() == "backbone"@,
                backbone.frozen(),
                backbone.declared(*g),
                g.grows(*old(g)),
                old(g).holds(inputs.t_col),
                old(g).holds(inputs.retrieval_mask),
                old(g).holds(inputs.neighbour_kv),
                old(g).expr(inputs.t_col) == t_expr(cfg),
                old(g).expr(inputs.retrieval_mask) == mask_expr(cfg),
                old(g).expr(inputs.neighbour_kv) == kv_expr(cfg),
                old(g).expr(inputs.neighbour_kv).shape == seq![
                    cfg.kv_rows(),
                    cfg.cca.d() as nat,
                ],
                !old(g).expr(inputs.neighbour_kv).is_ids,
                g.holds(x),
                !g.expr(x).is_ids,
                g.expr(x) == residual_expr(cfg, layer as nat),
                g.expr(x).shape == seq![cca.n() as nat, cca.d() as nat],
                blocks_match(blocks@, *g, cfg, layer as nat),
                g.params() == base + blocks_params(cfg, layer as nat),
            decreases backbone.depth() - layer,
        {
            let ghost before = *g;
            x = backbone.layer(g, x, layer);
            let ghost ran = *g;
            proof {
                backbone.lemma_stays(before, *g);
                lemma_blocks_grow(blocks@, before, *g, cfg, layer as nat);
            }
            if cca.is_cca_layer(layer) {
                x = Self::insert_block(g, x, layer, cfg, inputs, &mut blocks);
                proof {
                    backbone.lemma_stays(ran, *g);
                    assert(g.params() =~= base + blocks_params(cfg, (layer + 1) as nat));
                }
            }
            layer = layer + 1;
        }
        (x, blocks)
    }

    /// Insert a block after layer `layer`, whose residual is `x`.
    fn insert_block(
        g: &mut Plan,
        x: NodeId,
        layer: usize,
        cfg: ModelConfig,
        inputs: CcaInputs,
        blocks: &mut Vec<CcaInsertion>,
    ) -> (id: NodeId)
        requires
            old(g).wf(),
            cfg.fault() is None,
            cfg.cca.follows(layer as nat),
            old(g).holds(inputs.t_col),
            old(g).holds(inputs.retrieval_mask),
            old(g).holds(inputs.neighbour_kv),
            old(g).expr(inputs.t_col) == t_expr(cfg),
            old(g).expr(inputs.retrieval_mask) == mask_expr(cfg),
            old(g).expr(inputs.neighbour_kv) == kv_expr(cfg),
            old(g).expr(inputs.neighbour_kv).shape == seq![cfg.kv_rows(), cfg.cca.d() as nat],
            !old(g).expr(inputs.neighbour_kv).is_ids,
            old(g).holds(x),
            !old(g).expr(x).is_ids,
            old(g).expr(x).shape == seq![cfg.cca.n() as nat, cfg.cca.d() as nat],
            blocks_match(old(blocks)@, *old(g), cfg, layer as nat),
        ensures
            final(g).grows(*old(g)),
            final(g).holds(id),
            !final(g).expr(id).is_ids,
            final(g).expr(id) == cca::block_expr(
                old(g).expr(x),
                t_expr(cfg),
                mask_expr(cfg),
                kv_expr(cfg),
                block_prefix(layer as nat),
                cfg.cca,
                cfg.activation,
            ),
            final(g).expr(id).shape == old(g).expr(x).shape,
            blocks_match(final(blocks)@, *final(g), cfg, (layer + 1) as nat),
            final(g).params() == old(g).params() + cca::block_params(
                block_prefix(layer as nat),
                cfg.cca,
                cfg.activation,
            ),
    {
        let prefix: String = numbered("cca.", layer as u64, "");
        proof {
            reveal_strlit("");
            assert(prefix@ =~= block_prefix(layer as nat));
        }
        let block: CcaBlock = CcaBlock::new(g, prefix.as_str(), cfg.cca, cfg.activation);
        let ghost placed = *g;
        let id: NodeId = block.forward(g, x, inputs);
        let ghost earlier = blocks@;
        proof {
            block.lemma_stays(placed, *g);
            lemma_blocks_grow(earlier, *old(g), *g, cfg, layer as nat);
        }
        blocks.push(CcaInsertion { layer, block });
        proof {
            assert(Seq::new(blocks@.len(), |i: int| blocks@[i].layer) =~= Seq::new(
                earlier.len(),
                |i: int| earlier[i].layer,
            ).push(layer));
            assert forall|i: int| 0 <= i < blocks@.len() implies {
                let block = (#[trigger] blocks@[i]).block;
                &&& block.declared(*g)
                &&& block.name() == block_prefix(blocks@[i].layer as nat)
                &&& block.shape() == cfg.cca
                &&& block.kind() == cfg.activation
            } by {
                if i < earlier.len() {
                    assert(blocks@[i] == earlier[i]);
                }
            }
        }
        id
    }

    /// The encoded neighbours: encoded in the graph, or fed.
    fn neighbours(g: &mut Plan, cfg: ModelConfig) -> (pair: (Option<NeighbourEncoder>, NodeId))
        requires
            old(g).wf(),
            cfg.fault() is None,
        ensures
            final(g).grows(*old(g)),
            final(g).holds(pair.1),
            final(g).expr(pair.1) == kv_expr(cfg),
            final(g).expr(pair.1).shape == seq![cfg.kv_rows(), cfg.cca.d() as nat],
            !final(g).expr(pair.1).is_ids,
            match cfg.neighbours {
                NeighbourInput::Encoded => {
                    &&& pair.0 is Some
                    &&& pair.0->0.declared(*final(g))
                    &&& pair.0->0.name() == "neighbour_encoder"@
                    &&& pair.0->0.shape() == cfg.encoder
                },
                NeighbourInput::Cached => pair.0 is None,
            },
            final(g).params() == old(g).params() + own_encoder_params(cfg),
    {
        let cca: CcaConfig = cfg.cca;
        let d: usize = cca.model_dim();
        proof {
            lemma_groups(cfg);
        }
        let kv_rows: usize = cca.num_chunks() * cca.neighbour_kv_rows();
        match cfg.neighbours {
            NeighbourInput::Encoded => {
                let encoder: NeighbourEncoder = NeighbourEncoder::new(
                    g,
                    "neighbour_encoder",
                    cfg.encoder,
                );
                let ghost declared = *g;
                let group_rows: usize = encoder.group_rows(
                    cca.neighbours_per_chunk(),
                    cca.neighbour_len(),
                );
                let groups: usize = kv_rows / group_rows;
                let tokens_shape: [usize; 1] = [kv_rows];
                proof {
                    rows::lemma_dims(tokens_shape@);
                }
                let tokens: NodeId = g.input_u32("cca.neighbour_tokens", tokens_shape.as_slice());
                proof {
                    encoder.lemma_stays(declared, *g);
                }
                let ghost asked = *g;
                // Embed once for the whole neighbour block, then slice per
                // group. Groups are independent, so they run as separate
                // slices rather than one long sequence, which would let
                // neighbours attend across group boundaries.
                let embedded: NodeId = encoder.embed(g, tokens);
                proof {
                    encoder.lemma_stays(asked, *g);
                    assert(g.expr(embedded).shape =~= seq![kv_rows as nat, d as nat]);
                }
                let ghost gathered = *g;
                let mut parts: Vec<(NodeId, usize)> = Vec::new();
                let mut group: usize = 0;
                while group < groups
                    invariant
                        group <= groups,
                        cfg.fault() is None,
                        cca == cfg.cca,
                        d == cca.d(),
                        kv_rows == cfg.kv_rows(),
                        group_rows == cfg.group_rows(),
                        group_rows > 0,
                        groups * group_rows == kv_rows,
                        kv_rows <= u32::MAX,
                        kv_rows * d <= usize::MAX,
                        d < u32::MAX,
                        encoder.name() == "neighbour_encoder"@,
                        encoder.shape() == cfg.encoder,
                        encoder.declared(gathered),
                        gathered.holds(embedded),
                        gathered.expr(embedded) == neighbours_embedded(cfg),
                        gathered.expr(embedded).shape == seq![kv_rows as nat, d as nat],
                        !gathered.expr(embedded).is_ids,
                        g.grows(gathered),
                        g.params() == gathered.params(),
                        parts@.len() == group,
                        forall|c: int|
                            0 <= c < group ==> {
                                &&& g.holds((#[trigger] parts@[c]).0)
                                &&& parts@[c].1 == group_rows
                                &&& g.expr(parts@[c].0) == group_expr(cfg, c as nat)
                                &&& !g.expr(parts@[c].0).is_ids
                                &&& g.expr(parts@[c].0).shape == seq![group_rows as nat, d as nat]
                            },
                    decreases groups - group,
                {
                    proof {
                        crate::chunk::lemma_slot_in_range(
                            group as int,
                            groups as int,
                            group_rows as int,
                        );
                    }
                    let slice: NodeId = rows::slice_rows(
                        g,
                        embedded,
                        kv_rows,
                        d,
                        group * group_rows,
                        group_rows,
                    );
                    proof {
                        encoder.lemma_stays(gathered, *g);
                    }
                    let part: NodeId = encoder.forward_embedded(g, slice, group_rows);
                    parts.push((part, group_rows));
                    group = group + 1;
                }
                proof {
                    let exprs = rows::part_exprs(*g, parts@);
                    cca::lemma_even_rows(exprs, group_rows as nat, groups as nat);
                    assert(exprs =~= Seq::new(
                        cfg.kv_rows() / cfg.group_rows(),
                        |group: int| (group_expr(cfg, group as nat), cfg.group_rows()),
                    ));
                }
                let kv: NodeId = rows::concat_rows(g, parts.as_slice(), d);
                proof {
                    encoder.lemma_stays(gathered, *g);
                }
                (Some(encoder), kv)
            },
            NeighbourInput::Cached => {
                let shape: [usize; 2] = [kv_rows, d];
                proof {
                    rows::lemma_dims(shape@);
                    assert(g.params() =~= g.params() + own_encoder_params(cfg));
                }
                (None, g.input(input_names::NEIGHBOUR_KV, shape.as_slice()))
            },
        }
    }

    /// The `[n, vocab]` logits node.
    pub fn logits(&self) -> (id: NodeId)
        ensures
            id == self.output(),
    {
        self.logits
    }

    /// The retrieval configuration.
    pub fn config(&self) -> (cfg: CcaConfig)
        ensures
            cfg == self.shape(),
    {
        self.cfg
    }

    /// The frozen backbone.
    pub fn backbone(&self) -> (backbone: &Backbone)
        ensures
            *backbone == self.own_backbone(),
    {
        &self.backbone
    }

    /// The neighbour encoder, when one is in-graph.
    pub fn encoder(&self) -> (encoder: Option<&NeighbourEncoder>)
        ensures
            encoder is Some <==> self.own_encoder() is Some,
            encoder is Some ==> *encoder->0 == self.own_encoder()->0,
    {
        self.encoder.as_ref()
    }

    /// The CCA blocks, paired with the backbone layer they follow.
    pub fn blocks(&self) -> (blocks: &[CcaInsertion])
        ensures
            blocks@ == self.insertions(),
    {
        self.blocks.as_slice()
    }

    /// Every trainable parameter name: the encoder, the CCA blocks, and the
    /// gates. The backbone is absent by construction.
    pub fn trainable_param_names(&self) -> (names: Vec<String>)
        ensures
            gate::owned_texts(names@) == self.encoder_texts() + block_texts(
                self.insertions(),
                self.insertions().len(),
            ),
    {
        let mut names: Vec<String> = match &self.encoder {
            Some(encoder) => encoder.param_names(),
            None => Vec::new(),
        };
        proof {
            assert(gate::owned_texts(names@) =~= self.encoder_texts() + block_texts(
                self.blocks@,
                0,
            ));
        }
        let mut i: usize = 0;
        while i < self.blocks.len()
            invariant
                i <= self.blocks@.len(),
                gate::owned_texts(names@) == self.encoder_texts() + block_texts(
                    self.blocks@,
                    i as nat,
                ),
            decreases self.blocks.len() - i,
        {
            let more: Vec<String> = self.blocks[i].block.param_names();
            append_owned(&mut names, more.as_slice());
            proof {
                assert(gate::owned_texts(names@) =~= self.encoder_texts() + block_texts(
                    self.blocks@,
                    (i + 1) as nat,
                ));
            }
            i = i + 1;
        }
        names
    }

    /// Parameters that must be written as exactly zero before the first step,
    /// so every CCA block starts as the identity.
    pub fn zero_init_param_names(&self) -> (names: Vec<String>)
        ensures
            gate::owned_texts(names@) == zero_texts(self.insertions(), self.insertions().len()),
    {
        let mut names: Vec<String> = Vec::new();
        proof {
            assert(gate::owned_texts(names@) =~= zero_texts(self.blocks@, 0));
        }
        let mut i: usize = 0;
        while i < self.blocks.len()
            invariant
                i <= self.blocks@.len(),
                gate::owned_texts(names@) == zero_texts(self.blocks@, i as nat),
            decreases self.blocks.len() - i,
        {
            let params = self.blocks[i].block.gate().params();
            let more: Vec<&str> = params.zero_init_names();
            append_names(&mut names, more.as_slice());
            i = i + 1;
        }
        names
    }
}

/// Append copies of owned names.
fn append_owned(names: &mut Vec<String>, more: &[String])
    ensures
        gate::owned_texts(final(names)@) == gate::owned_texts(old(names)@) + gate::owned_texts(
            more@,
        ),
{
    let ghost before = gate::owned_texts(names@);
    proof {
        assert(gate::owned_texts(names@) =~= before + gate::owned_texts(more@).take(0));
    }
    let mut i: usize = 0;
    while i < more.len()
        invariant
            i <= more@.len(),
            gate::owned_texts(names@) == before + gate::owned_texts(more@).take(i as int),
        decreases more.len() - i,
    {
        let ghost now = names@;
        let name: String = String::from_str(more[i].as_str());
        names.push(name);
        proof {
            gate::lemma_owned_texts(now, name);
            assert(gate::owned_texts(names@) =~= before + gate::owned_texts(more@).take(i + 1));
        }
        i = i + 1;
    }
    proof {
        assert(gate::owned_texts(more@).take(i as int) =~= gate::owned_texts(more@));
    }
}

/// The groups of the encoder divide the neighbour block evenly.
proof fn lemma_groups(cfg: ModelConfig)
    requires
        cfg.fault() is None,
    ensures
        0 < cfg.cca.k() * cfg.cca.r() <= usize::MAX,
        cfg.cca.l() * (cfg.cca.k() * cfg.cca.r()) == cfg.kv_rows(),
        cfg.group_rows() > 0,
        (cfg.kv_rows() / cfg.group_rows()) * cfg.group_rows() == cfg.kv_rows(),
        cfg.kv_rows() / cfg.group_rows() > 0,
{
    cfg.cca.lemma_chunks();
    let (l, k, r) = (cfg.cca.l() as int, cfg.cca.k() as int, cfg.cca.r() as int);
    assert(l * (k * r) == l * k * r && 0 < k * r <= l * k * r && 0 < l * k) by (nonlinear_arith)
        requires
            l > 0,
            k > 0,
            r > 0,
    ;
    match cfg.encoder.scope {
        encoder::EncoderScope::PerNeighbour => {
            vstd::arithmetic::div_mod::lemma_div_by_multiple(l * k, r);
        },
        encoder::EncoderScope::PerChunk => {
            vstd::arithmetic::div_mod::lemma_div_by_multiple(l, k * r);
        },
    }
}

proof fn lemma_blocks_grow(
    blocks: Seq<CcaInsertion>,
    before: Plan,
    after: Plan,
    cfg: ModelConfig,
    upto: nat,
)
    requires
        blocks_match(blocks, before, cfg, upto),
        after.grows(before),
    ensures
        blocks_match(blocks, after, cfg, upto),
{
    assert forall|i: int| 0 <= i < blocks.len() implies (#[trigger] blocks[i]).block.declared(
        after,
    ) by {
        blocks[i].block.lemma_stays(before, after);
    }
}

} // verus!
