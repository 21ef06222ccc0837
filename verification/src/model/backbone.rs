//! The frozen masked-diffusion backbone.
//!
//! Anaphora targets a pretrained diffusion LM (LLaDA-8B, Dream-7B) whose
//! weights do not move. Structurally these are LLaMA-shaped transformers with
//! one decisive difference: attention is **bidirectional**. A masked diffusion
//! model predicts every masked position from the whole visible sequence at
//! once, so there is no causal mask and no left-to-right order to respect.
//!
//! Every parameter declared in this module goes through
//! [`crate::model::cca::frozen_parameter`]. The retrofit's claim is that only
//! the encoder, the CCA blocks, and the gates train; freezing at declaration
//! makes that structural rather than a matter of remembering.
use super::gate::append_names;
use super::plan::{NodeId, Plan};
use super::transformer::{declare_matrix, declare_vector, LayerNodes, LayerShape};
use crate::binary32::Binary32;
use crate::text::{joined, numbered};
use vstd::prelude::*;
use vstd::string::*;

verus! {

/// Shape of the frozen backbone.
#[derive(Clone, Copy, Debug, PartialEq)]
pub struct BackboneConfig {
    /// Token vocabulary, `[MASK]` included.
    pub vocab_size: usize,
    /// Transformer layers.
    pub num_layers: usize,
    /// Query heads.
    pub num_heads: u32,
    /// Key/value heads.
    pub num_kv_heads: u32,
    /// Per-head width.
    pub head_dim: u32,
    /// Feed-forward inner width.
    pub intermediate_size: usize,
    /// RoPE base.
    pub rope_theta: Binary32,
    /// RMSNorm epsilon.
    pub rms_norm_eps: Binary32,
}

impl BackboneConfig {
    /// The shape of every layer.
    pub open spec fn layer_shape(self) -> LayerShape {
        LayerShape {
            num_heads: self.num_heads,
            num_kv_heads: self.num_kv_heads,
            head_dim: self.head_dim,
            intermediate_size: self.intermediate_size,
        }
    }

    /// The widths can be held, and rotary embedding has pairs to turn.
    pub open spec fn wf(self) -> bool {
        &&& self.layer_shape().wf()
        &&& self.num_layers > 0 ==> self.layer_shape().rotates()
    }

    /// Model width, `num_heads * head_dim`.
    pub fn model_dim(&self) -> (d: usize)
        requires
            self.num_heads * self.head_dim <= u32::MAX,
        ensures
            d == self.num_heads * self.head_dim,
            d == self.layer_shape().d(),
    {
        (self.num_heads * self.head_dim) as usize
    }

    /// Key/value width.
    pub fn kv_dim(&self) -> (kv: usize)
        requires
            self.num_kv_heads * self.head_dim <= u32::MAX,
        ensures
            kv == self.num_kv_heads * self.head_dim,
            kv == self.layer_shape().kv(),
    {
        (self.num_kv_heads * self.head_dim) as usize
    }

    /// A small configuration for tests and shape work.
    pub fn small_test() -> (cfg: Self)
        ensures
            cfg.wf(),
            cfg.vocab_size == 256,
            cfg.num_layers == 4,
            cfg.num_heads == 2,
            cfg.num_kv_heads == 2,
            cfg.head_dim == 16,
            cfg.intermediate_size == 64,
            cfg.rope_theta.bits == 0x461C_4000,
            cfg.rms_norm_eps.bits == 0x3727_C5AC,
    {
        BackboneConfig {
            vocab_size: 256,
            num_layers: 4,
            num_heads: 2,
            num_kv_heads: 2,
            head_dim: 16,
            intermediate_size: 64,
            rope_theta: Binary32::from_bits(0x461C_4000),
            rms_norm_eps: Binary32::from_bits(0x3727_C5AC),
        }
    }
}

/// Whether the backbone's parameters train.
///
/// A retrofit freezes them: that is the premise. But something has to *make*
/// the backbone that is later frozen, and a random backbone is not a stand-in:
/// a randomly initialised LM head cannot express a specific token, so a
/// retrofit bolted onto one has no way to demonstrate that retrieval helps,
/// and no way to leak either.
#[derive(Clone, Copy, Debug, PartialEq, Eq, Structural)]
pub enum Freezing {
    /// Parameters are routed through `stop_gradient`. The retrofit setting.
    Frozen,
    /// Parameters train. For pretraining the backbone that will later be
    /// frozen.
    Trainable,
}

impl Default for Freezing {
    fn default() -> (freezing: Self)
        ensures
            freezing == Freezing::Frozen,
    {
        Freezing::Frozen
    }
}

/// Parameter node ids for one backbone layer.
#[derive(Clone, Copy, Debug)]
pub struct BackboneLayer {
    nodes: LayerNodes,
}

/// What the names of layer `i` start with.
pub open spec fn layer_prefix(prefix: Seq<char>, i: nat) -> Seq<char> {
    prefix + ".layers."@ + crate::text::decimal_chars(i)
}

/// The parameters of the first `upto` layers.
pub open spec fn layers_params(prefix: Seq<char>, shape: LayerShape, upto: nat) -> Seq<
    (Seq<char>, Seq<nat>),
>
    decreases upto,
{
    if upto == 0 {
        Seq::empty()
    } else {
        layers_params(prefix, shape, (upto - 1) as nat) + super::transformer::layer_params(
            layer_prefix(prefix, (upto - 1) as nat),
            shape,
        )
    }
}

/// The parameters a backbone under `prefix` declares: names and shapes.
pub open spec fn backbone_params(prefix: Seq<char>, cfg: BackboneConfig) -> Seq<
    (Seq<char>, Seq<nat>),
> {
    let d = cfg.layer_shape().d();
    seq![(prefix + ".embed"@, seq![cfg.vocab_size as nat, d])] + layers_params(
        prefix,
        cfg.layer_shape(),
        cfg.num_layers as nat,
    ) + seq![
        (prefix + ".out_norm"@, seq![d]),
        (prefix + ".lm_head"@, seq![d, cfg.vocab_size as nat]),
    ]
}

/// Layer `i` of a backbone over `x`.
pub open spec fn backbone_layer_expr(
    x: super::plan::Expr,
    prefix: Seq<char>,
    cfg: BackboneConfig,
    frozen: bool,
    i: nat,
) -> super::plan::Expr {
    super::transformer::layer_expr(
        x,
        layer_prefix(prefix, i),
        cfg.layer_shape(),
        cfg.rms_norm_eps,
        Some(cfg.rope_theta),
        frozen,
    )
}

/// The logits of a backbone from its last residual.
pub open spec fn head_expr(
    x: super::plan::Expr,
    prefix: Seq<char>,
    cfg: BackboneConfig,
    frozen: bool,
) -> super::plan::Expr {
    let d = cfg.layer_shape().d();
    super::plan::matmul(
        super::plan::normed(
            x,
            super::transformer::leaf(prefix + ".out_norm"@, seq![d], frozen),
            cfg.rms_norm_eps,
        ),
        super::transformer::leaf(
            prefix + ".lm_head"@,
            seq![d, cfg.vocab_size as nat],
            frozen,
        ),
    )
}

/// The frozen backbone's parameters.
#[derive(Clone, Debug)]
pub struct Backbone {
    cfg: BackboneConfig,
    prefix: String,
    freezing: Freezing,
    embed: NodeId,
    layers: Vec<BackboneLayer>,
    out_norm: NodeId,
    lm_head: NodeId,
}

impl Backbone {
    /// The configuration.
    pub closed spec fn shape(self) -> BackboneConfig {
        self.cfg
    }

    /// What the names of the parameters start with.
    pub closed spec fn name(self) -> Seq<char> {
        self.prefix@
    }

    /// Whether the parameters are frozen.
    pub open spec fn frozen(self) -> bool {
        self.regime() == Freezing::Frozen
    }

    /// Whether the parameters train.
    pub closed spec fn regime(self) -> Freezing {
        self.freezing
    }

    /// Whether `g` holds the parameters of this backbone.
    pub closed spec fn declared(self, g: Plan) -> bool {
        let d = self.cfg.layer_shape().d();
        let vocab = self.cfg.vocab_size as nat;
        &&& self.cfg.wf()
        &&& self.layers@.len() == self.cfg.num_layers
        &&& g.holds(self.embed)
        &&& g.holds(self.out_norm)
        &&& g.holds(self.lm_head)
        &&& g.expr(self.embed) == super::transformer::leaf(
            self.prefix@ + ".embed"@,
            seq![vocab, d],
            self.frozen(),
        )
        &&& g.expr(self.out_norm) == super::transformer::leaf(
            self.prefix@ + ".out_norm"@,
            seq![d],
            self.frozen(),
        )
        &&& g.expr(self.lm_head) == super::transformer::leaf(
            self.prefix@ + ".lm_head"@,
            seq![d, vocab],
            self.frozen(),
        )
        &&& forall|i: int|
            0 <= i < self.layers@.len() ==> (#[trigger] self.layers@[i]).nodes.declared(
                g,
                layer_prefix(self.prefix@, i as nat),
                self.cfg.layer_shape(),
                self.frozen(),
            )
    }

    /// A backbone that is declared stays declared as the plan grows.
    pub proof fn lemma_stays(self, before: Plan, after: Plan)
        requires
            self.declared(before),
            after.grows(before),
        ensures
            self.declared(after),
    {
        assert forall|i: int| 0 <= i < self.layers@.len() implies (
        #[trigger] self.layers@[i]).nodes.declared(
            after,
            layer_prefix(self.prefix@, i as nat),
            self.cfg.layer_shape(),
            self.frozen(),
        ) by {
            self.layers@[i].nodes.lemma_stays(
                before,
                after,
                layer_prefix(self.prefix@, i as nat),
                self.cfg.layer_shape(),
                self.frozen(),
            );
        }
    }

    /// Declare the backbone's parameters, all frozen, under `prefix`.
    pub fn new(g: &mut Plan, prefix: &str, cfg: BackboneConfig) -> (backbone: Self)
        requires
            old(g).wf(),
            cfg.wf(),
        ensures
            final(g).grows(*old(g)),
            backbone.declared(*final(g)),
            backbone.shape() == cfg,
            backbone.name() == prefix@,
            backbone.frozen(),
            final(g).params() == old(g).params() + backbone_params(prefix@, cfg),
    {
        Self::with_freezing(g, prefix, cfg, Freezing::Frozen)
    }

    /// Declare the backbone's parameters under `prefix`, frozen or not.
    pub fn with_freezing(
        g: &mut Plan,
        prefix: &str,
        cfg: BackboneConfig,
        freezing: Freezing,
    ) -> (backbone: Self)
        requires
            old(g).wf(),
            cfg.wf(),
        ensures
            final(g).grows(*old(g)),
            backbone.declared(*final(g)),
            backbone.shape() == cfg,
            backbone.name() == prefix@,
            backbone.regime() == freezing,
            final(g).params() == old(g).params() + backbone_params(prefix@, cfg),
    {
        let frozen: bool = freezing == Freezing::Frozen;
        let d: usize = cfg.model_dim();
        let shape = LayerShape {
            num_heads: cfg.num_heads,
            num_kv_heads: cfg.num_kv_heads,
            head_dim: cfg.head_dim,
            intermediate_size: cfg.intermediate_size,
        };
        let ghost start = g.params();
        let embed: NodeId = declare_matrix(g, prefix, ".embed", cfg.vocab_size, d, frozen);
        let ghost opening = g.params();
        let mut layers: Vec<BackboneLayer> = Vec::new();
        let head: String = joined(prefix, ".layers.");
        proof {
            assert(g.params() =~= opening + layers_params(prefix@, shape, 0));
        }
        let mut i: usize = 0;
        while i < cfg.num_layers
            invariant
                i <= cfg.num_layers,
                cfg.wf(),
                shape == cfg.layer_shape(),
                head@ == prefix@ + ".layers."@,
                g.grows(*old(g)),
                g.holds(embed),
                g.expr(embed) == super::transformer::leaf(
                    prefix@ + ".embed"@,
                    seq![cfg.vocab_size as nat, d as nat],
                    frozen,
                ),
                layers@.len() == i,
                forall|j: int|
                    0 <= j < i ==> (#[trigger] layers@[j]).nodes.declared(
                        *g,
                        layer_prefix(prefix@, j as nat),
                        shape,
                        frozen,
                    ),
                g.params() == opening + layers_params(prefix@, shape, i as nat),
            decreases cfg.num_layers - i,
        {
            let p: String = numbered(head.as_str(), i as u64, "");
            proof {
                reveal_strlit("");
                assert(p@ =~= layer_prefix(prefix@, i as nat));
            }
            let ghost before = *g;
            let nodes: LayerNodes = LayerNodes::new(g, p.as_str(), shape, frozen);
            layers.push(BackboneLayer { nodes });
            proof {
                assert forall|j: int| 0 <= j < i + 1 implies (
                #[trigger] layers@[j]).nodes.declared(
                    *g,
                    layer_prefix(prefix@, j as nat),
                    shape,
                    frozen,
                ) by {
                    if j < i {
                        layers@[j].nodes.lemma_stays(
                            before,
                            *g,
                            layer_prefix(prefix@, j as nat),
                            shape,
                            frozen,
                        );
                    }
                }
                assert(g.params() =~= opening + layers_params(prefix@, shape, (i + 1) as nat));
            }
            i = i + 1;
        }
        let ghost stacked = *g;
        let out_norm: NodeId = declare_vector(g, prefix, ".out_norm", d, frozen);
        let lm_head: NodeId = declare_matrix(g, prefix, ".lm_head", d, cfg.vocab_size, frozen);
        let backbone = Backbone {
            cfg,
            prefix: String::from_str(prefix),
            freezing,
            embed,
            layers,
            out_norm,
            lm_head,
        };
        proof {
            assert forall|j: int| 0 <= j < layers@.len() implies (
            #[trigger] backbone.layers@[j]).nodes.declared(
                *g,
                layer_prefix(prefix@, j as nat),
                shape,
                frozen,
            ) by {
                layers@[j].nodes.lemma_stays(
                    stacked,
                    *g,
                    layer_prefix(prefix@, j as nat),
                    shape,
                    frozen,
                );
            }
            assert(g.params() =~= start + backbone_params(prefix@, cfg));
        }
        backbone
    }

    /// The backbone's configuration.
    pub fn config(&self) -> (cfg: BackboneConfig)
        ensures
            cfg == self.shape(),
    {
        self.cfg
    }

    /// How many layers there are.
    pub closed spec fn depth(self) -> nat {
        self.layers@.len()
    }

    /// A declared backbone has the layers its configuration says.
    pub proof fn lemma_depth(self, g: Plan)
        requires
            self.declared(g),
        ensures
            self.depth() == self.shape().num_layers,
            self.shape().wf(),
    {
    }

    /// Number of layers.
    pub fn num_layers(&self) -> (count: usize)
        ensures
            count == self.depth(),
    {
        self.layers.len()
    }

    /// Every parameter name this backbone owns, under `prefix`.
    ///
    /// The list a pretrained backbone is transferred through: train one graph
    /// with [`Freezing::Trainable`], read these, and write them into the
    /// retrofit graph that declares the same names frozen.
    pub fn param_names(prefix: &str, cfg: BackboneConfig) -> (names: Vec<String>)
        ensures
            super::gate::owned_texts(names@) == super::gate::param_texts(
                backbone_params(prefix@, cfg),
            ),
    {
        let mut names: Vec<String> = Vec::new();
        names.push(joined(prefix, ".embed"));
        let ghost first = super::gate::owned_texts(names@);
        append_layer_names(&mut names, prefix, cfg.num_layers, Ghost(cfg.layer_shape()));
        let ghost layered = super::gate::owned_texts(names@);
        let ghost two = names@;
        names.push(joined(prefix, ".out_norm"));
        let ghost three = names@;
        names.push(joined(prefix, ".lm_head"));
        proof {
            let d = cfg.layer_shape().d();
            let opening = seq![(prefix@ + ".embed"@, seq![cfg.vocab_size as nat, d])];
            let middle = layers_params(prefix@, cfg.layer_shape(), cfg.num_layers as nat);
            let closing = seq![
                (prefix@ + ".out_norm"@, seq![d]),
                (prefix@ + ".lm_head"@, seq![d, cfg.vocab_size as nat]),
            ];
            super::gate::lemma_param_texts(opening, middle);
            super::gate::lemma_param_texts(opening + middle, closing);
            super::gate::lemma_owned_texts(two, three.last());
            super::gate::lemma_owned_texts(three, names@.last());
            assert(three =~= two.push(three.last()));
            assert(names@ =~= three.push(names@.last()));
            assert(first =~= super::gate::param_texts(opening));
            assert(super::gate::param_texts(closing) =~= seq![
                prefix@ + ".out_norm"@,
                prefix@ + ".lm_head"@,
            ]);
            assert(super::gate::owned_texts(names@) =~= super::gate::param_texts(
                backbone_params(prefix@, cfg),
            ));
        }
        names
    }

    /// Embed `token_ids` (`[n]`, token ids) into `[n, d]`.
    pub fn embed(&self, g: &mut Plan, token_ids: NodeId) -> (id: NodeId)
        requires
            old(g).wf(),
            self.declared(*old(g)),
            old(g).holds(token_ids),
            old(g).expr(token_ids).is_ids,
            old(g).expr(token_ids).shape.len() == 1,
        ensures
            final(g).adds(*old(g), id),
            final(g).expr(id) == super::plan::embedded(
                old(g).expr(token_ids),
                super::transformer::leaf(
                    self.name() + ".embed"@,
                    seq![self.shape().vocab_size as nat, self.shape().layer_shape().d()],
                    self.frozen(),
                ),
            ),
            final(g).params() == old(g).params(),
    {
        g.embedding(token_ids, self.embed)
    }

    /// Run backbone layer `layer` over `[n, d]`.
    pub fn layer(&self, g: &mut Plan, x: NodeId, layer: usize) -> (id: NodeId)
        requires
            old(g).wf(),
            self.declared(*old(g)),
            layer < self.depth(),
            old(g).holds(x),
            !old(g).expr(x).is_ids,
            old(g).expr(x).shape.len() == 2,
            old(g).expr(x).shape[1] == self.shape().layer_shape().d(),
        ensures
            final(g).grows(*old(g)),
            final(g).holds(id),
            id.0 >= old(g).count(),
            final(g).label(id) is None,
            final(g).expr(id) == backbone_layer_expr(
                old(g).expr(x),
                self.name(),
                self.shape(),
                self.frozen(),
                layer as nat,
            ),
            final(g).expr(id).shape == old(g).expr(x).shape,
            !final(g).expr(id).is_ids,
            final(g).params() == old(g).params(),
    {
        let cfg: BackboneConfig = self.cfg;
        let shape = LayerShape {
            num_heads: cfg.num_heads,
            num_kv_heads: cfg.num_kv_heads,
            head_dim: cfg.head_dim,
            intermediate_size: cfg.intermediate_size,
        };
        let layers: &Vec<BackboneLayer> = &self.layers;
        let nodes: LayerNodes = layers[layer].nodes;
        nodes.forward(
            g,
            x,
            shape,
            cfg.rms_norm_eps,
            Some(cfg.rope_theta),
            Ghost(layer_prefix(self.prefix@, layer as nat)),
            Ghost(self.frozen()),
        )
    }

    /// Final norm and unembedding to `[n, vocab]`.
    pub fn head(&self, g: &mut Plan, x: NodeId) -> (id: NodeId)
        requires
            old(g).wf(),
            self.declared(*old(g)),
            old(g).holds(x),
            !old(g).expr(x).is_ids,
            old(g).expr(x).shape.len() == 2,
            old(g).expr(x).shape[1] == self.shape().layer_shape().d(),
        ensures
            final(g).grows(*old(g)),
            final(g).holds(id),
            id.0 >= old(g).count(),
            final(g).label(id) is None,
            final(g).expr(id) == head_expr(
                old(g).expr(x),
                self.name(),
                self.shape(),
                self.frozen(),
            ),
            final(g).expr(id).shape == seq![
                old(g).expr(x).shape[0],
                self.shape().vocab_size as nat,
            ],
            !final(g).expr(id).is_ids,
            final(g).params() == old(g).params(),
    {
        let x: NodeId = g.rms_norm(x, self.out_norm, self.cfg.rms_norm_eps);
        g.matmul(x, self.lm_head)
    }
}

/// Append the parameter names of `count` layers under `prefix`.
pub(crate) fn append_layer_names(
    names: &mut Vec<String>,
    prefix: &str,
    count: usize,
    Ghost(shape): Ghost<LayerShape>,
)
    ensures
        super::gate::owned_texts(final(names)@) == super::gate::owned_texts(old(names)@)
            + super::gate::param_texts(layers_params(prefix@, shape, count as nat)),
{
    let ghost before = super::gate::owned_texts(names@);
    proof {
        assert(super::gate::param_texts(layers_params(prefix@, shape, 0)) =~= Seq::<
            Seq<char>,
        >::empty());
        assert(super::gate::owned_texts(names@) =~= before + super::gate::param_texts(
            layers_params(prefix@, shape, 0),
        ));
    }
    let head: String = joined(prefix, ".layers.");
    let mut i: usize = 0;
    while i < count
        invariant
            i <= count,
            head@ == prefix@ + ".layers."@,
            super::gate::owned_texts(names@) == before + super::gate::param_texts(
                layers_params(prefix@, shape, i as nat),
            ),
        decreases count - i,
    {
        let ghost now = super::gate::owned_texts(names@);
        let p: String = numbered(head.as_str(), i as u64, "");
        proof {
            reveal_strlit("");
            assert(p@ =~= layer_prefix(prefix@, i as nat));
        }
        let attn_norm: String = joined(p.as_str(), ".attn_norm");
        let q_proj: String = joined(p.as_str(), ".q_proj");
        let k_proj: String = joined(p.as_str(), ".k_proj");
        let v_proj: String = joined(p.as_str(), ".v_proj");
        let o_proj: String = joined(p.as_str(), ".o_proj");
        let ffn_norm: String = joined(p.as_str(), ".ffn_norm");
        let gate_proj: String = joined(p.as_str(), ".gate_proj");
        let up_proj: String = joined(p.as_str(), ".up_proj");
        let down_proj: String = joined(p.as_str(), ".down_proj");
        let more: Vec<&str> = vec![
            attn_norm.as_str(),
            q_proj.as_str(),
            k_proj.as_str(),
            v_proj.as_str(),
            o_proj.as_str(),
            ffn_norm.as_str(),
            gate_proj.as_str(),
            up_proj.as_str(),
            down_proj.as_str(),
        ];
        append_names(names, more.as_slice());
        proof {
            let layer = super::transformer::layer_params(layer_prefix(prefix@, i as nat), shape);
            assert(super::gate::texts(more@) =~= super::gate::param_texts(layer));
            assert(super::gate::param_texts(layers_params(prefix@, shape, (i + 1) as nat))
                =~= super::gate::param_texts(layers_params(prefix@, shape, i as nat))
                + super::gate::param_texts(layer));
            assert(super::gate::owned_texts(names@) =~= before + super::gate::param_texts(
                layers_params(prefix@, shape, (i + 1) as nat),
            ));
        }
        i = i + 1;
    }
}

} // verus!
