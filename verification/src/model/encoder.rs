//! The neighbour encoder: retrieved tokens to cross-attention keys/values.
//!
//! Trained, not frozen. Retrieved neighbours are clean text with no ordering
//! constraint to respect, so attention over them is full rather than causal.
//!
//! Encoding neighbours is the expensive half of retrieval, which is what makes
//! [`crate::schedule::RefreshSchedule`] worth having: the output of this
//! module is what gets cached between refresh thresholds.
use super::backbone::append_layer_names;
use super::plan::{NodeId, Plan};
use super::transformer::{declare_matrix, declare_vector, LayerNodes, LayerShape};
use crate::binary32::Binary32;
use crate::text::{joined, numbered};
use vstd::prelude::*;
use vstd::string::*;

verus! {

/// How much context one encoder pass sees.
#[derive(Clone, Copy, Debug, PartialEq, Eq, Structural)]
pub enum EncoderScope {
    /// Encode each neighbour's `r` tokens on its own: a neighbour's
    /// representation does not depend on which other neighbours the search
    /// happened to return alongside it, which keeps the encoding reproducible
    /// under index changes.
    PerNeighbour,
    /// Encode a chunk's whole `k * r` key/value block at once. The `k`
    /// neighbours attend to each other, and the operator count per refresh
    /// drops by a factor of `k`.
    PerChunk,
}

impl Default for EncoderScope {
    fn default() -> (scope: Self)
        ensures
            scope == EncoderScope::PerNeighbour,
    {
        EncoderScope::PerNeighbour
    }
}

/// Shape of the neighbour encoder.
#[derive(Clone, Copy, Debug, PartialEq, Eq, Structural)]
pub struct NeighbourEncoderConfig {
    /// Token vocabulary, shared with the backbone.
    pub vocab_size: usize,
    /// Transformer layers.
    pub num_layers: usize,
    /// Query heads.
    pub num_heads: u32,
    /// Key/value heads.
    pub num_kv_heads: u32,
    /// Per-head width.
    pub head_dim: u32,
    /// Feed-forward inner width.
    pub intermediate_size: usize,
    /// Encoding granularity.
    pub scope: EncoderScope,
}

impl NeighbourEncoderConfig {
    /// The shape of every layer.
    pub open spec fn layer_shape(self) -> LayerShape {
        LayerShape {
            num_heads: self.num_heads,
            num_kv_heads: self.num_kv_heads,
            head_dim: self.head_dim,
            intermediate_size: self.intermediate_size,
        }
    }

    /// The widths can be held in a machine word.
    pub open spec fn wf(self) -> bool {
        self.layer_shape().wf()
    }

    /// Rows encoded per pass.
    pub open spec fn rows_per_group(self, k: nat, r: nat) -> nat {
        match self.scope {
            EncoderScope::PerNeighbour => r,
            EncoderScope::PerChunk => k * r,
        }
    }

    /// Model width, `num_heads * head_dim`.
    pub fn model_dim(&self) -> (d: usize)
        requires
            self.num_heads * self.head_dim <= u32::MAX,
        ensures
            d == self.num_heads * self.head_dim,
            d == self.layer_shape().d(),
    {
        (self.num_heads * self.head_dim) as usize
    }

    /// Key/value width.
    pub fn kv_dim(&self) -> (kv: usize)
        requires
            self.num_kv_heads * self.head_dim <= u32::MAX,
        ensures
            kv == self.num_kv_heads * self.head_dim,
            kv == self.layer_shape().kv(),
    {
        (self.num_kv_heads * self.head_dim) as usize
    }
}

/// What is added under the root of every normalisation: `1e-5`.
pub const RMS_EPS: u32 = 0x3727_C5AC;

/// The parameters an encoder under `prefix` declares: names and shapes.
pub open spec fn encoder_params(prefix: Seq<char>, cfg: NeighbourEncoderConfig) -> Seq<
    (Seq<char>, Seq<nat>),
> {
    let d = cfg.layer_shape().d();
    seq![(prefix + ".embed"@, seq![cfg.vocab_size as nat, d])]
        + super::backbone::layers_params(prefix, cfg.layer_shape(), cfg.num_layers as nat) + seq![
        (prefix + ".out_norm"@, seq![d]),
    ]
}

/// The first `upto` layers of an encoder over `x`.
pub open spec fn encoder_layers_expr(
    x: super::plan::Expr,
    prefix: Seq<char>,
    cfg: NeighbourEncoderConfig,
    upto: nat,
) -> super::plan::Expr
    decreases upto,
{
    if upto == 0 {
        x
    } else {
        super::transformer::layer_expr(
            encoder_layers_expr(x, prefix, cfg, (upto - 1) as nat),
            super::backbone::layer_prefix(prefix, (upto - 1) as nat),
            cfg.layer_shape(),
            Binary32 { bits: RMS_EPS },
            None,
            false,
        )
    }
}

/// What an encoder makes of embedded tokens `x`.
pub open spec fn encoder_expr(
    x: super::plan::Expr,
    prefix: Seq<char>,
    cfg: NeighbourEncoderConfig,
) -> super::plan::Expr {
    super::plan::normed(
        encoder_layers_expr(x, prefix, cfg, cfg.num_layers as nat),
        super::transformer::leaf(prefix + ".out_norm"@, seq![cfg.layer_shape().d()], false),
        (Binary32 { bits: RMS_EPS }),
    )
}

/// Token ids as an encoder embeds them.
pub open spec fn encoder_embed_expr(
    ids: super::plan::Expr,
    prefix: Seq<char>,
    cfg: NeighbourEncoderConfig,
) -> super::plan::Expr {
    super::plan::embedded(
        ids,
        super::transformer::leaf(
            prefix + ".embed"@,
            seq![cfg.vocab_size as nat, cfg.layer_shape().d()],
            false,
        ),
    )
}

/// A bidirectional transformer over retrieved neighbour tokens.
///
/// Parameters are declared once, in [`NeighbourEncoder::new`], and every
/// [`NeighbourEncoder::forward`] call reuses those node ids. One set of
/// weights, many applications: re-declaring a name inside a loop would
/// allocate one buffer per application and split the weight into independent
/// copies.
#[derive(Clone, Debug)]
pub struct NeighbourEncoder {
    cfg: NeighbourEncoderConfig,
    prefix: String,
    embed: NodeId,
    layers: Vec<LayerNodes>,
    out_norm: NodeId,
}

impl NeighbourEncoder {
    /// The configuration.
    pub closed spec fn shape(self) -> NeighbourEncoderConfig {
        self.cfg
    }

    /// What the names of the parameters start with.
    pub closed spec fn name(self) -> Seq<char> {
        self.prefix@
    }

    /// Whether `g` holds the parameters of this encoder.
    pub closed spec fn declared(self, g: Plan) -> bool {
        let d = self.cfg.layer_shape().d();
        &&& self.cfg.wf()
        &&& self.layers@.len() == self.cfg.num_layers
        &&& g.holds(self.embed)
        &&& g.holds(self.out_norm)
        &&& g.expr(self.embed) == super::transformer::leaf(
            self.prefix@ + ".embed"@,
            seq![self.cfg.vocab_size as nat, d],
            false,
        )
        &&& g.expr(self.out_norm) == super::transformer::leaf(
            self.prefix@ + ".out_norm"@,
            seq![d],
            false,
        )
        &&& forall|i: int|
            0 <= i < self.layers@.len() ==> (#[trigger] self.layers@[i]).declared(
                g,
                super::backbone::layer_prefix(self.prefix@, i as nat),
                self.cfg.layer_shape(),
                false,
            )
    }

    /// An encoder that is declared stays declared as the plan grows.
    pub proof fn lemma_stays(self, before: Plan, after: Plan)
        requires
            self.declared(before),
            after.grows(before),
        ensures
            self.declared(after),
    {
        assert forall|i: int| 0 <= i < self.layers@.len() implies (
        #[trigger] self.layers@[i]).declared(
            after,
            super::backbone::layer_prefix(self.prefix@, i as nat),
            self.cfg.layer_shape(),
            false,
        ) by {
            self.layers@[i].lemma_stays(
                before,
                after,
                super::backbone::layer_prefix(self.prefix@, i as nat),
                self.cfg.layer_shape(),
                false,
            );
        }
    }

    /// Declare the encoder's parameters under `prefix`.
    pub fn new(g: &mut Plan, prefix: &str, cfg: NeighbourEncoderConfig) -> (encoder: Self)
        requires
            old(g).wf(),
            cfg.wf(),
        ensures
            final(g).grows(*old(g)),
            encoder.declared(*final(g)),
            encoder.shape() == cfg,
            encoder.name() == prefix@,
            final(g).params() == old(g).params() + encoder_params(prefix@, cfg),
    {
        let d: usize = cfg.model_dim();
        let shape = LayerShape {
            num_heads: cfg.num_heads,
            num_kv_heads: cfg.num_kv_heads,
            head_dim: cfg.head_dim,
            intermediate_size: cfg.intermediate_size,
        };
        let ghost start = g.params();
        let embed: NodeId = declare_matrix(g, prefix, ".embed", cfg.vocab_size, d, false);
        let ghost opening = g.params();
        let mut layers: Vec<LayerNodes> = Vec::new();
        let head: String = joined(prefix, ".layers.");
        proof {
            assert(g.params() =~= opening + super::backbone::layers_params(prefix@, shape, 0));
        }
        let mut i: usize = 0;
        while i < cfg.num_layers
            invariant
                i <= cfg.num_layers,
                cfg.wf(),
                shape == cfg.layer_shape(),
                head@ == prefix@ + ".layers."@,
                g.grows(*old(g)),
                g.holds(embed),
                g.expr(embed) == super::transformer::leaf(
                    prefix@ + ".embed"@,
                    seq![cfg.vocab_size as nat, d as nat],
                    false,
                ),
                layers@.len() == i,
                forall|j: int|
                    0 <= j < i ==> (#[trigger] layers@[j]).declared(
                        *g,
                        super::backbone::layer_prefix(prefix@, j as nat),
                        shape,
                        false,
                    ),
                g.params() == opening + super::backbone::layers_params(prefix@, shape, i as nat),
            decreases cfg.num_layers - i,
        {
            let p: String = numbered(head.as_str(), i as u64, "");
            proof {
                reveal_strlit("");
                assert(p@ =~= super::backbone::layer_prefix(prefix@, i as nat));
            }
            let ghost before = *g;
            let nodes: LayerNodes = LayerNodes::new(g, p.as_str(), shape, false);
            layers.push(nodes);
            proof {
                assert forall|j: int| 0 <= j < i + 1 implies (#[trigger] layers@[j]).declared(
                    *g,
                    super::backbone::layer_prefix(prefix@, j as nat),
                    shape,
                    false,
                ) by {
                    if j < i {
                        layers@[j].lemma_stays(
                            before,
                            *g,
                            super::backbone::layer_prefix(prefix@, j as nat),
                            shape,
                            false,
                        );
                    }
                }
                assert(g.params() =~= opening + super::backbone::layers_params(
                    prefix@,
                    shape,
                    (i + 1) as nat,
                ));
            }
            i = i + 1;
        }
        let ghost stacked = *g;
        let out_norm: NodeId = declare_vector(g, prefix, ".out_norm", d, false);
        let encoder = NeighbourEncoder {
            cfg,
            prefix: String::from_str(prefix),
            embed,
            layers,
            out_norm,
        };
        proof {
            assert forall|j: int| 0 <= j < layers@.len() implies (
            #[trigger] encoder.layers@[j]).declared(
                *g,
                super::backbone::layer_prefix(prefix@, j as nat),
                shape,
                false,
            ) by {
                layers@[j].lemma_stays(
                    stacked,
                    *g,
                    super::backbone::layer_prefix(prefix@, j as nat),
                    shape,
                    false,
                );
            }
            assert(g.params() =~= start + encoder_params(prefix@, cfg));
        }
        encoder
    }

    /// The encoder's configuration.
    pub fn config(&self) -> (cfg: NeighbourEncoderConfig)
        ensures
            cfg == self.shape(),
    {
        self.cfg
    }

    /// Rows encoded per pass: `r` for [`EncoderScope::PerNeighbour`], `k * r`
    /// for [`EncoderScope::PerChunk`].
    pub fn group_rows(&self, k: usize, r: usize) -> (rows: usize)
        requires
            self.shape().scope is PerChunk ==> k * r <= usize::MAX,
        ensures
            rows == self.shape().rows_per_group(k as nat, r as nat),
    {
        match self.cfg.scope {
            EncoderScope::PerNeighbour => r,
            EncoderScope::PerChunk => k * r,
        }
    }

    /// Number of encoder passes per chunk.
    pub fn groups_per_chunk(&self, k: usize) -> (groups: usize)
        ensures
            groups == match self.shape().scope {
                EncoderScope::PerNeighbour => k,
                EncoderScope::PerChunk => 1,
            },
    {
        match self.cfg.scope {
            EncoderScope::PerNeighbour => k,
            EncoderScope::PerChunk => 1,
        }
    }

    /// Every parameter name this encoder owns.
    pub fn param_names(&self) -> (names: Vec<String>)
        ensures
            super::gate::owned_texts(names@) == super::gate::param_texts(
                encoder_params(self.name(), self.shape()),
            ),
    {
        let mut names: Vec<String> = Vec::new();
        names.push(joined(self.prefix.as_str(), ".embed"));
        let ghost first = super::gate::owned_texts(names@);
        append_layer_names(
            &mut names,
            self.prefix.as_str(),
            self.cfg.num_layers,
            Ghost(self.cfg.layer_shape()),
        );
        let ghost two = names@;
        names.push(joined(self.prefix.as_str(), ".out_norm"));
        proof {
            let prefix = self.prefix@;
            let d = self.cfg.layer_shape().d();
            let opening = seq![(prefix + ".embed"@, seq![self.cfg.vocab_size as nat, d])];
            let middle = super::backbone::layers_params(
                prefix,
                self.cfg.layer_shape(),
                self.cfg.num_layers as nat,
            );
            let closing = seq![(prefix + ".out_norm"@, seq![d])];
            super::gate::lemma_param_texts(opening, middle);
            super::gate::lemma_param_texts(opening + middle, closing);
            super::gate::lemma_owned_texts(two, names@.last());
            assert(names@ =~= two.push(names@.last()));
            assert(first =~= super::gate::param_texts(opening));
            assert(super::gate::param_texts(closing) =~= seq![prefix + ".out_norm"@]);
            assert(super::gate::owned_texts(names@) =~= super::gate::param_texts(
                encoder_params(prefix, self.cfg),
            ));
        }
        names
    }

    /// Embed a `[rows]` token id vector into `[rows, d]`.
    ///
    /// Split out from [`NeighbourEncoder::forward`] because the caller embeds
    /// *all* `l * k * r` neighbour tokens in one gather and then slices the
    /// result per group. Slicing before embedding is not an option: slices are
    /// typed as numbers, so token ids cannot be sliced without silently
    /// acquiring the wrong type.
    pub fn embed(&self, g: &mut Plan, token_ids: NodeId) -> (id: NodeId)
        requires
            old(g).wf(),
            self.declared(*old(g)),
            old(g).holds(token_ids),
            old(g).expr(token_ids).is_ids,
            old(g).expr(token_ids).shape.len() == 1,
        ensures
            final(g).adds(*old(g), id),
            final(g).expr(id) == encoder_embed_expr(
                old(g).expr(token_ids),
                self.name(),
                self.shape(),
            ),
            final(g).params() == old(g).params(),
    {
        g.embedding(token_ids, self.embed)
    }

    /// Encode one group of neighbour token ids into `[rows, d]`.
    ///
    /// `token_ids` is a `[rows]` value.
    pub fn forward(&self, g: &mut Plan, token_ids: NodeId, rows: usize) -> (id: NodeId)
        requires
            old(g).wf(),
            self.declared(*old(g)),
            old(g).holds(token_ids),
            old(g).expr(token_ids).is_ids,
            old(g).expr(token_ids).shape == seq![rows as nat],
        ensures
            final(g).grows(*old(g)),
            final(g).holds(id),
            id.0 >= old(g).count(),
            final(g).label(id) == Some(self.name() + ".kv"@),
            final(g).expr(id) == encoder_expr(
                encoder_embed_expr(old(g).expr(token_ids), self.name(), self.shape()),
                self.name(),
                self.shape(),
            ),
            final(g).expr(id).shape == seq![rows as nat, self.shape().layer_shape().d()],
            final(g).params() == old(g).params(),
    {
        let ghost start = *g;
        let embedded: NodeId = self.embed(g, token_ids);
        proof {
            self.lemma_stays(start, *g);
        }
        self.forward_embedded(g, embedded, rows)
    }

    /// Run the transformer stack over already-embedded `[rows, d]` values.
    pub fn forward_embedded(&self, g: &mut Plan, embedded: NodeId, rows: usize) -> (id: NodeId)
        requires
            old(g).wf(),
            self.declared(*old(g)),
            old(g).holds(embedded),
            !old(g).expr(embedded).is_ids,
            old(g).expr(embedded).shape == seq![rows as nat, self.shape().layer_shape().d()],
        ensures
            final(g).grows(*old(g)),
            final(g).holds(id),
            id.0 >= old(g).count(),
            final(g).label(id) == Some(self.name() + ".kv"@),
            final(g).expr(id) == encoder_expr(
                old(g).expr(embedded),
                self.name(),
                self.shape(),
            ),
            final(g).expr(id).shape == old(g).expr(embedded).shape,
            !final(g).expr(id).is_ids,
            final(g).params() == old(g).params(),
    {
        let cfg: NeighbourEncoderConfig = self.cfg;
        let shape = LayerShape {
            num_heads: cfg.num_heads,
            num_kv_heads: cfg.num_kv_heads,
            head_dim: cfg.head_dim,
            intermediate_size: cfg.intermediate_size,
        };
        let eps: Binary32 = Binary32::from_bits(RMS_EPS);
        let ghost input = g.expr(embedded);
        let mut x: NodeId = embedded;
        let mut i: usize = 0;
        while i < self.layers.len()
            invariant
                i <= self.layers@.len(),
                cfg == self.cfg,
                shape == cfg.layer_shape(),
                eps == (Binary32 { bits: RMS_EPS }),
                self.declared(*old(g)),
                input == old(g).expr(embedded),
                input.shape == seq![rows as nat, shape.d()],
                g.grows(*old(g)),
                g.holds(x),
                !g.expr(x).is_ids,
                g.expr(x) == encoder_layers_expr(input, self.prefix@, cfg, i as nat),
                g.expr(x).shape == input.shape,
                g.params() == old(g).params(),
            decreases self.layers.len() - i,
        {
            proof {
                self.lemma_stays(*old(g), *g);
            }
            let nodes: LayerNodes = self.layers[i];
            x = nodes.forward(
                g,
                x,
                shape,
                eps,
                None,
                Ghost(super::backbone::layer_prefix(self.prefix@, i as nat)),
                Ghost(false),
            );
            i = i + 1;
        }
        proof {
            self.lemma_stays(*old(g), *g);
        }
        let normed: NodeId = g.rms_norm(x, self.out_norm, eps);
        g.named(normed, joined(self.prefix.as_str(), ".kv"))
    }
}

} // verus!
