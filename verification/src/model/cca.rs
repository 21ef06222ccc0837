//! The chunked cross-attention block.
//!
//! Inserted after every `P`th backbone layer.
//!
//! # Block-diagonal attention without a mask
//!
//! Chunk `u`'s queries may attend only to its own `k * r` retrieved key/value
//! rows. The attention operator takes no mask, so the block-diagonal form is
//! written directly: `l` independent `[m, k * r]` cross-attentions, one per
//! chunk. A masked formulation would compute `n * l * k * r` scores and throw
//! away all but `1 / l` of them; the explicit one computes exactly the scores
//! that survive. What it costs instead is `l` dispatches per block rather than
//! one.
pub mod input_names;

use super::gate::{append_names, GateActivation, TimeConditionedGate};
use super::plan::{NodeId, Plan};
use super::rows::{concat_rows, slice_rows};
use super::transformer::{declare_matrix, declare_vector};
use crate::binary32::Binary32;
use crate::config::CcaConfig;
use crate::text::{joined, numbered};
use vstd::prelude::*;
use vstd::string::*;

verus! {

/// What is added under the root of every normalisation: `1e-5`.
pub const RMS_EPS: u32 = 0x3727_C5AC;

/// Inputs a CCA block reads from the host each step.
///
/// All three change per denoising step and none of them changes shape, so they
/// are inputs rather than constants: the graph compiles once and the
/// trajectory runs against it.
#[derive(Clone, Copy, Debug, PartialEq, Eq, Structural)]
pub struct CcaInputs {
    /// `[n, 1]`, the current noise level repeated per row.
    pub t_col: NodeId,
    /// `[n, 1]`, `1.0` where the row's chunk retrieved neighbours and `0.0`
    /// where it did not.
    pub retrieval_mask: NodeId,
    /// `[l * k * r, d]` encoded neighbour keys/values, chunk-major.
    pub neighbour_kv: NodeId,
}

/// Whether the values a block works on can be addressed.
pub open spec fn block_fits(cfg: CcaConfig) -> bool {
    &&& cfg.wf()
    &&& cfg.n() <= u32::MAX
    &&& cfg.d() < u32::MAX
    &&& cfg.l() * cfg.k() * cfg.r() <= u32::MAX
    &&& cfg.n() * (cfg.d() + 1) <= usize::MAX
    &&& cfg.l() * cfg.k() * cfg.r() * cfg.d() <= usize::MAX
}

/// Width of the projected keys and values.
pub open spec fn kv_width(cfg: CcaConfig) -> nat {
    (cfg.kv_heads() * cfg.head_width()) as nat
}

/// The parameters a block under `prefix` declares: names and shapes.
pub open spec fn block_params(prefix: Seq<char>, cfg: CcaConfig, activation: GateActivation) -> Seq<
    (Seq<char>, Seq<nat>),
> {
    let d = cfg.d() as nat;
    seq![
        (prefix + ".q_norm"@, seq![d]),
        (prefix + ".kv_norm"@, seq![d]),
        (prefix + ".q_proj"@, seq![d, d]),
        (prefix + ".k_proj"@, seq![d, kv_width(cfg)]),
        (prefix + ".v_proj"@, seq![d, kv_width(cfg)]),
        (prefix + ".o_proj"@, seq![d, d]),
    ] + super::gate::gate_params(prefix + ".gate"@, d, activation)
}

/// What chunk `chunk` gathers from its own neighbours, and from no others.
pub open spec fn chunk_expr(
    q: super::plan::Expr,
    k: super::plan::Expr,
    v: super::plan::Expr,
    cfg: CcaConfig,
    chunk: nat,
) -> super::plan::Expr {
    let rows = (cfg.k() * cfg.r()) as nat;
    let total = (cfg.l() * cfg.k() * cfg.r()) as nat;
    super::plan::attended(
        super::rows::sliced(
            q,
            cfg.n() as nat,
            cfg.d() as nat,
            chunk * cfg.m() as nat,
            cfg.m() as nat,
        ),
        super::rows::sliced(k, total, kv_width(cfg), chunk * rows, rows),
        super::rows::sliced(v, total, kv_width(cfg), chunk * rows, rows),
        cfg.heads() as u32,
        cfg.kv_heads() as u32,
        cfg.head_width() as u32,
        true,
    )
}

/// The queries of every row.
pub open spec fn query_expr(
    h: super::plan::Expr,
    prefix: Seq<char>,
    cfg: CcaConfig,
) -> super::plan::Expr {
    let d = cfg.d() as nat;
    super::plan::matmul(
        super::plan::normed(
            h,
            super::plan::parameter_expr(prefix + ".q_norm"@, seq![d]),
            (Binary32 { bits: RMS_EPS }),
        ),
        super::plan::parameter_expr(prefix + ".q_proj"@, seq![d, d]),
    )
}

/// The keys, or the values, of every neighbour row: projected by `suffix`.
pub open spec fn projected_expr(
    kv: super::plan::Expr,
    prefix: Seq<char>,
    suffix: Seq<char>,
    cfg: CcaConfig,
) -> super::plan::Expr {
    let d = cfg.d() as nat;
    super::plan::matmul(
        super::plan::normed(
            kv,
            super::plan::parameter_expr(prefix + ".kv_norm"@, seq![d]),
            (Binary32 { bits: RMS_EPS }),
        ),
        super::plan::parameter_expr(prefix + suffix, seq![d, kv_width(cfg)]),
    )
}

/// What chunk `chunk` of a residual gathers.
pub open spec fn gathered_expr(
    h: super::plan::Expr,
    kv: super::plan::Expr,
    prefix: Seq<char>,
    cfg: CcaConfig,
    chunk: nat,
) -> super::plan::Expr {
    chunk_expr(
        query_expr(h, prefix, cfg),
        projected_expr(kv, prefix, ".k_proj"@, cfg),
        projected_expr(kv, prefix, ".v_proj"@, cfg),
        cfg,
        chunk,
    )
}

/// The retrieved context of every row.
pub open spec fn context_expr(
    h: super::plan::Expr,
    kv: super::plan::Expr,
    prefix: Seq<char>,
    cfg: CcaConfig,
) -> super::plan::Expr {
    let d = cfg.d() as nat;
    super::plan::matmul(
        super::rows::stacked(
            Seq::new(
                cfg.l() as nat,
                |c: int| (gathered_expr(h, kv, prefix, cfg, c as nat), cfg.m() as nat),
            ),
            d,
        ),
        super::plan::parameter_expr(prefix + ".o_proj"@, seq![d, d]),
    )
}

/// Whether what every chunk gathers can be read back under its label.
pub open spec fn chunks_labelled(
    g: Plan,
    h: super::plan::Expr,
    kv: super::plan::Expr,
    prefix: Seq<char>,
    cfg: CcaConfig,
) -> bool {
    forall|c: nat|
        c < cfg.l() ==> labelled(
            g,
            prefix + ".chunk"@ + crate::text::decimal_chars(c),
            #[trigger] gathered_expr(h, kv, prefix, cfg, c),
        )
}

/// How much of the context every row admits: the soft gate, and nothing where the
/// row's chunk retrieved nothing.
pub open spec fn admission_expr(
    h: super::plan::Expr,
    t: super::plan::Expr,
    mask: super::plan::Expr,
    prefix: Seq<char>,
    cfg: CcaConfig,
    activation: GateActivation,
) -> super::plan::Expr {
    super::plan::product(
        super::gate::gate_expr(
            prefix + ".gate"@,
            cfg.d() as nat,
            activation,
            h,
            t,
            cfg.n() as nat,
        ),
        super::plan::spread(mask, cfg.d() as u32),
    )
}

/// A residual after a block: `h + gate * context`.
pub open spec fn block_expr(
    h: super::plan::Expr,
    t: super::plan::Expr,
    mask: super::plan::Expr,
    kv: super::plan::Expr,
    prefix: Seq<char>,
    cfg: CcaConfig,
    activation: GateActivation,
) -> super::plan::Expr {
    super::plan::sum(
        h,
        super::plan::product(
            admission_expr(h, t, mask, prefix, cfg, activation),
            context_expr(h, kv, prefix, cfg),
        ),
    )
}

/// Whether some node labelled `text` computes `e`.
pub open spec fn labelled(g: Plan, text: Seq<char>, e: super::plan::Expr) -> bool {
    exists|id: NodeId| #[trigger]
        g.holds(id) && g.label(id) == Some(text) && g.expr(id) == e
}

/// One chunked cross-attention block.
#[derive(Clone, Debug)]
pub struct CcaBlock {
    cfg: CcaConfig,
    prefix: String,
    q_norm: NodeId,
    kv_norm: NodeId,
    q_proj: NodeId,
    k_proj: NodeId,
    v_proj: NodeId,
    o_proj: NodeId,
    gate: TimeConditionedGate,
}

impl CcaBlock {
    /// The shapes.
    pub closed spec fn shape(self) -> CcaConfig {
        self.cfg
    }

    /// What the names of the parameters start with.
    pub closed spec fn name(self) -> Seq<char> {
        self.prefix@
    }

    /// The soft gate.
    pub closed spec fn own_gate(self) -> TimeConditionedGate {
        self.gate
    }

    /// The activation of the soft gate.
    pub open spec fn kind(self) -> GateActivation {
        self.own_gate().kind()
    }

    /// Whether `g` holds the parameters of this block.
    pub closed spec fn declared(self, g: Plan) -> bool {
        let d = self.cfg.d() as nat;
        let prefix = self.prefix@;
        &&& self.cfg.wf()
        &&& self.gate.declared(g)
        &&& self.gate.prefix() == prefix + ".gate"@
        &&& self.gate.width() == d
        &&& g.holds(self.q_norm)
        &&& g.holds(self.kv_norm)
        &&& g.holds(self.q_proj)
        &&& g.holds(self.k_proj)
        &&& g.holds(self.v_proj)
        &&& g.holds(self.o_proj)
        &&& g.expr(self.q_norm) == super::plan::parameter_expr(prefix + ".q_norm"@, seq![d])
        &&& g.expr(self.kv_norm) == super::plan::parameter_expr(prefix + ".kv_norm"@, seq![d])
        &&& g.expr(self.q_proj) == super::plan::parameter_expr(prefix + ".q_proj"@, seq![d, d])
        &&& g.expr(self.k_proj) == super::plan::parameter_expr(
            prefix + ".k_proj"@,
            seq![d, kv_width(self.cfg)],
        )
        &&& g.expr(self.v_proj) == super::plan::parameter_expr(
            prefix + ".v_proj"@,
            seq![d, kv_width(self.cfg)],
        )
        &&& g.expr(self.o_proj) == super::plan::parameter_expr(prefix + ".o_proj"@, seq![d, d])
    }

    /// A block that is declared stays declared as the plan grows.
    pub proof fn lemma_stays(self, before: Plan, after: Plan)
        requires
            self.declared(before),
            after.grows(before),
        ensures
            self.declared(after),
    {
        self.gate.lemma_stays(before, after);
    }

    /// The names a declared block owns are those its prefix says, and those
    /// that start at zero are among them.
    pub proof fn lemma_texts(self, g: Plan)
        requires
            self.declared(g),
        ensures
            super::gate::param_texts(block_params(self.name(), self.shape(), self.kind()))
                == own_texts(self.name()) + self.own_gate().names().all_texts(),
            forall|i: int|
                0 <= i < self.own_gate().names().zero_texts().len() ==> super::gate::param_texts(
                    block_params(self.name(), self.shape(), self.kind()),
                ).contains(#[trigger] self.own_gate().names().zero_texts()[i]),
    {
        let gate = self.gate;
        gate.lemma_texts(g);
        let all = super::gate::param_texts(block_params(self.name(), self.shape(), self.kind()));
        let own = own_texts(self.name());
        let gated = gate.names().all_texts();
        assert(all =~= own + gated);
        let zero = gate.names().zero_texts();
        assert forall|i: int| 0 <= i < zero.len() implies all.contains(#[trigger] zero[i]) by {
            assert(gated.contains(zero[i]));
            let j = gated.index_of(zero[i]);
            assert(all[own.len() + j] == zero[i]);
        }
    }

    /// Declare one block's parameters under `prefix`.
    pub fn new(g: &mut Plan, prefix: &str, cfg: CcaConfig, activation: GateActivation) -> (block:
        Self)
        requires
            old(g).wf(),
            cfg.wf(),
            cfg.d() < usize::MAX,
        ensures
            final(g).grows(*old(g)),
            block.declared(*final(g)),
            block.shape() == cfg,
            block.name() == prefix@,
            block.kind() == activation,
            final(g).params() == old(g).params() + block_params(prefix@, cfg, activation),
    {
        let d: usize = cfg.model_dim();
        let kv: usize = cfg.kv_dim();
        let q_norm: NodeId = declare_vector(g, prefix, ".q_norm", d, false);
        let kv_norm: NodeId = declare_vector(g, prefix, ".kv_norm", d, false);
        let q_proj: NodeId = declare_matrix(g, prefix, ".q_proj", d, d, false);
        let k_proj: NodeId = declare_matrix(g, prefix, ".k_proj", d, kv, false);
        let v_proj: NodeId = declare_matrix(g, prefix, ".v_proj", d, kv, false);
        let o_proj: NodeId = declare_matrix(g, prefix, ".o_proj", d, d, false);
        let gate: TimeConditionedGate = TimeConditionedGate::new(
            g,
            joined(prefix, ".gate").as_str(),
            d,
            activation,
        );
        proof {
            assert(g.params() =~= old(g).params() + block_params(prefix@, cfg, activation));
        }
        CcaBlock {
            cfg,
            prefix: String::from_str(prefix),
            q_norm,
            kv_norm,
            q_proj,
            k_proj,
            v_proj,
            o_proj,
            gate,
        }
    }

    /// The soft gate belonging to this block.
    pub fn gate(&self) -> (gate: &TimeConditionedGate)
        ensures
            *gate == self.own_gate(),
    {
        &self.gate
    }

    /// Every parameter name this block owns, gate included.
    pub fn param_names(&self) -> (names: Vec<String>)
        ensures
            super::gate::owned_texts(names@) == own_texts(self.name())
                + self.own_gate().names().all_texts(),
    {
        let mut names: Vec<String> = Vec::new();
        names.push(joined(self.prefix.as_str(), ".q_norm"));
        names.push(joined(self.prefix.as_str(), ".kv_norm"));
        names.push(joined(self.prefix.as_str(), ".q_proj"));
        names.push(joined(self.prefix.as_str(), ".k_proj"));
        names.push(joined(self.prefix.as_str(), ".v_proj"));
        names.push(joined(self.prefix.as_str(), ".o_proj"));
        proof {
            assert(super::gate::owned_texts(names@) =~= own_texts(self.prefix@));
        }
        let gate_params = self.gate.params();
        let more: Vec<&str> = gate_params.names();
        append_names(&mut names, more.as_slice());
        names
    }

    /// Apply the block to a backbone residual `h` of shape `[n, d]`.
    ///
    /// Returns `h + gate * ctx`, which at initialisation is exactly `h`: see
    /// [`crate::model::gate`] for why that requires more than zeroing the last
    /// layer's weights.
    pub fn forward(&self, g: &mut Plan, h: NodeId, inputs: CcaInputs) -> (id: NodeId)
        requires
            old(g).wf(),
            self.declared(*old(g)),
            block_fits(self.shape()),
            old(g).holds(h),
            !old(g).expr(h).is_ids,
            old(g).expr(h).shape == seq![self.shape().n() as nat, self.shape().d() as nat],
            old(g).holds(inputs.t_col),
            !old(g).expr(inputs.t_col).is_ids,
            old(g).expr(inputs.t_col).shape == seq![self.shape().n() as nat, 1nat],
            old(g).holds(inputs.retrieval_mask),
            !old(g).expr(inputs.retrieval_mask).is_ids,
            old(g).expr(inputs.retrieval_mask).shape == seq![self.shape().n() as nat, 1nat],
            old(g).holds(inputs.neighbour_kv),
            !old(g).expr(inputs.neighbour_kv).is_ids,
            old(g).expr(inputs.neighbour_kv).shape == seq![
                (self.shape().l() * self.shape().k() * self.shape().r()) as nat,
                self.shape().d() as nat,
            ],
        ensures
            final(g).grows(*old(g)),
            final(g).holds(id),
            id.0 >= old(g).count(),
            final(g).label(id) == Some(self.name() + ".out"@),
            final(g).expr(id) == block_expr(
                old(g).expr(h),
                old(g).expr(inputs.t_col),
                old(g).expr(inputs.retrieval_mask),
                old(g).expr(inputs.neighbour_kv),
                self.name(),
                self.shape(),
                self.kind(),
            ),
            final(g).expr(id).shape == old(g).expr(h).shape,
            !final(g).expr(id).is_ids,
            labelled(
                *final(g),
                self.name() + ".gate"@,
                admission_expr(
                    old(g).expr(h),
                    old(g).expr(inputs.t_col),
                    old(g).expr(inputs.retrieval_mask),
                    self.name(),
                    self.shape(),
                    self.kind(),
                ),
            ),
            chunks_labelled(
                *final(g),
                old(g).expr(h),
                old(g).expr(inputs.neighbour_kv),
                self.name(),
                self.shape(),
            ),
            final(g).params() == old(g).params(),
    {
        let cfg: CcaConfig = self.cfg;
        proof {
            cfg.lemma_kv_dim();
        }
        let n: usize = cfg.seq_len();
        let d: usize = cfg.model_dim();
        let ghost start = *g;
        let ctx: NodeId = self.context(g, h, inputs);
        let ghost gathered = *g;
        proof {
            self.lemma_stays(start, *g);
        }
        // The soft gate reads the *pre-block* residual, so that what it sees does
        // not depend on the cross-attention output it is deciding how much of
        // to admit.
        let gate: NodeId = self.gate.forward(g, h, inputs.t_col, n);
        // Chunks that retrieved nothing carry a zero-filled key/value block.
        // Attending to padding is not the same as not attending, so the mask
        // forces their contribution to zero.
        let mask: NodeId = g.broadcast_inner(inputs.retrieval_mask, d);
        let gate: NodeId = g.mul(gate, mask);
        // Named so that it can be read back: a gate saturating open at low `t`
        // during training is the leak's signature.
        let gate: NodeId = g.named(gate, joined(self.prefix.as_str(), ".gate"));
        let gated: NodeId = g.mul(gate, ctx);
        let out: NodeId = g.add(h, gated);
        let id: NodeId = g.named(out, joined(self.prefix.as_str(), ".out"));
        proof {
            assert(g.holds(gate));
            lemma_labels_stay(
                gathered,
                *g,
                start.expr(h),
                start.expr(inputs.neighbour_kv),
                self.prefix@,
                cfg,
            );
        }
        id
    }

    /// The retrieved context of every row.
    fn context(&self, g: &mut Plan, h: NodeId, inputs: CcaInputs) -> (id: NodeId)
        requires
            old(g).wf(),
            self.declared(*old(g)),
            block_fits(self.shape()),
            old(g).holds(h),
            !old(g).expr(h).is_ids,
            old(g).expr(h).shape == seq![self.shape().n() as nat, self.shape().d() as nat],
            old(g).holds(inputs.neighbour_kv),
            !old(g).expr(inputs.neighbour_kv).is_ids,
            old(g).expr(inputs.neighbour_kv).shape == seq![
                (self.shape().l() * self.shape().k() * self.shape().r()) as nat,
                self.shape().d() as nat,
            ],
        ensures
            final(g).grows(*old(g)),
            final(g).holds(id),
            id.0 >= old(g).count(),
            final(g).expr(id) == context_expr(
                old(g).expr(h),
                old(g).expr(inputs.neighbour_kv),
                self.name(),
                self.shape(),
            ),
            final(g).expr(id).shape == seq![self.shape().n() as nat, self.shape().d() as nat],
            !final(g).expr(id).is_ids,
            chunks_labelled(
                *final(g),
                old(g).expr(h),
                old(g).expr(inputs.neighbour_kv),
                self.name(),
                self.shape(),
            ),
            final(g).params() == old(g).params(),
    {
        let cfg: CcaConfig = self.cfg;
        proof {
            cfg.lemma_chunks();
            cfg.lemma_kv_dim();
            lemma_block_sizes(cfg);
        }
        let n: usize = cfg.seq_len();
        let m: usize = cfg.chunk_size();
        let l: usize = cfg.num_chunks();
        let d: usize = cfg.model_dim();
        let kv_rows: usize = cfg.neighbour_kv_rows();
        let total_kv: usize = l * kv_rows;
        let kv_wide: usize = cfg.kv_dim();
        let eps: Binary32 = Binary32::from_bits(RMS_EPS);
        // Project the encoded neighbours once for the whole sequence; the
        // per-chunk slicing happens on the result, so `l` chunks share one
        // pair of projections instead of `l`.
        let kv_all: NodeId = g.rms_norm(inputs.neighbour_kv, self.kv_norm, eps);
        let k_all: NodeId = g.matmul(kv_all, self.k_proj);
        let v_all: NodeId = g.matmul(kv_all, self.v_proj);
        let h_norm: NodeId = g.rms_norm(h, self.q_norm, eps);
        let q_all: NodeId = g.matmul(h_norm, self.q_proj);
        let ghost projected = *g;
        let ghost (q_e, k_e, v_e) = (g.expr(q_all), g.expr(k_all), g.expr(v_all));
        assert(q_e == query_expr(old(g).expr(h), self.prefix@, cfg));
        assert(k_e == projected_expr(
            old(g).expr(inputs.neighbour_kv),
            self.prefix@,
            ".k_proj"@,
            cfg,
        ));
        assert(v_e == projected_expr(
            old(g).expr(inputs.neighbour_kv),
            self.prefix@,
            ".v_proj"@,
            cfg,
        ));
        let chunk_label: String = joined(self.prefix.as_str(), ".chunk");
        let mut parts: Vec<(NodeId, usize)> = Vec::new();
        let mut chunk: usize = 0;
        while chunk < l
            invariant
                chunk <= l,
                cfg == self.cfg,
                block_fits(cfg),
                n == cfg.n(),
                m == cfg.m(),
                m > 0,
                l == cfg.l(),
                d == cfg.d(),
                kv_rows == cfg.k() * cfg.r(),
                kv_rows > 0,
                total_kv == l * kv_rows,
                total_kv == cfg.l() * cfg.k() * cfg.r(),
                kv_wide == kv_width(cfg),
                kv_wide <= d,
                l * m == n,
                total_kv <= u32::MAX,
                total_kv * d <= usize::MAX,
                n * d <= usize::MAX,
                cfg.heads() <= u32::MAX,
                cfg.kv_heads() <= u32::MAX,
                cfg.head_width() <= u32::MAX,
                cfg.heads() * cfg.head_width() == d,
                g.grows(projected),
                g.params() == projected.params(),
                projected.holds(q_all),
                projected.holds(k_all),
                projected.holds(v_all),
                !q_e.is_ids,
                !k_e.is_ids,
                !v_e.is_ids,
                projected.expr(q_all) == q_e,
                projected.expr(k_all) == k_e,
                projected.expr(v_all) == v_e,
                q_e.shape == seq![n as nat, d as nat],
                k_e.shape == seq![total_kv as nat, kv_wide as nat],
                v_e.shape == seq![total_kv as nat, kv_wide as nat],
                parts@.len() == chunk,
                forall|c: int|
                    0 <= c < chunk ==> {
                        &&& g.holds((#[trigger] parts@[c]).0)
                        &&& parts@[c].1 == m
                        &&& g.expr(parts@[c].0) == chunk_expr(q_e, k_e, v_e, cfg, c as nat)
                        &&& !g.expr(parts@[c].0).is_ids
                        &&& g.label(parts@[c].0) == Some(
                            chunk_label@ + crate::text::decimal_chars(c as nat),
                        )
                        &&& g.expr(parts@[c].0).shape == seq![m as nat, d as nat]
                    },
            decreases l - chunk,
        {
            proof {
                crate::chunk::lemma_slot_in_range(chunk as int, l as int, m as int);
                crate::chunk::lemma_slot_in_range(chunk as int, l as int, kv_rows as int);
                assert(total_kv * kv_wide <= total_kv * d) by (nonlinear_arith)
                    requires
                        kv_wide <= d,
                ;
            }
            let q: NodeId = slice_rows(g, q_all, n, d, chunk * m, m);
            let k: NodeId = slice_rows(g, k_all, total_kv, kv_wide, chunk * kv_rows, kv_rows);
            let v: NodeId = slice_rows(g, v_all, total_kv, kv_wide, chunk * kv_rows, kv_rows);
            // Queries and keys come from different sequences, and the
            // backward pass needs the cross-attention gradient path.
            let ctx: NodeId = g.multi_head_attn(
                q,
                k,
                v,
                cfg.num_heads() as u32,
                cfg.num_kv_heads() as u32,
                cfg.head_dim() as u32,
                true,
            );
            let label: String = numbered(chunk_label.as_str(), chunk as u64, "");
            proof {
                reveal_strlit("");
                assert(label@ =~= chunk_label@ + crate::text::decimal_chars(chunk as nat));
            }
            let ctx: NodeId = g.named(ctx, label);
            parts.push((ctx, m));
            chunk = chunk + 1;
        }
        proof {
            let exprs = super::rows::part_exprs(*g, parts@);
            lemma_even_rows(exprs, m as nat, l as nat);
            let (he, ke, prefix) = (
                old(g).expr(h),
                old(g).expr(inputs.neighbour_kv),
                self.prefix@,
            );
            assert(exprs =~= Seq::new(
                cfg.l() as nat,
                |c: int| (gathered_expr(he, ke, prefix, cfg, c as nat), cfg.m() as nat),
            ));
        }
        let ghost listed = *g;
        let ctx: NodeId = concat_rows(g, parts.as_slice(), d);
        let id: NodeId = g.matmul(ctx, self.o_proj);
        proof {
            let (he, ke, prefix) = (
                old(g).expr(h),
                old(g).expr(inputs.neighbour_kv),
                self.prefix@,
            );
            assert forall|c: nat| c < cfg.l() implies labelled(
                listed,
                prefix + ".chunk"@ + crate::text::decimal_chars(c),
                #[trigger] gathered_expr(he, ke, prefix, cfg, c),
            ) by {
                assert(listed.holds(parts@[c as int].0));
            }
            lemma_labels_stay(listed, *g, he, ke, prefix, cfg);
        }
        id
    }
}

proof fn lemma_labels_stay(
    before: Plan,
    after: Plan,
    h: super::plan::Expr,
    kv: super::plan::Expr,
    prefix: Seq<char>,
    cfg: CcaConfig,
)
    requires
        chunks_labelled(before, h, kv, prefix, cfg),
        after.grows(before),
    ensures
        chunks_labelled(after, h, kv, prefix, cfg),
{
    assert forall|c: nat| c < cfg.l() implies labelled(
        after,
        prefix + ".chunk"@ + crate::text::decimal_chars(c),
        #[trigger] gathered_expr(h, kv, prefix, cfg, c),
    ) by {
        let text = prefix + ".chunk"@ + crate::text::decimal_chars(c);
        let e = gathered_expr(h, kv, prefix, cfg, c);
        assert(labelled(before, text, e));
        let id = choose|id: NodeId| #[trigger]
            before.holds(id) && before.label(id) == Some(text) && before.expr(id) == e;
        assert(after.holds(id));
    }
}

/// The names a block owns besides its gate's.
pub open spec fn own_texts(prefix: Seq<char>) -> Seq<Seq<char>> {
    seq![
        prefix + ".q_norm"@,
        prefix + ".kv_norm"@,
        prefix + ".q_proj"@,
        prefix + ".k_proj"@,
        prefix + ".v_proj"@,
        prefix + ".o_proj"@,
    ]
}

proof fn lemma_block_sizes(cfg: CcaConfig)
    requires
        block_fits(cfg),
    ensures
        0 < cfg.k() * cfg.r() <= usize::MAX,
        cfg.l() * (cfg.k() * cfg.r()) == cfg.l() * cfg.k() * cfg.r(),
        cfg.n() * cfg.d() <= usize::MAX,
        cfg.heads() <= u32::MAX,
        cfg.kv_heads() <= u32::MAX,
        cfg.head_width() <= u32::MAX,
        cfg.kv_heads() * cfg.head_width() <= u32::MAX,
{
    cfg.lemma_chunks();
    cfg.lemma_kv_dim();
    let (l, k, r, n, d) = (
        cfg.l() as int,
        cfg.k() as int,
        cfg.r() as int,
        cfg.n() as int,
        cfg.d() as int,
    );
    assert(l * (k * r) == l * k * r && 0 < k * r <= l * k * r) by (nonlinear_arith)
        requires
            l > 0,
            k > 0,
            r > 0,
    ;
    assert(n * d <= n * (d + 1)) by (nonlinear_arith)
        requires
            n >= 0,
    ;
    let (h, kv, w) = (cfg.heads() as int, cfg.kv_heads() as int, cfg.head_width() as int);
    assert(h <= h * w && w <= h * w && kv <= kv * w) by (nonlinear_arith)
        requires
            h > 0,
            kv > 0,
            w > 0,
    ;
}

/// Parts of one height stack to that many rows each.
pub proof fn lemma_even_rows(parts: Seq<(super::plan::Expr, nat)>, m: nat, upto: nat)
    requires
        upto <= parts.len(),
        forall|c: int| 0 <= c < parts.len() ==> (#[trigger] parts[c]).1 == m,
    ensures
        super::rows::rows_below(parts, upto) == upto * m,
    decreases upto,
{
    if upto > 0 {
        lemma_even_rows(parts, m, (upto - 1) as nat);
        assert(upto * m == (upto - 1) * m + m) by (nonlinear_arith);
    } else {
        assert(0 * m == 0) by (nonlinear_arith);
    }
}

/// Keys and values are no wider than the residual.
pub proof fn lemma_narrow(cfg: CcaConfig)
    requires
        cfg.wf(),
    ensures
        kv_width(cfg) <= cfg.d(),
{
    let (heads, kv_heads, w) = (cfg.heads() as int, cfg.kv_heads() as int, cfg.head_width() as int);
    vstd::arithmetic::div_mod::lemma_fundamental_div_mod(heads, kv_heads);
    let ratio = heads / kv_heads;
    assert(kv_heads <= heads) by (nonlinear_arith)
        requires
            heads == kv_heads * ratio,
            heads > 0,
            kv_heads > 0,
    ;
    assert(kv_heads * w <= heads * w) by (nonlinear_arith)
        requires
            kv_heads <= heads,
            w > 0,
    ;
}

/// Attention is block-diagonal: row `i` of chunk `chunk` gathers from that
/// chunk's attention alone, whose queries are the chunk's own rows and whose
/// keys and values are the rows of the chunk's own neighbours.
pub proof fn law_a_chunk_attends_to_its_own_neighbours(
    h: super::plan::Expr,
    kv: super::plan::Expr,
    prefix: Seq<char>,
    cfg: CcaConfig,
    chunk: nat,
    i: int,
    j: int,
    row: int,
    column: int,
)
    requires
        block_fits(cfg),
        chunk < cfg.l(),
        0 <= i < cfg.m(),
        0 <= j < cfg.d(),
        0 <= row < cfg.k() * cfg.r(),
        0 <= column < kv_width(cfg),
    ensures
        super::rows::origin(
            context_expr(h, kv, prefix, cfg).args[0],
            (chunk * cfg.m() + i) * cfg.d() + j,
        ) == (gathered_expr(h, kv, prefix, cfg, chunk), i * cfg.d() + j),
        super::rows::origin(
            gathered_expr(h, kv, prefix, cfg, chunk).args[0],
            i * cfg.d() + j,
        ) == super::rows::origin(
            query_expr(h, prefix, cfg),
            (chunk * cfg.m() + i) * cfg.d() + j,
        ),
        super::rows::origin(
            gathered_expr(h, kv, prefix, cfg, chunk).args[1],
            row * kv_width(cfg) + column,
        ) == super::rows::origin(
            projected_expr(kv, prefix, ".k_proj"@, cfg),
            (chunk * (cfg.k() * cfg.r()) + row) * kv_width(cfg) + column,
        ),
        super::rows::origin(
            gathered_expr(h, kv, prefix, cfg, chunk).args[2],
            row * kv_width(cfg) + column,
        ) == super::rows::origin(
            projected_expr(kv, prefix, ".v_proj"@, cfg),
            (chunk * (cfg.k() * cfg.r()) + row) * kv_width(cfg) + column,
        ),
{
    cfg.lemma_chunks();
    let (l, m, n, d) = (cfg.l() as nat, cfg.m() as nat, cfg.n() as nat, cfg.d() as nat);
    let rows = (cfg.k() * cfg.r()) as nat;
    let total = (cfg.l() * cfg.k() * cfg.r()) as nat;
    let wide = kv_width(cfg);
    let gathered = gathered_expr(h, kv, prefix, cfg, chunk);
    let parts = Seq::new(l, |c: int| (gathered_expr(h, kv, prefix, cfg, c as nat), m));
    lemma_even_rows(parts, m, chunk);
    lemma_even_rows(parts, m, l);
    super::rows::law_stack_keeps_parts(parts, d, chunk as int, i, j);
    assert(context_expr(h, kv, prefix, cfg).args[0] == super::rows::stacked(parts, d));
    assert(chunk * m + m <= l * m) by (nonlinear_arith)
        requires
            chunk < l,
    ;
    let (k, r) = (cfg.k() as int, cfg.r() as int);
    assert(chunk * rows + rows <= total) by (nonlinear_arith)
        requires
            chunk < l,
            rows == k * r,
            total == l * k * r,
    ;
    lemma_narrow(cfg);
    super::rows::law_slice_takes_rows(query_expr(h, prefix, cfg), n, d, chunk * m, m, i, j);
    super::rows::law_slice_takes_rows(
        projected_expr(kv, prefix, ".k_proj"@, cfg),
        total,
        wide,
        chunk * rows,
        rows,
        row,
        column,
    );
    super::rows::law_slice_takes_rows(
        projected_expr(kv, prefix, ".v_proj"@, cfg),
        total,
        wide,
        chunk * rows,
        rows,
        row,
        column,
    );
    assert(super::rows::origin(gathered, i * d + j) == (gathered, i * d + j));
}

/// Marks the frozen backbone's boundary with the trained retrieval path.
///
/// A parameter is frozen by routing it through `stop_gradient`: compilation
/// then sees no gradient path to it and the optimiser never meets it. This
/// helper exists so that the retrofit's central claim, *only the encoder, the
/// CCA blocks, and the gates train*, is one call rather than a convention.
pub fn frozen_parameter(g: &mut Plan, name: &str, shape: &[usize]) -> (id: NodeId)
    requires
        old(g).wf(),
    ensures
        final(g).grows(*old(g)),
        final(g).holds(id),
        final(g).expr(id) == super::transformer::leaf(name@, super::plan::dims(shape@), true),
        final(g).params() == old(g).params().push((name@, super::plan::dims(shape@))),
{
    let p: NodeId = g.parameter(name, shape);
    g.stop_gradient(p)
}

} // verus!
