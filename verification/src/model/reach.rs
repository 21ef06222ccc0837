//! What gradients reach: every parameter that is meant to train does.
use super::plan::{Expr, Op};
use super::ModelConfig;
use vstd::prelude::*;

verus! {

/// A gradient path to an operand is a path through the operator.
pub(crate) proof fn lemma_up(op: Op, shape: Seq<nat>, args: Seq<Expr>, i: int, name: Seq<char>)
    requires
        !(op is StopGradient),
        !(op is Parameter),
        0 <= i < args.len(),
        super::plan::trains(args[i], name),
    ensures
        super::plan::trains(super::plan::apply(op, shape, args), name),
{
    let e = super::plan::apply(op, shape, args);
    assert(super::plan::trains(e.args[i], name));
}

proof fn lemma_up_sliced(
    x: Expr,
    rows: nat,
    d: nat,
    start: nat,
    count: nat,
    name: Seq<char>,
)
    requires
        super::plan::trains(x, name),
    ensures
        super::plan::trains(super::rows::sliced(x, rows, d, start, count), name),
{
    if !(start == 0 && count == rows) {
        let flat = super::plan::reshaped(x, seq![rows * d]);
        lemma_up(Op::Reshape, seq![rows * d], seq![x], 0, name);
        let tail = if start > 0 {
            super::plan::last_channels(flat, 1, start as u32, (rows - start) as u32, d as u32)
        } else {
            flat
        };
        if start > 0 {
            lemma_up(tail.op, tail.shape, seq![flat], 0, name);
        }
        let kept = if count < rows - start {
            super::plan::first_channels(
                tail,
                1,
                count as u32,
                (rows - start - count) as u32,
                d as u32,
            )
        } else {
            tail
        };
        if count < rows - start {
            lemma_up(kept.op, kept.shape, seq![tail], 0, name);
        }
        lemma_up(Op::Reshape, seq![count, d], seq![kept], 0, name);
    }
}

proof fn lemma_up_stacked_flat(parts: Seq<(Expr, nat)>, d: nat, upto: nat, name: Seq<char>)
    requires
        0 < upto <= parts.len(),
        super::plan::trains(parts[0].0, name),
    ensures
        super::plan::trains(super::rows::stacked_flat(parts, d, upto), name),
    decreases upto,
{
    let last = parts[upto - 1];
    let flat = super::plan::reshaped(last.0, seq![last.1 * d]);
    if upto == 1 {
        lemma_up(Op::Reshape, seq![last.1 * d], seq![last.0], 0, name);
    } else {
        let before = super::rows::stacked_flat(parts, d, (upto - 1) as nat);
        lemma_up_stacked_flat(parts, d, (upto - 1) as nat, name);
        let all = super::rows::stacked_flat(parts, d, upto);
        lemma_up(all.op, all.shape, seq![before, flat], 0, name);
    }
}

proof fn lemma_up_stacked(parts: Seq<(Expr, nat)>, d: nat, name: Seq<char>)
    requires
        0 < parts.len(),
        super::plan::trains(parts[0].0, name),
    ensures
        super::plan::trains(super::rows::stacked(parts, d), name),
{
    if parts.len() == 1 {
        lemma_up(Op::Reshape, seq![parts[0].1, d], seq![parts[0].0], 0, name);
    } else {
        lemma_up_stacked_flat(parts, d, parts.len(), name);
        lemma_up(
            Op::Reshape,
            seq![super::rows::rows_below(parts, parts.len()), d],
            seq![super::rows::stacked_flat(parts, d, parts.len())],
            0,
            name,
        );
    }
}

pub(crate) proof fn lemma_up_matmul(a: Expr, b: Expr, name: Seq<char>)
    requires
        super::plan::trains(a, name) || super::plan::trains(b, name),
    ensures
        super::plan::trains(super::plan::matmul(a, b), name),
{
    let shape = seq![a.shape[0], b.shape[1]];
    if super::plan::trains(a, name) {
        lemma_up(Op::MatMul, shape, seq![a, b], 0, name);
    } else {
        lemma_up(Op::MatMul, shape, seq![a, b], 1, name);
    }
}

/// A path from the first operand of a layer's sums is a path from the layer.
pub(crate) proof fn lemma_up_layer(
    x: Expr,
    prefix: Seq<char>,
    shape: super::transformer::LayerShape,
    eps: crate::binary32::Binary32,
    rope: Option<crate::binary32::Binary32>,
    frozen: bool,
    name: Seq<char>,
)
    requires
        super::plan::trains(x, name),
    ensures
        super::plan::trains(
            super::transformer::layer_expr(x, prefix, shape, eps, rope, frozen),
            name,
        ),
{
    let y = super::transformer::attention_expr(x, prefix, shape, eps, rope, frozen);
    assert(y.args[0] == x);
    lemma_up(y.op, y.shape, y.args, 0, name);
    let z = super::transformer::feed_forward_expr(y, prefix, shape, eps, frozen);
    assert(z.args[0] == y);
    lemma_up(z.op, z.shape, z.args, 0, name);
}

proof fn lemma_up_residual(cfg: ModelConfig, from: nat, upto: nat, name: Seq<char>)
    requires
        from <= upto,
        super::plan::trains(super::residual_expr(cfg, from), name),
    ensures
        super::plan::trains(super::residual_expr(cfg, upto), name),
    decreases upto,
{
    if from < upto {
        let layer = (upto - 1) as nat;
        lemma_up_residual(cfg, from, layer, name);
        let x = super::backbone::backbone_layer_expr(
            super::residual_expr(cfg, layer),
            "backbone"@,
            cfg.backbone,
            true,
            layer,
        );
        lemma_up_layer(
            super::residual_expr(cfg, layer),
            super::backbone::layer_prefix("backbone"@, layer),
            cfg.backbone.layer_shape(),
            cfg.backbone.rms_norm_eps,
            Some(cfg.backbone.rope_theta),
            true,
            name,
        );
        if cfg.cca.follows(layer) {
            lemma_up_past_block(
                x,
                super::t_expr(cfg),
                super::mask_expr(cfg),
                super::kv_expr(cfg),
                super::block_prefix(layer),
                cfg.cca,
                cfg.activation,
                name,
            );
        }
    }
}

proof fn lemma_up_past_block(
    h: Expr,
    t: Expr,
    mask: Expr,
    kv: Expr,
    prefix: Seq<char>,
    cfg: crate::config::CcaConfig,
    activation: super::gate::GateActivation,
    name: Seq<char>,
)
    requires
        super::plan::trains(h, name),
    ensures
        super::plan::trains(
            super::cca::block_expr(h, t, mask, kv, prefix, cfg, activation),
            name,
        ),
{
    let e = super::cca::block_expr(h, t, mask, kv, prefix, cfg, activation);
    lemma_up(Op::Add, h.shape, e.args, 0, name);
}

proof fn lemma_up_logits(cfg: ModelConfig, name: Seq<char>)
    requires
        super::plan::trains(
            super::residual_expr(cfg, cfg.backbone.num_layers as nat),
            name,
        ),
    ensures
        super::plan::trains(super::logits_expr(cfg), name),
{
    let x = super::residual_expr(cfg, cfg.backbone.num_layers as nat);
    let e = super::logits_expr(cfg);
    let y = e.args[0];
    assert(y.args[0] == x);
    lemma_up(y.op, y.shape, y.args, 0, name);
    lemma_up(e.op, e.shape, e.args, 0, name);
}

/// What a block gathers reaches its own projections, and the neighbours.
proof fn lemma_up_context(
    h: Expr,
    kv: Expr,
    prefix: Seq<char>,
    cfg: crate::config::CcaConfig,
    name: Seq<char>,
)
    requires
        cfg.wf(),
        super::cca::own_texts(prefix).contains(name) || super::plan::trains(kv, name),
    ensures
        super::plan::trains(super::cca::context_expr(h, kv, prefix, cfg), name),
{
    cfg.lemma_chunks();
    let d = cfg.d() as nat;
    let wide = super::cca::kv_width(cfg);
    let eps = crate::binary32::Binary32 { bits: super::cca::RMS_EPS };
    let qn = super::plan::parameter_expr(prefix + ".q_norm"@, seq![d]);
    let kn = super::plan::parameter_expr(prefix + ".kv_norm"@, seq![d]);
    let wq = super::plan::parameter_expr(prefix + ".q_proj"@, seq![d, d]);
    let wk = super::plan::parameter_expr(prefix + ".k_proj"@, seq![d, wide]);
    let wv = super::plan::parameter_expr(prefix + ".v_proj"@, seq![d, wide]);
    let wo = super::plan::parameter_expr(prefix + ".o_proj"@, seq![d, d]);
    let hn = super::plan::normed(h, qn, eps);
    let kvn = super::plan::normed(kv, kn, eps);
    let q = super::plan::matmul(hn, wq);
    let k = super::plan::matmul(kvn, wk);
    let v = super::plan::matmul(kvn, wv);
    assert(q == super::cca::query_expr(h, prefix, cfg));
    assert(k == super::cca::projected_expr(kv, prefix, ".k_proj"@, cfg));
    assert(v == super::cca::projected_expr(kv, prefix, ".v_proj"@, cfg));
    let parts = Seq::new(
        cfg.l() as nat,
        |c: int| (super::cca::gathered_expr(h, kv, prefix, cfg, c as nat), cfg.m() as nat),
    );
    let all = super::rows::stacked(parts, d);
    if super::plan::trains(wo, name) {
        lemma_up_matmul(all, wo, name);
    } else {
        if super::plan::trains(qn, name) {
            lemma_up(Op::RmsNorm { eps }, h.shape, seq![h, qn], 1, name);
        } else if super::plan::trains(kn, name) {
            lemma_up(Op::RmsNorm { eps }, kv.shape, seq![kv, kn], 1, name);
        } else if super::plan::trains(kv, name) {
            lemma_up(Op::RmsNorm { eps }, kv.shape, seq![kv, kn], 0, name);
        }
        if super::plan::trains(hn, name) || super::plan::trains(wq, name) {
            lemma_up_matmul(hn, wq, name);
        } else if super::plan::trains(kvn, name) || super::plan::trains(wk, name) {
            lemma_up_matmul(kvn, wk, name);
        } else {
            let own = super::cca::own_texts(prefix);
            let j = own.index_of(name);
            assert(own[j] == name);
            assert(super::plan::trains(wv, name));
            lemma_up_matmul(kvn, wv, name);
        }
        lemma_up_chunk(q, k, v, cfg, 0, name);
        assert(parts[0].0 == super::cca::gathered_expr(h, kv, prefix, cfg, 0));
        lemma_up_stacked(parts, d, name);
        lemma_up_matmul(all, wo, name);
    }
}

proof fn lemma_up_chunk(
    q: Expr,
    k: Expr,
    v: Expr,
    cfg: crate::config::CcaConfig,
    chunk: nat,
    name: Seq<char>,
)
    requires
        super::plan::trains(q, name) || super::plan::trains(k, name) || super::plan::trains(
            v,
            name,
        ),
    ensures
        super::plan::trains(super::cca::chunk_expr(q, k, v, cfg, chunk), name),
{
    let rows = (cfg.k() * cfg.r()) as nat;
    let total = (cfg.l() * cfg.k() * cfg.r()) as nat;
    let wide = super::cca::kv_width(cfg);
    let (n, d, m) = (cfg.n() as nat, cfg.d() as nat, cfg.m() as nat);
    let qs = super::rows::sliced(q, n, d, chunk * m, m);
    let ks = super::rows::sliced(k, total, wide, chunk * rows, rows);
    let vs = super::rows::sliced(v, total, wide, chunk * rows, rows);
    let e = super::cca::chunk_expr(q, k, v, cfg, chunk);
    if super::plan::trains(q, name) {
        lemma_up_sliced(q, n, d, chunk * m, m, name);
        lemma_up(e.op, e.shape, seq![qs, ks, vs], 0, name);
    } else if super::plan::trains(k, name) {
        lemma_up_sliced(k, total, wide, chunk * rows, rows, name);
        lemma_up(e.op, e.shape, seq![qs, ks, vs], 1, name);
    } else {
        lemma_up_sliced(v, total, wide, chunk * rows, rows, name);
        lemma_up(e.op, e.shape, seq![qs, ks, vs], 2, name);
    }
}

/// A gate reaches its own parameters.
proof fn lemma_up_gate(
    prefix: Seq<char>,
    d: nat,
    activation: super::gate::GateActivation,
    h: Expr,
    t: Expr,
    rows: nat,
    j: int,
)
    requires
        0 <= j < super::gate::gate_params(prefix, d, activation).len(),
    ensures
        super::plan::trains(
            super::gate::gate_expr(prefix, d, activation, h, t, rows),
            super::gate::gate_params(prefix, d, activation)[j].0,
        ),
{
    let name = super::gate::gate_params(prefix, d, activation)[j].0;
    let w1 = super::plan::parameter_expr(prefix + ".w1"@, seq![d + 1, d]);
    let b1 = super::plan::parameter_expr(prefix + ".b1"@, seq![d]);
    let w2 = super::plan::parameter_expr(prefix + ".w2"@, seq![d, 1nat]);
    let b2 = super::plan::parameter_expr(prefix + ".b2"@, seq![1nat]);
    let conditioned = super::rows::widened(h, t, rows, d);
    let product = super::plan::matmul(conditioned, w1);
    let sum = super::plan::biased(product, b1);
    let hidden = super::plan::unary(Op::Silu, sum);
    let second = super::plan::matmul(hidden, w2);
    let pre = super::plan::biased(second, b2);
    if j == 0 {
        lemma_up_matmul(conditioned, w1, name);
        lemma_up(Op::BiasAdd, product.shape, seq![product, b1], 0, name);
    } else if j == 1 {
        lemma_up(Op::BiasAdd, product.shape, seq![product, b1], 1, name);
    }
    if j <= 1 {
        lemma_up(Op::Silu, sum.shape, seq![sum], 0, name);
    }
    if j <= 2 {
        assert(j == 2 ==> super::plan::trains(w2, name));
        lemma_up_matmul(hidden, w2, name);
        lemma_up(Op::BiasAdd, second.shape, seq![second, b2], 0, name);
    } else if j == 3 {
        lemma_up(Op::BiasAdd, second.shape, seq![second, b2], 1, name);
    }
    let scalar = match activation {
        super::gate::GateActivation::Tanh => {
            lemma_up(Op::Tanh, pre.shape, seq![pre], 0, name);
            super::plan::unary(Op::Tanh, pre)
        },
        super::gate::GateActivation::ScaledSigmoid => {
            let squashed = super::plan::unary(Op::Sigmoid, pre);
            let column = super::plan::constant_expr(super::gate::ones(rows), seq![rows, 1nat]);
            let alpha = super::plan::parameter_expr(prefix + ".alpha"@, seq![1nat, 1nat]);
            let scaled = super::plan::matmul(column, alpha);
            if j <= 3 {
                lemma_up(Op::Sigmoid, pre.shape, seq![pre], 0, name);
                lemma_up(Op::Mul, squashed.shape, seq![squashed, scaled], 0, name);
            } else {
                assert(super::plan::trains(alpha, name));
                lemma_up_matmul(column, alpha, name);
                lemma_up(Op::Mul, squashed.shape, seq![squashed, scaled], 1, name);
            }
            super::plan::product(squashed, scaled)
        },
    };
    lemma_up(
        Op::BroadcastInner { inner: d as u32 },
        seq![scalar.shape[0], d as u32 as nat],
        seq![scalar],
        0,
        name,
    );
}

/// A block reaches what its gate and its context reach.
proof fn lemma_up_block(
    h: Expr,
    t: Expr,
    mask: Expr,
    kv: Expr,
    prefix: Seq<char>,
    cfg: crate::config::CcaConfig,
    activation: super::gate::GateActivation,
    name: Seq<char>,
)
    requires
        super::plan::trains(
            super::gate::gate_expr(
                prefix + ".gate"@,
                cfg.d() as nat,
                activation,
                h,
                t,
                cfg.n() as nat,
            ),
            name,
        ) || super::plan::trains(super::cca::context_expr(h, kv, prefix, cfg), name),
    ensures
        super::plan::trains(
            super::cca::block_expr(h, t, mask, kv, prefix, cfg, activation),
            name,
        ),
{
    let ctx = super::cca::context_expr(h, kv, prefix, cfg);
    let gate = super::gate::gate_expr(
        prefix + ".gate"@,
        cfg.d() as nat,
        activation,
        h,
        t,
        cfg.n() as nat,
    );
    let wide = super::plan::spread(mask, cfg.d() as u32);
    let admission = super::plan::product(gate, wide);
    let added = super::plan::product(admission, ctx);
    if super::plan::trains(gate, name) {
        lemma_up(Op::Mul, gate.shape, seq![gate, wide], 0, name);
        lemma_up(Op::Mul, admission.shape, seq![admission, ctx], 0, name);
    } else {
        lemma_up(Op::Mul, admission.shape, seq![admission, ctx], 1, name);
    }
    lemma_up(Op::Add, h.shape, seq![h, added], 1, name);
}

proof fn lemma_up_from_block(cfg: ModelConfig, layer: nat, name: Seq<char>)
    requires
        layer < cfg.backbone.num_layers,
        cfg.cca.follows(layer),
        super::plan::trains(super::residual_expr(cfg, (layer + 1) as nat), name),
    ensures
        super::plan::trains(super::logits_expr(cfg), name),
{
    lemma_up_residual(cfg, (layer + 1) as nat, cfg.backbone.num_layers as nat, name);
    lemma_up_logits(cfg, name);
}

/// Every parameter of every block and of its gate trains: it has a gradient
/// path from the logits.
pub proof fn law_every_block_parameter_trains(cfg: ModelConfig, layer: nat, j: int)
    requires
        cfg.fault() is None,
        layer < cfg.backbone.num_layers,
        cfg.cca.follows(layer),
        0 <= j < super::cca::block_params(
            super::block_prefix(layer),
            cfg.cca,
            cfg.activation,
        ).len(),
    ensures
        super::plan::trains(
            super::logits_expr(cfg),
            super::cca::block_params(super::block_prefix(layer), cfg.cca, cfg.activation)[j].0,
        ),
{
    let prefix = super::block_prefix(layer);
    let own = super::cca::block_params(prefix, cfg.cca, cfg.activation);
    let name = own[j].0;
    let x = super::backbone::backbone_layer_expr(
        super::residual_expr(cfg, layer),
        "backbone"@,
        cfg.backbone,
        true,
        layer,
    );
    lemma_block_reaches(
        x,
        super::t_expr(cfg),
        super::mask_expr(cfg),
        super::kv_expr(cfg),
        prefix,
        cfg.cca,
        cfg.activation,
        j,
    );
    lemma_up_from_block(cfg, layer, name);
}

/// A block reaches its own parameters and its gate's.
proof fn lemma_block_reaches(
    x: Expr,
    t: Expr,
    mask: Expr,
    kv: Expr,
    prefix: Seq<char>,
    cfg: crate::config::CcaConfig,
    activation: super::gate::GateActivation,
    j: int,
)
    requires
        cfg.wf(),
        0 <= j < super::cca::block_params(prefix, cfg, activation).len(),
    ensures
        super::plan::trains(
            super::cca::block_expr(x, t, mask, kv, prefix, cfg, activation),
            super::cca::block_params(prefix, cfg, activation)[j].0,
        ),
{
    let own = super::cca::block_params(prefix, cfg, activation);
    let name = own[j].0;
    let d = cfg.d() as nat;
    if j < 6 {
        assert(super::cca::own_texts(prefix)[j] == name);
        assert(super::cca::own_texts(prefix).contains(name));
        lemma_up_context(x, kv, prefix, cfg, name);
    } else {
        let gated = super::gate::gate_params(prefix + ".gate"@, d, activation);
        assert(own[j] == gated[j - 6]);
        lemma_up_gate(prefix + ".gate"@, d, activation, x, t, cfg.n() as nat, j - 6);
    }
    lemma_up_block(x, t, mask, kv, prefix, cfg, activation, name);
}

/// The attention half of a layer that trains reaches its own parameters.
proof fn lemma_attention_reaches(
    x: Expr,
    prefix: Seq<char>,
    shape: super::transformer::LayerShape,
    eps: crate::binary32::Binary32,
    rope: Option<crate::binary32::Binary32>,
    j: int,
)
    requires
        0 <= j < 5,
    ensures
        super::plan::trains(
            super::transformer::attention_expr(x, prefix, shape, eps, rope, false),
            super::transformer::layer_params(prefix, shape)[j].0,
        ),
{
    let own = super::transformer::layer_params(prefix, shape);
    let name = own[j].0;
    let norm = super::plan::parameter_expr(own[0].0, own[0].1);
    let wq = super::plan::parameter_expr(own[1].0, own[1].1);
    let wk = super::plan::parameter_expr(own[2].0, own[2].1);
    let wv = super::plan::parameter_expr(own[3].0, own[3].1);
    let wo = super::plan::parameter_expr(own[4].0, own[4].1);
    let h = super::plan::normed(x, norm, eps);
    if j == 0 {
        assert(super::plan::trains(norm, name));
        lemma_up(Op::RmsNorm { eps }, x.shape, seq![x, norm], 1, name);
    }
    let q = super::plan::matmul(h, wq);
    let k = super::plan::matmul(h, wk);
    let v = super::plan::matmul(h, wv);
    let tq = super::transformer::turned(q, rope, shape.head_dim);
    let tk = super::transformer::turned(k, rope, shape.head_dim);
    let attn = super::plan::attended(
        tq,
        tk,
        v,
        shape.num_heads,
        shape.num_kv_heads,
        shape.head_dim,
        false,
    );
    if j <= 1 {
        assert(j == 1 ==> super::plan::trains(wq, name));
        lemma_up_matmul(h, wq, name);
        if rope is Some {
            lemma_up(tq.op, tq.shape, seq![q], 0, name);
        }
        lemma_up(attn.op, attn.shape, seq![tq, tk, v], 0, name);
    } else if j == 2 {
        assert(super::plan::trains(wk, name));
        lemma_up_matmul(h, wk, name);
        if rope is Some {
            lemma_up(tk.op, tk.shape, seq![k], 0, name);
        }
        lemma_up(attn.op, attn.shape, seq![tq, tk, v], 1, name);
    } else if j == 3 {
        assert(super::plan::trains(wv, name));
        lemma_up_matmul(h, wv, name);
        lemma_up(attn.op, attn.shape, seq![tq, tk, v], 2, name);
    }
    assert(j == 4 ==> super::plan::trains(wo, name));
    lemma_up_matmul(attn, wo, name);
    let out = super::plan::matmul(attn, wo);
    lemma_up(Op::Add, x.shape, seq![x, out], 1, name);
}

/// The feed-forward half of a layer that trains reaches its own parameters.
proof fn lemma_feed_forward_reaches(
    x: Expr,
    prefix: Seq<char>,
    shape: super::transformer::LayerShape,
    eps: crate::binary32::Binary32,
    j: int,
)
    requires
        5 <= j < 9,
    ensures
        super::plan::trains(
            super::transformer::feed_forward_expr(x, prefix, shape, eps, false),
            super::transformer::layer_params(prefix, shape)[j].0,
        ),
{
    let own = super::transformer::layer_params(prefix, shape);
    let name = own[j].0;
    let norm = super::plan::parameter_expr(own[5].0, own[5].1);
    let wg = super::plan::parameter_expr(own[6].0, own[6].1);
    let wu = super::plan::parameter_expr(own[7].0, own[7].1);
    let wd = super::plan::parameter_expr(own[8].0, own[8].1);
    let h = super::plan::normed(x, norm, eps);
    if j == 5 {
        assert(super::plan::trains(norm, name));
        lemma_up(Op::RmsNorm { eps }, x.shape, seq![x, norm], 1, name);
    }
    let gate = super::plan::matmul(h, wg);
    let up = super::plan::matmul(h, wu);
    let both = super::plan::swiglu(gate, up);
    if j <= 6 {
        assert(j == 6 ==> super::plan::trains(wg, name));
        lemma_up_matmul(h, wg, name);
        lemma_up(Op::SwiGlu, gate.shape, seq![gate, up], 0, name);
    } else if j == 7 {
        assert(super::plan::trains(wu, name));
        lemma_up_matmul(h, wu, name);
        lemma_up(Op::SwiGlu, gate.shape, seq![gate, up], 1, name);
    }
    assert(j == 8 ==> super::plan::trains(wd, name));
    lemma_up_matmul(both, wd, name);
    let out = super::plan::matmul(both, wd);
    lemma_up(Op::Add, x.shape, seq![x, out], 1, name);
}

/// A layer that trains reaches its own parameters.
pub(crate) proof fn lemma_layer_reaches(
    x: Expr,
    prefix: Seq<char>,
    shape: super::transformer::LayerShape,
    eps: crate::binary32::Binary32,
    rope: Option<crate::binary32::Binary32>,
    j: int,
)
    requires
        0 <= j < super::transformer::layer_params(prefix, shape).len(),
    ensures
        super::plan::trains(
            super::transformer::layer_expr(x, prefix, shape, eps, rope, false),
            super::transformer::layer_params(prefix, shape)[j].0,
        ),
{
    let name = super::transformer::layer_params(prefix, shape)[j].0;
    let y = super::transformer::attention_expr(x, prefix, shape, eps, rope, false);
    if j < 5 {
        lemma_attention_reaches(x, prefix, shape, eps, rope, j);
        let z = super::transformer::feed_forward_expr(y, prefix, shape, eps, false);
        assert(z.args[0] == y);
        lemma_up(z.op, z.shape, z.args, 0, name);
    } else {
        lemma_feed_forward_reaches(y, prefix, shape, eps, j);
    }
}

/// A parameter of the first `upto` layers belongs to one of them.
pub(crate) proof fn lemma_layer_of(
    prefix: Seq<char>,
    shape: super::transformer::LayerShape,
    upto: nat,
    j: int,
) -> (at: (nat, int))
    requires
        0 <= j < super::backbone::layers_params(prefix, shape, upto).len(),
    ensures
        at.0 < upto,
        0 <= at.1 < 9,
        super::backbone::layers_params(prefix, shape, upto)[j]
            == super::transformer::layer_params(
            super::backbone::layer_prefix(prefix, at.0),
            shape,
        )[at.1],
    decreases upto,
{
    let rest = super::backbone::layers_params(prefix, shape, (upto - 1) as nat);
    if j < rest.len() {
        lemma_layer_of(prefix, shape, (upto - 1) as nat, j)
    } else {
        ((upto - 1) as nat, j - rest.len())
    }
}

/// What the first `from` layers of an encoder reach, all of them reach.
proof fn lemma_up_encoder_layers(
    x: Expr,
    prefix: Seq<char>,
    cfg: super::encoder::NeighbourEncoderConfig,
    from: nat,
    upto: nat,
    name: Seq<char>,
)
    requires
        from <= upto,
        super::plan::trains(
            super::encoder::encoder_layers_expr(x, prefix, cfg, from),
            name,
        ),
    ensures
        super::plan::trains(
            super::encoder::encoder_layers_expr(x, prefix, cfg, upto),
            name,
        ),
    decreases upto,
{
    if from < upto {
        let i = (upto - 1) as nat;
        lemma_up_encoder_layers(x, prefix, cfg, from, i, name);
        lemma_up_layer(
            super::encoder::encoder_layers_expr(x, prefix, cfg, i),
            super::backbone::layer_prefix(prefix, i),
            cfg.layer_shape(),
            crate::binary32::Binary32 { bits: super::encoder::RMS_EPS },
            None,
            false,
            name,
        );
    }
}

/// An encoder over embedded tokens reaches its own parameters.
proof fn lemma_encoder_reaches(
    x: Expr,
    prefix: Seq<char>,
    cfg: super::encoder::NeighbourEncoderConfig,
    j: int,
)
    requires
        super::plan::trains(x, prefix + ".embed"@),
        0 <= j < super::encoder::encoder_params(prefix, cfg).len(),
    ensures
        super::plan::trains(
            super::encoder::encoder_expr(x, prefix, cfg),
            super::encoder::encoder_params(prefix, cfg)[j].0,
        ),
{
    let shape = cfg.layer_shape();
    let depth = cfg.num_layers as nat;
    let eps = crate::binary32::Binary32 { bits: super::encoder::RMS_EPS };
    let middle = super::backbone::layers_params(prefix, shape, depth);
    let name = super::encoder::encoder_params(prefix, cfg)[j].0;
    let y = super::encoder::encoder_layers_expr(x, prefix, cfg, depth);
    let norm = super::plan::parameter_expr(prefix + ".out_norm"@, seq![shape.d()]);
    if j <= middle.len() {
        if j == 0 {
            lemma_up_encoder_layers(x, prefix, cfg, 0, depth, name);
        } else {
            let (i, k) = lemma_layer_of(prefix, shape, depth, j - 1);
            lemma_layer_reaches(
                super::encoder::encoder_layers_expr(x, prefix, cfg, i),
                super::backbone::layer_prefix(prefix, i),
                shape,
                eps,
                None,
                k,
            );
            lemma_up_encoder_layers(x, prefix, cfg, i + 1, depth, name);
        }
        lemma_up(Op::RmsNorm { eps }, y.shape, seq![y, norm], 0, name);
    } else {
        assert(super::plan::trains(norm, name));
        lemma_up(Op::RmsNorm { eps }, y.shape, seq![y, norm], 1, name);
    }
}

/// Neighbours that are encoded here reach every parameter of the encoder.
proof fn lemma_kv_reaches(cfg: ModelConfig, j: int)
    requires
        cfg.fault() is None,
        cfg.neighbours is Encoded,
        0 <= j < super::own_encoder_params(cfg).len(),
    ensures
        super::plan::trains(super::kv_expr(cfg), super::own_encoder_params(cfg)[j].0),
{
    let prefix = "neighbour_encoder"@;
    let d = cfg.cca.d() as nat;
    let embedded = super::neighbours_embedded(cfg);
    let embed = prefix + ".embed"@;
    assert(super::plan::trains(embedded.args[1], embed));
    lemma_up(embedded.op, embedded.shape, embedded.args, 1, embed);
    super::lemma_groups(cfg);
    let rows = cfg.group_rows();
    let start = 0nat * rows;
    lemma_up_sliced(embedded, cfg.kv_rows(), d, start, rows, embed);
    lemma_encoder_reaches(
        super::rows::sliced(embedded, cfg.kv_rows(), d, start, rows),
        prefix,
        cfg.encoder,
        j,
    );
    let parts = Seq::new(
        cfg.kv_rows() / rows,
        |group: int| (super::group_expr(cfg, group as nat), rows),
    );
    assert(parts[0].0 == super::group_expr(cfg, 0));
    lemma_up_stacked(parts, d, super::own_encoder_params(cfg)[j].0);
}

/// Where the model encodes its neighbours and has a block to read them, every
/// parameter of the encoder trains: it has a gradient path from the logits.
pub proof fn law_every_encoder_parameter_trains(cfg: ModelConfig, layer: nat, j: int)
    requires
        cfg.fault() is None,
        cfg.neighbours is Encoded,
        layer < cfg.backbone.num_layers,
        cfg.cca.follows(layer),
        0 <= j < super::own_encoder_params(cfg).len(),
    ensures
        super::plan::trains(super::logits_expr(cfg), super::own_encoder_params(cfg)[j].0),
{
    let prefix = super::block_prefix(layer);
    let name = super::own_encoder_params(cfg)[j].0;
    let x = super::backbone::backbone_layer_expr(
        super::residual_expr(cfg, layer),
        "backbone"@,
        cfg.backbone,
        true,
        layer,
    );
    lemma_kv_reaches(cfg, j);
    lemma_up_context(x, super::kv_expr(cfg), prefix, cfg.cca, name);
    lemma_up_block(
        x,
        super::t_expr(cfg),
        super::mask_expr(cfg),
        super::kv_expr(cfg),
        prefix,
        cfg.cca,
        cfg.activation,
        name,
    );
    lemma_up_from_block(cfg, layer, name);
}

} // verus!
