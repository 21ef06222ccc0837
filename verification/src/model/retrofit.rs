//! What a retrofit trains: the neighbour encoder, the CCA blocks and the
//! gates, and nothing of the backbone.
use super::plan::{Expr, Op};
use super::ModelConfig;
use vstd::prelude::*;

verus! {

/// Whether a parameter called `name` is among `params`.
pub open spec fn listed(params: Seq<(Seq<char>, Seq<nat>)>, name: Seq<char>) -> bool {
    exists|i: int| 0 <= i < params.len() && (#[trigger] params[i]).0 == name
}

/// Whether the gradients of `e` reach parameters among `params` only.
pub open spec fn reaches_only(e: Expr, params: Seq<(Seq<char>, Seq<nat>)>) -> bool {
    forall|name: Seq<char>| #[trigger] super::plan::trains(e, name) ==> listed(params, name)
}

proof fn lemma_listed_first(
    a: Seq<(Seq<char>, Seq<nat>)>,
    b: Seq<(Seq<char>, Seq<nat>)>,
    name: Seq<char>,
)
    requires
        listed(a, name),
    ensures
        listed(a + b, name),
{
    let i = choose|i: int| 0 <= i < a.len() && (#[trigger] a[i]).0 == name;
    assert((a + b)[i].0 == name);
}

proof fn lemma_listed_second(
    a: Seq<(Seq<char>, Seq<nat>)>,
    b: Seq<(Seq<char>, Seq<nat>)>,
    name: Seq<char>,
)
    requires
        listed(b, name),
    ensures
        listed(a + b, name),
{
    let i = choose|i: int| 0 <= i < b.len() && (#[trigger] b[i]).0 == name;
    assert((a + b)[a.len() + i].0 == name);
}

proof fn lemma_one(op: Op, shape: Seq<nat>, a: Expr, params: Seq<(Seq<char>, Seq<nat>)>)
    requires
        !(op is Parameter),
        reaches_only(a, params),
    ensures
        reaches_only(super::plan::apply(op, shape, seq![a]), params),
{
    let e = super::plan::apply(op, shape, seq![a]);
    assert forall|name: Seq<char>| #[trigger] super::plan::trains(e, name) implies listed(
        params,
        name,
    ) by {
        assert(e.args[0] == a);
        assert(super::plan::trains(e.args[0], name));
    }
}

proof fn lemma_two(op: Op, shape: Seq<nat>, a: Expr, b: Expr, params: Seq<(Seq<char>, Seq<nat>)>)
    requires
        !(op is Parameter),
        reaches_only(a, params),
        reaches_only(b, params),
    ensures
        reaches_only(super::plan::apply(op, shape, seq![a, b]), params),
{
    let e = super::plan::apply(op, shape, seq![a, b]);
    assert forall|name: Seq<char>| #[trigger] super::plan::trains(e, name) implies listed(
        params,
        name,
    ) by {
        assert(e.args[0] == a && e.args[1] == b);
        assert(super::plan::trains(e.args[0], name) || super::plan::trains(e.args[1], name));
    }
}

proof fn lemma_three(
    op: Op,
    shape: Seq<nat>,
    a: Expr,
    b: Expr,
    c: Expr,
    params: Seq<(Seq<char>, Seq<nat>)>,
)
    requires
        !(op is Parameter),
        reaches_only(a, params),
        reaches_only(b, params),
        reaches_only(c, params),
    ensures
        reaches_only(super::plan::apply(op, shape, seq![a, b, c]), params),
{
    let e = super::plan::apply(op, shape, seq![a, b, c]);
    assert forall|name: Seq<char>| #[trigger] super::plan::trains(e, name) implies listed(
        params,
        name,
    ) by {
        assert(e.args[0] == a && e.args[1] == b && e.args[2] == c);
        assert(super::plan::trains(e.args[0], name) || super::plan::trains(e.args[1], name)
            || super::plan::trains(e.args[2], name));
    }
}

proof fn lemma_matmul(a: Expr, b: Expr, params: Seq<(Seq<char>, Seq<nat>)>)
    requires
        reaches_only(a, params),
        reaches_only(b, params),
    ensures
        reaches_only(super::plan::matmul(a, b), params),
{
    lemma_two(Op::MatMul, seq![a.shape[0], b.shape[1]], a, b, params);
}

proof fn lemma_leaf(
    name: Seq<char>,
    shape: Seq<nat>,
    frozen: bool,
    params: Seq<(Seq<char>, Seq<nat>)>,
)
    requires
        frozen || listed(params, name),
    ensures
        reaches_only(super::transformer::leaf(name, shape, frozen), params),
{
}

proof fn lemma_input(
    name: Seq<char>,
    shape: Seq<nat>,
    is_ids: bool,
    params: Seq<(Seq<char>, Seq<nat>)>,
)
    ensures
        reaches_only(super::plan::input_expr(name, shape, is_ids), params),
{
    let e = super::plan::input_expr(name, shape, is_ids);
    assert(e.args.len() == 0);
}

proof fn lemma_sliced(
    x: Expr,
    rows: nat,
    d: nat,
    start: nat,
    count: nat,
    params: Seq<(Seq<char>, Seq<nat>)>,
)
    requires
        reaches_only(x, params),
    ensures
        reaches_only(super::rows::sliced(x, rows, d, start, count), params),
{
    if !(start == 0 && count == rows) {
        let flat = super::plan::reshaped(x, seq![rows * d]);
        lemma_one(Op::Reshape, seq![rows * d], x, params);
        let tail = if start > 0 {
            super::plan::last_channels(flat, 1, start as u32, (rows - start) as u32, d as u32)
        } else {
            flat
        };
        if start > 0 {
            lemma_one(tail.op, tail.shape, flat, params);
        }
        let kept = if count < rows - start {
            super::plan::first_channels(
                tail,
                1,
                count as u32,
                (rows - start - count) as u32,
                d as u32,
            )
        } else {
            tail
        };
        if count < rows - start {
            lemma_one(kept.op, kept.shape, tail, params);
        }
        lemma_one(Op::Reshape, seq![count, d], kept, params);
    }
}

proof fn lemma_stacked_flat(
    parts: Seq<(Expr, nat)>,
    d: nat,
    upto: nat,
    params: Seq<(Seq<char>, Seq<nat>)>,
)
    requires
        0 < upto <= parts.len(),
        forall|k: int| 0 <= k < parts.len() ==> reaches_only((#[trigger] parts[k]).0, params),
    ensures
        reaches_only(super::rows::stacked_flat(parts, d, upto), params),
    decreases upto,
{
    let last = parts[upto - 1];
    let flat = super::plan::reshaped(last.0, seq![last.1 * d]);
    lemma_one(Op::Reshape, seq![last.1 * d], last.0, params);
    if upto > 1 {
        lemma_stacked_flat(parts, d, (upto - 1) as nat, params);
        let all = super::rows::stacked_flat(parts, d, upto);
        lemma_two(
            all.op,
            all.shape,
            super::rows::stacked_flat(parts, d, (upto - 1) as nat),
            flat,
            params,
        );
    }
}

proof fn lemma_stacked(parts: Seq<(Expr, nat)>, d: nat, params: Seq<(Seq<char>, Seq<nat>)>)
    requires
        parts.len() > 0,
        forall|k: int| 0 <= k < parts.len() ==> reaches_only((#[trigger] parts[k]).0, params),
    ensures
        reaches_only(super::rows::stacked(parts, d), params),
{
    if parts.len() == 1 {
        lemma_one(Op::Reshape, seq![parts[0].1, d], parts[0].0, params);
    } else {
        lemma_stacked_flat(parts, d, parts.len(), params);
        lemma_one(
            Op::Reshape,
            seq![super::rows::rows_below(parts, parts.len()), d],
            super::rows::stacked_flat(parts, d, parts.len()),
            params,
        );
    }
}

proof fn lemma_attention(
    x: Expr,
    prefix: Seq<char>,
    shape: super::transformer::LayerShape,
    eps: crate::binary32::Binary32,
    rope: Option<crate::binary32::Binary32>,
    frozen: bool,
    params: Seq<(Seq<char>, Seq<nat>)>,
)
    requires
        reaches_only(x, params),
        frozen || forall|j: int|
            0 <= j < 9 ==> listed(
                params,
                (#[trigger] super::transformer::layer_params(prefix, shape)[j]).0,
            ),
    ensures
        reaches_only(
            super::transformer::attention_expr(x, prefix, shape, eps, rope, frozen),
            params,
        ),
{
    let own = super::transformer::layer_params(prefix, shape);
    if !frozen {
        assert(listed(params, own[0].0));
        assert(listed(params, own[1].0));
        assert(listed(params, own[2].0));
        assert(listed(params, own[3].0));
        assert(listed(params, own[4].0));
    }
    let norm = super::transformer::leaf(prefix + ".attn_norm"@, seq![shape.d()], frozen);
    let wq = super::transformer::leaf(prefix + ".q_proj"@, seq![shape.d(), shape.d()], frozen);
    let wk = super::transformer::leaf(prefix + ".k_proj"@, seq![shape.d(), shape.kv()], frozen);
    let wv = super::transformer::leaf(prefix + ".v_proj"@, seq![shape.d(), shape.kv()], frozen);
    let wo = super::transformer::leaf(prefix + ".o_proj"@, seq![shape.d(), shape.d()], frozen);
    lemma_leaf(prefix + ".attn_norm"@, seq![shape.d()], frozen, params);
    lemma_leaf(prefix + ".q_proj"@, seq![shape.d(), shape.d()], frozen, params);
    lemma_leaf(prefix + ".k_proj"@, seq![shape.d(), shape.kv()], frozen, params);
    lemma_leaf(prefix + ".v_proj"@, seq![shape.d(), shape.kv()], frozen, params);
    lemma_leaf(prefix + ".o_proj"@, seq![shape.d(), shape.d()], frozen, params);
    let h = super::plan::normed(x, norm, eps);
    lemma_two(Op::RmsNorm { eps }, x.shape, x, norm, params);
    let q = super::plan::matmul(h, wq);
    let k = super::plan::matmul(h, wk);
    let v = super::plan::matmul(h, wv);
    lemma_matmul(h, wq, params);
    lemma_matmul(h, wk, params);
    lemma_matmul(h, wv, params);
    let tq = super::transformer::turned(q, rope, shape.head_dim);
    let tk = super::transformer::turned(k, rope, shape.head_dim);
    if rope is Some {
        lemma_one(tq.op, tq.shape, q, params);
        lemma_one(tk.op, tk.shape, k, params);
    }
    let attn = super::plan::attended(
        tq,
        tk,
        v,
        shape.num_heads,
        shape.num_kv_heads,
        shape.head_dim,
        false,
    );
    lemma_three(attn.op, attn.shape, tq, tk, v, params);
    let out = super::plan::matmul(attn, wo);
    lemma_matmul(attn, wo, params);
    lemma_two(Op::Add, x.shape, x, out, params);
}

proof fn lemma_feed_forward(
    x: Expr,
    prefix: Seq<char>,
    shape: super::transformer::LayerShape,
    eps: crate::binary32::Binary32,
    frozen: bool,
    params: Seq<(Seq<char>, Seq<nat>)>,
)
    requires
        reaches_only(x, params),
        frozen || forall|j: int|
            0 <= j < 9 ==> listed(
                params,
                (#[trigger] super::transformer::layer_params(prefix, shape)[j]).0,
            ),
    ensures
        reaches_only(
            super::transformer::feed_forward_expr(x, prefix, shape, eps, frozen),
            params,
        ),
{
    let own = super::transformer::layer_params(prefix, shape);
    if !frozen {
        assert(listed(params, own[5].0));
        assert(listed(params, own[6].0));
        assert(listed(params, own[7].0));
        assert(listed(params, own[8].0));
    }
    let norm = super::transformer::leaf(prefix + ".ffn_norm"@, seq![shape.d()], frozen);
    let wg = super::transformer::leaf(
        prefix + ".gate_proj"@,
        seq![shape.d(), shape.inner()],
        frozen,
    );
    let wu = super::transformer::leaf(prefix + ".up_proj"@, seq![shape.d(), shape.inner()], frozen);
    let wd = super::transformer::leaf(
        prefix + ".down_proj"@,
        seq![shape.inner(), shape.d()],
        frozen,
    );
    lemma_leaf(prefix + ".ffn_norm"@, seq![shape.d()], frozen, params);
    lemma_leaf(prefix + ".gate_proj"@, seq![shape.d(), shape.inner()], frozen, params);
    lemma_leaf(prefix + ".up_proj"@, seq![shape.d(), shape.inner()], frozen, params);
    lemma_leaf(prefix + ".down_proj"@, seq![shape.inner(), shape.d()], frozen, params);
    let h = super::plan::normed(x, norm, eps);
    lemma_two(Op::RmsNorm { eps }, x.shape, x, norm, params);
    let gate = super::plan::matmul(h, wg);
    let up = super::plan::matmul(h, wu);
    lemma_matmul(h, wg, params);
    lemma_matmul(h, wu, params);
    let ffn = super::plan::swiglu(gate, up);
    lemma_two(Op::SwiGlu, gate.shape, gate, up, params);
    let out = super::plan::matmul(ffn, wd);
    lemma_matmul(ffn, wd, params);
    lemma_two(Op::Add, x.shape, x, out, params);
}

proof fn lemma_layer(
    x: Expr,
    prefix: Seq<char>,
    shape: super::transformer::LayerShape,
    eps: crate::binary32::Binary32,
    rope: Option<crate::binary32::Binary32>,
    frozen: bool,
    params: Seq<(Seq<char>, Seq<nat>)>,
)
    requires
        reaches_only(x, params),
        frozen || forall|j: int|
            0 <= j < 9 ==> listed(
                params,
                (#[trigger] super::transformer::layer_params(prefix, shape)[j]).0,
            ),
    ensures
        reaches_only(
            super::transformer::layer_expr(x, prefix, shape, eps, rope, frozen),
            params,
        ),
{
    lemma_attention(x, prefix, shape, eps, rope, frozen, params);
    lemma_feed_forward(
        super::transformer::attention_expr(x, prefix, shape, eps, rope, frozen),
        prefix,
        shape,
        eps,
        frozen,
        params,
    );
}

proof fn lemma_layers_listed(
    prefix: Seq<char>,
    shape: super::transformer::LayerShape,
    upto: nat,
    i: nat,
    j: int,
)
    requires
        i < upto,
        0 <= j < 9,
    ensures
        listed(
            super::backbone::layers_params(prefix, shape, upto),
            super::transformer::layer_params(
                super::backbone::layer_prefix(prefix, i),
                shape,
            )[j].0,
        ),
    decreases upto,
{
    let rest = super::backbone::layers_params(prefix, shape, (upto - 1) as nat);
    let last = super::transformer::layer_params(
        super::backbone::layer_prefix(prefix, (upto - 1) as nat),
        shape,
    );
    if i == upto - 1 {
        assert(listed(last, last[j].0));
        lemma_listed_second(rest, last, last[j].0);
    } else {
        lemma_layers_listed(prefix, shape, (upto - 1) as nat, i, j);
        lemma_listed_first(
            rest,
            last,
            super::transformer::layer_params(
                super::backbone::layer_prefix(prefix, i),
                shape,
            )[j].0,
        );
    }
}

proof fn lemma_encoder_listed(
    prefix: Seq<char>,
    cfg: super::encoder::NeighbourEncoderConfig,
    i: nat,
    j: int,
)
    requires
        i < cfg.num_layers,
        0 <= j < 9,
    ensures
        listed(
            super::encoder::encoder_params(prefix, cfg),
            super::transformer::layer_params(
                super::backbone::layer_prefix(prefix, i),
                cfg.layer_shape(),
            )[j].0,
        ),
{
    let name = super::transformer::layer_params(
        super::backbone::layer_prefix(prefix, i),
        cfg.layer_shape(),
    )[j].0;
    let d = cfg.layer_shape().d();
    let first = seq![(prefix + ".embed"@, seq![cfg.vocab_size as nat, d])];
    let middle = super::backbone::layers_params(prefix, cfg.layer_shape(), cfg.num_layers as nat);
    let last = seq![(prefix + ".out_norm"@, seq![d])];
    lemma_layers_listed(prefix, cfg.layer_shape(), cfg.num_layers as nat, i, j);
    lemma_listed_second(first, middle, name);
    lemma_listed_first(first + middle, last, name);
}

proof fn lemma_encoder_layers(
    x: Expr,
    prefix: Seq<char>,
    cfg: super::encoder::NeighbourEncoderConfig,
    upto: nat,
    params: Seq<(Seq<char>, Seq<nat>)>,
)
    requires
        reaches_only(x, params),
        upto <= cfg.num_layers,
        forall|name: Seq<char>| #[trigger]
            listed(super::encoder::encoder_params(prefix, cfg), name) ==> listed(params, name),
    ensures
        reaches_only(super::encoder::encoder_layers_expr(x, prefix, cfg, upto), params),
    decreases upto,
{
    if upto > 0 {
        let i = (upto - 1) as nat;
        lemma_encoder_layers(x, prefix, cfg, i, params);
        let own = super::transformer::layer_params(
            super::backbone::layer_prefix(prefix, i),
            cfg.layer_shape(),
        );
        assert forall|j: int| 0 <= j < 9 implies listed(params, (#[trigger] own[j]).0) by {
            lemma_encoder_listed(prefix, cfg, i, j);
        }
        lemma_layer(
            super::encoder::encoder_layers_expr(x, prefix, cfg, i),
            super::backbone::layer_prefix(prefix, i),
            cfg.layer_shape(),
            (crate::binary32::Binary32 { bits: super::encoder::RMS_EPS }),
            None,
            false,
            params,
        );
    }
}

proof fn lemma_encoder(
    x: Expr,
    prefix: Seq<char>,
    cfg: super::encoder::NeighbourEncoderConfig,
    params: Seq<(Seq<char>, Seq<nat>)>,
)
    requires
        reaches_only(x, params),
        forall|name: Seq<char>| #[trigger]
            listed(super::encoder::encoder_params(prefix, cfg), name) ==> listed(params, name),
    ensures
        reaches_only(super::encoder::encoder_expr(x, prefix, cfg), params),
{
    let own = super::encoder::encoder_params(prefix, cfg);
    lemma_encoder_layers(x, prefix, cfg, cfg.num_layers as nat, params);
    assert(own.last().0 == prefix + ".out_norm"@);
    assert(own[own.len() - 1].0 == prefix + ".out_norm"@);
    assert(listed(own, prefix + ".out_norm"@));
    let d = cfg.layer_shape().d();
    lemma_leaf(prefix + ".out_norm"@, seq![d], false, params);
    let y = super::encoder::encoder_layers_expr(x, prefix, cfg, cfg.num_layers as nat);
    let eps = crate::binary32::Binary32 { bits: super::encoder::RMS_EPS };
    lemma_two(
        Op::RmsNorm { eps },
        y.shape,
        y,
        super::transformer::leaf(prefix + ".out_norm"@, seq![d], false),
        params,
    );
}

proof fn lemma_gate(
    prefix: Seq<char>,
    d: nat,
    activation: super::gate::GateActivation,
    h: Expr,
    t: Expr,
    rows: nat,
    params: Seq<(Seq<char>, Seq<nat>)>,
)
    requires
        reaches_only(h, params),
        reaches_only(t, params),
        forall|j: int|
            0 <= j < super::gate::gate_params(prefix, d, activation).len() ==> listed(
                params,
                (#[trigger] super::gate::gate_params(prefix, d, activation)[j]).0,
            ),
    ensures
        reaches_only(super::gate::gate_expr(prefix, d, activation, h, t, rows), params),
{
    let own = super::gate::gate_params(prefix, d, activation);
    assert(listed(params, own[0].0));
    assert(listed(params, own[1].0));
    assert(listed(params, own[2].0));
    assert(listed(params, own[3].0));
    let w1 = super::plan::parameter_expr(prefix + ".w1"@, seq![d + 1, d]);
    let b1 = super::plan::parameter_expr(prefix + ".b1"@, seq![d]);
    let w2 = super::plan::parameter_expr(prefix + ".w2"@, seq![d, 1nat]);
    let b2 = super::plan::parameter_expr(prefix + ".b2"@, seq![1nat]);
    lemma_leaf(prefix + ".w1"@, seq![d + 1, d], false, params);
    lemma_leaf(prefix + ".b1"@, seq![d], false, params);
    lemma_leaf(prefix + ".w2"@, seq![d, 1nat], false, params);
    lemma_leaf(prefix + ".b2"@, seq![1nat], false, params);
    let x_flat = super::plan::reshaped(h, seq![rows * d]);
    let t_flat = super::plan::reshaped(t, seq![rows]);
    let both = super::plan::joined(x_flat, t_flat, rows as u32, d as u32, 1, 1);
    lemma_one(Op::Reshape, seq![rows * d], h, params);
    lemma_one(Op::Reshape, seq![rows], t, params);
    lemma_two(both.op, both.shape, x_flat, t_flat, params);
    lemma_one(Op::Reshape, seq![rows, d + 1], both, params);
    let conditioned = super::rows::widened(h, t, rows, d);
    let product = super::plan::matmul(conditioned, w1);
    lemma_matmul(conditioned, w1, params);
    let sum = super::plan::biased(product, b1);
    lemma_two(Op::BiasAdd, product.shape, product, b1, params);
    let hidden = super::plan::unary(Op::Silu, sum);
    lemma_one(Op::Silu, sum.shape, sum, params);
    let second = super::plan::matmul(hidden, w2);
    lemma_matmul(hidden, w2, params);
    let pre = super::plan::biased(second, b2);
    lemma_two(Op::BiasAdd, second.shape, second, b2, params);
    let scalar = match activation {
        super::gate::GateActivation::Tanh => {
            lemma_one(Op::Tanh, pre.shape, pre, params);
            super::plan::unary(Op::Tanh, pre)
        },
        super::gate::GateActivation::ScaledSigmoid => {
            assert(listed(params, own[4].0));
            let squashed = super::plan::unary(Op::Sigmoid, pre);
            lemma_one(Op::Sigmoid, pre.shape, pre, params);
            let column = super::plan::constant_expr(super::gate::ones(rows), seq![rows, 1nat]);
            assert(column.args.len() == 0);
            let alpha = super::plan::parameter_expr(prefix + ".alpha"@, seq![1nat, 1nat]);
            lemma_leaf(prefix + ".alpha"@, seq![1nat, 1nat], false, params);
            let scaled = super::plan::matmul(column, alpha);
            lemma_matmul(column, alpha, params);
            lemma_two(Op::Mul, squashed.shape, squashed, scaled, params);
            super::plan::product(squashed, scaled)
        },
    };
    lemma_one(
        Op::BroadcastInner { inner: d as u32 },
        seq![scalar.shape[0], d as u32 as nat],
        scalar,
        params,
    );
}

proof fn lemma_context(
    h: Expr,
    kv: Expr,
    prefix: Seq<char>,
    cfg: crate::config::CcaConfig,
    activation: super::gate::GateActivation,
    params: Seq<(Seq<char>, Seq<nat>)>,
)
    requires
        cfg.wf(),
        reaches_only(h, params),
        reaches_only(kv, params),
        forall|j: int|
            0 <= j < super::cca::block_params(prefix, cfg, activation).len() ==> listed(
                params,
                (#[trigger] super::cca::block_params(prefix, cfg, activation)[j]).0,
            ),
    ensures
        reaches_only(super::cca::context_expr(h, kv, prefix, cfg), params),
{
    cfg.lemma_chunks();
    let own = super::cca::block_params(prefix, cfg, activation);
    assert(listed(params, own[0].0));
    assert(listed(params, own[1].0));
    assert(listed(params, own[2].0));
    assert(listed(params, own[3].0));
    assert(listed(params, own[4].0));
    assert(listed(params, own[5].0));
    let d = cfg.d() as nat;
    let wide = super::cca::kv_width(cfg);
    let eps = crate::binary32::Binary32 { bits: super::cca::RMS_EPS };
    let qn = super::plan::parameter_expr(prefix + ".q_norm"@, seq![d]);
    let kn = super::plan::parameter_expr(prefix + ".kv_norm"@, seq![d]);
    let wq = super::plan::parameter_expr(prefix + ".q_proj"@, seq![d, d]);
    let wk = super::plan::parameter_expr(prefix + ".k_proj"@, seq![d, wide]);
    let wv = super::plan::parameter_expr(prefix + ".v_proj"@, seq![d, wide]);
    let wo = super::plan::parameter_expr(prefix + ".o_proj"@, seq![d, d]);
    lemma_leaf(prefix + ".q_norm"@, seq![d], false, params);
    lemma_leaf(prefix + ".kv_norm"@, seq![d], false, params);
    lemma_leaf(prefix + ".q_proj"@, seq![d, d], false, params);
    lemma_leaf(prefix + ".k_proj"@, seq![d, wide], false, params);
    lemma_leaf(prefix + ".v_proj"@, seq![d, wide], false, params);
    lemma_leaf(prefix + ".o_proj"@, seq![d, d], false, params);
    let hn = super::plan::normed(h, qn, eps);
    let kvn = super::plan::normed(kv, kn, eps);
    lemma_two(Op::RmsNorm { eps }, h.shape, h, qn, params);
    lemma_two(Op::RmsNorm { eps }, kv.shape, kv, kn, params);
    let q = super::plan::matmul(hn, wq);
    let k = super::plan::matmul(kvn, wk);
    let v = super::plan::matmul(kvn, wv);
    lemma_matmul(hn, wq, params);
    lemma_matmul(kvn, wk, params);
    lemma_matmul(kvn, wv, params);
    assert(q == super::cca::query_expr(h, prefix, cfg));
    assert(k == super::cca::projected_expr(kv, prefix, ".k_proj"@, cfg));
    assert(v == super::cca::projected_expr(kv, prefix, ".v_proj"@, cfg));
    let parts = Seq::new(
        cfg.l() as nat,
        |c: int| (super::cca::gathered_expr(h, kv, prefix, cfg, c as nat), cfg.m() as nat),
    );
    assert forall|c: int| 0 <= c < parts.len() implies reaches_only(
        (#[trigger] parts[c]).0,
        params,
    ) by {
        lemma_chunk(q, k, v, cfg, c as nat, params);
    }
    lemma_stacked(parts, d, params);
    lemma_matmul(super::rows::stacked(parts, d), wo, params);
}

proof fn lemma_chunk(
    q: Expr,
    k: Expr,
    v: Expr,
    cfg: crate::config::CcaConfig,
    chunk: nat,
    params: Seq<(Seq<char>, Seq<nat>)>,
)
    requires
        reaches_only(q, params),
        reaches_only(k, params),
        reaches_only(v, params),
    ensures
        reaches_only(super::cca::chunk_expr(q, k, v, cfg, chunk), params),
{
    let rows = (cfg.k() * cfg.r()) as nat;
    let total = (cfg.l() * cfg.k() * cfg.r()) as nat;
    let wide = super::cca::kv_width(cfg);
    let (n, d, m) = (cfg.n() as nat, cfg.d() as nat, cfg.m() as nat);
    lemma_sliced(q, n, d, chunk * m, m, params);
    lemma_sliced(k, total, wide, chunk * rows, rows, params);
    lemma_sliced(v, total, wide, chunk * rows, rows, params);
    let e = super::cca::chunk_expr(q, k, v, cfg, chunk);
    lemma_three(
        e.op,
        e.shape,
        super::rows::sliced(q, n, d, chunk * m, m),
        super::rows::sliced(k, total, wide, chunk * rows, rows),
        super::rows::sliced(v, total, wide, chunk * rows, rows),
        params,
    );
}

proof fn lemma_block(
    h: Expr,
    t: Expr,
    mask: Expr,
    kv: Expr,
    prefix: Seq<char>,
    cfg: crate::config::CcaConfig,
    activation: super::gate::GateActivation,
    params: Seq<(Seq<char>, Seq<nat>)>,
)
    requires
        cfg.wf(),
        reaches_only(h, params),
        reaches_only(t, params),
        reaches_only(mask, params),
        reaches_only(kv, params),
        forall|j: int|
            0 <= j < super::cca::block_params(prefix, cfg, activation).len() ==> listed(
                params,
                (#[trigger] super::cca::block_params(prefix, cfg, activation)[j]).0,
            ),
    ensures
        reaches_only(super::cca::block_expr(h, t, mask, kv, prefix, cfg, activation), params),
{
    let own = super::cca::block_params(prefix, cfg, activation);
    let gated = super::gate::gate_params(prefix + ".gate"@, cfg.d() as nat, activation);
    assert forall|j: int| 0 <= j < gated.len() implies listed(params, (#[trigger] gated[j]).0) by {
        assert(own[6 + j] == gated[j]);
    }
    lemma_context(h, kv, prefix, cfg, activation, params);
    let ctx = super::cca::context_expr(h, kv, prefix, cfg);
    let gate = super::gate::gate_expr(
        prefix + ".gate"@,
        cfg.d() as nat,
        activation,
        h,
        t,
        cfg.n() as nat,
    );
    lemma_gate(prefix + ".gate"@, cfg.d() as nat, activation, h, t, cfg.n() as nat, params);
    let wide = super::plan::spread(mask, cfg.d() as u32);
    lemma_one(wide.op, wide.shape, mask, params);
    let admission = super::plan::product(gate, wide);
    lemma_two(Op::Mul, gate.shape, gate, wide, params);
    let added = super::plan::product(admission, ctx);
    lemma_two(Op::Mul, admission.shape, admission, ctx, params);
    lemma_two(Op::Add, h.shape, h, added, params);
}

proof fn lemma_blocks_listed(cfg: ModelConfig, upto: nat, layer: nat, j: int)
    requires
        layer < upto,
        cfg.cca.follows(layer),
        0 <= j < super::cca::block_params(
            super::block_prefix(layer),
            cfg.cca,
            cfg.activation,
        ).len(),
    ensures
        listed(
            super::blocks_params(cfg, upto),
            super::cca::block_params(super::block_prefix(layer), cfg.cca, cfg.activation)[j].0,
        ),
    decreases upto,
{
    let own = super::cca::block_params(super::block_prefix(layer), cfg.cca, cfg.activation);
    let rest = super::blocks_params(cfg, (upto - 1) as nat);
    if layer == upto - 1 {
        assert(listed(own, own[j].0));
        lemma_listed_second(rest, own, own[j].0);
    } else {
        lemma_blocks_listed(cfg, (upto - 1) as nat, layer, j);
        if cfg.cca.follows((upto - 1) as nat) {
            lemma_listed_first(
                rest,
                super::cca::block_params(
                    super::block_prefix((upto - 1) as nat),
                    cfg.cca,
                    cfg.activation,
                ),
                own[j].0,
            );
        }
    }
}

proof fn lemma_kv(cfg: ModelConfig)
    requires
        cfg.fault() is None,
    ensures
        reaches_only(super::kv_expr(cfg), super::trained_params(cfg)),
{
    let params = super::trained_params(cfg);
    let d = cfg.cca.d() as nat;
    match cfg.neighbours {
        super::NeighbourInput::Encoded => {
            let prefix = "neighbour_encoder"@;
            let own = super::encoder::encoder_params(prefix, cfg.encoder);
            assert forall|name: Seq<char>| #[trigger] listed(own, name) implies listed(
                params,
                name,
            ) by {
                lemma_listed_first(
                    own,
                    super::blocks_params(cfg, cfg.backbone.num_layers as nat),
                    name,
                );
            }
            let ids = super::plan::input_expr(
                "cca.neighbour_tokens"@,
                seq![cfg.kv_rows()],
                true,
            );
            lemma_input("cca.neighbour_tokens"@, seq![cfg.kv_rows()], true, params);
            let vocab = seq![cfg.encoder.vocab_size as nat, cfg.encoder.layer_shape().d()];
            let table = super::transformer::leaf(prefix + ".embed"@, vocab, false);
            assert(own[0].0 == prefix + ".embed"@);
            assert(listed(own, prefix + ".embed"@));
            lemma_leaf(prefix + ".embed"@, vocab, false, params);
            let embedded = super::neighbours_embedded(cfg);
            lemma_two(Op::Embedding, embedded.shape, ids, table, params);
            super::lemma_groups(cfg);
            let parts = Seq::new(
                cfg.kv_rows() / cfg.group_rows(),
                |group: int| (super::group_expr(cfg, group as nat), cfg.group_rows()),
            );
            assert forall|c: int| 0 <= c < parts.len() implies reaches_only(
                (#[trigger] parts[c]).0,
                params,
            ) by {
                let start = c as nat * cfg.group_rows();
                lemma_sliced(embedded, cfg.kv_rows(), d, start, cfg.group_rows(), params);
                lemma_encoder(
                    super::rows::sliced(embedded, cfg.kv_rows(), d, start, cfg.group_rows()),
                    prefix,
                    cfg.encoder,
                    params,
                );
            }
            lemma_stacked(parts, d, params);
        },
        super::NeighbourInput::Cached => {
            lemma_input(
                super::cca::input_names::NEIGHBOUR_KV@,
                seq![cfg.kv_rows(), d],
                false,
                params,
            );
        },
    }
}

proof fn lemma_residual(cfg: ModelConfig, upto: nat)
    requires
        cfg.fault() is None,
        upto <= cfg.backbone.num_layers,
    ensures
        reaches_only(super::residual_expr(cfg, upto), super::trained_params(cfg)),
    decreases upto,
{
    let params = super::trained_params(cfg);
    if upto == 0 {
        let ids = super::plan::input_expr("token_ids"@, seq![cfg.cca.n() as nat], true);
        lemma_input("token_ids"@, seq![cfg.cca.n() as nat], true, params);
        let vocab = seq![cfg.backbone.vocab_size as nat, cfg.backbone.layer_shape().d()];
        let table = super::transformer::leaf("backbone"@ + ".embed"@, vocab, true);
        lemma_leaf("backbone"@ + ".embed"@, vocab, true, params);
        let e = super::residual_expr(cfg, 0);
        lemma_two(Op::Embedding, e.shape, ids, table, params);
    } else {
        let layer = (upto - 1) as nat;
        lemma_residual(cfg, layer);
        let below = super::residual_expr(cfg, layer);
        lemma_layer(
            below,
            super::backbone::layer_prefix("backbone"@, layer),
            cfg.backbone.layer_shape(),
            cfg.backbone.rms_norm_eps,
            Some(cfg.backbone.rope_theta),
            true,
            params,
        );
        if cfg.cca.follows(layer) {
            let x = super::backbone::backbone_layer_expr(
                below,
                "backbone"@,
                cfg.backbone,
                true,
                layer,
            );
            let prefix = super::block_prefix(layer);
            let own = super::cca::block_params(prefix, cfg.cca, cfg.activation);
            assert forall|j: int| 0 <= j < own.len() implies listed(
                params,
                (#[trigger] own[j]).0,
            ) by {
                let depth = cfg.backbone.num_layers as nat;
                lemma_blocks_listed(cfg, depth, layer, j);
                lemma_listed_second(
                    super::own_encoder_params(cfg),
                    super::blocks_params(cfg, depth),
                    own[j].0,
                );
            }
            lemma_kv(cfg);
            let column = seq![cfg.cca.n() as nat, 1nat];
            lemma_input(super::cca::input_names::T_COL@, column, false, params);
            lemma_input(super::cca::input_names::RETRIEVAL_MASK@, column, false, params);
            lemma_block(
                x,
                super::t_expr(cfg),
                super::mask_expr(cfg),
                super::kv_expr(cfg),
                prefix,
                cfg.cca,
                cfg.activation,
                params,
            );
        }
    }
}

/// Only the encoder, the CCA blocks and the gates train: every parameter with
/// a gradient path from the logits is one of theirs.
pub proof fn law_only_the_retrofit_trains(cfg: ModelConfig, name: Seq<char>)
    requires
        cfg.fault() is None,
        super::plan::trains(super::logits_expr(cfg), name),
    ensures
        listed(super::trained_params(cfg), name),
{
    let params = super::trained_params(cfg);
    let depth = cfg.backbone.num_layers as nat;
    let d = cfg.backbone.layer_shape().d();
    let x = super::residual_expr(cfg, depth);
    lemma_residual(cfg, depth);
    let norm = super::transformer::leaf("backbone"@ + ".out_norm"@, seq![d], true);
    let head = super::transformer::leaf(
        "backbone"@ + ".lm_head"@,
        seq![d, cfg.backbone.vocab_size as nat],
        true,
    );
    lemma_leaf("backbone"@ + ".out_norm"@, seq![d], true, params);
    lemma_leaf(
        "backbone"@ + ".lm_head"@,
        seq![d, cfg.backbone.vocab_size as nat],
        true,
        params,
    );
    let eps = cfg.backbone.rms_norm_eps;
    let y = super::plan::normed(x, norm, eps);
    lemma_two(Op::RmsNorm { eps }, x.shape, x, norm, params);
    lemma_matmul(y, head, params);
    assert(reaches_only(super::logits_expr(cfg), params));
}

proof fn lemma_trained_open(cfg: ModelConfig, name: Seq<char>)
    requires
        listed(super::trained_params(cfg), name),
    ensures
        name.len() > 0,
        name[0] == 'n' || name[0] == 'c',
{
    let own = super::own_encoder_params(cfg);
    let depth = cfg.backbone.num_layers as nat;
    super::names::lemma_encoder_opens(cfg);
    super::names::lemma_blocks_open(cfg, depth);
    let all = super::trained_params(cfg);
    let i = choose|i: int| 0 <= i < all.len() && (#[trigger] all[i]).0 == name;
    if i < own.len() {
        assert(all[i] == own[i]);
    } else {
        assert(all[i] == super::blocks_params(cfg, depth)[i - own.len()]);
    }
}

/// The backbone never trains: none of its parameters has a gradient path from
/// the logits.
pub proof fn law_the_backbone_never_trains(cfg: ModelConfig, name: Seq<char>)
    requires
        cfg.fault() is None,
        listed(super::backbone::backbone_params("backbone"@, cfg.backbone), name),
    ensures
        !super::plan::trains(super::logits_expr(cfg), name),
{
    super::names::lemma_backbone_opens(cfg.backbone);
    let all = super::backbone::backbone_params("backbone"@, cfg.backbone);
    let i = choose|i: int| 0 <= i < all.len() && (#[trigger] all[i]).0 == name;
    assert(all[i].0[0] == 'b');
    if super::plan::trains(super::logits_expr(cfg), name) {
        law_only_the_retrofit_trains(cfg, name);
        lemma_trained_open(cfg, name);
    }
}

/// A model lists as trainable exactly what its configuration says a retrofit
/// trains, in order.
pub proof fn law_trainable_names_are_the_retrofit(
    model: super::CcaModel,
    g: super::plan::Plan,
    cfg: ModelConfig,
)
    requires
        model.built(g, cfg),
    ensures
        model.encoder_texts() + super::block_texts(
            model.insertions(),
            model.insertions().len(),
        ) == super::gate::param_texts(super::trained_params(cfg)),
{
    let depth = cfg.backbone.num_layers as nat;
    let blocks = model.insertions();
    lemma_block_texts(blocks, g, cfg, depth);
    super::gate::lemma_param_texts(
        super::own_encoder_params(cfg),
        super::blocks_params(cfg, depth),
    );
    assert(model.encoder_texts() =~= super::gate::param_texts(super::own_encoder_params(cfg)));
}

proof fn lemma_block_texts(
    blocks: Seq<super::CcaInsertion>,
    g: super::plan::Plan,
    cfg: ModelConfig,
    upto: nat,
)
    requires
        super::blocks_match(blocks, g, cfg, upto),
        upto <= usize::MAX,
    ensures
        super::block_texts(blocks, blocks.len()) == super::gate::param_texts(
            super::blocks_params(cfg, upto),
        ),
    decreases upto,
{
    let layers = Seq::new(blocks.len(), |i: int| blocks[i].layer);
    if upto == 0 {
        assert(layers.len() == 0);
        assert(super::gate::param_texts(super::blocks_params(cfg, 0)) =~= Seq::<
            Seq<char>,
        >::empty());
    } else {
        let layer = (upto - 1) as nat;
        if cfg.cca.follows(layer) {
            let fewer = blocks.drop_last();
            let last = blocks.last();
            let short = cfg.cca.layers_below(layer);
            assert(layers == short.push(layer as usize));
            assert(layers.drop_last() =~= short);
            assert(Seq::new(fewer.len(), |i: int| fewer[i].layer) =~= layers.drop_last());
            assert(layers.last() == last.layer);
            assert forall|i: int| 0 <= i < fewer.len() implies {
                let block = (#[trigger] fewer[i]).block;
                &&& block.declared(g)
                &&& block.name() == super::block_prefix(fewer[i].layer as nat)
                &&& block.shape() == cfg.cca
                &&& block.kind() == cfg.activation
            } by {
                assert(fewer[i] == blocks[i]);
            }
            lemma_block_texts(fewer, g, cfg, layer);
            lemma_block_texts_prefix(blocks, fewer, fewer.len());
            assert(last == blocks[blocks.len() - 1]);
            last.block.lemma_texts(g);
            super::gate::lemma_param_texts(
                super::blocks_params(cfg, layer),
                super::cca::block_params(super::block_prefix(layer), cfg.cca, cfg.activation),
            );
        } else {
            lemma_block_texts(blocks, g, cfg, layer);
        }
    }
}

proof fn lemma_block_texts_prefix(
    a: Seq<super::CcaInsertion>,
    b: Seq<super::CcaInsertion>,
    upto: nat,
)
    requires
        upto <= a.len(),
        upto <= b.len(),
        forall|i: int| 0 <= i < upto ==> a[i] == b[i],
    ensures
        super::block_texts(a, upto) == super::block_texts(b, upto),
    decreases upto,
{
    if upto > 0 {
        lemma_block_texts_prefix(a, b, (upto - 1) as nat);
    }
}

/// What starts at zero trains: every zero-initialised parameter is one of the
/// trainable ones.
pub proof fn law_zero_init_names_are_trainable(
    model: super::CcaModel,
    g: super::plan::Plan,
    cfg: ModelConfig,
    upto: nat,
    i: int,
)
    requires
        model.built(g, cfg),
        upto <= model.insertions().len(),
        0 <= i < super::zero_texts(model.insertions(), upto).len(),
    ensures
        super::block_texts(model.insertions(), upto).contains(
            super::zero_texts(model.insertions(), upto)[i],
        ),
    decreases upto,
{
    let blocks = model.insertions();
    let zero = super::zero_texts(blocks, upto);
    if upto > 0 {
        let rest = super::zero_texts(blocks, (upto - 1) as nat);
        let all = super::block_texts(blocks, upto);
        let all_rest = super::block_texts(blocks, (upto - 1) as nat);
        let block = blocks[upto - 1].block;
        let own = super::cca::own_texts(block.name()) + block.own_gate().names().all_texts();
        if i < rest.len() {
            law_zero_init_names_are_trainable(model, g, cfg, (upto - 1) as nat, i);
            let j = all_rest.index_of(rest[i]);
            assert(all[j] == zero[i]);
        } else {
            block.lemma_texts(g);
            let k = i - rest.len();
            assert(own.contains(block.own_gate().names().zero_texts()[k]));
            let j = own.index_of(zero[i]);
            assert(all[all_rest.len() + j] == zero[i]);
        }
    }
}

/// Whether a value is zero in every element once the inputs and parameters
/// named in `zeros` are, whatever finite values the others have: a product
/// with a factor that is zero, a sum of zeros, or what an operator that keeps
/// zero makes of one.
pub open spec fn vanishes(e: Expr, zeros: Set<Seq<char>>) -> bool
    decreases e,
{
    match e.op {
        Op::Input => zeros.contains(e.source),
        Op::Parameter => zeros.contains(e.source),
        Op::MatMul => e.args.len() == 2 && (vanishes(e.args[0], zeros) || vanishes(
            e.args[1],
            zeros,
        )),
        Op::Mul => e.args.len() == 2 && (vanishes(e.args[0], zeros) || vanishes(e.args[1], zeros)),
        Op::Add => e.args.len() == 2 && vanishes(e.args[0], zeros) && vanishes(e.args[1], zeros),
        Op::BiasAdd => e.args.len() == 2 && vanishes(e.args[0], zeros) && vanishes(
            e.args[1],
            zeros,
        ),
        Op::Silu => e.args.len() == 1 && vanishes(e.args[0], zeros),
        Op::Tanh => e.args.len() == 1 && vanishes(e.args[0], zeros),
        Op::Reshape => e.args.len() == 1 && vanishes(e.args[0], zeros),
        Op::BroadcastInner { inner: _ } => e.args.len() == 1 && vanishes(e.args[0], zeros),
        Op::StopGradient => e.args.len() == 1 && vanishes(e.args[0], zeros),
        _ => false,
    }
}

/// A block starts as the identity: it adds a term to the residual, and that
/// term is zero once the soft gate's zero-initialised parameters are.
pub proof fn law_a_block_starts_as_the_identity(
    h: Expr,
    t: Expr,
    mask: Expr,
    kv: Expr,
    prefix: Seq<char>,
    cfg: crate::config::CcaConfig,
    activation: super::gate::GateActivation,
    zeros: Set<Seq<char>>,
)
    requires
        zeros.contains(prefix + ".gate"@ + ".w2"@),
        zeros.contains(prefix + ".gate"@ + ".b2"@),
        activation == super::gate::GateActivation::ScaledSigmoid ==> zeros.contains(
            prefix + ".gate"@ + ".alpha"@,
        ),
    ensures
        ({
            let term = super::plan::product(
                super::cca::admission_expr(h, t, mask, prefix, cfg, activation),
                super::cca::context_expr(h, kv, prefix, cfg),
            );
            &&& super::cca::block_expr(h, t, mask, kv, prefix, cfg, activation)
                == super::plan::sum(h, term)
            &&& vanishes(term, zeros)
        }),
{
    let gated = prefix + ".gate"@;
    let d = cfg.d() as nat;
    let rows = cfg.n() as nat;
    let w1 = super::plan::parameter_expr(gated + ".w1"@, seq![d + 1, d]);
    let b1 = super::plan::parameter_expr(gated + ".b1"@, seq![d]);
    let w2 = super::plan::parameter_expr(gated + ".w2"@, seq![d, 1nat]);
    let b2 = super::plan::parameter_expr(gated + ".b2"@, seq![1nat]);
    let hidden = super::plan::unary(
        Op::Silu,
        super::plan::biased(
            super::plan::matmul(super::rows::widened(h, t, rows, d), w1),
            b1,
        ),
    );
    let product = super::plan::matmul(hidden, w2);
    assert(product.args[1] == w2);
    assert(vanishes(w2, zeros));
    assert(vanishes(b2, zeros));
    assert(vanishes(product, zeros));
    let pre = super::plan::biased(product, b2);
    assert(pre.args[0] == product && pre.args[1] == b2);
    assert(vanishes(pre, zeros));
    let scalar = match activation {
        super::gate::GateActivation::Tanh => {
            let e = super::plan::unary(Op::Tanh, pre);
            assert(e.args[0] == pre);
            assert(vanishes(e, zeros));
            e
        },
        super::gate::GateActivation::ScaledSigmoid => {
            let column = super::plan::constant_expr(super::gate::ones(rows), seq![rows, 1nat]);
            let alpha = super::plan::parameter_expr(gated + ".alpha"@, seq![1nat, 1nat]);
            assert(vanishes(alpha, zeros));
            let scaled = super::plan::matmul(column, alpha);
            assert(scaled.args[1] == alpha);
            assert(vanishes(scaled, zeros));
            let e = super::plan::product(super::plan::unary(Op::Sigmoid, pre), scaled);
            assert(e.args[1] == scaled);
            assert(vanishes(e, zeros));
            e
        },
    };
    let gate = super::gate::gate_expr(gated, d, activation, h, t, rows);
    assert(gate == super::plan::spread(scalar, d as u32));
    assert(gate.args[0] == scalar);
    assert(vanishes(gate, zeros));
    let admission = super::cca::admission_expr(h, t, mask, prefix, cfg, activation);
    assert(admission.args[0] == gate);
    assert(vanishes(admission, zeros));
    let term = super::plan::product(admission, super::cca::context_expr(h, kv, prefix, cfg));
    assert(term.args[0] == admission);
}

/// A zero retrieval mask closes the block: whatever the soft gate has learned, the
/// term that a block adds to the residual is zero.
pub proof fn law_a_zero_mask_closes_the_block(
    h: Expr,
    t: Expr,
    mask: Expr,
    kv: Expr,
    prefix: Seq<char>,
    cfg: crate::config::CcaConfig,
    activation: super::gate::GateActivation,
    zeros: Set<Seq<char>>,
)
    requires
        vanishes(mask, zeros),
    ensures
        ({
            let term = super::plan::product(
                super::cca::admission_expr(h, t, mask, prefix, cfg, activation),
                super::cca::context_expr(h, kv, prefix, cfg),
            );
            &&& super::cca::block_expr(h, t, mask, kv, prefix, cfg, activation)
                == super::plan::sum(h, term)
            &&& vanishes(term, zeros)
        }),
{
    let wide = super::plan::spread(mask, cfg.d() as u32);
    assert(wide.args[0] == mask);
    assert(vanishes(wide, zeros));
    let admission = super::cca::admission_expr(h, t, mask, prefix, cfg, activation);
    assert(admission.args[1] == wide);
    assert(vanishes(admission, zeros));
    let term = super::plan::product(admission, super::cca::context_expr(h, kv, prefix, cfg));
    assert(term.args[0] == admission);
}

} // verus!
