//! One bidirectional transformer layer, as the backbone and the neighbour
//! encoder both stack it.
use super::cca::frozen_parameter;
use super::plan::{NodeId, Plan};
use crate::binary32::Binary32;
use crate::text::joined;
use vstd::prelude::*;

verus! {

/// The shape of a transformer layer.
#[derive(Clone, Copy, Debug)]
pub struct LayerShape {
    /// Query heads.
    pub num_heads: u32,
    /// Key/value heads.
    pub num_kv_heads: u32,
    /// Per-head width.
    pub head_dim: u32,
    /// Feed-forward inner width.
    pub intermediate_size: usize,
}

impl LayerShape {
    /// Row width.
    pub open spec fn d(self) -> nat {
        (self.num_heads * self.head_dim) as nat
    }

    /// Key/value width.
    pub open spec fn kv(self) -> nat {
        (self.num_kv_heads * self.head_dim) as nat
    }

    /// Feed-forward inner width.
    pub open spec fn inner(self) -> nat {
        self.intermediate_size as nat
    }

    /// The widths can be held in a machine word.
    pub open spec fn wf(self) -> bool {
        &&& self.num_heads * self.head_dim <= u32::MAX
        &&& self.num_kv_heads * self.head_dim <= u32::MAX
    }

    /// Rotary embedding turns pairs of components.
    pub open spec fn rotates(self) -> bool {
        &&& self.head_dim > 0
        &&& self.head_dim % 2 == 0
    }
}

/// A parameter that trains, or one behind a gradient stop.
pub open spec fn leaf(name: Seq<char>, shape: Seq<nat>, frozen: bool) -> super::plan::Expr {
    let p = super::plan::parameter_expr(name, shape);
    if frozen {
        super::plan::unary(super::plan::Op::StopGradient, p)
    } else {
        p
    }
}

/// The parameters a layer under `prefix` declares: names and shapes.
pub open spec fn layer_params(prefix: Seq<char>, shape: LayerShape) -> Seq<(Seq<char>, Seq<nat>)> {
    seq![
        (prefix + ".attn_norm"@, seq![shape.d()]),
        (prefix + ".q_proj"@, seq![shape.d(), shape.d()]),
        (prefix + ".k_proj"@, seq![shape.d(), shape.kv()]),
        (prefix + ".v_proj"@, seq![shape.d(), shape.kv()]),
        (prefix + ".o_proj"@, seq![shape.d(), shape.d()]),
        (prefix + ".ffn_norm"@, seq![shape.d()]),
        (prefix + ".gate_proj"@, seq![shape.d(), shape.inner()]),
        (prefix + ".up_proj"@, seq![shape.d(), shape.inner()]),
        (prefix + ".down_proj"@, seq![shape.inner(), shape.d()]),
    ]
}

/// A query or key projection, turned by its position where there is a base to
/// turn it by.
pub open spec fn turned(
    x: super::plan::Expr,
    rope: Option<Binary32>,
    head_dim: u32,
) -> super::plan::Expr {
    match rope {
        Some(theta) => super::plan::unary(super::plan::Op::Rope { theta, head_dim }, x),
        None => x,
    }
}

/// The attention half of a layer: `x` plus what every row gathers from all of
/// them.
pub open spec fn attention_expr(
    x: super::plan::Expr,
    prefix: Seq<char>,
    shape: LayerShape,
    eps: Binary32,
    rope: Option<Binary32>,
    frozen: bool,
) -> super::plan::Expr {
    let h = super::plan::normed(x, leaf(prefix + ".attn_norm"@, seq![shape.d()], frozen), eps);
    let q = super::plan::matmul(
        h,
        leaf(prefix + ".q_proj"@, seq![shape.d(), shape.d()], frozen),
    );
    let k = super::plan::matmul(
        h,
        leaf(prefix + ".k_proj"@, seq![shape.d(), shape.kv()], frozen),
    );
    let v = super::plan::matmul(
        h,
        leaf(prefix + ".v_proj"@, seq![shape.d(), shape.kv()], frozen),
    );
    let attn = super::plan::attended(
        turned(q, rope, shape.head_dim),
        turned(k, rope, shape.head_dim),
        v,
        shape.num_heads,
        shape.num_kv_heads,
        shape.head_dim,
        false,
    );
    super::plan::sum(
        x,
        super::plan::matmul(
            attn,
            leaf(prefix + ".o_proj"@, seq![shape.d(), shape.d()], frozen),
        ),
    )
}

/// The feed-forward half of a layer.
pub open spec fn feed_forward_expr(
    x: super::plan::Expr,
    prefix: Seq<char>,
    shape: LayerShape,
    eps: Binary32,
    frozen: bool,
) -> super::plan::Expr {
    let h = super::plan::normed(x, leaf(prefix + ".ffn_norm"@, seq![shape.d()], frozen), eps);
    let gate = super::plan::matmul(
        h,
        leaf(prefix + ".gate_proj"@, seq![shape.d(), shape.inner()], frozen),
    );
    let up = super::plan::matmul(
        h,
        leaf(prefix + ".up_proj"@, seq![shape.d(), shape.inner()], frozen),
    );
    super::plan::sum(
        x,
        super::plan::matmul(
            super::plan::swiglu(gate, up),
            leaf(prefix + ".down_proj"@, seq![shape.inner(), shape.d()], frozen),
        ),
    )
}

/// A whole layer.
pub open spec fn layer_expr(
    x: super::plan::Expr,
    prefix: Seq<char>,
    shape: LayerShape,
    eps: Binary32,
    rope: Option<Binary32>,
    frozen: bool,
) -> super::plan::Expr {
    feed_forward_expr(
        attention_expr(x, prefix, shape, eps, rope, frozen),
        prefix,
        shape,
        eps,
        frozen,
    )
}

/// Parameter nodes of one layer.
#[derive(Clone, Copy, Debug)]
pub struct LayerNodes {
    attn_norm: NodeId,
    q_proj: NodeId,
    k_proj: NodeId,
    v_proj: NodeId,
    o_proj: NodeId,
    ffn_norm: NodeId,
    gate_proj: NodeId,
    up_proj: NodeId,
    down_proj: NodeId,
}

/// Declare a parameter, frozen or not.
pub(crate) fn declare(g: &mut Plan, name: &str, shape: &[usize], frozen: bool) -> (id: NodeId)
    requires
        old(g).wf(),
    ensures
        final(g).grows(*old(g)),
        final(g).holds(id),
        final(g).expr(id) == leaf(name@, super::plan::dims(shape@), frozen),
        final(g).params() == old(g).params().push((name@, super::plan::dims(shape@))),
{
    if frozen {
        frozen_parameter(g, name, shape)
    } else {
        g.parameter(name, shape)
    }
}

/// Declare the parameter `prefix` + `suffix`: a vector.
pub(crate) fn declare_vector(g: &mut Plan, prefix: &str, suffix: &str, a: usize, frozen: bool) -> (id:
    NodeId)
    requires
        old(g).wf(),
    ensures
        final(g).grows(*old(g)),
        final(g).holds(id),
        final(g).expr(id) == leaf(prefix@ + suffix@, seq![a as nat], frozen),
        final(g).params() == old(g).params().push((prefix@ + suffix@, seq![a as nat])),
{
    let shape: [usize; 1] = [a];
    proof {
        super::rows::lemma_dims(shape@);
    }
    declare(g, joined(prefix, suffix).as_str(), shape.as_slice(), frozen)
}

/// Declare the parameter `prefix` + `suffix`: a matrix.
pub(crate) fn declare_matrix(
    g: &mut Plan,
    prefix: &str,
    suffix: &str,
    a: usize,
    b: usize,
    frozen: bool,
) -> (id: NodeId)
    requires
        old(g).wf(),
    ensures
        final(g).grows(*old(g)),
        final(g).holds(id),
        final(g).expr(id) == leaf(prefix@ + suffix@, seq![a as nat, b as nat], frozen),
        final(g).params() == old(g).params().push((prefix@ + suffix@, seq![a as nat, b as nat])),
{
    let shape: [usize; 2] = [a, b];
    proof {
        super::rows::lemma_dims(shape@);
    }
    declare(g, joined(prefix, suffix).as_str(), shape.as_slice(), frozen)
}

impl LayerNodes {
    /// Whether `g` holds the parameters of this layer.
    pub closed spec fn declared(
        self,
        g: Plan,
        prefix: Seq<char>,
        shape: LayerShape,
        frozen: bool,
    ) -> bool {
        let (d, kv, inner) = (shape.d(), shape.kv(), shape.inner());
        &&& g.holds(self.attn_norm)
        &&& g.holds(self.q_proj)
        &&& g.holds(self.k_proj)
        &&& g.holds(self.v_proj)
        &&& g.holds(self.o_proj)
        &&& g.holds(self.ffn_norm)
        &&& g.holds(self.gate_proj)
        &&& g.holds(self.up_proj)
        &&& g.holds(self.down_proj)
        &&& g.expr(self.attn_norm) == leaf(prefix + ".attn_norm"@, seq![d], frozen)
        &&& g.expr(self.q_proj) == leaf(prefix + ".q_proj"@, seq![d, d], frozen)
        &&& g.expr(self.k_proj) == leaf(prefix + ".k_proj"@, seq![d, kv], frozen)
        &&& g.expr(self.v_proj) == leaf(prefix + ".v_proj"@, seq![d, kv], frozen)
        &&& g.expr(self.o_proj) == leaf(prefix + ".o_proj"@, seq![d, d], frozen)
        &&& g.expr(self.ffn_norm) == leaf(prefix + ".ffn_norm"@, seq![d], frozen)
        &&& g.expr(self.gate_proj) == leaf(prefix + ".gate_proj"@, seq![d, inner], frozen)
        &&& g.expr(self.up_proj) == leaf(prefix + ".up_proj"@, seq![d, inner], frozen)
        &&& g.expr(self.down_proj) == leaf(prefix + ".down_proj"@, seq![inner, d], frozen)
    }

    /// A layer that is declared stays declared as the plan grows.
    pub proof fn lemma_stays(
        self,
        before: Plan,
        after: Plan,
        prefix: Seq<char>,
        shape: LayerShape,
        frozen: bool,
    )
        requires
            self.declared(before, prefix, shape, frozen),
            after.grows(before),
        ensures
            self.declared(after, prefix, shape, frozen),
    {
    }

    /// Declare the parameters of a layer under `prefix`.
    pub(crate) fn new(g: &mut Plan, prefix: &str, shape: LayerShape, frozen: bool) -> (nodes: Self)
        requires
            old(g).wf(),
            shape.wf(),
        ensures
            final(g).grows(*old(g)),
            nodes.declared(*final(g), prefix@, shape, frozen),
            final(g).params() == old(g).params() + layer_params(prefix@, shape),
    {
        let d: usize = (shape.num_heads * shape.head_dim) as usize;
        let kv: usize = (shape.num_kv_heads * shape.head_dim) as usize;
        let inner: usize = shape.intermediate_size;
        let attn_norm: NodeId = declare_vector(g, prefix, ".attn_norm", d, frozen);
        let q_proj: NodeId = declare_matrix(g, prefix, ".q_proj", d, d, frozen);
        let k_proj: NodeId = declare_matrix(g, prefix, ".k_proj", d, kv, frozen);
        let v_proj: NodeId = declare_matrix(g, prefix, ".v_proj", d, kv, frozen);
        let o_proj: NodeId = declare_matrix(g, prefix, ".o_proj", d, d, frozen);
        let ffn_norm: NodeId = declare_vector(g, prefix, ".ffn_norm", d, frozen);
        let gate_proj: NodeId = declare_matrix(g, prefix, ".gate_proj", d, inner, frozen);
        let up_proj: NodeId = declare_matrix(g, prefix, ".up_proj", d, inner, frozen);
        let down_proj: NodeId = declare_matrix(g, prefix, ".down_proj", inner, d, frozen);
        proof {
            assert(g.params() =~= old(g).params() + layer_params(prefix@, shape));
        }
        LayerNodes {
            attn_norm,
            q_proj,
            k_proj,
            v_proj,
            o_proj,
            ffn_norm,
            gate_proj,
            up_proj,
            down_proj,
        }
    }

    /// Run the layer over `[rows, d]` values.
    ///
    /// Bidirectional: every row attends to every row, so a causal mask would
    /// be wrong here in a way that still trains and still lowers loss.
    pub(crate) fn forward(
        &self,
        g: &mut Plan,
        x: NodeId,
        shape: LayerShape,
        eps: Binary32,
        rope: Option<Binary32>,
        Ghost(prefix): Ghost<Seq<char>>,
        Ghost(frozen): Ghost<bool>,
    ) -> (id: NodeId)
        requires
            old(g).wf(),
            shape.wf(),
            rope is Some ==> shape.rotates(),
            self.declared(*old(g), prefix, shape, frozen),
            old(g).holds(x),
            !old(g).expr(x).is_ids,
            old(g).expr(x).shape.len() == 2,
            old(g).expr(x).shape[1] == shape.d(),
        ensures
            final(g).grows(*old(g)),
            final(g).holds(id),
            id.0 >= old(g).count(),
            final(g).label(id) is None,
            final(g).expr(id) == layer_expr(old(g).expr(x), prefix, shape, eps, rope, frozen),
            final(g).expr(id).shape == old(g).expr(x).shape,
            !final(g).expr(id).is_ids,
            final(g).params() == old(g).params(),
    {
        let ghost rows = g.expr(x).shape[0];
        let ghost width = g.expr(x).shape;
        proof {
            assert(width =~= seq![rows, shape.d()]);
            if rope is Some {
                lemma_rotates(shape.num_heads as int, shape.head_dim as int);
                lemma_rotates(shape.num_kv_heads as int, shape.head_dim as int);
            }
        }
        let h: NodeId = g.rms_norm(x, self.attn_norm, eps);
        let q: NodeId = g.matmul(h, self.q_proj);
        let k: NodeId = g.matmul(h, self.k_proj);
        let v: NodeId = g.matmul(h, self.v_proj);
        let q: NodeId = match rope {
            Some(theta) => g.rope(q, theta, shape.head_dim),
            None => q,
        };
        let k: NodeId = match rope {
            Some(theta) => g.rope(k, theta, shape.head_dim),
            None => k,
        };
        let attn: NodeId = g.multi_head_attn(
            q,
            k,
            v,
            shape.num_heads,
            shape.num_kv_heads,
            shape.head_dim,
            false,
        );
        let attn: NodeId = g.matmul(attn, self.o_proj);
        let y: NodeId = g.add(x, attn);
        assert(g.expr(y) == attention_expr(old(g).expr(x), prefix, shape, eps, rope, frozen));
        let h: NodeId = g.rms_norm(y, self.ffn_norm, eps);
        let gate: NodeId = g.matmul(h, self.gate_proj);
        let up: NodeId = g.matmul(h, self.up_proj);
        let ffn: NodeId = g.swiglu(gate, up);
        let ffn: NodeId = g.matmul(ffn, self.down_proj);
        g.add(y, ffn)
    }
}

proof fn lemma_rotates(heads: int, head_dim: int)
    requires
        heads >= 0,
        head_dim > 0,
        head_dim % 2 == 0,
    ensures
        (heads * head_dim) % head_dim == 0,
        (heads * head_dim) % 2 == 0,
{
    vstd::arithmetic::div_mod::lemma_mod_multiples_basic(heads, head_dim);
    let half = head_dim / 2;
    assert(heads * head_dim == (heads * half) * 2) by (nonlinear_arith)
        requires
            head_dim == half * 2,
    ;
    vstd::arithmetic::div_mod::lemma_mod_multiples_basic(heads * half, 2);
}

} // verus!
