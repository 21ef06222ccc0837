//! What the parts of a model make of the values they are given.
//!
//! The laws here speak of rows, weights and the elementary functions of a
//! reading, not of the nodes that compute them: whatever a plan looks like, the
//! numbers that come out of a layer, a soft gate or a block are these.
use super::plan::{Expr, Op};
use super::transformer::LayerShape;
use super::values::Reading;
use crate::binary32::Binary32;
use vstd::prelude::*;

verus! {

/// The elements of a value, row by row.
pub open spec fn values<V>(r: Reading<V>, e: Expr) -> Seq<V> {
    r.run(e, 0, 1, super::plan::elements(e.shape))
}

/// The elements of the parameter called `name`, row by row.
pub open spec fn weight<V>(r: Reading<V>, name: Seq<char>, shape: Seq<nat>) -> Seq<V> {
    Seq::new(
        super::plan::elements(shape),
        |i: int| (r.leaf)(super::plan::parameter_expr(name, shape), i),
    )
}

/// Row `i` of a matrix of `width` columns.
pub open spec fn row_of<V>(a: Seq<V>, i: int, width: nat) -> Seq<V> {
    Seq::new(width, |p: int| a[i * width + p])
}

/// Column `j` of a matrix of `width` columns and `height` rows.
pub open spec fn column_of<V>(a: Seq<V>, j: int, width: nat, height: nat) -> Seq<V> {
    Seq::new(height, |p: int| a[j + p * width])
}

/// The product of two matrices.
pub open spec fn times<V>(
    r: Reading<V>,
    a: Seq<V>,
    b: Seq<V>,
    rows: nat,
    inner: nat,
    columns: nat,
) -> Seq<V> {
    Seq::new(
        rows * columns,
        |i: int|
            (r.dot)(
                row_of(a, i / columns as int, inner),
                column_of(b, i % columns as int, columns, inner),
            ),
    )
}

/// The rows of a matrix, each normalised and scaled by `w`.
pub open spec fn normalised<V>(
    r: Reading<V>,
    x: Seq<V>,
    w: Seq<V>,
    eps: Binary32,
    rows: nat,
    width: nat,
) -> Seq<V> {
    Seq::new(
        rows * width,
        |i: int| (r.norm)(eps, row_of(x, i / width as int, width), w, i % width as int),
    )
}

/// The sum of two lists of one length.
pub open spec fn added<V>(r: Reading<V>, a: Seq<V>, b: Seq<V>) -> Seq<V> {
    Seq::new(a.len(), |i: int| (r.plus)(a[i], b[i]))
}

/// What an operator that is not spelled out makes of whole operands.
pub open spec fn made<V>(r: Reading<V>, op: Op, shape: Seq<nat>, operands: Seq<Seq<V>>) -> Seq<V> {
    Seq::new(super::plan::elements(shape), |i: int| (r.whole)(op, shape, operands, i))
}

proof fn lemma_place(i: int, rows: nat, columns: nat)
    requires
        0 <= i < rows * columns,
    ensures
        0 <= i / columns as int,
        i / (columns as int) < rows,
        0 <= i % columns as int,
        i % (columns as int) < columns,
{
    super::values::lemma_in_matrix(i, rows as int, columns as int);
}

proof fn lemma_within_matrix(row: int, p: int, rows: nat, width: nat)
    requires
        0 <= row < rows,
        0 <= p < width,
    ensures
        0 <= row * width + p < rows * width,
{
    assert(0 <= row * width + p < rows * width) by (nonlinear_arith)
        requires
            0 <= row < rows,
            0 <= p < width,
    ;
}

proof fn lemma_times<V>(r: Reading<V>, a: Expr, b: Expr, rows: nat, inner: nat, columns: nat)
    requires
        a.shape == seq![rows, inner],
        b.shape == seq![inner, columns],
    ensures
        values(r, super::plan::matmul(a, b)) == times(
            r,
            values(r, a),
            values(r, b),
            rows,
            inner,
            columns,
        ),
{
    let e = super::plan::matmul(a, b);
    super::rows::lemma_elements(rows, inner);
    super::rows::lemma_elements(inner, columns);
    super::rows::lemma_elements(rows, columns);
    assert(e.shape =~= seq![rows, columns]);
    assert(e.args =~= seq![a, b]);
    let left = values(r, e);
    let right = times(r, values(r, a), values(r, b), rows, inner, columns);
    assert forall|i: int| 0 <= i < rows * columns implies left[i] == right[i] by {
        lemma_place(i, rows, columns);
        let (row, column) = (i / columns as int, i % columns as int);
        let x = r.run(a, row * inner, 1, inner);
        let y = r.run(b, column, columns as int, inner);
        assert(x =~= row_of(values(r, a), row, inner)) by {
            assert forall|p: int| 0 <= p < inner implies x[p] == row_of(
                values(r, a),
                row,
                inner,
            )[p] by {
                lemma_within_matrix(row, p, rows, inner);
            }
        }
        assert(y =~= column_of(values(r, b), column, columns, inner)) by {
            assert forall|p: int| 0 <= p < inner implies y[p] == column_of(
                values(r, b),
                column,
                columns,
                inner,
            )[p] by {
                lemma_within_matrix(p, column, inner, columns);
            }
        }
        assert(r.element(e, i) == (r.dot)(x, y));
    }
    assert(left =~= right);
}

proof fn lemma_normalised<V>(
    r: Reading<V>,
    x: Expr,
    w: Expr,
    eps: Binary32,
    rows: nat,
    width: nat,
)
    requires
        x.shape == seq![rows, width],
        w.shape == seq![width],
    ensures
        values(r, super::plan::normed(x, w, eps)) == normalised(
            r,
            values(r, x),
            values(r, w),
            eps,
            rows,
            width,
        ),
{
    let e = super::plan::normed(x, w, eps);
    super::rows::lemma_elements(rows, width);
    super::rows::lemma_elements(width, 0);
    assert(e.args =~= seq![x, w]);
    let left = values(r, e);
    let right = normalised(r, values(r, x), values(r, w), eps, rows, width);
    assert forall|i: int| 0 <= i < rows * width implies left[i] == right[i] by {
        lemma_place(i, rows, width);
        let row = i / width as int;
        let a = r.run(x, row * width, 1, width);
        assert(a =~= row_of(values(r, x), row, width)) by {
            assert forall|p: int| 0 <= p < width implies a[p] == row_of(
                values(r, x),
                row,
                width,
            )[p] by {
                lemma_within_matrix(row, p, rows, width);
            }
        }
        assert(r.run(w, 0, 1, width) =~= values(r, w));
        assert(r.element(e, i) == (r.norm)(eps, a, r.run(w, 0, 1, width), i % width as int));
    }
    assert(left =~= right);
}

pub proof fn lemma_made<V>(r: Reading<V>, e: Expr)
    requires
        e.op is Rope || e.op is MultiHeadAttn || e.op is SwiGlu || e.op is Embedding || e.op
            is CrossEntropy,
    ensures
        values(r, e) == made(
            r,
            e.op,
            e.shape,
            Seq::new(e.args.len(), |k: int| values(r, e.args[k])),
        ),
{
    let operands = Seq::new(e.args.len(), |k: int| values(r, e.args[k]));
    assert(r.operands(e) =~= operands);
    assert(values(r, e) =~= made(r, e.op, e.shape, operands));
}

proof fn lemma_added<V>(r: Reading<V>, a: Expr, b: Expr)
    requires
        a.shape == b.shape,
    ensures
        values(r, super::plan::sum(a, b)) == added(r, values(r, a), values(r, b)),
{
    let e = super::plan::sum(a, b);
    assert(e.args =~= seq![a, b]);
    assert(values(r, e) =~= added(r, values(r, a), values(r, b)));
}

proof fn lemma_leaf<V>(r: Reading<V>, name: Seq<char>, shape: Seq<nat>, frozen: bool)
    ensures
        values(r, super::transformer::leaf(name, shape, frozen)) == weight(r, name, shape),
        super::transformer::leaf(name, shape, frozen).shape == shape,
{
    let e = super::transformer::leaf(name, shape, frozen);
    let p = super::plan::parameter_expr(name, shape);
    assert(p.op is Parameter);
    assert forall|i: int| 0 <= i < super::plan::elements(shape) implies #[trigger] values(r, e)[i]
        == weight(r, name, shape)[i] by {
        assert(r.element(p, i) == (r.leaf)(p, i));
        if frozen {
            assert(e.args =~= seq![p]);
            assert(e.op is StopGradient);
            assert(r.element(e, i) == r.element(p, i));
        }
    }
    assert(values(r, e) =~= weight(r, name, shape));
}

proof fn lemma_turned<V>(
    r: Reading<V>,
    x: Expr,
    rope: Option<Binary32>,
    head_dim: u32,
)
    ensures
        values(r, super::transformer::turned(x, rope, head_dim)) == match rope {
            Some(theta) => made(r, Op::Rope { theta, head_dim }, x.shape, seq![values(r, x)]),
            None => values(r, x),
        },
        super::transformer::turned(x, rope, head_dim).shape == x.shape,
{
    let e = super::transformer::turned(x, rope, head_dim);
    if rope is Some {
        assert(e.args =~= seq![x]);
        lemma_made(r, e);
        assert(Seq::new(e.args.len(), |k: int| values(r, e.args[k])) =~= seq![values(r, x)]);
    }
}

/// A layer attends and then feeds forward. The normalised rows are projected to
/// queries, keys and values; where there is a rotary base, queries and keys are
/// both turned by it; every row gathers from all of them; what it gathers is
/// projected and added to the row. Then the row, normalised again, goes through
/// the gated feed-forward, which is added as well.
pub proof fn law_a_layer_attends_and_feeds_forward<V>(
    r: Reading<V>,
    x: Expr,
    rows: nat,
    prefix: Seq<char>,
    shape: LayerShape,
    eps: Binary32,
    rope: Option<Binary32>,
    frozen: bool,
)
    requires
        x.shape == seq![rows, shape.d()],
    ensures
        ({
            let (d, kv, inner) = (shape.d(), shape.kv(), shape.inner());
            let head_dim = shape.head_dim;
            let given = values(r, x);
            let h = normalised(r, given, weight(r, prefix + ".attn_norm"@, seq![d]), eps, rows, d);
            let q = times(r, h, weight(r, prefix + ".q_proj"@, seq![d, d]), rows, d, d);
            let k = times(r, h, weight(r, prefix + ".k_proj"@, seq![d, kv]), rows, d, kv);
            let v = times(r, h, weight(r, prefix + ".v_proj"@, seq![d, kv]), rows, d, kv);
            let (turned_q, turned_k) = match rope {
                Some(theta) => (
                    made(r, Op::Rope { theta, head_dim }, seq![rows, d], seq![q]),
                    made(r, Op::Rope { theta, head_dim }, seq![rows, kv], seq![k]),
                ),
                None => (q, k),
            };
            let gathered = made(
                r,
                Op::MultiHeadAttn {
                    num_heads: shape.num_heads,
                    num_kv_heads: shape.num_kv_heads,
                    head_dim,
                    is_cross: false,
                },
                seq![rows, d],
                seq![turned_q, turned_k, v],
            );
            let y = added(
                r,
                given,
                times(r, gathered, weight(r, prefix + ".o_proj"@, seq![d, d]), rows, d, d),
            );
            let f = normalised(r, y, weight(r, prefix + ".ffn_norm"@, seq![d]), eps, rows, d);
            let gate = times(r, f, weight(r, prefix + ".gate_proj"@, seq![d, inner]), rows, d, inner);
            let up = times(r, f, weight(r, prefix + ".up_proj"@, seq![d, inner]), rows, d, inner);
            let wide = made(r, Op::SwiGlu, seq![rows, inner], seq![gate, up]);
            values(r, super::transformer::layer_expr(x, prefix, shape, eps, rope, frozen)) == added(
                r,
                y,
                times(r, wide, weight(r, prefix + ".down_proj"@, seq![inner, d]), rows, inner, d),
            )
        }),
{
    let (d, kv, inner) = (shape.d(), shape.kv(), shape.inner());
    let head_dim = shape.head_dim;
    lemma_leaf(r, prefix + ".attn_norm"@, seq![d], frozen);
    lemma_leaf(r, prefix + ".q_proj"@, seq![d, d], frozen);
    lemma_leaf(r, prefix + ".k_proj"@, seq![d, kv], frozen);
    lemma_leaf(r, prefix + ".v_proj"@, seq![d, kv], frozen);
    lemma_leaf(r, prefix + ".o_proj"@, seq![d, d], frozen);
    lemma_leaf(r, prefix + ".ffn_norm"@, seq![d], frozen);
    lemma_leaf(r, prefix + ".gate_proj"@, seq![d, inner], frozen);
    lemma_leaf(r, prefix + ".up_proj"@, seq![d, inner], frozen);
    lemma_leaf(r, prefix + ".down_proj"@, seq![inner, d], frozen);
    let attn_norm = super::transformer::leaf(prefix + ".attn_norm"@, seq![d], frozen);
    let q_proj = super::transformer::leaf(prefix + ".q_proj"@, seq![d, d], frozen);
    let k_proj = super::transformer::leaf(prefix + ".k_proj"@, seq![d, kv], frozen);
    let v_proj = super::transformer::leaf(prefix + ".v_proj"@, seq![d, kv], frozen);
    let o_proj = super::transformer::leaf(prefix + ".o_proj"@, seq![d, d], frozen);
    let ffn_norm = super::transformer::leaf(prefix + ".ffn_norm"@, seq![d], frozen);
    let gate_proj = super::transformer::leaf(prefix + ".gate_proj"@, seq![d, inner], frozen);
    let up_proj = super::transformer::leaf(prefix + ".up_proj"@, seq![d, inner], frozen);
    let down_proj = super::transformer::leaf(prefix + ".down_proj"@, seq![inner, d], frozen);
    let h = super::plan::normed(x, attn_norm, eps);
    lemma_normalised(r, x, attn_norm, eps, rows, d);
    let q = super::plan::matmul(h, q_proj);
    let k = super::plan::matmul(h, k_proj);
    let v = super::plan::matmul(h, v_proj);
    lemma_times(r, h, q_proj, rows, d, d);
    lemma_times(r, h, k_proj, rows, d, kv);
    lemma_times(r, h, v_proj, rows, d, kv);
    assert(q.shape =~= seq![rows, d]);
    assert(k.shape =~= seq![rows, kv]);
    lemma_turned(r, q, rope, head_dim);
    lemma_turned(r, k, rope, head_dim);
    let tq = super::transformer::turned(q, rope, head_dim);
    let tk = super::transformer::turned(k, rope, head_dim);
    let attn = super::plan::attended(
        tq,
        tk,
        v,
        shape.num_heads,
        shape.num_kv_heads,
        head_dim,
        false,
    );
    lemma_made(r, attn);
    assert(attn.args =~= seq![tq, tk, v]);
    assert(Seq::new(attn.args.len(), |i: int| values(r, attn.args[i])) =~= seq![
        values(r, tq),
        values(r, tk),
        values(r, v),
    ]);
    assert(attn.shape =~= seq![rows, d]);
    let out = super::plan::matmul(attn, o_proj);
    lemma_times(r, attn, o_proj, rows, d, d);
    assert(out.shape =~= x.shape);
    lemma_added(r, x, out);
    let y = super::plan::sum(x, out);
    assert(y == super::transformer::attention_expr(x, prefix, shape, eps, rope, frozen));
    let f = super::plan::normed(y, ffn_norm, eps);
    lemma_normalised(r, y, ffn_norm, eps, rows, d);
    let gate = super::plan::matmul(f, gate_proj);
    let up = super::plan::matmul(f, up_proj);
    lemma_times(r, f, gate_proj, rows, d, inner);
    lemma_times(r, f, up_proj, rows, d, inner);
    let wide = super::plan::swiglu(gate, up);
    lemma_made(r, wide);
    assert(wide.args =~= seq![gate, up]);
    assert(Seq::new(wide.args.len(), |i: int| values(r, wide.args[i])) =~= seq![
        values(r, gate),
        values(r, up),
    ]);
    assert(wide.shape =~= seq![rows, inner]);
    let down = super::plan::matmul(wide, down_proj);
    lemma_times(r, wide, down_proj, rows, inner, d);
    assert(down.shape =~= y.shape);
    lemma_added(r, y, down);
}

proof fn lemma_parameter<V>(r: Reading<V>, name: Seq<char>, shape: Seq<nat>)
    ensures
        values(r, super::plan::parameter_expr(name, shape)) == weight(r, name, shape),
{
    lemma_leaf(r, name, shape, false);
}

/// The logits are the normalised rows of the last residual, projected onto the
/// vocabulary.
pub proof fn law_logits_are_the_projected_residual<V>(
    r: Reading<V>,
    x: Expr,
    rows: nat,
    prefix: Seq<char>,
    cfg: super::backbone::BackboneConfig,
    frozen: bool,
)
    requires
        x.shape == seq![rows, cfg.layer_shape().d()],
    ensures
        ({
            let (d, vocab) = (cfg.layer_shape().d(), cfg.vocab_size as nat);
            let h = normalised(
                r,
                values(r, x),
                weight(r, prefix + ".out_norm"@, seq![d]),
                cfg.rms_norm_eps,
                rows,
                d,
            );
            values(r, super::backbone::head_expr(x, prefix, cfg, frozen)) == times(
                r,
                h,
                weight(r, prefix + ".lm_head"@, seq![d, vocab]),
                rows,
                d,
                vocab,
            )
        }),
{
    let (d, vocab) = (cfg.layer_shape().d(), cfg.vocab_size as nat);
    lemma_leaf(r, prefix + ".out_norm"@, seq![d], frozen);
    lemma_leaf(r, prefix + ".lm_head"@, seq![d, vocab], frozen);
    let norm = super::transformer::leaf(prefix + ".out_norm"@, seq![d], frozen);
    let matrix = super::transformer::leaf(prefix + ".lm_head"@, seq![d, vocab], frozen);
    lemma_normalised(r, x, norm, cfg.rms_norm_eps, rows, d);
    lemma_times(r, super::plan::normed(x, norm, cfg.rms_norm_eps), matrix, rows, d, vocab);
}

/// The rows of a matrix with a column appended.
proof fn lemma_widened<V>(r: Reading<V>, x: Expr, column: Expr, rows: nat, d: nat, i: int, p: int)
    requires
        rows <= u32::MAX,
        d < u32::MAX,
        0 <= i < rows,
        0 <= p <= d,
    ensures
        r.element(super::rows::widened(x, column, rows, d), i * (d + 1) + p) == if p < d {
            r.element(x, i * d + p)
        } else {
            r.element(column, i)
        },
{
    super::rows::law_column_ends_the_rows(x, column, rows, d, i, p);
    super::values::lemma_origin(
        r,
        super::rows::widened(x, column, rows, d),
        i * (d + 1) + p,
    );
    super::values::lemma_origin(r, x, i * d + p);
    super::values::lemma_origin(r, column, i);
}

/// An element of a matrix with a vector added to every row.
proof fn lemma_biased<V>(r: Reading<V>, a: Expr, b: Expr, rows: nat, d: nat, i: int, c: int)
    requires
        a.shape == seq![rows, d],
        0 <= i < rows,
        0 <= c < d,
    ensures
        r.element(super::plan::biased(a, b), i * d + c) == (r.plus)(
            r.element(a, i * d + c),
            r.element(b, c),
        ),
{
    let e = super::plan::biased(a, b);
    assert(e.args =~= seq![a, b]);
    vstd::arithmetic::div_mod::lemma_fundamental_div_mod_converse(i * d + c, d as int, i, c);
}

/// An element of a product of matrices.
proof fn lemma_product_at<V>(
    r: Reading<V>,
    a: Expr,
    b: Expr,
    rows: nat,
    inner: nat,
    columns: nat,
    i: int,
    c: int,
)
    requires
        a.shape == seq![rows, inner],
        b.shape == seq![inner, columns],
        0 <= i < rows,
        0 <= c < columns,
    ensures
        r.element(super::plan::matmul(a, b), i * columns + c) == (r.dot)(
            Seq::new(inner, |p: int| r.element(a, i * inner + p)),
            Seq::new(inner, |p: int| r.element(b, c + p * columns)),
        ),
{
    let e = super::plan::matmul(a, b);
    assert(e.args =~= seq![a, b]);
    assert(e.shape =~= seq![rows, columns]);
    vstd::arithmetic::div_mod::lemma_fundamental_div_mod_converse(
        i * columns + c,
        columns as int,
        i,
        c,
    );
    assert(r.run(a, i * inner, 1, inner) =~= Seq::new(
        inner,
        |p: int| r.element(a, i * inner + p),
    ));
    assert(r.run(b, c, columns as int, inner) =~= Seq::new(
        inner,
        |p: int| r.element(b, c + p * columns),
    ));
}

/// What a soft gate reads of row `i`: the row, and the row's noise level.
pub open spec fn gate_input<V>(r: Reading<V>, h: Expr, t: Expr, d: nat, i: int) -> Seq<V> {
    Seq::new(
        d + 1,
        |p: int|
            if p < d {
                r.element(h, i * d + p)
            } else {
                r.element(t, i)
            },
    )
}

/// A column of a parameter of `rows` by `columns`.
pub open spec fn weight_column<V>(
    r: Reading<V>,
    name: Seq<char>,
    rows: nat,
    columns: nat,
    c: int,
) -> Seq<V> {
    Seq::new(
        rows,
        |p: int|
            (r.leaf)(super::plan::parameter_expr(name, seq![rows, columns]), c + p * columns),
    )
}

/// Unit `c` of the hidden layer of a soft gate over what it reads.
pub open spec fn gate_unit<V>(
    r: Reading<V>,
    prefix: Seq<char>,
    d: nat,
    seen: Seq<V>,
    c: int,
) -> V {
    (r.curve)(
        Op::Silu,
        (r.plus)(
            (r.dot)(seen, weight_column(r, prefix + ".w1"@, d + 1, d, c)),
            (r.leaf)(super::plan::parameter_expr(prefix + ".b1"@, seq![d]), c),
        ),
    )
}

/// A column of ones.
pub open spec fn units(rows: nat) -> Expr {
    super::plan::constant_expr(
        Seq::new(rows, |p: int| Binary32 { bits: crate::binary32::ONE_BITS }),
        seq![rows, 1nat],
    )
}

/// A soft gate reads the row and the noise level of the row: one hidden layer
/// over the row with its level appended gives one number, and every column of
/// the row is admitted by it.
pub proof fn law_a_soft_gate_reads_its_row_and_its_level<V>(
    r: Reading<V>,
    prefix: Seq<char>,
    d: nat,
    activation: super::gate::GateActivation,
    h: Expr,
    t: Expr,
    rows: nat,
    i: int,
    j: int,
)
    requires
        h.shape == seq![rows, d],
        t.shape == seq![rows, 1nat],
        rows <= u32::MAX,
        0 < d < u32::MAX,
        0 <= i < rows,
        0 <= j < d,
    ensures
        ({
            let b2 = super::plan::parameter_expr(prefix + ".b2"@, seq![1nat]);
            let alpha = super::plan::parameter_expr(prefix + ".alpha"@, seq![1nat, 1nat]);
            let one = units(rows);
            let seen = gate_input(r, h, t, d, i);
            let hidden = Seq::new(d, |c: int| gate_unit(r, prefix, d, seen, c));
            let pre = (r.plus)(
                (r.dot)(hidden, weight_column(r, prefix + ".w2"@, d, 1, 0)),
                (r.leaf)(b2, 0),
            );
            r.element(super::gate::gate_expr(prefix, d, activation, h, t, rows), i * d + j)
                == match activation {
                super::gate::GateActivation::Tanh => (r.curve)(Op::Tanh, pre),
                super::gate::GateActivation::ScaledSigmoid => (r.times)(
                    (r.curve)(Op::Sigmoid, pre),
                    (r.dot)(seq![(r.leaf)(one, i)], seq![(r.leaf)(alpha, 0)]),
                ),
            }
        }),
{
    let w1 = super::plan::parameter_expr(prefix + ".w1"@, seq![d + 1, d]);
    let b1 = super::plan::parameter_expr(prefix + ".b1"@, seq![d]);
    let w2 = super::plan::parameter_expr(prefix + ".w2"@, seq![d, 1nat]);
    let b2 = super::plan::parameter_expr(prefix + ".b2"@, seq![1nat]);
    let conditioned = super::rows::widened(h, t, rows, d);
    let first = super::plan::matmul(conditioned, w1);
    let summed = super::plan::biased(first, b1);
    let hidden = super::plan::unary(Op::Silu, summed);
    let second = super::plan::matmul(hidden, w2);
    let pre = super::plan::biased(second, b2);
    assert(conditioned.shape =~= seq![rows, d + 1]);
    assert(first.shape =~= seq![rows, d]);
    assert(second.shape =~= seq![rows, 1nat]);
    let seen = gate_input(r, h, t, d, i);
    assert(Seq::new(d + 1, |p: int| r.element(conditioned, i * (d + 1) + p)) =~= seen) by {
        assert forall|p: int| 0 <= p < d + 1 implies #[trigger] seen[p] == r.element(
            conditioned,
            i * (d + 1) + p,
        ) by {
            lemma_widened(r, h, t, rows, d, i, p);
        }
    }
    let inside = Seq::new(d, |c: int| gate_unit(r, prefix, d, seen, c));
    assert(Seq::new(d, |p: int| r.element(hidden, i * d + p)) =~= inside) by {
        assert forall|c: int| 0 <= c < d implies #[trigger] inside[c] == r.element(
            hidden,
            i * d + c,
        ) by {
            lemma_product_at(r, conditioned, w1, rows, d + 1, d, i, c);
            lemma_biased(r, first, b1, rows, d, i, c);
            assert(Seq::new(d + 1, |p: int| r.element(w1, c + p * d)) =~= weight_column(
                r,
                prefix + ".w1"@,
                d + 1,
                d,
                c,
            ));
            assert(hidden.args =~= seq![summed]);
            assert(r.element(hidden, i * d + c) == (r.curve)(
                Op::Silu,
                r.element(summed, i * d + c),
            ));
        }
    }
    lemma_product_at(r, hidden, w2, rows, d, 1, i, 0);
    lemma_biased(r, second, b2, rows, 1, i, 0);
    assert(Seq::new(d, |p: int| r.element(w2, 0 + p * 1)) =~= weight_column(
        r,
        prefix + ".w2"@,
        d,
        1,
        0,
    ));
    assert(i * 1 + 0 == i);
    let score = (r.plus)(
        (r.dot)(inside, weight_column(r, prefix + ".w2"@, d, 1, 0)),
        (r.leaf)(b2, 0),
    );
    assert(r.element(pre, i) == score);
    let column = match activation {
        super::gate::GateActivation::Tanh => super::plan::unary(Op::Tanh, pre),
        super::gate::GateActivation::ScaledSigmoid => super::plan::product(
            super::plan::unary(Op::Sigmoid, pre),
            super::plan::matmul(
                super::plan::constant_expr(super::gate::ones(rows), seq![rows, 1nat]),
                super::plan::parameter_expr(prefix + ".alpha"@, seq![1nat, 1nat]),
            ),
        ),
    };
    match activation {
        super::gate::GateActivation::Tanh => {
            assert(column.args =~= seq![pre]);
            assert(r.element(column, i) == (r.curve)(Op::Tanh, score));
        },
        super::gate::GateActivation::ScaledSigmoid => {
            let one = units(rows);
            assert(super::gate::ones(rows) =~= Seq::new(
                rows,
                |p: int| Binary32 { bits: crate::binary32::ONE_BITS },
            ));
            assert(one == super::plan::constant_expr(super::gate::ones(rows), seq![rows, 1nat]));
            let alpha = super::plan::parameter_expr(prefix + ".alpha"@, seq![1nat, 1nat]);
            let scale = super::plan::matmul(one, alpha);
            let open = super::plan::unary(Op::Sigmoid, pre);
            assert(column.args =~= seq![open, scale]);
            assert(open.args =~= seq![pre]);
            lemma_product_at(r, one, alpha, rows, 1, 1, i, 0);
            assert(Seq::new(1, |p: int| r.element(one, i * 1 + p)) =~= seq![(r.leaf)(one, i)]);
            assert(Seq::new(1, |p: int| r.element(alpha, 0 + p * 1)) =~= seq![
                (r.leaf)(alpha, 0),
            ]);
            assert(r.element(scale, i) == (r.dot)(
                seq![(r.leaf)(one, i)],
                seq![(r.leaf)(alpha, 0)],
            ));
            assert(r.element(open, i) == (r.curve)(Op::Sigmoid, score));
            assert(r.element(column, i) == (r.times)(r.element(open, i), r.element(scale, i)));
        },
    }
    let gate = super::gate::gate_expr(prefix, d, activation, h, t, rows);
    assert(gate == super::plan::spread(column, d as u32));
    assert(gate.args =~= seq![column]);
    vstd::arithmetic::div_mod::lemma_fundamental_div_mod_converse(i * d + j, d as int, i, j);
    assert(d as u32 == d);
    assert(r.element(gate, i * d + j) == r.element(column, i));
}

/// The rows of a slice.
proof fn lemma_sliced<V>(r: Reading<V>, x: Expr, rows: nat, d: nat, start: nat, count: nat)
    requires
        x.shape == seq![rows, d],
        start + count <= rows <= u32::MAX,
        d <= u32::MAX,
    ensures
        super::rows::sliced(x, rows, d, start, count).shape == seq![count, d],
        values(r, super::rows::sliced(x, rows, d, start, count)) == Seq::new(
            count * d,
            |p: int| values(r, x)[start * d + p],
        ),
{
    let e = super::rows::sliced(x, rows, d, start, count);
    super::rows::lemma_elements(rows, d);
    super::rows::lemma_elements(count, d);
    assert(e.shape =~= seq![count, d]);
    let goal = Seq::new(count * d, |p: int| values(r, x)[start * d + p]);
    assert forall|p: int| 0 <= p < count * d implies #[trigger] goal[p] == values(r, e)[p] by {
        super::values::lemma_in_matrix(p, count as int, d as int);
        let (i, j) = (p / d as int, p % d as int);
        super::rows::law_slice_takes_rows(x, rows, d, start, count, i, j);
        super::values::lemma_origin(r, e, p);
        let from = (start + i) * d + j;
        super::values::lemma_origin(r, x, from);
        assert(from == start * d + p && 0 <= from < rows * d) by (nonlinear_arith)
            requires
                from == (start + i) * d + j,
                p == i * d + j,
                0 <= i < count,
                0 <= j < d,
                start + count <= rows,
        ;
    }
    assert(values(r, e) =~= goal);
}

/// A block adds what a chunk gathers from its own neighbours. The rows of a
/// chunk, normalised and projected, ask; the rows of that chunk's neighbours,
/// normalised and projected, answer as keys and values, and no others do. What a
/// row gathers is projected, admitted by the soft gate and by the row's
/// retrieval mask, and added to the row.
pub proof fn law_a_block_adds_what_a_chunk_gathers<V>(
    r: Reading<V>,
    h: Expr,
    t: Expr,
    mask: Expr,
    kv: Expr,
    prefix: Seq<char>,
    cfg: crate::config::CcaConfig,
    activation: super::gate::GateActivation,
    chunk: nat,
    i: int,
    j: int,
)
    requires
        super::cca::block_fits(cfg),
        h.shape == seq![cfg.n() as nat, cfg.d() as nat],
        kv.shape == seq![(cfg.l() * cfg.k() * cfg.r()) as nat, cfg.d() as nat],
        chunk < cfg.l(),
        0 <= i < cfg.m(),
        0 <= j < cfg.d(),
    ensures
        ({
            let (n, m, d) = (cfg.n() as nat, cfg.m() as nat, cfg.d() as nat);
            let own = (cfg.k() * cfg.r()) as nat;
            let all = (cfg.l() * cfg.k() * cfg.r()) as nat;
            let wide = (cfg.kv_heads() * cfg.head_width()) as nat;
            let eps = Binary32 { bits: 0x3727_C5AC };
            let asking = normalised(
                r,
                values(r, h),
                weight(r, prefix + ".q_norm"@, seq![d]),
                eps,
                n,
                d,
            );
            let answering = normalised(
                r,
                values(r, kv),
                weight(r, prefix + ".kv_norm"@, seq![d]),
                eps,
                all,
                d,
            );
            let q = times(r, asking, weight(r, prefix + ".q_proj"@, seq![d, d]), n, d, d);
            let k = times(r, answering, weight(r, prefix + ".k_proj"@, seq![d, wide]), all, d, wide);
            let v = times(r, answering, weight(r, prefix + ".v_proj"@, seq![d, wide]), all, d, wide);
            let gathered = made(
                r,
                Op::MultiHeadAttn {
                    num_heads: cfg.heads() as u32,
                    num_kv_heads: cfg.kv_heads() as u32,
                    head_dim: cfg.head_width() as u32,
                    is_cross: true,
                },
                seq![m, d],
                seq![
                    Seq::new(m * d, |p: int| q[(chunk * m) * d + p]),
                    Seq::new(own * wide, |p: int| k[(chunk * own) * wide + p]),
                    Seq::new(own * wide, |p: int| v[(chunk * own) * wide + p]),
                ],
            );
            let row = chunk * m + i;
            let context = (r.dot)(
                row_of(gathered, i, d),
                column_of(weight(r, prefix + ".o_proj"@, seq![d, d]), j, d, d),
            );
            let gate = r.element(
                super::gate::gate_expr(prefix + ".gate"@, d, activation, h, t, n),
                row * d + j,
            );
            r.element(
                super::cca::block_expr(h, t, mask, kv, prefix, cfg, activation),
                row * d + j,
            ) == (r.plus)(
                r.element(h, row * d + j),
                (r.times)((r.times)(gate, r.element(mask, row)), context),
            )
        }),
{
    let (n, m, d) = (cfg.n() as nat, cfg.m() as nat, cfg.d() as nat);
    let own = (cfg.k() * cfg.r()) as nat;
    let all = (cfg.l() * cfg.k() * cfg.r()) as nat;
    let wide = super::cca::kv_width(cfg);
    let row = chunk * m + i;
    let gathered = super::cca::gathered_expr(h, kv, prefix, cfg, chunk);
    let context = super::cca::context_expr(h, kv, prefix, cfg);
    let o_proj = super::plan::parameter_expr(prefix + ".o_proj"@, seq![d, d]);
    let stack = context.args[0];
    lemma_gathered_values(r, h, kv, prefix, cfg, chunk);
    super::values::lemma_sizes(cfg);
    assert(context.args =~= seq![stack, o_proj]);
    cfg.lemma_chunks();
    assert(0 <= row < n) by (nonlinear_arith)
        requires
            row == chunk * m + i,
            0 <= i < m,
            chunk < cfg.l(),
            n == cfg.l() * m,
    ;
    // The row of the context is a row of what the chunk gathers.
    vstd::arithmetic::div_mod::lemma_fundamental_div_mod_converse(row * d + j, d as int, row, j);
    assert(stack.shape[1] == d && context.shape[1] == d);
    let mine = r.run(stack, row * d, 1, d);
    assert(mine =~= row_of(values(r, gathered), i, d)) by {
        assert forall|p: int| 0 <= p < d implies mine[p] == row_of(
            values(r, gathered),
            i,
            d,
        )[p] by {
            super::cca::law_a_chunk_attends_to_its_own_neighbours(
                h,
                kv,
                prefix,
                cfg,
                chunk,
                i,
                p,
                0,
                0,
            );
            super::values::lemma_origin(r, stack, row * d + p);
            lemma_within_matrix(i, p, m, d);
            super::rows::lemma_elements(m, d);
        }
    }
    let column = r.run(o_proj, j, d as int, d);
    lemma_parameter(r, prefix + ".o_proj"@, seq![d, d]);
    super::rows::lemma_elements(d, d);
    assert(column =~= column_of(weight(r, prefix + ".o_proj"@, seq![d, d]), j, d, d)) by {
        assert forall|p: int| 0 <= p < d implies column[p] == column_of(
            weight(r, prefix + ".o_proj"@, seq![d, d]),
            j,
            d,
            d,
        )[p] by {
            lemma_within_matrix(p, j, d, d);
            assert(values(r, o_proj)[j + p * d] == r.element(o_proj, j + p * d));
        }
    }
    assert(r.element(context, row * d + j) == (r.dot)(mine, column));
    let gate = super::gate::gate_expr(prefix + ".gate"@, d, activation, h, t, n);
    let spread = super::plan::spread(mask, cfg.d() as u32);
    let admission = super::cca::admission_expr(h, t, mask, prefix, cfg, activation);
    let term = super::plan::product(admission, context);
    let block = super::cca::block_expr(h, t, mask, kv, prefix, cfg, activation);
    assert(spread.args =~= seq![mask]);
    assert(admission.args =~= seq![gate, spread]);
    assert(term.args =~= seq![admission, context]);
    assert(block.args =~= seq![h, term]);
    assert(cfg.d() as u32 == d);
    assert(r.element(spread, row * d + j) == r.element(mask, row));
    assert(r.element(admission, row * d + j) == (r.times)(
        r.element(gate, row * d + j),
        r.element(mask, row),
    ));
    assert(r.element(term, row * d + j) == (r.times)(
        r.element(admission, row * d + j),
        r.element(context, row * d + j),
    ));
}

proof fn lemma_gathered_values<V>(
    r: Reading<V>,
    h: Expr,
    kv: Expr,
    prefix: Seq<char>,
    cfg: crate::config::CcaConfig,
    chunk: nat,
)
    requires
        super::cca::block_fits(cfg),
        h.shape == seq![cfg.n() as nat, cfg.d() as nat],
        kv.shape == seq![(cfg.l() * cfg.k() * cfg.r()) as nat, cfg.d() as nat],
        chunk < cfg.l(),
    ensures
        ({
            let (n, m, d) = (cfg.n() as nat, cfg.m() as nat, cfg.d() as nat);
            let own = (cfg.k() * cfg.r()) as nat;
            let all = (cfg.l() * cfg.k() * cfg.r()) as nat;
            let wide = (cfg.kv_heads() * cfg.head_width()) as nat;
            let eps = Binary32 { bits: 0x3727_C5AC };
            let asking = normalised(
                r,
                values(r, h),
                weight(r, prefix + ".q_norm"@, seq![d]),
                eps,
                n,
                d,
            );
            let answering = normalised(
                r,
                values(r, kv),
                weight(r, prefix + ".kv_norm"@, seq![d]),
                eps,
                all,
                d,
            );
            let q = times(r, asking, weight(r, prefix + ".q_proj"@, seq![d, d]), n, d, d);
            let k = times(r, answering, weight(r, prefix + ".k_proj"@, seq![d, wide]), all, d, wide);
            let v = times(r, answering, weight(r, prefix + ".v_proj"@, seq![d, wide]), all, d, wide);
            values(r, super::cca::gathered_expr(h, kv, prefix, cfg, chunk)) == made(
                r,
                Op::MultiHeadAttn {
                    num_heads: cfg.heads() as u32,
                    num_kv_heads: cfg.kv_heads() as u32,
                    head_dim: cfg.head_width() as u32,
                    is_cross: true,
                },
                seq![m, d],
                seq![
                    Seq::new(m * d, |p: int| q[(chunk * m) * d + p]),
                    Seq::new(own * wide, |p: int| k[(chunk * own) * wide + p]),
                    Seq::new(own * wide, |p: int| v[(chunk * own) * wide + p]),
                ],
            )
        }),
        super::cca::gathered_expr(h, kv, prefix, cfg, chunk).shape == seq![
            cfg.m() as nat,
            cfg.d() as nat,
        ],
{
    let (n, m, d) = (cfg.n() as nat, cfg.m() as nat, cfg.d() as nat);
    let own = (cfg.k() * cfg.r()) as nat;
    let all = (cfg.l() * cfg.k() * cfg.r()) as nat;
    let wide = super::cca::kv_width(cfg);
    let eps = Binary32 { bits: 0x3727_C5AC };
    super::values::lemma_sizes(cfg);
    cfg.lemma_chunks();
    let q_norm = super::plan::parameter_expr(prefix + ".q_norm"@, seq![d]);
    let kv_norm = super::plan::parameter_expr(prefix + ".kv_norm"@, seq![d]);
    let q_proj = super::plan::parameter_expr(prefix + ".q_proj"@, seq![d, d]);
    let k_proj = super::plan::parameter_expr(prefix + ".k_proj"@, seq![d, wide]);
    let v_proj = super::plan::parameter_expr(prefix + ".v_proj"@, seq![d, wide]);
    lemma_parameter(r, prefix + ".q_norm"@, seq![d]);
    lemma_parameter(r, prefix + ".kv_norm"@, seq![d]);
    lemma_parameter(r, prefix + ".q_proj"@, seq![d, d]);
    lemma_parameter(r, prefix + ".k_proj"@, seq![d, wide]);
    lemma_parameter(r, prefix + ".v_proj"@, seq![d, wide]);
    let asking = super::plan::normed(h, q_norm, eps);
    let answering = super::plan::normed(kv, kv_norm, eps);
    lemma_normalised(r, h, q_norm, eps, n, d);
    lemma_normalised(r, kv, kv_norm, eps, all, d);
    let q = super::plan::matmul(asking, q_proj);
    let k = super::plan::matmul(answering, k_proj);
    let v = super::plan::matmul(answering, v_proj);
    lemma_times(r, asking, q_proj, n, d, d);
    lemma_times(r, answering, k_proj, all, d, wide);
    lemma_times(r, answering, v_proj, all, d, wide);
    assert(q == super::cca::query_expr(h, prefix, cfg));
    assert(k == super::cca::projected_expr(kv, prefix, ".k_proj"@, cfg));
    assert(v == super::cca::projected_expr(kv, prefix, ".v_proj"@, cfg));
    assert(q.shape =~= seq![n, d]);
    assert(k.shape =~= seq![all, wide]);
    assert(v.shape =~= seq![all, wide]);
    let (l, kk, rr) = (cfg.l() as int, cfg.k() as int, cfg.r() as int);
    assert(chunk * m + m <= n) by (nonlinear_arith)
        requires
            chunk < l,
            n == l * m,
    ;
    assert(chunk * own + own <= all) by (nonlinear_arith)
        requires
            chunk < l,
            own == kk * rr,
            all == l * kk * rr,
    ;
    super::cca::lemma_narrow(cfg);
    lemma_sliced(r, q, n, d, chunk * m, m);
    lemma_sliced(r, k, all, wide, chunk * own, own);
    lemma_sliced(r, v, all, wide, chunk * own, own);
    let sq = super::rows::sliced(q, n, d, chunk * m, m);
    let sk = super::rows::sliced(k, all, wide, chunk * own, own);
    let sv = super::rows::sliced(v, all, wide, chunk * own, own);
    let gathered = super::cca::gathered_expr(h, kv, prefix, cfg, chunk);
    assert(gathered.args =~= seq![sq, sk, sv]);
    let (heads, w) = (cfg.heads() as int, cfg.head_width() as int);
    assert(heads <= heads * w && w <= heads * w) by (nonlinear_arith)
        requires
            heads > 0,
            w > 0,
    ;
    assert(gathered.shape =~= seq![m, d]);
    lemma_made(r, gathered);
    assert(Seq::new(gathered.args.len(), |x: int| values(r, gathered.args[x])) =~= seq![
        Seq::new(m * d, |p: int| values(r, q)[(chunk * m) * d + p]),
        Seq::new(own * wide, |p: int| values(r, k)[(chunk * own) * wide + p]),
        Seq::new(own * wide, |p: int| values(r, v)[(chunk * own) * wide + p]),
    ]);
}

/// An encoder runs its layers one after the other over what it is given, each
/// under its own number and none of them turned by position, and normalises what
/// the last one leaves. The stages are what is given and what every layer leaves.
pub proof fn law_an_encoder_runs_its_layers_in_order(
    x: Expr,
    prefix: Seq<char>,
    cfg: super::encoder::NeighbourEncoderConfig,
) -> (stages: Seq<Expr>)
    ensures
        stages.len() == cfg.num_layers + 1,
        stages[0] == x,
        forall|i: int|
            0 <= i < cfg.num_layers ==> #[trigger] stages[i + 1]
                == super::transformer::layer_expr(
                stages[i],
                prefix + ".layers."@ + crate::text::decimal_chars(i as nat),
                cfg.layer_shape(),
                (Binary32 { bits: 0x3727_C5AC }),
                None,
                false,
            ),
        super::encoder::encoder_expr(x, prefix, cfg) == super::plan::normed(
            stages[cfg.num_layers as int],
            super::plan::parameter_expr(prefix + ".out_norm"@, seq![cfg.layer_shape().d()]),
            (Binary32 { bits: 0x3727_C5AC }),
        ),
{
    let stages = Seq::new(
        (cfg.num_layers + 1) as nat,
        |i: int| super::encoder::encoder_layers_expr(x, prefix, cfg, i as nat),
    );
    assert forall|i: int| 0 <= i < cfg.num_layers implies #[trigger] stages[i + 1]
        == super::transformer::layer_expr(
        stages[i],
        prefix + ".layers."@ + crate::text::decimal_chars(i as nat),
        cfg.layer_shape(),
        (Binary32 { bits: 0x3727_C5AC }),
        None,
        false,
    ) by {
        assert((i + 1) as nat - 1 == i);
    }
    stages
}

/// Row `i` of group `group` of the encoded neighbours is what the encoder makes
/// of the embedded tokens of that group: of a whole neighbour, or of all the
/// neighbours of a chunk, as the scope says, and of no token outside the group.
pub proof fn law_a_group_is_encoded_from_its_own_tokens<V>(
    r: Reading<V>,
    cfg: super::ModelConfig,
    group: nat,
    i: int,
    j: int,
) -> (x: Expr)
    requires
        cfg.fault() is None,
        cfg.neighbours is Encoded,
        0 <= j < cfg.cca.d(),
        ({
            let rows = match cfg.encoder.scope {
                super::encoder::EncoderScope::PerNeighbour => cfg.cca.r() as int,
                super::encoder::EncoderScope::PerChunk => cfg.cca.k() * cfg.cca.r(),
            };
            &&& 0 <= i < rows
            &&& group * rows + rows <= cfg.cca.l() * cfg.cca.k() * cfg.cca.r()
        }),
    ensures
        ({
            let rows = match cfg.encoder.scope {
                super::encoder::EncoderScope::PerNeighbour => cfg.cca.r() as nat,
                super::encoder::EncoderScope::PerChunk => (cfg.cca.k() * cfg.cca.r()) as nat,
            };
            let d = cfg.cca.d() as nat;
            let all = (cfg.cca.l() * cfg.cca.k() * cfg.cca.r()) as nat;
            let tokens = super::plan::embedded(
                super::plan::input_expr("cca.neighbour_tokens"@, seq![all], true),
                super::plan::parameter_expr(
                    "neighbour_encoder"@ + ".embed"@,
                    seq![cfg.encoder.vocab_size as nat, d],
                ),
            );
            &&& x.shape == seq![rows, d]
            &&& values(r, x) == Seq::new(
                rows * d,
                |p: int| values(r, tokens)[(group * rows) * d + p],
            )
            &&& r.element(super::kv_expr(cfg), (group * rows + i) * d + j) == r.element(
                super::encoder::encoder_expr(x, "neighbour_encoder"@, cfg.encoder),
                i * d + j,
            )
        }),
{
    let rows = cfg.group_rows();
    let d = cfg.cca.d() as nat;
    let all = cfg.kv_rows();
    let count = all / rows;
    let tokens = super::neighbours_embedded(cfg);
    let x = super::rows::sliced(tokens, all, d, group * rows, rows);
    assert(tokens.shape =~= seq![all, d]);
    lemma_sliced(r, tokens, all, d, group * rows, rows);
    super::values::lemma_sizes(cfg.cca);
    assert(rows > 0);
    assert(group < count && count * rows <= all) by {
        vstd::arithmetic::div_mod::lemma_fundamental_div_mod(all as int, rows as int);
        assert(rows * count == count * rows) by (nonlinear_arith);
        if group >= count {
            assert(group * rows + rows >= count * rows + rows) by (nonlinear_arith)
                requires
                    group >= count,
            ;
        }
    }
    let parts = Seq::new(count, |g: int| (super::group_expr(cfg, g as nat), rows));
    super::cca::lemma_even_rows(parts, rows, group);
    super::cca::lemma_even_rows(parts, rows, count);
    super::rows::law_stack_keeps_parts(parts, d, group as int, i, j);
    let encoded = super::group_expr(cfg, group);
    assert(super::kv_expr(cfg) == super::rows::stacked(parts, d));
    super::values::lemma_origin(r, super::kv_expr(cfg), (group * rows + i) * d + j);
    super::values::lemma_origin(r, encoded, i * d + j);
    x
}

/// The residual enters as the embedded tokens, goes through the backbone's
/// layers in order, each turned by position, and through a block right after
/// every layer that comes a whole number of periods after the first one with a
/// block, and after no other; the logits are read off what is left. All blocks
/// see the same noise levels, mask and neighbours. The stages are the embedded
/// tokens and what is left after every layer and its block.
pub proof fn law_blocks_stand_between_the_backbone_layers(cfg: super::ModelConfig) -> (stages: Seq<
    Expr,
>)
    ensures
        stages.len() == cfg.backbone.num_layers + 1,
        stages[0] == super::plan::embedded(
            super::plan::input_expr("token_ids"@, seq![cfg.cca.n() as nat], true),
            super::transformer::leaf(
                "backbone"@ + ".embed"@,
                seq![cfg.backbone.vocab_size as nat, cfg.backbone.layer_shape().d()],
                true,
            ),
        ),
        forall|layer: int|
            0 <= layer < cfg.backbone.num_layers ==> #[trigger] stages[layer + 1] == ({
                let x = super::transformer::layer_expr(
                    stages[layer],
                    "backbone"@ + ".layers."@ + crate::text::decimal_chars(layer as nat),
                    cfg.backbone.layer_shape(),
                    cfg.backbone.rms_norm_eps,
                    Some(cfg.backbone.rope_theta),
                    true,
                );
                if layer >= cfg.cca.first_layer() && (layer - cfg.cca.first_layer())
                    % cfg.cca.period() as int == 0 {
                    super::cca::block_expr(
                        x,
                        super::plan::input_expr("cca.t"@, seq![cfg.cca.n() as nat, 1nat], false),
                        super::plan::input_expr(
                            "cca.retrieval_mask"@,
                            seq![cfg.cca.n() as nat, 1nat],
                            false,
                        ),
                        super::kv_expr(cfg),
                        "cca."@ + crate::text::decimal_chars(layer as nat),
                        cfg.cca,
                        cfg.activation,
                    )
                } else {
                    x
                }
            }),
        super::logits_expr(cfg) == super::backbone::head_expr(
            stages[cfg.backbone.num_layers as int],
            "backbone"@,
            cfg.backbone,
            true,
        ),
{
    let stages = Seq::new(
        (cfg.backbone.num_layers + 1) as nat,
        |i: int| super::residual_expr(cfg, i as nat),
    );
    assert forall|layer: int| 0 <= layer < cfg.backbone.num_layers implies #[trigger] stages[layer
        + 1] == super::residual_expr(cfg, (layer + 1) as nat) && (layer + 1) as nat - 1
        == layer by {}
    stages
}

/// Embedding looks the ids up in the table: the ids come first, and the table of
/// weights is frozen or not as is asked, which changes no value.
pub proof fn law_ids_are_looked_up_in_the_table<V>(
    r: Reading<V>,
    ids: Expr,
    rows: nat,
    name: Seq<char>,
    vocab: nat,
    d: nat,
    frozen: bool,
)
    requires
        ids.shape == seq![rows],
    ensures
        ({
            let table = super::transformer::leaf(name, seq![vocab, d], frozen);
            values(r, super::plan::embedded(ids, table)) == made(
                r,
                Op::Embedding,
                seq![rows, d],
                seq![values(r, ids), weight(r, name, seq![vocab, d])],
            )
        }),
{
    let table = super::transformer::leaf(name, seq![vocab, d], frozen);
    let e = super::plan::embedded(ids, table);
    lemma_leaf(r, name, seq![vocab, d], frozen);
    assert(table.shape =~= seq![vocab, d]);
    assert(e.shape =~= seq![rows, d]);
    lemma_made(r, e);
    assert(Seq::new(e.args.len(), |k: int| values(r, e.args[k])) =~= seq![
        values(r, ids),
        values(r, table),
    ]);
}

} // verus!
