//! What a plan computes, element by element.
//!
//! A reading gives every input, parameter and constant its elements, and says
//! what the elementary functions do on them. Which numbers the elements are is
//! left open: what is shown here holds of every reading.
use super::plan::{Expr, Op};
use crate::binary32::Binary32;
use crate::config::CcaConfig;
use vstd::prelude::*;

verus! {

/// The elements of the leaves of a plan, and the elementary functions on them.
#[verifier::reject_recursive_types(V)]
pub struct Reading<V> {
    /// The elements of an input, a parameter or a constant.
    pub leaf: spec_fn(Expr, int) -> V,
    /// The number zero.
    pub zero: V,
    /// The sum of two numbers.
    pub plus: spec_fn(V, V) -> V,
    /// The product of two numbers.
    pub times: spec_fn(V, V) -> V,
    /// A function of one number.
    pub curve: spec_fn(Op, V) -> V,
    /// The product of a row and a column.
    pub dot: spec_fn(Seq<V>, Seq<V>) -> V,
    /// An element of a normalised row: what is added under the root, the row,
    /// the weight, and where in the row.
    pub norm: spec_fn(Binary32, Seq<V>, Seq<V>, int) -> V,
    /// An element of what any other operator makes of its operands.
    pub whole: spec_fn(Op, Seq<nat>, Seq<Seq<V>>, int) -> V,
}

impl<V> Reading<V> {
    /// Element `i` of a value, counted row by row.
    pub open spec fn element(self, e: Expr, i: int) -> V
        decreases e, 1nat,
    {
        match e.op {
            Op::Input => (self.leaf)(e, i),
            Op::Parameter => (self.leaf)(e, i),
            Op::Constant => (self.leaf)(e, i),
            Op::Add => if e.args.len() == 2 {
                (self.plus)(self.element(e.args[0], i), self.element(e.args[1], i))
            } else {
                self.zero
            },
            Op::Mul => if e.args.len() == 2 {
                (self.times)(self.element(e.args[0], i), self.element(e.args[1], i))
            } else {
                self.zero
            },
            Op::BiasAdd => if e.args.len() == 2 {
                (self.plus)(
                    self.element(e.args[0], i),
                    self.element(e.args[1], i % e.shape[1] as int),
                )
            } else {
                self.zero
            },
            Op::Silu => if e.args.len() == 1 {
                (self.curve)(e.op, self.element(e.args[0], i))
            } else {
                self.zero
            },
            Op::Sigmoid => if e.args.len() == 1 {
                (self.curve)(e.op, self.element(e.args[0], i))
            } else {
                self.zero
            },
            Op::Tanh => if e.args.len() == 1 {
                (self.curve)(e.op, self.element(e.args[0], i))
            } else {
                self.zero
            },
            Op::Reshape => if e.args.len() == 1 {
                self.element(e.args[0], i)
            } else {
                self.zero
            },
            Op::StopGradient => if e.args.len() == 1 {
                self.element(e.args[0], i)
            } else {
                self.zero
            },
            Op::BroadcastInner { inner } => if e.args.len() == 1 {
                self.element(e.args[0], i / inner as int)
            } else {
                self.zero
            },
            Op::SplitA { batch, channels_a, channels_b, spatial } => if e.args.len() == 1 {
                let kept = channels_a * spatial;
                let all = (channels_a + channels_b) * spatial;
                self.element(e.args[0], (i / kept) * all + i % kept)
            } else {
                self.zero
            },
            Op::SplitB { batch, channels_a, channels_b, spatial } => if e.args.len() == 1 {
                let kept = channels_b * spatial;
                let all = (channels_a + channels_b) * spatial;
                self.element(e.args[0], (i / kept) * all + channels_a * spatial + i % kept)
            } else {
                self.zero
            },
            Op::Concat { batch, channels_a, channels_b, spatial } => if e.args.len() == 2 {
                let first = channels_a * spatial;
                let second = channels_b * spatial;
                let all = (channels_a + channels_b) * spatial;
                let (n, at) = (i / all, i % all);
                if at < first {
                    self.element(e.args[0], n * first + at)
                } else {
                    self.element(e.args[1], n * second + at - first)
                }
            } else {
                self.zero
            },
            Op::MatMul => if e.args.len() == 2 {
                let (inner, columns) = (e.args[0].shape[1], e.shape[1] as int);
                (self.dot)(
                    self.run(e.args[0], (i / columns) * inner, 1, inner),
                    self.run(e.args[1], i % columns, columns, inner),
                )
            } else {
                self.zero
            },
            Op::RmsNorm { eps } => if e.args.len() == 2 {
                let columns = e.shape[1];
                (self.norm)(
                    eps,
                    self.run(e.args[0], (i / columns as int) * columns, 1, columns),
                    self.run(e.args[1], 0, 1, columns),
                    i % columns as int,
                )
            } else {
                self.zero
            },
            _ => (self.whole)(e.op, e.shape, self.operands(e), i),
        }
    }

    /// `count` elements of a value, from `start` on, `step` apart.
    pub open spec fn run(self, e: Expr, start: int, step: int, count: nat) -> Seq<V>
        decreases e, 2nat,
    {
        Seq::new(count, |p: int| self.element(e, start + p * step))
    }

    /// The elements of every operand.
    pub open spec fn operands(self, e: Expr) -> Seq<Seq<V>>
        decreases e, 0nat,
    {
        Seq::new(
            e.args.len(),
            |k: int|
                if 0 <= k < e.args.len() {
                    self.run(e.args[k], 0, 1, super::plan::elements(e.args[k].shape))
                } else {
                    Seq::empty()
                },
        )
    }

    /// A product with zero is zero and a sum with zero is the other summand, as
    /// they are of finite numbers; and the functions through zero go through
    /// zero.
    pub open spec fn respects_zero(self) -> bool {
        &&& forall|x: V| #[trigger] (self.times)(self.zero, x) == self.zero
        &&& forall|x: V| #[trigger] (self.times)(x, self.zero) == self.zero
        &&& forall|x: V| #[trigger] (self.plus)(x, self.zero) == x
        &&& (self.curve)(Op::Silu, self.zero) == self.zero
        &&& (self.curve)(Op::Tanh, self.zero) == self.zero
        &&& forall|a: Seq<V>, b: Seq<V>|
            (forall|p: int| 0 <= p < a.len() ==> #[trigger] a[p] == self.zero) || (forall|p: int|
                0 <= p < b.len() ==> #[trigger] b[p] == self.zero) ==> #[trigger] (self.dot)(a, b)
                == self.zero
    }

    /// Every input and parameter named in `zeros` is zero.
    pub open spec fn zero_at(self, zeros: Set<Seq<char>>) -> bool {
        forall|e: Expr, i: int|
            (e.op is Input || e.op is Parameter) && zeros.contains(e.source) ==> #[trigger] (
            self.leaf)(e, i) == self.zero
    }

    /// Two readings differ in their inputs alone.
    pub open spec fn differs_in_inputs(self, other: Self) -> bool {
        &&& other == (Reading { leaf: other.leaf, ..self })
        &&& forall|e: Expr, i: int| !(e.op is Input) ==> #[trigger] (self.leaf)(e, i) == (
        other.leaf)(e, i)
    }

    /// Two readings give a value the same elements.
    pub open spec fn agrees(self, other: Self, e: Expr) -> bool {
        forall|i: int| #[trigger] self.element(e, i) == other.element(e, i)
    }
}

/// A value that vanishes is zero in every element.
proof fn lemma_vanishes<V>(r: Reading<V>, e: Expr, zeros: Set<Seq<char>>, i: int)
    requires
        r.respects_zero(),
        r.zero_at(zeros),
        super::retrofit::vanishes(e, zeros),
    ensures
        r.element(e, i) == r.zero,
    decreases e,
{
    match e.op {
        Op::MatMul => {
            let (inner, columns) = (e.args[0].shape[1], e.shape[1] as int);
            let row = r.run(e.args[0], (i / columns) * inner, 1, inner);
            let column = r.run(e.args[1], i % columns, columns, inner);
            if super::retrofit::vanishes(e.args[0], zeros) {
                assert forall|p: int| 0 <= p < row.len() implies #[trigger] row[p] == r.zero by {
                    lemma_vanishes(r, e.args[0], zeros, (i / columns) * inner + p * 1);
                }
            } else {
                assert forall|p: int| 0 <= p < column.len() implies #[trigger] column[p]
                    == r.zero by {
                    lemma_vanishes(r, e.args[1], zeros, i % columns + p * columns);
                }
            }
            assert((r.dot)(row, column) == r.zero);
        },
        Op::Mul => {
            if super::retrofit::vanishes(e.args[0], zeros) {
                lemma_vanishes(r, e.args[0], zeros, i);
            } else {
                lemma_vanishes(r, e.args[1], zeros, i);
            }
        },
        Op::Add => {
            lemma_vanishes(r, e.args[0], zeros, i);
            lemma_vanishes(r, e.args[1], zeros, i);
        },
        Op::BiasAdd => {
            lemma_vanishes(r, e.args[0], zeros, i);
            lemma_vanishes(r, e.args[1], zeros, i % e.shape[1] as int);
        },
        Op::BroadcastInner { inner } => {
            lemma_vanishes(r, e.args[0], zeros, i / inner as int);
        },
        Op::Silu => {
            lemma_vanishes(r, e.args[0], zeros, i);
        },
        Op::Tanh => {
            lemma_vanishes(r, e.args[0], zeros, i);
        },
        Op::Reshape => {
            lemma_vanishes(r, e.args[0], zeros, i);
        },
        Op::StopGradient => {
            lemma_vanishes(r, e.args[0], zeros, i);
        },
        _ => {},
    }
}

/// An element that was only moved is the element it was.
pub proof fn lemma_origin<V>(r: Reading<V>, e: Expr, i: int)
    ensures
        r.element(e, i) == r.element(
            super::rows::origin(e, i).0,
            super::rows::origin(e, i).1,
        ),
    decreases e,
{
    match e.op {
        Op::Reshape => {
            if e.args.len() == 1 {
                lemma_origin(r, e.args[0], i);
            }
        },
        Op::SplitA { batch, channels_a, channels_b, spatial } => {
            if e.args.len() == 1 {
                let kept = channels_a * spatial;
                let all = (channels_a + channels_b) * spatial;
                lemma_origin(r, e.args[0], (i / kept) * all + i % kept);
            }
        },
        Op::SplitB { batch, channels_a, channels_b, spatial } => {
            if e.args.len() == 1 {
                let kept = channels_b * spatial;
                let all = (channels_a + channels_b) * spatial;
                lemma_origin(r, e.args[0], (i / kept) * all + channels_a * spatial + i % kept);
            }
        },
        Op::Concat { batch, channels_a, channels_b, spatial } => {
            if e.args.len() == 2 {
                let first = channels_a * spatial;
                let second = channels_b * spatial;
                let all = (channels_a + channels_b) * spatial;
                let (n, at) = (i / all, i % all);
                if at < first {
                    lemma_origin(r, e.args[0], n * first + at);
                } else {
                    lemma_origin(r, e.args[1], n * second + at - first);
                }
            }
        },
        _ => {},
    }
}

/// What is made of the same operands is the same.
proof fn lemma_agrees<V>(r: Reading<V>, s: Reading<V>, e: Expr)
    requires
        r.differs_in_inputs(s),
        !(e.op is Input),
        forall|k: int| 0 <= k < e.args.len() ==> r.agrees(s, #[trigger] e.args[k]),
    ensures
        r.agrees(s, e),
{
    assert forall|i: int| #[trigger] r.element(e, i) == s.element(e, i) by {
        if e.args.len() == 1 {
            assert(r.agrees(s, e.args[0]));
        }
        if e.args.len() == 2 {
            assert(r.agrees(s, e.args[0]));
            assert(r.agrees(s, e.args[1]));
        }
        match e.op {
            Op::MatMul => {
                if e.args.len() == 2 {
                    let (inner, columns) = (e.args[0].shape[1], e.shape[1] as int);
                    lemma_run(r, s, e.args[0], (i / columns) * inner, 1, inner);
                    lemma_run(r, s, e.args[1], i % columns, columns, inner);
                }
            },
            Op::RmsNorm { eps } => {
                if e.args.len() == 2 {
                    let columns = e.shape[1];
                    lemma_run(r, s, e.args[0], (i / columns as int) * columns, 1, columns);
                    lemma_run(r, s, e.args[1], 0, 1, columns);
                }
            },
            Op::BiasAdd => {
                if e.args.len() == 2 {
                    assert(r.element(e.args[0], i) == s.element(e.args[0], i));
                    let at = i % e.shape[1] as int;
                    assert(r.element(e.args[1], at) == s.element(e.args[1], at));
                }
            },
            Op::BroadcastInner { inner } => {
                if e.args.len() == 1 {
                    let at = i / inner as int;
                    assert(r.element(e.args[0], at) == s.element(e.args[0], at));
                }
            },
            Op::SplitA { batch, channels_a, channels_b, spatial } => {
                if e.args.len() == 1 {
                    let kept = channels_a * spatial;
                    let at = (i / kept) * ((channels_a + channels_b) * spatial) + i % kept;
                    assert(r.element(e.args[0], at) == s.element(e.args[0], at));
                }
            },
            Op::SplitB { batch, channels_a, channels_b, spatial } => {
                if e.args.len() == 1 {
                    let kept = channels_b * spatial;
                    let all = (channels_a + channels_b) * spatial;
                    let at = (i / kept) * all + channels_a * spatial + i % kept;
                    assert(r.element(e.args[0], at) == s.element(e.args[0], at));
                }
            },
            Op::Concat { batch, channels_a, channels_b, spatial } => {
                if e.args.len() == 2 {
                    let first = channels_a * spatial;
                    let second = channels_b * spatial;
                    let all = (channels_a + channels_b) * spatial;
                    let (n, at) = (i / all, i % all);
                    let (low, high) = (n * first + at, n * second + at - first);
                    assert(r.element(e.args[0], low) == s.element(e.args[0], low));
                    assert(r.element(e.args[1], high) == s.element(e.args[1], high));
                }
            },
            _ => {
                if e.args.len() == 1 {
                    assert(r.element(e.args[0], i) == s.element(e.args[0], i));
                } else if e.args.len() == 2 {
                    assert(r.element(e.args[0], i) == s.element(e.args[0], i));
                    assert(r.element(e.args[1], i) == s.element(e.args[1], i));
                }
                lemma_operands(r, s, e);
            },
        }
    }
}

/// Elements that agree make runs that are the same.
proof fn lemma_run<V>(
    r: Reading<V>,
    s: Reading<V>,
    e: Expr,
    start: int,
    step: int,
    count: nat,
)
    requires
        forall|p: int|
            0 <= p < count ==> r.element(e, start + #[trigger] (p * step)) == s.element(
                e,
                start + p * step,
            ),
    ensures
        r.run(e, start, step, count) == s.run(e, start, step, count),
{
    assert(r.run(e, start, step, count) =~= s.run(e, start, step, count));
}

/// Operands that agree are the same operands.
proof fn lemma_operands<V>(r: Reading<V>, s: Reading<V>, e: Expr)
    requires
        forall|k: int, p: int|
            0 <= k < e.args.len() && 0 <= p < super::plan::elements(e.args[k].shape)
                ==> #[trigger] r.element(e.args[k], p) == s.element(e.args[k], p),
    ensures
        r.operands(e) == s.operands(e),
{
    assert forall|k: int| 0 <= k < e.args.len() implies r.operands(e)[k] == s.operands(e)[k] by {
        lemma_run(r, s, e.args[k], 0, 1, super::plan::elements(e.args[k].shape));
    }
    assert(r.operands(e) =~= s.operands(e));
}

/// A fresh block passes every value: once the soft gate's zero-initialised
/// parameters are zero, what comes out of a block is what went in.
pub proof fn law_a_fresh_block_passes_every_value<V>(
    r: Reading<V>,
    h: Expr,
    t: Expr,
    mask: Expr,
    kv: Expr,
    prefix: Seq<char>,
    cfg: CcaConfig,
    activation: super::gate::GateActivation,
    zeros: Set<Seq<char>>,
    i: int,
)
    requires
        r.respects_zero(),
        r.zero_at(zeros),
        gate_is_fresh(zeros, prefix, activation),
    ensures
        r.element(super::cca::block_expr(h, t, mask, kv, prefix, cfg, activation), i)
            == r.element(h, i),
{
    super::retrofit::law_a_block_starts_as_the_identity(
        h,
        t,
        mask,
        kv,
        prefix,
        cfg,
        activation,
        zeros,
    );
    let term = super::plan::product(
        super::cca::admission_expr(h, t, mask, prefix, cfg, activation),
        super::cca::context_expr(h, kv, prefix, cfg),
    );
    let block = super::cca::block_expr(h, t, mask, kv, prefix, cfg, activation);
    assert(block.args =~= seq![h, term]);
    lemma_vanishes(r, term, zeros, i);
}

/// A masked row passes unchanged: where a row's retrieval mask is zero, the row
/// comes out of a block as it went in, whatever the neighbours are and whatever
/// the soft gate has learned.
pub proof fn law_a_masked_row_passes_unchanged<V>(
    r: Reading<V>,
    h: Expr,
    t: Expr,
    mask: Expr,
    kv: Expr,
    prefix: Seq<char>,
    cfg: CcaConfig,
    activation: super::gate::GateActivation,
    row: int,
    j: int,
)
    requires
        r.respects_zero(),
        super::cca::block_fits(cfg),
        0 <= j < cfg.d(),
        r.element(mask, row) == r.zero,
    ensures
        r.element(
            super::cca::block_expr(h, t, mask, kv, prefix, cfg, activation),
            row * cfg.d() + j,
        ) == r.element(h, row * cfg.d() + j),
{
    let d = cfg.d() as int;
    let i = row * d + j;
    let wide = super::plan::spread(mask, cfg.d() as u32);
    let admission = super::cca::admission_expr(h, t, mask, prefix, cfg, activation);
    let context = super::cca::context_expr(h, kv, prefix, cfg);
    let term = super::plan::product(admission, context);
    let block = super::cca::block_expr(h, t, mask, kv, prefix, cfg, activation);
    vstd::arithmetic::div_mod::lemma_fundamental_div_mod_converse(i, d, row, j);
    assert(wide.args =~= seq![mask]);
    assert(r.element(wide, i) == r.zero);
    assert(admission.args[1] == wide);
    assert(r.element(admission, i) == r.zero);
    assert(term.args =~= seq![admission, context]);
    assert(r.element(term, i) == r.zero);
    assert(block.args =~= seq![h, term]);
}

/// Parameters are the same in both readings.
proof fn lemma_parameter_agrees<V>(r: Reading<V>, s: Reading<V>, name: Seq<char>, shape: Seq<nat>)
    requires
        r.differs_in_inputs(s),
    ensures
        r.agrees(s, super::plan::parameter_expr(name, shape)),
{
    lemma_agrees(r, s, super::plan::parameter_expr(name, shape));
}

/// What is made of one operand that agrees agrees.
proof fn lemma_one<V>(r: Reading<V>, s: Reading<V>, e: Expr, a: Expr)
    requires
        r.differs_in_inputs(s),
        !(e.op is Input),
        e.args == seq![a],
        r.agrees(s, a),
    ensures
        r.agrees(s, e),
{
    lemma_agrees(r, s, e);
}

/// What is made of two operands that agree agrees.
proof fn lemma_two<V>(r: Reading<V>, s: Reading<V>, e: Expr, a: Expr, b: Expr)
    requires
        r.differs_in_inputs(s),
        !(e.op is Input),
        e.args == seq![a, b],
        r.agrees(s, a),
        r.agrees(s, b),
    ensures
        r.agrees(s, e),
{
    lemma_agrees(r, s, e);
}

/// A gate of the same residual at the same noise levels is the same gate.
proof fn lemma_gate_agrees<V>(
    r: Reading<V>,
    s: Reading<V>,
    h: Expr,
    t: Expr,
    prefix: Seq<char>,
    d: nat,
    rows: nat,
    activation: super::gate::GateActivation,
)
    requires
        r.differs_in_inputs(s),
        r.agrees(s, h),
        r.agrees(s, t),
    ensures
        r.agrees(s, super::gate::gate_expr(prefix, d, activation, h, t, rows)),
{
    let w1 = super::plan::parameter_expr(prefix + ".w1"@, seq![d + 1, d]);
    let b1 = super::plan::parameter_expr(prefix + ".b1"@, seq![d]);
    let w2 = super::plan::parameter_expr(prefix + ".w2"@, seq![d, 1nat]);
    let b2 = super::plan::parameter_expr(prefix + ".b2"@, seq![1nat]);
    lemma_parameter_agrees(r, s, prefix + ".w1"@, seq![d + 1, d]);
    lemma_parameter_agrees(r, s, prefix + ".b1"@, seq![d]);
    lemma_parameter_agrees(r, s, prefix + ".w2"@, seq![d, 1nat]);
    lemma_parameter_agrees(r, s, prefix + ".b2"@, seq![1nat]);
    let h_flat = super::plan::reshaped(h, seq![rows * d]);
    let t_flat = super::plan::reshaped(t, seq![rows]);
    let both = super::plan::joined(h_flat, t_flat, rows as u32, d as u32, 1, 1);
    let conditioned = super::rows::widened(h, t, rows, d);
    lemma_one(r, s, h_flat, h);
    lemma_one(r, s, t_flat, t);
    lemma_two(r, s, both, h_flat, t_flat);
    lemma_one(r, s, conditioned, both);
    let first = super::plan::matmul(conditioned, w1);
    let first_biased = super::plan::biased(first, b1);
    let hidden = super::plan::unary(Op::Silu, first_biased);
    lemma_two(r, s, first, conditioned, w1);
    lemma_two(r, s, first_biased, first, b1);
    lemma_one(r, s, hidden, first_biased);
    let second = super::plan::matmul(hidden, w2);
    let pre = super::plan::biased(second, b2);
    lemma_two(r, s, second, hidden, w2);
    lemma_two(r, s, pre, second, b2);
    let scalar = match activation {
        super::gate::GateActivation::Tanh => super::plan::unary(Op::Tanh, pre),
        super::gate::GateActivation::ScaledSigmoid => super::plan::product(
            super::plan::unary(Op::Sigmoid, pre),
            super::plan::matmul(
                super::plan::constant_expr(super::gate::ones(rows), seq![rows, 1nat]),
                super::plan::parameter_expr(prefix + ".alpha"@, seq![1nat, 1nat]),
            ),
        ),
    };
    match activation {
        super::gate::GateActivation::Tanh => {
            lemma_one(r, s, scalar, pre);
        },
        super::gate::GateActivation::ScaledSigmoid => {
            let column = super::plan::constant_expr(super::gate::ones(rows), seq![rows, 1nat]);
            let alpha = super::plan::parameter_expr(prefix + ".alpha"@, seq![1nat, 1nat]);
            let scaled = super::plan::matmul(column, alpha);
            let opened = super::plan::unary(Op::Sigmoid, pre);
            lemma_agrees(r, s, column);
            lemma_parameter_agrees(r, s, prefix + ".alpha"@, seq![1nat, 1nat]);
            lemma_two(r, s, scaled, column, alpha);
            lemma_one(r, s, opened, pre);
            lemma_two(r, s, scalar, opened, scaled);
        },
    }
    lemma_one(r, s, super::gate::gate_expr(prefix, d, activation, h, t, rows), scalar);
}

/// A projected row of neighbours is made of that row alone.
proof fn lemma_projected_row<V>(
    r: Reading<V>,
    s: Reading<V>,
    kv: Expr,
    prefix: Seq<char>,
    suffix: Seq<char>,
    cfg: CcaConfig,
    row: int,
    column: int,
)
    requires
        r.differs_in_inputs(s),
        cfg.d() > 0,
        kv.shape.len() == 2,
        kv.shape[1] == cfg.d(),
        0 <= column < super::cca::kv_width(cfg),
        forall|q: int|
            0 <= q < cfg.d() ==> r.element(kv, #[trigger] (row * cfg.d() + q)) == s.element(
                kv,
                row * cfg.d() + q,
            ),
    ensures
        r.element(
            super::cca::projected_expr(kv, prefix, suffix, cfg),
            row * super::cca::kv_width(cfg) + column,
        ) == s.element(
            super::cca::projected_expr(kv, prefix, suffix, cfg),
            row * super::cca::kv_width(cfg) + column,
        ),
{
    let d = cfg.d() as nat;
    let wide = super::cca::kv_width(cfg);
    let eps = Binary32 { bits: super::cca::RMS_EPS };
    let weight = super::plan::parameter_expr(prefix + ".kv_norm"@, seq![d]);
    let normed = super::plan::normed(kv, weight, eps);
    let matrix = super::plan::parameter_expr(prefix + suffix, seq![d, wide]);
    let projected = super::cca::projected_expr(kv, prefix, suffix, cfg);
    let at = row * wide + column;
    assert(projected.args =~= seq![normed, matrix]);
    assert(normed.args =~= seq![kv, weight]);
    assert(projected.shape[1] == wide);
    vstd::arithmetic::div_mod::lemma_fundamental_div_mod_converse(
        at,
        wide as int,
        row,
        column,
    );
    lemma_parameter_agrees(r, s, prefix + ".kv_norm"@, seq![d]);
    lemma_parameter_agrees(r, s, prefix + suffix, seq![d, wide]);
    lemma_run(r, s, weight, 0, 1, d);
    lemma_run(r, s, matrix, column, wide as int, d);
    assert forall|p: int| 0 <= p < d implies r.element(normed, row * d + #[trigger] (p * 1))
        == s.element(normed, row * d + p * 1) by {
        vstd::arithmetic::div_mod::lemma_fundamental_div_mod_converse(
            row * d + p,
            d as int,
            row,
            p,
        );
        assert forall|q: int| 0 <= q < d implies r.element(kv, row * d + #[trigger] (q * 1))
            == s.element(kv, row * d + q * 1) by {
            assert(r.element(kv, row * cfg.d() + q) == s.element(kv, row * cfg.d() + q));
        }
        lemma_run(r, s, kv, row * d, 1, d);
    }
    lemma_run(r, s, normed, row * d, 1, d);
}

/// A block has rows, columns and neighbours.
pub proof fn lemma_sizes(cfg: CcaConfig)
    requires
        cfg.wf(),
    ensures
        0 < cfg.m(),
        0 < cfg.d(),
        0 < cfg.k() * cfg.r(),
        0 < super::cca::kv_width(cfg),
{
    let (k, r, h, kv, w) = (
        cfg.k() as int,
        cfg.r() as int,
        cfg.heads() as int,
        cfg.kv_heads() as int,
        cfg.head_width() as int,
    );
    assert(0 < k * r && 0 < h * w && 0 < kv * w) by (nonlinear_arith)
        requires
            k > 0,
            r > 0,
            h > 0,
            kv > 0,
            w > 0,
    ;
}

/// What a chunk gathers is made of its own rows and of its own neighbours' rows.
proof fn lemma_gathered<V>(
    r: Reading<V>,
    s: Reading<V>,
    h: Expr,
    kv: Expr,
    prefix: Seq<char>,
    cfg: CcaConfig,
    chunk: nat,
)
    requires
        r.differs_in_inputs(s),
        super::cca::block_fits(cfg),
        h.shape == seq![cfg.n() as nat, cfg.d() as nat],
        kv.shape == seq![(cfg.l() * cfg.k() * cfg.r()) as nat, cfg.d() as nat],
        r.agrees(s, h),
        chunk < cfg.l(),
        forall|row: int, column: int|
            0 <= row < cfg.k() * cfg.r() && 0 <= column < cfg.d() ==> #[trigger] r.element(
                kv,
                (chunk * (cfg.k() * cfg.r()) + row) * cfg.d() + column,
            ) == s.element(kv, (chunk * (cfg.k() * cfg.r()) + row) * cfg.d() + column),
    ensures
        forall|i: int| #[trigger]
            r.element(super::cca::gathered_expr(h, kv, prefix, cfg, chunk), i) == s.element(
                super::cca::gathered_expr(h, kv, prefix, cfg, chunk),
                i,
            ),
{
    lemma_sizes(cfg);
    let (n, d, m) = (cfg.n() as nat, cfg.d() as nat, cfg.m() as nat);
    let rows = (cfg.k() * cfg.r()) as nat;
    let wide = super::cca::kv_width(cfg);
    let gathered = super::cca::gathered_expr(h, kv, prefix, cfg, chunk);
    let query = super::cca::query_expr(h, prefix, cfg);
    let weight = super::plan::parameter_expr(prefix + ".q_norm"@, seq![d]);
    let normed = super::plan::normed(h, weight, (Binary32 { bits: super::cca::RMS_EPS }));
    let matrix = super::plan::parameter_expr(prefix + ".q_proj"@, seq![d, d]);
    lemma_parameter_agrees(r, s, prefix + ".q_norm"@, seq![d]);
    lemma_parameter_agrees(r, s, prefix + ".q_proj"@, seq![d, d]);
    lemma_two(r, s, normed, h, weight);
    lemma_two(r, s, query, normed, matrix);
    super::rows::lemma_elements(m, d);
    super::rows::lemma_elements(rows, wide);
    assert(query.shape =~= seq![n, d]);
    assert(super::plan::elements(gathered.args[0].shape) == m * d);
    assert(super::plan::elements(gathered.args[1].shape) == rows * wide);
    assert(super::plan::elements(gathered.args[2].shape) == rows * wide);
    assert forall|k: int, p: int|
        0 <= k < gathered.args.len() && 0 <= p < super::plan::elements(
            gathered.args[k].shape,
        ) implies #[trigger] r.element(gathered.args[k], p) == s.element(gathered.args[k], p) by {
        let width = if k == 0 {
            d as int
        } else {
            wide as int
        };
        let height = if k == 0 {
            m as int
        } else {
            rows as int
        };
        let (row, column) = (p / width, p % width);
        lemma_in_matrix(p, height, width);
        let (i, j, y, x) = if k == 0 {
            (row, column, 0int, 0int)
        } else {
            (0int, 0int, row, column)
        };
        super::cca::law_a_chunk_attends_to_its_own_neighbours(
            h,
            kv,
            prefix,
            cfg,
            chunk,
            i,
            j,
            y,
            x,
        );
        let (source, from) = if k == 0 {
            (query, (chunk * m + row) * d + column)
        } else if k == 1 {
            (
                super::cca::projected_expr(kv, prefix, ".k_proj"@, cfg),
                (chunk * rows + row) * wide + column,
            )
        } else {
            (
                super::cca::projected_expr(kv, prefix, ".v_proj"@, cfg),
                (chunk * rows + row) * wide + column,
            )
        };
        lemma_origin(r, gathered.args[k], p);
        lemma_origin(s, gathered.args[k], p);
        lemma_origin(r, source, from);
        lemma_origin(s, source, from);
        if k == 0 {
            assert(r.element(query, from) == s.element(query, from));
        } else {
            assert forall|q: int| 0 <= q < cfg.d() implies r.element(
                kv,
                #[trigger] ((chunk * rows + row) * cfg.d() + q),
            ) == s.element(kv, (chunk * rows + row) * cfg.d() + q) by {
                assert(r.element(kv, (chunk * (cfg.k() * cfg.r()) + row) * cfg.d() + q)
                    == s.element(kv, (chunk * (cfg.k() * cfg.r()) + row) * cfg.d() + q));
            }
            let suffix = if k == 1 {
                ".k_proj"@
            } else {
                ".v_proj"@
            };
            lemma_projected_row(r, s, kv, prefix, suffix, cfg, chunk * rows + row, column);
        }
    }
    lemma_operands(r, s, gathered);
}

/// Where an element stands in a matrix.
pub proof fn lemma_in_matrix(p: int, height: int, width: int)
    requires
        0 <= p < height * width,
        height >= 0,
        width >= 0,
    ensures
        0 <= p / width < height,
        0 <= p % width < width,
        (p / width) * width + p % width == p,
{
    assert(width > 0) by (nonlinear_arith)
        requires
            0 <= p < height * width,
            height >= 0,
            width >= 0,
    ;
    vstd::arithmetic::div_mod::lemma_fundamental_div_mod(p, width);
    let (q, rest) = (p / width, p % width);
    assert(0 <= q < height && q * width + rest == p) by (nonlinear_arith)
        requires
            p == width * q + rest,
            0 <= rest < width,
            0 <= p < height * width,
            width > 0,
    ;
}

/// A chunk sees its own neighbours alone: what comes out of a block in the rows
/// of one chunk does not change with the rows of the other chunks' neighbours.
pub proof fn law_a_chunk_sees_its_own_neighbours_alone<V>(
    r: Reading<V>,
    s: Reading<V>,
    h: Expr,
    t: Expr,
    mask: Expr,
    kv: Expr,
    prefix: Seq<char>,
    cfg: CcaConfig,
    activation: super::gate::GateActivation,
    chunk: nat,
    i: int,
    j: int,
)
    requires
        r.differs_in_inputs(s),
        super::cca::block_fits(cfg),
        h.shape == seq![cfg.n() as nat, cfg.d() as nat],
        kv.shape == seq![(cfg.l() * cfg.k() * cfg.r()) as nat, cfg.d() as nat],
        r.agrees(s, h),
        r.agrees(s, t),
        r.agrees(s, mask),
        chunk < cfg.l(),
        0 <= i < cfg.m(),
        0 <= j < cfg.d(),
        forall|row: int, column: int|
            0 <= row < cfg.k() * cfg.r() && 0 <= column < cfg.d() ==> #[trigger] r.element(
                kv,
                (chunk * (cfg.k() * cfg.r()) + row) * cfg.d() + column,
            ) == s.element(kv, (chunk * (cfg.k() * cfg.r()) + row) * cfg.d() + column),
    ensures
        r.element(
            super::cca::block_expr(h, t, mask, kv, prefix, cfg, activation),
            (chunk * cfg.m() + i) * cfg.d() + j,
        ) == s.element(
            super::cca::block_expr(h, t, mask, kv, prefix, cfg, activation),
            (chunk * cfg.m() + i) * cfg.d() + j,
        ),
{
    lemma_sizes(cfg);
    let (d, m) = (cfg.d() as nat, cfg.m() as nat);
    let at = (chunk * m + i) * d + j;
    let gathered = super::cca::gathered_expr(h, kv, prefix, cfg, chunk);
    let context = super::cca::context_expr(h, kv, prefix, cfg);
    let stack = context.args[0];
    let matrix = super::plan::parameter_expr(prefix + ".o_proj"@, seq![d, d]);
    lemma_gathered(r, s, h, kv, prefix, cfg, chunk);
    assert(context.args =~= seq![stack, matrix]);
    assert(stack.shape[1] == d && context.shape[1] == d);
    vstd::arithmetic::div_mod::lemma_fundamental_div_mod_converse(
        at,
        d as int,
        chunk * m + i,
        j,
    );
    let start = (chunk * m + i) * d;
    assert forall|p: int| 0 <= p < d implies r.element(stack, start + #[trigger] (p * 1))
        == s.element(stack, start + p * 1) by {
        super::cca::law_a_chunk_attends_to_its_own_neighbours(
            h,
            kv,
            prefix,
            cfg,
            chunk,
            i,
            p,
            0,
            0,
        );
        lemma_origin(r, stack, start + p);
        lemma_origin(s, stack, start + p);
        assert(r.element(gathered, i * d + p) == s.element(gathered, i * d + p));
    }
    lemma_run(r, s, stack, start, 1, d);
    lemma_parameter_agrees(r, s, prefix + ".o_proj"@, seq![d, d]);
    lemma_run(r, s, matrix, j, d as int, d);
    assert(r.element(context, at) == s.element(context, at));
    let gate = super::gate::gate_expr(
        prefix + ".gate"@,
        d,
        activation,
        h,
        t,
        cfg.n() as nat,
    );
    let wide = super::plan::spread(mask, cfg.d() as u32);
    let admission = super::cca::admission_expr(h, t, mask, prefix, cfg, activation);
    lemma_gate_agrees(r, s, h, t, prefix + ".gate"@, d, cfg.n() as nat, activation);
    lemma_one(r, s, wide, mask);
    lemma_two(r, s, admission, gate, wide);
    let term = super::plan::product(admission, context);
    let block = super::cca::block_expr(h, t, mask, kv, prefix, cfg, activation);
    assert(term.args =~= seq![admission, context]);
    assert(block.args =~= seq![h, term]);
    assert(r.element(admission, at) == s.element(admission, at));
    assert(r.element(term, at) == s.element(term, at));
    assert(r.element(h, at) == s.element(h, at));
}

/// The soft gate's zero-initialised parameters are among those named in `zeros`.
pub open spec fn gate_is_fresh(
    zeros: Set<Seq<char>>,
    prefix: Seq<char>,
    activation: super::gate::GateActivation,
) -> bool {
    &&& zeros.contains(prefix + ".gate"@ + ".w2"@)
    &&& zeros.contains(prefix + ".gate"@ + ".b2"@)
    &&& activation == super::gate::GateActivation::ScaledSigmoid ==> zeros.contains(
        prefix + ".gate"@ + ".alpha"@,
    )
}

/// The residual of a backbone without blocks after its first `upto` layers.
pub open spec fn bare_residual(cfg: super::ModelConfig, frozen: bool, upto: nat) -> Expr
    decreases upto,
{
    if upto == 0 {
        super::plan::embedded(
            super::plan::input_expr("token_ids"@, seq![cfg.cca.n() as nat], true),
            super::transformer::leaf(
                "backbone"@ + ".embed"@,
                seq![cfg.backbone.vocab_size as nat, cfg.backbone.layer_shape().d()],
                frozen,
            ),
        )
    } else {
        super::backbone::backbone_layer_expr(
            bare_residual(cfg, frozen, (upto - 1) as nat),
            "backbone"@,
            cfg.backbone,
            frozen,
            (upto - 1) as nat,
        )
    }
}

/// The logits of a backbone without blocks.
pub open spec fn bare_logits(cfg: super::ModelConfig, frozen: bool) -> Expr {
    super::backbone::head_expr(
        bare_residual(cfg, frozen, cfg.backbone.num_layers as nat),
        "backbone"@,
        cfg.backbone,
        frozen,
    )
}

/// Two values have one shape and the same elements.
pub open spec fn alike<V>(r: Reading<V>, e: Expr, f: Expr) -> bool {
    &&& e.shape == f.shape
    &&& forall|i: int| #[trigger] r.element(e, i) == r.element(f, i)
}

/// One operator makes the same of operands that are alike.
proof fn lemma_alike<V>(r: Reading<V>, e: Expr, f: Expr)
    requires
        e.op == f.op,
        e.shape == f.shape,
        e.args.len() == f.args.len(),
        e.args.len() > 0,
        e.op is MatMul || e.op is Add || e.op is RmsNorm || e.op is Rope || e.op is SwiGlu
            || e.op is MultiHeadAttn || e.op is Embedding,
        forall|k: int| 0 <= k < e.args.len() ==> alike(r, #[trigger] e.args[k], f.args[k]),
    ensures
        alike(r, e, f),
{
    assert forall|i: int| #[trigger] r.element(e, i) == r.element(f, i) by {
        if e.args.len() == 2 {
            assert(alike(r, e.args[0], f.args[0]));
            assert(alike(r, e.args[1], f.args[1]));
            assert(r.element(e.args[0], i) == r.element(f.args[0], i));
            assert(r.element(e.args[1], i) == r.element(f.args[1], i));
            let (inner, columns) = (e.args[0].shape[1], e.shape[1]);
            let row = i / columns as int;
            lemma_run_alike(r, e.args[0], f.args[0], row * inner, 1, inner);
            lemma_run_alike(
                r,
                e.args[1],
                f.args[1],
                i % columns as int,
                columns as int,
                inner,
            );
            lemma_run_alike(r, e.args[0], f.args[0], row * columns, 1, columns);
            lemma_run_alike(r, e.args[1], f.args[1], 0, 1, columns);
        }
        assert forall|k: int| 0 <= k < e.args.len() implies r.operands(e)[k]
            == r.operands(f)[k] by {
            assert(alike(r, e.args[k], f.args[k]));
            lemma_run_alike(
                r,
                e.args[k],
                f.args[k],
                0,
                1,
                super::plan::elements(e.args[k].shape),
            );
        }
        assert(r.operands(e) =~= r.operands(f));
    }
}

/// Runs of values that are alike are the same.
proof fn lemma_run_alike<V>(
    r: Reading<V>,
    e: Expr,
    f: Expr,
    start: int,
    step: int,
    count: nat,
)
    requires
        alike(r, e, f),
    ensures
        r.run(e, start, step, count) == r.run(f, start, step, count),
{
    assert forall|p: int| 0 <= p < count implies #[trigger] r.run(e, start, step, count)[p]
        == r.run(f, start, step, count)[p] by {
        assert(r.element(e, start + p * step) == r.element(f, start + p * step));
    }
    assert(r.run(e, start, step, count) =~= r.run(f, start, step, count));
}

/// A parameter is the same behind a gradient stop.
proof fn lemma_leaf_alike<V>(
    r: Reading<V>,
    name: Seq<char>,
    shape: Seq<nat>,
    a: bool,
    b: bool,
)
    ensures
        alike(
            r,
            super::transformer::leaf(name, shape, a),
            super::transformer::leaf(name, shape, b),
        ),
{
    let p = super::plan::parameter_expr(name, shape);
    let stopped = super::plan::unary(Op::StopGradient, p);
    assert(stopped.args =~= seq![p]);
    assert forall|i: int| #[trigger] r.element(stopped, i) == r.element(p, i) by {
    }
    assert(alike(r, stopped, p));
    assert forall|i: int| #[trigger] r.element(p, i) == r.element(stopped, i) by {
    }
    assert(alike(r, p, stopped));
}

/// Matrix products of values that are alike are alike.
proof fn lemma_matmul_alike<V>(r: Reading<V>, a: Expr, b: Expr, c: Expr, d: Expr)
    requires
        alike(r, a, c),
        alike(r, b, d),
    ensures
        alike(r, super::plan::matmul(a, b), super::plan::matmul(c, d)),
{
    lemma_alike(r, super::plan::matmul(a, b), super::plan::matmul(c, d));
}

/// Sums of values that are alike are alike.
proof fn lemma_sum_alike<V>(r: Reading<V>, a: Expr, b: Expr, c: Expr, d: Expr)
    requires
        alike(r, a, c),
        alike(r, b, d),
    ensures
        alike(r, super::plan::sum(a, b), super::plan::sum(c, d)),
{
    lemma_alike(r, super::plan::sum(a, b), super::plan::sum(c, d));
}

/// Normalised rows of values that are alike are alike.
proof fn lemma_normed_alike<V>(
    r: Reading<V>,
    a: Expr,
    b: Expr,
    c: Expr,
    d: Expr,
    eps: Binary32,
)
    requires
        alike(r, a, c),
        alike(r, b, d),
    ensures
        alike(r, super::plan::normed(a, b, eps), super::plan::normed(c, d, eps)),
{
    lemma_alike(r, super::plan::normed(a, b, eps), super::plan::normed(c, d, eps));
}

/// A layer over values that are alike gives values that are alike.
proof fn lemma_layer_alike<V>(
    r: Reading<V>,
    x: Expr,
    y: Expr,
    prefix: Seq<char>,
    shape: super::transformer::LayerShape,
    eps: Binary32,
    rope: Option<Binary32>,
    a: bool,
    b: bool,
)
    requires
        alike(r, x, y),
    ensures
        alike(
            r,
            super::transformer::layer_expr(x, prefix, shape, eps, rope, a),
            super::transformer::layer_expr(y, prefix, shape, eps, rope, b),
        ),
{
    let (d, kv, inner) = (shape.d(), shape.kv(), shape.inner());
    let leaf = |suffix: Seq<char>, of: Seq<nat>, frozen: bool|
        super::transformer::leaf(prefix + suffix, of, frozen);
    lemma_leaf_alike(r, prefix + ".attn_norm"@, seq![d], a, b);
    lemma_leaf_alike(r, prefix + ".q_proj"@, seq![d, d], a, b);
    lemma_leaf_alike(r, prefix + ".k_proj"@, seq![d, kv], a, b);
    lemma_leaf_alike(r, prefix + ".v_proj"@, seq![d, kv], a, b);
    lemma_leaf_alike(r, prefix + ".o_proj"@, seq![d, d], a, b);
    lemma_leaf_alike(r, prefix + ".ffn_norm"@, seq![d], a, b);
    lemma_leaf_alike(r, prefix + ".gate_proj"@, seq![d, inner], a, b);
    lemma_leaf_alike(r, prefix + ".up_proj"@, seq![d, inner], a, b);
    lemma_leaf_alike(r, prefix + ".down_proj"@, seq![inner, d], a, b);
    let hx = super::plan::normed(x, leaf(".attn_norm"@, seq![d], a), eps);
    let hy = super::plan::normed(y, leaf(".attn_norm"@, seq![d], b), eps);
    lemma_normed_alike(
        r,
        x,
        leaf(".attn_norm"@, seq![d], a),
        y,
        leaf(".attn_norm"@, seq![d], b),
        eps,
    );
    let qx = super::plan::matmul(hx, leaf(".q_proj"@, seq![d, d], a));
    let qy = super::plan::matmul(hy, leaf(".q_proj"@, seq![d, d], b));
    let kx = super::plan::matmul(hx, leaf(".k_proj"@, seq![d, kv], a));
    let ky = super::plan::matmul(hy, leaf(".k_proj"@, seq![d, kv], b));
    let vx = super::plan::matmul(hx, leaf(".v_proj"@, seq![d, kv], a));
    let vy = super::plan::matmul(hy, leaf(".v_proj"@, seq![d, kv], b));
    lemma_matmul_alike(
        r,
        hx,
        leaf(".q_proj"@, seq![d, d], a),
        hy,
        leaf(".q_proj"@, seq![d, d], b),
    );
    lemma_matmul_alike(
        r,
        hx,
        leaf(".k_proj"@, seq![d, kv], a),
        hy,
        leaf(".k_proj"@, seq![d, kv], b),
    );
    lemma_matmul_alike(
        r,
        hx,
        leaf(".v_proj"@, seq![d, kv], a),
        hy,
        leaf(".v_proj"@, seq![d, kv], b),
    );
    let head = shape.head_dim;
    let (tqx, tqy) = (
        super::transformer::turned(qx, rope, head),
        super::transformer::turned(qy, rope, head),
    );
    let (tkx, tky) = (
        super::transformer::turned(kx, rope, head),
        super::transformer::turned(ky, rope, head),
    );
    if rope is Some {
        lemma_alike(r, tqx, tqy);
        lemma_alike(r, tkx, tky);
    }
    let ax = super::plan::attended(
        tqx,
        tkx,
        vx,
        shape.num_heads,
        shape.num_kv_heads,
        head,
        false,
    );
    let ay = super::plan::attended(
        tqy,
        tky,
        vy,
        shape.num_heads,
        shape.num_kv_heads,
        head,
        false,
    );
    lemma_alike(r, ax, ay);
    let (ox, oy) = (leaf(".o_proj"@, seq![d, d], a), leaf(".o_proj"@, seq![d, d], b));
    lemma_matmul_alike(r, ax, ox, ay, oy);
    lemma_sum_alike(r, x, super::plan::matmul(ax, ox), y, super::plan::matmul(ay, oy));
    let mx = super::transformer::attention_expr(x, prefix, shape, eps, rope, a);
    let my = super::transformer::attention_expr(y, prefix, shape, eps, rope, b);
    assert(mx == super::plan::sum(x, super::plan::matmul(ax, ox)));
    assert(my == super::plan::sum(y, super::plan::matmul(ay, oy)));
    let (nx, ny) = (leaf(".ffn_norm"@, seq![d], a), leaf(".ffn_norm"@, seq![d], b));
    lemma_normed_alike(r, mx, nx, my, ny, eps);
    let (fx, fy) = (super::plan::normed(mx, nx, eps), super::plan::normed(my, ny, eps));
    let (gx, gy) = (leaf(".gate_proj"@, seq![d, inner], a), leaf(".gate_proj"@, seq![d, inner], b));
    let (ux, uy) = (leaf(".up_proj"@, seq![d, inner], a), leaf(".up_proj"@, seq![d, inner], b));
    let (dx, dy) = (leaf(".down_proj"@, seq![inner, d], a), leaf(".down_proj"@, seq![inner, d], b));
    lemma_matmul_alike(r, fx, gx, fy, gy);
    lemma_matmul_alike(r, fx, ux, fy, uy);
    let sx = super::plan::swiglu(super::plan::matmul(fx, gx), super::plan::matmul(fx, ux));
    let sy = super::plan::swiglu(super::plan::matmul(fy, gy), super::plan::matmul(fy, uy));
    lemma_alike(r, sx, sy);
    lemma_matmul_alike(r, sx, dx, sy, dy);
    lemma_sum_alike(r, mx, super::plan::matmul(sx, dx), my, super::plan::matmul(sy, dy));
}

/// The residual of a fresh retrofit is that of the backbone without blocks.
proof fn lemma_fresh_residual<V>(
    r: Reading<V>,
    cfg: super::ModelConfig,
    frozen: bool,
    zeros: Set<Seq<char>>,
    upto: nat,
)
    requires
        r.respects_zero(),
        r.zero_at(zeros),
        forall|layer: nat|
            layer < upto && cfg.cca.follows(layer) ==> gate_is_fresh(
                zeros,
                #[trigger] super::block_prefix(layer),
                cfg.activation,
            ),
    ensures
        alike(r, super::residual_expr(cfg, upto), bare_residual(cfg, frozen, upto)),
    decreases upto,
{
    let e = super::residual_expr(cfg, upto);
    let f = bare_residual(cfg, frozen, upto);
    if upto == 0 {
        let ids = super::plan::input_expr("token_ids"@, seq![cfg.cca.n() as nat], true);
        let shape = seq![cfg.backbone.vocab_size as nat, cfg.backbone.layer_shape().d()];
        lemma_leaf_alike(r, "backbone"@ + ".embed"@, shape, true, frozen);
        assert(alike(r, ids, ids));
        lemma_alike(r, e, f);
    } else {
        let layer = (upto - 1) as nat;
        lemma_fresh_residual(r, cfg, frozen, zeros, layer);
        let x = super::backbone::backbone_layer_expr(
            super::residual_expr(cfg, layer),
            "backbone"@,
            cfg.backbone,
            true,
            layer,
        );
        lemma_layer_alike(
            r,
            super::residual_expr(cfg, layer),
            bare_residual(cfg, frozen, layer),
            super::backbone::layer_prefix("backbone"@, layer),
            cfg.backbone.layer_shape(),
            cfg.backbone.rms_norm_eps,
            Some(cfg.backbone.rope_theta),
            true,
            frozen,
        );
        assert(alike(r, x, f));
        if cfg.cca.follows(layer) {
            assert(gate_is_fresh(zeros, super::block_prefix(layer), cfg.activation));
            assert forall|i: int| #[trigger] r.element(e, i) == r.element(f, i) by {
                law_a_fresh_block_passes_every_value(
                    r,
                    x,
                    super::t_expr(cfg),
                    super::mask_expr(cfg),
                    super::kv_expr(cfg),
                    super::block_prefix(layer),
                    cfg.cca,
                    cfg.activation,
                    zeros,
                    i,
                );
                assert(r.element(x, i) == r.element(f, i));
            }
        }
    }
}

/// A fresh retrofit computes what the backbone alone computes: once the
/// zero-initialised parameters of every soft gate are zero, every logit is that of
/// the same backbone without a block, whatever was retrieved and whatever of the
/// backbone is frozen.
pub proof fn law_a_fresh_retrofit_is_the_backbone<V>(
    r: Reading<V>,
    cfg: super::ModelConfig,
    frozen: bool,
    zeros: Set<Seq<char>>,
    i: int,
)
    requires
        r.respects_zero(),
        r.zero_at(zeros),
        forall|layer: nat|
            layer < cfg.backbone.num_layers && cfg.cca.follows(layer) ==> gate_is_fresh(
                zeros,
                #[trigger] super::block_prefix(layer),
                cfg.activation,
            ),
    ensures
        r.element(super::logits_expr(cfg), i) == r.element(bare_logits(cfg, frozen), i),
{
    let layers = cfg.backbone.num_layers as nat;
    lemma_fresh_residual(r, cfg, frozen, zeros, layers);
    let (x, y) = (super::residual_expr(cfg, layers), bare_residual(cfg, frozen, layers));
    let d = cfg.backbone.layer_shape().d();
    let vocab = cfg.backbone.vocab_size as nat;
    lemma_leaf_alike(r, "backbone"@ + ".out_norm"@, seq![d], true, frozen);
    lemma_leaf_alike(r, "backbone"@ + ".lm_head"@, seq![d, vocab], true, frozen);
    let eps = cfg.backbone.rms_norm_eps;
    let (nx, ny) = (
        super::transformer::leaf("backbone"@ + ".out_norm"@, seq![d], true),
        super::transformer::leaf("backbone"@ + ".out_norm"@, seq![d], frozen),
    );
    let (lx, ly) = (
        super::transformer::leaf("backbone"@ + ".lm_head"@, seq![d, vocab], true),
        super::transformer::leaf("backbone"@ + ".lm_head"@, seq![d, vocab], frozen),
    );
    lemma_normed_alike(r, x, nx, y, ny, eps);
    lemma_matmul_alike(
        r,
        super::plan::normed(x, nx, eps),
        lx,
        super::plan::normed(y, ny, eps),
        ly,
    );
}

} // verus!
