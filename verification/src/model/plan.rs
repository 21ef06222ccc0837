//! The plan of a graph: which operators run on which values, and the shape of
//! each.
//!
//! A plan is what a model decides. Compiling and running it is somebody
//! else's work: a plan lists its nodes in an order in which every operand
//! comes before its use, so it is laid down on an execution engine node by
//! node.
//!
//! Every operator has a shape rule, and a plan holds no node that breaks one.
use crate::binary32::Binary32;
use vstd::prelude::*;
use vstd::string::*;

verus! {

/// What a node does.
#[derive(Clone, Copy, Debug)]
pub enum Op {
    /// A value fed from the host: numbers, or token ids.
    Input,
    /// A stored tensor, declared under its name.
    Parameter,
    /// Fixed data.
    Constant,
    /// Rows of a table, picked by token ids.
    Embedding,
    /// Matrix product.
    MatMul,
    /// Elementwise sum.
    Add,
    /// Elementwise product.
    Mul,
    /// Add a vector to every row.
    BiasAdd,
    /// `x * sigmoid(x)`.
    Silu,
    /// The logistic function.
    Sigmoid,
    /// The hyperbolic tangent.
    Tanh,
    /// `silu(gate) * up`.
    SwiGlu,
    /// Root-mean-square normalisation of every row, scaled by a weight.
    RmsNorm {
        /// Added under the root.
        eps: Binary32,
    },
    /// Rotary position embedding.
    Rope {
        /// The base.
        theta: Binary32,
        /// Per-head width.
        head_dim: u32,
    },
    /// Attention without a mask.
    MultiHeadAttn {
        /// Query heads.
        num_heads: u32,
        /// Key/value heads.
        num_kv_heads: u32,
        /// Per-head width.
        head_dim: u32,
        /// Whether queries and keys come from different sequences.
        is_cross: bool,
    },
    /// The same elements under another shape.
    Reshape,
    /// Join `[batch, channels_a, spatial]` and `[batch, channels_b, spatial]`
    /// along the channels.
    Concat {
        /// Batches.
        batch: u32,
        /// Channels of the first operand.
        channels_a: u32,
        /// Channels of the second operand.
        channels_b: u32,
        /// Elements per channel.
        spatial: u32,
    },
    /// The first `channels_a` channels of every batch.
    SplitA {
        /// Batches.
        batch: u32,
        /// Channels kept.
        channels_a: u32,
        /// Channels dropped.
        channels_b: u32,
        /// Elements per channel.
        spatial: u32,
    },
    /// The last `channels_b` channels of every batch.
    SplitB {
        /// Batches.
        batch: u32,
        /// Channels dropped.
        channels_a: u32,
        /// Channels kept.
        channels_b: u32,
        /// Elements per channel.
        spatial: u32,
    },
    /// Repeat every row's scalar across `inner` columns.
    BroadcastInner {
        /// Columns.
        inner: u32,
    },
    /// The operand, with no gradient path back to it.
    StopGradient,
    /// Cross-entropy of logits against labels.
    CrossEntropy,
}

/// A node of a plan, by its position.
#[derive(Clone, Copy, Debug, PartialEq, Eq, Structural)]
pub struct NodeId(pub usize);

/// One node.
#[derive(Clone, Debug)]
pub struct Node {
    /// What it does.
    pub op: Op,
    /// The name it was declared under: inputs and parameters have one.
    pub source: String,
    /// Its data, where it is a constant.
    pub data: Vec<Binary32>,
    /// Whether it holds token ids rather than numbers.
    pub is_ids: bool,
    /// Its operands.
    pub inputs: Vec<usize>,
    /// Its shape.
    pub shape: Vec<usize>,
    /// A name for reading it back while debugging.
    pub label: Option<String>,
}

/// What a node computes, spelled out down to inputs, parameters and constants.
pub struct Expr {
    /// The outermost operator.
    pub op: Op,
    /// The declared name of an input or a parameter.
    pub source: Seq<char>,
    /// The data of a constant.
    pub data: Seq<Binary32>,
    /// Whether the value holds token ids.
    pub is_ids: bool,
    /// The shape of the value.
    pub shape: Seq<nat>,
    /// What the operands compute.
    pub args: Seq<Expr>,
}

/// A shape as numbers.
pub open spec fn dims(shape: Seq<usize>) -> Seq<nat> {
    Seq::new(shape.len(), |i: int| shape[i] as nat)
}

/// How many elements a shape has.
pub open spec fn elements(shape: Seq<nat>) -> nat
    decreases shape.len(),
{
    if shape.len() == 0 {
        1
    } else {
        elements(shape.drop_last()) * shape.last()
    }
}

/// An operator on numbers, of the given shape.
pub open spec fn apply(op: Op, shape: Seq<nat>, args: Seq<Expr>) -> Expr {
    Expr { op, source: Seq::empty(), data: Seq::empty(), is_ids: false, shape, args }
}

/// A parameter.
pub open spec fn parameter_expr(name: Seq<char>, shape: Seq<nat>) -> Expr {
    Expr {
        op: Op::Parameter,
        source: name,
        data: Seq::empty(),
        is_ids: false,
        shape,
        args: Seq::empty(),
    }
}

/// An input of numbers or of token ids.
pub open spec fn input_expr(name: Seq<char>, shape: Seq<nat>, is_ids: bool) -> Expr {
    Expr {
        op: Op::Input,
        source: name,
        data: Seq::empty(),
        is_ids,
        shape,
        args: Seq::empty(),
    }
}

/// A constant.
pub open spec fn constant_expr(data: Seq<Binary32>, shape: Seq<nat>) -> Expr {
    Expr {
        op: Op::Constant,
        source: Seq::empty(),
        data,
        is_ids: false,
        shape,
        args: Seq::empty(),
    }
}

/// The product of two matrices.
pub open spec fn matmul(a: Expr, b: Expr) -> Expr {
    apply(Op::MatMul, seq![a.shape[0], b.shape[1]], seq![a, b])
}

/// The sum of two values of one shape.
pub open spec fn sum(a: Expr, b: Expr) -> Expr {
    apply(Op::Add, a.shape, seq![a, b])
}

/// The elementwise product of two values of one shape.
pub open spec fn product(a: Expr, b: Expr) -> Expr {
    apply(Op::Mul, a.shape, seq![a, b])
}

/// A matrix with a vector added to every row.
pub open spec fn biased(a: Expr, b: Expr) -> Expr {
    apply(Op::BiasAdd, a.shape, seq![a, b])
}

/// `silu(gate) * up`.
pub open spec fn swiglu(gate: Expr, up: Expr) -> Expr {
    apply(Op::SwiGlu, gate.shape, seq![gate, up])
}

/// A unary operator that keeps the shape.
pub open spec fn unary(op: Op, x: Expr) -> Expr {
    apply(op, x.shape, seq![x])
}

/// The normalised rows of a matrix.
pub open spec fn normed(x: Expr, weight: Expr, eps: Binary32) -> Expr {
    apply(Op::RmsNorm { eps }, x.shape, seq![x, weight])
}

/// The rows of a table that token ids pick.
pub open spec fn embedded(ids: Expr, table: Expr) -> Expr {
    apply(Op::Embedding, seq![ids.shape[0], table.shape[1]], seq![ids, table])
}

/// Attention of `q` over `k` and `v`.
pub open spec fn attended(
    q: Expr,
    k: Expr,
    v: Expr,
    num_heads: u32,
    num_kv_heads: u32,
    head_dim: u32,
    is_cross: bool,
) -> Expr {
    apply(
        Op::MultiHeadAttn { num_heads, num_kv_heads, head_dim, is_cross },
        seq![q.shape[0], (num_heads * head_dim) as nat],
        seq![q, k, v],
    )
}

/// The same elements under another shape.
pub open spec fn reshaped(x: Expr, shape: Seq<nat>) -> Expr {
    apply(Op::Reshape, shape, seq![x])
}

/// Two flat values joined along their channels.
pub open spec fn joined(a: Expr, b: Expr, batch: u32, ca: u32, cb: u32, spatial: u32) -> Expr {
    apply(
        Op::Concat { batch, channels_a: ca, channels_b: cb, spatial },
        seq![(batch * (ca + cb) * spatial) as nat],
        seq![a, b],
    )
}

/// The first channels of a flat value.
pub open spec fn first_channels(x: Expr, batch: u32, ca: u32, cb: u32, spatial: u32) -> Expr {
    apply(
        Op::SplitA { batch, channels_a: ca, channels_b: cb, spatial },
        seq![(batch * ca * spatial) as nat],
        seq![x],
    )
}

/// The last channels of a flat value.
pub open spec fn last_channels(x: Expr, batch: u32, ca: u32, cb: u32, spatial: u32) -> Expr {
    apply(
        Op::SplitB { batch, channels_a: ca, channels_b: cb, spatial },
        seq![(batch * cb * spatial) as nat],
        seq![x],
    )
}

/// Every row's scalar repeated across `inner` columns.
pub open spec fn spread(x: Expr, inner: u32) -> Expr {
    apply(Op::BroadcastInner { inner }, seq![x.shape[0], inner as nat], seq![x])
}

/// Whether a parameter called `name` has a gradient path from `e`: one that
/// crosses no stop.
pub open spec fn trains(e: Expr, name: Seq<char>) -> bool
    decreases e,
{
    if e.op is StopGradient {
        false
    } else if e.op is Parameter {
        e.source == name
    } else {
        exists|i: int| 0 <= i < e.args.len() && trains(#[trigger] e.args[i], name)
    }
}

/// A plan: nodes, operands first, and the values to be read out.
#[derive(Clone, Debug)]
pub struct Plan {
    nodes: Vec<Node>,
    outputs: Vec<NodeId>,
}

/// What node `id` of `nodes` computes.
pub open spec fn expr_at(nodes: Seq<Node>, id: int) -> Expr
    decreases id,
{
    let node = nodes[id];
    Expr {
        op: node.op,
        source: node.source@,
        data: node.data@,
        is_ids: node.is_ids,
        shape: dims(node.shape@),
        args: Seq::new(
            node.inputs@.len(),
            |i: int|
                if 0 <= node.inputs@[i] < id {
                    expr_at(nodes, node.inputs@[i] as int)
                } else {
                    arbitrary()
                },
        ),
    }
}

/// The parameters among the first `upto` nodes: their names and shapes.
pub open spec fn params_at(nodes: Seq<Node>, upto: nat) -> Seq<(Seq<char>, Seq<nat>)>
    decreases upto,
{
    if upto == 0 {
        Seq::empty()
    } else {
        let rest = params_at(nodes, (upto - 1) as nat);
        let node = nodes[upto - 1];
        if node.op is Parameter {
            rest.push((node.source@, dims(node.shape@)))
        } else {
            rest
        }
    }
}

proof fn lemma_expr_stable(nodes: Seq<Node>, longer: Seq<Node>, id: int)
    requires
        operands_first(nodes),
        0 <= id < nodes.len() <= longer.len(),
        forall|j: int|
            0 <= j < nodes.len() ==> same_but_label(#[trigger] longer[j], nodes[j]),
    ensures
        expr_at(longer, id) == expr_at(nodes, id),
    decreases id,
{
    let node = nodes[id];
    let here = expr_at(nodes, id);
    let there = expr_at(longer, id);
    assert(same_but_label(longer[id], nodes[id]));
    assert forall|i: int| 0 <= i < node.inputs@.len() implies #[trigger] there.args[i]
        == here.args[i] by {
        assert(node.inputs@[i] < id);
        lemma_expr_stable(nodes, longer, node.inputs@[i] as int);
    }
    assert(there.args =~= here.args);
}

proof fn lemma_params_stable(nodes: Seq<Node>, longer: Seq<Node>, upto: nat)
    requires
        upto <= nodes.len() <= longer.len(),
        forall|j: int|
            0 <= j < nodes.len() ==> same_but_label(#[trigger] longer[j], nodes[j]),
    ensures
        params_at(longer, upto) == params_at(nodes, upto),
    decreases upto,
{
    if upto > 0 {
        lemma_params_stable(nodes, longer, (upto - 1) as nat);
        assert(same_but_label(longer[upto - 1], nodes[upto - 1]));
    }
}

/// Every operand comes before its use.
pub open spec fn operands_first(nodes: Seq<Node>) -> bool {
    forall|j: int, i: int|
        0 <= j < nodes.len() && 0 <= i < nodes[j].inputs@.len() ==> #[trigger] nodes[j].inputs@[i]
            < j
}

/// A plan is its nodes: what a node computes, what it is called and which
/// parameters are declared can be read off them, and operands come first.
pub proof fn law_a_plan_is_its_nodes(plan: Plan, id: NodeId)
    ensures
        plan.count() == plan.listed().len(),
        plan.expr(id) == expr_at(plan.listed(), id.0 as int),
        plan.label(id) == label_text(plan.listed()[id.0 as int].label),
        plan.params() == params_at(plan.listed(), plan.listed().len()),
        plan.wf() <==> operands_first(plan.listed()),
{
}

/// Whether two nodes differ in their labels at most.
pub open spec fn same_but_label(a: Node, b: Node) -> bool {
    &&& a.op == b.op
    &&& a.source == b.source
    &&& a.data == b.data
    &&& a.is_ids == b.is_ids
    &&& a.inputs == b.inputs
    &&& a.shape == b.shape
}

/// The text of an optional label.
pub open spec fn label_text(label: Option<String>) -> Option<Seq<char>> {
    match label {
        Some(text) => Some(text@),
        None => None,
    }
}

impl Plan {
    /// The nodes, in order.
    pub closed spec fn listed(self) -> Seq<Node> {
        self.nodes@
    }

    /// How many nodes there are.
    pub closed spec fn count(self) -> nat {
        self.nodes@.len()
    }

    /// What node `id` computes.
    pub closed spec fn expr(self, id: NodeId) -> Expr {
        expr_at(self.nodes@, id.0 as int)
    }

    /// The label of node `id`.
    pub closed spec fn label(self, id: NodeId) -> Option<Seq<char>> {
        label_text(self.nodes@[id.0 as int].label)
    }

    /// The parameters declared so far, in order: their names and shapes.
    pub closed spec fn params(self) -> Seq<(Seq<char>, Seq<nat>)> {
        params_at(self.nodes@, self.nodes@.len())
    }

    /// The values to be read out.
    pub closed spec fn results(self) -> Seq<NodeId> {
        self.outputs@
    }

    /// Whether there is a node `id`.
    pub open spec fn holds(self, id: NodeId) -> bool {
        id.0 < self.count()
    }

    /// Every operand comes before its use.
    pub closed spec fn wf(self) -> bool {
        operands_first(self.nodes@)
    }

    /// Whether this plan is `before` with nodes added at its end.
    pub open spec fn grows(self, before: Plan) -> bool {
        &&& self.wf()
        &&& before.count() <= self.count()
        &&& self.results() == before.results()
        &&& forall|id: NodeId|
            id.0 < before.count() ==> #[trigger] self.expr(id) == before.expr(id)
        &&& forall|id: NodeId|
            id.0 < before.count() ==> #[trigger] self.label(id) == before.label(id)
    }

    /// Whether this plan is `before` with one unlabelled node `id` added.
    pub open spec fn adds(self, before: Plan, id: NodeId) -> bool {
        &&& self.grows(before)
        &&& id.0 == before.count()
        &&& self.count() == before.count() + 1
        &&& self.label(id) is None
    }

    /// An empty plan.
    pub fn new() -> (plan: Self)
        ensures
            plan.wf(),
            plan.count() == 0,
            plan.params().len() == 0,
            plan.results().len() == 0,
    {
        Plan { nodes: Vec::new(), outputs: Vec::new() }
    }

    /// The nodes, operands first.
    pub fn nodes(&self) -> (nodes: &[Node])
        ensures
            nodes@ == self.listed(),
    {
        self.nodes.as_slice()
    }

    /// The values to be read out.
    pub fn outputs(&self) -> (outputs: &[NodeId])
        ensures
            outputs@ == self.results(),
    {
        self.outputs.as_slice()
    }

    /// Say which values are to be read out.
    pub fn set_outputs(&mut self, outputs: Vec<NodeId>)
        requires
            old(self).wf(),
            forall|i: int| 0 <= i < outputs@.len() ==> old(self).holds(#[trigger] outputs@[i]),
        ensures
            final(self).wf(),
            final(self).listed() == old(self).listed(),
            final(self).count() == old(self).count(),
            final(self).params() == old(self).params(),
            final(self).results() == outputs@,
            forall|id: NodeId| #[trigger] final(self).expr(id) == old(self).expr(id),
            forall|id: NodeId| #[trigger] final(self).label(id) == old(self).label(id),
    {
        self.outputs = outputs;
    }

    fn push(
        &mut self,
        op: Op,
        source: String,
        data: Vec<Binary32>,
        is_ids: bool,
        inputs: Vec<usize>,
        shape: Vec<usize>,
    ) -> (id: NodeId)
        requires
            old(self).wf(),
            forall|i: int| 0 <= i < inputs@.len() ==> #[trigger] inputs@[i] < old(self).count(),
        ensures
            final(self).adds(*old(self), id),
            final(self).expr(id) == (Expr {
                op,
                source: source@,
                data: data@,
                is_ids,
                shape: dims(shape@),
                args: Seq::new(inputs@.len(), |i: int| old(self).expr(NodeId(inputs@[i]))),
            }),
            final(self).params() == if op is Parameter {
                old(self).params().push((source@, dims(shape@)))
            } else {
                old(self).params()
            },
    {
        let id: NodeId = NodeId(self.nodes.len());
        let ghost before = self.nodes@;
        let ghost operands = inputs@;
        self.nodes.push(Node { op, source, data, is_ids, inputs, shape, label: None });
        proof {
            let after = self.nodes@;
            assert forall|j: int| 0 <= j < before.len() implies same_but_label(
                #[trigger] after[j],
                before[j],
            ) by {
                assert(after[j] == before[j]);
            }
            assert forall|j: int, i: int|
                0 <= j < after.len() && 0 <= i < after[j].inputs@.len() implies #[trigger] after[j].inputs@[i]
                < j by {
                if j < before.len() {
                    assert(after[j] == before[j]);
                }
            }
            assert forall|other: NodeId| other.0 < before.len() implies #[trigger] self.expr(other)
                == old(self).expr(other) by {
                lemma_expr_stable(before, after, other.0 as int);
            }
            lemma_params_stable(before, after, before.len());
            let args = Seq::new(operands.len(), |i: int| old(self).expr(NodeId(operands[i])));
            assert forall|i: int| 0 <= i < operands.len() implies #[trigger] self.expr(id).args[i]
                == args[i] by {
                assert(operands[i] < before.len());
                lemma_expr_stable(before, after, operands[i] as int);
            }
            assert(self.expr(id).args =~= args);
        }
        id
    }

    fn push_op(&mut self, op: Op, inputs: Vec<usize>, shape: Vec<usize>) -> (id: NodeId)
        requires
            old(self).wf(),
            !(op is Parameter),
            1 <= inputs@.len() <= 3,
            forall|i: int| 0 <= i < inputs@.len() ==> #[trigger] inputs@[i] < old(self).count(),
        ensures
            final(self).adds(*old(self), id),
            inputs@.len() == 1 ==> final(self).expr(id) == apply(
                op,
                dims(shape@),
                seq![old(self).expr(NodeId(inputs@[0]))],
            ),
            inputs@.len() == 2 ==> final(self).expr(id) == apply(
                op,
                dims(shape@),
                seq![old(self).expr(NodeId(inputs@[0])), old(self).expr(NodeId(inputs@[1]))],
            ),
            inputs@.len() == 3 ==> final(self).expr(id) == apply(
                op,
                dims(shape@),
                seq![
                    old(self).expr(NodeId(inputs@[0])),
                    old(self).expr(NodeId(inputs@[1])),
                    old(self).expr(NodeId(inputs@[2])),
                ],
            ),
            final(self).params() == old(self).params(),
    {
        let ghost operands = inputs@;
        let source: String = String::new();
        let data: Vec<Binary32> = Vec::new();
        let id: NodeId = self.push(op, source, data, false, inputs, shape);
        proof {
            let args = self.expr(id).args;
            if operands.len() == 1 {
                assert(args =~= seq![old(self).expr(NodeId(operands[0]))]);
            } else if operands.len() == 2 {
                assert(args =~= seq![
                    old(self).expr(NodeId(operands[0])),
                    old(self).expr(NodeId(operands[1])),
                ]);
            } else {
                assert(args =~= seq![
                    old(self).expr(NodeId(operands[0])),
                    old(self).expr(NodeId(operands[1])),
                    old(self).expr(NodeId(operands[2])),
                ]);
            }
            assert(data@ =~= Seq::<Binary32>::empty());
        }
        id
    }

    fn shape_of(&self, id: NodeId) -> (shape: Vec<usize>)
        requires
            self.holds(id),
        ensures
            dims(shape@) == self.expr(id).shape,
    {
        let mut shape: Vec<usize> = Vec::new();
        shape.extend_from_slice(self.nodes[id.0].shape.as_slice());
        proof {
            assert(shape@ =~= self.nodes@[id.0 as int].shape@);
        }
        shape
    }

    /// Extent `axis` of node `id`.
    fn extent(&self, id: NodeId, axis: usize) -> (extent: usize)
        requires
            self.holds(id),
            axis < self.expr(id).shape.len(),
        ensures
            extent == self.expr(id).shape[axis as int],
    {
        self.nodes[id.0].shape[axis]
    }

    /// Attach a label to a node.
    pub fn named(&mut self, id: NodeId, label: String) -> (same: NodeId)
        requires
            old(self).wf(),
            old(self).holds(id),
        ensures
            same == id,
            final(self).wf(),
            final(self).count() == old(self).count(),
            final(self).params() == old(self).params(),
            final(self).results() == old(self).results(),
            final(self).label(id) == Some(label@),
            forall|other: NodeId|
                other.0 < old(self).count() ==> #[trigger] final(self).expr(other) == old(
                    self,
                ).expr(other),
            forall|other: NodeId|
                other.0 < old(self).count() && other != id ==> #[trigger] final(self).label(other)
                    == old(self).label(other),
    {
        let ghost before = self.nodes@;
        let ghost text = label@;
        let node: &mut Node = &mut self.nodes[id.0];
        node.label = Some(label);
        proof {
            let after = self.nodes@;
            assert forall|j: int| 0 <= j < before.len() implies same_but_label(
                #[trigger] after[j],
                before[j],
            ) by {
                if j != id.0 {
                    assert(after[j] == before[j]);
                }
            }
            assert forall|j: int, i: int|
                0 <= j < after.len() && 0 <= i < after[j].inputs@.len() implies #[trigger] after[j].inputs@[i]
                < j by {
                assert(same_but_label(after[j], before[j]));
                assert(before[j].inputs@[i] < j);
            }
            assert forall|other: NodeId| other.0 < before.len() implies #[trigger] self.expr(other)
                == old(self).expr(other) by {
                lemma_expr_stable(before, after, other.0 as int);
            }
            lemma_params_stable(before, after, before.len());
        }
        id
    }

    /// Declare an input of numbers.
    pub fn input(&mut self, name: &str, shape: &[usize]) -> (id: NodeId)
        requires
            old(self).wf(),
        ensures
            final(self).adds(*old(self), id),
            final(self).expr(id) == input_expr(name@, dims(shape@), false),
            final(self).params() == old(self).params(),
    {
        self.declare(Op::Input, name, shape, false)
    }

    /// Declare an input of token ids.
    pub fn input_u32(&mut self, name: &str, shape: &[usize]) -> (id: NodeId)
        requires
            old(self).wf(),
        ensures
            final(self).adds(*old(self), id),
            final(self).expr(id) == input_expr(name@, dims(shape@), true),
            final(self).params() == old(self).params(),
    {
        self.declare(Op::Input, name, shape, true)
    }

    /// Declare a parameter.
    pub fn parameter(&mut self, name: &str, shape: &[usize]) -> (id: NodeId)
        requires
            old(self).wf(),
        ensures
            final(self).adds(*old(self), id),
            final(self).expr(id) == parameter_expr(name@, dims(shape@)),
            final(self).params() == old(self).params().push((name@, dims(shape@))),
    {
        self.declare(Op::Parameter, name, shape, false)
    }

    fn declare(&mut self, op: Op, name: &str, shape: &[usize], is_ids: bool) -> (id: NodeId)
        requires
            old(self).wf(),
        ensures
            final(self).adds(*old(self), id),
            final(self).expr(id) == (Expr {
                op,
                source: name@,
                data: Seq::empty(),
                is_ids,
                shape: dims(shape@),
                args: Seq::empty(),
            }),
            final(self).params() == if op is Parameter {
                old(self).params().push((name@, dims(shape@)))
            } else {
                old(self).params()
            },
    {
        let mut extents: Vec<usize> = Vec::new();
        extents.extend_from_slice(shape);
        let data: Vec<Binary32> = Vec::new();
        let inputs: Vec<usize> = Vec::new();
        proof {
            assert(extents@ =~= shape@);
        }
        let id: NodeId = self.push(op, String::from_str(name), data, is_ids, inputs, extents);
        proof {
            assert(data@ =~= Seq::<Binary32>::empty());
            assert(self.expr(id).args =~= Seq::<Expr>::empty());
        }
        id
    }

    /// Fixed data.
    pub fn constant(&mut self, data: Vec<Binary32>, shape: &[usize]) -> (id: NodeId)
        requires
            old(self).wf(),
            data@.len() == elements(dims(shape@)),
        ensures
            final(self).adds(*old(self), id),
            final(self).expr(id) == constant_expr(data@, dims(shape@)),
            final(self).params() == old(self).params(),
    {
        let mut extents: Vec<usize> = Vec::new();
        extents.extend_from_slice(shape);
        let inputs: Vec<usize> = Vec::new();
        proof {
            assert(extents@ =~= shape@);
        }
        let id: NodeId = self.push(Op::Constant, String::new(), data, false, inputs, extents);
        proof {
            assert(self.expr(id).args =~= Seq::<Expr>::empty());
        }
        id
    }

    /// Matrix product.
    pub fn matmul(&mut self, a: NodeId, b: NodeId) -> (id: NodeId)
        requires
            old(self).wf(),
            old(self).holds(a),
            old(self).holds(b),
            old(self).expr(a).shape.len() == 2,
            old(self).expr(b).shape.len() == 2,
            old(self).expr(a).shape[1] == old(self).expr(b).shape[0],
        ensures
            final(self).adds(*old(self), id),
            final(self).expr(id) == matmul(old(self).expr(a), old(self).expr(b)),
            final(self).params() == old(self).params(),
    {
        let shape: Vec<usize> = vec![self.extent(a, 0), self.extent(b, 1)];
        proof {
            assert(dims(shape@) =~= seq![self.expr(a).shape[0], self.expr(b).shape[1]]);
        }
        self.push_op(Op::MatMul, vec![a.0, b.0], shape)
    }

    /// Elementwise sum.
    pub fn add(&mut self, a: NodeId, b: NodeId) -> (id: NodeId)
        requires
            old(self).wf(),
            old(self).holds(a),
            old(self).holds(b),
            !old(self).expr(a).is_ids,
            !old(self).expr(b).is_ids,
            old(self).expr(a).shape == old(self).expr(b).shape,
        ensures
            final(self).adds(*old(self), id),
            final(self).expr(id) == sum(old(self).expr(a), old(self).expr(b)),
            final(self).params() == old(self).params(),
    {
        let shape: Vec<usize> = self.shape_of(a);
        self.push_op(Op::Add, vec![a.0, b.0], shape)
    }

    /// Elementwise product.
    pub fn mul(&mut self, a: NodeId, b: NodeId) -> (id: NodeId)
        requires
            old(self).wf(),
            old(self).holds(a),
            old(self).holds(b),
            !old(self).expr(a).is_ids,
            !old(self).expr(b).is_ids,
            old(self).expr(a).shape == old(self).expr(b).shape,
        ensures
            final(self).adds(*old(self), id),
            final(self).expr(id) == product(old(self).expr(a), old(self).expr(b)),
            final(self).params() == old(self).params(),
    {
        let shape: Vec<usize> = self.shape_of(a);
        self.push_op(Op::Mul, vec![a.0, b.0], shape)
    }

    /// `silu(a) * b`.
    pub fn swiglu(&mut self, a: NodeId, b: NodeId) -> (id: NodeId)
        requires
            old(self).wf(),
            old(self).holds(a),
            old(self).holds(b),
            !old(self).expr(a).is_ids,
            !old(self).expr(b).is_ids,
            old(self).expr(a).shape == old(self).expr(b).shape,
        ensures
            final(self).adds(*old(self), id),
            final(self).expr(id) == swiglu(old(self).expr(a), old(self).expr(b)),
            final(self).params() == old(self).params(),
    {
        let shape: Vec<usize> = self.shape_of(a);
        self.push_op(Op::SwiGlu, vec![a.0, b.0], shape)
    }

    /// `x * sigmoid(x)`.
    pub fn silu(&mut self, x: NodeId) -> (id: NodeId)
        requires
            old(self).wf(),
            old(self).holds(x),
            !old(self).expr(x).is_ids,
        ensures
            final(self).adds(*old(self), id),
            final(self).expr(id) == unary(Op::Silu, old(self).expr(x)),
            final(self).params() == old(self).params(),
    {
        let shape: Vec<usize> = self.shape_of(x);
        self.push_op(Op::Silu, vec![x.0], shape)
    }

    /// The logistic function.
    pub fn sigmoid(&mut self, x: NodeId) -> (id: NodeId)
        requires
            old(self).wf(),
            old(self).holds(x),
            !old(self).expr(x).is_ids,
        ensures
            final(self).adds(*old(self), id),
            final(self).expr(id) == unary(Op::Sigmoid, old(self).expr(x)),
            final(self).params() == old(self).params(),
    {
        let shape: Vec<usize> = self.shape_of(x);
        self.push_op(Op::Sigmoid, vec![x.0], shape)
    }

    /// The hyperbolic tangent.
    pub fn tanh(&mut self, x: NodeId) -> (id: NodeId)
        requires
            old(self).wf(),
            old(self).holds(x),
            !old(self).expr(x).is_ids,
        ensures
            final(self).adds(*old(self), id),
            final(self).expr(id) == unary(Op::Tanh, old(self).expr(x)),
            final(self).params() == old(self).params(),
    {
        let shape: Vec<usize> = self.shape_of(x);
        self.push_op(Op::Tanh, vec![x.0], shape)
    }

    /// The operand, with no gradient path back to it.
    pub fn stop_gradient(&mut self, x: NodeId) -> (id: NodeId)
        requires
            old(self).wf(),
            old(self).holds(x),
            !old(self).expr(x).is_ids,
        ensures
            final(self).adds(*old(self), id),
            final(self).expr(id) == unary(Op::StopGradient, old(self).expr(x)),
            final(self).params() == old(self).params(),
    {
        let shape: Vec<usize> = self.shape_of(x);
        self.push_op(Op::StopGradient, vec![x.0], shape)
    }

    /// Add a vector to every row.
    pub fn bias_add(&mut self, a: NodeId, bias: NodeId) -> (id: NodeId)
        requires
            old(self).wf(),
            old(self).holds(a),
            old(self).holds(bias),
            !old(self).expr(a).is_ids,
            old(self).expr(a).shape.len() == 2,
            old(self).expr(bias).shape.len() == 1,
            old(self).expr(a).shape[1] == old(self).expr(bias).shape[0],
        ensures
            final(self).adds(*old(self), id),
            final(self).expr(id) == biased(old(self).expr(a), old(self).expr(bias)),
            final(self).params() == old(self).params(),
    {
        let shape: Vec<usize> = self.shape_of(a);
        self.push_op(Op::BiasAdd, vec![a.0, bias.0], shape)
    }

    /// Root-mean-square normalisation of every row.
    pub fn rms_norm(&mut self, x: NodeId, weight: NodeId, eps: Binary32) -> (id: NodeId)
        requires
            old(self).wf(),
            old(self).holds(x),
            old(self).holds(weight),
            !old(self).expr(x).is_ids,
            old(self).expr(x).shape.len() == 2,
            old(self).expr(weight).shape.len() == 1,
            old(self).expr(x).shape[1] == old(self).expr(weight).shape[0],
        ensures
            final(self).adds(*old(self), id),
            final(self).expr(id) == normed(old(self).expr(x), old(self).expr(weight), eps),
            final(self).params() == old(self).params(),
    {
        let shape: Vec<usize> = self.shape_of(x);
        self.push_op(Op::RmsNorm { eps }, vec![x.0, weight.0], shape)
    }

    /// Rotary position embedding.
    pub fn rope(&mut self, x: NodeId, theta: Binary32, head_dim: u32) -> (id: NodeId)
        requires
            old(self).wf(),
            old(self).holds(x),
            !old(self).expr(x).is_ids,
            old(self).expr(x).shape.len() == 2,
            old(self).expr(x).shape[1] <= u32::MAX,
            old(self).expr(x).shape[1] % 2 == 0,
            head_dim > 0,
            head_dim % 2 == 0,
            old(self).expr(x).shape[1] % (head_dim as nat) == 0,
        ensures
            final(self).adds(*old(self), id),
            final(self).expr(id) == unary(Op::Rope { theta, head_dim }, old(self).expr(x)),
            final(self).params() == old(self).params(),
    {
        let shape: Vec<usize> = self.shape_of(x);
        self.push_op(Op::Rope { theta, head_dim }, vec![x.0], shape)
    }

    /// Rows of a table, picked by token ids.
    pub fn embedding(&mut self, ids: NodeId, table: NodeId) -> (id: NodeId)
        requires
            old(self).wf(),
            old(self).holds(ids),
            old(self).holds(table),
            old(self).expr(ids).is_ids,
            old(self).expr(ids).shape.len() == 1,
            old(self).expr(table).shape.len() == 2,
        ensures
            final(self).adds(*old(self), id),
            final(self).expr(id) == embedded(old(self).expr(ids), old(self).expr(table)),
            final(self).params() == old(self).params(),
    {
        let shape: Vec<usize> = vec![self.extent(ids, 0), self.extent(table, 1)];
        proof {
            assert(dims(shape@) =~= seq![self.expr(ids).shape[0], self.expr(table).shape[1]]);
        }
        self.push_op(Op::Embedding, vec![ids.0, table.0], shape)
    }

    /// Attention without a mask.
    pub fn multi_head_attn(
        &mut self,
        q: NodeId,
        k: NodeId,
        v: NodeId,
        num_heads: u32,
        num_kv_heads: u32,
        head_dim: u32,
        is_cross: bool,
    ) -> (id: NodeId)
        requires
            old(self).wf(),
            old(self).holds(q),
            old(self).holds(k),
            old(self).holds(v),
            num_heads * head_dim <= u32::MAX,
            num_kv_heads * head_dim <= u32::MAX,
            old(self).expr(q).shape.len() == 2,
            old(self).expr(k).shape.len() == 2,
            old(self).expr(v).shape.len() == 2,
            old(self).expr(q).shape[1] == num_heads * head_dim,
            old(self).expr(k).shape[1] == num_kv_heads * head_dim,
            old(self).expr(v).shape == old(self).expr(k).shape,
        ensures
            final(self).adds(*old(self), id),
            final(self).expr(id) == attended(
                old(self).expr(q),
                old(self).expr(k),
                old(self).expr(v),
                num_heads,
                num_kv_heads,
                head_dim,
                is_cross,
            ),
            final(self).params() == old(self).params(),
    {
        let shape: Vec<usize> = vec![self.extent(q, 0), self.extent(q, 1)];
        proof {
            assert(dims(shape@) =~= seq![
                self.expr(q).shape[0],
                (num_heads * head_dim) as nat,
            ]);
        }
        self.push_op(
            Op::MultiHeadAttn { num_heads, num_kv_heads, head_dim, is_cross },
            vec![q.0, k.0, v.0],
            shape,
        )
    }

    /// The same elements under another shape.
    pub fn reshape(&mut self, x: NodeId, shape: &[usize]) -> (id: NodeId)
        requires
            old(self).wf(),
            old(self).holds(x),
            !old(self).expr(x).is_ids,
            elements(dims(shape@)) == elements(old(self).expr(x).shape),
        ensures
            final(self).adds(*old(self), id),
            final(self).expr(id) == reshaped(old(self).expr(x), dims(shape@)),
            final(self).params() == old(self).params(),
    {
        let mut extents: Vec<usize> = Vec::new();
        extents.extend_from_slice(shape);
        proof {
            assert(extents@ =~= shape@);
        }
        self.push_op(Op::Reshape, vec![x.0], extents)
    }

    /// Join two flat values along their channels.
    pub fn concat(
        &mut self,
        a: NodeId,
        b: NodeId,
        batch: u32,
        channels_a: u32,
        channels_b: u32,
        spatial: u32,
    ) -> (id: NodeId)
        requires
            old(self).wf(),
            old(self).holds(a),
            old(self).holds(b),
            channels_a + channels_b <= u32::MAX,
            batch * (channels_a + channels_b) * spatial <= usize::MAX,
            old(self).expr(a).shape == seq![(batch * channels_a * spatial) as nat],
            old(self).expr(b).shape == seq![(batch * channels_b * spatial) as nat],
        ensures
            final(self).adds(*old(self), id),
            final(self).expr(id) == joined(
                old(self).expr(a),
                old(self).expr(b),
                batch,
                channels_a,
                channels_b,
                spatial,
            ),
            final(self).params() == old(self).params(),
    {
        let total: usize = flat_len(batch, channels_a + channels_b, spatial);
        let shape: Vec<usize> = vec![total];
        proof {
            assert(dims(shape@) =~= seq![
                (batch * (channels_a + channels_b) * spatial) as nat,
            ]);
        }
        self.push_op(
            Op::Concat { batch, channels_a, channels_b, spatial },
            vec![a.0, b.0],
            shape,
        )
    }

    /// The first channels of a flat value.
    pub fn split_a(
        &mut self,
        x: NodeId,
        batch: u32,
        channels_a: u32,
        channels_b: u32,
        spatial: u32,
    ) -> (id: NodeId)
        requires
            old(self).wf(),
            old(self).holds(x),
            batch * (channels_a + channels_b) * spatial <= usize::MAX,
            old(self).expr(x).shape == seq![
                (batch * (channels_a + channels_b) * spatial) as nat,
            ],
        ensures
            final(self).adds(*old(self), id),
            final(self).expr(id) == first_channels(
                old(self).expr(x),
                batch,
                channels_a,
                channels_b,
                spatial,
            ),
            final(self).params() == old(self).params(),
    {
        proof {
            assert(batch * channels_a * spatial <= batch * (channels_a + channels_b) * spatial)
                by (nonlinear_arith);
        }
        let total: usize = flat_len(batch, channels_a, spatial);
        let shape: Vec<usize> = vec![total];
        proof {
            assert(dims(shape@) =~= seq![(batch * channels_a * spatial) as nat]);
        }
        self.push_op(Op::SplitA { batch, channels_a, channels_b, spatial }, vec![x.0], shape)
    }

    /// The last channels of a flat value.
    pub fn split_b(
        &mut self,
        x: NodeId,
        batch: u32,
        channels_a: u32,
        channels_b: u32,
        spatial: u32,
    ) -> (id: NodeId)
        requires
            old(self).wf(),
            old(self).holds(x),
            batch * (channels_a + channels_b) * spatial <= usize::MAX,
            old(self).expr(x).shape == seq![
                (batch * (channels_a + channels_b) * spatial) as nat,
            ],
        ensures
            final(self).adds(*old(self), id),
            final(self).expr(id) == last_channels(
                old(self).expr(x),
                batch,
                channels_a,
                channels_b,
                spatial,
            ),
            final(self).params() == old(self).params(),
    {
        proof {
            assert(batch * channels_b * spatial <= batch * (channels_a + channels_b) * spatial)
                by (nonlinear_arith);
        }
        let total: usize = flat_len(batch, channels_b, spatial);
        let shape: Vec<usize> = vec![total];
        proof {
            assert(dims(shape@) =~= seq![(batch * channels_b * spatial) as nat]);
        }
        self.push_op(Op::SplitB { batch, channels_a, channels_b, spatial }, vec![x.0], shape)
    }

    /// Repeat every row's scalar across `inner` columns.
    pub fn broadcast_inner(&mut self, x: NodeId, inner: usize) -> (id: NodeId)
        requires
            old(self).wf(),
            old(self).holds(x),
            old(self).expr(x).shape.len() == 2,
            old(self).expr(x).shape[1] == 1,
            0 < inner <= u32::MAX,
        ensures
            final(self).adds(*old(self), id),
            final(self).expr(id) == spread(old(self).expr(x), inner as u32),
            final(self).params() == old(self).params(),
    {
        let shape: Vec<usize> = vec![self.extent(x, 0), inner];
        proof {
            assert(dims(shape@) =~= seq![self.expr(x).shape[0], inner as nat]);
        }
        self.push_op(Op::BroadcastInner { inner: inner as u32 }, vec![x.0], shape)
    }

    /// Cross-entropy of logits against labels.
    pub fn cross_entropy_loss(&mut self, logits: NodeId, labels: NodeId) -> (id: NodeId)
        requires
            old(self).wf(),
            old(self).holds(logits),
            old(self).holds(labels),
            old(self).expr(logits).shape == old(self).expr(labels).shape,
        ensures
            final(self).adds(*old(self), id),
            final(self).expr(id) == apply(
                Op::CrossEntropy,
                seq![1nat],
                seq![old(self).expr(logits), old(self).expr(labels)],
            ),
            final(self).params() == old(self).params(),
    {
        let shape: Vec<usize> = vec![1];
        proof {
            assert(dims(shape@) =~= seq![1nat]);
        }
        self.push_op(Op::CrossEntropy, vec![logits.0, labels.0], shape)
    }
}

/// The length of a flat `[batch, channels, spatial]` value.
fn flat_len(batch: u32, channels: u32, spatial: u32) -> (total: usize)
    requires
        batch * channels * spatial <= usize::MAX,
    ensures
        total == batch * channels * spatial,
{
    proof {
        let (b, c, s) = (batch as int, channels as int, spatial as int);
        assert(0 <= b * c <= 0xFFFF_FFFF * 0xFFFF_FFFF) by (nonlinear_arith)
            requires
                0 <= b <= 0xFFFF_FFFF,
                0 <= c <= 0xFFFF_FFFF,
        ;
        assert(0 <= (b * c) * s) by (nonlinear_arith)
            requires
                0 <= b * c,
                0 <= s,
        ;
    }
    let per_batch: u64 = batch as u64 * channels as u64;
    (per_batch as u128 * spatial as u128) as usize
}

} // verus!
