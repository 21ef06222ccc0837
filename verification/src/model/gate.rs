//! The soft, `t`-conditioned gate on the CCA block's contribution.
//!
//! # The zero-init requirement
//!
//! Anaphora is a retrofit: a pretrained masked-diffusion backbone is frozen
//! and only the neighbour encoder, the CCA blocks, and these gates train. At
//! step 0 the CCA block's output is a function of freshly initialised
//! projections: it is noise. Adding any fixed fraction of it into a frozen
//! backbone's residual stream destroys the calibration that made the backbone
//! worth retrofitting.
//!
//! So the block must be *exactly* the identity at initialisation.
//!
//! # Why the obvious construction is not
//!
//! Zero weights and a zero bias in the last layer make the pre-activation
//! zero, and `sigmoid(0) = 0.5`: half of an untrained cross-attention output
//! would go into the residual stream on the first forward pass. Pushing the
//! bias to a large negative number instead gets `sigmoid` close to zero, but
//! its derivative is then close to zero too and the soft gate is slow to open.
//!
//! # What this module does
//!
//! Both available activations are exactly zero at zero pre-activation *and*
//! have a healthy derivative there:
//!
//! * [`GateActivation::Tanh`]: `tanh(0) = 0`, `tanh'(0) = 1`. The soft gate may go
//!   negative, which lets a block subtract retrieved context as well as add
//!   it.
//! * [`GateActivation::ScaledSigmoid`]: `sigmoid(pre) * alpha` with `alpha` a
//!   zero-initialised learned scalar. Keeps the soft gate proper in `[0, 1]` and
//!   still starts at exact identity.
use super::plan::{NodeId, Plan};
use super::rows::append_column;
use crate::binary32::{Binary32, ONE_BITS};
use crate::text::joined;
use vstd::prelude::*;
use vstd::string::*;

verus! {

/// How the soft gate's scalar pre-activation becomes a multiplier.
///
/// Both variants satisfy the retrofit requirement: exact identity at
/// initialisation, non-vanishing gradient. Plain `sigmoid` is deliberately
/// not offered: see the module header.
#[derive(Clone, Copy, Debug, PartialEq, Eq, Structural)]
pub enum GateActivation {
    /// `tanh(pre)`. Exact zero at init, unit derivative, signed.
    Tanh,
    /// `sigmoid(pre) * alpha`, `alpha` a zero-init learned scalar. Exact zero
    /// at init, non-negative.
    ScaledSigmoid,
}

impl Default for GateActivation {
    fn default() -> (activation: Self)
        ensures
            activation == GateActivation::Tanh,
    {
        GateActivation::Tanh
    }
}

/// Parameter names for one gate, so a checkpoint loader and the freezing pass
/// can find them without re-deriving the format string.
#[derive(Clone, Debug, PartialEq, Eq)]
pub struct GateParams {
    /// `[d + 1, d]` first-layer weight.
    pub w1: String,
    /// `[d]` first-layer bias.
    pub b1: String,
    /// `[d, 1]` second-layer weight, zero-initialised.
    pub w2: String,
    /// `[1]` second-layer bias, zero-initialised.
    pub b2: String,
    /// `[1, 1]` output scale, present only for
    /// [`GateActivation::ScaledSigmoid`], zero-initialised.
    pub alpha: Option<String>,
}

/// The texts of borrowed names.
pub open spec fn texts(names: Seq<&str>) -> Seq<Seq<char>> {
    Seq::new(names.len(), |i: int| names[i]@)
}

/// The texts of owned names.
pub open spec fn owned_texts(names: Seq<String>) -> Seq<Seq<char>> {
    Seq::new(names.len(), |i: int| names[i]@)
}

/// The text of an optional name, as a list.
pub open spec fn maybe_text(name: Option<String>) -> Seq<Seq<char>> {
    match name {
        Some(text) => seq![text@],
        None => Seq::empty(),
    }
}

impl GateParams {
    /// The names of these parameters.
    pub open spec fn all_texts(self) -> Seq<Seq<char>> {
        seq![self.w1@, self.b1@, self.w2@, self.b2@] + maybe_text(self.alpha)
    }

    /// The names that start at zero.
    pub open spec fn zero_texts(self) -> Seq<Seq<char>> {
        seq![self.w2@, self.b2@] + maybe_text(self.alpha)
    }

    /// Every parameter name this gate owns.
    pub fn names(&self) -> (names: Vec<&str>)
        ensures
            texts(names@) == self.all_texts(),
    {
        let mut names: Vec<&str> = Vec::new();
        names.push(self.w1.as_str());
        names.push(self.b1.as_str());
        names.push(self.w2.as_str());
        names.push(self.b2.as_str());
        match &self.alpha {
            Some(alpha) => {
                names.push(alpha.as_str());
            },
            None => {},
        }
        proof {
            assert(texts(names@) =~= self.all_texts());
        }
        names
    }

    /// The names that must be initialised to exactly zero for the block to
    /// start as the identity.
    ///
    /// A session initialises parameters itself, so a trainer has to write
    /// these explicitly before the first step. [`zero_init_names`] is the same
    /// list for a whole model.
    pub fn zero_init_names(&self) -> (names: Vec<&str>)
        ensures
            texts(names@) == self.zero_texts(),
    {
        let mut names: Vec<&str> = Vec::new();
        names.push(self.w2.as_str());
        names.push(self.b2.as_str());
        match &self.alpha {
            Some(alpha) => {
                names.push(alpha.as_str());
            },
            None => {},
        }
        proof {
            assert(texts(names@) =~= self.zero_texts());
        }
        names
    }
}

/// The parameters a gate under `prefix` declares: names and shapes.
pub open spec fn gate_params(prefix: Seq<char>, d: nat, activation: GateActivation) -> Seq<
    (Seq<char>, Seq<nat>),
> {
    seq![
        (prefix + ".w1"@, seq![d + 1, d]),
        (prefix + ".b1"@, seq![d]),
        (prefix + ".w2"@, seq![d, 1nat]),
        (prefix + ".b2"@, seq![1nat]),
    ] + match activation {
        GateActivation::ScaledSigmoid => seq![(prefix + ".alpha"@, seq![1nat, 1nat])],
        GateActivation::Tanh => Seq::empty(),
    }
}

/// The names of a list of parameters.
pub open spec fn param_texts(params: Seq<(Seq<char>, Seq<nat>)>) -> Seq<Seq<char>> {
    Seq::new(params.len(), |i: int| params[i].0)
}

/// The names of two lists of parameters, one after the other.
pub proof fn lemma_param_texts(
    a: Seq<(Seq<char>, Seq<nat>)>,
    b: Seq<(Seq<char>, Seq<nat>)>,
)
    ensures
        param_texts(a + b) == param_texts(a) + param_texts(b),
{
    assert(param_texts(a + b) =~= param_texts(a) + param_texts(b));
}

/// The texts of names with one more.
pub proof fn lemma_owned_texts(names: Seq<String>, more: String)
    ensures
        owned_texts(names.push(more)) == owned_texts(names).push(more@),
{
    assert(owned_texts(names.push(more)) =~= owned_texts(names).push(more@));
}

/// `rows` ones.
pub open spec fn ones(rows: nat) -> Seq<Binary32> {
    Seq::new(rows, |i: int| Binary32 { bits: ONE_BITS })
}

/// What a gate multiplies the rows of `h` by, at the noise levels `t`.
pub open spec fn gate_expr(
    prefix: Seq<char>,
    d: nat,
    activation: GateActivation,
    h: super::plan::Expr,
    t: super::plan::Expr,
    rows: nat,
) -> super::plan::Expr {
    let w1 = super::plan::parameter_expr(prefix + ".w1"@, seq![d + 1, d]);
    let b1 = super::plan::parameter_expr(prefix + ".b1"@, seq![d]);
    let w2 = super::plan::parameter_expr(prefix + ".w2"@, seq![d, 1nat]);
    let b2 = super::plan::parameter_expr(prefix + ".b2"@, seq![1nat]);
    let conditioned = super::rows::widened(h, t, rows, d);
    let hidden = super::plan::unary(
        super::plan::Op::Silu,
        super::plan::biased(super::plan::matmul(conditioned, w1), b1),
    );
    let pre = super::plan::biased(super::plan::matmul(hidden, w2), b2);
    let scalar = match activation {
        GateActivation::Tanh => super::plan::unary(super::plan::Op::Tanh, pre),
        GateActivation::ScaledSigmoid => super::plan::product(
            super::plan::unary(super::plan::Op::Sigmoid, pre),
            super::plan::matmul(
                super::plan::constant_expr(ones(rows), seq![rows, 1nat]),
                super::plan::parameter_expr(prefix + ".alpha"@, seq![1nat, 1nat]),
            ),
        ),
    };
    super::plan::spread(scalar, d as u32)
}

/// The `t`-conditioned gate MLP.
///
/// `[H, t] -> Linear(d+1, d) -> SiLU -> Linear(d, 1) -> activation`, then
/// broadcast across `d` so it scales the whole row.
///
/// Conditioning on `t` is what lets the soft gate learn the shape the hard gate
/// only approximates: retrieval is worth less when the query is mostly
/// `[MASK]`, and the soft gate can discover that boundary rather than have it
/// imposed at a fixed threshold.
///
/// Parameter *nodes* are created once, in [`TimeConditionedGate::new`], and
/// the ids are reused by every [`TimeConditionedGate::forward`] call.
/// Re-declaring a name would allocate a second buffer holding a second copy of
/// the same logical weight.
#[derive(Clone, Debug)]
pub struct TimeConditionedGate {
    params: GateParams,
    activation: GateActivation,
    d: usize,
    w1: NodeId,
    b1: NodeId,
    w2: NodeId,
    b2: NodeId,
    alpha: Option<NodeId>,
}

impl TimeConditionedGate {
    /// The names of the soft gate's parameters.
    pub closed spec fn names(self) -> GateParams {
        self.params
    }

    /// The activation.
    pub closed spec fn kind(self) -> GateActivation {
        self.activation
    }

    /// The row width.
    pub closed spec fn width(self) -> nat {
        self.d as nat
    }

    /// What the names of the soft gate's parameters start with.
    pub closed spec fn prefix(self) -> Seq<char> {
        self.params.w1@.take(self.params.w1@.len() - ".w1"@.len())
    }

    /// Whether `g` holds the parameters of this gate.
    pub closed spec fn declared(self, g: Plan) -> bool {
        let d = self.d as nat;
        let prefix = self.prefix();
        &&& self.params.w1@ == prefix + ".w1"@
        &&& self.params.b1@ == prefix + ".b1"@
        &&& self.params.w2@ == prefix + ".w2"@
        &&& self.params.b2@ == prefix + ".b2"@
        &&& g.holds(self.w1)
        &&& g.holds(self.b1)
        &&& g.holds(self.w2)
        &&& g.holds(self.b2)
        &&& g.expr(self.w1) == super::plan::parameter_expr(prefix + ".w1"@, seq![d + 1, d])
        &&& g.expr(self.b1) == super::plan::parameter_expr(prefix + ".b1"@, seq![d])
        &&& g.expr(self.w2) == super::plan::parameter_expr(prefix + ".w2"@, seq![d, 1nat])
        &&& g.expr(self.b2) == super::plan::parameter_expr(prefix + ".b2"@, seq![1nat])
        &&& match self.activation {
            GateActivation::Tanh => self.params.alpha is None,
            GateActivation::ScaledSigmoid => {
                &&& self.params.alpha is Some
                &&& self.params.alpha->0@ == prefix + ".alpha"@
                &&& self.alpha is Some
                &&& g.holds(self.alpha->0)
                &&& g.expr(self.alpha->0) == super::plan::parameter_expr(
                    prefix + ".alpha"@,
                    seq![1nat, 1nat],
                )
            },
        }
    }

    /// A gate that is declared stays declared as the plan grows.
    pub proof fn lemma_stays(self, before: Plan, after: Plan)
        requires
            self.declared(before),
            after.grows(before),
        ensures
            self.declared(after),
    {
    }

    /// A declared gate is called what its prefix says.
    pub proof fn lemma_texts(self, g: Plan)
        requires
            self.declared(g),
        ensures
            self.names().all_texts() == param_texts(
                gate_params(self.prefix(), self.width(), self.kind()),
            ),
            forall|i: int|
                0 <= i < self.names().zero_texts().len() ==> self.names().all_texts().contains(
                    #[trigger] self.names().zero_texts()[i],
                ),
    {
        let all = self.names().all_texts();
        assert(all =~= param_texts(gate_params(self.prefix(), self.width(), self.kind())));
        let zero = self.names().zero_texts();
        assert forall|i: int| 0 <= i < zero.len() implies all.contains(#[trigger] zero[i]) by {
            assert(zero[i] == all[i + 2]);
        }
    }

    /// Declare a gate's parameters under `prefix`.
    pub fn new(g: &mut Plan, prefix: &str, d: usize, activation: GateActivation) -> (gate: Self)
        requires
            old(g).wf(),
            d < usize::MAX,
        ensures
            final(g).grows(*old(g)),
            gate.declared(*final(g)),
            gate.prefix() == prefix@,
            gate.kind() == activation,
            gate.width() == d,
            final(g).params() == old(g).params() + gate_params(prefix@, d as nat, activation),
    {
        let alpha_name: Option<String> = match activation {
            GateActivation::ScaledSigmoid => Some(joined(prefix, ".alpha")),
            GateActivation::Tanh => None,
        };
        let params = GateParams {
            w1: joined(prefix, ".w1"),
            b1: joined(prefix, ".b1"),
            w2: joined(prefix, ".w2"),
            b2: joined(prefix, ".b2"),
            alpha: alpha_name,
        };
        let w1_shape: [usize; 2] = [d + 1, d];
        let b1_shape: [usize; 1] = [d];
        let w2_shape: [usize; 2] = [d, 1];
        let b2_shape: [usize; 1] = [1];
        let alpha_shape: [usize; 2] = [1, 1];
        proof {
            super::rows::lemma_dims(w1_shape@);
            super::rows::lemma_dims(b1_shape@);
            super::rows::lemma_dims(w2_shape@);
            super::rows::lemma_dims(b2_shape@);
            super::rows::lemma_dims(alpha_shape@);
        }
        let w1: NodeId = g.parameter(params.w1.as_str(), w1_shape.as_slice());
        let b1: NodeId = g.parameter(params.b1.as_str(), b1_shape.as_slice());
        let w2: NodeId = g.parameter(params.w2.as_str(), w2_shape.as_slice());
        let b2: NodeId = g.parameter(params.b2.as_str(), b2_shape.as_slice());
        let alpha: Option<NodeId> = match &params.alpha {
            Some(name) => Some(g.parameter(name.as_str(), alpha_shape.as_slice())),
            None => None,
        };
        proof {
            assert(g.params() =~= old(g).params() + gate_params(prefix@, d as nat, activation));
            assert(params.w1@.take(params.w1@.len() - ".w1"@.len()) =~= prefix@);
        }
        TimeConditionedGate { params, activation, d, w1, b1, w2, b2, alpha }
    }

    /// This gate's parameter names.
    pub fn params(&self) -> (params: &GateParams)
        ensures
            *params == self.names(),
    {
        &self.params
    }

    /// The activation this gate uses.
    pub fn activation(&self) -> (activation: GateActivation)
        ensures
            activation == self.kind(),
    {
        self.activation
    }

    /// Build the soft gate multiplier for `h`, shape `[rows, d]`.
    ///
    /// `t_col` is `[rows, 1]`, one noise level per row. It is an input rather
    /// than a constant because `t` changes every denoising step and
    /// recompiling the graph per step is not an option.
    pub fn forward(
        &self,
        g: &mut Plan,
        h: NodeId,
        t_col: NodeId,
        rows: usize,
    ) -> (id: NodeId)
        requires
            old(g).wf(),
            self.declared(*old(g)),
            old(g).holds(h),
            old(g).holds(t_col),
            !old(g).expr(h).is_ids,
            !old(g).expr(t_col).is_ids,
            old(g).expr(h).shape == seq![rows as nat, self.width()],
            old(g).expr(t_col).shape == seq![rows as nat, 1nat],
            rows <= u32::MAX,
            0 < self.width() < u32::MAX,
            rows * (self.width() + 1) <= usize::MAX,
        ensures
            final(g).grows(*old(g)),
            final(g).holds(id),
            id.0 >= old(g).count(),
            final(g).expr(id) == gate_expr(
                self.prefix(),
                self.width(),
                self.kind(),
                old(g).expr(h),
                old(g).expr(t_col),
                rows as nat,
            ),
            final(g).expr(id).shape == seq![rows as nat, self.width()],
            !final(g).expr(id).is_ids,
            final(g).label(id) is None,
            final(g).params() == old(g).params(),
    {
        let d: usize = self.d;
        let conditioned: NodeId = append_column(g, h, t_col, rows, d);
        let hidden: NodeId = g.matmul(conditioned, self.w1);
        let hidden: NodeId = g.bias_add(hidden, self.b1);
        let hidden: NodeId = g.silu(hidden);
        let pre: NodeId = g.matmul(hidden, self.w2);
        let pre: NodeId = g.bias_add(pre, self.b2);
        let scalar: NodeId = match self.activation {
            GateActivation::Tanh => g.tanh(pre),
            GateActivation::ScaledSigmoid => {
                let squashed: NodeId = g.sigmoid(pre);
                // A `[rows, 1]` broadcast of one trainable scalar: multiply a
                // constant ones column by the `[1, 1]` parameter.
                let column: Vec<Binary32> = ones_column(rows);
                let shape: [usize; 2] = [rows, 1];
                proof {
                    super::rows::lemma_dims(shape@);
                    super::rows::lemma_elements(rows as nat, 1);
                    assert(rows * 1 == rows) by (nonlinear_arith);
                }
                let ones: NodeId = g.constant(column, shape.as_slice());
                match self.alpha {
                    Some(alpha) => {
                        let scaled: NodeId = g.matmul(ones, alpha);
                        g.mul(squashed, scaled)
                    },
                    None => squashed,
                }
            },
        };
        g.broadcast_inner(scalar, d)
    }
}

/// `rows` ones.
fn ones_column(rows: usize) -> (column: Vec<Binary32>)
    ensures
        column@ == ones(rows as nat),
{
    let mut column: Vec<Binary32> = Vec::new();
    let mut i: usize = 0;
    while i < rows
        invariant
            i <= rows,
            column@ == ones(i as nat),
        decreases rows - i,
    {
        column.push(Binary32::from_bits(ONE_BITS));
        proof {
            assert(column@ =~= ones((i + 1) as nat));
        }
        i = i + 1;
    }
    column
}

/// The zero-init names of the first `upto` gates, gate after gate.
pub open spec fn zero_texts_of(gates: Seq<TimeConditionedGate>, upto: nat) -> Seq<Seq<char>>
    decreases upto,
{
    if upto == 0 {
        Seq::empty()
    } else {
        zero_texts_of(gates, (upto - 1) as nat) + gates[upto - 1].names().zero_texts()
    }
}

/// Append copies of borrowed names.
pub fn append_names(names: &mut Vec<String>, more: &[&str])
    ensures
        owned_texts(final(names)@) == owned_texts(old(names)@) + texts(more@),
{
    let ghost before = owned_texts(names@);
    proof {
        assert(owned_texts(names@) =~= before + texts(more@).take(0));
    }
    let mut i: usize = 0;
    while i < more.len()
        invariant
            i <= more@.len(),
            owned_texts(names@) == before + texts(more@).take(i as int),
        decreases more.len() - i,
    {
        let ghost now = names@;
        names.push(String::from_str(more[i]));
        proof {
            assert(owned_texts(names@) =~= owned_texts(now).push(more@[i as int]@));
            assert(owned_texts(names@) =~= before + texts(more@).take(i + 1));
        }
        i = i + 1;
    }
    proof {
        assert(texts(more@).take(i as int) =~= texts(more@));
    }
}

/// Collect the zero-init parameter names for a set of gates.
pub fn zero_init_names(gates: &[TimeConditionedGate]) -> (names: Vec<String>)
    ensures
        owned_texts(names@) == zero_texts_of(gates@, gates@.len()),
{
    let mut names: Vec<String> = Vec::new();
    proof {
        assert(owned_texts(names@) =~= zero_texts_of(gates@, 0));
    }
    let mut i: usize = 0;
    while i < gates.len()
        invariant
            i <= gates@.len(),
            owned_texts(names@) == zero_texts_of(gates@, i as nat),
        decreases gates.len() - i,
    {
        let more: Vec<&str> = gates[i].params.zero_init_names();
        append_names(&mut names, more.as_slice());
        i = i + 1;
    }
    names
}

} // verus!
