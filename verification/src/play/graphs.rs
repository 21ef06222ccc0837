//! The three graphs the interactive program runs: pretraining the backbone,
//! training the retrofit, and generating.
use crate::model::backbone::{Backbone, BackboneConfig, Freezing};
use crate::model::plan::{NodeId, Plan};
use crate::model::{CcaModel, ModelConfig};
use vstd::prelude::*;

verus! {

/// The residual of a backbone that trains, after its first `upto` layers.
pub open spec fn pretrain_residual(
    cfg: BackboneConfig,
    n: nat,
    upto: nat,
) -> crate::model::plan::Expr
    decreases upto,
{
    if upto == 0 {
        crate::model::plan::embedded(
            crate::model::plan::input_expr("token_ids"@, seq![n], true),
            crate::model::transformer::leaf(
                "backbone"@ + ".embed"@,
                seq![cfg.vocab_size as nat, cfg.layer_shape().d()],
                false,
            ),
        )
    } else {
        crate::model::backbone::backbone_layer_expr(
            pretrain_residual(cfg, n, (upto - 1) as nat),
            "backbone"@,
            cfg,
            false,
            (upto - 1) as nat,
        )
    }
}

/// The logits of a backbone that trains.
pub open spec fn pretrain_logits(cfg: BackboneConfig, n: nat) -> crate::model::plan::Expr {
    crate::model::backbone::head_expr(
        pretrain_residual(cfg, n, cfg.num_layers as nat),
        "backbone"@,
        cfg,
        false,
    )
}

/// The cross-entropy of logits against the labels of `n` positions.
pub open spec fn loss_expr(
    logits: crate::model::plan::Expr,
    n: nat,
    vocab: nat,
) -> crate::model::plan::Expr {
    crate::model::plan::apply(
        crate::model::plan::Op::CrossEntropy,
        seq![1nat],
        seq![
            logits,
            crate::model::plan::input_expr("labels"@, seq![n, vocab], false),
        ],
    )
}

/// What the first `from` layers of a backbone that trains reach, all reach.
proof fn lemma_up_pretrain(cfg: BackboneConfig, n: nat, from: nat, upto: nat, name: Seq<char>)
    requires
        from <= upto,
        crate::model::plan::trains(pretrain_residual(cfg, n, from), name),
    ensures
        crate::model::plan::trains(pretrain_residual(cfg, n, upto), name),
    decreases upto,
{
    if from < upto {
        let i = (upto - 1) as nat;
        lemma_up_pretrain(cfg, n, from, i, name);
        crate::model::reach::lemma_up_layer(
            pretrain_residual(cfg, n, i),
            crate::model::backbone::layer_prefix("backbone"@, i),
            cfg.layer_shape(),
            cfg.rms_norm_eps,
            Some(cfg.rope_theta),
            false,
            name,
        );
    }
}

/// Pretraining trains the whole backbone: every parameter of it has a
/// gradient path from the loss.
pub proof fn law_pretraining_trains_every_parameter(cfg: BackboneConfig, n: nat, j: int)
    requires
        0 <= j < crate::model::backbone::backbone_params("backbone"@, cfg).len(),
    ensures
        crate::model::plan::trains(
            loss_expr(pretrain_logits(cfg, n), n, cfg.vocab_size as nat),
            crate::model::backbone::backbone_params("backbone"@, cfg)[j].0,
        ),
{
    let prefix = "backbone"@;
    let shape = cfg.layer_shape();
    let depth = cfg.num_layers as nat;
    let eps = cfg.rms_norm_eps;
    let params = crate::model::backbone::backbone_params(prefix, cfg);
    let name = params[j].0;
    let middle = crate::model::backbone::layers_params(prefix, shape, depth);
    let x = pretrain_residual(cfg, n, depth);
    let norm = crate::model::plan::parameter_expr(prefix + ".out_norm"@, seq![shape.d()]);
    let head = crate::model::plan::parameter_expr(
        prefix + ".lm_head"@,
        seq![shape.d(), cfg.vocab_size as nat],
    );
    let h = crate::model::plan::normed(x, norm, eps);
    let op = crate::model::plan::Op::RmsNorm { eps };
    if j <= middle.len() {
        if j == 0 {
            let embedded = pretrain_residual(cfg, n, 0);
            assert(crate::model::plan::trains(embedded.args[1], name));
            crate::model::reach::lemma_up(embedded.op, embedded.shape, embedded.args, 1, name);
            lemma_up_pretrain(cfg, n, 0, depth, name);
        } else {
            let (i, k) = crate::model::reach::lemma_layer_of(prefix, shape, depth, j - 1);
            crate::model::reach::lemma_layer_reaches(
                pretrain_residual(cfg, n, i),
                crate::model::backbone::layer_prefix(prefix, i),
                shape,
                eps,
                Some(cfg.rope_theta),
                k,
            );
            lemma_up_pretrain(cfg, n, i + 1, depth, name);
        }
        crate::model::reach::lemma_up(op, x.shape, seq![x, norm], 0, name);
    } else if j == middle.len() + 1 {
        assert(crate::model::plan::trains(norm, name));
        crate::model::reach::lemma_up(op, x.shape, seq![x, norm], 1, name);
    } else {
        assert(crate::model::plan::trains(head, name));
    }
    crate::model::reach::lemma_up_matmul(h, head, name);
    let loss = loss_expr(pretrain_logits(cfg, n), n, cfg.vocab_size as nat);
    crate::model::reach::lemma_up(loss.op, loss.shape, loss.args, 0, name);
}

/// Read out the cross-entropy of `logits` against a labels input.
fn read_loss(g: &mut Plan, logits: NodeId, n: usize, vocab: usize)
    requires
        old(g).wf(),
        old(g).holds(logits),
        old(g).expr(logits).shape == seq![n as nat, vocab as nat],
    ensures
        final(g).wf(),
        final(g).results().len() == 1,
        final(g).expr(final(g).results()[0]) == loss_expr(
            old(g).expr(logits),
            n as nat,
            vocab as nat,
        ),
        final(g).params() == old(g).params(),
        final(g).count() >= old(g).count(),
        forall|id: NodeId| id.0 < old(g).count() ==> #[trigger] final(g).expr(id) == old(g).expr(id),
        forall|id: NodeId|
            id.0 < old(g).count() ==> #[trigger] final(g).label(id) == old(g).label(id),
{
    let shape: [usize; 2] = [n, vocab];
    proof {
        crate::model::rows::lemma_dims(shape@);
        assert(crate::model::plan::dims(shape@) =~= seq![n as nat, vocab as nat]);
    }
    let labels: NodeId = g.input("labels", shape.as_slice());
    let loss: NodeId = g.cross_entropy_loss(logits, labels);
    let mut outputs: Vec<NodeId> = Vec::new();
    outputs.push(loss);
    g.set_outputs(outputs);
}

/// The graph that pretrains a backbone over `n` positions: a backbone that
/// trains, and its loss.
pub fn pretrain_graph(cfg: BackboneConfig, n: usize) -> (g: Plan)
    requires
        cfg.wf(),
    ensures
        g.wf(),
        g.params() == crate::model::backbone::backbone_params("backbone"@, cfg),
        g.results().len() == 1,
        g.expr(g.results()[0]) == loss_expr(
            pretrain_logits(cfg, n as nat),
            n as nat,
            cfg.vocab_size as nat,
        ),
{
    let mut g: Plan = Plan::new();
    let backbone: Backbone = Backbone::with_freezing(&mut g, "backbone", cfg, Freezing::Trainable);
    let ids_shape: [usize; 1] = [n];
    proof {
        backbone.lemma_depth(g);
        crate::model::rows::lemma_dims(ids_shape@);
        assert(g.params() =~= crate::model::backbone::backbone_params("backbone"@, cfg));
    }
    let ghost declared = g;
    let token_ids: NodeId = g.input_u32("token_ids", ids_shape.as_slice());
    proof {
        backbone.lemma_stays(declared, g);
    }
    let ghost asked = g;
    let mut x: NodeId = backbone.embed(&mut g, token_ids);
    proof {
        backbone.lemma_stays(asked, g);
        assert(g.expr(x).shape =~= seq![n as nat, cfg.layer_shape().d()]);
    }
    let mut layer: usize = 0;
    while layer < cfg.num_layers
        invariant
            layer <= cfg.num_layers,
            backbone.depth() == cfg.num_layers,
            backbone.shape() == cfg,
            backbone.name() == "backbone"@,
            !backbone.frozen(),
            backbone.declared(g),
            g.wf(),
            g.holds(x),
            !g.expr(x).is_ids,
            g.expr(x) == pretrain_residual(cfg, n as nat, layer as nat),
            g.expr(x).shape == seq![n as nat, cfg.layer_shape().d()],
            g.params() == crate::model::backbone::backbone_params("backbone"@, cfg),
        decreases cfg.num_layers - layer,
    {
        let ghost before = g;
        x = backbone.layer(&mut g, x, layer);
        proof {
            backbone.lemma_stays(before, g);
        }
        layer = layer + 1;
    }
    let logits: NodeId = backbone.head(&mut g, x);
    read_loss(&mut g, logits, n, cfg.vocab_size);
    g
}

/// Whether `g` reads out the loss of the model of `cfg`.
pub open spec fn reads_loss(g: Plan, model: CcaModel, cfg: ModelConfig) -> bool {
    &&& g.wf()
    &&& g.params() == crate::model::model_params(cfg)
    &&& g.expr(model.output()) == crate::model::logits_expr(cfg)
    &&& g.results().len() == 1
    &&& g.expr(g.results()[0]) == loss_expr(
        crate::model::logits_expr(cfg),
        cfg.cca.n() as nat,
        cfg.backbone.vocab_size as nat,
    )
}

/// Whether `g` reads out the logits of the model of `cfg`.
pub open spec fn reads_logits(g: Plan, model: CcaModel, cfg: ModelConfig) -> bool {
    &&& g.wf()
    &&& g.params() == crate::model::model_params(cfg)
    &&& g.expr(model.output()) == crate::model::logits_expr(cfg)
    &&& g.results() == seq![model.output()]
}

/// Whether a model is made of the parts that `cfg` says.
pub open spec fn made_for(model: CcaModel, cfg: ModelConfig) -> bool {
    exists|g: Plan| #[trigger] model.built(g, cfg)
}

/// The graph that trains the retrofit: the model, and its loss.
pub fn retrofit_graph(cfg: ModelConfig) -> (pair: (Plan, CcaModel))
    requires
        cfg.fault() is None,
    ensures
        made_for(pair.1, cfg),
        reads_loss(pair.0, pair.1, cfg),
{
    let mut g: Plan = Plan::new();
    let model: CcaModel = CcaModel::build(&mut g, cfg);
    proof {
        assert(model.built(g, cfg));
        assert(g.params() =~= crate::model::model_params(cfg));
    }
    read_loss(&mut g, model.logits(), cfg.cca.seq_len(), cfg.backbone.vocab_size);
    (g, model)
}

/// The graph that generates: the model, and its logits.
pub fn generation_graph(cfg: ModelConfig) -> (pair: (Plan, CcaModel))
    requires
        cfg.fault() is None,
    ensures
        made_for(pair.1, cfg),
        reads_logits(pair.0, pair.1, cfg),
{
    let mut g: Plan = Plan::new();
    let model: CcaModel = CcaModel::build(&mut g, cfg);
    proof {
        assert(model.built(g, cfg));
        assert(g.params() =~= crate::model::model_params(cfg));
    }
    let mut outputs: Vec<NodeId> = Vec::new();
    outputs.push(model.logits());
    g.set_outputs(outputs);
    (g, model)
}

/// Pretraining runs the backbone's layers in order over the embedded tokens, each
/// turned by position and under its own number, with no block between them, and
/// reads the logits off what is left. The stages are the embedded tokens and what
/// is left after every layer.
pub proof fn law_pretraining_runs_the_layers_in_order(cfg: BackboneConfig, n: nat) -> (stages: Seq<
    crate::model::plan::Expr,
>)
    ensures
        stages.len() == cfg.num_layers + 1,
        stages[0] == crate::model::plan::embedded(
            crate::model::plan::input_expr("token_ids"@, seq![n], true),
            crate::model::plan::parameter_expr(
                "backbone"@ + ".embed"@,
                seq![cfg.vocab_size as nat, cfg.layer_shape().d()],
            ),
        ),
        forall|layer: int|
            0 <= layer < cfg.num_layers ==> #[trigger] stages[layer + 1]
                == crate::model::transformer::layer_expr(
                stages[layer],
                "backbone"@ + ".layers."@ + crate::text::decimal_chars(layer as nat),
                cfg.layer_shape(),
                cfg.rms_norm_eps,
                Some(cfg.rope_theta),
                false,
            ),
        pretrain_logits(cfg, n) == crate::model::backbone::head_expr(
            stages[cfg.num_layers as int],
            "backbone"@,
            cfg,
            false,
        ),
{
    let stages = Seq::new(
        (cfg.num_layers + 1) as nat,
        |i: int| pretrain_residual(cfg, n, i as nat),
    );
    assert forall|layer: int| 0 <= layer < cfg.num_layers implies #[trigger] stages[layer + 1]
        == crate::model::transformer::layer_expr(
        stages[layer],
        "backbone"@ + ".layers."@ + crate::text::decimal_chars(layer as nat),
        cfg.layer_shape(),
        cfg.rms_norm_eps,
        Some(cfg.rope_theta),
        false,
    ) by {
        assert((layer + 1) as nat - 1 == layer);
    }
    stages
}

/// The loss is the cross-entropy of the logits against the labels, a row of the
/// vocabulary's width for every position.
pub proof fn law_the_loss_weighs_logits_against_labels<V>(
    r: crate::model::values::Reading<V>,
    logits: crate::model::plan::Expr,
    n: nat,
    vocab: nat,
)
    ensures
        crate::model::meaning::values(r, loss_expr(logits, n, vocab))
            == crate::model::meaning::made(
            r,
            crate::model::plan::Op::CrossEntropy,
            seq![1nat],
            seq![
                crate::model::meaning::values(r, logits),
                crate::model::meaning::values(
                    r,
                    crate::model::plan::input_expr("labels"@, seq![n, vocab], false),
                ),
            ],
        ),
{
    let e = loss_expr(logits, n, vocab);
    crate::model::meaning::lemma_made(r, e);
    assert(Seq::new(e.args.len(), |k: int| crate::model::meaning::values(r, e.args[k])) =~= seq![
        crate::model::meaning::values(r, logits),
        crate::model::meaning::values(
            r,
            crate::model::plan::input_expr("labels"@, seq![n, vocab], false),
        ),
    ]);
}

} // verus!
