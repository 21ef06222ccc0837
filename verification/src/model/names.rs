//! The names of a model's parameters: no two of them are the same.
//!
//! A weight is found by its name, and two declarations of one name would be
//! two independent weights.
use super::backbone::BackboneConfig;
use super::transformer::LayerShape;
use super::ModelConfig;
use vstd::prelude::*;

verus! {

/// Whether every name of `params` starts with `first`.
pub open spec fn opens_with(params: Seq<(Seq<char>, Seq<nat>)>, first: char) -> bool {
    forall|i: int|
        0 <= i < params.len() ==> (#[trigger] params[i]).0.len() > 0 && params[i].0[0] == first
}

proof fn lemma_opens_both(
    a: Seq<(Seq<char>, Seq<nat>)>,
    b: Seq<(Seq<char>, Seq<nat>)>,
    first: char,
)
    requires
        opens_with(a, first),
        opens_with(b, first),
    ensures
        opens_with(a + b, first),
{
    assert forall|i: int| 0 <= i < (a + b).len() implies (#[trigger] (a + b)[i]).0.len() > 0
        && (a + b)[i].0[0] == first by {
        if i < a.len() {
            assert((a + b)[i] == a[i]);
        } else {
            assert((a + b)[i] == b[i - a.len()]);
        }
    }
}

proof fn lemma_layers_open(
    prefix: Seq<char>,
    shape: LayerShape,
    upto: nat,
    first: char,
)
    requires
        prefix.len() > 0,
        prefix[0] == first,
    ensures
        opens_with(super::backbone::layers_params(prefix, shape, upto), first),
    decreases upto,
{
    if upto > 0 {
        lemma_layers_open(prefix, shape, (upto - 1) as nat, first);
        let own = super::backbone::layer_prefix(prefix, (upto - 1) as nat);
        assert(own[0] == first);
        lemma_opens_both(
            super::backbone::layers_params(prefix, shape, (upto - 1) as nat),
            super::transformer::layer_params(own, shape),
            first,
        );
    }
}

/// The names of a backbone start with a `b`.
pub(crate) proof fn lemma_backbone_opens(cfg: BackboneConfig)
    ensures
        opens_with(super::backbone::backbone_params("backbone"@, cfg), 'b'),
{
    let prefix = "backbone"@;
    reveal_strlit("backbone");
    let shape = cfg.layer_shape();
    let layers = cfg.num_layers as nat;
    let vocab = cfg.vocab_size as nat;
    lemma_layers_open(prefix, shape, layers, 'b');
    let first = seq![(prefix + ".embed"@, seq![vocab, shape.d()])];
    let middle = super::backbone::layers_params(prefix, shape, layers);
    let last = seq![
        (prefix + ".out_norm"@, seq![shape.d()]),
        (prefix + ".lm_head"@, seq![shape.d(), vocab]),
    ];
    lemma_opens_both(first, middle, 'b');
    lemma_opens_both(first + middle, last, 'b');
}

/// The names of the neighbour encoder start with an `n`.
pub(crate) proof fn lemma_encoder_opens(cfg: ModelConfig)
    ensures
        opens_with(super::own_encoder_params(cfg), 'n'),
{
    reveal_strlit("neighbour_encoder");
    if cfg.neighbours is Encoded {
        let prefix = "neighbour_encoder"@;
        let shape = cfg.encoder.layer_shape();
        let layers = cfg.encoder.num_layers as nat;
        lemma_layers_open(prefix, shape, layers, 'n');
        let first = seq![(prefix + ".embed"@, seq![cfg.encoder.vocab_size as nat, shape.d()])];
        let last = seq![(prefix + ".out_norm"@, seq![shape.d()])];
        let middle = super::backbone::layers_params(prefix, shape, layers);
        lemma_opens_both(first, middle, 'n');
        lemma_opens_both(first + middle, last, 'n');
    }
}

/// The names of the blocks start with a `c`.
pub(crate) proof fn lemma_blocks_open(cfg: ModelConfig, upto: nat)
    ensures
        opens_with(super::blocks_params(cfg, upto), 'c'),
    decreases upto,
{
    if upto > 0 {
        let layer = (upto - 1) as nat;
        lemma_blocks_open(cfg, layer);
        if cfg.cca.follows(layer) {
            let prefix = super::block_prefix(layer);
            reveal_strlit("cca.");
            assert(prefix[0] == 'c');
            let own = super::cca::block_params(prefix, cfg.cca, cfg.activation);
            assert(opens_with(own, 'c')) by {
                assert forall|i: int| 0 <= i < own.len() implies (#[trigger] own[i]).0.len() > 0
                    && own[i].0[0] == 'c' by {
                    let gated = super::gate::gate_params(
                        prefix + ".gate"@,
                        cfg.cca.d() as nat,
                        cfg.activation,
                    );
                    if i >= 6 {
                        assert(own[i] == gated[i - 6]);
                    }
                }
            }
            lemma_opens_both(super::blocks_params(cfg, layer), own, 'c');
        }
    }
}

/// Whether no two of `params` have one name.
pub open spec fn named_once(params: Seq<(Seq<char>, Seq<nat>)>) -> bool {
    forall|i: int, j: int|
        #![trigger params[i], params[j]]
        0 <= i < j < params.len() ==> params[i].0 != params[j].0
}

/// Whether no name of `a` is a name of `b`.
spec fn share_none(a: Seq<(Seq<char>, Seq<nat>)>, b: Seq<(Seq<char>, Seq<nat>)>) -> bool {
    forall|i: int, j: int|
        #![trigger a[i], b[j]]
        0 <= i < a.len() && 0 <= j < b.len() ==> a[i].0 != b[j].0
}

proof fn lemma_join(a: Seq<(Seq<char>, Seq<nat>)>, b: Seq<(Seq<char>, Seq<nat>)>)
    requires
        named_once(a),
        named_once(b),
        share_none(a, b),
    ensures
        named_once(a + b),
{
    let all = a + b;
    assert forall|i: int, j: int|
        #![trigger all[i], all[j]]
        0 <= i < j < all.len() implies all[i].0 != all[j].0 by {
        if j < a.len() {
            assert(all[i] == a[i] && all[j] == a[j]);
        } else if i < a.len() {
            assert(all[i] == a[i] && all[j] == b[j - a.len()]);
        } else {
            assert(all[i] == b[i - a.len()] && all[j] == b[j - a.len()]);
        }
    }
}

/// No digit of a number is a dot.
proof fn lemma_digits(n: nat)
    ensures
        crate::text::decimal_chars(n).len() > 0,
        forall|i: int|
            0 <= i < crate::text::decimal_chars(n).len() ==> #[trigger] crate::text::decimal_chars(
                n,
            )[i] != '.',
    decreases n,
{
    if n >= 10 {
        lemma_digits(n / 10);
    }
}

/// A number ends at the dot behind it.
proof fn lemma_number_ends(a: nat, s: Seq<char>, b: nat, t: Seq<char>)
    requires
        s.len() > 0,
        s[0] == '.',
        t.len() > 0,
        t[0] == '.',
        crate::text::decimal_chars(a) + s == crate::text::decimal_chars(b) + t,
    ensures
        a == b,
        s == t,
{
    lemma_digits(a);
    lemma_digits(b);
    let (x, y) = (crate::text::decimal_chars(a), crate::text::decimal_chars(b));
    assert((x + s)[x.len() as int] == '.');
    assert((y + t)[y.len() as int] == '.');
    if x.len() < y.len() {
        assert((y + t)[x.len() as int] == y[x.len() as int]);
    } else if y.len() < x.len() {
        assert((x + s)[y.len() as int] == x[y.len() as int]);
    }
    assert(x =~= (x + s).take(x.len() as int));
    assert(y =~= (y + t).take(x.len() as int));
    assert(s =~= (x + s).skip(x.len() as int));
    assert(t =~= (y + t).skip(x.len() as int));
    crate::text::lemma_decimal_injective(a, b);
}

/// What a name holds behind a common start.
proof fn lemma_same_start(start: Seq<char>, s: Seq<char>, t: Seq<char>)
    requires
        start + s == start + t,
    ensures
        s == t,
{
    assert(s =~= (start + s).skip(start.len() as int));
    assert(t =~= (start + t).skip(start.len() as int));
}

/// What the names of a layer's parameters end with.
spec fn layer_ends() -> Seq<Seq<char>> {
    seq![
        ".attn_norm"@,
        ".q_proj"@,
        ".k_proj"@,
        ".v_proj"@,
        ".o_proj"@,
        ".ffn_norm"@,
        ".gate_proj"@,
        ".up_proj"@,
        ".down_proj"@,
    ]
}

proof fn lemma_layer_ends(i: int, j: int)
    requires
        0 <= i < 9,
        0 <= j < 9,
        layer_ends()[i] == layer_ends()[j],
    ensures
        i == j,
        layer_ends()[i].len() > 0,
        layer_ends()[i][0] == '.',
{
    reveal_strlit(".attn_norm");
    reveal_strlit(".q_proj");
    reveal_strlit(".k_proj");
    reveal_strlit(".v_proj");
    reveal_strlit(".o_proj");
    reveal_strlit(".ffn_norm");
    reveal_strlit(".gate_proj");
    reveal_strlit(".up_proj");
    reveal_strlit(".down_proj");
    let ends = layer_ends();
    assert(ends[0][1] == 'a' && ends[1][1] == 'q' && ends[2][1] == 'k' && ends[3][1] == 'v');
    assert(ends[4][1] == 'o' && ends[5][1] == 'f' && ends[6][1] == 'g' && ends[7][1] == 'u');
    assert(ends[8][1] == 'd');
    assert(ends[i][1] == ends[j][1]);
}

/// Parameter `i` of a run of layers is one of layer `i / 9`.
proof fn lemma_layer_name(prefix: Seq<char>, shape: LayerShape, upto: nat, i: int)
    ensures
        super::backbone::layers_params(prefix, shape, upto).len() == 9 * upto,
        0 <= i < 9 * upto ==> super::backbone::layers_params(prefix, shape, upto)[i].0 == prefix
            + ".layers."@ + (crate::text::decimal_chars((i / 9) as nat) + layer_ends()[i % 9]),
    decreases upto,
{
    if upto > 0 {
        let rest = super::backbone::layers_params(prefix, shape, (upto - 1) as nat);
        lemma_layer_name(prefix, shape, (upto - 1) as nat, i);
        if 9 * (upto - 1) <= i < 9 * upto {
            let own = super::backbone::layer_prefix(prefix, (upto - 1) as nat);
            let k = i - 9 * (upto - 1);
            assert(i / 9 == upto - 1 && i % 9 == k);
            assert(super::transformer::layer_params(own, shape)[k].0 == own + layer_ends()[k]);
            assert(own + layer_ends()[k] =~= prefix + ".layers."@ + (
            crate::text::decimal_chars((i / 9) as nat) + layer_ends()[k]));
        }
    }
}

proof fn lemma_layers_named_once(prefix: Seq<char>, shape: LayerShape, upto: nat)
    ensures
        named_once(super::backbone::layers_params(prefix, shape, upto)),
{
    let all = super::backbone::layers_params(prefix, shape, upto);
    assert forall|i: int, j: int|
        #![trigger all[i], all[j]]
        0 <= i < j < all.len() implies all[i].0 != all[j].0 by {
        lemma_layer_name(prefix, shape, upto, i);
        lemma_layer_name(prefix, shape, upto, j);
        if all[i].0 == all[j].0 {
            let (s, t) = (layer_ends()[i % 9], layer_ends()[j % 9]);
            let (a, b) = ((i / 9) as nat, (j / 9) as nat);
            lemma_same_start(
                prefix + ".layers."@,
                crate::text::decimal_chars(a) + s,
                crate::text::decimal_chars(b) + t,
            );
            lemma_layer_ends(i % 9, i % 9);
            lemma_layer_ends(j % 9, j % 9);
            lemma_number_ends(a, s, b, t);
            lemma_layer_ends(i % 9, j % 9);
        }
    }
}

/// A table, layers, and weights behind them: three kinds of names.
proof fn lemma_stack_named_once(
    prefix: Seq<char>,
    shape: LayerShape,
    upto: nat,
    vocab: nat,
    last: Seq<(Seq<char>, Seq<nat>)>,
)
    requires
        named_once(last),
        forall|i: int|
            0 <= i < last.len() ==> (#[trigger] last[i]).0 == prefix + ".out_norm"@ || last[i].0
                == prefix + ".lm_head"@,
    ensures
        named_once(
            seq![(prefix + ".embed"@, seq![vocab, shape.d()])]
                + super::backbone::layers_params(prefix, shape, upto) + last,
        ),
{
    reveal_strlit(".embed");
    reveal_strlit(".layers.");
    reveal_strlit(".out_norm");
    reveal_strlit(".lm_head");
    let first = seq![(prefix + ".embed"@, seq![vocab, shape.d()])];
    let middle = super::backbone::layers_params(prefix, shape, upto);
    let at = prefix.len() as int;
    assert((prefix + ".embed"@)[at + 1] == 'e');
    assert((prefix + ".out_norm"@)[at + 1] == 'o');
    assert((prefix + ".lm_head"@)[at + 1] == 'l' && (prefix + ".lm_head"@)[at + 2] == 'm');
    assert forall|i: int| 0 <= i < middle.len() implies (#[trigger] middle[i]).0[at + 1] == 'l'
        && middle[i].0[at + 2] == 'a' by {
        lemma_layer_name(prefix, shape, upto, i);
    }
    lemma_layers_named_once(prefix, shape, upto);
    lemma_join(first, middle);
    let both = first + middle;
    assert forall|i: int, j: int|
        #![trigger both[i], last[j]]
        0 <= i < both.len() && 0 <= j < last.len() implies both[i].0 != last[j].0 by {
        if i == 0 {
            assert(both[i] == first[0]);
        } else {
            assert(both[i] == middle[i - 1]);
        }
    }
    lemma_join(both, last);
}

/// No parameter of a backbone is declared twice.
pub proof fn law_backbone_parameters_are_named_once(cfg: BackboneConfig, prefix: Seq<char>)
    ensures
        named_once(super::backbone::backbone_params(prefix, cfg)),
{
    reveal_strlit(".out_norm");
    reveal_strlit(".lm_head");
    let shape = cfg.layer_shape();
    let vocab = cfg.vocab_size as nat;
    let last = seq![
        (prefix + ".out_norm"@, seq![shape.d()]),
        (prefix + ".lm_head"@, seq![shape.d(), vocab]),
    ];
    let at = prefix.len() as int;
    assert((prefix + ".out_norm"@)[at + 1] == 'o');
    assert((prefix + ".lm_head"@)[at + 1] == 'l');
    lemma_stack_named_once(prefix, shape, cfg.num_layers as nat, vocab, last);
}

/// What the names of a block's parameters end with.
spec fn block_ends() -> Seq<Seq<char>> {
    seq![
        ".q_norm"@,
        ".kv_norm"@,
        ".q_proj"@,
        ".k_proj"@,
        ".v_proj"@,
        ".o_proj"@,
        ".gate"@ + ".w1"@,
        ".gate"@ + ".b1"@,
        ".gate"@ + ".w2"@,
        ".gate"@ + ".b2"@,
        ".gate"@ + ".alpha"@,
    ]
}

proof fn lemma_block_ends(i: int, j: int)
    requires
        0 <= i < 11,
        0 <= j < 11,
        block_ends()[i] == block_ends()[j],
    ensures
        i == j,
        block_ends()[i].len() > 0,
        block_ends()[i][0] == '.',
{
    reveal_strlit(".q_norm");
    reveal_strlit(".kv_norm");
    reveal_strlit(".q_proj");
    reveal_strlit(".k_proj");
    reveal_strlit(".v_proj");
    reveal_strlit(".o_proj");
    reveal_strlit(".gate");
    reveal_strlit(".w1");
    reveal_strlit(".b1");
    reveal_strlit(".w2");
    reveal_strlit(".b2");
    reveal_strlit(".alpha");
    let (s, t) = (block_ends()[i], block_ends()[j]);
    assert(s[1] == t[1] && s[2] == t[2] && s[3] == t[3]);
    if i >= 6 || j >= 6 {
        assert(s[6] == t[6] && s[7] == t[7]);
    }
}

proof fn lemma_block_name(cfg: ModelConfig, layer: nat, i: int)
    requires
        0 <= i < super::cca::block_params(
            super::block_prefix(layer),
            cfg.cca,
            cfg.activation,
        ).len(),
    ensures
        i < 11,
        super::cca::block_params(super::block_prefix(layer), cfg.cca, cfg.activation)[i].0
            == "cca."@ + (crate::text::decimal_chars(layer) + block_ends()[i]),
{
    let prefix = super::block_prefix(layer);
    let own = super::cca::block_params(prefix, cfg.cca, cfg.activation);
    let gated = super::gate::gate_params(prefix + ".gate"@, cfg.cca.d() as nat, cfg.activation);
    if i >= 6 {
        assert(own[i] == gated[i - 6]);
    }
    assert(own[i].0 =~= prefix + block_ends()[i]);
    assert(prefix + block_ends()[i] =~= "cca."@ + (crate::text::decimal_chars(layer)
        + block_ends()[i]));
}

proof fn lemma_blocks_part(cfg: ModelConfig, a: nat, i: int, b: nat, j: int)
    requires
        0 <= i < 11,
        0 <= j < 11,
        "cca."@ + (crate::text::decimal_chars(a) + block_ends()[i]) == "cca."@ + (
        crate::text::decimal_chars(b) + block_ends()[j]),
    ensures
        a == b,
        i == j,
{
    let (s, t) = (block_ends()[i], block_ends()[j]);
    lemma_same_start(
        "cca."@,
        crate::text::decimal_chars(a) + s,
        crate::text::decimal_chars(b) + t,
    );
    lemma_block_ends(i, i);
    lemma_block_ends(j, j);
    lemma_number_ends(a, s, b, t);
    lemma_block_ends(i, j);
}

/// A parameter of the blocks below a layer belongs to one of them.
proof fn lemma_block_of(cfg: ModelConfig, upto: nat, i: int) -> (at: (nat, int))
    requires
        0 <= i < super::blocks_params(cfg, upto).len(),
    ensures
        at.0 < upto,
        0 <= at.1 < 11,
        super::blocks_params(cfg, upto)[i].0 == "cca."@ + (crate::text::decimal_chars(at.0)
            + block_ends()[at.1]),
    decreases upto,
{
    let layer = (upto - 1) as nat;
    let rest = super::blocks_params(cfg, layer);
    if i < rest.len() {
        lemma_block_of(cfg, layer, i)
    } else {
        lemma_block_name(cfg, layer, i - rest.len());
        (layer, i - rest.len())
    }
}

proof fn lemma_blocks_named_once(cfg: ModelConfig, upto: nat)
    ensures
        named_once(super::blocks_params(cfg, upto)),
    decreases upto,
{
    if upto > 0 {
        let layer = (upto - 1) as nat;
        let rest = super::blocks_params(cfg, layer);
        lemma_blocks_named_once(cfg, layer);
        if cfg.cca.follows(layer) {
            let own = super::cca::block_params(
                super::block_prefix(layer),
                cfg.cca,
                cfg.activation,
            );
            assert forall|i: int, j: int|
                #![trigger own[i], own[j]]
                0 <= i < j < own.len() implies own[i].0 != own[j].0 by {
                lemma_block_name(cfg, layer, i);
                lemma_block_name(cfg, layer, j);
                if own[i].0 == own[j].0 {
                    lemma_blocks_part(cfg, layer, i, layer, j);
                }
            }
            assert forall|i: int, j: int|
                #![trigger rest[i], own[j]]
                0 <= i < rest.len() && 0 <= j < own.len() implies rest[i].0 != own[j].0 by {
                let (below, k) = lemma_block_of(cfg, layer, i);
                lemma_block_name(cfg, layer, j);
                if rest[i].0 == own[j].0 {
                    lemma_blocks_part(cfg, below, k, layer, j);
                }
            }
            lemma_join(rest, own);
        }
    }
}

/// No parameter of a model is declared twice.
pub proof fn law_parameters_are_named_once(cfg: ModelConfig)
    ensures
        named_once(super::model_params(cfg)),
{
    let encoder = super::own_encoder_params(cfg);
    let blocks = super::blocks_params(cfg, cfg.backbone.num_layers as nat);
    let backbone = super::backbone::backbone_params("backbone"@, cfg.backbone);
    law_backbone_parameters_are_named_once(cfg.backbone, "backbone"@);
    if cfg.neighbours is Encoded {
        let prefix = "neighbour_encoder"@;
        let shape = cfg.encoder.layer_shape();
        let last = seq![(prefix + ".out_norm"@, seq![shape.d()])];
        lemma_stack_named_once(
            prefix,
            shape,
            cfg.encoder.num_layers as nat,
            cfg.encoder.vocab_size as nat,
            last,
        );
    }
    lemma_blocks_named_once(cfg, cfg.backbone.num_layers as nat);
    lemma_backbone_opens(cfg.backbone);
    lemma_encoder_opens(cfg);
    lemma_blocks_open(cfg, cfg.backbone.num_layers as nat);
    lemma_join(encoder, blocks);
    let trained = encoder + blocks;
    assert forall|i: int, j: int|
        #![trigger backbone[i], trained[j]]
        0 <= i < backbone.len() && 0 <= j < trained.len() implies backbone[i].0 != trained[j].0 by {
        if j < encoder.len() {
            assert(trained[j] == encoder[j]);
        } else {
            assert(trained[j] == blocks[j - encoder.len()]);
        }
    }
    lemma_join(backbone, encoder + blocks);
}

} // verus!
