//! Shape and hyper-parameter configuration for chunked cross-attention.
//!
//! | symbol | meaning                | published default |
//! |--------|------------------------|-------------------|
//! | `n`    | sequence length        | 2048              |
//! | `m`    | chunk size             | 64                |
//! | `l`    | chunk count, `n / m`   | 32                |
//! | `k`    | neighbours per chunk   | 2                 |
//! | `r`    | neighbour length       | `2 * m`           |
//! | `d`    | model dim              | backbone          |
//!
//! There is no batch axis: one graph describes one sequence, and batching is
//! a matter of running the session repeatedly.
use crate::text::decimal;
use vstd::prelude::*;
use vstd::string::*;

verus! {

/// Why a configuration was rejected.
///
/// Every variant is a shape contradiction that would otherwise surface far
/// downstream as a shape panic inside an attention operator, with no
/// indication of which knob was wrong.
#[derive(Clone, Debug, PartialEq, Eq)]
pub enum ConfigError {
    /// A dimension that must be positive was zero.
    Zero(&'static str),
    /// `n` is not an exact multiple of `m`, so the sequence does not divide
    /// into whole chunks.
    SequenceNotChunkAligned {
        /// The sequence length.
        n: usize,
        /// The chunk size.
        m: usize,
    },
    /// `d` is not `num_heads * head_dim`.
    ModelDimMismatch {
        /// The model width.
        d: usize,
        /// Query heads.
        num_heads: usize,
        /// Per-head width.
        head_dim: usize,
    },
    /// `num_heads` is not a whole multiple of `num_kv_heads`, so grouped-query
    /// attention cannot map query heads onto key/value heads.
    HeadGroupingMismatch {
        /// Query heads.
        num_heads: usize,
        /// Key/value heads.
        num_kv_heads: usize,
    },
}

/// The text of an error, in characters.
pub open spec fn config_error_chars(e: ConfigError) -> Seq<char> {
    match e {
        ConfigError::Zero(field) => "`"@ + field@ + "` must be non-zero"@,
        ConfigError::SequenceNotChunkAligned { n, m } => "sequence length n="@
            + crate::text::decimal_chars(n as nat) + " is not a multiple of chunk size m="@
            + crate::text::decimal_chars(m as nat),
        ConfigError::ModelDimMismatch { d, num_heads, head_dim } => "model dim d="@
            + crate::text::decimal_chars(d as nat) + " != num_heads="@
            + crate::text::decimal_chars(num_heads as nat) + " * head_dim="@
            + crate::text::decimal_chars(head_dim as nat),
        ConfigError::HeadGroupingMismatch { num_heads, num_kv_heads } => "num_heads="@
            + crate::text::decimal_chars(num_heads as nat)
            + " is not a multiple of num_kv_heads="@ + crate::text::decimal_chars(
            num_kv_heads as nat,
        ),
    }
}

impl ConfigError {
    /// What went wrong, in words.
    pub fn message(&self) -> (s: String)
        ensures
            s@ == config_error_chars(*self),
    {
        match self {
            ConfigError::Zero(field) => {
                let mut s: String = String::from_str("`");
                s.append(field);
                s.append("` must be non-zero");
                s
            },
            ConfigError::SequenceNotChunkAligned { n, m } => {
                let mut s: String = String::from_str("sequence length n=");
                s.append(decimal(*n as u64).as_str());
                s.append(" is not a multiple of chunk size m=");
                s.append(decimal(*m as u64).as_str());
                s
            },
            ConfigError::ModelDimMismatch { d, num_heads, head_dim } => {
                let mut s: String = String::from_str("model dim d=");
                s.append(decimal(*d as u64).as_str());
                s.append(" != num_heads=");
                s.append(decimal(*num_heads as u64).as_str());
                s.append(" * head_dim=");
                s.append(decimal(*head_dim as u64).as_str());
                s
            },
            ConfigError::HeadGroupingMismatch { num_heads, num_kv_heads } => {
                let mut s: String = String::from_str("num_heads=");
                s.append(decimal(*num_heads as u64).as_str());
                s.append(" is not a multiple of num_kv_heads=");
                s.append(decimal(*num_kv_heads as u64).as_str());
                s
            },
        }
    }
}

/// What is wrong with a set of shapes, the first fault found.
pub open spec fn config_fault(
    n: usize,
    m: usize,
    k: usize,
    r: usize,
    num_heads: usize,
    num_kv_heads: usize,
    head_dim: usize,
    insert_every: usize,
) -> Option<ConfigError> {
    if n == 0 {
        Some(ConfigError::Zero("n"))
    } else if m == 0 {
        Some(ConfigError::Zero("m"))
    } else if k == 0 {
        Some(ConfigError::Zero("k"))
    } else if r == 0 {
        Some(ConfigError::Zero("r"))
    } else if num_heads == 0 {
        Some(ConfigError::Zero("num_heads"))
    } else if num_kv_heads == 0 {
        Some(ConfigError::Zero("num_kv_heads"))
    } else if head_dim == 0 {
        Some(ConfigError::Zero("head_dim"))
    } else if insert_every == 0 {
        Some(ConfigError::Zero("insert_every"))
    } else if n % m != 0 {
        Some(ConfigError::SequenceNotChunkAligned { n, m })
    } else if num_heads % num_kv_heads != 0 {
        Some(ConfigError::HeadGroupingMismatch { num_heads, num_kv_heads })
    } else {
        None
    }
}

/// Validated shapes for the retrieval path.
///
/// Construct with [`CcaConfig::new`], which rejects every shape combination
/// the graph builder cannot express.
#[derive(Clone, Copy, Debug, PartialEq, Eq, Structural)]
pub struct CcaConfig {
    n: usize,
    m: usize,
    k: usize,
    r: usize,
    d: usize,
    num_heads: usize,
    num_kv_heads: usize,
    head_dim: usize,
    insert_every: usize,
    first_cca_layer: usize,
}

impl CcaConfig {
    /// Sequence length.
    pub closed spec fn n(self) -> usize {
        self.n
    }

    /// Chunk size.
    pub closed spec fn m(self) -> usize {
        self.m
    }

    /// Neighbours per chunk.
    pub closed spec fn k(self) -> usize {
        self.k
    }

    /// Neighbour length.
    pub closed spec fn r(self) -> usize {
        self.r
    }

    /// Model width.
    pub closed spec fn d(self) -> usize {
        self.d
    }

    /// Query heads.
    pub closed spec fn heads(self) -> usize {
        self.num_heads
    }

    /// Key/value heads.
    pub closed spec fn kv_heads(self) -> usize {
        self.num_kv_heads
    }

    /// Per-head width.
    pub closed spec fn head_width(self) -> usize {
        self.head_dim
    }

    /// Layers from one block to the next.
    pub closed spec fn period(self) -> usize {
        self.insert_every
    }

    /// The first layer that a block may follow.
    pub closed spec fn first_layer(self) -> usize {
        self.first_cca_layer
    }

    /// Chunk count.
    pub open spec fn l(self) -> usize {
        self.n() / self.m()
    }

    /// What every validated configuration keeps.
    pub open spec fn wf(self) -> bool {
        &&& self.n() > 0 && self.m() > 0 && self.k() > 0 && self.r() > 0
        &&& self.heads() > 0 && self.kv_heads() > 0 && self.head_width() > 0 && self.period() > 0
        &&& self.n() % self.m() == 0
        &&& self.heads() % self.kv_heads() == 0
        &&& self.d() == self.heads() * self.head_width()
    }

    /// Validate a configuration.
    ///
    /// A block goes in after every `insert_every`th backbone layer, starting
    /// at `first_cca_layer`.
    pub fn new(
        n: usize,
        m: usize,
        k: usize,
        r: usize,
        num_heads: usize,
        num_kv_heads: usize,
        head_dim: usize,
        insert_every: usize,
        first_cca_layer: usize,
    ) -> (cfg: Result<Self, ConfigError>)
        requires
            config_fault(n, m, k, r, num_heads, num_kv_heads, head_dim, insert_every) is None
                ==> num_heads * head_dim <= usize::MAX,
        ensures
            match config_fault(n, m, k, r, num_heads, num_kv_heads, head_dim, insert_every) {
                Some(fault) => cfg == Err::<Self, ConfigError>(fault),
                None => cfg is Ok && cfg->Ok_0.wf() && cfg->Ok_0.n() == n && cfg->Ok_0.m() == m
                    && cfg->Ok_0.k() == k && cfg->Ok_0.r() == r && cfg->Ok_0.heads() == num_heads
                    && cfg->Ok_0.kv_heads() == num_kv_heads && cfg->Ok_0.head_width() == head_dim
                    && cfg->Ok_0.period() == insert_every && cfg->Ok_0.first_layer()
                    == first_cca_layer,
            },
    {
        if n == 0 {
            return Err(ConfigError::Zero("n"));
        }
        if m == 0 {
            return Err(ConfigError::Zero("m"));
        }
        if k == 0 {
            return Err(ConfigError::Zero("k"));
        }
        if r == 0 {
            return Err(ConfigError::Zero("r"));
        }
        if num_heads == 0 {
            return Err(ConfigError::Zero("num_heads"));
        }
        if num_kv_heads == 0 {
            return Err(ConfigError::Zero("num_kv_heads"));
        }
        if head_dim == 0 {
            return Err(ConfigError::Zero("head_dim"));
        }
        if insert_every == 0 {
            return Err(ConfigError::Zero("insert_every"));
        }
        if n % m != 0 {
            return Err(ConfigError::SequenceNotChunkAligned { n, m });
        }
        if num_heads % num_kv_heads != 0 {
            return Err(ConfigError::HeadGroupingMismatch { num_heads, num_kv_heads });
        }
        Ok(
            CcaConfig {
                n,
                m,
                k,
                r,
                d: num_heads * head_dim,
                num_heads,
                num_kv_heads,
                head_dim,
                insert_every,
                first_cca_layer,
            },
        )
    }

    /// The published shape, adapted: `n=2048`, `m=64`, `k=2`, `r=2m`.
    ///
    /// The head geometry is the caller's, since it has to match the frozen
    /// backbone's residual width.
    pub fn retro_like(num_heads: usize, num_kv_heads: usize, head_dim: usize) -> (cfg: Result<
        Self,
        ConfigError,
    >)
        requires
            config_fault(2048, 64, 2, 128, num_heads, num_kv_heads, head_dim, 3) is None
                ==> num_heads * head_dim <= usize::MAX,
        ensures
            match config_fault(2048, 64, 2, 128, num_heads, num_kv_heads, head_dim, 3) {
                Some(fault) => cfg == Err::<Self, ConfigError>(fault),
                None => cfg is Ok && cfg->Ok_0.wf() && cfg->Ok_0.n() == 2048 && cfg->Ok_0.m() == 64
                    && cfg->Ok_0.k() == 2 && cfg->Ok_0.r() == 128 && cfg->Ok_0.heads() == num_heads
                    && cfg->Ok_0.kv_heads() == num_kv_heads && cfg->Ok_0.head_width() == head_dim
                    && cfg->Ok_0.period() == 3 && cfg->Ok_0.first_layer() == 6,
            },
    {
        Self::new(2048, 64, 2, 128, num_heads, num_kv_heads, head_dim, 3, 6)
    }

    /// Sequence length `n`.
    pub fn seq_len(self) -> (n: usize)
        ensures
            n == self.n(),
    {
        self.n
    }

    /// Chunk size `m`.
    pub fn chunk_size(self) -> (m: usize)
        ensures
            m == self.m(),
    {
        self.m
    }

    /// Chunk count `l = n / m`.
    pub fn num_chunks(self) -> (l: usize)
        requires
            self.wf(),
        ensures
            l == self.l(),
            l * self.m() == self.n(),
            l > 0,
    {
        proof {
            self.lemma_chunks();
        }
        self.n / self.m
    }

    /// The chunks cover the sequence exactly.
    pub proof fn lemma_chunks(self)
        requires
            self.wf(),
        ensures
            self.l() * self.m() == self.n(),
            self.l() > 0,
    {
        vstd::arithmetic::div_mod::lemma_fundamental_div_mod(self.n() as int, self.m() as int);
        vstd::arithmetic::mul::lemma_mul_is_commutative(self.l() as int, self.m() as int);
        if self.l() == 0 {
            vstd::arithmetic::mul::lemma_mul_basics(self.m() as int);
        }
    }

    /// Neighbours retrieved per chunk, `k`.
    pub fn neighbours_per_chunk(self) -> (k: usize)
        ensures
            k == self.k(),
    {
        self.k
    }

    /// Token length of one retrieved neighbour, `r`.
    ///
    /// Usually `2m`: the matched chunk plus its continuation. The
    /// continuation is the half that carries new information, since the
    /// matched half is by construction similar to what the model already has.
    pub fn neighbour_len(self) -> (r: usize)
        ensures
            r == self.r(),
    {
        self.r
    }

    /// Key/value rows one chunk's cross-attention sees, `k * r`.
    pub fn neighbour_kv_rows(self) -> (rows: usize)
        requires
            self.k() * self.r() <= usize::MAX,
        ensures
            rows == self.k() * self.r(),
    {
        self.k * self.r
    }

    /// Model dim `d`, equal to `num_heads * head_dim`.
    pub fn model_dim(self) -> (d: usize)
        ensures
            d == self.d(),
    {
        self.d
    }

    /// Query head count.
    pub fn num_heads(self) -> (heads: usize)
        ensures
            heads == self.heads(),
    {
        self.num_heads
    }

    /// Key/value head count (grouped-query attention).
    pub fn num_kv_heads(self) -> (heads: usize)
        ensures
            heads == self.kv_heads(),
    {
        self.num_kv_heads
    }

    /// Per-head width.
    pub fn head_dim(self) -> (width: usize)
        ensures
            width == self.head_width(),
    {
        self.head_dim
    }

    /// Key/value width, `num_kv_heads * head_dim`.
    pub fn kv_dim(self) -> (width: usize)
        requires
            self.wf(),
        ensures
            width == self.kv_heads() * self.head_width(),
            width <= self.d(),
    {
        proof {
            self.lemma_kv_dim();
        }
        self.num_kv_heads * self.head_dim
    }

    /// The key/value width is no larger than the model width.
    pub proof fn lemma_kv_dim(self)
        requires
            self.wf(),
        ensures
            0 < self.kv_heads() * self.head_width() <= self.d(),
    {
        let (h, kv, w) = (self.heads() as int, self.kv_heads() as int, self.head_width() as int);
        vstd::arithmetic::div_mod::lemma_fundamental_div_mod(h, kv);
        assert(kv <= h) by (nonlinear_arith)
            requires
                h == kv * (h / kv) + h % kv,
                h % kv == 0,
                h > 0,
                kv > 0,
        ;
        assert(0 < kv * w <= h * w) by (nonlinear_arith)
            requires
                0 < kv <= h,
                w > 0,
        ;
    }

    /// Whether a block follows backbone layer `layer`.
    pub open spec fn follows(self, layer: nat) -> bool {
        layer >= self.first_layer() && (layer - self.first_layer()) % (self.period() as int) == 0
    }

    /// Whether a CCA block is inserted after backbone layer `layer`.
    pub fn is_cca_layer(self, layer: usize) -> (b: bool)
        requires
            self.wf(),
        ensures
            b == self.follows(layer as nat),
    {
        layer >= self.first_cca_layer && (layer - self.first_cca_layer) % self.insert_every == 0
    }

    /// The layers below `num_layers` that a block follows, in order.
    pub open spec fn layers_below(self, num_layers: nat) -> Seq<usize>
        decreases num_layers,
    {
        if num_layers == 0 {
            Seq::empty()
        } else {
            let last = (num_layers - 1) as nat;
            if self.follows(last) {
                self.layers_below(last).push(last as usize)
            } else {
                self.layers_below(last)
            }
        }
    }

    /// The backbone layer indices that receive a CCA block, given a backbone
    /// of `num_layers` layers.
    pub fn cca_layers(self, num_layers: usize) -> (layers: Vec<usize>)
        requires
            self.wf(),
        ensures
            layers@ == self.layers_below(num_layers as nat),
    {
        let mut layers: Vec<usize> = Vec::new();
        let mut i: usize = 0;
        while i < num_layers
            invariant
                i <= num_layers,
                self.wf(),
                layers@ == self.layers_below(i as nat),
            decreases num_layers - i,
        {
            if self.is_cca_layer(i) {
                layers.push(i);
            }
            i = i + 1;
        }
        layers
    }
}

/// Shapes are refused exactly where one of them is zero, where the chunks do not
/// fill the sequence, or where the query heads are not shared out evenly; and a
/// zero is named before anything else.
pub proof fn law_shapes_are_refused_where_they_do_not_fit(
    n: usize,
    m: usize,
    k: usize,
    r: usize,
    num_heads: usize,
    num_kv_heads: usize,
    head_dim: usize,
    insert_every: usize,
)
    ensures
        ({
            let fault = config_fault(
                n,
                m,
                k,
                r,
                num_heads,
                num_kv_heads,
                head_dim,
                insert_every,
            );
            let sizes = seq![n, m, k, r, num_heads, num_kv_heads, head_dim, insert_every];
            let none_is_zero = forall|i: int| 0 <= i < 8 ==> #[trigger] sizes[i] > 0;
            let chunked = exists|chunks: int| n == #[trigger] (chunks * m);
            let shared = exists|share: int| num_heads == #[trigger] (share * num_kv_heads);
            &&& fault is None <==> none_is_zero && chunked && shared
            &&& (fault matches Some(e) && e is Zero) <==> !none_is_zero
            &&& (fault matches Some(e) && e is SequenceNotChunkAligned) <==> none_is_zero
                && !chunked
        }),
{
    let sizes = seq![n, m, k, r, num_heads, num_kv_heads, head_dim, insert_every];
    assert((forall|i: int| 0 <= i < 8 ==> #[trigger] sizes[i] > 0) <==> (n > 0 && m > 0 && k > 0
        && r > 0 && num_heads > 0 && num_kv_heads > 0 && head_dim > 0 && insert_every > 0)) by {
        if forall|i: int| 0 <= i < 8 ==> #[trigger] sizes[i] > 0 {
            assert(sizes[0] > 0 && sizes[1] > 0 && sizes[2] > 0 && sizes[3] > 0 && sizes[4] > 0
                && sizes[5] > 0 && sizes[6] > 0 && sizes[7] > 0);
        }
    }
    if m > 0 {
        lemma_divides(n as int, m as int);
    }
    if num_kv_heads > 0 {
        lemma_divides(num_heads as int, num_kv_heads as int);
    }
}

proof fn lemma_divides(a: int, b: int)
    requires
        b > 0,
    ensures
        a % b == 0 <==> exists|q: int| a == #[trigger] (q * b),
{
    if a % b == 0 {
        vstd::arithmetic::div_mod::lemma_fundamental_div_mod(a, b);
        let q = a / b;
        assert(b * q == q * b) by (nonlinear_arith);
        assert(a == q * b);
    }
    if exists|q: int| a == #[trigger] (q * b) {
        let q = choose|q: int| a == #[trigger] (q * b);
        vstd::arithmetic::div_mod::lemma_fundamental_div_mod_converse(a, b, q, 0);
    }
}

/// The layers with a block are the first one, and every one a whole number of
/// periods after it, as far as there are layers; they are listed in order.
pub proof fn law_blocks_recur_with_the_period(cfg: CcaConfig, num_layers: nat, layer: nat)
    requires
        cfg.wf(),
        num_layers <= usize::MAX,
        layer < num_layers,
    ensures
        cfg.layers_below(num_layers).contains(layer as usize) <==> exists|i: nat|
            layer == cfg.first_layer() + #[trigger] (i * cfg.period()),
        forall|a: int, b: int|
            0 <= a < b < cfg.layers_below(num_layers).len() ==> (#[trigger] cfg.layers_below(
                num_layers,
            )[a]) < (#[trigger] cfg.layers_below(num_layers)[b]),
        forall|a: int|
            0 <= a < cfg.layers_below(num_layers).len() ==> (#[trigger] cfg.layers_below(
                num_layers,
            )[a]) < num_layers,
{
    lemma_layers_below(cfg, num_layers, layer);
    let gap = layer - cfg.first_layer();
    lemma_divides(gap, cfg.period() as int);
    if cfg.follows(layer) {
        let q = choose|q: int| gap == #[trigger] (q * cfg.period());
        assert(q >= 0) by (nonlinear_arith)
            requires
                gap == q * cfg.period(),
                gap >= 0,
                cfg.period() > 0,
        ;
        assert(layer == cfg.first_layer() + (q as nat) * cfg.period());
    }
    if exists|i: nat| layer == cfg.first_layer() + #[trigger] (i * cfg.period()) {
        let i = choose|i: nat| layer == cfg.first_layer() + #[trigger] (i * cfg.period());
        assert(i * cfg.period() >= 0) by (nonlinear_arith);
        assert(gap == (i as int) * cfg.period());
    }
}

proof fn lemma_layers_below(cfg: CcaConfig, num_layers: nat, layer: nat)
    requires
        num_layers <= usize::MAX,
        layer < num_layers,
    ensures
        cfg.layers_below(num_layers).contains(layer as usize) <==> cfg.follows(layer),
        forall|a: int, b: int|
            0 <= a < b < cfg.layers_below(num_layers).len() ==> (#[trigger] cfg.layers_below(
                num_layers,
            )[a]) < (#[trigger] cfg.layers_below(num_layers)[b]),
        forall|a: int|
            0 <= a < cfg.layers_below(num_layers).len() ==> (#[trigger] cfg.layers_below(
                num_layers,
            )[a]) < num_layers,
    decreases num_layers,
{
    let last = (num_layers - 1) as nat;
    let rest = cfg.layers_below(last);
    let all = cfg.layers_below(num_layers);
    if last > 0 {
        if layer < last {
            lemma_layers_below(cfg, last, layer);
        } else {
            lemma_layers_below(cfg, last, 0);
        }
    } else {
        assert(rest.len() == 0);
    }
    if cfg.follows(last) {
        assert(all[all.len() - 1] == last);
        if layer < last && rest.contains(layer as usize) {
            let a = choose|a: int| 0 <= a < rest.len() && rest[a] == layer as usize;
            assert(all[a] == layer as usize);
        }
        if all.contains(layer as usize) && layer < last {
            let a = choose|a: int| 0 <= a < all.len() && all[a] == layer as usize;
            assert(rest[a] == layer as usize);
        }
    } else if layer == last && all.contains(layer as usize) {
        let a = choose|a: int| 0 <= a < all.len() && all[a] == layer as usize;
        assert(rest[a] < last);
    }
}

/// A message names every number of its error under that number's own label, and a
/// zero by the name of the size.
pub proof fn law_a_message_names_what_it_is_about(e: ConfigError)
    ensures
        ({
            let text = config_error_chars(e);
            match e {
                ConfigError::Zero(field) => crate::text::holds(text, field@),
                ConfigError::SequenceNotChunkAligned { n, m } => {
                    &&& crate::text::names(text, "sequence length n="@, n as nat)
                    &&& crate::text::names(text, " is not a multiple of chunk size m="@, m as nat)
                },
                ConfigError::ModelDimMismatch { d, num_heads, head_dim } => {
                    &&& crate::text::names(text, "model dim d="@, d as nat)
                    &&& crate::text::names(text, " != num_heads="@, num_heads as nat)
                    &&& crate::text::names(text, " * head_dim="@, head_dim as nat)
                },
                ConfigError::HeadGroupingMismatch { num_heads, num_kv_heads } => {
                    &&& crate::text::names(text, "num_heads="@, num_heads as nat)
                    &&& crate::text::names(
                        text,
                        " is not a multiple of num_kv_heads="@,
                        num_kv_heads as nat,
                    )
                },
            }
        }),
{
    let none = Seq::<char>::empty();
    let text = config_error_chars(e);
    match e {
        ConfigError::Zero(field) => {
            crate::text::lemma_holds("`"@, field@, "` must be non-zero"@);
        },
        ConfigError::SequenceNotChunkAligned { n, m } => {
            let (a, b) = ("sequence length n="@, " is not a multiple of chunk size m="@);
            crate::text::lemma_names_two(a, n as nat, b, m as nat, none);
            assert(a + crate::text::decimal_chars(n as nat) + b + crate::text::decimal_chars(
                m as nat,
            ) + none =~= text);
        },
        ConfigError::ModelDimMismatch { d, num_heads, head_dim } => {
            let (a, b, c) = ("model dim d="@, " != num_heads="@, " * head_dim="@);
            let z = crate::text::decimal_chars(head_dim as nat);
            crate::text::lemma_names_two(a, d as nat, b, num_heads as nat, c + z);
            let head = a + crate::text::decimal_chars(d as nat) + b + crate::text::decimal_chars(
                num_heads as nat,
            );
            assert(head + (c + z) =~= text);
            crate::text::lemma_holds(head, c + z, none);
            assert(head + (c + z) + none =~= text);
        },
        ConfigError::HeadGroupingMismatch { num_heads, num_kv_heads } => {
            let (a, b) = ("num_heads="@, " is not a multiple of num_kv_heads="@);
            crate::text::lemma_names_two(a, num_heads as nat, b, num_kv_heads as nat, none);
            assert(a + crate::text::decimal_chars(num_heads as nat) + b
                + crate::text::decimal_chars(num_kv_heads as nat) + none =~= text);
        },
    }
}

} // verus!
