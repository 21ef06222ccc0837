//! Chunking the noised view, and building retrieval queries from it.
//!
//! Diffusion has no left-to-right order, so a chunk attends to neighbours
//! retrieved with its own visible tokens. The retriever may only see what the
//! denoiser sees, which [`crate::view`] enforces structurally.
use crate::binary32::Binary32;
use crate::config::CcaConfig;
use crate::schedule::{is_in_unit_interval, retrieve_now, NoiseLevel, Phase};
use crate::text::decimal;
use crate::view::{count_set, rate, DerivedFromView, NoisedView, ViewId};
use vstd::prelude::*;
use vstd::string::*;

verus! {

/// One chunk of the noised view.
#[derive(Clone, Copy, Debug)]
pub struct Chunk<'v> {
    index: usize,
    tokens: &'v [u32],
    masked: &'v [bool],
}

impl<'v> Chunk<'v> {
    /// Position of this chunk in the sequence.
    pub closed spec fn position(self) -> usize {
        self.index
    }

    /// The chunk's tokens.
    pub closed spec fn token_seq(self) -> Seq<u32> {
        self.tokens@
    }

    /// The chunk's mask flags.
    pub closed spec fn flag_seq(self) -> Seq<bool> {
        self.masked@
    }

    /// Position of this chunk in the sequence, `0..l`.
    pub fn index(self) -> (index: usize)
        ensures
            index == self.position(),
    {
        self.index
    }

    /// The chunk's tokens, `[MASK]` included.
    pub fn tokens(self) -> (tokens: &'v [u32])
        ensures
            tokens@ == self.token_seq(),
    {
        self.tokens
    }

    /// Per-position mask flags.
    pub fn masked(self) -> (masked: &'v [bool])
        ensures
            masked@ == self.flag_seq(),
    {
        self.masked
    }

    /// Fraction of this chunk's positions that are masked.
    ///
    /// The number that decides whether this chunk's query embedding carries
    /// any signal, regardless of what the global `t` says.
    pub fn mask_rate(self) -> (x: Binary32)
        ensures
            x.bits == crate::view::rate_bits(self.flag_seq()),
    {
        rate(self.masked)
    }
}

/// A noised view split into `l` chunks of `m` tokens.
#[derive(Clone, Copy, Debug)]
pub struct ChunkedView<'v> {
    view: &'v NoisedView,
    chunk_size: usize,
    num_chunks: usize,
}

/// Why a view could not be chunked.
#[derive(Clone, Copy, Debug, PartialEq, Eq, Structural)]
pub struct ChunkAlignmentError {
    /// The view's length.
    pub seq_len: usize,
    /// The length the configuration expects.
    pub expected: usize,
}

impl ChunkAlignmentError {
    /// What went wrong, in words.
    pub fn message(&self) -> (s: String)
        ensures
            s@ == "view has "@ + crate::text::decimal_chars(self.seq_len as nat)
                + " tokens but the configuration describes "@ + crate::text::decimal_chars(
                self.expected as nat,
            ),
    {
        let mut s: String = String::from_str("view has ");
        s.append(decimal(self.seq_len as u64).as_str());
        s.append(" tokens but the configuration describes ");
        s.append(decimal(self.expected as u64).as_str());
        s
    }
}

impl<'v> ChunkedView<'v> {
    /// The view being chunked.
    pub closed spec fn whole(self) -> NoisedView {
        *self.view
    }

    /// Tokens per chunk.
    pub closed spec fn m(self) -> usize {
        self.chunk_size
    }

    /// Number of chunks.
    pub closed spec fn l(self) -> usize {
        self.num_chunks
    }

    /// The chunks cover the view exactly.
    pub open spec fn wf(self) -> bool {
        &&& self.whole().wf()
        &&& self.m() > 0
        &&& self.l() * self.m() == self.whole()@.tokens.len()
    }

    /// The tokens of chunk `i`.
    pub open spec fn chunk_tokens(self, i: int) -> Seq<u32> {
        self.whole()@.tokens.subrange(i * self.m(), (i + 1) * self.m())
    }

    /// The mask flags of chunk `i`.
    pub open spec fn chunk_flags(self, i: int) -> Seq<bool> {
        self.whole()@.masked.subrange(i * self.m(), (i + 1) * self.m())
    }

    /// Split `view` according to `cfg`.
    pub fn new(view: &'v NoisedView, cfg: CcaConfig) -> (chunked: Result<
        Self,
        ChunkAlignmentError,
    >)
        requires
            view.wf(),
            cfg.wf(),
        ensures
            chunked is Ok <==> view@.tokens.len() == cfg.n(),
            chunked is Ok ==> chunked->Ok_0.wf() && chunked->Ok_0.whole() == *view
                && chunked->Ok_0.m() == cfg.m() && chunked->Ok_0.l() == cfg.l(),
            chunked is Err ==> chunked->Err_0.seq_len == view@.tokens.len()
                && chunked->Err_0.expected == cfg.n(),
    {
        if view.len() != cfg.seq_len() {
            return Err(ChunkAlignmentError { seq_len: view.len(), expected: cfg.seq_len() });
        }
        Ok(
            ChunkedView { view, chunk_size: cfg.chunk_size(), num_chunks: cfg.num_chunks() },
        )
    }

    /// The view being chunked.
    pub fn view(self) -> (view: &'v NoisedView)
        ensures
            *view == self.whole(),
    {
        self.view
    }

    /// Number of chunks, `l`.
    pub fn len(self) -> (l: usize)
        ensures
            l == self.l(),
    {
        self.num_chunks
    }

    /// Whether there are no chunks.
    pub fn is_empty(self) -> (b: bool)
        ensures
            b == (self.l() == 0),
    {
        self.num_chunks == 0
    }

    /// Chunk `index`, or `None` if out of range.
    pub fn get(self, index: usize) -> (chunk: Option<Chunk<'v>>)
        requires
            self.wf(),
        ensures
            chunk is Some <==> index < self.l(),
            chunk is Some ==> chunk->0.position() == index && chunk->0.token_seq()
                == self.chunk_tokens(index as int) && chunk->0.flag_seq() == self.chunk_flags(
                index as int,
            ) && chunk->0.token_seq().len() == self.m() && chunk->0.flag_seq().len() == self.m(),
    {
        if index >= self.num_chunks {
            return None;
        }
        proof {
            lemma_slot_in_range(index as int, self.l() as int, self.m() as int);
        }
        let start: usize = index * self.chunk_size;
        let end: usize = start + self.chunk_size;
        Some(
            Chunk {
                index,
                tokens: vstd::slice::slice_subrange(self.view.tokens(), start, end),
                masked: vstd::slice::slice_subrange(self.view.masked(), start, end),
            },
        )
    }

    /// The chunks in order.
    pub fn iter(self) -> (chunks: Vec<Chunk<'v>>)
        requires
            self.wf(),
        ensures
            chunks.len() == self.l(),
            forall|i: int|
                0 <= i < self.l() ==> (#[trigger] chunks[i]).position() == i
                    && chunks[i].token_seq() == self.chunk_tokens(i) && chunks[i].flag_seq()
                    == self.chunk_flags(i),
    {
        let mut chunks: Vec<Chunk<'v>> = Vec::new();
        let mut i: usize = 0;
        while i < self.num_chunks
            invariant
                i <= self.num_chunks,
                self.wf(),
                self.num_chunks == self.l(),
                chunks.len() == i,
                forall|j: int|
                    0 <= j < i ==> (#[trigger] chunks[j]).position() == j && chunks[j].token_seq()
                        == self.chunk_tokens(j) && chunks[j].flag_seq() == self.chunk_flags(j),
            decreases self.num_chunks - i,
        {
            match self.get(i) {
                Some(chunk) => {
                    chunks.push(chunk);
                },
                None => {},
            }
            i = i + 1;
        }
        chunks
    }
}

/// Slot `i` of `count` slots of `width` lies inside the whole.
pub proof fn lemma_slot_in_range(i: int, count: int, width: int)
    requires
        0 <= i < count,
        width >= 0,
    ensures
        0 <= i * width,
        (i + 1) * width == i * width + width,
        i * width + width <= count * width,
{
    assert(0 <= i * width && (i + 1) * width == i * width + width && i * width + width <= count
        * width) by (nonlinear_arith)
        requires
            0 <= i < count,
            width >= 0,
    ;
}

/// The chunks partition the sequence: position `pos` is the
/// `pos % m`th token of chunk `pos / m`.
pub proof fn law_chunks_partition_the_sequence(chunked: ChunkedView<'_>, pos: int)
    requires
        chunked.wf(),
        0 <= pos < chunked.whole()@.tokens.len(),
    ensures
        ({
            let i = pos / (chunked.m() as int);
            let at = pos % (chunked.m() as int);
            &&& 0 <= i < chunked.l()
            &&& 0 <= at < chunked.m()
            &&& chunked.chunk_tokens(i)[at] == chunked.whole()@.tokens[pos]
            &&& chunked.chunk_flags(i)[at] == chunked.whole()@.masked[pos]
        }),
{
    let m = chunked.m() as int;
    let l = chunked.l() as int;
    let i = pos / m;
    let at = pos % m;
    vstd::arithmetic::div_mod::lemma_fundamental_div_mod(pos, m);
    vstd::arithmetic::mul::lemma_mul_is_commutative(m, i);
    assert(0 <= i < l) by (nonlinear_arith)
        requires
            pos == i * m + at,
            0 <= at < m,
            0 <= pos < l * m,
            m > 0,
    ;
    lemma_slot_in_range(i, l, m);
}

/// Per-chunk admission policy.
///
/// Restrict retrieval to low-mask chunks: a global `t` inside the retrieval
/// band says the *average* chunk has signal; it says nothing about a
/// particular chunk that the masking process happened to flatten. Skipping
/// those individually costs one count per chunk and removes the noisiest
/// queries from the index traffic.
#[derive(Clone, Copy, Debug)]
pub struct ChunkAdmission {
    max_mask_rate: Binary32,
}

impl PartialEq for ChunkAdmission {
    fn eq(&self, other: &Self) -> (b: bool) {
        self.max_mask_rate.same(other.max_mask_rate)
    }
}

impl vstd::std_specs::cmp::PartialEqSpecImpl for ChunkAdmission {
    open spec fn obeys_eq_spec() -> bool {
        true
    }

    open spec fn eq_spec(&self, other: &Self) -> bool {
        self.limit().is_same(other.limit())
    }
}

impl ChunkAdmission {
    /// The largest admitted mask rate.
    pub closed spec fn limit(self) -> Binary32 {
        self.max_mask_rate
    }

    /// Whether a chunk with these mask flags is admitted.
    pub open spec fn admits_flags(self, flags: Seq<bool>) -> bool {
        (Binary32 { bits: crate::view::rate_bits(flags) }).is_at_most(self.limit())
    }

    /// Admit chunks masked at no more than `max_mask_rate`.
    pub fn new(max_mask_rate: Binary32) -> (admission: Option<Self>)
        ensures
            admission is Some <==> crate::schedule::in_unit_interval(max_mask_rate),
            admission is Some ==> admission->0.limit() == max_mask_rate,
    {
        if is_in_unit_interval(max_mask_rate) {
            Some(ChunkAdmission { max_mask_rate })
        } else {
            None
        }
    }

    /// Admit every chunk, deferring entirely to the global hard gate.
    pub fn permissive() -> (admission: Self)
        ensures
            admission.limit().bits == crate::binary32::ONE_BITS,
    {
        ChunkAdmission { max_mask_rate: Binary32::from_bits(crate::binary32::ONE_BITS) }
    }

    /// Whether `chunk` is admitted.
    pub fn admits(self, chunk: Chunk<'_>) -> (b: bool)
        ensures
            b == self.admits_flags(chunk.flag_seq()),
    {
        chunk.mask_rate().at_most(self.max_mask_rate)
    }
}

impl Default for ChunkAdmission {
    /// Matches the top of the training band: at `t = 0.85` roughly 85% of
    /// positions are masked, so a chunk above that is past the point where
    /// the global gate would have allowed retrieval at all.
    fn default() -> (admission: Self)
        ensures
            admission.limit().bits == 0x3F59_999A,
    {
        ChunkAdmission { max_mask_rate: Binary32::from_bits(0x3F59_999A) }
    }
}

/// The permissive policy admits every chunk.
pub proof fn law_permissive_admits_all(admission: ChunkAdmission, flags: Seq<bool>)
    requires
        admission.limit().bits == crate::binary32::ONE_BITS,
        flags.len() <= u64::MAX,
    ensures
        admission.admits_flags(flags),
{
    crate::view::lemma_count_true_bound(flags);
    if flags.len() > 0 {
        crate::arithmetic::lemma_ratio_bounds(crate::view::count_true(flags), flags.len());
    }
    crate::binary32::lemma_rank_orders(
        (Binary32 { bits: crate::view::rate_bits(flags) }),
        admission.limit(),
    );
}

/// Encodes chunks of a noised view into retrieval query vectors.
///
/// The input is partly `[MASK]`, and a frozen clean-text encoder has never
/// seen that distribution. There are three ways out, in increasing order of
/// cost: restrict retrieval to low-mask steps, fine-tune the retriever on
/// masked inputs with `t` as a conditioning input, or train it jointly
/// against the denoising loss. The trait takes `t` for the sake of the last
/// two.
pub trait RetrieverEncode {
    /// Width of the produced query vectors.
    closed spec fn width(&self) -> nat {
        arbitrary()
    }

    /// Whether `query` is a query vector for the chunk at `position` with
    /// these tokens and mask flags, at noise level `t`.
    closed spec fn encodes(
        &self,
        position: nat,
        tokens: Seq<u32>,
        flags: Seq<bool>,
        t: NoiseLevel,
        query: Seq<Binary32>,
    ) -> bool {
        arbitrary()
    }

    /// Width of the produced query vectors, `d_r`.
    fn query_dim(&self) -> (dim: usize)
        ensures
            dim == self.width(),
    ;

    /// Encode one chunk at noise level `t` into a query vector of
    /// [`Self::query_dim`] elements, appended to `out`.
    fn encode_chunk(&mut self, chunk: Chunk<'_>, t: NoiseLevel, out: &mut Vec<Binary32>)
        ensures
            final(self).width() == old(self).width(),
            final(out)@.len() == old(out)@.len() + old(self).width(),
            final(out)@.take(old(out)@.len() as int) == old(out)@,
            old(self).encodes(
                chunk.position() as nat,
                chunk.token_seq(),
                chunk.flag_seq(),
                t,
                final(out)@.skip(old(out)@.len() as int),
            ),
            forall|
                position: nat,
                tokens: Seq<u32>,
                flags: Seq<bool>,
                level: NoiseLevel,
                query: Seq<Binary32>,
            | #[trigger]
                final(self).encodes(position, tokens, flags, level, query) == old(self).encodes(
                    position,
                    tokens,
                    flags,
                    level,
                    query,
                ),
    ;
}

/// Query vectors for every chunk of one view.
///
/// Carries the [`ViewId`] it was built from, so the denoiser can reject
/// neighbours retrieved against a different, possibly cleaner, view.
#[derive(Clone, Debug, PartialEq)]
pub struct ChunkQueries {
    view_id: ViewId,
    query_dim: usize,
    /// `l * query_dim` values, chunk-major.
    embeddings: Vec<Binary32>,
    /// Per-chunk admission, `l` entries.
    admitted: Vec<bool>,
}

/// What a set of chunk queries holds.
pub struct QueriesState {
    /// The view the queries were built from.
    pub view_id: ViewId,
    /// The query width.
    pub dim: nat,
    /// The query vectors, chunk-major.
    pub embeddings: Seq<Binary32>,
    /// Per-chunk admission.
    pub admitted: Seq<bool>,
}

impl View for ChunkQueries {
    type V = QueriesState;

    closed spec fn view(&self) -> QueriesState {
        QueriesState {
            view_id: self.view_id,
            dim: self.query_dim as nat,
            embeddings: self.embeddings@,
            admitted: self.admitted@,
        }
    }
}

impl DerivedFromView for ChunkQueries {
    open spec fn origin(&self) -> ViewId {
        self@.view_id
    }

    fn view_id(&self) -> (id: ViewId) {
        self.view_id
    }
}

/// The indices of the set flags, in order.
pub open spec fn set_indices(flags: Seq<bool>) -> Seq<usize>
    decreases flags.len(),
{
    if flags.len() == 0 {
        Seq::empty()
    } else {
        let rest = set_indices(flags.drop_last());
        if flags.last() {
            rest.push((flags.len() - 1) as usize)
        } else {
            rest
        }
    }
}

/// `width` zeros.
pub open spec fn zeros(width: nat) -> Seq<Binary32> {
    Seq::new(width, |i: int| Binary32 { bits: 0 })
}

impl ChunkQueries {
    /// The query vector of chunk `i`.
    pub open spec fn slot(self, i: int) -> Seq<Binary32> {
        self@.embeddings.subrange(i * self@.dim, i * self@.dim + self@.dim)
    }

    /// There is one query slot per chunk.
    pub open spec fn wf(self) -> bool {
        &&& self@.embeddings.len() == self@.admitted.len() * self@.dim
        &&& self@.dim <= usize::MAX
        &&& self@.admitted.len() <= usize::MAX
    }

    /// Number of chunks, `l`.
    pub fn len(&self) -> (l: usize)
        ensures
            l == self@.admitted.len(),
    {
        self.admitted.len()
    }

    /// Whether there are no chunks.
    pub fn is_empty(&self) -> (b: bool)
        ensures
            b == (self@.admitted.len() == 0),
    {
        self.admitted.len() == 0
    }

    /// Query width, `d_r`.
    pub fn query_dim(&self) -> (dim: usize)
        ensures
            dim == self@.dim,
    {
        self.query_dim
    }

    /// The query vector for chunk `index`.
    pub fn query(&self, index: usize) -> (query: Option<&[Binary32]>)
        ensures
            query is Some <==> index * self@.dim + self@.dim <= self@.embeddings.len(),
            query is Some ==> query->0@ == self.slot(index as int),
    {
        let total: usize = self.embeddings.len();
        proof {
            assert(index * self.query_dim >= 0) by (nonlinear_arith);
        }
        let start: usize = match index.checked_mul(self.query_dim) {
            Some(start) => start,
            None => {
                return None;
            },
        };
        let end: usize = match start.checked_add(self.query_dim) {
            Some(end) => end,
            None => {
                return None;
            },
        };
        if end > total {
            return None;
        }
        Some(vstd::slice::slice_subrange(self.embeddings.as_slice(), start, end))
    }

    /// Whether chunk `index` was admitted for retrieval.
    pub fn is_admitted(&self, index: usize) -> (b: bool)
        ensures
            b == (index < self@.admitted.len() && self@.admitted[index as int]),
    {
        index < self.admitted.len() && self.admitted[index]
    }

    /// These queries, as if they were those of another view.
    pub closed spec fn of_view(self, id: ViewId) -> ChunkQueries {
        ChunkQueries { view_id: id, ..self }
    }

    /// Indices of the chunks admitted for retrieval.
    pub fn admitted_indices(&self) -> (indices: Vec<usize>)
        ensures
            indices@ == set_indices(self@.admitted),
    {
        let mut indices: Vec<usize> = Vec::new();
        let mut i: usize = 0;
        while i < self.admitted.len()
            invariant
                i <= self.admitted.len(),
                indices@ == set_indices(self.admitted@.take(i as int)),
            decreases self.admitted.len() - i,
        {
            proof {
                assert(self.admitted@.take(i + 1).drop_last() =~= self.admitted@.take(i as int));
            }
            if self.admitted[i] {
                indices.push(i);
            }
            i = i + 1;
        }
        proof {
            assert(self.admitted@.take(i as int) =~= self.admitted@);
        }
        indices
    }

    /// How many chunks were admitted.
    pub fn num_admitted(&self) -> (count: usize)
        ensures
            count == crate::view::count_true(self@.admitted),
    {
        count_set(self.admitted.as_slice())
    }
}

/// Whether two states of an encoder encode chunks in the same way.
pub open spec fn encodes_alike<E: RetrieverEncode>(a: E, b: E) -> bool {
    &&& a.width() == b.width()
    &&& forall|
        position: nat,
        tokens: Seq<u32>,
        flags: Seq<bool>,
        t: NoiseLevel,
        query: Seq<Binary32>,
    | #[trigger]
        a.encodes(position, tokens, flags, t, query) == b.encodes(
            position,
            tokens,
            flags,
            t,
            query,
        )
}

/// Whether `q` holds the queries of the chunks of `chunked`: an encoding of
/// each chunk that is admitted, and zeros in the place of the others.
pub open spec fn asks<E: RetrieverEncode>(
    q: ChunkQueries,
    chunked: ChunkedView<'_>,
    admission: ChunkAdmission,
    encoder: E,
) -> bool {
    &&& q.wf()
    &&& q@.view_id == chunked.whole()@.id
    &&& q@.dim == encoder.width()
    &&& q@.admitted == Seq::new(
        chunked.l() as nat,
        |i: int| admission.admits_flags(chunked.chunk_flags(i)),
    )
    &&& forall|i: int|
        0 <= i < chunked.l() && #[trigger] q@.admitted[i] ==> encoder.encodes(
            i as nat,
            chunked.chunk_tokens(i),
            chunked.chunk_flags(i),
            chunked.whole()@.t,
            q.slot(i),
        )
    &&& forall|i: int|
        0 <= i < chunked.l() && !(#[trigger] q@.admitted[i]) ==> q.slot(i) == zeros(q@.dim)
}

/// Whether `q` holds the queries of the chunks of `view` under `cfg`.
pub open spec fn queries_of<E: RetrieverEncode>(
    q: ChunkQueries,
    view: NoisedView,
    cfg: CcaConfig,
    admission: ChunkAdmission,
    encoder: E,
) -> bool {
    exists|chunked: ChunkedView<'static>|
        chunked.wf() && chunked.whole() == view && chunked.m() == cfg.m() && chunked.l() == cfg.l()
            && #[trigger] asks(q, chunked, admission, encoder)
}

/// Two states of one encoder ask alike.
pub proof fn lemma_alike_queries<E: RetrieverEncode>(
    q: ChunkQueries,
    view: NoisedView,
    cfg: CcaConfig,
    admission: ChunkAdmission,
    a: E,
    b: E,
)
    requires
        queries_of(q, view, cfg, admission, a),
        encodes_alike(a, b),
    ensures
        queries_of(q, view, cfg, admission, b),
{
    let chunked = choose|chunked: ChunkedView<'static>|
        chunked.wf() && chunked.whole() == view && chunked.m() == cfg.m() && chunked.l() == cfg.l()
            && #[trigger] asks(q, chunked, admission, a);
    assert(asks(q, chunked, admission, b));
}

/// Whether two views show the same: the same tokens, masked at the same
/// positions, at the same level.
pub open spec fn show_alike(a: NoisedView, b: NoisedView) -> bool {
    &&& a@.tokens == b@.tokens
    &&& a@.masked == b@.masked
    &&& a@.t == b@.t
}

/// The retriever sees what the view shows, and nothing else: the queries of a
/// view are, but for the view's identity, those of every view that shows the
/// same, whatever either was masked from.
pub proof fn law_queries_see_only_what_is_shown<E: RetrieverEncode>(
    q: ChunkQueries,
    a: NoisedView,
    b: NoisedView,
    cfg: CcaConfig,
    admission: ChunkAdmission,
    encoder: E,
)
    requires
        queries_of(q, a, cfg, admission, encoder),
        b.wf(),
        show_alike(a, b),
    ensures
        queries_of(q.of_view(b@.id), b, cfg, admission, encoder),
        q.of_view(b@.id)@ == (QueriesState { view_id: b@.id, ..q@ }),
{
    let chunked = choose|chunked: ChunkedView<'static>|
        chunked.wf() && chunked.whole() == a && chunked.m() == cfg.m() && chunked.l() == cfg.l()
            && #[trigger] asks(q, chunked, admission, encoder);
    let other = ChunkedView {
        view: &b,
        chunk_size: chunked.chunk_size,
        num_chunks: chunked.num_chunks,
    };
    let relabelled = q.of_view(b@.id);
    assert forall|i: int| #![trigger other.chunk_flags(i)]
        other.chunk_flags(i) == chunked.chunk_flags(i) && other.chunk_tokens(i)
            == chunked.chunk_tokens(i) by {}
    assert(relabelled@.admitted =~= Seq::new(
        other.l() as nat,
        |i: int| admission.admits_flags(other.chunk_flags(i)),
    ));
    assert forall|i: int| relabelled.slot(i) == q.slot(i) by {}
    assert(asks(relabelled, other, admission, encoder));
}

/// Build retrieval queries from the **noised** view.
///
/// The signature is the enforcement: there is no overload taking a
/// [`crate::view::CleanSequence`], and `t` comes from the view rather than
/// from the caller, so a query cannot be built at a noise level the view was
/// not produced at.
///
/// Returns `None` when the hard gate closes at this `t` for this phase:
/// there is nothing to retrieve and no index traffic to spend. A chunk that
/// is not admitted keeps a slot of zeros, and is never searched with.
pub fn chunk_queries<E: RetrieverEncode>(
    chunked: ChunkedView<'_>,
    phase: Phase,
    admission: ChunkAdmission,
    encoder: &mut E,
) -> (queries: Option<ChunkQueries>)
    requires
        chunked.wf(),
        chunked.l() * old(encoder).width() <= usize::MAX,
    ensures
        queries is Some <==> crate::schedule::gate_open(chunked.whole()@.t, phase),
        queries is None ==> *final(encoder) == *old(encoder),
        encodes_alike(*final(encoder), *old(encoder)),
        queries matches Some(q) ==> asks(q, chunked, admission, *old(encoder)),
{
    let view: &NoisedView = chunked.view();
    let t: NoiseLevel = view.noise_level();
    if !retrieve_now(t, phase) {
        return None;
    }
    let query_dim: usize = encoder.query_dim();
    let mut embeddings: Vec<Binary32> = Vec::new();
    let mut admitted: Vec<bool> = Vec::new();
    let count: usize = chunked.len();
    let ghost l = chunked.l() as int;
    let ghost dim = query_dim as int;
    let mut i: usize = 0;
    while i < count
        invariant
            i <= count,
            count == l,
            l == chunked.l(),
            chunked.wf(),
            dim == query_dim,
            query_dim == encoder.width(),
            query_dim == old(encoder).width(),
            embeddings@.len() == i * dim,
            l * dim <= usize::MAX,
            admitted@ == Seq::new(
                i as nat,
                |j: int| admission.admits_flags(chunked.chunk_flags(j)),
            ),
            t == chunked.whole()@.t,
            forall|
                position: nat,
                tokens: Seq<u32>,
                flags: Seq<bool>,
                level: NoiseLevel,
                query: Seq<Binary32>,
            | #[trigger]
                encoder.encodes(position, tokens, flags, level, query) == old(encoder).encodes(
                    position,
                    tokens,
                    flags,
                    level,
                    query,
                ),
            forall|a: int|
                0 <= a < i && #[trigger] admitted@[a] ==> old(encoder).encodes(
                    a as nat,
                    chunked.chunk_tokens(a),
                    chunked.chunk_flags(a),
                    t,
                    embeddings@.subrange(a * dim, a * dim + dim),
                ),
            forall|a: int|
                0 <= a < i && !(#[trigger] admitted@[a]) ==> embeddings@.subrange(
                    a * dim,
                    a * dim + dim,
                ) == zeros(dim as nat),
        decreases count - i,
    {
        let ghost before = embeddings@;
        proof {
            lemma_slot_in_range(i as int, l, dim);
        }
        match chunked.get(i) {
            Some(chunk) => {
                let ok: bool = admission.admits(chunk);
                if ok {
                    encoder.encode_chunk(chunk, t, &mut embeddings);
                } else {
                    let mut j: usize = 0;
                    while j < query_dim
                        invariant
                            j <= query_dim,
                            embeddings@.len() == before.len() + j,
                            embeddings@.take(before.len() as int) == before,
                            forall|b: int|
                                before.len() <= b < embeddings@.len() ==> (
                                #[trigger] embeddings@[b]).bits == 0,
                        decreases query_dim - j,
                    {
                        let ghost now = embeddings@;
                        embeddings.push(Binary32::from_bits(0));
                        proof {
                            assert(embeddings@.take(before.len() as int) =~= now.take(
                                before.len() as int,
                            ));
                        }
                        j = j + 1;
                    }
                }
                admitted.push(ok);
                proof {
                    let now = embeddings@;
                    assert(now.skip(before.len() as int) =~= now.subrange(i * dim, i * dim + dim));
                    if !ok {
                        assert(now.subrange(i * dim, i * dim + dim) =~= zeros(dim as nat));
                    }
                    assert forall|a: int| 0 <= a < i implies #[trigger] now.subrange(
                        a * dim,
                        a * dim + dim,
                    ) == before.subrange(a * dim, a * dim + dim) by {
                        lemma_slot_in_range(a, i as int, dim);
                        assert(now.take(before.len() as int).subrange(a * dim, a * dim + dim)
                            =~= now.subrange(a * dim, a * dim + dim));
                    }
                }
            },
            None => {},
        }
        i = i + 1;
    }
    Some(ChunkQueries { view_id: view.id(), query_dim, embeddings, admitted })
}

/// A chunk asks with its own text: it is admitted where the share of masked
/// positions among its own `m` is within the limit, its query is then what the
/// encoder makes of its own `m` tokens and flags at its own position and at the
/// view's level, and otherwise zero throughout.
pub proof fn law_a_chunk_asks_with_its_own_text<E: RetrieverEncode>(
    q: ChunkQueries,
    view: NoisedView,
    cfg: CcaConfig,
    admission: ChunkAdmission,
    encoder: E,
    chunk: int,
)
    requires
        queries_of(q, view, cfg, admission, encoder),
        0 <= chunk < cfg.l(),
    ensures
        ({
            let tokens = view@.tokens.subrange(chunk * cfg.m(), chunk * cfg.m() + cfg.m());
            let flags = view@.masked.subrange(chunk * cfg.m(), chunk * cfg.m() + cfg.m());
            let query = q@.embeddings.subrange(chunk * q@.dim, chunk * q@.dim + q@.dim);
            &&& q@.view_id == view@.id
            &&& q@.dim == encoder.width()
            &&& q@.admitted.len() == cfg.l()
            &&& q@.embeddings.len() == cfg.l() * q@.dim
            &&& q@.admitted[chunk] == (Binary32 {
                bits: Binary32::ratio_bits(crate::view::count_true(flags), cfg.m() as nat),
            }).is_at_most(admission.limit())
            &&& q@.admitted[chunk] ==> encoder.encodes(chunk as nat, tokens, flags, view@.t, query)
            &&& !q@.admitted[chunk] ==> forall|i: int|
                0 <= i < q@.dim ==> (#[trigger] q@.embeddings[chunk * q@.dim + i]).bits == 0
        }),
{
    let chunked = choose|chunked: ChunkedView<'static>|
        chunked.wf() && chunked.whole() == view && chunked.m() == cfg.m() && chunked.l() == cfg.l()
            && #[trigger] asks(q, chunked, admission, encoder);
    lemma_slot_in_range(chunk, cfg.l() as int, cfg.m() as int);
    lemma_slot_in_range(chunk, cfg.l() as int, q@.dim as int);
    assert(chunked.chunk_tokens(chunk) == view@.tokens.subrange(
        chunk * cfg.m(),
        chunk * cfg.m() + cfg.m(),
    ));
    assert(chunked.chunk_flags(chunk).len() == cfg.m());
    if !q@.admitted[chunk] {
        let query = q.slot(chunk);
        assert forall|i: int| 0 <= i < q@.dim implies (#[trigger] q@.embeddings[chunk * q@.dim
            + i]).bits == 0 by {
            assert(query[i] == zeros(q@.dim)[i]);
        }
    }
}

/// A chunk that is masked no more than another of its size is admitted where the
/// other is.
pub proof fn law_admission_falls_with_the_masks(
    admission: ChunkAdmission,
    less: Seq<bool>,
    more: Seq<bool>,
)
    requires
        less.len() == more.len() <= u64::MAX,
        forall|i: int| 0 <= i < less.len() && #[trigger] less[i] ==> more[i],
        admission.admits_flags(more),
    ensures
        admission.admits_flags(less),
{
    crate::view::lemma_count_true_bound(less);
    crate::view::lemma_count_true_bound(more);
    lemma_fewer_flags(less, more);
    if less.len() > 0 {
        crate::arithmetic::lemma_ratio_monotone(
            crate::view::count_true(less),
            crate::view::count_true(more),
            more.len(),
        );
        crate::arithmetic::lemma_ratio_bounds(crate::view::count_true(more), more.len());
        crate::binary32::lemma_rank_orders(
            (Binary32 { bits: crate::view::rate_bits(less) }),
            (Binary32 { bits: crate::view::rate_bits(more) }),
        );
    }
}

proof fn lemma_fewer_flags(less: Seq<bool>, more: Seq<bool>)
    requires
        less.len() == more.len(),
        forall|i: int| 0 <= i < less.len() && #[trigger] less[i] ==> more[i],
    ensures
        crate::view::count_true(less) <= crate::view::count_true(more),
    decreases less.len(),
{
    if less.len() > 0 {
        assert forall|i: int| 0 <= i < less.drop_last().len() && #[trigger] less.drop_last()[i] implies more.drop_last()[i] by {
            assert(less[i]);
        }
        lemma_fewer_flags(less.drop_last(), more.drop_last());
        assert(less.last() == less[less.len() - 1]);
        assert(more.last() == more[more.len() - 1]);
    }
}

/// The admitted chunks are listed in order, every one of them and no other.
pub proof fn law_the_listed_chunks_are_the_admitted_ones(flags: Seq<bool>, i: int)
    requires
        flags.len() <= usize::MAX,
        0 <= i < flags.len(),
    ensures
        set_indices(flags).contains(i as usize) <==> flags[i],
        forall|a: int, b: int|
            0 <= a < b < set_indices(flags).len() ==> (#[trigger] set_indices(flags)[a]) < (
            #[trigger] set_indices(flags)[b]),
        forall|a: int|
            0 <= a < set_indices(flags).len() ==> (#[trigger] set_indices(flags)[a]) < flags.len(),
    decreases flags.len(),
{
    let rest = flags.drop_last();
    let listed = set_indices(rest);
    let all = set_indices(flags);
    if rest.len() > 0 {
        if i < rest.len() {
            law_the_listed_chunks_are_the_admitted_ones(rest, i);
        } else {
            law_the_listed_chunks_are_the_admitted_ones(rest, 0);
        }
    } else {
        assert(listed.len() == 0);
    }
    if flags.last() {
        assert(all[all.len() - 1] == flags.len() - 1);
        if i < rest.len() && listed.contains(i as usize) {
            let a = choose|a: int| 0 <= a < listed.len() && listed[a] == i as usize;
            assert(all[a] == i as usize);
        }
        if i < rest.len() && all.contains(i as usize) {
            let a = choose|a: int| 0 <= a < all.len() && all[a] == i as usize;
            assert(listed[a] == i as usize);
        }
    } else if i == rest.len() && all.contains(i as usize) {
        let a = choose|a: int| 0 <= a < all.len() && all[a] == i as usize;
        assert(listed[a] < rest.len());
    }
}

} // verus!
