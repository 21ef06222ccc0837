//! Retrieval: index search, corpus gather, and leakage control.
pub mod corpus;
pub mod index;
pub mod leakage;

use crate::chunk::ChunkQueries;
use crate::config::CcaConfig;
use crate::view::{count_set, DerivedFromView, ViewId};
use corpus::{slot_of, DocumentId, NeighbourCorpus, NeighbourId};
use index::{Candidate, NeighbourIndex};
use leakage::LeakageGuard;
use vstd::prelude::*;

verus! {

/// Neighbours retrieved for every chunk of one view.
///
/// Shape `[l, k, r]`, flattened chunk-major. Carries the [`ViewId`] the
/// queries came from, so the denoiser can reject neighbours retrieved against
/// a different view of the same sequence.
#[derive(Clone, Debug, PartialEq, Eq)]
pub struct Neighbours {
    view_id: ViewId,
    num_chunks: usize,
    k: usize,
    r: usize,
    /// `l * k` ids; `None` where no acceptable neighbour was found.
    ids: Vec<Option<NeighbourId>>,
    /// `l * k * r` token ids; zero-filled where `ids` is `None`.
    tokens: Vec<u32>,
}

/// What a set of neighbours holds.
pub struct NeighboursState {
    /// The view the queries came from.
    pub view_id: ViewId,
    /// Number of chunks.
    pub l: nat,
    /// Neighbours per chunk.
    pub k: nat,
    /// Tokens per neighbour.
    pub r: nat,
    /// The neighbour of each slot.
    pub ids: Seq<Option<NeighbourId>>,
    /// The tokens of all slots.
    pub tokens: Seq<u32>,
}

impl View for Neighbours {
    type V = NeighboursState;

    closed spec fn view(&self) -> NeighboursState {
        NeighboursState {
            view_id: self.view_id,
            l: self.num_chunks as nat,
            k: self.k as nat,
            r: self.r as nat,
            ids: self.ids@,
            tokens: self.tokens@,
        }
    }
}

impl DerivedFromView for Neighbours {
    open spec fn origin(&self) -> ViewId {
        self@.view_id
    }

    fn view_id(&self) -> (id: ViewId) {
        self.view_id
    }
}

impl Neighbours {
    /// Every slot of every chunk has an id and its tokens.
    pub open spec fn wf(self) -> bool {
        &&& self@.ids.len() == self@.l * self@.k
        &&& self@.tokens.len() == self@.ids.len() * self@.r
        &&& self@.l <= usize::MAX && self@.k <= usize::MAX && self@.r <= usize::MAX
        &&& self@.ids.len() <= usize::MAX
        &&& self@.tokens.len() <= usize::MAX
        &&& self@.k * self@.r <= usize::MAX
    }

    /// The neighbour at slot `j` of chunk `chunk`: `None` where nothing was
    /// found, and where the chunk has no such slot.
    pub open spec fn id_at(self, chunk: int, j: int) -> Option<NeighbourId> {
        if 0 <= chunk < self@.l && 0 <= j < self@.k {
            self@.ids[chunk * self@.k + j]
        } else {
            None
        }
    }

    /// Whether chunk `chunk` retrieved at least one neighbour.
    pub open spec fn has_neighbours(self, chunk: int) -> bool {
        exists|j: int| 0 <= j < self@.k && (#[trigger] self.id_at(chunk, j)) is Some
    }

    /// Number of chunks, `l`.
    pub fn num_chunks(&self) -> (l: usize)
        ensures
            l == self@.l,
    {
        self.num_chunks
    }

    /// Neighbours per chunk, `k`.
    pub fn neighbours_per_chunk(&self) -> (k: usize)
        ensures
            k == self@.k,
    {
        self.k
    }

    /// Neighbour token length, `r`.
    pub fn neighbour_len(&self) -> (r: usize)
        ensures
            r == self@.r,
    {
        self.r
    }

    /// The `r` tokens of neighbour `j` of chunk `i`.
    pub fn tokens(&self, chunk: usize, j: usize) -> (tokens: Option<&[u32]>)
        requires
            self.wf(),
        ensures
            tokens is Some <==> chunk < self@.l && j < self@.k,
            tokens is Some ==> tokens->0@ == corpus::slot(
                self@.tokens,
                chunk * self@.k + j,
                self@.r as int,
            ),
    {
        if chunk >= self.num_chunks || j >= self.k {
            return None;
        }
        proof {
            crate::chunk::lemma_slot_in_range(chunk as int, self@.l as int, self@.k as int);
            crate::chunk::lemma_slot_in_range(
                chunk * self@.k + j,
                self@.ids.len() as int,
                self@.r as int,
            );
        }
        slot_of(self.tokens.as_slice(), chunk * self.k + j, self.r)
    }

    /// All `k * r` key/value tokens for chunk `i`, contiguous.
    ///
    /// This is the layout the neighbour encoder consumes: one chunk's entire
    /// key/value block in one slice.
    pub fn chunk_tokens(&self, chunk: usize) -> (tokens: Option<&[u32]>)
        requires
            self.wf(),
        ensures
            tokens is Some <==> chunk < self@.l,
            tokens is Some ==> tokens->0@ == corpus::slot(
                self@.tokens,
                chunk as int,
                (self@.k * self@.r) as int,
            ) && tokens->0@.len() == self@.k * self@.r,
    {
        if chunk >= self.num_chunks {
            return None;
        }
        let rows: usize = self.k * self.r;
        proof {
            let (l, k, r) = (self@.l as int, self@.k as int, self@.r as int);
            crate::chunk::lemma_slot_in_range(chunk as int, l, rows as int);
            assert((l * k) * r == l * (k * r)) by (nonlinear_arith);
        }
        slot_of(self.tokens.as_slice(), chunk, rows)
    }

    /// The neighbour id at slot `j` of chunk `i`, if one was found.
    pub fn id(&self, chunk: usize, j: usize) -> (id: Option<NeighbourId>)
        requires
            self.wf(),
        ensures
            id == self.id_at(chunk as int, j as int),
    {
        if chunk >= self.num_chunks || j >= self.k {
            return None;
        }
        proof {
            crate::chunk::lemma_slot_in_range(chunk as int, self@.l as int, self@.k as int);
        }
        self.ids[chunk * self.k + j]
    }

    /// Whether chunk `i` retrieved at least one neighbour.
    ///
    /// A chunk can come back empty: the hard gate admitted the step, but the
    /// chunk's own mask rate excluded it, or every candidate was excluded by
    /// the leakage guard. Its key/value block is zero-filled, and the soft gate
    /// must be held at zero for it: attending to a block of padding is not
    /// the same as not attending.
    pub fn chunk_has_neighbours(&self, chunk: usize) -> (b: bool)
        requires
            self.wf(),
        ensures
            b == self.has_neighbours(chunk as int),
    {
        let mut j: usize = 0;
        while j < self.k
            invariant
                j <= self.k,
                self.k == self@.k,
                self.wf(),
                forall|p: int| 0 <= p < j ==> (#[trigger] self.id_at(chunk as int, p)) is None,
            decreases self.k - j,
        {
            if self.id(chunk, j).is_some() {
                return true;
            }
            j = j + 1;
        }
        false
    }

    /// Per-chunk retrieval mask, `l` entries.
    pub fn chunk_mask(&self) -> (mask: Vec<bool>)
        requires
            self.wf(),
        ensures
            mask@ == Seq::new(self@.l, |i: int| self.has_neighbours(i)),
    {
        let mut mask: Vec<bool> = Vec::new();
        let mut i: usize = 0;
        while i < self.num_chunks
            invariant
                i <= self.num_chunks,
                self.num_chunks == self@.l,
                self.wf(),
                mask@ == Seq::new(i as nat, |j: int| self.has_neighbours(j)),
            decreases self.num_chunks - i,
        {
            mask.push(self.chunk_has_neighbours(i));
            i = i + 1;
        }
        mask
    }

    /// How many `(chunk, slot)` pairs came back filled.
    pub fn num_filled(&self) -> (count: usize)
        ensures
            count == crate::view::count_true(
                Seq::new(self@.ids.len(), |i: int| self@.ids[i] is Some),
            ),
    {
        let mut filled: Vec<bool> = Vec::new();
        let mut i: usize = 0;
        while i < self.ids.len()
            invariant
                i <= self.ids.len(),
                filled@ == Seq::new(i as nat, |j: int| self.ids@[j] is Some),
            decreases self.ids.len() - i,
        {
            filled.push(self.ids[i].is_some());
            i = i + 1;
        }
        proof {
            assert(filled@ =~= Seq::new(self@.ids.len(), |i: int| self@.ids[i] is Some));
        }
        count_set(filled.as_slice())
    }
}

/// The ids that one chunk's search results fill its `k` slots with.
pub open spec fn chunk_ids(found: Seq<Candidate>, k: nat) -> Seq<Option<NeighbourId>> {
    Seq::new(
        k,
        |j: int|
            if j < found.len() {
                Some(found[j].id)
            } else {
                None
            },
    )
}

/// The tokens that slot `j` of a chunk holds: those of the neighbour found
/// for it, or zeros.
pub open spec fn slot_tokens(
    found: Seq<Candidate>,
    corpus: NeighbourCorpus,
    r: nat,
    j: int,
) -> Seq<u32> {
    if j < found.len() && found[j].id.0 * corpus@.r + corpus@.r <= corpus@.tokens.len() {
        corpus::slot(corpus@.tokens, found[j].id.0 as int, corpus@.r as int)
    } else {
        Seq::new(r, |i: int| 0u32)
    }
}

/// The tokens of the first `upto` slots of a chunk.
pub open spec fn chunk_token_seq(
    found: Seq<Candidate>,
    corpus: NeighbourCorpus,
    r: nat,
    upto: nat,
) -> Seq<u32>
    decreases upto,
{
    if upto == 0 {
        Seq::empty()
    } else {
        chunk_token_seq(found, corpus, r, (upto - 1) as nat) + slot_tokens(
            found,
            corpus,
            r,
            upto - 1,
        )
    }
}

/// The ids of all chunks, given what was found for each.
pub open spec fn all_ids(found: Seq<Seq<Candidate>>, k: nat) -> Seq<Option<NeighbourId>>
    decreases found.len(),
{
    if found.len() == 0 {
        Seq::empty()
    } else {
        all_ids(found.drop_last(), k) + chunk_ids(found.last(), k)
    }
}

/// The tokens of all chunks, given what was found for each.
pub open spec fn all_tokens(
    found: Seq<Seq<Candidate>>,
    corpus: NeighbourCorpus,
    r: nat,
    k: nat,
) -> Seq<u32>
    decreases found.len(),
{
    if found.len() == 0 {
        Seq::empty()
    } else {
        all_tokens(found.drop_last(), corpus, r, k) + chunk_token_seq(found.last(), corpus, r, k)
    }
}

/// Append one chunk's search results: the `k` ids, and the tokens of each.
pub fn append_chunk(
    ids: &mut Vec<Option<NeighbourId>>,
    tokens: &mut Vec<u32>,
    found: &[Candidate],
    corpus: &NeighbourCorpus,
    k: usize,
    r: usize,
)
    requires
        corpus@.r == r,
    ensures
        final(ids)@ == old(ids)@ + chunk_ids(found@, k as nat),
        final(tokens)@ == old(tokens)@ + chunk_token_seq(found@, *corpus, r as nat, k as nat),
        final(tokens)@.len() == old(tokens)@.len() + k * r,
{
    let ghost ids0 = ids@;
    let ghost tokens0 = tokens@;
    proof {
        assert(ids0 + chunk_ids(found@, 0) =~= ids0);
        assert(tokens0 + chunk_token_seq(found@, *corpus, r as nat, 0) =~= tokens0);
    }
    let mut j: usize = 0;
    while j < k
        invariant
            j <= k,
            corpus@.r == r,
            ids@ == ids0 + chunk_ids(found@, j as nat),
            tokens@ == tokens0 + chunk_token_seq(found@, *corpus, r as nat, j as nat),
            tokens@.len() == tokens0.len() + j * r,
        decreases k - j,
    {
        let ghost tokens_j = tokens@;
        let ghost ids_j = ids@;
        let mut filled: bool = false;
        if j < found.len() {
            let id: NeighbourId = found[j].id;
            ids.push(Some(id));
            match corpus.tokens(id) {
                Some(src) => {
                    tokens.extend_from_slice(src);
                    filled = true;
                    proof {
                        assert(tokens@ =~= tokens_j + slot_tokens(
                            found@,
                            *corpus,
                            r as nat,
                            j as int,
                        ));
                    }
                },
                None => {},
            }
        } else {
            ids.push(None);
        }
        if !filled {
            let zeros: Vec<u32> = vec![0u32; r];
            tokens.extend_from_slice(zeros.as_slice());
            proof {
                assert(tokens@ =~= tokens_j + slot_tokens(found@, *corpus, r as nat, j as int));
            }
        }
        proof {
            assert(ids@ =~= ids0 + chunk_ids(found@, (j + 1) as nat));
            assert(tokens@ =~= tokens0 + chunk_token_seq(
                found@,
                *corpus,
                r as nat,
                (j + 1) as nat,
            ));
            assert((j + 1) * r == j * r + r) by (nonlinear_arith);
        }
        j = j + 1;
    }
}

/// Whether `found` is what the search for chunk `c` gave: the index's answer
/// to the chunk's query, and nothing where the chunk was not admitted.
pub open spec fn searched<I: NeighbourIndex>(
    found: Seq<Candidate>,
    c: int,
    queries: ChunkQueries,
    index: I,
    k: nat,
    guard: LeakageGuard,
    document: DocumentId,
    corpus: NeighbourCorpus,
) -> bool {
    &&& found.len() <= k
    &&& forall|j: int|
        0 <= j < found.len() ==> guard.allows(document, (#[trigger] found[j]).id, corpus)
    &&& if c < queries@.admitted.len() && queries@.admitted[c] {
        index.answers(
            queries.slot(c),
            k,
            leakage::accept_rule(guard, document, corpus),
            found,
        )
    } else {
        found.len() == 0
    }
}

/// What every chunk's search was asked for and gave back.
pub open spec fn search_results<I: NeighbourIndex>(
    found: Seq<Seq<Candidate>>,
    queries: ChunkQueries,
    index: I,
    l: nat,
    k: nat,
    guard: LeakageGuard,
    document: DocumentId,
    corpus: NeighbourCorpus,
) -> bool {
    &&& found.len() == l
    &&& forall|c: int|
        0 <= c < l ==> searched(
            #[trigger] found[c],
            c,
            queries,
            index,
            k,
            guard,
            document,
            corpus,
        )
}

/// Whether `neighbours` is what the index holds for `queries`: the block of
/// some answers to them, laid out chunk by chunk.
pub open spec fn retrieved<I: NeighbourIndex>(
    neighbours: Neighbours,
    queries: ChunkQueries,
    cfg: CcaConfig,
    index: I,
    corpus: NeighbourCorpus,
    guard: LeakageGuard,
    document: DocumentId,
) -> bool {
    &&& neighbours.wf()
    &&& neighbours@.view_id == queries@.view_id
    &&& neighbours@.l == cfg.l()
    &&& neighbours@.k == cfg.k()
    &&& neighbours@.r == cfg.r()
    &&& exists|found: Seq<Seq<Candidate>>| #[trigger]
        search_results(
            found,
            queries,
            index,
            cfg.l() as nat,
            cfg.k() as nat,
            guard,
            document,
            corpus,
        ) && neighbours@.ids == all_ids(found, cfg.k() as nat) && neighbours@.tokens == all_tokens(
            found,
            corpus,
            cfg.r() as nat,
            cfg.k() as nat,
        )
    &&& forall|i: int|
        0 <= i < neighbours@.ids.len() && (#[trigger] neighbours@.ids[i]) is Some ==> guard.allows(
            document,
            neighbours@.ids[i]->0,
            corpus,
        )
}

/// Whether `neighbours` is what retrieval gives for a view: what the index
/// holds for `queries`, which are the queries of the view.
pub open spec fn retrieved_for_view<I: NeighbourIndex, E: crate::chunk::RetrieverEncode>(
    neighbours: Neighbours,
    queries: ChunkQueries,
    view: crate::view::NoisedView,
    cfg: CcaConfig,
    admission: crate::chunk::ChunkAdmission,
    encoder: E,
    index: I,
    corpus: NeighbourCorpus,
    guard: LeakageGuard,
    document: DocumentId,
) -> bool {
    &&& crate::chunk::queries_of(queries, view, cfg, admission, encoder)
    &&& retrieved(neighbours, queries, cfg, index, corpus, guard, document)
}

/// Search the index for every admitted chunk and gather the neighbour tokens.
///
/// `training_document` identifies the sequence being denoised, so the leakage
/// guard can keep the document out of its own results. At inference, pass the
/// document id the prompt belongs to, or a synthetic id no corpus document
/// uses.
///
/// Exclusions are applied *inside* the search rather than to its output, so a
/// chunk still gets `k` neighbours when its nearest match is excluded.
pub fn retrieve<I: NeighbourIndex>(
    queries: &ChunkQueries,
    cfg: CcaConfig,
    index: &I,
    corpus: &NeighbourCorpus,
    guard: &LeakageGuard,
    training_document: DocumentId,
) -> (neighbours: Neighbours)
    requires
        cfg.wf(),
        queries.wf(),
        queries@.dim == index.width(),
        corpus@.r == cfg.r(),
        cfg.l() * cfg.k() * cfg.r() <= usize::MAX,
    ensures
        retrieved(neighbours, *queries, cfg, *index, *corpus, *guard, training_document),
{
    let l: usize = cfg.num_chunks();
    let k: usize = cfg.neighbours_per_chunk();
    let r: usize = cfg.neighbour_len();
    let mut ids: Vec<Option<NeighbourId>> = Vec::new();
    let mut tokens: Vec<u32> = Vec::new();
    let ghost mut all: Seq<Seq<Candidate>> = Seq::empty();
    let mut chunk: usize = 0;
    while chunk < l
        invariant
            chunk <= l,
            l == cfg.l(),
            k == cfg.k(),
            r == cfg.r(),
            queries.wf(),
            queries@.dim == index.width(),
            corpus@.r == r,
            search_results(
                all,
                *queries,
                *index,
                chunk as nat,
                k as nat,
                *guard,
                training_document,
                *corpus,
            ),
            ids@ == all_ids(all, k as nat),
            tokens@ == all_tokens(all, *corpus, r as nat, k as nat),
            ids@.len() == chunk * k,
            tokens@.len() == ids@.len() * r,
        decreases l - chunk,
    {
        let mut found: Vec<Candidate> = Vec::new();
        if queries.is_admitted(chunk) {
            proof {
                crate::chunk::lemma_slot_in_range(
                    chunk as int,
                    queries@.admitted.len() as int,
                    queries@.dim as int,
                );
            }
            match queries.query(chunk) {
                Some(query) => {
                    proof {
                        let dim = queries@.dim as int;
                        assert(chunk * dim >= 0) by (nonlinear_arith)
                            requires
                                dim >= 0,
                        ;
                    }
                    let accept = guard.accept_fn(training_document, corpus);
                    found = index.search(query, k, &accept);
                },
                None => {},
            }
        }
        let ghost ids_before = ids@;
        let ghost tokens_before = tokens@;
        append_chunk(&mut ids, &mut tokens, found.as_slice(), corpus, k, r);
        proof {
            let next = all.push(found@);
            assert(next.drop_last() =~= all);
            assert forall|c: int| 0 <= c < chunk + 1 implies searched(
                #[trigger] next[c],
                c,
                *queries,
                *index,
                k as nat,
                *guard,
                training_document,
                *corpus,
            ) by {
                if c < chunk {
                    assert(next[c] == all[c]);
                } else {
                    assert(next[c] == found@);
                }
            }
            all = next;
            assert((chunk + 1) * k == chunk * k + k) by (nonlinear_arith);
            assert((ids_before.len() + k) * r == ids_before.len() * r + k * r)
                by (nonlinear_arith);
        }
        chunk = chunk + 1;
    }
    proof {
        assert forall|i: int|
            0 <= i < ids@.len() && (#[trigger] ids@[i]) is Some implies guard.allows(
            training_document,
            ids@[i]->0,
            *corpus,
        ) by {
            lemma_all_ids_allowed(
                all,
                *queries,
                *index,
                l as nat,
                k as nat,
                *guard,
                training_document,
                *corpus,
                i,
            );
        }
        let (kk, rr, ll) = (k as int, r as int, l as int);
        assert(kk * rr <= ll * kk * rr && ll * kk <= ll * kk * rr) by (nonlinear_arith)
            requires
                kk > 0,
                rr > 0,
                ll > 0,
        ;
    }
    Neighbours { view_id: queries.view_id(), num_chunks: l, k, r, ids, tokens }
}

proof fn lemma_all_ids_allowed<I: NeighbourIndex>(
    found: Seq<Seq<Candidate>>,
    queries: ChunkQueries,
    index: I,
    l: nat,
    k: nat,
    guard: LeakageGuard,
    document: DocumentId,
    corpus: NeighbourCorpus,
    i: int,
)
    requires
        search_results(found, queries, index, l, k, guard, document, corpus),
        0 <= i < all_ids(found, k).len(),
        all_ids(found, k)[i] is Some,
    ensures
        guard.allows(document, all_ids(found, k)[i]->0, corpus),
    decreases l,
{
    if l > 0 {
        let rest = found.drop_last();
        let head = all_ids(rest, k);
        assert(found.last() == found[l - 1]);
        if i < head.len() {
            assert forall|c: int| 0 <= c < l - 1 implies searched(
                #[trigger] rest[c],
                c,
                queries,
                index,
                k,
                guard,
                document,
                corpus,
            ) by {
                assert(rest[c] == found[c]);
            }
            lemma_all_ids_allowed(
                rest,
                queries,
                index,
                (l - 1) as nat,
                k,
                guard,
                document,
                corpus,
                i,
            );
        } else {
            let j = i - head.len();
            assert(chunk_ids(found.last(), k)[j] is Some);
            assert(guard.allows(document, found[l - 1][j].id, corpus));
        }
    }
}

/// A document never retrieves itself: with a guard that excludes by source,
/// no retrieved neighbour comes from the training document.
pub proof fn law_a_document_does_not_retrieve_itself<I: NeighbourIndex>(
    neighbours: Neighbours,
    queries: ChunkQueries,
    cfg: CcaConfig,
    index: I,
    corpus: NeighbourCorpus,
    guard: LeakageGuard,
    document: DocumentId,
    i: int,
)
    requires
        retrieved(neighbours, queries, cfg, index, corpus, guard, document),
        guard.by_source(),
        0 <= i < neighbours@.ids.len(),
        neighbours@.ids[i] is Some,
    ensures
        corpus.source_of(neighbours@.ids[i]->0) != Some(document),
{
}

proof fn lemma_chunk_tokens(
    found: Seq<Candidate>,
    corpus: NeighbourCorpus,
    r: nat,
    upto: nat,
    j: int,
)
    requires
        corpus@.r == r,
        0 <= j,
    ensures
        chunk_token_seq(found, corpus, r, upto).len() == upto * r,
        j < upto ==> corpus::slot(chunk_token_seq(found, corpus, r, upto), j, r as int)
            == slot_tokens(found, corpus, r, j),
    decreases upto,
{
    let whole = chunk_token_seq(found, corpus, r, upto);
    if upto > 0 {
        let head = chunk_token_seq(found, corpus, r, (upto - 1) as nat);
        lemma_chunk_tokens(found, corpus, r, (upto - 1) as nat, j);
        assert(upto * r == (upto - 1) * r + r) by (nonlinear_arith);
        assert(slot_tokens(found, corpus, r, upto - 1).len() == r) by {
            if upto - 1 < found.len() {
                assert(found[upto - 1].id.0 * r >= 0) by (nonlinear_arith);
            }
        }
        if j < upto - 1 {
            assert(0 <= j * r && j * r + r <= (upto - 1) * r) by (nonlinear_arith)
                requires
                    0 <= j < upto - 1,
            ;
            assert(corpus::slot(whole, j, r as int) =~= corpus::slot(head, j, r as int));
        } else if j == upto - 1 {
            assert(corpus::slot(whole, j, r as int) =~= slot_tokens(found, corpus, r, j));
        }
    } else {
        assert(0 * r == 0) by (nonlinear_arith);
    }
}

/// Slot `j` of chunk `c` in the block that answers are laid out in.
proof fn lemma_slot_of_block(
    found: Seq<Seq<Candidate>>,
    corpus: NeighbourCorpus,
    r: nat,
    k: nat,
    c: int,
    j: int,
)
    requires
        corpus@.r == r,
        0 <= c,
        0 <= j < k,
    ensures
        all_ids(found, k).len() == found.len() * k,
        all_tokens(found, corpus, r, k).len() == found.len() * k * r,
        c < found.len() ==> all_ids(found, k)[c * k + j] == chunk_ids(found[c], k)[j],
        c < found.len() ==> corpus::slot(
            all_tokens(found, corpus, r, k),
            c * k + j,
            r as int,
        ) == slot_tokens(found[c], corpus, r, j),
    decreases found.len(),
{
    if found.len() > 0 {
        let rest = found.drop_last();
        let n = found.len() as int;
        lemma_slot_of_block(rest, corpus, r, k, c, j);
        lemma_chunk_tokens(found.last(), corpus, r, k, j);
        assert(n * k == (n - 1) * k + k && n * k * r == (n - 1) * k * r + k * r)
            by (nonlinear_arith);
        let ids = all_ids(found, k);
        let tokens = all_tokens(found, corpus, r, k);
        let at = (c * k + j) * r;
        if c < n - 1 {
            assert(rest[c] == found[c]);
            assert(0 <= c * k + j < (n - 1) * k && 0 <= at && at + r <= (n - 1) * k * r)
                by (nonlinear_arith)
                requires
                    0 <= c < n - 1,
                    0 <= j < k,
                    at == (c * k + j) * r,
            ;
            assert(ids[c * k + j] == all_ids(rest, k)[c * k + j]);
            assert(corpus::slot(tokens, c * k + j, r as int) =~= corpus::slot(
                all_tokens(rest, corpus, r, k),
                c * k + j,
                r as int,
            ));
        } else if c == n - 1 {
            let own = chunk_token_seq(found.last(), corpus, r, k);
            assert(ids[c * k + j] == chunk_ids(found.last(), k)[j]);
            assert(at == (n - 1) * k * r + j * r && 0 <= j * r && j * r + r <= k * r)
                by (nonlinear_arith)
                requires
                    c == n - 1,
                    0 <= j < k,
                    at == (c * k + j) * r,
            ;
            assert(corpus::slot(tokens, c * k + j, r as int) =~= corpus::slot(own, j, r as int));
        }
    } else {
        assert(0 * k == 0 && 0 * k * r == 0) by (nonlinear_arith);
    }
}

/// A filled slot holds the tokens of the neighbour it names, and an empty one
/// holds zeros.
pub proof fn law_slots_hold_their_neighbour<I: NeighbourIndex>(
    neighbours: Neighbours,
    queries: ChunkQueries,
    cfg: CcaConfig,
    index: I,
    corpus: NeighbourCorpus,
    guard: LeakageGuard,
    document: DocumentId,
    chunk: int,
    j: int,
)
    requires
        retrieved(neighbours, queries, cfg, index, corpus, guard, document),
        cfg.wf(),
        corpus.wf(),
        corpus@.r == cfg.r(),
        0 <= chunk < cfg.l(),
        0 <= j < cfg.k(),
    ensures
        corpus::slot(neighbours@.tokens, chunk * cfg.k() + j, cfg.r() as int) == match
            neighbours.id_at(chunk, j) {
            Some(id) if id.0 < corpus@.documents.len() => corpus::slot(
                corpus@.tokens,
                id.0 as int,
                cfg.r() as int,
            ),
            _ => Seq::new(cfg.r() as nat, |i: int| 0u32),
        },
{
    let (l, k, r) = (cfg.l() as nat, cfg.k() as nat, cfg.r() as nat);
    let found = choose|found: Seq<Seq<Candidate>>| #[trigger]
        search_results(found, queries, index, l, k, guard, document, corpus) && neighbours@.ids
            == all_ids(found, k) && neighbours@.tokens == all_tokens(found, corpus, r, k);
    lemma_slot_of_block(found, corpus, r, k, chunk, j);
    assert(0 <= chunk * k + j < l * k) by (nonlinear_arith)
        requires
            0 <= chunk < l,
            0 <= j < k,
    ;
    if j < found[chunk].len() {
        let id = found[chunk][j].id.0 as int;
        let held = corpus@.documents.len() as int;
        assert(id < held <==> id * r + r <= held * r) by (nonlinear_arith)
            requires
                r > 0,
        ;
    }
}

/// A chunk that was not admitted retrieves nothing.
pub proof fn law_a_withheld_chunk_retrieves_nothing<I: NeighbourIndex>(
    neighbours: Neighbours,
    queries: ChunkQueries,
    cfg: CcaConfig,
    index: I,
    corpus: NeighbourCorpus,
    guard: LeakageGuard,
    document: DocumentId,
    chunk: int,
)
    requires
        retrieved(neighbours, queries, cfg, index, corpus, guard, document),
        corpus@.r == cfg.r(),
        0 <= chunk < cfg.l(),
        chunk < queries@.admitted.len() ==> !queries@.admitted[chunk],
    ensures
        !neighbours.has_neighbours(chunk),
{
    let (l, k, r) = (cfg.l() as nat, cfg.k() as nat, cfg.r() as nat);
    let found = choose|found: Seq<Seq<Candidate>>| #[trigger]
        search_results(found, queries, index, l, k, guard, document, corpus) && neighbours@.ids
            == all_ids(found, k) && neighbours@.tokens == all_tokens(found, corpus, r, k);
    assert forall|j: int| 0 <= j < k implies (#[trigger] neighbours.id_at(chunk, j)) is None by {
        lemma_slot_of_block(found, corpus, r, k, chunk, j);
        assert(0 <= chunk * k + j < l * k) by (nonlinear_arith)
            requires
                0 <= chunk < l,
                0 <= j < k,
        ;
        assert(found[chunk].len() == 0);
    }
}

/// The slots of a block, one after the other: place `chunk * k + j` is slot
/// `j` of chunk `chunk`, and every place is some chunk's slot.
proof fn lemma_places(neighbours: Neighbours, i: int)
    requires
        neighbours.wf(),
        0 <= i < neighbours@.ids.len(),
    ensures
        neighbours@.k > 0,
        0 <= i / (neighbours@.k as int) < neighbours@.l,
        0 <= i % (neighbours@.k as int) < neighbours@.k,
        neighbours.id_at(i / (neighbours@.k as int), i % (neighbours@.k as int))
            == neighbours@.ids[i],
{
    let (l, k) = (neighbours@.l as int, neighbours@.k as int);
    assert(k > 0) by (nonlinear_arith)
        requires
            0 <= i < l * k,
            k >= 0,
    ;
    vstd::arithmetic::div_mod::lemma_fundamental_div_mod(i, k);
    let (q, m) = (i / k, i % k);
    assert(0 <= q < l && q * k + m == i) by (nonlinear_arith)
        requires
            0 <= i < l * k,
            i == k * q + m,
            0 <= m < k,
    ;
}

/// Where a set flag is, a count is not zero.
proof fn lemma_none_set(flags: Seq<bool>)
    ensures
        crate::view::count_true(flags) <= flags.len(),
        crate::view::count_true(flags) == 0 <==> forall|i: int|
            0 <= i < flags.len() ==> !#[trigger] flags[i],
    decreases flags.len(),
{
    if flags.len() > 0 {
        let rest = flags.drop_last();
        lemma_none_set(rest);
        let last = flags.len() - 1;
        assert(flags.last() == flags[last]);
        if crate::view::count_true(flags) == 0 {
            assert forall|i: int| 0 <= i < flags.len() implies !#[trigger] flags[i] by {
                if i < last {
                    assert(rest[i] == flags[i]);
                }
            }
        } else if forall|i: int| 0 <= i < flags.len() ==> !#[trigger] flags[i] {
            assert forall|i: int| 0 <= i < rest.len() implies !#[trigger] rest[i] by {
                assert(rest[i] == flags[i]);
            }
        }
    }
}

/// What is counted as filled is the pairs of a chunk and one of its slots that
/// hold a neighbour: there are at most `l * k` of them, and none exactly where
/// no chunk retrieved anything.
pub proof fn law_filled_slots_are_the_chunks(neighbours: Neighbours)
    requires
        neighbours.wf(),
    ensures
        ({
            let (l, k) = (neighbours@.l, neighbours@.k);
            let flags = Seq::new(neighbours@.ids.len(), |i: int| neighbours@.ids[i] is Some);
            &&& flags.len() == l * k
            &&& forall|c: int, j: int|
                #![trigger neighbours.id_at(c, j)]
                0 <= c < l && 0 <= j < k ==> 0 <= c * k + j < flags.len() && flags[c * k + j] == (
                neighbours.id_at(c, j) is Some)
            &&& crate::view::count_true(flags) <= l * k
            &&& crate::view::count_true(flags) == 0 <==> forall|c: int|
                0 <= c < l ==> !#[trigger] neighbours.has_neighbours(c)
        }),
{
    let (l, k) = (neighbours@.l as int, neighbours@.k as int);
    let flags = Seq::new(neighbours@.ids.len(), |i: int| neighbours@.ids[i] is Some);
    assert forall|c: int, j: int|
        #![trigger neighbours.id_at(c, j)]
        0 <= c < l && 0 <= j < k implies 0 <= c * k + j < flags.len() && flags[c * k + j] == (
    neighbours.id_at(c, j) is Some) by {
        crate::chunk::lemma_slot_in_range(c, l, k);
        assert(c * k >= 0) by (nonlinear_arith)
            requires
                c >= 0,
                k >= 0,
        ;
    }
    lemma_none_set(flags);
    if crate::view::count_true(flags) == 0 {
        assert forall|c: int| 0 <= c < l implies !#[trigger] neighbours.has_neighbours(c) by {
            assert forall|j: int| 0 <= j < k implies (#[trigger] neighbours.id_at(c, j)) is None by {
                assert(!flags[c * k + j]);
            }
        }
    } else {
        let i = choose|i: int| 0 <= i < flags.len() && #[trigger] flags[i];
        lemma_places(neighbours, i);
        assert(neighbours.id_at(i / k, i % k) is Some);
        assert(neighbours.has_neighbours(i / k));
    }
}

/// A chunk comes back with a neighbour exactly where it was admitted and the
/// guard accepts something of the corpus.
pub proof fn law_a_chunk_has_neighbours_where_one_is_accepted(
    neighbours: Neighbours,
    queries: ChunkQueries,
    cfg: CcaConfig,
    index: index::ExactIndex,
    corpus: NeighbourCorpus,
    guard: LeakageGuard,
    document: DocumentId,
    chunk: int,
)
    requires
        retrieved(neighbours, queries, cfg, index, corpus, guard, document),
        cfg.wf(),
        corpus.wf(),
        corpus@.r == cfg.r(),
        corpus@.dim > 0,
        index.dim() == corpus@.dim,
        index.flat() == corpus@.embeddings,
        0 <= chunk < cfg.l(),
    ensures
        neighbours.has_neighbours(chunk) <==> chunk < queries@.admitted.len()
            && queries@.admitted[chunk] && exists|i: int|
            0 <= i < corpus@.documents.len() && guard.allows(
                document,
                #[trigger] corpus::id_of(i as nat),
                corpus,
            ),
{
    let (l, k, r) = (cfg.l() as nat, cfg.k() as nat, cfg.r() as nat);
    let found = choose|found: Seq<Seq<Candidate>>| #[trigger]
        search_results(found, queries, index, l, k, guard, document, corpus) && neighbours@.ids
            == all_ids(found, k) && neighbours@.tokens == all_tokens(found, corpus, r, k);
    assert(searched(found[chunk], chunk, queries, index, k, guard, document, corpus));
    assert forall|j: int| 0 <= j < k implies neighbours.id_at(chunk, j) == chunk_ids(
        found[chunk],
        k,
    )[j] by {
        lemma_slot_of_block(found, corpus, r, k, chunk, j);
    }
    let accept = leakage::accept_rule(guard, document, corpus);
    let count = corpus@.documents.len() as int;
    vstd::arithmetic::div_mod::lemma_div_by_multiple(count, corpus@.dim as int);
    assert(index.count() == count);
    let open = chunk < queries@.admitted.len() && queries@.admitted[chunk];
    if open {
        index.lemma_eligible(accept, index.count());
        if exists|i: int| 0 <= i < count && #[trigger] index.eligible(accept, i) {
            let i = choose|i: int| 0 <= i < count && #[trigger] index.eligible(accept, i);
            leakage::law_the_acceptance_rule_is_the_guard(
                guard,
                document,
                corpus,
                corpus::id_of(i as nat),
            );
            assert(found[chunk].len() > 0);
            assert(neighbours.id_at(chunk, 0) is Some);
        } else {
            assert(found[chunk].len() == 0);
        }
        assert forall|i: int| 0 <= i < count implies index.eligible(accept, i) == guard.allows(
            document,
            #[trigger] corpus::id_of(i as nat),
            corpus,
        ) by {
            leakage::law_the_acceptance_rule_is_the_guard(
                guard,
                document,
                corpus,
                corpus::id_of(i as nat),
            );
        }
    }
    if found[chunk].len() == 0 {
        assert forall|j: int| 0 <= j < k implies (#[trigger] neighbours.id_at(chunk, j)) is None by {
        }
    }
}

/// With a guard that was never audited, what is retrieved excludes the
/// document itself, and nothing of any other document.
pub proof fn law_the_source_guard_excludes_the_source_alone(
    guard: LeakageGuard,
    document: DocumentId,
    candidate: NeighbourId,
    corpus: NeighbourCorpus,
)
    requires
        guard.by_source(),
        guard.excluded(document) == Set::<u32>::empty(),
    ensures
        guard.allows(document, candidate, corpus) <==> corpus.source_of(candidate) != Some(
            document,
        ),
{
}

/// What is retrieved carries the identity of the view it was retrieved for.
pub proof fn law_neighbours_carry_their_view<I: NeighbourIndex, E: crate::chunk::RetrieverEncode>(
    neighbours: Neighbours,
    queries: ChunkQueries,
    view: crate::view::NoisedView,
    cfg: CcaConfig,
    admission: crate::chunk::ChunkAdmission,
    encoder: E,
    index: I,
    corpus: NeighbourCorpus,
    guard: LeakageGuard,
    document: DocumentId,
)
    requires
        retrieved_for_view(
            neighbours,
            queries,
            view,
            cfg,
            admission,
            encoder,
            index,
            corpus,
            guard,
            document,
        ),
    ensures
        queries@.view_id == view@.id,
        neighbours@.view_id == view@.id,
{
}

/// What was derived from one view is caught when it is held against another
/// view of the same source, and is not when it is held against its own.
pub proof fn law_a_mismatched_view_is_caught<I: NeighbourIndex, E: crate::chunk::RetrieverEncode>(
    source: crate::view::IdSource,
    view: crate::view::NoisedView,
    i: nat,
    other: crate::view::NoisedView,
    j: nat,
    neighbours: Neighbours,
    queries: ChunkQueries,
    cfg: CcaConfig,
    admission: crate::chunk::ChunkAdmission,
    encoder: E,
    index: I,
    corpus: NeighbourCorpus,
    guard: LeakageGuard,
    document: DocumentId,
)
    requires
        retrieved_for_view(
            neighbours,
            queries,
            view,
            cfg,
            admission,
            encoder,
            index,
            corpus,
            guard,
            document,
        ),
        i != j,
        i < j ==> j - i <= u64::MAX,
        j < i ==> i - j <= u64::MAX,
        view@.id.value() == crate::view::after_draws(source.views(), i),
        other@.id.value() == crate::view::after_draws(source.views(), j),
    ensures
        queries.origin() == view@.id,
        neighbours.origin() == view@.id,
        queries.origin() != other@.id,
        neighbours.origin() != other@.id,
{
    if i < j {
        crate::view::law_views_of_one_source_differ(source, view, i, other, j);
    } else {
        crate::view::law_views_of_one_source_differ(source, other, j, view, i);
    }
}

impl Neighbours {
    /// These neighbours, as if they were those of another view.
    pub closed spec fn of_view(self, id: ViewId) -> Neighbours {
        Neighbours { view_id: id, ..self }
    }
}

/// The retriever sees what the view shows, and nothing else: what is retrieved
/// for a view is, but for the view's identity, what is retrieved for every
/// view that shows the same.
pub proof fn law_retrieval_sees_only_what_is_shown<
    I: NeighbourIndex,
    E: crate::chunk::RetrieverEncode,
>(
    neighbours: Neighbours,
    queries: ChunkQueries,
    a: crate::view::NoisedView,
    b: crate::view::NoisedView,
    cfg: CcaConfig,
    admission: crate::chunk::ChunkAdmission,
    encoder: E,
    index: I,
    corpus: NeighbourCorpus,
    guard: LeakageGuard,
    document: DocumentId,
)
    requires
        retrieved_for_view(
            neighbours,
            queries,
            a,
            cfg,
            admission,
            encoder,
            index,
            corpus,
            guard,
            document,
        ),
        b.wf(),
        crate::chunk::show_alike(a, b),
    ensures
        retrieved_for_view(
            neighbours.of_view(b@.id),
            queries.of_view(b@.id),
            b,
            cfg,
            admission,
            encoder,
            index,
            corpus,
            guard,
            document,
        ),
        neighbours.of_view(b@.id)@ == (NeighboursState { view_id: b@.id, ..neighbours@ }),
{
    crate::chunk::law_queries_see_only_what_is_shown(queries, a, b, cfg, admission, encoder);
    let other = queries.of_view(b@.id);
    assert forall|c: int| other.slot(c) == queries.slot(c) by {}
    let found = choose|found: Seq<Seq<Candidate>>| #[trigger]
        search_results(
            found,
            queries,
            index,
            cfg.l() as nat,
            cfg.k() as nat,
            guard,
            document,
            corpus,
        ) && neighbours@.ids == all_ids(found, cfg.k() as nat) && neighbours@.tokens == all_tokens(
            found,
            corpus,
            cfg.r() as nat,
            cfg.k() as nat,
        );
    assert forall|c: int| 0 <= c < cfg.l() implies searched(
        #[trigger] found[c],
        c,
        other,
        index,
        cfg.k() as nat,
        guard,
        document,
        corpus,
    ) by {
        assert(searched(
            found[c],
            c,
            queries,
            index,
            cfg.k() as nat,
            guard,
            document,
            corpus,
        ));
    }
    assert(search_results(
        found,
        other,
        index,
        cfg.l() as nat,
        cfg.k() as nat,
        guard,
        document,
        corpus,
    ));
}

/// A chunk retrieves for its own query: over an exact index, the neighbours at
/// the slots of an admitted chunk are the accepted vectors nearest to the query
/// vector of that very chunk, nearest first, and none is left out that is nearer.
pub proof fn law_a_chunk_retrieves_what_is_nearest_to_its_own_query(
    neighbours: Neighbours,
    queries: ChunkQueries,
    cfg: CcaConfig,
    index: index::ExactIndex,
    corpus: NeighbourCorpus,
    guard: LeakageGuard,
    document: DocumentId,
    chunk: int,
    j: int,
    other: u32,
)
    requires
        retrieved(neighbours, queries, cfg, index, corpus, guard, document),
        cfg.wf(),
        corpus@.r == cfg.r(),
        queries.wf(),
        queries@.dim == index.dim(),
        0 < index.dim(),
        index.count() <= u32::MAX,
        0 <= chunk < cfg.l(),
        chunk < queries@.admitted.len(),
        queries@.admitted[chunk],
        forall|v: int|
            0 <= v < index.count() && guard.allows(document, NeighbourId(v as u32), corpus) ==> !(
            crate::binary32::Binary32 {
                bits: index::squared_l2_bits(
                    queries@.embeddings.subrange(
                        chunk * index.dim(),
                        chunk * index.dim() + index.dim(),
                    ),
                    index.flat().subrange(
                        #[trigger] (v * index.dim()),
                        v * index.dim() + index.dim(),
                    ),
                    index.dim(),
                ),
            }).nan(),
        0 <= j < cfg.k(),
        other < index.count(),
        guard.allows(document, NeighbourId(other), corpus),
        forall|s: int|
            0 <= s < cfg.k() ==> (#[trigger] neighbours.id_at(chunk, s)) != Some(
                NeighbourId(other),
            ),
    ensures
        ({
            let query = queries@.embeddings.subrange(
                chunk * index.dim(),
                chunk * index.dim() + index.dim(),
            );
            let far = |id: NeighbourId|
                crate::binary32::Binary32 {
                    bits: index::squared_l2_bits(
                        query,
                        index.flat().subrange(
                            id.0 * index.dim(),
                            id.0 * index.dim() + index.dim(),
                        ),
                        index.dim(),
                    ),
                };
            &&& neighbours.id_at(chunk, j) is Some
            &&& far(neighbours.id_at(chunk, j)->0).is_at_most(far(NeighbourId(other)))
            &&& forall|s: int|
                0 <= s < j ==> (#[trigger] neighbours.id_at(chunk, s)) is Some && far(
                    neighbours.id_at(chunk, s)->0,
                ).is_at_most(far(neighbours.id_at(chunk, j)->0)) && neighbours.id_at(chunk, s)
                    != neighbours.id_at(chunk, j)
        }),
{
    let (l, k, r) = (cfg.l() as nat, cfg.k() as nat, cfg.r() as nat);
    let found = choose|found: Seq<Seq<Candidate>>| #[trigger]
        search_results(found, queries, index, l, k, guard, document, corpus) && neighbours@.ids
            == all_ids(found, k) && neighbours@.tokens == all_tokens(found, corpus, r, k);
    let own = found[chunk];
    assert(searched(own, chunk, queries, index, k, guard, document, corpus));
    let accept = leakage::accept_rule(guard, document, corpus);
    let query = queries.slot(chunk);
    assert forall|s: int| 0 <= s < k implies neighbours.id_at(chunk, s) == chunk_ids(own, k)[s] by {
        lemma_slot_of_block(found, corpus, r, k, chunk, s);
        assert(0 <= chunk * k + s < l * k) by (nonlinear_arith)
            requires
                0 <= chunk < l,
                0 <= s < k,
        ;
    }
    assert forall|v: int|
        0 <= v < index.count() && accept.allows(NeighbourId(v as u32)) implies !(crate::binary32::Binary32 {
        bits: index::squared_l2_bits(
            query,
            index.flat().subrange(#[trigger] (v * index.dim()), v * index.dim() + index.dim()),
            index.dim(),
        ),
    }).nan() by {
        leakage::law_the_acceptance_rule_is_the_guard(
            guard,
            document,
            corpus,
            NeighbourId(v as u32),
        );
    }
    leakage::law_the_acceptance_rule_is_the_guard(guard, document, corpus, NeighbourId(other));
    index.lemma_eligible(accept, index.count());
    assert(corpus::id_of(other as nat) == NeighbourId(other));
    assert(index.eligible(accept, other as int));
    assert forall|q: int| 0 <= q < own.len() implies (#[trigger] own[q]).id.0 != other by {
        assert(neighbours.id_at(chunk, q) == Some(own[q].id));
    }
    assert(own.len() > 0);
    index::law_a_search_gives_the_nearest(index, query, k, accept, own, 0, other as int);
    index::law_a_search_gives_the_nearest(index, query, k, accept, own, j, other as int);
    assert forall|s: int| 0 <= s < j implies (#[trigger] neighbours.id_at(chunk, s)) == Some(
        own[s].id,
    ) && own[s].distance.is_at_most(own[j].distance) && own[s].id != own[j].id && own[s].distance
        == (crate::binary32::Binary32 {
        bits: index::squared_l2_bits(
            query,
            index.flat().subrange(
                own[s].id.0 * index.dim(),
                own[s].id.0 * index.dim() + index.dim(),
            ),
            index.dim(),
        ),
    }) by {
        index::law_a_search_gives_the_nearest(index, query, k, accept, own, s, other as int);
    }
    assert(own[j].distance == (crate::binary32::Binary32 { bits: own[j].distance.bits }));
}

} // verus!
