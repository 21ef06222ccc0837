//! Turning documents into training sequences and into a retrievable corpus.
//!
//! Two outputs from one input, and they have to agree about provenance: a
//! training sequence carries the [`DocumentId`] it came from, and every
//! neighbour record carries the id it was extracted from, so
//! [`crate::retrieval::leakage::LeakageGuard`] can keep a document out of its
//! own retrieval results exactly rather than heuristically.
use crate::binary32::{Binary32, ONE_BITS};
use crate::chunk::{Chunk, RetrieverEncode};
use crate::config::CcaConfig;
use crate::hash::hash_gram;
use crate::retrieval::corpus::{DocumentId, NeighbourCorpus, NeighbourRecord};
use crate::schedule::NoiseLevel;
use vstd::prelude::*;

verus! {

/// A tokenized source document.
#[derive(Clone, Debug, PartialEq, Eq)]
pub struct Document {
    /// Stable identity. For an encyclopedia this is the article id.
    pub id: DocumentId,
    /// The document's tokens.
    pub tokens: Vec<u32>,
}

/// Embeds a span of tokens into a retrieval vector.
///
/// Deliberately one trait for both sides of retrieval. A query embedding and
/// a corpus embedding must live in the same space or nearest-neighbour search
/// is meaningless, and the cheapest way to guarantee that is to make it the
/// same object: [`RetrieverEncode`] is blanket-implemented for every
/// `ChunkEmbedder`.
///
/// `t` is `Some` for a query built from a noised view and `None` for a clean
/// corpus chunk.
pub trait ChunkEmbedder {
    /// Width of the produced vectors.
    closed spec fn dim(&self) -> nat {
        arbitrary()
    }

    /// Whether `vector` is an embedding of `tokens` at `t`.
    closed spec fn embeds(
        &self,
        tokens: Seq<u32>,
        t: Option<NoiseLevel>,
        vector: Seq<Binary32>,
    ) -> bool {
        arbitrary()
    }

    /// Width of the produced vectors.
    fn embed_dim(&self) -> (dim: usize)
        ensures
            dim == self.dim(),
    ;

    /// Append one `embed_dim`-wide vector for `tokens` to `out`.
    fn embed(&mut self, tokens: &[u32], t: Option<NoiseLevel>, out: &mut Vec<Binary32>)
        ensures
            final(self).dim() == old(self).dim(),
            final(out)@.len() == old(out)@.len() + old(self).dim(),
            final(out)@.take(old(out)@.len() as int) == old(out)@,
            old(self).embeds(tokens@, t, final(out)@.skip(old(out)@.len() as int)),
            forall|span: Seq<u32>, level: Option<NoiseLevel>, vector: Seq<Binary32>| #[trigger]
                final(self).embeds(span, level, vector) == old(self).embeds(span, level, vector),
    ;
}

impl<E: ChunkEmbedder> RetrieverEncode for E {
    open spec fn width(&self) -> nat {
        self.dim()
    }

    open spec fn encodes(
        &self,
        position: nat,
        tokens: Seq<u32>,
        flags: Seq<bool>,
        t: NoiseLevel,
        query: Seq<Binary32>,
    ) -> bool {
        self.embeds(tokens, Some(t), query)
    }

    fn query_dim(&self) -> (dim: usize) {
        self.embed_dim()
    }

    fn encode_chunk(&mut self, chunk: Chunk<'_>, t: NoiseLevel, out: &mut Vec<Binary32>) {
        self.embed(chunk.tokens(), Some(t), out);
    }
}

/// A training sequence: one window of one document, padded to `n`.
#[derive(Clone, Debug, PartialEq, Eq)]
pub struct TrainingSequence {
    /// The document this window came from.
    pub document: DocumentId,
    /// Exactly `n` tokens, padded at the tail.
    pub tokens: Vec<u32>,
    /// Real tokens before the padding starts.
    ///
    /// Padding must never be masked and must never score: a model that learns
    /// to predict pad tokens is spending capacity on the data loader.
    pub content_len: usize,
}

/// What a training sequence holds.
pub struct Window {
    /// The document the window came from.
    pub document: DocumentId,
    /// The tokens, padding included.
    pub tokens: Seq<u32>,
    /// How many of them are real.
    pub content: nat,
}

impl View for TrainingSequence {
    type V = Window;

    open spec fn view(&self) -> Window {
        Window {
            document: self.document,
            tokens: self.tokens@,
            content: self.content_len as nat,
        }
    }
}

impl TrainingSequence {
    /// Whether `position` holds a real token.
    pub fn is_content(&self, position: usize) -> (b: bool)
        ensures
            b == (position < self.content_len),
    {
        position < self.content_len
    }

    /// A masking predicate that leaves padding alone.
    ///
    /// Compose with a noise schedule: `seq.content_mask(|i| level(i) < t)`.
    pub fn content_mask<F: FnMut(usize) -> bool>(&self, should_mask: F) -> (mask: ContentMask<F>)
        ensures
            mask.content() == self.content_len,
            mask.rule() == should_mask,
    {
        ContentMask { content_len: self.content_len, should_mask }
    }
}

/// A masking predicate that leaves padding alone.
pub struct ContentMask<F> {
    content_len: usize,
    should_mask: F,
}

impl<F: FnMut(usize) -> bool> ContentMask<F> {
    /// How many positions hold real tokens.
    pub closed spec fn content(self) -> usize {
        self.content_len
    }

    /// The predicate that real positions are put to.
    pub closed spec fn rule(self) -> F {
        self.should_mask
    }

    /// Whether to mask position `i`: never where it is padding.
    pub fn masks(&mut self, i: usize) -> (b: bool)
        requires
            i < old(self).content() ==> call_requires(old(self).rule(), (i,)),
        ensures
            i < old(self).content() ==> call_ensures(old(self).rule(), (i,), b),
            i >= old(self).content() ==> !b,
            final(self).content() == old(self).content(),
    {
        i < self.content_len && (self.should_mask)(i)
    }
}

/// Where window `w` of a document of `len` tokens ends.
pub open spec fn window_end(w: int, n: int, len: int) -> int {
    if (w + 1) * n <= len {
        (w + 1) * n
    } else {
        len
    }
}

/// Window `w` of a document: its tokens, padded to `n`.
pub open spec fn window_of(doc: Document, w: int, n: int, pad: u32) -> Window {
    let len = doc.tokens@.len() as int;
    let end = window_end(w, n, len);
    Window {
        document: doc.id,
        tokens: doc.tokens@.subrange(w * n, end) + Seq::new(
            (n - (end - w * n)) as nat,
            |i: int| pad,
        ),
        content: (end - w * n) as nat,
    }
}

/// The number of windows a document of `len` tokens falls into.
pub open spec fn window_count(len: int, n: int) -> int {
    (len + n - 1) / n
}

/// The first `upto` windows of a document, without those that hold less than
/// `min_content`.
pub open spec fn document_windows(
    doc: Document,
    n: int,
    pad: u32,
    min_content: nat,
    upto: int,
) -> Seq<Window>
    decreases upto,
{
    if upto <= 0 {
        Seq::empty()
    } else {
        let rest = document_windows(doc, n, pad, min_content, upto - 1);
        let window = window_of(doc, upto - 1, n, pad);
        if window.content < min_content {
            rest
        } else {
            rest.push(window)
        }
    }
}

/// The windows of the first `upto` documents, in order.
pub open spec fn all_windows(
    documents: Seq<Document>,
    n: int,
    pad: u32,
    min_content: nat,
    upto: int,
) -> Seq<Window>
    decreases upto,
{
    if upto <= 0 {
        Seq::empty()
    } else {
        let doc = documents[upto - 1];
        all_windows(documents, n, pad, min_content, upto - 1) + document_windows(
            doc,
            n,
            pad,
            min_content,
            window_count(doc.tokens@.len() as int, n),
        )
    }
}

/// The views of a list of training sequences.
pub open spec fn window_views(sequences: Seq<TrainingSequence>) -> Seq<Window> {
    Seq::new(sequences.len(), |i: int| sequences[i]@)
}

/// Split documents into `n`-token training windows.
///
/// Long documents yield consecutive windows rather than being truncated, so
/// no text is dropped, and every window keeps its parent document's id: a
/// window is not a new document for leakage purposes. Short documents yield
/// one padded window.
///
/// `min_content` drops windows with less real text than that. A window that
/// is nearly all padding costs a full forward pass to score a handful of
/// positions.
pub fn training_sequences(
    documents: &[Document],
    seq_len: usize,
    pad_token: u32,
    min_content: usize,
) -> (out: Vec<TrainingSequence>)
    requires
        seq_len > 0,
    ensures
        window_views(out@) == all_windows(
            documents@,
            seq_len as int,
            pad_token,
            min_content as nat,
            documents@.len() as int,
        ),
{
    let mut out: Vec<TrainingSequence> = Vec::new();
    let ghost n = seq_len as int;
    let mut d: usize = 0;
    proof {
        assert(window_views(out@) =~= all_windows(documents@, n, pad_token, min_content as nat, 0));
    }
    while d < documents.len()
        invariant
            d <= documents.len(),
            n == seq_len,
            seq_len > 0,
            window_views(out@) == all_windows(
                documents@,
                n,
                pad_token,
                min_content as nat,
                d as int,
            ),
        decreases documents.len() - d,
    {
        let doc: &Document = &documents[d];
        let len: usize = doc.tokens.len();
        let ghost before = window_views(out@);
        let mut start: usize = 0;
        let ghost mut w: int = 0;
        proof {
            assert(before + document_windows(*doc, n, pad_token, min_content as nat, 0) =~= before);
        }
        while start < len
            invariant
                n == seq_len,
                seq_len > 0,
                len == doc.tokens@.len(),
                w >= 0,
                start == if w * n <= len {
                    w * n
                } else {
                    len as int
                },
                w > 0 ==> (w - 1) * n < len,
                window_views(out@) == before + document_windows(
                    *doc,
                    n,
                    pad_token,
                    min_content as nat,
                    w,
                ),
            decreases len - start,
        {
            let size: usize = if len - start < seq_len {
                len - start
            } else {
                seq_len
            };
            let end: usize = start + size;
            proof {
                assert((w + 1) * n == w * n + n) by (nonlinear_arith);
                assert(end == window_end(w, n, len as int));
            }
            if size >= min_content {
                let mut tokens: Vec<u32> = Vec::new();
                tokens.extend_from_slice(
                    vstd::slice::slice_subrange(doc.tokens.as_slice(), start, end),
                );
                let ghost content = tokens@;
                tokens.resize(seq_len, pad_token);
                proof {
                    assert(content =~= doc.tokens@.subrange(w * n, end as int));
                    assert(forall|i: int| 0 <= i < size ==> tokens@[i] == content[i]);
                    assert(forall|i: int| size <= i < n ==> tokens@[i] == pad_token);
                }
                let ghost held = window_views(out@);
                let sequence = TrainingSequence { document: doc.id, tokens, content_len: size };
                proof {
                    assert(sequence@.tokens =~= window_of(*doc, w, n, pad_token).tokens);
                }
                out.push(sequence);
                proof {
                    assert(window_views(out@) =~= held.push(window_of(*doc, w, n, pad_token)));
                    assert(window_views(out@) =~= before + document_windows(
                        *doc,
                        n,
                        pad_token,
                        min_content as nat,
                        w + 1,
                    ));
                }
            }
            start = end;
            proof {
                w = w + 1;
            }
        }
        proof {
            lemma_window_count(len as int, n, w);
        }
        d = d + 1;
    }
    out
}

proof fn lemma_window_count(len: int, n: int, w: int)
    requires
        n > 0,
        len >= 0,
        w >= 0,
        w * n >= len,
        w > 0 ==> (w - 1) * n < len,
    ensures
        w == window_count(len, n),
{
    let r = len + n - 1 - w * n;
    if w == 0 {
        assert(len == 0) by (nonlinear_arith)
            requires
                w == 0,
                w * n >= len,
                len >= 0,
        ;
    }
    assert((w - 1) * n == w * n - n) by (nonlinear_arith);
    vstd::arithmetic::mul::lemma_mul_is_commutative(w, n);
    vstd::arithmetic::div_mod::lemma_fundamental_div_mod_converse(len + n - 1, n, w, r);
}

/// Every window has the same number of tokens, padding included.
pub proof fn law_windows_have_one_length(
    documents: Seq<Document>,
    n: int,
    pad: u32,
    min_content: nat,
    upto: int,
    i: int,
)
    requires
        n > 0,
        upto <= documents.len(),
        0 <= i < all_windows(documents, n, pad, min_content, upto).len(),
    ensures
        all_windows(documents, n, pad, min_content, upto)[i].tokens.len() == n,
    decreases upto,
{
    if upto > 0 {
        let rest = all_windows(documents, n, pad, min_content, upto - 1);
        if i < rest.len() {
            law_windows_have_one_length(documents, n, pad, min_content, upto - 1, i);
        } else {
            let doc = documents[upto - 1];
            lemma_document_windows_length(
                doc,
                n,
                pad,
                min_content,
                window_count(doc.tokens@.len() as int, n),
                i - rest.len(),
            );
        }
    }
}

proof fn lemma_document_windows_length(
    doc: Document,
    n: int,
    pad: u32,
    min_content: nat,
    upto: int,
    i: int,
)
    requires
        n > 0,
        upto <= window_count(doc.tokens@.len() as int, n),
        0 <= i < document_windows(doc, n, pad, min_content, upto).len(),
    ensures
        document_windows(doc, n, pad, min_content, upto)[i].tokens.len() == n,
    decreases upto,
{
    if upto > 0 {
        let rest = document_windows(doc, n, pad, min_content, upto - 1);
        if i < rest.len() {
            lemma_document_windows_length(doc, n, pad, min_content, upto - 1, i);
        } else {
            let len = doc.tokens@.len() as int;
            let w = upto - 1;
            assert(w * n <= len && (w + 1) * n == w * n + n && w * n >= 0) by (nonlinear_arith)
                requires
                    n > 0,
                    0 <= w < (len + n - 1) / n,
            ;
        }
    }
}

/// No text is dropped: the token at `pos` of a document stands, as real
/// content, at `pos % n` of window `pos / n`.
pub proof fn law_windows_cover_the_document(doc: Document, n: int, pad: u32, pos: int)
    requires
        n > 0,
        0 <= pos < doc.tokens@.len(),
    ensures
        ({
            let w = pos / n;
            let at = pos % n;
            &&& 0 <= w < window_count(doc.tokens@.len() as int, n)
            &&& at < window_of(doc, w, n, pad).content
            &&& window_of(doc, w, n, pad).tokens.len() == n
            &&& window_of(doc, w, n, pad).tokens[at] == doc.tokens@[pos]
            &&& window_of(doc, w, n, pad).document == doc.id
        }),
{
    let len = doc.tokens@.len() as int;
    let w = pos / n;
    let at = pos % n;
    vstd::arithmetic::div_mod::lemma_fundamental_div_mod(pos, n);
    vstd::arithmetic::mul::lemma_mul_is_commutative(n, w);
    assert((w + 1) * n == w * n + n) by (nonlinear_arith);
    vstd::arithmetic::div_mod::lemma_div_is_ordered(pos, len - 1, n);
    let c = window_count(len, n);
    assert(c == (len - 1) / n + 1) by {
        vstd::arithmetic::div_mod::lemma_div_plus_one(len - 1, n);
    }
    assert(w >= 0) by {
        vstd::arithmetic::div_mod::lemma_div_pos_is_pos(pos, n);
    }
    assert(w * n >= 0) by (nonlinear_arith)
        requires
            w >= 0,
            n > 0,
    ;
}

/// A record: its document, its offset and its tokens.
pub struct Record {
    /// The source document.
    pub document: DocumentId,
    /// Where the record starts in it.
    pub offset: usize,
    /// The `r` tokens from there on.
    pub tokens: Seq<u32>,
    /// The `m` tokens from there on, by which the record is indexed.
    pub matched: Seq<u32>,
}

/// The first `upto` records of a document, at stride `m`, each of `r` tokens.
pub open spec fn document_records(doc: Document, m: int, r: int, upto: int) -> Seq<Record>
    decreases upto,
{
    if upto <= 0 {
        Seq::empty()
    } else {
        let offset = (upto - 1) * m;
        document_records(doc, m, r, upto - 1).push(
            Record {
                document: doc.id,
                offset: offset as usize,
                tokens: doc.tokens@.subrange(offset, offset + r),
                matched: doc.tokens@.subrange(offset, offset + m),
            },
        )
    }
}

/// How many records of `r` tokens at stride `m` fit in `len` tokens.
pub open spec fn record_count(len: int, m: int, r: int) -> int {
    if len < r {
        0
    } else {
        (len - r) / m + 1
    }
}

/// Whether every record of a document of `len` tokens has its `m` matched
/// tokens inside the document: the last one has.
pub open spec fn matched_chunks_fit(len: int, m: int, r: int) -> bool {
    len < r || ((len - r) / m) * m + m <= len
}

/// The records of the first `upto` documents, in order.
pub open spec fn all_records(documents: Seq<Document>, m: int, r: int, upto: int) -> Seq<Record>
    decreases upto,
{
    if upto <= 0 {
        Seq::empty()
    } else {
        let doc = documents[upto - 1];
        all_records(documents, m, r, upto - 1) + document_records(
            doc,
            m,
            r,
            record_count(doc.tokens@.len() as int, m, r),
        )
    }
}

/// Whether a corpus holds exactly these records, each embedded by its matched
/// tokens.
pub open spec fn corpus_holds<E: ChunkEmbedder>(
    corpus: NeighbourCorpus,
    records: Seq<Record>,
    embedder: E,
) -> bool {
    &&& corpus@.documents.len() == records.len()
    &&& forall|i: int|
        0 <= i < records.len() ==> {
            &&& corpus@.documents[i] == (#[trigger] records[i]).document
            &&& corpus@.offsets[i] == records[i].offset
            &&& crate::retrieval::corpus::slot(corpus@.tokens, i, corpus@.r as int)
                == records[i].tokens
            &&& embedder.embeds(
                records[i].matched,
                None,
                crate::retrieval::corpus::slot(corpus@.embeddings, i, corpus@.dim as int),
            )
        }
}

/// Build the retrievable corpus and its embeddings.
///
/// Each record is a chunk of `m` tokens plus its continuation, `r` tokens in
/// total, taken at stride `m` so the matched chunks tile the document.
///
/// **Only the first `m` tokens are embedded.** The continuation is carried
/// but not indexed, because it is what the model does not have yet: indexing
/// it would make search match on text the query cannot contain.
///
/// Records are dropped at the tail of a document when there are not `r`
/// tokens left, since a record padded into its continuation would promise
/// information it does not have.
pub fn build_corpus<E: ChunkEmbedder>(
    documents: &[Document],
    cfg: CcaConfig,
    embedder: &mut E,
) -> (corpus: NeighbourCorpus)
    requires
        cfg.wf(),
        forall|d: int|
            0 <= d < documents@.len() ==> matched_chunks_fit(
                (#[trigger] documents@[d]).tokens@.len() as int,
                cfg.m() as int,
                cfg.r() as int,
            ),
    ensures
        corpus.wf(),
        corpus@.r == cfg.r(),
        corpus@.dim == old(embedder).dim(),
        corpus_holds(
            corpus,
            all_records(documents@, cfg.m() as int, cfg.r() as int, documents@.len() as int),
            *old(embedder),
        ),
        final(embedder).dim() == old(embedder).dim(),
        forall|span: Seq<u32>, level: Option<NoiseLevel>, vector: Seq<Binary32>| #[trigger]
            final(embedder).embeds(span, level, vector) == old(embedder).embeds(
                span,
                level,
                vector,
            ),
{
    let m: usize = cfg.chunk_size();
    let r: usize = cfg.neighbour_len();
    let mut corpus: NeighbourCorpus = NeighbourCorpus::new(r, embedder.embed_dim());
    let ghost mut records: Seq<Record> = Seq::empty();
    let mut d: usize = 0;
    while d < documents.len()
        invariant
            d <= documents.len(),
            0 < m,
            0 < r,
            forall|i: int|
                0 <= i < documents@.len() ==> matched_chunks_fit(
                    (#[trigger] documents@[i]).tokens@.len() as int,
                    m as int,
                    r as int,
                ),
            corpus.wf(),
            corpus@.r == r,
            corpus@.dim == old(embedder).dim(),
            embedder.dim() == old(embedder).dim(),
            forall|span: Seq<u32>, level: Option<NoiseLevel>, vector: Seq<Binary32>| #[trigger]
                embedder.embeds(span, level, vector) == old(embedder).embeds(span, level, vector),
            records == all_records(documents@, m as int, r as int, d as int),
            corpus_holds(corpus, records, *old(embedder)),
        decreases documents.len() - d,
    {
        let doc: &Document = &documents[d];
        let len: usize = doc.tokens.len();
        let ghost before = records;
        let mut offset: usize = 0;
        let ghost mut w: int = 0;
        proof {
            assert(before + document_records(*doc, m as int, r as int, 0) =~= before);
            lemma_record_count(len as int, m as int, r as int, 0);
        }
        while r <= len && offset <= len - r
            invariant
                0 < m,
                0 < r,
                matched_chunks_fit(len as int, m as int, r as int),
                len == doc.tokens@.len(),
                *doc == documents@[d as int],
                w >= 0,
                offset == w * m,
                w <= record_count(len as int, m as int, r as int),
                r <= len && offset <= len - r <==> w < record_count(len as int, m as int, r as int),
                corpus.wf(),
                corpus@.r == r,
                corpus@.dim == old(embedder).dim(),
                embedder.dim() == old(embedder).dim(),
                forall|span: Seq<u32>, level: Option<NoiseLevel>, vector: Seq<Binary32>| #[trigger]
                    embedder.embeds(span, level, vector) == old(embedder).embeds(
                        span,
                        level,
                        vector,
                    ),
                records == before + document_records(*doc, m as int, r as int, w),
                corpus_holds(corpus, records, *old(embedder)),
            decreases len - offset,
        {
            proof {
                lemma_matched_fits(len as int, m as int, r as int, w);
            }
            let mut tokens: Vec<u32> = Vec::new();
            tokens.extend_from_slice(
                vstd::slice::slice_subrange(doc.tokens.as_slice(), offset, offset + r),
            );
            let record = NeighbourRecord { document: doc.id, offset, tokens };
            let mut embedding: Vec<Binary32> = Vec::new();
            embedder.embed(
                vstd::slice::slice_subrange(doc.tokens.as_slice(), offset, offset + m),
                None,
                &mut embedding,
            );
            let ghost held = corpus;
            let ghost added = Record {
                document: doc.id,
                offset,
                tokens: record.tokens@,
                matched: doc.tokens@.subrange(offset as int, offset + m),
            };
            proof {
                assert(record.tokens@ =~= doc.tokens@.subrange(offset as int, offset + r));
                assert(embedding@.skip(0) =~= embedding@);
            }
            let pushed = corpus.push(&record, embedding.as_slice());
            proof {
                lemma_push_holds(
                    held,
                    corpus,
                    records,
                    added,
                    record.tokens@,
                    embedding@,
                    *old(embedder),
                );
                records = records.push(added);
                assert(records =~= before + document_records(*doc, m as int, r as int, w + 1));
                assert((w + 1) * m == w * m + m) by (nonlinear_arith);
                w = w + 1;
                lemma_record_count(len as int, m as int, r as int, w);
            }
            offset = offset + m;
        }
        d = d + 1;
    }
    corpus
}

proof fn lemma_record_count(len: int, m: int, r: int, w: int)
    requires
        m > 0,
        r > 0,
        w >= 0,
    ensures
        r <= len && w * m <= len - r <==> w < record_count(len, m, r),
{
    if len >= r {
        let room = len - r;
        vstd::arithmetic::div_mod::lemma_fundamental_div_mod(room, m);
        let c = room / m;
        assert(w * m <= room <==> w <= c) by (nonlinear_arith)
            requires
                room == m * c + room % m,
                0 <= room % m < m,
                m > 0,
        ;
    }
}

proof fn lemma_matched_fits(len: int, m: int, r: int, w: int)
    requires
        m > 0,
        r > 0,
        0 <= w < record_count(len, m, r),
        matched_chunks_fit(len, m, r),
    ensures
        w * m + m <= len,
{
    let c = (len - r) / m;
    assert(w * m + m <= c * m + m) by (nonlinear_arith)
        requires
            w <= c,
            m > 0,
    ;
}

proof fn lemma_push_holds<E: ChunkEmbedder>(
    before: NeighbourCorpus,
    after: NeighbourCorpus,
    records: Seq<Record>,
    added: Record,
    tokens: Seq<u32>,
    embedding: Seq<Binary32>,
    embedder: E,
)
    requires
        before.wf(),
        corpus_holds(before, records, embedder),
        tokens.len() == before@.r,
        embedding.len() == before@.dim,
        after@.r == before@.r,
        after@.dim == before@.dim,
        after@.tokens == before@.tokens + tokens,
        after@.embeddings == before@.embeddings + embedding,
        after@.documents == before@.documents.push(added.document),
        after@.offsets == before@.offsets.push(added.offset),
        added.tokens == tokens,
        embedder.embeds(added.matched, None, embedding),
    ensures
        corpus_holds(after, records.push(added), embedder),
{
    let count = records.len() as int;
    let all = records.push(added);
    assert forall|i: int| 0 <= i < all.len() implies {
        &&& after@.documents[i] == (#[trigger] all[i]).document
        &&& after@.offsets[i] == all[i].offset
        &&& crate::retrieval::corpus::slot(after@.tokens, i, after@.r as int) == all[i].tokens
        &&& embedder.embeds(
            all[i].matched,
            None,
            crate::retrieval::corpus::slot(after@.embeddings, i, after@.dim as int),
        )
    } by {
        crate::retrieval::corpus::law_push_keeps_slots(before@.tokens, tokens, count, i);
        crate::retrieval::corpus::law_push_keeps_slots(before@.embeddings, embedding, count, i);
        if i < count {
            assert(all[i] == records[i]);
        }
    }
}

/// The records tile the document: consecutive records start `m` tokens apart,
/// the first at its start, and each holds the `r` tokens from there on.
pub proof fn law_records_tile_the_document(doc: Document, m: int, r: int, upto: int, i: int)
    requires
        m > 0,
        r > 0,
        0 <= i < upto <= record_count(doc.tokens@.len() as int, m, r),
    ensures
        document_records(doc, m, r, upto).len() == upto,
        i * m + r <= doc.tokens@.len(),
        ({
            let record = document_records(doc, m, r, upto)[i];
            &&& record.document == doc.id
            &&& record.offset == (i * m) as usize
            &&& record.tokens == doc.tokens@.subrange(i * m, i * m + r)
            &&& record.matched == doc.tokens@.subrange(i * m, i * m + m)
        }),
    decreases upto,
{
    lemma_record_count(doc.tokens@.len() as int, m, r, i);
    let rest = document_records(doc, m, r, upto - 1);
    let all = document_records(doc, m, r, upto);
    if upto - 1 > 0 {
        law_records_tile_the_document(doc, m, r, upto - 1, 0);
    } else {
        assert(rest.len() == 0);
    }
    if i < upto - 1 {
        law_records_tile_the_document(doc, m, r, upto - 1, i);
        assert(all[i] == rest[i]);
    } else {
        assert(all[i] == all.last());
        assert((upto - 1) * m == i * m);
    }
}

/// A training-free lexical embedder: hashed token n-grams, L2-normalised.
///
/// A hashed bag of n-grams is a real lexical retriever, and it has two
/// properties that matter more than raw quality for a first run:
///
/// * **It needs no training.**
/// * **It degrades gracefully under masking.** Masked positions contribute
///   nothing rather than contributing noise, so a half-masked chunk yields
///   the embedding of the half that survived: a weaker query, not a wrong
///   one.
///
/// It is also the baseline a learned encoder has to beat to justify itself.
#[derive(Clone, Copy, Debug)]
pub struct HashedBagEmbedder {
    dim: usize,
    max_order: usize,
    mask_token: u32,
}

/// The bucket of `gram` among `dim`.
pub open spec fn bucket_of(gram: Seq<u32>, dim: nat) -> nat {
    crate::hash::fnv_gram(gram) as nat % dim
}

/// `acc` with one added to the bucket of each of the first `upto` grams of
/// `order` tokens that hold no mask token.
pub open spec fn bag_grams(
    acc: Seq<Binary32>,
    tokens: Seq<u32>,
    order: int,
    mask_token: u32,
    upto: int,
) -> Seq<Binary32>
    decreases upto,
{
    if upto <= 0 {
        acc
    } else {
        let rest = bag_grams(acc, tokens, order, mask_token, upto - 1);
        let gram = tokens.subrange(upto - 1, upto - 1 + order);
        if gram.contains(mask_token) {
            rest
        } else {
            let b = bucket_of(gram, rest.len()) as int;
            rest.update(
                b,
                (Binary32 { bits: rest[b].sum_bits((Binary32 { bits: ONE_BITS })) }),
            )
        }
    }
}

/// The bag of all grams of up to `orders` tokens.
pub open spec fn bag_orders(tokens: Seq<u32>, dim: nat, mask_token: u32, orders: nat) -> Seq<
    Binary32,
>
    decreases orders,
{
    if orders == 0 {
        crate::chunk::zeros(dim)
    } else {
        bag_grams(
            bag_orders(tokens, dim, mask_token, (orders - 1) as nat),
            tokens,
            orders as int,
            mask_token,
            tokens.len() - orders + 1,
        )
    }
}

/// The sum of the squares of the first `upto` values, in order.
pub open spec fn sum_squares_bits(values: Seq<Binary32>, upto: nat) -> u32
    decreases upto,
{
    if upto == 0 {
        0
    } else {
        let v = values[upto - 1];
        (Binary32 { bits: sum_squares_bits(values, (upto - 1) as nat) }).sum_bits(
            (Binary32 { bits: v.product_bits(v) }),
        )
    }
}

/// The L2 norm of `values`.
pub open spec fn norm_of(values: Seq<Binary32>) -> Binary32 {
    Binary32 { bits: (Binary32 { bits: sum_squares_bits(values, values.len()) }).root_bits() }
}

/// `values` divided by their L2 norm, or as they are where that is not
/// positive.
pub open spec fn normalised(values: Seq<Binary32>) -> Seq<Binary32> {
    let norm = norm_of(values);
    if (Binary32 { bits: 0 }).is_less(norm) {
        Seq::new(values.len(), |i: int| Binary32 { bits: values[i].quotient_bits(norm) })
    } else {
        values
    }
}

proof fn lemma_bag_grams_len(
    acc: Seq<Binary32>,
    tokens: Seq<u32>,
    order: int,
    mask_token: u32,
    upto: int,
)
    requires
        acc.len() > 0,
    ensures
        bag_grams(acc, tokens, order, mask_token, upto).len() == acc.len(),
    decreases upto,
{
    if upto > 0 {
        lemma_bag_grams_len(acc, tokens, order, mask_token, upto - 1);
        vstd::arithmetic::div_mod::lemma_mod_bound(
            crate::hash::fnv_gram(tokens.subrange(upto - 1, upto - 1 + order)) as int,
            acc.len() as int,
        );
    }
}

/// Orders longer than the text add nothing to the bag.
proof fn lemma_long_orders(tokens: Seq<u32>, dim: nat, mask_token: u32, low: nat, high: nat)
    requires
        low <= high,
        tokens.len() <= low,
    ensures
        bag_orders(tokens, dim, mask_token, low) == bag_orders(tokens, dim, mask_token, high),
    decreases high,
{
    if low < high {
        lemma_long_orders(tokens, dim, mask_token, low, (high - 1) as nat);
    }
}

impl HashedBagEmbedder {
    /// How many buckets there are.
    pub closed spec fn buckets(self) -> nat {
        self.dim as nat
    }

    /// The longest gram counted.
    pub closed spec fn orders(self) -> nat {
        self.max_order as nat
    }

    /// The token that marks a masked position.
    pub closed spec fn mask(self) -> u32 {
        self.mask_token
    }

    /// The embedding of `tokens`.
    pub open spec fn vector_of(self, tokens: Seq<u32>) -> Seq<Binary32> {
        normalised(bag_orders(tokens, self.buckets(), self.mask(), self.orders()))
    }

    /// There is at least one bucket.
    #[verifier::type_invariant]
    spec fn has_buckets(self) -> bool {
        self.dim > 0
    }

    /// Hash into `dim` buckets, using n-grams up to `max_order`.
    ///
    /// Bigrams (`max_order = 2`) buy word-order sensitivity for one extra
    /// pass; going higher mostly adds sparsity at these dimensions.
    pub fn new(dim: usize, max_order: usize, mask_token: u32) -> (embedder: Self)
        requires
            dim > 0,
            max_order > 0,
        ensures
            embedder.buckets() == dim,
            embedder.orders() == max_order,
            embedder.mask() == mask_token,
    {
        HashedBagEmbedder { dim, max_order, mask_token }
    }

    /// Unigrams and bigrams over `dim` buckets.
    pub fn bigram(dim: usize, mask_token: u32) -> (embedder: Self)
        requires
            dim > 0,
        ensures
            embedder.buckets() == dim,
            embedder.orders() == 2,
            embedder.mask() == mask_token,
    {
        Self::new(dim, 2, mask_token)
    }

    /// The bucket of the gram of `order` tokens at `start`.
    ///
    /// FNV-1a: cheap, well-mixed for short integer sequences, and
    /// deterministic across runs and machines. The corpus is embedded once
    /// and queried later, so a hash that varies between processes would
    /// silently return nothing.
    fn bucket(&self, tokens: &[u32], start: usize, order: usize) -> (b: usize)
        requires
            start + order <= tokens@.len(),
        ensures
            b == bucket_of(tokens@.subrange(start as int, start + order), self.buckets()),
            b < self.buckets(),
    {
        proof {
            use_type_invariant(&*self);
        }
        (hash_gram(tokens, start, order) % self.dim as u64) as usize
    }

    /// Whether the gram of `order` tokens at `start` holds the mask token.
    fn touches_mask(&self, tokens: &[u32], start: usize, order: usize) -> (b: bool)
        requires
            start + order <= tokens@.len(),
        ensures
            b == tokens@.subrange(start as int, start + order).contains(self.mask()),
    {
        let ghost gram = tokens@.subrange(start as int, start + order);
        let total: usize = tokens.len();
        let mut i: usize = 0;
        while i < order
            invariant
                i <= order,
                start + order <= total,
                total == tokens@.len(),
                gram == tokens@.subrange(start as int, start + order),
                forall|j: int| 0 <= j < i ==> #[trigger] gram[j] != self.mask(),
            decreases order - i,
        {
            if tokens[start + i] == self.mask_token {
                assert(gram[i as int] == self.mask());
                return true;
            }
            i = i + 1;
        }
        false
    }

    /// The bag of grams of `tokens`.
    fn bag(&self, tokens: &[u32]) -> (acc: Vec<Binary32>)
        ensures
            acc@ == bag_orders(tokens@, self.buckets(), self.mask(), self.orders()),
            acc@.len() == self.buckets(),
    {
        proof {
            use_type_invariant(&*self);
        }
        let mut acc: Vec<Binary32> = Vec::new();
        let mut z: usize = 0;
        while z < self.dim
            invariant
                z <= self.dim,
                acc@ == crate::chunk::zeros(z as nat),
            decreases self.dim - z,
        {
            acc.push(Binary32::from_bits(0));
            assert(acc@ =~= crate::chunk::zeros((z + 1) as nat));
            z = z + 1;
        }
        let one: Binary32 = Binary32::from_bits(ONE_BITS);
        let len: usize = tokens.len();
        let top: usize = if self.max_order < len {
            self.max_order
        } else {
            len
        };
        let mut order: usize = 0;
        while order < top
            invariant
                order <= top,
                top <= len,
                len == tokens@.len(),
                one.bits == ONE_BITS,
                self.buckets() > 0,
                acc@ == bag_orders(tokens@, self.buckets(), self.mask(), order as nat),
                acc@.len() == self.buckets(),
            decreases top - order,
        {
            let size: usize = order + 1;
            let count: usize = len - size + 1;
            let ghost before = acc@;
            let mut i: usize = 0;
            while i < count
                invariant
                    i <= count,
                    0 < size <= len,
                    count == len - size + 1,
                    len == tokens@.len(),
                    one.bits == ONE_BITS,
                    self.buckets() > 0,
                    before.len() == self.buckets(),
                    acc@ == bag_grams(before, tokens@, size as int, self.mask(), i as int),
                    acc@.len() == self.buckets(),
                decreases count - i,
            {
                if !self.touches_mask(tokens, i, size) {
                    let b: usize = self.bucket(tokens, i, size);
                    let v: Binary32 = acc[b].plus(one);
                    acc.set(b, v);
                    proof {
                        assert(one == (Binary32 { bits: ONE_BITS }));
                    }
                }
                i = i + 1;
            }
            order = order + 1;
        }
        proof {
            if self.max_order > len {
                lemma_long_orders(
                    tokens@,
                    self.buckets(),
                    self.mask(),
                    len as nat,
                    self.max_order as nat,
                );
            }
        }
        acc
    }
}

/// The L2 norm of `values`.
fn l2_norm(values: &Vec<Binary32>) -> (norm: Binary32)
    ensures
        norm == norm_of(values@),
{
    let mut sum: Binary32 = Binary32::from_bits(0);
    let mut i: usize = 0;
    while i < values.len()
        invariant
            i <= values.len(),
            sum.bits == sum_squares_bits(values@, i as nat),
        decreases values.len() - i,
    {
        let v: Binary32 = values[i];
        sum = sum.plus(v.times(v));
        i = i + 1;
    }
    sum.square_root()
}

impl ChunkEmbedder for HashedBagEmbedder {
    open spec fn dim(&self) -> nat {
        self.buckets()
    }

    open spec fn embeds(
        &self,
        tokens: Seq<u32>,
        t: Option<NoiseLevel>,
        vector: Seq<Binary32>,
    ) -> bool {
        vector == self.vector_of(tokens)
    }

    fn embed_dim(&self) -> (dim: usize) {
        self.dim
    }

    /// Appends the L2-normalised bag, so squared-L2 search ranks by cosine
    /// similarity, and a chunk's length does not decide its distance.
    fn embed(&mut self, tokens: &[u32], t: Option<NoiseLevel>, out: &mut Vec<Binary32>)
        ensures
            *final(self) == *old(self),
    {
        let acc: Vec<Binary32> = self.bag(tokens);
        let norm: Binary32 = l2_norm(&acc);
        let divide: bool = Binary32::from_bits(0).less(norm);
        let ghost start = out@;
        let ghost vector = normalised(acc@);
        let mut i: usize = 0;
        while i < acc.len()
            invariant
                i <= acc.len(),
                norm == norm_of(acc@),
                divide == (Binary32 { bits: 0 }).is_less(norm),
                vector == normalised(acc@),
                out@ == start + vector.take(i as int),
            decreases acc.len() - i,
        {
            let v: Binary32 = if divide {
                acc[i].over(norm)
            } else {
                acc[i]
            };
            out.push(v);
            proof {
                assert(v == vector[i as int]);
                assert(out@ =~= start + vector.take(i + 1));
            }
            i = i + 1;
        }
        proof {
            assert(vector.take(i as int) =~= vector);
            assert(out@.take(start.len() as int) =~= start);
            assert(out@.skip(start.len() as int) =~= vector);
        }
    }
}

/// A fully masked span embeds to nothing: every component is zero.
pub proof fn law_a_masked_span_embeds_to_nothing(embedder: HashedBagEmbedder, tokens: Seq<u32>)
    requires
        forall|i: int| 0 <= i < tokens.len() ==> #[trigger] tokens[i] == embedder.mask(),
    ensures
        embedder.vector_of(tokens) == crate::chunk::zeros(embedder.buckets()),
{
    let dim = embedder.buckets();
    lemma_masked_bag(tokens, dim, embedder.mask(), embedder.orders());
    let bag = crate::chunk::zeros(dim);
    lemma_zero_squares(bag, dim);
    reveal(Binary32::root_bits);
}

proof fn lemma_masked_grams(
    acc: Seq<Binary32>,
    tokens: Seq<u32>,
    order: int,
    mask_token: u32,
    upto: int,
)
    requires
        order > 0,
        upto <= tokens.len() - order + 1,
        forall|i: int| 0 <= i < tokens.len() ==> #[trigger] tokens[i] == mask_token,
    ensures
        bag_grams(acc, tokens, order, mask_token, upto) == acc,
    decreases upto,
{
    if upto > 0 {
        lemma_masked_grams(acc, tokens, order, mask_token, upto - 1);
        let gram = tokens.subrange(upto - 1, upto - 1 + order);
        assert(gram[0] == tokens[upto - 1]);
        assert(gram.contains(mask_token));
    }
}

proof fn lemma_masked_bag(tokens: Seq<u32>, dim: nat, mask_token: u32, orders: nat)
    requires
        forall|i: int| 0 <= i < tokens.len() ==> #[trigger] tokens[i] == mask_token,
    ensures
        bag_orders(tokens, dim, mask_token, orders) == crate::chunk::zeros(dim),
    decreases orders,
{
    if orders > 0 {
        lemma_masked_bag(tokens, dim, mask_token, (orders - 1) as nat);
        lemma_masked_grams(
            crate::chunk::zeros(dim),
            tokens,
            orders as int,
            mask_token,
            tokens.len() - orders + 1,
        );
    }
}

proof fn lemma_zero_squares(values: Seq<Binary32>, upto: nat)
    requires
        upto <= values.len(),
        forall|i: int| 0 <= i < values.len() ==> (#[trigger] values[i]).bits == 0,
    ensures
        sum_squares_bits(values, upto) == 0,
    decreases upto,
{
    if upto > 0 {
        lemma_zero_squares(values, (upto - 1) as nat);
        let v = values[upto - 1];
        reveal(Binary32::product_bits);
        reveal(Binary32::sum_bits);
        crate::binary32::lemma_one_units();
        crate::arithmetic::lemma_zero_is_nearest(crate::binary32::one_units());
        assert(v.word() == 0);
        assert(v.size() == 0);
        vstd::arithmetic::mul::lemma_mul_basics(v.size() as int);
    }
}

/// What a window of one document is made of.
proof fn lemma_window_of(doc: Document, w: int, n: int, pad: u32, j: int)
    requires
        n > 0,
        0 <= w < window_count(doc.tokens@.len() as int, n),
        0 <= j < n,
    ensures
        ({
            let window = window_of(doc, w, n, pad);
            let len = doc.tokens@.len() as int;
            &&& 0 <= w * n < len
            &&& window.content == if w * n + n <= len {
                n
            } else {
                len - w * n
            }
            &&& window.tokens.len() == n
            &&& window.tokens[j] == if w * n + j < len {
                doc.tokens@[w * n + j]
            } else {
                pad
            }
        }),
{
    let len = doc.tokens@.len() as int;
    assert((w + 1) * n == w * n + n) by (nonlinear_arith);
    vstd::arithmetic::div_mod::lemma_fundamental_div_mod(len + n - 1, n);
    let c = window_count(len, n);
    assert(0 <= w * n < len) by (nonlinear_arith)
        requires
            0 <= w,
            w + 1 <= c,
            n * c <= len + n - 1,
            n > 0,
    ;
}

/// Every window is a piece of one document: it starts a whole number of windows
/// into the document, holds the document's tokens from there on, as many as fit
/// and at least as many as were asked for, and is padded behind them.
pub proof fn law_a_window_is_a_piece_of_its_document(
    documents: Seq<Document>,
    n: int,
    pad: u32,
    min_content: nat,
    upto: int,
    i: int,
)
    requires
        n > 0,
        upto <= documents.len(),
        0 <= i < all_windows(documents, n, pad, min_content, upto).len(),
    ensures
        exists|d: int, w: int|
            0 <= d < upto && 0 <= w && #[trigger] is_piece(
                all_windows(documents, n, pad, min_content, upto)[i],
                documents[d],
                w,
                n,
                pad,
                min_content,
            ),
    decreases upto,
{
    let rest = all_windows(documents, n, pad, min_content, upto - 1);
    if i < rest.len() {
        law_a_window_is_a_piece_of_its_document(documents, n, pad, min_content, upto - 1, i);
        let (d, w) = choose|d: int, w: int|
            0 <= d < upto - 1 && 0 <= w && #[trigger] is_piece(
                rest[i],
                documents[d],
                w,
                n,
                pad,
                min_content,
            );
        assert(is_piece(
            all_windows(documents, n, pad, min_content, upto)[i],
            documents[d],
            w,
            n,
            pad,
            min_content,
        ));
    } else {
        let doc = documents[upto - 1];
        let count = window_count(doc.tokens@.len() as int, n);
        let w = lemma_piece(doc, n, pad, min_content, count, i - rest.len());
        assert(is_piece(
            all_windows(documents, n, pad, min_content, upto)[i],
            documents[upto - 1],
            w,
            n,
            pad,
            min_content,
        ));
    }
}

/// A window is piece `w` of a document: `n` tokens of it, from `w * n` on, with
/// padding behind its end.
pub open spec fn is_piece(
    window: Window,
    doc: Document,
    w: int,
    n: int,
    pad: u32,
    min_content: nat,
) -> bool {
    let len = doc.tokens@.len() as int;
    &&& window.document == doc.id
    &&& 0 <= w * n < len
    &&& window.tokens.len() == n
    &&& window.content >= min_content
    &&& window.content == if w * n + n <= len {
        n
    } else {
        len - w * n
    }
    &&& forall|j: int|
        0 <= j < n ==> #[trigger] window.tokens[j] == if w * n + j < len {
            doc.tokens@[w * n + j]
        } else {
            pad
        }
}

proof fn lemma_piece(
    doc: Document,
    n: int,
    pad: u32,
    min_content: nat,
    upto: int,
    i: int,
) -> (w: int)
    requires
        n > 0,
        upto <= window_count(doc.tokens@.len() as int, n),
        0 <= i < document_windows(doc, n, pad, min_content, upto).len(),
    ensures
        0 <= w < upto,
        is_piece(document_windows(doc, n, pad, min_content, upto)[i], doc, w, n, pad, min_content),
    decreases upto,
{
    let rest = document_windows(doc, n, pad, min_content, upto - 1);
    if i < rest.len() {
        lemma_piece(doc, n, pad, min_content, upto - 1, i)
    } else {
        let window = window_of(doc, upto - 1, n, pad);
        lemma_window_of(doc, upto - 1, n, pad, 0);
        assert forall|j: int| 0 <= j < n implies #[trigger] window.tokens[j] == if (upto - 1) * n
            + j < doc.tokens@.len() {
            doc.tokens@[(upto - 1) * n + j]
        } else {
            pad
        } by {
            lemma_window_of(doc, upto - 1, n, pad, j);
        }
        upto - 1
    }
}

/// No document is left out: every token of every document stands in some window,
/// at its place in it, unless that window holds less than was asked for.
pub proof fn law_every_token_stands_in_a_window(
    documents: Seq<Document>,
    n: int,
    pad: u32,
    min_content: nat,
    upto: int,
    d: int,
    pos: int,
)
    requires
        n > 0,
        0 <= d < upto <= documents.len(),
        0 <= pos < documents[d].tokens@.len(),
        ({
            let left = documents[d].tokens@.len() - (pos / n) * n;
            n >= min_content && left >= min_content
        }),
    ensures
        exists|i: int|
            0 <= i < all_windows(documents, n, pad, min_content, upto).len() && #[trigger] is_piece(
                all_windows(documents, n, pad, min_content, upto)[i],
                documents[d],
                pos / n,
                n,
                pad,
                min_content,
            ),
    decreases upto,
{
    let all = all_windows(documents, n, pad, min_content, upto);
    let rest = all_windows(documents, n, pad, min_content, upto - 1);
    if d < upto - 1 {
        law_every_token_stands_in_a_window(documents, n, pad, min_content, upto - 1, d, pos);
        let i = choose|i: int|
            0 <= i < rest.len() && #[trigger] is_piece(
                rest[i],
                documents[d],
                pos / n,
                n,
                pad,
                min_content,
            );
        assert(all[i] == rest[i]);
        assert(is_piece(all[i], documents[d], pos / n, n, pad, min_content));
    } else {
        let doc = documents[d];
        law_windows_cover_the_document(doc, n, pad, pos);
        let count = window_count(doc.tokens@.len() as int, n);
        let i = lemma_window_listed(doc, n, pad, min_content, count, pos / n);
        assert(all[rest.len() + i] == document_windows(doc, n, pad, min_content, count)[i]);
        assert(is_piece(all[rest.len() + i], documents[d], pos / n, n, pad, min_content));
    }
}

proof fn lemma_window_listed(
    doc: Document,
    n: int,
    pad: u32,
    min_content: nat,
    upto: int,
    w: int,
) -> (i: int)
    requires
        n > 0,
        0 <= w < upto <= window_count(doc.tokens@.len() as int, n),
        n >= min_content,
        doc.tokens@.len() - w * n >= min_content,
    ensures
        0 <= i < document_windows(doc, n, pad, min_content, upto).len(),
        is_piece(document_windows(doc, n, pad, min_content, upto)[i], doc, w, n, pad, min_content),
    decreases upto,
{
    if w < upto - 1 {
        lemma_window_listed(doc, n, pad, min_content, upto - 1, w)
    } else {
        let window = window_of(doc, w, n, pad);
        lemma_window_of(doc, w, n, pad, 0);
        assert forall|j: int| 0 <= j < n implies #[trigger] window.tokens[j] == if w * n + j
            < doc.tokens@.len() {
            doc.tokens@[w * n + j]
        } else {
            pad
        } by {
            lemma_window_of(doc, w, n, pad, j);
        }
        document_windows(doc, n, pad, min_content, upto).len() - 1
    }
}

/// Every passage that fits is retrievable: a corpus holds, for every document
/// and every whole number of chunks after whose start `r` tokens are left, the
/// `r` tokens from there on, filed under the document and found by an embedding
/// of the first `m` of them alone.
pub proof fn law_every_passage_that_fits_is_held<E: ChunkEmbedder>(
    corpus: NeighbourCorpus,
    documents: Seq<Document>,
    m: int,
    r: int,
    embedder: E,
    d: int,
    i: int,
)
    requires
        m > 0,
        r > 0,
        corpus.wf(),
        corpus@.r == r,
        corpus_holds(corpus, all_records(documents, m, r, documents.len() as int), embedder),
        0 <= d < documents.len(),
        0 <= i,
        i * m + r <= documents[d].tokens@.len(),
    ensures
        exists|p: int|
            #![trigger corpus@.documents[p]]
            0 <= p < corpus@.documents.len() && {
                &&& corpus@.documents[p] == documents[d].id
                &&& corpus@.offsets[p] == (i * m) as usize
                &&& corpus@.tokens.subrange(p * r, p * r + r) == documents[d].tokens@.subrange(
                    i * m,
                    i * m + r,
                )
                &&& embedder.embeds(
                    documents[d].tokens@.subrange(i * m, i * m + m),
                    None,
                    corpus@.embeddings.subrange(p * corpus@.dim, p * corpus@.dim + corpus@.dim),
                )
            },
{
    let doc = documents[d];
    let len = doc.tokens@.len() as int;
    assert(i * m >= 0) by (nonlinear_arith)
        requires
            i >= 0,
            m > 0,
    ;
    let count = record_count(len, m, r);
    assert(i < count) by {
        vstd::arithmetic::div_mod::lemma_fundamental_div_mod(len - r, m);
        vstd::arithmetic::div_mod::lemma_mod_bound(len - r, m);
        let q = (len - r) / m;
        let rest = (len - r) % m;
        assert(i <= q) by (nonlinear_arith)
            requires
                i * m <= len - r,
                len - r == m * q + rest,
                0 <= rest < m,
                m > 0,
        ;
    }
    law_records_tile_the_document(doc, m, r, count, i);
    let p = lemma_record_listed(documents, m, r, documents.len() as int, d, i);
    let records = all_records(documents, m, r, documents.len() as int);
    assert(corpus@.documents[p] == records[p].document);
}

proof fn lemma_record_listed(
    documents: Seq<Document>,
    m: int,
    r: int,
    upto: int,
    d: int,
    i: int,
) -> (p: int)
    requires
        m > 0,
        r > 0,
        0 <= d < upto <= documents.len(),
        0 <= i < record_count(documents[d].tokens@.len() as int, m, r),
    ensures
        0 <= p < all_records(documents, m, r, upto).len(),
        all_records(documents, m, r, upto)[p] == document_records(
            documents[d],
            m,
            r,
            record_count(documents[d].tokens@.len() as int, m, r),
        )[i],
    decreases upto,
{
    let rest = all_records(documents, m, r, upto - 1);
    if d < upto - 1 {
        lemma_record_listed(documents, m, r, upto - 1, d, i)
    } else {
        let count = record_count(documents[d].tokens@.len() as int, m, r);
        law_records_tile_the_document(documents[d], m, r, count, i);
        rest.len() + i
    }
}

/// A small count is a word of its own.
pub proof fn lemma_small_count(count: nat)
    requires
        count <= 0x100_0000,
    ensures
        crate::binary32::magnitude(Binary32::count_bits(count) as nat) == count
            * crate::binary32::one_units(),
        Binary32::count_bits(count) < crate::binary32::INFINITY_BITS,
{
    crate::arithmetic::lemma_count(count);
    let one = crate::binary32::one_units();
    if count == 0 {
        assert(crate::binary32::magnitude(0) == 0) by (nonlinear_arith);
        assert(0 * one == 0) by (nonlinear_arith);
    } else {
        vstd::arithmetic::power2::lemma2_to64();
        let (sig, s) = lemma_scaled_up(count, count, 0);
        let p = if count == 0x100_0000 {
            150
        } else {
            (149 - s) as nat
        };
        if count == 0x100_0000 {
            vstd::arithmetic::power2::lemma_pow2_adds(1, 149);
            let z = vstd::arithmetic::power2::pow2(149);
            assert(0x80_0000 * (2 * z) == 0x100_0000 * z) by (nonlinear_arith);
            crate::binary32::lemma_pack(0x80_0000, 150);
            crate::binary32::lemma_nearest_exact(
                (150 * 0x80_0000 + 0x80_0000) as u32,
                count * one,
                1,
            );
        } else {
            vstd::arithmetic::power2::lemma_pow2_adds(s, p);
            let (x, y) = (vstd::arithmetic::power2::pow2(s), vstd::arithmetic::power2::pow2(p));
            assert((count * x) * y == count * (x * y)) by (nonlinear_arith);
            crate::binary32::lemma_pack(sig, p);
            crate::binary32::lemma_nearest_exact((p * 0x80_0000 + sig) as u32, count * one, 1);
        }
    }
}

/// Doubling a number up to where a significand starts.
proof fn lemma_scaled_up(count: nat, now: nat, done: nat) -> (out: (nat, nat))
    requires
        0 < count,
        now == count * vstd::arithmetic::power2::pow2(done),
        done <= 23,
        now < 0x100_0000 || done == 0,
        now >= vstd::arithmetic::power2::pow2(done),
    ensures
        out.1 <= 23,
        out.0 == count * vstd::arithmetic::power2::pow2(out.1),
        0x80_0000 <= out.0,
        count < 0x100_0000 ==> out.0 < 0x100_0000,
    decreases 23 - done,
{
    vstd::arithmetic::power2::lemma2_to64();
    if done == 0 {
        let z = vstd::arithmetic::power2::pow2(done);
        assert(now == count) by (nonlinear_arith)
            requires
                now == count * z,
                z == 1,
        ;
    }
    if now >= 0x80_0000 {
        (now, done)
    } else {
        assert(done < 23) by {
            if done == 23 {
                assert(vstd::arithmetic::power2::pow2(23) == 0x80_0000);
            }
        }
        vstd::arithmetic::power2::lemma_pow2_unfold(done + 1);
        let z = vstd::arithmetic::power2::pow2(done);
        assert(count * (2 * z) == 2 * (count * z)) by (nonlinear_arith);
        lemma_scaled_up(count, 2 * now, done + 1)
    }
}

/// One more than a small count is the next count.
proof fn lemma_one_more(count: nat)
    requires
        count < 0x100_0000,
    ensures
        (Binary32 { bits: Binary32::count_bits(count) }).sum_bits((Binary32 { bits: ONE_BITS }))
            == Binary32::count_bits(count + 1),
{
    reveal(Binary32::sum_bits);
    lemma_small_count(count);
    crate::binary32::lemma_one_units();
    let one = crate::binary32::one_units();
    assert((count + 1) * one == count * one + one) by (nonlinear_arith);
    assert(count * one >= 0) by (nonlinear_arith);
}

/// The places below `upto` at which an unmasked gram of `order` tokens falls
/// into bucket `b` of `dim`.
pub open spec fn grams_in_bucket(
    tokens: Seq<u32>,
    order: int,
    mask_token: u32,
    dim: nat,
    b: int,
    upto: int,
) -> Seq<bool> {
    Seq::new(
        if upto > 0 {
            upto as nat
        } else {
            0
        },
        |i: int|
            !tokens.subrange(i, i + order).contains(mask_token) && crate::hash::fnv_gram(
                tokens.subrange(i, i + order),
            ) as nat % dim == b,
    )
}

proof fn lemma_gram_counts(
    acc: Seq<Binary32>,
    tokens: Seq<u32>,
    order: int,
    mask_token: u32,
    upto: int,
    b: int,
    held: nat,
)
    requires
        acc.len() > 0,
        0 <= b < acc.len(),
        acc[b].bits == Binary32::count_bits(held),
        held + (if upto > 0 { upto } else { 0 }) <= 0x100_0000,
    ensures
        bag_grams(acc, tokens, order, mask_token, upto).len() == acc.len(),
        bag_grams(acc, tokens, order, mask_token, upto)[b].bits == Binary32::count_bits(
            held + crate::view::count_true(
                grams_in_bucket(tokens, order, mask_token, acc.len(), b, upto),
            ),
        ),
        crate::view::count_true(grams_in_bucket(tokens, order, mask_token, acc.len(), b, upto))
            <= (if upto > 0 { upto } else { 0 }),
    decreases upto,
{
    let flags = grams_in_bucket(tokens, order, mask_token, acc.len(), b, upto);
    if upto > 0 {
        lemma_gram_counts(acc, tokens, order, mask_token, upto - 1, b, held);
        assert(flags.drop_last() =~= grams_in_bucket(
            tokens,
            order,
            mask_token,
            acc.len(),
            b,
            upto - 1,
        ));
        let gram = tokens.subrange(upto - 1, upto - 1 + order);
        let rest = bag_grams(acc, tokens, order, mask_token, upto - 1);
        assert(flags.last() == (!gram.contains(mask_token) && bucket_of(gram, acc.len()) == b));
        vstd::arithmetic::div_mod::lemma_mod_bound(
            crate::hash::fnv_gram(gram) as int,
            acc.len() as int,
        );
        let before = held + crate::view::count_true(flags.drop_last());
        if flags.last() {
            lemma_one_more(before);
            assert(rest[b] == (Binary32 { bits: Binary32::count_bits(before) }));
        }
    } else {
        assert(flags.len() == 0);
    }
}

/// A span is embedded as what it shows: bucket `b` of its bag counts the grams
/// of up to `orders` tokens, at every place of the span, that hold no mask token
/// and hash into `b`.
pub proof fn law_a_bag_counts_the_unmasked_grams(
    tokens: Seq<u32>,
    dim: nat,
    mask_token: u32,
    orders: nat,
    b: int,
)
    requires
        0 <= b < dim,
        orders * tokens.len() <= 0x100_0000,
    ensures
        bag_orders(tokens, dim, mask_token, orders).len() == dim,
        bag_orders(tokens, dim, mask_token, orders)[b].bits == Binary32::count_bits(
            grams_up_to(tokens, dim, mask_token, orders, b),
        ),
        grams_up_to(tokens, dim, mask_token, orders, b) <= orders * tokens.len(),
    decreases orders,
{
    if orders == 0 {
        crate::arithmetic::lemma_count(0);
        assert(0 * tokens.len() == 0) by (nonlinear_arith);
    } else {
        let fewer = (orders - 1) as nat;
        let n = tokens.len();
        assert(orders * n == fewer * n + n) by (nonlinear_arith)
            requires
                orders == fewer + 1,
        ;
        law_a_bag_counts_the_unmasked_grams(tokens, dim, mask_token, fewer, b);
        lemma_gram_counts(
            bag_orders(tokens, dim, mask_token, fewer),
            tokens,
            orders as int,
            mask_token,
            tokens.len() - orders + 1,
            b,
            grams_up_to(tokens, dim, mask_token, fewer, b),
        );
    }
}

/// How many unmasked grams of up to `orders` tokens fall into bucket `b`.
pub open spec fn grams_up_to(
    tokens: Seq<u32>,
    dim: nat,
    mask_token: u32,
    orders: nat,
    b: int,
) -> nat
    decreases orders,
{
    if orders == 0 {
        0
    } else {
        grams_up_to(tokens, dim, mask_token, (orders - 1) as nat, b) + crate::view::count_true(
            grams_in_bucket(
                tokens,
                orders as int,
                mask_token,
                dim,
                b,
                tokens.len() - orders + 1,
            ),
        )
    }
}

/// An embedding is its bag at length one: every component of a bag with a norm
/// above zero is divided by that norm, the root of the sum of the squares, and a
/// bag without one stays as it is.
pub proof fn law_an_embedding_is_its_bag_over_its_norm(
    embedder: HashedBagEmbedder,
    tokens: Seq<u32>,
    vector: Seq<Binary32>,
    b: int,
)
    requires
        embedder.embeds(tokens, None, vector),
        0 <= b < embedder.buckets(),
        embedder.orders() * tokens.len() <= 0x100_0000,
    ensures
        vector.len() == embedder.buckets(),
        ({
            let bag = bag_orders(tokens, embedder.buckets(), embedder.mask(), embedder.orders());
            let norm = Binary32 {
                bits: (Binary32 { bits: sum_squares_bits(bag, bag.len()) }).root_bits(),
            };
            vector[b] == if (Binary32 { bits: 0 }).is_less(norm) {
                Binary32 { bits: bag[b].quotient_bits(norm) }
            } else {
                bag[b]
            }
        }),
{
    law_a_bag_counts_the_unmasked_grams(
        tokens,
        embedder.buckets(),
        embedder.mask(),
        embedder.orders(),
        b,
    );
}

/// The bucket of a gram is the hash of its bytes over the number of buckets, what
/// is left of it.
pub proof fn law_a_gram_falls_where_its_bytes_hash(gram: Seq<u32>, dim: nat)
    requires
        dim > 0,
    ensures
        bucket_of(gram, dim) < dim,
        bucket_of(gram, dim) == crate::hash::fnv_from(
            0xcbf2_9ce4_8422_2325,
            crate::hash::gram_bytes(gram),
        ) as nat % dim,
{
    crate::hash::law_a_gram_is_hashed_as_its_bytes(gram);
}

/// The squares of the first `upto` counts together.
pub open spec fn squares(counts: Seq<nat>, upto: nat) -> nat
    decreases upto,
{
    if upto == 0 {
        0
    } else {
        squares(counts, (upto - 1) as nat) + counts[upto - 1] * counts[upto - 1]
    }
}

proof fn lemma_counts_multiply(count: nat)
    requires
        count * count <= 0x100_0000,
    ensures
        (Binary32 { bits: Binary32::count_bits(count) }).product_bits(
            (Binary32 { bits: Binary32::count_bits(count) }),
        ) == Binary32::count_bits(count * count),
{
    reveal(Binary32::product_bits);
    assert(count <= count * count) by (nonlinear_arith);
    lemma_small_count(count);
    lemma_small_count(count * count);
    let one = crate::binary32::one_units();
    vstd::arithmetic::power2::lemma_pow2_pos(149);
    let word = Binary32::count_bits(count * count);
    assert((count * one) * (count * one) == ((count * count) * one) * one) by (nonlinear_arith);
    crate::binary32::lemma_nearest_exact(word, (count * one) * (count * one), one);
}

proof fn lemma_counts_add(a: nat, b: nat)
    requires
        a + b <= 0x100_0000,
    ensures
        (Binary32 { bits: Binary32::count_bits(a) }).sum_bits(
            (Binary32 { bits: Binary32::count_bits(b) }),
        ) == Binary32::count_bits(a + b),
{
    reveal(Binary32::sum_bits);
    lemma_small_count(a);
    lemma_small_count(b);
    lemma_small_count(a + b);
    crate::arithmetic::lemma_count(a);
    crate::arithmetic::lemma_count(b);
    let one = crate::binary32::one_units();
    vstd::arithmetic::power2::lemma_pow2_pos(149);
    assert((a + b) * one == a * one + b * one && a * one >= 0 && b * one >= 0) by (nonlinear_arith);
    if a + b == 0 {
        crate::arithmetic::lemma_count(0);
        assert(0 * one == 0) by (nonlinear_arith);
    } else {
        assert((a + b) * one > 0) by (nonlinear_arith)
            requires
                a + b > 0,
                one > 0,
        ;
    }
}

/// The squared norm of a bag is the sum of the squares of its counts, exactly, as
/// long as that can be held exactly.
pub proof fn law_a_norm_squares_the_counts(bag: Seq<Binary32>, counts: Seq<nat>, upto: nat)
    requires
        upto <= bag.len(),
        bag.len() == counts.len(),
        forall|i: int| 0 <= i < upto ==> (#[trigger] bag[i]).bits == Binary32::count_bits(counts[i]),
        squares(counts, upto) <= 0x100_0000,
    ensures
        sum_squares_bits(bag, upto) == Binary32::count_bits(squares(counts, upto)),
    decreases upto,
{
    if upto == 0 {
        crate::arithmetic::lemma_count(0);
    } else {
        let last = counts[upto - 1];
        assert(last * last >= 0) by (nonlinear_arith);
        law_a_norm_squares_the_counts(bag, counts, (upto - 1) as nat);
        assert(bag[upto - 1] == (Binary32 { bits: Binary32::count_bits(last) }));
        lemma_counts_multiply(last);
        lemma_counts_add(squares(counts, (upto - 1) as nat), last * last);
    }
}

/// An embedder asks for a chunk with the chunk's tokens at the level of the view,
/// wherever the chunk stands; what a corpus holds is embedded at no level.
pub proof fn law_a_chunk_is_embedded_at_its_level<E: ChunkEmbedder>(
    embedder: E,
    position: nat,
    tokens: Seq<u32>,
    flags: Seq<bool>,
    t: NoiseLevel,
    query: Seq<Binary32>,
)
    ensures
        embedder.encodes(position, tokens, flags, t, query) <==> embedder.embeds(
            tokens,
            Some(t),
            query,
        ),
        embedder.width() == embedder.dim(),
{
}

/// A passage of the corpus comes from a document: every record is some whole number
/// of strides into its document, and holds the tokens that stand there.
pub proof fn law_a_held_passage_stands_in_its_document(
    documents: Seq<Document>,
    m: int,
    r: int,
    upto: int,
    p: int,
)
    requires
        m > 0,
        r > 0,
        0 <= upto <= documents.len(),
        0 <= p < all_records(documents, m, r, upto).len(),
    ensures
        ({
            let record = all_records(documents, m, r, upto)[p];
            exists|d: int, i: int|
                #![trigger documents[d].tokens@.subrange(i * m, i * m + r)]
                0 <= d < upto && 0 <= i && i * m + r <= documents[d].tokens@.len() && record.document
                    == documents[d].id && record.tokens == documents[d].tokens@.subrange(
                    i * m,
                    i * m + r,
                ) && record.matched == documents[d].tokens@.subrange(i * m, i * m + m)
        }),
    decreases upto,
{
    let all = all_records(documents, m, r, upto);
    let rest = all_records(documents, m, r, upto - 1);
    if p < rest.len() {
        law_a_held_passage_stands_in_its_document(documents, m, r, upto - 1, p);
        assert(all[p] == rest[p]);
    } else {
        let doc = documents[upto - 1];
        let len = doc.tokens@.len() as int;
        let count = record_count(len, m, r);
        let i = p - rest.len();
        lemma_record_at(doc, m, r, count, i);
        assert(i * m + r <= len) by {
            vstd::arithmetic::div_mod::lemma_fundamental_div_mod(len - r, m);
            let q = (len - r) / m;
            assert(i * m <= len - r) by (nonlinear_arith)
                requires
                    0 <= i <= q,
                    m > 0,
                    len - r == m * q + (len - r) % m,
                    (len - r) % m >= 0,
            ;
        }
        assert(documents[upto - 1].tokens@.subrange(i * m, i * m + r) == all[p].tokens);
    }
}

proof fn lemma_record_at(doc: Document, m: int, r: int, upto: int, i: int)
    requires
        0 <= i < document_records(doc, m, r, upto).len(),
    ensures
        document_records(doc, m, r, upto).len() == upto,
        document_records(doc, m, r, upto)[i].document == doc.id,
        document_records(doc, m, r, upto)[i].tokens == doc.tokens@.subrange(i * m, i * m + r),
        document_records(doc, m, r, upto)[i].matched == doc.tokens@.subrange(i * m, i * m + m),
    decreases upto,
{
    let rest = document_records(doc, m, r, upto - 1);
    if upto - 1 > 0 {
        if i < rest.len() {
            lemma_record_at(doc, m, r, upto - 1, i);
        } else {
            assert(rest.len() > 0 || upto - 1 <= 0) by {
                lemma_records_len(doc, m, r, upto - 1);
            }
            lemma_record_at(doc, m, r, upto - 1, 0);
        }
    } else {
        assert(rest.len() == 0);
    }
}

proof fn lemma_records_len(doc: Document, m: int, r: int, upto: int)
    requires
        upto >= 0,
    ensures
        document_records(doc, m, r, upto).len() == upto,
    decreases upto,
{
    if upto > 0 {
        lemma_records_len(doc, m, r, upto - 1);
    }
}

} // verus!
