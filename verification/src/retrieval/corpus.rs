//! The neighbour corpus: what retrieval returns and where it came from.
use crate::binary32::Binary32;
use crate::text::decimal;
use vstd::prelude::*;
use vstd::string::*;

verus! {

/// Identifies a source document in the corpus.
///
/// Provenance is the primary leakage defense. The training document is itself
/// in the index, and the cheapest exact way to avoid retrieving it is to know
/// which document a neighbour came from.
#[derive(Clone, Copy, Debug, PartialEq, Eq, Structural, Hash, PartialOrd, Ord)]
pub struct DocumentId(pub u64);

/// Identifies one retrievable neighbour.
#[derive(Clone, Copy, Debug, PartialEq, Eq, Structural, Hash, PartialOrd, Ord)]
pub struct NeighbourId(pub u32);

/// A stored neighbour: `r` tokens plus provenance.
///
/// Usually the matched chunk followed by its continuation. The continuation
/// is the half that carries information the model does not already have.
#[derive(Clone, Debug, PartialEq, Eq)]
pub struct NeighbourRecord {
    /// Source document.
    pub document: DocumentId,
    /// Token offset of the matched chunk within the source document.
    pub offset: usize,
    /// `r` tokens: the matched chunk and its continuation.
    pub tokens: Vec<u32>,
}

/// The id of the neighbour at position `i`: the position, cut to the width of
/// an id.
pub open spec fn id_of(i: nat) -> NeighbourId {
    NeighbourId((i % 0x1_0000_0000) as u32)
}

/// The id of the neighbour at position `i`.
pub fn neighbour_id(i: usize) -> (id: NeighbourId)
    ensures
        id == id_of(i as nat),
{
    NeighbourId((i as u64 % 0x1_0000_0000) as u32)
}

/// Token storage for retrievable neighbours, and their index embeddings.
///
/// Flat and contiguous on purpose: at scale this lives on NVMe or in host
/// RAM, where per-neighbour allocations are the wrong shape.
#[derive(Clone, Debug, Default)]
pub struct NeighbourCorpus {
    neighbour_len: usize,
    embed_dim: usize,
    /// `count * neighbour_len` token ids.
    tokens: Vec<u32>,
    /// `count * embed_dim` embedding values.
    embeddings: Vec<Binary32>,
    documents: Vec<DocumentId>,
    offsets: Vec<usize>,
}

/// What a corpus holds.
pub struct CorpusState {
    /// Tokens per neighbour.
    pub r: nat,
    /// Embedding width.
    pub dim: nat,
    /// The tokens of all neighbours, in order.
    pub tokens: Seq<u32>,
    /// The embeddings of all neighbours, in order.
    pub embeddings: Seq<Binary32>,
    /// The source document of each neighbour.
    pub documents: Seq<DocumentId>,
    /// The offset of each neighbour in its document.
    pub offsets: Seq<usize>,
}

impl View for NeighbourCorpus {
    type V = CorpusState;

    closed spec fn view(&self) -> CorpusState {
        CorpusState {
            r: self.neighbour_len as nat,
            dim: self.embed_dim as nat,
            tokens: self.tokens@,
            embeddings: self.embeddings@,
            documents: self.documents@,
            offsets: self.offsets@,
        }
    }
}

/// Why a neighbour could not be added.
#[derive(Clone, Copy, Debug, PartialEq, Eq, Structural)]
pub enum CorpusError {
    /// The record's token count does not match the corpus's `r`.
    TokenLenMismatch {
        /// The record's token count.
        got: usize,
        /// The corpus's `r`.
        expected: usize,
    },
    /// The embedding width does not match the corpus's `d_r`.
    EmbedDimMismatch {
        /// The embedding's width.
        got: usize,
        /// The corpus's `d_r`.
        expected: usize,
    },
}

/// The text of an error, in characters.
pub open spec fn corpus_error_chars(e: CorpusError) -> Seq<char> {
    match e {
        CorpusError::TokenLenMismatch { got, expected } => "neighbour has "@
            + crate::text::decimal_chars(got as nat) + " tokens, corpus expects r="@
            + crate::text::decimal_chars(expected as nat),
        CorpusError::EmbedDimMismatch { got, expected } => "embedding has width "@
            + crate::text::decimal_chars(got as nat) + ", corpus expects d_r="@
            + crate::text::decimal_chars(expected as nat),
    }
}

impl CorpusError {
    /// What went wrong, in words.
    pub fn message(&self) -> (s: String)
        ensures
            s@ == corpus_error_chars(*self),
    {
        match self {
            CorpusError::TokenLenMismatch { got, expected } => {
                let mut s: String = String::from_str("neighbour has ");
                s.append(decimal(*got as u64).as_str());
                s.append(" tokens, corpus expects r=");
                s.append(decimal(*expected as u64).as_str());
                s
            },
            CorpusError::EmbedDimMismatch { got, expected } => {
                let mut s: String = String::from_str("embedding has width ");
                s.append(decimal(*got as u64).as_str());
                s.append(", corpus expects d_r=");
                s.append(decimal(*expected as u64).as_str());
                s
            },
        }
    }
}

/// The `width`-wide slot `i` of a flat sequence.
pub open spec fn slot<A>(flat: Seq<A>, i: int, width: int) -> Seq<A> {
    flat.subrange(i * width, i * width + width)
}

/// The `width`-wide slot at `index` of a flat slice, if it lies inside.
pub fn slot_of<A>(flat: &[A], index: usize, width: usize) -> (found: Option<&[A]>)
    ensures
        found is Some <==> index * width + width <= flat@.len(),
        found is Some ==> found->0@ == slot(flat@, index as int, width as int),
{
    let total: usize = flat.len();
    proof {
        assert(index * width >= 0) by (nonlinear_arith);
    }
    let start: usize = match index.checked_mul(width) {
        Some(start) => start,
        None => {
            return None;
        },
    };
    let end: usize = match start.checked_add(width) {
        Some(end) => end,
        None => {
            return None;
        },
    };
    if end > total {
        return None;
    }
    Some(vstd::slice::slice_subrange(flat, start, end))
}

impl NeighbourCorpus {
    /// Every neighbour has its tokens, its embedding, its document and its
    /// offset.
    pub open spec fn wf(self) -> bool {
        &&& self@.tokens.len() == self@.documents.len() * self@.r
        &&& self@.embeddings.len() == self@.documents.len() * self@.dim
        &&& self@.offsets.len() == self@.documents.len()
        &&& self@.documents.len() <= usize::MAX
        &&& self@.r <= usize::MAX
        &&& self@.dim <= usize::MAX
    }

    /// An empty corpus storing `neighbour_len`-token neighbours indexed by
    /// `embed_dim`-wide embeddings.
    pub fn new(neighbour_len: usize, embed_dim: usize) -> (corpus: Self)
        ensures
            corpus.wf(),
            corpus@.r == neighbour_len,
            corpus@.dim == embed_dim,
            corpus@.documents.len() == 0,
    {
        NeighbourCorpus {
            neighbour_len,
            embed_dim,
            tokens: Vec::new(),
            embeddings: Vec::new(),
            documents: Vec::new(),
            offsets: Vec::new(),
        }
    }

    /// Add a neighbour and its index embedding.
    pub fn push(&mut self, record: &NeighbourRecord, embedding: &[Binary32]) -> (added: Result<
        NeighbourId,
        CorpusError,
    >)
        requires
            old(self).wf(),
        ensures
            final(self).wf(),
            final(self)@.r == old(self)@.r,
            final(self)@.dim == old(self)@.dim,
            record.tokens@.len() != old(self)@.r ==> added == Err::<NeighbourId, CorpusError>(
                CorpusError::TokenLenMismatch {
                    got: record.tokens@.len() as usize,
                    expected: old(self)@.r as usize,
                },
            ),
            record.tokens@.len() == old(self)@.r && embedding@.len() != old(self)@.dim ==> added
                == Err::<NeighbourId, CorpusError>(
                CorpusError::EmbedDimMismatch {
                    got: embedding@.len() as usize,
                    expected: old(self)@.dim as usize,
                },
            ),
            added is Err ==> final(self)@ == old(self)@,
            record.tokens@.len() == old(self)@.r && embedding@.len() == old(self)@.dim ==> {
                &&& added == Ok::<NeighbourId, CorpusError>(id_of(old(self)@.documents.len()))
                &&& final(self)@.tokens == old(self)@.tokens + record.tokens@
                &&& final(self)@.embeddings == old(self)@.embeddings + embedding@
                &&& final(self)@.documents == old(self)@.documents.push(record.document)
                &&& final(self)@.offsets == old(self)@.offsets.push(record.offset)
            },
    {
        if record.tokens.len() != self.neighbour_len {
            return Err(
                CorpusError::TokenLenMismatch {
                    got: record.tokens.len(),
                    expected: self.neighbour_len,
                },
            );
        }
        if embedding.len() != self.embed_dim {
            return Err(
                CorpusError::EmbedDimMismatch { got: embedding.len(), expected: self.embed_dim },
            );
        }
        let ghost count = self@.documents.len() as int;
        let id: NeighbourId = neighbour_id(self.documents.len());
        self.tokens.extend_from_slice(record.tokens.as_slice());
        self.embeddings.extend_from_slice(embedding);
        self.documents.push(record.document);
        self.offsets.push(record.offset);
        proof {
            assert(self.tokens@ =~= old(self)@.tokens + record.tokens@);
            assert(self.embeddings@ =~= old(self)@.embeddings + embedding@);
            let r = self.neighbour_len as int;
            let dim = self.embed_dim as int;
            assert((count + 1) * r == count * r + r) by (nonlinear_arith);
            assert((count + 1) * dim == count * dim + dim) by (nonlinear_arith);
        }
        let _n: usize = self.documents.len();
        Ok(id)
    }

    /// Number of stored neighbours.
    pub fn len(&self) -> (count: usize)
        ensures
            count == self@.documents.len(),
    {
        self.documents.len()
    }

    /// Whether the corpus is empty.
    pub fn is_empty(&self) -> (b: bool)
        ensures
            b == (self@.documents.len() == 0),
    {
        self.documents.len() == 0
    }

    /// Neighbour token length, `r`.
    pub fn neighbour_len(&self) -> (r: usize)
        ensures
            r == self@.r,
    {
        self.neighbour_len
    }

    /// Index embedding width, `d_r`.
    pub fn embed_dim(&self) -> (dim: usize)
        ensures
            dim == self@.dim,
    {
        self.embed_dim
    }

    /// The `r` tokens of neighbour `id`.
    pub fn tokens(&self, id: NeighbourId) -> (tokens: Option<&[u32]>)
        ensures
            tokens is Some <==> id.0 * self@.r + self@.r <= self@.tokens.len(),
            tokens is Some ==> tokens->0@ == slot(self@.tokens, id.0 as int, self@.r as int),
    {
        slot_of(self.tokens.as_slice(), id.0 as usize, self.neighbour_len)
    }

    /// The index embedding of neighbour `id`.
    pub fn embedding(&self, id: NeighbourId) -> (embedding: Option<&[Binary32]>)
        ensures
            embedding is Some <==> id.0 * self@.dim + self@.dim <= self@.embeddings.len(),
            embedding is Some ==> embedding->0@ == slot(
                self@.embeddings,
                id.0 as int,
                self@.dim as int,
            ),
    {
        slot_of(self.embeddings.as_slice(), id.0 as usize, self.embed_dim)
    }

    /// The source document of neighbour `id`, if there is such a neighbour.
    pub open spec fn source_of(self, id: NeighbourId) -> Option<DocumentId> {
        if id.0 < self@.documents.len() {
            Some(self@.documents[id.0 as int])
        } else {
            None
        }
    }

    /// The source document of neighbour `id`.
    pub fn document(&self, id: NeighbourId) -> (document: Option<DocumentId>)
        ensures
            document == self.source_of(id),
    {
        if (id.0 as usize) < self.documents.len() {
            Some(self.documents[id.0 as usize])
        } else {
            None
        }
    }

    /// The in-document offset of neighbour `id`.
    pub fn offset(&self, id: NeighbourId) -> (offset: Option<usize>)
        ensures
            offset == if id.0 < self@.offsets.len() {
                Some(self@.offsets[id.0 as int])
            } else {
                None
            },
    {
        if (id.0 as usize) < self.offsets.len() {
            Some(self.offsets[id.0 as usize])
        } else {
            None
        }
    }

    /// All embeddings, laid out `count * embed_dim`.
    pub fn embeddings(&self) -> (embeddings: &[Binary32])
        ensures
            embeddings@ == self@.embeddings,
    {
        self.embeddings.as_slice()
    }
}

/// A stored neighbour reads back as it was pushed: its slot of a flat
/// sequence extended by one slot is that slot, and earlier slots stay.
pub proof fn law_push_keeps_slots<A>(flat: Seq<A>, added: Seq<A>, count: int, i: int)
    requires
        0 <= i <= count,
        flat.len() == count * added.len(),
    ensures
        slot(flat + added, count, added.len() as int) == added,
        i < count ==> slot(flat + added, i, added.len() as int) == slot(
            flat,
            i,
            added.len() as int,
        ),
{
    let w = added.len() as int;
    assert(slot(flat + added, count, w) =~= added);
    if i < count {
        crate::chunk::lemma_slot_in_range(i, count, w);
        assert(slot(flat + added, i, w) =~= slot(flat, i, w));
    }
}

/// A message names what was got and what was expected, each under its own label.
pub proof fn law_a_message_names_what_it_is_about(e: CorpusError)
    ensures
        ({
            let text = corpus_error_chars(e);
            match e {
                CorpusError::TokenLenMismatch { got, expected } => {
                    &&& crate::text::names(text, "neighbour has "@, got as nat)
                    &&& crate::text::names(text, " tokens, corpus expects r="@, expected as nat)
                },
                CorpusError::EmbedDimMismatch { got, expected } => {
                    &&& crate::text::names(text, "embedding has width "@, got as nat)
                    &&& crate::text::names(text, ", corpus expects d_r="@, expected as nat)
                },
            }
        }),
{
    let none = Seq::<char>::empty();
    let text = corpus_error_chars(e);
    match e {
        CorpusError::TokenLenMismatch { got, expected } => {
            let (a, b) = ("neighbour has "@, " tokens, corpus expects r="@);
            crate::text::lemma_names_two(a, got as nat, b, expected as nat, none);
            assert(a + crate::text::decimal_chars(got as nat) + b + crate::text::decimal_chars(
                expected as nat,
            ) + none =~= text);
        },
        CorpusError::EmbedDimMismatch { got, expected } => {
            let (a, b) = ("embedding has width "@, ", corpus expects d_r="@);
            crate::text::lemma_names_two(a, got as nat, b, expected as nat, none);
            assert(a + crate::text::decimal_chars(got as nat) + b + crate::text::decimal_chars(
                expected as nat,
            ) + none =~= text);
        },
    }
}

} // verus!
