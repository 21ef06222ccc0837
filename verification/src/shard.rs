//! The tokenized corpus interchange format.
//!
//! Ingest is a one-time job that needs a parquet reader and a tokenizer.
//! Training needs neither: it works on `u32` tokens and document ids. A shard
//! is the seam between them.
//!
//! The format is deliberately dull: a header, then length-prefixed documents,
//! little-endian throughout.
//!
//! ```text
//! magic       8 bytes   b"ANAPHRA1"
//! version     u32       1
//! vocab_size  u32       the tokenizer's vocabulary
//! mask_token  u32       the [MASK] id, so a shard is self-describing
//! doc_count   u64
//! per document:
//!   id        u64       the source article id
//!   len       u32       token count
//!   tokens    u32 * len
//! ```
//!
//! `vocab_size` and `mask_token` travel with the data because a shard read
//! back against the wrong tokenizer produces token ids that are silently
//! valid and completely wrong. The reader checks them.
use crate::bytes::{get_u32, get_u64, put_u32, put_u64, starts_with};
use crate::corpus::Document;
use crate::retrieval::corpus::DocumentId;
use crate::text::decimal;
use vstd::prelude::*;
use vstd::string::*;

verus! {

/// The format version.
pub const VERSION: u32 = 1;

/// The bytes a shard begins with: `ANAPHRA1`.
pub open spec fn magic() -> Seq<u8> {
    seq![0x41u8, 0x4E, 0x41, 0x50, 0x48, 0x52, 0x41, 0x31]
}

/// Why a shard could not be read.
#[derive(Clone, Copy, Debug, PartialEq, Eq, Structural)]
pub enum ShardError {
    /// The bytes end in the middle of a field.
    UnexpectedEnd,
    /// The bytes do not begin with the shard magic.
    NotAShard,
    /// The format version is not understood.
    Version(u32),
    /// The shard holds token ids the model cannot represent.
    VocabTooLarge {
        /// The shard's vocabulary bound.
        shard: u32,
        /// What the model's embedding table can index.
        model: u32,
    },
    /// A length field exceeds what the shard can hold.
    ///
    /// Checked rather than trusted: a corrupt or truncated shard would
    /// otherwise ask for a multi-gigabyte allocation before failing.
    Truncated {
        /// How many more bytes the field claims.
        wanted: usize,
        /// How many there are.
        available: usize,
    },
}

/// The text of a shard error.
pub open spec fn shard_error_chars(e: ShardError) -> Seq<char> {
    match e {
        ShardError::UnexpectedEnd => "failed to fill whole buffer"@,
        ShardError::NotAShard => "not an Anaphora corpus shard"@,
        ShardError::Version(v) => "unsupported shard version "@ + crate::text::decimal_chars(
            v as nat,
        ),
        ShardError::VocabTooLarge { shard, model } => "shard was tokenized against a "@
            + crate::text::decimal_chars(shard as nat)
            + "-token vocabulary but the model's embedding table holds "@
            + crate::text::decimal_chars(model as nat)
            + "; token ids beyond it would index out of range"@,
        ShardError::Truncated { wanted, available } => "shard claims "@
            + crate::text::decimal_chars(wanted as nat) + " more bytes but only "@
            + crate::text::decimal_chars(available as nat) + " remain"@,
    }
}

impl ShardError {
    /// What went wrong, in words.
    pub fn message(&self) -> (s: String)
        ensures
            s@ == shard_error_chars(*self),
    {
        match *self {
            ShardError::UnexpectedEnd => String::from_str("failed to fill whole buffer"),
            ShardError::NotAShard => String::from_str("not an Anaphora corpus shard"),
            ShardError::Version(v) => {
                let mut s: String = String::from_str("unsupported shard version ");
                s.append(decimal(v as u64).as_str());
                s
            },
            ShardError::VocabTooLarge { shard, model } => {
                let mut s: String = String::from_str("shard was tokenized against a ");
                s.append(decimal(shard as u64).as_str());
                s.append("-token vocabulary but the model's embedding table holds ");
                s.append(decimal(model as u64).as_str());
                s.append("; token ids beyond it would index out of range");
                s
            },
            ShardError::Truncated { wanted, available } => {
                let mut s: String = String::from_str("shard claims ");
                s.append(decimal(wanted as u64).as_str());
                s.append(" more bytes but only ");
                s.append(decimal(available as u64).as_str());
                s.append(" remain");
                s
            },
        }
    }
}

/// A tokenized document collection.
#[derive(Clone, Debug, PartialEq, Eq)]
pub struct CorpusShard {
    /// An upper bound on the token ids present.
    ///
    /// The tokenizer's reported vocabulary, which a model's embedding table
    /// must be at least as wide as. Not necessarily equal to it: see
    /// [`CorpusShard::read`].
    pub vocab_size: u32,
    /// The `[MASK]` token id.
    pub mask_token: u32,
    /// The documents.
    pub documents: Vec<Document>,
}

/// What a document holds: its id and its tokens.
pub open spec fn contents(document: Document) -> (u64, Seq<u32>) {
    (document.id.0, document.tokens@)
}

/// What documents hold.
pub open spec fn all_contents(documents: Seq<Document>) -> Seq<(u64, Seq<u32>)> {
    Seq::new(documents.len(), |i: int| contents(documents[i]))
}

/// How many tokens the first `upto` documents hold.
pub open spec fn token_count(documents: Seq<Document>, upto: nat) -> nat
    decreases upto,
{
    if upto == 0 {
        0
    } else {
        token_count(documents, (upto - 1) as nat) + documents[upto - 1].tokens@.len()
    }
}

/// The bytes of a run of tokens.
pub open spec fn token_bytes(tokens: Seq<u32>) -> Seq<u8>
    decreases tokens.len(),
{
    if tokens.len() == 0 {
        Seq::empty()
    } else {
        token_bytes(tokens.drop_last()) + crate::bytes::le_bytes(tokens.last())
    }
}

/// The bytes of one document. The length field holds the low 32 bits of the
/// token count.
pub open spec fn document_bytes(document: (u64, Seq<u32>)) -> Seq<u8> {
    crate::bytes::le_bytes_wide(document.0) + crate::bytes::le_bytes(
        (document.1.len() % 0x1_0000_0000) as u32,
    ) + token_bytes(document.1)
}

/// The bytes of documents, one after the other.
pub open spec fn documents_bytes(documents: Seq<(u64, Seq<u32>)>) -> Seq<u8>
    decreases documents.len(),
{
    if documents.len() == 0 {
        Seq::empty()
    } else {
        documents_bytes(documents.drop_last()) + document_bytes(documents.last())
    }
}

/// The bytes of the header.
pub open spec fn header_bytes(vocab_size: u32, mask_token: u32, count: u64) -> Seq<u8> {
    magic() + crate::bytes::le_bytes(VERSION) + crate::bytes::le_bytes(vocab_size)
        + crate::bytes::le_bytes(mask_token) + crate::bytes::le_bytes_wide(count)
}

/// The bytes of a whole shard.
pub open spec fn shard_bytes(
    vocab_size: u32,
    mask_token: u32,
    documents: Seq<(u64, Seq<u32>)>,
) -> Seq<u8> {
    header_bytes(vocab_size, mask_token, documents.len() as u64) + documents_bytes(documents)
}

/// A count as a machine word, or the largest one where it does not fit.
pub open spec fn saturated(count: nat) -> usize {
    if count <= usize::MAX {
        count as usize
    } else {
        usize::MAX
    }
}

/// What is wrong with the header of `bytes`, if anything.
pub open spec fn header_fault(bytes: Seq<u8>, model_vocab: Option<u32>) -> Option<ShardError> {
    let vocab_size = crate::bytes::word(bytes, 12);
    let count = crate::bytes::wide_word(bytes, 20);
    if bytes.len() < 8 {
        Some(ShardError::UnexpectedEnd)
    } else if !crate::bytes::starts(bytes, magic()) {
        Some(ShardError::NotAShard)
    } else if bytes.len() < 12 {
        Some(ShardError::UnexpectedEnd)
    } else if crate::bytes::word(bytes, 8) != VERSION {
        Some(ShardError::Version(crate::bytes::word(bytes, 8)))
    } else if bytes.len() < 20 {
        Some(ShardError::UnexpectedEnd)
    } else if model_vocab is Some && vocab_size > model_vocab->0 {
        Some(ShardError::VocabTooLarge { shard: vocab_size, model: model_vocab->0 })
    } else if bytes.len() < 28 {
        Some(ShardError::UnexpectedEnd)
    } else if count * 12 > bytes.len() - 28 {
        Some(
            ShardError::Truncated {
                wanted: saturated((count * 12) as nat),
                available: (bytes.len() - 28) as usize,
            },
        )
    } else {
        None
    }
}

/// Where document `i` starts.
pub open spec fn document_start(bytes: Seq<u8>, i: nat) -> int
    decreases i,
{
    if i == 0 {
        28
    } else {
        let start = document_start(bytes, (i - 1) as nat);
        start + 12 + 4 * crate::bytes::word(bytes, start + 8)
    }
}

/// What is wrong with document `i`, given that those before it are whole.
pub open spec fn document_fault(bytes: Seq<u8>, i: nat) -> Option<ShardError> {
    let start = document_start(bytes, i);
    let wanted = 4 * crate::bytes::word(bytes, start + 8);
    if start + 12 > bytes.len() {
        Some(ShardError::UnexpectedEnd)
    } else if start + 12 + wanted > bytes.len() {
        Some(
            ShardError::Truncated {
                wanted: saturated(wanted as nat),
                available: (bytes.len() - start - 12) as usize,
            },
        )
    } else {
        None
    }
}

/// What is wrong with the first of the first `upto` documents that is not
/// whole.
pub open spec fn documents_fault(bytes: Seq<u8>, upto: nat) -> Option<ShardError>
    decreases upto,
{
    if upto == 0 {
        None
    } else {
        match documents_fault(bytes, (upto - 1) as nat) {
            Some(fault) => Some(fault),
            None => document_fault(bytes, (upto - 1) as nat),
        }
    }
}

/// What is wrong with `bytes` as a shard, if anything.
pub open spec fn shard_fault(bytes: Seq<u8>, model_vocab: Option<u32>) -> Option<ShardError> {
    match header_fault(bytes, model_vocab) {
        Some(fault) => Some(fault),
        None => documents_fault(bytes, crate::bytes::wide_word(bytes, 20) as nat),
    }
}

/// What document `i` holds.
pub open spec fn document_at(bytes: Seq<u8>, i: nat) -> (u64, Seq<u32>) {
    let start = document_start(bytes, i);
    (
        crate::bytes::wide_word(bytes, start),
        Seq::new(
            crate::bytes::word(bytes, start + 8) as nat,
            |j: int| crate::bytes::word(bytes, start + 12 + 4 * j),
        ),
    )
}

/// The first `upto` documents.
pub open spec fn documents_at(bytes: Seq<u8>, upto: nat) -> Seq<(u64, Seq<u32>)> {
    Seq::new(upto, |i: int| document_at(bytes, i as nat))
}

proof fn lemma_starts(bytes: Seq<u8>, i: nat)
    requires
        documents_fault(bytes, i) is None,
        bytes.len() >= 28,
    ensures
        28 + 12 * i <= document_start(bytes, i) <= bytes.len(),
    decreases i,
{
    if i > 0 {
        lemma_starts(bytes, (i - 1) as nat);
    }
}

proof fn lemma_fault_stays(bytes: Seq<u8>, low: nat, high: nat)
    requires
        low <= high,
        documents_fault(bytes, low) is Some,
    ensures
        documents_fault(bytes, high) == documents_fault(bytes, low),
    decreases high,
{
    if low < high {
        lemma_fault_stays(bytes, low, (high - 1) as nat);
    }
}

impl CorpusShard {
    /// Total tokens across every document.
    pub fn total_tokens(&self) -> (total: usize)
        requires
            token_count(self.documents@, self.documents@.len()) <= usize::MAX,
        ensures
            total == token_count(self.documents@, self.documents@.len()),
    {
        let mut total: usize = 0;
        let mut i: usize = 0;
        while i < self.documents.len()
            invariant
                i <= self.documents@.len(),
                total == token_count(self.documents@, i as nat),
                token_count(self.documents@, self.documents@.len()) <= usize::MAX,
            decreases self.documents.len() - i,
        {
            proof {
                lemma_token_count_grows(self.documents@, (i + 1) as nat, self.documents@.len());
            }
            total = total + self.documents[i].tokens.len();
            i = i + 1;
        }
        total
    }

    /// The bytes of this shard.
    pub fn write(&self) -> (bytes: Vec<u8>)
        ensures
            bytes@ == shard_bytes(
                self.vocab_size,
                self.mask_token,
                all_contents(self.documents@),
            ),
    {
        let mut out: Vec<u8> = vec![0x41, 0x4E, 0x41, 0x50, 0x48, 0x52, 0x41, 0x31];
        proof {
            assert(out@ =~= magic());
        }
        put_u32(&mut out, VERSION);
        put_u32(&mut out, self.vocab_size);
        put_u32(&mut out, self.mask_token);
        put_u64(&mut out, self.documents.len() as u64);
        let ghost all = all_contents(self.documents@);
        let ghost header = header_bytes(self.vocab_size, self.mask_token, all.len() as u64);
        proof {
            assert(out@ =~= header + documents_bytes(all.take(0)));
        }
        let mut i: usize = 0;
        while i < self.documents.len()
            invariant
                i <= self.documents@.len(),
                all == all_contents(self.documents@),
                out@ == header + documents_bytes(all.take(i as int)),
            decreases self.documents.len() - i,
        {
            let document: &Document = &self.documents[i];
            let ghost before = out@;
            put_u64(&mut out, document.id.0);
            put_u32(&mut out, (document.tokens.len() as u64 % 0x1_0000_0000) as u32);
            let ghost opened = out@;
            put_tokens(&mut out, document.tokens.as_slice());
            proof {
                let next = all.take(i + 1);
                assert(next.drop_last() =~= all.take(i as int));
                assert(next.last() == contents(*document));
                assert(out@ =~= before + document_bytes(contents(*document)));
                assert(out@ =~= header + documents_bytes(next));
            }
            i = i + 1;
        }
        proof {
            assert(all.take(i as int) =~= all);
        }
        out
    }

    /// Read a shard from `bytes`, rejecting one the model cannot represent.
    ///
    /// `model_vocab` is the width of the model's embedding table, and the
    /// check is `shard.vocab_size <= model_vocab` rather than equality. The
    /// two legitimately differ: LLaDA-8B reports 126,464 embedding rows
    /// against a tokenizer of roughly 126,346 tokens, the remainder being
    /// padding for alignment. Demanding equality would reject a shard that is
    /// perfectly usable; demanding nothing would let a shard from a larger
    /// tokenizer index past the end of the table.
    pub fn read(bytes: &[u8], model_vocab: Option<u32>) -> (result: Result<Self, ShardError>)
        ensures
            match shard_fault(bytes@, model_vocab) {
                Some(fault) => result == Err::<Self, ShardError>(fault),
                None => {
                    &&& result is Ok
                    &&& result->Ok_0.vocab_size == crate::bytes::word(bytes@, 12)
                    &&& result->Ok_0.mask_token == crate::bytes::word(bytes@, 16)
                    &&& all_contents(result->Ok_0.documents@) == documents_at(
                        bytes@,
                        crate::bytes::wide_word(bytes@, 20) as nat,
                    )
                },
            },
    {
        let tag: [u8; 8] = [0x41, 0x4E, 0x41, 0x50, 0x48, 0x52, 0x41, 0x31];
        proof {
            assert(tag@ =~= magic());
        }
        if bytes.len() < 8 {
            return Err(ShardError::UnexpectedEnd);
        }
        if !starts_with(bytes, tag.as_slice()) {
            return Err(ShardError::NotAShard);
        }
        let version: u32 = match get_u32(bytes, 8) {
            Some(version) => version,
            None => {
                return Err(ShardError::UnexpectedEnd);
            },
        };
        if version != VERSION {
            return Err(ShardError::Version(version));
        }
        let vocab_size: u32 = match get_u32(bytes, 12) {
            Some(vocab_size) => vocab_size,
            None => {
                return Err(ShardError::UnexpectedEnd);
            },
        };
        let mask_token: u32 = match get_u32(bytes, 16) {
            Some(mask_token) => mask_token,
            None => {
                return Err(ShardError::UnexpectedEnd);
            },
        };
        match model_vocab {
            Some(model) => {
                if vocab_size > model {
                    return Err(ShardError::VocabTooLarge { shard: vocab_size, model });
                }
            },
            None => {},
        }
        let count: u64 = match get_u64(bytes, 20) {
            Some(count) => count,
            None => {
                return Err(ShardError::UnexpectedEnd);
            },
        };
        // Every document costs at least 12 bytes of header, so a plausible
        // count is bounded by the length. This is the cheap guard against a
        // corrupt length turning into a huge allocation.
        let available: usize = bytes.len() - 28;
        if count > available as u64 / 12 {
            let wanted: usize = saturating_bytes(count as u128 * 12);
            return Err(ShardError::Truncated { wanted, available });
        }
        let mut documents: Vec<Document> = Vec::new();
        let mut start: usize = 28;
        let mut i: u64 = 0;
        while i < count
            invariant
                i <= count,
                bytes@.len() >= 28,
                header_fault(bytes@, model_vocab) is None,
                count == crate::bytes::wide_word(bytes@, 20),
                documents_fault(bytes@, i as nat) is None,
                start == document_start(bytes@, i as nat),
                28 <= start <= bytes@.len(),
                documents@.len() == i,
                all_contents(documents@) == documents_at(bytes@, i as nat),
            decreases count - i,
        {
            let (id, length) = match (get_u64(bytes, start), after_eight(bytes, start)) {
                (Some(id), Some(length)) => (id, length),
                _ => {
                    proof {
                        lemma_fault_stays(bytes@, (i + 1) as nat, count as nat);
                    }
                    return Err(ShardError::UnexpectedEnd);
                },
            };
            let available: usize = bytes.len() - start - 12;
            let wanted: u64 = length as u64 * 4;
            if wanted > available as u64 {
                proof {
                    lemma_fault_stays(bytes@, (i + 1) as nat, count as nat);
                }
                return Err(
                    ShardError::Truncated { wanted: saturating_bytes(wanted as u128), available },
                );
            }
            let tokens: Vec<u32> = get_tokens(bytes, start + 12, length as usize);
            let ghost before = documents@;
            documents.push(Document { id: DocumentId(id), tokens });
            proof {
                assert(contents(documents@.last()) == document_at(bytes@, i as nat));
                assert forall|j: int| 0 <= j < i + 1 implies all_contents(documents@)[j]
                    == documents_at(bytes@, (i + 1) as nat)[j] by {
                    if j < i {
                        assert(documents@[j] == before[j]);
                        assert(all_contents(before)[j] == documents_at(bytes@, i as nat)[j]);
                    }
                }
                assert(all_contents(documents@) =~= documents_at(bytes@, (i + 1) as nat));
            }
            start = start + 12 + wanted as usize;
            i = i + 1;
        }
        Ok(CorpusShard { vocab_size, mask_token, documents })
    }
}

/// A byte count as a machine word, or the largest one where it does not fit.
fn saturating_bytes(count: u128) -> (bytes: usize)
    ensures
        bytes == saturated(count as nat),
{
    if count <= usize::MAX as u128 {
        count as usize
    } else {
        usize::MAX
    }
}

/// The word eight bytes after `start`, if the bytes reach that far.
fn after_eight(bytes: &[u8], start: usize) -> (x: Option<u32>)
    requires
        start <= bytes@.len(),
    ensures
        x is Some <==> start + 12 <= bytes@.len(),
        x is Some ==> x->0 == crate::bytes::word(bytes@, start + 8),
{
    if bytes.len() - start < 12 {
        None
    } else {
        get_u32(bytes, start + 8)
    }
}

/// Append the bytes of `tokens`.
pub fn put_tokens(out: &mut Vec<u8>, tokens: &[u32])
    ensures
        final(out)@ == old(out)@ + token_bytes(tokens@),
{
    let ghost before = out@;
    proof {
        assert(out@ =~= before + token_bytes(tokens@.take(0)));
    }
    let mut i: usize = 0;
    while i < tokens.len()
        invariant
            i <= tokens@.len(),
            out@ == before + token_bytes(tokens@.take(i as int)),
        decreases tokens.len() - i,
    {
        let ghost now = out@;
        put_u32(out, tokens[i]);
        proof {
            assert(tokens@.take(i + 1).drop_last() =~= tokens@.take(i as int));
            assert(out@ =~= before + token_bytes(tokens@.take(i + 1)));
        }
        i = i + 1;
    }
    proof {
        assert(tokens@.take(i as int) =~= tokens@);
    }
}

/// The `count` words from `at` on.
pub fn get_tokens(bytes: &[u8], at: usize, count: usize) -> (tokens: Vec<u32>)
    requires
        at + 4 * count <= bytes@.len(),
    ensures
        tokens@ == Seq::new(count as nat, |j: int| crate::bytes::word(bytes@, at + 4 * j)),
{
    let total: usize = bytes.len();
    let mut tokens: Vec<u32> = Vec::new();
    let mut j: usize = 0;
    while j < count
        invariant
            j <= count,
            total == bytes@.len(),
            at + 4 * count <= bytes@.len(),
            tokens@ == Seq::new(j as nat, |j: int| crate::bytes::word(bytes@, at + 4 * j)),
        decreases count - j,
    {
        match get_u32(bytes, at + 4 * j) {
            Some(token) => {
                tokens.push(token);
            },
            None => {},
        }
        proof {
            assert(tokens@ =~= Seq::new(
                (j + 1) as nat,
                |j: int| crate::bytes::word(bytes@, at + 4 * j),
            ));
        }
        j = j + 1;
    }
    tokens
}

proof fn lemma_token_count_grows(documents: Seq<Document>, low: nat, high: nat)
    requires
        low <= high,
    ensures
        token_count(documents, low) <= token_count(documents, high),
    decreases high,
{
    if low < high {
        lemma_token_count_grows(documents, low, (high - 1) as nat);
    }
}

/// A shard that was read claims no more than the bytes it was read from hold.
pub proof fn law_a_read_shard_is_bounded(bytes: Seq<u8>, model_vocab: Option<u32>, i: nat)
    requires
        shard_fault(bytes, model_vocab) is None,
        i < crate::bytes::wide_word(bytes, 20),
    ensures
        28 + 12 * crate::bytes::wide_word(bytes, 20) <= bytes.len(),
        document_start(bytes, i) + 12 + 4 * document_at(bytes, i).1.len() <= bytes.len(),
{
    let count = crate::bytes::wide_word(bytes, 20) as nat;
    if documents_fault(bytes, (i + 1) as nat) is Some {
        lemma_fault_stays(bytes, (i + 1) as nat, count);
    }
}

proof fn lemma_token_bytes(tokens: Seq<u32>, j: int)
    requires
        0 <= j < tokens.len(),
    ensures
        token_bytes(tokens).len() == 4 * tokens.len(),
        crate::bytes::word(token_bytes(tokens), 4 * j) == tokens[j],
    decreases tokens.len(),
{
    let rest = tokens.drop_last();
    let head = token_bytes(rest);
    lemma_token_bytes_len(rest);
    lemma_token_bytes_len(tokens);
    if j < rest.len() {
        lemma_token_bytes(rest, j);
        let whole = token_bytes(tokens);
        assert(head =~= whole.subrange(0, head.len() as int));
        crate::bytes::lemma_word_of_part(whole, head, 0, 4 * j);
    } else {
        let last = tokens.last();
        crate::bytes::lemma_widths(last, 0);
        crate::bytes::law_word_round_trip(head, last, Seq::empty());
        assert(head + crate::bytes::le_bytes(last) + Seq::<u8>::empty() =~= token_bytes(tokens));
    }
}

/// Every token takes four bytes.
pub proof fn lemma_token_bytes_len(tokens: Seq<u32>)
    ensures
        token_bytes(tokens).len() == 4 * tokens.len(),
    decreases tokens.len(),
{
    if tokens.len() > 0 {
        crate::bytes::lemma_widths(tokens.last(), 0);
        lemma_token_bytes_len(tokens.drop_last());
    }
}

/// Words written one after the other are read back in order.
pub proof fn lemma_token_at(bytes: Seq<u8>, at: int, tokens: Seq<u32>, j: int)
    requires
        0 <= at,
        0 <= j < tokens.len(),
        at + 4 * tokens.len() <= bytes.len(),
        bytes.subrange(at, at + 4 * tokens.len()) == token_bytes(tokens),
    ensures
        crate::bytes::word(bytes, at + 4 * j) == tokens[j],
{
    lemma_token_bytes(tokens, j);
    crate::bytes::lemma_word_of_part(bytes, token_bytes(tokens), at, 4 * j);
}

proof fn lemma_documents_prefix(documents: Seq<(u64, Seq<u32>)>, i: int)
    requires
        0 <= i <= documents.len(),
    ensures
        documents_bytes(documents.take(i)).len() <= documents_bytes(documents).len(),
        documents_bytes(documents).take(documents_bytes(documents.take(i)).len() as int)
            == documents_bytes(documents.take(i)),
    decreases documents.len() - i,
{
    if i == documents.len() {
        assert(documents.take(i) =~= documents);
        assert(documents_bytes(documents).take(documents_bytes(documents).len() as int)
            =~= documents_bytes(documents));
    } else {
        lemma_documents_prefix(documents, i + 1);
        assert(documents.take(i + 1).drop_last() =~= documents.take(i));
        let all = documents_bytes(documents);
        let longer = documents_bytes(documents.take(i + 1));
        let shorter = documents_bytes(documents.take(i));
        assert(longer.take(shorter.len() as int) =~= shorter);
        assert(all.take(shorter.len() as int) =~= all.take(longer.len() as int).take(
            shorter.len() as int,
        ));
    }
}

/// What the bytes of one document spell.
proof fn lemma_document_reads(id: u64, tokens: Seq<u32>)
    requires
        tokens.len() <= u32::MAX,
    ensures
        ({
            let piece = document_bytes((id, tokens));
            &&& piece.len() == 12 + 4 * tokens.len()
            &&& crate::bytes::wide_word(piece, 0) == id
            &&& crate::bytes::word(piece, 8) == tokens.len()
            &&& piece.subrange(12, 12int + 4 * tokens.len()) == token_bytes(tokens)
        }),
{
    let piece = document_bytes((id, tokens));
    let wide = crate::bytes::le_bytes_wide(id);
    let length = crate::bytes::le_bytes(tokens.len() as u32);
    let words = token_bytes(tokens);
    let none = Seq::<u8>::empty();
    crate::bytes::lemma_widths(tokens.len() as u32, id);
    lemma_token_bytes_len(tokens);
    assert(none + wide + (length + words) =~= piece);
    crate::bytes::law_wide_word_round_trip(none, id, length + words);
    assert(wide + length + words =~= piece);
    crate::bytes::law_word_round_trip(wide, tokens.len() as u32, words);
    assert(piece.subrange(12, 12int + 4 * tokens.len()) =~= words);
}

/// The bytes of document `i` stand after those of the documents before it.
proof fn lemma_document_stands(
    bytes: Seq<u8>,
    header: Seq<u8>,
    documents: Seq<(u64, Seq<u32>)>,
    i: int,
)
    requires
        bytes == header + documents_bytes(documents),
        0 <= i < documents.len(),
    ensures
        ({
            let start = header.len() + documents_bytes(documents.take(i)).len();
            let piece = document_bytes(documents[i]);
            &&& start + piece.len() <= bytes.len()
            &&& bytes.subrange(start as int, (start + piece.len()) as int) == piece
            &&& documents_bytes(documents.take(i + 1)).len() + header.len() == start + piece.len()
        }),
{
    lemma_documents_prefix(documents, i + 1);
    assert(documents.take(i + 1).drop_last() =~= documents.take(i));
    assert(documents.take(i + 1).last() == documents[i]);
    let before = documents_bytes(documents.take(i));
    let piece = document_bytes(documents[i]);
    let all = documents_bytes(documents);
    let start = header.len() + before.len();
    let placed = all.take((before + piece).len() as int);
    assert(placed == before + piece);
    assert forall|j: int| 0 <= j < piece.len() implies bytes[start + j] == piece[j] by {
        assert(all[before.len() + j] == placed[before.len() + j]);
    }
    assert(bytes.subrange(start as int, (start + piece.len()) as int) =~= piece);
}

/// Document `i` is found where a reader looks for it.
proof fn lemma_document_placed(
    bytes: Seq<u8>,
    header: Seq<u8>,
    documents: Seq<(u64, Seq<u32>)>,
    i: int,
)
    requires
        header.len() == 28,
        bytes == header + documents_bytes(documents),
        0 <= i < documents.len(),
        documents[i].1.len() <= u32::MAX,
        document_start(bytes, i as nat) == 28 + documents_bytes(documents.take(i)).len(),
    ensures
        document_at(bytes, i as nat) == documents[i],
        document_fault(bytes, i as nat) is None,
        document_start(bytes, (i + 1) as nat) == 28 + documents_bytes(
            documents.take(i + 1),
        ).len(),
        documents_bytes(documents.take(i + 1)).len() >= 12 + documents_bytes(
            documents.take(i),
        ).len(),
{
    let (id, tokens) = documents[i];
    let start = document_start(bytes, i as nat);
    let piece = document_bytes(documents[i]);
    lemma_document_stands(bytes, header, documents, i);
    lemma_document_reads(id, tokens);
    crate::bytes::lemma_word_of_part(bytes, piece, start, 0);
    crate::bytes::lemma_word_of_part(bytes, piece, start, 4);
    crate::bytes::lemma_word_of_part(bytes, piece, start, 8);
    let words = token_bytes(tokens);
    assert(bytes.subrange(start + 12, start + 12 + 4 * tokens.len()) =~= words) by {
        assert forall|j: int| 0 <= j < words.len() implies bytes[start + 12 + j] == words[j] by {
            assert(bytes.subrange(start, start + piece.len())[12 + j] == piece[12 + j]);
            assert(piece.subrange(12, 12int + 4 * tokens.len())[j] == piece[12 + j]);
        }
        lemma_token_bytes_len(tokens);
    }
    assert forall|j: int| 0 <= j < tokens.len() implies #[trigger] document_at(
        bytes,
        i as nat,
    ).1[j] == tokens[j] by {
        lemma_token_at(bytes, start + 12, tokens, j);
    }
    assert(document_at(bytes, i as nat).1 =~= tokens);
}

proof fn lemma_documents_placed(
    bytes: Seq<u8>,
    header: Seq<u8>,
    documents: Seq<(u64, Seq<u32>)>,
    upto: int,
)
    requires
        header.len() == 28,
        bytes == header + documents_bytes(documents),
        0 <= upto <= documents.len(),
        forall|k: int| 0 <= k < documents.len() ==> (#[trigger] documents[k]).1.len() <= u32::MAX,
    ensures
        document_start(bytes, upto as nat) == 28 + documents_bytes(documents.take(upto)).len(),
        documents_bytes(documents.take(upto)).len() >= 12 * upto,
        documents_fault(bytes, upto as nat) is None,
        documents_at(bytes, upto as nat) == documents.take(upto),
    decreases upto,
{
    if upto == 0 {
        assert(documents.take(0) =~= Seq::empty());
        assert(documents_at(bytes, 0) =~= documents.take(0));
    } else {
        let i = upto - 1;
        lemma_documents_placed(bytes, header, documents, i);
        lemma_document_placed(bytes, header, documents, i);
        assert(documents.take(upto).drop_last() =~= documents.take(i));
        assert forall|j: int| 0 <= j < upto implies #[trigger] documents_at(bytes, upto as nat)[j]
            == documents.take(upto)[j] by {
            if j < i {
                assert(documents_at(bytes, i as nat)[j] == documents.take(i)[j]);
            }
        }
        assert(documents_at(bytes, upto as nat) =~= documents.take(upto));
    }
}

/// What is written is read back: the vocabulary, the mask token and every
/// document, by any model wide enough for the vocabulary.
pub proof fn law_shard_round_trip(
    vocab_size: u32,
    mask_token: u32,
    documents: Seq<(u64, Seq<u32>)>,
    model_vocab: Option<u32>,
)
    requires
        documents.len() <= u64::MAX,
        forall|k: int| 0 <= k < documents.len() ==> (#[trigger] documents[k]).1.len() <= u32::MAX,
        model_vocab matches Some(model) ==> vocab_size <= model,
    ensures
        ({
            let bytes = shard_bytes(vocab_size, mask_token, documents);
            &&& shard_fault(bytes, model_vocab) is None
            &&& crate::bytes::word(bytes, 12) == vocab_size
            &&& crate::bytes::word(bytes, 16) == mask_token
            &&& crate::bytes::wide_word(bytes, 20) == documents.len()
            &&& documents_at(bytes, documents.len()) == documents
        }),
{
    let bytes = shard_bytes(vocab_size, mask_token, documents);
    let header = header_bytes(vocab_size, mask_token, documents.len() as u64);
    lemma_header_reads(vocab_size, mask_token, documents.len() as u64, documents_bytes(documents));
    lemma_documents_placed(bytes, header, documents, documents.len() as int);
    assert(documents.take(documents.len() as int) =~= documents);
}

/// What the bytes of a header spell, whatever follows them.
proof fn lemma_header_reads(vocab_size: u32, mask_token: u32, count: u64, tail: Seq<u8>)
    ensures
        ({
            let header = header_bytes(vocab_size, mask_token, count);
            let bytes = header + tail;
            &&& header.len() == 28
            &&& crate::bytes::starts(bytes, magic())
            &&& crate::bytes::word(bytes, 8) == VERSION
            &&& crate::bytes::word(bytes, 12) == vocab_size
            &&& crate::bytes::word(bytes, 16) == mask_token
            &&& crate::bytes::wide_word(bytes, 20) == count
        }),
{
    let bytes = header_bytes(vocab_size, mask_token, count) + tail;
    let tag = magic();
    let version = crate::bytes::le_bytes(VERSION);
    let vocab = crate::bytes::le_bytes(vocab_size);
    let mask = crate::bytes::le_bytes(mask_token);
    let wide = crate::bytes::le_bytes_wide(count);
    crate::bytes::lemma_widths(VERSION, count);
    crate::bytes::lemma_widths(vocab_size, count);
    crate::bytes::lemma_widths(mask_token, count);
    assert(tag.len() == 8);
    assert(crate::bytes::starts(bytes, tag)) by {
        assert(bytes.take(8) =~= tag);
    }
    assert(crate::bytes::word(bytes, 8) == VERSION) by {
        crate::bytes::law_word_round_trip(tag, VERSION, vocab + mask + wide + tail);
        assert(tag + version + (vocab + mask + wide + tail) =~= bytes);
    }
    assert(crate::bytes::word(bytes, 12) == vocab_size) by {
        crate::bytes::law_word_round_trip(tag + version, vocab_size, mask + wide + tail);
        assert((tag + version) + vocab + (mask + wide + tail) =~= bytes);
    }
    assert(crate::bytes::word(bytes, 16) == mask_token) by {
        crate::bytes::law_word_round_trip(tag + version + vocab, mask_token, wide + tail);
        assert((tag + version + vocab) + mask + (wide + tail) =~= bytes);
    }
    assert(crate::bytes::wide_word(bytes, 20) == count) by {
        crate::bytes::law_wide_word_round_trip(tag + version + vocab + mask, count, tail);
        assert((tag + version + vocab + mask) + wide + tail =~= bytes);
    }
}

/// A shard whose vocabulary is wider than the model is never accepted.
pub proof fn law_a_wider_shard_is_rejected(
    vocab_size: u32,
    mask_token: u32,
    documents: Seq<(u64, Seq<u32>)>,
    model: u32,
)
    requires
        documents.len() <= u64::MAX,
        forall|k: int| 0 <= k < documents.len() ==> (#[trigger] documents[k]).1.len() <= u32::MAX,
        vocab_size > model,
    ensures
        shard_fault(shard_bytes(vocab_size, mask_token, documents), Some(model)) == Some(
            ShardError::VocabTooLarge { shard: vocab_size, model },
        ),
{
    law_shard_round_trip(vocab_size, mask_token, documents, None);
}

/// Which shard a document belongs to.
#[derive(Clone, Copy, Debug, PartialEq, Eq, Structural, Hash)]
pub enum Split {
    /// The retrofit trains on these.
    Train,
    /// These are what retrieval can find.
    Index,
    /// Held out for the evaluation protocol.
    Eval,
}

/// The hash a document's split is taken from.
pub open spec fn split_hash(id: u64) -> u64 {
    let a = id ^ 0x9E37_79B9_7F4A_7C15;
    let b = (a ^ (a >> 33)).wrapping_mul(0xFF51_AFD7_ED55_8CCD);
    b ^ (b >> 33)
}

/// The split that the hash of `id` falls in, under these weights.
pub open spec fn split_for(id: u64, train: nat, index: nat, eval: nat) -> Split {
    let bucket = split_hash(id) as nat % (train + index + eval);
    if bucket < train {
        Split::Train
    } else if bucket < train + index {
        Split::Index
    } else {
        Split::Eval
    }
}

/// Assign a document to a split by its id.
///
/// Deterministic and content-independent: the same article lands in the same
/// split on every machine and every rerun, which is what makes a leakage
/// audit reproducible. Hashing the id rather than taking `id % 3` avoids
/// inheriting whatever structure the source's numbering has: Wikipedia article
/// ids are allocated chronologically, so a modulus would correlate splits with
/// article age.
pub fn split_of(id: DocumentId, train: u32, index: u32, eval: u32) -> (split: Split)
    requires
        0 < train + index + eval <= u32::MAX,
    ensures
        split == split_for(id.0, train as nat, index as nat, eval as nat),
{
    let total: u32 = train + index + eval;
    let mut h: u64 = id.0 ^ 0x9E37_79B9_7F4A_7C15;
    h = h ^ (h >> 33);
    h = h.wrapping_mul(0xFF51_AFD7_ED55_8CCD);
    h = h ^ (h >> 33);
    let bucket: u32 = (h % (total as u64)) as u32;
    if bucket < train {
        Split::Train
    } else if bucket < train + index {
        Split::Index
    } else {
        Split::Eval
    }
}

/// A split of weight zero gets no document, and one that has all the weight
/// gets every document.
pub proof fn law_splits_follow_their_weights(id: u64, train: nat, index: nat, eval: nat)
    requires
        train + index + eval > 0,
    ensures
        train == 0 ==> split_for(id, train, index, eval) != Split::Train,
        index == 0 ==> split_for(id, train, index, eval) != Split::Index,
        eval == 0 ==> split_for(id, train, index, eval) != Split::Eval,
        index == 0 && eval == 0 ==> split_for(id, train, index, eval) == Split::Train,
        train == 0 && eval == 0 ==> split_for(id, train, index, eval) == Split::Index,
        train == 0 && index == 0 ==> split_for(id, train, index, eval) == Split::Eval,
{
    let total = (train + index + eval) as int;
    let h = split_hash(id) as int;
    assert(0 <= h % total < total) by (nonlinear_arith)
        requires
            total > 0,
    ;
}

/// A shard begins with eight letters, the version, the vocabulary, the mask token
/// and the number of documents.
pub proof fn law_a_shard_begins_with_its_header(
    vocab_size: u32,
    mask_token: u32,
    documents: Seq<(u64, Seq<u32>)>,
)
    requires
        documents.len() <= u64::MAX,
    ensures
        ({
            let bytes = shard_bytes(vocab_size, mask_token, documents);
            &&& bytes.take(8) == seq![0x41u8, 0x4E, 0x41, 0x50, 0x48, 0x52, 0x41, 0x31]
            &&& crate::bytes::word(bytes, 8) == 1
            &&& crate::bytes::word(bytes, 12) == vocab_size
            &&& crate::bytes::word(bytes, 16) == mask_token
            &&& crate::bytes::wide_word(bytes, 20) == documents.len()
            &&& bytes.skip(28) == documents_bytes(documents)
        }),
{
    let rest = documents_bytes(documents);
    let header = header_bytes(vocab_size, mask_token, documents.len() as u64);
    lemma_header_reads(vocab_size, mask_token, documents.len() as u64, rest);
    assert((header + rest).skip(28) =~= rest);
    assert(magic() =~= seq![0x41u8, 0x4E, 0x41, 0x50, 0x48, 0x52, 0x41, 0x31]);
}

/// Documents stand one after the other.
pub proof fn law_documents_stand_one_after_the_other(
    a: Seq<(u64, Seq<u32>)>,
    b: Seq<(u64, Seq<u32>)>,
)
    ensures
        documents_bytes(a + b) == documents_bytes(a) + documents_bytes(b),
    decreases b.len(),
{
    if b.len() == 0 {
        assert(a + b =~= a);
        assert(documents_bytes(a) + documents_bytes(b) =~= documents_bytes(a));
    } else {
        law_documents_stand_one_after_the_other(a, b.drop_last());
        assert((a + b).drop_last() =~= a + b.drop_last());
        assert((a + b).last() == b.last());
        assert(documents_bytes(a) + documents_bytes(b) =~= (documents_bytes(a) + documents_bytes(
            b.drop_last(),
        )) + document_bytes(b.last()));
    }
}

/// A document is stored as its id, its length, and its tokens in order.
pub proof fn law_a_document_is_its_id_its_length_and_its_tokens(
    id: u64,
    tokens: Seq<u32>,
    j: int,
)
    requires
        tokens.len() <= u32::MAX,
        0 <= j < tokens.len(),
    ensures
        ({
            let bytes = documents_bytes(seq![(id, tokens)]);
            &&& bytes.len() == 12 + 4 * tokens.len()
            &&& crate::bytes::wide_word(bytes, 0) == id
            &&& crate::bytes::word(bytes, 8) == tokens.len()
            &&& crate::bytes::word(bytes, 12 + 4 * j) == tokens[j]
        }),
{
    let one = seq![(id, tokens)];
    let piece = document_bytes((id, tokens));
    assert(one.drop_last() =~= Seq::empty());
    assert(documents_bytes(one.drop_last()) =~= Seq::empty());
    assert(documents_bytes(one) =~= piece);
    lemma_document_reads(id, tokens);
    lemma_token_at(piece, 12, tokens, j);
}

/// What is not a shard is refused: other letters, another version, or a header
/// that is cut.
pub proof fn law_what_is_not_a_shard_is_refused(bytes: Seq<u8>, model_vocab: Option<u32>)
    ensures
        bytes.len() < 28 ==> shard_fault(bytes, model_vocab) is Some,
        bytes.len() >= 8 && bytes.take(8) != seq![
            0x41u8,
            0x4E,
            0x41,
            0x50,
            0x48,
            0x52,
            0x41,
            0x31,
        ] ==> shard_fault(bytes, model_vocab) == Some(ShardError::NotAShard),
        bytes.len() >= 12 && crate::bytes::word(bytes, 8) != 1 ==> shard_fault(bytes, model_vocab)
            is Some,
        bytes.len() >= 28 && (model_vocab matches Some(model) && crate::bytes::word(bytes, 12)
            > model) ==> shard_fault(bytes, model_vocab) is Some,
{
    assert(magic() =~= seq![0x41u8, 0x4E, 0x41, 0x50, 0x48, 0x52, 0x41, 0x31]);
}

/// Which split a document falls in is told by a hash of its id alone: the id is
/// mixed with a fixed word, folded over its own upper part, multiplied, modulo
/// `2^64`, and folded again; of every so many hashes in a row as the weights make
/// together, the first go to training, the next to the index, and the last to the
/// evaluation, as many as each weighs.
pub proof fn law_a_split_is_told_by_the_hash_of_the_id(id: u64, train: nat, index: nat, eval: nat)
    requires
        train + index + eval > 0,
    ensures
        ({
            let a = id ^ 0x9E37_79B9_7F4A_7C15;
            let b = (((a ^ (a / 0x2_0000_0000)) * 0xFF51_AFD7_ED55_8CCDu64)
                % 0x1_0000_0000_0000_0000) as u64;
            let place = (b ^ (b / 0x2_0000_0000)) as int % (train + index + eval) as int;
            let split = split_for(id, train, index, eval);
            &&& split == Split::Train <==> place < train
            &&& split == Split::Index <==> train <= place < train + index
            &&& split == Split::Eval <==> train + index <= place
        }),
{
    let a = id ^ 0x9E37_79B9_7F4A_7C15;
    let b = (a ^ (a >> 33)).wrapping_mul(0xFF51_AFD7_ED55_8CCD);
    assert(a >> 33 == a / 0x2_0000_0000) by (bit_vector);
    assert(b >> 33 == b / 0x2_0000_0000) by (bit_vector);
}

/// The tokens of a shard are those of its documents together.
pub proof fn law_tokens_are_counted_document_by_document(documents: Seq<Document>, upto: nat)
    requires
        0 < upto <= documents.len(),
    ensures
        token_count(documents, 0) == 0,
        token_count(documents, upto) - token_count(documents, (upto - 1) as nat)
            == documents[upto - 1].tokens@.len(),
{
}

/// A message names every number of its error under that number's own label.
pub proof fn law_a_message_names_what_it_is_about(e: ShardError)
    ensures
        ({
            let text = shard_error_chars(e);
            match e {
                ShardError::Version(v) => crate::text::names(
                    text,
                    "unsupported shard version "@,
                    v as nat,
                ),
                ShardError::VocabTooLarge { shard, model } => {
                    &&& crate::text::names(text, "shard was tokenized against a "@, shard as nat)
                    &&& crate::text::names(
                        text,
                        "-token vocabulary but the model's embedding table holds "@,
                        model as nat,
                    )
                },
                ShardError::Truncated { wanted, available } => {
                    &&& crate::text::names(text, "shard claims "@, wanted as nat)
                    &&& crate::text::names(text, " more bytes but only "@, available as nat)
                },
                _ => true,
            }
        }),
{
    let none = Seq::<char>::empty();
    let text = shard_error_chars(e);
    match e {
        ShardError::Version(v) => {
            crate::text::lemma_holds(none, text, none);
            assert(none + text + none =~= text);
        },
        ShardError::VocabTooLarge { shard, model } => {
            crate::text::lemma_names_two(
                "shard was tokenized against a "@,
                shard as nat,
                "-token vocabulary but the model's embedding table holds "@,
                model as nat,
                "; token ids beyond it would index out of range"@,
            );
        },
        ShardError::Truncated { wanted, available } => {
            crate::text::lemma_names_two(
                "shard claims "@,
                wanted as nat,
                " more bytes but only "@,
                available as nat,
                " remain"@,
            );
        },
        _ => {},
    }
}

} // verus!
