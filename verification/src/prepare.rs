//! Ingest: which articles become documents, and in which shard each lands.
//!
//! Reading a dump and writing shards is the program's business. What it does
//! with an article once it has one is decided here. The split is by article
//! id, so it is identical on every machine and every rerun, which is what lets
//! a leakage audit be reproduced rather than merely repeated.
use crate::corpus::Document;
use crate::hash::fnv1a;
use crate::number::parse_u64;
use crate::retrieval::corpus::DocumentId;
use crate::shard::{split_of, CorpusShard, Split};
use crate::text::same;
use crate::tokenizer::encode_article;
use vstd::prelude::*;
use vstd::string::*;

verus! {

/// The id of an article whose id is spelled `raw`: the number it spells, or
/// else a hash of its bytes with the top bit set.
pub open spec fn id_number(raw: Seq<char>) -> u64 {
    let bytes = vstd::utf8::encode_utf8(raw);
    match crate::number::number_in(bytes, 10, u64::MAX as nat) {
        Some(n) => n as u64,
        None => crate::hash::fnv_from(crate::hash::FNV_OFFSET, bytes) | 0x8000_0000_0000_0000,
    }
}

/// The document id of an article.
///
/// Wikipedia ships article ids as strings. They are numeric in practice, but
/// a non-numeric one must still get a stable id rather than abort the run or,
/// worse, collide with a real article.
pub fn document_id(raw: &str) -> (id: DocumentId)
    ensures
        id == DocumentId(id_number(raw@)),
{
    match parse_u64(raw, u64::MAX) {
        Some(n) => DocumentId(n),
        // Set the top bit so a hashed id can never collide with a parsed one,
        // which are small and sequential.
        None => DocumentId(fnv1a(raw.as_bytes()) | 0x8000_0000_0000_0000),
    }
}

/// An id that spells no number never collides with one that spells a number
/// below two to the sixty-third.
pub proof fn law_hashed_ids_stay_clear_of_small_numbers(raw: Seq<char>, other: Seq<char>)
    requires
        crate::number::number_in(vstd::utf8::encode_utf8(raw), 10, u64::MAX as nat) is None,
        crate::number::number_in(vstd::utf8::encode_utf8(other), 10, u64::MAX as nat) matches Some(
            n,
        ) && n < 0x8000_0000_0000_0000,
    ensures
        id_number(raw) != id_number(other),
{
    let h = crate::hash::fnv_from(crate::hash::FNV_OFFSET, vstd::utf8::encode_utf8(raw));
    assert(h | 0x8000_0000_0000_0000u64 >= 0x8000_0000_0000_0000u64) by (bit_vector);
}

/// What to do with the next article.
#[derive(Clone, Copy, Debug, PartialEq, Eq, Structural)]
pub enum Admission {
    /// Pass over it: its id or its text is missing.
    Skip,
    /// Tokenize it.
    Take,
    /// Read no further.
    Stop,
}

/// The options that decide what ingest keeps.
#[derive(Clone, Copy, Debug, PartialEq, Eq, Structural)]
pub struct IngestOptions {
    /// Split weight of the training shard.
    pub train: u32,
    /// Split weight of the index shard.
    pub index: u32,
    /// Split weight of the evaluation shard.
    pub eval: u32,
    /// How many articles to read at most.
    pub limit: Option<usize>,
    /// Articles with fewer tokens are dropped.
    pub min_tokens: usize,
}

impl IngestOptions {
    /// The weights add up, and not to nothing.
    pub open spec fn wf(self) -> bool {
        0 < self.train + self.index + self.eval <= u32::MAX
    }

    /// The split of an article.
    pub open spec fn split(self, id: u64) -> Split {
        crate::shard::split_for(id, self.train as nat, self.index as nat, self.eval as nat)
    }
}

/// What ingest has seen and kept so far.
pub struct IngestState {
    /// Articles read.
    pub seen: nat,
    /// Articles kept.
    pub kept: nat,
    /// Articles dropped for being short.
    pub short: nat,
    /// Ids and tokens of the training documents.
    pub train: Seq<(u64, Seq<u32>)>,
    /// Ids and tokens of the index documents.
    pub index: Seq<(u64, Seq<u32>)>,
    /// Ids and tokens of the evaluation documents.
    pub eval: Seq<(u64, Seq<u32>)>,
}

/// Whether these documents are all of this split, and long enough.
pub open spec fn all_of(
    documents: Seq<(u64, Seq<u32>)>,
    options: IngestOptions,
    split: Split,
) -> bool {
    forall|i: int|
        0 <= i < documents.len() ==> options.split((#[trigger] documents[i]).0) == split
            && documents[i].1.len() >= options.min_tokens
}

/// No article is in two shards.
pub proof fn law_shards_share_no_article(state: IngestState, options: IngestOptions, i: int, j: int)
    requires
        state.sorted(options),
    ensures
        0 <= i < state.train.len() && 0 <= j < state.index.len() ==> state.train[i].0
            != state.index[j].0,
        0 <= i < state.train.len() && 0 <= j < state.eval.len() ==> state.train[i].0
            != state.eval[j].0,
        0 <= i < state.index.len() && 0 <= j < state.eval.len() ==> state.index[i].0
            != state.eval[j].0,
{
}

impl IngestState {
    /// One more article read.
    pub open spec fn read(self) -> IngestState {
        IngestState { seen: self.seen + 1, ..self }
    }

    /// Every document is in the shard of its split, is long enough, and is
    /// counted once.
    pub open spec fn sorted(self, options: IngestOptions) -> bool {
        &&& self.kept == self.train.len() + self.index.len() + self.eval.len()
        &&& all_of(self.train, options, Split::Train)
        &&& all_of(self.index, options, Split::Index)
        &&& all_of(self.eval, options, Split::Eval)
    }

    /// What becomes of an article of these tokens: dropped where they are too
    /// few, and else appended to its split.
    pub open spec fn given(self, options: IngestOptions, id: u64, tokens: Seq<u32>) -> IngestState {
        if tokens.len() < options.min_tokens {
            IngestState { short: self.short + 1, ..self }
        } else {
            let kept = self.kept + 1;
            match options.split(id) {
                Split::Train => IngestState { kept, train: self.train.push((id, tokens)), ..self },
                Split::Index => IngestState { kept, index: self.index.push((id, tokens)), ..self },
                Split::Eval => IngestState { kept, eval: self.eval.push((id, tokens)), ..self },
            }
        }
    }
}

/// The state of an ingest run.
#[derive(Clone, Debug)]
pub struct Ingest {
    options: IngestOptions,
    seen: usize,
    kept: usize,
    short: usize,
    train: Vec<Document>,
    index: Vec<Document>,
    eval: Vec<Document>,
}

proof fn lemma_contents_push(documents: Seq<Document>, document: Document)
    ensures
        crate::shard::all_contents(documents.push(document)) == crate::shard::all_contents(
            documents,
        ).push(crate::shard::contents(document)),
{
    let before = crate::shard::all_contents(documents);
    let after = crate::shard::all_contents(documents.push(document));
    assert(after =~= before.push(crate::shard::contents(document)));
}

impl View for Ingest {
    type V = IngestState;

    closed spec fn view(&self) -> IngestState {
        IngestState {
            seen: self.seen as nat,
            kept: self.kept as nat,
            short: self.short as nat,
            train: crate::shard::all_contents(self.train@),
            index: crate::shard::all_contents(self.index@),
            eval: crate::shard::all_contents(self.eval@),
        }
    }
}

impl Ingest {
    /// The options of this run.
    pub closed spec fn choices(self) -> IngestOptions {
        self.options
    }

    /// The weights can be split by, every article counted as kept or dropped
    /// was read, and every document is in the shard of its split.
    pub open spec fn wf(self) -> bool {
        &&& self.choices().wf()
        &&& self@.kept + self@.short <= self@.seen <= usize::MAX
        &&& self@.sorted(self.choices())
    }

    /// Nothing read yet.
    pub fn new(options: IngestOptions) -> (ingest: Self)
        requires
            options.wf(),
        ensures
            ingest.wf(),
            ingest.choices() == options,
            ingest@ == (IngestState {
                seen: 0,
                kept: 0,
                short: 0,
                train: Seq::empty(),
                index: Seq::empty(),
                eval: Seq::empty(),
            }),
    {
        let ingest = Ingest {
            options,
            seen: 0,
            kept: 0,
            short: 0,
            train: Vec::new(),
            index: Vec::new(),
            eval: Vec::new(),
        };
        proof {
            assert(crate::shard::all_contents(Seq::<Document>::empty()) =~= Seq::empty());
        }
        ingest
    }

    /// Count the next article, and say what to do with it.
    ///
    /// An article without an id or a text is not counted.
    pub fn next(&mut self, whole: bool) -> (admission: Admission)
        requires
            old(self).wf(),
            old(self)@.seen < usize::MAX,
        ensures
            final(self).wf(),
            final(self).choices() == old(self).choices(),
            final(self)@ == if whole {
                old(self)@.read()
            } else {
                old(self)@
            },
            admission == if !whole {
                Admission::Skip
            } else if old(self).choices().limit matches Some(limit) && old(self)@.seen >= limit {
                Admission::Stop
            } else {
                Admission::Take
            },
    {
        if !whole {
            return Admission::Skip;
        }
        self.seen = self.seen + 1;
        match self.options.limit {
            Some(limit) => {
                if self.seen > limit {
                    Admission::Stop
                } else {
                    Admission::Take
                }
            },
            None => Admission::Take,
        }
    }

    /// Keep the tokens of the article read last, or drop it for being short.
    ///
    /// A document shorter than a training window contributes one mostly padded
    /// sequence, which costs a full forward pass to score a handful of
    /// positions.
    pub fn keep(&mut self, raw_id: &str, tokens: Vec<u32>)
        requires
            old(self).wf(),
            old(self)@.kept + old(self)@.short < old(self)@.seen,
        ensures
            final(self).wf(),
            final(self).choices() == old(self).choices(),
            final(self)@ == old(self)@.given(old(self).choices(), id_number(raw_id@), tokens@),
    {
        if tokens.len() < self.options.min_tokens {
            self.short = self.short + 1;
            return;
        }
        self.kept = self.kept + 1;
        let id: DocumentId = document_id(raw_id);
        let split: Split = split_of(id, self.options.train, self.options.index, self.options.eval);
        let document = Document { id, tokens };
        match split {
            Split::Train => {
                proof {
                    lemma_contents_push(self.train@, document);
                }
                self.train.push(document);
            },
            Split::Index => {
                proof {
                    lemma_contents_push(self.index@, document);
                }
                self.index.push(document);
            },
            Split::Eval => {
                proof {
                    lemma_contents_push(self.eval@, document);
                }
                self.eval.push(document);
            },
        }
    }

    /// Take in the next row of a dump, either column of which may be missing.
    ///
    /// Says whether to read on, or what the tokenizer made of an article it
    /// could not take.
    pub fn row(
        &mut self,
        tokenizer: &tokenizers::Tokenizer,
        raw_id: Option<&str>,
        text: Option<&str>,
    ) -> (read_on: Result<bool, String>)
        requires
            old(self).wf(),
            old(self)@.seen < usize::MAX,
        ensures
            final(self).wf(),
            final(self).choices() == old(self).choices(),
            !(raw_id is Some && text is Some) ==> read_on == Ok::<bool, String>(true)
                && final(self)@ == old(self)@,
            raw_id is Some && text is Some && (old(self).choices().limit matches Some(limit)
                && old(self)@.seen >= limit) ==> read_on == Ok::<bool, String>(false)
                && final(self)@ == old(self)@.read(),
            raw_id is Some && text is Some && !(old(self).choices().limit matches Some(limit)
                && old(self)@.seen >= limit) ==> exists|outcome: Result<Seq<u32>, Seq<char>>| #[trigger]
                crate::tokenizer::encoded(*tokenizer, text->0@, outcome) && match outcome {
                    Ok(tokens) => read_on == Ok::<bool, String>(true) && final(self)@ == old(
                        self,
                    )@.read().given(old(self).choices(), id_number(raw_id->0@), tokens),
                    Err(e) => read_on is Err && read_on->Err_0@ == "tokenizing article "@
                        + raw_id->0@ + ": "@ + e && final(self)@ == old(self)@.read(),
                },
    {
        match (raw_id, text) {
            (Some(raw_id), Some(text)) => match self.next(true) {
                Admission::Take => match encode_article(tokenizer, raw_id, text) {
                    Ok(tokens) => {
                        self.keep(raw_id, tokens);
                        Ok(true)
                    },
                    Err(message) => Err(message),
                },
                _ => Ok(false),
            },
            _ => {
                let _ = self.next(false);
                Ok(true)
            },
        }
    }

    /// Articles read, kept, and dropped for being short.
    pub fn counts(&self) -> (counts: (usize, usize, usize))
        ensures
            counts.0 == self@.seen,
            counts.1 == self@.kept,
            counts.2 == self@.short,
    {
        (self.seen, self.kept, self.short)
    }

    /// Whether to report progress after a batch of `rows` rows.
    pub fn reports(&self, rows: usize) -> (b: bool)
        ensures
            b == (self@.seen % 20_000 < rows),
    {
        self.seen % 20_000 < rows
    }

    /// The three shards, for a tokenizer of this vocabulary and mask token.
    pub fn finish(self, vocab_size: u32, mask_token: u32) -> (shards: (
        CorpusShard,
        CorpusShard,
        CorpusShard,
    ))
        ensures
            crate::shard::all_contents(shards.0.documents@) == self@.train,
            crate::shard::all_contents(shards.1.documents@) == self@.index,
            crate::shard::all_contents(shards.2.documents@) == self@.eval,
            shards.0.vocab_size == vocab_size && shards.0.mask_token == mask_token,
            shards.1.vocab_size == vocab_size && shards.1.mask_token == mask_token,
            shards.2.vocab_size == vocab_size && shards.2.mask_token == mask_token,
    {
        (
            CorpusShard { vocab_size, mask_token, documents: self.train },
            CorpusShard { vocab_size, mask_token, documents: self.index },
            CorpusShard { vocab_size, mask_token, documents: self.eval },
        )
    }
}

/// The command line of the ingest program.
#[derive(Clone, Debug)]
pub struct PrepareArgs {
    /// The dump.
    pub parquet: String,
    /// The tokenizer's file.
    pub tokenizer: String,
    /// Where the shards go.
    pub out: String,
    /// What to keep.
    pub options: IngestOptions,
}

/// A command line of the ingest program, as far as it has been read.
pub struct PrepareChoices {
    /// The dump.
    pub parquet: Option<Seq<char>>,
    /// The tokenizer's file.
    pub tokenizer: Option<Seq<char>>,
    /// Where the shards go.
    pub out: Option<Seq<char>>,
    /// What to keep.
    pub options: IngestOptions,
}

/// The number below or at `max` that an argument spells, if it spells one.
pub open spec fn number_at(value: Seq<char>, max: nat) -> Option<nat> {
    crate::number::number_in(vstd::utf8::encode_utf8(value), 10, max)
}

impl PrepareChoices {
    /// What stands before anything is read.
    pub open spec fn unread() -> PrepareChoices {
        PrepareChoices {
            parquet: None,
            tokenizer: None,
            out: None,
            options: IngestOptions { train: 8, index: 1, eval: 1, limit: None, min_tokens: 128 },
        }
    }

    /// What `flag` with `value` makes of the choices, if that is an option.
    pub open spec fn with(self, flag: Seq<char>, value: Seq<char>) -> Option<PrepareChoices> {
        if flag == "--parquet"@ {
            Some(PrepareChoices { parquet: Some(value), ..self })
        } else if flag == "--tokenizer"@ {
            Some(PrepareChoices { tokenizer: Some(value), ..self })
        } else if flag == "--out"@ {
            Some(PrepareChoices { out: Some(value), ..self })
        } else if flag == "--train"@ {
            match number_at(value, u32::MAX as nat) {
                Some(n) => Some(
                    PrepareChoices {
                        options: IngestOptions { train: n as u32, ..self.options },
                        ..self
                    },
                ),
                None => None,
            }
        } else if flag == "--index"@ {
            match number_at(value, u32::MAX as nat) {
                Some(n) => Some(
                    PrepareChoices {
                        options: IngestOptions { index: n as u32, ..self.options },
                        ..self
                    },
                ),
                None => None,
            }
        } else if flag == "--eval"@ {
            match number_at(value, u32::MAX as nat) {
                Some(n) => Some(
                    PrepareChoices {
                        options: IngestOptions { eval: n as u32, ..self.options },
                        ..self
                    },
                ),
                None => None,
            }
        } else if flag == "--limit"@ {
            match number_at(value, usize::MAX as nat) {
                Some(n) => Some(
                    PrepareChoices {
                        options: IngestOptions { limit: Some(n as usize), ..self.options },
                        ..self
                    },
                ),
                None => None,
            }
        } else if flag == "--min-tokens"@ {
            match number_at(value, usize::MAX as nat) {
                Some(n) => Some(
                    PrepareChoices {
                        options: IngestOptions { min_tokens: n as usize, ..self.options },
                        ..self
                    },
                ),
                None => None,
            }
        } else {
            None
        }
    }

    /// What the arguments make of the choices, flag by flag, if every one is an
    /// option with its value.
    pub open spec fn after(self, args: Seq<Seq<char>>) -> Option<PrepareChoices>
        decreases args.len(),
    {
        if args.len() == 0 {
            Some(self)
        } else if args.len() == 1 {
            None
        } else {
            match self.with(args[0], args[1]) {
                Some(next) => next.after(args.skip(2)),
                None => None,
            }
        }
    }
}

/// The texts of a list of arguments.
pub open spec fn argument_texts(args: Seq<String>) -> Seq<Seq<char>> {
    args.map_values(|arg: String| arg@)
}

/// The text of an optional argument.
pub open spec fn chosen_text(arg: Option<String>) -> Option<Seq<char>> {
    match arg {
        Some(text) => Some(text@),
        None => None,
    }
}

/// What has been read of a command line.
struct PrepareDraft {
    parquet: Option<String>,
    tokenizer: Option<String>,
    out: Option<String>,
    options: IngestOptions,
}

impl View for PrepareDraft {
    type V = PrepareChoices;

    closed spec fn view(&self) -> PrepareChoices {
        PrepareChoices {
            parquet: chosen_text(self.parquet),
            tokenizer: chosen_text(self.tokenizer),
            out: chosen_text(self.out),
            options: self.options,
        }
    }
}

impl PrepareDraft {
    /// Read `flag` with `value`, and say whether that is an option.
    fn set(&mut self, flag: &str, value: &str) -> (known: bool)
        ensures
            known <==> old(self)@.with(flag@, value@) is Some,
            known ==> final(self)@ == old(self)@.with(flag@, value@)->0,
    {
        if same(flag, "--parquet") {
            self.parquet = Some(String::from_str(value));
            return true;
        }
        if same(flag, "--tokenizer") {
            self.tokenizer = Some(String::from_str(value));
            return true;
        }
        if same(flag, "--out") {
            self.out = Some(String::from_str(value));
            return true;
        }
        let weight: Option<u64> = parse_u64(value, u32::MAX as u64);
        let count: Option<u64> = parse_u64(value, usize::MAX as u64);
        if same(flag, "--train") {
            if let Some(n) = weight {
                self.options.train = n as u32;
            }
            return weight.is_some();
        }
        if same(flag, "--index") {
            if let Some(n) = weight {
                self.options.index = n as u32;
            }
            return weight.is_some();
        }
        if same(flag, "--eval") {
            if let Some(n) = weight {
                self.options.eval = n as u32;
            }
            return weight.is_some();
        }
        if same(flag, "--limit") {
            if let Some(n) = count {
                self.options.limit = Some(n as usize);
            }
            return count.is_some();
        }
        if same(flag, "--min-tokens") {
            if let Some(n) = count {
                self.options.min_tokens = n as usize;
            }
            return count.is_some();
        }
        false
    }
}

impl PrepareArgs {
    /// What a command line asks for, its program name left out, or `None` where
    /// it cannot be understood.
    pub fn parse(args: &[String]) -> (parsed: Option<PrepareArgs>)
        ensures
            match PrepareChoices::unread().after(argument_texts(args@)) {
                Some(choices) => {
                    &&& parsed is Some <==> choices.parquet is Some && choices.tokenizer is Some
                        && choices.out is Some
                    &&& parsed is Some ==> parsed->0.parquet@ == choices.parquet->0
                        && parsed->0.tokenizer@ == choices.tokenizer->0 && parsed->0.out@
                        == choices.out->0 && parsed->0.options == choices.options
                },
                None => parsed is None,
            },
    {
        let mut draft = PrepareDraft {
            parquet: None,
            tokenizer: None,
            out: None,
            options: IngestOptions { train: 8, index: 1, eval: 1, limit: None, min_tokens: 128 },
        };
        let ghost texts = argument_texts(args@);
        proof {
            assert(texts.skip(0) =~= texts);
        }
        let mut i: usize = 0;
        while i < args.len()
            invariant
                i <= args@.len(),
                texts == argument_texts(args@),
                draft@.after(texts.skip(i as int)) == PrepareChoices::unread().after(texts),
            decreases args.len() - i,
        {
            if args.len() - i == 1 {
                return None;
            }
            proof {
                assert(texts.skip(i as int)[0] == args@[i as int]@);
                assert(texts.skip(i as int)[1] == args@[i + 1]@);
                assert(texts.skip(i as int).skip(2) =~= texts.skip(i + 2));
            }
            if !draft.set(args[i].as_str(), args[i + 1].as_str()) {
                return None;
            }
            i = i + 2;
        }
        match (draft.parquet, draft.tokenizer, draft.out) {
            (Some(parquet), Some(tokenizer), Some(out)) => Some(
                PrepareArgs { parquet, tokenizer, out, options: draft.options },
            ),
            _ => None,
        }
    }
}

/// No two options are spelled alike.
proof fn lemma_options_differ()
    ensures
        "--parquet"@ != "--tokenizer"@,
        "--parquet"@ != "--out"@,
        "--parquet"@ != "--train"@,
        "--parquet"@ != "--index"@,
        "--parquet"@ != "--eval"@,
        "--parquet"@ != "--limit"@,
        "--parquet"@ != "--min-tokens"@,
        "--tokenizer"@ != "--out"@,
        "--tokenizer"@ != "--train"@,
        "--tokenizer"@ != "--index"@,
        "--tokenizer"@ != "--eval"@,
        "--tokenizer"@ != "--limit"@,
        "--tokenizer"@ != "--min-tokens"@,
        "--out"@ != "--train"@,
        "--out"@ != "--index"@,
        "--out"@ != "--eval"@,
        "--out"@ != "--limit"@,
        "--out"@ != "--min-tokens"@,
        "--train"@ != "--index"@,
        "--train"@ != "--eval"@,
        "--train"@ != "--limit"@,
        "--train"@ != "--min-tokens"@,
        "--index"@ != "--eval"@,
        "--index"@ != "--limit"@,
        "--index"@ != "--min-tokens"@,
        "--eval"@ != "--limit"@,
        "--eval"@ != "--min-tokens"@,
        "--limit"@ != "--min-tokens"@,
{
    reveal_strlit("--parquet");
    reveal_strlit("--tokenizer");
    reveal_strlit("--out");
    reveal_strlit("--train");
    reveal_strlit("--index");
    reveal_strlit("--eval");
    reveal_strlit("--limit");
    reveal_strlit("--min-tokens");
    assert("--parquet"@.len() != "--tokenizer"@.len());
    assert("--parquet"@.len() != "--out"@.len());
    assert("--parquet"@.len() != "--train"@.len());
    assert("--parquet"@.len() != "--index"@.len());
    assert("--parquet"@.len() != "--eval"@.len());
    assert("--parquet"@.len() != "--limit"@.len());
    assert("--parquet"@.len() != "--min-tokens"@.len());
    assert("--tokenizer"@.len() != "--out"@.len());
    assert("--tokenizer"@.len() != "--train"@.len());
    assert("--tokenizer"@.len() != "--index"@.len());
    assert("--tokenizer"@.len() != "--eval"@.len());
    assert("--tokenizer"@.len() != "--limit"@.len());
    assert("--tokenizer"@.len() != "--min-tokens"@.len());
    assert("--out"@.len() != "--train"@.len());
    assert("--out"@.len() != "--index"@.len());
    assert("--out"@.len() != "--eval"@.len());
    assert("--out"@.len() != "--limit"@.len());
    assert("--out"@.len() != "--min-tokens"@.len());
    assert("--train"@[2] != "--index"@[2]);
    assert("--train"@.len() != "--eval"@.len());
    assert("--train"@[2] != "--limit"@[2]);
    assert("--train"@.len() != "--min-tokens"@.len());
    assert("--index"@.len() != "--eval"@.len());
    assert("--index"@[2] != "--limit"@[2]);
    assert("--index"@.len() != "--min-tokens"@.len());
    assert("--eval"@.len() != "--limit"@.len());
    assert("--eval"@.len() != "--min-tokens"@.len());
    assert("--limit"@.len() != "--min-tokens"@.len());
}

/// An option sets what it names and nothing else, and is refused where its value
/// is not the number it asks for.
pub proof fn law_an_option_sets_what_it_names(choices: PrepareChoices, value: Seq<char>)
    ensures
        choices.with("--parquet"@, value) == Some(PrepareChoices { parquet: Some(value), ..choices }),
        choices.with("--tokenizer"@, value) == Some(PrepareChoices { tokenizer: Some(value), ..choices }),
        choices.with("--out"@, value) == Some(PrepareChoices { out: Some(value), ..choices }),
        choices.with("--train"@, value) == match crate::number::number_in(
            vstd::utf8::encode_utf8(value),
            10,
            u32::MAX as nat,
        ) {
            Some(n) => Some(
                PrepareChoices {
                    options: IngestOptions { train: n as u32, ..choices.options },
                    ..choices
                },
            ),
            None => None,
        },
        choices.with("--index"@, value) == match crate::number::number_in(
            vstd::utf8::encode_utf8(value),
            10,
            u32::MAX as nat,
        ) {
            Some(n) => Some(
                PrepareChoices {
                    options: IngestOptions { index: n as u32, ..choices.options },
                    ..choices
                },
            ),
            None => None,
        },
        choices.with("--eval"@, value) == match crate::number::number_in(
            vstd::utf8::encode_utf8(value),
            10,
            u32::MAX as nat,
        ) {
            Some(n) => Some(
                PrepareChoices {
                    options: IngestOptions { eval: n as u32, ..choices.options },
                    ..choices
                },
            ),
            None => None,
        },
        choices.with("--limit"@, value) == match crate::number::number_in(
            vstd::utf8::encode_utf8(value),
            10,
            usize::MAX as nat,
        ) {
            Some(n) => Some(
                PrepareChoices {
                    options: IngestOptions { limit: Some(n as usize), ..choices.options },
                    ..choices
                },
            ),
            None => None,
        },
        choices.with("--min-tokens"@, value) == match crate::number::number_in(
            vstd::utf8::encode_utf8(value),
            10,
            usize::MAX as nat,
        ) {
            Some(n) => Some(
                PrepareChoices {
                    options: IngestOptions { min_tokens: n as usize, ..choices.options },
                    ..choices
                },
            ),
            None => None,
        },
{
    lemma_options_differ();
}

/// Options are read from the left, each with its value; one without its value is
/// refused.
pub proof fn law_options_are_read_from_the_left(
    choices: PrepareChoices,
    flag: Seq<char>,
    value: Seq<char>,
    rest: Seq<Seq<char>>,
)
    ensures
        choices.after(Seq::empty()) == Some(choices),
        choices.after(seq![flag]) is None,
        choices.after(seq![flag, value] + rest) == match choices.with(flag, value) {
            Some(next) => next.after(rest),
            None => None,
        },
{
    assert((seq![flag, value] + rest).skip(2) =~= rest);
}

/// An article becomes one document of one shard, that of its own split, at the
/// end, or none where it is too short; the shards keep everything else.
pub proof fn law_an_article_lands_in_the_shard_of_its_split(
    state: IngestState,
    options: IngestOptions,
    id: u64,
    tokens: Seq<u32>,
)
    ensures
        ({
            let after = state.given(options, id, tokens);
            let long_enough = tokens.len() >= options.min_tokens;
            let split = options.split(id);
            let added = |documents: Seq<(u64, Seq<u32>)>, here: bool|
                if long_enough && here {
                    documents.push((id, tokens))
                } else {
                    documents
                };
            &&& after.seen == state.seen
            &&& after.short == state.short + (if long_enough {
                0int
            } else {
                1int
            })
            &&& after.kept == state.kept + (if long_enough {
                1int
            } else {
                0int
            })
            &&& after.train == added(state.train, split == Split::Train)
            &&& after.index == added(state.index, split == Split::Index)
            &&& after.eval == added(state.eval, split == Split::Eval)
        }),
{
}

/// An id that is a number is that number; any other is told by the hash of its
/// bytes, its topmost bit set.
pub proof fn law_a_numeric_id_is_its_number(raw: Seq<char>)
    ensures
        match crate::number::number_in(vstd::utf8::encode_utf8(raw), 10, u64::MAX as nat) {
            Some(n) => id_number(raw) == n,
            None => {
                let h = crate::hash::fnv_from(
                    0xcbf2_9ce4_8422_2325,
                    vstd::utf8::encode_utf8(raw),
                );
                &&& id_number(raw) >= 0x8000_0000_0000_0000
                &&& id_number(raw) % 0x8000_0000_0000_0000 == h % 0x8000_0000_0000_0000
            },
        },
{
    let h = crate::hash::fnv_from(crate::hash::FNV_OFFSET, vstd::utf8::encode_utf8(raw));
    assert(h | 0x8000_0000_0000_0000u64 >= 0x8000_0000_0000_0000u64) by (bit_vector);
    assert((h | 0x8000_0000_0000_0000u64) % 0x8000_0000_0000_0000u64 == h
        % 0x8000_0000_0000_0000u64) by (bit_vector);
}

} // verus!
