//! From token ids to text, stage by stage.
//!
//! A decoder may hold stages that do not take every list of tokens. The stages
//! are tried in order before the tokenizer is asked for the whole text.
use crate::text::text_holds;
use vstd::prelude::*;
use vstd::string::*;

verus! {

/// A decoder of the `tokenizers` crate, or one stage of it.
#[verifier::external_type_specification]
#[verifier::external_body]
pub struct ExDecoder(tokenizers::DecoderWrapper);

/// How deep the parts of a tokenizer may be nested: as deep as a JSON file can
/// nest them.
pub const NESTING: usize = 128;

/// A stage of a decoder, as far as it matters which tokens it takes.
pub enum DecoderKind {
    /// Spells out the ends of words, and counts on a last token.
    Bpe,
    /// Drops `content` from both ends of every token, at most so often.
    Strip {
        /// What is dropped.
        content: char,
        /// How often at the start.
        start: usize,
        /// How often at the end.
        stop: usize,
    },
    /// Puts a text in the place of what a pattern matches.
    Replace,
    /// Other stages in order.
    Sequence,
    /// Takes every list of tokens.
    Other,
}

/// The text of every token a tokenizer knows, by its id.
pub uninterp spec fn token_texts(tokenizer: tokenizers::Tokenizer) -> Map<u32, Seq<char>>;

/// The decoder of a tokenizer, or no stage where it has none.
pub uninterp spec fn decoders_of(tokenizer: tokenizers::Tokenizer) -> Seq<
    tokenizers::DecoderWrapper,
>;

/// Which stage a decoder is.
pub uninterp spec fn decoder_kind(decoder: tokenizers::DecoderWrapper) -> DecoderKind;

/// The stages of a decoder that is a sequence of others, and none of any other.
pub uninterp spec fn decoders_in(decoder: tokenizers::DecoderWrapper) -> Seq<
    tokenizers::DecoderWrapper,
>;

/// A stage that replaces matches written out, its pattern first, and nothing of
/// any other.
pub uninterp spec fn replacing_stage(decoder: tokenizers::DecoderWrapper) -> Seq<char>;

/// What a stage makes of a list of tokens, or `None` where it fails.
pub uninterp spec fn stage_output(
    decoder: tokenizers::DecoderWrapper,
    tokens: Seq<Seq<char>>,
) -> Option<Seq<Seq<char>>>;

/// The text of a list of token ids, special tokens included, or the text of the
/// error.
pub uninterp spec fn decode_outcome(tokenizer: tokenizers::Tokenizer, ids: Seq<u32>) -> Result<
    Seq<char>,
    Seq<char>,
>;

/// `Tokenizer::id_to_token`: the text of a token, or `None` where the
/// tokenizer does not know its id. Added tokens come before the model's own.
#[verifier::external_body]
pub(crate) fn id_to_token(tokenizer: &tokenizers::Tokenizer, id: u32) -> (text: Option<String>)
    ensures
        text is Some <==> token_texts(*tokenizer).contains_key(id),
        text is Some ==> text->0@ == token_texts(*tokenizer)[id],
{
    tokenizer.id_to_token(id)
}

/// `Tokenizer::get_decoder`: the decoder as a list of one stage, or an empty
/// list where the tokenizer has none.
#[verifier::external_body]
fn get_decoder(tokenizer: &tokenizers::Tokenizer) -> (stages: &[tokenizers::DecoderWrapper])
    ensures
        stages@ == decoders_of(*tokenizer),
{
    match tokenizer.get_decoder() {
        Some(decoder) => std::slice::from_ref(decoder),
        None => &[],
    }
}

/// The variant of a `DecoderWrapper`, with the fields of a
/// `decoders::strip::Strip`.
#[verifier::external_body]
fn kind_of(decoder: &tokenizers::DecoderWrapper) -> (kind: DecoderKind)
    ensures
        kind == decoder_kind(*decoder),
{
    match decoder {
        tokenizers::DecoderWrapper::BPE(_) => DecoderKind::Bpe,
        tokenizers::DecoderWrapper::Strip(s) => {
            DecoderKind::Strip { content: s.content, start: s.start, stop: s.stop }
        },
        tokenizers::DecoderWrapper::Replace(_) => DecoderKind::Replace,
        tokenizers::DecoderWrapper::Sequence(_) => DecoderKind::Sequence,
        _ => DecoderKind::Other,
    }
}

/// `decoders::sequence::Sequence::get_decoders` of a decoder that is a
/// sequence, and an empty list of any other.
#[verifier::external_body]
fn get_decoders(decoder: &tokenizers::DecoderWrapper) -> (stages: &[tokenizers::DecoderWrapper])
    ensures
        stages@ == decoders_in(*decoder),
{
    match decoder {
        tokenizers::DecoderWrapper::Sequence(s) => s.get_decoders(),
        _ => &[],
    }
}

/// `Debug` of a `normalizers::replace::Replace`, which writes its fields out
/// and starts with the pattern, and nothing of any other decoder.
#[verifier::external_body]
fn get_replacing(decoder: &tokenizers::DecoderWrapper) -> (text: String)
    ensures
        text@ == replacing_stage(*decoder),
{
    match decoder {
        tokenizers::DecoderWrapper::Replace(r) => format!("{r:?}"),
        _ => String::new(),
    }
}

/// `Decoder::decode_chain` of a stage that is not a sequence: what it makes of
/// `tokens`, or `None` where it fails. The same stage makes the same of the
/// same tokens.
///
/// `BPEDecoder` counts on a last token, `Strip` indexes from the end of every
/// token, and `Replace` on matches that do not end before they start, as those
/// of a pattern with `\K` may: what they do not take is left out.
#[verifier::external_body]
fn decode_chain(decoder: &tokenizers::DecoderWrapper, tokens: Vec<String>) -> (out: Option<
    Vec<String>,
>)
    requires
        decoder_kind(*decoder) !is Sequence,
        takes(*decoder, texts(tokens@)),
    ensures
        (match out {
            Some(out) => Some(texts(out@)),
            None => None,
        }) == stage_output(*decoder, texts(tokens@)),
{
    tokenizers::Decoder::decode_chain(decoder, tokens).ok()
}

/// `Tokenizer::decode` with special tokens kept: the text of `ids`, or the
/// text of the error. The same tokenizer gives the same for the same ids.
/// Lists of ids that come to a stage of the decoder that does not take them
/// are left out.
#[verifier::external_body]
fn decode(tokenizer: &tokenizers::Tokenizer, ids: &[u32]) -> (text: Result<String, String>)
    requires
        decodable(*tokenizer, ids@),
    ensures
        (match text {
            Ok(text) => Ok(text@),
            Err(e) => Err(e@),
        }) == decode_outcome(*tokenizer, ids@),
{
    match tokenizer.decode(ids, false) {
        Ok(text) => Ok(text),
        Err(e) => Err(e.to_string()),
    }
}

/// The texts of a list of strings.
pub open spec fn texts(list: Seq<String>) -> Seq<Seq<char>> {
    Seq::new(list.len(), |i: int| list[i]@)
}

/// Dropping `content` from both ends of `token`, `start` times at the start
/// and `stop` times at the end, does not run over the ends of it.
pub open spec fn strips(token: Seq<char>, content: char, start: nat, stop: nat) -> bool {
    ||| (if start < token.len() {
        start
    } else {
        token.len()
    }) + stop <= token.len()
    ||| exists|i: int| 0 <= i < token.len() && #[trigger] token[i] != content
}

/// A stage takes a list of tokens.
pub open spec fn takes(decoder: tokenizers::DecoderWrapper, tokens: Seq<Seq<char>>) -> bool {
    match decoder_kind(decoder) {
        DecoderKind::Bpe => tokens.len() > 0,
        DecoderKind::Strip { content, start, stop } => forall|i: int|
            0 <= i < tokens.len() ==> strips(
                #[trigger] tokens[i],
                content,
                start as nat,
                stop as nat,
            ),
        DecoderKind::Replace => !crate::text::holds(replacing_stage(decoder), "\\K"@),
        _ => true,
    }
}

/// What comes of running stages over a list of tokens.
#[verifier::ext_equal]
pub enum Chained {
    /// A stage does not take what came to it.
    Refused,
    /// A stage fails on what came to it.
    Fails,
    /// The tokens that the last stage gives.
    Gives(Seq<Seq<char>>),
}

/// What one stage makes of `tokens`, with sequences nested up to `depth`.
pub open spec fn staged(
    decoder: tokenizers::DecoderWrapper,
    tokens: Seq<Seq<char>>,
    depth: nat,
) -> Chained
    decreases depth, 0nat,
{
    if decoder_kind(decoder) is Sequence {
        if depth == 0 {
            Chained::Refused
        } else {
            chained(decoders_in(decoder), tokens, (depth - 1) as nat)
        }
    } else if !takes(decoder, tokens) {
        Chained::Refused
    } else {
        match stage_output(decoder, tokens) {
            Some(out) => Chained::Gives(out),
            None => Chained::Fails,
        }
    }
}

/// What `stages`, in order, make of `tokens`.
pub open spec fn chained(
    stages: Seq<tokenizers::DecoderWrapper>,
    tokens: Seq<Seq<char>>,
    depth: nat,
) -> Chained
    decreases depth, stages.len() + 1,
{
    if stages.len() == 0 {
        Chained::Gives(tokens)
    } else {
        match chained(stages.drop_last(), tokens, depth) {
            Chained::Gives(mid) => staged(stages.last(), mid, depth),
            stuck => stuck,
        }
    }
}

/// The texts of those `ids` that a tokenizer knows.
pub open spec fn known_texts(tokenizer: tokenizers::Tokenizer, ids: Seq<u32>) -> Seq<Seq<char>>
    decreases ids.len(),
{
    if ids.len() == 0 {
        Seq::empty()
    } else if token_texts(tokenizer).contains_key(ids.last()) {
        known_texts(tokenizer, ids.drop_last()).push(token_texts(tokenizer)[ids.last()])
    } else {
        known_texts(tokenizer, ids.drop_last())
    }
}

/// Every stage of a tokenizer's decoder takes what `ids` make come to it.
pub open spec fn decodable(tokenizer: tokenizers::Tokenizer, ids: Seq<u32>) -> bool {
    chained(decoders_of(tokenizer), known_texts(tokenizer, ids), NESTING as nat) !is Refused
}

/// Stages behind one that is stuck change nothing.
proof fn lemma_stuck(
    stages: Seq<tokenizers::DecoderWrapper>,
    tokens: Seq<Seq<char>>,
    depth: nat,
    n: int,
)
    requires
        0 <= n <= stages.len(),
        chained(stages.take(n), tokens, depth) !is Gives,
    ensures
        chained(stages, tokens, depth) == chained(stages.take(n), tokens, depth),
    decreases stages.len(),
{
    if n == stages.len() {
        assert(stages.take(n) =~= stages);
    } else {
        assert(stages.drop_last().take(n) =~= stages.take(n));
        lemma_stuck(stages.drop_last(), tokens, depth, n);
    }
}

/// Whether dropping `content` does not run over the ends of `token`.
fn strip_fits(token: &str, content: char, start: usize, stop: usize) -> (fits: bool)
    ensures
        fits == strips(token@, content, start as nat, stop as nat),
{
    let n: usize = token.unicode_len();
    let cut: usize = if start < n {
        start
    } else {
        n
    };
    if stop <= n - cut {
        return true;
    }
    let mut i: usize = 0;
    while i < n
        invariant
            i <= n,
            n == token@.len(),
            forall|j: int| 0 <= j < i ==> token@[j] == content,
        decreases n - i,
    {
        if token.get_char(i) != content {
            assert(token@[i as int] != content);
            return true;
        }
        i += 1;
    }
    false
}

/// Whether a stage takes a list of tokens.
fn stage_takes(
    decoder: &tokenizers::DecoderWrapper,
    kind: &DecoderKind,
    tokens: &[String],
) -> (fits: bool)
    requires
        *kind == decoder_kind(*decoder),
    ensures
        fits == takes(*decoder, texts(tokens@)),
{
    match kind {
        DecoderKind::Bpe => tokens.len() > 0,
        DecoderKind::Strip { content, start, stop } => {
            let mut i: usize = 0;
            while i < tokens.len()
                invariant
                    i <= tokens@.len(),
                    *kind == decoder_kind(*decoder),
                    *kind == (DecoderKind::Strip {
                        content: *content,
                        start: *start,
                        stop: *stop,
                    }),
                    forall|j: int|
                        0 <= j < i ==> strips(
                            #[trigger] texts(tokens@)[j],
                            *content,
                            *start as nat,
                            *stop as nat,
                        ),
                decreases tokens@.len() - i,
            {
                let fits: bool = strip_fits(tokens[i].as_str(), *content, *start, *stop);
                assert(texts(tokens@)[i as int] == tokens@[i as int]@);
                if !fits {
                    return false;
                }
                i += 1;
            }
            true
        },
        DecoderKind::Replace => !text_holds(get_replacing(decoder).as_str(), "\\K"),
        _ => true,
    }
}

/// What comes of running the stages of a decoder.
enum Ran {
    Refused,
    Fails,
    Gives(Vec<String>),
}

/// Run `stages` over `tokens`, as far as they take what comes to them.
fn run(stages: &[tokenizers::DecoderWrapper], tokens: Vec<String>, depth: usize) -> (ran: Ran)
    ensures
        match ran {
            Ran::Refused => chained(stages@, texts(tokens@), depth as nat) is Refused,
            Ran::Fails => chained(stages@, texts(tokens@), depth as nat) is Fails,
            Ran::Gives(out) => chained(stages@, texts(tokens@), depth as nat) == Chained::Gives(
                texts(out@),
            ),
        },
    decreases depth,
{
    let ghost given = texts(tokens@);
    let mut held: Vec<String> = tokens;
    let mut i: usize = 0;
    proof {
        assert(stages@.take(0) =~= Seq::empty());
    }
    while i < stages.len()
        invariant
            i <= stages@.len(),
            given == texts(tokens@),
            chained(stages@.take(i as int), given, depth as nat) == Chained::Gives(texts(held@)),
        decreases stages@.len() - i,
    {
        let stage: &tokenizers::DecoderWrapper = &stages[i];
        let kind: DecoderKind = kind_of(stage);
        proof {
            assert(stages@.take(i + 1).drop_last() =~= stages@.take(i as int));
            assert(stages@.take(i + 1).last() == *stage);
        }
        let ghost now = staged(*stage, texts(held@), depth as nat);
        assert(chained(stages@.take(i + 1), given, depth as nat) == now);
        let next: Ran = if let DecoderKind::Sequence = kind {
            if depth == 0 {
                Ran::Refused
            } else {
                run(get_decoders(stage), held, depth - 1)
            }
        } else if !stage_takes(stage, &kind, held.as_slice()) {
            Ran::Refused
        } else {
            match decode_chain(stage, held) {
                Some(out) => Ran::Gives(out),
                None => Ran::Fails,
            }
        };
        match next {
            Ran::Gives(out) => {
                held = out;
            },
            stuck => {
                proof {
                    lemma_stuck(stages@, given, depth as nat, i + 1);
                }
                return stuck;
            },
        }
        i += 1;
    }
    proof {
        assert(stages@.take(i as int) =~= stages@);
    }
    Ran::Gives(held)
}

/// Whether every stage of the tokenizer's decoder takes what `ids` make come to
/// it.
pub fn decodes(tokenizer: &tokenizers::Tokenizer, ids: &[u32]) -> (fits: bool)
    ensures
        fits == decodable(*tokenizer, ids@),
{
    let mut tokens: Vec<String> = Vec::new();
    let mut i: usize = 0;
    proof {
        assert(ids@.take(0) =~= Seq::empty());
        assert(texts(tokens@) =~= Seq::empty());
    }
    while i < ids.len()
        invariant
            i <= ids@.len(),
            texts(tokens@) == known_texts(*tokenizer, ids@.take(i as int)),
        decreases ids@.len() - i,
    {
        proof {
            assert(ids@.take(i + 1).drop_last() =~= ids@.take(i as int));
        }
        if let Some(text) = id_to_token(tokenizer, ids[i]) {
            let ghost before = tokens@;
            tokens.push(text);
            proof {
                assert(texts(tokens@) =~= texts(before).push(text@));
            }
        }
        i += 1;
    }
    proof {
        assert(ids@.take(i as int) =~= ids@);
    }
    match run(get_decoder(tokenizer), tokens, NESTING) {
        Ran::Refused => false,
        _ => true,
    }
}

/// The text of token ids that a tokenizer decodes, or the error in words.
pub open spec fn decoded(tokenizer: tokenizers::Tokenizer, ids: Seq<u32>) -> Result<
    Seq<char>,
    Seq<char>,
> {
    if !decodable(tokenizer, ids) {
        Err("decoding: "@ + "the decoder does not take these tokens"@)
    } else {
        match decode_outcome(tokenizer, ids) {
            Ok(text) => Ok(text),
            Err(e) => Err("decoding: "@ + e),
        }
    }
}

/// The text of token ids.
pub fn decode_ids(tokenizer: &tokenizers::Tokenizer, ids: &[u32]) -> (text: Result<String, String>)
    ensures
        (match text {
            Ok(text) => Ok(text@),
            Err(message) => Err(message@),
        }) == decoded(*tokenizer, ids@),
{
    if !decodes(tokenizer, ids) {
        return Err(
            crate::text::joined("decoding: ", "the decoder does not take these tokens"),
        );
    }
    worded(decode(tokenizer, ids))
}

/// What a tokenizer decoded, with its error in words.
pub fn worded(outcome: Result<String, String>) -> (text: Result<String, String>)
    ensures
        outcome matches Ok(given) ==> text == Ok::<String, String>(given),
        outcome matches Err(e) ==> text is Err && text->Err_0@ == "decoding: "@ + e@,
{
    match outcome {
        Ok(text) => Ok(text),
        Err(e) => Err(crate::text::joined("decoding: ", e.as_str())),
    }
}

/// Ids that the tokenizer does not know are left out, and the texts of the others
/// stand in order.
pub proof fn law_unknown_ids_are_left_out(
    tokenizer: tokenizers::Tokenizer,
    a: Seq<u32>,
    b: Seq<u32>,
    id: u32,
)
    ensures
        known_texts(tokenizer, a + b) == known_texts(tokenizer, a) + known_texts(tokenizer, b),
        known_texts(tokenizer, seq![id]) == if token_texts(tokenizer).contains_key(id) {
            seq![token_texts(tokenizer)[id]]
        } else {
            Seq::empty()
        },
    decreases b.len(),
{
    assert(seq![id].drop_last() =~= Seq::<u32>::empty());
    assert(known_texts(tokenizer, Seq::<u32>::empty()) =~= Seq::empty());
    assert(known_texts(tokenizer, seq![id]) =~= if token_texts(tokenizer).contains_key(id) {
        seq![token_texts(tokenizer)[id]]
    } else {
        Seq::empty()
    });
    if b.len() == 0 {
        assert(a + b =~= a);
        assert(known_texts(tokenizer, a) + known_texts(tokenizer, b) =~= known_texts(tokenizer, a));
    } else {
        law_unknown_ids_are_left_out(tokenizer, a, b.drop_last(), id);
        assert((a + b).drop_last() =~= a + b.drop_last());
        assert((a + b).last() == b.last());
        assert(known_texts(tokenizer, a + b) =~= known_texts(tokenizer, a) + known_texts(
            tokenizer,
            b,
        ));
    }
}

} // verus!
