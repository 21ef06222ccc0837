//! Text in and text out: the tokenizer's side of generation and ingest.
//!
//! What a tokenizer makes of a text is its own business; what is decided here
//! is which of its tokens is the mask, how much of a prompt fits, and whether
//! the tokenizer can be asked at all.
pub mod decoding;
pub mod settings;

pub use decoding::decode_ids;
pub use settings::encodes;

use crate::text::joined;
use settings::{get_truncation, text_fits};
use vstd::prelude::*;
use vstd::string::*;

verus! {

/// The tokenizer of the `tokenizers` crate.
#[verifier::external_type_specification]
#[verifier::external_body]
pub struct ExTokenizer(tokenizers::Tokenizer);

/// The id of every token a tokenizer knows, added tokens included.
pub uninterp spec fn vocabulary(tokenizer: tokenizers::Tokenizer) -> Map<Seq<char>, u32>;

/// How many tokens a tokenizer counts, added tokens included.
pub uninterp spec fn entry_count(tokenizer: tokenizers::Tokenizer) -> nat;

/// What a tokenizer may make of a text, special tokens left out: a list of
/// token ids, or the text of an error. There is more than one where its model
/// drops merges at random.
pub uninterp spec fn encode_outcomes(tokenizer: tokenizers::Tokenizer, text: Seq<char>) -> Set<
    Result<Seq<u32>, Seq<char>>,
>;

/// A tokenizer that is set as another is, but cuts no encoding.
pub uninterp spec fn uncut(tokenizer: tokenizers::Tokenizer) -> tokenizers::Tokenizer;

/// `Tokenizer::token_to_id`: the id of `token`, or `None` where the tokenizer
/// does not know it. Added tokens come before the model's own.
#[verifier::external_body]
fn token_to_id(tokenizer: &tokenizers::Tokenizer, token: &str) -> (id: Option<u32>)
    ensures
        id is Some <==> vocabulary(*tokenizer).contains_key(token@),
        id is Some ==> id->0 == vocabulary(*tokenizer)[token@],
{
    tokenizer.token_to_id(token)
}

/// `Tokenizer::get_vocab_size` with added tokens: the model's tokens, and the
/// added ones that are not among them. The count is a function of the
/// tokenizer alone.
#[verifier::external_body]
fn get_vocab_size(tokenizer: &tokenizers::Tokenizer) -> (size: usize)
    ensures
        size == entry_count(*tokenizer),
{
    tokenizer.get_vocab_size(true)
}

/// Token ids or an error, as values.
pub open spec fn outcome_of(ids: Result<Vec<u32>, String>) -> Result<Seq<u32>, Seq<char>> {
    match ids {
        Ok(ids) => Ok(ids@),
        Err(e) => Err(e@),
    }
}

/// `Tokenizer::encode` without special tokens, and `Encoding::get_ids`: one of
/// the lists of token ids that the tokenizer may give to `text`, or the text of
/// an error that it may give.
///
/// Which of them, where a model drops merges at random, is not claimed.
/// Settings under which the tokenizer does not get through every text are left
/// out: a `stride` no smaller than the `max_length` of a truncation, padding
/// beyond what a list can hold, a model that draws pieces at random, added
/// tokens that clash over white space, tables of `Precompiled` and patterns
/// with `\K`, which the crate does not check, text put in front of a text that
/// stands for none of it where characters are mapped later, pieces of no
/// characters, and templates that want a second text or follow one another.
#[verifier::external_body]
fn encode(tokenizer: &tokenizers::Tokenizer, text: &str) -> (ids: Result<Vec<u32>, String>)
    requires
        crate::tokenizer::settings::encodable(*tokenizer),
    ensures
        encode_outcomes(*tokenizer, text@).contains(outcome_of(ids)),
{
    match tokenizer.encode(text, false) {
        Ok(encoding) => Ok(encoding.get_ids().to_vec()),
        Err(e) => Err(e.to_string()),
    }
}

/// `Tokenizer::with_truncation` of `None` on a copy: a tokenizer that cuts
/// nothing and is otherwise set as `tokenizer` is. What it makes of a text,
/// `tokenizer` may make of it too, unless it comes to more tokens than
/// `tokenizer` cuts to: padding comes after cutting, and errors before. A
/// template may drop what was cut, so nothing is claimed where there is one.
#[verifier::external_body]
fn without_truncation(tokenizer: &tokenizers::Tokenizer) -> (whole: tokenizers::Tokenizer)
    ensures
        whole == uncut(*tokenizer),
        crate::tokenizer::settings::truncation_of(whole) is None,
        crate::tokenizer::settings::takes_text(whole) == crate::tokenizer::settings::takes_text(
            *tokenizer,
        ),
        untemplated(*tokenizer) ==> forall|
            text: Seq<char>,
            outcome: Result<Seq<u32>, Seq<char>>,
        | #[trigger]
            encode_outcomes(whole, text).contains(outcome) && stays_uncut(
                outcome,
                crate::tokenizer::settings::truncation_of(*tokenizer),
            ) ==> encode_outcomes(*tokenizer, text).contains(outcome),
{
    let mut whole = tokenizer.clone();
    let _ = whole.with_truncation(None);
    whole
}

/// A tokenizer takes texts and puts none of them into a template.
pub open spec fn untemplated(tokenizer: tokenizers::Tokenizer) -> bool {
    &&& crate::tokenizer::settings::takes_text(tokenizer)
    &&& crate::tokenizer::settings::templates(
        crate::tokenizer::settings::post_processors_of(tokenizer),
        decoding::NESTING as nat,
    ) == 0
}

/// An encoding is short enough not to be cut.
pub open spec fn stays_uncut(
    outcome: Result<Seq<u32>, Seq<char>>,
    truncation: Option<(usize, usize)>,
) -> bool {
    outcome matches Ok(ids) ==> (truncation matches Some((max_length, _)) ==> ids.len()
        <= max_length)
}

/// What may come of encoding a text: what the tokenizer may make of it, or the
/// reason why it was not asked. Under a truncation that cannot cut, only a text
/// that comes to too many tokens is refused.
pub open spec fn encoded(
    tokenizer: tokenizers::Tokenizer,
    text: Seq<char>,
    outcome: Result<Seq<u32>, Seq<char>>,
) -> bool {
    let truncation = crate::tokenizer::settings::truncation_of(tokenizer);
    if !crate::tokenizer::settings::takes_text(tokenizer) {
        outcome == Err::<Seq<u32>, Seq<char>>("the tokenizer's settings take no text"@)
    } else if crate::tokenizer::settings::truncates(truncation) {
        encode_outcomes(tokenizer, text).contains(outcome)
    } else {
        exists|whole: Result<Seq<u32>, Seq<char>>| #[trigger]
            encode_outcomes(uncut(tokenizer), text).contains(whole) && outcome == if stays_uncut(
                whole,
                truncation,
            ) {
                whole
            } else {
                Err("the tokenizer's truncation cannot cut this text"@)
            }
    }
}

/// The token ids of a text, or why there are none.
pub fn encode_text(tokenizer: &tokenizers::Tokenizer, text: &str) -> (ids: Result<
    Vec<u32>,
    String,
>)
    ensures
        encoded(*tokenizer, text@, outcome_of(ids)),
        ids is Ok && untemplated(*tokenizer) ==> encode_outcomes(*tokenizer, text@).contains(
            outcome_of(ids),
        ),
{
    if !text_fits(tokenizer) {
        return Err(String::from_str("the tokenizer's settings take no text"));
    }
    match get_truncation(tokenizer) {
        Some((max_length, stride)) => if max_length == 0 || stride < max_length {
            encode(tokenizer, text)
        } else {
            let whole: Result<Vec<u32>, String> = encode(&without_truncation(tokenizer), text);
            proof {
                assert(encode_outcomes(uncut(*tokenizer), text@).contains(outcome_of(whole)));
            }
            refuse_longer(whole, max_length)
        },
        None => encode(tokenizer, text),
    }
}

/// An encoding of at most `max_length` tokens, and an error in the place of a
/// longer one.
pub fn refuse_longer(ids: Result<Vec<u32>, String>, max_length: usize) -> (kept: Result<
    Vec<u32>,
    String,
>)
    ensures
        ids is Ok && ids->Ok_0@.len() > max_length ==> kept is Err && kept->Err_0@
            == "the tokenizer's truncation cannot cut this text"@,
        !(ids is Ok && ids->Ok_0@.len() > max_length) ==> kept == ids,
{
    match ids {
        Ok(ids) => if ids.len() > max_length {
            Err(String::from_str("the tokenizer's truncation cannot cut this text"))
        } else {
            Ok(ids)
        },
        Err(e) => Err(e),
    }
}

/// The tokenizer's vocabulary, added tokens included.
pub fn vocab_size(tokenizer: &tokenizers::Tokenizer) -> (size: usize)
    ensures
        size == entry_count(*tokenizer),
{
    get_vocab_size(tokenizer)
}

/// The mask token of a vocabulary: the first of the names that mask tokens go
/// by which it knows.
pub open spec fn mask_in(vocabulary: Map<Seq<char>, u32>) -> Option<u32> {
    if vocabulary.contains_key("<|mdm_mask|>"@) {
        Some(vocabulary["<|mdm_mask|>"@])
    } else if vocabulary.contains_key("[MASK]"@) {
        Some(vocabulary["[MASK]"@])
    } else if vocabulary.contains_key("<mask>"@) {
        Some(vocabulary["<mask>"@])
    } else {
        None
    }
}

/// The id of the tokenizer's mask token.
pub fn mask_token_id(tokenizer: &tokenizers::Tokenizer) -> (id: Result<u32, String>)
    ensures
        match mask_in(vocabulary(*tokenizer)) {
            Some(mask) => id == Ok::<u32, String>(mask),
            None => id is Err && id->Err_0@ == "tokenizer has no recognisable mask token"@,
        },
{
    first_known(
        token_to_id(tokenizer, "<|mdm_mask|>"),
        token_to_id(tokenizer, "[MASK]"),
        token_to_id(tokenizer, "<mask>"),
    )
}

/// The first of three ids that is there.
pub fn first_known(a: Option<u32>, b: Option<u32>, c: Option<u32>) -> (id: Result<u32, String>)
    ensures
        a is Some ==> id == Ok::<u32, String>(a->0),
        a is None && b is Some ==> id == Ok::<u32, String>(b->0),
        a is None && b is None && c is Some ==> id == Ok::<u32, String>(c->0),
        a is None && b is None && c is None ==> id is Err && id->Err_0@
            == "tokenizer has no recognisable mask token"@,
{
    match (a, b, c) {
        (Some(id), _, _) => Ok(id),
        (None, Some(id), _) => Ok(id),
        (None, None, Some(id)) => Ok(id),
        (None, None, None) => Err(String::from_str("tokenizer has no recognisable mask token")),
    }
}

/// How many prompt tokens a canvas of `seq_len` takes: all but one position,
/// and one where there is no more than that.
pub open spec fn prompt_cap(seq_len: nat) -> nat {
    if seq_len <= 2 {
        1
    } else {
        (seq_len - 1) as nat
    }
}

/// What a canvas of `seq_len` takes of a prompt.
pub open spec fn capped(ids: Seq<u32>, seq_len: nat) -> Seq<u32> {
    if ids.len() > prompt_cap(seq_len) {
        ids.take(prompt_cap(seq_len) as int)
    } else {
        ids
    }
}

/// Cut a prompt to what a canvas of `seq_len` takes.
///
/// Leaves at least one masked position, so a generation is not the prompt
/// padded out to `n`.
pub fn cap_prompt(ids: Vec<u32>, seq_len: usize) -> (kept: Vec<u32>)
    ensures
        kept@ == capped(ids@, seq_len as nat),
{
    let cap: usize = if seq_len <= 2 {
        1
    } else {
        seq_len - 1
    };
    let mut kept: Vec<u32> = ids;
    if kept.len() > cap {
        let ghost before = kept@;
        kept.truncate(cap);
        proof {
            assert(kept@ =~= before.take(cap as int));
        }
    }
    kept
}

/// What a prompt is, given what the tokenizer made of it.
pub open spec fn prompt_of(outcome: Result<Seq<u32>, Seq<char>>, seq_len: nat) -> Result<
    Seq<u32>,
    Seq<char>,
> {
    match outcome {
        Ok(all) => Ok(capped(all, seq_len)),
        Err(e) => Err("encoding prompt: "@ + e),
    }
}

/// A prompt of what the tokenizer made of it, cut to what a canvas of `seq_len`
/// takes.
pub fn prompt_from(outcome: Result<Vec<u32>, String>, seq_len: usize) -> (ids: Result<
    Vec<u32>,
    String,
>)
    ensures
        outcome_of(ids) == prompt_of(outcome_of(outcome), seq_len as nat),
{
    match outcome {
        Ok(ids) => Ok(cap_prompt(ids, seq_len)),
        Err(e) => Err(joined("encoding prompt: ", e.as_str())),
    }
}

/// The token ids of a prompt, cut to what a canvas of `seq_len` takes.
pub fn encode_prompt(
    tokenizer: &tokenizers::Tokenizer,
    text: &str,
    seq_len: usize,
) -> (ids: Result<Vec<u32>, String>)
    ensures
        exists|outcome: Result<Seq<u32>, Seq<char>>| #[trigger]
            encoded(*tokenizer, text@, outcome) && outcome_of(ids) == prompt_of(
                outcome,
                seq_len as nat,
            ),
        ids is Ok ==> ids->Ok_0@.len() <= prompt_cap(seq_len as nat),
{
    let outcome: Result<Vec<u32>, String> = encode_text(tokenizer, text);
    proof {
        assert(encoded(*tokenizer, text@, outcome_of(outcome)));
    }
    prompt_from(outcome, seq_len)
}

/// What an article is, given what the tokenizer made of it.
pub open spec fn article_of(outcome: Result<Seq<u32>, Seq<char>>, raw_id: Seq<char>) -> Result<
    Seq<u32>,
    Seq<char>,
> {
    match outcome {
        Ok(ids) => Ok(ids),
        Err(e) => Err("tokenizing article "@ + raw_id + ": "@ + e),
    }
}

/// An article of what the tokenizer made of it, named `raw_id` in the error.
pub fn article_from(outcome: Result<Vec<u32>, String>, raw_id: &str) -> (ids: Result<
    Vec<u32>,
    String,
>)
    ensures
        outcome_of(ids) == article_of(outcome_of(outcome), raw_id@),
{
    match outcome {
        Ok(ids) => Ok(ids),
        Err(e) => {
            let mut s: String = String::from_str("tokenizing article ");
            s.append(raw_id);
            s.append(": ");
            s.append(e.as_str());
            Err(s)
        },
    }
}

/// The token ids of an article, named `raw_id` in the error.
pub fn encode_article(
    tokenizer: &tokenizers::Tokenizer,
    raw_id: &str,
    text: &str,
) -> (ids: Result<Vec<u32>, String>)
    ensures
        exists|outcome: Result<Seq<u32>, Seq<char>>| #[trigger]
            encoded(*tokenizer, text@, outcome) && outcome_of(ids) == article_of(
                outcome,
                raw_id@,
            ),
{
    let outcome: Result<Vec<u32>, String> = encode_text(tokenizer, text);
    proof {
        assert(encoded(*tokenizer, text@, outcome_of(outcome)));
    }
    article_from(outcome, raw_id)
}

/// A prompt leaves a position to fill on every canvas that has two, loses no more
/// than that takes, and loses it from its end.
pub proof fn law_a_prompt_leaves_a_position_to_fill(ids: Seq<u32>, seq_len: nat)
    ensures
        ({
            let kept = capped(ids, seq_len);
            &&& kept.len() <= ids.len()
            &&& forall|i: int| 0 <= i < kept.len() ==> #[trigger] kept[i] == ids[i]
            &&& seq_len >= 2 ==> kept.len() < seq_len && (kept.len() == ids.len() || kept.len()
                == seq_len - 1)
            &&& ids.len() > 0 ==> kept.len() > 0
        }),
{
}

/// The mask token is the one spelled `<|mdm_mask|>` where the vocabulary has it,
/// else `[MASK]`, else `<mask>`; where it has none of the three there is none.
pub proof fn law_the_mask_token_is_the_first_spelling_known(vocabulary: Map<Seq<char>, u32>)
    ensures
        vocabulary.contains_key("<|mdm_mask|>"@) ==> mask_in(vocabulary) == Some(
            vocabulary["<|mdm_mask|>"@],
        ),
        !vocabulary.contains_key("<|mdm_mask|>"@) && vocabulary.contains_key("[MASK]"@) ==> mask_in(
            vocabulary,
        ) == Some(vocabulary["[MASK]"@]),
        !vocabulary.contains_key("<|mdm_mask|>"@) && !vocabulary.contains_key("[MASK]"@)
            && vocabulary.contains_key("<mask>"@) ==> mask_in(vocabulary) == Some(
            vocabulary["<mask>"@],
        ),
        mask_in(vocabulary) is None <==> !vocabulary.contains_key("<|mdm_mask|>"@)
            && !vocabulary.contains_key("[MASK]"@) && !vocabulary.contains_key("<mask>"@),
{
}

/// What cannot be encoded becomes neither a prompt nor an article, and the error
/// ends in the tokenizer's own words; an article is kept whole.
pub proof fn law_a_failed_encoding_is_reported(
    outcome: Result<Seq<u32>, Seq<char>>,
    seq_len: nat,
    raw_id: Seq<char>,
)
    ensures
        prompt_of(outcome, seq_len) is Err <==> outcome is Err,
        article_of(outcome, raw_id) is Err <==> outcome is Err,
        outcome is Ok ==> article_of(outcome, raw_id) == outcome,
        outcome matches Err(e) ==> {
            let (prompt, article) = (prompt_of(outcome, seq_len), article_of(outcome, raw_id));
            &&& prompt->Err_0.len() >= e.len()
            &&& prompt->Err_0.skip(prompt->Err_0.len() - e.len()) == e
            &&& article->Err_0.len() >= raw_id.len() + e.len()
            &&& article->Err_0.skip(article->Err_0.len() - e.len()) == e
            &&& crate::text::holds(article->Err_0, raw_id)
        },
{
    match outcome {
        Ok(_) => {},
        Err(e) => {
            let head = "encoding prompt: "@;
            assert((head + e).skip(head.len() as int) =~= e);
            let start = "tokenizing article "@;
            let all = start + raw_id + ": "@ + e;
            assert(all.skip(all.len() - e.len()) =~= e);
            assert(all.subrange(start.len() as int, (start.len() + raw_id.len()) as int) =~= raw_id);
            assert(crate::text::stands_at(all, raw_id, start.len() as int));
        },
    }
}

/// An encoding is one that the tokenizer gives, and is never one that a
/// truncation has cut without being able to.
pub proof fn law_an_encoding_is_the_tokenizers_own(
    tokenizer: tokenizers::Tokenizer,
    text: Seq<char>,
    ids: Seq<u32>,
)
    requires
        encoded(tokenizer, text, Ok(ids)),
    ensures
        encode_outcomes(tokenizer, text).contains(Ok(ids)) || (encode_outcomes(
            uncut(tokenizer),
            text,
        ).contains(Ok(ids)) && (crate::tokenizer::settings::truncation_of(tokenizer) matches Some(
            cut,
        ) ==> ids.len() <= cut.0)),
{
}

} // verus!
