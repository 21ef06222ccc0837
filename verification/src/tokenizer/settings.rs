//! What a tokenizer is set to.
//!
//! A tokenizer file may hold settings under which no text, or not every text,
//! can be encoded. They are read and weighed before the tokenizer is asked.
use crate::tokenizer::decoding::NESTING;
use crate::text::{text_holds, text_stands_at};
use vstd::prelude::*;
use vstd::string::*;

verus! {

/// A normalizer of the `tokenizers` crate.
#[verifier::external_type_specification]
#[verifier::external_body]
pub struct ExNormalizer(tokenizers::NormalizerWrapper);

/// A pre-tokenizer of the `tokenizers` crate.
#[verifier::external_type_specification]
#[verifier::external_body]
pub struct ExPreTokenizer(tokenizers::PreTokenizerWrapper);

/// A post-processor of the `tokenizers` crate.
#[verifier::external_type_specification]
#[verifier::external_body]
pub struct ExPostProcessor(tokenizers::PostProcessorWrapper);

/// A normalizer, as far as it matters whether it takes a text.
pub enum NormalizerKind {
    /// Puts a text in front.
    Prepend,
    /// Puts a text in the place of what a pattern matches.
    Replace,
    /// Looks characters up in a table.
    Precompiled,
    /// Other normalizers in order.
    Sequence,
    /// Maps or drops characters.
    Other,
}

/// A pre-tokenizer, as far as it matters whether it takes a text.
pub enum PreTokenizerKind {
    /// Cuts a text into pieces of so many characters.
    FixedLength(usize),
    /// Cuts a text where a pattern matches.
    Split,
    /// Maps bytes to characters.
    ByteLevel,
    /// Other pre-tokenizers in order.
    Sequence,
    /// Takes every text.
    Other,
}

/// A post-processor, as far as it matters whether it takes an encoding.
pub enum PostProcessorKind {
    /// Puts what it is given into a template.
    Template,
    /// Other post-processors in order.
    Sequence,
    /// Takes every encoding.
    Other,
}

/// An added token, as far as it matters how it is found in a text.
struct AddedToken {
    id: u32,
    content: String,
    lstrip: bool,
    rstrip: bool,
    normalized: bool,
}

/// How many tokens a tokenizer cuts an encoding to, and how many of them two
/// neighbouring pieces share; `None` where it cuts nothing.
pub uninterp spec fn truncation_of(tokenizer: tokenizers::Tokenizer) -> Option<(usize, usize)>;

/// How many tokens a tokenizer fills an encoding up to, where that is fixed,
/// and of what the length is to be a multiple; `None` where it fills nothing.
pub uninterp spec fn padding_of(tokenizer: tokenizers::Tokenizer) -> Option<
    (Option<usize>, Option<usize>),
>;

/// Added tokens by their ids: the text of one, whether it takes the white space
/// on its left, whether it takes that on its right, and whether it is looked
/// for in what the normalizer made of a text.
pub uninterp spec fn added_tokens(tokenizer: tokenizers::Tokenizer) -> Map<
    u32,
    (Seq<char>, bool, bool, bool),
>;

/// Whether a tokenizer's model draws the pieces of a text at random.
pub uninterp spec fn draws_pieces(tokenizer: tokenizers::Tokenizer) -> bool;

/// The normalizer of a tokenizer, or none where it has none.
pub uninterp spec fn normalizers_of(tokenizer: tokenizers::Tokenizer) -> Seq<
    tokenizers::NormalizerWrapper,
>;

/// Which normalizer one is.
pub uninterp spec fn normalizer_kind(normalizer: tokenizers::NormalizerWrapper) -> NormalizerKind;

/// The members of a normalizer that is a sequence of others, and none of any
/// other.
pub uninterp spec fn normalizers_in(normalizer: tokenizers::NormalizerWrapper) -> Seq<
    tokenizers::NormalizerWrapper,
>;

/// What a normalizer puts in front of a text or in the place of a match, and
/// nothing where it is not one that does.
pub uninterp spec fn insertion_of(normalizer: tokenizers::NormalizerWrapper) -> Seq<char>;

/// A normalizer that replaces matches written out, its pattern first, and
/// nothing of any other.
pub uninterp spec fn replacing_text(normalizer: tokenizers::NormalizerWrapper) -> Seq<char>;

/// The pre-tokenizer of a tokenizer, or none where it has none.
pub uninterp spec fn pre_tokenizers_of(tokenizer: tokenizers::Tokenizer) -> Seq<
    tokenizers::PreTokenizerWrapper,
>;

/// Which pre-tokenizer one is.
pub uninterp spec fn pre_tokenizer_kind(
    pre_tokenizer: tokenizers::PreTokenizerWrapper,
) -> PreTokenizerKind;

/// The regular expression by which a pre-tokenizer cuts, and nothing where it
/// cuts by a fixed text or is another.
pub uninterp spec fn cutting_pattern(pre_tokenizer: tokenizers::PreTokenizerWrapper) -> Seq<char>;

/// The members of a pre-tokenizer that is a sequence of others, and none of
/// any other.
pub uninterp spec fn pre_tokenizers_in(pre_tokenizer: tokenizers::PreTokenizerWrapper) -> Seq<
    tokenizers::PreTokenizerWrapper,
>;

/// The post-processor of a tokenizer, or none where it has none.
pub uninterp spec fn post_processors_of(tokenizer: tokenizers::Tokenizer) -> Seq<
    tokenizers::PostProcessorWrapper,
>;

/// Which post-processor one is.
pub uninterp spec fn post_processor_kind(
    processor: tokenizers::PostProcessorWrapper,
) -> PostProcessorKind;

/// The members of a post-processor that is a sequence of others, and none of
/// any other.
pub uninterp spec fn post_processors_in(processor: tokenizers::PostProcessorWrapper) -> Seq<
    tokenizers::PostProcessorWrapper,
>;

/// The template for one text of a post-processor that is a template, written
/// out, and nothing of any other.
pub uninterp spec fn template_of(processor: tokenizers::PostProcessorWrapper) -> Seq<char>;

/// `Tokenizer::get_truncation`: the `max_length` and the `stride`.
#[verifier::external_body]
pub(crate) fn get_truncation(tokenizer: &tokenizers::Tokenizer) -> (truncation: Option<(usize, usize)>)
    ensures
        truncation == truncation_of(*tokenizer),
{
    tokenizer.get_truncation().map(|t| (t.max_length, t.stride))
}

/// `Tokenizer::get_padding`: the size of a `PaddingStrategy::Fixed`, and
/// `pad_to_multiple_of`.
#[verifier::external_body]
fn get_padding(tokenizer: &tokenizers::Tokenizer) -> (padding: Option<
    (Option<usize>, Option<usize>),
>)
    ensures
        padding == padding_of(*tokenizer),
{
    match tokenizer.get_padding() {
        Some(p) => match p.strategy {
            tokenizers::PaddingStrategy::Fixed(size) => Some((Some(size), p.pad_to_multiple_of)),
            tokenizers::PaddingStrategy::BatchLongest => Some((None, p.pad_to_multiple_of)),
        },
        None => None,
    }
}

/// `Tokenizer::get_added_tokens_decoder`: the id, `content`, `lstrip`, `rstrip`
/// and `normalized` of every added token, in no order that is claimed.
#[verifier::external_body]
fn get_added_tokens(tokenizer: &tokenizers::Tokenizer) -> (added: Vec<AddedToken>)
    ensures
        forall|i: int|
            0 <= i < added@.len() ==> added_tokens(*tokenizer).contains_pair(
                (#[trigger] added@[i]).id,
                (added@[i].content@, added@[i].lstrip, added@[i].rstrip, added@[i].normalized),
            ),
        forall|id: u32| #[trigger]
            added_tokens(*tokenizer).contains_key(id) ==> exists|i: int|
                0 <= i < added@.len() && (#[trigger] added@[i]).id == id,
{
    let added = tokenizer.get_added_tokens_decoder();
    added.into_iter().map(
        |(id, t)| AddedToken {
            id,
            content: t.content,
            lstrip: t.lstrip,
            rstrip: t.rstrip,
            normalized: t.normalized,
        },
    ).collect()
}

/// `Tokenizer::get_model`: whether it is a `Unigram` whose `alpha` is set.
#[verifier::external_body]
fn has_alpha(tokenizer: &tokenizers::Tokenizer) -> (drawn: bool)
    ensures
        drawn == draws_pieces(*tokenizer),
{
    match tokenizer.get_model() {
        tokenizers::ModelWrapper::Unigram(u) => u.alpha.is_some(),
        _ => false,
    }
}

/// `Tokenizer::get_normalizer`: the normalizer as a list of one, or an empty
/// list where the tokenizer has none.
#[verifier::external_body]
fn get_normalizer(tokenizer: &tokenizers::Tokenizer) -> (members: &[tokenizers::NormalizerWrapper])
    ensures
        members@ == normalizers_of(*tokenizer),
{
    match tokenizer.get_normalizer() {
        Some(normalizer) => std::slice::from_ref(normalizer),
        None => &[],
    }
}

/// The variant of a `NormalizerWrapper`.
#[verifier::external_body]
fn kind_of_normalizer(normalizer: &tokenizers::NormalizerWrapper) -> (kind: NormalizerKind)
    ensures
        kind == normalizer_kind(*normalizer),
{
    match normalizer {
        tokenizers::NormalizerWrapper::Prepend(_) => NormalizerKind::Prepend,
        tokenizers::NormalizerWrapper::Replace(_) => NormalizerKind::Replace,
        tokenizers::NormalizerWrapper::Precompiled(_) => NormalizerKind::Precompiled,
        tokenizers::NormalizerWrapper::Sequence(_) => NormalizerKind::Sequence,
        _ => NormalizerKind::Other,
    }
}

/// `AsRef::as_ref` of a `normalizers::utils::Sequence`: its members, and an
/// empty list of any other normalizer.
#[verifier::external_body]
fn members_of_normalizer(normalizer: &tokenizers::NormalizerWrapper) -> (members:
    &[tokenizers::NormalizerWrapper])
    ensures
        members@ == normalizers_in(*normalizer),
{
    match normalizer {
        tokenizers::NormalizerWrapper::Sequence(s) => s.as_ref(),
        _ => &[],
    }
}

/// The field `prepend` of a `normalizers::prepend::Prepend`, or `content` of a
/// `normalizers::replace::Replace`, and nothing of any other normalizer.
#[verifier::external_body]
fn get_insertion(normalizer: &tokenizers::NormalizerWrapper) -> (text: String)
    ensures
        text@ == insertion_of(*normalizer),
{
    match normalizer {
        tokenizers::NormalizerWrapper::Prepend(p) => p.prepend.clone(),
        tokenizers::NormalizerWrapper::Replace(r) => r.content.clone(),
        _ => String::new(),
    }
}

/// `Debug` of a `normalizers::replace::Replace`, which writes its fields out
/// and starts with the pattern, and nothing of any other normalizer.
#[verifier::external_body]
fn get_replacing(normalizer: &tokenizers::NormalizerWrapper) -> (text: String)
    ensures
        text@ == replacing_text(*normalizer),
{
    match normalizer {
        tokenizers::NormalizerWrapper::Replace(r) => format!("{r:?}"),
        _ => String::new(),
    }
}

/// `Tokenizer::get_pre_tokenizer`: the pre-tokenizer as a list of one, or an
/// empty list where the tokenizer has none.
#[verifier::external_body]
fn get_pre_tokenizer(tokenizer: &tokenizers::Tokenizer) -> (members:
    &[tokenizers::PreTokenizerWrapper])
    ensures
        members@ == pre_tokenizers_of(*tokenizer),
{
    match tokenizer.get_pre_tokenizer() {
        Some(pre_tokenizer) => std::slice::from_ref(pre_tokenizer),
        None => &[],
    }
}

/// The variant of a `PreTokenizerWrapper`, with the `length` of a
/// `pre_tokenizers::fixed_length::FixedLength`.
#[verifier::external_body]
fn kind_of_pre_tokenizer(pre_tokenizer: &tokenizers::PreTokenizerWrapper) -> (kind:
    PreTokenizerKind)
    ensures
        kind == pre_tokenizer_kind(*pre_tokenizer),
{
    match pre_tokenizer {
        tokenizers::PreTokenizerWrapper::FixedLength(f) => PreTokenizerKind::FixedLength(f.length),
        tokenizers::PreTokenizerWrapper::Split(_) => PreTokenizerKind::Split,
        tokenizers::PreTokenizerWrapper::ByteLevel(_) => PreTokenizerKind::ByteLevel,
        tokenizers::PreTokenizerWrapper::Sequence(_) => PreTokenizerKind::Sequence,
        _ => PreTokenizerKind::Other,
    }
}

/// `AsRef::as_ref` of a `pre_tokenizers::sequence::Sequence`: its members, and
/// an empty list of any other pre-tokenizer.
#[verifier::external_body]
fn members_of_pre_tokenizer(pre_tokenizer: &tokenizers::PreTokenizerWrapper) -> (members:
    &[tokenizers::PreTokenizerWrapper])
    ensures
        members@ == pre_tokenizers_in(*pre_tokenizer),
{
    match pre_tokenizer {
        tokenizers::PreTokenizerWrapper::Sequence(s) => s.as_ref(),
        _ => &[],
    }
}

/// The field `pattern` of a `pre_tokenizers::split::Split`, where it is a
/// `SplitPattern::Regex`, and nothing of any other pre-tokenizer.
#[verifier::external_body]
fn get_cutting_pattern(pre_tokenizer: &tokenizers::PreTokenizerWrapper) -> (pattern: String)
    ensures
        pattern@ == cutting_pattern(*pre_tokenizer),
{
    match pre_tokenizer {
        tokenizers::PreTokenizerWrapper::Split(s) => match &s.pattern {
            tokenizers::pre_tokenizers::split::SplitPattern::Regex(r) => r.clone(),
            tokenizers::pre_tokenizers::split::SplitPattern::String(_) => String::new(),
        },
        _ => String::new(),
    }
}

/// `Tokenizer::get_post_processor`: the post-processor as a list of one, or an
/// empty list where the tokenizer has none.
#[verifier::external_body]
fn get_post_processor(tokenizer: &tokenizers::Tokenizer) -> (members:
    &[tokenizers::PostProcessorWrapper])
    ensures
        members@ == post_processors_of(*tokenizer),
{
    match tokenizer.get_post_processor() {
        Some(processor) => std::slice::from_ref(processor),
        None => &[],
    }
}

/// The variant of a `PostProcessorWrapper`.
#[verifier::external_body]
fn kind_of_post_processor(processor: &tokenizers::PostProcessorWrapper) -> (kind: PostProcessorKind)
    ensures
        kind == post_processor_kind(*processor),
{
    match processor {
        tokenizers::PostProcessorWrapper::Template(_) => PostProcessorKind::Template,
        tokenizers::PostProcessorWrapper::Sequence(_) => PostProcessorKind::Sequence,
        _ => PostProcessorKind::Other,
    }
}

/// `AsRef::as_ref` of a `processors::sequence::Sequence`: its members, and an
/// empty list of any other post-processor.
#[verifier::external_body]
fn members_of_post_processor(processor: &tokenizers::PostProcessorWrapper) -> (members:
    &[tokenizers::PostProcessorWrapper])
    ensures
        members@ == post_processors_in(*processor),
{
    match processor {
        tokenizers::PostProcessorWrapper::Sequence(s) => s.as_ref(),
        _ => &[],
    }
}

/// `processors::template::TemplateProcessing::get_single`: the template for one
/// text, its pieces written out one by one, and nothing of any other
/// post-processor.
#[verifier::external_body]
fn get_single(processor: &tokenizers::PostProcessorWrapper) -> (template: String)
    ensures
        template@ == template_of(*processor),
{
    match processor {
        tokenizers::PostProcessorWrapper::Template(t) => t.get_single(),
        _ => String::new(),
    }
}

/// Pieces that share tokens are longer than what they share.
pub open spec fn truncates(truncation: Option<(usize, usize)>) -> bool {
    truncation matches Some((max_length, stride)) ==> max_length == 0 || stride < max_length
}

/// The length to fill up to can be the length of a list.
pub open spec fn pads(padding: Option<(Option<usize>, Option<usize>)>) -> bool {
    padding matches Some((size, multiple)) ==> {
        &&& size matches Some(size) ==> size <= usize::MAX / 256
        &&& multiple matches Some(multiple) ==> multiple <= usize::MAX / 256
    }
}

/// A text holds nothing but white space.
pub open spec fn blank(text: Seq<char>) -> bool {
    forall|i: int| 0 <= i < text.len() ==> crate::text::is_white(#[trigger] text[i])
}

/// Added token `b` may match white space alone and takes that on its left
/// alone, where added token `a` may have taken all of it.
pub open spec fn clash(tokenizer: tokenizers::Tokenizer, a: u32, b: u32) -> bool {
    &&& added_tokens(tokenizer).contains_key(a) && added_tokens(tokenizer)[a].2
    &&& takes_left_alone(tokenizer, b)
}

/// Added token `b` may match white space alone, and takes that on its left
/// alone.
pub open spec fn takes_left_alone(tokenizer: tokenizers::Tokenizer, b: u32) -> bool {
    let (content, lstrip, rstrip, normalized) = added_tokens(tokenizer)[b];
    &&& added_tokens(tokenizer).contains_key(b)
    &&& lstrip && !rstrip
    &&& normalized || blank(content)
}

/// A pattern may match nothing, as far as a replacing normalizer written out
/// shows: it is an empty text, or a regular expression that is not one of those
/// known to match something.
pub open spec fn may_match_nothing(text: Seq<char>) -> bool {
    ||| opens(text, "Replace { pattern: String(\"\"), "@)
    ||| opens(text, "Replace { pattern: Regex("@) && !known_pattern(text)
}

/// A replacing normalizer written out starts with a regular expression that is
/// known to match something: runs of spaces, and line breaks.
pub open spec fn known_pattern(text: Seq<char>) -> bool {
    ||| opens(text, "Replace { pattern: Regex(\" {2,}\"), "@)
    ||| opens(text, "Replace { pattern: Regex(\"\\\\s+\"), "@)
    ||| opens(text, "Replace { pattern: Regex(\"\\\\s{2,}\"), "@)
    ||| opens(text, "Replace { pattern: Regex(\"[\\\\n\\\\r\\\\t]\"), "@)
    ||| opens(text, "Replace { pattern: Regex(\"\\\\s{2,}|[\\\\n\\\\r\\\\t]\"), "@)
}

/// One text starts with another.
pub open spec fn opens(text: Seq<char>, start: Seq<char>) -> bool {
    crate::text::stands_at(text, start, 0)
}

/// Whether a text may start with something that stands for nothing of it once
/// one normalizer has run, given whether it may have before; `None` where the
/// normalizer does not take every such text.
pub open spec fn fronted(
    normalizer: tokenizers::NormalizerWrapper,
    depth: nat,
    before: bool,
) -> Option<bool>
    decreases depth, 0nat,
{
    match normalizer_kind(normalizer) {
        NormalizerKind::Prepend => Some(before || insertion_of(normalizer).len() == 0),
        NormalizerKind::Replace => if crate::text::holds(replacing_text(normalizer), "\\K"@) {
            None
        } else {
            Some(
                before || (insertion_of(normalizer).len() > 0 && may_match_nothing(
                    replacing_text(normalizer),
                )),
            )
        },
        NormalizerKind::Precompiled => None,
        NormalizerKind::Sequence => if depth == 0 {
            None
        } else {
            all_fronted(normalizers_in(normalizer), (depth - 1) as nat, before)
        },
        NormalizerKind::Other => if before {
            None
        } else {
            Some(false)
        },
    }
}

/// The same once several normalizers have run in order.
pub open spec fn all_fronted(
    members: Seq<tokenizers::NormalizerWrapper>,
    depth: nat,
    before: bool,
) -> Option<bool>
    decreases depth, members.len() + 1,
{
    if members.len() == 0 {
        Some(before)
    } else {
        match all_fronted(members.drop_last(), depth, before) {
            Some(then) => fronted(members.last(), depth, then),
            None => None,
        }
    }
}

/// Every pre-tokenizer takes every text; where a text may start with something
/// that stands for nothing of it, none maps bytes.
pub open spec fn pre_tokenizes(
    members: Seq<tokenizers::PreTokenizerWrapper>,
    depth: nat,
    front: bool,
) -> bool
    decreases depth,
{
    forall|i: int|
        0 <= i < members.len() ==> match pre_tokenizer_kind(#[trigger] members[i]) {
            PreTokenizerKind::FixedLength(length) => length > 0,
            PreTokenizerKind::Split => !crate::text::holds(cutting_pattern(members[i]), "\\K"@),
            PreTokenizerKind::ByteLevel => !front,
            PreTokenizerKind::Sequence => depth > 0 && pre_tokenizes(
                pre_tokenizers_in(members[i]),
                (depth - 1) as nat,
                front,
            ),
            PreTokenizerKind::Other => true,
        }
}

/// What a reader of quoted texts is in after the first `n` characters: 0 is
/// outside of quotes, 1 inside, and 2 inside behind a backslash.
pub open spec fn quoting(text: Seq<char>, n: nat) -> nat
    decreases n,
{
    if n == 0 {
        0
    } else {
        let c = text[n - 1];
        let before = quoting(text, (n - 1) as nat);
        if before == 0 {
            if c == '"' {
                1
            } else {
                0
            }
        } else if before == 1 {
            if c == '"' {
                0
            } else if c == '\\' {
                2
            } else {
                1
            }
        } else {
            1
        }
    }
}

/// A template written out asks for a second text, outside of what it quotes.
pub open spec fn asks_for_two(template: Seq<char>) -> bool {
    exists|i: int| #[trigger]
        crate::text::stands_at(template, "Sequence { id: B"@, i) && quoting(template, i as nat) == 0
}

/// No template for one text asks for a second one.
pub open spec fn processes(members: Seq<tokenizers::PostProcessorWrapper>, depth: nat) -> bool
    decreases depth,
{
    forall|i: int|
        0 <= i < members.len() ==> match post_processor_kind(#[trigger] members[i]) {
            PostProcessorKind::Template => !asks_for_two(template_of(members[i])),
            PostProcessorKind::Sequence => depth > 0 && processes(
                post_processors_in(members[i]),
                (depth - 1) as nat,
            ),
            PostProcessorKind::Other => true,
        }
}

/// How many of the post-processors are templates.
pub open spec fn templates(members: Seq<tokenizers::PostProcessorWrapper>, depth: nat) -> nat
    decreases depth, members.len(),
{
    if members.len() == 0 {
        0
    } else {
        templates(members.drop_last(), depth) + match post_processor_kind(members.last()) {
            PostProcessorKind::Template => 1nat,
            PostProcessorKind::Sequence => if depth == 0 {
                0
            } else {
                templates(post_processors_in(members.last()), (depth - 1) as nat)
            },
            PostProcessorKind::Other => 0,
        }
    }
}

/// The settings of a tokenizer are ones under which a text can be encoded, if
/// it need not be cut.
pub open spec fn takes_text(tokenizer: tokenizers::Tokenizer) -> bool {
    let front = all_fronted(normalizers_of(tokenizer), NESTING as nat, false);
    &&& pads(padding_of(tokenizer))
    &&& !draws_pieces(tokenizer)
    &&& forall|a: u32, b: u32| !#[trigger] clash(tokenizer, a, b)
    &&& front is Some
    &&& pre_tokenizes(pre_tokenizers_of(tokenizer), NESTING as nat, front->0)
    &&& processes(post_processors_of(tokenizer), NESTING as nat)
    &&& templates(post_processors_of(tokenizer), NESTING as nat) <= 1
}

/// The settings of a tokenizer are ones under which every text can be encoded.
pub open spec fn encodable(tokenizer: tokenizers::Tokenizer) -> bool {
    takes_text(tokenizer) && truncates(truncation_of(tokenizer))
}

/// Normalizers behind one that does not take every text change nothing.
proof fn lemma_front_stuck(
    members: Seq<tokenizers::NormalizerWrapper>,
    depth: nat,
    before: bool,
    n: int,
)
    requires
        0 <= n <= members.len(),
        all_fronted(members.take(n), depth, before) is None,
    ensures
        all_fronted(members, depth, before) is None,
    decreases members.len(),
{
    if n == members.len() {
        assert(members.take(n) =~= members);
    } else {
        assert(members.drop_last().take(n) =~= members.take(n));
        lemma_front_stuck(members.drop_last(), depth, before, n);
    }
}

/// Whether a replacing normalizer written out may match nothing.
fn matches_nothing(text: &str) -> (may: bool)
    ensures
        may == may_match_nothing(text@),
{
    if text_stands_at(text, "Replace { pattern: String(\"\"), ", 0) {
        true
    } else if text_stands_at(text, "Replace { pattern: Regex(", 0) {
        !(text_stands_at(text, "Replace { pattern: Regex(\" {2,}\"), ", 0) || text_stands_at(
            text,
            "Replace { pattern: Regex(\"\\\\s+\"), ",
            0,
        ) || text_stands_at(text, "Replace { pattern: Regex(\"\\\\s{2,}\"), ", 0)
            || text_stands_at(text, "Replace { pattern: Regex(\"[\\\\n\\\\r\\\\t]\"), ", 0)
            || text_stands_at(
            text,
            "Replace { pattern: Regex(\"\\\\s{2,}|[\\\\n\\\\r\\\\t]\"), ",
            0,
        ))
    } else {
        false
    }
}

/// What normalizers make of the start of a text.
fn front_of(
    members: &[tokenizers::NormalizerWrapper],
    depth: usize,
    before: bool,
) -> (front: Option<bool>)
    ensures
        front == all_fronted(members@, depth as nat, before),
    decreases depth,
{
    let mut held: bool = before;
    let mut i: usize = 0;
    proof {
        assert(members@.take(0) =~= Seq::empty());
    }
    while i < members.len()
        invariant
            i <= members@.len(),
            all_fronted(members@.take(i as int), depth as nat, before) == Some(held),
        decreases members@.len() - i,
    {
        let member: &tokenizers::NormalizerWrapper = &members[i];
        proof {
            assert(members@.take(i + 1).drop_last() =~= members@.take(i as int));
            assert(members@.take(i + 1).last() == *member);
        }
        let ghost now = fronted(*member, depth as nat, held);
        assert(all_fronted(members@.take(i + 1), depth as nat, before) == now);
        let next: Option<bool> = match kind_of_normalizer(member) {
            NormalizerKind::Prepend => {
                Some(held || get_insertion(member).as_str().unicode_len() == 0)
            },
            NormalizerKind::Replace => {
                let text: String = get_replacing(member);
                if text_holds(text.as_str(), "\\K") {
                    None
                } else {
                    Some(
                        held || (get_insertion(member).as_str().unicode_len() > 0
                            && matches_nothing(text.as_str())),
                    )
                }
            },
            NormalizerKind::Precompiled => None,
            NormalizerKind::Sequence => if depth == 0 {
                None
            } else {
                front_of(members_of_normalizer(member), depth - 1, held)
            },
            NormalizerKind::Other => if held {
                None
            } else {
                Some(false)
            },
        };
        match next {
            Some(then) => {
                held = then;
            },
            None => {
                proof {
                    lemma_front_stuck(members@, depth as nat, before, i + 1);
                }
                return None;
            },
        }
        i += 1;
    }
    proof {
        assert(members@.take(i as int) =~= members@);
    }
    Some(held)
}

/// Whether every pre-tokenizer takes every text.
fn all_pre_tokenize(
    members: &[tokenizers::PreTokenizerWrapper],
    depth: usize,
    front: bool,
) -> (fits: bool)
    ensures
        fits == pre_tokenizes(members@, depth as nat, front),
    decreases depth,
{
    let mut i: usize = 0;
    while i < members.len()
        invariant
            i <= members@.len(),
            forall|j: int|
                0 <= j < i ==> match pre_tokenizer_kind(#[trigger] members@[j]) {
                    PreTokenizerKind::FixedLength(length) => length > 0,
                    PreTokenizerKind::Split => !crate::text::holds(cutting_pattern(members@[j]), "\\K"@),
                    PreTokenizerKind::ByteLevel => !front,
                    PreTokenizerKind::Sequence => depth > 0 && pre_tokenizes(
                        pre_tokenizers_in(members@[j]),
                        (depth - 1) as nat,
                        front,
                    ),
                    PreTokenizerKind::Other => true,
                },
        decreases members@.len() - i,
    {
        let fits: bool = match kind_of_pre_tokenizer(&members[i]) {
            PreTokenizerKind::FixedLength(length) => length > 0,
            PreTokenizerKind::Split => {
                !text_holds(get_cutting_pattern(&members[i]).as_str(), "\\K")
            },
            PreTokenizerKind::ByteLevel => !front,
            PreTokenizerKind::Sequence => {
                depth > 0 && all_pre_tokenize(
                    members_of_pre_tokenizer(&members[i]),
                    depth - 1,
                    front,
                )
            },
            PreTokenizerKind::Other => true,
        };
        if !fits {
            return false;
        }
        i += 1;
    }
    true
}

/// Whether a template written out asks for a second text.
fn two_asked_for(template: &str) -> (two: bool)
    ensures
        two == asks_for_two(template@),
{
    proof {
        reveal_strlit("Sequence { id: B");
    }
    let n: usize = template.unicode_len();
    let mut state: u8 = 0;
    let mut i: usize = 0;
    while i < n
        invariant
            n == template@.len(),
            "Sequence { id: B"@.len() > 0,
            i <= n,
            state == quoting(template@, i as nat),
            state <= 2,
            forall|j: int|
                0 <= j < i && quoting(template@, j as nat) == 0 ==> !#[trigger] crate::text::stands_at(
                    template@,
                    "Sequence { id: B"@,
                    j,
                ),
        decreases n - i,
    {
        if state == 0 && text_stands_at(template, "Sequence { id: B", i) {
            return true;
        }
        let c: char = template.get_char(i);
        state = if state == 0 {
            if c == '"' {
                1
            } else {
                0
            }
        } else if state == 1 {
            if c == '"' {
                0
            } else if c == '\\' {
                2
            } else {
                1
            }
        } else {
            1
        };
        i += 1;
    }
    false
}

/// Whether no template for one text asks for a second one.
fn all_process(members: &[tokenizers::PostProcessorWrapper], depth: usize) -> (fits: bool)
    ensures
        fits == processes(members@, depth as nat),
    decreases depth,
{
    let mut i: usize = 0;
    while i < members.len()
        invariant
            i <= members@.len(),
            forall|j: int|
                0 <= j < i ==> match post_processor_kind(#[trigger] members@[j]) {
                    PostProcessorKind::Template => !asks_for_two(template_of(members@[j])),
                    PostProcessorKind::Sequence => depth > 0 && processes(
                        post_processors_in(members@[j]),
                        (depth - 1) as nat,
                    ),
                    PostProcessorKind::Other => true,
                },
        decreases members@.len() - i,
    {
        let fits: bool = match kind_of_post_processor(&members[i]) {
            PostProcessorKind::Template => !two_asked_for(get_single(&members[i]).as_str()),
            PostProcessorKind::Sequence => {
                depth > 0 && all_process(members_of_post_processor(&members[i]), depth - 1)
            },
            PostProcessorKind::Other => true,
        };
        if !fits {
            return false;
        }
        i += 1;
    }
    true
}

/// The templates among the first post-processors are no more than all of them.
proof fn lemma_templates_grow(
    members: Seq<tokenizers::PostProcessorWrapper>,
    depth: nat,
    n: int,
)
    requires
        0 <= n <= members.len(),
    ensures
        templates(members.take(n), depth) <= templates(members, depth),
    decreases members.len(),
{
    if n == members.len() {
        assert(members.take(n) =~= members);
    } else {
        assert(members.drop_last().take(n) =~= members.take(n));
        lemma_templates_grow(members.drop_last(), depth, n);
    }
}

/// How many of the post-processors are templates, or two where there are more.
fn count_templates(members: &[tokenizers::PostProcessorWrapper], depth: usize) -> (count: u8)
    ensures
        count <= 2,
        count < 2 ==> count == templates(members@, depth as nat),
        count == 2 ==> templates(members@, depth as nat) >= 2,
    decreases depth,
{
    let mut count: u8 = 0;
    let mut i: usize = 0;
    proof {
        assert(members@.take(0) =~= Seq::empty());
    }
    while i < members.len()
        invariant
            i <= members@.len(),
            count < 2,
            count == templates(members@.take(i as int), depth as nat),
        decreases members@.len() - i,
    {
        let more: u8 = match kind_of_post_processor(&members[i]) {
            PostProcessorKind::Template => 1,
            PostProcessorKind::Sequence => if depth == 0 {
                0
            } else {
                count_templates(members_of_post_processor(&members[i]), depth - 1)
            },
            PostProcessorKind::Other => 0,
        };
        proof {
            assert(members@.take(i + 1).drop_last() =~= members@.take(i as int));
            assert(members@.take(i + 1).last() == members@[i as int]);
        }
        if count + more >= 2 {
            proof {
                lemma_templates_grow(members@, depth as nat, i + 1);
            }
            return 2;
        }
        count = count + more;
        i += 1;
    }
    proof {
        assert(members@.take(i as int) =~= members@);
    }
    count
}

/// Whether a text holds nothing but white space.
fn is_blank(text: &str) -> (empty: bool)
    ensures
        empty == blank(text@),
{
    let n: usize = text.unicode_len();
    let mut i: usize = 0;
    while i < n
        invariant
            i <= n,
            n == text@.len(),
            forall|j: int| 0 <= j < i ==> crate::text::is_white(#[trigger] text@[j]),
        decreases n - i,
    {
        if !crate::text::white(text.get_char(i)) {
            return false;
        }
        i += 1;
    }
    true
}

/// Whether no two added tokens clash over white space.
fn added_tokens_agree(tokenizer: &tokenizers::Tokenizer) -> (agree: bool)
    ensures
        agree == (forall|a: u32, b: u32| !#[trigger] clash(*tokenizer, a, b)),
{
    let added: Vec<AddedToken> = get_added_tokens(tokenizer);
    let mut right: Option<u32> = None;
    let mut left: Option<u32> = None;
    let mut i: usize = 0;
    while i < added.len()
        invariant
            i <= added@.len(),
            forall|j: int|
                0 <= j < added@.len() ==> added_tokens(*tokenizer).contains_pair(
                    (#[trigger] added@[j]).id,
                    (added@[j].content@, added@[j].lstrip, added@[j].rstrip, added@[j].normalized),
                ),
            right matches Some(a) ==> added_tokens(*tokenizer).contains_key(a) && added_tokens(
                *tokenizer,
            )[a].2,
            right is None ==> forall|j: int| 0 <= j < i ==> !(#[trigger] added@[j]).rstrip,
            left matches Some(b) ==> takes_left_alone(*tokenizer, b),
            left is None ==> forall|j: int|
                0 <= j < i ==> !takes_left_alone(*tokenizer, (#[trigger] added@[j]).id),
        decreases added@.len() - i,
    {
        let token: &AddedToken = &added[i];
        if token.rstrip {
            right = Some(token.id);
        } else if token.lstrip && (token.normalized || is_blank(token.content.as_str())) {
            left = Some(token.id);
        }
        i += 1;
    }
    proof {
        assert forall|a: u32, b: u32| !(right is Some && left is Some) implies !#[trigger] clash(
            *tokenizer,
            a,
            b,
        ) by {
            if clash(*tokenizer, a, b) {
                let j = choose|j: int| 0 <= j < added@.len() && (#[trigger] added@[j]).id == a;
                let k = choose|k: int| 0 <= k < added@.len() && (#[trigger] added@[k]).id == b;
                assert(added@[j].rstrip);
                assert(takes_left_alone(*tokenizer, added@[k].id));
            }
        }
        if right is Some && left is Some {
            assert(clash(*tokenizer, right->0, left->0));
        }
    }
    !(right.is_some() && left.is_some())
}

/// Whether a text that need not be cut can be encoded under the settings of a
/// tokenizer.
pub(crate) fn text_fits(tokenizer: &tokenizers::Tokenizer) -> (fits: bool)
    ensures
        fits == takes_text(*tokenizer),
{
    let limit: usize = usize::MAX / 256;
    let padding_fits: bool = match get_padding(tokenizer) {
        Some((size, multiple)) => {
            (match size {
                Some(size) => size <= limit,
                None => true,
            }) && (match multiple {
                Some(multiple) => multiple <= limit,
                None => true,
            })
        },
        None => true,
    };
    match front_of(get_normalizer(tokenizer), NESTING, false) {
        Some(front) => {
            padding_fits && !has_alpha(tokenizer) && added_tokens_agree(tokenizer)
                && all_pre_tokenize(get_pre_tokenizer(tokenizer), NESTING, front) && all_process(
                get_post_processor(tokenizer),
                NESTING,
            ) && count_templates(get_post_processor(tokenizer), NESTING) <= 1
        },
        None => false,
    }
}

/// Whether every text can be encoded under the settings of a tokenizer.
pub fn encodes(tokenizer: &tokenizers::Tokenizer) -> (fits: bool)
    ensures
        fits == encodable(*tokenizer),
{
    let truncation_fits: bool = match get_truncation(tokenizer) {
        Some((max_length, stride)) => max_length == 0 || stride < max_length,
        None => true,
    };
    truncation_fits && text_fits(tokenizer)
}

} // verus!
