//! The decisions of the two programs: ingest, and the interactive one.

use anaphora::binary32::Binary32;
use anaphora::chunk::ChunkAdmission;
use anaphora::corpus::Document;
use anaphora::number::{parse_bytes, parse_u64};
use anaphora::play::arguments::{parse_seed, PlayArgs};
use anaphora::play::engine::{load_docs, load_index, Engine};
use anaphora::play::pretrain::{training_windows, Pretrainer};
use anaphora::play::{
    is_quit, pad_token, piped_prompt, retrofit_seed, retrofit_trainer, retrofit_window, setup,
    setup_for, shapes, turn, weight_source, Turn, WeightSource,
};
use anaphora::prepare::{document_id, Admission, Ingest, IngestOptions, PrepareArgs};
use anaphora::retrieval::corpus::DocumentId;
use anaphora::retrieval::leakage::LeakageGuard;
use anaphora::retrieval::Neighbours;
use anaphora::sample::Denoiser;
use anaphora::shard::{split_of, CorpusShard, ShardError, Split};
use anaphora::text::{decimal, trim, trim_end};
use anaphora::tokenizer::{
    article_from, cap_prompt, decode_ids, encode_article, encode_prompt, encode_text, encodes,
    first_known, mask_token_id, prompt_from, refuse_longer, vocab_size,
};
use anaphora::tokenizer::decoding::worded;
use anaphora::train::NoiseSampler;
use anaphora::view::{IdSource, MaskToken, NoisedView};

fn b(v: f32) -> Binary32 {
    Binary32::from_bits(v.to_bits())
}

fn f(x: Binary32) -> f32 {
    f32::from_bits(x.to_bits())
}

fn tokenizer_with(entries: &str, added: &str) -> tokenizers::Tokenizer {
    let json = format!(
        "{{\"version\":\"1.0\",\"truncation\":null,\"padding\":null,\"added_tokens\":[{added}],\
         \"normalizer\":null,\"pre_tokenizer\":{{\"type\":\"Whitespace\"}},\
         \"post_processor\":null,\"decoder\":null,\
         \"model\":{{\"type\":\"WordLevel\",\"vocab\":{{{entries}}},\"unk_token\":\"[UNK]\"}}}}"
    );
    json.parse().expect("a tokenizer")
}

fn tokenizer() -> tokenizers::Tokenizer {
    tokenizer_with(
        "\"[UNK]\":0,\"[MASK]\":1,\"the\":2,\"cat\":3,\"sat\":4,\"on\":5,\"mat\":6",
        "",
    )
}

/// A tokenizer of words with the given truncation, padding, added tokens,
/// pre-tokenizer, post-processor and decoder.
fn tokenizer_set(settings: [&str; 6]) -> tokenizers::Tokenizer {
    normalizing_tokenizer("null", settings)
}

/// The same, with the given normalizer.
fn normalizing_tokenizer(normalizer: &str, settings: [&str; 6]) -> tokenizers::Tokenizer {
    let [truncation, padding, added, pre_tokenizer, post_processor, decoder] = settings;
    let json = format!(
        "{{\"version\":\"1.0\",\"truncation\":{truncation},\"padding\":{padding},\
         \"added_tokens\":[{added}],\"normalizer\":{normalizer},\
         \"pre_tokenizer\":{pre_tokenizer},\
         \"post_processor\":{post_processor},\"decoder\":{decoder},\
         \"model\":{{\"type\":\"WordLevel\",\"vocab\":{{\"[UNK]\":0,\"the\":1,\"cat\":2,\
         \"ca_\":3,\"__\":4,\"_\":5}},\"unk_token\":\"[UNK]\"}}}}"
    );
    json.parse().expect("a tokenizer")
}

const SPLIT: &str = "{\"type\":\"Whitespace\"}";

fn args(list: &[&str]) -> Vec<String> {
    list.iter().map(|s| s.to_string()).collect()
}

#[test]
fn numbers_are_read_as_std_reads_them() {
    for text in [
        "0", "7", "+7", "007", "18446744073709551615", "18446744073709551616", "", "+", "-1", "1x",
        " 1", "1 ", "\u{661}",
    ] {
        assert_eq!(parse_u64(text, u64::MAX), text.parse::<u64>().ok(), "{text:?}");
        assert_eq!(
            parse_u64(text, u64::from(u32::MAX)),
            text.parse::<u32>().ok().map(u64::from),
            "{text:?}"
        );
    }
    for text in ["ff", "FF", "+aB", "g", "", "ffffffffffffffff", "10000000000000000"] {
        assert_eq!(
            parse_bytes(text.as_bytes(), 16, u64::MAX),
            u64::from_str_radix(text, 16).ok(),
            "{text:?}"
        );
    }
    assert_eq!(decimal(0), "0");
    assert_eq!(decimal(u64::MAX), "18446744073709551615");
}

#[test]
fn text_is_trimmed_as_std_trims_it() {
    for text in ["", "  ", "a", " a b \n", "\u{a0}x\u{3000}", "\u{200b}x", "\t\u{2028}y\u{85}"] {
        assert_eq!(trim(text), text.trim(), "{text:?}");
        assert_eq!(trim_end(text), text.trim_end(), "{text:?}");
    }
}

#[test]
fn numeric_article_ids_are_kept_and_others_hashed() {
    assert_eq!(document_id("12"), DocumentId(12));
    assert_eq!(document_id("+12"), DocumentId(12));
    let mut h: u64 = 0xcbf2_9ce4_8422_2325;
    for byte in "Q42".bytes() {
        h ^= u64::from(byte);
        h = h.wrapping_mul(0x0000_0100_0000_01b3);
    }
    assert_eq!(document_id("Q42"), DocumentId(h | (1 << 63)));
    assert!(document_id("").0 >= 1 << 63);
    assert_ne!(document_id("Q42"), document_id("Q43"));
}

fn options() -> IngestOptions {
    IngestOptions {
        train: 8,
        index: 1,
        eval: 1,
        limit: Some(3),
        min_tokens: 2,
    }
}

#[test]
fn ingest_counts_drops_and_stops() {
    let mut ingest = Ingest::new(options());
    assert_eq!(ingest.next(false), Admission::Skip);
    assert_eq!(ingest.next(true), Admission::Take);
    ingest.keep("1", vec![1]);
    assert_eq!(ingest.next(true), Admission::Take);
    ingest.keep("2", vec![1, 2]);
    assert_eq!(ingest.next(true), Admission::Take);
    ingest.keep("3", vec![1, 2, 3]);
    assert_eq!(ingest.next(true), Admission::Stop);
    assert_eq!(ingest.counts(), (4, 2, 1));
    assert!(ingest.reports(5));
    assert!(!ingest.reports(4));
}

#[test]
fn every_document_lands_in_the_shard_of_its_split() {
    let mut ingest = Ingest::new(IngestOptions {
        limit: None,
        ..options()
    });
    for id in 0..200u64 {
        assert_eq!(ingest.next(true), Admission::Take);
        ingest.keep(&id.to_string(), vec![id as u32; 2]);
    }
    let (train, index, eval) = ingest.finish(99, 7);
    let mut total = 0;
    for (shard, split) in [
        (&train, Split::Train),
        (&index, Split::Index),
        (&eval, Split::Eval),
    ] {
        assert_eq!(shard.vocab_size, 99);
        assert_eq!(shard.mask_token, 7);
        assert!(!shard.documents.is_empty());
        for d in &shard.documents {
            assert_eq!(split_of(d.id, 8, 1, 1), split);
        }
        total += shard.documents.len();
    }
    assert_eq!(total, 200);
}

#[test]
fn rows_of_a_dump_are_tokenized() {
    let t = tokenizer();
    let mut ingest = Ingest::new(options());
    assert_eq!(ingest.row(&t, None, Some("the cat")), Ok(true));
    assert_eq!(ingest.row(&t, Some("5"), None), Ok(true));
    assert_eq!(ingest.counts().0, 0, "neither was counted");
    assert_eq!(ingest.row(&t, Some("5"), Some("the cat sat")), Ok(true));
    assert_eq!(ingest.row(&t, Some("6"), Some("the")), Ok(true));
    assert_eq!(ingest.row(&t, Some("7"), Some("on the mat")), Ok(true));
    assert_eq!(ingest.row(&t, Some("8"), Some("on the mat")), Ok(false));
    assert_eq!(ingest.counts(), (4, 2, 1));
    let (train, index, eval) = ingest.finish(7, 1);
    let mut tokens: Vec<Vec<u32>> = [train, index, eval]
        .into_iter()
        .flat_map(|s| s.documents)
        .map(|d| d.tokens)
        .collect();
    tokens.sort();
    assert_eq!(tokens, vec![vec![2, 3, 4], vec![5, 2, 6]]);
}

#[test]
fn the_ingest_command_line_is_read() {
    let parsed = PrepareArgs::parse(&args(&[
        "--parquet", "a.parquet", "--tokenizer", "t.json", "--out", "dir", "--limit", "10",
        "--train", "5", "--index", "0", "--eval", "2", "--min-tokens", "64", "--parquet", "b",
    ]))
    .expect("complete");
    assert_eq!(parsed.parquet, "b");
    assert_eq!(parsed.tokenizer, "t.json");
    assert_eq!(parsed.out, "dir");
    assert_eq!(
        parsed.options,
        IngestOptions {
            train: 5,
            index: 0,
            eval: 2,
            limit: Some(10),
            min_tokens: 64,
        }
    );
    let defaults =
        PrepareArgs::parse(&args(&["--parquet", "a", "--tokenizer", "t", "--out", "d"]))
            .expect("complete");
    assert_eq!(defaults.options.train, 8);
    assert_eq!(defaults.options.index, 1);
    assert_eq!(defaults.options.eval, 1);
    assert_eq!(defaults.options.limit, None);
    assert_eq!(defaults.options.min_tokens, 128);
    for bad in [
        &["--parquet", "a", "--tokenizer", "t"][..],
        &["--parquet", "a", "--tokenizer", "t", "--out"][..],
        &["--parquet", "a", "--tokenizer", "t", "--out", "d", "--train", "x"][..],
        &["--parquet", "a", "--tokenizer", "t", "--out", "d", "--what", "1"][..],
        &["--help"][..],
        &["-h"][..],
    ] {
        assert!(PrepareArgs::parse(&args(bad)).is_none(), "{bad:?}");
    }
}

#[test]
fn the_interactive_command_line_is_read() {
    let defaults = PlayArgs::parse(&[]).expect("nothing is needed");
    assert_eq!(defaults.tokenizer, "corpus/tokenizer.json");
    assert_eq!(defaults.corpus, "corpus");
    assert_eq!(defaults.checkpoint, "runs/play.ckpt");
    assert_eq!(defaults.seq_len, 128);
    assert_eq!(defaults.steps, 16);
    assert_eq!(defaults.max_docs, 2000);
    assert_eq!(defaults.train_docs, 20_000);
    assert_eq!(defaults.seed, 0xBA5E);
    assert!(!defaults.train);
    assert_eq!(defaults.pretrain_steps, 40_000);
    assert_eq!(defaults.train_steps, 1_000);
    assert!(defaults.rates.is_empty());
    assert!(defaults.prompt.is_none());
    let parsed = PlayArgs::parse(&args(&[
        "--train", "--prompt", "The cat", "--seed", "0xFF", "--steps", "4", "--lr", "1e-3", "--lr",
        "2e-3", "--seq-len", "64", "--max-docs", "1", "--train-docs", "2", "--pretrain-steps", "3",
        "--train-steps", "5", "--corpus", "c", "--tokenizer", "t", "--checkpoint", "k",
    ]))
    .expect("understood");
    assert!(parsed.train);
    assert_eq!(parsed.prompt.as_deref(), Some("The cat"));
    assert_eq!(parsed.seed, 255);
    assert_eq!(parsed.steps, 4);
    assert_eq!(parsed.rates, vec!["1e-3", "2e-3"]);
    assert_eq!(parsed.seq_len, 64);
    assert_eq!(
        (parsed.max_docs, parsed.train_docs, parsed.pretrain_steps, parsed.train_steps),
        (1, 2, 3, 5)
    );
    assert_eq!(
        (&parsed.corpus[..], &parsed.tokenizer[..], &parsed.checkpoint[..]),
        ("c", "t", "k")
    );
    for bad in [&["--prompt"][..], &["--steps", "-1"], &["-h"], &["--nope", "1"]] {
        assert!(PlayArgs::parse(&args(bad)).is_none(), "{bad:?}");
    }
    assert_eq!(parse_seed("0X10"), Some(16));
    assert_eq!(parse_seed("10"), Some(10));
    assert_eq!(parse_seed("0x"), None);
    assert_eq!(parse_seed("x10"), None);
}

#[test]
fn the_mask_token_goes_by_three_names() {
    let t = tokenizer();
    assert_eq!(vocab_size(&t), 7);
    assert_eq!(mask_token_id(&t), Ok(1));
    let both = tokenizer_with("\"[UNK]\":0,\"<mask>\":1,\"<|mdm_mask|>\":2", "");
    assert_eq!(mask_token_id(&both), Ok(2));
    let none = tokenizer_with("\"[UNK]\":0", "");
    assert_eq!(
        mask_token_id(&none),
        Err("tokenizer has no recognisable mask token".to_string())
    );
    let added = tokenizer_with(
        "\"[UNK]\":0,\"a\":1",
        "{\"id\":2,\"content\":\"<mask>\",\"single_word\":false,\"lstrip\":false,\
         \"rstrip\":false,\"normalized\":false,\"special\":true}",
    );
    assert_eq!(mask_token_id(&added), Ok(2));
    assert_eq!(vocab_size(&added), 3);
    assert_eq!(first_known(None, Some(4), Some(5)), Ok(4));
    assert_eq!(first_known(None, None, Some(5)), Ok(5));
    assert!(first_known(None, None, None).is_err());
}

#[test]
fn prompts_are_encoded_and_capped() {
    let t = tokenizer();
    assert_eq!(encode_prompt(&t, "the cat sat", 16), Ok(vec![2, 3, 4]));
    assert_eq!(encode_prompt(&t, "the cat sat", 3), Ok(vec![2, 3]));
    assert_eq!(encode_prompt(&t, "the cat", 1), Ok(vec![2]));
    assert_eq!(encode_article(&t, "1", "the dog"), Ok(vec![2, 0]));
    assert_eq!(decode_ids(&t, &[2, 3, 4]), Ok("the cat sat".to_string()));
    assert_eq!(cap_prompt(vec![1, 2, 3], 2), vec![1]);
    assert_eq!(cap_prompt(vec![1, 2, 3], 0), vec![1]);
    assert_eq!(cap_prompt(vec![1, 2, 3], 4), vec![1, 2, 3]);
}

fn truncation(max_length: usize, stride: usize) -> String {
    format!(
        "{{\"direction\":\"Right\",\"max_length\":{max_length},\
         \"strategy\":\"LongestFirst\",\"stride\":{stride}}}"
    )
}

#[test]
fn a_stride_stays_below_the_length_it_cuts_to() {
    let set = |max_length: usize, stride: usize| {
        tokenizer_set([&truncation(max_length, stride), "null", "", SPLIT, "null", "null"])
    };
    let good = set(2, 1);
    assert!(encodes(&good));
    assert_eq!(encode_prompt(&good, "the cat the cat", 16), Ok(vec![1, 2]));
    assert_eq!(encode_article(&set(0, 5), "7", "the cat"), Ok(vec![]));
    let bad = set(2, 2);
    assert!(!encodes(&bad));
    // Only a text that would have to be cut is refused.
    assert_eq!(encode_article(&bad, "7", "the cat"), Ok(vec![1, 2]));
    assert_eq!(
        encode_prompt(&bad, "the cat the cat", 16),
        Err("encoding prompt: the tokenizer's truncation cannot cut this text".to_string())
    );
    assert_eq!(
        encode_article(&bad, "7", "the cat the cat"),
        Err("tokenizing article 7: the tokenizer's truncation cannot cut this text".to_string())
    );
    assert_eq!(refuse_longer(Ok(vec![4, 5]), 2), Ok(vec![4, 5]));
    assert_eq!(
        refuse_longer(Ok(vec![4, 5, 6]), 2),
        Err("the tokenizer's truncation cannot cut this text".to_string())
    );
    assert_eq!(refuse_longer(Err("no".to_string()), 2), Err("no".to_string()));
}

#[test]
fn a_failed_encoding_is_put_in_words() {
    assert_eq!(prompt_from(Ok(vec![4, 5, 6]), 3), Ok(vec![4, 5]));
    assert_eq!(prompt_from(Err("no".to_string()), 3), Err("encoding prompt: no".to_string()));
    assert_eq!(article_from(Ok(vec![4, 5, 6]), "7"), Ok(vec![4, 5, 6]));
    assert_eq!(
        article_from(Err("no".to_string()), "7"),
        Err("tokenizing article 7: no".to_string())
    );
    assert_eq!(worded(Ok("a".to_string())), Ok("a".to_string()));
    assert_eq!(worded(Err("no".to_string())), Err("decoding: no".to_string()));
    // A model without a token for what it does not know fails of itself.
    let strict: tokenizers::Tokenizer = "{\"version\":\"1.0\",\"truncation\":null,\
        \"padding\":null,\"added_tokens\":[],\"normalizer\":null,\
        \"pre_tokenizer\":{\"type\":\"Whitespace\"},\"post_processor\":null,\
        \"decoder\":null,\"model\":{\"type\":\"WordLevel\",\"vocab\":{\"the\":1},\
        \"unk_token\":\"[UNK]\"}}"
        .parse()
        .expect("a tokenizer");
    assert_eq!(encode_text(&strict, "the the"), Ok(vec![1, 1]));
    let error = encode_text(&strict, "cat").unwrap_err();
    assert_eq!(encode_prompt(&strict, "cat", 9), Err(format!("encoding prompt: {error}")));
}

#[test]
fn padding_has_a_length() {
    let set = |size: &str, multiple: &str| {
        let padding = format!(
            "{{\"strategy\":{{\"Fixed\":{size}}},\"direction\":\"Right\",\
             \"pad_to_multiple_of\":{multiple},\"pad_id\":0,\"pad_type_id\":0,\
             \"pad_token\":\"[UNK]\"}}"
        );
        tokenizer_set(["null", &padding, "", SPLIT, "null", "null"])
    };
    assert_eq!(encode_article(&set("3", "4"), "7", "cat"), Ok(vec![2, 0, 0, 0]));
    assert_eq!(encode_article(&set("3", "null"), "7", "cat"), Ok(vec![2, 0, 0]));
    assert!(!encodes(&set("18446744073709551615", "null")));
    assert!(!encodes(&set("1", "18446744073709551615")));
}

#[test]
fn what_is_put_in_front_is_something() {
    let set = |normalizer: &str| {
        normalizing_tokenizer(normalizer, ["null", "null", "", SPLIT, "null", "null"])
    };
    let front = |text: &str| format!("{{\"type\":\"Prepend\",\"prepend\":\"{text}\"}}");
    let chain = |first: &str| {
        set(&format!(
            "{{\"type\":\"Sequence\",\"normalizers\":[{first},{{\"type\":\"Lowercase\"}}]}}"
        ))
    };
    assert_eq!(encode_article(&set(&front("the ")), "7", "cat"), Ok(vec![1, 2]));
    assert_eq!(encode_article(&chain(&front("THE ")), "7", "CAT"), Ok(vec![1, 2]));
    // Nothing in front is harmless where no character is mapped later.
    assert_eq!(encode_article(&set(&front("")), "7", "the cat"), Ok(vec![1, 2]));
    assert!(!encodes(&chain(&front(""))));
    assert_eq!(
        encode_text(&chain(&front("")), "the cat"),
        Err("the tokenizer's settings take no text".to_string())
    );
    let replace = |pattern: &str, content: &str| {
        format!("{{\"type\":\"Replace\",\"pattern\":{{{pattern}}},\"content\":\"{content}\"}}")
    };
    let spaces = replace("\"Regex\":\" {2,}\"", " ");
    assert_eq!(encode_article(&chain(&spaces), "7", "THE   CAT"), Ok(vec![1, 2]));
    let any_space = replace("\"Regex\":\"\\\\s+\"", " ");
    assert_eq!(encode_article(&chain(&any_space), "7", "THE   CAT"), Ok(vec![1, 2]));
    let fixed = replace("\"String\":\"DOG\"", "CAT");
    assert_eq!(encode_article(&chain(&fixed), "7", "THE DOG"), Ok(vec![1, 2]));
    // What may match nothing may put a text in front.
    for loose in [
        replace("\"Regex\":\"x*\"", "y"),
        replace("\"String\":\"\"", "y"),
    ] {
        assert!(encodes(&set(&loose)), "{loose}");
        assert!(!encodes(&chain(&loose)), "{loose}");
    }
    assert!(encodes(&chain(&replace("\"Regex\":\"x*\"", ""))));
    let bytes = "{\"type\":\"ByteLevel\",\"add_prefix_space\":false,\"trim_offsets\":true,\
                 \"use_regex\":true}";
    let byte_level = |normalizer: &str| {
        normalizing_tokenizer(normalizer, ["null", "null", "", bytes, "null", "null"])
    };
    assert!(encodes(&byte_level(&spaces)));
    assert!(!encodes(&byte_level(&replace("\"Regex\":\"x*\"", "y"))));
}

#[test]
fn patterns_and_tables_are_weighed() {
    let normalizing = |normalizer: &str| {
        normalizing_tokenizer(normalizer, ["null", "null", "", SPLIT, "null", "null"])
    };
    let cutting = |pattern: &str| {
        let split = format!(
            "{{\"type\":\"Split\",\"pattern\":{{{pattern}}},\"behavior\":\"Removed\",\
             \"invert\":false}}"
        );
        tokenizer_set(["null", "null", "", &split, "null", "null"])
    };
    assert_eq!(encode_article(&cutting("\"Regex\":\" +\""), "7", "the  cat"), Ok(vec![1, 2]));
    assert_eq!(encode_article(&cutting("\"String\":\" \""), "7", "the cat"), Ok(vec![1, 2]));
    assert!(!encodes(&cutting("\"Regex\":\"(?=e \\\\K)\"")));
    assert!(!encodes(&normalizing(
        "{\"type\":\"Replace\",\"pattern\":{\"Regex\":\"a\\\\Kb\"},\"content\":\"c\"}"
    )));
    // A search that is given up ends there.
    let greedy = cutting("\"Regex\":\"(a+)+\\\\1b\"");
    assert_eq!(encode_article(&greedy, "7", &"a".repeat(60)), Ok(vec![0]));
    assert!(!encodes(&normalizing(
        "{\"type\":\"Precompiled\",\"precompiled_charsmap\":\"AAAAAA==\"}"
    )));
    let pieces = vec![("<unk>".to_string(), 0.0), ("a".to_string(), -1.0)];
    let mut model =
        tokenizers::models::unigram::Unigram::from(pieces, Some(0), false).expect("a model");
    assert_eq!(
        encode_text(&tokenizers::Tokenizer::new(model.clone()), "a"),
        Ok(vec![1])
    );
    model.alpha = Some(0.5);
    assert!(!encodes(&tokenizers::Tokenizer::new(model)));
}

#[test]
fn pieces_have_a_length() {
    let set = |pre_tokenizer: &str| {
        tokenizer_set(["null", "null", "", pre_tokenizer, "null", "null"])
    };
    let three = "{\"type\":\"FixedLength\",\"length\":3}";
    let none = "{\"type\":\"FixedLength\",\"length\":0}";
    assert_eq!(encode_article(&set(three), "7", "thecat"), Ok(vec![1, 2]));
    assert!(!encodes(&set(none)));
    let chain = |last: &str| {
        set(&format!("{{\"type\":\"Sequence\",\"pretokenizers\":[{SPLIT},{last}]}}"))
    };
    assert_eq!(encode_article(&chain(three), "7", "the cat"), Ok(vec![1, 2]));
    assert!(!encodes(&chain(none)));
    assert!(encodes(&set("null")));
}

#[test]
fn a_template_is_for_one_text() {
    let template = |id: &str| {
        format!(
            "{{\"type\":\"TemplateProcessing\",\
             \"single\":[{{\"Sequence\":{{\"id\":\"{id}\",\"type_id\":0}}}}],\
             \"pair\":[],\"special_tokens\":{{}}}}"
        )
    };
    let set = |processor: &str| tokenizer_set(["null", "null", "", SPLIT, processor, "null"]);
    assert_eq!(encode_article(&set(&template("A")), "7", "the cat"), Ok(vec![1, 2]));
    assert!(!encodes(&set(&template("B"))));
    let chain = |members: &[&str]| {
        let members = members.join(",");
        set(&format!("{{\"type\":\"Sequence\",\"processors\":[{members}]}}"))
    };
    let bytes = "{\"type\":\"ByteLevel\",\"add_prefix_space\":true,\"trim_offsets\":true,\
                 \"use_regex\":true}";
    let once = chain(&[bytes, &template("A")]);
    assert_eq!(encode_article(&once, "7", "the cat"), Ok(vec![1, 2]));
    assert!(!encodes(&chain(&[&template("A"), &template("A")])));
    assert!(!encodes(&chain(&[bytes, &template("B")])));
    // The marker of a second text in a token's name is only a name.
    let named = "{\"type\":\"TemplateProcessing\",\"single\":[{\"SpecialToken\":\
                 {\"id\":\"\\\"Sequence { id: B\",\"type_id\":0}},{\"Sequence\":{\"id\":\"A\",\
                 \"type_id\":0}}],\"pair\":[],\"special_tokens\":{\"\\\"Sequence { id: B\":\
                 {\"id\":\"\\\"Sequence { id: B\",\"ids\":[0],\"tokens\":[\"[UNK]\"]}}}";
    assert_eq!(encode_article(&set(named), "7", "the cat"), Ok(vec![1, 2]));
}

#[test]
fn added_tokens_agree_on_white_space() {
    let token = |id: u32, content: &str, lstrip: bool, rstrip: bool| {
        format!(
            "{{\"id\":{id},\"content\":\"{content}\",\"single_word\":false,\
             \"lstrip\":{lstrip},\"rstrip\":{rstrip},\"normalized\":false,\"special\":false}}"
        )
    };
    let set = |added: &[String]| {
        tokenizer_set(["null", "null", &added.join(","), SPLIT, "null", "null"])
    };
    let mask = token(6, "<mask>", true, false);
    let greedy = token(7, "<x>", false, true);
    let blank = token(8, " ", true, false);
    let fine = set(&[mask.clone(), greedy.clone()]);
    assert_eq!(encode_article(&fine, "7", "the <mask> cat"), Ok(vec![1, 6, 2]));
    assert_eq!(encode_article(&fine, "7", "the<x>  cat"), Ok(vec![1, 7, 2]));
    assert!(encodes(&set(&[mask, blank.clone()])));
    assert!(!encodes(&set(&[greedy.clone(), blank])));
    // What the normalizer makes of a token may be white space.
    let normalized = token(8, "<y>", true, false).replace(
        "\"normalized\":false",
        "\"normalized\":true",
    );
    assert!(encodes(&set(&[normalized.clone()])));
    assert!(!encodes(&set(&[greedy, normalized])));
}

#[test]
fn a_decoder_is_asked_what_it_takes() {
    let set = |decoder: &str| tokenizer_set(["null", "null", "", SPLIT, "null", decoder]);
    let refused = Err("decoding: the decoder does not take these tokens".to_string());
    let strip = |start: usize, stop: usize| {
        format!("{{\"type\":\"Strip\",\"content\":\"_\",\"start\":{start},\"stop\":{stop}}}")
    };
    let bpe = "{\"type\":\"BPEDecoder\",\"suffix\":\"_\"}";
    // "ca_" loses its end, "__" and "_" cannot lose as much as is asked.
    let two = set(&strip(0, 2));
    assert_eq!(decode_ids(&two, &[3]), Ok("ca".to_string()));
    assert_eq!(decode_ids(&two, &[1, 4]), Ok("the".to_string()));
    assert_eq!(decode_ids(&two, &[5]), refused);
    assert_eq!(decode_ids(&set(&strip(1, 0)), &[4, 5]), Ok("_".to_string()));
    assert_eq!(decode_ids(&set(&strip(1, 2)), &[4]), refused);
    // A list without a known token has no last one.
    assert_eq!(decode_ids(&set(bpe), &[3, 3]), Ok("ca ca".to_string()));
    assert_eq!(decode_ids(&set(bpe), &[]), refused);
    assert_eq!(decode_ids(&set(bpe), &[99]), refused);
    // What the first stage makes is what comes to the second.
    let chain = |members: &[&str]| {
        let members = members.join(",");
        set(&format!("{{\"type\":\"Sequence\",\"decoders\":[{members}]}}"))
    };
    let fuse = "{\"type\":\"Fuse\"}";
    assert_eq!(decode_ids(&chain(&[fuse, &strip(0, 2)]), &[1, 5]), Ok("the".to_string()));
    assert_eq!(decode_ids(&chain(&[&strip(0, 2), fuse]), &[1, 5]), refused);
    assert_eq!(decode_ids(&chain(&[fuse, bpe]), &[]), Ok(String::new()));
    let replace = |pattern: &str| {
        format!(
            "{{\"type\":\"Replace\",\"pattern\":{{\"Regex\":\"{pattern}\"}},\"content\":\"x\"}}"
        )
    };
    assert_eq!(decode_ids(&set(&replace("_+")), &[3, 4]), Ok("caxx".to_string()));
    assert_eq!(decode_ids(&set(&replace("c\\\\Ka")), &[3]), refused);
    let nested = format!("{{\"type\":\"Sequence\",\"decoders\":[{}]}}", strip(0, 1));
    assert_eq!(decode_ids(&chain(&[&nested, fuse]), &[3, 2]), Ok("cacat".to_string()));
}

#[test]
fn the_shapes_follow_the_canvas() {
    let s = shapes(128, 1000).expect("aligned");
    assert_eq!(s.cca.seq_len(), 128);
    assert_eq!(s.cca.chunk_size(), 16);
    assert_eq!(s.cca.neighbour_len(), 32);
    assert_eq!(s.cca.neighbours_per_chunk(), 2);
    assert_eq!(s.cca.model_dim(), 128);
    assert_eq!(s.cca.cca_layers(6), vec![1, 3, 5]);
    assert_eq!(s.backbone.vocab_size, 1000);
    assert_eq!(f(s.backbone.rope_theta), 10_000.0);
    assert_eq!(f(s.backbone.rms_norm_eps), 1e-5);
    assert_eq!(s.encoder.num_layers, 2);
    assert_eq!(s.meta.seq_len, 128);
    assert_eq!(s.meta.vocab_size, 1000);
    assert_eq!(s.model().check(), None);
    assert_eq!(
        shapes(100, 1000).unwrap_err(),
        "--seq-len 100 must be a positive multiple of 16"
    );
    assert_eq!(
        shapes(0, 1000).unwrap_err(),
        "--seq-len 0 must be a positive multiple of 16"
    );
}

#[test]
fn a_request_is_checked_in_order() {
    let t = tokenizer();
    let good = PlayArgs::parse(&args(&["--seq-len", "32"])).unwrap();
    let ready = setup(&good, &t).expect("complete");
    assert_eq!(ready.vocab, 7);
    assert_eq!(ready.mask, MaskToken(1));
    assert_eq!(ready.shapes.cca.seq_len(), 32);
    let idle = PlayArgs::parse(&args(&["--steps", "0", "--seq-len", "3"])).unwrap();
    assert_eq!(setup(&idle, &t).unwrap_err(), "--steps must be positive");
    assert_eq!(
        setup_for(&idle, 7, Err("no mask".to_string())).unwrap_err(),
        "no mask"
    );
    let crooked = PlayArgs::parse(&args(&["--seq-len", "3"])).unwrap();
    assert_eq!(
        setup_for(&crooked, 7, Ok(1)).unwrap_err(),
        "--seq-len 3 must be a positive multiple of 16"
    );
}

#[test]
fn weights_come_from_a_checkpoint_unless_training_is_asked_for() {
    assert_eq!(weight_source(false, true), WeightSource::Load);
    assert_eq!(weight_source(false, false), WeightSource::TrainMissing);
    assert_eq!(weight_source(true, true), WeightSource::Train);
    assert_eq!(weight_source(true, false), WeightSource::Train);
    assert_eq!(pad_token(MaskToken(5)), 4);
    assert_eq!(pad_token(MaskToken(0)), u32::MAX);
    assert_eq!(retrofit_seed(0xBA5E), 0xBA5E ^ 0xF17);
}

#[test]
fn a_line_is_a_prompt_or_an_end() {
    assert!(matches!(turn("  \n"), Turn::Again));
    for word in ["quit", "exit", ":q", ":quit", " quit \n"] {
        assert!(matches!(turn(word), Turn::Quit), "{word:?}");
    }
    match turn(" the cat \n") {
        Turn::Generate(prompt) => assert_eq!(prompt, "the cat"),
        other => panic!("{other:?}"),
    }
    assert!(!is_quit("Quit"));
    assert_eq!(piped_prompt(" hi \n"), Ok(" hi".to_string()));
    assert_eq!(
        piped_prompt(" \n"),
        Err("stdin was empty; pass --prompt TEXT or type a line".to_string())
    );
}

fn documents() -> Vec<Document> {
    (0..4u64)
        .map(|d| Document {
            id: DocumentId(d),
            tokens: (0..48).map(|i| (2 + (d as u32 * 7 + i) % 30)).collect(),
        })
        .collect()
}

fn shard_bytes() -> Vec<u8> {
    CorpusShard {
        vocab_size: 32,
        mask_token: 1,
        documents: documents(),
    }
    .write()
}

#[test]
fn an_index_is_loaded_or_empty() {
    let cca = shapes(32, 32).expect("aligned").cca;
    let mask = MaskToken(1);
    assert_eq!(load_docs(&shard_bytes(), 2).expect("read").len(), 2);
    assert_eq!(load_docs(&shard_bytes(), 9).expect("read"), documents());
    assert_eq!(load_docs(b"x", 9), Err(ShardError::UnexpectedEnd));
    let (none, fault) = load_index(None, cca, mask, 9);
    assert_eq!(none.corpus.len(), 0);
    assert_eq!(fault, None);
    let bytes = shard_bytes();
    let (some, fault) = load_index(Some(&bytes), cca, mask, 3);
    assert_eq!(fault, None);
    // Two records per document of 48 tokens: at 0 and at 16.
    assert_eq!(some.corpus.len(), 6);
    assert_eq!(some.index.len(), 6);
    let (broken, fault) = load_index(Some(b"not a shard at all"), cca, mask, 3);
    assert_eq!(broken.corpus.len(), 0);
    assert_eq!(fault, Some(ShardError::NotAShard));
}

#[test]
fn pretraining_takes_the_windows_in_turn() {
    let windows = training_windows(&documents(), 32, 0).expect("there is text");
    assert_eq!(windows.len(), 8);
    assert_eq!(
        training_windows(&[], 32, 0).unwrap_err(),
        "no training windows: lower --min-tokens or pass more --train-docs"
    );
    let mut pretrainer = Pretrainer::new(32, 32, MaskToken(1));
    let mut ids = IdSource::new();
    let first = pretrainer.prepare(&windows, 0, &mut ids).expect("in range");
    assert!(first.runs());
    for (i, (&shown, &masked)) in first
        .view
        .tokens()
        .iter()
        .zip(first.view.masked())
        .enumerate()
    {
        assert_eq!(shown, if masked { 1 } else { windows[0].tokens[i] });
    }
    // The first draw of the generator sets the level.
    let mut rng = anaphora::rng::Rng::new(0xDA7A);
    let level = 1.0 - f(rng.next_f32());
    assert_eq!(f(first.view.noise_level().get()), level);
    for (i, &masked) in first.view.masked().iter().enumerate() {
        assert_eq!(masked, f(rng.next_f32()) < level, "position {i}");
    }
    let again = pretrainer.prepare(&windows, 9, &mut ids).expect("in range");
    assert_eq!(again.labels.clear, first.labels.set);
    for (i, &masked) in again.view.masked().iter().enumerate() {
        if !masked {
            assert_eq!(again.view.tokens()[i], windows[1].tokens[i]);
        }
    }
    let wide = vec![Document {
        id: DocumentId(1),
        tokens: vec![99; 32],
    }];
    let windows = training_windows(&wide, 32, 0).expect("there is text");
    assert!(pretrainer.prepare(&windows, 0, &mut ids).is_err());
}

#[test]
fn the_retrofit_trainer_starts_where_it_should() {
    let t = tokenizer();
    let good = PlayArgs::parse(&args(&["--seq-len", "32"])).unwrap();
    let ready = setup(&good, &t).expect("complete");
    let mut trainer = retrofit_trainer(&ready);
    assert_eq!(trainer.steps(), 0);
    let mut expected = anaphora::rng::Rng::new(0xCA11B);
    assert_eq!(trainer.rng().next_u64(), expected.next_u64());
    assert!(matches!(NoiseSampler::default(), NoiseSampler::Uniform));
    assert!(ChunkAdmission::new(b(2.0)).is_none());
}

#[test]
fn retrofit_steps_go_round_the_windows() {
    let text = vec![Document {
        id: DocumentId(1),
        tokens: (0..96).collect(),
    }];
    let windows = training_windows(&text, 32, 0).expect("there is text");
    assert_eq!(windows.len(), 3);
    for i in 0..7 {
        assert_eq!(retrofit_window(&windows, i).tokens, windows[i % 3].tokens);
    }
}

/// Favours the token after the mask token everywhere.
struct Constant;

impl Denoiser for Constant {
    fn vocab_size(&self) -> usize {
        7
    }
    fn logits(&mut self, view: &NoisedView, _neighbours: Option<&Neighbours>) -> Vec<Binary32> {
        (0..view.len())
            .flat_map(|_| (0..7).map(|c| b(if c == 3 { 1.0 } else { 0.0 })))
            .collect()
    }
    fn exp(&self, x: Binary32) -> Binary32 {
        b(f(x).exp())
    }
}

#[test]
fn a_prompt_in_words_becomes_a_canvas_in_words() {
    let cca = shapes(16, 7).expect("aligned").cca;
    let (parts, _) = load_index(None, cca, MaskToken(1), 9);
    let mut engine = Engine {
        cca,
        mask: MaskToken(1),
        steps: 4,
        tokenizer: tokenizer(),
        parts,
        guard: LeakageGuard::disabled(),
        ids: IdSource::new(),
    };
    let tokens = engine.generate_tokens(&[2, 4], &mut Constant);
    assert_eq!(tokens.len(), 16);
    assert_eq!(&tokens[..2], &[2, 4]);
    assert!(tokens[2..].iter().all(|&t| t == 3));
    let text = engine
        .generate_text("the sat", &mut Constant)
        .expect("decodes");
    let words: Vec<&str> = text.split(' ').collect();
    assert_eq!(words.len(), 16);
    assert_eq!(&words[..3], &["the", "sat", "cat"]);
}
