//! The corpus shard format and the split assignment.

use anaphora::corpus::Document;
use anaphora::retrieval::corpus::DocumentId;
use anaphora::shard::{split_of, CorpusShard, ShardError, Split};
use std::collections::HashMap;

fn shard() -> CorpusShard {
    CorpusShard {
        vocab_size: 126_464,
        mask_token: 126_336,
        documents: vec![
            Document {
                id: DocumentId(7),
                tokens: vec![1, 2, 3, 4, 5],
            },
            Document {
                id: DocumentId(1_000_000),
                tokens: (0..300).collect(),
            },
            Document {
                id: DocumentId(9),
                tokens: Vec::new(),
            },
        ],
    }
}

#[test]
fn a_shard_round_trips() {
    let shard_before = shard();
    let bytes = shard_before.write();
    let read = CorpusShard::read(&bytes, None).expect("read");
    assert_eq!(read, shard_before);
    assert_eq!(read.total_tokens(), 305);
}

#[test]
fn a_shard_the_model_cannot_represent_is_rejected() {
    // Token ids past the embedding table would index out of range.
    let bytes = shard().write();
    assert!(matches!(
        CorpusShard::read(&bytes, Some(32_000)),
        Err(ShardError::VocabTooLarge {
            shard: 126_464,
            model: 32_000
        })
    ));
}

#[test]
fn a_model_wider_than_its_tokenizer_is_accepted() {
    // LLaDA-8B reports 126,464 embedding rows against a tokenizer of about
    // 126,346 tokens, the rest being padding for alignment. Demanding
    // equality would reject a shard that is perfectly usable.
    let mut s = shard();
    s.vocab_size = 126_346;
    let bytes = s.write();
    assert!(CorpusShard::read(&bytes, Some(126_464)).is_ok());
    assert!(CorpusShard::read(&bytes, Some(126_346)).is_ok());
}

#[test]
fn a_foreign_file_is_not_mistaken_for_a_shard() {
    assert!(matches!(
        CorpusShard::read(b"this is not a shard, it is a text file", None),
        Err(ShardError::NotAShard)
    ));
}

#[test]
fn a_truncated_shard_fails_instead_of_allocating() {
    // A corrupt length field must not turn into a multi-gigabyte allocation
    // before the read fails.
    let mut bytes = shard().write();
    bytes.truncate(40);
    assert!(CorpusShard::read(&bytes, None).is_err());
}

#[test]
fn splits_are_deterministic_and_roughly_proportional() {
    let assign = |id: u64| split_of(DocumentId(id), 8, 1, 1);
    // Same article, same split, on every machine and every rerun, which is
    // what makes a leakage audit reproducible.
    for id in 0..100u64 {
        assert_eq!(assign(id), assign(id));
    }

    let mut counts: HashMap<Split, usize> = HashMap::new();
    for id in 0..10_000u64 {
        *counts.entry(assign(id)).or_default() += 1;
    }
    let train = counts[&Split::Train];
    let index = counts[&Split::Index];
    let eval = counts[&Split::Eval];
    assert_eq!(train + index + eval, 10_000);
    // 80/10/10, give or take hashing noise.
    assert!((7_600..8_400).contains(&train), "train was {train}");
    assert!((800..1_200).contains(&index), "index was {index}");
    assert!((800..1_200).contains(&eval), "eval was {eval}");
}

#[test]
fn splits_do_not_inherit_the_id_numbering() {
    // Wikipedia allocates article ids chronologically, so `id % 3` would
    // correlate the splits with article age. Consecutive ids must scatter.
    let runs = (0..60u64)
        .map(|id| split_of(DocumentId(id), 1, 1, 1))
        .collect::<Vec<_>>();
    let alternating = runs.windows(2).filter(|w| w[0] != w[1]).count();
    assert!(
        alternating > 20,
        "consecutive ids landed in blocks, not scattered: {alternating} changes"
    );
}

#[test]
fn a_weightless_split_stays_empty() {
    for id in 0..500u64 {
        assert_eq!(split_of(DocumentId(id), 0, 3, 0), Split::Index);
        assert_ne!(split_of(DocumentId(id), 2, 0, 1), Split::Index);
    }
}

#[test]
fn the_header_holds_what_it_says() {
    let bytes = shard().write();
    assert_eq!(&bytes[..8], b"ANAPHRA1");
    assert_eq!(&bytes[8..12], &1u32.to_le_bytes());
    assert_eq!(&bytes[12..16], &126_464u32.to_le_bytes());
    assert_eq!(&bytes[16..20], &126_336u32.to_le_bytes());
    assert_eq!(&bytes[20..28], &3u64.to_le_bytes());
    assert_eq!(&bytes[28..36], &7u64.to_le_bytes());
    assert_eq!(&bytes[36..40], &5u32.to_le_bytes());
}

#[test]
fn every_cut_of_a_shard_is_noticed() {
    let bytes = shard().write();
    for len in 0..bytes.len() {
        assert!(CorpusShard::read(&bytes[..len], None).is_err(), "cut at {len}");
    }
}

#[test]
fn shard_errors_say_what_is_wrong() {
    let mut bytes = shard().write();
    bytes[8] = 7;
    assert_eq!(
        CorpusShard::read(&bytes, None).unwrap_err().message(),
        "unsupported shard version 7"
    );
    let bytes = shard().write();
    assert_eq!(
        CorpusShard::read(&bytes[..44], None),
        Err(ShardError::Truncated {
            wanted: 36,
            available: 16
        })
    );
    assert_eq!(
        CorpusShard::read(&bytes[..20], None),
        Err(ShardError::UnexpectedEnd)
    );
    let mut one = shard();
    one.documents.truncate(1);
    let bytes = one.write();
    let cut = CorpusShard::read(&bytes[..44], None).unwrap_err();
    assert_eq!(
        cut,
        ShardError::Truncated {
            wanted: 20,
            available: 4
        }
    );
    assert_eq!(
        cut.message(),
        "shard claims 20 more bytes but only 4 remain"
    );
}
