//! The checkpoint: round-trip of named tensors, and a shape mismatch.

use anaphora::{Binary32, Checkpoint, CheckpointError, CheckpointMeta};

fn b(v: f32) -> Binary32 {
    Binary32::from_bits(v.to_bits())
}

fn words(v: &[f32]) -> Vec<Binary32> {
    v.iter().map(|&x| b(x)).collect()
}

fn meta() -> CheckpointMeta {
    CheckpointMeta {
        vocab_size: 48,
        seq_len: 16,
        chunk: 4,
        num_layers: 2,
        num_heads: 2,
        head_dim: 16,
        intermediate_size: 32,
    }
}

fn sample() -> Checkpoint {
    Checkpoint {
        meta: meta(),
        params: vec![
            ("backbone.embed".into(), words(&[0.25, -0.5, 1.0, 0.0])),
            ("cca.1.gate.w2".into(), words(&[0.0, 0.0])),
        ],
    }
}

fn written() -> Vec<u8> {
    let mut buf = Vec::new();
    sample().write_to(&mut buf).expect("write");
    buf
}

#[test]
fn roundtrip_preserves_names_and_values() {
    let ckpt = sample();
    let mut buf = Vec::new();
    ckpt.write_to(&mut buf).expect("write");
    let loaded = Checkpoint::read_from(&buf).expect("read");
    assert_eq!(loaded.meta, ckpt.meta);
    assert_eq!(loaded.params, ckpt.params);
}

#[test]
fn check_shape_rejects_a_mismatched_seq_len() {
    let ckpt = sample();
    let mut other = meta();
    other.seq_len = 32;
    let err = ckpt.check_shape(other).unwrap_err();
    let text = err.message();
    assert!(text.contains("n=16"), "{text}");
    assert!(text.contains("n=32"), "{text}");
}

#[test]
fn rejects_the_wrong_magic() {
    let mut buf = b"NOTCKP!!".to_vec();
    buf.extend_from_slice(&[0u8; 16]);
    let err = Checkpoint::read_from(&buf).unwrap_err();
    assert!(matches!(err, CheckpointError::NotACheckpoint));
}

#[test]
fn another_version_is_not_understood() {
    let mut buf = written();
    buf[8] = 9;
    assert!(matches!(
        Checkpoint::read_from(&buf),
        Err(CheckpointError::Version(9))
    ));
}

#[test]
fn every_cut_is_noticed() {
    let buf = written();
    for len in 0..buf.len() {
        assert!(
            matches!(
                Checkpoint::read_from(&buf[..len]),
                Err(CheckpointError::UnexpectedEnd)
            ),
            "cut at {len}"
        );
    }
}

#[test]
fn a_name_that_is_no_text_is_refused() {
    let mut buf = written();
    let at = buf
        .windows(8)
        .position(|w| w == b"backbone")
        .expect("the name is there");
    buf[at] = 0xFF;
    assert!(matches!(
        Checkpoint::read_from(&buf),
        Err(CheckpointError::NotACheckpoint)
    ));
}

#[test]
fn names_keep_their_letters() {
    let ckpt = Checkpoint {
        meta: meta(),
        params: vec![("g\u{e9}te\u{4e2d}".into(), words(&[1.5]))],
    };
    let mut buf = Vec::new();
    ckpt.write_to(&mut buf).expect("write");
    let loaded = Checkpoint::read_from(&buf).expect("read");
    assert_eq!(loaded.params[0].0, "g\u{e9}te\u{4e2d}");
}

#[test]
fn applying_stops_at_the_first_mismatch() {
    let ckpt = sample();
    let (done, outcome) = ckpt.apply(&[Some(4), Some(2)], meta());
    assert_eq!(done, 2);
    assert!(outcome.is_ok());
    let (done, outcome) = ckpt.apply(&[Some(4), None], meta());
    assert_eq!(done, 1);
    let err = outcome.unwrap_err();
    assert!(matches!(
        err,
        CheckpointError::ParamMismatch {
            dump: 2,
            session: None,
            ..
        }
    ));
    assert!(err.message().contains("cca.1.gate.w2"));
    let mut other = meta();
    other.vocab_size = 1;
    let (done, outcome) = ckpt.apply(&[Some(4), Some(2)], other);
    assert_eq!(done, 0);
    assert!(matches!(
        outcome,
        Err(CheckpointError::ShapeMismatch { .. })
    ));
}

#[test]
fn the_layout_is_little_endian() {
    let ckpt = Checkpoint {
        meta: meta(),
        params: vec![("w".into(), words(&[1.0]))],
    };
    let mut buf = Vec::new();
    ckpt.write_to(&mut buf).expect("write");
    assert_eq!(&buf[buf.len() - 4..], &1.0f32.to_le_bytes());
    assert_eq!(&buf[12..16], &48u32.to_le_bytes());
}
