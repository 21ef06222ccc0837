//! A dull parameter dump so a trained play model does not have to start from
//! random weights every launch.
//!
//! This is not a production checkpoint format. It exists so the interactive
//! program can save the tensors a training session just wrote and reload them
//! into an inference session of the same shape.
//!
//! ```text
//! magic       8 bytes   b"ANAPCKP1"
//! version     u32       1
//! shape       u32 * 7
//! count       u32
//! per parameter:
//!   name_len  u32
//!   name      UTF-8
//!   len       u32
//!   values    f32 * len
//! ```
use crate::binary32::Binary32;
use crate::bytes::{get_u32, put_u32, starts_with};
use crate::text::decimal;
use vstd::prelude::*;
use vstd::string::*;

verus! {

/// The format version.
pub const VERSION: u32 = 1;

/// The bytes a checkpoint begins with: `ANAPCKP1`.
pub open spec fn magic() -> Seq<u8> {
    seq![0x41u8, 0x4E, 0x41, 0x50, 0x43, 0x4B, 0x50, 0x31]
}

/// Shape the dumped parameters were trained at.
///
/// Load rejects a checkpoint whose shape does not match the session it would
/// be written into: a `d = 64` dump in a `d = 128` table is silently valid ids
/// and completely wrong weights.
#[derive(Clone, Copy, Debug, PartialEq, Eq, Structural)]
pub struct CheckpointMeta {
    /// Tokenizer / embedding table width.
    pub vocab_size: u32,
    /// Sequence length `n`.
    pub seq_len: u32,
    /// Chunk size `m`.
    pub chunk: u32,
    /// Backbone depth.
    pub num_layers: u32,
    /// Query heads.
    pub num_heads: u32,
    /// Per-head width.
    pub head_dim: u32,
    /// MLP inner width.
    pub intermediate_size: u32,
}

/// Named parameter tensors plus the shape they belong to.
#[derive(Clone, Debug, PartialEq)]
pub struct Checkpoint {
    /// Shape tag.
    pub meta: CheckpointMeta,
    /// `(name, values)` in session order at save time.
    pub params: Vec<(String, Vec<Binary32>)>,
}

/// Why a checkpoint could not be read or applied.
#[derive(Clone, Debug, PartialEq, Eq)]
pub enum CheckpointError {
    /// The bytes end in the middle of a field.
    UnexpectedEnd,
    /// The bytes do not begin with the checkpoint magic, or hold a name that
    /// is not text.
    NotACheckpoint,
    /// The format version is not understood.
    Version(u32),
    /// The dump was trained at a different shape than the live model.
    ShapeMismatch {
        /// What the dump contains.
        file: CheckpointMeta,
        /// What the live model expects.
        model: CheckpointMeta,
    },
    /// Applying onto a session that lacks a dumped parameter, or disagrees on
    /// its length.
    ParamMismatch {
        /// Parameter name.
        name: String,
        /// Length in the dump.
        dump: usize,
        /// Length on the session, if it declares the name.
        session: Option<usize>,
    },
}

/// A shape in words.
pub open spec fn shape_chars(meta: CheckpointMeta) -> Seq<char> {
    "vocab="@ + crate::text::decimal_chars(meta.vocab_size as nat) + " n="@
        + crate::text::decimal_chars(meta.seq_len as nat) + " m="@ + crate::text::decimal_chars(
        meta.chunk as nat,
    ) + " layers="@ + crate::text::decimal_chars(meta.num_layers as nat) + " heads="@
        + crate::text::decimal_chars(meta.num_heads as nat) + " head_dim="@
        + crate::text::decimal_chars(meta.head_dim as nat) + " intermediate="@
        + crate::text::decimal_chars(meta.intermediate_size as nat)
}

/// The text of a checkpoint error.
pub open spec fn checkpoint_error_chars(e: CheckpointError) -> Seq<char> {
    match e {
        CheckpointError::UnexpectedEnd => "failed to fill whole buffer"@,
        CheckpointError::NotACheckpoint => "not an Anaphora parameter checkpoint"@,
        CheckpointError::Version(v) => "unsupported checkpoint version "@
            + crate::text::decimal_chars(v as nat),
        CheckpointError::ShapeMismatch { file, model } => "checkpoint shape "@ + shape_chars(file)
            + " does not match model "@ + shape_chars(model),
        CheckpointError::ParamMismatch { name, dump, session } => match session {
            None => "checkpoint has "@ + name@ + " but the session does not"@,
            Some(n) => "checkpoint "@ + name@ + " has "@ + crate::text::decimal_chars(dump as nat)
                + " values, session has "@ + crate::text::decimal_chars(n as nat),
        },
    }
}

impl CheckpointMeta {
    fn describe(&self) -> (s: String)
        ensures
            s@ == shape_chars(*self),
    {
        let mut s: String = String::from_str("vocab=");
        s.append(decimal(self.vocab_size as u64).as_str());
        s.append(" n=");
        s.append(decimal(self.seq_len as u64).as_str());
        s.append(" m=");
        s.append(decimal(self.chunk as u64).as_str());
        s.append(" layers=");
        s.append(decimal(self.num_layers as u64).as_str());
        s.append(" heads=");
        s.append(decimal(self.num_heads as u64).as_str());
        s.append(" head_dim=");
        s.append(decimal(self.head_dim as u64).as_str());
        s.append(" intermediate=");
        s.append(decimal(self.intermediate_size as u64).as_str());
        s
    }
}

impl CheckpointError {
    /// What went wrong, in words.
    pub fn message(&self) -> (s: String)
        ensures
            s@ == checkpoint_error_chars(*self),
    {
        match self {
            CheckpointError::UnexpectedEnd => String::from_str("failed to fill whole buffer"),
            CheckpointError::NotACheckpoint => {
                String::from_str("not an Anaphora parameter checkpoint")
            },
            CheckpointError::Version(v) => {
                let mut s: String = String::from_str("unsupported checkpoint version ");
                s.append(decimal(*v as u64).as_str());
                s
            },
            CheckpointError::ShapeMismatch { file, model } => {
                let mut s: String = String::from_str("checkpoint shape ");
                s.append(file.describe().as_str());
                s.append(" does not match model ");
                s.append(model.describe().as_str());
                s
            },
            CheckpointError::ParamMismatch { name, dump, session } => {
                match session {
                    None => {
                        let mut s: String = String::from_str("checkpoint has ");
                        s.append(name.as_str());
                        s.append(" but the session does not");
                        s
                    },
                    Some(n) => {
                        let mut s: String = String::from_str("checkpoint ");
                        s.append(name.as_str());
                        s.append(" has ");
                        s.append(decimal(*dump as u64).as_str());
                        s.append(" values, session has ");
                        s.append(decimal(*n as u64).as_str());
                        s
                    },
                }
            },
        }
    }
}

/// What a parameter holds: its name and its values.
pub open spec fn contents(param: (String, Vec<Binary32>)) -> (Seq<char>, Seq<Binary32>) {
    (param.0@, param.1@)
}

/// What parameters hold.
pub open spec fn all_contents(params: Seq<(String, Vec<Binary32>)>) -> Seq<
    (Seq<char>, Seq<Binary32>),
> {
    Seq::new(params.len(), |i: int| contents(params[i]))
}

/// The words of a run of values.
pub open spec fn words_of(values: Seq<Binary32>) -> Seq<u32> {
    Seq::new(values.len(), |i: int| values[i].bits)
}

/// The bytes of one parameter. The length fields hold the low 32 bits of the
/// lengths.
pub open spec fn param_bytes(param: (Seq<char>, Seq<Binary32>)) -> Seq<u8> {
    let name = vstd::utf8::encode_utf8(param.0);
    crate::bytes::le_bytes((name.len() % 0x1_0000_0000) as u32) + name + crate::bytes::le_bytes(
        (param.1.len() % 0x1_0000_0000) as u32,
    ) + crate::shard::token_bytes(words_of(param.1))
}

/// The bytes of parameters, one after the other.
pub open spec fn params_bytes(params: Seq<(Seq<char>, Seq<Binary32>)>) -> Seq<u8>
    decreases params.len(),
{
    if params.len() == 0 {
        Seq::empty()
    } else {
        params_bytes(params.drop_last()) + param_bytes(params.last())
    }
}

/// The words of a shape, in order.
pub open spec fn meta_words(meta: CheckpointMeta) -> Seq<u32> {
    seq![
        meta.vocab_size,
        meta.seq_len,
        meta.chunk,
        meta.num_layers,
        meta.num_heads,
        meta.head_dim,
        meta.intermediate_size,
    ]
}

/// The bytes of the header. The count field holds the low 32 bits of the
/// count.
pub open spec fn header_bytes(meta: CheckpointMeta, count: nat) -> Seq<u8> {
    magic() + crate::shard::token_bytes(
        seq![VERSION] + meta_words(meta) + seq![(count % 0x1_0000_0000) as u32],
    )
}

/// The bytes of a whole checkpoint.
pub open spec fn checkpoint_bytes(
    meta: CheckpointMeta,
    params: Seq<(Seq<char>, Seq<Binary32>)>,
) -> Seq<u8> {
    header_bytes(meta, params.len()) + params_bytes(params)
}

/// What is wrong with the header of `bytes`, if anything.
pub open spec fn header_fault(bytes: Seq<u8>) -> Option<CheckpointError> {
    if bytes.len() < 8 {
        Some(CheckpointError::UnexpectedEnd)
    } else if !crate::bytes::starts(bytes, magic()) {
        Some(CheckpointError::NotACheckpoint)
    } else if bytes.len() < 12 {
        Some(CheckpointError::UnexpectedEnd)
    } else if crate::bytes::word(bytes, 8) != VERSION {
        Some(CheckpointError::Version(crate::bytes::word(bytes, 8)))
    } else if bytes.len() < 44 {
        Some(CheckpointError::UnexpectedEnd)
    } else {
        None
    }
}

/// The shape the header of `bytes` spells.
pub open spec fn meta_at(bytes: Seq<u8>) -> CheckpointMeta {
    CheckpointMeta {
        vocab_size: crate::bytes::word(bytes, 12),
        seq_len: crate::bytes::word(bytes, 16),
        chunk: crate::bytes::word(bytes, 20),
        num_layers: crate::bytes::word(bytes, 24),
        num_heads: crate::bytes::word(bytes, 28),
        head_dim: crate::bytes::word(bytes, 32),
        intermediate_size: crate::bytes::word(bytes, 36),
    }
}

/// Where the name of a parameter that starts at `start` ends.
pub open spec fn name_end(bytes: Seq<u8>, start: int) -> int {
    start + 4 + crate::bytes::word(bytes, start)
}

/// Where a parameter that starts at `start` ends.
pub open spec fn param_end(bytes: Seq<u8>, start: int) -> int {
    let at = name_end(bytes, start);
    at + 4 + 4 * crate::bytes::word(bytes, at)
}

/// Where parameter `i` starts.
pub open spec fn param_start(bytes: Seq<u8>, i: nat) -> int
    decreases i,
{
    if i == 0 {
        44
    } else {
        param_end(bytes, param_start(bytes, (i - 1) as nat))
    }
}

/// What is wrong with a parameter that starts at `start`, if anything.
pub open spec fn param_fault(bytes: Seq<u8>, start: int) -> Option<CheckpointError> {
    let at = name_end(bytes, start);
    if start + 4 > bytes.len() || at > bytes.len() {
        Some(CheckpointError::UnexpectedEnd)
    } else if !vstd::utf8::valid_utf8(bytes.subrange(start + 4, at)) {
        Some(CheckpointError::NotACheckpoint)
    } else if at + 4 > bytes.len() || param_end(bytes, start) > bytes.len() {
        Some(CheckpointError::UnexpectedEnd)
    } else {
        None
    }
}

/// What is wrong with the first of the first `upto` parameters that cannot be
/// read.
pub open spec fn params_fault(bytes: Seq<u8>, upto: nat) -> Option<CheckpointError>
    decreases upto,
{
    if upto == 0 {
        None
    } else {
        match params_fault(bytes, (upto - 1) as nat) {
            Some(fault) => Some(fault),
            None => param_fault(bytes, param_start(bytes, (upto - 1) as nat)),
        }
    }
}

/// What is wrong with `bytes` as a checkpoint, if anything.
pub open spec fn checkpoint_fault(bytes: Seq<u8>) -> Option<CheckpointError> {
    match header_fault(bytes) {
        Some(fault) => Some(fault),
        None => params_fault(bytes, crate::bytes::word(bytes, 40) as nat),
    }
}

/// What a parameter that starts at `start` holds.
pub open spec fn param_at(bytes: Seq<u8>, start: int) -> (Seq<char>, Seq<Binary32>) {
    let at = name_end(bytes, start);
    (
        vstd::utf8::decode_utf8(bytes.subrange(start + 4, at)),
        Seq::new(
            crate::bytes::word(bytes, at) as nat,
            |j: int| Binary32 { bits: crate::bytes::word(bytes, at + 4 + 4 * j) },
        ),
    )
}

/// The first `upto` parameters.
pub open spec fn params_at(bytes: Seq<u8>, upto: nat) -> Seq<(Seq<char>, Seq<Binary32>)> {
    Seq::new(upto, |i: int| param_at(bytes, param_start(bytes, i as nat)))
}

proof fn lemma_fault_stays(bytes: Seq<u8>, low: nat, high: nat)
    requires
        low <= high,
        params_fault(bytes, low) is Some,
    ensures
        params_fault(bytes, high) == params_fault(bytes, low),
    decreases high,
{
    if low < high {
        lemma_fault_stays(bytes, low, (high - 1) as nat);
    }
}

/// `String::from_utf8`: the text that `bytes` encode, or `None` where they are
/// not valid UTF-8.
#[verifier::external_body]
fn decode_text(bytes: Vec<u8>) -> (text: Option<String>)
    ensures
        text is Some <==> vstd::utf8::valid_utf8(bytes@),
        text is Some ==> text->0@ == vstd::utf8::decode_utf8(bytes@),
{
    String::from_utf8(bytes).ok()
}

/// Append the bytes of `values`.
fn put_values(out: &mut Vec<u8>, values: &[Binary32])
    ensures
        final(out)@ == old(out)@ + crate::shard::token_bytes(words_of(values@)),
{
    let ghost before = out@;
    let ghost words = words_of(values@);
    proof {
        assert(out@ =~= before + crate::shard::token_bytes(words.take(0)));
    }
    let mut i: usize = 0;
    while i < values.len()
        invariant
            i <= values@.len(),
            words == words_of(values@),
            out@ == before + crate::shard::token_bytes(words.take(i as int)),
        decreases values.len() - i,
    {
        put_u32(out, values[i].to_bits());
        proof {
            assert(words.take(i + 1).drop_last() =~= words.take(i as int));
            assert(out@ =~= before + crate::shard::token_bytes(words.take(i + 1)));
        }
        i = i + 1;
    }
    proof {
        assert(words.take(i as int) =~= words);
    }
}

/// The `count` values from `at` on.
fn get_values(bytes: &[u8], at: usize, count: usize) -> (values: Vec<Binary32>)
    requires
        at + 4 * count <= bytes@.len(),
    ensures
        values@ == Seq::new(
            count as nat,
            |j: int| Binary32 { bits: crate::bytes::word(bytes@, at + 4 * j) },
        ),
{
    let total: usize = bytes.len();
    let mut values: Vec<Binary32> = Vec::new();
    let mut j: usize = 0;
    while j < count
        invariant
            j <= count,
            total == bytes@.len(),
            at + 4 * count <= bytes@.len(),
            values@ == Seq::new(
                j as nat,
                |j: int| Binary32 { bits: crate::bytes::word(bytes@, at + 4 * j) },
            ),
        decreases count - j,
    {
        match get_u32(bytes, at + 4 * j) {
            Some(bits) => {
                values.push(Binary32::from_bits(bits));
            },
            None => {},
        }
        proof {
            assert(values@ =~= Seq::new(
                (j + 1) as nat,
                |j: int| Binary32 { bits: crate::bytes::word(bytes@, at + 4 * j) },
            ));
        }
        j = j + 1;
    }
    values
}

/// Read the parameter that starts at `start`: its name, its values and where
/// it ends.
fn read_param(bytes: &[u8], start: usize) -> (result: Result<
    (String, Vec<Binary32>, usize),
    CheckpointError,
>)
    requires
        start <= bytes@.len(),
    ensures
        match param_fault(bytes@, start as int) {
            Some(fault) => result is Err && result->Err_0 == fault,
            None => {
                &&& result is Ok
                &&& (result->Ok_0.0@, result->Ok_0.1@) == param_at(bytes@, start as int)
                &&& result->Ok_0.2 == param_end(bytes@, start as int)
                &&& result->Ok_0.2 <= bytes@.len()
            },
        },
{
    if bytes.len() - start < 4 {
        return Err(CheckpointError::UnexpectedEnd);
    }
    let name_len: u32 = match get_u32(bytes, start) {
        Some(name_len) => name_len,
        None => {
            return Err(CheckpointError::UnexpectedEnd);
        },
    };
    let available: usize = bytes.len() - start - 4;
    if name_len as u64 > available as u64 {
        return Err(CheckpointError::UnexpectedEnd);
    }
    let at: usize = start + 4 + name_len as usize;
    let mut name_bytes: Vec<u8> = Vec::new();
    name_bytes.extend_from_slice(vstd::slice::slice_subrange(bytes, start + 4, at));
    proof {
        assert(name_bytes@ =~= bytes@.subrange(start + 4, at as int));
    }
    let name: String = match decode_text(name_bytes) {
        Some(name) => name,
        None => {
            return Err(CheckpointError::NotACheckpoint);
        },
    };
    if bytes.len() - at < 4 {
        return Err(CheckpointError::UnexpectedEnd);
    }
    let count: u32 = match get_u32(bytes, at) {
        Some(count) => count,
        None => {
            return Err(CheckpointError::UnexpectedEnd);
        },
    };
    let available: usize = bytes.len() - at - 4;
    if count as u64 * 4 > available as u64 {
        return Err(CheckpointError::UnexpectedEnd);
    }
    let values: Vec<Binary32> = get_values(bytes, at + 4, count as usize);
    proof {
        assert(values@ =~= param_at(bytes@, start as int).1);
    }
    Ok((name, values, at + 4 + 4 * (count as usize)))
}

/// The first dumped parameter among the first `upto` that a session does not
/// hold in the same length.
pub open spec fn first_mismatch(
    params: Seq<(String, Vec<Binary32>)>,
    sizes: Seq<Option<usize>>,
    upto: nat,
) -> Option<int>
    decreases upto,
{
    if upto == 0 {
        None
    } else {
        match first_mismatch(params, sizes, (upto - 1) as nat) {
            Some(i) => Some(i),
            None => if sizes[upto - 1] is Some && sizes[upto - 1]->0 == params[upto - 1].1@.len() {
                None
            } else {
                Some(upto - 1)
            },
        }
    }
}

proof fn lemma_mismatch_stays(
    params: Seq<(String, Vec<Binary32>)>,
    sizes: Seq<Option<usize>>,
    low: nat,
    high: nat,
)
    requires
        low <= high,
        first_mismatch(params, sizes, low) is Some,
    ensures
        first_mismatch(params, sizes, high) == first_mismatch(params, sizes, low),
    decreases high,
{
    if low < high {
        lemma_mismatch_stays(params, sizes, low, (high - 1) as nat);
    }
}

impl Checkpoint {
    /// Reject a dump whose shape does not match `expected`.
    pub fn check_shape(&self, expected: CheckpointMeta) -> (result: Result<(), CheckpointError>)
        ensures
            result is Ok <==> self.meta == expected,
            result is Err ==> result->Err_0 == (CheckpointError::ShapeMismatch {
                file: self.meta,
                model: expected,
            }),
    {
        if self.meta != expected {
            return Err(CheckpointError::ShapeMismatch { file: self.meta, model: expected });
        }
        Ok(())
    }

    /// Decide which tensors go onto a session that holds `sizes[i]` values
    /// under the name of parameter `i`, or nothing.
    ///
    /// Gives how many parameters, from the first on, are to be written, and
    /// whether that is all of them. Extra names on the session are left
    /// untouched. Missing names and length mismatches are errors: applying a
    /// partial dump is how a run looks trained and is not.
    pub fn apply(&self, sizes: &[Option<usize>], expected: CheckpointMeta) -> (outcome: (
        usize,
        Result<(), CheckpointError>,
    ))
        requires
            sizes@.len() == self.params@.len(),
        ensures
            self.meta != expected ==> outcome.0 == 0 && outcome.1 is Err && outcome.1->Err_0 == (
            CheckpointError::ShapeMismatch { file: self.meta, model: expected }),
            self.meta == expected ==> match first_mismatch(
                self.params@,
                sizes@,
                self.params@.len(),
            ) {
                None => outcome.0 == self.params@.len() && outcome.1 is Ok,
                Some(i) => {
                    &&& outcome.0 == i
                    &&& outcome.1 is Err
                    &&& outcome.1->Err_0 matches CheckpointError::ParamMismatch {
                        name,
                        dump,
                        session,
                    }
                    &&& name@ == self.params@[i].0@
                    &&& dump == self.params@[i].1@.len()
                    &&& session == sizes@[i]
                },
            },
    {
        match self.check_shape(expected) {
            Ok(()) => {},
            Err(fault) => {
                return (0, Err(fault));
            },
        }
        let mut i: usize = 0;
        while i < self.params.len()
            invariant
                i <= self.params@.len(),
                sizes@.len() == self.params@.len(),
                self.meta == expected,
                first_mismatch(self.params@, sizes@, i as nat) is None,
            decreases self.params.len() - i,
        {
            let dump: usize = self.params[i].1.len();
            let matches: bool = match sizes[i] {
                Some(len) => len == dump,
                None => false,
            };
            if !matches {
                proof {
                    lemma_mismatch_stays(
                        self.params@,
                        sizes@,
                        (i + 1) as nat,
                        self.params@.len(),
                    );
                }
                let name: String = String::from_str(self.params[i].0.as_str());
                return (
                    i,
                    Err(CheckpointError::ParamMismatch { name, dump, session: sizes[i] }),
                );
            }
            i = i + 1;
        }
        (i, Ok(()))
    }

    /// Append the bytes of this checkpoint to `w`.
    pub fn write_to(&self, w: &mut Vec<u8>) -> (result: Result<(), CheckpointError>)
        ensures
            result is Ok,
            final(w)@ == old(w)@ + checkpoint_bytes(self.meta, all_contents(self.params@)),
    {
        let ghost before = w@;
        let tag: [u8; 8] = [0x41, 0x4E, 0x41, 0x50, 0x43, 0x4B, 0x50, 0x31];
        w.extend_from_slice(tag.as_slice());
        proof {
            assert(tag@ =~= magic());
            assert(w@ =~= before + magic());
        }
        let head: [u32; 9] = [
            VERSION,
            self.meta.vocab_size,
            self.meta.seq_len,
            self.meta.chunk,
            self.meta.num_layers,
            self.meta.num_heads,
            self.meta.head_dim,
            self.meta.intermediate_size,
            (self.params.len() as u64 % 0x1_0000_0000) as u32,
        ];
        let ghost all = all_contents(self.params@);
        let ghost header = header_bytes(self.meta, all.len());
        crate::shard::put_tokens(w, head.as_slice());
        proof {
            assert(head@ =~= seq![VERSION] + meta_words(self.meta) + seq![
                (all.len() % 0x1_0000_0000) as u32,
            ]);
            assert(w@ =~= before + (header + params_bytes(all.take(0))));
        }
        let mut i: usize = 0;
        while i < self.params.len()
            invariant
                i <= self.params@.len(),
                all == all_contents(self.params@),
                w@ == before + (header + params_bytes(all.take(i as int))),
            decreases self.params.len() - i,
        {
            let ghost now = w@;
            let name: &[u8] = self.params[i].0.as_str().as_bytes();
            put_u32(w, (name.len() as u64 % 0x1_0000_0000) as u32);
            w.extend_from_slice(name);
            let values: &[Binary32] = self.params[i].1.as_slice();
            let ghost named = w@;
            put_u32(w, (values.len() as u64 % 0x1_0000_0000) as u32);
            put_values(w, values);
            proof {
                let next = all.take(i + 1);
                let param = contents(self.params@[i as int]);
                assert(next.drop_last() =~= all.take(i as int));
                assert(next.last() == param);
                assert(named =~= now + crate::bytes::le_bytes(
                    (name@.len() % 0x1_0000_0000) as u32,
                ) + name@);
                assert(w@ =~= now + param_bytes(param));
                assert(w@ =~= before + (header + params_bytes(next)));
            }
            i = i + 1;
        }
        proof {
            assert(all.take(i as int) =~= all);
        }
        Ok(())
    }

    /// Read a checkpoint from `bytes`.
    pub fn read_from(bytes: &[u8]) -> (result: Result<Self, CheckpointError>)
        ensures
            match checkpoint_fault(bytes@) {
                Some(fault) => result is Err && result->Err_0 == fault,
                None => {
                    &&& result is Ok
                    &&& result->Ok_0.meta == meta_at(bytes@)
                    &&& all_contents(result->Ok_0.params@) == params_at(
                        bytes@,
                        crate::bytes::word(bytes@, 40) as nat,
                    )
                },
            },
    {
        let tag: [u8; 8] = [0x41, 0x4E, 0x41, 0x50, 0x43, 0x4B, 0x50, 0x31];
        proof {
            assert(tag@ =~= magic());
        }
        if bytes.len() < 8 {
            return Err(CheckpointError::UnexpectedEnd);
        }
        if !starts_with(bytes, tag.as_slice()) {
            return Err(CheckpointError::NotACheckpoint);
        }
        let version: u32 = match get_u32(bytes, 8) {
            Some(version) => version,
            None => {
                return Err(CheckpointError::UnexpectedEnd);
            },
        };
        if version != VERSION {
            return Err(CheckpointError::Version(version));
        }
        if bytes.len() < 44 {
            return Err(CheckpointError::UnexpectedEnd);
        }
        let fields: Vec<u32> = crate::shard::get_tokens(bytes, 12, 8);
        let meta = CheckpointMeta {
            vocab_size: fields[0],
            seq_len: fields[1],
            chunk: fields[2],
            num_layers: fields[3],
            num_heads: fields[4],
            head_dim: fields[5],
            intermediate_size: fields[6],
        };
        let count: u32 = fields[7];
        let mut params: Vec<(String, Vec<Binary32>)> = Vec::new();
        let mut start: usize = 44;
        let mut i: u32 = 0;
        while i < count
            invariant
                i <= count,
                bytes@.len() >= 44,
                header_fault(bytes@) is None,
                count == crate::bytes::word(bytes@, 40),
                params_fault(bytes@, i as nat) is None,
                start == param_start(bytes@, i as nat),
                start <= bytes@.len(),
                params@.len() == i,
                all_contents(params@) == params_at(bytes@, i as nat),
            decreases count - i,
        {
            let (name, values, end) = match read_param(bytes, start) {
                Ok(param) => param,
                Err(fault) => {
                    proof {
                        lemma_fault_stays(bytes@, (i + 1) as nat, count as nat);
                    }
                    return Err(fault);
                },
            };
            let ghost before = params@;
            params.push((name, values));
            proof {
                assert(contents(params@.last()) == param_at(bytes@, start as int));
                assert forall|j: int| 0 <= j < i + 1 implies all_contents(params@)[j] == params_at(
                    bytes@,
                    (i + 1) as nat,
                )[j] by {
                    if j < i {
                        assert(params@[j] == before[j]);
                        assert(all_contents(before)[j] == params_at(bytes@, i as nat)[j]);
                    }
                }
                assert(all_contents(params@) =~= params_at(bytes@, (i + 1) as nat));
            }
            start = end;
            i = i + 1;
        }
        Ok(Checkpoint { meta, params })
    }
}

/// Whether the lengths of a parameter fit their fields.
pub open spec fn storable(param: (Seq<char>, Seq<Binary32>)) -> bool {
    &&& vstd::utf8::encode_utf8(param.0).len() <= u32::MAX
    &&& param.1.len() <= u32::MAX
}

/// What the bytes of one parameter spell.
proof fn lemma_param_reads(param: (Seq<char>, Seq<Binary32>))
    requires
        storable(param),
    ensures
        ({
            let piece = param_bytes(param);
            let name = vstd::utf8::encode_utf8(param.0);
            let at = 4 + name.len() as int;
            &&& piece.len() == at + 4 + 4 * param.1.len()
            &&& crate::bytes::word(piece, 0) == name.len()
            &&& piece.subrange(4, at) == name
            &&& crate::bytes::word(piece, at) == param.1.len()
            &&& piece.subrange(at + 4, at + 4 + 4 * param.1.len()) == crate::shard::token_bytes(
                words_of(param.1),
            )
        }),
{
    let piece = param_bytes(param);
    let name = vstd::utf8::encode_utf8(param.0);
    let first = crate::bytes::le_bytes(name.len() as u32);
    let second = crate::bytes::le_bytes(param.1.len() as u32);
    let words = crate::shard::token_bytes(words_of(param.1));
    let at = 4 + name.len() as int;
    let none = Seq::<u8>::empty();
    crate::bytes::lemma_widths(name.len() as u32, 0);
    crate::bytes::lemma_widths(param.1.len() as u32, 0);
    crate::shard::lemma_token_bytes_len(words_of(param.1));
    assert(crate::bytes::word(piece, 0) == name.len()) by {
        crate::bytes::law_word_round_trip(none, name.len() as u32, name + second + words);
        assert(none + first + (name + second + words) =~= piece);
    }
    assert(piece.subrange(4, at) =~= name);
    assert(crate::bytes::word(piece, at) == param.1.len()) by {
        crate::bytes::law_word_round_trip(first + name, param.1.len() as u32, words);
        assert((first + name) + second + words =~= piece);
    }
    assert(piece.subrange(at + 4, at + 4 + 4 * param.1.len()) =~= words);
}

/// Values are found where their bytes stand.
proof fn lemma_values_found(bytes: Seq<u8>, at: int, values: Seq<Binary32>)
    requires
        0 <= at,
        at + 4 * values.len() <= bytes.len(),
        bytes.subrange(at, at + 4 * values.len()) == crate::shard::token_bytes(words_of(values)),
    ensures
        Seq::new(
            values.len(),
            |j: int| Binary32 { bits: crate::bytes::word(bytes, at + 4 * j) },
        ) == values,
{
    let found = Seq::new(
        values.len(),
        |j: int| Binary32 { bits: crate::bytes::word(bytes, at + 4 * j) },
    );
    let words = words_of(values);
    assert forall|j: int| 0 <= j < values.len() implies #[trigger] found[j] == values[j] by {
        crate::shard::lemma_token_at(bytes, at, words, j);
        assert(words[j] == values[j].bits);
    }
    assert(found =~= values);
}

/// A parameter is found where its bytes stand.
proof fn lemma_param_found(bytes: Seq<u8>, start: int, param: (Seq<char>, Seq<Binary32>))
    requires
        storable(param),
        0 <= start,
        start + param_bytes(param).len() <= bytes.len(),
        bytes.subrange(start, start + param_bytes(param).len()) == param_bytes(param),
    ensures
        param_fault(bytes, start) is None,
        param_at(bytes, start) == param,
        param_end(bytes, start) == start + param_bytes(param).len(),
{
    let piece = param_bytes(param);
    let name = vstd::utf8::encode_utf8(param.0);
    let stored = crate::shard::token_bytes(words_of(param.1));
    let at = 4 + name.len() as int;
    assert(vstd::utf8::valid_utf8(name) && vstd::utf8::decode_utf8(name) == param.0) by {
        vstd::utf8::encode_utf8_valid_utf8(param.0);
        vstd::utf8::encode_utf8_decode_utf8(param.0);
    }
    lemma_param_reads(param);
    lemma_param_stored(bytes, start, piece, name, stored, param);
}

/// A parameter is found where a name, a length and values stand.
proof fn lemma_param_stored(
    bytes: Seq<u8>,
    start: int,
    piece: Seq<u8>,
    name: Seq<u8>,
    stored: Seq<u8>,
    param: (Seq<char>, Seq<Binary32>),
)
    requires
        0 <= start,
        start + piece.len() <= bytes.len(),
        bytes.subrange(start, start + piece.len()) == piece,
        piece.len() == 4 + name.len() + 4 + 4 * param.1.len(),
        crate::bytes::word(piece, 0) == name.len(),
        piece.subrange(4, 4int + name.len()) == name,
        crate::bytes::word(piece, 4int + name.len()) == param.1.len(),
        piece.subrange(4int + name.len() + 4, 4int + name.len() + 4 + 4 * param.1.len()) == stored,
        stored == crate::shard::token_bytes(words_of(param.1)),
        vstd::utf8::valid_utf8(name),
        vstd::utf8::decode_utf8(name) == param.0,
    ensures
        param_fault(bytes, start) is None,
        param_at(bytes, start) == param,
        param_end(bytes, start) == start + piece.len(),
{
    let at = 4 + name.len() as int;
    crate::bytes::lemma_word_of_part(bytes, piece, start, 0);
    crate::bytes::lemma_word_of_part(bytes, piece, start, at);
    crate::bytes::lemma_part_of_part(bytes, piece, start, name, 4);
    crate::shard::lemma_token_bytes_len(words_of(param.1));
    crate::bytes::lemma_part_of_part(bytes, piece, start, stored, at + 4);
    lemma_values_found(bytes, start + at + 4, param.1);
    assert(name_end(bytes, start) == start + at);
    assert(bytes.subrange(start + 4, start + at) == name);
    assert(param_at(bytes, start).1 =~= param.1);
}

proof fn lemma_params_prefix(params: Seq<(Seq<char>, Seq<Binary32>)>, i: int)
    requires
        0 <= i <= params.len(),
    ensures
        params_bytes(params.take(i)).len() <= params_bytes(params).len(),
        params_bytes(params).take(params_bytes(params.take(i)).len() as int) == params_bytes(
            params.take(i),
        ),
    decreases params.len() - i,
{
    if i == params.len() {
        assert(params.take(i) =~= params);
        assert(params_bytes(params).take(params_bytes(params).len() as int) =~= params_bytes(
            params,
        ));
    } else {
        lemma_params_prefix(params, i + 1);
        assert(params.take(i + 1).drop_last() =~= params.take(i));
        let all = params_bytes(params);
        let longer = params_bytes(params.take(i + 1));
        let shorter = params_bytes(params.take(i));
        assert(longer.take(shorter.len() as int) =~= shorter);
        assert(all.take(shorter.len() as int) =~= all.take(longer.len() as int).take(
            shorter.len() as int,
        ));
    }
}

/// The bytes of parameter `i` stand after those of the parameters before it.
proof fn lemma_param_stands(
    bytes: Seq<u8>,
    header: Seq<u8>,
    params: Seq<(Seq<char>, Seq<Binary32>)>,
    i: int,
)
    requires
        bytes == header + params_bytes(params),
        0 <= i < params.len(),
    ensures
        ({
            let start = header.len() + params_bytes(params.take(i)).len();
            let piece = param_bytes(params[i]);
            &&& start + piece.len() <= bytes.len()
            &&& bytes.subrange(start as int, (start + piece.len()) as int) == piece
            &&& params_bytes(params.take(i + 1)).len() + header.len() == start + piece.len()
        }),
{
    lemma_params_prefix(params, i + 1);
    assert(params.take(i + 1).drop_last() =~= params.take(i));
    assert(params.take(i + 1).last() == params[i]);
    let before = params_bytes(params.take(i));
    let piece = param_bytes(params[i]);
    let all = params_bytes(params);
    let start = header.len() + before.len();
    let placed = all.take((before + piece).len() as int);
    assert(placed == before + piece);
    assert forall|j: int| 0 <= j < piece.len() implies bytes[start + j] == piece[j] by {
        assert(all[before.len() + j] == placed[before.len() + j]);
    }
    assert(bytes.subrange(start as int, (start + piece.len()) as int) =~= piece);
}

proof fn lemma_params_placed(
    bytes: Seq<u8>,
    header: Seq<u8>,
    params: Seq<(Seq<char>, Seq<Binary32>)>,
    upto: int,
)
    requires
        header.len() == 44,
        bytes == header + params_bytes(params),
        0 <= upto <= params.len(),
        forall|k: int| 0 <= k < params.len() ==> storable(#[trigger] params[k]),
    ensures
        param_start(bytes, upto as nat) == 44 + params_bytes(params.take(upto)).len(),
        params_fault(bytes, upto as nat) is None,
        params_at(bytes, upto as nat) == params.take(upto),
    decreases upto,
{
    if upto == 0 {
        assert(params.take(0) =~= Seq::empty());
        assert(params_at(bytes, 0) =~= params.take(0));
    } else {
        let i = upto - 1;
        lemma_params_placed(bytes, header, params, i);
        lemma_param_stands(bytes, header, params, i);
        lemma_param_found(bytes, param_start(bytes, i as nat), params[i]);
        assert forall|j: int| 0 <= j < upto implies #[trigger] params_at(bytes, upto as nat)[j]
            == params.take(upto)[j] by {
            if j < i {
                assert(params_at(bytes, i as nat)[j] == params.take(i)[j]);
            }
        }
        assert(params_at(bytes, upto as nat) =~= params.take(upto));
    }
}

/// What the bytes of a header spell, whatever follows them.
proof fn lemma_header_reads(meta: CheckpointMeta, count: nat, tail: Seq<u8>)
    requires
        count <= u32::MAX,
    ensures
        ({
            let header = header_bytes(meta, count);
            let bytes = header + tail;
            &&& header.len() == 44
            &&& header_fault(bytes) is None
            &&& meta_at(bytes) == meta
            &&& crate::bytes::word(bytes, 40) == count
        }),
{
    let words = seq![VERSION] + meta_words(meta) + seq![count as u32];
    let stored = crate::shard::token_bytes(words);
    let bytes = header_bytes(meta, count) + tail;
    crate::shard::lemma_token_bytes_len(words);
    assert(words.len() == 9);
    assert(magic().len() == 8);
    assert(bytes.take(8) =~= magic());
    assert(bytes.subrange(8, 8int + 4 * words.len()) =~= stored);
    crate::shard::lemma_token_at(bytes, 8, words, 0);
    crate::shard::lemma_token_at(bytes, 8, words, 1);
    crate::shard::lemma_token_at(bytes, 8, words, 2);
    crate::shard::lemma_token_at(bytes, 8, words, 3);
    crate::shard::lemma_token_at(bytes, 8, words, 4);
    crate::shard::lemma_token_at(bytes, 8, words, 5);
    crate::shard::lemma_token_at(bytes, 8, words, 6);
    crate::shard::lemma_token_at(bytes, 8, words, 7);
    crate::shard::lemma_token_at(bytes, 8, words, 8);
}

/// What is written is read back: the shape, and every name with its values,
/// bit for bit and in order.
pub proof fn law_checkpoint_round_trip(
    meta: CheckpointMeta,
    params: Seq<(Seq<char>, Seq<Binary32>)>,
)
    requires
        params.len() <= u32::MAX,
        forall|k: int| 0 <= k < params.len() ==> storable(#[trigger] params[k]),
    ensures
        ({
            let bytes = checkpoint_bytes(meta, params);
            &&& checkpoint_fault(bytes) is None
            &&& meta_at(bytes) == meta
            &&& crate::bytes::word(bytes, 40) == params.len()
            &&& params_at(bytes, params.len()) == params
        }),
{
    let bytes = checkpoint_bytes(meta, params);
    lemma_header_reads(meta, params.len(), params_bytes(params));
    lemma_params_placed(bytes, header_bytes(meta, params.len()), params, params.len() as int);
    assert(params.take(params.len() as int) =~= params);
}

/// The words of a checkpoint's header stand in order.
proof fn lemma_header_words(meta: CheckpointMeta, count: nat, tail: Seq<u8>)
    requires
        count <= u32::MAX,
    ensures
        ({
            let bytes = header_bytes(meta, count) + tail;
            &&& bytes.take(8) == magic()
            &&& crate::bytes::word(bytes, 8) == VERSION
            &&& bytes.skip(44) == tail
        }),
{
    lemma_header_reads(meta, count, tail);
    let header = header_bytes(meta, count);
    assert((header + tail).skip(44) =~= tail);
}

/// A checkpoint begins with eight letters, the version, the seven words of the
/// shape and the number of parameters.
pub proof fn law_a_checkpoint_begins_with_its_header(
    meta: CheckpointMeta,
    params: Seq<(Seq<char>, Seq<Binary32>)>,
)
    requires
        params.len() <= u32::MAX,
    ensures
        ({
            let bytes = checkpoint_bytes(meta, params);
            &&& bytes.take(8) == seq![0x41u8, 0x4E, 0x41, 0x50, 0x43, 0x4B, 0x50, 0x31]
            &&& crate::bytes::word(bytes, 8) == 1
            &&& crate::bytes::word(bytes, 12) == meta.vocab_size
            &&& crate::bytes::word(bytes, 16) == meta.seq_len
            &&& crate::bytes::word(bytes, 20) == meta.chunk
            &&& crate::bytes::word(bytes, 24) == meta.num_layers
            &&& crate::bytes::word(bytes, 28) == meta.num_heads
            &&& crate::bytes::word(bytes, 32) == meta.head_dim
            &&& crate::bytes::word(bytes, 36) == meta.intermediate_size
            &&& crate::bytes::word(bytes, 40) == params.len()
            &&& bytes.skip(44) == params_bytes(params)
        }),
{
    lemma_header_reads(meta, params.len(), params_bytes(params));
    lemma_header_words(meta, params.len(), params_bytes(params));
    assert(magic() =~= seq![0x41u8, 0x4E, 0x41, 0x50, 0x43, 0x4B, 0x50, 0x31]);
}

/// Parameters stand one after the other.
pub proof fn law_parameters_stand_one_after_the_other(
    a: Seq<(Seq<char>, Seq<Binary32>)>,
    b: Seq<(Seq<char>, Seq<Binary32>)>,
)
    ensures
        params_bytes(a + b) == params_bytes(a) + params_bytes(b),
    decreases b.len(),
{
    if b.len() == 0 {
        assert(a + b =~= a);
        assert(params_bytes(a) + params_bytes(b) =~= params_bytes(a));
    } else {
        law_parameters_stand_one_after_the_other(a, b.drop_last());
        assert((a + b).drop_last() =~= a + b.drop_last());
        assert((a + b).last() == b.last());
        assert(params_bytes(a) + params_bytes(b) =~= (params_bytes(a) + params_bytes(b.drop_last()))
            + param_bytes(b.last()));
    }
}

/// A parameter is stored as the length of its name, the name, the number of its
/// values, and the values in order, bit for bit.
pub proof fn law_a_parameter_is_its_name_and_its_values(
    param: (Seq<char>, Seq<Binary32>),
    j: int,
)
    requires
        storable(param),
        0 <= j < param.1.len(),
    ensures
        ({
            let bytes = params_bytes(seq![param]);
            let name = vstd::utf8::encode_utf8(param.0);
            let at = 4 + name.len() as int;
            &&& bytes.len() == at + 4 + 4 * param.1.len()
            &&& crate::bytes::word(bytes, 0) == name.len()
            &&& bytes.subrange(4, at) == name
            &&& crate::bytes::word(bytes, at) == param.1.len()
            &&& crate::bytes::word(bytes, at + 4 + 4 * j) == param.1[j].bits
        }),
{
    let one = seq![param];
    let piece = param_bytes(param);
    assert(one.drop_last() =~= Seq::empty());
    assert(params_bytes(one.drop_last()) =~= Seq::empty());
    assert(params_bytes(one) =~= piece);
    lemma_param_reads(param);
    let name = vstd::utf8::encode_utf8(param.0);
    let words = words_of(param.1);
    crate::shard::lemma_token_at(piece, 8 + name.len() as int, words, j);
}

/// What is not a checkpoint is refused: other letters, another version, or a
/// header that is cut.
pub proof fn law_what_is_not_a_checkpoint_is_refused(bytes: Seq<u8>)
    ensures
        bytes.len() < 44 ==> checkpoint_fault(bytes) is Some,
        bytes.len() >= 8 && bytes.take(8) != seq![
            0x41u8,
            0x4E,
            0x41,
            0x50,
            0x43,
            0x4B,
            0x50,
            0x31,
        ] ==> checkpoint_fault(bytes) == Some(CheckpointError::NotACheckpoint),
        bytes.len() >= 12 && crate::bytes::word(bytes, 8) != 1 ==> checkpoint_fault(bytes) is Some,
{
    assert(magic() =~= seq![0x41u8, 0x4E, 0x41, 0x50, 0x43, 0x4B, 0x50, 0x31]);
}

/// A dump is written onto a session up to the first parameter that the session
/// does not hold, or holds in another length; and whole where there is none.
pub proof fn law_a_dump_stops_at_the_first_misfit(
    params: Seq<(String, Vec<Binary32>)>,
    sizes: Seq<Option<usize>>,
    i: int,
)
    requires
        0 <= i <= params.len(),
        forall|j: int| 0 <= j < i ==> #[trigger] sizes[j] == Some(params[j].1@.len() as usize),
        forall|j: int| 0 <= j < params.len() ==> (#[trigger] params[j]).1@.len() <= usize::MAX,
        i < params.len() ==> sizes[i] is None || sizes[i]->0 != params[i].1@.len(),
    ensures
        first_mismatch(params, sizes, params.len()) == if i < params.len() {
            Some(i)
        } else {
            None
        },
{
    lemma_no_mismatch(params, sizes, i as nat);
    if i < params.len() {
        lemma_mismatch_stays(params, sizes, (i + 1) as nat, params.len());
    }
}

proof fn lemma_no_mismatch(
    params: Seq<(String, Vec<Binary32>)>,
    sizes: Seq<Option<usize>>,
    upto: nat,
)
    requires
        upto <= params.len(),
        forall|j: int| 0 <= j < upto ==> #[trigger] sizes[j] == Some(params[j].1@.len() as usize),
        forall|j: int| 0 <= j < params.len() ==> (#[trigger] params[j]).1@.len() <= usize::MAX,
    ensures
        first_mismatch(params, sizes, upto) is None,
    decreases upto,
{
    if upto > 0 {
        lemma_no_mismatch(params, sizes, (upto - 1) as nat);
        assert(params[upto - 1].1@.len() <= usize::MAX);
        assert(sizes[upto - 1] == Some(params[upto - 1].1@.len() as usize));
    }
}

/// A message tells the file's shape before the model's, and names a parameter and
/// both of its lengths.
pub proof fn law_a_message_names_what_it_is_about(e: CheckpointError)
    ensures
        ({
            let text = checkpoint_error_chars(e);
            match e {
                CheckpointError::Version(v) => crate::text::names(
                    text,
                    "unsupported checkpoint version "@,
                    v as nat,
                ),
                CheckpointError::ShapeMismatch { file, model } => {
                    &&& crate::text::holds(text, "checkpoint shape "@ + shape_chars(file))
                    &&& crate::text::holds(text, " does not match model "@ + shape_chars(model))
                },
                CheckpointError::ParamMismatch { name, dump, session } => {
                    &&& crate::text::holds(text, name@)
                    &&& session matches Some(n) ==> crate::text::names(text, " has "@, dump as nat)
                        && crate::text::names(text, " values, session has "@, n as nat)
                },
                _ => true,
            }
        }),
{
    let none = Seq::<char>::empty();
    let text = checkpoint_error_chars(e);
    match e {
        CheckpointError::Version(v) => {
            crate::text::lemma_holds(none, text, none);
            assert(none + text + none =~= text);
        },
        CheckpointError::ShapeMismatch { file, model } => {
            let first = "checkpoint shape "@ + shape_chars(file);
            let second = " does not match model "@ + shape_chars(model);
            crate::text::lemma_holds(none, first, second);
            assert(none + first + second =~= text);
            crate::text::lemma_holds(first, second, none);
            assert(first + second + none =~= text);
        },
        CheckpointError::ParamMismatch { name, dump, session } => match session {
            None => {
                crate::text::lemma_holds(
                    "checkpoint has "@,
                    name@,
                    " but the session does not"@,
                );
            },
            Some(n) => {
                let head = "checkpoint "@ + name@;
                let (x, y) = (
                    crate::text::decimal_chars(dump as nat),
                    crate::text::decimal_chars(n as nat),
                );
                let (a, b) = (" has "@ + x, " values, session has "@ + y);
                crate::text::lemma_holds("checkpoint "@, name@, a + b);
                assert("checkpoint "@ + name@ + (a + b) =~= text);
                crate::text::lemma_holds(head, a, b);
                assert(head + a + b =~= text);
                crate::text::lemma_holds(head + a, b, none);
                assert((head + a) + b + none =~= text);
            },
        },
        _ => {},
    }
}

} // verus!
