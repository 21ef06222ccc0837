//! Little-endian words in byte strings.
use vstd::prelude::*;

verus! {

/// The four bytes of `x`, the least significant first.
#[verifier::opaque]
pub open spec fn le_bytes(x: u32) -> Seq<u8> {
    seq![
        (x % 256) as u8,
        (x / 256 % 256) as u8,
        (x / 65536 % 256) as u8,
        (x / 16777216 % 256) as u8,
    ]
}

/// The eight bytes of `x`, the least significant first.
pub open spec fn le_bytes_wide(x: u64) -> Seq<u8> {
    le_bytes((x % 0x1_0000_0000) as u32) + le_bytes(
        (x / 0x1_0000_0000) as u32,
    )
}

/// The word that four bytes from `at` on spell.
pub open spec fn word(bytes: Seq<u8>, at: int) -> u32 {
    (bytes[at] + 256 * bytes[at + 1] + 65536 * bytes[at + 2] + 16777216 * bytes[at + 3]) as u32
}

/// The word that eight bytes from `at` on spell.
pub open spec fn wide_word(bytes: Seq<u8>, at: int) -> u64 {
    (word(bytes, at) + 0x1_0000_0000 * word(bytes, at + 4)) as u64
}

/// Append the four bytes of `x`.
pub fn put_u32(out: &mut Vec<u8>, x: u32)
    ensures
        final(out)@ == old(out)@ + le_bytes(x),
{
    let ghost before = out@;
    proof {
        reveal(le_bytes);
    }
    out.push((x % 256) as u8);
    out.push((x / 256 % 256) as u8);
    out.push((x / 65536 % 256) as u8);
    out.push((x / 16777216 % 256) as u8);
    proof {
        assert(out@ =~= before + le_bytes(x));
    }
}

/// Append the eight bytes of `x`.
pub fn put_u64(out: &mut Vec<u8>, x: u64)
    ensures
        final(out)@ == old(out)@ + le_bytes_wide(x),
{
    let ghost before = out@;
    put_u32(out, (x % 0x1_0000_0000) as u32);
    put_u32(out, (x / 0x1_0000_0000) as u32);
    proof {
        assert(out@ =~= before + le_bytes_wide(x));
    }
}

/// The word at `at`, if the bytes reach that far.
pub fn get_u32(bytes: &[u8], at: usize) -> (x: Option<u32>)
    ensures
        x is Some <==> at + 4 <= bytes@.len(),
        x is Some ==> x->0 == word(bytes@, at as int),
{
    if bytes.len() < 4 || at > bytes.len() - 4 {
        return None;
    }
    Some(
        bytes[at] as u32 + 256 * (bytes[at + 1] as u32) + 65536 * (bytes[at + 2] as u32) + 16777216
            * (bytes[at + 3] as u32),
    )
}

/// The wide word at `at`, if the bytes reach that far.
pub fn get_u64(bytes: &[u8], at: usize) -> (x: Option<u64>)
    ensures
        x is Some <==> at + 8 <= bytes@.len(),
        x is Some ==> x->0 == wide_word(bytes@, at as int),
{
    if bytes.len() < 8 || at > bytes.len() - 8 {
        return None;
    }
    match get_u32(bytes, at) {
        Some(low) => {
            match get_u32(bytes, at + 4) {
                Some(high) => Some(low as u64 + 0x1_0000_0000 * (high as u64)),
                None => None,
            }
        },
        None => None,
    }
}

/// Whether `bytes` starts with `prefix`.
pub open spec fn starts(bytes: Seq<u8>, prefix: Seq<u8>) -> bool {
    bytes.len() >= prefix.len() && bytes.take(prefix.len() as int) == prefix
}

/// Whether `bytes` starts with `prefix`.
pub fn starts_with(bytes: &[u8], prefix: &[u8]) -> (b: bool)
    ensures
        b == starts(bytes@, prefix@),
{
    if bytes.len() < prefix.len() {
        return false;
    }
    let mut i: usize = 0;
    while i < prefix.len()
        invariant
            i <= prefix@.len() <= bytes@.len(),
            forall|j: int| 0 <= j < i ==> bytes@[j] == prefix@[j],
        decreases prefix.len() - i,
    {
        if bytes[i] != prefix[i] {
            proof {
                assert(bytes@.take(prefix@.len() as int)[i as int] != prefix@[i as int]);
            }
            return false;
        }
        i = i + 1;
    }
    proof {
        assert(bytes@.take(prefix@.len() as int) =~= prefix@);
    }
    true
}

/// What is written as a word is read back as that word.
pub proof fn law_word_round_trip(head: Seq<u8>, x: u32, tail: Seq<u8>)
    ensures
        word(head + le_bytes(x) + tail, head.len() as int) == x,
{
    let bytes = head + le_bytes(x) + tail;
    let at = head.len() as int;
    reveal(le_bytes);
    assert(bytes[at] == (x % 256) as u8);
    assert(bytes[at + 1] == (x / 256 % 256) as u8);
    assert(bytes[at + 2] == (x / 65536 % 256) as u8);
    assert(bytes[at + 3] == (x / 16777216 % 256) as u8);
}

/// What is written as a wide word is read back as that word.
pub proof fn law_wide_word_round_trip(head: Seq<u8>, x: u64, tail: Seq<u8>)
    ensures
        wide_word(head + le_bytes_wide(x) + tail, head.len() as int) == x,
{
    let low = (x % 0x1_0000_0000) as u32;
    let high = (x / 0x1_0000_0000) as u32;
    let (first, second) = (le_bytes(low), le_bytes(high));
    let bytes = head + le_bytes_wide(x) + tail;
    assert(bytes =~= head + first + (second + tail));
    assert(bytes =~= (head + first) + second + tail);
    lemma_widths(low, x);
    law_word_round_trip(head, low, second + tail);
    law_word_round_trip(head + first, high, tail);
}

/// A word takes four bytes and a wide word eight.
pub proof fn lemma_widths(x: u32, y: u64)
    ensures
        le_bytes(x).len() == 4,
        le_bytes_wide(y).len() == 8,
{
    reveal(le_bytes);
}

/// A word depends on its own four bytes only.
pub proof fn lemma_word_of_part(bytes: Seq<u8>, part: Seq<u8>, offset: int, at: int)
    requires
        0 <= offset,
        0 <= at,
        at + 4 <= part.len(),
        offset + part.len() <= bytes.len(),
        part == bytes.subrange(offset, offset + part.len()),
    ensures
        word(bytes, offset + at) == word(part, at),
{
    assert(part[at] == bytes[offset + at]);
    assert(part[at + 1] == bytes[offset + at + 1]);
    assert(part[at + 2] == bytes[offset + at + 2]);
    assert(part[at + 3] == bytes[offset + at + 3]);
}

/// A part of a part stands where the two offsets add up to.
pub proof fn lemma_part_of_part(
    bytes: Seq<u8>,
    piece: Seq<u8>,
    offset: int,
    part: Seq<u8>,
    at: int,
)
    requires
        0 <= offset,
        0 <= at,
        offset + piece.len() <= bytes.len(),
        at + part.len() <= piece.len(),
        piece == bytes.subrange(offset, offset + piece.len()),
        part == piece.subrange(at, at + part.len()),
    ensures
        bytes.subrange(offset + at, offset + at + part.len()) == part,
{
    assert(bytes.subrange(offset + at, offset + at + part.len()) =~= bytes.subrange(
        offset,
        offset + piece.len(),
    ).subrange(at, at + part.len()));
}

/// A word is written the low byte first: byte `i` counts for `256^i`.
pub proof fn law_a_word_is_written_low_byte_first(x: u32)
    ensures
        ({
            let b = le_bytes(x);
            &&& b.len() == 4
            &&& b[0] + 0x100 * b[1] + 0x1_0000 * b[2] + 0x100_0000 * b[3] == x
        }),
{
    reveal(le_bytes);
}

/// A wide word is written the low half first.
pub proof fn law_a_wide_word_is_written_low_half_first(x: u64)
    ensures
        ({
            let b = le_bytes_wide(x);
            let low = b[0] + 0x100 * b[1] + 0x1_0000 * b[2] + 0x100_0000 * b[3];
            let high = b[4] + 0x100 * b[5] + 0x1_0000 * b[6] + 0x100_0000 * b[7];
            &&& b.len() == 8
            &&& low + 0x1_0000_0000 * high == x
        }),
{
    let low = (x % 0x1_0000_0000) as u32;
    let high = (x / 0x1_0000_0000) as u32;
    assert(x == low + 0x1_0000_0000 * high);
    law_a_word_is_written_low_byte_first(low);
    law_a_word_is_written_low_byte_first(high);
    let b = le_bytes_wide(x);
    assert(b[0] == le_bytes(low)[0] && b[1] == le_bytes(low)[1] && b[2] == le_bytes(low)[2] && b[3]
        == le_bytes(low)[3]);
    assert(b[4] == le_bytes(high)[0] && b[5] == le_bytes(high)[1] && b[6] == le_bytes(high)[2]
        && b[7] == le_bytes(high)[3]);
}

/// A word is read the low byte first, and a wide word the low half first.
pub proof fn law_a_word_is_read_low_byte_first(bytes: Seq<u8>, at: int)
    ensures
        word(bytes, at) == bytes[at] + 0x100 * bytes[at + 1] + 0x1_0000 * bytes[at + 2]
            + 0x100_0000 * bytes[at + 3],
        wide_word(bytes, at) == word(bytes, at) + 0x1_0000_0000 * word(bytes, at + 4),
{
}

} // verus!
