//! The FNV-1a hash.
use vstd::prelude::*;

verus! {

/// The hash of no bytes.
pub const FNV_OFFSET: u64 = 0xcbf2_9ce4_8422_2325;

/// The multiplier of each step.
pub const FNV_PRIME: u64 = 0x0000_0100_0000_01b3;

/// One step: fold `byte` into `h`.
pub open spec fn fnv_step(h: u64, byte: u8) -> u64 {
    (h ^ (byte as u64)).wrapping_mul(FNV_PRIME)
}

/// The hash of `bytes`, starting from `h`.
pub open spec fn fnv_from(h: u64, bytes: Seq<u8>) -> u64
    decreases bytes.len(),
{
    if bytes.len() == 0 {
        h
    } else {
        fnv_step(fnv_from(h, bytes.drop_last()), bytes.last())
    }
}

/// Fold `byte` into `h`.
pub fn step(h: u64, byte: u8) -> (next: u64)
    ensures
        next == fnv_step(h, byte),
{
    (h ^ (byte as u64)).wrapping_mul(FNV_PRIME)
}

/// The FNV-1a hash of `bytes`.
pub fn fnv1a(bytes: &[u8]) -> (h: u64)
    ensures
        h == fnv_from(FNV_OFFSET, bytes@),
{
    let mut h: u64 = FNV_OFFSET;
    let mut i: usize = 0;
    while i < bytes.len()
        invariant
            i <= bytes.len(),
            h == fnv_from(FNV_OFFSET, bytes@.take(i as int)),
        decreases bytes.len() - i,
    {
        proof {
            assert(bytes@.take(i + 1).drop_last() =~= bytes@.take(i as int));
        }
        h = step(h, bytes[i]);
        i = i + 1;
    }
    proof {
        assert(bytes@.take(i as int) =~= bytes@);
    }
    h
}

/// Fold the four bytes of `token` into `h`.
pub open spec fn fnv_token(h: u64, token: u32) -> u64 {
    fnv_step(
        fnv_step(
            fnv_step(fnv_step(h, (token % 256) as u8), (token / 256 % 256) as u8),
            (token / 65536 % 256) as u8,
        ),
        (token / 16777216 % 256) as u8,
    )
}

/// The hash of the bytes of `gram`, token by token.
pub open spec fn fnv_gram(gram: Seq<u32>) -> u64
    decreases gram.len(),
{
    if gram.len() == 0 {
        FNV_OFFSET
    } else {
        fnv_token(fnv_gram(gram.drop_last()), gram.last())
    }
}

/// The FNV-1a hash of the bytes of `tokens[start .. start + n]`.
pub fn hash_gram(tokens: &[u32], start: usize, n: usize) -> (h: u64)
    requires
        start + n <= tokens@.len(),
    ensures
        h == fnv_gram(tokens@.subrange(start as int, start + n)),
{
    let ghost gram = tokens@.subrange(start as int, start + n);
    let total: usize = tokens.len();
    let mut h: u64 = FNV_OFFSET;
    let mut i: usize = 0;
    while i < n
        invariant
            i <= n,
            start + n <= total,
            total == tokens@.len(),
            gram == tokens@.subrange(start as int, start + n),
            h == fnv_gram(gram.take(i as int)),
        decreases n - i,
    {
        let token: u32 = tokens[start + i];
        proof {
            assert(gram.take(i + 1).drop_last() =~= gram.take(i as int));
            assert(gram.take(i + 1).last() == token);
        }
        h = step(h, (token % 256) as u8);
        h = step(h, (token / 256 % 256) as u8);
        h = step(h, (token / 65536 % 256) as u8);
        h = step(h, (token / 16777216 % 256) as u8);
        i = i + 1;
    }
    proof {
        assert(gram.take(i as int) =~= gram);
    }
    h
}

/// The four bytes of every token of `gram`, the low byte first.
pub open spec fn gram_bytes(gram: Seq<u32>) -> Seq<u8> {
    Seq::new(
        4 * gram.len(),
        |i: int|
            (gram[i / 4] as int / (if i % 4 == 0 {
                1int
            } else if i % 4 == 1 {
                0x100
            } else if i % 4 == 2 {
                0x1_0000
            } else {
                0x100_0000
            }) % 0x100) as u8,
    )
}

/// Hashing one string of bytes after another is hashing them in one.
pub proof fn law_hashing_goes_on_where_it_stopped(h: u64, a: Seq<u8>, b: Seq<u8>)
    ensures
        fnv_from(h, a + b) == fnv_from(fnv_from(h, a), b),
    decreases b.len(),
{
    if b.len() == 0 {
        assert(a + b =~= a);
    } else {
        law_hashing_goes_on_where_it_stopped(h, a, b.drop_last());
        assert((a + b).drop_last() =~= a + b.drop_last());
    }
}

/// The four bytes of a token, the low byte first.
pub open spec fn token_bytes(token: u32) -> Seq<u8> {
    seq![
        (token % 256) as u8,
        (token / 256 % 256) as u8,
        (token / 65536 % 256) as u8,
        (token / 16777216 % 256) as u8,
    ]
}

proof fn lemma_token_bytes(h: u64, token: u32)
    ensures
        fnv_from(h, token_bytes(token)) == fnv_token(h, token),
{
    let four = token_bytes(token);
    let three = seq![four[0], four[1], four[2]];
    let two = seq![four[0], four[1]];
    let one = seq![four[0]];
    assert(four.drop_last() =~= three);
    assert(three.drop_last() =~= two);
    assert(two.drop_last() =~= one);
    assert(one.drop_last() =~= Seq::<u8>::empty());
    assert(fnv_from(h, Seq::<u8>::empty()) == h);
    assert(fnv_from(h, one) == fnv_step(h, four[0]));
    assert(fnv_from(h, two) == fnv_step(fnv_from(h, one), four[1]));
    assert(fnv_from(h, three) == fnv_step(fnv_from(h, two), four[2]));
}

proof fn lemma_byte_place(gram: Seq<u32>, i: int)
    requires
        gram.len() > 0,
        0 <= i < 4 * gram.len(),
    ensures
        gram_bytes(gram)[i] == if i < 4 * (gram.len() - 1) {
            gram_bytes(gram.drop_last())[i]
        } else {
            token_bytes(gram.last())[i - 4 * (gram.len() - 1)]
        },
{
    let k = gram.len() - 1;
    if i >= 4 * k {
        assert(i / 4 == k);
        assert(i % 4 == i - 4 * k);
    }
}

/// A run of tokens is hashed as the bytes of its tokens, the low byte first.
pub proof fn law_a_gram_is_hashed_as_its_bytes(gram: Seq<u32>)
    ensures
        fnv_gram(gram) == fnv_from(FNV_OFFSET, gram_bytes(gram)),
    decreases gram.len(),
{
    let bytes = gram_bytes(gram);
    if gram.len() > 0 {
        let rest = gram_bytes(gram.drop_last());
        let four = token_bytes(gram.last());
        law_a_gram_is_hashed_as_its_bytes(gram.drop_last());
        assert forall|i: int| 0 <= i < bytes.len() implies #[trigger] bytes[i] == (rest + four)[i] by {
            lemma_byte_place(gram, i);
        }
        assert(bytes =~= rest + four);
        law_hashing_goes_on_where_it_stopped(FNV_OFFSET, rest, four);
        lemma_token_bytes(fnv_from(FNV_OFFSET, rest), gram.last());
    }
}

} // verus!
