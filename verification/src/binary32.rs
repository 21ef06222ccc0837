//! Single-precision numbers held as their binary32 words.
//!
//! Every comparison and every arithmetic operation here is stated over exact
//! integers: a finite word stands for a whole multiple of `2^-149`, and an
//! operation returns the word nearest to the exact result, ties going to the
//! even word. The same inputs therefore give the same word everywhere.
use vstd::arithmetic::mul::*;
use vstd::arithmetic::power2::*;
use vstd::bits::*;
use vstd::prelude::*;

verus! {

/// The word of positive infinity, and the first word that is not finite.
pub const INFINITY_BITS: u32 = 0x7F80_0000;

/// The word of one.
pub const ONE_BITS: u32 = 0x3F80_0000;

/// The word with only the sign bit set.
pub const SIGN_BIT: u32 = 0x8000_0000;

/// The word that stands for every not-a-number result computed here.
pub const NAN_BITS: u32 = 0x7FC0_0000;

/// One past the largest significand field.
pub const HIDDEN_BIT: u32 = 0x0080_0000;

/// The exponent `p` with which a magnitude word scales its significand.
pub open spec fn scale_exponent(word: nat) -> nat {
    let e = word / 0x80_0000;
    if e == 0 {
        0
    } else {
        (e - 1) as nat
    }
}

/// The significand of a magnitude word, the hidden bit included.
pub open spec fn significand(word: nat) -> nat {
    if word / 0x80_0000 == 0 {
        word
    } else {
        word % 0x80_0000 + 0x80_0000
    }
}

/// The magnitude a sign-free word stands for, in units of `2^-149`.
///
/// At the infinity word this is `2^128`, the number that the next exponent
/// would give, so one formula covers the order of all words.
pub open spec fn magnitude(word: nat) -> nat {
    significand(word) * pow2(scale_exponent(word))
}

/// Whether the sign-free word `r` is the one nearest to `num / den` units,
/// ties going to the even word.
pub open spec fn is_nearest(num: nat, den: nat, r: nat) -> bool {
    &&& r <= INFINITY_BITS
    &&& r < INFINITY_BITS ==> {
        let upper = (magnitude(r) + magnitude(r + 1)) * den;
        2 * num < upper || (2 * num == upper && r % 2 == 0)
    }
    &&& r > 0 ==> {
        let lower = (magnitude((r - 1) as nat) + magnitude(r)) * den;
        2 * num > lower || (2 * num == lower && r % 2 == 0)
    }
}

/// The sign-free word nearest to `num / den` units.
pub open spec fn nearest(num: nat, den: nat) -> u32 {
    choose|r: u32| is_nearest(num, den, r as nat)
}

/// The integer units of one: `2^149`.
pub open spec fn one_units() -> nat {
    pow2(149)
}

/// A step to the next word adds one unit in the last place.
pub proof fn lemma_magnitude_step(word: nat)
    requires
        word < INFINITY_BITS,
    ensures
        magnitude(word + 1) == magnitude(word) + pow2(scale_exponent(word)),
        pow2(scale_exponent(word)) > 0,
{
    let e = word / 0x80_0000;
    let m = word % 0x80_0000;
    let p = scale_exponent(word);
    lemma_pow2_pos(p);
    if m + 1 < 0x80_0000 {
        assert((word + 1) / 0x80_0000 == e);
        assert((significand(word) + 1) * pow2(p) == significand(word) * pow2(p) + pow2(p))
            by (nonlinear_arith);
    } else {
        assert((word + 1) / 0x80_0000 == e + 1);
        assert((word + 1) % 0x80_0000 == 0);
        if e == 0 {
            lemma2_to64();
            assert(scale_exponent(word + 1) == 0);
            assert(magnitude(word + 1) == 0x80_0000 * 1);
            assert(magnitude(word) == word * 1);
        } else {
            assert(scale_exponent(word + 1) == p + 1);
            lemma_pow2_unfold(p + 1);
            let z = pow2(p);
            assert(0x80_0000 * (2 * z) == 0xFF_FFFF * z + z) by (nonlinear_arith);
        }
    }
}

/// The magnitude of a word grows strictly with the word.
pub proof fn lemma_magnitude_order(a: nat, b: nat)
    requires
        a < b <= INFINITY_BITS,
    ensures
        magnitude(a) < magnitude(b),
    decreases b - a,
{
    lemma_magnitude_step(a);
    if a + 1 < b {
        lemma_magnitude_order(a + 1, b);
    }
}

/// The magnitude of a word tells the word.
pub proof fn lemma_magnitude_compares(a: nat, b: nat)
    requires
        a <= INFINITY_BITS,
        b <= INFINITY_BITS,
    ensures
        a < b <==> magnitude(a) < magnitude(b),
        a == b <==> magnitude(a) == magnitude(b),
{
    if a < b {
        lemma_magnitude_order(a, b);
    } else if b < a {
        lemma_magnitude_order(b, a);
    }
}

/// At most one word is nearest to a given number.
pub proof fn lemma_nearest_unique(num: nat, den: nat, r: nat, q: nat)
    requires
        den > 0,
        is_nearest(num, den, r),
        is_nearest(num, den, q),
    ensures
        r == q,
{
    lemma_nearest_order(num, den, r, q);
    lemma_nearest_order(num, den, q, r);
}

proof fn lemma_nearest_order(num: nat, den: nat, r: nat, q: nat)
    requires
        den > 0,
        is_nearest(num, den, r),
        is_nearest(num, den, q),
    ensures
        q <= r,
{
    if r + 1 < q {
        let q1 = (q - 1) as nat;
        let upper = magnitude(r) + magnitude(r + 1);
        let lower = magnitude(q1) + magnitude(q);
        lemma_magnitude_order(r, q1);
        lemma_magnitude_order(r + 1, q);
        assert(upper * den < lower * den) by (nonlinear_arith)
            requires
                upper < lower,
                den > 0,
        ;
    }
}

/// A word shown nearest is the word that `nearest` names.
pub proof fn lemma_nearest_is(num: nat, den: nat, r: u32)
    requires
        den > 0,
        is_nearest(num, den, r as nat),
    ensures
        nearest(num, den) == r,
{
    lemma_nearest_unique(num, den, r as nat, nearest(num, den) as nat);
}

/// Every non-negative number has a nearest word.
pub proof fn lemma_nearest_exists(num: nat, den: nat)
    requires
        den > 0,
    ensures
        is_nearest(num, den, nearest(num, den) as nat),
        nearest(num, den) <= INFINITY_BITS,
{
    lemma_pow2_pos(0);
    assert(magnitude(0) == 0 * pow2(0));
    if num >= magnitude(INFINITY_BITS as nat) * den {
        lemma_round_at_top(num, den);
        assert(is_nearest(num, den, INFINITY_BITS as nat));
    } else {
        let f = lemma_floor_exists(num, den, INFINITY_BITS as nat);
        let mid = (magnitude(f) + magnitude(f + 1)) * den;
        let r = if 2 * num > mid || (2 * num == mid && f % 2 == 1) {
            f + 1
        } else {
            f
        };
        lemma_round_from_floor(num, den, f, r);
        assert(is_nearest(num, den, (r as u32) as nat));
    }
}

proof fn lemma_floor_exists(num: nat, den: nat, above: nat) -> (f: nat)
    requires
        den > 0,
        above <= INFINITY_BITS,
        num < magnitude(above) * den,
    ensures
        f < above,
        magnitude(f) * den <= num < magnitude(f + 1) * den,
    decreases above,
{
    if above == 0 {
        assert(magnitude(0) == 0 * pow2(0));
        lemma_mul_basics(den as int);
        0
    } else {
        let below = (above - 1) as nat;
        if magnitude(below) * den <= num {
            below
        } else {
            lemma_floor_exists(num, den, below)
        }
    }
}

/// Rounding keeps the order of numbers.
pub proof fn lemma_nearest_monotone(n1: nat, d1: nat, n2: nat, d2: nat)
    requires
        d1 > 0,
        d2 > 0,
        n1 * d2 <= n2 * d1,
    ensures
        nearest(n1, d1) <= nearest(n2, d2),
{
    lemma_nearest_exists(n1, d1);
    lemma_nearest_exists(n2, d2);
    let r1 = nearest(n1, d1) as nat;
    let r2 = nearest(n2, d2) as nat;
    if r2 < r1 {
        let low = (r1 - 1) as nat;
        let upper = magnitude(r2) + magnitude(r2 + 1);
        let lower = magnitude(low) + magnitude(r1);
        assert(2 * n2 <= upper * d2);
        assert(2 * n1 >= lower * d1);
        if r2 + 1 < r1 {
            lemma_magnitude_order(r2, low);
            lemma_magnitude_order(r2 + 1, r1);
            assert(false) by (nonlinear_arith)
                requires
                    upper < lower,
                    2 * n2 <= upper * d2,
                    2 * n1 >= lower * d1,
                    n1 * d2 <= n2 * d1,
                    d1 > 0,
                    d2 > 0,
            ;
        } else {
            assert(2 * n2 == upper * d2 && 2 * n1 == lower * d1) by (nonlinear_arith)
                requires
                    upper == lower,
                    2 * n2 <= upper * d2,
                    2 * n1 >= lower * d1,
                    n1 * d2 <= n2 * d1,
                    d1 > 0,
                    d2 > 0,
            ;
        }
    }
}

/// A number that a word stands for rounds to that word.
pub proof fn lemma_nearest_exact(word: u32, num: nat, den: nat)
    requires
        den > 0,
        word <= INFINITY_BITS,
        num == magnitude(word as nat) * den,
    ensures
        nearest(num, den) == word,
{
    if word == INFINITY_BITS {
        lemma_round_at_top(num, den);
    } else {
        let f = word as nat;
        lemma_magnitude_step(f);
        let a = magnitude(f);
        let b = magnitude(f + 1);
        assert(a * den < b * den && 2 * (a * den) < (a + b) * den) by (nonlinear_arith)
            requires
                a < b,
                den > 0,
        ;
        lemma_round_from_floor(num, den, f, f);
    }
    lemma_nearest_is(num, den, word);
}

/// Packing a significand and an exponent gives back their product.
pub proof fn lemma_pack(sig: nat, p: nat)
    requires
        sig < 0x100_0000,
        sig >= 0x80_0000 || p == 0,
        p <= 253,
    ensures
        p * 0x80_0000 + sig < INFINITY_BITS,
        magnitude(p * 0x80_0000 + sig) == sig * pow2(p),
        scale_exponent(p * 0x80_0000 + sig) == p,
{
    let w = p * 0x80_0000 + sig;
    if sig < 0x80_0000 {
        assert(w / 0x80_0000 == 0);
    } else {
        assert(w == (p + 1) * 0x80_0000 + (sig - 0x80_0000));
        assert(w / 0x80_0000 == p + 1);
        assert(w % 0x80_0000 == sig - 0x80_0000);
    }
}

/// From the word just below a number and the side of the midpoint it lies
/// on, the nearest word.
proof fn lemma_round_from_floor(num: nat, den: nat, f: nat, r: nat)
    requires
        den > 0,
        f < INFINITY_BITS,
        magnitude(f) * den <= num < magnitude(f + 1) * den,
        ({
            let mid = (magnitude(f) + magnitude(f + 1)) * den;
            ||| r == f && 2 * num < mid
            ||| r == f + 1 && 2 * num > mid
            ||| r == f && 2 * num == mid && f % 2 == 0
            ||| r == f + 1 && 2 * num == mid && f % 2 == 1
        }),
    ensures
        is_nearest(num, den, r),
{
    if r == f {
        if r > 0 {
            let below = magnitude((f - 1) as nat);
            lemma_magnitude_order((f - 1) as nat, f);
            assert((below + magnitude(f)) * den < 2 * (magnitude(f) * den)) by (nonlinear_arith)
                requires
                    below < magnitude(f),
                    den > 0,
            ;
        }
    } else if r < INFINITY_BITS {
        lemma_magnitude_order(r, r + 1);
        assert(2 * (magnitude(r) * den) < (magnitude(r) + magnitude(r + 1)) * den)
            by (nonlinear_arith)
            requires
                magnitude(r) < magnitude(r + 1),
                den > 0,
        ;
    }
}

/// `2^s` above the line of a fraction.
pub open spec fn scale_up(s: int) -> nat {
    if s >= 0 {
        pow2(s as nat)
    } else {
        1
    }
}

/// `2^-s` below the line of a fraction.
pub open spec fn scale_down(s: int) -> nat {
    if s >= 0 {
        1
    } else {
        pow2((-s) as nat)
    }
}

/// `num / den` lies at `q * 2^s`, or inside the step above it where `sticky`.
pub open spec fn brackets(num: nat, den: nat, q: nat, sticky: bool, s: int) -> bool {
    let base = q * scale_up(s) * den;
    let x = num * scale_down(s);
    if sticky {
        base < x < base + scale_up(s) * den
    } else {
        x == base
    }
}

/// The number of binary digits of `n`.
pub(crate) fn bit_length(n: u64) -> (len: u32)
    requires
        n > 0,
    ensures
        1 <= len <= 64,
        pow2((len - 1) as nat) <= n < pow2(len as nat),
{
    let mut len: u32 = 1;
    let mut rest: u64 = n / 2;
    proof {
        lemma2_to64();
    }
    while rest > 0
        invariant
            1 <= len <= 64,
            n > 0,
            pow2((len - 1) as nat) <= n,
            rest * pow2(len as nat) <= n < (rest + 1) * pow2(len as nat),
        decreases rest,
    {
        proof {
            lemma_pow2_unfold((len + 1) as nat);
            lemma_pow2_pos(len as nat);
            lemma2_to64_rest();
            lemma2_to64();
            let z = pow2(len as nat);
            assert(z <= rest * z) by (nonlinear_arith)
                requires
                    rest >= 1,
            ;
            if len == 64 {
                assert(false);
            }
            let h: int = rest as int / 2;
            assert(rest == 2 * h || rest == 2 * h + 1);
            assert(h * (2 * z) <= rest * z) by (nonlinear_arith)
                requires
                    2 * h <= rest,
                    z > 0,
            ;
            assert((rest + 1) * z <= (h + 1) * (2 * z)) by (nonlinear_arith)
                requires
                    rest + 1 <= 2 * (h + 1),
                    z > 0,
            ;
        }
        rest = rest / 2;
        len = len + 1;
    }
    proof {
        lemma_mul_basics(pow2(len as nat) as int);
    }
    len
}

/// `2^k` as a machine word.
pub(crate) fn power_of_two(k: u32) -> (z: u64)
    requires
        k < 64,
    ensures
        z == pow2(k as nat),
        z > 0,
{
    proof {
        lemma_u64_pow2_no_overflow(k as nat);
        lemma_u64_shl_is_mul(1u64, k as u64);
        lemma_pow2_pos(k as nat);
        lemma_mul_basics(pow2(k as nat) as int);
    }
    1u64 << (k as u64)
}

/// Rounding at `2^p`, where `p` lies `shift` places above the step `2^s`.
proof fn lemma_round_shifted(
    num: nat,
    den: nat,
    q: nat,
    sticky: bool,
    s: int,
    p: nat,
    shift: nat,
    sig: nat,
    rem: nat,
    r: nat,
)
    requires
        den > 0,
        brackets(num, den, q, sticky, s),
        p == s + shift,
        shift > 0,
        q == sig * pow2(shift) + rem,
        rem < pow2(shift),
        sig < 0x100_0000,
        sig >= 0x80_0000 || p == 0,
        p <= 253,
        ({
            let f = p * 0x80_0000 + sig;
            let half = pow2((shift - 1) as nat);
            r == if rem > half || (rem == half && (sticky || f % 2 == 1)) {
                f + 1
            } else {
                f
            }
        }),
    ensures
        is_nearest(num, den, r),
{
    let f = p * 0x80_0000 + sig;
    let half = pow2((shift - 1) as nat);
    let full = pow2(shift);
    let u = scale_up(s);
    let v = scale_down(s);
    lemma_pack(sig, p);
    lemma_magnitude_step(f);
    lemma_pow2_unfold(shift);
    assert(full == 2 * half);
    lemma_pow2_pos((shift - 1) as nat);
    lemma_pow2_pos(p);
    if s >= 0 {
        lemma_pow2_adds(s as nat, shift);
        lemma_pow2_pos(s as nat);
        lemma_mul_basics(pow2(p) as int);
    } else {
        lemma_pow2_adds(p, (-s) as nat);
        lemma_pow2_pos((-s) as nat);
        lemma_mul_basics(full as int);
    }
    let z = pow2(p);
    assert(z * v == full * u) by {
        assert(u * full == full * u) by (nonlinear_arith);
    }
    let ud = u * den;
    assert(ud > 0) by (nonlinear_arith)
        requires
            u > 0,
            den > 0,
            ud == u * den,
    ;
    let x = num * v;
    assert(q * u * den == q * ud) by (nonlinear_arith)
        requires
            ud == u * den,
    ;
    // The floor, the ceiling and the midpoint, all brought to the scale of `x`.
    assert((sig * z) * den * v == (sig * full) * ud) by (nonlinear_arith)
        requires
            z * v == full * u,
            ud == u * den,
    ;
    assert((sig * z + z) * den * v == (sig * full + full) * ud) by (nonlinear_arith)
        requires
            z * v == full * u,
            ud == u * den,
    ;
    let mid = ((sig * z) + (sig * z + z)) * den;
    assert(mid * v == (2 * (sig * full + half)) * ud) by (nonlinear_arith)
        requires
            z * v == full * u,
            ud == u * den,
            full == 2 * half,
            mid == ((sig * z) + (sig * z + z)) * den,
    ;
    let b = sig * full;
    assert(b * ud <= x < (b + full) * ud) by (nonlinear_arith)
        requires
            q == b + rem,
            rem + 1 <= full,
            ud > 0,
            q * ud <= x < q * ud + ud,
    ;
    assert((sig * z) * den <= num < (sig * z + z) * den) by (nonlinear_arith)
        requires
            (sig * z) * den * v == b * ud,
            (sig * z + z) * den * v == (b + full) * ud,
            b * ud <= x < (b + full) * ud,
            x == num * v,
            v > 0,
    ;
    if rem > half || (rem == half && sticky) {
        assert((b + half) * ud < x) by (nonlinear_arith)
            requires
                q == b + rem,
                ud > 0,
                (rem >= half + 1 && q * ud <= x) || (rem == half && q * ud < x),
        ;
        assert(2 * num > mid) by (nonlinear_arith)
            requires
                mid * v == (2 * (b + half)) * ud,
                (b + half) * ud < x,
                x == num * v,
                v > 0,
        ;
    } else if rem == half {
        assert(2 * num == mid) by (nonlinear_arith)
            requires
                mid * v == (2 * (b + half)) * ud,
                (b + half) * ud == x,
                x == num * v,
                v > 0,
        ;
    } else {
        assert(x < (b + half) * ud) by (nonlinear_arith)
            requires
                q == b + rem,
                rem + 1 <= half,
                x < q * ud + ud,
                ud > 0,
        ;
        assert(2 * num < mid) by (nonlinear_arith)
            requires
                mid * v == (2 * (b + half)) * ud,
                (b + half) * ud > x,
                x == num * v,
                v > 0,
        ;
    }
    lemma_round_from_floor(num, den, f, r);
}

/// A number at or above `2^128` is nearest to the infinity word.
proof fn lemma_round_overflow(num: nat, den: nat)
    requires
        den > 0,
        num >= pow2(277) * den,
    ensures
        is_nearest(num, den, INFINITY_BITS as nat),
{
    let top = INFINITY_BITS as nat;
    assert(magnitude(top) == 0x80_0000 * pow2(254));
    lemma2_to64();
    lemma_pow2_adds(23, 254);
    assert(magnitude(top) == pow2(277));
    lemma_round_at_top(num, den);
}

proof fn lemma_round_at_top(num: nat, den: nat)
    requires
        den > 0,
        num >= magnitude(INFINITY_BITS as nat) * den,
    ensures
        is_nearest(num, den, INFINITY_BITS as nat),
{
    let top = INFINITY_BITS as nat;
    let below = magnitude((top - 1) as nat);
    lemma_magnitude_order((top - 1) as nat, top);
    assert(2 * num > (below + magnitude(top)) * den) by (nonlinear_arith)
        requires
            below < magnitude(top),
            num >= magnitude(top) * den,
            den > 0,
    ;
}

proof fn lemma_scaled_overflow(num: nat, den: nat, q: nat, sticky: bool, s: int, len: nat)
    requires
        den > 0,
        brackets(num, den, q, sticky, s),
        len >= 1,
        pow2((len - 1) as nat) <= q,
        s + len >= 278,
        len <= 64,
    ensures
        num >= pow2(277) * den,
{
    let u = pow2(s as nat);
    let w = pow2((len - 1) as nat);
    lemma_pow2_adds((len - 1) as nat, s as nat);
    if s + len > 278 {
        lemma_pow2_strictly_increases(277, (s + len - 1) as nat);
    }
    lemma_mul_basics(num as int);
    assert(num >= pow2(277) * den) by (nonlinear_arith)
        requires
            num >= q * u * den,
            q >= w,
            w * u >= pow2(277),
            u >= 0,
            den > 0,
    ;
}

proof fn lemma_shift_up_fits(q: nat, len: nat, up: nat)
    requires
        len >= 1,
        pow2((len - 1) as nat) <= q < pow2(len),
        len + up <= 24,
    ensures
        q * pow2(up) < 0x100_0000,
        len + up == 24 ==> q * pow2(up) >= 0x80_0000,
{
    lemma2_to64();
    lemma_pow2_pos(up);
    lemma_pow2_adds(len, up);
    if len + up < 24 {
        lemma_pow2_strictly_increases(len + up, 24);
    }
    assert(q * pow2(up) < pow2(len) * pow2(up)) by (nonlinear_arith)
        requires
            q < pow2(len),
            pow2(up) > 0,
    ;
    lemma_pow2_adds((len - 1) as nat, up);
    assert(q * pow2(up) >= pow2((len - 1) as nat) * pow2(up)) by (nonlinear_arith)
        requires
            q >= pow2((len - 1) as nat),
    ;
}

proof fn lemma_round_exact(num: nat, den: nat, q: nat, s: nat, p: nat, up: nat, sig: nat)
    requires
        den > 0,
        brackets(num, den, q, false, s as int),
        s == p + up,
        sig == q * pow2(up),
        sig < 0x100_0000,
        sig >= 0x80_0000 || p == 0,
        p <= 253,
    ensures
        is_nearest(num, den, p * 0x80_0000 + sig),
{
    let f = p * 0x80_0000 + sig;
    lemma_pack(sig, p);
    lemma_magnitude_step(f);
    lemma_pow2_adds(up, p);
    lemma_mul_basics(num as int);
    let z = pow2(p);
    let w = pow2(up);
    assert(q * (w * z) * den == (sig * z) * den) by (nonlinear_arith)
        requires
            sig == q * w,
    ;
    assert((sig * z) * den < (sig * z + z) * den) by (nonlinear_arith)
        requires
            z > 0,
            den > 0,
    ;
    assert(2 * ((sig * z) * den) < ((sig * z) + (sig * z + z)) * den) by (nonlinear_arith)
        requires
            z > 0,
            den > 0,
    ;
    lemma_round_from_floor(num, den, f, f);
}

proof fn lemma_round_to_zero(num: nat, den: nat, q: nat, sticky: bool, s: int)
    requires
        den > 0,
        brackets(num, den, q, sticky, s),
        q < 0x4000_0000_0000_0000,
        s < -63,
    ensures
        is_nearest(num, den, 0),
{
    lemma2_to64();
    lemma2_to64_rest();
    let v = pow2((-s) as nat);
    lemma_pow2_strictly_increases(63, (-s) as nat);
    lemma_magnitude_step(0);
    assert(magnitude(0) == 0 * pow2(0));
    lemma_mul_basics(q as int);
    lemma_mul_basics(den as int);
    assert(2 * num < den) by (nonlinear_arith)
        requires
            num * v < q * den + den,
            v >= 2 * (q + 1),
            den > 0,
            num >= 0,
    ;
}

proof fn lemma_shift_down_bounds(q: nat, len: nat, shift: nat, sig: nat, rem: nat)
    requires
        len >= 1,
        pow2((len - 1) as nat) <= q < pow2(len),
        shift >= 1,
        len <= 24 + shift,
        sig == q / pow2(shift),
        rem == q % pow2(shift),
    ensures
        q == sig * pow2(shift) + rem,
        rem < pow2(shift),
        sig < 0x100_0000,
        len == 24 + shift ==> sig >= 0x80_0000,
{
    lemma2_to64();
    let z = pow2(shift);
    lemma_pow2_pos(shift);
    vstd::arithmetic::div_mod::lemma_fundamental_div_mod(q as int, z as int);
    lemma_mul_is_commutative(z as int, sig as int);
    lemma_pow2_adds(24, shift);
    if len < 24 + shift {
        lemma_pow2_strictly_increases(len, 24 + shift);
    }
    assert(sig < 0x100_0000) by (nonlinear_arith)
        requires
            sig * z <= q,
            q < 0x100_0000 * z,
            z > 0,
    ;
    if len == 24 + shift {
        lemma_pow2_adds(23, shift);
        assert(sig >= 0x80_0000) by (nonlinear_arith)
            requires
                q < sig * z + z,
                q >= 0x80_0000 * z,
                z > 0,
        ;
    }
}

/// The word nearest to a number at `q * 2^s`, or just above it where `sticky`.
pub(crate) fn round_scaled(
    q: u64,
    sticky: bool,
    s: i32,
    Ghost(num): Ghost<nat>,
    Ghost(den): Ghost<nat>,
) -> (r: u32)
    requires
        den > 0,
        q > 0,
        sticky ==> q >= 0x200_0000,
        s < 0 ==> q < 0x4000_0000_0000_0000,
        -1000 < s < 1000,
        brackets(num, den, q as nat, sticky, s as int),
    ensures
        r == nearest(num, den),
        is_nearest(num, den, r as nat),
{
    let len: u32 = bit_length(q);
    proof {
        lemma2_to64();
        if sticky && len < 26 {
            if len < 25 {
                lemma_pow2_strictly_increases(len as nat, 25);
            }
        }
    }
    let t: i32 = s + len as i32 - 24;
    let p: i32 = if t > 0 {
        t
    } else {
        0
    };
    if p > 253 {
        proof {
            lemma_scaled_overflow(num, den, q as nat, sticky, s as int, len as nat);
            lemma_round_overflow(num, den);
            lemma_nearest_is(num, den, INFINITY_BITS);
        }
        return INFINITY_BITS;
    }
    let shift: i32 = p - s;
    if shift <= 0 {
        let up: u32 = (-shift) as u32;
        proof {
            lemma_shift_up_fits(q as nat, len as nat, up as nat);
            lemma_pow2_pos(up as nat);
        }
        let z: u64 = power_of_two(up);
        let sig: u64 = q * z;
        let r: u32 = p as u32 * HIDDEN_BIT + sig as u32;
        proof {
            lemma_round_exact(num, den, q as nat, s as nat, p as nat, up as nat, sig as nat);
            lemma_nearest_is(num, den, r);
        }
        return r;
    }
    if shift > 63 {
        proof {
            lemma_round_to_zero(num, den, q as nat, sticky, s as int);
            lemma_nearest_is(num, den, 0);
        }
        return 0;
    }
    let z: u64 = power_of_two(shift as u32);
    let half: u64 = power_of_two((shift - 1) as u32);
    let sig: u64 = q / z;
    let rem: u64 = q % z;
    proof {
        lemma_shift_down_bounds(q as nat, len as nat, shift as nat, sig as nat, rem as nat);
    }
    let f: u32 = p as u32 * HIDDEN_BIT + sig as u32;
    let up: bool = rem > half || (rem == half && (sticky || f % 2 == 1));
    let r: u32 = if up {
        f + 1
    } else {
        f
    };
    proof {
        lemma_round_shifted(
            num,
            den,
            q as nat,
            sticky,
            s as int,
            p as nat,
            shift as nat,
            sig as nat,
            rem as nat,
            r as nat,
        );
        lemma_nearest_is(num, den, r);
    }
    r
}

/// A single-precision number, held as its binary32 word.
#[derive(Clone, Copy, Debug)]
pub struct Binary32 {
    /// The word: sign, eight exponent bits, twenty-three significand bits.
    pub bits: u32,
}

impl Binary32 {
    /// The word without its sign.
    pub open spec fn word(self) -> nat {
        (self.bits % 0x8000_0000) as nat
    }

    /// Whether the sign bit is set.
    pub open spec fn negative(self) -> bool {
        self.bits >= SIGN_BIT
    }

    /// Whether this is not a number.
    pub open spec fn nan(self) -> bool {
        self.word() > INFINITY_BITS
    }

    /// Whether this is one of the two infinities.
    pub open spec fn infinite(self) -> bool {
        self.word() == INFINITY_BITS
    }

    /// Whether this stands for a real number.
    pub open spec fn finite(self) -> bool {
        self.word() < INFINITY_BITS
    }

    /// The number in units of `2^-149`; an infinity counts as `2^128`.
    pub open spec fn units(self) -> int {
        if self.negative() {
            -(magnitude(self.word()) as int)
        } else {
            magnitude(self.word()) as int
        }
    }

    /// The distance from zero in units of `2^-149`.
    pub open spec fn size(self) -> nat {
        magnitude(self.word())
    }

    /// Whether both are numbers and the first is the smaller.
    pub open spec fn is_less(self, other: Self) -> bool {
        !self.nan() && !other.nan() && self.units() < other.units()
    }

    /// Whether both are numbers and the first is not the larger.
    pub open spec fn is_at_most(self, other: Self) -> bool {
        !self.nan() && !other.nan() && self.units() <= other.units()
    }

    /// Whether both are numbers of the same value; the two zeros are equal.
    pub open spec fn is_same(self, other: Self) -> bool {
        !self.nan() && !other.nan() && self.units() == other.units()
    }

    /// The number whose word is `bits`.
    pub fn from_bits(bits: u32) -> (x: Self)
        ensures
            x.bits == bits,
    {
        Binary32 { bits }
    }

    /// The word of this number.
    pub fn to_bits(self) -> (bits: u32)
        ensures
            bits == self.bits,
    {
        self.bits
    }

    /// Whether this is not a number.
    pub fn is_nan(self) -> (b: bool)
        ensures
            b == self.nan(),
    {
        self.bits % SIGN_BIT > INFINITY_BITS
    }

    /// Whether this is neither an infinity nor not a number.
    pub fn is_finite(self) -> (b: bool)
        ensures
            b == self.finite(),
    {
        self.bits % SIGN_BIT < INFINITY_BITS
    }

    /// The position of this number among all numbers.
    fn rank(self) -> (k: i64)
        ensures
            k == if self.negative() {
                -(self.word() as int)
            } else {
                self.word() as int
            },
    {
        let word: i64 = (self.bits % SIGN_BIT) as i64;
        if self.bits >= SIGN_BIT {
            -word
        } else {
            word
        }
    }

    /// `self < other`, false where either is not a number.
    pub fn less(self, other: Self) -> (b: bool)
        ensures
            b == self.is_less(other),
    {
        proof {
            if !self.nan() && !other.nan() {
                lemma_rank_orders(self, other);
            }
        }
        !self.is_nan() && !other.is_nan() && self.rank() < other.rank()
    }

    /// `self <= other`, false where either is not a number.
    pub fn at_most(self, other: Self) -> (b: bool)
        ensures
            b == self.is_at_most(other),
    {
        proof {
            if !self.nan() && !other.nan() {
                lemma_rank_orders(self, other);
            }
        }
        !self.is_nan() && !other.is_nan() && self.rank() <= other.rank()
    }

    /// `self == other`, false where either is not a number.
    pub fn same(self, other: Self) -> (b: bool)
        ensures
            b == self.is_same(other),
    {
        proof {
            if !self.nan() && !other.nan() {
                lemma_rank_orders(self, other);
            }
        }
        !self.is_nan() && !other.is_nan() && self.rank() == other.rank()
    }
}

impl Binary32 {
    /// The larger of two numbers; one that is not a number gives way.
    pub open spec fn larger_of(self, other: Self) -> Self {
        if self.nan() {
            other
        } else if other.nan() {
            self
        } else if self.units() < other.units() {
            other
        } else {
            self
        }
    }

    /// The larger of two numbers; one that is not a number gives way.
    pub fn larger(self, other: Self) -> (x: Self)
        ensures
            x == self.larger_of(other),
    {
        if self.is_nan() {
            other
        } else if other.is_nan() {
            self
        } else if self.less(other) {
            other
        } else {
            self
        }
    }
}

impl Binary32 {
    /// The smaller of two numbers; one that is not a number gives way.
    pub open spec fn smaller_of(self, other: Self) -> Self {
        if self.nan() {
            other
        } else if other.nan() {
            self
        } else if other.units() < self.units() {
            other
        } else {
            self
        }
    }

    /// The smaller of two numbers; one that is not a number gives way.
    pub fn smaller(self, other: Self) -> (x: Self)
        ensures
            x == self.smaller_of(other),
    {
        if self.is_nan() {
            other
        } else if other.is_nan() {
            self
        } else if other.less(self) {
            other
        } else {
            self
        }
    }
}

impl PartialEq for Binary32 {
    fn eq(&self, other: &Self) -> (b: bool) {
        (*self).same(*other)
    }
}

impl vstd::std_specs::cmp::PartialEqSpecImpl for Binary32 {
    open spec fn obeys_eq_spec() -> bool {
        true
    }

    open spec fn eq_spec(&self, other: &Self) -> bool {
        self.is_same(*other)
    }
}

/// The number one is `2^149` units.
pub proof fn lemma_one_units()
    ensures
        magnitude(ONE_BITS as nat) == one_units(),
        one_units() > 0,
        magnitude(0) == 0,
{
    lemma2_to64();
    lemma_pow2_adds(23, 126);
    lemma_pow2_pos(149);
    assert(magnitude(ONE_BITS as nat) == 0x80_0000 * pow2(126));
    assert(magnitude(0) == 0 * pow2(0));
}

/// The units of two numbers are ordered as their signed words are.
pub proof fn lemma_rank_orders(a: Binary32, b: Binary32)
    requires
        !a.nan(),
        !b.nan(),
    ensures
        ({
            let ka = if a.negative() {
                -(a.word() as int)
            } else {
                a.word() as int
            };
            let kb = if b.negative() {
                -(b.word() as int)
            } else {
                b.word() as int
            };
            &&& ka < kb <==> a.units() < b.units()
            &&& ka == kb <==> a.units() == b.units()
        }),
{
    lemma_magnitude_compares(a.word(), b.word());
    lemma_magnitude_compares(0, a.word());
    lemma_magnitude_compares(0, b.word());
    assert(magnitude(0) == 0 * pow2(0));
}

/// Of two numbers the larger is one of them that neither exceeds, and the smaller
/// one that exceeds neither; what is not a number gives way to one that is.
pub proof fn law_the_larger_and_the_smaller(a: Binary32, b: Binary32)
    ensures
        a.larger_of(b) == a || a.larger_of(b) == b,
        a.smaller_of(b) == a || a.smaller_of(b) == b,
        !a.nan() ==> a.is_at_most(a.larger_of(b)) && a.smaller_of(b).is_at_most(a),
        !b.nan() ==> b.is_at_most(a.larger_of(b)) && a.smaller_of(b).is_at_most(b),
{
}

/// Numbers are ordered as what they stand for: a larger word without a sign is a
/// larger number, and with one a smaller one.
pub proof fn law_words_are_ordered_as_their_numbers(a: Binary32, b: Binary32)
    requires
        !a.nan(),
        !b.nan(),
    ensures
        !a.negative() && !b.negative() ==> (a.is_less(b) <==> a.bits < b.bits),
        a.negative() && b.negative() ==> (a.is_less(b) <==> b.bits < a.bits),
        a.negative() && !b.negative() ==> (a.is_less(b) <==> a.word() + b.word() > 0),
        !a.negative() && b.negative() ==> !a.is_less(b),
        a.is_less(b) <==> !b.is_at_most(a),
        a.is_same(b) <==> a.is_at_most(b) && b.is_at_most(a),
{
    lemma_magnitude_compares(a.word(), b.word());
    lemma_magnitude_compares(0, a.word());
    lemma_magnitude_compares(0, b.word());
    assert(magnitude(0) == 0 * pow2(0));
}

} // verus!
