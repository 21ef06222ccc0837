//! Correctly rounded square roots of single-precision words.
use crate::binary32::{
    bit_length, power_of_two, Binary32, HIDDEN_BIT, INFINITY_BITS, NAN_BITS, SIGN_BIT,
};
use vstd::arithmetic::mul::*;
use vstd::arithmetic::power2::*;
use vstd::prelude::*;

verus! {

/// Whether the sign-free word `r` is the one nearest to the square root of
/// `square`, in units of `2^-149`, ties going to the even word.
pub open spec fn is_nearest_root(square: nat, r: nat) -> bool {
    &&& r <= INFINITY_BITS
    &&& r < INFINITY_BITS ==> {
        let upper = crate::binary32::magnitude(r) + crate::binary32::magnitude(r + 1);
        4 * square < upper * upper || (4 * square == upper * upper && r % 2 == 0)
    }
    &&& r > 0 ==> {
        let lower = crate::binary32::magnitude((r - 1) as nat) + crate::binary32::magnitude(r);
        4 * square > lower * lower || (4 * square == lower * lower && r % 2 == 0)
    }
}

/// The sign-free word nearest to the square root of `square`.
pub open spec fn nearest_root(square: nat) -> u32 {
    choose|r: u32| is_nearest_root(square, r as nat)
}

/// At most one word is nearest to a given root.
pub proof fn lemma_nearest_root_unique(square: nat, r: nat, q: nat)
    requires
        is_nearest_root(square, r),
        is_nearest_root(square, q),
    ensures
        r == q,
{
    lemma_nearest_root_order(square, r, q);
    lemma_nearest_root_order(square, q, r);
}

proof fn lemma_nearest_root_order(square: nat, r: nat, q: nat)
    requires
        is_nearest_root(square, r),
        is_nearest_root(square, q),
    ensures
        q <= r,
{
    if r + 1 < q {
        let q1 = (q - 1) as nat;
        let upper = crate::binary32::magnitude(r) + crate::binary32::magnitude(r + 1);
        let lower = crate::binary32::magnitude(q1) + crate::binary32::magnitude(q);
        crate::binary32::lemma_magnitude_order(r, q1);
        crate::binary32::lemma_magnitude_order(r + 1, q);
        assert(upper * upper < lower * lower) by (nonlinear_arith)
            requires
                0 <= upper < lower,
        ;
    }
}

proof fn lemma_root_from_floor(square: nat, f: nat, r: nat)
    requires
        f < INFINITY_BITS,
        ({
            let a = crate::binary32::magnitude(f);
            let b = crate::binary32::magnitude(f + 1);
            let mid = a + b;
            &&& a * a <= square < b * b
            &&& {
                ||| r == f && 4 * square < mid * mid
                ||| r == f + 1 && 4 * square > mid * mid
                ||| r == f && 4 * square == mid * mid && f % 2 == 0
                ||| r == f + 1 && 4 * square == mid * mid && f % 2 == 1
            }
        }),
    ensures
        is_nearest_root(square, r),
{
    let a = crate::binary32::magnitude(f);
    let b = crate::binary32::magnitude(f + 1);
    if r == f {
        if r > 0 {
            let below = crate::binary32::magnitude((f - 1) as nat);
            crate::binary32::lemma_magnitude_order((f - 1) as nat, f);
            assert((below + a) * (below + a) < 4 * (a * a)) by (nonlinear_arith)
                requires
                    0 <= below < a,
            ;
        }
    } else if r < INFINITY_BITS {
        let above = crate::binary32::magnitude(r + 1);
        crate::binary32::lemma_magnitude_order(r, r + 1);
        assert(4 * (b * b) < (b + above) * (b + above)) by (nonlinear_arith)
            requires
                0 <= b < above,
        ;
    }
}

/// The largest whole number whose square is at most `n`.
fn integer_root(n: u64) -> (q: u64)
    requires
        n < 0x10_0000_0000_0000,
    ensures
        q * q <= n < (q + 1) * (q + 1),
        q < 0x400_0000,
{
    let mut lo: u64 = 0;
    let mut hi: u64 = 0x400_0000;
    while hi - lo > 1
        invariant
            lo < hi <= 0x400_0000,
            lo * lo <= n < hi * hi,
        decreases hi - lo,
    {
        let mid: u64 = lo + (hi - lo) / 2;
        proof {
            assert(mid * mid < 0x10_0000_0000_0000) by (nonlinear_arith)
                requires
                    0 <= mid < 0x400_0000,
            ;
        }
        if mid * mid <= n {
            lo = mid;
        } else {
            hi = mid;
        }
    }
    lo
}

/// Rounding the root of `n * 4^s`, given its whole part `q` at `2^s`.
proof fn lemma_root_rounds(n: nat, q: nat, s: nat, r: nat)
    requires
        q * q <= n < (q + 1) * (q + 1),
        0x200_0000 <= q < 0x400_0000,
        s + 2 <= 253,
        ({
            let f = (s + 2) * 0x80_0000 + q / 4;
            let rem = q % 4;
            r == if rem > 2 || (rem == 2 && (q * q != n || f % 2 == 1)) {
                f + 1
            } else {
                f
            }
        }),
    ensures
        is_nearest_root(n * (pow2(s) * pow2(s)), r),
{
    let f = (s + 2) * 0x80_0000 + q / 4;
    let sig = q / 4;
    let rem = q % 4;
    let z = pow2(s);
    let square = n * (z * z);
    crate::binary32::lemma_pack(sig, s + 2);
    crate::binary32::lemma_magnitude_step(f);
    lemma2_to64();
    lemma_pow2_adds(2, s);
    lemma_pow2_pos(s);
    let a = crate::binary32::magnitude(f);
    let b = crate::binary32::magnitude(f + 1);
    assert(a == (4 * sig) * z) by (nonlinear_arith)
        requires
            a == sig * (4 * z),
    ;
    assert(b == (4 * sig + 4) * z) by (nonlinear_arith)
        requires
            b == sig * (4 * z) + 4 * z,
    ;
    let c = 4 * sig;
    assert(q == c + rem);
    assert(a * a <= square) by (nonlinear_arith)
        requires
            a == c * z,
            square == n * (z * z),
            q * q <= n,
            0 <= c <= q,
    ;
    assert(square < b * b) by (nonlinear_arith)
        requires
            b == (c + 4) * z,
            square == n * (z * z),
            n < (q + 1) * (q + 1),
            0 <= q + 1 <= c + 4,
            z > 0,
    ;
    let mid = a + b;
    assert(mid * mid == 4 * (((c + 2) * (c + 2)) * (z * z))) by (nonlinear_arith)
        requires
            mid == a + b,
            a == c * z,
            b == (c + 4) * z,
    ;
    let half = (c + 2) * (c + 2);
    let zz = z * z;
    assert(zz > 0) by (nonlinear_arith)
        requires
            z > 0,
            zz == z * z,
    ;
    if rem > 2 || (rem == 2 && q * q != n) {
        assert(n > half) by (nonlinear_arith)
            requires
                half == (c + 2) * (c + 2),
                q * q <= n,
                q >= c + 3 || (q == c + 2 && q * q != n),
                c >= 0,
        ;
        assert(n * zz > half * zz) by (nonlinear_arith)
            requires
                n > half,
                zz > 0,
        ;
    } else if rem == 2 {
        assert(n == half);
    } else {
        assert(n < half) by (nonlinear_arith)
            requires
                half == (c + 2) * (c + 2),
                n < (q + 1) * (q + 1),
                0 <= q + 1 <= c + 2,
        ;
        assert(n * zz < half * zz) by (nonlinear_arith)
            requires
                n < half,
                zz > 0,
        ;
    }
    lemma_root_from_floor(square, f, r);
}

impl Binary32 {
    /// The word of the square root of `self`.
    #[verifier::opaque]
    pub open spec fn root_bits(self) -> u32 {
        if self.nan() {
            NAN_BITS
        } else if self.word() == 0 {
            self.bits
        } else if self.negative() {
            NAN_BITS
        } else if self.infinite() {
            self.bits
        } else {
            nearest_root(self.size() * pow2(149))
        }
    }

    /// The square root of `self`.
    pub fn square_root(self) -> (x: Self)
        ensures
            x.bits == self.root_bits(),
    {
        proof {
            reveal(Binary32::root_bits);
        }
        if self.is_nan() {
            return Binary32::from_bits(NAN_BITS);
        }
        let word: u32 = self.bits % SIGN_BIT;
        if word == 0 {
            return self;
        }
        if self.bits >= SIGN_BIT {
            return Binary32::from_bits(NAN_BITS);
        }
        if word == INFINITY_BITS {
            return self;
        }
        let (sa, pa) = self.parts();
        let len: u32 = bit_length(sa);
        proof {
            lemma2_to64();
            if len > 24 {
                if len > 25 {
                    lemma_pow2_strictly_increases(24, (len - 1) as nat);
                }
            }
        }
        let e: u32 = pa as u32 + 149;
        let k: u32 = if (e + 51 - len) % 2 == 0 {
            51 - len
        } else {
            52 - len
        };
        let z: u64 = power_of_two(k);
        proof {
            lemma_scaled_radicand(sa as nat, len as nat, k as nat);
        }
        let n: u64 = sa * z;
        let q: u64 = integer_root(n);
        let s: u32 = (e - k) / 2;
        proof {
            assert(0x200_0000 <= q) by (nonlinear_arith)
                requires
                    n >= 0x4_0000_0000_0000,
                    n < (q + 1) * (q + 1),
            ;
        }
        let f: u32 = (s + 2) * HIDDEN_BIT + (q / 4) as u32;
        let rem: u64 = q % 4;
        let up: bool = rem > 2 || (rem == 2 && (q * q != n || f % 2 == 1));
        let r: u32 = if up {
            f + 1
        } else {
            f
        };
        proof {
            lemma_root_rounds(n as nat, q as nat, s as nat, r as nat);
            lemma_radicand_value(sa as nat, pa as nat, k as nat, s as nat);
            lemma_nearest_root_unique(
                self.size() * pow2(149),
                r as nat,
                nearest_root(self.size() * pow2(149)) as nat,
            );
        }
        Binary32::from_bits(r)
    }
}

proof fn lemma_scaled_radicand(sa: nat, len: nat, k: nat)
    requires
        1 <= len <= 24,
        pow2((len - 1) as nat) <= sa < pow2(len),
        k == 51 - len || k == 52 - len,
    ensures
        0x4_0000_0000_0000 <= sa * pow2(k) < 0x10_0000_0000_0000,
{
    let z = pow2(k);
    lemma2_to64();
    lemma2_to64_rest();
    lemma_pow2_pos(k);
    lemma_pow2_adds(len, k);
    lemma_pow2_adds((len - 1) as nat, k);
    assert(sa * z < pow2(len) * z) by (nonlinear_arith)
        requires
            sa < pow2(len),
            z > 0,
    ;
    assert(sa * z >= pow2((len - 1) as nat) * z) by (nonlinear_arith)
        requires
            sa >= pow2((len - 1) as nat),
    ;
}

proof fn lemma_radicand_value(sa: nat, pa: nat, k: nat, s: nat)
    requires
        pa + 149 == k + 2 * s,
    ensures
        (sa * pow2(pa)) * pow2(149) == (sa * pow2(k)) * (pow2(s) * pow2(s)),
{
    lemma_pow2_adds(pa, 149);
    lemma_pow2_adds(s, s);
    lemma_pow2_adds(k, s + s);
    let (a, b, c, d) = (pow2(pa), pow2(149), pow2(k), pow2(s) * pow2(s));
    assert((sa * a) * b == sa * (a * b)) by (nonlinear_arith);
    assert((sa * c) * d == sa * (c * d)) by (nonlinear_arith);
}

proof fn lemma_root_floor_exists(square: nat, above: nat) -> (f: nat)
    requires
        above <= INFINITY_BITS,
        square < crate::binary32::magnitude(above) * crate::binary32::magnitude(above),
    ensures
        f < above,
        crate::binary32::magnitude(f) * crate::binary32::magnitude(f) <= square,
        square < crate::binary32::magnitude(f + 1) * crate::binary32::magnitude(f + 1),
    decreases above,
{
    if above == 0 {
        let none = crate::binary32::magnitude(0);
        assert(none == 0 * pow2(0));
        assert(none * none == 0) by (nonlinear_arith)
            requires
                none == 0,
        ;
        0
    } else {
        let below = (above - 1) as nat;
        if crate::binary32::magnitude(below) * crate::binary32::magnitude(below) <= square {
            below
        } else {
            lemma_root_floor_exists(square, below)
        }
    }
}

/// The root of a finite number is finite.
proof fn lemma_root_is_finite(a: Binary32)
    requires
        a.finite(),
    ensures
        is_nearest_root(a.size() * pow2(149), nearest_root(a.size() * pow2(149)) as nat),
        nearest_root(a.size() * pow2(149)) < INFINITY_BITS,
{
    let square = a.size() * pow2(149);
    let top = (INFINITY_BITS - 1) as nat;
    let m = crate::binary32::magnitude(top);
    if a.word() < top {
        crate::binary32::lemma_magnitude_order(a.word(), top);
    }
    let (s, p) = (crate::binary32::significand(top), crate::binary32::scale_exponent(top));
    assert(p == 253 && s > 1);
    let z = pow2(149);
    lemma_pow2_strictly_increases(149, 253);
    lemma_pow2_pos(149);
    assert(s * pow2(253) > pow2(253)) by (nonlinear_arith)
        requires
            s > 1,
            pow2(253) > 0,
    ;
    let x = a.size();
    assert(x * z < m * m) by (nonlinear_arith)
        requires
            x <= m,
            0 < z < m,
    ;
    let f = lemma_root_floor_exists(square, top);
    let low = crate::binary32::magnitude(f);
    let high = crate::binary32::magnitude(f + 1);
    let mid = (low + high) * (low + high);
    let r = if 4 * square > mid || (4 * square == mid && f % 2 == 1) {
        f + 1
    } else {
        f
    };
    lemma_root_from_floor(square, f, r);
    assert(is_nearest_root(square, (r as u32) as nat));
    lemma_nearest_root_unique(square, r, nearest_root(square) as nat);
}

/// A square root is rounded to nothing that another number is nearer to than it
/// is: the root lies on this side of the midpoint to any other number. The sides
/// are compared by their squares.
pub proof fn law_a_root_is_rounded_to_the_nearest(a: Binary32, w: Binary32)
    requires
        a.finite(),
        !a.negative(),
        w.finite(),
        !w.negative(),
    ensures
        ({
            let s = Binary32 { bits: a.root_bits() };
            let mid = s.units() + w.units();
            &&& s.finite() && !s.negative()
            &&& s.units() < w.units() ==> 4 * (a.units() * pow2(149)) <= mid * mid
            &&& w.units() < s.units() ==> mid * mid <= 4 * (a.units() * pow2(149))
        }),
{
    reveal(Binary32::root_bits);
    assert(crate::binary32::magnitude(0) == 0 * pow2(0));
    if a.word() == 0 {
        assert(0 * pow2(149) == 0);
        let u = w.units();
        assert((0 + u) * (0 + u) >= 0) by (nonlinear_arith);
    } else {
        let square = a.size() * pow2(149);
        lemma_root_is_finite(a);
        let r = nearest_root(square) as nat;
        let s = Binary32 { bits: a.root_bits() };
        assert(s.word() == r);
        crate::binary32::lemma_magnitude_compares(r, w.word());
        let m = s.units();
        let u = w.units();
        if r < w.word() {
            let next = crate::binary32::magnitude(r + 1) as int;
            crate::binary32::lemma_magnitude_compares(r + 1, w.word());
            assert((m + next) * (m + next) <= (m + u) * (m + u)) by (nonlinear_arith)
                requires
                    0 <= m,
                    0 <= next <= u,
            ;
        } else if w.word() < r {
            let last = crate::binary32::magnitude((r - 1) as nat) as int;
            crate::binary32::lemma_magnitude_compares(w.word(), (r - 1) as nat);
            assert((m + u) * (m + u) <= (last + m) * (last + m)) by (nonlinear_arith)
                requires
                    0 <= m,
                    0 <= u <= last,
            ;
        }
    }
}

} // verus!
