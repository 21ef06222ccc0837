//! Correctly rounded arithmetic on single-precision words.
use crate::binary32::{
    bit_length, power_of_two, round_scaled, Binary32, HIDDEN_BIT, INFINITY_BITS, NAN_BITS, SIGN_BIT,
};
use vstd::arithmetic::mul::*;
use vstd::arithmetic::power2::*;
use vstd::prelude::*;

verus! {

/// The word nearest to a signed whole number of units over `den`.
pub open spec fn signed_nearest(negative: bool, num: nat, den: nat) -> u32 {
    let r = crate::binary32::nearest(num, den);
    if negative {
        (r + SIGN_BIT) as u32
    } else {
        r
    }
}

/// The zero with the given sign.
pub open spec fn signed_zero(negative: bool) -> u32 {
    if negative {
        SIGN_BIT
    } else {
        0
    }
}

/// The infinity with the given sign.
pub open spec fn signed_infinity(negative: bool) -> u32 {
    if negative {
        (SIGN_BIT + INFINITY_BITS) as u32
    } else {
        INFINITY_BITS
    }
}

impl Binary32 {
    /// The word of `count` as a number.
    pub open spec fn count_bits(count: nat) -> u32 {
        crate::binary32::nearest(count * pow2(149), 1)
    }

    /// The word of `self + other`.
    #[verifier::opaque]
    pub open spec fn sum_bits(self, other: Self) -> u32 {
        if self.nan() || other.nan() {
            NAN_BITS
        } else if self.infinite() && other.infinite() {
            if self.negative() == other.negative() {
                self.bits
            } else {
                NAN_BITS
            }
        } else if self.infinite() {
            self.bits
        } else if other.infinite() {
            other.bits
        } else {
            let v = self.units() + other.units();
            if v > 0 {
                signed_nearest(false, v as nat, 1)
            } else if v < 0 {
                signed_nearest(true, (-v) as nat, 1)
            } else {
                signed_zero(self.negative() && other.negative())
            }
        }
    }

    /// The word of `-self`.
    pub open spec fn negated_bits(self) -> u32 {
        if self.negative() {
            (self.bits - SIGN_BIT) as u32
        } else {
            (self.bits + SIGN_BIT) as u32
        }
    }

    /// The word of `self - other`.
    pub open spec fn difference_bits(self, other: Self) -> u32 {
        self.sum_bits((Binary32 { bits: other.negated_bits() }))
    }

    /// The word of `self * other`.
    #[verifier::opaque]
    pub open spec fn product_bits(self, other: Self) -> u32 {
        let negative = self.negative() != other.negative();
        if self.nan() || other.nan() {
            NAN_BITS
        } else if self.infinite() || other.infinite() {
            if self.word() == 0 || other.word() == 0 {
                NAN_BITS
            } else {
                signed_infinity(negative)
            }
        } else {
            signed_nearest(negative, self.size() * other.size(), pow2(149))
        }
    }

    /// The word of `self / other`.
    #[verifier::opaque]
    pub open spec fn quotient_bits(self, other: Self) -> u32 {
        let negative = self.negative() != other.negative();
        if self.nan() || other.nan() {
            NAN_BITS
        } else if self.infinite() {
            if other.infinite() {
                NAN_BITS
            } else {
                signed_infinity(negative)
            }
        } else if other.infinite() {
            signed_zero(negative)
        } else if other.word() == 0 {
            if self.word() == 0 {
                NAN_BITS
            } else {
                signed_infinity(negative)
            }
        } else {
            signed_nearest(negative, self.size() * pow2(149), other.size())
        }
    }

    /// The word of `count / total`, each count taken as a number first.
    pub open spec fn ratio_bits(count: nat, total: nat) -> u32 {
        (Binary32 { bits: Self::count_bits(count) }).quotient_bits(
            (Binary32 { bits: Self::count_bits(total) }),
        )
    }

    /// The significand and the exponent of a finite number.
    pub(crate) fn parts(self) -> (parts: (u64, i32))
        requires
            self.finite(),
        ensures
            self.size() == parts.0 * pow2(parts.1 as nat),
            parts.0 < 0x100_0000,
            0 <= parts.1 <= 253,
            parts.1 > 0 ==> parts.0 >= 0x80_0000,
            parts.0 == 0 <==> self.word() == 0,
            parts.0 == crate::binary32::significand(self.word()),
            parts.1 == crate::binary32::scale_exponent(self.word()),
    {
        let word: u32 = self.bits % SIGN_BIT;
        let e: u32 = word / HIDDEN_BIT;
        if e == 0 {
            (word as u64, 0)
        } else {
            ((word % HIDDEN_BIT + HIDDEN_BIT) as u64, e as i32 - 1)
        }
    }

    /// `count` as a number.
    pub fn from_count(count: u64) -> (x: Self)
        ensures
            x.bits == Self::count_bits(count as nat),
            !x.negative(),
            x.finite(),
            x.word() == 0 <==> count == 0,
    {
        proof {
            lemma_mul_basics(pow2(149) as int);
            lemma_mul_basics(count as int);
            lemma_mul_basics(count * pow2(149));
            lemma_pow2_pos(149);
        }
        if count == 0 {
            proof {
                lemma_zero_is_nearest(1);
            }
            return Binary32 { bits: 0 };
        }
        let ghost num = count as nat * pow2(149);
        let r: u32 = if count >= 0x4000_0000_0000_0000 {
            proof {
                lemma2_to64();
                lemma_pow2_adds(2, 149);
                let q = count as nat / 4;
                let m = count as nat % 4;
                let z = pow2(149);
                assert(q * (4 * z) + m * z == (4 * q + m) * z) by (nonlinear_arith);
                assert(m > 0 ==> m * z > 0) by (nonlinear_arith)
                    requires
                        z > 0,
                ;
                assert(m < 4 ==> m * z < 4 * z) by (nonlinear_arith)
                    requires
                        z > 0,
                ;
                lemma_mul_basics((q * (4 * z)) as int);
                lemma_mul_basics((4 * z) as int);
            }
            round_scaled(count / 4, count % 4 != 0, 151, Ghost(num), Ghost(1))
        } else {
            round_scaled(count, false, 149, Ghost(num), Ghost(1))
        };
        proof {
            lemma_count_word(count as nat, r as nat);
        }
        Binary32 { bits: r }
    }

    /// The word of a rounded magnitude with a sign put on it.
    fn with_sign(negative: bool, r: u32, Ghost(num): Ghost<nat>, Ghost(den): Ghost<nat>) -> (bits:
        u32)
        requires
            r <= INFINITY_BITS,
            r == crate::binary32::nearest(num, den),
        ensures
            bits == signed_nearest(negative, num, den),
    {
        if negative {
            r + SIGN_BIT
        } else {
            r
        }
    }

    /// `-self`.
    pub fn negated(self) -> (x: Self)
        ensures
            x.bits == self.negated_bits(),
    {
        if self.bits >= SIGN_BIT {
            Binary32 { bits: self.bits - SIGN_BIT }
        } else {
            Binary32 { bits: self.bits + SIGN_BIT }
        }
    }

    /// `self + other`.
    pub fn plus(self, other: Self) -> (x: Self)
        ensures
            x.bits == self.sum_bits(other),
    {
        proof {
            reveal(Binary32::sum_bits);
        }
        if self.is_nan() || other.is_nan() {
            return Binary32 { bits: NAN_BITS };
        }
        let a: u32 = self.bits % SIGN_BIT;
        let b: u32 = other.bits % SIGN_BIT;
        let na: bool = self.bits >= SIGN_BIT;
        let nb: bool = other.bits >= SIGN_BIT;
        if a == INFINITY_BITS {
            if b == INFINITY_BITS && na != nb {
                return Binary32 { bits: NAN_BITS };
            }
            return self;
        }
        if b == INFINITY_BITS {
            return other;
        }
        proof {
            crate::binary32::lemma_magnitude_compares(a as nat, b as nat);
            crate::binary32::lemma_magnitude_compares(0, a as nat);
            crate::binary32::lemma_magnitude_compares(0, b as nat);
            assert(crate::binary32::magnitude(0) == 0 * pow2(0));
        }
        if na == nb {
            if a == 0 && b == 0 {
                proof {
                    assert(self.units() + other.units() == 0);
                    assert(self.bits == signed_zero(na));
                }
                return self;
            }
            let ghost num = self.size() + other.size();
            let r: u32 = if a < b {
                Self::add_sizes(other, self)
            } else {
                Self::add_sizes(self, other)
            };
            Binary32 { bits: Self::with_sign(na, r, Ghost(num), Ghost(1)) }
        } else if a == b {
            Binary32 { bits: 0 }
        } else if b < a {
            let r: u32 = Self::sub_sizes(self, other);
            let ghost num = (self.size() - other.size()) as nat;
            Binary32 { bits: Self::with_sign(na, r, Ghost(num), Ghost(1)) }
        } else {
            let r: u32 = Self::sub_sizes(other, self);
            let ghost num = (other.size() - self.size()) as nat;
            Binary32 { bits: Self::with_sign(nb, r, Ghost(num), Ghost(1)) }
        }
    }

    /// `self - other`.
    pub fn minus(self, other: Self) -> (x: Self)
        ensures
            x.bits == self.difference_bits(other),
    {
        self.plus(other.negated())
    }

    /// `self * other`.
    pub fn times(self, other: Self) -> (x: Self)
        ensures
            x.bits == self.product_bits(other),
    {
        proof {
            reveal(Binary32::product_bits);
        }
        if self.is_nan() || other.is_nan() {
            return Binary32 { bits: NAN_BITS };
        }
        let a: u32 = self.bits % SIGN_BIT;
        let b: u32 = other.bits % SIGN_BIT;
        let negative: bool = (self.bits >= SIGN_BIT) != (other.bits >= SIGN_BIT);
        if a == INFINITY_BITS || b == INFINITY_BITS {
            if a == 0 || b == 0 {
                return Binary32 { bits: NAN_BITS };
            }
            return Binary32 {
                bits: if negative {
                    SIGN_BIT + INFINITY_BITS
                } else {
                    INFINITY_BITS
                },
            };
        }
        let (sa, pa) = self.parts();
        let (sb, pb) = other.parts();
        let ghost num = self.size() * other.size();
        proof {
            lemma_product(sa as nat, pa as nat, sb as nat, pb as nat);
            lemma_pow2_pos(149);
        }
        let q: u64 = sa * sb;
        let r: u32 = if q == 0 {
            proof {
                lemma_zero_is_nearest(pow2(149));
            }
            0
        } else {
            round_scaled(q, false, pa + pb - 149, Ghost(num), Ghost(pow2(149)))
        };
        proof {
            crate::binary32::lemma_nearest_exists(num, pow2(149));
        }
        Binary32 { bits: Self::with_sign(negative, r, Ghost(num), Ghost(pow2(149))) }
    }

    /// `self / other`.
    pub fn over(self, other: Self) -> (x: Self)
        ensures
            x.bits == self.quotient_bits(other),
    {
        proof {
            reveal(Binary32::quotient_bits);
        }
        if self.is_nan() || other.is_nan() {
            return Binary32 { bits: NAN_BITS };
        }
        let a: u32 = self.bits % SIGN_BIT;
        let b: u32 = other.bits % SIGN_BIT;
        let negative: bool = (self.bits >= SIGN_BIT) != (other.bits >= SIGN_BIT);
        let infinity: u32 = if negative {
            SIGN_BIT + INFINITY_BITS
        } else {
            INFINITY_BITS
        };
        if a == INFINITY_BITS {
            if b == INFINITY_BITS {
                return Binary32 { bits: NAN_BITS };
            }
            return Binary32 { bits: infinity };
        }
        if b == INFINITY_BITS {
            return Binary32 {
                bits: if negative {
                    SIGN_BIT
                } else {
                    0
                },
            };
        }
        if b == 0 {
            if a == 0 {
                return Binary32 { bits: NAN_BITS };
            }
            return Binary32 { bits: infinity };
        }
        let (sa, pa) = self.parts();
        let (sb, pb) = other.parts();
        let ghost num = self.size() * pow2(149);
        let ghost den = other.size();
        proof {
            lemma_pow2_pos(pb as nat);
            lemma_mul_strictly_positive(sb as int, pow2(pb as nat) as int);
        }
        let r: u32 = if sa == 0 {
            proof {
                lemma_mul_basics(pow2(pa as nat) as int);
                lemma_mul_basics(pow2(149) as int);
                lemma_zero_is_nearest(den);
            }
            0
        } else {
            let len: u32 = bit_length(sa);
            proof {
                lemma2_to64();
                if len > 24 {
                    if len > 25 {
                        lemma_pow2_strictly_increases(24, (len - 1) as nat);
                    }
                }
            }
            let k: u32 = 51 - len;
            let z: u64 = power_of_two(k);
            proof {
                lemma_long_dividend(sa as nat, len as nat, sb as nat);
            }
            let n: u64 = sa * z;
            let q: u64 = n / sb;
            let rem: u64 = n % sb;
            let s: i32 = pa - pb + 149 - k as i32;
            proof {
                lemma_quotient(
                    sa as nat,
                    pa as nat,
                    sb as nat,
                    pb as nat,
                    k as nat,
                    q as nat,
                    rem as nat,
                    s as int,
                );
            }
            round_scaled(q, rem != 0, s, Ghost(num), Ghost(den))
        };
        proof {
            crate::binary32::lemma_nearest_exists(num, den);
        }
        Binary32 { bits: Self::with_sign(negative, r, Ghost(num), Ghost(den)) }
    }

    /// The whole part of this number as a machine word: zero where it is
    /// negative or not a number, the largest word where it is too large.
    pub open spec fn whole_part(self) -> u64 {
        if self.nan() || self.negative() {
            0
        } else if self.infinite() || self.size() / pow2(149) > u64::MAX {
            u64::MAX
        } else {
            (self.size() / pow2(149)) as u64
        }
    }

    /// The whole part of this number as a machine word.
    pub fn to_whole(self) -> (w: u64)
        ensures
            w == self.whole_part(),
    {
        if self.is_nan() || self.bits >= SIGN_BIT {
            return 0;
        }
        if self.bits % SIGN_BIT == INFINITY_BITS {
            return u64::MAX;
        }
        let (s, p) = self.parts();
        if p >= 149 {
            let up: u32 = (p - 149) as u32;
            proof {
                lemma_whole_shift_up(s as nat, up as nat);
            }
            if up > 40 {
                return u64::MAX;
            }
            s * power_of_two(up)
        } else {
            let down: u32 = (149 - p) as u32;
            proof {
                lemma_whole_shift_down(s as nat, p as nat, down as nat);
            }
            if down > 24 {
                return 0;
            }
            s / power_of_two(down)
        }
    }

    /// This number without its sign.
    pub open spec fn absolute(self) -> Self {
        Binary32 { bits: self.word() as u32 }
    }

    /// This number without its sign.
    pub fn abs(self) -> (x: Self)
        ensures
            x == self.absolute(),
    {
        Binary32 { bits: self.bits % SIGN_BIT }
    }

    /// `count / total`, each count taken as a number first.
    pub fn ratio(count: u64, total: u64) -> (x: Self)
        ensures
            x.bits == Self::ratio_bits(count as nat, total as nat),
    {
        Self::from_count(count).over(Self::from_count(total))
    }

    /// The word nearest to `size(hi) + size(lo)` units.
    fn add_sizes(hi: Self, lo: Self) -> (r: u32)
        requires
            hi.finite(),
            lo.finite(),
            lo.word() <= hi.word(),
        ensures
            r == crate::binary32::nearest(hi.size() + lo.size(), 1),
            r <= INFINITY_BITS,
    {
        let (sa, pa) = hi.parts();
        let (sb, pb) = lo.parts();
        proof {
            lemma_scales_ordered(lo.word(), hi.word());
        }
        let ghost num = hi.size() + lo.size();
        let gap: i32 = pa - pb;
        if gap > 38 {
            proof {
                lemma_far_apart(sa as nat, pa as nat, sb as nat, pb as nat);
            }
            round_scaled(sa * 8, sb > 0, pa - 3, Ghost(num), Ghost(1))
        } else {
            let z: u64 = power_of_two(gap as u32);
            proof {
                lemma_aligned(sa as nat, pa as nat, sb as nat, pb as nat);
            }
            let q: u64 = sa * z + sb;
            if q == 0 {
                proof {
                    lemma_zero_is_nearest(1);
                    lemma_mul_basics(pow2(pb as nat) as int);
                }
                return 0;
            }
            round_scaled(q, false, pb, Ghost(num), Ghost(1))
        }
    }

    /// The word nearest to `size(hi) - size(lo)` units.
    fn sub_sizes(hi: Self, lo: Self) -> (r: u32)
        requires
            hi.finite(),
            lo.finite(),
            lo.word() < hi.word(),
        ensures
            hi.size() > lo.size(),
            r == crate::binary32::nearest((hi.size() - lo.size()) as nat, 1),
            r <= INFINITY_BITS,
    {
        let (sa, pa) = hi.parts();
        let (sb, pb) = lo.parts();
        proof {
            lemma_scales_ordered(lo.word(), hi.word());
            crate::binary32::lemma_magnitude_order(lo.word(), hi.word());
        }
        let ghost num = (hi.size() - lo.size()) as nat;
        let gap: i32 = pa - pb;
        if gap > 38 {
            proof {
                lemma_far_apart(sa as nat, pa as nat, sb as nat, pb as nat);
            }
            if sb == 0 {
                round_scaled(sa * 8, false, pa - 3, Ghost(num), Ghost(1))
            } else {
                round_scaled(sa * 8 - 1, true, pa - 3, Ghost(num), Ghost(1))
            }
        } else {
            let z: u64 = power_of_two(gap as u32);
            proof {
                lemma_aligned(sa as nat, pa as nat, sb as nat, pb as nat);
            }
            let q: u64 = sa * z - sb;
            round_scaled(q, false, pb, Ghost(num), Ghost(1))
        }
    }
}

proof fn lemma_whole_shift_up(s: nat, up: nat)
    requires
        0x80_0000 <= s < 0x100_0000,
    ensures
        (s * pow2(149 + up)) / pow2(149) == s * pow2(up),
        up > 40 ==> s * pow2(up) > u64::MAX,
        up <= 40 ==> s * pow2(up) <= u64::MAX,
{
    let one = pow2(149);
    let z = pow2(up);
    lemma_pow2_pos(149);
    lemma_pow2_adds(149, up);
    assert(s * (one * z) == (s * z) * one) by (nonlinear_arith);
    vstd::arithmetic::div_mod::lemma_div_by_multiple((s * z) as int, one as int);
    lemma2_to64();
    lemma2_to64_rest();
    lemma_pow2_adds(24, 40);
    lemma_pow2_adds(23, 41);
    if up > 40 {
        if up > 41 {
            lemma_pow2_strictly_increases(41, up);
        }
        assert(s * z >= 0x80_0000 * pow2(41)) by (nonlinear_arith)
            requires
                s >= 0x80_0000,
                z >= pow2(41),
        ;
    } else {
        if up < 40 {
            lemma_pow2_strictly_increases(up, 40);
        }
        assert(s * z <= 0xFF_FFFF * pow2(40)) by (nonlinear_arith)
            requires
                s <= 0xFF_FFFF,
                0 <= z <= pow2(40),
        ;
    }
}

proof fn lemma_whole_shift_down(s: nat, p: nat, down: nat)
    requires
        s < 0x100_0000,
        p + down == 149,
    ensures
        (s * pow2(p)) / pow2(149) == s / pow2(down),
        down > 24 ==> s / pow2(down) == 0,
        s / pow2(down) <= s,
{
    let z = pow2(p);
    let w = pow2(down);
    lemma_pow2_pos(p);
    lemma_pow2_pos(down);
    lemma_pow2_adds(p, down);
    lemma_mul_is_commutative(s as int, z as int);
    vstd::arithmetic::div_mod::lemma_div_multiples_vanish_quotient(z as int, s as int, w as int);
    lemma2_to64();
    if down > 24 {
        lemma_pow2_strictly_increases(24, down);
        vstd::arithmetic::div_mod::lemma_basic_div(s as int, w as int);
    }
    vstd::arithmetic::div_mod::lemma_div_nonincreasing(s as int, w as int);
}

/// A larger word scales by no smaller a power.
proof fn lemma_scales_ordered(a: nat, b: nat)
    requires
        a <= b,
    ensures
        crate::binary32::scale_exponent(a) <= crate::binary32::scale_exponent(b),
{
    assert(a / 0x80_0000 <= b / 0x80_0000);
}

/// Two numbers more than 38 binary places apart: the smaller lies inside one
/// step of the larger taken with three more places.
proof fn lemma_far_apart(sa: nat, pa: nat, sb: nat, pb: nat)
    requires
        pa > pb + 38,
        0x80_0000 <= sa < 0x100_0000,
        sb < 0x100_0000,
    ensures
        sa * pow2(pa) == (sa * 8) * pow2((pa - 3) as nat),
        sb * pow2(pb) < pow2((pa - 3) as nat),
        sb > 0 ==> sb * pow2(pb) > 0,
        sb == 0 ==> sb * pow2(pb) == 0,
        sb > 0 ==> (sa * 8 - 1) * pow2((pa - 3) as nat) == sa * pow2(pa) - pow2((pa - 3) as nat),
        forall|x: nat| #[trigger] crate::binary32::brackets(x, 1, sa * 8, true, pa - 3) == (sa
            * pow2(pa) < x < sa * pow2(pa) + pow2((pa - 3) as nat)),
        forall|x: nat| #[trigger] crate::binary32::brackets(x, 1, sa * 8, false, pa - 3) == (sa
            * pow2(pa) == x),
        forall|x: nat| #[trigger]
            crate::binary32::brackets(x, 1, (sa * 8 - 1) as nat, true, pa - 3) == (sa * pow2(pa)
                - pow2((pa - 3) as nat) < x < sa * pow2(pa)),
{
    let w = pow2((pa - 3) as nat);
    lemma2_to64();
    lemma_pow2_adds(3, (pa - 3) as nat);
    assert(sa * (8 * w) == (sa * 8) * w) by (nonlinear_arith);
    lemma_pow2_pos(pb);
    lemma_pow2_adds(24, pb);
    lemma_pow2_strictly_increases(24 + pb, (pa - 3) as nat);
    let z = pow2(pb);
    assert(sb * z <= 0x100_0000 * z) by (nonlinear_arith)
        requires
            sb <= 0x100_0000,
    ;
    assert(sb > 0 ==> sb * z > 0) by (nonlinear_arith)
        requires
            z > 0,
    ;
    assert((sa * 8 - 1) * w == (sa * 8) * w - w) by (nonlinear_arith);
    lemma_mul_basics(((sa * 8) * w) as int);
    lemma_mul_basics((sa * 8 - 1) * w);
    lemma_mul_basics(w as int);
    assert forall|x: nat| true implies #[trigger] (x * 1) == x by {
        lemma_mul_basics(x as int);
    }
}

/// Two numbers at most 38 binary places apart, at the scale of the smaller.
proof fn lemma_aligned(sa: nat, pa: nat, sb: nat, pb: nat)
    requires
        pb <= pa <= pb + 38,
        sa < 0x100_0000,
        sb < 0x100_0000,
    ensures
        sa * pow2((pa - pb) as nat) < 0x4000_0000_0000_0000,
        sa * pow2(pa) + sb * pow2(pb) == (sa * pow2((pa - pb) as nat) + sb) * pow2(pb),
        sa * pow2(pa) - sb * pow2(pb) == (sa * pow2((pa - pb) as nat) - sb) * pow2(pb),
        pow2(pb) > 0,
        sa * pow2(pa) > sb * pow2(pb) ==> sa * pow2((pa - pb) as nat) > sb,
        forall|x: nat, q: nat| #[trigger] crate::binary32::brackets(x, 1, q, false, pb as int)
            == (q * pow2(pb) == x),
{
    let d = (pa - pb) as nat;
    let z = pow2(d);
    let w = pow2(pb);
    lemma2_to64();
    lemma_pow2_pos(pb);
    lemma_pow2_adds(d, pb);
    if d < 38 {
        lemma_pow2_strictly_increases(d, 38);
    }
    lemma2_to64_rest();
    assert(sa * z < 0x4000_0000_0000_0000) by (nonlinear_arith)
        requires
            sa < 0x100_0000,
            0 <= z <= 0x40_0000_0000,
    ;
    assert(sa * (z * w) + sb * w == (sa * z + sb) * w) by (nonlinear_arith);
    assert(sa * (z * w) - sb * w == (sa * z - sb) * w) by (nonlinear_arith);
    assert((sa * z - sb) * w > 0 ==> sa * z > sb) by (nonlinear_arith)
        requires
            w > 0,
    ;
    assert forall|x: nat, q: nat| #[trigger]
        crate::binary32::brackets(x, 1, q, false, pb as int) == (q * w == x) by {
        lemma_mul_basics(x as int);
        lemma_mul_basics((q * w) as int);
    }
}

/// The product of two scaled significands, at the scale of the product.
proof fn lemma_product(sa: nat, pa: nat, sb: nat, pb: nat)
    requires
        sa < 0x100_0000,
        sb < 0x100_0000,
    ensures
        sa * sb < 0x1_0000_0000_0000,
        sa * sb == 0 ==> (sa * pow2(pa)) * (sb * pow2(pb)) == 0,
        crate::binary32::brackets(
            (sa * pow2(pa)) * (sb * pow2(pb)),
            pow2(149),
            sa * sb,
            false,
            pa + pb - 149,
        ),
{
    let za = pow2(pa);
    let zb = pow2(pb);
    let one = pow2(149);
    let q = sa * sb;
    let s = pa + pb - 149;
    let num = (sa * za) * (sb * zb);
    assert(sa * sb < 0x1_0000_0000_0000) by (nonlinear_arith)
        requires
            sa < 0x100_0000,
            sb < 0x100_0000,
    ;
    lemma_pow2_adds(pa, pb);
    assert(num == q * (za * zb)) by (nonlinear_arith)
        requires
            num == (sa * za) * (sb * zb),
            q == sa * sb,
    ;
    if s >= 0 {
        lemma_pow2_adds(s as nat, 149);
        let u = pow2(s as nat);
        assert(q * (u * one) == q * u * one) by (nonlinear_arith);
        lemma_mul_basics(num as int);
    } else {
        lemma_pow2_adds(pa + pb, (-s) as nat);
        let v = pow2((-s) as nat);
        let zz = za * zb;
        assert(q * (zz * v) == (q * zz) * v) by (nonlinear_arith);
        lemma_mul_basics(q as int);
    }
    assert(q == 0 ==> q * (za * zb) == 0) by (nonlinear_arith);
}

/// A dividend brought to 51 digits leaves a quotient of at least 26.
proof fn lemma_long_dividend(sa: nat, len: nat, sb: nat)
    requires
        1 <= len <= 24,
        pow2((len - 1) as nat) <= sa < pow2(len),
        0 < sb < 0x100_0000,
    ensures
        sa * pow2((51 - len) as nat) < 0x8_0000_0000_0000,
        (sa * pow2((51 - len) as nat)) / sb >= 0x200_0000,
{
    let k = (51 - len) as nat;
    let z = pow2(k);
    lemma2_to64();
    lemma2_to64_rest();
    lemma_pow2_adds(len, k);
    lemma_pow2_adds((len - 1) as nat, k);
    lemma_pow2_pos(k);
    assert(sa * z < pow2(len) * z) by (nonlinear_arith)
        requires
            sa < pow2(len),
            z > 0,
    ;
    assert(sa * z >= pow2((len - 1) as nat) * z) by (nonlinear_arith)
        requires
            sa >= pow2((len - 1) as nat),
    ;
    let n = sa * z;
    assert(n / sb >= 0x200_0000) by (nonlinear_arith)
        requires
            n >= 0x4_0000_0000_0000,
            0 < sb <= 0x100_0000,
    ;
}

/// Long division, at the scale of the quotient.
proof fn lemma_quotient(
    sa: nat,
    pa: nat,
    sb: nat,
    pb: nat,
    k: nat,
    q: nat,
    rem: nat,
    s: int,
)
    requires
        sb > 0,
        q == (sa * pow2(k)) / sb,
        rem == (sa * pow2(k)) % sb,
        s == pa - pb + 149 - k,
    ensures
        crate::binary32::brackets(
            (sa * pow2(pa)) * pow2(149),
            sb * pow2(pb),
            q,
            rem != 0,
            s,
        ),
{
    let n = sa * pow2(k);
    let zb = pow2(pb);
    let den = sb * zb;
    let num = (sa * pow2(pa)) * pow2(149);
    let u = crate::binary32::scale_up(s);
    let v = crate::binary32::scale_down(s);
    vstd::arithmetic::div_mod::lemma_fundamental_div_mod(n as int, sb as int);
    assert(n == q * sb + rem) by {
        lemma_mul_is_commutative(q as int, sb as int);
    }
    lemma_pow2_pos(pb);
    lemma_pow2_adds(pa, 149);
    // Both sides of the division at the common scale.
    assert(num * v == n * (u * zb)) by {
        if s >= 0 {
            lemma_pow2_adds(s as nat, pb);
            lemma_pow2_adds(k, (s + pb) as nat);
            lemma_mul_basics(num as int);
        } else {
            lemma_pow2_adds(pa + 149, (-s) as nat);
            lemma_pow2_adds(k, pb);
            lemma_mul_basics(zb as int);
        }
        let za = pow2(pa);
        let one = pow2(149);
        let zk = pow2(k);
        assert(num * v == sa * ((za * one) * v)) by (nonlinear_arith)
            requires
                num == (sa * za) * one,
        ;
        assert(n * (u * zb) == sa * (zk * (u * zb))) by (nonlinear_arith)
            requires
                n == sa * zk,
        ;
        lemma_mul_basics((za * one) as int);
    }
    assert(num * v == q * u * den + rem * (u * zb)) by (nonlinear_arith)
        requires
            num * v == n * (u * zb),
            n == q * sb + rem,
            den == sb * zb,
    ;
    if s >= 0 {
        lemma_pow2_pos(s as nat);
    }
    lemma_mul_basics((u * zb) as int);
    assert(rem > 0 ==> rem * (u * zb) > 0) by (nonlinear_arith)
        requires
            u > 0,
            zb > 0,
    ;
    assert(rem * (u * zb) < u * den) by (nonlinear_arith)
        requires
            rem < sb,
            u > 0,
            zb > 0,
            den == sb * zb,
    ;
}

/// Zero is nearest to zero.
pub proof fn lemma_zero_is_nearest(den: nat)
    requires
        den > 0,
    ensures
        crate::binary32::nearest(0, den) == 0,
{
    crate::binary32::lemma_magnitude_step(0);
    assert(crate::binary32::magnitude(0) == 0 * pow2(0));
    let up = crate::binary32::magnitude(1);
    assert((0 + up) * den > 0) by (nonlinear_arith)
        requires
            up > 0,
            den > 0,
    ;
    crate::binary32::lemma_nearest_is(0, den, 0);
}

/// What a count becomes as a number: finite, and zero for zero alone.
pub proof fn lemma_count(count: nat)
    requires
        count <= u64::MAX,
    ensures
        Binary32::count_bits(count) < INFINITY_BITS,
        Binary32::count_bits(count) == 0 <==> count == 0,
{
    crate::binary32::lemma_nearest_exists(count * pow2(149), 1);
    if count == 0 {
        lemma_mul_basics(pow2(149) as int);
        lemma_zero_is_nearest(1);
    } else {
        lemma_count_word(count, Binary32::count_bits(count) as nat);
    }
}

/// A larger count is no smaller as a number.
pub proof fn lemma_count_monotone(a: nat, b: nat)
    requires
        a <= b,
    ensures
        Binary32::count_bits(a) <= Binary32::count_bits(b),
{
    let z = pow2(149);
    assert((a * z) * 1 <= (b * z) * 1) by (nonlinear_arith)
        requires
            a <= b,
    ;
    crate::binary32::lemma_nearest_monotone(a * z, 1, b * z, 1);
}

/// A ratio of a part to its whole lies in the unit interval, is zero for an
/// empty part and one for the whole.
pub proof fn lemma_ratio_bounds(count: nat, total: nat)
    requires
        count <= total <= u64::MAX,
        total > 0,
    ensures
        Binary32::ratio_bits(count, total) <= crate::binary32::ONE_BITS,
        count == 0 ==> Binary32::ratio_bits(count, total) == 0,
        count == total ==> Binary32::ratio_bits(count, total) == crate::binary32::ONE_BITS,
{
    reveal(Binary32::quotient_bits);
    let a = Binary32 { bits: Binary32::count_bits(count) };
    let b = Binary32 { bits: Binary32::count_bits(total) };
    let z = pow2(149);
    lemma_count(count);
    lemma_count(total);
    lemma_count_monotone(count, total);
    crate::binary32::lemma_one_units();
    crate::binary32::lemma_magnitude_compares(a.word(), b.word());
    crate::binary32::lemma_magnitude_compares(0, b.word());
    let den = b.size();
    lemma_mul_is_commutative(z as int, den as int);
    crate::binary32::lemma_nearest_exact(crate::binary32::ONE_BITS, z * den, den);
    assert((a.size() * z) * den <= (z * den) * den) by (nonlinear_arith)
        requires
            a.size() <= den,
    ;
    crate::binary32::lemma_nearest_monotone(a.size() * z, den, z * den, den);
    if count == 0 {
        lemma_mul_basics(z as int);
        lemma_zero_is_nearest(den);
    }
}

/// A larger part is no smaller a share of the same whole.
pub proof fn lemma_ratio_monotone(c1: nat, c2: nat, total: nat)
    requires
        c1 <= c2 <= total <= u64::MAX,
        total > 0,
    ensures
        Binary32::ratio_bits(c1, total) <= Binary32::ratio_bits(c2, total),
{
    reveal(Binary32::quotient_bits);
    let a1 = Binary32 { bits: Binary32::count_bits(c1) };
    let a2 = Binary32 { bits: Binary32::count_bits(c2) };
    let b = Binary32 { bits: Binary32::count_bits(total) };
    let z = pow2(149);
    lemma_count(c1);
    lemma_count(c2);
    lemma_count(total);
    lemma_count_monotone(c1, c2);
    crate::binary32::lemma_one_units();
    crate::binary32::lemma_magnitude_compares(a1.word(), a2.word());
    crate::binary32::lemma_magnitude_compares(0, b.word());
    let den = b.size();
    assert((a1.size() * z) * den <= (a2.size() * z) * den) by (nonlinear_arith)
        requires
            a1.size() <= a2.size(),
    ;
    crate::binary32::lemma_nearest_monotone(a1.size() * z, den, a2.size() * z, den);
}

/// The word with significand `sig` at exponent `p`.
pub open spec fn packed(sig: nat, p: nat) -> u32 {
    (p * 0x80_0000 + sig) as u32
}

/// A count that a significand holds exactly keeps its value as a number.
pub proof fn lemma_exact_count(count: nat, sig: nat, p: nat)
    requires
        0x80_0000 <= sig < 0x100_0000,
        149 <= p <= 253,
        count == sig * pow2((p - 149) as nat),
    ensures
        Binary32::count_bits(count) == packed(sig, p),
{
    let z = pow2((p - 149) as nat);
    let one = pow2(149);
    crate::binary32::lemma_pack(sig, p);
    lemma_pow2_adds((p - 149) as nat, 149);
    assert((sig * z) * one == sig * (z * one)) by (nonlinear_arith);
    lemma_mul_basics((sig * pow2(p)) as int);
    crate::binary32::lemma_nearest_exact(packed(sig, p), count * one, 1);
}

/// A quotient that a significand holds exactly.
pub proof fn lemma_exact_quotient(
    sa: nat,
    pa: nat,
    sb: nat,
    pb: nat,
    sig: nat,
    p: nat,
)
    requires
        0x80_0000 <= sa < 0x100_0000,
        0x80_0000 <= sb < 0x100_0000,
        0x80_0000 <= sig < 0x100_0000,
        pa <= 253,
        pb <= 253,
        p <= 253,
        (sa * pow2(pa)) * pow2(149) == (sig * pow2(p)) * (sb * pow2(pb)),
    ensures
        (Binary32 { bits: packed(sa, pa) }).quotient_bits((Binary32 { bits: packed(sb, pb) }))
            == packed(sig, p),
{
    reveal(Binary32::quotient_bits);
    crate::binary32::lemma_pack(sa, pa);
    crate::binary32::lemma_pack(sb, pb);
    crate::binary32::lemma_pack(sig, p);
    let den = sb * pow2(pb);
    lemma_pow2_pos(pb);
    lemma_mul_strictly_positive(sb as int, pow2(pb) as int);
    crate::binary32::lemma_nearest_exact(packed(sig, p), (sig * pow2(p)) * den, den);
}

/// One less a number of the unit interval: the word nearest to what is left.
pub proof fn lemma_one_minus(r: u32)
    requires
        r <= crate::binary32::ONE_BITS,
    ensures
        ({
            let left = (Binary32 { bits: crate::binary32::ONE_BITS }).difference_bits(
                (Binary32 { bits: r }),
            );
            &&& crate::binary32::magnitude(r as nat) <= crate::binary32::one_units()
            &&& left == crate::binary32::nearest(
                (crate::binary32::one_units() - crate::binary32::magnitude(r as nat)) as nat,
                1,
            )
            &&& left <= crate::binary32::ONE_BITS
        }),
{
    reveal(Binary32::sum_bits);
    let one = crate::binary32::ONE_BITS;
    crate::binary32::lemma_one_units();
    crate::binary32::lemma_magnitude_compares(r as nat, one as nat);
    assert((Binary32 { bits: (r + SIGN_BIT) as u32 }).word() == r);
    let v = (crate::binary32::one_units() - crate::binary32::magnitude(r as nat)) as nat;
    lemma_mul_basics(v as int);
    lemma_mul_basics(crate::binary32::one_units() as int);
    lemma_zero_is_nearest(1);
    crate::binary32::lemma_nearest_exact(one, crate::binary32::one_units(), 1);
    crate::binary32::lemma_nearest_monotone(v, 1, crate::binary32::one_units(), 1);
}

/// A machine-word count is neither zero nor infinite as a number.
proof fn lemma_count_word(count: nat, r: nat)
    requires
        0 < count <= u64::MAX,
        crate::binary32::is_nearest(count * pow2(149), 1, r),
    ensures
        0 < r < INFINITY_BITS,
{
    crate::binary32::lemma_magnitude_step(0);
    assert(crate::binary32::magnitude(0) == 0 * pow2(0));
    lemma2_to64();
    lemma_pow2_pos(149);
    lemma_pow2_adds(64, 149);
    lemma_pow2_strictly_increases(1, 149);
    lemma_mul_basics(crate::binary32::magnitude(1) as int);
    let z = pow2(149);
    assert(z <= count * z <= pow2(64) * z) by (nonlinear_arith)
        requires
            0 < count <= pow2(64),
    ;
    let top = INFINITY_BITS as nat;
    let low = (top - 1) as nat;
    assert(crate::binary32::magnitude(low) == 0xFF_FFFF * pow2(253));
    lemma_pow2_strictly_increases(213, 253);
    lemma_mul_basics((crate::binary32::magnitude(low) + crate::binary32::magnitude(top)) as int);
}

/// The distance between two whole numbers.
pub open spec fn distance(a: int, b: int) -> int {
    if a < b {
        b - a
    } else {
        a - b
    }
}

/// No word lies nearer to a number than the one it is rounded to.
proof fn lemma_nothing_nearer(num: nat, den: nat, r: nat, w: nat)
    requires
        den > 0,
        crate::binary32::is_nearest(num, den, r),
        r < INFINITY_BITS,
        w <= INFINITY_BITS,
    ensures
        distance(num as int, (crate::binary32::magnitude(r) * den) as int) <= distance(
            num as int,
            (crate::binary32::magnitude(w) * den) as int,
        ),
{
    let a = crate::binary32::magnitude(r);
    let b = crate::binary32::magnitude(w);
    if w > r {
        let c = crate::binary32::magnitude(r + 1);
        if w > r + 1 {
            crate::binary32::lemma_magnitude_order(r + 1, w);
        }
        crate::binary32::lemma_magnitude_order(r, w);
        assert((a + c) * den == a * den + c * den && c * den <= b * den && a * den <= b * den)
            by (nonlinear_arith)
            requires
                c <= b,
                a <= b,
                den > 0,
        ;
    } else if w < r {
        let c = crate::binary32::magnitude((r - 1) as nat);
        if w < r - 1 {
            crate::binary32::lemma_magnitude_order(w, (r - 1) as nat);
        }
        crate::binary32::lemma_magnitude_order(w, r);
        assert((c + a) * den == a * den + c * den && c * den >= b * den && a * den >= b * den)
            by (nonlinear_arith)
            requires
                c >= b,
                a >= b,
                den > 0,
        ;
    }
}

/// No signed number lies nearer to a signed one than what it is rounded to, and
/// where it is rounded to an infinity it lies beyond every number.
proof fn lemma_nothing_signed_nearer(negative: bool, num: nat, den: nat, w: Binary32)
    requires
        den > 0,
        w.finite(),
    ensures
        ({
            let exact = if negative {
                -(num as int)
            } else {
                num as int
            };
            let s = Binary32 { bits: signed_nearest(negative, num, den) };
            &&& !s.nan()
            &&& s.finite() ==> distance(exact, s.units() * den) <= distance(exact, w.units() * den)
            &&& s.infinite() ==> s.negative() == negative && w.size() * den < num
        }),
{
    let r = crate::binary32::nearest(num, den) as nat;
    let s = Binary32 { bits: signed_nearest(negative, num, den) };
    crate::binary32::lemma_nearest_exists(num, den);
    assert(s.word() == r);
    let m = crate::binary32::magnitude(r);
    let u = w.size();
    assert((-(m as int)) * den == -(m * den) && (-(u as int)) * den == -(u * den))
        by (nonlinear_arith);
    if r < INFINITY_BITS {
        lemma_nothing_nearer(num, den, r, w.word());
        if w.negative() != negative {
            lemma_nothing_nearer(num, den, r, 0);
            assert(crate::binary32::magnitude(0) == 0 * pow2(0));
            assert(0 * den == 0 && u * den >= 0) by (nonlinear_arith);
        }
    } else {
        let top = crate::binary32::magnitude((INFINITY_BITS - 1) as nat);
        let all = crate::binary32::magnitude(INFINITY_BITS as nat);
        crate::binary32::lemma_magnitude_order((INFINITY_BITS - 1) as nat, INFINITY_BITS as nat);
        if w.word() < INFINITY_BITS - 1 {
            crate::binary32::lemma_magnitude_order(w.word(), (INFINITY_BITS - 1) as nat);
        }
        assert(2 * (u * den) < (top + all) * den) by (nonlinear_arith)
            requires
                u <= top,
                top < all,
                den > 0,
        ;
    }
}

/// A sum is rounded to nothing that another number is nearer to than it is, is
/// beyond every number where it is infinite, and does not depend on the order of
/// the two.
pub proof fn law_a_sum_is_rounded_to_the_nearest(a: Binary32, b: Binary32, w: Binary32)
    requires
        a.finite(),
        b.finite(),
        w.finite(),
    ensures
        ({
            let s = Binary32 { bits: a.sum_bits(b) };
            let exact = a.units() + b.units();
            &&& !s.nan()
            &&& s.finite() ==> distance(exact, s.units()) <= distance(exact, w.units())
            &&& s.infinite() ==> w.size() < distance(exact, 0) && s.negative() == (exact < 0)
            &&& s.bits == b.sum_bits(a)
        }),
{
    reveal(Binary32::sum_bits);
    let v = a.units() + b.units();
    assert(crate::binary32::magnitude(0) == 0 * pow2(0));
    lemma_mul_basics(w.units());
    if v > 0 {
        lemma_nothing_signed_nearer(false, v as nat, 1, w);
        lemma_mul_basics((Binary32 { bits: a.sum_bits(b) }).units());
    } else if v < 0 {
        lemma_nothing_signed_nearer(true, (-v) as nat, 1, w);
        lemma_mul_basics((Binary32 { bits: a.sum_bits(b) }).units());
    }
    lemma_mul_basics(w.size() as int);
}

/// A difference has the sign of the order: it is positive exactly where the first
/// is the larger, and negative exactly where it is the smaller.
pub proof fn law_a_difference_has_the_sign_of_the_order(a: Binary32, b: Binary32)
    requires
        a.finite(),
        b.finite(),
    ensures
        ({
            let s = Binary32 { bits: a.difference_bits(b) };
            &&& !s.nan()
            &&& s.units() > 0 <==> b.is_less(a)
            &&& s.units() < 0 <==> a.is_less(b)
        }),
{
    reveal(Binary32::sum_bits);
    let c = Binary32 { bits: b.negated_bits() };
    assert(c.word() == b.word());
    assert(c.units() == -b.units());
    let v = a.units() + c.units();
    let s = Binary32 { bits: a.difference_bits(b) };
    assert(crate::binary32::magnitude(0) == 0 * pow2(0));
    let size = distance(v, 0) as nat;
    crate::binary32::lemma_nearest_exists(size, 1);
    let r = crate::binary32::nearest(size, 1);
    if v != 0 {
        crate::binary32::lemma_magnitude_step(0);
        lemma2_to64();
        assert(crate::binary32::magnitude(1) == 1);
        lemma_mul_basics((0 + 1) as int);
        assert(r != 0);
        crate::binary32::lemma_magnitude_order(0, r as nat);
        assert(s.word() == r);
    }
}

/// A product is rounded to nothing that another number is nearer to than it is,
/// is beyond every number where it is infinite, and does not depend on the order
/// of the two. A unit times a unit is `2^-149` of a unit.
pub proof fn law_a_product_is_rounded_to_the_nearest(a: Binary32, b: Binary32, w: Binary32)
    requires
        a.finite(),
        b.finite(),
        w.finite(),
    ensures
        ({
            let s = Binary32 { bits: a.product_bits(b) };
            let exact = a.units() * b.units();
            &&& !s.nan()
            &&& s.finite() ==> distance(exact, s.units() * pow2(149)) <= distance(
                exact,
                w.units() * pow2(149),
            )
            &&& s.infinite() ==> w.size() * pow2(149) < distance(exact, 0) && s.negative() == (exact
                < 0)
            &&& s.bits == b.product_bits(a)
        }),
{
    reveal(Binary32::product_bits);
    lemma_pow2_pos(149);
    let (x, y) = (a.size() as int, b.size() as int);
    assert((-x) * y == -(x * y) && x * (-y) == -(x * y) && (-x) * (-y) == x * y && x * y == y * x
        && x * y >= 0) by (nonlinear_arith)
        requires
            x >= 0,
            y >= 0,
    ;
    let negative = a.negative() != b.negative();
    lemma_nothing_signed_nearer(negative, a.size() * b.size(), pow2(149), w);
    let s = Binary32 { bits: a.product_bits(b) };
    if s.infinite() {
        assert(w.size() * pow2(149) >= 0) by (nonlinear_arith);
    }
}

/// A quotient is rounded to nothing that another number is nearer to than it is,
/// and is beyond every number where it is infinite.
pub proof fn law_a_quotient_is_rounded_to_the_nearest(a: Binary32, b: Binary32, w: Binary32)
    requires
        a.finite(),
        b.finite(),
        b.units() != 0,
        w.finite(),
    ensures
        ({
            let s = Binary32 { bits: a.quotient_bits(b) };
            let exact = a.units() * pow2(149);
            &&& !s.nan()
            &&& s.finite() ==> distance(exact, s.units() * b.units()) <= distance(
                exact,
                w.units() * b.units(),
            )
            &&& s.infinite() ==> w.size() * b.size() < a.size() * pow2(149) && s.negative() == (
            a.negative() != b.negative())
        }),
{
    reveal(Binary32::quotient_bits);
    assert(crate::binary32::magnitude(0) == 0 * pow2(0));
    assert(b.word() != 0);
    crate::binary32::lemma_magnitude_order(0, b.word());
    let negative = a.negative() != b.negative();
    let num = a.size() * pow2(149);
    let flipped = if b.negative() {
        Binary32 { bits: w.negated_bits() }
    } else {
        w
    };
    assert(flipped.word() == w.word());
    lemma_nothing_signed_nearer(negative, num, b.size(), w);
    lemma_nothing_signed_nearer(negative, num, b.size(), flipped);
    let s = Binary32 { bits: a.quotient_bits(b) };
    let (x, z, y) = (a.size() as int, pow2(149) as int, b.size() as int);
    let (q, v) = (s.units(), w.units());
    assert((-x) * z == -(x * z) && q * (-y) == -(q * y) && v * (-y) == -(v * y) && (-v) * y == -(v
        * y)) by (nonlinear_arith);
    assert(flipped.units() == if b.negative() {
        -v
    } else {
        v
    });
}

/// What a number that is not finite does: a result is not a number where an
/// operand is not one, and where the infinities leave it open; infinities
/// otherwise carry through, with the sign that the operands give.
pub proof fn law_infinities_carry_through(a: Binary32, b: Binary32)
    requires
        !a.nan(),
        !b.nan(),
    ensures
        forall|x: Binary32|
            x.nan() ==> #[trigger] (Binary32 { bits: x.sum_bits(a) }).nan() && (Binary32 {
                bits: a.sum_bits(x),
            }).nan() && (Binary32 { bits: x.product_bits(a) }).nan() && (Binary32 {
                bits: a.product_bits(x),
            }).nan() && (Binary32 { bits: x.quotient_bits(a) }).nan() && (Binary32 {
                bits: a.quotient_bits(x),
            }).nan(),
        (Binary32 { bits: a.sum_bits(b) }).nan() <==> a.infinite() && b.infinite() && a.negative()
            != b.negative(),
        a.infinite() && !(Binary32 { bits: a.sum_bits(b) }).nan() ==> a.sum_bits(b) == a.bits
            && b.sum_bits(a) == a.bits,
        (Binary32 { bits: a.product_bits(b) }).nan() <==> (a.infinite() && b.units() == 0) || (
        b.infinite() && a.units() == 0),
        a.infinite() && b.units() != 0 ==> {
            let s = Binary32 { bits: a.product_bits(b) };
            s.infinite() && s.negative() == (a.negative() != b.negative())
        },
        (Binary32 { bits: a.quotient_bits(b) }).nan() <==> (a.infinite() && b.infinite()) || (
        a.units() == 0 && b.units() == 0),
        a.finite() && b.infinite() ==> (Binary32 { bits: a.quotient_bits(b) }).units() == 0,
        (a.infinite() && b.finite()) || (a.units() != 0 && b.units() == 0) ==> {
            let s = Binary32 { bits: a.quotient_bits(b) };
            s.infinite() && s.negative() == (a.negative() != b.negative())
        },
{
    reveal(Binary32::sum_bits);
    reveal(Binary32::product_bits);
    reveal(Binary32::quotient_bits);
    assert(crate::binary32::magnitude(0) == 0 * pow2(0));
    crate::binary32::lemma_magnitude_compares(0, a.word());
    crate::binary32::lemma_magnitude_compares(0, b.word());
    let zero = Binary32 { bits: 0 };
    if a.finite() && b.finite() {
        law_a_sum_is_rounded_to_the_nearest(a, b, zero);
        law_a_product_is_rounded_to_the_nearest(a, b, zero);
        if b.units() != 0 {
            law_a_quotient_is_rounded_to_the_nearest(a, b, zero);
        }
    }
}

} // verus!
