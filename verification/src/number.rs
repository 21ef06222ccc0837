//! Unsigned numbers in text.
use vstd::prelude::*;
use vstd::string::*;

verus! {

/// The value of a digit in `radix`, letters of either case counting from ten.
pub open spec fn digit_value(byte: u8, radix: nat) -> Option<nat> {
    let value = if 0x30 <= byte <= 0x39 {
        (byte - 0x30) as nat
    } else if 0x41 <= byte <= 0x5A {
        (byte - 0x41 + 10) as nat
    } else if 0x61 <= byte <= 0x7A {
        (byte - 0x61 + 10) as nat
    } else {
        radix
    };
    if value < radix {
        Some(value)
    } else {
        None
    }
}

/// The number that digits spell, if all of them are digits of `radix`.
pub open spec fn digits_value(digits: Seq<u8>, radix: nat) -> Option<nat>
    decreases digits.len(),
{
    if digits.len() == 0 {
        Some(0)
    } else {
        match (digits_value(digits.drop_last(), radix), digit_value(digits.last(), radix)) {
            (Some(rest), Some(digit)) => Some(rest * radix + digit),
            _ => None,
        }
    }
}

/// The digits of a number: all of it, but for a leading plus sign.
pub open spec fn unsigned_part(bytes: Seq<u8>) -> Seq<u8> {
    if bytes.len() > 0 && bytes[0] == 0x2B {
        bytes.skip(1)
    } else {
        bytes
    }
}

/// The number that a text spells in `radix`, if it spells one of at most
/// `max`: an optional plus sign, then one digit or more.
pub open spec fn number_in(bytes: Seq<u8>, radix: nat, max: nat) -> Option<nat> {
    let digits = unsigned_part(bytes);
    if digits.len() == 0 {
        None
    } else {
        match digits_value(digits, radix) {
            Some(value) => if value <= max {
                Some(value)
            } else {
                None
            },
            None => None,
        }
    }
}

proof fn lemma_digits_grow(digits: Seq<u8>, radix: nat, upto: int, max: nat)
    requires
        radix > 0,
        0 <= upto <= digits.len(),
        match digits_value(digits.take(upto), radix) {
            Some(value) => value > max,
            None => true,
        },
    ensures
        match digits_value(digits, radix) {
            Some(value) => value > max,
            None => true,
        },
    decreases digits.len() - upto,
{
    if upto == digits.len() {
        assert(digits.take(upto) =~= digits);
    } else {
        let longer = digits.take(upto + 1);
        assert(longer.drop_last() =~= digits.take(upto));
        match (digits_value(digits.take(upto), radix), digit_value(longer.last(), radix)) {
            (Some(rest), Some(digit)) => {
                assert(rest * radix + digit >= rest) by (nonlinear_arith)
                    requires
                        radix >= 1,
                        rest >= 0,
                        digit >= 0,
                ;
            },
            _ => {},
        }
        lemma_digits_grow(digits, radix, upto + 1, max);
    }
}

/// The value of a digit in `radix`.
fn digit(byte: u8, radix: u64) -> (value: Option<u64>)
    requires
        radix <= 36,
    ensures
        value is Some <==> digit_value(byte, radix as nat) is Some,
        value is Some ==> value->0 == digit_value(byte, radix as nat)->0,
{
    let value: u64 = if 0x30 <= byte && byte <= 0x39 {
        (byte - 0x30) as u64
    } else if 0x41 <= byte && byte <= 0x5A {
        (byte - 0x41) as u64 + 10
    } else if 0x61 <= byte && byte <= 0x7A {
        (byte - 0x61) as u64 + 10
    } else {
        radix
    };
    if value < radix {
        Some(value)
    } else {
        None
    }
}

/// The number that a text spells in `radix`, if it spells one of at most
/// `max`.
pub fn parse_bytes(bytes: &[u8], radix: u64, max: u64) -> (value: Option<u64>)
    requires
        2 <= radix <= 36,
    ensures
        value is Some <==> number_in(bytes@, radix as nat, max as nat) is Some,
        value is Some ==> value->0 == number_in(bytes@, radix as nat, max as nat)->0,
{
    let start: usize = if bytes.len() > 0 && bytes[0] == 0x2B {
        1
    } else {
        0
    };
    let ghost digits = unsigned_part(bytes@);
    if bytes.len() == start {
        return None;
    }
    let mut value: u64 = 0;
    let mut i: usize = start;
    proof {
        assert(digits.take(0) =~= Seq::<u8>::empty());
    }
    while i < bytes.len()
        invariant
            start <= i <= bytes@.len(),
            start <= 1,
            digits == unsigned_part(bytes@),
            digits.len() == bytes@.len() - start,
            forall|j: int| 0 <= j < digits.len() ==> digits[j] == bytes@[j + start],
            2 <= radix <= 36,
            value <= max,
            digits_value(digits.take(i - start), radix as nat) == Some(value as nat),
        decreases bytes.len() - i,
    {
        proof {
            let longer = digits.take(i - start + 1);
            assert(longer.drop_last() =~= digits.take(i - start));
            assert(longer.last() == bytes@[i as int]);
            assert(value * radix <= 0xFFFF_FFFF_FFFF_FFFF * 36) by (nonlinear_arith)
                requires
                    0 <= value <= 0xFFFF_FFFF_FFFF_FFFF,
                    0 <= radix <= 36,
            ;
        }
        let next: u128 = match digit(bytes[i], radix) {
            Some(d) => value as u128 * radix as u128 + d as u128,
            None => {
                proof {
                    lemma_digits_grow(digits, radix as nat, i - start + 1, max as nat);
                }
                return None;
            },
        };
        if next > max as u128 {
            proof {
                lemma_digits_grow(digits, radix as nat, i - start + 1, max as nat);
            }
            return None;
        }
        value = next as u64;
        i = i + 1;
    }
    proof {
        assert(digits.take(i - start) =~= digits);
    }
    Some(value)
}

/// The decimal number a text spells, if it fits.
pub fn parse_u64(text: &str, max: u64) -> (value: Option<u64>)
    ensures
        value is Some <==> number_in(text.spec_bytes(), 10, max as nat) is Some,
        value is Some ==> value->0 == number_in(text.spec_bytes(), 10, max as nat)->0,
{
    parse_bytes(text.as_bytes(), 10, max)
}

/// `radix` to the power `n`.
pub open spec fn power(radix: nat, n: nat) -> nat
    decreases n,
{
    if n == 0 {
        1
    } else {
        power(radix, (n - 1) as nat) * radix
    }
}

/// Digits count by their place: those before others count for the radix as often
/// as there are digits after them.
pub proof fn law_digits_count_by_their_place(a: Seq<u8>, b: Seq<u8>, radix: nat)
    ensures
        digits_value(a + b, radix) is Some <==> digits_value(a, radix) is Some && digits_value(
            b,
            radix,
        ) is Some,
        digits_value(a + b, radix) is Some ==> digits_value(a + b, radix)->0 == digits_value(
            a,
            radix,
        )->0 * power(radix, b.len()) + digits_value(b, radix)->0,
    decreases b.len(),
{
    if b.len() == 0 {
        assert(a + b =~= a);
        match digits_value(a, radix) {
            Some(v) => {
                assert(v * 1 + 0 == v);
            },
            None => {},
        }
    } else {
        let c = b.drop_last();
        law_digits_count_by_their_place(a, c, radix);
        assert((a + b).drop_last() =~= a + c);
        match (digits_value(a, radix), digits_value(c, radix)) {
            (Some(x), Some(y)) => {
                let p = power(radix, c.len());
                assert((x * p + y) * radix == x * (p * radix) + y * radix) by (nonlinear_arith);
            },
            _ => {},
        }
    }
}

/// The bytes of a text of plain characters.
pub open spec fn plain_bytes(text: Seq<char>) -> Seq<u8> {
    Seq::new(text.len(), |i: int| text[i] as u8)
}

proof fn lemma_digit_read_back(d: nat)
    requires
        d < 10,
    ensures
        digit_value(crate::text::digit_char(d) as u8, 10) == Some(d),
        crate::text::digit_char(d) as u8 != 0x2B,
{
}

proof fn lemma_digits_read_back(n: nat)
    ensures
        digits_value(plain_bytes(crate::text::decimal_chars(n)), 10) == Some(n),
        crate::text::decimal_chars(n).len() > 0,
        plain_bytes(crate::text::decimal_chars(n))[0] != 0x2B,
    decreases n,
{
    let chars = crate::text::decimal_chars(n);
    let bytes = plain_bytes(chars);
    if n < 10 {
        lemma_digit_read_back(n);
        assert(bytes.drop_last() =~= Seq::<u8>::empty());
        assert(digits_value(Seq::<u8>::empty(), 10) == Some(0nat));
    } else {
        let rest = crate::text::decimal_chars(n / 10);
        lemma_digits_read_back(n / 10);
        lemma_digit_read_back(n % 10);
        assert(bytes.drop_last() =~= plain_bytes(rest));
        assert(bytes[0] == plain_bytes(rest)[0]);
    }
}

/// A number written out in decimal is read back, with or without a plus sign
/// before it.
pub proof fn law_a_written_number_is_read_back(n: nat, max: nat)
    ensures
        ({
            let bytes = plain_bytes(crate::text::decimal_chars(n));
            let read = if n <= max {
                Some(n)
            } else {
                None
            };
            &&& number_in(bytes, 10, max) == read
            &&& number_in(seq![0x2Bu8] + bytes, 10, max) == read
        }),
{
    lemma_digits_read_back(n);
    let bytes = plain_bytes(crate::text::decimal_chars(n));
    assert((seq![0x2Bu8] + bytes).skip(1) =~= bytes);
}

/// A text that holds anything but digits, after a plus sign if there is one, or
/// holds no digit, spells no number.
pub proof fn law_anything_but_digits_spells_no_number(bytes: Seq<u8>, radix: nat, max: nat, i: int)
    requires
        0 <= i < bytes.len(),
        i == 0 ==> bytes[0] != 0x2B || bytes.len() == 1,
        digit_value(bytes[i], radix) is None,
    ensures
        number_in(bytes, radix, max) is None,
{
    let digits = unsigned_part(bytes);
    if digits.len() > 0 {
        let k = i - (bytes.len() - digits.len());
        assert(digits[k] == bytes[i]);
        lemma_not_a_digit(digits, radix, k);
    }
}

proof fn lemma_not_a_digit(digits: Seq<u8>, radix: nat, k: int)
    requires
        0 <= k < digits.len(),
        digit_value(digits[k], radix) is None,
    ensures
        digits_value(digits, radix) is None,
    decreases digits.len(),
{
    if k < digits.len() - 1 {
        lemma_not_a_digit(digits.drop_last(), radix, k);
    }
}

/// Nothing but digits is written for a number.
pub proof fn lemma_all_digits(n: nat)
    ensures
        forall|i: int|
            0 <= i < plain_bytes(crate::text::decimal_chars(n)).len() ==> 0x30 <= (
            #[trigger] plain_bytes(crate::text::decimal_chars(n))[i]) <= 0x39,
    decreases n,
{
    let bytes = plain_bytes(crate::text::decimal_chars(n));
    if n >= 10 {
        let rest = plain_bytes(crate::text::decimal_chars(n / 10));
        lemma_all_digits(n / 10);
        assert forall|i: int| 0 <= i < bytes.len() implies 0x30 <= #[trigger] bytes[i] <= 0x39 by {
            if i < rest.len() {
                assert(bytes[i] == rest[i]);
            }
        }
    }
}

} // verus!
