//! Decimal numbers in text, and text at its edges.
use vstd::prelude::*;
use vstd::string::*;

verus! {

/// The character of one decimal digit.
pub open spec fn digit_char(d: nat) -> char {
    if d == 0 {
        '0'
    } else if d == 1 {
        '1'
    } else if d == 2 {
        '2'
    } else if d == 3 {
        '3'
    } else if d == 4 {
        '4'
    } else if d == 5 {
        '5'
    } else if d == 6 {
        '6'
    } else if d == 7 {
        '7'
    } else if d == 8 {
        '8'
    } else {
        '9'
    }
}

/// The decimal digits of `n`, the most significant first.
pub open spec fn decimal_chars(n: nat) -> Seq<char>
    decreases n,
{
    if n < 10 {
        seq![digit_char(n)]
    } else {
        decimal_chars(n / 10).push(digit_char(n % 10))
    }
}

fn digit(d: u64) -> (s: &'static str)
    requires
        d < 10,
    ensures
        s@ == seq![digit_char(d as nat)],
{
    proof {
        reveal_strlit("0");
        reveal_strlit("1");
        reveal_strlit("2");
        reveal_strlit("3");
        reveal_strlit("4");
        reveal_strlit("5");
        reveal_strlit("6");
        reveal_strlit("7");
        reveal_strlit("8");
        reveal_strlit("9");
    }
    if d == 0 {
        "0"
    } else if d == 1 {
        "1"
    } else if d == 2 {
        "2"
    } else if d == 3 {
        "3"
    } else if d == 4 {
        "4"
    } else if d == 5 {
        "5"
    } else if d == 6 {
        "6"
    } else if d == 7 {
        "7"
    } else if d == 8 {
        "8"
    } else {
        "9"
    }
}

/// `n` in decimal.
pub fn decimal(n: u64) -> (s: String)
    ensures
        s@ == decimal_chars(n as nat),
    decreases n,
{
    if n < 10 {
        String::from_str(digit(n))
    } else {
        let mut s: String = decimal(n / 10);
        s.append(digit(n % 10));
        proof {
            assert(s@ =~= decimal_chars((n / 10) as nat).push(digit_char((n % 10) as nat)));
        }
        s
    }
}

/// The text of `head` followed by that of `tail`.
pub fn joined(head: &str, tail: &str) -> (s: String)
    ensures
        s@ == head@ + tail@,
{
    let mut s: String = String::from_str(head);
    s.append(tail);
    s
}

/// The text of `head`, a decimal number, and `tail`.
pub fn numbered(head: &str, n: u64, tail: &str) -> (s: String)
    ensures
        s@ == head@ + decimal_chars(n as nat) + tail@,
{
    let mut s: String = String::from_str(head);
    s.append(decimal(n).as_str());
    s.append(tail);
    s
}

/// Whether two texts are the same.
pub fn same(a: &str, b: &str) -> (b_same: bool)
    ensures
        b_same == (a@ == b@),
{
    String::from_str(a) == String::from_str(b)
}

/// The characters that separate words.
pub open spec fn is_white(c: char) -> bool {
    ||| '\u{9}' <= c <= '\u{d}'
    ||| c == '\u{20}'
    ||| c == '\u{85}'
    ||| c == '\u{a0}'
    ||| c == '\u{1680}'
    ||| '\u{2000}' <= c <= '\u{200a}'
    ||| c == '\u{2028}'
    ||| c == '\u{2029}'
    ||| c == '\u{202f}'
    ||| c == '\u{205f}'
    ||| c == '\u{3000}'
}

/// Whether a character separates words.
pub(crate) fn white(c: char) -> (b: bool)
    ensures
        b == is_white(c),
{
    ('\u{9}' <= c && c <= '\u{d}') || c == '\u{20}' || c == '\u{85}' || c == '\u{a0}' || c
        == '\u{1680}' || ('\u{2000}' <= c && c <= '\u{200a}') || c == '\u{2028}' || c == '\u{2029}'
        || c == '\u{202f}' || c == '\u{205f}' || c == '\u{3000}'
}

/// A text without the white space at its end.
pub open spec fn trimmed_end(s: Seq<char>) -> Seq<char>
    decreases s.len(),
{
    if s.len() > 0 && is_white(s.last()) {
        trimmed_end(s.drop_last())
    } else {
        s
    }
}

/// A text without the white space at its start.
pub open spec fn trimmed_start(s: Seq<char>) -> Seq<char>
    decreases s.len(),
{
    if s.len() > 0 && is_white(s[0]) {
        trimmed_start(s.skip(1))
    } else {
        s
    }
}

/// A text without the white space at its end.
pub fn trim_end(s: &str) -> (t: &str)
    ensures
        t@ == trimmed_end(s@),
{
    let len: usize = s.unicode_len();
    let mut end: usize = len;
    proof {
        assert(s@.take(end as int) =~= s@);
    }
    while end > 0 && white(s.get_char(end - 1))
        invariant
            end <= len,
            len == s@.len(),
            trimmed_end(s@.take(end as int)) == trimmed_end(s@),
        decreases end,
    {
        proof {
            assert(s@.take(end as int).drop_last() =~= s@.take(end - 1));
        }
        end = end - 1;
    }
    let t: &str = s.substring_char(0, end);
    proof {
        assert(t@ =~= s@.take(end as int));
    }
    t
}

/// A text without the white space at either end.
pub fn trim(s: &str) -> (t: &str)
    ensures
        t@ == trimmed_start(trimmed_end(s@)),
{
    let kept: &str = trim_end(s);
    let len: usize = kept.unicode_len();
    let mut start: usize = 0;
    proof {
        assert(kept@.skip(0) =~= kept@);
    }
    while start < len && white(kept.get_char(start))
        invariant
            start <= len,
            len == kept@.len(),
            trimmed_start(kept@.skip(start as int)) == trimmed_start(kept@),
        decreases len - start,
    {
        proof {
            assert(kept@.skip(start as int).skip(1) =~= kept@.skip(start + 1));
        }
        start = start + 1;
    }
    let t: &str = kept.substring_char(start, len);
    proof {
        assert(t@ =~= kept@.skip(start as int));
    }
    t
}

proof fn lemma_digit_chars_differ(a: nat, b: nat)
    requires
        a < 10,
        b < 10,
        digit_char(a) == digit_char(b),
    ensures
        a == b,
{
}

/// Two numbers with the same decimal digits are equal.
pub proof fn lemma_decimal_injective(a: nat, b: nat)
    requires
        decimal_chars(a) == decimal_chars(b),
    ensures
        a == b,
    decreases a,
{
    lemma_decimal_length(a);
    lemma_decimal_length(b);
    let ca = decimal_chars(a);
    let cb = decimal_chars(b);
    assert(ca.last() == cb.last());
    if a >= 10 && b >= 10 {
        assert(ca.drop_last() =~= decimal_chars(a / 10));
        assert(cb.drop_last() =~= decimal_chars(b / 10));
        lemma_decimal_injective(a / 10, b / 10);
        lemma_digit_chars_differ(a % 10, b % 10);
    } else if a < 10 && b < 10 {
        lemma_digit_chars_differ(a, b);
    } else if a >= 10 {
        lemma_decimal_length(a / 10);
    } else {
        lemma_decimal_length(b / 10);
    }
}

proof fn lemma_decimal_length(a: nat)
    ensures
        decimal_chars(a).len() >= 1,
    decreases a,
{
    if a >= 10 {
        lemma_decimal_length(a / 10);
    }
}

/// One text stands in another.
pub open spec fn holds(text: Seq<char>, part: Seq<char>) -> bool {
    exists|i: int| #[trigger] stands_at(text, part, i)
}

/// One text stands in another at `i`.
pub open spec fn stands_at(text: Seq<char>, part: Seq<char>, i: int) -> bool {
    0 <= i <= text.len() - part.len() && text.subrange(i, i + part.len()) == part
}

/// Whether `part` stands in `text` at `i`.
pub(crate) fn text_stands_at(text: &str, part: &str, i: usize) -> (there: bool)
    ensures
        there == stands_at(text@, part@, i as int),
{
    let (n, m): (usize, usize) = (text.unicode_len(), part.unicode_len());
    if m > n || i > n - m {
        return false;
    }
    let mut k: usize = 0;
    while k < m
        invariant
            n == text@.len(),
            m == part@.len(),
            m <= n,
            i <= n - m,
            k <= m,
            forall|j: int| 0 <= j < k ==> text@[i + j] == part@[j],
        decreases m - k,
    {
        if text.get_char(i + k) != part.get_char(k) {
            assert(text@.subrange(i as int, i + m)[k as int] != part@[k as int]);
            return false;
        }
        k += 1;
    }
    assert(text@.subrange(i as int, i + m) =~= part@);
    true
}

/// Whether `part` stands in `text`.
pub(crate) fn text_holds(text: &str, part: &str) -> (found: bool)
    ensures
        found == holds(text@, part@),
{
    let n: usize = text.unicode_len();
    let mut i: usize = 0;
    while i < n
        invariant
            n == text@.len(),
            i <= n,
            forall|j: int| 0 <= j < i ==> !#[trigger] stands_at(text@, part@, j),
        decreases n - i,
    {
        if text_stands_at(text, part, i) {
            return true;
        }
        i += 1;
    }
    let found: bool = text_stands_at(text, part, n);
    proof {
        assert forall|j: int| j > n implies !#[trigger] stands_at(text@, part@, j) by {
        }
    }
    found
}

/// Trimming the end takes off white space, all of it, and nothing else.
pub proof fn law_trimming_takes_white_space_off_the_end(s: Seq<char>)
    ensures
        ({
            let t = trimmed_end(s);
            &&& t.len() <= s.len()
            &&& t == s.take(t.len() as int)
            &&& forall|i: int| t.len() <= i < s.len() ==> is_white(#[trigger] s[i])
            &&& t.len() > 0 ==> !is_white(t.last())
        }),
    decreases s.len(),
{
    if s.len() > 0 && is_white(s.last()) {
        let rest = s.drop_last();
        law_trimming_takes_white_space_off_the_end(rest);
        let t = trimmed_end(s);
        assert(rest.take(t.len() as int) =~= s.take(t.len() as int));
        assert forall|i: int| t.len() <= i < s.len() implies is_white(#[trigger] s[i]) by {
            if i < rest.len() {
                assert(s[i] == rest[i]);
            }
        }
    } else {
        assert(s.take(s.len() as int) =~= s);
    }
}

/// Trimming the start takes off white space, all of it, and nothing else.
pub proof fn law_trimming_takes_white_space_off_the_start(s: Seq<char>)
    ensures
        ({
            let t = trimmed_start(s);
            &&& t.len() <= s.len()
            &&& t == s.skip(s.len() - t.len())
            &&& forall|i: int| 0 <= i < s.len() - t.len() ==> is_white(#[trigger] s[i])
            &&& t.len() > 0 ==> !is_white(t[0])
        }),
    decreases s.len(),
{
    if s.len() > 0 && is_white(s[0]) {
        let rest = s.skip(1);
        law_trimming_takes_white_space_off_the_start(rest);
        let t = trimmed_start(s);
        assert(rest.skip(rest.len() - t.len()) =~= s.skip(s.len() - t.len()));
        assert forall|i: int| 0 <= i < s.len() - t.len() implies is_white(#[trigger] s[i]) by {
            if i > 0 {
                assert(s[i] == rest[i - 1]);
            }
        }
    } else {
        assert(s.skip(0) =~= s);
    }
}

/// What stands between two texts is held by the three together.
pub proof fn lemma_holds(before: Seq<char>, part: Seq<char>, after: Seq<char>)
    ensures
        holds(before + part + after, part),
{
    let all = before + part + after;
    assert(all.subrange(before.len() as int, (before.len() + part.len()) as int) =~= part);
    assert(stands_at(all, part, before.len() as int));
}

/// A text names a number under a label: the number in decimal stands right behind
/// the label.
pub open spec fn names(text: Seq<char>, label: Seq<char>, n: nat) -> bool {
    holds(text, label + decimal_chars(n))
}

/// The first of two labelled numbers, and the second.
pub proof fn lemma_names_two(a: Seq<char>, x: nat, b: Seq<char>, y: nat, end: Seq<char>)
    ensures
        names(a + decimal_chars(x) + b + decimal_chars(y) + end, a, x),
        names(a + decimal_chars(x) + b + decimal_chars(y) + end, b, y),
{
    let (p, q) = (decimal_chars(x), decimal_chars(y));
    let all = a + p + b + q + end;
    lemma_holds(Seq::empty(), a + p, b + q + end);
    assert(Seq::<char>::empty() + (a + p) + (b + q + end) =~= all);
    lemma_holds(a + p, b + q, end);
    assert((a + p) + (b + q) + end =~= all);
}

} // verus!
