//! Text primitives: equality and ordering of strings, decimal numerals and
//! trimming of trailing whitespace.

use vstd::prelude::*;
use vstd::string::*;
use vstd::utf8::*;

verus! {

/// `a` and `b` hold the same bytes at every position below `n`.
pub open spec fn agree_until(a: Seq<u8>, b: Seq<u8>, n: int) -> bool {
    &&& 0 <= n <= a.len()
    &&& n <= b.len()
    &&& forall|j: int| 0 <= j < n ==> a[j] == b[j]
}

/// Lexicographic order on byte strings: `a` is a prefix of `b`, or at the
/// first position where they differ `a` holds the smaller byte.
pub open spec fn lex_le(a: Seq<u8>, b: Seq<u8>) -> bool {
    ||| agree_until(a, b, a.len() as int)
    ||| exists|i: int| #[trigger] agree_until(a, b, i) && i < a.len() && i < b.len() && a[i] < b[i]
}

/// The order of two texts: that of their UTF-8 encodings, byte by byte.
pub open spec fn text_le(a: Seq<char>, b: Seq<char>) -> bool {
    lex_le(encode_utf8(a), encode_utf8(b))
}

/// Every byte string is below or equal to itself.
pub proof fn lemma_lex_le_reflexive(a: Seq<u8>)
    ensures
        lex_le(a, a),
{
    assert(agree_until(a, a, a.len() as int));
}

proof fn lemma_lex_le_total_from(a: Seq<u8>, b: Seq<u8>, n: int)
    requires
        agree_until(a, b, n),
    ensures
        lex_le(a, b) || lex_le(b, a),
    decreases a.len() - n,
{
    if n == a.len() {
    } else if n == b.len() {
        assert(agree_until(b, a, b.len() as int));
    } else if a[n] == b[n] {
        lemma_lex_le_total_from(a, b, n + 1);
    } else if a[n] < b[n] {
    } else {
        assert(agree_until(b, a, n));
    }
}

/// Any two byte strings are comparable.
pub proof fn lemma_lex_le_total(a: Seq<u8>, b: Seq<u8>)
    ensures
        lex_le(a, b) || lex_le(b, a),
{
    lemma_lex_le_total_from(a, b, 0);
}

/// The order is transitive.
pub proof fn lemma_lex_le_transitive(a: Seq<u8>, b: Seq<u8>, c: Seq<u8>)
    requires
        lex_le(a, b),
        lex_le(b, c),
    ensures
        lex_le(a, c),
{
    if agree_until(a, b, a.len() as int) {
        if agree_until(b, c, b.len() as int) {
            assert(agree_until(a, c, a.len() as int));
        } else {
            let j = choose|j: int| #[trigger]
                agree_until(b, c, j) && j < b.len() && j < c.len() && b[j] < c[j];
            if a.len() <= j {
                assert(agree_until(a, c, a.len() as int));
            } else {
                assert(agree_until(a, c, j));
            }
        }
    } else {
        let i = choose|i: int| #[trigger]
            agree_until(a, b, i) && i < a.len() && i < b.len() && a[i] < b[i];
        if agree_until(b, c, b.len() as int) {
            assert(agree_until(a, c, i));
        } else {
            let j = choose|j: int| #[trigger]
                agree_until(b, c, j) && j < b.len() && j < c.len() && b[j] < c[j];
            if i <= j {
                assert(agree_until(a, c, i));
            } else {
                assert(agree_until(a, c, j));
            }
        }
    }
}

/// Two byte strings that are below each other are the same string.
pub proof fn lemma_lex_le_antisymmetric(a: Seq<u8>, b: Seq<u8>)
    requires
        lex_le(a, b),
        lex_le(b, a),
    ensures
        a == b,
{
    if agree_until(a, b, a.len() as int) {
        if agree_until(b, a, b.len() as int) {
            assert(a =~= b);
        } else {
            let j = choose|j: int| #[trigger]
                agree_until(b, a, j) && j < b.len() && j < a.len() && b[j] < a[j];
            assert(a[j] == b[j]);
        }
    } else {
        let i = choose|i: int| #[trigger]
            agree_until(a, b, i) && i < a.len() && i < b.len() && a[i] < b[i];
        if agree_until(b, a, b.len() as int) {
            assert(b[i] == a[i]);
        } else {
            let j = choose|j: int| #[trigger]
                agree_until(b, a, j) && j < b.len() && j < a.len() && b[j] < a[j];
            if i <= j {
                assert(i < j ==> b[i] == a[i]);
            } else {
                assert(a[j] == b[j]);
            }
        }
    }
}

/// Texts with the same encoding are the same text.
pub proof fn lemma_encoding_injective(a: Seq<char>, b: Seq<char>)
    requires
        encode_utf8(a) == encode_utf8(b),
    ensures
        a == b,
{
    encode_utf8_decode_utf8(a);
    encode_utf8_decode_utf8(b);
}

/// Whether `a` sorts before or together with `b`, byte by byte.
pub fn bytes_le(a: &[u8], b: &[u8]) -> (le: bool)
    ensures
        le == lex_le(a@, b@),
{
    let mut i: usize = 0;
    while i < a.len() && i < b.len() && a[i] == b[i]
        invariant
            agree_until(a@, b@, i as int),
        decreases a.len() - i,
    {
        i += 1;
    }
    if i == a.len() {
        true
    } else if i == b.len() {
        proof {
            lemma_no_order_past(a@, b@, i as int);
        }
        false
    } else {
        proof {
            if a[i as int] > b[i as int] {
                lemma_no_order_past(a@, b@, i as int);
            }
        }
        a[i] < b[i]
    }
}

/// When `a` and `b` agree below `n`, and there `b` ends or holds the smaller
/// byte, `a` is not below `b`.
proof fn lemma_no_order_past(a: Seq<u8>, b: Seq<u8>, n: int)
    requires
        agree_until(a, b, n),
        n < a.len(),
        n == b.len() || a[n] > b[n],
    ensures
        !lex_le(a, b),
{
    if agree_until(a, b, a.len() as int) {
        assert(n < b.len());
        assert(a[n] == b[n]);
    }
    assert forall|i: int| #[trigger]
        agree_until(a, b, i) && i < a.len() && i < b.len() implies !(a[i] < b[i]) by {
        if i < n {
            assert(a[i] == b[i]);
        } else if i > n {
            assert(a[n] == b[n]);
        }
    }
}

/// Whether two byte strings are the same.
pub fn bytes_equal(a: &[u8], b: &[u8]) -> (same: bool)
    ensures
        same == (a@ == b@),
{
    if a.len() != b.len() {
        return false;
    }
    let mut i: usize = 0;
    while i < a.len()
        invariant
            a.len() == b.len(),
            agree_until(a@, b@, i as int),
        decreases a.len() - i,
    {
        if a[i] != b[i] {
            return false;
        }
        i += 1;
    }
    assert(a@ =~= b@);
    true
}

/// Whether two texts are the same, character for character.
pub fn same_text(a: &str, b: &str) -> (same: bool)
    ensures
        same == (a@ == b@),
{
    let same = bytes_equal(a.as_bytes(), b.as_bytes());
    proof {
        if same {
            lemma_encoding_injective(a@, b@);
        }
    }
    same
}

/// Whether text `a` sorts before or together with text `b`.
pub fn text_before_or_equal(a: &str, b: &str) -> (le: bool)
    ensures
        le == text_le(a@, b@),
{
    bytes_le(a.as_bytes(), b.as_bytes())
}

/// The character that writes the digit `d`.
pub open spec fn digit(d: int) -> char {
    if d == 0 {
        '0'
    } else if d == 1 {
        '1'
    } else if d == 2 {
        '2'
    } else if d == 3 {
        '3'
    } else if d == 4 {
        '4'
    } else if d == 5 {
        '5'
    } else if d == 6 {
        '6'
    } else if d == 7 {
        '7'
    } else if d == 8 {
        '8'
    } else {
        '9'
    }
}

/// Whether `c` is one of the ten decimal digits.
pub open spec fn is_digit(c: char) -> bool {
    exists|d: int| 0 <= d < 10 && c == #[trigger] digit(d)
}

/// The decimal numeral of `n`, without sign or leading zeros.
pub open spec fn decimal(n: nat) -> Seq<char>
    decreases n,
{
    if n < 10 {
        seq![digit(n as int)]
    } else {
        decimal(n / 10).push(digit((n % 10) as int))
    }
}

/// The number that a digit stands for.
pub open spec fn digit_value(c: char) -> nat {
    if c == '1' {
        1
    } else if c == '2' {
        2
    } else if c == '3' {
        3
    } else if c == '4' {
        4
    } else if c == '5' {
        5
    } else if c == '6' {
        6
    } else if c == '7' {
        7
    } else if c == '8' {
        8
    } else if c == '9' {
        9
    } else {
        0
    }
}

/// The number that a string of digits writes.
pub open spec fn numeral_value(s: Seq<char>) -> nat
    decreases s.len(),
{
    if s.len() == 0 {
        0
    } else {
        numeral_value(s.drop_last()) * 10 + digit_value(s.last())
    }
}

/// A decimal numeral is never empty, holds digits only, and writes the
/// number it was made from.
pub proof fn lemma_decimal(n: nat)
    ensures
        decimal(n).len() > 0,
        forall|i: int| 0 <= i < decimal(n).len() ==> is_digit(#[trigger] decimal(n)[i]),
        numeral_value(decimal(n)) == n,
    decreases n,
{
    if n < 10 {
        assert(decimal(n)[0] == digit(n as int));
        assert(decimal(n).drop_last() =~= Seq::<char>::empty());
        assert(numeral_value(decimal(n).drop_last()) == 0);
    } else {
        lemma_decimal(n / 10);
        let d = (n % 10) as int;
        assert(decimal(n).last() == digit(d));
        assert(decimal(n).drop_last() =~= decimal(n / 10));
    }
}

/// Different numbers have different numerals.
pub proof fn lemma_decimal_injective(m: nat, n: nat)
    requires
        decimal(m) == decimal(n),
    ensures
        m == n,
{
    lemma_decimal(m);
    lemma_decimal(n);
}

fn digit_text(d: u64) -> (text: &'static str)
    requires
        d < 10,
    ensures
        text@ == seq![digit(d as int)],
{
    proof {
        reveal_strlit("0");
        reveal_strlit("1");
        reveal_strlit("2");
        reveal_strlit("3");
        reveal_strlit("4");
        reveal_strlit("5");
        reveal_strlit("6");
        reveal_strlit("7");
        reveal_strlit("8");
        reveal_strlit("9");
    }
    let text = if d == 0 {
        "0"
    } else if d == 1 {
        "1"
    } else if d == 2 {
        "2"
    } else if d == 3 {
        "3"
    } else if d == 4 {
        "4"
    } else if d == 5 {
        "5"
    } else if d == 6 {
        "6"
    } else if d == 7 {
        "7"
    } else if d == 8 {
        "8"
    } else {
        "9"
    };
    assert(text@ =~= seq![digit(d as int)]);
    text
}

/// Appends the decimal numeral of `n` to `out`.
pub fn append_decimal(out: &mut String, n: u64)
    ensures
        final(out)@ == old(out)@ + decimal(n as nat),
    decreases n,
{
    if n >= 10 {
        append_decimal(out, n / 10);
    }
    out.append(digit_text(n % 10));
    assert(out@ =~= old(out)@ + decimal(n as nat));
}

/// Whether `c` has the Unicode property White_Space.
pub open spec fn is_whitespace(c: char) -> bool {
    let u = c as u32;
    ||| 0x09 <= u <= 0x0D
    ||| u == 0x20
    ||| u == 0x85
    ||| u == 0xA0
    ||| u == 0x1680
    ||| 0x2000 <= u <= 0x200A
    ||| u == 0x2028
    ||| u == 0x2029
    ||| u == 0x202F
    ||| u == 0x205F
    ||| u == 0x3000
}

/// `s` without the whitespace at its end.
pub open spec fn trimmed_end(s: Seq<char>) -> Seq<char>
    decreases s.len(),
{
    if s.len() > 0 && is_whitespace(s.last()) {
        trimmed_end(s.drop_last())
    } else {
        s
    }
}

/// Whether `c` is a whitespace character.
pub fn is_space(c: char) -> (space: bool)
    ensures
        space == is_whitespace(c),
{
    let u: u32 = c as u32;
    (0x09 <= u && u <= 0x0D) || u == 0x20 || u == 0x85 || u == 0xA0 || u == 0x1680 || (0x2000 <= u
        && u <= 0x200A) || u == 0x2028 || u == 0x2029 || u == 0x202F || u == 0x205F || u == 0x3000
}

/// The text without its trailing whitespace.
pub fn trim_end(s: &str) -> (trimmed: &str)
    ensures
        trimmed@ == trimmed_end(s@),
{
    let total = s.unicode_len();
    let mut seen: usize = 0;
    let mut keep: usize = 0;
    for c in it: s.chars()
        invariant
            it.seq() == s@,
            total == s@.len(),
            seen == it.index(),
            keep <= seen <= total,
            trimmed_end(s@.take(seen as int)) == s@.take(keep as int),
    {
        proof {
            let grown = s@.take(seen + 1);
            assert(grown.last() == c);
            assert(grown.drop_last() =~= s@.take(seen as int));
        }
        seen += 1;
        if !is_space(c) {
            keep = seen;
        }
    }
    assert(s@.take(seen as int) =~= s@);
    let trimmed = s.substring_char(0, keep);
    assert(trimmed@ =~= s@.take(keep as int));
    trimmed
}

} // verus!
