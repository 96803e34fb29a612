//! Texts: decimal and hexadecimal numerals, the byte order of strings, and tests on characters.

use vstd::prelude::*;
use vstd::string::*;
use vstd::utf8::*;

verus! {

/// The numeral of one digit.
pub open spec fn digit_char(d: nat) -> char {
    if d < 10 {
        ('0' as nat + d) as char
    } else {
        ('a' as nat + (d - 10)) as char
    }
}

/// `n` written in decimal, without leading zeros.
pub open spec fn decimal(n: nat) -> Seq<char>
    decreases n,
{
    if n < 10 {
        seq![digit_char(n)]
    } else {
        decimal(n / 10).push(digit_char(n % 10))
    }
}

/// The last `width` hexadecimal digits of `n`, in lower case.
pub open spec fn hexadecimal(n: nat, width: nat) -> Seq<char>
    decreases width,
{
    if width == 0 {
        Seq::empty()
    } else {
        hexadecimal(n / 16, (width - 1) as nat).push(digit_char(n % 16))
    }
}

fn digit_text(d: u8) -> (r: &'static str)
    requires
        d < 16,
    ensures
        r@ == seq![digit_char(d as nat)],
{
    proof {
        reveal_strlit("0");
        reveal_strlit("1");
        reveal_strlit("2");
        reveal_strlit("3");
        reveal_strlit("4");
        reveal_strlit("5");
        reveal_strlit("6");
        reveal_strlit("7");
        reveal_strlit("8");
        reveal_strlit("9");
        reveal_strlit("a");
        reveal_strlit("b");
        reveal_strlit("c");
        reveal_strlit("d");
        reveal_strlit("e");
        reveal_strlit("f");
    }
    match d {
        0 => "0",
        1 => "1",
        2 => "2",
        3 => "3",
        4 => "4",
        5 => "5",
        6 => "6",
        7 => "7",
        8 => "8",
        9 => "9",
        10 => "a",
        11 => "b",
        12 => "c",
        13 => "d",
        14 => "e",
        _ => "f",
    }
}

/// Writes `n` in decimal.
pub fn decimal_text(n: u64) -> (r: String)
    ensures
        r@ == decimal(n as nat),
    decreases n,
{
    if n < 10 {
        digit_text(n as u8).to_owned()
    } else {
        let last: &str = digit_text((n % 10) as u8);
        let r = decimal_text(n / 10).concat(last);
        assert(r@ =~= decimal(n as nat));
        r
    }
}

/// Writes the last `width` hexadecimal digits of `n`.
pub fn hexadecimal_text(n: u128, width: u8) -> (r: String)
    ensures
        r@ == hexadecimal(n as nat, width as nat),
    decreases width,
{
    if width == 0 {
        let r = String::new();
        assert(r@ =~= hexadecimal(n as nat, 0));
        r
    } else {
        let last: &str = digit_text((n % 16) as u8);
        let r = hexadecimal_text(n / 16, width - 1).concat(last);
        assert(r@ =~= hexadecimal(n as nat, width as nat));
        r
    }
}

/// `a` comes before `b` in the lexicographic order of byte strings.
pub open spec fn bytes_lt(a: Seq<u8>, b: Seq<u8>) -> bool
    decreases a.len(),
{
    if b.len() == 0 {
        false
    } else if a.len() == 0 {
        true
    } else if a[0] != b[0] {
        a[0] < b[0]
    } else {
        bytes_lt(a.skip(1), b.skip(1))
    }
}

/// `a` comes before `b` in the order of strings: that of their UTF-8 bytes.
pub open spec fn text_lt(a: Seq<char>, b: Seq<char>) -> bool {
    bytes_lt(encode_utf8(a), encode_utf8(b))
}

/// The order of byte strings: none comes before itself.
pub proof fn lemma_bytes_lt_irreflexive(a: Seq<u8>)
    ensures
        !bytes_lt(a, a),
    decreases a.len(),
{
    if a.len() > 0 {
        lemma_bytes_lt_irreflexive(a.skip(1));
    }
}

/// The order of byte strings: it is transitive.
pub proof fn lemma_bytes_lt_transitive(a: Seq<u8>, b: Seq<u8>, c: Seq<u8>)
    requires
        bytes_lt(a, b),
        bytes_lt(b, c),
    ensures
        bytes_lt(a, c),
    decreases a.len(),
{
    if a.len() > 0 && a[0] == b[0] && b[0] == c[0] {
        lemma_bytes_lt_transitive(a.skip(1), b.skip(1), c.skip(1));
    }
}

/// The order of byte strings: of two different ones, one comes before the other.
pub proof fn lemma_bytes_lt_total(a: Seq<u8>, b: Seq<u8>)
    ensures
        bytes_lt(a, b) || bytes_lt(b, a) || a == b,
    decreases a.len(),
{
    if a.len() > 0 && b.len() > 0 && a[0] == b[0] {
        lemma_bytes_lt_total(a.skip(1), b.skip(1));
        if a.skip(1) == b.skip(1) {
            assert(a =~= seq![a[0]] + a.skip(1));
            assert(b =~= seq![b[0]] + b.skip(1));
        }
    } else if a.len() == 0 && b.len() == 0 {
        assert(a =~= b);
    }
}

/// No text comes before itself.
pub proof fn lemma_text_lt_irreflexive(a: Seq<char>)
    ensures
        !text_lt(a, a),
{
    lemma_bytes_lt_irreflexive(encode_utf8(a));
}

/// The order of texts is transitive.
pub proof fn lemma_text_lt_transitive(a: Seq<char>, b: Seq<char>, c: Seq<char>)
    requires
        text_lt(a, b),
        text_lt(b, c),
    ensures
        text_lt(a, c),
{
    lemma_bytes_lt_transitive(encode_utf8(a), encode_utf8(b), encode_utf8(c));
}

/// Of two different texts one comes before the other.
pub proof fn lemma_text_lt_total(a: Seq<char>, b: Seq<char>)
    ensures
        text_lt(a, b) || text_lt(b, a) || a == b,
{
    lemma_bytes_lt_total(encode_utf8(a), encode_utf8(b));
    if encode_utf8(a) == encode_utf8(b) {
        encode_utf8_decode_utf8(a);
        encode_utf8_decode_utf8(b);
    }
}

/// `a` comes before `b` in the lexicographic order of lists of texts.
pub open spec fn parts_lt(a: Seq<Seq<char>>, b: Seq<Seq<char>>) -> bool
    decreases a.len(),
{
    if b.len() == 0 {
        false
    } else if a.len() == 0 {
        true
    } else if a[0] != b[0] {
        text_lt(a[0], b[0])
    } else {
        parts_lt(a.skip(1), b.skip(1))
    }
}

/// Single texts are ordered as texts.
pub proof fn lemma_parts_lt_single(a: Seq<char>, b: Seq<char>)
    ensures
        parts_lt(seq![a], seq![b]) == text_lt(a, b),
{
    lemma_text_lt_irreflexive(a);
    assert(seq![a].skip(1).len() == 0);
    assert(seq![b].skip(1).len() == 0);
    reveal_with_fuel(parts_lt, 2);
}

/// Pairs are ordered by the first text, then by the second.
pub proof fn lemma_parts_lt_pair(a: Seq<char>, b: Seq<char>, c: Seq<char>, d: Seq<char>)
    ensures
        parts_lt(seq![a, b], seq![c, d]) == (text_lt(a, c) || (a == c && text_lt(b, d))),
{
    lemma_text_lt_irreflexive(a);
    lemma_parts_lt_single(b, d);
    assert(seq![a, b].skip(1) =~= seq![b]);
    assert(seq![c, d].skip(1) =~= seq![d]);
}

/// No list of texts comes before itself.
pub proof fn lemma_parts_lt_irreflexive(a: Seq<Seq<char>>)
    ensures
        !parts_lt(a, a),
    decreases a.len(),
{
    if a.len() > 0 {
        lemma_parts_lt_irreflexive(a.skip(1));
    }
}

/// The order of lists of texts is transitive.
pub proof fn lemma_parts_lt_transitive(a: Seq<Seq<char>>, b: Seq<Seq<char>>, c: Seq<Seq<char>>)
    requires
        parts_lt(a, b),
        parts_lt(b, c),
    ensures
        parts_lt(a, c),
    decreases a.len(),
{
    if a.len() > 0 {
        if a[0] == b[0] && b[0] == c[0] {
            lemma_parts_lt_transitive(a.skip(1), b.skip(1), c.skip(1));
        } else if a[0] != b[0] && b[0] != c[0] {
            lemma_text_lt_transitive(a[0], b[0], c[0]);
            if a[0] == c[0] {
                lemma_text_lt_irreflexive(a[0]);
            }
        }
    }
}

/// Of two different lists of texts one comes before the other.
pub proof fn lemma_parts_lt_total(a: Seq<Seq<char>>, b: Seq<Seq<char>>)
    ensures
        parts_lt(a, b) || parts_lt(b, a) || a == b,
    decreases a.len(),
{
    if a.len() > 0 && b.len() > 0 {
        if a[0] == b[0] {
            lemma_parts_lt_total(a.skip(1), b.skip(1));
            if a.skip(1) == b.skip(1) {
                assert(a =~= seq![a[0]] + a.skip(1));
                assert(b =~= seq![b[0]] + b.skip(1));
            }
        } else {
            lemma_text_lt_total(a[0], b[0]);
        }
    } else if a.len() == 0 && b.len() == 0 {
        assert(a =~= b);
    }
}

/// Whether `a` comes before `b` in the order of strings.
pub fn text_precedes(a: &str, b: &str) -> (r: bool)
    ensures
        r == text_lt(a@, b@),
{
    slices_precede(a.as_bytes(), b.as_bytes())
}

/// Whether `x` comes before `y` in the order of byte strings.
pub fn bytes_precede(x: &Vec<u8>, y: &Vec<u8>) -> (r: bool)
    ensures
        r == bytes_lt(x@, y@),
{
    slices_precede(x.as_slice(), y.as_slice())
}

fn slices_precede(x: &[u8], y: &[u8]) -> (r: bool)
    ensures
        r == bytes_lt(x@, y@),
{
    let mut i: usize = 0;
    proof {
        assert(x@.skip(0) =~= x@);
        assert(y@.skip(0) =~= y@);
    }
    while i < x.len() && i < y.len() && x[i] == y[i]
        invariant
            i <= x@.len(),
            i <= y@.len(),
            bytes_lt(x@, y@) == bytes_lt(x@.skip(i as int), y@.skip(i as int)),
        decreases x@.len() - i,
    {
        proof {
            assert(x@.skip(i as int).skip(1) =~= x@.skip(i + 1));
            assert(y@.skip(i as int).skip(1) =~= y@.skip(i + 1));
        }
        i = i + 1;
    }
    if i == y.len() {
        false
    } else if i == x.len() {
        true
    } else {
        x[i] < y[i]
    }
}

/// Whether two strings hold the same text.
pub fn text_same(a: &str, b: &str) -> (r: bool)
    ensures
        r == (a@ == b@),
{
    let x: &[u8] = a.as_bytes();
    let y: &[u8] = b.as_bytes();
    if x.len() != y.len() {
        return false;
    }
    let mut i: usize = 0;
    while i < x.len()
        invariant
            i <= x@.len(),
            x@.len() == y@.len(),
            forall|k: int| 0 <= k < i ==> x@[k] == y@[k],
            x@ == encode_utf8(a@),
            y@ == encode_utf8(b@),
        decreases x@.len() - i,
    {
        if x[i] != y[i] {
            return false;
        }
        i = i + 1;
    }
    proof {
        assert(x@ =~= y@);
        encode_utf8_decode_utf8(a@);
        encode_utf8_decode_utf8(b@);
    }
    true
}

/// The length of a text in bytes of UTF-8.
pub open spec fn byte_len(text: Seq<char>) -> nat {
    encode_utf8(text).len()
}

/// The length of a text in bytes.
pub fn byte_length(text: &str) -> (r: usize)
    ensures
        r == byte_len(text@),
{
    text.as_bytes().len()
}

/// An ASCII letter or digit, `_`, `.` or `-`, or a colon where colons are allowed.
pub open spec fn identifier_char(c: char, colon: bool) -> bool {
    ||| 'a' <= c <= 'z'
    ||| 'A' <= c <= 'Z'
    ||| '0' <= c <= '9'
    ||| c == '_'
    ||| c == '.'
    ||| c == '-'
    ||| colon && c == ':'
}

/// All characters of the text may stand in an identifier.
pub open spec fn identifier_text(text: Seq<char>, colon: bool) -> bool {
    forall|i: int| 0 <= i < text.len() ==> identifier_char(#[trigger] text[i], colon)
}

/// Whether all characters of a text may stand in an identifier.
pub fn is_identifier_text(text: &str, colon: bool) -> (r: bool)
    ensures
        r == identifier_text(text@, colon),
{
    broadcast use is_ascii_spec_bytes;

    if !text.is_ascii() {
        proof {
            if identifier_text(text@, colon) {
                assert forall|i: int| 0 <= i < text@.len() implies '\0' <= #[trigger] text@[i]
                    <= '\u{7f}' by {
                    assert(identifier_char(text@[i], colon));
                }
            }
        }
        return false;
    }
    let bytes: &[u8] = text.as_bytes();
    let mut i: usize = 0;
    while i < bytes.len()
        invariant
            i <= bytes@.len(),
            bytes@.len() == text@.len(),
            is_ascii_chars(text@),
            bytes@ == Seq::new(text@.len(), |k: int| text@[k] as u8),
            forall|k: int| 0 <= k < i ==> identifier_char(#[trigger] text@[k], colon),
        decreases bytes@.len() - i,
    {
        let b: u8 = bytes[i];
        proof {
            assert(b == text@[i as int] as u8);
        }
        let fits = (b >= 97 && b <= 122) || (b >= 65 && b <= 90) || (b >= 48 && b <= 57) || b == 95
            || b == 46 || b == 45 || (colon && b == 58);
        if !fits {
            assert(!identifier_char(text@[i as int], colon));
            return false;
        }
        i = i + 1;
    }
    true
}

/// A control character.
pub open spec fn control_char(c: char) -> bool {
    c as u32 <= 0x1f || 0x7f <= c as u32 <= 0x9f
}

/// A white-space character of Unicode.
pub open spec fn whitespace_char(c: char) -> bool {
    ||| 0x09 <= c as u32 <= 0x0d
    ||| c as u32 == 0x20
    ||| c as u32 == 0x85
    ||| c as u32 == 0xa0
    ||| c as u32 == 0x1680
    ||| 0x2000 <= c as u32 <= 0x200a
    ||| c as u32 == 0x2028
    ||| c as u32 == 0x2029
    ||| c as u32 == 0x202f
    ||| c as u32 == 0x205f
    ||| c as u32 == 0x3000
}

/// Some character of the text is a control character, or white space where that counts.
pub open spec fn has_special_char(text: Seq<char>, count_whitespace: bool) -> bool {
    exists|i: int|
        0 <= i < text.len() && (control_char(#[trigger] text[i]) || (count_whitespace
            && whitespace_char(text[i])))
}

/// Whether some character of a text is a control character, or white space where that counts.
pub fn contains_special_char(text: &str, count_whitespace: bool) -> (r: bool)
    ensures
        r == has_special_char(text@, count_whitespace),
{
    let n: usize = text.unicode_len();
    let mut i: usize = 0;
    while i < n
        invariant
            i <= n,
            n == text@.len(),
            forall|k: int|
                0 <= k < i ==> !(control_char(#[trigger] text@[k]) || (count_whitespace
                    && whitespace_char(text@[k]))),
        decreases n - i,
    {
        let c: u32 = text.get_char(i) as u32;
        let control = c <= 0x1f || (c >= 0x7f && c <= 0x9f);
        let white = (c >= 0x09 && c <= 0x0d) || c == 0x20 || c == 0x85 || c == 0xa0 || c == 0x1680
            || (c >= 0x2000 && c <= 0x200a) || c == 0x2028 || c == 0x2029 || c == 0x202f || c == 0x205f
            || c == 0x3000;
        if control || (count_whitespace && white) {
            return true;
        }
        i = i + 1;
    }
    false
}

/// The rest of a text behind a prefix, where it has the prefix.
pub open spec fn without_prefix(text: Seq<char>, prefix: Seq<char>) -> Option<Seq<char>> {
    if prefix.len() <= text.len() && text.take(prefix.len() as int) == prefix {
        Some(text.skip(prefix.len() as int))
    } else {
        None
    }
}

/// The rest of a text behind a prefix, where it has the prefix.
pub fn strip_prefix<'a>(text: &'a str, prefix: &str) -> (r: Option<&'a str>)
    ensures
        match r {
            Some(rest) => without_prefix(text@, prefix@) == Some(rest@),
            None => without_prefix(text@, prefix@) is None,
        },
{
    let n: usize = text.unicode_len();
    let m: usize = prefix.unicode_len();
    if m > n {
        return None;
    }
    let head = text.substring_char(0, m);
    if !text_same(head, prefix) {
        assert(text@.subrange(0, m as int) =~= text@.take(m as int));
        return None;
    }
    let rest = text.substring_char(m, n);
    assert(text@.subrange(0, m as int) =~= text@.take(m as int));
    assert(rest@ =~= text@.skip(m as int));
    Some(rest)
}

/// All characters are decimal digits.
pub open spec fn all_digits(text: Seq<char>) -> bool {
    forall|i: int| 0 <= i < text.len() ==> '0' <= (#[trigger] text[i]) <= '9'
}

/// The number that decimal digits stand for.
pub open spec fn digits_value(text: Seq<char>) -> nat
    decreases text.len(),
{
    if text.len() == 0 {
        0
    } else {
        digits_value(text.drop_last()) * 10 + (text.last() as u32 - '0' as u32) as nat
    }
}

/// The text without its sign, where it has one.
pub open spec fn without_sign(text: Seq<char>) -> Seq<char> {
    if text.len() > 0 && (text[0] == '+' || text[0] == '-') {
        text.skip(1)
    } else {
        text
    }
}

/// The signed number of 64 bits that a text of an optional sign and decimal digits stands for.
pub open spec fn signed_number(text: Seq<char>) -> Option<i64> {
    let digits = without_sign(text);
    if digits.len() == 0 || !all_digits(digits) {
        None
    } else {
        let value = if text[0] == '-' {
            -(digits_value(digits) as int)
        } else {
            digits_value(digits) as int
        };
        if i64::MIN <= value <= i64::MAX {
            Some(value as i64)
        } else {
            None
        }
    }
}

/// The signed number of 64 bits that a text stands for.
pub fn parse_signed_number(text: &str) -> (r: Option<i64>)
    ensures
        r == signed_number(text@),
{
    let n: usize = text.unicode_len();
    if n == 0 {
        return None;
    }
    let lead = text.get_char(0);
    let start: usize = if lead == '+' || lead == '-' {
        1
    } else {
        0
    };
    let ghost digits = without_sign(text@);
    let cap: i128 = 100_000_000_000_000_000_000;
    let mut value: i128 = 0;
    let mut i: usize = start;
    proof {
        assert(digits =~= text@.skip(start as int));
        assert(digits.take(0) =~= Seq::<char>::empty());
    }
    if start == n {
        return None;
    }
    while i < n
        invariant
            start <= i <= n,
            start <= 1,
            n == text@.len(),
            digits == text@.skip(start as int),
            digits == without_sign(text@),
            cap == 100_000_000_000_000_000_000,
            forall|k: int|
                0 <= k < i - start ==> '0' <= (#[trigger] digits[k]) <= '9',
            0 <= value <= cap,
            value < cap ==> digits_value(digits.take(i - start)) == value,
            value == cap ==> digits_value(digits.take(i - start)) >= cap,
        decreases n - i,
    {
        let c: u32 = text.get_char(i) as u32;
        proof {
            assert(digits[i - start] == text@[i as int]);
        }
        if c < 48 || c > 57 {
            assert(!all_digits(digits)) by {
                assert(!('0' <= digits[i - start] <= '9'));
            }
            return None;
        }
        proof {
            let longer = digits.take(i + 1 - start);
            assert(longer.drop_last() =~= digits.take(i - start));
            assert(longer.last() == text@[i as int]);
        }
        let next: i128 = value * 10 + (c - 48) as i128;
        value = if next < cap {
            next
        } else {
            cap
        };
        i = i + 1;
    }
    proof {
        assert(digits.take(n - start) =~= digits);
    }
    if lead == '-' {
        if value <= 9_223_372_036_854_775_808 {
            Some((-value) as i64)
        } else {
            None
        }
    } else if value <= 9_223_372_036_854_775_807 {
        Some(value as i64)
    } else {
        None
    }
}

/// A number that was written in decimal reads as that number: there are digits alone, the first of
/// them is not zero unless the number is, and a sign before them is read as one.
pub proof fn law_decimal_reads_back(n: nat)
    ensures
        decimal(n).len() > 0,
        all_digits(decimal(n)),
        digits_value(decimal(n)) == n,
        n > 0 ==> decimal(n)[0] != '0',
        n <= i64::MAX ==> signed_number(decimal(n)) == Some(n as i64),
        n <= i64::MAX ==> signed_number(seq!['-'] + decimal(n)) == Some((-n) as i64),
        n <= i64::MAX ==> signed_number(seq!['+'] + decimal(n)) == Some(n as i64),
        n > i64::MAX ==> signed_number(decimal(n)) is None,
    decreases n,
{
    if n >= 10 {
        law_decimal_reads_back(n / 10);
        assert(decimal(n).drop_last() =~= decimal(n / 10));
        assert(decimal(n)[0] == decimal(n / 10)[0]);
        assert(decimal(n).last() == digit_char(n % 10));
        assert(digit_char(n % 10) as u32 - '0' as u32 == n % 10);
        assert(digits_value(decimal(n)) == digits_value(decimal(n / 10)) * 10 + n % 10);
    } else {
        assert(decimal(n).drop_last() =~= Seq::<char>::empty());
        assert(decimal(n).last() == digit_char(n));
        assert(digit_char(n) as u32 - '0' as u32 == n);
        assert(digits_value(Seq::<char>::empty()) == 0);
        assert(digits_value(decimal(n)) == n);
    }
    let first = decimal(n)[0];
    assert('0' <= first <= '9');
    assert(without_sign(decimal(n)) == decimal(n));
    assert((seq!['-'] + decimal(n)).skip(1) =~= decimal(n));
    assert((seq!['+'] + decimal(n)).skip(1) =~= decimal(n));
    assert(!((seq!['+'] + decimal(n))[0] == '-'));
}

/// The number that a hexadecimal digit stands for.
pub open spec fn digit_worth(c: char) -> int {
    if '0' <= c <= '9' {
        c as int - '0' as int
    } else {
        c as int - 'a' as int + 10
    }
}

/// A byte is written as two digits, the higher one first.
pub proof fn law_hexadecimal_bytes(n: nat)
    requires
        n < 256,
    ensures
        hexadecimal(n, 2).len() == 2,
        forall|i: int|
            0 <= i < 2 ==> '0' <= (#[trigger] hexadecimal(n, 2)[i]) <= '9' || 'a' <= hexadecimal(
                n,
                2,
            )[i] <= 'f',
        digit_worth(hexadecimal(n, 2)[0]) * 16 + digit_worth(hexadecimal(n, 2)[1]) == n,
{
    reveal_with_fuel(hexadecimal, 3);
    assert(hexadecimal(n, 2)[0] == digit_char(n / 16 % 16));
    assert(hexadecimal(n, 2)[1] == digit_char(n % 16));
}

/// What is left without a prefix is what the prefix stands before.
pub proof fn law_prefix_is_cut_off(text: Seq<char>, prefix: Seq<char>, rest: Seq<char>)
    ensures
        without_prefix(text, prefix) == Some(rest) <==> text == prefix + rest,
{
    if text == prefix + rest {
        assert(text.take(prefix.len() as int) =~= prefix);
        assert(text.skip(prefix.len() as int) =~= rest);
    }
    if without_prefix(text, prefix) == Some(rest) {
        assert(text =~= prefix + rest);
    }
}

/// Texts are ordered as their bytes are: one that another begins with comes before it, and else the
/// first byte in which they differ decides.
pub proof fn law_bytes_are_ordered_by_the_first_difference(a: Seq<u8>, b: Seq<u8>, n: nat)
    requires
        n <= a.len(),
        n <= b.len(),
        forall|i: int| 0 <= i < n ==> #[trigger] a[i] == b[i],
    ensures
        n == a.len() && n < b.len() ==> bytes_lt(a, b) && !bytes_lt(b, a),
        n < a.len() && n < b.len() && a[n as int] < b[n as int] ==> bytes_lt(a, b) && !bytes_lt(
            b,
            a,
        ),
    decreases n,
{
    if n > 0 {
        assert(a[0] == b[0]);
        assert forall|i: int| 0 <= i < n - 1 implies #[trigger] a.skip(1)[i] == b.skip(1)[i] by {
            assert(a[i + 1] == b[i + 1]);
        }
        law_bytes_are_ordered_by_the_first_difference(a.skip(1), b.skip(1), (n - 1) as nat);
    }
}

} // verus!
