//! Text helpers: character access, ordering of texts, decimal numbers, and the
//! few calls into the standard library's Unicode routines.

use vstd::prelude::*;
use vstd::string::*;

verus! {

/// The text that `str::to_lowercase` returns for `text`.
pub uninterp spec fn lowercase_of(text: Seq<char>) -> Seq<char>;

/// Whether `c` is white space: one of the characters with the Unicode
/// property White_Space.
pub open spec fn is_white_space(c: char) -> bool {
    let code = c as int;
    ||| 0x09 <= code <= 0x0D
    ||| code == 0x20
    ||| code == 0x85
    ||| code == 0xA0
    ||| code == 0x1680
    ||| 0x2000 <= code <= 0x200A
    ||| code == 0x2028
    ||| code == 0x2029
    ||| code == 0x202F
    ||| code == 0x205F
    ||| code == 0x3000
}

/// `text` with every space replaced by an underscore.
pub open spec fn underscored(text: Seq<char>) -> Seq<char> {
    Seq::new(
        text.len(),
        |i: int|
            if text[i] == ' ' {
                '_'
            } else {
                text[i]
            },
    )
}

/// Calls `str::to_lowercase`. Its result is not spelled out here: it is
/// trusted to be a function of the text alone, named `lowercase_of`.
#[verifier::external_body]
pub(crate) fn lowercase(text: &str) -> (lowered: String)
    ensures
        lowered@ == lowercase_of(text@),
{
    text.to_lowercase()
}

/// The code point of a character.
pub fn char_code(c: char) -> (code: u32)
    ensures
        code == c as int,
{
    c as u32
}

/// Whether `c` is white space.
pub fn char_is_whitespace(c: char) -> (white: bool)
    ensures
        white == is_white_space(c),
{
    let code = char_code(c);
    (0x09 <= code && code <= 0x0D) || code == 0x20 || code == 0x85 || code == 0xA0 || code
        == 0x1680 || (0x2000 <= code && code <= 0x200A) || code == 0x2028 || code == 0x2029
        || code == 0x202F || code == 0x205F || code == 0x3000
}

/// The characters of a text, one by one.
pub fn to_chars(text: &str) -> (chars: Vec<char>)
    ensures
        chars@ == text@,
{
    let mut chars: Vec<char> = Vec::new();
    for c in it: text.chars()
        invariant
            chars@ == text@.take(it.index() as int),
            it.seq() == text@,
    {
        chars.push(c);
    }
    chars
}

/// Replaces every space of a text by an underscore.
pub fn spaces_to_underscores(text: &str) -> (replaced: String)
    ensures
        replaced@ == underscored(text@),
{
    let chars = to_chars(text);
    let n = chars.len();
    let mut replaced = String::new();
    let mut start: usize = 0;
    let mut i: usize = 0;
    proof {
        reveal_strlit("_");
        assert(replaced@ =~= underscored(text@.take(0)));
    }
    while i < n
        invariant
            start <= i <= n,
            n == chars@.len(),
            chars@ == text@,
            "_"@ == seq!['_'],
            replaced@ == underscored(text@.take(start as int)),
            forall|j: int| start <= j < i ==> chars@[j] != ' ',
        decreases n - i,
    {
        if chars[i] == ' ' {
            replaced.append(text.substring_char(start, i));
            replaced.append("_");
            proof {
                assert(replaced@ =~= underscored(text@.take(i + 1)));
            }
            start = i + 1;
        }
        i += 1;
    }
    replaced.append(text.substring_char(start, n));
    proof {
        assert(text@.take(n as int) =~= text@);
        assert(replaced@ =~= underscored(text@));
    }
    replaced
}

/// A copy of a list of texts.
pub fn clone_texts(texts: &Vec<String>) -> (copy: Vec<String>)
    ensures
        copy@ == texts@,
{
    let mut copy: Vec<String> = Vec::new();
    let mut i: usize = 0;
    while i < texts.len()
        invariant
            i <= texts.len(),
            copy@ == texts@.take(i as int),
        decreases texts.len() - i,
    {
        copy.push(texts[i].clone());
        i += 1;
    }
    assert(copy@ == texts@);
    copy
}

/// The views of a list of texts.
pub open spec fn text_views(texts: Seq<String>) -> Seq<Seq<char>> {
    Seq::new(texts.len(), |i: int| texts[i]@)
}

// ---------------------------------------------------------------------
// Ordering of texts
// ---------------------------------------------------------------------

/// Lexicographic order by code point: the order of `str` in Rust.
pub open spec fn text_lt(a: Seq<char>, b: Seq<char>) -> bool
    decreases a.len(),
{
    if b.len() == 0 {
        false
    } else if a.len() == 0 {
        true
    } else if a[0] == b[0] {
        text_lt(a.drop_first(), b.drop_first())
    } else {
        (a[0] as int) < (b[0] as int)
    }
}

/// No text comes before itself.
pub proof fn lemma_text_lt_irreflexive(a: Seq<char>)
    ensures
        !text_lt(a, a),
    decreases a.len(),
{
    if a.len() > 0 {
        lemma_text_lt_irreflexive(a.drop_first());
    }
}

/// The order of texts is transitive.
pub proof fn lemma_text_lt_transitive(a: Seq<char>, b: Seq<char>, c: Seq<char>)
    requires
        text_lt(a, b),
        text_lt(b, c),
    ensures
        text_lt(a, c),
    decreases a.len(),
{
    if a.len() > 0 && b.len() > 0 && c.len() > 0 {
        if a[0] == b[0] && b[0] == c[0] {
            lemma_text_lt_transitive(a.drop_first(), b.drop_first(), c.drop_first());
        }
    }
}

/// Of two different texts one comes before the other.
pub proof fn lemma_text_lt_total(a: Seq<char>, b: Seq<char>)
    ensures
        a == b || text_lt(a, b) || text_lt(b, a),
    decreases a.len(),
{
    if a.len() == 0 || b.len() == 0 {
        if a.len() == 0 && b.len() == 0 {
            assert(a =~= b);
        }
    } else if a[0] == b[0] {
        lemma_text_lt_total(a.drop_first(), b.drop_first());
        if a.drop_first() == b.drop_first() {
            assert(a =~= seq![a[0]] + a.drop_first());
            assert(b =~= seq![b[0]] + b.drop_first());
        }
    } else {
        assert(a[0] as int != b[0] as int);
    }
}

/// A text never comes both before and after another.
pub proof fn lemma_text_lt_asymmetric(a: Seq<char>, b: Seq<char>)
    requires
        text_lt(a, b),
    ensures
        !text_lt(b, a),
{
    if text_lt(b, a) {
        lemma_text_lt_transitive(a, b, a);
        lemma_text_lt_irreflexive(a);
    }
}

proof fn lemma_text_lt_skip(a: Seq<char>, b: Seq<char>, i: int)
    requires
        0 <= i < a.len(),
        i < b.len(),
        a[i] == b[i],
    ensures
        text_lt(a.skip(i), b.skip(i)) == text_lt(a.skip(i + 1), b.skip(i + 1)),
{
    assert(a.skip(i).drop_first() =~= a.skip(i + 1));
    assert(b.skip(i).drop_first() =~= b.skip(i + 1));
}

/// Whether the characters `a` come before the characters `b`.
pub fn chars_before(a: &Vec<char>, b: &Vec<char>) -> (before: bool)
    ensures
        before == text_lt(a@, b@),
{
    let mut i: usize = 0;
    assert(a@.skip(0) =~= a@ && b@.skip(0) =~= b@);
    while i < a.len() && i < b.len()
        invariant
            i <= a.len(),
            i <= b.len(),
            text_lt(a@, b@) == text_lt(a@.skip(i as int), b@.skip(i as int)),
        decreases a.len() - i,
    {
        if a[i] != b[i] {
            return char_code(a[i]) < char_code(b[i]);
        }
        proof {
            lemma_text_lt_skip(a@, b@, i as int);
        }
        i += 1;
    }
    i < b.len()
}

/// Whether the text `a` comes before the text `b`.
pub fn text_before(a: &str, b: &str) -> (before: bool)
    ensures
        before == text_lt(a@, b@),
{
    let left = to_chars(a);
    let right = to_chars(b);
    chars_before(&left, &right)
}

// ---------------------------------------------------------------------
// Numbers
// ---------------------------------------------------------------------

/// The number that `c` stands for as a digit: `0` to `9`, then the letters
/// of either case from ten on; 36 for every other character.
pub open spec fn digit_of(c: char) -> int {
    let code = c as int;
    if 48 <= code <= 57 {
        code - 48
    } else if 97 <= code <= 122 {
        code - 87
    } else if 65 <= code <= 90 {
        code - 55
    } else {
        36
    }
}

/// The number that a run of digits writes in the base `radix`.
pub open spec fn number_value(digits: Seq<char>, radix: int) -> int
    decreases digits.len(),
{
    if digits.len() == 0 {
        0
    } else {
        number_value(digits.drop_last(), radix) * radix + digit_of(digits.last())
    }
}

/// Whether every character of `digits` is a digit of the base `radix`.
pub open spec fn all_digits(digits: Seq<char>, radix: int) -> bool {
    forall|i: int| 0 <= i < digits.len() ==> digit_of(#[trigger] digits[i]) < radix
}

/// The digits of a number text: the text without one leading `+`.
pub open spec fn unsigned_digits(text: Seq<char>) -> Seq<char> {
    if text.len() > 0 && text[0] == '+' {
        text.drop_first()
    } else {
        text
    }
}

/// The unsigned 64-bit number that `text` writes in the base `radix`: an
/// optional `+`, then one digit or more, with a value that fits. `None` for
/// every other text.
pub open spec fn radix_u64(text: Seq<char>, radix: int) -> Option<u64> {
    let digits = unsigned_digits(text);
    if digits.len() > 0 && all_digits(digits, radix) && number_value(digits, radix) <= u64::MAX {
        Some(number_value(digits, radix) as u64)
    } else {
        None
    }
}

/// The unsigned 64-bit number that `text` writes in base ten.
pub open spec fn decimal_u64(text: Seq<char>) -> Option<u64> {
    radix_u64(text, 10)
}

/// Whether `text` starts with the hexadecimal marker `0x`.
pub open spec fn has_hex_marker(text: Seq<char>) -> bool {
    text.len() >= 2 && text[0] == '0' && text[1] == 'x'
}

/// The unsigned 64-bit number that `text` writes: in base sixteen after the
/// marker `0x`, else in base ten.
pub open spec fn unsigned_u64(text: Seq<char>) -> Option<u64> {
    if has_hex_marker(text) {
        radix_u64(text.skip(2), 16)
    } else {
        radix_u64(text, 10)
    }
}

proof fn lemma_number_value_bound(digits: Seq<char>, radix: int)
    requires
        1 <= radix,
    ensures
        0 <= number_value(digits, radix),
    decreases digits.len(),
{
    if digits.len() > 0 {
        lemma_number_value_bound(digits.drop_last(), radix);
        let v = number_value(digits.drop_last(), radix);
        assert(v * radix >= 0) by (nonlinear_arith)
            requires
                v >= 0,
                radix >= 1,
        ;
    }
}

proof fn lemma_number_value_prefix(digits: Seq<char>, radix: int, n: int)
    requires
        0 <= n <= digits.len(),
        1 <= radix,
    ensures
        0 <= number_value(digits.take(n), radix) <= number_value(digits, radix),
    decreases digits.len() - n,
{
    lemma_number_value_bound(digits.take(n), radix);
    if n < digits.len() {
        lemma_number_value_prefix(digits, radix, n + 1);
        assert(digits.take(n + 1).drop_last() =~= digits.take(n));
        let v = number_value(digits.take(n), radix);
        assert(v * radix >= v) by (nonlinear_arith)
            requires
                v >= 0,
                radix >= 1,
        ;
    } else {
        assert(digits.take(n) =~= digits);
    }
}

/// The digit that `c` stands for; 36 where it stands for none.
pub fn digit(c: char) -> (d: u64)
    ensures
        d == digit_of(c),
{
    let code = char_code(c);
    if 48 <= code && code <= 57 {
        (code - 48) as u64
    } else if 97 <= code && code <= 122 {
        (code - 87) as u64
    } else if 65 <= code && code <= 90 {
        (code - 55) as u64
    } else {
        36
    }
}

/// Reads the unsigned number that the characters from `from` on write in
/// the base `radix`.
pub fn parse_radix_u64(chars: &Vec<char>, from: usize, radix: u64) -> (number: Option<u64>)
    requires
        from <= chars@.len(),
        2 <= radix <= 36,
    ensures
        number == radix_u64(chars@.skip(from as int), radix as int),
{
    let start: usize = if chars.len() > from && chars[from] == '+' {
        from + 1
    } else {
        from
    };
    let ghost text = chars@.skip(from as int);
    let ghost digits = unsigned_digits(text);
    assert(digits =~= chars@.skip(start as int));
    if chars.len() == start {
        return None;
    }
    let mut value: u64 = 0;
    let mut i: usize = start;
    assert(digits.take(0) =~= Seq::<char>::empty());
    while i < chars.len()
        invariant
            start <= i <= chars@.len(),
            2 <= radix <= 36,
            text == chars@.skip(from as int),
            digits == chars@.skip(start as int),
            digits == unsigned_digits(text),
            all_digits(digits.take(i - start), radix as int),
            value == number_value(digits.take(i - start), radix as int),
        decreases chars@.len() - i,
    {
        let d = digit(chars[i]);
        let ghost next = digits.take(i - start + 1);
        proof {
            assert(next.drop_last() =~= digits.take(i - start));
            assert(next.last() == chars@[i as int]);
        }
        if d >= radix {
            assert(digits[i - start] == chars@[i as int]);
            return None;
        }
        assert(value as u128 * radix as u128 <= 0xFFFF_FFFF_FFFF_FFFFu128 * 36) by (nonlinear_arith)
            requires
                value <= 0xFFFF_FFFF_FFFF_FFFFu64,
                radix <= 36,
        ;
        let wide: u128 = value as u128 * radix as u128 + d as u128;
        assert(wide == number_value(next, radix as int));
        if wide > 0xFFFF_FFFF_FFFF_FFFFu128 {
            proof {
                lemma_number_value_prefix(digits, radix as int, i - start + 1);
            }
            return None;
        }
        value = wide as u64;
        proof {
            assert forall|j: int| 0 <= j < next.len() implies digit_of(#[trigger] next[j])
                < radix by {
                if j < next.len() - 1 {
                    assert(next[j] == digits.take(i - start)[j]);
                }
            }
        }
        i += 1;
    }
    assert(digits.take(i - start) =~= digits);
    Some(value)
}

/// Reads an unsigned decimal number.
pub fn parse_decimal_u64(text: &str) -> (number: Option<u64>)
    ensures
        number == decimal_u64(text@),
{
    let chars = to_chars(text);
    assert(chars@.skip(0) =~= chars@);
    parse_radix_u64(&chars, 0, 10)
}

/// Reads an unsigned number: hexadecimal after the marker `0x`, else
/// decimal.
pub fn parse_unsigned_u64(text: &str) -> (number: Option<u64>)
    ensures
        number == unsigned_u64(text@),
{
    let chars = to_chars(text);
    if chars.len() >= 2 && chars[0] == '0' && chars[1] == 'x' {
        parse_radix_u64(&chars, 2, 16)
    } else {
        assert(chars@.skip(0) =~= chars@);
        parse_radix_u64(&chars, 0, 10)
    }
}

} // verus!
