//! Character classes and decimal numerals shared by the lexer, the AST printer
//! and the code generator.
use vstd::prelude::*;

verus! {

/// The characters that carry the Unicode `White_Space` property.
pub open spec fn is_white_space(c: char) -> bool {
    let u = c as u32;
    ||| 0x09 <= u <= 0x0D
    ||| u == 0x20
    ||| u == 0x85
    ||| u == 0xA0
    ||| u == 0x1680
    ||| 0x2000 <= u <= 0x200A
    ||| u == 0x2028
    ||| u == 0x2029
    ||| u == 0x202F
    ||| u == 0x205F
    ||| u == 0x3000
}

/// Whether `c` is one of the ten ASCII decimal digits.
pub open spec fn is_digit_char(c: char) -> bool {
    '0' <= c <= '9'
}

/// The numeric value of a decimal digit character.
pub open spec fn digit_value(c: char) -> nat
    recommends
        is_digit_char(c),
{
    (c as u32 - '0' as u32) as nat
}

/// The digit character that stands for `d`, for `d` below ten.
pub open spec fn digit_char(d: nat) -> char
    recommends
        d < 10,
{
    ('0' as u32 + d) as char
}

/// The Unicode `Alphabetic` property, as the standard library tabulates it.
pub uninterp spec fn unicode_alphabetic(c: char) -> bool;

/// `char::is_alphabetic` of the standard library. The property is given by
/// tables of the Unicode character database; the contract only names the
/// result, [`unicode_alphabetic`], so nothing is claimed about any
/// particular character.
pub assume_specification[ char::is_alphabetic ](c: char) -> (r: bool)
    ensures
        r == unicode_alphabetic(c),
;

/// `String::push` of the standard library. The contract says what its
/// documentation says: the string afterwards is the string before with `c`
/// appended to its end.
pub assume_specification[ String::push ](s: &mut String, c: char)
    ensures
        final(s)@ == old(s)@.push(c),
;

/// A character that may continue an identifier: a letter, a decimal digit or
/// an underscore.
pub open spec fn is_word_char(c: char) -> bool {
    unicode_alphabetic(c) || is_digit_char(c) || c == '_'
}

/// The decimal numeral of `n`, without sign or leading zeros.
pub open spec fn decimal(n: nat) -> Seq<char>
    decreases n,
{
    if n < 10 {
        seq![digit_char(n)]
    } else {
        decimal(n / 10).push(digit_char(n % 10))
    }
}

/// The number that a sequence of decimal digits denotes, most significant
/// digit first. The empty sequence denotes zero.
pub open spec fn digits_value(ds: Seq<char>) -> nat
    decreases ds.len(),
{
    if ds.len() == 0 {
        0
    } else {
        digits_value(ds.drop_last()) * 10 + digit_value(ds.last())
    }
}

/// Whether every character of `s` is a decimal digit.
pub open spec fn all_digits(s: Seq<char>) -> bool {
    forall|i: int| 0 <= i < s.len() ==> is_digit_char(#[trigger] s[i])
}

/// Tests for the Unicode `White_Space` property.
pub fn is_whitespace(c: char) -> (r: bool)
    ensures
        r == is_white_space(c),
{
    let u: u32 = c as u32;
    (0x09 <= u && u <= 0x0D) || u == 0x20 || u == 0x85 || u == 0xA0 || u == 0x1680 || (0x2000 <= u
        && u <= 0x200A) || u == 0x2028 || u == 0x2029 || u == 0x202F || u == 0x205F || u == 0x3000
}

/// Tests for an ASCII decimal digit.
pub fn is_decimal_digit(c: char) -> (r: bool)
    ensures
        r == is_digit_char(c),
{
    '0' <= c && c <= '9'
}

/// The value of a decimal digit.
pub fn to_digit(c: char) -> (d: u32)
    requires
        is_digit_char(c),
    ensures
        d == digit_value(c),
        d < 10,
{
    (c as u32) - ('0' as u32)
}

/// The digit character for a value below ten.
pub fn from_digit(d: u8) -> (c: char)
    requires
        d < 10,
    ensures
        c == digit_char(d as nat),
        is_digit_char(c),
        digit_value(c) == d,
{
    (48u8 + d) as char
}

/// Appends the decimal numeral of `n` to `out`.
pub fn push_decimal(out: &mut String, n: u64)
    ensures
        final(out)@ == old(out)@ + decimal(n as nat),
    decreases n,
{
    if n >= 10 {
        push_decimal(out, n / 10);
    }
    out.push(from_digit((n % 10) as u8));
}

/// Concatenation of texts is associative. As a broadcast lemma it brings
/// every concatenation into one shape, so that texts built piece by piece
/// compare equal.
pub broadcast proof fn lemma_text_assoc(a: Seq<char>, b: Seq<char>, c: Seq<char>)
    ensures
        #[trigger] ((a + b) + c) == a + (b + c),
{
    assert((a + b) + c =~= a + (b + c));
}

/// Nothing is appended to a text by the empty text.
pub broadcast proof fn lemma_text_empty(a: Seq<char>)
    ensures
        #[trigger] (a + Seq::<char>::empty()) == a,
        #[trigger] (Seq::<char>::empty() + a) == a,
{
    assert(a + Seq::<char>::empty() =~= a);
    assert(Seq::<char>::empty() + a =~= a);
}

/// Concatenation of sequences of lines is associative.
pub broadcast proof fn lemma_lines_assoc(a: Seq<Seq<char>>, b: Seq<Seq<char>>, c: Seq<Seq<char>>)
    ensures
        #[trigger] ((a + b) + c) == a + (b + c),
{
    assert((a + b) + c =~= a + (b + c));
}

/// Nothing is appended to a sequence of lines by the empty sequence.
pub broadcast proof fn lemma_lines_empty(a: Seq<Seq<char>>)
    ensures
        #[trigger] (a + Seq::<Seq<char>>::empty()) == a,
        #[trigger] (Seq::<Seq<char>>::empty() + a) == a,
{
    assert(a + Seq::<Seq<char>>::empty() =~= a);
    assert(Seq::<Seq<char>>::empty() + a =~= a);
}

/// To push a line is to append the sequence that holds just it.
pub broadcast proof fn lemma_lines_push(a: Seq<Seq<char>>, x: Seq<char>)
    ensures
        #[trigger] a.push(x) == a + seq![x],
{
    assert(a.push(x) =~= a + seq![x]);
}

/// A digit character stands for the digit that it was made of.
pub proof fn lemma_digit_char(d: nat)
    requires
        d < 10,
    ensures
        is_digit_char(digit_char(d)),
        digit_value(digit_char(d)) == d,
{
}

/// The numeral of a number is made of digits, and denotes the number.
pub proof fn lemma_decimal(n: nat)
    ensures
        decimal(n).len() >= 1,
        all_digits(decimal(n)),
        digits_value(decimal(n)) == n,
    decreases n,
{
    if n < 10 {
        lemma_digit_char(n);
        let s = decimal(n);
        assert(s.drop_last() =~= Seq::<char>::empty());
        assert(digits_value(s.drop_last()) == 0);
    } else {
        lemma_decimal(n / 10);
        lemma_digit_char(n % 10);
        let head = decimal(n / 10);
        let s = decimal(n);
        assert(s.drop_last() =~= head);
        assert(s.last() == digit_char(n % 10));
        assert forall|i: int| 0 <= i < s.len() implies is_digit_char(#[trigger] s[i]) by {
            if i < head.len() {
                assert(s[i] == head[i]);
            }
        }
    }
}

/// Two numbers with the same numeral are the same number.
pub proof fn lemma_decimal_injective(a: nat, b: nat)
    requires
        decimal(a) == decimal(b),
    ensures
        a == b,
{
    lemma_decimal(a);
    lemma_decimal(b);
}

} // verus!
