//! Decimal text of integers: what a literal denotes, and how a value is
//! written.

use vstd::prelude::*;

verus! {

/// The ASCII decimal digits.
pub open spec fn is_digit(c: char) -> bool {
    '0' <= c <= '9'
}

/// The value of a decimal digit.
pub open spec fn digit_value(c: char) -> nat {
    (c as int - '0' as int) as nat
}

/// The digit that stands for `d`, for `d` below ten.
pub open spec fn digit_char(d: nat) -> char {
    if d == 0 {
        '0'
    } else if d == 1 {
        '1'
    } else if d == 2 {
        '2'
    } else if d == 3 {
        '3'
    } else if d == 4 {
        '4'
    } else if d == 5 {
        '5'
    } else if d == 6 {
        '6'
    } else if d == 7 {
        '7'
    } else if d == 8 {
        '8'
    } else {
        '9'
    }
}

/// Whether every character of `s` is a decimal digit.
pub open spec fn all_digits(s: Seq<char>) -> bool {
    forall|i: int| 0 <= i < s.len() ==> is_digit(#[trigger] s[i])
}

/// The number that a run of decimal digits denotes, most significant digit
/// first. The empty run denotes zero.
pub open spec fn digits_value(s: Seq<char>) -> nat
    decreases s.len(),
{
    if s.len() == 0 {
        0
    } else {
        digits_value(s.drop_last()) * 10 + digit_value(s.last())
    }
}

/// The shortest run of digits that denotes `n`.
pub open spec fn decimal_text(n: nat) -> Seq<char>
    decreases n,
{
    if n < 10 {
        seq![digit_char(n)]
    } else {
        decimal_text(n / 10).push(digit_char(n % 10))
    }
}

/// Whether `s` starts with a sign character.
pub open spec fn has_sign(s: Seq<char>) -> bool {
    s.len() > 0 && (s[0] == '-' || s[0] == '+')
}

/// The digits of a literal: the text without its sign.
pub open spec fn literal_digits(s: Seq<char>) -> Seq<char> {
    if has_sign(s) {
        s.drop_first()
    } else {
        s
    }
}

/// An integer literal is an optional `+` or `-` followed by one or more
/// decimal digits and nothing else.
pub open spec fn is_integer_literal(s: Seq<char>) -> bool {
    literal_digits(s).len() > 0 && all_digits(literal_digits(s))
}

/// The integer that a literal denotes.
pub open spec fn literal_value(s: Seq<char>) -> int {
    if s.len() > 0 && s[0] == '-' {
        -(digits_value(literal_digits(s)) as int)
    } else {
        digits_value(literal_digits(s)) as int
    }
}

/// Whether `s` is a literal whose value a 128-bit signed integer can hold.
pub open spec fn is_i128_literal(s: Seq<char>) -> bool {
    is_integer_literal(s) && i128::MIN <= literal_value(s) <= i128::MAX
}

/// The canonical text of an integer: a `-` for a negative value, then the
/// shortest run of digits for its magnitude.
pub open spec fn integer_text(v: int) -> Seq<char> {
    if v < 0 {
        seq!['-'] + decimal_text((-v) as nat)
    } else {
        decimal_text(v as nat)
    }
}

/// `char::is_ascii_digit` of std: true exactly for the characters `'0'` to
/// `'9'`, as its documentation lists them.
pub assume_specification[ char::is_ascii_digit ](c: &char) -> (r: bool)
    ensures
        r == is_digit(*c),
;

/// `String::push` of std: the character is appended at the end and nothing
/// else changes.
pub assume_specification[ String::push ](s: &mut String, c: char)
    ensures
        final(s)@ == old(s)@.push(c),
;

/// The message with which std rejects the text `text` as a 128-bit integer.
/// Only defined by what `str::parse` reports; the library passes it on.
pub uninterp spec fn number_error_detail(text: Seq<char>) -> Seq<char>;

/// `str::parse::<i128>` of std, with the error rendered by its `to_string`.
///
/// The documentation of `i128::from_str` gives the accepted texts: an
/// optional `+` or `-` sign followed by decimal digits only, denoting a
/// value within the type's range. Anything else (an empty text, a sign
/// alone, any other character, a value out of range) is an error. The
/// wording of the error is std's own and is only named here.
#[verifier::external_body]
pub(crate) fn parse_i128(text: &str) -> (r: Result<i128, String>)
    ensures
        r is Ok <==> is_i128_literal(text@),
        r matches Ok(v) ==> v == literal_value(text@),
        r matches Err(detail) ==> detail@ == number_error_detail(text@),
{
    match text.parse::<i128>() {
        Ok(v) => Ok(v),
        Err(e) => Err(e.to_string()),
    }
}

/// The digit character for a value below ten.
fn digit_of(d: u8) -> (c: char)
    requires
        d < 10,
    ensures
        c == digit_char(d as nat),
{
    if d == 0 {
        '0'
    } else if d == 1 {
        '1'
    } else if d == 2 {
        '2'
    } else if d == 3 {
        '3'
    } else if d == 4 {
        '4'
    } else if d == 5 {
        '5'
    } else if d == 6 {
        '6'
    } else if d == 7 {
        '7'
    } else if d == 8 {
        '8'
    } else {
        '9'
    }
}

/// Appends the decimal text of `n` to `out`.
pub fn push_decimal(n: u128, out: &mut String)
    ensures
        final(out)@ == old(out)@ + decimal_text(n as nat),
    decreases n,
{
    if n >= 10 {
        push_decimal(n / 10, out);
    }
    let d: u8 = (n % 10) as u8;
    out.push(digit_of(d));
    proof {
        let shown = decimal_text(n as nat);
        if n >= 10 {
            assert(old(out)@ + shown =~= (old(out)@ + decimal_text((n / 10) as nat)).push(
                digit_char((n % 10) as nat),
            ));
        } else {
            assert(old(out)@ + shown =~= old(out)@.push(digit_char(n as nat)));
        }
    }
}

/// Appends the canonical text of `v` to `out`.
pub fn push_integer(v: i128, out: &mut String)
    ensures
        final(out)@ == old(out)@ + integer_text(v as int),
{
    if v < 0 {
        out.push('-');
        let magnitude: u128 = ((-(v + 1)) as u128) + 1;
        push_decimal(magnitude, out);
        assert(final(out)@ =~= old(out)@ + integer_text(v as int));
    } else {
        push_decimal(v as u128, out);
    }
}

/// The decimal text of a number is a non-empty run of digits that denotes
/// that number.
pub proof fn lemma_decimal_text(n: nat)
    ensures
        decimal_text(n).len() > 0,
        all_digits(decimal_text(n)),
        digits_value(decimal_text(n)) == n,
    decreases n,
{
    if n < 10 {
        let t = decimal_text(n);
        assert(t.drop_last() =~= Seq::<char>::empty());
        assert(digits_value(t.drop_last()) == 0);
        assert(t.last() == digit_char(n));
    } else {
        lemma_decimal_text(n / 10);
        let head = decimal_text(n / 10);
        let t = decimal_text(n);
        assert(t.drop_last() =~= head);
        assert(t.last() == digit_char(n % 10));
        assert forall|i: int| 0 <= i < t.len() implies is_digit(#[trigger] t[i]) by {
            if i < head.len() {
                assert(t[i] == head[i]);
            }
        }
    }
}

/// Writing an integer and reading the text back gives the integer: the
/// canonical text of `v` is a literal, and it denotes `v`.
pub proof fn lemma_integer_text_round_trip(v: int)
    ensures
        is_integer_literal(integer_text(v)),
        literal_value(integer_text(v)) == v,
{
    let t = integer_text(v);
    if v < 0 {
        let digits = decimal_text((-v) as nat);
        lemma_decimal_text((-v) as nat);
        assert(t[0] == '-');
        assert(t.drop_first() =~= digits);
    } else {
        lemma_decimal_text(v as nat);
        assert(is_digit(t[0]));
    }
}

} // verus!
