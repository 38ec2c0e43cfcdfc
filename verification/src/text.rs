//! Characters, decimal numbers and the string operations of the standard
//! library that the rest of the crate builds on.

use crate::bytes;
use crate::bytes::decimal_digits;
use std::borrow::Cow;
use vstd::prelude::*;
use vstd::string::*;
use vstd::utf8;

verus! {

/// `String::push` appends one character.
pub assume_specification[ String::push ](s: &mut String, ch: char)
    ensures
        final(s)@ == old(s)@.push(ch),
;

/// `String::push_str` appends the characters of another string.
pub assume_specification[ String::push_str ](s: &mut String, string: &str)
    ensures
        final(s)@ == old(s)@ + string@,
;

/// The text that `String::from_utf8_lossy` reads from bytes.
pub uninterp spec fn utf8_lossy(bytes: Seq<u8>) -> Seq<char>;

/// `String::from_utf8_lossy`. Its result depends on the bytes alone, and for
/// bytes that are UTF-8 it is the text that they encode. Where replacement
/// characters stand for other bytes is left to the name.
#[verifier::external_body]
fn lossy_text(bytes: &[u8]) -> (r: Cow<'_, str>)
    ensures
        r@ == utf8_lossy(bytes@),
        utf8::valid_utf8(bytes@) ==> r@ == utf8::decode_utf8(bytes@),
{
    String::from_utf8_lossy(bytes)
}

/// The text that bytes stand for: the text that they encode where they are
/// UTF-8, else what is left when the other bytes have been replaced.
pub open spec fn text_of(bytes: Seq<u8>) -> Seq<char> {
    if utf8::valid_utf8(bytes) {
        utf8::decode_utf8(bytes)
    } else {
        utf8_lossy(bytes)
    }
}

/// The text that bytes stand for.
pub fn read_text(bytes: &[u8]) -> (r: Cow<'_, str>)
    ensures
        r@ == text_of(bytes@),
{
    lossy_text(bytes)
}

/// Text comes back from its bytes as it was.
pub proof fn law_text_reads_back(text: Seq<char>)
    ensures
        text_of(utf8::encode_utf8(text)) == text,
{
    utf8::encode_utf8_valid_utf8(text);
    utf8::encode_utf8_decode_utf8(text);
}

/// The text that a `Cow` holds.
pub fn cow_text<'a>(text: &'a Cow<'_, str>) -> (r: &'a str)
    ensures
        r@ == text@,
{
    match text {
        Cow::Borrowed(s) => s,
        Cow::Owned(s) => s.as_str(),
    }
}

/// The characters of `s`.
pub fn chars_of(s: &str) -> (r: Vec<char>)
    ensures
        r@ == s@,
{
    let mut out: Vec<char> = Vec::new();
    for c in it: s.chars()
        invariant
            out@ == s@.take(it.index()),
            it.seq() == s@,
    {
        out.push(c);
    }
    out
}

/// The decimal digits of a number as text.
pub open spec fn decimal_text(n: nat) -> Seq<char> {
    bytes::decimal(n).map_values(|b: u8| b as char)
}

/// Appends the decimal digits of `v`.
pub fn push_decimal(out: &mut String, v: u64)
    ensures
        final(out)@ == old(out)@ + decimal_text(v as nat),
{
    let digits = decimal_digits(v);
    let ghost text = decimal_text(v as nat);
    let mut i: usize = 0;
    assert(out@ + text.take(0) =~= out@);
    while i < digits.len()
        invariant
            digits@ == bytes::decimal(v as nat),
            text == decimal_text(v as nat),
            i <= digits@.len(),
            out@ == old(out)@ + text.take(i as int),
        decreases digits@.len() - i,
    {
        out.push(digits[i] as char);
        assert(text.take(i + 1) =~= text.take(i as int).push(text[i as int]));
        i += 1;
    }
    assert(text.take(i as int) =~= text);
}

/// The bytes of two texts stand behind each other as the texts do.
pub proof fn lemma_encode_concat(a: Seq<char>, b: Seq<char>)
    ensures
        utf8::encode_utf8(a + b) == utf8::encode_utf8(a) + utf8::encode_utf8(b),
    decreases a.len(),
{
    if a.len() == 0 {
        assert(a + b =~= b);
        assert(utf8::encode_utf8(a) + utf8::encode_utf8(b) =~= utf8::encode_utf8(b));
    } else {
        let rest = a.drop_first();
        lemma_encode_concat(rest, b);
        assert((a + b).drop_first() =~= rest + b);
        let first = utf8::encode_scalar(a[0] as u32);
        assert(first + (utf8::encode_utf8(rest) + utf8::encode_utf8(b)) =~= first
            + utf8::encode_utf8(rest) + utf8::encode_utf8(b));
    }
}

/// A number as text has the bytes of its decimal digits, and reads as that
/// number.
pub proof fn law_decimal_text_is_digits(n: nat)
    ensures
        utf8::encode_utf8(decimal_text(n)) == bytes::decimal(n),
        bytes::digits_value(utf8::encode_utf8(decimal_text(n))) == n,
{
    let text = decimal_text(n);
    let digits = bytes::decimal(n);
    bytes::lemma_decimal_digits(n);
    bytes::law_decimal_reads_back(n);
    assert forall|i: int| 0 <= i < text.len() implies text[i] as int == digits[i] && digits[i]
        < 128 by {
        assert(bytes::is_digit(digits[i]));
    }
    assert(utf8::is_ascii_chars(text));
    utf8::is_ascii_chars_encode_utf8(text);
    assert(utf8::encode_utf8(text) =~= digits);
}

} // verus!
