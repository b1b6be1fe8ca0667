//! Where the spoken form of a text is asked for.

use crate::text::push_char;
use vstd::prelude::*;
use vstd::utf8::encode_utf8;

verus! {

/// The address of the speech service up to the text.
pub const URL_HEAD: &'static str = "https://translate.google.com/translate_tts?ie=UTF-8&q=";

/// What stands between the text and its length in the address.
pub const URL_MIDDLE: &'static str = "&tl=zh-CN&total=1&idx=0&textlen=";

/// What stands behind the length in the address.
pub const URL_TAIL: &'static str = "&tl=zh-CN&client=tw-ob";

/// The digit, in capitals, of a number below sixteen.
pub open spec fn hex_digit(n: u8) -> char {
    if n == 0 {
        '0'
    } else if n == 1 {
        '1'
    } else if n == 2 {
        '2'
    } else if n == 3 {
        '3'
    } else if n == 4 {
        '4'
    } else if n == 5 {
        '5'
    } else if n == 6 {
        '6'
    } else if n == 7 {
        '7'
    } else if n == 8 {
        '8'
    } else if n == 9 {
        '9'
    } else if n == 10 {
        'A'
    } else if n == 11 {
        'B'
    } else if n == 12 {
        'C'
    } else if n == 13 {
        'D'
    } else if n == 14 {
        'E'
    } else {
        'F'
    }
}

/// The byte written as a percent sign and its two hexadecimal digits.
pub open spec fn escaped(byte: u8) -> Seq<char> {
    seq!['%', hex_digit(byte / 16), hex_digit(byte % 16)]
}

/// Whether the byte is written escaped in the fragment of an address: the
/// control characters, the blank, `"`, `<`, `>`, `` ` `` and every byte
/// that is not ASCII.
pub open spec fn needs_escape(byte: u8) -> bool {
    byte < 0x20 || byte >= 0x7F || byte == 0x20 || byte == 0x22 || byte == 0x3C || byte == 0x3E
        || byte == 0x60
}

/// The byte as it stands in the fragment of an address.
pub open spec fn encoded_byte(byte: u8) -> Seq<char> {
    if needs_escape(byte) {
        escaped(byte)
    } else {
        seq![byte as char]
    }
}

/// The bytes as they stand in the fragment of an address, one after another.
pub open spec fn fragment_encoded(bytes: Seq<u8>) -> Seq<char>
    decreases bytes.len(),
{
    if bytes.len() == 0 {
        Seq::empty()
    } else {
        fragment_encoded(bytes.drop_last()) + encoded_byte(bytes.last())
    }
}

/// The number in decimal digits, without leading zeros.
pub open spec fn digits(n: nat) -> Seq<char>
    decreases n,
{
    if n < 10 {
        seq![hex_digit(n as u8)]
    } else {
        digits(n / 10) + seq![hex_digit((n % 10) as u8)]
    }
}

/// `percent_encoding::percent_encode_byte`: the percent sign followed by the
/// two hexadecimal digits of the byte, in capitals.
#[verifier::external_body]
fn percent_encode_byte(byte: u8) -> (text: String)
    ensures
        text@ == escaped(byte),
{
    percent_encoding::percent_encode_byte(byte).to_string()
}

/// The digit of a number below ten.
fn digit(n: usize) -> (c: char)
    requires
        n < 10,
    ensures
        c == hex_digit(n as u8),
{
    if n == 0 {
        '0'
    } else if n == 1 {
        '1'
    } else if n == 2 {
        '2'
    } else if n == 3 {
        '3'
    } else if n == 4 {
        '4'
    } else if n == 5 {
        '5'
    } else if n == 6 {
        '6'
    } else if n == 7 {
        '7'
    } else if n == 8 {
        '8'
    } else {
        '9'
    }
}

/// Appends the number in decimal digits to `out`.
pub fn push_decimal(out: &mut String, n: usize)
    ensures
        final(out)@ == old(out)@ + digits(n as nat),
    decreases n,
{
    if n < 10 {
        push_char(out, digit(n));
        assert(out@ =~= old(out)@ + digits(n as nat));
    } else {
        push_decimal(out, n / 10);
        push_char(out, digit(n % 10));
        assert(out@ =~= old(out)@ + digits(n as nat));
    }
}

/// The text as it stands in the fragment of an address.
pub fn fragment_encode(text: &str) -> (out: String)
    ensures
        out@ == fragment_encoded(encode_utf8(text@)),
{
    let bytes = text.as_bytes();
    let mut out = String::new();
    let mut i: usize = 0;
    assert(bytes@.take(0) =~= Seq::<u8>::empty());
    while i < bytes.len()
        invariant
            i <= bytes.len(),
            bytes@ == encode_utf8(text@),
            out@ == fragment_encoded(bytes@.take(i as int)),
        decreases bytes.len() - i,
    {
        let byte: u8 = bytes[i];
        let ghost before = out@;
        if byte < 0x20 || byte >= 0x7F || byte == 0x20 || byte == 0x22 || byte == 0x3C || byte
            == 0x3E || byte == 0x60 {
            out.append(percent_encode_byte(byte).as_str());
        } else {
            push_char(&mut out, byte as char);
        }
        assert(out@ =~= before + encoded_byte(byte));
        i += 1;
        assert(bytes@.take(i as int).drop_last() =~= bytes@.take(i - 1));
        assert(bytes@.take(i as int).last() == byte);
    }
    assert(bytes@.take(bytes@.len() as int) =~= bytes@);
    out
}

/// The address at which the spoken form of `text` is asked for: it names
/// the text, escaped, and the number of its bytes.
pub fn request_url(text: &str) -> (url: String)
    ensures
        url@ == URL_HEAD@ + fragment_encoded(encode_utf8(text@)) + URL_MIDDLE@ + digits(
            encode_utf8(text@).len(),
        ) + URL_TAIL@,
{
    let len: usize = text.as_bytes().len();
    let mut url = URL_HEAD.to_owned();
    url.append(fragment_encode(text).as_str());
    url.append(URL_MIDDLE);
    push_decimal(&mut url, len);
    url.append(URL_TAIL);
    url
}

} // verus!
