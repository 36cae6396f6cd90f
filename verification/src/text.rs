//! Text that error messages and requests are made of: hexadecimal and decimal
//! numerals, concatenation, conversion from bytes.
use crate::octets::bytes_equal;
use vstd::prelude::*;
use vstd::string::*;
use vstd::utf8::{decode_utf8, encode_utf8_decode_utf8, valid_utf8};

verus! {

/// `String::push` appends one character at the end.
pub assume_specification[ String::push ](text: &mut String, c: char)
    ensures
        final(text)@ == old(text)@.push(c),
;

/// An owned copy of `text`.
pub fn text_of(text: &str) -> (owned: String)
    ensures
        owned@ == text@,
{
    text.to_owned()
}

/// The lower-case hexadecimal digit of a nibble.
pub open spec fn hex_digit(nibble: int) -> char {
    if nibble < 10 {
        ('0' as u32 + nibble) as char
    } else {
        ('a' as u32 + (nibble - 10)) as char
    }
}

/// The two hexadecimal digits of a byte.
pub open spec fn hex_byte(byte: u8) -> Seq<char> {
    seq![hex_digit(byte as int / 16), hex_digit(byte as int % 16)]
}

/// The four hexadecimal digits of a 16-bit value.
pub open spec fn hex_word(word: u16) -> Seq<char> {
    hex_byte((word / 256) as u8) + hex_byte((word % 256) as u8)
}

/// The two-digit hexadecimal form of each byte, one after another.
pub open spec fn hex_text(bytes: Seq<u8>) -> Seq<char>
    decreases bytes.len(),
{
    if bytes.len() == 0 {
        Seq::empty()
    } else {
        hex_text(bytes.drop_last()) + hex_byte(bytes.last())
    }
}

/// The decimal numeral of `n`, without leading zeros.
pub open spec fn decimal(n: nat) -> Seq<char>
    decreases n,
{
    if n < 10 {
        seq![('0' as u32 + n) as char]
    } else {
        decimal(n / 10) + seq![('0' as u32 + n % 10) as char]
    }
}

fn digit_char(nibble: u8) -> (c: char)
    requires
        nibble < 16,
    ensures
        c == hex_digit(nibble as int),
{
    if nibble < 10 {
        (48u8 + nibble) as char
    } else {
        (97u8 + (nibble - 10)) as char
    }
}

/// Append the two hexadecimal digits of `byte`.
pub fn push_hex_byte(text: &mut String, byte: u8)
    ensures
        final(text)@ == old(text)@ + hex_byte(byte),
{
    text.push(digit_char(byte / 16));
    text.push(digit_char(byte % 16));
    assert(text@ =~= old(text)@ + hex_byte(byte));
}

/// Append the four hexadecimal digits of `word`.
pub fn push_hex_word(text: &mut String, word: u16)
    ensures
        final(text)@ == old(text)@ + hex_word(word),
{
    push_hex_byte(text, (word / 256) as u8);
    push_hex_byte(text, (word % 256) as u8);
    assert(text@ =~= old(text)@ + hex_word(word));
}

/// Append the decimal numeral of `n`.
pub fn push_decimal(text: &mut String, n: u64)
    ensures
        final(text)@ == old(text)@ + decimal(n as nat),
    decreases n,
{
    if n >= 10 {
        push_decimal(text, n / 10);
    }
    text.push((48u8 + (n % 10) as u8) as char);
    assert(text@ =~= old(text)@ + decimal(n as nat));
}

/// The lower-case hexadecimal text of `bytes`.
pub fn hex(bytes: &[u8]) -> (text: String)
    ensures
        text@ == hex_text(bytes@),
{
    let mut text = String::new();
    for i in 0..bytes.len()
        invariant
            text@ == hex_text(bytes@.subrange(0, i as int)),
    {
        push_hex_byte(&mut text, bytes[i]);
        proof {
            let upto = bytes@.subrange(0, i + 1);
            assert(upto.drop_last() =~= bytes@.subrange(0, i as int));
        }
    }
    assert(bytes@.subrange(0, bytes@.len() as int) =~= bytes@);
    text
}

/// `first` followed by `second`.
pub fn join(first: &str, second: &str) -> (text: String)
    ensures
        text@ == first@ + second@,
{
    let mut text = text_of(first);
    text.append(second);
    text
}

/// `String::from_utf8`: the text that the bytes encode, or nothing where they are
/// not UTF-8.
#[verifier::external_body]
pub(crate) fn utf8_text(bytes: &[u8]) -> (text: Option<String>)
    ensures
        match text {
            Some(decoded) => valid_utf8(bytes@) && decoded@ == decode_utf8(bytes@),
            None => !valid_utf8(bytes@),
        },
{
    String::from_utf8(bytes.to_vec()).ok()
}

/// The symbol of six bits in base64.
pub open spec fn base64_symbol(bits: int) -> char {
    if bits < 26 {
        (65 + bits) as char
    } else if bits < 52 {
        (71 + bits) as char
    } else if bits < 62 {
        (bits - 4) as char
    } else if bits == 62 {
        '+'
    } else {
        '/'
    }
}

/// The base64 text of bytes, RFC 4648: four symbols for three bytes, and padding
/// for what is missing of the last three.
pub open spec fn base64_of(bytes: Seq<u8>) -> Seq<char>
    decreases bytes.len(),
{
    let first = bytes[0] as int;
    let second = bytes[1] as int;
    let third = bytes[2] as int;
    if bytes.len() == 0 {
        Seq::empty()
    } else if bytes.len() == 1 {
        seq![base64_symbol(first / 4), base64_symbol(first % 4 * 16), '=', '=']
    } else if bytes.len() == 2 {
        seq![
            base64_symbol(first / 4),
            base64_symbol(first % 4 * 16 + second / 16),
            base64_symbol(second % 16 * 4),
            '=',
        ]
    } else {
        seq![
            base64_symbol(first / 4),
            base64_symbol(first % 4 * 16 + second / 16),
            base64_symbol(second % 16 * 4 + third / 64),
            base64_symbol(third % 64),
        ] + base64_of(bytes.skip(3))
    }
}

/// `base64::Engine::encode` of the standard engine: the base64 text of the bytes,
/// in the standard alphabet and with padding.
#[verifier::external_body]
pub(crate) fn base64(bytes: &[u8]) -> (text: String)
    ensures
        text@ == base64_of(bytes@),
{
    base64::Engine::encode(&base64::engine::general_purpose::STANDARD, bytes)
}

/// A base64 text is letters, digits and a few signs of ASCII.
pub proof fn lemma_base64_symbols(bytes: Seq<u8>)
    ensures
        forall|i: int|
            0 <= i < base64_of(bytes).len() ==> '+' <= #[trigger] base64_of(bytes)[i] <= 'z',
    decreases bytes.len(),
{
    let text = base64_of(bytes);
    if bytes.len() > 2 {
        let others = base64_of(bytes.skip(3));
        lemma_base64_symbols(bytes.skip(3));
        assert forall|i: int| 0 <= i < text.len() implies '+' <= #[trigger] text[i] <= 'z' by {
            if i >= 4 {
                assert(text[i] == others[i - 4]);
            }
        }
    }
}

/// Whether the two texts are the same.
pub fn text_equal(left: &str, right: &str) -> (equal: bool)
    ensures
        equal == (left@ == right@),
{
    proof {
        encode_utf8_decode_utf8(left@);
        encode_utf8_decode_utf8(right@);
    }
    bytes_equal(left.as_bytes(), right.as_bytes())
}

} // verus!
