//! The two secrets a profile spells out as text: the server's public key and
//! the short id.
use crate::error::{invalid_data, ErrorKind, Fault, WireError};
use crate::octets::copy_array;
use crate::text::{base64_symbol, decimal, hex_digit, hex_text, join, push_decimal, text_of};
use vstd::prelude::*;
use vstd::string::*;

verus! {

/// The symbol of six bits in URL-safe base64.
pub open spec fn base64url_symbol(bits: int) -> char {
    if bits < 62 {
        base64_symbol(bits)
    } else if bits == 62 {
        '-'
    } else {
        '_'
    }
}

/// The URL-safe base64 text of bytes, without padding.
pub open spec fn base64url_of(bytes: Seq<u8>) -> Seq<char>
    decreases bytes.len(),
{
    let first = bytes[0] as int;
    let second = bytes[1] as int;
    let third = bytes[2] as int;
    if bytes.len() == 0 {
        Seq::empty()
    } else if bytes.len() == 1 {
        seq![base64url_symbol(first / 4), base64url_symbol(first % 4 * 16)]
    } else if bytes.len() == 2 {
        seq![
            base64url_symbol(first / 4),
            base64url_symbol(first % 4 * 16 + second / 16),
            base64url_symbol(second % 16 * 4),
        ]
    } else {
        seq![
            base64url_symbol(first / 4),
            base64url_symbol(first % 4 * 16 + second / 16),
            base64url_symbol(second % 16 * 4 + third / 64),
            base64url_symbol(third % 64),
        ] + base64url_of(bytes.skip(3))
    }
}

/// What the URL-safe base64 decoder without padding makes of a text: the bytes,
/// or the description of what is wrong with it.
pub uninterp spec fn base64url_decoding(text: Seq<char>) -> Result<Seq<u8>, Seq<char>>;

/// `base64`'s `URL_SAFE_NO_PAD` engine: `decode`, its error rendered by
/// `Display`. The result is a function of the text: the bytes whose encoding the
/// text is, or an error where it is the encoding of none.
#[verifier::external_body]
fn base64url_decode(text: &str) -> (result: Result<Vec<u8>, String>)
    ensures
        match base64url_decoding(text@) {
            Ok(bytes) => result matches Ok(actual) && actual@ == bytes,
            Err(reason) => result matches Err(actual) && actual@ == reason,
        },
        result matches Ok(actual) ==> base64url_of(actual@) == text@,
        result is Err ==> forall|bytes: Seq<u8>| #[trigger] base64url_of(bytes) != text@,
{
    base64::Engine::decode(&base64::engine::general_purpose::URL_SAFE_NO_PAD, text)
        .map_err(|error| format!("{error}"))
}

proof fn lemma_symbols_differ(left: int, right: int)
    requires
        0 <= left < 64,
        0 <= right < 64,
        base64url_symbol(left) == base64url_symbol(right),
    ensures
        left == right,
{
}

proof fn lemma_text_len(bytes: Seq<u8>)
    ensures
        base64url_of(bytes).len() == (bytes.len() * 4 + 2) / 3,
    decreases bytes.len(),
{
    if bytes.len() > 2 {
        lemma_text_len(bytes.skip(3));
    }
}

/// A text is the encoding of no more than one sequence of bytes.
proof fn lemma_encoded_once(left: Seq<u8>, right: Seq<u8>)
    requires
        base64url_of(left) == base64url_of(right),
    ensures
        left == right,
    decreases left.len(),
{
    let text = base64url_of(left);
    lemma_text_len(left);
    lemma_text_len(right);
    assert(left.len() == right.len());
    if left.len() == 0 {
        assert(left =~= right);
    } else {
        let (a, b) = (left[0] as int, right[0] as int);
        assert(text[0] == base64url_symbol(a / 4));
        assert(text[0] == base64url_symbol(b / 4));
        lemma_symbols_differ(a / 4, b / 4);
        if left.len() == 1 {
            assert(text[1] == base64url_symbol(a % 4 * 16));
            assert(text[1] == base64url_symbol(b % 4 * 16));
            lemma_symbols_differ(a % 4 * 16, b % 4 * 16);
            assert(left =~= right);
        } else {
            let (c, d) = (left[1] as int, right[1] as int);
            assert(text[1] == base64url_symbol(a % 4 * 16 + c / 16));
            assert(text[1] == base64url_symbol(b % 4 * 16 + d / 16));
            lemma_symbols_differ(a % 4 * 16 + c / 16, b % 4 * 16 + d / 16);
            if left.len() == 2 {
                assert(text[2] == base64url_symbol(c % 16 * 4));
                assert(text[2] == base64url_symbol(d % 16 * 4));
                lemma_symbols_differ(c % 16 * 4, d % 16 * 4);
                assert(left =~= right);
            } else {
                let (e, f) = (left[2] as int, right[2] as int);
                assert(text[2] == base64url_symbol(c % 16 * 4 + e / 64));
                assert(text[2] == base64url_symbol(d % 16 * 4 + f / 64));
                lemma_symbols_differ(c % 16 * 4 + e / 64, d % 16 * 4 + f / 64);
                assert(text[3] == base64url_symbol(e % 64));
                assert(text[3] == base64url_symbol(f % 64));
                lemma_symbols_differ(e % 64, f % 64);
                assert(text.skip(4) =~= base64url_of(left.skip(3)));
                assert(text.skip(4) =~= base64url_of(right.skip(3)));
                lemma_encoded_once(left.skip(3), right.skip(3));
                assert forall|i: int| 0 <= i < left.len() implies left[i] == right[i] by {
                    if i >= 3 {
                        assert(left[i] == left.skip(3)[i - 3]);
                        assert(right[i] == right.skip(3)[i - 3]);
                    }
                }
                assert(left =~= right);
            }
        }
    }
}

/// The key that decoded bytes are.
pub open spec fn public_key_of(decoded: Result<Seq<u8>, Seq<char>>) -> Result<Seq<u8>, Fault> {
    match decoded {
        Err(reason) => Err(invalid_data("Invalid base64: "@ + reason)),
        Ok(bytes) => if bytes.len() != 32 {
            Err(
                invalid_data(
                    "Invalid public key length: "@ + decimal(bytes.len()) + " (expected 32)"@,
                ),
            )
        } else {
            Ok(bytes)
        },
    }
}

/// Check decoded bytes and turn them into a key.
pub fn public_key_from(decoded: Result<Vec<u8>, String>) -> (result: Result<[u8; 32], WireError>)
    ensures
        ({
            let shape = match decoded {
                Ok(bytes) => Ok(bytes@),
                Err(reason) => Err(reason@),
            };
            match public_key_of(shape) {
                Ok(key) => result matches Ok(actual) && actual@ == key,
                Err(fault) => result matches Err(error) && error@ == fault,
            }
        }),
{
    match decoded {
        Err(reason) => Err(
            WireError {
                kind: ErrorKind::InvalidData,
                message: join("Invalid base64: ", reason.as_str()),
            },
        ),
        Ok(bytes) => {
            if bytes.len() != 32 {
                let mut message = text_of("Invalid public key length: ");
                push_decimal(&mut message, bytes.len() as u64);
                message.append(" (expected 32)");
                return Err(WireError { kind: ErrorKind::InvalidData, message });
            }
            Ok(copy_array(bytes.as_slice()))
        },
    }
}

/// Decode a base64url-encoded public key. A key that was encoded is decoded, and
/// what is decoded was encoded so.
pub fn decode_public_key(encoded: &str) -> (result: Result<[u8; 32], WireError>)
    ensures
        match public_key_of(base64url_decoding(encoded@)) {
            Ok(key) => result matches Ok(actual) && actual@ == key,
            Err(fault) => result matches Err(error) && error@ == fault,
        },
        result matches Ok(actual) ==> base64url_of(actual@) == encoded@,
        forall|key: Seq<u8>|
            key.len() == 32 && #[trigger] base64url_of(key) == encoded@ ==> (result matches Ok(
                actual,
            ) && actual@ == key),
{
    let decoded = base64url_decode(encoded);
    proof {
        if decoded is Ok {
            let bytes = decoded->Ok_0@;
            assert forall|key: Seq<u8>|
                key.len() == 32 && #[trigger] base64url_of(key) == encoded@ implies bytes == key by {
                lemma_encoded_once(bytes, key);
            }
        }
    }
    public_key_from(decoded)
}

/// The value of a hexadecimal digit, of either case.
pub open spec fn nibble_of(digit: u8) -> Option<int> {
    if 48 <= digit <= 57 {
        Some(digit - 48)
    } else if 97 <= digit <= 102 {
        Some(digit - 87)
    } else if 65 <= digit <= 70 {
        Some(digit - 55)
    } else {
        None
    }
}

/// Whether every byte is a hexadecimal digit.
pub open spec fn all_hex(digits: Seq<u8>) -> bool {
    forall|i: int| 0 <= i < digits.len() ==> nibble_of(#[trigger] digits[i]) is Some
}

/// The byte that the digits at `2 * i` and `2 * i + 1` spell.
pub open spec fn hex_pair(digits: Seq<u8>, i: int) -> u8 {
    (nibble_of(digits[2 * i])->0 * 16 + nibble_of(digits[2 * i + 1])->0) as u8
}

/// The bytes that an even number of digits spell.
pub open spec fn hex_bytes(digits: Seq<u8>) -> Seq<u8> {
    Seq::new(digits.len() / 2, |i: int| hex_pair(digits, i))
}

/// The value of one hexadecimal digit.
pub fn hex_char_to_value(digit: u8) -> (value: Result<u8, &'static str>)
    ensures
        match nibble_of(digit) {
            Some(nibble) => value matches Ok(actual) && actual == nibble && actual < 16,
            None => value matches Err(reason) && reason@ == "Invalid hex character"@,
        },
{
    if 48 <= digit && digit <= 57 {
        Ok(digit - 48)
    } else if 97 <= digit && digit <= 102 {
        Ok(digit - 97 + 10)
    } else if 65 <= digit && digit <= 70 {
        Ok(digit - 65 + 10)
    } else {
        Err("Invalid hex character")
    }
}

/// Decode hexadecimal digits into as many bytes as `length` asks for.
pub fn decode_hex_to_slice(digits: &[u8], length: usize) -> (result: Result<Vec<u8>, &'static str>)
    ensures
        if digits@.len() != 2 * length {
            result matches Err(reason) && reason@ == "Invalid hex length"@
        } else if !all_hex(digits@) {
            result matches Err(reason) && reason@ == "Invalid hex character"@
        } else {
            result matches Ok(bytes) && bytes@ == hex_bytes(digits@)
        },
{
    if digits.len() % 2 != 0 || digits.len() / 2 != length {
        return Err("Invalid hex length");
    }
    let mut output: Vec<u8> = Vec::new();
    for i in 0..length
        invariant
            digits.len() == 2 * length,
            forall|j: int| 0 <= j < 2 * i ==> nibble_of(#[trigger] digits@[j]) is Some,
            output@.len() == i,
            forall|j: int| 0 <= j < i ==> #[trigger] output@[j] == hex_pair(digits@, j),
    {
        let high = match hex_char_to_value(digits[2 * i]) {
            Ok(value) => value,
            Err(reason) => {
                return Err(reason);
            },
        };
        let low = match hex_char_to_value(digits[2 * i + 1]) {
            Ok(value) => value,
            Err(reason) => {
                return Err(reason);
            },
        };
        output.push(high * 16 + low);
    }
    assert(output@ =~= hex_bytes(digits@));
    Ok(output)
}

/// The short id that a text spells: up to sixteen digits, padded with zeros on
/// the right.
pub open spec fn short_id_of(text: Seq<char>, digits: Seq<u8>) -> Result<Seq<u8>, Fault> {
    if digits.len() > 16 || digits.len() % 2 != 0 {
        Err(
            invalid_data("Short ID must contain an even number of at most 16 hex characters"@),
        )
    } else if !vstd::utf8::is_ascii_chars(text) {
        Err(invalid_data("Invalid hex: Invalid hex length"@))
    } else if !all_hex(digits) {
        Err(invalid_data("Invalid hex: Invalid hex character"@))
    } else {
        Ok(hex_bytes(digits) + Seq::new((8 - digits.len() / 2) as nat, |i: int| 0u8))
    }
}

/// Decode a hexadecimal short id.
///
/// The text is padded with `0` to sixteen characters before it is read, so a
/// text with a character outside ASCII comes out too long in bytes.
pub fn decode_short_id(hex: &str) -> (result: Result<[u8; 8], WireError>)
    ensures
        match short_id_of(hex@, hex.spec_bytes()) {
            Ok(short_id) => result matches Ok(actual) && actual@ == short_id,
            Err(fault) => result matches Err(error) && error@ == fault,
        },
{
    let digits = hex.as_bytes();
    if digits.len() > 16 || digits.len() % 2 != 0 {
        return Err(
            WireError::new(
                ErrorKind::InvalidData,
                "Short ID must contain an even number of at most 16 hex characters",
            ),
        );
    }
    if !hex.is_ascii() {
        return Err(WireError::new(ErrorKind::InvalidData, "Invalid hex: Invalid hex length"));
    }
    let mut bytes = match decode_hex_to_slice(digits, digits.len() / 2) {
        Ok(bytes) => bytes,
        Err(_) => {
            return Err(
                WireError::new(ErrorKind::InvalidData, "Invalid hex: Invalid hex character"),
            );
        },
    };
    let ghost decoded = bytes@;
    while bytes.len() < 8
        invariant
            decoded.len() <= bytes@.len() <= 8,
            bytes@ == decoded + Seq::new((bytes@.len() - decoded.len()) as nat, |i: int| 0u8),
        decreases 8 - bytes.len(),
    {
        let ghost before = bytes@;
        bytes.push(0);
        assert(bytes@ =~= decoded + Seq::new(
            (bytes@.len() - decoded.len()) as nat,
            |i: int| 0u8,
        ));
    }
    Ok(copy_array(bytes.as_slice()))
}

/// The digits of a hexadecimal text, as bytes.
pub open spec fn hex_digits(bytes: Seq<u8>) -> Seq<u8> {
    Seq::new(hex_text(bytes).len(), |i: int| hex_text(bytes)[i] as u8)
}

proof fn lemma_hex_text(bytes: Seq<u8>)
    ensures
        hex_text(bytes).len() == 2 * bytes.len(),
        forall|i: int|
            0 <= i < bytes.len() ==> #[trigger] hex_text(bytes)[2 * i] == hex_digit(
                bytes[i] as int / 16,
            ),
        forall|i: int|
            0 <= i < bytes.len() ==> #[trigger] hex_text(bytes)[2 * i + 1] == hex_digit(
                bytes[i] as int % 16,
            ),
    decreases bytes.len(),
{
    if bytes.len() > 0 {
        let front = bytes.drop_last();
        lemma_hex_text(front);
        let text = hex_text(bytes);
        assert forall|i: int| 0 <= i < bytes.len() implies #[trigger] text[2 * i] == hex_digit(
            bytes[i] as int / 16,
        ) by {
            if i < front.len() {
                assert(text[2 * i] == hex_text(front)[2 * i]);
            }
        }
        assert forall|i: int| 0 <= i < bytes.len() implies #[trigger] text[2 * i + 1] == hex_digit(
            bytes[i] as int % 16,
        ) by {
            if i < front.len() {
                assert(text[2 * i + 1] == hex_text(front)[2 * i + 1]);
            }
        }
    }
}

/// Reading the hexadecimal text of any bytes gives those bytes back.
pub proof fn hex_reads_back(bytes: Seq<u8>)
    ensures
        all_hex(hex_digits(bytes)),
        hex_bytes(hex_digits(bytes)) == bytes,
{
    let digits = hex_digits(bytes);
    lemma_hex_text(bytes);
    assert forall|k: int| 0 <= k < digits.len() implies nibble_of(#[trigger] digits[k]) is Some by {
        let i = k / 2;
        if k % 2 == 0 {
            assert(hex_text(bytes)[2 * i] == hex_digit(bytes[i] as int / 16));
        } else {
            assert(hex_text(bytes)[2 * i + 1] == hex_digit(bytes[i] as int % 16));
        }
    }
    assert forall|i: int| 0 <= i < bytes.len() implies #[trigger] hex_bytes(digits)[i]
        == bytes[i] by {
        assert(hex_text(bytes)[2 * i] == hex_digit(bytes[i] as int / 16));
        assert(hex_text(bytes)[2 * i + 1] == hex_digit(bytes[i] as int % 16));
    }
    assert(hex_bytes(digits) =~= bytes);
}

} // verus!
