//! Numerals and codes read back: by the value of each symbol alone.
use crate::text::{base64_of, base64_symbol, decimal, hex_byte, hex_text, hex_word};
use crate::reality::util::{base64url_of, base64url_symbol};
use vstd::prelude::*;

verus! {

/// The number that decimal digits stand for.
pub open spec fn number_read(text: Seq<char>) -> int
    decreases text.len(),
{
    if text.len() == 0 {
        0
    } else {
        10 * number_read(text.drop_last()) + (text.last() as int - 48)
    }
}

/// A decimal numeral reads back as its number, in digits only and without a leading zero.
pub proof fn a_numeral_reads_back(n: nat)
    ensures
        number_read(decimal(n)) == n,
        decimal(n).len() > 0,
        forall|i: int| 0 <= i < decimal(n).len() ==> 48 <= (#[trigger] decimal(n)[i]) as int <= 57,
        decimal(n).len() > 1 ==> decimal(n)[0] as int != 48,
        n > 0 ==> decimal(n)[0] as int != 48,
    decreases n,
{
    let text = decimal(n);
    if n < 10 {
        assert(text.drop_last() =~= Seq::<char>::empty());
        assert(number_read(text.drop_last()) == 0);
    } else {
        a_numeral_reads_back(n / 10);
        assert(text.drop_last() =~= decimal(n / 10));
    }
}

/// The value of a hexadecimal digit in lower case.
pub open spec fn digit_read(digit: char) -> int {
    if 48 <= digit as int <= 57 {
        digit as int - 48
    } else if 97 <= digit as int <= 102 {
        digit as int - 87
    } else {
        -1000
    }
}

/// A byte in hexadecimal is two digits that read back as it, and a word is four.
pub proof fn hexadecimal_reads_back(byte: u8, word: u16)
    ensures
        hex_byte(byte).len() == 2,
        digit_read(hex_byte(byte)[0]) * 16 + digit_read(hex_byte(byte)[1]) == byte,
        hex_word(word).len() == 4,
        ((digit_read(hex_word(word)[0]) * 16 + digit_read(hex_word(word)[1])) * 16 + digit_read(
            hex_word(word)[2],
        )) * 16 + digit_read(hex_word(word)[3]) == word,
{
    let high = (word / 256) as u8;
    let low = (word % 256) as u8;
    assert(hex_word(word)[0] == hex_byte(high)[0]);
    assert(hex_word(word)[1] == hex_byte(high)[1]);
    assert(hex_word(word)[2] == hex_byte(low)[0]);
    assert(hex_word(word)[3] == hex_byte(low)[1]);
}

/// The hexadecimal text of bytes has two digits for each, in order.
pub proof fn hexadecimal_text_is_byte_by_byte(bytes: Seq<u8>)
    ensures
        hex_text(bytes).len() == 2 * bytes.len(),
        forall|i: int|
            0 <= i < bytes.len() ==> digit_read(hex_text(bytes)[2 * i]) * 16 + digit_read(
                hex_text(bytes)[2 * i + 1],
            ) == #[trigger] bytes[i],
    decreases bytes.len(),
{
    if bytes.len() > 0 {
        let front = bytes.drop_last();
        hexadecimal_text_is_byte_by_byte(front);
        hexadecimal_reads_back(bytes.last(), 0);
        assert forall|i: int| 0 <= i < bytes.len() implies digit_read(hex_text(bytes)[2 * i]) * 16
            + digit_read(hex_text(bytes)[2 * i + 1]) == #[trigger] bytes[i] by {
            if i < front.len() {
                assert(front[i] == bytes[i]);
                assert(hex_text(bytes)[2 * i] == hex_text(front)[2 * i]);
                assert(hex_text(bytes)[2 * i + 1] == hex_text(front)[2 * i + 1]);
            }
        }
    }
}

/// The value of a symbol of base64, in either alphabet, or of padding.
pub open spec fn symbol_read(symbol: char) -> int {
    let code = symbol as int;
    if 65 <= code <= 90 {
        code - 65
    } else if 97 <= code <= 122 {
        code - 71
    } else if 48 <= code <= 57 {
        code + 4
    } else if code == 43 || code == 45 {
        62
    } else if code == 47 || code == 95 {
        63
    } else {
        0
    }
}

/// The three bytes that four symbols from `at` on stand for, as one number.
pub open spec fn group_read(text: Seq<char>, at: int) -> int {
    symbol_read(text[at]) * 262144 + symbol_read(text[at + 1]) * 4096 + symbol_read(text[at + 2])
        * 64 + symbol_read(text[at + 3])
}

/// Base64 reads back: every four symbols are three bytes, the text is as long as its bytes
/// ask for, and what is missing of the last three bytes is padding.
#[verifier::spinoff_prover]
#[verifier::rlimit(60)]
pub proof fn base64_reads_back(bytes: Seq<u8>)
    ensures
        base64_of(bytes).len() == (bytes.len() + 2) / 3 * 4,
        forall|i: int|
            0 <= i && 3 * i + 2 < bytes.len() ==> #[trigger] group_read(base64_of(bytes), 4 * i)
                == bytes[3 * i] * 65536 + bytes[3 * i + 1] * 256 + bytes[3 * i + 2],
        bytes.len() % 3 == 1 ==> ({
            let at = base64_of(bytes).len() - 4;
            &&& group_read(base64_of(bytes), at) == bytes.last() * 65536
            &&& base64_of(bytes)[at + 2] == '=' && base64_of(bytes)[at + 3] == '='
        }),
        bytes.len() % 3 == 2 ==> ({
            let at = base64_of(bytes).len() - 4;
            &&& group_read(base64_of(bytes), at) == bytes[bytes.len() - 2] * 65536 + bytes.last()
                * 256
            &&& base64_of(bytes)[at + 3] == '='
        }),
    decreases bytes.len(),
{
    let text = base64_of(bytes);
    if bytes.len() >= 3 {
        let rest = bytes.skip(3);
        let tail = base64_of(rest);
        base64_reads_back(rest);
        let head = text.take(4);
        assert(text.skip(4) =~= tail);
        assert forall|k: int| 0 <= k < tail.len() implies text[4 + k] == tail[k] by {}
        assert forall|i: int| 0 <= i && 3 * i + 2 < bytes.len() implies #[trigger] group_read(
            text,
            4 * i,
        ) == bytes[3 * i] * 65536 + bytes[3 * i + 1] * 256 + bytes[3 * i + 2] by {
            if i == 0 {
                lemma_group(bytes[0], bytes[1], bytes[2]);
            } else {
                let j = i - 1;
                assert(group_read(tail, 4 * j) == rest[3 * j] * 65536 + rest[3 * j + 1] * 256
                    + rest[3 * j + 2]);
                assert(text[4 + 4 * j] == tail[4 * j]);
                assert(text[4 + (4 * j + 1)] == tail[4 * j + 1]);
                assert(text[4 + (4 * j + 2)] == tail[4 * j + 2]);
                assert(text[4 + (4 * j + 3)] == tail[4 * j + 3]);
            }
        }
        if bytes.len() % 3 != 0 {
            let at = tail.len() - 4;
            assert(text[4 + at] == tail[at]);
            assert(text[4 + (at + 1)] == tail[at + 1]);
            assert(text[4 + (at + 2)] == tail[at + 2]);
            assert(text[4 + (at + 3)] == tail[at + 3]);
        }
    } else if bytes.len() == 2 {
        lemma_group(bytes[0], bytes[1], 0);
    } else if bytes.len() == 1 {
        lemma_group(bytes[0], 0, 0);
    }
}

proof fn lemma_symbol(bits: int)
    requires
        0 <= bits < 64,
    ensures
        symbol_read(base64_symbol(bits)) == bits,
{
}

proof fn lemma_group(first: u8, second: u8, third: u8)
    ensures
        symbol_read(base64_symbol(first as int / 4)) * 262144 + symbol_read(
            base64_symbol(first as int % 4 * 16 + second as int / 16),
        ) * 4096 + symbol_read(base64_symbol(second as int % 16 * 4 + third as int / 64)) * 64
            + symbol_read(base64_symbol(third as int % 64)) == first * 65536 + second * 256 + third,
{
    lemma_symbol(first as int / 4);
    lemma_symbol(first as int % 4 * 16 + second as int / 16);
    lemma_symbol(second as int % 16 * 4 + third as int / 64);
    lemma_symbol(third as int % 64);
}

proof fn lemma_url_group(first: u8, second: u8, third: u8)
    ensures
        symbol_read(base64url_symbol(first as int / 4)) == first as int / 4,
        symbol_read(base64url_symbol(first as int % 4 * 16 + second as int / 16)) == first as int % 4
            * 16 + second as int / 16,
        symbol_read(base64url_symbol(second as int % 16 * 4 + third as int / 64)) == second as int
            % 16 * 4 + third as int / 64,
        symbol_read(base64url_symbol(third as int % 64)) == third as int % 64,
        first as int / 4 * 262144 + (first as int % 4 * 16 + second as int / 16) * 4096 + (
        second as int % 16 * 4 + third as int / 64) * 64 + third as int % 64 == first * 65536
            + second * 256 + third,
{
}

/// URL-safe base64 reads back: every four symbols are three bytes, one byte that is left
/// over has two symbols, and two bytes have three. There is no padding.
#[verifier::spinoff_prover]
#[verifier::rlimit(60)]
pub proof fn base64url_reads_back(bytes: Seq<u8>)
    ensures
        base64url_of(bytes).len() == bytes.len() / 3 * 4 + if bytes.len() % 3 == 0 {
            0nat
        } else {
            bytes.len() % 3 + 1
        },
        forall|i: int|
            0 <= i && 3 * i + 2 < bytes.len() ==> #[trigger] group_read(
                base64url_of(bytes),
                4 * i,
            ) == bytes[3 * i] * 65536 + bytes[3 * i + 1] * 256 + bytes[3 * i + 2],
        bytes.len() % 3 == 1 ==> ({
            let at = base64url_of(bytes).len() - 2;
            symbol_read(base64url_of(bytes)[at]) * 4 + symbol_read(base64url_of(bytes)[at + 1]) / 16
                == bytes.last() && symbol_read(base64url_of(bytes)[at + 1]) % 16 == 0
        }),
        bytes.len() % 3 == 2 ==> ({
            let at = base64url_of(bytes).len() - 3;
            symbol_read(base64url_of(bytes)[at]) * 4096 + symbol_read(base64url_of(bytes)[at + 1])
                * 64 + symbol_read(base64url_of(bytes)[at + 2]) == bytes[bytes.len() - 2] * 1024
                + bytes.last() * 4
        }),
    decreases bytes.len(),
{
    let text = base64url_of(bytes);
    if bytes.len() >= 3 {
        let rest = bytes.skip(3);
        let tail = base64url_of(rest);
        base64url_reads_back(rest);
        assert(text.skip(4) =~= tail);
        assert forall|k: int| 0 <= k < tail.len() implies text[4 + k] == tail[k] by {}
        assert forall|i: int| 0 <= i && 3 * i + 2 < bytes.len() implies #[trigger] group_read(
            text,
            4 * i,
        ) == bytes[3 * i] * 65536 + bytes[3 * i + 1] * 256 + bytes[3 * i + 2] by {
            if i == 0 {
                lemma_url_group(bytes[0], bytes[1], bytes[2]);
            } else {
                let j = i - 1;
                assert(group_read(tail, 4 * j) == rest[3 * j] * 65536 + rest[3 * j + 1] * 256
                    + rest[3 * j + 2]);
                assert(text[4 + 4 * j] == tail[4 * j]);
                assert(text[4 + (4 * j + 1)] == tail[4 * j + 1]);
                assert(text[4 + (4 * j + 2)] == tail[4 * j + 2]);
                assert(text[4 + (4 * j + 3)] == tail[4 * j + 3]);
            }
        }
        if bytes.len() % 3 == 1 {
            let at = tail.len() - 2;
            assert(text[4 + at] == tail[at]);
            assert(text[4 + (at + 1)] == tail[at + 1]);
        } else if bytes.len() % 3 == 2 {
            let at = tail.len() - 3;
            assert(text[4 + at] == tail[at]);
            assert(text[4 + (at + 1)] == tail[at + 1]);
            assert(text[4 + (at + 2)] == tail[at + 2]);
        }
    } else if bytes.len() == 2 {
        lemma_url_group(bytes[0], bytes[1], 0);
    } else if bytes.len() == 1 {
        lemma_url_group(bytes[0], 0, 0);
    }
}

/// Base64 has no minus and no underscore, and its URL-safe form no plus, no slash and no
/// equals sign.
pub proof fn each_base64_keeps_to_its_alphabet(bytes: Seq<u8>)
    ensures
        forall|i: int|
            0 <= i < base64_of(bytes).len() ==> #[trigger] base64_of(bytes)[i] != '-' && base64_of(
                bytes,
            )[i] != '_',
        forall|i: int|
            0 <= i < base64url_of(bytes).len() ==> #[trigger] base64url_of(bytes)[i] != '+'
                && base64url_of(bytes)[i] != '/' && base64url_of(bytes)[i] != '=',
    decreases bytes.len(),
{
    if bytes.len() >= 3 {
        let rest = bytes.skip(3);
        each_base64_keeps_to_its_alphabet(rest);
        assert(base64_of(bytes).skip(4) =~= base64_of(rest));
        assert(base64url_of(bytes).skip(4) =~= base64url_of(rest));
        assert forall|i: int| 0 <= i < base64_of(bytes).len() implies #[trigger] base64_of(bytes)[i]
            != '-' && base64_of(bytes)[i] != '_' by {
            if i >= 4 {
                assert(base64_of(bytes)[i] == base64_of(rest)[i - 4]);
            }
        }
        assert forall|i: int| 0 <= i < base64url_of(bytes).len() implies #[trigger] base64url_of(
            bytes,
        )[i] != '+' && base64url_of(bytes)[i] != '/' && base64url_of(bytes)[i] != '=' by {
            if i >= 4 {
                assert(base64url_of(bytes)[i] == base64url_of(rest)[i - 4]);
            }
        }
    }
}

} // verus!
