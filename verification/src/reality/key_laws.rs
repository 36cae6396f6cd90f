//! Keys and identifiers: how long they are, and how they are spelt.
use crate::address_laws::{is_digit_of_sixteen, sixteenth};
use crate::crypto::x25519_public_of;
use crate::error::Fault;
use crate::reality::key_exchange::hybrid_of;
use crate::reality::util::{all_hex, nibble_of, public_key_of, short_id_of};
use vstd::prelude::*;
use vstd::utf8::is_ascii_chars;

verus! {

/// A short id is spelt in at most eight pairs of hexadecimal digits, and is their bytes
/// with zeros behind them up to eight.
pub proof fn a_short_id_is_pairs_of_digits(text: Seq<char>, digits: Seq<u8>)
    ensures
        short_id_of(text, digits) is Ok <==> {
            &&& digits.len() <= 16
            &&& digits.len() % 2 == 0
            &&& is_ascii_chars(text)
            &&& forall|i: int| 0 <= i < digits.len() ==> is_digit_of_sixteen(#[trigger] digits[i])
        },
        short_id_of(text, digits) matches Ok(id) ==> {
            &&& id.len() == 8
            &&& forall|k: int|
                0 <= k < 8 ==> #[trigger] id[k] == if 2 * k < digits.len() {
                    16 * sixteenth(digits[2 * k]) + sixteenth(digits[2 * k + 1])
                } else {
                    0
                }
        },
{
    assert forall|digit: u8| (#[trigger] nibble_of(digit) is Some) == is_digit_of_sixteen(
        digit,
    ) by {}
    assert(all_hex(digits) <==> forall|i: int|
        0 <= i < digits.len() ==> is_digit_of_sixteen(#[trigger] digits[i])) by {
        if all_hex(digits) {
            assert forall|i: int| 0 <= i < digits.len() implies is_digit_of_sixteen(
                #[trigger] digits[i],
            ) by {
                assert(nibble_of(digits[i]) is Some);
            }
        }
        if forall|i: int| 0 <= i < digits.len() ==> is_digit_of_sixteen(#[trigger] digits[i]) {
            assert forall|i: int| 0 <= i < digits.len() implies nibble_of(
                #[trigger] digits[i],
            ) is Some by {}
        }
    }
    if let Ok(id) = short_id_of(text, digits) {
        assert forall|k: int| 0 <= k < 8 implies #[trigger] id[k] == if 2 * k < digits.len() {
            16 * sixteenth(digits[2 * k]) + sixteenth(digits[2 * k + 1])
        } else {
            0
        } by {
            if 2 * k < digits.len() {
                assert(is_digit_of_sixteen(digits[2 * k]));
                assert(is_digit_of_sixteen(digits[2 * k + 1]));
            }
        }
    }
}

/// A public key is what its text decodes to, where that is 32 bytes.
pub proof fn a_public_key_is_32_bytes(bytes: Seq<u8>, reason: Seq<char>)
    ensures
        bytes.len() == 32 ==> public_key_of(Ok(bytes)) == Ok::<Seq<u8>, Fault>(bytes),
        bytes.len() != 32 ==> public_key_of(Ok(bytes)) is Err,
        public_key_of(Err(reason)) is Err,
{
}

/// A hybrid pair holds an encapsulation key of 1184 bytes and the X25519 public key of
/// its private one, 32 bytes. Its share is the one and then the other, 1216 bytes.
pub proof fn a_hybrid_share_is_both_keys(
    ml_kem: Seq<u8>,
    encapsulation_key: Seq<u8>,
    private: Seq<u8>,
)
    ensures
        hybrid_of(ml_kem, encapsulation_key, private) is Ok <==> encapsulation_key.len() == 1184 && (
        x25519_public_of(private) matches Ok(public) && public.len() == 32),
        hybrid_of(ml_kem, encapsulation_key, private) matches Ok(pair) ==> {
            &&& pair.ml_kem == ml_kem
            &&& pair.x25519_private == private
            &&& x25519_public_of(private) == Ok::<Seq<u8>, u8>(pair.x25519_public)
            &&& pair.share().len() == 1216
            &&& pair.share().take(1184) == encapsulation_key
            &&& pair.share().skip(1184) == pair.x25519_public
        },
{
    if let Ok(pair) = hybrid_of(ml_kem, encapsulation_key, private) {
        assert(pair.share().take(1184) =~= encapsulation_key);
        assert(pair.share().skip(1184) =~= pair.x25519_public);
    }
}

} // verus!
