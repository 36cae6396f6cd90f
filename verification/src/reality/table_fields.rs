//! The fields of a fingerprint table: code points, lists of them, extension
//! bodies in hexadecimal, and the refusals that name the profile they are in.
use crate::error::{invalid_data, ErrorKind, Fault, WireError};
use crate::json::{shapes_of, Json, JsonShape};
use crate::octets::{be16, push_u16};
use crate::reality::hello_profile::{CipherSuiteSlot, GroupSlot, KeyShareSlot, VersionSlot};
use crate::reality::server_hello::{group_of, group_with_id};
use crate::reality::util::{hex_char_to_value, nibble_of};
use crate::text::{hex_word, push_hex_word, text_equal, text_of};
use vstd::arithmetic::div_mod::lemma_truncate_middle;
use vstd::prelude::*;
use vstd::string::*;
use vstd::utf8::encode_utf8;

verus! {

/// The longest body that a table may give an extension.
pub const MAX_CONSTANT_BODY_BYTES: usize = 512;

/// A refusal of a document.
pub open spec fn refusal(message: Seq<char>) -> Fault {
    invalid_data("REALITY fingerprint table document "@ + message)
}

/// A refusal of a document for one of its profiles.
pub open spec fn profile_refusal(name: Seq<char>, rest: Seq<char>) -> Fault {
    refusal("profile "@ + name + rest)
}

/// Refuse a document.
pub fn refuse(message: &str) -> (error: WireError)
    ensures
        error@ == refusal(message@),
{
    let mut text = text_of("REALITY fingerprint table document ");
    text.append(message);
    WireError { kind: ErrorKind::InvalidData, message: text }
}

/// Refuse a document for one of its profiles.
pub fn refuse_profile(name: &str, rest: &str) -> (error: WireError)
    ensures
        error@ == profile_refusal(name@, rest@),
{
    let mut message = text_of("profile ");
    message.append(name);
    message.append(rest);
    refuse(message.as_str())
}

/// The text of three parts in a row.
pub fn in_a_row(first: &str, second: &str, third: &str) -> (text: String)
    ensures
        text@ == first@ + second@ + third@,
{
    let mut text = text_of(first);
    text.append(second);
    text.append(third);
    text
}

/// The number that hexadecimal digits stand for, most significant first.
pub open spec fn hex_number(digits: Seq<u8>) -> Option<int>
    decreases digits.len(),
{
    if digits.len() == 0 {
        Some(0)
    } else {
        match (hex_number(digits.drop_last()), nibble_of(digits.last())) {
            (Some(number), Some(nibble)) => Some(16 * number + nibble),
            _ => None,
        }
    }
}

/// The digits behind an optional plus sign.
pub open spec fn unsigned_part(text: Seq<u8>) -> Seq<u8> {
    if text.len() > 0 && text[0] == 43 {
        text.drop_first()
    } else {
        text
    }
}

/// The number that a hexadecimal numeral stands for: an optional plus sign and
/// at least one digit, and no more than `limit`.
pub open spec fn hex_numeral(text: Seq<u8>, limit: int) -> Option<int> {
    let digits = unsigned_part(text);
    if digits.len() == 0 {
        None
    } else {
        match hex_number(digits) {
            Some(number) => if number <= limit {
                Some(number)
            } else {
                None
            },
            None => None,
        }
    }
}

proof fn lemma_hex_number_grows(digits: Seq<u8>, n: int)
    requires
        0 <= n <= digits.len(),
    ensures
        hex_number(digits.take(n)) is None ==> hex_number(digits) is None,
        hex_number(digits.take(n)) matches Some(front) ==> front >= 0 && (hex_number(
            digits,
        ) matches Some(whole) ==> front <= whole),
    decreases digits.len(),
{
    if n == digits.len() {
        assert(digits.take(n) =~= digits);
        if n > 0 {
            lemma_hex_number_grows(digits.drop_last(), n - 1);
            assert(digits.drop_last().take(n - 1) =~= digits.drop_last());
        }
    } else {
        lemma_hex_number_grows(digits.drop_last(), n);
        assert(digits.drop_last().take(n) =~= digits.take(n));
    }
}

/// Read a hexadecimal numeral that may not exceed `limit`.
pub fn parse_hex(text: &[u8], limit: u16) -> (number: Option<u16>)
    ensures
        match hex_numeral(text@, limit as int) {
            Some(value) => number matches Some(actual) && actual == value,
            None => number is None,
        },
{
    let start: usize = if text.len() > 0 && text[0] == 43 {
        1
    } else {
        0
    };
    if text.len() == start {
        return None;
    }
    let ghost digits = unsigned_part(text@);
    assert(digits =~= text@.skip(start as int));
    let mut value: u32 = 0;
    let mut i: usize = start;
    assert(digits.take(0) =~= Seq::<u8>::empty());
    while i < text.len()
        invariant
            start <= i <= text@.len(),
            start <= 1,
            digits == text@.skip(start as int),
            digits == unsigned_part(text@),
            digits.len() > 0,
            value <= limit,
            hex_number(digits.take(i - start)) == Some(value as int),
        decreases text.len() - i,
    {
        proof {
            let at = i - start;
            assert(digits.take(at + 1).drop_last() =~= digits.take(at));
            assert(digits.take(at + 1).last() == text@[i as int]);
            lemma_hex_number_grows(digits, at + 1);
        }
        match hex_char_to_value(text[i]) {
            Ok(nibble) => {
                value = value * 16 + nibble as u32;
            },
            Err(_) => {
                return None;
            },
        }
        if value > limit as u32 {
            return None;
        }
        i = i + 1;
    }
    assert(digits.take(i - start) =~= digits);
    Some(value as u16)
}

/// The code point that a text stands for: `0x` and a hexadecimal numeral.
pub open spec fn code_point(name: Seq<char>, text: Seq<char>) -> Result<u16, Fault> {
    let bytes = encode_utf8(text);
    if bytes.len() < 2 || bytes[0] != 48 || bytes[1] != 120 {
        Err(profile_refusal(name, " code point "@ + text + " is not 0x-prefixed"@))
    } else {
        match hex_numeral(bytes.skip(2), 65535) {
            Some(value) => Ok(value as u16),
            None => Err(profile_refusal(name, " code point "@ + text + " is not hex"@)),
        }
    }
}

/// Read a code point.
pub fn hex16(name: &str, text: &str) -> (result: Result<u16, WireError>)
    ensures
        match code_point(name@, text@) {
            Ok(value) => result == Ok::<u16, WireError>(value),
            Err(fault) => result matches Err(error) && error@ == fault,
        },
{
    let bytes = text.as_bytes();
    if bytes.len() < 2 || bytes[0] != 48 || bytes[1] != 120 {
        return Err(
            refuse_profile(
                name,
                in_a_row(" code point ", text, " is not 0x-prefixed").as_str(),
            ),
        );
    }
    let digits = vstd::slice::slice_subrange(bytes, 2, bytes.len());
    assert(digits@ =~= bytes@.skip(2));
    match parse_hex(digits, 65535) {
        Some(value) => Ok(value),
        None => Err(
            refuse_profile(name, in_a_row(" code point ", text, " is not hex").as_str()),
        ),
    }
}

/// White space: the characters with the Unicode property of that name.
pub open spec fn is_space(character: char) -> bool {
    let point = character as int;
    ||| 0x09 <= point <= 0x0d
    ||| point == 0x20
    ||| point == 0x85
    ||| point == 0xa0
    ||| point == 0x1680
    ||| 0x2000 <= point <= 0x200a
    ||| point == 0x2028
    ||| point == 0x2029
    ||| point == 0x202f
    ||| point == 0x205f
    ||| point == 0x3000
}

/// The characters without white space.
pub open spec fn without_space(text: Seq<char>) -> Seq<char>
    decreases text.len(),
{
    if text.len() == 0 {
        text
    } else if is_space(text.last()) {
        without_space(text.drop_last())
    } else {
        without_space(text.drop_last()).push(text.last())
    }
}

fn is_white(character: char) -> (white: bool)
    ensures
        white == is_space(character),
{
    let point = character as u32;
    (0x09 <= point && point <= 0x0d) || point == 0x20 || point == 0x85 || point == 0xa0 || point
        == 0x1680 || (0x2000 <= point && point <= 0x200a) || point == 0x2028 || point == 0x2029
        || point == 0x202f || point == 0x205f || point == 0x3000
}

fn drop_space(text: &str) -> (kept: String)
    ensures
        kept@ == without_space(text@),
{
    let mut kept = String::new();
    assert(text@.take(0) =~= Seq::<char>::empty());
    assert(kept@ =~= without_space(text@.take(0)));
    for character in characters: text.chars()
        invariant
            characters.seq() == text@,
            kept@ == without_space(text@.take(characters.index() as int)),
    {
        proof {
            let i = characters.index() as int;
            assert(text@.take(i + 1).drop_last() =~= text@.take(i));
        }
        if !is_white(character) {
            kept.push(character);
        }
    }
    assert(text@.take(text@.len() as int) =~= text@);
    kept
}

/// The bytes that the first `n` pairs of digits stand for.
pub open spec fn paired_bytes(digits: Seq<u8>, n: nat) -> Option<Seq<u8>>
    decreases n,
{
    if n == 0 {
        Some(Seq::empty())
    } else {
        match (
            paired_bytes(digits, (n - 1) as nat),
            hex_numeral(digits.subrange(2 * n - 2, 2 * n as int), 255),
        ) {
            (Some(bytes), Some(value)) => Some(bytes.push(value as u8)),
            _ => None,
        }
    }
}

proof fn lemma_unpaired_stays(digits: Seq<u8>, n: nat, m: nat)
    requires
        n <= m,
        paired_bytes(digits, n) is None,
    ensures
        paired_bytes(digits, m) is None,
    decreases m,
{
    if n < m {
        lemma_unpaired_stays(digits, n, (m - 1) as nat);
    }
}

/// The body that a text stands for: pairs of hexadecimal digits, with white
/// space anywhere.
pub open spec fn body_bytes(name: Seq<char>, text: Seq<char>) -> Result<Seq<u8>, Fault> {
    let digits = encode_utf8(without_space(text));
    if digits.len() % 2 != 0 {
        Err(profile_refusal(name, " has an extension body with an odd number of hex digits"@))
    } else if digits.len() / 2 > MAX_CONSTANT_BODY_BYTES {
        Err(profile_refusal(name, " has an extension body longer than any this build writes"@))
    } else {
        match paired_bytes(digits, digits.len() / 2) {
            Some(bytes) => Ok(bytes),
            None => Err(
                profile_refusal(name, " has an extension body that is not hex: "@ + text),
            ),
        }
    }
}

/// Read an extension body.
pub fn hex_body(name: &str, text: &str) -> (result: Result<Vec<u8>, WireError>)
    ensures
        match body_bytes(name@, text@) {
            Ok(bytes) => result matches Ok(actual) && actual@ == bytes,
            Err(fault) => result matches Err(error) && error@ == fault,
        },
{
    let compact = drop_space(text);
    let digits = compact.as_str().as_bytes();
    if digits.len() % 2 != 0 {
        return Err(
            refuse_profile(name, " has an extension body with an odd number of hex digits"),
        );
    }
    let count = digits.len() / 2;
    if count > MAX_CONSTANT_BODY_BYTES {
        return Err(
            refuse_profile(name, " has an extension body longer than any this build writes"),
        );
    }
    let mut body: Vec<u8> = Vec::new();
    for i in 0..count
        invariant
            digits@ == encode_utf8(without_space(text@)),
            count == digits@.len() / 2,
            digits@.len() % 2 == 0,
            count <= MAX_CONSTANT_BODY_BYTES,
            paired_bytes(digits@, i as nat) == Some(body@),
    {
        let pair = vstd::slice::slice_subrange(digits, 2 * i, 2 * i + 2);
        assert(pair@ == digits@.subrange(2 * (i + 1) - 2, 2 * (i + 1)));
        match parse_hex(pair, 255) {
            Some(value) => {
                body.push(value as u8);
            },
            None => {
                proof {
                    lemma_unpaired_stays(digits@, (i + 1) as nat, count as nat);
                }
                let mut rest = text_of(" has an extension body that is not hex: ");
                rest.append(text);
                return Err(refuse_profile(name, rest.as_str()));
            },
        }
    }
    Ok(body)
}

/// The items of a field that has to be a list.
pub open spec fn field_items(name: Seq<char>, field: Seq<char>, value: JsonShape) -> Result<
    Seq<JsonShape>,
    Fault,
> {
    match value {
        JsonShape::Array(items) => Ok(items),
        _ => Err(profile_refusal(name, " "@ + field + " is not a list"@)),
    }
}

/// The items of a field that has to be a list.
pub fn entries<'a>(name: &str, field: &str, value: &'a Json) -> (result: Result<
    &'a Vec<Json>,
    WireError,
>)
    ensures
        match field_items(name@, field@, value@) {
            Ok(items) => result matches Ok(actual) && shapes_of(actual@) == items,
            Err(fault) => result matches Err(error) && error@ == fault,
        },
{
    match value.as_array() {
        Some(items) => Ok(items),
        None => Err(refuse_profile(name, in_a_row(" ", field, " is not a list").as_str())),
    }
}

/// The code point in an entry of a list.
pub open spec fn entry_point(name: Seq<char>, field: Seq<char>, entry: JsonShape) -> Result<
    u16,
    Fault,
> {
    match entry.text_at("value"@) {
        None => Err(profile_refusal(name, " has a "@ + field + " entry with no value"@)),
        Some(text) => code_point(name, text),
    }
}

/// The code point in an entry of a list.
pub fn entry_code_point(name: &str, field: &str, entry: &Json) -> (result: Result<u16, WireError>)
    ensures
        match entry_point(name@, field@, entry@) {
            Ok(value) => result == Ok::<u16, WireError>(value),
            Err(fault) => result matches Err(error) && error@ == fault,
        },
{
    match entry.text_at("value") {
        None => Err(
            refuse_profile(name, in_a_row(" has a ", field, " entry with no value").as_str()),
        ),
        Some(text) => hex16(name, text),
    }
}

/// The slot that an entry of the suite list stands for.
pub open spec fn suite_slot(name: Seq<char>, entry: JsonShape) -> Result<CipherSuiteSlot, Fault> {
    match entry.text_at("role"@) {
        None => Err(profile_refusal(name, " has a cipher_suites entry with no role"@)),
        Some(role) => if role == "grease"@ {
            Ok(CipherSuiteSlot::Grease)
        } else if role == "negotiable"@ {
            match entry_point(name, "cipher_suites"@, entry) {
                Ok(id) => Ok(CipherSuiteSlot::Negotiable(id)),
                Err(fault) => Err(fault),
            }
        } else if role == "decorative"@ {
            match entry_point(name, "cipher_suites"@, entry) {
                Ok(id) => Ok(CipherSuiteSlot::Decorative(id)),
                Err(fault) => Err(fault),
            }
        } else {
            Err(profile_refusal(name, " gives a cipher suite the unknown role "@ + role))
        },
    }
}

fn read_suite_slot(name: &str, entry: &Json) -> (result: Result<CipherSuiteSlot, WireError>)
    ensures
        match suite_slot(name@, entry@) {
            Ok(slot) => result == Ok::<CipherSuiteSlot, WireError>(slot),
            Err(fault) => result matches Err(error) && error@ == fault,
        },
{
    let role = match entry.text_at("role") {
        None => {
            return Err(refuse_profile(name, " has a cipher_suites entry with no role"));
        },
        Some(role) => role,
    };
    if text_equal(role, "grease") {
        Ok(CipherSuiteSlot::Grease)
    } else if text_equal(role, "negotiable") {
        match entry_code_point(name, "cipher_suites", entry) {
            Ok(id) => Ok(CipherSuiteSlot::Negotiable(id)),
            Err(error) => Err(error),
        }
    } else if text_equal(role, "decorative") {
        match entry_code_point(name, "cipher_suites", entry) {
            Ok(id) => Ok(CipherSuiteSlot::Decorative(id)),
            Err(error) => Err(error),
        }
    } else {
        let mut rest = text_of(" gives a cipher suite the unknown role ");
        rest.append(role);
        Err(refuse_profile(name, rest.as_str()))
    }
}

/// Whether an entry stands for a GREASE value.
pub open spec fn greased(entry: JsonShape) -> bool {
    entry.text_at("value"@) == Some("GREASE"@)
}

fn is_greased(entry: &Json) -> (grease: bool)
    ensures
        grease == greased(entry@),
{
    match entry.text_at("value") {
        Some(text) => text_equal(text, "GREASE"),
        None => false,
    }
}

/// The slot that an entry of the group list stands for.
pub open spec fn group_slot(name: Seq<char>, entry: JsonShape) -> Result<GroupSlot, Fault> {
    if greased(entry) {
        Ok(GroupSlot::Grease)
    } else {
        match entry_point(name, "supported_groups"@, entry) {
            Err(fault) => Err(fault),
            Ok(id) => match group_of(id as int) {
                Some(group) => Ok(GroupSlot::Group(group)),
                None => Err(
                    profile_refusal(
                        name,
                        " names group 0x"@ + hex_word(id)
                            + ", which this build has no name for"@,
                    ),
                ),
            },
        }
    }
}

fn nameless_group(name: &str, front: &str, id: u16) -> (error: WireError)
    ensures
        error@ == profile_refusal(
            name@,
            front@ + hex_word(id) + ", which this build has no name for"@,
        ),
{
    let mut rest = text_of(front);
    push_hex_word(&mut rest, id);
    rest.append(", which this build has no name for");
    refuse_profile(name, rest.as_str())
}

fn read_group_slot(name: &str, entry: &Json) -> (result: Result<GroupSlot, WireError>)
    ensures
        match group_slot(name@, entry@) {
            Ok(slot) => result == Ok::<GroupSlot, WireError>(slot),
            Err(fault) => result matches Err(error) && error@ == fault,
        },
{
    if is_greased(entry) {
        return Ok(GroupSlot::Grease);
    }
    match entry_code_point(name, "supported_groups", entry) {
        Err(error) => Err(error),
        Ok(id) => match group_with_id(id) {
            Some(group) => Ok(GroupSlot::Group(group)),
            None => Err(nameless_group(name, " names group 0x", id)),
        },
    }
}

/// The slot that an entry of the share list stands for.
pub open spec fn share_slot(name: Seq<char>, entry: JsonShape) -> Result<KeyShareSlot, Fault> {
    if greased(entry) {
        Ok(KeyShareSlot::Grease)
    } else {
        match entry_point(name, "key_shares"@, entry) {
            Err(fault) => Err(fault),
            Ok(id) => match group_of(id as int) {
                Some(group) => Ok(KeyShareSlot::Group(group)),
                None => Err(
                    profile_refusal(
                        name,
                        " sends a share for 0x"@ + hex_word(id)
                            + ", which this build has no name for"@,
                    ),
                ),
            },
        }
    }
}

fn read_share_slot(name: &str, entry: &Json) -> (result: Result<KeyShareSlot, WireError>)
    ensures
        match share_slot(name@, entry@) {
            Ok(slot) => result == Ok::<KeyShareSlot, WireError>(slot),
            Err(fault) => result matches Err(error) && error@ == fault,
        },
{
    if is_greased(entry) {
        return Ok(KeyShareSlot::Grease);
    }
    match entry_code_point(name, "key_shares", entry) {
        Err(error) => Err(error),
        Ok(id) => match group_with_id(id) {
            Some(group) => Ok(KeyShareSlot::Group(group)),
            None => Err(nameless_group(name, " sends a share for 0x", id)),
        },
    }
}

/// The slot that an entry of the version list stands for.
pub open spec fn version_slot(name: Seq<char>, entry: JsonShape) -> Result<VersionSlot, Fault> {
    if greased(entry) {
        Ok(VersionSlot::Grease)
    } else {
        match entry_point(name, "supported_versions"@, entry) {
            Err(fault) => Err(fault),
            Ok(version) => Ok(VersionSlot::Version(version)),
        }
    }
}

fn read_version_slot(name: &str, entry: &Json) -> (result: Result<VersionSlot, WireError>)
    ensures
        match version_slot(name@, entry@) {
            Ok(slot) => result == Ok::<VersionSlot, WireError>(slot),
            Err(fault) => result matches Err(error) && error@ == fault,
        },
{
    if is_greased(entry) {
        return Ok(VersionSlot::Grease);
    }
    match entry_code_point(name, "supported_versions", entry) {
        Err(error) => Err(error),
        Ok(version) => Ok(VersionSlot::Version(version)),
    }
}

/// The code point that an entry of a plain list stands for: a text, or a list
/// that starts with one.
pub open spec fn listed_point(name: Seq<char>, field: Seq<char>, entry: JsonShape) -> Result<
    u16,
    Fault,
> {
    let unreadable = profile_refusal(name, " has an unreadable "@ + field + " entry"@);
    match entry {
        JsonShape::Text(text) => code_point(name, text),
        JsonShape::Array(pair) => if pair.len() == 0 {
            Err(unreadable)
        } else {
            match pair[0] {
                JsonShape::Text(text) => code_point(name, text),
                _ => Err(unreadable),
            }
        },
        _ => Err(unreadable),
    }
}

fn read_listed_point(name: &str, field: &str, entry: &Json) -> (result: Result<u16, WireError>)
    ensures
        match listed_point(name@, field@, entry@) {
            Ok(value) => result == Ok::<u16, WireError>(value),
            Err(fault) => result matches Err(error) && error@ == fault,
        },
{
    if let Some(text) = entry.as_str() {
        return hex16(name, text);
    }
    if let Some(pair) = entry.as_array() {
        if pair.len() > 0 {
            assert(pair@[0]@ == shapes_of(pair@)[0]);
            if let Some(text) = pair[0].as_str() {
                return hex16(name, text);
            }
        }
    }
    Err(refuse_profile(name, in_a_row(" has an unreadable ", field, " entry").as_str()))
}

/// The slots of the suite list, the first `n` of them.
pub open spec fn suite_slots(name: Seq<char>, items: Seq<JsonShape>, n: nat) -> Result<Seq<CipherSuiteSlot>, Fault>
    decreases n,
{
    if n == 0 {
        Ok(Seq::empty())
    } else {
        match suite_slots(name, items, (n - 1) as nat) {
            Err(fault) => Err(fault),
            Ok(front) => match suite_slot(name, items[n - 1]) {
                Err(fault) => Err(fault),
                Ok(slot) => Ok(front.push(slot)),
            },
        }
    }
}

proof fn lemma_suite_slots_fault(name: Seq<char>, items: Seq<JsonShape>, n: nat, m: nat)
    requires
        n <= m,
        suite_slots(name, items, n) is Err,
    ensures
        suite_slots(name, items, m) == suite_slots(name, items, n),
    decreases m,
{
    if n < m {
        lemma_suite_slots_fault(name, items, n, (m - 1) as nat);
    }
}

/// The slots of the suite list, of a whole field.
pub open spec fn suite_slots_field(name: Seq<char>, value: JsonShape) -> Result<Seq<CipherSuiteSlot>, Fault> {
    match field_items(name, "cipher_suites"@, value) {
        Err(fault) => Err(fault),
        Ok(items) => suite_slots(name, items, items.len()),
    }
}

/// The slots of the suite list.
pub fn build_cipher_suites(name: &str, value: &Json) -> (result: Result<Vec<CipherSuiteSlot>, WireError>)
    ensures
        match suite_slots_field(name@, value@) {
            Ok(slots) => result matches Ok(actual) && actual@ == slots,
            Err(fault) => result matches Err(error) && error@ == fault,
        },
{
    let items = match entries(name, "cipher_suites", value) {
        Ok(items) => items,
        Err(error) => {
            return Err(error);
        },
    };
    let mut slots: Vec<CipherSuiteSlot> = Vec::new();
    for i in 0..items.len()
        invariant
            suite_slots(name@, shapes_of(items@), i as nat) == Ok::<Seq<CipherSuiteSlot>, Fault>(slots@),
            field_items(name@, "cipher_suites"@, value@) == Ok::<Seq<JsonShape>, Fault>(
                shapes_of(items@),
            ),
    {
        assert(shapes_of(items@)[i as int] == items@[i as int]@);
        match read_suite_slot(name, &items[i]) {
            Ok(slot) => {
                slots.push(slot);
            },
            Err(error) => {
                proof {
                    lemma_suite_slots_fault(
                        name@,
                        shapes_of(items@),
                        (i + 1) as nat,
                        items@.len(),
                    );
                }
                return Err(error);
            },
        }
    }
    Ok(slots)
}

/// The slots of the group list, the first `n` of them.
pub open spec fn group_slots(name: Seq<char>, items: Seq<JsonShape>, n: nat) -> Result<Seq<GroupSlot>, Fault>
    decreases n,
{
    if n == 0 {
        Ok(Seq::empty())
    } else {
        match group_slots(name, items, (n - 1) as nat) {
            Err(fault) => Err(fault),
            Ok(front) => match group_slot(name, items[n - 1]) {
                Err(fault) => Err(fault),
                Ok(slot) => Ok(front.push(slot)),
            },
        }
    }
}

proof fn lemma_group_slots_fault(name: Seq<char>, items: Seq<JsonShape>, n: nat, m: nat)
    requires
        n <= m,
        group_slots(name, items, n) is Err,
    ensures
        group_slots(name, items, m) == group_slots(name, items, n),
    decreases m,
{
    if n < m {
        lemma_group_slots_fault(name, items, n, (m - 1) as nat);
    }
}

/// The slots of the group list, of a whole field.
pub open spec fn group_slots_field(name: Seq<char>, value: JsonShape) -> Result<Seq<GroupSlot>, Fault> {
    match field_items(name, "supported_groups"@, value) {
        Err(fault) => Err(fault),
        Ok(items) => group_slots(name, items, items.len()),
    }
}

/// The slots of the group list.
pub fn build_groups(name: &str, value: &Json) -> (result: Result<Vec<GroupSlot>, WireError>)
    ensures
        match group_slots_field(name@, value@) {
            Ok(slots) => result matches Ok(actual) && actual@ == slots,
            Err(fault) => result matches Err(error) && error@ == fault,
        },
{
    let items = match entries(name, "supported_groups", value) {
        Ok(items) => items,
        Err(error) => {
            return Err(error);
        },
    };
    let mut slots: Vec<GroupSlot> = Vec::new();
    for i in 0..items.len()
        invariant
            group_slots(name@, shapes_of(items@), i as nat) == Ok::<Seq<GroupSlot>, Fault>(slots@),
            field_items(name@, "supported_groups"@, value@) == Ok::<Seq<JsonShape>, Fault>(
                shapes_of(items@),
            ),
    {
        assert(shapes_of(items@)[i as int] == items@[i as int]@);
        match read_group_slot(name, &items[i]) {
            Ok(slot) => {
                slots.push(slot);
            },
            Err(error) => {
                proof {
                    lemma_group_slots_fault(
                        name@,
                        shapes_of(items@),
                        (i + 1) as nat,
                        items@.len(),
                    );
                }
                return Err(error);
            },
        }
    }
    Ok(slots)
}

/// The slots of the share list, the first `n` of them.
pub open spec fn share_slots(name: Seq<char>, items: Seq<JsonShape>, n: nat) -> Result<Seq<KeyShareSlot>, Fault>
    decreases n,
{
    if n == 0 {
        Ok(Seq::empty())
    } else {
        match share_slots(name, items, (n - 1) as nat) {
            Err(fault) => Err(fault),
            Ok(front) => match share_slot(name, items[n - 1]) {
                Err(fault) => Err(fault),
                Ok(slot) => Ok(front.push(slot)),
            },
        }
    }
}

proof fn lemma_share_slots_fault(name: Seq<char>, items: Seq<JsonShape>, n: nat, m: nat)
    requires
        n <= m,
        share_slots(name, items, n) is Err,
    ensures
        share_slots(name, items, m) == share_slots(name, items, n),
    decreases m,
{
    if n < m {
        lemma_share_slots_fault(name, items, n, (m - 1) as nat);
    }
}

/// The slots of the share list, of a whole field.
pub open spec fn share_slots_field(name: Seq<char>, value: JsonShape) -> Result<Seq<KeyShareSlot>, Fault> {
    match field_items(name, "key_shares"@, value) {
        Err(fault) => Err(fault),
        Ok(items) => share_slots(name, items, items.len()),
    }
}

/// The slots of the share list.
pub fn build_key_shares(name: &str, value: &Json) -> (result: Result<Vec<KeyShareSlot>, WireError>)
    ensures
        match share_slots_field(name@, value@) {
            Ok(slots) => result matches Ok(actual) && actual@ == slots,
            Err(fault) => result matches Err(error) && error@ == fault,
        },
{
    let items = match entries(name, "key_shares", value) {
        Ok(items) => items,
        Err(error) => {
            return Err(error);
        },
    };
    let mut slots: Vec<KeyShareSlot> = Vec::new();
    for i in 0..items.len()
        invariant
            share_slots(name@, shapes_of(items@), i as nat) == Ok::<Seq<KeyShareSlot>, Fault>(slots@),
            field_items(name@, "key_shares"@, value@) == Ok::<Seq<JsonShape>, Fault>(
                shapes_of(items@),
            ),
    {
        assert(shapes_of(items@)[i as int] == items@[i as int]@);
        match read_share_slot(name, &items[i]) {
            Ok(slot) => {
                slots.push(slot);
            },
            Err(error) => {
                proof {
                    lemma_share_slots_fault(
                        name@,
                        shapes_of(items@),
                        (i + 1) as nat,
                        items@.len(),
                    );
                }
                return Err(error);
            },
        }
    }
    Ok(slots)
}

/// The slots of the version list, the first `n` of them.
pub open spec fn version_slots(name: Seq<char>, items: Seq<JsonShape>, n: nat) -> Result<Seq<VersionSlot>, Fault>
    decreases n,
{
    if n == 0 {
        Ok(Seq::empty())
    } else {
        match version_slots(name, items, (n - 1) as nat) {
            Err(fault) => Err(fault),
            Ok(front) => match version_slot(name, items[n - 1]) {
                Err(fault) => Err(fault),
                Ok(slot) => Ok(front.push(slot)),
            },
        }
    }
}

proof fn lemma_version_slots_fault(name: Seq<char>, items: Seq<JsonShape>, n: nat, m: nat)
    requires
        n <= m,
        version_slots(name, items, n) is Err,
    ensures
        version_slots(name, items, m) == version_slots(name, items, n),
    decreases m,
{
    if n < m {
        lemma_version_slots_fault(name, items, n, (m - 1) as nat);
    }
}

/// The slots of the version list, of a whole field.
pub open spec fn version_slots_field(name: Seq<char>, value: JsonShape) -> Result<Seq<VersionSlot>, Fault> {
    match field_items(name, "supported_versions"@, value) {
        Err(fault) => Err(fault),
        Ok(items) => version_slots(name, items, items.len()),
    }
}

/// The slots of the version list.
pub fn build_versions(name: &str, value: &Json) -> (result: Result<Vec<VersionSlot>, WireError>)
    ensures
        match version_slots_field(name@, value@) {
            Ok(slots) => result matches Ok(actual) && actual@ == slots,
            Err(fault) => result matches Err(error) && error@ == fault,
        },
{
    let items = match entries(name, "supported_versions", value) {
        Ok(items) => items,
        Err(error) => {
            return Err(error);
        },
    };
    let mut slots: Vec<VersionSlot> = Vec::new();
    for i in 0..items.len()
        invariant
            version_slots(name@, shapes_of(items@), i as nat) == Ok::<Seq<VersionSlot>, Fault>(slots@),
            field_items(name@, "supported_versions"@, value@) == Ok::<Seq<JsonShape>, Fault>(
                shapes_of(items@),
            ),
    {
        assert(shapes_of(items@)[i as int] == items@[i as int]@);
        match read_version_slot(name, &items[i]) {
            Ok(slot) => {
                slots.push(slot);
            },
            Err(error) => {
                proof {
                    lemma_version_slots_fault(
                        name@,
                        shapes_of(items@),
                        (i + 1) as nat,
                        items@.len(),
                    );
                }
                return Err(error);
            },
        }
    }
    Ok(slots)
}

/// The code points of a plain list, the first `n` of them.
pub open spec fn listed_points(name: Seq<char>, field: Seq<char>, items: Seq<JsonShape>, n: nat) -> Result<Seq<u16>, Fault>
    decreases n,
{
    if n == 0 {
        Ok(Seq::empty())
    } else {
        match listed_points(name, field, items, (n - 1) as nat) {
            Err(fault) => Err(fault),
            Ok(front) => match listed_point(name, field, items[n - 1]) {
                Err(fault) => Err(fault),
                Ok(slot) => Ok(front.push(slot)),
            },
        }
    }
}

proof fn lemma_listed_points_fault(name: Seq<char>, field: Seq<char>, items: Seq<JsonShape>, n: nat, m: nat)
    requires
        n <= m,
        listed_points(name, field, items, n) is Err,
    ensures
        listed_points(name, field, items, m) == listed_points(name, field, items, n),
    decreases m,
{
    if n < m {
        lemma_listed_points_fault(name, field, items, n, (m - 1) as nat);
    }
}

/// The code points of a plain list, of a whole field.
pub open spec fn listed_points_field(name: Seq<char>, field: Seq<char>, value: JsonShape) -> Result<Seq<u16>, Fault> {
    match field_items(name, field, value) {
        Err(fault) => Err(fault),
        Ok(items) => listed_points(name, field, items, items.len()),
    }
}

/// The code points of a plain list.
pub fn code_points(name: &str, field: &str, value: &Json) -> (result: Result<Vec<u16>, WireError>)
    ensures
        match listed_points_field(name@, field@, value@) {
            Ok(slots) => result matches Ok(actual) && actual@ == slots,
            Err(fault) => result matches Err(error) && error@ == fault,
        },
{
    let items = match entries(name, field, value) {
        Ok(items) => items,
        Err(error) => {
            return Err(error);
        },
    };
    let mut slots: Vec<u16> = Vec::new();
    for i in 0..items.len()
        invariant
            listed_points(name@, field@, shapes_of(items@), i as nat) == Ok::<Seq<u16>, Fault>(slots@),
            field_items(name@, field@, value@) == Ok::<Seq<JsonShape>, Fault>(
                shapes_of(items@),
            ),
    {
        assert(shapes_of(items@)[i as int] == items@[i as int]@);
        match read_listed_point(name, field, &items[i]) {
            Ok(slot) => {
                slots.push(slot);
            },
            Err(error) => {
                proof {
                    lemma_listed_points_fault(
                        name@, field@,
                        shapes_of(items@),
                        (i + 1) as nat,
                        items@.len(),
                    );
                }
                return Err(error);
            },
        }
    }
    Ok(slots)
}

/// The code points in a row, two bytes each.
pub open spec fn point_bytes(points: Seq<u16>, n: nat) -> Seq<u8>
    decreases n,
{
    if n == 0 {
        Seq::empty()
    } else {
        point_bytes(points, (n - 1) as nat) + be16(points[n - 1])
    }
}

/// A list of code points behind its length in bytes.
pub open spec fn prefixed_points(points: Seq<u16>) -> Seq<u8> {
    be16((points.len() * 2 % 65536) as u16) + point_bytes(points, points.len())
}

/// A list of code points behind its length in bytes.
pub fn length_prefixed(points: &Vec<u16>) -> (bytes: Vec<u8>)
    ensures
        bytes@ == prefixed_points(points@),
{
    let mut bytes: Vec<u8> = Vec::new();
    push_u16(&mut bytes, (points.len() % 32768) as u16 * 2);
    proof {
        lemma_truncate_middle(points@.len() as int, 2, 32768);
    }
    for i in 0..points.len()
        invariant
            bytes@ == be16((points@.len() * 2 % 65536) as u16) + point_bytes(points@, i as nat),
    {
        push_u16(&mut bytes, points[i]);
        assert(bytes@ =~= be16((points@.len() * 2 % 65536) as u16) + point_bytes(
            points@,
            (i + 1) as nat,
        ));
    }
    bytes
}

/// What is wrong with a field that a table may not change.
pub open spec fn frozen_fault(
    name: Seq<char>,
    field: Seq<char>,
    value: JsonShape,
    expected: u16,
) -> Option<Fault> {
    match value {
        JsonShape::Text(text) => match code_point(name, text) {
            Err(fault) => Some(fault),
            Ok(point) => if point != expected {
                Some(
                    profile_refusal(
                        name,
                        " asks for "@ + field + " 0x"@ + hex_word(expected)
                            + " to change, which is not a table field"@,
                    ),
                )
            } else {
                None
            },
        },
        _ => Some(profile_refusal(name, " "@ + field + " is not a code point"@)),
    }
}

/// Refuse a change to a field that a table may not change.
pub fn require_frozen(name: &str, field: &str, value: &Json, expected: u16) -> (result: Result<
    (),
    WireError,
>)
    ensures
        match frozen_fault(name@, field@, value@, expected) {
            None => result is Ok,
            Some(fault) => result matches Err(error) && error@ == fault,
        },
{
    let text = match value.as_str() {
        Some(text) => text,
        None => {
            return Err(
                refuse_profile(name, in_a_row(" ", field, " is not a code point").as_str()),
            );
        },
    };
    match hex16(name, text) {
        Err(error) => Err(error),
        Ok(point) => {
            if point != expected {
                let mut rest = in_a_row(" asks for ", field, " 0x");
                push_hex_word(&mut rest, expected);
                rest.append(" to change, which is not a table field");
                return Err(refuse_profile(name, rest.as_str()));
            }
            Ok(())
        },
    }
}

} // verus!
