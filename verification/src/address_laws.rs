//! Addresses and names in writing: how a text falls into pieces, and which texts stand
//! for which octets.
use crate::address_text::{
    digits_value, gap_from, group_of, hex_number, hex_value, ipv4_of, ipv6_of, joined_octets,
    octet_of, pieces_of, side_octets,
};
use crate::octets::be16;
use crate::reality::driver::{valid_label, valid_server_name, without_trailing_dots};
use vstd::prelude::*;

verus! {

/// Pieces in a row, with a separator between each two.
pub open spec fn strung(pieces: Seq<Seq<u8>>, separator: u8) -> Seq<u8>
    decreases pieces.len(),
{
    if pieces.len() <= 1 {
        pieces[0]
    } else {
        strung(pieces.drop_last(), separator).push(separator) + pieces.last()
    }
}

/// Whether a separator stands nowhere in a piece.
pub open spec fn free_of(piece: Seq<u8>, separator: u8) -> bool {
    forall|i: int| 0 <= i < piece.len() ==> #[trigger] piece[i] != separator
}

proof fn lemma_split_strings(bytes: Seq<u8>, separator: u8, n: nat)
    requires
        n <= bytes.len(),
    ensures
        pieces_of(bytes, separator, n).len() >= 1,
        strung(pieces_of(bytes, separator, n), separator) == bytes.take(n as int),
        forall|k: int|
            0 <= k < pieces_of(bytes, separator, n).len() ==> free_of(
                #[trigger] pieces_of(bytes, separator, n)[k],
                separator,
            ),
    decreases n,
{
    let pieces = pieces_of(bytes, separator, n);
    if n == 0 {
        assert(pieces[0] =~= bytes.take(0));
    } else {
        let before = pieces_of(bytes, separator, (n - 1) as nat);
        lemma_split_strings(bytes, separator, (n - 1) as nat);
        assert(bytes.take(n as int) =~= bytes.take(n - 1).push(bytes[n - 1]));
        if bytes[n - 1] == separator {
            assert(pieces.drop_last() =~= before);
            assert(strung(pieces, separator) =~= strung(before, separator).push(separator));
            assert forall|k: int| 0 <= k < pieces.len() implies free_of(
                #[trigger] pieces[k],
                separator,
            ) by {
                if k < before.len() {
                    assert(pieces[k] == before[k]);
                }
            }
        } else {
            assert(pieces.drop_last() =~= before.drop_last());
            assert(pieces.last() == before.last().push(bytes[n - 1]));
            assert(strung(pieces, separator) =~= strung(before, separator).push(bytes[n - 1]));
            assert forall|k: int| 0 <= k < pieces.len() implies free_of(
                #[trigger] pieces[k],
                separator,
            ) by {
                assert(free_of(before.last(), separator));
                if k < before.len() - 1 {
                    assert(pieces[k] == before[k]);
                }
            }
        }
    }
}

proof fn lemma_pieces_prefix(bytes: Seq<u8>, longer: Seq<u8>, separator: u8, n: nat)
    requires
        n <= bytes.len() <= longer.len(),
        longer.take(n as int) == bytes.take(n as int),
    ensures
        pieces_of(longer, separator, n) == pieces_of(bytes, separator, n),
    decreases n,
{
    if n > 0 {
        assert(longer.take(n - 1) =~= longer.take(n as int).take(n - 1));
        assert(bytes.take(n - 1) =~= bytes.take(n as int).take(n - 1));
        lemma_pieces_prefix(bytes, longer, separator, (n - 1) as nat);
        assert(longer[n - 1] == longer.take(n as int)[n - 1]);
        assert(bytes[n - 1] == bytes.take(n as int)[n - 1]);
    }
}

proof fn lemma_pieces_grow(bytes: Seq<u8>, separator: u8, start: nat, n: nat)
    requires
        start <= n <= bytes.len(),
        forall|i: int| start <= i < n ==> #[trigger] bytes[i] != separator,
    ensures
        ({
            let before = pieces_of(bytes, separator, start);
            &&& before.len() >= 1
            &&& pieces_of(bytes, separator, n) == before.drop_last().push(
                before.last() + bytes.subrange(start as int, n as int),
            )
        }),
    decreases n - start,
{
    lemma_split_strings(bytes, separator, start);
    let before = pieces_of(bytes, separator, start);
    if n == start {
        assert(before.last() + bytes.subrange(start as int, n as int) =~= before.last());
        assert(before.drop_last().push(before.last()) =~= before);
    } else {
        lemma_pieces_grow(bytes, separator, start, (n - 1) as nat);
        let middle = pieces_of(bytes, separator, (n - 1) as nat);
        assert(middle.drop_last() =~= before.drop_last());
        assert((before.last() + bytes.subrange(start as int, n - 1)).push(bytes[n - 1])
            =~= before.last() + bytes.subrange(start as int, n as int));
    }
}

proof fn lemma_strung_splits(pieces: Seq<Seq<u8>>, separator: u8)
    requires
        pieces.len() >= 1,
        forall|k: int| 0 <= k < pieces.len() ==> free_of(#[trigger] pieces[k], separator),
    ensures
        ({
            let bytes = strung(pieces, separator);
            pieces_of(bytes, separator, bytes.len()) == pieces
        }),
    decreases pieces.len(),
{
    let bytes = strung(pieces, separator);
    if pieces.len() == 1 {
        assert(free_of(pieces[0], separator));
        lemma_pieces_grow(bytes, separator, 0, bytes.len());
        assert(Seq::<u8>::empty() + bytes.subrange(0, bytes.len() as int) =~= pieces[0]);
        assert(pieces_of(bytes, separator, bytes.len()) =~= pieces);
    } else {
        let front = pieces.drop_last();
        assert forall|k: int| 0 <= k < front.len() implies free_of(
            #[trigger] front[k],
            separator,
        ) by {
            assert(front[k] == pieces[k]);
        }
        lemma_strung_splits(front, separator);
        let text = strung(front, separator);
        let n = text.len();
        assert(bytes.take(n as int) =~= text.take(n as int));
        lemma_pieces_prefix(text, bytes, separator, n);
        assert(bytes[n as int] == separator);
        assert(pieces_of(bytes, separator, n + 1) == front.push(Seq::empty()));
        assert(free_of(pieces.last(), separator));
        assert forall|i: int| n + 1 <= i < bytes.len() implies #[trigger] bytes[i] != separator by {
            assert(bytes[i] == pieces.last()[i - n - 1]);
        }
        lemma_pieces_grow(bytes, separator, n + 1, bytes.len());
        assert(Seq::<u8>::empty() + bytes.subrange(n as int + 1, bytes.len() as int) =~= pieces.last());
        assert(front.push(Seq::empty()).drop_last() =~= front);
        assert(front.push(pieces.last()) =~= pieces);
    }
}

/// A text falls into the pieces between its separators: none of them holds one, with
/// separators between them they are the text again, and no other pieces are.
pub proof fn a_text_falls_at_its_separators(
    bytes: Seq<u8>,
    separator: u8,
    pieces: Seq<Seq<u8>>,
)
    ensures
        pieces_of(bytes, separator, bytes.len()) == pieces <==> {
            &&& pieces.len() >= 1
            &&& strung(pieces, separator) == bytes
            &&& forall|k: int| 0 <= k < pieces.len() ==> free_of(#[trigger] pieces[k], separator)
        },
{
    lemma_split_strings(bytes, separator, bytes.len());
    assert(bytes.take(bytes.len() as int) =~= bytes);
    if pieces.len() >= 1 && strung(pieces, separator) == bytes && (forall|k: int|
        0 <= k < pieces.len() ==> free_of(#[trigger] pieces[k], separator)) {
        lemma_strung_splits(pieces, separator);
    }
}

/// A number below 256 in decimal, without leading zeros.
pub open spec fn decimal(octet: u8) -> Seq<u8> {
    if octet >= 100 {
        seq![
            (48 + octet / 100) as u8,
            (48 + octet / 10 % 10) as u8,
            (48 + octet % 10) as u8,
        ]
    } else if octet >= 10 {
        seq![(48 + octet / 10) as u8, (48 + octet % 10) as u8]
    } else {
        seq![(48 + octet) as u8]
    }
}

/// Four octets in decimal, with dots between them.
pub open spec fn dotted(octets: Seq<u8>) -> Seq<u8> {
    strung(
        seq![decimal(octets[0]), decimal(octets[1]), decimal(octets[2]), decimal(octets[3])],
        46,
    )
}

proof fn lemma_digits(piece: Seq<u8>)
    requires
        1 <= piece.len() <= 3,
    ensures
        piece.len() == 1 ==> digits_value(piece) == piece[0] - 48,
        piece.len() == 2 ==> digits_value(piece) == 10 * (piece[0] - 48) + (piece[1] - 48),
        piece.len() == 3 ==> digits_value(piece) == 100 * (piece[0] - 48) + 10 * (piece[1] - 48)
            + (piece[2] - 48),
{
    reveal_with_fuel(digits_value, 4);
    let front = piece.drop_last();
    assert(front.len() == piece.len() - 1);
    if piece.len() >= 2 {
        assert(front.last() == piece[piece.len() - 2]);
        assert(front.drop_last().len() == piece.len() - 2);
        if piece.len() == 3 {
            assert(front.drop_last().last() == piece[0]);
        }
    }
}

proof fn lemma_octet(piece: Seq<u8>, octet: u8)
    ensures
        octet_of(piece) == Some(octet) <==> piece == decimal(octet),
        free_of(decimal(octet), 46),
{
    let text = decimal(octet);
    lemma_digits(text);
    if piece == text {
        assert(digits_value(piece) == octet);
    }
    if octet_of(piece) == Some(octet) {
        lemma_digits(piece);
        let value = digits_value(piece);
        assert(0 <= value <= 255);
        assert(value == octet);
        assert(48 <= piece[0] <= 57);
        if piece.len() == 1 {
            assert(piece =~= text);
        } else if piece.len() == 2 {
            assert(48 <= piece[1] <= 57);
            assert(value / 10 == piece[0] - 48 && value % 10 == piece[1] - 48);
            assert(piece =~= text);
        } else {
            assert(48 <= piece[1] <= 57);
            assert(48 <= piece[2] <= 57);
            assert(value / 100 == piece[0] - 48);
            assert(value / 10 == 10 * (piece[0] - 48) + (piece[1] - 48));
            assert(value / 10 % 10 == piece[1] - 48 && value % 10 == piece[2] - 48);
            assert(piece =~= text);
        }
    }
}

/// A text is an IPv4 address where it is four numbers below 256 with dots between them,
/// each without leading zeros, and stands for these.
pub proof fn an_ipv4_address_is_four_numbers(bytes: Seq<u8>, octets: Seq<u8>)
    ensures
        ipv4_of(bytes) == Some(octets) <==> octets.len() == 4 && bytes == dotted(octets),
{
    let pieces = pieces_of(bytes, 46, bytes.len());
    a_text_falls_at_its_separators(bytes, 46, pieces);
    if octets.len() == 4 {
        lemma_octet(pieces[0], octets[0]);
        lemma_octet(pieces[1], octets[1]);
        lemma_octet(pieces[2], octets[2]);
        lemma_octet(pieces[3], octets[3]);
        let written = seq![
            decimal(octets[0]),
            decimal(octets[1]),
            decimal(octets[2]),
            decimal(octets[3]),
        ];
        if bytes == dotted(octets) {
            a_text_falls_at_its_separators(bytes, 46, written);
            assert(pieces == written);
            assert(octets =~= seq![octets[0], octets[1], octets[2], octets[3]]);
        }
        if ipv4_of(bytes) == Some(octets) {
            let read = ipv4_of(bytes)->0;
            assert(octet_of(pieces[0]) == Some(read[0]));
            assert(octet_of(pieces[1]) == Some(read[1]));
            assert(octet_of(pieces[2]) == Some(read[2]));
            assert(octet_of(pieces[3]) == Some(read[3]));
            assert(pieces =~= written);
        }
    }
}

/// Whether a byte is a hexadecimal digit, of either case.
pub open spec fn is_digit_of_sixteen(digit: u8) -> bool {
    48 <= digit <= 57 || 65 <= digit <= 70 || 97 <= digit <= 102
}

/// The value of a hexadecimal digit of either case.
pub open spec fn sixteenth(digit: u8) -> int {
    if digit >= 97 {
        digit - 97 + 10
    } else if digit >= 65 {
        digit - 65 + 10
    } else {
        digit - 48
    }
}

/// Whether a piece is one to four hexadecimal digits that stand for a word.
pub open spec fn stands_for(piece: Seq<u8>, word: u16) -> bool {
    &&& 1 <= piece.len() <= 4
    &&& forall|i: int| 0 <= i < piece.len() ==> is_digit_of_sixteen(#[trigger] piece[i])
    &&& piece.len() == 1 ==> word == sixteenth(piece[0])
    &&& piece.len() == 2 ==> word == 16 * sixteenth(piece[0]) + sixteenth(piece[1])
    &&& piece.len() == 3 ==> word == 256 * sixteenth(piece[0]) + 16 * sixteenth(piece[1])
        + sixteenth(piece[2])
    &&& piece.len() == 4 ==> word == 4096 * sixteenth(piece[0]) + 256 * sixteenth(piece[1]) + 16
        * sixteenth(piece[2]) + sixteenth(piece[3])
}

/// Words as octets, the upper half of each first.
pub open spec fn halves(words: Seq<u16>) -> Seq<u8> {
    Seq::new(
        2 * words.len(),
        |i: int|
            if i % 2 == 0 {
                (words[i / 2] / 256) as u8
            } else {
                (words[i / 2] % 256) as u8
            },
    )
}

/// Whether pieces stand for words, each for its own.
pub open spec fn stand_for(pieces: Seq<Seq<u8>>, words: Seq<u16>) -> bool {
    &&& pieces.len() == words.len()
    &&& forall|k: int| 0 <= k < pieces.len() ==> stands_for(#[trigger] pieces[k], words[k])
}

/// Pieces with a colon between each two, and behind them four octets in dotted decimal
/// where there are any.
pub open spec fn side(pieces: Seq<Seq<u8>>, four: Seq<u8>) -> Seq<u8> {
    let all = if four.len() == 0 {
        pieces
    } else {
        pieces.push(dotted(four))
    };
    if all.len() == 0 {
        Seq::empty()
    } else {
        strung(all, 58)
    }
}

proof fn lemma_group(piece: Seq<u8>, word: u16)
    requires
        stands_for(piece, word),
    ensures
        group_of(piece) == Some(word as int),
        free_of(piece, 58),
{
    reveal_with_fuel(hex_number, 5);
    let n = piece.len();
    assert(is_digit_of_sixteen(piece[0]));
    let a = piece.drop_last();
    assert(piece.last() == piece[n - 1]);
    assert(is_digit_of_sixteen(piece[n - 1]));
    assert(hex_value(piece[n - 1]) == Some(sixteenth(piece[n - 1])));
    if n >= 2 {
        assert(a.last() == piece[n - 2]);
        assert(is_digit_of_sixteen(piece[n - 2]));
        let b = a.drop_last();
        if n >= 3 {
            assert(b.last() == piece[n - 3]);
            assert(is_digit_of_sixteen(piece[n - 3]));
            let c = b.drop_last();
            if n >= 4 {
                assert(c.last() == piece[n - 4]);
                assert(c.drop_last().len() == 0);
            }
        }
    }
    assert forall|i: int| 0 <= i < piece.len() implies #[trigger] piece[i] != 58 by {
        assert(is_digit_of_sixteen(piece[i]));
    }
}

proof fn lemma_groups_join(pieces: Seq<Seq<u8>>, words: Seq<u16>, n: nat, dots: bool)
    requires
        n <= words.len() <= pieces.len(),
        forall|k: int| 0 <= k < n ==> stands_for(#[trigger] pieces[k], words[k]),
    ensures
        joined_octets(pieces, n, dots) == Some(halves(words.take(n as int))),
    decreases n,
{
    if n == 0 {
        assert(halves(words.take(0)) =~= Seq::<u8>::empty());
    } else {
        lemma_groups_join(pieces, words, (n - 1) as nat, dots);
        lemma_group(pieces[n - 1], words[n - 1]);
        let front = words.take(n - 1);
        let all = words.take(n as int);
        let both = halves(front) + be16(words[n - 1]);
        assert(both.len() == halves(all).len());
        assert forall|i: int| 0 <= i < both.len() implies both[i] == #[trigger] halves(all)[i] by {
            if i < 2 * (n - 1) {
                assert(i / 2 < n - 1);
                assert(front[i / 2] == all[i / 2]);
            } else {
                assert(i / 2 == n - 1);
            }
        }
        assert(both =~= halves(all));
    }
}

proof fn lemma_strung_free(pieces: Seq<Seq<u8>>, separator: u8, other: u8)
    requires
        pieces.len() >= 1,
        separator != other,
        forall|k: int| 0 <= k < pieces.len() ==> free_of(#[trigger] pieces[k], other),
    ensures
        free_of(strung(pieces, separator), other),
    decreases pieces.len(),
{
    assert(free_of(pieces.last(), other));
    if pieces.len() == 1 {
        assert(free_of(pieces[0], other));
    } else {
        let front = pieces.drop_last();
        assert forall|k: int| 0 <= k < front.len() implies free_of(#[trigger] front[k], other) by {
            assert(front[k] == pieces[k]);
        }
        lemma_strung_free(front, separator, other);
        let text = strung(front, separator);
        let whole = strung(pieces, separator);
        assert forall|i: int| 0 <= i < whole.len() implies #[trigger] whole[i] != other by {
            if i < text.len() {
                assert(whole[i] == text[i]);
            } else if i > text.len() {
                assert(whole[i] == pieces.last()[i - text.len() - 1]);
            }
        }
    }
}

proof fn lemma_dotted(four: Seq<u8>)
    ensures
        free_of(dotted(four), 58),
        dotted(four).len() >= 7,
{
    let pieces = seq![decimal(four[0]), decimal(four[1]), decimal(four[2]), decimal(four[3])];
    assert forall|k: int| 0 <= k < pieces.len() implies free_of(#[trigger] pieces[k], 58) by {
        assert(pieces[k] == decimal(four[k]));
    }
    lemma_strung_free(pieces, 46, 58);
    reveal_with_fuel(strung, 5);
    let three = pieces.drop_last();
    assert(three.len() == 3 && three.last() == pieces[2]);
    let two = three.drop_last();
    assert(two.len() == 2 && two.last() == pieces[1]);
    assert(two.drop_last().len() == 1 && two.drop_last()[0] == pieces[0]);
}

proof fn lemma_side(pieces: Seq<Seq<u8>>, words: Seq<u16>, four: Seq<u8>)
    requires
        stand_for(pieces, words),
        four.len() == 0 || four.len() == 4,
    ensures
        side_octets(side(pieces, four), true) == Some(halves(words) + four),
        four.len() == 0 ==> side_octets(side(pieces, four), false) == Some(halves(words)),
{
    let text = side(pieces, four);
    let all = if four.len() == 0 {
        pieces
    } else {
        pieces.push(dotted(four))
    };
    assert(words.take(words.len() as int) =~= words);
    if all.len() == 0 {
        assert(halves(words) + four =~= Seq::<u8>::empty());
        assert(halves(words) =~= Seq::<u8>::empty());
    } else {
        lemma_dotted(four);
        assert forall|k: int| 0 <= k < all.len() implies free_of(#[trigger] all[k], 58) by {
            if k < pieces.len() {
                lemma_group(pieces[k], words[k]);
            }
        }
        a_text_falls_at_its_separators(text, 58, all);
        lemma_no_gap(all);
        if four.len() == 0 {
            lemma_groups_join(all, words, all.len(), true);
            lemma_groups_join(all, words, all.len(), false);
            assert(halves(words) + four =~= halves(words));
        } else {
            assert forall|k: int| 0 <= k < pieces.len() implies stands_for(
                #[trigger] all[k],
                words[k],
            ) by {
                assert(all[k] == pieces[k]);
            }
            lemma_groups_join(all, words, pieces.len(), true);
            assert(all.last() == dotted(four));
            an_ipv4_address_is_four_numbers(dotted(four), four);
        }
    }
}

/// Whether no two colons stand side by side in a text, and none at an end of it.
spec fn unbroken(text: Seq<u8>) -> bool {
    &&& text.len() > 0
    &&& text[0] != 58
    &&& text.last() != 58
    &&& forall|i: int| 0 <= i < text.len() - 1 ==> !(#[trigger] text[i] == 58 && text[i + 1] == 58)
}

proof fn lemma_no_gap(pieces: Seq<Seq<u8>>)
    requires
        pieces.len() >= 1,
        forall|k: int| 0 <= k < pieces.len() ==> free_of(#[trigger] pieces[k], 58),
        forall|k: int| 0 <= k < pieces.len() ==> (#[trigger] pieces[k]).len() > 0,
    ensures
        unbroken(strung(pieces, 58)),
    decreases pieces.len(),
{
    let last = pieces.last();
    assert(free_of(last, 58) && last.len() > 0);
    let whole = strung(pieces, 58);
    if pieces.len() == 1 {
        assert(free_of(pieces[0], 58));
    } else {
        let front = pieces.drop_last();
        assert forall|k: int| 0 <= k < front.len() implies free_of(#[trigger] front[k], 58)
            && front[k].len() > 0 by {
            assert(front[k] == pieces[k]);
        }
        lemma_no_gap(front);
        let text = strung(front, 58);
        assert(whole[0] == text[0]);
        assert(whole.last() == last.last());
        assert forall|i: int| 0 <= i < whole.len() - 1 implies !(#[trigger] whole[i] == 58
            && whole[i + 1] == 58) by {
            if i < text.len() - 1 {
                assert(whole[i] == text[i] && whole[i + 1] == text[i + 1]);
            } else if i == text.len() - 1 {
                assert(whole[i] == text.last());
            } else if i == text.len() {
                assert(whole[i + 1] == last[0]);
            } else {
                assert(whole[i] == last[i - text.len() - 1]);
            }
        }
    }
}

proof fn lemma_gap_at(bytes: Seq<u8>, at: int, gap: int)
    requires
        0 <= at <= gap,
        gap + 1 < bytes.len() ==> bytes[gap] == 58 && bytes[gap + 1] == 58,
        gap + 1 >= bytes.len() ==> gap == bytes.len(),
        forall|i: int|
            at <= i < gap && i + 1 < bytes.len() ==> !(#[trigger] bytes[i] == 58 && bytes[i + 1]
                == 58),
    ensures
        gap_from(bytes, at) == if gap + 1 < bytes.len() {
            Some(gap)
        } else {
            None
        },
    decreases gap - at,
{
    if at < gap && at + 1 < bytes.len() {
        assert(!(bytes[at] == 58 && bytes[at + 1] == 58));
        lemma_gap_at(bytes, at + 1, gap);
    }
}

proof fn lemma_side_unbroken(pieces: Seq<Seq<u8>>, words: Seq<u16>, four: Seq<u8>)
    requires
        stand_for(pieces, words),
        four.len() == 0 || four.len() == 4,
    ensures
        side(pieces, four).len() == 0 || unbroken(side(pieces, four)),
{
    let all = if four.len() == 0 {
        pieces
    } else {
        pieces.push(dotted(four))
    };
    if all.len() > 0 {
        lemma_dotted(four);
        assert forall|k: int| 0 <= k < all.len() implies free_of(#[trigger] all[k], 58)
            && all[k].len() > 0 by {
            if k < pieces.len() {
                lemma_group(pieces[k], words[k]);
            }
        }
        lemma_no_gap(all);
    }
}

/// Eight groups of hexadecimal digits with colons between them are an IPv6 address, of
/// the words that they stand for. Dotted decimal may stand for the last two.
pub proof fn an_ipv6_address_is_eight_groups(
    pieces: Seq<Seq<u8>>,
    words: Seq<u16>,
    four: Seq<u8>,
)
    requires
        stand_for(pieces, words),
        four.len() == 0 || four.len() == 4,
    ensures
        ipv6_of(side(pieces, four)) == if 2 * words.len() + four.len() == 16 {
            Some(halves(words) + four)
        } else {
            None
        },
{
    let bytes = side(pieces, four);
    lemma_side(pieces, words, four);
    lemma_side_unbroken(pieces, words, four);
    lemma_gap_at(bytes, 0, bytes.len() as int);
}

/// Two colons stand for as many groups of zeros as make the groups eight, one at least.
/// With more than seven other groups the text is no address.
pub proof fn two_colons_stand_for_zeros(
    heads: Seq<Seq<u8>>,
    upper: Seq<u16>,
    tails: Seq<Seq<u8>>,
    lower: Seq<u16>,
    four: Seq<u8>,
)
    requires
        stand_for(heads, upper),
        stand_for(tails, lower),
        four.len() == 0 || four.len() == 4,
    ensures
        ({
            let given = 2 * upper.len() + 2 * lower.len() + four.len();
            ipv6_of(side(heads, Seq::empty()) + seq![58u8, 58u8] + side(tails, four)) == if given
                <= 14 {
                Some(
                    halves(upper) + Seq::new((16 - given) as nat, |i: int| 0u8) + halves(lower)
                        + four,
                )
            } else {
                None
            }
        }),
{
    let none = Seq::<u8>::empty();
    let front = side(heads, none);
    let back = side(tails, four);
    let bytes = front + seq![58u8, 58u8] + back;
    lemma_side(heads, upper, none);
    lemma_side(tails, lower, four);
    lemma_side_unbroken(heads, upper, none);
    lemma_side_unbroken(tails, lower, four);
    let gap = front.len() as int;
    assert(bytes[gap] == 58 && bytes[gap + 1] == 58);
    assert forall|i: int| 0 <= i < gap && i + 1 < bytes.len() implies !(#[trigger] bytes[i] == 58
        && bytes[i + 1] == 58) by {
        assert(bytes[i] == front[i]);
        if i + 1 < gap {
            assert(bytes[i + 1] == front[i + 1]);
        } else {
            assert(bytes[i] == front.last());
        }
    }
    lemma_gap_at(bytes, 0, gap);
    assert(bytes.take(gap) =~= front);
    assert(bytes.skip(gap + 2) =~= back);
    let given = 2 * upper.len() + 2 * lower.len() + four.len();
    if given <= 14 {
        let zeros = Seq::new((16 - given) as nat, |i: int| 0u8);
        assert(halves(upper) + zeros + (halves(lower) + four) =~= halves(upper) + zeros + halves(
            lower,
        ) + four);
    }
}

/// Whether a label of a name is one to 63 letters, digits and hyphens, with no hyphen at
/// either end.
pub open spec fn proper_label(label: Seq<u8>) -> bool {
    &&& 1 <= label.len() <= 63
    &&& label[0] != 45
    &&& label[label.len() - 1] != 45
    &&& forall|i: int|
        0 <= i < label.len() ==> {
            let byte = #[trigger] label[i];
            ||| 48 <= byte <= 57
            ||| 65 <= byte <= 90
            ||| 97 <= byte <= 122
            ||| byte == 45
        }
}

proof fn lemma_dots_off(text: Seq<u8>, dots: nat)
    requires
        text.len() == 0 || text.last() != 46,
    ensures
        without_trailing_dots(text + Seq::new(dots, |i: int| 46u8)) == text,
    decreases dots,
{
    let whole = text + Seq::new(dots, |i: int| 46u8);
    if dots == 0 {
        assert(whole =~= text);
    } else {
        assert(whole.drop_last() =~= text + Seq::new((dots - 1) as nat, |i: int| 46u8));
        lemma_dots_off(text, (dots - 1) as nat);
    }
}

proof fn lemma_no_colon(bytes: Seq<u8>)
    requires
        free_of(bytes, 58),
    ensures
        ipv6_of(bytes) is None,
{
    lemma_gap_at(bytes, 0, bytes.len() as int);
    let pieces = seq![bytes];
    assert(strung(pieces, 58) == bytes);
    a_text_falls_at_its_separators(bytes, 58, pieces);
    reveal_with_fuel(joined_octets, 2);
    assert(pieces[0] == bytes);
}

/// A name may be sent where it is proper labels with dots between them, 253 bytes at
/// most, and no IPv4 address. Dots at its end do not count.
pub proof fn a_name_is_proper_labels(labels: Seq<Seq<u8>>, dots: nat)
    requires
        labels.len() >= 1,
        forall|k: int| 0 <= k < labels.len() ==> free_of(#[trigger] labels[k], 46),
        labels.last().len() > 0,
    ensures
        valid_server_name(strung(labels, 46) + Seq::new(dots, |i: int| 46u8)) <==> {
            &&& strung(labels, 46).len() <= 253
            &&& forall|k: int| 0 <= k < labels.len() ==> proper_label(#[trigger] labels[k])
            &&& forall|octets: Seq<u8>|
                octets.len() == 4 ==> strung(labels, 46) != #[trigger] dotted(octets)
        },
{
    let text = strung(labels, 46);
    let name = text + Seq::new(dots, |i: int| 46u8);
    let last = labels.last();
    assert(free_of(last, 46));
    assert(text.last() == last.last()) by {
        if labels.len() == 1 {
            assert(text == labels[0]);
        }
    }
    lemma_dots_off(text, dots);
    a_text_falls_at_its_separators(text, 46, labels);
    assert forall|label: Seq<u8>| valid_label(label) == #[trigger] proper_label(label) by {
        if label.len() > 0 {
            assert(label.last() == label[label.len() - 1]);
        }
    }
    assert((forall|k: int| 0 <= k < labels.len() ==> valid_label(#[trigger] labels[k])) <==> (
    forall|k: int| 0 <= k < labels.len() ==> proper_label(#[trigger] labels[k]))) by {
        if forall|k: int| 0 <= k < labels.len() ==> valid_label(#[trigger] labels[k]) {
            assert forall|k: int| 0 <= k < labels.len() implies proper_label(
                #[trigger] labels[k],
            ) by {
                assert(valid_label(labels[k]) == proper_label(labels[k]));
            }
        }
        if forall|k: int| 0 <= k < labels.len() ==> proper_label(#[trigger] labels[k]) {
            assert forall|k: int| 0 <= k < labels.len() implies valid_label(
                #[trigger] labels[k],
            ) by {
                assert(valid_label(labels[k]) == proper_label(labels[k]));
            }
        }
    }
    if forall|k: int| 0 <= k < labels.len() ==> proper_label(#[trigger] labels[k]) {
        assert forall|k: int| 0 <= k < labels.len() implies free_of(#[trigger] labels[k], 58) by {
            assert(proper_label(labels[k]));
        }
        lemma_strung_free(labels, 46, 58);
        lemma_no_colon(text);
    }
    if ipv4_of(text) is Some {
        let octets = ipv4_of(text)->0;
        an_ipv4_address_is_four_numbers(text, octets);
        assert(text == dotted(octets));
    }
    assert forall|octets: Seq<u8>|
        octets.len() == 4 && text == #[trigger] dotted(octets) implies ipv4_of(text) is Some by {
        an_ipv4_address_is_four_numbers(text, octets);
    }
}

} // verus!
