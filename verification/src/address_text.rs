//! Addresses in text form: IPv4 in dotted decimal, IPv6 in groups of hexadecimal
//! digits with at most one run of zeros left out.
use crate::octets::{be16, push_bytes, push_u16};
use vstd::prelude::*;
use vstd::slice::slice_subrange;

verus! {

/// The pieces between the separators among the first `n` bytes.
pub open spec fn pieces_of(bytes: Seq<u8>, separator: u8, n: nat) -> Seq<Seq<u8>>
    decreases n,
{
    if n == 0 {
        seq![Seq::empty()]
    } else {
        let before = pieces_of(bytes, separator, (n - 1) as nat);
        if bytes[n - 1] == separator {
            before.push(Seq::empty())
        } else {
            before.drop_last().push(before.last().push(bytes[n - 1]))
        }
    }
}

/// The bytes of pieces.
pub open spec fn piece_bytes(pieces: Seq<Vec<u8>>) -> Seq<Seq<u8>> {
    Seq::new(pieces.len(), |i: int| pieces[i]@)
}

/// Cut bytes at every separator.
pub fn split_pieces(bytes: &[u8], separator: u8) -> (pieces: Vec<Vec<u8>>)
    ensures
        piece_bytes(pieces@) == pieces_of(bytes@, separator, bytes@.len()),
        pieces@.len() > 0,
{
    let mut pieces: Vec<Vec<u8>> = Vec::new();
    let mut current: Vec<u8> = Vec::new();
    assert(piece_bytes(pieces@).push(current@) =~= seq![Seq::<u8>::empty()]);
    for i in 0..bytes.len()
        invariant
            pieces_of(bytes@, separator, i as nat) == piece_bytes(pieces@).push(current@),
    {
        let ghost done = piece_bytes(pieces@);
        assert(done.push(current@).drop_last() =~= done);
        if bytes[i] == separator {
            let ghost piece = current@;
            pieces.push(current);
            current = Vec::new();
            proof {
                assert(piece_bytes(pieces@) =~= done.push(piece));
                assert(current@ =~= Seq::<u8>::empty());
            }
        } else {
            current.push(bytes[i]);
        }
    }
    let ghost done = piece_bytes(pieces@);
    let ghost piece = current@;
    pieces.push(current);
    assert(piece_bytes(pieces@) =~= done.push(piece));
    pieces
}

/// The number that decimal digits stand for.
pub open spec fn digits_value(digits: Seq<u8>) -> int
    decreases digits.len(),
{
    if digits.len() == 0 {
        0
    } else {
        10 * digits_value(digits.drop_last()) + (digits.last() - 48)
    }
}

/// The octet that a piece of an IPv4 address stands for: a decimal number below
/// 256 without leading zeros.
pub open spec fn octet_of(piece: Seq<u8>) -> Option<u8> {
    if 1 <= piece.len() <= 3 && (forall|i: int|
        0 <= i < piece.len() ==> 48 <= #[trigger] piece[i] <= 57) && (piece.len() > 1 ==> piece[0]
        != 48) && digits_value(piece) <= 255 {
        Some(digits_value(piece) as u8)
    } else {
        None
    }
}

fn read_octet(piece: &[u8]) -> (octet: Option<u8>)
    ensures
        octet == octet_of(piece@),
{
    if piece.len() == 0 || piece.len() > 3 {
        return None;
    }
    if piece.len() > 1 && piece[0] == 48 {
        return None;
    }
    let mut value: u32 = 0;
    assert(piece@.take(0) =~= Seq::<u8>::empty());
    for i in 0..piece.len()
        invariant
            1 <= piece@.len() <= 3,
            value == digits_value(piece@.take(i as int)),
            i == 0 ==> value == 0,
            i == 1 ==> value <= 9,
            i == 2 ==> value <= 99,
            i == 3 ==> value <= 999,
            forall|j: int| 0 <= j < i ==> 48 <= #[trigger] piece@[j] <= 57,
    {
        let byte = piece[i];
        if byte < 48 || byte > 57 {
            assert(!(48 <= piece@[i as int] <= 57));
            return None;
        }
        proof {
            assert(piece@.take(i + 1).drop_last() =~= piece@.take(i as int));
        }
        value = value * 10 + (byte - 48) as u32;
    }
    assert(piece@.take(piece@.len() as int) =~= piece@);
    if value <= 255 {
        Some(value as u8)
    } else {
        None
    }
}

/// The octets of an IPv4 address in dotted decimal.
pub open spec fn ipv4_of(bytes: Seq<u8>) -> Option<Seq<u8>> {
    let pieces = pieces_of(bytes, 46, bytes.len());
    if pieces.len() != 4 {
        None
    } else {
        match (octet_of(pieces[0]), octet_of(pieces[1]), octet_of(pieces[2]), octet_of(pieces[3])) {
            (Some(a), Some(b), Some(c), Some(d)) => Some(seq![a, b, c, d]),
            _ => None,
        }
    }
}

/// Read an IPv4 address in dotted decimal.
pub fn read_ipv4(bytes: &[u8]) -> (address: Option<[u8; 4]>)
    ensures
        match ipv4_of(bytes@) {
            Some(octets) => address matches Some(actual) && actual@ == octets,
            None => address is None,
        },
{
    let pieces = split_pieces(bytes, 46);
    let ghost shapes = piece_bytes(pieces@);
    if pieces.len() != 4 {
        return None;
    }
    assert(shapes[0] == pieces@[0]@ && shapes[1] == pieces@[1]@ && shapes[2] == pieces@[2]@
        && shapes[3] == pieces@[3]@);
    match (
        read_octet(pieces[0].as_slice()),
        read_octet(pieces[1].as_slice()),
        read_octet(pieces[2].as_slice()),
        read_octet(pieces[3].as_slice()),
    ) {
        (Some(a), Some(b), Some(c), Some(d)) => {
            let octets: [u8; 4] = [a, b, c, d];
            assert(octets@ =~= seq![a, b, c, d]);
            Some(octets)
        },
        _ => None,
    }
}

/// The value of a hexadecimal digit of either case.
pub open spec fn hex_value(digit: u8) -> Option<int> {
    if 48 <= digit <= 57 {
        Some(digit - 48)
    } else if 97 <= digit <= 102 {
        Some(digit - 87)
    } else if 65 <= digit <= 70 {
        Some(digit - 55)
    } else {
        None
    }
}

/// The number that hexadecimal digits stand for.
pub open spec fn hex_number(digits: Seq<u8>) -> Option<int>
    decreases digits.len(),
{
    if digits.len() == 0 {
        Some(0)
    } else {
        match (hex_number(digits.drop_last()), hex_value(digits.last())) {
            (Some(front), Some(digit)) => Some(16 * front + digit),
            _ => None,
        }
    }
}

/// The group of an IPv6 address that a piece stands for: one to four hexadecimal
/// digits.
pub open spec fn group_of(piece: Seq<u8>) -> Option<int> {
    if 1 <= piece.len() <= 4 {
        hex_number(piece)
    } else {
        None
    }
}

proof fn lemma_hex_fails(digits: Seq<u8>, n: int)
    requires
        0 <= n <= digits.len(),
        hex_number(digits.take(n)) is None,
    ensures
        hex_number(digits) is None,
    decreases digits.len(),
{
    if n == digits.len() {
        assert(digits.take(n) =~= digits);
    } else {
        assert(digits.drop_last().take(n) =~= digits.take(n));
        lemma_hex_fails(digits.drop_last(), n);
    }
}

fn read_group(piece: &[u8]) -> (group: Option<u16>)
    ensures
        match group_of(piece@) {
            Some(value) => group matches Some(actual) && actual == value,
            None => group is None,
        },
{
    if piece.len() == 0 || piece.len() > 4 {
        return None;
    }
    let mut value: u32 = 0;
    assert(piece@.take(0) =~= Seq::<u8>::empty());
    for i in 0..piece.len()
        invariant
            1 <= piece@.len() <= 4,
            hex_number(piece@.take(i as int)) == Some(value as int),
            i == 0 ==> value == 0,
            i == 1 ==> value <= 0xf,
            i == 2 ==> value <= 0xff,
            i == 3 ==> value <= 0xfff,
            i == 4 ==> value <= 0xffff,
    {
        let byte = piece[i];
        proof {
            assert(piece@.take(i + 1).drop_last() =~= piece@.take(i as int));
        }
        let digit: u8 = if 48 <= byte && byte <= 57 {
            byte - 48
        } else if 97 <= byte && byte <= 102 {
            byte - 87
        } else if 65 <= byte && byte <= 70 {
            byte - 55
        } else {
            proof {
                lemma_hex_fails(piece@, i + 1);
            }
            return None;
        };
        value = value * 16 + digit as u32;
    }
    assert(piece@.take(piece@.len() as int) =~= piece@);
    Some(value as u16)
}

/// The octets that the first `n` pieces of an IPv6 address stand for. The last
/// piece may be an IPv4 address where `dotted` says so.
pub open spec fn joined_octets(pieces: Seq<Seq<u8>>, n: nat, dotted: bool) -> Option<Seq<u8>>
    decreases n,
{
    if n == 0 {
        Some(Seq::empty())
    } else {
        match joined_octets(pieces, (n - 1) as nat, dotted) {
            None => None,
            Some(front) => match group_of(pieces[n - 1]) {
                Some(group) => Some(front + be16(group as u16)),
                None => if dotted && n == pieces.len() {
                    match ipv4_of(pieces[n - 1]) {
                        Some(octets) => Some(front + octets),
                        None => None,
                    }
                } else {
                    None
                },
            },
        }
    }
}

proof fn lemma_joined_fails(pieces: Seq<Seq<u8>>, n: nat, m: nat, dotted: bool)
    requires
        n <= m,
        joined_octets(pieces, n, dotted) is None,
    ensures
        joined_octets(pieces, m, dotted) is None,
    decreases m,
{
    if n < m {
        lemma_joined_fails(pieces, n, (m - 1) as nat, dotted);
    }
}

/// The octets of the groups between colons. Nothing is no group.
pub open spec fn side_octets(bytes: Seq<u8>, dotted: bool) -> Option<Seq<u8>> {
    let pieces = pieces_of(bytes, 58, bytes.len());
    if bytes.len() == 0 {
        Some(Seq::empty())
    } else {
        joined_octets(pieces, pieces.len(), dotted)
    }
}

fn read_side(bytes: &[u8], dotted: bool) -> (octets: Option<Vec<u8>>)
    ensures
        match side_octets(bytes@, dotted) {
            Some(expected) => octets matches Some(actual) && actual@ == expected,
            None => octets is None,
        },
{
    let mut octets: Vec<u8> = Vec::new();
    if bytes.len() == 0 {
        assert(octets@ =~= Seq::<u8>::empty());
        return Some(octets);
    }
    let pieces = split_pieces(bytes, 58);
    let ghost shapes = piece_bytes(pieces@);
    for i in 0..pieces.len()
        invariant
            shapes == piece_bytes(pieces@),
            shapes == pieces_of(bytes@, 58, bytes@.len()),
            bytes@.len() > 0,
            joined_octets(shapes, i as nat, dotted) == Some(octets@),
    {
        assert(shapes[i as int] == pieces@[i as int]@);
        match read_group(pieces[i].as_slice()) {
            Some(group) => {
                push_u16(&mut octets, group);
            },
            None => {
                let embedded = if dotted && i + 1 == pieces.len() {
                    read_ipv4(pieces[i].as_slice())
                } else {
                    None
                };
                match embedded {
                    Some(address) => {
                        push_bytes(&mut octets, address.as_slice());
                    },
                    None => {
                        proof {
                            lemma_joined_fails(shapes, (i + 1) as nat, shapes.len(), dotted);
                        }
                        return None;
                    },
                }
            },
        }
    }
    Some(octets)
}

/// Where two colons stand side by side first, looking from `at`.
pub open spec fn gap_from(bytes: Seq<u8>, at: int) -> Option<int>
    decreases bytes.len() - at,
{
    if at + 1 >= bytes.len() {
        None
    } else if bytes[at] == 58 && bytes[at + 1] == 58 {
        Some(at)
    } else {
        gap_from(bytes, at + 1)
    }
}

/// The octets of an IPv6 address: eight groups, or fewer with one gap that stands
/// for at least one group of zeros. The last two groups may be written as an
/// IPv4 address.
pub open spec fn ipv6_of(bytes: Seq<u8>) -> Option<Seq<u8>> {
    match gap_from(bytes, 0) {
        None => match side_octets(bytes, true) {
            Some(octets) => if octets.len() == 16 {
                Some(octets)
            } else {
                None
            },
            None => None,
        },
        Some(gap) => match (
            side_octets(bytes.take(gap), false),
            side_octets(bytes.skip(gap + 2), true),
        ) {
            (Some(head), Some(tail)) => if head.len() + tail.len() <= 14 {
                Some(
                    head + Seq::new((16 - head.len() - tail.len()) as nat, |i: int| 0u8) + tail,
                )
            } else {
                None
            },
            _ => None,
        },
    }
}

fn find_gap(bytes: &[u8]) -> (gap: Option<usize>)
    ensures
        match gap_from(bytes@, 0) {
            Some(at) => gap matches Some(actual) && actual == at && at + 2 <= bytes@.len(),
            None => gap is None,
        },
{
    let mut at: usize = 0;
    while at < bytes.len() && at + 1 < bytes.len()
        invariant
            at <= bytes@.len(),
            gap_from(bytes@, 0) == gap_from(bytes@, at as int),
        decreases bytes.len() - at,
    {
        if bytes[at] == 58 && bytes[at + 1] == 58 {
            return Some(at);
        }
        at = at + 1;
    }
    None
}

fn sixteen(octets: &[u8]) -> (address: [u8; 16])
    requires
        octets@.len() == 16,
    ensures
        address@ == octets@,
{
    crate::octets::copy_array(octets)
}

/// Read an IPv6 address.
pub fn read_ipv6(bytes: &[u8]) -> (address: Option<[u8; 16]>)
    ensures
        match ipv6_of(bytes@) {
            Some(octets) => address matches Some(actual) && actual@ == octets,
            None => address is None,
        },
{
    let length = bytes.len();
    match find_gap(bytes) {
        None => match read_side(bytes, true) {
            Some(octets) => if octets.len() == 16 {
                Some(sixteen(octets.as_slice()))
            } else {
                None
            },
            None => None,
        },
        Some(gap) => {
            let front = slice_subrange(bytes, 0, gap);
            let back = slice_subrange(bytes, gap + 2, length);
            assert(front@ =~= bytes@.take(gap as int));
            assert(back@ =~= bytes@.skip(gap + 2));
            match (read_side(front, false), read_side(back, true)) {
                (Some(head), Some(tail)) => {
                    if head.len() > 14 || tail.len() > 14 || head.len() + tail.len() > 14 {
                        return None;
                    }
                    let ghost zeros = (16 - head@.len() - tail@.len()) as nat;
                    let missing: usize = 16 - head.len() - tail.len();
                    let mut octets: Vec<u8> = Vec::new();
                    push_bytes(&mut octets, head.as_slice());
                    assert(octets@ =~= head@ + Seq::new(0, |j: int| 0u8));
                    for i in 0..missing
                        invariant
                            octets@ == head@ + Seq::new(i as nat, |j: int| 0u8),
                    {
                        octets.push(0);
                        assert(octets@ =~= head@ + Seq::new((i + 1) as nat, |j: int| 0u8));
                    }
                    push_bytes(&mut octets, tail.as_slice());
                    assert(octets@ == head@ + Seq::new(zeros, |j: int| 0u8) + tail@);
                    Some(sixteen(octets.as_slice()))
                },
                _ => None,
            }
        },
    }
}

/// An address has as many octets as its family.
pub proof fn lemma_address_len(bytes: Seq<u8>)
    ensures
        ipv4_of(bytes) matches Some(octets) ==> octets.len() == 4,
        ipv6_of(bytes) matches Some(octets) ==> octets.len() == 16,
{
}

} // verus!
