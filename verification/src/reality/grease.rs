//! GREASE values (RFC 8701): reserved code points a browser sprinkles over its
//! hello, one seed byte per purpose and connection.
use vstd::prelude::*;

verus! {

/// Which GREASE value a slot draws from.
///
/// Two slots that share an index carry the same value on purpose: the GREASE
/// entry of `supported_groups` and the one of `key_share` are the same group.
#[derive(Clone, Copy, Debug, PartialEq, Eq, Structural)]
pub enum GreaseSlot {
    Cipher,
    Group,
    Version,
    Extension1,
    Extension2,
}

impl GreaseSlot {
    pub open spec fn spec_index(self) -> int {
        match self {
            GreaseSlot::Cipher => 0,
            GreaseSlot::Group => 1,
            GreaseSlot::Version => 2,
            GreaseSlot::Extension1 => 3,
            GreaseSlot::Extension2 => 4,
        }
    }

    /// The place of the slot's byte in the seed.
    pub fn index(self) -> (index: usize)
        ensures
            index == self.spec_index(),
            index < 5,
    {
        match self {
            GreaseSlot::Cipher => 0,
            GreaseSlot::Group => 1,
            GreaseSlot::Version => 2,
            GreaseSlot::Extension1 => 3,
            GreaseSlot::Extension2 => 4,
        }
    }
}

/// One connection's GREASE seed: one byte per [`GreaseSlot`].
#[derive(Clone, Copy, Debug)]
pub struct GreaseValues {
    seed: [u8; 5],
}

/// The GREASE value of a seed byte: its high nibble, then `a`, the byte twice.
pub open spec fn grease_point(byte: u8) -> u16 {
    ((byte / 16 * 16 + 10) * 257) as u16
}

/// The seed with the second extension byte moved off the first's high nibble.
pub open spec fn separated(seed: Seq<u8>) -> Seq<u8> {
    if seed[3] / 16 != seed[4] / 16 {
        seed
    } else if seed[4] / 16 % 2 == 0 {
        seed.update(4, (seed[4] + 16) as u8)
    } else {
        seed.update(4, (seed[4] - 16) as u8)
    }
}

/// The value that `slot` carries on the wire under a seed.
pub open spec fn grease_value(seed: Seq<u8>, slot: GreaseSlot) -> u16 {
    grease_point(seed[slot.spec_index()])
}

impl View for GreaseValues {
    type V = Seq<u8>;

    closed spec fn view(&self) -> Seq<u8> {
        self.seed@
    }
}

impl GreaseValues {
    #[verifier::type_invariant]
    closed spec fn extensions_differ(self) -> bool {
        self.seed@[3] / 16 != self.seed@[4] / 16
    }

    /// The values of a connection with this seed.
    pub fn from_seed(seed: [u8; 5]) -> (values: GreaseValues)
        ensures
            values@ == separated(seed@),
    {
        let mut seed = seed;
        let first = seed[3];
        let second = seed[4];
        proof {
            nibbles(first, second);
        }
        if first & 0xf0 == second & 0xf0 {
            seed[4] = second ^ 0x10;
        }
        GreaseValues { seed }
    }

    /// The value for `slot`: `0xXaXa`, the same byte twice.
    pub fn value(&self, slot: GreaseSlot) -> (value: u16)
        ensures
            value == grease_value(self@, slot),
    {
        let seeded = self.seed[slot.index()];
        let byte = (seeded & 0xf0) | 0x0a;
        assert((seeded & 0xf0) | 0x0a == seeded / 16 * 16 + 10) by (bit_vector);
        byte as u16 * 256 + byte as u16
    }
}

proof fn nibbles(first: u8, second: u8)
    ensures
        (first & 0xf0 == second & 0xf0) <==> first / 16 == second / 16,
        second / 16 % 2 == 0 ==> second ^ 0x10 == second + 16,
        second / 16 % 2 != 0 ==> second ^ 0x10 == second - 16,
{
    assert((first & 0xf0 == second & 0xf0) <==> first / 16 == second / 16) by (bit_vector);
    assert(second / 16 % 2 == 0 ==> second ^ 0x10 == second + 16) by (bit_vector);
    assert(second / 16 % 2 != 0 ==> second ^ 0x10 == second - 16) by (bit_vector);
}

/// Whether `value` is one of the sixteen points RFC 8701 reserves.
pub open spec fn reserved_point(value: u16) -> bool {
    exists|nibble: int| 0 <= nibble < 16 && value == #[trigger] (nibble * 4112) + 2570
}

/// Whether `value` is one of the sixteen reserved GREASE points.
pub fn is_grease(value: u16) -> (reserved: bool)
    ensures
        reserved == reserved_point(value),
{
    let high = value / 256;
    let low = value % 256;
    let reserved = high == low && low % 16 == 10;
    proof {
        let nibble = low as int / 16;
        if reserved {
            assert(value == nibble * 4112 + 2570);
        }
        if reserved_point(value) {
            let n = choose|n: int| 0 <= n < 16 && value == #[trigger] (n * 4112) + 2570;
            assert(value == (n * 16 + 10) * 256 + (n * 16 + 10));
            assert(high == n * 16 + 10);
        }
    }
    reserved
}

/// Every value written for a slot is a reserved point, and the two fake
/// extensions of one hello never have the same type.
pub proof fn grease_is_reserved_and_extensions_differ(seed: Seq<u8>, slot: GreaseSlot)
    requires
        seed.len() == 5,
    ensures
        reserved_point(grease_value(separated(seed), slot)),
        grease_value(separated(seed), GreaseSlot::Extension1) != grease_value(
            separated(seed),
            GreaseSlot::Extension2,
        ),
{
    let byte = separated(seed)[slot.spec_index()];
    let nibble = byte as int / 16;
    assert((nibble * 16 + 10) * 257 == nibble * 4112 + 2570);
    assert(grease_point(byte) == nibble * 4112 + 2570);
}

} // verus!
