//! Big-endian representation of integers: the most significant byte comes
//! first. Signed integers are carried in two's complement.

use vstd::prelude::*;

verus! {

/// The number of values that `width` bytes can tell apart: 256 to the power
/// of `width`.
pub open spec fn radix(width: nat) -> nat
    decreases width,
{
    if width == 0 {
        1
    } else {
        256 * radix((width - 1) as nat)
    }
}

/// The `width` low-order bytes of `value`, most significant first.
pub open spec fn be_bytes(value: nat, width: nat) -> Seq<u8>
    decreases width,
{
    if width == 0 {
        Seq::empty()
    } else {
        be_bytes(value / 256, (width - 1) as nat).push((value % 256) as u8)
    }
}

/// The number that `bytes` spells, most significant byte first.
pub open spec fn be_value(bytes: Seq<u8>) -> nat
    decreases bytes.len(),
{
    if bytes.len() == 0 {
        0
    } else {
        be_value(bytes.drop_last()) * 256 + bytes.last() as nat
    }
}

/// The non-negative number that stands for `value` in two's complement on
/// `width` bytes.
pub open spec fn twos_complement(value: int, width: nat) -> nat {
    if value >= 0 {
        value as nat
    } else {
        (value + radix(width)) as nat
    }
}

/// The signed number for which `bits` stands in two's complement on `width`
/// bytes.
pub open spec fn signed_value(bits: nat, width: nat) -> int {
    if 2 * bits < radix(width) {
        bits as int
    } else {
        bits - radix(width)
    }
}

/// Whether `value` is in the range of a signed integer of `width` bytes.
pub open spec fn fits_signed(value: int, width: nat) -> bool {
    -(radix(width) as int) <= 2 * value < radix(width)
}

/// The values of `radix` at the widths of the machine integers.
pub proof fn lemma_radix_values()
    ensures
        radix(0) == 1,
        radix(1) == 0x100,
        radix(2) == 0x1_0000,
        radix(4) == 0x1_0000_0000,
        radix(8) == 0x1_0000_0000_0000_0000,
        radix(16) == 0x1_0000_0000_0000_0000_0000_0000_0000_0000,
{
    reveal_with_fuel(radix, 5);
    assert(radix(4) == 0x1_0000_0000);
    assert(radix(8) == 0x1_0000_0000 * radix(4));
    assert(radix(12) == 0x1_0000_0000 * radix(8));
    assert(radix(16) == 0x1_0000_0000 * radix(12));
}

/// `radix` grows with the width.
pub proof fn lemma_radix_monotonic(small: nat, large: nat)
    requires
        small <= large,
    ensures
        0 < radix(small) <= radix(large),
    decreases large,
{
    if large == 0 {
    } else if small == large {
        lemma_radix_monotonic((small - 1) as nat, (large - 1) as nat);
    } else {
        lemma_radix_monotonic(small, (large - 1) as nat);
    }
}

/// An encoding on `width` bytes has `width` bytes.
pub proof fn lemma_be_bytes_len(value: nat, width: nat)
    ensures
        be_bytes(value, width).len() == width,
    decreases width,
{
    if width > 0 {
        lemma_be_bytes_len(value / 256, (width - 1) as nat);
    }
}

/// What `bytes` spells is less than the radix of their length.
pub proof fn lemma_be_value_bound(bytes: Seq<u8>)
    ensures
        be_value(bytes) < radix(bytes.len()),
    decreases bytes.len(),
{
    if bytes.len() > 0 {
        lemma_be_value_bound(bytes.drop_last());
    }
}

/// Decoding the encoding of a value that fits in `width` bytes gives the
/// value back.
pub proof fn lemma_be_value_of_bytes(value: nat, width: nat)
    requires
        value < radix(width),
    ensures
        be_value(be_bytes(value, width)) == value,
    decreases width,
{
    if width > 0 {
        let head = be_bytes(value / 256, (width - 1) as nat);
        lemma_be_value_of_bytes(value / 256, (width - 1) as nat);
        assert(be_bytes(value, width).drop_last() == head);
    }
}

/// Two's complement loses nothing of a value that fits.
pub proof fn lemma_signed_round_trip(value: int, width: nat)
    requires
        fits_signed(value, width),
    ensures
        twos_complement(value, width) < radix(width),
        signed_value(twos_complement(value, width), width) == value,
{
    lemma_radix_monotonic(0, width);
}

/// The `width` low-order bytes of `value`, most significant first.
pub fn to_be_bytes(value: u128, width: usize) -> (bytes: Vec<u8>)
    ensures
        bytes@ == be_bytes(value as nat, width as nat),
{
    let mut bytes: Vec<u8> = Vec::new();
    let mut filled: usize = 0;
    while filled < width
        invariant
            filled <= width,
            bytes@.len() == filled,
        decreases width - filled,
    {
        bytes.push(0u8);
        filled = filled + 1;
    }
    let mut rest: u128 = value;
    let mut index: usize = width;
    while index > 0
        invariant
            index <= width,
            bytes@.len() == width,
            be_bytes(value as nat, width as nat) == be_bytes(rest as nat, index as nat)
                + bytes@.skip(index as int),
        decreases index,
    {
        index = index - 1;
        let ghost before = bytes@;
        bytes.set(index, (rest % 256) as u8);
        proof {
            let low = (rest % 256) as u8;
            assert(be_bytes(rest as nat, (index + 1) as nat) == be_bytes(
                rest as nat / 256,
                index as nat,
            ).push(low));
            assert(bytes@.skip(index as int) == seq![low] + before.skip(index + 1));
            assert(be_bytes(rest as nat / 256, index as nat).push(low) + before.skip(index + 1)
                == be_bytes(rest as nat / 256, index as nat) + (seq![low] + before.skip(
                index + 1,
            )));
        }
        rest = rest / 256;
    }
    assert(bytes@.skip(0) == bytes@);
    bytes
}

/// The number that at most sixteen bytes spell, most significant byte first.
pub fn from_be_bytes(bytes: &[u8]) -> (value: u128)
    requires
        bytes@.len() <= 16,
    ensures
        value == be_value(bytes@),
{
    let mut value: u128 = 0;
    let mut index: usize = 0;
    while index < bytes.len()
        invariant
            index <= bytes@.len() <= 16,
            value == be_value(bytes@.take(index as int)),
        decreases bytes@.len() - index,
    {
        proof {
            let prefix = bytes@.take(index + 1);
            assert(prefix.drop_last() == bytes@.take(index as int));
            lemma_be_value_bound(prefix);
            lemma_radix_monotonic(prefix.len(), 16);
            lemma_radix_values();
        }
        value = value * 256 + bytes[index] as u128;
        index = index + 1;
    }
    assert(bytes@.take(index as int) == bytes@);
    value
}

} // verus!
