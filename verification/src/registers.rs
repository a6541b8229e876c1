//! Fields of 32-bit registers

use vstd::prelude::*;

verus! {

/// The register `value` with `field` in the bits that `mask`, shifted left by `shift`, stands for.
pub open spec fn with_field(value: u32, shift: u32, mask: u32, field: u32) -> u32 {
    (value & !(mask << shift)) | ((field & mask) << shift)
}

/// The register `value` with one bit set or cleared.
pub open spec fn with_bit(value: u32, bit: u32, on: bool) -> u32 {
    with_field(
        value,
        bit,
        1,
        if on {
            1
        } else {
            0
        },
    )
}

/// Whether a bit of the register is set.
pub open spec fn has_bit(value: u32, bit: u32) -> bool {
    (value >> bit) & 1 != 0
}

/// Puts `field` into a register
pub fn set_field(value: u32, shift: u32, mask: u32, field: u32) -> (changed: u32)
    requires
        shift < 32,
    ensures
        changed == with_field(value, shift, mask, field),
{
    (value & !(mask << shift)) | ((field & mask) << shift)
}

/// Sets or clears one bit of a register
pub fn set_bit(value: u32, bit: u32, on: bool) -> (changed: u32)
    requires
        bit < 32,
    ensures
        changed == with_bit(value, bit, on),
{
    set_field(
        value,
        bit,
        1,
        if on {
            1
        } else {
            0
        },
    )
}

/// Tells whether a bit of a register is set
pub fn get_bit(value: u32, bit: u32) -> (on: bool)
    requires
        bit < 32,
    ensures
        on == has_bit(value, bit),
{
    (value >> bit) & 1 != 0
}

/// A bit reads as it was last written, and writing it leaves all others alone.
pub proof fn law_bits_are_independent(value: u32, bit: u32, on: bool, other: u32)
    requires
        bit < 32,
        other < 32,
    ensures
        has_bit(with_bit(value, bit, on), bit) == on,
        other != bit ==> has_bit(with_bit(value, bit, on), other) == has_bit(value, other),
{
    assert(((((value & !(1u32 << bit)) | ((1u32 & 1u32) << bit)) >> bit) & 1 != 0)) by (bit_vector)
        requires
            bit < 32,
    ;
    assert(!((((value & !(1u32 << bit)) | ((0u32 & 1u32) << bit)) >> bit) & 1 != 0)) by (bit_vector)
        requires
            bit < 32,
    ;
    assert(other != bit ==> (((value & !(1u32 << bit)) | ((1u32 & 1u32) << bit)) >> other) & 1 == (
    value >> other) & 1) by (bit_vector)
        requires
            bit < 32,
            other < 32,
    ;
    assert(other != bit ==> (((value & !(1u32 << bit)) | ((0u32 & 1u32) << bit)) >> other) & 1 == (
    value >> other) & 1) by (bit_vector)
        requires
            bit < 32,
            other < 32,
    ;
}

/// A field reads as it was last written, as far as its mask goes, and writing it leaves all other
/// bits alone.
pub proof fn law_fields_are_independent(value: u32, shift: u32, mask: u32, field: u32, bit: u32)
    requires
        shift < 32,
        bit < 32,
    ensures
        has_bit(with_field(value, shift, mask, field), bit) == if bit >= shift && has_bit(
            mask,
            (bit - shift) as u32,
        ) {
            has_bit(field, (bit - shift) as u32)
        } else {
            has_bit(value, bit)
        },
{
    let changed = with_field(value, shift, mask, field);
    if bit >= shift {
        let at = (bit - shift) as u32;
        assert(has_bit(changed, bit) == if has_bit(mask, at) {
            has_bit(field, at)
        } else {
            has_bit(value, bit)
        }) by (bit_vector)
            requires
                changed == with_field(value, shift, mask, field),
                bit == at + shift,
                bit < 32,
        ;
    } else {
        assert(has_bit(changed, bit) == has_bit(value, bit)) by (bit_vector)
            requires
                changed == with_field(value, shift, mask, field),
                bit < shift,
                shift < 32,
        ;
    }
}

/// A single bit counts as a power of two, and the bits of an intersection and of a union are those
/// of both and of either.
pub proof fn law_bits_are_binary_digits(x: u32, y: u32, bit: u32, other: u32)
    requires
        bit < 32,
        other < 32,
    ensures
        has_bit(1u32 << bit, other) <==> bit == other,
        has_bit(x & y, bit) <==> has_bit(x, bit) && has_bit(y, bit),
        has_bit(x | y, bit) <==> has_bit(x, bit) || has_bit(y, bit),
        has_bit(!x, bit) <==> !has_bit(x, bit),
{
    assert(has_bit(1u32 << bit, other) == (bit == other) && has_bit(x & y, bit) == (has_bit(x, bit)
        && has_bit(y, bit)) && has_bit(x | y, bit) == (has_bit(x, bit) || has_bit(y, bit))
        && has_bit(!x, bit) == !has_bit(x, bit)) by (bit_vector)
        requires
            bit < 32,
            other < 32,
    ;
}

pub(crate) proof fn lemma_seven_bits(bit: u32)
    by (bit_vector)
    requires
        bit < 32,
    ensures
        has_bit(0x7f, bit) == (bit < 7),
{
}

} // verus!
