//! The non-secure flash registers of STM32L5 devices

use vstd::prelude::*;
use crate::registers::{
    get_bit, has_bit, law_bits_are_independent, law_fields_are_independent, lemma_seven_bits,
    set_bit, set_field, with_bit, with_field,
};

verus! {

/// A change of the non-secure control register
#[derive(Clone, Copy, Debug, PartialEq, Eq, Structural)]
pub enum ControlChange {
    /// Protect the flash against changes
    Lock,
    /// Choose page erase, the bank and the page in the bank
    SelectPage { second_bank: bool, page: u8 },
    /// Start the erase that was chosen
    StartErase,
    /// Leave page erase
    EndErase,
    /// Choose programming
    StartProgram,
    /// Leave programming
    EndProgram,
}

impl ControlChange {
    /// The control register after the change.
    pub open spec fn control_after(self, nscr: u32) -> u32 {
        match self {
            ControlChange::Lock => with_bit(nscr, 31, true),
            ControlChange::SelectPage { second_bank, page } => with_bit(
                with_field(with_bit(nscr, 11, second_bank), 3, 0x7f, page as u32),
                1,
                true,
            ),
            ControlChange::StartErase => with_bit(nscr, 16, true),
            ControlChange::EndErase => with_bit(nscr, 1, false),
            ControlChange::StartProgram => with_bit(nscr, 0, true),
            ControlChange::EndProgram => with_bit(nscr, 0, false),
        }
    }

    /// Computes the control register after the change
    pub fn apply(self, nscr: u32) -> (value: u32)
        ensures
            value == self.control_after(nscr),
    {
        match self {
            ControlChange::Lock => set_bit(nscr, 31, true),
            ControlChange::SelectPage { second_bank, page } => set_bit(
                set_field(set_bit(nscr, 11, second_bank), 3, 0x7f, page as u32),
                1,
                true,
            ),
            ControlChange::StartErase => set_bit(nscr, 16, true),
            ControlChange::EndErase => set_bit(nscr, 1, false),
            ControlChange::StartProgram => set_bit(nscr, 0, true),
            ControlChange::EndProgram => set_bit(nscr, 0, false),
        }
    }
}

/// Whether the control register tells that the flash is locked
pub fn is_locked(nscr: u32) -> (locked: bool)
    ensures
        locked == has_bit(nscr, 31),
{
    get_bit(nscr, 31)
}

/// Whether the status register tells that an operation is under way
pub fn is_busy(nssr: u32) -> (busy: bool)
    ensures
        busy == has_bit(nssr, 16),
{
    get_bit(nssr, 16)
}

/// Whether the option register tells that the flash is in dual-bank mode
pub fn is_dual_bank(optr: u32) -> (dual_bank: bool)
    ensures
        dual_bank == has_bit(optr, 22),
{
    get_bit(optr, 22)
}

/// The value that clears all error flags when it is written to the status register
///
/// A flag is cleared by writing a one to it.
pub fn error_flags() -> (value: u32)
    ensures
        value == 0x20fa,
{
    let s1 = set_bit(0, 1, true);
    let s2 = set_bit(s1, 3, true);
    let s3 = set_bit(s2, 4, true);
    let s4 = set_bit(s3, 5, true);
    let s5 = set_bit(s4, 6, true);
    let s6 = set_bit(s5, 7, true);
    let s7 = set_bit(s6, 13, true);
    assert(s7 == 0x20fa) by (bit_vector)
        requires
            s1 == with_bit(0, 1, true),
            s2 == with_bit(s1, 3, true),
            s3 == with_bit(s2, 4, true),
            s4 == with_bit(s3, 5, true),
            s5 == with_bit(s4, 6, true),
            s6 == with_bit(s5, 7, true),
            s7 == with_bit(s6, 13, true),
    ;
    s7
}

/// The value that clears the end-of-operation flag when it is written to the status register
pub fn end_of_operation_flag() -> (value: u32)
    ensures
        value == 1,
{
    let value = set_bit(0, 0, true);
    assert(with_bit(0, 0, true) == 1) by (bit_vector);
    value
}

/// What each change makes of every bit of the control register.
pub proof fn law_control_change_bit_by_bit(change: ControlChange, nscr: u32, bit: u32)
    requires
        bit < 32,
    ensures
        has_bit(change.control_after(nscr), bit) == match change {
            ControlChange::Lock => bit == 31 || has_bit(nscr, bit),
            ControlChange::SelectPage { second_bank, page } => if 3 <= bit < 10 {
                has_bit(page as u32, (bit - 3) as u32)
            } else if bit == 11 {
                second_bank
            } else {
                bit == 1 || has_bit(nscr, bit)
            },
            ControlChange::StartErase => bit == 16 || has_bit(nscr, bit),
            ControlChange::EndErase => bit != 1 && has_bit(nscr, bit),
            ControlChange::StartProgram => bit == 0 || has_bit(nscr, bit),
            ControlChange::EndProgram => bit != 0 && has_bit(nscr, bit),
        },
{
    law_bits_are_independent(nscr, 31, true, bit);
    law_bits_are_independent(nscr, 16, true, bit);
    law_bits_are_independent(nscr, 1, false, bit);
    law_bits_are_independent(nscr, 0, true, bit);
    law_bits_are_independent(nscr, 0, false, bit);
    if let ControlChange::SelectPage { second_bank, page } = change {
        let banked = with_bit(nscr, 11, second_bank);
        let paged = with_field(banked, 3, 0x7f, page as u32);
        law_bits_are_independent(nscr, 11, second_bank, bit);
        law_fields_are_independent(banked, 3, 0x7f, page as u32, bit);
        law_bits_are_independent(paged, 1, true, bit);
        if bit >= 3 {
            lemma_seven_bits((bit - 3) as u32);
        }
    }
}

} // verus!
