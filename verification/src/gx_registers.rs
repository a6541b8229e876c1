//! The flash registers of STM32G4 devices
//!
//! The fields of the control and the status register are named and placed by `stm32_metapac`.

use vstd::prelude::*;
use crate::registers::{
    has_bit, law_bits_are_independent, law_fields_are_independent, lemma_seven_bits, with_bit,
    with_field,
};

verus! {

/// `stm32_metapac::flash::regs::Cr::set_pg` sets or clears bit 0 of the control register.
#[verifier::external_body]
fn set_pg(cr: u32, on: bool) -> (value: u32)
    ensures
        value == with_bit(cr, 0, on),
{
    let mut w = stm32_metapac::flash::regs::Cr(cr);
    w.set_pg(on);
    w.0
}

/// `stm32_metapac::flash::regs::Cr::set_per` sets or clears bit 1 of the control register.
#[verifier::external_body]
fn set_per(cr: u32, on: bool) -> (value: u32)
    ensures
        value == with_bit(cr, 1, on),
{
    let mut w = stm32_metapac::flash::regs::Cr(cr);
    w.set_per(on);
    w.0
}

/// `stm32_metapac::flash::regs::Cr::set_pnb` puts the low 7 bits of the page number into bits 3 to
/// 9 of the control register.
#[verifier::external_body]
fn set_pnb(cr: u32, page: u8) -> (value: u32)
    ensures
        value == with_field(cr, 3, 0x7f, page as u32),
{
    let mut w = stm32_metapac::flash::regs::Cr(cr);
    w.set_pnb(page);
    w.0
}

/// `stm32_metapac::flash::regs::Cr::set_strt` sets or clears bit 16 of the control register.
#[verifier::external_body]
fn set_strt(cr: u32, on: bool) -> (value: u32)
    ensures
        value == with_bit(cr, 16, on),
{
    let mut w = stm32_metapac::flash::regs::Cr(cr);
    w.set_strt(on);
    w.0
}

/// `stm32_metapac::flash::regs::Cr::set_lock` sets or clears bit 31 of the control register.
#[verifier::external_body]
fn set_lock(cr: u32, on: bool) -> (value: u32)
    ensures
        value == with_bit(cr, 31, on),
{
    let mut w = stm32_metapac::flash::regs::Cr(cr);
    w.set_lock(on);
    w.0
}

/// `stm32_metapac::flash::regs::Sr::bsy` tells whether bit 16 of the status register is set.
#[verifier::external_body]
fn bsy(sr: u32) -> (busy: bool)
    ensures
        busy == has_bit(sr, 16),
{
    stm32_metapac::flash::regs::Sr(sr).bsy()
}

/// `stm32_metapac::flash::regs::Sr::set_eop` sets or clears bit 0 of the status register.
#[verifier::external_body]
fn set_eop(sr: u32, on: bool) -> (value: u32)
    ensures
        value == with_bit(sr, 0, on),
{
    let mut w = stm32_metapac::flash::regs::Sr(sr);
    w.set_eop(on);
    w.0
}

/// `stm32_metapac::flash::regs::Sr::set_operr` sets or clears bit 1 of the status register.
#[verifier::external_body]
fn set_operr(sr: u32, on: bool) -> (value: u32)
    ensures
        value == with_bit(sr, 1, on),
{
    let mut w = stm32_metapac::flash::regs::Sr(sr);
    w.set_operr(on);
    w.0
}

/// `stm32_metapac::flash::regs::Sr::set_progerr` sets or clears bit 3 of the status register.
#[verifier::external_body]
fn set_progerr(sr: u32, on: bool) -> (value: u32)
    ensures
        value == with_bit(sr, 3, on),
{
    let mut w = stm32_metapac::flash::regs::Sr(sr);
    w.set_progerr(on);
    w.0
}

/// `stm32_metapac::flash::regs::Sr::set_wrperr` sets or clears bit 4 of the status register.
#[verifier::external_body]
fn set_wrperr(sr: u32, on: bool) -> (value: u32)
    ensures
        value == with_bit(sr, 4, on),
{
    let mut w = stm32_metapac::flash::regs::Sr(sr);
    w.set_wrperr(on);
    w.0
}

/// `stm32_metapac::flash::regs::Sr::set_pgaerr` sets or clears bit 5 of the status register.
#[verifier::external_body]
fn set_pgaerr(sr: u32, on: bool) -> (value: u32)
    ensures
        value == with_bit(sr, 5, on),
{
    let mut w = stm32_metapac::flash::regs::Sr(sr);
    w.set_pgaerr(on);
    w.0
}

/// `stm32_metapac::flash::regs::Sr::set_sizerr` sets or clears bit 6 of the status register.
#[verifier::external_body]
fn set_sizerr(sr: u32, on: bool) -> (value: u32)
    ensures
        value == with_bit(sr, 6, on),
{
    let mut w = stm32_metapac::flash::regs::Sr(sr);
    w.set_sizerr(on);
    w.0
}

/// `stm32_metapac::flash::regs::Sr::set_pgserr` sets or clears bit 7 of the status register.
#[verifier::external_body]
fn set_pgserr(sr: u32, on: bool) -> (value: u32)
    ensures
        value == with_bit(sr, 7, on),
{
    let mut w = stm32_metapac::flash::regs::Sr(sr);
    w.set_pgserr(on);
    w.0
}

/// `stm32_metapac::flash::regs::Sr::set_miserr` sets or clears bit 8 of the status register.
#[verifier::external_body]
fn set_miserr(sr: u32, on: bool) -> (value: u32)
    ensures
        value == with_bit(sr, 8, on),
{
    let mut w = stm32_metapac::flash::regs::Sr(sr);
    w.set_miserr(on);
    w.0
}

/// `stm32_metapac::flash::regs::Sr::set_fasterr` sets or clears bit 9 of the status register.
#[verifier::external_body]
fn set_fasterr(sr: u32, on: bool) -> (value: u32)
    ensures
        value == with_bit(sr, 9, on),
{
    let mut w = stm32_metapac::flash::regs::Sr(sr);
    w.set_fasterr(on);
    w.0
}

/// `stm32_metapac::flash::regs::Sr::set_rderr` sets or clears bit 14 of the status register.
#[verifier::external_body]
fn set_rderr(sr: u32, on: bool) -> (value: u32)
    ensures
        value == with_bit(sr, 14, on),
{
    let mut w = stm32_metapac::flash::regs::Sr(sr);
    w.set_rderr(on);
    w.0
}

/// A change of the control register
#[derive(Clone, Copy, Debug, PartialEq, Eq, Structural)]
pub enum ControlChange {
    /// Protect the flash against changes
    Lock,
    /// Choose page erase and the page
    SelectPage(u8),
    /// Start the erase that was chosen
    StartErase,
    /// Leave page erase
    EndErase,
    /// Choose programming
    StartProgram,
    /// Leave programming
    EndProgram,
}

impl ControlChange {
    /// The control register after the change.
    pub open spec fn control_after(self, cr: u32) -> u32 {
        match self {
            ControlChange::Lock => with_bit(cr, 31, true),
            ControlChange::SelectPage(page) => with_field(
                with_bit(cr, 1, true),
                3,
                0x7f,
                page as u32,
            ),
            ControlChange::StartErase => with_bit(cr, 16, true),
            ControlChange::EndErase => with_bit(cr, 1, false),
            ControlChange::StartProgram => with_bit(cr, 0, true),
            ControlChange::EndProgram => with_bit(cr, 0, false),
        }
    }

    /// Computes the control register after the change
    pub fn apply(self, cr: u32) -> (value: u32)
        ensures
            value == self.control_after(cr),
    {
        match self {
            ControlChange::Lock => set_lock(cr, true),
            ControlChange::SelectPage(page) => set_pnb(set_per(cr, true), page),
            ControlChange::StartErase => set_strt(cr, true),
            ControlChange::EndErase => set_per(cr, false),
            ControlChange::StartProgram => set_pg(cr, true),
            ControlChange::EndProgram => set_pg(cr, false),
        }
    }
}

/// Whether the status register tells that an operation is under way
pub fn is_busy(sr: u32) -> (busy: bool)
    ensures
        busy == has_bit(sr, 16),
{
    bsy(sr)
}

/// The value that clears all error flags when it is written to a status register that reads `sr`
///
/// A flag is cleared by writing a one to it.
pub fn error_flags_set(sr: u32) -> (value: u32)
    ensures
        value == sr | 0x43fa,
{
    let s1 = set_fasterr(sr, true);
    let s2 = set_miserr(s1, true);
    let s3 = set_operr(s2, true);
    let s4 = set_pgserr(s3, true);
    let s5 = set_pgaerr(s4, true);
    let s6 = set_progerr(s5, true);
    let s7 = set_rderr(s6, true);
    let s8 = set_sizerr(s7, true);
    let s9 = set_wrperr(s8, true);
    assert(s9 == sr | 0x43fa) by (bit_vector)
        requires
            s1 == with_bit(sr, 9, true),
            s2 == with_bit(s1, 8, true),
            s3 == with_bit(s2, 1, true),
            s4 == with_bit(s3, 7, true),
            s5 == with_bit(s4, 5, true),
            s6 == with_bit(s5, 3, true),
            s7 == with_bit(s6, 14, true),
            s8 == with_bit(s7, 6, true),
            s9 == with_bit(s8, 4, true),
    ;
    s9
}

/// The value that clears the end-of-operation flag when it is written to the status register
pub fn end_of_operation_flag() -> (value: u32)
    ensures
        value == 1,
{
    let value = set_eop(0, true);
    assert(with_bit(0, 0, true) == 1) by (bit_vector);
    value
}

/// What each change makes of every bit of the control register.
pub proof fn law_control_change_bit_by_bit(change: ControlChange, cr: u32, bit: u32)
    requires
        bit < 32,
    ensures
        has_bit(change.control_after(cr), bit) == match change {
            ControlChange::Lock => bit == 31 || has_bit(cr, bit),
            ControlChange::SelectPage(page) => if 3 <= bit < 10 {
                has_bit(page as u32, (bit - 3) as u32)
            } else {
                bit == 1 || has_bit(cr, bit)
            },
            ControlChange::StartErase => bit == 16 || has_bit(cr, bit),
            ControlChange::EndErase => bit != 1 && has_bit(cr, bit),
            ControlChange::StartProgram => bit == 0 || has_bit(cr, bit),
            ControlChange::EndProgram => bit != 0 && has_bit(cr, bit),
        },
{
    law_bits_are_independent(cr, 31, true, bit);
    law_bits_are_independent(cr, 16, true, bit);
    law_bits_are_independent(cr, 1, true, bit);
    law_bits_are_independent(cr, 1, false, bit);
    law_bits_are_independent(cr, 0, true, bit);
    law_bits_are_independent(cr, 0, false, bit);
    if let ControlChange::SelectPage(page) = change {
        law_fields_are_independent(with_bit(cr, 1, true), 3, 0x7f, page as u32, bit);
        if bit >= 3 {
            lemma_seven_bits((bit - 3) as u32);
        }
    }
}

} // verus!
