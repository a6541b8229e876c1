use rjmp_stm32_flash::registers::{get_bit, set_bit, set_field};
use rjmp_stm32_flash::{gx_registers, l5_registers};

#[test]
fn field_replaces_only_its_bits() {
    assert_eq!(set_field(0xffff_ffff, 3, 0x7f, 0x15), 0xffff_fcaf);
    assert_eq!(set_field(0, 3, 0x7f, 0xff), 0x3f8);
}

#[test]
fn bits_do_not_disturb_each_other() {
    for bit in 0..32u32 {
        for on in [false, true] {
            let value = set_bit(0x5555_aaaa, bit, on);
            for other in 0..32u32 {
                let expected = if other == bit { on } else { get_bit(0x5555_aaaa, other) };
                assert_eq!(get_bit(value, other), expected);
            }
        }
    }
}

#[test]
fn gx_control_changes_set_their_bits() {
    assert_eq!(gx_registers::ControlChange::Lock.apply(0), 0x8000_0000);
    assert_eq!(gx_registers::ControlChange::SelectPage(60).apply(0), 2 | (60 << 3));
    assert_eq!(gx_registers::ControlChange::SelectPage(1).apply(127 << 3), 2 | (1 << 3));
    assert_eq!(gx_registers::ControlChange::SelectPage(0xff).apply(0), 2 | (127 << 3));
    assert_eq!(gx_registers::ControlChange::StartErase.apply(2), 0x1_0002);
    assert_eq!(gx_registers::ControlChange::EndErase.apply(0xffff_ffff), 0xffff_fffd);
    assert_eq!(gx_registers::ControlChange::StartProgram.apply(0), 1);
    assert_eq!(gx_registers::ControlChange::EndProgram.apply(0xffff_ffff), 0xffff_fffe);
}

#[test]
fn gx_status_is_busy_by_bit_sixteen() {
    assert!(gx_registers::is_busy(0x1_0000));
    assert!(!gx_registers::is_busy(0xfffe_ffff));
}

#[test]
fn gx_status_flags() {
    assert_eq!(gx_registers::error_flags_set(0), 0x43fa);
    assert_eq!(gx_registers::error_flags_set(0x1_0001), 0x1_43fb);
    assert_eq!(gx_registers::end_of_operation_flag(), 1);
}

#[test]
fn l5_control_changes_set_their_bits() {
    assert_eq!(l5_registers::ControlChange::Lock.apply(0), 0x8000_0000);
    let first = l5_registers::ControlChange::SelectPage { second_bank: false, page: 5 };
    assert_eq!(first.apply(0x800), 2 | (5 << 3));
    let second = l5_registers::ControlChange::SelectPage { second_bank: true, page: 63 };
    assert_eq!(second.apply(0), 2 | (63 << 3) | 0x800);
    assert_eq!(l5_registers::ControlChange::StartErase.apply(2), 0x1_0002);
    assert_eq!(l5_registers::ControlChange::EndErase.apply(0xffff_ffff), 0xffff_fffd);
    assert_eq!(l5_registers::ControlChange::StartProgram.apply(0), 1);
    assert_eq!(l5_registers::ControlChange::EndProgram.apply(0xffff_ffff), 0xffff_fffe);
}

#[test]
fn l5_status_bits() {
    assert!(l5_registers::is_locked(0x8000_0000));
    assert!(!l5_registers::is_locked(0x7fff_ffff));
    assert!(l5_registers::is_busy(0x1_0000));
    assert!(!l5_registers::is_busy(0xfffe_ffff));
    assert!(l5_registers::is_dual_bank(1 << 22));
    assert!(!l5_registers::is_dual_bank(!(1 << 22)));
    assert_eq!(l5_registers::error_flags(), 0x20fa);
    assert_eq!(l5_registers::end_of_operation_flag(), 1);
}
