use rjmp_stm32_flash::dual_page::Page;
use rjmp_stm32_flash::flash_l5::{
    lock_flash, unlock_keys, FlashCommand, FlashError, Region, Stm32l5Flash, Stm32l5PagePair,
    WriteRegion, FLASH_BASE, STM32L552_PAGE_SIZE,
};
use rjmp_stm32_flash::l5_registers::{is_locked, ControlChange};

/// The flash of an STM32L552, driven by commands.
struct Chip {
    memory: Vec<u8>,
    control: u32,
    critical: bool,
    half: Option<(usize, u32)>,
}

impl Chip {
    fn new() -> Self {
        Chip {
            memory: vec![0x55; 128 * STM32L552_PAGE_SIZE],
            control: 0x8000_0000,
            critical: false,
            half: None,
        }
    }

    fn carry_out(&mut self, commands: &[FlashCommand]) {
        for command in commands {
            match *command {
                FlashCommand::Unlock => {
                    if unlock_keys(is_locked(self.control)) == [0x4567_0123, 0xCDEF_89AB] {
                        self.control &= 0x7fff_ffff;
                    }
                }
                FlashCommand::Control(change) => {
                    assert!(!is_locked(self.control));
                    self.control = change.apply(self.control);
                    if self.control & 0x1_0002 == 0x1_0002 {
                        let bank = (self.control >> 11 & 1) as usize;
                        let page = 64 * bank + (self.control >> 3 & 0x7f) as usize;
                        let start = page * STM32L552_PAGE_SIZE;
                        self.memory[start..start + STM32L552_PAGE_SIZE].fill(0xff);
                        self.control &= !0x1_0000;
                    }
                }
                FlashCommand::EnterCritical => self.critical = true,
                FlashCommand::LeaveCritical => self.critical = false,
                FlashCommand::WriteWord { address, word } => {
                    assert!(self.critical && self.control & 1 == 1);
                    match self.half.take() {
                        None => {
                            assert_eq!(address % 8, 0);
                            self.half = Some((address, word));
                        }
                        Some((start, first)) => {
                            assert_eq!(start + 4, address);
                            let at = start - FLASH_BASE;
                            assert_eq!(self.memory[at..at + 8], [0xff; 8]);
                            self.memory[at..at + 4].copy_from_slice(&first.to_le_bytes());
                            self.memory[at + 4..at + 8].copy_from_slice(&word.to_le_bytes());
                        }
                    }
                }
                _ => {}
            }
        }
    }

    fn bytes(&self, (address, len): (usize, usize)) -> &[u8] {
        &self.memory[address - FLASH_BASE..address - FLASH_BASE + len]
    }
}

#[test]
fn l5_written_page_reads_back() {
    let mut chip = Chip::new();
    let mut pair = Stm32l5PagePair::new(true, 62, 124, 4);
    for page in [Page::A, Page::B] {
        let mut out = Vec::new();
        pair.erase_page(page, &mut out);
        pair.write(&[0, 1, 2, 3], &mut out);
        pair.write(&[4, 5, 6, 7, 8, 9], &mut out);
        pair.flush(&mut out);
        chip.carry_out(&out);
        let bytes = chip.bytes(pair.page(page));
        assert_eq!(bytes.len(), 8192);
        assert_eq!(bytes[..10], [0, 1, 2, 3, 4, 5, 6, 7, 8, 9]);
        assert!(bytes[10..].iter().all(|x| *x == 0xff));
        if page == Page::A {
            assert!(chip.bytes(pair.page(Page::B)).iter().all(|x| *x == 0x55));
        }
    }
    assert_eq!(chip.bytes(pair.page(Page::A))[..4], [0, 1, 2, 3]);
    assert!(chip.memory[..62 * 2048].iter().all(|x| *x == 0x55));
    assert!(chip.memory[66 * 2048..124 * 2048].iter().all(|x| *x == 0x55));
    assert!(is_locked(chip.control) && !chip.critical);
}

#[test]
fn l5_erase_selects_bank_and_page() {
    let mut writer = WriteRegion::new(Region { start_page: 70, size: 1 });
    let mut out = Vec::new();
    writer.erase(&mut out);
    assert_eq!(
        out,
        vec![
            FlashCommand::Unlock,
            FlashCommand::WaitBusy,
            FlashCommand::ClearErrors,
            FlashCommand::Control(ControlChange::SelectPage { second_bank: true, page: 6 }),
            FlashCommand::Control(ControlChange::StartErase),
            FlashCommand::WaitBusy,
            FlashCommand::Control(ControlChange::EndErase),
            FlashCommand::ClearEndOfOperation,
            FlashCommand::WaitBusy,
            FlashCommand::Control(ControlChange::Lock),
        ]
    );
}

#[test]
fn l5_flush_commands_are_exact() {
    let mut writer = WriteRegion::new(Region { start_page: 1, size: 1 });
    let mut out = Vec::new();
    writer.write(&[1, 2, 3, 4, 5], &mut out);
    assert_eq!(out, vec![]);
    writer.flush(&mut out);
    assert_eq!(
        out,
        vec![
            FlashCommand::Unlock,
            FlashCommand::WaitBusy,
            FlashCommand::ClearErrors,
            FlashCommand::EnterCritical,
            FlashCommand::Control(ControlChange::StartProgram),
            FlashCommand::Fence,
            FlashCommand::WriteWord { address: 0x0800_0800, word: 0x0403_0201 },
            FlashCommand::Fence,
            FlashCommand::WriteWord { address: 0x0800_0804, word: 0xffff_ff05 },
            FlashCommand::Fence,
            FlashCommand::WaitBusy,
            FlashCommand::Control(ControlChange::EndProgram),
            FlashCommand::LeaveCritical,
            FlashCommand::ClearEndOfOperation,
            FlashCommand::WaitBusy,
            FlashCommand::Control(ControlChange::Lock),
        ]
    );
    assert_eq!(writer.cache, [0xff; 8]);
    assert_eq!(writer.write_pos, 5);
}

#[test]
fn l5_data_can_be_written_in_any_sizes() {
    let data: Vec<u8> = (0..50).collect();
    let region = Region { start_page: 3, size: 1 };
    let mut at_once = Vec::new();
    let mut writer = WriteRegion::new(region);
    writer.write(&data, &mut at_once);
    writer.flush(&mut at_once);
    for size in 1..data.len() {
        let mut in_pieces = Vec::new();
        let mut writer = WriteRegion::new(region);
        for piece in data.chunks(size) {
            writer.write(piece, &mut in_pieces);
        }
        writer.flush(&mut in_pieces);
        assert_eq!(in_pieces, at_once);
    }
}

#[test]
fn l5_whole_region_can_be_written() {
    let mut chip = Chip::new();
    let mut pair = Stm32l5PagePair::new(true, 0, 127, 1);
    let data: Vec<u8> = (0..2048).map(|i: usize| i as u8).collect();
    let mut out = Vec::new();
    pair.erase_page(Page::B, &mut out);
    pair.write(&data, &mut out);
    pair.flush(&mut out);
    chip.carry_out(&out);
    assert_eq!(chip.bytes(pair.page(Page::B)), &data[..]);
}

#[test]
fn l5_keys_are_written_only_to_a_locked_flash() {
    assert_eq!(unlock_keys(true), vec![0x4567_0123, 0xCDEF_89AB]);
    assert_eq!(unlock_keys(false), Vec::<u32>::new());
}

#[test]
fn l5_lock_waits_first() {
    let mut out = Vec::new();
    lock_flash(&mut out);
    assert_eq!(out, vec![FlashCommand::WaitBusy, FlashCommand::Control(ControlChange::Lock)]);
}

#[test]
fn l5_range_is_the_whole_flash() {
    assert!(Stm32l5Flash::in_range(0, 0x4_0000));
    assert!(Stm32l5Flash::in_range(0x4_0000, 0));
    assert!(!Stm32l5Flash::in_range(1, 0x4_0000));
    assert!(!Stm32l5Flash::in_range(usize::MAX, 1));
}

#[test]
fn l5_read_source_or_out_of_range() {
    let flash = Stm32l5Flash::new();
    assert_eq!(flash.capacity(), 262_144);
    assert_eq!(flash.read_source(0x10, 16), Ok(0x0800_0010));
    assert_eq!(flash.read_source(0x3_fff0, 16), Ok(0x0803_fff0));
    assert_eq!(flash.read_source(0x3_fff0, 17), Err(FlashError::OutOfRange));
    assert_eq!(Stm32l5Flash::default().read_source(u32::MAX, 1), Err(FlashError::OutOfRange));
}

#[test]
fn l5_region_addresses() {
    let region = Region { start_page: 2, size: 3 };
    assert_eq!(region.as_slice(), (0x0800_1000, 6144));
    assert_eq!(region.ptr(12), 0x0800_100c);
}

#[test]
fn l5_calls_are_refused_before_an_erase_and_beyond_the_region() {
    let mut pair = Stm32l5PagePair::new(true, 0, 1, 1);
    assert!(!pair.can_write(0) && !pair.can_flush());
    pair.erase_page(Page::A, &mut Vec::new());
    assert!(pair.can_write(2048) && !pair.can_write(2049) && pair.can_flush());
    pair.write(&[1; 2000], &mut Vec::new());
    assert!(pair.can_write(48) && !pair.can_write(49) && !pair.can_write(usize::MAX));
}

#[test]
fn l5_interrupted_commands_leave_the_other_page() {
    let mut pair = Stm32l5PagePair::new(true, 60, 62, 2);
    let mut out = Vec::new();
    pair.erase_page(Page::A, &mut out);
    pair.write(&[1; 21], &mut out);
    pair.flush(&mut out);
    for done in 0..=out.len() {
        let mut chip = Chip::new();
        chip.carry_out(&out[..done]);
        assert!(chip.bytes(pair.page(Page::B)).iter().all(|x| *x == 0x55));
        assert!(chip.memory[..60 * 2048].iter().all(|x| *x == 0x55));
    }
}
