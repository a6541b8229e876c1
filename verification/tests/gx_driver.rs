use rjmp_stm32_flash::dual_page::Page;
use rjmp_stm32_flash::flash_gx::{
    erase_page, lock_flash, unlock_flash, wait_busy, FlashCommand, FlashError, Part, Region,
    Stm32gxFlash, Stm32gxPagePair, WriteRegion, FLASH_BASE, PAGE_SIZE,
};
use rjmp_stm32_flash::gx_registers::ControlChange;

/// The flash of an STM32G431xB, driven by commands.
struct Chip {
    memory: Vec<u8>,
    control: u32,
    first_key: bool,
    half: Option<(usize, u32)>,
}

impl Chip {
    fn new() -> Self {
        Chip {
            memory: vec![0x55; 64 * PAGE_SIZE],
            control: 0x8000_0000,
            first_key: false,
            half: None,
        }
    }

    fn locked(&self) -> bool {
        self.control >> 31 == 1
    }

    fn carry_out(&mut self, commands: &[FlashCommand]) {
        for command in commands {
            match *command {
                FlashCommand::WriteKey(key) => {
                    if key == 0xCDEF_89AB && self.first_key {
                        self.control &= 0x7fff_ffff;
                    }
                    self.first_key = key == 0x4567_0123;
                }
                FlashCommand::Control(change) => {
                    assert!(!self.locked());
                    self.control = change.apply(self.control);
                    if self.control & 0x1_0002 == 0x1_0002 {
                        let page = (self.control >> 3 & 0x7f) as usize;
                        self.memory[page * PAGE_SIZE..(page + 1) * PAGE_SIZE].fill(0xff);
                        self.control &= !0x1_0000;
                    }
                }
                FlashCommand::WriteWord { address, word } => {
                    assert!(!self.locked() && self.control & 1 == 1);
                    match self.half.take() {
                        None => {
                            assert_eq!(address % 8, 0);
                            self.half = Some((address, word));
                        }
                        Some((start, first)) => {
                            assert_eq!(start + 4, address);
                            let at = start - FLASH_BASE;
                            assert_eq!(self.memory[at..at + 8], [0xff; 8]);
                            self.memory[at..at + 4].copy_from_slice(&first.to_le_bytes());
                            self.memory[at + 4..at + 8].copy_from_slice(&word.to_le_bytes());
                        }
                    }
                }
                _ => {}
            }
        }
    }

    fn bytes(&self, (address, len): (usize, usize)) -> &[u8] {
        &self.memory[address - FLASH_BASE..address - FLASH_BASE + len]
    }
}

#[test]
fn gx_written_page_reads_back() {
    let mut chip = Chip::new();
    let mut pair = Stm32gxPagePair::new(60, 62, 2);
    let mut out = Vec::new();
    pair.erase_page(Page::A, &mut out);
    pair.write(&[0, 1, 2, 3], &mut out);
    pair.write(&[4, 5, 6, 7, 8, 9], &mut out);
    pair.flush(&mut out);
    chip.carry_out(&out);
    let page_a = chip.bytes(pair.page(Page::A));
    assert_eq!(page_a.len(), 4096);
    assert_eq!(page_a[..10], [0, 1, 2, 3, 4, 5, 6, 7, 8, 9]);
    assert_eq!(page_a[10..16], [0; 6]);
    assert!(page_a[16..].iter().all(|x| *x == 0xff));
    assert!(chip.bytes(pair.page(Page::B)).iter().all(|x| *x == 0x55));
    assert!(chip.memory[..60 * PAGE_SIZE].iter().all(|x| *x == 0x55));
    assert!(chip.locked());
}

#[test]
fn gx_erase_changes_nothing_else() {
    let mut chip = Chip::new();
    let mut pair = Stm32gxPagePair::new(60, 62, 2);
    let mut out = Vec::new();
    pair.erase_page(Page::B, &mut out);
    chip.carry_out(&out);
    assert!(chip.memory[..62 * PAGE_SIZE].iter().all(|x| *x == 0x55));
    assert!(chip.memory[62 * PAGE_SIZE..].iter().all(|x| *x == 0xff));
    assert!(chip.locked());
}

#[test]
fn gx_erase_page_commands_are_exact() {
    let mut out = Vec::new();
    erase_page(0x123, &mut out);
    assert_eq!(
        out,
        vec![
            FlashCommand::WaitBusy,
            FlashCommand::ClearErrors,
            FlashCommand::Control(ControlChange::SelectPage(0x23)),
            FlashCommand::Control(ControlChange::StartErase),
            FlashCommand::WaitBusy,
            FlashCommand::Control(ControlChange::EndErase),
        ]
    );
}

#[test]
fn gx_flush_commands_are_exact() {
    let mut writer = WriteRegion::new(Region { start_page: 1, size: 1 });
    let mut out = Vec::new();
    writer.write(&[1, 2, 3, 4, 5], &mut out);
    assert_eq!(out, vec![]);
    writer.flush(&mut out);
    assert_eq!(
        out,
        vec![
            FlashCommand::WriteKey(0x4567_0123),
            FlashCommand::WriteKey(0xCDEF_89AB),
            FlashCommand::ClearErrors,
            FlashCommand::WaitBusy,
            FlashCommand::Control(ControlChange::StartProgram),
            FlashCommand::Fence,
            FlashCommand::WriteWord { address: 0x0800_0800, word: 0x0403_0201 },
            FlashCommand::Fence,
            FlashCommand::WriteWord { address: 0x0800_0804, word: 0x0000_0005 },
            FlashCommand::Fence,
            FlashCommand::WaitBusy,
            FlashCommand::ClearEndOfOperation,
            FlashCommand::Control(ControlChange::EndProgram),
            FlashCommand::Control(ControlChange::Lock),
        ]
    );
}

#[test]
fn gx_flush_of_whole_words_does_nothing() {
    let mut writer = WriteRegion::new(Region { start_page: 0, size: 1 });
    let mut out = Vec::new();
    writer.write(&[9; 16], &mut out);
    let count = out.len();
    writer.flush(&mut out);
    assert_eq!(out.len(), count);
    assert_eq!(writer.write_pos, 16);
}

#[test]
fn gx_data_can_be_written_in_any_sizes() {
    let data: Vec<u8> = (0..50).collect();
    let region = Region { start_page: 3, size: 1 };
    let mut at_once = Vec::new();
    let mut writer = WriteRegion::new(region);
    writer.write(&data, &mut at_once);
    writer.flush(&mut at_once);
    for size in 1..data.len() {
        let mut in_pieces = Vec::new();
        let mut writer = WriteRegion::new(region);
        for piece in data.chunks(size) {
            writer.write(piece, &mut in_pieces);
        }
        writer.flush(&mut in_pieces);
        assert_eq!(in_pieces, at_once);
    }
}

#[test]
fn gx_region_addresses() {
    let region = Region { start_page: 2, size: 3 };
    assert_eq!(region.page_slice(), (0x0800_1000, 6144));
    assert_eq!(region.page_ptr(12), 0x0800_100c);
}

#[test]
fn gx_range_of_each_part() {
    for (part, pages) in [(Part::Stm32g431xb, 64), (Part::Stm32g431x8, 32), (Part::Stm32g431x6, 16)] {
        assert_eq!(part.num_pages(), pages);
        let flash = Stm32gxFlash::new(part);
        assert_eq!(flash.capacity(), pages * 2048);
        assert!(!Stm32gxFlash::in_range(part, 0x07ff_ffff, 1));
        assert!(Stm32gxFlash::in_range(part, 0x0800_0000, 0));
        assert!(Stm32gxFlash::in_range(part, 0x0800_0000, pages * 2048 - 1));
        assert!(!Stm32gxFlash::in_range(part, 0x0800_0000, pages * 2048));
        assert!(!Stm32gxFlash::in_range(part, 0x0800_0000 + pages * 2048, 0));
    }
}

#[test]
fn gx_read_source_or_out_of_range() {
    let flash = Stm32gxFlash::new(Part::Stm32g431xb);
    assert_eq!(flash.read_source(0, 16), Err(FlashError::OutOfRange));
    assert_eq!(flash.read_source(0x0800_0010, 16), Ok(0x1000_0010));
    assert_eq!(flash.read_source(0x0802_0000, 1), Err(FlashError::OutOfRange));
}

#[test]
fn gx_lock_and_unlock() {
    let mut chip = Chip::new();
    let mut out = Vec::new();
    unlock_flash(&mut out);
    chip.carry_out(&out);
    assert!(!chip.locked());
    out.clear();
    wait_busy(&mut out);
    lock_flash(&mut out);
    assert_eq!(out, vec![FlashCommand::WaitBusy, FlashCommand::Control(ControlChange::Lock)]);
    chip.carry_out(&out);
    assert!(chip.locked());
}

#[test]
fn gx_pair_can_be_locked() {
    let mut out = Vec::new();
    Stm32gxPagePair::new(0, 1, 1).lock(&mut out);
    assert_eq!(out, vec![FlashCommand::Control(ControlChange::Lock)]);
}

#[test]
fn gx_calls_are_refused_before_an_erase_and_beyond_all_addresses() {
    let mut pair = Stm32gxPagePair::new(60, usize::MAX, 2);
    assert!(!pair.can_write(0) && !pair.can_flush());
    assert!(pair.can_page(Page::A) && pair.can_erase(Page::A));
    assert!(!pair.can_page(Page::B) && !pair.can_erase(Page::B));
    pair.erase_page(Page::A, &mut Vec::new());
    assert!(pair.can_write(4096) && pair.can_flush());
    assert!(!pair.can_write(usize::MAX));
    let far = usize::MAX / 2048 - 0x1_0000;
    let mut pair = Stm32gxPagePair::new(far, 0, 1);
    pair.erase_page(Page::A, &mut Vec::new());
    assert!(!pair.can_write(2056) && pair.can_write(2048));
}

#[test]
fn gx_interrupted_commands_leave_the_other_page() {
    let mut pair = Stm32gxPagePair::new(60, 62, 2);
    let mut out = Vec::new();
    pair.erase_page(Page::A, &mut out);
    pair.write(&[1; 21], &mut out);
    pair.flush(&mut out);
    for done in 0..=out.len() {
        let mut chip = Chip::new();
        chip.carry_out(&out[..done]);
        assert!(chip.bytes(pair.page(Page::B)).iter().all(|x| *x == 0x55));
        assert!(chip.memory[..60 * 2048].iter().all(|x| *x == 0x55));
    }
}
