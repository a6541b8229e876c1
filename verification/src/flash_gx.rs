//! Flash driver for STM32Gx family
//!
//! Should work for any of the G0 or G4 family parts in single bank mode. No support for dual bank
//! currently
//!
//! The driver decides what is to be done to the flash controller and hands it out as a list of
//! [`FlashCommand`]s, which are carried out in order.

use vstd::prelude::*;
use crate::double_word::{full_words, law_words_in_pieces, padded_word, partial_word, DoubleWord};
use crate::dual_page::Page;
use crate::flash_chip::{KEY_1, KEY_2};
use crate::gx_registers::ControlChange;
use crate::le_bytes::{le32_at, read_le32};

verus! {

pub const PAGE_SIZE: usize = 2048;

pub const FLASH_BASE: usize = 0x0800_0000;

/// The parts that differ in the size of their flash
#[derive(Clone, Copy, Debug, PartialEq, Eq, Structural)]
pub enum Part {
    Stm32g431xb,
    Stm32g431x8,
    Stm32g431x6,
}

impl Part {
    /// The number of flash pages.
    pub open spec fn pages(self) -> int {
        match self {
            Part::Stm32g431xb => 64,
            Part::Stm32g431x8 => 32,
            Part::Stm32g431x6 => 16,
        }
    }

    pub fn num_pages(self) -> (n: usize)
        ensures
            n == self.pages(),
    {
        match self {
            Part::Stm32g431xb => 64,
            Part::Stm32g431x8 => 32,
            Part::Stm32g431x6 => 16,
        }
    }
}

#[derive(Clone, Copy, Debug, PartialEq, Eq, Structural)]
pub enum FlashError {
    OutOfRange,
}

/// Read access to the flash
pub struct Stm32gxFlash {
    pub part: Part,
}

/// Whether `size` bytes from `addr` on lie in the flash and end before its last byte does.
pub open spec fn lies_in_flash(part: Part, addr: int, size: int) -> bool {
    FLASH_BASE <= addr && addr + size < FLASH_BASE + part.pages() * PAGE_SIZE
}

impl Stm32gxFlash {
    pub fn new(part: Part) -> (flash: Self)
        ensures
            flash.part == part,
    {
        Self { part }
    }

    pub fn in_range(part: Part, addr: usize, size: usize) -> (found: bool)
        requires
            FLASH_BASE <= addr ==> addr + size <= usize::MAX,
        ensures
            found == lies_in_flash(part, addr as int, size as int),
    {
        if addr < FLASH_BASE {
            false
        } else if addr + size >= FLASH_BASE + part.num_pages() * PAGE_SIZE {
            false
        } else {
            true
        }
    }

    /// The address to copy `len` bytes from in order to read at `offset`
    pub fn read_source(&self, offset: u32, len: usize) -> (source: Result<usize, FlashError>)
        requires
            FLASH_BASE + offset <= usize::MAX,
            FLASH_BASE <= offset ==> offset + len <= usize::MAX,
        ensures
            match source {
                Ok(addr) => {
                    &&& lies_in_flash(self.part, offset as int, len as int)
                    &&& addr == FLASH_BASE + offset
                },
                Err(FlashError::OutOfRange) => !lies_in_flash(
                    self.part,
                    offset as int,
                    len as int,
                ),
            },
    {
        let addr = FLASH_BASE + offset as usize;
        if !Self::in_range(self.part, offset as usize, len) {
            return Err(FlashError::OutOfRange);
        }
        Ok(addr)
    }

    pub fn capacity(&self) -> (n: usize)
        ensures
            n == PAGE_SIZE * self.part.pages(),
    {
        PAGE_SIZE * self.part.num_pages()
    }
}

/// One access to the flash controller or to the flash itself
#[derive(Clone, Copy, Debug, PartialEq, Eq, Structural)]
pub enum FlashCommand {
    /// Write the key register
    WriteKey(u32),
    /// Wait until the status register is no longer busy, as told by
    /// [`is_busy`](crate::gx_registers::is_busy)
    WaitBusy,
    /// Replace the status register by what
    /// [`error_flags_set`](crate::gx_registers::error_flags_set) makes of it
    ClearErrors,
    /// Write [`end_of_operation_flag`](crate::gx_registers::end_of_operation_flag) to the status
    /// register
    ClearEndOfOperation,
    /// Replace the control register by what [`ControlChange::apply`] makes of it
    Control(ControlChange),
    /// Let all memory accesses so far take effect
    Fence,
    /// Write 32 bits to the flash
    WriteWord { address: usize, word: u32 },
}

pub open spec fn unlock_commands() -> Seq<FlashCommand> {
    seq![FlashCommand::WriteKey(KEY_1), FlashCommand::WriteKey(KEY_2)]
}

pub open spec fn lock_commands() -> Seq<FlashCommand> {
    seq![FlashCommand::Control(ControlChange::Lock)]
}

/// Erasing one page of an unlocked flash. Only the low 8 bits of the page number count.
pub open spec fn erase_page_commands(page_num: int) -> Seq<FlashCommand> {
    seq![
        FlashCommand::WaitBusy,
        FlashCommand::ClearErrors,
        FlashCommand::Control(ControlChange::SelectPage((page_num % 0x100) as u8)),
        FlashCommand::Control(ControlChange::StartErase),
        FlashCommand::WaitBusy,
        FlashCommand::Control(ControlChange::EndErase),
    ]
}

/// Erasing `count` pages of an unlocked flash, from page `start` on.
pub open spec fn erase_pages_commands(start: int, count: nat) -> Seq<FlashCommand> {
    Seq::new(count, |i: int| erase_page_commands(start + i)).flatten()
}

/// Programming one double word of an unlocked flash.
pub open spec fn word_commands(word: DoubleWord) -> Seq<FlashCommand> {
    seq![
        FlashCommand::ClearErrors,
        FlashCommand::WaitBusy,
        FlashCommand::Control(ControlChange::StartProgram),
        FlashCommand::Fence,
        FlashCommand::WriteWord {
            address: word.address as usize,
            word: le32_at(word.bytes, 0) as u32,
        },
        FlashCommand::Fence,
        FlashCommand::WriteWord {
            address: (word.address + 4) as usize,
            word: le32_at(word.bytes, 4) as u32,
        },
        FlashCommand::Fence,
        FlashCommand::WaitBusy,
        FlashCommand::ClearEndOfOperation,
        FlashCommand::Control(ControlChange::EndProgram),
    ]
}

/// Programming one double word.
pub open spec fn program_commands(word: DoubleWord) -> Seq<FlashCommand> {
    unlock_commands() + word_commands(word) + lock_commands()
}

/// Programming double words one after the other.
pub open spec fn program_all_commands(words: Seq<DoubleWord>) -> Seq<FlashCommand> {
    words.map_values(|word: DoubleWord| program_commands(word)).flatten()
}

pub fn unlock_flash(out: &mut Vec<FlashCommand>)
    ensures
        final(out)@ == old(out)@ + unlock_commands(),
{
    out.push(FlashCommand::WriteKey(KEY_1));
    out.push(FlashCommand::WriteKey(KEY_2));
    assert(out@ =~= old(out)@ + unlock_commands());
}

pub fn lock_flash(out: &mut Vec<FlashCommand>)
    ensures
        final(out)@ == old(out)@ + lock_commands(),
{
    out.push(FlashCommand::Control(ControlChange::Lock));
    assert(out@ =~= old(out)@ + lock_commands());
}

pub fn wait_busy(out: &mut Vec<FlashCommand>)
    ensures
        final(out)@ == old(out)@.push(FlashCommand::WaitBusy),
{
    out.push(FlashCommand::WaitBusy);
}

fn clear_errors(out: &mut Vec<FlashCommand>)
    ensures
        final(out)@ == old(out)@.push(FlashCommand::ClearErrors),
{
    out.push(FlashCommand::ClearErrors);
}

pub fn erase_page(page_num: usize, out: &mut Vec<FlashCommand>)
    ensures
        final(out)@ == old(out)@ + erase_page_commands(page_num as int),
{
    wait_busy(out);
    clear_errors(out);
    out.push(FlashCommand::Control(ControlChange::SelectPage((page_num % 0x100) as u8)));
    out.push(FlashCommand::Control(ControlChange::StartErase));
    wait_busy(out);
    out.push(FlashCommand::Control(ControlChange::EndErase));
    assert(out@ =~= old(out)@ + erase_page_commands(page_num as int));
}

/// A run of flash pages
#[derive(Clone, Copy, Debug)]
pub struct Region {
    pub start_page: usize,
    pub size: usize,
}

impl Region {
    /// The address of the first byte.
    pub open spec fn base(self) -> int {
        FLASH_BASE + self.start_page * PAGE_SIZE
    }

    /// The number of bytes.
    pub open spec fn length(self) -> int {
        PAGE_SIZE * self.size
    }

    /// The address of the first byte, as wide as any region needs it
    fn wide_base(&self) -> (base: u128)
        ensures
            base == self.base(),
            base <= 0x1000_0000_0000_0000_0000,
    {
        assert(self.start_page <= u64::MAX);
        assert(self.start_page * PAGE_SIZE <= u64::MAX * 2048);
        FLASH_BASE as u128 + self.start_page as u128 * PAGE_SIZE as u128
    }

    /// The address and the number of the bytes of the region
    pub fn page_slice(&self) -> (bytes: (usize, usize))
        requires
            self.base() <= usize::MAX,
            self.length() <= usize::MAX,
        ensures
            bytes.0 == self.base(),
            bytes.1 == self.length(),
    {
        (FLASH_BASE + self.start_page * PAGE_SIZE, PAGE_SIZE * self.size)
    }

    /// The address of the byte at `offset`
    pub fn page_ptr(&self, offset: usize) -> (address: usize)
        requires
            self.base() + offset <= usize::MAX,
        ensures
            address == self.base() + offset,
    {
        FLASH_BASE + self.start_page * PAGE_SIZE + offset
    }
}

/// A region that is being written
pub struct WriteRegion {
    pub region: Region,
    pub write_pos: usize,
    pub cache: [u8; 8],
}

impl WriteRegion {
    /// The bytes that have been written and wait for their double word to be complete.
    pub open spec fn pending(&self) -> Seq<u8> {
        self.cache@.take(self.write_pos as int % 8)
    }

    /// The address of the double word that is being filled.
    pub open spec fn word_address(&self) -> int {
        self.region.base() + self.write_pos - self.write_pos as int % 8
    }

    /// Whether the double words that are complete after `len` more bytes have addresses.
    pub open spec fn can_address(&self, len: int) -> bool {
        let end = self.word_address() + 8 * ((self.pending().len() + len) / 8);
        self.word_address() < end ==> end - 4 <= usize::MAX
    }

    pub fn new(region: Region) -> (writer: Self)
        ensures
            writer.region == region,
            writer.write_pos == 0,
            writer.pending() == Seq::<u8>::empty(),
            writer.cache@ == Seq::new(8, |i: int| 0u8),
    {
        let writer = Self { region, write_pos: 0, cache: [0; 8] };
        assert(writer.pending() =~= Seq::empty());
        assert(writer.cache@ =~= Seq::new(8, |i: int| 0u8));
        writer
    }

    /// Erase all flash pages in the region
    pub fn erase(&mut self, out: &mut Vec<FlashCommand>)
        requires
            old(self).region.start_page + old(self).region.size <= usize::MAX,
        ensures
            *final(self) == *old(self),
            final(out)@ == old(out)@ + unlock_commands() + erase_pages_commands(
                old(self).region.start_page as int,
                old(self).region.size as nat,
            ) + lock_commands(),
    {
        unlock_flash(out);
        let start = self.region.start_page;
        let end = start + self.region.size;
        let ghost unlocked = out@;
        let mut i: usize = start;
        assert(unlocked + erase_pages_commands(start as int, 0) =~= unlocked);
        while i < end
            invariant
                start <= i <= end,
                out@ == unlocked + erase_pages_commands(start as int, (i - start) as nat),
            decreases end - i,
        {
            proof {
                let done = Seq::new((i - start) as nat, |k: int| erase_page_commands(start + k));
                done.lemma_flatten_push(erase_page_commands(i as int));
                assert(Seq::new((i + 1 - start) as nat, |k: int| erase_page_commands(start + k))
                    =~= done.push(erase_page_commands(i as int)));
            }
            erase_page(i, out);
            i += 1;
        }
        lock_flash(out);
    }

    pub fn write(&mut self, data: &[u8], out: &mut Vec<FlashCommand>)
        requires
            old(self).write_pos + data@.len() <= usize::MAX,
            old(self).can_address(data@.len() as int),
        ensures
            final(self).region == old(self).region,
            final(self).write_pos == old(self).write_pos + data@.len(),
            final(self).pending() == partial_word(old(self).pending() + data@),
            final(out)@ == old(out)@ + program_all_commands(
                full_words(old(self).word_address(), old(self).pending() + data@),
            ),
    {
        let ghost (first, start) = (self.word_address(), self.pending());
        let mut in_pos: usize = 0;
        proof {
            assert(start + data@.take(0) =~= start);
            assert(partial_word(start) =~= start);
            assert(out@ + program_all_commands(seq![]) =~= out@);
            assert(full_words(first, start) =~= seq![]);
        }
        while in_pos < data.len()
            invariant
                in_pos <= data@.len(),
                first == old(self).word_address(),
                start == old(self).pending(),
                old(self).write_pos + data@.len() <= usize::MAX,
                old(self).can_address(data@.len() as int),
                self.region == old(self).region,
                self.write_pos == old(self).write_pos + in_pos,
                self.pending() == partial_word(start + data@.take(in_pos as int)),
                out@ == old(out)@ + program_all_commands(
                    full_words(first, start + data@.take(in_pos as int)),
                ),
            decreases data.len() - in_pos,
        {
            let ghost done = start + data@.take(in_pos as int);
            let ghost byte = seq![data@[in_pos as int]];
            proof {
                assert(start + data@.take(in_pos + 1) =~= done + byte);
                law_words_in_pieces(first, done, byte);
                lemma_program_concat(
                    full_words(first, done),
                    full_words(self.word_address(), self.pending() + byte),
                );
            }
            self.write_byte(data[in_pos], out);
            assert(out@ =~= old(out)@ + program_all_commands(full_words(first, done + byte)));
            in_pos += 1;
        }
        assert(data@.take(in_pos as int) =~= data@);
    }

    /// Puts one byte into the cache, and programs the double word that it completes
    fn write_byte(&mut self, byte: u8, out: &mut Vec<FlashCommand>)
        requires
            old(self).write_pos < usize::MAX,
            old(self).can_address(1),
        ensures
            final(self).region == old(self).region,
            final(self).write_pos == old(self).write_pos + 1,
            final(self).pending() == partial_word(old(self).pending() + seq![byte]),
            final(out)@ == old(out)@ + program_all_commands(
                full_words(old(self).word_address(), old(self).pending() + seq![byte]),
            ),
    {
        let buf_pos: usize = self.write_pos % 8;
        let ghost stream = self.pending() + seq![byte];
        let ghost words = full_words(self.word_address(), stream);
        self.cache[buf_pos] = byte;
        self.write_pos += 1;
        assert(self.cache@.take(buf_pos + 1) =~= stream);
        if self.write_pos % 8 == 0 {
            proof {
                assert(stream.subrange(0, 8) =~= self.cache@);
                assert(words =~= Seq::<DoubleWord>::empty().push(words[0]));
                lemma_program_one_more(seq![], words[0]);
                assert(self.pending() =~= partial_word(stream));
            }
            self.write_cache(self.write_pos - 8, out);
            assert(out@ =~= old(out)@ + program_all_commands(words));
        } else {
            assert(words =~= seq![]);
            assert(out@ =~= old(out)@ + program_all_commands(words));
            assert(self.pending() =~= partial_word(stream));
        }
    }

    /// Finish writing any cached write data
    ///
    /// Must be called after finishing all calls to write when write data is not aligned to the
    /// flash write word size of 64-bits
    pub fn flush(&mut self, out: &mut Vec<FlashCommand>)
        requires
            old(self).pending().len() > 0 ==> old(self).word_address() + 4 <= usize::MAX,
        ensures
            final(self).region == old(self).region,
            final(self).write_pos == old(self).write_pos,
            final(self).pending() == old(self).pending(),
            final(out)@ == if old(self).pending().len() == 0 {
                old(out)@
            } else {
                old(out)@ + program_commands(
                    DoubleWord {
                        address: old(self).word_address(),
                        bytes: padded_word(old(self).pending(), 0),
                    },
                )
            },
    {
        // Pad remaining bytes with 0s
        let buf_pos: usize = self.write_pos % 8;
        if buf_pos == 0 {
            return;
        }
        let mut i: usize = buf_pos;
        while i < 8
            invariant
                buf_pos <= i <= 8,
                buf_pos == old(self).write_pos % 8,
                self.region == old(self).region,
                self.write_pos == old(self).write_pos,
                forall|j: int| 0 <= j < buf_pos ==> self.cache@[j] == old(self).cache@[j],
                forall|j: int| buf_pos <= j < i ==> self.cache@[j] == 0,
            decreases 8 - i,
        {
            self.cache[i] = 0;
            i += 1;
        }
        assert(self.cache@ =~= padded_word(old(self).pending(), 0));
        assert(self.pending() =~= old(self).pending());
        self.write_cache(self.write_pos - buf_pos, out);
    }

    fn write_cache(&mut self, offset: usize, out: &mut Vec<FlashCommand>)
        requires
            old(self).region.base() + offset + 4 <= usize::MAX,
        ensures
            *final(self) == *old(self),
            final(out)@ == old(out)@ + program_commands(
                DoubleWord {
                    address: old(self).region.base() + offset,
                    bytes: old(self).cache@,
                },
            ),
    {
        let word1 = read_le32(self.cache.as_slice(), 0);
        let word2 = read_le32(self.cache.as_slice(), 4);

        let dst1 = self.region.page_ptr(offset);
        let dst2 = self.region.page_ptr(offset + 4);

        unlock_flash(out);
        clear_errors(out);
        wait_busy(out);

        out.push(FlashCommand::Control(ControlChange::StartProgram));

        // Writing to flash must be done as a sequence of two 32-bit writes, starting on a 64-bit
        // aligned address
        out.push(FlashCommand::Fence);
        out.push(FlashCommand::WriteWord { address: dst1, word: word1 });
        out.push(FlashCommand::Fence);
        out.push(FlashCommand::WriteWord { address: dst2, word: word2 });
        out.push(FlashCommand::Fence);
        wait_busy(out);

        out.push(FlashCommand::ClearEndOfOperation);
        out.push(FlashCommand::Control(ControlChange::EndProgram));
        lock_flash(out);
        assert(out@ =~= old(out)@ + program_commands(
            DoubleWord { address: self.region.base() + offset, bytes: self.cache@ },
        ));
    }
}

/// Two regions of the flash, one of which may be selected for writing
pub struct Stm32gxPagePair {
    page_a: Region,
    page_b: Region,
    write_region: Option<WriteRegion>,
}

impl Stm32gxPagePair {
    /// The region of a page.
    pub closed spec fn region(&self, page: Page) -> Region {
        match page {
            Page::A => self.page_a,
            Page::B => self.page_b,
        }
    }

    /// The region that is selected for writing, and how far it is written.
    pub closed spec fn writer(&self) -> Option<WriteRegion> {
        self.write_region
    }

    /// Whether the bytes of a page have addresses and can be counted.
    pub open spec fn allows_page(&self, page: Page) -> bool {
        &&& self.region(page).base() <= usize::MAX
        &&& self.region(page).length() <= usize::MAX
    }

    /// Whether the flash pages of a page can be counted.
    pub open spec fn allows_erase(&self, page: Page) -> bool {
        self.region(page).start_page + self.region(page).size <= usize::MAX
    }

    /// Whether a page is selected for writing, and what is written to it with `len` more bytes can
    /// be counted and addressed.
    pub open spec fn allows_write(&self, len: int) -> bool {
        self.writer() matches Some(writer) && {
            &&& writer.write_pos + len <= usize::MAX
            &&& writer.can_address(len)
        }
    }

    /// Whether a page is selected for writing, and what is pending has an address.
    pub open spec fn allows_flush(&self) -> bool {
        self.writer() matches Some(writer) && (writer.pending().len() > 0
            ==> writer.word_address() + 4 <= usize::MAX)
    }

    /// The commands that erase a page.
    pub open spec fn erase_commands(&self, page: Page) -> Seq<FlashCommand> {
        unlock_commands() + erase_pages_commands(
            self.region(page).start_page as int,
            self.region(page).size as nat,
        ) + lock_commands()
    }

    /// The commands that write `data` to the selected page.
    pub open spec fn write_commands(&self, data: Seq<u8>) -> Seq<FlashCommand> {
        let writer = self.writer()->Some_0;
        program_all_commands(full_words(writer.word_address(), writer.pending() + data))
    }

    /// The commands that flush the selected page.
    pub open spec fn flush_commands(&self) -> Seq<FlashCommand> {
        let writer = self.writer()->Some_0;
        if writer.pending().len() == 0 {
            seq![]
        } else {
            program_commands(
                DoubleWord {
                    address: writer.word_address(),
                    bytes: padded_word(writer.pending(), 0),
                },
            )
        }
    }

    /// Whether `after` has the same pages.
    pub open spec fn has_regions_of(&self, after: Self) -> bool {
        &&& after.region(Page::A) == self.region(Page::A)
        &&& after.region(Page::B) == self.region(Page::B)
    }

    /// Whether `after` is this pair with `page` selected, and nothing written to it yet.
    pub open spec fn selects(&self, page: Page, after: Self) -> bool {
        &&& self.has_regions_of(after)
        &&& after.writer() matches Some(writer) && {
            &&& writer.region == self.region(page)
            &&& writer.write_pos == 0
            &&& writer.pending() == Seq::<u8>::empty()
        }
    }

    /// Whether `after` is this pair with `data` written to the selected page.
    pub open spec fn takes(&self, data: Seq<u8>, after: Self) -> bool {
        let before = self.writer()->Some_0;
        &&& self.has_regions_of(after)
        &&& after.writer() matches Some(writer) && {
            &&& writer.region == before.region
            &&& writer.write_pos == before.write_pos + data.len()
            &&& writer.pending() == partial_word(before.pending() + data)
        }
    }

    /// Whether `after` is this pair with the selected page flushed.
    pub open spec fn flushes(&self, after: Self) -> bool {
        let before = self.writer()->Some_0;
        &&& self.has_regions_of(after)
        &&& after.writer() matches Some(writer) && {
            &&& writer.region == before.region
            &&& writer.write_pos == before.write_pos
            &&& writer.pending() == before.pending()
        }
    }

    pub fn new(start_a: usize, start_b: usize, size: usize) -> (pair: Self)
        ensures
            pair.region(Page::A) == (Region { start_page: start_a, size }),
            pair.region(Page::B) == (Region { start_page: start_b, size }),
            pair.writer() is None,
    {
        Self {
            page_a: Region { start_page: start_a, size },
            page_b: Region { start_page: start_b, size },
            write_region: None,
        }
    }

    pub fn lock(self, out: &mut Vec<FlashCommand>)
        ensures
            final(out)@ == old(out)@ + lock_commands(),
    {
        lock_flash(out);
    }

    /// The region of a page
    fn select(&self, page: Page) -> (region: Region)
        ensures
            region == self.region(page),
    {
        match page {
            Page::A => self.page_a,
            Page::B => self.page_b,
        }
    }

    /// Whether [`page`](Self::page) may be called
    pub fn can_page(&self, page: Page) -> (ok: bool)
        ensures
            ok == self.allows_page(page),
    {
        let region = self.select(page);
        let base = region.wide_base();
        let length = PAGE_SIZE as u128 * region.size as u128;
        base <= usize::MAX as u128 && length <= usize::MAX as u128
    }

    /// Whether [`erase_page`](Self::erase_page) may be called
    pub fn can_erase(&self, page: Page) -> (ok: bool)
        ensures
            ok == self.allows_erase(page),
    {
        let region = self.select(page);
        region.start_page <= usize::MAX - region.size
    }

    /// Whether [`write`](Self::write) may be called with `len` bytes
    pub fn can_write(&self, len: usize) -> (ok: bool)
        ensures
            ok == self.allows_write(len as int),
    {
        match &self.write_region {
            None => false,
            Some(writer) => {
                let buf_pos: usize = writer.write_pos % 8;
                let word = writer.region.wide_base() + (writer.write_pos - buf_pos) as u128;
                let full = (buf_pos as u128 + len as u128) / 8 * 8;
                writer.write_pos <= usize::MAX - len && (full == 0 || word + full - 4
                    <= usize::MAX as u128)
            },
        }
    }

    /// Whether [`flush`](Self::flush) may be called
    pub fn can_flush(&self) -> (ok: bool)
        ensures
            ok == self.allows_flush(),
    {
        match &self.write_region {
            None => false,
            Some(writer) => {
                let buf_pos: usize = writer.write_pos % 8;
                let word = writer.region.wide_base() + (writer.write_pos - buf_pos) as u128;
                buf_pos == 0 || word + 4 <= usize::MAX as u128
            },
        }
    }

    /// The address and the number of the bytes of one of the pages
    pub fn page(&self, page: Page) -> (bytes: (usize, usize))
        requires
            self.allows_page(page),
        ensures
            bytes.0 == self.region(page).base(),
            bytes.1 == self.region(page).length(),
    {
        self.select(page).page_slice()
    }

    /// Select one of the pages for writing and erase it
    pub fn erase_page(&mut self, page: Page, out: &mut Vec<FlashCommand>)
        requires
            old(self).allows_erase(page),
        ensures
            old(self).selects(page, *final(self)),
            final(out)@ == old(out)@ + old(self).erase_commands(page),
    {
        let region = self.select(page);
        let mut writer = WriteRegion::new(region);
        writer.erase(out);
        self.write_region = Some(writer);
        assert(out@ =~= old(out)@ + old(self).erase_commands(page));
    }

    /// Write data to the already erased page
    pub fn write(&mut self, data: &[u8], out: &mut Vec<FlashCommand>)
        requires
            old(self).allows_write(data@.len() as int),
        ensures
            old(self).takes(data@, *final(self)),
            final(out)@ == old(out)@ + old(self).write_commands(data@),
    {
        if let Some(region) = &mut self.write_region {
            region.write(data, out);
        }
    }

    /// Must be called after completing all writes
    pub fn flush(&mut self, out: &mut Vec<FlashCommand>)
        requires
            old(self).allows_flush(),
        ensures
            old(self).flushes(*final(self)),
            final(out)@ == old(out)@ + old(self).flush_commands(),
    {
        if let Some(region) = &mut self.write_region {
            region.flush(out);
        }
        assert(old(out)@ + Seq::<FlashCommand>::empty() =~= old(out)@);
    }
}

pub(crate) proof fn lemma_program_concat(x: Seq<DoubleWord>, y: Seq<DoubleWord>)
    ensures
        program_all_commands(x + y) == program_all_commands(x) + program_all_commands(y),
{
    let program = |word: DoubleWord| program_commands(word);
    vstd::seq_lib::lemma_flatten_concat(x.map_values(program), y.map_values(program));
    assert((x + y).map_values(program) =~= x.map_values(program) + y.map_values(program));
}

pub(crate) proof fn lemma_program_one_more(words: Seq<DoubleWord>, word: DoubleWord)
    ensures
        program_all_commands(words.push(word)) == program_all_commands(words) + program_commands(
            word,
        ),
{
    let commands = words.map_values(|word: DoubleWord| program_commands(word));
    commands.lemma_flatten_push(program_commands(word));
    assert(words.push(word).map_values(|word: DoubleWord| program_commands(word))
        =~= commands.push(program_commands(word)));
}

} // verus!
