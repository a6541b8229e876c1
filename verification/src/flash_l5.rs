//! Flash driver for the non-secure flash interface on STM32L5 devices.
//!
//! The STM32L552RC is 256 KiB and uses 128 2 KiB pages in its default dual-bank
//! configuration. Page numbers 0-63 select a page within a bank and NSBKER
//! selects the bank. Programming is performed one 64-bit double word at a time
//! through the non-secure FLASH registers.
//!
//! The driver decides what is to be done to the flash controller and hands it out as a list of
//! [`FlashCommand`]s, which are carried out in order.

use vstd::prelude::*;
use crate::double_word::{
    full_words, law_words_in_pieces, padded_word, partial_word, DoubleWord, WRITE_SIZE,
};
use crate::dual_page::Page;
use crate::flash_chip::{KEY_1, KEY_2};
use crate::l5_registers::ControlChange;
use crate::le_bytes::{le32_at, read_le32};

verus! {

pub const STM32L552_PAGE_SIZE: usize = 2048;

pub const FLASH_BASE: usize = 0x0800_0000;

pub const PAGES_PER_BANK: usize = 64;

pub const NUM_PAGES: usize = 128;

pub const FLASH_SIZE: usize = 0x4_0000;

#[derive(Clone, Copy, Debug, PartialEq, Eq, Structural)]
pub enum FlashError {
    OutOfRange,
}

/// Read access to the flash
pub struct Stm32l5Flash;

impl Stm32l5Flash {
    pub fn new() -> (flash: Self)
        ensures
            flash == Stm32l5Flash,
    {
        Self
    }

    pub fn in_range(offset: usize, size: usize) -> (found: bool)
        ensures
            found == (offset + size <= FLASH_SIZE),
    {
        match offset.checked_add(size) {
            Some(end) => end <= FLASH_SIZE,
            None => false,
        }
    }

    /// The address to copy `len` bytes from in order to read at `offset`
    pub fn read_source(&self, offset: u32, len: usize) -> (source: Result<usize, FlashError>)
        ensures
            match source {
                Ok(addr) => offset + len <= FLASH_SIZE && addr == FLASH_BASE + offset,
                Err(FlashError::OutOfRange) => offset + len > FLASH_SIZE,
            },
    {
        let offset = offset as usize;
        if !Self::in_range(offset, len) {
            return Err(FlashError::OutOfRange);
        }
        Ok(FLASH_BASE + offset)
    }

    pub fn capacity(&self) -> (n: usize)
        ensures
            n == FLASH_SIZE,
    {
        FLASH_SIZE
    }
}

impl Default for Stm32l5Flash {
    fn default() -> (flash: Self)
        ensures
            flash == Stm32l5Flash,
    {
        Self::new()
    }
}

/// One access to the flash controller or to the flash itself
#[derive(Clone, Copy, Debug, PartialEq, Eq, Structural)]
pub enum FlashCommand {
    /// Write the keys to the key register that [`unlock_keys`] calls for, given whether the control
    /// register is [locked](crate::l5_registers::is_locked)
    Unlock,
    /// Wait until the status register is no longer busy, as told by
    /// [`is_busy`](crate::l5_registers::is_busy)
    WaitBusy,
    /// Write [`error_flags`](crate::l5_registers::error_flags) to the status register
    ClearErrors,
    /// Write [`end_of_operation_flag`](crate::l5_registers::end_of_operation_flag) to the status
    /// register
    ClearEndOfOperation,
    /// Replace the control register by what [`ControlChange::apply`] makes of it
    Control(ControlChange),
    /// Keep interrupts away from here on
    EnterCritical,
    /// Let interrupts happen again
    LeaveCritical,
    /// Let all memory accesses so far take effect
    Fence,
    /// Write 32 bits to the flash
    WriteWord { address: usize, word: u32 },
}

/// The keys that have to be written to unlock the flash: none where it is not locked.
pub fn unlock_keys(locked: bool) -> (keys: Vec<u32>)
    ensures
        keys@ == if locked {
            seq![KEY_1, KEY_2]
        } else {
            seq![]
        },
{
    let mut keys: Vec<u32> = Vec::new();
    if locked {
        keys.push(KEY_1);
        keys.push(KEY_2);
    }
    assert(locked ==> keys@ =~= seq![KEY_1, KEY_2]);
    keys
}

pub open spec fn unlock_commands() -> Seq<FlashCommand> {
    seq![FlashCommand::Unlock, FlashCommand::WaitBusy, FlashCommand::ClearErrors]
}

pub open spec fn lock_commands() -> Seq<FlashCommand> {
    seq![FlashCommand::WaitBusy, FlashCommand::Control(ControlChange::Lock)]
}

/// Erasing one page of an unlocked flash.
pub open spec fn erase_unlocked_commands(page_num: int) -> Seq<FlashCommand> {
    seq![
        FlashCommand::Control(
            ControlChange::SelectPage {
                second_bank: page_num >= PAGES_PER_BANK,
                page: (page_num % PAGES_PER_BANK as int) as u8,
            },
        ),
        FlashCommand::Control(ControlChange::StartErase),
        FlashCommand::WaitBusy,
        FlashCommand::Control(ControlChange::EndErase),
    ]
}

/// Erasing one page.
pub open spec fn erase_page_commands(page_num: int) -> Seq<FlashCommand> {
    unlock_commands() + erase_unlocked_commands(page_num) + seq![FlashCommand::ClearEndOfOperation]
        + lock_commands()
}

/// Erasing `count` pages, from page `start` on.
pub open spec fn erase_pages_commands(start: int, count: nat) -> Seq<FlashCommand> {
    Seq::new(count, |i: int| erase_page_commands(start + i)).flatten()
}

/// Programming one double word of an unlocked flash.
pub open spec fn word_commands(word: DoubleWord) -> Seq<FlashCommand> {
    seq![
        FlashCommand::EnterCritical,
        FlashCommand::Control(ControlChange::StartProgram),
        FlashCommand::Fence,
        FlashCommand::WriteWord {
            address: word.address as usize,
            word: le32_at(word.bytes, 0) as u32,
        },
        FlashCommand::Fence,
        FlashCommand::WriteWord {
            address: (word.address + 4) as usize,
            word: le32_at(word.bytes, 4) as u32,
        },
        FlashCommand::Fence,
        FlashCommand::WaitBusy,
        FlashCommand::Control(ControlChange::EndProgram),
        FlashCommand::LeaveCritical,
    ]
}

/// Programming one double word.
pub open spec fn program_commands(word: DoubleWord) -> Seq<FlashCommand> {
    unlock_commands() + word_commands(word) + seq![FlashCommand::ClearEndOfOperation]
        + lock_commands()
}

/// Programming double words one after the other.
pub open spec fn program_all_commands(words: Seq<DoubleWord>) -> Seq<FlashCommand> {
    words.map_values(|word: DoubleWord| program_commands(word)).flatten()
}

fn unlock_flash(out: &mut Vec<FlashCommand>)
    ensures
        final(out)@ == old(out)@.push(FlashCommand::Unlock),
{
    out.push(FlashCommand::Unlock);
}

/// Protects the flash against changes, once it is no longer busy
pub fn lock_flash(out: &mut Vec<FlashCommand>)
    ensures
        final(out)@ == old(out)@ + lock_commands(),
{
    wait_busy(out);
    out.push(FlashCommand::Control(ControlChange::Lock));
    assert(out@ =~= old(out)@ + lock_commands());
}

fn wait_busy(out: &mut Vec<FlashCommand>)
    ensures
        final(out)@ == old(out)@.push(FlashCommand::WaitBusy),
{
    out.push(FlashCommand::WaitBusy);
}

fn clear_errors(out: &mut Vec<FlashCommand>)
    ensures
        final(out)@ == old(out)@.push(FlashCommand::ClearErrors),
{
    out.push(FlashCommand::ClearErrors);
}

fn erase_physical_page(page_num: usize, out: &mut Vec<FlashCommand>)
    requires
        page_num < NUM_PAGES,
    ensures
        final(out)@ == old(out)@ + erase_page_commands(page_num as int),
{
    unlock_flash(out);
    wait_busy(out);
    clear_errors(out);

    out.push(
        FlashCommand::Control(
            ControlChange::SelectPage {
                second_bank: page_num >= PAGES_PER_BANK,
                page: (page_num % PAGES_PER_BANK) as u8,
            },
        ),
    );
    out.push(FlashCommand::Control(ControlChange::StartErase));
    wait_busy(out);
    out.push(FlashCommand::Control(ControlChange::EndErase));
    out.push(FlashCommand::ClearEndOfOperation);
    lock_flash(out);
    assert(out@ =~= old(out)@ + erase_page_commands(page_num as int));
}

/// A run of flash pages
#[derive(Clone, Copy, Debug)]
pub struct Region {
    pub start_page: usize,
    pub size: usize,
}

impl Region {
    /// Whether the flash has all pages of the region.
    pub open spec fn is_valid(self) -> bool {
        self.start_page + self.size <= NUM_PAGES
    }

    /// The address of the first byte.
    pub open spec fn base(self) -> int {
        FLASH_BASE + self.start_page * STM32L552_PAGE_SIZE
    }

    /// The number of bytes.
    pub open spec fn length(self) -> int {
        STM32L552_PAGE_SIZE * self.size
    }

    /// The address and the number of the bytes of the region
    pub fn as_slice(&self) -> (bytes: (usize, usize))
        requires
            self.base() <= usize::MAX,
            self.length() <= usize::MAX,
        ensures
            bytes.0 == self.base(),
            bytes.1 == self.length(),
    {
        (FLASH_BASE + self.start_page * STM32L552_PAGE_SIZE, STM32L552_PAGE_SIZE * self.size)
    }

    /// The address of the byte at `offset`
    pub fn ptr(&self, offset: usize) -> (address: usize)
        requires
            self.base() + offset <= usize::MAX,
        ensures
            address == self.base() + offset,
    {
        FLASH_BASE + self.start_page * STM32L552_PAGE_SIZE + offset
    }
}

/// A region that is being written
pub struct WriteRegion {
    pub region: Region,
    pub write_pos: usize,
    pub cache: [u8; 8],
}

/// As many erased bytes as asked for.
pub open spec fn erased_bytes(count: nat) -> Seq<u8> {
    Seq::new(count, |i: int| 0xffu8)
}

impl WriteRegion {
    /// Whether the flash has the region, and what is written lies in it.
    pub open spec fn is_valid(&self) -> bool {
        self.region.is_valid() && self.write_pos <= self.region.length()
    }

    /// The bytes that have been written and wait for their double word to be complete.
    pub open spec fn pending(&self) -> Seq<u8> {
        self.cache@.take(self.write_pos as int % 8)
    }

    /// The address of the double word that is being filled.
    pub open spec fn word_address(&self) -> int {
        self.region.base() + self.write_pos - self.write_pos as int % 8
    }

    pub fn new(region: Region) -> (writer: Self)
        ensures
            writer.region == region,
            writer.write_pos == 0,
            writer.pending() == Seq::<u8>::empty(),
            writer.cache@ == erased_bytes(8),
    {
        let writer = Self { region, write_pos: 0, cache: [0xff; 8] };
        assert(writer.pending() =~= Seq::empty());
        assert(writer.cache@ =~= erased_bytes(8));
        writer
    }

    /// Erase all flash pages in the region
    pub fn erase(&mut self, out: &mut Vec<FlashCommand>)
        requires
            old(self).region.is_valid(),
        ensures
            *final(self) == *old(self),
            final(out)@ == old(out)@ + erase_pages_commands(
                old(self).region.start_page as int,
                old(self).region.size as nat,
            ),
    {
        let start = self.region.start_page;
        let end = start + self.region.size;
        let mut page: usize = start;
        assert(out@ + erase_pages_commands(start as int, 0) =~= out@);
        while page < end
            invariant
                start <= page <= end <= NUM_PAGES,
                out@ == old(out)@ + erase_pages_commands(start as int, (page - start) as nat),
            decreases end - page,
        {
            proof {
                let done = Seq::new((page - start) as nat, |k: int| erase_page_commands(start + k));
                done.lemma_flatten_push(erase_page_commands(page as int));
                assert(Seq::new((page + 1 - start) as nat, |k: int| erase_page_commands(start + k))
                    =~= done.push(erase_page_commands(page as int)));
            }
            erase_physical_page(page, out);
            page += 1;
        }
    }

    pub fn write(&mut self, data: &[u8], out: &mut Vec<FlashCommand>)
        requires
            old(self).region.is_valid(),
            old(self).write_pos + data@.len() <= old(self).region.length(),
        ensures
            final(self).region == old(self).region,
            final(self).write_pos == old(self).write_pos + data@.len(),
            final(self).pending() == partial_word(old(self).pending() + data@),
            final(out)@ == old(out)@ + program_all_commands(
                full_words(old(self).word_address(), old(self).pending() + data@),
            ),
    {
        let ghost (first, start) = (self.word_address(), self.pending());
        let mut input_pos: usize = 0;
        proof {
            assert(start + data@.take(0) =~= start);
            assert(partial_word(start) =~= start);
            assert(out@ + program_all_commands(seq![]) =~= out@);
            assert(full_words(first, start) =~= seq![]);
        }
        while input_pos < data.len()
            invariant
                input_pos <= data@.len(),
                first == old(self).word_address(),
                start == old(self).pending(),
                old(self).region.is_valid(),
                old(self).write_pos + data@.len() <= old(self).region.length(),
                self.region == old(self).region,
                self.write_pos == old(self).write_pos + input_pos,
                self.pending() == partial_word(start + data@.take(input_pos as int)),
                out@ == old(out)@ + program_all_commands(
                    full_words(first, start + data@.take(input_pos as int)),
                ),
            decreases data.len() - input_pos,
        {
            let ghost done = start + data@.take(input_pos as int);
            let ghost byte = seq![data@[input_pos as int]];
            proof {
                assert(start + data@.take(input_pos + 1) =~= done + byte);
                law_words_in_pieces(first, done, byte);
                lemma_program_concat(
                    full_words(first, done),
                    full_words(self.word_address(), self.pending() + byte),
                );
            }
            self.write_byte(data[input_pos], out);
            assert(out@ =~= old(out)@ + program_all_commands(full_words(first, done + byte)));
            input_pos += 1;
        }
        assert(data@.take(input_pos as int) =~= data@);
    }

    /// Puts one byte into the cache, and programs the double word that it completes
    fn write_byte(&mut self, byte: u8, out: &mut Vec<FlashCommand>)
        requires
            old(self).region.is_valid(),
            old(self).write_pos < old(self).region.length(),
        ensures
            final(self).region == old(self).region,
            final(self).write_pos == old(self).write_pos + 1,
            final(self).pending() == partial_word(old(self).pending() + seq![byte]),
            final(out)@ == old(out)@ + program_all_commands(
                full_words(old(self).word_address(), old(self).pending() + seq![byte]),
            ),
    {
        let cache_pos: usize = self.write_pos % WRITE_SIZE;
        let ghost stream = self.pending() + seq![byte];
        let ghost words = full_words(self.word_address(), stream);
        self.cache[cache_pos] = byte;
        self.write_pos += 1;
        assert(self.cache@.take(cache_pos + 1) =~= stream);
        if self.write_pos % WRITE_SIZE == 0 {
            proof {
                assert(stream.subrange(0, 8) =~= self.cache@);
                assert(words =~= Seq::<DoubleWord>::empty().push(words[0]));
                lemma_program_one_more(seq![], words[0]);
            }
            self.write_cache(self.write_pos - WRITE_SIZE, out);
            assert(self.pending() =~= partial_word(stream));
            assert(out@ =~= old(out)@ + program_all_commands(words));
        } else {
            assert(words =~= seq![]);
            assert(out@ =~= old(out)@ + program_all_commands(words));
            assert(self.pending() =~= partial_word(stream));
        }
    }

    /// Finish writing any cached write data
    ///
    /// The rest of the last double word stays erased.
    pub fn flush(&mut self, out: &mut Vec<FlashCommand>)
        requires
            old(self).is_valid(),
        ensures
            final(self).region == old(self).region,
            final(self).write_pos == old(self).write_pos,
            final(self).pending() == erased_bytes(old(self).pending().len()),
            final(out)@ == if old(self).pending().len() == 0 {
                old(out)@
            } else {
                old(out)@ + program_commands(
                    DoubleWord {
                        address: old(self).word_address(),
                        bytes: padded_word(old(self).pending(), 0xff),
                    },
                )
            },
    {
        let cache_pos: usize = self.write_pos % WRITE_SIZE;
        if cache_pos != 0 {
            let mut i: usize = cache_pos;
            while i < WRITE_SIZE
                invariant
                    cache_pos <= i <= 8,
                    cache_pos == old(self).write_pos % 8,
                    self.region == old(self).region,
                    self.write_pos == old(self).write_pos,
                    forall|j: int| 0 <= j < cache_pos ==> self.cache@[j] == old(self).cache@[j],
                    forall|j: int| cache_pos <= j < i ==> self.cache@[j] == 0xff,
                decreases 8 - i,
            {
                self.cache[i] = 0xff;
                i += 1;
            }
            assert(self.cache@ =~= padded_word(old(self).pending(), 0xff));
            self.write_cache(self.write_pos - cache_pos, out);
        }
        assert(self.pending() =~= erased_bytes(old(self).pending().len()));
    }

    fn write_cache(&mut self, offset: usize, out: &mut Vec<FlashCommand>)
        requires
            old(self).region.is_valid(),
            offset < old(self).region.length(),
        ensures
            final(self).region == old(self).region,
            final(self).write_pos == old(self).write_pos,
            final(self).cache@ == erased_bytes(8),
            final(out)@ == old(out)@ + program_commands(
                DoubleWord {
                    address: old(self).region.base() + offset,
                    bytes: old(self).cache@,
                },
            ),
    {
        let word1 = read_le32(self.cache.as_slice(), 0);
        let word2 = read_le32(self.cache.as_slice(), 4);
        let dst1 = self.region.ptr(offset);
        let dst2 = self.region.ptr(offset + 4);

        unlock_flash(out);
        wait_busy(out);
        clear_errors(out);

        out.push(FlashCommand::EnterCritical);
        out.push(FlashCommand::Control(ControlChange::StartProgram));
        out.push(FlashCommand::Fence);
        out.push(FlashCommand::WriteWord { address: dst1, word: word1 });
        out.push(FlashCommand::Fence);
        out.push(FlashCommand::WriteWord { address: dst2, word: word2 });
        out.push(FlashCommand::Fence);
        wait_busy(out);
        out.push(FlashCommand::Control(ControlChange::EndProgram));
        out.push(FlashCommand::LeaveCritical);

        out.push(FlashCommand::ClearEndOfOperation);
        lock_flash(out);
        assert(out@ =~= old(out)@ + program_commands(
            DoubleWord { address: self.region.base() + offset, bytes: self.cache@ },
        ));
        self.cache = [0xff; 8];
        assert(self.cache@ =~= erased_bytes(8));
    }
}

/// Two regions of the flash, one of which may be selected for writing
pub struct Stm32l5PagePair {
    page_a: Region,
    page_b: Region,
    write_region: Option<WriteRegion>,
}

/// Whether two regions have no page in common.
pub open spec fn are_disjoint(x: Region, y: Region) -> bool {
    x.start_page + x.size <= y.start_page || y.start_page + y.size <= x.start_page
}

impl Stm32l5PagePair {
    /// The flash has both regions, which are not empty, are equally large and have no page in
    /// common, and writing takes place in one of them.
    pub open spec fn is_valid(&self) -> bool {
        &&& self.region(Page::A).is_valid()
        &&& self.region(Page::B).is_valid()
        &&& self.region(Page::A).size == self.region(Page::B).size
        &&& self.region(Page::A).size > 0
        &&& are_disjoint(self.region(Page::A), self.region(Page::B))
        &&& self.writer() matches Some(writer) ==> {
            &&& writer.is_valid()
            &&& writer.region == self.region(Page::A) || writer.region == self.region(Page::B)
        }
    }

    /// The region of a page.
    pub closed spec fn region(&self, page: Page) -> Region {
        match page {
            Page::A => self.page_a,
            Page::B => self.page_b,
        }
    }

    /// The region that is selected for writing, and how far it is written.
    pub closed spec fn writer(&self) -> Option<WriteRegion> {
        self.write_region
    }

    /// Whether a page is selected for writing and has room for `len` more bytes.
    pub open spec fn allows_write(&self, len: int) -> bool {
        self.writer() matches Some(writer) && writer.write_pos + len <= writer.region.length()
    }

    /// The commands that erase a page.
    pub open spec fn erase_commands(&self, page: Page) -> Seq<FlashCommand> {
        erase_pages_commands(
            self.region(page).start_page as int,
            self.region(page).size as nat,
        )
    }

    /// The commands that write `data` to the selected page.
    pub open spec fn write_commands(&self, data: Seq<u8>) -> Seq<FlashCommand> {
        let writer = self.writer()->Some_0;
        program_all_commands(full_words(writer.word_address(), writer.pending() + data))
    }

    /// The commands that flush the selected page.
    pub open spec fn flush_commands(&self) -> Seq<FlashCommand> {
        let writer = self.writer()->Some_0;
        if writer.pending().len() == 0 {
            seq![]
        } else {
            program_commands(
                DoubleWord {
                    address: writer.word_address(),
                    bytes: padded_word(writer.pending(), 0xff),
                },
            )
        }
    }

    /// Whether `after` has the same pages.
    pub open spec fn has_regions_of(&self, after: Self) -> bool {
        &&& after.region(Page::A) == self.region(Page::A)
        &&& after.region(Page::B) == self.region(Page::B)
    }

    /// Whether `after` is this pair with `page` selected, and nothing written to it yet.
    pub open spec fn selects(&self, page: Page, after: Self) -> bool {
        &&& self.has_regions_of(after)
        &&& after.writer() matches Some(writer) && {
            &&& writer.region == self.region(page)
            &&& writer.write_pos == 0
            &&& writer.pending() == Seq::<u8>::empty()
        }
    }

    /// Whether `after` is this pair with `data` written to the selected page.
    pub open spec fn takes(&self, data: Seq<u8>, after: Self) -> bool {
        let before = self.writer()->Some_0;
        &&& self.has_regions_of(after)
        &&& after.writer() matches Some(writer) && {
            &&& writer.region == before.region
            &&& writer.write_pos == before.write_pos + data.len()
            &&& writer.pending() == partial_word(before.pending() + data)
        }
    }

    /// Whether `after` is this pair with the selected page flushed.
    pub open spec fn flushes(&self, after: Self) -> bool {
        let before = self.writer()->Some_0;
        &&& self.has_regions_of(after)
        &&& after.writer() matches Some(writer) && {
            &&& writer.region == before.region
            &&& writer.write_pos == before.write_pos
            &&& writer.pending() == erased_bytes(before.pending().len())
        }
    }

    /// create a new page pair
    ///
    /// # Arguments
    /// dual_bank: Whether the flash is in dual-bank mode, without which there is no page pair
    /// start_a: The starting page number for first flash section
    /// start_b: The starting page number for second flash section
    /// size: The number of pages in each section
    pub fn new(dual_bank: bool, start_a: usize, start_b: usize, size: usize) -> (pair: Self)
        requires
            dual_bank,
            size > 0,
            start_a + size <= NUM_PAGES,
            start_b + size <= NUM_PAGES,
            start_a + size <= start_b || start_b + size <= start_a,
        ensures
            pair.is_valid(),
            pair.region(Page::A) == (Region { start_page: start_a, size }),
            pair.region(Page::B) == (Region { start_page: start_b, size }),
            pair.writer() is None,
    {
        Self {
            page_a: Region { start_page: start_a, size },
            page_b: Region { start_page: start_b, size },
            write_region: None,
        }
    }

    /// The region of a page
    fn select(&self, page: Page) -> (region: Region)
        ensures
            region == self.region(page),
    {
        match page {
            Page::A => self.page_a,
            Page::B => self.page_b,
        }
    }

    /// Whether [`write`](Self::write) may be called with `len` bytes
    pub fn can_write(&self, len: usize) -> (ok: bool)
        requires
            self.is_valid(),
        ensures
            ok == self.allows_write(len as int),
    {
        match &self.write_region {
            None => false,
            Some(writer) => len <= STM32L552_PAGE_SIZE * writer.region.size - writer.write_pos,
        }
    }

    /// Whether [`flush`](Self::flush) may be called
    pub fn can_flush(&self) -> (ok: bool)
        ensures
            ok == (self.writer() is Some),
    {
        self.write_region.is_some()
    }

    /// The address and the number of the bytes of one of the pages
    pub fn page(&self, page: Page) -> (bytes: (usize, usize))
        requires
            self.is_valid(),
        ensures
            bytes.0 == self.region(page).base(),
            bytes.1 == self.region(page).length(),
    {
        self.select(page).as_slice()
    }

    /// Select one of the pages for writing and erase it
    pub fn erase_page(&mut self, page: Page, out: &mut Vec<FlashCommand>)
        requires
            old(self).is_valid(),
        ensures
            final(self).is_valid(),
            old(self).selects(page, *final(self)),
            final(out)@ == old(out)@ + old(self).erase_commands(page),
    {
        let region = self.select(page);
        let mut writer = WriteRegion::new(region);
        writer.erase(out);
        self.write_region = Some(writer);
    }

    /// Write data to the already erased page
    pub fn write(&mut self, data: &[u8], out: &mut Vec<FlashCommand>)
        requires
            old(self).is_valid(),
            old(self).allows_write(data@.len() as int),
        ensures
            final(self).is_valid(),
            old(self).takes(data@, *final(self)),
            final(out)@ == old(out)@ + old(self).write_commands(data@),
    {
        if let Some(region) = &mut self.write_region {
            region.write(data, out);
        }
    }

    /// Must be called after completing all writes
    pub fn flush(&mut self, out: &mut Vec<FlashCommand>)
        requires
            old(self).is_valid(),
            old(self).writer() is Some,
        ensures
            final(self).is_valid(),
            old(self).flushes(*final(self)),
            final(out)@ == old(out)@ + old(self).flush_commands(),
    {
        if let Some(region) = &mut self.write_region {
            region.flush(out);
        }
        assert(old(out)@ + Seq::<FlashCommand>::empty() =~= old(out)@);
    }
}

pub(crate) proof fn lemma_program_concat(x: Seq<DoubleWord>, y: Seq<DoubleWord>)
    ensures
        program_all_commands(x + y) == program_all_commands(x) + program_all_commands(y),
{
    let program = |word: DoubleWord| program_commands(word);
    vstd::seq_lib::lemma_flatten_concat(x.map_values(program), y.map_values(program));
    assert((x + y).map_values(program) =~= x.map_values(program) + y.map_values(program));
}

pub(crate) proof fn lemma_program_one_more(words: Seq<DoubleWord>, word: DoubleWord)
    ensures
        program_all_commands(words.push(word)) == program_all_commands(words) + program_commands(
            word,
        ),
{
    let commands = words.map_values(|word: DoubleWord| program_commands(word));
    commands.lemma_flatten_push(program_commands(word));
    assert(words.push(word).map_values(|word: DoubleWord| program_commands(word))
        =~= commands.push(program_commands(word)));
}

} // verus!
