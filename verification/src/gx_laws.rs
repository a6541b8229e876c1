//! What the commands of the STM32Gx driver make of the flash

use vstd::prelude::*;
use crate::double_word::{full_words, law_words_in_pieces, padded_word, partial_word, DoubleWord};
use crate::dual_page::{is_erased, Page};
use crate::flash_chip::{
    all_programmed, bytes_at, erased_at, is_being_written, lemma_completed,
    lemma_double_word_written, lemma_more_written, programmed, Chip, FLASH_START, KEY_1, KEY_2,
};
use crate::flash_gx::{
    erase_page_commands, erase_pages_commands, lemma_program_concat, lemma_program_one_more,
    lies_in_flash, lock_commands, program_all_commands, program_commands, unlock_commands,
    word_commands, FlashCommand, Part, Region, Stm32gxPagePair, WriteRegion, PAGE_SIZE,
};
use crate::gx_registers::ControlChange;
use crate::le_bytes::{le32_at, le32_bytes};
use crate::registers::{has_bit, with_bit, with_field};

verus! {

/// The page that a control register selects for erase.
pub open spec fn selected_page(control: u32) -> u32 {
    (control >> 3) & 0x7f
}

/// The chip after a command was carried out.
pub open spec fn carried_out(chip: Chip, command: FlashCommand) -> Chip {
    match command {
        FlashCommand::WriteKey(key) => chip.key_written(key),
        FlashCommand::Control(change) => {
            let value = change.control_after(chip.control);
            chip.control_written(value, selected_page(value) as int)
        },
        FlashCommand::WriteWord { address, word } => chip.word_written(address as int, word),
        FlashCommand::WaitBusy => chip,
        FlashCommand::ClearErrors => chip,
        FlashCommand::ClearEndOfOperation => chip,
        FlashCommand::Fence => chip,
    }
}

/// The chip after commands were carried out in order.
pub open spec fn all_carried_out(chip: Chip, commands: Seq<FlashCommand>) -> Chip
    decreases commands.len(),
{
    if commands.len() == 0 {
        chip
    } else {
        carried_out(all_carried_out(chip, commands.drop_last()), commands.last())
    }
}

broadcast proof fn lemma_one_more(chip: Chip, commands: Seq<FlashCommand>, command: FlashCommand)
    ensures
        #[trigger] all_carried_out(chip, commands.push(command)) == carried_out(
            all_carried_out(chip, commands),
            command,
        ),
{
    assert(commands.push(command).drop_last() =~= commands);
}

/// Carrying out commands can be interrupted anywhere.
pub proof fn law_commands_in_pieces(chip: Chip, x: Seq<FlashCommand>, y: Seq<FlashCommand>)
    ensures
        all_carried_out(chip, x + y) == all_carried_out(all_carried_out(chip, x), y),
    decreases y.len(),
{
    if y.len() == 0 {
        assert(x + y =~= x);
    } else {
        law_commands_in_pieces(chip, x, y.drop_last());
        assert((x + y).drop_last() =~= x + y.drop_last());
    }
}

/// Unlocking a locked flash unlocks it, and changes nothing else that can be seen.
pub proof fn law_unlock(chip: Chip)
    requires
        chip.is_at_rest(),
    ensures
        ({
            let after = all_carried_out(chip, unlock_commands());
            &&& !after.is_locked()
            &&& after.is_idle()
            &&& after.memory == chip.memory
        }),
{
    broadcast use lemma_one_more;

    let c = chip.control;
    assert(!has_bit(with_bit(c, 31, false), 31)) by (bit_vector);
    assert(has_bit(with_bit(c, 31, false), 0) == has_bit(c, 0)) by (bit_vector);
    assert(has_bit(with_bit(c, 31, false), 1) == has_bit(c, 1)) by (bit_vector);
    assert(has_bit(with_bit(c, 31, false), 16) == has_bit(c, 16)) by (bit_vector);
    assert(unlock_commands() =~= Seq::empty().push(FlashCommand::WriteKey(KEY_1)).push(
        FlashCommand::WriteKey(KEY_2),
    ));
}

/// Locking an unlocked flash locks it, and changes nothing else that can be seen.
pub proof fn law_lock(chip: Chip)
    requires
        !chip.is_locked(),
        chip.is_idle(),
    ensures
        ({
            let after = all_carried_out(chip, lock_commands());
            &&& after.is_at_rest()
            &&& after.memory == chip.memory
        }),
{
    broadcast use lemma_one_more;

    let c = chip.control;
    assert(has_bit(with_bit(c, 31, true), 31)) by (bit_vector);
    assert(has_bit(with_bit(c, 31, true), 0) == has_bit(c, 0)) by (bit_vector);
    assert(has_bit(with_bit(c, 31, true), 1) == has_bit(c, 1)) by (bit_vector);
    assert(has_bit(with_bit(c, 31, true), 16) == has_bit(c, 16)) by (bit_vector);
}

/// Erasing a page of an unlocked flash erases that page and changes nothing else.
pub proof fn law_erase_page(chip: Chip, page_num: int)
    requires
        !chip.is_locked(),
        chip.is_idle(),
        0 <= page_num < 128,
    ensures
        ({
            let after = all_carried_out(chip, erase_page_commands(page_num));
            &&& !after.is_locked()
            &&& after.is_idle()
            &&& after.memory == erased_at(
                chip.memory,
                FLASH_START + page_num * PAGE_SIZE,
                PAGE_SIZE as int,
            )
        }),
{
    law_erase_page_wraps_around(chip, page_num);
}

/// Page numbers wrap around at 128.
pub proof fn law_erase_page_wraps_around(chip: Chip, page_num: int)
    requires
        !chip.is_locked(),
        chip.is_idle(),
        0 <= page_num,
    ensures
        ({
            let after = all_carried_out(chip, erase_page_commands(page_num));
            &&& !after.is_locked()
            &&& after.is_idle()
            &&& after.memory == erased_at(
                chip.memory,
                FLASH_START + page_num % 128 * PAGE_SIZE,
                PAGE_SIZE as int,
            )
        }),
{
    broadcast use lemma_one_more;

    let c = chip.control;
    let page = (page_num % 0x100) as u8;
    assert(page as int % 128 == page_num % 128);
    let c1 = with_field(with_bit(c, 1, true), 3, 0x7f, page as u32);
    let c2 = with_bit(c1, 16, true);
    let c3 = with_bit(c2, 16, false);
    let c4 = with_bit(c3, 1, false);
    lemma_erase_bits(c, page as u32, c1, c2, c3, c4);
    assert(erase_page_commands(page_num) =~= Seq::empty().push(FlashCommand::WaitBusy).push(
        FlashCommand::ClearErrors,
    ).push(FlashCommand::Control(ControlChange::SelectPage(page))).push(
        FlashCommand::Control(ControlChange::StartErase),
    ).push(FlashCommand::WaitBusy).push(FlashCommand::Control(ControlChange::EndErase)));
}

proof fn lemma_erase_bits(c: u32, page: u32, c1: u32, c2: u32, c3: u32, c4: u32)
    by (bit_vector)
    requires
        !has_bit(c, 31),
        !has_bit(c, 0),
        !has_bit(c, 1),
        !has_bit(c, 16),
        c1 == with_field(with_bit(c, 1, true), 3, 0x7f, page),
        c2 == with_bit(c1, 16, true),
        c3 == with_bit(c2, 16, false),
        c4 == with_bit(c3, 1, false),
    ensures
        !has_bit(c1, 31),
        !has_bit(c1, 16),
        has_bit(c2, 16),
        has_bit(c2, 1),
        selected_page(c2) == page % 128,
        !has_bit(c3, 31),
        !has_bit(c4, 31),
        !has_bit(c4, 0),
        !has_bit(c4, 1),
        !has_bit(c4, 16),
{
}

/// Programming a double word programs it and changes nothing else.
pub proof fn law_program(chip: Chip, word: DoubleWord)
    requires
        chip.is_at_rest(),
        word.bytes.len() == 8,
        0 <= word.address,
        word.address + 4 <= usize::MAX,
        word.address % 8 == 0,
    ensures
        ({
            let after = all_carried_out(chip, program_commands(word));
            &&& after.is_at_rest()
            &&& after.memory == programmed(chip.memory, word)
        }),
{
    let unlocked = all_carried_out(chip, unlock_commands());
    law_unlock(chip);
    let body = word_commands(word);
    let done = all_carried_out(unlocked, body);
    lemma_word_commands(unlocked, word);
    law_commands_in_pieces(chip, unlock_commands(), body);
    law_commands_in_pieces(chip, unlock_commands() + body, lock_commands());
    law_lock(done);
}

proof fn lemma_word_commands(chip: Chip, word: DoubleWord)
    requires
        !chip.is_locked(),
        chip.is_idle(),
        word.bytes.len() == 8,
        0 <= word.address,
        word.address + 4 <= usize::MAX,
        word.address % 8 == 0,
    ensures
        ({
            let after = all_carried_out(chip, word_commands(word));
            &&& !after.is_locked()
            &&& after.is_idle()
            &&& after.memory == programmed(chip.memory, word)
        }),
{
    let c1 = with_bit(chip.control, 0, true);
    let c2 = with_bit(c1, 0, false);
    lemma_program_bits(chip.control, c1, c2);
    let half = FlashCommand::WriteWord {
        address: word.address as usize,
        word: le32_at(word.bytes, 0) as u32,
    };
    let other_half = FlashCommand::WriteWord {
        address: (word.address + 4) as usize,
        word: le32_at(word.bytes, 4) as u32,
    };
    let start = Seq::empty().push(FlashCommand::ClearErrors).push(FlashCommand::WaitBusy).push(
        FlashCommand::Control(ControlChange::StartProgram),
    );
    let middle = start.push(FlashCommand::Fence).push(half).push(FlashCommand::Fence).push(
        other_half,
    );
    let end = middle.push(FlashCommand::Fence).push(FlashCommand::WaitBusy).push(
        FlashCommand::ClearEndOfOperation,
    );
    let all = end.push(FlashCommand::Control(ControlChange::EndProgram));
    let started = Chip { control: c1, ..chip };
    let ended = Chip { memory: programmed(chip.memory, word), ..started };
    assert(all_carried_out(chip, start) == started) by {
        broadcast use lemma_one_more;

    }
    assert(all_carried_out(chip, middle) == carried_out(carried_out(started, half), other_half))
        by {
        broadcast use lemma_one_more;

    }
    lemma_double_word_written(started, word);
    assert(all_carried_out(chip, end) == ended) by {
        broadcast use lemma_one_more;

    }
    lemma_one_more(chip, end, FlashCommand::Control(ControlChange::EndProgram));
    assert(word_commands(word) =~= all);
}

proof fn lemma_program_bits(c: u32, c1: u32, c2: u32)
    by (bit_vector)
    requires
        !has_bit(c, 31),
        !has_bit(c, 0),
        !has_bit(c, 1),
        !has_bit(c, 16),
        c1 == with_bit(c, 0, true),
        c2 == with_bit(c1, 0, false),
    ensures
        !has_bit(c1, 31),
        !has_bit(c1, 16),
        has_bit(c1, 0),
        !has_bit(c2, 31),
        !has_bit(c2, 0),
        !has_bit(c2, 1),
        !has_bit(c2, 16),
{
}

/// Erasing the pages of an unlocked flash one after the other.
proof fn lemma_erase_pages(chip: Chip, start: int, count: nat)
    requires
        !chip.is_locked(),
        chip.is_idle(),
        0 <= start,
        start + count <= 128,
    ensures
        ({
            let after = all_carried_out(chip, erase_pages_commands(start, count));
            &&& !after.is_locked()
            &&& after.is_idle()
            &&& after.memory == erased_at(
                chip.memory,
                FLASH_START + start * PAGE_SIZE,
                PAGE_SIZE * count,
            )
        }),
    decreases count,
{
    let pages = Seq::new(count, |i: int| erase_page_commands(start + i));
    if count == 0 {
        assert(erased_at(chip.memory, FLASH_START + start * PAGE_SIZE, 0) =~= chip.memory);
    } else {
        let fewer = (count - 1) as nat;
        let last = start + fewer;
        lemma_erase_pages(chip, start, fewer);
        let before = all_carried_out(chip, erase_pages_commands(start, fewer));
        law_erase_page(before, last);
        let done = Seq::new(fewer, |i: int| erase_page_commands(start + i));
        assert(pages =~= done.push(erase_page_commands(last)));
        done.lemma_flatten_push(erase_page_commands(last));
        law_commands_in_pieces(chip, done.flatten(), erase_page_commands(last));
        assert(erased_at(
            before.memory,
            FLASH_START + last * PAGE_SIZE,
            PAGE_SIZE as int,
        ) =~= erased_at(chip.memory, FLASH_START + start * PAGE_SIZE, PAGE_SIZE * count));
    }
}

/// Erasing a region erases all of it, changes nothing else, and begins the writing of it.
pub proof fn law_erase_region(chip: Chip, region: Region)
    requires
        chip.is_at_rest(),
        region.start_page + region.size <= 128,
    ensures
        ({
            let after = all_carried_out(
                chip,
                unlock_commands() + erase_pages_commands(
                    region.start_page as int,
                    region.size as nat,
                ) + lock_commands(),
            );
            &&& after.memory == erased_at(chip.memory, region.base(), region.length())
            &&& is_being_written(after, region.base(), region.length(), seq![], seq![])
        }),
{
    let erase = erase_pages_commands(region.start_page as int, region.size as nat);
    let unlocked = all_carried_out(chip, unlock_commands());
    law_unlock(chip);
    lemma_erase_pages(unlocked, region.start_page as int, region.size as nat);
    law_lock(all_carried_out(unlocked, erase));
    law_commands_in_pieces(chip, unlock_commands(), erase);
    law_commands_in_pieces(chip, unlock_commands() + erase, lock_commands());
    assert(partial_word(seq![]) =~= seq![]);
}

/// Programming double words one after the other.
proof fn lemma_program_all(chip: Chip, words: Seq<DoubleWord>)
    requires
        chip.is_at_rest(),
        forall|i: int|
            0 <= i < words.len() ==> {
                &&& (#[trigger] words[i]).bytes.len() == 8
                &&& 0 <= words[i].address
                &&& words[i].address + 4 <= usize::MAX
                &&& words[i].address % 8 == 0
            },
    ensures
        ({
            let after = all_carried_out(chip, program_all_commands(words));
            &&& after.is_at_rest()
            &&& after.memory == all_programmed(chip.memory, words)
        }),
    decreases words.len(),
{
    if words.len() > 0 {
        let rest = words.drop_last();
        assert forall|i: int| 0 <= i < rest.len() implies {
            &&& (#[trigger] rest[i]).bytes.len() == 8
            &&& 0 <= rest[i].address
            &&& rest[i].address + 4 <= usize::MAX
            &&& rest[i].address % 8 == 0
        } by {
            assert(rest[i] == words[i]);
        }
        lemma_program_all(chip, rest);
        assert(words.last() == words[words.len() - 1]);
        law_program(all_carried_out(chip, program_all_commands(rest)), words.last());
        assert(words =~= rest.push(words.last()));
        lemma_program_one_more(rest, words.last());
        law_commands_in_pieces(
            chip,
            program_all_commands(rest),
            program_commands(words.last()),
        );
    }
}

/// Writing to a region that is being written adds the data behind what was written before, and
/// changes nothing outside of the region.
pub proof fn law_write_adds_data(
    chip: Chip,
    writer: WriteRegion,
    written: Seq<u8>,
    data: Seq<u8>,
)
    requires
        is_being_written(
            chip,
            writer.region.base(),
            writer.region.length(),
            writer.pending(),
            written,
        ),
        writer.write_pos == written.len(),
        written.len() + data.len() <= writer.region.length(),
        writer.region.base() + writer.region.length() <= usize::MAX,
    ensures
        ({
            let stream = writer.pending() + data;
            let after = all_carried_out(
                chip,
                program_all_commands(full_words(writer.word_address(), stream)),
            );
            let (base, length) = (writer.region.base(), writer.region.length());
            &&& is_being_written(after, base, length, partial_word(stream), written + data)
            &&& forall|x: int|
                !(base <= x < base + length) ==> #[trigger] (after.memory)(x) == (chip.memory)(x)
        }),
{
    let stream = writer.pending() + data;
    let words = full_words(writer.word_address(), stream);
    lemma_program_all(chip, words);
    lemma_more_written(
        chip,
        all_carried_out(chip, program_all_commands(words)),
        writer.region.base(),
        writer.region.length(),
        writer.pending(),
        written,
        data,
    );
}

/// The chip after a region was flushed.
pub open spec fn flushed(chip: Chip, writer: WriteRegion) -> Chip {
    if writer.pending().len() == 0 {
        chip
    } else {
        all_carried_out(
            chip,
            program_commands(
                DoubleWord {
                    address: writer.word_address(),
                    bytes: padded_word(writer.pending(), 0),
                },
            ),
        )
    }
}

/// Once it is flushed, a region begins with everything that was written to it. The last double word
/// is filled up with zeros, the rest of the region stays erased, and nothing outside of it changes.
pub proof fn law_flush_completes_data(chip: Chip, writer: WriteRegion, written: Seq<u8>)
    requires
        is_being_written(
            chip,
            writer.region.base(),
            writer.region.length(),
            writer.pending(),
            written,
        ),
        writer.write_pos == written.len(),
        writer.region.base() + writer.region.length() <= usize::MAX,
    ensures
        ({
            let after = flushed(chip, writer);
            let (base, length) = (writer.region.base(), writer.region.length());
            let end = base + (written.len() + 7) / 8 * 8;
            &&& after.is_at_rest()
            &&& forall|x: int|
                #![trigger (after.memory)(x)]
                (after.memory)(x) == if base <= x < base + written.len() {
                    written[x - base]
                } else if base + written.len() <= x < end {
                    0
                } else if end <= x < base + length {
                    0xff
                } else {
                    (chip.memory)(x)
                }
        }),
{
    let pending = writer.pending();
    if pending.len() > 0 {
        let word = DoubleWord { address: writer.word_address(), bytes: padded_word(pending, 0) };
        law_program(chip, word);
        assert(word.bytes.take(pending.len() as int) =~= pending);
        lemma_completed(
            chip,
            all_carried_out(chip, program_commands(word)),
            writer.region.base(),
            writer.region.length(),
            pending,
            written,
            word.bytes,
        );
    }
}

/// Data can be written in any sizes: writing `x` and then `y` gives the same commands as writing
/// them at once, and leaves the same bytes pending.
pub proof fn law_write_in_any_sizes(address: int, pending: Seq<u8>, x: Seq<u8>, y: Seq<u8>)
    ensures
        program_all_commands(full_words(address, pending + (x + y))) == program_all_commands(
            full_words(address, pending + x),
        ) + program_all_commands(
            full_words(
                address + 8 * ((pending + x).len() as int / 8),
                partial_word(pending + x) + y,
            ),
        ),
        partial_word(pending + (x + y)) == partial_word(partial_word(pending + x) + y),
{
    assert(pending + (x + y) =~= pending + x + y);
    law_words_in_pieces(address, pending + x, y);
    lemma_program_concat(
        full_words(address, pending + x),
        full_words(
            address + 8 * ((pending + x).len() as int / 8),
            partial_word(pending + x) + y,
        ),
    );
}

/// Whether the flash has both pages of the pair, and they have no byte in common.
pub open spec fn is_on_chip(pair: Stm32gxPagePair) -> bool {
    let (a, b) = (pair.region(Page::A), pair.region(Page::B));
    &&& a.start_page + a.size <= 128
    &&& b.start_page + b.size <= 128
    &&& a.start_page + a.size <= b.start_page || b.start_page + b.size <= a.start_page
}

/// What a page of the pair holds.
pub open spec fn page_contents(chip: Chip, pair: Stm32gxPagePair, page: Page) -> Seq<u8> {
    bytes_at(chip.memory, pair.region(page).base(), pair.region(page).length())
}

/// Whether the chip and the pair are in this session: a page is selected for writing, with all
/// bytes written to it since it was erased, or none is or its writes are completed.
pub open spec fn is_in_session(
    chip: Chip,
    pair: Stm32gxPagePair,
    session: Option<(Page, Seq<u8>)>,
) -> bool {
    match session {
        None => chip.is_at_rest(),
        Some((page, written)) => pair.writer() matches Some(writer) && {
            &&& writer.region == pair.region(page)
            &&& writer.write_pos == written.len()
            &&& is_being_written(
                chip,
                writer.region.base(),
                writer.region.length(),
                writer.pending(),
                written,
            )
        },
    }
}

/// Erasing a page of the pair does what a [`DualPageFlash`](crate::dual_page::DualPageFlash) has to
/// do: the page is selected and erased, and the other one is left alone.
pub proof fn law_pair_erases_page(
    chip: Chip,
    before: Stm32gxPagePair,
    after: Stm32gxPagePair,
    session: Option<(Page, Seq<u8>)>,
    page: Page,
)
    requires
        is_on_chip(before),
        is_in_session(chip, before, session),
        before.selects(page, after),
    ensures
        ({
            let chip2 = all_carried_out(chip, before.erase_commands(page));
            &&& before.allows_erase(page)
            &&& page_contents(chip2, after, page).len() == page_contents(chip, before, page).len()
            &&& is_erased(page_contents(chip2, after, page))
            &&& page_contents(chip2, after, page.opposite()) == page_contents(
                chip,
                before,
                page.opposite(),
            )
            &&& is_in_session(chip2, after, Some((page, Seq::<u8>::empty())))
        }),
{
    law_erase_region(chip, before.region(page));
    let chip2 = all_carried_out(chip, before.erase_commands(page));
    assert(page_contents(chip2, after, page.opposite()) =~= page_contents(
        chip,
        before,
        page.opposite(),
    ));
}

/// Writing to the selected page of the pair does what a
/// [`DualPageFlash`](crate::dual_page::DualPageFlash) has to do: wherever the page has room, the
/// driver accepts the data and adds it to what was written, and the other page is left alone.
pub proof fn law_pair_writes_data(
    chip: Chip,
    before: Stm32gxPagePair,
    after: Stm32gxPagePair,
    page: Page,
    written: Seq<u8>,
    data: Seq<u8>,
)
    requires
        is_on_chip(before),
        is_in_session(chip, before, Some((page, written))),
        written.len() + data.len() <= page_contents(chip, before, page).len(),
        before.takes(data, after),
    ensures
        ({
            let chip2 = all_carried_out(chip, before.write_commands(data));
            &&& before.allows_write(data.len() as int)
            &&& is_in_session(chip2, after, Some((page, written + data)))
            &&& page_contents(chip2, after, page).len() == page_contents(chip, before, page).len()
            &&& page_contents(chip2, after, page.opposite()) == page_contents(
                chip,
                before,
                page.opposite(),
            )
        }),
{
    law_write_adds_data(chip, before.writer()->Some_0, written, data);
    let chip2 = all_carried_out(chip, before.write_commands(data));
    assert(page_contents(chip2, after, page.opposite()) =~= page_contents(
        chip,
        before,
        page.opposite(),
    ));
}

/// Flushing the selected page of the pair does what a
/// [`DualPageFlash`](crate::dual_page::DualPageFlash) has to do: the page begins with everything
/// that was written to it, and the other page is left alone.
#[verifier::rlimit(40)]
pub proof fn law_pair_flushes_page(
    chip: Chip,
    before: Stm32gxPagePair,
    after: Stm32gxPagePair,
    page: Page,
    written: Seq<u8>,
)
    requires
        is_on_chip(before),
        is_in_session(chip, before, Some((page, written))),
        before.flushes(after),
    ensures
        ({
            let chip2 = all_carried_out(chip, before.flush_commands());
            &&& before.allows_flush()
            &&& page_contents(chip2, after, page).len() == page_contents(chip, before, page).len()
            &&& page_contents(chip2, after, page).take(written.len() as int) == written
            &&& page_contents(chip2, after, page.opposite()) == page_contents(
                chip,
                before,
                page.opposite(),
            )
            &&& is_in_session(chip2, after, None)
        }),
{
    let chip2 = all_carried_out(chip, before.flush_commands());
    let writer = before.writer()->Some_0;
    law_flush_completes_data(chip, writer, written);
    assert(chip2 == flushed(chip, writer));
    assert(page_contents(chip2, after, page).take(written.len() as int) =~= written);
    assert(page_contents(chip2, after, page.opposite()) =~= page_contents(
        chip,
        before,
        page.opposite(),
    ));
}

/// Whether a command can only change what lies in `length` bytes from `base` on: it selects no page
/// and addresses no double word outside.
pub open spec fn is_within(command: FlashCommand, base: int, length: int) -> bool {
    match command {
        FlashCommand::Control(ControlChange::SelectPage(page)) => {
            let page_num = page as int % 128;
            let start = FLASH_START + page_num * PAGE_SIZE;
            base <= start && start + PAGE_SIZE <= base + length
        },
        FlashCommand::WriteWord { address, .. } => address % 8 == 0 ==> base <= address
            && address + 8 <= base + length,
        _ => true,
    }
}

/// Whether all commands can only change what lies in `length` bytes from `base` on.
pub open spec fn are_within(commands: Seq<FlashCommand>, base: int, length: int) -> bool {
    forall|i: int| 0 <= i < commands.len() ==> is_within(#[trigger] commands[i], base, length)
}

/// Whether what the controller has been told to do concerns `length` bytes from `base` on.
spec fn is_set_within(chip: Chip, base: int, length: int) -> bool {
    let start = FLASH_START + selected_page(chip.control) * PAGE_SIZE;
    &&& has_bit(chip.control, 1) ==> base <= start && start + PAGE_SIZE <= base + length
    &&& chip.half matches Some((address, _)) ==> base <= address && address + 8 <= base + length
}

/// Commands change nothing outside of what they are for, wherever they are interrupted.
pub proof fn law_commands_stay_within(
    chip: Chip,
    commands: Seq<FlashCommand>,
    base: int,
    length: int,
    done: int,
    x: int,
)
    requires
        chip.is_at_rest(),
        are_within(commands, base, length),
        0 <= done <= commands.len(),
        !(base <= x < base + length),
    ensures
        (all_carried_out(chip, commands.take(done)).memory)(x) == (chip.memory)(x),
{
    lemma_stays_within(chip, commands.take(done), base, length, x);
}

proof fn lemma_stays_within(
    chip: Chip,
    commands: Seq<FlashCommand>,
    base: int,
    length: int,
    x: int,
)
    requires
        chip.is_at_rest(),
        are_within(commands, base, length),
        !(base <= x < base + length),
    ensures
        (all_carried_out(chip, commands).memory)(x) == (chip.memory)(x),
        is_set_within(all_carried_out(chip, commands), base, length),
    decreases commands.len(),
{
    if commands.len() > 0 {
        let rest = commands.drop_last();
        assert forall|i: int| 0 <= i < rest.len() implies is_within(
            #[trigger] rest[i],
            base,
            length,
        ) by {
            assert(rest[i] == commands[i]);
        }
        lemma_stays_within(chip, rest, base, length, x);
        assert(commands.last() == commands[commands.len() - 1]);
        lemma_command_within(all_carried_out(chip, rest), commands.last(), base, length, x);
    }
}

proof fn lemma_command_within(chip: Chip, command: FlashCommand, base: int, length: int, x: int)
    requires
        is_set_within(chip, base, length),
        is_within(command, base, length),
        !(base <= x < base + length),
    ensures
        (carried_out(chip, command).memory)(x) == (chip.memory)(x),
        is_set_within(carried_out(chip, command), base, length),
{
    match command {
        FlashCommand::WriteKey(_) => {
            lemma_selection_kept(chip.control);
        },
        FlashCommand::Control(change) => {
            let value = change.control_after(chip.control);
            lemma_selection_kept(chip.control);
            lemma_selection_kept(value);
            match change {
                ControlChange::SelectPage(page) => {
                    lemma_selection_made(chip.control, page);
                },
                _ => {},
            }
        },
        FlashCommand::WriteWord { address, word } => {
            if let Some((start, first)) = chip.half {
                let bytes = le32_bytes(first as int) + le32_bytes(word as int);
                assert(bytes.len() == 8);
            }
        },
        _ => {},
    }
}

/// The page selected for erase stays selected when other bits change, until erase is left.
proof fn lemma_selection_kept(c: u32)
    ensures
        forall|on: bool|
            #![trigger with_bit(c, 0, on)]
            selected_page(with_bit(c, 0, on)) == selected_page(c) && has_bit(
                with_bit(c, 0, on),
                1,
            ) == has_bit(c, 1),
        forall|on: bool|
            #![trigger with_bit(c, 16, on)]
            selected_page(with_bit(c, 16, on)) == selected_page(c) && has_bit(
                with_bit(c, 16, on),
                1,
            ) == has_bit(c, 1),
        forall|on: bool|
            #![trigger with_bit(c, 31, on)]
            selected_page(with_bit(c, 31, on)) == selected_page(c) && has_bit(
                with_bit(c, 31, on),
                1,
            ) == has_bit(c, 1),
        !has_bit(with_bit(c, 1, false), 1),
{
    assert forall|on: bool|
        #![trigger with_bit(c, 0, on)]
        selected_page(with_bit(c, 0, on)) == selected_page(c) && has_bit(with_bit(c, 0, on), 1)
            == has_bit(c, 1) by {
        lemma_selection_beside(c, 0, on, with_bit(c, 0, on));
    }
    assert forall|on: bool|
        #![trigger with_bit(c, 16, on)]
        selected_page(with_bit(c, 16, on)) == selected_page(c) && has_bit(with_bit(c, 16, on), 1)
            == has_bit(c, 1) by {
        lemma_selection_beside(c, 16, on, with_bit(c, 16, on));
    }
    assert forall|on: bool|
        #![trigger with_bit(c, 31, on)]
        selected_page(with_bit(c, 31, on)) == selected_page(c) && has_bit(with_bit(c, 31, on), 1)
            == has_bit(c, 1) by {
        lemma_selection_beside(c, 31, on, with_bit(c, 31, on));
    }
    assert(!has_bit(with_bit(c, 1, false), 1)) by (bit_vector);
}

proof fn lemma_selection_beside(c: u32, bit: u32, on: bool, after: u32)
    by (bit_vector)
    requires
        bit == 0 || bit == 16 || bit == 31,
        after == with_bit(c, bit, on),
    ensures
        (after >> 3) & 0x7f == (c >> 3) & 0x7f,
        has_bit(after, 1) == has_bit(c, 1),
{
}

proof fn lemma_selection_made(c: u32, page: u8)
    ensures
        selected_page(with_field(with_bit(c, 1, true), 3, 0x7f, page as u32)) == page as int % 128,
{
    let after = with_field(with_bit(c, 1, true), 3, 0x7f, page as u32);
    let wide = page as u32;
    assert((after >> 3) & 0x7f == wide % 128) by (bit_vector)
        requires
            after == with_field(with_bit(c, 1, true), 3, 0x7f, wide),
    ;
}

/// The commands for a double word are for that double word.
proof fn lemma_program_within(word: DoubleWord, base: int, length: int)
    requires
        0 <= word.address,
        word.address + 4 <= usize::MAX,
        word.address % 8 == 0,
        base <= word.address,
        word.address + 8 <= base + length,
    ensures
        are_within(program_commands(word), base, length),
{
}

proof fn lemma_program_all_within(words: Seq<DoubleWord>, base: int, length: int)
    requires
        forall|i: int|
            0 <= i < words.len() ==> {
                &&& 0 <= (#[trigger] words[i]).address
                &&& words[i].address + 4 <= usize::MAX
                &&& words[i].address % 8 == 0
                &&& base <= words[i].address
                &&& words[i].address + 8 <= base + length
            },
    ensures
        are_within(program_all_commands(words), base, length),
    decreases words.len(),
{
    if words.len() > 0 {
        let rest = words.drop_last();
        assert forall|i: int| 0 <= i < rest.len() implies {
            &&& 0 <= (#[trigger] rest[i]).address
            &&& rest[i].address + 4 <= usize::MAX
            &&& rest[i].address % 8 == 0
            &&& base <= rest[i].address
            &&& rest[i].address + 8 <= base + length
        } by {
            assert(rest[i] == words[i]);
        }
        lemma_program_all_within(rest, base, length);
        assert(words.last() == words[words.len() - 1]);
        lemma_program_within(words.last(), base, length);
        assert(words =~= rest.push(words.last()));
        lemma_program_one_more(rest, words.last());
    }
}

/// The commands that erase pages are for those pages.
proof fn lemma_erase_within(start: int, count: nat, base: int, length: int)
    requires
        0 <= start,
        start + count <= 128,
        base <= FLASH_START + start * PAGE_SIZE,
        FLASH_START + (start + count) * PAGE_SIZE <= base + length,
    ensures
        are_within(erase_pages_commands(start, count), base, length),
    decreases count,
{
    let pages = Seq::new(count, |i: int| erase_page_commands(start + i));
    if count > 0 {
        let fewer = (count - 1) as nat;
        lemma_erase_within(start, fewer, base, length);
        let done = Seq::new(fewer, |i: int| erase_page_commands(start + i));
        let last = erase_page_commands(start + fewer);
        assert(are_within(last, base, length));
        assert(pages =~= done.push(last));
        done.lemma_flatten_push(last);
    }
}

/// What commands that are for one page of the pair leave of the other page, wherever they are
/// interrupted.
proof fn lemma_other_page_left_alone(
    chip: Chip,
    pair: Stm32gxPagePair,
    page: Page,
    commands: Seq<FlashCommand>,
    done: int,
)
    requires
        is_on_chip(pair),
        chip.is_at_rest(),
        are_within(commands, pair.region(page).base(), pair.region(page).length()),
        0 <= done <= commands.len(),
    ensures
        page_contents(all_carried_out(chip, commands.take(done)), pair, page.opposite())
            == page_contents(chip, pair, page.opposite()),
{
    let after = all_carried_out(chip, commands.take(done));
    let (region, other) = (pair.region(page), pair.region(page.opposite()));
    assert forall|x: int| other.base() <= x < other.base() + other.length() implies #[trigger] (
    after.memory)(x) == (chip.memory)(x) by {
        law_commands_stay_within(chip, commands, region.base(), region.length(), done, x);
    }
    assert(page_contents(after, pair, page.opposite()) =~= page_contents(
        chip,
        pair,
        page.opposite(),
    ));
}

/// Erasing a page of the pair may be interrupted at any point: the other page is left alone.
pub proof fn law_interrupted_erase_leaves_other_page(
    chip: Chip,
    pair: Stm32gxPagePair,
    session: Option<(Page, Seq<u8>)>,
    page: Page,
    done: int,
)
    requires
        is_on_chip(pair),
        is_in_session(chip, pair, session),
        0 <= done <= pair.erase_commands(page).len(),
    ensures
        page_contents(
            all_carried_out(chip, pair.erase_commands(page).take(done)),
            pair,
            page.opposite(),
        ) == page_contents(chip, pair, page.opposite()),
{
    let region = pair.region(page);
    lemma_erase_within(
        region.start_page as int,
        region.size as nat,
        region.base(),
        region.length(),
    );
    lemma_other_page_left_alone(chip, pair, page, pair.erase_commands(page), done);
}

/// Writing to the selected page of the pair may be interrupted at any point: the other page is left
/// alone.
pub proof fn law_interrupted_write_leaves_other_page(
    chip: Chip,
    pair: Stm32gxPagePair,
    page: Page,
    written: Seq<u8>,
    data: Seq<u8>,
    done: int,
)
    requires
        is_on_chip(pair),
        is_in_session(chip, pair, Some((page, written))),
        written.len() + data.len() <= page_contents(chip, pair, page).len(),
        0 <= done <= pair.write_commands(data).len(),
    ensures
        page_contents(
            all_carried_out(chip, pair.write_commands(data).take(done)),
            pair,
            page.opposite(),
        ) == page_contents(chip, pair, page.opposite()),
{
    let writer = pair.writer()->Some_0;
    let words = full_words(writer.word_address(), writer.pending() + data);
    lemma_program_all_within(words, writer.region.base(), writer.region.length());
    lemma_other_page_left_alone(chip, pair, page, pair.write_commands(data), done);
}

/// Flushing the selected page of the pair may be interrupted at any point: the other page is left
/// alone.
pub proof fn law_interrupted_flush_leaves_other_page(
    chip: Chip,
    pair: Stm32gxPagePair,
    page: Page,
    written: Seq<u8>,
    done: int,
)
    requires
        is_on_chip(pair),
        is_in_session(chip, pair, Some((page, written))),
        0 <= done <= pair.flush_commands().len(),
    ensures
        page_contents(
            all_carried_out(chip, pair.flush_commands().take(done)),
            pair,
            page.opposite(),
        ) == page_contents(chip, pair, page.opposite()),
{
    let writer = pair.writer()->Some_0;
    if writer.pending().len() > 0 {
        let word = DoubleWord {
            address: writer.word_address(),
            bytes: padded_word(writer.pending(), 0),
        };
        lemma_program_within(word, writer.region.base(), writer.region.length());
    }
    lemma_other_page_left_alone(chip, pair, page, pair.flush_commands(), done);
}

/// The bytes of both pages have addresses and can be counted.
pub proof fn law_pair_has_both_pages(pair: Stm32gxPagePair, page: Page)
    requires
        is_on_chip(pair),
    ensures
        pair.allows_page(page),
        pair.allows_erase(page),
        pair.region(page).base() == 0x0800_0000 + 2048 * pair.region(page).start_page,
        pair.region(page).length() == 2048 * pair.region(page).size,
{
}

/// A range lies in the flash exactly if it begins there and, counted from the first byte of the
/// flash, ends before the last one does.
pub proof fn law_range_in_flash(part: Part, addr: int, size: int)
    requires
        0 <= size,
    ensures
        lies_in_flash(part, addr, size) <==> 0x0800_0000 <= addr && lies_in_flash(
            part,
            0x0800_0000,
            addr - 0x0800_0000 + size,
        ),
        lies_in_flash(part, 0x0800_0000, size) <==> size < 2048 * part.pages(),
{
}

/// Where a region lies.
pub proof fn law_region_addresses(region: Region)
    ensures
        region.base() == 0x0800_0000 + 2048 * region.start_page,
        region.length() == 2048 * region.size,
{
}

/// Pages are erased one after the other, and double words are programmed one after the other.
pub proof fn law_one_after_the_other(
    start: int,
    count: nat,
    words: Seq<DoubleWord>,
    word: DoubleWord,
)
    ensures
        erase_pages_commands(start, 0) == Seq::<FlashCommand>::empty(),
        erase_pages_commands(start, count + 1) == erase_pages_commands(start, count)
            + erase_page_commands(start + count),
        program_all_commands(seq![]) == Seq::<FlashCommand>::empty(),
        program_all_commands(words.push(word)) == program_all_commands(words) + program_commands(
            word,
        ),
{
    let pages = Seq::new(count, |i: int| erase_page_commands(start + i));
    pages.lemma_flatten_push(erase_page_commands(start + count));
    assert(Seq::new(count + 1, |i: int| erase_page_commands(start + i)) =~= pages.push(
        erase_page_commands(start + count),
    ));
    lemma_program_one_more(words, word);
}

/// The bytes that are pending are those behind the last complete double word.
pub proof fn law_pending_bytes(writer: WriteRegion)
    ensures
        writer.pending().len() == writer.write_pos % 8,
        forall|i: int|
            0 <= i < writer.write_pos % 8 ==> #[trigger] writer.pending()[i] == writer.cache@[i],
        writer.word_address() == 0x0800_0000 + 2048 * writer.region.start_page + writer.write_pos
            / 8 * 8,
{
}

/// The commands of a page pair: all flash pages of the region are erased, all double words that the
/// data completes are programmed, and a flush programs what is left.
pub proof fn law_commands_of_pair(pair: Stm32gxPagePair, page: Page, data: Seq<u8>)
    ensures
        pair.erase_commands(page) == unlock_commands() + erase_pages_commands(
            pair.region(page).start_page as int,
            pair.region(page).size as nat,
        ) + lock_commands(),
        pair.writer() matches Some(writer) ==> {
            &&& pair.write_commands(data) == program_all_commands(
                full_words(writer.word_address(), writer.pending() + data),
            )
            &&& writer.pending().len() == 0 ==> pair.flush_commands() == Seq::<
                FlashCommand,
            >::empty()
            &&& writer.pending().len() > 0 ==> pair.flush_commands() == program_commands(
                DoubleWord {
                    address: writer.word_address(),
                    bytes: padded_word(writer.pending(), 0),
                },
            )
        },
{
}

/// What an erase, a write and a flush make of a page pair: its regions stay, and it counts the
/// bytes that were written since the erase.
pub proof fn law_pair_counts_bytes(
    before: Stm32gxPagePair,
    after: Stm32gxPagePair,
    page: Page,
    data: Seq<u8>,
    p: Page,
)
    ensures
        before.selects(page, after) ==> {
            &&& after.region(p) == before.region(p)
            &&& after.writer() matches Some(writer) && writer.region == before.region(page)
                && writer.write_pos == 0
            &&& after.flush_commands() == Seq::<FlashCommand>::empty()
        },
        before.writer() is Some && before.takes(data, after) ==> {
            &&& after.region(p) == before.region(p)
            &&& after.writer() matches Some(writer) && writer.region
                == before.writer()->Some_0.region && writer.write_pos
                == before.writer()->Some_0.write_pos + data.len()
        },
        before.writer() is Some && before.flushes(after) ==> {
            &&& after.region(p) == before.region(p)
            &&& after.writer() matches Some(writer) && writer.region
                == before.writer()->Some_0.region && writer.write_pos
                == before.writer()->Some_0.write_pos
        },
{
}

/// Flushing once more programs the same double word.
pub proof fn law_flush_twice(before: Stm32gxPagePair, after: Stm32gxPagePair)
    requires
        before.writer() is Some,
        before.flushes(after),
    ensures
        after.flush_commands() == before.flush_commands(),
{
}

/// What a page pair can be asked for: whatever can be counted and addressed, once a page is
/// selected.
pub proof fn law_what_a_pair_allows(pair: Stm32gxPagePair, page: Page, len: int)
    requires
        0 <= len,
    ensures
        pair.allows_page(page) <==> 0x0800_0000 + 2048 * pair.region(page).start_page <= usize::MAX
            && 2048 * pair.region(page).size <= usize::MAX,
        pair.allows_erase(page) <==> pair.region(page).start_page + pair.region(page).size
            <= usize::MAX,
        pair.writer() is None ==> !pair.allows_write(len) && !pair.allows_flush(),
        pair.writer() matches Some(writer) ==> {
            let base = 0x0800_0000 + 2048 * writer.region.start_page;
            let (pos, end) = (writer.write_pos as int, writer.write_pos + len);
            &&& pair.allows_write(len) <==> end <= usize::MAX && (end / 8 == pos / 8 || base + end
                / 8 * 8 - 4 <= usize::MAX)
            &&& pair.allows_flush() <==> pos % 8 == 0 || base + pos / 8 * 8 + 4 <= usize::MAX
        },
{
}

} // verus!
