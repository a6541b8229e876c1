//! The order in which the STM32L5 driver goes about its commands
//!
//! An erase starts when it is told to, and a double word is programmed when its second half is
//! written. Until the controller has been waited for, it is busy, and must not be disturbed.

use vstd::prelude::*;
use crate::double_word::{full_words, padded_word, DoubleWord};
use crate::dual_page::Page;
use crate::flash_l5::{
    erase_page_commands, erase_pages_commands, lemma_program_one_more, program_all_commands,
    program_commands, FlashCommand, Stm32l5PagePair,
};
use crate::l5_registers::ControlChange;
use crate::le_bytes::le32_at;

verus! {

/// Whether the controller is busy once the command has been carried out.
pub open spec fn starts_operation(command: FlashCommand) -> bool {
    match command {
        FlashCommand::Control(ControlChange::StartErase) => true,
        FlashCommand::WriteWord { address, .. } => address % 8 != 0,
        _ => false,
    }
}

/// Whether command `k` waits for what command `i` has started, with nothing but fences between
/// them.
pub open spec fn is_next_wait(commands: Seq<FlashCommand>, i: int, k: int) -> bool {
    &&& 0 <= i < k < commands.len()
    &&& commands[k] == FlashCommand::WaitBusy
    &&& forall|j: int| i < j < k ==> (#[trigger] commands[j]) == FlashCommand::Fence
}

/// Whether command `w` has waited and command `c` has cleared the errors since the last operation
/// before command `i`.
pub open spec fn is_ready_since(commands: Seq<FlashCommand>, i: int, w: int, c: int) -> bool {
    &&& 0 <= w < i < commands.len()
    &&& 0 <= c < i
    &&& commands[w] == FlashCommand::WaitBusy
    &&& commands[c] == FlashCommand::ClearErrors
    &&& forall|j: int|
        (w < j < i || c < j < i) && 0 <= j ==> !starts_operation(#[trigger] commands[j])
}

/// Whether command `k` acknowledges the end of the operation that command `i` has started.
pub open spec fn is_acknowledgement(commands: Seq<FlashCommand>, i: int, k: int) -> bool {
    &&& 0 <= i < k < commands.len()
    &&& commands[k] == FlashCommand::ClearEndOfOperation
    &&& forall|j: int| i < j < k ==> !starts_operation(#[trigger] commands[j])
}

/// Whether command `w` waits, and comes before command `i`.
pub open spec fn is_earlier_wait(commands: Seq<FlashCommand>, i: int, w: int) -> bool {
    &&& 0 <= w < i < commands.len()
    &&& commands[w] == FlashCommand::WaitBusy
}

/// Whether a command has to be carried out while interrupts are kept away.
pub open spec fn needs_critical(command: FlashCommand) -> bool {
    match command {
        FlashCommand::Control(ControlChange::StartProgram) => true,
        FlashCommand::Control(ControlChange::EndProgram) => true,
        FlashCommand::WriteWord { .. } => true,
        _ => false,
    }
}

/// Whether interrupts are kept away from command `e` to command `l`, and command `i` is between
/// them.
pub open spec fn is_critical_between(commands: Seq<FlashCommand>, i: int, e: int, l: int) -> bool {
    &&& 0 <= e < i < l < commands.len()
    &&& commands[e] == FlashCommand::EnterCritical
    &&& commands[l] == FlashCommand::LeaveCritical
    &&& forall|j: int|
        e < j < l ==> (#[trigger] commands[j]) != FlashCommand::EnterCritical && commands[j]
            != FlashCommand::LeaveCritical
}

/// Whether command `i` comes in its turn.
///
/// An operation is started only after the controller was waited for and the errors were cleared,
/// and is waited for before anything else is done. Its end is acknowledged. Programming takes place
/// while interrupts are kept away, and the flash is locked right after a wait. Words are written
/// between fences.
#[verifier::opaque]
pub open spec fn is_in_turn(commands: Seq<FlashCommand>, i: int) -> bool {
    let command = commands[i];
    &&& starts_operation(command) ==> {
        &&& exists|k: int| #[trigger] is_next_wait(commands, i, k)
        &&& exists|w: int, c: int| #[trigger] is_ready_since(commands, i, w, c)
    }
    &&& starts_operation(command) ==> exists|k: int| #[trigger] is_acknowledgement(commands, i, k)
    &&& command is Control ==> exists|w: int| #[trigger]
        is_earlier_wait(commands, i, w)
    &&& command is WriteWord ==> {
        &&& 0 < i < commands.len() - 1
        &&& commands[i - 1] == FlashCommand::Fence
        &&& commands[i + 1] == FlashCommand::Fence
    }
    &&& needs_critical(command) ==> exists|e: int, l: int| #[trigger]
        is_critical_between(commands, i, e, l)
    &&& command == FlashCommand::Control(ControlChange::Lock) ==> 0 < i && commands[i - 1]
        == FlashCommand::WaitBusy
}

/// Whether all commands come in their turn.
pub open spec fn is_orderly(commands: Seq<FlashCommand>) -> bool {
    forall|i: int| 0 <= i < commands.len() ==> #[trigger] is_in_turn(commands, i)
}

/// Orderly commands that follow orderly commands are orderly.
pub proof fn law_order_is_kept(x: Seq<FlashCommand>, y: Seq<FlashCommand>)
    requires
        is_orderly(x),
        is_orderly(y),
    ensures
        is_orderly(x + y),
{
    assert forall|i: int| 0 <= i < (x + y).len() implies #[trigger] is_in_turn(x + y, i) by {
        if i < x.len() {
            assert(is_in_turn(x, i));
            lemma_in_turn_before(x, y, i);
        } else {
            assert(is_in_turn(y, i - x.len()));
            lemma_in_turn_behind(x, y, i - x.len());
        }
    }
}

proof fn lemma_in_turn_before(x: Seq<FlashCommand>, y: Seq<FlashCommand>, i: int)
    requires
        0 <= i < x.len(),
        is_in_turn(x, i),
    ensures
        is_in_turn(x + y, i),
{
    reveal(is_in_turn);
    let (all, command) = (x + y, x[i]);
    assert(forall|j: int| 0 <= j < x.len() ==> all[j] == x[j]);
    if starts_operation(command) {
        let k = choose|k: int| #[trigger] is_next_wait(x, i, k);
        assert(is_next_wait(all, i, k));
        let (w, c) = choose|w: int, c: int| #[trigger] is_ready_since(x, i, w, c);
        assert(is_ready_since(all, i, w, c));
    }
    if starts_operation(command) {
        let k = choose|k: int| #[trigger] is_acknowledgement(x, i, k);
        assert(is_acknowledgement(all, i, k));
    }
    if exists|w: int| #[trigger] is_earlier_wait(x, i, w) {
        let w = choose|w: int| #[trigger] is_earlier_wait(x, i, w);
        assert(is_earlier_wait(all, i, w));
    }
    if needs_critical(command) {
        let (e, l) = choose|e: int, l: int| #[trigger] is_critical_between(x, i, e, l);
        assert(is_critical_between(all, i, e, l));
    }
}

proof fn lemma_in_turn_behind(x: Seq<FlashCommand>, y: Seq<FlashCommand>, i: int)
    requires
        0 <= i < y.len(),
        is_in_turn(y, i),
    ensures
        is_in_turn(x + y, x.len() + i),
{
    reveal(is_in_turn);
    let (all, n, command) = (x + y, x.len() as int, y[i]);
    assert(forall|j: int| n <= j < all.len() ==> all[j] == y[j - n]);
    if starts_operation(command) {
        let k = choose|k: int| #[trigger] is_next_wait(y, i, k);
        assert(is_next_wait(all, n + i, n + k));
        let (w, c) = choose|w: int, c: int| #[trigger] is_ready_since(y, i, w, c);
        assert(is_ready_since(all, n + i, n + w, n + c));
    }
    if starts_operation(command) {
        let k = choose|k: int| #[trigger] is_acknowledgement(y, i, k);
        assert(is_acknowledgement(all, n + i, n + k));
    }
    if exists|w: int| #[trigger] is_earlier_wait(y, i, w) {
        let w = choose|w: int| #[trigger] is_earlier_wait(y, i, w);
        assert(is_earlier_wait(all, n + i, n + w));
    }
    if needs_critical(command) {
        let (e, l) = choose|e: int, l: int| #[trigger] is_critical_between(y, i, e, l);
        assert(is_critical_between(all, n + i, n + e, n + l));
    }
}

/// Erasing a page is orderly.
pub proof fn law_erase_page_is_orderly(page_num: int)
    ensures
        is_orderly(erase_page_commands(page_num)),
{
    reveal(is_in_turn);
    let l = erase_page_commands(page_num);
    assert(l[0] == FlashCommand::Unlock);
    assert(l[1] == FlashCommand::WaitBusy);
    assert(l[2] == FlashCommand::ClearErrors);
    assert(l[3] is Control);
    assert(l[4] == FlashCommand::Control(ControlChange::StartErase));
    assert(l[5] == FlashCommand::WaitBusy);
    assert(l[6] == FlashCommand::Control(ControlChange::EndErase));
    assert(l[7] == FlashCommand::ClearEndOfOperation);
    assert(l[8] == FlashCommand::WaitBusy);
    assert(l[9] == FlashCommand::Control(ControlChange::Lock));
    assert(is_earlier_wait(l, 3, 1));
    assert(is_next_wait(l, 4, 5));
    assert(is_ready_since(l, 4, 1, 2));
    assert(is_acknowledgement(l, 4, 7));
    assert(is_earlier_wait(l, 4, 1));
    assert(is_earlier_wait(l, 6, 1));
    assert(is_earlier_wait(l, 9, 1));
    assert(is_in_turn(l, 0) && is_in_turn(l, 1) && is_in_turn(l, 2) && is_in_turn(l, 3));
    assert(is_in_turn(l, 4) && is_in_turn(l, 5) && is_in_turn(l, 6) && is_in_turn(l, 7));
    assert(is_in_turn(l, 8) && is_in_turn(l, 9));
}

/// Programming a double word is orderly.
pub proof fn law_program_is_orderly(word: DoubleWord)
    requires
        0 <= word.address,
        word.address + 4 <= usize::MAX,
        word.address % 8 == 0,
    ensures
        is_orderly(program_commands(word)),
{
    reveal(is_in_turn);
    let l = program_commands(word);
    assert(l[0] == FlashCommand::Unlock);
    assert(l[1] == FlashCommand::WaitBusy);
    assert(l[2] == FlashCommand::ClearErrors);
    assert(l[3] == FlashCommand::EnterCritical);
    assert(l[4] == FlashCommand::Control(ControlChange::StartProgram));
    assert(l[5] == FlashCommand::Fence);
    assert(l[6] == FlashCommand::WriteWord {
        address: word.address as usize,
        word: le32_at(word.bytes, 0) as u32,
    });
    assert(l[7] == FlashCommand::Fence);
    assert(l[8] == FlashCommand::WriteWord {
        address: (word.address + 4) as usize,
        word: le32_at(word.bytes, 4) as u32,
    });
    assert(l[9] == FlashCommand::Fence);
    assert(l[10] == FlashCommand::WaitBusy);
    assert(l[11] == FlashCommand::Control(ControlChange::EndProgram));
    assert(l[12] == FlashCommand::LeaveCritical);
    assert(l[13] == FlashCommand::ClearEndOfOperation);
    assert(l[14] == FlashCommand::WaitBusy);
    assert(l[15] == FlashCommand::Control(ControlChange::Lock));
    assert(!starts_operation(l[6]));
    assert(is_critical_between(l, 4, 3, 12));
    assert(is_critical_between(l, 6, 3, 12));
    assert(is_critical_between(l, 8, 3, 12));
    assert(is_critical_between(l, 11, 3, 12));
    assert(is_earlier_wait(l, 4, 1));
    assert(is_next_wait(l, 8, 10));
    assert(is_ready_since(l, 8, 1, 2));
    assert(is_acknowledgement(l, 8, 13));
    assert(is_earlier_wait(l, 11, 1));
    assert(is_earlier_wait(l, 15, 1));
    assert(is_in_turn(l, 0) && is_in_turn(l, 1) && is_in_turn(l, 2) && is_in_turn(l, 3));
    assert(is_in_turn(l, 4) && is_in_turn(l, 5) && is_in_turn(l, 6) && is_in_turn(l, 7));
    assert(is_in_turn(l, 8) && is_in_turn(l, 9) && is_in_turn(l, 10) && is_in_turn(l, 11));
    assert(is_in_turn(l, 12) && is_in_turn(l, 13) && is_in_turn(l, 14) && is_in_turn(l, 15));
}

proof fn lemma_erase_pages_is_orderly(start: int, count: nat)
    ensures
        is_orderly(erase_pages_commands(start, count)),
    decreases count,
{
    let pages = Seq::new(count, |i: int| erase_page_commands(start + i));
    if count > 0 {
        let fewer = (count - 1) as nat;
        lemma_erase_pages_is_orderly(start, fewer);
        let done = Seq::new(fewer, |i: int| erase_page_commands(start + i));
        let last = erase_page_commands(start + fewer);
        law_erase_page_is_orderly(start + fewer);
        assert(pages =~= done.push(last));
        done.lemma_flatten_push(last);
        law_order_is_kept(done.flatten(), last);
    }
}

proof fn lemma_program_all_is_orderly(words: Seq<DoubleWord>)
    requires
        forall|i: int|
            0 <= i < words.len() ==> {
                &&& 0 <= (#[trigger] words[i]).address
                &&& words[i].address + 4 <= usize::MAX
                &&& words[i].address % 8 == 0
            },
    ensures
        is_orderly(program_all_commands(words)),
    decreases words.len(),
{
    if words.len() > 0 {
        let rest = words.drop_last();
        assert forall|i: int| 0 <= i < rest.len() implies {
            &&& 0 <= (#[trigger] rest[i]).address
            &&& rest[i].address + 4 <= usize::MAX
            &&& rest[i].address % 8 == 0
        } by {
            assert(rest[i] == words[i]);
        }
        lemma_program_all_is_orderly(rest);
        assert(words.last() == words[words.len() - 1]);
        law_program_is_orderly(words.last());
        assert(words =~= rest.push(words.last()));
        lemma_program_one_more(rest, words.last());
        law_order_is_kept(program_all_commands(rest), program_commands(words.last()));
    }
}

/// Erasing a page of the pair is orderly.
pub proof fn law_pair_erase_is_orderly(pair: Stm32l5PagePair, page: Page)
    ensures
        is_orderly(pair.erase_commands(page)),
{
    let (start, size) = (pair.region(page).start_page as int, pair.region(page).size as nat);
    lemma_erase_pages_is_orderly(start, size);
}

/// Writing to the selected page of the pair is orderly.
pub proof fn law_pair_write_is_orderly(pair: Stm32l5PagePair, data: Seq<u8>)
    requires
        pair.is_valid(),
        pair.allows_write(data.len() as int),
    ensures
        is_orderly(pair.write_commands(data)),
{
    let writer = pair.writer()->Some_0;
    lemma_program_all_is_orderly(
        full_words(writer.word_address(), writer.pending() + data),
    );
}

/// Flushing the selected page of the pair is orderly.
pub proof fn law_pair_flush_is_orderly(pair: Stm32l5PagePair)
    requires
        pair.is_valid(),
        pair.writer() is Some,
    ensures
        is_orderly(pair.flush_commands()),
{
    let writer = pair.writer()->Some_0;
    if writer.pending().len() > 0 {
        law_program_is_orderly(
            DoubleWord {
                address: writer.word_address(),
                bytes: padded_word(writer.pending(), 0xff),
            },
        );
    }
}

} // verus!
