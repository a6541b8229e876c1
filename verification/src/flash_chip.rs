//! A model of a flash memory and of the controller that protects, erases and programs it
//!
//! The drivers are measured against this model: it tells what their commands make of the memory.

use vstd::prelude::*;
use crate::double_word::{full_words, partial_word, stored_at, DoubleWord};
use crate::dual_page::ERASED;
use crate::le_bytes::{le32_at, le32_bytes};
use crate::registers::{has_bit, with_bit};

verus! {

/// The keys that unlock the flash, when they are written one after the other
pub const KEY_1: u32 = 0x4567_0123;

pub const KEY_2: u32 = 0xCDEF_89AB;

/// The address of the first byte of the flash
pub const FLASH_START: usize = 0x0800_0000;

/// The number of bytes that are erased at once
pub const ERASE_SIZE: usize = 2048;

/// A flash memory and its controller.
pub struct Chip {
    /// The byte at every address.
    pub memory: spec_fn(int) -> u8,
    /// The control register. Bit 0 chooses programming, bit 1 page erase, bit 16 starts an erase
    /// and bit 31 locks the register.
    pub control: u32,
    /// Whether the last key written was the first one.
    pub first_key: bool,
    /// The first half of a double word, and its address.
    pub half: Option<(int, u32)>,
}

/// Whether `count` bytes from `address` on are erased.
pub open spec fn is_erased_at(memory: spec_fn(int) -> u8, address: int, count: int) -> bool {
    forall|x: int| address <= x < address + count ==> #[trigger] memory(x) == ERASED
}

/// The `count` bytes from `address` on.
pub open spec fn bytes_at(memory: spec_fn(int) -> u8, address: int, count: int) -> Seq<u8> {
    Seq::new(count as nat, |i: int| memory(address + i))
}

/// Memory in which `count` bytes from `address` on have been erased.
pub open spec fn erased_at(
    memory: spec_fn(int) -> u8,
    address: int,
    count: int,
) -> spec_fn(int) -> u8 {
    |x: int|
        if address <= x < address + count {
            ERASED
        } else {
            memory(x)
        }
}

/// Memory after a double word was programmed. Only an erased double word can be programmed.
pub open spec fn programmed(memory: spec_fn(int) -> u8, word: DoubleWord) -> spec_fn(int) -> u8 {
    if is_erased_at(memory, word.address, 8) {
        stored_at(memory, word.address, word.bytes)
    } else {
        memory
    }
}

/// Memory after double words were programmed one after the other.
pub open spec fn all_programmed(
    memory: spec_fn(int) -> u8,
    words: Seq<DoubleWord>,
) -> spec_fn(int) -> u8
    decreases words.len(),
{
    if words.len() == 0 {
        memory
    } else {
        programmed(all_programmed(memory, words.drop_last()), words.last())
    }
}

impl Chip {
    /// Whether the control register is locked.
    pub open spec fn is_locked(self) -> bool {
        has_bit(self.control, 31)
    }

    /// Whether the controller is as it is found and left: locked, and with no operation chosen.
    pub open spec fn is_at_rest(self) -> bool {
        &&& self.is_locked()
        &&& self.is_idle()
    }

    /// Whether no operation is chosen and none has been begun.
    pub open spec fn is_idle(self) -> bool {
        &&& !has_bit(self.control, 0)
        &&& !has_bit(self.control, 1)
        &&& !has_bit(self.control, 16)
        &&& !self.first_key
        &&& self.half is None
    }

    /// The chip after a key was written: the second key, right after the first, unlocks it. A key
    /// that is written to an unlocked chip locks it.
    pub open spec fn key_written(self, key: u32) -> Chip {
        if !self.is_locked() {
            Chip { first_key: false, control: with_bit(self.control, 31, true), ..self }
        } else if key == KEY_1 {
            Chip { first_key: true, ..self }
        } else if key == KEY_2 && self.first_key {
            Chip { first_key: false, control: with_bit(self.control, 31, false), ..self }
        } else {
            Chip { first_key: false, ..self }
        }
    }

    /// The chip after a value was written to the control register that selects page `page`.
    ///
    /// A locked control register does not change. Starting an erase erases the selected page.
    pub open spec fn control_written(self, value: u32, page: int) -> Chip {
        if self.is_locked() {
            self
        } else if has_bit(value, 16) {
            Chip {
                control: with_bit(value, 16, false),
                memory: if has_bit(value, 1) {
                    erased_at(self.memory, FLASH_START + page * ERASE_SIZE, ERASE_SIZE as int)
                } else {
                    self.memory
                },
                ..self
            }
        } else {
            Chip { control: value, ..self }
        }
    }

    /// The chip after 32 bits were written to the flash.
    ///
    /// Where programming is chosen, a double word is programmed by writing its halves in order.
    pub open spec fn word_written(self, address: int, word: u32) -> Chip {
        if self.is_locked() || !has_bit(self.control, 0) {
            self
        } else if address % 8 == 0 {
            Chip { half: Some((address, word)), ..self }
        } else {
            match self.half {
                Some((start, first)) if start + 4 == address => Chip {
                    half: None,
                    memory: programmed(
                        self.memory,
                        DoubleWord {
                            address: start,
                            bytes: le32_bytes(first as int) + le32_bytes(word as int),
                        },
                    ),
                    ..self
                },
                _ => Chip { half: None, ..self },
            }
        }
    }
}

/// Whether `written` is being written to `length` bytes of flash from `base` on: all its complete
/// double words are there, `pending` is the rest of it, and what is behind is erased.
pub open spec fn is_being_written(
    chip: Chip,
    base: int,
    length: int,
    pending: Seq<u8>,
    written: Seq<u8>,
) -> bool {
    let full = 8 * (written.len() as int / 8);
    &&& chip.is_at_rest()
    &&& base % 8 == 0
    &&& length % 8 == 0
    &&& written.len() <= length
    &&& pending == partial_word(written)
    &&& forall|x: int|
        base <= x < base + full ==> #[trigger] (chip.memory)(x) == written[x - base]
    &&& is_erased_at(chip.memory, base + full, length - full)
}

/// A double word is made of the two numbers that its halves hold.
proof fn lemma_halves(bytes: Seq<u8>)
    requires
        bytes.len() == 8,
    ensures
        0 <= le32_at(bytes, 0) <= u32::MAX,
        0 <= le32_at(bytes, 4) <= u32::MAX,
        le32_bytes(le32_at(bytes, 0)) + le32_bytes(le32_at(bytes, 4)) == bytes,
{
    lemma_four_bytes(bytes, 0);
    lemma_four_bytes(bytes, 4);
    assert(le32_bytes(le32_at(bytes, 0)) + le32_bytes(le32_at(bytes, 4)) =~= bytes);
}

/// Where programming is chosen, writing the halves of a double word programs it.
pub(crate) proof fn lemma_double_word_written(chip: Chip, word: DoubleWord)
    requires
        !chip.is_locked(),
        has_bit(chip.control, 0),
        chip.half is None,
        word.bytes.len() == 8,
        word.address % 8 == 0,
    ensures
        chip.word_written(word.address, le32_at(word.bytes, 0) as u32).word_written(
            word.address + 4,
            le32_at(word.bytes, 4) as u32,
        ) == (Chip { memory: programmed(chip.memory, word), ..chip }),
{
    lemma_halves(word.bytes);
    assert(DoubleWord { address: word.address, bytes: word.bytes } == word);
}

proof fn lemma_four_bytes(bytes: Seq<u8>, at: int)
    requires
        0 <= at,
        at + 4 <= bytes.len(),
    ensures
        0 <= le32_at(bytes, at) <= u32::MAX,
        le32_bytes(le32_at(bytes, at)) == bytes.subrange(at, at + 4),
{
    let v = le32_at(bytes, at);
    lemma_four_digits(
        bytes[at] as int,
        bytes[at + 1] as int,
        bytes[at + 2] as int,
        bytes[at + 3] as int,
        v,
    );
    let part = bytes.subrange(at, at + 4);
    assert(le32_bytes(v)[0] == part[0]);
    assert(le32_bytes(v)[1] == part[1]);
    assert(le32_bytes(v)[2] == part[2]);
    assert(le32_bytes(v)[3] == part[3]);
    assert(le32_bytes(v) =~= part);
}

proof fn lemma_four_digits(b0: int, b1: int, b2: int, b3: int, v: int)
    requires
        0 <= b0 < 0x100,
        0 <= b1 < 0x100,
        0 <= b2 < 0x100,
        0 <= b3 < 0x100,
        v == b0 + 0x100 * b1 + 0x1_0000 * b2 + 0x100_0000 * b3,
    ensures
        0 <= v <= u32::MAX,
        v % 0x100 == b0,
        v / 0x100 % 0x100 == b1,
        v / 0x1_0000 % 0x100 == b2,
        v / 0x100_0000 % 0x100 == b3,
{
    assert(v / 0x100 == b1 + 0x100 * b2 + 0x1_0000 * b3);
    assert(v / 0x1_0000 == b2 + 0x100 * b3);
    assert(v / 0x100_0000 == b3);
}

/// Programming the complete double words of a stream into erased memory stores them there.
pub(crate) proof fn lemma_stream_programmed(
    memory: spec_fn(int) -> u8,
    address: int,
    stream: Seq<u8>,
)
    requires
        is_erased_at(memory, address, 8 * (stream.len() as int / 8)),
    ensures
        all_programmed(memory, full_words(address, stream)) == stored_at(
            memory,
            address,
            stream.take(8 * (stream.len() as int / 8)),
        ),
    decreases stream.len(),
{
    let n = stream.len() as int / 8;
    let words = full_words(address, stream);
    if n == 0 {
        assert(stored_at(memory, address, stream.take(0)) =~= memory);
    } else {
        let shorter = stream.take(8 * (n - 1));
        lemma_stream_programmed(memory, address, shorter);
        assert(shorter.len() as int / 8 == n - 1);
        assert(shorter.take(8 * (n - 1)) =~= shorter);
        assert forall|i: int| 0 <= i < n - 1 implies words.drop_last()[i] == full_words(
            address,
            shorter,
        )[i] by {
            assert(stream.subrange(8 * i, 8 * i + 8) =~= shorter.subrange(8 * i, 8 * i + 8));
        }
        assert(words.drop_last() =~= full_words(address, shorter));
        let before = stored_at(memory, address, shorter);
        assert(is_erased_at(before, address + 8 * (n - 1), 8));
        assert(programmed(before, words.last()) =~= stored_at(
            memory,
            address,
            stream.take(8 * n),
        ));
    }
}

/// Writing more data goes on where the complete double words end.
pub(crate) proof fn lemma_more_written(
    chip: Chip,
    after: Chip,
    base: int,
    length: int,
    pending: Seq<u8>,
    written: Seq<u8>,
    data: Seq<u8>,
)
    requires
        is_being_written(chip, base, length, pending, written),
        written.len() + data.len() <= length,
        after.is_at_rest(),
        after.memory == all_programmed(
            chip.memory,
            full_words(base + 8 * (written.len() as int / 8), pending + data),
        ),
    ensures
        is_being_written(after, base, length, partial_word(pending + data), written + data),
        forall|x: int|
            !(base <= x < base + length) ==> #[trigger] (after.memory)(x) == (chip.memory)(x),
{
    let full = 8 * (written.len() as int / 8);
    let stream = pending + data;
    let all = written + data;
    crate::double_word::law_words_in_pieces(base, written, data);
    let count = 8 * (stream.len() as int / 8);
    assert(full + count == 8 * (all.len() as int / 8));
    lemma_stream_programmed(chip.memory, base + full, stream);
    assert forall|x: int| base <= x < base + full + count implies #[trigger] (after.memory)(x)
        == all[x - base] by {
        if x < base + full {
            assert((chip.memory)(x) == written[x - base]);
        } else {
            assert(stream[x - base - full] == all[x - base]);
        }
    }
    assert forall|x: int| base + full + count <= x < base + length implies #[trigger] (
    after.memory)(x) == ERASED by {
        assert((chip.memory)(x) == ERASED);
    }
}

/// Programming what is pending, filled up to a double word, completes the data.
pub(crate) proof fn lemma_completed(
    chip: Chip,
    after: Chip,
    base: int,
    length: int,
    pending: Seq<u8>,
    written: Seq<u8>,
    word: Seq<u8>,
)
    requires
        is_being_written(chip, base, length, pending, written),
        pending.len() > 0,
        word.len() == 8,
        word.take(pending.len() as int) == pending,
        after.memory == programmed(
            chip.memory,
            DoubleWord { address: base + 8 * (written.len() as int / 8), bytes: word },
        ),
    ensures
        forall|x: int|
            #![trigger (after.memory)(x)]
            (after.memory)(x) == if base <= x < base + written.len() {
                written[x - base]
            } else if base + written.len() <= x < base + 8 * (written.len() as int / 8) + 8 {
                word[x - base - 8 * (written.len() as int / 8)]
            } else {
                (chip.memory)(x)
            },
{
    let full = 8 * (written.len() as int / 8);
    assert(is_erased_at(chip.memory, base + full, 8));
    assert forall|x: int| base <= x < base + written.len() implies #[trigger] (after.memory)(x)
        == written[x - base] by {
        if x < base + full {
            assert((chip.memory)(x) == written[x - base]);
        } else {
            let i = x - base - full;
            assert(word.take(pending.len() as int)[i] == word[i]);
            assert(pending[i] == written[x - base]);
        }
    }
}

} // verus!
