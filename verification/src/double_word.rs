//! Splitting a stream of bytes into the double words that flash is programmed in

use vstd::prelude::*;

verus! {

/// Flash is programmed in units of this many bytes
pub const WRITE_SIZE: usize = 8;

/// A double word and the address that it is programmed at.
#[verifier::ext_equal]
pub struct DoubleWord {
    pub address: int,
    pub bytes: Seq<u8>,
}

/// The complete double words of `stream`, whose first byte belongs at `address`.
pub open spec fn full_words(address: int, stream: Seq<u8>) -> Seq<DoubleWord> {
    Seq::new(
        stream.len() / 8,
        |i: int| DoubleWord { address: address + 8 * i, bytes: stream.subrange(8 * i, 8 * i + 8) },
    )
}

/// The bytes of `stream` behind its last complete double word.
pub open spec fn partial_word(stream: Seq<u8>) -> Seq<u8> {
    stream.skip(8 * (stream.len() as int / 8))
}

/// The double word that begins with `bytes` and is filled up with `fill`.
pub open spec fn padded_word(bytes: Seq<u8>, fill: u8) -> Seq<u8> {
    Seq::new(
        8,
        |i: int| if i < bytes.len() {
            bytes[i]
        } else {
            fill
        },
    )
}

/// Memory in which `stream` has been stored from `address` on.
pub open spec fn stored_at(
    memory: spec_fn(int) -> u8,
    address: int,
    stream: Seq<u8>,
) -> spec_fn(int) -> u8 {
    |x: int|
        if address <= x < address + stream.len() {
            stream[x - address]
        } else {
            memory(x)
        }
}

/// Splitting a stream into double words can be interrupted anywhere: what is left over goes in
/// front of what comes next.
pub proof fn law_words_in_pieces(address: int, x: Seq<u8>, y: Seq<u8>)
    ensures
        full_words(address, x + y) == full_words(address, x) + full_words(
            address + 8 * (x.len() as int / 8),
            partial_word(x) + y,
        ),
        partial_word(x + y) == partial_word(partial_word(x) + y),
{
    let n = x.len() as int / 8;
    let rest = partial_word(x) + y;
    assert((x + y).skip(8 * n) =~= rest);
    let words = full_words(address, x + y);
    let split = full_words(address, x) + full_words(address + 8 * n, rest);
    assert((x + y).len() as int / 8 == n + rest.len() as int / 8);
    assert forall|i: int| 0 <= i < words.len() implies words[i] == split[i] by {
        if i < n {
            assert((x + y).subrange(8 * i, 8 * i + 8) =~= x.subrange(8 * i, 8 * i + 8));
        } else {
            let j = i - n;
            assert((x + y).subrange(8 * i, 8 * i + 8) =~= rest.subrange(8 * j, 8 * j + 8));
        }
    }
    assert(words =~= split);
    assert(partial_word(x + y) =~= partial_word(rest));
}

/// The double words of a stream lie one behind the other, and hold the stream but for fewer than 8
/// bytes at its end, which are left over.
pub proof fn law_words_hold_the_stream(address: int, stream: Seq<u8>, i: int)
    ensures
        full_words(address, stream).len() == stream.len() / 8,
        partial_word(stream).len() == stream.len() % 8,
        0 <= i < stream.len() / 8 * 8 ==> {
            let word = full_words(address, stream)[i / 8];
            word.address == address + i - i % 8 && word.bytes.len() == 8 && word.bytes[i % 8]
                == stream[i]
        },
        stream.len() / 8 * 8 <= i < stream.len() ==> partial_word(stream)[i % 8] == stream[i],
{
}

/// A double word that is filled up begins with the bytes that were there.
pub proof fn law_padding_goes_behind(bytes: Seq<u8>, fill: u8, i: int)
    requires
        bytes.len() <= 8,
        0 <= i < 8,
    ensures
        padded_word(bytes, fill).len() == 8,
        i < bytes.len() ==> padded_word(bytes, fill)[i] == bytes[i],
        bytes.len() <= i ==> padded_word(bytes, fill)[i] == fill,
{
}

} // verus!
