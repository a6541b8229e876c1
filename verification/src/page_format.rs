//! What a page of persistent data looks like
//!
//! A page begins with a header: a 4 byte magic number and the 2 byte length of the section data.
//! The sections follow, one behind the other, and a 2 byte checksum of all that precedes it. A
//! section is made of a 2 byte length, which counts the section id, the id and the data. All
//! numbers are stored least significant byte first.

use vstd::prelude::*;
use crate::dual_page::{is_erased, FlashCall, Page};
use crate::fletcher16::checksum;
use crate::le_bytes::{le16_at, le16_bytes, le32_at, le32_bytes};
use crate::section_update::{SectionUpdate, UpdateModel};

verus! {

/// Magic number to include in the flash page as a header
pub const MAGIC: u32 = 0xAAAA_CAFE;

/// 2 byte length header, 1 byte section id
pub const SECTION_OVERHEAD: usize = 3;

/// 4-byte magic number + 2 byte length
pub const PAGE_HEADER_SIZE: usize = 6;

/// The checksum behind the sections
pub const CHECKSUM_SIZE: usize = 2;

/// All bytes of a page that are not section data
pub const PAGE_OVERHEAD: usize = 8;

/// A section as it is stored: its id and its data.
#[verifier::ext_equal]
pub struct SectionModel {
    pub id: u8,
    pub data: Seq<u8>,
}

/// The section data of a page that holds a valid header and a matching checksum.
pub open spec fn page_payload(page: Seq<u8>) -> Option<Seq<u8>> {
    if page.len() < PAGE_HEADER_SIZE || le32_at(page, 0) != MAGIC {
        None
    } else {
        let end = PAGE_HEADER_SIZE + le16_at(page, 4);
        if page.len() < end + CHECKSUM_SIZE || checksum(page.take(end)) != le16_at(page, end) {
            None
        } else {
            Some(page.subrange(PAGE_HEADER_SIZE as int, end))
        }
    }
}

/// The checksum that is due and the one that is stored, of a page that holds a valid header and is
/// long enough for both.
pub open spec fn page_checksums(page: Seq<u8>) -> Option<(int, int)> {
    if page.len() < PAGE_HEADER_SIZE || le32_at(page, 0) != MAGIC {
        None
    } else {
        let end = PAGE_HEADER_SIZE + le16_at(page, 4);
        if page.len() < end + CHECKSUM_SIZE {
            None
        } else {
            Some((checksum(page.take(end)), le16_at(page, end)))
        }
    }
}

/// The section data that is in force when the pages hold `a` and `b`: page A comes first.
pub open spec fn loaded_payload(a: Seq<u8>, b: Seq<u8>) -> Option<Seq<u8>> {
    if page_payload(a) is Some {
        page_payload(a)
    } else {
        page_payload(b)
    }
}

/// What one step of reading sections from `payload` at `pos` finds, and the position after it.
///
/// The length header counts the section id. Where fewer bytes are left than it announces, or where
/// it does not even count the id, only the section's own header is stepped over.
pub open spec fn section_at(payload: Seq<u8>, pos: int) -> (Option<SectionModel>, int) {
    if payload.len() - pos < SECTION_OVERHEAD {
        (None, pos)
    } else {
        let end = pos + 2 + le16_at(payload, pos);
        if end < pos + SECTION_OVERHEAD || payload.len() < end {
            (None, pos + SECTION_OVERHEAD)
        } else {
            (
                Some(
                    SectionModel {
                        id: payload[pos + 2],
                        data: payload.subrange(pos + SECTION_OVERHEAD, end),
                    },
                ),
                end,
            )
        }
    }
}

/// The sections found from `pos` on, up to the first step that finds none.
pub open spec fn sections_from(payload: Seq<u8>, pos: int) -> Seq<SectionModel>
    decreases payload.len() - pos,
{
    match section_at(payload, pos) {
        (Some(section), next) => if pos < next <= payload.len() {
            seq![section] + sections_from(payload, next)
        } else {
            seq![]
        },
        (None, _) => seq![],
    }
}

/// The calls that write `pieces` one after the other.
pub open spec fn write_calls(pieces: Seq<Seq<u8>>) -> Seq<FlashCall> {
    pieces.map_values(|piece: Seq<u8>| FlashCall::Write(piece))
}

impl SectionModel {
    /// The update that writes the section as it is.
    pub open spec fn as_update(self) -> UpdateModel {
        UpdateModel { id: self.id, size: self.data.len() as int, pieces: seq![self.data] }
    }
}

/// The models of all updates.
pub open spec fn update_models(sections: Seq<SectionUpdate>) -> Seq<UpdateModel> {
    sections.map_values(|section: SectionUpdate| section@)
}

/// Whether one of the updates is for the section `id`.
pub open spec fn is_updated(updates: Seq<UpdateModel>, id: u8) -> bool {
    exists|i: int| 0 <= i < updates.len() && updates[i].id == id
}

/// The sections that no update is for.
pub open spec fn not_updated(
    sections: Seq<SectionModel>,
    updates: Seq<UpdateModel>,
) -> Seq<SectionModel> {
    sections.filter(|section: SectionModel| !is_updated(updates, section.id))
}

/// The sections in `payload`, or none if there is no payload.
pub open spec fn sections_in(payload: Option<Seq<u8>>) -> Seq<SectionModel> {
    match payload {
        Some(payload) => sections_from(payload, 0),
        None => seq![],
    }
}

/// All that is written when `updates` are made to the sections in `payload`: first the sections
/// that are kept, then the updates.
pub open spec fn merged(
    payload: Option<Seq<u8>>,
    updates: Seq<UpdateModel>,
) -> Seq<UpdateModel> {
    as_updates(not_updated(sections_in(payload), updates)) + updates
}

/// The updates that write the sections as they are.
pub open spec fn as_updates(sections: Seq<SectionModel>) -> Seq<UpdateModel> {
    sections.map_values(|section: SectionModel| section.as_update())
}

/// The number of bytes that the updates take, if their data has the announced sizes.
pub open spec fn stored_size(updates: Seq<UpdateModel>) -> int
    decreases updates.len(),
{
    if updates.len() == 0 {
        0
    } else {
        stored_size(updates.drop_last()) + updates.last().size + SECTION_OVERHEAD
    }
}

/// Everything that is written for the updates, piece by piece.
pub open spec fn encodings(updates: Seq<UpdateModel>) -> Seq<Seq<u8>>
    decreases updates.len(),
{
    if updates.len() == 0 {
        seq![]
    } else {
        encodings(updates.drop_last()) + updates.last().encoding()
    }
}

/// Everything that is written to a page but for the checksum, piece by piece.
pub open spec fn checked_pieces(updates: Seq<UpdateModel>) -> Seq<Seq<u8>> {
    seq![le32_bytes(MAGIC as int), le16_bytes(stored_size(updates) % 0x1_0000)] + encodings(updates)
}

/// Everything that is written to a page before the updates, piece by piece.
pub open spec fn leading_pieces(
    payload: Option<Seq<u8>>,
    updates: Seq<UpdateModel>,
) -> Seq<Seq<u8>> {
    seq![
        le32_bytes(MAGIC as int),
        le16_bytes(stored_size(merged(payload, updates)) % 0x1_0000),
    ] + encodings(as_updates(not_updated(sections_in(payload), updates)))
}

/// Everything that is written to a page, piece by piece.
pub open spec fn page_pieces(updates: Seq<UpdateModel>) -> Seq<Seq<u8>> {
    checked_pieces(updates).push(le16_bytes(checksum(checked_pieces(updates).flatten())))
}

/// Everything that is written to a page.
pub open spec fn page_image(updates: Seq<UpdateModel>) -> Seq<u8> {
    page_pieces(updates).flatten()
}

/// The page that is written next: not the one that is in force, and page A if none is.
pub open spec fn write_target(a: Seq<u8>, b: Seq<u8>) -> Page {
    if page_payload(a) is Some {
        Page::B
    } else {
        Page::A
    }
}

/// Whether the updates of the sections in force fit into a page of `capacity` bytes.
pub open spec fn update_fits(
    payload: Option<Seq<u8>>,
    updates: Seq<UpdateModel>,
    capacity: int,
) -> bool {
    stored_size(merged(payload, updates)) + PAGE_OVERHEAD <= capacity
}

/// The calls that make the updates when the pages hold `a` and `b`.
///
/// The page in force is erased last of all, when the other one is complete.
pub open spec fn update_calls(
    a: Seq<u8>,
    b: Seq<u8>,
    updates: Seq<UpdateModel>,
) -> Seq<FlashCall> {
    let target = write_target(a, b);
    let payload = loaded_payload(a, b);
    let written = seq![FlashCall::Erase(target)] + write_calls(
        page_pieces(merged(payload, updates)),
    ) + seq![FlashCall::Flush];
    if payload is Some {
        written.push(FlashCall::Erase(target.opposite()))
    } else {
        written
    }
}

pub(crate) proof fn lemma_stored_size_concat(x: Seq<UpdateModel>, y: Seq<UpdateModel>)
    ensures
        stored_size(x + y) == stored_size(x) + stored_size(y),
    decreases y.len(),
{
    if y.len() == 0 {
        assert(x + y =~= x);
    } else {
        lemma_stored_size_concat(x, y.drop_last());
        assert((x + y).drop_last() =~= x + y.drop_last());
    }
}

pub(crate) proof fn lemma_encodings_concat(x: Seq<UpdateModel>, y: Seq<UpdateModel>)
    ensures
        encodings(x + y) == encodings(x) + encodings(y),
    decreases y.len(),
{
    if y.len() == 0 {
        assert(x + y =~= x);
        assert(encodings(x) + encodings(y) =~= encodings(x));
    } else {
        lemma_encodings_concat(x, y.drop_last());
        assert((x + y).drop_last() =~= x + y.drop_last());
        assert(encodings(x) + encodings(y.drop_last()) + y.last().encoding() =~= encodings(x)
            + encodings(y));
    }
}

/// The step of a loop over the sections: what has been passed grows by the section found.
pub(crate) proof fn lemma_section_passed(
    payload: Seq<u8>,
    updates: Seq<UpdateModel>,
    passed: Seq<SectionModel>,
    pos: int,
)
    requires
        0 <= pos <= payload.len(),
        sections_from(payload, 0) == passed + sections_from(payload, pos),
        section_at(payload, pos).0 is Some,
    ensures
        ({
            let section = section_at(payload, pos).0->Some_0;
            let kept = not_updated(passed, updates);
            &&& sections_from(payload, 0) == passed.push(section) + sections_from(
                payload,
                section_at(payload, pos).1,
            )
            &&& section_at(payload, pos).1 == pos + section.data.len() + SECTION_OVERHEAD
            &&& not_updated(passed.push(section), updates) == if is_updated(updates, section.id) {
                kept
            } else {
                kept.push(section)
            }
            &&& as_updates(kept.push(section)) == as_updates(kept).push(section.as_update())
        }),
{
    let (found, next) = section_at(payload, pos);
    let section = found->Some_0;
    assert(passed.push(section) + sections_from(payload, next) =~= passed + (seq![section]
        + sections_from(payload, next)));
    reveal(Seq::filter);
    assert(passed.push(section).drop_last() =~= passed);
    let kept = not_updated(passed, updates);
    assert(as_updates(kept.push(section)) =~= as_updates(kept).push(section.as_update()));
}

/// Whether the pages may hold `a2` and `b2` after `updates` were made to `a` and `b`: the page
/// that was not in force begins with the new image, and the one that was in force is erased.
pub open spec fn is_updated_storage(
    a: Seq<u8>,
    b: Seq<u8>,
    updates: Seq<UpdateModel>,
    a2: Seq<u8>,
    b2: Seq<u8>,
) -> bool {
    let payload = loaded_payload(a, b);
    let image = page_image(merged(payload, updates));
    let (target2, other, other2) = match write_target(a, b) {
        Page::A => (a2, b, b2),
        Page::B => (b2, a, a2),
    };
    &&& a2.len() == a.len()
    &&& b2.len() == b.len()
    &&& image.len() <= target2.len()
    &&& target2.take(image.len() as int) == image
    &&& if payload is Some {
        is_erased(other2)
    } else {
        other2 == other
    }
}

/// Whether an update that fits can be written out: no section has a size that its length header
/// wraps around on, and readers do not give more than the page can take. Readers that give no more
/// than announced never do.
pub open spec fn is_writable(
    payload: Option<Seq<u8>>,
    updates: Seq<UpdateModel>,
    capacity: int,
) -> bool {
    &&& forall|i: int| 0 <= i < updates.len() ==> (#[trigger] updates[i]).size % 0x1_0000 != 0xffff
    &&& {
        ||| forall|i: int|
            0 <= i < updates.len() ==> (#[trigger] updates[i]).data().len() <= updates[i].size
        ||| page_image(merged(payload, updates)).len() <= capacity
    }
}

pub(crate) proof fn lemma_encoding_len(update: UpdateModel)
    ensures
        update.encoding().flatten().len() == update.data().len() + SECTION_OVERHEAD,
        update.encoding().flatten() == le16_bytes((update.size + 1) % 0x1_0000) + seq![update.id]
            + update.data(),
{
    let size = le16_bytes((update.size + 1) % 0x1_0000);
    let head = seq![size, seq![update.id]];
    vstd::seq_lib::lemma_flatten_concat(head, update.pieces);
    assert(head =~= seq![size] + seq![seq![update.id]]);
    vstd::seq_lib::lemma_flatten_concat(seq![size], seq![seq![update.id]]);
    seq![size].lemma_flatten_one_element();
    seq![seq![update.id]].lemma_flatten_one_element();
}

pub(crate) proof fn lemma_page_image(updates: Seq<UpdateModel>)
    ensures
        checked_pieces(updates).flatten() == le32_bytes(MAGIC as int) + le16_bytes(
            stored_size(updates) % 0x1_0000,
        ) + encodings(updates).flatten(),
        page_image(updates) == checked_pieces(updates).flatten() + le16_bytes(
            checksum(checked_pieces(updates).flatten()),
        ),
        page_image(updates).len() == encodings(updates).flatten().len() + PAGE_OVERHEAD,
{
    let magic = le32_bytes(MAGIC as int);
    let size = le16_bytes(stored_size(updates) % 0x1_0000);
    let head = seq![magic, size];
    vstd::seq_lib::lemma_flatten_concat(head, encodings(updates));
    assert(head =~= seq![magic] + seq![size]);
    vstd::seq_lib::lemma_flatten_concat(seq![magic], seq![size]);
    seq![magic].lemma_flatten_one_element();
    seq![size].lemma_flatten_one_element();
    checked_pieces(updates).lemma_flatten_push(
        le16_bytes(checksum(checked_pieces(updates).flatten())),
    );
}

/// The updates follow what is written before them.
pub(crate) proof fn lemma_leading_pieces(payload: Option<Seq<u8>>, updates: Seq<UpdateModel>)
    ensures
        checked_pieces(merged(payload, updates)) == leading_pieces(payload, updates) + encodings(
            updates,
        ),
        checked_pieces(merged(payload, updates)).flatten() == leading_pieces(
            payload,
            updates,
        ).flatten() + encodings(updates).flatten(),
{
    let kept = as_updates(not_updated(sections_in(payload), updates));
    lemma_encodings_concat(kept, updates);
    assert(checked_pieces(merged(payload, updates)) =~= leading_pieces(payload, updates)
        + encodings(updates));
    vstd::seq_lib::lemma_flatten_concat(leading_pieces(payload, updates), encodings(updates));
}

/// Where no data is longer than announced, what is written is no longer than counted.
pub(crate) proof fn lemma_encodings_len(updates: Seq<UpdateModel>)
    requires
        forall|i: int|
            0 <= i < updates.len() ==> (#[trigger] updates[i]).data().len() <= updates[i].size,
    ensures
        encodings(updates).flatten().len() <= stored_size(updates),
        (forall|i: int| 0 <= i < updates.len() ==> (#[trigger] updates[i]).is_honest())
            ==> encodings(updates).flatten().len() == stored_size(updates),
    decreases updates.len(),
{
    if updates.len() > 0 {
        let rest = updates.drop_last();
        assert forall|i: int| 0 <= i < rest.len() implies (#[trigger] rest[i]).data().len()
            <= rest[i].size by {
            assert(rest[i] == updates[i]);
        }
        lemma_encodings_len(rest);
        vstd::seq_lib::lemma_flatten_concat(encodings(rest), updates.last().encoding());
        lemma_encoding_len(updates.last());
        if forall|i: int| 0 <= i < updates.len() ==> (#[trigger] updates[i]).is_honest() {
            assert forall|i: int| 0 <= i < rest.len() implies (#[trigger] rest[i]).is_honest() by {
                assert(rest[i] == updates[i]);
            }
        }
    }
}

/// Sections that are written as they are have the announced sizes.
pub(crate) proof fn lemma_as_updates_honest(sections: Seq<SectionModel>)
    ensures
        forall|i: int|
            0 <= i < sections.len() ==> (#[trigger] as_updates(sections)[i]).is_honest(),
{
    assert forall|i: int| 0 <= i < sections.len() implies (#[trigger] as_updates(
        sections,
    )[i]).is_honest() by {
        seq![sections[i].data].lemma_flatten_one_element();
    }
}

/// An update that fits and can be written out has room for its whole image.
pub(crate) proof fn lemma_image_fits(
    payload: Option<Seq<u8>>,
    updates: Seq<UpdateModel>,
    capacity: int,
)
    requires
        update_fits(payload, updates, capacity),
        is_writable(payload, updates, capacity),
    ensures
        page_image(merged(payload, updates)).len() <= capacity,
{
    if forall|i: int|
        0 <= i < updates.len() ==> (#[trigger] updates[i]).data().len() <= updates[i].size {
        let kept = not_updated(sections_in(payload), updates);
        lemma_as_updates_honest(kept);
        let all = merged(payload, updates);
        assert forall|i: int| 0 <= i < all.len() implies (#[trigger] all[i]).data().len()
            <= all[i].size by {
            if i < kept.len() {
                assert(all[i] == as_updates(kept)[i]);
            } else {
                assert(all[i] == updates[i - kept.len()]);
            }
        }
        lemma_encodings_len(all);
        lemma_page_image(all);
    }
}

/// Every section that a page holds has a size that its length header can hold.
pub(crate) proof fn lemma_section_size(payload: Seq<u8>, pos: int)
    requires
        0 <= pos,
        section_at(payload, pos).0 is Some,
    ensures
        section_at(payload, pos).0->Some_0.data.len() < 0xffff,
{
}

} // verus!
