//! What holds of the persistent data as a whole

use vstd::prelude::*;
use crate::dual_page::{is_erased, Page};
use crate::fletcher16::{checksum, law_checksum_detects_changed_byte};
use crate::le_bytes::{law_le16_round_trip, law_le32_round_trip, le16_at, le16_bytes, le32_bytes};
use crate::page_format::{
    as_updates, checked_pieces, encodings, is_updated, is_updated_storage, lemma_as_updates_honest,
    lemma_encoding_len, lemma_encodings_concat, lemma_encodings_len, lemma_page_image,
    loaded_payload, merged, not_updated, page_image, page_payload, sections_from, sections_in,
    stored_size, write_target, SectionModel, MAGIC, PAGE_HEADER_SIZE, PAGE_OVERHEAD,
    SECTION_OVERHEAD,
};
use crate::section_update::UpdateModel;

verus! {

/// Whether the data of every update has the size that is announced.
pub open spec fn are_honest(updates: Seq<UpdateModel>) -> bool {
    forall|i: int| 0 <= i < updates.len() ==> (#[trigger] updates[i]).is_honest()
}

/// The sections that the updates bring.
pub open spec fn brought(updates: Seq<UpdateModel>) -> Seq<SectionModel> {
    updates.map_values(|update: UpdateModel| SectionModel { id: update.id, data: update.data() })
}

/// A page that begins with an image is valid, and its payload is the section data of the image,
/// whatever lies behind.
#[verifier::rlimit(40)]
pub proof fn law_written_page_is_valid(updates: Seq<UpdateModel>, page: Seq<u8>)
    requires
        are_honest(updates),
        stored_size(updates) <= 0xffff,
        page_image(updates).len() <= page.len(),
        page.take(page_image(updates).len() as int) == page_image(updates),
    ensures
        page_payload(page) == Some(encodings(updates).flatten()),
{
    let image = page_image(updates);
    let data = encodings(updates).flatten();
    let checked = checked_pieces(updates).flatten();
    let size = stored_size(updates);
    let end = PAGE_HEADER_SIZE + size;
    lemma_page_image(updates);
    lemma_encodings_len(updates);
    assert forall|i: int| 0 <= i < image.len() implies page[i] == image[i] by {
        assert(page.take(image.len() as int)[i] == page[i]);
    }
    assert(page.subrange(0, 4) =~= le32_bytes(MAGIC as int));
    law_le32_round_trip(page, 0, MAGIC as int);
    assert(page.subrange(4, 6) =~= le16_bytes(size));
    law_le16_round_trip(page, 4, size);
    assert(page.take(end) =~= checked);
    assert(page.subrange(end, end + 2) =~= le16_bytes(checksum(checked)));
    law_le16_round_trip(page, end, checksum(checked));
    assert(page.subrange(PAGE_HEADER_SIZE as int, end) =~= data);
}

/// Reading sections finds the updates that were written, in their order.
pub proof fn law_written_sections_read_back(updates: Seq<UpdateModel>)
    requires
        are_honest(updates),
        forall|i: int| 0 <= i < updates.len() ==> (#[trigger] updates[i]).size < 0xffff,
    ensures
        sections_from(encodings(updates).flatten(), 0) == brought(updates),
{
    lemma_sections_behind(seq![], updates);
    assert(Seq::<u8>::empty() + encodings(updates).flatten() =~= encodings(updates).flatten());
}

/// Reading from behind `head` finds the updates that were written there.
proof fn lemma_sections_behind(head: Seq<u8>, updates: Seq<UpdateModel>)
    requires
        are_honest(updates),
        forall|i: int| 0 <= i < updates.len() ==> (#[trigger] updates[i]).size < 0xffff,
    ensures
        sections_from(head + encodings(updates).flatten(), head.len() as int) == brought(updates),
    decreases updates.len(),
{
    let payload = head + encodings(updates).flatten();
    let pos = head.len() as int;
    if updates.len() == 0 {
        assert(brought(updates) =~= seq![]);
    } else {
        let first = updates[0];
        let rest = updates.skip(1);
        let one = seq![first];
        let encoded = first.encoding().flatten();
        assert(updates =~= one + rest);
        lemma_encodings_concat(one, rest);
        assert(encodings(one.drop_last()) =~= seq![]);
        assert(encodings(one) =~= first.encoding());
        vstd::seq_lib::lemma_flatten_concat(encodings(one), encodings(rest));
        lemma_encoding_len(first);
        assert(payload =~= head + encoded + encodings(rest).flatten());
        assert forall|i: int| 0 <= i < rest.len() implies (#[trigger] rest[i]).is_honest()
            && rest[i].size < 0xffff by {
            assert(rest[i] == updates[i + 1]);
        }
        lemma_sections_behind(head + encoded, rest);
        assert(first.is_honest());
        let next = pos + SECTION_OVERHEAD + first.size;
        assert(payload.subrange(pos, pos + 2) =~= le16_bytes(first.size + 1));
        law_le16_round_trip(payload, pos, first.size + 1);
        assert(payload[pos + 2] == first.id);
        assert(payload.subrange(pos + SECTION_OVERHEAD, next) =~= first.data());
        assert(brought(updates) =~= seq![brought(updates)[0]] + brought(rest));
    }
}

/// An erased page is not valid.
proof fn lemma_erased_page(page: Seq<u8>)
    requires
        is_erased(page),
    ensures
        page_payload(page) is None,
{
}

proof fn lemma_stored_size_bounds(updates: Seq<UpdateModel>, i: int)
    requires
        are_honest(updates),
        0 <= i < updates.len(),
    ensures
        0 <= updates[i].size,
        updates[i].size + SECTION_OVERHEAD <= stored_size(updates),
        0 <= stored_size(updates.drop_last()),
    decreases updates.len(),
{
    let rest = updates.drop_last();
    assert forall|j: int| 0 <= j < rest.len() implies (#[trigger] rest[j]).is_honest() by {
        assert(rest[j] == updates[j]);
    }
    assert(updates[i].is_honest());
    assert(updates.last() == updates[updates.len() - 1]);
    assert(updates.last().is_honest());
    if i < rest.len() {
        lemma_stored_size_bounds(rest, i);
        assert(rest[i] == updates[i]);
    } else if rest.len() > 0 {
        lemma_stored_size_bounds(rest, 0);
    }
}

pub(crate) proof fn lemma_merged_honest(payload: Option<Seq<u8>>, updates: Seq<UpdateModel>)
    requires
        are_honest(updates),
    ensures
        are_honest(merged(payload, updates)),
        brought(merged(payload, updates)) == not_updated(sections_in(payload), updates) + brought(
            updates,
        ),
{
    let kept = not_updated(sections_in(payload), updates);
    let all = merged(payload, updates);
    lemma_as_updates_honest(kept);
    assert forall|i: int| 0 <= i < all.len() implies (#[trigger] all[i]).is_honest() by {
        if i < kept.len() {
            assert(all[i] == as_updates(kept)[i]);
        } else {
            assert(all[i] == updates[i - kept.len()]);
        }
    }
    assert forall|i: int| 0 <= i < kept.len() implies brought(all)[i] == kept[i] by {
        seq![kept[i].data].lemma_flatten_one_element();
    }
    assert(brought(all) =~= kept + brought(updates));
}

/// What an update wrote is what is loaded next: the sections that were not updated, in their order
/// and as they were, and behind them the updates.
pub proof fn law_update_then_load(
    a: Seq<u8>,
    b: Seq<u8>,
    updates: Seq<UpdateModel>,
    a2: Seq<u8>,
    b2: Seq<u8>,
)
    requires
        is_updated_storage(a, b, updates, a2, b2),
        are_honest(updates),
        stored_size(merged(loaded_payload(a, b), updates)) <= 0xffff,
    ensures
        loaded_payload(a2, b2) is Some,
        sections_in(loaded_payload(a2, b2)) == not_updated(
            sections_in(loaded_payload(a, b)),
            updates,
        ) + brought(updates),
{
    let payload = loaded_payload(a, b);
    let all = merged(payload, updates);
    lemma_new_payload(payload, updates);
    law_written_page_is_valid(all, if write_target(a, b) == Page::A { a2 } else { b2 });
    if write_target(a, b) == Page::B {
        lemma_erased_page(a2);
    }
}

/// The sections in the image that an update writes.
proof fn lemma_new_payload(payload: Option<Seq<u8>>, updates: Seq<UpdateModel>)
    requires
        are_honest(updates),
        stored_size(merged(payload, updates)) <= 0xffff,
    ensures
        are_honest(merged(payload, updates)),
        sections_from(encodings(merged(payload, updates)).flatten(), 0) == not_updated(
            sections_in(payload),
            updates,
        ) + brought(updates),
{
    let all = merged(payload, updates);
    lemma_merged_honest(payload, updates);
    assert forall|i: int| 0 <= i < all.len() implies (#[trigger] all[i]).size < 0xffff by {
        lemma_stored_size_bounds(all, i);
    }
    law_written_sections_read_back(all);
}

/// A section that is not updated outlives an update of others.
pub proof fn law_update_keeps_other_sections(
    a: Seq<u8>,
    b: Seq<u8>,
    updates: Seq<UpdateModel>,
    a2: Seq<u8>,
    b2: Seq<u8>,
    section: SectionModel,
)
    requires
        is_updated_storage(a, b, updates, a2, b2),
        are_honest(updates),
        stored_size(merged(loaded_payload(a, b), updates)) <= 0xffff,
        !is_updated(updates, section.id),
    ensures
        sections_in(loaded_payload(a2, b2)).contains(section) <==> sections_in(
            loaded_payload(a, b),
        ).contains(section),
{
    law_update_then_load(a, b, updates, a2, b2);
    let before = sections_in(loaded_payload(a, b));
    let pred = |s: SectionModel| !is_updated(updates, s.id);
    let kept = not_updated(before, updates);
    let after = sections_in(loaded_payload(a2, b2));
    if before.contains(section) {
        let i = choose|i: int| 0 <= i < before.len() && before[i] == section;
        before.lemma_filter_contains(pred, i);
        let j = choose|j: int| 0 <= j < kept.len() && kept[j] == section;
        assert(after[j] == section);
    }
    if after.contains(section) {
        let i = choose|i: int| 0 <= i < after.len() && after[i] == section;
        if i < kept.len() {
            assert(kept.contains(section));
            before.lemma_filter_contains_rev(pred, section);
        } else {
            assert(updates[i - kept.len()].id == section.id);
        }
    }
}

/// After an update, an updated section has the new data and no other.
pub proof fn law_update_replaces_sections(
    a: Seq<u8>,
    b: Seq<u8>,
    updates: Seq<UpdateModel>,
    a2: Seq<u8>,
    b2: Seq<u8>,
    section: SectionModel,
)
    requires
        is_updated_storage(a, b, updates, a2, b2),
        are_honest(updates),
        stored_size(merged(loaded_payload(a, b), updates)) <= 0xffff,
        is_updated(updates, section.id),
    ensures
        sections_in(loaded_payload(a2, b2)).contains(section) <==> brought(updates).contains(
            section,
        ),
{
    law_update_then_load(a, b, updates, a2, b2);
    let before = sections_in(loaded_payload(a, b));
    let pred = |s: SectionModel| !is_updated(updates, s.id);
    let kept = not_updated(before, updates);
    let after = sections_in(loaded_payload(a2, b2));
    if brought(updates).contains(section) {
        let i = choose|i: int|
            0 <= i < brought(updates).len() && brought(updates)[i] == section;
        assert(after[kept.len() + i] == section);
    }
    if after.contains(section) {
        let i = choose|i: int| 0 <= i < after.len() && after[i] == section;
        if i < kept.len() {
            before.lemma_filter_pred(pred, i);
        } else {
            assert(brought(updates)[i - kept.len()] == section);
        }
    }
}

/// After an update exactly one page is valid, and the next update writes the other one.
pub proof fn law_pages_take_turns(
    a: Seq<u8>,
    b: Seq<u8>,
    updates: Seq<UpdateModel>,
    a2: Seq<u8>,
    b2: Seq<u8>,
)
    requires
        is_updated_storage(a, b, updates, a2, b2),
        are_honest(updates),
        stored_size(merged(loaded_payload(a, b), updates)) <= 0xffff,
    ensures
        page_payload(a2) is Some <==> page_payload(b2) is None,
        write_target(a2, b2) == write_target(a, b).opposite(),
{
    lemma_merged_honest(loaded_payload(a, b), updates);
    let all = merged(loaded_payload(a, b), updates);
    law_written_page_is_valid(all, if write_target(a, b) == Page::A { a2 } else { b2 });
    if loaded_payload(a, b) is Some {
        lemma_erased_page(if write_target(a, b) == Page::A { b2 } else { a2 });
    }
}

/// A single changed byte of the magic number, the section data or the checksum makes a page
/// invalid.
pub proof fn law_corrupted_page_is_not_loaded(page: Seq<u8>, i: int, byte: u8)
    requires
        page_payload(page) is Some,
        0 <= i < 4 || PAGE_HEADER_SIZE <= i < page_payload(page)->Some_0.len() + PAGE_OVERHEAD,
        byte != page[i],
    ensures
        page_payload(page.update(i, byte)) is None,
{
    let bad = page.update(i, byte);
    let end = PAGE_HEADER_SIZE + le16_at(page, 4);
    if 4 <= i < end {
        law_checksum_detects_changed_byte(page.take(end), i, byte);
        assert(bad.take(end) =~= page.take(end).update(i, byte));
    } else if end <= i {
        assert(bad.take(end) =~= page.take(end));
    }
}

/// A page is read up to its checksum: pages that agree up to there give the same, whatever lies
/// behind.
pub proof fn law_page_is_read_up_to_checksum(d: Seq<u8>, e: Seq<u8>)
    requires
        le16_at(d, 4) + PAGE_OVERHEAD <= d.len(),
        le16_at(d, 4) + PAGE_OVERHEAD <= e.len(),
        d.take(le16_at(d, 4) + PAGE_OVERHEAD) == e.take(le16_at(d, 4) + PAGE_OVERHEAD),
    ensures
        page_payload(d) == page_payload(e),
{
    let end = PAGE_HEADER_SIZE + le16_at(d, 4);
    assert forall|i: int| 0 <= i < end + 2 implies d[i] == e[i] by {
        assert(d.take(end + 2)[i] == e.take(end + 2)[i]);
    }
    assert(d.take(end) =~= e.take(end));
    assert(d.subrange(PAGE_HEADER_SIZE as int, end) =~= e.subrange(PAGE_HEADER_SIZE as int, end));
}

/// No single byte behind the checksum of a page matters.
pub proof fn law_rest_of_page_is_ignored(page: Seq<u8>, i: int, byte: u8)
    requires
        page_payload(page) is Some,
        page_payload(page)->Some_0.len() + PAGE_OVERHEAD <= i < page.len(),
    ensures
        page_payload(page.update(i, byte)) == page_payload(page),
{
    let end = le16_at(page, 4) + PAGE_OVERHEAD;
    assert(page.take(end) =~= page.update(i, byte).take(end));
    law_page_is_read_up_to_checksum(page, page.update(i, byte));
}

} // verus!
