//! What persistent data looks like byte by byte, and what becomes of it
//!
//! The laws here speak of bytes and ids themselves.

use vstd::prelude::*;
use crate::dual_page::{FlashCall, Page};
use crate::fletcher16::{checksum, law_checksum_weighs_every_byte};
use crate::le_bytes::le16_at;
use crate::page_format::{
    as_updates, checked_pieces, encodings, is_updated, is_updated_storage, is_writable,
    leading_pieces, lemma_encodings_concat, lemma_encodings_len, lemma_leading_pieces,
    lemma_page_image, lemma_stored_size_concat, loaded_payload, merged, not_updated, page_checksums,
    page_image, page_payload, page_pieces, section_at, sections_from, sections_in, stored_size,
    update_calls, update_fits, update_models, write_calls, write_target, SectionModel,
};
use crate::persist_laws::{are_honest, brought, law_update_then_load, lemma_merged_honest};
use crate::section_update::{SectionUpdate, UpdateModel};

verus! {

/// A page is valid, with this payload, exactly if it begins with the magic number, the length of
/// the payload, the payload, and the two sums over all of these bytes.
pub proof fn law_valid_page_is_laid_out(page: Seq<u8>, payload: Seq<u8>)
    ensures
        page_payload(page) == Some(payload) <==> {
            let end = 6 + payload.len() as int;
            let checked = page.take(end);
            &&& end + 2 <= page.len()
            &&& page[0] == 0xFE
            &&& page[1] == 0xCA
            &&& page[2] == 0xAA
            &&& page[3] == 0xAA
            &&& page[4] + 0x100 * page[5] == payload.len()
            &&& page.subrange(6, end) == payload
            &&& page[end] == Seq::new(checked.len(), |i: int| (end - i) * checked[i]).fold_left(
                0int,
                |sum: int, x: int| sum + x,
            ) % 0x100
            &&& page[end + 1] == checked.fold_left(0int, |sum: int, byte: u8| sum + byte) % 0x100
        },
{
    let end = 6 + payload.len() as int;
    if end + 2 <= page.len() {
        let checked = page.take(end);
        law_checksum_weighs_every_byte(checked);
        assert(Seq::new(checked.len(), |i: int| (end - i) * checked[i]) =~= Seq::new(
            checked.len(),
            |i: int| (checked.len() - i) * checked[i],
        ));
    }
    if page_payload(page) is Some {
        let whole = page_payload(page)->Some_0;
        assert(whole.len() == le16_at(page, 4));
    }
}

/// The checksum that is due is that of the bytes in front of the one that is stored, and a page is
/// valid if they are the same.
pub proof fn law_checksums_of_page(page: Seq<u8>, due: int, stored: int)
    ensures
        page_checksums(page) == Some((due, stored)) <==> {
            let end = 6 + page[4] + 0x100 * page[5];
            &&& end + 2 <= page.len()
            &&& page[0] == 0xFE
            &&& page[1] == 0xCA
            &&& page[2] == 0xAA
            &&& page[3] == 0xAA
            &&& due == checksum(page.take(end))
            &&& stored == page[end] + 0x100 * page[end + 1]
        },
        page_payload(page) is Some <==> (page_checksums(page) is Some && page_checksums(
            page,
        )->Some_0.0 == page_checksums(page)->Some_0.1),
{
}

/// A section is read where its length with the id counted in, its id and its data lie, whatever
/// lies before and behind, and reading goes on behind it.
pub proof fn law_section_is_laid_out(head: Seq<u8>, id: u8, data: Seq<u8>, tail: Seq<u8>)
    requires
        data.len() < 0xffff,
    ensures
        ({
            let n = data.len() as int + 1;
            let payload = head + seq![(n % 0x100) as u8, (n / 0x100) as u8, id] + data + tail;
            let (pos, next) = (head.len() as int, head.len() + 3 + data.len() as int);
            let section = SectionModel { id, data };
            &&& section_at(payload, pos) == (Some(section), next)
            &&& sections_from(payload, pos) == seq![section] + sections_from(payload, next)
        }),
{
    let n = data.len() as int + 1;
    let payload = head + seq![(n % 0x100) as u8, (n / 0x100) as u8, id] + data + tail;
    let (pos, next) = (head.len() as int, head.len() + 3 + data.len() as int);
    assert(payload[pos] == n % 0x100);
    assert(payload[pos + 1] == n / 0x100);
    assert(payload[pos + 2] == id);
    assert(payload.subrange(pos + 3, next) =~= data);
}

/// Reading ends where fewer bytes are left than a header takes, or than the header announces, or
/// where the header does not count the id.
pub proof fn law_reading_ends(payload: Seq<u8>, pos: int)
    requires
        0 <= pos <= payload.len(),
        payload.len() - pos < 3 || payload[pos] + 0x100 * payload[pos + 1] == 0 || payload[pos]
            + 0x100 * payload[pos + 1] > payload.len() - pos - 2,
    ensures
        section_at(payload, pos) == (
            None::<SectionModel>,
            if payload.len() - pos < 3 {
                pos
            } else {
                pos + 3
            },
        ),
        sections_from(payload, pos) == Seq::<SectionModel>::empty(),
{
}

/// Page A is in force if it is valid, and else page B. The other one is written next.
pub proof fn law_page_in_force(a: Seq<u8>, b: Seq<u8>)
    ensures
        page_payload(a) is Some ==> loaded_payload(a, b) == page_payload(a) && write_target(a, b)
            == Page::B,
        page_payload(a) is None ==> loaded_payload(a, b) == page_payload(b) && write_target(a, b)
            == Page::A,
        loaded_payload(a, b) matches Some(payload) ==> sections_in(loaded_payload(a, b))
            == sections_from(payload, 0),
        loaded_payload(a, b) is None ==> sections_in(loaded_payload(a, b))
            == Seq::<SectionModel>::empty(),
{
}

proof fn lemma_kept(sections: Seq<SectionModel>, updates: Seq<UpdateModel>)
    ensures
        not_updated(sections, updates) == sections.filter(
            |section: SectionModel|
                forall|i: int|
                    0 <= i < updates.len() ==> (#[trigger] updates[i]).id != section.id,
        ),
{
    let kept = |section: SectionModel|
        forall|i: int| 0 <= i < updates.len() ==> (#[trigger] updates[i]).id != section.id;
    assert((|section: SectionModel| !is_updated(updates, section.id)) =~= kept);
}

/// An update writes, in this order, the stored sections whose ids are not those of an update, as
/// they are, and then the updates.
pub proof fn law_update_merges(payload: Option<Seq<u8>>, updates: Seq<UpdateModel>)
    ensures
        ({
            let kept = sections_in(payload).filter(
                |section: SectionModel|
                    forall|i: int|
                        0 <= i < updates.len() ==> (#[trigger] updates[i]).id != section.id,
            );
            let all = merged(payload, updates);
            &&& all.len() == kept.len() + updates.len()
            &&& all.skip(kept.len() as int) == updates
            &&& forall|i: int|
                0 <= i < kept.len() ==> {
                    &&& (#[trigger] all[i]).id == kept[i].id
                    &&& all[i].size == kept[i].data.len()
                    &&& all[i].pieces == seq![kept[i].data]
                }
        }),
{
    lemma_kept(sections_in(payload), updates);
    let kept = not_updated(sections_in(payload), updates);
    assert(merged(payload, updates).skip(kept.len() as int) =~= updates);
}

/// The models of updates are those of each of them.
pub proof fn law_update_models(sections: Seq<SectionUpdate>)
    ensures
        update_models(sections).len() == sections.len(),
        forall|i: int|
            0 <= i < sections.len() ==> (#[trigger] update_models(sections)[i]) == sections[i]@,
{
}

/// What is loaded after an update: every stored section whose id is not that of an update, as it
/// was and in its order, and behind them the updates with their data.
pub proof fn law_update_result(
    a: Seq<u8>,
    b: Seq<u8>,
    updates: Seq<UpdateModel>,
    a2: Seq<u8>,
    b2: Seq<u8>,
)
    requires
        is_updated_storage(a, b, updates, a2, b2),
        are_honest(updates),
        stored_size(merged(loaded_payload(a, b), updates)) <= 0xffff,
    ensures
        loaded_payload(a2, b2) is Some,
        sections_in(loaded_payload(a2, b2)) == sections_in(loaded_payload(a, b)).filter(
            |section: SectionModel|
                forall|i: int|
                    0 <= i < updates.len() ==> (#[trigger] updates[i]).id != section.id,
        ) + Seq::new(
            updates.len(),
            |i: int| SectionModel { id: updates[i].id, data: updates[i].pieces.flatten() },
        ),
{
    law_update_then_load(a, b, updates, a2, b2);
    lemma_kept(sections_in(loaded_payload(a, b)), updates);
    assert(brought(updates) =~= Seq::new(
        updates.len(),
        |i: int| SectionModel { id: updates[i].id, data: updates[i].pieces.flatten() },
    ));
}

/// A section whose id differs from those of all updates is stored after the update just if it was
/// stored before, with the same data.
pub proof fn law_other_ids_survive(
    a: Seq<u8>,
    b: Seq<u8>,
    updates: Seq<UpdateModel>,
    a2: Seq<u8>,
    b2: Seq<u8>,
    section: SectionModel,
)
    requires
        is_updated_storage(a, b, updates, a2, b2),
        are_honest(updates),
        stored_size(merged(loaded_payload(a, b), updates)) <= 0xffff,
        forall|i: int| 0 <= i < updates.len() ==> (#[trigger] updates[i]).id != section.id,
    ensures
        sections_in(loaded_payload(a2, b2)).contains(section) <==> sections_in(
            loaded_payload(a, b),
        ).contains(section),
{
    crate::persist_laws::law_update_keeps_other_sections(a, b, updates, a2, b2, section);
}

/// After an update, a section with the id of an update has the data of an update with that id.
pub proof fn law_updated_ids_are_replaced(
    a: Seq<u8>,
    b: Seq<u8>,
    updates: Seq<UpdateModel>,
    a2: Seq<u8>,
    b2: Seq<u8>,
    section: SectionModel,
    k: int,
)
    requires
        is_updated_storage(a, b, updates, a2, b2),
        are_honest(updates),
        stored_size(merged(loaded_payload(a, b), updates)) <= 0xffff,
        0 <= k < updates.len(),
        updates[k].id == section.id,
    ensures
        sections_in(loaded_payload(a2, b2)).contains(section) <==> exists|i: int|
            0 <= i < updates.len() && (#[trigger] updates[i]).id == section.id
                && updates[i].pieces.flatten() == section.data,
        updates[k].pieces.flatten() == section.data ==> sections_in(
            loaded_payload(a2, b2),
        ).contains(section),
{
    crate::persist_laws::law_update_replaces_sections(a, b, updates, a2, b2, section);
    let new = brought(updates);
    if new.contains(section) {
        let i = choose|i: int| 0 <= i < new.len() && new[i] == section;
        assert(updates[i].id == section.id);
    }
    assert forall|i: int|
        0 <= i < updates.len() && (#[trigger] updates[i]).id == section.id
            && updates[i].pieces.flatten() == section.data implies new.contains(section) by {
        assert(new[i] == section);
    }
}

/// What an update does to the page that it does not write: erases it if something was in force, and
/// else leaves it alone.
pub proof fn law_page_that_is_not_written(
    a: Seq<u8>,
    b: Seq<u8>,
    updates: Seq<UpdateModel>,
    a2: Seq<u8>,
    b2: Seq<u8>,
)
    requires
        is_updated_storage(a, b, updates, a2, b2),
    ensures
        a2.len() == a.len(),
        b2.len() == b.len(),
        page_payload(a) is Some ==> a2 == Seq::new(a.len(), |i: int| 0xffu8),
        page_payload(a) is None && page_payload(b) is Some ==> b2 == Seq::new(
            b.len(),
            |i: int| 0xffu8,
        ),
        page_payload(a) is None && page_payload(b) is None ==> b2 == b,
        ({
            let image = page_image(merged(loaded_payload(a, b), updates));
            let target = if page_payload(a) is Some {
                b2
            } else {
                a2
            };
            image.len() <= target.len() && target.take(image.len() as int) == image
        }),
{
    if page_payload(a) is Some {
        assert(a2 =~= Seq::new(a.len(), |i: int| 0xffu8));
    } else if page_payload(b) is Some {
        assert(b2 =~= Seq::new(b.len(), |i: int| 0xffu8));
    }
}

/// What updates take is 3 bytes for each of them and the announced sizes.
pub proof fn law_stored_size_is_a_sum(updates: Seq<UpdateModel>)
    ensures
        stored_size(updates) == updates.fold_left(
            0int,
            |sum: int, update: UpdateModel| sum + update.size + 3,
        ),
    decreases updates.len(),
{
    if updates.len() > 0 {
        law_stored_size_is_a_sum(updates.drop_last());
    }
}

proof fn lemma_kept_size(kept: Seq<SectionModel>)
    ensures
        stored_size(as_updates(kept)) == kept.fold_left(
            0int,
            |sum: int, section: SectionModel| sum + section.data.len() + 3,
        ),
    decreases kept.len(),
{
    if kept.len() > 0 {
        lemma_kept_size(kept.drop_last());
        assert(as_updates(kept).drop_last() =~= as_updates(kept.drop_last()));
    }
}

/// An update fits exactly if the data of the sections that are kept, the announced sizes of the
/// updates, 3 bytes for each of them, and 8 bytes are together no more than the page takes.
pub proof fn law_update_fits_if_there_is_room(
    payload: Option<Seq<u8>>,
    updates: Seq<UpdateModel>,
    capacity: int,
)
    ensures
        update_fits(payload, updates, capacity) <==> {
            let kept = sections_in(payload).filter(
                |section: SectionModel|
                    forall|i: int|
                        0 <= i < updates.len() ==> (#[trigger] updates[i]).id != section.id,
            );
            kept.fold_left(0int, |sum: int, section: SectionModel| sum + section.data.len() + 3)
                + updates.fold_left(0int, |sum: int, update: UpdateModel| sum + update.size + 3) + 8
                <= capacity
        },
{
    lemma_kept(sections_in(payload), updates);
    let kept = not_updated(sections_in(payload), updates);
    lemma_kept_size(kept);
    law_stored_size_is_a_sum(updates);
    lemma_stored_size_concat(as_updates(kept), updates);
}

/// An update whose data has the announced sizes fits exactly if all that is written fits.
pub proof fn law_honest_update_fits_if_its_image_does(
    payload: Option<Seq<u8>>,
    updates: Seq<UpdateModel>,
    capacity: int,
)
    requires
        are_honest(updates),
    ensures
        update_fits(payload, updates, capacity) <==> page_image(merged(payload, updates)).len()
            <= capacity,
{
    lemma_merged_honest(payload, updates);
    lemma_encodings_len(merged(payload, updates));
    lemma_page_image(merged(payload, updates));
}

/// An update is fit to be written if no size wraps around in its length header and no data is
/// longer than announced.
pub proof fn law_honest_updates_are_writable(
    payload: Option<Seq<u8>>,
    updates: Seq<UpdateModel>,
    capacity: int,
)
    requires
        forall|i: int|
            0 <= i < updates.len() ==> (#[trigger] updates[i]).size % 0x1_0000 != 0xffff,
        (forall|i: int|
            0 <= i < updates.len() ==> (#[trigger] updates[i]).pieces.flatten().len()
                <= updates[i].size) || page_image(merged(payload, updates)).len() <= capacity,
    ensures
        is_writable(payload, updates, capacity),
{
    if !(page_image(merged(payload, updates)).len() <= capacity) {
        assert forall|i: int| 0 <= i < updates.len() implies (#[trigger] updates[i]).data().len()
            <= updates[i].size by {
            assert(updates[i].pieces.flatten().len() <= updates[i].size);
        }
    }
}

/// What is written for updates is what is written for each of them, in their order.
pub proof fn law_encodings_are_in_order(
    x: Seq<UpdateModel>,
    update: UpdateModel,
    y: Seq<UpdateModel>,
)
    ensures
        encodings(x + seq![update] + y) == encodings(x) + update.encoding() + encodings(y),
        encodings(Seq::<UpdateModel>::empty()) == Seq::<Seq<u8>>::empty(),
{
    lemma_encodings_concat(x + seq![update], y);
    lemma_encodings_concat(x, seq![update]);
    assert(encodings(seq![update].drop_last()) =~= seq![]);
    assert(encodings(seq![update]) =~= update.encoding());
}

/// What is written to a page, piece by piece: the magic number, what all updates take, the updates,
/// and the two sums over all of these bytes.
pub proof fn law_page_pieces(updates: Seq<UpdateModel>)
    requires
        0 <= stored_size(updates),
    ensures
        ({
            let pieces = page_pieces(updates);
            let last = pieces.len() - 1;
            let checked = pieces.take(last).flatten();
            let size = updates.fold_left(
                0int,
                |sum: int, update: UpdateModel| sum + update.size + 3,
            );
            &&& pieces.len() == encodings(updates).len() + 3
            &&& pieces[0] == seq![0xFEu8, 0xCAu8, 0xAAu8, 0xAAu8]
            &&& pieces[1] == seq![(size % 0x100) as u8, (size / 0x100 % 0x100) as u8]
            &&& pieces.subrange(2, last) == encodings(updates)
            &&& pieces[last] == seq![
                (Seq::new(checked.len(), |i: int| (checked.len() - i) * checked[i]).fold_left(
                    0int,
                    |sum: int, x: int| sum + x,
                ) % 0x100) as u8,
                (checked.fold_left(0int, |sum: int, byte: u8| sum + byte) % 0x100) as u8,
            ]
            &&& page_image(updates) == pieces.flatten()
        }),
{
    let pieces = page_pieces(updates);
    let last = pieces.len() - 1;
    let size = stored_size(updates);
    law_stored_size_is_a_sum(updates);
    assert(pieces.take(last) =~= checked_pieces(updates));
    let checked = pieces.take(last).flatten();
    law_checksum_weighs_every_byte(checked);
    assert(pieces[0] =~= seq![0xFEu8, 0xCAu8, 0xAAu8, 0xAAu8]);
    assert(size % 0x1_0000 % 0x100 == size % 0x100);
    assert(size % 0x1_0000 / 0x100 % 0x100 == size / 0x100 % 0x100);
    assert(pieces[1] =~= seq![(size % 0x100) as u8, (size / 0x100 % 0x100) as u8]);
    assert(pieces.subrange(2, last) =~= encodings(updates));
}

/// What is written before the new sections is what all that is written begins with.
pub proof fn law_leading_pieces_lead(payload: Option<Seq<u8>>, updates: Seq<UpdateModel>)
    ensures
        ({
            let (lead, pieces) = (
                leading_pieces(payload, updates),
                page_pieces(merged(payload, updates)),
            );
            &&& lead.len() + encodings(updates).len() + 1 == pieces.len()
            &&& pieces.take(lead.len() as int) == lead
        }),
{
    lemma_leading_pieces(payload, updates);
    assert(page_pieces(merged(payload, updates)).take(
        leading_pieces(payload, updates).len() as int,
    ) =~= leading_pieces(payload, updates));
}

/// The calls of an update: the page that is not in force is erased, everything is written to it in
/// order, it is flushed, and only then the page in force, if there is one, is erased.
pub proof fn law_order_of_update_calls(a: Seq<u8>, b: Seq<u8>, updates: Seq<UpdateModel>)
    ensures
        ({
            let calls = update_calls(a, b, updates);
            let pieces = page_pieces(merged(loaded_payload(a, b), updates));
            let n = pieces.len() as int;
            let (target, other) = if page_payload(a) is Some {
                (Page::B, Page::A)
            } else {
                (Page::A, Page::B)
            };
            let in_force = page_payload(a) is Some || page_payload(b) is Some;
            &&& calls.len() == n + if in_force {
                3int
            } else {
                2int
            }
            &&& calls[0] == FlashCall::Erase(target)
            &&& forall|i: int|
                0 <= i < n ==> calls[i + 1] == FlashCall::Write(#[trigger] pieces[i])
            &&& calls[n + 1] == FlashCall::Flush
            &&& in_force ==> calls[n + 2] == FlashCall::Erase(other)
        }),
{
    let pieces = page_pieces(merged(loaded_payload(a, b), updates));
    let calls = update_calls(a, b, updates);
    assert forall|i: int| 0 <= i < pieces.len() implies calls[i + 1] == FlashCall::Write(
        #[trigger] pieces[i],
    ) by {
        assert(calls[i + 1] == write_calls(pieces)[i]);
    }
}

} // verus!
