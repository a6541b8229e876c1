//! Implement persistent data storage using two mirrored regions of flash to prevent data loss on
//! interrupted writes
//!
//! The flash interface is provided by a driver which implements the [`DualPageFlash`] trait.

use vstd::prelude::*;
use vstd::slice::{slice_subrange, slice_to_vec};
use crate::dual_page::{is_erased, DualPageFlash, FlashCall, Page};
use crate::fletcher16::{checksum, law_push_extends_checksum, law_push_in_pieces, Fletcher16};
use crate::le_bytes::{
    le16_at, le16_bytes, le32_bytes, read_le16, read_le32, split_le16, split_le32,
};
use crate::page_format::{
    as_updates, checked_pieces, encodings, is_updated, is_updated_storage, is_writable,
    leading_pieces, lemma_as_updates_honest, lemma_encoding_len, lemma_encodings_concat,
    lemma_encodings_len, lemma_image_fits, lemma_leading_pieces, lemma_page_image,
    lemma_section_passed, lemma_section_size, lemma_stored_size_concat, loaded_payload, merged,
    not_updated, page_checksums, page_payload, section_at, sections_from, sections_in, stored_size,
    update_calls, update_fits, update_models, write_calls, write_target, SectionModel,
    CHECKSUM_SIZE, MAGIC, PAGE_HEADER_SIZE, PAGE_OVERHEAD, SECTION_OVERHEAD,
};
use crate::section_update::{
    ahead_after_short, reads_until_short, ChunkReader, SectionUpdate, UpdateModel, UpdateSource,
    READ_BUFFER_SIZE,
};

verus! {

/// Where the checksum of a page begins, the checksum that is due and the one that is stored, if the
/// page holds a valid header and is long enough
fn page_checks(data: &[u8]) -> (checks: Option<(usize, u16, u16)>)
    ensures
        match checks {
            Some((chk_offset, chk, readback_chk)) => {
                &&& page_checksums(data@) == Some((chk as int, readback_chk as int))
                &&& chk_offset == PAGE_HEADER_SIZE + le16_at(data@, 4)
            },
            None => page_checksums(data@) is None,
        },
{
    if data.len() < PAGE_HEADER_SIZE {
        return None;
    }
    if read_le32(data, 0) != MAGIC {
        return None;
    }
    let length = read_le16(data, 4) as usize;
    // The total flash section must contain length bytes + 4 byte magic + 2 byte length + 2 byte
    // checksum
    if data.len() < length + PAGE_OVERHEAD {
        return None;
    }
    let chk_offset = PAGE_HEADER_SIZE + length;
    let chk = Fletcher16::compute(slice_subrange(data, 0, chk_offset));
    let readback_chk = read_le16(data, chk_offset);
    Some((chk_offset, chk, readback_chk))
}

/// Attempt to read one of the page as a slice
///
/// The return value will be None if the page does not contain valid data with matching checksum.
///
/// The returned slice will contain just the section data, and does not include the page headers, or
/// checksum.
pub fn read_page<F: DualPageFlash>(flash: &F, page: Page) -> (payload: Option<&[u8]>)
    ensures
        match payload {
            Some(payload) => page_payload(flash.contents(page)) == Some(payload@),
            None => page_payload(flash.contents(page)) is None,
        },
{
    let data = flash.page(page);
    match page_checks(data) {
        Some((chk_offset, chk, readback_chk)) => if chk == readback_chk {
            Some(slice_subrange(data, PAGE_HEADER_SIZE, chk_offset))
        } else {
            None
        },
        None => None,
    }
}

/// The checksum that is due and the one that is stored, if a page is refused for nothing but that
/// they differ
pub fn checksum_mismatch<F: DualPageFlash>(flash: &F, page: Page) -> (mismatch: Option<(u16, u16)>)
    ensures
        match mismatch {
            Some((chk, readback_chk)) => {
                &&& page_checksums(flash.contents(page)) == Some((chk as int, readback_chk as int))
                &&& chk != readback_chk
            },
            None => page_checksums(flash.contents(page)) matches Some((due, stored)) ==> due
                == stored,
        },
{
    match page_checks(flash.page(page)) {
        Some((_, chk, readback_chk)) => if chk == readback_chk {
            None
        } else {
            Some((chk, readback_chk))
        },
        None => None,
    }
}

/// A section that was read from a page
pub struct Section<'a> {
    pub section_id: u8,
    pub data: &'a [u8],
}

impl<'a> View for Section<'a> {
    type V = SectionModel;

    open spec fn view(&self) -> SectionModel {
        SectionModel { id: self.section_id, data: self.data@ }
    }
}

/// Steps through the sections of a page
pub struct SectionIterator<'a> {
    data: &'a [u8],
    pos: usize,
}

impl<'a> SectionIterator<'a> {
    #[verifier::type_invariant]
    spec fn in_bounds(self) -> bool {
        self.pos <= self.data@.len()
    }

    /// The section data of the page.
    pub closed spec fn payload(&self) -> Seq<u8> {
        self.data@
    }

    /// How many bytes of it have been stepped over.
    pub closed spec fn position(&self) -> int {
        self.pos as int
    }

    /// All sections that are going to be found.
    pub open spec fn remaining_sections(&self) -> Seq<SectionModel> {
        sections_from(self.payload(), self.position())
    }

    pub fn new(data: &'a [u8]) -> (sections: Self)
        ensures
            sections.payload() == data@,
            sections.position() == 0,
    {
        Self { data, pos: 0 }
    }

    fn remaining(&self) -> (n: usize)
        ensures
            n == self.payload().len() - self.position(),
    {
        proof {
            use_type_invariant(self);
        }
        self.data.len() - self.pos
    }

    /// Whether the bytes that are left hold the header of a section, but not the section itself
    ///
    /// This is how the iteration ends when a section comes up too short.
    pub fn is_cut_short(&self) -> (short: bool)
        ensures
            short == {
                &&& self.payload().len() - self.position() >= SECTION_OVERHEAD
                &&& section_at(self.payload(), self.position()).0 is None
            },
    {
        proof {
            use_type_invariant(self);
        }
        if self.remaining() < SECTION_OVERHEAD {
            return false;
        }
        assert(self.data@.len() == self.data.len());
        let length = read_le16(self.data, self.pos) as usize;
        length == 0 || self.remaining() - 2 < length
    }

    /// The next section, if the bytes that are left hold one.
    ///
    /// A section whose header announces more bytes than are left ends the iteration, and so does
    /// a header whose length does not even count the section id.
    pub fn next(&mut self) -> (section: Option<Section<'a>>)
        ensures
            final(self).payload() == old(self).payload(),
            0 <= old(self).position() <= final(self).position() <= final(self).payload().len(),
            final(self).position() == section_at(old(self).payload(), old(self).position()).1,
            match section {
                Some(section) => {
                    &&& section_at(old(self).payload(), old(self).position()).0 == Some(section@)
                    &&& old(self).remaining_sections() == seq![section@]
                        + final(self).remaining_sections()
                },
                None => {
                    &&& section_at(old(self).payload(), old(self).position()).0 is None
                    &&& old(self).remaining_sections() == Seq::<SectionModel>::empty()
                },
            },
    {
        proof {
            use_type_invariant(&*self);
        }
        if self.remaining() < SECTION_OVERHEAD {
            return None;
        }
        assert(self.data@.len() == self.data.len());
        let length = read_le16(self.data, self.pos) as usize;
        let section_id = self.data[self.pos + 2];
        self.pos += SECTION_OVERHEAD;

        // the section_id we just consumed is included in this length, so account for it
        if length == 0 {
            return None;
        }
        let len = length - 1;
        if self.remaining() < len {
            return None;
        }
        let new_slice = slice_subrange(self.data, self.pos, self.pos + len);
        self.pos += len;
        Some(Section { section_id, data: new_slice })
    }
}

/// Attempt to load persistent data from the flash
///
/// It will look for a valid page, and if found, return it in the form of a [SectionIterator], which
/// allows iterating over each section contained in the page
pub fn load_sections<F: DualPageFlash>(flash: &F) -> (sections: Option<SectionIterator<'_>>)
    ensures
        match sections {
            Some(sections) => {
                &&& loaded_payload(flash.contents(Page::A), flash.contents(Page::B)) == Some(
                    sections.payload(),
                )
                &&& sections.position() == 0
            },
            None => loaded_payload(flash.contents(Page::A), flash.contents(Page::B)) is None,
        },
{
    if let Some(page) = read_page(flash, Page::A) {
        Some(SectionIterator::new(page))
    } else if let Some(page) = read_page(flash, Page::B) {
        Some(SectionIterator::new(page))
    } else {
        None
    }
}

/// Why persistent data could not be written
#[derive(Debug, PartialEq, Eq, Structural)]
pub enum PersistWriteError {
    OutOfSpace,
}

/// Whether `after` is what `before` becomes when `pieces` are written one after the other.
pub open spec fn writes_pieces<F: DualPageFlash>(
    before: F,
    after: F,
    pieces: Seq<Seq<u8>>,
) -> bool {
    before.session() matches Some((page, written)) && {
        &&& after.session() == Some((page, written + pieces.flatten()))
        &&& after.contents(page).len() == before.contents(page).len()
        &&& after.contents(page.opposite()) == before.contents(page.opposite())
        &&& after.calls() == before.calls() + write_calls(pieces)
    }
}

/// Whether there is room behind what has been written in this session for `size` more bytes.
pub open spec fn has_room<F: DualPageFlash>(flash: F, size: int) -> bool {
    flash.session() matches Some((page, written)) && written.len() + size <= flash.contents(
        page,
    ).len()
}

proof fn lemma_writes_pieces_concat<F: DualPageFlash>(
    start: F,
    middle: F,
    end: F,
    x: Seq<Seq<u8>>,
    y: Seq<Seq<u8>>,
)
    requires
        writes_pieces(start, middle, x),
        writes_pieces(middle, end, y),
    ensures
        writes_pieces(start, end, x + y),
{
    vstd::seq_lib::lemma_flatten_concat(x, y);
    let written = start.session()->Some_0.1;
    assert(written + x.flatten() + y.flatten() =~= written + (x.flatten() + y.flatten()));
    assert(write_calls(x) + write_calls(y) =~= write_calls(x + y));
    assert(start.calls() + write_calls(x) + write_calls(y) =~= start.calls() + write_calls(x + y));
}

/// Writes one piece of data and adds it to the checksum
fn write_piece<F: DualPageFlash>(flash: &mut F, check: &mut Fletcher16, piece: &[u8])
    requires
        has_room(*old(flash), piece@.len() as int),
    ensures
        writes_pieces(*old(flash), *final(flash), seq![piece@]),
        final(check).continues(*old(check), piece@),
{
    flash.write(piece);
    check.push_slice(piece);
    proof {
        seq![piece@].lemma_flatten_one_element();
        assert(old(flash).calls().push(FlashCall::Write(piece@)) =~= old(flash).calls()
            + write_calls(seq![piece@]));
    }
}

/// Writes all that `reader` gives, up to the first read that does not fill the buffer
fn write_reads<F: DualPageFlash>(flash: &mut F, check: &mut Fletcher16, reader: &mut ChunkReader)
    requires
        has_room(
            *old(flash),
            reads_until_short(old(reader).ahead()).flatten().len() as int,
        ),
    ensures
        writes_pieces(*old(flash), *final(flash), reads_until_short(old(reader).ahead())),
        final(check).continues(
            *old(check),
            reads_until_short(old(reader).ahead()).flatten(),
        ),
        final(reader).ahead() == ahead_after_short(old(reader).ahead()),
{
    let ghost all = reads_until_short(reader.ahead());
    let ghost mut done: Seq<Seq<u8>> = seq![];
    let mut buf: [u8; 32] = [0; 32];
    let mut more = true;
    proof {
        assert(all =~= done + reads_until_short(reader.ahead()));
        lemma_writes_nothing(*flash, *check);
    }
    while more
        invariant
            has_room(*old(flash), all.flatten().len() as int),
            writes_pieces(*old(flash), *flash, done),
            check.continues(*old(check), done.flatten()),
            more ==> all == done + reads_until_short(reader.ahead()),
            more ==> ahead_after_short(reader.ahead()) == ahead_after_short(old(reader).ahead()),
            !more ==> all == done,
            !more ==> reader.ahead() == ahead_after_short(old(reader).ahead()),
        decreases reader.ahead().len(), if more { 1int } else { 0int },
    {
        let ghost ahead = reader.ahead();
        let ghost (flash_before, check_before) = (*flash, *check);
        let n = reader.read(&mut buf);
        let ghost piece = buf@.take(n as int);
        proof {
            let tail = reads_until_short(ahead);
            assert(tail[0] == piece);
            assert(all =~= done + tail);
            vstd::seq_lib::lemma_flatten_concat(done, tail);
            assert(tail =~= seq![piece] + tail.skip(1));
            vstd::seq_lib::lemma_flatten_concat(seq![piece], tail.skip(1));
            seq![piece].lemma_flatten_one_element();
        }
        write_piece(flash, check, slice_subrange(buf.as_slice(), 0, n));
        proof {
            assert(buf@.subrange(0, n as int) =~= piece);
            lemma_writes_pieces_concat(*old(flash), flash_before, *flash, done, seq![piece]);
            vstd::seq_lib::lemma_flatten_concat(done, seq![piece]);
            law_push_in_pieces(*old(check), check_before, *check, done.flatten(), piece);
            done = done + seq![piece];
        }
        if n < READ_BUFFER_SIZE {
            more = false;
        } else {
            assert(reads_until_short(ahead) == seq![piece] + reads_until_short(ahead.skip(1)));
            assert(all =~= done + reads_until_short(reader.ahead()));
        }
    }
}

proof fn lemma_writes_nothing<F: DualPageFlash>(flash: F, check: Fletcher16)
    requires
        flash.session() is Some,
    ensures
        writes_pieces(flash, flash, seq![]),
        check.continues(check, Seq::<Seq<u8>>::empty().flatten()),
{
    reveal(Fletcher16::continues);
    let written = flash.session()->Some_0.1;
    assert(written + Seq::<Seq<u8>>::empty().flatten() =~= written);
    assert(flash.calls() + write_calls(seq![]) =~= flash.calls());
}

/// Writes what precedes the data of a section
fn write_section_header<F: DualPageFlash>(
    flash: &mut F,
    check: &mut Fletcher16,
    section_size: u16,
    section_id: u8,
)
    requires
        has_room(*old(flash), SECTION_OVERHEAD as int),
    ensures
        ({
            let pieces = seq![le16_bytes(section_size as int), seq![section_id]];
            &&& writes_pieces(*old(flash), *final(flash), pieces)
            &&& final(check).continues(*old(check), pieces.flatten())
            &&& pieces.flatten().len() == SECTION_OVERHEAD
        }),
{
    let ghost size = le16_bytes(section_size as int);
    let ghost id = seq![section_id];
    proof {
        assert(seq![size, id] =~= seq![size] + seq![id]);
        vstd::seq_lib::lemma_flatten_concat(seq![size], seq![id]);
        seq![size].lemma_flatten_one_element();
        seq![id].lemma_flatten_one_element();
    }
    let size_bytes: [u8; 2] = split_le16(section_size);
    write_piece(flash, check, size_bytes.as_slice());
    let ghost (flash1, check1) = (*flash, *check);
    let id_bytes: [u8; 1] = [section_id];
    assert(id_bytes@ =~= id);
    write_piece(flash, check, id_bytes.as_slice());
    proof {
        lemma_writes_pieces_concat(*old(flash), flash1, *flash, seq![size], seq![id]);
        law_push_in_pieces(*old(check), check1, *check, size, id);
    }
}

/// Writes the data of a section
fn write_section_data<F: DualPageFlash>(
    flash: &mut F,
    check: &mut Fletcher16,
    data: &mut UpdateSource,
)
    requires
        has_room(*old(flash), old(data).pieces().flatten().len() as int),
    ensures
        writes_pieces(*old(flash), *final(flash), old(data).pieces()),
        final(check).continues(*old(check), old(data).pieces().flatten()),
        old(data).taken(*final(data)),
{
    match data {
        UpdateSource::Slice(slice) => {
            proof {
                seq![slice@].lemma_flatten_one_element();
            }
            write_piece(flash, check, *slice);
        },
        UpdateSource::Reader((reader, _)) => {
            write_reads(flash, check, reader);
        },
    }
}

/// The length header of a section with this much data: it counts the section id, and wraps around
fn length_header(len: usize) -> (header: u16)
    requires
        len % 0x1_0000 != 0xffff,
    ensures
        header == (len + 1) % 0x1_0000,
        header == len % 0x1_0000 + 1,
{
    (len % 0x1_0000) as u16 + 1
}

/// Writes one section: its length header, its id and its data, all of which is also added to the
/// checksum
///
/// Returns the number of bytes that the section takes if its data has the announced size.
pub fn write_section<F: DualPageFlash>(
    flash: &mut F,
    check: &mut Fletcher16,
    section: &mut SectionUpdate,
) -> (n: usize)
    requires
        old(section)@.size % 0x1_0000 != 0xffff,
        has_room(*old(flash), old(section)@.encoding().flatten().len() as int),
    ensures
        n == old(section)@.size % 0x1_0000 + SECTION_OVERHEAD,
        writes_pieces(*old(flash), *final(flash), old(section)@.encoding()),
        final(check).continues(*old(check), old(section)@.encoding().flatten()),
        final(section).section_id == old(section).section_id,
        old(section).data.taken(final(section).data),
{
    // Each section contains a single type byte, and the content
    let section_size = length_header(section.data.len());
    let ghost head = seq![le16_bytes(section_size as int), seq![section.section_id]];
    let ghost body = section.data.pieces();
    proof {
        lemma_encoding_len(section@);
        vstd::seq_lib::lemma_flatten_concat(head, body);
        assert(section@.encoding() == head + body);
    }
    write_section_header(flash, check, section_size, section.section_id);
    let ghost (flash1, check1) = (*flash, *check);
    write_section_data(flash, check, &mut section.data);
    proof {
        lemma_writes_pieces_concat(*old(flash), flash1, *flash, head, body);
        law_push_in_pieces(*old(check), check1, *check, head.flatten(), body.flatten());
    }
    // We wrote 2 bytes length header, plus the section data
    section_size as usize + 2
}

/// All that is written for one section, piece by piece: its length header, its id and its data
///
/// The number of bytes that the section takes, if its data has the announced size, comes with it.
pub fn section_pieces(section: &mut SectionUpdate) -> (pieces: (Vec<Vec<u8>>, usize))
    requires
        old(section)@.size % 0x1_0000 != 0xffff,
    ensures
        pieces.0@.map_values(|piece: Vec<u8>| piece@) == old(section)@.encoding(),
        pieces.1 == old(section)@.size % 0x1_0000 + SECTION_OVERHEAD,
        is_taken(*old(section), *final(section)),
{
    let section_size = length_header(section.data.len());
    let size_bytes: [u8; 2] = split_le16(section_size);
    let id_bytes: [u8; 1] = [section.section_id];
    let mut pieces: Vec<Vec<u8>> = Vec::new();
    pieces.push(slice_to_vec(size_bytes.as_slice()));
    pieces.push(slice_to_vec(id_bytes.as_slice()));
    let ghost head = seq![le16_bytes(section_size as int), seq![section.section_id]];
    assert(id_bytes@ =~= head[1]);
    assert(pieces@.map_values(|piece: Vec<u8>| piece@) =~= head);
    match &mut section.data {
        UpdateSource::Slice(slice) => {
            pieces.push(slice_to_vec(*slice));
        },
        UpdateSource::Reader((reader, _)) => {
            push_reads(&mut pieces, reader);
        },
    }
    assert(pieces@.map_values(|piece: Vec<u8>| piece@) =~= old(section)@.encoding());
    (pieces, section_size as usize + 2)
}

/// Adds all that `reader` gives, up to the first read that does not fill the buffer
fn push_reads(pieces: &mut Vec<Vec<u8>>, reader: &mut ChunkReader)
    ensures
        final(pieces)@.map_values(|piece: Vec<u8>| piece@) == old(pieces)@.map_values(
            |piece: Vec<u8>| piece@,
        ) + reads_until_short(old(reader).ahead()),
        final(reader).ahead() == ahead_after_short(old(reader).ahead()),
{
    let ghost start = pieces@.map_values(|piece: Vec<u8>| piece@);
    let ghost all = reads_until_short(reader.ahead());
    let ghost mut done: Seq<Seq<u8>> = seq![];
    let mut buf: [u8; 32] = [0; 32];
    let mut more = true;
    assert(all =~= done + reads_until_short(reader.ahead()));
    assert(start =~= start + done);
    while more
        invariant
            pieces@.map_values(|piece: Vec<u8>| piece@) == start + done,
            more ==> all == done + reads_until_short(reader.ahead()),
            more ==> ahead_after_short(reader.ahead()) == ahead_after_short(old(reader).ahead()),
            !more ==> all == done,
            !more ==> reader.ahead() == ahead_after_short(old(reader).ahead()),
        decreases reader.ahead().len(), if more { 1int } else { 0int },
    {
        let ghost ahead = reader.ahead();
        let ghost before = pieces@;
        let n = reader.read(&mut buf);
        let ghost piece = buf@.take(n as int);
        pieces.push(slice_to_vec(slice_subrange(buf.as_slice(), 0, n)));
        proof {
            assert(reads_until_short(ahead)[0] == piece);
            assert(buf@.subrange(0, n as int) =~= piece);
            assert(pieces@.map_values(|piece: Vec<u8>| piece@) =~= before.map_values(
                |piece: Vec<u8>| piece@,
            ).push(piece));
            assert(start + done.push(piece) =~= (start + done).push(piece));
            done = done.push(piece);
        }
        if n < READ_BUFFER_SIZE {
            more = false;
            assert(all =~= done);
        } else {
            assert(all =~= done + reads_until_short(reader.ahead()));
        }
    }
}

/// Whether one of the updates is for the section `id`
fn updates_section(sections: &[SectionUpdate], id: u8) -> (found: bool)
    ensures
        found == is_updated(update_models(sections@), id),
{
    let mut i: usize = 0;
    while i < sections.len()
        invariant
            i <= sections.len(),
            forall|j: int| 0 <= j < i ==> (#[trigger] sections@[j]).section_id != id,
        decreases sections.len() - i,
    {
        if sections[i].section_id == id {
            assert(update_models(sections@)[i as int].id == id);
            return true;
        }
        i += 1;
    }
    false
}

/// Figure out how many bytes we will be copying over from existing flash
fn kept_size(existing: &[u8], sections: &[SectionUpdate]) -> (size: usize)
    ensures
        size == stored_size(
            as_updates(not_updated(sections_from(existing@, 0), update_models(sections@))),
        ),
        size <= existing@.len(),
{
    let ghost updates = update_models(sections@);
    let mut copy_bytes: usize = 0;
    let mut existing_sections = SectionIterator::new(existing);
    let ghost mut passed: Seq<SectionModel> = seq![];
    proof {
        assert(passed + sections_from(existing@, 0) =~= sections_from(existing@, 0));
        reveal(Seq::filter);
    }
    loop
        invariant_except_break
            sections_from(existing@, 0) == passed + sections_from(
                existing@,
                existing_sections.position(),
            ),
            0 <= existing_sections.position() <= existing@.len(),
            copy_bytes <= existing_sections.position(),
        invariant
            updates == update_models(sections@),
            existing_sections.payload() == existing@,
            copy_bytes == stored_size(as_updates(not_updated(passed, updates))),
            copy_bytes <= existing@.len(),
        ensures
            sections_from(existing@, 0) == passed,
        decreases existing@.len() - existing_sections.position(),
    {
        let ghost pos = existing_sections.position();
        match existing_sections.next() {
            None => {
                assert(passed + sections_from(existing@, pos) =~= passed);
                break;
            },
            Some(section) => {
                proof {
                    lemma_section_passed(existing@, updates, passed, pos);
                    let kept = as_updates(not_updated(passed, updates));
                    assert(kept.push(section@.as_update()).drop_last() =~= kept);
                    passed = passed.push(section@);
                }
                // Skip any sections we are currently updating
                if !updates_section(sections, section.section_id) {
                    // +1 for the section id, +2 for the length header
                    copy_bytes += section.data.len() + SECTION_OVERHEAD;
                }
            },
        }
    }
    copy_bytes
}

/// Adds up the announced sizes of the updates and their headers, as far as a `usize` can count
fn updates_size(sections: &[SectionUpdate]) -> (size: usize)
    ensures
        size == if stored_size(update_models(sections@)) <= usize::MAX {
            stored_size(update_models(sections@))
        } else {
            usize::MAX as int
        },
{
    let ghost updates = update_models(sections@);
    let mut write_bytes: usize = 0;
    let mut i: usize = 0;
    while i < sections.len()
        invariant
            i <= sections.len(),
            updates == update_models(sections@),
            write_bytes == if stored_size(updates.take(i as int)) <= usize::MAX {
                stored_size(updates.take(i as int))
            } else {
                usize::MAX as int
            },
        decreases sections.len() - i,
    {
        assert(updates.take(i + 1).drop_last() =~= updates.take(i as int));
        write_bytes = write_bytes.saturating_add(sections[i].data.len()).saturating_add(
            SECTION_OVERHEAD,
        );
        i += 1;
    }
    assert(updates.take(i as int) =~= updates);
    write_bytes
}

/// What an update is going to write, and where
pub struct UpdatePlan {
    /// The page to write
    pub write_page: Page,
    /// The section data that is in force
    pub existing: Option<Vec<u8>>,
    /// Total write len, not including top-level headers and checksum at the end
    pub payload_len: usize,
}

/// Finds out where an update goes and whether it fits there
///
/// An update whose size is beyond all counting is out of space as well.
pub fn plan_update<F: DualPageFlash>(flash: &F, sections: &[SectionUpdate]) -> (plan: Result<
    UpdatePlan,
    PersistWriteError,
>)
    ensures
        ({
            let (a, b) = (flash.contents(Page::A), flash.contents(Page::B));
            let payload = loaded_payload(a, b);
            let updates = update_models(sections@);
            let capacity = flash.contents(write_target(a, b)).len() as int;
            match plan {
                Ok(plan) => {
                    &&& update_fits(payload, updates, capacity)
                    &&& plan.write_page == write_target(a, b)
                    &&& plan.payload_len == stored_size(merged(payload, updates))
                    &&& match plan.existing {
                        Some(existing) => payload == Some(existing@),
                        None => payload is None,
                    }
                },
                Err(PersistWriteError::OutOfSpace) => !update_fits(payload, updates, capacity),
            }
        }),
{
    let ghost updates = update_models(sections@);
    let (write_page, existing): (Page, Option<Vec<u8>>) = if let Some(page_a) = read_page(
        flash,
        Page::A,
    ) {
        (Page::B, Some(slice_to_vec(page_a)))
    } else if let Some(page_b) = read_page(flash, Page::B) {
        (Page::A, Some(slice_to_vec(page_b)))
    } else {
        (Page::A, None)
    };
    let copy_bytes = match &existing {
        Some(existing) => kept_size(existing.as_slice(), sections),
        None => 0,
    };
    let write_bytes = updates_size(sections);
    proof {
        let payload = loaded_payload(flash.contents(Page::A), flash.contents(Page::B));
        let kept = as_updates(not_updated(sections_in(payload), updates));
        lemma_stored_size_concat(kept, updates);
        reveal(Seq::filter);
    }
    let payload_len = copy_bytes.saturating_add(write_bytes);
    let capacity = flash.page(write_page).len();
    if capacity < PAGE_OVERHEAD || payload_len > capacity - PAGE_OVERHEAD {
        return Err(PersistWriteError::OutOfSpace);
    }
    Ok(UpdatePlan { write_page, existing, payload_len })
}

/// Copies the sections that are kept
fn write_kept<F: DualPageFlash>(
    flash: &mut F,
    check: &mut Fletcher16,
    existing: &[u8],
    sections: &[SectionUpdate],
)
    requires
        has_room(
            *old(flash),
            encodings(
                as_updates(not_updated(sections_from(existing@, 0), update_models(sections@))),
            ).flatten().len() as int,
        ),
    ensures
        ({
            let pieces = encodings(
                as_updates(not_updated(sections_from(existing@, 0), update_models(sections@))),
            );
            &&& writes_pieces(*old(flash), *final(flash), pieces)
            &&& final(check).continues(*old(check), pieces.flatten())
        }),
{
    let ghost updates = update_models(sections@);
    let ghost all = as_updates(not_updated(sections_from(existing@, 0), updates));
    let mut existing_sections = SectionIterator::new(existing);
    let ghost mut passed: Seq<SectionModel> = seq![];
    proof {
        assert(passed + sections_from(existing@, 0) =~= sections_from(existing@, 0));
        reveal(Seq::filter);
        assert(as_updates(not_updated(passed, updates)) =~= seq![]);
        lemma_writes_nothing(*flash, *check);
    }
    loop
        invariant_except_break
            sections_from(existing@, 0) == passed + sections_from(
                existing@,
                existing_sections.position(),
            ),
            0 <= existing_sections.position() <= existing@.len(),
        invariant
            updates == update_models(sections@),
            all == as_updates(not_updated(sections_from(existing@, 0), updates)),
            existing_sections.payload() == existing@,
            has_room(*old(flash), encodings(all).flatten().len() as int),
            writes_pieces(
                *old(flash),
                *flash,
                encodings(as_updates(not_updated(passed, updates))),
            ),
            check.continues(
                *old(check),
                encodings(as_updates(not_updated(passed, updates))).flatten(),
            ),
        ensures
            sections_from(existing@, 0) == passed,
        decreases existing@.len() - existing_sections.position(),
    {
        let ghost pos = existing_sections.position();
        match existing_sections.next() {
            None => {
                assert(passed + sections_from(existing@, pos) =~= passed);
                break;
            },
            Some(section) => {
                let ghost update = section@.as_update();
                let ghost kept = as_updates(not_updated(passed, updates));
                proof {
                    lemma_section_passed(existing@, updates, passed, pos);
                    lemma_section_size(existing@, pos);
                    passed = passed.push(section@);
                }
                // Skip any sections we are currently updating
                if !updates_section(sections, section.section_id) {
                    let ghost (flash_before, check_before) = (*flash, *check);
                    proof {
                        let rest = sections_from(existing@, existing_sections.position());
                        let pred = |s: SectionModel| !is_updated(updates, s.id);
                        Seq::filter_distributes_over_add(passed, rest, pred);
                        assert(all =~= kept.push(update) + as_updates(not_updated(rest, updates)));
                        lemma_encodings_concat(
                            kept.push(update),
                            as_updates(not_updated(rest, updates)),
                        );
                        assert(kept.push(update).drop_last() =~= kept);
                        vstd::seq_lib::lemma_flatten_concat(
                            encodings(kept.push(update)),
                            encodings(as_updates(not_updated(rest, updates))),
                        );
                        vstd::seq_lib::lemma_flatten_concat(encodings(kept), update.encoding());
                    }
                    let mut copy = SectionUpdate {
                        section_id: section.section_id,
                        data: UpdateSource::Slice(section.data),
                    };
                    assert(copy@ == update);
                    write_section(flash, check, &mut copy);
                    proof {
                        lemma_writes_pieces_concat(
                            *old(flash),
                            flash_before,
                            *flash,
                            encodings(kept),
                            update.encoding(),
                        );
                        law_push_in_pieces(
                            *old(check),
                            check_before,
                            *check,
                            encodings(kept).flatten(),
                            update.encoding().flatten(),
                        );
                    }
                }
            },
        }
    }
}

/// Whether `after` is what is left of the update once its data has been written.
pub open spec fn is_taken<'a>(before: SectionUpdate<'a>, after: SectionUpdate<'a>) -> bool {
    &&& after.section_id == before.section_id
    &&& before.data.taken(after.data)
}

/// Whether `after` is what is left of the updates once their data has been written.
pub open spec fn are_taken<'a>(
    before: Seq<SectionUpdate<'a>>,
    after: Seq<SectionUpdate<'a>>,
) -> bool {
    &&& after.len() == before.len()
    &&& forall|i: int| 0 <= i < before.len() ==> is_taken(#[trigger] before[i], after[i])
}

/// An update that is being written
pub struct UpdateProgress {
    check: Fletcher16,
    write_page: Page,
    replaces: bool,
    written: usize,
    capacity: usize,
}

impl UpdateProgress {
    /// The page that is being written.
    pub closed spec fn page(&self) -> Page {
        self.write_page
    }

    /// Whether the other page is in force so far.
    pub closed spec fn is_replacement(&self) -> bool {
        self.replaces
    }

    /// The checksum of all that has been written.
    pub closed spec fn checksum_so_far(&self) -> Fletcher16 {
        self.check
    }

    /// The number of bytes that have been written.
    pub closed spec fn written_len(&self) -> int {
        self.written as int
    }

    /// The number of bytes that the page takes.
    pub closed spec fn page_len(&self) -> int {
        self.capacity as int
    }

    /// Whether this is how far the update has come on `flash`.
    pub open spec fn is_in_step<F: DualPageFlash>(&self, flash: F) -> bool {
        flash.session() matches Some((page, image)) && {
            &&& page == self.page()
            &&& self.checksum_so_far().covers(image)
            &&& self.written_len() == image.len()
            &&& self.page_len() == flash.contents(page).len()
        }
    }

    /// Whether `after` is the same update, further on.
    pub open spec fn goes_on(&self, after: Self) -> bool {
        &&& after.page() == self.page()
        &&& after.is_replacement() == self.is_replacement()
        &&& after.page_len() == self.page_len()
    }

    /// Whether the section has a size that its length header can hold, and fits behind what has
    /// been written.
    pub open spec fn takes(&self, section: UpdateModel) -> bool {
        &&& section.size % 0x1_0000 != 0xffff
        &&& self.written_len() + section.encoding().flatten().len() <= self.page_len()
    }

    /// Whether [`write_section`](Self::write_section) may be called
    pub fn can_write_section(&self, section: &SectionUpdate) -> (ok: bool)
        ensures
            ok == self.takes(section@),
    {
        proof {
            lemma_encoding_len(section@);
        }
        if section.data.len() % 0x1_0000 == 0xffff {
            return false;
        }
        match section.data.data_len() {
            None => false,
            Some(len) => self.written <= self.capacity && SECTION_OVERHEAD <= self.capacity
                - self.written && len <= self.capacity - self.written - SECTION_OVERHEAD,
        }
    }

    /// Writes the next new section
    pub fn write_section<F: DualPageFlash>(&mut self, flash: &mut F, section: &mut SectionUpdate)
        requires
            old(self).is_in_step(*old(flash)),
            old(self).takes(old(section)@),
        ensures
            final(self).is_in_step(*final(flash)),
            old(self).goes_on(*final(self)),
            writes_pieces(*old(flash), *final(flash), old(section)@.encoding()),
            is_taken(*old(section), *final(section)),
    {
        proof {
            lemma_encoding_len(section@);
        }
        let ghost image = flash.session()->Some_0.1;
        let ghost encoded = section@.encoding().flatten();
        if let Some(len) = section.data.data_len() {
            self.written += len + SECTION_OVERHEAD;
        }
        let ghost check_before = self.check;
        write_section(flash, &mut self.check, section);
        proof {
            law_push_extends_checksum(check_before, self.check, image, encoded);
        }
    }

    /// Whether [`finish`](Self::finish) may be called
    pub fn can_finish(&self) -> (ok: bool)
        ensures
            ok == (self.written_len() + CHECKSUM_SIZE <= self.page_len()),
    {
        CHECKSUM_SIZE <= self.capacity && self.written <= self.capacity - CHECKSUM_SIZE
    }

    /// Completes the page that is being written, and then erases the one that it replaces
    pub fn finish<F: DualPageFlash>(self, flash: &mut F)
        requires
            self.is_in_step(*old(flash)),
            self.written_len() + CHECKSUM_SIZE <= self.page_len(),
        ensures
            ({
                let (page, image) = old(flash).session()->Some_0;
                let check = le16_bytes(checksum(image));
                let other = page.opposite();
                let (before, after) = (*old(flash), *final(flash));
                let completed = seq![FlashCall::Write(check), FlashCall::Flush];
                &&& after.contents(page).len() == before.contents(page).len()
                &&& after.contents(page).take(image.len() + CHECKSUM_SIZE) == image + check
                &&& after.contents(other).len() == before.contents(other).len()
                &&& if self.is_replacement() {
                    &&& is_erased(after.contents(other))
                    &&& after.session() == Some((other, Seq::<u8>::empty()))
                    &&& after.calls() == before.calls() + completed.push(FlashCall::Erase(other))
                } else {
                    &&& after.contents(other) == before.contents(other)
                    &&& after.session() is None
                    &&& after.calls() == before.calls() + completed
                }
            }),
    {
        let chksum = self.check.value();
        let chksum_bytes: [u8; 2] = split_le16(chksum);
        flash.write(chksum_bytes.as_slice());
        flash.flush();

        if self.replaces {
            // Erase the old page
            flash.erase_page(self.write_page.other());
        }
    }
}

/// Begins an update: erases the page that is not in force, and writes all that precedes the new
/// sections
///
/// Only the ids and the announced sizes of `sections` count.
pub fn begin_update<F: DualPageFlash>(
    flash: &mut F,
    sections: &[SectionUpdate],
) -> (progress: Result<UpdateProgress, PersistWriteError>)
    ensures
        ({
            let (before, after) = (*old(flash), *final(flash));
            let (a, b) = (before.contents(Page::A), before.contents(Page::B));
            let payload = loaded_payload(a, b);
            let updates = update_models(sections@);
            let target = write_target(a, b);
            let capacity = before.contents(target).len() as int;
            match progress {
                Ok(progress) => {
                    let pieces = leading_pieces(payload, updates);
                    &&& update_fits(payload, updates, capacity)
                    &&& progress.is_in_step(after)
                    &&& progress.page() == target
                    &&& progress.is_replacement() == (payload is Some)
                    &&& after.session() == Some((target, pieces.flatten()))
                    &&& after.contents(target).len() == capacity
                    &&& after.contents(target.opposite()) == before.contents(target.opposite())
                    &&& after.calls() == before.calls() + (seq![FlashCall::Erase(target)]
                        + write_calls(pieces))
                },
                Err(PersistWriteError::OutOfSpace) => {
                    &&& !update_fits(payload, updates, capacity)
                    &&& after == before
                },
            }
        }),
{
    let ghost (a, b) = (flash.contents(Page::A), flash.contents(Page::B));
    let ghost payload = loaded_payload(a, b);
    let ghost updates = update_models(sections@);
    let ghost kept = as_updates(not_updated(sections_in(payload), updates));
    let plan = match plan_update(flash, sections) {
        Ok(plan) => plan,
        Err(error) => {
            return Err(error);
        },
    };
    let write_page = plan.write_page;
    let ghost magic = le32_bytes(MAGIC as int);
    let ghost size = le16_bytes(stored_size(merged(payload, updates)) % 0x1_0000);
    let ghost head = seq![magic, size];
    proof {
        lemma_leading_pieces(payload, updates);
        lemma_as_updates_honest(not_updated(sections_in(payload), updates));
        lemma_encodings_len(kept);
        lemma_sizes_not_negative(sections@);
        lemma_stored_size_concat(kept, updates);
        seq![magic].lemma_flatten_one_element();
        seq![size].lemma_flatten_one_element();
        vstd::seq_lib::lemma_flatten_concat(seq![magic], seq![size]);
        vstd::seq_lib::lemma_flatten_concat(head, encodings(kept));
        assert(seq![magic] + seq![size] =~= head);
    }

    flash.erase_page(write_page);

    let ghost flash0 = *flash;
    let mut check = Fletcher16::new();
    let ghost check0 = check;
    let magic_bytes: [u8; 4] = split_le32(MAGIC);
    write_piece(flash, &mut check, magic_bytes.as_slice());
    let ghost (flash1, check1) = (*flash, check);
    let size_bytes: [u8; 2] = split_le16((plan.payload_len % 0x1_0000) as u16);
    write_piece(flash, &mut check, size_bytes.as_slice());
    let ghost (flash2, check2) = (*flash, check);
    let mut written: usize = PAGE_HEADER_SIZE;
    proof {
        lemma_writes_pieces_concat(flash0, flash1, flash2, seq![magic], seq![size]);
        law_push_extends_checksum(check0, check1, seq![], magic);
        assert(Seq::<u8>::empty() + magic =~= magic);
        law_push_extends_checksum(check1, check2, magic, size);
    }
    if let Some(existing) = &plan.existing {
        written += kept_size(existing.as_slice(), sections);
        write_kept(flash, &mut check, existing.as_slice(), sections);
    } else {
        proof {
            reveal(Seq::filter);
            assert(kept =~= seq![]);
            lemma_writes_nothing(*flash, check);
        }
    }
    proof {
        lemma_writes_pieces_concat(flash0, flash2, *flash, head, encodings(kept));
        law_push_extends_checksum(check2, check, magic + size, encodings(kept).flatten());
        let pieces = leading_pieces(payload, updates);
        assert(Seq::<u8>::empty() + pieces.flatten() =~= pieces.flatten());
        assert(flash.calls() =~= old(flash).calls() + (seq![FlashCall::Erase(write_page)]
            + write_calls(pieces)));
    }
    let capacity = flash.page(write_page).len();
    Ok(UpdateProgress { check, write_page, replaces: plan.existing.is_some(), written, capacity })
}

/// Writes the new sections
fn write_updates<F: DualPageFlash>(
    flash: &mut F,
    progress: &mut UpdateProgress,
    sections: &mut [SectionUpdate],
)
    requires
        old(progress).is_in_step(*old(flash)),
        forall|i: int|
            0 <= i < old(sections)@.len() ==> (#[trigger] old(sections)@[i])@.size % 0x1_0000
                != 0xffff,
        old(progress).written_len() + encodings(update_models(old(sections)@)).flatten().len()
            <= old(progress).page_len(),
    ensures
        final(progress).is_in_step(*final(flash)),
        old(progress).goes_on(*final(progress)),
        writes_pieces(*old(flash), *final(flash), encodings(update_models(old(sections)@))),
        are_taken(old(sections)@, final(sections)@),
{
    let ghost updates = update_models(sections@);
    let ghost start = progress.written_len();
    let mut i: usize = 0;
    proof {
        assert(encodings(updates.take(0)) =~= seq![]);
        lemma_writes_nothing(*flash, progress.checksum_so_far());
    }
    while i < sections.len()
        invariant
            i <= sections.len(),
            sections@.len() == old(sections)@.len(),
            updates == update_models(old(sections)@),
            forall|j: int|
                0 <= j < old(sections)@.len() ==> (#[trigger] old(sections)@[j])@.size % 0x1_0000
                    != 0xffff,
            forall|j: int| i <= j < sections@.len() ==> sections@[j] == old(sections)@[j],
            forall|j: int|
                0 <= j < i ==> is_taken(#[trigger] old(sections)@[j], sections@[j]),
            start == old(progress).written_len(),
            old(progress).is_in_step(*old(flash)),
            start + encodings(updates).flatten().len() <= progress.page_len(),
            progress.is_in_step(*flash),
            old(progress).goes_on(*progress),
            writes_pieces(*old(flash), *flash, encodings(updates.take(i as int))),
        decreases sections.len() - i,
    {
        let ghost flash_before = *flash;
        let ghost update = sections@[i as int]@;
        let ghost done = updates.take(i as int);
        let ghost next = updates.take(i + 1);
        proof {
            assert(next.drop_last() =~= done);
            assert(next.last() == update);
            assert(updates =~= next + updates.skip(i + 1));
            lemma_encodings_concat(next, updates.skip(i + 1));
            vstd::seq_lib::lemma_flatten_concat(encodings(next), encodings(updates.skip(i + 1)));
            vstd::seq_lib::lemma_flatten_concat(encodings(done), update.encoding());
        }
        progress.write_section(flash, &mut sections[i]);
        proof {
            lemma_writes_pieces_concat(
                *old(flash),
                flash_before,
                *flash,
                encodings(done),
                update.encoding(),
            );
        }
        i += 1;
    }
    assert(updates.take(i as int) =~= updates);
}

proof fn lemma_sizes_not_negative(sections: Seq<SectionUpdate>)
    ensures
        0 <= stored_size(update_models(sections)),
    decreases sections.len(),
{
    let updates = update_models(sections);
    if sections.len() > 0 {
        lemma_sizes_not_negative(sections.drop_last());
        assert(updates.drop_last() =~= update_models(sections.drop_last()));
        assert(updates.last() == sections.last()@);
    }
}

/// Whether [`update_sections`] may be called: unless the update is out of space, all sections have
/// sizes that their length headers can hold, and the page takes all that readers give
pub fn can_update<F: DualPageFlash>(flash: &F, sections: &[SectionUpdate]) -> (ok: bool)
    ensures
        ({
            let (a, b) = (flash.contents(Page::A), flash.contents(Page::B));
            let updates = update_models(sections@);
            let capacity = flash.contents(write_target(a, b)).len() as int;
            ok == (update_fits(loaded_payload(a, b), updates, capacity) ==> is_writable(
                loaded_payload(a, b),
                updates,
                capacity,
            ))
        }),
{
    let plan = match plan_update(flash, sections) {
        Ok(plan) => plan,
        Err(_) => {
            return true;
        },
    };
    let ghost updates = update_models(sections@);
    let ghost payload = loaded_payload(flash.contents(Page::A), flash.contents(Page::B));
    let ghost kept = as_updates(not_updated(sections_in(payload), updates));
    let capacity = flash.page(plan.write_page).len();
    let mut image_len: usize = match &plan.existing {
        Some(existing) => kept_size(existing.as_slice(), sections),
        None => 0,
    };
    proof {
        reveal(Seq::filter);
        lemma_page_image(merged(payload, updates));
        lemma_encodings_concat(kept, updates);
        vstd::seq_lib::lemma_flatten_concat(encodings(kept), encodings(updates));
        lemma_as_updates_honest(not_updated(sections_in(payload), updates));
        lemma_encodings_len(kept);
        lemma_sizes_not_negative(sections@);
        lemma_stored_size_concat(kept, updates);
        if forall|i: int| 0 <= i < updates.len() ==> (#[trigger] updates[i]).size % 0x1_0000
            != 0xffff {
            if is_writable(payload, updates, capacity as int) {
                lemma_image_fits(payload, updates, capacity as int);
            }
        }
    }
    image_len += PAGE_OVERHEAD;
    let ghost start = image_len as int;
    let mut i: usize = 0;
    assert(encodings(updates.take(0)) =~= seq![]);
    while i < sections.len()
        invariant
            i <= sections.len(),
            updates == update_models(sections@),
            payload == loaded_payload(flash.contents(Page::A), flash.contents(Page::B)),
            capacity == flash.contents(
                write_target(flash.contents(Page::A), flash.contents(Page::B)),
            ).len(),
            update_fits(payload, updates, capacity as int),
            is_writable(payload, updates, capacity as int) ==> start + encodings(
                updates,
            ).flatten().len() <= capacity,
            forall|j: int| 0 <= j < i ==> (#[trigger] updates[j]).size % 0x1_0000 != 0xffff,
            image_len == start + encodings(updates.take(i as int)).flatten().len(),
            image_len <= capacity,
        decreases sections.len() - i,
    {
        let ghost update = sections@[i as int]@;
        let ghost next = updates.take(i + 1);
        proof {
            assert(next.drop_last() =~= updates.take(i as int));
            assert(updates[i as int] == update);
            assert(updates =~= next + updates.skip(i + 1));
            lemma_encodings_concat(next, updates.skip(i + 1));
            vstd::seq_lib::lemma_flatten_concat(encodings(next), encodings(updates.skip(i + 1)));
            vstd::seq_lib::lemma_flatten_concat(
                encodings(updates.take(i as int)),
                update.encoding(),
            );
            lemma_encoding_len(update);
        }
        if sections[i].data.len() % 0x1_0000 == 0xffff {
            return false;
        }
        match sections[i].data.data_len() {
            None => {
                return false;
            },
            Some(len) => {
                if capacity - image_len < SECTION_OVERHEAD || capacity - image_len
                    - SECTION_OVERHEAD < len {
                    return false;
                }
                image_len += SECTION_OVERHEAD + len;
            },
        }
        i += 1;
    }
    assert(updates.take(i as int) =~= updates);
    true
}

/// Updates sections of the persistent data, and keeps the others
///
/// The result is written to the page that is not in force. Only when that page is complete is the
/// page that was in force erased.
pub fn update_sections<F: DualPageFlash>(
    flash: &mut F,
    sections: &mut [SectionUpdate],
) -> (result: Result<(), PersistWriteError>)
    requires
        ({
            let (a, b) = (old(flash).contents(Page::A), old(flash).contents(Page::B));
            let updates = update_models(old(sections)@);
            let capacity = old(flash).contents(write_target(a, b)).len() as int;
            update_fits(loaded_payload(a, b), updates, capacity) ==> is_writable(
                loaded_payload(a, b),
                updates,
                capacity,
            )
        }),
    ensures
        ({
            let (a, b) = (old(flash).contents(Page::A), old(flash).contents(Page::B));
            let updates = update_models(old(sections)@);
            let capacity = old(flash).contents(write_target(a, b)).len() as int;
            match result {
                Ok(()) => {
                    &&& update_fits(loaded_payload(a, b), updates, capacity)
                    &&& is_updated_storage(
                        a,
                        b,
                        updates,
                        final(flash).contents(Page::A),
                        final(flash).contents(Page::B),
                    )
                    &&& final(flash).calls() == old(flash).calls() + update_calls(a, b, updates)
                    &&& final(flash).session() == if loaded_payload(a, b) is Some {
                        Some((write_target(a, b).opposite(), Seq::<u8>::empty()))
                    } else {
                        None
                    }
                    &&& are_taken(old(sections)@, final(sections)@)
                },
                Err(PersistWriteError::OutOfSpace) => {
                    &&& !update_fits(loaded_payload(a, b), updates, capacity)
                    &&& *final(flash) == *old(flash)
                    &&& final(sections)@ == old(sections)@
                },
            }
        }),
{
    let ghost (a, b) = (flash.contents(Page::A), flash.contents(Page::B));
    let ghost payload = loaded_payload(a, b);
    let ghost updates = update_models(sections@);
    let ghost all = merged(payload, updates);
    let mut progress = match begin_update(flash, sections) {
        Ok(progress) => progress,
        Err(error) => {
            return Err(error);
        },
    };
    let ghost lead = leading_pieces(payload, updates);
    proof {
        lemma_image_fits(payload, updates, flash.contents(progress.page()).len() as int);
        lemma_page_image(all);
        lemma_leading_pieces(payload, updates);
        assert forall|i: int| 0 <= i < sections@.len() implies (#[trigger] sections@[i])@.size
            % 0x1_0000 != 0xffff by {
            assert(updates[i] == sections@[i]@);
        }
    }

    // Write new sections
    write_updates(flash, &mut progress, sections);

    let ghost target = progress.page();
    proof {
        let written = flash.session()->Some_0.1;
        assert(written == checked_pieces(all).flatten());
        assert(flash.calls() =~= old(flash).calls() + (seq![FlashCall::Erase(target)]
            + write_calls(checked_pieces(all))));
    }
    progress.finish(flash);
    assert(flash.calls() =~= old(flash).calls() + update_calls(a, b, updates));
    Ok(())
}

/// The model of a section holds its id and its data.
pub proof fn law_section_model<'a>(section: Section<'a>)
    ensures
        section@.id == section.section_id,
        section@.data == section.data@,
{
}

/// Writing pieces adds them all to what has been written, with one call for each, and leaves the
/// other page alone.
pub proof fn law_pieces_are_written_in_order<F: DualPageFlash>(
    before: F,
    after: F,
    pieces: Seq<Seq<u8>>,
)
    requires
        writes_pieces(before, after, pieces),
    ensures
        before.session() matches Some((page, written)) && {
            &&& after.session() == Some((page, written + pieces.flatten()))
            &&& after.contents(page).len() == before.contents(page).len()
            &&& after.contents(page.opposite()) == before.contents(page.opposite())
        },
        after.calls() == before.calls() + Seq::new(
            pieces.len(),
            |i: int| FlashCall::Write(pieces[i]),
        ),
{
    assert(write_calls(pieces) =~= Seq::new(pieces.len(), |i: int| FlashCall::Write(pieces[i])));
}

/// There is room for as many bytes as the selected page has beyond what is written to it.
pub proof fn law_room_is_what_is_left<F: DualPageFlash>(
    flash: F,
    page: Page,
    written: Seq<u8>,
    size: int,
)
    requires
        flash.session() == Some((page, written)),
    ensures
        has_room(flash, size) <==> size <= flash.contents(page).len() - written.len(),
{
}

/// An update that is being written takes every section whose length does not wrap around in its
/// header and whose data, with 3 bytes more, fits into the rest of the page.
pub proof fn law_progress_takes_what_fits(progress: UpdateProgress, section: UpdateModel)
    ensures
        progress.takes(section) <==> {
            &&& section.size % 0x1_0000 != 0xffff
            &&& progress.written_len() + 3 + section.pieces.flatten().len() <= progress.page_len()
        },
{
    lemma_encoding_len(section);
}

/// An update that is in step with a flash covers just what has been written to it.
pub proof fn law_progress_in_step<F: DualPageFlash>(progress: UpdateProgress, flash: F)
    requires
        progress.is_in_step(flash),
    ensures
        flash.session() matches Some((page, image)) && {
            &&& page == progress.page()
            &&& progress.written_len() == image.len()
            &&& progress.page_len() == flash.contents(page).len()
            &&& progress.checksum_so_far().simple_sum() * 0x100
                + progress.checksum_so_far().double_sum() == checksum(image)
        },
{
}

/// What is left of updates once their data has been written: the same ids, and what is left of each
/// source.
pub proof fn law_updates_are_taken<'a>(
    before: Seq<SectionUpdate<'a>>,
    after: Seq<SectionUpdate<'a>>,
    i: int,
)
    requires
        are_taken(before, after),
        0 <= i < before.len(),
    ensures
        after.len() == before.len(),
        after[i].section_id == before[i].section_id,
        before[i].data.taken(after[i].data),
{
    assert(is_taken(before[i], after[i]));
}

} // verus!
