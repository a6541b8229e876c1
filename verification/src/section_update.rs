//! Where the data of an updated section comes from

use vstd::prelude::*;
use crate::le_bytes::le16_bytes;

verus! {

/// Size of the buffer that readers are asked to fill
pub const READ_BUFFER_SIZE: usize = 32;

/// The reads that are made of a reader with these results ahead, in order: up to the first one
/// that does not fill the buffer. A reader with no results left is at its end.
pub open spec fn reads_until_short(ahead: Seq<Seq<u8>>) -> Seq<Seq<u8>>
    decreases ahead.len(),
{
    if ahead.len() == 0 {
        seq![Seq::<u8>::empty()]
    } else if ahead[0].len() < READ_BUFFER_SIZE {
        seq![ahead[0]]
    } else {
        seq![ahead[0]] + reads_until_short(ahead.skip(1))
    }
}

/// The results that are still ahead after those reads.
pub open spec fn ahead_after_short(ahead: Seq<Seq<u8>>) -> Seq<Seq<u8>>
    decreases ahead.len(),
{
    if ahead.len() == 0 {
        ahead
    } else if ahead[0].len() < READ_BUFFER_SIZE {
        ahead.skip(1)
    } else {
        ahead_after_short(ahead.skip(1))
    }
}

/// A reader, given by what each of its reads into a buffer of [`READ_BUFFER_SIZE`] bytes returns
pub struct ChunkReader {
    reads: Vec<Vec<u8>>,
    next: usize,
}

impl ChunkReader {
    #[verifier::type_invariant]
    spec fn fits_buffer(self) -> bool {
        &&& self.next <= self.reads@.len()
        &&& forall|i: int|
            0 <= i < self.reads@.len() ==> (#[trigger] self.reads@[i])@.len() <= READ_BUFFER_SIZE
    }

    /// What the reads that have not been made yet will return.
    pub closed spec fn ahead(&self) -> Seq<Seq<u8>> {
        Seq::new(
            (self.reads@.len() - self.next) as nat,
            |i: int| self.reads@[self.next + i]@,
        )
    }

    /// A reader with nothing to read.
    pub fn new() -> (reader: Self)
        ensures
            reader.ahead() == Seq::<Seq<u8>>::empty(),
    {
        let reader = ChunkReader { reads: Vec::new(), next: 0 };
        assert(reader.ahead() =~= Seq::empty());
        reader
    }

    /// Adds the result of one more read, and tells whether another read is called for: a read that
    /// does not fill the buffer is the last one of a section.
    pub fn push(&mut self, read: &[u8]) -> (more: bool)
        requires
            read@.len() <= READ_BUFFER_SIZE,
        ensures
            final(self).ahead() == old(self).ahead().push(read@),
            more == (read@.len() == READ_BUFFER_SIZE),
    {
        let chunk: Vec<u8> = vstd::slice::slice_to_vec(read);
        let mut before = ChunkReader::new();
        std::mem::swap(&mut before, self);
        proof {
            use_type_invariant(&before);
        }
        let next = before.next;
        let mut reads = before.reads;
        reads.push(chunk);
        *self = ChunkReader { reads, next };
        assert(self.ahead() =~= old(self).ahead().push(read@));
        read.len() == READ_BUFFER_SIZE
    }

    /// How many bytes the reads give up to the first one that does not fill the buffer, as far as a
    /// `usize` can count.
    pub fn section_len(&self) -> (len: Option<usize>)
        ensures
            match len {
                Some(len) => len == reads_until_short(self.ahead()).flatten().len(),
                None => reads_until_short(self.ahead()).flatten().len() > usize::MAX,
            },
    {
        proof {
            use_type_invariant(self);
        }
        let ghost all = reads_until_short(self.ahead()).flatten().len();
        let mut len: usize = 0;
        let mut i: usize = self.next;
        proof {
            assert(self.ahead().skip(0) =~= self.ahead());
        }
        while i < self.reads.len()
            invariant
                self.next <= i <= self.reads@.len(),
                all == reads_until_short(self.ahead()).flatten().len(),
                all == len + reads_until_short(
                    self.ahead().skip(i - self.next),
                ).flatten().len(),
            decreases self.reads@.len() - i,
        {
            let ghost rest = self.ahead().skip(i - self.next);
            let n = self.reads[i].len();
            proof {
                assert(rest[0] == self.reads@[i as int]@);
                seq![rest[0]].lemma_flatten_one_element();
                vstd::seq_lib::lemma_flatten_concat(
                    seq![rest[0]],
                    reads_until_short(rest.skip(1)),
                );
                assert(rest.skip(1) =~= self.ahead().skip(i + 1 - self.next));
            }
            if n > usize::MAX - len {
                return None;
            }
            if n < READ_BUFFER_SIZE {
                return Some(len + n);
            }
            len += n;
            i += 1;
        }
        proof {
            seq![Seq::<u8>::empty()].lemma_flatten_one_element();
        }
        Some(len)
    }

    /// Makes one read into `buf` and returns how many bytes it gave.
    pub fn read(&mut self, buf: &mut [u8; 32]) -> (n: usize)
        ensures
            n <= READ_BUFFER_SIZE,
            final(buf)@.take(n as int) == (if old(self).ahead().len() == 0 {
                Seq::<u8>::empty()
            } else {
                old(self).ahead()[0]
            }),
            final(self).ahead() == (if old(self).ahead().len() == 0 {
                old(self).ahead()
            } else {
                old(self).ahead().skip(1)
            }),
    {
        proof {
            use_type_invariant(&*self);
        }
        if self.next == self.reads.len() {
            assert(buf@.take(0) =~= Seq::empty());
            return 0;
        }
        let chunk = &self.reads[self.next];
        let n = chunk.len();
        let mut i: usize = 0;
        while i < n
            invariant
                i <= n <= 32,
                n == chunk@.len(),
                buf@.take(i as int) =~= chunk@.take(i as int),
            decreases n - i,
        {
            buf[i] = chunk[i];
            i += 1;
        }
        assert(buf@.take(n as int) =~= chunk@);
        self.next += 1;
        assert(self.ahead() =~= old(self).ahead().skip(1));
        n
    }
}

/// An update of a section: its id, the size that is announced for its data, and the pieces in
/// which the data itself comes.
#[verifier::ext_equal]
pub struct UpdateModel {
    pub id: u8,
    pub size: int,
    pub pieces: Seq<Seq<u8>>,
}

impl UpdateModel {
    /// The data, put together.
    pub open spec fn data(self) -> Seq<u8> {
        self.pieces.flatten()
    }

    /// Whether the data has the size that is announced.
    pub open spec fn is_honest(self) -> bool {
        self.data().len() == self.size
    }

    /// Everything that is written for the section, piece by piece: two bytes that count the id and
    /// the announced size, the id, and the data.
    pub open spec fn encoding(self) -> Seq<Seq<u8>> {
        seq![le16_bytes((self.size + 1) % 0x1_0000), seq![self.id]] + self.pieces
    }
}

/// Wraps different ways of acquiring data for writing to persist
pub enum UpdateSource<'a> {
    /// Section data is available as a slice
    Slice(&'a [u8]),
    /// Section data is available from a reader, with the size that the reader is said to hold
    Reader((ChunkReader, usize)),
}

impl<'a> UpdateSource<'a> {
    /// The size that is announced.
    pub open spec fn size(&self) -> int {
        match self {
            UpdateSource::Slice(data) => data@.len() as int,
            UpdateSource::Reader((_, size)) => *size as int,
        }
    }

    /// The pieces in which the data comes.
    pub open spec fn pieces(&self) -> Seq<Seq<u8>> {
        match self {
            UpdateSource::Slice(data) => seq![data@],
            UpdateSource::Reader((reader, _)) => reads_until_short(reader.ahead()),
        }
    }

    /// Whether `after` is what is left of `self` once its data has been taken.
    pub open spec fn taken(&self, after: UpdateSource<'a>) -> bool {
        match (self, after) {
            (UpdateSource::Slice(data), UpdateSource::Slice(rest)) => *data == rest,
            (
                UpdateSource::Reader((reader, size)),
                UpdateSource::Reader((rest, rest_size)),
            ) => rest.ahead() == ahead_after_short(reader.ahead()) && *size == rest_size,
            _ => false,
        }
    }

    /// How many bytes the data really has, as far as a `usize` can count
    pub fn data_len(&self) -> (len: Option<usize>)
        ensures
            match len {
                Some(len) => len == self.pieces().flatten().len(),
                None => self.pieces().flatten().len() > usize::MAX,
            },
    {
        match self {
            UpdateSource::Slice(data) => {
                proof {
                    seq![data@].lemma_flatten_one_element();
                }
                Some(data.len())
            },
            UpdateSource::Reader((reader, _)) => reader.section_len(),
        }
    }

    pub fn len(&self) -> (n: usize)
        ensures
            n == self.size(),
    {
        match self {
            UpdateSource::Slice(data) => data.len(),
            UpdateSource::Reader((_, size)) => *size,
        }
    }
}

/// New data for one section
pub struct SectionUpdate<'a> {
    pub section_id: u8,
    pub data: UpdateSource<'a>,
}

/// The view of an update is what it writes. Where the data comes from, and what a reader still
/// holds behind it, is left to [`UpdateSource::taken`].
impl<'a> View for SectionUpdate<'a> {
    type V = UpdateModel;

    open spec fn view(&self) -> UpdateModel {
        UpdateModel { id: self.section_id, size: self.data.size(), pieces: self.data.pieces() }
    }
}

/// Only a read that does not fill the buffer ends a section, whatever bytes the reads before it
/// hold: all of them are taken, and what comes behind the short one is left.
pub proof fn law_reader_is_read_to_first_short_read(
    full: Seq<Seq<u8>>,
    short: Seq<u8>,
    rest: Seq<Seq<u8>>,
)
    requires
        forall|i: int| 0 <= i < full.len() ==> (#[trigger] full[i]).len() == 32,
        short.len() < 32,
    ensures
        reads_until_short(full + seq![short] + rest) == full + seq![short],
        ahead_after_short(full + seq![short] + rest) == rest,
    decreases full.len(),
{
    let ahead = full + seq![short] + rest;
    if full.len() == 0 {
        assert(ahead[0] == short);
        assert(ahead.skip(1) =~= rest);
        assert(full + seq![short] =~= seq![short]);
    } else {
        let fewer = full.skip(1);
        assert forall|i: int| 0 <= i < fewer.len() implies (#[trigger] fewer[i]).len() == 32 by {
            assert(fewer[i] == full[i + 1]);
        }
        law_reader_is_read_to_first_short_read(fewer, short, rest);
        assert(ahead.skip(1) =~= fewer + seq![short] + rest);
        assert(ahead[0] == full[0]);
        assert(seq![full[0]] + (fewer + seq![short]) =~= full + seq![short]);
    }
}

/// A reader all of whose reads fill the buffer is read to its end, which is one more read that
/// gives nothing.
pub proof fn law_reader_is_read_to_its_end(full: Seq<Seq<u8>>)
    requires
        forall|i: int| 0 <= i < full.len() ==> (#[trigger] full[i]).len() == 32,
    ensures
        reads_until_short(full) == full + seq![Seq::<u8>::empty()],
        ahead_after_short(full) == Seq::<Seq<u8>>::empty(),
    decreases full.len(),
{
    if full.len() == 0 {
        assert(full =~= seq![]);
        assert(full + seq![Seq::<u8>::empty()] =~= seq![Seq::<u8>::empty()]);
    } else {
        let fewer = full.skip(1);
        assert forall|i: int| 0 <= i < fewer.len() implies (#[trigger] fewer[i]).len() == 32 by {
            assert(fewer[i] == full[i + 1]);
        }
        law_reader_is_read_to_its_end(fewer);
        assert(seq![full[0]] + (fewer + seq![Seq::<u8>::empty()]) =~= full + seq![
            Seq::<u8>::empty(),
        ]);
    }
}

/// An update from a reader that gives the announced number of bytes, in reads that fill the buffer
/// and a last one that does not, writes all of them.
pub proof fn law_reader_update<'a>(
    update: SectionUpdate<'a>,
    reader: ChunkReader,
    size: usize,
    full: Seq<Seq<u8>>,
    short: Seq<u8>,
    rest: Seq<Seq<u8>>,
)
    requires
        update.data == UpdateSource::<'a>::Reader((reader, size)),
        reader.ahead() == full + seq![short] + rest,
        forall|i: int| 0 <= i < full.len() ==> (#[trigger] full[i]).len() == 32,
        short.len() < 32,
    ensures
        update@.id == update.section_id,
        update@.size == size,
        update@.data() == full.flatten() + short,
        update@.is_honest() <==> size == 32 * full.len() + short.len(),
{
    law_reader_is_read_to_first_short_read(full, short, rest);
    vstd::seq_lib::lemma_flatten_concat(full, seq![short]);
    seq![short].lemma_flatten_one_element();
    lemma_full_reads_len(full);
}

/// The same of a reader all of whose reads fill the buffer.
pub proof fn law_reader_update_of_full_reads<'a>(
    update: SectionUpdate<'a>,
    reader: ChunkReader,
    size: usize,
)
    requires
        update.data == UpdateSource::<'a>::Reader((reader, size)),
        forall|i: int| 0 <= i < reader.ahead().len() ==> (#[trigger] reader.ahead()[i]).len() == 32,
    ensures
        update@.id == update.section_id,
        update@.size == size,
        update@.data() == reader.ahead().flatten(),
        update@.is_honest() <==> size == 32 * reader.ahead().len(),
{
    let full = reader.ahead();
    law_reader_is_read_to_its_end(full);
    vstd::seq_lib::lemma_flatten_concat(full, seq![Seq::<u8>::empty()]);
    seq![Seq::<u8>::empty()].lemma_flatten_one_element();
    assert(full.flatten() + Seq::<u8>::empty() =~= full.flatten());
    lemma_full_reads_len(full);
}

/// An update from a slice writes the slice, and announces its length.
pub proof fn law_slice_update<'a>(update: SectionUpdate<'a>, data: &'a [u8])
    requires
        update.data == UpdateSource::Slice(data),
    ensures
        update@.id == update.section_id,
        update@.size == data@.len(),
        update@.data() == data@,
        update@.is_honest(),
{
    seq![data@].lemma_flatten_one_element();
}

/// What is left of a source once its data is written: a slice is as it was, and a reader goes on
/// behind its first read that did not fill the buffer.
pub proof fn law_source_goes_on<'a>(
    before: UpdateSource<'a>,
    after: UpdateSource<'a>,
    full: Seq<Seq<u8>>,
    short: Seq<u8>,
    rest: Seq<Seq<u8>>,
)
    requires
        before.taken(after),
        forall|i: int| 0 <= i < full.len() ==> (#[trigger] full[i]).len() == 32,
        short.len() < 32,
    ensures
        before is Slice ==> after == before,
        before matches UpdateSource::Reader((reader, size)) ==> {
            after matches UpdateSource::Reader((reader2, size2)) && {
                &&& size2 == size
                &&& reader.ahead() == full + seq![short] + rest ==> reader2.ahead() == rest
                &&& reader.ahead() == full ==> reader2.ahead() == Seq::<Seq<u8>>::empty()
            }
        },
{
    law_reader_is_read_to_first_short_read(full, short, rest);
    law_reader_is_read_to_its_end(full);
}

/// Everything that is written for an update, as bytes: its length with the id counted in, the id,
/// and the data behind them.
pub proof fn law_encoding_is_length_id_and_data(update: UpdateModel)
    requires
        0 <= update.size,
    ensures
        update.encoding().len() == 2 + update.pieces.len(),
        update.encoding().skip(2) == update.pieces,
        update.encoding()[0] == seq![
            ((update.size + 1) % 0x100) as u8,
            ((update.size + 1) / 0x100 % 0x100) as u8,
        ],
        update.encoding()[1] == seq![update.id],
        update.is_honest() <==> update.pieces.flatten().len() == update.size,
        update.data() == update.pieces.flatten(),
{
    assert(update.encoding().skip(2) =~= update.pieces);
    let n = update.size + 1;
    assert(n % 0x1_0000 % 0x100 == n % 0x100);
    assert(n % 0x1_0000 / 0x100 % 0x100 == n / 0x100 % 0x100);
    assert(update.encoding()[0] =~= seq![(n % 0x100) as u8, (n / 0x100 % 0x100) as u8]);
}

proof fn lemma_full_reads_len(full: Seq<Seq<u8>>)
    requires
        forall|i: int| 0 <= i < full.len() ==> (#[trigger] full[i]).len() == 32,
    ensures
        full.flatten().len() == 32 * full.len(),
    decreases full.len(),
{
    if full.len() > 0 {
        let fewer = full.drop_last();
        assert forall|i: int| 0 <= i < fewer.len() implies (#[trigger] fewer[i]).len() == 32 by {
            assert(fewer[i] == full[i]);
        }
        lemma_full_reads_len(fewer);
        fewer.lemma_flatten_push(full.last());
        assert(full =~= fewer.push(full.last()));
        assert(full.last() == full[full.len() - 1]);
    }
}

} // verus!
