use rjmp_stm32_flash::dual_page::{DualPageFlash, Page};
use rjmp_stm32_flash::dual_persist::{
    begin_update, can_update, checksum_mismatch, load_sections, plan_update, read_page, section_pieces,
    update_sections, write_section, PersistWriteError, SectionIterator,
};
use rjmp_stm32_flash::fletcher16::Fletcher16;
use rjmp_stm32_flash::section_update::{ChunkReader, SectionUpdate, UpdateSource};

#[derive(Clone, Debug, PartialEq)]
enum Call {
    Erase(Page),
    Write(Vec<u8>),
    Flush,
}

/// Two pages in memory. After `power` calls the power fails, and nothing has an effect any more.
#[derive(Clone)]
struct MemoryFlash {
    a: Vec<u8>,
    b: Vec<u8>,
    session: Option<(Page, usize)>,
    calls: Vec<Call>,
    power: usize,
}

impl MemoryFlash {
    fn new(size: usize) -> Self {
        MemoryFlash {
            a: vec![0xff; size],
            b: vec![0xff; size],
            session: None,
            calls: Vec::new(),
            power: usize::MAX,
        }
    }

    fn page_mut(&mut self, page: Page) -> &mut Vec<u8> {
        match page {
            Page::A => &mut self.a,
            Page::B => &mut self.b,
        }
    }

    fn record(&mut self, call: Call) -> bool {
        self.calls.push(call);
        self.calls.len() <= self.power
    }

    fn sections(&self) -> Option<Vec<(u8, Vec<u8>)>> {
        let mut found = Vec::new();
        let mut sections = load_sections(self)?;
        while let Some(section) = sections.next() {
            found.push((section.section_id, section.data.to_vec()));
        }
        Some(found)
    }
}

impl DualPageFlash for MemoryFlash {
    type Error = ();

    fn page(&self, page: Page) -> &[u8] {
        match page {
            Page::A => &self.a,
            Page::B => &self.b,
        }
    }

    fn erase_page(&mut self, page: Page) {
        let on = self.record(Call::Erase(page));
        self.session = Some((page, 0));
        if on {
            self.page_mut(page).fill(0xff);
        }
    }

    fn write(&mut self, data: &[u8]) {
        let on = self.record(Call::Write(data.to_vec()));
        let (page, pos) = self.session.unwrap();
        if on {
            self.page_mut(page)[pos..pos + data.len()].copy_from_slice(data);
        }
        self.session = Some((page, pos + data.len()));
    }

    fn flush(&mut self) {
        self.record(Call::Flush);
        assert!(self.session.is_some());
        self.session = None;
    }
}

fn slice(section_id: u8, data: &[u8]) -> SectionUpdate<'_> {
    SectionUpdate { section_id, data: UpdateSource::Slice(data) }
}

fn reader(section_id: u8, reads: &[&[u8]], size: usize) -> SectionUpdate<'static> {
    let mut reader = ChunkReader::new();
    for read in reads {
        reader.push(read);
    }
    SectionUpdate { section_id, data: UpdateSource::Reader((reader, size)) }
}

fn update(flash: &mut MemoryFlash, sections: &mut [SectionUpdate]) -> Result<(), PersistWriteError> {
    update_sections(flash, sections)
}

#[test]
fn other_page() {
    assert_eq!(Page::A.other(), Page::B);
    assert_eq!(Page::B.other(), Page::A);
    assert_eq!(Page::A.other().other(), Page::A);
}

#[test]
fn erased_flash_holds_nothing() {
    assert!(load_sections(&MemoryFlash::new(64)).is_none());
    assert!(load_sections(&MemoryFlash::new(0)).is_none());
    assert!(load_sections(&MemoryFlash::new(5)).is_none());
}

#[test]
fn first_update_writes_page_a() {
    let mut flash = MemoryFlash::new(64);
    assert_eq!(update(&mut flash, &mut [slice(1, &[0xAA, 0xBB])]), Ok(()));
    let image = [
        0xFE, 0xCA, 0xAA, 0xAA, 0x05, 0x00, 0x03, 0x00, 0x01, 0xAA, 0xBB, 0x5C, 0x8A,
    ];
    assert_eq!(flash.a[..13], image);
    assert_eq!(flash.a[13..], vec![0xff; 51]);
    assert_eq!(flash.b, vec![0xff; 64]);
    assert_eq!(
        flash.calls,
        vec![
            Call::Erase(Page::A),
            Call::Write(vec![0xFE, 0xCA, 0xAA, 0xAA]),
            Call::Write(vec![5, 0]),
            Call::Write(vec![3, 0]),
            Call::Write(vec![1]),
            Call::Write(vec![0xAA, 0xBB]),
            Call::Write(vec![0x5C, 0x8A]),
            Call::Flush,
        ]
    );
    assert_eq!(flash.session, None);
}

#[test]
fn next_update_writes_the_other_page_and_then_erases_the_first() {
    let mut flash = MemoryFlash::new(64);
    update(&mut flash, &mut [slice(1, &[0xAA, 0xBB]), slice(2, &[7])]).unwrap();
    flash.calls.clear();
    update(&mut flash, &mut [slice(1, &[0xCC])]).unwrap();
    assert_eq!(
        flash.b[..16],
        [
            0xFE, 0xCA, 0xAA, 0xAA, 0x08, 0x00, 0x02, 0x00, 0x02, 0x07, 0x02, 0x00, 0x01, 0xCC, 0xD1,
            0xFE,
        ]
    );
    assert_eq!(flash.a, vec![0xff; 64]);
    assert_eq!(flash.calls[0], Call::Erase(Page::B));
    assert_eq!(flash.calls[flash.calls.len() - 2..], [Call::Flush, Call::Erase(Page::A)]);
    assert_eq!(flash.session, Some((Page::A, 0)));
    assert_eq!(flash.sections(), Some(vec![(2, vec![7]), (1, vec![0xCC])]));
}

#[test]
fn pages_take_turns() {
    let mut flash = MemoryFlash::new(64);
    for i in 0..6u8 {
        update(&mut flash, &mut [slice(9, &[i])]).unwrap();
        assert_eq!(flash.sections(), Some(vec![(9, vec![i])]));
        assert_eq!(flash.a[0] == 0xFE, i % 2 == 0);
        assert_eq!(flash.b[0] == 0xFE, i % 2 == 1);
    }
}

#[test]
fn update_keeps_other_sections_and_replaces_its_own() {
    let mut flash = MemoryFlash::new(128);
    update(&mut flash, &mut [slice(1, &[1; 5]), slice(2, &[2; 6]), slice(3, &[])]).unwrap();
    update(&mut flash, &mut [slice(2, &[9; 3]), slice(4, &[4])]).unwrap();
    assert_eq!(
        flash.sections(),
        Some(vec![(1, vec![1; 5]), (3, vec![]), (2, vec![9; 3]), (4, vec![4])])
    );
}

#[test]
fn update_with_no_sections_writes_an_empty_page() {
    let mut flash = MemoryFlash::new(8);
    update(&mut flash, &mut []).unwrap();
    assert_eq!(flash.a, [0xFE, 0xCA, 0xAA, 0xAA, 0x00, 0x00, 0x8C, 0x1C]);
    assert_eq!(flash.sections(), Some(vec![]));
}

#[test]
fn page_a_comes_first_and_page_b_steps_in() {
    let mut flash = MemoryFlash::new(64);
    update(&mut flash, &mut [slice(1, &[1])]).unwrap();
    let first = flash.a.clone();
    update(&mut flash, &mut [slice(1, &[2])]).unwrap();
    flash.a = first;
    assert_eq!(flash.sections(), Some(vec![(1, vec![1])]));
    flash.a[9] ^= 1;
    assert_eq!(flash.sections(), Some(vec![(1, vec![2])]));
}

#[test]
fn update_fits_exactly_or_is_out_of_space() {
    let mut flash = MemoryFlash::new(20);
    assert_eq!(update(&mut flash, &mut [slice(1, &[5; 9])]), Ok(()));
    assert_eq!(flash.sections(), Some(vec![(1, vec![5; 9])]));
    let before = flash.clone();
    let mut sections = [slice(1, &[6; 10])];
    assert_eq!(update(&mut flash, &mut sections), Err(PersistWriteError::OutOfSpace));
    assert_eq!(flash.calls, before.calls);
    assert_eq!((flash.a, flash.b), (before.a, before.b));
    assert_eq!(sections[0].data.len(), 10);
}

#[test]
fn kept_sections_count_for_the_space() {
    let mut flash = MemoryFlash::new(20);
    update(&mut flash, &mut [slice(1, &[5; 5])]).unwrap();
    assert_eq!(update(&mut flash, &mut [slice(2, &[6; 2])]), Err(PersistWriteError::OutOfSpace));
    assert_eq!(update(&mut flash, &mut [slice(2, &[6; 1])]), Ok(()));
    assert_eq!(update(&mut flash, &mut [slice(1, &[6; 5])]), Ok(()));
}

#[test]
fn sizes_beyond_counting_are_out_of_space() {
    let mut flash = MemoryFlash::new(64);
    let mut sections = [reader(1, &[], usize::MAX), reader(2, &[], usize::MAX)];
    assert_eq!(update(&mut flash, &mut sections), Err(PersistWriteError::OutOfSpace));
    let mut tiny = MemoryFlash::new(7);
    assert_eq!(update(&mut tiny, &mut []), Err(PersistWriteError::OutOfSpace));
}

#[test]
fn plan_tells_page_and_size() {
    let mut flash = MemoryFlash::new(64);
    let plan = plan_update(&flash, &[slice(1, &[1, 2])]).unwrap();
    assert_eq!((plan.write_page, plan.payload_len), (Page::A, 5));
    assert!(plan.existing.is_none());
    update(&mut flash, &mut [slice(1, &[1, 2])]).unwrap();
    let plan = plan_update(&flash, &[slice(2, &[3])]).unwrap();
    assert_eq!((plan.write_page, plan.payload_len), (Page::B, 9));
    assert_eq!(plan.existing, Some(vec![3, 0, 1, 1, 2]));
    assert!(plan_update(&flash, &[slice(2, &[3; 60])]).is_err());
}

#[test]
fn reader_is_read_up_to_the_first_short_read() {
    let mut flash = MemoryFlash::new(128);
    let full = [7u8; 32];
    let mut sections = [reader(1, &[&full, &[8, 9], &[10]], 34)];
    update(&mut flash, &mut sections).unwrap();
    let mut data = full.to_vec();
    data.extend([8, 9]);
    assert_eq!(flash.sections(), Some(vec![(1, data)]));
    match &mut sections[0].data {
        UpdateSource::Reader((rest, size)) => {
            let mut buf = [0; 32];
            assert_eq!(*size, 34);
            assert_eq!(rest.read(&mut buf), 1);
            assert_eq!(buf[0], 10);
            assert_eq!(rest.read(&mut buf), 0);
        }
        UpdateSource::Slice(_) => panic!("the source has changed"),
    }
}

#[test]
fn reader_that_ends_on_a_full_buffer_is_asked_once_more() {
    let mut flash = MemoryFlash::new(128);
    update(&mut flash, &mut [reader(1, &[&[7; 32]], 32)]).unwrap();
    assert_eq!(flash.sections(), Some(vec![(1, vec![7; 32])]));
    assert_eq!(flash.calls[5..7], [Call::Write(vec![7; 32]), Call::Write(vec![])]);
}

#[test]
fn reader_tells_whether_to_go_on() {
    let mut reader = ChunkReader::new();
    assert!(reader.push(&[0; 32]));
    assert!(!reader.push(&[0; 31]));
    assert!(!reader.push(&[]));
}

#[test]
fn write_section_returns_its_size() {
    let mut flash = MemoryFlash::new(64);
    flash.erase_page(Page::B);
    let mut check = Fletcher16::new();
    let n = write_section(&mut flash, &mut check, &mut slice(6, &[1, 2, 3]));
    assert_eq!(n, 6);
    assert_eq!(flash.b[..6], [4, 0, 6, 1, 2, 3]);
    assert_eq!(check.value(), Fletcher16::compute(&[4, 0, 6, 1, 2, 3]));
}

#[test]
fn source_length_is_as_announced() {
    assert_eq!(slice(1, &[1, 2, 3]).data.len(), 3);
    assert_eq!(reader(1, &[&[1]], 77).data.len(), 77);
}

#[test]
fn iterator_stops_at_a_section_that_is_too_short() {
    let data = [2, 0, 1, 42, 9, 0, 2, 1, 2];
    let mut sections = SectionIterator::new(&data);
    let first = sections.next().unwrap();
    assert_eq!((first.section_id, first.data), (1, &[42u8][..]));
    assert!(sections.next().is_none());
    assert!(sections.next().is_none());
}

#[test]
fn iterator_stops_at_a_length_that_does_not_count_the_id() {
    let data = [0, 0, 1, 2, 0, 5, 6];
    let mut sections = SectionIterator::new(&data);
    assert!(sections.next().is_none());
    let after = sections.next().unwrap();
    assert_eq!((after.section_id, after.data), (5, &[6u8][..]));
}

#[test]
fn iterator_needs_a_whole_header() {
    assert!(SectionIterator::new(&[]).next().is_none());
    assert!(SectionIterator::new(&[1, 0]).next().is_none());
    let mut empty = SectionIterator::new(&[1, 0, 3]);
    let section = empty.next().unwrap();
    assert_eq!((section.section_id, section.data.len()), (3, 0));
    assert!(empty.next().is_none());
}

#[test]
fn corrupted_page_is_not_loaded() {
    let mut flash = MemoryFlash::new(32);
    update(&mut flash, &mut [slice(1, &[1, 2, 3])]).unwrap();
    let good = flash.a.clone();
    for i in (0..4).chain(6..14) {
        flash.a = good.clone();
        flash.a[i] ^= 0x10;
        assert_eq!(flash.sections(), None, "byte {}", i);
    }
    for i in 14..32 {
        flash.a = good.clone();
        flash.a[i] = 0;
        assert_eq!(flash.sections(), Some(vec![(1, vec![1, 2, 3])]));
    }
}

#[test]
fn announced_length_beyond_the_page_is_not_loaded() {
    let mut flash = MemoryFlash::new(16);
    update(&mut flash, &mut [slice(1, &[1])]).unwrap();
    flash.a[4] = 9;
    assert_eq!(flash.sections(), None);
}

#[test]
fn interrupted_update_loses_nothing() {
    let mut start = MemoryFlash::new(128);
    for turn in 0..2u8 {
        update(&mut start, &mut [slice(1, &[turn; 4]), slice(2, &[turn + 1; 20])]).unwrap();
        start.calls.clear();
        let old = start.sections();
        let mut complete = start.clone();
        update(&mut complete, &mut [slice(2, &[0x77; 9]), slice(3, &[1])]).unwrap();
        let new = complete.sections();
        let mut seen_new = false;
        for power in 0..=complete.calls.len() {
            let mut flash = start.clone();
            flash.power = power;
            update(&mut flash, &mut [slice(2, &[0x77; 9]), slice(3, &[1])]).unwrap();
            let found = flash.sections();
            assert!(found == old || found == new, "power {}", power);
            seen_new = seen_new || found == new;
        }
        assert!(seen_new);
    }
}

#[test]
fn page_is_read_up_to_its_checksum() {
    let mut flash = MemoryFlash::new(32);
    update(&mut flash, &mut [slice(1, &[1, 2, 3])]).unwrap();
    flash.b = flash.a.clone();
    flash.b[14..].fill(0x33);
    assert_eq!(read_page(&flash, Page::A), Some(&[4u8, 0, 1, 1, 2, 3][..]));
    assert_eq!(read_page(&flash, Page::A), read_page(&flash, Page::B));
    flash.b.truncate(14);
    assert_eq!(read_page(&flash, Page::A), read_page(&flash, Page::B));
    flash.a[7] ^= 1;
    flash.b[7] ^= 1;
    assert_eq!(read_page(&flash, Page::A), None);
    assert_eq!(read_page(&flash, Page::B), None);
}

#[test]
fn update_step_by_step_is_the_same_update() {
    let mut at_once = MemoryFlash::new(128);
    update(&mut at_once, &mut [slice(1, &[1; 4]), slice(2, &[2; 5])]).unwrap();
    let mut in_steps = at_once.clone();
    update(&mut at_once, &mut [reader(2, &[&[9; 32], &[8]], 33), slice(3, &[7])]).unwrap();

    let announced = [reader(2, &[], 33), slice(3, &[7])];
    let mut progress = begin_update(&mut in_steps, &announced).ok().unwrap();
    assert_eq!(in_steps.session, Some((Page::B, 13)));
    for mut section in [reader(2, &[&[9; 32], &[8]], 33), slice(3, &[7])] {
        assert!(progress.can_write_section(&section));
        progress.write_section(&mut in_steps, &mut section);
    }
    assert!(progress.can_finish());
    progress.finish(&mut in_steps);
    assert_eq!(in_steps.calls, at_once.calls);
    assert_eq!((in_steps.a, in_steps.b), (at_once.a, at_once.b));
}

#[test]
fn update_in_steps_is_out_of_space_before_anything_happens() {
    let mut flash = MemoryFlash::new(20);
    let result = begin_update(&mut flash, &[slice(1, &[6; 10])]);
    assert_eq!(result.err(), Some(PersistWriteError::OutOfSpace));
    assert_eq!(flash.calls, vec![]);
}

#[test]
fn section_is_written_only_where_it_fits() {
    let mut flash = MemoryFlash::new(20);
    let mut progress = begin_update(&mut flash, &[reader(1, &[], 2)]).ok().unwrap();
    assert!(progress.can_write_section(&reader(1, &[&[1; 11]], 2)));
    assert!(!progress.can_write_section(&reader(1, &[&[1; 12]], 2)));
    assert!(!progress.can_write_section(&reader(1, &[&[1]], 0xffff)));
    progress.write_section(&mut flash, &mut reader(1, &[&[1; 11]], 2));
    assert!(!progress.can_finish());
    assert!(!progress.can_write_section(&slice(2, &[])));
}

#[test]
fn update_can_be_written_unless_a_reader_gives_too_much() {
    let flash = MemoryFlash::new(64);
    assert!(can_update(&flash, &[reader(1, &[&[1; 32], &[2; 21]], 5)]));
    assert!(!can_update(&flash, &[reader(1, &[&[1; 32], &[2; 22]], 5)]));
    assert!(can_update(&flash, &[slice(1, &[1; 53])]));
    assert!(can_update(&flash, &[slice(1, &[1; 54])]));
    let wide = MemoryFlash::new(0x2_0000);
    assert!(!can_update(&wide, &[reader(1, &[], 0xffff)]));
    assert!(can_update(&wide, &[reader(1, &[], 0xfffe)]));
}

#[test]
fn data_length_is_what_is_read() {
    assert_eq!(slice(1, &[1, 2, 3]).data.data_len(), Some(3));
    assert_eq!(reader(1, &[&[1; 32], &[2; 32], &[3], &[4; 9]], 7).data.data_len(), Some(65));
    assert_eq!(reader(1, &[&[1; 32]], 7).data.data_len(), Some(32));
    assert_eq!(reader(1, &[], 7).data.data_len(), Some(0));
}

#[test]
fn section_pieces_are_what_is_written() {
    let (pieces, size) = section_pieces(&mut slice(6, &[1, 2, 3]));
    assert_eq!(pieces, vec![vec![4, 0], vec![6], vec![1, 2, 3]]);
    assert_eq!(size, 6);
    let mut section = reader(7, &[&[5; 32], &[6], &[8]], 33);
    let (pieces, size) = section_pieces(&mut section);
    assert_eq!(pieces, vec![vec![34, 0], vec![7], vec![5; 32], vec![6]]);
    assert_eq!(size, 36);
    assert_eq!(section.data.data_len(), Some(1));
}

#[test]
fn mismatch_gives_both_checksums() {
    let mut flash = MemoryFlash::new(64);
    assert_eq!(checksum_mismatch(&flash, Page::A), None);
    update(&mut flash, &mut [slice(1, &[0xAA, 0xBB])]).unwrap();
    assert_eq!(checksum_mismatch(&flash, Page::A), None);
    flash.a[11] = 0x5D;
    assert_eq!(checksum_mismatch(&flash, Page::A), Some((0x8A5C, 0x8A5D)));
    flash.a[0] = 0;
    assert_eq!(checksum_mismatch(&flash, Page::A), None);
    flash.a[0] = 0xFE;
    flash.a[5] = 1;
    assert_eq!(checksum_mismatch(&flash, Page::A), None);
}

#[test]
fn iterator_tells_of_a_section_that_is_too_short() {
    let data = [2, 0, 1, 42, 9, 0, 2, 1, 2];
    let mut sections = SectionIterator::new(&data);
    assert!(!sections.is_cut_short());
    sections.next();
    assert!(sections.is_cut_short());
    sections.next();
    assert!(!sections.is_cut_short());
    assert!(SectionIterator::new(&[0, 0, 1]).is_cut_short());
    assert!(!SectionIterator::new(&[1, 0, 1]).is_cut_short());
    assert!(!SectionIterator::new(&[]).is_cut_short());
}
