use slotted_index::errors::PageError;
use slotted_index::layout::{PAGE_SIZE_USIZE, RECORD_OVERHEAD, SIZE_OF_SLOT_TABLE_ITEM, TOTAL_HEADER_SIZE};
use slotted_index::manager::PageEvent::{Dropped, Mutated, Written};
use slotted_index::manager::PageState::{Allocated, Clean, Dirty, Evicted};
use slotted_index::manager::{ChainState, Links, PageManager, PageState};
use slotted_index::paging::SlottedPage;
use slotted_index::types::{Payload, PayloadType};

fn random_bytes(seed: u32, len: usize) -> Vec<u8> {
    let mut state = seed;
    let mut out = Vec::with_capacity(len);
    for _ in 0..len {
        state = state.wrapping_mul(1103515245).wrapping_add(12345);
        out.push((state >> 16) as u8);
    }
    out
}

fn chain_of(manager: &PageManager, head: u16) -> Vec<u16> {
    let mut ids = vec![head];
    let mut next = manager.read(head).unwrap().right_sibling();
    while next != 0 {
        ids.push(next);
        next = manager.read(next).unwrap().right_sibling();
    }
    ids
}

#[test]
fn first_page_gets_identifier_one() {
    let mut manager = PageManager::new();
    assert_eq!(manager.next_page_id(), 1);
    assert_eq!(manager.allocate_inner(), Ok(1));
    assert_eq!(manager.allocate_inner(), Ok(2));
    assert_eq!(manager.next_page_id(), 3);
    assert!(manager.contains(1));
    assert!(!manager.contains(0));
    assert!(!manager.contains(3));
}

#[test]
fn allocated_inner_page_is_empty() {
    let mut manager = PageManager::new();
    let id = manager.allocate_inner().unwrap();
    let page = manager.read(id).unwrap();
    assert_eq!(page.num_of_slots(), 0);
    assert_eq!(page.left_most_page_id(), 0);
    assert_eq!(page.free_start(), 20);
    assert_eq!(page.free_end(), 4096);
    assert_eq!(page.free_size(), 4076);
    assert_eq!(page.page_type(), 1);
    assert_eq!(page.page_id(), id);
}

#[test]
fn insert_inner_adds_child_entries() {
    let mut manager = PageManager::new();
    let id = manager.allocate_inner().unwrap();
    assert_eq!(manager.insert_inner(id, "abc", 123), Ok(()));
    assert_eq!(manager.insert_inner(id, "xyz", 789), Ok(()));
    let page = manager.read(id).unwrap();
    assert_eq!(page.num_of_slots(), 2);
    assert_eq!(page.free_size(), 4076 - 2 * 13);
    assert_eq!(manager.read_payload(id, 0), Ok(vec![123, 0]));
    assert_eq!(manager.read_payload(id, 1), Ok(vec![0x15, 0x03]));
    assert_eq!(manager.read_payload(id, 2), Err(PageError::NotFound));
    assert_eq!(manager.insert_inner(9, "abc", 1), Err(PageError::NotFound));
}

#[test]
fn insert_inner_reports_a_full_page() {
    let mut manager = PageManager::new();
    let id = manager.allocate_inner().unwrap();
    let key = "k".repeat(1000);
    let mut stored = 0;
    loop {
        match manager.insert_inner(id, &key, 5) {
            Ok(()) => stored += 1,
            Err(e) => {
                assert_eq!(e, PageError::NoSpace);
                break;
            }
        }
    }
    assert_eq!(stored, 4);
    let page = manager.read(id).unwrap();
    assert_eq!(page.num_of_slots(), 4);
    assert_eq!(page.free_size() as usize, 4076 - 4 * (2 + 6 + 1000 + 2));
}

#[test]
fn payload_that_fits_the_head_page() {
    let mut manager = PageManager::new();
    let len = PAGE_SIZE_USIZE - TOTAL_HEADER_SIZE - RECORD_OVERHEAD - SIZE_OF_SLOT_TABLE_ITEM - 3;
    let data = random_bytes(1, len);
    let head = manager
        .allocate_leaf("foo", Payload::from_buffer(&data, PayloadType::U8))
        .unwrap();
    assert_eq!(head, 1);
    assert_eq!(chain_of(&manager, head), vec![1]);
    assert_eq!(manager.next_page_id(), 2);
    let page = manager.read(head).unwrap();
    assert_eq!(page.num_of_slots(), 1);
    assert_eq!(page.free_end() - page.free_start(), 2);
    assert_eq!(manager.read_payload(head, 0), Ok(data));
}

#[test]
fn payload_one_byte_longer_needs_a_second_page() {
    let mut manager = PageManager::new();
    let len = PAGE_SIZE_USIZE - TOTAL_HEADER_SIZE - RECORD_OVERHEAD - SIZE_OF_SLOT_TABLE_ITEM - 3 + 1;
    let data = random_bytes(2, len);
    let head = manager
        .allocate_leaf("foo", Payload::from_buffer(&data, PayloadType::U8))
        .unwrap();
    assert_eq!(chain_of(&manager, head), vec![1, 2]);
    let tail = manager.read(2).unwrap().read_overflow().unwrap();
    assert_eq!(tail.remaining_len, 1);
    assert_eq!(tail.chunk, vec![data[len - 1]]);
    assert_eq!(manager.read_payload(head, 0), Ok(data));
}

#[test]
fn overflow_chain_of_three_pages() {
    let mut manager = PageManager::new();
    let _ = manager.allocate_inner().unwrap();
    let data = random_bytes(3, PAGE_SIZE_USIZE * 2);
    let head = manager
        .allocate_leaf("foo", Payload::from_buffer(&data, PayloadType::U8))
        .unwrap();
    assert_eq!(head, 2);
    assert_eq!(chain_of(&manager, head), vec![2, 3, 4]);
    assert_eq!(manager.next_page_id(), 5);
    assert_eq!(manager.read_payload(head, 0), Ok(data.clone()));
    let first = manager.read(2).unwrap();
    let record = first.read_slot(0).unwrap();
    assert_eq!(record.key, b"foo".to_vec());
    assert_eq!(record.key_type, PayloadType::Str);
    assert_eq!(record.payload_type, PayloadType::U8);
    assert_eq!(record.payload_len, 8192);
    assert_eq!(record.payload_head, data[..4063].to_vec());
    assert_eq!(first.free_end() - first.free_start(), 2);
    let second = manager.read(3).unwrap();
    assert_eq!(second.free_start(), second.free_end());
    assert_eq!(second.read_overflow().unwrap().remaining_len, 8192 - 4063);
    assert_eq!(second.read_overflow().unwrap().chunk, data[4063..4063 + 4072].to_vec());
    let third = manager.read(4).unwrap();
    assert_eq!(third.read_overflow().unwrap().chunk, data[4063 + 4072..].to_vec());
    assert_eq!(third.free_size() as usize, 4076 - 2 - 2 - (8192 - 4063 - 4072));
    assert_eq!(third.right_sibling(), 0);
    for id in [2u16, 3, 4] {
        let page = manager.read(id).unwrap();
        assert_eq!(page.page_id(), id);
        assert_eq!(page.page_type(), 0);
        assert!(20 <= page.free_start() && page.free_start() <= page.free_end());
        assert!(page.free_end() <= 4096);
        assert_eq!(page.free_start() - 20, page.num_of_slots() * 2);
    }
}

#[test]
fn payloads_of_many_sizes_read_back() {
    for (seed, len) in [0usize, 1, 2, 4062, 4063, 4064, 8134, 8135, 8136, 20000, 65535]
        .iter()
        .enumerate()
    {
        let mut manager = PageManager::new();
        let data = random_bytes(seed as u32, *len);
        let head = manager
            .allocate_leaf("foo", Payload::from_buffer(&data, PayloadType::U8))
            .unwrap();
        let pages = if *len <= 4063 { 1 } else { 1 + (*len - 4063 + 4071) / 4072 };
        assert_eq!(chain_of(&manager, head).len(), pages);
        assert_eq!(manager.next_page_id() as usize, 1 + pages);
        assert_eq!(manager.read_payload(head, 0), Ok(data));
    }
}

#[test]
fn longest_key_that_leaves_one_payload_byte() {
    let mut manager = PageManager::new();
    let key = "k".repeat(4065);
    let data = random_bytes(5, 300);
    let head = manager
        .allocate_leaf(&key, Payload::from_buffer(&data, PayloadType::U8))
        .unwrap();
    assert_eq!(chain_of(&manager, head), vec![1, 2]);
    assert_eq!(manager.read(head).unwrap().read_slot(0).unwrap().payload_head, vec![data[0]]);
    assert_eq!(manager.read_payload(head, 0), Ok(data));
}

#[test]
fn key_too_long_for_an_empty_page() {
    let mut manager = PageManager::new();
    let key = "k".repeat(4066);
    assert_eq!(
        manager.allocate_leaf(&key, Payload::from_str(String::from("v"))),
        Err(PageError::NoSpace)
    );
    assert_eq!(manager.next_page_id(), 1);
    assert!(!manager.contains(1));
}

#[test]
fn payload_too_long_for_a_record() {
    let mut manager = PageManager::new();
    assert_eq!(
        manager.allocate_leaf("foo", Payload::from_buffer(&vec![1u8; 65536], PayloadType::U8)),
        Err(PageError::OutOfRange)
    );
    assert_eq!(manager.next_page_id(), 1);
    assert!(!manager.contains(1));
}

#[test]
fn identifiers_run_out() {
    let mut manager = PageManager::new();
    let mut page = SlottedPage::new_leaf(65533);
    page.set_flags(0);
    assert_eq!(manager.write(page), Ok(()));
    assert_eq!(manager.next_page_id(), 65534);
    let data = random_bytes(7, 9000);
    assert_eq!(
        manager.allocate_leaf("foo", Payload::from_buffer(&data, PayloadType::U8)),
        Err(PageError::OutOfRange)
    );
    assert_eq!(manager.next_page_id(), 65534);
    assert!(!manager.contains(65534));
    assert_eq!(manager.allocate_inner(), Ok(65534));
    assert_eq!(manager.allocate_leaf("foo", Payload::from_str(String::from("v"))), Ok(65535));
    assert_eq!(manager.next_page_id(), 65536);
    assert_eq!(manager.allocate_inner(), Err(PageError::OutOfRange));
    assert_eq!(
        manager.allocate_leaf("foo", Payload::from_str(String::from("v"))),
        Err(PageError::OutOfRange)
    );
}

#[test]
fn reading_follows_only_what_the_record_needs() {
    let mut manager = PageManager::new();
    let head = manager
        .allocate_leaf("foo", Payload::from_str(String::from("short")))
        .unwrap();
    let other = manager
        .allocate_leaf("bar", Payload::from_str(String::from("other")))
        .unwrap();
    let links = Links { left_most: 0, left: 0, right: other, parent: 0 };
    assert_eq!(manager.link(head, links), Ok(()));
    assert_eq!(manager.read(head).unwrap().right_sibling(), other);
    assert_eq!(manager.read_payload(head, 0), Ok(b"short".to_vec()));
    assert_eq!(manager.read_payload(other, 0), Ok(b"other".to_vec()));
}

#[test]
fn link_sets_the_four_pointers() {
    let mut manager = PageManager::new();
    let id = manager.allocate_inner().unwrap();
    assert_eq!(manager.insert_inner(id, "abc", 9), Ok(()));
    let links = Links { left_most: 11, left: 12, right: 13, parent: 14 };
    assert_eq!(manager.link(id, links), Ok(()));
    let page = manager.read(id).unwrap();
    assert_eq!(page.left_most_page_id(), 11);
    assert_eq!(page.left_sibling(), 12);
    assert_eq!(page.right_sibling(), 13);
    assert_eq!(page.parent(), 14);
    assert_eq!(page.num_of_slots(), 1);
    assert_eq!(page.read_slot(0).unwrap().key, b"abc".to_vec());
    assert_eq!(manager.link(77, links), Err(PageError::NotFound));
}

#[test]
fn broken_chains_are_reported() {
    let mut manager = PageManager::new();
    let data = random_bytes(11, 9000);
    let head = manager
        .allocate_leaf("foo", Payload::from_buffer(&data, PayloadType::U8))
        .unwrap();
    assert_eq!(chain_of(&manager, head), vec![1, 2, 3]);

    let cut = Links { left_most: 0, left: 0, right: 0, parent: 0 };
    assert_eq!(manager.link(2, cut), Ok(()));
    assert_eq!(manager.read_payload(head, 0), Err(PageError::CorruptChain));

    let skip = Links { left_most: 0, left: 0, right: 3, parent: 0 };
    assert_eq!(manager.link(head, skip), Ok(()));
    assert_eq!(manager.read_payload(head, 0), Err(PageError::CorruptChain));

    let missing = Links { left_most: 0, left: 0, right: 40, parent: 0 };
    assert_eq!(manager.link(head, missing), Ok(()));
    assert_eq!(manager.read_payload(head, 0), Err(PageError::NotFound));

    let inner = manager.allocate_inner().unwrap();
    let to_inner = Links { left_most: 0, left: 0, right: inner, parent: 0 };
    assert_eq!(manager.link(head, to_inner), Ok(()));
    assert_eq!(manager.read_payload(head, 0), Err(PageError::CorruptChain));

    assert_eq!(manager.read_payload(0, 0), Err(PageError::NotFound));
    assert_eq!(manager.read_payload(99, 0), Err(PageError::NotFound));
}

#[test]
fn written_page_is_read_back_byte_for_byte() {
    let mut manager = PageManager::new();
    let mut page = SlottedPage::new_leaf(5);
    let mut payload = Payload::from_str(String::from("123"));
    assert_eq!(page.append_record(b"abc", PayloadType::Str, &mut payload), Ok(3));
    let bytes = *page.buffer();
    assert_eq!(manager.write(page), Ok(()));
    assert_eq!(*manager.read(5).unwrap().buffer(), bytes);
    assert_eq!(manager.next_page_id(), 6);
    assert!(manager.read(4).is_none());
    assert_eq!(manager.write(SlottedPage::new_leaf(0)), Err(PageError::OutOfRange));
    assert!(manager.read(0).is_none());
}

#[test]
fn persistence_through_a_file_image() {
    let mut manager = PageManager::new();
    let id = manager
        .allocate_leaf("abc", Payload::from_str(String::from("123")))
        .unwrap();
    let mut file: Vec<u8> = Vec::new();
    {
        let (offset, page) = manager.flush(id).unwrap();
        assert_eq!(offset, id as u64 * 4096);
        let end = offset as usize + PAGE_SIZE_USIZE;
        if file.len() < end {
            file.resize(end, 0);
        }
        file[offset as usize..end].copy_from_slice(page.buffer());
    }
    assert_eq!(manager.flush(9).unwrap_err(), PageError::NotFound);

    manager.clear();
    assert!(manager.read(id).is_none());
    assert_eq!(manager.read_payload(id, 0), Err(PageError::NotFound));

    let offset = PageManager::locate(id, file.len() as u64).unwrap() as usize;
    let mut buffer = [0u8; PAGE_SIZE_USIZE];
    buffer.copy_from_slice(&file[offset..offset + PAGE_SIZE_USIZE]);
    assert_eq!(manager.install(id, buffer), Ok(()));
    let record = manager.read(id).unwrap().read_slot(0).unwrap();
    assert_eq!(record.key, b"abc".to_vec());
    assert_eq!(record.payload_head, b"123".to_vec());
    assert_eq!(manager.read_payload(id, 0), Ok(b"123".to_vec()));
    assert_eq!(manager.next_page_id(), 2);

    manager.clear();
    file.clear();
    assert_eq!(PageManager::locate(id, file.len() as u64), Err(PageError::NotFound));
    assert!(manager.read(id).is_none());
}

#[test]
fn locate_checks_the_end_of_the_file() {
    assert_eq!(PageManager::file_offset(0), 0);
    assert_eq!(PageManager::file_offset(3), 3 * 4096);
    assert_eq!(PageManager::file_offset(65535), 65535 * 4096);
    assert_eq!(PageManager::locate(3, 4 * 4096), Ok(3 * 4096));
    assert_eq!(PageManager::locate(3, 4 * 4096 - 1), Err(PageError::NotFound));
    assert_eq!(PageManager::locate(0, 4 * 4096), Err(PageError::NotFound));
}

#[test]
fn install_rejects_foreign_bytes() {
    let mut manager = PageManager::new();
    let page = SlottedPage::new_leaf(8);
    assert_eq!(manager.install(9, *page.buffer()), Err(PageError::CorruptChain));
    assert_eq!(manager.install(8, [0u8; PAGE_SIZE_USIZE]), Err(PageError::CorruptChain));
    assert_eq!(manager.install(0, *page.buffer()), Err(PageError::NotFound));
    assert_eq!(manager.next_page_id(), 1);
    assert_eq!(manager.install(8, *page.buffer()), Ok(()));
    assert_eq!(manager.next_page_id(), 9);
    assert_eq!(manager.allocate_inner(), Ok(9));
}

#[test]
fn chain_states() {
    assert_eq!(ChainState::WritingHead.after_write(10), ChainState::WritingOverflow);
    assert_eq!(ChainState::WritingHead.after_write(0), ChainState::Done);
    assert_eq!(ChainState::WritingOverflow.after_write(1), ChainState::WritingOverflow);
    assert_eq!(ChainState::WritingOverflow.after_write(0), ChainState::Done);
    assert_eq!(ChainState::Done.after_write(5), ChainState::Done);
}

#[test]
fn page_state_transitions() {
    assert_eq!(Allocated.after(Mutated), Some(Dirty));
    assert_eq!(Allocated.after(Written), Some(Clean));
    assert_eq!(Allocated.after(Dropped), None);
    assert_eq!(Dirty.after(Mutated), Some(Dirty));
    assert_eq!(Dirty.after(Written), Some(Clean));
    assert_eq!(Dirty.after(Dropped), None);
    assert_eq!(Clean.after(Mutated), Some(Dirty));
    assert_eq!(Clean.after(Written), Some(Clean));
    assert_eq!(Clean.after(Dropped), Some(Evicted));
    assert_eq!(Evicted.after(Mutated), None);
    assert_eq!(Evicted.after(Written), None);
    assert_eq!(Evicted.after(Dropped), None);
}

#[test]
fn page_lifecycle_in_the_manager() {
    let mut manager = PageManager::new();
    assert_eq!(manager.state(1), PageState::Evicted);
    let inner = manager.allocate_inner().unwrap();
    assert_eq!(manager.state(inner), PageState::Allocated);
    assert!(!manager.evict(inner));
    assert_eq!(manager.insert_inner(inner, "abc", 7), Ok(()));
    assert_eq!(manager.state(inner), PageState::Dirty);
    assert!(!manager.evict(inner));
    assert!(manager.contains(inner));
    assert_eq!(manager.flushed(inner), Ok(()));
    assert_eq!(manager.state(inner), PageState::Clean);
    let links = Links { left_most: 3, left: 0, right: 0, parent: 0 };
    assert_eq!(manager.link(inner, links), Ok(()));
    assert_eq!(manager.state(inner), PageState::Dirty);
    assert_eq!(manager.flushed(inner), Ok(()));
    assert!(manager.evict(inner));
    assert!(!manager.contains(inner));
    assert_eq!(manager.state(inner), PageState::Evicted);
    assert!(!manager.evict(inner));
    assert_eq!(manager.flushed(inner), Err(PageError::NotFound));

    let head = manager
        .allocate_leaf("foo", Payload::from_buffer(&random_bytes(1, 9000), PayloadType::U8))
        .unwrap();
    for id in head..head + 3 {
        assert_eq!(manager.state(id), PageState::Dirty);
    }
    assert_eq!(manager.state(head + 3), PageState::Evicted);

    let key = "k".repeat(4000);
    let full = manager.allocate_inner().unwrap();
    assert_eq!(manager.insert_inner(full, &key, 1), Ok(()));
    assert_eq!(manager.flushed(full), Ok(()));
    assert_eq!(manager.insert_inner(full, &key, 2), Err(PageError::NoSpace));
    assert_eq!(manager.state(full), PageState::Clean);

    let mut page = SlottedPage::new_leaf(500);
    page.set_flags(1);
    assert_eq!(manager.write(page), Ok(()));
    assert_eq!(manager.state(500), PageState::Clean);
    assert_eq!(manager.install(600, *SlottedPage::new_leaf(600).buffer()), Ok(()));
    assert_eq!(manager.state(600), PageState::Clean);
}
