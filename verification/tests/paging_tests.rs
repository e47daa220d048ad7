use slotted_index::errors::PageError;
use slotted_index::layout::{
    PSize, PageId, OFFSET_FREE_END, OFFSET_FREE_START, OFFSET_NUM_OF_SLOTS, PAGE_SIZE,
    PAGE_SIZE_USIZE, RECORD_HEADER_SIZE, RECORD_OVERHEAD, SIZE_OF_SLOT_TABLE_ITEM,
    TOTAL_HEADER_SIZE,
};
use slotted_index::paging::{PageType, SlottedPage};
use slotted_index::types::{Payload, PayloadType};

fn bytes_of(seed: u32, len: usize) -> Vec<u8> {
    let mut state = seed;
    let mut out = Vec::with_capacity(len);
    for _ in 0..len {
        state = state.wrapping_mul(1664525).wrapping_add(1013904223);
        out.push((state >> 24) as u8);
    }
    out
}

#[test]
fn test_add_slot_results_in_correct_num_of_slots() {
    let mut new_inner = SlottedPage::new_inner(1);
    let _ = new_inner.add_key_ref("abc", 123 as PageId);
    let _ = new_inner.add_key_ref("xyz", 789 as PageId);
    assert_eq!(new_inner.num_of_slots(), 2);
}

#[test]
fn verify_available_space_empty_page() {
    let new_inner = SlottedPage::new_inner(1);
    let available_space = new_inner.available_size();
    let total_empty_size = PAGE_SIZE - TOTAL_HEADER_SIZE as PSize;
    assert_eq!(available_space, total_empty_size as PSize);
}

#[test]
fn verify_available_space_after_insertion() {
    let key = "abc";
    let mut new_inner = SlottedPage::new_inner(1);
    let _ = new_inner.add_key_ref(key, 123 as PageId);
    let _ = new_inner.add_key_ref(key, 123 as PageId);
    let available_space = new_inner.available_size();
    let total_empty_size = PAGE_SIZE
        - (TOTAL_HEADER_SIZE as PSize
            + (2 * SIZE_OF_SLOT_TABLE_ITEM as PSize)
            + (2 * SlottedPage::slot_size::<PageId>(key)));
    assert_eq!(available_space, total_empty_size as PSize);
}

#[test]
fn empty_inner_page_has_the_whole_gap() {
    let page = SlottedPage::new_inner(7);
    assert_eq!(page.num_of_slots(), 0);
    assert_eq!(page.free_start(), 20);
    assert_eq!(page.free_end(), 4096);
    assert_eq!(page.free_size(), 4076);
    assert_eq!(page.page_id(), 7);
    assert_eq!(page.page_type(), 1);
    assert_eq!(page.kind(), PageType::Inner);
    assert_eq!(page.left_most_page_id(), 0);
    assert_eq!(page.flags(), 0);
}

#[test]
fn empty_leaf_page_has_the_whole_gap() {
    let page = SlottedPage::new_leaf(3);
    assert_eq!(page.free_size(), PAGE_SIZE - TOTAL_HEADER_SIZE as PSize);
    assert_eq!(page.page_type(), 0);
    assert_eq!(page.kind(), PageType::Leaf);
    assert_eq!(page.right_sibling(), 0);
    assert_eq!(page.left_sibling(), 0);
    assert_eq!(page.parent(), 0);
}

#[test]
fn header_fields_lie_where_the_layout_says() {
    let mut page = SlottedPage::new_leaf(0x0102);
    page.set_flags(0xAB);
    page.add_left_most(0x0304);
    page.set_left_sibling(0x0506);
    page.set_right_sibling(0x0708);
    page.set_parent(0x090A);
    let bytes = page.buffer();
    assert_eq!(&bytes[0..2], &[0, 0]);
    assert_eq!(&bytes[2..4], &[0x02, 0x01]);
    assert_eq!(bytes[4], 0);
    assert_eq!(bytes[5], 0xAB);
    assert_eq!(&bytes[6..8], &[0x04, 0x03]);
    assert_eq!(&bytes[8..10], &[0x06, 0x05]);
    assert_eq!(&bytes[10..12], &[0x08, 0x07]);
    assert_eq!(&bytes[12..14], &[0x0A, 0x09]);
    assert_eq!(&bytes[14..16], &[20, 0]);
    assert_eq!(&bytes[16..18], &[0x00, 0x10]);
    assert_eq!(&bytes[18..20], &[0, 0]);
    assert_eq!(page.left_most_page_id(), 0x0304);
    assert_eq!(page.left_sibling(), 0x0506);
    assert_eq!(page.right_sibling(), 0x0708);
    assert_eq!(page.parent(), 0x090A);
    assert_eq!(page.flags(), 0xAB);
    assert_eq!(page.free_size(), 4076);
}

#[test]
fn two_small_inserts_with_three_byte_payloads() {
    let mut page = SlottedPage::new_inner(1);
    let mut first = Payload::from_str(String::from("123"));
    let mut second = Payload::from_str(String::from("789"));
    assert_eq!(page.append_record(b"abc", PayloadType::Str, &mut first), Ok(3));
    assert_eq!(page.append_record(b"xyz", PayloadType::Str, &mut second), Ok(3));
    assert_eq!(page.num_of_slots(), 2);
    assert_eq!(page.free_size(), 4076 - 2 * 14);
    assert_eq!(page.free_size(), 4048);
}

#[test]
fn two_small_inserts_of_child_pages() {
    let mut page = SlottedPage::new_inner(1);
    assert_eq!(page.add_key_ref("abc", 123u16), Ok(()));
    assert_eq!(page.add_key_ref("xyz", 789u16), Ok(()));
    assert_eq!(page.num_of_slots(), 2);
    assert_eq!(page.free_size(), 4076 - 2 * 13);
    let first = page.read_slot(0).unwrap();
    assert_eq!(first.key, b"abc".to_vec());
    assert_eq!(first.payload_head, vec![123u8, 0]);
    assert_eq!(first.payload_type, PayloadType::U16);
    assert_eq!(first.payload_len, 2);
    let second = page.read_slot(1).unwrap();
    assert_eq!(second.key, b"xyz".to_vec());
    assert_eq!(second.payload_head, vec![0x15u8, 0x03]);
}

#[test]
fn record_bytes_are_laid_out_in_insertion_order() {
    let mut page = SlottedPage::new_leaf(1);
    let mut payload = Payload::from_str(String::from("123"));
    assert_eq!(page.append_record(b"abcdefg", PayloadType::Str, &mut payload), Ok(3));
    let start = 4096 - (RECORD_HEADER_SIZE + 7 + 3);
    assert_eq!(page.free_end() as usize, start);
    assert_eq!(page.free_start() as usize, TOTAL_HEADER_SIZE + 2);
    let bytes = page.buffer();
    assert_eq!(&bytes[start..start + 2], &[3, 0]);
    assert_eq!(bytes[start + 2], 1);
    assert_eq!(&bytes[start + 3..start + 5], &[7, 0]);
    assert_eq!(bytes[start + 5], 1);
    assert_eq!(&bytes[start + 6..start + 13], b"abcdefg");
    assert_eq!(&bytes[start + 13..4096], b"123");
    assert_eq!(&bytes[20..22], &[(start % 256) as u8, (start / 256) as u8]);
    assert_eq!(&bytes[OFFSET_NUM_OF_SLOTS..OFFSET_NUM_OF_SLOTS + 2], &[1, 0]);
    assert_eq!(&bytes[OFFSET_FREE_START..OFFSET_FREE_START + 2], &[22, 0]);
    assert_eq!(
        &bytes[OFFSET_FREE_END..OFFSET_FREE_END + 2],
        &[(start % 256) as u8, (start / 256) as u8]
    );
}

#[test]
fn round_trip_read_of_two_records() {
    let mut page = SlottedPage::new_leaf(1);
    let mut first = Payload::from_str(String::from("123"));
    let mut second = Payload::from_str(String::from("234"));
    assert_eq!(page.append_record(b"abcdefg", PayloadType::Str, &mut first), Ok(3));
    assert_eq!(page.append_record(b"xyz", PayloadType::Str, &mut second), Ok(3));
    let one = page.read_slot(0).unwrap();
    assert_eq!(one.key, b"abcdefg".to_vec());
    assert_eq!(one.key_type, PayloadType::Str);
    assert_eq!(one.payload_head, b"123".to_vec());
    assert_eq!(one.payload_type, PayloadType::Str);
    assert_eq!(one.payload_len, 3);
    let two = page.read_slot(1).unwrap();
    assert_eq!(two.key, b"xyz".to_vec());
    assert_eq!(two.payload_head, b"234".to_vec());
    assert_eq!(two.payload_len, 3);
    assert_eq!(page.read_slot(2).unwrap_err(), PageError::NotFound);
}

#[test]
fn equal_records_shrink_the_gap_evenly() {
    let mut page = SlottedPage::new_leaf(1);
    let record_size = RECORD_HEADER_SIZE + 4 + 10;
    for n in 1..=50usize {
        let mut payload = Payload::from_buffer(&bytes_of(n as u32, 10), PayloadType::U8);
        assert_eq!(page.append_record(b"key4", PayloadType::Str, &mut payload), Ok(10));
        assert_eq!(
            page.free_size() as usize,
            PAGE_SIZE_USIZE - TOTAL_HEADER_SIZE - n * (SIZE_OF_SLOT_TABLE_ITEM + record_size)
        );
        assert_eq!(page.num_of_slots() as usize, n);
        assert!(TOTAL_HEADER_SIZE <= page.free_start() as usize);
        assert!(page.free_start() <= page.free_end());
        assert!(page.free_end() as usize <= PAGE_SIZE_USIZE);
        assert_eq!(
            page.free_start() as usize - TOTAL_HEADER_SIZE,
            page.num_of_slots() as usize * 2
        );
    }
}

#[test]
fn payload_is_cut_to_the_room_that_is_left() {
    let mut page = SlottedPage::new_leaf(1);
    let data = bytes_of(9, 5000);
    let mut payload = Payload::from_buffer(&data, PayloadType::U8);
    let room = 4076 - RECORD_OVERHEAD - SIZE_OF_SLOT_TABLE_ITEM - 3;
    assert_eq!(page.append_record(b"foo", PayloadType::Str, &mut payload), Ok(room));
    assert_eq!(payload.len(), 5000 - room);
    let record = page.read_slot(0).unwrap();
    assert_eq!(record.payload_len, 5000);
    assert_eq!(record.payload_head, data[..room].to_vec());
    assert_eq!(page.free_size() as usize, RECORD_OVERHEAD - RECORD_HEADER_SIZE);
}

#[test]
fn no_space_leaves_the_page_unchanged() {
    let mut page = SlottedPage::new_leaf(1);
    let mut filler = Payload::from_buffer(&bytes_of(1, 4000), PayloadType::U8);
    assert_eq!(page.append_record(b"k", PayloadType::Str, &mut filler), Ok(4000));
    let before = *page.buffer();
    let free = page.free_size() as usize;
    assert_eq!(free, 4076 - 2 - 6 - 1 - 4000);
    let long_key = vec![b'x'; free - RECORD_OVERHEAD - SIZE_OF_SLOT_TABLE_ITEM];
    let mut payload = Payload::from_str(String::from("p"));
    assert_eq!(
        page.append_record(&long_key, PayloadType::Str, &mut payload),
        Err(PageError::NoSpace)
    );
    assert_eq!(*page.buffer(), before);
    assert_eq!(payload.len(), 1);
    let fitting_key = vec![b'x'; free - RECORD_OVERHEAD - SIZE_OF_SLOT_TABLE_ITEM - 1];
    assert_eq!(page.append_record(&fitting_key, PayloadType::Str, &mut payload), Ok(1));
}

#[test]
fn child_entry_is_added_whole_or_not_at_all() {
    let mut page = SlottedPage::new_inner(1);
    let mut filler = Payload::from_buffer(&bytes_of(1, 4076 - 8 - 14), PayloadType::U8);
    assert_eq!(page.append_record(b"", PayloadType::Str, &mut filler), Ok(4076 - 8 - 14));
    assert_eq!(page.free_size(), 14);
    let before = *page.buffer();
    assert_eq!(page.add_key_ref("abc", 5), Err(PageError::NoSpace));
    assert_eq!(*page.buffer(), before);
    assert_eq!(page.add_key_ref("ab", 5), Ok(()));
    assert_eq!(page.free_size(), 14 - 2 - 6 - 2 - 2);
}

#[test]
fn payload_longer_than_sixteen_bits_is_out_of_range() {
    let mut page = SlottedPage::new_leaf(1);
    let mut payload = Payload::from_buffer(&vec![0u8; 65536], PayloadType::U8);
    assert_eq!(
        page.append_record(b"foo", PayloadType::Str, &mut payload),
        Err(PageError::OutOfRange)
    );
    assert_eq!(page.append_overflow(&mut payload), Err(PageError::OutOfRange));
    assert_eq!(page.num_of_slots(), 0);
    let mut longest = Payload::from_buffer(&vec![7u8; 65535], PayloadType::U8);
    assert_eq!(page.append_record(b"foo", PayloadType::Str, &mut longest), Ok(4063));
    assert_eq!(page.read_slot(0).unwrap().payload_len, 65535);
}

#[test]
fn overflow_record_round_trip() {
    let mut page = SlottedPage::new_leaf(2);
    let data = bytes_of(3, 5000);
    let mut payload = Payload::from_buffer(&data, PayloadType::U8);
    assert_eq!(page.append_overflow(&mut payload), Ok(4072));
    assert_eq!(page.free_size(), 0);
    assert_eq!(page.free_start(), page.free_end());
    let record = page.read_overflow().unwrap();
    assert_eq!(record.remaining_len, 5000);
    assert_eq!(record.chunk, data[..4072].to_vec());
    let bytes = page.buffer();
    assert_eq!(&bytes[22..24], &[(5000 % 256) as u8, (5000 / 256) as u8]);
    let mut rest = SlottedPage::new_leaf(3);
    assert_eq!(rest.append_overflow(&mut payload), Ok(5000 - 4072));
    let tail = rest.read_overflow().unwrap();
    assert_eq!(tail.remaining_len, 5000 - 4072);
    assert_eq!(tail.chunk, data[4072..].to_vec());
    assert_eq!(rest.append_overflow(&mut payload), Ok(0));
    assert_eq!(rest.read_overflow().unwrap_err(), PageError::CorruptChain);
}

#[test]
fn overflow_record_needs_room_for_one_byte() {
    let mut page = SlottedPage::new_leaf(2);
    let mut filler = Payload::from_buffer(&bytes_of(1, 4076 - 8 - 4), PayloadType::U8);
    assert_eq!(page.append_record(b"", PayloadType::Str, &mut filler), Ok(4076 - 8 - 4));
    assert_eq!(page.free_size(), 4);
    let mut payload = Payload::from_str(String::from("z"));
    assert_eq!(page.append_overflow(&mut payload), Err(PageError::NoSpace));
    assert_eq!(payload.len(), 1);
}

#[test]
fn empty_page_has_no_overflow_record() {
    let page = SlottedPage::new_leaf(2);
    assert_eq!(page.read_overflow().unwrap_err(), PageError::CorruptChain);
    assert_eq!(page.read_slot(0).unwrap_err(), PageError::NotFound);
}

#[test]
fn unknown_type_tag_is_corrupt() {
    let mut page = SlottedPage::new_leaf(1);
    let mut payload = Payload::from_str(String::from("123"));
    assert_eq!(page.append_record(b"abc", PayloadType::Str, &mut payload), Ok(3));
    let mut bytes = *page.buffer();
    let start = page.free_end() as usize;
    bytes[start + 2] = 9;
    let broken = SlottedPage::new_from(bytes).unwrap();
    assert_eq!(broken.read_slot(0).unwrap_err(), PageError::CorruptChain);
    let mut bytes = *page.buffer();
    bytes[start + 5] = 0;
    let broken = SlottedPage::new_from(bytes).unwrap();
    assert_eq!(broken.read_slot(0).unwrap_err(), PageError::CorruptChain);
    let mut bytes = *page.buffer();
    bytes[start + 3] = 200;
    let broken = SlottedPage::new_from(bytes).unwrap();
    assert_eq!(broken.read_slot(0).unwrap_err(), PageError::CorruptChain);
}

#[test]
fn page_bytes_are_taken_over_only_if_well_formed() {
    let mut page = SlottedPage::new_leaf(4);
    let mut payload = Payload::from_str(String::from("123"));
    assert_eq!(page.append_record(b"abc", PayloadType::Str, &mut payload), Ok(3));
    let good = *page.buffer();
    let copy = SlottedPage::new_from(good).unwrap();
    assert_eq!(*copy.buffer(), good);
    assert_eq!(copy.read_slot(0).unwrap().key, b"abc".to_vec());

    assert!(matches!(SlottedPage::new_from([0u8; PAGE_SIZE_USIZE]), Err(PageError::CorruptChain)));
    let mut bad = good;
    bad[OFFSET_NUM_OF_SLOTS] = 2;
    assert!(matches!(SlottedPage::new_from(bad), Err(PageError::CorruptChain)));
    let mut bad = good;
    bad[OFFSET_FREE_END] = bad[OFFSET_FREE_END].wrapping_add(1);
    assert!(matches!(SlottedPage::new_from(bad), Err(PageError::CorruptChain)));
    let mut bad = good;
    bad[20] = 0;
    bad[21] = 0;
    assert!(matches!(SlottedPage::new_from(bad), Err(PageError::CorruptChain)));
    let mut bad = good;
    bad[OFFSET_FREE_START] = 18;
    assert!(matches!(SlottedPage::new_from(bad), Err(PageError::CorruptChain)));
}

#[test]
fn little_endian_helpers_round_trip() {
    let mut buffer = [0u8; PAGE_SIZE_USIZE];
    SlottedPage::write_le(&mut buffer, 100, 0xBEEF);
    assert_eq!(buffer[100], 0xEF);
    assert_eq!(buffer[101], 0xBE);
    assert_eq!(SlottedPage::read_le(&buffer, 100), 0xBEEF);
    SlottedPage::write_le(&mut buffer, 4094, 65535);
    assert_eq!(SlottedPage::read_le(&buffer, 4094), 65535);
}

#[test]
fn setters_change_one_field_only() {
    let mut page = SlottedPage::new_leaf(1);
    let mut payload = Payload::from_str(String::from("123"));
    assert_eq!(page.append_record(b"abc", PayloadType::Str, &mut payload), Ok(3));
    page.set_page_id(77);
    page.set_page_type(1);
    assert_eq!(page.page_id(), 77);
    assert_eq!(page.page_type(), 1);
    assert_eq!(page.num_of_slots(), 1);
    assert_eq!(page.read_slot(0).unwrap().payload_head, b"123".to_vec());
    assert_eq!(page.free_size(), 4076 - 2 - 12);
}

#[test]
fn error_names() {
    assert_eq!(PageError::NoSpace.describe(), "no space left on page");
    assert_eq!(PageError::OutOfRange.describe(), "offset or length out of range");
    assert_eq!(PageError::NotFound.describe(), "page or slot not found");
    assert_eq!(PageError::IoError.describe(), "i/o error on the backing file");
    assert_eq!(PageError::CorruptChain.describe(), "corrupt page or overflow chain");
}

#[test]
fn well_formedness_is_checked_at_run_time() {
    let mut page = SlottedPage::new_leaf(4);
    assert!(page.is_well_formed());
    let mut payload = Payload::from_str(String::from("123"));
    assert_eq!(page.append_record(b"abc", PayloadType::Str, &mut payload), Ok(3));
    assert!(page.is_well_formed());
    page.set_right_sibling(9);
    assert!(page.is_well_formed());
}

#[test]
fn page_text_is_the_lossy_reading_of_its_bytes() {
    let mut page = SlottedPage::new_leaf(4);
    let mut payload = Payload::from_str(String::from("123"));
    assert_eq!(page.append_record(b"abc", PayloadType::Str, &mut payload), Ok(3));
    let text = page.text();
    assert_eq!(text, String::from_utf8_lossy(page.buffer()).to_string());
    assert!(text.ends_with("abc123"));
    assert_eq!(text.chars().count(), 4096);
    page.set_flags(0xFF);
    assert_eq!(page.text().chars().nth(5), Some('\u{FFFD}'));
}
