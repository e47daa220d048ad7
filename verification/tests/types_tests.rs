use slotted_index::errors::InvalidPageOffsetError;
use slotted_index::offset::{o16, FromLeBytes, OffsetType, PagePayload, ToLeBytes};
use slotted_index::types::{to_le_vec, Payload, PayloadType};

#[test]
fn payload_type_tags() {
    assert_eq!(PayloadType::Str.tag(), 1);
    assert_eq!(PayloadType::U32.tag(), 2);
    assert_eq!(PayloadType::U16.tag(), 3);
    assert_eq!(PayloadType::I64.tag(), 4);
    assert_eq!(PayloadType::U8.tag(), 5);
    for t in [
        PayloadType::Str,
        PayloadType::U32,
        PayloadType::U16,
        PayloadType::I64,
        PayloadType::U8,
    ] {
        assert_eq!(PayloadType::from_tag(t.tag()), Some(t));
    }
    assert_eq!(PayloadType::from_tag(0), None);
    assert_eq!(PayloadType::from_tag(6), None);
    assert_eq!(PayloadType::from_tag(255), None);
}

#[test]
fn payload_constructors() {
    let s = Payload::from_str(String::from("héllo"));
    assert_eq!(s.to_bytes(), &"héllo".as_bytes().to_vec());
    assert_eq!(s.payload_type(), PayloadType::Str);
    assert_eq!(s.len(), 6);

    let a = Payload::from_u32(0x01020304);
    assert_eq!(a.to_bytes(), &vec![4u8, 3, 2, 1]);
    assert_eq!(a.payload_type(), PayloadType::U32);

    let b = Payload::from_u16(0xBEEF);
    assert_eq!(b.to_bytes(), &vec![0xEFu8, 0xBE]);
    assert_eq!(b.payload_type(), PayloadType::U16);

    let c = Payload::from_i64(-2);
    assert_eq!(c.to_bytes(), &(-2i64).to_le_bytes().to_vec());
    assert_eq!(c.payload_type(), PayloadType::I64);
    assert_eq!(Payload::from_i64(i64::MIN).to_bytes(), &i64::MIN.to_le_bytes().to_vec());
    assert_eq!(Payload::from_i64(i64::MAX).to_bytes(), &i64::MAX.to_le_bytes().to_vec());
    assert_eq!(Payload::from_i64(0x0102030405060708).to_bytes(), &vec![8u8, 7, 6, 5, 4, 3, 2, 1]);

    let d = Payload::from_buffer(&[9, 8, 7], PayloadType::U8);
    assert_eq!(d.to_bytes(), &vec![9u8, 8, 7]);
    assert_eq!(d.payload_type(), PayloadType::U8);
    assert_eq!(d.len(), 3);
}

#[test]
fn payload_read_moves_the_cursor() {
    let mut p = Payload::from_buffer(&[1, 2, 3, 4, 5], PayloadType::U8);
    let mut two = [0u8; 2];
    assert_eq!(p.read(&mut two), 2);
    assert_eq!(two, [1, 2]);
    assert_eq!(p.len(), 3);
    let mut three = [0u8; 3];
    assert_eq!(p.read(&mut three), 5);
    assert_eq!(three, [3, 4, 5]);
    assert_eq!(p.len(), 0);
    let mut more = [9u8; 2];
    assert_eq!(p.read(&mut more), 5);
    assert_eq!(more, [9, 9]);
    let mut none: [u8; 0] = [];
    assert_eq!(p.read(&mut none), 5);
    assert_eq!(p.to_bytes(), &vec![1u8, 2, 3, 4, 5]);
}

#[test]
fn little_endian_bytes_of_numbers() {
    assert_eq!(to_le_vec(0x0102030405060708, 8), vec![8u8, 7, 6, 5, 4, 3, 2, 1]);
    assert_eq!(to_le_vec(0x0102, 2), vec![2u8, 1]);
    assert_eq!(to_le_vec(0x0102, 1), vec![2u8]);
    assert_eq!(to_le_vec(7, 0), Vec::<u8>::new());
    assert_eq!(0xBEEFu16.to_le_bytes_vec(), vec![0xEFu8, 0xBE]);
    assert_eq!(0xDEADBEEFu32.to_le_bytes_vec(), vec![0xEFu8, 0xBE, 0xAD, 0xDE]);
    assert_eq!(o16(0x1234).to_le_bytes_vec(), vec![0x34u8, 0x12]);
    assert_eq!("abc".to_le_bytes_vec(), b"abc".to_vec());
}

#[test]
fn page_payload_bytes_and_length() {
    assert_eq!(PagePayload::to_le_bytes(&o16(0x0102)), vec![2u8, 1]);
    assert_eq!(PagePayload::len(&o16(0x0102)), 2);
    assert_eq!(PagePayload::to_le_bytes(&OffsetType(0x01020304u32)), vec![4u8, 3, 2, 1]);
    assert_eq!(PagePayload::len(&OffsetType(0x01020304u32)), 4);
    assert_eq!(PagePayload::to_le_bytes(&"xyz"), b"xyz".to_vec());
    assert_eq!(PagePayload::len(&"héllo"), 6);
}

#[test]
fn values_from_little_endian_bytes() {
    assert_eq!(<o16 as FromLeBytes>::from_bytes(vec![0x34, 0x12]), o16(0x1234));
    assert_eq!(<u32 as FromLeBytes>::from_bytes(vec![0xEF, 0xBE, 0xAD, 0xDE]), 0xDEADBEEF);
    assert_eq!(<u8 as FromLeBytes>::from_bytes(vec![0x7F]), 0x7F);
    assert_eq!(<u32 as FromLeBytes>::from_bytes(0xFFFFFFFFu32.to_le_bytes_vec()), 0xFFFFFFFF);
    assert_eq!(<o16 as FromLeBytes>::from_bytes(o16(65535).to_le_bytes_vec()), o16(65535));
}

#[test]
fn offsets() {
    assert_eq!(OffsetType::<u16>::of(4096), o16(4096));
    assert_eq!(OffsetType::<u16>::of(0).0, 0);
    assert_eq!(OffsetType::<u16>::of(65535).0, 65535);
    assert_eq!(o16(20) + o16(2), o16(22));
    assert_eq!(o16(4096) - o16(96), o16(4000));
    assert_eq!(o16(20) + 2i32, o16(22));
    assert_eq!(OffsetType::<u16>::try_from(4096usize), Ok(o16(4096)));
    assert_eq!(OffsetType::<u16>::try_from(65535usize), Ok(o16(65535)));
    assert_eq!(
        OffsetType::<u16>::try_from(65536usize),
        Err(InvalidPageOffsetError::OutOfRange)
    );
    assert_eq!(usize::try_from(o16(77)), Ok(77usize));
    assert!(o16(1) < o16(2));
}
