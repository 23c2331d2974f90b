use bin_layout::{deserialize, from_bytes, serialize, to_bytes, DataType, ErrorKind, LenField, Record};
use data_view::DataView;

#[test]
fn test_name() {
    let record: Record<u8, String> = String::from("HelloWorld").into();
    assert_eq!(record.len(), 10);

    let mut buf = DataView::new(vec![0u8; 16]);
    serialize(&record, &mut buf).unwrap();
    // One byte for length, 10 bytes for string
    assert_eq!(buf.offset, 11);
}

#[test]
fn record_u8_text_is_one_length_byte_and_the_text() {
    let record: Record<u8, String> = Record::new(String::from("HelloWorld"));
    let bytes = to_bytes(&record).unwrap();
    assert_eq!(bytes.len(), 11);
    assert_eq!(bytes[0], 10);
    assert_eq!(&bytes[1..], b"HelloWorld");
    assert_eq!(record.size_hint(), 11);
    assert_eq!(from_bytes::<Record<u8, String>>(bytes), Ok((record, 11)));
}

#[test]
fn record_u8_refuses_a_payload_over_255() {
    let record: Record<u8, String> = Record::new("a".repeat(256));
    assert_eq!(to_bytes(&record), Err(ErrorKind::InvalidLength));
    let mut out = vec![1u8, 2];
    assert_eq!(record.encoder(&mut out), Err(ErrorKind::InvalidLength));
    assert_eq!(out, vec![1u8, 2]);
    let record: Record<u8, String> = Record::new("a".repeat(255));
    assert_eq!(to_bytes(&record).unwrap().len(), 256);
    let record: Record<u8, Vec<u8>> = Record::new(vec![0u8; 256]);
    assert_eq!(to_bytes(&record), Err(ErrorKind::InvalidLength));
}

#[test]
fn record_length_fields_are_little_endian() {
    let text = "a".repeat(258);
    let r16: Record<u16, String> = Record::new(text.clone());
    assert_eq!(&to_bytes(&r16).unwrap()[..3], &[0x02, 0x01, b'a']);
    let r32: Record<u32, String> = Record::new(text.clone());
    assert_eq!(&to_bytes(&r32).unwrap()[..5], &[0x02, 0x01, 0, 0, b'a']);
    let r64: Record<u64, String> = Record::new(text.clone());
    assert_eq!(&to_bytes(&r64).unwrap()[..9], &[0x02, 0x01, 0, 0, 0, 0, 0, 0, b'a']);
    assert_eq!(r16.size_hint(), 260);
    assert_eq!(r32.size_hint(), 262);
    assert_eq!(r64.size_hint(), 266);
}

#[test]
fn record_round_trips_for_each_length_type() {
    let text = String::from("payload");
    let r: Record<u16, String> = Record::new(text.clone());
    let bytes = to_bytes(&r).unwrap();
    assert_eq!(from_bytes::<Record<u16, String>>(bytes), Ok((r, 9)));
    let r: Record<u32, String> = Record::new(text.clone());
    let bytes = to_bytes(&r).unwrap();
    assert_eq!(from_bytes::<Record<u32, String>>(bytes), Ok((r, 11)));
    let r: Record<u64, String> = Record::new(text.clone());
    let bytes = to_bytes(&r).unwrap();
    assert_eq!(from_bytes::<Record<u64, String>>(bytes), Ok((r, 15)));
    let r: Record<u16, String> = Record::new("b".repeat(70000));
    assert_eq!(to_bytes(&r), Err(ErrorKind::InvalidLength));
}

#[test]
fn record_of_items_counts_items() {
    let record: Record<u16, Vec<String>> = Record::new(vec![String::from("ab"), String::from("c")]);
    let bytes = to_bytes(&record).unwrap();
    assert_eq!(bytes, vec![2, 0, 2, b'a', b'b', 1, b'c']);
    assert_eq!(record.size_hint(), 2 + 4 + 3);
    assert_eq!(from_bytes::<Record<u16, Vec<String>>>(bytes), Ok((record, 7)));
}

#[test]
fn empty_record_is_the_length_field_alone() {
    let record: Record<u32, Vec<u16>> = Record::new(Vec::new());
    assert_eq!(to_bytes(&record).unwrap(), vec![0, 0, 0, 0]);
    assert_eq!(from_bytes::<Record<u32, Vec<u16>>>(vec![0, 0, 0, 0]), Ok((record, 4)));
    let record: Record<u8, String> = Record::new(String::new());
    assert_eq!(to_bytes(&record).unwrap(), vec![0]);
    assert_eq!(from_bytes::<Record<u8, String>>(vec![0]), Ok((record, 1)));
}

#[test]
fn record_decode_errors() {
    assert_eq!(from_bytes::<Record<u16, String>>(vec![1]), Err(ErrorKind::InsufficientBytes));
    assert_eq!(
        from_bytes::<Record<u8, String>>(vec![3, b'a', b'b']),
        Err(ErrorKind::InsufficientBytes)
    );
    assert_eq!(from_bytes::<Record<u8, String>>(vec![1, 0xFF]), Err(ErrorKind::InvalidData));
    assert_eq!(
        from_bytes::<Record<u8, Vec<u16>>>(vec![2, 1, 0, 2]),
        Err(ErrorKind::InsufficientBytes)
    );
    assert_eq!(
        from_bytes::<Record<u8, Vec<String>>>(vec![1, 1, 0x80]),
        Err(ErrorKind::Utf8Error(0))
    );
    assert_eq!(
        from_bytes::<Record<u64, String>>(vec![0xFF, 0xFF, 0xFF, 0xFF, 0xFF, 0xFF, 0xFF, 0x7F]),
        Err(ErrorKind::InsufficientBytes)
    );
}

#[test]
fn record_through_a_view() {
    let record: Record<u8, Vec<u16>> = vec![7u16, 8, 9].into();
    let mut view = DataView::new(vec![0u8; 8]);
    view.offset = 1;
    assert_eq!(serialize(&record, &mut view), Ok(()));
    assert_eq!(view.offset, 8);
    assert_eq!(view.data, vec![0, 3, 7, 0, 8, 0, 9, 0]);
    view.offset = 1;
    assert_eq!(deserialize::<Record<u8, Vec<u16>>>(&mut view), Ok(record.clone()));
    assert_eq!(view.offset, 8);
    assert_eq!(record.into_inner(), vec![7u16, 8, 9]);
}

#[test]
fn record_gives_access_to_its_payload() {
    let mut record: Record<u16, Vec<u8>> = Record::default();
    assert_eq!(record.clone(), Record::new(Vec::new()));
    assert!(record.is_empty());
    record.push(4);
    record.push(5);
    assert_eq!(record.data, vec![4, 5]);
    assert_eq!(to_bytes(&record).unwrap(), vec![2, 0, 4, 5]);
    let other: Record<u16, Vec<u8>> = vec![4u8, 6].into();
    assert!(record < other);
    assert_ne!(record, other);
}

#[test]
fn length_fields_alone() {
    let mut out = Vec::new();
    assert_eq!(<u8 as LenField>::put(255, &mut out), Ok(()));
    assert_eq!(<u8 as LenField>::put(256, &mut out), Err(ErrorKind::InvalidLength));
    assert_eq!(<u16 as LenField>::put(65535, &mut out), Ok(()));
    assert_eq!(<u16 as LenField>::put(65536, &mut out), Err(ErrorKind::InvalidLength));
    assert_eq!(<u32 as LenField>::put(0x01020304, &mut out), Ok(()));
    assert_eq!(out, vec![255, 255, 255, 4, 3, 2, 1]);
    let mut view = DataView::new(out);
    assert_eq!(<u8 as LenField>::take(&mut view), Ok(255));
    assert_eq!(<u16 as LenField>::take(&mut view), Ok(65535));
    assert_eq!(<u32 as LenField>::take(&mut view), Ok(0x01020304));
    assert_eq!(<u8 as LenField>::take(&mut view), Err(ErrorKind::InsufficientBytes));
    assert_eq!(<u8 as LenField>::size(), 1);
    assert_eq!(<u16 as LenField>::size(), 2);
    assert_eq!(<u32 as LenField>::size(), 4);
    assert_eq!(<u64 as LenField>::size(), 8);
}
