use bin_layout::{
    decode_bytes, deserialize, encode_bytes, encode_str, from_bytes, serialize, to_bytes, DataType,
    ErrorKind,
};
use data_view::DataView;

#[test]
fn fixed_width_integers_are_little_endian() {
    assert_eq!(to_bytes(&0xABu8).unwrap(), vec![0xAB]);
    assert_eq!(to_bytes(&0x1234u16).unwrap(), vec![0x34, 0x12]);
    assert_eq!(to_bytes(&0x12345678u32).unwrap(), vec![0x78, 0x56, 0x34, 0x12]);
    assert_eq!(
        to_bytes(&0x0102030405060708u64).unwrap(),
        vec![0x08, 0x07, 0x06, 0x05, 0x04, 0x03, 0x02, 0x01]
    );
}

#[test]
fn fixed_width_integers_read_back() {
    assert_eq!(from_bytes::<u8>(vec![0xAB, 1]), Ok((0xAB, 1)));
    assert_eq!(from_bytes::<u16>(vec![0x34, 0x12, 1]), Ok((0x1234, 2)));
    assert_eq!(from_bytes::<u32>(vec![0x78, 0x56, 0x34, 0x12]), Ok((0x12345678, 4)));
    assert_eq!(
        from_bytes::<u64>(vec![0x08, 0x07, 0x06, 0x05, 0x04, 0x03, 0x02, 0x01, 0xFF]),
        Ok((0x0102030405060708, 8))
    );
}

#[test]
fn fixed_width_integers_need_all_their_bytes() {
    assert_eq!(from_bytes::<u8>(vec![]), Err(ErrorKind::InsufficientBytes));
    assert_eq!(from_bytes::<u16>(vec![1]), Err(ErrorKind::InsufficientBytes));
    assert_eq!(from_bytes::<u32>(vec![1, 2, 3]), Err(ErrorKind::InsufficientBytes));
    assert_eq!(from_bytes::<u64>(vec![1, 2, 3, 4, 5, 6, 7]), Err(ErrorKind::InsufficientBytes));
}

#[test]
fn fixed_width_size_hints() {
    assert_eq!(1u8.size_hint(), 1);
    assert_eq!(1u16.size_hint(), 2);
    assert_eq!(1u32.size_hint(), 4);
    assert_eq!(1u64.size_hint(), 8);
}

#[test]
fn text_is_prefixed_by_its_byte_length() {
    let text = String::from("héllo");
    assert_eq!(text.chars().count(), 5);
    let bytes = to_bytes(&text).unwrap();
    assert_eq!(bytes, vec![6, b'h', 0xC3, 0xA9, b'l', b'l', b'o']);
    assert_eq!(from_bytes::<String>(bytes), Ok((text, 7)));
}

#[test]
fn long_text_takes_a_two_byte_prefix() {
    let text = "a".repeat(300);
    let bytes = to_bytes(&text).unwrap();
    assert_eq!(bytes.len(), 302);
    assert_eq!(&bytes[..2], &[0xAC, 0x02]);
    assert_eq!(from_bytes::<String>(bytes), Ok((text, 302)));
}

#[test]
fn text_size_hint_is_an_upper_bound() {
    let text = String::from("abc");
    assert_eq!(text.size_hint(), 5);
    assert!(to_bytes(&text).unwrap().len() <= text.size_hint());
}

#[test]
fn text_longer_than_the_prefix_allows_is_refused() {
    let text = "a".repeat(32768);
    assert_eq!(to_bytes(&text), Err(ErrorKind::InvalidLength));
    let text = "a".repeat(32767);
    assert_eq!(to_bytes(&text).unwrap().len(), 32769);
}

#[test]
fn text_that_is_not_utf8_is_refused() {
    assert_eq!(from_bytes::<String>(vec![2, 0xFF, 0xFE]), Err(ErrorKind::Utf8Error(0)));
    assert_eq!(from_bytes::<String>(vec![1, 0xC3]), Err(ErrorKind::Utf8Error(0)));
    assert_eq!(from_bytes::<String>(vec![3, b'a', 0xFF, b'b']), Err(ErrorKind::Utf8Error(1)));
    assert_eq!(
        from_bytes::<String>(vec![4, b'a', 0xC3, 0xA9, 0xC3, 7]),
        Err(ErrorKind::Utf8Error(3))
    );
}

#[test]
fn text_shorter_than_announced_is_refused() {
    assert_eq!(from_bytes::<String>(vec![3, b'a', b'b']), Err(ErrorKind::InsufficientBytes));
    assert_eq!(from_bytes::<String>(vec![]), Err(ErrorKind::InsufficientBytes));
    assert_eq!(from_bytes::<String>(vec![0x80]), Err(ErrorKind::InsufficientBytes));
}

#[test]
fn empty_sequence_is_the_zero_prefix_alone() {
    let empty: Vec<u32> = Vec::new();
    assert_eq!(to_bytes(&empty).unwrap(), vec![0]);
    assert_eq!(from_bytes::<Vec<u32>>(vec![0]), Ok((Vec::new(), 1)));
    let empty: Vec<String> = Vec::new();
    assert_eq!(to_bytes(&empty).unwrap(), vec![0]);
    assert_eq!(from_bytes::<Vec<String>>(vec![0]), Ok((Vec::new(), 1)));
}

#[test]
fn sequence_counts_items_not_bytes() {
    let items: Vec<u16> = vec![1, 2, 3];
    let bytes = to_bytes(&items).unwrap();
    assert_eq!(bytes, vec![3, 1, 0, 2, 0, 3, 0]);
    assert_eq!(from_bytes::<Vec<u16>>(bytes), Ok((items, 7)));
}

#[test]
fn sequence_items_may_differ_in_size() {
    let items = vec![String::from("a"), String::new(), String::from("xyz")];
    let bytes = to_bytes(&items).unwrap();
    assert_eq!(bytes, vec![3, 1, b'a', 0, 3, b'x', b'y', b'z']);
    assert_eq!(items.size_hint(), 2 + 3 + 2 + 5);
    assert_eq!(from_bytes::<Vec<String>>(bytes), Ok((items, 8)));
}

#[test]
fn byte_run_is_a_sequence_of_bytes() {
    let run: Vec<u8> = vec![9, 8, 7];
    let bytes = to_bytes(&run).unwrap();
    assert_eq!(bytes, vec![3, 9, 8, 7]);
    assert_eq!(from_bytes::<Vec<u8>>(bytes), Ok((run, 4)));
}

#[test]
fn sequence_stops_at_the_first_item_that_fails() {
    assert_eq!(from_bytes::<Vec<u16>>(vec![2, 1, 0, 2]), Err(ErrorKind::InsufficientBytes));
    assert_eq!(
        from_bytes::<Vec<String>>(vec![2, 1, 0xFF, 1, b'a']),
        Err(ErrorKind::Utf8Error(0))
    );
    let items = vec![String::from("ok"), "a".repeat(40000)];
    let mut out = vec![7u8];
    assert_eq!(items.encoder(&mut out), Err(ErrorKind::InvalidLength));
    assert_eq!(out[0], 7);
}

#[test]
fn sequence_longer_than_the_prefix_allows_is_refused() {
    let items: Vec<u8> = vec![0; 32768];
    assert_eq!(to_bytes(&items), Err(ErrorKind::InvalidLength));
}

#[test]
fn nested_sequences_round_trip() {
    let items: Vec<Vec<u16>> = vec![vec![], vec![500], vec![1, 2]];
    let bytes = to_bytes(&items).unwrap();
    assert_eq!(bytes, vec![3, 0, 1, 0xF4, 0x01, 2, 1, 0, 2, 0]);
    let n = bytes.len();
    assert_eq!(from_bytes::<Vec<Vec<u16>>>(bytes), Ok((items, n)));
}

#[test]
fn box_is_transparent() {
    let plain = String::from("boxed");
    let boxed = Box::new(plain.clone());
    assert_eq!(to_bytes(&boxed).unwrap(), to_bytes(&plain).unwrap());
    assert_eq!(boxed.size_hint(), plain.size_hint());
    let bytes = to_bytes(&plain).unwrap();
    let n = bytes.len();
    assert_eq!(from_bytes::<Box<String>>(bytes.clone()), Ok((boxed, n)));
    assert_eq!(from_bytes::<String>(bytes), Ok((plain, n)));
    assert_eq!(to_bytes(&Box::new(0x1234u16)).unwrap(), vec![0x34, 0x12]);
    assert_eq!(from_bytes::<Box<u16>>(vec![1]), Err(ErrorKind::InsufficientBytes));
}

#[test]
fn serialize_writes_at_the_offset() {
    let mut view = DataView::new(vec![0u8; 6]);
    view.offset = 1;
    assert_eq!(serialize(&0xBEEFu16, &mut view), Ok(()));
    assert_eq!(view.offset, 3);
    assert_eq!(serialize(&String::from("hi"), &mut view), Ok(()));
    assert_eq!(view.offset, 6);
    assert_eq!(view.data, vec![0, 0xEF, 0xBE, 2, b'h', b'i']);
}

#[test]
fn serialize_writes_all_or_nothing() {
    let mut view = DataView::new(vec![0u8; 3]);
    assert_eq!(serialize(&String::from("abc"), &mut view), Err(ErrorKind::InsufficientBytes));
    assert_eq!(view.offset, 0);
    assert_eq!(view.data, vec![0, 0, 0]);
    assert_eq!(serialize(&"a".repeat(40000), &mut view), Err(ErrorKind::InvalidLength));
    assert_eq!(view.offset, 0);
    view.offset = 10;
    assert_eq!(serialize(&1u8, &mut view), Err(ErrorKind::InsufficientBytes));
    assert_eq!(view.offset, 10);
}

#[test]
fn deserialize_moves_the_offset_by_what_it_read() {
    let mut view = DataView::new(vec![0xFF, 2, b'o', b'k', 0x34, 0x12, 9]);
    view.offset = 1;
    assert_eq!(deserialize::<String>(&mut view), Ok(String::from("ok")));
    assert_eq!(view.offset, 4);
    assert_eq!(deserialize::<u16>(&mut view), Ok(0x1234));
    assert_eq!(view.offset, 6);
    assert_eq!(deserialize::<u16>(&mut view), Err(ErrorKind::InsufficientBytes));
    assert_eq!(view.data, vec![0xFF, 2, b'o', b'k', 0x34, 0x12, 9]);
}

#[test]
fn deserialize_past_the_end_is_refused() {
    let mut view = DataView::new(vec![1u8, 2]);
    view.offset = 5;
    assert_eq!(deserialize::<u8>(&mut view), Err(ErrorKind::InsufficientBytes));
    view.offset = usize::MAX;
    assert_eq!(deserialize::<u32>(&mut view), Err(ErrorKind::InsufficientBytes));
    assert_eq!(deserialize::<String>(&mut view), Err(ErrorKind::InsufficientBytes));
}

#[test]
fn serialize_then_deserialize() {
    let items = vec![String::from("one"), String::from("two")];
    let mut view = DataView::new(vec![0u8; 32]);
    view.offset = 4;
    assert_eq!(serialize(&items, &mut view), Ok(()));
    let end = view.offset;
    assert_eq!(end, 4 + 1 + 4 + 4);
    view.offset = 4;
    assert_eq!(deserialize::<Vec<String>>(&mut view), Ok(items));
    assert_eq!(view.offset, end);
}

#[test]
fn byte_run_and_borrowed_text() {
    let mut out = vec![0xEEu8];
    assert_eq!(encode_bytes(&[9, 8, 7], &mut out), Ok(()));
    assert_eq!(encode_str("hé", &mut out), Ok(()));
    assert_eq!(out, vec![0xEE, 3, 9, 8, 7, 3, b'h', 0xC3, 0xA9]);
    let mut view = DataView::new(out);
    view.offset = 1;
    assert_eq!(decode_bytes(&mut view), Ok(vec![9, 8, 7]));
    assert_eq!(view.offset, 5);
    assert_eq!(deserialize::<String>(&mut view), Ok(String::from("hé")));
    assert_eq!(view.offset, 9);
    assert_eq!(decode_bytes(&mut view), Err(ErrorKind::InsufficientBytes));
}

#[test]
fn byte_run_edge_cases() {
    let mut out = Vec::new();
    assert_eq!(encode_bytes(&[], &mut out), Ok(()));
    assert_eq!(out, vec![0]);
    assert_eq!(encode_bytes(&vec![0u8; 32768], &mut out), Err(ErrorKind::InvalidLength));
    assert_eq!(out, vec![0]);
    let mut view = DataView::new(vec![0u8, 2, 1]);
    assert_eq!(decode_bytes(&mut view), Ok(Vec::new()));
    assert_eq!(view.offset, 1);
    assert_eq!(decode_bytes(&mut view), Err(ErrorKind::InsufficientBytes));
    let run: Vec<u8> = (0..200).collect();
    assert_eq!(encode_bytes(&run, &mut out), Ok(()));
    assert_eq!(to_bytes(&run).unwrap(), out[1..].to_vec());
    let mut view = DataView::new(out);
    view.offset = 1;
    assert_eq!(decode_bytes(&mut view), Ok(run));
    assert_eq!(view.offset, 203);
}
