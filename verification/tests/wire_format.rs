use ray::errors::Error;
use ray::proto::SetRequest;
use ray::util::{get_children_pids, get_process_name, parse_number, try_read_u32};
use ray::wire::{append_record, read_record};

#[test]
fn record_is_length_then_content() {
    let mut buf = Vec::new();
    append_record(&mut buf, b"abc");
    assert_eq!(buf, vec![3, 0, 0, 0, b'a', b'b', b'c']);
}

#[test]
fn record_length_is_little_endian() {
    let content = vec![7u8; 0x0102];
    let mut buf = Vec::new();
    append_record(&mut buf, &content);
    assert_eq!(&buf[..4], &[0x02, 0x01, 0x00, 0x00]);
    assert_eq!(buf.len(), 4 + 0x0102);
}

#[test]
fn records_read_back_in_order() {
    let mut buf = Vec::new();
    append_record(&mut buf, b"first");
    append_record(&mut buf, b"");
    append_record(&mut buf, b"third");
    let (a, pos) = read_record(&buf, 0).unwrap().unwrap();
    assert_eq!(a, b"first".to_vec());
    assert_eq!(pos, 9);
    let (b, pos) = read_record(&buf, pos).unwrap().unwrap();
    assert_eq!(b, Vec::<u8>::new());
    assert_eq!(pos, 13);
    let (c, pos) = read_record(&buf, pos).unwrap().unwrap();
    assert_eq!(c, b"third".to_vec());
    assert_eq!(pos, buf.len());
    assert_eq!(read_record(&buf, pos), Ok(None));
}

#[test]
fn record_cut_inside_length_is_an_error() {
    let buf = vec![5u8, 0, 0];
    assert_eq!(read_record(&buf, 0), Err(Error::UnexpectedEof));
}

#[test]
fn record_cut_inside_content_is_an_error() {
    let mut buf = Vec::new();
    append_record(&mut buf, b"hello");
    buf.pop();
    assert_eq!(read_record(&buf, 0), Err(Error::UnexpectedEof));
}

#[test]
fn try_read_u32_at_end_is_none() {
    assert_eq!(try_read_u32(&[1, 2, 3, 4], 4), Ok(None));
    assert_eq!(try_read_u32(&[], 0), Ok(None));
}

#[test]
fn try_read_u32_reads_little_endian() {
    assert_eq!(try_read_u32(&[0x78, 0x56, 0x34, 0x12], 0), Ok(Some(0x1234_5678)));
    assert_eq!(try_read_u32(&[9, 1, 0, 0, 0, 9], 1), Ok(Some(1)));
}

#[test]
fn try_read_u32_cut_short_is_an_error() {
    assert_eq!(try_read_u32(&[1], 0), Err(Error::UnexpectedEof));
    assert_eq!(try_read_u32(&[1, 2, 3], 0), Err(Error::UnexpectedEof));
    assert_eq!(try_read_u32(&[1, 2, 3, 4, 5], 4), Err(Error::UnexpectedEof));
}

#[test]
fn set_request_encodes_as_two_fields() {
    let request = SetRequest { key: b"hello".to_vec(), value: b"world".to_vec() };
    assert_eq!(
        request.encode(),
        vec![0x0a, 5, b'h', b'e', b'l', b'l', b'o', 0x12, 5, b'w', b'o', b'r', b'l', b'd']
    );
}

#[test]
fn set_request_leaves_empty_fields_out() {
    let request = SetRequest { key: b"k".to_vec(), value: Vec::new() };
    assert_eq!(request.encode(), vec![0x0a, 1, b'k']);
    let request = SetRequest { key: Vec::new(), value: b"v".to_vec() };
    assert_eq!(request.encode(), vec![0x12, 1, b'v']);
    let request = SetRequest { key: Vec::new(), value: Vec::new() };
    assert_eq!(request.encode(), Vec::<u8>::new());
}

#[test]
fn set_request_round_trip() {
    let request = SetRequest { key: vec![0, 1, 2, 255], value: vec![9u8; 300] };
    let decoded = SetRequest::decode(&request.encode()).unwrap();
    assert_eq!(decoded.key, request.key);
    assert_eq!(decoded.value, request.value);
}

#[test]
fn set_request_length_takes_two_bytes_from_128_on() {
    let request = SetRequest { key: vec![1u8; 200], value: Vec::new() };
    let payload = request.encode();
    assert_eq!(&payload[..3], &[0x0a, 0xc8, 0x01]);
    assert_eq!(payload.len(), 3 + 200);
}

#[test]
fn set_request_decode_takes_last_field_and_any_order() {
    let data = vec![0x12, 1, b'a', 0x0a, 1, b'k', 0x12, 1, b'b'];
    let decoded = SetRequest::decode(&data).unwrap();
    assert_eq!(decoded.key, b"k".to_vec());
    assert_eq!(decoded.value, b"b".to_vec());
}

#[test]
fn set_request_decode_skips_other_fields() {
    // field 3 as a varint, field 4 as four bytes
    let data = vec![0x18, 0x96, 0x01, 0x0a, 1, b'k', 0x25, 1, 2, 3, 4, 0x12, 1, b'v'];
    let decoded = SetRequest::decode(&data).unwrap();
    assert_eq!(decoded.key, b"k".to_vec());
    assert_eq!(decoded.value, b"v".to_vec());
}

#[test]
fn set_request_decode_of_nothing_is_empty() {
    let decoded = SetRequest::decode(&[]).unwrap();
    assert!(decoded.key.is_empty());
    assert!(decoded.value.is_empty());
}

#[test]
fn set_request_decode_rejects_cut_field() {
    assert_eq!(SetRequest::decode(&[0x0a, 5, b'h']).err(), Some(Error::MutationDecode));
}

#[test]
fn set_request_decode_rejects_wrong_wire_type() {
    // the key as a varint
    assert_eq!(SetRequest::decode(&[0x08, 1]).err(), Some(Error::MutationDecode));
}

#[test]
fn set_request_decode_rejects_tag_zero() {
    assert_eq!(SetRequest::decode(&[0x02, 0]).err(), Some(Error::MutationDecode));
}

#[test]
fn parse_number_reads_digits() {
    assert_eq!(parse_number(b"12345", 0, 5), Some(12345));
    assert_eq!(parse_number(b"x42y", 1, 3), Some(42));
    assert_eq!(parse_number(b"+7", 0, 2), Some(7));
    assert_eq!(parse_number(b"007", 0, 3), Some(7));
    assert_eq!(parse_number(b"4294967295", 0, 10), Some(u32::MAX));
}

#[test]
fn parse_number_rejects_what_is_no_number() {
    assert_eq!(parse_number(b"", 0, 0), None);
    assert_eq!(parse_number(b"+", 0, 1), None);
    assert_eq!(parse_number(b"-1", 0, 2), None);
    assert_eq!(parse_number(b"12a", 0, 3), None);
    assert_eq!(parse_number(b" 12", 0, 3), None);
    assert_eq!(parse_number(b"4294967296", 0, 10), None);
    assert_eq!(parse_number(b"99999999999999999999999", 0, 23), None);
}

#[test]
fn parse_number_agrees_with_std() {
    for text in ["0", "1", "+0", "++1", "65536", "4294967295", "4294967296", "1 ", "", "+", "१"] {
        let bytes = text.as_bytes();
        assert_eq!(parse_number(bytes, 0, bytes.len()), text.parse::<u32>().ok(), "{:?}", text);
    }
}

#[test]
fn children_pids_are_the_numeric_lines() {
    assert_eq!(get_children_pids("101\n102\n103"), vec![101, 102, 103]);
    assert_eq!(get_children_pids("101\n102\n"), vec![101, 102]);
    assert_eq!(get_children_pids("101\r\n102\r\n"), vec![101, 102]);
    assert_eq!(get_children_pids("7\nabc\n\n8"), vec![7, 8]);
    assert_eq!(get_children_pids(""), Vec::<u32>::new());
}

#[test]
fn children_pids_agree_with_std_lines() {
    for text in ["1\n2", "1\r\n2\r", "1\r", "\n\n3\n", "4\n\r\n5", "x\n6\r\r\n7"] {
        let expected: Vec<u32> = text.lines().filter_map(|line| line.parse().ok()).collect();
        assert_eq!(get_children_pids(text), expected, "{:?}", text);
    }
}

#[test]
fn process_name_is_second_word_of_first_line() {
    assert_eq!(get_process_name("Name:\trayd\nUmask:\t0022\n"), b"rayd".to_vec());
    assert_eq!(get_process_name("Name:   rayd-journal  \nState: S"), b"rayd-journal".to_vec());
    assert_eq!(get_process_name("  Name: Web Content\n"), b"Web".to_vec());
    assert_eq!(get_process_name("Name:\n"), Vec::<u8>::new());
    assert_eq!(get_process_name(""), Vec::<u8>::new());
}
