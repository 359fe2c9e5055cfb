use tsync::{decode, decode_expecting, encode, DecodeError, Header, HeaderKind, Piece};

fn round_trip(h: Header) {
    let bytes = encode(&h);
    let (back, used) = decode(&bytes).unwrap();
    assert_eq!(used, bytes.len());
    assert_eq!(back, h);
}

#[test]
fn every_variant_round_trips() {
    round_trip(Header::Id(0));
    round_trip(Header::Id(7));
    round_trip(Header::Size(0));
    round_trip(Header::Size(1 << 20));
    round_trip(Header::Pieces(0));
    round_trip(Header::Pieces(usize::MAX));
    round_trip(Header::Name(String::from("archive.zip")));
    round_trip(Header::Name(String::from("a=b=c")));
    round_trip(Header::Name(String::new()));
    round_trip(Header::Name(String::from("résumé.txt")));
    round_trip(Header::Checksum(0));
    round_trip(Header::Checksum(u64::MAX));
}

#[test]
fn exact_bytes_of_numeric_records() {
    assert_eq!(encode(&Header::Id(0)), vec![2, 0, 0, 0, 0, 0]);
    assert_eq!(encode(&Header::Size(300)), vec![3, 0, 0, 0, 1, 0xAC, 0x02]);
    assert_eq!(encode(&Header::Pieces(127)), vec![2, 0, 0, 0, 2, 127]);
    assert_eq!(encode(&Header::Checksum(128)), vec![3, 0, 0, 0, 4, 0x80, 0x01]);
}

#[test]
fn exact_bytes_of_name_record() {
    assert_eq!(encode(&Header::Name(String::from("a=b"))), vec![5, 0, 0, 0, 3, 3, b'a', b'=', b'b']);
}

#[test]
fn decode_leaves_following_bytes() {
    let mut bytes = encode(&Header::Id(5));
    let first = bytes.len();
    bytes.extend_from_slice(&encode(&Header::Size(9)));
    let (h, used) = decode(&bytes).unwrap();
    assert_eq!(used, first);
    assert!(matches!(h, Header::Id(5)));
    let (h, _) = decode(&bytes[used..]).unwrap();
    assert!(matches!(h, Header::Size(9)));
}

#[test]
fn empty_input_is_end_of_stream() {
    assert_eq!(decode(&[]).unwrap_err(), DecodeError::EndOfStream);
}

#[test]
fn short_length_field_is_truncated() {
    assert_eq!(decode(&[1, 0]).unwrap_err(), DecodeError::Truncated);
}

#[test]
fn short_body_is_truncated() {
    assert_eq!(decode(&[5, 0, 0, 0, 0]).unwrap_err(), DecodeError::Truncated);
}

#[test]
fn unknown_tag_is_named() {
    assert_eq!(decode(&[2, 0, 0, 0, 7, 0]).unwrap_err(), DecodeError::UnknownTag(7));
    assert_eq!(decode(&[3, 0, 0, 0, 0x80, 0x01, 0]).unwrap_err(), DecodeError::UnknownTag(128));
}

#[test]
fn missing_value_is_malformed() {
    assert_eq!(decode(&[1, 0, 0, 0, 0]).unwrap_err(), DecodeError::Malformed);
}

#[test]
fn trailing_body_bytes_are_malformed() {
    assert_eq!(decode(&[3, 0, 0, 0, 0, 1, 1]).unwrap_err(), DecodeError::Malformed);
}

#[test]
fn name_length_mismatch_is_malformed() {
    assert_eq!(decode(&[4, 0, 0, 0, 3, 3, b'a', b'b']).unwrap_err(), DecodeError::Malformed);
}

#[test]
fn invalid_utf8_name_is_malformed() {
    assert_eq!(decode(&[4, 0, 0, 0, 3, 2, 0xC3, 0x28]).unwrap_err(), DecodeError::Malformed);
}

#[test]
fn overlong_varint_is_malformed() {
    let bytes = [12, 0, 0, 0, 0, 0xFF, 0xFF, 0xFF, 0xFF, 0xFF, 0xFF, 0xFF, 0xFF, 0xFF, 0xFF, 0x01];
    assert_eq!(decode(&bytes[..]).unwrap_err(), DecodeError::Malformed);
}

#[test]
fn expecting_the_right_kind_returns_the_value() {
    let bytes = encode(&Header::Pieces(3));
    let (h, used) = decode_expecting(&bytes, HeaderKind::Pieces).unwrap();
    assert_eq!(used, bytes.len());
    assert!(matches!(h, Header::Pieces(3)));
}

#[test]
fn expecting_another_kind_fails_with_both_kinds() {
    let bytes = encode(&Header::Id(1));
    assert_eq!(
        decode_expecting(&bytes, HeaderKind::Name).unwrap_err(),
        DecodeError::UnexpectedKind { expected: HeaderKind::Name, found: HeaderKind::Id }
    );
}

#[test]
fn header_kind_of_each_variant() {
    assert_eq!(Header::Id(0).kind(), HeaderKind::Id);
    assert_eq!(Header::Size(0).kind(), HeaderKind::Size);
    assert_eq!(Header::Pieces(0).kind(), HeaderKind::Pieces);
    assert_eq!(Header::Name(String::new()).kind(), HeaderKind::Name);
    assert_eq!(Header::Checksum(0).kind(), HeaderKind::Checksum);
}

#[test]
fn checksum_of_empty_piece() {
    let piece = Piece { id: 0, size: 0, data: Vec::new() };
    assert!(matches!(piece.checksum(), Header::Checksum(0x2D06800538D394C2)));
}

#[test]
fn checksum_depends_on_bytes() {
    let a = Piece { id: 0, size: 3, data: vec![1, 2, 3] };
    let b = Piece { id: 0, size: 3, data: vec![1, 2, 4] };
    let (Header::Checksum(x), Header::Checksum(y)) = (a.checksum(), b.checksum()) else {
        panic!("checksum header expected");
    };
    assert_ne!(x, y);
}

#[test]
fn header_equality() {
    assert_eq!(Header::Name(String::from("a=b")), Header::Name(String::from("a=b")));
    assert_ne!(Header::Name(String::from("a=b")), Header::Name(String::from("a=c")));
    assert_ne!(Header::Id(1), Header::Size(1));
    assert_ne!(Header::Pieces(1), Header::Pieces(2));
    assert_eq!(Header::Checksum(9), Header::Checksum(9));
}
