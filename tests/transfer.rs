use tsync::{
    read_file_metadata, read_piece, read_transfer, write_file_metadata, write_piece, write_transfer,
    DecodeError, FileMetadata, Piece, TransferError,
};

fn file_of(len: usize) -> Vec<u8> {
    (0..len).map(|i| (i * 31 % 251) as u8).collect()
}

/// Reads the pieces that follow the metadata one at a time.
fn pieces_after_metadata(stream: &[u8]) -> (FileMetadata, Vec<Piece>, usize) {
    let (meta, mut pos) = read_file_metadata(stream).unwrap();
    let mut pieces = Vec::new();
    for _ in 0..meta.pieces_amount {
        let (piece, used) = read_piece(&stream[pos..]).unwrap();
        pos += used;
        pieces.push(piece);
    }
    (meta, pieces, pos)
}

#[test]
fn metadata_round_trip() {
    let mut out = vec![9u8];
    let meta = FileMetadata { name: String::from("x=y.bin"), pieces_amount: 12 };
    write_file_metadata(&mut out, &meta);
    assert_eq!(out[0], 9);
    let (back, used) = read_file_metadata(&out[1..]).unwrap();
    assert_eq!(used, out.len() - 1);
    assert_eq!(back.name, "x=y.bin");
    assert_eq!(back.pieces_amount, 12);
}

#[test]
fn piece_round_trip() {
    let mut out = Vec::new();
    let piece = Piece { id: 4, size: 3, data: vec![7, 8, 9] };
    write_piece(&mut out, &piece);
    out.push(1);
    let (back, used) = read_piece(&out).unwrap();
    assert_eq!(used, out.len() - 1);
    assert_eq!((back.id, back.size, back.data), (4, 3, vec![7, 8, 9]));
}

#[test]
fn piece_with_short_payload_is_truncated() {
    let mut out = Vec::new();
    write_piece(&mut out, &Piece { id: 0, size: 4, data: vec![1, 2, 3, 4] });
    out.pop();
    assert_eq!(read_piece(&out).unwrap_err(), DecodeError::Truncated);
}

#[test]
fn metadata_out_of_order_is_rejected() {
    let mut out = Vec::new();
    write_piece(&mut out, &Piece { id: 0, size: 0, data: Vec::new() });
    assert!(matches!(read_file_metadata(&out).unwrap_err(), DecodeError::UnexpectedKind { .. }));
}

#[test]
fn zero_byte_file_transfer() {
    let mut stream = Vec::new();
    write_transfer(&mut stream, &String::from("empty"), &[], 4);
    let (meta, pieces, used) = pieces_after_metadata(&stream);
    assert_eq!(meta.pieces_amount, 0);
    assert!(pieces.is_empty());
    assert_eq!(used, stream.len());
    let (meta, data, used) = read_transfer(&stream).unwrap();
    assert_eq!(meta.name, "empty");
    assert_eq!(meta.pieces_amount, 0);
    assert!(data.is_empty());
    assert_eq!(used, stream.len());
}

#[test]
fn one_piece_length_file_transfer() {
    let file = file_of(8);
    let mut stream = Vec::new();
    write_transfer(&mut stream, &String::from("one"), &file, 8);
    let (meta, pieces, _) = pieces_after_metadata(&stream);
    assert_eq!(meta.pieces_amount, 1);
    assert_eq!(pieces.len(), 1);
    assert_eq!(pieces[0].id, 0);
    assert_eq!(pieces[0].size, 8);
    assert_eq!(pieces[0].data, file);
    let (_, data, _) = read_transfer(&stream).unwrap();
    assert_eq!(data, file);
}

#[test]
fn two_pieces_and_a_remainder_transfer() {
    let piece_length = 5usize;
    let k = 3usize;
    let file = file_of(2 * piece_length + k);
    let mut stream = Vec::new();
    write_transfer(&mut stream, &String::from("three.bin"), &file, piece_length as u64);
    let (meta, pieces, used) = pieces_after_metadata(&stream);
    assert_eq!(meta.name, "three.bin");
    assert_eq!(meta.pieces_amount, 3);
    assert_eq!(used, stream.len());
    let ids: Vec<usize> = pieces.iter().map(|p| p.id).collect();
    let sizes: Vec<usize> = pieces.iter().map(|p| p.size).collect();
    assert_eq!(ids, vec![0, 1, 2]);
    assert_eq!(sizes, vec![piece_length, piece_length, k]);
    let joined: Vec<u8> = pieces.iter().flat_map(|p| p.data.iter().copied()).collect();
    assert_eq!(joined, file);
    let (_, data, _) = read_transfer(&stream).unwrap();
    assert_eq!(data, file);
}

#[test]
fn two_transfers_back_to_back() {
    let mut stream = Vec::new();
    write_transfer(&mut stream, &String::from("a"), &file_of(7), 3);
    write_transfer(&mut stream, &String::from("b"), &file_of(2), 3);
    let (first, data, used) = read_transfer(&stream).unwrap();
    assert_eq!((first.name.as_str(), data), ("a", file_of(7)));
    let (second, data, used2) = read_transfer(&stream[used..]).unwrap();
    assert_eq!((second.name.as_str(), data), ("b", file_of(2)));
    assert_eq!(used + used2, stream.len());
    assert_eq!(read_transfer(&stream[used + used2..]).unwrap_err(), TransferError::Decode(DecodeError::EndOfStream));
}

#[test]
fn skipped_piece_id_is_rejected() {
    let mut stream = Vec::new();
    write_file_metadata(&mut stream, &FileMetadata { name: String::from("f"), pieces_amount: 2 });
    write_piece(&mut stream, &Piece { id: 0, size: 1, data: vec![1] });
    write_piece(&mut stream, &Piece { id: 2, size: 1, data: vec![2] });
    assert_eq!(read_transfer(&stream).unwrap_err(), TransferError::OutOfOrder { expected: 1, found: 2 });
}

#[test]
fn missing_piece_is_an_error() {
    let mut stream = Vec::new();
    write_file_metadata(&mut stream, &FileMetadata { name: String::from("f"), pieces_amount: 2 });
    write_piece(&mut stream, &Piece { id: 0, size: 1, data: vec![1] });
    assert_eq!(read_transfer(&stream).unwrap_err(), TransferError::Decode(DecodeError::EndOfStream));
}

#[test]
fn server_command_default_port() {
    assert_eq!(tsync::ServerCommand::new().port, 8086);
}

#[test]
fn ended_input_is_an_orderly_close() {
    assert!(matches!(tsync::transfer::next_transfer(&[]), Ok(None)));
}

#[test]
fn next_transfer_reads_a_whole_transfer() {
    let mut stream = Vec::new();
    write_transfer(&mut stream, &String::from("n"), &file_of(4), 3);
    let Ok(Some((meta, data, used))) = tsync::transfer::next_transfer(&stream) else {
        panic!("a transfer expected");
    };
    assert_eq!((meta.name.as_str(), meta.pieces_amount, data, used), ("n", 2, file_of(4), stream.len()));
}

#[test]
fn partial_record_is_fatal_not_a_close() {
    assert_eq!(
        tsync::transfer::next_transfer(&[3, 0]).unwrap_err(),
        TransferError::Decode(DecodeError::Truncated)
    );
}
