//! The record grammar of a transfer: one metadata pair (Name, Pieces), then
//! for each piece an Id record, a Size record and exactly `size` raw bytes.
use crate::header::{
    decode_expecting, decode_expecting_model, encode, lemma_decode_encode, lemma_numeric_fits,
    record_bytes, record_fits, DecodeError, Header, HeaderKind, HeaderModel,
};
use vstd::prelude::*;
use vstd::slice::{slice_subrange, slice_to_vec};

verus! {

/// What the receiver learns before the pieces: the output name and how many
/// piece records follow.
#[derive(Debug)]
pub struct FileMetadata {
    pub name: String,
    pub pieces_amount: usize,
}

/// One piece: its zero-based index, its length and its bytes.
#[derive(Debug)]
pub struct Piece {
    pub id: usize,
    pub size: usize,
    pub data: Vec<u8>,
}

/// The 64-bit XXH3 digest of `data`, with seed zero.
pub uninterp spec fn xxh3_of(data: Seq<u8>) -> u64;

/// Relies on xxhash_rust::xxh3::xxh3_64: a digest of the bytes alone.
#[verifier::external_body]
fn xxh3_digest(data: &[u8]) -> (r: u64)
    ensures
        r == xxh3_of(data@),
{
    xxhash_rust::xxh3::xxh3_64(data)
}

impl Piece {
    /// The declared size is the length of the bytes.
    pub open spec fn wf(&self) -> bool {
        self.data@.len() == self.size
    }

    /// A Checksum header carrying the digest of this piece's bytes.
    pub fn checksum(&self) -> (r: Header)
        ensures
            r@ == HeaderModel::Checksum(xxh3_of(self.data@) as nat),
    {
        Header::Checksum(xxh3_digest(self.data.as_slice()))
    }
}

/// A name short enough for its record's length field.
pub open spec fn name_fits(name: Seq<char>) -> bool {
    record_fits(HeaderModel::Name(name))
}

#[verifier::opaque]
pub open spec fn metadata_bytes(name: Seq<char>, pieces: nat) -> Seq<u8> {
    record_bytes(HeaderModel::Name(name)) + record_bytes(HeaderModel::Pieces(pieces))
}

#[verifier::opaque]
pub open spec fn piece_bytes(id: nat, data: Seq<u8>) -> Seq<u8> {
    record_bytes(HeaderModel::Id(id)) + record_bytes(HeaderModel::Size(data.len())) + data
}

/// Reads a metadata pair at the start of `b`: the name, the piece count and
/// the bytes consumed.
#[verifier::opaque]
pub open spec fn read_metadata_model(b: Seq<u8>) -> Result<(Seq<char>, nat, nat), DecodeError> {
    match decode_expecting_model(b, HeaderKind::Name) {
        Err(e) => Err(e),
        Ok((h1, n1)) => match decode_expecting_model(b.skip(n1 as int), HeaderKind::Pieces) {
            Err(e) => Err(e),
            Ok((h2, n2)) => match (h1, h2) {
                (HeaderModel::Name(s), HeaderModel::Pieces(p)) => Ok((s, p, n1 + n2)),
                _ => Err(DecodeError::Malformed),
            },
        },
    }
}

/// Reads a piece at the start of `b`: its id, its bytes and the bytes consumed.
#[verifier::opaque]
pub open spec fn read_piece_model(b: Seq<u8>) -> Result<(nat, Seq<u8>, nat), DecodeError> {
    match decode_expecting_model(b, HeaderKind::Id) {
        Err(e) => Err(e),
        Ok((h1, n1)) => match decode_expecting_model(b.skip(n1 as int), HeaderKind::Size) {
            Err(e) => Err(e),
            Ok((h2, n2)) => match (h1, h2) {
                (HeaderModel::Id(id), HeaderModel::Size(size)) => if b.len() < n1 + n2 + size {
                    Err(DecodeError::Truncated)
                } else {
                    Ok((id, b.subrange((n1 + n2) as int, (n1 + n2 + size) as int), n1 + n2 + size))
                },
                _ => Err(DecodeError::Malformed),
            },
        },
    }
}

/// Appends the metadata pair of `file` to `out`.
pub fn write_file_metadata(out: &mut Vec<u8>, file: &FileMetadata)
    requires
        name_fits(file.name@),
    ensures
        final(out)@ == old(out)@ + metadata_bytes(file.name@, file.pieces_amount as nat),
{
    reveal(metadata_bytes);
    let name_header = Header::Name(file.name.clone());
    let pieces_header = Header::Pieces(file.pieces_amount);
    proof {
        lemma_numeric_fits(pieces_header);
    }
    let mut name_record = encode(&name_header);
    let mut pieces_record = encode(&pieces_header);
    out.append(&mut name_record);
    out.append(&mut pieces_record);
}

/// Reads the metadata pair at the start of `b`; gives it with the number of
/// bytes it takes.
pub fn read_file_metadata(b: &[u8]) -> (r: Result<(FileMetadata, usize), DecodeError>)
    ensures
        match read_metadata_model(b@) {
            Ok((name, pieces, n)) => r matches Ok((m, k)) && m.name@ == name && m.pieces_amount
                == pieces && k == n && k <= b@.len(),
            Err(e) => r == Err::<(FileMetadata, usize), DecodeError>(e),
        },
{
    reveal(read_metadata_model);
    let (name_header, n1) = match decode_expecting(b, HeaderKind::Name) {
        Ok(p) => p,
        Err(e) => return Err(e),
    };
    let rest = slice_subrange(b, n1, b.len());
    assert(rest@ == b@.skip(n1 as int));
    let (pieces_header, n2) = match decode_expecting(rest, HeaderKind::Pieces) {
        Ok(p) => p,
        Err(e) => return Err(e),
    };
    match (name_header, pieces_header) {
        (Header::Name(name), Header::Pieces(pieces_amount)) => Ok(
            (FileMetadata { name, pieces_amount }, n1 + n2),
        ),
        _ => Err(DecodeError::Malformed),
    }
}

/// Appends the records of `piece` to `out`: Id, Size, then its bytes.
pub fn write_piece(out: &mut Vec<u8>, piece: &Piece)
    requires
        piece.wf(),
    ensures
        final(out)@ == old(out)@ + piece_bytes(piece.id as nat, piece.data@),
{
    reveal(piece_bytes);
    let id_header = Header::Id(piece.id);
    let size_header = Header::Size(piece.size);
    proof {
        lemma_numeric_fits(id_header);
        lemma_numeric_fits(size_header);
    }
    let mut id_record = encode(&id_header);
    let mut size_record = encode(&size_header);
    let mut data = slice_to_vec(piece.data.as_slice());
    out.append(&mut id_record);
    out.append(&mut size_record);
    out.append(&mut data);
}

/// Reads the piece at the start of `b`; gives it with the number of bytes it
/// takes. The payload is exactly as long as the Size record says.
pub fn read_piece(b: &[u8]) -> (r: Result<(Piece, usize), DecodeError>)
    ensures
        match read_piece_model(b@) {
            Ok((id, data, n)) => r matches Ok((p, k)) && p.wf() && p.id == id && p.data@ == data
                && k == n && k <= b@.len(),
            Err(e) => r == Err::<(Piece, usize), DecodeError>(e),
        },
{
    reveal(read_piece_model);
    let (id_header, n1) = match decode_expecting(b, HeaderKind::Id) {
        Ok(p) => p,
        Err(e) => return Err(e),
    };
    let rest = slice_subrange(b, n1, b.len());
    assert(rest@ == b@.skip(n1 as int));
    let (size_header, n2) = match decode_expecting(rest, HeaderKind::Size) {
        Ok(p) => p,
        Err(e) => return Err(e),
    };
    match (id_header, size_header) {
        (Header::Id(id), Header::Size(size)) => {
            let start = n1 + n2;
            if b.len() - start < size {
                return Err(DecodeError::Truncated);
            }
            let data = slice_to_vec(slice_subrange(b, start, start + size));
            Ok((Piece { id, size, data }, start + size))
        },
        _ => Err(DecodeError::Malformed),
    }
}

/// Reading back a written metadata pair gives its name and count, and
/// consumes exactly the pair, whatever follows it.
pub proof fn lemma_metadata_round_trip(name: String, pieces: usize, tail: Seq<u8>)
    requires
        name_fits(name@),
    ensures
        read_metadata_model(metadata_bytes(name@, pieces as nat) + tail) == Ok::<
            (Seq<char>, nat, nat),
            DecodeError,
        >((name@, pieces as nat, metadata_bytes(name@, pieces as nat).len())),
{
    reveal(read_metadata_model);
    reveal(metadata_bytes);
    let h1 = Header::Name(name);
    let h2 = Header::Pieces(pieces);
    lemma_numeric_fits(h2);
    let b = metadata_bytes(name@, pieces as nat) + tail;
    let r1 = record_bytes(h1@);
    let r2 = record_bytes(h2@);
    assert(b =~= r1 + (r2 + tail));
    lemma_decode_encode(h1, r2 + tail);
    assert(b.skip(r1.len() as int) =~= r2 + tail);
    lemma_decode_encode(h2, tail);
}

/// Reading back a written piece gives its id and bytes, and consumes exactly
/// the piece, whatever follows it.
pub proof fn lemma_piece_round_trip(id: usize, data: Seq<u8>, tail: Seq<u8>)
    requires
        data.len() <= usize::MAX,
    ensures
        read_piece_model(piece_bytes(id as nat, data) + tail) == Ok::<
            (nat, Seq<u8>, nat),
            DecodeError,
        >((id as nat, data, piece_bytes(id as nat, data).len())),
{
    reveal(read_piece_model);
    reveal(piece_bytes);
    let h1 = Header::Id(id);
    let h2 = Header::Size(data.len() as usize);
    lemma_numeric_fits(h1);
    lemma_numeric_fits(h2);
    let b = piece_bytes(id as nat, data) + tail;
    let r1 = record_bytes(h1@);
    let r2 = record_bytes(h2@);
    assert(b =~= r1 + (r2 + (data + tail)));
    lemma_decode_encode(h1, r2 + (data + tail));
    assert(b.skip(r1.len() as int) =~= r2 + (data + tail));
    lemma_decode_encode(h2, data + tail);
    assert(b.subrange((r1.len() + r2.len()) as int, (r1.len() + r2.len() + data.len()) as int)
        =~= data);
}

} // verus!
