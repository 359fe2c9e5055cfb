//! A whole transfer on one stream: the sender cuts a file into pieces and
//! frames them; the receiver reads the metadata pair, then exactly the
//! announced number of pieces, in ascending id order from zero.
use crate::header::DecodeError;
use crate::offsets::{calc_offsets, piece_count, piece_size};
use crate::proto::{
    lemma_metadata_round_trip, lemma_piece_round_trip, metadata_bytes, name_fits, piece_bytes, read_file_metadata, read_metadata_model, read_piece,
    read_piece_model, write_file_metadata, write_piece, FileMetadata, Piece,
};
use vstd::prelude::*;
use vstd::slice::{slice_subrange, slice_to_vec};

verus! {

/// Why a stream does not hold a transfer.
#[derive(Clone, Copy, Debug, PartialEq, Eq, Structural)]
pub enum TransferError {
    /// A record is missing, malformed or of the wrong kind.
    Decode(DecodeError),
    /// A piece arrived with another id than the next one in order.
    OutOfOrder { expected: usize, found: usize },
}

/// The end of piece `i` of a file of `len` bytes.
pub open spec fn chunk_end(len: nat, piece_len: nat, i: nat) -> nat {
    if (i + 1) * piece_len <= len {
        (i + 1) * piece_len
    } else {
        len
    }
}

/// The bytes of piece `i`.
pub open spec fn chunk(data: Seq<u8>, piece_len: nat, i: nat) -> Seq<u8> {
    data.subrange((i * piece_len) as int, chunk_end(data.len(), piece_len, i) as int)
}

/// The records of pieces `0..n`.
pub open spec fn pieces_upto(data: Seq<u8>, piece_len: nat, n: nat) -> Seq<u8>
    decreases n,
{
    if n == 0 {
        Seq::empty()
    } else {
        pieces_upto(data, piece_len, (n - 1) as nat) + piece_bytes(
            (n - 1) as nat,
            chunk(data, piece_len, (n - 1) as nat),
        )
    }
}

/// The whole stream of a transfer of `data` under the name `name`.
pub open spec fn transfer_bytes(name: Seq<char>, data: Seq<u8>, piece_len: nat) -> Seq<u8> {
    let n = piece_count(data.len(), piece_len);
    metadata_bytes(name, n) + pieces_upto(data, piece_len, n)
}

/// Reads pieces `0..k` from the start of `b`: their bytes joined, and the
/// bytes consumed.
pub open spec fn read_pieces_model(b: Seq<u8>, k: nat) -> Result<(Seq<u8>, nat), TransferError>
    decreases k,
{
    if k == 0 {
        Ok((Seq::empty(), 0))
    } else {
        match read_pieces_model(b, (k - 1) as nat) {
            Err(e) => Err(e),
            Ok((acc, pos)) => match read_piece_model(b.skip(pos as int)) {
                Err(e) => Err(TransferError::Decode(e)),
                Ok((id, d, n)) => if id != k - 1 {
                    Err(TransferError::OutOfOrder { expected: (k - 1) as usize, found: id as usize })
                } else {
                    Ok((acc + d, pos + n))
                },
            },
        }
    }
}

/// Reads one transfer from the start of `b`: name, piece count, the file's
/// bytes and the bytes consumed.
pub open spec fn read_transfer_model(b: Seq<u8>) -> Result<(Seq<char>, nat, Seq<u8>, nat), TransferError> {
    match read_metadata_model(b) {
        Err(e) => Err(TransferError::Decode(e)),
        Ok((name, count, n)) => match read_pieces_model(b.skip(n as int), count) {
            Err(e) => Err(e),
            Ok((data, m)) => Ok((name, count, data, n + m)),
        },
    }
}

/// Once reading the pieces fails, reading more of them fails the same way.
proof fn lemma_error_persists(b: Seq<u8>, k: nat, m: nat)
    requires
        k <= m,
        read_pieces_model(b, k) is Err,
    ensures
        read_pieces_model(b, m) == read_pieces_model(b, k),
    decreases m - k,
{
    if k < m {
        lemma_error_persists(b, k, (m - 1) as nat);
    }
}

/// How many bytes pieces `0..k` cover.
pub open spec fn covered(len: nat, piece_len: nat, k: nat) -> nat {
    if k * piece_len <= len {
        k * piece_len
    } else {
        len
    }
}

proof fn lemma_count_bounds(len: nat, piece_len: nat)
    requires
        piece_len > 0,
    ensures
        piece_count(len, piece_len) * piece_len >= len,
        piece_count(len, piece_len) > 0 ==> (piece_count(len, piece_len) - 1) * piece_len < len,
        piece_count(len, piece_len) <= len,
{
    let n = piece_count(len, piece_len);
    let l = len as int;
    let p = piece_len as int;
    assert(n == (l + p - 1) / p);
    assert(n * p >= l && (n > 0 ==> (n - 1) * p < l) && n <= l) by (nonlinear_arith)
        requires n == (l + p - 1) / p, p > 0, l >= 0;
}

proof fn lemma_pieces_prefix(data: Seq<u8>, piece_len: nat, k: nat, n: nat)
    requires
        k <= n,
    ensures
        pieces_upto(data, piece_len, k).len() <= pieces_upto(data, piece_len, n).len(),
        pieces_upto(data, piece_len, n).subrange(0, pieces_upto(data, piece_len, k).len() as int)
            == pieces_upto(data, piece_len, k),
    decreases n - k,
{
    if k < n {
        lemma_pieces_prefix(data, piece_len, k, (n - 1) as nat);
        let a = pieces_upto(data, piece_len, k);
        let b = pieces_upto(data, piece_len, (n - 1) as nat);
        let c = pieces_upto(data, piece_len, n);
        assert(c.subrange(0, a.len() as int) =~= b.subrange(0, a.len() as int));
    } else {
        let c = pieces_upto(data, piece_len, n);
        assert(c.subrange(0, c.len() as int) =~= c);
    }
}

proof fn lemma_read_pieces(data: Seq<u8>, piece_len: nat, k: nat, tail: Seq<u8>)
    requires
        piece_len > 0,
        data.len() <= usize::MAX,
        k <= piece_count(data.len(), piece_len),
    ensures
        read_pieces_model(pieces_upto(data, piece_len, piece_count(data.len(), piece_len)) + tail, k)
            == Ok::<(Seq<u8>, nat), TransferError>(
            (data.take(covered(data.len(), piece_len, k) as int), pieces_upto(data, piece_len, k).len()),
        ),
    decreases k,
{
    let n = piece_count(data.len(), piece_len);
    let b = pieces_upto(data, piece_len, n) + tail;
    lemma_count_bounds(data.len(), piece_len);
    if k == 0 {
        assert(data.take(0) =~= Seq::<u8>::empty());
    } else {
        let j = (k - 1) as nat;
        lemma_read_pieces(data, piece_len, j, tail);
        let prev = pieces_upto(data, piece_len, j);
        let cur = pieces_upto(data, piece_len, k);
        let c = chunk(data, piece_len, j);
        let pb = piece_bytes(j, c);
        lemma_pieces_prefix(data, piece_len, k, n);
        assert(cur == prev + pb);
        assert(b.skip(prev.len() as int) =~= pb + b.skip(cur.len() as int)) by {
            let pre = pieces_upto(data, piece_len, n).subrange(0, cur.len() as int);
            assert(pre == cur);
            assert forall|i: int| 0 <= i < b.len() - prev.len() implies b.skip(prev.len() as int)[i]
                == (pb + b.skip(cur.len() as int))[i] by {
                if i < pb.len() {
                    assert(pre[prev.len() + i] == cur[prev.len() + i]);
                }
            }
        }
        assert(j * piece_len <= (n - 1) * piece_len) by (nonlinear_arith)
            requires j <= n - 1;
        assert(k * piece_len == j * piece_len + piece_len) by (nonlinear_arith)
            requires k == j + 1;
        lemma_piece_round_trip(j as usize, c, b.skip(cur.len() as int));
        let acc = data.take(covered(data.len(), piece_len, j) as int);
        assert(acc + c =~= data.take(covered(data.len(), piece_len, k) as int));
        assert(read_piece_model(b.skip(prev.len() as int)) == Ok::<(nat, Seq<u8>, nat), DecodeError>(
            (j, c, pb.len()),
        ));
        assert(read_pieces_model(b, j) == Ok::<(Seq<u8>, nat), TransferError>((acc, prev.len())));
    }
}

/// Reading back a written transfer gives its name, its piece count and the
/// file's bytes, and consumes exactly the transfer, whatever follows it.
pub proof fn lemma_transfer_round_trip(name: String, data: Seq<u8>, piece_len: nat, tail: Seq<u8>)
    requires
        piece_len > 0,
        name_fits(name@),
        data.len() <= usize::MAX,
    ensures
        read_transfer_model(transfer_bytes(name@, data, piece_len) + tail) == Ok::<
            (Seq<char>, nat, Seq<u8>, nat),
            TransferError,
        >(
            (
                name@,
                piece_count(data.len(), piece_len),
                data,
                transfer_bytes(name@, data, piece_len).len(),
            ),
        ),
{
    let n = piece_count(data.len(), piece_len);
    lemma_count_bounds(data.len(), piece_len);
    let meta = metadata_bytes(name@, n);
    let pieces = pieces_upto(data, piece_len, n);
    let b = transfer_bytes(name@, data, piece_len) + tail;
    assert(b =~= meta + (pieces + tail));
    lemma_metadata_round_trip(name, n as usize, pieces + tail);
    assert(b.skip(meta.len() as int) =~= pieces + tail);
    lemma_read_pieces(data, piece_len, n, tail);
    assert(data.take(data.len() as int) =~= data);
}

/// Appends to `out` the transfer of `data` under `name`: the metadata pair,
/// then each piece of `piece_length` bytes (the last one shorter) in order.
pub fn write_transfer(out: &mut Vec<u8>, name: &String, data: &[u8], piece_length: u64)
    requires
        piece_length > 0,
        name_fits(name@),
    ensures
        final(out)@ == old(out)@ + transfer_bytes(name@, data@, piece_length as nat),
{
    let offsets = calc_offsets(data.len() as u64, piece_length);
    let count = offsets.len();
    let metadata = FileMetadata { name: name.clone(), pieces_amount: count };
    write_file_metadata(out, &metadata);
    let ghost start = old(out)@ + metadata_bytes(name@, count as nat);
    let mut idx: usize = 0;
    while idx < count
        invariant
            count == offsets@.len(),
            count == piece_count(data@.len(), piece_length as nat),
            piece_length > 0,
            idx <= count,
            forall|i: int| 0 <= i < offsets@.len() ==> #[trigger] offsets@[i] == i * piece_length,
            forall|i: int| 0 <= i < offsets@.len() ==> #[trigger] offsets@[i] < data@.len(),
            out@ == start + pieces_upto(data@, piece_length as nat, idx as nat),
        decreases count - idx,
    {
        let offset = offsets[idx] as usize;
        let size = piece_size(data.len() as u64, piece_length, offset as u64) as usize;
        let end = offset + size;
        proof {
            assert((idx + 1) * piece_length == idx * piece_length + piece_length) by (nonlinear_arith);
            assert(offset == idx * piece_length);
            assert(end == chunk_end(data@.len(), piece_length as nat, idx as nat));
        }
        let bytes = slice_to_vec(slice_subrange(data, offset, end));
        assert(bytes@ =~= chunk(data@, piece_length as nat, idx as nat));
        let piece = Piece { id: idx, size, data: bytes };
        write_piece(out, &piece);
        idx = idx + 1;
    }
}

/// Reads one transfer from the start of `b`: the metadata, the file's bytes
/// (the pieces' payloads in id order) and the number of bytes consumed.
pub fn read_transfer(b: &[u8]) -> (r: Result<(FileMetadata, Vec<u8>, usize), TransferError>)
    ensures
        match read_transfer_model(b@) {
            Ok((name, count, data, n)) => r matches Ok((m, d, k)) && m.name@ == name
                && m.pieces_amount == count && d@ == data && k == n,
            Err(e) => r == Err::<(FileMetadata, Vec<u8>, usize), TransferError>(e),
        },
{
    let (metadata, start) = match read_file_metadata(b) {
        Ok(p) => p,
        Err(e) => return Err(TransferError::Decode(e)),
    };
    let body = slice_subrange(b, start, b.len());
    let mut data: Vec<u8> = Vec::new();
    let mut pos: usize = 0;
    let mut idx: usize = 0;
    while idx < metadata.pieces_amount
        invariant
            body@ == b@.skip(start as int),
            read_metadata_model(b@) == Ok::<(Seq<char>, nat, nat), DecodeError>(
                (metadata.name@, metadata.pieces_amount as nat, start as nat),
            ),
            start <= b@.len(),
            idx <= metadata.pieces_amount,
            pos <= body@.len(),
            read_pieces_model(body@, idx as nat) == Ok::<(Seq<u8>, nat), TransferError>(
                (data@, pos as nat),
            ),
        decreases metadata.pieces_amount - idx,
    {
        let here = slice_subrange(body, pos, body.len());
        assert(here@ =~= body@.skip(pos as int));
        let (piece, n) = match read_piece(here) {
            Ok(p) => p,
            Err(e) => {
                proof {
                    assert(read_pieces_model(body@, (idx + 1) as nat) == Err::<(Seq<u8>, nat), TransferError>(
                        TransferError::Decode(e),
                    ));
                    lemma_error_persists(body@, (idx + 1) as nat, metadata.pieces_amount as nat);
                }
                return Err(TransferError::Decode(e));
            },
        };
        if piece.id != idx {
            proof {
                lemma_error_persists(body@, (idx + 1) as nat, metadata.pieces_amount as nat);
            }
            return Err(TransferError::OutOfOrder { expected: idx, found: piece.id });
        }
        let mut payload = piece.data;
        let ghost prev = data@;
        data.append(&mut payload);
        assert(read_pieces_model(body@, (idx + 1) as nat) == Ok::<(Seq<u8>, nat), TransferError>(
            (data@, (pos + n) as nat),
        ));
        pos = pos + n;
        idx = idx + 1;
    }
    Ok((metadata, data, start + pos))
}

/// The receiver's step while it awaits a new transfer: an input that has
/// ended is an orderly close (`None`); anything else must be a whole transfer.
pub fn next_transfer(b: &[u8]) -> (r: Result<Option<(FileMetadata, Vec<u8>, usize)>, TransferError>)
    ensures
        b@.len() == 0 ==> r == Ok::<Option<(FileMetadata, Vec<u8>, usize)>, TransferError>(None),
        b@.len() > 0 ==> match read_transfer_model(b@) {
            Ok((name, count, data, n)) => r matches Ok(Some((m, d, k))) && m.name@ == name
                && m.pieces_amount == count && d@ == data && k == n,
            Err(e) => r == Err::<Option<(FileMetadata, Vec<u8>, usize)>, TransferError>(e),
        },
{
    if b.len() == 0 {
        return Ok(None);
    }
    match read_transfer(b) {
        Ok(t) => Ok(Some(t)),
        Err(e) => Err(e),
    }
}

} // verus!
