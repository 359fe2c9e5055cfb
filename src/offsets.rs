//! Planning of piece boundaries for a file of known size.
use vstd::prelude::*;

verus! {

/// Number of pieces of length at most `piece_len` that cover `file_size` bytes.
pub open spec fn piece_count(file_size: nat, piece_len: nat) -> nat
    recommends
        piece_len > 0,
{
    if piece_len == 0 {
        0
    } else {
        ((file_size + piece_len - 1) as nat) / piece_len
    }
}

/// Size of the piece that starts at `offset`.
pub open spec fn piece_size_at(file_size: nat, piece_len: nat, offset: nat) -> nat {
    if offset + piece_len <= file_size {
        piece_len
    } else {
        (file_size - offset) as nat
    }
}

/// Size of the piece that starts at `offset` of a file of `file_size` bytes:
/// a whole piece length, or what is left of the file if that is less.
pub fn piece_size(file_size: u64, piece_length: u64, offset: u64) -> (r: u64)
    requires
        offset <= file_size,
    ensures
        r == piece_size_at(file_size as nat, piece_length as nat, offset as nat),
{
    if file_size - offset >= piece_length {
        piece_length
    } else {
        file_size - offset
    }
}

/// Start offsets of the pieces of a file of `file_size` bytes cut into pieces
/// of `piece_size` bytes (the last one possibly shorter). Offset `i` is
/// `i * piece_size`, so the result is strictly ascending, its length is
/// `ceil(file_size / piece_size)`, and the last piece ends at `file_size`.
pub fn calc_offsets(file_size: u64, piece_size: u64) -> (r: Vec<u64>)
    requires
        piece_size > 0,
    ensures
        r@.len() == piece_count(file_size as nat, piece_size as nat),
        forall|i: int| 0 <= i < r@.len() ==> #[trigger] r@[i] == i * piece_size,
        forall|i: int, j: int| 0 <= i < j < r@.len() ==> r@[i] < r@[j],
        forall|i: int| 0 <= i < r@.len() ==> #[trigger] r@[i] < file_size,
        r@.len() > 0 ==> file_size - r@.last() <= piece_size,
        r@.len() > 0 ==> file_size - r@.last() > 0,
{
    let mut curr_offset: u64 = 0;
    let mut chunks: Vec<u64> = Vec::new();
    proof {
        assert(0 * piece_size == 0);
        assert((piece_size - 1) as nat / piece_size as nat == 0) by (nonlinear_arith)
            requires piece_size > 0;
    }
    while curr_offset < file_size
        invariant
            piece_size > 0,
            curr_offset <= file_size,
            curr_offset < file_size ==> curr_offset == chunks@.len() * piece_size,
            curr_offset == file_size ==> chunks@.len() == piece_count(file_size as nat, piece_size as nat),
            chunks@.len() * piece_size < file_size + piece_size,
            chunks@.len() > 0 ==> chunks@.last() < file_size,
            chunks@.len() == 0 ==> curr_offset == 0,
            curr_offset == file_size && chunks@.len() > 0 ==> file_size - chunks@.last() <= piece_size,
            forall|i: int| 0 <= i < chunks@.len() ==> #[trigger] chunks@[i] == i * piece_size,
            forall|i: int| 0 <= i < chunks@.len() ==> #[trigger] chunks@[i] < file_size,
        decreases file_size - curr_offset,
    {
        chunks.push(curr_offset);
        proof {
            let n = chunks@.len() as int;
            assert(n * piece_size == (n - 1) * piece_size + piece_size) by (nonlinear_arith);
        }
        if file_size - curr_offset <= piece_size {
            curr_offset = file_size;
            proof {
                let n = chunks@.len() as int;
                let p = piece_size as int;
                let f = file_size as int;
                assert((n - 1) * p < f && f <= n * p ==> (f + p - 1) / p == n) by (nonlinear_arith)
                    requires p > 0;
            }
        } else {
            curr_offset = curr_offset + piece_size;
        }
    }
    proof {
        assert forall|i: int, j: int| 0 <= i < j < chunks@.len() implies chunks@[i] < chunks@[j] by {
            assert(i * piece_size < j * piece_size) by (nonlinear_arith)
                requires i < j, piece_size > 0;
        }
    }
    chunks
}

} // verus!
