//! Single-file transfer over an ordered byte stream: piece planning, the
//! framed control-record codec, and the sender/receiver record grammar.
pub mod config;
pub mod header;
pub mod offsets;
pub mod proto;
pub mod transfer;

pub use config::ServerCommand;
pub use header::{decode, decode_expecting, encode, DecodeError, Header, HeaderKind};
pub use offsets::calc_offsets;
pub use proto::{read_file_metadata, read_piece, write_file_metadata, write_piece, FileMetadata, Piece};
pub use transfer::{read_transfer, write_transfer, TransferError};
