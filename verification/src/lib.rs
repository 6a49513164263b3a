mod archive;
mod builder;
mod codec;
mod fstcheck;
mod fstmap;
mod header;

pub use archive::{length_of, lemma_pack_unpack, offset_of, pack_value, parse_index};
pub use archive::{Archive, Index, DECOMPRESS_CEILING};
pub use builder::{blob_of, has_path, packed_seq, sorted_entries, sorted_insert, total_len};
pub use builder::lemma_sorted_insert_paths;
pub use builder::{lemma_blob_len, lemma_blob_slice, lemma_offset_sums, lemma_packed_absent,
    lemma_packed_index, lemma_packed_len, lemma_packed_lookup, lemma_round_trip_entry,
    lemma_sorted_insert_at,
    lemma_total_len_elem, lemma_total_len_insert, lemma_total_len_nonneg, lemma_total_len_update,
    lemma_total_take_le, lemma_total_take_step};
pub use builder::ArchiveBuilder;
pub use codec::{Codec, CodecId, ZstdCodec};
pub use codec::{zstd_compressed, zstd_content_of, zstd_decodes_to, zstd_frame_ok};
pub use fstmap::{entries_as_map, lemma_lex_from_prefix, lemma_lex_total, lemma_lex_trans, lex_lt};
pub use fstmap::{builder_entries, fst_bytes_of, fst_checksum_ok, fst_ok, fst_parse, map_bytes,
    map_entries};
pub use fstcheck::{check_fst_bytes, check_fst_sums, chain_contains, chain_ok, fst_structure_ok,
    fst_sums_ok, node_end, node_ok, targets_ok};
pub use header::{header_bytes, header_parse, lemma_header_parse_ok,
    lemma_header_rejects_corruption, lemma_header_round_trip, parse_header};

use vstd::prelude::*;

verus! {

/// The error kinds the library surfaces to its callers.
///
/// Missing entries are reported as an absent value, not as an error.
#[derive(Debug, Clone, Copy, PartialEq, Eq, Structural)]
pub enum ArchiveError {
    /// The header bytes are not a well-formed header record.
    BadHeader,
    /// The header parsed, but its magic is not the expected one.
    NotOubliette,
    /// The header parsed, but its version is unknown.
    UnknownVersion,
    /// The index bytes after the header are not a valid transducer,
    /// or its structural verification failed.
    InvalidFst,
    /// A lookup yielded a range that overruns the data blob.
    Bounds,
    /// The codec rejected its input, or the output would exceed the ceiling.
    Decompress,
    /// The codec failed to produce a compressed payload.
    CodecFailure,
    /// A single compressed payload does not fit in 32 bits.
    ItemTooLarge,
    /// The cumulative compressed size exceeds the configured maximum.
    TotalTooLarge,
}

impl ArchiveError {
    /// A short human-readable description of the error.
    pub fn describe(&self) -> (r: &'static str)
        ensures
            r@ == match self {
                ArchiveError::BadHeader => "malformed header"@,
                ArchiveError::NotOubliette => "not oubliette"@,
                ArchiveError::UnknownVersion => "unknown version"@,
                ArchiveError::InvalidFst => "invalid index"@,
                ArchiveError::Bounds => "entry out of bounds"@,
                ArchiveError::Decompress => "decompression failed"@,
                ArchiveError::CodecFailure => "compression failed"@,
                ArchiveError::ItemTooLarge => "item too large"@,
                ArchiveError::TotalTooLarge => "total too large"@,
            },
            r@.len() > 0,
    {
        let r: &'static str = match self {
            ArchiveError::BadHeader => "malformed header",
            ArchiveError::NotOubliette => "not oubliette",
            ArchiveError::UnknownVersion => "unknown version",
            ArchiveError::InvalidFst => "invalid index",
            ArchiveError::Bounds => "entry out of bounds",
            ArchiveError::Decompress => "decompression failed",
            ArchiveError::CodecFailure => "compression failed",
            ArchiveError::ItemTooLarge => "item too large",
            ArchiveError::TotalTooLarge => "total too large",
        };
        proof {
            reveal_strlit("malformed header");
            reveal_strlit("not oubliette");
            reveal_strlit("unknown version");
            reveal_strlit("invalid index");
            reveal_strlit("entry out of bounds");
            reveal_strlit("decompression failed");
            reveal_strlit("compression failed");
            reveal_strlit("item too large");
            reveal_strlit("total too large");
        }
        r
    }
}

} // verus!
