use vstd::prelude::*;

use crate::codec::{zstd_decodes_to, Codec, CodecId, ZstdCodec};
use crate::fstmap::{
    fst_checksum_ok, fst_ok, fst_parse, map_bytes, map_entries, map_get, map_into_bytes, map_new,
    map_verify,
};
use crate::header::{encode_header, header_bytes, header_parse, lemma_header_round_trip,
    parse_header};
use crate::ArchiveError;
use vstd::string::StringSliceAdditionalSpecFns;
use vstd::utf8::encode_utf8;

verus! {

/// The per-entry decompression ceiling: a read refuses to expand an entry
/// past this many bytes.
pub const DECOMPRESS_CEILING: usize = 10 * 1024 * 1024;

/// The transducer's value slot packs an entry's byte offset into the data
/// blob in the high 32 bits and its compressed length in the low 32 bits.
pub open spec fn pack_value(off: u64, len: u64) -> u64 {
    (off << 32) | len
}

/// The byte offset packed into a value.
pub open spec fn offset_of(v: u64) -> u64 {
    v >> 32
}

/// The compressed length packed into a value.
pub open spec fn length_of(v: u64) -> u64 {
    v & 0xFFFF_FFFFu64
}

/// Packing an in-range offset and length loses nothing.
pub proof fn lemma_pack_unpack(off: u64, len: u64)
    requires
        off <= 0xFFFF_FFFFu64,
        len <= 0xFFFF_FFFFu64,
    ensures
        offset_of(pack_value(off, len)) == off,
        length_of(pack_value(off, len)) == len,
{
    assert(((off << 32) | len) >> 32 == off) by (bit_vector)
        requires
            off <= 0xFFFF_FFFFu64,
            len <= 0xFFFF_FFFFu64,
    ;
    assert((((off << 32) | len) & 0xFFFF_FFFFu64) == len) by (bit_vector)
        requires
            off <= 0xFFFF_FFFFu64,
            len <= 0xFFFF_FFFFu64,
    ;
}

/// What deserializing an index file yields: the codec and the mapping, or
/// the error. The header is parsed first; the rest of the buffer must open
/// as a transducer and pass its structural verification.
pub open spec fn parse_index(bytes: Seq<u8>) -> Result<(CodecId, Map<Seq<u8>, u64>), ArchiveError> {
    match header_parse(bytes) {
        Ok(p) => {
            let tail = bytes.subrange(p.1, bytes.len() as int);
            if !crate::fstcheck::fst_structure_ok(tail) {
                Err(ArchiveError::InvalidFst)
            } else if !crate::fstcheck::fst_sums_ok(tail) {
                Err(ArchiveError::InvalidFst)
            } else if !fst_ok(tail) {
                Err(ArchiveError::InvalidFst)
            } else if !fst_checksum_ok(tail) {
                Err(ArchiveError::InvalidFst)
            } else {
                Ok((p.0, fst_parse(tail)))
            }
        },
        Err(e) => Err(e),
    }
}

/// The keyed directory of an archive: a header naming the codec, and a
/// transducer mapping each path to its packed (offset, length).
#[derive(Debug)]
pub struct Index {
    codec: CodecId,
    map: fst::Map<Vec<u8>>,
}

impl Index {
    /// The mapping from path bytes to packed (offset, length) values.
    pub closed spec fn entries(self) -> Map<Seq<u8>, u64> {
        map_entries(self.map)
    }

    /// The codec named in the header.
    pub closed spec fn codec_id(self) -> CodecId {
        self.codec
    }

    /// The single flat buffer `serialize` emits: header, then transducer.
    pub closed spec fn serialized(self) -> Seq<u8> {
        header_bytes(self.codec) + map_bytes(self.map)
    }

    #[verifier::type_invariant]
    spec fn wf(self) -> bool {
        &&& fst_ok(map_bytes(self.map))
        &&& fst_checksum_ok(map_bytes(self.map))
        &&& crate::fstcheck::fst_structure_ok(map_bytes(self.map))
        &&& crate::fstcheck::fst_sums_ok(map_bytes(self.map))
        &&& fst_parse(map_bytes(self.map)) == map_entries(self.map)
    }

    pub(crate) fn new(codec: CodecId, map: fst::Map<Vec<u8>>) -> (r: Index)
        requires
            fst_ok(map_bytes(map)),
            fst_checksum_ok(map_bytes(map)),
            crate::fstcheck::fst_structure_ok(map_bytes(map)),
            crate::fstcheck::fst_sums_ok(map_bytes(map)),
            fst_parse(map_bytes(map)) == map_entries(map),
        ensures
            r.entries() == map_entries(map),
            r.codec_id() == codec,
            r.serialized() == header_bytes(codec) + map_bytes(map),
    {
        Index { codec, map }
    }

    /// Looks a path up and unpacks its value as (offset, length).
    pub fn get(&self, path: &str) -> (r: Option<(usize, usize)>)
        ensures
            ({
                let k = encode_utf8(path@);
                match r {
                    Some(p) => self.entries().contains_key(k) && p.0 as int == offset_of(
                        self.entries()[k],
                    ) as int && p.1 as int == length_of(self.entries()[k]) as int,
                    None => !self.entries().contains_key(k),
                }
            }),
    {
        proof {
            use_type_invariant(self);
        }
        let bytes = path.as_bytes();
        match map_get(&self.map, bytes) {
            None => None,
            Some(v) => {
                let off64 = v >> 32;
                let len64 = v & 0xFFFF_FFFFu64;
                proof {
                    assert(v >> 32 <= 0xFFFF_FFFFu64) by (bit_vector);
                    assert(v & 0xFFFF_FFFFu64 <= 0xFFFF_FFFFu64) by (bit_vector);
                }
                Some((off64 as usize, len64 as usize))
            },
        }
    }

    /// Emits the flat `header ∥ transducer` buffer. Deserializing it
    /// succeeds and restores exactly this index.
    pub fn serialize(self) -> (r: Vec<u8>)
        ensures
            r@ == self.serialized(),
            parse_index(r@) == Ok::<(CodecId, Map<Seq<u8>, u64>), ArchiveError>(
                (self.codec_id(), self.entries()),
            ),
    {
        proof {
            use_type_invariant(&self);
        }
        let Index { codec, map } = self;
        proof {
            lemma_header_round_trip(codec, map_bytes(map));
        }
        let mut out = encode_header(codec);
        let mut tail = map_into_bytes(map);
        out.append(&mut tail);
        out
    }

    /// Parses an index file: header first, then the transducer, which must
    /// open and pass its structural verification.
    pub fn deserialize(data: Vec<u8>) -> (r: Result<Index, ArchiveError>)
        ensures
            match r {
                Ok(idx) => parse_index(data@) matches Ok(p) && idx.codec_id() == p.0
                    && idx.entries() == p.1 && idx.serialized() == data@,
                Err(e) => parse_index(data@) == Err::<(CodecId, Map<Seq<u8>, u64>), ArchiveError>(
                    e,
                ),
            },
    {
        let (codec, hlen) = match parse_header(data.as_slice()) {
            Ok(p) => p,
            Err(e) => {
                return Err(e);
            },
        };
        let n = data.len();
        let tail_slice = vstd::slice::slice_subrange(data.as_slice(), hlen, n);
        let tail = vstd::slice::slice_to_vec(tail_slice);
        if !crate::fstcheck::check_fst_bytes(&tail) {
            return Err(ArchiveError::InvalidFst);
        }
        if !crate::fstcheck::check_fst_sums(&tail) {
            return Err(ArchiveError::InvalidFst);
        }
        let map = match map_new(tail) {
            Ok(m) => m,
            Err(_) => {
                return Err(ArchiveError::InvalidFst);
            },
        };
        match map_verify(&map) {
            Ok(()) => {},
            Err(_) => {
                return Err(ArchiveError::InvalidFst);
            },
        }
        proof {
            crate::header::lemma_header_parse_ok(data@);
        }
        Ok(Index { codec, map })
    }
}

/// An index bound to the data blob it describes.
#[derive(Debug)]
pub struct Archive {
    index: Index,
    data: Vec<u8>,
}

impl Archive {
    /// The mapping from path bytes to packed (offset, length) values.
    pub closed spec fn entries(self) -> Map<Seq<u8>, u64> {
        self.index.entries()
    }

    /// The data blob: each entry's compressed payload, concatenated in
    /// ascending path order.
    pub closed spec fn blob(self) -> Seq<u8> {
        self.data@
    }

    /// The codec named in the index header.
    pub closed spec fn codec_id(self) -> CodecId {
        self.index.codec_id()
    }

    /// The bytes `serialize` emits for the index.
    pub closed spec fn serialized_index(self) -> Seq<u8> {
        self.index.serialized()
    }

    /// Pairs an index with a data blob. Nothing is cross-checked here; a
    /// blob too short for the index only surfaces as a bounds error on a
    /// read.
    pub fn new(index: Index, data: Vec<u8>) -> (r: Archive)
        ensures
            r.entries() == index.entries(),
            r.blob() == data@,
            r.codec_id() == index.codec_id(),
            r.serialized_index() == index.serialized(),
    {
        Archive { index, data }
    }

    /// Reads one entry: looks the path up, slices the blob, and
    /// decompresses the payload under the per-entry ceiling. An absent
    /// path is an absent value, not an error.
    pub fn get(&self, path: &str) -> (r: Result<Option<Vec<u8>>, ArchiveError>)
        ensures
            ({
                let k = encode_utf8(path@);
                match r {
                    Ok(opt) => match opt {
                        Some(out) => self.entries().contains_key(k) && ({
                            let v = self.entries()[k];
                            let off = offset_of(v) as int;
                            let l = length_of(v) as int;
                            let span = self.blob().subrange(off, off + l);
                            &&& off + l <= self.blob().len()
                            &&& crate::codec::zstd_frame_ok(span)
                            &&& out@ == crate::codec::zstd_content_of(span)
                            &&& forall|input: Seq<u8>| #[trigger] zstd_decodes_to(span, input)
                                ==> out@ == input
                            &&& out@.len() <= DECOMPRESS_CEILING
                        }),
                        None => !self.entries().contains_key(k),
                    },
                    Err(e) => self.entries().contains_key(k) && ({
                        let v = self.entries()[k];
                        let off = offset_of(v) as int;
                        let l = length_of(v) as int;
                        let span = self.blob().subrange(off, off + l);
                        if e == ArchiveError::Bounds {
                            off + l > self.blob().len()
                        } else {
                            &&& e == ArchiveError::Decompress
                            &&& off + l <= self.blob().len()
                            &&& !(crate::codec::zstd_frame_ok(span)
                                && crate::codec::zstd_content_of(span).len()
                                <= DECOMPRESS_CEILING)
                            &&& !(exists|input: Seq<u8>| #[trigger] zstd_decodes_to(span, input)
                                && input.len() <= DECOMPRESS_CEILING)
                        }
                    }),
                }
            }),
    {
        let (off, len) = match self.index.get(path) {
            Some(p) => p,
            None => {
                return Ok(None);
            },
        };
        let dlen = self.data.len();
        if off > dlen || len > dlen - off {
            return Err(ArchiveError::Bounds);
        }
        let end = off + len;
        let slice = vstd::slice::slice_subrange(self.data.as_slice(), off, end);
        let ghost span = self.data@.subrange(off as int, off as int + len as int);
        let mut codec = ZstdCodec::new(0);
        match codec.decompress(slice, DECOMPRESS_CEILING) {
            Ok(out) => {
                proof {
                    assert forall|input: Seq<u8>| #[trigger] zstd_decodes_to(span, input) implies
                        out@ == input by {
                        assert(<ZstdCodec as Codec>::is_comp_of(slice@, input));
                    }
                }
                Ok(Some(out))
            },
            Err(_) => {
                proof {
                    if exists|input: Seq<u8>| #[trigger] zstd_decodes_to(span, input)
                        && input.len() <= DECOMPRESS_CEILING {
                        let i = choose|input: Seq<u8>| #[trigger] zstd_decodes_to(span, input)
                            && input.len() <= DECOMPRESS_CEILING;
                        assert(<ZstdCodec as Codec>::is_comp_of(slice@, i));
                        assert(false);
                    }
                }
                Err(ArchiveError::Decompress)
            },
        }
    }

    /// Consumes the archive, yielding the two artifacts to persist: the
    /// serialized index and the data blob.
    pub fn serialize(self) -> (r: (Vec<u8>, Vec<u8>))
        ensures
            r.0@ == self.serialized_index(),
            parse_index(r.0@) == Ok::<(CodecId, Map<Seq<u8>, u64>), ArchiveError>(
                (self.codec_id(), self.entries()),
            ),
            r.1@ == self.blob(),
    {
        let Archive { index, data } = self;
        (index.serialize(), data)
    }
}

} // verus!
