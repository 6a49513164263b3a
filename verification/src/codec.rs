use vstd::prelude::*;

use crate::ArchiveError;

verus! {

/// Stable identifier of a codec, embedded in the archive header so that a
/// reader can reject or dispatch by codec. The only defined variant is `Zstd`.
#[derive(Debug, Clone, Copy, PartialEq, Eq, Structural)]
pub enum CodecId {
    Zstd,
}

/// `std::io::Error` carries the failures the zstd entry points report;
/// the library never reads it, it only maps it to its own error kinds.
#[verifier::external_type_specification]
#[verifier::external_body]
pub struct ExIoError(std::io::Error);

/// The bytes that `zstd` produces when compressing `input` at `level`.
///
/// The result of compression is a pure function of the input bytes and the
/// compression level; this name stands for it without spelling the format out.
pub uninterp spec fn zstd_compressed(input: Seq<u8>, level: int) -> Seq<u8>;

/// Holds when `bytes` is the compressed form of `input` at some level, so
/// that decompressing `bytes` yields `input` again.
pub open spec fn zstd_decodes_to(bytes: Seq<u8>, input: Seq<u8>) -> bool {
    exists|level: int| bytes == zstd_compressed(input, level)
}

/// Whether `bytes` is a well-formed compressed block, one that
/// decompression accepts when given room for its content.
pub uninterp spec fn zstd_frame_ok(bytes: Seq<u8>) -> bool;

/// The content a well-formed compressed block decodes to.
pub uninterp spec fn zstd_content_of(bytes: Seq<u8>) -> Seq<u8>;

/// Relies on `zstd::bulk::compress`: a lossless, deterministic compressor.
/// Its output is a function of the input bytes and the level alone, and
/// fits the destination the call sizes for the worst case: the input plus
/// a 1/256th share plus a margin of at most 64 bytes. It fails only on
/// resource exhaustion, which this model leaves out.
#[verifier::external_body]
fn zstd_compress(bytes: &[u8], level: i32) -> (r: Result<Vec<u8>, std::io::Error>)
    ensures
        r is Ok,
        r matches Ok(o) ==> o@ == zstd_compressed(bytes@, level as int),
        r matches Ok(o) ==> o@.len() <= bytes@.len() + bytes@.len() / 256 + 64,
{
    zstd::bulk::compress(bytes, level)
}

/// Relies on `zstd::bulk::decompress`: it accepts exactly the well-formed
/// blocks whose content fits in `max_len` and returns that content; in
/// particular the compressor's output decodes back to what was compressed,
/// and is accepted whenever the original fits.
#[verifier::external_body]
fn zstd_decompress(bytes: &[u8], max_len: usize) -> (r: Result<Vec<u8>, std::io::Error>)
    ensures
        r is Ok <==> (zstd_frame_ok(bytes@) && zstd_content_of(bytes@).len() <= max_len),
        r matches Ok(o) ==> o@ == zstd_content_of(bytes@),
        r matches Ok(o) ==> forall|input: Seq<u8>, level: int|
            bytes@ == #[trigger] zstd_compressed(input, level) ==> o@ == input,
        (exists|input: Seq<u8>, level: int|
            bytes@ == #[trigger] zstd_compressed(input, level) && input.len() <= max_len) ==> r
            is Ok,
{
    zstd::bulk::decompress(bytes, max_len)
}

/// A byte-buffer transformation pair. `compress` is lossless; `decompress`
/// refuses to expand past the caller's ceiling. Each implementation is
/// identified by a stable `CodecId` tag.
pub trait Codec: Sized {
    /// The bytes this codec instance produces for `input`.
    spec fn comp_of(&self, input: Seq<u8>) -> Seq<u8>;

    /// Holds when `bytes` is a compressed form that this codec family
    /// decompresses back to `input`, whatever instance produced it.
    spec fn is_comp_of(bytes: Seq<u8>, input: Seq<u8>) -> bool;

    /// Whether this codec's compression succeeds on every input.
    spec fn compress_total() -> bool;

    /// Whether `bytes` is a well-formed compressed block this codec
    /// family accepts for decompression.
    spec fn frame_ok(bytes: Seq<u8>) -> bool;

    /// The content a well-formed compressed block decodes to.
    spec fn content_of(bytes: Seq<u8>) -> Seq<u8>;

    /// The tag of this codec.
    spec fn id_spec() -> CodecId;

    /// What any instance compresses, every instance decompresses.
    proof fn lemma_comp_decodes(&self, input: Seq<u8>)
        ensures
            Self::is_comp_of(self.comp_of(input), input),
    ;

    fn compress(&mut self, bytes: &[u8]) -> (r: Result<Vec<u8>, ArchiveError>)
        ensures
            *final(self) == *old(self),
            Self::compress_total() ==> r is Ok,
            r matches Ok(o) ==> o@ == old(self).comp_of(bytes@),
            r matches Err(e) ==> e == ArchiveError::CodecFailure,
    ;

    fn decompress(&mut self, bytes: &[u8], max_len: usize) -> (r: Result<Vec<u8>, ArchiveError>)
        ensures
            *final(self) == *old(self),
            r is Ok <==> Self::frame_ok(bytes@) && Self::content_of(bytes@).len() <= max_len,
            r matches Ok(o) ==> o@ == Self::content_of(bytes@),
            r matches Ok(o) ==> o@.len() <= max_len,
            r matches Ok(o) ==> forall|input: Seq<u8>|
                #[trigger] Self::is_comp_of(bytes@, input) ==> o@ == input,
            (exists|input: Seq<u8>|
                #[trigger] Self::is_comp_of(bytes@, input) && input.len() <= max_len) ==> r is Ok,
            r matches Err(e) ==> e == ArchiveError::Decompress,
    ;

    fn id(&self) -> (r: CodecId)
        ensures
            r == Self::id_spec(),
    ;
}

/// The zstd codec, parameterized by a compression level. Level `0` stands
/// for zstd's own default; decompression ignores the level.
#[derive(Debug)]
pub struct ZstdCodec {
    level: i32,
}

impl ZstdCodec {
    /// The compression level this instance was created with.
    pub closed spec fn level(self) -> int {
        self.level as int
    }

    pub fn new(level: i32) -> (r: ZstdCodec)
        ensures
            r.level() == level as int,
    {
        ZstdCodec { level }
    }
}

impl Codec for ZstdCodec {
    open spec fn comp_of(&self, input: Seq<u8>) -> Seq<u8> {
        zstd_compressed(input, self.level())
    }

    open spec fn is_comp_of(bytes: Seq<u8>, input: Seq<u8>) -> bool {
        zstd_decodes_to(bytes, input)
    }

    open spec fn compress_total() -> bool {
        true
    }

    open spec fn frame_ok(bytes: Seq<u8>) -> bool {
        zstd_frame_ok(bytes)
    }

    open spec fn content_of(bytes: Seq<u8>) -> Seq<u8> {
        zstd_content_of(bytes)
    }

    open spec fn id_spec() -> CodecId {
        CodecId::Zstd
    }

    proof fn lemma_comp_decodes(&self, input: Seq<u8>) {
        assert(zstd_compressed(input, self.level()) == zstd_compressed(input, self.level()));
    }

    fn compress(&mut self, bytes: &[u8]) -> (r: Result<Vec<u8>, ArchiveError>)
        ensures
            r matches Ok(o) ==> o@.len() <= bytes@.len() + bytes@.len() / 256 + 64,
    {
        match zstd_compress(bytes, self.level) {
            Ok(o) => Ok(o),
            Err(_) => Err(ArchiveError::CodecFailure),
        }
    }

    fn decompress(&mut self, bytes: &[u8], max_len: usize) -> (r: Result<Vec<u8>, ArchiveError>) {
        match zstd_decompress(bytes, max_len) {
            Ok(o) => Ok(o),
            Err(_) => Err(ArchiveError::Decompress),
        }
    }

    fn id(&self) -> (r: CodecId) {
        CodecId::Zstd
    }
}

} // verus!
