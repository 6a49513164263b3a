use vstd::prelude::*;

use crate::codec::CodecId;
use crate::ArchiveError;

verus! {

/// The serialized header that precedes the transducer bytes in an index
/// file. It is a compact self-describing binary record: a self-describe
/// tag (`d9 d9 f7`), then a map of three text-keyed fields,
/// `magic: "oubliette"`, `version: 0`, `codec: "Zstd"`. Parsing it always
/// consumes exactly `header_bytes(codec).len()` bytes, which is how the
/// deserializer locates the start of the transducer region.
pub open spec fn header_bytes(codec: CodecId) -> Seq<u8> {
    seq![
        0xd9u8, 0xd9u8, 0xf7u8,  // self-describe tag
        0xa3u8,                  // map of three pairs
        0x65u8, 0x6du8, 0x61u8, 0x67u8, 0x69u8, 0x63u8,  // key "magic"
        0x69u8, 0x6fu8, 0x75u8, 0x62u8, 0x6cu8, 0x69u8, 0x65u8, 0x74u8, 0x74u8, 0x65u8,  // "oubliette"
        0x67u8, 0x76u8, 0x65u8, 0x72u8, 0x73u8, 0x69u8, 0x6fu8, 0x6eu8,  // key "version"
        0x00u8,                  // version 0
        0x65u8, 0x63u8, 0x6fu8, 0x64u8, 0x65u8, 0x63u8,  // key "codec"
        0x64u8, 0x5au8, 0x73u8, 0x74u8, 0x64u8,  // "Zstd"
    ]
}

/// What parsing the front of an index file yields: the codec named by the
/// header and the exact number of bytes the header occupies, or the kind
/// of format error. The magic text occupies bytes 10 to 20 and the version
/// byte is byte 28; a mismatch there is reported as a wrong magic or an
/// unknown version, any other deviation as a malformed header.
pub open spec fn header_parse(b: Seq<u8>) -> Result<(CodecId, int), ArchiveError> {
    let h = header_bytes(CodecId::Zstd);
    if b.len() < h.len() {
        Err(ArchiveError::BadHeader)
    } else if b.subrange(0, 10) != h.subrange(0, 10) {
        Err(ArchiveError::BadHeader)
    } else if b.subrange(10, 20) != h.subrange(10, 20) {
        Err(ArchiveError::NotOubliette)
    } else if b.subrange(20, 28) != h.subrange(20, 28) {
        Err(ArchiveError::BadHeader)
    } else if b[28] != 0 {
        Err(ArchiveError::UnknownVersion)
    } else if b.subrange(29, 40) != h.subrange(29, 40) {
        Err(ArchiveError::BadHeader)
    } else {
        Ok((CodecId::Zstd, 40))
    }
}

/// A header followed by anything parses back to the codec it was written
/// for, and the reported length cuts the buffer exactly where the trailing
/// bytes begin.
pub proof fn lemma_header_round_trip(codec: CodecId, tail: Seq<u8>)
    ensures
        header_parse(header_bytes(codec) + tail) == Ok::<(CodecId, int), ArchiveError>(
            (codec, header_bytes(codec).len() as int),
        ),
        (header_bytes(codec) + tail).subrange(
            header_bytes(codec).len() as int,
            (header_bytes(codec) + tail).len() as int,
        ) == tail,
{
    let h = header_bytes(codec);
    let b = h + tail;
    assert(header_bytes(CodecId::Zstd) == h);
    assert(b.subrange(0, 10) =~= h.subrange(0, 10));
    assert(b.subrange(10, 20) =~= h.subrange(10, 20));
    assert(b.subrange(20, 28) =~= h.subrange(20, 28));
    assert(b.subrange(29, 40) =~= h.subrange(29, 40));
    assert(b.subrange(h.len() as int, b.len() as int) =~= tail);
}

/// A buffer whose header parses is, byte for byte, that header followed
/// by its tail.
pub proof fn lemma_header_parse_ok(b: Seq<u8>)
    requires
        header_parse(b) is Ok,
    ensures
        header_parse(b) == Ok::<(CodecId, int), ArchiveError>((CodecId::Zstd, 40)),
        b == header_bytes(CodecId::Zstd) + b.subrange(40, b.len() as int),
{
    let h = header_bytes(CodecId::Zstd);
    let t = b.subrange(40, b.len() as int);
    assert(b =~= h + t) by {
        assert forall|k: int| 0 <= k < b.len() implies b[k] == (h + t)[k] by {
            if k < 10 {
                assert(b.subrange(0, 10)[k] == h.subrange(0, 10)[k]);
            } else if k < 20 {
                assert(b.subrange(10, 20)[k - 10] == h.subrange(10, 20)[k - 10]);
            } else if k < 28 {
                assert(b.subrange(20, 28)[k - 20] == h.subrange(20, 28)[k - 20]);
            } else if k == 28 {
                assert(b[28] == 0);
            } else if k < 40 {
                assert(b.subrange(29, 40)[k - 29] == h.subrange(29, 40)[k - 29]);
            } else {
                assert((h + t)[k] == t[k - 40]);
            }
        }
    }
}

/// Changing any single byte of a header that parses makes it fail to
/// parse: corruption anywhere in the header region is rejected.
pub proof fn lemma_header_rejects_corruption(bytes: Seq<u8>, j: int, c: u8)
    requires
        header_parse(bytes) is Ok,
        0 <= j < 40,
        c != bytes[j],
    ensures
        header_parse(bytes.update(j, c)) is Err,
{
    let h = header_bytes(CodecId::Zstd);
    let u = bytes.update(j, c);
    lemma_header_parse_ok(bytes);
    assert(bytes[j] == h[j]);
    if header_parse(u) is Ok {
        if j < 10 {
            assert(u.subrange(0, 10)[j] == h.subrange(0, 10)[j]);
        } else if j < 20 {
            assert(u.subrange(10, 20)[j - 10] == h.subrange(10, 20)[j - 10]);
        } else if j < 28 {
            assert(u.subrange(20, 28)[j - 20] == h.subrange(20, 28)[j - 20]);
        } else if j == 28 {
            assert(u[28] == 0);
        } else {
            assert(u.subrange(29, 40)[j - 29] == h.subrange(29, 40)[j - 29]);
        }
        assert(u[j] == h[j]);
        assert(false);
    }
}

/// Emits the header record for `codec`.
pub(crate) fn encode_header(codec: CodecId) -> (r: Vec<u8>)
    ensures
        r@ == header_bytes(codec),
{
    let mut v: Vec<u8> = Vec::new();
    v.push(0xd9u8);
    v.push(0xd9u8);
    v.push(0xf7u8);
    v.push(0xa3u8);
    v.push(0x65u8);
    v.push(0x6du8);
    v.push(0x61u8);
    v.push(0x67u8);
    v.push(0x69u8);
    v.push(0x63u8);
    v.push(0x69u8);
    v.push(0x6fu8);
    v.push(0x75u8);
    v.push(0x62u8);
    v.push(0x6cu8);
    v.push(0x69u8);
    v.push(0x65u8);
    v.push(0x74u8);
    v.push(0x74u8);
    v.push(0x65u8);
    v.push(0x67u8);
    v.push(0x76u8);
    v.push(0x65u8);
    v.push(0x72u8);
    v.push(0x73u8);
    v.push(0x69u8);
    v.push(0x6fu8);
    v.push(0x6eu8);
    v.push(0x00u8);
    v.push(0x65u8);
    v.push(0x63u8);
    v.push(0x6fu8);
    v.push(0x64u8);
    v.push(0x65u8);
    v.push(0x63u8);
    v.push(0x64u8);
    v.push(0x5au8);
    v.push(0x73u8);
    v.push(0x74u8);
    v.push(0x64u8);
    proof {
        assert(v@ =~= header_bytes(codec));
    }
    v
}

/// Compares `data` to `expected` on the index range `lo..hi`.
fn region_matches(data: &[u8], expected: &Vec<u8>, lo: usize, hi: usize) -> (r: bool)
    requires
        lo <= hi,
        hi <= expected@.len(),
        hi <= data@.len(),
    ensures
        r == (data@.subrange(lo as int, hi as int) == expected@.subrange(lo as int, hi as int)),
{
    let mut j = lo;
    while j < hi
        invariant
            lo <= j <= hi,
            hi <= expected@.len(),
            hi <= data@.len(),
            forall|k: int| lo <= k < j ==> data@[k] == expected@[k],
        decreases hi - j,
    {
        if *vstd::slice::slice_index_get(data, j) != expected[j] {
            proof {
                assert(data@.subrange(lo as int, hi as int)[j - lo] != expected@.subrange(
                    lo as int,
                    hi as int,
                )[j - lo]);
            }
            return false;
        }
        j += 1;
    }
    proof {
        assert(data@.subrange(lo as int, hi as int) =~= expected@.subrange(lo as int, hi as int));
    }
    true
}

/// Parses the header at the front of `data`, yielding the codec and the
/// byte offset at which the transducer region begins.
pub fn parse_header(data: &[u8]) -> (r: Result<(CodecId, usize), ArchiveError>)
    ensures
        match r {
            Ok(p) => header_parse(data@) == Ok::<(CodecId, int), ArchiveError>((p.0, p.1 as int)),
            Err(e) => header_parse(data@) == Err::<(CodecId, int), ArchiveError>(e),
        },
{
    let expected = encode_header(CodecId::Zstd);
    proof {
        assert(expected@.len() == 40);
    }
    if data.len() < expected.len() {
        return Err(ArchiveError::BadHeader);
    }
    if !region_matches(data, &expected, 0, 10) {
        return Err(ArchiveError::BadHeader);
    }
    if !region_matches(data, &expected, 10, 20) {
        return Err(ArchiveError::NotOubliette);
    }
    if !region_matches(data, &expected, 20, 28) {
        return Err(ArchiveError::BadHeader);
    }
    if *vstd::slice::slice_index_get(data, 28) != 0u8 {
        return Err(ArchiveError::UnknownVersion);
    }
    if !region_matches(data, &expected, 29, 40) {
        return Err(ArchiveError::BadHeader);
    }
    Ok((CodecId::Zstd, 40))
}

} // verus!
