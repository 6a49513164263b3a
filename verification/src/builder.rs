use vstd::prelude::*;

use crate::archive::{length_of, offset_of, pack_value, Archive, Index};
use crate::codec::Codec;
use crate::fstmap::{
    builder_entries, builder_insert, builder_into_map, bytes_cmp, entries_as_map, fst_bytes_of,
    lemma_lex_total, lemma_lex_trans, lex_lt,
};
use crate::header::header_bytes;
use crate::ArchiveError;
use vstd::string::StringSliceAdditionalSpecFns;
use vstd::utf8::encode_utf8;

verus! {

/// A pending entry: a path and the compressed payload stored under it.
#[derive(Debug)]
struct Entry {
    path: Vec<u8>,
    payload: Vec<u8>,
}

/// Whether some entry of `es` is stored under `key`.
pub open spec fn has_path(es: Seq<(Seq<u8>, Seq<u8>)>, key: Seq<u8>) -> bool {
    exists|j: int| 0 <= j < es.len() && (#[trigger] es[j]).0 == key
}

/// Whether the paths of `es` are strictly sorted, which also makes them
/// unique.
pub open spec fn sorted_entries(es: Seq<(Seq<u8>, Seq<u8>)>) -> bool {
    forall|i: int, j: int|
        0 <= i < j < es.len() ==> lex_lt(#[trigger] es[i].0, #[trigger] es[j].0)
}

/// The sum of the payload lengths of `es`.
pub open spec fn total_len(es: Seq<(Seq<u8>, Seq<u8>)>) -> int
    decreases es.len(),
{
    if es.len() == 0 {
        0
    } else {
        total_len(es.drop_last()) + es.last().1.len()
    }
}

/// The concatenation of the payloads of `es`, in order: the data blob.
pub open spec fn blob_of(es: Seq<(Seq<u8>, Seq<u8>)>) -> Seq<u8>
    decreases es.len(),
{
    if es.len() == 0 {
        Seq::empty()
    } else {
        blob_of(es.drop_last()) + es.last().1
    }
}

/// The transducer entries emitted for `es`: each path mapped to the packed
/// pair of its payload's offset into the blob and its payload's length.
pub open spec fn packed_seq(es: Seq<(Seq<u8>, Seq<u8>)>) -> Seq<(Seq<u8>, u64)>
    decreases es.len(),
{
    if es.len() == 0 {
        Seq::empty()
    } else {
        packed_seq(es.drop_last()).push(
            (
                es.last().0,
                pack_value(total_len(es.drop_last()) as u64, es.last().1.len() as u64),
            ),
        )
    }
}

/// `es` with `val` stored under `key`: inserted in order, or replacing the
/// payload of an equal path.
pub open spec fn sorted_insert(
    es: Seq<(Seq<u8>, Seq<u8>)>,
    key: Seq<u8>,
    val: Seq<u8>,
) -> Seq<(Seq<u8>, Seq<u8>)>
    decreases es.len(),
{
    if es.len() == 0 {
        seq![(key, val)]
    } else if lex_lt(key, es[0].0) {
        seq![(key, val)] + es
    } else if key == es[0].0 {
        seq![(key, val)] + es.drop_first()
    } else {
        seq![es[0]] + sorted_insert(es.drop_first(), key, val)
    }
}

pub proof fn lemma_total_len_nonneg(es: Seq<(Seq<u8>, Seq<u8>)>)
    ensures
        total_len(es) >= 0,
    decreases es.len(),
{
    if es.len() != 0 {
        lemma_total_len_nonneg(es.drop_last());
    }
}

/// The blob is exactly as long as the payload lengths add up to.
pub proof fn lemma_blob_len(es: Seq<(Seq<u8>, Seq<u8>)>)
    ensures
        blob_of(es).len() == total_len(es),
    decreases es.len(),
{
    if es.len() != 0 {
        lemma_blob_len(es.drop_last());
        lemma_total_len_nonneg(es.drop_last());
    }
}

/// Every payload fits inside the total.
pub proof fn lemma_total_len_elem(es: Seq<(Seq<u8>, Seq<u8>)>, i: int)
    requires
        0 <= i < es.len(),
    ensures
        es[i].1.len() <= total_len(es),
    decreases es.len(),
{
    lemma_total_len_nonneg(es.drop_last());
    if i < es.len() - 1 {
        lemma_total_len_elem(es.drop_last(), i);
    }
}

/// Taking a prefix never increases the total.
pub proof fn lemma_total_take_le(es: Seq<(Seq<u8>, Seq<u8>)>, j: int)
    requires
        0 <= j <= es.len(),
    ensures
        total_len(es.take(j)) <= total_len(es),
    decreases es.len(),
{
    if j == es.len() {
        assert(es.take(j) =~= es);
    } else {
        assert(es.drop_last().take(j) =~= es.take(j));
        lemma_total_take_le(es.drop_last(), j);
    }
}

/// Extending a prefix by one entry grows its total by that entry's
/// payload length.
pub proof fn lemma_total_take_step(es: Seq<(Seq<u8>, Seq<u8>)>, i: int)
    requires
        0 <= i < es.len(),
    ensures
        total_len(es.take(i + 1)) == total_len(es.take(i)) + es[i].1.len(),
{
    assert(es.take(i + 1).drop_last() =~= es.take(i));
    assert(es.take(i + 1).last() == es[i]);
}

/// Inserting an entry at `i` grows the total by its payload length.
pub proof fn lemma_total_len_insert(es: Seq<(Seq<u8>, Seq<u8>)>, i: int, e: (Seq<u8>, Seq<u8>))
    requires
        0 <= i <= es.len(),
    ensures
        total_len(es.insert(i, e)) == total_len(es) + e.1.len(),
    decreases es.len(),
{
    if i == es.len() {
        assert(es.insert(i, e).drop_last() =~= es);
        assert(es.insert(i, e).last() == e);
    } else {
        assert(es.insert(i, e).drop_last() =~= es.drop_last().insert(i, e));
        assert(es.insert(i, e).last() == es.last());
        lemma_total_len_insert(es.drop_last(), i, e);
    }
}

/// Replacing the entry at `i` adjusts the total by the difference of the
/// payload lengths.
pub proof fn lemma_total_len_update(es: Seq<(Seq<u8>, Seq<u8>)>, i: int, e: (Seq<u8>, Seq<u8>))
    requires
        0 <= i < es.len(),
    ensures
        total_len(es.update(i, e)) == total_len(es) - es[i].1.len() + e.1.len(),
    decreases es.len(),
{
    if i == es.len() - 1 {
        assert(es.update(i, e).drop_last() =~= es.drop_last());
        assert(es.update(i, e).last() == e);
    } else {
        assert(es.update(i, e).drop_last() =~= es.drop_last().update(i, e));
        assert(es.update(i, e).last() == es.last());
        lemma_total_len_update(es.drop_last(), i, e);
    }
}

/// Where the scan stopped determines what `sorted_insert` is: a
/// replacement at `i` when the path is already there, otherwise a splice
/// at `i`.
pub proof fn lemma_sorted_insert_at(
    es: Seq<(Seq<u8>, Seq<u8>)>,
    key: Seq<u8>,
    val: Seq<u8>,
    i: int,
)
    requires
        0 <= i <= es.len(),
        forall|j: int| 0 <= j < i ==> lex_lt(#[trigger] es[j].0, key),
        i < es.len() ==> !lex_lt(es[i].0, key),
    ensures
        sorted_insert(es, key, val) == (if i < es.len() && es[i].0 == key {
            es.update(i, (key, val))
        } else {
            es.take(i) + seq![(key, val)] + es.skip(i)
        }),
    decreases i,
{
    if i == 0 {
        if es.len() == 0 {
            assert(sorted_insert(es, key, val) =~= es.take(0) + seq![(key, val)] + es.skip(0));
        } else if es[0].0 == key {
            lemma_lex_total(es[0].0, key);
            assert(seq![(key, val)] + es.drop_first() =~= es.update(0, (key, val)));
        } else {
            lemma_lex_total(es[0].0, key);
            assert(lex_lt(key, es[0].0));
            assert(seq![(key, val)] + es =~= es.take(0) + seq![(key, val)] + es.skip(0));
        }
    } else {
        assert(lex_lt(es[0].0, key));
        lemma_lex_total(es[0].0, key);
        assert(!lex_lt(key, es[0].0) && key != es[0].0);
        let d = es.drop_first();
        assert(forall|j: int| 0 <= j < i - 1 ==> #[trigger] d[j].0 == es[j + 1].0);
        lemma_sorted_insert_at(d, key, val, i - 1);
        if i < es.len() && es[i].0 == key {
            assert(d[i - 1].0 == key);
            assert(seq![es[0]] + d.update(i - 1, (key, val)) =~= es.update(i, (key, val)));
        } else {
            assert(seq![es[0]] + (d.take(i - 1) + seq![(key, val)] + d.skip(i - 1)) =~= es.take(i)
                + seq![(key, val)] + es.skip(i));
        }
    }
}

/// Appends every byte of `src` to `dst`.
fn push_all(dst: &mut Vec<u8>, src: &Vec<u8>)
    ensures
        final(dst)@ == old(dst)@ + src@,
{
    let mut j: usize = 0;
    while j < src.len()
        invariant
            j <= src@.len(),
            dst@ == old(dst)@ + src@.subrange(0, j as int),
        decreases src@.len() - j,
    {
        let b = src[j];
        dst.push(b);
        j += 1;
        proof {
            assert(dst@ =~= old(dst)@ + src@.subrange(0, j as int));
        }
    }
    proof {
        assert(old(dst)@ + src@.subrange(0, src@.len() as int) =~= old(dst)@ + src@);
    }
}

/// Scans a sorted vector for `key`: returns the first position whose path
/// is not below `key`, and whether the path there equals `key`.
fn find_slot(items: &Vec<Entry>, key: &[u8]) -> (r: (usize, bool))
    ensures
        r.0 <= items@.len(),
        forall|j: int| 0 <= j < r.0 ==> lex_lt(#[trigger] items@[j].path@, key@),
        r.1 ==> r.0 < items@.len() && items@[r.0 as int].path@ == key@,
        !r.1 ==> r.0 == items@.len() || lex_lt(key@, items@[r.0 as int].path@),
{
    let mut i: usize = 0;
    while i < items.len()
        invariant
            i <= items@.len(),
            forall|j: int| 0 <= j < i ==> lex_lt(#[trigger] items@[j].path@, key@),
        decreases items@.len() - i,
    {
        let c = bytes_cmp(items[i].path.as_slice(), key);
        if c == 0 {
            return (i, true);
        }
        if c == 1 {
            return (i, false);
        }
        proof {
            lemma_lex_total(items@[i as int].path@, key@);
        }
        i += 1;
    }
    (i, false)
}

/// Accumulates a directory's files as sorted, compressed entries, then
/// emits the archive. The running total of compressed sizes is capped by
/// `max_size`, and by the 32-bit offset space of the packed values.
#[derive(Debug)]
pub struct ArchiveBuilder<C> {
    codec: C,
    items: Vec<Entry>,
    total: usize,
    max_size: usize,
}

impl<C: Codec> ArchiveBuilder<C> {
    /// The pending entries, sorted by path: each a path and the compressed
    /// payload stored under it.
    pub closed spec fn entries(self) -> Seq<(Seq<u8>, Seq<u8>)> {
        Seq::new(self.items@.len() as nat, |i: int| (self.items@[i].path@, self.items@[i].payload@))
    }

    /// The codec the builder compresses with.
    pub closed spec fn codec_spec(self) -> C {
        self.codec
    }

    /// The configured ceiling on the total compressed size.
    pub closed spec fn max_size_spec(self) -> int {
        self.max_size as int
    }

    /// Well-formedness: entries sorted by path, the running total equal to
    /// their payload lengths' sum and within both ceilings.
    pub closed spec fn wf(self) -> bool {
        &&& sorted_entries(self.entries())
        &&& self.total as int == total_len(self.entries())
        &&& total_len(self.entries()) <= 0xFFFF_FFFF
        &&& total_len(self.entries()) <= self.max_size as int
    }

    pub fn new(codec: C, max_size: usize) -> (r: Self)
        ensures
            r.wf(),
            r.entries() == Seq::<(Seq<u8>, Seq<u8>)>::empty(),
            r.codec_spec() == codec,
            r.max_size_spec() == max_size as int,
    {
        let r = ArchiveBuilder { codec, items: Vec::new(), total: 0, max_size };
        proof {
            assert(r.entries() =~= Seq::<(Seq<u8>, Seq<u8>)>::empty());
        }
        r
    }

    /// Stores one file: compresses `contents` and records it under `path`,
    /// replacing a payload already stored under an equal path. Refuses a
    /// payload that does not fit in 32 bits, and a total beyond the
    /// configured ceiling or the packed values' 32-bit offset space.
    pub fn add_file(&mut self, path: &str, contents: &[u8]) -> (r: Result<(), ArchiveError>)
        requires
            old(self).wf(),
        ensures
            final(self).wf(),
            final(self).codec_spec() == old(self).codec_spec(),
            final(self).max_size_spec() == old(self).max_size_spec(),
            C::compress_total() ==> !(r matches Err(ArchiveError::CodecFailure)),
            ({
                let k = encode_utf8(path@);
                let comp = old(self).codec_spec().comp_of(contents@);
                let inserted = sorted_insert(old(self).entries(), k, comp);
                (C::compress_total() && comp.len() <= 0xFFFF_FFFF && total_len(inserted) <= old(
                    self,
                ).max_size_spec() && total_len(inserted) <= 0xFFFF_FFFF) ==> r is Ok
            }),
            ({
                let k = encode_utf8(path@);
                let comp = old(self).codec_spec().comp_of(contents@);
                let inserted = sorted_insert(old(self).entries(), k, comp);
                match r {
                    Ok(()) => {
                        &&& comp.len() <= 0xFFFF_FFFF
                        &&& total_len(inserted) <= old(self).max_size_spec()
                        &&& total_len(inserted) <= 0xFFFF_FFFF
                        &&& final(self).entries() == inserted
                    },
                    Err(ArchiveError::ItemTooLarge) => {
                        &&& comp.len() > 0xFFFF_FFFF
                        &&& final(self).entries() == old(self).entries()
                    },
                    Err(ArchiveError::TotalTooLarge) => {
                        &&& comp.len() <= 0xFFFF_FFFF
                        &&& (total_len(inserted) > old(self).max_size_spec() || total_len(inserted)
                            > 0xFFFF_FFFF)
                        &&& final(self).entries() == old(self).entries()
                    },
                    Err(ArchiveError::CodecFailure) => final(self).entries() == old(
                        self,
                    ).entries(),
                    _ => false,
                }
            }),
    {
        let ghost es = self.entries();
        let ghost k = encode_utf8(path@);
        let compressed = match self.codec.compress(contents) {
            Ok(c) => c,
            Err(_) => {
                return Err(ArchiveError::CodecFailure);
            },
        };
        if compressed.len() > 0xFFFF_FFFFusize {
            return Err(ArchiveError::ItemTooLarge);
        }
        let key = path.as_bytes();
        let (i, found) = find_slot(&self.items, key);
        proof {
            if (i as int) < es.len() {
                lemma_lex_total(es[i as int].0, k);
            }
            lemma_sorted_insert_at(es, k, compressed@, i as int);
        }
        let new_total = if found {
            let old_len = self.items[i].payload.len();
            proof {
                lemma_total_len_elem(es, i as int);
                lemma_total_len_update(es, i as int, (k, compressed@));
            }
            match (self.total - old_len).checked_add(compressed.len()) {
                Some(t) => t,
                None => {
                    return Err(ArchiveError::TotalTooLarge);
                },
            }
        } else {
            proof {
                lemma_total_len_insert(es, i as int, (k, compressed@));
                assert(es.insert(i as int, (k, compressed@)) =~= es.take(i as int) + seq![
                    (k, compressed@),
                ] + es.skip(i as int));
            }
            match self.total.checked_add(compressed.len()) {
                Some(t) => t,
                None => {
                    return Err(ArchiveError::TotalTooLarge);
                },
            }
        };
        if new_total > self.max_size || new_total > 0xFFFF_FFFFusize {
            return Err(ArchiveError::TotalTooLarge);
        }
        let path_vec = vstd::slice::slice_to_vec(key);
        if found {
            self.items.remove(i);
            self.items.insert(i, Entry { path: path_vec, payload: compressed });
            proof {
                assert(self.entries() =~= es.update(i as int, (k, compressed@)));
            }
        } else {
            self.items.insert(i, Entry { path: path_vec, payload: compressed });
            proof {
                assert(self.entries() =~= es.take(i as int) + seq![(k, compressed@)] + es.skip(
                    i as int,
                ));
            }
        }
        self.total = new_total;
        proof {
            let es2 = self.entries();
            assert(sorted_entries(es2)) by {
                assert forall|a: int, b: int| 0 <= a < b < es2.len() implies lex_lt(
                    es2[a].0,
                    es2[b].0,
                ) by {
                    if (i as int) < es.len() {
                        lemma_lex_total(es[i as int].0, k);
                    }
                    if !found && a == i && b > i + 1 {
                        lemma_lex_trans(k, es[i as int].0, es[b - 1].0);
                    }
                }
            }
        }
        Ok(())
    }

    /// Consumes the builder: walks the sorted entries, records each path
    /// with its packed (offset, length) into a transducer, and
    /// concatenates the payloads into the data blob.
    pub fn finish(self) -> (r: Result<Archive, ArchiveError>)
        requires
            self.wf(),
        ensures
            r matches Ok(a) && ({
                let es = self.entries();
                &&& a.entries() == entries_as_map(packed_seq(es))
                &&& a.blob() == blob_of(es)
                &&& a.codec_id() == C::id_spec()
                &&& a.serialized_index() == header_bytes(C::id_spec()) + fst_bytes_of(
                    packed_seq(es),
                )
            }),
    {
        let ghost es = self.entries();
        let ArchiveBuilder { codec, items, total, .. } = self;
        let cid = codec.id();
        let mut b = crate::fstmap::builder_memory();
        let mut data: Vec<u8> = Vec::with_capacity(total);
        let mut offset: usize = 0;
        let mut i: usize = 0;
        proof {
            assert(es.take(0) =~= Seq::<(Seq<u8>, Seq<u8>)>::empty());
        }
        while i < items.len()
            invariant
                i <= items@.len(),
                es.len() == items@.len(),
                forall|j: int| 0 <= j < es.len() ==> #[trigger] es[j] == (
                    items@[j].path@,
                    items@[j].payload@,
                ),
                sorted_entries(es),
                total_len(es) <= 0xFFFF_FFFF,
                builder_entries(b) == packed_seq(es.take(i as int)),
                data@ == blob_of(es.take(i as int)),
                offset as int == total_len(es.take(i as int)),
            decreases items@.len() - i,
        {
            let elen = items[i].payload.len();
            proof {
                lemma_total_take_step(es, i as int);
                lemma_total_take_le(es, i as int + 1);
                lemma_total_len_nonneg(es.take(i as int));
                lemma_packed_len(es.take(i as int));
                if i > 0 {
                    lemma_packed_index(es.take(i as int), i as int - 1);
                    assert(es.take(i as int)[i as int - 1] == es[i as int - 1]);
                    assert(es[i as int - 1] == (items@[i as int - 1].path@, items@[i as int
                        - 1].payload@));
                    assert(es[i as int] == (items@[i as int].path@, items@[i as int].payload@));
                    assert(lex_lt(es[i as int - 1].0, es[i as int].0));
                }
            }
            let val = ((offset as u64) << 32) | (elen as u64);
            builder_insert(&mut b, items[i].path.as_slice(), val);
            push_all(&mut data, &items[i].payload);
            offset = offset + elen;
            i += 1;
            proof {
                assert(es.take(i as int).drop_last() =~= es.take(i as int - 1));
                assert(es.take(i as int).last() == es[i as int - 1]);
            }
        }
        proof {
            assert(es.take(items@.len() as int) =~= es);
        }
        let map = builder_into_map(b);
        let index = Index::new(cid, map);
        Ok(Archive::new(index, data))
    }
}

/// The packed sequence pairs each path with the packed prefix sum of the
/// payload lengths before it and its own payload length.
pub proof fn lemma_packed_index(es: Seq<(Seq<u8>, Seq<u8>)>, i: int)
    requires
        0 <= i < es.len(),
    ensures
        packed_seq(es).len() == es.len(),
        packed_seq(es)[i] == (
            es[i].0,
            pack_value(total_len(es.take(i)) as u64, es[i].1.len() as u64),
        ),
    decreases es.len(),
{
    lemma_packed_len(es);
    if i == es.len() - 1 {
        assert(es.take(i) =~= es.drop_last());
    } else {
        lemma_packed_index(es.drop_last(), i);
        assert(es.drop_last().take(i) =~= es.take(i));
    }
}

pub proof fn lemma_packed_len(es: Seq<(Seq<u8>, Seq<u8>)>)
    ensures
        packed_seq(es).len() == es.len(),
    decreases es.len(),
{
    if es.len() != 0 {
        lemma_packed_len(es.drop_last());
    }
}

/// Slicing the blob at an entry's offset, for its length, recovers
/// exactly that entry's payload.
pub proof fn lemma_blob_slice(es: Seq<(Seq<u8>, Seq<u8>)>, i: int)
    requires
        0 <= i < es.len(),
    ensures
        0 <= total_len(es.take(i)),
        total_len(es.take(i)) + es[i].1.len() <= total_len(es),
        blob_of(es).subrange(total_len(es.take(i)), total_len(es.take(i)) + es[i].1.len())
            == es[i].1,
    decreases es.len(),
{
    lemma_blob_len(es);
    lemma_total_take_step(es, i);
    lemma_total_take_le(es, i + 1);
    lemma_total_len_nonneg(es.take(i));
    let a = total_len(es.take(i));
    let b = a + es[i].1.len();
    if i == es.len() - 1 {
        assert(es.take(i) =~= es.drop_last());
        lemma_blob_len(es.drop_last());
        assert(blob_of(es).subrange(a, b) =~= es[i].1);
    } else {
        lemma_blob_slice(es.drop_last(), i);
        assert(es.drop_last().take(i) =~= es.take(i));
        assert(es.drop_last().take(i + 1) =~= es.take(i + 1));
        lemma_blob_len(es.drop_last());
        lemma_total_take_le(es.drop_last(), i + 1);
        lemma_total_take_step(es.drop_last(), i);
        assert(blob_of(es).subrange(a, b) =~= blob_of(es.drop_last()).subrange(a, b));
    }
}

/// The emitted offsets are the running sums of the payload lengths:
/// each entry's offset plus its length is the next entry's offset, and
/// the totals close with the blob's size.
pub proof fn lemma_offset_sums(es: Seq<(Seq<u8>, Seq<u8>)>, i: int)
    requires
        0 <= i < es.len(),
        total_len(es) <= 0xFFFF_FFFF,
    ensures
        offset_of(packed_seq(es)[i].1) as int == total_len(es.take(i)),
        length_of(packed_seq(es)[i].1) as int == es[i].1.len(),
        i + 1 < es.len() ==> offset_of(packed_seq(es)[i + 1].1) as int == offset_of(
            packed_seq(es)[i].1,
        ) as int + length_of(packed_seq(es)[i].1) as int,
        total_len(es) == blob_of(es).len(),
{
    lemma_blob_len(es);
    lemma_packed_index(es, i);
    lemma_total_take_step(es, i);
    lemma_total_take_le(es, i + 1);
    lemma_total_len_nonneg(es.take(i));
    lemma_total_len_elem(es, i);
    crate::archive::lemma_pack_unpack(total_len(es.take(i)) as u64, es[i].1.len() as u64);
    if i + 1 < es.len() {
        lemma_packed_index(es, i + 1);
        lemma_total_take_step(es, i + 1);
        lemma_total_take_le(es, i + 2);
        lemma_total_len_elem(es, i + 1);
        crate::archive::lemma_pack_unpack(
            total_len(es.take(i + 1)) as u64,
            es[i + 1].1.len() as u64,
        );
    }
}

/// In the emitted index, each path of the sorted entries is present and
/// carries its packed value.
pub proof fn lemma_packed_lookup(es: Seq<(Seq<u8>, Seq<u8>)>, i: int)
    requires
        sorted_entries(es),
        0 <= i < es.len(),
    ensures
        entries_as_map(packed_seq(es)).contains_key(es[i].0),
        entries_as_map(packed_seq(es))[es[i].0] == packed_seq(es)[i].1,
    decreases es.len(),
{
    lemma_packed_len(es);
    lemma_packed_index(es, i);
    assert(packed_seq(es).drop_last() =~= packed_seq(es.drop_last()));
    if i < es.len() - 1 {
        assert(sorted_entries(es.drop_last())) by {
            assert(forall|a: int| 0 <= a < es.len() - 1 ==> #[trigger] es.drop_last()[a]
                == es[a]);
        }
        lemma_packed_lookup(es.drop_last(), i);
        lemma_packed_index(es.drop_last(), i);
        assert(es.drop_last().take(i) =~= es.take(i));
        lemma_lex_total(es[i].0, es[es.len() - 1].0);
    }
}

/// Round trip: when an entry's payload is what the codec produced for
/// some contents that fit under the decompression ceiling, then looking
/// its path up in the emitted index and slicing the blob at the unpacked
/// offset and length yields bytes that decompress back to exactly those
/// contents. With the contracts of `Index::get` and `Archive::get`, a
/// read of that path must therefore return those contents.
pub proof fn lemma_round_trip_entry(
    es: Seq<(Seq<u8>, Seq<u8>)>,
    i: int,
    contents: Seq<u8>,
    level: int,
)
    requires
        sorted_entries(es),
        0 <= i < es.len(),
        total_len(es) <= 0xFFFF_FFFF,
        es[i].1 == crate::codec::zstd_compressed(contents, level),
        contents.len() <= crate::archive::DECOMPRESS_CEILING,
    ensures
        ({
            let m = entries_as_map(packed_seq(es));
            let blob = blob_of(es);
            let off = offset_of(m[es[i].0]) as int;
            let l = length_of(m[es[i].0]) as int;
            &&& m.contains_key(es[i].0)
            &&& 0 <= off && 0 <= l && off + l <= blob.len()
            &&& blob.subrange(off, off + l) == es[i].1
            &&& crate::codec::zstd_decodes_to(blob.subrange(off, off + l), contents)
            &&& contents.len() <= crate::archive::DECOMPRESS_CEILING
        }),
{
    lemma_packed_lookup(es, i);
    lemma_offset_sums(es, i);
    lemma_blob_slice(es, i);
    assert(blob_of(es).subrange(
        offset_of(entries_as_map(packed_seq(es))[es[i].0]) as int,
        offset_of(entries_as_map(packed_seq(es))[es[i].0]) as int + length_of(
            entries_as_map(packed_seq(es))[es[i].0],
        ) as int,
    ) == crate::codec::zstd_compressed(contents, level));
}

/// A path that none of the entries carries is absent from the emitted
/// index.
pub proof fn lemma_packed_absent(es: Seq<(Seq<u8>, Seq<u8>)>, key: Seq<u8>)
    requires
        !has_path(es, key),
    ensures
        !entries_as_map(packed_seq(es)).contains_key(key),
    decreases es.len(),
{
    if es.len() != 0 {
        assert(packed_seq(es).drop_last() =~= packed_seq(es.drop_last()));
        assert(forall|i: int| 0 <= i < es.len() - 1 ==> #[trigger] es.drop_last()[i] == es[i]);
        assert(!has_path(es.drop_last(), key));
        lemma_packed_absent(es.drop_last(), key);
        assert(es[es.len() - 1].0 != key);
    }
}

/// Storing a payload adds exactly its own path to the stored paths.
pub proof fn lemma_sorted_insert_paths(
    es: Seq<(Seq<u8>, Seq<u8>)>,
    key: Seq<u8>,
    val: Seq<u8>,
    k2: Seq<u8>,
)
    ensures
        has_path(sorted_insert(es, key, val), k2) <==> (k2 == key || has_path(es, k2)),
    decreases es.len(),
{
    let res = sorted_insert(es, key, val);
    if es.len() == 0 {
        assert(res[0].0 == key);
        if has_path(res, k2) {
            let j = choose|j: int| 0 <= j < res.len() && (#[trigger] res[j]).0 == k2;
            assert(j == 0);
        }
    } else if lex_lt(key, es[0].0) {
        assert(res[0].0 == key);
        if has_path(es, k2) {
            let j = choose|j: int| 0 <= j < es.len() && (#[trigger] es[j]).0 == k2;
            assert(res[j + 1].0 == k2);
        }
        if has_path(res, k2) && k2 != key {
            let j = choose|j: int| 0 <= j < res.len() && (#[trigger] res[j]).0 == k2;
            assert(es[j - 1].0 == k2);
        }
    } else if key == es[0].0 {
        assert(res[0].0 == key);
        if has_path(es, k2) && k2 != key {
            let j = choose|j: int| 0 <= j < es.len() && (#[trigger] es[j]).0 == k2;
            assert(res[j].0 == k2);
        }
        if has_path(res, k2) && k2 != key {
            let j = choose|j: int| 0 <= j < res.len() && (#[trigger] res[j]).0 == k2;
            assert(es[j].0 == k2);
        }
    } else {
        lemma_sorted_insert_paths(es.drop_first(), key, val, k2);
        let inner = sorted_insert(es.drop_first(), key, val);
        assert(res[0] == es[0]);
        if has_path(res, k2) {
            let j = choose|j: int| 0 <= j < res.len() && (#[trigger] res[j]).0 == k2;
            if j > 0 {
                assert(inner[j - 1].0 == k2);
            }
        }
        if k2 == key {
            assert(has_path(inner, k2));
            let j = choose|j: int| 0 <= j < inner.len() && (#[trigger] inner[j]).0 == k2;
            assert(res[j + 1].0 == k2);
        }
        if has_path(es, k2) {
            let j = choose|j: int| 0 <= j < es.len() && (#[trigger] es[j]).0 == k2;
            if j == 0 {
                assert(res[0].0 == k2);
            } else {
                assert(es.drop_first()[j - 1].0 == k2);
                assert(has_path(es.drop_first(), k2));
                let m = choose|m: int| 0 <= m < inner.len() && (#[trigger] inner[m]).0 == k2;
                assert(res[m + 1].0 == k2);
            }
        }
        if has_path(inner, k2) {
            let m = choose|m: int| 0 <= m < inner.len() && (#[trigger] inner[m]).0 == k2;
            assert(res[m + 1].0 == k2);
        }
        if has_path(es.drop_first(), k2) {
            let j = choose|j: int| 0 <= j < es.drop_first().len() && (#[trigger] es.drop_first()[j]).0 == k2;
            assert(es[j + 1].0 == k2);
        }
    }
}

} // verus!
