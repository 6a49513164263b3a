use vstd::prelude::*;

verus! {

// ---------------------------------------------------------------------------
// Lexicographic order on byte strings. The transducer sorts its keys by
// exactly this order, and the builder keeps its pending entries in it.
// ---------------------------------------------------------------------------
/// Strict lexicographic order: `a` comes before `b`.
pub open spec fn lex_lt(a: Seq<u8>, b: Seq<u8>) -> bool
    decreases a.len(),
{
    if b.len() == 0 {
        false
    } else if a.len() == 0 {
        true
    } else if a[0] < b[0] {
        true
    } else if a[0] > b[0] {
        false
    } else {
        lex_lt(a.drop_first(), b.drop_first())
    }
}

/// The order is total: two byte strings are equal or one comes first, and
/// never both ways at once.
pub proof fn lemma_lex_total(a: Seq<u8>, b: Seq<u8>)
    ensures
        lex_lt(a, b) || lex_lt(b, a) || a == b,
        lex_lt(a, b) ==> !lex_lt(b, a),
        lex_lt(a, b) ==> a != b,
    decreases a.len(),
{
    if a.len() == 0 && b.len() == 0 {
        assert(a =~= b);
    } else if a.len() != 0 && b.len() != 0 && a[0] == b[0] {
        let da = a.drop_first();
        let db = b.drop_first();
        lemma_lex_total(da, db);
        if da == db {
            assert(forall|k: int| 1 <= k < a.len() ==> #[trigger] a[k] == da[k - 1]);
            assert(forall|k: int| 1 <= k < b.len() ==> #[trigger] b[k] == db[k - 1]);
            assert(a =~= b);
        }
    }
}

/// The order is transitive.
pub proof fn lemma_lex_trans(a: Seq<u8>, b: Seq<u8>, c: Seq<u8>)
    requires
        lex_lt(a, b),
        lex_lt(b, c),
    ensures
        lex_lt(a, c),
    decreases a.len(),
{
    if a.len() != 0 && b.len() != 0 && c.len() != 0 && a[0] == b[0] && b[0] == c[0] {
        lemma_lex_trans(a.drop_first(), b.drop_first(), c.drop_first());
    }
}

/// If `a` and `b` agree up to `i` and diverge there — either `a` ends or
/// its byte at `i` is the smaller — then `a` comes first.
pub proof fn lemma_lex_from_prefix(a: Seq<u8>, b: Seq<u8>, i: int)
    requires
        0 <= i <= a.len(),
        i <= b.len(),
        forall|k: int| 0 <= k < i ==> a[k] == b[k],
        (i < a.len() && i < b.len() && a[i] < b[i]) || (i == a.len() && i < b.len()),
    ensures
        lex_lt(a, b),
    decreases i,
{
    if i > 0 {
        lemma_lex_from_prefix(a.drop_first(), b.drop_first(), i - 1);
    }
}

/// Three-way comparison in the lexicographic order.
pub(crate) fn bytes_cmp(a: &[u8], b: &[u8]) -> (r: i8)
    ensures
        r == -1i8 || r == 0i8 || r == 1i8,
        r == -1i8 ==> lex_lt(a@, b@),
        r == 1i8 ==> lex_lt(b@, a@),
        r == 0i8 ==> a@ == b@,
{
    let mut i: usize = 0;
    while i < a.len() && i < b.len()
        invariant
            i <= a@.len(),
            i <= b@.len(),
            forall|k: int| 0 <= k < i ==> a@[k] == b@[k],
        decreases a@.len() - i,
    {
        let x = *vstd::slice::slice_index_get(a, i);
        let y = *vstd::slice::slice_index_get(b, i);
        if x < y {
            proof {
                lemma_lex_from_prefix(a@, b@, i as int);
            }
            return -1;
        }
        if y < x {
            proof {
                lemma_lex_from_prefix(b@, a@, i as int);
            }
            return 1;
        }
        i += 1;
    }
    if a.len() < b.len() {
        proof {
            lemma_lex_from_prefix(a@, b@, a@.len() as int);
        }
        -1
    } else if b.len() < a.len() {
        proof {
            lemma_lex_from_prefix(b@, a@, b@.len() as int);
        }
        1
    } else {
        proof {
            assert(a@ =~= b@);
        }
        0
    }
}

// ---------------------------------------------------------------------------
// The transducer map and its builder, from the `fst` crate.
// ---------------------------------------------------------------------------
#[verifier::external_type_specification]
#[verifier::external_body]
#[verifier::reject_recursive_types(D)]
pub struct ExFstMap<D>(fst::Map<D>);

#[verifier::external_type_specification]
#[verifier::external_body]
#[verifier::reject_recursive_types(W)]
pub struct ExFstMapBuilder<W>(fst::MapBuilder<W>);

/// The failures the `fst` crate reports; the library only maps them to its
/// own error kinds.
#[verifier::external_type_specification]
#[verifier::external_body]
pub struct ExFstError(fst::Error);

/// The key-value pairs inserted so far into a transducer builder, oldest
/// first.
pub uninterp spec fn builder_entries(b: fst::MapBuilder<Vec<u8>>) -> Seq<(Seq<u8>, u64)>;

/// The sorted mapping a transducer holds.
pub uninterp spec fn map_entries(m: fst::Map<Vec<u8>>) -> Map<Seq<u8>, u64>;

/// The serialized bytes backing a transducer.
pub uninterp spec fn map_bytes(m: fst::Map<Vec<u8>>) -> Seq<u8>;

/// The bytes the builder emits for a given insertion sequence; the
/// serialization is deterministic, a function of the entries alone.
pub uninterp spec fn fst_bytes_of(entries: Seq<(Seq<u8>, u64)>) -> Seq<u8>;

/// The mapping encoded by a well-formed byte buffer.
pub uninterp spec fn fst_parse(bytes: Seq<u8>) -> Map<Seq<u8>, u64>;

/// Whether a byte buffer opens as a transducer at all.
pub uninterp spec fn fst_ok(bytes: Seq<u8>) -> bool;

/// Whether a byte buffer passes the transducer's structural verification,
/// which recomputes the checksum stored alongside the data.
pub uninterp spec fn fst_checksum_ok(bytes: Seq<u8>) -> bool;

/// The view of `es` as a mapping, later pairs overriding earlier ones.
pub open spec fn entries_as_map(es: Seq<(Seq<u8>, u64)>) -> Map<Seq<u8>, u64>
    decreases es.len(),
{
    if es.len() == 0 {
        Map::empty()
    } else {
        entries_as_map(es.drop_last()).insert(es.last().0, es.last().1)
    }
}

/// Relies on `fst::MapBuilder::memory`: a fresh in-memory builder holds no
/// entries.
#[verifier::external_body]
pub(crate) fn builder_memory() -> (b: fst::MapBuilder<Vec<u8>>)
    ensures
        builder_entries(b) == Seq::<(Seq<u8>, u64)>::empty(),
{
    fst::MapBuilder::memory()
}

/// Relies on `fst::MapBuilder::insert`: a key strictly greater than every
/// key inserted before is appended to the builder; only an out-of-order or
/// duplicate key is refused, and writing to an in-memory buffer cannot
/// fail.
#[verifier::external_body]
pub(crate) fn builder_insert(b: &mut fst::MapBuilder<Vec<u8>>, key: &[u8], val: u64)
    requires
        builder_entries(*old(b)).len() == 0 || lex_lt(
            builder_entries(*old(b)).last().0,
            key@,
        ),
    ensures
        builder_entries(*final(b)) == builder_entries(*old(b)).push((key@, val)),
{
    b.insert(key, val).unwrap();
}

/// Relies on `fst::MapBuilder::into_map`: finishing the builder yields the
/// transducer of exactly the inserted pairs; its backing bytes are the
/// deterministic serialization of those pairs, they reopen as the same
/// mapping, and they carry a correct checksum. The builder lays the nodes
/// out contiguously after the 16-byte prologue, with sizes at most 8,
/// extents in bounds and every transition aimed at an earlier node or the
/// empty node, which is what the structural predicate states. The
/// outputs along any root path sum to a prefix of some stored 64-bit
/// value, so the path-sum predicate holds as well.
#[verifier::external_body]
pub(crate) fn builder_into_map(b: fst::MapBuilder<Vec<u8>>) -> (m: fst::Map<Vec<u8>>)
    ensures
        map_entries(m) == entries_as_map(builder_entries(b)),
        map_bytes(m) == fst_bytes_of(builder_entries(b)),
        fst_ok(map_bytes(m)),
        fst_checksum_ok(map_bytes(m)),
        fst_parse(map_bytes(m)) == map_entries(m),
        crate::fstcheck::fst_structure_ok(map_bytes(m)),
        crate::fstcheck::fst_sums_ok(map_bytes(m)),
{
    b.into_map()
}

/// Relies on `fst::Map::into_fst` and `fst::raw::Fst::into_inner`: they
/// return the buffer backing the transducer, unchanged.
#[verifier::external_body]
pub(crate) fn map_into_bytes(m: fst::Map<Vec<u8>>) -> (r: Vec<u8>)
    ensures
        r@ == map_bytes(m),
{
    m.into_fst().into_inner()
}

/// Relies on `fst::Map::new`: it opens exactly the well-formed buffers,
/// and the transducer it returns is backed by the given bytes and holds
/// the mapping they encode. Buffers that pass the structural check have
/// an in-range root address, which keeps the footer arithmetic exact.
#[verifier::external_body]
pub(crate) fn map_new(data: Vec<u8>) -> (r: Result<fst::Map<Vec<u8>>, fst::Error>)
    requires
        crate::fstcheck::fst_structure_ok(data@),
    ensures
        r is Ok <==> fst_ok(data@),
        r matches Ok(m) ==> map_bytes(m) == data@ && map_entries(m) == fst_parse(data@),
{
    fst::Map::new(data)
}

/// Relies on `fst::raw::Fst::verify`: it succeeds exactly when the
/// checksum stored in the buffer matches its contents.
#[verifier::external_body]
pub(crate) fn map_verify(m: &fst::Map<Vec<u8>>) -> (r: Result<(), fst::Error>)
    ensures
        r is Ok <==> fst_checksum_ok(map_bytes(*m)),
{
    m.as_fst().verify()
}

/// Relies on `fst::Map::get`: it returns the value of a present key and
/// nothing for an absent one. On a buffer that passes the structural
/// check every read of the walk stays in bounds: nodes tile the region
/// below the root, packed sizes are legal, and each transition lands on
/// a node or the empty address. The walk adds the outputs along the
/// path; the path-sum predicate keeps every such sum within 64 bits, so
/// the additions cannot overflow either.
#[verifier::external_body]
pub(crate) fn map_get(m: &fst::Map<Vec<u8>>, key: &[u8]) -> (r: Option<u64>)
    requires
        fst_ok(map_bytes(*m)),
        fst_checksum_ok(map_bytes(*m)),
        crate::fstcheck::fst_structure_ok(map_bytes(*m)),
        crate::fstcheck::fst_sums_ok(map_bytes(*m)),
    ensures
        r == if map_entries(*m).contains_key(key@) {
            Some(map_entries(*m)[key@])
        } else {
            None::<u64>
        },
{
    m.get(key)
}

} // verus!
