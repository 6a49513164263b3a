use vstd::prelude::*;

verus! {

// A serialized transducer is, after an 8-byte version and an 8-byte type,
// a contiguous run of nodes, then the key count, the root address and a
// checksum (8 + 8 + 4 trailing bytes). A node is addressed by its last
// byte; its state byte distinguishes three layouts. Transitions name
// their target as a delta below the node's extent start. The checks here
// accept exactly the buffers whose node chain tiles the region below the
// root, whose per-node sizes and extents stay in bounds, and whose
// transition targets land on the chain (or on the empty-node address
// zero): on such a buffer every read the transducer's lookup performs is
// within bounds.
/// The little-endian integer held by the `k` bytes at `i`.
pub open spec fn le_bytes(b: Seq<u8>, i: int, k: int) -> int
    decreases k,
{
    if k <= 0 {
        0
    } else {
        b[i] + 256 * le_bytes(b, i + 1, k - 1)
    }
}

pub open spec fn pow256(k: int) -> int
    decreases k,
{
    if k <= 0 {
        1
    } else {
        256 * pow256(k - 1)
    }
}

pub proof fn lemma_le_bytes_bound(b: Seq<u8>, i: int, k: int)
    requires
        k >= 0,
    ensures
        0 <= le_bytes(b, i, k) < pow256(k),
    decreases k,
{
    if k > 0 {
        lemma_le_bytes_bound(b, i + 1, k - 1);
    }
}

pub proof fn lemma_pow256_pos(k: int)
    ensures
        pow256(k) >= 1,
    decreases k,
{
    if k > 0 {
        lemma_pow256_pos(k - 1);
    }
}

pub proof fn lemma_pow256_mono(j: int, k: int)
    requires
        0 <= j <= k,
    ensures
        pow256(j) <= pow256(k),
    decreases k,
{
    if j < k {
        lemma_pow256_mono(j, k - 1);
        lemma_pow256_pos(k - 1);
    }
}

/// The length taken by a one-transition node's inline input byte: zero
/// when the input is one of the common bytes folded into the state byte.
pub open spec fn cil(v: u8) -> int {
    if v & 0x3f == 0 {
        1
    } else {
        0
    }
}

pub open spec fn tsize_of(s: u8) -> int {
    (s >> 4) as int
}

pub open spec fn osize_of(s: u8) -> int {
    (s & 0x0f) as int
}

/// The transition count of a many-transition node.
pub open spec fn at_ntrans(b: Seq<u8>, a: int) -> int {
    let v = b[a];
    if v & 0x3f != 0 {
        (v & 0x3f) as int
    } else if b[a - 1] == 1 {
        256
    } else {
        b[a - 1] as int
    }
}

pub open spec fn at_index_size(nt: int) -> int {
    if nt > 32 {
        256
    } else {
        0
    }
}

/// The first byte of the node addressed by `a`: its extent is
/// `[node_end(b, a), a]`.
pub open spec fn node_end(b: Seq<u8>, a: int) -> int {
    let v = b[a];
    if v >> 6 == 3 {
        a - cil(v)
    } else if v >> 6 == 2 {
        let s = b[a - cil(v) - 1];
        a - cil(v) - 1 - tsize_of(s) - osize_of(s)
    } else {
        let ntl = cil(v);
        let s = b[a - ntl - 1];
        let nt = at_ntrans(b, a);
        a - ntl - 1 - (nt + nt * tsize_of(s) + at_index_size(nt)) - nt * osize_of(s) - (
        if v & 0x40 != 0 {
            osize_of(s)
        } else {
            0
        })
    }
}

/// The delta of a one-transition node.
pub open spec fn ot_delta(b: Seq<u8>, a: int) -> int {
    let v = b[a];
    let s = b[a - cil(v) - 1];
    le_bytes(b, a - cil(v) - 1 - tsize_of(s), tsize_of(s))
}

/// The delta of the `i`th transition of a many-transition node.
pub open spec fn at_delta(b: Seq<u8>, a: int, i: int) -> int {
    let v = b[a];
    let ntl = cil(v);
    let s = b[a - ntl - 1];
    let nt = at_ntrans(b, a);
    le_bytes(b, a - ntl - 1 - at_index_size(nt) - nt - i * tsize_of(s) - tsize_of(s), tsize_of(s))
}

/// The per-node structural conditions: the extent stays at or above byte
/// 16, the packed sizes are in their legal ranges, and every delta stays
/// within the extent start.
pub open spec fn node_ok(b: Seq<u8>, a: int) -> bool {
    let v = b[a];
    if v >> 6 == 3 {
        a - cil(v) - 1 >= 16
    } else if v >> 6 == 2 {
        let il = cil(v);
        &&& a - il - 1 >= 16
        &&& ({
            let s = b[a - il - 1];
            &&& 1 <= tsize_of(s) <= 8
            &&& osize_of(s) <= 8
            &&& node_end(b, a) >= 16
            &&& (ot_delta(b, a) == 0 || ot_delta(b, a) <= node_end(b, a))
        })
    } else {
        let ntl = cil(v);
        &&& a - ntl - 1 >= 16
        &&& ({
            let s = b[a - ntl - 1];
            let nt = at_ntrans(b, a);
            &&& tsize_of(s) <= 8
            &&& (nt > 0 ==> tsize_of(s) >= 1)
            &&& osize_of(s) <= 8
            &&& node_end(b, a) >= 16
            &&& forall|i: int|
                0 <= i < nt ==> (#[trigger] at_delta(b, a, i) == 0 || at_delta(b, a, i)
                    <= node_end(b, a))
        })
    }
}

/// The nodes from `a` down tile the byte range ending at 15, each valid.
pub open spec fn chain_ok(b: Seq<u8>, a: int) -> bool
    decreases a,
{
    if a <= 15 {
        a == 15
    } else if !node_ok(b, a) {
        false
    } else if node_end(b, a) - 1 < 15 || node_end(b, a) - 1 >= a {
        false
    } else {
        chain_ok(b, node_end(b, a) - 1)
    }
}

/// Whether `t` is the address of one of the chain's nodes.
pub open spec fn chain_contains(b: Seq<u8>, a: int, t: int) -> bool
    decreases a,
{
    if a <= 15 {
        false
    } else if t == a {
        true
    } else if !node_ok(b, a) {
        false
    } else if node_end(b, a) - 1 < 15 || node_end(b, a) - 1 >= a {
        false
    } else {
        chain_contains(b, node_end(b, a) - 1, t)
    }
}

/// A chain node's address lies between the first node byte and the head.
pub proof fn lemma_chain_contains_range(b: Seq<u8>, a: int, t: int)
    requires
        chain_contains(b, a, t),
    ensures
        16 <= t <= a,
    decreases a,
{
    if a > 15 && t != a {
        lemma_chain_contains_range(b, node_end(b, a) - 1, t);
    }
}

/// Chain membership reached through a member is membership.
pub proof fn lemma_chain_contains_trans(b: Seq<u8>, r: int, a: int, t: int)
    requires
        chain_contains(b, r, a),
        chain_contains(b, a, t),
    ensures
        chain_contains(b, r, t),
    decreases r,
{
    if r != a {
        lemma_chain_contains_trans(b, node_end(b, r) - 1, a, t);
    }
}

/// Every transition target of the node at `a` is the empty-node address
/// or a chain node.
pub open spec fn targets_ok(b: Seq<u8>, root: int, a: int) -> bool {
    let v = b[a];
    if v >> 6 == 3 {
        chain_contains(b, root, a - cil(v) - 1)
    } else if v >> 6 == 2 {
        let d = ot_delta(b, a);
        d == 0 || chain_contains(b, root, node_end(b, a) - d)
    } else {
        let nt = at_ntrans(b, a);
        forall|i: int|
            0 <= i < nt ==> (#[trigger] at_delta(b, a, i) == 0 || chain_contains(
                b,
                root,
                node_end(b, a) - at_delta(b, a, i),
            ))
    }
}

/// The structural validity of a serialized transducer: the right version,
/// a root address that sits exactly below the 21 trailing bytes, a chain
/// of valid nodes tiling the region, and every transition target on the
/// chain. The transducer's lookup only reads within bounds on a buffer
/// that satisfies this.
pub open spec fn fst_structure_ok(b: Seq<u8>) -> bool {
    let n = b.len() as int;
    &&& n >= 36
    &&& le_bytes(b, 0, 8) == 3
    &&& ({
        let root = le_bytes(b, n - 12, 8);
        ||| (root == 0 && n == 36)
        ||| (root >= 16 && root + 21 == n && chain_ok(b, root) && forall|t: int| #[trigger]
            chain_contains(b, root, t) ==> targets_ok(b, root, t))
    })
}

/// Reads the little-endian integer of `k` bytes at `i`.
fn read_le(data: &Vec<u8>, i: usize, k: usize) -> (r: u64)
    requires
        i + k <= data@.len(),
        k <= 8,
    ensures
        r as int == le_bytes(data@, i as int, k as int),
{
    let dlen = data.len();
    proof {
        assert(dlen as int == data@.len());
        assert(data@.len() <= usize::MAX);
    }
    let mut r: u64 = 0;
    let mut j: usize = k;
    while j > 0
        invariant
            i + k <= data@.len(),
            data@.len() <= usize::MAX,
            k <= 8,
            j <= k,
            r as int == le_bytes(data@, i as int + j as int, k as int - j as int),
            (r as int) < pow256(k as int - j as int),
        decreases j,
    {
        j -= 1;
        proof {
            lemma_pow256_mono(k as int - j as int - 1, 7);
            assert(pow256(7) == 0x100000000000000) by {
                assert(pow256(0) == 1);
                assert(pow256(1) == 256);
                assert(pow256(2) == 0x10000);
                assert(pow256(3) == 0x1000000);
                assert(pow256(4) == 0x100000000);
                assert(pow256(5) == 0x10000000000);
                assert(pow256(6) == 0x1000000000000);
            }
        }
        proof {
            assert(i + j < data@.len());
        }
        r = r * 256 + (data[i + j] as u64);
        proof {
            lemma_le_bytes_bound(data@, i as int + j as int + 1, k as int - j as int - 1);
        }
    }
    r
}

/// Checks the node at `a` and returns its extent start.
fn node_check(data: &Vec<u8>, a: usize) -> (r: Option<usize>)
    requires
        16 <= a,
        (a as int) < data@.len(),
    ensures
        match r {
            Some(e) => node_ok(data@, a as int) && e as int == node_end(data@, a as int) && 16 <= e
                <= a,
            None => !node_ok(data@, a as int),
        },
{
    let v = data[a];
    let kind = v >> 6;
    let low = v & 0x3f;
    let il: usize = if low == 0 {
        1
    } else {
        0
    };
    if kind == 3 {
        if a < il + 17 {
            return None;
        }
        Some(a - il)
    } else if kind == 2 {
        if a < il + 17 {
            return None;
        }
        let s = data[a - il - 1];
        let ts = (s >> 4) as usize;
        let os = (s & 0x0f) as usize;
        if ts < 1 || ts > 8 {
            return None;
        }
        if os > 8 {
            return None;
        }
        let need = il + 1 + ts + os;
        if a < 16 + need {
            return None;
        }
        let e = a - need;
        let dp = a - il - 1 - ts;
        let d = read_le(data, dp, ts);
        if d != 0 && d > e as u64 {
            return None;
        }
        Some(e)
    } else {
        let ntl = il;
        if a < ntl + 17 {
            return None;
        }
        let s = data[a - ntl - 1];
        let nt: usize = if low != 0 {
            low as usize
        } else {
            let nb = data[a - 1];
            if nb == 1 {
                256
            } else {
                nb as usize
            }
        };
        let ts = (s >> 4) as usize;
        let os = (s & 0x0f) as usize;
        proof {
            assert(v & 0x3f < 64) by (bit_vector);
            assert(s >> 4 <= 15) by (bit_vector);
            assert(s & 0x0f <= 15) by (bit_vector);
        }
        if ts > 8 {
            return None;
        }
        if nt > 0 && ts < 1 {
            return None;
        }
        if os > 8 {
            return None;
        }
        let ix: usize = if nt > 32 {
            256
        } else {
            0
        };
        proof {
            assert(nt <= 256);
            assert(nt * ts <= 2048) by (nonlinear_arith)
                requires
                    nt <= 256,
                    ts <= 8,
            ;
            assert(nt * os <= 2048) by (nonlinear_arith)
                requires
                    nt <= 256,
                    os <= 8,
            ;
        }
        let tts = nt + nt * ts + ix;
        let fo: usize = if v & 0x40 != 0 {
            os
        } else {
            0
        };
        let need = ntl + 1 + tts + nt * os + fo;
        if a < 16 + need {
            return None;
        }
        let e = a - need;
        let mut i: usize = 0;
        while i < nt
            invariant
                16 <= a,
                (a as int) < data@.len(),
                i <= nt,
                v == data@[a as int],
                v >> 6 != 3 && v >> 6 != 2,
                low == v & 0x3f,
                ntl as int == cil(v),
                s == data@[a as int - ntl as int - 1],
                nt as int == at_ntrans(data@, a as int),
                ts as int == tsize_of(s),
                os as int == osize_of(s),
                ix as int == at_index_size(nt as int),
                nt <= 256,
                ts <= 8,
                nt > 0 ==> 1 <= ts,
                e as int == node_end(data@, a as int),
                16 <= e,
                a >= 16 + ntl + 1 + tts + nt * os + fo,
                tts == nt + nt * ts + ix,
                forall|j: int|
                    0 <= j < i ==> (#[trigger] at_delta(data@, a as int, j) == 0 || at_delta(
                        data@,
                        a as int,
                        j,
                    ) <= e as int),
            decreases nt - i,
        {
            proof {
                assert((i + 1) * ts <= nt * ts) by (nonlinear_arith)
                    requires
                        i + 1 <= nt,
                        ts >= 0,
                ;
                assert(i * ts + ts == (i + 1) * ts) by (nonlinear_arith);
            }
            let dp = a - (ntl + 1 + ix + nt + i * ts + ts);
            let d = read_le(data, dp, ts);
            proof {
                assert(dp as int == a as int - cil(v) - 1 - at_index_size(nt as int) - nt as int - (
                i as int) * tsize_of(s) - tsize_of(s));
                assert(d as int == at_delta(data@, a as int, i as int));
            }
            if d != 0 && d > e as u64 {
                return None;
            }
            i += 1;
        }
        Some(e)
    }
}

/// Checks that each transition target of the node at `a` is the
/// empty-node address or on the chain, using the bitmap of chain
/// addresses.
fn targets_check(data: &Vec<u8>, a: usize, seen: &Vec<bool>, Ghost(root): Ghost<int>) -> (r: bool)
    requires
        16 <= a,
        (a as int) < data@.len(),
        node_ok(data@, a as int),
        seen@.len() == data@.len(),
        forall|t: int| 0 <= t < seen@.len() ==> (#[trigger] seen@[t] <==> chain_contains(
            data@,
            root,
            t,
        )),
    ensures
        r == targets_ok(data@, root, a as int),
{
    let v = data[a];
    let kind = v >> 6;
    let low = v & 0x3f;
    let il: usize = if low == 0 {
        1
    } else {
        0
    };
    if kind == 3 {
        seen[a - il - 1]
    } else if kind == 2 {
        let s = data[a - il - 1];
        let ts = (s >> 4) as usize;
        let os = (s & 0x0f) as usize;
        proof {
            assert(s >> 4 <= 15) by (bit_vector);
            assert(s & 0x0f <= 15) by (bit_vector);
        }
        let e = a - (il + 1 + ts + os);
        let d = read_le(data, a - il - 1 - ts, ts);
        proof {
            assert(e as int == node_end(data@, a as int));
            assert(d as int == ot_delta(data@, a as int));
        }
        if d == 0 {
            true
        } else {
            seen[e - (d as usize)]
        }
    } else {
        let ntl = il;
        let s = data[a - ntl - 1];
        let nt: usize = if low != 0 {
            low as usize
        } else {
            let nb = data[a - 1];
            if nb == 1 {
                256
            } else {
                nb as usize
            }
        };
        let ts = (s >> 4) as usize;
        let os = (s & 0x0f) as usize;
        proof {
            assert(v & 0x3f < 64) by (bit_vector);
            assert(s >> 4 <= 15) by (bit_vector);
            assert(s & 0x0f <= 15) by (bit_vector);
            assert(nt <= 256);
            assert(nt * ts <= 4096) by (nonlinear_arith)
                requires
                    nt <= 256,
                    ts <= 15,
            ;
            assert(nt * os <= 4096) by (nonlinear_arith)
                requires
                    nt <= 256,
                    os <= 15,
            ;
        }
        let ix: usize = if nt > 32 {
            256
        } else {
            0
        };
        let fo: usize = if v & 0x40 != 0 {
            os
        } else {
            0
        };
        let e = a - (ntl + 1 + nt + nt * ts + ix + nt * os + fo);
        let mut i: usize = 0;
        while i < nt
            invariant
                16 <= a,
                (a as int) < data@.len(),
                node_ok(data@, a as int),
                seen@.len() == data@.len(),
                forall|t: int| 0 <= t < seen@.len() ==> (#[trigger] seen@[t] <==> chain_contains(
                    data@,
                    root,
                    t,
                )),
                i <= nt,
                v == data@[a as int],
                v >> 6 != 3 && v >> 6 != 2,
                low == v & 0x3f,
                ntl as int == cil(v),
                s == data@[a as int - ntl as int - 1],
                nt as int == at_ntrans(data@, a as int),
                ts as int == tsize_of(s),
                os as int == osize_of(s),
                ix as int == at_index_size(nt as int),
                nt <= 256,
                ts <= 8,
                nt > 0 ==> 1 <= ts,
                e as int == node_end(data@, a as int),
                16 <= e,
                a as int >= 16 + ntl as int + 1 + nt as int + nt as int * ts as int + ix as int
                    + nt as int * os as int + fo as int,
                forall|j: int|
                    0 <= j < i ==> (#[trigger] at_delta(data@, a as int, j) == 0 || chain_contains(
                        data@,
                        root,
                        node_end(data@, a as int) - at_delta(data@, a as int, j),
                    )),
            decreases nt - i,
        {
            proof {
                assert((i + 1) * ts <= nt * ts) by (nonlinear_arith)
                    requires
                        i + 1 <= nt,
                        ts >= 0,
                ;
                assert(i * ts + ts == (i + 1) * ts) by (nonlinear_arith);
            }
            let dp = a - (ntl + 1 + ix + nt + i * ts + ts);
            let d = read_le(data, dp, ts);
            proof {
                assert(dp as int == a as int - cil(v) - 1 - at_index_size(nt as int) - nt as int - (
                i as int) * tsize_of(s) - tsize_of(s));
                assert(d as int == at_delta(data@, a as int, i as int));
            }
            if d != 0 {
                proof {
                    assert(d as int <= e as int);
                }
                if !seen[e - (d as usize)] {
                    return false;
                }
            }
            i += 1;
        }
        true
    }
}

/// Decides structural validity of a serialized transducer, exactly as
/// `fst_structure_ok` states it.
pub fn check_fst_bytes(data: &Vec<u8>) -> (r: bool)
    ensures
        r == fst_structure_ok(data@),
{
    let ghost b = data@;
    let n = data.len();
    if n < 36 {
        return false;
    }
    let version = read_le(data, 0, 8);
    if version != 3 {
        return false;
    }
    let root64 = read_le(data, n - 12, 8);
    if root64 == 0 {
        return n == 36;
    }
    if n < 37 || root64 != (n - 21) as u64 {
        return false;
    }
    let root: usize = n - 21;
    let mut seen: Vec<bool> = Vec::new();
    while seen.len() < n
        invariant
            seen@.len() <= n,
            forall|t: int| 0 <= t < seen@.len() ==> !(#[trigger] seen@[t]),
        decreases n - seen@.len(),
    {
        seen.push(false);
    }
    let mut a: usize = root;
    while a != 15
        invariant
            b == data@,
            n == b.len(),
            n >= 37,
            root == n - 21,
            16 <= root,
            seen@.len() == n,
            a == 15 || (16 <= a && a <= root && chain_contains(b, root as int, a as int)),
            a <= root,
            chain_ok(b, root as int) == chain_ok(b, a as int),
            forall|t: int|
                0 <= t < n ==> (#[trigger] seen@[t] <==> (chain_contains(b, root as int, t)
                    && !chain_contains(b, a as int, t))),
        decreases a,
    {
        let e = match node_check(data, a) {
            Some(e) => e,
            None => {
                return false;
            },
        };
        proof {
            assert(chain_ok(b, a as int) == chain_ok(b, e as int - 1));
            assert(forall|t: int| chain_contains(b, a as int, t) == (t == a as int
                || #[trigger] chain_contains(b, e as int - 1, t)));
            if chain_contains(b, e as int - 1, a as int) {
                lemma_chain_contains_range(b, e as int - 1, a as int);
            }
            if e > 16 {
                assert(chain_contains(b, e as int - 1, e as int - 1));
                assert(chain_contains(b, a as int, e as int - 1));
                lemma_chain_contains_trans(b, root as int, a as int, e as int - 1);
            }
        }
        seen[a] = true;
        a = e - 1;
    }
    proof {
        assert(chain_ok(b, root as int));
        assert(forall|t: int| 0 <= t < n ==> (#[trigger] seen@[t] <==> chain_contains(
            b,
            root as int,
            t,
        )));
    }
    let mut a2: usize = root;
    while a2 != 15
        invariant
            b == data@,
            n == b.len(),
            n >= 37,
            root == n - 21,
            16 <= root,
            seen@.len() == n,
            chain_ok(b, root as int),
            forall|t: int| 0 <= t < n ==> (#[trigger] seen@[t] <==> chain_contains(
                b,
                root as int,
                t,
            )),
            a2 == 15 || (16 <= a2 && a2 <= root && chain_contains(b, root as int, a2 as int)),
            a2 <= root,
            chain_ok(b, a2 as int),
            forall|t: int|
                (#[trigger] chain_contains(b, root as int, t) && !chain_contains(b, a2 as int, t))
                    ==> targets_ok(b, root as int, t),
        decreases a2,
    {
        let e = match node_check(data, a2) {
            Some(e) => e,
            None => {
                proof {
                    assert(false);
                }
                return false;
            },
        };
        if !targets_check(data, a2, &seen, Ghost(root as int)) {
            return false;
        }
        proof {
            assert(chain_ok(b, a2 as int) == chain_ok(b, e as int - 1));
            assert(forall|t: int| chain_contains(b, a2 as int, t) == (t == a2 as int
                || #[trigger] chain_contains(b, e as int - 1, t)));
            if e > 16 {
                assert(chain_contains(b, e as int - 1, e as int - 1));
                assert(chain_contains(b, a2 as int, e as int - 1));
                lemma_chain_contains_trans(b, root as int, a2 as int, e as int - 1);
            }
        }
        a2 = e - 1;
    }
    proof {
        assert forall|t: int| #[trigger] chain_contains(b, root as int, t) implies targets_ok(
            b,
            root as int,
            t,
        ) by {
            lemma_chain_contains_range(b, root as int, t);
        }
    }
    true
}

/// The output size of the node at `a` (zero for a next-node transition,
/// which carries no output).
pub open spec fn node_osize(b: Seq<u8>, a: int) -> int {
    let v = b[a];
    if v >> 6 == 3 {
        0
    } else {
        osize_of(b[a - cil(v) - 1])
    }
}

/// The output of a one-transition node.
pub open spec fn ot_out(b: Seq<u8>, a: int) -> int {
    if node_osize(b, a) == 0 {
        0
    } else {
        le_bytes(b, node_end(b, a), node_osize(b, a))
    }
}

/// The final output of a many-transition node.
pub open spec fn at_fout(b: Seq<u8>, a: int) -> int {
    let v = b[a];
    if v & 0x40 != 0 && node_osize(b, a) > 0 {
        le_bytes(b, node_end(b, a), node_osize(b, a))
    } else {
        0
    }
}

/// The output of the `i`th transition of a many-transition node.
pub open spec fn at_out(b: Seq<u8>, a: int, i: int) -> int {
    let v = b[a];
    let os = node_osize(b, a);
    let s = b[a - cil(v) - 1];
    let nt = at_ntrans(b, a);
    if os == 0 {
        0
    } else {
        le_bytes(
            b,
            a - cil(v) - 1 - (nt + nt * tsize_of(s) + at_index_size(nt)) - i * os - os,
            os,
        )
    }
}

/// Raises the running maximum at `t` to `s`.
pub open spec fn bump(sums: Seq<u64>, t: int, s: int) -> Seq<u64> {
    if 0 <= t < sums.len() && s > sums[t] {
        sums.update(t, s as u64)
    } else {
        sums
    }
}

/// Folds the first `k` transitions of the node at `a` into the running
/// maxima, refusing a path sum that leaves 64 bits.
pub open spec fn trans_fold(b: Seq<u8>, a: int, k: int, sums: Seq<u64>) -> Option<Seq<u64>>
    decreases k,
{
    if k <= 0 {
        Some(sums)
    } else {
        match trans_fold(b, a, k - 1, sums) {
            None => None,
            Some(s1) => {
                let base = sums[a] as int;
                let o = at_out(b, a, k - 1);
                if base + o > u64::MAX as int {
                    None
                } else if at_delta(b, a, k - 1) == 0 {
                    Some(s1)
                } else {
                    Some(bump(s1, node_end(b, a) - at_delta(b, a, k - 1), base + o))
                }
            },
        }
    }
}

/// A fold that has refused a prefix refuses every extension.
pub proof fn lemma_trans_fold_none(b: Seq<u8>, a: int, k1: int, k2: int, sums: Seq<u64>)
    requires
        0 <= k1 <= k2,
        trans_fold(b, a, k1, sums) is None,
    ensures
        trans_fold(b, a, k2, sums) is None,
    decreases k2,
{
    if k2 > k1 {
        lemma_trans_fold_none(b, a, k1, k2 - 1, sums);
    }
}

/// Processes one node: checks that the maximal path sum through each of
/// its outputs stays within 64 bits, and propagates it to the targets.
pub open spec fn step_sums(b: Seq<u8>, a: int, sums: Seq<u64>) -> Option<Seq<u64>> {
    let v = b[a];
    let base = sums[a] as int;
    if v >> 6 == 3 {
        Some(bump(sums, node_end(b, a) - 1, base))
    } else if v >> 6 == 2 {
        let o = ot_out(b, a);
        if base + o > u64::MAX as int {
            None
        } else if ot_delta(b, a) == 0 {
            Some(sums)
        } else {
            Some(bump(sums, node_end(b, a) - ot_delta(b, a), base + o))
        }
    } else {
        if base + at_fout(b, a) > u64::MAX as int {
            None
        } else {
            trans_fold(b, a, at_ntrans(b, a), sums)
        }
    }
}

/// Walks the chain head-first, carrying the maximal path sums.
pub open spec fn sweep_sums(b: Seq<u8>, a: int, sums: Seq<u64>) -> Option<Seq<u64>>
    decreases a,
{
    if a <= 15 {
        Some(sums)
    } else if !node_ok(b, a) {
        None
    } else if node_end(b, a) - 1 < 15 || node_end(b, a) - 1 >= a {
        None
    } else {
        match step_sums(b, a, sums) {
            None => None,
            Some(s2) => sweep_sums(b, node_end(b, a) - 1, s2),
        }
    }
}

/// Whether every path sum of outputs through the transducer stays within
/// 64 bits, so that the additions the lookup performs cannot overflow.
pub open spec fn fst_sums_ok(b: Seq<u8>) -> bool {
    let n = b.len() as int;
    let root = le_bytes(b, n - 12, 8);
    root == 0 || sweep_sums(b, root, Seq::new(b.len(), |i: int| 0u64)) is Some
}

/// Processes the node at `a` for the sums sweep.
fn node_sums_step(data: &Vec<u8>, a: usize, e: usize, sums: &mut Vec<u64>) -> (r: bool)
    requires
        16 <= a,
        (a as int) < data@.len(),
        node_ok(data@, a as int),
        e as int == node_end(data@, a as int),
        16 <= e <= a,
        old(sums)@.len() == data@.len(),
    ensures
        final(sums)@.len() == data@.len(),
        r == (step_sums(data@, a as int, old(sums)@) is Some),
        r ==> Some(final(sums)@) == step_sums(data@, a as int, old(sums)@),
{
    let ghost b = data@;
    let v = data[a];
    let kind = v >> 6;
    let low = v & 0x3f;
    let il: usize = if low == 0 {
        1
    } else {
        0
    };
    let base = sums[a];
    if kind == 3 {
        let t = e - 1;
        if base > sums[t] {
            sums[t] = base;
        } else {
            proof {
                assert(bump(old(sums)@, t as int, base as int) =~= old(sums)@);
            }
        }
        true
    } else if kind == 2 {
        let s = data[a - il - 1];
        let ts = (s >> 4) as usize;
        let os = (s & 0x0f) as usize;
        proof {
            assert(s >> 4 <= 15) by (bit_vector);
            assert(s & 0x0f <= 15) by (bit_vector);
        }
        let o: u64 = if os == 0 {
            0
        } else {
            read_le(data, e, os)
        };
        proof {
            assert(o as int == ot_out(b, a as int));
        }
        let sum = match base.checked_add(o) {
            Some(x) => x,
            None => {
                return false;
            },
        };
        let d = read_le(data, a - il - 1 - ts, ts);
        proof {
            assert(d as int == ot_delta(b, a as int));
        }
        if d == 0 {
            true
        } else {
            let t = e - (d as usize);
            if sum > sums[t] {
                sums[t] = sum;
            } else {
                proof {
                    assert(bump(old(sums)@, t as int, sum as int) =~= old(sums)@);
                }
            }
            true
        }
    } else {
        let ntl = il;
        let s = data[a - ntl - 1];
        let nt: usize = if low != 0 {
            low as usize
        } else {
            let nb = data[a - 1];
            if nb == 1 {
                256
            } else {
                nb as usize
            }
        };
        let ts = (s >> 4) as usize;
        let os = (s & 0x0f) as usize;
        proof {
            assert(v & 0x3f < 64) by (bit_vector);
            assert(s >> 4 <= 15) by (bit_vector);
            assert(s & 0x0f <= 15) by (bit_vector);
            assert(nt <= 256);
            assert(nt * ts <= 4096) by (nonlinear_arith)
                requires
                    nt <= 256,
                    ts <= 15,
            ;
            assert(nt * os <= 4096) by (nonlinear_arith)
                requires
                    nt <= 256,
                    os <= 15,
            ;
        }
        let ix: usize = if nt > 32 {
            256
        } else {
            0
        };
        let tts = nt + nt * ts + ix;
        let fo: u64 = if (v & 0x40 != 0) && os > 0 {
            read_le(data, e, os)
        } else {
            0
        };
        proof {
            assert(fo as int == at_fout(b, a as int));
        }
        if base.checked_add(fo).is_none() {
            return false;
        }
        let mut i: usize = 0;
        while i < nt
            invariant
                16 <= a,
                (a as int) < b.len(),
                b == data@,
                node_ok(b, a as int),
                e as int == node_end(b, a as int),
                16 <= e <= a,
                i <= nt,
                v == b[a as int],
                v >> 6 != 3 && v >> 6 != 2,
                low == v & 0x3f,
                ntl as int == cil(v),
                s == b[a as int - ntl as int - 1],
                nt as int == at_ntrans(b, a as int),
                ts as int == tsize_of(s),
                os as int == osize_of(s),
                os as int == node_osize(b, a as int),
                ix as int == at_index_size(nt as int),
                nt <= 256,
                ts <= 8,
                nt > 0 ==> 1 <= ts,
                os <= 8,
                tts == nt + nt * ts + ix,
                a as int >= 16 + ntl as int + 1 + tts as int + nt as int * os as int,
                sums@.len() == b.len(),
                base == old(sums)@[a as int],
                sums@[a as int] == old(sums)@[a as int],
                Some(sums@) == trans_fold(b, a as int, i as int, old(sums)@),
            decreases nt - i,
        {
            proof {
                assert((i + 1) * ts <= nt * ts) by (nonlinear_arith)
                    requires
                        i + 1 <= nt,
                        ts >= 0,
                ;
                assert(i * ts + ts == (i + 1) * ts) by (nonlinear_arith);
                assert((i + 1) * os <= nt * os) by (nonlinear_arith)
                    requires
                        i + 1 <= nt,
                        os >= 0,
                ;
                assert(i * os + os == (i + 1) * os) by (nonlinear_arith);
            }
            let o: u64 = if os == 0 {
                0
            } else {
                read_le(data, a - (ntl + 1 + tts + i * os + os), os)
            };
            proof {
                assert(o as int == at_out(b, a as int, i as int));
            }
            let sum = match base.checked_add(o) {
                Some(x) => x,
                None => {
                    proof {
                        assert(trans_fold(b, a as int, i as int + 1, old(sums)@) is None);
                        lemma_trans_fold_none(b, a as int, i as int + 1, nt as int, old(sums)@);
                    }
                    return false;
                },
            };
            let dp = a - (ntl + 1 + ix + nt + i * ts + ts);
            let d = read_le(data, dp, ts);
            proof {
                assert(dp as int == a as int - cil(v) - 1 - at_index_size(nt as int) - nt as int - (
                i as int) * tsize_of(s) - tsize_of(s));
                assert(d as int == at_delta(b, a as int, i as int));
            }
            if d != 0 {
                proof {
                    assert(d as int <= e as int);
                }
                let t = e - (d as usize);
                if sum > sums[t] {
                    sums[t] = sum;
                } else {
                    proof {
                        assert(bump(sums@, t as int, sum as int) =~= sums@);
                    }
                }
            }
            i += 1;
        }
        true
    }
}

/// Decides whether the path sums of a structurally valid transducer stay
/// within 64 bits, exactly as `fst_sums_ok` states it.
pub fn check_fst_sums(data: &Vec<u8>) -> (r: bool)
    requires
        fst_structure_ok(data@),
    ensures
        r == fst_sums_ok(data@),
{
    let ghost b = data@;
    let n = data.len();
    let root64 = read_le(data, n - 12, 8);
    if root64 == 0 {
        return true;
    }
    let root: usize = n - 21;
    let ghost init = Seq::new(b.len(), |i: int| 0u64);
    let mut sums: Vec<u64> = Vec::new();
    while sums.len() < n
        invariant
            sums@.len() <= n,
            forall|t: int| 0 <= t < sums@.len() ==> sums@[t] == 0u64,
        decreases n - sums@.len(),
    {
        sums.push(0);
    }
    proof {
        assert(sums@ =~= init);
    }
    let mut a: usize = root;
    while a != 15
        invariant
            b == data@,
            n == b.len(),
            n >= 37,
            root == n - 21,
            16 <= root,
            le_bytes(b, n as int - 12, 8) == root as int,
            init.len() == n,
            forall|t: int| 0 <= t < n ==> init[t] == 0u64,
            sums@.len() == n,
            a == 15 || (16 <= a && a <= root),
            a <= root,
            chain_ok(b, a as int),
            sweep_sums(b, root as int, init) == sweep_sums(b, a as int, sums@),
        decreases a,
    {
        let e = match node_check(data, a) {
            Some(e) => e,
            None => {
                proof {
                    assert(false);
                }
                return false;
            },
        };
        let ghost before = sums@;
        if !node_sums_step(data, a, e, &mut sums) {
            proof {
                assert(node_ok(b, a as int));
                assert(step_sums(b, a as int, before) is None);
                assert(sweep_sums(b, a as int, before) is None);
                assert(init =~= Seq::new(b.len(), |i: int| 0u64));
            }
            return false;
        }
        proof {
            assert(sweep_sums(b, a as int, before) == sweep_sums(b, e as int - 1, sums@));
        }
        a = e - 1;
    }
    proof {
        assert(sweep_sums(b, 15, sums@) == Some(sums@));
        assert(init =~= Seq::new(b.len(), |i: int| 0u64));
    }
    true
}

} // verus!
