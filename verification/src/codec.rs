//! The wire layout of the artifacts: length-prefixed structures. A byte
//! string is a 4-byte little-endian length followed by its bytes; an
//! optional byte string is a presence byte followed, when present, by a
//! byte string; an update record is 32 root bytes, a counted sequence of
//! (key, old value, new value) triples, and the proof bytes; a
//! data-with-proof record is a counted sequence of (key, value) pairs and
//! the proof bytes. Decoding accepts exactly the encodings and consumes the
//! whole input.

use vstd::prelude::*;
use vstd::slice::{slice_subrange, slice_to_vec};
use crate::hash::opt_bytes_view;
use crate::types::{
    DataWithProof, DataWithProofData, KeyValue, KeyValueData, SmtChange, SmtChangeData, SmtUpdate,
    SmtUpdateData,
};

verus! {

/// A byte string short enough for its 4-byte length prefix.
pub open spec fn bytes_wf(s: Seq<u8>) -> bool {
    s.len() < 4294967296
}

/// An optional byte string short enough to encode.
pub open spec fn opt_wf(o: Option<Seq<u8>>) -> bool {
    match o {
        Some(s) => bytes_wf(s),
        None => true,
    }
}

/// A change triple short enough to encode.
pub open spec fn change_wf(c: SmtChangeData) -> bool {
    bytes_wf(c.key) && opt_wf(c.old_value) && opt_wf(c.new_value)
}

/// An update record that has a wire form.
pub open spec fn update_wf(u: SmtUpdateData) -> bool {
    &&& u.new_root.len() == 32
    &&& u.changes.len() < 4294967296
    &&& forall|j: int| 0 <= j < u.changes.len() ==> change_wf(#[trigger] u.changes[j])
    &&& bytes_wf(u.proof)
}

/// A key/value pair short enough to encode.
pub open spec fn kv_wf(kv: KeyValueData) -> bool {
    bytes_wf(kv.key) && opt_wf(kv.value)
}

/// A data-with-proof record that has a wire form.
pub open spec fn dwp_wf(d: DataWithProofData) -> bool {
    &&& d.data.len() < 4294967296
    &&& forall|j: int| 0 <= j < d.data.len() ==> kv_wf(#[trigger] d.data[j])
    &&& bytes_wf(d.proof)
}

/// The 4 little-endian bytes of a length.
pub open spec fn enc_u32(n: int) -> Seq<u8> {
    seq![
        (n % 256) as u8,
        ((n / 256) % 256) as u8,
        ((n / 65536) % 256) as u8,
        ((n / 16777216) % 256) as u8,
    ]
}

/// Wire form of a byte string.
pub open spec fn enc_bytes(s: Seq<u8>) -> Seq<u8> {
    enc_u32(s.len() as int) + s
}

/// Wire form of an optional byte string.
pub open spec fn enc_opt(o: Option<Seq<u8>>) -> Seq<u8> {
    match o {
        None => seq![0u8],
        Some(s) => seq![1u8] + enc_bytes(s),
    }
}

/// Wire form of a change triple.
pub open spec fn enc_change(c: SmtChangeData) -> Seq<u8> {
    enc_bytes(c.key) + enc_opt(c.old_value) + enc_opt(c.new_value)
}

/// Wire form of a sequence of change triples.
pub open spec fn enc_changes(cs: Seq<SmtChangeData>) -> Seq<u8>
    decreases cs.len(),
{
    if cs.len() == 0 {
        Seq::empty()
    } else {
        enc_change(cs.first()) + enc_changes(cs.drop_first())
    }
}

/// Wire form of an update record.
pub open spec fn enc_update(u: SmtUpdateData) -> Seq<u8> {
    u.new_root + enc_u32(u.changes.len() as int) + enc_changes(u.changes) + enc_bytes(u.proof)
}

/// Wire form of a key/value pair.
pub open spec fn enc_kv(kv: KeyValueData) -> Seq<u8> {
    enc_bytes(kv.key) + enc_opt(kv.value)
}

/// Wire form of a sequence of key/value pairs.
pub open spec fn enc_kvs(kvs: Seq<KeyValueData>) -> Seq<u8>
    decreases kvs.len(),
{
    if kvs.len() == 0 {
        Seq::empty()
    } else {
        enc_kv(kvs.first()) + enc_kvs(kvs.drop_first())
    }
}

/// Wire form of a data-with-proof record.
pub open spec fn enc_dwp(d: DataWithProofData) -> Seq<u8> {
    enc_u32(d.data.len() as int) + enc_kvs(d.data) + enc_bytes(d.proof)
}

/// The length read from 4 little-endian bytes at a position.
pub open spec fn spec_u32_at(d: Seq<u8>, i: int) -> int {
    d[i] + 256 * d[i + 1] + 65536 * d[i + 2] + 16777216 * d[i + 3]
}

/// Parses a byte string at a position: its content and the position after.
pub open spec fn dec_bytes(d: Seq<u8>, i: int) -> Option<(Seq<u8>, int)> {
    if i + 4 <= d.len() {
        let n = spec_u32_at(d, i);
        if i + 4 + n <= d.len() {
            Some((d.subrange(i + 4, i + 4 + n), i + 4 + n))
        } else {
            None
        }
    } else {
        None
    }
}

/// Parses an optional byte string at a position.
pub open spec fn dec_opt(d: Seq<u8>, i: int) -> Option<(Option<Seq<u8>>, int)> {
    if i < d.len() {
        if d[i] == 0 {
            Some((None, i + 1))
        } else if d[i] == 1 {
            match dec_bytes(d, i + 1) {
                Some((s, j)) => Some((Some(s), j)),
                None => None,
            }
        } else {
            None
        }
    } else {
        None
    }
}

/// Parses a change triple at a position.
pub open spec fn dec_change(d: Seq<u8>, i: int) -> Option<(SmtChangeData, int)> {
    match dec_bytes(d, i) {
        Some((key, i1)) => match dec_opt(d, i1) {
            Some((old_value, i2)) => match dec_opt(d, i2) {
                Some((new_value, i3)) => Some(
                    (SmtChangeData { key, old_value, new_value }, i3),
                ),
                None => None,
            },
            None => None,
        },
        None => None,
    }
}

/// Parses a counted sequence of change triples at a position.
pub open spec fn dec_changes(d: Seq<u8>, i: int, n: nat) -> Option<(Seq<SmtChangeData>, int)>
    decreases n,
{
    if n == 0 {
        Some((Seq::empty(), i))
    } else {
        match dec_change(d, i) {
            Some((c, j)) => match dec_changes(d, j, (n - 1) as nat) {
                Some((cs, k)) => Some((seq![c] + cs, k)),
                None => None,
            },
            None => None,
        }
    }
}

/// Parses a whole update record: the input must be consumed exactly.
pub open spec fn dec_update(d: Seq<u8>) -> Option<SmtUpdateData> {
    if d.len() >= 36 {
        let new_root = d.subrange(0, 32);
        let n = spec_u32_at(d, 32);
        if n >= 0 {
            match dec_changes(d, 36, n as nat) {
                Some((changes, i)) => match dec_bytes(d, i) {
                    Some((proof, j)) => if j == d.len() {
                        Some(SmtUpdateData { new_root, changes, proof })
                    } else {
                        None
                    },
                    None => None,
                },
                None => None,
            }
        } else {
            None
        }
    } else {
        None
    }
}

/// Parses a key/value pair at a position.
pub open spec fn dec_kv(d: Seq<u8>, i: int) -> Option<(KeyValueData, int)> {
    match dec_bytes(d, i) {
        Some((key, i1)) => match dec_opt(d, i1) {
            Some((value, i2)) => Some((KeyValueData { key, value }, i2)),
            None => None,
        },
        None => None,
    }
}

/// Parses a counted sequence of key/value pairs at a position.
pub open spec fn dec_kvs(d: Seq<u8>, i: int, n: nat) -> Option<(Seq<KeyValueData>, int)>
    decreases n,
{
    if n == 0 {
        Some((Seq::empty(), i))
    } else {
        match dec_kv(d, i) {
            Some((kv, j)) => match dec_kvs(d, j, (n - 1) as nat) {
                Some((kvs, k)) => Some((seq![kv] + kvs, k)),
                None => None,
            },
            None => None,
        }
    }
}

/// Parses a whole data-with-proof record: the input must be consumed
/// exactly.
pub open spec fn dec_dwp(d: Seq<u8>) -> Option<DataWithProofData> {
    if d.len() >= 4 {
        let n = spec_u32_at(d, 0);
        if n >= 0 {
            match dec_kvs(d, 4, n as nat) {
                Some((data, i)) => match dec_bytes(d, i) {
                    Some((proof, j)) => if j == d.len() {
                        Some(DataWithProofData { data, proof })
                    } else {
                        None
                    },
                    None => None,
                },
                None => None,
            }
        } else {
            None
        }
    } else {
        None
    }
}

/// A length is recovered from its 4 little-endian bytes.
proof fn lemma_u32_identity(n: int)
    requires
        0 <= n < 4294967296,
    ensures
        n % 256 + 256 * ((n / 256) % 256) + 65536 * ((n / 65536) % 256) + 16777216 * ((n
            / 16777216) % 256) == n,
{
    vstd::arithmetic::div_mod::lemma_fundamental_div_mod(n, 256);
    vstd::arithmetic::div_mod::lemma_fundamental_div_mod(n / 256, 256);
    vstd::arithmetic::div_mod::lemma_div_denominator(n, 256, 256);
    vstd::arithmetic::div_mod::lemma_fundamental_div_mod(n / 65536, 256);
    vstd::arithmetic::div_mod::lemma_div_denominator(n, 65536, 256);
    vstd::arithmetic::div_mod::lemma_fundamental_div_mod(n, 16777216);
    assert(n / 16777216 < 256);
    vstd::arithmetic::div_mod::lemma_small_mod((n / 16777216) as nat, 256);
}

/// A byte string is parsed back out of its wire form, wherever it stands.
proof fn lemma_dec_bytes_at(d: Seq<u8>, i: int, s: Seq<u8>)
    requires
        0 <= i,
        bytes_wf(s),
        i + 4 + s.len() <= d.len(),
        forall|j: int| 0 <= j < 4 + s.len() ==> d[i + j] == #[trigger] enc_bytes(s)[j],
    ensures
        dec_bytes(d, i) == Some((s, i + 4 + s.len())),
{
    let n = s.len() as int;
    assert(enc_bytes(s)[0] == enc_u32(n)[0]);
    assert(enc_bytes(s)[1] == enc_u32(n)[1]);
    assert(enc_bytes(s)[2] == enc_u32(n)[2]);
    assert(enc_bytes(s)[3] == enc_u32(n)[3]);
    assert(d[i + 0] == enc_bytes(s)[0]);
    assert(d[i + 1] == enc_bytes(s)[1]);
    assert(d[i + 2] == enc_bytes(s)[2]);
    assert(d[i + 3] == enc_bytes(s)[3]);
    lemma_u32_identity(n);
    assert(spec_u32_at(d, i) == n);
    assert(d.subrange(i + 4, i + 4 + n) =~= s) by {
        assert forall|j: int| 0 <= j < n implies d.subrange(i + 4, i + 4 + n)[j] == s[j] by {
            assert(d[i + (j + 4)] == enc_bytes(s)[j + 4]);
            assert(enc_bytes(s)[j + 4] == s[j]);
        }
    }
}

/// An optional byte string is parsed back out of its wire form.
proof fn lemma_dec_opt_at(d: Seq<u8>, i: int, o: Option<Seq<u8>>)
    requires
        0 <= i,
        opt_wf(o),
        i + enc_opt(o).len() <= d.len(),
        forall|j: int| 0 <= j < enc_opt(o).len() ==> d[i + j] == #[trigger] enc_opt(o)[j],
    ensures
        dec_opt(d, i) == Some((o, i + enc_opt(o).len())),
{
    match o {
        None => {
            assert(d[i + 0] == enc_opt(o)[0]);
        },
        Some(s) => {
            assert(d[i + 0] == enc_opt(o)[0]);
            assert(enc_opt(o)[0] == 1u8);
            assert forall|j: int| 0 <= j < 4 + s.len() implies d[i + 1 + j] == #[trigger] enc_bytes(s)[j] by {
                assert(enc_opt(o)[j + 1] == enc_bytes(s)[j]);
                assert(d[i + (j + 1)] == enc_opt(o)[j + 1]);
            }
            lemma_dec_bytes_at(d, i + 1, s);
        },
    }
}

/// A change triple is parsed back out of its wire form.
proof fn lemma_dec_change_at(d: Seq<u8>, i: int, c: SmtChangeData)
    requires
        0 <= i,
        change_wf(c),
        i + enc_change(c).len() <= d.len(),
        forall|j: int| 0 <= j < enc_change(c).len() ==> d[i + j] == #[trigger] enc_change(c)[j],
    ensures
        dec_change(d, i) == Some((c, i + enc_change(c).len())),
{
    let e1 = enc_bytes(c.key);
    let e2 = enc_opt(c.old_value);
    let e3 = enc_opt(c.new_value);
    assert forall|j: int| 0 <= j < e1.len() implies d[i + j] == #[trigger] e1[j] by {
        assert(enc_change(c)[j] == e1[j]);
        assert(d[i + j] == enc_change(c)[j]);
    }
    lemma_dec_bytes_at(d, i, c.key);
    assert forall|j: int| 0 <= j < e2.len() implies d[i + e1.len() + j] == #[trigger] e2[j] by {
        assert(enc_change(c)[e1.len() + j] == e2[j]);
        assert(d[i + (e1.len() + j)] == enc_change(c)[e1.len() + j]);
    }
    lemma_dec_opt_at(d, i + e1.len(), c.old_value);
    assert forall|j: int|
        0 <= j < e3.len() implies d[i + e1.len() + e2.len() + j] == #[trigger] e3[j] by {
        assert(enc_change(c)[e1.len() + e2.len() + j] == e3[j]);
        assert(d[i + (e1.len() + e2.len() + j)] == enc_change(c)[e1.len() + e2.len() + j]);
    }
    lemma_dec_opt_at(d, i + e1.len() + e2.len(), c.new_value);
}

/// A sequence of change triples is parsed back out of its wire form.
proof fn lemma_dec_changes_at(d: Seq<u8>, i: int, cs: Seq<SmtChangeData>)
    requires
        0 <= i,
        forall|j: int| 0 <= j < cs.len() ==> change_wf(#[trigger] cs[j]),
        i + enc_changes(cs).len() <= d.len(),
        forall|j: int| 0 <= j < enc_changes(cs).len() ==> d[i + j] == #[trigger] enc_changes(cs)[j],
    ensures
        dec_changes(d, i, cs.len()) == Some((cs, i + enc_changes(cs).len())),
    decreases cs.len(),
{
    if cs.len() == 0 {
        assert(dec_changes(d, i, 0) == Some((Seq::<SmtChangeData>::empty(), i)));
        assert(cs =~= Seq::<SmtChangeData>::empty());
    } else {
        let c0 = cs.first();
        let rest = cs.drop_first();
        let e0 = enc_change(c0);
        let er = enc_changes(rest);
        assert(enc_changes(cs) == e0 + er);
        assert forall|j: int| 0 <= j < e0.len() implies d[i + j] == #[trigger] e0[j] by {
            assert(enc_changes(cs)[j] == e0[j]);
            assert(d[i + j] == enc_changes(cs)[j]);
        }
        assert(change_wf(cs[0]));
        lemma_dec_change_at(d, i, c0);
        assert(forall|j: int| 0 <= j < rest.len() ==> #[trigger] rest[j] == cs[j + 1]);
        assert forall|j: int| 0 <= j < er.len() implies d[i + e0.len() + j] == #[trigger] er[j] by {
            assert(enc_changes(cs)[e0.len() + j] == er[j]);
            assert(d[i + (e0.len() + j)] == enc_changes(cs)[e0.len() + j]);
        }
        lemma_dec_changes_at(d, i + e0.len(), rest);
        assert(seq![c0] + rest =~= cs);
        assert(dec_changes(d, i, cs.len()) == Some((cs, i + enc_changes(cs).len())));
    }
}

/// A key/value pair is parsed back out of its wire form.
proof fn lemma_dec_kv_at(d: Seq<u8>, i: int, kv: KeyValueData)
    requires
        0 <= i,
        kv_wf(kv),
        i + enc_kv(kv).len() <= d.len(),
        forall|j: int| 0 <= j < enc_kv(kv).len() ==> d[i + j] == #[trigger] enc_kv(kv)[j],
    ensures
        dec_kv(d, i) == Some((kv, i + enc_kv(kv).len())),
{
    let e1 = enc_bytes(kv.key);
    let e2 = enc_opt(kv.value);
    assert forall|j: int| 0 <= j < e1.len() implies d[i + j] == #[trigger] e1[j] by {
        assert(enc_kv(kv)[j] == e1[j]);
        assert(d[i + j] == enc_kv(kv)[j]);
    }
    lemma_dec_bytes_at(d, i, kv.key);
    assert forall|j: int| 0 <= j < e2.len() implies d[i + e1.len() + j] == #[trigger] e2[j] by {
        assert(enc_kv(kv)[e1.len() + j] == e2[j]);
        assert(d[i + (e1.len() + j)] == enc_kv(kv)[e1.len() + j]);
    }
    lemma_dec_opt_at(d, i + e1.len(), kv.value);
}

/// A sequence of key/value pairs is parsed back out of its wire form.
proof fn lemma_dec_kvs_at(d: Seq<u8>, i: int, kvs: Seq<KeyValueData>)
    requires
        0 <= i,
        forall|j: int| 0 <= j < kvs.len() ==> kv_wf(#[trigger] kvs[j]),
        i + enc_kvs(kvs).len() <= d.len(),
        forall|j: int| 0 <= j < enc_kvs(kvs).len() ==> d[i + j] == #[trigger] enc_kvs(kvs)[j],
    ensures
        dec_kvs(d, i, kvs.len()) == Some((kvs, i + enc_kvs(kvs).len())),
    decreases kvs.len(),
{
    if kvs.len() == 0 {
        assert(dec_kvs(d, i, 0) == Some((Seq::<KeyValueData>::empty(), i)));
        assert(kvs =~= Seq::<KeyValueData>::empty());
    } else {
        let kv0 = kvs.first();
        let rest = kvs.drop_first();
        let e0 = enc_kv(kv0);
        let er = enc_kvs(rest);
        assert(enc_kvs(kvs) == e0 + er);
        assert forall|j: int| 0 <= j < e0.len() implies d[i + j] == #[trigger] e0[j] by {
            assert(enc_kvs(kvs)[j] == e0[j]);
            assert(d[i + j] == enc_kvs(kvs)[j]);
        }
        assert(kv_wf(kvs[0]));
        lemma_dec_kv_at(d, i, kv0);
        assert(forall|j: int| 0 <= j < rest.len() ==> #[trigger] rest[j] == kvs[j + 1]);
        assert forall|j: int| 0 <= j < er.len() implies d[i + e0.len() + j] == #[trigger] er[j] by {
            assert(enc_kvs(kvs)[e0.len() + j] == er[j]);
            assert(d[i + (e0.len() + j)] == enc_kvs(kvs)[e0.len() + j]);
        }
        lemma_dec_kvs_at(d, i + e0.len(), rest);
        assert(seq![kv0] + rest =~= kvs);
        assert(dec_kvs(d, i, kvs.len()) == Some((kvs, i + enc_kvs(kvs).len())));
    }
}

/// The header facts of an encoded update record: its length, its root
/// bytes, and its change count.
#[verifier::rlimit(100)]
proof fn lemma_update_header(u: SmtUpdateData)
    requires
        update_wf(u),
    ensures
        enc_update(u).len() == 36 + enc_changes(u.changes).len() + enc_bytes(u.proof).len(),
        enc_update(u).subrange(0, 32) == u.new_root,
        spec_u32_at(enc_update(u), 32) == u.changes.len() as int,
{
    let d = enc_update(u);
    let n = u.changes.len() as int;
    let ecnt = enc_u32(n);
    let ecs = enc_changes(u.changes);
    let ep = enc_bytes(u.proof);
    assert(d == u.new_root + ecnt + ecs + ep);
    assert(d.subrange(0, 32) =~= u.new_root) by {
        assert forall|j: int| 0 <= j < 32 implies d.subrange(0, 32)[j] == u.new_root[j] by {
            assert(d[j] == u.new_root[j]);
        }
    }
    assert forall|j: int| 0 <= j < 4 implies d[32 + j] == #[trigger] ecnt[j] by {
        assert(d[32 + j] == ((u.new_root + ecnt) + ecs)[32 + j]);
        assert(((u.new_root + ecnt) + ecs)[32 + j] == (u.new_root + ecnt)[32 + j]);
        assert((u.new_root + ecnt)[32 + j] == ecnt[j]);
    }
    assert(d[32int + 0] == ecnt[0]);
    assert(d[32int + 1] == ecnt[1]);
    assert(d[32int + 2] == ecnt[2]);
    assert(d[32int + 3] == ecnt[3]);
    lemma_u32_identity(n);
}

/// The body facts of an encoded update record: the triples and the proof
/// bytes are parsed back out of it.
#[verifier::rlimit(100)]
proof fn lemma_update_body(u: SmtUpdateData)
    requires
        update_wf(u),
    ensures
        dec_changes(enc_update(u), 36, u.changes.len()) == Some(
            (u.changes, 36 + enc_changes(u.changes).len() as int),
        ),
        dec_bytes(enc_update(u), 36 + enc_changes(u.changes).len() as int) == Some(
            (u.proof, enc_update(u).len() as int),
        ),
{
    let d = enc_update(u);
    let ecnt = enc_u32(u.changes.len() as int);
    let ecs = enc_changes(u.changes);
    let ep = enc_bytes(u.proof);
    assert(d == u.new_root + ecnt + ecs + ep);
    assert(ep.len() == 4 + u.proof.len());
    assert(d.len() == 36 + ecs.len() + ep.len());
    assert forall|j: int| 0 <= j < ecs.len() implies d[36 + j] == #[trigger] ecs[j] by {
        assert(d[36 + j] == ((u.new_root + ecnt) + ecs)[36 + j]);
        assert(((u.new_root + ecnt) + ecs)[36 + j] == ecs[j]);
    }
    lemma_dec_changes_at(d, 36, u.changes);
    assert forall|j: int|
        0 <= j < ep.len() implies d[36 + ecs.len() as int + j] == #[trigger] ep[j] by {
        assert(d[36 + ecs.len() as int + j] == ep[j]);
    }
    lemma_dec_bytes_at(d, 36 + ecs.len() as int, u.proof);
}

/// Round trip: decoding the wire form of an update record yields exactly
/// that record.
pub proof fn lemma_update_roundtrip(u: SmtUpdateData)
    requires
        update_wf(u),
    ensures
        dec_update(enc_update(u)) == Some(u),
{
    let d = enc_update(u);
    lemma_update_header(u);
    lemma_update_body(u);
    assert(dec_update(d) == Some(
        SmtUpdateData { new_root: d.subrange(0, 32), changes: u.changes, proof: u.proof },
    ));
}

/// The header facts of an encoded data-with-proof record: its length and
/// its pair count.
#[verifier::rlimit(100)]
proof fn lemma_dwp_header(v: DataWithProofData)
    requires
        dwp_wf(v),
    ensures
        enc_dwp(v).len() == 4 + enc_kvs(v.data).len() + enc_bytes(v.proof).len(),
        spec_u32_at(enc_dwp(v), 0) == v.data.len() as int,
{
    let d = enc_dwp(v);
    let n = v.data.len() as int;
    let ecnt = enc_u32(n);
    let ekvs = enc_kvs(v.data);
    let ep = enc_bytes(v.proof);
    assert(d == ecnt + ekvs + ep);
    assert forall|j: int| 0 <= j < 4 implies d[j] == #[trigger] ecnt[j] by {
        assert(d[j] == (ecnt + ekvs)[j]);
        assert((ecnt + ekvs)[j] == ecnt[j]);
    }
    assert(d[0int] == ecnt[0]);
    assert(d[1int] == ecnt[1]);
    assert(d[2int] == ecnt[2]);
    assert(d[3int] == ecnt[3]);
    lemma_u32_identity(n);
}

/// The pairs of an encoded data-with-proof record are parsed back out of
/// it.
#[verifier::rlimit(100)]
proof fn lemma_dwp_kvs(v: DataWithProofData)
    requires
        dwp_wf(v),
    ensures
        dec_kvs(enc_dwp(v), 4, v.data.len()) == Some(
            (v.data, 4 + enc_kvs(v.data).len() as int),
        ),
{
    let d = enc_dwp(v);
    let ecnt = enc_u32(v.data.len() as int);
    let ekvs = enc_kvs(v.data);
    let ep = enc_bytes(v.proof);
    assert(d == ecnt + ekvs + ep);
    assert(d.len() == 4 + ekvs.len() + ep.len());
    assert forall|j: int| 0 <= j < ekvs.len() implies d[4 + j] == #[trigger] ekvs[j] by {
        assert(d[4 + j] == (ecnt + ekvs)[4 + j]);
        assert((ecnt + ekvs)[4 + j] == ekvs[j]);
    }
    lemma_dec_kvs_at(d, 4, v.data);
}

/// The proof bytes of an encoded data-with-proof record are parsed back out
/// of it, consuming the rest of the input.
#[verifier::rlimit(100)]
proof fn lemma_dwp_proof_bytes(v: DataWithProofData)
    requires
        dwp_wf(v),
    ensures
        dec_bytes(enc_dwp(v), 4 + enc_kvs(v.data).len() as int) == Some(
            (v.proof, enc_dwp(v).len() as int),
        ),
{
    let d = enc_dwp(v);
    let ecnt = enc_u32(v.data.len() as int);
    let ekvs = enc_kvs(v.data);
    let ep = enc_bytes(v.proof);
    assert(d == ecnt + ekvs + ep);
    assert(ep.len() == 4 + v.proof.len());
    assert(d.len() == 4 + ekvs.len() + ep.len());
    assert forall|j: int|
        0 <= j < ep.len() implies d[4 + ekvs.len() as int + j] == #[trigger] ep[j] by {
        assert(d[4 + ekvs.len() as int + j] == ep[j]);
    }
    lemma_dec_bytes_at(d, 4 + ekvs.len() as int, v.proof);
}

/// Round trip: decoding the wire form of a data-with-proof record yields
/// exactly that record.
pub proof fn lemma_dwp_roundtrip(v: DataWithProofData)
    requires
        dwp_wf(v),
    ensures
        dec_dwp(enc_dwp(v)) == Some(v),
{
    lemma_dwp_header(v);
    lemma_dwp_kvs(v);
    lemma_dwp_proof_bytes(v);
}

/// Views of a vector of change triples.
pub open spec fn changes_view(cs: Seq<SmtChange>) -> Seq<SmtChangeData> {
    cs.map_values(|c: SmtChange| c@)
}

/// Views of a vector of key/value pairs.
pub open spec fn kvs_view(kvs: Seq<KeyValue>) -> Seq<KeyValueData> {
    kvs.map_values(|kv: KeyValue| kv@)
}

fn read_u32(d: &[u8], i: usize) -> (r: u32)
    requires
        i + 4 <= d@.len(),
    ensures
        r as int == spec_u32_at(d@, i as int),
{
    let b0 = d[i] as u32;
    let b1 = d[i + 1] as u32;
    let b2 = d[i + 2] as u32;
    let b3 = d[i + 3] as u32;
    b0 + 256 * b1 + 65536 * b2 + 16777216 * b3
}

fn read_bytes(d: &[u8], i: usize) -> (r: Option<(Vec<u8>, usize)>)
    requires
        i <= d@.len(),
    ensures
        match (r, dec_bytes(d@, i as int)) {
            (Some((v, j)), Some(p)) => v@ == p.0 && j as int == p.1 && i < j <= d@.len(),
            (None, None) => true,
            _ => false,
        },
{
    if d.len() - i < 4 {
        return None;
    }
    let n = read_u32(d, i);
    let rest = d.len() - (i + 4);
    if n as usize > rest {
        return None;
    }
    let j = i + 4 + (n as usize);
    let v = slice_to_vec(slice_subrange(d, i + 4, j));
    Some((v, j))
}

fn read_opt(d: &[u8], i: usize) -> (r: Option<(Option<Vec<u8>>, usize)>)
    requires
        i <= d@.len(),
    ensures
        match (r, dec_opt(d@, i as int)) {
            (Some((v, j)), Some(p)) => opt_bytes_view(v) == p.0 && j as int == p.1 && i < j
                <= d@.len(),
            (None, None) => true,
            _ => false,
        },
{
    if i >= d.len() {
        return None;
    }
    let tag = d[i];
    if tag == 0 {
        Some((None, i + 1))
    } else if tag == 1 {
        match read_bytes(d, i + 1) {
            Some((v, j)) => Some((Some(v), j)),
            None => None,
        }
    } else {
        None
    }
}

fn read_change(d: &[u8], i: usize) -> (r: Option<(SmtChange, usize)>)
    requires
        i <= d@.len(),
    ensures
        match (r, dec_change(d@, i as int)) {
            (Some((c, j)), Some(p)) => c@ == p.0 && j as int == p.1 && i < j <= d@.len(),
            (None, None) => true,
            _ => false,
        },
{
    let (key, i1) = match read_bytes(d, i) {
        Some(p) => p,
        None => {
            return None;
        },
    };
    let (old_value, i2) = match read_opt(d, i1) {
        Some(p) => p,
        None => {
            return None;
        },
    };
    let (new_value, i3) = match read_opt(d, i2) {
        Some(p) => p,
        None => {
            return None;
        },
    };
    Some((SmtChange { key, old_value, new_value }, i3))
}

fn read_kv(d: &[u8], i: usize) -> (r: Option<(KeyValue, usize)>)
    requires
        i <= d@.len(),
    ensures
        match (r, dec_kv(d@, i as int)) {
            (Some((kv, j)), Some(p)) => kv@ == p.0 && j as int == p.1 && i < j <= d@.len(),
            (None, None) => true,
            _ => false,
        },
{
    let (key, i1) = match read_bytes(d, i) {
        Some(p) => p,
        None => {
            return None;
        },
    };
    let (value, i2) = match read_opt(d, i1) {
        Some(p) => p,
        None => {
            return None;
        },
    };
    Some((KeyValue { key, value }, i2))
}

/// Copies 32 bytes into a digest.
pub fn to_digest(s: &[u8]) -> (r: [u8; 32])
    requires
        s@.len() == 32,
    ensures
        r@ == s@,
{
    let mut a = [0u8; 32];
    let mut i: usize = 0;
    while i < 32
        invariant
            i <= 32,
            s@.len() == 32,
            a@.len() == 32,
            forall|j: int| 0 <= j < i as int ==> a@[j] == s@[j],
        decreases 32 - i,
    {
        a[i] = s[i];
        i += 1;
    }
    proof {
        assert(a@ =~= s@);
    }
    a
}

/// Decodes an update record from its wire form; anything that is not
/// exactly the wire form of one record is rejected.
pub fn decode_smt_update(d: &[u8]) -> (r: Option<SmtUpdate>)
    ensures
        match (r, dec_update(d@)) {
            (Some(u), Some(su)) => u@ == su,
            (None, None) => true,
            _ => false,
        },
{
    if d.len() < 36 {
        return None;
    }
    let new_root = to_digest(slice_subrange(d, 0, 32));
    let n = read_u32(d, 32);
    let mut cs: Vec<SmtChange> = Vec::new();
    let mut cur: usize = 36;
    let mut k: u32 = 0;
    while k < n
        invariant
            k <= n,
            36 <= cur <= d@.len(),
            n as int == spec_u32_at(d@, 32),
            new_root@ == d@.subrange(0, 32),
            match dec_changes(d@, cur as int, (n - k) as nat) {
                Some(p) => dec_changes(d@, 36, n as nat) == Some(
                    (changes_view(cs@) + p.0, p.1),
                ),
                None => dec_changes(d@, 36, n as nat) is None,
            },
        decreases n - k,
    {
        match read_change(d, cur) {
            Some((c, j)) => {
                proof {
                    let ghost cv0 = changes_view(cs@);
                    match dec_changes(d@, j as int, (n - k - 1) as nat) {
                        Some(p) => {
                            assert(dec_changes(d@, cur as int, (n - k) as nat) == Some(
                                (seq![c@] + p.0, p.1),
                            ));
                            assert(cv0 + (seq![c@] + p.0) =~= (cv0 + seq![c@]) + p.0);
                            assert(changes_view(cs@.push(c)) =~= cv0 + seq![c@]);
                        },
                        None => {
                            assert(dec_changes(d@, cur as int, (n - k) as nat) is None);
                        },
                    }
                }
                cs.push(c);
                cur = j;
                k = k + 1;
            },
            None => {
                proof {
                    assert(dec_changes(d@, cur as int, (n - k) as nat) is None);
                }
                return None;
            },
        }
    }
    proof {
        assert(dec_changes(d@, cur as int, 0nat) == Some(
            (Seq::<SmtChangeData>::empty(), cur as int),
        ));
        assert(changes_view(cs@) + Seq::<SmtChangeData>::empty() =~= changes_view(cs@));
    }
    match read_bytes(d, cur) {
        Some((p, j)) => {
            if j == d.len() {
                let u = SmtUpdate { new_root, changes: cs, proof: p };
                proof {
                    assert(u@ == dec_update(d@)->Some_0);
                }
                Some(u)
            } else {
                None
            }
        },
        None => None,
    }
}

/// Decodes a data-with-proof record from its wire form; anything that is
/// not exactly the wire form of one record is rejected.
pub fn decode_data_with_proof(d: &[u8]) -> (r: Option<DataWithProof>)
    ensures
        match (r, dec_dwp(d@)) {
            (Some(v), Some(sv)) => v@ == sv,
            (None, None) => true,
            _ => false,
        },
{
    if d.len() < 4 {
        return None;
    }
    let n = read_u32(d, 0);
    let mut kvs: Vec<KeyValue> = Vec::new();
    let mut cur: usize = 4;
    let mut k: u32 = 0;
    while k < n
        invariant
            k <= n,
            4 <= cur <= d@.len(),
            d@.len() >= 4,
            n as int == spec_u32_at(d@, 0),
            match dec_kvs(d@, cur as int, (n - k) as nat) {
                Some(p) => dec_kvs(d@, 4, n as nat) == Some((kvs_view(kvs@) + p.0, p.1)),
                None => dec_kvs(d@, 4, n as nat) is None,
            },
        decreases n - k,
    {
        match read_kv(d, cur) {
            Some((kv, j)) => {
                proof {
                    let ghost kv0 = kvs_view(kvs@);
                    match dec_kvs(d@, j as int, (n - k - 1) as nat) {
                        Some(p) => {
                            assert(dec_kvs(d@, cur as int, (n - k) as nat) == Some(
                                (seq![kv@] + p.0, p.1),
                            ));
                            assert(kv0 + (seq![kv@] + p.0) =~= (kv0 + seq![kv@]) + p.0);
                            assert(kvs_view(kvs@.push(kv)) =~= kv0 + seq![kv@]);
                        },
                        None => {
                            assert(dec_kvs(d@, cur as int, (n - k) as nat) is None);
                        },
                    }
                }
                kvs.push(kv);
                cur = j;
                k = k + 1;
            },
            None => {
                proof {
                    assert(dec_kvs(d@, cur as int, (n - k) as nat) is None);
                }
                return None;
            },
        }
    }
    proof {
        assert(dec_kvs(d@, cur as int, 0nat) == Some((Seq::<KeyValueData>::empty(), cur as int)));
        assert(kvs_view(kvs@) + Seq::<KeyValueData>::empty() =~= kvs_view(kvs@));
    }
    match read_bytes(d, cur) {
        Some((p, j)) => {
            if j == d.len() {
                let v = DataWithProof { data: kvs, proof: p };
                proof {
                    assert(v@ == dec_dwp(d@)->Some_0);
                }
                Some(v)
            } else {
                None
            }
        },
        None => None,
    }
}

fn write_u32(out: &mut Vec<u8>, n: u32)
    ensures
        final(out)@ == old(out)@ + enc_u32(n as int),
{
    out.push((n % 256) as u8);
    out.push(((n / 256) % 256) as u8);
    out.push(((n / 65536) % 256) as u8);
    out.push(((n / 16777216) % 256) as u8);
    proof {
        assert(out@ =~= old(out)@ + enc_u32(n as int));
    }
}

fn write_raw(out: &mut Vec<u8>, s: &[u8])
    ensures
        final(out)@ == old(out)@ + s@,
{
    let mut i: usize = 0;
    while i < s.len()
        invariant
            i <= s@.len(),
            out@ == old(out)@ + s@.take(i as int),
        decreases s@.len() - i,
    {
        out.push(s[i]);
        proof {
            assert(old(out)@ + s@.take(i as int + 1) =~= (old(out)@ + s@.take(i as int)).push(
                s@[i as int],
            ));
        }
        i += 1;
    }
    proof {
        assert(s@.take(s@.len() as int) =~= s@);
    }
}

fn write_bytes(out: &mut Vec<u8>, s: &[u8])
    requires
        s@.len() < 4294967296,
    ensures
        final(out)@ == old(out)@ + enc_bytes(s@),
{
    write_u32(out, s.len() as u32);
    write_raw(out, s);
    proof {
        assert(out@ =~= old(out)@ + enc_bytes(s@));
    }
}

fn write_opt(out: &mut Vec<u8>, o: &Option<Vec<u8>>)
    requires
        opt_wf(opt_bytes_view(*o)),
    ensures
        final(out)@ == old(out)@ + enc_opt(opt_bytes_view(*o)),
{
    match o {
        None => {
            out.push(0u8);
            proof {
                assert(out@ =~= old(out)@ + enc_opt(None));
            }
        },
        Some(s) => {
            out.push(1u8);
            write_bytes(out, s.as_slice());
            proof {
                assert(out@ =~= old(out)@ + enc_opt(Some(s@)));
            }
        },
    }
}

fn write_change(out: &mut Vec<u8>, c: &SmtChange)
    requires
        change_wf(c@),
    ensures
        final(out)@ == old(out)@ + enc_change(c@),
{
    write_bytes(out, c.key.as_slice());
    write_opt(out, &c.old_value);
    write_opt(out, &c.new_value);
    proof {
        assert(out@ =~= old(out)@ + enc_change(c@));
    }
}

fn write_kv(out: &mut Vec<u8>, kv: &KeyValue)
    requires
        kv_wf(kv@),
    ensures
        final(out)@ == old(out)@ + enc_kv(kv@),
{
    write_bytes(out, kv.key.as_slice());
    write_opt(out, &kv.value);
    proof {
        assert(out@ =~= old(out)@ + enc_kv(kv@));
    }
}

/// Encodes an update record into its wire form.
pub fn encode_smt_update(u: &SmtUpdate) -> (out: Vec<u8>)
    requires
        update_wf(u@),
    ensures
        out@ == enc_update(u@),
{
    let ghost cv = u@.changes;
    let mut out: Vec<u8> = Vec::new();
    write_raw(&mut out, &u.new_root);
    write_u32(&mut out, u.changes.len() as u32);
    let ghost base = out@;
    proof {
        assert(cv.skip(0) =~= cv);
    }
    let mut k: usize = 0;
    while k < u.changes.len()
        invariant
            k <= u.changes@.len(),
            cv == u@.changes,
            cv.len() == u.changes@.len(),
            base == u@.new_root + enc_u32(cv.len() as int),
            forall|j: int| 0 <= j < cv.len() ==> change_wf(#[trigger] cv[j]),
            out@ + enc_changes(cv.skip(k as int)) == base + enc_changes(cv),
        decreases u.changes@.len() - k,
    {
        proof {
            assert(cv.skip(k as int).first() == cv[k as int]);
            assert(cv.skip(k as int).drop_first() =~= cv.skip(k as int + 1));
            assert(cv[k as int] == u.changes@[k as int]@);
        }
        let ghost out0 = out@;
        write_change(&mut out, &u.changes[k]);
        proof {
            assert(enc_changes(cv.skip(k as int)) =~= enc_change(cv[k as int]) + enc_changes(
                cv.skip(k as int + 1),
            ));
            assert(out0 + (enc_change(cv[k as int]) + enc_changes(cv.skip(k as int + 1))) =~= (
            out0 + enc_change(cv[k as int])) + enc_changes(cv.skip(k as int + 1)));
        }
        k += 1;
    }
    proof {
        assert(cv.skip(cv.len() as int) =~= Seq::<SmtChangeData>::empty());
        assert(out@ + Seq::<u8>::empty() =~= out@);
    }
    write_bytes(&mut out, u.proof.as_slice());
    proof {
        assert(out@ =~= enc_update(u@));
    }
    out
}

/// Encodes a data-with-proof record into its wire form.
pub fn encode_data_with_proof(v: &DataWithProof) -> (out: Vec<u8>)
    requires
        dwp_wf(v@),
    ensures
        out@ == enc_dwp(v@),
{
    let ghost kv = v@.data;
    let mut out: Vec<u8> = Vec::new();
    write_u32(&mut out, v.data.len() as u32);
    let ghost base = out@;
    proof {
        assert(kv.skip(0) =~= kv);
    }
    let mut k: usize = 0;
    while k < v.data.len()
        invariant
            k <= v.data@.len(),
            kv == v@.data,
            kv.len() == v.data@.len(),
            base == enc_u32(kv.len() as int),
            forall|j: int| 0 <= j < kv.len() ==> kv_wf(#[trigger] kv[j]),
            out@ + enc_kvs(kv.skip(k as int)) == base + enc_kvs(kv),
        decreases v.data@.len() - k,
    {
        proof {
            assert(kv.skip(k as int).first() == kv[k as int]);
            assert(kv.skip(k as int).drop_first() =~= kv.skip(k as int + 1));
            assert(kv[k as int] == v.data@[k as int]@);
        }
        let ghost out0 = out@;
        write_kv(&mut out, &v.data[k]);
        proof {
            assert(enc_kvs(kv.skip(k as int)) =~= enc_kv(kv[k as int]) + enc_kvs(
                kv.skip(k as int + 1),
            ));
            assert(out0 + (enc_kv(kv[k as int]) + enc_kvs(kv.skip(k as int + 1))) =~= (out0
                + enc_kv(kv[k as int])) + enc_kvs(kv.skip(k as int + 1)));
        }
        k += 1;
    }
    proof {
        assert(kv.skip(kv.len() as int) =~= Seq::<KeyValueData>::empty());
        assert(out@ + Seq::<u8>::empty() =~= out@);
    }
    write_bytes(&mut out, v.proof.as_slice());
    proof {
        assert(out@ =~= enc_dwp(v@));
    }
    out
}

} // verus!
