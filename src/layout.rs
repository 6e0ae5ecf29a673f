use vstd::prelude::*;

verus! {

/// The unsigned integer whose little-endian encoding is `b0 b1 b2 b3`.
pub open spec fn le_u32(b0: u8, b1: u8, b2: u8, b3: u8) -> u32 {
    (b0 as u32) | ((b1 as u32) << 8u32) | ((b2 as u32) << 16u32) | ((b3 as u32) << 24u32)
}

/// The `k`-th 4-byte little-endian integer of `b`.
pub open spec fn int_at(b: Seq<u8>, k: int) -> u32 {
    le_u32(b[4 * k], b[4 * k + 1], b[4 * k + 2], b[4 * k + 3])
}

/// The integers stored in an index file: one per whole 4-byte slot.
pub open spec fn ids_of(b: Seq<u8>) -> Seq<u32> {
    Seq::new((b.len() / 4) as nat, |k: int| int_at(b, k))
}

/// Strictly ascending, hence free of duplicates.
pub open spec fn strictly_sorted(s: Seq<u32>) -> bool {
    forall|i: int, j: int| 0 <= i < j < s.len() ==> s[i] < s[j]
}

/// A well-formed index file: whole slots holding a strictly ascending array.
pub open spec fn is_index(b: Seq<u8>) -> bool {
    b.len() % 4 == 0 && strictly_sorted(ids_of(b))
}

/// Slots that lie in a common prefix of two byte strings decode alike.
pub proof fn lemma_slots_kept(a: Seq<u8>, b: Seq<u8>, n: int)
    requires
        0 <= 4 * n <= a.len(),
        4 * n <= b.len(),
        a.subrange(0, 4 * n) == b.subrange(0, 4 * n),
    ensures
        forall|j: int| 0 <= j < n ==> #[trigger] int_at(a, j) == int_at(b, j),
{
    assert forall|j: int| 0 <= j < n implies #[trigger] int_at(a, j) == int_at(b, j) by {
        let p = a.subrange(0, 4 * n);
        assert(a[4 * j] == p[4 * j] && b[4 * j] == p[4 * j]);
        assert(a[4 * j + 1] == p[4 * j + 1] && b[4 * j + 1] == p[4 * j + 1]);
        assert(a[4 * j + 2] == p[4 * j + 2] && b[4 * j + 2] == p[4 * j + 2]);
        assert(a[4 * j + 3] == p[4 * j + 3] && b[4 * j + 3] == p[4 * j + 3]);
    }
}

pub proof fn lemma_le_bytes(v: u32)
    ensures
        le_u32(
            (v & 0xff) as u8,
            ((v >> 8u32) & 0xff) as u8,
            ((v >> 16u32) & 0xff) as u8,
            ((v >> 24u32) & 0xff) as u8,
        ) == v,
{
    assert(((((v & 0xff) as u8) as u32) | (((((v >> 8u32) & 0xff) as u8) as u32) << 8u32) | (
    ((((v >> 16u32) & 0xff) as u8) as u32) << 16u32) | (((((v >> 24u32) & 0xff) as u8) as u32)
        << 24u32)) == v) by (bit_vector);
}

} // verus!

verus! {

/// Bytes in one record of the value store.
pub const RECORD_SIZE: usize = 256;

/// Longest payload a record can hold.
pub const MAX_VALUE_LENGTH: usize = 251;

/// Bytes of a record compared when looking a value up: the length byte,
/// the payload and its zero padding.
pub const KEY_SIZE: usize = 252;

/// Number of whole records in a value store.
pub open spec fn num_records(d: Seq<u8>) -> int {
    (d.len() / 256) as int
}

/// Payload of the `k`-th record.
pub open spec fn rec_value(d: Seq<u8>, k: int) -> Seq<u8> {
    d.subrange(256 * k + 1, 256 * k + 1 + d[256 * k] as int)
}

/// Length byte, payload and padding of the `k`-th record.
pub open spec fn rec_key(d: Seq<u8>, k: int) -> Seq<u8> {
    d.subrange(256 * k, 256 * k + 252)
}

/// ID stored in the last four bytes of the `k`-th record.
pub open spec fn rec_id(d: Seq<u8>, k: int) -> u32 {
    int_at(d, 64 * k + 63)
}

/// The IDs of the store's records, in file order.
pub open spec fn rec_ids(d: Seq<u8>) -> Seq<u32> {
    Seq::new(num_records(d) as nat, |k: int| rec_id(d, k))
}

/// What a record holds before its ID: the length, the payload, then zeros.
pub open spec fn needle_of(v: Seq<u8>) -> Seq<u8> {
    Seq::new(252, |i: int| if i == 0 { v.len() as u8 } else if i <= v.len() { v[i - 1] } else { 0 })
}

/// The `k`-th record's payload is within bounds and padded with zeros.
pub open spec fn record_ok(d: Seq<u8>, k: int) -> bool {
    d[256 * k] <= 251 && rec_key(d, k) == needle_of(rec_value(d, k))
}

/// A well-formed value store: whole records, each payload within bounds and
/// padded with zeros, IDs strictly ascending in file order.
pub open spec fn is_store(d: Seq<u8>) -> bool {
    &&& d.len() % 256 == 0
    &&& (forall|k: int| 0 <= k < num_records(d) ==> #[trigger] record_ok(d, k))
    &&& strictly_sorted(rec_ids(d))
}

/// No two records of the store hold the same payload.
pub open spec fn distinct_values(d: Seq<u8>) -> bool {
    forall|k1: int, k2: int|
        0 <= k1 < num_records(d) && 0 <= k2 < num_records(d) && k1 != k2 ==> rec_value(d, k1)
            != rec_value(d, k2)
}

/// The record of the store that holds `id`, if any.
pub open spec fn has_record(d: Seq<u8>, id: u32, v: Seq<u8>) -> bool {
    exists|k: int| 0 <= k < num_records(d) && rec_id(d, k) == id && rec_value(d, k) == v
}

/// Equal needles come from equal payloads.
pub proof fn lemma_needle_injective(a: Seq<u8>, b: Seq<u8>)
    requires
        a.len() <= 251,
        b.len() <= 251,
        needle_of(a) == needle_of(b),
    ensures
        a == b,
{
    assert(needle_of(a)[0] == a.len() as u8);
    assert(needle_of(b)[0] == b.len() as u8);
    assert(a.len() == b.len());
    assert forall|i: int| 0 <= i < a.len() implies a[i] == b[i] by {
        assert(needle_of(a)[i + 1] == a[i]);
        assert(needle_of(b)[i + 1] == b[i]);
    }
    assert(a =~= b);
}

} // verus!

verus! {

/// Whether some record of the store holds payload `v`.
pub open spec fn holds_value(d: Seq<u8>, v: Seq<u8>) -> bool {
    exists|k: int| 0 <= k < num_records(d) && rec_value(d, k) == v
}

/// The ID that the next new record receives: one past the last, or 1.
pub open spec fn next_id(d: Seq<u8>) -> int {
    if num_records(d) == 0 {
        1
    } else {
        rec_id(d, num_records(d) - 1) + 1
    }
}

/// The four little-endian bytes of `v`.
pub open spec fn le_bytes(v: u32) -> Seq<u8> {
    seq![
        (v & 0xff) as u8,
        ((v >> 8u32) & 0xff) as u8,
        ((v >> 16u32) & 0xff) as u8,
        ((v >> 24u32) & 0xff) as u8,
    ]
}

/// The record that stores payload `v` under `id`.
pub open spec fn record_of(v: Seq<u8>, id: u32) -> Seq<u8> {
    needle_of(v) + le_bytes(id)
}

} // verus!

verus! {

/// Appending a record for a new payload under the next ID keeps the store
/// well-formed and its payloads distinct.
pub proof fn lemma_append_record(d: Seq<u8>, v: Seq<u8>, id: u32)
    requires
        is_store(d),
        v.len() <= 251,
        id == next_id(d),
        !holds_value(d, v),
    ensures
        is_store(d + record_of(v, id)),
        distinct_values(d) ==> distinct_values(d + record_of(v, id)),
        num_records(d + record_of(v, id)) == num_records(d) + 1,
        rec_value(d + record_of(v, id), num_records(d)) == v,
        rec_id(d + record_of(v, id), num_records(d)) == id,
        forall|k: int|
            0 <= k < num_records(d) ==> rec_value(d + record_of(v, id), k) == rec_value(d, k)
                && rec_id(d + record_of(v, id), k) == rec_id(d, k),
{
    let e = d + record_of(v, id);
    let n = num_records(d);
    lemma_le_bytes(id);
    assert(e.len() == d.len() + 256);
    assert(num_records(e) == n + 1);
    assert forall|k: int| 0 <= k < n implies rec_value(e, k) == rec_value(d, k) && rec_id(e, k)
        == rec_id(d, k) && rec_key(e, k) == rec_key(d, k) && e[256 * k] == d[256 * k] by {
        assert(rec_value(e, k) =~= rec_value(d, k));
        assert(rec_key(e, k) =~= rec_key(d, k));
    }
    assert(e[256 * n] == needle_of(v)[0]);
    assert(e[256 * n] == v.len());
    assert(rec_value(e, n) =~= v) by {
        assert forall|i: int| 0 <= i < v.len() implies rec_value(e, n)[i] == v[i] by {
            assert(e[256 * n + 1 + i] == needle_of(v)[1 + i]);
        }
    }
    assert(rec_key(e, n) =~= needle_of(v));
    assert(rec_id(e, n) == id) by {
        assert(e[256 * n + 252] == le_bytes(id)[0]);
        assert(e[256 * n + 253] == le_bytes(id)[1]);
        assert(e[256 * n + 254] == le_bytes(id)[2]);
        assert(e[256 * n + 255] == le_bytes(id)[3]);
    }
    assert forall|k: int| 0 <= k < num_records(e) implies #[trigger] record_ok(e, k) by {
        if k < n {
            assert(record_ok(d, k));
            assert(rec_value(e, k) =~= rec_value(d, k));
            assert(rec_key(e, k) =~= rec_key(d, k));
            assert(e[256 * k] == d[256 * k]);
        } else {
            assert(k == n);
            assert(e[256 * n] <= 251);
        }
    }
    assert forall|i: int, j: int| 0 <= i < j < rec_ids(e).len() implies rec_ids(e)[i] < rec_ids(
        e,
    )[j] by {
        assert(rec_ids(e)[i] == rec_id(e, i));
        assert(rec_ids(e)[j] == rec_id(e, j));
        assert(rec_id(e, i) == rec_id(d, i));
        if j < n {
            assert(rec_id(e, j) == rec_id(d, j));
            assert(rec_ids(d)[i] < rec_ids(d)[j]);
        } else if i < n - 1 {
            assert(rec_ids(d)[i] < rec_ids(d)[n - 1]);
        }
    }
    assert(e.len() % 256 == 0);
    if distinct_values(d) {
        assert forall|k1: int, k2: int|
            0 <= k1 < num_records(e) && 0 <= k2 < num_records(e) && k1 != k2 implies rec_value(
            e,
            k1,
        ) != rec_value(e, k2) by {
            if k1 == n {
                assert(rec_value(d, k2) != v);
            } else if k2 == n {
                assert(rec_value(d, k1) != v);
            }
        }
    }
}

} // verus!
