use vstd::prelude::*;
use crate::layout::{
    KEY_SIZE, MAX_VALUE_LENGTH, RECORD_SIZE, distinct_values, has_record, holds_value, int_at,
    ids_of, is_index, is_store, lemma_append_record, lemma_needle_injective, lemma_slots_kept,
    needle_of, next_id, record_ok, num_records, rec_id, rec_ids, rec_key, rec_value, record_of,
};
use crate::qry::{
    TagCtx, find, lemma_lookup_remove, lemma_lookup_unique, lookup, lookup_tag, names_unique,
    read_int, tag_ok, write_int,
};
use crate::select::lemma_sorted_unique;
use crate::{TagName, Value, ID};

verus! {

/// Adds `id` to a sorted index: nothing changes when it is already there;
/// otherwise the entries from the insertion point on move one slot forward and
/// `id` fills the opening, so the array stays strictly ascending.
pub fn insert_tag_in_map(map: &mut Vec<u8>, id: ID)
    requires
        is_index(old(map)@),
        old(map)@.len() + 4 <= usize::MAX,
    ensures
        is_index(final(map)@),
        ids_of(old(map)@).contains(id.0) ==> final(map)@ == old(map)@,
        !ids_of(old(map)@).contains(id.0) ==> ids_of(final(map)@).len() == ids_of(old(map)@).len()
            + 1,
        forall|x: u32|
            ids_of(final(map)@).contains(x) <==> (ids_of(old(map)@).contains(x) || x == id.0),
{
    if find(map.as_slice(), id) {
        return;
    }
    let ghost s = ids_of(map@);
    let n = map.len() / 4;
    let mut p: usize = 0;
    while p < n && read_int(map.as_slice(), p) < id.0
        invariant
            s == ids_of(map@),
            n == s.len(),
            map@.len() == 4 * n,
            p <= n,
            forall|k: int| 0 <= k < p ==> s[k] < id.0,
        decreases n - p,
    {
        p = p + 1;
    }
    assert forall|k: int| p <= k < n implies s[k] > id.0 by {
        assert(s[p as int] >= id.0);
        assert(s[p as int] != id.0);
    }
    let ghost before = map@;
    map.push(0);
    map.push(0);
    map.push(0);
    map.push(0);
    proof {
        assert(map@.subrange(0, 4 * n) =~= before.subrange(0, 4 * n));
        lemma_slots_kept(map@, before, n as int);
    }
    let mut k: usize = n;
    while k > p
        invariant
            p <= k <= n,
            map@.len() == 4 * n + 4,
            s.len() == n,
            forall|j: int| 0 <= j < k ==> int_at(map@, j) == s[j],
            forall|j: int| k < j <= n ==> int_at(map@, j) == s[j - 1],
        decreases k,
    {
        let v = read_int(map.as_slice(), k - 1);
        write_int(map, k, v);
        k = k - 1;
    }
    write_int(map, p, id.0);
    let ghost r = s.take(p as int).push(id.0) + s.skip(p as int);
    assert(ids_of(map@) =~= r);
    assert forall|x: u32| r.contains(x) <==> (s.contains(x) || x == id.0) by {
        if s.contains(x) {
            let j = choose|j: int| 0 <= j < s.len() && s[j] == x;
            if j < p {
                assert(r[j] == x);
            } else {
                assert(r[j + 1] == x);
            }
        }
        if x == id.0 {
            assert(r[p as int] == x);
        }
    }
}

/// Takes `id` out of a sorted index: nothing changes when it is absent;
/// otherwise the entries after it move one slot back and the array loses its
/// last slot.
pub fn remove_tag_from_map(map: &mut Vec<u8>, id: ID)
    requires
        is_index(old(map)@),
    ensures
        is_index(final(map)@),
        !ids_of(old(map)@).contains(id.0) ==> final(map)@ == old(map)@,
        ids_of(old(map)@).contains(id.0) ==> ids_of(final(map)@).len() + 1 == ids_of(
            old(map)@,
        ).len(),
        forall|x: u32|
            ids_of(final(map)@).contains(x) <==> (ids_of(old(map)@).contains(x) && x != id.0),
{
    if !find(map.as_slice(), id) {
        return;
    }
    let ghost s = ids_of(map@);
    let n = map.len() / 4;
    let mut p: usize = 0;
    while read_int(map.as_slice(), p) != id.0
        invariant
            s == ids_of(map@),
            n == s.len(),
            map@.len() == 4 * n,
            p < n,
            s.contains(id.0),
            forall|k: int| 0 <= k < p ==> s[k] != id.0,
        decreases n - p,
    {
        p = p + 1;
        assert(p < n) by {
            let j = choose|j: int| 0 <= j < s.len() && s[j] == id.0;
        }
    }
    let ghost p0 = p;
    assert(s[p0 as int] == id.0);
    let mut k: usize = p;
    while k + 1 < n
        invariant
            p0 <= k < n,
            map@.len() == 4 * n,
            s.len() == n,
            forall|j: int| 0 <= j < p0 ==> int_at(map@, j) == s[j],
            forall|j: int| p0 <= j < k ==> int_at(map@, j) == s[j + 1],
            forall|j: int| k < j < n ==> int_at(map@, j) == s[j],
        decreases n - k,
    {
        let v = read_int(map.as_slice(), k + 1);
        write_int(map, k, v);
        k = k + 1;
    }
    let ghost before = map@;
    map.truncate(4 * n - 4);
    proof {
        assert(map@.subrange(0, 4 * n - 4) =~= before.subrange(0, 4 * n - 4));
        lemma_slots_kept(map@, before, n - 1);
    }
    let ghost r = s.take(p0 as int) + s.skip(p0 + 1);
    assert(ids_of(map@) =~= r);
    assert forall|x: u32| r.contains(x) <==> (s.contains(x) && x != id.0) by {
        if s.contains(x) && x != id.0 {
            let j = choose|j: int| 0 <= j < s.len() && s[j] == x;
            if j < p0 {
                assert(r[j] == x);
            } else {
                assert(j != p0);
                assert(r[j - 1] == x);
            }
        }
        if r.contains(x) {
            let j = choose|j: int| 0 <= j < r.len() && r[j] == x;
            if j < p0 {
                assert(s[j] == x);
            } else {
                assert(s[j + 1] == x);
                assert(s[p0 as int] < s[j + 1]);
            }
        }
    }
}

} // verus!

verus! {

/// Why a store operation was refused.
#[derive(Clone, Copy, PartialEq, Eq, Debug, Structural)]
pub enum StoreError {
    /// The payload is longer than `MAX_VALUE_LENGTH` bytes.
    ValueTooLarge,
    /// Every ID has been handed out.
    IdsExhausted,
    /// Stored bytes break the store's layout.
    Corrupted,
}

/// The payload of the `off`-th record.
pub fn value_from_off(datamap: &[u8], off: usize) -> (r: Value)
    requires
        off < num_records(datamap@),
        datamap@[256 * off] <= 251,
    ensures
        r.0@ == rec_value(datamap@, off as int),
{
    let total = datamap.len();
    let base = off * RECORD_SIZE;
    let len = datamap[base] as usize;
    let mut bytes: Vec<u8> = Vec::new();
    let mut i: usize = 0;
    while i < len
        invariant
            base == 256 * off,
            base + 256 <= datamap@.len(),
            len == datamap@[base as int],
            len <= 251,
            i <= len,
            bytes@ == datamap@.subrange(base + 1, base + 1 + i),
        decreases len - i,
    {
        bytes.push(datamap[base + 1 + i]);
        i = i + 1;
        assert(bytes@ =~= datamap@.subrange(base + 1, base + 1 + i));
    }
    Value(bytes)
}

/// Looks up the payload stored under `needle` by binary search over the
/// records' IDs.
pub fn data(datamap: &[u8], needle: ID) -> (r: Option<Value>)
    requires
        is_store(datamap@),
    ensures
        r is None <==> !rec_ids(datamap@).contains(needle.0),
        r matches Some(v) ==> has_record(datamap@, needle.0, v.0@),
{
    let ghost s = rec_ids(datamap@);
    let mut left: usize = 0;
    let total = datamap.len();
    let mut right: usize = total / RECORD_SIZE;
    while left < right
        invariant
            s == rec_ids(datamap@),
            is_store(datamap@),
            total == datamap@.len(),
            0 <= left <= right <= s.len(),
            forall|i: int| 0 <= i < left ==> s[i] < needle.0,
            forall|i: int| right <= i < s.len() ==> s[i] > needle.0,
        decreases right - left,
    {
        let middle = left + (right - left) / 2;
        let v = read_int(datamap, middle * 64 + 63);
        assert(v == s[middle as int]);
        if v == needle.0 {
            assert(record_ok(datamap@, middle as int));
            let r = value_from_off(datamap, middle);
            return Some(r);
        }
        if v > needle.0 {
            right = middle;
        } else {
            left = middle + 1;
        }
    }
    assert(!s.contains(needle.0)) by {
        if s.contains(needle.0) {
            let j = choose|j: int| 0 <= j < s.len() && s[j] == needle.0;
        }
    }
    None
}

/// Finds the record whose length byte, payload and padding equal `needle`.
pub fn search_data(data: &[u8], needle: &[u8]) -> (r: Option<ID>)
    requires
        needle@.len() == 252,
        data@.len() % 256 == 0,
    ensures
        r is None <==> forall|k: int|
            0 <= k < num_records(data@) ==> rec_key(data@, k) != needle@,
        r matches Some(id) ==> exists|k: int|
            0 <= k < num_records(data@) && rec_key(data@, k) == needle@ && rec_id(data@, k) == id.0
                && forall|j: int| 0 <= j < k ==> rec_key(data@, j) != needle@,
{
    let total = data.len();
    let n = total / RECORD_SIZE;
    let mut i: usize = 0;
    while i < n
        invariant
            n == num_records(data@),
            data@.len() == 256 * n,
            total == data@.len(),
            needle@.len() == 252,
            i <= n,
            forall|k: int| 0 <= k < i ==> rec_key(data@, k) != needle@,
        decreases n - i,
    {
        let base = i * RECORD_SIZE;
        let mut j: usize = 0;
        while j < KEY_SIZE && data[base + j] == needle[j]
            invariant
                base == 256 * i,
                base + 256 <= data@.len(),
                needle@.len() == 252,
                j <= 252,
                forall|t: int| 0 <= t < j ==> data@[base + t] == needle@[t],
            decreases 252 - j,
        {
            j = j + 1;
        }
        if j == KEY_SIZE {
            assert(rec_key(data@, i as int) =~= needle@);
            let r = ID(read_int(data, i * 64 + 63));
            assert(forall|t: int| 0 <= t < i ==> rec_key(data@, t) != needle@);
            return Some(r);
        }
        assert(rec_key(data@, i as int)[j as int] != needle@[j as int]);
        i = i + 1;
    }
    None
}

/// The record prefix that `value` is stored and looked up under.
fn prepare_data_needle(value: &Value) -> (r: Vec<u8>)
    requires
        value.0@.len() <= 251,
    ensures
        r@ == needle_of(value.0@),
{
    let len = value.0.len();
    let mut bytes: Vec<u8> = Vec::new();
    bytes.push(len as u8);
    let mut i: usize = 0;
    while i < KEY_SIZE - 1
        invariant
            len == value.0@.len(),
            len <= 251,
            i <= 251,
            bytes@.len() == i + 1,
            forall|t: int| 0 <= t < i + 1 ==> bytes@[t] == needle_of(value.0@)[t],
        decreases 251 - i,
    {
        if i < len {
            bytes.push(value.0[i]);
        } else {
            bytes.push(0);
        }
        i = i + 1;
    }
    assert(bytes@ =~= needle_of(value.0@));
    bytes
}

} // verus!

verus! {

/// Stores `value` unless a record already holds it. Returns the value's ID
/// and whether a record was appended.
pub fn insert_data(datamap: &mut Vec<u8>, value: &Value) -> (r: Result<(ID, bool), StoreError>)
    requires
        is_store(old(datamap)@),
        old(datamap)@.len() + 256 <= usize::MAX,
    ensures
        is_store(final(datamap)@),
        distinct_values(old(datamap)@) ==> distinct_values(final(datamap)@),
        (r == Err::<(ID, bool), StoreError>(StoreError::ValueTooLarge)) <==> value.0@.len() > 251,
        (r == Err::<(ID, bool), StoreError>(StoreError::IdsExhausted)) <==> (value.0@.len() <= 251
            && !holds_value(old(datamap)@, value.0@) && next_id(old(datamap)@) > u32::MAX),
        r matches Ok((id, false)) ==> holds_value(old(datamap)@, value.0@) && has_record(
            old(datamap)@,
            id.0,
            value.0@,
        ),
        r matches Ok((id, true)) ==> !holds_value(old(datamap)@, value.0@) && id.0 == next_id(
            old(datamap)@,
        ) && final(datamap)@ == old(datamap)@ + record_of(value.0@, id.0),
        (r is Ok && value.0@.len() <= 251 && holds_value(old(datamap)@, value.0@)) ==> r matches Ok(
            (_, false),
        ),
        !(r matches Ok((_, true))) ==> final(datamap)@ == old(datamap)@,
        r matches Ok((id, _)) ==> has_record(final(datamap)@, id.0, value.0@),
        r is Ok <==> (value.0@.len() <= 251 && (holds_value(old(datamap)@, value.0@) || next_id(
            old(datamap)@,
        ) <= u32::MAX)),
{
    let ghost d = datamap@;
    if value.0.len() > MAX_VALUE_LENGTH {
        return Err(StoreError::ValueTooLarge);
    }
    let mut bytes = prepare_data_needle(value);
    if let Some(id) = search_data(datamap.as_slice(), bytes.as_slice()) {
        proof {
            let k = choose|k: int|
                0 <= k < num_records(d) && rec_key(d, k) == needle_of(value.0@) && rec_id(d, k)
                    == id.0;
            assert(record_ok(d, k));
            lemma_needle_injective(rec_value(d, k), value.0@);
        }
        return Ok((id, false));
    }
    assert(!holds_value(d, value.0@)) by {
        if holds_value(d, value.0@) {
            let k = choose|k: int| 0 <= k < num_records(d) && rec_value(d, k) == value.0@;
            assert(record_ok(d, k));
        }
    }
    let total = datamap.len();
    let newid: u32 = if total == 0 {
        1
    } else {
        let last = read_int(datamap.as_slice(), total / 4 - 1);
        assert(last == rec_id(d, num_records(d) - 1));
        if last == u32::MAX {
            return Err(StoreError::IdsExhausted);
        }
        last + 1
    };
    bytes.push(#[verifier::truncate] ((newid & 0xff) as u8));
    bytes.push(#[verifier::truncate] (((newid >> 8u32) & 0xff) as u8));
    bytes.push(#[verifier::truncate] (((newid >> 16u32) & 0xff) as u8));
    bytes.push(#[verifier::truncate] (((newid >> 24u32) & 0xff) as u8));
    assert(bytes@ =~= record_of(value.0@, newid));
    datamap.append(&mut bytes);
    proof {
        lemma_append_record(d, value.0@, newid);
        assert(has_record(datamap@, newid, value.0@)) by {
            assert(rec_id(datamap@, num_records(d)) == newid);
        }
    }
    Ok((ID(newid), true))
}

} // verus!

verus! {

/// Room for one more record and one more slot in every index.
pub open spec fn has_room(ctx: &TagCtx) -> bool {
    &&& ctx.datamap@.len() + 256 <= usize::MAX
    &&& ctx.allmap@.len() + 4 <= usize::MAX
    &&& forall|k: int| 0 <= k < ctx.mapped_tags@.len() ==> (#[trigger] ctx.mapped_tags@[k]).1@.len() + 4 <= usize::MAX
}

/// The IDs of tag `name`, empty when it has no index.
pub open spec fn tag_ids(ctx: &TagCtx, name: Seq<char>) -> Seq<u32> {
    match ctx.index_of(name) {
        Some(b) => ids_of(b),
        None => Seq::empty(),
    }
}

/// Tags `value` with `tag`: the value is stored unless a record already holds
/// it, a new ID joins the All-Index, and the ID joins the tag's index, which
/// is created if the tag had none. Returns the value's ID.
pub fn add_tag(ctx: &mut TagCtx, tag: &TagName, value: &Value) -> (r: Result<ID, StoreError>)
    requires
        old(ctx).wf(),
        has_room(old(ctx)),
    ensures
        final(ctx).wf(),
        distinct_values(old(ctx).datamap@) ==> distinct_values(final(ctx).datamap@),
        (r == Err::<ID, StoreError>(StoreError::ValueTooLarge)) <==> value.0@.len() > 251,
        r is Ok <==> (value.0@.len() <= 251 && (holds_value(old(ctx).datamap@, value.0@) || next_id(
            old(ctx).datamap@,
        ) <= u32::MAX)),
        r is Err ==> final(ctx).datamap@ == old(ctx).datamap@ && final(ctx).allmap@ == old(
            ctx,
        ).allmap@ && final(ctx).mapped_tags@ == old(ctx).mapped_tags@,
        r matches Ok(id) ==> {
            &&& has_record(final(ctx).datamap@, id.0, value.0@)
            &&& final(ctx).index_of(tag@) is Some
            &&& forall|x: u32|
                tag_ids(final(ctx), tag@).contains(x) <==> (tag_ids(old(ctx), tag@).contains(x) || x
                    == id.0)
            &&& forall|n: Seq<char>| n != tag@ ==> #[trigger] final(ctx).index_of(n) == old(ctx).index_of(n)
            &&& forall|x: u32|
                #[trigger] final(ctx).all_ids().contains(x) <==> (old(ctx).all_ids().contains(x) || x
                    == id.0)
            &&& holds_value(old(ctx).datamap@, value.0@) ==> final(ctx).datamap@ == old(ctx).datamap@
                && final(ctx).allmap@ == old(ctx).allmap@ && has_record(old(ctx).datamap@, id.0, value.0@)
            &&& !holds_value(old(ctx).datamap@, value.0@) ==> final(ctx).datamap@ == old(ctx).datamap@
                + record_of(value.0@, id.0) && id.0 == next_id(old(ctx).datamap@)
            &&& tag_ids(old(ctx), tag@).contains(id.0) ==> final(ctx).index_of(tag@) == old(ctx).index_of(tag@)
        },
{
    let ghost o = *ctx;
    let (id, inserted) = match insert_data(&mut ctx.datamap, value) {
        Ok(p) => p,
        Err(e) => {
            assert(ctx.datamap@ == o.datamap@);
            assert(ctx.mapped_tags == o.mapped_tags);
            assert(ctx.allmap == o.allmap);
            assert(ctx.all_ids() == o.all_ids());
            assert(rec_ids(ctx.datamap@) == rec_ids(o.datamap@));
            assert(ctx.wf());
            return Err(e);
        },
    };
    proof {
        if inserted {
            lemma_append_record(o.datamap@, value.0@, id.0);
            assert forall|x: u32| #[trigger] rec_ids(ctx.datamap@).contains(x) <==> (rec_ids(o.datamap@).contains(x) || x == id.0) by {
                let n = num_records(o.datamap@);
                if rec_ids(ctx.datamap@).contains(x) {
                    let k = choose|k: int| 0 <= k < rec_ids(ctx.datamap@).len() && rec_ids(ctx.datamap@)[k] == x;
                    if k < n {
                        assert(rec_ids(o.datamap@)[k] == x);
                    }
                }
                if rec_ids(o.datamap@).contains(x) {
                    let k = choose|k: int| 0 <= k < rec_ids(o.datamap@).len() && rec_ids(o.datamap@)[k] == x;
                    assert(rec_ids(ctx.datamap@)[k] == x);
                }
                if x == id.0 {
                    assert(rec_ids(ctx.datamap@)[n] == x);
                }
            }
        } else {
            let k = choose|k: int| 0 <= k < num_records(o.datamap@) && rec_id(o.datamap@, k) == id.0 && rec_value(o.datamap@, k) == value.0@;
            assert(rec_ids(o.datamap@)[k] == id.0);
            assert(o.all_ids().contains(id.0));
        }
    }
    if inserted {
        insert_tag_in_map(&mut ctx.allmap, id);
    }
    let ghost all2 = ids_of(ctx.allmap@);
    assert(all2.contains(id.0));
    assert forall|x: u32| #[trigger] all2.contains(x) <==> rec_ids(ctx.datamap@).contains(x) by {
        assert(o.all_ids().contains(x) <==> rec_ids(o.datamap@).contains(x));
        if !inserted {
            assert(all2 == o.all_ids());
        }
    }
    assert forall|x: u32| o.all_ids().contains(x) implies #[trigger] all2.contains(x) by {
        assert(o.all_ids().contains(x) <==> rec_ids(o.datamap@).contains(x));
    }
    let found = lookup_tag(&ctx.mapped_tags, tag);
    proof {
        lemma_lookup_unique(o.mapped_tags@, tag@);
    }
    let mut bytes: Vec<u8> = match found {
        Some(k) => {
            proof {
                lemma_lookup_remove(o.mapped_tags@, k as int);
                assert(tag_ok(o.mapped_tags@[k as int].1@, o.all_ids()));
            }
            let (_name, b) = ctx.mapped_tags.remove(k);
            b
        },
        None => {
            assert(ids_of(Seq::<u8>::empty()) =~= Seq::<u32>::empty());
            Vec::new()
        },
    };
    let ghost b0 = bytes@;
    assert(ids_of(b0) == tag_ids(&o, tag@));
    insert_tag_in_map(&mut bytes, id);
    let ghost rest = ctx.mapped_tags@;
    ctx.mapped_tags.push((tag.duplicate(), bytes));
    proof {
        let tags2 = ctx.mapped_tags@;
        assert(tags2.drop_last() == rest);
        assert forall|j: int| 0 <= j < rest.len() implies #[trigger] rest[j].0@ != tag@ by {
            if found is None {
                assert(rest == o.mapped_tags@);
            }
        }
        assert forall|j: int| 0 <= j < rest.len() implies #[trigger] tag_ok(rest[j].1@, all2) by {
            if let Some(k) = found {
                let j2 = if j < k { j } else { j + 1 };
                assert(rest[j] == o.mapped_tags@[j2]);
                assert(tag_ok(o.mapped_tags@[j2].1@, o.all_ids()));
            } else {
                assert(tag_ok(o.mapped_tags@[j].1@, o.all_ids()));
            }
        }
        assert forall|k: int| 0 <= k < tags2.len() implies #[trigger] tag_ok(tags2[k].1@, all2) by {
            if k < rest.len() {
                assert(tags2[k] == rest[k]);
            } else {
                assert forall|i: int| 0 <= i < ids_of(bytes@).len() implies all2.contains(#[trigger] ids_of(bytes@)[i]) by {
                    assert(ids_of(bytes@).contains(ids_of(bytes@)[i]));
                    if ids_of(bytes@)[i] != id.0 {
                        assert(ids_of(b0).contains(ids_of(bytes@)[i]));
                        let t = choose|t: int| 0 <= t < ids_of(b0).len() && ids_of(b0)[t] == ids_of(bytes@)[i];
                        if let Some(k) = found {
                            assert(tag_ok(o.mapped_tags@[k as int].1@, o.all_ids()));
                        }
                    }
                }
            }
        }
        assert(names_unique(tags2)) by {
            assert forall|i: int, j: int| 0 <= i < j < tags2.len() implies tags2[i].0@ != tags2[j].0@ by {
                if j == tags2.len() - 1 {
                    assert(tags2[i] == rest[i]);
                } else {
                    assert(tags2[i] == rest[i] && tags2[j] == rest[j]);
                    if let Some(k) = found {
                        assert(names_unique(o.mapped_tags@.remove(k as int)));
                    }
                }
            }
        }
        assert forall|n: Seq<char>| n != tag@ implies #[trigger] ctx.index_of(n) == o.index_of(n) by {
            assert(lookup(tags2, n) == lookup(rest, n));
        }
        assert(ctx.index_of(tag@) == Some(bytes@));
        assert(is_index(ctx.allmap@));
        assert(is_store(ctx.datamap@));
        assert(forall|x: u32| #[trigger] ctx.all_ids().contains(x) <==> rec_ids(ctx.datamap@).contains(x));
        assert(forall|k: int| 0 <= k < ctx.mapped_tags@.len() ==> #[trigger] tag_ok(ctx.mapped_tags@[k].1@, ctx.all_ids()));
        assert(names_unique(ctx.mapped_tags@));
        if tag_ids(&o, tag@).contains(id.0) {
            assert(bytes@ == b0);
            if let Some(k) = found {
                assert(o.index_of(tag@) == Some(o.mapped_tags@[k as int].1@));
            }
        }
    }
    Ok(id)
}

} // verus!

verus! {

/// The ID of the first record holding payload `v`, if any.
pub open spec fn id_of_value(d: Seq<u8>, v: Seq<u8>) -> Option<u32> {
    if holds_value(d, v) {
        Some(
            rec_id(
                d,
                choose|k: int|
                    0 <= k < num_records(d) && rec_value(d, k) == v && forall|j: int|
                        0 <= j < k ==> rec_value(d, j) != v,
            ),
        )
    } else {
        None
    }
}

/// Takes tag `tag` off `value`: the value's ID leaves the tag's index, and an
/// index left empty is dropped. The value store and the All-Index keep the
/// value.
pub fn del_tag(ctx: &mut TagCtx, tag: &TagName, value: &Value) -> (r: Result<(), StoreError>)
    requires
        old(ctx).wf(),
    ensures
        final(ctx).wf(),
        (r == Err::<(), StoreError>(StoreError::ValueTooLarge)) <==> value.0@.len() > 251,
        r is Err ==> r == Err::<(), StoreError>(StoreError::ValueTooLarge),
        final(ctx).datamap@ == old(ctx).datamap@,
        final(ctx).allmap@ == old(ctx).allmap@,
        forall|n: Seq<char>| n != tag@ ==> #[trigger] final(ctx).index_of(n) == old(ctx).index_of(n),
        r is Err ==> final(ctx).index_of(tag@) == old(ctx).index_of(tag@),
        r is Ok ==> forall|x: u32|
            #[trigger] tag_ids(final(ctx), tag@).contains(x) <==> (tag_ids(old(ctx), tag@).contains(x)
                && id_of_value(old(ctx).datamap@, value.0@) != Some(x)),
{
    let ghost o = *ctx;
    if value.0.len() > MAX_VALUE_LENGTH {
        return Err(StoreError::ValueTooLarge);
    }
    let needle = prepare_data_needle(value);
    let id = match search_data(ctx.datamap.as_slice(), needle.as_slice()) {
        Some(id) => id,
        None => {
            proof {
                assert(!holds_value(o.datamap@, value.0@)) by {
                    if holds_value(o.datamap@, value.0@) {
                        let k = choose|k: int| 0 <= k < num_records(o.datamap@) && rec_value(o.datamap@, k) == value.0@;
                        assert(record_ok(o.datamap@, k));
                    }
                }
            }
            return Ok(());
        },
    };
    proof {
        let d = o.datamap@;
        let k = choose|k: int|
            0 <= k < num_records(d) && rec_key(d, k) == needle_of(value.0@) && rec_id(d, k) == id.0
                && forall|j: int| 0 <= j < k ==> rec_key(d, j) != needle_of(value.0@);
        assert(record_ok(d, k));
        lemma_needle_injective(rec_value(d, k), value.0@);
        assert forall|j: int| 0 <= j < k implies rec_value(d, j) != value.0@ by {
            assert(record_ok(d, j));
        }
        let k2 = choose|k: int|
            0 <= k < num_records(d) && rec_value(d, k) == value.0@ && forall|j: int|
                0 <= j < k ==> rec_value(d, j) != value.0@;
        if k2 < k {
            assert(rec_value(d, k2) != value.0@);
        }
        if k < k2 {
            assert(rec_value(d, k) != value.0@);
        }
        assert(id_of_value(d, value.0@) == Some(id.0));
    }
    let found = lookup_tag(&ctx.mapped_tags, tag);
    proof {
        lemma_lookup_unique(o.mapped_tags@, tag@);
    }
    let k = match found {
        Some(k) => k,
        None => {
            return Ok(());
        },
    };
    proof {
        lemma_lookup_remove(o.mapped_tags@, k as int);
        assert(tag_ok(o.mapped_tags@[k as int].1@, o.all_ids()));
    }
    let (name, mut b) = ctx.mapped_tags.remove(k);
    let ghost b0 = b@;
    let ghost rest = ctx.mapped_tags@;
    remove_tag_from_map(&mut b, id);
    assert forall|j: int| 0 <= j < rest.len() implies #[trigger] tag_ok(rest[j].1@, o.all_ids()) by {
        let j2 = if j < k { j } else { j + 1 };
        assert(rest[j] == o.mapped_tags@[j2]);
        assert(tag_ok(o.mapped_tags@[j2].1@, o.all_ids()));
    }
    if b.len() > 0 {
        ctx.mapped_tags.push((name, b));
        proof {
            let tags2 = ctx.mapped_tags@;
            assert(tags2.drop_last() == rest);
            assert(ids_of(b@).len() > 0);
            assert forall|t: int| 0 <= t < tags2.len() implies #[trigger] tag_ok(tags2[t].1@, o.all_ids()) by {
                if t < rest.len() {
                    assert(tags2[t] == rest[t]);
                } else {
                    assert forall|i: int| 0 <= i < ids_of(b@).len() implies o.all_ids().contains(#[trigger] ids_of(b@)[i]) by {
                        assert(ids_of(b@).contains(ids_of(b@)[i]));
                        assert(ids_of(b0).contains(ids_of(b@)[i]));
                        let t2 = choose|t2: int| 0 <= t2 < ids_of(b0).len() && ids_of(b0)[t2] == ids_of(b@)[i];
                    }
                }
            }
            assert(names_unique(tags2)) by {
                assert forall|i: int, j: int| 0 <= i < j < tags2.len() implies tags2[i].0@ != tags2[j].0@ by {
                    assert(tags2[i] == rest[i]);
                    if j < tags2.len() - 1 {
                        assert(tags2[j] == rest[j]);
                    }
                }
            }
            assert forall|n: Seq<char>| n != tag@ implies #[trigger] ctx.index_of(n) == o.index_of(n) by {
                assert(lookup(tags2, n) == lookup(rest, n));
            }
            assert(ctx.index_of(tag@) == Some(b@));
        }
    } else {
        proof {
            lemma_lookup_unique(rest, tag@);
            assert forall|x: u32| #[trigger] tag_ids(ctx, tag@).contains(x) <==> (tag_ids(&o, tag@).contains(x)
                && id_of_value(o.datamap@, value.0@) != Some(x)) by {
                if ids_of(b0).contains(x) && x != id.0 {
                    assert(ids_of(b@).contains(x));
                }
            }
        }
    }
    Ok(())
}

} // verus!

verus! {

/// Whether `b` is a well-formed index file.
pub fn check_index(b: &Vec<u8>) -> (r: bool)
    ensures
        r == is_index(b@),
{
    if b.len() % 4 != 0 {
        return false;
    }
    let ghost s = ids_of(b@);
    let n = b.len() / 4;
    let mut i: usize = 1;
    while i < n
        invariant
            s == ids_of(b@),
            n == s.len(),
            b@.len() % 4 == 0,
            1 <= i || n == 0,
            i <= n || n == 0,
            forall|p: int, q: int| 0 <= p < q < i && q < n ==> s[p] < s[q],
        decreases n - i,
    {
        let x = read_int(b.as_slice(), i - 1);
        let y = read_int(b.as_slice(), i);
        assert(x == s[i - 1] && y == s[i as int]);
        if x >= y {
            return false;
        }
        assert forall|p: int, q: int| 0 <= p < q < i + 1 && q < n implies s[p] < s[q] by {
            if q == i && p < i - 1 {
                assert(s[p] < s[i - 1]);
            }
        }
        i = i + 1;
    }
    true
}

/// Whether `d` is a well-formed value store.
pub fn check_store(d: &Vec<u8>) -> (r: bool)
    ensures
        r == is_store(d@),
{
    if d.len() % RECORD_SIZE != 0 {
        return false;
    }
    let total = d.len();
    let n = total / RECORD_SIZE;
    let mut k: usize = 0;
    while k < n
        invariant
            n == num_records(d@),
            total == d@.len(),
            d@.len() == 256 * n,
            k <= n,
            forall|t: int| 0 <= t < k ==> #[trigger] record_ok(d@, t),
            forall|p: int, q: int| 0 <= p < q < k ==> rec_ids(d@)[p] < rec_ids(d@)[q],
        decreases n - k,
    {
        let base = k * RECORD_SIZE;
        let len = d[base] as usize;
        if len > MAX_VALUE_LENGTH {
            assert(!record_ok(d@, k as int));
            return false;
        }
        let mut i: usize = len + 1;
        while i < KEY_SIZE
            invariant
                base == 256 * k,
                base + 256 <= d@.len(),
                len == d@[base as int],
                len <= 251,
                len + 1 <= i <= 252,
                forall|t: int| base + len + 1 <= t < base + i ==> #[trigger] d@[t] == 0,
            decreases 252 - i,
        {
            if d[base + i] != 0 {
                assert(!record_ok(d@, k as int)) by {
                    assert(rec_key(d@, k as int)[i as int] == d@[base + i]);
                    assert(needle_of(rec_value(d@, k as int))[i as int] == 0);
                }
                return false;
            }
            i = i + 1;
        }
        assert(record_ok(d@, k as int)) by {
            assert(rec_key(d@, k as int) =~= needle_of(rec_value(d@, k as int)));
        }
        if k > 0 {
            let x = read_int(d.as_slice(), (k - 1) * 64 + 63);
            let y = read_int(d.as_slice(), k * 64 + 63);
            if x >= y {
                assert(rec_ids(d@)[k - 1] == x && rec_ids(d@)[k as int] == y);
                return false;
            }
            assert(rec_ids(d@)[k - 1] == x && rec_ids(d@)[k as int] == y);
        }
        assert forall|p: int, q: int| 0 <= p < q < k + 1 implies rec_ids(d@)[p] < rec_ids(d@)[q] by {
            if q == k && p < k - 1 {
                assert(rec_ids(d@)[p] < rec_ids(d@)[k - 1]);
            }
        }
        k = k + 1;
    }
    true
}

} // verus!

verus! {

/// Whether records `k1` and `k2` hold the same length byte, payload and
/// padding.
fn same_key(d: &Vec<u8>, k1: usize, k2: usize) -> (r: bool)
    requires
        k1 < num_records(d@),
        k2 < num_records(d@),
    ensures
        r == (rec_key(d@, k1 as int) == rec_key(d@, k2 as int)),
{
    let total = d.len();
    let b1 = k1 * RECORD_SIZE;
    let b2 = k2 * RECORD_SIZE;
    let mut i: usize = 0;
    while i < KEY_SIZE
        invariant
            total == d@.len(),
            b1 == 256 * k1,
            b2 == 256 * k2,
            b1 + 256 <= total,
            b2 + 256 <= total,
            i <= 252,
            forall|t: int| 0 <= t < i ==> rec_key(d@, k1 as int)[t] == #[trigger] rec_key(d@, k2 as int)[t],
        decreases 252 - i,
    {
        if d[b1 + i] != d[b2 + i] {
            assert(rec_key(d@, k1 as int)[i as int] != rec_key(d@, k2 as int)[i as int]);
            return false;
        }
        i = i + 1;
    }
    assert(rec_key(d@, k1 as int) =~= rec_key(d@, k2 as int));
    true
}

/// Whether no two records of a well-formed store hold the same payload.
pub fn check_distinct(d: &Vec<u8>) -> (r: bool)
    requires
        is_store(d@),
    ensures
        r == distinct_values(d@),
{
    let n = d.len() / RECORD_SIZE;
    let mut k1: usize = 0;
    while k1 < n
        invariant
            is_store(d@),
            n == num_records(d@),
            k1 <= n,
            forall|a: int, b: int| 0 <= a < k1 && a < b < n ==> rec_value(d@, a) != rec_value(d@, b),
        decreases n - k1,
    {
        let mut k2: usize = k1 + 1;
        while k2 < n
            invariant
                is_store(d@),
                n == num_records(d@),
                k1 < k2 <= n,
                forall|a: int, b: int| 0 <= a < k1 && a < b < n ==> rec_value(d@, a) != rec_value(d@, b),
                forall|b: int| k1 < b < k2 ==> rec_value(d@, k1 as int) != rec_value(d@, b),
            decreases n - k2,
        {
            assert(record_ok(d@, k1 as int) && record_ok(d@, k2 as int));
            if same_key(d, k1, k2) {
                proof {
                    lemma_needle_injective(rec_value(d@, k1 as int), rec_value(d@, k2 as int));
                }
                return false;
            }
            k2 = k2 + 1;
        }
        k1 = k1 + 1;
    }
    true
}

impl TagCtx {
    /// Gathers loaded index files and the value store, refusing them with
    /// `Corrupted` unless they are well-formed together.
    pub fn new(mapped_tags: Vec<(TagName, Vec<u8>)>, allmap: Vec<u8>, datamap: Vec<u8>) -> (r: Result<
        TagCtx,
        StoreError,
    >)
        ensures
            r matches Ok(c) ==> c.mapped_tags == mapped_tags && c.allmap == allmap && c.datamap
                == datamap && c.wf(),
            r is Err ==> r == Err::<TagCtx, StoreError>(StoreError::Corrupted) && !(TagCtx {
                mapped_tags,
                allmap,
                datamap,
            }).wf(),
    {
        let ghost cand = TagCtx { mapped_tags, allmap, datamap };
        if !check_index(&allmap) || !check_store(&datamap) || !check_distinct(&datamap) {
            return Err(StoreError::Corrupted);
        }
        let ghost a = ids_of(allmap@);
        let ghost rd = rec_ids(datamap@);
        proof {
            if cand.wf() {
                assert forall|x: u32| a.contains(x) <==> rd.contains(x) by {
                    assert(cand.all_ids().contains(x) <==> rec_ids(cand.datamap@).contains(x));
                }
                lemma_sorted_unique(a, rd);
            }
        }
        let na = allmap.len() / 4;
        let nr = datamap.len() / RECORD_SIZE;
        if na != nr {
            return Err(StoreError::Corrupted);
        }
        let dl = datamap.len();
        let mut i: usize = 0;
        while i < na
            invariant
                na == a.len(),
                nr == rd.len(),
                na == nr,
                a == ids_of(allmap@),
                rd == rec_ids(datamap@),
                cand.wf() ==> a == rd,
                cand.mapped_tags == mapped_tags,
                cand.allmap == allmap,
                cand.datamap == datamap,
                dl == datamap@.len(),
                datamap@.len() == 256 * nr,
                allmap@.len() == 4 * na,
                i <= na,
                forall|t: int| 0 <= t < i ==> a[t] == rd[t],
            decreases na - i,
        {
            let x = read_int(allmap.as_slice(), i);
            let y = read_int(datamap.as_slice(), i * 64 + 63);
            assert(x == a[i as int] && y == rd[i as int]);
            if x != y {
                assert(!cand.wf());
                return Err(StoreError::Corrupted);
            }
            i = i + 1;
        }
        assert(a =~= rd);
        let nt = mapped_tags.len();
        let mut k: usize = 0;
        while k < nt
            invariant
                nt == mapped_tags@.len(),
                cand.mapped_tags == mapped_tags,
                cand.datamap == datamap,
                distinct_values(datamap@),
                cand.allmap == allmap,
                a == ids_of(allmap@),
                is_index(allmap@),
                k <= nt,
                forall|t: int| 0 <= t < k ==> #[trigger] tag_ok(mapped_tags@[t].1@, a),
                forall|p: int, q: int| 0 <= p < q < k ==> mapped_tags@[p].0@ != mapped_tags@[q].0@,
            decreases nt - k,
        {
            let b = &mapped_tags[k].1;
            if !check_index(b) || b.len() == 0 {
                assert(!tag_ok(mapped_tags@[k as int].1@, a));
                assert(cand.all_ids() == a);
                assert(!tag_ok(cand.mapped_tags@[k as int].1@, cand.all_ids()));
                return Err(StoreError::Corrupted);
            }
            let m = b.len() / 4;
            let mut j: usize = 0;
            while j < m
                invariant
                    m == ids_of(b@).len(),
                    b@.len() % 4 == 0,
                    k < nt,
                    nt == mapped_tags@.len(),
                    b == mapped_tags@[k as int].1,
                    cand.mapped_tags == mapped_tags,
                    cand.allmap == allmap,
                    cand.datamap == datamap,
                    a == ids_of(allmap@),
                    is_index(allmap@),
                    j <= m,
                    forall|t: int| 0 <= t < j ==> a.contains(#[trigger] ids_of(b@)[t]),
                decreases m - j,
            {
                let v = read_int(b.as_slice(), j);
                assert(v == ids_of(b@)[j as int]);
                if !find(allmap.as_slice(), ID(v)) {
                    assert(!tag_ok(b@, a));
                    assert(cand.all_ids() == a);
                    assert(!tag_ok(cand.mapped_tags@[k as int].1@, cand.all_ids()));
                    return Err(StoreError::Corrupted);
                }
                j = j + 1;
            }
            assert(tag_ok(mapped_tags@[k as int].1@, a));
            let mut p: usize = 0;
            while p < k
                invariant
                    k < nt,
                    nt == mapped_tags@.len(),
                    p <= k,
                    cand.mapped_tags == mapped_tags,
                    cand.allmap == allmap,
                    cand.datamap == datamap,
                    forall|t: int| 0 <= t < p ==> mapped_tags@[t].0@ != mapped_tags@[k as int].0@,
                decreases k - p,
            {
                if mapped_tags[p].0.0 == mapped_tags[k].0.0 {
                    assert(!names_unique(cand.mapped_tags@));
                    return Err(StoreError::Corrupted);
                }
                p = p + 1;
            }
            k = k + 1;
        }
        Ok(TagCtx { mapped_tags, allmap, datamap })
    }
}

} // verus!
