use vstd::prelude::*;
use crate::cnf::{cnf_of, to_cnf};
use crate::layout::{
    RECORD_SIZE, distinct_values, has_record, int_at, ids_of, is_index, is_store, lemma_le_bytes,
    num_records, rec_id, rec_ids, rec_value, record_ok, strictly_sorted,
};
use crate::parse::{ParseError, Token, lex_from, parse_query, postfix, rpn_result, tokens_view};
use crate::write::{data, value_from_off};
use crate::select::{lemma_merge_select, lemma_select_ext, lemma_select_none, lemma_select_sub, merge, select};
use crate::{TagName, Value, ID};

verus! {

/// Reads the `off`-th 4-byte little-endian integer of `map`.
pub fn read_int(map: &[u8], off: usize) -> (r: u32)
    requires
        4 * off + 4 <= map@.len(),
    ensures
        r == int_at(map@, off as int),
{
    let n = map.len();
    let base = 4 * off;
    let b0 = map[base] as u32;
    let b1 = map[base + 1] as u32;
    let b2 = map[base + 2] as u32;
    let b3 = map[base + 3] as u32;
    b0 | (b1 << 8u32) | (b2 << 16u32) | (b3 << 24u32)
}

/// Writes `v` as the `off`-th 4-byte little-endian integer of `map`, leaving
/// every other byte as it was.
pub fn write_int(map: &mut Vec<u8>, off: usize, v: u32)
    requires
        4 * off + 4 <= old(map)@.len(),
    ensures
        final(map)@.len() == old(map)@.len(),
        int_at(final(map)@, off as int) == v,
        forall|i: int|
            0 <= i < old(map)@.len() && !(4 * off <= i < 4 * off + 4) ==> final(map)@[i]
                == old(map)@[i],
        forall|j: int|
            0 <= j < old(map)@.len() / 4 && j != off ==> #[trigger] int_at(final(map)@, j)
                == int_at(old(map)@, j),
{
    let n = map.len();
    let base = 4 * off;
    map.set(base, #[verifier::truncate] ((v & 0xff) as u8));
    map.set(base + 1, #[verifier::truncate] (((v >> 8u32) & 0xff) as u8));
    map.set(base + 2, #[verifier::truncate] (((v >> 16u32) & 0xff) as u8));
    map.set(base + 3, #[verifier::truncate] (((v >> 24u32) & 0xff) as u8));
    proof {
        lemma_le_bytes(v);
        assert forall|j: int|
            0 <= j < old(map)@.len() / 4 && j != off implies #[trigger] int_at(map@, j)
                == int_at(old(map)@, j) by {
            assert(map@[4 * j] == old(map)@[4 * j]);
            assert(map@[4 * j + 1] == old(map)@[4 * j + 1]);
            assert(map@[4 * j + 2] == old(map)@[4 * j + 2]);
            assert(map@[4 * j + 3] == old(map)@[4 * j + 3]);
        }
    }
}

/// Membership test by binary search over a well-formed index.
pub fn find(map: &[u8], needle: ID) -> (r: bool)
    requires
        is_index(map@),
    ensures
        r == ids_of(map@).contains(needle.0),
{
    let ghost s = ids_of(map@);
    let mut left: usize = 0;
    let mut right: usize = map.len() / 4;
    while left < right
        invariant
            s == ids_of(map@),
            strictly_sorted(s),
            0 <= left <= right <= s.len(),
            forall|i: int| 0 <= i < left ==> s[i] < needle.0,
            forall|i: int| right <= i < s.len() ==> s[i] > needle.0,
        decreases right - left,
    {
        let middle = left + (right - left) / 2;
        let v = read_int(map, middle);
        assert(v == s[middle as int]);
        if v == needle.0 {
            assert(s[middle as int] == needle.0);
            return true;
        }
        if v > needle.0 {
            right = middle;
        } else {
            left = middle + 1;
        }
    }
    assert(!s.contains(needle.0)) by {
        if s.contains(needle.0) {
            let j = choose|j: int| 0 <= j < s.len() && s[j] == needle.0;
        }
    }
    false
}

} // verus!

verus! {

/// A boolean expression over tag membership.
pub enum Expr {
    Tag(TagName),
    And(Box<Expr>, Box<Expr>),
    Or(Box<Expr>, Box<Expr>),
    Not(Box<Expr>),
}

/// A normalized query: a list of clauses, each a list of (tag, polarity)
/// literals. An item matches a clause when it carries every tag of polarity
/// `true` and none of polarity `false`; it matches the query when it matches
/// some clause.
pub struct CNF(pub Vec<Vec<(TagName, bool)>>);

/// A literal as the contracts see it: the tag's characters and its polarity.
pub type Lit = (Seq<char>, bool);

/// Whether an item whose tags are given by `has` satisfies `e`.
pub open spec fn eval(e: Expr, has: spec_fn(Seq<char>) -> bool) -> bool
    decreases e,
{
    match e {
        Expr::Tag(t) => has(t.0@),
        Expr::And(l, r) => eval(*l, has) && eval(*r, has),
        Expr::Or(l, r) => eval(*l, has) || eval(*r, has),
        Expr::Not(x) => !eval(*x, has),
    }
}

/// A literal by its tag's characters.
pub open spec fn lit_view(l: (TagName, bool)) -> Lit {
    (l.0.0@, l.1)
}

/// A clause as a sequence of literals.
pub open spec fn clause_view(c: Seq<(TagName, bool)>) -> Seq<Lit> {
    c.map_values(|l: (TagName, bool)| lit_view(l))
}

/// Clauses as sequences of literals.
pub open spec fn clauses_view(cs: Seq<Vec<(TagName, bool)>>) -> Seq<Seq<Lit>> {
    cs.map_values(|c: Vec<(TagName, bool)>| clause_view(c@))
}

impl CNF {
    /// The clauses as sequences of literals.
    pub open spec fn view(&self) -> Seq<Seq<Lit>> {
        clauses_view(self.0@)
    }
}

/// An item with tags `has` satisfies literal `l`.
pub open spec fn lit_holds(l: Lit, has: spec_fn(Seq<char>) -> bool) -> bool {
    has(l.0) == l.1
}

/// An item with tags `has` satisfies every literal of `c`.
pub open spec fn clause_holds(c: Seq<Lit>, has: spec_fn(Seq<char>) -> bool) -> bool {
    forall|j: int| 0 <= j < c.len() ==> #[trigger] lit_holds(c[j], has)
}

/// An item with tags `has` satisfies some clause of `cs`.
pub open spec fn cnf_holds(cs: Seq<Seq<Lit>>, has: spec_fn(Seq<char>) -> bool) -> bool {
    exists|i: int| 0 <= i < cs.len() && #[trigger] clause_holds(cs[i], has)
}

} // verus!

verus! {

/// The indexes a query reads or a mutation changes: the tag indexes by name,
/// the All-Index and the value store, each as the bytes of its file.
pub struct TagCtx {
    pub mapped_tags: Vec<(TagName, Vec<u8>)>,
    pub allmap: Vec<u8>,
    pub datamap: Vec<u8>,
}

/// The index of tag `name` among `tags`; the last entry of that name counts.
pub open spec fn lookup(tags: Seq<(TagName, Vec<u8>)>, name: Seq<char>) -> Option<Seq<u8>>
    decreases tags.len(),
{
    if tags.len() == 0 {
        None
    } else if tags.last().0@ == name {
        Some(tags.last().1@)
    } else {
        lookup(tags.drop_last(), name)
    }
}

/// The IDs of a sequence of `ID`s.
pub open spec fn id_values(s: Seq<ID>) -> Seq<u32> {
    s.map_values(|i: ID| i.0)
}

impl TagCtx {
    /// The index of tag `name`, if it has one.
    pub open spec fn index_of(&self, name: Seq<char>) -> Option<Seq<u8>> {
        lookup(self.mapped_tags@, name)
    }

    /// Whether item `id` carries tag `name`.
    pub open spec fn has_tag(&self, name: Seq<char>, id: u32) -> bool {
        match self.index_of(name) {
            Some(b) => ids_of(b).contains(id),
            None => false,
        }
    }

    /// The IDs of the All-Index.
    pub open spec fn all_ids(&self) -> Seq<u32> {
        ids_of(self.allmap@)
    }

    /// Sorted indexes, each tag index non-empty and within the All-Index,
    /// tag names unique, a well-formed value store whose IDs are those of the
    /// All-Index and whose payloads are distinct.
    pub open spec fn wf(&self) -> bool {
        &&& is_index(self.allmap@)
        &&& is_store(self.datamap@)
        &&& (forall|x: u32| #[trigger] self.all_ids().contains(x) <==> rec_ids(self.datamap@).contains(x))
        &&& (forall|k: int| 0 <= k < self.mapped_tags@.len() ==> #[trigger] tag_ok(self.mapped_tags@[k].1@, self.all_ids()))
        &&& names_unique(self.mapped_tags@)
        &&& distinct_values(self.datamap@)
    }

    /// Item `id` satisfies every literal of clause `c`.
    pub open spec fn sat(&self, c: Seq<Lit>, id: u32) -> bool {
        forall|j: int| 0 <= j < c.len() ==> #[trigger] self.has_tag(c[j].0, id) == c[j].1
    }

    /// Some literal of `c` names a tag that has an index; a clause without
    /// one yields nothing.
    pub open spec fn live(&self, c: Seq<Lit>) -> bool {
        exists|j: int| 0 <= j < c.len() && (#[trigger] self.index_of(c[j].0)) is Some
    }

    /// The items clause `c` yields, as a predicate.
    pub open spec fn clause_pred(&self, c: Seq<Lit>) -> spec_fn(u32) -> bool {
        |x: u32| self.live(c) && self.sat(c, x)
    }

    /// Item `id` is a result of the clauses `cs`.
    pub open spec fn matches(&self, cs: Seq<Seq<Lit>>, id: u32) -> bool {
        exists|i: int| 0 <= i < cs.len() && self.live(cs[i]) && #[trigger] self.sat(cs[i], id)
    }

    /// The IDs a query with clauses `cs` yields: the first `limit` IDs of the
    /// All-Index that match.
    pub open spec fn query_ids(&self, cs: Seq<Seq<Lit>>, limit: nat) -> Seq<u32> {
        select(self.all_ids(), |x: u32| self.matches(cs, x), limit)
    }
}

/// No two entries share a tag name.
pub open spec fn names_unique(tags: Seq<(TagName, Vec<u8>)>) -> bool {
    forall|i: int, j: int| 0 <= i < j < tags.len() ==> tags[i].0@ != tags[j].0@
}

/// With unique names, the index of a tag is that of its one entry.
pub proof fn lemma_lookup_unique(tags: Seq<(TagName, Vec<u8>)>, name: Seq<char>)
    requires
        names_unique(tags),
    ensures
        forall|k: int| 0 <= k < tags.len() && tags[k].0@ == name ==> lookup(tags, name) == Some(
            #[trigger] tags[k].1@,
        ),
        (forall|k: int| 0 <= k < tags.len() ==> #[trigger] tags[k].0@ != name) ==> lookup(tags, name)
            is None,
    decreases tags.len(),
{
    if tags.len() > 0 {
        let t = tags.drop_last();
        assert(names_unique(t));
        lemma_lookup_unique(t, name);
        assert forall|k: int| 0 <= k < tags.len() && tags[k].0@ == name implies lookup(tags, name)
            == Some(#[trigger] tags[k].1@) by {
            if k < tags.len() - 1 {
                assert(t[k] == tags[k]);
                assert(tags[k].0@ != tags[tags.len() - 1].0@);
            }
        }
        if forall|k: int| 0 <= k < tags.len() ==> #[trigger] tags[k].0@ != name {
            assert forall|k: int| 0 <= k < t.len() implies #[trigger] t[k].0@ != name by {
                assert(t[k] == tags[k]);
            }
            assert(tags[tags.len() - 1].0@ != name);
        }
    }
}

/// Taking out one entry keeps names unique, leaves the index of every other
/// name as it was, and leaves no entry of the name taken out.
pub proof fn lemma_lookup_remove(tags: Seq<(TagName, Vec<u8>)>, k: int)
    requires
        names_unique(tags),
        0 <= k < tags.len(),
    ensures
        names_unique(tags.remove(k)),
        forall|n: Seq<char>| n != tags[k].0@ ==> #[trigger] lookup(tags.remove(k), n) == lookup(tags, n),
        forall|j: int| 0 <= j < tags.remove(k).len() ==> #[trigger] tags.remove(k)[j].0@ != tags[k].0@,
{
    let t = tags.remove(k);
    assert forall|j: int| 0 <= j < t.len() implies t[j] == (if j < k { tags[j] } else { tags[j + 1] }) by {}
    assert forall|i: int, j: int| 0 <= i < j < t.len() implies t[i].0@ != t[j].0@ by {
        let i2 = if i < k { i } else { i + 1 };
        let j2 = if j < k { j } else { j + 1 };
        assert(t[i] == tags[i2] && t[j] == tags[j2]);
    }
    assert forall|j: int| 0 <= j < t.len() implies #[trigger] t[j].0@ != tags[k].0@ by {
        let j2 = if j < k { j } else { j + 1 };
        assert(t[j] == tags[j2]);
    }
    assert forall|n: Seq<char>| n != tags[k].0@ implies #[trigger] lookup(t, n) == lookup(tags, n) by {
        lemma_lookup_unique(tags, n);
        lemma_lookup_unique(t, n);
        if exists|j: int| 0 <= j < tags.len() && #[trigger] tags[j].0@ == n {
            let j = choose|j: int| 0 <= j < tags.len() && #[trigger] tags[j].0@ == n;
            assert(j != k);
            let j2 = if j < k { j } else { j - 1 };
            assert(t[j2] == tags[j]);
            assert(lookup(tags, n) == Some(tags[j].1@));
            assert(lookup(t, n) == Some(t[j2].1@));
        } else {
            assert forall|j: int| 0 <= j < tags.len() implies #[trigger] tags[j].0@ != n by {}
            assert forall|j: int| 0 <= j < t.len() implies #[trigger] t[j].0@ != n by {
                let j2 = if j < k { j } else { j + 1 };
                assert(t[j] == tags[j2]);
            }
        }
    }
}

/// A tag index: sorted, not empty, and each of its IDs in the All-Index.
pub open spec fn tag_ok(b: Seq<u8>, all: Seq<u32>) -> bool {
    &&& is_index(b)
    &&& ids_of(b).len() > 0
    &&& forall|i: int| 0 <= i < ids_of(b).len() ==> all.contains(#[trigger] ids_of(b)[i])
}

/// Finds the entry of tag `name`.
pub fn lookup_tag(tags: &Vec<(TagName, Vec<u8>)>, name: &TagName) -> (r: Option<usize>)
    ensures
        r is None <==> lookup(tags@, name@) is None,
        r matches Some(k) ==> k < tags@.len() && tags@[k as int].0@ == name@ && lookup(tags@, name@)
            == Some(tags@[k as int].1@),
{
    let mut i: usize = tags.len();
    assert(tags@.take(i as int) =~= tags@);
    while i > 0
        invariant
            i <= tags@.len(),
            lookup(tags@, name@) == lookup(tags@.take(i as int), name@),
        decreases i,
    {
        assert(tags@.take(i as int).drop_last() =~= tags@.take(i - 1));
        if tags[i - 1].0.0 == name.0 {
            return Some(i - 1);
        }
        i = i - 1;
    }
    None
}

} // verus!

verus! {

/// Some tag is asked for with both polarities.
pub open spec fn conflicting(c: Seq<Lit>) -> bool {
    exists|j1: int, j2: int|
        0 <= j1 < c.len() && 0 <= j2 < c.len() && #[trigger] c[j1].0 == #[trigger] c[j2].0 && c[j1].1
            != c[j2].1
}

/// `x` satisfies every resolved literal, given as (entry of the tag,
/// polarity).
pub open spec fn maps_sat(ctx: &TagCtx, ms: Seq<(usize, bool)>, x: u32) -> bool {
    forall|m: int|
        0 <= m < ms.len() ==> #[trigger] ids_of(ctx.mapped_tags@[ms[m].0 as int].1@).contains(x)
            == ms[m].1
}

/// The items that satisfy every resolved literal, as a predicate.
pub open spec fn maps_pred(ctx: &TagCtx, ms: Seq<(usize, bool)>) -> spec_fn(u32) -> bool {
    |x: u32| maps_sat(ctx, ms, x)
}

/// The first `limit` IDs, ascending, that satisfy every literal of a clause.
/// A tag asked for with both polarities, or asked for while it has no index,
/// gives nothing; a tag refused while it has no index is dropped. The literal
/// whose scan is cheapest drives: its index when positive, the All-Index
/// without its index when negative; each candidate is checked against the
/// other literals by binary search.
fn execute_and(ctx: &TagCtx, needs: &Vec<(TagName, bool)>, limit: usize) -> (r: Vec<ID>)
    requires
        ctx.wf(),
    ensures
        id_values(r@) == select(ctx.all_ids(), ctx.clause_pred(clause_view(needs@)), limit as nat),
        conflicting(clause_view(needs@)) ==> r@.len() == 0,
{
    let ghost c = clause_view(needs@);
    let ghost all = ctx.all_ids();
    let ghost q = ctx.clause_pred(c);
    let n = needs.len();
    let mut a: usize = 0;
    while a < n
        invariant
            n == needs@.len(),
            c == clause_view(needs@),
            q == ctx.clause_pred(c),
            all == ctx.all_ids(),
            a <= n,
        decreases n - a,
    {
        let mut b: usize = 0;
        while b < n
            invariant
                n == needs@.len(),
                c == clause_view(needs@),
                q == ctx.clause_pred(c),
                all == ctx.all_ids(),
                a < n,
                b <= n,
            decreases n - b,
        {
            if needs[a].1 != needs[b].1 && needs[a].0.0 == needs[b].0.0 {
                proof {
                    assert(c[a as int] == lit_view(needs@[a as int]));
                    assert(c[b as int] == lit_view(needs@[b as int]));
                    assert forall|i: int| 0 <= i < all.len() implies !q(#[trigger] all[i]) by {
                        let x = all[i];
                        assert(q(x) == (ctx.live(c) && ctx.sat(c, x)));
                        if ctx.sat(c, x) {
                            assert(ctx.has_tag(c[a as int].0, x) == c[a as int].1);
                            assert(ctx.has_tag(c[b as int].0, x) == c[b as int].1);
                        }
                    }
                    lemma_select_none(all, q, limit as nat);
                }
                return Vec::new();
            }
            b = b + 1;
        }
        a = a + 1;
    }
    let mut maps: Vec<(usize, bool)> = Vec::new();
    let mut j: usize = 0;
    assert(c.take(0) =~= Seq::<Lit>::empty());
    while j < n
        invariant
            n == needs@.len(),
            c == clause_view(needs@),
            q == ctx.clause_pred(c),
            all == ctx.all_ids(),
            j <= n,
            forall|m: int| 0 <= m < maps@.len() ==> (#[trigger] maps@[m]).0 < ctx.mapped_tags@.len(),
            forall|x: u32| #[trigger] maps_sat(ctx, maps@, x) == ctx.sat(c.take(j as int), x),
            (maps@.len() > 0) == ctx.live(c.take(j as int)),
        decreases n - j,
    {
        let ghost lit = c[j as int];
        assert(lit == lit_view(needs@[j as int]));
        let ghost cj = c.take(j as int);
        let ghost cj1 = c.take(j + 1);
        assert(cj1 =~= cj.push(lit));
        let ghost old_maps = maps@;
        let found = lookup_tag(&ctx.mapped_tags, &needs[j].0);
        let ghost found_g = found;
        match found {
            None => {
                if needs[j].1 {
                    proof {
                        assert forall|i: int| 0 <= i < all.len() implies !q(#[trigger] all[i]) by {
                            let x = all[i];
                            assert(q(x) == (ctx.live(c) && ctx.sat(c, x)));
                            if ctx.sat(c, x) {
                                assert(ctx.has_tag(c[j as int].0, x) == c[j as int].1);
                            }
                        }
                        lemma_select_none(all, q, limit as nat);
                    }
                    return Vec::new();
                }
            },
            Some(k) => {
                maps.push((k, needs[j].1));
            },
        }
        proof {
            assert forall|x: u32| #[trigger] maps_sat(ctx, maps@, x) == ctx.sat(cj1, x) by {
                if ctx.sat(cj1, x) {
                    assert forall|t: int| 0 <= t < cj.len() implies #[trigger] ctx.has_tag(cj[t].0, x)
                        == cj[t].1 by {
                        assert(cj1[t] == cj[t]);
                    }
                    assert(ctx.has_tag(cj1[j as int].0, x) == cj1[j as int].1);
                    assert(maps_sat(ctx, old_maps, x));
                    if maps@.len() > old_maps.len() {
                        assert forall|m: int| 0 <= m < maps@.len() implies #[trigger] ids_of(
                            ctx.mapped_tags@[maps@[m].0 as int].1@,
                        ).contains(x) == maps@[m].1 by {
                            if m < old_maps.len() {
                                assert(maps@[m] == old_maps[m]);
                            }
                        }
                    }
                }
                if maps_sat(ctx, maps@, x) {
                    assert(maps_sat(ctx, old_maps, x)) by {
                        assert forall|m: int| 0 <= m < old_maps.len() implies #[trigger] ids_of(
                            ctx.mapped_tags@[old_maps[m].0 as int].1@,
                        ).contains(x) == old_maps[m].1 by {
                            assert(maps@[m] == old_maps[m]);
                        }
                    }
                    assert(ctx.sat(cj, x));
                    assert forall|t: int| 0 <= t < cj1.len() implies #[trigger] ctx.has_tag(cj1[t].0, x)
                        == cj1[t].1 by {
                        if t < cj.len() {
                            assert(cj1[t] == cj[t]);
                            assert(ctx.has_tag(cj[t].0, x) == cj[t].1);
                        } else if maps@.len() > old_maps.len() {
                            let m = old_maps.len() as int;
                            assert(ids_of(ctx.mapped_tags@[maps@[m].0 as int].1@).contains(x)
                                == maps@[m].1);
                            assert(ctx.index_of(lit.0) == Some(ctx.mapped_tags@[maps@[m].0 as int].1@));
                        } else {
                            assert(found_g is None);
                            assert(ctx.index_of(lit.0) is None);
                        }
                    }
                }
            }
            if ctx.live(cj1) {
                let t = choose|t: int| 0 <= t < cj1.len() && (#[trigger] ctx.index_of(cj1[t].0)) is Some;
                if t < cj.len() {
                    assert(cj1[t] == cj[t]);
                }
            }
            if ctx.live(cj) {
                let t = choose|t: int| 0 <= t < cj.len() && (#[trigger] ctx.index_of(cj[t].0)) is Some;
                assert(cj1[t] == cj[t]);
            }
            if maps@.len() > old_maps.len() {
                assert(ctx.index_of(cj1[j as int].0) is Some);
            }
        }
        j = j + 1;
    }
    assert(c.take(n as int) =~= c);
    if maps.len() == 0 {
        proof {
            assert forall|i: int| 0 <= i < all.len() implies !q(#[trigger] all[i]) by {
                assert(q(all[i]) == (ctx.live(c) && ctx.sat(c, all[i])));
            }
            lemma_select_none(all, q, limit as nat);
        }
        return Vec::new();
    }
    let allsize = ctx.allmap.len() / 4;
    let mut best: usize = 0;
    let mut best_cost: usize = if maps[0].1 {
        ctx.mapped_tags[maps[0].0].1.len() / 4
    } else {
        allsize
    };
    let mut m: usize = 1;
    while m < maps.len()
        invariant
            best < maps@.len(),
            forall|t: int| 0 <= t < maps@.len() ==> (#[trigger] maps@[t]).0 < ctx.mapped_tags@.len(),
        decreases maps@.len() - m,
    {
        let cost = if maps[m].1 {
            ctx.mapped_tags[maps[m].0].1.len() / 4
        } else {
            allsize
        };
        if cost < best_cost {
            best = m;
            best_cost = cost;
        }
        m = m + 1;
    }
    let dk = maps[best].0;
    let dpos = maps[best].1;
    let driver = &ctx.mapped_tags[dk].1;
    assert(tag_ok(ctx.mapped_tags@[dk as int].1@, all));
    let src: &Vec<u8> = if dpos {
        driver
    } else {
        &ctx.allmap
    };
    assert forall|t: int| 0 <= t < maps@.len() implies is_index(
        ctx.mapped_tags@[(#[trigger] maps@[t]).0 as int].1@,
    ) by {
        assert(tag_ok(ctx.mapped_tags@[maps@[t].0 as int].1@, all));
    }
    let ghost s = ids_of(src@);
    let ghost pd = maps_pred(ctx, maps@);
    let mut out: Vec<ID> = Vec::new();
    let total = src.len() / 4;
    let mut i: usize = 0;
    assert(s.skip(0) =~= s);
    while i < total && out.len() < limit
        invariant
            pd == maps_pred(ctx, maps@),
            total == s.len(),
            s == ids_of(src@),
            is_index(src@),
            is_index(driver@),
            i <= total,
            out@.len() <= limit,
            best < maps@.len(),
            dk == maps@[best as int].0,
            dpos == maps@[best as int].1,
            driver == ctx.mapped_tags@[dk as int].1,
            dpos ==> src@ == driver@,
            forall|t: int| 0 <= t < maps@.len() ==> (#[trigger] maps@[t]).0 < ctx.mapped_tags@.len(),
            forall|t: int| 0 <= t < maps@.len() ==> is_index(ctx.mapped_tags@[(#[trigger] maps@[t]).0 as int].1@),
            id_values(out@) + select(s.skip(i as int), pd, (limit - out@.len()) as nat) == select(
                s,
                pd,
                limit as nat,
            ),
        decreases total - i,
    {
        let v = read_int(src.as_slice(), i);
        assert(v == s[i as int]);
        assert(s.contains(v));
        let ghost dterm = ids_of(ctx.mapped_tags@[maps@[best as int].0 as int].1@).contains(v);
        assert(dterm == ids_of(driver@).contains(v));
        let mut ok = true;
        if !dpos && find(driver.as_slice(), ID(v)) {
            ok = false;
        }
        let mut t: usize = 0;
        while ok && t < maps.len()
            invariant
                pd == maps_pred(ctx, maps@),
                t <= maps@.len(),
                best < maps@.len(),
                dk == maps@[best as int].0,
                dpos == maps@[best as int].1,
                driver == ctx.mapped_tags@[dk as int].1,
                forall|u: int| 0 <= u < maps@.len() ==> (#[trigger] maps@[u]).0 < ctx.mapped_tags@.len(),
                forall|u: int| 0 <= u < maps@.len() ==> is_index(ctx.mapped_tags@[(#[trigger] maps@[u]).0 as int].1@),
                ok ==> (ids_of(driver@).contains(v) == dpos),
                ok ==> forall|u: int|
                    0 <= u < t ==> #[trigger] ids_of(ctx.mapped_tags@[maps@[u].0 as int].1@).contains(v)
                        == maps@[u].1,
                !ok ==> !pd(v),
            decreases maps@.len() - t,
        {
            let ghost term = ids_of(ctx.mapped_tags@[maps@[t as int].0 as int].1@).contains(v);
            if t != best {
                let k = maps[t].0;
                let pol = maps[t].1;
                if find(ctx.mapped_tags[k].1.as_slice(), ID(v)) != pol {
                    ok = false;
                }
            }
            t = t + 1;
        }
        assert(ok == pd(v));
        let ghost l0 = (limit - out@.len()) as nat;
        assert(s.skip(i as int)[0] == v);
        assert(s.skip(i as int).drop_first() =~= s.skip(i + 1));
        if ok {
            let ghost before = out@;
            out.push(ID(v));
            assert(id_values(out@) =~= id_values(before) + seq![v]);
        }
        i = i + 1;
    }
    proof {
        assert(id_values(out@) == select(s, pd, limit as nat)) by {
            assert(s.skip(i as int).len() == 0 || out@.len() == limit);
            assert(select(s.skip(i as int), pd, (limit - out@.len()) as nat) =~= Seq::<u32>::empty());
            assert(id_values(out@) + Seq::<u32>::empty() =~= id_values(out@));
        }
        assert forall|x: u32| #[trigger] q(x) == (ctx.live(c) && pd(x)) by {}
        assert(ctx.live(c));
        if dpos {
            assert forall|x: u32| #[trigger] q(x) && all.contains(x) implies s.contains(x) by {
                assert(pd(x));
                assert(ids_of(driver@).contains(x) == maps@[best as int].1);
            }
            lemma_select_sub(all, s, q, limit as nat);
            assert forall|t: int| 0 <= t < s.len() implies q(#[trigger] s[t]) == pd(s[t]) by {}
            lemma_select_ext(s, q, pd, limit as nat);
        } else {
            assert forall|t: int| 0 <= t < s.len() implies q(#[trigger] s[t]) == pd(s[t]) by {}
            lemma_select_ext(s, q, pd, limit as nat);
        }
        if conflicting(c) {
            let (j1, j2) = choose|j1: int, j2: int|
                0 <= j1 < c.len() && 0 <= j2 < c.len() && #[trigger] c[j1].0 == #[trigger] c[j2].0
                    && c[j1].1 != c[j2].1;
            assert forall|t: int| 0 <= t < all.len() implies !q(#[trigger] all[t]) by {
                let x = all[t];
                if ctx.sat(c, x) {
                    assert(ctx.has_tag(c[j1].0, x) == c[j1].1);
                    assert(ctx.has_tag(c[j2].0, x) == c[j2].1);
                }
            }
            lemma_select_none(all, q, limit as nat);
            assert(id_values(out@).len() == 0);
        }
    }
    out
}

} // verus!

verus! {

/// The union of two ascending ID lists, ascending, cut after `limit` IDs.
fn merge_ids(x: &Vec<ID>, y: &Vec<ID>, limit: usize) -> (r: Vec<ID>)
    ensures
        id_values(r@) == merge(id_values(x@), id_values(y@), limit as nat),
{
    let ghost xs = id_values(x@);
    let ghost ys = id_values(y@);
    let mut out: Vec<ID> = Vec::new();
    let mut i: usize = 0;
    let mut j: usize = 0;
    assert(xs.skip(0) =~= xs);
    assert(ys.skip(0) =~= ys);
    while out.len() < limit && (i < x.len() || j < y.len())
        invariant
            xs == id_values(x@),
            ys == id_values(y@),
            i <= x@.len(),
            j <= y@.len(),
            out@.len() <= limit,
            id_values(out@) + merge(xs.skip(i as int), ys.skip(j as int), (limit - out@.len()) as nat)
                == merge(xs, ys, limit as nat),
        decreases x@.len() + y@.len() - i - j,
    {
        let ghost before = id_values(out@);
        let ghost xr = xs.skip(i as int);
        let ghost yr = ys.skip(j as int);
        assert(xr.len() > 0 ==> xr[0] == x@[i as int].0 && xr.drop_first() =~= xs.skip(i + 1));
        assert(yr.len() > 0 ==> yr[0] == y@[j as int].0 && yr.drop_first() =~= ys.skip(j + 1));
        if j >= y.len() || (i < x.len() && x[i].0 < y[j].0) {
            out.push(x[i]);
            i = i + 1;
        } else if i >= x.len() || y[j].0 < x[i].0 {
            out.push(y[j]);
            j = j + 1;
        } else {
            out.push(x[i]);
            i = i + 1;
            j = j + 1;
        }
        assert(id_values(out@) =~= before + seq![out@.last().0]);
    }
    assert(merge(xs.skip(i as int), ys.skip(j as int), (limit - out@.len()) as nat) =~= Seq::<
        u32,
    >::empty());
    assert(id_values(out@) + Seq::<u32>::empty() =~= id_values(out@));
    out
}

/// The payload stored under `id`.
pub open spec fn value_for(d: Seq<u8>, id: u32) -> Seq<u8> {
    rec_value(d, choose|k: int| 0 <= k < num_records(d) && rec_id(d, k) == id)
}

/// The payloads of `ids`, in order, skipping IDs without a record.
pub open spec fn values_of(d: Seq<u8>, ids: Seq<u32>) -> Seq<Seq<u8>>
    decreases ids.len(),
{
    if ids.len() == 0 {
        seq![]
    } else if rec_ids(d).contains(ids.last()) {
        values_of(d, ids.drop_last()).push(value_for(d, ids.last()))
    } else {
        values_of(d, ids.drop_last())
    }
}

/// The payloads of a sequence of values.
pub open spec fn values_view(s: Seq<Value>) -> Seq<Seq<u8>> {
    s.map_values(|v: Value| v.0@)
}

/// In a well-formed store one record holds each ID.
pub proof fn lemma_record_unique(d: Seq<u8>, id: u32, v: Seq<u8>)
    requires
        is_store(d),
        has_record(d, id, v),
    ensures
        v == value_for(d, id),
{
    let k = choose|k: int| 0 <= k < num_records(d) && rec_id(d, k) == id && rec_value(d, k) == v;
    let k2 = choose|k: int| 0 <= k < num_records(d) && rec_id(d, k) == id;
    assert(rec_ids(d)[k] == id && rec_ids(d)[k2] == id);
    if k < k2 {
        assert(rec_ids(d)[k] < rec_ids(d)[k2]);
    } else if k2 < k {
        assert(rec_ids(d)[k2] < rec_ids(d)[k]);
    }
}

/// The values stored under `ids`, in order; IDs without a record are skipped.
fn values_of_ids(datamap: &Vec<u8>, ids: &Vec<ID>) -> (r: Vec<Value>)
    requires
        is_store(datamap@),
    ensures
        values_view(r@) == values_of(datamap@, id_values(ids@)),
{
    let mut out: Vec<Value> = Vec::new();
    let mut i: usize = 0;
    while i < ids.len()
        invariant
            is_store(datamap@),
            i <= ids@.len(),
            values_view(out@) == values_of(datamap@, id_values(ids@).take(i as int)),
        decreases ids@.len() - i,
    {
        let ghost before = values_view(out@);
        assert(id_values(ids@).take(i + 1).drop_last() =~= id_values(ids@).take(i as int));
        assert(id_values(ids@).take(i + 1).last() == ids@[i as int].0);
        match data(datamap.as_slice(), ids[i]) {
            Some(v) => {
                proof {
                    lemma_record_unique(datamap@, ids@[i as int].0, v.0@);
                }
                out.push(v);
                assert(values_view(out@) =~= before.push(out@.last().0@));
            },
            None => {},
        }
        i = i + 1;
    }
    assert(id_values(ids@).take(i as int) =~= id_values(ids@));
    out
}

/// The values of the IDs that the clauses select: the first `limit` IDs of
/// the All-Index, ascending, that satisfy some clause that has a literal on
/// an indexed tag. No clauses at all, the empty query, stands for every item:
/// the first `limit` stored values.
pub fn execute(ctx: &TagCtx, cnf: &CNF, limit: usize) -> (r: Vec<Value>)
    requires
        ctx.wf(),
    ensures
        values_view(r@) == query_values(ctx, cnf@, limit as nat),
{
    if cnf.0.len() == 0 {
        return iter_data(&ctx.datamap, limit);
    }
    let ghost cs = cnf@;
    let ghost all = ctx.all_ids();
    let mut ids: Vec<ID> = Vec::new();
    let mut k: usize = 0;
    proof {
        assert forall|i: int| 0 <= i < all.len() implies !(|x: u32| ctx.matches(cs.take(0), x))(
            #[trigger] all[i],
        ) by {}
        lemma_select_none(all, |x: u32| ctx.matches(cs.take(0), x), limit as nat);
    }
    while k < cnf.0.len()
        invariant
            ctx.wf(),
            cs == cnf@,
            all == ctx.all_ids(),
            k <= cnf.0@.len(),
            id_values(ids@) == select(all, |x: u32| ctx.matches(cs.take(k as int), x), limit as nat),
        decreases cnf.0@.len() - k,
    {
        let res = execute_and(ctx, &cnf.0[k], limit);
        let ghost p = |x: u32| ctx.matches(cs.take(k as int), x);
        let ghost q = ctx.clause_pred(clause_view(cnf.0@[k as int]@));
        assert(cs[k as int] == clause_view(cnf.0@[k as int]@));
        ids = merge_ids(&ids, &res, limit);
        proof {
            lemma_merge_select(all, p, q, limit as nat, limit as nat, limit as nat);
            let p2 = |x: u32| ctx.matches(cs.take(k + 1), x);
            assert forall|i: int| 0 <= i < all.len() implies (|x: u32| p(x) || q(x))(
                #[trigger] all[i],
            ) == p2(all[i]) by {
                let x = all[i];
                let c0 = cs.take(k as int);
                let c1 = cs.take(k + 1);
                if p(x) {
                    let t = choose|t: int| 0 <= t < c0.len() && ctx.live(c0[t]) && #[trigger] ctx.sat(c0[t], x);
                    assert(c1[t] == c0[t]);
                }
                if q(x) {
                    assert(c1[k as int] == cs[k as int]);
                }
                if p2(x) {
                    let t = choose|t: int| 0 <= t < c1.len() && ctx.live(c1[t]) && #[trigger] ctx.sat(c1[t], x);
                    if t < k {
                        assert(c0[t] == c1[t]);
                    }
                }
            }
            lemma_select_ext(all, |x: u32| p(x) || q(x), p2, limit as nat);
        }
        k = k + 1;
    }
    proof {
        assert(cs.take(k as int) =~= cs);
    }
    values_of_ids(&ctx.datamap, &ids)
}

/// The values a query with clauses `cs` yields: the first `limit` stored
/// values when there are no clauses, else the values of `query_ids`.
pub open spec fn query_values(ctx: &TagCtx, cs: Seq<Seq<Lit>>, limit: nat) -> Seq<Seq<u8>> {
    if cs.len() == 0 {
        first_values(ctx.datamap@, limit)
    } else {
        values_of(ctx.datamap@, ctx.query_ids(cs, limit))
    }
}

/// The payloads of the first `limit` records of store `d`.
pub open spec fn first_values(d: Seq<u8>, limit: nat) -> Seq<Seq<u8>> {
    Seq::new(
        if limit < num_records(d) { limit } else { num_records(d) as nat },
        |k: int| rec_value(d, k),
    )
}

/// The payloads of the first `limit` records, in ID order.
fn iter_data(datamap: &Vec<u8>, limit: usize) -> (r: Vec<Value>)
    requires
        is_store(datamap@),
    ensures
        values_view(r@) == first_values(datamap@, limit as nat),
{
    let n = datamap.len() / RECORD_SIZE;
    let mut out: Vec<Value> = Vec::new();
    let mut k: usize = 0;
    while k < n && k < limit
        invariant
            is_store(datamap@),
            n == num_records(datamap@),
            k <= n,
            k <= limit,
            values_view(out@) == Seq::new(k as nat, |t: int| rec_value(datamap@, t)),
        decreases n - k,
    {
        assert(record_ok(datamap@, k as int));
        let v = value_from_off(datamap.as_slice(), k);
        let ghost before = out@;
        out.push(v);
        assert(out@ == before.push(v));
        assert(values_view(out@) =~= values_view(before).push(v.0@));
        k = k + 1;
        assert(values_view(out@) =~= Seq::new(k as nat, |t: int| rec_value(datamap@, t)));
    }
    assert(values_view(out@) =~= first_values(datamap@, limit as nat));
    out
}

/// What running a query yields for a parse outcome `p`: the parse error;
/// the first `limit` stored values when nothing was parsed; otherwise the
/// values that the normal form of the expression selects.
pub open spec fn run_outcome(
    ctx: &TagCtx,
    p: Result<Option<Expr>, ParseError>,
    r: Result<Vec<Value>, ParseError>,
    limit: nat,
) -> bool {
    match p {
        Err(e) => r == Err::<Vec<Value>, ParseError>(e),
        Ok(None) => r matches Ok(vs) && values_view(vs@) == first_values(ctx.datamap@, limit),
        Ok(Some(e)) => r matches Ok(vs) && values_view(vs@) == query_values(ctx, cnf_of(e), limit),
    }
}

/// Runs a query text: no operand or operator means the first `limit` stored
/// values; otherwise the values that its normal form selects.
pub fn parse_and_execute(ctx: &TagCtx, qry: &str, limit: usize) -> (r: Result<Vec<Value>, ParseError>)
    requires
        ctx.wf(),
    ensures
        exists|ts: Seq<Token>|
            tokens_view(ts) == lex_from(qry@, 0) && run_outcome(ctx, rpn_result(postfix(ts)), r, limit as nat),
{
    let p = parse_query(qry);
    let ghost pg = p;
    let r = match p {
        Err(e) => Err(e),
        Ok(None) => Ok(execute(ctx, &CNF(Vec::new()), limit)),
        Ok(Some(e)) => Ok(execute(ctx, &to_cnf(e), limit)),
    };
    assert(run_outcome(ctx, pg, r, limit as nat));
    r
}

} // verus!

verus! {

/// Tag `n` is named by some literal of the clauses.
pub open spec fn names_tag(cs: Seq<Seq<Lit>>, n: Seq<char>) -> bool {
    exists|i: int, j: int| 0 <= i < cs.len() && 0 <= j < cs[i].len() && #[trigger] cs[i][j].0 == n
}

/// Some literal before clause `i`, or in clause `i` before literal `j`,
/// names tag `n`.
pub open spec fn named_before(cs: Seq<Seq<Lit>>, i: int, j: int, n: Seq<char>) -> bool {
    exists|p: int, q: int|
        0 <= p < cs.len() && 0 <= q < cs[p].len() && (p < i || (p == i && q < j)) && #[trigger] cs[p][q].0
            == n
}

/// Some name of `out` is `n`.
pub open spec fn listed(out: Seq<TagName>, n: Seq<char>) -> bool {
    exists|t: int| 0 <= t < out.len() && #[trigger] out[t]@ == n
}

/// The tags a query reads, each once: these are the indexes to load.
pub fn prepare_tags(cnf: &CNF) -> (r: Vec<TagName>)
    ensures
        forall|n: Seq<char>| #[trigger] names_tag(cnf@, n) <==> listed(r@, n),
        forall|a: int, b: int| 0 <= a < b < r@.len() ==> r@[a]@ != r@[b]@,
{
    let ghost cs = cnf@;
    let mut out: Vec<TagName> = Vec::new();
    let mut i: usize = 0;
    while i < cnf.0.len()
        invariant
            cs == cnf@,
            i <= cs.len(),
            forall|a: int, b: int| 0 <= a < b < out@.len() ==> out@[a]@ != out@[b]@,
            forall|n: Seq<char>| #![trigger named_before(cs, i as int, 0, n)] #![trigger listed(out@, n)]
                named_before(cs, i as int, 0, n) <==> listed(out@, n),
        decreases cs.len() - i,
    {
        let clause = &cnf.0[i];
        assert(cs[i as int] == clause_view(clause@));
        let mut j: usize = 0;
        while j < clause.len()
            invariant
                cs == cnf@,
                i < cs.len(),
                clause == cnf.0@[i as int],
                cs[i as int] == clause_view(clause@),
                j <= clause@.len(),
                forall|a: int, b: int| 0 <= a < b < out@.len() ==> out@[a]@ != out@[b]@,
                forall|n: Seq<char>| #![trigger named_before(cs, i as int, j as int, n)] #![trigger listed(out@, n)]
                    named_before(cs, i as int, j as int, n) <==> listed(out@, n),
            decreases clause@.len() - j,
        {
            let name = &clause[j].0;
            assert(cs[i as int][j as int].0 == name@);
            let mut k: usize = 0;
            let mut seen = false;
            while k < out.len()
                invariant
                    k <= out@.len(),
                    seen ==> listed(out@, name@),
                    !seen ==> forall|t: int| 0 <= t < k ==> #[trigger] out@[t]@ != name@,
                decreases out@.len() - k,
            {
                if out[k].0 == name.0 {
                    assert(out@[k as int]@ == name@);
                    seen = true;
                }
                k = k + 1;
            }
            let ghost before = out@;
            if !seen {
                out.push(name.duplicate());
                assert(out@[before.len() as int]@ == name@);
                assert forall|a: int, b: int| 0 <= a < b < out@.len() implies out@[a]@ != out@[b]@ by {
                    if b == before.len() {
                        assert(out@[a] == before[a]);
                    } else {
                        assert(out@[a] == before[a] && out@[b] == before[b]);
                    }
                }
            }
            assert forall|n: Seq<char>| #![trigger named_before(cs, i as int, j + 1, n)] #![trigger listed(out@, n)]
                named_before(cs, i as int, j + 1, n) <==> listed(out@, n) by {
                if named_before(cs, i as int, j + 1, n) {
                    let (p, q) = choose|p: int, q: int|
                        0 <= p < cs.len() && 0 <= q < cs[p].len() && (p < i || (p == i && q < j + 1)) && #[trigger] cs[p][q].0 == n;
                    if p == i && q == j {
                        if !seen {
                            assert(out@[before.len() as int]@ == n);
                        } else {
                            let t = choose|t: int| 0 <= t < before.len() && #[trigger] before[t]@ == n;
                            assert(out@[t] == before[t]);
                        }
                    } else {
                        assert(named_before(cs, i as int, j as int, n));
                        let t = choose|t: int| 0 <= t < before.len() && #[trigger] before[t]@ == n;
                        assert(out@[t] == before[t]);
                    }
                }
                if listed(out@, n) {
                    let t = choose|t: int| 0 <= t < out@.len() && #[trigger] out@[t]@ == n;
                    if t < before.len() {
                        assert(out@[t] == before[t]);
                        assert(listed(before, n));
                    } else {
                        assert(cs[i as int][j as int].0 == n);
                    }
                }
            }
            j = j + 1;
        }
        assert forall|n: Seq<char>| named_before(cs, i + 1, 0, n) == #[trigger] named_before(cs, i as int, clause@.len() as int, n) by {
            if named_before(cs, i + 1, 0, n) {
                let (p, q) = choose|p: int, q: int|
                    0 <= p < cs.len() && 0 <= q < cs[p].len() && (p < i + 1 || (p == i + 1 && q < 0)) && #[trigger] cs[p][q].0 == n;
                assert(p < i || (p == i && q < clause@.len()));
            }
            if named_before(cs, i as int, clause@.len() as int, n) {
                let (p, q) = choose|p: int, q: int|
                    0 <= p < cs.len() && 0 <= q < cs[p].len() && (p < i || (p == i && q < clause@.len())) && #[trigger] cs[p][q].0 == n;
                assert(p < i + 1);
            }
        }
        i = i + 1;
    }
    assert forall|n: Seq<char>| #[trigger] names_tag(cs, n) <==> listed(out@, n) by {
        if names_tag(cs, n) {
            let (p, q) = choose|p: int, q: int| 0 <= p < cs.len() && 0 <= q < cs[p].len() && #[trigger] cs[p][q].0 == n;
            assert(named_before(cs, i as int, 0, n));
        }
        if listed(out@, n) {
            assert(named_before(cs, i as int, 0, n));
        }
    }
    out
}

} // verus!
