use vstd::prelude::*;
use crate::layout::strictly_sorted;

verus! {

/// The first `limit` elements of `s`, in order, that satisfy `p`.
pub open spec fn select(s: Seq<u32>, p: spec_fn(u32) -> bool, limit: nat) -> Seq<u32>
    decreases s.len(),
{
    if s.len() == 0 || limit == 0 {
        seq![]
    } else if p(s[0]) {
        seq![s[0]] + select(s.drop_first(), p, (limit - 1) as nat)
    } else {
        select(s.drop_first(), p, limit)
    }
}

/// The union of two ascending sequences, ascending, cut after `limit`
/// elements.
pub open spec fn merge(x: Seq<u32>, y: Seq<u32>, limit: nat) -> Seq<u32>
    decreases x.len() + y.len(),
{
    if limit == 0 || (x.len() == 0 && y.len() == 0) {
        seq![]
    } else if y.len() == 0 || (x.len() > 0 && x[0] < y[0]) {
        seq![x[0]] + merge(x.drop_first(), y, (limit - 1) as nat)
    } else if x.len() == 0 || y[0] < x[0] {
        seq![y[0]] + merge(x, y.drop_first(), (limit - 1) as nat)
    } else {
        seq![x[0]] + merge(x.drop_first(), y.drop_first(), (limit - 1) as nat)
    }
}

/// What `select` keeps comes from the sequence and satisfies the predicate.
pub proof fn lemma_select_from(s: Seq<u32>, p: spec_fn(u32) -> bool, limit: nat)
    ensures
        select(s, p, limit).len() <= limit,
        forall|i: int|
            0 <= i < select(s, p, limit).len() ==> s.contains(#[trigger] select(s, p, limit)[i])
                && p(select(s, p, limit)[i]),
    decreases s.len(),
{
    if s.len() > 0 && limit > 0 {
        let l2: nat = if p(s[0]) { (limit - 1) as nat } else { limit };
        lemma_select_from(s.drop_first(), p, l2);
        let r = select(s, p, limit);
        let t = select(s.drop_first(), p, l2);
        assert forall|i: int| 0 <= i < r.len() implies s.contains(#[trigger] r[i]) && p(r[i]) by {
            if p(s[0]) {
                if i == 0 {
                    assert(s[0] == r[0]);
                } else {
                    assert(r[i] == t[i - 1]);
                    let k = choose|k: int| 0 <= k < s.drop_first().len() && s.drop_first()[k] == t[i - 1];
                    assert(s[k + 1] == r[i]);
                }
            } else {
                assert(r[i] == t[i]);
                let k = choose|k: int| 0 <= k < s.drop_first().len() && s.drop_first()[k] == t[i];
                assert(s[k + 1] == r[i]);
            }
        }
    }
}

/// Predicates that agree on every element select alike.
pub proof fn lemma_select_ext(s: Seq<u32>, p: spec_fn(u32) -> bool, q: spec_fn(u32) -> bool, limit: nat)
    requires
        forall|i: int| 0 <= i < s.len() ==> p(#[trigger] s[i]) == q(s[i]),
    ensures
        select(s, p, limit) == select(s, q, limit),
    decreases s.len(),
{
    if s.len() > 0 && limit > 0 {
        assert(p(s[0]) == q(s[0]));
        assert forall|i: int| 0 <= i < s.drop_first().len() implies p(
            #[trigger] s.drop_first()[i],
        ) == q(s.drop_first()[i]) by {
            assert(s.drop_first()[i] == s[i + 1]);
        }
        if p(s[0]) {
            lemma_select_ext(s.drop_first(), p, q, (limit - 1) as nat);
        } else {
            lemma_select_ext(s.drop_first(), p, q, limit);
        }
    }
}

/// Selecting from a sorted sub-sequence `d` of `a` that holds every element
/// satisfying `q` gives what selecting from `a` gives.
pub proof fn lemma_select_sub(a: Seq<u32>, d: Seq<u32>, q: spec_fn(u32) -> bool, limit: nat)
    requires
        strictly_sorted(a),
        strictly_sorted(d),
        forall|i: int| 0 <= i < d.len() ==> a.contains(#[trigger] d[i]),
        forall|x: u32| #[trigger] q(x) && a.contains(x) ==> d.contains(x),
    ensures
        select(a, q, limit) == select(d, q, limit),
    decreases a.len(),
{
    if a.len() == 0 {
        if d.len() > 0 {
            assert(a.contains(d[0]));
        }
    } else if limit > 0 {
        let a0 = a[0];
        let a1 = a.drop_first();
        assert forall|i: int| 0 <= i < d.len() implies a0 <= #[trigger] d[i] by {
            assert(a.contains(d[i]));
            let k = choose|k: int| 0 <= k < a.len() && a[k] == d[i];
            if k > 0 {
                assert(a[0] < a[k]);
            }
        }
        if d.len() > 0 && d[0] == a0 {
            let d1 = d.drop_first();
            assert forall|i: int| 0 <= i < d1.len() implies a1.contains(#[trigger] d1[i]) by {
                assert(d[0] < d[i + 1]);
                assert(a.contains(d[i + 1]));
                let k = choose|k: int| 0 <= k < a.len() && a[k] == d[i + 1];
                assert(k != 0);
                assert(a1[k - 1] == d1[i]);
            }
            assert forall|x: u32| #[trigger] q(x) && a1.contains(x) implies d1.contains(x) by {
                let k = choose|k: int| 0 <= k < a1.len() && a1[k] == x;
                assert(a[k + 1] == x);
                assert(a[0] < a[k + 1]);
                assert(d.contains(x));
                let j = choose|j: int| 0 <= j < d.len() && d[j] == x;
                assert(j != 0);
                assert(d1[j - 1] == x);
            }
            if q(a0) {
                lemma_select_sub(a1, d1, q, (limit - 1) as nat);
            } else {
                lemma_select_sub(a1, d1, q, limit);
            }
        } else {
            assert(!d.contains(a0)) by {
                if d.contains(a0) {
                    let j = choose|j: int| 0 <= j < d.len() && d[j] == a0;
                    if j > 0 {
                        assert(d[0] < d[j]);
                    }
                }
            }
            assert(a.contains(a0));
            assert(!q(a0));
            assert forall|i: int| 0 <= i < d.len() implies a1.contains(#[trigger] d[i]) by {
                assert(a.contains(d[i]));
                let k = choose|k: int| 0 <= k < a.len() && a[k] == d[i];
                assert(k != 0);
                assert(a1[k - 1] == d[i]);
            }
            assert forall|x: u32| #[trigger] q(x) && a1.contains(x) implies d.contains(x) by {
                let k = choose|k: int| 0 <= k < a1.len() && a1[k] == x;
                assert(a[k + 1] == x);
            }
            lemma_select_sub(a1, d, q, limit);
            if d.len() > 0 {
                assert(d[0] > a0);
            }
        }
    }
}

/// Merging the selections of two predicates selects by their disjunction.
pub proof fn lemma_merge_select(
    a: Seq<u32>,
    p: spec_fn(u32) -> bool,
    q: spec_fn(u32) -> bool,
    l1: nat,
    l2: nat,
    limit: nat,
)
    requires
        strictly_sorted(a),
        l1 >= limit,
        l2 >= limit,
    ensures
        merge(select(a, p, l1), select(a, q, l2), limit) == select(a, |x: u32| p(x) || q(x), limit),
    decreases a.len(),
{
    let pq = |x: u32| p(x) || q(x);
    if a.len() > 0 && limit > 0 {
        let a0 = a[0];
        let a1 = a.drop_first();
        assert(strictly_sorted(a1)) by {
            assert forall|i: int, j: int| 0 <= i < j < a1.len() implies a1[i] < a1[j] by {
                assert(a[i + 1] < a[j + 1]);
            }
        }
        let lp: nat = if p(a0) { (l1 - 1) as nat } else { l1 };
        let lq: nat = if q(a0) { (l2 - 1) as nat } else { l2 };
        lemma_select_from(a1, p, lp);
        lemma_select_from(a1, q, lq);
        let x1 = select(a1, p, lp);
        let y1 = select(a1, q, lq);
        if x1.len() > 0 {
            let k = choose|k: int| 0 <= k < a1.len() && a1[k] == x1[0];
            assert(a[0] < a[k + 1]);
        }
        if y1.len() > 0 {
            let k = choose|k: int| 0 <= k < a1.len() && a1[k] == y1[0];
            assert(a[0] < a[k + 1]);
        }
        let x = select(a, p, l1);
        let y = select(a, q, l2);
        if p(a0) && q(a0) {
            assert(x.drop_first() =~= x1);
            assert(y.drop_first() =~= y1);
            lemma_merge_select(a1, p, q, lp, lq, (limit - 1) as nat);
        } else if p(a0) {
            assert(x.drop_first() =~= x1);
            assert(y == y1);
            lemma_merge_select(a1, p, q, lp, lq, (limit - 1) as nat);
        } else if q(a0) {
            assert(y.drop_first() =~= y1);
            assert(x == x1);
            lemma_merge_select(a1, p, q, lp, lq, (limit - 1) as nat);
        } else {
            lemma_merge_select(a1, p, q, lp, lq, limit);
        }
    }
}

/// Selecting by a predicate that nothing satisfies gives nothing.
pub proof fn lemma_select_none(s: Seq<u32>, p: spec_fn(u32) -> bool, limit: nat)
    requires
        forall|i: int| 0 <= i < s.len() ==> !p(#[trigger] s[i]),
    ensures
        select(s, p, limit) == Seq::<u32>::empty(),
    decreases s.len(),
{
    if s.len() > 0 && limit > 0 {
        assert forall|i: int| 0 <= i < s.drop_first().len() implies !p(#[trigger] s.drop_first()[i]) by {
            assert(s.drop_first()[i] == s[i + 1]);
        }
        lemma_select_none(s.drop_first(), p, limit);
    }
}

} // verus!

verus! {

/// Two strictly ascending sequences with the same elements are equal.
pub proof fn lemma_sorted_unique(a: Seq<u32>, b: Seq<u32>)
    requires
        strictly_sorted(a),
        strictly_sorted(b),
        forall|x: u32| a.contains(x) <==> b.contains(x),
    ensures
        a == b,
    decreases a.len(),
{
    if a.len() == 0 {
        if b.len() > 0 {
            assert(b.contains(b[0]));
        }
        assert(a =~= b);
    } else {
        assert(a.contains(a[0]));
        assert(b.len() > 0);
        assert(b.contains(b[0]));
        let i = choose|i: int| 0 <= i < a.len() && a[i] == b[0];
        let j = choose|j: int| 0 <= j < b.len() && b[j] == a[0];
        if i > 0 {
            assert(a[0] < a[i]);
        }
        if j > 0 {
            assert(b[0] < b[j]);
        }
        assert(a[0] == b[0]);
        let a1 = a.drop_first();
        let b1 = b.drop_first();
        assert forall|x: u32| a1.contains(x) <==> b1.contains(x) by {
            if a1.contains(x) {
                let t = choose|t: int| 0 <= t < a1.len() && a1[t] == x;
                assert(a[0] < a[t + 1]);
                assert(a.contains(a[t + 1]));
                assert(b.contains(x));
                let u = choose|u: int| 0 <= u < b.len() && b[u] == x;
                assert(u != 0);
                assert(b1[u - 1] == x);
            }
            if b1.contains(x) {
                let t = choose|t: int| 0 <= t < b1.len() && b1[t] == x;
                assert(b[0] < b[t + 1]);
                assert(b.contains(b[t + 1]));
                assert(a.contains(x));
                let u = choose|u: int| 0 <= u < a.len() && a[u] == x;
                assert(u != 0);
                assert(a1[u - 1] == x);
            }
        }
        assert(strictly_sorted(a1)) by {
            assert forall|p: int, q: int| 0 <= p < q < a1.len() implies a1[p] < a1[q] by {
                assert(a[p + 1] < a[q + 1]);
            }
        }
        assert(strictly_sorted(b1)) by {
            assert forall|p: int, q: int| 0 <= p < q < b1.len() implies b1[p] < b1[q] by {
                assert(b[p + 1] < b[q + 1]);
            }
        }
        lemma_sorted_unique(a1, b1);
        assert(a =~= seq![a[0]] + a1);
        assert(b =~= seq![b[0]] + b1);
    }
}

} // verus!

verus! {

/// With a limit no smaller than the sequence, every satisfying element is kept.
pub proof fn lemma_select_keeps_all(s: Seq<u32>, p: spec_fn(u32) -> bool, limit: nat, i: int)
    requires
        limit >= s.len(),
        0 <= i < s.len(),
        p(s[i]),
    ensures
        select(s, p, limit).contains(s[i]),
    decreases s.len(),
{
    let r = select(s, p, limit);
    if i == 0 {
        assert(r[0] == s[0]);
    } else {
        let l2: nat = if p(s[0]) { (limit - 1) as nat } else { limit };
        lemma_select_keeps_all(s.drop_first(), p, l2, i - 1);
        let t = select(s.drop_first(), p, l2);
        let k = choose|k: int| 0 <= k < t.len() && t[k] == s.drop_first()[i - 1];
        if p(s[0]) {
            assert(r[k + 1] == t[k]);
        } else {
            assert(r[k] == t[k]);
        }
    }
}

/// Selecting from an ascending sequence gives an ascending sequence.
pub proof fn lemma_select_sorted(s: Seq<u32>, p: spec_fn(u32) -> bool, limit: nat)
    requires
        strictly_sorted(s),
    ensures
        strictly_sorted(select(s, p, limit)),
    decreases s.len(),
{
    if s.len() > 0 && limit > 0 {
        let s1 = s.drop_first();
        assert(strictly_sorted(s1)) by {
            assert forall|a: int, b: int| 0 <= a < b < s1.len() implies s1[a] < s1[b] by {
                assert(s[a + 1] < s[b + 1]);
            }
        }
        let l2: nat = if p(s[0]) { (limit - 1) as nat } else { limit };
        lemma_select_sorted(s1, p, l2);
        lemma_select_from(s1, p, l2);
        let t = select(s1, p, l2);
        let r = select(s, p, limit);
        if p(s[0]) {
            assert forall|a: int, b: int| 0 <= a < b < r.len() implies r[a] < r[b] by {
                if a == 0 {
                    assert(s1.contains(t[b - 1]));
                    let k = choose|k: int| 0 <= k < s1.len() && s1[k] == t[b - 1];
                    assert(s[0] < s[k + 1]);
                } else {
                    assert(t[a - 1] < t[b - 1]);
                }
            }
        }
    }
}

} // verus!
