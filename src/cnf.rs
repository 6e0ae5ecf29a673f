use vstd::prelude::*;
use crate::qry::{
    CNF, Expr, Lit, clause_holds, clause_view, clauses_view, cnf_holds, eval, lit_holds, lit_view,
};
use crate::TagName;

verus! {

/// Negation only wraps tags.
pub open spec fn is_nnf(e: Expr) -> bool
    decreases e,
{
    match e {
        Expr::Tag(_) => true,
        Expr::Not(x) => (*x) is Tag,
        Expr::And(l, r) => is_nnf(*l) && is_nnf(*r),
        Expr::Or(l, r) => is_nnf(*l) && is_nnf(*r),
    }
}

/// `e` with negations pushed down to the tags by De Morgan's laws, negated
/// as a whole when `neg` holds; a double negation cancels.
pub open spec fn nnf(e: Expr, neg: bool) -> Expr
    decreases e,
{
    match e {
        Expr::Tag(t) => if neg {
            Expr::Not(Box::new(Expr::Tag(t)))
        } else {
            Expr::Tag(t)
        },
        Expr::Not(x) => nnf(*x, !neg),
        Expr::And(l, r) => if neg {
            Expr::Or(Box::new(nnf(*l, neg)), Box::new(nnf(*r, neg)))
        } else {
            Expr::And(Box::new(nnf(*l, neg)), Box::new(nnf(*r, neg)))
        },
        Expr::Or(l, r) => if neg {
            Expr::And(Box::new(nnf(*l, neg)), Box::new(nnf(*r, neg)))
        } else {
            Expr::Or(Box::new(nnf(*l, neg)), Box::new(nnf(*r, neg)))
        },
    }
}

/// Each clause of `a`, in order, joined with each clause of `b`, in order.
pub open spec fn cross(a: Seq<Seq<Lit>>, b: Seq<Seq<Lit>>) -> Seq<Seq<Lit>>
    decreases a.len(),
{
    if a.len() == 0 {
        seq![]
    } else {
        cross(a.drop_last(), b) + b.map_values(|y: Seq<Lit>| a.last() + y)
    }
}

/// The clauses of an expression whose negations wrap tags only: a tag, or a
/// negated tag, is one clause of one literal; a disjunction joins the clause
/// lists of its sides; a conjunction distributes over them.
pub open spec fn clauses(e: Expr) -> Seq<Seq<Lit>>
    decreases e,
{
    match e {
        Expr::Tag(t) => seq![seq![(t@, true)]],
        Expr::Not(x) => match *x {
            Expr::Tag(t) => seq![seq![(t@, false)]],
            _ => seq![],
        },
        Expr::Or(l, r) => clauses(*l) + clauses(*r),
        Expr::And(l, r) => cross(clauses(*l), clauses(*r)),
    }
}

/// The normal form of an expression: negations lowered, then conjunctions
/// distributed over disjunctions and the result flattened into clauses.
pub open spec fn cnf_of(e: Expr) -> Seq<Seq<Lit>> {
    clauses(nnf(e, false))
}

/// Pushes negations down to the tags (De Morgan), negating the whole of
/// `expr` when `neg` holds.
fn lower_negs(expr: Expr, neg: bool) -> (r: Expr)
    ensures
        r == nnf(expr, neg),
        is_nnf(r),
        forall|has: spec_fn(Seq<char>) -> bool| #[trigger] eval(r, has) == (eval(expr, has) != neg),
    decreases expr,
{
    let ghost e = expr;
    match expr {
        Expr::Tag(t) => {
            let ghost tt = t;
            if neg {
                let r = Expr::Not(Box::new(Expr::Tag(t)));
                assert forall|has: spec_fn(Seq<char>) -> bool|
                    #[trigger] eval(r, has) == (eval(e, has) != neg) by {
                    assert(e == Expr::Tag(tt));
                    assert(eval(Expr::Tag(tt), has) == has(tt@));
                    assert(eval(r, has) == !eval(Expr::Tag(tt), has));
                }
                r
            } else {
                let r = Expr::Tag(t);
                assert(r == e);
                r
            }
        },
        Expr::Not(x) => {
            let ghost xv = *x;
            let r = lower_negs(*x, !neg);
            assert forall|has: spec_fn(Seq<char>) -> bool|
                #[trigger] eval(r, has) == (eval(e, has) != neg) by {
                assert(eval(e, has) == !eval(xv, has));
                assert(eval(r, has) == (eval(xv, has) != !neg));
            }
            r
        },
        Expr::And(l, r) => {
            let ghost (lv, rv) = (*l, *r);
            let a = lower_negs(*l, neg);
            let b = lower_negs(*r, neg);
            let res = if neg {
                Expr::Or(Box::new(a), Box::new(b))
            } else {
                Expr::And(Box::new(a), Box::new(b))
            };
            assert forall|has: spec_fn(Seq<char>) -> bool|
                #[trigger] eval(res, has) == (eval(e, has) != neg) by {
                assert(eval(e, has) == (eval(lv, has) && eval(rv, has)));
                assert(eval(a, has) == (eval(lv, has) != neg));
                assert(eval(b, has) == (eval(rv, has) != neg));
            }
            res
        },
        Expr::Or(l, r) => {
            let ghost (lv, rv) = (*l, *r);
            let a = lower_negs(*l, neg);
            let b = lower_negs(*r, neg);
            let res = if neg {
                Expr::And(Box::new(a), Box::new(b))
            } else {
                Expr::Or(Box::new(a), Box::new(b))
            };
            assert forall|has: spec_fn(Seq<char>) -> bool|
                #[trigger] eval(res, has) == (eval(e, has) != neg) by {
                assert(eval(e, has) == (eval(lv, has) || eval(rv, has)));
                assert(eval(a, has) == (eval(lv, has) != neg));
                assert(eval(b, has) == (eval(rv, has) != neg));
            }
            res
        },
    }
}

proof fn lemma_clause_concat(x: Seq<Lit>, y: Seq<Lit>, has: spec_fn(Seq<char>) -> bool)
    ensures
        clause_holds(x + y, has) == (clause_holds(x, has) && clause_holds(y, has)),
{
    if clause_holds(x, has) && clause_holds(y, has) {
        assert forall|j: int| 0 <= j < (x + y).len() implies #[trigger] lit_holds((x + y)[j], has) by {
            if j < x.len() {
                assert(lit_holds(x[j], has));
            } else {
                assert(lit_holds(y[j - x.len()], has));
            }
        }
    }
    if clause_holds(x + y, has) {
        assert forall|j: int| 0 <= j < x.len() implies #[trigger] lit_holds(x[j], has) by {
            assert(lit_holds((x + y)[j], has));
        }
        assert forall|j: int| 0 <= j < y.len() implies #[trigger] lit_holds(y[j], has) by {
            assert(lit_holds((x + y)[j + x.len()], has));
        }
    }
}

proof fn lemma_cnf_concat(a: Seq<Seq<Lit>>, b: Seq<Seq<Lit>>, has: spec_fn(Seq<char>) -> bool)
    ensures
        cnf_holds(a + b, has) == (cnf_holds(a, has) || cnf_holds(b, has)),
{
    if cnf_holds(a, has) {
        let i = choose|i: int| 0 <= i < a.len() && #[trigger] clause_holds(a[i], has);
        assert((a + b)[i] == a[i]);
    }
    if cnf_holds(b, has) {
        let i = choose|i: int| 0 <= i < b.len() && #[trigger] clause_holds(b[i], has);
        assert((a + b)[i + a.len()] == b[i]);
    }
    if cnf_holds(a + b, has) {
        let i = choose|i: int| 0 <= i < (a + b).len() && #[trigger] clause_holds((a + b)[i], has);
        if i < a.len() {
            assert(clause_holds(a[i], has));
        } else {
            assert(clause_holds(b[i - a.len()], has));
        }
    }
}

/// Clause `c` is some clause of `av` followed by some clause of `bv`.
spec fn joined(c: Seq<Lit>, av: Seq<Seq<Lit>>, bv: Seq<Seq<Lit>>) -> bool {
    exists|x: int, y: int| 0 <= x < av.len() && 0 <= y < bv.len() && c == av[x] + bv[y]
}

/// A copy of a clause.
fn copy_clause(c: &Vec<(TagName, bool)>) -> (r: Vec<(TagName, bool)>)
    ensures
        clause_view(r@) == clause_view(c@),
{
    let mut r: Vec<(TagName, bool)> = Vec::new();
    let mut i: usize = 0;
    while i < c.len()
        invariant
            i <= c@.len(),
            r@.len() == i,
            forall|k: int| 0 <= k < i ==> lit_view(#[trigger] r@[k]) == lit_view(c@[k]),
        decreases c@.len() - i,
    {
        r.push((c[i].0.duplicate(), c[i].1));
        i = i + 1;
    }
    assert(clause_view(r@) =~= clause_view(c@));
    r
}

/// Every clause of `a` joined with every clause of `b`: the distribution of
/// a conjunction over the disjunctions on both sides.
fn distribute(a: &Vec<Vec<(TagName, bool)>>, b: &Vec<Vec<(TagName, bool)>>) -> (r: Vec<
    Vec<(TagName, bool)>,
>)
    ensures
        clauses_view(r@) == cross(clauses_view(a@), clauses_view(b@)),
        forall|has: spec_fn(Seq<char>) -> bool|
            #[trigger] cnf_holds(clauses_view(r@), has) == (cnf_holds(clauses_view(a@), has)
                && cnf_holds(clauses_view(b@), has)),
{
    let ghost av = clauses_view(a@);
    let ghost bv = clauses_view(b@);
    let mut r: Vec<Vec<(TagName, bool)>> = Vec::new();
    let mut i: usize = 0;
    assert(clauses_view(r@) =~= cross(av.take(0), bv));
    while i < a.len()
        invariant
            i <= a@.len(),
            av == clauses_view(a@),
            bv == clauses_view(b@),
            clauses_view(r@) == cross(av.take(i as int), bv),
            forall|k: int| 0 <= k < r@.len() ==> #[trigger] joined(clauses_view(r@)[k], av, bv),
            forall|x: int, y: int|
                0 <= x < i && 0 <= y < bv.len() ==> #[trigger] clauses_view(r@).contains(
                    av[x] + bv[y],
                ),
        decreases a@.len() - i,
    {
        let mut j: usize = 0;
        assert(cross(av.take(i as int), bv) + bv.take(0).map_values(|y: Seq<Lit>| av[i as int] + y)
            =~= cross(av.take(i as int), bv));
        while j < b.len()
            invariant
                i < a@.len(),
                j <= b@.len(),
                av == clauses_view(a@),
                bv == clauses_view(b@),
                clauses_view(r@) == cross(av.take(i as int), bv) + bv.take(j as int).map_values(
                    |y: Seq<Lit>| av[i as int] + y,
                ),
                forall|k: int| 0 <= k < r@.len() ==> #[trigger] joined(clauses_view(r@)[k], av, bv),
                forall|x: int, y: int|
                    (0 <= x < i && 0 <= y < bv.len()) || (x == i && 0 <= y < j)
                        ==> #[trigger] clauses_view(r@).contains(av[x] + bv[y]),
            decreases b@.len() - j,
        {
            let mut c = copy_clause(&a[i]);
            let mut d = copy_clause(&b[j]);
            let ghost old_r = r@;
            c.append(&mut d);
            assert(clause_view(c@) =~= av[i as int] + bv[j as int]);
            r.push(c);
            assert(clauses_view(r@) =~= clauses_view(old_r).push(av[i as int] + bv[j as int]));
            assert(bv.take(j + 1).map_values(|y: Seq<Lit>| av[i as int] + y) =~= bv.take(
                j as int,
            ).map_values(|y: Seq<Lit>| av[i as int] + y).push(av[i as int] + bv[j as int]));
            assert forall|k: int| 0 <= k < r@.len() implies #[trigger] joined(
                clauses_view(r@)[k],
                av,
                bv,
            ) by {
                if k < old_r.len() {
                    assert(clauses_view(r@)[k] == clauses_view(old_r)[k]);
                    assert(joined(clauses_view(old_r)[k], av, bv));
                } else {
                    assert(clauses_view(r@)[k] == av[i as int] + bv[j as int]);
                }
            }
            assert forall|x: int, y: int|
                (0 <= x < i && 0 <= y < bv.len()) || (x == i && 0 <= y < j + 1) implies #[trigger] clauses_view(
                r@,
            ).contains(av[x] + bv[y]) by {
                if x == i && y == j {
                    assert(clauses_view(r@)[old_r.len() as int] == av[x] + bv[y]);
                } else {
                    assert(clauses_view(old_r).contains(av[x] + bv[y]));
                    let k = choose|k: int|
                        0 <= k < old_r.len() && clauses_view(old_r)[k] == av[x] + bv[y];
                    assert(clauses_view(r@)[k] == clauses_view(old_r)[k]);
                }
            }
            j = j + 1;
        }
        proof {
            let ai = av.take(i + 1);
            assert(ai.drop_last() =~= av.take(i as int));
            assert(bv.take(j as int) =~= bv);
            assert(bv.map_values(|y: Seq<Lit>| ai.last() + y) =~= bv.take(j as int).map_values(
                |y: Seq<Lit>| av[i as int] + y,
            ));
        }
        i = i + 1;
    }
    assert(av.take(i as int) =~= av);
    assert forall|has: spec_fn(Seq<char>) -> bool|
        #[trigger] cnf_holds(clauses_view(r@), has) == (cnf_holds(av, has) && cnf_holds(bv, has)) by {
        let rv = clauses_view(r@);
        if cnf_holds(rv, has) {
            let k = choose|k: int| 0 <= k < rv.len() && #[trigger] clause_holds(rv[k], has);
            assert(joined(rv[k], av, bv));
            let (x, y) = choose|x: int, y: int|
                0 <= x < av.len() && 0 <= y < bv.len() && rv[k] == av[x] + bv[y];
            lemma_clause_concat(av[x], bv[y], has);
            assert(clause_holds(av[x], has));
            assert(clause_holds(bv[y], has));
        }
        if cnf_holds(av, has) && cnf_holds(bv, has) {
            let x = choose|x: int| 0 <= x < av.len() && #[trigger] clause_holds(av[x], has);
            let y = choose|y: int| 0 <= y < bv.len() && #[trigger] clause_holds(bv[y], has);
            assert(rv.contains(av[x] + bv[y]));
            let k = choose|k: int| 0 <= k < rv.len() && rv[k] == av[x] + bv[y];
            lemma_clause_concat(av[x], bv[y], has);
            assert(clause_holds(rv[k], has));
        }
    }
    r
}

/// The clauses of an expression whose negations wrap tags only: a tag is one
/// clause of one literal, a disjunction joins the clause lists and a
/// conjunction distributes over them.
fn to_cnf_inner(expr: Expr) -> (r: Vec<Vec<(TagName, bool)>>)
    requires
        is_nnf(expr),
    ensures
        clauses_view(r@) == clauses(expr),
        forall|has: spec_fn(Seq<char>) -> bool|
            #[trigger] cnf_holds(clauses_view(r@), has) == eval(expr, has),
    decreases expr,
{
    let ghost e = expr;
    match expr {
        Expr::Tag(t) => {
            let ghost tv = t@;
            let ghost tt = t;
            let r = vec![vec![(t, true)]];
            assert(clause_view(r@[0]@) =~= seq![(tv, true)]);
            assert(clauses_view(r@) =~= seq![seq![(tv, true)]]);
            assert(e == Expr::Tag(tt));
            assert forall|has: spec_fn(Seq<char>) -> bool|
                #[trigger] cnf_holds(clauses_view(r@), has) == eval(e, has) by {
                let rv = clauses_view(r@);
                assert(rv[0][0] == (tv, true));
                assert(eval(e, has) == has(tv));
                if eval(e, has) {
                    assert(clause_holds(rv[0], has));
                }
                if cnf_holds(rv, has) {
                    assert(lit_holds(rv[0][0], has));
                }
            }
            r
        },
        Expr::Not(x) => {
            match *x {
                Expr::Tag(t) => {
                    let ghost tv = t@;
                    let ghost tt = t;
                    let r = vec![vec![(t, false)]];
                    assert(clause_view(r@[0]@) =~= seq![(tv, false)]);
                    assert(clauses_view(r@) =~= seq![seq![(tv, false)]]);
                    assert forall|has: spec_fn(Seq<char>) -> bool|
                        #[trigger] cnf_holds(clauses_view(r@), has) == eval(e, has) by {
                        let rv = clauses_view(r@);
                        assert(rv[0][0] == (tv, false));
                        assert(e == Expr::Not(Box::new(Expr::Tag(tt))));
                        assert(eval(Expr::Tag(tt), has) == has(tv));
                        assert(eval(e, has) != has(tv));
                        if eval(e, has) {
                            assert(clause_holds(rv[0], has));
                        }
                        if cnf_holds(rv, has) {
                            assert(lit_holds(rv[0][0], has));
                        }
                    }
                    r
                },
                _ => {
                    assert(false);
                    Vec::new()
                },
            }
        },
        Expr::Or(l, r) => {
            let mut a = to_cnf_inner(*l);
            let mut b = to_cnf_inner(*r);
            let ghost av = a@;
            let ghost bv = b@;
            a.append(&mut b);
            assert(clauses_view(a@) =~= clauses_view(av) + clauses_view(bv));
            assert forall|has: spec_fn(Seq<char>) -> bool|
                #[trigger] cnf_holds(clauses_view(a@), has) == eval(e, has) by {
                lemma_cnf_concat(clauses_view(av), clauses_view(bv), has);
            }
            a
        },
        Expr::And(l, r) => {
            let a = to_cnf_inner(*l);
            let b = to_cnf_inner(*r);
            distribute(&a, &b)
        },
    }
}

/// Normalizes an expression into a list of clauses that an item matches
/// exactly when it satisfies the expression.
pub fn to_cnf(expr: Expr) -> (r: CNF)
    ensures
        r@ == cnf_of(expr),
        forall|has: spec_fn(Seq<char>) -> bool| #[trigger] cnf_holds(r@, has) == eval(expr, has),
{
    let lowered = lower_negs(expr, false);
    CNF(to_cnf_inner(lowered))
}

} // verus!

verus! {

proof fn lemma_cross_nonempty(a: Seq<Seq<Lit>>, b: Seq<Seq<Lit>>)
    requires
        forall|i: int| 0 <= i < a.len() ==> (#[trigger] a[i]).len() > 0,
    ensures
        forall|k: int| 0 <= k < cross(a, b).len() ==> (#[trigger] cross(a, b)[k]).len() > 0,
    decreases a.len(),
{
    if a.len() > 0 {
        let a1 = a.drop_last();
        assert forall|i: int| 0 <= i < a1.len() implies (#[trigger] a1[i]).len() > 0 by {
            assert(a1[i] == a[i]);
        }
        lemma_cross_nonempty(a1, b);
        let front = cross(a1, b);
        let back = b.map_values(|y: Seq<Lit>| a.last() + y);
        assert(cross(a, b) == front + back);
        assert(a.last().len() > 0);
        assert forall|k: int| 0 <= k < cross(a, b).len() implies (#[trigger] cross(a, b)[k]).len() > 0 by {
            if k < front.len() {
                assert(cross(a, b)[k] == front[k]);
            } else {
                assert(cross(a, b)[k] == back[k - front.len()]);
                assert(back[k - front.len()] == a.last() + b[k - front.len()]);
            }
        }
    }
}

proof fn lemma_clauses_nonempty(e: Expr)
    ensures
        forall|k: int| 0 <= k < clauses(e).len() ==> (#[trigger] clauses(e)[k]).len() > 0,
    decreases e,
{
    match e {
        Expr::Tag(_) => {},
        Expr::Not(x) => {},
        Expr::Or(l, r) => {
            lemma_clauses_nonempty(*l);
            lemma_clauses_nonempty(*r);
            let a = clauses(*l);
            let b = clauses(*r);
            assert forall|k: int| 0 <= k < (a + b).len() implies (#[trigger] (a + b)[k]).len() > 0 by {
                if k < a.len() {
                    assert((a + b)[k] == a[k]);
                } else {
                    assert((a + b)[k] == b[k - a.len()]);
                }
            }
        },
        Expr::And(l, r) => {
            lemma_clauses_nonempty(*l);
            lemma_cross_nonempty(clauses(*l), clauses(*r));
        },
    }
}

/// No clause of a normal form is empty: each names at least one tag.
pub proof fn law_clauses_nonempty(e: Expr)
    ensures
        forall|k: int| 0 <= k < cnf_of(e).len() ==> (#[trigger] cnf_of(e)[k]).len() > 0,
{
    lemma_clauses_nonempty(nnf(e, false));
}

} // verus!

verus! {

/// Tag `n` occurs in `e`.
pub open spec fn mentions(e: Expr, n: Seq<char>) -> bool
    decreases e,
{
    match e {
        Expr::Tag(t) => t@ == n,
        Expr::Not(x) => mentions(*x, n),
        Expr::And(l, r) => mentions(*l, n) || mentions(*r, n),
        Expr::Or(l, r) => mentions(*l, n) || mentions(*r, n),
    }
}

/// Every literal of `cs` names a tag of `e`.
pub open spec fn tags_from(cs: Seq<Seq<Lit>>, e: Expr) -> bool {
    forall|k: int, j: int| 0 <= k < cs.len() && 0 <= j < cs[k].len() ==> mentions(e, #[trigger] cs[k][j].0)
}

proof fn lemma_nnf_mentions(e: Expr, neg: bool, n: Seq<char>)
    ensures
        mentions(nnf(e, neg), n) == mentions(e, n),
    decreases e,
{
    match e {
        Expr::Tag(_) => {},
        Expr::Not(x) => lemma_nnf_mentions(*x, !neg, n),
        Expr::And(l, r) => {
            lemma_nnf_mentions(*l, neg, n);
            lemma_nnf_mentions(*r, neg, n);
        },
        Expr::Or(l, r) => {
            lemma_nnf_mentions(*l, neg, n);
            lemma_nnf_mentions(*r, neg, n);
        },
    }
}

proof fn lemma_cross_tags(a: Seq<Seq<Lit>>, b: Seq<Seq<Lit>>, e: Expr)
    requires
        tags_from(a, e),
        tags_from(b, e),
    ensures
        tags_from(cross(a, b), e),
    decreases a.len(),
{
    if a.len() > 0 {
        let a1 = a.drop_last();
        assert forall|k: int, j: int| 0 <= k < a1.len() && 0 <= j < a1[k].len() implies mentions(
            e,
            #[trigger] a1[k][j].0,
        ) by {
            assert(a1[k] == a[k]);
            assert(mentions(e, a[k][j].0));
        }
        lemma_cross_tags(a1, b, e);
        let front = cross(a1, b);
        let back = b.map_values(|y: Seq<Lit>| a.last() + y);
        let c = cross(a, b);
        assert(c == front + back);
        assert forall|k: int, j: int| 0 <= k < c.len() && 0 <= j < c[k].len() implies mentions(
            e,
            #[trigger] c[k][j].0,
        ) by {
            if k < front.len() {
                assert(c[k] == front[k]);
                assert(mentions(e, front[k][j].0));
            } else {
                let y = k - front.len();
                assert(c[k] == a.last() + b[y]);
                if j < a.last().len() {
                    assert(c[k][j] == a[a.len() - 1][j]);
                    assert(mentions(e, a[a.len() - 1][j].0));
                } else {
                    assert(c[k][j] == b[y][j - a.last().len()]);
                    assert(mentions(e, b[y][j - a.last().len()].0));
                }
            }
        }
    }
}

proof fn lemma_clauses_tags(e: Expr, whole: Expr)
    requires
        forall|n: Seq<char>| mentions(e, n) ==> #[trigger] mentions(whole, n),
    ensures
        tags_from(clauses(e), whole),
    decreases e,
{
    match e {
        Expr::Tag(t) => {
            assert(mentions(e, t@));
        },
        Expr::Not(x) => {
            match *x {
                Expr::Tag(t) => {
                    assert(mentions(*x, t@));
                    assert(mentions(e, t@));
                },
                _ => {},
            }
        },
        Expr::Or(l, r) => {
            lemma_clauses_tags(*l, whole);
            lemma_clauses_tags(*r, whole);
            let a = clauses(*l);
            let b = clauses(*r);
            assert forall|k: int, j: int| 0 <= k < (a + b).len() && 0 <= j < (a + b)[k].len() implies mentions(
                whole,
                #[trigger] (a + b)[k][j].0,
            ) by {
                if k < a.len() {
                    assert((a + b)[k] == a[k]);
                    assert(mentions(whole, a[k][j].0));
                } else {
                    assert((a + b)[k] == b[k - a.len()]);
                    assert(mentions(whole, b[k - a.len()][j].0));
                }
            }
        },
        Expr::And(l, r) => {
            lemma_clauses_tags(*l, whole);
            lemma_clauses_tags(*r, whole);
            lemma_cross_tags(clauses(*l), clauses(*r), whole);
        },
    }
}

/// Every literal of a normal form names a tag that occurs in the expression.
pub proof fn law_clauses_use_own_tags(e: Expr)
    ensures
        tags_from(cnf_of(e), e),
{
    let m = nnf(e, false);
    assert forall|n: Seq<char>| mentions(m, n) implies #[trigger] mentions(e, n) by {
        lemma_nnf_mentions(e, false, n);
    }
    lemma_clauses_tags(m, e);
}

} // verus!
