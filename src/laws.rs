use vstd::prelude::*;
use crate::layout::{distinct_values, has_record, holds_value, ids_of, is_index, is_store, num_records, rec_id, rec_ids, rec_value, strictly_sorted};
use crate::qry::{Expr, Lit, TagCtx, clause_holds, cnf_holds, eval, lemma_lookup_unique, lit_holds, tag_ok};
use crate::select::{
    lemma_merge_select, lemma_select_ext, lemma_select_from, lemma_select_keeps_all, lemma_select_none,
    lemma_select_sorted, merge, select,
};
use crate::qry::{lemma_record_unique, value_for, values_of};
use crate::cnf::{clauses, cnf_of, cross, nnf};
use crate::parse::{
    Oper, ParseError, Token, TokenView, flush, ident_end, is_ident_char, lex_from, lex_ident,
    postfix, punct, rpn_result, rpn_run, rpn_step, sy_run, sy_step, token_view, tokens_view,
};
use crate::qry::{query_values, run_outcome, values_view};
use crate::write::tag_ids;
use crate::{TagName, Value};

verus! {

/// A payload is held by one record at most, so storing it again, under any
/// tag, resolves to the ID it already has.
pub proof fn law_one_id_per_value(d: Seq<u8>, v: Seq<u8>, id1: u32, id2: u32)
    requires
        is_store(d),
        distinct_values(d),
        has_record(d, id1, v),
        has_record(d, id2, v),
    ensures
        id1 == id2,
{
    let k1 = choose|k: int| 0 <= k < num_records(d) && rec_id(d, k) == id1 && rec_value(d, k) == v;
    let k2 = choose|k: int| 0 <= k < num_records(d) && rec_id(d, k) == id2 && rec_value(d, k) == v;
    assert(k1 == k2);
}

/// Once a payload is stored under `id` and tagged with `tag`, storing and
/// tagging it again finds it (so neither the value store nor the All-Index
/// grows), resolves to `id`, and `id` is already in the tag's index (so the
/// index stays as it is).
pub proof fn law_add_tag_idempotent(ctx: TagCtx, tag: Seq<char>, v: Seq<u8>, id: u32)
    requires
        ctx.wf(),
        has_record(ctx.datamap@, id, v),
        tag_ids(&ctx, tag).contains(id),
    ensures
        holds_value(ctx.datamap@, v),
        forall|id2: u32| has_record(ctx.datamap@, id2, v) ==> id2 == id,
{
    let k = choose|k: int| 0 <= k < num_records(ctx.datamap@) && rec_id(ctx.datamap@, k) == id && rec_value(ctx.datamap@, k) == v;
    assert(holds_value(ctx.datamap@, v));
    assert forall|id2: u32| has_record(ctx.datamap@, id2, v) implies id2 == id by {
        law_one_id_per_value(ctx.datamap@, v, id, id2);
    }
}

/// Every tag index is strictly ascending, so free of duplicates; the
/// mutations keep the context well-formed, so this holds after any sequence
/// of them.
pub proof fn law_tag_index_sorted(ctx: TagCtx, tag: Seq<char>)
    requires
        ctx.wf(),
    ensures
        ctx.index_of(tag) matches Some(b) ==> is_index(b) && strictly_sorted(ids_of(b)),
{
    lemma_lookup_unique(ctx.mapped_tags@, tag);
    if exists|k: int| 0 <= k < ctx.mapped_tags@.len() && #[trigger] ctx.mapped_tags@[k].0@ == tag {
        let k = choose|k: int| 0 <= k < ctx.mapped_tags@.len() && #[trigger] ctx.mapped_tags@[k].0@ == tag;
        assert(tag_ok(ctx.mapped_tags@[k].1@, ctx.all_ids()));
    } else {
        assert forall|k: int| 0 <= k < ctx.mapped_tags@.len() implies #[trigger] ctx.mapped_tags@[k].0@ != tag by {}
    }
}

/// A tag has an index exactly when it has members: removing its last member
/// drops the index, after which the tag reads as one that never existed.
pub proof fn law_index_only_when_members(ctx: TagCtx, tag: Seq<char>)
    requires
        ctx.wf(),
    ensures
        ctx.index_of(tag) is None <==> tag_ids(&ctx, tag).len() == 0,
{
    lemma_lookup_unique(ctx.mapped_tags@, tag);
    if exists|k: int| 0 <= k < ctx.mapped_tags@.len() && #[trigger] ctx.mapped_tags@[k].0@ == tag {
        let k = choose|k: int| 0 <= k < ctx.mapped_tags@.len() && #[trigger] ctx.mapped_tags@[k].0@ == tag;
        assert(tag_ok(ctx.mapped_tags@[k].1@, ctx.all_ids()));
    } else {
        assert forall|k: int| 0 <= k < ctx.mapped_tags@.len() implies #[trigger] ctx.mapped_tags@[k].0@ != tag by {}
    }
}

/// The tag assignment of item `x`.
pub open spec fn tags_of(ctx: TagCtx, x: u32) -> spec_fn(Seq<char>) -> bool {
    |n: Seq<char>| ctx.has_tag(n, x)
}

/// An item matches a clause exactly when the clause holds of its tags.
pub proof fn lemma_sat_is_holds(ctx: TagCtx, c: Seq<Lit>, x: u32)
    ensures
        ctx.sat(c, x) == clause_holds(c, tags_of(ctx, x)),
{
    let has = tags_of(ctx, x);
    if ctx.sat(c, x) {
        assert forall|j: int| 0 <= j < c.len() implies #[trigger] lit_holds(c[j], has) by {
            assert(ctx.has_tag(c[j].0, x) == c[j].1);
        }
    }
    if clause_holds(c, has) {
        assert forall|j: int| 0 <= j < c.len() implies #[trigger] ctx.has_tag(c[j].0, x) == c[j].1 by {
            assert(lit_holds(c[j], has));
        }
    }
}

/// A query only yields items whose tags satisfy its expression.
pub proof fn law_results_satisfy(ctx: TagCtx, cs: Seq<Seq<Lit>>, e: Expr, x: u32)
    requires
        forall|has: spec_fn(Seq<char>) -> bool| #[trigger] cnf_holds(cs, has) == eval(e, has),
        ctx.matches(cs, x),
    ensures
        eval(e, tags_of(ctx, x)),
{
    let i = choose|i: int| 0 <= i < cs.len() && ctx.live(cs[i]) && #[trigger] ctx.sat(cs[i], x);
    lemma_sat_is_holds(ctx, cs[i], x);
    assert(cnf_holds(cs, tags_of(ctx, x)));
}

/// A tag and its negation together, `t & -t`, yield nothing.
pub proof fn law_contradiction_is_empty(ctx: TagCtx, cs: Seq<Seq<Lit>>, t: crate::TagName, limit: nat)
    requires
        forall|has: spec_fn(Seq<char>) -> bool| #[trigger] cnf_holds(cs, has) == eval(
            Expr::And(Box::new(Expr::Tag(t)), Box::new(Expr::Not(Box::new(Expr::Tag(t))))),
            has,
        ),
    ensures
        ctx.query_ids(cs, limit) == Seq::<u32>::empty(),
{
    let e = Expr::And(Box::new(Expr::Tag(t)), Box::new(Expr::Not(Box::new(Expr::Tag(t)))));
    let all = ctx.all_ids();
    assert forall|i: int| 0 <= i < all.len() implies !(|x: u32| ctx.matches(cs, x))(#[trigger] all[i]) by {
        let x = all[i];
        if ctx.matches(cs, x) {
            law_results_satisfy(ctx, cs, e, x);
            let has = tags_of(ctx, x);
            let pos = Expr::Tag(t);
            let neg = Expr::Not(Box::new(Expr::Tag(t)));
            assert(eval(pos, has) == has(t@));
            assert(eval(neg, has) == !eval(pos, has));
            assert(eval(e, has) == (eval(pos, has) && eval(neg, has)));
        }
    }
    lemma_select_none(all, |x: u32| ctx.matches(cs, x), limit);
}

} // verus!

verus! {

/// The clauses of query `t`.
pub open spec fn tag_query(t: Seq<char>) -> Seq<Seq<Lit>> {
    seq![seq![(t, true)]]
}

/// The clauses of query `-t`.
pub open spec fn untag_query(t: Seq<char>) -> Seq<Seq<Lit>> {
    seq![seq![(t, false)]]
}

proof fn lemma_single_literal(ctx: TagCtx, t: Seq<char>, pol: bool, x: u32)
    requires
        ctx.index_of(t) is Some,
    ensures
        ctx.matches(seq![seq![(t, pol)]], x) == (ctx.has_tag(t, x) == pol),
{
    let cs = seq![seq![(t, pol)]];
    let c = cs[0];
    assert(c[0] == (t, pol));
    assert(ctx.index_of(c[0].0) is Some);
    assert(ctx.live(c));
    if ctx.has_tag(t, x) == pol {
        assert(ctx.sat(c, x));
    }
    if ctx.matches(cs, x) {
        let i = choose|i: int| 0 <= i < cs.len() && ctx.live(cs[i]) && #[trigger] ctx.sat(cs[i], x);
        assert(i == 0);
        assert(ctx.has_tag(c[0].0, x) == c[0].1);
    }
}

/// For a tag with an index, `-t` yields exactly the items of the All-Index
/// that lack `t`; `t` and `-t` share no item, and together they yield what
/// the empty query yields: the All-Index, up to the limit.
pub proof fn law_negation_complements(ctx: TagCtx, t: Seq<char>, limit: nat)
    requires
        ctx.wf(),
        ctx.index_of(t) is Some,
    ensures
        forall|x: u32| #[trigger] ctx.matches(untag_query(t), x) <==> !tag_ids(&ctx, t).contains(x),
        forall|x: u32| !(ctx.matches(tag_query(t), x) && ctx.matches(untag_query(t), x)),
        merge(ctx.query_ids(tag_query(t), limit), ctx.query_ids(untag_query(t), limit), limit)
            == select(ctx.all_ids(), |x: u32| true, limit),
{
    let all = ctx.all_ids();
    let p = |x: u32| ctx.matches(tag_query(t), x);
    let q = |x: u32| ctx.matches(untag_query(t), x);
    assert forall|x: u32| #[trigger] ctx.matches(untag_query(t), x) <==> !tag_ids(&ctx, t).contains(x) by {
        lemma_single_literal(ctx, t, false, x);
    }
    assert forall|x: u32| !(ctx.matches(tag_query(t), x) && ctx.matches(untag_query(t), x)) by {
        lemma_single_literal(ctx, t, false, x);
        lemma_single_literal(ctx, t, true, x);
    }
    assert(strictly_sorted(all));
    lemma_merge_select(all, p, q, limit, limit, limit);
    assert forall|i: int| 0 <= i < all.len() implies (|x: u32| p(x) || q(x))(#[trigger] all[i])
        == (|x: u32| true)(all[i]) by {
        lemma_single_literal(ctx, t, false, all[i]);
        lemma_single_literal(ctx, t, true, all[i]);
    }
    lemma_select_ext(all, |x: u32| p(x) || q(x), |x: u32| true, limit);
}

/// IDs that all have records map to their payloads one for one.
proof fn lemma_values_of_recorded(d: Seq<u8>, ids: Seq<u32>)
    requires
        forall|i: int| 0 <= i < ids.len() ==> rec_ids(d).contains(#[trigger] ids[i]),
    ensures
        values_of(d, ids).len() == ids.len(),
        forall|i: int| 0 <= i < ids.len() ==> #[trigger] values_of(d, ids)[i] == value_for(d, ids[i]),
    decreases ids.len(),
{
    if ids.len() > 0 {
        let front = ids.drop_last();
        assert forall|i: int| 0 <= i < front.len() implies rec_ids(d).contains(#[trigger] front[i]) by {
            assert(front[i] == ids[i]);
        }
        lemma_values_of_recorded(d, front);
        assert(rec_ids(d).contains(ids[ids.len() - 1]));
        assert forall|i: int| 0 <= i < ids.len() implies #[trigger] values_of(d, ids)[i] == value_for(d, ids[i]) by {
            if i < ids.len() - 1 {
                assert(front[i] == ids[i]);
            }
        }
    }
}

/// After `tag` is applied to the payload `v` stored under `id`, query `tag`
/// with a limit of at least the number of items yields `v` exactly once.
pub proof fn law_round_trip(ctx: TagCtx, tag: Seq<char>, v: Seq<u8>, id: u32, limit: nat)
    requires
        ctx.wf(),
        has_record(ctx.datamap@, id, v),
        tag_ids(&ctx, tag).contains(id),
        limit >= ctx.all_ids().len(),
    ensures
        values_of(ctx.datamap@, ctx.query_ids(tag_query(tag), limit)).contains(v),
        forall|i: int, j: int|
            0 <= i < j < values_of(ctx.datamap@, ctx.query_ids(tag_query(tag), limit)).len() ==> !(
            values_of(ctx.datamap@, ctx.query_ids(tag_query(tag), limit))[i] == v && values_of(
                ctx.datamap@,
                ctx.query_ids(tag_query(tag), limit),
            )[j] == v),
{
    let d = ctx.datamap@;
    let all = ctx.all_ids();
    let p = |x: u32| ctx.matches(tag_query(tag), x);
    let q = ctx.query_ids(tag_query(tag), limit);
    let k = choose|k: int| 0 <= k < num_records(d) && rec_id(d, k) == id && rec_value(d, k) == v;
    assert(rec_ids(d)[k] == id);
    assert(all.contains(id));
    let i0 = choose|i: int| 0 <= i < all.len() && all[i] == id;
    assert(ctx.index_of(tag) is Some);
    lemma_single_literal(ctx, tag, true, id);
    lemma_select_keeps_all(all, p, limit, i0);
    lemma_select_sorted(all, p, limit);
    lemma_select_from(all, p, limit);
    assert forall|i: int| 0 <= i < q.len() implies rec_ids(d).contains(#[trigger] q[i]) by {
        assert(all.contains(q[i]));
    }
    lemma_values_of_recorded(d, q);
    let vals = values_of(d, q);
    assert forall|i: int| 0 <= i < q.len() && vals[i] == v implies q[i] == id by {
        let x = q[i];
        let kx = choose|t: int| 0 <= t < rec_ids(d).len() && rec_ids(d)[t] == x;
        assert(rec_id(d, kx) == x);
        assert(has_record(d, x, value_for(d, x)));
        law_one_id_per_value(d, v, id, x);
    }
    let j0 = choose|j: int| 0 <= j < q.len() && q[j] == id;
    lemma_record_unique(d, id, v);
    assert(vals[j0] == v);
    assert forall|i: int, j: int| 0 <= i < j < vals.len() implies !(vals[i] == v && vals[j] == v) by {
        if vals[i] == v && vals[j] == v {
            assert(q[i] < q[j]);
        }
    }
}

} // verus!

verus! {

/// A non-empty run of identifier characters: the text of a tag.
pub open spec fn is_tag_text(s: Seq<char>) -> bool {
    s.len() > 0 && forall|i: int| 0 <= i < s.len() ==> #[trigger] is_ident_char(s[i])
}

proof fn lemma_ident_run(s: Seq<char>, i: int)
    requires
        0 <= i <= s.len(),
        forall|k: int| i <= k < s.len() ==> #[trigger] is_ident_char(s[k]),
    ensures
        ident_end(s, i) == s.len(),
    decreases s.len() - i,
{
    if i < s.len() {
        lemma_ident_run(s, i + 1);
    }
}

/// The text of a tag `t` parses to the query whose one clause is the literal
/// `t`.
pub proof fn law_tag_text_parses(s: Seq<char>, ts: Seq<Token>)
    requires
        is_tag_text(s),
        tokens_view(ts) == lex_from(s, 0),
    ensures
        rpn_result(postfix(ts)) matches Ok(Some(e)) && cnf_of(e) == tag_query(s),
{
    lemma_ident_run(s, 1);
    assert(s.subrange(0, s.len() as int) =~= s);
    assert(lex_from(s, s.len() as int) == Seq::<TokenView>::empty());
    assert(lex_from(s, 0) == lex_ident(s, 0));
    assert(lex_from(s, 0) =~= seq![TokenView::Ident(s)]);
    assert(ts.len() == 1);
    assert(tokens_view(ts)[0] == token_view(ts[0]));
    assert(token_view(ts[0]) == TokenView::Ident(s));
    let x = ts[0]->Ident_0;
    assert(ts[0] == Token::Ident(x));
    assert(ts.drop_last() =~= Seq::<Token>::empty());
    let st = sy_run(ts);
    assert(st == sy_step(sy_run(ts.drop_last()), ts.last()));
    assert(st.0 =~= seq![ts[0]]);
    assert(postfix(ts) == flush(st.0, st.1));
    assert(postfix(ts) =~= seq![ts[0]]);
    let p = postfix(ts);
    assert(p.drop_last() =~= Seq::<Token>::empty());
    assert(rpn_run(p) == rpn_step(rpn_run(p.drop_last()), p.last()));
    let e = Expr::Tag(TagName(x));
    assert(rpn_run(p) =~~= Ok::<Seq<Expr>, ParseError>(seq![e]));
    assert(cnf_of(e) == clauses(e));
    assert(TagName(x)@ == s);
    assert(cnf_of(e) =~~= tag_query(s));
}

/// The text `-t` of a tag `t` parses to the query whose one clause is the
/// literal not-`t`.
pub proof fn law_negated_tag_text_parses(s: Seq<char>, ts: Seq<Token>)
    requires
        is_tag_text(s),
        tokens_view(ts) == lex_from(seq!['-'] + s, 0),
    ensures
        rpn_result(postfix(ts)) matches Ok(Some(e)) && cnf_of(e) == untag_query(s),
{
    let s2 = seq!['-'] + s;
    assert forall|k: int| 1 <= k < s2.len() implies #[trigger] is_ident_char(s2[k]) by {
        assert(s2[k] == s[k - 1]);
    }
    lemma_ident_run(s2, 2);
    assert(s2.subrange(1, s2.len() as int) =~= s);
    assert(lex_from(s2, s2.len() as int) == Seq::<TokenView>::empty());
    assert(is_ident_char(s2[1]));
    assert(lex_from(s2, 1) == lex_ident(s2, 1));
    assert(lex_from(s2, 1) =~= seq![TokenView::Ident(s)]);
    assert(!is_ident_char(s2[0]));
    assert(punct(s2[0]) == Some(TokenView::Op(Oper::Neg)));
    assert(lex_from(s2, 0) =~= seq![TokenView::Op(Oper::Neg), TokenView::Ident(s)]);
    assert(ts.len() == 2);
    assert(tokens_view(ts)[0] == token_view(ts[0]));
    assert(tokens_view(ts)[1] == token_view(ts[1]));
    assert(token_view(ts[0]) == TokenView::Op(Oper::Neg));
    assert(token_view(ts[1]) == TokenView::Ident(s));
    let x = ts[1]->Ident_0;
    assert(ts[0] == Token::Op(Oper::Neg));
    assert(ts[1] == Token::Ident(x));
    let t1 = ts.drop_last();
    assert(t1 =~= seq![ts[0]]);
    assert(t1.drop_last() =~= Seq::<Token>::empty());
    let st1 = sy_run(t1);
    assert(st1 == sy_step(sy_run(t1.drop_last()), t1.last()));
    assert(st1.0 =~= Seq::<Token>::empty());
    assert(st1.1 =~= seq![ts[0]]);
    assert(!st1.2);
    let st = sy_run(ts);
    assert(st == sy_step(st1, ts.last()));
    assert(st.0 =~= seq![ts[1]]);
    assert(st.1 =~= seq![ts[0]]);
    assert(st.1.drop_last() =~= Seq::<Token>::empty());
    assert(flush(st.0, st.1) == flush(st.0.push(ts[0]), st.1.drop_last()));
    let p = postfix(ts);
    assert(p =~= seq![ts[1], ts[0]]);
    let p1 = p.drop_last();
    assert(p1 =~= seq![ts[1]]);
    assert(p1.drop_last() =~= Seq::<Token>::empty());
    assert(rpn_run(p1) == rpn_step(rpn_run(p1.drop_last()), p1.last()));
    let tg = Expr::Tag(TagName(x));
    assert(rpn_run(p1) =~~= Ok::<Seq<Expr>, ParseError>(seq![tg]));
    assert(rpn_run(p) == rpn_step(rpn_run(p1), p.last()));
    let e = Expr::Not(Box::new(tg));
    assert(seq![tg].drop_last().push(e) =~= seq![e]);
    assert(rpn_run(p) =~~= Ok::<Seq<Expr>, ParseError>(seq![e]));
    assert(nnf(e, false) == nnf(tg, true));
    assert(cnf_of(e) == clauses(Expr::Not(Box::new(tg))));
    assert(cnf_of(e) =~~= untag_query(s));
}

/// Round trip through query text: after tag `t` is applied to the payload
/// `v` stored under `id`, running the text `t` with a limit of at least the
/// number of items yields `v` exactly once.
pub proof fn law_round_trip_text(
    ctx: TagCtx,
    s: Seq<char>,
    ts: Seq<Token>,
    v: Seq<u8>,
    id: u32,
    limit: nat,
    r: Result<Vec<Value>, ParseError>,
)
    requires
        ctx.wf(),
        is_tag_text(s),
        has_record(ctx.datamap@, id, v),
        tag_ids(&ctx, s).contains(id),
        limit >= ctx.all_ids().len(),
        tokens_view(ts) == lex_from(s, 0),
        run_outcome(&ctx, rpn_result(postfix(ts)), r, limit),
    ensures
        r matches Ok(vs) && values_view(vs@).contains(v) && forall|i: int, j: int|
            0 <= i < j < vs@.len() ==> !(values_view(vs@)[i] == v && values_view(vs@)[j] == v),
{
    law_tag_text_parses(s, ts);
    law_round_trip(ctx, s, v, id, limit);
    let vs = r->Ok_0;
    assert(tag_query(s).len() == 1);
    assert(values_view(vs@) == values_of(ctx.datamap@, ctx.query_ids(tag_query(s), limit)));
    assert forall|i: int, j: int| 0 <= i < j < vs@.len() implies !(values_view(vs@)[i] == v
        && values_view(vs@)[j] == v) by {}
}

} // verus!

verus! {

/// Negation through query text: for a tag `t` with an index, running `t`
/// and `-t` yields the values of the IDs of `t` and of the All-Index
/// without `t`; the two share no ID, and merged they give the All-Index.
pub proof fn law_negation_text(
    ctx: TagCtx,
    s: Seq<char>,
    pos: Seq<Token>,
    neg: Seq<Token>,
    limit: nat,
    rp: Result<Vec<Value>, ParseError>,
    rn: Result<Vec<Value>, ParseError>,
)
    requires
        ctx.wf(),
        is_tag_text(s),
        ctx.index_of(s) is Some,
        tokens_view(pos) == lex_from(s, 0),
        tokens_view(neg) == lex_from(seq!['-'] + s, 0),
        run_outcome(&ctx, rpn_result(postfix(pos)), rp, limit),
        run_outcome(&ctx, rpn_result(postfix(neg)), rn, limit),
    ensures
        rp matches Ok(vp) && values_view(vp@) == values_of(ctx.datamap@, ctx.query_ids(tag_query(s), limit)),
        rn matches Ok(vn) && values_view(vn@) == values_of(ctx.datamap@, ctx.query_ids(untag_query(s), limit)),
        forall|x: u32| #[trigger] ctx.matches(untag_query(s), x) <==> !tag_ids(&ctx, s).contains(x),
        forall|x: u32| !(ctx.matches(tag_query(s), x) && ctx.matches(untag_query(s), x)),
        merge(ctx.query_ids(tag_query(s), limit), ctx.query_ids(untag_query(s), limit), limit)
            == select(ctx.all_ids(), |x: u32| true, limit),
{
    law_tag_text_parses(s, pos);
    law_negated_tag_text_parses(s, neg);
    law_negation_complements(ctx, s, limit);
    assert(tag_query(s).len() == 1);
    assert(untag_query(s).len() == 1);
}

} // verus!

verus! {

proof fn lemma_ident_run_to(s: Seq<char>, i: int, m: int)
    requires
        0 <= i <= m <= s.len(),
        m == s.len() || !is_ident_char(s[m]),
        forall|k: int| i <= k < m ==> #[trigger] is_ident_char(s[k]),
    ensures
        ident_end(s, i) == m,
    decreases m - i,
{
    if i < m {
        lemma_ident_run_to(s, i + 1, m);
    }
}

/// The text `t & -t`.
pub open spec fn contradiction_text(s: Seq<char>) -> Seq<char> {
    s + seq![' ', '&', ' ', '-'] + s
}

/// A tag and its negation through query text: running `t & -t` yields
/// nothing, whether or not `t` has an index.
pub proof fn law_contradiction_text(
    ctx: TagCtx,
    s: Seq<char>,
    ts: Seq<Token>,
    limit: nat,
    r: Result<Vec<Value>, ParseError>,
)
    requires
        ctx.wf(),
        is_tag_text(s),
        tokens_view(ts) == lex_from(contradiction_text(s), 0),
        run_outcome(&ctx, rpn_result(postfix(ts)), r, limit),
    ensures
        r matches Ok(vs) && vs@.len() == 0,
{
    let n = s.len() as int;
    let s2 = contradiction_text(s);
    assert(s2.len() == 2 * n + 4);
    assert forall|k: int| 0 <= k < n implies s2[k] == s[k] && s2[k + n + 4] == s[k] by {}
    assert(s2[n] == ' ' && s2[n + 1] == '&' && s2[n + 2] == ' ' && s2[n + 3] == '-');
    assert forall|k: int| 1 <= k < n implies #[trigger] is_ident_char(s2[k]) by {
        assert(s2[k] == s[k]);
    }
    lemma_ident_run_to(s2, 1, n);
    assert forall|k: int| n + 5 <= k < s2.len() implies #[trigger] is_ident_char(s2[k]) by {
        assert(s2[k] == s[k - n - 4]);
    }
    lemma_ident_run_to(s2, n + 5, s2.len() as int);
    assert(is_ident_char(s2[0]) && is_ident_char(s2[n + 4]));
    assert(s2.subrange(0, n) =~= s);
    assert(s2.subrange(n + 4, s2.len() as int) =~= s);
    assert(lex_from(s2, s2.len() as int) == Seq::<TokenView>::empty());
    assert(lex_from(s2, n + 4) == lex_ident(s2, n + 4));
    assert(lex_from(s2, n + 4) =~= seq![TokenView::Ident(s)]);
    assert(lex_from(s2, n + 3) =~= seq![TokenView::Op(Oper::Neg), TokenView::Ident(s)]);
    assert(lex_from(s2, n + 2) == lex_from(s2, n + 3));
    assert(lex_from(s2, n + 1) =~= seq![
        TokenView::Op(Oper::Intersect),
        TokenView::Op(Oper::Neg),
        TokenView::Ident(s),
    ]);
    assert(lex_from(s2, n) == lex_from(s2, n + 1));
    assert(lex_from(s2, 0) == lex_ident(s2, 0));
    assert(lex_from(s2, 0) =~= seq![
        TokenView::Ident(s),
        TokenView::Op(Oper::Intersect),
        TokenView::Op(Oper::Neg),
        TokenView::Ident(s),
    ]);
    assert(ts.len() == 4);
    assert(tokens_view(ts)[0] == token_view(ts[0]));
    assert(tokens_view(ts)[1] == token_view(ts[1]));
    assert(tokens_view(ts)[2] == token_view(ts[2]));
    assert(tokens_view(ts)[3] == token_view(ts[3]));
    let x = ts[0]->Ident_0;
    let y = ts[3]->Ident_0;
    assert(ts[0] == Token::Ident(x));
    assert(ts[1] == Token::Op(Oper::Intersect));
    assert(ts[2] == Token::Op(Oper::Neg));
    assert(ts[3] == Token::Ident(y));
    let t1 = ts.take(1);
    let t2 = ts.take(2);
    let t3 = ts.take(3);
    assert(t1.drop_last() =~= Seq::<Token>::empty());
    assert(t2.drop_last() =~= t1);
    assert(t3.drop_last() =~= t2);
    assert(ts.drop_last() =~= t3);
    let st1 = sy_run(t1);
    assert(st1 == sy_step(sy_run(t1.drop_last()), ts[0]));
    assert(st1.0 =~= seq![ts[0]] && st1.1 =~= Seq::<Token>::empty() && st1.2);
    let st2 = sy_run(t2);
    assert(st2 == sy_step(st1, ts[1]));
    assert(st2.0 =~= seq![ts[0]] && st2.1 =~= seq![ts[1]] && !st2.2);
    let st3 = sy_run(t3);
    assert(st3 == sy_step(st2, ts[2]));
    assert(st3.0 =~= seq![ts[0]] && st3.1 =~= seq![ts[1], ts[2]] && !st3.2);
    let st = sy_run(ts);
    assert(st == sy_step(st3, ts[3]));
    assert(st.0 =~= seq![ts[0], ts[3]] && st.1 =~= seq![ts[1], ts[2]]);
    assert(st.1.drop_last() =~= seq![ts[1]]);
    assert(st.1.drop_last().drop_last() =~= Seq::<Token>::empty());
    assert(flush(st.0, st.1) == flush(st.0.push(ts[2]), seq![ts[1]]));
    assert(flush(st.0.push(ts[2]), seq![ts[1]]) == flush(st.0.push(ts[2]).push(ts[1]), seq![ts[1]].drop_last()));
    let p = postfix(ts);
    assert(p =~= seq![ts[0], ts[3], ts[2], ts[1]]);
    let tx = Expr::Tag(TagName(x));
    let ty = Expr::Tag(TagName(y));
    let ny = Expr::Not(Box::new(ty));
    let e = Expr::And(Box::new(ny), Box::new(tx));
    assert(p.take(1).drop_last() =~= Seq::<Token>::empty());
    assert(p.take(2).drop_last() =~= p.take(1));
    assert(p.take(3).drop_last() =~= p.take(2));
    assert(p.drop_last() =~= p.take(3));
    assert(rpn_run(p.take(1)) == rpn_step(rpn_run(p.take(1).drop_last()), ts[0]));
    assert(rpn_run(p.take(1)) =~~= Ok::<Seq<Expr>, ParseError>(seq![tx]));
    assert(rpn_run(p.take(2)) == rpn_step(rpn_run(p.take(1)), ts[3]));
    assert(seq![tx].push(ty) =~= seq![tx, ty]);
    assert(rpn_run(p.take(2)) =~~= Ok::<Seq<Expr>, ParseError>(seq![tx, ty]));
    assert(rpn_run(p.take(3)) == rpn_step(rpn_run(p.take(2)), ts[2]));
    assert(seq![tx, ty].drop_last().push(ny) =~= seq![tx, ny]);
    assert(rpn_run(p.take(3)) =~~= Ok::<Seq<Expr>, ParseError>(seq![tx, ny]));
    assert(rpn_run(p) == rpn_step(rpn_run(p.take(3)), ts[1]));
    assert(seq![tx, ny].take(0).push(e) =~= seq![e]);
    assert(rpn_run(p) =~~= Ok::<Seq<Expr>, ParseError>(seq![e]));
    assert(rpn_result(p) == Ok::<Option<Expr>, ParseError>(Some(e)));
    assert(nnf(e, false) == Expr::And(Box::new(nnf(ny, false)), Box::new(nnf(tx, false))));
    assert(nnf(ny, false) == nnf(ty, true));
    let a = seq![seq![(s, false)]];
    let b = seq![seq![(s, true)]];
    assert(clauses(nnf(ny, false)) =~~= a);
    assert(clauses(nnf(tx, false)) =~~= b);
    let cs = cnf_of(e);
    assert(cs == cross(a, b));
    assert(a.drop_last() =~= Seq::<Seq<Lit>>::empty());
    assert(cross(a.drop_last(), b) == Seq::<Seq<Lit>>::empty());
    let joined = a[0] + b[0];
    assert(joined =~= seq![(s, false), (s, true)]);
    assert(b.map_values(|w: Seq<Lit>| a.last() + w) =~= seq![joined]);
    assert(cs =~= seq![joined]);
    let c = cs[0];
    let all = ctx.all_ids();
    assert forall|i: int| 0 <= i < all.len() implies !(|z: u32| ctx.matches(cs, z))(#[trigger] all[i]) by {
        let z = all[i];
        if ctx.matches(cs, z) {
            let k = choose|k: int| 0 <= k < cs.len() && ctx.live(cs[k]) && #[trigger] ctx.sat(cs[k], z);
            assert(k == 0);
            assert(ctx.has_tag(c[0].0, z) == c[0].1);
            assert(ctx.has_tag(c[1].0, z) == c[1].1);
        }
    }
    lemma_select_none(all, |z: u32| ctx.matches(cs, z), limit);
    assert(ctx.query_ids(cs, limit) == Seq::<u32>::empty());
    assert(values_of(ctx.datamap@, Seq::<u32>::empty()) == Seq::<Seq<u8>>::empty());
    assert(cs.len() == 1);
    let vs = r->Ok_0;
    assert(values_view(vs@).len() == 0);
}

} // verus!

verus! {

/// A query reads a tag only through its index: contexts that agree on the
/// All-Index, the value store and every tag's index (present or absent)
/// answer every query alike. So a tag whose last member was removed, and
/// whose index was dropped, reads exactly as a tag that never existed.
pub proof fn law_queries_read_indexes_only(c1: TagCtx, c2: TagCtx, cs: Seq<Seq<Lit>>, limit: nat)
    requires
        c1.allmap@ == c2.allmap@,
        c1.datamap@ == c2.datamap@,
        forall|n: Seq<char>| #[trigger] c1.index_of(n) == c2.index_of(n),
    ensures
        query_values(&c1, cs, limit) == query_values(&c2, cs, limit),
{
    let all = c1.all_ids();
    assert forall|i: int| 0 <= i < all.len() implies (|x: u32| c1.matches(cs, x))(#[trigger] all[i])
        == (|x: u32| c2.matches(cs, x))(all[i]) by {
        let x = all[i];
        assert forall|k: int| 0 <= k < cs.len() implies (c1.live(cs[k]) == c2.live(cs[k]) && #[trigger] c1.sat(cs[k], x)
            == c2.sat(cs[k], x)) by {
            let c = cs[k];
            assert forall|j: int| 0 <= j < c.len() implies #[trigger] c1.has_tag(c[j].0, x) == c2.has_tag(c[j].0, x) by {
                assert(c1.index_of(c[j].0) == c2.index_of(c[j].0));
            }
            if c1.sat(c, x) {
                assert forall|j: int| 0 <= j < c.len() implies #[trigger] c2.has_tag(c[j].0, x) == c[j].1 by {
                    assert(c1.has_tag(c[j].0, x) == c[j].1);
                    assert(c1.index_of(c[j].0) == c2.index_of(c[j].0));
                }
            }
            if c2.sat(c, x) {
                assert forall|j: int| 0 <= j < c.len() implies #[trigger] c1.has_tag(c[j].0, x) == c[j].1 by {
                    assert(c2.has_tag(c[j].0, x) == c[j].1);
                    assert(c1.index_of(c[j].0) == c2.index_of(c[j].0));
                }
            }
            if c1.live(c) {
                let j = choose|j: int| 0 <= j < c.len() && (#[trigger] c1.index_of(c[j].0)) is Some;
                assert(c2.index_of(c[j].0) is Some);
            }
            if c2.live(c) {
                let j = choose|j: int| 0 <= j < c.len() && (#[trigger] c2.index_of(c[j].0)) is Some;
                assert(c1.index_of(c[j].0) is Some);
            }
        }
        if c1.matches(cs, x) {
            let k = choose|k: int| 0 <= k < cs.len() && c1.live(cs[k]) && #[trigger] c1.sat(cs[k], x);
            assert(c2.sat(cs[k], x));
        }
        if c2.matches(cs, x) {
            let k = choose|k: int| 0 <= k < cs.len() && c2.live(cs[k]) && #[trigger] c2.sat(cs[k], x);
            assert(c1.sat(cs[k], x));
        }
    }
    lemma_select_ext(all, |x: u32| c1.matches(cs, x), |x: u32| c2.matches(cs, x), limit);
}

} // verus!
