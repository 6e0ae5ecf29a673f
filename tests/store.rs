use rtag::cnf::to_cnf;
use rtag::parse::{parse_query, ParseError};
use rtag::qry::{find, parse_and_execute, prepare_tags, read_int, write_int, Expr, TagCtx, CNF};
use rtag::write::{
    add_tag, check_index, check_store, data, del_tag, insert_data, insert_tag_in_map,
    remove_tag_from_map, search_data, value_from_off, StoreError,
};
use rtag::{TagName, Value, ID};

fn empty() -> TagCtx {
    TagCtx::new(vec![], vec![], vec![]).unwrap()
}

fn tag(s: &str) -> TagName {
    TagName(String::from(s))
}

fn val(s: &str) -> Value {
    Value(s.as_bytes().to_vec())
}

fn query(ctx: &TagCtx, q: &str) -> Vec<String> {
    parse_and_execute(ctx, q, 100)
        .unwrap()
        .into_iter()
        .map(|v| String::from_utf8(v.0).unwrap())
        .collect()
}

fn index(ids: &[u32]) -> Vec<u8> {
    let mut b = vec![];
    for id in ids {
        b.extend_from_slice(&id.to_le_bytes());
    }
    b
}

fn decode(b: &[u8]) -> Vec<u32> {
    (0..b.len() / 4).map(|i| read_int(b, i)).collect()
}

fn tag_index<'a>(ctx: &'a TagCtx, name: &str) -> Option<&'a Vec<u8>> {
    ctx.mapped_tags.iter().find(|(n, _)| n.0 == name).map(|(_, b)| b)
}

fn music_store() -> TagCtx {
    let mut ctx = empty();
    add_tag(&mut ctx, &tag("music"), &val("song1")).unwrap();
    add_tag(&mut ctx, &tag("music"), &val("song2")).unwrap();
    add_tag(&mut ctx, &tag("rock"), &val("song1")).unwrap();
    ctx
}

#[test]
fn concrete_scenario() {
    let ctx = music_store();
    assert_eq!(query(&ctx, "music & rock"), vec!["song1"]);
    assert_eq!(query(&ctx, "music & -rock"), vec!["song2"]);
    assert_eq!(query(&ctx, "music | rock"), vec!["song1", "song2"]);
    assert_eq!(query(&ctx, "jazz"), Vec::<String>::new());
}

#[test]
fn juxtaposition_is_intersection() {
    let ctx = music_store();
    assert_eq!(query(&ctx, "music rock"), query(&ctx, "music & rock"));
    assert_eq!(query(&ctx, "-rock music"), vec!["song2"]);
    assert_eq!(query(&ctx, "!rock & music"), vec!["song2"]);
    assert_eq!(query(&ctx, "~rock + rock"), vec!["song1", "song2"]);
}

#[test]
fn round_trip_insert_query() {
    let mut ctx = empty();
    add_tag(&mut ctx, &tag("a"), &val("x")).unwrap();
    add_tag(&mut ctx, &tag("b"), &val("y")).unwrap();
    add_tag(&mut ctx, &tag("a"), &val("z")).unwrap();
    let r = query(&ctx, "a");
    assert_eq!(r.iter().filter(|v| *v == "x").count(), 1);
    assert_eq!(r, vec!["x", "z"]);
}

#[test]
fn idempotent_insert() {
    let mut ctx = empty();
    let id1 = add_tag(&mut ctx, &tag("t"), &val("v")).unwrap();
    let data1 = ctx.datamap.clone();
    let all1 = ctx.allmap.clone();
    let t1 = tag_index(&ctx, "t").unwrap().clone();
    let id2 = add_tag(&mut ctx, &tag("t"), &val("v")).unwrap();
    assert_eq!(id1, id2);
    assert_eq!(ctx.datamap, data1);
    assert_eq!(ctx.allmap, all1);
    assert_eq!(tag_index(&ctx, "t").unwrap(), &t1);
    assert_eq!(decode(&t1), vec![1]);
}

#[test]
fn deduplication_across_tags() {
    let mut ctx = empty();
    let id1 = add_tag(&mut ctx, &tag("t1"), &val("same")).unwrap();
    let id2 = add_tag(&mut ctx, &tag("t2"), &val("same")).unwrap();
    assert_eq!(id1, ID(1));
    assert_eq!(id2, ID(1));
    assert_eq!(ctx.datamap.len(), 256);
    assert_eq!(decode(&ctx.allmap), vec![1]);
    assert_eq!(decode(tag_index(&ctx, "t1").unwrap()), vec![1]);
    assert_eq!(decode(tag_index(&ctx, "t2").unwrap()), vec![1]);
}

#[test]
fn negation_complements() {
    let mut ctx = music_store();
    add_tag(&mut ctx, &tag("pop"), &val("song3")).unwrap();
    let mut both = query(&ctx, "rock");
    both.extend(query(&ctx, "-rock"));
    both.sort();
    assert_eq!(both, query(&ctx, ""));
    assert_eq!(query(&ctx, "-rock"), vec!["song2", "song3"]);
    assert_eq!(query(&ctx, ""), vec!["song1", "song2", "song3"]);
}

#[test]
fn negating_an_unknown_tag_yields_nothing() {
    let ctx = music_store();
    assert_eq!(query(&ctx, "-jazz"), Vec::<String>::new());
    assert_eq!(query(&ctx, "music & -jazz"), vec!["song1", "song2"]);
}

#[test]
fn contradiction_is_empty() {
    let ctx = music_store();
    assert_eq!(query(&ctx, "music & -music"), Vec::<String>::new());
    assert_eq!(query(&ctx, "rock & !rock"), Vec::<String>::new());
}

#[test]
fn de_morgan_equivalence() {
    let mut ctx = empty();
    let items = ["i0", "i1", "i2", "i3", "i4", "i5", "i6", "i7"];
    for (k, item) in items.iter().enumerate() {
        for (bit, name) in ["a", "b", "c"].iter().enumerate() {
            if k & (1 << bit) != 0 {
                add_tag(&mut ctx, &tag(name), &val(item)).unwrap();
            }
        }
        add_tag(&mut ctx, &tag("any"), &val(item)).unwrap();
    }
    let cases: Vec<(&str, fn(bool, bool, bool) -> bool)> = vec![
        ("any & -(a | b)", |a, b, _| !(a || b)),
        ("any & -(a & b)", |a, b, _| !(a && b)),
        ("(a | b) & (b | c)", |a, b, c| (a || b) && (b || c)),
        ("a & -(b & -c)", |a, b, c| a && !(b && !c)),
        ("--a", |a, _, _| a),
        ("any - - (a | c) b", |a, b, c| (a || c) && b),
        ("a | b & c", |a, b, c| a || (b && c)),
        ("(a | b) c", |a, b, c| (a || b) && c),
    ];
    for (q, f) in cases {
        let expected: Vec<String> = items
            .iter()
            .enumerate()
            .filter(|(k, _)| f(k & 1 != 0, k & 2 != 0, k & 4 != 0))
            .map(|(_, s)| s.to_string())
            .collect();
        assert_eq!(query(&ctx, q), expected, "query {}", q);
    }
}

#[test]
fn sorted_array_invariant() {
    let mut map = vec![];
    for id in [5u32, 3, 9, 1, 7, 3, 9] {
        insert_tag_in_map(&mut map, ID(id));
    }
    assert_eq!(decode(&map), vec![1, 3, 5, 7, 9]);
    remove_tag_from_map(&mut map, ID(5));
    remove_tag_from_map(&mut map, ID(4));
    assert_eq!(decode(&map), vec![1, 3, 7, 9]);
    insert_tag_in_map(&mut map, ID(8));
    assert_eq!(decode(&map), vec![1, 3, 7, 8, 9]);
    remove_tag_from_map(&mut map, ID(1));
    remove_tag_from_map(&mut map, ID(9));
    assert_eq!(decode(&map), vec![3, 7, 8]);
    assert!(check_index(&map));
}

#[test]
fn deletion_drops_empty_index() {
    let mut ctx = music_store();
    del_tag(&mut ctx, &tag("rock"), &val("song1")).unwrap();
    assert!(tag_index(&ctx, "rock").is_none());
    assert_eq!(query(&ctx, "rock"), Vec::<String>::new());
    assert_eq!(query(&ctx, "-rock"), Vec::<String>::new());
    assert_eq!(query(&ctx, "music & -rock"), vec!["song1", "song2"]);
    assert_eq!(query(&ctx, ""), vec!["song1", "song2"]);
}

#[test]
fn deletion_keeps_other_members() {
    let mut ctx = music_store();
    del_tag(&mut ctx, &tag("music"), &val("song1")).unwrap();
    assert_eq!(decode(tag_index(&ctx, "music").unwrap()), vec![2]);
    del_tag(&mut ctx, &tag("music"), &val("absent")).unwrap();
    del_tag(&mut ctx, &tag("jazz"), &val("song2")).unwrap();
    assert_eq!(decode(tag_index(&ctx, "music").unwrap()), vec![2]);
    assert_eq!(query(&ctx, "music"), vec!["song2"]);
}

#[test]
fn value_too_large() {
    let mut ctx = empty();
    let big = Value(vec![b'x'; 252]);
    assert_eq!(add_tag(&mut ctx, &tag("t"), &big), Err(StoreError::ValueTooLarge));
    assert_eq!(del_tag(&mut ctx, &tag("t"), &big), Err(StoreError::ValueTooLarge));
    let edge = Value(vec![b'x'; 251]);
    assert_eq!(add_tag(&mut ctx, &tag("t"), &edge), Ok(ID(1)));
    assert_eq!(query(&ctx, "t"), vec!["x".repeat(251)]);
}

#[test]
fn ids_exhausted() {
    let mut rec = vec![1u8, b'a'];
    rec.resize(252, 0);
    rec.extend_from_slice(&u32::MAX.to_le_bytes());
    let mut ctx = TagCtx::new(vec![], index(&[u32::MAX]), rec).unwrap();
    assert_eq!(add_tag(&mut ctx, &tag("t"), &val("b")), Err(StoreError::IdsExhausted));
    assert_eq!(add_tag(&mut ctx, &tag("t"), &val("a")), Ok(ID(u32::MAX)));
}

#[test]
fn corrupted_parts_are_refused() {
    assert!(TagCtx::new(vec![], index(&[2, 1]), vec![]).is_err());
    assert!(TagCtx::new(vec![], vec![0, 0, 0], vec![]).is_err());
    assert!(TagCtx::new(vec![], vec![], vec![0; 100]).is_err());
    assert!(TagCtx::new(vec![], index(&[1]), vec![]).is_err());
    assert!(TagCtx::new(vec![(tag("t"), vec![])], vec![], vec![]).is_err());
    let ctx = music_store();
    let again = TagCtx::new(ctx.mapped_tags, ctx.allmap.clone(), ctx.datamap.clone());
    assert!(again.is_ok());
    let dup = vec![(tag("t"), index(&[1])), (tag("t"), index(&[1]))];
    assert!(matches!(
        TagCtx::new(dup, index(&[1]), music_store().datamap[..256].to_vec()),
        Err(StoreError::Corrupted)
    ));
}

#[test]
fn parse_errors() {
    assert!(matches!(parse_query("&"), Err(ParseError::MissingOperand)));
    assert!(matches!(parse_query("-"), Err(ParseError::MissingOperand)));
    assert!(matches!(parse_query("a |"), Err(ParseError::MissingOperand)));
    assert!(matches!(parse_query(""), Ok(None)));
    assert!(matches!(parse_query(" ,;. "), Ok(None)));
    let ctx = music_store();
    assert!(matches!(parse_and_execute(&ctx, "a &", 10), Err(ParseError::MissingOperand)));
}

#[test]
fn parse_shapes() {
    match parse_query("a | b & -c").unwrap().unwrap() {
        Expr::Or(l, r) => {
            assert!(matches!(*l, Expr::And(_, _)));
            assert!(matches!(*r, Expr::Tag(ref t) if t.0 == "a"));
        }
        _ => panic!("union binds loosest"),
    }
    match parse_query("(a|b)c").unwrap().unwrap() {
        Expr::And(_, r) => assert!(matches!(*r, Expr::Or(_, _))),
        _ => panic!("implicit intersection after a parenthesis"),
    }
}

#[test]
fn cnf_of_single_tags() {
    let c = to_cnf(Expr::Tag(tag("t")));
    assert_eq!(c.0.len(), 1);
    assert_eq!(c.0[0].len(), 1);
    assert_eq!(c.0[0][0].0 .0, "t");
    assert!(c.0[0][0].1);
    let n = to_cnf(Expr::Not(Box::new(Expr::Tag(tag("t")))));
    assert_eq!(n.0.len(), 1);
    assert!(!n.0[0][0].1);
}

#[test]
fn cnf_distributes() {
    let e = parse_query("(a | b) & (c | d)").unwrap().unwrap();
    let c = to_cnf(e);
    assert_eq!(c.0.len(), 4);
    assert!(c.0.iter().all(|cl| cl.len() == 2));
    let d = to_cnf(parse_query("-(a & b)").unwrap().unwrap());
    assert_eq!(d.0.len(), 2);
    assert!(d.0.iter().all(|cl| cl.len() == 1 && !cl[0].1));
}

#[test]
fn prepare_tags_lists_each_once() {
    let c = CNF(vec![
        vec![(tag("a"), true), (tag("b"), false)],
        vec![(tag("a"), false), (tag("c"), true)],
    ]);
    let names: Vec<String> = prepare_tags(&c).into_iter().map(|t| t.0).collect();
    assert_eq!(names, vec!["a", "b", "c"]);
}

#[test]
fn limit_bounds_results() {
    let mut ctx = empty();
    for i in 0..10 {
        add_tag(&mut ctx, &tag("t"), &val(&format!("v{}", i))).unwrap();
    }
    let r = parse_and_execute(&ctx, "t", 3).unwrap();
    let r: Vec<String> = r.into_iter().map(|v| String::from_utf8(v.0).unwrap()).collect();
    assert_eq!(r, vec!["v0", "v1", "v2"]);
    assert_eq!(parse_and_execute(&ctx, "", 4).unwrap().len(), 4);
    assert_eq!(parse_and_execute(&ctx, "-t | t", 0).unwrap().len(), 0);
}

#[test]
fn int_codec() {
    let mut b = vec![0u8; 8];
    write_int(&mut b, 1, 0x0403_0201);
    assert_eq!(b, vec![0, 0, 0, 0, 1, 2, 3, 4]);
    assert_eq!(read_int(&b, 1), 0x0403_0201);
    assert_eq!(read_int(&b, 0), 0);
}

#[test]
fn binary_search_find() {
    let m = index(&[2, 4, 6, 8, 10]);
    assert!(find(&m, ID(2)));
    assert!(find(&m, ID(10)));
    assert!(find(&m, ID(6)));
    assert!(!find(&m, ID(5)));
    assert!(!find(&m, ID(11)));
    assert!(!find(&[], ID(1)));
}

#[test]
fn value_store_lookups() {
    let mut d = vec![];
    assert_eq!(insert_data(&mut d, &val("hello")), Ok((ID(1), true)));
    assert_eq!(insert_data(&mut d, &val("world")), Ok((ID(2), true)));
    assert_eq!(insert_data(&mut d, &val("hello")), Ok((ID(1), false)));
    assert_eq!(d.len(), 512);
    assert!(check_store(&d));
    assert_eq!(d[0], 5);
    assert_eq!(&d[1..6], b"hello");
    assert_eq!(&d[252..256], &1u32.to_le_bytes());
    assert_eq!(data(&d, ID(2)).unwrap().0, b"world".to_vec());
    assert!(data(&d, ID(3)).is_none());
    assert_eq!(value_from_off(&d, 1).0, b"world".to_vec());
    let mut needle = vec![5u8];
    needle.extend_from_slice(b"world");
    needle.resize(252, 0);
    assert_eq!(search_data(&d, &needle), Some(ID(2)));
    needle[1] = b'x';
    assert_eq!(search_data(&d, &needle), None);
}

fn lits(c: &CNF) -> Vec<Vec<(String, bool)>> {
    let mut out: Vec<Vec<(String, bool)>> = c
        .0
        .iter()
        .map(|cl| {
            let mut v: Vec<(String, bool)> = cl.iter().map(|(t, p)| (t.0.clone(), *p)).collect();
            v.sort();
            v
        })
        .collect();
    out.sort();
    out
}

fn t(s: &str) -> Box<Expr> {
    Box::new(Expr::Tag(tag(s)))
}

#[test]
fn cnf_exact_clauses() {
    let s = |x: &str, p: bool| (x.to_string(), p);
    assert_eq!(lits(&to_cnf(Expr::Tag(tag("a")))), vec![vec![s("a", true)]]);
    assert_eq!(lits(&to_cnf(Expr::Not(t("a")))), vec![vec![s("a", false)]]);
    assert_eq!(
        lits(&to_cnf(Expr::Not(Box::new(Expr::And(t("a"), t("b")))))),
        vec![vec![s("a", false)], vec![s("b", false)]]
    );
    assert_eq!(
        lits(&to_cnf(Expr::Not(Box::new(Expr::Or(t("a"), t("b")))))),
        vec![vec![s("a", false), s("b", false)]]
    );
    assert_eq!(
        lits(&to_cnf(Expr::And(Box::new(Expr::Or(t("a"), t("b"))), t("c")))),
        vec![vec![s("a", true), s("c", true)], vec![s("b", true), s("c", true)]]
    );
}

#[test]
fn cnf_nested_inputs() {
    let e1 = Expr::And(t("d"), Box::new(Expr::And(t("c"), Box::new(Expr::Or(t("a"), t("b"))))));
    let c1 = lits(&to_cnf(e1));
    assert_eq!(c1.len(), 2);
    assert!(c1.iter().all(|cl| cl.len() == 3));
    let e2 = Expr::Not(Box::new(Expr::Not(Box::new(Expr::And(
        t("a"),
        Box::new(Expr::Not(Box::new(Expr::Or(t("b"), t("c"))))),
    )))));
    let s = |x: &str, p: bool| (x.to_string(), p);
    assert_eq!(lits(&to_cnf(e2)), vec![vec![s("a", true), s("b", false), s("c", false)]]);
}

#[test]
fn tautology_yields_every_item() {
    let ctx = music_store();
    assert_eq!(query(&ctx, "rock | -rock"), vec!["song1", "song2"]);
}

#[test]
fn execute_without_clauses_lists_stored_values() {
    let ctx = music_store();
    let r = rtag::qry::execute(&ctx, &CNF(vec![]), 1);
    assert_eq!(r.len(), 1);
    assert_eq!(r[0].0, b"song1".to_vec());
    assert_eq!(rtag::qry::execute(&ctx, &CNF(vec![]), 10).len(), 2);
}

#[test]
fn duplicate_payloads_are_refused() {
    let ctx = music_store();
    let first = ctx.datamap[..256].to_vec();
    let mut twice = first.clone();
    twice.extend_from_slice(&first[..252]);
    twice.extend_from_slice(&2u32.to_le_bytes());
    assert!(matches!(
        TagCtx::new(vec![], index(&[1, 2]), twice),
        Err(StoreError::Corrupted)
    ));
}
