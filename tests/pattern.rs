use egg_pattern::{
    apply_pat, search_pat, EGraph, ENode, Id, Pattern, PatternError, RecExpr, WildMap, WildcardKind,
};
use symbolic_expressions::Sexp;

fn leaf(g: &mut EGraph, op: &str) -> Id {
    g.add(ENode::new(op.to_string(), vec![]))
}

fn node(g: &mut EGraph, op: &str, kids: Vec<Id>) -> Id {
    g.add(ENode::new(op.to_string(), kids))
}

fn wc(name: &str) -> Pattern {
    Pattern::Wildcard(name.to_string(), WildcardKind::Single)
}

fn multi(name: &str) -> Pattern {
    Pattern::Wildcard(name.to_string(), WildcardKind::ZeroOrMore)
}

fn pnode(op: &str, ch: Vec<Pattern>) -> Pattern {
    Pattern::ENode(op.to_string(), ch)
}

fn table(entries: &[(&str, WildcardKind, Vec<Id>)]) -> WildMap {
    let mut m = WildMap::new();
    for (w, k, ids) in entries {
        assert!(m.insert(w.to_string(), *k, ids.clone()).is_none());
    }
    m
}

fn expr(op: &str, children: Vec<RecExpr>) -> RecExpr {
    RecExpr { op: op.to_string(), children }
}

#[test]
fn simple_match() {
    let mut egraph = EGraph::new();

    let x = leaf(&mut egraph, "x");
    let y = leaf(&mut egraph, "y");
    let plus = node(&mut egraph, "+", vec![x, y]);

    let z = leaf(&mut egraph, "z");
    let w = leaf(&mut egraph, "w");
    let plus2 = node(&mut egraph, "+", vec![z, w]);

    egraph.union(plus, plus2);

    let lhs = pnode("+", vec![wc("?a"), wc("?b")]);
    let rhs = pnode("+", vec![wc("?b"), wc("?a")]);

    let matches = lhs.search(&egraph);
    let n_matches: usize = matches.iter().map(|m| m.mappings.len()).sum();
    assert_eq!(n_matches, 2, "matches is wrong: {:#?}", matches);

    let mut applications = Vec::new();
    for m in &matches {
        for mapping in &m.mappings {
            applications.extend(rhs.apply_one(&mut egraph, m.eclass, mapping));
        }
    }
    assert_eq!(applications.len(), 2);

    let single = WildcardKind::Single;
    let expected_mappings = vec![
        table(&[("?a", single, vec![x]), ("?b", single, vec![y])]),
        table(&[("?a", single, vec![z]), ("?b", single, vec![w])]),
    ];

    let actual_mappings: Vec<WildMap> =
        matches.iter().flat_map(|m| m.mappings.iter().map(|t| t.copy())).collect();

    if actual_mappings != expected_mappings {
        let e0 = expected_mappings[0].copy();
        let e1 = expected_mappings[1].copy();
        assert_eq!(actual_mappings, vec![e1, e0])
    }
}

#[test]
fn commute_scenario_inserts_swapped_nodes() {
    let mut g = EGraph::new();
    let x = leaf(&mut g, "x");
    let y = leaf(&mut g, "y");
    let z = leaf(&mut g, "z");
    let w = leaf(&mut g, "w");
    let plus_xy = node(&mut g, "+", vec![x, y]);
    let plus_zw = node(&mut g, "+", vec![z, w]);
    let merged = g.union(plus_xy, plus_zw);
    let lhs = pnode("+", vec![wc("?a"), wc("?b")]);
    let rhs = pnode("+", vec![wc("?b"), wc("?a")]);
    let found = lhs.search(&g);
    assert_eq!(found.len(), 1);
    assert_eq!(found[0].eclass, merged);
    assert_eq!(found[0].mappings.len(), 2);
    let a = rhs.apply_one(&mut g, merged, &found[0].mappings[0]);
    let b = rhs.apply_one(&mut g, merged, &found[0].mappings[1]);
    assert_eq!(a.len(), 1);
    assert_eq!(b.len(), 1);
    assert_ne!(a[0], b[0]);
    assert_ne!(a[0], merged);
    assert_ne!(b[0], merged);
    let yx = node(&mut g, "+", vec![y, x]);
    let wz = node(&mut g, "+", vec![w, z]);
    let mut got = vec![a[0], b[0]];
    got.sort();
    let mut want = vec![yx, wz];
    want.sort();
    assert_eq!(got, want);
}

#[test]
fn round_trip_of_ground_term() {
    let t = expr("f", vec![expr("a", vec![]), expr("g", vec![expr("b", vec![])])]);
    let p = Pattern::from_expr(&t);
    assert_eq!(p.to_expr(), Ok(t));
}

#[test]
fn to_expr_names_the_wildcard() {
    let p = pnode("f", vec![pnode("a", vec![]), wc("?x")]);
    assert_eq!(p.to_expr(), Err(PatternError::UnresolvedWildcard("?x".to_string())));
    assert_eq!(wc("?y").to_expr(), Err(PatternError::UnresolvedWildcard("?y".to_string())));
}

#[test]
fn multi_wildcard_detection() {
    assert!(multi("?r").is_multi_wildcard());
    assert!(!wc("?r").is_multi_wildcard());
    assert!(!pnode("f", vec![]).is_multi_wildcard());
}

#[test]
fn sibling_wildcards_must_agree() {
    let mut g = EGraph::new();
    let x = leaf(&mut g, "x");
    let y = leaf(&mut g, "y");
    let same = node(&mut g, "+", vec![x, x]);
    let diff = node(&mut g, "+", vec![x, y]);
    let pat = pnode("+", vec![wc("?a"), wc("?a")]);
    let on_same = search_pat(&pat, &g, same);
    assert_eq!(on_same.len(), 1);
    assert_eq!(on_same[0], table(&[("?a", WildcardKind::Single, vec![x])]));
    assert!(search_pat(&pat, &g, diff).is_empty());
    assert!(pat.search_eclass(&g, diff).is_none());
}

#[test]
fn tail_wildcard_takes_the_rest() {
    let mut g = EGraph::new();
    let x0 = leaf(&mut g, "x0");
    let x1 = leaf(&mut g, "x1");
    let x2 = leaf(&mut g, "x2");
    let f3 = node(&mut g, "f", vec![x0, x1, x2]);
    let f1 = node(&mut g, "f", vec![x0]);
    let f0 = node(&mut g, "f", vec![]);
    let pat = pnode("f", vec![wc("?a"), multi("?rest")]);
    let r3 = search_pat(&pat, &g, f3);
    assert_eq!(r3.len(), 1);
    assert_eq!(
        r3[0],
        table(&[("?a", WildcardKind::Single, vec![x0]), ("?rest", WildcardKind::ZeroOrMore, vec![x1, x2])])
    );
    let r1 = search_pat(&pat, &g, f1);
    assert_eq!(r1.len(), 1);
    assert_eq!(
        r1[0],
        table(&[("?a", WildcardKind::Single, vec![x0]), ("?rest", WildcardKind::ZeroOrMore, vec![])])
    );
    assert!(search_pat(&pat, &g, f0).is_empty());
}

#[test]
fn tail_wildcard_splices_on_apply() {
    let mut g = EGraph::new();
    let x0 = leaf(&mut g, "x0");
    let x1 = leaf(&mut g, "x1");
    let x2 = leaf(&mut g, "x2");
    let f = node(&mut g, "f", vec![x0, x1, x2]);
    let pat = pnode("f", vec![wc("?a"), multi("?rest")]);
    let found = search_pat(&pat, &g, f);
    let back = pnode("g", vec![multi("?rest"), wc("?a")]);
    let ids = apply_pat(&back, &mut g, &found[0]);
    assert_eq!(ids.len(), 1);
    let expect = node(&mut g, "g", vec![x1, x2, x0]);
    assert_eq!(ids[0], expect);
    let only_rest = apply_pat(&multi("?rest"), &mut g, &found[0]);
    assert_eq!(only_rest, vec![x1, x2]);
}

#[test]
fn two_enodes_give_two_tables() {
    let mut g = EGraph::new();
    let x = leaf(&mut g, "x");
    let a = node(&mut g, "f", vec![x]);
    let b = node(&mut g, "f", vec![x, x]);
    let c = g.union(a, b);
    let pat = pnode("f", vec![wc("?p"), multi("?q")]);
    let m = pat.search_eclass(&g, c).unwrap();
    assert_eq!(m.eclass, c);
    assert_eq!(m.mappings.len(), 2);
}

#[test]
fn leaf_match_yields_one_empty_table() {
    let mut g = EGraph::new();
    let a = leaf(&mut g, "a");
    let b = leaf(&mut g, "b");
    let c = g.union(a, b);
    let r = search_pat(&pnode("a", vec![]), &g, c);
    assert_eq!(r.len(), 1);
    assert_eq!(r[0].len(), 0);
    assert!(search_pat(&pnode("c", vec![]), &g, c).is_empty());
    assert!(search_pat(&pnode("a", vec![]), &g, 99).is_empty());
}

#[test]
fn ground_apply_is_idempotent() {
    let mut g = EGraph::new();
    let p = Pattern::from_expr(&expr("h", vec![expr("u", vec![]), expr("v", vec![])]));
    let empty = WildMap::new();
    let first = apply_pat(&p, &mut g, &empty);
    let n = g.num_classes();
    let second = apply_pat(&p, &mut g, &empty);
    assert_eq!(first, second);
    assert_eq!(g.num_classes(), n);
    assert_eq!(n, 3);
}

#[test]
fn subst_and_find_returns_one_id() {
    let mut g = EGraph::new();
    let x = leaf(&mut g, "x");
    let y = leaf(&mut g, "y");
    let m = table(&[("?a", WildcardKind::Single, vec![x]), ("?b", WildcardKind::Single, vec![y])]);
    let id = pnode("+", vec![wc("?b"), wc("?a")]).subst_and_find(&mut g, &m);
    let expect = node(&mut g, "+", vec![y, x]);
    assert_eq!(id, expect);
    assert_eq!(wc("?a").subst_and_find(&mut g, &m), x);
}

#[test]
fn binding_table_operations() {
    let mut m = WildMap::new();
    assert!(m.insert("?a".to_string(), WildcardKind::Single, vec![3]).is_none());
    assert_eq!(m.insert("?a".to_string(), WildcardKind::Single, vec![4]), Some(vec![3]));
    assert_eq!(m.len(), 1);
    assert_eq!(m.get(&"?a".to_string(), WildcardKind::Single), Some(&vec![3]));
    assert_eq!(m.get(&"?b".to_string(), WildcardKind::Single), None);
    assert_eq!(m.index(&"?a".to_string()), &vec![3]);
    let other = table(&[("?a", WildcardKind::Single, vec![4])]);
    let mut c = m.copy();
    assert!(!c.merge(&other));
    let agree = table(&[("?a", WildcardKind::Single, vec![3]), ("?b", WildcardKind::Single, vec![5])]);
    let mut d = m.copy();
    assert!(d.merge(&agree));
    assert_eq!(d, agree);
}

#[test]
fn sexp_rendering() {
    let p = pnode("+", vec![wc("?a"), pnode("x", vec![])]);
    let s = p.to_sexp();
    let atom = |a: &str| Sexp::String(a.to_string());
    assert_eq!(s, Sexp::List(vec![atom("+"), atom("?a"), atom("x")]));
    assert_eq!(pnode("x", vec![]).to_sexp(), atom("x"));
    assert_eq!(wc("?q").to_sexp(), atom("?q"));
}

#[test]
fn union_moves_nodes() {
    let mut g = EGraph::new();
    let a = leaf(&mut g, "a");
    let b = leaf(&mut g, "b");
    assert_eq!(g.union(a, b), a);
    assert_eq!(g.nodes(a).len(), 2);
    assert_eq!(g.nodes(b).len(), 0);
    assert_eq!(leaf(&mut g, "b"), a);
}
