use vstd::prelude::*;

use crate::egraph::{EGraph, ENode, GraphV, Id, NodeV};
use crate::pattern::{Pattern, PatternV};
use crate::product::{index_product, prefixed, index_tuples, lemma_index_product_within, tuples_within};
use crate::pattern::mentions;
use crate::wildmap::{
    insert_entry, lemma_lookup_finds, lemma_lookup_index, lemma_merge_agrees, lookup, lookup_ids, merge_into, singles_have_one, Table, WildMap,
    WildcardKind,
};

verus! {

/// A zero-or-more wildcard may stand only as the last child of a node; the
/// root and every other child are nodes or single wildcards.
pub open spec fn pattern_wf(p: PatternV) -> bool
    decreases p,
{
    match p {
        PatternV::Wildcard(_, k) => k == WildcardKind::Single,
        PatternV::Node(_, ch) => forall|i: int|
            0 <= i < ch.len() ==> (i == ch.len() - 1 && (#[trigger] ch[i]) matches PatternV::Wildcard(
                _,
                WildcardKind::ZeroOrMore,
            )) || pattern_wf(ch[i]),
    }
}

/// Whether the last child of a node is a zero-or-more wildcard.
pub open spec fn has_tail(ch: Seq<PatternV>) -> bool {
    ch.len() > 0 && ch.last() matches PatternV::Wildcard(_, WildcardKind::ZeroOrMore)
}

/// The e-nodes of class `c`; none where `c` names no class.
pub open spec fn class_nodes(g: GraphV, c: int) -> Seq<NodeV> {
    if 0 <= c < g.len() {
        g[c]
    } else {
        Seq::empty()
    }
}

/// The merge, left to right, of the tables that `tup` picks from the first
/// `n` candidate sets; `None` on a conflict.
pub open spec fn merge_tuple(cs: Seq<Seq<Table>>, tup: Seq<usize>, n: int) -> Option<Table>
    decreases n,
{
    if n <= 1 {
        Some(cs[0][tup[0] as int])
    } else {
        match merge_tuple(cs, tup, n - 1) {
            Some(t) => merge_into(t, cs[n - 1][tup[n - 1] as int]),
            None => None,
        }
    }
}

/// The consistent merges of the first `k` tuples of `ts`, in order.
pub open spec fn merge_all(cs: Seq<Seq<Table>>, ts: Seq<Seq<usize>>, k: int) -> Seq<Table>
    decreases k,
{
    if k <= 0 {
        Seq::empty()
    } else {
        merge_all(cs, ts, k - 1) + match merge_tuple(cs, ts[k - 1], cs.len() as int) {
            Some(t) => seq![t],
            None => Seq::empty(),
        }
    }
}

pub open spec fn sizes_of(cs: Seq<Seq<Table>>) -> Seq<usize> {
    cs.map_values(|s: Seq<Table>| s.len() as usize)
}

/// Every consistent merge of one table from each candidate set, in the order
/// of the cartesian product.
pub open spec fn combine(cs: Seq<Seq<Table>>) -> Seq<Table> {
    let ts = index_product(sizes_of(cs));
    merge_all(cs, ts, ts.len() as int)
}

/// All ways in which pattern `p` matches class `c`.
pub open spec fn match_class(g: GraphV, p: PatternV, c: int) -> Seq<Table>
    decreases p, 3int, 0int,
{
    match p {
        PatternV::Wildcard(w, k) => seq![seq![(w, k, seq![c as Id])]],
        PatternV::Node(op, ch) => if ch.len() == 0 {
            if class_nodes(g, c).contains((op, Seq::<Id>::empty())) {
                seq![Seq::<(Seq<char>, WildcardKind, Seq<Id>)>::empty()]
            } else {
                Seq::empty()
            }
        } else {
            match_nodes(g, p, c, class_nodes(g, c).len() as int)
        },
    }
}

/// The matches of node pattern `p` against the first `n` e-nodes of class `c`.
pub open spec fn match_nodes(g: GraphV, p: PatternV, c: int, n: int) -> Seq<Table>
    decreases p, 2int, n,
{
    if n <= 0 {
        Seq::empty()
    } else {
        match_nodes(g, p, c, n - 1) + match_node(g, p, class_nodes(g, c)[n - 1])
    }
}

/// The candidate sets of the first `m` children of node pattern `p` against
/// the child classes `kids`.
pub open spec fn child_cands(g: GraphV, p: PatternV, kids: Seq<Id>, m: int) -> Seq<Seq<Table>>
    decreases p, 0int, m,
{
    if m <= 0 {
        Seq::empty()
    } else {
        match p {
            PatternV::Node(_, ch) => if m - 1 < ch.len() {
                child_cands(g, p, kids, m - 1).push(match_class(g, ch[m - 1], kids[m - 1] as int))
            } else {
                Seq::empty()
            },
            PatternV::Wildcard(_, _) => Seq::empty(),
        }
    }
}

/// The matches of node pattern `p` against one e-node.
pub open spec fn match_node(g: GraphV, p: PatternV, e: NodeV) -> Seq<Table>
    decreases p, 1int, 0int,
{
    match p {
        PatternV::Node(op, ch) => {
            let kids = e.1;
            if e.0 != op {
                Seq::empty()
            } else if has_tail(ch) {
                if kids.len() < ch.len() - 1 {
                    Seq::empty()
                } else {
                    let tail = seq![
                        seq![(ch.last()->Wildcard_0, WildcardKind::ZeroOrMore, kids.subrange(ch.len() - 1, kids.len() as int))],
                    ];
                    combine(child_cands(g, p, kids, ch.len() - 1).push(tail))
                }
            } else if kids.len() != ch.len() {
                Seq::empty()
            } else {
                combine(child_cands(g, p, kids, ch.len() as int))
            }
        },
        PatternV::Wildcard(_, _) => Seq::empty(),
    }
}

pub open spec fn tables_view(v: Seq<WildMap>) -> Seq<Table> {
    v.map_values(|m: WildMap| m@)
}

pub open spec fn cands_view(v: Seq<Vec<WildMap>>) -> Seq<Seq<Table>> {
    v.map_values(|x: Vec<WildMap>| tables_view(x@))
}

proof fn lemma_merge_tuple_none(cs: Seq<Seq<Table>>, tup: Seq<usize>, p: int, n: int)
    requires
        1 <= p <= n,
        merge_tuple(cs, tup, p) is None,
    ensures
        merge_tuple(cs, tup, n) is None,
    decreases n - p,
{
    if p < n {
        lemma_merge_tuple_none(cs, tup, p + 1, n);
    }
}

/// Merges the tables that `tup` picks, one from each candidate set.
fn merge_picked(cands: &Vec<Vec<WildMap>>, tup: &Vec<usize>) -> (r: Option<WildMap>)
    requires
        cands.len() > 0,
        tup.len() == cands.len(),
        forall|p: int| 0 <= p < cands.len() ==> tup@[p] < (#[trigger] cands@[p]).len(),
    ensures
        match merge_tuple(cands_view(cands@), tup@, cands.len() as int) {
            Some(t) => r matches Some(m) && m@ == t,
            None => r is None,
        },
{
    let ghost cs = cands_view(cands@);
    let mut combined = cands[0][tup[0]].copy();
    let mut p: usize = 1;
    while p < cands.len()
        invariant
            1 <= p <= cands.len(),
            cs == cands_view(cands@),
            tup.len() == cands.len(),
            forall|q: int| 0 <= q < cands.len() ==> tup@[q] < (#[trigger] cands@[q]).len(),
            merge_tuple(cs, tup@, p as int) == Some(combined@),
        decreases cands.len() - p,
    {
        let ok = combined.merge(&cands[p][tup[p]]);
        if !ok {
            proof {
                lemma_merge_tuple_none(cs, tup@, p as int + 1, cands.len() as int);
            }
            return None;
        }
        p += 1;
    }
    Some(combined)
}

/// Every consistent merge of one table from each candidate set.
fn combine_cands(cands: &Vec<Vec<WildMap>>) -> (r: Vec<WildMap>)
    requires
        cands.len() > 0,
    ensures
        tables_view(r@) == combine(cands_view(cands@)),
{
    let ghost cs = cands_view(cands@);
    let mut sizes: Vec<usize> = Vec::new();
    let mut i: usize = 0;
    while i < cands.len()
        invariant
            0 <= i <= cands.len(),
            cs == cands_view(cands@),
            sizes@ == sizes_of(cs).subrange(0, i as int),
        decreases cands.len() - i,
    {
        sizes.push(cands[i].len());
        i += 1;
        proof {
            assert(sizes@ =~= sizes_of(cs).subrange(0, i as int));
        }
    }
    proof {
        assert(sizes@ =~= sizes_of(cs));
        lemma_index_product_within(sizes@);
    }
    let tuples = index_tuples(&sizes);
    let ghost ts = index_product(sizes@);
    assert(tuples@.len() == ts.len() && forall|k: int| 0 <= k < ts.len() ==> tuples@[k]@ == ts[k]) by {
        assert(tuples@.map_values(|t: Vec<usize>| t@).len() == ts.len());
        assert forall|k: int| 0 <= k < ts.len() implies tuples@[k]@ == ts[k] by {
            assert(tuples@.map_values(|t: Vec<usize>| t@)[k] == ts[k]);
        }
    }
    let mut out: Vec<WildMap> = Vec::new();
    let mut k: usize = 0;
    while k < tuples.len()
        invariant
            0 <= k <= tuples.len(),
            cs == cands_view(cands@),
            cands.len() > 0,
            tuples@.len() == ts.len(),
            forall|j: int| 0 <= j < ts.len() ==> (#[trigger] tuples@[j])@ == ts[j],
            ts == index_product(sizes_of(cs)),
            tuples_within(ts, sizes_of(cs)),
            tables_view(out@) == merge_all(cs, ts, k as int),
        decreases tuples.len() - k,
    {
        let tup = &tuples[k];
        proof {
            assert(tup@ == ts[k as int]);
            assert forall|p: int| 0 <= p < cands.len() implies tup@[p] < (#[trigger] cands@[p]).len() by {
                assert(ts[k as int][p] < sizes_of(cs)[p]);
                assert(cs[p] == tables_view(cands@[p]@));
            }
        }
        let ghost before = out@;
        match merge_picked(cands, tup) {
            Some(m) => {
                out.push(m);
                proof {
                    assert(tables_view(out@) =~= tables_view(before) + seq![m@]);
                }
            },
            None => {
                proof {
                    assert(tables_view(out@) =~= tables_view(before) + Seq::<Table>::empty());
                }
            },
        }
        k += 1;
    }
    out
}

/// The ids of `v` from position `from` on.
fn ids_from(v: &Vec<Id>, from: usize) -> (r: Vec<Id>)
    requires
        from <= v.len(),
    ensures
        r@ == v@.subrange(from as int, v@.len() as int),
{
    let mut r: Vec<Id> = Vec::new();
    let mut i: usize = from;
    while i < v.len()
        invariant
            from <= i <= v.len(),
            r@ == v@.subrange(from as int, i as int),
        decreases v.len() - i,
    {
        r.push(v[i]);
        i += 1;
        proof {
            assert(r@ =~= v@.subrange(from as int, i as int));
        }
    }
    r
}

/// All ways in which node pattern `pat` matches the e-node `e`.
fn search_node(pat: &Pattern, g: &EGraph, e: &ENode) -> (r: Vec<WildMap>)
    requires
        pattern_wf(pat@),
        pat@ matches PatternV::Node(_, ch) && ch.len() > 0,
    ensures
        tables_view(r@) == match_node(g@, pat@, e@),
    decreases pat@, 1int, 0int,
{
    match pat {
        Pattern::Wildcard(_, _) => Vec::new(),
        Pattern::ENode(op, ch) => {
            let ghost p = pat@;
            let ghost chv = p->Node_1;
            if e.op != *op {
                return Vec::new();
            }
            let len = ch.len();
            let multi = ch[len - 1].is_multi_wildcard();
            proof {
                assert(chv.last() == ch@[len - 1]@);
                assert(multi == has_tail(chv));
            }
            let m: usize;
            if multi {
                if e.children.len() < len - 1 {
                    return Vec::new();
                }
                m = len - 1;
            } else {
                if e.children.len() != len {
                    return Vec::new();
                }
                m = len;
            }
            let mut cands: Vec<Vec<WildMap>> = Vec::new();
            let mut i: usize = 0;
            while i < m
                invariant
                    0 <= i <= m,
                    m <= len,
                    m <= e.children.len(),
                    len == ch.len(),
                    p == pat@,
                    chv == p->Node_1,
                    *pat == Pattern::ENode(*op, *ch),
                    decreases_to!(*pat => *ch),
                    pattern_wf(p),
                    multi == has_tail(chv),
                    multi ==> m == len - 1,
                    !multi ==> m == len,
                    cands_view(cands@) == child_cands(g@, p, e@.1, i as int),
                decreases m - i,
            {
                proof {
                    assert(decreases_to!(*ch => ch@));
                    assert(decreases_to!(ch@ => ch@[i as int]));
                    assert(chv[i as int] == ch@[i as int]@);
                    if !pattern_wf(chv[i as int]) {
                        assert(i == len - 1);
                    }
                }
                let sub = search_pat(&ch[i], g, e.children[i]);
                let ghost before = cands@;
                cands.push(sub);
                i += 1;
                proof {
                    assert(cands_view(cands@) =~= cands_view(before).push(tables_view(sub@)));
                }
            }
            if multi {
                let mut tail = WildMap::new();
                match &ch[len - 1] {
                    Pattern::Wildcard(q, _) => {
                        tail.insert(q.clone(), WildcardKind::ZeroOrMore, ids_from(&e.children, len - 1));
                    },
                    Pattern::ENode(_, _) => {},
                }
                let ghost before = cands@;
                let mut last: Vec<WildMap> = Vec::new();
                last.push(tail);
                cands.push(last);
                proof {
                    assert(tables_view(last@) =~= seq![tail@]);
                    assert(cands_view(cands@) =~= cands_view(before).push(tables_view(last@)));
                }
            }
            combine_cands(&cands)
        },
    }
}

/// All ways in which `pat` matches class `eclass`.
pub fn search_pat(pat: &Pattern, g: &EGraph, eclass: Id) -> (r: Vec<WildMap>)
    requires
        pattern_wf(pat@),
    ensures
        tables_view(r@) == match_class(g@, pat@, eclass as int),
    decreases pat@, 3int, 0int,
{
    let n: usize = if eclass < g.num_classes() {
        g.nodes(eclass).len()
    } else {
        0
    };
    match pat {
        Pattern::Wildcard(w, kind) => {
            let mut m = WildMap::new();
            let mut ids: Vec<Id> = Vec::new();
            ids.push(eclass);
            m.insert(w.clone(), *kind, ids);
            let mut r: Vec<WildMap> = Vec::new();
            r.push(m);
            proof {
                assert(ids@ =~= seq![eclass]);
                assert(tables_view(r@) =~= match_class(g@, pat@, eclass as int));
            }
            r
        },
        Pattern::ENode(op, ch) => {
            let mut out: Vec<WildMap> = Vec::new();
            if ch.len() == 0 {
                let mut j: usize = 0;
                while j < n
                    invariant
                        0 <= j <= n,
                        n == class_nodes(g@, eclass as int).len(),
                        n > 0 ==> eclass < g@.len(),
                        *pat == Pattern::ENode(*op, *ch),
                        ch.len() == 0,
                        out@.len() == 0,
                        forall|k: int| 0 <= k < j ==> class_nodes(g@, eclass as int)[k] != (op@, Seq::<Id>::empty()),
                    decreases n - j,
                {
                    let e = &g.nodes(eclass)[j];
                    if e.children.len() == 0 && e.op == *op {
                        proof {
                            assert(e.children@ =~= Seq::<Id>::empty());
                            assert(class_nodes(g@, eclass as int)[j as int] == e@);
                        }
                        out.push(WildMap::new());
                        proof {
                            assert(pat@->Node_0 == op@ && pat@->Node_1.len() == 0);
                            assert(class_nodes(g@, eclass as int).contains((op@, Seq::<Id>::empty())));
                            assert(tables_view(out@) =~= match_class(g@, pat@, eclass as int));
                        }
                        return out;
                    }
                    proof {
                        assert(class_nodes(g@, eclass as int)[j as int] == e@);
                    }
                    j += 1;
                }
                proof {
                    assert(pat@->Node_0 == op@ && pat@->Node_1.len() == 0);
                    assert(!class_nodes(g@, eclass as int).contains((op@, Seq::<Id>::empty())));
                    assert(tables_view(out@) =~= match_class(g@, pat@, eclass as int));
                }
                return out;
            }
            let mut j: usize = 0;
            while j < n
                invariant
                    0 <= j <= n,
                    n == class_nodes(g@, eclass as int).len(),
                    n > 0 ==> eclass < g@.len(),
                    pattern_wf(pat@),
                    *pat == Pattern::ENode(*op, *ch),
                    ch.len() > 0,
                    tables_view(out@) == match_nodes(g@, pat@, eclass as int, j as int),
                decreases n - j,
            {
                let e = &g.nodes(eclass)[j];
                proof {
                    assert(class_nodes(g@, eclass as int)[j as int] == e@);
                }
                let mut found = search_node(pat, g, e);
                out.append(&mut found);
                j += 1;
                proof {
                    assert(tables_view(out@) =~= match_nodes(g@, pat@, eclass as int, j as int));
                }
            }
            out
        },
    }
}

/// The matches of one class: every binding table found for it.
#[derive(Debug)]
pub struct SearchMatches {
    pub eclass: Id,
    pub mappings: Vec<WildMap>,
}

/// The classes among the first `k` that `p` matches, in order, each with
/// its tables.
pub open spec fn search_upto(g: GraphV, p: PatternV, k: int) -> Seq<(Id, Seq<Table>)>
    decreases k,
{
    if k <= 0 {
        Seq::empty()
    } else if match_class(g, p, k - 1).len() > 0 {
        search_upto(g, p, k - 1).push(((k - 1) as Id, match_class(g, p, k - 1)))
    } else {
        search_upto(g, p, k - 1)
    }
}

pub open spec fn matches_view(m: SearchMatches) -> (Id, Seq<Table>) {
    (m.eclass, tables_view(m.mappings@))
}

impl Pattern {
    /// Matches this pattern against every class of `egraph`, keeping the
    /// classes that it matches.
    pub fn search(&self, egraph: &EGraph) -> (r: Vec<SearchMatches>)
        requires
            pattern_wf(self@),
        ensures
            r@.map_values(|m: SearchMatches| matches_view(m)) == search_upto(egraph@, self@, egraph@.len() as int),
    {
        let n = egraph.num_classes();
        let mut out: Vec<SearchMatches> = Vec::new();
        let mut c: usize = 0;
        while c < n
            invariant
                0 <= c <= n,
                n == egraph@.len(),
                pattern_wf(self@),
                out@.map_values(|m: SearchMatches| matches_view(m)) == search_upto(egraph@, self@, c as int),
            decreases n - c,
        {
            let ghost before = out@;
            match self.search_eclass(egraph, c) {
                Some(m) => {
                    out.push(m);
                    proof {
                        assert(out@.map_values(|m: SearchMatches| matches_view(m)) =~= before.map_values(
                            |m: SearchMatches| matches_view(m),
                        ).push(matches_view(m)));
                    }
                },
                None => {},
            }
            c += 1;
        }
        out
    }

    /// Matches this pattern against class `eclass`: `None` when no table is
    /// found.
    pub fn search_eclass(&self, egraph: &EGraph, eclass: Id) -> (r: Option<SearchMatches>)
        requires
            pattern_wf(self@),
        ensures
            match r {
                Some(m) => matches_view(m) == (eclass, match_class(egraph@, self@, eclass as int))
                    && match_class(egraph@, self@, eclass as int).len() > 0,
                None => match_class(egraph@, self@, eclass as int).len() == 0,
            },
    {
        let mappings = search_pat(self, egraph, eclass);
        if mappings.len() == 0 {
            None
        } else {
            Some(SearchMatches { eclass, mappings })
        }
    }
}

/// `tup` picks one table from each candidate set of `cs`.
pub open spec fn picks(cs: Seq<Seq<Table>>, tup: Seq<usize>) -> bool {
    tup.len() == cs.len() && forall|i: int| 0 <= i < cs.len() ==> tup[i] < (#[trigger] cs[i]).len()
}

/// Each binding of `t` is the one that a lookup of its name finds.
pub open spec fn self_consistent(t: Table) -> bool {
    forall|k: int| 0 <= k < t.len() ==> lookup_ids(t, (#[trigger] t[k]).0) == t[k].2
}

/// Sibling consistency. A combination that is kept binds every name of every
/// picked table to the classes that this table gave it; so where two picked
/// tables bind one name to different classes, the combination is dropped.
pub proof fn lemma_siblings_agree(cs: Seq<Seq<Table>>, tup: Seq<usize>, n: int)
    requires
        1 <= n <= cs.len(),
        picks(cs, tup),
        forall|i: int| 0 <= i < n ==> self_consistent(#[trigger] cs[i][tup[i] as int]),
    ensures
        merge_tuple(cs, tup, n) matches Some(r) ==> forall|i: int, k: int|
            0 <= i < n && 0 <= k < cs[i][tup[i] as int].len() ==> lookup(r, (#[trigger] cs[i][tup[i] as int][k]).0) is Some
                && lookup_ids(r, cs[i][tup[i] as int][k].0) == cs[i][tup[i] as int][k].2,
        forall|i: int, j: int, w: Seq<char>|
            0 <= i < n && 0 <= j < n && #[trigger] lookup(cs[i][tup[i] as int], w) is Some && #[trigger] lookup(cs[j][tup[j] as int], w) is Some && lookup_ids(cs[i][tup[i] as int], w) != lookup_ids(cs[j][tup[j] as int], w) ==> merge_tuple(
                cs,
                tup,
                n,
            ) is None,
    decreases n,
{
    if n > 1 {
        lemma_siblings_agree(cs, tup, n - 1);
        if let Some(prev) = merge_tuple(cs, tup, n - 1) {
            let m = cs[n - 1][tup[n - 1] as int];
            if merge_into(prev, m) is Some {
                lemma_merge_agrees(prev, m);
            }
        }
    }
    if let Some(r) = merge_tuple(cs, tup, n) {
        assert forall|i: int, k: int|
            0 <= i < n && 0 <= k < cs[i][tup[i] as int].len() implies lookup(r, (#[trigger] cs[i][tup[i] as int][k]).0) is Some
                && lookup_ids(r, cs[i][tup[i] as int][k].0) == cs[i][tup[i] as int][k].2 by {
            if n == 1 {
                lemma_lookup_finds(cs[i][tup[i] as int], k);
            }
            if n > 1 && i < n - 1 {
                let prev = merge_tuple(cs, tup, n - 1)->0;
                let name = cs[i][tup[i] as int][k].0;
                assert(lookup(prev, name) is Some);
                assert(lookup(r, name) == lookup(prev, name));
            }
        }
        assert forall|i: int, j: int, w: Seq<char>|
            0 <= i < n && 0 <= j < n && #[trigger] lookup(cs[i][tup[i] as int], w) is Some && #[trigger] lookup(cs[j][tup[j] as int], w) is Some implies lookup_ids(cs[i][tup[i] as int], w) == lookup_ids(cs[j][tup[j] as int], w) by {
            let ki = lemma_lookup_index(cs[i][tup[i] as int], w);
            let kj = lemma_lookup_index(cs[j][tup[j] as int], w);
            assert(lookup_ids(r, cs[i][tup[i] as int][ki].0) == cs[i][tup[i] as int][ki].2);
            assert(lookup_ids(r, cs[j][tup[j] as int][kj].0) == cs[j][tup[j] as int][kj].2);
        }
    }
}

proof fn lemma_merge_tuple_binds(cs: Seq<Seq<Table>>, tup: Seq<usize>, n: int)
    requires
        1 <= n <= cs.len(),
        picks(cs, tup),
        merge_tuple(cs, tup, n) is Some,
    ensures
        forall|i: int, w: Seq<char>|
            0 <= i < n && #[trigger] lookup(cs[i][tup[i] as int], w) is Some ==> lookup(merge_tuple(cs, tup, n)->0, w) is Some,
        (forall|i: int| 0 <= i < n ==> singles_have_one(#[trigger] cs[i][tup[i] as int])) ==> singles_have_one(
            merge_tuple(cs, tup, n)->0,
        ),
    decreases n,
{
    if n > 1 {
        lemma_merge_tuple_binds(cs, tup, n - 1);
        let prev = merge_tuple(cs, tup, n - 1)->0;
        let m = cs[n - 1][tup[n - 1] as int];
        lemma_merge_agrees(prev, m);
        let r = merge_tuple(cs, tup, n)->0;
        assert forall|i: int, w: Seq<char>|
            0 <= i < n && #[trigger] lookup(cs[i][tup[i] as int], w) is Some implies lookup(r, w) is Some by {
            if i < n - 1 {
                assert(lookup(prev, w) is Some);
            }
        }
    }
}

proof fn lemma_merge_all_member(cs: Seq<Seq<Table>>, ts: Seq<Seq<usize>>, k: int, q: int) -> (j: int)
    requires
        0 <= k <= ts.len(),
        0 <= q < merge_all(cs, ts, k).len(),
    ensures
        0 <= j < k,
        merge_tuple(cs, ts[j], cs.len() as int) == Some(merge_all(cs, ts, k)[q]),
    decreases k,
{
    let prev = merge_all(cs, ts, k - 1);
    if q < prev.len() {
        lemma_merge_all_member(cs, ts, k - 1, q)
    } else {
        k - 1
    }
}

/// Every table of `s` binds `w`.
pub open spec fn all_bind(s: Seq<Table>, w: Seq<char>) -> bool {
    forall|j: int| 0 <= j < s.len() ==> lookup(#[trigger] s[j], w) is Some
}

/// A combined table binds every name that all tables of one candidate set
/// bind.
proof fn lemma_combine_binds(cs: Seq<Seq<Table>>, q: int)
    requires
        cs.len() > 0,
        0 <= q < combine(cs).len(),
        forall|i: int, j: int| 0 <= i < cs.len() && 0 <= j < cs[i].len() ==> singles_have_one(#[trigger] cs[i][j]),
    ensures
        forall|w: Seq<char>|
            (exists|i: int| 0 <= i < cs.len() && all_bind(#[trigger] cs[i], w))
                ==> #[trigger] lookup(combine(cs)[q], w) is Some,
        singles_have_one(combine(cs)[q]),
{
    let sizes = sizes_of(cs);
    let ts = index_product(sizes);
    lemma_index_product_within(sizes);
    let j = lemma_merge_all_member(cs, ts, ts.len() as int, q);
    let tup = ts[j];
    assert(picks(cs, tup)) by {
        assert forall|i: int| 0 <= i < cs.len() implies tup[i] < (#[trigger] cs[i]).len() by {
            assert(tup[i] < sizes[i]);
        }
    }
    lemma_merge_tuple_binds(cs, tup, cs.len() as int);
    assert forall|w: Seq<char>|
        (exists|i: int| 0 <= i < cs.len() && all_bind(#[trigger] cs[i], w))
            implies #[trigger] lookup(combine(cs)[q], w) is Some by {
        let i = choose|i: int| 0 <= i < cs.len() && all_bind(#[trigger] cs[i], w);
        assert(lookup(cs[i][tup[i] as int], w) is Some);
    }
    assert forall|i: int| 0 <= i < cs.len() implies singles_have_one(#[trigger] cs[i][tup[i] as int]) by {
        assert(tup[i] < cs[i].len());
    }
}

proof fn lemma_match_nodes_member(g: GraphV, p: PatternV, c: int, n: int, q: int) -> (jq: (int, int))
    requires
        0 <= n <= class_nodes(g, c).len(),
        0 <= q < match_nodes(g, p, c, n).len(),
    ensures
        0 <= jq.0 < n,
        0 <= jq.1 < match_node(g, p, class_nodes(g, c)[jq.0]).len(),
        match_node(g, p, class_nodes(g, c)[jq.0])[jq.1] == match_nodes(g, p, c, n)[q],
    decreases n,
{
    let prev = match_nodes(g, p, c, n - 1);
    if q < prev.len() {
        lemma_match_nodes_member(g, p, c, n - 1, q)
    } else {
        (n - 1, q - prev.len())
    }
}

proof fn lemma_child_cands(g: GraphV, p: PatternV, kids: Seq<Id>, m: int)
    requires
        p is Node,
        0 <= m <= p->Node_1.len(),
    ensures
        child_cands(g, p, kids, m).len() == m,
        forall|i: int| 0 <= i < m ==> #[trigger] child_cands(g, p, kids, m)[i] == match_class(g, p->Node_1[i], kids[i] as int),
    decreases m,
{
    if m > 0 {
        lemma_child_cands(g, p, kids, m - 1);
    }
}

/// Every name of `p` is bound in `t`, and each single binding of `t`
/// captures one class.
pub open spec fn complete_for(p: PatternV, t: Table) -> bool {
    &&& forall|w: Seq<char>| mentions(p, w) ==> #[trigger] lookup(t, w) is Some
    &&& singles_have_one(t)
}

/// Binding completeness: every table found for a class binds every wildcard
/// name of the pattern, and each single binding captures exactly one class.
pub proof fn lemma_binding_complete(g: GraphV, p: PatternV, c: int)
    requires
        pattern_wf(p),
    ensures
        forall|q: int| 0 <= q < match_class(g, p, c).len() ==> complete_for(p, #[trigger] match_class(g, p, c)[q]),
    decreases p,
{
    match p {
        PatternV::Wildcard(w, k) => {
            let t = seq![(w, k, seq![c as Id])];
            assert(match_class(g, p, c)[0] == t);
            assert(lookup(t, w) is Some);
        },
        PatternV::Node(op, ch) => {
            if ch.len() > 0 {
                assert forall|q: int| 0 <= q < match_class(g, p, c).len() implies complete_for(
                    p,
                    #[trigger] match_class(g, p, c)[q],
                ) by {
                    lemma_node_tables_complete(g, p, c, q);
                }
            }
        },
    }
}

proof fn lemma_node_tables_complete(g: GraphV, p: PatternV, c: int, q: int)
    requires
        pattern_wf(p),
        p is Node,
        p->Node_1.len() > 0,
        0 <= q < match_class(g, p, c).len(),
    ensures
        complete_for(p, match_class(g, p, c)[q]),
    decreases p, 0int,
{
    let ch = p->Node_1;
    let nodes = class_nodes(g, c);
    let (j, q2) = lemma_match_nodes_member(g, p, c, nodes.len() as int, q);
    let e = nodes[j];
    let kids = e.1;
    let tail = has_tail(ch);
    let m: int = if tail {
        ch.len() - 1
    } else {
        ch.len() as int
    };
    lemma_child_cands(g, p, kids, m);
    let base = child_cands(g, p, kids, m);
    let tail_set = seq![
        seq![(ch.last()->Wildcard_0, WildcardKind::ZeroOrMore, kids.subrange(ch.len() - 1, kids.len() as int))],
    ];
    let cs = if tail {
        base.push(tail_set)
    } else {
        base
    };
    assert(match_node(g, p, e) == combine(cs));
    assert forall|i: int| 0 <= i < m implies pattern_wf(#[trigger] ch[i]) by {
        if !pattern_wf(ch[i]) {
            assert(i == ch.len() - 1);
        }
    }
    assert forall|i: int, t: int| 0 <= i < m && 0 <= t < match_class(g, ch[i], kids[i] as int).len() implies complete_for(
        ch[i],
        #[trigger] match_class(g, ch[i], kids[i] as int)[t],
    ) by {
        lemma_binding_complete(g, ch[i], kids[i] as int);
    }
    assert forall|i: int, t: int| 0 <= i < cs.len() && 0 <= t < cs[i].len() implies singles_have_one(#[trigger] cs[i][t]) by {
        if i < m {
            assert(cs[i] == match_class(g, ch[i], kids[i] as int));
            assert(complete_for(ch[i], match_class(g, ch[i], kids[i] as int)[t]));
        } else {
            assert(cs[i][t] == tail_set[0]);
        }
    }
    lemma_combine_binds(cs, q2);
    let r = match_class(g, p, c)[q];
    assert forall|w: Seq<char>| mentions(p, w) implies #[trigger] lookup(r, w) is Some by {
        let i = choose|i: int| 0 <= i < ch.len() && mentions(#[trigger] ch[i], w);
        if i < m {
            assert forall|t: int| 0 <= t < cs[i].len() implies lookup(#[trigger] cs[i][t], w) is Some by {
                assert(cs[i] == match_class(g, ch[i], kids[i] as int));
                assert(complete_for(ch[i], match_class(g, ch[i], kids[i] as int)[t]));
            }
            assert(all_bind(cs[i], w));
        } else {
            assert(tail && i == ch.len() - 1);
            assert(cs[i] == tail_set);
            assert forall|t: int| 0 <= t < cs[i].len() implies lookup(#[trigger] cs[i][t], w) is Some by {
                assert(cs[i][t] == tail_set[0]);
                assert(tail_set[0][0].0 == w);
            }
            assert(all_bind(cs[i], w));
        }
    }
}

/// The pattern `(f ?a ?*rest)`.
pub open spec fn tail_pattern(f: Seq<char>, a: Seq<char>, rest: Seq<char>) -> PatternV {
    PatternV::Node(
        f,
        seq![PatternV::Wildcard(a, WildcardKind::Single), PatternV::Wildcard(rest, WildcardKind::ZeroOrMore)],
    )
}

/// Tail arity: `(f ?a ?*rest)` against the e-node `f(x0, x1, ..., xk)` gives
/// the one table `{?a: [x0], ?*rest: [x1, ..., xk]}`; against an `f` with
/// no children it gives none.
pub proof fn lemma_tail_arity(g: GraphV, f: Seq<char>, a: Seq<char>, rest: Seq<char>, kids: Seq<Id>)
    requires
        a != rest,
    ensures
        kids.len() == 0 ==> match_node(g, tail_pattern(f, a, rest), (f, kids)) == Seq::<Table>::empty(),
        kids.len() > 0 ==> match_node(g, tail_pattern(f, a, rest), (f, kids)) == seq![
            seq![(a, WildcardKind::Single, seq![kids[0]]), (rest, WildcardKind::ZeroOrMore, kids.subrange(1, kids.len() as int))],
        ],
{
    let p = tail_pattern(f, a, rest);
    let ch = p->Node_1;
    assert(has_tail(ch));
    if kids.len() > 0 {
        let t1 = seq![(a, WildcardKind::Single, seq![kids[0]])];
        let e2 = (rest, WildcardKind::ZeroOrMore, kids.subrange(1, kids.len() as int));
        let t2 = seq![e2];
        assert(match_class(g, ch[0], kids[0] as int) == seq![t1]);
        assert(child_cands(g, p, kids, 0) == Seq::<Seq<Table>>::empty());
        assert(child_cands(g, p, kids, 1) =~= seq![seq![t1]]);
        let cs = seq![seq![t1], seq![t2]];
        assert(child_cands(g, p, kids, 1).push(seq![t2]) =~= cs);
        assert(sizes_of(cs) =~= seq![1usize, 1usize]);
        let one = seq![1usize];
        assert(seq![1usize, 1usize].drop_first() =~= one);
        assert(one.drop_first() =~= Seq::<usize>::empty());
        assert(index_product(Seq::<usize>::empty()) == seq![Seq::<usize>::empty()]);
        assert(prefixed(0, seq![Seq::<usize>::empty()]) == Seq::<Seq<usize>>::empty());
        assert(index_product(one) =~= seq![seq![0usize]]) by {
            assert(seq![Seq::<usize>::empty()].map_values(|t: Seq<usize>| seq![0usize] + t) =~= seq![seq![0usize]]) by {
                assert(seq![0usize] + Seq::<usize>::empty() =~= seq![0usize]);
            }
        }
        let ts = seq![seq![0usize, 0usize]];
        assert(index_product(seq![1usize, 1usize]) =~= ts) by {
            assert(prefixed(0, seq![seq![0usize]]) == Seq::<Seq<usize>>::empty());
            assert(seq![seq![0usize]].map_values(|t: Seq<usize>| seq![0usize] + t) =~= ts) by {
                assert(seq![0usize] + seq![0usize] =~= seq![0usize, 0usize]);
            }
        }
        assert(t2.drop_last() =~= Seq::<(Seq<char>, WildcardKind, Seq<Id>)>::empty());
        assert(lookup(t1.drop_first(), rest) is None) by {
            assert(t1.drop_first().len() == 0);
        }
        assert(lookup(t1, rest) is None);
        assert(merge_into(t1, t2.drop_last()) == Some(t1));
        assert(t2.last() == e2);
        assert(insert_entry(t1, e2) == Some(t1.push(e2)));
        assert(merge_into(t1, t2) == Some(t1.push(e2)));
        assert(ts[0][0] == 0usize && ts[0][1] == 0usize);
        assert(merge_tuple(cs, ts[0], 1) == Some(t1));
        assert(cs[1][0] == t2);
        assert(merge_tuple(cs, ts[0], 2) == Some(t1.push(e2)));
        assert(merge_all(cs, ts, 0) == Seq::<Table>::empty());
        assert(t1.push(e2) =~= seq![(a, WildcardKind::Single, seq![kids[0]]), e2]);
        assert(combine(cs) =~= seq![t1.push(e2)]);
    }
}

/// Whether e-node `e` matches pattern `p` on its own.
pub open spec fn node_matches(g: GraphV, p: PatternV, e: NodeV) -> bool {
    match p {
        PatternV::Node(op, ch) => if ch.len() == 0 {
            e == (op, Seq::<Id>::empty())
        } else {
            match_node(g, p, e).len() > 0
        },
        PatternV::Wildcard(_, _) => true,
    }
}

proof fn lemma_match_nodes_grow(g: GraphV, p: PatternV, c: int, k1: int, k2: int)
    requires
        0 <= k1 <= k2,
    ensures
        match_nodes(g, p, c, k1).len() <= match_nodes(g, p, c, k2).len(),
    decreases k2,
{
    if k2 > k1 {
        lemma_match_nodes_grow(g, p, c, k1, k2 - 1);
    }
}

/// Congruence disjunction: where two different e-nodes of class `c` each
/// match node pattern `p`, the class gets a table from each of them.
pub proof fn lemma_two_enodes(g: GraphV, p: PatternV, c: int, j1: int, j2: int)
    requires
        p is Node,
        0 <= j1 < class_nodes(g, c).len(),
        0 <= j2 < class_nodes(g, c).len(),
        class_nodes(g, c)[j1] != class_nodes(g, c)[j2],
        node_matches(g, p, class_nodes(g, c)[j1]),
        node_matches(g, p, class_nodes(g, c)[j2]),
    ensures
        match_class(g, p, c).len() >= 2,
{
    let n = class_nodes(g, c).len() as int;
    if p->Node_1.len() > 0 {
        let lo = if j1 < j2 {
            j1
        } else {
            j2
        };
        let hi = if j1 < j2 {
            j2
        } else {
            j1
        };
        lemma_match_nodes_grow(g, p, c, lo, hi);
        lemma_match_nodes_grow(g, p, c, hi + 1, n);
        assert(match_nodes(g, p, c, lo + 1).len() >= 1);
        lemma_match_nodes_grow(g, p, c, lo + 1, hi);
    }
}

/// Binding completeness of a whole search: every table of every class that
/// `search` reports binds every wildcard name of the pattern, and each single
/// binding captures exactly one class.
pub proof fn lemma_search_complete(g: GraphV, p: PatternV, k: int)
    requires
        pattern_wf(p),
    ensures
        forall|i: int, q: int|
            0 <= i < search_upto(g, p, k).len() && 0 <= q < search_upto(g, p, k)[i].1.len() ==> complete_for(
                p,
                #[trigger] search_upto(g, p, k)[i].1[q],
            ),
    decreases k,
{
    if k > 0 {
        lemma_search_complete(g, p, k - 1);
        lemma_binding_complete(g, p, k - 1);
        let prev = search_upto(g, p, k - 1);
        let cur = search_upto(g, p, k);
        assert forall|i: int, q: int| 0 <= i < cur.len() && 0 <= q < cur[i].1.len() implies complete_for(
            p,
            #[trigger] cur[i].1[q],
        ) by {
            if i < prev.len() {
                assert(cur[i] == prev[i]);
                assert(complete_for(p, prev[i].1[q]));
            } else {
                assert(cur[i].1 == match_class(g, p, k - 1));
                assert(complete_for(p, match_class(g, p, k - 1)[q]));
            }
        }
    }
}

} // verus!
