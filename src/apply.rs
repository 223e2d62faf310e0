use vstd::prelude::*;

use crate::egraph::{add_spec, holder_before, EGraph, ENode, GraphV, Id, NodeV};
use crate::pattern::{Pattern, PatternV};
use crate::wildmap::{lookup, lookup_ids, Table, WildMap, WildcardKind};

verus! {

/// Every wildcard of `p` is bound in `t`, with the kind that `p` gives it.
pub open spec fn binds_all(p: PatternV, t: Table) -> bool
    decreases p,
{
    match p {
        PatternV::Wildcard(w, k) => lookup(t, w) matches Some(e) && e.1 == k,
        PatternV::Node(_, ch) => forall|i: int| 0 <= i < ch.len() ==> binds_all(#[trigger] ch[i], t),
    }
}

/// Instantiation of `p` under `t`: the graph after the insertions, and the
/// ids that stand for `p`.
pub open spec fn inst(g: GraphV, p: PatternV, t: Table) -> (GraphV, Seq<Id>)
    decreases p, 1int, 0int,
{
    match p {
        PatternV::Wildcard(w, _) => (g, lookup_ids(t, w)),
        PatternV::Node(op, ch) => {
            let (g2, kids) = inst_children(g, p, t, ch.len() as int);
            let (g3, id) = add_spec(g2, (op, kids));
            (g3, seq![id])
        },
    }
}

/// Instantiation of the first `m` children of node pattern `p`, in order,
/// with their ids concatenated.
pub open spec fn inst_children(g: GraphV, p: PatternV, t: Table, m: int) -> (GraphV, Seq<Id>)
    decreases p, 0int, m,
{
    if m <= 0 {
        (g, Seq::empty())
    } else {
        match p {
            PatternV::Node(_, ch) => if m - 1 < ch.len() {
                let (g1, ids1) = inst_children(g, p, t, m - 1);
                let (g2, ids2) = inst(g1, ch[m - 1], t);
                (g2, ids1 + ids2)
            } else {
                (g, Seq::empty())
            },
            PatternV::Wildcard(_, _) => (g, Seq::empty()),
        }
    }
}

/// Every wildcard of `p` is a single one.
pub open spec fn singles_only(p: PatternV) -> bool
    decreases p,
{
    match p {
        PatternV::Wildcard(_, k) => k == WildcardKind::Single,
        PatternV::Node(_, ch) => forall|i: int| 0 <= i < ch.len() ==> singles_only(#[trigger] ch[i]),
    }
}

/// Every single wildcard of `p` is bound in `t` to at least one class.
pub open spec fn binds_singles(p: PatternV, t: Table) -> bool
    decreases p,
{
    match p {
        PatternV::Wildcard(w, k) => lookup(t, w) matches Some(e) && e.1 == k && e.2.len() >= 1,
        PatternV::Node(_, ch) => forall|i: int| 0 <= i < ch.len() ==> binds_singles(#[trigger] ch[i], t),
    }
}

/// Substitution of a pattern of single wildcards under `t`: the graph after
/// the insertions, and the one id that stands for `p`.
pub open spec fn subst(g: GraphV, p: PatternV, t: Table) -> (GraphV, Id)
    decreases p, 1int, 0int,
{
    match p {
        PatternV::Wildcard(w, _) => (g, lookup_ids(t, w)[0]),
        PatternV::Node(op, ch) => {
            let (g2, kids) = subst_children(g, p, t, ch.len() as int);
            add_spec(g2, (op, kids))
        },
    }
}

/// Substitution of the first `m` children of node pattern `p`, in order.
pub open spec fn subst_children(g: GraphV, p: PatternV, t: Table, m: int) -> (GraphV, Seq<Id>)
    decreases p, 0int, m,
{
    if m <= 0 {
        (g, Seq::empty())
    } else {
        match p {
            PatternV::Node(_, ch) => if m - 1 < ch.len() {
                let (g1, ids1) = subst_children(g, p, t, m - 1);
                let (g2, id) = subst(g1, ch[m - 1], t);
                (g2, ids1.push(id))
            } else {
                (g, Seq::empty())
            },
            PatternV::Wildcard(_, _) => (g, Seq::empty()),
        }
    }
}

/// Builds `pat` in `g` under `mapping` and returns the ids that stand for it:
/// a wildcard's bound classes, or the class of the rebuilt node.
pub fn apply_pat(pat: &Pattern, g: &mut EGraph, mapping: &WildMap) -> (r: Vec<Id>)
    requires
        binds_all(pat@, mapping@),
    ensures
        (final(g)@, r@) == inst(old(g)@, pat@, mapping@),
    decreases pat@, 1int, 0int,
{
    match pat {
        Pattern::Wildcard(w, kind) => {
            let ids = mapping.get(w, *kind);
            match ids {
                Some(v) => crate::egraph::copy_ids(v),
                None => Vec::new(),
            }
        },
        Pattern::ENode(op, ch) => {
            proof {
                assert(decreases_to!(*pat => *ch));
            }
            let ghost g0 = g@;
            let ghost p = pat@;
            let mut kids: Vec<Id> = Vec::new();
            let mut i: usize = 0;
            while i < ch.len()
                invariant
                    0 <= i <= ch.len(),
                    p == pat@,
                    *pat == Pattern::ENode(*op, *ch),
                    decreases_to!(*pat => *ch),
                    binds_all(p, mapping@),
                    (g@, kids@) == inst_children(g0, p, mapping@, i as int),
                decreases ch.len() - i,
            {
                proof {
                    assert(decreases_to!(*ch => ch@));
                    assert(decreases_to!(ch@ => ch@[i as int]));
                    assert(p->Node_1[i as int] == ch@[i as int]@);
                }
                let mut sub = apply_pat(&ch[i], g, mapping);
                kids.append(&mut sub);
                i += 1;
            }
            let id = g.add(ENode::new(op.clone(), kids));
            let mut r: Vec<Id> = Vec::new();
            r.push(id);
            proof {
                assert(r@ =~= seq![id]);
            }
            r
        },
    }
}

impl Pattern {
    /// Builds this pattern, whose wildcards are all single ones, in `g` under
    /// `mapping`, and returns the one id that stands for it.
    pub fn subst_and_find(&self, egraph: &mut EGraph, mapping: &WildMap) -> (r: Id)
        requires
            singles_only(self@),
            binds_singles(self@, mapping@),
        ensures
            (final(egraph)@, r) == subst(old(egraph)@, self@, mapping@),
        decreases self@, 1int, 0int,
    {
        match self {
            Pattern::Wildcard(w, kind) => {
                let ids = mapping.get(w, *kind);
                match ids {
                    Some(v) => v[0],
                    None => 0,
                }
            },
            Pattern::ENode(op, ch) => {
                proof {
                    assert(decreases_to!(*self => *ch));
                }
                let ghost g0 = egraph@;
                let ghost p = self@;
                let mut kids: Vec<Id> = Vec::new();
                let mut i: usize = 0;
                while i < ch.len()
                    invariant
                        0 <= i <= ch.len(),
                        p == self@,
                        *self == Pattern::ENode(*op, *ch),
                        decreases_to!(*self => *ch),
                        singles_only(p),
                        binds_singles(p, mapping@),
                        (egraph@, kids@) == subst_children(g0, p, mapping@, i as int),
                    decreases ch.len() - i,
                {
                    proof {
                        assert(decreases_to!(*ch => ch@));
                        assert(decreases_to!(ch@ => ch@[i as int]));
                        assert(p->Node_1[i as int] == ch@[i as int]@);
                    }
                    let id = ch[i].subst_and_find(egraph, mapping);
                    kids.push(id);
                    i += 1;
                }
                egraph.add(ENode::new(op.clone(), kids))
            },
        }
    }

    /// Builds this pattern in `egraph` under `mapping`; the ids returned are
    /// to be merged with the matched class by the caller.
    pub fn apply_one(&self, egraph: &mut EGraph, eclass: Id, mapping: &WildMap) -> (r: Vec<Id>)
        requires
            binds_all(self@, mapping@),
        ensures
            (final(egraph)@, r@) == inst(old(egraph)@, self@, mapping@),
    {
        apply_pat(self, egraph, mapping)
    }
}

/// `g2` keeps every class of `g` as it is, and may have more after them.
pub open spec fn extends(g: GraphV, g2: GraphV) -> bool {
    g.len() <= g2.len() && forall|i: int| 0 <= i < g.len() ==> #[trigger] g2[i] == g[i]
}

proof fn lemma_holder_extends(g: GraphV, g2: GraphV, n: NodeV, k: int)
    requires
        extends(g, g2),
        0 <= k <= g.len(),
    ensures
        holder_before(g2, n, k) == holder_before(g, n, k),
    decreases k,
{
    if k > 0 {
        lemma_holder_extends(g, g2, n, k - 1);
        assert(g2[k - 1] == g[k - 1]);
    }
}

proof fn lemma_holder_stays(g: GraphV, n: NodeV, k: int, k2: int)
    requires
        0 <= k <= k2,
        holder_before(g, n, k) is Some,
    ensures
        holder_before(g, n, k2) == holder_before(g, n, k),
    decreases k2,
{
    if k2 > k {
        lemma_holder_stays(g, n, k, k2 - 1);
    }
}

proof fn lemma_add_stable(g: GraphV, n: NodeV, g2: GraphV)
    requires
        extends(add_spec(g, n).0, g2),
    ensures
        extends(g, add_spec(g, n).0),
        add_spec(g2, n) == (g2, add_spec(g, n).1),
{
    let g1 = add_spec(g, n).0;
    assert(extends(g, g1));
    assert(extends(g, g2));
    lemma_holder_extends(g, g2, n, g.len() as int);
    match holder_before(g, n, g.len() as int) {
        Some(c) => {
            lemma_holder_stays(g2, n, g.len() as int, g2.len() as int);
        },
        None => {
            assert(g2[g.len() as int] == g1[g.len() as int]);
            assert(g2[g.len() as int][0] == n);
            assert(g2[g.len() as int].contains(n));
            assert(holder_before(g2, n, g.len() as int + 1) == Some(g.len() as int));
            lemma_holder_stays(g2, n, g.len() as int + 1, g2.len() as int);
        },
    }
}

proof fn lemma_inst_extends(g: GraphV, p: PatternV, t: Table)
    ensures
        extends(g, inst(g, p, t).0),
    decreases p, 1int, 0int,
{
    if let PatternV::Node(op, ch) = p {
        lemma_inst_children_extends(g, p, t, ch.len() as int);
        let (g2, kids) = inst_children(g, p, t, ch.len() as int);
        assert(extends(g2, add_spec(g2, (op, kids)).0));
    }
}

proof fn lemma_inst_children_extends(g: GraphV, p: PatternV, t: Table, m: int)
    ensures
        extends(g, inst_children(g, p, t, m).0),
    decreases p, 0int, m,
{
    if m > 0 {
        if let PatternV::Node(_, ch) = p {
            if m - 1 < ch.len() {
                lemma_inst_children_extends(g, p, t, m - 1);
                let g1 = inst_children(g, p, t, m - 1).0;
                lemma_inst_extends(g1, ch[m - 1], t);
            }
        }
    }
}

proof fn lemma_inst_stable(g: GraphV, p: PatternV, t: Table, g2: GraphV)
    requires
        extends(inst(g, p, t).0, g2),
    ensures
        inst(g2, p, t) == (g2, inst(g, p, t).1),
    decreases p, 1int, 0int,
{
    if let PatternV::Node(op, ch) = p {
        let (gc, kids) = inst_children(g, p, t, ch.len() as int);
        lemma_add_stable(gc, (op, kids), g2);
        lemma_inst_children_stable(g, p, t, ch.len() as int, g2);
    }
}

proof fn lemma_inst_children_stable(g: GraphV, p: PatternV, t: Table, m: int, g2: GraphV)
    requires
        extends(inst_children(g, p, t, m).0, g2),
    ensures
        inst_children(g2, p, t, m) == (g2, inst_children(g, p, t, m).1),
    decreases p, 0int, m,
{
    if m > 0 {
        if let PatternV::Node(_, ch) = p {
            if m - 1 < ch.len() {
                let (g1, ids1) = inst_children(g, p, t, m - 1);
                lemma_inst_extends(g1, ch[m - 1], t);
                lemma_inst_children_stable(g, p, t, m - 1, g2);
                lemma_inst_stable(g1, ch[m - 1], t, g2);
            }
        }
    }
}

/// Idempotent instantiation: building a pattern a second time, on the graph
/// that the first build left, adds nothing and gives the same ids. For a
/// ground pattern this is plain hash-consed insertion, twice.
pub proof fn lemma_apply_idempotent(g: GraphV, p: PatternV, t: Table)
    ensures
        inst(inst(g, p, t).0, p, t) == inst(g, p, t),
{
    lemma_inst_stable(g, p, t, inst(g, p, t).0);
}

} // verus!
