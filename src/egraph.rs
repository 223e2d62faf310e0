use vstd::prelude::*;

verus! {

/// Identifier of an e-class: its index in the graph.
pub type Id = usize;

/// Model of an e-node: its operator and its child classes.
pub type NodeV = (Seq<char>, Seq<Id>);

/// Model of a graph: for each class, its e-nodes in order.
pub type GraphV = Seq<Seq<NodeV>>;

/// A ground e-node: an operator applied to child classes.
#[derive(Debug, Clone)]
pub struct ENode {
    pub op: String,
    pub children: Vec<Id>,
}

impl View for ENode {
    type V = NodeV;

    open spec fn view(&self) -> NodeV {
        (self.op@, self.children@)
    }
}

/// Copies a sequence of class ids.
pub fn copy_ids(v: &Vec<Id>) -> (r: Vec<Id>)
    ensures
        r@ == v@,
{
    let mut r: Vec<Id> = Vec::new();
    let mut i: usize = 0;
    while i < v.len()
        invariant
            0 <= i <= v.len(),
            r@ == v@.subrange(0, i as int),
        decreases v.len() - i,
    {
        r.push(v[i]);
        i += 1;
        proof {
            assert(r@ =~= v@.subrange(0, i as int));
        }
    }
    proof {
        assert(r@ =~= v@);
    }
    r
}

/// Compares two sequences of class ids.
pub fn same_ids(a: &Vec<Id>, b: &Vec<Id>) -> (r: bool)
    ensures
        r == (a@ == b@),
{
    if a.len() != b.len() {
        return false;
    }
    let mut i: usize = 0;
    while i < a.len()
        invariant
            0 <= i <= a.len(),
            a.len() == b.len(),
            forall|j: int| 0 <= j < i ==> a@[j] == b@[j],
        decreases a.len() - i,
    {
        if a[i] != b[i] {
            return false;
        }
        i += 1;
    }
    proof {
        assert(a@ =~= b@);
    }
    true
}

impl ENode {
    pub fn new(op: String, children: Vec<Id>) -> (r: ENode)
        ensures
            r@ == (op@, children@),
    {
        ENode { op, children }
    }

    /// Structural equality of two e-nodes.
    pub fn same(&self, other: &ENode) -> (r: bool)
        ensures
            r == (self@ == other@),
    {
        self.op == other.op && same_ids(&self.children, &other.children)
    }
}

/// The first class among the first `k` classes of `g` that holds `n`.
pub open spec fn holder_before(g: GraphV, n: NodeV, k: int) -> Option<int>
    decreases k,
{
    if k <= 0 {
        None
    } else {
        match holder_before(g, n, k - 1) {
            Some(c) => Some(c),
            None => if g[k - 1].contains(n) {
                Some(k - 1)
            } else {
                None
            },
        }
    }
}

/// Hash-consed insertion: the class that already holds the node, or a new
/// class holding only it.
pub open spec fn add_spec(g: GraphV, n: NodeV) -> (GraphV, Id) {
    match holder_before(g, n, g.len() as int) {
        Some(c) => (g, c as Id),
        None => (g.push(seq![n]), g.len() as Id),
    }
}

/// The graph after merging class `b` into class `a`.
pub open spec fn union_spec(g: GraphV, a: int, b: int) -> GraphV {
    if a == b {
        g
    } else {
        g.update(a, g[a] + g[b]).update(b, Seq::empty())
    }
}

/// A graph of congruence classes. Class `i` is the `i`-th entry; a class
/// whose nodes were merged into another is left empty.
#[derive(Debug, Clone)]
pub struct EGraph {
    classes: Vec<Vec<ENode>>,
}

pub open spec fn class_view(cl: Vec<ENode>) -> Seq<NodeV> {
    cl@.map_values(|n: ENode| n@)
}

impl View for EGraph {
    type V = GraphV;

    closed spec fn view(&self) -> GraphV {
        self.classes@.map_values(|cl: Vec<ENode>| class_view(cl))
    }
}

impl EGraph {
    pub fn new() -> (r: EGraph)
        ensures
            r@ == Seq::<Seq<NodeV>>::empty(),
    {
        let r = EGraph { classes: Vec::new() };
        proof {
            assert(r@ =~= Seq::<Seq<NodeV>>::empty());
        }
        r
    }

    pub fn num_classes(&self) -> (r: usize)
        ensures
            r == self@.len(),
    {
        self.classes.len()
    }

    /// The e-nodes of class `c`.
    pub fn nodes(&self, c: Id) -> (r: &Vec<ENode>)
        requires
            c < self@.len(),
        ensures
            class_view(*r) == self@[c as int],
    {
        &self.classes[c]
    }

    fn class_holds(&self, c: usize, n: &ENode) -> (r: bool)
        requires
            c < self@.len(),
        ensures
            r == self@[c as int].contains(n@),
    {
        let cl = &self.classes[c];
        let mut j: usize = 0;
        while j < cl.len()
            invariant
                0 <= j <= cl.len(),
                c < self.classes@.len(),
                *cl == self.classes@[c as int],
                self@[c as int] == class_view(*cl),
                forall|i: int| 0 <= i < j ==> cl@[i]@ != n@,
            decreases cl.len() - j,
        {
            if cl[j].same(n) {
                proof {
                    assert(self@[c as int][j as int] == n@);
                    assert(self@[c as int].contains(n@));
                }
                return true;
            }
            j += 1;
        }
        proof {
            assert forall|i: int| 0 <= i < self@[c as int].len() implies self@[c as int][i] != n@ by {
                assert(cl@[i]@ != n@);
            }
        }
        false
    }

    /// Inserts `n` unless a class already holds an equal node, and returns the
    /// class that holds it.
    pub fn add(&mut self, n: ENode) -> (r: Id)
        ensures
            (final(self)@, r) == add_spec(old(self)@, n@),
    {
        let ghost g = self@;
        let mut c: usize = 0;
        while c < self.classes.len()
            invariant
                0 <= c <= self@.len(),
                self@ == g,
                holder_before(g, n@, c as int) == None::<int>,
            decreases self@.len() - c,
        {
            if self.class_holds(c, &n) {
                proof {
                    lemma_holder_found(g, n@, c as int, g.len() as int);
                }
                return c;
            }
            c += 1;
        }
        let id = self.classes.len();
        let mut cl: Vec<ENode> = Vec::new();
        cl.push(n);
        self.classes.push(cl);
        proof {
            assert(class_view(cl) =~= seq![n@]);
            assert(self@ =~= g.push(seq![n@]));
        }
        id
    }

    /// Merges class `b` into class `a` and returns `a`.
    pub fn union(&mut self, a: Id, b: Id) -> (r: Id)
        requires
            a < old(self)@.len(),
            b < old(self)@.len(),
        ensures
            r == a,
            final(self)@ == union_spec(old(self)@, a as int, b as int),
    {
        if a == b {
            return a;
        }
        let ghost g = self@;
        let mut moved: Vec<ENode> = Vec::new();
        self.classes.set_and_swap(b, &mut moved);
        let mut target: Vec<ENode> = Vec::new();
        self.classes.set_and_swap(a, &mut target);
        target.append(&mut moved);
        self.classes.set(a, target);
        proof {
            assert(class_view(target) =~= g[a as int] + g[b as int]);
            assert(class_view(self.classes@[b as int]) =~= Seq::<NodeV>::empty());
            assert forall|i: int| 0 <= i < g.len() implies self@[i] == union_spec(g, a as int, b as int)[i] by {
                if i != a as int && i != b as int {
                    assert(self.classes@[i] == old(self).classes@[i]);
                }
            }
            assert(self@ =~= union_spec(g, a as int, b as int));
        }
        a
    }
}

proof fn lemma_holder_found(g: GraphV, n: NodeV, c: int, k: int)
    requires
        0 <= c < k <= g.len(),
        holder_before(g, n, c) == None::<int>,
        g[c].contains(n),
    ensures
        holder_before(g, n, k) == Some(c),
    decreases k,
{
    if k > c + 1 {
        lemma_holder_found(g, n, c, k - 1);
    }
}

} // verus!
