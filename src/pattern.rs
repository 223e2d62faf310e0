use vstd::prelude::*;

use symbolic_expressions::Sexp;

use crate::wildmap::WildcardKind;

verus! {

/// A pattern: a node whose children are patterns, or a named wildcard.
#[derive(Debug, PartialEq)]
pub enum Pattern {
    ENode(String, Vec<Pattern>),
    Wildcard(String, WildcardKind),
}

/// Model of a pattern.
pub enum PatternV {
    Node(Seq<char>, Seq<PatternV>),
    Wildcard(Seq<char>, WildcardKind),
}

impl View for Pattern {
    type V = PatternV;

    open spec fn view(&self) -> PatternV
        decreases self,
    {
        match self {
            Pattern::ENode(op, ch) => PatternV::Node(
                op@,
                Seq::new(
                    ch@.len(),
                    |i: int|
                        if 0 <= i < ch@.len() {
                            ch@[i]@
                        } else {
                            PatternV::Wildcard(Seq::empty(), WildcardKind::Single)
                        },
                ),
            ),
            Pattern::Wildcard(w, k) => PatternV::Wildcard(w@, *k),
        }
    }
}

/// A ground term: an operator applied to ground terms.
#[derive(Debug, PartialEq)]
pub struct RecExpr {
    pub op: String,
    pub children: Vec<RecExpr>,
}

/// Model of a ground term.
pub struct Term {
    pub op: Seq<char>,
    pub children: Seq<Term>,
}

impl View for RecExpr {
    type V = Term;

    open spec fn view(&self) -> Term
        decreases self,
    {
        Term {
            op: self.op@,
            children: Seq::new(
                self.children@.len(),
                |i: int|
                    if 0 <= i < self.children@.len() {
                        self.children@[i]@
                    } else {
                        Term { op: Seq::empty(), children: Seq::empty() }
                    },
            ),
        }
    }
}

/// The pattern with the shape of `t` and no wildcard.
pub open spec fn lift(t: Term) -> PatternV
    decreases t,
{
    PatternV::Node(
        t.op,
        Seq::new(
            t.children.len(),
            |i: int|
                if 0 <= i < t.children.len() {
                    lift(t.children[i])
                } else {
                    PatternV::Wildcard(Seq::empty(), WildcardKind::Single)
                },
        ),
    )
}

/// Whether `p` holds a wildcard.
pub open spec fn has_wildcard(p: PatternV) -> bool
    decreases p,
{
    match p {
        PatternV::Node(_, ch) => exists|i: int| 0 <= i < ch.len() && has_wildcard(#[trigger] ch[i]),
        PatternV::Wildcard(_, _) => true,
    }
}

/// Whether `p` holds a wildcard named `w`.
pub open spec fn mentions(p: PatternV, w: Seq<char>) -> bool
    decreases p,
{
    match p {
        PatternV::Node(_, ch) => exists|i: int| 0 <= i < ch.len() && mentions(#[trigger] ch[i], w),
        PatternV::Wildcard(name, _) => name == w,
    }
}

/// Why a pattern is not a ground term.
#[derive(Debug, Clone, PartialEq, Eq)]
pub enum PatternError {
    UnresolvedWildcard(String),
}

#[verifier::external_type_specification]
pub struct ExSexp(Sexp);

/// Model of an s-expression.
pub enum SexpV {
    Atom(Seq<char>),
    List(Seq<SexpV>),
    Empty,
}

pub open spec fn sexp_view(s: Sexp) -> SexpV
    decreases s,
{
    match s {
        Sexp::String(a) => SexpV::Atom(a@),
        Sexp::List(v) => SexpV::List(
            Seq::new(
                v@.len(),
                |i: int|
                    if 0 <= i < v@.len() {
                        sexp_view(v@[i])
                    } else {
                        SexpV::Empty
                    },
            ),
        ),
        Sexp::Empty => SexpV::Empty,
    }
}

/// The rendering of a pattern: a wildcard as its name, a leaf as its
/// operator, and any other node as the list of its operator and its rendered
/// children.
pub open spec fn render(p: PatternV) -> SexpV
    decreases p,
{
    match p {
        PatternV::Wildcard(w, _) => SexpV::Atom(w),
        PatternV::Node(op, ch) => if ch.len() == 0 {
            SexpV::Atom(op)
        } else {
            SexpV::List(
                seq![SexpV::Atom(op)] + Seq::new(
                    ch.len(),
                    |i: int|
                        if 0 <= i < ch.len() {
                            render(ch[i])
                        } else {
                            SexpV::Empty
                        },
                ),
            )
        },
    }
}

impl Pattern {
    /// The wildcard-free pattern with the shape of `e`.
    pub fn from_expr(e: &RecExpr) -> (r: Pattern)
        ensures
            r@ == lift(e@),
        decreases e,
    {
        let mut ch: Vec<Pattern> = Vec::new();
        let mut i: usize = 0;
        while i < e.children.len()
            invariant
                0 <= i <= e.children.len(),
                ch.len() == i,
                forall|j: int| 0 <= j < i ==> (#[trigger] ch@[j])@ == lift(e.children@[j]@),
            decreases e.children.len() - i,
        {
            proof {
                assert(decreases_to!(*e => e.children));
                assert(decreases_to!(e.children => e.children@));
                assert(decreases_to!(e.children@ => e.children@[i as int]));
            }
            let c = Pattern::from_expr(&e.children[i]);
            ch.push(c);
            i += 1;
        }
        let r = Pattern::ENode(e.op.clone(), ch);
        proof {
            assert(r@->Node_1 =~= lift(e@)->Node_1);
        }
        r
    }

    /// The ground term that this pattern spells, or the name of a wildcard
    /// that it holds.
    pub fn to_expr(&self) -> (r: Result<RecExpr, PatternError>)
        ensures
            r is Ok <==> !has_wildcard(self@),
            r matches Ok(t) ==> lift(t@) == self@,
            r matches Err(PatternError::UnresolvedWildcard(w)) ==> mentions(self@, w@),
        decreases self,
    {
        match self {
            Pattern::Wildcard(w, _) => Err(PatternError::UnresolvedWildcard(w.clone())),
            Pattern::ENode(op, ch) => {
                let mut kids: Vec<RecExpr> = Vec::new();
                let mut i: usize = 0;
                while i < ch.len()
                    invariant
                        0 <= i <= ch.len(),
                        *self == Pattern::ENode(*op, *ch),
                        kids.len() == i,
                        forall|j: int| 0 <= j < i ==> lift((#[trigger] kids@[j])@) == ch@[j]@,
                        forall|j: int| 0 <= j < i ==> !has_wildcard((#[trigger] ch@[j])@),
                    decreases ch.len() - i,
                {
                    proof {
                        assert(decreases_to!(*self => *ch));
                        assert(decreases_to!(*ch => ch@));
                        assert(decreases_to!(ch@ => ch@[i as int]));
                    }
                    match ch[i].to_expr() {
                        Ok(t) => kids.push(t),
                        Err(err) => {
                            proof {
                                assert(self@->Node_1[i as int] == ch@[i as int]@);
                                assert(mentions(self@->Node_1[i as int], err->UnresolvedWildcard_0@));
                            }
                            return Err(err);
                        },
                    }
                    i += 1;
                }
                let t = RecExpr { op: op.clone(), children: kids };
                proof {
                    assert(lift(t@)->Node_1 =~= self@->Node_1);
                    assert forall|j: int| 0 <= j < self@->Node_1.len() implies !has_wildcard(
                        #[trigger] self@->Node_1[j],
                    ) by {
                        assert(!has_wildcard(ch@[j]@));
                    }
                }
                Ok(t)
            },
        }
    }

    /// Whether this pattern is a wildcard that captures a run of classes.
    pub fn is_multi_wildcard(&self) -> (r: bool)
        ensures
            r == (self@ matches PatternV::Wildcard(_, WildcardKind::ZeroOrMore)),
    {
        match self {
            Pattern::Wildcard(_, WildcardKind::ZeroOrMore) => true,
            _ => false,
        }
    }

    /// The s-expression that renders this pattern.
    pub fn to_sexp(&self) -> (r: Sexp)
        ensures
            sexp_view(r) == render(self@),
        decreases self,
    {
        match self {
            Pattern::Wildcard(w, _) => Sexp::String(w.clone()),
            Pattern::ENode(op, ch) => {
                proof {
                    assert(decreases_to!(*self => *ch));
                }
                let mut v: Vec<Sexp> = Vec::new();
                v.push(Sexp::String(op.clone()));
                let mut i: usize = 0;
                while i < ch.len()
                    invariant
                        0 <= i <= ch.len(),
                        *self == Pattern::ENode(*op, *ch),
                        decreases_to!(*self => *ch),
                        v.len() == i + 1,
                        sexp_view(v@[0]) == SexpV::Atom(op@),
                        forall|j: int| 0 <= j < i ==> sexp_view(#[trigger] v@[j + 1]) == render(ch@[j]@),
                    decreases ch.len() - i,
                {
                    proof {
                        assert(decreases_to!(*ch => ch@));
                        assert(decreases_to!(ch@ => ch@[i as int]));
                    }
                    v.push(ch[i].to_sexp());
                    i += 1;
                }
                if ch.len() == 0 {
                    return Sexp::String(op.clone());
                }
                let r = Sexp::List(v);
                proof {
                    let want = render(self@);
                    assert(sexp_view(r)->List_0 =~= want->List_0) by {
                        assert forall|j: int| 0 < j < v.len() implies sexp_view(v@[j]) == want->List_0[j] by {
                            assert(sexp_view(v@[(j - 1) + 1]) == render(ch@[j - 1]@));
                        }
                    }
                }
                r
            },
        }
    }
}

/// A ground term lifted to a pattern holds no wildcard, and the lifting is
/// one to one: `to_expr` hands back the very term that `from_expr` was given.
pub proof fn lemma_round_trip(t: Term, u: Term)
    ensures
        !has_wildcard(lift(t)),
        lift(u) == lift(t) ==> u == t,
    decreases t,
{
    assert forall|i: int| 0 <= i < t.children.len() implies !has_wildcard(#[trigger] lift(t)->Node_1[i]) by {
        lemma_round_trip(t.children[i], t.children[i]);
    }
    if lift(u) == lift(t) {
        assert(lift(u)->Node_1.len() == lift(t)->Node_1.len());
        assert(u.children.len() == t.children.len());
        assert(u.op == t.op);
        assert forall|i: int| 0 <= i < t.children.len() implies u.children[i] == t.children[i] by {
            assert(lift(u)->Node_1[i] == lift(t)->Node_1[i]);
            lemma_round_trip(t.children[i], u.children[i]);
        }
        assert(u.children =~= t.children);
    }
}

} // verus!
