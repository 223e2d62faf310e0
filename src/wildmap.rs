use vstd::prelude::*;

use smallvec::SmallVec;

use crate::egraph::{copy_ids, same_ids, Id};

verus! {

/// How many classes a wildcard captures: exactly one, or a possibly empty
/// run at the tail of a node's children.
#[derive(Debug, PartialEq, Eq, Clone, Copy, Hash, Structural)]
pub enum WildcardKind {
    Single,
    ZeroOrMore,
}

/// Model of one binding: a wildcard name, its kind and the captured classes.
pub type Entry = (Seq<char>, WildcardKind, Seq<Id>);

/// Model of a binding table: its bindings in insertion order.
pub type Table = Seq<Entry>;

/// The first binding of `name` in `t`.
pub open spec fn lookup(t: Table, name: Seq<char>) -> Option<Entry>
    decreases t.len(),
{
    if t.len() == 0 {
        None
    } else if t[0].0 == name {
        Some(t[0])
    } else {
        lookup(t.drop_first(), name)
    }
}

/// The classes that `t` binds to `name` (empty where it binds none).
pub open spec fn lookup_ids(t: Table, name: Seq<char>) -> Seq<Id> {
    match lookup(t, name) {
        Some(e) => e.2,
        None => Seq::empty(),
    }
}

/// Adds binding `e` to `t`: `None` when `t` already binds its name to other
/// classes.
pub open spec fn insert_entry(t: Table, e: Entry) -> Option<Table> {
    match lookup(t, e.0) {
        Some(old_e) => if old_e.2 == e.2 {
            Some(t)
        } else {
            None
        },
        None => Some(t.push(e)),
    }
}

/// Adds the bindings of `m` to `t`, in order: `None` on the first conflict.
pub open spec fn merge_into(t: Table, m: Table) -> Option<Table>
    decreases m.len(),
{
    if m.len() == 0 {
        Some(t)
    } else {
        match merge_into(t, m.drop_last()) {
            Some(t2) => insert_entry(t2, m.last()),
            None => None,
        }
    }
}

/// One stored binding: a wildcard name, its kind and the captured classes.
pub type Binding = (String, WildcardKind, Vec<Id>);

/// Storage for the bindings of a table, kept inline while there are few.
#[verifier::external_body]
#[derive(Debug, PartialEq, Hash)]
pub struct BindingStore {
    items: SmallVec<[Binding; 2]>,
}

/// The bindings that a store holds, in order.
pub uninterp spec fn stored_bindings(v: BindingStore) -> Seq<Entry>;

/// Relies on `SmallVec::new`: a store with no items.
#[verifier::external_body]
fn bindings_new() -> (r: BindingStore)
    ensures
        stored_bindings(r) == Seq::<Entry>::empty(),
{
    BindingStore { items: SmallVec::new() }
}

/// Relies on `SmallVec::push`: the item is appended after the others.
#[verifier::external_body]
fn bindings_push(v: &mut BindingStore, b: Binding)
    ensures
        stored_bindings(*final(v)) == stored_bindings(*old(v)).push(entry_view(b)),
{
    v.items.push(b)
}

/// Relies on `SmallVec::len`: the number of items.
#[verifier::external_body]
fn bindings_len(v: &BindingStore) -> (r: usize)
    ensures
        r == stored_bindings(*v).len(),
{
    v.items.len()
}

/// Relies on indexing a `SmallVec`: the item at position `i`.
#[verifier::external_body]
fn binding_at(v: &BindingStore, i: usize) -> (r: &Binding)
    requires
        i < stored_bindings(*v).len(),
    ensures
        entry_view(*r) == stored_bindings(*v)[i as int],
{
    &v.items[i]
}

/// A binding table: for each wildcard name, its kind and the classes it
/// captured.
#[derive(Debug, PartialEq, Hash)]
pub struct WildMap {
    vec: BindingStore,
}

pub open spec fn entry_view(e: (String, WildcardKind, Vec<Id>)) -> Entry {
    (e.0@, e.1, e.2@)
}

impl View for WildMap {
    type V = Table;

    closed spec fn view(&self) -> Table {
        stored_bindings(self.vec)
    }
}

proof fn lemma_lookup_suffix(t: Table, name: Seq<char>, i: int)
    requires
        0 <= i < t.len(),
    ensures
        lookup(t.subrange(i, t.len() as int), name) == if t[i].0 == name {
            Some(t[i])
        } else {
            lookup(t.subrange(i + 1, t.len() as int), name)
        },
{
    assert(t.subrange(i, t.len() as int).drop_first() =~= t.subrange(i + 1, t.len() as int));
}

impl Default for WildMap {
    fn default() -> (r: WildMap)
        ensures
            r@ == Seq::<Entry>::empty(),
    {
        WildMap::new()
    }
}

impl WildMap {
    /// The empty table.
    pub fn new() -> (r: WildMap)
        ensures
            r@ == Seq::<Entry>::empty(),
    {
        let r = WildMap { vec: bindings_new() };
        proof {
            assert(r@ =~= Seq::<Entry>::empty());
        }
        r
    }

    pub fn len(&self) -> (r: usize)
        ensures
            r == self@.len(),
    {
        bindings_len(&self.vec)
    }

    /// The `i`-th binding, in insertion order.
    pub fn entry(&self, i: usize) -> (r: (&String, WildcardKind, &Vec<Id>))
        requires
            i < self@.len(),
        ensures
            (r.0@, r.1, r.2@) == self@[i as int],
    {
        let e = binding_at(&self.vec, i);
        (&e.0, e.1, &e.2)
    }

    /// A copy of the table.
    pub fn copy(&self) -> (r: WildMap)
        ensures
            r@ == self@,
    {
        let mut v = bindings_new();
        let n = bindings_len(&self.vec);
        let mut i: usize = 0;
        while i < n
            invariant
                0 <= i <= n,
                n == self@.len(),
                stored_bindings(v) == self@.subrange(0, i as int),
            decreases n - i,
        {
            let e = binding_at(&self.vec, i);
            bindings_push(&mut v, (e.0.clone(), e.1, copy_ids(&e.2)));
            i += 1;
            proof {
                assert(stored_bindings(v) =~= self@.subrange(0, i as int));
            }
        }
        let r = WildMap { vec: v };
        proof {
            assert(r@ =~= self@);
        }
        r
    }

    /// The position of the first binding of `w`.
    fn position(&self, w: &String) -> (r: Option<usize>)
        ensures
            match r {
                Some(i) => i < self@.len() && lookup(self@, w@) == Some(self@[i as int]),
                None => lookup(self@, w@) == None::<Entry>,
            },
    {
        let ghost t = self@;
        let mut i: usize = 0;
        proof {
            assert(t.subrange(0, t.len() as int) =~= t);
        }
        let n = bindings_len(&self.vec);
        while i < n
            invariant
                0 <= i <= n,
                n == t.len(),
                t == self@,
                lookup(t, w@) == lookup(t.subrange(i as int, t.len() as int), w@),
            decreases n - i,
        {
            proof {
                lemma_lookup_suffix(t, w@, i as int);
            }
            if binding_at(&self.vec, i).0 == *w {
                return Some(i);
            }
            i += 1;
        }
        None
    }

    /// The classes bound to `w`, whose binding must be of kind `kind`.
    pub fn get(&self, w: &String, kind: WildcardKind) -> (r: Option<&Vec<Id>>)
        requires
            lookup(self@, w@) matches Some(e) ==> e.1 == kind,
        ensures
            match lookup(self@, w@) {
                Some(e) => r matches Some(v) && v@ == e.2,
                None => r is None,
            },
    {
        match self.position(w) {
            Some(i) => Some(&binding_at(&self.vec, i).2),
            None => None,
        }
    }

    /// The classes bound to `w`, which must be bound.
    pub fn index(&self, w: &String) -> (r: &Vec<Id>)
        requires
            lookup(self@, w@) is Some,
        ensures
            r@ == lookup_ids(self@, w@),
    {
        match self.position(w) {
            Some(i) => &binding_at(&self.vec, i).2,
            None => {
                proof {
                    assert(false);
                }
                &binding_at(&self.vec, 0).2
            },
        }
    }

    /// Binds `w` unless it is bound already; then the table is unchanged and
    /// the classes bound before are returned.
    pub fn insert(&mut self, w: String, kind: WildcardKind, ids: Vec<Id>) -> (r: Option<Vec<Id>>)
        ensures
            match lookup(old(self)@, w@) {
                Some(e) => final(self)@ == old(self)@ && (r matches Some(v) && v@ == e.2),
                None => final(self)@ == old(self)@.push((w@, kind, ids@)) && r is None,
            },
    {
        match self.position(&w) {
            Some(i) => Some(copy_ids(&binding_at(&self.vec, i).2)),
            None => {
                bindings_push(&mut self.vec, (w, kind, ids));
                proof {
                    assert(self@ =~= old(self)@.push((w@, kind, ids@)));
                }
                None
            },
        }
    }

    /// Adds every binding of `m`, in order. Returns false, leaving the table
    /// in an unspecified state, when a name of `m` is bound here to other
    /// classes.
    pub fn merge(&mut self, m: &WildMap) -> (r: bool)
        ensures
            r == (merge_into(old(self)@, m@) is Some),
            r ==> final(self)@ == merge_into(old(self)@, m@)->0,
    {
        let ghost t0 = self@;
        let mut i: usize = 0;
        let n = bindings_len(&m.vec);
        while i < n
            invariant
                0 <= i <= n,
                n == m@.len(),
                t0 == old(self)@,
                merge_into(t0, m@.subrange(0, i as int)) == Some(self@),
            decreases n - i,
        {
            let ghost before = self@;
            proof {
                assert(m@.subrange(0, i + 1).drop_last() =~= m@.subrange(0, i as int));
                assert(m@.subrange(0, i + 1).last() == m@[i as int]);
                assert(merge_into(t0, m@.subrange(0, i + 1)) == insert_entry(before, m@[i as int]));
            }
            let e = binding_at(&m.vec, i);
            match self.insert(e.0.clone(), e.1, copy_ids(&e.2)) {
                Some(old_ids) => {
                    if !same_ids(&old_ids, &e.2) {
                        proof {
                            assert(lookup(before, e.0@) is Some);
                            assert(insert_entry(before, m@[i as int]) is None);
                            lemma_merge_stays_none(t0, m@, i as int + 1);
                        }
                        return false;
                    }
                },
                None => {},
            }
            i += 1;
        }
        proof {
            assert(m@.subrange(0, m@.len() as int) =~= m@);
        }
        true
    }
}

proof fn lemma_merge_stays_none(t: Table, m: Table, k: int)
    requires
        0 <= k <= m.len(),
        merge_into(t, m.subrange(0, k)) is None,
    ensures
        merge_into(t, m) is None,
    decreases m.len() - k,
{
    if k < m.len() {
        assert(m.subrange(0, k + 1).drop_last() =~= m.subrange(0, k));
        lemma_merge_stays_none(t, m, k + 1);
    } else {
        assert(m.subrange(0, k) =~= m);
    }
}

/// Every single binding of `t` captures exactly one class.
pub open spec fn singles_have_one(t: Table) -> bool {
    forall|i: int| 0 <= i < t.len() && (#[trigger] t[i]).1 == WildcardKind::Single ==> t[i].2.len() == 1
}

/// A name that `t` binds is the name of one of its bindings.
pub proof fn lemma_lookup_index(t: Table, w: Seq<char>) -> (k: int)
    requires
        lookup(t, w) is Some,
    ensures
        0 <= k < t.len(),
        t[k].0 == w,
    decreases t.len(),
{
    if t[0].0 == w {
        0
    } else {
        let k = lemma_lookup_index(t.drop_first(), w);
        k + 1
    }
}

/// A lookup of the name of any binding of `t` finds a binding.
pub proof fn lemma_lookup_finds(t: Table, k: int)
    requires
        0 <= k < t.len(),
    ensures
        lookup(t, t[k].0) is Some,
    decreases k,
{
    if k > 0 && t[0].0 != t[k].0 {
        assert(t.drop_first()[k - 1] == t[k]);
        lemma_lookup_finds(t.drop_first(), k - 1);
    }
}

/// Appending a binding leaves earlier lookups as they were.
pub proof fn lemma_lookup_push(t: Table, e: Entry, w: Seq<char>)
    ensures
        lookup(t.push(e), w) == if lookup(t, w) is Some {
            lookup(t, w)
        } else if e.0 == w {
            Some(e)
        } else {
            None
        },
    decreases t.len(),
{
    if t.len() > 0 {
        assert(t.push(e).drop_first() =~= t.drop_first().push(e));
        assert(t.push(e)[0] == t[0]);
        lemma_lookup_push(t.drop_first(), e, w);
    } else {
        assert(t.push(e).drop_first() =~= Seq::<Entry>::empty());
        assert(t.push(e)[0] == e);
        assert(lookup(Seq::<Entry>::empty(), w) is None);
    }
}

/// A merge that succeeds keeps every binding of the table merged into, and
/// binds each name of the merged table to the very classes it carried there:
/// two tables that bind one name to different classes never merge.
pub proof fn lemma_merge_agrees(t: Table, m: Table)
    requires
        merge_into(t, m) is Some,
    ensures
        forall|w: Seq<char>| #[trigger] lookup(t, w) is Some ==> lookup(merge_into(t, m)->0, w) == lookup(t, w),
        forall|k: int| 0 <= k < m.len() ==> (lookup(merge_into(t, m)->0, (#[trigger] m[k]).0) is Some
            && lookup_ids(merge_into(t, m)->0, m[k].0) == m[k].2),
        forall|w: Seq<char>| #[trigger] lookup(m, w) is Some ==> lookup(merge_into(t, m)->0, w) is Some,
        singles_have_one(t) && singles_have_one(m) ==> singles_have_one(merge_into(t, m)->0),
    decreases m.len(),
{
    lemma_merge_agrees_entries(t, m);
    assert forall|w: Seq<char>| #[trigger] lookup(m, w) is Some implies lookup(merge_into(t, m)->0, w) is Some by {
        let k = lemma_lookup_index(m, w);
        assert(lookup(merge_into(t, m)->0, m[k].0) is Some);
    }
}

proof fn lemma_merge_agrees_entries(t: Table, m: Table)
    requires
        merge_into(t, m) is Some,
    ensures
        forall|w: Seq<char>| #[trigger] lookup(t, w) is Some ==> lookup(merge_into(t, m)->0, w) == lookup(t, w),
        forall|k: int| 0 <= k < m.len() ==> (lookup(merge_into(t, m)->0, (#[trigger] m[k]).0) is Some
            && lookup_ids(merge_into(t, m)->0, m[k].0) == m[k].2),
        singles_have_one(t) && singles_have_one(m) ==> singles_have_one(merge_into(t, m)->0),
    decreases m.len(),
{
    if m.len() > 0 {
        let m2 = m.drop_last();
        let e = m.last();
        lemma_merge_agrees_entries(t, m2);
        let t2 = merge_into(t, m2)->0;
        let r = merge_into(t, m)->0;
        assert forall|w: Seq<char>| #[trigger] lookup(t2, w) is Some implies lookup(r, w) == lookup(t2, w) by {
            lemma_lookup_push(t2, e, w);
        }
        assert forall|w: Seq<char>| #[trigger] lookup(t, w) is Some implies lookup(r, w) == lookup(t, w) by {
            assert(lookup(t2, w) is Some);
        }
        assert forall|k: int| 0 <= k < m.len() implies (lookup(r, (#[trigger] m[k]).0) is Some && lookup_ids(r, m[k].0)
            == m[k].2) by {
            lemma_lookup_push(t2, e, m[k].0);
            if k < m2.len() {
                assert(m2[k] == m[k]);
                assert(lookup(t2, m2[k].0) is Some);
            }
        }
        if singles_have_one(t) && singles_have_one(m) {
            assert(singles_have_one(m2)) by {
                assert forall|i: int| 0 <= i < m2.len() && (#[trigger] m2[i]).1 == WildcardKind::Single implies m2[i].2.len()
                    == 1 by {
                    assert(m2[i] == m[i]);
                }
            }
            assert(singles_have_one(r)) by {
                assert forall|i: int| 0 <= i < r.len() && (#[trigger] r[i]).1 == WildcardKind::Single implies r[i].2.len()
                    == 1 by {
                    if r != t2 {
                        assert(r == t2.push(e));
                        if i == t2.len() {
                            assert(e == m[m.len() - 1]);
                        }
                    }
                }
            }
        }
    }
}

} // verus!
