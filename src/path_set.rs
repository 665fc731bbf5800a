use vstd::prelude::*;
use indexmap::IndexMap;
use crate::path::{path_key, PathString};

verus! {

/// What an ordered path set holds: each entry is a path's comparison key
/// and the path as it was first inserted.
pub type PathItems = Seq<(Seq<char>, Seq<char>)>;

/// An insertion-ordered set of paths in which no two entries are equal as
/// paths. Kept on an `IndexMap` from comparison key to the path's text.
#[verifier::external_body]
pub struct PathSet {
    items: IndexMap<Vec<char>, String>,
}

/// The entries of a path set, in order.
pub uninterp spec fn path_set_items(s: PathSet) -> Seq<(Seq<char>, Seq<char>)>;

impl View for PathSet {
    type V = PathItems;

    open spec fn view(&self) -> PathItems {
        path_set_items(*self)
    }
}

/// Whether some entry of `s` has comparison key `k`.
pub open spec fn has_key(s: PathItems, k: Seq<char>) -> bool {
    exists|j: int| 0 <= j < s.len() && #[trigger] s[j].0 == k
}

/// Keys are unique and each is the key of its path.
pub open spec fn items_wf(s: PathItems) -> bool {
    &&& forall|i: int, j: int| 0 <= i < j < s.len() ==> #[trigger] s[i].0 != #[trigger] s[j].0
    &&& forall|i: int| 0 <= i < s.len() ==> #[trigger] s[i].0 == path_key(s[i].1)
}

/// The keys of `s` as a set.
pub open spec fn item_keys(s: PathItems) -> Set<Seq<char>> {
    Set::new(|k: Seq<char>| has_key(s, k))
}

/// `s` with path `p` added at the end, unless an equal path is present.
pub open spec fn insert_path(s: PathItems, p: Seq<char>) -> PathItems {
    if has_key(s, path_key(p)) {
        s
    } else {
        s.push((path_key(p), p))
    }
}

/// `d` with the paths of `t` inserted one after the other.
pub open spec fn union_items(d: PathItems, t: PathItems) -> PathItems
    decreases t.len(),
{
    if t.len() == 0 {
        d
    } else {
        insert_path(union_items(d, t.drop_last()), t.last().1)
    }
}

/// The entries of `u` whose key is not in `r`, in order.
pub open spec fn minus_items(u: PathItems, r: PathItems) -> PathItems
    decreases u.len(),
{
    if u.len() == 0 {
        u
    } else if has_key(r, u.last().0) {
        minus_items(u.drop_last(), r)
    } else {
        minus_items(u.drop_last(), r).push(u.last())
    }
}

pub proof fn lemma_insert_wf(s: PathItems, p: Seq<char>)
    requires
        items_wf(s),
    ensures
        items_wf(insert_path(s, p)),
        forall|k: Seq<char>|
            has_key(insert_path(s, p), k) <==> (has_key(s, k) || k == path_key(p)),
{
    let r = insert_path(s, p);
    assert forall|k: Seq<char>|
        has_key(r, k) <==> (has_key(s, k) || k == path_key(p)) by {
        if !has_key(s, path_key(p)) {
            if has_key(s, k) {
                let j = choose|j: int| 0 <= j < s.len() && #[trigger] s[j].0 == k;
                assert(r[j].0 == k);
            }
            if k == path_key(p) {
                assert(r[s.len() as int].0 == k);
            }
            if has_key(r, k) {
                let j = choose|j: int| 0 <= j < r.len() && #[trigger] r[j].0 == k;
                if j < s.len() {
                    assert(s[j].0 == k);
                }
            }
        }
    }
}

pub proof fn lemma_union_wf(d: PathItems, t: PathItems)
    requires
        items_wf(d),
        items_wf(t),
    ensures
        items_wf(union_items(d, t)),
        forall|k: Seq<char>|
            has_key(union_items(d, t), k) <==> (has_key(d, k) || has_key(t, k)),
    decreases t.len(),
{
    if t.len() > 0 {
        let t0 = t.drop_last();
        assert(items_wf(t0));
        lemma_union_wf(d, t0);
        lemma_insert_wf(union_items(d, t0), t.last().1);
        assert forall|k: Seq<char>| has_key(t, k) <==> (has_key(t0, k) || k == t.last().0) by {
            if has_key(t, k) {
                let j = choose|j: int| 0 <= j < t.len() && #[trigger] t[j].0 == k;
                if j < t0.len() {
                    assert(t0[j].0 == k);
                }
            }
            if has_key(t0, k) {
                let j = choose|j: int| 0 <= j < t0.len() && #[trigger] t0[j].0 == k;
                assert(t[j].0 == k);
            }
            if k == t.last().0 {
                assert(t[t.len() - 1].0 == k);
            }
        }
    }
}

pub proof fn lemma_minus_wf(u: PathItems, r: PathItems)
    requires
        items_wf(u),
    ensures
        items_wf(minus_items(u, r)),
        forall|k: Seq<char>|
            has_key(minus_items(u, r), k) <==> (has_key(u, k) && !has_key(r, k)),
    decreases u.len(),
{
    if u.len() > 0 {
        let u0 = u.drop_last();
        assert(items_wf(u0));
        lemma_minus_wf(u0, r);
        let m0 = minus_items(u0, r);
        let m = minus_items(u, r);
        assert forall|k: Seq<char>| has_key(u, k) <==> (has_key(u0, k) || k == u.last().0) by {
            if has_key(u, k) {
                let j = choose|j: int| 0 <= j < u.len() && #[trigger] u[j].0 == k;
                if j < u0.len() {
                    assert(u0[j].0 == k);
                }
            }
            if has_key(u0, k) {
                let j = choose|j: int| 0 <= j < u0.len() && #[trigger] u0[j].0 == k;
                assert(u[j].0 == k);
            }
            if k == u.last().0 {
                assert(u[u.len() - 1].0 == k);
            }
        }
        assert(!has_key(u0, u.last().0));
        if !has_key(r, u.last().0) {
            assert(m == m0.push(u.last()));
            assert forall|k: Seq<char>| has_key(m, k) <==> (has_key(m0, k) || k == u.last().0) by {
                if has_key(m, k) {
                    let j = choose|j: int| 0 <= j < m.len() && #[trigger] m[j].0 == k;
                    if j < m0.len() {
                        assert(m0[j].0 == k);
                    }
                }
                if has_key(m0, k) {
                    let j = choose|j: int| 0 <= j < m0.len() && #[trigger] m0[j].0 == k;
                    assert(m[j].0 == k);
                }
                if k == u.last().0 {
                    assert(m[m.len() - 1].0 == k);
                }
            }
            assert forall|i: int, j: int| 0 <= i < j < m.len() implies #[trigger] m[i].0
                != #[trigger] m[j].0 by {
                if j == m.len() - 1 {
                    assert(m[i].0 == m0[i].0);
                    if m[i].0 == m[j].0 {
                        assert(has_key(m0, u.last().0));
                    }
                }
            }
        }
    }
}

impl PathSet {
    pub open spec fn wf(&self) -> bool {
        items_wf(self@)
    }

    /// Relies on IndexMap::new: the map starts empty.
    #[verifier::external_body]
    pub(crate) fn new() -> (r: PathSet)
        ensures
            path_set_items(r) == Seq::<(Seq<char>, Seq<char>)>::empty(),
    {
        PathSet { items: IndexMap::new() }
    }

    /// Relies on IndexMap::len: the number of entries.
    #[verifier::external_body]
    pub(crate) fn len(&self) -> (r: usize)
        ensures
            r == path_set_items(*self).len(),
    {
        self.items.len()
    }

    /// Relies on IndexMap::contains_key: whether an entry has this key.
    #[verifier::external_body]
    fn contains_key(&self, key: &Vec<char>) -> (r: bool)
        ensures
            r == has_key(path_set_items(*self), key@),
    {
        self.items.contains_key(key)
    }

    /// Relies on IndexMap::insert: a key not yet present goes last in order.
    #[verifier::external_body]
    fn push_new(&mut self, key: Vec<char>, path: String)
        requires
            !has_key(old(self)@, key@),
        ensures
            path_set_items(*final(self)) == path_set_items(*old(self)).push((key@, path@)),
    {
        self.items.insert(key, path);
    }

    /// Relies on IndexMap::get_index: the entry at a position in the order.
    #[verifier::external_body]
    pub(crate) fn get(&self, i: usize) -> (r: PathString)
        requires
            i < self@.len(),
        ensures
            r.0@ == path_set_items(*self)[i as int].1,
    {
        PathString(self.items.get_index(i).unwrap().1.clone())
    }

    /// Adds `p` at the end unless an equal path is already present; returns
    /// whether it was added.
    pub fn insert(&mut self, p: PathString) -> (r: bool)
        requires
            old(self).wf(),
        ensures
            final(self)@ == insert_path(old(self)@, p.0@),
            final(self).wf(),
            r == !has_key(old(self)@, path_key(p.0@)),
    {
        proof {
            lemma_insert_wf(self@, p.0@);
        }
        let key = p.key();
        if self.contains_key(&key) {
            false
        } else {
            self.push_new(key, p.0);
            true
        }
    }

    /// Whether a path equal to `p` is present.
    pub fn contains(&self, p: &PathString) -> (r: bool)
        ensures
            r == has_key(self@, path_key(p.0@)),
    {
        let key = p.key();
        self.contains_key(&key)
    }

    /// Inserts the paths of `other` in their order.
    pub fn union_with(&mut self, other: &PathSet)
        requires
            old(self).wf(),
            other.wf(),
        ensures
            final(self)@ == union_items(old(self)@, other@),
            final(self).wf(),
    {
        let ghost d = self@;
        let n = other.len();
        let mut i: usize = 0;
        while i < n
            invariant
                n == other@.len(),
                i <= n,
                other.wf(),
                items_wf(d),
                self@ == union_items(d, other@.take(i as int)),
                self.wf(),
            decreases n - i,
        {
            let p = other.get(i);
            assert(other@.take(i + 1).drop_last() =~= other@.take(i as int));
            self.insert(p);
            i = i + 1;
        }
        assert(other@.take(n as int) =~= other@);
    }

    /// A copy of this set.
    pub fn copy(&self) -> (r: PathSet)
        requires
            self.wf(),
        ensures
            r@ == self@,
            r.wf(),
    {
        let mut r = PathSet::new();
        r.union_with(self);
        proof {
            lemma_union_of_wf_into_empty(self@);
        }
        r
    }

    /// The entries of this set whose path is not equal to one in `r`.
    pub fn minus(&self, r: &PathSet) -> (out: PathSet)
        requires
            self.wf(),
        ensures
            out@ == minus_items(self@, r@),
            out.wf(),
    {
        let n = self.len();
        let mut out = PathSet::new();
        let mut i: usize = 0;
        while i < n
            invariant
                n == self@.len(),
                i <= n,
                self.wf(),
                out@ == minus_items(self@.take(i as int), r@),
                out.wf(),
            decreases n - i,
        {
            let p = self.get(i);
            let ghost u = self@.take(i + 1);
            assert(u.drop_last() =~= self@.take(i as int));
            assert(items_wf(u));
            proof {
                lemma_minus_wf(u.drop_last(), r@);
                lemma_minus_wf(u, r@);
            }
            let key = p.key();
            assert(u.last() == self@[i as int]);
            assert(key@ == u.last().0);
            if !r.contains_key(&key) {
                assert(!has_key(u.drop_last(), u.last().0)) by {
                    if has_key(u.drop_last(), u.last().0) {
                        let j = choose|j: int|
                            0 <= j < u.drop_last().len() && #[trigger] u.drop_last()[j].0
                                == u.last().0;
                        assert(u[j].0 == u[u.len() - 1].0);
                    }
                }
                out.push_new(key, p.0);
            }
            i = i + 1;
        }
        assert(self@.take(n as int) =~= self@);
        out
    }

    /// The paths of this set, in order.
    pub fn to_vec(&self) -> (r: Vec<PathString>)
        ensures
            r@.len() == self@.len(),
            forall|i: int| 0 <= i < r@.len() ==> #[trigger] r@[i].0@ == self@[i].1,
    {
        let n = self.len();
        let mut r: Vec<PathString> = Vec::new();
        let mut i: usize = 0;
        while i < n
            invariant
                n == self@.len(),
                i <= n,
                r@.len() == i,
                forall|j: int| 0 <= j < i ==> #[trigger] r@[j].0@ == self@[j].1,
            decreases n - i,
        {
            r.push(self.get(i));
            i = i + 1;
        }
        r
    }
}

pub proof fn lemma_union_of_wf_into_empty(t: PathItems)
    requires
        items_wf(t),
    ensures
        union_items(Seq::empty(), t) == t,
    decreases t.len(),
{
    if t.len() > 0 {
        let t0 = t.drop_last();
        assert(items_wf(t0));
        lemma_union_of_wf_into_empty(t0);
        assert(!has_key(t0, path_key(t.last().1))) by {
            if has_key(t0, path_key(t.last().1)) {
                let j = choose|j: int| 0 <= j < t0.len() && #[trigger] t0[j].0 == path_key(t.last().1);
                assert(t[j].0 == t[t.len() - 1].0);
            }
        }
        assert(t.last().0 == path_key(t.last().1));
        assert(t0.push(t.last()) =~= t);
    } else {
        assert(t =~= Seq::empty());
    }
}

} // verus!
