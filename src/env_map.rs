use vstd::prelude::*;
use unicase::UniCase;
use crate::path::PathString;
use crate::path_set::{PathItems, PathSet, items_wf, insert_path, union_items};

verus! {

/// The case folding of a variable name, as unicase computes it.
pub uninterp spec fn folded_name(name: Seq<char>) -> Seq<char>;

/// Relies on UniCase::to_folded_case: the case-folded form of a name, by
/// which unicase tells two names equal.
#[verifier::external_body]
fn fold_name(name: &str) -> (r: String)
    ensures
        r@ == folded_name(name@),
{
    UniCase::new(name).to_folded_case()
}

/// What a variable maps to: the name as first written, and its paths.
pub type VarModel = (Seq<char>, PathItems);

/// The model of an environment map: folded name to variable.
pub type EnvModel = Map<Seq<char>, VarModel>;

/// One variable of an environment map.
pub struct EnvVar {
    pub name: String,
    pub key: String,
    pub values: PathSet,
}

/// A map from case-insensitive variable name to an ordered set of paths.
pub struct EnvMap {
    pub vars: Vec<EnvVar>,
}

/// The variable that `vars` holds under key `k`, the last one if several.
pub open spec fn var_lookup(vars: Seq<EnvVar>, k: Seq<char>) -> Option<VarModel>
    decreases vars.len(),
{
    if vars.len() == 0 {
        None
    } else if vars.last().key@ == k {
        Some((vars.last().name@, vars.last().values@))
    } else {
        var_lookup(vars.drop_last(), k)
    }
}

pub open spec fn var_map(vars: Seq<EnvVar>) -> EnvModel {
    Map::new(|k: Seq<char>| var_lookup(vars, k) is Some, |k: Seq<char>| var_lookup(vars, k)->0)
}

pub open spec fn vars_wf(vars: Seq<EnvVar>) -> bool {
    &&& forall|i: int, j: int|
        0 <= i < j < vars.len() ==> #[trigger] vars[i].key@ != #[trigger] vars[j].key@
    &&& forall|i: int|
        0 <= i < vars.len() ==> (#[trigger] vars[i].key@ == folded_name(vars[i].name@)
            && vars[i].values.wf())
}

/// Every variable of the model is keyed by its folded name and holds a
/// well-formed path set.
pub open spec fn model_wf(m: EnvModel) -> bool {
    forall|k: Seq<char>| #[trigger] m.contains_key(k) ==> k == folded_name(m[k].0) && items_wf(m[k].1)
}

/// The paths under `k`, or none.
pub open spec fn items_at(m: EnvModel, k: Seq<char>) -> PathItems {
    if m.contains_key(k) {
        m[k].1
    } else {
        Seq::empty()
    }
}

/// `m` with path `p` added to the variable `name`.
pub open spec fn model_insert(m: EnvModel, name: Seq<char>, p: Seq<char>) -> EnvModel {
    let k = folded_name(name);
    if m.contains_key(k) {
        m.insert(k, (m[k].0, insert_path(m[k].1, p)))
    } else {
        m.insert(k, (name, insert_path(Seq::empty(), p)))
    }
}

/// The union of two maps: a variable of both keeps `d`'s name and gets the
/// paths of `s` inserted after its own.
pub open spec fn model_union(d: EnvModel, s: EnvModel) -> EnvModel {
    Map::new(
        |k: Seq<char>| d.contains_key(k) || s.contains_key(k),
        |k: Seq<char>|
            if d.contains_key(k) && s.contains_key(k) {
                (d[k].0, union_items(d[k].1, s[k].1))
            } else if d.contains_key(k) {
                d[k]
            } else {
                s[k]
            },
    )
}

pub proof fn lemma_lookup_index(vars: Seq<EnvVar>, i: int)
    requires
        vars_wf(vars),
        0 <= i < vars.len(),
    ensures
        var_lookup(vars, vars[i].key@) == Some((vars[i].name@, vars[i].values@)),
    decreases vars.len(),
{
    if i < vars.len() - 1 {
        assert(vars_wf(vars.drop_last()));
        lemma_lookup_index(vars.drop_last(), i);
        assert(vars[i].key@ != vars[vars.len() - 1].key@);
    }
}

pub proof fn lemma_lookup_found(vars: Seq<EnvVar>, k: Seq<char>) -> (i: int)
    requires
        var_lookup(vars, k) is Some,
    ensures
        0 <= i < vars.len(),
        vars[i].key@ == k,
    decreases vars.len(),
{
    if vars.last().key@ == k {
        vars.len() - 1
    } else {
        lemma_lookup_found(vars.drop_last(), k)
    }
}

pub proof fn lemma_vars_model_wf(vars: Seq<EnvVar>)
    requires
        vars_wf(vars),
    ensures
        model_wf(var_map(vars)),
{
    assert forall|k: Seq<char>| #[trigger] var_map(vars).contains_key(k) implies k == folded_name(
        var_map(vars)[k].0,
    ) && items_wf(var_map(vars)[k].1) by {
        let i = lemma_lookup_found(vars, k);
        lemma_lookup_index(vars, i);
    }
}

pub proof fn lemma_lookup_update(vars: Seq<EnvVar>, i: int, e: EnvVar, k: Seq<char>)
    requires
        vars_wf(vars),
        0 <= i < vars.len(),
        e.key@ == vars[i].key@,
    ensures
        var_lookup(vars.update(i, e), k) == if k == vars[i].key@ {
            Some((e.name@, e.values@))
        } else {
            var_lookup(vars, k)
        },
    decreases vars.len(),
{
    let v2 = vars.update(i, e);
    if i < vars.len() - 1 {
        assert(vars_wf(vars.drop_last()));
        assert(v2.drop_last() =~= vars.drop_last().update(i, e));
        lemma_lookup_update(vars.drop_last(), i, e, k);
        assert(vars[i].key@ != vars[vars.len() - 1].key@);
    } else {
        assert(v2.drop_last() =~= vars.drop_last());
        if k == vars[i].key@ {
        } else {
        }
    }
}

impl View for EnvMap {
    type V = EnvModel;

    open spec fn view(&self) -> EnvModel {
        var_map(self.vars@)
    }
}

impl EnvMap {
    pub open spec fn wf(&self) -> bool {
        vars_wf(self.vars@)
    }

    /// An empty map.
    pub fn new() -> (r: EnvMap)
        ensures
            r@ == Map::<Seq<char>, VarModel>::empty(),
            r.wf(),
    {
        let r = EnvMap { vars: Vec::new() };
        assert(r@ =~= Map::<Seq<char>, VarModel>::empty());
        r
    }

    /// The number of variables.
    pub fn len(&self) -> (r: usize)
        ensures
            r == self.vars@.len(),
    {
        self.vars.len()
    }

    /// The variable at position `i`.
    pub fn var_at(&self, i: usize) -> (r: &EnvVar)
        requires
            i < self.vars@.len(),
        ensures
            *r == self.vars@[i as int],
    {
        &self.vars[i]
    }

    /// The position of the variable with folded name `key`, if any.
    pub fn find(&self, key: &String) -> (r: Option<usize>)
        requires
            self.wf(),
        ensures
            r is Some ==> r->0 < self.vars@.len() && self.vars@[r->0 as int].key@ == key@
                && self@.contains_key(key@) && self@[key@] == (
                self.vars@[r->0 as int].name@,
                self.vars@[r->0 as int].values@,
            ),
            r is None ==> !self@.contains_key(key@),
    {
        let mut i: usize = 0;
        while i < self.vars.len()
            invariant
                i <= self.vars@.len(),
                self.wf(),
                forall|j: int| 0 <= j < i ==> #[trigger] self.vars@[j].key@ != key@,
            decreases self.vars@.len() - i,
        {
            if self.vars[i].key == *key {
                proof {
                    lemma_lookup_index(self.vars@, i as int);
                }
                return Some(i);
            }
            i = i + 1;
        }
        proof {
            if self@.contains_key(key@) {
                let j = lemma_lookup_found(self.vars@, key@);
                assert(self.vars@[j].key@ != key@);
            }
        }
        None
    }

    /// The paths of the variable with folded name `key`, or an empty set.
    pub fn values_or_empty(&self, key: &String) -> (r: PathSet)
        requires
            self.wf(),
        ensures
            r@ == items_at(self@, key@),
            r.wf(),
    {
        match self.find(key) {
            Some(i) => {
                proof {
                    lemma_lookup_index(self.vars@, i as int);
                }
                self.vars[i].values.copy()
            },
            None => PathSet::new(),
        }
    }

    /// Adds a variable whose key is not yet present.
    pub(crate) fn push_new(&mut self, name: String, key: String, values: PathSet)
        requires
            old(self).wf(),
            !old(self)@.contains_key(key@),
            key@ == folded_name(name@),
            values.wf(),
        ensures
            final(self).wf(),
            final(self)@ == old(self)@.insert(key@, (name@, values@)),
    {
        let ghost old_vars = self.vars@;
        let ghost k = key@;
        let ghost entry = (name@, values@);
        self.vars.push(EnvVar { name, key, values });
        proof {
            assert(self.vars@.drop_last() =~= old_vars);
            assert forall|i: int, j: int|
                0 <= i < j < self.vars@.len() implies #[trigger] self.vars@[i].key@
                != #[trigger] self.vars@[j].key@ by {
                if j == self.vars@.len() - 1 {
                    lemma_lookup_index(old_vars, i);
                }
            }
            assert(self@ =~= var_map(old_vars).insert(k, entry));
        }
    }

    /// Replaces the paths of the variable at position `i`.
    fn set_values(&mut self, i: usize, values: PathSet)
        requires
            old(self).wf(),
            i < old(self).vars@.len(),
            values.wf(),
        ensures
            final(self).wf(),
            final(self).vars@.len() == old(self).vars@.len(),
            final(self)@ == old(self)@.insert(
                old(self).vars@[i as int].key@,
                (old(self).vars@[i as int].name@, values@),
            ),
    {
        let ghost old_vars = self.vars@;
        let name = self.vars[i].name.clone();
        let key = self.vars[i].key.clone();
        let ghost e = EnvVar { name, key, values };
        let ghost ev = values@;
        self.vars.set(i, EnvVar { name, key, values });
        proof {
            assert(self.vars@ == old_vars.update(i as int, self.vars@[i as int]));
            assert forall|k: Seq<char>| #[trigger] var_lookup(self.vars@, k) == if k == old_vars[i as int].key@ {
                Some((old_vars[i as int].name@, ev))
            } else {
                var_lookup(old_vars, k)
            } by {
                lemma_lookup_update(old_vars, i as int, self.vars@[i as int], k);
            }
            assert(self@ =~= var_map(old_vars).insert(
                old_vars[i as int].key@,
                (old_vars[i as int].name@, ev),
            ));
        }
    }

    /// Adds path `p` to variable `name`, creating the variable if needed.
    pub fn insert(&mut self, name: &String, p: PathString)
        requires
            old(self).wf(),
        ensures
            final(self).wf(),
            final(self)@ == model_insert(old(self)@, name@, p.0@),
    {
        let key = fold_name(name.as_str());
        match self.find(&key) {
            Some(i) => {
                let mut values = self.vars[i].values.copy();
                proof {
                    lemma_lookup_index(self.vars@, i as int);
                }
                values.insert(p);
                self.set_values(i, values);
            },
            None => {
                let mut values = PathSet::new();
                values.insert(p);
                self.push_new(name.clone(), key, values);
            },
        }
    }

    /// Unites `other` into this map, variable by variable.
    pub fn union_with(&mut self, other: &EnvMap)
        requires
            old(self).wf(),
            other.wf(),
        ensures
            final(self).wf(),
            final(self)@ == model_union(old(self)@, other@),
    {
        let ghost d = self@;
        let n = other.vars.len();
        let mut i: usize = 0;
        proof {
            assert(model_union(d, var_map(other.vars@.take(0))) =~= d);
        }
        while i < n
            invariant
                n == other.vars@.len(),
                i <= n,
                other.wf(),
                self.wf(),
                self@ == model_union(d, var_map(other.vars@.take(i as int))),
            decreases n - i,
        {
            let ov = &other.vars[i];
            let ghost t0 = other.vars@.take(i as int);
            let ghost t1 = other.vars@.take(i + 1);
            proof {
                assert(t1.drop_last() =~= t0);
                assert(vars_wf(t1));
                assert(!var_map(t0).contains_key(ov.key@)) by {
                    if var_lookup(t0, ov.key@) is Some {
                        let j = lemma_lookup_found(t0, ov.key@);
                        assert(other.vars@[j].key@ == other.vars@[i as int].key@);
                    }
                }
                assert(var_map(t1) =~= var_map(t0).insert(ov.key@, (ov.name@, ov.values@)));
            }
            match self.find(&ov.key) {
                Some(j) => {
                    let mut values = self.vars[j].values.copy();
                    proof {
                        lemma_lookup_index(self.vars@, j as int);
                    }
                    values.union_with(&ov.values);
                    self.set_values(j, values);
                },
                None => {
                    let values = ov.values.copy();
                    self.push_new(ov.name.clone(), ov.key.clone(), values);
                },
            }
            proof {
                assert(self@ =~= model_union(d, var_map(t1)));
            }
            i = i + 1;
        }
        proof {
            assert(other.vars@.take(n as int) =~= other.vars@);
        }
    }

    /// A copy of this map.
    pub fn copy(&self) -> (r: EnvMap)
        requires
            self.wf(),
        ensures
            r.wf(),
            r@ == self@,
    {
        let mut r = EnvMap::new();
        r.union_with(self);
        assert(r@ =~= self@);
        r
    }
}

/// The paths `ps` inserted in order into an empty set.
pub open spec fn path_list(ps: Seq<Seq<char>>) -> PathItems
    decreases ps.len(),
{
    if ps.len() == 0 {
        Seq::empty()
    } else {
        insert_path(path_list(ps.drop_last()), ps.last())
    }
}

/// The snapshot of the variables `vars`, each given with the paths its value
/// splits into. A later variable of the same folded name replaces the paths
/// of an earlier one and keeps its name.
pub open spec fn snapshot_spec(vars: Seq<(String, Vec<String>)>) -> EnvModel
    decreases vars.len(),
{
    if vars.len() == 0 {
        Map::empty()
    } else {
        let m = snapshot_spec(vars.drop_last());
        let name = vars.last().0@;
        let k = folded_name(name);
        let paths = path_list(vars.last().1@.map_values(|s: String| s@));
        if m.contains_key(k) {
            m.insert(k, (m[k].0, paths))
        } else {
            m.insert(k, (name, paths))
        }
    }
}

/// The set of paths `ps`, duplicates dropped.
pub fn path_set_of(ps: &Vec<String>) -> (r: PathSet)
    ensures
        r.wf(),
        r@ == path_list(ps@.map_values(|s: String| s@)),
{
    let ghost all = ps@.map_values(|s: String| s@);
    let mut r = PathSet::new();
    let mut j: usize = 0;
    while j < ps.len()
        invariant
            j <= ps@.len(),
            all == ps@.map_values(|s: String| s@),
            r.wf(),
            r@ == path_list(all.take(j as int)),
        decreases ps@.len() - j,
    {
        proof {
            assert(all.take(j + 1).drop_last() =~= all.take(j as int));
        }
        r.insert(PathString(ps[j].clone()));
        j = j + 1;
    }
    proof {
        assert(all.take(ps@.len() as int) =~= all);
    }
    r
}

/// Builds the snapshot of the system's variables from each variable's name
/// and the paths its value splits into.
pub fn system_env(vars: &Vec<(String, Vec<String>)>) -> (r: EnvMap)
    ensures
        r.wf(),
        r@ == snapshot_spec(vars@),
{
    let mut m = EnvMap::new();
    let mut j: usize = 0;
    while j < vars.len()
        invariant
            j <= vars@.len(),
            m.wf(),
            m@ == snapshot_spec(vars@.take(j as int)),
        decreases vars@.len() - j,
    {
        proof {
            assert(vars@.take(j + 1).drop_last() =~= vars@.take(j as int));
        }
        let name = &vars[j].0;
        let paths = path_set_of(&vars[j].1);
        let key = fold_name(name.as_str());
        match m.find(&key) {
            Some(i) => {
                m.set_values(i, paths);
            },
            None => {
                m.push_new(name.clone(), key, paths);
            },
        }
        j = j + 1;
    }
    proof {
        assert(vars@.take(vars@.len() as int) =~= vars@);
    }
    m
}

impl EnvMap {
    /// The paths of variable `name`, compared without case, in order.
    pub fn paths_of(&self, name: &str) -> (r: Option<Vec<PathString>>)
        requires
            self.wf(),
        ensures
            r is Some <==> self@.contains_key(folded_name(name@)),
            r is Some ==> r->0@.len() == self@[folded_name(name@)].1.len() && forall|i: int|
                0 <= i < r->0@.len() ==> #[trigger] r->0@[i].0@ == self@[folded_name(
                    name@,
                )].1[i].1,
    {
        let key = fold_name(name);
        match self.find(&key) {
            Some(i) => Some(self.vars[i].values.to_vec()),
            None => None,
        }
    }
}

} // verus!
