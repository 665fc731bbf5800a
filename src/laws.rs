use vstd::prelude::*;
use crate::env_map::{EnvModel, model_union, model_wf};
use crate::path::{fold_path_char, is_separator, path_key, trim_separators};
use crate::path_set::{PathItems, has_key, item_keys, items_wf, union_items, lemma_union_wf};
use crate::plan::plan_spec;
use crate::resolve::{
    ProfileModel, ResolveFault, empty_block, profile_index, resolve_all_spec, resolve_list,
    resolve_spec,
};

verus! {

proof fn lemma_trim_trailing(s: Seq<char>, t: Seq<char>)
    requires
        forall|i: int| 0 <= i < t.len() ==> is_separator(#[trigger] t[i]),
    ensures
        trim_separators(s + t) == trim_separators(s),
    decreases t.len(),
{
    if t.len() > 0 {
        assert((s + t).drop_last() =~= s + t.drop_last());
        assert((s + t).last() == t.last());
        lemma_trim_trailing(s, t.drop_last());
    } else {
        assert(s + t =~= s);
    }
}

proof fn lemma_trim_prefix(s: Seq<char>)
    ensures
        trim_separators(s).len() <= s.len(),
        trim_separators(s) == s.take(trim_separators(s).len() as int),
    decreases s.len(),
{
    if s.len() > 0 && is_separator(s.last()) {
        lemma_trim_prefix(s.drop_last());
        assert(s.drop_last().take(trim_separators(s).len() as int) =~= s.take(
            trim_separators(s).len() as int,
        ));
    } else {
        assert(s.take(s.len() as int) =~= s);
    }
}

proof fn lemma_trim_folded(a: Seq<char>, b: Seq<char>)
    requires
        a.len() == b.len(),
        forall|i: int| 0 <= i < a.len() ==> fold_path_char(#[trigger] a[i]) == fold_path_char(b[i]),
    ensures
        trim_separators(a).len() == trim_separators(b).len(),
    decreases a.len(),
{
    if a.len() > 0 {
        let n = a.len() - 1;
        assert(fold_path_char(a[n]) == fold_path_char(b[n]));
        if is_separator(a.last()) {
            lemma_trim_folded(a.drop_last(), b.drop_last());
        }
    }
}

/// Two paths are equal when they differ only in the case of ASCII letters,
/// in `/` against `\`, and in trailing separators.
pub proof fn law_path_equality(a: Seq<char>, b: Seq<char>, ta: Seq<char>, tb: Seq<char>)
    requires
        a.len() == b.len(),
        forall|i: int| 0 <= i < a.len() ==> fold_path_char(#[trigger] a[i]) == fold_path_char(b[i]),
        forall|i: int| 0 <= i < ta.len() ==> is_separator(#[trigger] ta[i]),
        forall|i: int| 0 <= i < tb.len() ==> is_separator(#[trigger] tb[i]),
    ensures
        path_key(a + ta) == path_key(b + tb),
        path_key(a) == path_key(a),
{
    lemma_trim_trailing(a, ta);
    lemma_trim_trailing(b, tb);
    lemma_trim_folded(a, b);
    lemma_trim_prefix(a);
    lemma_trim_prefix(b);
    let n = trim_separators(a).len() as int;
    assert(path_key(a + ta) =~= path_key(b + tb)) by {
        assert forall|i: int| 0 <= i < n implies #[trigger] path_key(a + ta)[i] == path_key(
            b + tb,
        )[i] by {
            assert(trim_separators(a)[i] == a[i]);
            assert(trim_separators(b)[i] == b[i]);
        }
    }
}

/// Inserting paths that are all present already changes nothing.
proof fn lemma_union_present(d: PathItems, t: PathItems)
    requires
        items_wf(t),
        forall|k: Seq<char>| has_key(t, k) ==> has_key(d, k),
    ensures
        union_items(d, t) == d,
    decreases t.len(),
{
    if t.len() > 0 {
        let t0 = t.drop_last();
        assert(items_wf(t0));
        assert forall|k: Seq<char>| has_key(t0, k) implies has_key(d, k) by {
            let j = choose|j: int| 0 <= j < t0.len() && #[trigger] t0[j].0 == k;
            assert(t[j].0 == k);
        }
        lemma_union_present(d, t0);
        assert(t[t.len() - 1].0 == path_key(t.last().1));
        assert(has_key(t, t.last().0));
    }
}

/// Uniting two environment maps in either order gives the same variables,
/// and each variable the same set of paths; uniting a map with what it
/// already holds changes nothing.
pub proof fn law_union_commutative_idempotent(d: EnvModel, s: EnvModel)
    requires
        model_wf(d),
        model_wf(s),
    ensures
        model_union(d, s).dom() == model_union(s, d).dom(),
        forall|k: Seq<char>| #[trigger]
            model_union(d, s).contains_key(k) ==> item_keys(model_union(d, s)[k].1) == item_keys(
                model_union(s, d)[k].1,
            ),
        model_union(d, d) == d,
        model_union(model_union(d, s), s) == model_union(d, s),
{
    let u = model_union(d, s);
    let v = model_union(s, d);
    assert(u.dom() =~= v.dom());
    assert forall|k: Seq<char>| #[trigger] u.contains_key(k) implies item_keys(u[k].1) == item_keys(
        v[k].1,
    ) by {
        if d.contains_key(k) && s.contains_key(k) {
            lemma_union_wf(d[k].1, s[k].1);
            lemma_union_wf(s[k].1, d[k].1);
            assert(u[k].1 == union_items(d[k].1, s[k].1));
            assert(v[k].1 == union_items(s[k].1, d[k].1));
            assert forall|x: Seq<char>| #[trigger] item_keys(u[k].1).contains(x) <==> item_keys(
                v[k].1,
            ).contains(x) by {
                assert(has_key(u[k].1, x) <==> (has_key(d[k].1, x) || has_key(s[k].1, x)));
                assert(has_key(v[k].1, x) <==> (has_key(s[k].1, x) || has_key(d[k].1, x)));
            }
            assert(item_keys(u[k].1) =~= item_keys(v[k].1));
        }
    }
    assert forall|k: Seq<char>| #[trigger] d.contains_key(k) implies union_items(d[k].1, d[k].1)
        == d[k].1 by {
        lemma_union_present(d[k].1, d[k].1);
    }
    assert(model_union(d, d) =~= d);
    let w = model_union(u, s);
    assert forall|k: Seq<char>| #[trigger] w.contains_key(k) implies w[k] == u[k] by {
        if s.contains_key(k) {
            if d.contains_key(k) {
                lemma_union_wf(d[k].1, s[k].1);
            }
            lemma_union_present(u[k].1, s[k].1);
        }
    }
    assert(w =~= u);
}

/// A profile that takes in no other profile resolves to its own variables
/// as additions and nothing as removals.
pub proof fn law_leaf_profile(ps: Seq<ProfileModel>, name: Seq<char>)
    requires
        ps.len() <= usize::MAX,
        profile_index(ps, name) >= 0,
        ps[profile_index(ps, name)].add.len() == 0,
        ps[profile_index(ps, name)].remove.len() == 0,
    ensures
        resolve_spec(ps, name, Seq::empty()) == Ok::<(EnvModel, EnvModel), ResolveFault>(
            (ps[profile_index(ps, name)].env, Map::empty()),
        ),
        resolve_all_spec(ps, seq![name]) == Ok::<(EnvModel, EnvModel), ResolveFault>(
            (ps[profile_index(ps, name)].env, Map::empty()),
        ),
{
    let i = profile_index(ps, name);
    let env = ps[i].env;
    assert(i < ps.len()) by {
        if exists|k: int| crate::resolve::is_first_named(ps, name, k) {
            let k = choose|k: int| crate::resolve::is_first_named(ps, name, k);
        }
    }
    assert(!Seq::<usize>::empty().contains(i as usize));
    let names = seq![name];
    assert(names.drop_last() =~= Seq::<Seq<char>>::empty());
    assert(model_union(Map::empty(), env) =~= env);
    assert(model_union(Map::<Seq<char>, (Seq<char>, PathItems)>::empty(), Map::empty()) =~= Map::empty());
    let start = (env, Map::<Seq<char>, (Seq<char>, PathItems)>::empty());
    let inner = Seq::<usize>::empty().push(i as usize);
    assert(resolve_list(ps, ps[i].add, inner, start, true) == Ok::<(EnvModel, EnvModel), ResolveFault>(start));
    assert(resolve_list(ps, ps[i].remove, inner, start, false) == Ok::<(EnvModel, EnvModel), ResolveFault>(start));
    assert(resolve_spec(ps, name, Seq::empty()) == Ok::<(EnvModel, EnvModel), ResolveFault>(start));
    assert(names.last() == name);
    assert(resolve_list(ps, names.drop_last(), Seq::empty(), empty_block(), true) == Ok::<
        (EnvModel, EnvModel),
        ResolveFault,
    >(empty_block()));
}

/// Profiles that take each other in through `add` fail as a cycle rather
/// than resolving forever.
pub proof fn law_cycle_fails(ps: Seq<ProfileModel>, a: Seq<char>, b: Seq<char>)
    requires
        ps.len() <= usize::MAX,
        profile_index(ps, a) >= 0,
        profile_index(ps, b) >= 0,
        ps[profile_index(ps, a)].add == seq![b],
        ps[profile_index(ps, b)].add == seq![a],
    ensures
        resolve_spec(ps, a, Seq::empty()) == Err::<(EnvModel, EnvModel), ResolveFault>(
            ResolveFault::CyclicReference(a),
        ),
{
    let ia = profile_index(ps, a);
    let ib = profile_index(ps, b);
    assert(ia < ps.len() && ib < ps.len()) by {
        if exists|k: int| crate::resolve::is_first_named(ps, a, k) {
            let k = choose|k: int| crate::resolve::is_first_named(ps, a, k);
        }
        if exists|k: int| crate::resolve::is_first_named(ps, b, k) {
            let k = choose|k: int| crate::resolve::is_first_named(ps, b, k);
        }
    }
    let s1 = Seq::<usize>::empty().push(ia as usize);
    let s2 = s1.push(ib as usize);
    assert(!Seq::<usize>::empty().contains(ia as usize));
    assert(s1[0] == ia as usize);
    assert(s2[0] == ia as usize);
    assert(s2.contains(ia as usize));
    assert(seq![a].drop_last() =~= Seq::<Seq<char>>::empty());
    assert(seq![b].drop_last() =~= Seq::<Seq<char>>::empty());
    let start_b = (ps[ib].env, Map::<Seq<char>, (Seq<char>, PathItems)>::empty());
    if ia == ib {
        assert(s1.contains(ib as usize));
        assert(resolve_spec(ps, b, s1) is Err);
    } else {
        assert(resolve_spec(ps, a, s2) == Err::<(EnvModel, EnvModel), ResolveFault>(
            ResolveFault::CyclicReference(a),
        ));
        assert(seq![a].last() == a);
        assert(resolve_list(ps, seq![a].drop_last(), s2, start_b, true) == Ok::<
            (EnvModel, EnvModel),
            ResolveFault,
        >(start_b));
        assert(resolve_list(ps, seq![a], s2, start_b, true) == Err::<
            (EnvModel, EnvModel),
            ResolveFault,
        >(ResolveFault::CyclicReference(a)));
        assert(!s1.contains(ib as usize)) by {
            if s1.contains(ib as usize) {
                let j = choose|j: int| 0 <= j < s1.len() && s1[j] == ib as usize;
                assert(s1[j] == ia as usize);
            }
        }
        assert(s1.push(ib as usize) == s2);
        assert(resolve_spec(ps, b, s1) == Err::<(EnvModel, EnvModel), ResolveFault>(
            ResolveFault::CyclicReference(a),
        ));
    }
    assert(seq![b].last() == b);
    let start_a = (ps[ia].env, Map::<Seq<char>, (Seq<char>, PathItems)>::empty());
    assert(resolve_list(ps, seq![b].drop_last(), s1, start_a, true) == Ok::<
        (EnvModel, EnvModel),
        ResolveFault,
    >(start_a));
    assert(resolve_list(ps, seq![b], s1, start_a, true) is Err);
}

/// A variable that no resolved profile adds to or removes from stays out of
/// the update plan, whatever the system holds.
pub proof fn law_untouched_variable(a: EnvModel, r: EnvModel, s: EnvModel, k: Seq<char>)
    requires
        !a.contains_key(k),
        !r.contains_key(k),
    ensures
        !plan_spec(a, r, s).contains_key(k),
{
}

/// Requesting no profile resolves to an empty block, and its plan is empty
/// whatever the system holds.
pub proof fn law_no_profiles(ps: Seq<ProfileModel>, s: EnvModel)
    ensures
        resolve_all_spec(ps, Seq::empty()) == Ok::<(EnvModel, EnvModel), ResolveFault>(
            empty_block(),
        ),
        plan_spec(Map::empty(), Map::empty(), s) == Map::<Seq<char>, (Seq<char>, PathItems)>::empty(),
{
    assert(plan_spec(Map::empty(), Map::empty(), s) =~= Map::<
        Seq<char>,
        (Seq<char>, PathItems),
    >::empty());
}

/// Every variable of `small` is in `big`, with every path of it.
pub open spec fn covers(big: EnvModel, small: EnvModel) -> bool {
    forall|k: Seq<char>| #[trigger]
        small.contains_key(k) ==> big.contains_key(k) && item_keys(small[k].1).subset_of(
            item_keys(big[k].1),
        )
}

/// Each profile's own variables are well formed.
pub open spec fn envs_wf(ps: Seq<ProfileModel>) -> bool {
    forall|i: int| 0 <= i < ps.len() ==> model_wf(#[trigger] ps[i].env)
}

proof fn lemma_union_covers(d: EnvModel, s: EnvModel)
    requires
        model_wf(d),
        model_wf(s),
    ensures
        model_wf(model_union(d, s)),
        covers(model_union(d, s), d),
        covers(model_union(d, s), s),
{
    let u = model_union(d, s);
    assert forall|k: Seq<char>| #[trigger] u.contains_key(k) implies k == crate::env_map::folded_name(
        u[k].0,
    ) && items_wf(u[k].1) && (d.contains_key(k) ==> item_keys(d[k].1).subset_of(
        item_keys(u[k].1),
    )) && (s.contains_key(k) ==> item_keys(s[k].1).subset_of(item_keys(u[k].1))) by {
        if d.contains_key(k) && s.contains_key(k) {
            lemma_union_wf(d[k].1, s[k].1);
        }
    }
}

proof fn lemma_covers_refl(m: EnvModel)
    ensures
        covers(m, m),
{
}

proof fn lemma_resolve_wf(ps: Seq<ProfileModel>, name: Seq<char>, stack: Seq<usize>)
    requires
        envs_wf(ps),
    ensures
        resolve_spec(ps, name, stack) matches Ok(b) ==> model_wf(b.0) && model_wf(b.1),
    decreases ps.len() - stack.len(), 0int,
{
    let i = profile_index(ps, name);
    if i >= 0 && !(stack.contains(i as usize) || stack.len() >= ps.len()) {
        assert(i < ps.len()) by {
            if exists|k: int| crate::resolve::is_first_named(ps, name, k) {
                let k = choose|k: int| crate::resolve::is_first_named(ps, name, k);
            }
        }
        let inner = stack.push(i as usize);
        let start = (ps[i].env, Map::<Seq<char>, (Seq<char>, PathItems)>::empty());
        lemma_list_wf(ps, ps[i].add, inner, start, true);
        if let Ok(acc) = resolve_list(ps, ps[i].add, inner, start, true) {
            lemma_list_wf(ps, ps[i].remove, inner, acc, false);
        }
    }
}

proof fn lemma_list_wf(
    ps: Seq<ProfileModel>,
    names: Seq<Seq<char>>,
    stack: Seq<usize>,
    start: (EnvModel, EnvModel),
    adding: bool,
)
    requires
        envs_wf(ps),
        model_wf(start.0),
        model_wf(start.1),
    ensures
        resolve_list(ps, names, stack, start, adding) matches Ok(b) ==> model_wf(b.0) && model_wf(
            b.1,
        ),
    decreases ps.len() - stack.len(), names.len(),
{
    if names.len() > 0 {
        lemma_list_wf(ps, names.drop_last(), stack, start, adding);
        lemma_resolve_wf(ps, names.last(), stack);
        if let Ok(acc) = resolve_list(ps, names.drop_last(), stack, start, adding) {
            if let Ok(b) = resolve_spec(ps, names.last(), stack) {
                lemma_union_covers(acc.0, b.0);
                lemma_union_covers(acc.1, b.1);
                lemma_union_covers(acc.1, b.0);
                lemma_union_covers(model_union(acc.1, b.0), b.1);
            }
        }
    }
}

/// What a list resolves to covers where it started and each block it took in.
proof fn lemma_list_covers(
    ps: Seq<ProfileModel>,
    names: Seq<Seq<char>>,
    stack: Seq<usize>,
    start: (EnvModel, EnvModel),
    adding: bool,
    m: int,
)
    requires
        envs_wf(ps),
        model_wf(start.0),
        model_wf(start.1),
        0 <= m < names.len(),
        resolve_list(ps, names, stack, start, adding) is Ok,
    ensures
        ({
            let res = resolve_list(ps, names, stack, start, adding)->Ok_0;
            &&& covers(res.0, start.0)
            &&& covers(res.1, start.1)
            &&& resolve_spec(ps, names[m], stack) is Ok
            &&& adding ==> covers(res.0, resolve_spec(ps, names[m], stack)->Ok_0.0)
            &&& adding ==> covers(res.1, resolve_spec(ps, names[m], stack)->Ok_0.1)
            &&& !adding ==> covers(res.1, resolve_spec(ps, names[m], stack)->Ok_0.0)
            &&& !adding ==> covers(res.1, resolve_spec(ps, names[m], stack)->Ok_0.1)
        }),
    decreases names.len(),
{
    let n0 = names.drop_last();
    let acc = resolve_list(ps, n0, stack, start, adding)->Ok_0;
    let b = resolve_spec(ps, names.last(), stack)->Ok_0;
    lemma_list_wf(ps, n0, stack, start, adding);
    lemma_resolve_wf(ps, names.last(), stack);
    lemma_union_covers(acc.0, b.0);
    lemma_union_covers(acc.1, b.1);
    lemma_union_covers(acc.1, b.0);
    lemma_union_covers(model_union(acc.1, b.0), b.1);
    if n0.len() == 0 {
        lemma_covers_refl(start.0);
        lemma_covers_refl(start.1);
    } else {
        lemma_list_covers(ps, n0, stack, start, adding, if m < n0.len() { m } else { 0 });
    }
    if m < n0.len() {
        assert(names[m] == n0[m]);
    }
}

/// A profile that takes in, through `add`, a profile that takes in a third
/// through `remove` removes everything the third adds or removes.
pub proof fn law_removal_through_add(
    ps: Seq<ProfileModel>,
    a: Seq<char>,
    b: Seq<char>,
    c: Seq<char>,
)
    requires
        ps.len() <= usize::MAX,
        envs_wf(ps),
        profile_index(ps, a) >= 0,
        ps[profile_index(ps, a)].add.contains(b),
        profile_index(ps, b) >= 0,
        ps[profile_index(ps, b)].remove.contains(c),
        resolve_spec(ps, a, Seq::empty()) is Ok,
    ensures
        resolve_spec(
            ps,
            c,
            seq![profile_index(ps, a) as usize, profile_index(ps, b) as usize],
        ) is Ok,
        covers(
            resolve_spec(ps, a, Seq::empty())->Ok_0.1,
            resolve_spec(
                ps,
                c,
                seq![profile_index(ps, a) as usize, profile_index(ps, b) as usize],
            )->Ok_0.0,
        ),
        covers(
            resolve_spec(ps, a, Seq::empty())->Ok_0.1,
            resolve_spec(
                ps,
                c,
                seq![profile_index(ps, a) as usize, profile_index(ps, b) as usize],
            )->Ok_0.1,
        ),
{
    let ia = profile_index(ps, a);
    let ib = profile_index(ps, b);
    assert(ia < ps.len() && ib < ps.len()) by {
        if exists|k: int| crate::resolve::is_first_named(ps, a, k) {
            let k = choose|k: int| crate::resolve::is_first_named(ps, a, k);
        }
        if exists|k: int| crate::resolve::is_first_named(ps, b, k) {
            let k = choose|k: int| crate::resolve::is_first_named(ps, b, k);
        }
    }
    let s1 = Seq::<usize>::empty().push(ia as usize);
    let s2 = s1.push(ib as usize);
    assert(s2 =~= seq![ia as usize, ib as usize]);
    let start_a = (ps[ia].env, Map::<Seq<char>, (Seq<char>, PathItems)>::empty());
    let acc_a = resolve_list(ps, ps[ia].add, s1, start_a, true)->Ok_0;
    let res_a = resolve_spec(ps, a, Seq::empty())->Ok_0;
    let mb = choose|m: int| 0 <= m < ps[ia].add.len() && ps[ia].add[m] == b;
    lemma_list_covers(ps, ps[ia].add, s1, start_a, true, mb);
    lemma_list_wf(ps, ps[ia].add, s1, start_a, true);
    let bb = resolve_spec(ps, b, s1)->Ok_0;
    if ps[ia].remove.len() > 0 {
        lemma_list_covers(ps, ps[ia].remove, s1, acc_a, false, 0);
    } else {
        lemma_covers_refl(acc_a.1);
    }
    // Inside `a`, `b` resolved below `a`.
    assert(!s1.contains(ib as usize) && s1.len() < ps.len());
    let start_b = (ps[ib].env, Map::<Seq<char>, (Seq<char>, PathItems)>::empty());
    let acc_b = resolve_list(ps, ps[ib].add, s2, start_b, true)->Ok_0;
    let mc = choose|m: int| 0 <= m < ps[ib].remove.len() && ps[ib].remove[m] == c;
    lemma_list_wf(ps, ps[ib].add, s2, start_b, true);
    lemma_list_covers(ps, ps[ib].remove, s2, acc_b, false, mc);
}

} // verus!
