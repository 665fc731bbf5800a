use vstd::prelude::*;
use crate::env_map::{
    EnvMap, EnvModel, items_at, var_map, var_lookup, vars_wf, lemma_lookup_index,
    lemma_lookup_found, lemma_vars_model_wf,
};
use crate::path_set::{minus_items, union_items, lemma_union_of_wf_into_empty};
use crate::resolve::EnvBlock;

verus! {

/// Whether the update plan sets variable `k`: it is added to, or it is
/// removed from and the system has it.
pub open spec fn planned(a: EnvModel, r: EnvModel, s: EnvModel, k: Seq<char>) -> bool {
    a.contains_key(k) || (r.contains_key(k) && s.contains_key(k))
}

/// The update plan: for each planned variable, the added paths, then the
/// system's paths not among them, without the removed paths.
pub open spec fn plan_spec(a: EnvModel, r: EnvModel, s: EnvModel) -> EnvModel {
    Map::new(
        |k: Seq<char>| planned(a, r, s, k),
        |k: Seq<char>|
            (
                if a.contains_key(k) {
                    a[k].0
                } else {
                    r[k].0
                },
                minus_items(union_items(items_at(a, k), items_at(s, k)), items_at(r, k)),
            ),
    )
}

/// Combines a resolved block with the system's variables into the final
/// value of each variable to set. Variables that no profile adds to or
/// removes from are left out, and so is one that is only removed from and
/// that the system does not have.
pub fn merge(block: &EnvBlock, system: &EnvMap) -> (plan: EnvMap)
    requires
        block.wf(),
        system.wf(),
    ensures
        plan.wf(),
        plan@ == plan_spec(block.add_block@, block.remove_block@, system@),
{
    let ghost a = block.add_block@;
    let ghost r = block.remove_block@;
    let ghost s = system@;
    let ghost want = plan_spec(a, r, s);
    let ghost av = block.add_block.vars@;
    let ghost rv = block.remove_block.vars@;
    proof {
        lemma_vars_model_wf(system.vars@);
    }
    let mut plan = EnvMap::new();
    let n = block.add_block.len();
    let mut i: usize = 0;
    proof {
        assert(plan@ =~= want.restrict(var_map(av.take(0)).dom()));
    }
    while i < n
        invariant
            n == av.len(),
            i <= n,
            block.wf(),
            system.wf(),
            a == block.add_block@,
            r == block.remove_block@,
            s == system@,
            av == block.add_block.vars@,
            want == plan_spec(a, r, s),
            plan.wf(),
            plan@ == want.restrict(var_map(av.take(i as int)).dom()),
        decreases n - i,
    {
        let v = block.add_block.var_at(i);
        let ghost t0 = av.take(i as int);
        let ghost t1 = av.take(i + 1);
        proof {
            assert(t1.drop_last() =~= t0);
            assert(vars_wf(t1));
            assert(!var_map(t0).contains_key(v.key@)) by {
                if var_lookup(t0, v.key@) is Some {
                    let j = lemma_lookup_found(t0, v.key@);
                    assert(av[j].key@ == av[i as int].key@);
                }
            }
            lemma_lookup_index(av, i as int);
        }
        let mut u = v.values.copy();
        let sv = system.values_or_empty(&v.key);
        u.union_with(&sv);
        let remove = block.remove_block.values_or_empty(&v.key);
        let out = u.minus(&remove);
        plan.push_new(v.name.clone(), v.key.clone(), out);
        proof {
            assert(var_map(t1).dom() =~= var_map(t0).dom().insert(v.key@));
            assert(plan@ =~= want.restrict(var_map(t1).dom()));
        }
        i = i + 1;
    }
    proof {
        assert(av.take(n as int) =~= av);
        assert(var_map(av) == a);
    }
    let m = block.remove_block.len();
    let mut j: usize = 0;
    proof {
        assert(var_map(rv.take(0)).dom() =~= Set::empty());
        assert(plan@ =~= want.restrict(
            a.dom().union(var_map(rv.take(0)).dom().intersect(s.dom())),
        ));
    }
    while j < m
        invariant
            m == rv.len(),
            j <= m,
            block.wf(),
            system.wf(),
            a == block.add_block@,
            r == block.remove_block@,
            s == system@,
            rv == block.remove_block.vars@,
            want == plan_spec(a, r, s),
            plan.wf(),
            plan@ == want.restrict(
                a.dom().union(var_map(rv.take(j as int)).dom().intersect(s.dom())),
            ),
        decreases m - j,
    {
        let v = block.remove_block.var_at(j);
        let ghost t0 = rv.take(j as int);
        let ghost t1 = rv.take(j + 1);
        proof {
            assert(t1.drop_last() =~= t0);
            assert(vars_wf(t1));
            assert(!var_map(t0).contains_key(v.key@)) by {
                if var_lookup(t0, v.key@) is Some {
                    let k = lemma_lookup_found(t0, v.key@);
                    assert(rv[k].key@ == rv[j as int].key@);
                }
            }
            lemma_lookup_index(rv, j as int);
            assert(var_map(t1).dom() =~= var_map(t0).dom().insert(v.key@));
        }
        if block.add_block.find(&v.key).is_none() {
            if let Some(k) = system.find(&v.key) {
                let sys_var = system.var_at(k);
                proof {
                    lemma_union_of_wf_into_empty(sys_var.values@);
                }
                let out = sys_var.values.minus(&v.values);
                plan.push_new(v.name.clone(), v.key.clone(), out);
                proof {
                    assert(plan@ =~= want.restrict(
                        a.dom().union(var_map(t1).dom().intersect(s.dom())),
                    ));
                }
            } else {
                proof {
                    assert(plan@ =~= want.restrict(
                        a.dom().union(var_map(t1).dom().intersect(s.dom())),
                    ));
                }
            }
        } else {
            proof {
                assert(plan@ =~= want.restrict(
                    a.dom().union(var_map(t1).dom().intersect(s.dom())),
                ));
            }
        }
        j = j + 1;
    }
    proof {
        assert(rv.take(m as int) =~= rv);
        assert(var_map(rv) == r);
        assert(plan@ =~= want);
    }
    plan
}

} // verus!
