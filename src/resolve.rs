use vstd::prelude::*;
use crate::env_map::{EnvMap, EnvModel, model_union};

verus! {

/// A named bundle of variable additions, which may take in other profiles'
/// additions (`add`) or turn them into removals (`remove`).
pub struct Profile {
    pub name: String,
    pub index: i64,
    pub add: Vec<String>,
    pub remove: Vec<String>,
    pub env: EnvMap,
}

/// The model of a profile.
pub struct ProfileModel {
    pub name: Seq<char>,
    pub index: i64,
    pub add: Seq<Seq<char>>,
    pub remove: Seq<Seq<char>>,
    pub env: EnvModel,
}

impl Profile {
    pub open spec fn model(&self) -> ProfileModel {
        ProfileModel {
            name: self.name@,
            index: self.index,
            add: self.add@.map_values(|s: String| s@),
            remove: self.remove@.map_values(|s: String| s@),
            env: self.env@,
        }
    }
}

pub open spec fn models_of(ps: Seq<Profile>) -> Seq<ProfileModel> {
    ps.map_values(|p: Profile| p.model())
}

/// What resolving profiles yields: paths to add and paths to remove, per
/// variable.
pub struct EnvBlock {
    pub add_block: EnvMap,
    pub remove_block: EnvMap,
}

/// Why a profile could not be resolved.
pub enum ResolveError {
    /// A profile of this name does not exist.
    UnknownProfile(String),
    /// The profile of this name is reached again while it is being resolved.
    CyclicReference(String),
}

/// The model of a resolution failure.
pub enum ResolveFault {
    UnknownProfile(Seq<char>),
    CyclicReference(Seq<char>),
}

pub type BlockModel = (EnvModel, EnvModel);

impl ResolveError {
    pub open spec fn fault(&self) -> ResolveFault {
        match self {
            ResolveError::UnknownProfile(n) => ResolveFault::UnknownProfile(n@),
            ResolveError::CyclicReference(n) => ResolveFault::CyclicReference(n@),
        }
    }
}

impl EnvBlock {
    pub open spec fn wf(&self) -> bool {
        self.add_block.wf() && self.remove_block.wf()
    }

    pub open spec fn model(&self) -> BlockModel {
        (self.add_block@, self.remove_block@)
    }

    /// An empty block.
    pub fn new() -> (r: EnvBlock)
        ensures
            r.wf(),
            r.model() == empty_block(),
    {
        EnvBlock { add_block: EnvMap::new(), remove_block: EnvMap::new() }
    }
}

pub open spec fn empty_block() -> BlockModel {
    (Map::empty(), Map::empty())
}

pub open spec fn result_model(r: Result<EnvBlock, ResolveError>) -> Result<BlockModel, ResolveFault> {
    match r {
        Ok(b) => Ok(b.model()),
        Err(e) => Err(e.fault()),
    }
}

pub open spec fn names_of(v: Seq<String>) -> Seq<Seq<char>> {
    v.map_values(|s: String| s@)
}

/// `i` is the first profile named `name`.
pub open spec fn is_first_named(ps: Seq<ProfileModel>, name: Seq<char>, i: int) -> bool {
    0 <= i < ps.len() && ps[i].name == name && forall|j: int| 0 <= j < i ==> #[trigger] ps[j].name != name
}

/// The position of the first profile named `name`, or -1.
pub open spec fn profile_index(ps: Seq<ProfileModel>, name: Seq<char>) -> int {
    if exists|i: int| is_first_named(ps, name, i) {
        choose|i: int| is_first_named(ps, name, i)
    } else {
        -1
    }
}

/// Taking in a block through `add`: its additions are added, its removals
/// removed.
pub open spec fn join_added(acc: BlockModel, b: BlockModel) -> BlockModel {
    (model_union(acc.0, b.0), model_union(acc.1, b.1))
}

/// Taking in a block through `remove`: its additions and its removals are
/// all removed.
pub open spec fn join_removed(acc: BlockModel, b: BlockModel) -> BlockModel {
    (acc.0, model_union(model_union(acc.1, b.0), b.1))
}

/// Resolving profile `name` while the profiles at `stack` are being resolved.
pub open spec fn resolve_spec(ps: Seq<ProfileModel>, name: Seq<char>, stack: Seq<usize>) -> Result<
    BlockModel,
    ResolveFault,
>
    decreases ps.len() - stack.len(), 0int,
{
    let i = profile_index(ps, name);
    if i < 0 {
        Err(ResolveFault::UnknownProfile(name))
    } else if stack.contains(i as usize) || stack.len() >= ps.len() {
        Err(ResolveFault::CyclicReference(name))
    } else {
        let inner = stack.push(i as usize);
        let start = (ps[i].env, Map::empty());
        match resolve_list(ps, ps[i].add, inner, start, true) {
            Err(e) => Err(e),
            Ok(acc) => resolve_list(ps, ps[i].remove, inner, acc, false),
        }
    }
}

/// Resolving each of `names` in turn and joining it into `start`, through
/// `add` if `adding`, else through `remove`. The first failure is returned.
pub open spec fn resolve_list(
    ps: Seq<ProfileModel>,
    names: Seq<Seq<char>>,
    stack: Seq<usize>,
    start: BlockModel,
    adding: bool,
) -> Result<BlockModel, ResolveFault>
    decreases ps.len() - stack.len(), names.len(),
{
    if names.len() == 0 {
        Ok(start)
    } else {
        match resolve_list(ps, names.drop_last(), stack, start, adding) {
            Err(e) => Err(e),
            Ok(acc) => match resolve_spec(ps, names.last(), stack) {
                Err(e) => Err(e),
                Ok(b) => Ok(
                    if adding {
                        join_added(acc, b)
                    } else {
                        join_removed(acc, b)
                    },
                ),
            },
        }
    }
}

/// Resolving the requested profiles, each on its own, and uniting the
/// additions and the removals of all.
pub open spec fn resolve_all_spec(ps: Seq<ProfileModel>, names: Seq<Seq<char>>) -> Result<
    BlockModel,
    ResolveFault,
> {
    resolve_list(ps, names, Seq::empty(), empty_block(), true)
}

/// A failure on a prefix of the names is the failure of the whole list.
pub proof fn lemma_failure_extends(
    ps: Seq<ProfileModel>,
    names: Seq<Seq<char>>,
    m: int,
    stack: Seq<usize>,
    start: BlockModel,
    adding: bool,
)
    requires
        0 <= m <= names.len(),
        resolve_list(ps, names.take(m), stack, start, adding) is Err,
    ensures
        resolve_list(ps, names, stack, start, adding) == resolve_list(
            ps,
            names.take(m),
            stack,
            start,
            adding,
        ),
    decreases names.len(),
{
    if m == names.len() {
        assert(names.take(m) =~= names);
    } else {
        assert(names.drop_last().take(m) =~= names.take(m));
        lemma_failure_extends(ps, names.drop_last(), m, stack, start, adding);
    }
}

pub open spec fn profiles_wf(ps: Seq<Profile>) -> bool {
    forall|i: int| 0 <= i < ps.len() ==> #[trigger] ps[i].env.wf()
}

/// The position of the first profile named `name`, if any.
pub fn get_profile(ps: &Vec<Profile>, name: &String) -> (r: Option<usize>)
    ensures
        r is Some ==> profile_index(models_of(ps@), name@) == r->0 as int,
        r is None ==> profile_index(models_of(ps@), name@) == -1,
{
    let mut i: usize = 0;
    while i < ps.len()
        invariant
            i <= ps@.len(),
            forall|j: int| 0 <= j < i ==> #[trigger] models_of(ps@)[j].name != name@,
        decreases ps@.len() - i,
    {
        if ps[i].name == *name {
            proof {
                assert(is_first_named(models_of(ps@), name@, i as int));
                let k = choose|k: int| is_first_named(models_of(ps@), name@, k);
                if k < i {
                    assert(models_of(ps@)[k].name != name@);
                }
                if k > i {
                    assert(models_of(ps@)[i as int].name != name@);
                }
            }
            return Some(i);
        }
        i = i + 1;
    }
    proof {
        if exists|k: int| is_first_named(models_of(ps@), name@, k) {
            let k = choose|k: int| is_first_named(models_of(ps@), name@, k);
            assert(models_of(ps@)[k].name != name@);
        }
    }
    None
}

fn stack_contains(stack: &Vec<usize>, i: usize) -> (r: bool)
    ensures
        r == stack@.contains(i),
{
    let mut j: usize = 0;
    while j < stack.len()
        invariant
            j <= stack@.len(),
            forall|k: int| 0 <= k < j ==> stack@[k] != i,
        decreases stack@.len() - j,
    {
        if stack[j] == i {
            return true;
        }
        j = j + 1;
    }
    false
}

/// Resolves each of `names` into `acc`, through `add` if `adding`.
fn resolve_names(
    ps: &Vec<Profile>,
    names: &Vec<String>,
    stack: &mut Vec<usize>,
    start_block: EnvBlock,
    adding: bool,
) -> (r: Result<EnvBlock, ResolveError>)
    requires
        profiles_wf(ps@),
        start_block.wf(),
        old(stack)@.len() <= ps@.len(),
    ensures
        final(stack)@ == old(stack)@,
        result_model(r) == resolve_list(models_of(ps@), names_of(names@), old(stack)@, start_block.model(), adding),
        r is Ok ==> r->Ok_0.wf(),
    decreases ps@.len() - old(stack)@.len(), 1int,
{
    let ghost start = start_block.model();
    let ghost all = names_of(names@);
    let mut acc = start_block;
    let mut j: usize = 0;
    while j < names.len()
        invariant
            profiles_wf(ps@),
            j <= names@.len(),
            all == names_of(names@),
            start == start_block.model(),
            acc.wf(),
            stack@.len() <= ps@.len(),
            stack@ == old(stack)@,
            resolve_list(models_of(ps@), all.take(j as int), stack@, start, adding) == Ok::<
                BlockModel,
                ResolveFault,
            >(acc.model()),
        decreases names@.len() - j,
    {
        proof {
            assert(all.take(j + 1).drop_last() =~= all.take(j as int));
        }
        match get_env_block(ps, &names[j], stack) {
            Err(e) => {
                proof {
                    assert(all.take(j + 1).last() == names@[j as int]@);
                    assert(resolve_list(models_of(ps@), all.take(j + 1), stack@, start, adding) == Err::<
                        BlockModel,
                        ResolveFault,
                    >(e.fault()));
                    lemma_failure_extends(models_of(ps@), all, (j + 1) as int, stack@, start, adding);
                    assert(resolve_list(models_of(ps@), all, stack@, start, adding) == Err::<
                        BlockModel,
                        ResolveFault,
                    >(e.fault()));
                }
                return Err(e);
            },
            Ok(b) => {
                if adding {
                    acc.add_block.union_with(&b.add_block);
                    acc.remove_block.union_with(&b.remove_block);
                } else {
                    acc.remove_block.union_with(&b.add_block);
                    acc.remove_block.union_with(&b.remove_block);
                }
            },
        }
        j = j + 1;
    }
    proof {
        assert(all.take(names@.len() as int) =~= all);
    }
    Ok(acc)
}

/// Resolves profile `name` while the profiles at `stack` are being resolved.
fn get_env_block(ps: &Vec<Profile>, name: &String, stack: &mut Vec<usize>) -> (r: Result<
    EnvBlock,
    ResolveError,
>)
    requires
        profiles_wf(ps@),
        old(stack)@.len() <= ps@.len(),
    ensures
        final(stack)@ == old(stack)@,
        result_model(r) == resolve_spec(models_of(ps@), name@, old(stack)@),
        r is Ok ==> r->Ok_0.wf(),
    decreases ps@.len() - old(stack)@.len(), 0int,
{
    let i = match get_profile(ps, name) {
        None => {
            return Err(ResolveError::UnknownProfile(name.clone()));
        },
        Some(i) => i,
    };
    // A stack as long as the table repeats a profile already.
    if stack_contains(stack, i) || stack.len() >= ps.len() {
        return Err(ResolveError::CyclicReference(name.clone()));
    }
    let ghost outer = stack@;
    let p = &ps[i];
    let start = EnvBlock { add_block: p.env.copy(), remove_block: EnvMap::new() };
    stack.push(i);
    let r = match resolve_names(ps, &p.add, stack, start, true) {
        Err(e) => Err(e),
        Ok(acc) => resolve_names(ps, &p.remove, stack, acc, false),
    };
    stack.pop();
    proof {
        assert(stack@ =~= outer);
    }
    r
}

/// Resolves each requested profile on its own and unites the additions and
/// the removals of all of them.
pub fn resolve_profiles(ps: &Vec<Profile>, names: &Vec<String>) -> (r: Result<
    EnvBlock,
    ResolveError,
>)
    requires
        profiles_wf(ps@),
    ensures
        result_model(r) == resolve_all_spec(models_of(ps@), names_of(names@)),
        r is Ok ==> r->Ok_0.wf(),
{
    let mut stack: Vec<usize> = Vec::new();
    resolve_names(ps, names, &mut stack, EnvBlock::new(), true)
}

} // verus!
