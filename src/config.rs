use vstd::prelude::*;
use vstd::string::StringExecFns;
use crate::env_map::{EnvMap, EnvModel, model_insert};
use crate::path::PathString;
use crate::plan::{merge, plan_spec};
use crate::resolve::{
    Profile, ProfileModel, ResolveError, models_of, names_of, profiles_wf, resolve_all_spec,
    resolve_profiles,
};

verus! {

/// A parsed configuration value, as far as profiles read it.
pub enum ConfigValue {
    String(String),
    Integer(i64),
    Array(Vec<ConfigValue>),
    Table(Vec<(String, ConfigValue)>),
    /// Any other kind of value (a float, a boolean, a date).
    Other,
}

/// Which list of profile references a field is.
#[derive(PartialEq, Eq, Structural, Clone, Copy, Debug)]
pub enum ListField {
    Add,
    Remove,
}

/// A structural fault in the configuration, with the profile's position.
pub enum ConfigError {
    /// The top-level `profile` key is not an array.
    ProfileNotArray,
    /// `profile[i]` is not a table.
    ProfileNotTable(usize),
    /// `profile[i].name` is not a string.
    NameNotString(usize),
    /// `profile[i].index` is not an integer.
    IndexNotInteger(usize),
    /// `profile[i].add` or `.remove` is not an array.
    ListNotArray(usize, ListField),
    /// Entry `j` of `profile[i].add` or `.remove` is not a string.
    ListItemNotString(usize, ListField, usize),
    /// `profile[i].env` is not a table.
    EnvNotTable(usize),
    /// `profile[i].env.<var>` is neither a string nor an array.
    EnvValueInvalid(usize, String),
    /// Entry `j` of `profile[i].env.<var>` is not a string.
    EnvItemNotString(usize, String, usize),
    /// `profile[i].name` is missing or empty.
    NameMissing(usize),
}

/// The model of a configuration fault.
pub enum ConfigFault {
    ProfileNotArray,
    ProfileNotTable(int),
    NameNotString(int),
    IndexNotInteger(int),
    ListNotArray(int, ListField),
    ListItemNotString(int, ListField, int),
    EnvNotTable(int),
    EnvValueInvalid(int, Seq<char>),
    EnvItemNotString(int, Seq<char>, int),
    NameMissing(int),
}

impl ConfigError {
    pub open spec fn fault(&self) -> ConfigFault {
        match self {
            ConfigError::ProfileNotArray => ConfigFault::ProfileNotArray,
            ConfigError::ProfileNotTable(i) => ConfigFault::ProfileNotTable(*i as int),
            ConfigError::NameNotString(i) => ConfigFault::NameNotString(*i as int),
            ConfigError::IndexNotInteger(i) => ConfigFault::IndexNotInteger(*i as int),
            ConfigError::ListNotArray(i, f) => ConfigFault::ListNotArray(*i as int, *f),
            ConfigError::ListItemNotString(i, f, j) => ConfigFault::ListItemNotString(
                *i as int,
                *f,
                *j as int,
            ),
            ConfigError::EnvNotTable(i) => ConfigFault::EnvNotTable(*i as int),
            ConfigError::EnvValueInvalid(i, v) => ConfigFault::EnvValueInvalid(*i as int, v@),
            ConfigError::EnvItemNotString(i, v, j) => ConfigFault::EnvItemNotString(
                *i as int,
                v@,
                *j as int,
            ),
            ConfigError::NameMissing(i) => ConfigFault::NameMissing(*i as int),
        }
    }
}

pub open spec fn empty_profile() -> ProfileModel {
    ProfileModel { name: Seq::empty(), index: 0, add: Seq::empty(), remove: Seq::empty(), env: Map::empty() }
}

/// The strings of `items`, or the position of the first item that is not one.
pub open spec fn string_items(items: Seq<ConfigValue>) -> Result<Seq<Seq<char>>, int>
    decreases items.len(),
{
    if items.len() == 0 {
        Ok(Seq::empty())
    } else {
        match string_items(items.drop_last()) {
            Err(j) => Err(j),
            Ok(v) => match items.last() {
                ConfigValue::String(s) => Ok(v.push(s@)),
                _ => Err(items.len() - 1),
            },
        }
    }
}

/// `env` with the strings of `items` added to variable `var`, or the
/// position of the first item that is not a string.
pub open spec fn env_items(env: EnvModel, var: Seq<char>, items: Seq<ConfigValue>) -> Result<
    EnvModel,
    int,
>
    decreases items.len(),
{
    if items.len() == 0 {
        Ok(env)
    } else {
        match env_items(env, var, items.drop_last()) {
            Err(j) => Err(j),
            Ok(e) => match items.last() {
                ConfigValue::String(s) => Ok(model_insert(e, var, s@)),
                _ => Err(items.len() - 1),
            },
        }
    }
}

/// `env` with the variables of table `entries` added (profile `i`).
pub open spec fn env_table(env: EnvModel, entries: Seq<(String, ConfigValue)>, i: int) -> Result<
    EnvModel,
    ConfigFault,
>
    decreases entries.len(),
{
    if entries.len() == 0 {
        Ok(env)
    } else {
        match env_table(env, entries.drop_last(), i) {
            Err(f) => Err(f),
            Ok(e) => {
                let var = entries.last().0@;
                match entries.last().1 {
                    ConfigValue::String(s) => Ok(model_insert(e, var, s@)),
                    ConfigValue::Array(a) => match env_items(e, var, a@) {
                        Ok(e2) => Ok(e2),
                        Err(j) => Err(ConfigFault::EnvItemNotString(i, var, j)),
                    },
                    _ => Err(ConfigFault::EnvValueInvalid(i, var)),
                }
            },
        }
    }
}

/// Profile `p` with field `k` of value `v` read in (profile `i`).
pub open spec fn apply_field(p: ProfileModel, k: Seq<char>, v: ConfigValue, i: int) -> Result<
    ProfileModel,
    ConfigFault,
> {
    if k == "name"@ {
        match v {
            ConfigValue::String(s) => Ok(ProfileModel { name: s@, ..p }),
            _ => Err(ConfigFault::NameNotString(i)),
        }
    } else if k == "index"@ {
        match v {
            ConfigValue::Integer(n) => Ok(ProfileModel { index: n, ..p }),
            _ => Err(ConfigFault::IndexNotInteger(i)),
        }
    } else if k == "add"@ || k == "remove"@ {
        let f = if k == "add"@ {
            ListField::Add
        } else {
            ListField::Remove
        };
        match v {
            ConfigValue::Array(a) => match string_items(a@) {
                Err(j) => Err(ConfigFault::ListItemNotString(i, f, j)),
                Ok(names) => if f == ListField::Add {
                    Ok(ProfileModel { add: p.add + names, ..p })
                } else {
                    Ok(ProfileModel { remove: p.remove + names, ..p })
                },
            },
            _ => Err(ConfigFault::ListNotArray(i, f)),
        }
    } else if k == "env"@ {
        match v {
            ConfigValue::Table(t) => match env_table(p.env, t@, i) {
                Err(f) => Err(f),
                Ok(e) => Ok(ProfileModel { env: e, ..p }),
            },
            _ => Err(ConfigFault::EnvNotTable(i)),
        }
    } else {
        Ok(p)
    }
}

/// The profile that fields `entries` describe, before the name is checked.
pub open spec fn apply_fields(entries: Seq<(String, ConfigValue)>, i: int) -> Result<
    ProfileModel,
    ConfigFault,
>
    decreases entries.len(),
{
    if entries.len() == 0 {
        Ok(empty_profile())
    } else {
        match apply_fields(entries.drop_last(), i) {
            Err(f) => Err(f),
            Ok(p) => apply_field(p, entries.last().0@, entries.last().1, i),
        }
    }
}

/// The profile that entry `v` of the `profile` array, at position `i`,
/// describes.
pub open spec fn parse_profile_spec(v: ConfigValue, i: int) -> Result<ProfileModel, ConfigFault> {
    match v {
        ConfigValue::Table(t) => match apply_fields(t@, i) {
            Err(f) => Err(f),
            Ok(p) => if p.name.len() == 0 {
                Err(ConfigFault::NameMissing(i))
            } else {
                Ok(p)
            },
        },
        _ => Err(ConfigFault::ProfileNotTable(i)),
    }
}

/// The profiles of the `profile` array `items`, in order.
pub open spec fn parse_profiles_spec(items: Seq<ConfigValue>) -> Result<Seq<ProfileModel>, ConfigFault>
    decreases items.len(),
{
    if items.len() == 0 {
        Ok(Seq::empty())
    } else {
        match parse_profiles_spec(items.drop_last()) {
            Err(f) => Err(f),
            Ok(ps) => match parse_profile_spec(items.last(), items.len() - 1) {
                Err(f) => Err(f),
                Ok(p) => Ok(ps.push(p)),
            },
        }
    }
}

/// The profiles that a configuration table describes: those under each
/// `profile` key, in order. Other keys are skipped.
pub open spec fn parse_config_spec(entries: Seq<(String, ConfigValue)>) -> Result<
    Seq<ProfileModel>,
    ConfigFault,
>
    decreases entries.len(),
{
    if entries.len() == 0 {
        Ok(Seq::empty())
    } else {
        match parse_config_spec(entries.drop_last()) {
            Err(f) => Err(f),
            Ok(ps) => if entries.last().0@ == "profile"@ {
                match entries.last().1 {
                    ConfigValue::Array(a) => match parse_profiles_spec(a@) {
                        Err(f) => Err(f),
                        Ok(more) => Ok(ps + more),
                    },
                    _ => Err(ConfigFault::ProfileNotArray),
                }
            } else {
                Ok(ps)
            },
        }
    }
}

fn text(s: &str) -> (r: String)
    ensures
        r@ == s@,
{
    <String as StringExecFns>::from_str(s)
}

/// The strings of `items`, or the position of the first item that is not one.
fn read_strings(items: &Vec<ConfigValue>) -> (r: Result<Vec<String>, usize>)
    ensures
        match r {
            Ok(v) => string_items(items@) == Ok::<Seq<Seq<char>>, int>(
                v@.map_values(|s: String| s@),
            ),
            Err(j) => string_items(items@) == Err::<Seq<Seq<char>>, int>(j as int),
        },
{
    let mut out: Vec<String> = Vec::new();
    let mut j: usize = 0;
    proof {
        assert(items@.take(0) =~= Seq::<ConfigValue>::empty());
        assert(out@.map_values(|s: String| s@) =~= Seq::<Seq<char>>::empty());
    }
    while j < items.len()
        invariant
            j <= items@.len(),
            string_items(items@.take(j as int)) == Ok::<Seq<Seq<char>>, int>(
                out@.map_values(|s: String| s@),
            ),
        decreases items@.len() - j,
    {
        proof {
            assert(items@.take(j + 1).drop_last() =~= items@.take(j as int));
        }
        match &items[j] {
            ConfigValue::String(s) => {
                let ghost prev = out@;
                let c = s.clone();
                out.push(c);
                proof {
                    assert(out@ =~= prev.push(c));
                    assert(out@.map_values(|s: String| s@) =~= prev.map_values(|s: String| s@).push(
                        s@,
                    ));
                }
            },
            _ => {
                proof {
                    assert(string_items(items@.take(j + 1)) == Err::<Seq<Seq<char>>, int>(j as int));
                    lemma_string_failure_extends(items@, j + 1);
                }
                return Err(j);
            },
        }
        j = j + 1;
    }
    proof {
        assert(items@.take(items@.len() as int) =~= items@);
    }
    Ok(out)
}

proof fn lemma_string_failure_extends(items: Seq<ConfigValue>, m: int)
    requires
        0 <= m <= items.len(),
        string_items(items.take(m)) is Err,
    ensures
        string_items(items) == string_items(items.take(m)),
    decreases items.len(),
{
    if m == items.len() {
        assert(items.take(m) =~= items);
    } else {
        assert(items.drop_last().take(m) =~= items.take(m));
        lemma_string_failure_extends(items.drop_last(), m);
    }
}

proof fn lemma_env_items_failure_extends(e: EnvModel, var: Seq<char>, items: Seq<ConfigValue>, m: int)
    requires
        0 <= m <= items.len(),
        env_items(e, var, items.take(m)) is Err,
    ensures
        env_items(e, var, items) == env_items(e, var, items.take(m)),
    decreases items.len(),
{
    if m == items.len() {
        assert(items.take(m) =~= items);
    } else {
        assert(items.drop_last().take(m) =~= items.take(m));
        lemma_env_items_failure_extends(e, var, items.drop_last(), m);
    }
}

proof fn lemma_env_table_failure_extends(
    e: EnvModel,
    entries: Seq<(String, ConfigValue)>,
    i: int,
    m: int,
)
    requires
        0 <= m <= entries.len(),
        env_table(e, entries.take(m), i) is Err,
    ensures
        env_table(e, entries, i) == env_table(e, entries.take(m), i),
    decreases entries.len(),
{
    if m == entries.len() {
        assert(entries.take(m) =~= entries);
    } else {
        assert(entries.drop_last().take(m) =~= entries.take(m));
        lemma_env_table_failure_extends(e, entries.drop_last(), i, m);
    }
}

proof fn lemma_fields_failure_extends(entries: Seq<(String, ConfigValue)>, i: int, m: int)
    requires
        0 <= m <= entries.len(),
        apply_fields(entries.take(m), i) is Err,
    ensures
        apply_fields(entries, i) == apply_fields(entries.take(m), i),
    decreases entries.len(),
{
    if m == entries.len() {
        assert(entries.take(m) =~= entries);
    } else {
        assert(entries.drop_last().take(m) =~= entries.take(m));
        lemma_fields_failure_extends(entries.drop_last(), i, m);
    }
}

proof fn lemma_profiles_failure_extends(items: Seq<ConfigValue>, m: int)
    requires
        0 <= m <= items.len(),
        parse_profiles_spec(items.take(m)) is Err,
    ensures
        parse_profiles_spec(items) == parse_profiles_spec(items.take(m)),
    decreases items.len(),
{
    if m == items.len() {
        assert(items.take(m) =~= items);
    } else {
        assert(items.drop_last().take(m) =~= items.take(m));
        lemma_profiles_failure_extends(items.drop_last(), m);
    }
}

proof fn lemma_config_failure_extends(entries: Seq<(String, ConfigValue)>, m: int)
    requires
        0 <= m <= entries.len(),
        parse_config_spec(entries.take(m)) is Err,
    ensures
        parse_config_spec(entries) == parse_config_spec(entries.take(m)),
    decreases entries.len(),
{
    if m == entries.len() {
        assert(entries.take(m) =~= entries);
    } else {
        assert(entries.drop_last().take(m) =~= entries.take(m));
        lemma_config_failure_extends(entries.drop_last(), m);
    }
}

/// Adds the strings of `items` to variable `var`.
fn read_env_items(env: &mut EnvMap, var: &String, items: &Vec<ConfigValue>) -> (r: Result<
    (),
    usize,
>)
    requires
        old(env).wf(),
    ensures
        final(env).wf(),
        match r {
            Ok(_) => env_items(old(env)@, var@, items@) == Ok::<EnvModel, int>(final(env)@),
            Err(j) => env_items(old(env)@, var@, items@) == Err::<EnvModel, int>(j as int),
        },
{
    let ghost e0 = env@;
    let mut j: usize = 0;
    while j < items.len()
        invariant
            j <= items@.len(),
            env.wf(),
            e0 == old(env)@,
            env_items(e0, var@, items@.take(j as int)) == Ok::<EnvModel, int>(env@),
        decreases items@.len() - j,
    {
        proof {
            assert(items@.take(j + 1).drop_last() =~= items@.take(j as int));
        }
        match &items[j] {
            ConfigValue::String(s) => {
                env.insert(var, PathString(s.clone()));
            },
            _ => {
                proof {
                    assert(env_items(e0, var@, items@.take(j + 1)) == Err::<EnvModel, int>(j as int));
                    lemma_env_items_failure_extends(e0, var@, items@, j + 1);
                }
                return Err(j);
            },
        }
        j = j + 1;
    }
    proof {
        assert(items@.take(items@.len() as int) =~= items@);
    }
    Ok(())
}

/// Adds the variables of table `entries` (profile `i`).
fn read_env_table(env: &mut EnvMap, entries: &Vec<(String, ConfigValue)>, i: usize) -> (r: Result<
    (),
    ConfigError,
>)
    requires
        old(env).wf(),
    ensures
        final(env).wf(),
        match r {
            Ok(_) => env_table(old(env)@, entries@, i as int) == Ok::<EnvModel, ConfigFault>(
                final(env)@,
            ),
            Err(e) => env_table(old(env)@, entries@, i as int) == Err::<EnvModel, ConfigFault>(
                e.fault(),
            ),
        },
{
    let ghost e0 = env@;
    let mut j: usize = 0;
    while j < entries.len()
        invariant
            j <= entries@.len(),
            env.wf(),
            e0 == old(env)@,
            env_table(e0, entries@.take(j as int), i as int) == Ok::<EnvModel, ConfigFault>(
                env@,
            ),
        decreases entries@.len() - j,
    {
        proof {
            assert(entries@.take(j + 1).drop_last() =~= entries@.take(j as int));
        }
        let var = &entries[j].0;
        match &entries[j].1 {
            ConfigValue::String(s) => {
                env.insert(var, PathString(s.clone()));
            },
            ConfigValue::Array(a) => {
                match read_env_items(env, var, a) {
                    Ok(_) => {},
                    Err(k) => {
                        let err = ConfigError::EnvItemNotString(i, var.clone(), k);
                        proof {
                            assert(env_table(e0, entries@.take(j + 1), i as int) == Err::<
                                EnvModel,
                                ConfigFault,
                            >(err.fault()));
                            lemma_env_table_failure_extends(e0, entries@, i as int, j + 1);
                        }
                        return Err(err);
                    },
                }
            },
            _ => {
                let err = ConfigError::EnvValueInvalid(i, var.clone());
                proof {
                    assert(env_table(e0, entries@.take(j + 1), i as int) == Err::<
                        EnvModel,
                        ConfigFault,
                    >(err.fault()));
                    lemma_env_table_failure_extends(e0, entries@, i as int, j + 1);
                }
                return Err(err);
            },
        }
        j = j + 1;
    }
    proof {
        assert(entries@.take(entries@.len() as int) =~= entries@);
    }
    Ok(())
}

/// Appends the strings of `src` to `dst`.
fn push_all(dst: &mut Vec<String>, src: &Vec<String>)
    ensures
        final(dst)@.map_values(|s: String| s@) == old(dst)@.map_values(|s: String| s@)
            + src@.map_values(|s: String| s@),
{
    let ghost d0 = dst@.map_values(|s: String| s@);
    let mut j: usize = 0;
    while j < src.len()
        invariant
            j <= src@.len(),
            d0 == old(dst)@.map_values(|s: String| s@),
            dst@.map_values(|s: String| s@) == d0 + src@.take(j as int).map_values(
                |s: String| s@,
            ),
        decreases src@.len() - j,
    {
        let ghost prev = dst@;
        let c = src[j].clone();
        dst.push(c);
        proof {
            assert(dst@ =~= prev.push(c));
            assert(src@.take(j + 1).map_values(|s: String| s@) =~= src@.take(j as int).map_values(
                |s: String| s@,
            ).push(src@[j as int]@));
            assert(dst@.map_values(|s: String| s@) =~= prev.map_values(|s: String| s@).push(c@));
        }
        j = j + 1;
    }
    proof {
        assert(src@.take(src@.len() as int) =~= src@);
    }
}

impl Profile {
    /// Reads the profile that entry `v` of the `profile` array, at position
    /// `i`, describes. Unknown fields are skipped.
    pub fn parse(v: &ConfigValue, i: usize) -> (r: Result<Profile, ConfigError>)
        ensures
            match r {
                Ok(p) => parse_profile_spec(*v, i as int) == Ok::<ProfileModel, ConfigFault>(
                    p.model(),
                ) && p.env.wf(),
                Err(e) => parse_profile_spec(*v, i as int) == Err::<ProfileModel, ConfigFault>(
                    e.fault(),
                ),
            },
    {
        let t = match v {
            ConfigValue::Table(t) => t,
            _ => {
                return Err(ConfigError::ProfileNotTable(i));
            },
        };
        let name_key = text("name");
        let index_key = text("index");
        let add_key = text("add");
        let remove_key = text("remove");
        let env_key = text("env");
        let mut p = Profile {
            name: String::new(),
            index: 0,
            add: Vec::new(),
            remove: Vec::new(),
            env: EnvMap::new(),
        };
        proof {
            assert(p.model().add =~= Seq::<Seq<char>>::empty());
            assert(p.model().remove =~= Seq::<Seq<char>>::empty());
            assert(p.model() == empty_profile());
        }
        let mut j: usize = 0;
        while j < t.len()
            invariant
                j <= t@.len(),
                *v == ConfigValue::Table(*t),
                name_key@ == "name"@,
                index_key@ == "index"@,
                add_key@ == "add"@,
                remove_key@ == "remove"@,
                env_key@ == "env"@,
                p.env.wf(),
                apply_fields(t@.take(j as int), i as int) == Ok::<ProfileModel, ConfigFault>(
                    p.model(),
                ),
            decreases t@.len() - j,
        {
            proof {
                assert(t@.take(j + 1).drop_last() =~= t@.take(j as int));
            }
            let ghost before = p.model();
            let k = &t[j].0;
            let fv = &t[j].1;
            let mut err: Option<ConfigError> = None;
            if *k == name_key {
                match fv {
                    ConfigValue::String(s) => {
                        p.name = s.clone();
                    },
                    _ => {
                        err = Some(ConfigError::NameNotString(i));
                    },
                }
            } else if *k == index_key {
                match fv {
                    ConfigValue::Integer(n) => {
                        p.index = *n;
                    },
                    _ => {
                        err = Some(ConfigError::IndexNotInteger(i));
                    },
                }
            } else if *k == add_key || *k == remove_key {
                let f = if *k == add_key {
                    ListField::Add
                } else {
                    ListField::Remove
                };
                match fv {
                    ConfigValue::Array(a) => match read_strings(a) {
                        Ok(names) => {
                            if *k == add_key {
                                push_all(&mut p.add, &names);
                            } else {
                                push_all(&mut p.remove, &names);
                            }
                        },
                        Err(jj) => {
                            err = Some(ConfigError::ListItemNotString(i, f, jj));
                        },
                    },
                    _ => {
                        err = Some(ConfigError::ListNotArray(i, f));
                    },
                }
            } else if *k == env_key {
                match fv {
                    ConfigValue::Table(et) => match read_env_table(&mut p.env, et, i) {
                        Ok(_) => {},
                        Err(e) => {
                            err = Some(e);
                        },
                    },
                    _ => {
                        err = Some(ConfigError::EnvNotTable(i));
                    },
                }
            }
            match err {
                Some(e) => {
                    proof {
                        assert(apply_fields(t@.take(j + 1), i as int) == Err::<
                            ProfileModel,
                            ConfigFault,
                        >(e.fault()));
                        lemma_fields_failure_extends(t@, i as int, j + 1);
                    }
                    return Err(e);
                },
                None => {},
            }
            proof {
                assert(p.model().add =~= apply_field(before, k@, *fv, i as int)->Ok_0.add);
                assert(p.model().remove =~= apply_field(before, k@, *fv, i as int)->Ok_0.remove);
                assert(p.model() == apply_field(before, k@, *fv, i as int)->Ok_0);
            }
            j = j + 1;
        }
        proof {
            assert(t@.take(t@.len() as int) =~= t@);
        }
        if p.name.as_str().is_empty() {
            return Err(ConfigError::NameMissing(i));
        }
        Ok(p)
    }
}


/// Reads the profiles of the `profile` array `items` onto `out`.
fn read_profiles(items: &Vec<ConfigValue>, out: &mut Vec<Profile>) -> (r: Result<(), ConfigError>)
    requires
        profiles_wf(old(out)@),
    ensures
        profiles_wf(final(out)@),
        match r {
            Ok(_) => parse_profiles_spec(items@) matches Ok(more) && models_of(final(out)@)
                == models_of(old(out)@) + more,
            Err(e) => parse_profiles_spec(items@) == Err::<Seq<ProfileModel>, ConfigFault>(
                e.fault(),
            ),
        },
{
    let ghost o0 = models_of(out@);
    let mut j: usize = 0;
    proof {
        assert(items@.take(0) =~= Seq::<ConfigValue>::empty());
        assert(models_of(out@) =~= o0 + Seq::<ProfileModel>::empty());
    }
    while j < items.len()
        invariant
            j <= items@.len(),
            o0 == models_of(old(out)@),
            profiles_wf(out@),
            parse_profiles_spec(items@.take(j as int)) matches Ok(done) && models_of(out@) == o0
                + done,
        decreases items@.len() - j,
    {
        proof {
            assert(items@.take(j + 1).drop_last() =~= items@.take(j as int));
        }
        match Profile::parse(&items[j], j) {
            Ok(p) => {
                let ghost prev = out@;
                let ghost pm = p.model();
                out.push(p);
                proof {
                    let done = parse_profiles_spec(items@.take(j as int))->Ok_0;
                    assert(out@ =~= prev.push(out@.last()));
                    assert(models_of(out@) =~= models_of(prev).push(pm));
                    assert(models_of(out@) =~= o0 + done.push(pm));
                }
            },
            Err(e) => {
                proof {
                    assert(parse_profiles_spec(items@.take(j + 1)) == Err::<
                        Seq<ProfileModel>,
                        ConfigFault,
                    >(e.fault()));
                    lemma_profiles_failure_extends(items@, j + 1);
                }
                return Err(e);
            },
        }
        j = j + 1;
    }
    proof {
        assert(items@.take(items@.len() as int) =~= items@);
    }
    Ok(())
}

impl Profile {
    /// Reads the profiles of a configuration table: those of each `profile`
    /// array, in order. Other keys are skipped.
    pub fn new(config: &Vec<(String, ConfigValue)>) -> (r: Result<Vec<Profile>, ConfigError>)
        ensures
            match r {
                Ok(ps) => parse_config_spec(config@) == Ok::<Seq<ProfileModel>, ConfigFault>(
                    models_of(ps@),
                ) && profiles_wf(ps@),
                Err(e) => parse_config_spec(config@) == Err::<Seq<ProfileModel>, ConfigFault>(
                    e.fault(),
                ),
            },
    {
        let profile_key = text("profile");
        let mut out: Vec<Profile> = Vec::new();
        let mut j: usize = 0;
        proof {
            assert(models_of(out@) =~= Seq::<ProfileModel>::empty());
        }
        while j < config.len()
            invariant
                j <= config@.len(),
                profile_key@ == "profile"@,
                profiles_wf(out@),
                parse_config_spec(config@.take(j as int)) == Ok::<Seq<ProfileModel>, ConfigFault>(
                    models_of(out@),
                ),
            decreases config@.len() - j,
        {
            proof {
                assert(config@.take(j + 1).drop_last() =~= config@.take(j as int));
            }
            if config[j].0 == profile_key {
                let res = match &config[j].1 {
                    ConfigValue::Array(a) => read_profiles(a, &mut out),
                    _ => Err(ConfigError::ProfileNotArray),
                };
                match res {
                    Ok(_) => {},
                    Err(e) => {
                        proof {
                            assert(parse_config_spec(config@.take(j + 1)) == Err::<
                                Seq<ProfileModel>,
                                ConfigFault,
                            >(e.fault()));
                            lemma_config_failure_extends(config@, j + 1);
                        }
                        return Err(e);
                    },
                }
            }
            j = j + 1;
        }
        proof {
            assert(config@.take(config@.len() as int) =~= config@);
        }
        Ok(out)
    }
}

/// A parsed configuration: its top-level table.
pub struct Config {
    pub toml: Vec<(String, ConfigValue)>,
}

/// Why no update plan could be made.
pub enum EnvError {
    Config(ConfigError),
    Resolve(ResolveError),
}

impl Config {
    /// The update plan for the requested profiles against the system's
    /// variables: the profiles are read, each requested one is resolved, and
    /// the united result is merged with `system`.
    pub fn get_env(&self, profiles: &Vec<String>, system: &EnvMap) -> (r: Result<EnvMap, EnvError>)
        requires
            system.wf(),
        ensures
            match parse_config_spec(self.toml@) {
                Err(f) => r matches Err(EnvError::Config(e)) && e.fault() == f,
                Ok(pms) => match resolve_all_spec(pms, names_of(profiles@)) {
                    Err(f) => r matches Err(EnvError::Resolve(e)) && e.fault() == f,
                    Ok(b) => r matches Ok(plan) && plan.wf() && plan@ == plan_spec(
                        b.0,
                        b.1,
                        system@,
                    ),
                },
            },
    {
        let ps = match Profile::new(&self.toml) {
            Ok(ps) => ps,
            Err(e) => {
                return Err(EnvError::Config(e));
            },
        };
        let block = match resolve_profiles(&ps, profiles) {
            Ok(b) => b,
            Err(e) => {
                return Err(EnvError::Resolve(e));
            },
        };
        Ok(merge(&block, system))
    }
}

/// A key that profiles do not read; it is skipped.
pub enum ConfigWarning {
    /// A top-level key other than `profile`.
    UnusedKey(String),
    /// A field of `profile[i]` other than the five a profile has.
    UnusedProfileKey(usize, String),
}

pub type WarningModel = (Option<int>, Seq<char>);

impl ConfigWarning {
    pub open spec fn model(&self) -> WarningModel {
        match self {
            ConfigWarning::UnusedKey(k) => (None, k@),
            ConfigWarning::UnusedProfileKey(i, k) => (Some(*i as int), k@),
        }
    }
}

pub open spec fn warning_models(ws: Seq<ConfigWarning>) -> Seq<WarningModel> {
    ws.map_values(|w: ConfigWarning| w.model())
}

/// Whether `k` is a field that a profile reads.
pub open spec fn is_profile_field(k: Seq<char>) -> bool {
    k == "name"@ || k == "index"@ || k == "add"@ || k == "remove"@ || k == "env"@
}

/// The unread fields of `profile[i]`, in order.
pub open spec fn field_warnings(t: Seq<(String, ConfigValue)>, i: int) -> Seq<WarningModel>
    decreases t.len(),
{
    if t.len() == 0 {
        Seq::empty()
    } else if is_profile_field(t.last().0@) {
        field_warnings(t.drop_last(), i)
    } else {
        field_warnings(t.drop_last(), i).push((Some(i), t.last().0@))
    }
}

/// The unread fields of the tables of a `profile` array, in order.
pub open spec fn profile_warnings(items: Seq<ConfigValue>) -> Seq<WarningModel>
    decreases items.len(),
{
    if items.len() == 0 {
        Seq::empty()
    } else {
        profile_warnings(items.drop_last()) + match items.last() {
            ConfigValue::Table(t) => field_warnings(t@, items.len() - 1),
            _ => Seq::empty(),
        }
    }
}

/// The keys of a configuration table that profiles do not read, in order.
pub open spec fn config_warnings(entries: Seq<(String, ConfigValue)>) -> Seq<WarningModel>
    decreases entries.len(),
{
    if entries.len() == 0 {
        Seq::empty()
    } else {
        config_warnings(entries.drop_last()) + if entries.last().0@ == "profile"@ {
            match entries.last().1 {
                ConfigValue::Array(a) => profile_warnings(a@),
                _ => Seq::empty(),
            }
        } else {
            seq![(None, entries.last().0@)]
        }
    }
}

fn push_warning(out: &mut Vec<ConfigWarning>, w: ConfigWarning)
    ensures
        warning_models(final(out)@) == warning_models(old(out)@).push(w.model()),
{
    let ghost prev = out@;
    let ghost wm = w.model();
    out.push(w);
    proof {
        assert(out@ =~= prev.push(out@.last()));
        assert(warning_models(out@) =~= warning_models(prev).push(wm));
    }
}

fn field_keys_unused(t: &Vec<(String, ConfigValue)>, i: usize, out: &mut Vec<ConfigWarning>)
    ensures
        warning_models(final(out)@) == warning_models(old(out)@) + field_warnings(t@, i as int),
{
    let fields = [text("name"), text("index"), text("add"), text("remove"), text("env")];
    let ghost w0 = warning_models(out@);
    let mut j: usize = 0;
    proof {
        assert(warning_models(out@) =~= w0 + field_warnings(t@.take(0), i as int));
    }
    while j < t.len()
        invariant
            j <= t@.len(),
            w0 == warning_models(old(out)@),
            fields[0]@ == "name"@,
            fields[1]@ == "index"@,
            fields[2]@ == "add"@,
            fields[3]@ == "remove"@,
            fields[4]@ == "env"@,
            warning_models(out@) == w0 + field_warnings(t@.take(j as int), i as int),
        decreases t@.len() - j,
    {
        proof {
            assert(t@.take(j + 1).drop_last() =~= t@.take(j as int));
        }
        let k = &t[j].0;
        let known = *k == fields[0] || *k == fields[1] || *k == fields[2] || *k == fields[3]
            || *k == fields[4];
        if !known {
            push_warning(out, ConfigWarning::UnusedProfileKey(i, k.clone()));
            proof {
                assert(warning_models(out@) =~= w0 + field_warnings(t@.take(j + 1), i as int));
            }
        }
        j = j + 1;
    }
    proof {
        assert(t@.take(t@.len() as int) =~= t@);
    }
}

fn profile_keys_unused(items: &Vec<ConfigValue>, out: &mut Vec<ConfigWarning>)
    ensures
        warning_models(final(out)@) == warning_models(old(out)@) + profile_warnings(items@),
{
    let ghost w0 = warning_models(out@);
    let mut j: usize = 0;
    proof {
        assert(warning_models(out@) =~= w0 + profile_warnings(items@.take(0)));
    }
    while j < items.len()
        invariant
            j <= items@.len(),
            w0 == warning_models(old(out)@),
            warning_models(out@) == w0 + profile_warnings(items@.take(j as int)),
        decreases items@.len() - j,
    {
        proof {
            assert(items@.take(j + 1).drop_last() =~= items@.take(j as int));
        }
        match &items[j] {
            ConfigValue::Table(t) => {
                field_keys_unused(t, j, out);
            },
            _ => {},
        }
        proof {
            assert(warning_models(out@) =~= w0 + profile_warnings(items@.take(j + 1)));
        }
        j = j + 1;
    }
    proof {
        assert(items@.take(items@.len() as int) =~= items@);
    }
}

impl Config {
    /// The keys of the configuration that profiles do not read, in order:
    /// top-level keys other than `profile`, and unknown fields of profiles.
    pub fn unused_keys(&self) -> (r: Vec<ConfigWarning>)
        ensures
            warning_models(r@) == config_warnings(self.toml@),
    {
        let entries = &self.toml;
        let profile_key = text("profile");
        let mut out: Vec<ConfigWarning> = Vec::new();
        let mut j: usize = 0;
        proof {
            assert(warning_models(out@) =~= config_warnings(entries@.take(0)));
        }
        while j < entries.len()
            invariant
                j <= entries@.len(),
                profile_key@ == "profile"@,
                warning_models(out@) == config_warnings(entries@.take(j as int)),
            decreases entries@.len() - j,
        {
            proof {
                assert(entries@.take(j + 1).drop_last() =~= entries@.take(j as int));
            }
            if entries[j].0 == profile_key {
                match &entries[j].1 {
                    ConfigValue::Array(a) => {
                        profile_keys_unused(a, &mut out);
                    },
                    _ => {},
                }
            } else {
                push_warning(&mut out, ConfigWarning::UnusedKey(entries[j].0.clone()));
            }
            proof {
                assert(warning_models(out@) =~= config_warnings(entries@.take(j + 1)));
            }
            j = j + 1;
        }
        proof {
            assert(entries@.take(entries@.len() as int) =~= entries@);
        }
        out
    }
}

} // verus!
