use env_profiles::config::{Config, ConfigError, ConfigValue, ConfigWarning, EnvError, ListField};
use env_profiles::env_map::{path_set_of, system_env, EnvMap};
use env_profiles::path::{paths_equal, PathString};
use env_profiles::plan::merge;
use env_profiles::resolve::{resolve_profiles, EnvBlock, Profile, ResolveError};

fn s(x: &str) -> String {
    x.to_string()
}

fn p(x: &str) -> PathString {
    PathString(x.to_string())
}

fn strs(xs: &[&str]) -> ConfigValue {
    ConfigValue::Array(xs.iter().map(|x| ConfigValue::String(s(x))).collect())
}

fn profile(name: &str, add: &[&str], remove: &[&str], env: Vec<(String, ConfigValue)>) -> ConfigValue {
    ConfigValue::Table(vec![
        (s("name"), ConfigValue::String(s(name))),
        (s("add"), strs(add)),
        (s("remove"), strs(remove)),
        (s("env"), ConfigValue::Table(env)),
    ])
}

fn config(profiles: Vec<ConfigValue>) -> Config {
    Config { toml: vec![(s("profile"), ConfigValue::Array(profiles))] }
}

fn system(vars: &[(&str, &[&str])]) -> EnvMap {
    let v: Vec<(String, Vec<String>)> =
        vars.iter().map(|(k, ps)| (s(k), ps.iter().map(|x| s(x)).collect())).collect();
    system_env(&v)
}

fn paths(m: &EnvMap, name: &str) -> Option<Vec<String>> {
    m.paths_of(name).map(|v| v.into_iter().map(|x| x.0).collect())
}

fn names(xs: &[&str]) -> Vec<String> {
    xs.iter().map(|x| s(x)).collect()
}

#[test]
fn path_equality_ignores_case_separators_and_trailing() {
    assert!(paths_equal(&p("C:/Foo/"), &p("c:\\foo")));
    assert!(p("C:/Foo/") == p("c:\\foo"));
    assert!(p("a/b") == p("a/b"));
    assert!(p("A\\B\\\\") == p("a/b"));
}

#[test]
fn path_equality_rejects_different_paths() {
    assert!(p("C:/Foo") != p("C:/Fo"));
    assert!(p("C:/Foo") != p("C:/Foox"));
    assert!(p("a/b") != p("a-b"));
    assert!(p("É") != p("é"));
}

#[test]
fn path_key_folds_letters_and_separators() {
    assert_eq!(p("C:\\Foo//").key(), vec!['c', ':', '/', 'f', 'o', 'o']);
    assert_eq!(p("").key(), Vec::<char>::new());
}

#[test]
fn path_set_keeps_first_insertion() {
    let mut set = path_set_of(&Vec::new());
    assert!(set.insert(p("C:/Bin")));
    assert!(set.insert(p("/usr")));
    assert!(!set.insert(p("c:\\bin\\")));
    let items: Vec<String> = set.to_vec().into_iter().map(|x| x.0).collect();
    assert_eq!(items, names(&["C:/Bin", "/usr"]));
    assert!(set.contains(&p("C:/BIN")));
    let other = path_set_of(&names(&["x", "c:/bin", "X/"]));
    let items: Vec<String> = other.to_vec().into_iter().map(|x| x.0).collect();
    assert_eq!(items, names(&["x", "c:/bin"]));
}

#[test]
fn variable_names_compare_without_case() {
    let mut m = EnvMap::new();
    m.insert(&s("Path"), p("a"));
    m.insert(&s("PATH"), p("b"));
    assert_eq!(m.len(), 1);
    assert_eq!(m.var_at(0).name, "Path");
    assert_eq!(paths(&m, "path"), Some(names(&["a", "b"])));
}

#[test]
fn union_of_blocks_is_order_independent_as_sets() {
    let mut d = EnvMap::new();
    d.insert(&s("PATH"), p("a"));
    d.insert(&s("PATH"), p("b"));
    let mut e = EnvMap::new();
    e.insert(&s("PATH"), p("b"));
    e.insert(&s("PATH"), p("c"));
    e.insert(&s("LIB"), p("x"));
    let mut de = d.copy();
    de.union_with(&e);
    let mut ed = e.copy();
    ed.union_with(&d);
    let mut a = paths(&de, "PATH").unwrap();
    let mut b = paths(&ed, "PATH").unwrap();
    assert_eq!(a, names(&["a", "b", "c"]));
    assert_eq!(b, names(&["b", "c", "a"]));
    a.sort();
    b.sort();
    assert_eq!(a, b);
    assert_eq!(paths(&de, "LIB"), paths(&ed, "LIB"));
    let mut dd = d.copy();
    dd.union_with(&d);
    assert_eq!(paths(&dd, "PATH"), Some(names(&["a", "b"])));
}

#[test]
fn leaf_profile_resolves_to_its_own_env() {
    let c = config(vec![profile("base", &[], &[], vec![(s("PATH"), strs(&["a", "b"]))])]);
    let ps = Profile::new(&c.toml).ok().unwrap();
    let b = resolve_profiles(&ps, &names(&["base"])).ok().unwrap();
    assert_eq!(paths(&b.add_block, "PATH"), Some(names(&["a", "b"])));
    assert_eq!(b.remove_block.len(), 0);
}

#[test]
fn removal_is_inherited_through_add() {
    let c = config(vec![
        profile("A", &["B"], &[], vec![]),
        profile("B", &[], &["C"], vec![]),
        profile("C", &["D"], &[], vec![(s("PATH"), strs(&["c"]))]),
        profile("D", &[], &[], vec![(s("LIB"), strs(&["d"]))]),
    ]);
    let ps = Profile::new(&c.toml).ok().unwrap();
    let b = resolve_profiles(&ps, &names(&["A"])).ok().unwrap();
    assert_eq!(b.add_block.len(), 0);
    assert_eq!(paths(&b.remove_block, "PATH"), Some(names(&["c"])));
    assert_eq!(paths(&b.remove_block, "LIB"), Some(names(&["d"])));
}

#[test]
fn cyclic_profiles_fail() {
    let c = config(vec![profile("A", &["B"], &[], vec![]), profile("B", &["A"], &[], vec![])]);
    let ps = Profile::new(&c.toml).ok().unwrap();
    match resolve_profiles(&ps, &names(&["A"])) {
        Err(ResolveError::CyclicReference(n)) => assert_eq!(n, "A"),
        _ => panic!("expected a cyclic reference"),
    }
    let self_ref = config(vec![profile("A", &[], &["A"], vec![])]);
    let ps = Profile::new(&self_ref.toml).ok().unwrap();
    assert!(matches!(
        resolve_profiles(&ps, &names(&["A"])),
        Err(ResolveError::CyclicReference(_))
    ));
}

#[test]
fn unknown_profile_fails() {
    let c = config(vec![profile("A", &["missing"], &[], vec![])]);
    let ps = Profile::new(&c.toml).ok().unwrap();
    match resolve_profiles(&ps, &names(&["A"])) {
        Err(ResolveError::UnknownProfile(n)) => assert_eq!(n, "missing"),
        _ => panic!("expected an unknown profile"),
    }
    assert!(matches!(
        resolve_profiles(&ps, &names(&["nope"])),
        Err(ResolveError::UnknownProfile(_))
    ));
}

#[test]
fn merge_formula_example() {
    let mut add = EnvMap::new();
    add.insert(&s("PATH"), p("a"));
    add.insert(&s("PATH"), p("b"));
    let mut remove = EnvMap::new();
    remove.insert(&s("PATH"), p("b"));
    let block = EnvBlock { add_block: add, remove_block: remove };
    let sys = system(&[("PATH", &["b", "c"])]);
    let plan = merge(&block, &sys);
    assert_eq!(paths(&plan, "PATH"), Some(names(&["a", "c"])));
}

#[test]
fn merge_formula_through_profiles() {
    let c = config(vec![
        profile("main", &[], &["rm"], vec![(s("PATH"), strs(&["a", "b"]))]),
        profile("rm", &[], &[], vec![(s("PATH"), ConfigValue::String(s("b")))]),
    ]);
    let sys = system(&[("PATH", &["b", "c"])]);
    let plan = c.get_env(&names(&["main"]), &sys).ok().unwrap();
    assert_eq!(plan.len(), 1);
    assert_eq!(paths(&plan, "PATH"), Some(names(&["a", "c"])));
}

#[test]
fn system_only_variable_is_untouched() {
    let c = config(vec![profile("main", &[], &[], vec![(s("PATH"), strs(&["a"]))])]);
    let sys = system(&[("PATH", &["z"]), ("HOME", &["/home/u"])]);
    let plan = c.get_env(&names(&["main"]), &sys).ok().unwrap();
    assert_eq!(paths(&plan, "HOME"), None);
    assert_eq!(paths(&plan, "PATH"), Some(names(&["a", "z"])));
}

#[test]
fn removed_variable_missing_from_system_is_untouched() {
    let c = config(vec![
        profile("main", &[], &["rm"], vec![]),
        profile("rm", &[], &[], vec![(s("GONE"), strs(&["x"])), (s("PATH"), strs(&["b"]))]),
    ]);
    let sys = system(&[("PATH", &["a", "B/"])]);
    let plan = c.get_env(&names(&["main"]), &sys).ok().unwrap();
    assert_eq!(paths(&plan, "GONE"), None);
    assert_eq!(paths(&plan, "PATH"), Some(names(&["a"])));
}

#[test]
fn two_profiles_union_in_request_order() {
    let c = config(vec![
        profile("one", &[], &[], vec![(s("PATH"), strs(&["a", "b"]))]),
        profile("two", &[], &[], vec![(s("path"), strs(&["B", "c"]))]),
    ]);
    let sys = system(&[]);
    let plan = c.get_env(&names(&["one", "two"]), &sys).ok().unwrap();
    assert_eq!(paths(&plan, "PATH"), Some(names(&["a", "b", "c"])));
    let plan = c.get_env(&names(&["two", "one"]), &sys).ok().unwrap();
    assert_eq!(paths(&plan, "PATH"), Some(names(&["B", "c", "a"])));
}

#[test]
fn no_profiles_give_an_empty_plan() {
    let c = config(vec![profile("main", &[], &[], vec![(s("PATH"), strs(&["a"]))])]);
    let sys = system(&[("PATH", &["z"]), ("HOME", &["/h"])]);
    let plan = c.get_env(&Vec::new(), &sys).ok().unwrap();
    assert_eq!(plan.len(), 0);
}

#[test]
fn system_snapshot_dedups_paths() {
    let sys = system(&[("Path", &["a", "A/", "b"])]);
    assert_eq!(paths(&sys, "PATH"), Some(names(&["a", "b"])));
    let later = system(&[("Path", &["a"]), ("PATH", &["q"])]);
    assert_eq!(later.len(), 1);
    assert_eq!(later.var_at(0).name, "Path");
    assert_eq!(paths(&later, "path"), Some(names(&["q"])));
}

#[test]
fn unknown_keys_are_skipped() {
    let c = Config {
        toml: vec![
            (s("other"), ConfigValue::Integer(3)),
            (
                s("profile"),
                ConfigValue::Array(vec![ConfigValue::Table(vec![
                    (s("name"), ConfigValue::String(s("x"))),
                    (s("index"), ConfigValue::Integer(7)),
                    (s("colour"), ConfigValue::Other),
                ])]),
            ),
        ],
    };
    let ps = Profile::new(&c.toml).ok().unwrap();
    assert_eq!(ps.len(), 1);
    assert_eq!(ps[0].name, "x");
    assert_eq!(ps[0].index, 7);
}

fn parse_err(c: Config) -> ConfigError {
    match Profile::new(&c.toml) {
        Err(e) => e,
        Ok(_) => panic!("expected an error"),
    }
}

fn one(fields: Vec<(String, ConfigValue)>) -> Config {
    config(vec![ConfigValue::Table(fields)])
}

#[test]
fn config_errors() {
    let e = parse_err(Config { toml: vec![(s("profile"), ConfigValue::Integer(1))] });
    assert!(matches!(e, ConfigError::ProfileNotArray));
    let e = parse_err(config(vec![profile("a", &[], &[], vec![]), ConfigValue::Integer(1)]));
    assert!(matches!(e, ConfigError::ProfileNotTable(1)));
    let e = parse_err(one(vec![(s("name"), ConfigValue::Integer(1))]));
    assert!(matches!(e, ConfigError::NameNotString(0)));
    let e = parse_err(one(vec![(s("name"), ConfigValue::String(s("a"))), (s("index"), ConfigValue::Other)]));
    assert!(matches!(e, ConfigError::IndexNotInteger(0)));
    let e = parse_err(one(vec![(s("remove"), ConfigValue::String(s("a")))]));
    assert!(matches!(e, ConfigError::ListNotArray(0, ListField::Remove)));
    let e = parse_err(one(vec![(s("add"), ConfigValue::Array(vec![ConfigValue::String(s("a")), ConfigValue::Integer(2)]))]));
    assert!(matches!(e, ConfigError::ListItemNotString(0, ListField::Add, 1)));
    let e = parse_err(one(vec![(s("env"), strs(&["a"]))]));
    assert!(matches!(e, ConfigError::EnvNotTable(0)));
    let e = parse_err(one(vec![(s("env"), ConfigValue::Table(vec![(s("PATH"), ConfigValue::Integer(1))]))]));
    match e {
        ConfigError::EnvValueInvalid(0, v) => assert_eq!(v, "PATH"),
        _ => panic!("expected an invalid env value"),
    }
    let e = parse_err(one(vec![(s("env"), ConfigValue::Table(vec![(s("PATH"), ConfigValue::Array(vec![ConfigValue::Other]))]))]));
    match e {
        ConfigError::EnvItemNotString(0, v, 0) => assert_eq!(v, "PATH"),
        _ => panic!("expected a non-string env entry"),
    }
    let e = parse_err(one(vec![(s("index"), ConfigValue::Integer(1))]));
    assert!(matches!(e, ConfigError::NameMissing(0)));
    let e = parse_err(one(vec![(s("name"), ConfigValue::String(s("")))]));
    assert!(matches!(e, ConfigError::NameMissing(0)));
}

#[test]
fn config_error_reaches_get_env() {
    let c = Config { toml: vec![(s("profile"), ConfigValue::Other)] };
    let sys = system(&[]);
    assert!(matches!(c.get_env(&names(&["a"]), &sys), Err(EnvError::Config(ConfigError::ProfileNotArray))));
    let c = config(vec![profile("a", &["b"], &[], vec![])]);
    assert!(matches!(c.get_env(&names(&["a"]), &sys), Err(EnvError::Resolve(ResolveError::UnknownProfile(_)))));
}

#[test]
fn first_profile_of_a_name_wins() {
    let c = config(vec![
        profile("a", &[], &[], vec![(s("X"), strs(&["1"]))]),
        profile("a", &[], &[], vec![(s("X"), strs(&["2"]))]),
    ]);
    let ps = Profile::new(&c.toml).ok().unwrap();
    let b = resolve_profiles(&ps, &names(&["a"])).ok().unwrap();
    assert_eq!(paths(&b.add_block, "x"), Some(names(&["1"])));
}

#[test]
fn unused_keys_are_reported_in_order() {
    let c = Config {
        toml: vec![
            (s("other"), ConfigValue::Integer(3)),
            (
                s("profile"),
                ConfigValue::Array(vec![
                    ConfigValue::Integer(1),
                    ConfigValue::Table(vec![
                        (s("name"), ConfigValue::String(s("x"))),
                        (s("colour"), ConfigValue::Other),
                        (s("env"), ConfigValue::Table(vec![])),
                        (s("size"), ConfigValue::Integer(2)),
                    ]),
                ]),
            ),
            (s("extra"), ConfigValue::Other),
        ],
    };
    let ws: Vec<String> = c
        .unused_keys()
        .into_iter()
        .map(|w| match w {
            ConfigWarning::UnusedKey(k) => k,
            ConfigWarning::UnusedProfileKey(i, k) => format!("profile[{i}].{k}"),
        })
        .collect();
    assert_eq!(ws, names(&["other", "profile[1].colour", "profile[1].size", "extra"]));
}
