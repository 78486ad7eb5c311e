use bonnibel::errors::Error;
use bonnibel::module::{Module, ModuleKind, SourceItem};
use bonnibel::project::Project;
use bonnibel::strmap::StrMap;

fn lib_module(depends: Vec<&str>) -> Module {
    Module {
        depends: depends.into_iter().map(|s| s.to_string()).collect(),
        defines: Vec::new(),
        includes: Vec::new(),
        source: Vec::new(),
        output: String::new(),
        kind: ModuleKind::Library,
    }
}

fn exe_module(target: &str, depends: Vec<&str>) -> Module {
    Module {
        depends: depends.into_iter().map(|s| s.to_string()).collect(),
        defines: Vec::new(),
        includes: Vec::new(),
        source: Vec::new(),
        output: String::new(),
        kind: ModuleKind::Executable { target: target.to_string() },
    }
}

fn project_with(modules: Vec<(&str, Module)>) -> Project {
    let mut map = StrMap::new();
    for (name, m) in modules {
        map.insert(name.to_string(), m);
    }
    Project {
        name: "test".to_string(),
        templates: "templates".to_string(),
        root: ".".to_string(),
        config_file: "modules.yaml".to_string(),
        vars: StrMap::new(),
        modules: map,
        targets: StrMap::new(),
    }
}

fn as_sorted(mut v: Vec<String>) -> Vec<String> {
    v.sort();
    v
}

#[test]
fn test_a_thing() {}

#[test]
fn depmods_reaches_all_transitively() {
    let proj = project_with(vec![
        ("a", lib_module(vec!["b"])),
        ("b", lib_module(vec!["c"])),
        ("c", lib_module(vec![])),
        ("unrelated", lib_module(vec![])),
    ]);
    let a = proj.module(&"a".to_string()).unwrap();
    let out = a.depmods(&proj).unwrap();
    assert_eq!(as_sorted(out), vec!["b".to_string(), "c".to_string()]);
}

#[test]
fn depmods_ignores_traversal_order_and_duplicates() {
    let proj1 = project_with(vec![
        ("a", lib_module(vec!["b", "c", "b"])),
        ("b", lib_module(vec!["d"])),
        ("c", lib_module(vec!["d"])),
        ("d", lib_module(vec![])),
    ]);
    let proj2 = project_with(vec![
        ("a", lib_module(vec!["c", "b"])),
        ("b", lib_module(vec!["d"])),
        ("c", lib_module(vec!["d"])),
        ("d", lib_module(vec![])),
    ]);
    let out1 = as_sorted(proj1.module(&"a".to_string()).unwrap().depmods(&proj1).unwrap());
    let out2 = as_sorted(proj2.module(&"a".to_string()).unwrap().depmods(&proj2).unwrap());
    assert_eq!(out1, out2);
    assert_eq!(out1, vec!["b".to_string(), "c".to_string(), "d".to_string()]);
}

#[test]
fn depmods_missing_dependency_fails() {
    let proj = project_with(vec![("a", lib_module(vec!["ghost_module"]))]);
    let err = proj.module(&"a".to_string()).unwrap().depmods(&proj).unwrap_err();
    assert_eq!(err, Error::NoSuchModule("ghost_module".to_string()));
}

#[test]
fn depmods_cycle_fails_with_dependency_cycle() {
    let proj = project_with(vec![
        ("a", lib_module(vec!["b"])),
        ("b", lib_module(vec!["a"])),
    ]);
    let err = proj.module(&"a".to_string()).unwrap().depmods(&proj).unwrap_err();
    assert_eq!(err, Error::DependencyCycle);
}

#[test]
fn deplibs_and_depexes_split_by_kind() {
    let proj = project_with(vec![
        ("app", lib_module(vec!["corelib", "tool"])),
        ("corelib", lib_module(vec![])),
        ("tool", exe_module("t2", vec!["corelib"])),
    ]);
    let app = proj.module(&"app".to_string()).unwrap();
    assert_eq!(
        as_sorted(app.deplibs(&proj).unwrap()),
        vec!["corelib".to_string()]
    );
    assert_eq!(as_sorted(app.depexes(&proj).unwrap()), vec!["tool".to_string()]);
}

#[test]
fn update_dependencies_builds_target_closure() {
    let mut proj = project_with(vec![
        ("core", lib_module(vec![])),
        ("app", exe_module("t1", vec!["core"])),
    ]);
    proj.update_dependencies().unwrap();
    let members = proj.targets.get(&"t1".to_string()).unwrap().clone();
    assert_eq!(
        as_sorted(members),
        vec!["app".to_string(), "core".to_string()]
    );
}

#[test]
fn update_dependencies_unions_executables_of_one_target() {
    let mut proj = project_with(vec![
        ("liba", lib_module(vec![])),
        ("libb", lib_module(vec!["liba"])),
        ("one", exe_module("all", vec!["liba"])),
        ("two", exe_module("all", vec!["libb"])),
    ]);
    proj.update_dependencies().unwrap();
    let members = proj.targets.get(&"all".to_string()).unwrap().clone();
    assert_eq!(
        as_sorted(members),
        vec![
            "liba".to_string(),
            "libb".to_string(),
            "one".to_string(),
            "two".to_string()
        ]
    );
}

#[test]
fn update_dependencies_cycle_fails() {
    let mut proj = project_with(vec![
        ("a", lib_module(vec!["b"])),
        ("b", lib_module(vec!["a"])),
        ("app", exe_module("t1", vec!["a"])),
    ]);
    let err = proj.update_dependencies().unwrap_err();
    assert_eq!(err, Error::DependencyCycle);
}

#[test]
fn update_dependencies_missing_module_fails() {
    let mut proj = project_with(vec![("app", exe_module("t1", vec!["nope"]))]);
    let err = proj.update_dependencies().unwrap_err();
    assert_eq!(err, Error::NoSuchModule("nope".to_string()));
}

#[test]
fn module_lookup_reports_missing_name() {
    let proj = project_with(vec![("a", lib_module(vec![]))]);
    assert!(proj.module(&"a".to_string()).is_ok());
    let err = proj.module(&"zzz".to_string()).unwrap_err();
    assert_eq!(err, Error::NoSuchModule("zzz".to_string()));
}

#[test]
fn kind_names_are_lib_and_exe() {
    let l = lib_module(vec![]);
    let e = exe_module("t", vec![]);
    assert_eq!(l.kind_name(), "lib");
    assert_eq!(e.kind_name(), "exe");
}

#[test]
fn source_item_derives_name_output_action() {
    let s = SourceItem::from_path("src/main.c".to_string());
    assert_eq!(s.name, "main.c");
    assert_eq!(s.input, "src/main.c");
    assert_eq!(s.output, "src/main.c.o");
    assert_eq!(s.action, "c");
}

#[test]
fn source_item_without_extension_uses_sentinels() {
    let s = SourceItem::from_path("Makefile".to_string());
    assert_eq!(s.name, "Makefile");
    assert_eq!(s.action, "unknown");
    assert_eq!(s.output, "Makefile.unknown.o");

    let hidden = SourceItem::from_path("src/.gitignore".to_string());
    assert_eq!(hidden.name, ".gitignore");
    assert_eq!(hidden.action, "unknown");

    let empty = SourceItem::from_path("src/".to_string());
    assert_eq!(empty.name, "unnamed");
}

#[test]
fn parse_vars_splits_at_first_equals() {
    let mut proj = project_with(vec![]);
    proj.parse_vars(vec!["a=1".to_string(), "b=2=3".to_string()]).unwrap();
    assert_eq!(proj.vars.get(&"a".to_string()).unwrap(), "1");
    assert_eq!(proj.vars.get(&"b".to_string()).unwrap(), "2=3");
}

#[test]
fn parse_vars_without_equals_fails() {
    let mut proj = project_with(vec![]);
    let err = proj.parse_vars(vec!["noequals".to_string()]).unwrap_err();
    assert_eq!(err, Error::InvalidVariable("noequals".to_string()));
}

#[test]
fn parse_vars_later_entries_overwrite() {
    let mut proj = project_with(vec![]);
    proj.parse_vars(vec!["k=old".to_string(), "k=new".to_string()]).unwrap();
    assert_eq!(proj.vars.get(&"k".to_string()).unwrap(), "new");
}

#[test]
fn error_messages_name_their_subject() {
    assert_eq!(
        Error::NoSuchModule("m".to_string()).message(),
        "no module named m"
    );
    assert_eq!(
        Error::DependencyCycle.message(),
        "dependency cycle between modules"
    );
    assert_eq!(
        Error::MissingTemplate("core".to_string()).message(),
        "missing template for core"
    );
}

#[test]
fn depmods_self_loop_fails_with_dependency_cycle() {
    let proj = project_with(vec![("a", lib_module(vec!["a"]))]);
    let err = proj.module(&"a".to_string()).unwrap().depmods(&proj).unwrap_err();
    assert_eq!(err, Error::DependencyCycle);
}

#[test]
fn parse_vars_accepts_empty_name() {
    let mut proj = project_with(vec![]);
    proj.parse_vars(vec!["=bare".to_string()]).unwrap();
    assert_eq!(proj.vars.get(&"".to_string()).unwrap(), "bare");
}

#[test]
fn depmods_output_is_sorted_by_name() {
    let proj = project_with(vec![
        ("a", lib_module(vec!["c", "b"])),
        ("b", lib_module(vec![])),
        ("c", lib_module(vec![])),
    ]);
    let out = proj.module(&"a".to_string()).unwrap().depmods(&proj).unwrap();
    assert_eq!(out, vec!["b".to_string(), "c".to_string()]);
}

#[test]
fn target_members_are_sorted_by_name() {
    let mut proj = project_with(vec![
        ("zeta", lib_module(vec![])),
        ("app", exe_module("t1", vec!["zeta"])),
    ]);
    proj.update_dependencies().unwrap();
    let members = proj.targets.get(&"t1".to_string()).unwrap().clone();
    assert_eq!(members, vec!["app".to_string(), "zeta".to_string()]);
}
