use bonnibel::errors::Error;
use bonnibel::module::{Module, ModuleKind, SourceItem};
use bonnibel::project::Project;
use bonnibel::strmap::StrMap;
use bonnibel::template::template_from_options;
use bonnibel::version::Version;

fn strings(items: Vec<&str>) -> Vec<String> {
    items.into_iter().map(|s| s.to_string()).collect()
}

#[test]
fn template_prefers_specific_over_default() {
    let avail = strings(vec!["lib.core.j2", "lib.default.j2"]);
    let (path, file) =
        template_from_options(&avail, &"tpl".to_string(), &"core".to_string(), "lib").unwrap();
    assert_eq!(file, "lib.core.j2");
    assert_eq!(path, "tpl/lib.core.j2");
}

#[test]
fn template_falls_back_to_default() {
    let avail = strings(vec!["lib.default.j2"]);
    let (path, file) =
        template_from_options(&avail, &"tpl".to_string(), &"core".to_string(), "lib").unwrap();
    assert_eq!(file, "lib.default.j2");
    assert_eq!(path, "tpl/lib.default.j2");
}

#[test]
fn template_missing_both_fails() {
    let avail = strings(vec!["exe.default.j2"]);
    let err = template_from_options(&avail, &"tpl".to_string(), &"core".to_string(), "lib")
        .unwrap_err();
    assert_eq!(err, Error::MissingTemplate("core".to_string()));
}

#[test]
fn version_string_composition() {
    let v = Version { major: 1, minor: 2, patch: 3, build: strings(vec!["abc123"]) };
    assert_eq!(v.version_string(), "1.2.3+abc123");
    assert_eq!(v.sha(), "abc123");

    let dirty = Version { major: 0, minor: 10, patch: 0, build: strings(vec!["abc123", "dirty"]) };
    assert_eq!(dirty.version_string(), "0.10.0+abc123.dirty");
}

#[test]
fn generate_end_to_end() {
    let mut modules = StrMap::new();
    modules.insert(
        "core".to_string(),
        Module {
            depends: Vec::new(),
            defines: Vec::new(),
            includes: Vec::new(),
            source: vec![SourceItem::from_path("a.c".to_string())],
            output: "core.a".to_string(),
            kind: ModuleKind::Library,
        },
    );
    modules.insert(
        "app".to_string(),
        Module {
            depends: strings(vec!["core"]),
            defines: Vec::new(),
            includes: Vec::new(),
            source: vec![SourceItem::from_path("main.c".to_string())],
            output: "app.elf".to_string(),
            kind: ModuleKind::Executable { target: "t1".to_string() },
        },
    );
    let mut proj = Project {
        name: "demo".to_string(),
        templates: "tpl".to_string(),
        root: "/src".to_string(),
        config_file: "/src/modules.yaml".to_string(),
        vars: StrMap::new(),
        modules,
        targets: StrMap::new(),
    };
    proj.update_dependencies().unwrap();

    let mut engine = tera::Tera::new();
    engine
        .add_raw_template("lib.default.j2", "lib {{ name }} sources {{ module.source | length }}")
        .unwrap();
    engine
        .add_raw_template("exe.default.j2", "exe {{ name }} deps {{ depmods | length }}")
        .unwrap();
    engine
        .add_raw_template(
            "target.default.j2",
            "target {{ target }}:{% for m in modules %} {{ m }}{% endfor %}",
        )
        .unwrap();
    engine
        .add_raw_template(
            "build.ninja.j2",
            "self={{ buildfile }} version={{ version }} targets={% for t in targets %}{{ t }}{% endfor %}",
        )
        .unwrap();
    let available = strings(vec![
        "lib.default.j2",
        "exe.default.j2",
        "target.default.j2",
        "build.ninja.j2",
    ]);
    let version = Version { major: 1, minor: 2, patch: 3, build: strings(vec!["abc123"]) };

    let files = proj
        .generate(
            &"build".to_string(),
            &engine,
            &available,
            &version,
            &"/usr/bin/pb".to_string(),
        )
        .unwrap();

    assert_eq!(files.len(), 4);
    let paths: Vec<String> = files.iter().map(|f| f.path.clone()).collect();
    assert!(paths.contains(&"build/core.ninja".to_string()));
    assert!(paths.contains(&"build/app.ninja".to_string()));
    assert!(paths.contains(&"build/t1/target.ninja".to_string()));
    assert_eq!(paths[3], "build/build.ninja");

    for f in &files {
        if f.path == "build/core.ninja" {
            assert_eq!(f.contents, "lib core sources 1");
        }
        if f.path == "build/app.ninja" {
            assert_eq!(f.contents, "exe app deps 1");
        }
        if f.path == "build/t1/target.ninja" {
            assert!(f.contents.starts_with("target t1:"));
            assert!(f.contents.contains("core"));
            assert!(f.contents.contains("app"));
        }
        if f.path == "build/build.ninja" {
            // The top-level file records itself by its bare relative name.
            assert!(f.contents.contains("self=build.ninja"));
            assert!(f.contents.contains("version=1.2.3+abc123"));
            assert!(f.contents.contains("targets=t1"));
        }
    }
}

#[test]
fn generate_missing_template_fails() {
    let mut modules = StrMap::new();
    modules.insert(
        "core".to_string(),
        Module {
            depends: Vec::new(),
            defines: Vec::new(),
            includes: Vec::new(),
            source: Vec::new(),
            output: String::new(),
            kind: ModuleKind::Library,
        },
    );
    let proj = Project {
        name: "demo".to_string(),
        templates: "tpl".to_string(),
        root: "/src".to_string(),
        config_file: "/src/modules.yaml".to_string(),
        vars: StrMap::new(),
        modules,
        targets: StrMap::new(),
    };
    let engine = tera::Tera::new();
    let version = Version { major: 0, minor: 0, patch: 0, build: strings(vec!["deadbee"]) };
    let err = match proj.generate(
        &"build".to_string(),
        &engine,
        &Vec::new(),
        &version,
        &"/usr/bin/pb".to_string(),
    ) {
        Ok(_) => panic!("generation succeeded without templates"),
        Err(e) => e,
    };
    assert_eq!(err, Error::MissingTemplate("core".to_string()));
}

#[test]
fn generate_render_failure_reports_template_rendering() {
    let mut modules = StrMap::new();
    modules.insert(
        "core".to_string(),
        Module {
            depends: Vec::new(),
            defines: Vec::new(),
            includes: Vec::new(),
            source: Vec::new(),
            output: String::new(),
            kind: ModuleKind::Library,
        },
    );
    let proj = Project {
        name: "demo".to_string(),
        templates: "tpl".to_string(),
        root: "/src".to_string(),
        config_file: "/src/modules.yaml".to_string(),
        vars: StrMap::new(),
        modules,
        targets: StrMap::new(),
    };
    let mut engine = tera::Tera::new();
    engine
        .add_raw_template("lib.default.j2", "{{ undefined_thing.field }}")
        .unwrap();
    let available = strings(vec!["lib.default.j2"]);
    let version = Version { major: 0, minor: 0, patch: 0, build: strings(vec!["deadbee"]) };
    let err = match proj.generate(
        &"build".to_string(),
        &engine,
        &available,
        &version,
        &"/usr/bin/pb".to_string(),
    ) {
        Ok(_) => panic!("generation succeeded on a failing template"),
        Err(e) => e,
    };
    match err {
        Error::TemplateRendering(_) => {},
        other => panic!("unexpected error {:?}", other),
    }
}
