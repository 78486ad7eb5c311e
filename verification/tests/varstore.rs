use bonnibel::errors::Error;
use bonnibel::project::Project;
use bonnibel::strmap::StrMap;

fn empty_project() -> Project {
    Project {
        name: "test".to_string(),
        templates: "templates".to_string(),
        root: ".".to_string(),
        config_file: "modules.yaml".to_string(),
        vars: StrMap::new(),
        modules: StrMap::new(),
        targets: StrMap::new(),
    }
}

#[test]
fn vars_round_trip_through_state_text() {
    let mut writer = empty_project();
    writer
        .parse_vars(vec![
            "arch=x86_64".to_string(),
            "mode=debug".to_string(),
            "flags=-a=-b".to_string(),
        ])
        .unwrap();
    let text = writer.vars_text();

    let mut reader = empty_project();
    reader.load_vars(&text).unwrap();
    assert_eq!(reader.vars.len(), 3);
    assert_eq!(reader.vars.get(&"arch".to_string()).unwrap(), "x86_64");
    assert_eq!(reader.vars.get(&"mode".to_string()).unwrap(), "debug");
    assert_eq!(reader.vars.get(&"flags".to_string()).unwrap(), "-a=-b");
}

#[test]
fn empty_vars_round_trip() {
    let writer = empty_project();
    let text = writer.vars_text();
    let mut reader = empty_project();
    reader.load_vars(&text).unwrap();
    assert_eq!(reader.vars.len(), 0);
}

#[test]
fn load_vars_rejects_malformed_text() {
    let mut proj = empty_project();
    let err = proj.load_vars("]not yaml: [").unwrap_err();
    match err {
        Error::VariableError(_) => {},
        other => panic!("unexpected error {:?}", other),
    }
}

#[test]
fn load_vars_rejects_non_string_mapping() {
    let mut proj = empty_project();
    let err = proj.load_vars("key:\n  nested: 1\n").unwrap_err();
    match err {
        Error::VariableError(_) => {},
        other => panic!("unexpected error {:?}", other),
    }
}

#[test]
fn load_vars_replaces_earlier_mapping() {
    let mut writer = empty_project();
    writer.parse_vars(vec!["only=value".to_string()]).unwrap();
    let text = writer.vars_text();

    let mut reader = empty_project();
    reader.parse_vars(vec!["stale=1".to_string()]).unwrap();
    reader.load_vars(&text).unwrap();
    assert_eq!(reader.vars.len(), 1);
    assert!(reader.vars.get(&"stale".to_string()).is_none());
    assert_eq!(reader.vars.get(&"only".to_string()).unwrap(), "value");
}
