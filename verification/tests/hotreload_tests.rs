use aether_vm::globals::{ClassDef, Global};
use aether_vm::hotreload::{merge_globals, ReloadConfig, ReloadReport};
use aether_vm::strmap::StrMap;
use aether_vm::strsort::sort_strings;
use aether_vm::value::Value;

fn map_of(entries: Vec<(&str, Global)>) -> StrMap<Global> {
    let mut m = StrMap::new();
    for (k, v) in entries {
        m.insert(k.to_string(), v);
    }
    m
}

fn methods(entries: &[(&str, u64)]) -> StrMap<u64> {
    let mut m = StrMap::new();
    for (k, v) in entries {
        m.insert(k.to_string(), *v);
    }
    m
}

fn class(id: u64, name: &str, ms: &[(&str, u64)]) -> Global {
    Global::Class(ClassDef {
        id,
        name: name.to_string(),
        bases: vec![],
        methods: methods(ms),
        class_vars: StrMap::new(),
    })
}

fn lookup<'a>(m: &'a StrMap<Global>, k: &str) -> Option<&'a Global> {
    m.get(&k.to_string())
}

fn names(v: &[String]) -> Vec<&str> {
    v.iter().map(|s| s.as_str()).collect()
}

/// The running program: two functions, a class, a native, and live data.
fn running() -> StrMap<Global> {
    map_of(vec![
        ("greet", Global::Code(1)),
        ("helper", Global::Code(2)),
        ("Point", class(10, "Point", &[("norm", 3), ("show", 4)])),
        ("print", Global::Native(99)),
        ("counter", Global::Data(Value::Int(41))),
        ("cache", Global::Data(Value::String("warm".to_string()))),
    ])
}

/// What running the new code leaves: the old globals plus the new definitions.
fn after_new_code() -> StrMap<Global> {
    map_of(vec![
        ("greet", Global::Code(5)),
        ("helper", Global::Code(2)),
        ("Point", class(11, "Point", &[("show", 6), ("scale", 7)])),
        ("print", Global::Native(98)),
        ("counter", Global::Data(Value::Int(0))),
        ("cache", Global::Data(Value::String("warm".to_string()))),
        ("fresh_fn", Global::Code(8)),
        ("limit", Global::Data(Value::Int(10))),
    ])
}

#[test]
fn default_config_keeps_everything() {
    let c = ReloadConfig::default();
    assert!(c.preserve_globals && c.update_classes_in_place && c.call_on_reload);
}

#[test]
fn report_as_value() {
    let r = ReloadReport {
        version: 3,
        functions_updated: vec!["f".to_string()],
        functions_added: vec![],
        classes_updated: vec![],
        globals_preserved: vec!["count".to_string(), "cache".to_string()],
        duration_us: 125,
        success: true,
        error: None,
    };
    match r.to_value() {
        Value::MapEntries(es) => {
            let keys: Vec<&str> = es.iter().map(|(k, _)| k.as_str()).collect();
            assert_eq!(
                keys,
                vec![
                    "version", "functions_updated", "functions_added", "classes_updated",
                    "globals_preserved", "duration_us", "success", "error"
                ]
            );
            assert!(matches!(es[0].1, Value::Int(3)));
            match &es[4].1 {
                Value::Array(items) => {
                    assert_eq!(items.len(), 2);
                    assert!(matches!(&items[1], Value::String(s) if s == "cache"));
                },
                _ => panic!("names become an array"),
            }
            assert!(matches!(es[5].1, Value::Int(125)));
            assert!(matches!(es[6].1, Value::Bool(true)));
            assert!(matches!(es[7].1, Value::Nil));
        },
        _ => panic!("a map"),
    }
    let failed = ReloadReport { success: false, error: Some("boom".to_string()), ..r };
    match failed.to_value() {
        Value::MapEntries(es) => assert!(matches!(&es[7].1, Value::String(s) if s == "boom")),
        _ => panic!("a map"),
    }
}

#[test]
fn merge_keeps_live_state_and_patches_classes() {
    let mut g = running();
    let out = merge_globals(&mut g, &after_new_code(), &ReloadConfig::default());
    assert_eq!(names(&out.functions_updated), vec!["greet", "helper"]);
    assert_eq!(names(&out.functions_added), vec!["fresh_fn"]);
    assert_eq!(names(&out.classes_updated), vec!["Point"]);
    assert_eq!(names(&out.globals_preserved), vec!["cache", "counter"]);
    assert!(matches!(lookup(&g, "greet"), Some(Global::Code(5))));
    assert!(matches!(lookup(&g, "fresh_fn"), Some(Global::Code(8))));
    assert!(matches!(lookup(&g, "counter"), Some(Global::Data(Value::Int(41)))));
    assert!(matches!(lookup(&g, "limit"), Some(Global::Data(Value::Int(10)))));
    assert!(matches!(lookup(&g, "print"), Some(Global::Native(99))));
    match lookup(&g, "Point") {
        Some(Global::Class(c)) => {
            assert_eq!(c.id, 10);
            assert_eq!(c.methods.get(&"norm".to_string()), Some(&3));
            assert_eq!(c.methods.get(&"show".to_string()), Some(&6));
            assert_eq!(c.methods.get(&"scale".to_string()), Some(&7));
            assert_eq!(c.methods.len(), 3);
        },
        _ => panic!("Point stays a class"),
    }
    assert_eq!(g.len(), 8);
}

#[test]
fn merge_without_preservation_takes_new_data_and_classes() {
    let mut g = running();
    let config = ReloadConfig {
        preserve_globals: false,
        update_classes_in_place: false,
        call_on_reload: false,
    };
    let out = merge_globals(&mut g, &after_new_code(), &config);
    assert!(out.globals_preserved.is_empty());
    assert!(out.classes_updated.is_empty());
    assert!(matches!(lookup(&g, "counter"), Some(Global::Data(Value::Int(0)))));
    match lookup(&g, "Point") {
        Some(Global::Class(c)) => {
            assert_eq!(c.id, 11);
            assert_eq!(c.methods.get(&"norm".to_string()), None);
        },
        _ => panic!("Point stays a class"),
    }
}

#[test]
fn merge_keeps_data_even_where_new_code_defines_a_function() {
    let mut g = map_of(vec![("x", Global::Data(Value::Int(1)))]);
    let fresh = map_of(vec![("x", Global::Code(4)), ("y", Global::Native(1))]);
    let out = merge_globals(&mut g, &fresh, &ReloadConfig::default());
    assert_eq!(names(&out.functions_added), vec!["x"]);
    assert_eq!(names(&out.globals_preserved), vec!["x"]);
    assert!(matches!(lookup(&g, "x"), Some(Global::Data(Value::Int(1)))));
    assert!(lookup(&g, "y").is_none());
}

#[test]
fn merging_the_same_code_twice_changes_nothing_more() {
    let mut g = running();
    merge_globals(&mut g, &after_new_code(), &ReloadConfig::default());
    let once: Vec<(String, String)> = g.entries.iter().map(|(k, v)| (k.clone(), format!("{:?}", describe(v)))).collect();
    merge_globals(&mut g, &after_new_code(), &ReloadConfig::default());
    let twice: Vec<(String, String)> = g.entries.iter().map(|(k, v)| (k.clone(), format!("{:?}", describe(v)))).collect();
    assert_eq!(once, twice);
}

fn describe(g: &Global) -> String {
    match g {
        Global::Code(f) => format!("code {}", f),
        Global::Native(n) => format!("native {}", n),
        Global::Data(Value::Int(i)) => format!("int {}", i),
        Global::Data(Value::String(s)) => format!("str {}", s),
        Global::Data(_) => "data".to_string(),
        Global::Class(c) => {
            let mut ms: Vec<String> = c.methods.entries.iter().map(|(k, v)| format!("{}={}", k, v)).collect();
            ms.sort();
            format!("class {} {:?}", c.id, ms)
        },
    }
}

#[test]
fn strings_sort_by_code_point() {
    let v = vec!["b".to_string(), "ab".to_string(), "a".to_string(), "B".to_string(), "é".to_string()];
    assert_eq!(names(&sort_strings(v)), vec!["B", "a", "ab", "b", "é"]);
}
