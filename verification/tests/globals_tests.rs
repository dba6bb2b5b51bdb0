use aether_vm::globals::{find_class_var, find_method, find_method_in_bases, ClassDef, Global};
use aether_vm::strmap::StrMap;
use aether_vm::value::Value;

fn class(id: u64, name: &str, bases: &[&str], ms: &[(&str, u64)], vars: &[(&str, i64)]) -> ClassDef {
    let mut methods = StrMap::new();
    for (k, v) in ms {
        methods.insert(k.to_string(), *v);
    }
    let mut class_vars = StrMap::new();
    for (k, v) in vars {
        class_vars.insert(k.to_string(), Value::Int(*v));
    }
    ClassDef {
        id,
        name: name.to_string(),
        bases: bases.iter().map(|b| b.to_string()).collect(),
        methods,
        class_vars,
    }
}

/// Animal <- Pet; Named; Dog(Pet, Named); `x` is data, not a class.
fn world() -> StrMap<Global> {
    let mut g = StrMap::new();
    g.insert("Animal".to_string(), Global::Class(class(1, "Animal", &[], &[("speak", 10), ("eat", 11)], &[("legs", 4)])));
    g.insert("Pet".to_string(), Global::Class(class(2, "Pet", &["Animal"], &[("speak", 20)], &[])));
    g.insert("Named".to_string(), Global::Class(class(3, "Named", &[], &[("name", 30), ("eat", 31)], &[("legs", 2), ("title", 7)])));
    g.insert("x".to_string(), Global::Data(Value::Int(1)));
    g
}

#[test]
fn own_methods_come_first() {
    let g = world();
    let dog = class(4, "Dog", &["Pet", "Named"], &[("speak", 40)], &[]);
    assert_eq!(find_method(&dog, "speak", &g), Some(40));
}

#[test]
fn bases_are_searched_depth_first_in_order() {
    let g = world();
    let dog = class(4, "Dog", &["x", "Missing", "Pet", "Named"], &[], &[]);
    assert_eq!(find_method(&dog, "speak", &g), Some(20));
    assert_eq!(find_method(&dog, "eat", &g), Some(11));
    assert_eq!(find_method(&dog, "name", &g), Some(30));
    assert_eq!(find_method(&dog, "fly", &g), None);
    assert_eq!(find_method_in_bases(&dog, "speak", &g), Some(20));
    let own = class(5, "Own", &["Pet"], &[("eat", 50)], &[]);
    assert_eq!(find_method_in_bases(&own, "eat", &g), Some(11));
}

#[test]
fn class_variables_are_inherited() {
    let g = world();
    let dog = class(4, "Dog", &["Pet", "Named"], &[], &[("sound", 9)]);
    assert!(matches!(find_class_var(&dog, "sound", &g), Some(Value::Int(9))));
    assert!(matches!(find_class_var(&dog, "legs", &g), Some(Value::Int(4))));
    assert!(matches!(find_class_var(&dog, "title", &g), Some(Value::Int(7))));
    assert!(find_class_var(&dog, "color", &g).is_none());
}

#[test]
fn a_cycle_of_bases_ends_the_search() {
    let mut g = StrMap::new();
    g.insert("A".to_string(), Global::Class(class(1, "A", &["B"], &[], &[])));
    g.insert("B".to_string(), Global::Class(class(2, "B", &["A"], &[("m", 5)], &[])));
    let a = class(1, "A", &["B"], &[], &[]);
    assert_eq!(find_method(&a, "m", &g), Some(5));
    assert_eq!(find_method(&a, "missing", &g), None);
}
