use gpusort::registry::{Library, ProgramRegistry};

#[test]
fn lookup_finds_registered_function() {
    let mut registry = ProgramRegistry::new();
    let sort_lib = Library::new(vec![
        ("sort_downsweep_u32".to_string(), 1u32),
        ("reduce_test".to_string(), 2u32),
    ]);
    let sum_lib = Library::new(vec![("sum".to_string(), 3u32)]);
    registry.register_library("sort".to_string(), sort_lib);
    registry.register_library("sum".to_string(), sum_lib);
    assert_eq!(registry.get_function(&"sort".to_string(), &"reduce_test".to_string()), Some(&2));
    assert_eq!(registry.get_function(&"sum".to_string(), &"sum".to_string()), Some(&3));
}

#[test]
fn lookup_reports_unknown_names() {
    let mut registry = ProgramRegistry::new();
    registry.register_library("sum".to_string(), Library::new(vec![("sum".to_string(), 3u32)]));
    assert_eq!(registry.get_function(&"sort".to_string(), &"sum".to_string()), None);
    assert_eq!(registry.get_function(&"sum".to_string(), &"missing".to_string()), None);
}

#[test]
fn later_registration_replaces_earlier() {
    let mut registry = ProgramRegistry::new();
    registry.register_library("k".to_string(), Library::new(vec![("f".to_string(), 1u32)]));
    registry.register_library("k".to_string(), Library::new(vec![("f".to_string(), 9u32)]));
    assert_eq!(registry.get_function(&"k".to_string(), &"f".to_string()), Some(&9));
    let lib = Library::new(vec![("g".to_string(), 1u32), ("g".to_string(), 5u32)]);
    assert_eq!(lib.get(&"g".to_string()), Some(&5));
}
