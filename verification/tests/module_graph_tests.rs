//! Module graph builder tests.

use bct::module_graph::ModuleGraphBuilder;
use bct::text::Text;

#[test]
fn test_module_graph_builder() {
    let mut builder = ModuleGraphBuilder::new();

    // add modules in dependency order
    let base = builder.add_module(
        "sys/std/base".to_string(),
        Text::new(b"// base".to_vec()),
    );
    let math = builder.add_module(
        "sys/std/math".to_string(),
        Text::new(b"// math".to_vec()),
    );

    // math imports from base
    builder.add_import(&math, "base_fn".to_string(), &base, "base_fn".to_string());

    let graph = builder.build();

    assert_eq!(graph.modules.len(), 2);
    assert!(graph.get_module(&base).is_some());
    assert!(graph.get_module(&math).is_some());

    let math_imports = graph.get_imports(&math).unwrap();
    assert_eq!(math_imports.len(), 1);
    assert_eq!(math_imports[0].local_name, "base_fn");
}

#[test]
fn unknown_module_not_found() {
    let mut builder = ModuleGraphBuilder::new();
    let a = builder.add_module("a".to_string(), Text::new(Vec::new()));
    let graph = builder.build();
    let missing = bct::module_graph::ModuleId { path: "b".to_string() };
    assert!(graph.get_module(&missing).is_none());
    assert!(graph.get_imports(&missing).is_none());
    assert!(graph.get_module(&a).is_some());
}

#[test]
fn dependencies_point_earlier() {
    let mut builder = ModuleGraphBuilder::new();
    let a = builder.add_module("a".to_string(), Text::new(Vec::new()));
    let b = builder.add_module("b".to_string(), Text::new(Vec::new()));
    let c = builder.add_module("c".to_string(), Text::new(Vec::new()));
    builder.add_import(&b, "x".to_string(), &a, "x".to_string());
    builder.add_import(&c, "y".to_string(), &b, "y".to_string());
    // an import of a later module records no dependency edge
    builder.add_import(&a, "z".to_string(), &c, "z".to_string());
    let graph = builder.build();
    for (j, deps) in graph.dependencies.iter().enumerate() {
        for d in deps {
            assert!(*d < j, "dependency does not precede its module");
        }
    }
    // but the import itself is kept
    assert_eq!(graph.get_imports(&a).unwrap().len(), 1);
    assert_eq!(graph.iter_modules().len(), 3);
}

#[test]
fn duplicate_path_prefers_latest() {
    let mut builder = ModuleGraphBuilder::new();
    let first = builder.add_module("m".to_string(), Text::new(b"one".to_vec()));
    let _second = builder.add_module("m".to_string(), Text::new(b"two".to_vec()));
    let graph = builder.build();
    let found = graph.get_module(&first).unwrap();
    assert_eq!(found.source.bytes, b"two".to_vec());
}
