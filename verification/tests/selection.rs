use dnt::ast::Node;
use dnt::declaration_file_resolution::{
    resolve_declaration_file_mappings, select_best_types_dep, TypesDependency,
};
use dnt::graph::{DependencyEntry, Module, ModuleGraph, TypesRef};
use dnt::specifier::ModuleSpecifier;

fn spec(text: &str) -> ModuleSpecifier {
    ModuleSpecifier { text: String::from(text) }
}

fn bare_module(specifier: &str, source: &str) -> Module {
    Module {
        specifier: spec(specifier),
        source: String::from(source),
        tree: Node::Branch { children: Vec::new() },
        types_ref: TypesRef::NoRef,
        deps: Vec::new(),
        shim_changes: Vec::new(),
        directive_changes: Vec::new(),
    }
}

fn dep(specifier: &str, referrer: &str) -> TypesDependency {
    TypesDependency { specifier: spec(specifier), referrer: spec(referrer) }
}

#[test]
fn local_referrer_beats_remote_in_either_order() {
    let graph = ModuleGraph {
        modules: vec![
            bare_module("https://remote/a.d.ts", "a very very long declaration file"),
            bare_module("file:///b.d.ts", "x"),
        ],
    };
    let code = spec("https://remote/lib.js");
    let local_first = vec![
        dep("file:///b.d.ts", "file:///main.ts"),
        dep("https://remote/a.d.ts", "https://remote/other.ts"),
    ];
    let remote_first = vec![
        dep("https://remote/a.d.ts", "https://remote/other.ts"),
        dep("file:///b.d.ts", "file:///main.ts"),
    ];
    let r1 = select_best_types_dep(&graph, &code, &local_first);
    let r2 = select_best_types_dep(&graph, &code, &remote_first);
    assert_eq!(r1.specifier.text, "file:///b.d.ts");
    assert_eq!(r2.specifier.text, "file:///b.d.ts");
}

#[test]
fn self_referrer_beats_third_party_in_either_order() {
    let graph = ModuleGraph {
        modules: vec![
            bare_module("https://remote/self.d.ts", "s"),
            bare_module("https://remote/third.d.ts", "a much much larger declaration file"),
        ],
    };
    let code = spec("https://remote/lib.js");
    let self_first = vec![
        dep("https://remote/self.d.ts", "https://remote/lib.js"),
        dep("https://remote/third.d.ts", "https://remote/other.ts"),
    ];
    let third_first = vec![
        dep("https://remote/third.d.ts", "https://remote/other.ts"),
        dep("https://remote/self.d.ts", "https://remote/lib.js"),
    ];
    let r1 = select_best_types_dep(&graph, &code, &self_first);
    let r2 = select_best_types_dep(&graph, &code, &third_first);
    assert_eq!(r1.specifier.text, "https://remote/self.d.ts");
    assert_eq!(r2.specifier.text, "https://remote/self.d.ts");
}

#[test]
fn larger_declaration_file_wins_the_tie_break() {
    let graph = ModuleGraph {
        modules: vec![
            bare_module("https://remote/small.d.ts", "ab"),
            bare_module("https://remote/large.d.ts", "abcdefgh"),
        ],
    };
    let code = spec("https://remote/lib.js");
    let small_first = vec![
        dep("https://remote/small.d.ts", "https://remote/r1.ts"),
        dep("https://remote/large.d.ts", "https://remote/r2.ts"),
    ];
    let large_first = vec![
        dep("https://remote/large.d.ts", "https://remote/r2.ts"),
        dep("https://remote/small.d.ts", "https://remote/r1.ts"),
    ];
    let r1 = select_best_types_dep(&graph, &code, &small_first);
    let r2 = select_best_types_dep(&graph, &code, &large_first);
    assert_eq!(r1.specifier.text, "https://remote/large.d.ts");
    assert_eq!(r2.specifier.text, "https://remote/large.d.ts");
}

#[test]
fn the_tie_break_measures_bytes_not_characters() {
    // two characters of two UTF-8 bytes each outweigh three one-byte ones
    let graph = ModuleGraph {
        modules: vec![
            bare_module("https://remote/wide.d.ts", "\u{e9}\u{e9}"),
            bare_module("https://remote/narrow.d.ts", "abc"),
        ],
    };
    let code = spec("https://remote/lib.js");
    let deps = vec![
        dep("https://remote/narrow.d.ts", "https://remote/r1.ts"),
        dep("https://remote/wide.d.ts", "https://remote/r2.ts"),
    ];
    let r = select_best_types_dep(&graph, &code, &deps);
    assert_eq!(r.specifier.text, "https://remote/wide.d.ts");
}

#[test]
fn equal_sizes_keep_the_first_candidate() {
    let graph = ModuleGraph {
        modules: vec![
            bare_module("https://remote/a.d.ts", "same"),
            bare_module("https://remote/b.d.ts", "size"),
        ],
    };
    let code = spec("https://remote/lib.js");
    let a_first = vec![
        dep("https://remote/a.d.ts", "https://remote/r1.ts"),
        dep("https://remote/b.d.ts", "https://remote/r2.ts"),
    ];
    let r = select_best_types_dep(&graph, &code, &a_first);
    assert_eq!(r.specifier.text, "https://remote/a.d.ts");
}

fn graph_with_dep_order(first: &str, second: &str) -> ModuleGraph {
    // one code module whose two dependencies both attach a type reference to
    // the same code target
    let code_dep = |lit: &str, types_target: &str| DependencyEntry {
        literal: String::from(lit),
        code: Some(spec("https://remote/lib.js")),
        types: Some(spec(types_target)),
    };
    let mut main = bare_module("file:///main.ts", "main");
    main.deps = vec![code_dep("one", first), code_dep("two", second)];
    ModuleGraph {
        modules: vec![
            main,
            bare_module("https://remote/lib.js", "lib"),
            bare_module("https://remote/a.d.ts", "aa"),
            bare_module("https://remote/b.d.ts", "bbbb"),
        ],
    }
}

#[test]
fn resolution_is_order_independent() {
    let g1 = graph_with_dep_order("https://remote/a.d.ts", "https://remote/b.d.ts");
    let g2 = graph_with_dep_order("https://remote/b.d.ts", "https://remote/a.d.ts");
    let r1 = resolve_declaration_file_mappings(&g1).unwrap();
    let r2 = resolve_declaration_file_mappings(&g2).unwrap();
    assert_eq!(r1.len(), 1);
    assert_eq!(r2.len(), 1);
    assert_eq!(r1[0].code_specifier.text, "https://remote/lib.js");
    assert_eq!(
        r1[0].resolution.selected.specifier.text,
        r2[0].resolution.selected.specifier.text
    );
    // the larger declaration file wins regardless of encounter order
    assert_eq!(r1[0].resolution.selected.specifier.text, "https://remote/b.d.ts");
    assert_eq!(r1[0].resolution.ignored.len(), 1);
    assert_eq!(r1[0].resolution.ignored[0].specifier.text, "https://remote/a.d.ts");
}

#[test]
fn duplicate_candidates_are_deduplicated() {
    let code_dep = |lit: &str| DependencyEntry {
        literal: String::from(lit),
        code: Some(spec("https://remote/lib.js")),
        types: Some(spec("https://remote/a.d.ts")),
    };
    let mut main = bare_module("file:///main.ts", "main");
    main.deps = vec![code_dep("one"), code_dep("two")];
    let graph = ModuleGraph {
        modules: vec![main, bare_module("https://remote/lib.js", "lib"), bare_module(
            "https://remote/a.d.ts",
            "aa",
        )],
    };
    let r = resolve_declaration_file_mappings(&graph).unwrap();
    assert_eq!(r.len(), 1);
    assert_eq!(r[0].resolution.selected.specifier.text, "https://remote/a.d.ts");
    assert_eq!(r[0].resolution.ignored.len(), 0);
}

#[test]
fn failed_own_type_reference_aborts_the_run() {
    let mut bad = bare_module("file:///main.ts", "main");
    bad.types_ref = TypesRef::Failed {
        text: String::from("./missing.d.ts"),
        error: String::from("not found"),
    };
    let graph = ModuleGraph { modules: vec![bad] };
    let r = resolve_declaration_file_mappings(&graph);
    match r {
        Err(dnt::error::TransformError::TypesResolutionFailure { specifier, reference, error }) => {
            assert_eq!(specifier.text, "file:///main.ts");
            assert_eq!(reference, "./missing.d.ts");
            assert_eq!(error, "not found");
        },
        _ => panic!("expected a types resolution failure"),
    }
}
