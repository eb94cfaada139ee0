use dnt::ast::{Node, SecondArg, StrLit};
use dnt::error::TransformError;
use dnt::graph::{DependencyEntry, Module, ModuleGraph, TypesRef};
use dnt::specifier::ModuleSpecifier;
use dnt::{
    get_dependencies, transform, MappedSpecifierEntry, Specifiers, TransformOptions,
};

fn spec(text: &str) -> ModuleSpecifier {
    ModuleSpecifier { text: String::from(text) }
}

fn specs(texts: &[&str]) -> Vec<ModuleSpecifier> {
    texts.iter().map(|t| spec(t)).collect()
}

/// A string literal node for the quoted occurrence of `value` in `source`.
fn lit(source: &str, value: &str) -> StrLit {
    let quoted = format!("\"{}\"", value);
    let lo = source.find(&quoted).unwrap();
    StrLit { value: String::from(value), lo, hi: lo + quoted.len() }
}

fn import_module(specifier: &str, source: &str, value: &str, target: &str) -> Module {
    Module {
        specifier: spec(specifier),
        source: String::from(source),
        tree: Node::Branch {
            children: vec![Node::ImportDecl { src: lit(source, value), asserts: None }],
        },
        types_ref: TypesRef::NoRef,
        deps: vec![DependencyEntry {
            literal: String::from(value),
            code: Some(spec(target)),
            types: None,
        }],
        shim_changes: Vec::new(),
        directive_changes: Vec::new(),
    }
}

fn plain_module(specifier: &str, source: &str) -> Module {
    Module {
        specifier: spec(specifier),
        source: String::from(source),
        tree: Node::Branch { children: Vec::new() },
        types_ref: TypesRef::NoRef,
        deps: Vec::new(),
        shim_changes: Vec::new(),
        directive_changes: Vec::new(),
    }
}

fn options(entry: &[&str]) -> TransformOptions {
    TransformOptions {
        entry_points: specs(entry),
        test_entry_points: Vec::new(),
        specifier_mappings: Vec::new(),
    }
}

fn classification(local: &[&str], remote: &[&str]) -> Specifiers {
    Specifiers {
        local: specs(local),
        remote: specs(remote),
        test_modules: Vec::new(),
        main_mapped: Vec::new(),
        test_mapped: Vec::new(),
    }
}

#[test]
fn two_local_modules_are_emitted_with_a_relative_import() {
    let a_src = "import \"./b.ts\";\nconsole.log(1);\n";
    let graph = ModuleGraph {
        modules: vec![
            import_module("file:///a.ts", a_src, "./b.ts", "file:///b.ts"),
            plain_module("file:///b.ts", "export const b = 1;\n"),
        ],
    };
    let sp = classification(&["file:///a.ts", "file:///b.ts"], &[]);
    let out = transform(&graph, &sp, &options(&["file:///a.ts"])).unwrap();
    assert_eq!(out.main.entry_points, vec![String::from("a.ts")]);
    assert_eq!(out.main.files.len(), 2);
    assert_eq!(out.main.files[0].file_path, "a.ts");
    assert_eq!(out.main.files[0].file_text, a_src);
    assert_eq!(out.main.files[1].file_path, "b.ts");
    assert_eq!(out.main.files[1].file_text, "export const b = 1;\n");
    assert_eq!(out.main.dependencies.len(), 0);
    assert!(!out.main.shim_used);
    assert_eq!(out.warnings.len(), 0);
    assert_eq!(out.test.files.len(), 0);
}

#[test]
fn a_remote_import_is_rewritten_to_its_output_path() {
    let c_src = "import \"https://host/x.ts\";\n";
    let graph = ModuleGraph {
        modules: vec![
            import_module("file:///c.ts", c_src, "https://host/x.ts", "https://host/x.ts"),
            plain_module("https://host/x.ts", "export {};\n"),
        ],
    };
    let sp = classification(&["file:///c.ts"], &["https://host/x.ts"]);
    let out = transform(&graph, &sp, &options(&["file:///c.ts"])).unwrap();
    assert_eq!(out.main.files.len(), 2);
    assert_eq!(out.main.files[0].file_text, "import \"./deps/host/x.ts\";\n");
    assert_eq!(out.main.files[1].file_path, "deps/host/x.ts");
}

#[test]
fn a_module_without_rewritable_specifiers_is_emitted_unchanged() {
    let src = "let answer = 42;\nexport { answer };\n";
    let graph = ModuleGraph { modules: vec![plain_module("file:///solo.ts", src)] };
    let sp = classification(&["file:///solo.ts"], &[]);
    let out = transform(&graph, &sp, &options(&["file:///solo.ts"])).unwrap();
    assert_eq!(out.main.files.len(), 1);
    assert_eq!(out.main.files[0].file_text, src);
    assert!(!out.main.shim_used);
}

#[test]
fn a_dynamic_import_attribute_clause_is_removed() {
    let src = "const m = import(\"./x.ts\", { assert: { type: \"json\" } });\n";
    let src_lit = lit(src, "./x.ts");
    let comma_pos = src.find(',').unwrap();
    let end = src.find(')').unwrap();
    let module = Module {
        specifier: spec("file:///dyn.ts"),
        source: String::from(src),
        tree: Node::Branch {
            children: vec![Node::ImportCall {
                src: Some(src_lit),
                second_arg: Some(SecondArg { comma_pos, end }),
            }],
        },
        types_ref: TypesRef::NoRef,
        deps: vec![DependencyEntry {
            literal: String::from("./x.ts"),
            code: Some(spec("file:///x.ts")),
            types: None,
        }],
        shim_changes: Vec::new(),
        directive_changes: Vec::new(),
    };
    let graph = ModuleGraph {
        modules: vec![module, plain_module("file:///x.ts", "export default 1;\n")],
    };
    let sp = classification(&["file:///dyn.ts", "file:///x.ts"], &[]);
    let out = transform(&graph, &sp, &options(&["file:///dyn.ts"])).unwrap();
    assert_eq!(out.main.files[0].file_text, "const m = import(\"./x.ts\");\n");
}

#[test]
fn a_static_import_attribute_clause_is_removed() {
    let src = "import d from \"./d.json\" assert { type: \"json\" };\nexport * from \"./e.ts\";\n";
    let d_lit = lit(src, "./d.json");
    let clause_start = d_lit.hi;
    let clause_end = src.find(';').unwrap();
    let module = Module {
        specifier: spec("file:///f.ts"),
        source: String::from(src),
        tree: Node::Branch {
            children: vec![
                Node::ImportDecl {
                    src: d_lit,
                    asserts: Some(dnt::ast::AssertsClause {
                        prev_end: clause_start,
                        end: clause_end,
                    }),
                },
                Node::ExportAll { src: lit(src, "./e.ts"), asserts: None },
            ],
        },
        types_ref: TypesRef::NoRef,
        deps: vec![
            DependencyEntry {
                literal: String::from("./d.json"),
                code: Some(spec("file:///d.json")),
                types: None,
            },
            DependencyEntry {
                literal: String::from("./e.ts"),
                code: Some(spec("file:///e.ts")),
                types: None,
            },
        ],
        shim_changes: Vec::new(),
        directive_changes: Vec::new(),
    };
    let graph = ModuleGraph {
        modules: vec![
            module,
            plain_module("file:///d.json", "{}"),
            plain_module("file:///e.ts", "export {};"),
        ],
    };
    let sp = classification(&["file:///f.ts", "file:///d.json", "file:///e.ts"], &[]);
    let out = transform(&graph, &sp, &options(&["file:///f.ts"])).unwrap();
    assert_eq!(
        out.main.files[0].file_text,
        "import d from \"./d.json\";\nexport * from \"./e.ts\";\n"
    );
}

#[test]
fn a_local_declaration_wins_and_the_remote_candidate_is_warned() {
    let lib = "https://r/lib.js";
    let mut a = plain_module("file:///a.ts", "a");
    a.deps = vec![DependencyEntry {
        literal: String::from(lib),
        code: Some(spec(lib)),
        types: Some(spec("file:///types.d.ts")),
    }];
    let mut b = plain_module("https://r/b.ts", "b");
    b.deps = vec![DependencyEntry {
        literal: String::from(lib),
        code: Some(spec(lib)),
        types: Some(spec("https://r/types.d.ts")),
    }];
    let graph = ModuleGraph {
        modules: vec![
            a,
            b,
            plain_module(lib, "lib"),
            plain_module("file:///types.d.ts", "declare const a: number;"),
            plain_module("https://r/types.d.ts", "declare const a: string;"),
        ],
    };
    let sp = classification(&["file:///a.ts"], &["https://r/b.ts", "https://r/lib.js"]);
    let out = transform(&graph, &sp, &options(&["file:///a.ts"])).unwrap();
    assert_eq!(out.warnings.len(), 1);
    let w = &out.warnings[0];
    assert!(w.contains("Duplicate declaration file found for https://r/lib.js"));
    assert!(w.contains("Specified https://r/types.d.ts in https://r/b.ts"));
    assert!(w.contains("Selected file:///types.d.ts"));
    assert!(w.contains("only one local file"));
    // the selected declaration file is emitted alongside the code modules
    assert_eq!(out.main.files.len(), 4);
    assert_eq!(out.main.files[3].file_path, "types.d.ts");
}

#[test]
fn an_externally_mapped_import_becomes_a_bare_name_and_a_dependency() {
    let src = "import \"https://pkg/x\";\n";
    let graph = ModuleGraph {
        modules: vec![import_module("file:///a.ts", src, "https://pkg/x", "https://pkg/x")],
    };
    let mut sp = classification(&["file:///a.ts"], &[]);
    sp.main_mapped = vec![(
        spec("https://pkg/x"),
        MappedSpecifierEntry { to_specifier: String::from("foo"), version: Some(String::from("1.2.3")) },
    )];
    let out = transform(&graph, &sp, &options(&["file:///a.ts"])).unwrap();
    assert_eq!(out.main.files[0].file_text, "import \"foo\";\n");
    assert_eq!(out.main.dependencies.len(), 1);
    assert_eq!(out.main.dependencies[0].name, "foo");
    assert_eq!(out.main.dependencies[0].version, "1.2.3");
}

#[test]
fn test_modules_are_bucketed_into_the_test_environment() {
    let graph = ModuleGraph {
        modules: vec![
            plain_module("file:///a.ts", "main module"),
            plain_module("file:///a_test.ts", "test module"),
        ],
    };
    let mut sp = classification(&["file:///a.ts", "file:///a_test.ts"], &[]);
    sp.test_modules = specs(&["file:///a_test.ts"]);
    let opts = TransformOptions {
        entry_points: specs(&["file:///a.ts"]),
        test_entry_points: specs(&["file:///a_test.ts"]),
        specifier_mappings: Vec::new(),
    };
    let out = transform(&graph, &sp, &opts).unwrap();
    assert_eq!(out.main.files.len(), 1);
    assert_eq!(out.test.files.len(), 1);
    assert_eq!(out.main.files[0].file_text, "main module");
    assert_eq!(out.test.files[0].file_text, "test module");
    assert_eq!(out.test.entry_points, vec![String::from("a_test.ts")]);
}

#[test]
fn zero_entry_points_fail_fast() {
    let graph = ModuleGraph { modules: Vec::new() };
    let sp = classification(&[], &[]);
    let r = transform(&graph, &sp, &options(&[]));
    assert!(matches!(r, Err(TransformError::NoEntryPoints)));
}

#[test]
fn colliding_output_paths_fail_the_run() {
    let graph = ModuleGraph {
        modules: vec![
            plain_module("file:///deps/host/x.ts", "local"),
            plain_module("https://host/x.ts", "remote"),
        ],
    };
    let sp = classification(&["file:///deps/host/x.ts"], &["https://host/x.ts"]);
    let r = transform(&graph, &sp, &options(&["file:///deps/host/x.ts"]));
    match r {
        Err(TransformError::OutputPathCollision { first, second }) => {
            assert_ne!(first.text, second.text);
        },
        _ => panic!("expected an output path collision"),
    }
}

#[test]
fn shim_edits_set_the_shim_flag_and_apply() {
    let mut m = plain_module("file:///s.ts", "Deno.exit();");
    // the external shim pass replaces the global's name
    m.shim_changes = vec![dnt::text_changes::TextChange {
        start: 0,
        end: 4,
        new_text: String::from("shim.Deno"),
    }];
    let graph = ModuleGraph { modules: vec![m] };
    let sp = classification(&["file:///s.ts"], &[]);
    let out = transform(&graph, &sp, &options(&["file:///s.ts"])).unwrap();
    assert!(out.main.shim_used);
    assert!(!out.test.shim_used);
    assert_eq!(out.main.files[0].file_text, "shim.Deno.exit();");
}

#[test]
fn defective_pooled_edits_abort_the_run() {
    let mut m = plain_module("file:///bad.ts", "0123456789");
    m.shim_changes = vec![
        dnt::text_changes::TextChange { start: 0, end: 5, new_text: String::from("a") },
        dnt::text_changes::TextChange { start: 3, end: 7, new_text: String::from("b") },
    ];
    let graph = ModuleGraph { modules: vec![m] };
    let sp = classification(&["file:///bad.ts"], &[]);
    let r = transform(&graph, &sp, &options(&["file:///bad.ts"]));
    match r {
        Err(TransformError::InvalidTextChanges { specifier, .. }) => {
            assert_eq!(specifier.text, "file:///bad.ts");
        },
        _ => panic!("expected an invalid text changes error"),
    }
}

#[test]
fn a_remote_selection_warns_with_the_override_hint() {
    let lib = "https://r/lib.js";
    let mut a = plain_module("https://r/a.ts", "a");
    a.deps = vec![DependencyEntry {
        literal: String::from(lib),
        code: Some(spec(lib)),
        types: Some(spec("https://r/one.d.ts")),
    }];
    let mut b = plain_module("https://r/b.ts", "b");
    b.deps = vec![DependencyEntry {
        literal: String::from(lib),
        code: Some(spec(lib)),
        types: Some(spec("https://r/two.d.ts")),
    }];
    let graph = ModuleGraph {
        modules: vec![
            a,
            b,
            plain_module(lib, "lib"),
            plain_module("https://r/one.d.ts", "declare const a: number; // longer"),
            plain_module("https://r/two.d.ts", "short"),
        ],
    };
    let sp = classification(
        &[],
        &["https://r/a.ts", "https://r/b.ts", "https://r/lib.js"],
    );
    let out = transform(&graph, &sp, &options(&["https://r/a.ts"])).unwrap();
    assert_eq!(out.warnings.len(), 1);
    assert_eq!(
        out.warnings[0],
        "Duplicate declaration file found for https://r/lib.js\n  \
         Specified https://r/two.d.ts in https://r/b.ts\n  \
         Selected https://r/one.d.ts\n  \
         Suppress this warning by specifying a declaration file for this module locally via a types directive."
    );
}

#[test]
fn dependencies_are_sorted_and_versionless_renames_are_excluded() {
    let mapped = vec![
        (
            spec("https://pkg/z"),
            MappedSpecifierEntry { to_specifier: String::from("zeta"), version: None },
        ),
        (
            spec("https://pkg/b"),
            MappedSpecifierEntry {
                to_specifier: String::from("beta"),
                version: Some(String::from("1.0.0")),
            },
        ),
        (
            spec("https://pkg/a"),
            MappedSpecifierEntry {
                to_specifier: String::from("alpha"),
                version: Some(String::from("2.0.0")),
            },
        ),
    ];
    let deps = get_dependencies(&mapped);
    assert_eq!(deps.len(), 2);
    assert_eq!(deps[0].name, "alpha");
    assert_eq!(deps[0].version, "2.0.0");
    assert_eq!(deps[1].name, "beta");
    assert_eq!(deps[1].version, "1.0.0");
}
