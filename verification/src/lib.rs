//! A source-to-source transform that rewrites a graph of URL-addressed
//! modules into a self-contained set of output files addressed by relative
//! paths and external package names.
//!
//! The pipeline selects one type-declaration file per code module, assigns
//! every emitted module a deterministic output path, computes text edits
//! that rewrite import/export specifiers and strip unsupported clauses, and
//! applies those edits to produce the final output text.
#![allow(unused_imports)]

pub mod ast;
pub mod declaration_file_resolution;
pub mod error;
pub mod graph;
pub mod imports_exports;
pub mod mappings;
pub mod ordering;
pub mod specifier;
pub mod strings;
pub mod text_changes;

use vstd::prelude::*;

use crate::declaration_file_resolution::{
    entry_ok, group_code_keys, resolution_groups, resolve_declaration_file_mappings, td_key,
    TypesDependency, TypesResolutionEntry,
};
use crate::error::TransformError;
use crate::graph::ModuleGraph;
use crate::imports_exports::{
    get_import_exports_text_changes, module_import_export_changes,
    GetImportExportsTextChangesParams,
};
use crate::mappings::{
    build_mappings, join_segments, segs_view, spec_join, spec_path_of, Mappings,
};
use crate::ordering::{key_le, keys_of, sort_by_sort_key, spec_sorted, SortKeyValue, SortOrdered};
use crate::specifier::{is_file_scheme, ModuleSpecifier};
use crate::strings::{lemma_chars_le_reflexive, str_eq, str_le};
use crate::text_changes::{apply_text_changes, spec_apply, TextChange};

verus! {

/// One written output file.
#[derive(Debug)]
pub struct OutputFile {
    pub file_path: String,
    pub file_text: String,
}

/// One emitted package dependency: an external-package mapping that carried
/// a version.
#[derive(Debug)]
pub struct Dependency {
    pub name: String,
    pub version: String,
}

/// The two environments and the diagnostics of one transform run.
#[derive(Debug)]
pub struct TransformOutput {
    pub main: TransformOutputEnvironment,
    pub test: TransformOutputEnvironment,
    pub warnings: Vec<String>,
}

/// One output environment: its entry-point paths, its files, whether any of
/// its modules needed the global-symbol shim, and its dependency list
/// sorted by package name.
#[derive(Debug)]
pub struct TransformOutputEnvironment {
    pub entry_points: Vec<String>,
    pub files: Vec<OutputFile>,
    pub shim_used: bool,
    pub dependencies: Vec<Dependency>,
}

impl Default for TransformOutputEnvironment {
    fn default() -> (r: TransformOutputEnvironment)
        ensures
            r.entry_points@.len() == 0,
            r.files@.len() == 0,
            !r.shim_used,
            r.dependencies@.len() == 0,
    {
        TransformOutputEnvironment {
            entry_points: Vec::new(),
            files: Vec::new(),
            shim_used: false,
            dependencies: Vec::new(),
        }
    }
}

/// One external-package mapping target: the bare specifier to substitute
/// and, when the package is to appear in the dependency list, its version.
#[derive(Debug)]
pub struct MappedSpecifierEntry {
    pub to_specifier: String,
    pub version: Option<String>,
}

/// The classifier's output: the sets of local, remote and test-only
/// modules, and the externally-mapped specifiers of each environment.
#[derive(Debug)]
pub struct Specifiers {
    pub local: Vec<ModuleSpecifier>,
    pub remote: Vec<ModuleSpecifier>,
    pub test_modules: Vec<ModuleSpecifier>,
    pub main_mapped: Vec<(ModuleSpecifier, MappedSpecifierEntry)>,
    pub test_mapped: Vec<(ModuleSpecifier, MappedSpecifierEntry)>,
}

/// The caller's inputs: the entry points of each environment and the
/// caller-supplied bare-name substitutions.
#[derive(Debug)]
pub struct TransformOptions {
    pub entry_points: Vec<ModuleSpecifier>,
    pub test_entry_points: Vec<ModuleSpecifier>,
    pub specifier_mappings: Vec<(ModuleSpecifier, String)>,
}

impl SortOrdered for Dependency {
    open spec fn sort_key(&self) -> SortKeyValue {
        (0, 0, self.name@, self.version@)
    }

    fn key_le_exec(&self, other: &Self) -> (r: bool)
        ensures
            r == key_le(self.sort_key(), other.sort_key()),
    {
        if str_eq(self.name.as_str(), other.name.as_str()) {
            if str_eq(self.version.as_str(), other.version.as_str()) {
                proof {
                    lemma_chars_le_reflexive(self.version@);
                }
                true
            } else {
                str_le(self.version.as_str(), other.version.as_str())
            }
        } else {
            str_le(self.name.as_str(), other.name.as_str())
        }
    }
}

/// The dependency keys carried by a mapped-specifier table: one per entry
/// with a version, named by the bare specifier.
pub open spec fn spec_dependency_keys(mapped: Seq<(ModuleSpecifier, MappedSpecifierEntry)>) -> Seq<
    SortKeyValue,
>
    decreases mapped.len(),
{
    if mapped.len() == 0 {
        Seq::empty()
    } else {
        let rest = spec_dependency_keys(mapped.drop_last());
        match mapped.last().1.version {
            Some(v) => rest.push((0int, 0int, mapped.last().1.to_specifier@, v@)),
            None => rest,
        }
    }
}

/// The dependency list of one environment: every externally-mapped
/// specifier that carries a version, sorted by package name; version-less
/// renames are excluded.
pub fn get_dependencies(mapped: &Vec<(ModuleSpecifier, MappedSpecifierEntry)>) -> (r: Vec<
    Dependency,
>)
    ensures
        keys_of(r@) == spec_sorted(spec_dependency_keys(mapped@)),
{
    let mut deps: Vec<Dependency> = Vec::new();
    let n = mapped.len();
    let mut i: usize = 0;
    proof {
        assert(mapped@.take(0) =~= Seq::<(ModuleSpecifier, MappedSpecifierEntry)>::empty());
        assert(keys_of(deps@) =~= spec_dependency_keys(mapped@.take(0)));
    }
    while i < n
        invariant
            0 <= i <= n,
            n == mapped@.len(),
            keys_of(deps@) == spec_dependency_keys(mapped@.take(i as int)),
        decreases n - i,
    {
        proof {
            assert(mapped@.take(i as int + 1).drop_last() =~= mapped@.take(i as int));
            assert(mapped@.take(i as int + 1).last() == mapped@[i as int]);
        }
        match &mapped[i].1.version {
            Some(version) => {
                let ghost pre = keys_of(deps@);
                deps.push(
                    Dependency { name: mapped[i].1.to_specifier.clone(), version: version.clone() },
                );
                proof {
                    assert(keys_of(deps@) =~= pre.push(
                        (0int, 0int, mapped@[i as int].1.to_specifier@, version@),
                    ));
                }
            },
            None => {},
        }
        i = i + 1;
    }
    proof {
        assert(mapped@.take(n as int) =~= mapped@);
    }
    sort_by_sort_key(&mut deps);
    proof {
        crate::ordering::lemma_spec_sorted_of_multiset(
            keys_of(deps@),
            spec_dependency_keys(mapped@),
        );
    }
    deps
}

/// The text of one duplicate-declaration warning.
pub open spec fn warning_text(
    code: Seq<char>,
    dep_specifier: Seq<char>,
    dep_referrer: Seq<char>,
    selected_specifier: Seq<char>,
    hint: Seq<char>,
) -> Seq<char> {
    "Duplicate declaration file found for "@ + code + "\n  Specified "@ + dep_specifier + " in "@
        + dep_referrer + "\n  Selected "@ + selected_specifier + "\n  "@ + hint
}

/// The remediation hint when the selected referrer is local.
pub open spec fn local_hint() -> Seq<char> {
    "Suppress this warning by having only one local file specify the declaration file for this module."@
}

/// The remediation hint when the selected referrer is remote.
pub open spec fn remote_hint() -> Seq<char> {
    "Suppress this warning by specifying a declaration file for this module locally via a types directive."@
}

/// The warnings of one resolution entry: one line per ignored candidate,
/// whose remediation hint depends on whether the selected referrer is
/// local.
pub open spec fn ignored_warnings(
    code: Seq<char>,
    selected_specifier: Seq<char>,
    selected_local: bool,
    ignored: Seq<TypesDependency>,
) -> Seq<Seq<char>>
    decreases ignored.len(),
{
    if ignored.len() == 0 {
        Seq::empty()
    } else {
        let rest = ignored_warnings(code, selected_specifier, selected_local, ignored.drop_last());
        let d = ignored.last();
        rest.push(
            warning_text(
                code,
                d.specifier@,
                d.referrer@,
                selected_specifier,
                if selected_local {
                    local_hint()
                } else {
                    remote_hint()
                },
            ),
        )
    }
}

/// All duplicate-declaration warnings, in resolution-entry order.
pub open spec fn all_warnings(entries: Seq<TypesResolutionEntry>) -> Seq<Seq<char>>
    decreases entries.len(),
{
    if entries.len() == 0 {
        Seq::empty()
    } else {
        let e = entries.last();
        all_warnings(entries.drop_last()) + ignored_warnings(
            e.code_specifier@,
            e.resolution.selected.specifier@,
            is_file_scheme(e.resolution.selected.referrer@),
            e.resolution.ignored@,
        )
    }
}

/// Builds one warning line.
fn build_warning(
    code: &ModuleSpecifier,
    dep: &TypesDependency,
    selected: &TypesDependency,
    selected_local: bool,
) -> (r: String)
    ensures
        r@ == warning_text(
            code@,
            dep.specifier@,
            dep.referrer@,
            selected.specifier@,
            if selected_local {
                local_hint()
            } else {
                remote_hint()
            },
        ),
{
    let mut out = String::new();
    out.append("Duplicate declaration file found for ");
    out.append(code.text.as_str());
    out.append("\n  Specified ");
    out.append(dep.specifier.text.as_str());
    out.append(" in ");
    out.append(dep.referrer.text.as_str());
    out.append("\n  Selected ");
    out.append(selected.specifier.text.as_str());
    out.append("\n  ");
    if selected_local {
        out.append(
            "Suppress this warning by having only one local file specify the declaration file for this module.",
        );
    } else {
        out.append(
            "Suppress this warning by specifying a declaration file for this module locally via a types directive.",
        );
    }
    proof {
        assert(out@ =~= warning_text(
            code@,
            dep.specifier@,
            dep.referrer@,
            selected.specifier@,
            if selected_local {
                local_hint()
            } else {
                remote_hint()
            },
        ));
    }
    out
}

/// The views of a vector of owned lines.
pub open spec fn lines_view(v: Seq<String>) -> Seq<Seq<char>> {
    v.map_values(|t: String| t@)
}

/// Collects the duplicate-declaration-file warnings: one line per ignored
/// candidate, with a remediation hint that depends on whether the selected
/// referrer is local. Warnings never block output.
pub fn get_declaration_warnings(types: &Vec<TypesResolutionEntry>) -> (r: Vec<String>)
    ensures
        lines_view(r@) == all_warnings(types@),
{
    let mut messages: Vec<String> = Vec::new();
    let n = types.len();
    let mut i: usize = 0;
    proof {
        assert(types@.take(0) =~= Seq::<TypesResolutionEntry>::empty());
        assert(lines_view(messages@) =~= all_warnings(types@.take(0)));
    }
    while i < n
        invariant
            0 <= i <= n,
            n == types@.len(),
            lines_view(messages@) == all_warnings(types@.take(i as int)),
        decreases n - i,
    {
        proof {
            assert(types@.take(i as int + 1).drop_last() =~= types@.take(i as int));
            assert(types@.take(i as int + 1).last() == types@[i as int]);
        }
        let entry = &types[i];
        let selected_local = entry.resolution.selected.referrer.is_local();
        let nd = entry.resolution.ignored.len();
        let mut k: usize = 0;
        proof {
            assert(entry.resolution.ignored@.take(0) =~= Seq::<TypesDependency>::empty());
        }
        while k < nd
            invariant
                0 <= k <= nd,
                i < n,
                n == types@.len(),
                entry == &types@[i as int],
                nd == entry.resolution.ignored@.len(),
                selected_local == is_file_scheme(entry.resolution.selected.referrer@),
                lines_view(messages@) == all_warnings(types@.take(i as int)) + ignored_warnings(
                    entry.code_specifier@,
                    entry.resolution.selected.specifier@,
                    selected_local,
                    entry.resolution.ignored@.take(k as int),
                ),
            decreases nd - k,
        {
            proof {
                assert(entry.resolution.ignored@.take(k as int + 1).drop_last()
                    =~= entry.resolution.ignored@.take(k as int));
                assert(entry.resolution.ignored@.take(k as int + 1).last()
                    == entry.resolution.ignored@[k as int]);
            }
            let dep = &entry.resolution.ignored[k];
            let ghost pre = lines_view(messages@);
            let line = build_warning(
                &entry.code_specifier,
                dep,
                &entry.resolution.selected,
                selected_local,
            );
            messages.push(line);
            proof {
                assert(lines_view(messages@) =~= pre.push(messages@.last()@));
            }
            k = k + 1;
        }
        proof {
            assert(entry.resolution.ignored@.take(nd as int) =~= entry.resolution.ignored@);
        }
        i = i + 1;
    }
    proof {
        assert(types@.take(n as int) =~= types@);
    }
    messages
}

/// Whether one of the specifiers in `v` has the text `s`.
pub open spec fn spec_contains_specifier(v: Seq<ModuleSpecifier>, s: Seq<char>) -> bool {
    exists|i: int| 0 <= i < v.len() && (#[trigger] v[i])@ == s
}

/// Decides membership of a specifier in a specifier list.
fn contains_specifier(v: &Vec<ModuleSpecifier>, s: &ModuleSpecifier) -> (r: bool)
    ensures
        r == spec_contains_specifier(v@, s@),
{
    let n = v.len();
    let mut i: usize = 0;
    while i < n
        invariant
            0 <= i <= n,
            n == v@.len(),
            forall|j: int| 0 <= j < i ==> (#[trigger] v@[j])@ != s@,
        decreases n - i,
    {
        if v[i].same_as(s) {
            return true;
        }
        i = i + 1;
    }
    false
}

/// The views of a specifier list.
pub open spec fn spec_views(v: Seq<ModuleSpecifier>) -> Seq<Seq<char>> {
    v.map_values(|m: ModuleSpecifier| m@)
}

/// What `resolve_declaration_file_mappings` promises of its entries.
pub open spec fn resolution_ok(g: ModuleGraph, entries: Seq<TypesResolutionEntry>) -> bool {
    let gv = resolution_groups(g);
    &&& entries.len() == gv.len()
    &&& entries.map_values(
        |e: TypesResolutionEntry| (0int, 0int, e.code_specifier@, Seq::<char>::empty()),
    ) == spec_sorted(group_code_keys(gv))
    &&& forall|ei: int| 0 <= ei < entries.len() ==> entry_ok(g, #[trigger] entries[ei])
}

/// The specifiers of the modules the run emits, in order: the locals, the
/// remotes, then the selected declaration files.
pub open spec fn emitted_specifiers(sp: Specifiers, entries: Seq<TypesResolutionEntry>) -> Seq<
    Seq<char>,
> {
    spec_views(sp.local@) + spec_views(sp.remote@) + entries.map_values(
        |e: TypesResolutionEntry| e.resolution.selected.specifier@,
    )
}

/// The merged bare-name substitution table the rewriter consults: the
/// classifier's mapped specifiers of both environments, then the caller's
/// own substitutions; an earlier entry wins.
pub open spec fn pkgs_match(
    options: TransformOptions,
    sp: Specifiers,
    pkgs: Seq<(ModuleSpecifier, String)>,
) -> bool {
    let a = sp.test_mapped@;
    let b = sp.main_mapped@;
    let c = options.specifier_mappings@;
    &&& pkgs.len() == a.len() + b.len() + c.len()
    &&& forall|i: int|
        0 <= i < a.len() ==> (#[trigger] pkgs[i]).0@ == a[i].0@ && pkgs[i].1@
            == a[i].1.to_specifier@
    &&& forall|i: int|
        0 <= i < b.len() ==> (#[trigger] pkgs[a.len() + i]).0@ == b[i].0@ && pkgs[a.len() + i].1@
            == b[i].1.to_specifier@
    &&& forall|i: int|
        0 <= i < c.len() ==> (#[trigger] pkgs[a.len() + b.len() + i]).0@ == c[i].0@ && pkgs[a.len()
            + b.len() + i].1@ == c[i].1@
}

/// The pooled edit keys of one module: its shim edits, its
/// comment-directive edits, and the specifier edits the rewriter computes
/// under the run's mapping table.
pub open spec fn module_pooled_keys(
    g: ModuleGraph,
    m: Mappings,
    pkgs: Seq<(ModuleSpecifier, String)>,
    s: Seq<char>,
) -> Seq<SortKeyValue> {
    let module = g.spec_module(s);
    keys_of(module.shim_changes@) + keys_of(module.directive_changes@)
        + module_import_export_changes(g, m, pkgs, s, module.tree)
}

/// What one emitted output file must hold: the path string joined from the
/// module's output path, and the source text with all pooled edits (shim,
/// comment-directive, and specifier edits) applied.
pub open spec fn spec_output_file_ok(
    g: ModuleGraph,
    m: Mappings,
    pkgs: Seq<(ModuleSpecifier, String)>,
    s: Seq<char>,
    f: OutputFile,
) -> bool {
    &&& f.file_path@ == spec_join(spec_path_of(s))
    &&& f.file_text@ == spec_apply(g.spec_module(s).source@, module_pooled_keys(g, m, pkgs, s))
}

/// The files of one environment bucket: one output file per emitted module
/// that is in the graph and whose test-membership matches the bucket, in
/// emission order.
pub open spec fn files_ok(
    g: ModuleGraph,
    m: Mappings,
    pkgs: Seq<(ModuleSpecifier, String)>,
    tests: Seq<ModuleSpecifier>,
    emitted: Seq<Seq<char>>,
    want_test: bool,
    files: Seq<OutputFile>,
) -> bool
    decreases emitted.len(),
{
    if emitted.len() == 0 {
        files.len() == 0
    } else {
        let s = emitted.last();
        if g.spec_has(s) && (spec_contains_specifier(tests, s) == want_test) {
            files.len() >= 1 && files_ok(g, m, pkgs, tests, emitted.drop_last(), want_test,
                files.drop_last()) && spec_output_file_ok(g, m, pkgs, s, files.last())
        } else {
            files_ok(g, m, pkgs, tests, emitted.drop_last(), want_test, files)
        }
    }
}

/// Whether some module of one bucket carries global-symbol shim edits.
pub open spec fn shim_expected(
    g: ModuleGraph,
    tests: Seq<ModuleSpecifier>,
    emitted: Seq<Seq<char>>,
    want_test: bool,
) -> bool
    decreases emitted.len(),
{
    if emitted.len() == 0 {
        false
    } else {
        let s = emitted.last();
        shim_expected(g, tests, emitted.drop_last(), want_test) || (g.spec_has(s)
            && spec_contains_specifier(tests, s) == want_test && g.spec_module(
            s,
        ).shim_changes@.len() > 0)
    }
}

/// No module's own declared type reference failed to resolve.
pub open spec fn no_failed_types(g: ModuleGraph) -> bool {
    forall|mi: int|
        0 <= mi < g.modules@.len() ==> !((#[trigger] g.modules@[mi]).types_ref is Failed)
}

/// What a run's internal witnesses must hold: the mapping table is well
/// formed and maps exactly the emitted specifiers, the resolution entries
/// are the ones the declaration resolver computes, and the substitution
/// table merges the classifier's and the caller's mappings. Together these
/// pin every witness's observable behaviour to the inputs, so the outputs
/// below are a function of the inputs alone.
pub open spec fn run_witness_ok(
    g: ModuleGraph,
    sp: Specifiers,
    options: TransformOptions,
    m: Mappings,
    entries: Seq<TypesResolutionEntry>,
    pkgs: Seq<(ModuleSpecifier, String)>,
) -> bool {
    let emitted = emitted_specifiers(sp, entries);
    &&& m.wf()
    &&& forall|i: int| 0 <= i < sp.local@.len() ==> m.spec_mapped((#[trigger] sp.local@[i])@)
    &&& forall|i: int| 0 <= i < sp.remote@.len() ==> m.spec_mapped((#[trigger] sp.remote@[i])@)
    &&& forall|i: int|
        0 <= i < entries.len() ==> m.spec_mapped(
            (#[trigger] entries[i]).resolution.selected.specifier@,
        )
    &&& forall|s: Seq<char>| #[trigger] m.spec_mapped(s) <==> emitted.contains(s)
    &&& resolution_ok(g, entries)
    &&& pkgs_match(options, sp, pkgs)
}

/// What the files, warnings and shim flags of a successful run must hold,
/// witnessed by the run's mapping table, resolution entries and merged
/// substitution table.
pub open spec fn transform_results_ok(
    g: ModuleGraph,
    sp: Specifiers,
    options: TransformOptions,
    out: TransformOutput,
    m: Mappings,
    entries: Seq<TypesResolutionEntry>,
    pkgs: Seq<(ModuleSpecifier, String)>,
) -> bool {
    let emitted = emitted_specifiers(sp, entries);
    &&& run_witness_ok(g, sp, options, m, entries, pkgs)
    &&& lines_view(out.warnings@) == all_warnings(entries)
    &&& files_ok(g, m, pkgs, sp.test_modules@, emitted, false, out.main.files@)
    &&& files_ok(g, m, pkgs, sp.test_modules@, emitted, true, out.test.files@)
    &&& out.main.shim_used == shim_expected(g, sp.test_modules@, emitted, false)
    &&& out.test.shim_used == shim_expected(g, sp.test_modules@, emitted, true)
}

/// What an aborted run must hold of the module named by its
/// defective-edits error: the module is one of the run's emitted modules,
/// it is in the graph, and its pooled edit keys cannot be applied to its
/// source text.
pub open spec fn defective_module(
    g: ModuleGraph,
    sp: Specifiers,
    options: TransformOptions,
    s: Seq<char>,
    m: Mappings,
    entries: Seq<TypesResolutionEntry>,
    pkgs: Seq<(ModuleSpecifier, String)>,
) -> bool {
    &&& run_witness_ok(g, sp, options, m, entries, pkgs)
    &&& emitted_specifiers(sp, entries).contains(s)
    &&& g.spec_has(s)
    &&& !crate::text_changes::changes_applicable(
        spec_sorted(module_pooled_keys(g, m, pkgs, s)),
        g.spec_module(s).source@.len() as int,
    )
}

/// What an output-path-collision error must hold: the two reported
/// specifiers are distinct, derive the same output path, and both occur
/// among the run's inputs (locals, remotes, or the selected declaration
/// files of the run's resolution).
pub open spec fn collision_error_ok(g: ModuleGraph, sp: Specifiers, e: TransformError) -> bool {
    match e {
        TransformError::OutputPathCollision { first, second } => first@ != second@ && spec_path_of(
            first@,
        ) == spec_path_of(second@) && exists|entries: Seq<TypesResolutionEntry>|
            #[trigger] resolution_ok(g, entries) && crate::mappings::among_inputs(
                sp.local@,
                sp.remote@,
                entries,
                first@,
            ) && crate::mappings::among_inputs(sp.local@, sp.remote@, entries, second@),
        _ => false,
    }
}

/// What a defective-edits error must hold: the module it names is one of
/// the run's emitted modules and its pooled edits cannot be applied.
pub open spec fn invalid_changes_error_ok(
    g: ModuleGraph,
    sp: Specifiers,
    options: TransformOptions,
    e: TransformError,
) -> bool {
    match e {
        TransformError::InvalidTextChanges { specifier, detail } => exists|
            m: Mappings,
            entries: Seq<TypesResolutionEntry>,
            pkgs: Seq<(ModuleSpecifier, String)>,
        |
            #[trigger] defective_module(g, sp, options, specifier@, m, entries, pkgs),
        _ => false,
    }
}

/// Every module's syntax tree leaves room for the quotes of its specifier
/// literals.
pub open spec fn graph_trees_wf(g: ModuleGraph) -> bool {
    forall|mi: int|
        0 <= mi < g.modules@.len() ==> crate::imports_exports::node_wf(
            (#[trigger] g.modules@[mi]).tree,
        )
}

/// A module with no rewritable specifiers, no attributes clauses and no
/// shim or comment-directive edits is emitted with its text unchanged:
/// applying the pipeline to it is a no-op.
pub proof fn lemma_noop_module_text(
    g: ModuleGraph,
    m: Mappings,
    pkgs: Seq<(ModuleSpecifier, String)>,
    s: Seq<char>,
)
    requires
        g.spec_has(s),
        crate::imports_exports::node_plain(g.spec_module(s).tree),
        g.spec_module(s).shim_changes@.len() == 0,
        g.spec_module(s).directive_changes@.len() == 0,
    ensures
        spec_apply(g.spec_module(s).source@, module_pooled_keys(g, m, pkgs, s))
            == g.spec_module(s).source@,
{
    let module = g.spec_module(s);
    if m.spec_mapped(s) {
        crate::imports_exports::lemma_plain_node_no_changes(
            g,
            m,
            pkgs,
            m.spec_path(s),
            s,
            module.tree,
        );
    }
    assert(keys_of(module.shim_changes@) + keys_of(module.directive_changes@)
        + module_import_export_changes(g, m, pkgs, s, module.tree) =~= Seq::<
        SortKeyValue,
    >::empty());
    crate::text_changes::lemma_apply_empty(module.source@);
}

/// Runs the whole pipeline over a frozen module arena and classification:
/// resolves one declaration file per code module, assigns output paths,
/// rewrites every emitted module's specifiers, applies the pooled edits,
/// and buckets each output file into the main or test environment. Fails
/// fast when no entry point was supplied, when a module's own declared type
/// reference failed to resolve, when two distinct specifiers collide on one
/// output path, or when a module's pooled edits are defective.
pub fn transform(
    module_graph: &ModuleGraph,
    specifiers: &Specifiers,
    options: &TransformOptions,
) -> (r: Result<TransformOutput, TransformError>)
    requires
        graph_trees_wf(*module_graph),
        module_graph.source_lens_fit(),
        forall|i: int|
            0 <= i < options.entry_points@.len() ==> spec_contains_specifier(
                specifiers.local@,
                (#[trigger] options.entry_points@[i])@,
            ) || spec_contains_specifier(specifiers.remote@, options.entry_points@[i]@),
        forall|i: int|
            0 <= i < options.test_entry_points@.len() ==> spec_contains_specifier(
                specifiers.local@,
                (#[trigger] options.test_entry_points@[i])@,
            ) || spec_contains_specifier(specifiers.remote@, options.test_entry_points@[i]@),
    ensures
        match r {
            Ok(out) => {
                &&& options.entry_points@.len() > 0
                &&& forall|mi: int|
                    0 <= mi < module_graph.modules@.len() ==> !((
                    #[trigger] module_graph.modules@[mi]).types_ref is Failed)
                &&& out.main.entry_points@.len() == options.entry_points@.len()
                &&& forall|i: int|
                    0 <= i < options.entry_points@.len() ==> (
                    #[trigger] out.main.entry_points@[i])@ == spec_join(
                        spec_path_of(options.entry_points@[i]@),
                    )
                &&& out.test.entry_points@.len() == options.test_entry_points@.len()
                &&& forall|i: int|
                    0 <= i < options.test_entry_points@.len() ==> (
                    #[trigger] out.test.entry_points@[i])@ == spec_join(
                        spec_path_of(options.test_entry_points@[i]@),
                    )
                &&& keys_of(out.main.dependencies@) == spec_sorted(
                    spec_dependency_keys(specifiers.main_mapped@),
                )
                &&& keys_of(out.test.dependencies@) == spec_sorted(
                    spec_dependency_keys(specifiers.test_mapped@),
                )
                &&& exists|m: Mappings, entries: Seq<TypesResolutionEntry>, pkgs: Seq<
                    (ModuleSpecifier, String),
                >|
                    #[trigger] transform_results_ok(
                        *module_graph,
                        *specifiers,
                        *options,
                        out,
                        m,
                        entries,
                        pkgs,
                    )
            },
            Err(e) => match e {
                TransformError::NoEntryPoints => options.entry_points@.len() == 0,
                TransformError::TypesResolutionFailure { .. } => options.entry_points@.len() > 0
                    && crate::declaration_file_resolution::failure_matches(*module_graph, e),
                TransformError::OutputPathCollision { .. } => options.entry_points@.len() > 0
                    && no_failed_types(*module_graph) && collision_error_ok(
                    *module_graph,
                    *specifiers,
                    e,
                ),
                TransformError::InvalidTextChanges { .. } => options.entry_points@.len() > 0
                    && no_failed_types(*module_graph) && invalid_changes_error_ok(
                    *module_graph,
                    *specifiers,
                    *options,
                    e,
                ),
            },
        },
{
    if options.entry_points.len() == 0 {
        return Err(TransformError::NoEntryPoints);
    }
    let types = match resolve_declaration_file_mappings(module_graph) {
        Ok(t) => t,
        Err(e) => {
            return Err(e);
        },
    };
    proof {
        assert(resolution_ok(*module_graph, types@));
    }
    let mappings = match build_mappings(&specifiers.local, &specifiers.remote, &types) {
        Ok(m) => m,
        Err(e) => {
            proof {
                assert(resolution_ok(*module_graph, types@));
                assert(collision_error_ok(*module_graph, *specifiers, e));
            }
            return Err(e);
        },
    };

    // merge the substitution tables: an earlier entry wins
    let mut pkgs: Vec<(ModuleSpecifier, String)> = Vec::new();
    let na = specifiers.test_mapped.len();
    let mut i: usize = 0;
    while i < na
        invariant
            0 <= i <= na,
            na == specifiers.test_mapped@.len(),
            pkgs@.len() == i,
            forall|j: int|
                0 <= j < i ==> (#[trigger] pkgs@[j]).0@ == specifiers.test_mapped@[j].0@
                    && pkgs@[j].1@ == specifiers.test_mapped@[j].1.to_specifier@,
        decreases na - i,
    {
        pkgs.push((specifiers.test_mapped[i].0.duplicate(), specifiers.test_mapped[i].1.to_specifier.clone()));
        i = i + 1;
    }
    let nb = specifiers.main_mapped.len();
    let mut k: usize = 0;
    while k < nb
        invariant
            0 <= k <= nb,
            na == specifiers.test_mapped@.len(),
            nb == specifiers.main_mapped@.len(),
            pkgs@.len() == na + k,
            forall|j: int|
                0 <= j < na ==> (#[trigger] pkgs@[j]).0@ == specifiers.test_mapped@[j].0@
                    && pkgs@[j].1@ == specifiers.test_mapped@[j].1.to_specifier@,
            forall|j: int|
                0 <= j < k ==> (#[trigger] pkgs@[na + j]).0@ == specifiers.main_mapped@[j].0@
                    && pkgs@[na + j].1@ == specifiers.main_mapped@[j].1.to_specifier@,
        decreases nb - k,
    {
        pkgs.push((specifiers.main_mapped[k].0.duplicate(), specifiers.main_mapped[k].1.to_specifier.clone()));
        k = k + 1;
    }
    let nc = options.specifier_mappings.len();
    let mut c: usize = 0;
    while c < nc
        invariant
            0 <= c <= nc,
            na == specifiers.test_mapped@.len(),
            nb == specifiers.main_mapped@.len(),
            nc == options.specifier_mappings@.len(),
            pkgs@.len() == na + nb + c,
            forall|j: int|
                0 <= j < na ==> (#[trigger] pkgs@[j]).0@ == specifiers.test_mapped@[j].0@
                    && pkgs@[j].1@ == specifiers.test_mapped@[j].1.to_specifier@,
            forall|j: int|
                0 <= j < nb ==> (#[trigger] pkgs@[na + j]).0@ == specifiers.main_mapped@[j].0@
                    && pkgs@[na + j].1@ == specifiers.main_mapped@[j].1.to_specifier@,
            forall|j: int|
                0 <= j < c ==> (#[trigger] pkgs@[na + nb + j]).0@
                    == options.specifier_mappings@[j].0@ && pkgs@[na + nb + j].1@
                    == options.specifier_mappings@[j].1@,
        decreases nc - c,
    {
        pkgs.push((options.specifier_mappings[c].0.duplicate(), options.specifier_mappings[c].1.clone()));
        c = c + 1;
    }
    assert(pkgs_match(*options, *specifiers, pkgs@));

    let warnings = get_declaration_warnings(&types);
    let mut main_env = TransformOutputEnvironment::default();
    let mut test_env = TransformOutputEnvironment::default();
    main_env.dependencies = get_dependencies(&specifiers.main_mapped);
    test_env.dependencies = get_dependencies(&specifiers.test_mapped);
    let ghost main_dep_keys = keys_of(main_env.dependencies@);
    let ghost test_dep_keys = keys_of(test_env.dependencies@);

    // entry-point output paths
    let nep = options.entry_points.len();
    let mut e: usize = 0;
    while e < nep
        invariant
            0 <= e <= nep,
            nep == options.entry_points@.len(),
            mappings.wf(),
            forall|j: int|
                0 <= j < specifiers.local@.len() ==> mappings.spec_mapped(
                    (#[trigger] specifiers.local@[j])@,
                ),
            forall|j: int|
                0 <= j < specifiers.remote@.len() ==> mappings.spec_mapped(
                    (#[trigger] specifiers.remote@[j])@,
                ),
            forall|j: int|
                0 <= j < nep ==> spec_contains_specifier(
                    specifiers.local@,
                    (#[trigger] options.entry_points@[j])@,
                ) || spec_contains_specifier(specifiers.remote@, options.entry_points@[j]@),
            main_env.entry_points@.len() == e,
            forall|j: int|
                0 <= j < e ==> (#[trigger] main_env.entry_points@[j])@ == spec_join(
                    spec_path_of(options.entry_points@[j]@),
                ),
            main_env.files@.len() == 0,
            !main_env.shim_used,
            keys_of(main_env.dependencies@) == main_dep_keys,
        decreases nep - e,
    {
        let ep = &options.entry_points[e];
        proof {
            assert(mappings.spec_mapped(ep@)) by {
                if spec_contains_specifier(specifiers.local@, ep@) {
                    let w = choose|w: int|
                        0 <= w < specifiers.local@.len() && (#[trigger] specifiers.local@[w])@
                            == ep@;
                    assert(mappings.spec_mapped(specifiers.local@[w]@));
                } else {
                    let w = choose|w: int|
                        0 <= w < specifiers.remote@.len() && (#[trigger] specifiers.remote@[w])@
                            == ep@;
                    assert(mappings.spec_mapped(specifiers.remote@[w]@));
                }
            }
        }
        match mappings.get_file_path(ep) {
            Some(p) => {
                proof {
                    crate::mappings::lemma_mapping_index_in_range(mappings.entries@, ep@);
                    let idx = crate::mappings::spec_mapping_index(mappings.entries@, ep@);
                    assert(segs_view(mappings.entries@[idx].path@) == spec_path_of(
                        mappings.entries@[idx].specifier@,
                    ));
                }
                main_env.entry_points.push(join_segments(p));
            },
            None => {
                proof {
                    assert(false);
                }
            },
        }
        e = e + 1;
    }
    let ntep = options.test_entry_points.len();
    let mut te: usize = 0;
    while te < ntep
        invariant
            0 <= te <= ntep,
            ntep == options.test_entry_points@.len(),
            mappings.wf(),
            forall|j: int|
                0 <= j < specifiers.local@.len() ==> mappings.spec_mapped(
                    (#[trigger] specifiers.local@[j])@,
                ),
            forall|j: int|
                0 <= j < specifiers.remote@.len() ==> mappings.spec_mapped(
                    (#[trigger] specifiers.remote@[j])@,
                ),
            forall|j: int|
                0 <= j < ntep ==> spec_contains_specifier(
                    specifiers.local@,
                    (#[trigger] options.test_entry_points@[j])@,
                ) || spec_contains_specifier(specifiers.remote@, options.test_entry_points@[j]@),
            test_env.entry_points@.len() == te,
            forall|j: int|
                0 <= j < te ==> (#[trigger] test_env.entry_points@[j])@ == spec_join(
                    spec_path_of(options.test_entry_points@[j]@),
                ),
            test_env.files@.len() == 0,
            !test_env.shim_used,
            keys_of(test_env.dependencies@) == test_dep_keys,
        decreases ntep - te,
    {
        let ep = &options.test_entry_points[te];
        proof {
            assert(mappings.spec_mapped(ep@)) by {
                if spec_contains_specifier(specifiers.local@, ep@) {
                    let w = choose|w: int|
                        0 <= w < specifiers.local@.len() && (#[trigger] specifiers.local@[w])@
                            == ep@;
                    assert(mappings.spec_mapped(specifiers.local@[w]@));
                } else {
                    let w = choose|w: int|
                        0 <= w < specifiers.remote@.len() && (#[trigger] specifiers.remote@[w])@
                            == ep@;
                    assert(mappings.spec_mapped(specifiers.remote@[w]@));
                }
            }
        }
        match mappings.get_file_path(ep) {
            Some(p) => {
                proof {
                    crate::mappings::lemma_mapping_index_in_range(mappings.entries@, ep@);
                    let idx = crate::mappings::spec_mapping_index(mappings.entries@, ep@);
                    assert(segs_view(mappings.entries@[idx].path@) == spec_path_of(
                        mappings.entries@[idx].specifier@,
                    ));
                }
                test_env.entry_points.push(join_segments(p));
            },
            None => {
                proof {
                    assert(false);
                }
            },
        }
        te = te + 1;
    }

    // the modules the run emits, in order
    let ghost emitted_views = emitted_specifiers(*specifiers, types@);
    let mut emitted: Vec<ModuleSpecifier> = Vec::new();
    let nl = specifiers.local.len();
    let mut li: usize = 0;
    while li < nl
        invariant
            0 <= li <= nl,
            nl == specifiers.local@.len(),
            mappings.wf(),
            forall|j: int|
                0 <= j < specifiers.local@.len() ==> mappings.spec_mapped(
                    (#[trigger] specifiers.local@[j])@,
                ),
            emitted@.len() == li,
            forall|j: int|
                0 <= j < li ==> (#[trigger] emitted@[j])@ == specifiers.local@[j]@
                    && mappings.spec_mapped(emitted@[j]@),
        decreases nl - li,
    {
        emitted.push(specifiers.local[li].duplicate());
        li = li + 1;
    }
    let nr = specifiers.remote.len();
    let mut ri: usize = 0;
    while ri < nr
        invariant
            0 <= ri <= nr,
            nl == specifiers.local@.len(),
            nr == specifiers.remote@.len(),
            mappings.wf(),
            forall|j: int|
                0 <= j < specifiers.remote@.len() ==> mappings.spec_mapped(
                    (#[trigger] specifiers.remote@[j])@,
                ),
            emitted@.len() == nl + ri,
            forall|j: int|
                0 <= j < nl ==> (#[trigger] emitted@[j])@ == specifiers.local@[j]@
                    && mappings.spec_mapped(emitted@[j]@),
            forall|j: int|
                nl <= j < nl + ri ==> (#[trigger] emitted@[j])@ == specifiers.remote@[j - nl]@
                    && mappings.spec_mapped(emitted@[j]@),
        decreases nr - ri,
    {
        emitted.push(specifiers.remote[ri].duplicate());
        ri = ri + 1;
    }
    let nt = types.len();
    let mut ti: usize = 0;
    while ti < nt
        invariant
            0 <= ti <= nt,
            nl == specifiers.local@.len(),
            nr == specifiers.remote@.len(),
            nt == types@.len(),
            mappings.wf(),
            forall|j: int|
                0 <= j < types@.len() ==> mappings.spec_mapped(
                    (#[trigger] types@[j]).resolution.selected.specifier@,
                ),
            emitted@.len() == nl + nr + ti,
            forall|j: int|
                0 <= j < nl ==> (#[trigger] emitted@[j])@ == specifiers.local@[j]@
                    && mappings.spec_mapped(emitted@[j]@),
            forall|j: int|
                nl <= j < nl + nr ==> (#[trigger] emitted@[j])@ == specifiers.remote@[j - nl]@
                    && mappings.spec_mapped(emitted@[j]@),
            forall|j: int|
                nl + nr <= j < nl + nr + ti ==> (#[trigger] emitted@[j])@ == types@[j - nl
                    - nr].resolution.selected.specifier@ && mappings.spec_mapped(emitted@[j]@),
        decreases nt - ti,
    {
        emitted.push(types[ti].resolution.selected.specifier.duplicate());
        ti = ti + 1;
    }
    proof {
        assert forall|j: int| 0 <= j < nl + nr + nt implies spec_views(emitted@)[j]
            == emitted_views[j] by {
            assert(spec_views(emitted@)[j] == emitted@[j]@);
            if j < nl {
                assert(spec_views(specifiers.local@)[j] == specifiers.local@[j]@);
            } else if j < nl + nr {
                assert(spec_views(specifiers.remote@)[j - nl] == specifiers.remote@[j - nl]@);
            } else {
                assert(types@.map_values(
                    |x: TypesResolutionEntry| x.resolution.selected.specifier@,
                )[j - nl - nr] == types@[j - nl - nr].resolution.selected.specifier@);
            }
        }
        assert(spec_views(emitted@) =~= emitted_views);
        assert forall|j: int| 0 <= j < nl + nr + nt implies mappings.spec_mapped(
            (#[trigger] emitted@[j])@,
        ) by {
        }
        // the mapping table's domain is exactly the emitted specifiers
        assert forall|s: Seq<char>| #[trigger] mappings.spec_mapped(s) <==> emitted_views.contains(
            s,
        ) by {
            if mappings.spec_mapped(s) {
                assert(crate::mappings::among_inputs(
                    specifiers.local@,
                    specifiers.remote@,
                    types@,
                    s,
                ));
                if exists|i: int|
                    0 <= i < specifiers.local@.len() && (#[trigger] specifiers.local@[i])@ == s {
                    let i = choose|i: int|
                        0 <= i < specifiers.local@.len() && (#[trigger] specifiers.local@[i])@
                            == s;
                    assert(emitted_views[i] == s);
                } else if exists|i: int|
                    0 <= i < specifiers.remote@.len() && (#[trigger] specifiers.remote@[i])@
                        == s {
                    let i = choose|i: int|
                        0 <= i < specifiers.remote@.len() && (#[trigger] specifiers.remote@[i])@
                            == s;
                    assert(spec_views(specifiers.remote@)[i] == s);
                    assert(emitted_views[nl + i] == s);
                } else {
                    let i = choose|i: int|
                        0 <= i < types@.len() && (
                        #[trigger] types@[i]).resolution.selected.specifier@ == s;
                    assert(types@.map_values(
                        |x: TypesResolutionEntry| x.resolution.selected.specifier@,
                    )[i] == s);
                    assert(emitted_views[nl + nr + i] == s);
                }
                assert(emitted_views.contains(s));
            }
            if emitted_views.contains(s) {
                let i = choose|i: int|
                    0 <= i < emitted_views.len() && (#[trigger] emitted_views[i]) == s;
                assert(emitted@[i]@ == s);
                assert(mappings.spec_mapped(emitted@[i]@));
            }
        }
    }

    // rewrite and emit every module into its bucket
    let nm = emitted.len();
    let mut mi: usize = 0;
    proof {
        assert(spec_views(emitted@).take(0) =~= Seq::<Seq<char>>::empty());
    }
    while mi < nm
        invariant
            0 <= mi <= nm,
            nm == emitted@.len(),
            graph_trees_wf(*module_graph),
            mappings.wf(),
            options.entry_points@.len() > 0,
            no_failed_types(*module_graph),
            resolution_ok(*module_graph, types@),
            pkgs_match(*options, *specifiers, pkgs@),
            emitted_views == emitted_specifiers(*specifiers, types@),
            spec_views(emitted@) == emitted_views,
            forall|j: int| 0 <= j < nm ==> mappings.spec_mapped((#[trigger] emitted@[j])@),
            forall|j: int|
                0 <= j < specifiers.local@.len() ==> mappings.spec_mapped(
                    (#[trigger] specifiers.local@[j])@,
                ),
            forall|j: int|
                0 <= j < specifiers.remote@.len() ==> mappings.spec_mapped(
                    (#[trigger] specifiers.remote@[j])@,
                ),
            forall|j: int|
                0 <= j < types@.len() ==> mappings.spec_mapped(
                    (#[trigger] types@[j]).resolution.selected.specifier@,
                ),
            forall|s: Seq<char>|
                #[trigger] mappings.spec_mapped(s) <==> emitted_views.contains(s),
            main_env.entry_points@.len() == options.entry_points@.len(),
            forall|j: int|
                0 <= j < options.entry_points@.len() ==> (
                #[trigger] main_env.entry_points@[j])@ == spec_join(
                    spec_path_of(options.entry_points@[j]@),
                ),
            test_env.entry_points@.len() == options.test_entry_points@.len(),
            forall|j: int|
                0 <= j < options.test_entry_points@.len() ==> (
                #[trigger] test_env.entry_points@[j])@ == spec_join(
                    spec_path_of(options.test_entry_points@[j]@),
                ),
            keys_of(main_env.dependencies@) == main_dep_keys,
            keys_of(test_env.dependencies@) == test_dep_keys,
            files_ok(
                *module_graph,
                mappings,
                pkgs@,
                specifiers.test_modules@,
                emitted_views.take(mi as int),
                false,
                main_env.files@,
            ),
            files_ok(
                *module_graph,
                mappings,
                pkgs@,
                specifiers.test_modules@,
                emitted_views.take(mi as int),
                true,
                test_env.files@,
            ),
            main_env.shim_used == shim_expected(
                *module_graph,
                specifiers.test_modules@,
                emitted_views.take(mi as int),
                false,
            ),
            test_env.shim_used == shim_expected(
                *module_graph,
                specifiers.test_modules@,
                emitted_views.take(mi as int),
                true,
            ),
        decreases nm - mi,
    {
        proof {
            assert(emitted_views.take(mi as int + 1).drop_last() =~= emitted_views.take(mi as int));
            assert(emitted_views.take(mi as int + 1).last() == emitted_views[mi as int]);
            assert(emitted_views[mi as int] == emitted@[mi as int]@);
        }
        let ghost pre_main_files = main_env.files@;
        let ghost pre_test_files = test_env.files@;
        let s = &emitted[mi];
        match module_graph.find(s) {
            None => {
                proof {
                    assert(!module_graph.spec_has(s@));
                    assert(files_ok(
                        *module_graph,
                        mappings,
                        pkgs@,
                        specifiers.test_modules@,
                        emitted_views.take(mi as int + 1),
                        false,
                        main_env.files@,
                    ));
                    assert(files_ok(
                        *module_graph,
                        mappings,
                        pkgs@,
                        specifiers.test_modules@,
                        emitted_views.take(mi as int + 1),
                        true,
                        test_env.files@,
                    ));
                }
            },
            Some(midx) => {
                let module = &module_graph.modules[midx];
                proof {
                    assert(module_graph.spec_has(s@));
                    assert(*module == module_graph.spec_module(s@));
                    assert(crate::imports_exports::node_wf(module.tree));
                }
                // pool this module's edits: shim, comment-directive, specifier
                let mut changes: Vec<TextChange> = Vec::new();
                let nsc = module.shim_changes.len();
                let mut sc: usize = 0;
                while sc < nsc
                    invariant
                        0 <= sc <= nsc,
                        nsc == module.shim_changes@.len(),
                        changes@.len() == sc,
                        forall|j: int|
                            0 <= j < sc ==> (#[trigger] changes@[j]).sort_key()
                                == module.shim_changes@[j].sort_key(),
                    decreases nsc - sc,
                {
                    changes.push(module.shim_changes[sc].duplicate());
                    sc = sc + 1;
                }
                let ndc = module.directive_changes.len();
                let mut dc: usize = 0;
                while dc < ndc
                    invariant
                        0 <= dc <= ndc,
                        nsc == module.shim_changes@.len(),
                        ndc == module.directive_changes@.len(),
                        changes@.len() == nsc + dc,
                        forall|j: int|
                            0 <= j < nsc ==> (#[trigger] changes@[j]).sort_key()
                                == module.shim_changes@[j].sort_key(),
                        forall|j: int|
                            nsc <= j < nsc + dc ==> (#[trigger] changes@[j]).sort_key()
                                == module.directive_changes@[j - nsc].sort_key(),
                    decreases ndc - dc,
                {
                    changes.push(module.directive_changes[dc].duplicate());
                    dc = dc + 1;
                }
                let params = GetImportExportsTextChangesParams {
                    specifier: s,
                    module_graph,
                    mappings: &mappings,
                    program: &module.tree,
                    package_specifier_mappings: &pkgs,
                };
                let mut rewrites = get_import_exports_text_changes(&params);
                let ghost rewrite_keys = keys_of(rewrites@);
                let ghost pre_rewrites = rewrites@;
                let ghost pre_changes = changes@;
                changes.append(&mut rewrites);
                proof {
                    let expected = keys_of(module.shim_changes@) + keys_of(
                        module.directive_changes@,
                    ) + module_import_export_changes(
                        *module_graph,
                        mappings,
                        pkgs@,
                        s@,
                        module.tree,
                    );
                    assert(keys_of(module.shim_changes@).len() == nsc);
                    assert(keys_of(module.directive_changes@).len() == ndc);
                    assert(rewrite_keys == module_import_export_changes(
                        *module_graph,
                        mappings,
                        pkgs@,
                        s@,
                        module.tree,
                    ));
                    assert(changes@.len() == nsc + ndc + pre_rewrites.len());
                    assert forall|j: int| 0 <= j < changes@.len() implies keys_of(changes@)[j]
                        == expected[j] by {
                        assert(keys_of(changes@)[j] == changes@[j].sort_key());
                        if j < nsc {
                            assert(changes@[j] == pre_changes[j]);
                            assert(pre_changes[j].sort_key()
                                == module.shim_changes@[j].sort_key());
                            assert(expected[j] == keys_of(module.shim_changes@)[j]);
                            assert(keys_of(module.shim_changes@)[j]
                                == module.shim_changes@[j].sort_key());
                        } else if j < nsc + ndc {
                            assert(changes@[j] == pre_changes[j]);
                            assert(pre_changes[j].sort_key()
                                == module.directive_changes@[j - nsc].sort_key());
                            assert(expected[j] == keys_of(module.directive_changes@)[j - nsc]);
                            assert(keys_of(module.directive_changes@)[j - nsc]
                                == module.directive_changes@[j - nsc].sort_key());
                        } else {
                            assert(changes@[j] == pre_rewrites[j - nsc - ndc]);
                            assert(expected[j] == rewrite_keys[j - nsc - ndc]);
                            assert(rewrite_keys[j - nsc - ndc] == pre_rewrites[j - nsc
                                - ndc].sort_key());
                        }
                    }
                    assert(keys_of(changes@) =~= expected);
                }
                let text = match apply_text_changes(module.source.as_str(), changes) {
                    Ok(t) => t,
                    Err(d) => {
                        let specifier = s.duplicate();
                        proof {
                            assert(run_witness_ok(
                                *module_graph,
                                *specifiers,
                                *options,
                                mappings,
                                types@,
                                pkgs@,
                            ));
                            assert(emitted_views[mi as int] == s@);
                            assert(emitted_views.contains(s@));
                            assert(defective_module(
                                *module_graph,
                                *specifiers,
                                *options,
                                specifier@,
                                mappings,
                                types@,
                                pkgs@,
                            ));
                        }
                        let err = TransformError::InvalidTextChanges { specifier, detail: d };
                        proof {
                            assert(invalid_changes_error_ok(
                                *module_graph,
                                *specifiers,
                                *options,
                                err,
                            )) by {
                                match &err {
                                    TransformError::InvalidTextChanges {
                                        specifier: named,
                                        detail: _,
                                    } => {
                                        assert(defective_module(
                                            *module_graph,
                                            *specifiers,
                                            *options,
                                            named@,
                                            mappings,
                                            types@,
                                            pkgs@,
                                        ));
                                    },
                                    _ => {},
                                }
                            }
                        }
                        return Err(err);
                    },
                };
                let path_vec = match mappings.get_file_path(s) {
                    Some(p) => p,
                    None => {
                        proof {
                            assert(false);
                        }
                        &mappings.entries[0].path
                    },
                };
                proof {
                    crate::mappings::lemma_mapping_index_in_range(mappings.entries@, s@);
                    let idx = crate::mappings::spec_mapping_index(mappings.entries@, s@);
                    assert(segs_view(mappings.entries@[idx].path@) == spec_path_of(
                        mappings.entries@[idx].specifier@,
                    ));
                }
                let path_str = join_segments(path_vec);
                let is_test = contains_specifier(&specifiers.test_modules, s);
                let file = OutputFile { file_path: path_str, file_text: text };
                proof {
                    assert(spec_output_file_ok(*module_graph, mappings, pkgs@, s@, file));
                }
                if is_test {
                    test_env.files.push(file);
                    if !module.shim_changes.is_empty() {
                        test_env.shim_used = true;
                    }
                } else {
                    main_env.files.push(file);
                    if !module.shim_changes.is_empty() {
                        main_env.shim_used = true;
                    }
                }
                proof {
                    if is_test {
                        assert(test_env.files@.drop_last() =~= pre_test_files);
                        assert(test_env.files@.last() == file);
                    } else {
                        assert(main_env.files@.drop_last() =~= pre_main_files);
                        assert(main_env.files@.last() == file);
                    }
                    assert(files_ok(
                        *module_graph,
                        mappings,
                        pkgs@,
                        specifiers.test_modules@,
                        emitted_views.take(mi as int + 1),
                        false,
                        main_env.files@,
                    ));
                    assert(files_ok(
                        *module_graph,
                        mappings,
                        pkgs@,
                        specifiers.test_modules@,
                        emitted_views.take(mi as int + 1),
                        true,
                        test_env.files@,
                    ));
                    assert(main_env.shim_used == shim_expected(
                        *module_graph,
                        specifiers.test_modules@,
                        emitted_views.take(mi as int + 1),
                        false,
                    ));
                    assert(test_env.shim_used == shim_expected(
                        *module_graph,
                        specifiers.test_modules@,
                        emitted_views.take(mi as int + 1),
                        true,
                    ));
                }
            },
        }
        mi = mi + 1;
    }
    proof {
        assert(emitted_views.take(nm as int) =~= emitted_views);
    }
    let out = TransformOutput { main: main_env, test: test_env, warnings };
    proof {
        assert(transform_results_ok(
            *module_graph,
            *specifiers,
            *options,
            out,
            mappings,
            types@,
            pkgs@,
        ));
    }
    Ok(out)
}

} // verus!
