//! The specifier rewriter: walks a module's syntax tree depth-first and
//! emits one text edit for every static import, re-export-all, named
//! re-export with a source, and dynamic-import call with a literal first
//! argument. The literal's contents (not its quotes) are replaced by the
//! target's bare package name when one is mapped, and by the path-relative
//! specifier between the two modules' output paths otherwise. A trailing
//! import-attributes clause is removed unconditionally.

use vstd::prelude::*;

use crate::ast::{AssertsClause, Node, SecondArg, StrLit};
use crate::graph::ModuleGraph;
use crate::mappings::{get_relative_specifier, segs_view, spec_relative_text, Mappings};
use crate::ordering::{keys_of, SortKeyValue};
use crate::specifier::ModuleSpecifier;
use crate::strings::str_eq;
use crate::text_changes::TextChange;

verus! {

/// The first index whose entry maps the given specifier to a bare package
/// name, or -1.
pub open spec fn pkg_index(ps: Seq<(ModuleSpecifier, String)>, s: Seq<char>) -> int
    decreases ps.len(),
{
    if ps.len() == 0 {
        -1
    } else if ps[0].0@ == s {
        0
    } else {
        let r = pkg_index(ps.drop_first(), s);
        if r < 0 {
            -1
        } else {
            r + 1
        }
    }
}

pub proof fn lemma_pkg_index_found(ps: Seq<(ModuleSpecifier, String)>, s: Seq<char>, i: int)
    requires
        0 <= i < ps.len(),
        ps[i].0@ == s,
        forall|j: int| 0 <= j < i ==> ps[j].0@ != s,
    ensures
        pkg_index(ps, s) == i,
    decreases i,
{
    if i > 0 {
        lemma_pkg_index_found(ps.drop_first(), s, i - 1);
    }
}

pub proof fn lemma_pkg_index_absent(ps: Seq<(ModuleSpecifier, String)>, s: Seq<char>)
    requires
        forall|j: int| 0 <= j < ps.len() ==> ps[j].0@ != s,
    ensures
        pkg_index(ps, s) == -1,
    decreases ps.len(),
{
    if ps.len() > 0 {
        lemma_pkg_index_absent(ps.drop_first(), s);
    }
}

/// The replacement text for a specifier literal with contents `value`
/// written in the module named `referrer`: the bare package name when the
/// resolved target has an external-package mapping, the relative specifier
/// between the two output paths otherwise. No replacement when the literal
/// does not resolve or the target has no output path.
pub open spec fn spec_new_text(
    g: ModuleGraph,
    m: Mappings,
    pkgs: Seq<(ModuleSpecifier, String)>,
    own_path: Seq<Seq<char>>,
    referrer: Seq<char>,
    value: Seq<char>,
) -> Option<Seq<char>> {
    match g.spec_resolve(value, referrer) {
        None => None,
        Some(target) => {
            let pi = pkg_index(pkgs, target);
            if pi >= 0 {
                Some(pkgs[pi].1@)
            } else if m.spec_mapped(target) {
                Some(spec_relative_text(own_path, m.spec_path(target)))
            } else {
                None
            }
        },
    }
}

/// The edit keys a specifier literal contributes: one edit covering exactly
/// the characters between its quotes, or none.
pub open spec fn lit_changes(
    g: ModuleGraph,
    m: Mappings,
    pkgs: Seq<(ModuleSpecifier, String)>,
    own_path: Seq<Seq<char>>,
    referrer: Seq<char>,
    lit: StrLit,
) -> Seq<SortKeyValue> {
    match spec_new_text(g, m, pkgs, own_path, referrer, lit.value@) {
        None => Seq::empty(),
        Some(t) => seq![(lit.lo + 1 as int, lit.hi - 1 as int, t, Seq::<char>::empty())],
    }
}

/// The edit removing a trailing attributes clause of a static construct.
pub open spec fn asserts_change(a: AssertsClause) -> SortKeyValue {
    (a.prev_end as int, a.end as int, Seq::<char>::empty(), Seq::<char>::empty())
}

/// The edit removing the second argument of a dynamic import, from the
/// preceding comma through the argument's end.
pub open spec fn second_arg_change(sa: SecondArg) -> SortKeyValue {
    (sa.comma_pos as int, sa.end as int, Seq::<char>::empty(), Seq::<char>::empty())
}

/// A literal's span must leave room for its two quotes.
pub open spec fn lit_wf(l: StrLit) -> bool {
    l.lo + 2 <= l.hi
}

/// Every literal in the tree leaves room for its quotes.
pub open spec fn node_wf(n: Node) -> bool
    decreases n,
{
    match n {
        Node::ImportDecl { src, asserts } => lit_wf(src),
        Node::ExportAll { src, asserts } => lit_wf(src),
        Node::NamedExport { src, asserts } => match src {
            Some(l) => lit_wf(l),
            None => true,
        },
        Node::ImportCall { src, second_arg } => match src {
            Some(l) => lit_wf(l),
            None => true,
        },
        Node::Branch { children } => nodes_wf(children@),
    }
}

pub open spec fn nodes_wf(s: Seq<Node>) -> bool
    decreases s,
{
    if s.len() == 0 {
        true
    } else {
        nodes_wf(s.drop_last()) && node_wf(s.last())
    }
}

/// The edit keys one node contributes, in visit order.
pub open spec fn node_changes(
    g: ModuleGraph,
    m: Mappings,
    pkgs: Seq<(ModuleSpecifier, String)>,
    own_path: Seq<Seq<char>>,
    referrer: Seq<char>,
    n: Node,
) -> Seq<SortKeyValue>
    decreases n,
{
    match n {
        Node::ImportDecl { src, asserts } => lit_changes(g, m, pkgs, own_path, referrer, src)
            + match asserts {
            Some(a) => seq![asserts_change(a)],
            None => Seq::empty(),
        },
        Node::ExportAll { src, asserts } => lit_changes(g, m, pkgs, own_path, referrer, src)
            + match asserts {
            Some(a) => seq![asserts_change(a)],
            None => Seq::empty(),
        },
        Node::NamedExport { src, asserts } => (match src {
            Some(l) => lit_changes(g, m, pkgs, own_path, referrer, l),
            None => Seq::empty(),
        }) + match asserts {
            Some(a) => seq![asserts_change(a)],
            None => Seq::empty(),
        },
        Node::ImportCall { src, second_arg } => match src {
            Some(l) => lit_changes(g, m, pkgs, own_path, referrer, l) + match second_arg {
                Some(sa) => seq![second_arg_change(sa)],
                None => Seq::empty(),
            },
            None => Seq::empty(),
        },
        Node::Branch { children } => nodes_changes(g, m, pkgs, own_path, referrer, children@),
    }
}

pub open spec fn nodes_changes(
    g: ModuleGraph,
    m: Mappings,
    pkgs: Seq<(ModuleSpecifier, String)>,
    own_path: Seq<Seq<char>>,
    referrer: Seq<char>,
    s: Seq<Node>,
) -> Seq<SortKeyValue>
    decreases s,
{
    if s.len() == 0 {
        Seq::empty()
    } else {
        nodes_changes(g, m, pkgs, own_path, referrer, s.drop_last()) + node_changes(
            g,
            m,
            pkgs,
            own_path,
            referrer,
            s.last(),
        )
    }
}

/// The edit keys the rewriter produces for one module: none when the module
/// itself has no output path.
pub open spec fn module_import_export_changes(
    g: ModuleGraph,
    m: Mappings,
    pkgs: Seq<(ModuleSpecifier, String)>,
    specifier: Seq<char>,
    tree: Node,
) -> Seq<SortKeyValue> {
    if m.spec_mapped(specifier) {
        node_changes(g, m, pkgs, m.spec_path(specifier), specifier, tree)
    } else {
        Seq::empty()
    }
}

/// A literal that does not resolve to any target gets no edit: the
/// rewriter leaves a genuinely external or unresolvable specifier alone.
pub proof fn lemma_unresolved_literal_no_edit(
    g: ModuleGraph,
    m: Mappings,
    pkgs: Seq<(ModuleSpecifier, String)>,
    own_path: Seq<Seq<char>>,
    referrer: Seq<char>,
    lit: StrLit,
)
    requires
        g.spec_resolve(lit.value@, referrer) is None,
    ensures
        lit_changes(g, m, pkgs, own_path, referrer, lit) == Seq::<SortKeyValue>::empty(),
{
}

/// A node with no rewritable specifier and no attributes clause: nothing in
/// it is a static import, a re-export with a source, a literal dynamic
/// import, or an attributes clause.
pub open spec fn node_plain(n: Node) -> bool
    decreases n,
{
    match n {
        Node::ImportDecl { .. } => false,
        Node::ExportAll { .. } => false,
        Node::NamedExport { src, asserts } => src is None && asserts is None,
        Node::ImportCall { src, second_arg } => src is None,
        Node::Branch { children } => nodes_plain(children@),
    }
}

pub open spec fn nodes_plain(s: Seq<Node>) -> bool
    decreases s,
{
    if s.len() == 0 {
        true
    } else {
        nodes_plain(s.drop_last()) && node_plain(s.last())
    }
}

/// A module whose tree holds no rewritable specifier and no attributes
/// clause gets no edit from the rewriter.
pub proof fn lemma_plain_node_no_changes(
    g: ModuleGraph,
    m: Mappings,
    pkgs: Seq<(ModuleSpecifier, String)>,
    own_path: Seq<Seq<char>>,
    referrer: Seq<char>,
    n: Node,
)
    requires
        node_plain(n),
    ensures
        node_changes(g, m, pkgs, own_path, referrer, n) == Seq::<SortKeyValue>::empty(),
    decreases n,
{
    match n {
        Node::NamedExport { src, asserts } => {
            assert(node_changes(g, m, pkgs, own_path, referrer, n) =~= Seq::<
                SortKeyValue,
            >::empty());
        },
        Node::Branch { children } => {
            lemma_plain_nodes_no_changes(g, m, pkgs, own_path, referrer, children@);
        },
        _ => {},
    }
}

pub proof fn lemma_plain_nodes_no_changes(
    g: ModuleGraph,
    m: Mappings,
    pkgs: Seq<(ModuleSpecifier, String)>,
    own_path: Seq<Seq<char>>,
    referrer: Seq<char>,
    s: Seq<Node>,
)
    requires
        nodes_plain(s),
    ensures
        nodes_changes(g, m, pkgs, own_path, referrer, s) == Seq::<SortKeyValue>::empty(),
    decreases s,
{
    if s.len() > 0 {
        lemma_plain_nodes_no_changes(g, m, pkgs, own_path, referrer, s.drop_last());
        lemma_plain_node_no_changes(g, m, pkgs, own_path, referrer, s.last());
        assert(nodes_changes(g, m, pkgs, own_path, referrer, s) =~= Seq::<SortKeyValue>::empty());
    }
}

/// Looks up the bare package name mapped to a specifier.
fn find_pkg<'a>(ps: &'a Vec<(ModuleSpecifier, String)>, s: &ModuleSpecifier) -> (r: Option<
    &'a String,
>)
    ensures
        match r {
            Some(t) => pkg_index(ps@, s@) >= 0 && ps@[pkg_index(ps@, s@)].1 == t,
            None => pkg_index(ps@, s@) == -1,
        },
{
    let n = ps.len();
    let mut i: usize = 0;
    while i < n
        invariant
            0 <= i <= n,
            n == ps@.len(),
            forall|j: int| 0 <= j < i ==> ps@[j].0@ != s@,
        decreases n - i,
    {
        if ps[i].0.same_as(s) {
            proof {
                lemma_pkg_index_found(ps@, s@, i as int);
            }
            return Some(&ps[i].1);
        }
        i = i + 1;
    }
    proof {
        lemma_pkg_index_absent(ps@, s@);
    }
    None
}

/// Emits the edit for one specifier literal, when its target resolves.
fn visit_module_specifier(
    specifier: &ModuleSpecifier,
    module_graph: &ModuleGraph,
    mappings: &Mappings,
    own_path: &Vec<String>,
    pkgs: &Vec<(ModuleSpecifier, String)>,
    lit: &StrLit,
    acc: &mut Vec<TextChange>,
)
    requires
        lit_wf(*lit),
        own_path@.len() >= 1,
        mappings.wf(),
    ensures
        keys_of(final(acc)@) == keys_of(old(acc)@) + lit_changes(
            *module_graph,
            *mappings,
            pkgs@,
            segs_view(own_path@),
            specifier@,
            *lit,
        ),
{
    let ghost pre = keys_of(acc@);
    let resolved = module_graph.resolve_dependency(lit.value.as_str(), specifier);
    let target = match resolved {
        Some(t) => t,
        None => {
            proof {
                assert(keys_of(acc@) =~= pre + Seq::<SortKeyValue>::empty());
            }
            return ;
        },
    };
    let new_text: String = match find_pkg(pkgs, &target) {
        Some(name) => name.clone(),
        None => {
            match mappings.get_file_path(&target) {
                Some(p) => {
                    proof {
                        crate::mappings::lemma_mapping_index_in_range(mappings.entries@, target@);
                        let idx = crate::mappings::spec_mapping_index(mappings.entries@, target@);
                        assert(segs_view(mappings.entries@[idx].path@)
                            == crate::mappings::spec_path_of(
                            mappings.entries@[idx].specifier@,
                        ));
                        crate::mappings::lemma_path_of_nonempty(target@);
                        assert(segs_view(p@).len() >= 1);
                    }
                    get_relative_specifier(own_path, p)
                },
                None => {
                    proof {
                        assert(keys_of(acc@) =~= pre + Seq::<SortKeyValue>::empty());
                    }
                    return ;
                },
            }
        },
    };
    let ghost k = (lit.lo + 1 as int, lit.hi - 1 as int, new_text@, Seq::<char>::empty());
    acc.push(TextChange { start: lit.lo + 1, end: lit.hi - 1, new_text });
    proof {
        assert(keys_of(acc@) =~= pre.push(k));
        assert(pre.push(k) =~= pre + seq![k]);
    }
}

/// Walks one node, appending its edits to the accumulator.
fn visit_node(
    specifier: &ModuleSpecifier,
    module_graph: &ModuleGraph,
    mappings: &Mappings,
    own_path: &Vec<String>,
    pkgs: &Vec<(ModuleSpecifier, String)>,
    node: &Node,
    acc: &mut Vec<TextChange>,
)
    requires
        node_wf(*node),
        own_path@.len() >= 1,
        mappings.wf(),
    ensures
        keys_of(final(acc)@) == keys_of(old(acc)@) + node_changes(
            *module_graph,
            *mappings,
            pkgs@,
            segs_view(own_path@),
            specifier@,
            *node,
        ),
    decreases *node,
{
    let ghost pre = keys_of(acc@);
    let ghost ctx_changes = node_changes(
        *module_graph,
        *mappings,
        pkgs@,
        segs_view(own_path@),
        specifier@,
        *node,
    );
    match node {
        Node::ImportDecl { src, asserts } => {
            visit_module_specifier(specifier, module_graph, mappings, own_path, pkgs, src, acc);
            match asserts {
                Some(a) => {
                    let ghost mid = keys_of(acc@);
                    let empty_text = String::new();
                    acc.push(
                        TextChange { start: a.prev_end, end: a.end, new_text: empty_text },
                    );
                    proof {
                        assert(keys_of(acc@) =~= mid.push(asserts_change(*a)));
                        assert(keys_of(acc@) =~= pre + ctx_changes);
                    }
                },
                None => {
                    proof {
                        assert(keys_of(acc@) =~= pre + ctx_changes);
                    }
                },
            }
        },
        Node::ExportAll { src, asserts } => {
            visit_module_specifier(specifier, module_graph, mappings, own_path, pkgs, src, acc);
            match asserts {
                Some(a) => {
                    let ghost mid = keys_of(acc@);
                    let empty_text = String::new();
                    acc.push(
                        TextChange { start: a.prev_end, end: a.end, new_text: empty_text },
                    );
                    proof {
                        assert(keys_of(acc@) =~= mid.push(asserts_change(*a)));
                        assert(keys_of(acc@) =~= pre + ctx_changes);
                    }
                },
                None => {
                    proof {
                        assert(keys_of(acc@) =~= pre + ctx_changes);
                    }
                },
            }
        },
        Node::NamedExport { src, asserts } => {
            match src {
                Some(l) => {
                    visit_module_specifier(
                        specifier,
                        module_graph,
                        mappings,
                        own_path,
                        pkgs,
                        l,
                        acc,
                    );
                },
                None => {},
            }
            match asserts {
                Some(a) => {
                    let ghost mid = keys_of(acc@);
                    let empty_text = String::new();
                    acc.push(
                        TextChange { start: a.prev_end, end: a.end, new_text: empty_text },
                    );
                    proof {
                        assert(keys_of(acc@) =~= mid.push(asserts_change(*a)));
                        assert(keys_of(acc@) =~= pre + ctx_changes);
                    }
                },
                None => {
                    proof {
                        assert(keys_of(acc@) =~= pre + ctx_changes);
                    }
                },
            }
        },
        Node::ImportCall { src, second_arg } => {
            match src {
                Some(l) => {
                    visit_module_specifier(
                        specifier,
                        module_graph,
                        mappings,
                        own_path,
                        pkgs,
                        l,
                        acc,
                    );
                    match second_arg {
                        Some(sa) => {
                            let ghost mid = keys_of(acc@);
                            let empty_text = String::new();
                            acc.push(
                                TextChange {
                                    start: sa.comma_pos,
                                    end: sa.end,
                                    new_text: empty_text,
                                },
                            );
                            proof {
                                assert(keys_of(acc@) =~= mid.push(second_arg_change(*sa)));
                                assert(keys_of(acc@) =~= pre + ctx_changes);
                            }
                        },
                        None => {
                            proof {
                                assert(keys_of(acc@) =~= pre + ctx_changes);
                            }
                        },
                    }
                },
                None => {
                    proof {
                        assert(keys_of(acc@) =~= pre + ctx_changes);
                    }
                },
            }
        },
        Node::Branch { children } => {
            let n = children.len();
            let mut i: usize = 0;
            proof {
                assert(children@.take(0) =~= Seq::<Node>::empty());
                assert(keys_of(acc@) =~= pre + nodes_changes(
                    *module_graph,
                    *mappings,
                    pkgs@,
                    segs_view(own_path@),
                    specifier@,
                    children@.take(0),
                ));
            }
            while i < n
                invariant
                    0 <= i <= n,
                    n == children@.len(),
                    *node is Branch,
                    (*node)->Branch_children == *children,
                    nodes_wf(children@),
                    own_path@.len() >= 1,
                    mappings.wf(),
                    keys_of(acc@) == pre + nodes_changes(
                        *module_graph,
                        *mappings,
                        pkgs@,
                        segs_view(own_path@),
                        specifier@,
                        children@.take(i as int),
                    ),
                decreases n - i,
            {
                proof {
                    broadcast use vstd::std_specs::vec::axiom_vec_index_decreases;

                    lemma_nodes_wf_index(children@, i as int);
                    assert(children@.take(i as int + 1).drop_last() =~= children@.take(i as int));
                    assert(children@.take(i as int + 1).last() == children@[i as int]);
                    assert((*node)->Branch_children == *children);
                    assert(decreases_to!(*node => (*node)->Branch_children));
                    assert(decreases_to!(*children => children@[i as int]));
                }
                let ghost before = keys_of(acc@);
                visit_node(
                    specifier,
                    module_graph,
                    mappings,
                    own_path,
                    pkgs,
                    &children[i],
                    acc,
                );
                proof {
                    assert(keys_of(acc@) =~= pre + nodes_changes(
                        *module_graph,
                        *mappings,
                        pkgs@,
                        segs_view(own_path@),
                        specifier@,
                        children@.take(i as int + 1),
                    ));
                }
                i = i + 1;
            }
            proof {
                assert(children@.take(n as int) =~= children@);
            }
        },
    }
}

/// Every element of a well-formed node sequence is well formed.
proof fn lemma_nodes_wf_index(s: Seq<Node>, i: int)
    requires
        nodes_wf(s),
        0 <= i < s.len(),
    ensures
        node_wf(s[i]),
    decreases s.len(),
{
    if i < s.len() - 1 {
        assert(s.drop_last()[i] == s[i]);
        lemma_nodes_wf_index(s.drop_last(), i);
    }
}

/// The inputs of one rewriter run over one module's syntax tree.
pub struct GetImportExportsTextChangesParams<'a> {
    pub specifier: &'a ModuleSpecifier,
    pub module_graph: &'a ModuleGraph,
    pub mappings: &'a Mappings,
    pub program: &'a Node,
    pub package_specifier_mappings: &'a Vec<(ModuleSpecifier, String)>,
}

/// Produces the text edits that rewrite this module's import and export
/// specifiers and strip its import-attribute clauses.
pub fn get_import_exports_text_changes(params: &GetImportExportsTextChangesParams<'_>) -> (r: Vec<
    TextChange,
>)
    requires
        node_wf(*params.program),
        params.mappings.wf(),
    ensures
        keys_of(r@) == module_import_export_changes(
            *params.module_graph,
            *params.mappings,
            params.package_specifier_mappings@,
            params.specifier@,
            *params.program,
        ),
{
    let mut changes: Vec<TextChange> = Vec::new();
    let own_path = match params.mappings.get_file_path(params.specifier) {
        Some(p) => p,
        None => {
            proof {
                assert(keys_of(changes@) =~= Seq::<SortKeyValue>::empty());
            }
            return changes;
        },
    };
    proof {
        crate::mappings::lemma_mapping_index_in_range(params.mappings.entries@, params.specifier@);
        let idx = crate::mappings::spec_mapping_index(params.mappings.entries@, params.specifier@);
        assert(segs_view(params.mappings.entries@[idx].path@) == crate::mappings::spec_path_of(
            params.mappings.entries@[idx].specifier@,
        ));
        crate::mappings::lemma_path_of_nonempty(params.specifier@);
        assert(keys_of(changes@) =~= Seq::<SortKeyValue>::empty());
    }
    visit_node(
        params.specifier,
        params.module_graph,
        params.mappings,
        own_path,
        params.package_specifier_mappings,
        params.program,
        &mut changes,
    );
    proof {
        assert(Seq::<SortKeyValue>::empty() + module_import_export_changes(
            *params.module_graph,
            *params.mappings,
            params.package_specifier_mappings@,
            params.specifier@,
            *params.program,
        ) =~= module_import_export_changes(
            *params.module_graph,
            *params.mappings,
            params.package_specifier_mappings@,
            params.specifier@,
            *params.program,
        ));
    }
    changes
}

} // verus!
