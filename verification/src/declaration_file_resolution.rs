//! Declaration-file resolution: collapses all candidate type-declaration
//! references for each code module into exactly one selection plus an
//! ordered set of ignored candidates.
//!
//! Selection is deterministic and order-independent: candidates are
//! deduplicated, brought into their unique sorted order, and compared
//! pairwise. A candidate whose referrer is local beats a remote one; among
//! equally-local referrers one that equals the code specifier itself beats
//! any other; as a last resort the candidate whose declaration file has the
//! longer source text wins, the earlier candidate on a tie.

use vstd::prelude::*;

use crate::error::TransformError;
use crate::graph::{Module, ModuleGraph, TypesRef};
use crate::ordering::{
    key_le, keys_of, lemma_spec_sorted_of_multiset, sort_by_sort_key, spec_sorted, SortKeyValue,
    SortOrdered,
};
use crate::specifier::{is_file_scheme, ModuleSpecifier};
use crate::strings::{str_eq, str_le};

verus! {

/// A candidate declaration file (`specifier`) together with the module that
/// named it (`referrer`).
#[derive(Debug)]
pub struct TypesDependency {
    /// The declaration file being specified.
    pub specifier: ModuleSpecifier,
    /// The module that specified it.
    pub referrer: ModuleSpecifier,
}

/// The ordering key of a candidate: its declaration-file specifier, then
/// its referrer. Two candidates are the same dependency exactly when their
/// keys are equal.
pub open spec fn td_key(d: TypesDependency) -> SortKeyValue {
    (0, 0, d.specifier@, d.referrer@)
}

impl SortOrdered for TypesDependency {
    open spec fn sort_key(&self) -> SortKeyValue {
        td_key(*self)
    }

    fn key_le_exec(&self, other: &Self) -> (r: bool)
        ensures
            r == key_le(self.sort_key(), other.sort_key()),
    {
        if str_eq(self.specifier.text.as_str(), other.specifier.text.as_str()) {
            if str_eq(self.referrer.text.as_str(), other.referrer.text.as_str()) {
                proof {
                    crate::strings::lemma_chars_le_reflexive(self.referrer.text@);
                }
                true
            } else {
                str_le(self.referrer.text.as_str(), other.referrer.text.as_str())
            }
        } else {
            str_le(self.specifier.text.as_str(), other.specifier.text.as_str())
        }
    }
}

impl TypesDependency {
    pub fn duplicate(&self) -> (r: TypesDependency)
        ensures
            td_key(r) == td_key(*self),
            r.specifier@ == self.specifier@,
            r.referrer@ == self.referrer@,
    {
        TypesDependency {
            specifier: self.specifier.duplicate(),
            referrer: self.referrer.duplicate(),
        }
    }
}

/// The resolution for one code module: the selected declaration dependency
/// and the candidates that were ignored, sorted for deterministic
/// diagnostics.
#[derive(Debug)]
pub struct DeclarationFileResolution {
    pub selected: TypesDependency,
    /// Specified declaration dependencies that were ignored.
    pub ignored: Vec<TypesDependency>,
}

/// One code module's resolution, keyed by the code module's specifier.
#[derive(Debug)]
pub struct TypesResolutionEntry {
    pub code_specifier: ModuleSpecifier,
    pub resolution: DeclarationFileResolution,
}

/// Whether candidate `dep` replaces the currently selected candidate `sel`
/// for the code module `code`. Keys stand for candidates: `.2` is the
/// declaration-file specifier, `.3` the referrer.
pub open spec fn key_replaces(
    g: ModuleGraph,
    code: Seq<char>,
    dep: SortKeyValue,
    sel: SortKeyValue,
) -> bool {
    let dep_local = is_file_scheme(dep.3);
    let sel_local = is_file_scheme(sel.3);
    if dep_local && !sel_local {
        true
    } else if dep_local != sel_local {
        false
    } else if sel.3 == code {
        false
    } else if dep.3 == code {
        true
    } else {
        g.spec_source_len(dep.2) > g.spec_source_len(sel.2)
    }
}

/// The candidate selected from a non-empty candidate sequence: a running
/// best is kept, starting from the first candidate, and each later
/// candidate replaces it only when `key_replaces` holds.
pub open spec fn spec_select_key(g: ModuleGraph, code: Seq<char>, ks: Seq<SortKeyValue>) -> SortKeyValue
    decreases ks.len(),
{
    if ks.len() <= 1 {
        ks[0]
    } else {
        let prev = spec_select_key(g, code, ks.drop_last());
        if key_replaces(g, code, ks.last(), prev) {
            ks.last()
        } else {
            prev
        }
    }
}

/// Selects the best declaration dependency among the candidates for one
/// code module, by referrer locality, then self-reference, then the byte
/// length of the declaration file's source text.
pub fn select_best_types_dep(
    module_graph: &ModuleGraph,
    code_specifier: &ModuleSpecifier,
    deps: &Vec<TypesDependency>,
) -> (r: TypesDependency)
    requires
        deps@.len() > 0,
        module_graph.source_lens_fit(),
    ensures
        td_key(r) == spec_select_key(*module_graph, code_specifier@, keys_of(deps@)),
{
    let ghost all = keys_of(deps@);
    let n = deps.len();
    let mut si: usize = 0;
    let mut i: usize = 1;
    proof {
        assert(all[0] == deps@[0].sort_key());
        assert(all.take(1) =~= seq![all[0]]);
    }
    while i < n
        invariant
            0 <= si < i <= n,
            n == deps@.len(),
            module_graph.source_lens_fit(),
            all == keys_of(deps@),
            td_key(deps@[si as int]) == spec_select_key(
                *module_graph,
                code_specifier@,
                all.take(i as int),
            ),
        decreases n - i,
    {
        assert(all[i as int] == deps@[i as int].sort_key());
        assert(all[si as int] == deps@[si as int].sort_key());
        let dep = &deps[i];
        let sel = &deps[si];
        let is_dep_referrer_local = dep.referrer.is_local();
        let is_dep_referrer_code = dep.referrer.same_as(code_specifier);
        let is_selected_referrer_local = sel.referrer.is_local();
        let is_selected_referrer_code = sel.referrer.same_as(code_specifier);

        let should_replace = if is_dep_referrer_local && !is_selected_referrer_local {
            true
        } else if is_dep_referrer_local == is_selected_referrer_local {
            if is_selected_referrer_code {
                false
            } else if is_dep_referrer_code {
                true
            } else {
                // as a last resort, use the declaration file that's the largest
                let dep_file_len = module_graph.source_text_len(&dep.specifier);
                let selected_dep_file_len = module_graph.source_text_len(&sel.specifier);
                dep_file_len > selected_dep_file_len
            }
        } else {
            false
        };
        proof {
            assert(should_replace == key_replaces(
                *module_graph,
                code_specifier@,
                all[i as int],
                all[si as int],
            ));
            assert(all.take(i as int + 1).drop_last() =~= all.take(i as int));
            assert(all.take(i as int + 1).last() == all[i as int]);
        }
        if should_replace {
            si = i;
        }
        i = i + 1;
    }
    proof {
        assert(all.take(n as int) =~= all);
    }
    deps[si].duplicate()
}

/// The candidates gathered for one code module while the graph is scanned.
#[derive(Debug)]
pub struct TypesGroup {
    pub code: ModuleSpecifier,
    pub deps: Vec<TypesDependency>,
}

/// The view of one candidate group: the code specifier and the candidate
/// keys in encounter order.
pub type GroupView = (Seq<char>, Seq<SortKeyValue>);

pub open spec fn group_view(g: TypesGroup) -> GroupView {
    (g.code@, keys_of(g.deps@))
}

pub open spec fn groups_view(gs: Seq<TypesGroup>) -> Seq<GroupView> {
    gs.map_values(|g: TypesGroup| group_view(g))
}

/// The first index whose group is keyed by `code`, or -1.
pub open spec fn spec_group_index(gs: Seq<GroupView>, code: Seq<char>) -> int
    decreases gs.len(),
{
    if gs.len() == 0 {
        -1
    } else if gs[0].0 == code {
        0
    } else {
        let r = spec_group_index(gs.drop_first(), code);
        if r < 0 {
            -1
        } else {
            r + 1
        }
    }
}

pub proof fn lemma_group_index_found(gs: Seq<GroupView>, code: Seq<char>, i: int)
    requires
        0 <= i < gs.len(),
        gs[i].0 == code,
        forall|j: int| 0 <= j < i ==> gs[j].0 != code,
    ensures
        spec_group_index(gs, code) == i,
    decreases i,
{
    if i > 0 {
        lemma_group_index_found(gs.drop_first(), code, i - 1);
    }
}

pub proof fn lemma_group_index_absent(gs: Seq<GroupView>, code: Seq<char>)
    requires
        forall|j: int| 0 <= j < gs.len() ==> gs[j].0 != code,
    ensures
        spec_group_index(gs, code) == -1,
    decreases gs.len(),
{
    if gs.len() > 0 {
        lemma_group_index_absent(gs.drop_first(), code);
    }
}

pub proof fn lemma_group_index_in_range(gs: Seq<GroupView>, code: Seq<char>)
    ensures
        -1 <= spec_group_index(gs, code) < gs.len(),
        spec_group_index(gs, code) >= 0 ==> gs[spec_group_index(gs, code)].0 == code,
    decreases gs.len(),
{
    if gs.len() > 0 && gs[0].0 != code {
        lemma_group_index_in_range(gs.drop_first(), code);
    }
}

pub proof fn lemma_group_index_neg(gs: Seq<GroupView>, code: Seq<char>)
    requires
        spec_group_index(gs, code) == -1,
    ensures
        forall|j: int| 0 <= j < gs.len() ==> (#[trigger] gs[j]).0 != code,
    decreases gs.len(),
{
    if gs.len() > 0 {
        lemma_group_index_in_range(gs.drop_first(), code);
        lemma_group_index_neg(gs.drop_first(), code);
        assert forall|j: int| 0 <= j < gs.len() implies (#[trigger] gs[j]).0 != code by {
            if j > 0 {
                assert(gs.drop_first()[j - 1] == gs[j]);
            }
        }
    }
}

/// One candidate: the code specifier it is recorded under, and its key.
pub type CandidateView = (Seq<char>, SortKeyValue);

/// The candidates contributed by a module's outgoing dependencies: one for
/// every dependency that carries both a code and a type target, keyed by
/// the code target, with the module itself as referrer.
pub open spec fn dep_candidates(deps: Seq<crate::graph::DependencyEntry>, referrer: Seq<char>) -> Seq<
    CandidateView,
>
    decreases deps.len(),
{
    if deps.len() == 0 {
        Seq::empty()
    } else {
        let rest = dep_candidates(deps.drop_last(), referrer);
        match (deps.last().code, deps.last().types) {
            (Some(c), Some(t)) => rest.push((c@, (0int, 0int, t@, referrer))),
            _ => rest,
        }
    }
}

/// All candidates contributed by one module: its own resolved type
/// reference, then its dependency-carried references.
pub open spec fn module_candidates(m: Module) -> Seq<CandidateView> {
    let own = match m.types_ref {
        TypesRef::Resolved { text, specifier } => seq![
            (m.specifier@, (0int, 0int, specifier@, m.specifier@)),
        ],
        _ => Seq::empty(),
    };
    own + dep_candidates(m.deps@, m.specifier@)
}

/// All candidates contributed by a sequence of modules, in order.
pub open spec fn graph_candidates(ms: Seq<Module>) -> Seq<CandidateView>
    decreases ms.len(),
{
    if ms.len() == 0 {
        Seq::empty()
    } else {
        graph_candidates(ms.drop_last()) + module_candidates(ms.last())
    }
}

/// Records one candidate: appended to its code specifier's group, a new
/// group when none exists yet, and dropped when the group already holds the
/// same candidate (set semantics).
pub open spec fn spec_add_candidate(gs: Seq<GroupView>, c: CandidateView) -> Seq<GroupView> {
    let i = spec_group_index(gs, c.0);
    if i < 0 {
        gs.push((c.0, seq![c.1]))
    } else if gs[i].1.contains(c.1) {
        gs
    } else {
        gs.update(i, (gs[i].0, gs[i].1.push(c.1)))
    }
}

/// Records a sequence of candidates in order.
pub open spec fn spec_add_candidates(gs: Seq<GroupView>, cs: Seq<CandidateView>) -> Seq<GroupView>
    decreases cs.len(),
{
    if cs.len() == 0 {
        gs
    } else {
        spec_add_candidate(spec_add_candidates(gs, cs.drop_last()), cs.last())
    }
}

pub proof fn lemma_add_candidates_concat(
    gs: Seq<GroupView>,
    a: Seq<CandidateView>,
    b: Seq<CandidateView>,
)
    ensures
        spec_add_candidates(gs, a + b) == spec_add_candidates(spec_add_candidates(gs, a), b),
    decreases b.len(),
{
    if b.len() == 0 {
        assert(a + b =~= a);
    } else {
        assert((a + b).drop_last() =~= a + b.drop_last());
        assert((a + b).last() == b.last());
        lemma_add_candidates_concat(gs, a, b.drop_last());
    }
}

/// Every group gathered from candidates holds at least one candidate.
pub open spec fn groups_nonempty(gs: Seq<GroupView>) -> bool {
    forall|i: int| 0 <= i < gs.len() ==> (#[trigger] gs[i]).1.len() > 0
}

pub proof fn lemma_add_candidate_nonempty(gs: Seq<GroupView>, c: CandidateView)
    requires
        groups_nonempty(gs),
    ensures
        groups_nonempty(spec_add_candidate(gs, c)),
{
    let r = spec_add_candidate(gs, c);
    assert forall|i: int| 0 <= i < r.len() implies (#[trigger] r[i]).1.len() > 0 by {
        lemma_group_index_in_range(gs, c.0);
        let gi = spec_group_index(gs, c.0);
        if gi < 0 {
            if i < gs.len() {
                assert(r[i] == gs[i]);
            } else {
                assert(r[i] == (c.0, seq![c.1]));
            }
        } else if gs[gi].1.contains(c.1) {
            assert(r[i] == gs[i]);
        } else {
            if i != gi {
                assert(r[i] == gs[i]);
            } else {
                assert(r[i].1 == gs[gi].1.push(c.1));
            }
        }
    }
}

pub proof fn lemma_add_candidates_nonempty(gs: Seq<GroupView>, cs: Seq<CandidateView>)
    requires
        groups_nonempty(gs),
    ensures
        groups_nonempty(spec_add_candidates(gs, cs)),
    decreases cs.len(),
{
    if cs.len() > 0 {
        lemma_add_candidates_nonempty(gs, cs.drop_last());
        lemma_add_candidate_nonempty(spec_add_candidates(gs, cs.drop_last()), cs.last());
    }
}

/// The keys of a candidate sequence whose declaration-file specifier is not
/// the given one, in order: the ignored candidates once one is selected.
pub open spec fn keys_excluding(ks: Seq<SortKeyValue>, selected_specifier: Seq<char>) -> Seq<
    SortKeyValue,
>
    decreases ks.len(),
{
    if ks.len() == 0 {
        Seq::empty()
    } else {
        let rest = keys_excluding(ks.drop_last(), selected_specifier);
        if ks.last().2 == selected_specifier {
            rest
        } else {
            rest.push(ks.last())
        }
    }
}

/// The candidate groups gathered from the whole module arena.
pub open spec fn resolution_groups(g: ModuleGraph) -> Seq<GroupView> {
    spec_add_candidates(Seq::empty(), graph_candidates(g.modules@))
}

/// The code-specifier keys of a group sequence.
pub open spec fn group_code_keys(gs: Seq<GroupView>) -> Seq<SortKeyValue> {
    gs.map_values(|p: GroupView| (0int, 0int, p.0, Seq::<char>::empty()))
}

/// What one resolution entry must hold: its code specifier names a gathered
/// group, its selection is the one computed from that group's sorted
/// candidate keys, and its ignored list holds the group's other
/// declaration-file specifiers in sorted order.
pub open spec fn entry_ok(g: ModuleGraph, e: TypesResolutionEntry) -> bool {
    let gv = resolution_groups(g);
    let gi = spec_group_index(gv, e.code_specifier@);
    gi >= 0 && {
        let sorted = spec_sorted(gv[gi].1);
        let sel = spec_select_key(g, e.code_specifier@, sorted);
        td_key(e.resolution.selected) == sel && keys_of(e.resolution.ignored@) == keys_excluding(
            sorted,
            sel.2,
        )
    }
}

/// Whether the error reports a module whose own declared type reference
/// failed to resolve, with that module's data.
pub open spec fn failure_matches(g: ModuleGraph, e: TransformError) -> bool {
    match e {
        TransformError::TypesResolutionFailure { specifier, reference, error } => exists|mi: int|
            0 <= mi < g.modules@.len() && match #[trigger] g.modules@[mi].types_ref {
                TypesRef::Failed { text, error: cause } => g.modules@[mi].specifier@ == specifier@
                    && text@ == reference@ && cause@ == error@,
                _ => false,
            },
        _ => false,
    }
}

/// Permuting the candidates gathered for a code module does not change the
/// selected declaration: selection runs on the unique sorted arrangement of
/// the candidate keys, which depends only on which candidates were found.
pub proof fn lemma_selection_order_independent(
    g: ModuleGraph,
    code: Seq<char>,
    a: Seq<SortKeyValue>,
    b: Seq<SortKeyValue>,
)
    requires
        a.to_multiset() == b.to_multiset(),
    ensures
        spec_select_key(g, code, spec_sorted(a)) == spec_select_key(g, code, spec_sorted(b)),
{
    lemma_spec_sorted_of_multiset(a, b);
}

/// A candidate with a local referrer is selected over one with a remote
/// referrer, in either encounter order and regardless of file sizes.
pub proof fn lemma_selection_prefers_local_referrer(
    g: ModuleGraph,
    code: Seq<char>,
    a: SortKeyValue,
    b: SortKeyValue,
)
    requires
        is_file_scheme(a.3),
        !is_file_scheme(b.3),
    ensures
        spec_select_key(g, code, seq![a, b]) == a,
        spec_select_key(g, code, seq![b, a]) == a,
{
    assert(seq![a, b].drop_last() =~= seq![a]);
    assert(seq![b, a].drop_last() =~= seq![b]);
    assert(spec_select_key(g, code, seq![a]) == a);
    assert(spec_select_key(g, code, seq![b]) == b);
}

/// Among candidates whose referrers are equally local or remote, one whose
/// referrer is the code module itself is selected over any other, in either
/// encounter order and regardless of file sizes.
pub proof fn lemma_selection_prefers_self_referrer(
    g: ModuleGraph,
    code: Seq<char>,
    a: SortKeyValue,
    b: SortKeyValue,
)
    requires
        is_file_scheme(a.3) == is_file_scheme(b.3),
        a.3 == code,
        b.3 != code,
    ensures
        spec_select_key(g, code, seq![a, b]) == a,
        spec_select_key(g, code, seq![b, a]) == a,
{
    assert(seq![a, b].drop_last() =~= seq![a]);
    assert(seq![b, a].drop_last() =~= seq![b]);
    assert(spec_select_key(g, code, seq![a]) == a);
    assert(spec_select_key(g, code, seq![b]) == b);
}

/// Among two remote, non-self candidates the one whose declaration file has
/// the strictly longer source text is selected; on a tie the earlier
/// candidate is kept, deterministically.
pub proof fn lemma_selection_size_tie_break(
    g: ModuleGraph,
    code: Seq<char>,
    a: SortKeyValue,
    b: SortKeyValue,
)
    requires
        !is_file_scheme(a.3),
        !is_file_scheme(b.3),
        a.3 != code,
        b.3 != code,
    ensures
        g.spec_source_len(a.2) > g.spec_source_len(b.2) ==> spec_select_key(g, code, seq![a, b])
            == a && spec_select_key(g, code, seq![b, a]) == a,
        g.spec_source_len(a.2) == g.spec_source_len(b.2) ==> spec_select_key(g, code, seq![a, b])
            == a && spec_select_key(g, code, seq![b, a]) == b,
{
    assert(seq![a, b].drop_last() =~= seq![a]);
    assert(seq![b, a].drop_last() =~= seq![b]);
    assert(spec_select_key(g, code, seq![a]) == a);
    assert(spec_select_key(g, code, seq![b]) == b);
}

/// Records one candidate declaration dependency under its code specifier,
/// deduplicating equal candidates.
fn add_type_dependency(
    groups: &mut Vec<TypesGroup>,
    code: &ModuleSpecifier,
    types: &ModuleSpecifier,
    referrer: &ModuleSpecifier,
)
    ensures
        groups_view(final(groups)@) == spec_add_candidate(
            groups_view(old(groups)@),
            (code@, (0int, 0int, types@, referrer@)),
        ),
{
    let ghost gv0 = groups_view(old(groups)@);
    let ghost ck = (code@, (0int, 0int, types@, referrer@));
    let n = groups.len();
    let mut gi: usize = 0;
    while gi < n
        invariant
            0 <= gi <= n,
            n == groups@.len(),
            groups@ == old(groups)@,
            gv0 == groups_view(groups@),
            ck == (code@, (0int, 0int, types@, referrer@)),
            forall|j: int| 0 <= j < gi ==> groups@[j].code@ != code@,
        decreases n - gi,
    {
        assert(gv0[gi as int] == group_view(groups@[gi as int]));
        if groups[gi].code.same_as(code) {
            proof {
                assert(forall|j: int|
                    0 <= j < gi ==> (#[trigger] gv0[j]) == group_view(groups@[j]) && gv0[j].0
                        != code@);
                lemma_group_index_found(gv0, code@, gi as int);
            }
            let nd = groups[gi].deps.len();
            let mut k: usize = 0;
            while k < nd
                invariant
                    0 <= k <= nd,
                    gi < n,
                    n == groups@.len(),
                    groups@ == old(groups)@,
                    gv0 == groups_view(groups@),
                    ck == (code@, (0int, 0int, types@, referrer@)),
                    spec_group_index(gv0, code@) == gi as int,
                    gv0[gi as int] == group_view(groups@[gi as int]),
                    nd == groups@[gi as int].deps@.len(),
                    forall|m: int|
                        0 <= m < k ==> td_key(#[trigger] groups@[gi as int].deps@[m]) != ck.1,
                decreases nd - k,
            {
                assert(keys_of(groups@[gi as int].deps@)[k as int] == td_key(
                    groups@[gi as int].deps@[k as int],
                ));
                let d = &groups[gi].deps[k];
                if str_eq(d.specifier.text.as_str(), types.text.as_str()) && str_eq(
                    d.referrer.text.as_str(),
                    referrer.text.as_str(),
                ) {
                    // the same candidate is already recorded: set semantics
                    proof {
                        assert(gv0[gi as int].1[k as int] == ck.1);
                        assert(gv0[gi as int].1.contains(ck.1));
                        assert(spec_add_candidate(gv0, ck) == gv0);
                    }
                    return ;
                }
                k = k + 1;
            }
            proof {
                assert forall|m: int| 0 <= m < gv0[gi as int].1.len() implies (#[trigger] gv0[gi
                    as int].1[m]) != ck.1 by {
                    assert(gv0[gi as int].1[m] == td_key(groups@[gi as int].deps@[m]));
                }
                assert(!gv0[gi as int].1.contains(ck.1));
            }
            let ghost pre = groups@;
            let mut g = groups.remove(gi);
            g.deps.push(
                TypesDependency { specifier: types.duplicate(), referrer: referrer.duplicate() },
            );
            groups.insert(gi, g);
            proof {
                assert(groups@ =~= pre.update(
                    gi as int,
                    TypesGroup { code: pre[gi as int].code, deps: groups@[gi as int].deps },
                ));
                assert(keys_of(groups@[gi as int].deps@) =~= gv0[gi as int].1.push(ck.1));
                assert(groups_view(groups@) =~= gv0.update(
                    gi as int,
                    (gv0[gi as int].0, gv0[gi as int].1.push(ck.1)),
                ));
            }
            return ;
        }
        gi = gi + 1;
    }
    proof {
        assert(forall|j: int|
            0 <= j < gv0.len() ==> (#[trigger] gv0[j]) == group_view(groups@[j]) && gv0[j].0
                != code@);
        lemma_group_index_absent(gv0, code@);
    }
    let mut ds: Vec<TypesDependency> = Vec::new();
    ds.push(TypesDependency { specifier: types.duplicate(), referrer: referrer.duplicate() });
    let ghost dsv = ds@;
    groups.push(TypesGroup { code: code.duplicate(), deps: ds });
    proof {
        assert(keys_of(dsv) =~= seq![ck.1]);
        assert(groups_view(groups@) =~= gv0.push((ck.0, seq![ck.1])));
    }
}

/// Gathers the candidate type dependencies a module contributes: its own
/// resolved type reference, and one candidate per outgoing dependency that
/// carries both a code and a type target. A failed own reference aborts the
/// run.
pub fn fill_types_for_module(module: &Module, groups: &mut Vec<TypesGroup>) -> (r: Result<
    (),
    TransformError,
>)
    ensures
        match r {
            Ok(()) => !(module.types_ref is Failed) && groups_view(final(groups)@)
                == spec_add_candidates(groups_view(old(groups)@), module_candidates(*module)),
            Err(e) => final(groups)@ == old(groups)@ && match (e, module.types_ref) {
                (
                    TransformError::TypesResolutionFailure { specifier, reference, error },
                    TypesRef::Failed { text, error: cause },
                ) => specifier@ == module.specifier@ && reference@ == text@ && error@ == cause@,
                _ => false,
            },
        },
{
    let ghost gv0 = groups_view(old(groups)@);
    let ghost own = match &module.types_ref {
        TypesRef::Resolved { text: _, specifier } => seq![
            (module.specifier@, (0int, 0int, specifier@, module.specifier@)),
        ],
        _ => Seq::<CandidateView>::empty(),
    };
    // check for the module specifying its own type dependency
    match &module.types_ref {
        TypesRef::Failed { text, error } => {
            return Err(
                TransformError::TypesResolutionFailure {
                    specifier: module.specifier.duplicate(),
                    reference: text.clone(),
                    error: error.clone(),
                },
            );
        },
        TypesRef::Resolved { text: _, specifier } => {
            add_type_dependency(groups, &module.specifier, specifier, &module.specifier);
            proof {
                let ck = (module.specifier@, (0int, 0int, specifier@, module.specifier@));
                assert(own.last() == ck);
                assert(own.drop_last() =~= Seq::<CandidateView>::empty());
                assert(spec_add_candidates(gv0, Seq::<CandidateView>::empty()) == gv0);
                assert(spec_add_candidates(gv0, own) == spec_add_candidate(gv0, ck));
                assert(groups_view(groups@) == spec_add_candidates(gv0, own));
            }
        },
        TypesRef::NoRef => {
            proof {
                assert(spec_add_candidates(gv0, Seq::<CandidateView>::empty()) == gv0);
                assert(own =~= Seq::<CandidateView>::empty());
                assert(groups_view(groups@) == spec_add_candidates(gv0, own));
            }
        },
    }
    // find the dependency-carried type references
    let nd = module.deps.len();
    let mut j: usize = 0;
    proof {
        assert(module.deps@.take(0) =~= Seq::<crate::graph::DependencyEntry>::empty());
        assert(own + dep_candidates(module.deps@.take(0), module.specifier@) =~= own);
    }
    while j < nd
        invariant
            0 <= j <= nd,
            nd == module.deps@.len(),
            own == (match module.types_ref {
                TypesRef::Resolved { text, specifier } => seq![
                    (module.specifier@, (0int, 0int, specifier@, module.specifier@)),
                ],
                _ => Seq::<CandidateView>::empty(),
            }),
            gv0 == groups_view(old(groups)@),
            groups_view(groups@) == spec_add_candidates(
                gv0,
                own + dep_candidates(module.deps@.take(j as int), module.specifier@),
            ),
        decreases nd - j,
    {
        let ghost cands = own + dep_candidates(module.deps@.take(j as int), module.specifier@);
        proof {
            assert(module.deps@.take(j as int + 1).drop_last() =~= module.deps@.take(j as int));
            assert(module.deps@.take(j as int + 1).last() == module.deps@[j as int]);
        }
        let entry = &module.deps[j];
        match (&entry.code, &entry.types) {
            (Some(code_dep), Some(type_dep)) => {
                add_type_dependency(groups, code_dep, type_dep, &module.specifier);
                proof {
                    let ck = (code_dep@, (0int, 0int, type_dep@, module.specifier@));
                    assert(dep_candidates(module.deps@.take(j as int + 1), module.specifier@)
                        == dep_candidates(module.deps@.take(j as int), module.specifier@).push(ck));
                    let next = own + dep_candidates(
                        module.deps@.take(j as int + 1),
                        module.specifier@,
                    );
                    assert(next =~= cands.push(ck));
                    assert(next.drop_last() =~= cands);
                    assert(next.last() == ck);
                }
            },
            _ => {
                proof {
                    assert(dep_candidates(module.deps@.take(j as int + 1), module.specifier@)
                        == dep_candidates(module.deps@.take(j as int), module.specifier@));
                    assert(own + dep_candidates(module.deps@.take(j as int + 1), module.specifier@)
                        =~= cands);
                }
            },
        }
        j = j + 1;
    }
    proof {
        assert(module.deps@.take(nd as int) =~= module.deps@);
    }
    Ok(())
}

/// Finds the group keyed by this code specifier.
fn find_group(groups: &Vec<TypesGroup>, code: &ModuleSpecifier) -> (r: Option<usize>)
    ensures
        match r {
            Some(i) => spec_group_index(groups_view(groups@), code@) == i as int && (i as int)
                < groups@.len(),
            None => spec_group_index(groups_view(groups@), code@) == -1,
        },
{
    let ghost gv = groups_view(groups@);
    let n = groups.len();
    let mut i: usize = 0;
    while i < n
        invariant
            0 <= i <= n,
            n == groups@.len(),
            gv == groups_view(groups@),
            forall|j: int| 0 <= j < i ==> (#[trigger] gv[j]).0 != code@,
        decreases n - i,
    {
        assert(gv[i as int] == group_view(groups@[i as int]));
        if groups[i].code.same_as(code) {
            proof {
                lemma_group_index_found(gv, code@, i as int);
            }
            return Some(i);
        }
        i = i + 1;
    }
    proof {
        lemma_group_index_absent(gv, code@);
    }
    None
}

/// Resolves the gathered candidates to exactly one declaration file per
/// code module: a map from code-module specifier to its resolution, ordered
/// by code specifier, with the ignored candidates of each entry sorted for
/// deterministic diagnostics. Fails exactly when some module's own declared
/// type reference failed to resolve.
pub fn resolve_declaration_file_mappings(module_graph: &ModuleGraph) -> (r: Result<
    Vec<TypesResolutionEntry>,
    TransformError,
>)
    requires
        module_graph.source_lens_fit(),
    ensures
        match r {
            Ok(entries) => {
                let gv = resolution_groups(*module_graph);
                &&& forall|mi: int|
                    0 <= mi < module_graph.modules@.len() ==> !((
                    #[trigger] module_graph.modules@[mi]).types_ref is Failed)
                &&& entries@.len() == gv.len()
                &&& entries@.map_values(
                    |e: TypesResolutionEntry|
                        (0int, 0int, e.code_specifier@, Seq::<char>::empty()),
                ) == spec_sorted(group_code_keys(gv))
                &&& forall|ei: int|
                    0 <= ei < entries@.len() ==> entry_ok(*module_graph, #[trigger] entries@[ei])
            },
            Err(e) => failure_matches(*module_graph, e),
        },
{
    let ghost ms = module_graph.modules@;
    // gather the candidates of every module
    let mut groups: Vec<TypesGroup> = Vec::new();
    let nm = module_graph.modules.len();
    let mut mi: usize = 0;
    proof {
        assert(groups_view(groups@) =~= Seq::<GroupView>::empty());
        assert(graph_candidates(ms.take(0)) =~= Seq::<CandidateView>::empty());
        assert(spec_add_candidates(
            Seq::<GroupView>::empty(),
            Seq::<CandidateView>::empty(),
        ) == Seq::<GroupView>::empty());
    }
    while mi < nm
        invariant
            0 <= mi <= nm,
            nm == ms.len(),
            ms == module_graph.modules@,
            groups_view(groups@) == spec_add_candidates(
                Seq::<GroupView>::empty(),
                graph_candidates(ms.take(mi as int)),
            ),
            forall|j: int| 0 <= j < mi ==> !((#[trigger] ms[j]).types_ref is Failed),
        decreases nm - mi,
    {
        let ghost before = graph_candidates(ms.take(mi as int));
        match fill_types_for_module(&module_graph.modules[mi], &mut groups) {
            Ok(()) => {},
            Err(e) => {
                proof {
                    assert(failure_matches(*module_graph, e)) by {
                        assert(ms[mi as int] == module_graph.modules@[mi as int]);
                    }
                }
                return Err(e);
            },
        }
        proof {
            assert(ms.take(mi as int + 1).drop_last() =~= ms.take(mi as int));
            assert(ms.take(mi as int + 1).last() == ms[mi as int]);
            assert(graph_candidates(ms.take(mi as int + 1)) == before + module_candidates(
                ms[mi as int],
            ));
            lemma_add_candidates_concat(
                Seq::<GroupView>::empty(),
                before,
                module_candidates(ms[mi as int]),
            );
        }
        mi = mi + 1;
    }
    proof {
        assert(ms.take(nm as int) =~= ms);
        lemma_add_candidates_nonempty(Seq::<GroupView>::empty(), graph_candidates(ms));
    }
    let ghost gv = resolution_groups(*module_graph);
    assert(groups_view(groups@) == gv);
    assert(groups_nonempty(gv));

    // order the code specifiers deterministically
    let ng = groups.len();
    let mut codes: Vec<ModuleSpecifier> = Vec::new();
    let mut ci: usize = 0;
    while ci < ng
        invariant
            0 <= ci <= ng,
            ng == groups@.len(),
            gv == groups_view(groups@),
            codes@.len() == ci,
            forall|j: int|
                0 <= j < ci ==> (#[trigger] codes@[j]).sort_key() == (
                    0int,
                    0int,
                    gv[j].0,
                    Seq::<char>::empty(),
                ),
        decreases ng - ci,
    {
        assert(gv[ci as int] == group_view(groups@[ci as int]));
        codes.push(groups[ci].code.duplicate());
        ci = ci + 1;
    }
    let ghost code_keys = group_code_keys(gv);
    proof {
        assert(keys_of(codes@) =~= code_keys);
    }
    sort_by_sort_key(&mut codes);

    // build one resolution entry per code specifier, in sorted order
    let mut entries: Vec<TypesResolutionEntry> = Vec::new();
    let nc = codes.len();
    let mut ei: usize = 0;
    while ei < nc
        invariant
            0 <= ei <= nc,
            nc == codes@.len(),
            ng == groups@.len(),
            gv == groups_view(groups@),
            gv == resolution_groups(*module_graph),
            module_graph.source_lens_fit(),
            groups_nonempty(gv),
            code_keys == group_code_keys(gv),
            keys_of(codes@) == spec_sorted(code_keys),
            keys_of(codes@).to_multiset() == code_keys.to_multiset(),
            entries@.len() == ei,
            forall|j: int| 0 <= j < ei ==> entry_ok(*module_graph, #[trigger] entries@[j]),
            forall|j: int|
                0 <= j < ei ==> (
                    0int,
                    0int,
                    (#[trigger] entries@[j]).code_specifier@,
                    Seq::<char>::empty(),
                ) == keys_of(codes@)[j],
        decreases nc - ei,
    {
        assert(keys_of(codes@)[ei as int] == codes@[ei as int].sort_key());
        let code = &codes[ei];
        let gidx_opt = find_group(&groups, code);
        let gidx = match gidx_opt {
            Some(g) => g,
            None => {
                proof {
                    // impossible: every sorted code key names a gathered group
                    let key = codes@[ei as int].sort_key();
                    assert(keys_of(codes@).contains(key));
                    vstd::seq_lib::to_multiset_contains(keys_of(codes@), key);
                    vstd::seq_lib::to_multiset_contains(code_keys, key);
                    assert(code_keys.contains(key));
                    let j = choose|j: int| 0 <= j < code_keys.len() && code_keys[j] == key;
                    assert(code_keys[j] == (0int, 0int, gv[j].0, Seq::<char>::empty()));
                    assert(gv[j].0 == code@);
                    lemma_group_index_neg(gv, code@);
                    assert(false);
                }
                0
            },
        };
        assert(spec_group_index(gv, code@) == gidx as int && (gidx as int) < ng);
        assert(gv[gidx as int] == group_view(groups@[gidx as int]));
        let ghost group_keys = gv[gidx as int].1;

        // copy this group's candidates and bring them into sorted order
        let nd = groups[gidx].deps.len();
        let mut ds: Vec<TypesDependency> = Vec::new();
        let mut k: usize = 0;
        while k < nd
            invariant
                0 <= k <= nd,
                gidx < ng,
                ng == groups@.len(),
                gv == groups_view(groups@),
                gv[gidx as int] == group_view(groups@[gidx as int]),
                group_keys == gv[gidx as int].1,
                nd == groups@[gidx as int].deps@.len(),
                ds@.len() == k,
                forall|m: int|
                    0 <= m < k ==> (#[trigger] ds@[m]).sort_key() == group_keys[m],
            decreases nd - k,
        {
            assert(group_keys[k as int] == td_key(groups@[gidx as int].deps@[k as int]));
            ds.push(groups[gidx].deps[k].duplicate());
            k = k + 1;
        }
        proof {
            assert(keys_of(ds@) =~= group_keys);
        }
        sort_by_sort_key(&mut ds);
        proof {
            vstd::seq_lib::to_multiset_len::<SortKeyValue>(keys_of(ds@));
            vstd::seq_lib::to_multiset_len::<SortKeyValue>(group_keys);
        }
        assert(ds@.len() == group_keys.len());
        assert(ds@.len() > 0);

        let selected = select_best_types_dep(module_graph, code, &ds);

        // everything not selected is ignored, in sorted order
        let nd2 = ds.len();
        let mut ignored: Vec<TypesDependency> = Vec::new();
        let mut k2: usize = 0;
        proof {
            assert(keys_of(ds@).take(0) =~= Seq::<SortKeyValue>::empty());
            assert(keys_of(ignored@) =~= keys_excluding(
                keys_of(ds@).take(0),
                td_key(selected).2,
            ));
        }
        while k2 < nd2
            invariant
                0 <= k2 <= nd2,
                nd2 == ds@.len(),
                keys_of(ignored@) == keys_excluding(
                    keys_of(ds@).take(k2 as int),
                    td_key(selected).2,
                ),
            decreases nd2 - k2,
        {
            proof {
                assert(keys_of(ds@)[k2 as int] == td_key(ds@[k2 as int]));
                assert(keys_of(ds@).take(k2 as int + 1).drop_last() =~= keys_of(ds@).take(
                    k2 as int,
                ));
                assert(keys_of(ds@).take(k2 as int + 1).last() == keys_of(ds@)[k2 as int]);
            }
            if !str_eq(ds[k2].specifier.text.as_str(), selected.specifier.text.as_str()) {
                ignored.push(ds[k2].duplicate());
                proof {
                    assert(keys_of(ignored@) =~= keys_excluding(
                        keys_of(ds@).take(k2 as int + 1),
                        td_key(selected).2,
                    ));
                }
            }
            k2 = k2 + 1;
        }
        proof {
            assert(keys_of(ds@).take(nd2 as int) =~= keys_of(ds@));
        }
        let entry = TypesResolutionEntry {
            code_specifier: code.duplicate(),
            resolution: DeclarationFileResolution { selected, ignored },
        };
        assert(entry_ok(*module_graph, entry));
        entries.push(entry);
        ei = ei + 1;
    }
    proof {
        assert(entries@.map_values(
            |e: TypesResolutionEntry| (0int, 0int, e.code_specifier@, Seq::<char>::empty()),
        ) =~= keys_of(codes@));
        vstd::seq_lib::to_multiset_len::<SortKeyValue>(keys_of(codes@));
        vstd::seq_lib::to_multiset_len::<SortKeyValue>(code_keys);
    }
    Ok(entries)
}

} // verus!
