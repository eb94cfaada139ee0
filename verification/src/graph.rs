//! The frozen module arena the pipeline reads: one `Module` per specifier,
//! each owning its source text, its syntax tree, its outgoing dependencies
//! and its optional declared type reference. Graph construction (fetching,
//! parsing) happens outside the pipeline; the arena is read-only here.

use vstd::prelude::*;

use vstd::string::StringSliceAdditionalSpecFns;

use crate::ast::Node;
use crate::specifier::ModuleSpecifier;
use crate::strings::str_eq;
use crate::text_changes::TextChange;

verus! {

/// A module's own declared type reference (for example from a file-level
/// directive or a types header).
#[derive(Debug)]
pub enum TypesRef {
    /// The module declares no type reference.
    NoRef,
    /// The reference resolved to a declaration-file specifier.
    Resolved { text: String, specifier: ModuleSpecifier },
    /// The reference failed to resolve; this aborts the whole run.
    Failed { text: String, error: String },
}

/// One outgoing dependency of a module: the literal as written in source,
/// the resolved code target, and the resolved type-declaration target.
#[derive(Debug)]
pub struct DependencyEntry {
    pub literal: String,
    pub code: Option<ModuleSpecifier>,
    pub types: Option<ModuleSpecifier>,
}

/// A parsed module. `shim_changes` and `directive_changes` are the edits
/// contributed by the global-symbol shim pass and the comment-directive
/// pass, which run outside this pipeline and are pooled with the specifier
/// edits before application.
#[derive(Debug)]
pub struct Module {
    pub specifier: ModuleSpecifier,
    pub source: String,
    pub tree: Node,
    pub types_ref: TypesRef,
    pub deps: Vec<DependencyEntry>,
    pub shim_changes: Vec<TextChange>,
    pub directive_changes: Vec<TextChange>,
}

/// The arena of all modules reachable from the entry points.
#[derive(Debug)]
pub struct ModuleGraph {
    pub modules: Vec<Module>,
}

/// The first index whose module has the given specifier, or -1.
pub open spec fn spec_index_of(ms: Seq<Module>, s: Seq<char>) -> int
    decreases ms.len(),
{
    if ms.len() == 0 {
        -1
    } else if ms[0].specifier@ == s {
        0
    } else {
        let r = spec_index_of(ms.drop_first(), s);
        if r < 0 {
            -1
        } else {
            r + 1
        }
    }
}

pub proof fn lemma_index_of_found(ms: Seq<Module>, s: Seq<char>, i: int)
    requires
        0 <= i < ms.len(),
        ms[i].specifier@ == s,
        forall|j: int| 0 <= j < i ==> ms[j].specifier@ != s,
    ensures
        spec_index_of(ms, s) == i,
    decreases i,
{
    if i > 0 {
        lemma_index_of_found(ms.drop_first(), s, i - 1);
    }
}

pub proof fn lemma_index_of_in_range(ms: Seq<Module>, s: Seq<char>)
    ensures
        -1 <= spec_index_of(ms, s) < ms.len(),
        spec_index_of(ms, s) >= 0 ==> ms[spec_index_of(ms, s)].specifier@ == s,
    decreases ms.len(),
{
    if ms.len() > 0 && ms[0].specifier@ != s {
        lemma_index_of_in_range(ms.drop_first(), s);
    }
}

pub proof fn lemma_index_of_absent(ms: Seq<Module>, s: Seq<char>)
    requires
        forall|j: int| 0 <= j < ms.len() ==> ms[j].specifier@ != s,
    ensures
        spec_index_of(ms, s) == -1,
    decreases ms.len(),
{
    if ms.len() > 0 {
        lemma_index_of_absent(ms.drop_first(), s);
    }
}

/// The first index whose dependency entry has the given literal, or -1.
pub open spec fn spec_dep_index(deps: Seq<DependencyEntry>, value: Seq<char>) -> int
    decreases deps.len(),
{
    if deps.len() == 0 {
        -1
    } else if deps[0].literal@ == value {
        0
    } else {
        let r = spec_dep_index(deps.drop_first(), value);
        if r < 0 {
            -1
        } else {
            r + 1
        }
    }
}

pub proof fn lemma_dep_index_found(deps: Seq<DependencyEntry>, value: Seq<char>, i: int)
    requires
        0 <= i < deps.len(),
        deps[i].literal@ == value,
        forall|j: int| 0 <= j < i ==> deps[j].literal@ != value,
    ensures
        spec_dep_index(deps, value) == i,
    decreases i,
{
    if i > 0 {
        lemma_dep_index_found(deps.drop_first(), value, i - 1);
    }
}

pub proof fn lemma_dep_index_absent(deps: Seq<DependencyEntry>, value: Seq<char>)
    requires
        forall|j: int| 0 <= j < deps.len() ==> deps[j].literal@ != value,
    ensures
        spec_dep_index(deps, value) == -1,
    decreases deps.len(),
{
    if deps.len() > 0 {
        lemma_dep_index_absent(deps.drop_first(), value);
    }
}

impl ModuleGraph {
    /// Whether a module with this specifier is in the arena.
    pub open spec fn spec_has(self, s: Seq<char>) -> bool {
        spec_index_of(self.modules@, s) >= 0
    }

    /// The module with this specifier.
    pub open spec fn spec_module(self, s: Seq<char>) -> Module {
        self.modules@[spec_index_of(self.modules@, s)]
    }

    /// Every module's source text has a UTF-8 byte length that fits the
    /// machine's word: true of any text that exists in memory.
    pub open spec fn source_lens_fit(self) -> bool {
        forall|mi: int|
            0 <= mi < self.modules@.len() ==> vstd::utf8::encode_utf8(
                (#[trigger] self.modules@[mi]).source@,
            ).len() <= usize::MAX
    }

    /// The UTF-8 byte length of a module's source text; zero when no module
    /// has this specifier.
    pub open spec fn spec_source_len(self, s: Seq<char>) -> int {
        if self.spec_has(s) {
            vstd::utf8::encode_utf8(self.spec_module(s).source@).len() as int
        } else {
            0
        }
    }

    /// The specifier a literal resolves to when written in the module named
    /// by `referrer`: the code target of the referrer's matching dependency.
    pub open spec fn spec_resolve(self, value: Seq<char>, referrer: Seq<char>) -> Option<Seq<char>> {
        if !self.spec_has(referrer) {
            None
        } else {
            let m = self.spec_module(referrer);
            let di = spec_dep_index(m.deps@, value);
            if di < 0 {
                None
            } else {
                match m.deps@[di].code {
                    Some(c) => Some(c@),
                    None => None,
                }
            }
        }
    }

    /// Finds the index of the module with this specifier.
    pub fn find(&self, specifier: &ModuleSpecifier) -> (r: Option<usize>)
        ensures
            match r {
                Some(i) => spec_index_of(self.modules@, specifier@) == i as int && (i as int)
                    < self.modules@.len(),
                None => spec_index_of(self.modules@, specifier@) == -1,
            },
    {
        let n = self.modules.len();
        let mut i: usize = 0;
        while i < n
            invariant
                0 <= i <= n,
                n == self.modules@.len(),
                forall|j: int| 0 <= j < i ==> self.modules@[j].specifier@ != specifier@,
            decreases n - i,
        {
            if self.modules[i].specifier.same_as(specifier) {
                proof {
                    lemma_index_of_found(self.modules@, specifier@, i as int);
                }
                return Some(i);
            }
            i = i + 1;
        }
        proof {
            lemma_index_of_absent(self.modules@, specifier@);
        }
        None
    }

    /// Whether the arena holds a module with this specifier.
    pub fn has_module(&self, specifier: &ModuleSpecifier) -> (r: bool)
        ensures
            r == self.spec_has(specifier@),
    {
        self.find(specifier).is_some()
    }

    /// The UTF-8 byte length of the source text of the module with this
    /// specifier, or zero when there is none.
    pub fn source_text_len(&self, specifier: &ModuleSpecifier) -> (r: usize)
        requires
            self.source_lens_fit(),
        ensures
            r as int == self.spec_source_len(specifier@),
    {
        match self.find(specifier) {
            Some(i) => {
                let src = self.modules[i].source.as_str();
                proof {
                    assert(self.spec_module(specifier@) == self.modules@[i as int]);
                    assert(src.spec_bytes() == vstd::utf8::encode_utf8(
                        self.modules@[i as int].source@,
                    ));
                }
                src.len()
            },
            None => 0,
        }
    }

    /// The module with this specifier.
    pub fn get(&self, specifier: &ModuleSpecifier) -> (r: &Module)
        requires
            self.spec_has(specifier@),
        ensures
            *r == self.spec_module(specifier@),
    {
        let i = self.find(specifier);
        match i {
            Some(i) => &self.modules[i],
            None => {
                proof {
                    assert(false);
                }
                &self.modules[0]
            },
        }
    }

    /// Resolves a specifier literal written in the module named by
    /// `referrer` to its code target, if any.
    pub fn resolve_dependency(&self, value: &str, referrer: &ModuleSpecifier) -> (r: Option<
        ModuleSpecifier,
    >)
        ensures
            match r {
                Some(s) => self.spec_resolve(value@, referrer@) == Some(s@),
                None => self.spec_resolve(value@, referrer@) is None,
            },
    {
        let idx = self.find(referrer);
        let i = match idx {
            Some(i) => i,
            None => {
                return None;
            },
        };
        let m = &self.modules[i];
        assert(self.spec_has(referrer@));
        assert(*m == self.spec_module(referrer@));
        let nd = m.deps.len();
        let mut j: usize = 0;
        while j < nd
            invariant
                0 <= j <= nd,
                nd == m.deps@.len(),
                self.spec_has(referrer@),
                *m == self.spec_module(referrer@),
                forall|k: int| 0 <= k < j ==> m.deps@[k].literal@ != value@,
            decreases nd - j,
        {
            if str_eq(m.deps[j].literal.as_str(), value) {
                proof {
                    lemma_dep_index_found(m.deps@, value@, j as int);
                }
                match &m.deps[j].code {
                    Some(c) => {
                        return Some(c.duplicate());
                    },
                    None => {
                        return None;
                    },
                }
            }
            j = j + 1;
        }
        proof {
            lemma_dep_index_absent(m.deps@, value@);
        }
        None
    }
}

} // verus!
