//! The syntax-tree model the rewriter walks: a closed set of tagged
//! variants, one for each construct whose specifier is rewritten, and a
//! branch variant whose children are visited recursively. Positions are
//! character offsets into the module's original source text.

use vstd::prelude::*;

verus! {

/// A string literal in the source text. `lo..hi` is the span of the literal
/// including its quotes; `value` is the unquoted contents.
#[derive(Debug)]
pub struct StrLit {
    pub value: String,
    pub lo: usize,
    pub hi: usize,
}

/// A trailing import-attributes clause (`assert { ... }`) on a static
/// import or export. `prev_end` is the end of the token just before the
/// clause's keyword (the specifier literal); `end` is the end of the clause.
#[derive(Debug)]
pub struct AssertsClause {
    pub prev_end: usize,
    pub end: usize,
}

/// The second argument of a dynamic import call. `comma_pos` is the start
/// of the comma that precedes it; `end` is the end of the argument.
#[derive(Debug)]
pub struct SecondArg {
    pub comma_pos: usize,
    pub end: usize,
}

/// A syntax-tree node. Only the constructs the rewriter handles are
/// distinguished; everything else is a branch whose children are visited.
#[derive(Debug)]
pub enum Node {
    /// `import ... from "src"` with an optional attributes clause.
    ImportDecl { src: StrLit, asserts: Option<AssertsClause> },
    /// `export * from "src"` with an optional attributes clause.
    ExportAll { src: StrLit, asserts: Option<AssertsClause> },
    /// `export { ... } from "src"`; the source and clause are optional.
    NamedExport { src: Option<StrLit>, asserts: Option<AssertsClause> },
    /// A dynamic `import(...)` call. `src` is the first argument when it is
    /// a string literal; a non-literal first argument is left untouched.
    ImportCall { src: Option<StrLit>, second_arg: Option<SecondArg> },
    /// Any other construct: the rewriter recurses into the children.
    Branch { children: Vec<Node> },
}

} // verus!
