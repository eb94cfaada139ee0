//! The output mapper: assigns every emitted module (local, remote, and
//! every selected declaration file) a deterministic output path, refuses
//! collisions between distinct specifiers, and computes the relative
//! specifier between any two mapped paths (forward slashes, explicit
//! leading `./` or `../`, extension kept).
//!
//! A path is a sequence of segments. A local specifier keeps the segments
//! after its scheme; a remote one is namespaced under a `deps` segment to
//! avoid collisions with local files. Segments that would disturb relative
//! resolution (empty, `.`, `..`) are replaced.

use vstd::prelude::*;

use crate::error::TransformError;
use crate::specifier::{is_file_scheme, ModuleSpecifier};
use crate::strings::str_eq;

verus! {

/// The number of leading characters of `s` before the first `c`, which is
/// `s.len()` when `c` does not occur.
pub open spec fn first_char_at(s: Seq<char>, c: char) -> int
    decreases s.len(),
{
    if s.len() == 0 {
        0
    } else if s[0] == c {
        0
    } else {
        1 + first_char_at(s.drop_first(), c)
    }
}

pub proof fn lemma_first_char_at_range(s: Seq<char>, c: char)
    ensures
        0 <= first_char_at(s, c) <= s.len(),
        first_char_at(s, c) < s.len() ==> s[first_char_at(s, c)] == c,
        forall|j: int| 0 <= j < first_char_at(s, c) ==> s[j] != c,
    decreases s.len(),
{
    if s.len() > 0 && s[0] != c {
        lemma_first_char_at_range(s.drop_first(), c);
        assert forall|j: int| 0 <= j < first_char_at(s, c) implies s[j] != c by {
            if j > 0 {
                assert(s.drop_first()[j - 1] == s[j]);
            }
        }
    }
}

pub proof fn lemma_first_char_at_found(s: Seq<char>, c: char, i: int)
    requires
        0 <= i <= s.len(),
        i < s.len() ==> s[i] == c,
        forall|j: int| 0 <= j < i ==> s[j] != c,
    ensures
        i < s.len() ==> first_char_at(s, c) == i,
        i == s.len() ==> first_char_at(s, c) == s.len(),
    decreases i,
{
    if i > 0 {
        lemma_first_char_at_found(s.drop_first(), c, i - 1);
    } else {
        if s.len() > 0 && s[0] != c {
            lemma_first_char_at_range(s, c);
        }
    }
}

/// The number of leading characters of `s` equal to `c`.
pub open spec fn leading_count(s: Seq<char>, c: char) -> int
    decreases s.len(),
{
    if s.len() == 0 {
        0
    } else if s[0] != c {
        0
    } else {
        1 + leading_count(s.drop_first(), c)
    }
}

pub proof fn lemma_leading_count_range(s: Seq<char>, c: char)
    ensures
        0 <= leading_count(s, c) <= s.len(),
        forall|j: int| 0 <= j < leading_count(s, c) ==> s[j] == c,
        leading_count(s, c) < s.len() ==> s[leading_count(s, c)] != c,
    decreases s.len(),
{
    if s.len() > 0 && s[0] == c {
        lemma_leading_count_range(s.drop_first(), c);
        assert forall|j: int| 0 <= j < leading_count(s, c) implies s[j] == c by {
            if j > 0 {
                assert(s.drop_first()[j - 1] == s[j]);
            }
        }
    }
}

pub proof fn lemma_leading_count_found(s: Seq<char>, c: char, i: int)
    requires
        0 <= i <= s.len(),
        i < s.len() ==> s[i] != c,
        forall|j: int| 0 <= j < i ==> s[j] == c,
    ensures
        leading_count(s, c) == i,
    decreases i,
{
    if i > 0 {
        lemma_leading_count_found(s.drop_first(), c, i - 1);
    } else {
        if s.len() > 0 && s[0] == c {
            lemma_leading_count_range(s, c);
        }
    }
}

/// Splits a character sequence at every `/`.
pub open spec fn split_slash(s: Seq<char>) -> Seq<Seq<char>>
    decreases s.len(),
{
    let i = first_char_at(s, '/');
    if 0 <= i < s.len() {
        seq![s.subrange(0, i)] + split_slash(s.subrange(i + 1, s.len() as int))
    } else {
        seq![s]
    }
}

/// A segment that would disturb relative-path resolution is replaced.
pub open spec fn sanitize_segment(seg: Seq<char>) -> Seq<char> {
    if seg.len() == 0 || seg == "."@ || seg == ".."@ {
        "_"@
    } else {
        seg
    }
}

/// The part of the specifier text after its scheme: everything past the
/// first colon and the slashes that follow it.
pub open spec fn scheme_tail(s: Seq<char>) -> Seq<char> {
    let c = first_char_at(s, ':');
    if c >= s.len() {
        s
    } else {
        let rest = s.subrange(c + 1, s.len() as int);
        rest.subrange(leading_count(rest, '/'), rest.len() as int)
    }
}

/// The output path assigned to a specifier: its scheme-stripped text split
/// at slashes, each segment sanitized, namespaced under `deps` when the
/// specifier is remote.
pub open spec fn spec_path_of(s: Seq<char>) -> Seq<Seq<char>> {
    let segs = split_slash(scheme_tail(s)).map_values(|seg: Seq<char>| sanitize_segment(seg));
    if is_file_scheme(s) {
        segs
    } else {
        seq!["deps"@] + segs
    }
}

/// Every derived output path holds at least one segment.
pub proof fn lemma_path_of_nonempty(s: Seq<char>)
    ensures
        spec_path_of(s).len() >= 1,
{
    assert(split_slash(scheme_tail(s)).len() >= 1);
}

/// The views of a sequence of owned segments.
pub open spec fn segs_view(v: Seq<String>) -> Seq<Seq<char>> {
    v.map_values(|t: String| t@)
}

/// Splits a string at every `/`.
fn split_slash_exec(s: &str) -> (r: Vec<String>)
    ensures
        segs_view(r@) == split_slash(s@),
    decreases s@.len(),
{
    let n = s.unicode_len();
    let mut i: usize = 0;
    while i < n && s.get_char(i) != '/'
        invariant
            0 <= i <= n,
            n == s@.len(),
            forall|j: int| 0 <= j < i ==> s@[j] != '/',
        decreases n - i,
    {
        i = i + 1;
    }
    proof {
        lemma_first_char_at_found(s@, '/', i as int);
    }
    if i == n {
        let mut r: Vec<String> = Vec::new();
        r.push(s.to_owned());
        proof {
            assert(segs_view(r@) =~= seq![s@]);
        }
        r
    } else {
        let head = s.substring_char(0, i).to_owned();
        let rest = s.substring_char(i + 1, n);
        let mut r = split_slash_exec(rest);
        r.insert(0, head);
        proof {
            assert(segs_view(r@) =~= seq![s@.subrange(0, i as int)] + split_slash(
                s@.subrange(i as int + 1, s@.len() as int),
            ));
        }
        r
    }
}

/// Replaces a segment that would disturb relative-path resolution.
fn sanitize_segment_exec(seg: String) -> (r: String)
    ensures
        r@ == sanitize_segment(seg@),
{
    proof {
        reveal_strlit(".");
        reveal_strlit("..");
        reveal_strlit("_");
    }
    if seg.as_str().is_empty() || str_eq(seg.as_str(), ".") || str_eq(seg.as_str(), "..") {
        let underscore: String = "_".to_owned();
        underscore
    } else {
        seg
    }
}

/// Derives the output path of a specifier.
pub fn derive_path(specifier: &ModuleSpecifier) -> (r: Vec<String>)
    ensures
        segs_view(r@) == spec_path_of(specifier@),
{
    let s = specifier.text.as_str();
    let n = s.unicode_len();
    // find the scheme's colon
    let mut ci: usize = 0;
    while ci < n && s.get_char(ci) != ':'
        invariant
            0 <= ci <= n,
            n == s@.len(),
            forall|j: int| 0 <= j < ci ==> s@[j] != ':',
        decreases n - ci,
    {
        ci = ci + 1;
    }
    proof {
        lemma_first_char_at_found(s@, ':', ci as int);
    }
    let tail = if ci == n {
        s
    } else {
        let rest = s.substring_char(ci + 1, n);
        let rn = rest.unicode_len();
        let mut si: usize = 0;
        while si < rn && rest.get_char(si) == '/'
            invariant
                0 <= si <= rn,
                rn == rest@.len(),
                forall|j: int| 0 <= j < si ==> rest@[j] == '/',
            decreases rn - si,
        {
            si = si + 1;
        }
        proof {
            lemma_leading_count_found(rest@, '/', si as int);
        }
        rest.substring_char(si, rn)
    };
    assert(tail@ == scheme_tail(specifier@));
    let raw = split_slash_exec(tail);
    let nr = raw.len();
    let mut segs: Vec<String> = Vec::new();
    let mut k: usize = 0;
    let mut raw_iter = raw;
    proof {
        assert(split_slash(tail@).skip(0) =~= split_slash(tail@));
        assert(segs_view(raw_iter@).len() == raw_iter@.len());
    }
    // sanitize front to back, consuming the raw segments
    while k < nr
        invariant
            0 <= k <= nr,
            nr == split_slash(tail@).len(),
            raw_iter@.len() == nr - k,
            segs_view(raw_iter@) == split_slash(tail@).skip(k as int),
            segs@.len() == k,
            forall|j: int|
                0 <= j < k ==> segs_view(segs@)[j] == sanitize_segment(split_slash(tail@)[j]),
        decreases nr - k,
    {
        let ghost pre_raw = raw_iter@;
        let ghost pre_segs = segs@;
        proof {
            assert(segs_view(pre_raw)[0] == pre_raw[0]@);
            assert(split_slash(tail@).skip(k as int)[0] == split_slash(tail@)[k as int]);
        }
        let seg = raw_iter.remove(0);
        let cleaned = sanitize_segment_exec(seg);
        segs.push(cleaned);
        proof {
            assert(seg@ == split_slash(tail@)[k as int]);
            assert forall|j: int|
                0 <= j < raw_iter@.len() implies segs_view(raw_iter@)[j] == split_slash(
                tail@,
            ).skip(k as int + 1)[j] by {
                assert(raw_iter@[j] == pre_raw[j + 1]);
                assert(segs_view(pre_raw)[j + 1] == pre_raw[j + 1]@);
                assert(split_slash(tail@).skip(k as int)[j + 1] == split_slash(tail@)[k as int + 1
                    + j]);
            }
            assert(segs_view(raw_iter@) =~= split_slash(tail@).skip(k as int + 1));
            assert(segs@ =~= pre_segs.push(cleaned));
            assert(segs_view(segs@)[k as int] == cleaned@);
            assert(forall|j: int|
                0 <= j < k ==> segs_view(segs@)[j] == segs_view(pre_segs)[j]);
            assert forall|j: int|
                0 <= j < k + 1 implies segs_view(segs@)[j] == sanitize_segment(
                split_slash(tail@)[j],
            ) by {
                if j < k {
                    assert(segs_view(segs@)[j] == segs_view(pre_segs)[j]);
                } else {
                    assert(segs_view(segs@)[j] == cleaned@);
                }
            }
        }
        k = k + 1;
    }
    let ghost sanitized = split_slash(tail@).map_values(|seg: Seq<char>| sanitize_segment(seg));
    proof {
        assert forall|j: int| 0 <= j < nr implies segs_view(segs@)[j] == sanitized[j] by {
            assert(segs_view(segs@)[j] == sanitize_segment(split_slash(tail@)[j]));
        }
        assert(segs_view(segs@) =~= sanitized);
    }
    if specifier.is_local() {
        proof {
            assert(segs_view(segs@) =~= spec_path_of(specifier@));
        }
        segs
    } else {
        let ghost pre_segs = segs@;
        let deps: String = "deps".to_owned();
        segs.insert(0, deps);
        proof {
            assert forall|j: int|
                0 <= j < segs@.len() implies segs_view(segs@)[j] == (seq!["deps"@] + sanitized)[j]
                by {
                if j > 0 {
                    assert(segs@[j] == pre_segs[j - 1]);
                    assert(segs_view(pre_segs)[j - 1] == pre_segs[j - 1]@);
                }
            }
            assert(segs_view(segs@) =~= seq!["deps"@] + sanitized);
            assert(segs_view(segs@) =~= spec_path_of(specifier@));
        }
        segs
    }
}

/// One mapped module: its specifier and its assigned output path.
#[derive(Debug)]
pub struct MappingEntry {
    pub specifier: ModuleSpecifier,
    pub path: Vec<String>,
}

/// The first index whose entry maps the given specifier, or -1.
pub open spec fn spec_mapping_index(es: Seq<MappingEntry>, s: Seq<char>) -> int
    decreases es.len(),
{
    if es.len() == 0 {
        -1
    } else if es[0].specifier@ == s {
        0
    } else {
        let r = spec_mapping_index(es.drop_first(), s);
        if r < 0 {
            -1
        } else {
            r + 1
        }
    }
}

pub proof fn lemma_mapping_index_found(es: Seq<MappingEntry>, s: Seq<char>, i: int)
    requires
        0 <= i < es.len(),
        es[i].specifier@ == s,
        forall|j: int| 0 <= j < i ==> es[j].specifier@ != s,
    ensures
        spec_mapping_index(es, s) == i,
    decreases i,
{
    if i > 0 {
        lemma_mapping_index_found(es.drop_first(), s, i - 1);
    }
}

pub proof fn lemma_mapping_index_absent(es: Seq<MappingEntry>, s: Seq<char>)
    requires
        forall|j: int| 0 <= j < es.len() ==> es[j].specifier@ != s,
    ensures
        spec_mapping_index(es, s) == -1,
    decreases es.len(),
{
    if es.len() > 0 {
        lemma_mapping_index_absent(es.drop_first(), s);
    }
}

pub proof fn lemma_mapping_index_in_range(es: Seq<MappingEntry>, s: Seq<char>)
    ensures
        -1 <= spec_mapping_index(es, s) < es.len(),
        spec_mapping_index(es, s) >= 0 ==> es[spec_mapping_index(es, s)].specifier@ == s,
    decreases es.len(),
{
    if es.len() > 0 && es[0].specifier@ != s {
        lemma_mapping_index_in_range(es.drop_first(), s);
    }
}

pub proof fn lemma_mapping_index_first(es: Seq<MappingEntry>, s: Seq<char>)
    ensures
        forall|j: int|
            0 <= j < spec_mapping_index(es, s) ==> (#[trigger] es[j]).specifier@ != s,
    decreases es.len(),
{
    if es.len() > 0 && es[0].specifier@ != s {
        lemma_mapping_index_in_range(es, s);
        lemma_mapping_index_in_range(es.drop_first(), s);
        lemma_mapping_index_first(es.drop_first(), s);
        assert forall|j: int|
            0 <= j < spec_mapping_index(es, s) implies (#[trigger] es[j]).specifier@ != s by {
            if j > 0 {
                assert(es.drop_first()[j - 1] == es[j]);
            }
        }
    }
}

/// The injective map from every emitted module's specifier to its output
/// path, built once after classification and immutable afterwards.
#[derive(Debug)]
pub struct Mappings {
    pub entries: Vec<MappingEntry>,
}

/// Whether the entries assign this specifier an output path.
pub open spec fn entries_mapped(es: Seq<MappingEntry>, s: Seq<char>) -> bool {
    spec_mapping_index(es, s) >= 0
}

/// The output path the entries assign to this specifier.
pub open spec fn entries_path(es: Seq<MappingEntry>, s: Seq<char>) -> Seq<Seq<char>> {
    segs_view(es[spec_mapping_index(es, s)].path@)
}

/// Every entry's path is the one derived from its specifier, no two entries
/// share a specifier, and no two entries share a path.
pub open spec fn entries_wf(es: Seq<MappingEntry>) -> bool {
    &&& forall|i: int|
        0 <= i < es.len() ==> segs_view((#[trigger] es[i]).path@) == spec_path_of(
            es[i].specifier@,
        )
    &&& forall|i: int, j: int|
        0 <= i < j < es.len() ==> (#[trigger] es[i]).specifier@ != (#[trigger] es[j]).specifier@
    &&& forall|i: int, j: int|
        0 <= i < j < es.len() ==> segs_view((#[trigger] es[i]).path@) != segs_view((
        #[trigger] es[j]).path@)
}

impl Mappings {
    /// Whether this specifier was assigned an output path.
    pub open spec fn spec_mapped(self, s: Seq<char>) -> bool {
        entries_mapped(self.entries@, s)
    }

    /// The output path assigned to this specifier.
    pub open spec fn spec_path(self, s: Seq<char>) -> Seq<Seq<char>> {
        entries_path(self.entries@, s)
    }

    /// Every entry's path is the one derived from its specifier, no two
    /// entries share a specifier, and no two entries share a path.
    pub open spec fn wf(self) -> bool {
        entries_wf(self.entries@)
    }

    /// Looks up the output path assigned to a specifier.
    pub fn get_file_path(&self, specifier: &ModuleSpecifier) -> (r: Option<&Vec<String>>)
        ensures
            match r {
                Some(p) => self.spec_mapped(specifier@) && segs_view(p@) == self.spec_path(
                    specifier@,
                ),
                None => !self.spec_mapped(specifier@),
            },
    {
        let n = self.entries.len();
        let mut i: usize = 0;
        while i < n
            invariant
                0 <= i <= n,
                n == self.entries@.len(),
                forall|j: int| 0 <= j < i ==> self.entries@[j].specifier@ != specifier@,
            decreases n - i,
        {
            if self.entries[i].specifier.same_as(specifier) {
                proof {
                    lemma_mapping_index_found(self.entries@, specifier@, i as int);
                }
                return Some(&self.entries[i].path);
            }
            i = i + 1;
        }
        proof {
            lemma_mapping_index_absent(self.entries@, specifier@);
        }
        None
    }
}

/// Compares two segment vectors by contents.
fn segments_eq(a: &Vec<String>, b: &Vec<String>) -> (r: bool)
    ensures
        r == (segs_view(a@) == segs_view(b@)),
{
    let n = a.len();
    if n != b.len() {
        proof {
            assert(segs_view(a@).len() != segs_view(b@).len());
        }
        return false;
    }
    let mut i: usize = 0;
    while i < n
        invariant
            0 <= i <= n,
            n == a@.len(),
            n == b@.len(),
            forall|j: int| 0 <= j < i ==> segs_view(a@)[j] == segs_view(b@)[j],
        decreases n - i,
    {
        assert(segs_view(a@)[i as int] == a@[i as int]@);
        assert(segs_view(b@)[i as int] == b@[i as int]@);
        if !str_eq(a[i].as_str(), b[i].as_str()) {
            return false;
        }
        i = i + 1;
    }
    proof {
        assert(segs_view(a@) =~= segs_view(b@));
    }
    true
}

/// Adds the output path of one specifier, skipping a specifier already
/// mapped and refusing a path collision between distinct specifiers.
fn insert_mapping(entries: &mut Vec<MappingEntry>, specifier: &ModuleSpecifier) -> (r: Result<
    (),
    TransformError,
>)
    requires
        entries_wf(old(entries)@),
    ensures
        match r {
            Ok(()) => {
                &&& entries_wf(final(entries)@)
                &&& forall|s: Seq<char>|
                    #[trigger] entries_mapped(final(entries)@, s) <==> (entries_mapped(
                        old(entries)@,
                        s,
                    ) || s == specifier@)
            },
            Err(e) => match e {
                TransformError::OutputPathCollision { first, second } => first@ != second@
                    && spec_path_of(first@) == spec_path_of(second@) && second@ == specifier@
                    && entries_mapped(old(entries)@, first@),
                _ => false,
            },
        },
{
    let ghost pre = entries@;
    let path = derive_path(specifier);
    let n = entries.len();
    let mut i: usize = 0;
    while i < n
        invariant
            0 <= i <= n,
            n == entries@.len(),
            entries@ == pre,
            entries_wf(pre),
            segs_view(path@) == spec_path_of(specifier@),
            forall|j: int|
                0 <= j < i ==> (#[trigger] entries@[j]).specifier@ != specifier@ && segs_view(
                    entries@[j].path@,
                ) != segs_view(path@),
        decreases n - i,
    {
        if entries[i].specifier.same_as(specifier) {
            proof {
                lemma_mapping_index_found(entries@, specifier@, i as int);
                assert forall|s: Seq<char>| #[trigger] entries_mapped(entries@, s) <==> (
                entries_mapped(pre, s) || s == specifier@) by {
                    if s == specifier@ {
                        assert(entries_mapped(entries@, specifier@));
                    }
                }
            }
            return Ok(());
        }
        if segments_eq(&entries[i].path, &path) {
            // two distinct specifiers were assigned the same output path
            proof {
                // the colliding entry is already mapped: its index is the
                // first with its specifier, since entries are pairwise
                // distinct
                assert forall|j: int|
                    0 <= j < i implies (#[trigger] entries@[j]).specifier@ != entries@[
                    i as int].specifier@ by {
                    assert(entries@[j].specifier@ != entries@[i as int].specifier@);
                }
                lemma_mapping_index_found(entries@, entries@[i as int].specifier@, i as int);
            }
            return Err(
                TransformError::OutputPathCollision {
                    first: entries[i].specifier.duplicate(),
                    second: specifier.duplicate(),
                },
            );
        }
        i = i + 1;
    }
    entries.push(MappingEntry { specifier: specifier.duplicate(), path });
    proof {
        assert(entries@.len() == pre.len() + 1);
        assert(forall|j: int| 0 <= j < pre.len() ==> entries@[j] == pre[j]);
        lemma_mapping_index_found(entries@, specifier@, pre.len() as int);
        assert(entries_wf(entries@));
        assert forall|s: Seq<char>| #[trigger] entries_mapped(entries@, s) <==> (entries_mapped(
            pre,
            s,
        ) || s == specifier@) by {
            if entries_mapped(pre, s) {
                lemma_mapping_index_in_range(pre, s);
                lemma_mapping_index_first(pre, s);
                let oi = spec_mapping_index(pre, s);
                assert(entries@[oi].specifier@ == s);
                assert(forall|j: int| 0 <= j < oi ==> (#[trigger] entries@[j]) == pre[j]);
                lemma_mapping_index_found(entries@, s, oi);
            }
            if entries_mapped(entries@, s) && s != specifier@ {
                lemma_mapping_index_in_range(entries@, s);
                lemma_mapping_index_first(entries@, s);
                let ni = spec_mapping_index(entries@, s);
                assert(ni < pre.len());
                assert(pre[ni] == entries@[ni]);
                assert(forall|j: int| 0 <= j < ni ==> (#[trigger] pre[j]) == entries@[j]);
                lemma_mapping_index_found(pre, s, ni);
            }
        }
    }
    Ok(())
}

/// Builds the mapping table for every emitted module: the locals, the
/// remotes, and every selected declaration file. Fails exactly when two
/// distinct specifiers derive the same output path.
/// Whether `s` is the text of one of the specifiers handed to the mapping
/// construction: a local, a remote, or a selected declaration file.
pub open spec fn among_inputs(
    locals: Seq<ModuleSpecifier>,
    remotes: Seq<ModuleSpecifier>,
    types: Seq<crate::declaration_file_resolution::TypesResolutionEntry>,
    s: Seq<char>,
) -> bool {
    ||| exists|i: int| 0 <= i < locals.len() && (#[trigger] locals[i])@ == s
    ||| exists|i: int| 0 <= i < remotes.len() && (#[trigger] remotes[i])@ == s
    ||| exists|i: int|
        0 <= i < types.len() && (#[trigger] types[i]).resolution.selected.specifier@ == s
}

pub fn build_mappings(
    locals: &Vec<ModuleSpecifier>,
    remotes: &Vec<ModuleSpecifier>,
    types: &Vec<crate::declaration_file_resolution::TypesResolutionEntry>,
) -> (r: Result<Mappings, TransformError>)
    ensures
        match r {
            Ok(m) => {
                &&& m.wf()
                &&& forall|i: int|
                    0 <= i < locals@.len() ==> m.spec_mapped((#[trigger] locals@[i])@)
                &&& forall|i: int|
                    0 <= i < remotes@.len() ==> m.spec_mapped((#[trigger] remotes@[i])@)
                &&& forall|i: int|
                    0 <= i < types@.len() ==> m.spec_mapped(
                        (#[trigger] types@[i]).resolution.selected.specifier@,
                    )
                &&& forall|s: Seq<char>|
                    #[trigger] m.spec_mapped(s) ==> among_inputs(locals@, remotes@, types@, s)
            },
            Err(e) => match e {
                TransformError::OutputPathCollision { first, second } => first@ != second@
                    && spec_path_of(first@) == spec_path_of(second@) && among_inputs(
                    locals@,
                    remotes@,
                    types@,
                    first@,
                ) && among_inputs(locals@, remotes@, types@, second@),
                _ => false,
            },
        },
{
    let mut entries: Vec<MappingEntry> = Vec::new();
    let nl = locals.len();
    let mut i: usize = 0;
    while i < nl
        invariant
            0 <= i <= nl,
            nl == locals@.len(),
            entries_wf(entries@),
            forall|j: int| 0 <= j < i ==> entries_mapped(entries@, (#[trigger] locals@[j])@),
            forall|s: Seq<char>|
                #[trigger] entries_mapped(entries@, s) ==> among_inputs(
                    locals@,
                    remotes@,
                    types@,
                    s,
                ),
        decreases nl - i,
    {
        let ghost pre_entries = entries@;
        match insert_mapping(&mut entries, &locals[i]) {
            Ok(()) => {},
            Err(e) => {
                proof {
                    assert(among_inputs(locals@, remotes@, types@, locals@[i as int]@));
                }
                return Err(e);
            },
        }
        proof {
            assert forall|s: Seq<char>| #[trigger] entries_mapped(entries@, s) implies
                among_inputs(locals@, remotes@, types@, s) by {
                if !entries_mapped(pre_entries, s) {
                    assert(s == locals@[i as int]@);
                }
            }
        }
        i = i + 1;
    }
    let nr = remotes.len();
    let mut k: usize = 0;
    while k < nr
        invariant
            0 <= k <= nr,
            nr == remotes@.len(),
            nl == locals@.len(),
            entries_wf(entries@),
            forall|j: int| 0 <= j < nl ==> entries_mapped(entries@, (#[trigger] locals@[j])@),
            forall|j: int| 0 <= j < k ==> entries_mapped(entries@, (#[trigger] remotes@[j])@),
            forall|s: Seq<char>|
                #[trigger] entries_mapped(entries@, s) ==> among_inputs(
                    locals@,
                    remotes@,
                    types@,
                    s,
                ),
        decreases nr - k,
    {
        let ghost pre_entries = entries@;
        match insert_mapping(&mut entries, &remotes[k]) {
            Ok(()) => {},
            Err(e) => {
                proof {
                    assert(among_inputs(locals@, remotes@, types@, remotes@[k as int]@));
                }
                return Err(e);
            },
        }
        proof {
            assert forall|s: Seq<char>| #[trigger] entries_mapped(entries@, s) implies
                among_inputs(locals@, remotes@, types@, s) by {
                if !entries_mapped(pre_entries, s) {
                    assert(s == remotes@[k as int]@);
                }
            }
        }
        k = k + 1;
    }
    let nt = types.len();
    let mut t: usize = 0;
    while t < nt
        invariant
            0 <= t <= nt,
            nt == types@.len(),
            nl == locals@.len(),
            nr == remotes@.len(),
            entries_wf(entries@),
            forall|j: int| 0 <= j < nl ==> entries_mapped(entries@, (#[trigger] locals@[j])@),
            forall|j: int| 0 <= j < nr ==> entries_mapped(entries@, (#[trigger] remotes@[j])@),
            forall|j: int|
                0 <= j < t ==> entries_mapped(
                    entries@,
                    (#[trigger] types@[j]).resolution.selected.specifier@,
                ),
            forall|s: Seq<char>|
                #[trigger] entries_mapped(entries@, s) ==> among_inputs(
                    locals@,
                    remotes@,
                    types@,
                    s,
                ),
        decreases nt - t,
    {
        let ghost pre_entries = entries@;
        match insert_mapping(&mut entries, &types[t].resolution.selected.specifier) {
            Ok(()) => {},
            Err(e) => {
                proof {
                    assert(among_inputs(
                        locals@,
                        remotes@,
                        types@,
                        types@[t as int].resolution.selected.specifier@,
                    ));
                }
                return Err(e);
            },
        }
        proof {
            assert forall|s: Seq<char>| #[trigger] entries_mapped(entries@, s) implies
                among_inputs(locals@, remotes@, types@, s) by {
                if !entries_mapped(pre_entries, s) {
                    assert(s == types@[t as int].resolution.selected.specifier@);
                }
            }
        }
        t = t + 1;
    }
    Ok(Mappings { entries })
}

/// The length of the longest common prefix of two segment sequences.
pub open spec fn common_prefix_len(a: Seq<Seq<char>>, b: Seq<Seq<char>>) -> int
    decreases a.len(),
{
    if a.len() == 0 || b.len() == 0 || a[0] != b[0] {
        0
    } else {
        1 + common_prefix_len(a.drop_first(), b.drop_first())
    }
}

pub proof fn lemma_common_prefix_range(a: Seq<Seq<char>>, b: Seq<Seq<char>>)
    ensures
        0 <= common_prefix_len(a, b) <= a.len(),
        common_prefix_len(a, b) <= b.len(),
        forall|j: int| 0 <= j < common_prefix_len(a, b) ==> a[j] == b[j],
    decreases a.len(),
{
    if a.len() > 0 && b.len() > 0 && a[0] == b[0] {
        lemma_common_prefix_range(a.drop_first(), b.drop_first());
        assert forall|j: int| 0 <= j < common_prefix_len(a, b) implies a[j] == b[j] by {
            if j > 0 {
                assert(a.drop_first()[j - 1] == a[j]);
                assert(b.drop_first()[j - 1] == b[j]);
            }
        }
    }
}

pub proof fn lemma_common_prefix_found(a: Seq<Seq<char>>, b: Seq<Seq<char>>, i: int)
    requires
        0 <= i <= a.len(),
        i <= b.len(),
        forall|j: int| 0 <= j < i ==> a[j] == b[j],
        i < a.len() && i < b.len() ==> a[i] != b[i],
    ensures
        common_prefix_len(a, b) == i,
    decreases i,
{
    if i > 0 {
        lemma_common_prefix_found(a.drop_first(), b.drop_first(), i - 1);
    } else {
        if a.len() > 0 && b.len() > 0 && a[0] == b[0] {
            lemma_common_prefix_range(a, b);
        }
    }
}

/// `n` parent-directory segments.
pub open spec fn dotdots(n: nat) -> Seq<Seq<char>>
    decreases n,
{
    if n == 0 {
        Seq::empty()
    } else {
        seq![".."@] + dotdots((n - 1) as nat)
    }
}

/// The relative path from the directory of `from` to the file `to`: enough
/// parent-directory segments to leave the part of `from`'s directory that
/// the two paths do not share, then the unshared part of `to`.
pub open spec fn spec_rel_segments(from: Seq<Seq<char>>, to: Seq<Seq<char>>) -> Seq<Seq<char>>
    recommends
        from.len() >= 1,
        to.len() >= 1,
{
    let fd = from.drop_last();
    let c = common_prefix_len(fd, to.take(to.len() - 1));
    dotdots((fd.len() - c) as nat) + to.skip(c)
}

/// One text out of a sequence of segments, separated by forward slashes.
pub open spec fn spec_join(segs: Seq<Seq<char>>) -> Seq<char>
    decreases segs.len(),
{
    if segs.len() == 0 {
        Seq::empty()
    } else if segs.len() == 1 {
        segs[0]
    } else {
        spec_join(segs.drop_last()) + seq!['/'] + segs.last()
    }
}

/// The emitted relative specifier text: the joined relative segments, with
/// an explicit leading `./` when no parent-directory step is needed.
pub open spec fn spec_relative_text(from: Seq<Seq<char>>, to: Seq<Seq<char>>) -> Seq<char> {
    let fd = from.drop_last();
    let c = common_prefix_len(fd, to.take(to.len() - 1));
    if fd.len() == c {
        "./"@ + spec_join(spec_rel_segments(from, to))
    } else {
        spec_join(spec_rel_segments(from, to))
    }
}

/// Resolution of a relative segment sequence against a directory: a `..`
/// segment steps to the parent, any other segment descends into it.
pub open spec fn spec_resolve_rel(dir: Seq<Seq<char>>, rel: Seq<Seq<char>>) -> Seq<Seq<char>>
    decreases rel.len(),
{
    if rel.len() == 0 {
        dir
    } else if rel[0] == ".."@ {
        spec_resolve_rel(
            if dir.len() > 0 {
                dir.drop_last()
            } else {
                dir
            },
            rel.drop_first(),
        )
    } else {
        spec_resolve_rel(dir.push(rel[0]), rel.drop_first())
    }
}

proof fn lemma_resolve_ups(dir: Seq<Seq<char>>, tail: Seq<Seq<char>>, u: nat)
    requires
        u <= dir.len(),
    ensures
        spec_resolve_rel(dir, dotdots(u) + tail) == spec_resolve_rel(
            dir.take(dir.len() - u),
            tail,
        ),
    decreases u,
{
    if u == 0 {
        assert(dotdots(0) + tail =~= tail);
        assert(dir.take(dir.len() as int) =~= dir);
    } else {
        let rel = dotdots(u) + tail;
        assert(rel[0] == ".."@);
        assert(rel.drop_first() =~= dotdots((u - 1) as nat) + tail);
        assert(dir.len() > 0);
        lemma_resolve_ups(dir.drop_last(), tail, (u - 1) as nat);
        assert(dir.drop_last().take(dir.len() - u) =~= dir.take(dir.len() - u));
    }
}

proof fn lemma_resolve_plain(dir: Seq<Seq<char>>, tail: Seq<Seq<char>>)
    requires
        forall|i: int| 0 <= i < tail.len() ==> (#[trigger] tail[i]) != ".."@,
    ensures
        spec_resolve_rel(dir, tail) == dir + tail,
    decreases tail.len(),
{
    if tail.len() == 0 {
        assert(dir + tail =~= dir);
    } else {
        assert(tail[0] != ".."@);
        assert forall|i: int|
            0 <= i < tail.drop_first().len() implies (#[trigger] tail.drop_first()[i]) != ".."@
            by {
            assert(tail.drop_first()[i] == tail[i + 1]);
        }
        lemma_resolve_plain(dir.push(tail[0]), tail.drop_first());
        assert(dir.push(tail[0]) + tail.drop_first() =~= dir + tail);
    }
}

/// Resolving the emitted relative segments against the importing module's
/// output directory yields exactly the target module's output path: the
/// relative-specifier computation round-trips.
pub proof fn lemma_relative_round_trip(from: Seq<Seq<char>>, to: Seq<Seq<char>>)
    requires
        from.len() >= 1,
        to.len() >= 1,
        forall|i: int| 0 <= i < to.len() ==> (#[trigger] to[i]) != ".."@,
    ensures
        spec_resolve_rel(from.drop_last(), spec_rel_segments(from, to)) == to,
{
    let fd = from.drop_last();
    let to_dir = to.take(to.len() - 1);
    let c = common_prefix_len(fd, to_dir);
    lemma_common_prefix_range(fd, to_dir);
    let u = (fd.len() - c) as nat;
    lemma_resolve_ups(fd, to.skip(c), u);
    assert forall|i: int| 0 <= i < to.skip(c).len() implies (#[trigger] to.skip(c)[i]) != ".."@
        by {
        assert(to.skip(c)[i] == to[c + i]);
    }
    lemma_resolve_plain(fd.take(c), to.skip(c));
    assert(fd.take(c) =~= to.take(c)) by {
        assert forall|j: int| 0 <= j < c implies fd.take(c)[j] == to.take(c)[j] by {
            assert(fd[j] == to_dir[j]);
            assert(to_dir[j] == to[j]);
        }
    }
    assert(to.take(c) + to.skip(c) =~= to);
}

/// Joins owned segments with forward slashes.
pub fn join_segments(parts: &Vec<String>) -> (r: String)
    ensures
        r@ == spec_join(segs_view(parts@)),
{
    let mut out = String::new();
    let n = parts.len();
    let mut i: usize = 0;
    while i < n
        invariant
            0 <= i <= n,
            n == parts@.len(),
            out@ == spec_join(segs_view(parts@).take(i as int)),
        decreases n - i,
    {
        proof {
            assert(segs_view(parts@)[i as int] == parts@[i as int]@);
            assert(segs_view(parts@).take(i as int + 1).drop_last() =~= segs_view(parts@).take(
                i as int,
            ));
            assert(segs_view(parts@).take(i as int + 1).last() == segs_view(parts@)[i as int]);
            reveal_strlit("/");
        }
        if i > 0 {
            out.append("/");
            proof {
                assert("/"@ =~= seq!['/']);
            }
        } else {
            proof {
                assert(segs_view(parts@).take(1) =~= seq![segs_view(parts@)[0]]);
                assert(out@ =~= Seq::<char>::empty());
            }
        }
        out.append(parts[i].as_str());
        proof {
            if i == 0 {
                assert(out@ =~= segs_view(parts@)[0]);
            }
        }
        i = i + 1;
    }
    proof {
        assert(segs_view(parts@).take(n as int) =~= segs_view(parts@));
    }
    out
}

/// Computes the relative specifier from the output path of one module to
/// the output path of another: forward slashes, an explicit leading `./` or
/// `../`, the file extension kept.
pub fn get_relative_specifier(from: &Vec<String>, to: &Vec<String>) -> (r: String)
    requires
        from@.len() >= 1,
        to@.len() >= 1,
    ensures
        r@ == spec_relative_text(segs_view(from@), segs_view(to@)),
{
    let ghost fromv = segs_view(from@);
    let ghost tov = segs_view(to@);
    let fd_len = from.len() - 1;
    let to_dir_len = to.len() - 1;
    // longest shared prefix of the two directories
    let mut c: usize = 0;
    while c < fd_len && c < to_dir_len && str_eq(from[c].as_str(), to[c].as_str())
        invariant
            0 <= c <= fd_len,
            c <= to_dir_len,
            fd_len == from@.len() - 1,
            to_dir_len == to@.len() - 1,
            fromv == segs_view(from@),
            tov == segs_view(to@),
            forall|j: int| 0 <= j < c ==> fromv.drop_last()[j] == tov.take(tov.len() - 1)[j],
        decreases fd_len - c,
    {
        proof {
            assert(fromv.drop_last()[c as int] == from@[c as int]@);
            assert(tov.take(tov.len() - 1)[c as int] == to@[c as int]@);
        }
        c = c + 1;
    }
    proof {
        if c < fd_len && c < to_dir_len {
            assert(fromv.drop_last()[c as int] == from@[c as int]@);
            assert(tov.take(tov.len() - 1)[c as int] == to@[c as int]@);
        }
        lemma_common_prefix_found(fromv.drop_last(), tov.take(tov.len() - 1), c as int);
    }
    let ups = fd_len - c;
    let mut parts: Vec<String> = Vec::new();
    let mut u: usize = 0;
    while u < ups
        invariant
            0 <= u <= ups,
            parts@.len() == u,
            forall|j: int| 0 <= j < u ==> segs_view(parts@)[j] == ".."@,
        decreases ups - u,
    {
        let ghost pre = parts@;
        parts.push("..".to_owned());
        proof {
            assert forall|j: int| 0 <= j < u + 1 implies segs_view(parts@)[j] == ".."@ by {
                if j < u {
                    assert(parts@[j] == pre[j]);
                    assert(segs_view(pre)[j] == pre[j]@);
                }
                assert(segs_view(parts@)[j] == parts@[j]@);
            }
        }
        u = u + 1;
    }
    let nt = to.len();
    let mut k: usize = c;
    while k < nt
        invariant
            c <= k <= nt,
            nt == to@.len(),
            tov == segs_view(to@),
            parts@.len() == ups + k - c,
            forall|j: int| 0 <= j < ups ==> segs_view(parts@)[j] == ".."@,
            forall|j: int| ups <= j < parts@.len() ==> segs_view(parts@)[j] == tov[c + j - ups],
        decreases nt - k,
    {
        let ghost pre = parts@;
        parts.push(to[k].clone());
        proof {
            assert(tov[k as int] == to@[k as int]@);
            assert forall|j: int| 0 <= j < parts@.len() implies segs_view(parts@)[j] == (
            if j < pre.len() {
                segs_view(pre)[j]
            } else {
                to@[k as int]@
            }) by {
                if j < pre.len() {
                    assert(parts@[j] == pre[j]);
                    assert(segs_view(pre)[j] == pre[j]@);
                }
                assert(segs_view(parts@)[j] == parts@[j]@);
            }
        }
        k = k + 1;
    }
    proof {
        lemma_dotdots_len(ups as nat);
        assert forall|j: int|
            0 <= j < parts@.len() implies segs_view(parts@)[j] == (dotdots(ups as nat)
            + tov.skip(c as int))[j] by {
            if j < ups {
                lemma_dotdots_index(ups as nat, j);
            }
        }
        assert(segs_view(parts@) =~= dotdots(ups as nat) + tov.skip(c as int));
    }
    let joined = join_segments(&parts);
    if ups == 0 {
        let mut out: String = "./".to_owned();
        out.append(joined.as_str());
        out
    } else {
        joined
    }
}

proof fn lemma_dotdots_len(n: nat)
    ensures
        dotdots(n).len() == n,
    decreases n,
{
    if n > 0 {
        lemma_dotdots_len((n - 1) as nat);
    }
}

proof fn lemma_dotdots_index(n: nat, j: int)
    requires
        0 <= j < n,
    ensures
        dotdots(n).len() == n,
        dotdots(n)[j] == ".."@,
    decreases n,
{
    lemma_dotdots_len(n);
    if j > 0 {
        lemma_dotdots_index((n - 1) as nat, j - 1);
    }
}

} // verus!
