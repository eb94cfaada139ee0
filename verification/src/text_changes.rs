//! Text edits and their application. A `TextChange` replaces one half-open
//! character range of a module's original source text. Applying a set of
//! changes sorts them, refuses any out-of-bounds or overlapping range, and
//! splices the original segments between consecutive ranges with each
//! change's replacement text: a pure, order-independent merge.

use vstd::prelude::*;
use vstd::relations::sorted_by;

use crate::error::TextChangeError;
use crate::ordering::{
    key_le, key_le_rel, keys_of, lemma_sorted_index, lemma_spec_sorted_of_multiset, sort_by_sort_key,
    spec_sorted, SortKeyValue, SortOrdered,
};
use crate::strings::{str_eq, str_le};

verus! {

/// One replacement of the half-open character range `start..end` of a
/// module's original source text with `new_text`.
#[derive(Debug)]
pub struct TextChange {
    pub start: usize,
    pub end: usize,
    pub new_text: String,
}

/// The ordering key of a change: range start, then range end, then the
/// replacement text.
pub open spec fn change_key(c: TextChange) -> SortKeyValue {
    (c.start as int, c.end as int, c.new_text@, Seq::<char>::empty())
}

impl SortOrdered for TextChange {
    open spec fn sort_key(&self) -> SortKeyValue {
        change_key(*self)
    }

    fn key_le_exec(&self, other: &Self) -> (r: bool)
        ensures
            r == key_le(self.sort_key(), other.sort_key()),
    {
        if self.start != other.start {
            self.start < other.start
        } else if self.end != other.end {
            self.end < other.end
        } else if str_eq(self.new_text.as_str(), other.new_text.as_str()) {
            true
        } else {
            str_le(self.new_text.as_str(), other.new_text.as_str())
        }
    }
}

impl TextChange {
    pub fn duplicate(&self) -> (r: TextChange)
        ensures
            change_key(r) == change_key(*self),
    {
        TextChange { start: self.start, end: self.end, new_text: self.new_text.clone() }
    }
}

/// Every change range lies inside a text of length `text_len`.
pub open spec fn changes_in_bounds(ks: Seq<SortKeyValue>, text_len: int) -> bool {
    forall|i: int| 0 <= i < ks.len() ==> ((#[trigger] ks[i]).0 <= ks[i].1 <= text_len)
}

/// In a sorted key sequence, each change ends before the next begins.
pub open spec fn changes_disjoint(ks: Seq<SortKeyValue>) -> bool {
    forall|i: int| 0 <= i < ks.len() - 1 ==> (#[trigger] ks[i]).1 <= ks[i + 1].0
}

/// A sorted sequence of change keys that can be applied to a text of the
/// given length.
pub open spec fn changes_applicable(ks: Seq<SortKeyValue>, text_len: int) -> bool {
    changes_in_bounds(ks, text_len) && changes_disjoint(ks)
}

/// The text produced by applying a sorted sequence of changes to the part of
/// `text` that starts at `from`: the original segments between consecutive
/// change ranges are kept, each range is replaced by its new text.
pub open spec fn spec_splice(text: Seq<char>, ks: Seq<SortKeyValue>, from: int) -> Seq<char>
    decreases ks.len(),
{
    if ks.len() == 0 {
        text.subrange(from, text.len() as int)
    } else {
        text.subrange(from, ks[0].0) + ks[0].2 + spec_splice(text, ks.drop_first(), ks[0].1)
    }
}

/// The text produced by applying an arbitrary collection of change keys:
/// the keys are first brought into their unique sorted order.
pub open spec fn spec_apply(text: Seq<char>, ks: Seq<SortKeyValue>) -> Seq<char> {
    spec_splice(text, spec_sorted(ks), 0)
}

/// Applies the given changes to `text`. The changes may arrive in any
/// order; they are sorted by range start. Fails exactly when, after
/// sorting, some range is out of bounds or two ranges overlap.
pub fn apply_text_changes(text: &str, changes: Vec<TextChange>) -> (r: Result<
    String,
    TextChangeError,
>)
    ensures
        match r {
            Ok(out) => changes_applicable(spec_sorted(keys_of(changes@)), text@.len() as int)
                && out@ == spec_apply(text@, keys_of(changes@)),
            Err(e) => !changes_applicable(spec_sorted(keys_of(changes@)), text@.len() as int)
                && match e {
                TextChangeError::OutOfBounds { .. } => !changes_in_bounds(
                    spec_sorted(keys_of(changes@)),
                    text@.len() as int,
                ),
                TextChangeError::Overlap { .. } => !changes_disjoint(
                    spec_sorted(keys_of(changes@)),
                ),
            },
        },
{
    let text_len = text.unicode_len();
    let ghost original_keys = keys_of(changes@);
    let mut cs = changes;
    sort_by_sort_key(&mut cs);
    let ghost ks = keys_of(cs@);
    let n = cs.len();
    assert(ks.len() == n);
    assert(ks == spec_sorted(keys_of(changes@)));

    // refuse defective ranges before touching the text
    let mut i: usize = 0;
    while i < n
        invariant
            0 <= i <= n,
            n == cs@.len(),
            ks == keys_of(cs@),
            ks == spec_sorted(original_keys),
            original_keys == keys_of(changes@),
            text_len == text@.len(),
            forall|k: int| 0 <= k < i ==> ((#[trigger] ks[k]).0 <= ks[k].1 <= text_len),
            forall|k: int| 0 <= k < i - 1 ==> (#[trigger] ks[k]).1 <= ks[k + 1].0,
        decreases n - i,
    {
        assert(ks[i as int] == cs@[i as int].sort_key());
        if cs[i].start > cs[i].end || cs[i].end > text_len {
            assert(!changes_in_bounds(ks, text_len as int)) by {
                assert(!(ks[i as int].0 <= ks[i as int].1 <= text_len));
            }
            return Err(TextChangeError::OutOfBounds {
                start: cs[i].start,
                end: cs[i].end,
                text_len,
            });
        }
        if i > 0 && cs[i - 1].end > cs[i].start {
            assert(ks[i as int - 1] == cs@[i as int - 1].sort_key());
            assert(!changes_disjoint(ks)) by {
                assert(!(ks[i as int - 1].1 <= ks[i as int - 1 + 1].0));
            }
            return Err(TextChangeError::Overlap {
                first_start: cs[i - 1].start,
                first_end: cs[i - 1].end,
                second_start: cs[i].start,
                second_end: cs[i].end,
            });
        }
        i = i + 1;
    }
    assert(changes_applicable(ks, text_len as int));

    // splice the original segments between the sorted ranges
    let mut out = String::new();
    let mut pos: usize = 0;
    let mut j: usize = 0;
    proof {
        assert(ks.skip(0) =~= ks);
        if n > 0 {
            assert(ks[0] == cs@[0].sort_key());
        }
        assert(out@ + spec_splice(text@, ks, 0) =~= spec_splice(text@, ks, 0));
    }
    while j < n
        invariant
            0 <= j <= n,
            n == cs@.len(),
            ks == keys_of(cs@),
            ks == spec_sorted(original_keys),
            original_keys == keys_of(changes@),
            text_len == text@.len(),
            changes_applicable(ks, text_len as int),
            pos <= text_len,
            j < n ==> pos <= ks[j as int].0,
            spec_splice(text@, ks, 0) == out@ + spec_splice(text@, ks.skip(j as int), pos as int),
        decreases n - j,
    {
        assert(ks[j as int] == cs@[j as int].sort_key());
        let c_start = cs[j].start;
        let c_end = cs[j].end;
        let ghost prev_out = out@;
        let segment = text.substring_char(pos, c_start);
        out.append(segment);
        out.append(cs[j].new_text.as_str());
        proof {
            let tail = ks.skip(j as int);
            assert(tail[0] == ks[j as int]);
            assert(tail.drop_first() =~= ks.skip(j as int + 1));
            assert(spec_splice(text@, tail, pos as int) == text@.subrange(
                pos as int,
                c_start as int,
            ) + ks[j as int].2 + spec_splice(text@, ks.skip(j as int + 1), c_end as int));
            assert(out@ =~= prev_out + text@.subrange(pos as int, c_start as int)
                + ks[j as int].2);
            assert(out@ + spec_splice(text@, ks.skip(j as int + 1), c_end as int) =~= prev_out
                + spec_splice(text@, tail, pos as int));
            if j + 1 < n {
                assert(ks[j as int].1 <= ks[j as int + 1].0);
                assert(ks[j as int + 1] == cs@[j as int + 1].sort_key());
            }
            assert(ks[j as int].0 <= ks[j as int].1 <= text_len);
        }
        pos = c_end;
        j = j + 1;
    }
    let tail = text.substring_char(pos, text_len);
    out.append(tail);
    proof {
        assert(ks.skip(n as int).len() == 0);
        assert(spec_splice(text@, ks.skip(n as int), pos as int) == text@.subrange(
            pos as int,
            text@.len() as int,
        ));
    }
    Ok(out)
}

/// Applying a collection of text changes does not depend on the order in
/// which the changes were gathered: two collections holding the same
/// changes produce the same output text, and are rejected together.
pub proof fn lemma_apply_order_independent(
    text: Seq<char>,
    a: Seq<SortKeyValue>,
    b: Seq<SortKeyValue>,
)
    requires
        a.to_multiset() == b.to_multiset(),
    ensures
        spec_apply(text, a) == spec_apply(text, b),
        changes_applicable(spec_sorted(a), text.len() as int) == changes_applicable(
            spec_sorted(b),
            text.len() as int,
        ),
{
    lemma_spec_sorted_of_multiset(a, b);
}

/// Applying no changes returns the text unchanged.
pub proof fn lemma_apply_empty(text: Seq<char>)
    ensures
        spec_apply(text, Seq::<SortKeyValue>::empty()) == text,
{
    let e = Seq::<SortKeyValue>::empty();
    crate::ordering::lemma_key_le_total_ordering();
    e.lemma_sort_by_ensures(key_le_rel());
    vstd::seq_lib::to_multiset_len::<SortKeyValue>(spec_sorted(e));
    vstd::seq_lib::to_multiset_len::<SortKeyValue>(e);
    assert(spec_sorted(e) =~= e);
    assert(text.subrange(0, text.len() as int) =~= text);
}

} // verus!
