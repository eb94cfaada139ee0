//! A common sort key for the values the pipeline must order deterministically
//! (declaration candidates, text edits, emitted dependencies), a total
//! ordering over that key, and a verified insertion sort used by every
//! component that returns an ordered list.

use vstd::prelude::*;
use vstd::relations::{sorted_by, total_ordering};
use vstd::seq_lib::lemma_sorted_unique;

use crate::strings::{chars_le, lemma_chars_le_antisymmetric, lemma_chars_le_connected,
    lemma_chars_le_reflexive, lemma_chars_le_transitive};

verus! {

/// The key a value is ordered by: two integer components compared first,
/// then two character sequences compared lexicographically.
pub type SortKeyValue = (int, int, Seq<char>, Seq<char>);

/// Lexicographic "less than or equal" over sort keys.
pub open spec fn key_le(a: SortKeyValue, b: SortKeyValue) -> bool {
    if a.0 != b.0 {
        a.0 < b.0
    } else if a.1 != b.1 {
        a.1 < b.1
    } else if a.2 != b.2 {
        chars_le(a.2, b.2)
    } else {
        chars_le(a.3, b.3)
    }
}

/// `key_le` as a first-class relation, for use with `sorted_by`.
pub open spec fn key_le_rel() -> spec_fn(SortKeyValue, SortKeyValue) -> bool {
    |a: SortKeyValue, b: SortKeyValue| key_le(a, b)
}

/// `key_le` is a total ordering: sorting by it yields a unique result.
pub proof fn lemma_key_le_total_ordering()
    ensures
        total_ordering(key_le_rel()),
{
    let leq = key_le_rel();
    assert forall|a: SortKeyValue| #[trigger] leq(a, a) by {
        lemma_chars_le_reflexive(a.3);
    }
    assert forall|a: SortKeyValue, b: SortKeyValue| #[trigger] leq(a, b) && #[trigger] leq(b, a)
        implies a == b by {
        if a.2 != b.2 {
            lemma_chars_le_antisymmetric(a.2, b.2);
        } else {
            lemma_chars_le_antisymmetric(a.3, b.3);
        }
    }
    assert forall|a: SortKeyValue, b: SortKeyValue, c: SortKeyValue|
        #[trigger] leq(a, b) && #[trigger] leq(b, c) implies leq(a, c) by {
        lemma_key_le_trans(a, b, c);
    }
    assert forall|a: SortKeyValue, b: SortKeyValue| #[trigger] leq(a, b) || #[trigger] leq(b, a) by {
        if a.0 == b.0 && a.1 == b.1 {
            if a.2 != b.2 {
                lemma_chars_le_connected(a.2, b.2);
            } else {
                lemma_chars_le_connected(a.3, b.3);
            }
        }
    }
}

proof fn lemma_key_le_trans(a: SortKeyValue, b: SortKeyValue, c: SortKeyValue)
    requires
        key_le(a, b),
        key_le(b, c),
    ensures
        key_le(a, c),
{
    if a.0 == b.0 && b.0 == c.0 && a.1 == b.1 && b.1 == c.1 {
        if a.2 == b.2 {
            lemma_chars_le_reflexive(a.2);
        }
        if b.2 == c.2 {
            lemma_chars_le_reflexive(b.2);
        }
        lemma_chars_le_transitive(a.2, b.2, c.2);
        if a.2 == c.2 {
            // the middle key's text component is squeezed between two equal
            // ones, so all three are equal and the last components decide
            lemma_chars_le_antisymmetric(a.2, b.2);
            if a.3 == b.3 {
                lemma_chars_le_reflexive(a.3);
            }
            if b.3 == c.3 {
                lemma_chars_le_reflexive(b.3);
            }
            lemma_chars_le_transitive(a.3, b.3, c.3);
        }
    }
}

proof fn lemma_key_le_connected(a: SortKeyValue, b: SortKeyValue)
    ensures
        key_le(a, b) || key_le(b, a),
{
    if a.0 == b.0 && a.1 == b.1 {
        if a.2 != b.2 {
            lemma_chars_le_connected(a.2, b.2);
        } else {
            lemma_chars_le_connected(a.3, b.3);
        }
    }
}

/// A value the pipeline can sort: it exposes a key and an executable
/// comparison that decides `key_le` on the keys.
pub trait SortOrdered: Sized {
    spec fn sort_key(&self) -> SortKeyValue;

    fn key_le_exec(&self, other: &Self) -> (r: bool)
        ensures
            r == key_le(self.sort_key(), other.sort_key()),
    ;
}

/// Reads one ordered pair out of a sorted sequence.
pub proof fn lemma_sorted_index(s: Seq<SortKeyValue>, p: int, q: int)
    requires
        sorted_by(s, key_le_rel()),
        0 <= p < q < s.len(),
    ensures
        key_le(s[p], s[q]),
{
    assert(key_le_rel()(s[p], s[q]));
}

/// The sequence of sort keys of a sequence of values.
pub open spec fn keys_of<T: SortOrdered>(s: Seq<T>) -> Seq<SortKeyValue> {
    s.map_values(|x: T| x.sort_key())
}

/// The unique sorted arrangement of a sequence of keys.
pub open spec fn spec_sorted(ks: Seq<SortKeyValue>) -> Seq<SortKeyValue> {
    ks.sort_by(key_le_rel())
}

/// Two key sequences holding the same keys sort to the same sequence.
pub proof fn lemma_spec_sorted_of_multiset(a: Seq<SortKeyValue>, b: Seq<SortKeyValue>)
    requires
        a.to_multiset() == b.to_multiset(),
    ensures
        spec_sorted(a) == spec_sorted(b),
{
    lemma_key_le_total_ordering();
    a.lemma_sort_by_ensures(key_le_rel());
    b.lemma_sort_by_ensures(key_le_rel());
    lemma_sorted_keys_unique(spec_sorted(a), spec_sorted(b));
}

/// Sorts the vector by its sort keys: afterwards the key sequence is sorted
/// and holds the same multiset of keys as before.
pub fn sort_by_sort_key<T: SortOrdered>(v: &mut Vec<T>)
    ensures
        sorted_by(keys_of(final(v)@), key_le_rel()),
        keys_of(final(v)@).to_multiset() == keys_of(old(v)@).to_multiset(),
        keys_of(final(v)@) == spec_sorted(keys_of(old(v)@)),
        final(v)@.len() == old(v)@.len(),
{
    broadcast use vstd::seq_lib::group_to_multiset_ensures;

    let ghost orig = keys_of(old(v)@);
    let n = v.len();
    if n <= 1 {
        proof {
            if n == 1 {
                lemma_chars_le_reflexive(v@[0].sort_key().3);
            }
            assert(keys_of(v@) =~= orig);
            lemma_key_le_total_ordering();
            orig.lemma_sort_by_ensures(key_le_rel());
            lemma_sorted_keys_unique(keys_of(v@), spec_sorted(orig));
        }
        return ;
    }
    let mut i: usize = 1;
    while i < n
        invariant
            1 <= i <= n,
            n == v@.len(),
            keys_of(v@).to_multiset() == orig.to_multiset(),
            sorted_by(keys_of(v@).take(i as int), key_le_rel()),
        decreases n - i,
    {
        let mut j: usize = 0;
        while j < i && v[j].key_le_exec(&v[i])
            invariant
                0 <= j <= i < n,
                n == v@.len(),
                forall|k: int| 0 <= k < j ==> key_le(#[trigger] keys_of(v@)[k], keys_of(v@)[i as int]),
            decreases i - j,
        {
            assert(keys_of(v@)[j as int] == v@[j as int].sort_key());
            j = j + 1;
        }
        let ghost pre = v@;
        let ghost pre_keys = keys_of(v@);
        let x = v.remove(i);
        v.insert(j, x);
        proof {
            let ki = pre_keys[i as int];
            let now_keys = keys_of(v@);
            assert(now_keys =~= pre_keys.remove(i as int).insert(j as int, ki));
            assert(now_keys.to_multiset() == pre_keys.to_multiset()) by {
                broadcast use vstd::multiset::group_multiset_axioms;

                vstd::seq_lib::to_multiset_remove(pre_keys, i as int);
                vstd::seq_lib::to_multiset_insert(pre_keys.remove(i as int), j as int, ki);
                assert(pre_keys.contains(ki));
                vstd::seq_lib::to_multiset_contains(pre_keys, ki);
                assert(pre_keys.to_multiset().remove(ki).insert(ki) =~= pre_keys.to_multiset());
            }
            // the element landed at j; everything before j is `le` it and
            // everything from j up to i is `ge` it
            if j < i {
                assert(!key_le(pre_keys[j as int], ki));
                lemma_key_le_connected(pre_keys[j as int], ki);
                assert(key_le(ki, pre_keys[j as int]));
            }
            let jj = j as int;
            let ii = i as int;
            assert forall|p: int, q: int| 0 <= p <= q <= ii implies key_le(
                #[trigger] now_keys[p],
                #[trigger] now_keys[q],
            ) by {
                // translate indices of the new prefix back to the old one:
                // positions below j are unchanged, j holds the moved element,
                // and positions j+1..=i hold the old elements j..i shifted up
                let sorted_prefix = pre_keys.take(ii);
                if p == q {
                    lemma_key_le_connected(now_keys[p], now_keys[p]);
                } else if q < jj {
                    lemma_sorted_index(sorted_prefix, p, q);
                    assert(key_le(pre_keys[p], pre_keys[q]));
                } else if q == jj {
                    assert(key_le(pre_keys[p], ki));
                } else if p == jj {
                    // ki <= pre_keys[jj] <= pre_keys[q - 1]
                    if q - 1 > jj {
                        lemma_sorted_index(sorted_prefix, jj, q - 1);
                        assert(key_le(pre_keys[jj], pre_keys[q - 1]));
                        lemma_key_le_trans(ki, pre_keys[jj], pre_keys[q - 1]);
                    }
                } else if p < jj {
                    lemma_sorted_index(sorted_prefix, p, q - 1);
                    assert(key_le(pre_keys[p], pre_keys[q - 1]));
                } else {
                    lemma_sorted_index(sorted_prefix, p - 1, q - 1);
                    assert(key_le(pre_keys[p - 1], pre_keys[q - 1]));
                }
            }
            assert(sorted_by(now_keys.take(ii + 1), key_le_rel())) by {
                assert(forall|p: int, q: int|
                    0 <= p <= q < now_keys.take(ii + 1).len() ==> key_le(
                        #[trigger] now_keys.take(ii + 1)[p],
                        #[trigger] now_keys.take(ii + 1)[q],
                    ));
            }
        }
        i = i + 1;
    }
    proof {
        assert(keys_of(v@).take(n as int) =~= keys_of(v@));
        lemma_key_le_total_ordering();
        orig.lemma_sort_by_ensures(key_le_rel());
        lemma_sorted_keys_unique(keys_of(v@), spec_sorted(orig));
    }
}

/// Two vectors holding the same keys, both sorted, hold them in the same
/// order: sorting is a function of the key multiset alone.
pub proof fn lemma_sorted_keys_unique(x: Seq<SortKeyValue>, y: Seq<SortKeyValue>)
    requires
        sorted_by(x, key_le_rel()),
        sorted_by(y, key_le_rel()),
        x.to_multiset() == y.to_multiset(),
    ensures
        x == y,
{
    lemma_key_le_total_ordering();
    lemma_sorted_unique(x, y, key_le_rel());
}

} // verus!
