//! The order of keys is a strict total order.

use vstd::prelude::*;
use crate::bytes::bytes_lt;
use crate::value::ValueView;
use crate::value::KeyRowView;
use crate::node::entry_index;
use crate::node::entry_find;
use crate::node::lemma_entry_index_bounds;
use crate::node::lemma_entry_find_bounds;

verus! {

/// No byte string comes before itself.
pub proof fn lemma_bytes_lt_irreflexive(a: Seq<u8>)
    ensures
        !bytes_lt(a, a),
    decreases a.len(),
{
    if a.len() > 0 {
        lemma_bytes_lt_irreflexive(a.skip(1));
    }
}

/// Of two different byte strings one comes before the other.
pub proof fn lemma_bytes_lt_total(a: Seq<u8>, b: Seq<u8>)
    ensures
        a == b || bytes_lt(a, b) || bytes_lt(b, a),
    decreases a.len(),
{
    if a.len() > 0 && b.len() > 0 && a[0] == b[0] {
        lemma_bytes_lt_total(a.skip(1), b.skip(1));
        if a.skip(1) == b.skip(1) {
            assert(a =~= b) by {
                assert(a.skip(1).len() == b.skip(1).len());
                assert(a.len() == b.len());
                assert forall|i: int| 0 <= i < a.len() implies a[i] == b[i] by {
                    if i > 0 {
                        assert(a.skip(1)[i - 1] == a[i]);
                        assert(b.skip(1)[i - 1] == b[i]);
                    }
                }
            }
        }
    } else if a.len() == 0 && b.len() == 0 {
        assert(a =~= b);
    }
}

/// What comes before something that comes before a third comes before the
/// third.
pub proof fn lemma_bytes_lt_transitive(a: Seq<u8>, b: Seq<u8>, c: Seq<u8>)
    requires
        bytes_lt(a, b),
        bytes_lt(b, c),
    ensures
        bytes_lt(a, c),
    decreases a.len(),
{
    if a.len() > 0 && a[0] == b[0] && b[0] == c[0] {
        lemma_bytes_lt_transitive(a.skip(1), b.skip(1), c.skip(1));
    }
}

/// No key comes before itself.
pub proof fn lemma_lt_irreflexive(a: ValueView)
    ensures
        !a.lt(a),
{
    match a {
        ValueView::Number(_) => {},
        ValueView::String(_, t) => {
            lemma_bytes_lt_irreflexive(t);
        },
    }
}

/// Of two different keys one comes before the other.
pub proof fn lemma_lt_total(a: ValueView, b: ValueView)
    ensures
        a == b || a.lt(b) || b.lt(a),
{
    match (a, b) {
        (ValueView::String(_, s), ValueView::String(_, t)) => {
            lemma_bytes_lt_total(s, t);
        },
        _ => {},
    }
}

/// The order of keys is transitive.
pub proof fn lemma_lt_transitive(a: ValueView, b: ValueView, c: ValueView)
    requires
        a.lt(b),
        b.lt(c),
    ensures
        a.lt(c),
{
    match (a, b, c) {
        (ValueView::String(l1, s), ValueView::String(l2, t), ValueView::String(l3, u)) => {
            if l1 == l2 && l2 == l3 {
                lemma_bytes_lt_transitive(s, t, u);
            }
        },
        _ => {},
    }
}

/// No two keys come before each other.
pub proof fn lemma_lt_asymmetric(a: ValueView, b: ValueView)
    requires
        a.lt(b),
    ensures
        !b.lt(a),
{
    if b.lt(a) {
        lemma_lt_transitive(a, b, a);
        lemma_lt_irreflexive(a);
    }
}

/// What comes before a key comes before every key that is not before that key.
pub proof fn lemma_lt_then_le(a: ValueView, b: ValueView, c: ValueView)
    requires
        a.lt(b),
        !c.lt(b),
    ensures
        a.lt(c),
{
    lemma_lt_total(b, c);
    if b.lt(c) {
        lemma_lt_transitive(a, b, c);
    }
}

/// What is not before a key is not before any key that comes before that key.
pub proof fn lemma_le_then_lt(a: ValueView, b: ValueView, c: ValueView)
    requires
        !b.lt(a),
        b.lt(c),
    ensures
        a.lt(c),
{
    lemma_lt_total(a, b);
    if a.lt(b) {
        lemma_lt_transitive(a, b, c);
    }
}

/// Every entry has a smaller key than the entries after it.
pub open spec fn rising(entries: Seq<KeyRowView>) -> bool {
    forall|i: int, j: int|
        0 <= i < j < entries.len() ==> (#[trigger] entries[i]).key.lt((#[trigger] entries[j]).key)
}

/// Among rising entries a key goes where the entries before it are smaller
/// or equal and the entries from there on are larger.
pub proof fn lemma_rising_index(entries: Seq<KeyRowView>, key: ValueView, at: int)
    requires
        rising(entries),
        0 <= at <= entries.len(),
        forall|j: int| 0 <= j < at ==> !key.lt((#[trigger] entries[j]).key),
        at < entries.len() ==> key.lt(entries[at].key),
    ensures
        entry_index(entries, key) == at,
{
    lemma_entry_index_bounds(entries, key);
    let found = entry_index(entries, key);
    if found < at {
        assert(!key.lt(entries[found].key));
    }
}

/// Among rising entries a key that is not there is found nowhere, and a key
/// that is there is found where it stands.
pub proof fn lemma_rising_find(entries: Seq<KeyRowView>, key: ValueView, at: int)
    requires
        rising(entries),
        0 <= at < entries.len(),
        entries[at].key == key,
    ensures
        entry_find(entries, key) == at,
{
    lemma_entry_find_bounds(entries, key);
    let found = entry_find(entries, key);
    if found < at {
        assert(entries[found].key.lt(entries[at].key));
        lemma_lt_irreflexive(key);
    }
}

/// A key that no entry holds is found nowhere.
pub proof fn lemma_find_absent(entries: Seq<KeyRowView>, key: ValueView)
    requires
        forall|j: int| 0 <= j < entries.len() ==> (#[trigger] entries[j]).key != key,
    ensures
        entry_find(entries, key) == entries.len(),
{
    lemma_entry_find_bounds(entries, key);
}

/// Rising entries with one more entry at its place are rising, if its key was
/// not there.
pub proof fn lemma_rising_insert(entries: Seq<KeyRowView>, e: KeyRowView)
    requires
        rising(entries),
        entry_find(entries, e.key) == entries.len(),
    ensures
        rising(entries.insert(entry_index(entries, e.key), e)),
{
    lemma_entry_index_bounds(entries, e.key);
    lemma_entry_find_bounds(entries, e.key);
    let at = entry_index(entries, e.key);
    let after = entries.insert(at, e);
    assert forall|i: int, j: int| 0 <= i < j < after.len() implies (#[trigger] after[i]).key.lt(
        (#[trigger] after[j]).key,
    ) by {
        let oi = if i < at { i } else { i - 1 };
        let oj = if j < at { j } else { j - 1 };
        if i == at {
            // e before an old entry at or after `at`
            assert(after[j] == entries[oj]);
            if oj > at {
                assert(entries[at].key.lt(entries[oj].key));
                lemma_lt_transitive(e.key, entries[at].key, entries[oj].key);
            }
        } else if j == at {
            assert(after[i] == entries[oi]);
            assert(!e.key.lt(entries[oi].key));
            assert(entries[oi].key != e.key);
            lemma_lt_total(entries[oi].key, e.key);
        } else {
            assert(after[i] == entries[oi]);
            assert(after[j] == entries[oj]);
        }
    }
}

} // verus!
