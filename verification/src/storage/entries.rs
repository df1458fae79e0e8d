//! Sorted sequences of entries: what memtables, tables and merges are made of.

use vstd::prelude::*;

use super::memtable::Value;
use super::order::{
    copy_bytes, key_before, lemma_lex_asymmetric, lemma_lex_irreflexive, lemma_lex_mixed,
    lemma_lex_total, lemma_lex_transitive, lex_le, lex_lt,
};
use super::Key;

verus! {

/// A key and what is known of it: its bytes, or that it was deleted.
pub type EntryView = (Seq<u8>, Option<Seq<u8>>);

/// The mathematical content of a list of entries.
pub open spec fn entries_of(entries: Seq<(Key, Value)>) -> Seq<EntryView> {
    Seq::new(entries.len(), |i: int| (entries[i].0@, entries[i].1@))
}

/// Keys strictly ascend.
pub open spec fn ascending(entries: Seq<EntryView>) -> bool {
    forall|i: int, j: int|
        #![trigger entries[i], entries[j]]
        0 <= i < j < entries.len() ==> lex_lt(entries[i].0, entries[j].0)
}

/// Some entry has this key.
pub open spec fn has_key(entries: Seq<EntryView>, key: Seq<u8>) -> bool {
    exists|i: int| 0 <= i < entries.len() && (#[trigger] entries[i]).0 == key
}

/// What the entries say of a key: nothing, that it is deleted, or its value.
pub open spec fn find(entries: Seq<EntryView>, key: Seq<u8>) -> Option<Option<Seq<u8>>> {
    if has_key(entries, key) {
        let i = choose|i: int| 0 <= i < entries.len() && (#[trigger] entries[i]).0 == key;
        Some(entries[i].1)
    } else {
        None
    }
}

/// What the entries say, as a map.
pub open spec fn as_map(entries: Seq<EntryView>) -> Map<Seq<u8>, Option<Seq<u8>>> {
    Map::new(|key: Seq<u8>| has_key(entries, key), |key: Seq<u8>| find(entries, key)->0)
}

/// In an ascending list an entry is found under its own key.
pub proof fn lemma_find_at(entries: Seq<EntryView>, i: int)
    requires
        ascending(entries),
        0 <= i < entries.len(),
    ensures
        has_key(entries, entries[i].0),
        find(entries, entries[i].0) == Some(entries[i].1),
{
    let key = entries[i].0;
    assert(entries[i].0 == key);
    let j = choose|j: int| 0 <= j < entries.len() && (#[trigger] entries[j]).0 == key;
    lemma_lex_irreflexive(key);
    if j < i {
        assert(lex_lt(entries[j].0, entries[i].0));
    } else if i < j {
        assert(lex_lt(entries[i].0, entries[j].0));
    }
}

/// A key strictly between the neighbours of `at` is not in the list.
pub proof fn lemma_not_found(entries: Seq<EntryView>, key: Seq<u8>, at: int)
    requires
        ascending(entries),
        0 <= at <= entries.len(),
        forall|i: int| 0 <= i < at ==> lex_lt((#[trigger] entries[i]).0, key),
        forall|i: int| at <= i < entries.len() ==> lex_lt(key, (#[trigger] entries[i]).0),
    ensures
        !has_key(entries, key),
        find(entries, key) is None,
{
    lemma_lex_irreflexive(key);
}

/// Two ascending lists that say the same of every key are the same list.
pub proof fn lemma_same_map_same_list(a: Seq<EntryView>, b: Seq<EntryView>)
    requires
        ascending(a),
        ascending(b),
        forall|key: Seq<u8>| #[trigger] find(a, key) == find(b, key),
    ensures
        a == b,
    decreases a.len() + b.len(),
{
    if a.len() == 0 {
        if b.len() > 0 {
            lemma_find_at(b, 0);
            assert(find(a, b[0].0) is Some);
        }
        assert(a =~= b);
    } else if b.len() == 0 {
        lemma_find_at(a, 0);
        assert(find(b, a[0].0) is Some);
    } else {
        let ka = a.last().0;
        let kb = b.last().0;
        lemma_find_at(a, a.len() - 1);
        lemma_find_at(b, b.len() - 1);
        assert(find(b, ka) is Some);
        assert(find(a, kb) is Some);
        assert(has_key(b, ka));
        assert(has_key(a, kb));
        let ia = choose|i: int| 0 <= i < a.len() && (#[trigger] a[i]).0 == kb;
        let ib = choose|i: int| 0 <= i < b.len() && (#[trigger] b[i]).0 == ka;
        if ka != kb {
            assert(lex_lt(kb, ka));
            assert(lex_lt(ka, kb));
            lemma_lex_asymmetric(ka, kb);
        }
        let ta = a.drop_last();
        let tb = b.drop_last();
        assert forall|key: Seq<u8>| #[trigger] find(ta, key) == find(tb, key) by {
            lemma_find_drop_last(a, key);
            lemma_find_drop_last(b, key);
            assert(find(a, key) == find(b, key));
        }
        lemma_same_map_same_list(ta, tb);
        assert(a =~= ta.push(a.last()));
        assert(b =~= tb.push(b.last()));
    }
}

/// Dropping the last entry forgets its key and nothing else.
pub proof fn lemma_find_drop_last(entries: Seq<EntryView>, key: Seq<u8>)
    requires
        ascending(entries),
        entries.len() > 0,
    ensures
        ascending(entries.drop_last()),
        find(entries.drop_last(), key) == if key == entries.last().0 {
            None
        } else {
            find(entries, key)
        },
{
    let rest = entries.drop_last();
    assert forall|i: int, j: int|
        #![trigger rest[i], rest[j]]
        0 <= i < j < rest.len() implies lex_lt(rest[i].0, rest[j].0) by {
        assert(entries[i] == rest[i] && entries[j] == rest[j]);
    }
    if has_key(rest, key) {
        let i = choose|i: int| 0 <= i < rest.len() && (#[trigger] rest[i]).0 == key;
        lemma_find_at(rest, i);
        assert(entries[i] == rest[i]);
        lemma_find_at(entries, i);
        assert(lex_lt(entries[i].0, entries[entries.len() - 1].0));
        lemma_lex_irreflexive(key);
    } else if has_key(entries, key) {
        let i = choose|i: int| 0 <= i < entries.len() && (#[trigger] entries[i]).0 == key;
        if i < rest.len() {
            assert(rest[i].0 == key);
        }
    }
}

/// Adding an entry after the last one adds its key and nothing else.
pub proof fn lemma_find_push(entries: Seq<EntryView>, entry: EntryView, key: Seq<u8>)
    requires
        ascending(entries),
        forall|i: int| 0 <= i < entries.len() ==> lex_lt((#[trigger] entries[i]).0, entry.0),
    ensures
        ascending(entries.push(entry)),
        find(entries.push(entry), key) == if key == entry.0 {
            Some(entry.1)
        } else {
            find(entries, key)
        },
{
    let more = entries.push(entry);
    assert(ascending(more)) by {
        assert forall|i: int, j: int|
            #![trigger more[i], more[j]]
            0 <= i < j < more.len() implies lex_lt(more[i].0, more[j].0) by {
            assert(entries[i] == more[i]);
            if j < entries.len() {
                assert(entries[j] == more[j]);
            }
        }
    }
    lemma_find_at(more, more.len() - 1);
    lemma_find_drop_last(more, key);
    assert(more.drop_last() =~= entries);
}

/// What a concatenation of ascending lists, each below the next, says of a key.
pub proof fn lemma_find_concat(a: Seq<EntryView>, b: Seq<EntryView>, key: Seq<u8>)
    requires
        ascending(a + b),
    ensures
        ascending(a),
        ascending(b),
        find(a + b, key) == if has_key(a, key) {
            find(a, key)
        } else {
            find(b, key)
        },
        has_key(a + b, key) == (has_key(a, key) || has_key(b, key)),
{
    let all = a + b;
    assert forall|i: int, j: int|
        #![trigger a[i], a[j]]
        0 <= i < j < a.len() implies lex_lt(a[i].0, a[j].0) by {
        assert(all[i] == a[i] && all[j] == a[j]);
    }
    assert forall|i: int, j: int|
        #![trigger b[i], b[j]]
        0 <= i < j < b.len() implies lex_lt(b[i].0, b[j].0) by {
        assert(all[a.len() + i] == b[i] && all[a.len() + j] == b[j]);
    }
    if has_key(a, key) {
        let i = choose|i: int| 0 <= i < a.len() && (#[trigger] a[i]).0 == key;
        assert(all[i] == a[i]);
        lemma_find_at(all, i);
        lemma_find_at(a, i);
    } else if has_key(b, key) {
        let i = choose|i: int| 0 <= i < b.len() && (#[trigger] b[i]).0 == key;
        assert(all[a.len() + i] == b[i]);
        lemma_find_at(all, a.len() + i);
        lemma_find_at(b, i);
    } else if has_key(all, key) {
        let i = choose|i: int| 0 <= i < all.len() && (#[trigger] all[i]).0 == key;
        if i < a.len() {
            assert(a[i].0 == key);
        } else {
            assert(b[i - a.len()].0 == key);
        }
    }
}

/// The index of the first entry whose key is not below `key`.
pub fn lower_bound(entries: &Vec<(Key, Value)>, key: &[u8]) -> (at: usize)
    requires
        ascending(entries_of(entries@)),
    ensures
        at <= entries@.len(),
        forall|i: int| 0 <= i < at ==> lex_lt((#[trigger] entries_of(entries@)[i]).0, key@),
        forall|i: int|
            at <= i < entries@.len() ==> lex_le(key@, (#[trigger] entries_of(entries@)[i]).0),
{
    let ghost view = entries_of(entries@);
    let mut low: usize = 0;
    let mut high: usize = entries.len();
    while low < high
        invariant
            low <= high <= entries@.len(),
            view == entries_of(entries@),
            ascending(view),
            forall|i: int| 0 <= i < low ==> lex_lt((#[trigger] view[i]).0, key@),
            forall|i: int| high <= i < view.len() ==> lex_le(key@, (#[trigger] view[i]).0),
        decreases high - low,
    {
        let middle: usize = low + (high - low) / 2;
        if key_before(entries[middle].0.as_slice(), key) {
            proof {
                assert forall|i: int| 0 <= i < middle + 1 implies lex_lt(
                    (#[trigger] view[i]).0,
                    key@,
                ) by {
                    if i < middle {
                        lemma_lex_transitive(view[i].0, view[middle as int].0, key@);
                    }
                }
            }
            low = middle + 1;
        } else {
            proof {
                lemma_lex_total(view[middle as int].0, key@);
                assert forall|i: int| middle <= i < view.len() implies lex_le(
                    key@,
                    (#[trigger] view[i]).0,
                ) by {
                    if i > middle {
                        lemma_lex_mixed(key@, view[middle as int].0, view[i].0);
                    }
                }
            }
            high = middle;
        }
    }
    low
}

/// A fresh copy of an entry.
pub fn copy_entry(entry: &(Key, Value)) -> (copy: (Key, Value))
    ensures
        copy.0@ == entry.0@,
        copy.1@ == entry.1@,
{
    (copy_bytes(entry.0.as_slice()), entry.1.copy())
}

} // verus!
