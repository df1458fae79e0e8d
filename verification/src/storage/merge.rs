//! Merging sorted runs, the newest entry winning.
//!
//! Sources come newest first. Where several hold the same key, the entry of the
//! newest is given and the others are dropped: that is what makes an overwrite
//! or a delete take effect, since no run is ever changed in place. A tombstone
//! is an entry like any other, so that it goes on shadowing what lies below;
//! dropping tombstones is right only where nothing older is left to shadow.
//!
//! A source ends at its first error. The error is handed out before any later
//! entry, so that no merge silently skips data that it could not read.

use vstd::prelude::*;

use super::entries::{
    ascending, copy_entry, entries_of, find, has_key, lemma_find_at, lemma_find_concat, EntryView,
};
use super::memtable::{MemTable, Value};
use super::order::{
    compare_keys, lemma_lex_asymmetric, lemma_lex_irreflexive, lemma_lex_mixed, lemma_lex_total,
    lemma_lex_transitive, lex_lt, KeyOrder,
};
use super::reader::SSTable;
use super::sstable::{item_of, items_of, ok_items};
use super::{Key, StorageError};

verus! {

/// The entries of one run in ascending key order, or errors where they could
/// not be read.
pub type Source = Vec<Result<(Key, Value), StorageError>>;

/// What a source still has to give.
pub type ItemsView = Seq<Result<EntryView, StorageError>>;

/// The content of a list of sources.
pub open spec fn sources_of(sources: Seq<Source>) -> Seq<ItemsView> {
    Seq::new(sources.len(), |i: int| items_of(sources[i]@))
}

/// A source that has reached an error is at its end.
pub open spec fn settle(items: ItemsView) -> ItemsView {
    if items.len() > 0 && items[0] is Err {
        Seq::empty()
    } else {
        items
    }
}

/// The error that a source has reached.
pub open spec fn error_at(items: ItemsView) -> Option<StorageError> {
    if items.len() > 0 && items[0] is Err {
        Some(items[0]->Err_0)
    } else {
        None
    }
}

/// The next thing a source has to give is an entry with this key.
pub open spec fn leads(items: ItemsView, key: Seq<u8>) -> bool {
    items.len() > 0 && items[0] is Ok && items[0]->Ok_0.0 == key
}

/// Source `i` has the smallest key to give, and is the newest that has it.
pub open spec fn is_winner(sources: Seq<ItemsView>, i: int) -> bool {
    &&& 0 <= i < sources.len()
    &&& sources[i].len() > 0
    &&& forall|j: int|
        0 <= j < sources.len() && (#[trigger] sources[j]).len() > 0 ==> {
            ||| lex_lt(sources[i][0]->Ok_0.0, sources[j][0]->Ok_0.0)
            ||| sources[i][0]->Ok_0.0 == sources[j][0]->Ok_0.0 && i <= j
        }
}

/// Every source that has `key` to give moves past it.
pub open spec fn advance(sources: Seq<ItemsView>, key: Seq<u8>) -> Seq<ItemsView> {
    Seq::new(
        sources.len(),
        |i: int|
            if leads(sources[i], key) {
                settle(sources[i].drop_first())
            } else {
                sources[i]
            },
    )
}

/// The first error that the first `upto` sources reach in moving past `key`.
pub open spec fn raised(sources: Seq<ItemsView>, key: Seq<u8>, upto: nat) -> Option<StorageError>
    decreases upto,
{
    if upto == 0 {
        None
    } else {
        match raised(sources, key, (upto - 1) as nat) {
            Some(error) => Some(error),
            None => if leads(sources[upto - 1], key) {
                error_at(sources[upto - 1].drop_first())
            } else {
                None
            },
        }
    }
}

/// The first error that the first `upto` sources begin with.
pub open spec fn begins_with(sources: Seq<ItemsView>, upto: nat) -> Option<StorageError>
    decreases upto,
{
    if upto == 0 {
        None
    } else {
        match begins_with(sources, (upto - 1) as nat) {
            Some(error) => Some(error),
            None => error_at(sources[upto - 1]),
        }
    }
}

/// The number of things that sources have to give.
pub open spec fn total(sources: Seq<ItemsView>) -> nat
    decreases sources.len(),
{
    if sources.len() == 0 {
        0
    } else {
        total(sources.drop_last()) + sources.last().len()
    }
}

/// What a merge still has to give, if `pending` is the error it has reached and
/// no source has an error next.
pub open spec fn merged(
    sources: Seq<ItemsView>,
    pending: Option<StorageError>,
    dropping: bool,
) -> ItemsView
    decreases
            total(sources),
            if pending is Some {
                1nat
            } else {
                0nat
            },
{
    match pending {
        Some(error) => seq![Err(error)] + merged(sources, None, dropping),
        None => if exists|i: int| is_winner(sources, i) {
            let i = choose|i: int| is_winner(sources, i);
            let entry = sources[i][0]->Ok_0;
            let rest = if total(advance(sources, entry.0)) < total(sources) {
                merged(
                    advance(sources, entry.0),
                    raised(sources, entry.0, sources.len()),
                    dropping,
                )
            } else {
                Seq::empty()
            };
            if dropping && entry.1 is None {
                rest
            } else {
                seq![Ok(entry)] + rest
            }
        } else {
            Seq::empty()
        },
    }
}

/// What a merge of sources gives from the start.
pub open spec fn merge_of(sources: Seq<ItemsView>, dropping: bool) -> ItemsView {
    merged(
        Seq::new(sources.len(), |i: int| settle(sources[i])),
        begins_with(sources, sources.len()),
        dropping,
    )
}

/// The entries, if none of the items is an error, else the first error.
pub open spec fn entries_or_error(items: ItemsView) -> Result<Seq<EntryView>, StorageError>
    decreases items.len(),
{
    if items.len() == 0 {
        Ok(Seq::empty())
    } else {
        match items[0] {
            Err(error) => Err(error),
            Ok(entry) => match entries_or_error(items.drop_first()) {
                Err(error) => Err(error),
                Ok(rest) => Ok(seq![entry] + rest),
            },
        }
    }
}

/// What the newest list that has an entry for `key` says of it.
pub open spec fn first_found(lists: Seq<Seq<EntryView>>, key: Seq<u8>) -> Option<Option<Seq<u8>>>
    decreases lists.len(),
{
    if lists.len() == 0 {
        None
    } else {
        match find(lists[0], key) {
            Some(value) => Some(value),
            None => first_found(lists.drop_first(), key),
        }
    }
}

/// What is left to say of a key once tombstones are dropped.
pub open spec fn without_tombstone(
    found: Option<Option<Seq<u8>>>,
    dropping: bool,
) -> Option<Option<Seq<u8>>> {
    if dropping && found == Some(None::<Seq<u8>>) {
        None
    } else {
        found
    }
}

/// Lists of entries as sources without errors.
pub open spec fn as_sources(lists: Seq<Seq<EntryView>>) -> Seq<ItemsView> {
    Seq::new(lists.len(), |i: int| ok_items(lists[i]))
}

proof fn lemma_total_pointwise(a: Seq<ItemsView>, b: Seq<ItemsView>)
    requires
        a.len() == b.len(),
        forall|i: int| 0 <= i < a.len() ==> (#[trigger] a[i]).len() <= b[i].len(),
    ensures
        total(a) <= total(b),
        (exists|i: int| 0 <= i < a.len() && (#[trigger] a[i]).len() < b[i].len()) ==> total(a)
            < total(b),
    decreases a.len(),
{
    if a.len() > 0 {
        let ha = a.drop_last();
        let hb = b.drop_last();
        assert forall|i: int| 0 <= i < ha.len() implies (#[trigger] ha[i]).len()
            <= hb[i].len() by {
            assert(ha[i] == a[i] && hb[i] == b[i]);
        }
        lemma_total_pointwise(ha, hb);
        assert(a[a.len() - 1].len() <= b[b.len() - 1].len());
        if exists|i: int| 0 <= i < a.len() && (#[trigger] a[i]).len() < b[i].len() {
            let i = choose|i: int| 0 <= i < a.len() && (#[trigger] a[i]).len() < b[i].len();
            if i < ha.len() {
                assert(ha[i].len() < hb[i].len());
            }
        }
    }
}

/// Moving past a key leaves less to give.
proof fn lemma_advance_shrinks(sources: Seq<ItemsView>, i: int)
    requires
        0 <= i < sources.len(),
        sources[i].len() > 0,
        sources[i][0] is Ok,
    ensures
        total(advance(sources, sources[i][0]->Ok_0.0)) < total(sources),
{
    let key = sources[i][0]->Ok_0.0;
    let after = advance(sources, key);
    assert forall|j: int| 0 <= j < after.len() implies (#[trigger] after[j]).len()
        <= sources[j].len() by {}
    assert(leads(sources[i], key));
    assert(after[i].len() < sources[i].len());
    lemma_total_pointwise(after, sources);
}

/// No two sources win.
proof fn lemma_one_winner(sources: Seq<ItemsView>, i: int, j: int)
    requires
        is_winner(sources, i),
        is_winner(sources, j),
    ensures
        i == j,
{
    let a = sources[i][0]->Ok_0.0;
    let b = sources[j][0]->Ok_0.0;
    assert(sources[i].len() > 0 && sources[j].len() > 0);
    lemma_lex_irreflexive(a);
    if lex_lt(a, b) {
        lemma_lex_asymmetric(a, b);
    }
    if lex_lt(b, a) {
        lemma_lex_asymmetric(b, a);
    }
}

// ---------------------------------------------------------------------------
// What a merge of readable runs amounts to
// ---------------------------------------------------------------------------

/// What the lists say, where each list is searched by position.
proof fn lemma_first_found_at(lists: Seq<Seq<EntryView>>, key: Seq<u8>, i: int)
    requires
        0 <= i < lists.len(),
        forall|j: int| 0 <= j < i ==> find(#[trigger] lists[j], key) is None,
        find(lists[i], key) is Some,
    ensures
        first_found(lists, key) == find(lists[i], key),
    decreases i,
{
    if i > 0 {
        assert(find(lists[0], key) is None);
        let rest = lists.drop_first();
        assert forall|j: int| 0 <= j < i - 1 implies find(#[trigger] rest[j], key) is None by {
            assert(rest[j] == lists[j + 1]);
        }
        assert(rest[i - 1] == lists[i]);
        lemma_first_found_at(rest, key, i - 1);
    }
}

/// Lists that say the same of a key, one by one, say the same together.
pub proof fn lemma_first_found_same(
    a: Seq<Seq<EntryView>>,
    b: Seq<Seq<EntryView>>,
    key: Seq<u8>,
)
    requires
        a.len() == b.len(),
        forall|i: int| 0 <= i < a.len() ==> find(#[trigger] a[i], key) == find(b[i], key),
    ensures
        first_found(a, key) == first_found(b, key),
    decreases a.len(),
{
    if a.len() > 0 {
        assert(find(a[0], key) == find(b[0], key));
        let ra = a.drop_first();
        let rb = b.drop_first();
        assert forall|i: int| 0 <= i < ra.len() implies find(#[trigger] ra[i], key) == find(
            rb[i],
            key,
        ) by {
            assert(ra[i] == a[i + 1] && rb[i] == b[i + 1]);
        }
        lemma_first_found_same(ra, rb, key);
    }
}

/// If no list has the key, nothing is found.
pub proof fn lemma_first_found_none(lists: Seq<Seq<EntryView>>, key: Seq<u8>)
    ensures
        first_found(lists, key) is None <==> (forall|i: int|
            0 <= i < lists.len() ==> find(#[trigger] lists[i], key) is None),
    decreases lists.len(),
{
    if lists.len() > 0 {
        let rest = lists.drop_first();
        lemma_first_found_none(rest, key);
        if first_found(lists, key) is None {
            assert forall|i: int| 0 <= i < lists.len() implies find(
                #[trigger] lists[i],
                key,
            ) is None by {
                if i > 0 {
                    assert(rest[i - 1] == lists[i]);
                }
            }
        } else if forall|i: int| 0 <= i < lists.len() ==> find(#[trigger] lists[i], key) is None {
            assert(find(lists[0], key) is None);
            assert forall|i: int| 0 <= i < rest.len() implies find(#[trigger] rest[i], key) is None by {
                assert(rest[i] == lists[i + 1]);
            }
        }
    }
}

/// What is found in lists joined end to end.
pub proof fn lemma_first_found_concat(
    a: Seq<Seq<EntryView>>,
    b: Seq<Seq<EntryView>>,
    key: Seq<u8>,
)
    ensures
        first_found(a + b, key) == match first_found(a, key) {
            Some(value) => Some(value),
            None => first_found(b, key),
        },
    decreases a.len(),
{
    if a.len() == 0 {
        assert(a + b =~= b);
    } else {
        assert((a + b).drop_first() =~= a.drop_first() + b);
        assert((a + b)[0] == a[0]);
        lemma_first_found_concat(a.drop_first(), b, key);
    }
}

proof fn lemma_key_not_below_first(list: Seq<EntryView>, bound: Seq<u8>, key: Seq<u8>)
    requires
        ascending(list),
        list.len() > 0 ==> lex_lt(bound, list[0].0),
        find(list, key) is Some,
    ensures
        lex_lt(bound, key),
{
    let i = choose|i: int| 0 <= i < list.len() && (#[trigger] list[i]).0 == key;
    if i > 0 {
        lemma_lex_transitive(bound, list[0].0, list[i].0);
    }
}

proof fn lemma_drop_first_find(list: Seq<EntryView>, key: Seq<u8>)
    requires
        ascending(list),
        list.len() > 0,
    ensures
        ascending(list.drop_first()),
        find(list.drop_first(), key) == if key == list[0].0 {
            None
        } else {
            find(list, key)
        },
        list.drop_first().len() > 0 ==> lex_lt(list[0].0, list.drop_first()[0].0),
{
    let rest = list.drop_first();
    let first = seq![list[0]];
    assert(list =~= first + rest);
    lemma_find_concat(first, rest, key);
    assert(first[0].0 == list[0].0);
    if has_key(first, key) {
        let i = choose|i: int| 0 <= i < first.len() && (#[trigger] first[i]).0 == key;
        assert(i == 0);
    }
    if rest.len() > 0 {
        assert(rest[0] == list[1]);
    }
    if key == list[0].0 && has_key(rest, key) {
        let i = choose|i: int| 0 <= i < rest.len() && (#[trigger] rest[i]).0 == key;
        assert(rest[i] == list[i + 1]);
        assert(lex_lt(list[0].0, list[i + 1].0));
        lemma_lex_irreflexive(key);
    }
}

/// Where there is something to give, some source wins.
proof fn lemma_winner_exists(lists: Seq<Seq<EntryView>>, upto: int) -> (i: int)
    requires
        0 <= upto <= lists.len(),
        exists|j: int| 0 <= j < upto && (#[trigger] lists[j]).len() > 0,
    ensures
        0 <= i < upto,
        lists[i].len() > 0,
        forall|j: int|
            0 <= j < upto && (#[trigger] lists[j]).len() > 0 ==> lex_lt(
                lists[i][0].0,
                lists[j][0].0,
            ) || lists[i][0].0 == lists[j][0].0 && i <= j,
    decreases upto,
{
    let last = upto - 1;
    if exists|j: int| 0 <= j < last && (#[trigger] lists[j]).len() > 0 {
        let i = lemma_winner_exists(lists, last);
        if lists[last].len() > 0 {
            lemma_lex_total(lists[i][0].0, lists[last][0].0);
            if lex_lt(lists[last][0].0, lists[i][0].0) {
                assert forall|j: int|
                    0 <= j < upto && (#[trigger] lists[j]).len() > 0 implies lex_lt(
                    lists[last][0].0,
                    lists[j][0].0,
                ) || lists[last][0].0 == lists[j][0].0 && last <= j by {
                    if j < last {
                        lemma_lex_mixed(lists[last][0].0, lists[i][0].0, lists[j][0].0);
                    }
                }
                last
            } else {
                i
            }
        } else {
            i
        }
    } else {
        let j = choose|j: int| 0 <= j < upto && (#[trigger] lists[j]).len() > 0;
        assert(j == last);
        last
    }
}

/// Each list without its first entry, if that has `key`.
spec fn advance_lists(lists: Seq<Seq<EntryView>>, key: Seq<u8>) -> Seq<Seq<EntryView>> {
    Seq::new(
        lists.len(),
        |i: int|
            if lists[i].len() > 0 && lists[i][0].0 == key {
                lists[i].drop_first()
            } else {
                lists[i]
            },
    )
}

proof fn lemma_advance_plain(lists: Seq<Seq<EntryView>>, key: Seq<u8>)
    ensures
        advance(as_sources(lists), key) == as_sources(advance_lists(lists, key)),
        raised(as_sources(lists), key, lists.len()) is None,
{
    let sources = as_sources(lists);
    let after = advance(sources, key);
    let expected = as_sources(advance_lists(lists, key));
    assert forall|i: int| 0 <= i < lists.len() implies after[i] == expected[i] by {
        if leads(sources[i], key) {
            assert(sources[i][0] == Ok::<EntryView, StorageError>(lists[i][0]));
            assert(sources[i].drop_first() =~= ok_items(lists[i].drop_first()));
            assert(settle(sources[i].drop_first()) =~= ok_items(lists[i].drop_first()));
        } else if lists[i].len() > 0 {
            assert(sources[i][0] == Ok::<EntryView, StorageError>(lists[i][0]));
        }
    }
    assert(after =~= expected);
    lemma_raised_plain(lists, key, lists.len());
}

proof fn lemma_raised_plain(lists: Seq<Seq<EntryView>>, key: Seq<u8>, upto: nat)
    requires
        upto <= lists.len(),
    ensures
        raised(as_sources(lists), key, upto) is None,
    decreases upto,
{
    if upto > 0 {
        lemma_raised_plain(lists, key, (upto - 1) as nat);
    }
}

/// The step of [`law_merge_keeps_the_newest`]: what putting the winning entry in
/// front of the merge of the rest amounts to.
proof fn lemma_merge_step(
    lists: Seq<Seq<EntryView>>,
    i: int,
    rest: Seq<EntryView>,
    dropping: bool,
    out: Seq<EntryView>,
)
    requires
        forall|j: int| 0 <= j < lists.len() ==> ascending(#[trigger] lists[j]),
        is_winner(as_sources(lists), i),
        dropping && lists[i][0].1 is None ==> out == rest,
        !(dropping && lists[i][0].1 is None) ==> out == seq![lists[i][0]] + rest,
        ascending(rest),
        forall|key: Seq<u8>| #[trigger]
            find(rest, key) == without_tombstone(
                first_found(advance_lists(lists, lists[i][0].0), key),
                dropping,
            ),
    ensures
        ascending(out),
        forall|key: Seq<u8>| #[trigger]
            find(out, key) == without_tombstone(first_found(lists, key), dropping),
{
    let sources = as_sources(lists);
    let entry = lists[i][0];
    let after = advance_lists(lists, entry.0);
    assert(sources[i].len() > 0);
    assert(lists[i].len() > 0);
    assert(sources[i][0] == Ok::<EntryView, StorageError>(entry));
    assert forall|j: int| 0 <= j < lists.len() implies ascending(#[trigger] after[j]) && (
    after[j].len() > 0 ==> lex_lt(entry.0, after[j][0].0)) by {
        assert(ascending(lists[j]));
        if lists[j].len() > 0 {
            assert(sources[j].len() > 0);
            assert(sources[j][0] == Ok::<EntryView, StorageError>(lists[j][0]));
            lemma_drop_first_find(lists[j], entry.0);
        }
    }
    assert forall|key: Seq<u8>| key != entry.0 implies #[trigger] first_found(lists, key)
        == first_found(after, key) by {
        assert forall|j: int| 0 <= j < lists.len() implies find(#[trigger] lists[j], key) == find(
            after[j],
            key,
        ) by {
            assert(ascending(lists[j]));
            if lists[j].len() > 0 && lists[j][0].0 == entry.0 {
                lemma_drop_first_find(lists[j], key);
            }
        }
        lemma_first_found_same(lists, after, key);
    }
    assert(first_found(after, entry.0) is None) by {
        assert forall|j: int| 0 <= j < after.len() implies find(#[trigger] after[j], entry.0) is None by {
            if find(after[j], entry.0) is Some {
                lemma_key_not_below_first(after[j], entry.0, entry.0);
                lemma_lex_irreflexive(entry.0);
            }
        }
        lemma_first_found_none(after, entry.0);
    }
    assert(first_found(lists, entry.0) == Some(entry.1)) by {
        assert forall|j: int| 0 <= j < i implies find(#[trigger] lists[j], entry.0) is None by {
            assert(ascending(lists[j]));
            if find(lists[j], entry.0) is Some {
                assert(lists[j].len() > 0);
                assert(sources[j].len() > 0);
                assert(sources[j][0] == Ok::<EntryView, StorageError>(lists[j][0]));
                lemma_key_not_below_first(lists[j], entry.0, entry.0);
                lemma_lex_irreflexive(entry.0);
            }
        }
        lemma_find_at(lists[i], 0);
        lemma_first_found_at(lists, entry.0, i);
    }
    assert forall|key: Seq<u8>| find(rest, key) is Some implies lex_lt(entry.0, key) by {
        assert(first_found(after, key) is Some);
        lemma_first_found_none(after, key);
        let j = choose|j: int| 0 <= j < after.len() && find(#[trigger] after[j], key) is Some;
        lemma_key_not_below_first(after[j], entry.0, key);
    }
    let longer = seq![entry] + rest;
    assert forall|a: int, b: int|
        #![trigger longer[a], longer[b]]
        0 <= a < b < longer.len() implies lex_lt(longer[a].0, longer[b].0) by {
        assert(longer[b] == rest[b - 1]);
        if a == 0 {
            lemma_find_at(rest, b - 1);
        } else {
            assert(longer[a] == rest[a - 1]);
        }
    }
    assert(find(rest, entry.0) is None);
    assert forall|key: Seq<u8>| #[trigger] find(longer, key) == if key == entry.0 {
        Some(entry.1)
    } else {
        find(rest, key)
    } by {
        lemma_find_concat(seq![entry], rest, key);
        if key == entry.0 {
            assert(longer[0].0 == key);
            lemma_find_at(longer, 0);
        } else if has_key(seq![entry], key) {
            let n = choose|n: int|
                0 <= n < seq![entry].len() && (#[trigger] seq![entry][n]).0 == key;
            assert(n == 0);
        }
    }
}

/// A merge of readable runs, newest first, gives every key once, in ascending
/// order, with what the newest run that has an entry for it says; and leaves
/// tombstones out if it is told to.
pub proof fn law_merge_keeps_the_newest(lists: Seq<Seq<EntryView>>, dropping: bool) -> (out: Seq<
    EntryView,
>)
    requires
        forall|j: int| 0 <= j < lists.len() ==> ascending(#[trigger] lists[j]),
    ensures
        merge_of(as_sources(lists), dropping) == ok_items(out),
        ascending(out),
        forall|key: Seq<u8>| #[trigger]
            find(out, key) == without_tombstone(first_found(lists, key), dropping),
{
    let sources = as_sources(lists);
    let settled = Seq::new(sources.len(), |i: int| settle(sources[i]));
    assert(settled =~= sources) by {
        assert forall|i: int| 0 <= i < sources.len() implies settled[i] == sources[i] by {}
    }
    lemma_begins_plain(lists, lists.len());
    lemma_merged_plain(lists, dropping)
}

/// One of the items is an error.
pub open spec fn has_error(items: ItemsView) -> bool {
    exists|i: int| 0 <= i < items.len() && #[trigger] items[i] is Err
}

/// Items with an error among them do not make a list of entries, and others do.
pub proof fn law_errors_are_handed_on(items: ItemsView)
    ensures
        entries_or_error(items) is Err <==> has_error(items),
        entries_or_error(items) matches Ok(entries) ==> items == ok_items(entries),
    decreases items.len(),
{
    if items.len() > 0 {
        let rest = items.drop_first();
        law_errors_are_handed_on(rest);
        if items[0] is Ok {
            if has_error(items) {
                let i = choose|i: int| 0 <= i < items.len() && #[trigger] items[i] is Err;
                assert(rest[i - 1] is Err);
            }
            if has_error(rest) {
                let i = choose|i: int| 0 <= i < rest.len() && #[trigger] rest[i] is Err;
                assert(items[i + 1] is Err);
            }
            if entries_or_error(items) is Ok {
                let entries = entries_or_error(rest)->Ok_0;
                assert(items =~= ok_items(seq![items[0]->Ok_0] + entries)) by {
                    assert forall|i: int| 0 <= i < items.len() implies items[i] == ok_items(
                        seq![items[0]->Ok_0] + entries,
                    )[i] by {
                        if i > 0 {
                            assert(rest[i - 1] == ok_items(entries)[i - 1]);
                        }
                    }
                }
            }
        } else {
            assert(items[0] is Err);
        }
    } else {
        assert(items =~= ok_items(Seq::empty()));
    }
}

/// Where something is left to give, some source has the smallest key.
proof fn lemma_some_winner(sources: Seq<ItemsView>, at: int) -> (i: int)
    requires
        0 <= at < sources.len(),
        sources[at].len() > 0,
    ensures
        is_winner(sources, i),
{
    let lists = Seq::new(
        sources.len(),
        |i: int| Seq::new(sources[i].len(), |j: int| sources[i][j]->Ok_0),
    );
    assert(lists[at].len() > 0);
    let i = lemma_winner_exists(lists, lists.len() as int);
    assert forall|j: int| 0 <= j < sources.len() && (#[trigger] sources[j]).len() > 0 implies {
        ||| lex_lt(sources[i][0]->Ok_0.0, sources[j][0]->Ok_0.0)
        ||| sources[i][0]->Ok_0.0 == sources[j][0]->Ok_0.0 && i <= j
    } by {
        assert(lists[j].len() > 0);
    }
    i
}

/// An error that a source reaches is raised.
proof fn lemma_raised(sources: Seq<ItemsView>, key: Seq<u8>, upto: nat, at: int)
    requires
        0 <= at < upto <= sources.len(),
        leads(sources[at], key),
        error_at(sources[at].drop_first()) is Some,
    ensures
        raised(sources, key, upto) is Some,
    decreases upto,
{
    if at < upto - 1 {
        lemma_raised(sources, key, (upto - 1) as nat, at);
    }
}

proof fn lemma_begun(sources: Seq<ItemsView>, upto: nat, at: int)
    requires
        0 <= at < upto <= sources.len(),
        error_at(sources[at]) is Some,
    ensures
        begins_with(sources, upto) is Some,
    decreases upto,
{
    if at < upto - 1 {
        lemma_begun(sources, (upto - 1) as nat, at);
    }
}

proof fn lemma_merged_hands_errors_on(
    sources: Seq<ItemsView>,
    pending: Option<StorageError>,
    dropping: bool,
    at: int,
)
    requires
        forall|i: int| 0 <= i < sources.len() && (#[trigger] sources[i]).len() > 0 ==> sources[i][0] is Ok,
        pending is Some || 0 <= at < sources.len() && has_error(sources[at]),
    ensures
        has_error(merged(sources, pending, dropping)),
    decreases total(sources),
{
    let out = merged(sources, pending, dropping);
    match pending {
        Some(error) => {
            assert(out[0] is Err);
        },
        None => {
            let j = choose|j: int| 0 <= j < sources[at].len() && #[trigger] sources[at][j] is Err;
            let found = lemma_some_winner(sources, at);
            let i = choose|i: int| is_winner(sources, i);
            let entry = sources[i][0]->Ok_0;
            let after = advance(sources, entry.0);
            let raise = raised(sources, entry.0, sources.len());
            lemma_advance_shrinks(sources, i);
            assert forall|k: int| 0 <= k < after.len() && (#[trigger] after[k]).len()
                > 0 implies after[k][0] is Ok by {
                assert(sources[k].len() > 0);
            }
            if leads(sources[at], entry.0) {
                let left = sources[at].drop_first();
                assert(left[j - 1] is Err);
                if left[0] is Err {
                    lemma_raised(sources, entry.0, sources.len(), at);
                } else {
                    assert(after[at] == left);
                    assert(has_error(after[at]));
                }
            } else {
                assert(after[at] == sources[at]);
            }
            lemma_merged_hands_errors_on(after, raise, dropping, at);
            let rest = merged(after, raise, dropping);
            let k = choose|k: int| 0 <= k < rest.len() && #[trigger] rest[k] is Err;
            if dropping && entry.1 is None {
                assert(out[k] is Err);
            } else {
                assert(out[k + 1] == rest[k]);
            }
        },
    }
}

/// No merge silently skips what it could not read: if any source has an error, the merge
/// hands one out, and is no list of entries.
pub proof fn law_no_merge_skips_what_it_could_not_read(
    sources: Seq<ItemsView>,
    dropping: bool,
    at: int,
)
    requires
        0 <= at < sources.len(),
        has_error(sources[at]),
    ensures
        has_error(merge_of(sources, dropping)),
        entries_or_error(merge_of(sources, dropping)) is Err,
{
    let settled = Seq::new(sources.len(), |i: int| settle(sources[i]));
    let pending = begins_with(sources, sources.len());
    if sources[at][0] is Err {
        lemma_begun(sources, sources.len(), at);
    } else {
        assert(settled[at] == sources[at]);
    }
    lemma_merged_hands_errors_on(settled, pending, dropping, at);
    law_errors_are_handed_on(merge_of(sources, dropping));
}

proof fn lemma_begins_plain(lists: Seq<Seq<EntryView>>, upto: nat)
    requires
        upto <= lists.len(),
    ensures
        begins_with(as_sources(lists), upto) is None,
    decreases upto,
{
    if upto > 0 {
        lemma_begins_plain(lists, (upto - 1) as nat);
    }
}

proof fn lemma_merged_plain(lists: Seq<Seq<EntryView>>, dropping: bool) -> (out: Seq<EntryView>)
    requires
        forall|j: int| 0 <= j < lists.len() ==> ascending(#[trigger] lists[j]),
    ensures
        merged(as_sources(lists), None, dropping) == ok_items(out),
        ascending(out),
        forall|key: Seq<u8>| #[trigger]
            find(out, key) == without_tombstone(first_found(lists, key), dropping),
    decreases total(as_sources(lists)),
{
    let sources = as_sources(lists);
    if exists|i: int| is_winner(sources, i) {
        let i = choose|i: int| is_winner(sources, i);
        let entry = lists[i][0];
        assert(sources[i].len() > 0);
        assert(sources[i][0] == Ok::<EntryView, StorageError>(entry));
        lemma_advance_shrinks(sources, i);
        lemma_advance_plain(lists, entry.0);
        let after = advance_lists(lists, entry.0);
        assert forall|j: int| 0 <= j < after.len() implies ascending(#[trigger] after[j]) by {
            assert(ascending(lists[j]));
            if lists[j].len() > 0 {
                lemma_drop_first_find(lists[j], entry.0);
            }
        }
        let rest = lemma_merged_plain(after, dropping);
        let out = if dropping && entry.1 is None {
            rest
        } else {
            seq![entry] + rest
        };
        lemma_merge_step(lists, i, rest, dropping, out);
        assert(ok_items(seq![entry] + rest) =~= seq![Ok::<EntryView, StorageError>(entry)]
            + ok_items(rest));
        out
    } else {
        assert forall|j: int| 0 <= j < lists.len() implies (#[trigger] lists[j]).len() == 0 by {
            if lists[j].len() > 0 {
                let i = lemma_winner_exists(lists, lists.len() as int);
                assert forall|k: int|
                    0 <= k < sources.len() && (#[trigger] sources[k]).len() > 0 implies {
                    ||| lex_lt(sources[i][0]->Ok_0.0, sources[k][0]->Ok_0.0)
                    ||| sources[i][0]->Ok_0.0 == sources[k][0]->Ok_0.0 && i <= k
                } by {
                    assert(lists[k].len() > 0);
                }
                assert(is_winner(sources, i));
            }
        }
        let out = Seq::<EntryView>::empty();
        assert(merged(sources, None, dropping) =~= ok_items(out));
        assert forall|key: Seq<u8>| #[trigger] find(out, key) == without_tombstone(
            first_found(lists, key),
            dropping,
        ) by {
            assert forall|j: int| 0 <= j < lists.len() implies find(
                #[trigger] lists[j],
                key,
            ) is None by {}
            lemma_first_found_none(lists, key);
        }
        out
    }
}

/// Entries without an error among them are all had.
pub proof fn lemma_all_entries(entries: Seq<EntryView>)
    ensures
        entries_or_error(ok_items(entries)) == Ok::<Seq<EntryView>, StorageError>(entries),
    decreases entries.len(),
{
    if entries.len() == 0 {
        assert(entries =~= Seq::<EntryView>::empty());
    } else {
        let items = ok_items(entries);
        assert(items[0] == Ok::<EntryView, StorageError>(entries[0]));
        assert(items.drop_first() =~= ok_items(entries.drop_first()));
        lemma_all_entries(entries.drop_first());
        assert(entries =~= seq![entries[0]] + entries.drop_first());
    }
}

// ---------------------------------------------------------------------------
// The merge itself
// ---------------------------------------------------------------------------

/// Merges sorted runs into one ascending stream.
#[derive(Debug)]
pub struct MergeIterator {
    /// What each source has behind its head, in reverse.
    rest: Vec<Source>,
    /// The next entry of each source; a source without one is at its end.
    heads: Vec<Option<(Key, Value)>>,
    dropping: bool,
    pending_error: Option<StorageError>,
}

/// The content of a head.
pub open spec fn head_of(head: Option<(Key, Value)>) -> Option<EntryView> {
    match head {
        Some(entry) => Some((entry.0@, entry.1@)),
        None => None,
    }
}

impl MergeIterator {
    /// What source `i` has to give.
    spec fn source(&self, i: int) -> ItemsView {
        match head_of(self.heads@[i]) {
            Some(entry) => seq![Ok::<EntryView, StorageError>(entry)] + items_of(
                self.rest@[i]@,
            ).reverse(),
            None => Seq::empty(),
        }
    }

    /// What the sources have to give.
    spec fn sources(&self) -> Seq<ItemsView> {
        Seq::new(self.heads@.len(), |i: int| self.source(i))
    }

    /// There is a head for every source.
    pub closed spec fn wf(&self) -> bool {
        self.rest@.len() == self.heads@.len()
    }

    proof fn lemma_same_sources(&self, other: &Self)
        requires
            self.heads == other.heads,
            self.rest == other.rest,
        ensures
            self.sources() == other.sources(),
    {
        assert forall|i: int| 0 <= i < self.heads@.len() implies self.sources()[i]
            == other.sources()[i] by {}
        assert(self.sources() =~= other.sources());
    }

    /// Merges `sources`, which come newest first, each in ascending key order.
    pub fn new(sources: Vec<Source>) -> (merge: Self)
        ensures
            merge.wf(),
            merge@ == merge_of(sources_of(sources@), false),
    {
        Self::start(sources, false)
    }

    /// Merges `sources`, leaving tombstones out. Right only where nothing older
    /// is left for them to shadow.
    pub fn dropping_tombstones(sources: Vec<Source>) -> (merge: Self)
        ensures
            merge.wf(),
            merge@ == merge_of(sources_of(sources@), true),
    {
        Self::start(sources, true)
    }

    fn start(sources: Vec<Source>, dropping: bool) -> (merge: Self)
        ensures
            merge.wf(),
            merge@ == merge_of(sources_of(sources@), dropping),
    {
        let ghost all = sources_of(sources@);
        let mut waiting: Vec<Source> = reverse_sources(sources);
        let mut merge = MergeIterator {
            rest: Vec::new(),
            heads: Vec::new(),
            dropping,
            pending_error: None,
        };
        let ghost mut done: int = 0;
        proof {
            assert(merge.sources() =~= Seq::new(0, |i: int| settle(all[i])));
            assert(sources_of(waiting@) =~= all.skip(0).reverse());
        }
        while waiting.len() > 0
            invariant
                0 <= done <= all.len(),
                sources_of(waiting@) == all.skip(done).reverse(),
                merge.rest@.len() == done,
                merge.heads@.len() == done,
                merge.dropping == dropping,
                merge.sources() == Seq::new(done as nat, |i: int| settle(all[i])),
                merge.pending_error == begins_with(all, done as nat),
            decreases waiting@.len(),
        {
            let ghost before = merge;
            let ghost shown = sources_of(waiting@);
            match waiting.pop() {
                None => {},
                Some(source) => {
                    let ghost view = items_of(source@);
                    proof {
                        assert(shown.last() == view);
                        assert(all.skip(done).reverse().last() == all[done]);
                        assert(sources_of(waiting@) =~= shown.drop_last());
                        assert(all.skip(done).reverse().drop_last() =~= all.skip(
                            done + 1,
                        ).reverse());
                    }
                    let mut source: Source = reverse_source(source);
                    let (head, error): (Option<(Key, Value)>, Option<StorageError>) = take_head(
                        &mut source,
                        Ghost(view),
                    );
                    if merge.pending_error.is_none() {
                        merge.pending_error = error;
                    }
                    merge.rest.push(source);
                    merge.heads.push(head);
                    proof {
                        assert forall|i: int| 0 <= i < done implies merge.sources()[i]
                            == before.sources()[i] by {
                            assert(merge.heads@[i] == before.heads@[i]);
                            assert(merge.rest@[i] == before.rest@[i]);
                        }
                        assert(merge.sources()[done] =~= settle(all[done]));
                        assert(merge.sources() =~= Seq::new(
                            (done + 1) as nat,
                            |i: int| settle(all[i]),
                        ));
                        done = done + 1;
                    }
                },
            }
        }
        proof {
            assert(all.skip(done).reverse().len() == 0);
            assert(merge.sources() =~= Seq::new(all.len(), |i: int| settle(all[i])));
        }
        merge
    }

    /// The source that has the smallest key to give, and is the newest that has
    /// it.
    fn winner(&self) -> (winner: Option<usize>)
        requires
            self.rest@.len() == self.heads@.len(),
        ensures
            match winner {
                Some(i) => is_winner(self.sources(), i as int),
                None => forall|i: int|
                    0 <= i < self.heads@.len() ==> (#[trigger] self.sources()[i]).len() == 0,
            },
    {
        let ghost sources = self.sources();
        let mut best: Option<usize> = None;
        let mut i: usize = 0;
        while i < self.heads.len()
            invariant
                i <= self.heads@.len(),
                sources == self.sources(),
                self.rest@.len() == self.heads@.len(),
                match best {
                    Some(b) => b < i && sources[b as int].len() > 0 && forall|j: int|
                        0 <= j < i && (#[trigger] sources[j]).len() > 0 ==> {
                            ||| lex_lt(sources[b as int][0]->Ok_0.0, sources[j][0]->Ok_0.0)
                            ||| sources[b as int][0]->Ok_0.0 == sources[j][0]->Ok_0.0 && b <= j
                        },
                    None => forall|j: int| 0 <= j < i ==> (#[trigger] sources[j]).len() == 0,
                },
            decreases self.heads@.len() - i,
        {
            let ghost was = best;
            match &self.heads[i] {
                None => {
                    proof {
                        assert(sources[i as int].len() == 0);
                    }
                },
                Some(entry) => {
                    proof {
                        assert(sources[i as int][0] == Ok::<EntryView, StorageError>(
                            (entry.0@, entry.1@),
                        ));
                    }
                    match best {
                        None => {
                            best = Some(i);
                        },
                        Some(b) => {
                            match &self.heads[b] {
                                None => {},
                                Some(leader) => {
                                    proof {
                                        assert(sources[b as int][0] == Ok::<
                                            EntryView,
                                            StorageError,
                                        >((leader.0@, leader.1@)));
                                    }
                                    match compare_keys(entry.0.as_slice(), leader.0.as_slice()) {
                                        KeyOrder::Less => {
                                            proof {
                                                assert forall|j: int|
                                                    0 <= j < i && (#[trigger] sources[j]).len()
                                                        > 0 implies lex_lt(
                                                    entry.0@,
                                                    sources[j][0]->Ok_0.0,
                                                ) by {
                                                    lemma_lex_mixed(
                                                        entry.0@,
                                                        leader.0@,
                                                        sources[j][0]->Ok_0.0,
                                                    );
                                                }
                                            }
                                            best = Some(i);
                                        },
                                        _ => {},
                                    }
                                },
                            }
                        },
                    }
                },
            }
            i = i + 1;
        }
        best
    }

    /// Moves source `i` on to its next entry.
    fn refill(&mut self, i: usize, key: Ghost<Seq<u8>>)
        requires
            i < old(self).heads@.len(),
            old(self).rest@.len() == old(self).heads@.len(),
            leads(old(self).sources()[i as int], key@),
        ensures
            final(self).rest@.len() == old(self).rest@.len(),
            final(self).heads@.len() == old(self).heads@.len(),
            final(self).dropping == old(self).dropping,
            final(self).sources() == old(self).sources().update(
                i as int,
                settle(old(self).sources()[i as int].drop_first()),
            ),
            final(self).pending_error == match old(self).pending_error {
                Some(error) => Some(error),
                None => error_at(old(self).sources()[i as int].drop_first()),
            },
    {
        let ghost before = *self;
        let ghost items = self.sources()[i as int];
        let ghost behind = items_of(self.rest@[i as int]@).reverse();
        proof {
            assert(items.drop_first() =~= behind);
        }
        let mut source: Source = Vec::new();
        std::mem::swap(&mut source, &mut self.rest[i]);
        let (head, error): (Option<(Key, Value)>, Option<StorageError>) = take_head(
            &mut source,
            Ghost(behind),
        );
        if self.pending_error.is_none() {
            self.pending_error = error;
        }
        self.rest[i] = source;
        self.heads[i] = head;
        proof {
            let expected = before.sources().update(i as int, settle(items.drop_first()));
            assert forall|j: int| 0 <= j < self.heads@.len() implies self.sources()[j]
                == expected[j] by {
                if j != i {
                    assert(self.heads@[j] == before.heads@[j]);
                    assert(self.rest@[j] == before.rest@[j]);
                } else {
                    assert(self.sources()[j] =~= settle(behind));
                }
            }
            assert(self.sources() =~= expected);
        }
    }

    /// Whether source `i` has `key` to give next.
    fn head_has(&self, i: usize, key: &Key) -> (has: bool)
        requires
            i < self.heads@.len(),
        ensures
            has == leads(self.sources()[i as int], key@),
    {
        match &self.heads[i] {
            None => false,
            Some(entry) => {
                proof {
                    assert(self.sources()[i as int][0] == Ok::<EntryView, StorageError>(
                        (entry.0@, entry.1@),
                    ));
                }
                match compare_keys(entry.0.as_slice(), key.as_slice()) {
                    KeyOrder::Equal => true,
                    _ => false,
                }
            },
        }
    }

    /// Moves every source that has `key` to give past it.
    fn skip_key(&mut self, key: &Key)
        requires
            old(self).rest@.len() == old(self).heads@.len(),
            old(self).pending_error is None,
        ensures
            final(self).rest@.len() == final(self).heads@.len(),
            final(self).dropping == old(self).dropping,
            final(self).sources() == advance(old(self).sources(), key@),
            final(self).pending_error == raised(
                old(self).sources(),
                key@,
                old(self).sources().len(),
            ),
    {
        let ghost start = self.sources();
        let mut i: usize = 0;
        while i < self.heads.len()
            invariant
                i <= self.heads@.len(),
                self.heads@.len() == start.len(),
                self.rest@.len() == self.heads@.len(),
                self.dropping == old(self).dropping,
                partly_advanced(start, self.sources(), key@, i as int),
                self.pending_error == raised(start, key@, i as nat),
            decreases self.heads@.len() - i,
        {
            let ghost now = self.sources();
            if self.head_has(i, key) {
                self.refill(i, Ghost(key@));
            }
            proof {
                lemma_partly_advanced(start, now, self.sources(), key@, i as int);
            }
            i = i + 1;
        }
        proof {
            assert(self.sources() =~= advance(start, key@));
        }
    }

    /// The next entry, or the error that the merge has reached.
    pub fn next(&mut self) -> (item: Option<Result<(Key, Value), StorageError>>)
        requires
            old(self).wf(),
        ensures
            final(self).wf(),
            match item {
                Some(item) => old(self)@.len() > 0 && item_of(item) == old(self)@[0]
                    && final(self)@ == old(self)@.drop_first(),
                None => old(self)@.len() == 0 && final(self)@ == old(self)@,
            },
    {
        let ghost all = self@;
        loop
            invariant
                self.wf(),
                self@ == all,
                all == old(self)@,
            decreases total(self.sources()),
        {
            if let Some(error) = self.pending_error {
                let ghost before = *self;
                self.pending_error = None;
                proof {
                    self.lemma_same_sources(&before);
                    assert(self@ =~= all.drop_first());
                }
                return Some(Err(error));
            }
            match self.winner() {
                None => {
                    proof {
                        assert(!exists|i: int| is_winner(self.sources(), i));
                        assert(all.len() == 0);
                    }
                    return None;
                },
                Some(i) => {
                    let ghost sources = self.sources();
                    let entry: (Key, Value) = match &self.heads[i] {
                        Some(entry) => copy_entry(entry),
                        None => {
                            proof {
                                assert(sources[i as int].len() == 0);
                            }
                            return None;
                        },
                    };
                    let ghost shown = (entry.0@, entry.1@);
                    proof {
                        assert(sources[i as int][0] == Ok::<EntryView, StorageError>(shown));
                        assert(is_winner(sources, i as int));
                        let w = choose|w: int| is_winner(sources, w);
                        lemma_one_winner(sources, i as int, w);
                        lemma_advance_shrinks(sources, i as int);
                    }
                    self.skip_key(&entry.0);
                    if self.dropping && entry.1.is_tombstone() {
                        continue;
                    }
                    proof {
                        assert(self@ =~= all.drop_first());
                    }
                    return Some(Ok(entry));
                },
            }
        }
    }

    /// Every entry still to come, or the first error.
    pub fn collect(self) -> (collected: Result<Vec<(Key, Value)>, StorageError>)
        requires
            self.wf(),
        ensures
            match collected {
                Ok(entries) => entries_or_error(self@) == Ok::<Seq<EntryView>, StorageError>(
                    entries_of(entries@),
                ),
                Err(error) => entries_or_error(self@) == Err::<Seq<EntryView>, StorageError>(error),
            },
    {
        let mut merge = self;
        let mut entries: Vec<(Key, Value)> = Vec::new();
        proof {
            lemma_behind_empty(entries_of(entries@), self@);
        }
        loop
            invariant
                merge.wf(),
                entries_or_error(self@) == behind(entries_of(entries@), entries_or_error(merge@)),
            decreases merge@.len(),
        {
            let ghost left = merge@;
            let ghost before = entries_of(entries@);
            match merge.next() {
                None => {
                    proof {
                        assert(before + Seq::<EntryView>::empty() =~= before);
                    }
                    return Ok(entries);
                },
                Some(Err(error)) => {
                    return Err(error);
                },
                Some(Ok(entry)) => {
                    let ghost shown = (entry.0@, entry.1@);
                    entries.push(entry);
                    proof {
                        assert(entries_of(entries@) =~= before.push(shown));
                        match entries_or_error(merge@) {
                            Ok(rest) => {
                                assert(before + (seq![shown] + rest) =~= before.push(shown) + rest);
                            },
                            Err(_) => {},
                        }
                    }
                },
            }
        }
    }
}

impl View for MergeIterator {
    type V = ItemsView;

    /// What is still to come.
    closed spec fn view(&self) -> ItemsView {
        merged(self.sources(), self.pending_error, self.dropping)
    }
}

/// The first `upto` sources have moved past `key` and the others have not yet.
spec fn partly_advanced(
    start: Seq<ItemsView>,
    now: Seq<ItemsView>,
    key: Seq<u8>,
    upto: int,
) -> bool {
    &&& now.len() == start.len()
    &&& forall|j: int| 0 <= j < upto ==> #[trigger] now[j] == advance(start, key)[j]
    &&& forall|j: int| upto <= j < start.len() ==> #[trigger] now[j] == start[j]
}

proof fn lemma_partly_advanced(
    start: Seq<ItemsView>,
    before: Seq<ItemsView>,
    after: Seq<ItemsView>,
    key: Seq<u8>,
    i: int,
)
    requires
        partly_advanced(start, before, key, i),
        0 <= i < start.len(),
        after == if leads(start[i], key) {
            before.update(i, settle(start[i].drop_first()))
        } else {
            before
        },
    ensures
        partly_advanced(start, after, key, i + 1),
{
    assert forall|j: int| 0 <= j < i + 1 implies #[trigger] after[j] == advance(start, key)[j] by {
        if j < i {
            assert(before[j] == advance(start, key)[j]);
        } else {
            assert(before[j] == start[j]);
        }
    }
    assert forall|j: int| i + 1 <= j < start.len() implies #[trigger] after[j] == start[j] by {
        assert(before[j] == start[j]);
    }
}

spec fn behind(
    list: Seq<EntryView>,
    rest: Result<Seq<EntryView>, StorageError>,
) -> Result<Seq<EntryView>, StorageError> {
    match rest {
        Ok(rest) => Ok(list + rest),
        Err(error) => Err(error),
    }
}

proof fn lemma_behind_empty(list: Seq<EntryView>, items: ItemsView)
    requires
        list.len() == 0,
    ensures
        behind(list, entries_or_error(items)) == entries_or_error(items),
{
    match entries_or_error(items) {
        Ok(rest) => {
            assert(list + rest =~= rest);
        },
        Err(_) => {},
    }
}

/// Takes the next item of a source: an entry, or the error at which it ends.
fn take_head(source: &mut Source, items: Ghost<ItemsView>) -> (taken: (
    Option<(Key, Value)>,
    Option<StorageError>,
))
    requires
        items_of(old(source)@).reverse() == items@,
    ensures
        taken.1 == error_at(items@),
        match head_of(taken.0) {
            Some(entry) => settle(items@) == seq![Ok::<EntryView, StorageError>(entry)] + items_of(
                final(source)@,
            ).reverse(),
            None => settle(items@) == Seq::<Result<EntryView, StorageError>>::empty(),
        },
{
    let ghost shown = items_of(source@);
    match source.pop() {
        None => {
            proof {
                assert(items@.len() == 0);
                assert(settle(items@) =~= Seq::<Result<EntryView, StorageError>>::empty());
            }
            (None, None)
        },
        Some(item) => {
            proof {
                assert(shown.last() == item_of(item));
                assert(shown.reverse()[0] == shown.last());
                assert(items_of(source@) =~= shown.drop_last());
                assert(shown.drop_last().reverse() =~= items@.drop_first());
                assert(items@ =~= seq![items@[0]] + items@.drop_first());
            }
            match item {
                Ok(entry) => (Some(entry), None),
                Err(error) => (None, Some(error)),
            }
        },
    }
}

fn reverse_source(source: Source) -> (reversed: Source)
    ensures
        items_of(reversed@) == items_of(source@).reverse(),
        items_of(reversed@).reverse() == items_of(source@),
{
    let ghost view = items_of(source@);
    let mut rest: Source = source;
    let mut reversed: Source = Vec::new();
    while rest.len() > 0
        invariant
            rest@.len() + reversed@.len() == view.len(),
            items_of(rest@) == view.take(rest@.len() as int),
            items_of(reversed@) == view.skip(rest@.len() as int).reverse(),
        decreases rest@.len(),
    {
        let ghost shown = items_of(rest@);
        let ghost before = reversed@;
        let ghost n = rest@.len() as int;
        match rest.pop() {
            None => {},
            Some(item) => {
                reversed.push(item);
                proof {
                    assert(item_of(item) == shown.last());
                    assert(items_of(rest@) =~= shown.drop_last());
                    assert(shown.drop_last() =~= view.take(n - 1));
                    assert(items_of(reversed@) =~= items_of(before).push(item_of(item)));
                    assert(view.skip(n - 1).reverse() =~= view.skip(n).reverse().push(view[n - 1]));
                }
            },
        }
    }
    proof {
        assert(view.skip(0) =~= view);
        assert(view.reverse().reverse() =~= view);
    }
    reversed
}

fn reverse_sources(sources: Vec<Source>) -> (reversed: Vec<Source>)
    ensures
        sources_of(reversed@) == sources_of(sources@).reverse(),
{
    let ghost view = sources_of(sources@);
    let mut rest: Vec<Source> = sources;
    let mut reversed: Vec<Source> = Vec::new();
    while rest.len() > 0
        invariant
            rest@.len() + reversed@.len() == view.len(),
            sources_of(rest@) == view.take(rest@.len() as int),
            sources_of(reversed@) == view.skip(rest@.len() as int).reverse(),
        decreases rest@.len(),
    {
        let ghost shown = sources_of(rest@);
        let ghost before = reversed@;
        let ghost n = rest@.len() as int;
        match rest.pop() {
            None => {},
            Some(source) => {
                reversed.push(source);
                proof {
                    assert(items_of(source@) == shown.last());
                    assert(sources_of(rest@) =~= shown.drop_last());
                    assert(shown.drop_last() =~= view.take(n - 1));
                    assert(sources_of(reversed@) =~= sources_of(before).push(items_of(source@)));
                    assert(view.skip(n - 1).reverse() =~= view.skip(n).reverse().push(view[n - 1]));
                }
            },
        }
    }
    proof {
        assert(view.skip(0) =~= view);
    }
    reversed
}

/// The entries of a memtable as a source.
pub fn memtable_source(memtable: &MemTable) -> (source: Source)
    ensures
        items_of(source@) == ok_items(memtable.sorted()),
{
    entries_source(memtable.iter())
}

/// A list of entries as a source.
pub fn entries_source(entries: &[(Key, Value)]) -> (source: Source)
    ensures
        items_of(source@) == ok_items(entries_of(entries@)),
{
    let mut source: Source = Vec::new();
    let mut i: usize = 0;
    while i < entries.len()
        invariant
            i <= entries@.len(),
            source@.len() == i,
            forall|j: int|
                0 <= j < i ==> item_of(#[trigger] source@[j]) == Ok::<EntryView, StorageError>(
                    entries_of(entries@)[j],
                ),
        decreases entries@.len() - i,
    {
        source.push(Ok(copy_entry(&entries[i])));
        i = i + 1;
    }
    proof {
        assert(items_of(source@) =~= ok_items(entries_of(entries@)));
    }
    source
}

/// The entries of a table as a source.
pub fn sstable_source(table: &SSTable) -> (source: Source)
    requires
        table.wf(),
    ensures
        items_of(source@) == table@.items(),
{
    table.entries()
}

} // verus!
