//! What a tree is, what it answers, and how it may change.
//!
//! Reads go newest source first: the memtable, then each level in turn, and
//! within a level each run from newest to oldest. The first entry found wins,
//! a tombstone included.

use vstd::prelude::*;

use super::entries::{ascending, find, has_key, lemma_find_at, EntryView};
use super::levels::{all_runs, lemma_first_found_one, levels_intact, lists_of};
use super::merge::{
    as_sources, first_found, law_merge_keeps_the_newest, lemma_first_found_concat, merge_of,
    without_tombstone, ItemsView,
};
use super::order::{lemma_lex_irreflexive, lex_lt};
use super::run::{
    law_run_get_finds, law_run_items, law_run_items_from, run_entries, run_get, run_intact,
    run_items, run_items_from, RunView,
};
use super::sstable::{at_or_after, ok_items};
use super::StorageError;

verus! {

/// What has been done so far.
#[derive(Debug, Clone, Copy, PartialEq, Eq, Structural)]
pub struct Counters {
    pub flush_count: u64,
    pub compaction_count: u64,
    /// Key and value bytes handed in by the caller.
    pub user_bytes_written: u64,
    /// Bytes of tables written, by flushes and compactions together.
    pub sstable_bytes_written: u64,
    /// Bytes of tables written by compactions.
    pub compaction_bytes_written: u64,
}

/// What a tree is.
#[verifier::ext_equal]
pub struct TreeView {
    /// The entries of the memtable, in ascending key order.
    pub memtable: Seq<EntryView>,
    /// The log, which holds what the memtable was made from.
    pub log: Seq<u8>,
    /// The levels, newest first, and in each the runs, newest first.
    pub levels: Seq<Seq<RunView>>,
    /// The next unused sequence number.
    pub next_sequence: nat,
    pub counters: Counters,
}

/// Everything that a read consults, newest first.
pub open spec fn tree_lists(tree: TreeView) -> Seq<Seq<EntryView>> {
    seq![tree.memtable] + lists_of(all_runs(tree.levels))
}

/// What is left of a finding: the value of a live key.
pub open spec fn live_value(found: Option<Option<Seq<u8>>>) -> Option<Seq<u8>> {
    match found {
        Some(value) => value,
        None => None,
    }
}

/// The value of a key: none if it was never written or was deleted.
pub open spec fn answer(tree: TreeView, key: Seq<u8>) -> Option<Seq<u8>> {
    live_value(first_found(tree_lists(tree), key))
}

// ---------------------------------------------------------------------------
// Reading
// ---------------------------------------------------------------------------

/// What runs, asked one after the other, say of a key.
pub open spec fn runs_find(runs: Seq<RunView>, key: Seq<u8>) -> Result<
    Option<Option<Seq<u8>>>,
    StorageError,
>
    decreases runs.len(),
{
    if runs.len() == 0 {
        Ok(None)
    } else {
        match run_get(runs[0].tables, key) {
            Err(error) => Err(error),
            // A tombstone is an answer.
            Ok(Some(value)) => Ok(Some(value)),
            Ok(None) => runs_find(runs.drop_first(), key),
        }
    }
}

/// What a lookup gives.
pub open spec fn tree_get(tree: TreeView, key: Seq<u8>) -> Result<Option<Seq<u8>>, StorageError> {
    match find(tree.memtable, key) {
        Some(value) => Ok(value),
        None => match runs_find(all_runs(tree.levels), key) {
            Err(error) => Err(error),
            Ok(found) => Ok(live_value(found)),
        },
    }
}

/// Runs asked in two stretches.
pub proof fn lemma_runs_find_concat(a: Seq<RunView>, b: Seq<RunView>, key: Seq<u8>)
    ensures
        runs_find(a + b, key) == match runs_find(a, key) {
            Ok(None) => runs_find(b, key),
            found => found,
        },
    decreases a.len(),
{
    if a.len() == 0 {
        assert(a + b =~= b);
    } else {
        assert((a + b).drop_first() =~= a.drop_first() + b);
        assert((a + b)[0] == a[0]);
        lemma_runs_find_concat(a.drop_first(), b, key);
    }
}

/// What the first levels say, if they say anything, all levels say.
pub proof fn lemma_runs_find_prefix(levels: Seq<Seq<RunView>>, l: int, key: Seq<u8>)
    requires
        0 <= l <= levels.len(),
        runs_find(all_runs(levels.take(l)), key) != Ok::<Option<Option<Seq<u8>>>, StorageError>(
            None,
        ),
    ensures
        runs_find(all_runs(levels), key) == runs_find(all_runs(levels.take(l)), key),
    decreases levels.len(),
{
    if l == levels.len() {
        assert(levels.take(l) =~= levels);
    } else {
        let head = levels.drop_last();
        assert(head.take(l) =~= levels.take(l));
        lemma_runs_find_prefix(head, l, key);
        lemma_runs_find_concat(all_runs(head), levels.last(), key);
    }
}

/// What runs give, each as it is read.
pub open spec fn run_sources(runs: Seq<RunView>) -> Seq<ItemsView> {
    Seq::new(runs.len(), |i: int| run_items(runs[i].tables))
}

/// What runs give from `start` on, each as it is read.
pub open spec fn run_sources_from(runs: Seq<RunView>, start: Seq<u8>) -> Seq<ItemsView> {
    Seq::new(runs.len(), |i: int| run_items_from(runs[i].tables, start))
}

/// What a scan merges.
pub open spec fn tree_sources(tree: TreeView) -> Seq<ItemsView> {
    seq![ok_items(tree.memtable)] + run_sources(all_runs(tree.levels))
}

/// What a scan from `start` on merges.
pub open spec fn tree_sources_from(tree: TreeView, start: Seq<u8>) -> Seq<ItemsView> {
    seq![ok_items(at_or_after(tree.memtable, start))] + run_sources_from(
        all_runs(tree.levels),
        start,
    )
}

/// A key and its value.
pub type PairView = (Seq<u8>, Seq<u8>);

/// The live keys among items, and the errors.
pub open spec fn live_items(items: ItemsView) -> Seq<Result<PairView, StorageError>>
    decreases items.len(),
{
    if items.len() == 0 {
        Seq::empty()
    } else {
        let before = live_items(items.drop_last());
        match items.last() {
            Err(error) => before.push(Err(error)),
            Ok((key, Some(value))) => before.push(Ok((key, value))),
            Ok((_, None)) => before,
        }
    }
}

/// What a scan gives.
pub open spec fn tree_items(tree: TreeView) -> Seq<Result<PairView, StorageError>> {
    live_items(merge_of(tree_sources(tree), true))
}

/// What a scan from `start` on gives.
pub open spec fn tree_items_from(tree: TreeView, start: Seq<u8>) -> Seq<
    Result<PairView, StorageError>,
> {
    live_items(merge_of(tree_sources_from(tree, start), true))
}

/// Pairs as the items of a scan.
pub open spec fn ok_pairs(pairs: Seq<PairView>) -> Seq<Result<PairView, StorageError>> {
    Seq::new(pairs.len(), |i: int| Ok::<PairView, StorageError>(pairs[i]))
}

/// Keys strictly ascend.
pub open spec fn pairs_ascend(pairs: Seq<PairView>) -> bool {
    forall|i: int, j: int|
        #![trigger pairs[i], pairs[j]]
        0 <= i < j < pairs.len() ==> lex_lt(pairs[i].0, pairs[j].0)
}

/// Everything in the tree can be read.
pub open spec fn readable_tree(tree: TreeView) -> bool {
    ascending(tree.memtable) && levels_intact(tree.levels)
}

/// All runs of intact levels are intact.
pub proof fn lemma_all_runs_intact(levels: Seq<Seq<RunView>>, i: int)
    requires
        levels_intact(levels),
        0 <= i < all_runs(levels).len(),
    ensures
        run_intact(all_runs(levels)[i].tables),
{
    super::levels::lemma_place(levels, i);
    let (l, r) = super::levels::place(levels, i);
    assert(run_intact(levels[l][r].tables));
}

proof fn lemma_runs_find(runs: Seq<RunView>, key: Seq<u8>)
    requires
        forall|i: int| 0 <= i < runs.len() ==> run_intact((#[trigger] runs[i]).tables),
    ensures
        runs_find(runs, key) == Ok::<Option<Option<Seq<u8>>>, StorageError>(
            first_found(lists_of(runs), key),
        ),
    decreases runs.len(),
{
    if runs.len() > 0 {
        let rest = runs.drop_first();
        assert forall|i: int| 0 <= i < rest.len() implies run_intact(
            (#[trigger] rest[i]).tables,
        ) by {
            assert(rest[i] == runs[i + 1]);
        }
        lemma_runs_find(rest, key);
        assert(run_intact(runs[0].tables));
        law_run_get_finds(runs[0].tables, key);
        assert(lists_of(runs).drop_first() =~= lists_of(rest));
        assert(lists_of(runs)[0] == run_entries(runs[0].tables));
    }
}

/// A lookup in a readable tree gives the value of the key.
pub proof fn law_get_answers(tree: TreeView, key: Seq<u8>)
    requires
        readable_tree(tree),
    ensures
        tree_get(tree, key) == Ok::<Option<Seq<u8>>, StorageError>(answer(tree, key)),
{
    let runs = all_runs(tree.levels);
    assert forall|i: int| 0 <= i < runs.len() implies run_intact((#[trigger] runs[i]).tables) by {
        lemma_all_runs_intact(tree.levels, i);
    }
    lemma_runs_find(runs, key);
    lemma_first_found_concat(seq![tree.memtable], lists_of(runs), key);
    lemma_first_found_one(tree.memtable, key);
}

/// The live entries of a list.
spec fn live_pairs(entries: Seq<EntryView>) -> Seq<PairView>
    decreases entries.len(),
{
    if entries.len() == 0 {
        Seq::empty()
    } else {
        let before = live_pairs(entries.drop_last());
        match entries.last().1 {
            Some(value) => before.push((entries.last().0, value)),
            None => before,
        }
    }
}

proof fn lemma_live_pairs(entries: Seq<EntryView>)
    requires
        ascending(entries),
    ensures
        live_items(ok_items(entries)) == ok_pairs(live_pairs(entries)),
        pairs_ascend(live_pairs(entries)),
        forall|i: int|
            0 <= i < live_pairs(entries).len() ==> has_key(
                entries,
                (#[trigger] live_pairs(entries)[i]).0,
            ),
        forall|key: Seq<u8>, value: Seq<u8>|
            live_pairs(entries).contains((key, value)) <==> #[trigger] is_live(
                entries,
                key,
                value,
            ),
    decreases entries.len(),
{
    let pairs = live_pairs(entries);
    if entries.len() == 0 {
        assert(ok_items(entries).len() == 0);
        assert(live_items(ok_items(entries)) =~= ok_pairs(pairs));
        assert forall|key: Seq<u8>, value: Seq<u8>|
            live_pairs(entries).contains((key, value)) <==> #[trigger] is_live(
                entries,
                key,
                value,
            ) by {
            assert(!has_key(entries, key));
        }
    } else {
        let head = entries.drop_last();
        let last = entries.last();
        assert(ascending(head)) by {
            assert forall|i: int, j: int|
                #![trigger head[i], head[j]]
                0 <= i < j < head.len() implies lex_lt(head[i].0, head[j].0) by {
                assert(head[i] == entries[i] && head[j] == entries[j]);
            }
        }
        lemma_live_pairs(head);
        let before = live_pairs(head);
        assert(ok_items(entries).drop_last() =~= ok_items(head));
        assert(live_items(ok_items(entries)) =~= ok_pairs(pairs));
        assert forall|i: int| 0 <= i < before.len() implies lex_lt(
            (#[trigger] before[i]).0,
            last.0,
        ) by {
            let key = before[i].0;
            assert(has_key(head, key));
            let j = choose|j: int| 0 <= j < head.len() && (#[trigger] head[j]).0 == key;
            assert(entries[j] == head[j]);
            assert(entries[entries.len() - 1] == last);
            assert(lex_lt(entries[j].0, entries[entries.len() - 1].0));
        }
        assert forall|i: int, j: int|
            #![trigger pairs[i], pairs[j]]
            0 <= i < j < pairs.len() implies lex_lt(pairs[i].0, pairs[j].0) by {
            assert(pairs[i] == before[i]);
            if j < before.len() {
                assert(pairs[j] == before[j]);
            }
        }
        assert forall|i: int| 0 <= i < pairs.len() implies has_key(
            entries,
            (#[trigger] pairs[i]).0,
        ) by {
            if i < before.len() {
                assert(pairs[i] == before[i]);
                assert(has_key(head, before[i].0));
                let j = choose|j: int| 0 <= j < head.len() && (#[trigger] head[j]).0 == before[i].0;
                assert(entries[j].0 == pairs[i].0);
            } else {
                assert(entries[entries.len() - 1].0 == pairs[i].0);
            }
        }
        assert forall|key: Seq<u8>, value: Seq<u8>|
            live_pairs(entries).contains((key, value)) <==> #[trigger] is_live(
                entries,
                key,
                value,
            ) by {
            assert(is_live(head, key, value) <==> before.contains((key, value)));
            super::entries::lemma_find_drop_last(entries, key);
            lemma_find_at(entries, entries.len() - 1);
            if pairs.contains((key, value)) {
                let i = choose|i: int| 0 <= i < pairs.len() && pairs[i] == (key, value);
                if i < before.len() {
                    assert(before[i] == (key, value));
                    assert(is_live(head, key, value));
                    lemma_lex_irreflexive(key);
                }
            }
            if is_live(entries, key, value) {
                if key == last.0 {
                    assert(pairs[before.len() as int] == (key, value));
                } else {
                    assert(is_live(head, key, value));
                    let i = choose|i: int| 0 <= i < before.len() && before[i] == (key, value);
                    assert(pairs[i] == (key, value));
                }
            }
        }
    }
}

/// A list says that a key has this value.
spec fn is_live(entries: Seq<EntryView>, key: Seq<u8>, value: Seq<u8>) -> bool {
    find(entries, key) == Some(Some(value))
}

/// A scan of a readable tree gives every live key once, in ascending order,
/// with the value that a lookup gives, and nothing else.
pub proof fn law_iter_agrees_with_get(tree: TreeView) -> (pairs: Seq<PairView>)
    requires
        readable_tree(tree),
    ensures
        tree_items(tree) == ok_pairs(pairs),
        pairs_ascend(pairs),
        forall|key: Seq<u8>, value: Seq<u8>|
            #![trigger pairs.contains((key, value))]
            pairs.contains((key, value)) <==> answer(tree, key) == Some(value),
{
    let lists = tree_lists(tree);
    let runs = all_runs(tree.levels);
    assert forall|j: int| 0 <= j < lists.len() implies ascending(#[trigger] lists[j]) by {
        if j > 0 {
            lemma_all_runs_intact(tree.levels, j - 1);
            assert(lists[j] == run_entries(runs[j - 1].tables));
        }
    }
    assert(tree_sources(tree) =~= as_sources(lists)) by {
        assert forall|j: int| 0 <= j < lists.len() implies tree_sources(tree)[j] == as_sources(
            lists,
        )[j] by {
            if j > 0 {
                lemma_all_runs_intact(tree.levels, j - 1);
                law_run_items(runs[j - 1].tables);
                assert(lists[j] == run_entries(runs[j - 1].tables));
            }
        }
    }
    let merged = law_merge_keeps_the_newest(lists, true);
    lemma_live_pairs(merged);
    let pairs = live_pairs(merged);
    assert forall|key: Seq<u8>, value: Seq<u8>|
        #![trigger pairs.contains((key, value))]
        pairs.contains((key, value)) <==> answer(tree, key) == Some(value) by {
        assert(is_live(merged, key, value) <==> pairs.contains((key, value)));
        assert(find(merged, key) == without_tombstone(first_found(lists, key), true));
    }
    pairs
}

/// What is found in the parts of lists from a key on.
proof fn lemma_first_found_from(
    lists: Seq<Seq<EntryView>>,
    cut: Seq<Seq<EntryView>>,
    start: Seq<u8>,
    key: Seq<u8>,
)
    requires
        cut.len() == lists.len(),
        forall|j: int|
            0 <= j < lists.len() ==> #[trigger] cut[j] == at_or_after(lists[j], start) && ascending(
                lists[j],
            ),
    ensures
        first_found(cut, key) == if lex_lt(key, start) {
            None
        } else {
            first_found(lists, key)
        },
    decreases lists.len(),
{
    if lists.len() > 0 {
        let rest = lists.drop_first();
        let rest_cut = cut.drop_first();
        assert forall|j: int| 0 <= j < rest.len() implies #[trigger] rest_cut[j] == at_or_after(
            rest[j],
            start,
        ) && ascending(rest[j]) by {
            assert(rest_cut[j] == cut[j + 1] && rest[j] == lists[j + 1]);
        }
        lemma_first_found_from(rest, rest_cut, start, key);
        assert(cut[0] == at_or_after(lists[0], start));
        lemma_find_from(lists[0], start, key);
    }
}

/// What the part of a list from a key on says.
pub proof fn lemma_find_from(entries: Seq<EntryView>, start: Seq<u8>, key: Seq<u8>)
    requires
        ascending(entries),
    ensures
        ascending(at_or_after(entries, start)),
        find(at_or_after(entries, start), key) == if lex_lt(key, start) {
            None
        } else {
            find(entries, key)
        },
        forall|i: int|
            0 <= i < at_or_after(entries, start).len() ==> has_key(
                entries,
                (#[trigger] at_or_after(entries, start)[i]).0,
            ),
    decreases entries.len(),
{
    let keep = |entry: EntryView| !lex_lt(entry.0, start);
    let cut = at_or_after(entries, start);
    reveal(Seq::filter);
    if entries.len() == 0 {
        assert(!has_key(cut, key));
    } else {
        let head = entries.drop_last();
        let last = entries.last();
        assert(ascending(head)) by {
            assert forall|i: int, j: int|
                #![trigger head[i], head[j]]
                0 <= i < j < head.len() implies lex_lt(head[i].0, head[j].0) by {
                assert(head[i] == entries[i] && head[j] == entries[j]);
            }
        }
        lemma_find_from(head, start, key);
        let before = at_or_after(head, start);
        super::entries::lemma_find_drop_last(entries, key);
        lemma_find_at(entries, entries.len() - 1);
        assert forall|i: int| 0 <= i < cut.len() implies has_key(
            entries,
            (#[trigger] cut[i]).0,
        ) by {
            if i < before.len() {
                assert(cut[i] == before[i]);
                assert(has_key(head, before[i].0));
                let c = choose|c: int| 0 <= c < head.len() && (#[trigger] head[c]).0 == before[i].0;
                assert(entries[c].0 == cut[i].0);
            } else {
                assert(entries[entries.len() - 1].0 == cut[i].0);
            }
        }
        if keep(last) {
            assert(cut == before.push(last));
            assert forall|i: int, j: int|
                #![trigger cut[i], cut[j]]
                0 <= i < j < cut.len() implies lex_lt(cut[i].0, cut[j].0) by {
                if j < before.len() {
                    assert(cut[i] == before[i] && cut[j] == before[j]);
                } else {
                    assert(cut[i] == before[i]);
                    assert(has_key(head, before[i].0));
                    let c = choose|c: int|
                        0 <= c < head.len() && (#[trigger] head[c]).0 == before[i].0;
                    assert(entries[c].0 == before[i].0);
                    assert(entries[entries.len() - 1] == last);
                    assert(lex_lt(entries[c].0, entries[entries.len() - 1].0));
                }
            }
            super::entries::lemma_find_drop_last(cut, key);
            assert(cut.drop_last() =~= before);
            lemma_find_at(cut, cut.len() - 1);
        } else {
            assert(cut == before);
        }
    }
}

/// A scan of a readable tree from a key on gives every live key that is not
/// below it, once, in ascending order, with the value that a lookup gives.
pub proof fn law_range_agrees_with_get(tree: TreeView, start: Seq<u8>) -> (pairs: Seq<PairView>)
    requires
        readable_tree(tree),
    ensures
        tree_items_from(tree, start) == ok_pairs(pairs),
        pairs_ascend(pairs),
        forall|key: Seq<u8>, value: Seq<u8>|
            #![trigger pairs.contains((key, value))]
            pairs.contains((key, value)) <==> !lex_lt(key, start) && answer(tree, key) == Some(
                value,
            ),
{
    let lists = tree_lists(tree);
    let runs = all_runs(tree.levels);
    let cut = Seq::new(lists.len(), |j: int| at_or_after(lists[j], start));
    assert forall|j: int| 0 <= j < lists.len() implies #[trigger] cut[j] == at_or_after(
        lists[j],
        start,
    ) && ascending(lists[j]) by {
        if j > 0 {
            lemma_all_runs_intact(tree.levels, j - 1);
            assert(lists[j] == run_entries(runs[j - 1].tables));
        }
    }
    assert forall|j: int| 0 <= j < cut.len() implies ascending(#[trigger] cut[j]) by {
        assert(cut[j] == at_or_after(lists[j], start) && ascending(lists[j]));
        lemma_find_from(lists[j], start, start);
    }
    assert(tree_sources_from(tree, start) =~= as_sources(cut)) by {
        assert forall|j: int| 0 <= j < lists.len() implies tree_sources_from(tree, start)[j]
            == as_sources(cut)[j] by {
            if j > 0 {
                lemma_all_runs_intact(tree.levels, j - 1);
                law_run_items_from(runs[j - 1].tables, start);
                assert(lists[j] == run_entries(runs[j - 1].tables));
            }
        }
    }
    let merged = law_merge_keeps_the_newest(cut, true);
    lemma_live_pairs(merged);
    let pairs = live_pairs(merged);
    assert forall|key: Seq<u8>, value: Seq<u8>|
        #![trigger pairs.contains((key, value))]
        pairs.contains((key, value)) <==> !lex_lt(key, start) && answer(tree, key) == Some(
            value,
        ) by {
        assert(is_live(merged, key, value) <==> pairs.contains((key, value)));
        assert(find(merged, key) == without_tombstone(first_found(cut, key), true));
        lemma_first_found_from(lists, cut, start, key);
    }
    pairs
}

} // verus!
