//! The tree: memtable, log, levels of runs, and compaction.
//!
//! A write goes to the log, then to the memtable. Once the memtable reaches its
//! threshold it is written to level 0 as a run, the manifest is stored, the log
//! is given up, and compaction runs until the growth scheme is satisfied.
//!
//! Which runs are live is decided by the manifest, not by what is on disk. New
//! tables are invisible until the manifest is replaced, and what is no longer
//! live is removed only afterwards.

use vstd::prelude::*;

use super::coalesce::{runs_of, runs_wf};
use super::compaction::{well_indexed, CompactionJob, MergePolicy};
use super::config::{Growth, LsmConfig, Merge};
use super::disk::{actions_of, ActionView, DiskAction};
use super::entries::{ascending, entries_of, find, EntryView};
use super::execute::{
    count_units, fold_level, gather, levels_of, levels_wf, list_levels, names_taken, push_front,
    push_removals, push_writes, rebuild, run_view, shape_levels,
};
use super::growth::{CompactionRequest, GrowthScheme};
use super::levels::all_runs;
use super::manifest::{manifest_text, Manifest, ManifestView};
use super::memtable::{charge, total_charge, KeyBound};
use super::merge::{
    entries_or_error, memtable_source, merge_of, sources_of, MergeIterator, Source,
};
use super::order::copy_bytes;
use super::reader::found_of;
use super::run::{tables_bytes, write_run, NamedView, Run, RunView};
use super::recovery::{
    disk_of, is_opened, lemma_replay_charge, open_levels, opened, replay_memtable,
};
use super::shape::{saturated, saturated_count, TreeShape};
use super::sstable::{at_or_after, items_of};
use super::steps::{
    asks, cannot_perform, compaction_outcome, entries_for, flush_outcome, is_flushed, is_flushed_as,
    is_logged, is_noted, is_performed, is_performed_as, is_run_of, is_shape_of, is_stuck_at,
    is_stuck_on, is_turn, is_written, items_taken, lemma_one_more_turn, lemma_shape_is_indexed,
    manifest_for, manifest_store, merged_units, rests, spent, table_names, table_removals, table_writes,
    tables_taken, tables_written, turned, turns_to, write_actions, write_outcome, Phase,
};
use super::tree::{
    lemma_runs_find_concat, lemma_runs_find_prefix, live_items, run_sources, run_sources_from,
    runs_find, tree_get, tree_items, tree_items_from, tree_sources, tree_sources_from, Counters,
    PairView, TreeView,
};
use super::wal::{lemma_verified_len_bound, loggable, record_of, verified_len, Replay, SyncPolicy};
use super::{Key, MemTable, StorageError, UserValue, Value, Wal};

verus! {

/// A log-structured merge-tree over byte keys and values.
#[derive(Debug)]
pub struct LsmTree {
    config: LsmConfig,
    memtable: MemTable,
    wal: Wal,
    /// The newest level first, and in each the newest run first: the order in
    /// which reads consult them.
    levels: Vec<Vec<Run>>,
    /// When to compact: holds the schedule.
    growth: Growth,
    /// How to compact.
    merge: Merge,
    next_sequence: u64,
    counters: Counters,
    /// What has to be done on disk and has not been handed out yet.
    actions: Vec<DiskAction>,
}

impl View for LsmTree {
    type V = TreeView;

    closed spec fn view(&self) -> TreeView {
        TreeView {
            memtable: self.memtable.sorted(),
            log: self.wal@,
            levels: levels_of(self.levels@),
            next_sequence: self.next_sequence as nat,
            counters: self.counters,
        }
    }
}

/// There is a sequence number left for a flush.
pub open spec fn has_sequence(tree: TreeView) -> bool {
    tree.next_sequence < u64::MAX
}

/// What a memtable is charged once a mutation is applied to it.
pub open spec fn charged_after(memtable: Seq<EntryView>, entry: EntryView) -> int {
    total_charge(memtable) + charge(entry) - match find(memtable, entry.0) {
        Some(value) => charge((entry.0, value)) as int,
        None => 0,
    }
}

/// There is a sequence number left, if the mutation sets off a flush.
pub open spec fn can_write(tree: TreeView, entry: EntryView, config: LsmConfig) -> bool {
    loggable(entry) && charged_after(tree.memtable, entry) >= config.memtable_threshold_bytes
        ==> has_sequence(tree)
}

impl LsmTree {
    /// The configuration.
    pub closed spec fn configuration(&self) -> LsmConfig {
        self.config
    }

    /// The tree with its schedule, and what is left to do on disk.
    pub closed spec fn phase(&self) -> Phase {
        Phase { growth: self.growth, tree: self@, actions: actions_of(self.actions@) }
    }

    /// Everything is open, and the parts are what the configuration says.
    pub closed spec fn wf(&self) -> bool {
        &&& self.memtable.wf()
        &&& levels_wf(self.levels@)
        &&& self.config.valid()
        &&& self.growth.wf()
        &&& self.merge.kind() == self.config.merge
        &&& self.wal.policy() == self.config.sync_policy
    }

    /// What a well-formed tree is, said of its parts.
    pub proof fn lemma_wf(&self)
        requires
            self.wf(),
        ensures
            self.phase().tree == self@,
            ascending(self@.memtable),
            self.configuration().valid(),
    {
        self.memtable.lemma_wf();
    }

    // -----------------------------------------------------------------------
    // Reading
    // -----------------------------------------------------------------------

    /// Looks up `key`, newest source first.
    ///
    /// There is nothing for a key that was never written and for one that was
    /// deleted: the tombstone stops the search.
    pub fn get(&self, key: &[u8]) -> (found: Result<Option<UserValue>, StorageError>)
        requires
            self.wf(),
        ensures
            value_of(found) == tree_get(self@, key@),
    {
        proof {
            self.memtable.lemma_wf();
        }
        if let Some(value) = self.memtable.get(key) {
            return Ok(
                match value {
                    Value::Put(bytes) => Some(copy_bytes(bytes.as_slice())),
                    Value::Tombstone => None,
                },
            );
        }
        let ghost view = levels_of(self.levels@);
        let mut l: usize = 0;
        proof {
            assert(all_runs(view.take(0)) =~= Seq::<RunView>::empty());
        }
        while l < self.levels.len()
            invariant
                l <= self.levels@.len(),
                levels_wf(self.levels@),
                view == levels_of(self.levels@),
                view == self@.levels,
                find(self@.memtable, key@) is None,
                runs_find(all_runs(view.take(l as int)), key@) == Ok::<
                    Option<Option<Seq<u8>>>,
                    StorageError,
                >(None),
            decreases self.levels@.len() - l,
        {
            proof {
                assert(runs_wf(self.levels@[l as int]@));
                lemma_next_level(view, l as int);
                lemma_runs_find_concat(all_runs(view.take(l as int)), view[l as int], key@);
            }
            match search(&self.levels[l], key) {
                Err(error) => {
                    proof {
                        lemma_runs_find_prefix(view, l + 1, key@);
                    }
                    return Err(error);
                },
                Ok(Some(Value::Put(bytes))) => {
                    proof {
                        lemma_runs_find_prefix(view, l + 1, key@);
                    }
                    return Ok(Some(bytes));
                },
                // A tombstone is an answer: stop, and do not look deeper.
                Ok(Some(Value::Tombstone)) => {
                    proof {
                        lemma_runs_find_prefix(view, l + 1, key@);
                    }
                    return Ok(None);
                },
                Ok(None) => {},
            }
            l = l + 1;
        }
        proof {
            assert(view.take(l as int) =~= view);
        }
        Ok(None)
    }

    /// Whether `key` has a value.
    pub fn contains_key(&self, key: &[u8]) -> (found: Result<bool, StorageError>)
        requires
            self.wf(),
        ensures
            match found {
                Ok(found) => tree_get(self@, key@) matches Ok(value) && found == (value is Some),
                Err(error) => tree_get(self@, key@) == Err::<Option<Seq<u8>>, StorageError>(error),
            },
    {
        match self.get(key) {
            Ok(value) => Ok(value.is_some()),
            Err(error) => Err(error),
        }
    }

    /// Every live key in ascending order, with its value.
    ///
    /// The sources are merged in the order that a lookup consults them, so the
    /// two agree.
    pub fn iter(&self) -> (items: Vec<Result<(Key, UserValue), StorageError>>)
        requires
            self.wf(),
        ensures
            pairs_of(items@) == tree_items(self@),
    {
        let mut sources: Vec<Source> = Vec::new();
        sources.push(memtable_source(&self.memtable));
        let ghost view = levels_of(self.levels@);
        let ghost first = sources_of(sources@);
        let mut l: usize = 0;
        proof {
            assert(first + run_sources(all_runs(view.take(0))) =~= first);
        }
        while l < self.levels.len()
            invariant
                l <= self.levels@.len(),
                levels_wf(self.levels@),
                view == levels_of(self.levels@),
                sources_of(sources@) == first + run_sources(all_runs(view.take(l as int))),
            decreases self.levels@.len() - l,
        {
            proof {
                assert(runs_wf(self.levels@[l as int]@));
                lemma_next_level(view, l as int);
            }
            push_sources(&mut sources, &self.levels[l]);
            proof {
                assert(sources_of(sources@) =~= first + run_sources(all_runs(view.take(l + 1))));
            }
            l = l + 1;
        }
        proof {
            assert(view.take(l as int) =~= view);
            assert(sources_of(sources@) =~= tree_sources(self@));
        }
        collect_live(sources)
    }

    /// Live keys at or after `start` in ascending order, with their values.
    ///
    /// Every source is sought to `start`, so the cost goes with what comes back.
    pub fn range_from(&self, start: &[u8]) -> (items: Vec<Result<(Key, UserValue), StorageError>>)
        requires
            self.wf(),
        ensures
            pairs_of(items@) == tree_items_from(self@, start@),
    {
        let mut sources: Vec<Source> = Vec::new();
        proof {
            self.memtable.lemma_wf();
            lemma_range_is_rest(self.memtable.sorted(), start);
        }
        sources.push(
            super::merge::entries_source(
                self.memtable.range(KeyBound::Included(start), KeyBound::Unbounded),
            ),
        );
        let ghost view = levels_of(self.levels@);
        let ghost first = sources_of(sources@);
        let mut l: usize = 0;
        proof {
            assert(first + run_sources_from(all_runs(view.take(0)), start@) =~= first);
        }
        while l < self.levels.len()
            invariant
                l <= self.levels@.len(),
                levels_wf(self.levels@),
                view == levels_of(self.levels@),
                sources_of(sources@) == first + run_sources_from(all_runs(view.take(l as int)), start@),
            decreases self.levels@.len() - l,
        {
            proof {
                assert(runs_wf(self.levels@[l as int]@));
                lemma_next_level(view, l as int);
            }
            push_sources_from(&mut sources, &self.levels[l], start);
            proof {
                assert(sources_of(sources@) =~= first + run_sources_from(all_runs(view.take(l + 1)), start@));
            }
            l = l + 1;
        }
        proof {
            assert(view.take(l as int) =~= view);
            assert(sources_of(sources@) =~= tree_sources_from(self@, start@));
        }
        collect_live(sources)
    }
}

/// What a lookup gave.
pub open spec fn value_of(found: Result<Option<UserValue>, StorageError>) -> Result<
    Option<Seq<u8>>,
    StorageError,
> {
    match found {
        Ok(Some(bytes)) => Ok(Some(bytes@)),
        Ok(None) => Ok(None),
        Err(error) => Err(error),
    }
}

/// One item of a scan.
pub open spec fn pair_of(item: Result<(Key, UserValue), StorageError>) -> Result<
    PairView,
    StorageError,
> {
    match item {
        Ok(pair) => Ok((pair.0@, pair.1@)),
        Err(error) => Err(error),
    }
}

/// The content of a scan.
pub open spec fn pairs_of(items: Seq<Result<(Key, UserValue), StorageError>>) -> Seq<
    Result<PairView, StorageError>,
> {
    Seq::new(items.len(), |i: int| pair_of(items[i]))
}

/// All runs, one level further.
proof fn lemma_next_level(levels: Seq<Seq<RunView>>, l: int)
    requires
        0 <= l < levels.len(),
    ensures
        all_runs(levels.take(l + 1)) == all_runs(levels.take(l)) + levels[l],
{
    assert(levels.take(l + 1).drop_last() =~= levels.take(l));
    assert(levels.take(l + 1).last() == levels[l]);
}

/// Asks the runs of a level, newest first.
fn search(level: &Vec<Run>, key: &[u8]) -> (found: Result<Option<Value>, StorageError>)
    requires
        runs_wf(level@),
    ensures
        found_of(found) == runs_find(runs_of(level@), key@),
{
    let ghost runs = runs_of(level@);
    let mut r: usize = 0;
    proof {
        assert(runs.skip(0) =~= runs);
    }
    while r < level.len()
        invariant
            r <= level@.len(),
            runs_wf(level@),
            runs == runs_of(level@),
            runs_find(runs, key@) == runs_find(runs.skip(r as int), key@),
        decreases level@.len() - r,
    {
        proof {
            assert(level@[r as int].wf());
            assert(runs.skip(r as int)[0] == level@[r as int]@);
            assert(runs.skip(r as int).drop_first() =~= runs.skip(r + 1));
        }
        match level[r].get(key) {
            Ok(None) => {},
            found => {
                return found;
            },
        }
        r = r + 1;
    }
    Ok(None)
}

/// Adds what the runs of a level give.
fn push_sources(sources: &mut Vec<Source>, level: &Vec<Run>)
    requires
        runs_wf(level@),
    ensures
        sources_of(final(sources)@) == sources_of(old(sources)@) + run_sources(runs_of(level@)),
{
    let ghost first = sources_of(sources@);
    let ghost items = run_sources(runs_of(level@));
    let mut r: usize = 0;
    proof {
        assert(first + items.take(0) =~= first);
    }
    while r < level.len()
        invariant
            r <= level@.len(),
            runs_wf(level@),
            items == run_sources(runs_of(level@)),
            sources_of(sources@) == first + items.take(r as int),
        decreases level@.len() - r,
    {
        let ghost had = sources_of(sources@);
        proof {
            assert(level@[r as int].wf());
        }
        let source: Source = level[r].source();
        let ghost shown = items_of(source@);
        sources.push(source);
        proof {
            assert(shown == items[r as int]);
            assert(sources_of(sources@) =~= had.push(shown));
            assert(first + items.take(r + 1) =~= (first + items.take(r as int)).push(shown));
        }
        r = r + 1;
    }
    proof {
        assert(items.take(r as int) =~= items);
    }
}

/// Adds what the runs of a level give from `start` on.
fn push_sources_from(sources: &mut Vec<Source>, level: &Vec<Run>, start: &[u8])
    requires
        runs_wf(level@),
    ensures
        sources_of(final(sources)@) == sources_of(old(sources)@) + run_sources_from(
            runs_of(level@),
            start@,
        ),
{
    let ghost first = sources_of(sources@);
    let ghost items = run_sources_from(runs_of(level@), start@);
    let mut r: usize = 0;
    proof {
        assert(first + items.take(0) =~= first);
    }
    while r < level.len()
        invariant
            r <= level@.len(),
            runs_wf(level@),
            items == run_sources_from(runs_of(level@), start@),
            sources_of(sources@) == first + items.take(r as int),
        decreases level@.len() - r,
    {
        let ghost had = sources_of(sources@);
        proof {
            assert(level@[r as int].wf());
        }
        let source: Source = level[r].source_from(start);
        let ghost shown = items_of(source@);
        sources.push(source);
        proof {
            assert(shown == items[r as int]);
            assert(sources_of(sources@) =~= had.push(shown));
            assert(first + items.take(r + 1) =~= (first + items.take(r as int)).push(shown));
        }
        r = r + 1;
    }
    proof {
        assert(items.take(r as int) =~= items);
    }
}

/// A range from a key on, with no end, is the rest from that key on.
proof fn lemma_range_is_rest(entries: Seq<EntryView>, start: &[u8])
    ensures
        entries.filter(
            |entry: EntryView|
                super::memtable::above_lower(entry.0, KeyBound::Included(start))
                    && super::memtable::below_upper(entry.0, KeyBound::Unbounded),
        ) == at_or_after(entries, start@),
    decreases entries.len(),
{
    reveal(Seq::filter);
    if entries.len() > 0 {
        lemma_range_is_rest(entries.drop_last(), start);
        super::reader::lemma_not_before(entries.last().0, start@);
    }
}

/// Merges sources and keeps the live keys.
fn collect_live(sources: Vec<Source>) -> (items: Vec<Result<(Key, UserValue), StorageError>>)
    ensures
        pairs_of(items@) == live_items(merge_of(sources_of(sources@), true)),
{
    let mut merge: MergeIterator = MergeIterator::dropping_tombstones(sources);
    let ghost all = merge@;
    let ghost mut done: int = 0;
    let mut items: Vec<Result<(Key, UserValue), StorageError>> = Vec::new();
    proof {
        assert(all.skip(0) =~= all);
        assert(pairs_of(items@) =~= live_items(all.take(0)));
    }
    loop
        invariant
            merge.wf(),
            0 <= done <= all.len(),
            merge@ == all.skip(done),
            pairs_of(items@) == live_items(all.take(done)),
        ensures
            pairs_of(items@) == live_items(all),
        decreases all.len() - done,
    {
        let ghost had = pairs_of(items@);
        match merge.next() {
            None => {
                proof {
                    assert(all.take(done) =~= all);
                }
                break;
            },
            Some(item) => {
                proof {
                    assert(all.skip(done)[0] == all[done]);
                    assert(all.skip(done).drop_first() =~= all.skip(done + 1));
                    assert(all.take(done + 1).drop_last() =~= all.take(done));
                    assert(all.take(done + 1).last() == all[done]);
                }
                match item {
                    Ok((key, Value::Put(bytes))) => {
                        items.push(Ok((key, bytes)));
                    },
                    Ok((_, Value::Tombstone)) => {},
                    Err(error) => {
                        items.push(Err(error));
                    },
                }
                proof {
                    assert(pairs_of(items@) =~= live_items(all.take(done + 1)));
                    done = done + 1;
                }
            },
        }
    }
    items
}

// ---------------------------------------------------------------------------
// Changing
// ---------------------------------------------------------------------------

/// Adds the storing of the manifest to what has to be done.
fn push_manifest(actions: &mut Vec<DiskAction>, levels: &Vec<Vec<Run>>, next_sequence: u64)
    ensures
        actions_of(final(actions)@) == actions_of(old(actions)@).push(
            ActionView::StoreManifest {
                text: manifest_text(
                    ManifestView {
                        runs: entries_for(levels_of(levels@)),
                        next_sequence: next_sequence as nat,
                    },
                ),
            },
        ),
{
    let ghost had = actions_of(actions@);
    let manifest: Manifest = list_levels(levels, next_sequence);
    let text: String = manifest.store();
    actions.push(DiskAction::StoreManifest { text });
    proof {
        assert(actions_of(actions@) =~= had.push(actions@.last()@));
    }
}

/// What reading and merging the files of a job gives.
fn merge_job(levels: &Vec<Vec<Run>>, job: &CompactionJob) -> (merged: Result<
    Vec<(Key, Value)>,
    StorageError,
>)
    requires
        levels_wf(levels@),
    ensures
        match merged {
            Ok(entries) => entries_or_error(
                merge_of(items_taken(levels_of(levels@), *job), job.drop_tombstones),
            ) == Ok::<Seq<EntryView>, StorageError>(entries_of(entries@)),
            Err(error) => entries_or_error(
                merge_of(items_taken(levels_of(levels@), *job), job.drop_tombstones),
            ) == Err::<Seq<EntryView>, StorageError>(error),
        },
{
    let sources: Vec<Source> = gather(levels, job);
    let merge: MergeIterator = if job.drop_tombstones {
        MergeIterator::dropping_tombstones(sources)
    } else {
        MergeIterator::new(sources)
    };
    merge.collect()
}

impl LsmTree {
    /// Merges the files that a job names and installs the result. A job that
    /// cannot be performed uses up its sequence number and changes nothing else.
    fn execute(&mut self, job: CompactionJob) -> (outcome: Result<(), StorageError>)
        requires
            old(self).wf(),
            old(self)@.next_sequence < u64::MAX,
        ensures
            final(self).wf(),
            final(self).configuration() == old(self).configuration(),
            final(self).phase().growth == old(self).phase().growth,
            final(self)@.next_sequence <= old(self)@.next_sequence + 1,
            match outcome {
                Ok(()) => exists|actions: Seq<ActionView>| #[trigger]
                    is_performed(
                        old(self)@,
                        final(self)@,
                        actions,
                        job,
                        old(self).configuration(),
                    ) && final(self).phase().actions == old(self).phase().actions + actions,
                Err(error) => final(self).phase() == (Phase {
                    tree: spent(old(self)@),
                    ..old(self).phase()
                }) && cannot_perform(
                    old(self)@,
                    job,
                    old(self).configuration(),
                    error,
                ),
            },
    {
        let ghost config = self.config;
        let entries: Vec<(Key, Value)> = match merge_job(&self.levels, &job) {
            Ok(entries) => entries,
            Err(error) => {
                proof {
                    assert(cannot_perform(self@, job, config, error)) by {
                        reveal(cannot_perform);
                    }
                }
                self.next_sequence = self.next_sequence + 1;
                return Err(error);
            },
        };
        // The output carries the units of everything that is merged.
        let units: usize = count_units(&self.levels, &job);
        let new_run: Option<Run> = match write_run(
            self.config.table_options(),
            job.target_level,
            self.next_sequence,
            units,
            entries.as_slice(),
        ) {
            Ok(run) => run,
            Err(error) => {
                proof {
                    assert(cannot_perform(self@, job, config, error)) by {
                        reveal(cannot_perform);
                    }
                }
                self.next_sequence = self.next_sequence + 1;
                return Err(error);
            },
        };
        proof {
            reveal(is_run_of);
        }
        self.replace(job, entries, new_run);
        Ok(())
    }

    /// Puts the run that was written of a merge in place of what it was merged
    /// from.
    fn replace(&mut self, job: CompactionJob, entries: Vec<(Key, Value)>, new_run: Option<Run>)
        requires
            old(self).wf(),
            old(self)@.next_sequence < u64::MAX,
            new_run matches Some(run) ==> run.wf(),
            entries_or_error(
                merge_of(items_taken(old(self)@.levels, job), job.drop_tombstones),
            ) == Ok::<Seq<EntryView>, StorageError>(entries_of(entries@)),
            is_run_of(
                run_view(new_run),
                entries_of(entries@),
                job.target_level as nat,
                old(self)@.next_sequence,
                merged_units(old(self)@.levels, job),
                old(self).configuration().options(),
            ),
        ensures
            final(self).wf(),
            final(self).configuration() == old(self).configuration(),
            final(self).phase().growth == old(self).phase().growth,
            final(self)@.next_sequence == old(self)@.next_sequence + 1,
            exists|actions: Seq<ActionView>| #[trigger]
                is_performed(old(self)@, final(self)@, actions, job, old(self).configuration())
                    && final(self).phase().actions == old(self).phase().actions + actions,
    {
        let ghost before = self@;
        let ghost merged = entries_of(entries@);
        let ghost run = run_view(new_run);
        let ghost actions_before = actions_of(self.actions@);
        self.next_sequence = self.next_sequence + 1;
        match &new_run {
            Some(run) => {
                let bytes: u64 = run.bytes();
                self.counters.sstable_bytes_written = self.counters.sstable_bytes_written
                    .saturating_add(bytes);
                self.counters.compaction_bytes_written = self.counters.compaction_bytes_written
                    .saturating_add(bytes);
                push_writes(&mut self.actions, &run.tables);
            },
            None => {
                proof {
                    assert(actions_before + table_writes(Seq::<NamedView>::empty())
                        =~= actions_before);
                }
            },
        }
        proof {
            assert(actions_of(self.actions@) == actions_before + table_writes(
                tables_written(run),
            ));
        }
        let removed: Vec<String> = names_taken(&self.levels, &job);
        let mut levels: Vec<Vec<Run>> = Vec::new();
        std::mem::swap(&mut self.levels, &mut levels);
        let mut rebuilt: Vec<Vec<Run>> = rebuild(levels, &job, new_run);
        let ghost after = levels_of(rebuilt@);
        // A policy of one run per level relies on this to keep it so: what a
        // compaction of a key range leaves is beside the runs already there.
        if self.merge.runs_per_level() == 1 {
            proof {
                assert(levels_of(rebuilt@).len() == rebuilt@.len());
            }
            fold_level(&mut rebuilt, job.target_level);
        }
        std::mem::swap(&mut self.levels, &mut rebuilt);
        // The commit point; only then are the inputs given up.
        push_manifest(&mut self.actions, &self.levels, self.next_sequence);
        push_removals(&mut self.actions, removed);
        self.counters.compaction_count = self.counters.compaction_count.saturating_add(1);
        let level_count: usize = self.levels.len();
        proof {
            let actions = table_writes(tables_written(run)) + seq![manifest_store(self@)]
                + table_removals(table_names(tables_taken(before.levels, job)));
            assert(manifest_for(self@) =~= ManifestView {
                runs: entries_for(levels_of(self.levels@)),
                next_sequence: self.next_sequence as nat,
            });
            assert(actions_of(self.actions@) =~= actions_before + actions);
            assert(self@.levels.len() == level_count);
            assert(is_performed_as(before, self@, actions, job, self.config, merged, run)) by {
                reveal(is_performed_as);
            }
            assert(is_performed(before, self@, actions, job, self.config));
        }
    }
}

impl LsmTree {
    /// The tree as the growth scheme and the merge policy see it.
    pub fn shape(&self) -> (shape: TreeShape)
        ensures
            is_shape_of(shape, self@.levels),
            well_indexed(shape),
    {
        let shape: TreeShape = shape_levels(&self.levels);
        proof {
            lemma_shape_is_indexed(shape, self@.levels);
        }
        shape
    }

    /// Asks the growth scheme once and performs what it asks for. Says whether
    /// it asked for anything.
    fn turn(&mut self) -> (outcome: Result<bool, StorageError>)
        requires
            old(self).wf(),
            old(self)@.next_sequence < u64::MAX,
        ensures
            final(self).wf(),
            final(self).configuration() == old(self).configuration(),
            final(self)@.next_sequence <= old(self)@.next_sequence + 1,
            match outcome {
                Ok(true) => turns_to(
                    old(self).phase(),
                    final(self).phase(),
                    old(self).configuration(),
                ),
                Ok(false) => rests(old(self).phase(), final(self).phase()),
                Err(error) => is_stuck_at(
                    old(self).phase(),
                    final(self).phase(),
                    old(self).configuration(),
                    error,
                ),
            },
    {
        let ghost before = self.phase();
        let ghost config = self.config;
        let shape: TreeShape = self.shape();
        let request: CompactionRequest = match self.growth.next_compaction(&shape) {
            None => {
                proof {
                    assert(asks(before, self.phase(), shape, None));
                }
                return Ok(false);
            },
            Some(request) => request,
        };
        let ghost asked = self.phase();
        proof {
            assert(asks(before, asked, shape, Some(request)));
        }
        match self.merge.plan(&shape, request) {
            None => {
                proof {
                    assert(is_turn(before, asked, config, shape, request, None));
                }
                Ok(true)
            },
            Some(job) => match self.execute(job) {
                Ok(()) => {
                    proof {
                        let after = self.phase();
                        let actions = choose|actions: Seq<ActionView>| #[trigger]
                            is_performed(before.tree, after.tree, actions, job, config)
                                && after.actions == before.actions + actions;
                        assert(is_performed(before.tree, after.tree, actions, job, config));
                        assert(asks(before, after, shape, Some(request)));
                        assert(is_turn(before, after, config, shape, request, Some(job)));
                        }
                    Ok(true)
                },
                Err(error) => {
                    proof {
                        let after = self.phase();
                        assert(asks(before, after, shape, Some(request)));
                        assert(is_stuck_on(before, after, config, error, shape, request, job));
                    }
                    Err(error)
                },
            },
        }
    }

    /// Compacts until the growth scheme is satisfied, or until there were as
    /// many compactions as a flush may have; the next flush then goes on. It also
    /// stops where no sequence number is left for another compaction.
    ///
    /// The scheme moves its schedule on when it asks for a compaction, so
    /// everything that it asks for is performed, unless there is nothing to do
    /// there.
    pub fn compact_until_quiet(&mut self) -> (outcome: Result<(), StorageError>)
        requires
            old(self).wf(),
        ensures
            final(self).wf(),
            final(self).configuration() == old(self).configuration(),
            compaction_outcome(
                old(self).phase(),
                final(self).phase(),
                outcome,
                old(self).configuration(),
            ),
    {
        let ghost start = self.phase();
        let ghost config = self.config;
        let limit: usize = self.config.max_compactions_per_flush;
        let mut turns: usize = 0;
        while turns < limit && self.next_sequence < u64::MAX
            invariant
                turns <= limit,
                limit == config.max_compactions_per_flush,
                self.wf(),
                self.configuration() == config,
                turned(start, self.phase(), turns as nat, config),
                start == old(self).phase(),
                config == old(self).configuration(),
            decreases limit - turns,
        {
            let ghost before = self.phase();
            match self.turn() {
                Ok(true) => {
                    proof {
                        lemma_one_more_turn(start, before, self.phase(), turns as nat, config);
                    }
                },
                Ok(false) => {
                    return Ok(());
                },
                Err(error) => {
                    return Err(error);
                },
            }
            turns = turns + 1;
        }
        Ok(())
    }

    /// Puts the run that was written of the memtable in its place, and gives the
    /// memtable and the log up.
    fn install(&mut self, run: Run)
        requires
            old(self).wf(),
            old(self)@.next_sequence < u64::MAX,
            run.wf(),
            is_run_of(
                Some(run@),
                old(self)@.memtable,
                0,
                old(self)@.next_sequence,
                1,
                old(self).configuration().options(),
            ),
        ensures
            final(self).wf(),
            final(self).configuration() == old(self).configuration(),
            final(self).phase().growth == old(self).phase().growth,
            final(self)@.next_sequence == old(self)@.next_sequence + 1,
            exists|actions: Seq<ActionView>| #[trigger]
                is_flushed(
                    old(self)@,
                    final(self)@,
                    actions,
                    old(self).configuration().options(),
                ) && final(self).phase().actions == old(self).phase().actions + actions,
    {
        let ghost before = self@;
        let ghost config = self.config;
        let ghost shown = run@;
        let ghost actions_before = actions_of(self.actions@);
        self.next_sequence = self.next_sequence + 1;
        self.memtable = MemTable::new();
        self.counters.sstable_bytes_written = self.counters.sstable_bytes_written.saturating_add(
            run.bytes(),
        );
        push_writes(&mut self.actions, &run.tables);
        push_front(&mut self.levels, run);
        // The commit point. Before it the new files are invisible; only after it
        // is the log redundant.
        push_manifest(&mut self.actions, &self.levels, self.next_sequence);
        let ghost committed = actions_of(self.actions@);
        self.wal = Wal::open(Vec::new(), self.config.sync_policy);
        self.actions.push(DiskAction::ResetLog);
        self.counters.flush_count = self.counters.flush_count.saturating_add(1);
        proof {
            assert(self.wal@ =~= Seq::<u8>::empty());
            assert(self@.levels == levels_of(self.levels@));
            assert(manifest_for(self@) =~= ManifestView {
                runs: entries_for(levels_of(self.levels@)),
                next_sequence: self.next_sequence as nat,
            });
            let actions = table_writes(shown.tables) + seq![
                manifest_store(self@),
                ActionView::ResetLog,
            ];
            assert(actions_of(self.actions@) =~= committed.push(ActionView::ResetLog));
            assert(committed =~= actions_before + table_writes(shown.tables) + seq![
                manifest_store(self@),
            ]);
            assert(actions_of(self.actions@) =~= actions_before + actions);
            assert(is_flushed_as(before, self@, actions, config.options(), shown)) by {
                reveal(is_flushed_as);
            }
            assert(is_flushed(before, self@, actions, config.options()));
        }
    }

    /// Writes the memtable to level 0 as a run, then compacts. Says whether
    /// anything was written.
    ///
    /// Tombstones are kept: older runs may hold the keys that they delete.
    pub fn flush(&mut self) -> (outcome: Result<bool, StorageError>)
        requires
            old(self).wf(),
            old(self)@.memtable.len() > 0 ==> has_sequence(old(self)@),
        ensures
            final(self).wf(),
            final(self).configuration() == old(self).configuration(),
            flush_outcome(
                old(self).phase(),
                final(self).phase(),
                outcome,
                old(self).configuration(),
            ),
    {
        let ghost start = self.phase();
        let ghost config = self.config;
        if self.memtable.is_empty() {
            return Ok(false);
        }
        // A flush is one unit.
        let written: Result<Option<Run>, StorageError> = write_run(
            self.config.table_options(),
            0,
            self.next_sequence,
            1,
            self.memtable.iter(),
        );
        let run: Run = match written {
            Ok(Some(run)) => run,
            Ok(None) => {
                return Ok(false);
            },
            Err(error) => {
                self.next_sequence = self.next_sequence + 1;
                return Err(error);
            },
        };
        proof {
            reveal(is_run_of);
        }
        self.install(run);
        let ghost installed = self.phase();
        // The scheme counts flushes, so it is told before it is asked.
        self.growth.note_flush();
        let ghost middle = self.phase();
        proof {
            let actions = choose|actions: Seq<ActionView>| #[trigger]
                is_flushed(start.tree, installed.tree, actions, config.options())
                    && installed.actions == start.actions + actions;
            assert(is_flushed(start.tree, middle.tree, actions, config.options()));
            assert(is_noted(start, middle, config));
        }
        match self.compact_until_quiet() {
            Ok(()) => Ok(true),
            Err(error) => Err(error),
        }
    }

    /// Inserts or overwrites `key`.
    pub fn put(&mut self, key: Key, value: UserValue) -> (outcome: Result<(), StorageError>)
        requires
            old(self).wf(),
            can_write(old(self)@, (key@, Some(value@)), old(self).configuration()),
            total_charge(old(self)@.memtable) + charge((key@, Some(value@))) <= usize::MAX,
        ensures
            final(self).wf(),
            final(self).configuration() == old(self).configuration(),
            write_outcome(
                old(self).phase(),
                final(self).phase(),
                (key@, Some(value@)),
                outcome,
                old(self).configuration(),
            ),
    {
        self.write(key, Value::Put(value))
    }

    /// Deletes `key`, by writing a tombstone.
    pub fn delete(&mut self, key: Key) -> (outcome: Result<(), StorageError>)
        requires
            old(self).wf(),
            can_write(old(self)@, (key@, None), old(self).configuration()),
            total_charge(old(self)@.memtable) + charge((key@, None)) <= usize::MAX,
        ensures
            final(self).wf(),
            final(self).configuration() == old(self).configuration(),
            write_outcome(
                old(self).phase(),
                final(self).phase(),
                (key@, None),
                outcome,
                old(self).configuration(),
            ),
    {
        self.write(key, Value::Tombstone)
    }

    fn write(&mut self, key: Key, value: Value) -> (outcome: Result<(), StorageError>)
        requires
            old(self).wf(),
            can_write(old(self)@, (key@, value@), old(self).configuration()),
            total_charge(old(self)@.memtable) + charge((key@, value@)) <= usize::MAX,
        ensures
            final(self).wf(),
            final(self).configuration() == old(self).configuration(),
            write_outcome(
                old(self).phase(),
                final(self).phase(),
                (key@, value@),
                outcome,
                old(self).configuration(),
            ),
    {
        let ghost start = self.phase();
        let ghost config = self.config;
        let ghost entry = (key@, value@);
        proof {
            self.memtable.lemma_wf();
        }
        self.counters.user_bytes_written = self.counters.user_bytes_written.saturating_add(
            key.len() as u64,
        ).saturating_add(value.byte_len() as u64);
        // The log first: if it refuses, the memtable was never touched.
        let logged: usize = self.wal.bytes().len();
        match self.wal.append(key.as_slice(), &value) {
            Ok(()) => {},
            Err(error) => {
                return Err(error);
            },
        }
        let log: &[u8] = self.wal.bytes();
        let record: Vec<u8> = copy_bytes(
            vstd::slice::slice_subrange(log, logged, log.len()),
        );
        proof {
            assert(record@ =~= record_of(entry));
        }
        let ghost actions_before = actions_of(self.actions@);
        self.actions.push(DiskAction::AppendLog { bytes: record });
        match self.config.sync_policy {
            SyncPolicy::EveryWrite => self.actions.push(DiskAction::SyncLog),
            SyncPolicy::Manual => {},
        }
        proof {
            assert(actions_of(self.actions@) =~= actions_before + write_actions(
                entry,
                config.sync_policy,
            ));
        }
        let _ = self.memtable.insert(key, value);
        let ghost middle = self.phase();
        proof {
            self.memtable.lemma_wf();
            assert(is_written(start.tree, self@, entry));
            assert(is_logged(start, middle, entry, config));
            assert(self.memtable.size() == charged_after(start.tree.memtable, entry));
        }
        if self.memtable.should_flush(self.config.memtable_threshold_bytes) {
            match self.flush() {
                Ok(written) => {
                    proof {
                        assert(flush_outcome(
                            middle,
                            self.phase(),
                            Ok::<bool, StorageError>(written),
                            config,
                        ));
                    }
                },
                Err(error) => {
                    return Err(error);
                },
            }
        }
        Ok(())
    }
}

// ---------------------------------------------------------------------------
// Opening
// ---------------------------------------------------------------------------

/// The text of a manifest, if there is one.
pub open spec fn text_of(manifest: Option<&str>) -> Option<Seq<char>> {
    match manifest {
        Some(text) => Some(text@),
        None => None,
    }
}

/// What opening asks of the disk: that a torn tail of the log be cut off.
pub open spec fn open_actions(log: Seq<u8>) -> Seq<ActionView> {
    if verified_len(log) < log.len() {
        seq![ActionView::TruncateLog { length: verified_len(log) }]
    } else {
        Seq::empty()
    }
}

impl LsmTree {
    /// Takes a tree up from what is on disk: the manifest, if there is one, the
    /// table files, and the log.
    pub fn open(
        config: LsmConfig,
        manifest: Option<&str>,
        files: &Vec<(String, Vec<u8>)>,
        log: Vec<u8>,
    ) -> (outcome: Result<Self, StorageError>)
        requires
            config.valid(),
            2 * log@.len() <= usize::MAX,
        ensures
            match outcome {
                Ok(tree) => {
                    &&& tree.wf()
                    &&& tree.configuration() == config
                    &&& is_opened(disk_of(text_of(manifest), files@, log@), tree@)
                    &&& tree.phase().growth.begins_as(config.growth)
                    &&& tree.phase().actions == open_actions(log@)
                },
                Err(error) => opened(disk_of(text_of(manifest), files@, log@)) == Err::<
                    (Seq<Seq<RunView>>, nat),
                    StorageError,
                >(error),
            },
    {
        let manifest: Manifest = match Manifest::load(manifest) {
            Ok(Some(manifest)) => manifest,
            Ok(None) => Manifest::default(),
            Err(error) => {
                return Err(error);
            },
        };
        let next_sequence: u64 = if manifest.next_sequence == 0 {
            1
        } else {
            manifest.next_sequence
        };
        let levels: Vec<Vec<Run>> = match open_levels(files, manifest.runs) {
            Ok(levels) => levels,
            Err(error) => {
                return Err(error);
            },
        };
        let (wal, replay): (Wal, Replay) = Wal::recover(log, config.sync_policy);
        proof {
            lemma_replay_charge(log@);
            lemma_verified_len_bound(log@);
        }
        let mut actions: Vec<DiskAction> = Vec::new();
        if replay.discarded_tail_bytes > 0 {
            actions.push(DiskAction::TruncateLog { length: wal.bytes_written() });
        }
        let memtable: MemTable = replay_memtable(replay.records);
        let tree = LsmTree {
            config,
            memtable,
            wal,
            levels,
            growth: config.growth.build(),
            merge: config.merge.build(),
            next_sequence,
            counters: Counters {
                flush_count: 0,
                compaction_count: 0,
                user_bytes_written: 0,
                sstable_bytes_written: 0,
                compaction_bytes_written: 0,
            },
            actions,
        };
        proof {
            tree.memtable.lemma_wf();
            assert(actions_of(tree.actions@) =~= open_actions(log@));
        }
        Ok(tree)
    }

    // -----------------------------------------------------------------------
    // Around
    // -----------------------------------------------------------------------

    /// Hands out what has to be done on disk, in order.
    pub fn take_actions(&mut self) -> (actions: Vec<DiskAction>)
        requires
            old(self).wf(),
        ensures
            final(self).wf(),
            final(self).configuration() == old(self).configuration(),
            final(self)@ == old(self)@,
            final(self).phase().growth == old(self).phase().growth,
            actions_of(actions@) == old(self).phase().actions,
            final(self).phase().actions == Seq::<ActionView>::empty(),
    {
        let mut actions: Vec<DiskAction> = Vec::new();
        std::mem::swap(&mut actions, &mut self.actions);
        proof {
            assert(actions_of(self.actions@) =~= Seq::<ActionView>::empty());
        }
        actions
    }

    /// Asks that the log be forced down to the device.
    pub fn sync(&mut self)
        requires
            old(self).wf(),
        ensures
            final(self).wf(),
            final(self).configuration() == old(self).configuration(),
            final(self)@ == old(self)@,
            final(self).phase().growth == old(self).phase().growth,
            final(self).phase().actions == old(self).phase().actions.push(ActionView::SyncLog),
    {
        let ghost had = actions_of(self.actions@);
        self.wal.sync();
        self.actions.push(DiskAction::SyncLog);
        proof {
            assert(actions_of(self.actions@) =~= had.push(ActionView::SyncLog));
        }
    }

    /// The manifest of the tree.
    pub fn manifest(&self) -> (manifest: Manifest)
        ensures
            manifest@ == manifest_for(self@),
    {
        let manifest: Manifest = list_levels(&self.levels, self.next_sequence);
        proof {
            assert(manifest@ =~= manifest_for(self@));
        }
        manifest
    }

    /// The next unused sequence number.
    pub fn next_sequence(&self) -> (sequence: u64)
        ensures
            sequence == self@.next_sequence,
    {
        self.next_sequence
    }

    /// The name of the growth scheme at work.
    pub fn growth_name(&self) -> (name: &'static str)
        requires
            self.wf(),
        ensures
            name@ == self.phase().growth.label(),
    {
        self.growth.name()
    }

    /// The name of the merge policy at work.
    pub fn merge_name(&self) -> (name: &'static str)
        requires
            self.wf(),
        ensures
            name@ == self.configuration().merge.label(),
    {
        self.merge.name()
    }

    /// The number of levels.
    pub fn level_count(&self) -> (count: usize)
        ensures
            count == self@.levels.len(),
    {
        self.levels.len()
    }

    /// The configuration.
    pub fn config(&self) -> (config: &LsmConfig)
        ensures
            *config == self.configuration(),
    {
        &self.config
    }

    /// Zeroes the counters of the tables, so that one phase can be measured.
    pub fn reset_io_counters(&self) {
        let mut l: usize = 0;
        while l < self.levels.len()
            decreases self.levels@.len() - l,
        {
            let level: &Vec<Run> = &self.levels[l];
            let mut r: usize = 0;
            while r < level.len()
                decreases level@.len() - r,
            {
                level[r].reset_counters();
                r = r + 1;
            }
            l = l + 1;
        }
    }

    /// Counters and sizes.
    pub fn stats(&self) -> (stats: LsmStats)
        requires
            self.wf(),
        ensures
            stats.memtable_bytes == total_charge(self@.memtable),
            stats.memtable_entries == self@.memtable.len(),
            stats.run_count == saturated_count(all_runs(self@.levels).len()),
            stats.file_count == saturated_count(runs_files(all_runs(self@.levels))),
            stats.disk_bytes == saturated(runs_size(all_runs(self@.levels))),
            stats.runs_per_level@ == Seq::new(
                self@.levels.len(),
                |l: int| self@.levels[l].len() as usize,
            ),
            stats.level_bytes@ == Seq::new(
                self@.levels.len(),
                |l: int| saturated(runs_size(self@.levels[l])),
            ),
            stats.flush_count == self@.counters.flush_count,
            stats.compaction_count == self@.counters.compaction_count,
            stats.user_bytes_written == self@.counters.user_bytes_written,
            stats.sstable_bytes_written == self@.counters.sstable_bytes_written,
            stats.compaction_bytes_written == self@.counters.compaction_bytes_written,
    {
        proof {
            self.memtable.lemma_wf();
        }
        let ghost view = levels_of(self.levels@);
        let mut run_count: usize = 0;
        let mut file_count: usize = 0;
        let mut disk_bytes: u64 = 0;
        let mut blocks_read: u64 = 0;
        let mut bloom_rejections: u64 = 0;
        let mut runs_per_level: Vec<usize> = Vec::new();
        let mut level_bytes: Vec<u64> = Vec::new();
        let mut l: usize = 0;
        proof {
            assert(all_runs(view.take(0)) =~= Seq::<RunView>::empty());
        }
        while l < self.levels.len()
            invariant
                l <= self.levels@.len(),
                view == levels_of(self.levels@),
                run_count == saturated_count(all_runs(view.take(l as int)).len()),
                file_count == saturated_count(runs_files(all_runs(view.take(l as int)))),
                disk_bytes == saturated(runs_size(all_runs(view.take(l as int)))),
                runs_per_level@ == Seq::new(l as nat, |i: int| view[i].len() as usize),
                level_bytes@ == Seq::new(l as nat, |i: int| saturated(runs_size(view[i]))),
            decreases self.levels@.len() - l,
        {
            let measure: LevelMeasure = measure_level(&self.levels[l]);
            proof {
                lemma_next_level(view, l as int);
                lemma_measures_concat(all_runs(view.take(l as int)), view[l as int]);
                assert(view[l as int] == runs_of(self.levels@[l as int]@));
            }
            run_count = run_count.saturating_add(self.levels[l].len());
            file_count = file_count.saturating_add(measure.files);
            disk_bytes = disk_bytes.saturating_add(measure.bytes);
            blocks_read = blocks_read.saturating_add(measure.blocks_read);
            bloom_rejections = bloom_rejections.saturating_add(measure.bloom_rejections);
            runs_per_level.push(self.levels[l].len());
            level_bytes.push(measure.bytes);
            l = l + 1;
            proof {
                assert(runs_per_level@ =~= Seq::new(l as nat, |i: int| view[i].len() as usize));
                assert(level_bytes@ =~= Seq::new(l as nat, |i: int| saturated(runs_size(view[i]))));
            }
        }
        proof {
            assert(view.take(l as int) =~= view);
        }
        LsmStats {
            memtable_bytes: self.memtable.approx_size_bytes(),
            memtable_entries: self.memtable.entry_count(),
            run_count,
            file_count,
            disk_bytes,
            runs_per_level,
            level_bytes,
            flush_count: self.counters.flush_count,
            compaction_count: self.counters.compaction_count,
            user_bytes_written: self.counters.user_bytes_written,
            sstable_bytes_written: self.counters.sstable_bytes_written,
            compaction_bytes_written: self.counters.compaction_bytes_written,
            blocks_read,
            bloom_rejections,
        }
    }
}

/// The files of runs together.
pub open spec fn runs_files(runs: Seq<RunView>) -> nat
    decreases runs.len(),
{
    if runs.len() == 0 {
        0
    } else {
        runs_files(runs.drop_last()) + runs.last().tables.len()
    }
}

/// The bytes of runs together.
pub open spec fn runs_size(runs: Seq<RunView>) -> nat
    decreases runs.len(),
{
    if runs.len() == 0 {
        0
    } else {
        runs_size(runs.drop_last()) + tables_bytes(runs.last().tables)
    }
}

proof fn lemma_measures_concat(a: Seq<RunView>, b: Seq<RunView>)
    ensures
        runs_files(a + b) == runs_files(a) + runs_files(b),
        runs_size(a + b) == runs_size(a) + runs_size(b),
    decreases b.len(),
{
    if b.len() == 0 {
        assert(a + b =~= a);
    } else {
        assert((a + b).drop_last() =~= a + b.drop_last());
        lemma_measures_concat(a, b.drop_last());
    }
}

/// What a level amounts to.
struct LevelMeasure {
    files: usize,
    bytes: u64,
    blocks_read: u64,
    bloom_rejections: u64,
}

fn measure_level(level: &Vec<Run>) -> (measure: LevelMeasure)
    ensures
        measure.files == saturated_count(runs_files(runs_of(level@))),
        measure.bytes == saturated(runs_size(runs_of(level@))),
{
    let ghost runs = runs_of(level@);
    let mut files: usize = 0;
    let mut bytes: u64 = 0;
    let mut blocks_read: u64 = 0;
    let mut bloom_rejections: u64 = 0;
    let mut r: usize = 0;
    while r < level.len()
        invariant
            r <= level@.len(),
            runs == runs_of(level@),
            files == saturated_count(runs_files(runs.take(r as int))),
            bytes == saturated(runs_size(runs.take(r as int))),
        decreases level@.len() - r,
    {
        proof {
            assert(runs.take(r + 1).drop_last() =~= runs.take(r as int));
            assert(runs.take(r + 1).last() == level@[r as int]@);
        }
        let run: &Run = &level[r];
        files = files.saturating_add(run.file_count());
        bytes = bytes.saturating_add(run.bytes());
        let mut f: usize = 0;
        while f < run.tables.len()
            decreases run.tables@.len() - f,
        {
            blocks_read = blocks_read.saturating_add(run.tables[f].table.blocks_read());
            bloom_rejections = bloom_rejections.saturating_add(
                run.tables[f].table.bloom_rejections(),
            );
            f = f + 1;
        }
        r = r + 1;
    }
    proof {
        assert(runs.take(r as int) =~= runs);
    }
    LevelMeasure { files, bytes, blocks_read, bloom_rejections }
}

/// Counters and sizes.
#[derive(Debug, Clone, Default, PartialEq, Eq)]
pub struct LsmStats {
    pub memtable_bytes: usize,
    pub memtable_entries: usize,
    /// Runs across all levels: what the cost of a read goes with.
    pub run_count: usize,
    /// Files across all levels.
    pub file_count: usize,
    pub disk_bytes: u64,
    /// Runs per level, level 0 first.
    pub runs_per_level: Vec<usize>,
    pub level_bytes: Vec<u64>,
    pub flush_count: u64,
    pub compaction_count: u64,
    /// Key and value bytes handed in by the caller.
    pub user_bytes_written: u64,
    /// Bytes of tables written, by flushes and compactions together.
    pub sstable_bytes_written: u64,
    /// Bytes of tables written by compactions alone.
    pub compaction_bytes_written: u64,
    pub blocks_read: u64,
    pub bloom_rejections: u64,
}

impl LsmStats {
    /// Bytes of tables written per byte of user data, as a ratio; none if no
    /// user data was written.
    pub fn write_amplification(&self) -> (ratio: Option<(u64, u64)>)
        ensures
            ratio == if self.user_bytes_written > 0 {
                Some((self.sstable_bytes_written, self.user_bytes_written))
            } else {
                None
            },
    {
        if self.user_bytes_written > 0 {
            Some((self.sstable_bytes_written, self.user_bytes_written))
        } else {
            None
        }
    }
}

} // verus!
