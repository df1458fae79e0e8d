//! What fits the fields of a table file.

use vstd::prelude::*;

use super::block::{block_bytes, entry_bytes, index_bytes, index_entry_bytes, sealed};
use super::codec::lemma_le_len;
use super::entries::{ascending, EntryView};
use super::memtable::{
    lemma_charge_concat, payload_len, total_charge, ENTRY_OVERHEAD_BYTES,
};
use super::order::lex_lt;
use super::run::{
    join, lemma_parts, part_split, parts_of, parts_storable, payload_sum, TableOptions,
};
use super::soundness::{fine, fits, fits_upto, lemma_fine_is_appendable};
use super::sstable::{blocks_of, data_of, index_for, split, storable};
use super::wal::{loggable, MAX_PAYLOAD_BYTES};

verus! {

/// Files up to this size hold whatever comes through the log.
pub const SAFE_FILE_BYTES: u64 = 128 * 1024 * 1024;

/// Files up to this size do if their blocks are neither tiny nor huge.
pub const LARGE_FILE_BYTES: u64 = 3 * 1024 * 1024 * 1024;

/// The least target of blocks that is not tiny.
pub const LEAST_BLOCK_BYTES: u64 = 1024;

/// The largest target of blocks that is not huge.
pub const LARGEST_BLOCK_BYTES: u64 = 2 * 1024 * 1024 * 1024;

/// The bytes of entries in blocks.
proof fn lemma_block_len(entries: Seq<EntryView>)
    ensures
        block_bytes(entries).len() == 9 * entries.len() + payload_sum(entries),
    decreases entries.len(),
{
    broadcast use lemma_le_len;

    if entries.len() > 0 {
        lemma_block_len(entries.drop_last());
        assert(entry_bytes(entries.last()).len() == 9 + entries.last().0.len() + payload_len(
            entries.last().1,
        ));
    }
}

/// What is known of blocks that hold `entries`, of which those in `open` are not
/// closed yet.
spec fn measured(
    closed: Seq<Seq<EntryView>>,
    open: Seq<EntryView>,
    entries: Seq<EntryView>,
    target: nat,
) -> bool {
    &&& data_of(closed).len() + block_bytes(open).len() == block_bytes(entries).len() + 4
        * closed.len()
    &&& closed.len() + open.len() <= entries.len()
    &&& index_bytes(index_for(closed)).len() + payload_sum(open) <= 16 * closed.len()
        + payload_sum(entries)
    &&& closed.len() * target + block_bytes(open).len() <= block_bytes(entries).len()
    &&& forall|i: int|
        0 <= i < closed.len() ==> block_bytes(#[trigger] closed[i]).len() + block_bytes(open).len()
            <= block_bytes(entries).len()
    &&& forall|i: int|
        0 <= i < closed.len() ==> block_bytes(#[trigger] closed[i]).len() <= target
            + MAX_PAYLOAD_BYTES + 9
    &&& open.len() == 0 || block_bytes(open).len() < target
}

/// Entries take their place in blocks.
proof fn lemma_split_len(entries: Seq<EntryView>, target: nat)
    requires
        forall|i: int| 0 <= i < entries.len() ==> loggable(#[trigger] entries[i]),
    ensures
        measured(split(entries, target).0, split(entries, target).1, entries, target),
    decreases entries.len(),
{
    broadcast use lemma_le_len;

    let (closed, open) = split(entries, target);
    if entries.len() == 0 {
        assert(block_bytes(open).len() == 0);
        assert(index_for(closed).len() == 0);
        assert(0 * target == 0);
    } else {
        let head = entries.drop_last();
        let entry = entries.last();
        assert(loggable(entries[entries.len() - 1]));
        assert forall|i: int| 0 <= i < head.len() implies loggable(#[trigger] head[i]) by {
            assert(head[i] == entries[i]);
        }
        let (before, was_open) = split(head, target);
        lemma_split_len(head, target);
        let grown = was_open.push(entry);
        assert(grown.drop_last() =~= was_open);
        assert(entry_bytes(entry).len() == 9 + entry.0.len() + payload_len(entry.1));
        assert(block_bytes(grown).len() == block_bytes(was_open).len() + entry_bytes(entry).len());
        if was_open.len() == 0 {
            assert(block_bytes(was_open).len() == 0);
        }
        if block_bytes(grown).len() >= target {
            assert(closed == before.push(grown));
            assert(block_bytes(open).len() == 0 && payload_sum(open) == 0);
            lemma_closed_len(before, grown);
            assert((before.len() + 1) * target == before.len() * target + target)
                by (nonlinear_arith);
            assert forall|i: int| 0 <= i < closed.len() implies block_bytes(
                #[trigger] closed[i],
            ).len() <= block_bytes(entries).len() && block_bytes(closed[i]).len() <= target
                + MAX_PAYLOAD_BYTES + 9 by {
                if i < before.len() {
                    assert(closed[i] == before[i]);
                }
            }
        } else {
            assert(closed == before);
        }
    }
}

/// One more block.
proof fn lemma_closed_len(closed: Seq<Seq<EntryView>>, block: Seq<EntryView>)
    requires
        block.len() > 0,
    ensures
        data_of(closed.push(block)).len() == data_of(closed).len() + block_bytes(block).len() + 4,
        index_bytes(index_for(closed.push(block))).len() <= index_bytes(index_for(closed)).len()
            + 16 + payload_sum(block),
{
    broadcast use lemma_le_len;

    let more = closed.push(block);
    assert(more.drop_last() =~= closed);
    assert(sealed(block_bytes(block)).len() == block_bytes(block).len() + 4);
    let index = index_for(more);
    assert(index.drop_last() =~= index_for(closed));
    assert(index_entry_bytes(index.last()).len() == 16 + block[0].0.len());
    lemma_first_key_len(block);
}

proof fn lemma_first_key_len(block: Seq<EntryView>)
    requires
        block.len() > 0,
    ensures
        block[0].0.len() <= payload_sum(block),
    decreases block.len(),
{
    if block.len() > 1 {
        assert(block.drop_last()[0] == block[0]);
        lemma_first_key_len(block.drop_last());
    }
}

/// A part ends with the entry that fills it.
proof fn lemma_part_len(entries: Seq<EntryView>, limit: nat)
    requires
        forall|i: int| 0 <= i < entries.len() ==> loggable(#[trigger] entries[i]),
    ensures
        ({
            let (finished, open) = part_split(entries, limit);
            &&& payload_sum(open) < limit || open.len() == 0
            &&& forall|i: int|
                0 <= i < finished.len() ==> payload_sum(#[trigger] finished[i]) <= limit
                    + MAX_PAYLOAD_BYTES
            &&& forall|i: int, j: int|
                0 <= i < finished.len() && 0 <= j < finished[i].len() ==> loggable(
                    #[trigger] finished[i][j],
                )
            &&& forall|j: int| 0 <= j < open.len() ==> loggable(#[trigger] open[j])
        }),
    decreases entries.len(),
{
    let (finished, open) = part_split(entries, limit);
    if entries.len() > 0 {
        let head = entries.drop_last();
        let (before, was_open) = part_split(head, limit);
        assert forall|i: int| 0 <= i < head.len() implies loggable(#[trigger] head[i]) by {
            assert(head[i] == entries[i]);
        }
        lemma_part_len(head, limit);
        let grown = was_open.push(entries.last());
        assert(grown.drop_last() =~= was_open);
        assert(loggable(entries[entries.len() - 1]));
        assert forall|j: int| 0 <= j < grown.len() implies loggable(#[trigger] grown[j]) by {
            if j < was_open.len() {
                assert(grown[j] == was_open[j]);
            }
        }
        if was_open.len() == 0 {
            assert(payload_sum(was_open) == 0);
        }
        if payload_sum(grown) >= limit {
            assert(finished == before.push(grown));
            assert forall|i: int| 0 <= i < finished.len() implies payload_sum(
                #[trigger] finished[i],
            ) <= limit + MAX_PAYLOAD_BYTES by {
                if i < before.len() {
                    assert(finished[i] == before[i]);
                }
            }
            assert forall|i: int, j: int|
                0 <= i < finished.len() && 0 <= j < finished[i].len() implies loggable(
                #[trigger] finished[i][j],
            ) by {
                if i < before.len() {
                    assert(finished[i][j] == before[i][j]);
                } else {
                    assert(finished[i][j] == grown[j]);
                }
            }
        }
    } else {
        assert(payload_sum(open) == 0);
    }
}

/// Only the first of ascending keys can be empty.
proof fn lemma_count_bound(entries: Seq<EntryView>)
    requires
        ascending(entries),
    ensures
        entries.len() <= payload_sum(entries) + 1,
    decreases entries.len(),
{
    if entries.len() > 0 {
        let head = entries.drop_last();
        assert(ascending(head)) by {
            assert forall|i: int, j: int|
                #![trigger head[i], head[j]]
                0 <= i < j < head.len() implies lex_lt(head[i].0, head[j].0) by {
                assert(head[i] == entries[i] && head[j] == entries[j]);
            }
        }
        lemma_count_bound(head);
        if head.len() > 0 {
            assert(lex_lt(entries[0].0, entries[entries.len() - 1].0));
            assert(entries.last().0.len() > 0);
        }
    }
}

/// A part of ascending entries ascends.
proof fn lemma_part_ascends(parts: Seq<Seq<EntryView>>, i: int)
    requires
        ascending(join(parts)),
        0 <= i < parts.len(),
    ensures
        ascending(parts[i]),
    decreases parts.len(),
{
    super::entries::lemma_find_concat(join(parts.drop_last()), parts.last(), Seq::empty());
    if i < parts.len() - 1 {
        assert(parts.drop_last()[i] == parts[i]);
        lemma_part_ascends(parts.drop_last(), i);
    }
}

/// The blocks of a table.
proof fn lemma_blocks_len(entries: Seq<EntryView>, target: nat)
    requires
        forall|i: int| 0 <= i < entries.len() ==> loggable(#[trigger] entries[i]),
    ensures
        ({
            let blocks = blocks_of(entries, target);
            &&& data_of(blocks).len() == block_bytes(entries).len() + 4 * blocks.len()
            &&& blocks.len() <= entries.len()
            &&& index_bytes(index_for(blocks)).len() <= 16 * blocks.len() + payload_sum(entries)
            &&& blocks.len() > 0 ==> (blocks.len() - 1) * target <= block_bytes(entries).len()
            &&& forall|i: int|
                0 <= i < blocks.len() ==> block_bytes(#[trigger] blocks[i]).len() <= block_bytes(
                    entries,
                ).len() && block_bytes(blocks[i]).len() <= target + MAX_PAYLOAD_BYTES + 9
        }),
{
    lemma_split_len(entries, target);
    let (closed, open) = split(entries, target);
    let blocks = blocks_of(entries, target);
    if open.len() > 0 {
        lemma_closed_len(closed, open);
        assert forall|i: int| 0 <= i < blocks.len() implies block_bytes(#[trigger] blocks[i]).len()
            <= block_bytes(entries).len() && block_bytes(blocks[i]).len() <= target
            + MAX_PAYLOAD_BYTES + 9 by {
            if i < closed.len() {
                assert(blocks[i] == closed[i]);
            }
        }
    } else {
        assert(block_bytes(open).len() == 0 && payload_sum(open) == 0);
        if blocks.len() > 0 {
            assert((blocks.len() - 1) * target <= blocks.len() * target) by (nonlinear_arith)
                requires
                    target >= 0,
            ;
        }
    }
}

/// The most bytes that entries with so many bytes of keys and values take in blocks:
/// ascending keys are all but one not empty.
pub open spec fn most_block_bytes(payload: nat) -> nat {
    9 * (payload + 1) + payload
}

/// The most blocks that such entries fill.
pub open spec fn most_blocks(payload: nat, target: nat) -> nat {
    if target == 0 || payload < most_block_bytes(payload) / target {
        payload + 1
    } else {
        most_block_bytes(payload) / target + 1
    }
}

/// Whatever came through the log, with no more than so many bytes of keys and values,
/// fits one table with blocks of the given size.
pub open spec fn has_room(payload: nat, target: nat) -> bool {
    &&& most_block_bytes(payload) + 4 <= u32::MAX || target + MAX_PAYLOAD_BYTES + 13 <= u32::MAX
    &&& 16 * most_blocks(payload, target) + payload + 4 <= u32::MAX
}

/// A part that is not too large fits.
proof fn lemma_part_fits(part: Seq<EntryView>, target: nat, payload: nat)
    requires
        ascending(part),
        payload_sum(part) <= payload,
        has_room(payload, target),
        forall|j: int| 0 <= j < part.len() ==> loggable(#[trigger] part[j]),
    ensures
        storable(part, target),
{
    lemma_count_bound(part);
    lemma_block_len(part);
    lemma_blocks_len(part, target);
    let blocks = blocks_of(part, target);
    assert(block_bytes(part).len() <= most_block_bytes(payload));
    assert(blocks.len() <= most_blocks(payload, target)) by {
        if target > 0 && blocks.len() > 0 {
            let n = blocks.len() - 1;
            let most = most_block_bytes(payload) as int;
            assert(n <= most / (target as int)) by (nonlinear_arith)
                requires
                    n * target <= most,
                    target > 0,
            ;
        }
    }
    assert forall|i: int| 0 <= i < blocks.len() implies block_bytes(#[trigger] blocks[i]).len() + 4
        <= u32::MAX by {}
}

/// Runs fit the format of tables, whatever came through the log, if a file at the
/// target size has room for one more entry.
pub proof fn law_files_with_room_fit(options: TableOptions)
    requires
        has_room(
            (options.target_file_size_bytes + MAX_PAYLOAD_BYTES) as nat,
            options.block_target_bytes as nat,
        ),
    ensures
        fits(options),
{
    let limit = options.target_file_size_bytes as nat;
    assert forall|entries: Seq<EntryView>|
        ascending(entries) && fine(entries) implies #[trigger] parts_storable(
        entries,
        options,
    ) by {
        lemma_fine_is_appendable(entries);
        lemma_parts(entries, limit);
        lemma_part_len(entries, limit);
        let parts = parts_of(entries, limit);
        let (finished, open) = part_split(entries, limit);
        assert forall|i: int| 0 <= i < parts.len() implies storable(
            #[trigger] parts[i],
            options.block_target_bytes as nat,
        ) by {
            lemma_part_ascends(parts, i);
            if i < finished.len() {
                assert(parts[i] == finished[i]);
                assert forall|j: int| 0 <= j < parts[i].len() implies loggable(
                    #[trigger] parts[i][j],
                ) by {
                    assert(parts[i][j] == finished[i][j]);
                }
            } else {
                assert(parts[i] == open);
            }
            lemma_part_fits(
                parts[i],
                options.block_target_bytes as nat,
                limit + MAX_PAYLOAD_BYTES as nat,
            );
        }
    }
}

/// Runs split at no more than [`SAFE_FILE_BYTES`] fit the format of tables,
/// whatever came through the log and whatever the size of blocks.
pub proof fn law_small_files_fit(options: TableOptions)
    requires
        options.target_file_size_bytes <= SAFE_FILE_BYTES,
    ensures
        fits(options),
{
    law_files_with_room_fit(options);
}

/// Runs split at no more than [`LARGE_FILE_BYTES`] fit the format of tables, whatever
/// came through the log, if blocks are neither tiny nor huge.
pub proof fn law_large_files_fit(options: TableOptions)
    requires
        options.target_file_size_bytes <= LARGE_FILE_BYTES,
        LEAST_BLOCK_BYTES <= options.block_target_bytes <= LARGEST_BLOCK_BYTES,
    ensures
        fits(options),
{
    let payload = (options.target_file_size_bytes + MAX_PAYLOAD_BYTES) as nat;
    let target = options.block_target_bytes as nat;
    let most = most_block_bytes(payload);
    assert(most / target <= most / 1024) by (nonlinear_arith)
        requires
            target >= 1024,
    ;
    law_files_with_room_fit(options);
}

/// A part is charged no more than the whole.
proof fn lemma_part_charge(parts: Seq<Seq<EntryView>>, i: int)
    requires
        0 <= i < parts.len(),
    ensures
        total_charge(parts[i]) <= total_charge(join(parts)),
    decreases parts.len(),
{
    lemma_charge_concat(join(parts.drop_last()), parts.last());
    if i < parts.len() - 1 {
        assert(parts.drop_last()[i] == parts[i]);
        lemma_part_charge(parts.drop_last(), i);
    }
}

/// A charge is for the bytes and for each entry.
proof fn lemma_charge_len(entries: Seq<EntryView>)
    ensures
        total_charge(entries) == ENTRY_OVERHEAD_BYTES * entries.len() + payload_sum(entries),
    decreases entries.len(),
{
    if entries.len() > 0 {
        lemma_charge_len(entries.drop_last());
    }
}

/// What is charged less than four GiB together fits the format of tables, whatever the
/// sizes of files and blocks.
pub proof fn law_small_trees_fit(options: TableOptions, budget: nat)
    requires
        budget <= u32::MAX,
    ensures
        fits_upto(options, budget),
{
    let limit = options.target_file_size_bytes as nat;
    let target = options.block_target_bytes as nat;
    assert forall|entries: Seq<EntryView>|
        ascending(entries) && fine(entries) && total_charge(entries)
            <= budget implies #[trigger] parts_storable(entries, options) by {
        lemma_fine_is_appendable(entries);
        lemma_parts(entries, limit);
        lemma_part_len(entries, limit);
        let parts = parts_of(entries, limit);
        let (finished, open) = part_split(entries, limit);
        assert forall|i: int| 0 <= i < parts.len() implies storable(
            #[trigger] parts[i],
            target,
        ) by {
            let part = parts[i];
            if i < finished.len() {
                assert(parts[i] == finished[i]);
                assert forall|j: int| 0 <= j < part.len() implies loggable(#[trigger] part[j]) by {
                    assert(part[j] == finished[i][j]);
                }
            } else {
                assert(part == open);
            }
            lemma_part_charge(parts, i);
            lemma_charge_len(part);
            lemma_block_len(part);
            lemma_blocks_len(part, target);
        }
    }
}

} // verus!
