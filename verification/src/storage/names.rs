//! Names of table files: no two tables share one.

use vstd::prelude::*;

use super::manifest::{is_word, table_name};
use super::text::{all_digits, digit_value, is_space, lemma_padded_round_trip, padded, value_of};

verus! {

/// Digits followed by something that does not begin with a digit can be told
/// apart from it.
proof fn lemma_digits_end(a: Seq<char>, b: Seq<char>, c: Seq<char>, d: Seq<char>)
    requires
        all_digits(a, 10),
        all_digits(c, 10),
        b.len() > 0,
        d.len() > 0,
        digit_value(b[0], 10) is None,
        digit_value(d[0], 10) is None,
        a + b == c + d,
    ensures
        a == c,
        b == d,
{
    let all = a + b;
    if a.len() < c.len() {
        assert(all[a.len() as int] == b[0]);
        assert((c + d)[a.len() as int] == c[a.len() as int]);
        assert(digit_value(c[a.len() as int], 10) is Some);
    } else if c.len() < a.len() {
        assert((c + d)[c.len() as int] == d[0]);
        assert(all[c.len() as int] == a[c.len() as int]);
        assert(digit_value(a[c.len() as int], 10) is Some);
    } else {
        assert(a =~= c) by {
            assert forall|i: int| 0 <= i < a.len() implies a[i] == c[i] by {
                assert(all[i] == (c + d)[i]);
            }
        }
        assert(all.skip(a.len() as int) =~= b);
        assert((c + d).skip(c.len() as int) =~= d);
    }
}

/// What follows the level in a name.
spec fn run_part(sequence: nat, part: nat) -> Seq<char> {
    "-R"@ + (padded(sequence, 10, 10) + part_part(part))
}

/// What follows the sequence number in a name.
spec fn part_part(part: nat) -> Seq<char> {
    "-P"@ + (padded(part, 10, 4) + ".sst"@)
}

proof fn lemma_name_parts(level: nat, sequence: nat, part: nat)
    ensures
        table_name(level, sequence, part) == "L"@ + (padded(level, 10, 2) + run_part(
            sequence,
            part,
        )),
        "L"@ == seq!['L'],
        "-R"@ == seq!['-', 'R'],
        "-P"@ == seq!['-', 'P'],
        ".sst"@ == seq!['.', 's', 's', 't'],
{
    reveal_strlit("L");
    reveal_strlit("-R");
    reveal_strlit("-P");
    reveal_strlit(".sst");
    assert("L"@ =~= seq!['L']);
    assert("-R"@ =~= seq!['-', 'R']);
    assert("-P"@ =~= seq!['-', 'P']);
    assert(".sst"@ =~= seq!['.', 's', 's', 't']);
    assert(table_name(level, sequence, part) =~= "L"@ + (padded(level, 10, 2) + run_part(
        sequence,
        part,
    )));
}

/// Two tables have the same name only if they are the same part of the same run
/// of the same level.
pub proof fn law_table_names_are_unique(
    level: nat,
    sequence: nat,
    part: nat,
    level2: nat,
    sequence2: nat,
    part2: nat,
)
    requires
        table_name(level, sequence, part) == table_name(level2, sequence2, part2),
    ensures
        level == level2,
        sequence == sequence2,
        part == part2,
{
    lemma_name_parts(level, sequence, part);
    lemma_name_parts(level2, sequence2, part2);
    lemma_padded_round_trip(level, 10, 2);
    lemma_padded_round_trip(level2, 10, 2);
    lemma_padded_round_trip(sequence, 10, 10);
    lemma_padded_round_trip(sequence2, 10, 10);
    lemma_padded_round_trip(part, 10, 4);
    lemma_padded_round_trip(part2, 10, 4);
    let name = table_name(level, sequence, part);
    let a = padded(level, 10, 2) + run_part(sequence, part);
    let b = padded(level2, 10, 2) + run_part(sequence2, part2);
    assert(name.skip(1) =~= a);
    assert(name.skip(1) =~= b);
    lemma_digits_end(
        padded(level, 10, 2),
        run_part(sequence, part),
        padded(level2, 10, 2),
        run_part(sequence2, part2),
    );
    let rest = run_part(sequence, part);
    assert(rest.skip(2) =~= padded(sequence, 10, 10) + part_part(part));
    assert(rest.skip(2) =~= padded(sequence2, 10, 10) + part_part(part2));
    lemma_digits_end(
        padded(sequence, 10, 10),
        part_part(part),
        padded(sequence2, 10, 10),
        part_part(part2),
    );
    let last = part_part(part);
    assert(last.skip(2) =~= padded(part, 10, 4) + ".sst"@);
    assert(last.skip(2) =~= padded(part2, 10, 4) + ".sst"@);
    lemma_digits_end(padded(part, 10, 4), ".sst"@, padded(part2, 10, 4), ".sst"@);
    assert(value_of(padded(level, 10, 2), 10) == Some(level));
    assert(value_of(padded(sequence, 10, 10), 10) == Some(sequence));
    assert(value_of(padded(part, 10, 4), 10) == Some(part));
}

/// The name of a table is a word, so that a manifest can hold it.
pub proof fn lemma_table_name_is_word(level: nat, sequence: nat, part: nat)
    ensures
        is_word(table_name(level, sequence, part)),
{
    lemma_name_parts(level, sequence, part);
    lemma_padded_round_trip(level, 10, 2);
    lemma_padded_round_trip(sequence, 10, 10);
    lemma_padded_round_trip(part, 10, 4);
    let name = table_name(level, sequence, part);
    let a = padded(level, 10, 2);
    let b = padded(sequence, 10, 10);
    let c = padded(part, 10, 4);
    assert forall|i: int| 0 <= i < name.len() implies !is_space(#[trigger] name[i]) by {
        let j = i - 1;
        let k = j - a.len() - 2;
        let m = k - b.len() - 2;
        if i == 0 {
            assert(name[i] == 'L');
        } else if j < a.len() {
            assert(name[i] == a[j]);
            assert(digit_value(a[j], 10) is Some);
        } else if k < 0 {
            assert(name[i] == "-R"@[j - a.len()]);
        } else if k < b.len() {
            assert(name[i] == b[k]);
            assert(digit_value(b[k], 10) is Some);
        } else if m < 0 {
            assert(name[i] == "-P"@[k - b.len()]);
        } else if m < c.len() {
            assert(name[i] == c[m]);
            assert(digit_value(c[m], 10) is Some);
        } else {
            assert(name[i] == ".sst"@[m - c.len()]);
        }
    }
}

} // verus!
