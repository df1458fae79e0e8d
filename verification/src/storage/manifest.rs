//! The manifest: which runs are live.
//!
//! Which tables make up the tree cannot be told from a directory listing: after
//! a crash in the middle of a compaction both its inputs and its output may be
//! there, and the stale inputs would be read first. One small file names every
//! live run, and is replaced whole by an atomic rename. Before the rename the
//! old runs are live, after it the new ones; tables that it does not name are
//! garbage.
//!
//! ```text
//! vectordb-manifest 1
//! next-sequence 7
//! run 0 6 1 L00-R0000000006-P0000.sst
//! run 1 5 3 L01-R0000000005-P0000.sst L01-R0000000005-P0001.sst
//! crc32 89abcdef
//! ```
//!
//! A run line holds the level, the sequence, the units and the files. The
//! checksum covers everything before its own line. Lines that begin with any
//! other word are skipped.

use vstd::prelude::*;
use vstd::string::*;
use vstd::utf8::encode_utf8;

use super::crc32::{crc_of, crc32};
use super::text::{
    all_digits, chars_of, digit_value, find_lines, find_words, is_space, lemma_lines_step,
    lemma_padded_round_trip, lemma_trimmed, lemma_words_step, lines_of, padded, parse_number,
    push_number, read_number, span_is, spans_of, trim_span, trimmed, words_of,
};
use super::error::ManifestField;
use super::StorageError;

verus! {

/// The name of the manifest.
pub const MANIFEST_FILENAME: &'static str = "MANIFEST";

/// The name under which the next manifest is written before it is renamed.
pub const MANIFEST_TEMP_FILENAME: &'static str = "MANIFEST.tmp";

/// What a run entry says.
#[verifier::ext_equal]
pub struct RunEntryView {
    pub level: nat,
    pub sequence: nat,
    pub units: nat,
    pub files: Seq<Seq<char>>,
}

/// What a manifest says.
#[verifier::ext_equal]
pub struct ManifestView {
    pub runs: Seq<RunEntryView>,
    pub next_sequence: nat,
}

/// The first line.
pub open spec fn header_text() -> Seq<char> {
    "vectordb-manifest 1"@
}

/// A number as it is written.
pub open spec fn number_text(number: nat) -> Seq<char> {
    padded(number, 10, 0)
}

/// Each file with a space before it.
pub open spec fn files_text(files: Seq<Seq<char>>) -> Seq<char>
    decreases files.len(),
{
    if files.len() == 0 {
        Seq::empty()
    } else {
        files_text(files.drop_last()) + seq![' '] + files.last()
    }
}

/// The line of a run, without its end.
pub open spec fn run_line(run: RunEntryView) -> Seq<char> {
    "run "@ + number_text(run.level) + seq![' '] + number_text(run.sequence) + seq![' ']
        + number_text(run.units) + files_text(run.files)
}

/// The lines of runs.
pub open spec fn runs_text(runs: Seq<RunEntryView>) -> Seq<char>
    decreases runs.len(),
{
    if runs.len() == 0 {
        Seq::empty()
    } else {
        runs_text(runs.drop_last()) + run_line(runs.last()) + seq!['\n']
    }
}

/// The line of the next sequence number, without its end.
pub open spec fn sequence_line(manifest: ManifestView) -> Seq<char> {
    "next-sequence "@ + number_text(manifest.next_sequence)
}

/// Everything that the checksum covers.
pub open spec fn body_text(manifest: ManifestView) -> Seq<char> {
    header_text() + seq!['\n'] + sequence_line(manifest) + seq!['\n'] + runs_text(manifest.runs)
}

/// The checksum of a text.
pub open spec fn text_crc(text: Seq<char>) -> u32 {
    crc_of(encode_utf8(text))
}

/// A manifest as text.
pub open spec fn manifest_text(manifest: ManifestView) -> Seq<char> {
    body_text(manifest) + "crc32 "@ + padded(text_crc(body_text(manifest)) as nat, 16, 8) + seq![
        '\n',
    ]
}

/// The mark stands at `at`.
pub open spec fn mark_at(text: Seq<char>, at: int) -> bool {
    0 <= at && at + 6 <= text.len() && text.subrange(at, at + 6) == "crc32 "@
}

/// The last place where the mark stands.
pub open spec fn is_last_mark(text: Seq<char>, at: int) -> bool {
    mark_at(text, at) && forall|later: int| at < later ==> !#[trigger] mark_at(text, later)
}

/// The number that one word of a line is, or what is wrong with it.
pub open spec fn read_field(
    words: Seq<Seq<char>>,
    at: int,
    max: nat,
    field: ManifestField,
) -> Result<nat, StorageError> {
    if at >= words.len() {
        Err(StorageError::ManifestMissingField { field })
    } else {
        match parse_number(words[at], 10, max) {
            Some(number) => Ok(number),
            None => Err(StorageError::ManifestBadField { field }),
        }
    }
}

/// The run that the words of a line describe, or the first thing wrong with them.
pub open spec fn read_run(words: Seq<Seq<char>>) -> Result<RunEntryView, StorageError> {
    match read_field(words, 1, usize::MAX as nat, ManifestField::RunLevel) {
        Err(error) => Err(error),
        Ok(level) => match read_field(words, 2, u64::MAX as nat, ManifestField::RunSequence) {
            Err(error) => Err(error),
            Ok(sequence) => match read_field(
                words,
                3,
                usize::MAX as nat,
                ManifestField::RunUnits,
            ) {
                Err(error) => Err(error),
                Ok(units) => if words.len() == 4 {
                    Err(StorageError::ManifestEmptyRun)
                } else {
                    Ok(RunEntryView { level, sequence, units, files: words.skip(4) })
                },
            },
        },
    }
}

/// What reading a line adds to a manifest, or what is wrong with the line.
pub open spec fn read_line(manifest: ManifestView, line: Seq<char>) -> Result<
    ManifestView,
    StorageError,
> {
    let words = words_of(line);
    if words.len() == 0 {
        Ok(manifest)
    } else if words[0] == "next-sequence"@ {
        match read_field(words, 1, u64::MAX as nat, ManifestField::NextSequence) {
            Err(error) => Err(error),
            Ok(next_sequence) => Ok(ManifestView { runs: manifest.runs, next_sequence }),
        }
    } else if words[0] == "run"@ {
        match read_run(words) {
            Err(error) => Err(error),
            Ok(run) => Ok(
                ManifestView {
                    runs: manifest.runs.push(run),
                    next_sequence: manifest.next_sequence,
                },
            ),
        }
    } else {
        Ok(manifest)
    }
}

/// What reading lines in turn makes of a manifest.
pub open spec fn read_lines(manifest: ManifestView, lines: Seq<Seq<char>>) -> Result<
    ManifestView,
    StorageError,
>
    decreases lines.len(),
{
    if lines.len() == 0 {
        Ok(manifest)
    } else {
        match read_line(manifest, lines[0]) {
            Err(error) => Err(error),
            Ok(more) => read_lines(more, lines.drop_first()),
        }
    }
}

/// A manifest that says nothing yet.
pub open spec fn empty_manifest() -> ManifestView {
    ManifestView { runs: Seq::empty(), next_sequence: 0 }
}

/// What the lines before the checksum say.
pub open spec fn parse_body(body: Seq<char>) -> Result<ManifestView, StorageError> {
    let lines = lines_of(body);
    if lines.len() == 0 || trimmed(lines[0]) != header_text() {
        Err(StorageError::ManifestBadHeader)
    } else {
        read_lines(empty_manifest(), lines.drop_first())
    }
}

/// What the text says, if the mark stands last at `at`.
pub open spec fn parse_at(text: Seq<char>, at: int) -> Result<ManifestView, StorageError> {
    let body = text.take(at);
    match parse_number(trimmed(text.skip(at + 6)), 16, u32::MAX as nat) {
        None => Err(StorageError::ManifestBadChecksum),
        Some(expected) => if text_crc(body) != expected {
            Err(StorageError::ManifestChecksumMismatch)
        } else {
            parse_body(body)
        },
    }
}

/// What a text says as a manifest, or what is wrong with it.
pub open spec fn parse_manifest(text: Seq<char>) -> Result<ManifestView, StorageError> {
    if exists|at: int| is_last_mark(text, at) {
        parse_at(text, choose|at: int| is_last_mark(text, at))
    } else {
        Err(StorageError::ManifestNoChecksum)
    }
}

/// A word that a line can hold.
pub open spec fn is_word(word: Seq<char>) -> bool {
    word.len() > 0 && forall|i: int| 0 <= i < word.len() ==> !is_space(#[trigger] word[i])
}

/// A run that can be written and read back: it names files, by words, and its
/// numbers fit their fields.
pub open spec fn writable_run(run: RunEntryView) -> bool {
    &&& run.files.len() > 0
    &&& forall|i: int| 0 <= i < run.files.len() ==> is_word(#[trigger] run.files[i])
    &&& run.level <= usize::MAX
    &&& run.sequence <= u64::MAX
    &&& run.units <= usize::MAX
}

/// A manifest that can be written and read back.
pub open spec fn writable(manifest: ManifestView) -> bool {
    &&& manifest.next_sequence <= u64::MAX
    &&& forall|i: int| 0 <= i < manifest.runs.len() ==> writable_run(#[trigger] manifest.runs[i])
}

// ---------------------------------------------------------------------------
// A manifest survives being written
// ---------------------------------------------------------------------------

proof fn lemma_literals()
    ensures
        "run "@ == seq!['r', 'u', 'n', ' '],
        "run"@ == seq!['r', 'u', 'n'],
        "next-sequence"@.len() == 13,
        "next-sequence "@ == "next-sequence"@ + seq![' '],
        is_word("next-sequence"@),
        is_word("run"@),
        "next-sequence"@ != "run"@,
        "crc32 "@ == seq!['c', 'r', 'c', '3', '2', ' '],
        header_text().len() == 19,
        header_text()[0] == 'v',
        header_text()[18] == '1',
        forall|i: int| 0 <= i < 19 ==> #[trigger] header_text()[i] != '\n',
        forall|i: int| 0 <= i < 13 ==> #[trigger] "next-sequence"@[i] != '\n',
{
    reveal_strlit("run ");
    reveal_strlit("run");
    reveal_strlit("next-sequence");
    reveal_strlit("next-sequence ");
    reveal_strlit("crc32 ");
    reveal_strlit("vectordb-manifest 1");
    assert("run "@ =~= seq!['r', 'u', 'n', ' ']);
    assert("run"@ =~= seq!['r', 'u', 'n']);
    assert("next-sequence "@ =~= "next-sequence"@ + seq![' ']);
    assert("crc32 "@ =~= seq!['c', 'r', 'c', '3', '2', ' ']);
}

/// A digit is neither white space nor a line end.
proof fn lemma_digits_are_a_word(text: Seq<char>, radix: nat)
    requires
        text.len() > 0,
        all_digits(text, radix),
    ensures
        is_word(text),
        forall|i: int| 0 <= i < text.len() ==> #[trigger] text[i] != '\n',
        forall|i: int| 0 <= i < text.len() ==> #[trigger] text[i] != 'r',
{
    assert forall|i: int| 0 <= i < text.len() implies !is_space(#[trigger] text[i]) && text[i]
        != '\n' && text[i] != 'r' by {
        assert(digit_value(text[i], radix) is Some);
    }
}

/// The words of files written one after the other.
proof fn lemma_files_words(front: Seq<char>, files: Seq<Seq<char>>)
    requires
        is_word(front),
        forall|i: int| 0 <= i < files.len() ==> is_word(#[trigger] files[i]),
    ensures
        words_of(front + files_text(files)) == seq![front] + files,
    decreases files.len(),
{
    if files.len() == 0 {
        assert(front + files_text(files) =~= front + Seq::<char>::empty());
        lemma_words_step(front, Seq::empty());
        assert(words_of(Seq::<char>::empty()) =~= Seq::<Seq<char>>::empty());
        assert(seq![front] + files =~= seq![front] + Seq::<Seq<char>>::empty());
    } else {
        lemma_files_split(files);
        let first = files[0];
        let rest = files.drop_first();
        assert forall|i: int| 0 <= i < rest.len() implies is_word(#[trigger] rest[i]) by {
            assert(rest[i] == files[i + 1]);
        }
        assert(is_word(first));
        let tail = seq![' '] + first + files_text(rest);
        assert(front + files_text(files) =~= front + tail);
        assert(tail[0] == ' ');
        lemma_words_step(front, tail);
        assert(tail.drop_first() =~= first + files_text(rest));
        lemma_files_words(first, rest);
        assert(seq![front] + (seq![first] + rest) =~= seq![front] + files);
    }
}

proof fn lemma_files_split(files: Seq<Seq<char>>)
    requires
        files.len() > 0,
    ensures
        files_text(files) == seq![' '] + files[0] + files_text(files.drop_first()),
    decreases files.len(),
{
    if files.len() == 1 {
        assert(files.drop_last() =~= Seq::<Seq<char>>::empty());
        assert(files.drop_first() =~= Seq::<Seq<char>>::empty());
        assert(files_text(files) =~= seq![' '] + files[0] + files_text(files.drop_first()));
    } else {
        lemma_files_split(files.drop_last());
        assert(files.drop_last().drop_first() =~= files.drop_first().drop_last());
        assert(files_text(files) =~= seq![' '] + files[0] + files_text(files.drop_first()));
    }
}

proof fn lemma_number_is_a_word(number: nat, max: nat)
    requires
        number <= max,
    ensures
        is_word(number_text(number)),
        parse_number(number_text(number), 10, max) == Some(number),
        forall|i: int| 0 <= i < number_text(number).len() ==> #[trigger] number_text(number)[i] != '\n',
{
    lemma_padded_round_trip(number, 10, 0);
    lemma_digits_are_a_word(number_text(number), 10);
    assert(parse_number(padded(number, 10, 0), 10, max) == Some(number));
}

/// The words of a run's line.
proof fn lemma_run_words(run: RunEntryView)
    requires
        writable_run(run),
    ensures
        words_of(run_line(run)) == seq![
            "run"@,
            number_text(run.level),
            number_text(run.sequence),
            number_text(run.units),
        ] + run.files,
{
    lemma_literals();
    lemma_number_is_a_word(run.level, usize::MAX as nat);
    lemma_number_is_a_word(run.sequence, u64::MAX as nat);
    lemma_number_is_a_word(run.units, usize::MAX as nat);
    let numbers = seq![number_text(run.level), number_text(run.sequence), number_text(run.units)];
    let words = numbers + run.files;
    assert forall|i: int| 0 <= i < words.len() implies is_word(#[trigger] words[i]) by {
        if i >= 3 {
            assert(words[i] == run.files[i - 3]);
        }
    }
    lemma_files_words("run"@, words);
    lemma_files_concat(numbers, run.files);
    lemma_three_words(number_text(run.level), number_text(run.sequence), number_text(run.units));
    assert("run"@ + files_text(words) =~= run_line(run));
    assert(seq!["run"@] + words =~= seq![
        "run"@,
        number_text(run.level),
        number_text(run.sequence),
        number_text(run.units),
    ] + run.files);
}

proof fn lemma_three_words(a: Seq<char>, b: Seq<char>, c: Seq<char>)
    ensures
        files_text(seq![a, b, c]) == seq![' '] + a + seq![' '] + b + seq![' '] + c,
{
    let all = seq![a, b, c];
    assert(all.drop_last() =~= seq![a, b]);
    assert(seq![a, b].drop_last() =~= seq![a]);
    assert(seq![a].drop_last() =~= Seq::<Seq<char>>::empty());
    assert(files_text(Seq::<Seq<char>>::empty()) =~= Seq::<char>::empty());
    assert(files_text(seq![a]) =~= seq![' '] + a);
    assert(files_text(seq![a, b]) =~= seq![' '] + a + seq![' '] + b);
    assert(files_text(all) =~= seq![' '] + a + seq![' '] + b + seq![' '] + c);
}

proof fn lemma_files_concat(a: Seq<Seq<char>>, b: Seq<Seq<char>>)
    ensures
        files_text(a + b) == files_text(a) + files_text(b),
    decreases b.len(),
{
    if b.len() == 0 {
        assert(a + b =~= a);
        assert(files_text(a) + files_text(b) =~= files_text(a));
    } else {
        assert((a + b).drop_last() =~= a + b.drop_last());
        lemma_files_concat(a, b.drop_last());
        assert(files_text(a + b) =~= files_text(a) + files_text(b));
    }
}

/// A run's line reads back as the run.
proof fn lemma_run_line_round_trip(manifest: ManifestView, run: RunEntryView)
    requires
        writable_run(run),
    ensures
        read_line(manifest, run_line(run)) == Ok::<ManifestView, StorageError>(
            ManifestView {
                runs: manifest.runs.push(run),
                next_sequence: manifest.next_sequence,
            },
        ),
{
    lemma_literals();
    lemma_run_words(run);
    let words = words_of(run_line(run));
    lemma_number_is_a_word(run.level, usize::MAX as nat);
    lemma_number_is_a_word(run.sequence, u64::MAX as nat);
    lemma_number_is_a_word(run.units, usize::MAX as nat);
    assert(words.skip(4) =~= run.files);
    assert(words[0] == "run"@);
}

/// No line of a run has a line end inside.
proof fn lemma_run_line_is_one_line(run: RunEntryView)
    requires
        writable_run(run),
    ensures
        forall|i: int| 0 <= i < run_line(run).len() ==> #[trigger] run_line(run)[i] != '\n',
{
    lemma_literals();
    lemma_number_is_a_word(run.level, usize::MAX as nat);
    lemma_number_is_a_word(run.sequence, u64::MAX as nat);
    lemma_number_is_a_word(run.units, usize::MAX as nat);
    lemma_files_one_line(run.files);
    let a = "run "@;
    let b = number_text(run.level);
    let c = number_text(run.sequence);
    let d = number_text(run.units);
    let e = files_text(run.files);
    let line = run_line(run);
    assert forall|i: int| 0 <= i < line.len() implies #[trigger] line[i] != '\n' by {
        let at_b = a.len() as int;
        let at_c = at_b + b.len() + 1;
        let at_d = at_c + c.len() + 1;
        let at_e = at_d + d.len();
        if i < at_b {
            assert(line[i] == a[i]);
        } else if i < at_b + b.len() {
            assert(line[i] == b[i - at_b]);
        } else if i < at_c {
            assert(line[i] == ' ');
        } else if i < at_c + c.len() {
            assert(line[i] == c[i - at_c]);
        } else if i < at_d {
            assert(line[i] == ' ');
        } else if i < at_e {
            assert(line[i] == d[i - at_d]);
        } else {
            assert(line[i] == e[i - at_e]);
        }
    }
}

proof fn lemma_files_one_line(files: Seq<Seq<char>>)
    requires
        forall|i: int| 0 <= i < files.len() ==> is_word(#[trigger] files[i]),
    ensures
        forall|i: int| 0 <= i < files_text(files).len() ==> #[trigger] files_text(files)[i] != '\n',
    decreases files.len(),
{
    if files.len() > 0 {
        let head = files.drop_last();
        assert forall|i: int| 0 <= i < head.len() implies is_word(#[trigger] head[i]) by {
            assert(head[i] == files[i]);
        }
        lemma_files_one_line(head);
        assert(is_word(files[files.len() - 1]));
        let text = files_text(files);
        let front = files_text(head);
        assert forall|i: int| 0 <= i < text.len() implies #[trigger] text[i] != '\n' by {
            if i < front.len() {
                assert(text[i] == front[i]);
            } else if i > front.len() {
                assert(text[i] == files.last()[i - front.len() - 1]);
                assert(!is_space(files.last()[i - front.len() - 1]));
            }
        }
    }
}

/// The lines of runs.
pub open spec fn run_lines(runs: Seq<RunEntryView>) -> Seq<Seq<char>> {
    Seq::new(runs.len(), |i: int| run_line(runs[i]))
}

proof fn lemma_runs_split(runs: Seq<RunEntryView>)
    requires
        runs.len() > 0,
    ensures
        runs_text(runs) == run_line(runs[0]) + seq!['\n'] + runs_text(runs.drop_first()),
    decreases runs.len(),
{
    if runs.len() == 1 {
        assert(runs.drop_last() =~= Seq::<RunEntryView>::empty());
        assert(runs.drop_first() =~= Seq::<RunEntryView>::empty());
        assert(runs_text(runs) =~= run_line(runs[0]) + seq!['\n'] + runs_text(runs.drop_first()));
    } else {
        lemma_runs_split(runs.drop_last());
        assert(runs.drop_last().drop_first() =~= runs.drop_first().drop_last());
        assert(runs_text(runs) =~= run_line(runs[0]) + seq!['\n'] + runs_text(runs.drop_first()));
    }
}

proof fn lemma_runs_lines(runs: Seq<RunEntryView>)
    requires
        forall|i: int| 0 <= i < runs.len() ==> writable_run(#[trigger] runs[i]),
    ensures
        lines_of(runs_text(runs)) == run_lines(runs),
    decreases runs.len(),
{
    if runs.len() == 0 {
        assert(lines_of(runs_text(runs)) =~= run_lines(runs));
    } else {
        lemma_runs_split(runs);
        let rest = runs.drop_first();
        assert forall|i: int| 0 <= i < rest.len() implies writable_run(#[trigger] rest[i]) by {
            assert(rest[i] == runs[i + 1]);
        }
        assert(writable_run(runs[0]));
        lemma_run_line_is_one_line(runs[0]);
        lemma_lines_step(run_line(runs[0]), runs_text(rest));
        lemma_runs_lines(rest);
        assert(seq![run_line(runs[0])] + run_lines(rest) =~= run_lines(runs));
    }
}

proof fn lemma_read_runs(manifest: ManifestView, runs: Seq<RunEntryView>)
    requires
        forall|i: int| 0 <= i < runs.len() ==> writable_run(#[trigger] runs[i]),
    ensures
        read_lines(manifest, run_lines(runs)) == Ok::<ManifestView, StorageError>(
            ManifestView { runs: manifest.runs + runs, next_sequence: manifest.next_sequence },
        ),
    decreases runs.len(),
{
    if runs.len() == 0 {
        assert(manifest.runs + runs =~= manifest.runs);
    } else {
        let rest = runs.drop_first();
        assert forall|i: int| 0 <= i < rest.len() implies writable_run(#[trigger] rest[i]) by {
            assert(rest[i] == runs[i + 1]);
        }
        assert(writable_run(runs[0]));
        lemma_run_line_round_trip(manifest, runs[0]);
        let more = ManifestView {
            runs: manifest.runs.push(runs[0]),
            next_sequence: manifest.next_sequence,
        };
        lemma_read_runs(more, rest);
        assert(run_lines(runs).drop_first() =~= run_lines(rest));
        assert(run_lines(runs)[0] == run_line(runs[0]));
        assert(more.runs + rest =~= manifest.runs + runs);
    }
}

proof fn lemma_body_round_trip(manifest: ManifestView)
    requires
        writable(manifest),
    ensures
        parse_body(body_text(manifest)) == Ok::<ManifestView, StorageError>(manifest),
{
    lemma_literals();
    let header = header_text();
    let line = sequence_line(manifest);
    let number = number_text(manifest.next_sequence);
    let tail = runs_text(manifest.runs);
    lemma_number_is_a_word(manifest.next_sequence, u64::MAX as nat);
    assert(body_text(manifest) =~= header + seq!['\n'] + (line + seq!['\n'] + tail));
    lemma_lines_step(header, line + seq!['\n'] + tail);
    assert forall|i: int| 0 <= i < line.len() implies #[trigger] line[i] != '\n' by {
        if i < 13 {
            assert(line[i] == "next-sequence"@[i]);
        } else if i > 13 {
            assert(line[i] == number[i - 14]);
        } else {
            assert(line[i] == ' ');
        }
    }
    lemma_lines_step(line, tail);
    lemma_runs_lines(manifest.runs);
    let lines = lines_of(body_text(manifest));
    assert(lines.drop_first() =~= seq![line] + run_lines(manifest.runs));
    assert(Seq::<char>::empty() + header + Seq::<char>::empty() =~= header);
    lemma_trimmed(header, Seq::empty(), Seq::empty());
    let first = seq![number];
    lemma_files_words("next-sequence"@, first);
    assert(first.drop_last() =~= Seq::<Seq<char>>::empty());
    assert("next-sequence"@ + files_text(first) =~= line) by {
        assert(files_text(first.drop_last()) =~= Seq::<char>::empty());
        assert(files_text(first) =~= seq![' '] + number);
    }
    let started = ManifestView {
        runs: Seq::empty(),
        next_sequence: manifest.next_sequence,
    };
    assert(read_line(empty_manifest(), line) == Ok::<ManifestView, StorageError>(started));
    lemma_read_runs(started, manifest.runs);
    assert((seq![line] + run_lines(manifest.runs)).drop_first() =~= run_lines(manifest.runs));
    assert(started.runs + manifest.runs =~= manifest.runs);
}

/// The checksum line is where the mark stands last.
proof fn lemma_mark_is_last(body: Seq<char>, checksum: Seq<char>)
    requires
        checksum.len() > 0,
        all_digits(checksum, 16),
    ensures
        is_last_mark(body + "crc32 "@ + checksum + seq!['\n'], body.len() as int),
{
    lemma_literals();
    lemma_digits_are_a_word(checksum, 16);
    let text = body + "crc32 "@ + checksum + seq!['\n'];
    let at = body.len() as int;
    assert(text.subrange(at, at + 6) =~= "crc32 "@);
    assert forall|later: int| at < later implies !#[trigger] mark_at(text, later) by {
        if mark_at(text, later) {
            let part = text.subrange(later, later + 6);
            assert(part[1] == 'r');
            assert(part[0] == 'c');
            assert(part[1] == text[later + 1]);
            assert(part[0] == text[later]);
            if later == at + 1 {
                assert(text[at + 1] == 'r');
            } else if later + 1 < at + 6 {
                if later == at + 2 {
                    assert(text[at + 3] == '3');
                } else if later == at + 3 {
                    assert(text[at + 3] == '3');
                } else {
                    assert(text[at + 4] == '2');
                }
            } else if later + 1 < at + 6 + checksum.len() {
                assert(text[later + 1] == checksum[later + 1 - at - 6]);
            } else {
                assert(text[later + 1] == '\n');
            }
        }
    }
}

/// A manifest that was written reads back as it was.
pub proof fn law_manifest_round_trip(manifest: ManifestView)
    requires
        writable(manifest),
    ensures
        parse_manifest(manifest_text(manifest)) == Ok::<ManifestView, StorageError>(manifest),
{
    lemma_literals();
    let body = body_text(manifest);
    let crc = text_crc(body);
    let checksum = padded(crc as nat, 16, 8);
    lemma_padded_round_trip(crc as nat, 16, 8);
    lemma_digits_are_a_word(checksum, 16);
    let text = manifest_text(manifest);
    lemma_mark_is_last(body, checksum);
    let at = choose|at: int| is_last_mark(text, at);
    assert(is_last_mark(text, body.len() as int));
    if at < body.len() {
        assert(!mark_at(text, body.len() as int));
    } else if at > body.len() {
        assert(!mark_at(text, at));
    }
    assert(text.take(at) =~= body);
    assert(text.skip(at + 6) =~= Seq::<char>::empty() + checksum + seq!['\n']);
    lemma_trimmed(checksum, Seq::empty(), seq!['\n']);
    assert(parse_number(checksum, 16, u32::MAX as nat) == Some(crc as nat));
    lemma_body_round_trip(manifest);
}

/// A manifest whose body does not have the checksum that it was written with is refused,
/// whatever it says.
pub proof fn law_a_manifest_with_another_body_is_refused(manifest: ManifestView, other: Seq<char>)
    requires
        crc_of(encode_utf8(other)) != crc_of(encode_utf8(body_text(manifest))),
    ensures
        parse_manifest(
            other + "crc32 "@ + padded(
                crc_of(encode_utf8(body_text(manifest))) as nat,
                16,
                8,
            ) + seq!['\n'],
        ) == Err::<ManifestView, StorageError>(StorageError::ManifestChecksumMismatch),
{
    lemma_literals();
    let crc = text_crc(body_text(manifest));
    let checksum = padded(crc as nat, 16, 8);
    lemma_padded_round_trip(crc as nat, 16, 8);
    lemma_digits_are_a_word(checksum, 16);
    let text = other + "crc32 "@ + checksum + seq!['\n'];
    lemma_mark_is_last(other, checksum);
    let at = choose|at: int| is_last_mark(text, at);
    assert(is_last_mark(text, other.len() as int));
    if at < other.len() {
        assert(!mark_at(text, other.len() as int));
    } else if at > other.len() {
        assert(!mark_at(text, at));
    }
    assert(text.take(at) =~= other);
    assert(text.skip(at + 6) =~= Seq::<char>::empty() + checksum + seq!['\n']);
    lemma_trimmed(checksum, Seq::empty(), seq!['\n']);
    assert(parse_number(checksum, 16, u32::MAX as nat) == Some(crc as nat));
}

/// A text without a checksum is no manifest.
pub proof fn law_a_manifest_without_a_checksum_is_refused(text: Seq<char>)
    requires
        forall|at: int|
            0 <= at && at + 6 <= text.len() ==> #[trigger] text.subrange(at, at + 6)
                != "crc32 "@,
    ensures
        parse_manifest(text) == Err::<ManifestView, StorageError>(StorageError::ManifestNoChecksum),
{
    if exists|at: int| is_last_mark(text, at) {
        let at = choose|at: int| is_last_mark(text, at);
        assert(text.subrange(at, at + 6) == "crc32 "@);
    }
}

// ---------------------------------------------------------------------------
// Manifests
// ---------------------------------------------------------------------------

/// One live run: its level, its recency within that level, and its files.
#[derive(Debug, Clone, PartialEq, Eq)]
pub struct RunEntry {
    pub level: usize,
    /// Creation order. Within a level, higher is newer.
    pub sequence: u64,
    /// The files, in ascending key order.
    pub files: Vec<String>,
    /// How many memtable flushes' worth of data the run stands for.
    pub units: usize,
}

/// The content of a list of names.
pub open spec fn names_of(names: Seq<String>) -> Seq<Seq<char>> {
    Seq::new(names.len(), |i: int| names[i]@)
}

impl View for RunEntry {
    type V = RunEntryView;

    open spec fn view(&self) -> RunEntryView {
        RunEntryView {
            level: self.level as nat,
            sequence: self.sequence as nat,
            units: self.units as nat,
            files: names_of(self.files@),
        }
    }
}

/// The content of a list of run entries.
pub open spec fn runs_of(runs: Seq<RunEntry>) -> Seq<RunEntryView> {
    Seq::new(runs.len(), |i: int| runs[i]@)
}

/// The runs that make up the tree.
#[derive(Debug, Clone, PartialEq, Eq)]
pub struct Manifest {
    pub runs: Vec<RunEntry>,
    /// The next unused sequence number, kept so that sequences never repeat.
    pub next_sequence: u64,
}

impl View for Manifest {
    type V = ManifestView;

    open spec fn view(&self) -> ManifestView {
        ManifestView { runs: runs_of(self.runs@), next_sequence: self.next_sequence as nat }
    }
}

impl Default for Manifest {
    fn default() -> (manifest: Self)
        ensures
            manifest@ == empty_manifest(),
    {
        let manifest = Manifest { runs: Vec::new(), next_sequence: 0 };
        proof {
            assert(runs_of(manifest.runs@) =~= Seq::<RunEntryView>::empty());
        }
        manifest
    }
}

/// All files of all runs.
pub open spec fn all_names(runs: Seq<RunEntryView>) -> Seq<Seq<char>>
    decreases runs.len(),
{
    if runs.len() == 0 {
        Seq::empty()
    } else {
        all_names(runs.drop_last()) + runs.last().files
    }
}

impl Manifest {
    /// Reads a manifest from the contents of its file; none if there is no file.
    ///
    /// Contents that fail their checksum are an error, not a fresh start: a full
    /// tree must not present itself as an empty one.
    pub fn load(contents: Option<&str>) -> (loaded: Result<Option<Self>, StorageError>)
        ensures
            match contents {
                None => loaded matches Ok(None),
                Some(contents) => match loaded {
                    Ok(Some(manifest)) => parse_manifest(contents@) == Ok::<
                        ManifestView,
                        StorageError,
                    >(manifest@),
                    Ok(None) => false,
                    Err(error) => parse_manifest(contents@) == Err::<ManifestView, StorageError>(
                        error,
                    ),
                },
            },
    {
        match contents {
            None => Ok(None),
            Some(contents) => match Self::parse(contents) {
                Ok(manifest) => Ok(Some(manifest)),
                Err(error) => Err(error),
            },
        }
    }

    fn parse(contents: &str) -> (parsed: Result<Self, StorageError>)
        ensures
            match parsed {
                Ok(manifest) => parse_manifest(contents@) == Ok::<ManifestView, StorageError>(
                    manifest@,
                ),
                Err(error) => parse_manifest(contents@) == Err::<ManifestView, StorageError>(error),
            },
    {
        let text: Vec<char> = chars_of(contents);
        let at: usize = match find_mark(&text) {
            Some(at) => at,
            None => return Err(StorageError::ManifestNoChecksum),
        };
        proof {
            let chosen = choose|chosen: int| is_last_mark(text@, chosen);
            assert(is_last_mark(text@, at as int));
            if chosen < at {
                assert(!mark_at(text@, at as int));
            } else if chosen > at {
                assert(!mark_at(text@, chosen));
            }
        }
        let (from, to): (usize, usize) = trim_span(&text, at + 6, text.len());
        proof {
            assert(text@.subrange(at + 6, text@.len() as int) =~= text@.skip(at + 6));
        }
        let expected: u64 = match read_number(&text, from, to, 16, u32::MAX as u64) {
            Some(expected) => expected,
            None => return Err(StorageError::ManifestBadChecksum),
        };
        let body: &str = contents.substring_char(0, at);
        proof {
            assert(body@ =~= text@.take(at as int));
        }
        if crc32(body.as_bytes()) as u64 != expected {
            return Err(StorageError::ManifestChecksumMismatch);
        }
        Self::parse_lines(contents, &text, at)
    }

    fn parse_lines(contents: &str, text: &Vec<char>, to: usize) -> (parsed: Result<
        Self,
        StorageError,
    >)
        requires
            text@ == contents@,
            to <= text@.len(),
        ensures
            match parsed {
                Ok(manifest) => parse_body(text@.take(to as int)) == Ok::<
                    ManifestView,
                    StorageError,
                >(manifest@),
                Err(error) => parse_body(text@.take(to as int)) == Err::<
                    ManifestView,
                    StorageError,
                >(error),
            },
    {
        let spans: Vec<(usize, usize)> = find_lines(text, to);
        let ghost lines = lines_of(text@.take(to as int));
        if spans.len() == 0 {
            return Err(StorageError::ManifestBadHeader);
        }
        proof {
            assert(spans_of(text@, spans@)[0] == lines[0]);
        }
        let (from, end): (usize, usize) = trim_span(text, spans[0].0, spans[0].1);
        if !span_is(text, from, end, "vectordb-manifest 1") {
            return Err(StorageError::ManifestBadHeader);
        }
        let mut manifest: Manifest = Manifest::default();
        let mut i: usize = 1;
        proof {
            assert(lines.skip(1) =~= lines.drop_first());
        }
        while i < spans.len()
            invariant
                1 <= i <= spans@.len(),
                text@ == contents@,
                to <= text@.len(),
                lines == lines_of(text@.take(to as int)),
                spans_of(text@, spans@) == lines,
                forall|i: int|
                    0 <= i < spans@.len() ==> (#[trigger] spans@[i]).0 <= spans@[i].1 <= to,
                parse_body(text@.take(to as int)) == read_lines(manifest@, lines.skip(i as int)),
            decreases spans@.len() - i,
        {
            proof {
                assert(spans_of(text@, spans@)[i as int] == lines[i as int]);
                assert(lines.skip(i as int)[0] == lines[i as int]);
                assert(lines.skip(i as int).drop_first() =~= lines.skip(i + 1));
            }
            manifest = match Self::parse_line(manifest, contents, text, spans[i].0, spans[i].1) {
                Ok(manifest) => manifest,
                Err(error) => return Err(error),
            };
            i = i + 1;
        }
        proof {
            assert(lines.skip(i as int).len() == 0);
        }
        Ok(manifest)
    }

    fn parse_line(
        manifest: Manifest,
        contents: &str,
        text: &Vec<char>,
        from: usize,
        to: usize,
    ) -> (parsed: Result<Manifest, StorageError>)
        requires
            text@ == contents@,
            from <= to <= text@.len(),
        ensures
            match parsed {
                Ok(after) => read_line(
                    manifest@,
                    text@.subrange(from as int, to as int),
                ) == Ok::<ManifestView, StorageError>(after@),
                Err(error) => read_line(
                    manifest@,
                    text@.subrange(from as int, to as int),
                ) == Err::<ManifestView, StorageError>(error),
            },
    {
        let spans: Vec<(usize, usize)> = find_words(text, from, to);
        let ghost words = words_of(text@.subrange(from as int, to as int));
        if spans.len() == 0 {
            return Ok(manifest);
        }
        proof {
            lemma_literals();
            assert(spans_of(text@, spans@)[0] == words[0]);
        }
        let mut manifest: Manifest = manifest;
        if span_is(text, spans[0].0, spans[0].1, "next-sequence") {
            return match parse_field(text, &spans, 1, u64::MAX, ManifestField::NextSequence) {
                Ok(next_sequence) => {
                    manifest.next_sequence = next_sequence;
                    Ok(manifest)
                },
                Err(error) => Err(error),
            };
        }
        if !span_is(text, spans[0].0, spans[0].1, "run") {
            return Ok(manifest);
        }
        let most: u64 = usize::MAX as u64;
        let level: u64 = match parse_field(text, &spans, 1, most, ManifestField::RunLevel) {
            Ok(level) => level,
            Err(error) => return Err(error),
        };
        let sequence: u64 = match parse_field(
            text,
            &spans,
            2,
            u64::MAX,
            ManifestField::RunSequence,
        ) {
            Ok(sequence) => sequence,
            Err(error) => return Err(error),
        };
        let units: u64 = match parse_field(text, &spans, 3, most, ManifestField::RunUnits) {
            Ok(units) => units,
            Err(error) => return Err(error),
        };
        if spans.len() == 4 {
            return Err(StorageError::ManifestEmptyRun);
        }
        let mut files: Vec<String> = Vec::new();
        let mut i: usize = 4;
        while i < spans.len()
            invariant
                4 <= i <= spans@.len(),
                text@ == contents@,
                to <= text@.len(),
                spans_of(text@, spans@) == words,
                forall|i: int|
                    0 <= i < spans@.len() ==> from <= (#[trigger] spans@[i]).0 <= spans@[i].1 <= to,
                names_of(files@) == words.subrange(4, i as int),
            decreases spans@.len() - i,
        {
            let ghost before = files@;
            let name: &str = contents.substring_char(spans[i].0, spans[i].1);
            files.push(name.to_owned());
            proof {
                assert(spans_of(text@, spans@)[i as int] == words[i as int]);
                assert(names_of(files@) =~= names_of(before).push(words[i as int]));
                assert(words.subrange(4, i + 1) =~= words.subrange(4, i as int).push(
                    words[i as int],
                ));
            }
            i = i + 1;
        }
        let entry = RunEntry {
            level: level as usize,
            sequence,
            files,
            units: units as usize,
        };
        let ghost shown = entry@;
        let ghost before = manifest.runs@;
        manifest.runs.push(entry);
        proof {
            assert(words.subrange(4, i as int) =~= words.skip(4));
            assert(runs_of(manifest.runs@) =~= runs_of(before).push(shown));
        }
        Ok(manifest)
    }

    /// The manifest as the contents of its file.
    pub fn store(&self) -> (contents: String)
        ensures
            contents@ == manifest_text(self@),
    {
        let mut contents: String = String::from_str("vectordb-manifest 1");
        contents.append("\n");
        contents.append("next-sequence ");
        push_number(&mut contents, self.next_sequence, 10, 0);
        contents.append("\n");
        proof {
            reveal_strlit("\n");
            assert("\n"@ =~= seq!['\n']);
            assert(contents@ =~= header_text() + seq!['\n'] + sequence_line(self@) + seq!['\n']);
        }
        let ghost front = contents@;
        let ghost runs = runs_of(self.runs@);
        let mut i: usize = 0;
        proof {
            assert(front + runs_text(runs.take(0)) =~= front);
        }
        while i < self.runs.len()
            invariant
                i <= self.runs@.len(),
                runs == runs_of(self.runs@),
                contents@ == front + runs_text(runs.take(i as int)),
            decreases self.runs@.len() - i,
        {
            let ghost before = contents@;
            push_run(&mut contents, &self.runs[i]);
            proof {
                assert(runs.take(i + 1).drop_last() =~= runs.take(i as int));
                assert(runs.take(i + 1).last() == runs[i as int]);
                assert(contents@ =~= front + runs_text(runs.take(i + 1)));
            }
            i = i + 1;
        }
        proof {
            assert(runs.take(i as int) =~= runs);
            assert(contents@ =~= body_text(self@));
        }
        let checksum: u32 = crc32(contents.as_str().as_bytes());
        contents.append("crc32 ");
        push_number(&mut contents, checksum as u64, 16, 8);
        contents.append("\n");
        proof {
            assert(contents@ =~= manifest_text(self@));
        }
        contents
    }

    /// Every file that the manifest names.
    pub fn referenced_files(&self) -> (files: Vec<String>)
        ensures
            names_of(files@) == all_names(self@.runs),
    {
        let mut files: Vec<String> = Vec::new();
        let ghost runs = runs_of(self.runs@);
        let mut i: usize = 0;
        proof {
            assert(names_of(files@) =~= all_names(runs.take(0)));
        }
        while i < self.runs.len()
            invariant
                i <= self.runs@.len(),
                runs == runs_of(self.runs@),
                names_of(files@) == all_names(runs.take(i as int)),
            decreases self.runs@.len() - i,
        {
            let run: &RunEntry = &self.runs[i];
            let ghost before = names_of(files@);
            let mut j: usize = 0;
            proof {
                assert(before + names_of(run.files@).take(0) =~= before);
            }
            while j < run.files.len()
                invariant
                    j <= run.files@.len(),
                    names_of(files@) == before + names_of(run.files@).take(j as int),
                decreases run.files@.len() - j,
            {
                let ghost shown = files@;
                files.push(run.files[j].clone());
                proof {
                    assert(names_of(files@) =~= names_of(shown).push(run.files@[j as int]@));
                    assert(names_of(files@) =~= before + names_of(run.files@).take(j + 1));
                }
                j = j + 1;
            }
            proof {
                assert(names_of(run.files@).take(j as int) =~= names_of(run.files@));
                assert(runs.take(i + 1).drop_last() =~= runs.take(i as int));
                assert(runs.take(i + 1).last() == run@);
            }
            i = i + 1;
        }
        proof {
            assert(runs.take(i as int) =~= runs);
        }
        files
    }
}

/// Reads one word of a line as a number.
fn parse_field(
    text: &Vec<char>,
    spans: &Vec<(usize, usize)>,
    at: usize,
    max: u64,
    field: ManifestField,
) -> (parsed: Result<u64, StorageError>)
    requires
        forall|i: int|
            0 <= i < spans@.len() ==> (#[trigger] spans@[i]).0 <= spans@[i].1 <= text@.len(),
    ensures
        match parsed {
            Ok(number) => read_field(
                spans_of(text@, spans@),
                at as int,
                max as nat,
                field,
            ) == Ok::<nat, StorageError>(number as nat),
            Err(error) => read_field(
                spans_of(text@, spans@),
                at as int,
                max as nat,
                field,
            ) == Err::<nat, StorageError>(error),
        },
{
    if at >= spans.len() {
        return Err(StorageError::ManifestMissingField { field });
    }
    proof {
        assert(spans_of(text@, spans@)[at as int] == text@.subrange(
            spans@[at as int].0 as int,
            spans@[at as int].1 as int,
        ));
    }
    match read_number(text, spans[at].0, spans[at].1, 10, max) {
        Some(number) => Ok(number),
        None => Err(StorageError::ManifestBadField { field }),
    }
}

fn push_run(contents: &mut String, run: &RunEntry)
    ensures
        final(contents)@ == old(contents)@ + run_line(run@) + seq!['\n'],
{
    let ghost start = contents@;
    contents.append("run ");
    push_number(contents, run.level as u64, 10, 0);
    contents.append(" ");
    push_number(contents, run.sequence, 10, 0);
    contents.append(" ");
    push_number(contents, run.units as u64, 10, 0);
    proof {
        reveal_strlit(" ");
        assert(" "@ =~= seq![' ']);
    }
    let ghost front = contents@;
    let ghost files = names_of(run.files@);
    let mut i: usize = 0;
    proof {
        assert(front + files_text(files.take(0)) =~= front);
    }
    while i < run.files.len()
        invariant
            i <= run.files@.len(),
            files == names_of(run.files@),
            " "@ == seq![' '],
            contents@ == front + files_text(files.take(i as int)),
        decreases run.files@.len() - i,
    {
        contents.append(" ");
        contents.append(run.files[i].as_str());
        proof {
            assert(files.take(i + 1).drop_last() =~= files.take(i as int));
            assert(files.take(i + 1).last() == files[i as int]);
            assert(contents@ =~= front + files_text(files.take(i + 1)));
        }
        i = i + 1;
    }
    contents.append("\n");
    proof {
        reveal_strlit("\n");
        assert("\n"@ =~= seq!['\n']);
        assert(files.take(i as int) =~= files);
        assert(contents@ =~= start + run_line(run@) + seq!['\n']);
    }
}

fn find_mark(text: &Vec<char>) -> (found: Option<usize>)
    ensures
        match found {
            Some(at) => is_last_mark(text@, at as int),
            None => forall|at: int| !is_last_mark(text@, at),
        },
{
    let total: usize = text.len();
    if total < 6 {
        return None;
    }
    let mut at: usize = total - 6;
    loop
        invariant
            total == text@.len(),
            at + 6 <= total,
            forall|later: int| at < later ==> !#[trigger] mark_at(text@, later),
        decreases at,
    {
        if span_is(text, at, at + 6, "crc32 ") {
            proof {
                assert(mark_at(text@, at as int));
            }
            return Some(at);
        }
        proof {
            assert(!mark_at(text@, at as int));
        }
        if at == 0 {
            return None;
        }
        at = at - 1;
    }
}

/// The name of a table.
pub open spec fn table_name(level: nat, sequence: nat, part: nat) -> Seq<char> {
    "L"@ + padded(level, 10, 2) + "-R"@ + padded(sequence, 10, 10) + "-P"@ + padded(part, 10, 4)
        + ".sst"@
}

/// The name of a table: its level, its run's sequence and its part of the run.
pub fn table_filename(level: usize, sequence: u64, part: usize) -> (name: String)
    ensures
        name@ == table_name(level as nat, sequence as nat, part as nat),
{
    let mut name: String = String::from_str("L");
    push_number(&mut name, level as u64, 10, 2);
    name.append("-R");
    push_number(&mut name, sequence, 10, 10);
    name.append("-P");
    push_number(&mut name, part as u64, 10, 4);
    name.append(".sst");
    name
}

} // verus!
