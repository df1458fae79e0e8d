//! Text: numbers, words and lines.

use vstd::prelude::*;
use vstd::string::*;

verus! {

/// The characters that Unicode calls white space.
pub open spec fn is_space(c: char) -> bool {
    let n = c as u32;
    ||| 9 <= n <= 13
    ||| n == 0x20
    ||| n == 0x85
    ||| n == 0xA0
    ||| n == 0x1680
    ||| 0x2000 <= n <= 0x200A
    ||| n == 0x2028
    ||| n == 0x2029
    ||| n == 0x202F
    ||| n == 0x205F
    ||| n == 0x3000
}

/// Whether a character is white space.
pub fn space(c: char) -> (is: bool)
    ensures
        is == is_space(c),
{
    let n: u32 = c as u32;
    (9 <= n && n <= 13) || n == 0x20 || n == 0x85 || n == 0xA0 || n == 0x1680 || (0x2000 <= n && n
        <= 0x200A) || n == 0x2028 || n == 0x2029 || n == 0x202F || n == 0x205F || n == 0x3000
}

// ---------------------------------------------------------------------------
// Numbers
// ---------------------------------------------------------------------------

/// The character for a digit below 16.
pub open spec fn digit_char(digit: nat) -> char {
    if digit < 10 {
        (48 + digit) as char
    } else {
        (87 + digit) as char
    }
}

/// The digit that a character stands for in a radix of 10 or 16.
pub open spec fn digit_value(c: char, radix: nat) -> Option<nat> {
    let n = c as u32;
    if 48 <= n <= 57 {
        Some((n - 48) as nat)
    } else if radix == 16 && 97 <= n <= 102 {
        Some((n - 87) as nat)
    } else if radix == 16 && 65 <= n <= 70 {
        Some((n - 55) as nat)
    } else {
        None
    }
}

/// A number in digits, without leading zeros.
pub open spec fn digits_of(number: nat, radix: nat) -> Seq<char>
    recommends
        radix >= 2,
    decreases number,
{
    if number < radix || radix < 2 {
        seq![digit_char(number)]
    } else {
        proof {
            assert(number / radix < number) by (nonlinear_arith)
                requires
                    number >= radix,
                    radix >= 2,
            ;
        }
        digits_of(number / radix, radix).push(digit_char(number % radix))
    }
}

/// `count` zeros.
pub open spec fn zeros(count: nat) -> Seq<char> {
    Seq::new(count, |i: int| '0')
}

/// A number in at least `width` digits.
pub open spec fn padded(number: nat, radix: nat, width: nat) -> Seq<char> {
    let digits = digits_of(number, radix);
    if digits.len() < width {
        zeros((width - digits.len()) as nat) + digits
    } else {
        digits
    }
}

/// The number that digits spell, if they are all digits.
pub open spec fn value_of(text: Seq<char>, radix: nat) -> Option<nat>
    decreases text.len(),
{
    if text.len() == 0 {
        Some(0)
    } else {
        match (value_of(text.drop_last(), radix), digit_value(text.last(), radix)) {
            (Some(value), Some(digit)) => Some(value * radix + digit),
            _ => None,
        }
    }
}

/// The number that a word spells: an optional plus sign, and at least one digit;
/// none if it is larger than `max`.
pub open spec fn parse_number(text: Seq<char>, radix: nat, max: nat) -> Option<nat> {
    let digits = if text.len() > 0 && text[0] == '+' {
        text.drop_first()
    } else {
        text
    };
    if digits.len() == 0 {
        None
    } else {
        match value_of(digits, radix) {
            Some(value) => if value <= max {
                Some(value)
            } else {
                None
            },
            None => None,
        }
    }
}

/// A digit reads back as itself.
pub proof fn lemma_digit_round_trip(digit: nat, radix: nat)
    requires
        radix == 10 || radix == 16,
        digit < radix,
    ensures
        digit_value(digit_char(digit), radix) == Some(digit),
        !is_space(digit_char(digit)),
        digit_char(digit) != '+',
        digit_char(digit) != 'r',
{
}

/// A number reads back as itself, and its digits are not white space.
pub proof fn lemma_digits_round_trip(number: nat, radix: nat)
    requires
        radix == 10 || radix == 16,
    ensures
        digits_of(number, radix).len() > 0,
        value_of(digits_of(number, radix), radix) == Some(number),
        forall|i: int|
            0 <= i < digits_of(number, radix).len() ==> digit_value(
                #[trigger] digits_of(number, radix)[i],
                radix,
            ) is Some,
    decreases number,
{
    let digits = digits_of(number, radix);
    if number < radix {
        lemma_digit_round_trip(number, radix);
        assert(digits.drop_last() =~= Seq::<char>::empty());
        assert(value_of(digits.drop_last(), radix) == Some(0nat));
        assert(0 * radix == 0) by (nonlinear_arith);
    } else {
        let high = number / radix;
        let low = number % radix;
        assert(high < number && number == high * radix + low && low < radix) by (nonlinear_arith)
            requires
                radix >= 2,
                number >= radix,
                high == number / radix,
                low == number % radix,
        ;
        lemma_digits_round_trip(high, radix);
        lemma_digit_round_trip(low, radix);
        assert(digits.drop_last() =~= digits_of(high, radix));
        assert forall|i: int| 0 <= i < digits.len() implies digit_value(
            #[trigger] digits[i],
            radix,
        ) is Some by {
            if i < digits.len() - 1 {
                assert(digits[i] == digits_of(high, radix)[i]);
            }
        }
    }
}

/// Leading zeros do not change a number.
proof fn lemma_leading_zeros(text: Seq<char>, radix: nat, count: nat)
    requires
        radix == 10 || radix == 16,
    ensures
        value_of(zeros(count) + text, radix) == value_of(text, radix),
    decreases text.len() + count,
{
    let all = zeros(count) + text;
    if text.len() > 0 {
        assert(all.drop_last() =~= zeros(count) + text.drop_last());
        lemma_leading_zeros(text.drop_last(), radix, count);
    } else if count > 0 {
        assert(all.drop_last() =~= zeros((count - 1) as nat) + text);
        lemma_leading_zeros(text, radix, (count - 1) as nat);
        assert(all.last() == '0');
        assert(0 * radix == 0) by (nonlinear_arith);
    } else {
        assert(all =~= text);
    }
}

/// A word of digits.
pub open spec fn all_digits(text: Seq<char>, radix: nat) -> bool {
    forall|i: int| 0 <= i < text.len() ==> digit_value(#[trigger] text[i], radix) is Some
}

/// A padded number reads back as itself.
pub proof fn lemma_padded_round_trip(number: nat, radix: nat, width: nat)
    requires
        radix == 10 || radix == 16,
    ensures
        padded(number, radix, width).len() > 0,
        padded(number, radix, width).len() >= width,
        all_digits(padded(number, radix, width), radix),
        value_of(padded(number, radix, width), radix) == Some(number),
        forall|max: nat|
            number <= max ==> #[trigger] parse_number(padded(number, radix, width), radix, max)
                == Some(number),
{
    let digits = digits_of(number, radix);
    let text = padded(number, radix, width);
    lemma_digits_round_trip(number, radix);
    if digits.len() < width {
        lemma_leading_zeros(digits, radix, (width - digits.len()) as nat);
        assert forall|i: int| 0 <= i < text.len() implies digit_value(
            #[trigger] text[i],
            radix,
        ) is Some by {
            if i >= width - digits.len() {
                assert(text[i] == digits[i - (width - digits.len())]);
            }
        }
    }
    assert(digit_value(text[0], radix) is Some);
}

/// A number never shrinks as digits are added.
proof fn lemma_value_grows(text: Seq<char>, radix: nat, n: int)
    requires
        radix >= 1,
        0 <= n <= text.len(),
        value_of(text, radix) is Some,
    ensures
        value_of(text.take(n), radix) is Some,
        value_of(text.take(n), radix)->0 <= value_of(text, radix)->0,
    decreases text.len(),
{
    if n == text.len() {
        assert(text.take(n) =~= text);
    } else {
        lemma_value_grows(text.drop_last(), radix, n);
        assert(text.drop_last().take(n) =~= text.take(n));
        let before = value_of(text.drop_last(), radix)->0;
        assert(before <= before * radix) by (nonlinear_arith)
            requires
                radix >= 1,
        ;
    }
}

/// Reads the number in `text[from..to]`.
pub fn read_number(text: &Vec<char>, from: usize, to: usize, radix: u32, max: u64) -> (number:
    Option<u64>)
    requires
        from <= to <= text@.len(),
        radix == 10 || radix == 16,
    ensures
        match number {
            Some(number) => parse_number(
                text@.subrange(from as int, to as int),
                radix as nat,
                max as nat,
            ) == Some(number as nat),
            None => parse_number(
                text@.subrange(from as int, to as int),
                radix as nat,
                max as nat,
            ) is None,
        },
{
    let ghost word = text@.subrange(from as int, to as int);
    let mut at: usize = from;
    if from < to && text[from] == '+' {
        at = from + 1;
    }
    let start: usize = at;
    let ghost digits = text@.subrange(start as int, to as int);
    proof {
        if start == from + 1 {
            assert(digits =~= word.drop_first());
        } else {
            assert(digits =~= word);
        }
    }
    if start == to {
        return None;
    }
    let mut value: u64 = 0;
    proof {
        assert(digits.take(0) =~= Seq::<char>::empty());
    }
    while at < to
        invariant
            start <= at <= to <= text@.len(),
            radix == 10 || radix == 16,
            from <= start,
            word == text@.subrange(from as int, to as int),
            digits == text@.subrange(start as int, to as int),
            value <= max,
            value_of(digits.take(at - start), radix as nat) == Some(value as nat),
            parse_number(word, radix as nat, max as nat) == match value_of(digits, radix as nat) {
                Some(value) => if value <= max {
                    Some(value)
                } else {
                    None
                },
                None => None,
            },
        decreases to - at,
    {
        let c: char = text[at];
        let n: u32 = c as u32;
        proof {
            assert(digits.take(at - start + 1).drop_last() =~= digits.take(at - start));
            assert(digits.take(at - start + 1).last() == c);
            if value_of(digits, radix as nat) is Some {
                lemma_value_grows(digits, radix as nat, at - start + 1);
            }
        }
        let digit: u32 = if 48 <= n && n <= 57 {
            n - 48
        } else if radix == 16 && 97 <= n && n <= 102 {
            n - 87
        } else if radix == 16 && 65 <= n && n <= 70 {
            n - 55
        } else {
            return None;
        };
        let next: u128 = value as u128 * radix as u128 + digit as u128;
        if next > max as u128 {
            return None;
        }
        value = next as u64;
        at = at + 1;
    }
    proof {
        assert(digits.take(at - start) =~= digits);
    }
    Some(value)
}

/// The text of a digit below 16.
fn digit_text(digit: u32) -> (text: &'static str)
    requires
        digit < 16,
    ensures
        text@ == seq![digit_char(digit as nat)],
{
    proof {
        reveal_strlit("0");
        reveal_strlit("1");
        reveal_strlit("2");
        reveal_strlit("3");
        reveal_strlit("4");
        reveal_strlit("5");
        reveal_strlit("6");
        reveal_strlit("7");
        reveal_strlit("8");
        reveal_strlit("9");
        reveal_strlit("a");
        reveal_strlit("b");
        reveal_strlit("c");
        reveal_strlit("d");
        reveal_strlit("e");
        reveal_strlit("f");
    }
    let text: &'static str = match digit {
        0 => "0",
        1 => "1",
        2 => "2",
        3 => "3",
        4 => "4",
        5 => "5",
        6 => "6",
        7 => "7",
        8 => "8",
        9 => "9",
        10 => "a",
        11 => "b",
        12 => "c",
        13 => "d",
        14 => "e",
        _ => "f",
    };
    proof {
        assert(text@ =~= seq![digit_char(digit as nat)]);
    }
    text
}

/// Appends a number in at least `width` digits.
pub fn push_number(out: &mut String, number: u64, radix: u32, width: usize)
    requires
        radix == 10 || radix == 16,
    ensures
        final(out)@ == old(out)@ + padded(number as nat, radix as nat, width as nat),
{
    let ghost all = digits_of(number as nat, radix as nat);
    // The digits, last first.
    let mut digits: Vec<u32> = Vec::new();
    let mut rest: u64 = number;
    proof {
        assert(all + shown(digits@) =~= all);
    }
    while rest >= radix as u64
        invariant
            radix == 10 || radix == 16,
            all == digits_of(rest as nat, radix as nat) + shown(digits@),
            forall|i: int| 0 <= i < digits@.len() ==> #[trigger] digits@[i] < 16,
        decreases rest,
    {
        let digit: u32 = (rest % radix as u64) as u32;
        let ghost before = digits@;
        digits.push(digit);
        proof {
            let high = digits_of((rest / radix as u64) as nat, radix as nat);
            assert(digits_of(rest as nat, radix as nat) == high.push(digit_char(digit as nat)));
            assert(shown(digits@) =~= seq![digit_char(digit as nat)] + shown(before));
            assert(high.push(digit_char(digit as nat)) + shown(before) =~= high + shown(digits@));
        }
        rest = rest / radix as u64;
    }
    let ghost before = digits@;
    digits.push(rest as u32);
    proof {
        assert(shown(digits@) =~= seq![digit_char(rest as nat)] + shown(before));
        assert(all =~= shown(digits@));
    }
    let count: usize = digits.len();
    let ghost start = out@;
    let mut pad: usize = count;
    proof {
        assert(start + zeros(0) =~= start);
    }
    while pad < width
        invariant
            count <= pad,
            pad <= width || pad == count,
            out@ == start + zeros((pad - count) as nat),
        decreases width - pad,
    {
        out.append(digit_text(0));
        pad = pad + 1;
        proof {
            assert(out@ =~= start + zeros((pad - count) as nat));
        }
    }
    let ghost front = out@;
    let mut left: usize = count;
    proof {
        assert(front + all.take(0) =~= front);
    }
    while left > 0
        invariant
            left <= count,
            count == digits@.len(),
            all == shown(digits@),
            out@ == front + all.take(count - left),
            forall|i: int| 0 <= i < digits@.len() ==> #[trigger] digits@[i] < 16,
        decreases left,
    {
        left = left - 1;
        proof {
            assert(all[count - left - 1] == digit_char(digits@[left as int] as nat));
        }
        out.append(digit_text(digits[left]));
        proof {
            assert(out@ =~= front + all.take(count - left));
        }
    }
    proof {
        assert(all.take(count as int) =~= all);
        assert(out@ =~= start + padded(number as nat, radix as nat, width as nat));
    }
}

/// Digits, last first, as they are written.
spec fn shown(digits: Seq<u32>) -> Seq<char> {
    Seq::new(digits.len(), |i: int| digit_char(digits[digits.len() - 1 - i] as nat))
}

// ---------------------------------------------------------------------------
// Words and lines
// ---------------------------------------------------------------------------

/// The length of the word at the front of a text.
pub open spec fn word_len(text: Seq<char>) -> nat
    decreases text.len(),
{
    if text.len() == 0 || is_space(text[0]) {
        0
    } else {
        1 + word_len(text.drop_first())
    }
}

/// A word's length is that of its text at most.
pub proof fn lemma_word_len(text: Seq<char>)
    ensures
        word_len(text) <= text.len(),
        forall|i: int| 0 <= i < word_len(text) ==> !is_space(#[trigger] text[i]),
        word_len(text) < text.len() ==> is_space(text[word_len(text) as int]),
    decreases text.len(),
{
    if text.len() > 0 && !is_space(text[0]) {
        let rest = text.drop_first();
        lemma_word_len(rest);
        assert forall|i: int| 0 <= i < word_len(text) implies !is_space(#[trigger] text[i]) by {
            if i > 0 {
                assert(text[i] == rest[i - 1]);
            }
        }
        if word_len(text) < text.len() {
            assert(text[word_len(text) as int] == rest[word_len(rest) as int]);
        }
    }
}

/// The words of a text: its parts between white space.
pub open spec fn words_of(text: Seq<char>) -> Seq<Seq<char>>
    decreases text.len(),
{
    if text.len() == 0 {
        Seq::empty()
    } else if is_space(text[0]) {
        words_of(text.drop_first())
    } else {
        let n = word_len(text) as int;
        if 0 < n <= text.len() {
            seq![text.take(n)] + words_of(text.skip(n))
        } else {
            Seq::empty()
        }
    }
}

/// The length of the line at the front of a text, without its end.
pub open spec fn line_len(text: Seq<char>) -> nat
    decreases text.len(),
{
    if text.len() == 0 || text[0] == '\n' {
        0
    } else {
        1 + line_len(text.drop_first())
    }
}

/// A line's length is that of its text at most.
pub proof fn lemma_line_len(text: Seq<char>)
    ensures
        line_len(text) <= text.len(),
        forall|i: int| 0 <= i < line_len(text) ==> #[trigger] text[i] != '\n',
        line_len(text) < text.len() ==> text[line_len(text) as int] == '\n',
    decreases text.len(),
{
    if text.len() > 0 && text[0] != '\n' {
        let rest = text.drop_first();
        lemma_line_len(rest);
        assert forall|i: int| 0 <= i < line_len(text) implies #[trigger] text[i] != '\n' by {
            if i > 0 {
                assert(text[i] == rest[i - 1]);
            }
        }
        if line_len(text) < text.len() {
            assert(text[line_len(text) as int] == rest[line_len(rest) as int]);
        }
    }
}

/// The only length with these properties.
pub proof fn lemma_line_len_is(text: Seq<char>, n: nat)
    requires
        n <= text.len(),
        forall|i: int| 0 <= i < n ==> #[trigger] text[i] != '\n',
        n < text.len() ==> text[n as int] == '\n',
    ensures
        line_len(text) == n,
{
    lemma_line_len(text);
    let m = line_len(text);
    if m < n {
        assert(text[m as int] != '\n');
    }
    if n < m {
        assert(text[n as int] != '\n');
    }
}

/// The only length with these properties.
pub proof fn lemma_word_len_is(text: Seq<char>, n: nat)
    requires
        n <= text.len(),
        forall|i: int| 0 <= i < n ==> !is_space(#[trigger] text[i]),
        n < text.len() ==> is_space(text[n as int]),
    ensures
        word_len(text) == n,
{
    lemma_word_len(text);
    let m = word_len(text);
    if m < n {
        assert(!is_space(text[m as int]));
    }
    if n < m {
        assert(!is_space(text[n as int]));
    }
}

/// The lines of a text, without their ends; what follows the last line end is a
/// line if it is not empty.
pub open spec fn lines_of(text: Seq<char>) -> Seq<Seq<char>>
    decreases text.len(),
{
    if text.len() == 0 {
        Seq::empty()
    } else {
        let n = line_len(text) as int;
        if n >= text.len() {
            seq![text]
        } else {
            seq![text.take(n)] + lines_of(text.skip(n + 1))
        }
    }
}

/// A text without the white space at its ends.
pub open spec fn trimmed(text: Seq<char>) -> Seq<char>
    decreases text.len(),
{
    if text.len() == 0 {
        text
    } else if is_space(text[0]) {
        trimmed(text.drop_first())
    } else if is_space(text.last()) {
        trimmed(text.drop_last())
    } else {
        text
    }
}

/// A text that neither begins nor ends with white space is trimmed.
pub proof fn lemma_trimmed(text: Seq<char>, front: Seq<char>, back: Seq<char>)
    requires
        forall|i: int| 0 <= i < front.len() ==> is_space(#[trigger] front[i]),
        forall|i: int| 0 <= i < back.len() ==> is_space(#[trigger] back[i]),
        text.len() > 0 ==> !is_space(text[0]) && !is_space(text.last()),
    ensures
        trimmed(front + text + back) == text,
    decreases front.len() + back.len(),
{
    let all = front + text + back;
    if front.len() > 0 {
        assert(all[0] == front[0]);
        let rest = front.drop_first();
        assert forall|i: int| 0 <= i < rest.len() implies is_space(#[trigger] rest[i]) by {
            assert(rest[i] == front[i + 1]);
        }
        assert(all.drop_first() =~= rest + text + back);
        lemma_trimmed(text, rest, back);
    } else if text.len() == 0 {
        if back.len() > 0 {
            assert(all[0] == back[0]);
            let rest = back.drop_first();
            assert forall|i: int| 0 <= i < rest.len() implies is_space(#[trigger] rest[i]) by {
                assert(rest[i] == back[i + 1]);
            }
            assert(all.drop_first() =~= front + text + rest);
            lemma_trimmed(text, front, rest);
        } else {
            assert(all =~= text);
        }
    } else {
        assert(all[0] == text[0]);
        if back.len() > 0 {
            assert(all.last() == back.last());
            let rest = back.drop_last();
            assert forall|i: int| 0 <= i < rest.len() implies is_space(#[trigger] rest[i]) by {
                assert(rest[i] == back[i]);
            }
            assert(is_space(back[back.len() - 1]));
            assert(all.drop_last() =~= front + text + rest);
            lemma_trimmed(text, front, rest);
        } else {
            assert(all =~= text);
        }
    }
}

/// A word and what follows it.
pub proof fn lemma_words_step(word: Seq<char>, rest: Seq<char>)
    requires
        word.len() > 0,
        forall|i: int| 0 <= i < word.len() ==> !is_space(#[trigger] word[i]),
        rest.len() > 0 ==> is_space(rest[0]),
    ensures
        words_of(word + rest) == seq![word] + words_of(rest),
{
    let all = word + rest;
    assert(all[0] == word[0]);
    assert forall|i: int| 0 <= i < word.len() implies !is_space(#[trigger] all[i]) by {
        assert(all[i] == word[i]);
    }
    lemma_word_len_is(all, word.len());
    assert(all.take(word.len() as int) =~= word);
    assert(all.skip(word.len() as int) =~= rest);
}

/// A line and what follows it.
pub proof fn lemma_lines_step(line: Seq<char>, rest: Seq<char>)
    requires
        forall|i: int| 0 <= i < line.len() ==> #[trigger] line[i] != '\n',
    ensures
        lines_of(line + seq!['\n'] + rest) == seq![line] + lines_of(rest),
{
    let all = line + seq!['\n'] + rest;
    assert forall|i: int| 0 <= i < line.len() implies #[trigger] all[i] != '\n' by {
        assert(all[i] == line[i]);
    }
    lemma_line_len_is(all, line.len());
    assert(all.take(line.len() as int) =~= line);
    assert(all.skip(line.len() as int + 1) =~= rest);
}

/// The characters of a text.
pub fn chars_of(text: &str) -> (chars: Vec<char>)
    ensures
        chars@ == text@,
{
    let mut chars: Vec<char> = Vec::new();
    for c in iter: text.chars()
        invariant
            iter.seq() == text@,
            chars@ == text@.take(iter.index() as int),
    {
        chars.push(c);
        proof {
            assert(chars@ =~= text@.take(iter.index() + 1));
        }
    }
    proof {
        assert(text@.take(text@.len() as int) =~= text@);
    }
    chars
}

/// Where the words of `text[from..to]` lie.
pub fn find_words(text: &Vec<char>, from: usize, to: usize) -> (spans: Vec<(usize, usize)>)
    requires
        from <= to <= text@.len(),
    ensures
        spans_of(text@, spans@) == words_of(text@.subrange(from as int, to as int)),
        forall|i: int|
            0 <= i < spans@.len() ==> from <= (#[trigger] spans@[i]).0 <= spans@[i].1 <= to,
{
    let mut spans: Vec<(usize, usize)> = Vec::new();
    let mut at: usize = from;
    let ghost all = words_of(text@.subrange(from as int, to as int));
    proof {
        assert(spans_of(text@, spans@) + all =~= all);
    }
    while at < to
        invariant
            from <= at <= to <= text@.len(),
            all == spans_of(text@, spans@) + words_of(text@.subrange(at as int, to as int)),
            forall|i: int|
                0 <= i < spans@.len() ==> from <= (#[trigger] spans@[i]).0 <= spans@[i].1 <= to,
        decreases to - at,
    {
        let ghost rest = text@.subrange(at as int, to as int);
        if space(text[at]) {
            proof {
                assert(rest.drop_first() =~= text@.subrange(at + 1, to as int));
            }
            at = at + 1;
            continue;
        }
        let start: usize = at;
        at = at + 1;
        while at < to && !space(text[at])
            invariant
                from <= start < at <= to <= text@.len(),
                forall|i: int| start <= i < at ==> !is_space(#[trigger] text@[i]),
            decreases to - at,
        {
            at = at + 1;
        }
        let ghost before = spans@;
        spans.push((start, at));
        proof {
            let n = at - start;
            assert forall|i: int| 0 <= i < n implies !is_space(#[trigger] rest[i]) by {
                assert(rest[i] == text@[start + i]);
            }
            lemma_word_len_is(rest, n as nat);
            assert(rest.take(n) =~= text@.subrange(start as int, at as int));
            assert(rest.skip(n) =~= text@.subrange(at as int, to as int));
            assert(spans_of(text@, spans@) =~= spans_of(text@, before).push(
                text@.subrange(start as int, at as int),
            ));
            assert(spans_of(text@, before) + (seq![rest.take(n)] + words_of(rest.skip(n)))
                =~= spans_of(text@, spans@) + words_of(rest.skip(n)));
        }
    }
    proof {
        assert(spans_of(text@, spans@) + Seq::<Seq<char>>::empty() =~= spans_of(text@, spans@));
    }
    spans
}

/// The parts of a text that spans mark.
pub open spec fn spans_of(text: Seq<char>, spans: Seq<(usize, usize)>) -> Seq<Seq<char>> {
    Seq::new(spans.len(), |i: int| text.subrange(spans[i].0 as int, spans[i].1 as int))
}

/// Where the lines of `text[0..to]` lie.
pub fn find_lines(text: &Vec<char>, to: usize) -> (spans: Vec<(usize, usize)>)
    requires
        to <= text@.len(),
    ensures
        spans_of(text@, spans@) == lines_of(text@.take(to as int)),
        forall|i: int| 0 <= i < spans@.len() ==> (#[trigger] spans@[i]).0 <= spans@[i].1 <= to,
{
    let mut spans: Vec<(usize, usize)> = Vec::new();
    let mut start: usize = 0;
    let mut at: usize = 0;
    let ghost all = lines_of(text@.take(to as int));
    proof {
        assert(text@.subrange(0, to as int) =~= text@.take(to as int));
        assert(spans_of(text@, spans@) + all =~= all);
    }
    while at < to
        invariant
            start <= at <= to <= text@.len(),
            forall|i: int| start <= i < at ==> #[trigger] text@[i] != '\n',
            all == spans_of(text@, spans@) + lines_of(text@.subrange(start as int, to as int)),
            forall|i: int| 0 <= i < spans@.len() ==> (#[trigger] spans@[i]).0 <= spans@[i].1 <= to,
        decreases to - at,
    {
        if text[at] == '\n' {
            let ghost before = spans@;
            let ghost rest = text@.subrange(start as int, to as int);
            spans.push((start, at));
            proof {
                let n = at - start;
                assert forall|i: int| 0 <= i < n implies #[trigger] rest[i] != '\n' by {
                    assert(rest[i] == text@[start + i]);
                }
                lemma_line_len_is(rest, n as nat);
                assert(rest.take(n) =~= text@.subrange(start as int, at as int));
                assert(rest.skip(n + 1) =~= text@.subrange(at + 1, to as int));
                assert(spans_of(text@, spans@) =~= spans_of(text@, before).push(
                    text@.subrange(start as int, at as int),
                ));
                assert(spans_of(text@, before) + (seq![rest.take(n)] + lines_of(rest.skip(n + 1)))
                    =~= spans_of(text@, spans@) + lines_of(rest.skip(n + 1)));
            }
            start = at + 1;
        }
        at = at + 1;
    }
    if start < to {
        let ghost before = spans@;
        let ghost rest = text@.subrange(start as int, to as int);
        spans.push((start, to));
        proof {
            let n = to - start;
            assert forall|i: int| 0 <= i < n implies #[trigger] rest[i] != '\n' by {
                assert(rest[i] == text@[start + i]);
            }
            lemma_line_len_is(rest, n as nat);
            assert(spans_of(text@, spans@) =~= spans_of(text@, before) + seq![rest]);
        }
    } else {
        proof {
            assert(spans_of(text@, spans@) + Seq::<Seq<char>>::empty() =~= spans_of(
                text@,
                spans@,
            ));
        }
    }
    spans
}

/// The ends of `text[from..to]` without the white space there.
pub fn trim_span(text: &Vec<char>, from: usize, to: usize) -> (span: (usize, usize))
    requires
        from <= to <= text@.len(),
    ensures
        from <= span.0 <= span.1 <= to,
        text@.subrange(span.0 as int, span.1 as int) == trimmed(
            text@.subrange(from as int, to as int),
        ),
{
    let mut start: usize = from;
    let mut end: usize = to;
    while start < end && space(text[start])
        invariant
            from <= start <= end <= to <= text@.len(),
            end == to,
            trimmed(text@.subrange(start as int, end as int)) == trimmed(
                text@.subrange(from as int, to as int),
            ),
        decreases end - start,
    {
        proof {
            assert(text@.subrange(start as int, end as int).drop_first() =~= text@.subrange(
                start + 1,
                end as int,
            ));
        }
        start = start + 1;
    }
    while start < end && space(text[end - 1])
        invariant
            from <= start <= end <= to <= text@.len(),
            start < end ==> !is_space(text@[start as int]),
            trimmed(text@.subrange(start as int, end as int)) == trimmed(
                text@.subrange(from as int, to as int),
            ),
        decreases end - start,
    {
        proof {
            assert(text@.subrange(start as int, end as int).drop_last() =~= text@.subrange(
                start as int,
                end - 1,
            ));
        }
        end = end - 1;
    }
    (start, end)
}

/// Whether `text[from..to]` is `word`.
pub fn span_is(text: &Vec<char>, from: usize, to: usize, word: &str) -> (is: bool)
    requires
        from <= to <= text@.len(),
    ensures
        is == (text@.subrange(from as int, to as int) == word@),
{
    let ghost part = text@.subrange(from as int, to as int);
    let expected: Vec<char> = chars_of(word);
    if expected.len() != to - from {
        return false;
    }
    let mut i: usize = 0;
    while i < expected.len()
        invariant
            i <= expected@.len(),
            expected@ == word@,
            part == text@.subrange(from as int, to as int),
            expected@.len() == to - from,
            from <= to <= text@.len(),
            forall|j: int| 0 <= j < i ==> #[trigger] part[j] == expected@[j],
        decreases expected@.len() - i,
    {
        if text[from + i] != expected[i] {
            proof {
                assert(part[i as int] != expected@[i as int]);
            }
            return false;
        }
        i = i + 1;
    }
    proof {
        assert(part =~= word@);
    }
    true
}

} // verus!
