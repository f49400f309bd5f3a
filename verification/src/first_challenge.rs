//! Calibration values: the first and last number token of a line, read as a
//! two-digit number.

use crate::pattern::{compile, compiled_pattern, find_all, pattern_compiles, token_matches};
use crate::text::{
    char_lines, char_views, chars_of, lines_of, lower_all, lowered, pieces, spells, str_views,
    string_views, Delimiter,
};
use vstd::prelude::*;
use vstd::string::*;

verus! {

/// The pattern that recognises digits only.
pub const DIGITS: &'static str = r"\d";

/// The pattern that recognises digits and the number words one to nine.
pub const DIGITS_AND_WORDS: &'static str = r"(?:\d|one|two|three|four|five|six|seven|eight|nine)";

/// The value of a number word, whatever the case of its ASCII letters.
pub open spec fn word_value(word: Seq<char>) -> Option<int> {
    let w = lowered(word);
    if w == "one"@ {
        Some(1)
    } else if w == "two"@ {
        Some(2)
    } else if w == "three"@ {
        Some(3)
    } else if w == "four"@ {
        Some(4)
    } else if w == "five"@ {
        Some(5)
    } else if w == "six"@ {
        Some(6)
    } else if w == "seven"@ {
        Some(7)
    } else if w == "eight"@ {
        Some(8)
    } else if w == "nine"@ {
        Some(9)
    } else {
        None
    }
}

/// The value of a token that is a single ASCII digit.
pub open spec fn digit_value(token: Seq<char>) -> Option<int> {
    if token.len() == 1 && '0' <= token[0] && token[0] <= '9' {
        Some(token[0] as int - '0' as int)
    } else {
        None
    }
}

/// What a token stands for: its digit, else its number word; nothing for a
/// token that is neither.
pub open spec fn token_meaning(token: Seq<char>) -> Option<int> {
    match digit_value(token) {
        Some(d) => Some(d),
        None => word_value(token),
    }
}

/// The value a token contributes: what it stands for, and 0 for a token that
/// stands for nothing.
pub open spec fn token_value(token: Seq<char>) -> int {
    match token_meaning(token) {
        Some(v) => v,
        None => 0,
    }
}

/// A token as a warning: itself where it stands for nothing, else none.
pub open spec fn unknown_of(token: Seq<char>) -> Seq<Seq<char>> {
    if token_meaning(token) is None {
        seq![token]
    } else {
        Seq::<Seq<char>>::empty()
    }
}

/// The tokens of a line that are used and stand for nothing: the first and
/// the last one, in that order, a single token counted once.
pub open spec fn line_unknowns(tokens: Seq<Seq<char>>) -> Seq<Seq<char>> {
    if tokens.len() == 0 {
        Seq::<Seq<char>>::empty()
    } else if tokens.len() == 1 {
        unknown_of(tokens[0])
    } else {
        unknown_of(tokens.first()) + unknown_of(tokens.last())
    }
}

/// The calibration value of a line's tokens: ten times the first token plus
/// the last one, and nothing for a line without tokens.
pub open spec fn line_value(tokens: Seq<Seq<char>>) -> Option<int> {
    if tokens.len() == 0 {
        None
    } else {
        Some(10 * token_value(tokens.first()) + token_value(tokens.last()))
    }
}

/// A text with every occurrence of `from` replaced by `to`, occurrences
/// being taken left to right without overlap. An empty `from` occurs nowhere.
pub open spec fn replaced(s: Seq<char>, from: Seq<char>, to: Seq<char>) -> Seq<char>
    decreases s.len(),
{
    if from.len() == 0 || s.len() < from.len() {
        s
    } else if s.take(from.len() as int) == from {
        to + replaced(s.skip(from.len() as int), from, to)
    } else {
        seq![s[0]] + replaced(s.skip(1), from, to)
    }
}

/// A line after the overlap repairs: each pair of number words that share a
/// letter is written out in full, pair by pair in a fixed order.
pub open spec fn repaired(line: Seq<char>) -> Seq<char> {
    let a = replaced(line, "twone"@, "twoone"@);
    let b = replaced(a, "eightwo"@, "eighttwo"@);
    let c = replaced(b, "eighthree"@, "eightthree"@);
    let d = replaced(c, "oneight"@, "oneeight"@);
    let e = replaced(d, "fiveight"@, "fiveeight"@);
    let f = replaced(e, "sevenine"@, "sevennine"@);
    let g = replaced(f, "nineight"@, "nineeight"@);
    replaced(g, "threeight"@, "threeeight"@)
}

/// The tokens that a pattern finds in a line, after the overlap repairs.
pub open spec fn line_tokens(pattern: Seq<char>, line: Seq<char>) -> Seq<Seq<char>> {
    token_matches(pattern, repaired(line))
}

/// The calibration values of a sequence of lines, in order, one for each
/// line in which the pattern finds a token.
pub open spec fn calibration_values(lines: Seq<Seq<char>>, pattern: Seq<char>) -> Seq<int>
    decreases lines.len(),
{
    if lines.len() == 0 {
        Seq::empty()
    } else {
        let before = calibration_values(lines.drop_last(), pattern);
        match line_value(line_tokens(pattern, lines.last())) {
            Some(v) => before.push(v),
            None => before,
        }
    }
}

/// The used tokens that stand for nothing, over a sequence of lines in order.
pub open spec fn unknown_tokens(lines: Seq<Seq<char>>, pattern: Seq<char>) -> Seq<Seq<char>>
    decreases lines.len(),
{
    if lines.len() == 0 {
        Seq::<Seq<char>>::empty()
    } else {
        unknown_tokens(lines.drop_last(), pattern) + line_unknowns(
            line_tokens(pattern, lines.last()),
        )
    }
}

/// The integers that a sequence of machine integers holds.
pub open spec fn int_values(values: Seq<i32>) -> Seq<int> {
    Seq::new(values.len(), |i: int| values[i] as int)
}

/// Resolves a number word, ignoring the case of ASCII letters.
pub fn word_to_number(word: &str) -> (value: Option<i32>)
    ensures
        match value {
            Some(v) => word_value(word@) == Some(v as int),
            None => word_value(word@) is None,
        },
{
    let w = lower_all(&chars_of(word));
    if spells(&w, "one") {
        Some(1)
    } else if spells(&w, "two") {
        Some(2)
    } else if spells(&w, "three") {
        Some(3)
    } else if spells(&w, "four") {
        Some(4)
    } else if spells(&w, "five") {
        Some(5)
    } else if spells(&w, "six") {
        Some(6)
    } else if spells(&w, "seven") {
        Some(7)
    } else if spells(&w, "eight") {
        Some(8)
    } else if spells(&w, "nine") {
        Some(9)
    } else {
        None
    }
}

/// Resolves a token: a single digit first, else a number word. `None` for
/// a token that is neither.
pub fn resolve_token(token: &str) -> (value: Option<i32>)
    ensures
        match value {
            Some(v) => token_meaning(token@) == Some(v as int) && 0 <= v <= 9,
            None => token_meaning(token@) is None,
        },
{
    let n = token.unicode_len();
    if n == 1 {
        let c = token.get_char(0);
        if '0' <= c && c <= '9' {
            let d: u8 = c as u8 - 48;
            return Some(d as i32);
        }
    }
    word_to_number(token)
}

/// Combines the tokens of one line into its calibration value. A token that
/// stands for nothing counts as 0 in its position.
pub fn calibration_value(tokens: &Vec<String>) -> (value: Option<i32>)
    ensures
        match value {
            Some(v) => line_value(string_views(tokens@)) == Some(v as int),
            None => line_value(string_views(tokens@)) is None,
        },
        value is None <==> tokens.len() == 0,
        tokens.len() == 1 ==> value == Some((11 * token_value(tokens[0]@)) as i32),
        value matches Some(v) ==> 0 <= v <= 99,
{
    if tokens.len() == 0 {
        None
    } else {
        let first: i32 = match resolve_token(tokens[0].as_str()) {
            Some(v) => v,
            None => 0,
        };
        let last: i32 = match resolve_token(tokens[tokens.len() - 1].as_str()) {
            Some(v) => v,
            None => 0,
        };
        Some(first * 10 + last)
    }
}

/// Appends a token to the warnings where it stands for nothing.
fn note_unknown(token: &String, unknown: &mut Vec<String>)
    ensures
        string_views(final(unknown)@) == string_views(old(unknown)@) + unknown_of(token@),
{
    let ghost before = string_views(unknown@);
    match resolve_token(token.as_str()) {
        Some(_) => {
            assert(before + Seq::<Seq<char>>::empty() == before);
        },
        None => {
            let copy = token.clone();
            unknown.push(copy);
            assert(string_views(unknown@) == before + seq![token@]);
        },
    }
}

/// Appends to the warnings the used tokens of one line that stand for
/// nothing.
pub fn note_unknowns(tokens: &Vec<String>, unknown: &mut Vec<String>)
    ensures
        string_views(final(unknown)@) == string_views(old(unknown)@) + line_unknowns(
            string_views(tokens@),
        ),
{
    let ghost before = string_views(unknown@);
    let n: usize = tokens.len();
    if n == 0 {
        assert(before + Seq::<Seq<char>>::empty() == before);
    } else {
        note_unknown(&tokens[0], unknown);
        if n >= 2 {
            note_unknown(&tokens[n - 1], unknown);
            assert((before + unknown_of(tokens@[0]@)) + unknown_of(tokens@[n - 1]@) == before + (
            unknown_of(tokens@[0]@) + unknown_of(tokens@[n - 1]@)));
        }
    }
}

/// Whether `from` stands in `text` at position `at`.
fn occurs_at(text: &Vec<char>, at: usize, from: &Vec<char>) -> (found: bool)
    requires
        at <= text.len(),
    ensures
        found == (text@.skip(at as int).len() >= from@.len() && text@.skip(at as int).take(
            from@.len() as int,
        ) == from@),
{
    let n: usize = from.len();
    if text.len() - at < n {
        return false;
    }
    let ghost window = text@.skip(at as int).take(n as int);
    let mut k: usize = 0;
    while k < n
        invariant
            n == from@.len(),
            at + n <= text.len(),
            k <= n,
            window == text@.skip(at as int).take(n as int),
            window.take(k as int) == from@.take(k as int),
        decreases n - k,
    {
        if text[at + k] != from[k] {
            assert(window[k as int] != from@[k as int]);
            return false;
        }
        assert(window.take(k + 1) == window.take(k as int).push(window[k as int]));
        assert(from@.take(k + 1) == from@.take(k as int).push(from@[k as int]));
        k = k + 1;
    }
    assert(window.take(n as int) == window);
    assert(from@.take(n as int) == from@);
    true
}

/// Replaces every occurrence of `from` in `text` by `to`, left to right
/// without overlap. With an empty `from` the text is returned as it is.
pub fn replace_all(text: &Vec<char>, from: &str, to: &str) -> (out: Vec<char>)
    ensures
        out@ == replaced(text@, from@, to@),
{
    let from_chars = chars_of(from);
    let to_chars = chars_of(to);
    let n: usize = text.len();
    let m: usize = from_chars.len();
    let mut out: Vec<char> = Vec::new();
    let mut i: usize = 0;
    assert(text@.skip(0) == text@);
    assert(out@ + replaced(text@, from@, to@) == replaced(text@, from@, to@));
    while i < n
        invariant
            n == text@.len(),
            m == from@.len(),
            from_chars@ == from@,
            to_chars@ == to@,
            i <= n,
            out@ + replaced(text@.skip(i as int), from@, to@) == replaced(text@, from@, to@),
        decreases n - i,
    {
        let ghost rest = text@.skip(i as int);
        if m > 0 && occurs_at(text, i, &from_chars) {
            let mut k: usize = 0;
            let ghost start = out@;
            while k < to_chars.len()
                invariant
                    k <= to_chars.len(),
                    out@ == start + to_chars@.take(k as int),
                decreases to_chars.len() - k,
            {
                out.push(to_chars[k]);
                assert(to_chars@.take(k + 1) == to_chars@.take(k as int).push(to_chars@[k as int]));
                k = k + 1;
            }
            assert(to_chars@.take(to_chars.len() as int) == to_chars@);
            assert(rest.skip(m as int) == text@.skip(i + m));
            assert(out@ + replaced(text@.skip(i + m), from@, to@) == start + (to@ + replaced(
                rest.skip(m as int),
                from@,
                to@,
            )));
            i = i + m;
        } else {
            let ghost start = out@;
            out.push(text[i]);
            assert(rest.skip(1) == text@.skip(i + 1));
            if m > 0 && n - i >= m {
                assert(out@ + replaced(text@.skip(i + 1), from@, to@) == start + (seq![rest[0]]
                    + replaced(rest.skip(1), from@, to@)));
            } else {
                // no occurrence can start here or later: the rest is kept
                assert(replaced(rest, from@, to@) == rest);
                assert(replaced(rest.skip(1), from@, to@) == rest.skip(1));
                assert(out@ + rest.skip(1) == start + rest);
            }
            i = i + 1;
        }
    }
    assert(text@.skip(n as int) == Seq::<char>::empty());
    assert(out@ + Seq::<char>::empty() == out@);
    out
}

/// Writes out in full the number words that share a letter, so that a
/// left-to-right search finds both.
pub fn repair(line: &Vec<char>) -> (out: Vec<char>)
    ensures
        out@ == repaired(line@),
{
    let a = replace_all(line, "twone", "twoone");
    let a = replace_all(&a, "eightwo", "eighttwo");
    let a = replace_all(&a, "eighthree", "eightthree");
    let a = replace_all(&a, "oneight", "oneeight");
    let a = replace_all(&a, "fiveight", "fiveeight");
    let a = replace_all(&a, "sevenine", "sevennine");
    let a = replace_all(&a, "nineight", "nineeight");
    replace_all(&a, "threeight", "threeeight")
}

/// The overlap repairs on a string slice.
pub fn repair_overlaps(line: &str) -> (out: Vec<char>)
    ensures
        out@ == repaired(line@),
{
    repair(&chars_of(line))
}

/// Why a calibration was not computed.
#[derive(Debug, Clone, Copy, PartialEq, Eq, Structural)]
pub enum CalibrationError {
    /// The regular-expression engine refused the pattern.
    Pattern,
    /// The sum of the values does not fit the result type.
    Overflow,
}

/// What reading a sequence of lines gives.
#[derive(Debug, PartialEq, Eq)]
pub struct Calibration {
    /// The calibration values, one for each line with a token.
    pub values: Vec<i32>,
    /// The used tokens that stand for nothing, as warnings.
    pub unknown: Vec<String>,
}

/// Reads the calibration value of each line in which the pattern finds a
/// token, and collects the used tokens that stand for nothing. Lines without
/// a token give no entry. Fails only where the engine refuses the pattern.
pub fn calibrate(lines: &Vec<Vec<char>>, regex_pattern: &str) -> (res: Result<
    Calibration,
    CalibrationError,
>)
    ensures
        res is Ok <==> pattern_compiles(regex_pattern@),
        res matches Ok(c) ==> int_values(c.values@) == calibration_values(
            char_views(lines@),
            regex_pattern@,
        ),
        res matches Ok(c) ==> string_views(c.unknown@) == unknown_tokens(
            char_views(lines@),
            regex_pattern@,
        ),
        res matches Ok(c) ==> forall|k: int|
            0 <= k < c.values.len() ==> 0 <= #[trigger] c.values[k] <= 99,
        res matches Ok(c) ==> c.values.len() <= lines.len(),
        res matches Err(e) ==> e == CalibrationError::Pattern,
{
    let number_pattern = match compile(regex_pattern) {
        Ok(re) => re,
        Err(_) => {
            return Err(CalibrationError::Pattern);
        },
    };
    let ghost all = char_views(lines@);
    let mut values: Vec<i32> = Vec::new();
    let mut unknown: Vec<String> = Vec::new();
    let mut i: usize = 0;
    assert(int_values(values@) == Seq::<int>::empty());
    assert(string_views(unknown@) == Seq::<Seq<char>>::empty());
    while i < lines.len()
        invariant
            i <= lines.len(),
            all == char_views(lines@),
            compiled_pattern(number_pattern) == regex_pattern@,
            int_values(values@) == calibration_values(all.take(i as int), regex_pattern@),
            string_views(unknown@) == unknown_tokens(all.take(i as int), regex_pattern@),
            forall|k: int| 0 <= k < values.len() ==> 0 <= #[trigger] values[k] <= 99,
        decreases lines.len() - i,
    {
        let fixed = repair(&lines[i]);
        let tokens = find_all(&number_pattern, &fixed);
        let ghost before = int_values(values@);
        assert(all.take(i + 1).drop_last() == all.take(i as int));
        assert(all.take(i + 1).last() == lines@[i as int]@);
        match calibration_value(&tokens) {
            Some(v) => {
                values.push(v);
                assert(int_values(values@) == before.push(v as int));
            },
            None => {},
        }
        note_unknowns(&tokens, &mut unknown);
        i = i + 1;
    }
    assert(all.take(lines.len() as int) == all);
    proof {
        lemma_values_len(all, regex_pattern@);
        assert(int_values(values@).len() == values.len());
    }
    Ok(Calibration { values, unknown })
}

/// Finds the tokens of one line: the matches of the pattern in the line
/// after the overlap repairs.
pub fn tokens_of(line: &str, regex_pattern: &str) -> (res: Result<Vec<String>, CalibrationError>)
    ensures
        res is Ok <==> pattern_compiles(regex_pattern@),
        res matches Ok(tokens) ==> string_views(tokens@) == line_tokens(regex_pattern@, line@),
        res matches Err(e) ==> e == CalibrationError::Pattern,
{
    match compile(regex_pattern) {
        Ok(re) => Ok(find_all(&re, &repair_overlaps(line))),
        Err(_) => Err(CalibrationError::Pattern),
    }
}

/// Reads the calibration value of each line in which the pattern finds a
/// token, the lines given as string slices.
pub fn parse_results(strings: Vec<&str>, regex_pattern: &str) -> (res: Result<
    Vec<i32>,
    CalibrationError,
>)
    ensures
        res is Ok <==> pattern_compiles(regex_pattern@),
        res matches Ok(values) ==> int_values(values@) == calibration_values(
            str_views(strings@),
            regex_pattern@,
        ),
        res matches Ok(values) ==> forall|k: int|
            0 <= k < values.len() ==> 0 <= #[trigger] values[k] <= 99,
        res matches Ok(values) ==> values.len() <= strings.len(),
        res matches Err(e) ==> e == CalibrationError::Pattern,
{
    let lines = char_lines(&strings);
    assert(char_views(lines@).len() == lines.len());
    match calibrate(&lines, regex_pattern) {
        Ok(c) => Ok(c.values),
        Err(e) => Err(e),
    }
}

/// The sum of a sequence of integers.
pub open spec fn total(values: Seq<int>) -> int
    decreases values.len(),
{
    if values.len() == 0 {
        0
    } else {
        total(values.drop_last()) + values.last()
    }
}

/// Adds up the values. `None` where the sum does not fit 32 bits with sign.
pub fn sum_values(values: &Vec<i32>) -> (sum: Option<i32>)
    ensures
        match sum {
            Some(s) => s as int == total(int_values(values@)),
            None => !(i32::MIN <= total(int_values(values@)) <= i32::MAX),
        },
{
    let ghost all = int_values(values@);
    let mut acc: i128 = 0;
    let mut i: usize = 0;
    while i < values.len()
        invariant
            i <= values.len(),
            all == int_values(values@),
            acc == total(all.take(i as int)),
            -(i * 0x8000_0000) <= acc <= i * 0x8000_0000,
        decreases values.len() - i,
    {
        assert(all.take(i + 1).drop_last() == all.take(i as int));
        acc = acc + values[i] as i128;
        i = i + 1;
    }
    assert(all.take(values.len() as int) == all);
    if acc < -0x8000_0000 || acc > 0x7FFF_FFFF {
        None
    } else {
        Some(acc as i32)
    }
}

/// The answer for a text under a pattern: the sum of the calibration values
/// of its lines.
pub open spec fn calibration_sum(content: Seq<char>, pattern: Seq<char>) -> int {
    total(calibration_values(pieces(content, Delimiter::One('\n')), pattern))
}

/// The answer for a text: the sum of its calibration values, and the
/// warnings.
#[derive(Debug, PartialEq, Eq)]
pub struct Answer {
    /// The sum of the calibration values.
    pub sum: i32,
    /// The used tokens that stand for nothing.
    pub unknown: Vec<String>,
}

/// What `solve` owes for a text and a pattern that the engine accepts.
pub open spec fn solved(
    content: Seq<char>,
    pattern: Seq<char>,
    res: Result<Answer, CalibrationError>,
) -> bool {
    let sum = calibration_sum(content, pattern);
    if i32::MIN <= sum <= i32::MAX {
        &&& res is Ok
        &&& res->Ok_0.sum as int == sum
        &&& string_views(res->Ok_0.unknown@) == unknown_tokens(
            pieces(content, Delimiter::One('\n')),
            pattern,
        )
    } else {
        res == Err::<Answer, CalibrationError>(CalibrationError::Overflow)
    }
}

/// Sums the calibration values of the lines of a text under a pattern.
pub fn solve(content: &str, regex_pattern: &str) -> (res: Result<Answer, CalibrationError>)
    ensures
        !pattern_compiles(regex_pattern@) ==> res == Err::<Answer, CalibrationError>(
            CalibrationError::Pattern,
        ),
        pattern_compiles(regex_pattern@) ==> solved(content@, regex_pattern@, res),
{
    let lines = lines_of(content);
    match calibrate(&lines, regex_pattern) {
        Err(e) => Err(e),
        Ok(c) => match sum_values(&c.values) {
            Some(sum) => Ok(Answer { sum, unknown: c.unknown }),
            None => Err(CalibrationError::Overflow),
        },
    }
}

/// The sum of the calibration values of a text, digits only.
pub fn first_challenge_a(file_content: &str) -> (res: Result<Answer, CalibrationError>)
    ensures
        !pattern_compiles(DIGITS@) ==> res == Err::<Answer, CalibrationError>(
            CalibrationError::Pattern,
        ),
        pattern_compiles(DIGITS@) ==> solved(file_content@, DIGITS@, res),
{
    solve(file_content, DIGITS)
}

/// The sum of the calibration values of a text, digits and number words.
pub fn first_challenge_b(file_content: &str) -> (res: Result<Answer, CalibrationError>)
    ensures
        !pattern_compiles(DIGITS_AND_WORDS@) ==> res == Err::<Answer, CalibrationError>(
            CalibrationError::Pattern,
        ),
        pattern_compiles(DIGITS_AND_WORDS@) ==> solved(file_content@, DIGITS_AND_WORDS@, res),
{
    solve(file_content, DIGITS_AND_WORDS)
}

/// A line with exactly one token has the calibration value 11 times the
/// value of that token.
pub proof fn lemma_single_token(pattern: Seq<char>, line: Seq<char>)
    requires
        line_tokens(pattern, line).len() == 1,
    ensures
        line_value(line_tokens(pattern, line)) == Some(
            11 * token_value(line_tokens(pattern, line)[0]),
        ),
        calibration_values(seq![line], pattern) == seq![
            11 * token_value(line_tokens(pattern, line)[0]),
        ],
{
    let lines = seq![line];
    assert(lines.drop_last() == Seq::<Seq<char>>::empty());
    assert(lines.last() == line);
    assert(calibration_values(lines.drop_last(), pattern) == Seq::<int>::empty());
    assert(calibration_values(lines, pattern) == Seq::<int>::empty().push(
        11 * token_value(line_tokens(pattern, line)[0]),
    ));
}

/// The values of two runs of lines, one after the other, are the values of
/// the first run followed by those of the second.
pub proof fn lemma_values_concat(a: Seq<Seq<char>>, b: Seq<Seq<char>>, pattern: Seq<char>)
    ensures
        calibration_values(a + b, pattern) == calibration_values(a, pattern) + calibration_values(
            b,
            pattern,
        ),
    decreases b.len(),
{
    if b.len() == 0 {
        assert(a + b == a);
        assert(calibration_values(a, pattern) + Seq::<int>::empty() == calibration_values(
            a,
            pattern,
        ));
    } else {
        assert((a + b).drop_last() == a + b.drop_last());
        assert((a + b).last() == b.last());
        lemma_values_concat(a, b.drop_last(), pattern);
        let front = calibration_values(a, pattern);
        let back = calibration_values(b.drop_last(), pattern);
        match line_value(line_tokens(pattern, b.last())) {
            Some(v) => {
                assert((front + back).push(v) == front + back.push(v));
            },
            None => {},
        }
    }
}

/// A line without tokens contributes no entry: the values are those of the
/// lines around it.
pub proof fn lemma_tokenless_line_skipped(
    before: Seq<Seq<char>>,
    line: Seq<char>,
    after: Seq<Seq<char>>,
    pattern: Seq<char>,
)
    requires
        line_tokens(pattern, line).len() == 0,
    ensures
        calibration_values(before.push(line) + after, pattern) == calibration_values(
            before + after,
            pattern,
        ),
{
    assert(before.push(line).drop_last() == before);
    lemma_values_concat(before.push(line), after, pattern);
    lemma_values_concat(before, after, pattern);
}

/// There is at most one value for each line, and fewer values than lines
/// where some line has no token.
pub proof fn lemma_values_len(lines: Seq<Seq<char>>, pattern: Seq<char>)
    ensures
        calibration_values(lines, pattern).len() <= lines.len(),
        (exists|k: int| 0 <= k < lines.len() && (#[trigger] line_tokens(pattern, lines[k])).len() == 0)
            ==> calibration_values(lines, pattern).len() < lines.len(),
        (forall|k: int| 0 <= k < lines.len() ==> (#[trigger] line_tokens(pattern, lines[k])).len() > 0)
            ==> calibration_values(lines, pattern).len() == lines.len(),
    decreases lines.len(),
{
    if lines.len() > 0 {
        let front = lines.drop_last();
        lemma_values_len(front, pattern);
        assert(forall|k: int| 0 <= k < front.len() ==> front[k] == lines[k]);
        if exists|k: int|
            0 <= k < lines.len() && (#[trigger] line_tokens(pattern, lines[k])).len() == 0 {
            let k = choose|k: int|
                0 <= k < lines.len() && (#[trigger] line_tokens(pattern, lines[k])).len() == 0;
            if k < front.len() {
                assert(line_tokens(pattern, front[k]).len() == 0);
            }
        }
        if forall|k: int|
            0 <= k < lines.len() ==> (#[trigger] line_tokens(pattern, lines[k])).len() > 0 {
            assert forall|k: int| 0 <= k < front.len() implies (#[trigger] line_tokens(
                pattern,
                front[k],
            )).len() > 0 by {
                assert(front[k] == lines[k]);
            }
            assert(line_tokens(pattern, lines[lines.len() - 1]).len() > 0);
        }
    }
}

/// A token stands for a single decimal digit.
pub proof fn lemma_token_value_range(token: Seq<char>)
    ensures
        0 <= token_value(token) <= 9,
{
}

/// Every calibration value is a number of two decimal digits at most.
pub proof fn lemma_values_range(lines: Seq<Seq<char>>, pattern: Seq<char>)
    ensures
        forall|k: int|
            0 <= k < calibration_values(lines, pattern).len() ==> 0 <= #[trigger] calibration_values(
                lines,
                pattern,
            )[k] <= 99,
    decreases lines.len(),
{
    if lines.len() > 0 {
        let front = calibration_values(lines.drop_last(), pattern);
        let tokens = line_tokens(pattern, lines.last());
        lemma_values_range(lines.drop_last(), pattern);
        if tokens.len() > 0 {
            lemma_token_value_range(tokens.first());
            lemma_token_value_range(tokens.last());
            let v = 10 * token_value(tokens.first()) + token_value(tokens.last());
            assert(calibration_values(lines, pattern) == front.push(v));
            assert forall|k: int| 0 <= k < front.push(v).len() implies 0 <= #[trigger] front.push(
                v,
            )[k] <= 99 by {
                if k < front.len() {
                    assert(front.push(v)[k] == front[k]);
                }
            }
        }
    }
}

} // verus!
