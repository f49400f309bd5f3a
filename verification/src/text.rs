//! Character-level helpers shared by both solvers.

use vstd::prelude::*;
use vstd::std_specs::iter::IteratorSpec;
use vstd::string::*;

verus! {

/// The characters of a string slice, in order.
pub fn chars_of(s: &str) -> (out: Vec<char>)
    ensures
        out@ == s@,
{
    broadcast use vstd::string::group_string_axioms;

    let mut rest = s.chars();
    let mut out: Vec<char> = Vec::new();
    assert(out@ + rest.remaining() == s@);
    loop
        invariant
            out@ + rest.remaining() == s@,
            rest.obeys_prophetic_iter_laws(),
        decreases s@.len() - out@.len(),
    {
        let ghost before = rest.remaining();
        match rest.next() {
            Some(c) => {
                assert(before == seq![c] + before.drop_first());
                out.push(c);
            },
            None => {
                assert(before.len() == 0);
                assert(out@ + before == out@);
                return out;
            },
        }
    }
}

/// An upper-case ASCII letter becomes its lower-case form; every other
/// character is kept.
pub open spec fn ascii_lower(c: char) -> char {
    if 'A' <= c && c <= 'Z' {
        ((c as u8 + 32) as u8) as char
    } else {
        c
    }
}

/// A text with each character passed through `ascii_lower`.
pub open spec fn lowered(s: Seq<char>) -> Seq<char> {
    Seq::new(s.len(), |i: int| ascii_lower(s[i]))
}

/// Computes `ascii_lower`.
pub fn lower_char(c: char) -> (out: char)
    ensures
        out == ascii_lower(c),
{
    if 'A' <= c && c <= 'Z' {
        let b: u8 = c as u8;
        (b + 32) as char
    } else {
        c
    }
}

/// Computes `lowered`.
pub fn lower_all(chars: &Vec<char>) -> (out: Vec<char>)
    ensures
        out@ == lowered(chars@),
{
    let mut out: Vec<char> = Vec::new();
    let mut i: usize = 0;
    while i < chars.len()
        invariant
            i <= chars.len(),
            out@ == lowered(chars@).take(i as int),
        decreases chars.len() - i,
    {
        out.push(lower_char(chars[i]));
        i = i + 1;
    }
    out
}

/// Whether a sequence of characters spells exactly the given string slice.
pub fn spells(chars: &Vec<char>, word: &str) -> (same: bool)
    ensures
        same == (chars@ == word@),
{
    let n: usize = word.unicode_len();
    if chars.len() != n {
        return false;
    }
    let mut i: usize = 0;
    while i < n
        invariant
            n == word@.len(),
            chars@.len() == n,
            i <= n,
            chars@.take(i as int) == word@.take(i as int),
        decreases n - i,
    {
        if chars[i] != word.get_char(i) {
            return false;
        }
        assert(chars@.take(i + 1) == chars@.take(i as int).push(chars@[i as int]));
        assert(word@.take(i + 1) == word@.take(i as int).push(word@[i as int]));
        i = i + 1;
    }
    assert(chars@.take(n as int) == chars@);
    assert(word@.take(n as int) == word@);
    true
}

/// The view of each character vector of a sequence.
pub open spec fn char_views(items: Seq<Vec<char>>) -> Seq<Seq<char>> {
    Seq::new(items.len(), |i: int| items[i]@)
}

/// The characters with the Unicode property White_Space.
pub open spec fn is_space(c: char) -> bool {
    let n = c as u32;
    ||| 0x09 <= n <= 0x0D
    ||| n == 0x20
    ||| n == 0x85
    ||| n == 0xA0
    ||| n == 0x1680
    ||| 0x2000 <= n <= 0x200A
    ||| n == 0x2028
    ||| n == 0x2029
    ||| n == 0x202F
    ||| n == 0x205F
    ||| n == 0x3000
}

/// Computes `is_space`.
pub fn is_space_char(c: char) -> (yes: bool)
    ensures
        yes == is_space(c),
{
    let n: u32 = c as u32;
    (0x09 <= n && n <= 0x0D) || n == 0x20 || n == 0x85 || n == 0xA0 || n == 0x1680 || (0x2000 <= n
        && n <= 0x200A) || n == 0x2028 || n == 0x2029 || n == 0x202F || n == 0x205F || n == 0x3000
}

/// What separates the parts of a text.
#[derive(Debug, Clone, Copy)]
pub enum Delimiter {
    /// One given character.
    One(char),
    /// Either of two given characters.
    Either(char, char),
    /// Any white-space character.
    Space,
}

/// Whether a character separates parts under a delimiter.
pub open spec fn delimits(d: Delimiter, c: char) -> bool {
    match d {
        Delimiter::One(a) => c == a,
        Delimiter::Either(a, b) => c == a || c == b,
        Delimiter::Space => is_space(c),
    }
}

/// The parts of a text between delimiters, in order, with an empty part
/// where two delimiters meet or one stands at an end of the text.
pub open spec fn pieces(s: Seq<char>, d: Delimiter) -> Seq<Seq<char>>
    decreases s.len(),
{
    if s.len() == 0 {
        seq![Seq::<char>::empty()]
    } else {
        let before = pieces(s.drop_last(), d);
        if delimits(d, s.last()) {
            before.push(Seq::<char>::empty())
        } else {
            before.drop_last().push(before.last().push(s.last()))
        }
    }
}

/// The parts that are not empty, in order.
pub open spec fn nonempty(parts: Seq<Seq<char>>) -> Seq<Seq<char>>
    decreases parts.len(),
{
    if parts.len() == 0 {
        Seq::<Seq<char>>::empty()
    } else if parts.last().len() > 0 {
        nonempty(parts.drop_last()).push(parts.last())
    } else {
        nonempty(parts.drop_last())
    }
}

/// The maximal runs of characters that are not white space, in order.
pub open spec fn fields(s: Seq<char>) -> Seq<Seq<char>> {
    nonempty(pieces(s, Delimiter::Space))
}

/// Computes `delimits`.
pub fn is_delimiter(d: Delimiter, c: char) -> (yes: bool)
    ensures
        yes == delimits(d, c),
{
    match d {
        Delimiter::One(a) => c == a,
        Delimiter::Either(a, b) => c == a || c == b,
        Delimiter::Space => is_space_char(c),
    }
}

/// Splits a text at each delimiter.
pub fn split(text: &Vec<char>, d: Delimiter) -> (parts: Vec<Vec<char>>)
    ensures
        char_views(parts@) == pieces(text@, d),
        parts.len() >= 1,
{
    let mut done: Vec<Vec<char>> = Vec::new();
    let mut current: Vec<char> = Vec::new();
    let mut i: usize = 0;
    assert(text@.take(0) == Seq::<char>::empty());
    assert(char_views(done@).push(current@) == pieces(text@.take(0), d));
    while i < text.len()
        invariant
            i <= text.len(),
            char_views(done@).push(current@) == pieces(text@.take(i as int), d),
        decreases text.len() - i,
    {
        let c = text[i];
        let ghost seen = char_views(done@);
        let ghost open_part = current@;
        assert(text@.take(i + 1).drop_last() == text@.take(i as int));
        assert(seen.push(open_part).drop_last() == seen);
        if is_delimiter(d, c) {
            done.push(current);
            current = Vec::new();
            assert(char_views(done@) == seen.push(open_part));
        } else {
            current.push(c);
        }
        i = i + 1;
    }
    assert(text@.take(text.len() as int) == text@);
    let ghost seen = char_views(done@);
    done.push(current);
    assert(char_views(done@) == seen.push(current@));
    done
}

/// Splits a text into its fields: the runs of characters between white space.
pub fn split_fields(text: &Vec<char>) -> (out: Vec<Vec<char>>)
    ensures
        char_views(out@) == fields(text@),
{
    let parts = split(text, Delimiter::Space);
    let mut out: Vec<Vec<char>> = Vec::new();
    let mut i: usize = 0;
    let ghost all = char_views(parts@);
    while i < parts.len()
        invariant
            i <= parts.len(),
            all == char_views(parts@),
            char_views(out@) == nonempty(all.take(i as int)),
        decreases parts.len() - i,
    {
        let ghost kept = char_views(out@);
        assert(all.take(i + 1).drop_last() == all.take(i as int));
        assert(all.take(i + 1).last() == parts@[i as int]@);
        if parts[i].len() > 0 {
            out.push(parts[i].clone());
            assert(char_views(out@) == kept.push(parts@[i as int]@));
        }
        i = i + 1;
    }
    assert(all.take(parts.len() as int) == all);
    out
}

/// A text without the white space at its start.
pub open spec fn trim_start(s: Seq<char>) -> Seq<char>
    decreases s.len(),
{
    if s.len() > 0 && is_space(s[0]) {
        trim_start(s.skip(1))
    } else {
        s
    }
}

/// A text without the white space at its end.
pub open spec fn trim_end(s: Seq<char>) -> Seq<char>
    decreases s.len(),
{
    if s.len() > 0 && is_space(s.last()) {
        trim_end(s.drop_last())
    } else {
        s
    }
}

/// A text without the white space at either end.
pub open spec fn trimmed(s: Seq<char>) -> Seq<char> {
    trim_end(trim_start(s))
}

/// Removes the white space at both ends of a text.
pub fn trim(text: &Vec<char>) -> (out: Vec<char>)
    ensures
        out@ == trimmed(text@),
{
    let n: usize = text.len();
    let mut lo: usize = 0;
    assert(text@.skip(0) == text@);
    while lo < n && is_space_char(text[lo])
        invariant
            n == text.len(),
            lo <= n,
            trim_start(text@) == trim_start(text@.skip(lo as int)),
        decreases n - lo,
    {
        assert(text@.skip(lo as int).skip(1) == text@.skip(lo + 1));
        lo = lo + 1;
    }
    assert(trim_start(text@) == text@.skip(lo as int));
    let mut hi: usize = n;
    assert(text@.subrange(lo as int, n as int) == text@.skip(lo as int));
    while hi > lo && is_space_char(text[hi - 1])
        invariant
            n == text.len(),
            lo <= hi <= n,
            trimmed(text@) == trim_end(text@.subrange(lo as int, hi as int)),
        decreases hi - lo,
    {
        assert(text@.subrange(lo as int, hi as int).drop_last() == text@.subrange(
            lo as int,
            hi - 1,
        ));
        hi = hi - 1;
    }
    assert(trimmed(text@) == text@.subrange(lo as int, hi as int));
    let mut out: Vec<char> = Vec::new();
    let mut i: usize = lo;
    while i < hi
        invariant
            lo <= i <= hi <= text.len(),
            out@ == text@.subrange(lo as int, i as int),
        decreases hi - i,
    {
        out.push(text[i]);
        i = i + 1;
    }
    out
}

/// Whether a character is an ASCII decimal digit.
pub open spec fn is_digit(c: char) -> bool {
    '0' <= c && c <= '9'
}

/// Whether a text holds ASCII decimal digits only.
pub open spec fn all_digits(s: Seq<char>) -> bool {
    forall|i: int| 0 <= i < s.len() ==> is_digit(#[trigger] s[i])
}

/// The number that a text of decimal digits writes.
pub open spec fn digits_value(s: Seq<char>) -> int
    decreases s.len(),
{
    if s.len() == 0 {
        0
    } else {
        10 * digits_value(s.drop_last()) + (s.last() as int - '0' as int)
    }
}

/// The integer that a text writes in decimal: an optional sign, `+` or `-`,
/// and then at least one digit, nothing else.
pub open spec fn signed_value(s: Seq<char>) -> Option<int> {
    if s.len() == 0 {
        None
    } else {
        let body = if s[0] == '-' || s[0] == '+' {
            s.skip(1)
        } else {
            s
        };
        if body.len() == 0 || !all_digits(body) {
            None
        } else if s[0] == '-' {
            Some(-digits_value(body))
        } else {
            Some(digits_value(body))
        }
    }
}

/// The integer that a text writes in decimal, where it fits 32 bits with sign.
pub open spec fn parsed_i32(s: Seq<char>) -> Option<int> {
    match signed_value(s) {
        Some(v) => if i32::MIN <= v <= i32::MAX {
            Some(v)
        } else {
            None
        },
        None => None,
    }
}

/// The digits at the start of a number write no more than all of its digits.
pub proof fn lemma_digits_prefix(s: Seq<char>, k: int)
    requires
        all_digits(s),
        0 <= k <= s.len(),
    ensures
        0 <= digits_value(s.take(k)) <= digits_value(s),
    decreases s.len(),
{
    if s.len() == 0 {
        assert(s.take(k) == s);
    } else {
        let front = s.drop_last();
        assert(is_digit(s.last()));
        assert(all_digits(front)) by {
            assert forall|i: int| 0 <= i < front.len() implies is_digit(#[trigger] front[i]) by {
                assert(front[i] == s[i]);
            }
        }
        if k == s.len() {
            assert(s.take(k) == s);
            lemma_digits_prefix(front, k - 1);
        } else {
            assert(s.take(k) == front.take(k));
            lemma_digits_prefix(front, k);
        }
    }
}

/// Reads a decimal integer: an optional sign and digits, nothing else, and
/// a value within 32 bits with sign.
pub fn parse_i32(text: &Vec<char>) -> (res: Option<i32>)
    ensures
        match res {
            Some(v) => parsed_i32(text@) == Some(v as int),
            None => parsed_i32(text@) is None,
        },
{
    let n: usize = text.len();
    if n == 0 {
        return None;
    }
    let negative: bool = text[0] == '-';
    let start: usize = if text[0] == '-' || text[0] == '+' {
        1
    } else {
        0
    };
    if start == n {
        return None;
    }
    let ghost body = text@.skip(start as int);
    let mut acc: i64 = 0;
    let mut i: usize = start;
    assert(body.take(0) == Seq::<char>::empty());
    assert(text@.skip(0) == text@);
    while i < n
        invariant
            n == text.len(),
            start <= i <= n,
            start < n,
            negative == (text@[0] == '-'),
            start == (if text@[0] == '-' || text@[0] == '+' {
                1int
            } else {
                0int
            }),
            body == text@.skip(start as int),
            body == (if text@[0] == '-' || text@[0] == '+' {
                text@.skip(1)
            } else {
                text@
            }),
            all_digits(body.take(i - start)),
            acc == digits_value(body.take(i - start)),
            0 <= acc <= 0x8000_0000,
        decreases n - i,
    {
        let c = text[i];
        if !('0' <= c && c <= '9') {
            assert(!is_digit(body[i - start]));
            return None;
        }
        let d: u8 = c as u8 - 48;
        acc = acc * 10 + d as i64;
        assert(body.take(i + 1 - start).drop_last() == body.take(i - start));
        assert(all_digits(body.take(i + 1 - start))) by {
            assert forall|j: int| 0 <= j < i + 1 - start implies is_digit(
                #[trigger] body.take(i + 1 - start)[j],
            ) by {
                if j < i - start {
                    assert(body.take(i + 1 - start)[j] == body.take(i - start)[j]);
                }
            }
        }
        if acc > 0x8000_0000 {
            proof {
                if all_digits(body) {
                    lemma_digits_prefix(body, i + 1 - start);
                }
            }
            return None;
        }
        i = i + 1;
    }
    assert(body.take(n - start) == body);
    if negative {
        Some((-acc) as i32)
    } else if acc > 0x7FFF_FFFF {
        None
    } else {
        Some(acc as i32)
    }
}

/// The view of each string of a sequence.
pub open spec fn string_views(items: Seq<String>) -> Seq<Seq<char>> {
    Seq::new(items.len(), |i: int| items[i]@)
}

/// The view of each string slice of a sequence.
pub open spec fn str_views(items: Seq<&str>) -> Seq<Seq<char>> {
    Seq::new(items.len(), |i: int| items[i]@)
}

/// The characters of each string slice of a sequence.
pub fn char_lines(strings: &Vec<&str>) -> (out: Vec<Vec<char>>)
    ensures
        char_views(out@) == str_views(strings@),
{
    let mut out: Vec<Vec<char>> = Vec::new();
    let mut i: usize = 0;
    while i < strings.len()
        invariant
            i <= strings.len(),
            char_views(out@) == str_views(strings@).take(i as int),
        decreases strings.len() - i,
    {
        let ghost before = char_views(out@);
        let line = chars_of(strings[i]);
        out.push(line);
        assert(char_views(out@) == before.push(strings@[i as int]@));
        i = i + 1;
    }
    out
}

/// The lines of a text: its parts between line feeds.
pub fn lines_of(content: &str) -> (out: Vec<Vec<char>>)
    ensures
        char_views(out@) == pieces(content@, Delimiter::One('\n')),
{
    split(&chars_of(content), Delimiter::One('\n'))
}

} // verus!
