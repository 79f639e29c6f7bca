//! Scanning of texts: lines, words and numbers.

use crate::text;
use vstd::prelude::*;

verus! {

/// Appends a character to a string: `String::push`, which adds the character at the end
/// and changes nothing else.
pub assume_specification[ String::push ](s: &mut String, ch: char)
    ensures
        final(s)@ == old(s)@.push(ch),
;

/// The characters with the Unicode property White_Space.
pub open spec fn white(c: char) -> bool {
    let code = c as u32;
    ||| 9 <= code <= 13
    ||| code == 32
    ||| code == 0x85
    ||| code == 0xA0
    ||| code == 0x1680
    ||| 0x2000 <= code <= 0x200A
    ||| code == 0x2028
    ||| code == 0x2029
    ||| code == 0x202F
    ||| code == 0x205F
    ||| code == 0x3000
}

/// Whether a character is white space.
pub fn is_white(c: char) -> (result: bool)
    ensures
        result == white(c),
{
    let code: u32 = c as u32;
    (9 <= code && code <= 13) || code == 32 || code == 0x85 || code == 0xA0 || code == 0x1680 || (0x2000 <= code
        && code <= 0x200A) || code == 0x2028 || code == 0x2029 || code == 0x202F || code == 0x205F || code
        == 0x3000
}

/// The rows of characters.
pub open spec fn rows_of(rows: Seq<Vec<char>>) -> Seq<Seq<char>> {
    Seq::new(rows.len(), |i: int| rows[i]@)
}

proof fn lemma_rows_push(rows: Seq<Vec<char>>, row: Vec<char>)
    ensures
        rows_of(rows.push(row)) == rows_of(rows).push(row@),
{
    assert(rows_of(rows.push(row)) =~= rows_of(rows).push(row@));
}

/// The lines that end within a text, and what follows the last of them.
pub open spec fn line_scan(text: Seq<char>) -> (Seq<Seq<char>>, Seq<char>)
    decreases text.len(),
{
    if text.len() == 0 {
        (Seq::empty(), Seq::empty())
    } else {
        let (done, open) = line_scan(text.drop_last());
        if text.last() == '\n' {
            (done.push(open), Seq::empty())
        } else {
            (done, open.push(text.last()))
        }
    }
}

/// The lines of a text, without their ends.
pub open spec fn lines(text: Seq<char>) -> Seq<Seq<char>> {
    line_scan(text).0.push(line_scan(text).1)
}

/// The words that end within a text, and the word that is open at its end.
pub open spec fn word_scan(text: Seq<char>) -> (Seq<Seq<char>>, Seq<char>)
    decreases text.len(),
{
    if text.len() == 0 {
        (Seq::empty(), Seq::empty())
    } else {
        let (done, open) = word_scan(text.drop_last());
        if !white(text.last()) {
            (done, open.push(text.last()))
        } else if open.len() > 0 {
            (done.push(open), Seq::empty())
        } else {
            (done, open)
        }
    }
}

/// The words of a text: its longest stretches without white space.
pub open spec fn words(text: Seq<char>) -> Seq<Seq<char>> {
    let (done, open) = word_scan(text);
    if open.len() > 0 {
        done.push(open)
    } else {
        done
    }
}

/// The text without the white space at its end.
pub open spec fn trim_end(text: Seq<char>) -> Seq<char>
    decreases text.len(),
{
    if text.len() > 0 && white(text.last()) {
        trim_end(text.drop_last())
    } else {
        text
    }
}

/// The text without the white space at its start.
pub open spec fn trim_start(text: Seq<char>) -> Seq<char>
    decreases text.len(),
{
    if text.len() > 0 && white(text[0]) {
        trim_start(text.drop_first())
    } else {
        text
    }
}

/// The text without the white space at its ends.
pub open spec fn trimmed(text: Seq<char>) -> Seq<char> {
    trim_end(trim_start(text))
}

/// A character is a decimal digit.
pub open spec fn digit(c: char) -> bool {
    '0' <= c <= '9'
}

/// Every character is a decimal digit.
pub open spec fn all_digits(text: Seq<char>) -> bool {
    forall|i: int| 0 <= i < text.len() ==> digit(#[trigger] text[i])
}

/// The number that a row of decimal digits denotes.
pub open spec fn digits_value(text: Seq<char>) -> nat
    decreases text.len(),
{
    if text.len() == 0 {
        0
    } else {
        10 * digits_value(text.drop_last()) + ((text.last() as nat) - 48) as nat
    }
}

/// What a text denotes as a number without sign, up to a limit: digits, at least one.
pub open spec fn magnitude(text: Seq<char>, limit: nat) -> Option<nat> {
    if text.len() > 0 && all_digits(text) && digits_value(text) <= limit {
        Some(digits_value(text))
    } else {
        None
    }
}

/// What a text denotes as an unsigned number up to a limit; a plus sign may lead.
pub open spec fn unsigned_value(text: Seq<char>, limit: nat) -> Option<nat> {
    if text.len() > 0 && text[0] == '+' {
        magnitude(text.drop_first(), limit)
    } else {
        magnitude(text, limit)
    }
}

/// What a text denotes as a signed 32-bit number; a plus or minus sign may lead.
pub open spec fn i32_value(text: Seq<char>) -> Option<int> {
    if text.len() > 0 && text[0] == '-' {
        match magnitude(text.drop_first(), 0x8000_0000) {
            Some(value) => Some(-(value as int)),
            None => None,
        }
    } else {
        match unsigned_value(text, 0x7fff_ffff) {
            Some(value) => Some(value as int),
            None => None,
        }
    }
}

/// The string with the given characters.
pub fn string_of(chars: &Vec<char>) -> (s: String)
    ensures
        s@ == chars@,
{
    let mut s: String = String::new();
    let mut i: usize = 0;
    assert(s@ =~= chars@.take(0));
    while i < chars.len()
        invariant
            i <= chars@.len(),
            s@ == chars@.take(i as int),
        decreases chars.len() - i,
    {
        s.push(chars[i]);
        assert(s@ =~= chars@.take(i + 1));
        i += 1;
    }
    assert(chars@.take(i as int) =~= chars@);
    s
}

/// The lines of a text, without their ends.
pub fn split_lines(text: &Vec<char>) -> (rows: Vec<Vec<char>>)
    ensures
        rows_of(rows@) == lines(text@),
{
    let mut done: Vec<Vec<char>> = Vec::new();
    let mut open: Vec<char> = Vec::new();
    let mut i: usize = 0;
    proof {
        assert(text@.take(0) =~= Seq::<char>::empty());
        assert(rows_of(done@) =~= Seq::<Seq<char>>::empty());
    }
    while i < text.len()
        invariant
            i <= text@.len(),
            (rows_of(done@), open@) == line_scan(text@.take(i as int)),
        decreases text.len() - i,
    {
        let c: char = text[i];
        proof {
            assert(text@.take(i + 1).drop_last() =~= text@.take(i as int));
            assert(text@.take(i + 1).last() == c);
        }
        if c == '\n' {
            proof {
                lemma_rows_push(done@, open);
            }
            done.push(open);
            open = Vec::new();
        } else {
            open.push(c);
        }
        i += 1;
    }
    assert(text@.take(i as int) =~= text@);
    proof {
        lemma_rows_push(done@, open);
    }
    done.push(open);
    done
}

/// The words of a text.
pub fn split_words(text: &Vec<char>) -> (rows: Vec<Vec<char>>)
    ensures
        rows_of(rows@) == words(text@),
{
    let mut done: Vec<Vec<char>> = Vec::new();
    let mut open: Vec<char> = Vec::new();
    let mut i: usize = 0;
    proof {
        assert(text@.take(0) =~= Seq::<char>::empty());
        assert(rows_of(done@) =~= Seq::<Seq<char>>::empty());
    }
    while i < text.len()
        invariant
            i <= text@.len(),
            (rows_of(done@), open@) == word_scan(text@.take(i as int)),
        decreases text.len() - i,
    {
        let c: char = text[i];
        proof {
            assert(text@.take(i + 1).drop_last() =~= text@.take(i as int));
            assert(text@.take(i + 1).last() == c);
        }
        if !is_white(c) {
            open.push(c);
        } else if open.len() > 0 {
            proof {
                lemma_rows_push(done@, open);
            }
            done.push(open);
            open = Vec::new();
        }
        i += 1;
    }
    assert(text@.take(i as int) =~= text@);
    if open.len() > 0 {
        proof {
            lemma_rows_push(done@, open);
        }
        done.push(open);
    }
    done
}

/// Removes the white space at the end.
pub fn drop_trailing_white(text: &mut Vec<char>)
    ensures
        final(text)@ == trim_end(old(text)@),
{
    let ghost all = text@;
    while text.len() > 0 && is_white(text[text.len() - 1])
        invariant
            trim_end(text@) == trim_end(all),
        decreases text.len(),
    {
        let ghost before = text@;
        let last: Option<char> = text.pop();
        assert(text@ =~= before.drop_last());
    }
}

/// The text without the white space at its ends.
pub fn trim(text: &Vec<char>) -> (result: Vec<char>)
    ensures
        result@ == trimmed(text@),
{
    let mut start: usize = 0;
    assert(text@.skip(0) =~= text@);
    while start < text.len() && is_white(text[start])
        invariant
            start <= text@.len(),
            trim_start(text@.skip(start as int)) == trim_start(text@),
        decreases text.len() - start,
    {
        assert(text@.skip(start as int).drop_first() =~= text@.skip(start + 1));
        start += 1;
    }
    let mut result: Vec<char> = Vec::new();
    let mut i: usize = start;
    while i < text.len()
        invariant
            start <= i <= text@.len(),
            result@ == text@.subrange(start as int, i as int),
        decreases text.len() - i,
    {
        result.push(text[i]);
        assert(result@ =~= text@.subrange(start as int, i + 1));
        i += 1;
    }
    assert(result@ =~= text@.skip(start as int));
    drop_trailing_white(&mut result);
    result
}

proof fn lemma_digits_grow(text: Seq<char>, i: int)
    requires
        0 <= i <= text.len(),
        all_digits(text),
    ensures
        digits_value(text.take(i)) <= digits_value(text),
    decreases text.len(),
{
    if i == text.len() {
        assert(text.take(i) =~= text);
    } else {
        assert(text.drop_last().take(i) =~= text.take(i));
        lemma_digits_grow(text.drop_last(), i);
        assert(digit(text[text.len() - 1]));
    }
}

/// What the characters from a position on denote as a number without sign.
fn parse_magnitude(text: &Vec<char>, start: usize, limit: u64) -> (value: Option<u64>)
    requires
        start <= text@.len(),
    ensures
        match value {
            Some(v) => magnitude(text@.skip(start as int), limit as nat) == Some(v as nat),
            None => magnitude(text@.skip(start as int), limit as nat) is None,
        },
{
    let ghost body = text@.skip(start as int);
    if start == text.len() {
        return None;
    }
    let mut value: u64 = 0;
    let mut i: usize = start;
    assert(body.take(0) =~= Seq::<char>::empty());
    while i < text.len()
        invariant
            start <= i <= text@.len(),
            body == text@.skip(start as int),
            all_digits(body.take(i - start)),
            value == digits_value(body.take(i - start)),
            value <= limit,
        decreases text.len() - i,
    {
        let c: char = text[i];
        let ghost k = i - start;
        proof {
            assert(body[k] == c);
            assert(body.take(k + 1).drop_last() =~= body.take(k));
            assert(body.take(k + 1).last() == c);
        }
        if !('0' <= c && c <= '9') {
            assert(!digit(body[k]));
            return None;
        }
        let d: u64 = (c as u32 - 48) as u64;
        assert(d == ((c as nat) - 48) as nat);
        let wide: u128 = 10u128 * (value as u128) + d as u128;
        if wide > limit as u128 {
            proof {
                if all_digits(body) {
                    lemma_digits_grow(body, k + 1);
                    assert(digits_value(body.take(k + 1)) == wide);
                }
            }
            return None;
        }
        value = wide as u64;
        proof {
            assert forall|j: int| 0 <= j < k + 1 implies digit(#[trigger] body.take(k + 1)[j]) by {
                if j < k {
                    assert(digit(body.take(k)[j]));
                }
            }
        }
        i += 1;
    }
    assert(body.take(i - start) =~= body);
    Some(value)
}

/// What a text denotes as an unsigned number up to a limit.
pub fn parse_unsigned(text: &Vec<char>, limit: u64) -> (value: Option<u64>)
    ensures
        match value {
            Some(v) => unsigned_value(text@, limit as nat) == Some(v as nat),
            None => unsigned_value(text@, limit as nat) is None,
        },
{
    if text.len() > 0 && text[0] == '+' {
        assert(text@.skip(1) =~= text@.drop_first());
        parse_magnitude(text, 1, limit)
    } else {
        assert(text@.skip(0) =~= text@);
        parse_magnitude(text, 0, limit)
    }
}

/// What a text denotes as a signed 32-bit number.
pub fn parse_i32(text: &Vec<char>) -> (value: Option<i32>)
    ensures
        match value {
            Some(v) => i32_value(text@) == Some(v as int),
            None => i32_value(text@) is None,
        },
{
    if text.len() > 0 && text[0] == '-' {
        assert(text@.skip(1) =~= text@.drop_first());
        match parse_magnitude(text, 1, 0x8000_0000) {
            Some(value) => Some((-(value as i64)) as i32),
            None => None,
        }
    } else {
        match parse_unsigned(text, 0x7fff_ffff) {
            Some(value) => Some(value as i32),
            None => None,
        }
    }
}

/// Text without line ends lengthens the open line.
pub proof fn lemma_line_grows(text: Seq<char>, tail: Seq<char>)
    requires
        !tail.contains('\n'),
    ensures
        line_scan(text + tail) == (line_scan(text).0, line_scan(text).1 + tail),
    decreases tail.len(),
{
    if tail.len() == 0 {
        assert(text + tail =~= text);
        assert(line_scan(text).1 + tail =~= line_scan(text).1);
    } else {
        let less = tail.drop_last();
        assert forall|i: int| 0 <= i < less.len() implies #[trigger] less[i] != '\n' by {
            assert(tail[i] == less[i]);
            assert(tail.contains(tail[i]));
        }
        assert(tail.contains(tail.last()));
        lemma_line_grows(text, less);
        assert((text + tail).drop_last() =~= text + less);
        assert((line_scan(text).1 + less).push(tail.last()) =~= line_scan(text).1 + tail);
    }
}

/// A line end closes the open line.
pub proof fn lemma_line_ends(text: Seq<char>, line: Seq<char>)
    requires
        !line.contains('\n'),
        line_scan(text).1.len() == 0,
    ensures
        line_scan(text + line + seq!['\n']) == (line_scan(text).0.push(line), Seq::<char>::empty()),
{
    lemma_line_grows(text, line);
    assert((text + line + seq!['\n']).drop_last() =~= text + line);
    assert(line_scan(text).1 + line =~= line);
}

/// No character is white space.
pub open spec fn all_dark(text: Seq<char>) -> bool {
    forall|i: int| 0 <= i < text.len() ==> !white(#[trigger] text[i])
}

/// Text without white space lengthens the open word.
pub proof fn lemma_word_grows(text: Seq<char>, tail: Seq<char>)
    requires
        all_dark(tail),
    ensures
        word_scan(text + tail) == (word_scan(text).0, word_scan(text).1 + tail),
    decreases tail.len(),
{
    if tail.len() == 0 {
        assert(text + tail =~= text);
        assert(word_scan(text).1 + tail =~= word_scan(text).1);
    } else {
        let less = tail.drop_last();
        assert forall|i: int| 0 <= i < less.len() implies !white(#[trigger] less[i]) by {
            assert(tail[i] == less[i]);
        }
        lemma_word_grows(text, less);
        assert((text + tail).drop_last() =~= text + less);
        assert((word_scan(text).1 + less).push(tail.last()) =~= word_scan(text).1 + tail);
    }
}

/// The text is white space within a line.
pub open spec fn is_blank(text: Seq<char>) -> bool {
    forall|i: int| 0 <= i < text.len() ==> white(#[trigger] text[i]) && text[i] != '\n'
}

/// White space closes the open word.
proof fn lemma_blank_closes(text: Seq<char>, blank: Seq<char>)
    requires
        is_blank(blank),
    ensures
        word_scan(text + blank) == (if blank.len() > 0 && word_scan(text).1.len() > 0 {
            (word_scan(text).0.push(word_scan(text).1), Seq::<char>::empty())
        } else {
            word_scan(text)
        }),
        words(text + blank) == words(text),
    decreases blank.len(),
{
    if blank.len() == 0 {
        assert(text + blank =~= text);
    } else {
        let less = blank.drop_last();
        assert forall|i: int| 0 <= i < less.len() implies white(#[trigger] less[i]) && less[i] != '\n' by {
            assert(blank[i] == less[i]);
        }
        lemma_blank_closes(text, less);
        assert((text + blank).drop_last() =~= text + less);
        assert(white(blank[blank.len() - 1]));
    }
}

/// Words can be told apart: white space stands between each two of them. Some may stand before the
/// first and behind the last.
pub open spec fn are_blanks(blanks: Seq<Seq<char>>, n: nat) -> bool {
    &&& blanks.len() == n + 1
    &&& forall|j: int| 0 <= j <= n ==> is_blank(#[trigger] blanks[j])
    &&& forall|j: int| 0 < j < n ==> (#[trigger] blanks[j]).len() > 0
}

/// The first `k` words, each behind its white space.
pub open spec fn spaced(parts: Seq<Seq<char>>, blanks: Seq<Seq<char>>, k: nat) -> Seq<char>
    decreases k,
{
    if k == 0 {
        Seq::empty()
    } else {
        spaced(parts, blanks, (k - 1) as nat) + blanks[k - 1] + parts[k - 1]
    }
}

/// The words with the white space around them.
pub open spec fn spaced_line(parts: Seq<Seq<char>>, blanks: Seq<Seq<char>>) -> Seq<char> {
    spaced(parts, blanks, parts.len()) + blanks[parts.len() as int]
}

/// Every part is a word.
pub open spec fn are_words(parts: Seq<Seq<char>>) -> bool {
    forall|j: int| 0 <= j < parts.len() ==> (#[trigger] parts[j]).len() > 0 && all_dark(parts[j])
}

proof fn lemma_spaced(parts: Seq<Seq<char>>, blanks: Seq<Seq<char>>, k: nat)
    requires
        are_words(parts),
        are_blanks(blanks, parts.len()),
        k <= parts.len(),
    ensures
        words(spaced(parts, blanks, k)) == parts.take(k as int),
        !spaced(parts, blanks, k).contains('\n'),
        k == 0 ==> word_scan(spaced(parts, blanks, k)).1.len() == 0,
        k > 0 ==> {
            let text = spaced(parts, blanks, k);
            let n = blanks[0].len() as int;
            &&& text.len() > n
            &&& text[n] == parts[0][0]
            &&& forall|i: int| 0 <= i < n ==> white(#[trigger] text[i])
        },
    decreases k,
{
    let text = spaced(parts, blanks, k);
    let n = blanks[0].len() as int;
    if k == 0 {
        assert(words(text) =~= parts.take(0));
    } else {
        let m = (k - 1) as nat;
        let before = spaced(parts, blanks, m);
        let blank = blanks[m as int];
        let word = parts[m as int];
        lemma_spaced(parts, blanks, m);
        assert(is_blank(blank));
        assert(word.len() > 0 && all_dark(word));
        lemma_blank_closes(before, blank);
        if m > 0 {
            assert(blank.len() > 0);
        }
        assert(word_scan(before + blank).1.len() == 0);
        lemma_word_grows(before + blank, word);
        assert(word_scan(before + blank).1 + word =~= word);
        assert(words(text) == words(before + blank).push(word));
        assert(parts.take(k as int) =~= parts.take(m as int).push(word));
        assert forall|i: int| 0 <= i < text.len() implies #[trigger] text[i] != '\n' by {
            if i < before.len() {
                assert(text[i] == before[i]);
                assert(before.contains(before[i]));
            } else if i < before.len() + blank.len() {
                assert(text[i] == blank[i - before.len()]);
            } else {
                assert(text[i] == word[i - before.len() - blank.len()]);
                assert(!white(word[i - before.len() - blank.len()]));
            }
        }
        if m == 0 {
            assert(text[n] == word[0]);
            assert forall|i: int| 0 <= i < n implies white(#[trigger] text[i]) by {
                assert(text[i] == blank[i]);
            }
        } else {
            assert(text[n] == before[n]);
            assert forall|i: int| 0 <= i < n implies white(#[trigger] text[i]) by {
                assert(text[i] == before[i]);
            }
        }
    }
}

/// White space at the start goes.
proof fn lemma_trim_start(text: Seq<char>, n: int)
    requires
        0 <= n < text.len(),
        !white(text[n]),
        forall|i: int| 0 <= i < n ==> white(#[trigger] text[i]),
    ensures
        trim_start(text) == text.skip(n),
    decreases n,
{
    if n == 0 {
        assert(text.skip(0) =~= text);
    } else {
        let rest = text.drop_first();
        assert(white(text[0]));
        assert(rest[n - 1] == text[n]);
        assert forall|i: int| 0 <= i < n - 1 implies white(#[trigger] rest[i]) by {
            assert(rest[i] == text[i + 1]);
        }
        lemma_trim_start(rest, n - 1);
        assert(rest.skip(n - 1) =~= text.skip(n));
    }
}

proof fn lemma_trim_end_keeps(text: Seq<char>)
    requires
        text.len() > 0,
        !white(text[0]),
    ensures
        trim_end(text).len() > 0,
        trim_end(text)[0] == text[0],
    decreases text.len(),
{
    if white(text.last()) {
        lemma_trim_end_keeps(text.drop_last());
    }
}

/// A line of words with white space around them: its words are those, and without the white space
/// it begins as the first of them does.
pub proof fn lemma_spaced_line(parts: Seq<Seq<char>>, blanks: Seq<Seq<char>>)
    requires
        parts.len() > 0,
        are_words(parts),
        are_blanks(blanks, parts.len()),
    ensures
        words(spaced_line(parts, blanks)) == parts,
        !spaced_line(parts, blanks).contains('\n'),
        trimmed(spaced_line(parts, blanks)).len() > 0,
        trimmed(spaced_line(parts, blanks))[0] == parts[0][0],
{
    let before = spaced(parts, blanks, parts.len());
    let blank = blanks[parts.len() as int];
    let line = spaced_line(parts, blanks);
    let n = blanks[0].len() as int;
    lemma_spaced(parts, blanks, parts.len());
    assert(parts.take(parts.len() as int) =~= parts);
    assert(is_blank(blank));
    lemma_blank_closes(before, blank);
    assert forall|i: int| 0 <= i < line.len() implies #[trigger] line[i] != '\n' by {
        if i < before.len() {
            assert(line[i] == before[i]);
            assert(before.contains(before[i]));
        } else {
            assert(line[i] == blank[i - before.len()]);
        }
    }
    assert(line[n] == before[n]);
    assert(all_dark(parts[0]));
    assert(!white(parts[0][0]));
    assert forall|i: int| 0 <= i < n implies white(#[trigger] line[i]) by {
        assert(line[i] == before[i]);
    }
    lemma_trim_start(line, n);
    lemma_trim_end_keeps(line.skip(n));
}

/// The decimal rendering of a number denotes it.
pub proof fn lemma_decimal_value(n: nat)
    ensures
        text::decimal(n).len() > 0,
        all_digits(text::decimal(n)),
        digits_value(text::decimal(n)) == n,
    decreases n,
{
    let d = text::decimal(n);
    if n < 10 {
        assert(d.drop_last() =~= Seq::<char>::empty());
        assert(d.last() == text::digit_char(n));
        assert(digit(text::digit_char(n)));
        reveal_with_fuel(digits_value, 2);
    } else {
        lemma_decimal_value(n / 10);
        assert(d.drop_last() =~= text::decimal(n / 10));
        assert(digit(text::digit_char(n % 10)));
        assert forall|i: int| 0 <= i < d.len() implies digit(#[trigger] d[i]) by {
            if i < d.len() - 1 {
                assert(d[i] == text::decimal(n / 10)[i]);
            }
        }
    }
}

/// Digits are no white space.
pub proof fn lemma_digits_dark(text: Seq<char>)
    requires
        all_digits(text),
    ensures
        all_dark(text),
{
    assert forall|i: int| 0 <= i < text.len() implies !white(#[trigger] text[i]) by {
        assert(digit(text[i]));
    }
}

/// The rendering of a signed number denotes it, holds no white space, and begins with a digit or
/// a minus sign.
pub proof fn lemma_signed_value(n: int)
    requires
        i32::MIN <= n <= i32::MAX,
    ensures
        i32_value(text::signed_decimal(n)) == Some(n),
        all_dark(text::signed_decimal(n)),
        text::signed_decimal(n).len() > 0,
        digit(text::signed_decimal(n)[0]) || text::signed_decimal(n)[0] == '-',
{
    let shown = text::signed_decimal(n);
    if n < 0 {
        lemma_decimal_value((-n) as nat);
        lemma_digits_dark(text::decimal((-n) as nat));
        assert(shown.drop_first() =~= text::decimal((-n) as nat));
        assert forall|i: int| 0 <= i < shown.len() implies !white(#[trigger] shown[i]) by {
            if i > 0 {
                assert(shown[i] == text::decimal((-n) as nat)[i - 1]);
            }
        }
    } else {
        lemma_decimal_value(n as nat);
        lemma_digits_dark(text::decimal(n as nat));
        assert(digit(shown[0]));
    }
}

/// The rendering of a number denotes it.
pub proof fn lemma_unsigned_value(n: nat, limit: nat)
    requires
        n <= limit,
    ensures
        unsigned_value(text::decimal(n), limit) == Some(n),
        all_dark(text::decimal(n)),
        text::decimal(n).len() > 0,
{
    lemma_decimal_value(n);
    lemma_digits_dark(text::decimal(n));
    assert(digit(text::decimal(n)[0]));
}

} // verus!
