//! The decisions of the language server that do not depend on the
//! protocol: which document updates to accept, where diagnostics and
//! formatting edits go in UTF-16 positions, and what a formatting request
//! answers.

use vstd::prelude::*;
use crate::formatter::{formatted_text, equivalent, FormatError, Formatter};
use crate::parser::{has_error, spec_parse, ParseMode};
use crate::text::{chars_of, lines, lines_chars};

verus! {

/// The number of UTF-16 code units of a character: two above the basic
/// plane, one otherwise.
pub open spec fn utf16_units(c: char) -> nat {
    if (c as u32) >= 0x10000 {
        2
    } else {
        1
    }
}

/// The number of UTF-8 bytes of a character.
pub open spec fn utf8_units(c: char) -> nat {
    let u = c as u32;
    if u < 0x80 {
        1
    } else if u < 0x800 {
        2
    } else if u < 0x10000 {
        3
    } else {
        4
    }
}

/// The UTF-16 length of a text.
pub open spec fn utf16_len(s: Seq<char>) -> nat
    decreases s.len(),
{
    if s.len() == 0 {
        0
    } else {
        utf16_len(s.drop_last()) + utf16_units(s.last())
    }
}

/// The UTF-8 length of a text.
pub open spec fn utf8_len(s: Seq<char>) -> nat
    decreases s.len(),
{
    if s.len() == 0 {
        0
    } else {
        utf8_len(s.drop_last()) + utf8_units(s.last())
    }
}

/// A count as a protocol number, saturated at `u32::MAX`.
pub open spec fn saturate(n: nat) -> u32 {
    if n <= u32::MAX {
        n as u32
    } else {
        u32::MAX
    }
}

/// The UTF-16 units of one character.
pub(crate) fn char_utf16(c: char) -> (r: u32)
    ensures
        r == utf16_units(c),
{
    if (c as u32) >= 0x10000 {
        2
    } else {
        1
    }
}

/// The UTF-8 bytes of one character.
fn char_utf8(c: char) -> (r: usize)
    ensures
        r == utf8_units(c),
{
    let u = c as u32;
    if u < 0x80 {
        1
    } else if u < 0x800 {
        2
    } else if u < 0x10000 {
        3
    } else {
        4
    }
}

/// The UTF-16 length of a text, saturated at `u32::MAX`.
pub fn utf16_count(s: &[char]) -> (r: u32)
    ensures
        r == saturate(utf16_len(s@)),
{
    let mut n: u64 = 0;
    let mut i: usize = 0;
    while i < s.len()
        invariant
            i <= s.len(),
            n == if utf16_len(s@.take(i as int)) <= u32::MAX { utf16_len(s@.take(i as int)) as int } else { u32::MAX + 1 },
        decreases s.len() - i,
    {
        assert(s@.take(i + 1).drop_last() =~= s@.take(i as int));
        let u = char_utf16(s[i]) as u64;
        if n <= u32::MAX as u64 {
            n = n + u;
            if n > u32::MAX as u64 {
                n = u32::MAX as u64 + 1;
            }
        }
        i = i + 1;
    }
    assert(s@.take(s.len() as int) =~= s@);
    if n > u32::MAX as u64 {
        u32::MAX
    } else {
        n as u32
    }
}

/// The UTF-16 length of a text, when it fits in a protocol number.
pub fn utf16_count_checked(s: &[char]) -> (r: Option<u32>)
    ensures
        utf16_len(s@) <= u32::MAX ==> r == Some(utf16_len(s@) as u32),
        utf16_len(s@) > u32::MAX ==> r is None,
{
    let mut n: u64 = 0;
    let mut i: usize = 0;
    while i < s.len()
        invariant
            i <= s.len(),
            n == if utf16_len(s@.take(i as int)) <= u32::MAX { utf16_len(s@.take(i as int)) as int } else { u32::MAX + 1 },
        decreases s.len() - i,
    {
        assert(s@.take(i + 1).drop_last() =~= s@.take(i as int));
        let u = char_utf16(s[i]) as u64;
        if n <= u32::MAX as u64 {
            n = n + u;
            if n > u32::MAX as u64 {
                n = u32::MAX as u64 + 1;
            }
        }
        i = i + 1;
    }
    assert(s@.take(s.len() as int) =~= s@);
    if n > u32::MAX as u64 {
        None
    } else {
        Some(n as u32)
    }
}

/// The columns that `word` covers after `prefix` on a line, when they fit
/// in protocol numbers.
pub open spec fn span_after(prefix: Seq<char>, word: Seq<char>) -> Option<(u32, u32)> {
    if utf16_len(prefix) + utf16_len(word) <= u32::MAX {
        Some((utf16_len(prefix) as u32, (utf16_len(prefix) + utf16_len(word)) as u32))
    } else {
        None
    }
}

/// Computes the columns that `word` covers after `prefix`.
pub fn span_after_chars(prefix: &[char], word: &[char]) -> (r: Option<(u32, u32)>)
    ensures
        r == span_after(prefix@, word@),
{
    let a = match utf16_count_checked(prefix) {
        Some(a) => a,
        None => {
            return None;
        },
    };
    let b = match utf16_count_checked(word) {
        Some(b) => b,
        None => {
            return None;
        },
    };
    if a as u64 + b as u64 > u32::MAX as u64 {
        None
    } else {
        Some((a, a + b))
    }
}

/// A line index as a protocol number.
pub fn saturate_usize(n: usize) -> (r: u32)
    ensures
        r == saturate(n as nat),
{
    if n > u32::MAX as usize {
        u32::MAX
    } else {
        n as u32
    }
}

/// `line` without its trailing carriage returns.
pub open spec fn trim_cr(line: Seq<char>) -> Seq<char>
    decreases line.len(),
{
    if line.len() > 0 && line.last() == '\r' {
        trim_cr(line.drop_last())
    } else {
        line
    }
}

/// The line a diagnostic marks: its own line, counted from zero, or the
/// first line when it has none.
pub open spec fn marked_line(line: Option<nat>) -> nat {
    match line {
        Some(n) => if n > 0 { (n - 1) as nat } else { 0 },
        None => 0,
    }
}

/// The text of line `row` of `text`, empty past the end.
pub open spec fn line_text(text: Seq<char>, row: nat) -> Seq<char> {
    if row < lines(text).len() {
        lines(text)[row as int]
    } else {
        seq![]
    }
}

/// Where a diagnostic is shown: the row, and the UTF-16 end of that line
/// without trailing carriage returns (the range starts at column 0).
pub open spec fn diagnostic_span(text: Seq<char>, line: Option<nat>) -> (u32, u32) {
    let row = marked_line(line);
    (saturate(row), saturate(utf16_len(trim_cr(line_text(text, row)))))
}

/// Removes trailing carriage returns.
pub fn trim_cr_chars(line: &[char]) -> (r: Vec<char>)
    ensures
        r@ == trim_cr(line@),
{
    let mut end = line.len();
    assert(line@.take(end as int) =~= line@);
    while end > 0 && line[end - 1] == '\r'
        invariant
            end <= line.len(),
            trim_cr(line@.take(end as int)) == trim_cr(line@),
        decreases end,
    {
        assert(line@.take(end - 1) =~= line@.take(end as int).drop_last());
        end = end - 1;
    }
    crate::text::copy_range(line, 0, end)
}

/// The row and end column of the range of a diagnostic.
pub fn diagnostic_range(text: &str, line: Option<usize>) -> (r: (u32, u32))
    ensures
        r == diagnostic_span(text@, match line {
            Some(n) => Some(n as nat),
            None => None,
        }),
{
    let row: usize = match line {
        Some(n) => if n > 0 { n - 1 } else { 0 },
        None => 0,
    };
    let chars = chars_of(text);
    let ls = lines_chars(chars.as_slice());
    let ghost lv = lines(text@);
    assert(ls@.map_values(|w: Vec<char>| w@) == lv);
    let end = if row < ls.len() {
        assert(ls@[row as int]@ == lv[row as int]);
        let trimmed = trim_cr_chars(ls[row].as_slice());
        utf16_count(trimmed.as_slice())
    } else {
        let empty: Vec<char> = Vec::new();
        assert(trim_cr(Seq::<char>::empty()) == Seq::<char>::empty());
        utf16_count(empty.as_slice())
    };
    (saturate_usize(row), end)
}

/// The number of line feeds in a text.
pub open spec fn line_feeds(s: Seq<char>) -> nat
    decreases s.len(),
{
    if s.len() == 0 {
        0
    } else {
        line_feeds(s.drop_last()) + if s.last() == '\n' { 1nat } else { 0nat }
    }
}

/// The text after the last line feed.
pub open spec fn last_line(s: Seq<char>) -> Seq<char>
    decreases s.len(),
{
    if s.len() == 0 {
        seq![]
    } else if s.last() == '\n' {
        seq![]
    } else {
        last_line(s.drop_last()).push(s.last())
    }
}

/// `s` with each `\r\n` replaced by `\n`, left to right.
pub open spec fn crlf_to_lf(s: Seq<char>) -> Seq<char>
    decreases s.len(),
{
    if s.len() == 0 {
        seq![]
    } else if s.len() >= 2 && s[0] == '\r' && s[1] == '\n' {
        seq!['\n'] + crlf_to_lf(s.skip(2))
    } else {
        seq![s[0]] + crlf_to_lf(s.drop_first())
    }
}

/// The end of a whole document once `\r\n` is read as one line break: the
/// number of line breaks and the UTF-16 length of the last line.
pub open spec fn document_end(text: Seq<char>) -> (u32, u32) {
    let normalized = crlf_to_lf(text);
    (saturate(line_feeds(normalized)), saturate(utf16_len(last_line(normalized))))
}

/// Replaces each `\r\n` by `\n`.
fn normalize_crlf(s: &[char]) -> (r: Vec<char>)
    ensures
        r@ == crlf_to_lf(s@),
{
    let mut r: Vec<char> = Vec::new();
    let mut i: usize = 0;
    assert(s@.skip(0) =~= s@);
    while i < s.len()
        invariant
            i <= s.len(),
            r@ + crlf_to_lf(s@.skip(i as int)) == crlf_to_lf(s@),
        decreases s.len() - i,
    {
        let ghost rest = s@.skip(i as int);
        if i + 1 < s.len() && s[i] == '\r' && s[i + 1] == '\n' {
            assert(rest[0] == '\r' && rest[1] == '\n');
            assert(rest.skip(2) =~= s@.skip(i + 2));
            r.push('\n');
            assert(r@ + crlf_to_lf(s@.skip(i + 2)) =~= crlf_to_lf(s@)) by {
                assert(crlf_to_lf(rest) == seq!['\n'] + crlf_to_lf(rest.skip(2)));
            }
            i = i + 2;
        } else {
            assert(rest[0] == s@[i as int]);
            assert(rest.drop_first() =~= s@.skip(i + 1));
            r.push(s[i]);
            assert(r@ + crlf_to_lf(s@.skip(i + 1)) =~= crlf_to_lf(s@)) by {
                assert(crlf_to_lf(rest) == seq![s@[i as int]] + crlf_to_lf(rest.drop_first()));
            }
            i = i + 1;
        }
    }
    assert(s@.skip(i as int) =~= Seq::<char>::empty());
    assert(r@ =~= crlf_to_lf(s@));
    r
}

/// The end position of a whole document.
pub fn full_range_end(text: &str) -> (r: (u32, u32))
    ensures
        r == document_end(text@),
{
    let chars = chars_of(text);
    let normalized = normalize_crlf(chars.as_slice());
    let ghost nv = normalized@;
    let mut feeds: usize = 0;
    let mut start: usize = 0;
    let mut i: usize = 0;
    while i < normalized.len()
        invariant
            i <= normalized.len(),
            nv == normalized@,
            start <= i,
            feeds <= i,
            feeds == line_feeds(nv.take(i as int)),
            nv.subrange(start as int, i as int) == last_line(nv.take(i as int)),
        decreases normalized.len() - i,
    {
        assert(nv.take(i + 1).drop_last() =~= nv.take(i as int));
        if normalized[i] == '\n' {
            feeds = feeds + 1;
            start = i + 1;
            assert(nv.subrange(start as int, i + 1) =~= Seq::<char>::empty());
        } else {
            assert(nv.subrange(start as int, i + 1) =~= nv.subrange(start as int, i as int).push(nv[i as int]));
        }
        i = i + 1;
    }
    assert(nv.take(i as int) =~= nv);
    let last = crate::text::copy_range(normalized.as_slice(), start, normalized.len());
    (saturate_usize(feeds), utf16_count(last.as_slice()))
}

/// Whether an update of an open document replaces its text: it must be
/// newer than the cached version and consist of whole-text changes only.
pub open spec fn accepts_update(cached: i32, version: i32, changes: nat, all_full: bool) -> bool {
    version > cached && changes > 0 && all_full
}

/// Decides whether an update replaces the cached text.
pub fn accepts_change(cached: i32, version: i32, changes: usize, all_full: bool) -> (r: bool)
    ensures
        r == accepts_update(cached, version, changes as nat, all_full),
{
    version > cached && changes > 0 && all_full
}

/// What a formatting request answers.
#[derive(Debug, PartialEq, Eq)]
pub enum FormattingReply {
    /// The document is already formatted.
    Unchanged,
    /// Replace the whole document, up to the given end, with the text.
    Replace { end_line: u32, end_character: u32, text: String },
    /// The document has syntax errors.
    SyntaxErrors,
    /// Formatting would change what the document declares.
    ChangedMeaning,
}

/// Formats an open document and says how to answer.
pub fn formatting_reply(text: &str) -> (r: FormattingReply)
    ensures
        ({
            let before = spec_parse(ParseMode::Build, seq![], text@);
            let formatted = formatted_text(text@);
            let after = spec_parse(ParseMode::Build, seq![], formatted);
            &&& has_error(before.diagnostics) ==> r == FormattingReply::SyntaxErrors
            &&& !has_error(before.diagnostics) && !(!has_error(after.diagnostics) && equivalent(before.module, after.module))
                ==> r == FormattingReply::ChangedMeaning
            &&& !has_error(before.diagnostics) && !has_error(after.diagnostics) && equivalent(before.module, after.module)
                ==> if formatted == text@ {
                r == FormattingReply::Unchanged
            } else {
                r matches FormattingReply::Replace { end_line, end_character, text: t } && t@ == formatted
                    && (end_line, end_character) == document_end(text@)
            }
        }),
{
    match Formatter::new().format(text) {
        Ok(formatted) => {
            if crate::text::text_eq(formatted.as_str(), text) {
                FormattingReply::Unchanged
            } else {
                let (end_line, end_character) = full_range_end(text);
                FormattingReply::Replace { end_line, end_character, text: formatted }
            }
        },
        Err(FormatError::Parse(_)) => FormattingReply::SyntaxErrors,
        Err(FormatError::ChangedMeaning) => FormattingReply::ChangedMeaning,
    }
}

/// The byte position of a UTF-16 column in a line: the start of the
/// character at that column, or the line's length at its end; none inside
/// a character or past the end.
pub open spec fn utf16_offset_spec(line: Seq<char>, column: nat) -> Option<nat>
    decreases line.len(),
{
    if column == 0 {
        Some(0)
    } else if line.len() == 0 {
        None
    } else if utf16_units(line[0]) > column {
        None
    } else {
        match utf16_offset_spec(line.drop_first(), (column - utf16_units(line[0])) as nat) {
            Some(b) => Some(b + utf8_units(line[0])),
            None => None,
        }
    }
}

/// Converts a UTF-16 column into a byte position of the line.
pub fn utf16_offset(line: &str, column: u32) -> (r: Option<usize>)
    requires
        4 * line@.len() <= usize::MAX,
    ensures
        match utf16_offset_spec(line@, column as nat) {
            Some(b) => r == Some(b as usize),
            None => r is None,
        },
{
    let chars = chars_of(line);
    let mut units: u32 = 0;
    let mut bytes: usize = 0;
    let mut i: usize = 0;
    assert(line@.skip(0) =~= line@);
    while i < chars.len()
        invariant
            i <= chars.len(),
            chars@ == line@,
            4 * line@.len() <= usize::MAX,
            units <= column,
            bytes <= 4 * i,
            utf16_offset_spec(line@, column as nat) == match utf16_offset_spec(line@.skip(i as int), (column - units) as nat) {
                Some(b) => Some((b + bytes) as nat),
                None => None,
            },
        decreases chars.len() - i,
    {
        if units == column {
            return Some(bytes);
        }
        let ghost rest = line@.skip(i as int);
        assert(rest[0] == chars@[i as int]);
        assert(rest.drop_first() =~= line@.skip(i + 1));
        let u = char_utf16(chars[i]);
        if u > column - units {
            return None;
        }
        units = units + u;
        bytes = bytes + char_utf8(chars[i]);
        i = i + 1;
    }
    assert(line@.skip(i as int) =~= Seq::<char>::empty());
    if units == column {
        Some(bytes)
    } else {
        None
    }
}

/// Whether a UTF-16 column falls at the start or end of a character of the
/// line.
pub fn column_valid(line: &[char], column: u32) -> (r: bool)
    ensures
        r == utf16_offset_spec(line@, column as nat) is Some,
{
    let mut units: u32 = 0;
    let mut i: usize = 0;
    assert(line@.skip(0) =~= line@);
    while i < line.len()
        invariant
            i <= line.len(),
            units <= column,
            (utf16_offset_spec(line@, column as nat) is Some) == (utf16_offset_spec(line@.skip(i as int), (column - units) as nat) is Some),
        decreases line.len() - i,
    {
        if units == column {
            return true;
        }
        let u = char_utf16(line[i]);
        assert(line@.skip(i as int)[0] == line@[i as int]);
        assert(line@.skip(i as int).drop_first() =~= line@.skip(i + 1));
        if u > column - units {
            return false;
        }
        units = units + u;
        i = i + 1;
    }
    units == column
}

/// The character index of a UTF-16 column in a line: the start of the
/// character at that column, or the line's length at its end; none inside
/// a character or past the end.
pub open spec fn column_index(line: Seq<char>, column: nat) -> Option<nat>
    decreases line.len(),
{
    if column == 0 {
        Some(0)
    } else if line.len() == 0 {
        None
    } else if utf16_units(line[0]) > column {
        None
    } else {
        match column_index(line.drop_first(), (column - utf16_units(line[0])) as nat) {
            Some(i) => Some(i + 1),
            None => None,
        }
    }
}

/// The character index of a UTF-16 column in a line.
pub fn column_index_of(line: &[char], column: u32) -> (r: Option<usize>)
    ensures
        match r {
            Some(i) => column_index(line@, column as nat) == Some(i as nat),
            None => column_index(line@, column as nat) is None,
        },
{
    let mut units: u32 = 0;
    let mut i: usize = 0;
    assert(line@.skip(0) =~= line@);
    while i < line.len()
        invariant
            i <= line.len(),
            units <= column,
            column_index(line@, column as nat) == match column_index(line@.skip(i as int), (column - units) as nat) {
                Some(b) => Some((b + i) as nat),
                None => None,
            },
        decreases line.len() - i,
    {
        if units == column {
            return Some(i);
        }
        let u = char_utf16(line[i]);
        assert(line@.skip(i as int)[0] == line@[i as int]);
        assert(line@.skip(i as int).drop_first() =~= line@.skip(i + 1));
        if u > column - units {
            return None;
        }
        units = units + u;
        i = i + 1;
    }
    assert(line@.skip(i as int) =~= Seq::<char>::empty());
    if units == column {
        Some(i)
    } else {
        None
    }
}

} // verus!
