//! Editor support for Markdown plan templates (`*.md.j2`): syntax
//! diagnostics, checks of literal `plan.<field>` accesses, and field
//! completions inside template tags.
//!
//! Positions follow the editor protocol: a zero-based line and a column in
//! UTF-16 code units.

use vstd::prelude::*;
use crate::lsp::{last_line, line_feeds, saturate, utf16_len};
use crate::text::{chars_of, owned, push_chars, push_str};

verus! {

/// The fields of the plan object.
pub open spec fn plan_field(name: Seq<char>) -> bool {
    name == "root_target"@ || name == "stages"@
}

/// Whether a file is a plan template: its name ends with `.md.j2`.
pub open spec fn template_file_name(name: Seq<char>) -> bool {
    name.len() >= 6 && name.subrange(name.len() - 6, name.len() as int) == ".md.j2"@
}

/// Whether a file name names a plan template.
pub fn is_template_name(name: &str) -> (r: bool)
    ensures
        r == template_file_name(name@),
{
    let chars = chars_of(name);
    let suffix = chars_of(".md.j2");
    proof {
        reveal_strlit(".md.j2");
    }
    if chars.len() < 6 {
        return false;
    }
    let tail = crate::text::copy_range(chars.as_slice(), chars.len() - 6, chars.len());
    crate::text::chars_eq(tail.as_slice(), suffix.as_slice())
}

/// A character that can be part of a field name.
pub open spec fn identifier_char(c: char) -> bool {
    ('a' <= c && c <= 'z') || ('A' <= c && c <= 'Z') || ('0' <= c && c <= '9') || c == '_'
}

/// Whether a character can be part of a field name.
pub fn is_identifier_char(c: char) -> (r: bool)
    ensures
        r == identifier_char(c),
{
    ('a' <= c && c <= 'z') || ('A' <= c && c <= 'Z') || ('0' <= c && c <= '9') || c == '_'
}

/// The editor position just after `prefix`: its line feeds, and the UTF-16
/// length of its last line.
pub open spec fn position_after(prefix: Seq<char>) -> (u32, u32) {
    (saturate(line_feeds(prefix)), saturate(utf16_len(last_line(prefix))))
}

/// The editor position of character `k` of `s`.
pub fn position_at(s: &[char], k: usize) -> (r: (u32, u32))
    requires
        k <= s@.len(),
    ensures
        r == position_after(s@.take(k as int)),
{
    let mut feeds: usize = 0;
    let mut start: usize = 0;
    let mut i: usize = 0;
    let ghost p = s@.take(k as int);
    while i < k
        invariant
            i <= k,
            k <= s@.len(),
            p == s@.take(k as int),
            start <= i,
            feeds <= i,
            feeds == line_feeds(p.take(i as int)),
            p.subrange(start as int, i as int) == last_line(p.take(i as int)),
        decreases k - i,
    {
        assert(p.take(i + 1).drop_last() =~= p.take(i as int));
        assert(p[i as int] == s@[i as int]);
        if s[i] == '\n' {
            feeds = feeds + 1;
            start = i + 1;
            assert(p.subrange(start as int, i + 1) =~= Seq::<char>::empty());
        } else {
            assert(p.subrange(start as int, i + 1) =~= p.subrange(start as int, i as int).push(p[i as int]));
        }
        i = i + 1;
    }
    assert(p.take(k as int) =~= p);
    let last = crate::text::copy_range(s, start, k);
    assert(last@ =~= p.subrange(start as int, k as int));
    (crate::lsp::saturate_usize(feeds), crate::lsp::utf16_count(last.as_slice()))
}

/// The view of a template diagnostic.
pub struct TemplateDiagView {
    pub start: (u32, u32),
    pub end: (u32, u32),
    pub code: Seq<char>,
    pub message: Seq<char>,
}

/// An error in a template, with its range.
#[derive(Debug, PartialEq, Eq)]
pub struct TemplateDiagnostic {
    pub start: (u32, u32),
    pub end: (u32, u32),
    pub code: &'static str,
    pub message: String,
}

impl View for TemplateDiagnostic {
    type V = TemplateDiagView;

    open spec fn view(&self) -> TemplateDiagView {
        TemplateDiagView { start: self.start, end: self.end, code: self.code@, message: self.message@ }
    }
}

/// The views of a list of template diagnostics.
pub open spec fn template_views(v: Seq<TemplateDiagnostic>) -> Seq<TemplateDiagView> {
    v.map_values(|d: TemplateDiagnostic| d@)
}

/// The message for an unknown plan field.
pub open spec fn unknown_field_message(field: Seq<char>) -> Seq<char> {
    "未知的 plan 字段 `"@ + field + "`；可用字段：root_target、stages"@
}

/// `a`, `b` stand at positions `k`, `k + 1` of `s`.
pub open spec fn two_at(s: Seq<char>, k: int, a: char, b: char) -> bool {
    0 <= k && k + 1 < s.len() && s[k] == a && s[k + 1] == b
}

/// A tag opens at `k`: `{#`, `{%` or `{{`.
pub open spec fn opens_at(s: Seq<char>, k: int) -> bool {
    two_at(s, k, '{', '#') || two_at(s, k, '{', '%') || two_at(s, k, '{', '{')
}

/// The first position from `k` on where a tag opens, or the length of `s`.
pub open spec fn next_opening(s: Seq<char>, k: int) -> int
    decreases s.len() - k,
{
    if k >= s.len() {
        s.len() as int
    } else if opens_at(s, k) {
        k
    } else {
        next_opening(s, k + 1)
    }
}

/// The character before `}` that closes a tag whose second character is
/// `kind`.
pub open spec fn closer(kind: char) -> char {
    if kind == '#' {
        '#'
    } else if kind == '%' {
        '%'
    } else {
        '}'
    }
}

/// Where a tag whose second character is `kind` closes, reading from `e`
/// with the quote `q` open: outside comments, quoted strings (where `\`
/// escapes the next character) do not close it. The length of `s` if it
/// does not close.
pub open spec fn close_from(s: Seq<char>, kind: char, e: int, q: Option<char>) -> int
    decreases s.len() - e,
{
    if e >= s.len() {
        s.len() as int
    } else if kind != '#' && q is Some {
        if s[e] == '\\' {
            close_from(s, kind, if e + 2 < s.len() { e + 2 } else { s.len() as int }, q)
        } else if s[e] == q->0 {
            close_from(s, kind, e + 1, None)
        } else {
            close_from(s, kind, e + 1, q)
        }
    } else if kind != '#' && (s[e] == '\'' || s[e] == '"') {
        close_from(s, kind, e + 1, Some(s[e]))
    } else if two_at(s, e, closer(kind), '}') {
        e
    } else {
        close_from(s, kind, e + 1, q)
    }
}

/// The first position from `k` on where `a`, `b` stand.
pub open spec fn first_two(s: Seq<char>, k: int, a: char, b: char) -> Option<int>
    decreases s.len() - k,
{
    if k >= s.len() {
        None
    } else if two_at(s, k, a, b) {
        Some(k)
    } else {
        first_two(s, k + 1, a, b)
    }
}

/// A character trimmed around a tag's word: white space or `-`.
pub open spec fn tag_padding(c: char) -> bool {
    crate::text::spec_is_whitespace(c) || c == '-'
}

/// `t` without its leading padding.
pub open spec fn strip_front(t: Seq<char>) -> Seq<char>
    decreases t.len(),
{
    if t.len() > 0 && tag_padding(t[0]) {
        strip_front(t.drop_first())
    } else {
        t
    }
}

/// `t` without its trailing padding.
pub open spec fn strip_back(t: Seq<char>) -> Seq<char>
    decreases t.len(),
{
    if t.len() > 0 && tag_padding(t.last()) {
        strip_back(t.drop_last())
    } else {
        t
    }
}

/// The word of a tag body: the body without the padding around it.
pub open spec fn tag_word(t: Seq<char>) -> Seq<char> {
    strip_back(strip_front(t))
}

/// A position found by `first_two` lies at or after where the search began.
pub proof fn lemma_first_two(s: Seq<char>, k: int, a: char, b: char)
    ensures
        first_two(s, k, a, b) matches Some(i) ==> k <= i && two_at(s, i, a, b),
    decreases s.len() - k,
{
    if k < s.len() && !two_at(s, k, a, b) {
        lemma_first_two(s, k + 1, a, b);
    }
}

/// Where the text after a `raw` tag resumes: just after the first
/// `{% ... %}` tag from `l` on whose word is `endraw`, if there is one.
pub open spec fn raw_resume(s: Seq<char>, l: int) -> Option<int>
    decreases s.len() - l,
{
    match first_two(s, l, '{', '%') {
        None => None,
        Some(o) => match first_two(s, o + 2, '%', '}') {
            None => None,
            Some(stop) => if tag_word(s.subrange(o + 2, stop)) == "endraw"@ {
                Some(stop + 2)
            } else {
                proof {
                    lemma_first_two(s, l, '{', '%');
                    lemma_first_two(s, o + 2, '%', '}');
                }
                raw_resume(s, stop + 2)
            },
        },
    }
}

/// Where a tag closes lies at or after where the search began, and holds
/// the closing characters unless it is the end of the text.
pub proof fn lemma_close_from(s: Seq<char>, kind: char, e: int, q: Option<char>)
    requires
        e <= s.len(),
    ensures
        e <= close_from(s, kind, e, q) <= s.len(),
        close_from(s, kind, e, q) < s.len() ==> two_at(s, close_from(s, kind, e, q), closer(kind), '}'),
    decreases s.len() - e,
{
    if e < s.len() {
        if kind != '#' && q is Some {
            if s[e] == '\\' {
                lemma_close_from(s, kind, if e + 2 < s.len() { e + 2 } else { s.len() as int }, q);
            } else if s[e] == q->0 {
                lemma_close_from(s, kind, e + 1, None);
            } else {
                lemma_close_from(s, kind, e + 1, q);
            }
        } else if kind != '#' && (s[e] == '\'' || s[e] == '"') {
            lemma_close_from(s, kind, e + 1, Some(s[e]));
        } else if !two_at(s, e, closer(kind), '}') {
            lemma_close_from(s, kind, e + 1, q);
        }
    }
}

/// The next opening lies at or after where the search began, and a tag
/// opens there unless it is the end of the text.
pub proof fn lemma_next_opening(s: Seq<char>, k: int)
    requires
        k <= s.len(),
    ensures
        k <= next_opening(s, k) <= s.len(),
        next_opening(s, k) < s.len() ==> opens_at(s, next_opening(s, k)),
    decreases s.len() - k,
{
    if k < s.len() && !opens_at(s, k) {
        lemma_next_opening(s, k + 1);
    }
}

/// A resumed position lies after the raw tag's end and within the text.
pub proof fn lemma_raw_resume(s: Seq<char>, l: int)
    ensures
        raw_resume(s, l) matches Some(c) ==> l + 4 <= c <= s.len(),
    decreases s.len() - l,
{
    lemma_first_two(s, l, '{', '%');
    match first_two(s, l, '{', '%') {
        None => {},
        Some(o) => {
            lemma_first_two(s, o + 2, '%', '}');
            match first_two(s, o + 2, '%', '}') {
                None => {},
                Some(stop) => {
                    if tag_word(s.subrange(o + 2, stop)) != "endraw"@ {
                        lemma_raw_resume(s, stop + 2);
                    }
                },
            }
        },
    }
}

/// The bodies of the expression and statement tags from `cursor` on, as
/// positions of their first character and of their closing: comments and
/// the text between a `raw` tag and its `endraw` tag are skipped, and an
/// unclosed tag ends the scan.
pub open spec fn tags_from(s: Seq<char>, cursor: int) -> Seq<(int, int)>
    decreases s.len() - cursor,
{
    if cursor < 0 || cursor >= s.len() {
        seq![]
    } else {
        let start = next_opening(s, cursor);
        if start >= s.len() {
            seq![]
        } else {
            proof {
                lemma_next_opening(s, cursor);
            }
            let kind = s[start + 1];
            let end = close_from(s, kind, start + 2, None);
            proof {
                lemma_close_from(s, kind, start + 2, None);
            }
            if end >= s.len() {
                seq![]
            } else if kind == '#' {
                tags_from(s, end + 2)
            } else {
                let resumed = if kind == '%' && tag_word(s.subrange(start + 2, end)) == "raw"@ {
                    raw_resume(s, end + 2)
                } else {
                    None
                };
                proof {
                    lemma_raw_resume(s, end + 2);
                }
                match resumed {
                    Some(c) => tags_from(s, c),
                    None => seq![(start + 2, end)] + tags_from(s, end + 2),
                }
            }
        }
    }
}

/// The identifier characters at the start of `s` are among its characters.
pub proof fn lemma_ident_head(s: Seq<char>)
    ensures
        ident_head(s) <= s.len(),
    decreases s.len(),
{
    if s.len() > 0 && identifier_char(s[0]) {
        lemma_ident_head(s.drop_first());
    }
}

/// The field names after each `plan.` in the tag body `t` from `i` on,
/// reading with the quote `q` open, that the plan does not have, as
/// positions in `t`: quoted strings (where `\` escapes the next character)
/// are skipped, and `plan.` counts only where no identifier character or
/// dot comes before it.
pub open spec fn plan_fields_from(t: Seq<char>, i: int, q: Option<char>) -> Seq<(int, int)>
    decreases t.len() - i,
{
    if i < 0 || i >= t.len() {
        seq![]
    } else {
        match q {
            Some(d) => if t[i] == '\\' {
                plan_fields_from(t, if i + 2 < t.len() { i + 2 } else { t.len() as int }, q)
            } else if t[i] == d {
                plan_fields_from(t, i + 1, None)
            } else {
                plan_fields_from(t, i + 1, q)
            },
            None => if t[i] == '\'' || t[i] == '"' {
                plan_fields_from(t, i + 1, Some(t[i]))
            } else if crate::text::occurs_at(t, "plan."@, i) && (i == 0 || (!identifier_char(t[i - 1]) && t[i - 1] != '.')) {
                proof {
                    reveal_strlit("plan.");
                    lemma_ident_head(t.skip(i + 5));
                }
                let st = i + 5;
                let en = st + ident_head(t.skip(st));
                (if en > st && !plan_field(t.subrange(st, en)) {
                    seq![(st, en)]
                } else {
                    seq![]
                }) + plan_fields_from(t, en, None)
            } else {
                plan_fields_from(t, i + 1, None)
            },
        }
    }
}

/// The report of the unknown field at `f` of the tag body that starts at
/// `a` of `s`.
pub open spec fn field_report(s: Seq<char>, a: int, f: (int, int)) -> TemplateDiagView {
    TemplateDiagView {
        start: position_after(s.take(a + f.0)),
        end: position_after(s.take(a + f.1)),
        code: "T002"@,
        message: unknown_field_message(s.subrange(a + f.0, a + f.1)),
    }
}

/// The reports of the unknown fields `fs` of the tag body that starts at
/// `a` of `s`.
pub open spec fn field_reports(s: Seq<char>, a: int, fs: Seq<(int, int)>) -> Seq<TemplateDiagView> {
    fs.map_values(|f: (int, int)| field_report(s, a, f))
}

/// The reports of the unknown plan fields of the tag bodies `tags` of `s`,
/// in order.
pub open spec fn tag_reports(s: Seq<char>, tags: Seq<(int, int)>) -> Seq<TemplateDiagView>
    decreases tags.len(),
{
    if tags.len() == 0 {
        seq![]
    } else {
        let t = tags.last();
        tag_reports(s, tags.drop_last()) + field_reports(s, t.0, plan_fields_from(s.subrange(t.0, t.1), 0, None))
    }
}

/// Whether `s[k..]` starts with the two characters `a`, `b`.
fn starts_two(s: &[char], k: usize, a: char, b: char) -> (r: bool)
    ensures
        r == two_at(s@, k as int, a, b),
{
    k < s.len() && k + 1 < s.len() && s[k] == a && s[k + 1] == b
}

/// Whether the word of the tag body `s[a..b]` is `word`.
fn tag_word_is(s: &[char], a: usize, b: usize, word: &str) -> (r: bool)
    requires
        a <= b <= s@.len(),
    ensures
        r == (tag_word(s@.subrange(a as int, b as int)) == word@),
{
    let mut x = a;
    assert(s@.subrange(a as int, b as int).skip(0) =~= s@.subrange(a as int, b as int));
    while x < b && (crate::text::is_whitespace(s[x]) || s[x] == '-')
        invariant
            a <= x <= b,
            b <= s@.len(),
            strip_front(s@.subrange(a as int, b as int)) == strip_front(s@.subrange(x as int, b as int)),
        decreases b - x,
    {
        assert(s@.subrange(x as int, b as int).drop_first() =~= s@.subrange(x + 1, b as int));
        x = x + 1;
    }
    let ghost f = s@.subrange(x as int, b as int);
    assert(strip_front(f) == f);
    let mut y = b;
    assert(f.take((y - x) as int) =~= f);
    while y > x && (crate::text::is_whitespace(s[y - 1]) || s[y - 1] == '-')
        invariant
            x <= y <= b,
            b <= s@.len(),
            f == s@.subrange(x as int, b as int),
            strip_back(f) == strip_back(s@.subrange(x as int, y as int)),
        decreases y,
    {
        assert(s@.subrange(x as int, y as int).drop_last() =~= s@.subrange(x as int, y - 1));
        y = y - 1;
    }
    let inner = crate::text::copy_range(s, x, y);
    let w = chars_of(word);
    crate::text::chars_eq(inner.as_slice(), w.as_slice())
}

/// Positions as numbers.
pub open spec fn pair_ints(v: Seq<(usize, usize)>) -> Seq<(int, int)> {
    v.map_values(|p: (usize, usize)| (p.0 as int, p.1 as int))
}

/// Where the text after a `raw` tag resumes, from `l` on.
fn resume_after_raw(s: &[char], l: usize) -> (r: Option<usize>)
    requires
        l <= s@.len() + 2,
        s@.len() + 8 <= usize::MAX,
    ensures
        match raw_resume(s@, l as int) {
            Some(c) => r == Some(c as usize),
            None => r is None,
        },
{
    let n = s.len();
    let mut lookahead = l;
    while lookahead < n
        invariant
            lookahead <= n + 2,
            n == s@.len(),
            n + 8 <= usize::MAX,
            raw_resume(s@, l as int) == raw_resume(s@, lookahead as int),
        decreases n + 2 - lookahead,
    {
        let mut open = lookahead;
        while open < n && !starts_two(s, open, '{', '%')
            invariant
                lookahead <= open <= n,
                n == s@.len(),
                first_two(s@, lookahead as int, '{', '%') == first_two(s@, open as int, '{', '%'),
            decreases n - open,
        {
            open = open + 1;
        }
        if open >= n {
            return None;
        }
        let inner = open + 2;
        let mut stop = inner;
        while stop < n && !starts_two(s, stop, '%', '}')
            invariant
                inner <= stop <= n,
                n == s@.len(),
                n + 8 <= usize::MAX,
                first_two(s@, inner as int, '%', '}') == first_two(s@, stop as int, '%', '}'),
            decreases n - stop,
        {
            stop = stop + 1;
        }
        if stop >= n {
            return None;
        }
        if tag_word_is(s, inner, stop, "endraw") {
            return Some(stop + 2);
        }
        lookahead = stop + 2;
    }
    None
}

/// The bodies of the expression and statement tags of a template, as
/// character ranges, skipping comments and the inside of raw blocks.
fn scan_tags(s: &[char]) -> (r: Vec<(usize, usize)>)
    requires
        s@.len() + 8 <= usize::MAX,
    ensures
        pair_ints(r@) == tags_from(s@, 0),
        forall|i: int| 0 <= i < r@.len() ==> (#[trigger] r@[i]).0 <= r@[i].1 <= s@.len(),
{
    let n = s.len();
    let mut found: Vec<(usize, usize)> = Vec::new();
    let mut cursor: usize = 0;
    assert(pair_ints(found@) =~= Seq::<(int, int)>::empty());
    while cursor < n
        invariant
            n == s@.len(),
            n + 8 <= usize::MAX,
            cursor <= n + 2,
            tags_from(s@, 0) == pair_ints(found@) + tags_from(s@, cursor as int),
            forall|i: int| 0 <= i < found@.len() ==> (#[trigger] found@[i]).0 <= found@[i].1 <= n,
        ensures
            tags_from(s@, 0) == pair_ints(found@),
            forall|i: int| 0 <= i < found@.len() ==> (#[trigger] found@[i]).0 <= found@[i].1 <= n,
        decreases n + 2 - cursor,
    {
        let ghost fv = pair_ints(found@);
        let ghost c0 = cursor as int;
        let mut start = cursor;
        while start < n && !(starts_two(s, start, '{', '#') || starts_two(s, start, '{', '%') || starts_two(s, start, '{', '{'))
            invariant
                cursor <= start <= n,
                n == s@.len(),
                next_opening(s@, cursor as int) == next_opening(s@, start as int),
            decreases n - start,
        {
            start = start + 1;
        }
        if start >= n {
            assert(tags_from(s@, cursor as int) =~= Seq::<(int, int)>::empty());
            assert(fv + Seq::<(int, int)>::empty() =~= fv);
            break;
        }
        let kind = s[start + 1];
        let close_first = if kind == '#' {
            '#'
        } else if kind == '%' {
            '%'
        } else {
            '}'
        };
        let mut end = start + 2;
        let mut quote: Option<char> = None;
        while end < n
            invariant
                start + 2 <= end <= n,
                n == s@.len(),
                n + 8 <= usize::MAX,
                close_first == closer(kind),
                kind == '#' ==> quote is None,
                close_from(s@, kind, start + 2, None) == close_from(s@, kind, end as int, quote),
            ensures
                end <= n,
                end < n ==> close_from(s@, kind, start + 2, None) == end as int,
            decreases n - end,
        {
            let c = s[end];
            if kind != '#' {
                match quote {
                    Some(d) => {
                        if c == '\\' {
                            end = if end + 2 < n {
                                end + 2
                            } else {
                                n
                            };
                            continue;
                        }
                        if c == d {
                            quote = None;
                        }
                        end = end + 1;
                        continue;
                    },
                    None => {
                        if c == '\'' || c == '"' {
                            quote = Some(c);
                            end = end + 1;
                            continue;
                        }
                    },
                }
            }
            if starts_two(s, end, close_first, '}') {
                assert(close_from(s@, kind, end as int, quote) == end as int);
                break;
            }
            end = end + 1;
        }
        proof {
            lemma_close_from(s@, kind, start + 2, None);
        }
        if end == n {
            assert(next_opening(s@, start as int) == start as int);
            assert(tags_from(s@, c0) =~= Seq::<(int, int)>::empty());
            assert(fv + Seq::<(int, int)>::empty() =~= fv);
            break;
        }
        assert(next_opening(s@, start as int) == start as int);
        assert(close_from(s@, kind, start + 2, None) == end as int);
        if kind == '#' {
            assert(tags_from(s@, c0) == tags_from(s@, end + 2));
            cursor = end + 2;
            continue;
        }
        let ghost spec_resumed = if kind == '%' && tag_word(s@.subrange(start + 2, end as int)) == "raw"@ {
            raw_resume(s@, end + 2)
        } else {
            None
        };
        proof {
            lemma_raw_resume(s@, end + 2);
        }
        let resumed = if kind == '%' && tag_word_is(s, start + 2, end, "raw") {
            resume_after_raw(s, end + 2)
        } else {
            None
        };
        match resumed {
            Some(c) => {
                assert(spec_resumed == Some(c as int));
                assert(tags_from(s@, c0) == tags_from(s@, c as int));
                cursor = c;
            },
            None => {
                assert(spec_resumed is None);
                assert(tags_from(s@, c0) == seq![(start + 2, end as int)] + tags_from(s@, end + 2));
                found.push((start + 2, end));
                assert(pair_ints(found@) =~= fv + seq![(start + 2, end as int)]);
                cursor = end + 2;
            },
        }
    }
    found
}

/// Reports the unknown plan fields of the tag body `s[a..b]`.
fn check_plan_fields(s: &[char], a: usize, b: usize, found: &mut Vec<TemplateDiagnostic>)
    requires
        a <= b <= s@.len(),
        s@.len() + 8 <= usize::MAX,
    ensures
        template_views(final(found)@) == template_views(old(found)@) + field_reports(s@, a as int, plan_fields_from(s@.subrange(a as int, b as int), 0, None)),
{
    let ghost t = s@.subrange(a as int, b as int);
    let ghost f0 = template_views(found@);
    let ghost mut acc: Seq<(int, int)> = seq![];
    let mut index = a;
    let mut quote: Option<char> = None;
    assert(f0 + field_reports(s@, a as int, acc) =~= f0);
    while index < b
        invariant
            a <= index <= b,
            b <= s@.len(),
            s@.len() + 8 <= usize::MAX,
            t == s@.subrange(a as int, b as int),
            plan_fields_from(t, 0, None) == acc + plan_fields_from(t, index - a, quote),
            template_views(found@) == f0 + field_reports(s@, a as int, acc),
        decreases b - index,
    {
        let ghost i = index - a;
        assert(t[i] == s@[index as int]);
        match quote {
            Some(d) => {
                if s[index] == '\\' {
                    index = if index + 2 < b {
                        index + 2
                    } else {
                        b
                    };
                    continue;
                }
                if s[index] == d {
                    quote = None;
                }
                index = index + 1;
                continue;
            },
            None => {},
        }
        if s[index] == '\'' || s[index] == '"' {
            quote = Some(s[index]);
            index = index + 1;
            continue;
        }
        proof {
            reveal_strlit("plan.");
        }
        let is_plan = index + 5 <= b && s[index] == 'p' && s[index + 1] == 'l' && s[index + 2] == 'a' && s[index + 3] == 'n'
            && s[index + 4] == '.';
        proof {
            if is_plan {
                assert(t.subrange(i, i + 5) =~= "plan."@);
            } else if crate::text::occurs_at(t, "plan."@, i) {
                assert(t.subrange(i, i + 5)[0] == t[i]);
                assert(t.subrange(i, i + 5)[4] == t[i + 4]);
                assert(t[i + 1] == s@[index + 1] && t[i + 2] == s@[index + 2] && t[i + 3] == s@[index + 3] && t[i + 4] == s@[index + 4]);
                assert(t.subrange(i, i + 5)[1] == t[i + 1] && t.subrange(i, i + 5)[2] == t[i + 2] && t.subrange(i, i + 5)[3] == t[i + 3]);
            }
            if index > a {
                assert(t[i - 1] == s@[index - 1]);
            }
        }
        if is_plan && (index == a || (!is_identifier_char(s[index - 1]) && s[index - 1] != '.')) {
            let start = index + 5;
            let mut end = start;
            while end < b && is_identifier_char(s[end])
                invariant
                    a <= start <= end <= b,
                    b <= s@.len(),
                    t == s@.subrange(a as int, b as int),
                    ident_head(t.skip(start - a)) == (end - start) + ident_head(t.skip(end - a)),
                decreases b - end,
            {
                assert(t.skip(end - a)[0] == s@[end as int]);
                assert(t.skip(end - a).drop_first() =~= t.skip(end - a + 1));
                end = end + 1;
            }
            proof {
                if end < b {
                    assert(t.skip(end - a)[0] == s@[end as int]);
                } else {
                    assert(t.skip(end - a) =~= Seq::<char>::empty());
                }
            }
            let ghost part: Seq<(int, int)> = if end > start && !plan_field(t.subrange(start - a, end - a)) {
                seq![(start - a, end - a)]
            } else {
                seq![]
            };
            if end > start {
                let field = crate::text::copy_range(s, start, end);
                assert(field@ == t.subrange(start - a, end - a));
                let known = crate::text::chars_eq(field.as_slice(), chars_of("root_target").as_slice())
                    || crate::text::chars_eq(field.as_slice(), chars_of("stages").as_slice());
                if !known {
                    let mut message = owned("未知的 plan 字段 `");
                    push_chars(&mut message, field.as_slice());
                    push_str(&mut message, "`；可用字段：root_target、stages");
                    let d = TemplateDiagnostic { start: position_at(s, start), end: position_at(s, end), code: "T002", message };
                    let ghost before = template_views(found@);
                    found.push(d);
                    proof {
                        assert(d@ == field_report(s@, a as int, (start - a, end - a)));
                        assert(template_views(found@) =~= before.push(d@));
                        assert(field_reports(s@, a as int, acc + part) =~= field_reports(s@, a as int, acc).push(d@));
                    }
                } else {
                    assert(field_reports(s@, a as int, acc + part) =~= field_reports(s@, a as int, acc));
                }
            } else {
                assert(field_reports(s@, a as int, acc + part) =~= field_reports(s@, a as int, acc));
            }
            proof {
                assert(plan_fields_from(t, i, None) == part + plan_fields_from(t, end - a, None));
                acc = acc + part;
            }
            index = end;
        } else {
            index = index + 1;
        }
    }
    proof {
        assert(plan_fields_from(t, index - a, quote) =~= Seq::<(int, int)>::empty());
        assert(acc + Seq::<(int, int)>::empty() =~= acc);
    }
}

/// The characters of `s` that fill its first `offset` UTF-8 bytes, if
/// `offset` falls between two characters.
pub open spec fn byte_prefix(s: Seq<char>, offset: nat) -> Option<Seq<char>> {
    if exists|k: int| 0 <= k <= s.len() && #[trigger] crate::lsp::utf8_len(s.take(k)) == offset {
        Some(s.take(choose|k: int| 0 <= k <= s.len() && #[trigger] crate::lsp::utf8_len(s.take(k)) == offset))
    } else {
        None
    }
}

/// Longer prefixes take more UTF-8 bytes.
proof fn lemma_utf8_len_grows(s: Seq<char>, j: int, k: int)
    requires
        0 <= j < k <= s.len(),
    ensures
        crate::lsp::utf8_len(s.take(j)) < crate::lsp::utf8_len(s.take(k)),
    decreases k - j,
{
    assert(s.take(k).drop_last() =~= s.take(k - 1));
    if j < k - 1 {
        lemma_utf8_len_grows(s, j, k - 1);
    }
}

/// The column, counted from one, at which a template error that starts at
/// byte `start` of `source` stands on its line: the characters after the
/// last line feed before it, plus one; none where `start` falls inside a
/// character or past the end.
pub fn error_column(source: &str, start: usize) -> (r: Option<usize>)
    requires
        source@.len() < usize::MAX,
    ensures
        match byte_prefix(source@, start as nat) {
            Some(p) => r == Some((last_line(p).len() + 1) as usize),
            None => r is None,
        },
{
    let s = chars_of(source);
    let k = match char_index_of_byte(s.as_slice(), start) {
        Some(k) => k,
        None => {
            return None;
        },
    };
    let ghost p = s@.take(k as int);
    let mut j = k;
    assert(last_line(p) == last_line(s@.take(j as int)));
    while j > 0 && s[j - 1] != '\n'
        invariant
            j <= k,
            k <= s@.len(),
            p == s@.take(k as int),
            last_line(p) == last_line(s@.take(j as int)) + s@.subrange(j as int, k as int),
        decreases j,
    {
        assert(s@.take(j as int).drop_last() =~= s@.take(j - 1));
        assert(s@.take(j as int).last() == s@[j - 1]);
        assert(s@.subrange(j - 1, k as int) =~= seq![s@[j - 1]] + s@.subrange(j as int, k as int));
        assert(last_line(s@.take(j as int)) == last_line(s@.take(j - 1)).push(s@[j - 1]));
        j = j - 1;
    }
    proof {
        if j > 0 {
            assert(s@.take(j as int).last() == s@[j - 1]);
        }
        assert(last_line(s@.take(j as int)) =~= Seq::<char>::empty());
        assert(last_line(p) =~= s@.subrange(j as int, k as int));
    }
    Some(k - j + 1)
}

/// The character position of a byte offset of `s`, if it falls between two
/// characters.
fn char_index_of_byte(s: &[char], offset: usize) -> (r: Option<usize>)
    ensures
        match byte_prefix(s@, offset as nat) {
            Some(p) => r matches Some(k) && k <= s@.len() && s@.take(k as int) == p,
            None => r is None,
        },
{
    let mut bytes: u128 = 0;
    let mut i: usize = 0;
    while i < s.len() && bytes < offset as u128
        invariant
            i <= s.len(),
            bytes == crate::lsp::utf8_len(s@.take(i as int)),
            bytes <= 4 * i,
            i > 0 ==> crate::lsp::utf8_len(s@.take(i - 1)) < offset,
        decreases s.len() - i,
    {
        assert(s@.take(i + 1).drop_last() =~= s@.take(i as int));
        let c = s[i];
        let u: u128 = if (c as u32) < 0x80 { 1 } else if (c as u32) < 0x800 { 2 } else if (c as u32) < 0x10000 { 3 } else { 4 };
        bytes = bytes + u;
        i = i + 1;
    }
    proof {
        let n = offset as nat;
        if bytes == offset as u128 {
            assert(crate::lsp::utf8_len(s@.take(i as int)) == n);
            let k = choose|k: int| 0 <= k <= s@.len() && #[trigger] crate::lsp::utf8_len(s@.take(k)) == n;
            if k < i {
                lemma_utf8_len_grows(s@, k, i as int);
            } else if k > i {
                lemma_utf8_len_grows(s@, i as int, k);
            }
        } else if exists|k: int| 0 <= k <= s@.len() && #[trigger] crate::lsp::utf8_len(s@.take(k)) == n {
            let k = choose|k: int| 0 <= k <= s@.len() && #[trigger] crate::lsp::utf8_len(s@.take(k)) == n;
            if k < i {
                if k < i - 1 {
                    lemma_utf8_len_grows(s@, k, i - 1);
                }
            } else if k > i {
                lemma_utf8_len_grows(s@, i as int, k);
            }
            assert(false);
        }
    }
    if bytes == offset as u128 {
        Some(i)
    } else {
        None
    }
}

/// The view of a template syntax error.
pub struct SyntaxErrorView {
    pub line: Option<nat>,
    pub range: Option<(nat, nat)>,
    pub message: Seq<char>,
}

/// A template syntax error: its line, its byte range, and its message.
#[derive(Debug)]
pub struct TemplateSyntaxError {
    pub line: Option<usize>,
    pub range: Option<(usize, usize)>,
    pub message: String,
}

/// The view of an optional syntax error.
pub open spec fn syntax_view(e: Option<TemplateSyntaxError>) -> Option<SyntaxErrorView> {
    match e {
        Some(x) => Some(SyntaxErrorView {
            line: match x.line {
                Some(n) => Some(n as nat),
                None => None,
            },
            range: match x.range {
                Some(r) => Some((r.0 as nat, r.1 as nat)),
                None => None,
            },
            message: x.message@,
        }),
        None => None,
    }
}

/// The syntax error `minijinja` finds when it compiles a template, if any.
pub uninterp spec fn template_syntax(source: Seq<char>) -> Option<SyntaxErrorView>;

/// Compiles the template with `minijinja::Environment::add_template` and
/// converts its error into plain values; the contract only names the
/// result, which depends on the source alone.
#[verifier::external_body]
fn check_syntax(source: &str) -> (r: Option<TemplateSyntaxError>)
    ensures
        syntax_view(r) == template_syntax(source@),
{
    let mut environment = minijinja::Environment::new();
    match environment.add_template("plan.md", source) {
        Ok(()) => None,
        Err(error) => Some(TemplateSyntaxError {
            line: error.line(),
            range: error.range().map(|span| (span.start, span.end)),
            message: error.to_string(),
        }),
    }
}

/// The range shown for a syntax error: its byte range where that falls
/// between characters, otherwise its whole line.
pub open spec fn syntax_range(source: Seq<char>, e: SyntaxErrorView) -> ((u32, u32), (u32, u32)) {
    let row = crate::lsp::marked_line(e.line);
    let whole_line = ((saturate(row), 0u32), (saturate(row), saturate(utf16_len(crate::lsp::line_text(source, row)))));
    match e.range {
        Some(span) => match byte_prefix(source, span.0) {
            Some(p) => (position_after(p), position_after(match byte_prefix(source, span.1) {
                Some(q) => q,
                None => seq![],
            })),
            None => whole_line,
        },
        None => whole_line,
    }
}

/// The diagnostics of a template given its syntax check: the syntax error
/// alone, or else the unknown plan fields.
pub open spec fn template_diagnostics(source: Seq<char>, syntax: Option<SyntaxErrorView>, r: Seq<TemplateDiagView>) -> bool {
    match syntax {
        Some(e) => r == seq![TemplateDiagView {
            start: syntax_range(source, e).0,
            end: syntax_range(source, e).1,
            code: "T001"@,
            message: e.message,
        }],
        None => r == tag_reports(source, tags_from(source, 0)),
    }
}

/// The diagnostics of a template whose syntax check gave `syntax`.
pub fn diagnostics_for(source: &str, syntax: &Option<TemplateSyntaxError>) -> (r: Vec<TemplateDiagnostic>)
    requires
        source@.len() + 8 <= usize::MAX,
    ensures
        template_diagnostics(source@, syntax_view(*syntax), template_views(r@)),
{
    let s = chars_of(source);
    match syntax {
        Some(e) => {
            let ghost ev = syntax_view(*syntax).unwrap();
            let row: usize = match e.line {
                Some(n) => if n > 0 { n - 1 } else { 0 },
                None => 0,
            };
            let ls = crate::text::lines_chars(s.as_slice());
            let ghost lv = crate::text::lines(source@);
            assert(ls@.map_values(|w: Vec<char>| w@) == lv);
            let width = if row < ls.len() {
                assert(ls@[row as int]@ == lv[row as int]);
                crate::lsp::utf16_count(ls[row].as_slice())
            } else {
                let empty: Vec<char> = Vec::new();
                crate::lsp::utf16_count(empty.as_slice())
            };
            let whole = ((crate::lsp::saturate_usize(row), 0u32), (crate::lsp::saturate_usize(row), width));
            let range = match e.range {
                Some((a, b)) => match char_index_of_byte(s.as_slice(), a) {
                    Some(ka) => {
                        let start = position_at(s.as_slice(), ka);
                        let end = match char_index_of_byte(s.as_slice(), b) {
                            Some(kb) => position_at(s.as_slice(), kb),
                            None => {
                                let empty: Vec<char> = Vec::new();
                                let p = position_at(empty.as_slice(), 0);
                                assert(empty@.take(0) =~= Seq::<char>::empty());
                                p
                            },
                        };
                        (start, end)
                    },
                    None => whole,
                },
                None => whole,
            };
            let d = TemplateDiagnostic { start: range.0, end: range.1, code: "T001", message: e.message.clone() };
            let mut r: Vec<TemplateDiagnostic> = Vec::new();
            r.push(d);
            assert(template_views(r@) =~= seq![d@]);
            r
        },
        None => {
            let tags = scan_tags(s.as_slice());
            let ghost tv = pair_ints(tags@);
            let mut found: Vec<TemplateDiagnostic> = Vec::new();
            let mut t: usize = 0;
            assert(template_views(found@) =~= tag_reports(s@, tv.take(0)));
            while t < tags.len()
                invariant
                    t <= tags.len(),
                    s@ == source@,
                    s@.len() + 8 <= usize::MAX,
                    tv == pair_ints(tags@),
                    forall|i: int| 0 <= i < tags@.len() ==> (#[trigger] tags@[i]).0 <= tags@[i].1 <= s@.len(),
                    template_views(found@) == tag_reports(s@, tv.take(t as int)),
                decreases tags.len() - t,
            {
                let (a, b) = tags[t];
                assert(tv[t as int] == (a as int, b as int));
                assert(tv.take(t + 1).drop_last() =~= tv.take(t as int));
                assert(tv.take(t + 1).last() == tv[t as int]);
                check_plan_fields(s.as_slice(), a, b, &mut found);
                t = t + 1;
            }
            assert(tv.take(t as int) =~= tv);
            found
        },
    }
}

/// The diagnostics of a template: its syntax error, or else its unknown
/// plan fields.
pub fn diagnostics(source: &str) -> (r: Vec<TemplateDiagnostic>)
    requires
        source@.len() + 8 <= usize::MAX,
    ensures
        template_diagnostics(source@, template_syntax(source@), template_views(r@)),
{
    let syntax = check_syntax(source);
    diagnostics_for(source, &syntax)
}

/// A field completion: the field name, its description, and the columns
/// of the word it replaces on the requested line.
#[derive(Debug, PartialEq, Eq)]
pub struct FieldCompletion {
    pub label: &'static str,
    pub detail: &'static str,
    pub start: u32,
    pub end: u32,
}

/// The fields of a template object with their descriptions, in order.
pub open spec fn object_fields(name: Seq<char>) -> Seq<(Seq<char>, Seq<char>)> {
    if name == "plan"@ {
        seq![("root_target"@, "用户指定的最终目标的限定名称"@), ("stages"@, "依赖在前的编译阶段列表"@)]
    } else if name == "stage"@ {
        seq![("index"@, "从 1 开始的阶段编号"@), ("targets"@, "本阶段可并行实施的目标列表"@)]
    } else if name == "target"@ {
        seq![
            ("id"@, "目标的限定名称"@),
            ("name"@, "目标的本地名称"@),
            ("dependencies"@, "直接前置目标的限定名称列表"@),
            ("description"@, "原始目标描述"@),
            ("specifications"@, "原始验收规格列表"@),
        ]
    } else {
        seq![]
    }
}

/// The fields of the object `name`, as a table.
fn fields_of(name: &[char]) -> (r: Vec<(&'static str, &'static str)>)
    ensures
        r@.len() == object_fields(name@).len(),
        forall|j: int| 0 <= j < r@.len() ==> (#[trigger] r@[j]).0@ == object_fields(name@)[j].0 && r@[j].1@ == object_fields(name@)[j].1,
{
    proof {
        reveal_strlit("plan");
        reveal_strlit("stage");
        reveal_strlit("target");
    }
    let mut r: Vec<(&'static str, &'static str)> = Vec::new();
    if crate::text::chars_eq(name, chars_of("plan").as_slice()) {
        r.push(("root_target", "用户指定的最终目标的限定名称"));
        r.push(("stages", "依赖在前的编译阶段列表"));
    } else if crate::text::chars_eq(name, chars_of("stage").as_slice()) {
        r.push(("index", "从 1 开始的阶段编号"));
        r.push(("targets", "本阶段可并行实施的目标列表"));
    } else if crate::text::chars_eq(name, chars_of("target").as_slice()) {
        r.push(("id", "目标的限定名称"));
        r.push(("name", "目标的本地名称"));
        r.push(("dependencies", "直接前置目标的限定名称列表"));
        r.push(("description", "原始目标描述"));
        r.push(("specifications", "原始验收规格列表"));
    }
    r
}

/// The pieces of `s` between line feeds, as `str::split('\n')` yields
/// them, `cur` being the piece read so far.
pub open spec fn pieces_from(s: Seq<char>, cur: Seq<char>) -> Seq<Seq<char>>
    decreases s.len(),
{
    if s.len() == 0 {
        seq![cur]
    } else if s[0] == '\n' {
        seq![cur] + pieces_from(s.drop_first(), seq![])
    } else {
        pieces_from(s.drop_first(), cur.push(s[0]))
    }
}

/// The pieces of `s` between line feeds.
pub open spec fn pieces(s: Seq<char>) -> Seq<Seq<char>> {
    pieces_from(s, seq![])
}

/// The quote that is still open after `s`, reading `'` and `"` as quotes
/// that the same character closes.
pub open spec fn open_quote(s: Seq<char>) -> Option<char>
    decreases s.len(),
{
    if s.len() == 0 {
        None
    } else {
        let c = s.last();
        match open_quote(s.drop_last()) {
            Some(d) => if d == c {
                None
            } else {
                Some(d)
            },
            None => if c == '\'' || c == '"' {
                Some(c)
            } else {
                None
            },
        }
    }
}

/// `pat` occurs somewhere in `s`.
pub open spec fn holds(s: Seq<char>, pat: Seq<char>) -> bool {
    exists|i: int| crate::text::occurs_at(s, pat, i)
}

/// The number of identifier characters at the end of `s`.
pub open spec fn ident_tail(s: Seq<char>) -> nat
    decreases s.len(),
{
    if s.len() > 0 && identifier_char(s.last()) {
        1 + ident_tail(s.drop_last())
    } else {
        0
    }
}

/// The number of identifier characters at the start of `s`.
pub open spec fn ident_head(s: Seq<char>) -> nat
    decreases s.len(),
{
    if s.len() > 0 && identifier_char(s[0]) {
        1 + ident_head(s.drop_first())
    } else {
        0
    }
}

/// The later of two positions, if there is one.
pub open spec fn later(a: Option<int>, b: Option<int>) -> Option<int> {
    match (a, b) {
        (Some(x), Some(y)) => Some(if x > y {
            x
        } else {
            y
        }),
        (Some(x), None) => Some(x),
        (None, y) => y,
    }
}

/// The view of a field completion.
pub struct FieldView {
    pub label: Seq<char>,
    pub detail: Seq<char>,
    pub start: u32,
    pub end: u32,
}

impl View for FieldCompletion {
    type V = FieldView;

    open spec fn view(&self) -> FieldView {
        FieldView { label: self.label@, detail: self.detail@, start: self.start, end: self.end }
    }
}

/// The views of field completions.
pub open spec fn field_views(v: Seq<FieldCompletion>) -> Seq<FieldView> {
    v.map_values(|f: FieldCompletion| f@)
}

/// The fields among `fields` whose name starts with `prefix`, in order,
/// each replacing the columns `start` to `end`.
pub open spec fn matching_fields(fields: Seq<(Seq<char>, Seq<char>)>, prefix: Seq<char>, start: u32, end: u32) -> Seq<FieldView>
    decreases fields.len(),
{
    if fields.len() == 0 {
        seq![]
    } else {
        let f = fields.last();
        matching_fields(fields.drop_last(), prefix, start, end) + if crate::text::starts_with(f.0, prefix) {
            seq![FieldView { label: f.0, detail: f.1, start, end }]
        } else {
            seq![]
        }
    }
}

/// The last position where `pat` occurs in `s`.
#[verifier::opaque]
pub open spec fn last_at(s: Seq<char>, pat: Seq<char>) -> Option<int> {
    crate::text::last_occurrence(s, pat)
}

/// Where the tag that `before` ends in opens: the last `{{` or `{%`,
/// unless `before` ends in a comment, or after the tag was closed, or in a
/// quoted string of the tag.
pub open spec fn tag_opening(before: Seq<char>) -> Option<int> {
    let cs = last_at(before, "{#"@);
    let ce = last_at(before, "#}"@);
    if cs is Some && (ce is None || cs->0 > ce->0) {
        None
    } else {
        match later(last_at(before, "{{"@), last_at(before, "{%"@)) {
            None => None,
            Some(o) => {
                let inner = before.skip(o);
                if open_quote(before.skip(o + 2)) is Some || holds(inner, "}}"@) || holds(inner, "%}"@) || holds(inner, "{#"@) {
                    None
                } else {
                    Some(o)
                }
            },
        }
    }
}

/// The field completions for the word that ends at character `offset` of
/// `line`, in a tag that opens at `o`: when the word follows `plan.`,
/// `stage.` or `target.` (a name that starts inside the tag and follows no
/// identifier or dot), the fields of that object that start with the word,
/// each replacing the whole word.
pub open spec fn word_completions(line: Seq<char>, offset: nat, character: u32, o: int) -> Seq<FieldView> {
    let ws = offset - ident_tail(line.take(offset as int));
    if ws == 0 || line[ws - 1] != '.' {
        seq![]
    } else {
        let ne = ws - 1;
        let ns = ne - ident_tail(line.take(ne));
        if ns == ne || ns < o + 2 || (ns > 0 && (identifier_char(line[ns - 1]) || line[ns - 1] == '.')) {
            seq![]
        } else {
            let prefix = line.subrange(ws, offset as int);
            let we = offset + ident_head(line.skip(offset as int));
            let start = (character - utf16_len(prefix)) as u32;
            let end = saturate((character + utf16_len(line.subrange(offset as int, we as int))) as nat);
            matching_fields(object_fields(line.subrange(ns, ne)), prefix, start, end)
        }
    }
}

/// The field completions at character `offset` of `line`, whose UTF-16
/// column is `character`: none outside an expression or statement tag.
pub open spec fn line_completions(line: Seq<char>, offset: nat, character: u32) -> Seq<FieldView> {
    match tag_opening(line.take(offset as int)) {
        None => seq![],
        Some(o) => word_completions(line, offset, character, o),
    }
}

/// The field completions at a position of a template.
#[verifier::opaque]
pub open spec fn field_completions(source: Seq<char>, line: u32, character: u32) -> Seq<FieldView> {
    let ps = pieces(source);
    if line >= ps.len() {
        seq![]
    } else {
        match crate::lsp::column_index(ps[line as int], character as nat) {
            None => seq![],
            Some(offset) => line_completions(ps[line as int], offset, character),
        }
    }
}

/// The UTF-16 length of two texts put together.
proof fn lemma_utf16_len_concat(a: Seq<char>, b: Seq<char>)
    ensures
        utf16_len(a + b) == utf16_len(a) + utf16_len(b),
    decreases b.len(),
{
    if b.len() == 0 {
        assert(a + b =~= a);
    } else {
        assert((a + b).drop_last() =~= a + b.drop_last());
        lemma_utf16_len_concat(a, b.drop_last());
    }
}

/// The text before a UTF-16 column has that many units.
proof fn lemma_column_units(line: Seq<char>, column: nat)
    requires
        crate::lsp::column_index(line, column) is Some,
    ensures
        crate::lsp::column_index(line, column)->0 <= line.len(),
        utf16_len(line.take(crate::lsp::column_index(line, column)->0 as int)) == column,
    decreases line.len(),
{
    if column == 0 {
        assert(line.take(0) =~= Seq::<char>::empty());
    } else {
        let u = crate::lsp::utf16_units(line[0]);
        let rest = line.drop_first();
        lemma_column_units(rest, (column - u) as nat);
        let i = crate::lsp::column_index(rest, (column - u) as nat)->0;
        assert(line.take(i + 1 as int) =~= seq![line[0]] + rest.take(i as int));
        lemma_utf16_len_concat(seq![line[0]], rest.take(i as int));
        assert(seq![line[0]].drop_last() =~= Seq::<char>::empty());
        let one = seq![line[0]];
        assert(one.last() == line[0]);
        assert(one.drop_last() =~= Seq::<char>::empty());
        assert(utf16_len(one.drop_last()) == 0);
        assert(utf16_len(one) == u);
        assert(crate::lsp::column_index(line, column) == Some((i + 1) as nat));
    }
}

/// Splits `s` at its line feeds.
fn pieces_chars(s: &[char]) -> (r: Vec<Vec<char>>)
    ensures
        r@.map_values(|w: Vec<char>| w@) == pieces(s@),
{
    let mut r: Vec<Vec<char>> = Vec::new();
    let mut cur: Vec<char> = Vec::new();
    let mut i: usize = 0;
    assert(s@.skip(0) == s@);
    while i < s.len()
        invariant
            i <= s.len(),
            pieces(s@) == r@.map_values(|w: Vec<char>| w@) + pieces_from(s@.skip(i as int), cur@),
        decreases s.len() - i,
    {
        let ghost rest = s@.skip(i as int);
        assert(rest.drop_first() == s@.skip(i + 1));
        if s[i] == '\n' {
            let ghost old_r = r@;
            r.push(cur);
            assert(r@.map_values(|w: Vec<char>| w@) == old_r.map_values(|w: Vec<char>| w@) + seq![cur@]);
            cur = Vec::new();
        } else {
            cur.push(s[i]);
        }
        i = i + 1;
    }
    let ghost old_r = r@;
    r.push(cur);
    assert(r@.map_values(|w: Vec<char>| w@) == old_r.map_values(|w: Vec<char>| w@) + seq![cur@]);
    r
}

/// The number of identifier characters that end `s[..k]`.
fn ident_tail_len(s: &[char], k: usize) -> (r: usize)
    requires
        k <= s.len(),
    ensures
        r == ident_tail(s@.take(k as int)),
        r <= k,
{
    let mut j = k;
    while j > 0 && is_identifier_char(s[j - 1])
        invariant
            j <= k,
            k <= s.len(),
            ident_tail(s@.take(k as int)) == (k - j) + ident_tail(s@.take(j as int)),
        decreases j,
    {
        assert(s@.take(j as int).drop_last() =~= s@.take(j - 1));
        assert(s@.take(j as int).last() == s@[j - 1]);
        j = j - 1;
    }
    if j > 0 {
        assert(s@.take(j as int).last() == s@[j - 1]);
    }
    k - j
}

/// The number of identifier characters that start `s[k..]`.
fn ident_head_len(s: &[char], k: usize) -> (r: usize)
    requires
        k <= s.len(),
    ensures
        r == ident_head(s@.skip(k as int)),
        k + r <= s.len(),
{
    let mut j = k;
    while j < s.len() && is_identifier_char(s[j])
        invariant
            k <= j <= s.len(),
            ident_head(s@.skip(k as int)) == (j - k) + ident_head(s@.skip(j as int)),
        decreases s.len() - j,
    {
        assert(s@.skip(j as int).drop_first() =~= s@.skip(j + 1));
        assert(s@.skip(j as int)[0] == s@[j as int]);
        j = j + 1;
    }
    if j < s.len() {
        assert(s@.skip(j as int)[0] == s@[j as int]);
    }
    j - k
}

/// The quote still open after `s[from..to]`.
fn quote_after(s: &[char], from: usize, to: usize) -> (r: Option<char>)
    requires
        from <= to <= s.len(),
    ensures
        r == open_quote(s@.subrange(from as int, to as int)),
{
    let mut quote: Option<char> = None;
    let mut q = from;
    assert(s@.subrange(from as int, from as int) =~= Seq::<char>::empty());
    while q < to
        invariant
            from <= q <= to,
            to <= s.len(),
            quote == open_quote(s@.subrange(from as int, q as int)),
        decreases to - q,
    {
        assert(s@.subrange(from as int, q + 1).drop_last() =~= s@.subrange(from as int, q as int));
        assert(s@.subrange(from as int, q + 1).last() == s@[q as int]);
        let c = s[q];
        match quote {
            Some(d) => {
                if d == c {
                    quote = None;
                }
            },
            None => {
                if c == '\'' || c == '"' {
                    quote = Some(c);
                }
            },
        }
        q = q + 1;
    }
    quote
}

/// Whether `pat` occurs in `s`.
fn holds_chars(s: &[char], pat: &str) -> (r: bool)
    ensures
        r == holds(s@, pat@),
{
    let p = chars_of(pat);
    crate::text::find_chars(s, p.as_slice()).is_some()
}

/// The last position of `pat` in `s`.
fn last_of(s: &[char], pat: &str) -> (r: Option<usize>)
    ensures
        match last_at(s@, pat@) {
            Some(i) => r matches Some(x) && x == i && i <= s@.len(),
            None => r is None,
        },
        r matches Some(i) ==> crate::text::occurs_at(s@, pat@, i as int),
{
    reveal(last_at);
    let p = chars_of(pat);
    let n = s.len();
    assert(s@.len() == n);
    crate::text::rfind_chars(s, p.as_slice())
}

/// Whether `before` ends inside a comment.
fn in_comment(before: &[char]) -> (r: bool)
    ensures
        r == ({
            let cs = last_at(before@, "{#"@);
            let ce = last_at(before@, "#}"@);
            cs is Some && (ce is None || cs->0 > ce->0)
        }),
{
    match last_of(before, "{#") {
        Some(a) => match last_of(before, "#}") {
            None => true,
            Some(b) => a > b,
        },
        None => false,
    }
}

/// The last `{{` or `{%` of `before`.
fn last_opening(before: &[char]) -> (r: Option<usize>)
    ensures
        match later(last_at(before@, "{{"@), last_at(before@, "{%"@)) {
            Some(o) => r == Some(o as usize) && 0 <= o && o + 2 <= before.len(),
            None => r is None,
        },
{
    proof {
        reveal_strlit("{{");
        reveal_strlit("{%");
    }
    match (last_of(before, "{{"), last_of(before, "{%")) {
        (Some(x), Some(y)) => if x > y {
            Some(x)
        } else {
            Some(y)
        },
        (Some(x), None) => Some(x),
        (None, Some(y)) => Some(y),
        (None, None) => None,
    }
}

/// Whether the tag opened at `o` in `before` is still open at its end,
/// outside a quoted string.
fn still_open(before: &[char], o: usize) -> (r: bool)
    requires
        o + 2 <= before.len(),
    ensures
        r == !(open_quote(before@.skip(o + 2)) is Some || holds(before@.skip(o as int), "}}"@) || holds(before@.skip(o as int), "%}"@)
            || holds(before@.skip(o as int), "{#"@)),
{
    let quote = quote_after(before, o + 2, before.len());
    assert(before@.subrange(o + 2, before.len() as int) =~= before@.skip(o + 2));
    if quote.is_some() {
        return false;
    }
    let inner = crate::text::copy_range(before, o, before.len());
    assert(inner@ =~= before@.skip(o as int));
    !(holds_chars(inner.as_slice(), "}}") || holds_chars(inner.as_slice(), "%}") || holds_chars(inner.as_slice(), "{#"))
}

/// Where the tag that `before` ends in opens.
fn opening_of(before: &[char]) -> (r: Option<usize>)
    ensures
        match tag_opening(before@) {
            Some(o) => r == Some(o as usize) && 0 <= o && o + 2 <= before.len(),
            None => r is None,
        },
{
    if in_comment(before) {
        return None;
    }
    match last_opening(before) {
        None => None,
        Some(o) => if still_open(before, o) {
            Some(o)
        } else {
            None
        },
    }
}

/// The fields of `fields` that start with `prefix`, replacing `start` to
/// `end`.
fn matching_list(fields: &Vec<(&'static str, &'static str)>, fv: Ghost<Seq<(Seq<char>, Seq<char>)>>, prefix: &[char], start: u32, end: u32) -> (r: Vec<FieldCompletion>)
    requires
        fields@.len() == fv@.len(),
        forall|x: int| 0 <= x < fields@.len() ==> (#[trigger] fields@[x]).0@ == fv@[x].0 && fields@[x].1@ == fv@[x].1,
    ensures
        field_views(r@) == matching_fields(fv@, prefix@, start, end),
{
    let mut r: Vec<FieldCompletion> = Vec::new();
    let mut j: usize = 0;
    assert(matching_fields(fv@.take(0), prefix@, start, end) =~= Seq::<FieldView>::empty());
    while j < fields.len()
        invariant
            j <= fields.len(),
            fields@.len() == fv@.len(),
            forall|x: int| 0 <= x < fields@.len() ==> (#[trigger] fields@[x]).0@ == fv@[x].0 && fields@[x].1@ == fv@[x].1,
            field_views(r@) == matching_fields(fv@.take(j as int), prefix@, start, end),
        decreases fields.len() - j,
    {
        assert(fv@.take(j + 1).drop_last() =~= fv@.take(j as int));
        assert(fv@.take(j + 1).last() == fv@[j as int]);
        let (label, detail) = fields[j];
        let lc = chars_of(label);
        let ghost before_r = field_views(r@);
        if crate::text::starts_with_chars(lc.as_slice(), prefix) {
            r.push(FieldCompletion { label, detail, start, end });
            assert(field_views(r@) =~= before_r.push(FieldView { label: fv@[j as int].0, detail: fv@[j as int].1, start, end }));
        }
        j = j + 1;
        assert(field_views(r@) =~= matching_fields(fv@.take(j as int), prefix@, start, end));
    }
    assert(fv@.take(j as int) =~= fv@);
    r
}

/// The field completions for the word that ends at character `offset` of
/// `line`, in a tag that opens at `o`.
fn word_field_completions(line: &[char], offset: usize, character: u32, o: usize) -> (r: Vec<FieldCompletion>)
    requires
        o + 2 <= offset <= line.len(),
        utf16_len(line@.take(offset as int)) == character,
    ensures
        field_views(r@) == word_completions(line@, offset as nat, character, o as int),
{
    let empty: Vec<FieldCompletion> = Vec::new();
    assert(field_views(empty@) =~= Seq::<FieldView>::empty());
    let tail = ident_tail_len(line, offset);
    let ws = offset - tail;
    if ws == 0 || line[ws - 1] != '.' {
        return empty;
    }
    let ne = ws - 1;
    let ns = ne - ident_tail_len(line, ne);
    if ns == ne || ns < o + 2 || (ns > 0 && (is_identifier_char(line[ns - 1]) || line[ns - 1] == '.')) {
        return empty;
    }
    let name = crate::text::copy_range(line, ns, ne);
    let fields = fields_of(name.as_slice());
    let prefix = crate::text::copy_range(line, ws, offset);
    let we = offset + ident_head_len(line, offset);
    let rest = crate::text::copy_range(line, offset, we);
    proof {
        assert(line@.take(offset as int) =~= line@.take(ws as int) + prefix@);
        lemma_utf16_len_concat(line@.take(ws as int), prefix@);
    }
    let typed = crate::lsp::utf16_count(prefix.as_slice());
    let after = crate::lsp::utf16_count(rest.as_slice());
    let start: u32 = character - typed;
    let end: u32 = if character as u64 + after as u64 > u32::MAX as u64 {
        u32::MAX
    } else {
        (character as u64 + after as u64) as u32
    };
    assert(end == saturate((character + utf16_len(rest@)) as nat));
    assert(line@.subrange(ws as int, offset as int) == prefix@);
    assert(line@.subrange(offset as int, we as int) == rest@);
    assert(line@.subrange(ns as int, ne as int) == name@);
    matching_list(&fields, Ghost(object_fields(name@)), prefix.as_slice(), start, end)
}

/// The field completions at character `offset` of `line`, whose UTF-16
/// column is `character`.
fn line_field_completions(line: &[char], offset: usize, character: u32) -> (r: Vec<FieldCompletion>)
    requires
        offset <= line.len(),
        utf16_len(line@.take(offset as int)) == character,
    ensures
        field_views(r@) == line_completions(line@, offset as nat, character),
{
    let before = crate::text::copy_range(line, 0, offset);
    assert(before@ =~= line@.take(offset as int));
    match opening_of(before.as_slice()) {
        None => {
            let empty: Vec<FieldCompletion> = Vec::new();
            assert(field_views(empty@) =~= Seq::<FieldView>::empty());
            empty
        },
        Some(o) => word_field_completions(line, offset, character, o),
    }
}

/// Field completions at a position of a template: inside an expression or
/// statement tag, right after `plan.`, `stage.` or `target.`, the fields of
/// that object that start with the word typed so far.
pub fn completions(source: &str, line: u32, character: u32) -> (r: Vec<FieldCompletion>)
    ensures
        field_views(r@) == field_completions(source@, line, character),
{
    reveal(field_completions);
    let empty: Vec<FieldCompletion> = Vec::new();
    assert(field_views(empty@) =~= Seq::<FieldView>::empty());
    let all = chars_of(source);
    let ps = pieces_chars(all.as_slice());
    if line as usize >= ps.len() {
        return empty;
    }
    let s = ps[line as usize].as_slice();
    assert(pieces(source@)[line as int] == ps@[line as int]@);
    match crate::lsp::column_index_of(s, character) {
        None => empty,
        Some(offset) => {
            proof {
                lemma_column_units(s@, character as nat);
            }
            line_field_completions(s, offset, character)
        },
    }
}

} // verus!
